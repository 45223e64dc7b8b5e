use ooxmlsdk::path::{combine_paths, resolve_zip_file_path};

#[test]
fn resolve_drops_dot_and_empty_components() {
    assert_eq!(resolve_zip_file_path("word/./document.xml"), "word/document.xml");
    assert_eq!(resolve_zip_file_path("/word//document.xml"), "word/document.xml");
    assert_eq!(resolve_zip_file_path("word/media/"), "word/media");
}

#[test]
fn resolve_parent_removes_previous_component() {
    assert_eq!(resolve_zip_file_path("word/../docProps/core.xml"), "docProps/core.xml");
    assert_eq!(resolve_zip_file_path("word/_rels/../media/image1.png"), "word/media/image1.png");
    assert_eq!(resolve_zip_file_path("a/b/c/../../d"), "a/d");
}

#[test]
fn resolve_parent_at_root_is_ignored() {
    assert_eq!(resolve_zip_file_path("../word/document.xml"), "word/document.xml");
    assert_eq!(resolve_zip_file_path("../../a"), "a");
}

#[test]
fn resolve_edge_cases() {
    assert_eq!(resolve_zip_file_path(""), "");
    assert_eq!(resolve_zip_file_path("/"), "");
    assert_eq!(resolve_zip_file_path("."), "");
    assert_eq!(resolve_zip_file_path(".."), "");
    assert_eq!(resolve_zip_file_path("..."), "...");
    assert_eq!(resolve_zip_file_path(".hidden/x"), ".hidden/x");
    assert_eq!(resolve_zip_file_path("dossier/été/ü.xml"), "dossier/été/ü.xml");
}

#[test]
fn resolve_is_idempotent_on_examples() {
    for p in ["/a/./b/../c//d/", "../x/y/..", "word/document.xml", "", "./../."] {
        let once = resolve_zip_file_path(p);
        assert_eq!(resolve_zip_file_path(&once), once);
    }
}

#[test]
fn combine_relative_child_is_appended() {
    assert_eq!(combine_paths("word/", "media/image1.png"), "word/media/image1.png");
    assert_eq!(combine_paths("word", "media"), "wordmedia");
    assert_eq!(combine_paths("", "a"), "a");
}

#[test]
fn combine_absolute_child_is_kept() {
    assert_eq!(combine_paths("word/", "/customXml/item1.xml"), "/customXml/item1.xml");
    assert_eq!(combine_paths("anything", "/"), "/");
}

#[test]
fn combine_then_resolve() {
    let combined = combine_paths("word/", "../media/image1.png");
    assert_eq!(resolve_zip_file_path(&combined), "media/image1.png");
}
