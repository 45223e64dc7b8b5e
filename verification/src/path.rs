//! Paths of parts inside a zip package.

use vstd::prelude::*;

verus! {

/// The pieces of `s` between the `'/'` characters, as `str::split('/')`
/// yields them: `""` gives `[""]`, `"a/"` gives `["a", ""]`.
pub open spec fn split_on_slash(s: Seq<char>) -> Seq<Seq<char>>
    decreases s.len(),
{
    if s.len() == 0 {
        seq![Seq::<char>::empty()]
    } else if s.last() == '/' {
        split_on_slash(s.drop_last()).push(Seq::<char>::empty())
    } else {
        let parts = split_on_slash(s.drop_last());
        parts.update(parts.len() - 1, parts.last().push(s.last()))
    }
}

/// The pieces of `parts` joined with `'/'` between neighbours.
pub open spec fn join_with_slash(parts: Seq<Seq<char>>) -> Seq<char>
    decreases parts.len(),
{
    if parts.len() == 0 {
        Seq::<char>::empty()
    } else if parts.len() == 1 {
        parts[0]
    } else {
        join_with_slash(parts.drop_last()) + seq!['/'] + parts.last()
    }
}

/// `"."`
pub open spec fn is_current_dir(c: Seq<char>) -> bool {
    c == seq!['.']
}

/// `".."`
pub open spec fn is_parent_dir(c: Seq<char>) -> bool {
    c == seq!['.', '.']
}

/// One component applied to the directory stack: empty components and `"."`
/// are dropped, `".."` leaves the current directory (nothing happens at the
/// root), any other name enters it.
pub open spec fn resolve_step(stack: Seq<Seq<char>>, component: Seq<char>) -> Seq<Seq<char>> {
    if component.len() == 0 || is_current_dir(component) {
        stack
    } else if is_parent_dir(component) {
        if stack.len() == 0 {
            stack
        } else {
            stack.drop_last()
        }
    } else {
        stack.push(component)
    }
}

/// The directory stack after applying every component from left to right.
pub open spec fn resolve_components(components: Seq<Seq<char>>) -> Seq<Seq<char>> {
    components.fold_left(Seq::<Seq<char>>::empty(), |stack: Seq<Seq<char>>, c: Seq<char>| resolve_step(stack, c))
}

/// The normal form of a part path: its components resolved and joined again.
pub open spec fn resolved_path(path: Seq<char>) -> Seq<char> {
    join_with_slash(resolve_components(split_on_slash(path)))
}

/// A component that survives resolution: not empty, not `"."`, not `".."`,
/// and without a `'/'`.
pub open spec fn is_plain_component(c: Seq<char>) -> bool {
    &&& c.len() > 0
    &&& !is_current_dir(c)
    &&& !is_parent_dir(c)
    &&& !c.contains('/')
}

/// `"/"` starts the child path.
pub open spec fn starts_with_slash(s: Seq<char>) -> bool {
    s.len() > 0 && s[0] == '/'
}

/// A child path that starts with `'/'` is taken as it is; any other child
/// path is appended to the parent path as text.
pub open spec fn combined_path(parent: Seq<char>, child: Seq<char>) -> Seq<char> {
    if starts_with_slash(child) {
        child
    } else {
        parent + child
    }
}

#[verifier::external_body]
fn push_char(s: &mut String, c: char)
    ensures
        final(s)@ == old(s)@.push(c),
{
    s.push(c);
}

/// Joining keeps a child path that starts with `'/'` as it is, and puts the
/// parent path in front of any other child path, whatever it holds (a
/// leading `..` included): the parent is never dropped for a relative child.
pub proof fn law_combine_appends_relative_child(parent: Seq<char>, child: Seq<char>)
    ensures
        (child.len() == 0 || child[0] != '/') ==> combined_path(parent, child) == parent + child,
        (child.len() > 0 && child[0] == '/') ==> combined_path(parent, child) == child,
        (child.len() == 0 || child[0] != '/') ==> combined_path(parent, child).len() == parent.len() + child.len(),
{
}

} // verus!
verus! {

/// The characters of `s`, in order.
fn chars_of(s: &str) -> (v: Vec<char>)
    ensures
        v@ == s@,
{
    let mut v: Vec<char> = Vec::new();
    for c in it: s.chars()
        invariant
            v@ == it.seq().take(it.index() as int),
    {
        v.push(c);
    }
    v
}

/// The views of the components on a directory stack.
pub open spec fn stack_view(stack: Seq<Vec<char>>) -> Seq<Seq<char>> {
    stack.map_values(|c: Vec<char>| c@)
}

/// Applies one path component to the directory stack.
fn apply_component(stack: &mut Vec<Vec<char>>, component: Vec<char>)
    ensures
        stack_view(final(stack)@) == resolve_step(stack_view(old(stack)@), component@),
{
    let n = component.len();
    let ghost before = stack_view(stack@);
    if n == 0 || (n == 1 && component[0] == '.') {
        assert(n == 1 ==> component@ =~= seq!['.']);
    } else if n == 2 && component[0] == '.' && component[1] == '.' {
        assert(component@ =~= seq!['.', '.']);
        if stack.len() > 0 {
            stack.pop();
            assert(stack_view(stack@) =~= before.drop_last());
        }
    } else {
        assert(!is_current_dir(component@)) by {
            if is_current_dir(component@) {
                assert(component@.len() == 1 && component@[0] == '.');
            }
        }
        assert(!is_parent_dir(component@)) by {
            if is_parent_dir(component@) {
                assert(component@.len() == 2 && component@[0] == '.' && component@[1] == '.');
            }
        }
        stack.push(component);
        assert(stack_view(stack@) =~= before.push(component@));
    }
}

/// Appends every character of `chars` to `out`.
fn push_all(out: &mut String, chars: &Vec<char>)
    ensures
        final(out)@ == old(out)@ + chars@,
{
    let mut k: usize = 0;
    while k < chars.len()
        invariant
            k <= chars.len(),
            out@ == old(out)@ + chars@.take(k as int),
        decreases chars.len() - k,
    {
        push_char(out, chars[k]);
        assert(chars@.take(k + 1) =~= chars@.take(k as int).push(chars@[k as int]));
        k += 1;
    }
    assert(chars@.take(chars.len() as int) =~= chars@);
}

/// Normalises a path inside a zip package: empty components and `"."` are
/// dropped, `".."` removes the component before it (nothing at the root),
/// and the remaining components are joined with `'/'`, so the result has no
/// leading or trailing `'/'`.
pub fn resolve_zip_file_path(path: &str) -> (resolved: String)
    ensures
        resolved@ == resolved_path(path@),
{
    let chars = chars_of(path);
    let ghost p = chars@;
    let mut stack: Vec<Vec<char>> = Vec::new();
    let mut current: Vec<char> = Vec::new();
    let ghost mut done: Seq<Seq<char>> = Seq::empty();
    let mut i: usize = 0;
    assert(p.take(0) =~= Seq::<char>::empty());
    assert(stack_view(stack@) =~= Seq::<Seq<char>>::empty());
    while i < chars.len()
        invariant
            i <= chars.len(),
            p == chars@,
            split_on_slash(p.take(i as int)) == done.push(current@),
            stack_view(stack@) == resolve_components(done),
        decreases chars.len() - i,
    {
        let c = chars[i];
        assert(p.take(i + 1).drop_last() =~= p.take(i as int));
        assert(p.take(i + 1).last() == c);
        if c == '/' {
            let ghost finished = current@;
            let component = current;
            current = Vec::new();
            apply_component(&mut stack, component);
            assert(done.push(finished).drop_last() =~= done);
            proof { done = done.push(finished); }
            assert(done.push(current@) =~= split_on_slash(p.take(i + 1)));
        } else {
            let ghost parts = split_on_slash(p.take(i as int));
            current.push(c);
            assert(done.push(current@) =~= parts.update(parts.len() - 1, parts.last().push(c)));
        }
        i += 1;
    }
    assert(p.take(chars.len() as int) =~= p);
    let ghost last = current@;
    apply_component(&mut stack, current);
    assert(done.push(last).drop_last() =~= done);
    let ghost components = stack_view(stack@);
    assert(components == resolve_components(split_on_slash(p)));

    let mut resolved = String::new();
    let mut k: usize = 0;
    assert(components.take(0) =~= Seq::<Seq<char>>::empty());
    while k < stack.len()
        invariant
            k <= stack.len(),
            components == stack_view(stack@),
            resolved@ == join_with_slash(components.take(k as int)),
        decreases stack.len() - k,
    {
        assert(components.take(k + 1).drop_last() =~= components.take(k as int));
        assert(components.take(k + 1).last() == stack@[k as int]@);
        if k > 0 {
            push_char(&mut resolved, '/');
        }
        push_all(&mut resolved, &stack[k]);
        assert(k == 0 ==> components.take(k + 1) =~= seq![stack@[0]@]);
        k += 1;
    }
    assert(components.take(stack.len() as int) =~= components);
    resolved
}

/// Joins two part paths: a child path that starts with `'/'` is taken as it
/// is, any other child path is appended to the parent path as text.
pub fn combine_paths(parent_path: &str, child_path: &str) -> (combined: String)
    ensures
        combined@ == combined_path(parent_path@, child_path@),
{
    let child = chars_of(child_path);
    if child.len() > 0 && child[0] == '/' {
        child_path.to_owned()
    } else {
        let mut combined = parent_path.to_owned();
        push_all(&mut combined, &child);
        combined
    }
}

// Laws of path resolution.

proof fn lemma_split_no_slash(s: Seq<char>)
    requires
        !s.contains('/'),
    ensures
        split_on_slash(s) == seq![s],
    decreases s.len(),
{
    if s.len() > 0 {
        assert(!s.drop_last().contains('/')) by {
            if s.drop_last().contains('/') {
                let j = choose|j: int| 0 <= j < s.drop_last().len() && s.drop_last()[j] == '/';
                assert(s[j] == '/');
            }
        }
        lemma_split_no_slash(s.drop_last());
        assert(s.last() != '/') by {
            assert(s[s.len() - 1] == s.last());
        }
        assert(s.drop_last().push(s.last()) =~= s);
        assert(split_on_slash(s) =~= seq![s]);
    } else {
        assert(s =~= Seq::<char>::empty());
    }
}

proof fn lemma_resolve_components_push(components: Seq<Seq<char>>, c: Seq<char>)
    ensures
        resolve_components(components.push(c)) == resolve_step(resolve_components(components), c),
{
    assert(components.push(c).drop_last() =~= components);
}

proof fn lemma_split_after_slash(a: Seq<char>, b: Seq<char>)
    requires
        !b.contains('/'),
    ensures
        split_on_slash(a + seq!['/'] + b) == split_on_slash(a).push(b),
    decreases b.len(),
{
    let x = a + seq!['/'] + b;
    if b.len() == 0 {
        assert(x.drop_last() =~= a);
        assert(x.last() == '/');
        assert(b =~= Seq::<char>::empty());
    } else {
        let b0 = b.drop_last();
        assert(!b0.contains('/')) by {
            if b0.contains('/') {
                let j = choose|j: int| 0 <= j < b0.len() && b0[j] == '/';
                assert(b[j] == '/');
            }
        }
        lemma_split_after_slash(a, b0);
        assert(x.drop_last() =~= a + seq!['/'] + b0);
        assert(x.last() == b.last());
        assert(b.last() != '/') by {
            assert(b[b.len() - 1] == b.last());
        }
        assert(b0.push(b.last()) =~= b);
        assert(split_on_slash(x) =~= split_on_slash(a).push(b));
    }
}

proof fn lemma_split_has_no_slash(s: Seq<char>)
    ensures
        forall|k: int| 0 <= k < split_on_slash(s).len() ==> !(#[trigger] split_on_slash(s)[k]).contains('/'),
        split_on_slash(s).len() >= 1,
    decreases s.len(),
{
    if s.len() > 0 {
        lemma_split_has_no_slash(s.drop_last());
        let parts = split_on_slash(s.drop_last());
        if s.last() != '/' {
            let last = parts.last().push(s.last());
            assert(!last.contains('/')) by {
                if last.contains('/') {
                    let j = choose|j: int| 0 <= j < last.len() && last[j] == '/';
                    if j < parts.last().len() {
                        assert(parts[parts.len() - 1][j] == '/');
                    }
                }
            }
        }
        assert forall|k: int| 0 <= k < split_on_slash(s).len() implies !(#[trigger] split_on_slash(s)[k]).contains('/') by {
            if s.last() == '/' && k == parts.len() {
                assert(split_on_slash(s)[k] =~= Seq::<char>::empty());
            } else if s.last() != '/' && k == parts.len() - 1 {
            } else {
                assert(split_on_slash(s)[k] == parts[k]);
            }
        }
    }
}

proof fn lemma_resolve_plain(components: Seq<Seq<char>>)
    requires
        forall|k: int| 0 <= k < components.len() ==> !(#[trigger] components[k]).contains('/'),
    ensures
        forall|k: int| 0 <= k < resolve_components(components).len()
            ==> is_plain_component(#[trigger] resolve_components(components)[k]),
    decreases components.len(),
{
    if components.len() > 0 {
        let prefix = components.drop_last();
        assert forall|k: int| 0 <= k < prefix.len() implies !(#[trigger] prefix[k]).contains('/') by {
            assert(prefix[k] == components[k]);
        }
        lemma_resolve_plain(prefix);
        assert(!components.last().contains('/')) by {
            assert(components[components.len() - 1] == components.last());
        }
        let before = resolve_components(prefix);
        assert(resolve_components(components) == resolve_step(before, components.last()));
        assert forall|k: int| 0 <= k < resolve_components(components).len()
            implies is_plain_component(#[trigger] resolve_components(components)[k]) by {
            if k < before.len() {
                assert(resolve_components(components)[k] == before[k]);
            }
        }
    }
}

proof fn lemma_resolve_identity(stack: Seq<Seq<char>>)
    requires
        forall|k: int| 0 <= k < stack.len() ==> is_plain_component(#[trigger] stack[k]),
    ensures
        resolve_components(stack) == stack,
    decreases stack.len(),
{
    if stack.len() > 0 {
        let prefix = stack.drop_last();
        assert forall|k: int| 0 <= k < prefix.len() implies is_plain_component(#[trigger] prefix[k]) by {
            assert(prefix[k] == stack[k]);
        }
        lemma_resolve_identity(prefix);
        assert(is_plain_component(stack.last())) by {
            assert(stack[stack.len() - 1] == stack.last());
        }
        assert(prefix.push(stack.last()) =~= stack);
    }
}

proof fn lemma_split_join(stack: Seq<Seq<char>>)
    requires
        stack.len() > 0,
        forall|k: int| 0 <= k < stack.len() ==> is_plain_component(#[trigger] stack[k]),
    ensures
        split_on_slash(join_with_slash(stack)) == stack,
    decreases stack.len(),
{
    assert(is_plain_component(stack.last())) by {
        assert(stack[stack.len() - 1] == stack.last());
    }
    if stack.len() == 1 {
        assert(is_plain_component(stack[0]));
        lemma_split_no_slash(stack[0]);
        assert(stack =~= seq![stack[0]]);
    } else {
        let prefix = stack.drop_last();
        assert forall|k: int| 0 <= k < prefix.len() implies is_plain_component(#[trigger] prefix[k]) by {
            assert(prefix[k] == stack[k]);
        }
        lemma_split_join(prefix);
        lemma_split_after_slash(join_with_slash(prefix), stack.last());
        assert(prefix.push(stack.last()) =~= stack);
    }
}

/// Every component left in a resolved path is a plain name: none is empty,
/// `"."`, `".."`, or holds a `'/'`.
pub proof fn law_resolved_components_are_plain(path: Seq<char>)
    ensures
        forall|k: int| 0 <= k < resolve_components(split_on_slash(path)).len()
            ==> is_plain_component(#[trigger] resolve_components(split_on_slash(path))[k]),
{
    lemma_split_has_no_slash(path);
    lemma_resolve_plain(split_on_slash(path));
}

/// Resolving a path that was already resolved changes nothing.
pub proof fn law_resolve_idempotent(path: Seq<char>)
    ensures
        resolved_path(resolved_path(path)) == resolved_path(path),
{
    law_resolved_components_are_plain(path);
    let stack = resolve_components(split_on_slash(path));
    if stack.len() == 0 {
        let empty = Seq::<char>::empty();
        assert(resolved_path(path) == empty);
        assert(split_on_slash(empty) == seq![empty]);
        lemma_resolve_components_push(Seq::<Seq<char>>::empty(), empty);
        assert(Seq::<Seq<char>>::empty().push(empty) =~= seq![empty]);
    } else {
        lemma_split_join(stack);
        lemma_resolve_identity(stack);
    }
}

} // verus!
