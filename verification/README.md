# ooxmlsdk (verified runtime helpers)

Runtime helpers of an Office Open XML SDK, verified with Verus:

- `path` — normalising part paths inside a zip package and joining them;
  resolution is proved idempotent.
- `text` — the schema's boolean spellings, escaping, entity resolution and
  UTF-8 decoding as `quick_xml` and std provide them; escaping is proved
  injective and undone by entity resolution.
- `reader` — a reader of XML events over bytes in memory, built on
  `quick_xml`, that keeps a ghost history of what it answered; that history
  replays the answers quick-xml gives for the input (`xml_items`).
- `machine` — readers stated as machines over that history: each reading
  function stops exactly where its machine stops, with the machine's result.
- `namespaces` — qualified names, the prefix map and namespace declarations.
- `elements` — skipping an element, reading an element's text, finding a
  start tag.
- `core_properties` — reading and writing the OPC core-properties part.
- `read_back` — the layout of the written part, and the proof that reading
  events laid out as that part gives the written properties back, with the
  default namespace bound first in the prefix map. Which events quick-xml
  yields for a given text is not stated; the proof is over that layout.
- `alternate_content` — the `mc:AlternateContent` stack; reading a whole
  `AlternateContent` is proved to enter exactly its first readable branch.

`app/` holds what needs I/O or outside traits: reading a part from any
`BufRead`, and an error type with messages.
