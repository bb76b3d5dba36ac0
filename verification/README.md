# openbim_mmc

Safe, lossless mechanics for DIN 18290-1 / Multi-Model Container 2.0
archives, verified with Verus.

- `src/` is the verified library: bounded ZIP admission (`admission`,
  `zip_io`), exact root discovery and LinkModel discovery (`archive`), the
  `MultiModel.xml` and LinkModel parsers as state machines over XML event
  streams (`multimodel_xml`, `link_xml`, `xml_rules`, `xml_events`),
  conformance findings and report order (`conformance`, `validation`),
  archive-path admission and collision keys (`path`), the document writers
  and deterministic re-emission (`documents`, `xml_writer`, `writing`), the
  archive builder (`builder`), and the proofs that a written LinkModel or
  `MultiModel.xml` parses back to what was written (`read_back`,
  `round_trip`, `container_tree`, `container_round_trip`).
- `app/` holds what needs the filesystem or a stream: reading an archive
  from a reader, safe extraction, and the error type with `Display`.
- `tests/` exercises the library through its public API.
