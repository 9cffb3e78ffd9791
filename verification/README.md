# hddm

Reading and writing HDDM (Hierarchical Data Description Model) files, the
record format used in GlueX, as a Verus-verified library.

An HDDM file is an XML header that describes a tree of elements (the model),
followed by a stream of records. Each record is an element: a 32-bit size and
the XDR encoding of its contents. Status tokens switch the stream between
plain records and blocks of records compressed with zlib or bzip2.

## Layout

- `src/xdr.rs`: XDR integers, booleans and strings, with their byte-level
  specifications and round-trip lemmas.
- `src/format.rs`, `src/records.rs`: element frames, status tokens, and the
  abstract record stream, with the theorem that a well-formed stream is read
  back record by record.
- `src/write.rs`, `src/read.rs`: writers and readers of elements, lists,
  links, compressed blocks and record streams.
- `src/header.rs`, `src/header_parse.rs`, `src/xml.rs`: the model and its
  reading from the XML header (through quick-xml).
- `src/plan.rs`, `src/model_match.rs`: how a file's model maps onto the model
  that record types were generated from.
- `src/file.rs`: files held in memory, a header then records.
- `src/compression.rs`: streams of per-write zlib blocks.
- `src/codegen.rs`: the naming and shape rules of generated record types.
- `src/codec.rs`: the zlib and bzip2 codecs (flate2 and bzip2 crates).
- `src/message.rs`: the text of each error.
- `app/`: the `hddm-rs` command line tool, which reads a model file and prints
  Rust bindings for it; also file-system access and floating-point helpers.
