# lol_html

A streaming HTML rewriter, as a library whose behaviour is stated in contracts and proved.

* `src/base` holds bytes with their places in the document, and character encodings.
* `src/html` holds tag names, packed into integers where they fit, and namespaces.
* `src/memory` holds the buffer for input carried across chunks, and the limit on memory.
* `src/parser` decides which state machine parses the input and where it goes on.
* `src/rewritable_units` decodes text nodes piece by piece.
* `src/rewriter` runs content handlers on tokens, and parks a token while a handler is suspended.
* `src/selectors_vm` turns CSS selectors into a tree.
* `src/transform_stream` keeps what a parse left of the input, through chunks and suspensions.

The modules named `*_laws` state what holds across several functions. The decoding and encoding of
text is done by `encoding_rs`; what is believed of it stands in `src/base/encoding.rs`.

`app` is ordinary Rust around the library: it parses selectors with the `selectors` crate, runs the
state machines and the output, and turns closures into handlers.
