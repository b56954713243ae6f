//! Streaming decoder for `multipart/form-data` request bodies.
//!
//! A body is read piece by piece from a request, in whatever pieces the
//! request delivers it, and decoded into its parts: for each part what its
//! header block says of it, and the bytes of its body. What comes out depends
//! on the bytes of the body alone, never on the pieces they came in.
//!
//! - `source`: the interfaces through which a request reaches the decoder.
//! - `wire`: delimiters, and where they occur in a sequence of bytes.
//! - `text`, `head`: the header block of a part.
//! - `cursor`: the buffer over a request body.
//! - `session`: the decoder itself, one part at a time.
//! - `decode`: a whole body at once.
//! - `encode`: an encoder, and the proof that decoding undoes it.
//! - `content_type`: the boundary that a `Content-Type` header announces.
//! - `mock`, `fuzz`: transports that deliver pieces of random size, and the
//!   entry point for fuzzing.

pub mod error;
pub mod source;
pub mod wire;
pub mod text;
pub mod head;
pub mod cursor;
pub mod session;
pub mod decode;
pub mod encode;
pub mod mock;
pub mod content_type;
pub mod fuzz;
