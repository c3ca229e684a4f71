//! Extraction of the `name` and `filename` parameters from the value of a
//! `Content-Disposition` header of a `multipart/form-data` part.
//!
//! The parameter list is scanned leniently: malformed parameters are skipped
//! rather than rejected, an extended parameter (`name*=charset'lang'value`)
//! overrides a plain one wherever it stands, and among plain parameters the
//! leftmost wins.
pub mod bytes;
pub mod content_disposition;
pub mod headers;
pub mod laws;
pub mod occurrences;
pub mod parser;
pub mod percent;
pub mod search;
pub mod shapes;
pub mod text;

pub use crate::bytes::{trim_ascii_ws_start, trim_ascii_ws_then};
pub use crate::content_disposition::{ContentDisposition, ContentDispositionAttr};
pub use crate::parser::matches_prefix;
pub use crate::percent::percent_decode;
pub use crate::text::{convert_escaped, decode_field};
