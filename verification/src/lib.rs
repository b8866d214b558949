//! S-expression parser and serializer for OpenPGP key formats.
//!
//! Reads and writes the S-expression syntax of SPKI/SDSI (canonical,
//! advanced and base64 forms) and the GnuPG extended private key format,
//! with a configurable limit on list nesting.
pub mod advanced_round_trip;
pub mod advanced_stream_round_trip;
pub mod base64_round_trip;
pub mod chars;
pub mod depth;
pub mod depth_limit;
pub mod error;
pub mod ext_key;
pub mod input;
pub mod line_limit;
pub mod num;
pub mod output;
pub mod parse;
pub mod region;
pub mod round_trip;
pub mod ser;
pub mod stream_round_trip;
pub mod text;
pub mod types;

pub use depth::DepthManager;
pub use error::{Severity, SexpError};
pub use ext_key::{parse_extended, ExtKeyInputStream, ExtendedPrivateKey};
pub use input::{CharSource, SexpInputStream, SliceSource};
pub use output::SexpOutputStream;
pub use parse::{parse_advanced, parse_canonical};
pub use ser::PrintMode;
pub use types::{Sexp, SexpList, SexpString};
