//! Binary lambda calculus terms, their bit-exact codec, and the binary
//! work-package format that carries an encoded program to a service.

pub mod bindings;
pub mod bits;
pub mod blc;
pub mod bytes;
pub mod combinators;
pub mod error;
pub mod hexcodec;
pub mod jam;
pub mod text;
pub mod work_package;

pub use blc::{encode_blc, parse_blc, Term};
pub use error::BlcError;
pub use jam::{encode_jam_compact, JamClient, WorkItem};
pub use text::parse_blc_text;
pub use work_package::{blake2b_256, BlcWorkPackageBuilder, WorkPackage};
