//! A parser for Android boot image headers (`boot.img`), and what
//! `unpack_bootimg` derives from them: the parts of the image to extract, the
//! information listing and the `mkbootimg` arguments that rebuild the image.
//!
//! Byte array fields can be used as null-terminated strings, see
//! [`take_until_null`].
pub mod bytestring;
pub mod digest;
pub mod header;
pub mod text;
pub mod unpack;
pub mod version;

pub use bytestring::{escaped_null_bytestring, take_until_null};
pub use digest::HashAlgorithm;
pub use header::{Header, HeaderV0, HeaderV0Versioned, HeaderV3, ParseError};
pub use unpack::{extraction_plan, info_fmt, mkbootimg_fmt, OutPaths, Part, PartKind};
pub use version::{OsPatch, OsVersion, OsVersionPatch};
