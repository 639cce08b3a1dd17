//! Verified building blocks of an ebook converter: the chapter tree and its
//! list-fusion pass, the KF8 (AZW3) record writers, and the KFX position maps.

pub mod links;
pub mod chapter;
pub mod fuse;
pub mod text;
pub mod strmap;
pub mod anchors;
pub mod guide;
pub mod toc;
pub mod bytes;
pub mod kf8_links;
pub mod kf8;
pub mod resources;
pub mod positions;
pub mod kf8_text;
pub mod azw3;
