//! Split and rebuild Novatek NVTPACK dashcam firmware images.
//!
//! The library holds the format logic: the Novatek checksum, the image header
//! and partition table, the CKSM / uImage / build-tag containers, the plan for
//! splitting an image into payloads, and the builder that lays an image out
//! again. File and console work lives in the program around it.

pub mod checksum;
pub mod bytes;
pub mod text;
pub mod format;
pub mod manifest;
pub mod inspect;
pub mod unpack;
pub mod pack;
pub mod roundtrip;
