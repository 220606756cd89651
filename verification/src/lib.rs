//! Typed handling of Squad replay bundles: classification of replay class
//! names, the `.sqrb` container format, and the compatibility projection.
use crate::text::{bytes_of, ends_with, lower_all, lowercase_ends_with};
use vstd::prelude::*;

pub mod classify;
pub mod codec;
pub mod compat;
pub mod laws;
pub mod sqrb;
pub mod text;

verus! {

/// The two serialized bundle formats.
#[derive(Debug, Clone, Copy, PartialEq, Eq)]
pub enum BundleFormat {
    /// The binary `.sqrb` container.
    Sqrb,
    /// The `.sqrj.json` JSON bundle.
    Sqrj,
}

/// The format that a bundle file's name announces, ignoring ASCII case:
/// `.sqrb` is binary; `.sqrj`, `.sqrj.json` and `.json` are JSON.
pub open spec fn announced_format(name: Seq<u8>) -> Option<BundleFormat> {
    let lowered = lower_all(name);
    if ends_with(lowered, bytes_of(".sqrb")) {
        Some(BundleFormat::Sqrb)
    } else if ends_with(lowered, bytes_of(".sqrj")) || ends_with(lowered, bytes_of(".sqrj.json"))
        || ends_with(lowered, bytes_of(".json")) {
        Some(BundleFormat::Sqrj)
    } else {
        None
    }
}

/// The format of a bundle file, from its file name; `None` when the name
/// announces neither format.
pub fn infer_bundle_format(file_name: &str) -> (res: Option<BundleFormat>)
    ensures
        res == announced_format(bytes_of(file_name)),
{
    if lowercase_ends_with(file_name, ".sqrb") {
        return Some(BundleFormat::Sqrb);
    }
    if lowercase_ends_with(file_name, ".sqrj") || lowercase_ends_with(file_name, ".sqrj.json")
        || lowercase_ends_with(file_name, ".json") {
        return Some(BundleFormat::Sqrj);
    }
    None
}

} // verus!
