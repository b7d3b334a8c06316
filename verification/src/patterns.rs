//! The pattern catalog: the fixed start markers, end markers and
//! per-variant replacement sequences, plus the rule that maps a target
//! identifier to its replacement.

use vstd::prelude::*;

verus! {

/// Number of bytes in every start marker.
pub const START_LEN: usize = 3;

/// Number of bytes in every end marker and in every replacement.
pub const END_LEN: usize = 6;

/// How many bytes past the end of a start marker an end marker may begin
/// and still count as the same idiom.
pub const SEARCH_LIMIT: usize = 14;

/// Which replacement sequence a target binary receives.
#[derive(Clone, Copy, PartialEq, Eq, Structural, Debug)]
pub enum Variant {
    /// The replacement used for every target not special-cased below.
    Default,
    /// The replacement used for the `eu5.exe` target.
    Eu5,
}

/// A window of bytes is one of the start markers.
pub open spec fn is_start_window(w: Seq<u8>) -> bool {
    &&& w.len() == START_LEN
    &&& {
        ||| (w[0] == 0x48u8 && w[1] == 0x8bu8 && w[2] == 0x12u8)
        ||| (w[0] == 0x48u8 && w[1] == 0x8du8 && w[2] == 0x0du8)
        ||| (w[0] == 0x48u8 && w[1] == 0x8bu8 && w[2] == 0xd0u8)
    }
}

/// A window of bytes is one of the end markers.
pub open spec fn is_end_window(w: Seq<u8>) -> bool {
    &&& w.len() == END_LEN
    &&& w[0] == 0x85u8
    &&& w[1] == 0xc0u8
    &&& w[2] == 0x0fu8
    &&& w[3] == 0x94u8
    &&& {
        ||| (w[4] == 0xc3u8 && w[5] == 0xe8u8)
        ||| (w[4] == 0xc1u8 && w[5] == 0x88u8)
    }
}

/// The replacement sequence for a variant.
pub open spec fn spec_replacement(v: Variant) -> Seq<u8> {
    match v {
        Variant::Default => seq![0x31u8, 0xc0u8, 0x0fu8, 0x94u8, 0xc3u8, 0xe8u8],
        Variant::Eu5 => seq![0x31u8, 0xc0u8, 0x0fu8, 0x94u8, 0xc1u8, 0x88u8],
    }
}

/// The variant selected by a target identifier: `eu5.exe` gets its own
/// replacement, every other identifier the default one.
pub open spec fn variant_of(name: Seq<char>) -> Variant {
    if name == "eu5.exe"@ {
        Variant::Eu5
    } else {
        Variant::Default
    }
}

/// True when a slice of bytes equals one of the start markers.
pub fn is_start_candidate(bytes: &[u8]) -> (r: bool)
    ensures
        r == is_start_window(bytes@),
{
    bytes.len() == START_LEN && ((bytes[0] == 0x48 && bytes[1] == 0x8b && bytes[2] == 0x12)
        || (bytes[0] == 0x48 && bytes[1] == 0x8d && bytes[2] == 0x0d)
        || (bytes[0] == 0x48 && bytes[1] == 0x8b && bytes[2] == 0xd0))
}

/// True when a slice of bytes equals one of the end markers.
pub fn is_end_candidate(bytes: &[u8]) -> (r: bool)
    ensures
        r == is_end_window(bytes@),
{
    bytes.len() == END_LEN && bytes[0] == 0x85 && bytes[1] == 0xc0 && bytes[2] == 0x0f
        && bytes[3] == 0x94 && ((bytes[4] == 0xc3 && bytes[5] == 0xe8)
        || (bytes[4] == 0xc1 && bytes[5] == 0x88))
}

/// The variant a target identifier resolves to.
pub fn variant_for(filename: &str) -> (v: Variant)
    ensures
        v == variant_of(filename@),
{
    if filename.to_owned() == "eu5.exe".to_owned() {
        Variant::Eu5
    } else {
        Variant::Default
    }
}

/// The replacement bytes for a variant.
pub fn replacement_bytes(v: Variant) -> (r: [u8; 6])
    ensures
        r@ == spec_replacement(v),
{
    let r: [u8; 6] = match v {
        Variant::Default => [0x31, 0xc0, 0x0f, 0x94, 0xc3, 0xe8],
        Variant::Eu5 => [0x31, 0xc0, 0x0f, 0x94, 0xc1, 0x88],
    };
    proof {
        assert(r@ =~= spec_replacement(v));
    }
    r
}

/// The replacement bytes selected by a target identifier.
pub fn get_replacement(filename: &str) -> (r: [u8; 6])
    ensures
        r@ == spec_replacement(variant_of(filename@)),
{
    replacement_bytes(variant_for(filename))
}

/// The target identifiers the patcher recognizes.
pub open spec fn spec_is_supported(name: Seq<char>) -> bool {
    ||| name == "eu4.exe"@
    ||| name == "eu5.exe"@
    ||| name == "hoi4.exe"@
}

/// True when a file name is one of the recognized game executables.
pub fn is_supported_exe(filename: &str) -> (r: bool)
    ensures
        r == spec_is_supported(filename@),
{
    let owned = filename.to_owned();
    owned == "eu4.exe".to_owned() || owned == "eu5.exe".to_owned() || owned
        == "hoi4.exe".to_owned()
}

} // verus!
