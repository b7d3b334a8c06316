//! The scanner/mutator: a single left-to-right pass that opens a bounded
//! forward window at every start-marker occurrence, overwrites the first
//! end marker found inside the window with the selected replacement, and
//! reports how many sites were rewritten.

use vstd::prelude::*;

use crate::patterns::{
    is_end_candidate, is_end_window, is_start_candidate, is_start_window, replacement_bytes,
    spec_replacement, variant_for, variant_of, Variant, END_LEN, SEARCH_LIMIT, START_LEN,
};

verus! {

/// A start marker begins at offset `i` of the buffer.
pub open spec fn starts_at(b: Seq<u8>, i: int) -> bool {
    &&& 0 <= i
    &&& i + START_LEN as int <= b.len()
    &&& is_start_window(b.subrange(i, i + START_LEN as int))
}

/// An end marker begins at offset `j` of the buffer.
pub open spec fn ends_at(b: Seq<u8>, j: int) -> bool {
    &&& 0 <= j
    &&& j + END_LEN as int <= b.len()
    &&& is_end_window(b.subrange(j, j + END_LEN as int))
}

/// The last candidate offset (inclusive) at which an end marker may begin
/// inside the window opened by a start marker at offset `i`.
pub open spec fn window_last(len: int, i: int) -> int {
    let bound = i + START_LEN as int + SEARCH_LIMIT as int;
    let fit = len - END_LEN as int;
    if bound <= fit {
        bound
    } else {
        fit
    }
}

/// The smallest offset in `[lo, last]` at which an end marker begins,
/// if there is one.
pub open spec fn first_end_from(b: Seq<u8>, lo: int, last: int) -> Option<int>
    decreases last + 1 - lo,
{
    if lo > last {
        None
    } else if ends_at(b, lo) {
        Some(lo)
    } else {
        first_end_from(b, lo + 1, last)
    }
}

/// The offset the scan rewrites when it reaches offset `i`: the first end
/// marker inside the window opened by a start marker at `i`, if `i` holds
/// a start marker and the window holds an end marker.
pub open spec fn patch_site(b: Seq<u8>, i: int) -> Option<int> {
    if starts_at(b, i) {
        first_end_from(b, i + START_LEN as int, window_last(b.len() as int, i))
    } else {
        None
    }
}

/// The buffer with `rep` written over the bytes `[j, j + rep.len())`.
pub open spec fn apply_at(b: Seq<u8>, j: int, rep: Seq<u8>) -> Seq<u8> {
    Seq::new(b.len(), |k: int| if j <= k < j + rep.len() { rep[k - j] } else { b[k] })
}

/// The first offset (exclusive) the outer scan never reaches: start
/// markers are only tested where a full marker fits strictly inside the
/// buffer's prefix of testable offsets.
pub open spec fn outer_limit(len: int) -> int {
    if len >= START_LEN as int {
        len - START_LEN as int
    } else {
        0
    }
}

/// The scan from offset `i` on: the mutated buffer together with the
/// offsets that were overwritten, in the order they were found.
pub open spec fn scan_from(b: Seq<u8>, i: int, rep: Seq<u8>) -> (Seq<u8>, Seq<int>)
    decreases outer_limit(b.len() as int) - i,
{
    if i < 0 || i >= outer_limit(b.len() as int) {
        (b, Seq::empty())
    } else {
        match patch_site(b, i) {
            Some(j) => {
                let r = scan_from(apply_at(b, j, rep), i + 1, rep);
                (r.0, seq![j] + r.1)
            },
            None => scan_from(b, i + 1, rep),
        }
    }
}

/// The whole scan of a buffer for a variant: the mutated buffer and the
/// overwritten offsets.
pub open spec fn scan_bytes(b: Seq<u8>, v: Variant) -> (Seq<u8>, Seq<int>) {
    scan_from(b, 0, spec_replacement(v))
}

/// The one failure of the scan/mutate step.
#[derive(Clone, Copy, PartialEq, Eq, Structural, Debug)]
pub enum PatchError {
    /// No start marker had an end marker inside its window anywhere in
    /// the buffer: nothing was rewritten.
    NotFound,
}

impl PatchError {
    /// A human-readable account of the error.
    pub fn message(&self) -> (m: String)
        ensures
            m@ == "cannot detect bytes pattern to patch. Most likely patcher is outdated due to game updates or patch has already been applied"@,
    {
        "cannot detect bytes pattern to patch. Most likely patcher is outdated due to game updates or patch has already been applied".to_owned()
    }
}

proof fn lemma_first_end_found(b: Seq<u8>, lo: int, last: int, j: int)
    requires
        lo <= j <= last,
        ends_at(b, j),
        forall|k: int| lo <= k < j ==> !ends_at(b, k),
    ensures
        first_end_from(b, lo, last) == Some(j),
    decreases j - lo,
{
    if lo < j {
        lemma_first_end_found(b, lo + 1, last, j);
    }
}

pub(crate) proof fn lemma_first_end_none(b: Seq<u8>, lo: int, last: int)
    requires
        forall|k: int| lo <= k <= last ==> !ends_at(b, k),
    ensures
        first_end_from(b, lo, last) == None::<int>,
    decreases last + 1 - lo,
{
    if lo <= last {
        lemma_first_end_none(b, lo + 1, last);
    }
}

/// The smallest offset in `[lo, last]` at which an end marker begins in
/// the buffer, or `None` when the range holds no end marker.
fn find_first_end(bytes: &[u8], lo: usize, last: usize) -> (r: Option<usize>)
    requires
        lo <= last ==> last + END_LEN as int <= bytes@.len(),
    ensures
        match r {
            Some(j) => lo <= j <= last && first_end_from(bytes@, lo as int, last as int)
                == Some(j as int),
            None => first_end_from(bytes@, lo as int, last as int) == None::<int>,
        },
{
    let n = bytes.len();
    let mut j = lo;
    while j <= last
        invariant
            lo <= j,
            n == bytes@.len(),
            lo <= last ==> last + END_LEN as int <= n,
            forall|k: int| lo <= k < j ==> !ends_at(bytes@, k),
        decreases last + 1 - j,
    {
        if is_end_candidate(&bytes[j..j + END_LEN]) {
            proof {
                lemma_first_end_found(bytes@, lo as int, last as int, j as int);
            }
            return Some(j);
        }
        proof {
            assert(!ends_at(bytes@, j as int));
        }
        j = j + 1;
    }
    proof {
        lemma_first_end_none(bytes@, lo as int, last as int);
    }
    None
}

/// Scan the buffer once for the idiom and overwrite every matched end
/// marker in place with the replacement selected by the target
/// identifier. Returns how many sites were rewritten, or `NotFound` when
/// the pass matched nothing — in which case the buffer is unchanged.
pub fn modify_bytes(filename: &str, bytes: &mut Vec<u8>) -> (r: Result<usize, PatchError>)
    ensures
        final(bytes)@ == scan_bytes(old(bytes)@, variant_of(filename@)).0,
        final(bytes)@.len() == old(bytes)@.len(),
        match r {
            Ok(count) => count == scan_bytes(old(bytes)@, variant_of(filename@)).1.len()
                && count >= 1,
            Err(e) => e == PatchError::NotFound
                && scan_bytes(old(bytes)@, variant_of(filename@)).1.len() == 0
                && final(bytes)@ == old(bytes)@,
        },
{
    let ghost b0 = bytes@;
    let variant = variant_for(filename);
    let replacement = replacement_bytes(variant);
    let ghost rep = spec_replacement(variant);
    let n = bytes.len();
    let outer = if n >= START_LEN {
        n - START_LEN
    } else {
        0
    };
    let mut count: usize = 0;
    let mut i: usize = 0;
    while i < outer
        invariant
            i <= outer,
            count <= i,
            n == bytes@.len(),
            n == b0.len(),
            outer as int == outer_limit(b0.len() as int),
            replacement@ == rep,
            rep == spec_replacement(variant),
            scan_from(bytes@, i as int, rep).0 == scan_from(b0, 0, rep).0,
            count + scan_from(bytes@, i as int, rep).1.len() == scan_from(b0, 0, rep).1.len(),
            count == 0 ==> bytes@ == b0,
        decreases outer - i,
    {
        let ghost bcur = bytes@;
        if is_start_candidate(&bytes.as_slice()[i..i + START_LEN]) {
            proof {
                assert(starts_at(bcur, i as int));
            }
            if n >= END_LEN {
                let fit = n - END_LEN;
                let lo = i + START_LEN;
                let wlast = if lo <= fit && fit - lo > SEARCH_LIMIT {
                    lo + SEARCH_LIMIT
                } else {
                    fit
                };
                proof {
                    assert(wlast as int == window_last(b0.len() as int, i as int));
                }
                match find_first_end(bytes.as_slice(), lo, wlast) {
                    Some(j) => {
                        proof {
                            assert(patch_site(bcur, i as int) == Some(j as int));
                        }
                        bytes[j] = replacement[0];
                        bytes[j + 1] = replacement[1];
                        bytes[j + 2] = replacement[2];
                        bytes[j + 3] = replacement[3];
                        bytes[j + 4] = replacement[4];
                        bytes[j + 5] = replacement[5];
                        count = count + 1;
                        proof {
                            assert(bytes@ =~= apply_at(bcur, j as int, rep));
                        }
                    },
                    None => {
                        proof {
                            assert(patch_site(bcur, i as int) == None::<int>);
                        }
                    },
                }
            } else {
                proof {
                    assert(window_last(b0.len() as int, i as int) < i + START_LEN as int);
                    assert(patch_site(bcur, i as int) == None::<int>);
                }
            }
        } else {
            proof {
                assert(!starts_at(bcur, i as int));
                assert(patch_site(bcur, i as int) == None::<int>);
            }
        }
        i = i + 1;
    }
    proof {
        assert(scan_from(bytes@, i as int, rep) == (bytes@, Seq::<int>::empty()));
    }
    if count == 0 {
        Err(PatchError::NotFound)
    } else {
        Ok(count)
    }
}

} // verus!
