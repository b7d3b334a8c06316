//! Laws of the scanner, proved once for every buffer and variant: the
//! scan keeps the buffer's length, touches only the windows it rewrites,
//! writes the selected replacement at every rewritten window, never
//! rewrites an end marker that no start marker's window covers, leaves a
//! matchless buffer untouched, and — wherever no start window holds two
//! end markers — finds nothing on a second pass.

use vstd::prelude::*;

use crate::patterns::{is_end_window, spec_replacement, Variant, END_LEN, START_LEN};
use crate::scanner::{
    apply_at, ends_at, first_end_from, lemma_first_end_none, outer_limit, patch_site, scan_bytes,
    scan_from, starts_at, window_last,
};

verus! {

/// The byte sequence is one of the catalog's replacements.
pub open spec fn is_replacement(rep: Seq<u8>) -> bool {
    rep == spec_replacement(Variant::Default) || rep == spec_replacement(Variant::Eu5)
}

/// An end marker begins at `j` inside the window opened by a start
/// marker at `i`.
pub open spec fn end_in_window(b: Seq<u8>, i: int, j: int) -> bool {
    &&& i + START_LEN as int <= j <= window_last(b.len() as int, i)
    &&& ends_at(b, j)
}

/// No start marker's window holds two distinct end-marker occurrences.
pub open spec fn lone_end_per_window(b: Seq<u8>) -> bool {
    forall|i: int, j1: int, j2: int|
        starts_at(b, i) && end_in_window(b, i, j1) && end_in_window(b, i, j2) ==> j1 == j2
}

proof fn lemma_apply_starts(b: Seq<u8>, j: int, rep: Seq<u8>, p: int)
    requires
        ends_at(b, j),
        is_replacement(rep),
    ensures
        starts_at(apply_at(b, j, rep), p) <==> starts_at(b, p),
{
    let c = apply_at(b, j, rep);
    assert(rep.len() == END_LEN as int);
    if p < 0 || p + START_LEN as int > b.len() {
    } else if p + START_LEN as int <= j || j + END_LEN as int <= p {
        assert(c.subrange(p, p + START_LEN as int) =~= b.subrange(p, p + START_LEN as int));
    } else {
        // the start window would overlap the rewritten end window: no
        // byte of a replacement is a byte of a start marker, and no byte
        // of an end marker sits where a start marker needs it
        assert(!starts_at(c, p)) by {
            if j <= p {
                assert(c.subrange(p, p + START_LEN as int)[0] == rep[p - j]);
            } else {
                assert(c.subrange(p, p + START_LEN as int)[j - p] == rep[0]);
            }
        }
        assert(!starts_at(b, p)) by {
            let e = b.subrange(j, j + END_LEN as int);
            if j <= p {
                assert(b.subrange(p, p + START_LEN as int)[0] == e[p - j]);
            } else {
                assert(b.subrange(p, p + START_LEN as int)[j - p] == e[0]);
            }
        }
    }
}

proof fn lemma_apply_ends(b: Seq<u8>, j: int, rep: Seq<u8>, p: int)
    requires
        ends_at(b, j),
        is_replacement(rep),
    ensures
        ends_at(apply_at(b, j, rep), p) <==> (ends_at(b, p) && p != j),
{
    let c = apply_at(b, j, rep);
    assert(rep.len() == END_LEN as int);
    if p < 0 || p + END_LEN as int > b.len() {
    } else if p + END_LEN as int <= j || j + END_LEN as int <= p {
        assert(c.subrange(p, p + END_LEN as int) =~= b.subrange(p, p + END_LEN as int));
    } else {
        // the two end windows overlap: a replacement holds no byte an
        // end marker needs at the shared offsets, and two end markers
        // cannot overlap at distinct offsets
        assert(!ends_at(c, p)) by {
            if j <= p {
                assert(c.subrange(p, p + END_LEN as int)[0] == rep[p - j]);
            } else {
                assert(c.subrange(p, p + END_LEN as int)[j - p] == rep[0]);
            }
        }
        if p != j {
            assert(!ends_at(b, p)) by {
                let e = b.subrange(j, j + END_LEN as int);
                if ends_at(b, p) {
                    if j < p {
                        assert(b.subrange(p, p + END_LEN as int)[0] == e[p - j]);
                    } else {
                        assert(b.subrange(p, p + END_LEN as int)[j - p] == e[0]);
                    }
                }
            }
        }
    }
}

proof fn lemma_end_clear_of_replacement(c: Seq<u8>, j: int, rep: Seq<u8>, p: int)
    requires
        0 <= j,
        j + END_LEN as int <= c.len(),
        c.subrange(j, j + END_LEN as int) == rep,
        is_replacement(rep),
        ends_at(c, p),
    ensures
        p + END_LEN as int <= j || j + END_LEN as int <= p,
{
    if !(p + END_LEN as int <= j || j + END_LEN as int <= p) {
        if j <= p {
            assert(c.subrange(p, p + END_LEN as int)[0] == c.subrange(j, j + END_LEN as int)[p
                - j]);
        } else {
            assert(c.subrange(p, p + END_LEN as int)[j - p] == c.subrange(j, j + END_LEN as int)[0]);
        }
    }
}

proof fn lemma_cons_contains(x: int, s: Seq<int>, p: int)
    ensures
        (seq![x] + s).contains(p) <==> (p == x || s.contains(p)),
{
    let t = seq![x] + s;
    if p == x {
        assert(t[0] == p);
        assert(t.contains(p));
    }
    if s.contains(p) {
        let k = choose|k: int| 0 <= k < s.len() && s[k] == p;
        assert(t[k + 1] == p);
        assert(t.contains(p));
    }
    if t.contains(p) {
        let k = choose|k: int| 0 <= k < t.len() && t[k] == p;
        if k == 0 {
            assert(p == x);
        } else {
            assert(s[k - 1] == p);
            assert(s.contains(p));
        }
    }
}

proof fn lemma_first_end_props(b: Seq<u8>, lo: int, last: int)
    ensures
        match first_end_from(b, lo, last) {
            Some(j) => lo <= j <= last && ends_at(b, j) && (forall|k: int|
                lo <= k < j ==> !ends_at(b, k)),
            None => forall|k: int| lo <= k <= last ==> !ends_at(b, k),
        },
    decreases last + 1 - lo,
{
    if lo > last {
    } else if ends_at(b, lo) {
    } else {
        lemma_first_end_props(b, lo + 1, last);
    }
}

proof fn lemma_scan_from_preserves(b: Seq<u8>, i: int, rep: Seq<u8>)
    requires
        is_replacement(rep),
    ensures
        ({
            let (c, sites) = scan_from(b, i, rep);
            &&& c.len() == b.len()
            &&& forall|p: int| starts_at(c, p) <==> starts_at(b, p)
            &&& forall|p: int| ends_at(c, p) <==> (ends_at(b, p) && !sites.contains(p))
        }),
    decreases outer_limit(b.len() as int) - i,
{
    let (c, sites) = scan_from(b, i, rep);
    if i < 0 || i >= outer_limit(b.len() as int) {
        assert(forall|p: int| !Seq::<int>::empty().contains(p));
    } else {
        match patch_site(b, i) {
            Some(j) => {
                lemma_first_end_props(b, i + START_LEN as int, window_last(b.len() as int, i));
                assert(ends_at(b, j));
                let b2 = apply_at(b, j, rep);
                lemma_scan_from_preserves(b2, i + 1, rep);
                let rest = scan_from(b2, i + 1, rep).1;
                assert forall|p: int| starts_at(c, p) <==> starts_at(b, p) by {
                    lemma_apply_starts(b, j, rep, p);
                }
                assert forall|p: int| ends_at(c, p) <==> (ends_at(b, p) && !sites.contains(p)) by {
                    lemma_apply_ends(b, j, rep, p);
                    lemma_cons_contains(j, rest, p);
                }
            },
            None => {
                lemma_scan_from_preserves(b, i + 1, rep);
            },
        }
    }
}

proof fn lemma_scan_from_frame(b: Seq<u8>, i: int, rep: Seq<u8>, k: int)
    requires
        rep.len() == END_LEN as int,
        0 <= k < b.len(),
        forall|m: int|
            0 <= m < scan_from(b, i, rep).1.len() ==> !(#[trigger] scan_from(b, i, rep).1[m] <= k
                < scan_from(b, i, rep).1[m] + END_LEN as int),
    ensures
        scan_from(b, i, rep).0[k] == b[k],
    decreases outer_limit(b.len() as int) - i,
{
    if i < 0 || i >= outer_limit(b.len() as int) {
    } else {
        let sites = scan_from(b, i, rep).1;
        match patch_site(b, i) {
            Some(j) => {
                let b2 = apply_at(b, j, rep);
                let rest = scan_from(b2, i + 1, rep).1;
                assert(scan_from(b, i, rep).1[0] == j);
                assert forall|m: int|
                    0 <= m < rest.len() implies !(#[trigger] rest[m] <= k < rest[m]
                    + END_LEN as int) by {
                    assert(scan_from(b, i, rep).1[m + 1] == rest[m]);
                }
                lemma_scan_from_frame(b2, i + 1, rep, k);
                assert(!(j <= k < j + END_LEN as int));
            },
            None => {
                let rest = scan_from(b, i + 1, rep).1;
                assert forall|m: int|
                    0 <= m < rest.len() implies !(#[trigger] rest[m] <= k < rest[m]
                    + END_LEN as int) by {
                    assert(scan_from(b, i, rep).1[m] == rest[m]);
                }
                lemma_scan_from_frame(b, i + 1, rep, k);
            },
        }
    }
}

/// Everything true of each rewritten offset, relative to the buffer the
/// scan started from.
pub open spec fn site_ok(b: Seq<u8>, i: int, c: Seq<u8>, rep: Seq<u8>, j: int) -> bool {
    &&& ends_at(b, j)
    &&& c.subrange(j, j + END_LEN as int) == rep
    &&& exists|i2: int|
        i <= i2 && starts_at(b, i2) && i2 + START_LEN as int <= j <= window_last(
            b.len() as int,
            i2,
        )
}

proof fn lemma_scan_from_sites(b: Seq<u8>, i: int, rep: Seq<u8>)
    requires
        is_replacement(rep),
    ensures
        ({
            let (c, sites) = scan_from(b, i, rep);
            forall|m: int| 0 <= m < sites.len() ==> site_ok(b, i, c, rep, sites[m])
        }),
    decreases outer_limit(b.len() as int) - i,
{
    let (c, sites) = scan_from(b, i, rep);
    if i < 0 || i >= outer_limit(b.len() as int) {
    } else {
        match patch_site(b, i) {
            Some(j) => {
                lemma_first_end_props(b, i + START_LEN as int, window_last(b.len() as int, i));
                assert(ends_at(b, j));
                let b2 = apply_at(b, j, rep);
                let rest = scan_from(b2, i + 1, rep).1;
                lemma_scan_from_sites(b2, i + 1, rep);
                lemma_scan_from_preserves(b2, i + 1, rep);
                assert(b2.subrange(j, j + END_LEN as int) =~= rep);
                // later rewrites stay clear of the window just written
                assert forall|k: int| j <= k < j + END_LEN as int implies c[k] == b2[k] by {
                    assert forall|m: int| 0 <= m < rest.len() implies !(#[trigger] rest[m] <= k
                        < rest[m] + END_LEN as int) by {
                        assert(site_ok(b2, i + 1, c, rep, rest[m]));
                        lemma_end_clear_of_replacement(b2, j, rep, rest[m]);
                    }
                    lemma_scan_from_frame(b2, i + 1, rep, k);
                }
                assert(c.subrange(j, j + END_LEN as int) =~= rep);
                assert(site_ok(b, i, c, rep, j)) by {
                    assert(starts_at(b, i) && i + START_LEN as int <= j <= window_last(
                        b.len() as int,
                        i,
                    ));
                }
                assert forall|m: int| 0 <= m < sites.len() implies site_ok(b, i, c, rep, sites[m]) by {
                    if m > 0 {
                        assert(sites[m] == rest[m - 1]);
                        assert(site_ok(b2, i + 1, c, rep, rest[m - 1]));
                        let jm = rest[m - 1];
                        lemma_apply_ends(b, j, rep, jm);
                        let i2 = choose|i2: int|
                            i + 1 <= i2 && starts_at(b2, i2) && i2 + START_LEN as int <= jm
                                <= window_last(b2.len() as int, i2);
                        lemma_apply_starts(b, j, rep, i2);
                        assert(i <= i2 && starts_at(b, i2) && i2 + START_LEN as int <= jm
                            <= window_last(b.len() as int, i2));
                    }
                }
            },
            None => {
                lemma_scan_from_sites(b, i + 1, rep);
                assert forall|m: int| 0 <= m < sites.len() implies site_ok(b, i, c, rep, sites[m]) by {
                    assert(sites[m] == scan_from(b, i + 1, rep).1[m]);
                    assert(site_ok(b, i + 1, c, rep, scan_from(b, i + 1, rep).1[m]));
                    let jm = sites[m];
                    let i2 = choose|i2: int|
                        i + 1 <= i2 && starts_at(b, i2) && i2 + START_LEN as int <= jm
                            <= window_last(b.len() as int, i2);
                    assert(i <= i2 && starts_at(b, i2) && i2 + START_LEN as int <= jm
                        <= window_last(b.len() as int, i2));
                }
            },
        }
    }
}

proof fn lemma_scan_from_nomatch(b: Seq<u8>, i: int, rep: Seq<u8>)
    requires
        0 <= i,
    ensures
        ({
            let (c, sites) = scan_from(b, i, rep);
            &&& sites.len() == 0 <==> (forall|i2: int|
                i <= i2 < outer_limit(b.len() as int) ==> patch_site(b, i2) == None::<int>)
            &&& sites.len() == 0 ==> c == b
        }),
    decreases outer_limit(b.len() as int) - i,
{
    if i >= outer_limit(b.len() as int) {
    } else {
        match patch_site(b, i) {
            Some(_) => {
            },
            None => {
                lemma_scan_from_nomatch(b, i + 1, rep);
            },
        }
    }
}

proof fn lemma_scan_from_idem(b: Seq<u8>, i: int, rep: Seq<u8>)
    requires
        is_replacement(rep),
        lone_end_per_window(b),
        0 <= i,
    ensures
        forall|p: int, k: int|
            i <= p && starts_at(b, p) && p + START_LEN as int <= k <= window_last(
                b.len() as int,
                p,
            ) ==> !ends_at(scan_from(b, i, rep).0, k),
    decreases outer_limit(b.len() as int) - i,
{
    let c = scan_from(b, i, rep).0;
    if i >= outer_limit(b.len() as int) {
        // any start the scan never reaches sits too close to the
        // buffer's end for its window to hold any candidate offset
        assert forall|p: int, k: int|
            i <= p && starts_at(b, p) && p + START_LEN as int <= k <= window_last(
                b.len() as int,
                p,
            ) implies !ends_at(c, k) by {
            assert(window_last(b.len() as int, p) < p + START_LEN as int);
        }
    } else {
        match patch_site(b, i) {
            Some(j) => {
                lemma_first_end_props(b, i + START_LEN as int, window_last(b.len() as int, i));
                let b2 = apply_at(b, j, rep);
                assert forall|p: int| ends_at(b2, p) implies ends_at(b, p) && p != j by {
                    lemma_apply_ends(b, j, rep, p);
                }
                assert forall|p: int| starts_at(b2, p) <==> starts_at(b, p) by {
                    lemma_apply_starts(b, j, rep, p);
                }
                assert(lone_end_per_window(b2)) by {
                    assert forall|i2: int, j1: int, j2: int|
                        starts_at(b2, i2) && end_in_window(b2, i2, j1) && end_in_window(
                            b2,
                            i2,
                            j2,
                        ) implies j1 == j2 by {
                        assert(end_in_window(b, i2, j1) && end_in_window(b, i2, j2));
                    }
                }
                lemma_scan_from_idem(b2, i + 1, rep);
                lemma_scan_from_preserves(b2, i + 1, rep);
                assert forall|p: int, k: int|
                    i <= p && starts_at(b, p) && p + START_LEN as int <= k <= window_last(
                        b.len() as int,
                        p,
                    ) implies !ends_at(c, k) by {
                    if p == i {
                        if ends_at(c, k) {
                            assert(ends_at(b2, k));
                            assert(ends_at(b, k) && k != j);
                            assert(end_in_window(b, i, k) && end_in_window(b, i, j));
                        }
                    } else {
                        assert(starts_at(b2, p));
                    }
                }
            },
            None => {
                lemma_scan_from_idem(b, i + 1, rep);
                lemma_scan_from_preserves(b, i + 1, rep);
                assert forall|p: int, k: int|
                    i <= p && starts_at(b, p) && p + START_LEN as int <= k <= window_last(
                        b.len() as int,
                        p,
                    ) implies !ends_at(c, k) by {
                    if p == i {
                        lemma_first_end_props(b, i + START_LEN as int, window_last(
                            b.len() as int,
                            i,
                        ));
                        if ends_at(c, k) {
                            assert(ends_at(b, k));
                        }
                    }
                }
            },
        }
    }
}

/// No replacement sequence is itself an end marker, so a rewritten
/// window can never match again.
pub proof fn lemma_replacement_never_end(v: Variant)
    ensures
        !is_end_window(spec_replacement(v)),
{
}

/// Length preservation: the scan neither inserts nor deletes bytes.
pub proof fn lemma_scan_preserves_len(b: Seq<u8>, v: Variant)
    ensures
        scan_bytes(b, v).0.len() == b.len(),
{
    lemma_scan_from_preserves(b, 0, spec_replacement(v));
}

/// Locality: a byte outside every rewritten window keeps its input value.
pub proof fn lemma_scan_locality(b: Seq<u8>, v: Variant, k: int)
    requires
        0 <= k < b.len(),
        forall|m: int|
            0 <= m < scan_bytes(b, v).1.len() ==> !(#[trigger] scan_bytes(b, v).1[m] <= k
                < scan_bytes(b, v).1[m] + END_LEN as int),
    ensures
        scan_bytes(b, v).0[k] == b[k],
{
    let rep = spec_replacement(v);
    assert forall|m: int|
        0 <= m < scan_from(b, 0, rep).1.len() implies !(#[trigger] scan_from(b, 0, rep).1[m] <= k
        < scan_from(b, 0, rep).1[m] + END_LEN as int) by {
        assert(scan_from(b, 0, rep).1[m] == scan_bytes(b, v).1[m]);
    }
    lemma_scan_from_frame(b, 0, rep, k);
}

/// Every rewritten offset held an end marker of the input, now holds
/// exactly the variant's replacement, and lies inside the window of a
/// start marker of the input.
pub proof fn lemma_scan_site_bytes(b: Seq<u8>, v: Variant, m: int)
    requires
        0 <= m < scan_bytes(b, v).1.len(),
    ensures
        ({
            let j = scan_bytes(b, v).1[m];
            &&& ends_at(b, j)
            &&& scan_bytes(b, v).0.subrange(j, j + END_LEN as int) == spec_replacement(v)
            &&& exists|i: int|
                starts_at(b, i) && i + START_LEN as int <= j <= window_last(b.len() as int, i)
        }),
{
    lemma_scan_from_sites(b, 0, spec_replacement(v));
    let j = scan_bytes(b, v).1[m];
    assert(site_ok(b, 0, scan_bytes(b, v).0, spec_replacement(v), j));
    let i2 = choose|i2: int|
        0 <= i2 && starts_at(b, i2) && i2 + START_LEN as int <= j <= window_last(
            b.len() as int,
            i2,
        );
    assert(starts_at(b, i2) && i2 + START_LEN as int <= j <= window_last(b.len() as int, i2));
}

/// Window bound enforcement: an offset no start marker's window covers
/// is never rewritten.
pub proof fn lemma_window_bound(b: Seq<u8>, v: Variant, j: int)
    requires
        forall|i: int|
            starts_at(b, i) ==> !(i + START_LEN as int <= j <= window_last(b.len() as int, i)),
    ensures
        !scan_bytes(b, v).1.contains(j),
{
    if scan_bytes(b, v).1.contains(j) {
        let m = choose|m: int|
            0 <= m < scan_bytes(b, v).1.len() && scan_bytes(b, v).1[m] == j;
        lemma_scan_site_bytes(b, v, m);
    }
}

/// Zero-match failure: the scan rewrites nothing exactly when no offset
/// holds a start marker with an end marker inside its window, and a scan
/// that rewrote nothing left every byte as it was.
pub proof fn lemma_zero_match(b: Seq<u8>, v: Variant)
    ensures
        scan_bytes(b, v).1.len() == 0 <==> (forall|i: int|
            0 <= i < outer_limit(b.len() as int) ==> patch_site(b, i) == None::<int>),
        scan_bytes(b, v).1.len() == 0 ==> scan_bytes(b, v).0 == b,
{
    lemma_scan_from_nomatch(b, 0, spec_replacement(v));
}

/// Idempotence of detection: wherever no start window holds two end
/// markers, a second scan of the once-scanned buffer matches nothing and
/// changes nothing.
pub proof fn lemma_scan_idempotent(b: Seq<u8>, v: Variant)
    requires
        lone_end_per_window(b),
    ensures
        scan_bytes(scan_bytes(b, v).0, v).1.len() == 0,
        scan_bytes(scan_bytes(b, v).0, v).0 == scan_bytes(b, v).0,
{
    let rep = spec_replacement(v);
    let c = scan_bytes(b, v).0;
    lemma_scan_from_idem(b, 0, rep);
    lemma_scan_from_preserves(b, 0, rep);
    assert forall|i2: int|
        0 <= i2 < outer_limit(c.len() as int) implies patch_site(c, i2) == None::<int> by {
        if starts_at(c, i2) {
            assert(starts_at(b, i2));
            lemma_first_end_none(c, i2 + START_LEN as int, window_last(c.len() as int, i2));
        }
    }
    lemma_scan_from_nomatch(c, 0, rep);
}

} // verus!
