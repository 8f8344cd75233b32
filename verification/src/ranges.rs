//! Range resolver: computes the disjoint, sorted byte ranges of a
//! transcript that are safe to disclose, given a list of byte patterns
//! that must never appear inside a disclosed range.

use crate::errors::ProofError;
use vstd::prelude::*;

verus! {

/// A half-open interval `[start, end)` over a transcript's byte indices.
#[derive(Clone, Copy, Debug, PartialEq, Eq, Structural)]
pub struct ByteRange {
    pub start: usize,
    pub end: usize,
}

/// A range is well formed for a transcript of length `n`:
/// `start < end <= n` (ranges are never empty).
pub open spec fn range_wf(r: ByteRange, n: int) -> bool {
    r.start < r.end <= n
}

/// Byte index `j` lies inside range `r`.
pub open spec fn in_range(r: ByteRange, j: int) -> bool {
    r.start <= j < r.end
}

/// Byte index `j` lies inside some range of the list `rs`.
pub open spec fn in_ranges(rs: Seq<ByteRange>, j: int) -> bool {
    exists|k: int| 0 <= k < rs.len() && #[trigger] in_range(rs[k], j)
}

/// The range list is well formed over a transcript of length `n`:
/// every range is non-empty and within bounds, and consecutive ranges
/// are separated by a gap of at least one byte (so the list is sorted
/// ascending, pairwise disjoint, and maximal).
pub open spec fn ranges_wf(rs: Seq<ByteRange>, n: int) -> bool {
    &&& forall|k: int| 0 <= k < rs.len() ==> range_wf(#[trigger] rs[k], n)
    &&& forall|k: int| 0 <= k && k + 1 < rs.len() ==> (#[trigger] rs[k]).end < rs[k + 1].start
}

/// Pattern `p` occurs in transcript `t` starting at index `i`.
pub open spec fn matches_at(t: Seq<u8>, p: Seq<u8>, i: int) -> bool {
    0 <= i && i + p.len() <= t.len() && t.subrange(i, i + p.len()) == p
}

/// Byte index `j` of transcript `t` is covered by some occurrence of
/// pattern `p` that starts at an index `>= i0`.
pub open spec fn covered_by_from(t: Seq<u8>, p: Seq<u8>, i0: int, j: int) -> bool {
    exists|i: int| i >= i0 && #[trigger] matches_at(t, p, i) && i <= j < i + p.len()
}

/// Byte index `j` of transcript `t` is covered by some occurrence of
/// pattern `p`.
pub open spec fn covered_by(t: Seq<u8>, p: Seq<u8>, j: int) -> bool {
    exists|i: int| #[trigger] matches_at(t, p, i) && i <= j < i + p.len()
}

/// Byte index `j` of transcript `t` is covered by some occurrence of
/// some pattern in `pats`.
pub open spec fn covered(t: Seq<u8>, pats: Seq<Seq<u8>>, j: int) -> bool {
    exists|k: int| 0 <= k < pats.len() && covered_by(t, #[trigger] pats[k], j)
}

/// All occurrences of pattern `p` in `t` at indices `>= i`, ascending.
pub open spec fn pattern_matches_from(t: Seq<u8>, p: Seq<u8>, i: int) -> Seq<ByteRange>
    decreases t.len() + 1 - i,
{
    if i + p.len() > t.len() {
        Seq::empty()
    } else {
        let rest = pattern_matches_from(t, p, i + 1);
        if matches_at(t, p, i) {
            seq![ByteRange { start: i as usize, end: (i + p.len()) as usize }] + rest
        } else {
            rest
        }
    }
}

/// All occurrences of every pattern, pattern-major (all matches of the
/// first pattern in ascending order, then all of the second, ...).
pub open spec fn all_pattern_matches(t: Seq<u8>, pats: Seq<Seq<u8>>) -> Seq<ByteRange>
    decreases pats.len(),
{
    if pats.len() == 0 {
        Seq::empty()
    } else {
        pattern_matches_from(t, pats[0], 0) + all_pattern_matches(t, pats.drop_first())
    }
}

/// The views of a list of byte-string patterns.
pub open spec fn patterns_view(ps: Seq<&[u8]>) -> Seq<Seq<u8>> {
    ps.map_values(|p: &[u8]| p@)
}

/// The public (disclosable) range list `public` is correct for
/// transcript `t` and patterns `pats`: it is well formed and contains
/// exactly the byte indices not covered by any pattern occurrence.
/// These conditions determine `public` uniquely.
pub open spec fn resolver_public_ok(t: Seq<u8>, pats: Seq<Seq<u8>>, public: Seq<ByteRange>) -> bool {
    &&& ranges_wf(public, t.len() as int)
    &&& forall|j: int| 0 <= j < t.len() ==> (in_ranges(public, j) <==> !covered(t, pats, j))
}

/// Membership in a concatenation of range lists splits into membership
/// in either list.
pub proof fn lemma_in_ranges_concat(a: Seq<ByteRange>, b: Seq<ByteRange>)
    ensures
        forall|j: int| #[trigger] in_ranges(a + b, j) <==> in_ranges(a, j) || in_ranges(b, j),
{
    assert forall|j: int| #[trigger] in_ranges(a + b, j) implies in_ranges(a, j) || in_ranges(b, j) by {
        let k = choose|k: int| 0 <= k < (a + b).len() && #[trigger] in_range((a + b)[k], j);
        if k < a.len() {
            assert(in_range(a[k], j));
        } else {
            assert(in_range(b[k - a.len()], j));
        }
    }
    assert forall|j: int| in_ranges(a, j) || in_ranges(b, j) implies #[trigger] in_ranges(a + b, j) by {
        if in_ranges(a, j) {
            let k = choose|k: int| 0 <= k < a.len() && #[trigger] in_range(a[k], j);
            assert(in_range((a + b)[k], j));
        } else {
            let k = choose|k: int| 0 <= k < b.len() && #[trigger] in_range(b[k], j);
            assert(in_range((a + b)[k + a.len()], j));
        }
    }
}

/// Membership after a push splits into membership before the push or
/// membership in the pushed range.
pub proof fn lemma_in_ranges_push(s: Seq<ByteRange>, r: ByteRange)
    ensures
        forall|j: int| #[trigger] in_ranges(s.push(r), j) <==> in_ranges(s, j) || in_range(r, j),
{
    assert(s.push(r) =~= s + seq![r]);
    lemma_in_ranges_concat(s, seq![r]);
    assert forall|j: int| in_range(r, j) implies in_ranges(seq![r], j) by {
        assert(in_range(seq![r][0], j));
    }
    assert forall|j: int| #[trigger] in_ranges(seq![r], j) implies in_range(r, j) by {
        let k = choose|k: int| 0 <= k < 1 && #[trigger] in_range(seq![r][k], j);
    }
}

/// The occurrences recorded by `pattern_matches_from` cover exactly the
/// indices covered by occurrences of the pattern from `i0` on.
pub proof fn lemma_pattern_matches_cover(t: Seq<u8>, p: Seq<u8>, i0: int)
    requires
        t.len() <= usize::MAX,
    ensures
        forall|j: int|
            #[trigger] in_ranges(pattern_matches_from(t, p, i0), j) <==> covered_by_from(t, p, i0, j),
    decreases t.len() + 1 - i0,
{
    if i0 + p.len() > t.len() {
        assert forall|j: int| !covered_by_from(t, p, i0, j) by {
            if covered_by_from(t, p, i0, j) {
                let i = choose|i: int| i >= i0 && #[trigger] matches_at(t, p, i) && i <= j < i + p.len();
            }
        }
        assert forall|j: int| !#[trigger] in_ranges(pattern_matches_from(t, p, i0), j) by {
            if in_ranges(pattern_matches_from(t, p, i0), j) {
                let k = choose|k: int|
                    0 <= k < pattern_matches_from(t, p, i0).len()
                        && #[trigger] in_range(pattern_matches_from(t, p, i0)[k], j);
            }
        }
    } else {
        lemma_pattern_matches_cover(t, p, i0 + 1);
        let rest = pattern_matches_from(t, p, i0 + 1);
        if matches_at(t, p, i0) {
            let r0 = ByteRange { start: i0 as usize, end: (i0 + p.len()) as usize };
            lemma_in_ranges_concat(seq![r0], rest);
            assert(pattern_matches_from(t, p, i0) == seq![r0] + rest);
            assert forall|j: int| #[trigger] in_ranges(pattern_matches_from(t, p, i0), j)
                implies covered_by_from(t, p, i0, j) by {
                assert(in_ranges(seq![r0] + rest, j));
                if in_ranges(seq![r0], j) {
                    let k = choose|k: int| 0 <= k < 1 && #[trigger] in_range(seq![r0][k], j);
                    assert(in_range(r0, j));
                    assert(matches_at(t, p, i0) && i0 <= j < i0 + p.len());
                } else {
                    assert(in_ranges(rest, j));
                    assert(covered_by_from(t, p, i0 + 1, j));
                    let i = choose|i: int| i >= i0 + 1 && #[trigger] matches_at(t, p, i) && i <= j < i + p.len();
                }
            }
            assert forall|j: int| covered_by_from(t, p, i0, j)
                implies #[trigger] in_ranges(pattern_matches_from(t, p, i0), j) by {
                let i = choose|i: int| i >= i0 && #[trigger] matches_at(t, p, i) && i <= j < i + p.len();
                if i == i0 {
                    assert(in_range(seq![r0][0], j));
                    assert(in_ranges(seq![r0], j));
                } else {
                    assert(covered_by_from(t, p, i0 + 1, j));
                    assert(in_ranges(rest, j));
                }
                assert(in_ranges(seq![r0] + rest, j));
            }
        } else {
            assert(pattern_matches_from(t, p, i0) == rest);
            assert forall|j: int| covered_by_from(t, p, i0, j)
                implies covered_by_from(t, p, i0 + 1, j) by {
                let i = choose|i: int| i >= i0 && #[trigger] matches_at(t, p, i) && i <= j < i + p.len();
                assert(i != i0);
            }
            assert forall|j: int| covered_by_from(t, p, i0 + 1, j)
                implies covered_by_from(t, p, i0, j) by {
                let i = choose|i: int| i >= i0 + 1 && #[trigger] matches_at(t, p, i) && i <= j < i + p.len();
            }
            assert forall|j: int|
                #[trigger] in_ranges(pattern_matches_from(t, p, i0), j)
                    <==> covered_by_from(t, p, i0, j) by {
                assert(in_ranges(rest, j) <==> covered_by_from(t, p, i0 + 1, j));
            }
        }
    }
}

/// The occurrences recorded by `all_pattern_matches` cover exactly the
/// indices covered by some pattern occurrence.
pub proof fn lemma_all_matches_cover(t: Seq<u8>, pats: Seq<Seq<u8>>)
    requires
        t.len() <= usize::MAX,
    ensures
        forall|j: int| #[trigger] in_ranges(all_pattern_matches(t, pats), j) <==> covered(t, pats, j),
    decreases pats.len(),
{
    if pats.len() == 0 {
        assert forall|j: int| !covered(t, pats, j) by {
            if covered(t, pats, j) {
                let k = choose|k: int| 0 <= k < pats.len() && covered_by(t, #[trigger] pats[k], j);
            }
        }
        assert forall|j: int| !#[trigger] in_ranges(all_pattern_matches(t, pats), j) by {
            if in_ranges(all_pattern_matches(t, pats), j) {
                let k = choose|k: int|
                    0 <= k < all_pattern_matches(t, pats).len()
                        && #[trigger] in_range(all_pattern_matches(t, pats)[k], j);
            }
        }
    } else {
        let first = pattern_matches_from(t, pats[0], 0);
        let rest = pats.drop_first();
        lemma_all_matches_cover(t, rest);
        lemma_pattern_matches_cover(t, pats[0], 0);
        lemma_in_ranges_concat(first, all_pattern_matches(t, rest));
        assert(all_pattern_matches(t, pats) == first + all_pattern_matches(t, rest));
        assert forall|j: int| #[trigger] in_ranges(all_pattern_matches(t, pats), j)
            implies covered(t, pats, j) by {
            assert(in_ranges(first + all_pattern_matches(t, rest), j));
            if in_ranges(first, j) {
                assert(covered_by_from(t, pats[0], 0, j));
                let i = choose|i: int| i >= 0 && #[trigger] matches_at(t, pats[0], i) && i <= j < i + pats[0].len();
                assert(covered_by(t, pats[0], j));
            } else {
                assert(in_ranges(all_pattern_matches(t, rest), j));
                assert(covered(t, rest, j));
                let k = choose|k: int| 0 <= k < rest.len() && covered_by(t, #[trigger] rest[k], j);
                assert(rest[k] == pats[k + 1]);
                assert(covered_by(t, pats[k + 1], j));
            }
        }
        assert forall|j: int| covered(t, pats, j)
            implies #[trigger] in_ranges(all_pattern_matches(t, pats), j) by {
            let k = choose|k: int| 0 <= k < pats.len() && covered_by(t, #[trigger] pats[k], j);
            if k == 0 {
                let i = choose|i: int| #[trigger] matches_at(t, pats[0], i) && i <= j < i + pats[0].len();
                assert(covered_by_from(t, pats[0], 0, j));
                assert(in_ranges(first, j));
            } else {
                assert(rest[k - 1] == pats[k]);
                assert(covered_by(t, rest[k - 1], j));
                assert(covered(t, rest, j));
                assert(in_ranges(all_pattern_matches(t, rest), j));
            }
            assert(in_ranges(first + all_pattern_matches(t, rest), j));
        }
    }
}

/// Extending the processed pattern prefix by one pattern appends that
/// pattern's occurrences to the recorded match list.
pub proof fn lemma_all_matches_take_succ(t: Seq<u8>, pats: Seq<Seq<u8>>, m: int)
    requires
        0 <= m < pats.len(),
    ensures
        all_pattern_matches(t, pats.take(m + 1)) == all_pattern_matches(t, pats.take(m))
            + pattern_matches_from(t, pats[m], 0),
    decreases m,
{
    let tk1 = pats.take(m + 1);
    if m == 0 {
        assert(tk1.drop_first() =~= Seq::<Seq<u8>>::empty());
        assert(pats.take(0) =~= Seq::<Seq<u8>>::empty());
        assert(all_pattern_matches(t, tk1)
            =~= all_pattern_matches(t, pats.take(0)) + pattern_matches_from(t, pats[0], 0));
    } else {
        let pd = pats.drop_first();
        assert(tk1.drop_first() =~= pd.take(m));
        assert(pats.take(m).drop_first() =~= pd.take(m - 1));
        lemma_all_matches_take_succ(t, pd, m - 1);
        assert(pd[m - 1] == pats[m]);
        assert(tk1[0] == pats[0]);
        assert(pats.take(m)[0] == pats[0]);
        assert(all_pattern_matches(t, tk1)
            == pattern_matches_from(t, pats[0], 0)
                + (all_pattern_matches(t, pd.take(m - 1)) + pattern_matches_from(t, pats[m], 0)));
        assert(all_pattern_matches(t, pats.take(m))
            == pattern_matches_from(t, pats[0], 0) + all_pattern_matches(t, pd.take(m - 1)));
        assert(pattern_matches_from(t, pats[0], 0)
            + (all_pattern_matches(t, pd.take(m - 1)) + pattern_matches_from(t, pats[m], 0))
            =~= (pattern_matches_from(t, pats[0], 0) + all_pattern_matches(t, pd.take(m - 1)))
                + pattern_matches_from(t, pats[m], 0));
    }
}

/// Byte-exact comparison of `pat` against `seq` at offset `i`.
fn is_match(seq: &[u8], pat: &[u8], i: usize) -> (r: bool)
    requires
        i + pat@.len() <= seq@.len(),
    ensures
        r == matches_at(seq@, pat@, i as int),
{
    let slen: usize = seq.len();
    let mut k: usize = 0;
    while k < pat.len()
        invariant
            0 <= k <= pat@.len(),
            i + pat@.len() <= seq@.len(),
            slen == seq@.len(),
            forall|m: int| 0 <= m < k ==> seq@[i + m] == pat@[m],
        decreases pat@.len() - k,
    {
        if seq[i + k] != pat[k] {
            assert(seq@.subrange(i as int, i + pat@.len())[k as int] != pat@[k as int]);
            return false;
        }
        k += 1;
    }
    assert(seq@.subrange(i as int, i + pat@.len()) =~= pat@);
    true
}

/// Linear scan: is byte index `j` inside any of the ranges?
fn point_covered(ranges: &Vec<ByteRange>, j: usize) -> (r: bool)
    ensures
        r == in_ranges(ranges@, j as int),
{
    let mut k: usize = 0;
    while k < ranges.len()
        invariant
            0 <= k <= ranges@.len(),
            forall|m: int| 0 <= m < k ==> !in_range(#[trigger] ranges@[m], j as int),
        decreases ranges@.len() - k,
    {
        let rk = ranges[k];
        if rk.start <= j && j < rk.end {
            assert(in_range(ranges@[k as int], j as int));
            return true;
        }
        k += 1;
    }
    proof {
        if in_ranges(ranges@, j as int) {
            let m = choose|m: int| 0 <= m < ranges@.len() && #[trigger] in_range(ranges@[m], j as int);
        }
    }
    false
}

/// Find the ranges of the public and private parts of a sequence.
///
/// Returns `(public, private)`. `private` records every occurrence of
/// every pattern of `private_seq` in `seq`, pattern-major and ascending
/// within one pattern; occurrences may overlap and are not merged.
/// `public` is the sorted, disjoint, maximal list of non-empty ranges
/// that together contain exactly the byte indices of `seq` not covered
/// by any occurrence.
pub fn find_ranges(seq: &[u8], private_seq: &[&[u8]]) -> (r: (Vec<ByteRange>, Vec<ByteRange>))
    requires
        forall|k: int| 0 <= k < private_seq@.len() ==> (#[trigger] private_seq@[k])@.len() > 0,
    ensures
        resolver_public_ok(seq@, patterns_view(private_seq@), r.0@),
        r.1@ == all_pattern_matches(seq@, patterns_view(private_seq@)),
{
    let n: usize = seq.len();
    let ghost t = seq@;
    let ghost pats = patterns_view(private_seq@);

    // Record every occurrence of every pattern.
    let mut private_ranges: Vec<ByteRange> = Vec::new();
    proof {
        assert(pats.take(0) =~= Seq::<Seq<u8>>::empty());
    }
    let mut pi: usize = 0;
    while pi < private_seq.len()
        invariant
            0 <= pi <= private_seq@.len(),
            t == seq@,
            n == t.len(),
            pats == patterns_view(private_seq@),
            pats.len() == private_seq@.len(),
            forall|k: int| 0 <= k < private_seq@.len() ==> (#[trigger] private_seq@[k])@.len() > 0,
            private_ranges@ == all_pattern_matches(t, pats.take(pi as int)),
        decreases private_seq@.len() - pi,
    {
        let pat: &[u8] = private_seq[pi];
        let ghost pv = pat@;
        proof {
            assert(pv == pats[pi as int]);
        }
        let plen: usize = pat.len();
        if plen <= n {
            let mut idx: usize = 0;
            while idx <= n - plen
                invariant
                    t == seq@,
                    n == t.len(),
                    pv == pat@,
                    plen == pv.len(),
                    0 < plen <= n,
                    0 <= idx <= n - plen + 1,
                    private_ranges@ + pattern_matches_from(t, pv, idx as int)
                        == all_pattern_matches(t, pats.take(pi as int))
                            + pattern_matches_from(t, pv, 0),
                decreases n - plen - idx + 1,
            {
                if is_match(seq, pat, idx) {
                    let rng = ByteRange { start: idx, end: idx + plen };
                    let ghost before = private_ranges@;
                    private_ranges.push(rng);
                    proof {
                        assert(matches_at(t, pv, idx as int));
                        assert(pattern_matches_from(t, pv, idx as int)
                            == seq![rng] + pattern_matches_from(t, pv, idx as int + 1));
                        assert(private_ranges@ =~= before + seq![rng]);
                        assert((before + seq![rng]) + pattern_matches_from(t, pv, idx as int + 1)
                            =~= before + (seq![rng] + pattern_matches_from(t, pv, idx as int + 1)));
                    }
                } else {
                    proof {
                        assert(pattern_matches_from(t, pv, idx as int)
                            == pattern_matches_from(t, pv, idx as int + 1));
                    }
                }
                idx += 1;
            }
            proof {
                assert(pattern_matches_from(t, pv, idx as int) == Seq::<ByteRange>::empty());
                assert(private_ranges@ + Seq::<ByteRange>::empty() =~= private_ranges@);
                lemma_all_matches_take_succ(t, pats, pi as int);
            }
        } else {
            proof {
                assert(pattern_matches_from(t, pv, 0) == Seq::<ByteRange>::empty());
                assert(private_ranges@ + Seq::<ByteRange>::empty() =~= private_ranges@);
                lemma_all_matches_take_succ(t, pats, pi as int);
            }
        }
        pi += 1;
    }
    proof {
        assert(pats.take(pats.len() as int) =~= pats);
        lemma_all_matches_cover(t, pats);
    }

    // Sweep: emit each maximal gap between covered bytes as one
    // public range.
    let mut public_ranges: Vec<ByteRange> = Vec::new();
    let mut i: usize = 0;
    let mut in_run: bool = false;
    let mut run_start: usize = 0;
    while i < n
        invariant
            t == seq@,
            n == t.len(),
            0 <= i <= n,
            forall|j: int| in_ranges(private_ranges@, j) == covered(t, pats, j),
            ranges_wf(public_ranges@, n as int),
            in_run ==> run_start < i && (run_start == 0 || in_ranges(
                private_ranges@,
                run_start - 1,
            )),
            in_run ==> forall|j: int| run_start <= j < i ==> !in_ranges(private_ranges@, j),
            !in_run && i > 0 ==> in_ranges(private_ranges@, i - 1),
            forall|j: int|
                0 <= j < n ==> (#[trigger] in_ranges(public_ranges@, j) <==> (!in_ranges(
                    private_ranges@,
                    j,
                ) && j < (if in_run {
                    run_start as int
                } else {
                    i as int
                }))),
            public_ranges@.len() > 0 && in_run ==> public_ranges@.last().end < run_start,
            public_ranges@.len() > 0 && !in_run ==> public_ranges@.last().end < i,
        decreases n - i,
    {
        let c = point_covered(&private_ranges, i);
        if !c {
            if !in_run {
                in_run = true;
                run_start = i;
            }
        } else {
            if in_run {
                let rng = ByteRange { start: run_start, end: i };
                let ghost before = public_ranges@;
                public_ranges.push(rng);
                proof {
                    lemma_in_ranges_push(before, rng);
                    assert forall|k: int| 0 <= k < public_ranges@.len() implies range_wf(
                        #[trigger] public_ranges@[k],
                        n as int,
                    ) by {
                        if k < before.len() {
                            assert(public_ranges@[k] == before[k]);
                        }
                    }
                    assert forall|k: int| 0 <= k && k + 1 < public_ranges@.len() implies (
                    #[trigger] public_ranges@[k]).end < public_ranges@[k + 1].start by {
                        if k + 1 < before.len() {
                            assert(public_ranges@[k] == before[k]);
                            assert(public_ranges@[k + 1] == before[k + 1]);
                        } else {
                            assert(public_ranges@[k] == before.last());
                            assert(public_ranges@[k + 1] == rng);
                        }
                    }
                }
                in_run = false;
            }
        }
        i += 1;
    }
    if in_run {
        let rng = ByteRange { start: run_start, end: n };
        let ghost before = public_ranges@;
        public_ranges.push(rng);
        proof {
            lemma_in_ranges_push(before, rng);
            assert forall|k: int| 0 <= k < public_ranges@.len() implies range_wf(
                #[trigger] public_ranges@[k],
                n as int,
            ) by {
                if k < before.len() {
                    assert(public_ranges@[k] == before[k]);
                }
            }
            assert forall|k: int| 0 <= k && k + 1 < public_ranges@.len() implies (
            #[trigger] public_ranges@[k]).end < public_ranges@[k + 1].start by {
                if k + 1 < before.len() {
                    assert(public_ranges@[k] == before[k]);
                    assert(public_ranges@[k + 1] == before[k + 1]);
                } else {
                    assert(public_ranges@[k] == before.last());
                    assert(public_ranges@[k + 1] == rng);
                }
            }
        }
    }
    (public_ranges, private_ranges)
}

/// Resolve the disclosable ranges of a transcript: reject zero-length
/// redaction patterns, then compute the public and private ranges.
pub fn resolve(seq: &[u8], patterns: &[&[u8]]) -> (r: Result<
    (Vec<ByteRange>, Vec<ByteRange>),
    ProofError,
>)
    ensures
        r is Err <==> (exists|k: int|
            0 <= k < patterns@.len() && (#[trigger] patterns@[k])@.len() == 0),
        r is Err ==> r->Err_0 == ProofError::EmptyPattern,
        r is Ok ==> resolver_public_ok(seq@, patterns_view(patterns@), r->Ok_0.0@),
        r is Ok ==> r->Ok_0.1@ == all_pattern_matches(seq@, patterns_view(patterns@)),
{
    let mut k: usize = 0;
    while k < patterns.len()
        invariant
            0 <= k <= patterns@.len(),
            forall|m: int| 0 <= m < k ==> (#[trigger] patterns@[m])@.len() > 0,
        decreases patterns@.len() - k,
    {
        if patterns[k].len() == 0 {
            assert(patterns@[k as int]@.len() == 0);
            return Err(ProofError::EmptyPattern);
        }
        k += 1;
    }
    Ok(find_ranges(seq, patterns))
}

/// The ranges of a well-formed list are sorted strictly: an earlier
/// range ends before a later range starts.
pub proof fn lemma_ranges_ordered(rs: Seq<ByteRange>, n: int, k: int, l: int)
    requires
        ranges_wf(rs, n),
        0 <= k < l < rs.len(),
    ensures
        rs[k].end < rs[l].start,
    decreases l - k,
{
    if l > k + 1 {
        lemma_ranges_ordered(rs, n, k, l - 1);
    }
}

/// A well-formed range list is pairwise disjoint and sorted ascending
/// by `start`.
pub proof fn lemma_ranges_sorted_disjoint(rs: Seq<ByteRange>, n: int)
    requires
        ranges_wf(rs, n),
    ensures
        forall|k: int, l: int|
            0 <= k < l < rs.len() ==> (#[trigger] rs[k]).end < (#[trigger] rs[l]).start,
{
    assert forall|k: int, l: int|
        0 <= k < l < rs.len() implies (#[trigger] rs[k]).end < (#[trigger] rs[l]).start by {
        lemma_ranges_ordered(rs, n, k, l);
    }
}

/// No pattern occurrence overlaps a public range: every byte of an
/// occurrence is outside every public range, so the bytes of a public
/// range never contain an occurrence of any pattern.
pub proof fn lemma_public_ranges_avoid_patterns(
    t: Seq<u8>,
    pats: Seq<Seq<u8>>,
    public: Seq<ByteRange>,
)
    requires
        resolver_public_ok(t, pats, public),
    ensures
        forall|pk: int, i: int, j: int|
            0 <= pk < pats.len() && #[trigger] matches_at(t, pats[pk], i) && i <= j < i
                + pats[pk].len() ==> !#[trigger] in_ranges(public, j),
        forall|k: int, pk: int, i: int|
            0 <= k < public.len() && 0 <= pk < pats.len() && pats[pk].len() > 0
                && #[trigger] matches_at(t, pats[pk], i) ==> !((#[trigger] public[k]).start <= i
                && i + pats[pk].len() <= public[k].end),
{
    assert forall|pk: int, i: int, j: int|
        0 <= pk < pats.len() && #[trigger] matches_at(t, pats[pk], i) && i <= j < i
            + pats[pk].len() implies !#[trigger] in_ranges(public, j) by {
        assert(covered_by(t, pats[pk], j));
        assert(covered(t, pats, j));
        assert(0 <= j < t.len());
    }
    assert forall|k: int, pk: int, i: int|
        0 <= k < public.len() && 0 <= pk < pats.len() && pats[pk].len() > 0
            && #[trigger] matches_at(t, pats[pk], i) implies !((#[trigger] public[k]).start <= i
            && i + pats[pk].len() <= public[k].end) by {
        if public[k].start <= i && i + pats[pk].len() <= public[k].end {
            assert(in_range(public[k], i));
            assert(in_ranges(public, i));
            assert(covered_by(t, pats[pk], i));
            assert(covered(t, pats, i));
            assert(0 <= i < t.len());
        }
    }
}

/// The bytes of a public range never contain an occurrence of any
/// pattern: a match inside the disclosed window would be a match in
/// the transcript that overlaps the window, which the resolver
/// excludes.
pub proof fn lemma_disclosed_bytes_avoid_patterns(
    t: Seq<u8>,
    pats: Seq<Seq<u8>>,
    public: Seq<ByteRange>,
)
    requires
        resolver_public_ok(t, pats, public),
    ensures
        forall|k: int, pk: int, o: int|
            0 <= k < public.len() && 0 <= pk < pats.len() && pats[pk].len() > 0
                ==> !#[trigger] matches_at(
                t.subrange((#[trigger] public[k]).start as int, public[k].end as int),
                pats[pk],
                o,
            ),
{
    lemma_public_ranges_avoid_patterns(t, pats, public);
    assert forall|k: int, pk: int, o: int|
        0 <= k < public.len() && 0 <= pk < pats.len() && pats[pk].len() > 0
            implies !#[trigger] matches_at(
        t.subrange((#[trigger] public[k]).start as int, public[k].end as int),
        pats[pk],
        o,
    ) by {
        let r = public[k];
        let p = pats[pk];
        let w = t.subrange(r.start as int, r.end as int);
        if matches_at(w, p, o) {
            // The same bytes occur in the transcript at `r.start + o`.
            assert(w.subrange(o, o + p.len()) =~= t.subrange(
                r.start + o,
                r.start + o + p.len(),
            ));
            assert(matches_at(t, p, r.start + o));
            // That occurrence overlaps the public range at `r.start + o`.
            assert(in_range(r, r.start + o));
            assert(in_ranges(public, r.start + o));
        }
    }
}

/// Two well-formed range lists over the same transcript that contain
/// the same byte indices are identical.
#[verifier::rlimit(60)]
pub proof fn lemma_ranges_unique(a: Seq<ByteRange>, b: Seq<ByteRange>, n: int)
    requires
        ranges_wf(a, n),
        ranges_wf(b, n),
        forall|j: int| #[trigger] in_ranges(a, j) <==> in_ranges(b, j),
    ensures
        a == b,
    decreases a.len(),
{
    lemma_ranges_sorted_disjoint(a, n);
    lemma_ranges_sorted_disjoint(b, n);
    if a.len() == 0 {
        if b.len() > 0 {
            assert(in_range(b[0], b[0].start as int));
            assert(in_ranges(b, b[0].start as int));
            assert(in_ranges(a, b[0].start as int));
            let k = choose|k: int| 0 <= k < a.len() && #[trigger] in_range(a[k], b[0].start as int);
        }
        assert(a =~= b);
    } else if b.len() == 0 {
        assert(in_range(a[0], a[0].start as int));
        assert(in_ranges(a, a[0].start as int));
        assert(in_ranges(b, a[0].start as int));
        let k = choose|k: int| 0 <= k < b.len() && #[trigger] in_range(b[k], a[0].start as int);
    } else {
        let sa = a[0].start as int;
        let sb = b[0].start as int;
        // The first starts agree: each list contains the other's first
        // start, and every range of a list starts at or after its first.
        assert(in_range(a[0], sa));
        assert(in_ranges(a, sa));
        assert(in_ranges(b, sa));
        let kb = choose|k: int| 0 <= k < b.len() && #[trigger] in_range(b[k], sa);
        if kb > 0 {
            lemma_ranges_ordered(b, n, 0, kb);
        }
        assert(b[kb].start >= sb);
        assert(sb <= sa);
        assert(in_range(b[0], sb));
        assert(in_ranges(b, sb));
        assert(in_ranges(a, sb));
        let ka = choose|k: int| 0 <= k < a.len() && #[trigger] in_range(a[k], sb);
        if ka > 0 {
            lemma_ranges_ordered(a, n, 0, ka);
        }
        assert(a[ka].start >= sa);
        assert(sa == sb);
        // The first ends agree: a point of one first range beyond the
        // other's first end would have to lie in a later range, which
        // starts too late.
        let ea = a[0].end as int;
        let eb = b[0].end as int;
        if ea < eb {
            assert(in_range(b[0], ea));
            assert(in_ranges(b, ea));
            assert(in_ranges(a, ea));
            let k = choose|k: int| 0 <= k < a.len() && #[trigger] in_range(a[k], ea);
            assert(k > 0);
            lemma_ranges_ordered(a, n, 0, k);
            assert(a[0].end < a[k].start);
        }
        if eb < ea {
            assert(in_range(a[0], eb));
            assert(in_ranges(a, eb));
            assert(in_ranges(b, eb));
            let k = choose|k: int| 0 <= k < b.len() && #[trigger] in_range(b[k], eb);
            assert(k > 0);
            lemma_ranges_ordered(b, n, 0, k);
            assert(b[0].end < b[k].start);
        }
        assert(a[0] == b[0]);
        // The tails cover the same indices and are equal by induction.
        let a1 = a.drop_first();
        let b1 = b.drop_first();
        assert(forall|k: int| 0 <= k < a1.len() ==> #[trigger] a1[k] == a[k + 1]);
        assert(forall|k: int| 0 <= k < b1.len() ==> #[trigger] b1[k] == b[k + 1]);
        assert forall|j: int| #[trigger] in_ranges(a1, j) <==> in_ranges(a, j) && j >= ea by {
            if in_ranges(a1, j) {
                let k = choose|k: int| 0 <= k < a1.len() && #[trigger] in_range(a1[k], j);
                assert(in_range(a[k + 1], j));
                assert(in_ranges(a, j));
                lemma_ranges_ordered(a, n, 0, k + 1);
                assert(j >= ea);
            }
            if in_ranges(a, j) && j >= ea {
                let k = choose|k: int| 0 <= k < a.len() && #[trigger] in_range(a[k], j);
                assert(k != 0);
                assert(in_range(a1[k - 1], j));
            }
        }
        assert forall|j: int| #[trigger] in_ranges(b1, j) <==> in_ranges(b, j) && j >= eb by {
            if in_ranges(b1, j) {
                let k = choose|k: int| 0 <= k < b1.len() && #[trigger] in_range(b1[k], j);
                assert(in_range(b[k + 1], j));
                assert(in_ranges(b, j));
                lemma_ranges_ordered(b, n, 0, k + 1);
                assert(j >= eb);
            }
            if in_ranges(b, j) && j >= eb {
                let k = choose|k: int| 0 <= k < b.len() && #[trigger] in_range(b[k], j);
                assert(k != 0);
                assert(in_range(b1[k - 1], j));
            }
        }
        assert(ranges_wf(a1, n));
        assert(ranges_wf(b1, n));
        lemma_ranges_unique(a1, b1, n);
        assert(a.len() == b.len());
        assert forall|i: int| 0 <= i < a.len() implies a[i] == b[i] by {
            if i > 0 {
                assert(a1[i - 1] == a[i]);
                assert(b1[i - 1] == b[i]);
                assert(a1[i - 1] == b1[i - 1]);
            }
        }
        assert(a =~= b);
    }
}

/// Resolving the same transcript against the same patterns twice
/// yields identical public ranges and identical private ranges.
pub proof fn lemma_resolver_deterministic(
    t: Seq<u8>,
    pats: Seq<Seq<u8>>,
    public1: Seq<ByteRange>,
    private1: Seq<ByteRange>,
    public2: Seq<ByteRange>,
    private2: Seq<ByteRange>,
)
    requires
        resolver_public_ok(t, pats, public1),
        private1 == all_pattern_matches(t, pats),
        resolver_public_ok(t, pats, public2),
        private2 == all_pattern_matches(t, pats),
    ensures
        public1 == public2,
        private1 == private2,
{
    assert forall|j: int| #[trigger] in_ranges(public1, j) <==> in_ranges(public2, j) by {
        if in_ranges(public1, j) {
            let k = choose|k: int| 0 <= k < public1.len() && #[trigger] in_range(public1[k], j);
            assert(0 <= j < t.len());
        }
        if in_ranges(public2, j) {
            let k = choose|k: int| 0 <= k < public2.len() && #[trigger] in_range(public2[k], j);
            assert(0 <= j < t.len());
        }
    }
    lemma_ranges_unique(public1, public2, t.len() as int);
}

/// With no pattern occurrence at all — no patterns, or every pattern
/// longer than the transcript — the whole transcript is one public
/// range.
pub proof fn lemma_no_match_full_span(t: Seq<u8>, pats: Seq<Seq<u8>>, public: Seq<ByteRange>)
    requires
        resolver_public_ok(t, pats, public),
        0 < t.len() <= usize::MAX,
        forall|k: int, i: int| 0 <= k < pats.len() ==> !#[trigger] matches_at(t, pats[k], i),
    ensures
        public == seq![ByteRange { start: 0, end: t.len() as usize }],
{
    let full = seq![ByteRange { start: 0, end: t.len() as usize }];
    assert forall|j: int| 0 <= j < t.len() implies !covered(t, pats, j) by {
        if covered(t, pats, j) {
            let k = choose|k: int| 0 <= k < pats.len() && covered_by(t, #[trigger] pats[k], j);
            let i = choose|i: int| #[trigger] matches_at(t, pats[k], i) && i <= j < i + pats[k].len();
        }
    }
    assert forall|j: int| #[trigger] in_ranges(public, j) <==> in_ranges(full, j) by {
        if in_ranges(public, j) {
            let k = choose|k: int| 0 <= k < public.len() && #[trigger] in_range(public[k], j);
            assert(0 <= j < t.len());
            assert(in_range(full[0], j));
        }
        if in_ranges(full, j) {
            let k = choose|k: int| 0 <= k < full.len() && #[trigger] in_range(full[k], j);
            assert(0 <= j < t.len());
        }
    }
    assert(ranges_wf(full, t.len() as int));
    lemma_ranges_unique(public, full, t.len() as int);
}

/// A pattern list with no occurrence in the transcript records no
/// private range.
pub proof fn lemma_no_match_no_private(t: Seq<u8>, pats: Seq<Seq<u8>>)
    requires
        forall|k: int, i: int| 0 <= k < pats.len() ==> !#[trigger] matches_at(t, pats[k], i),
    ensures
        all_pattern_matches(t, pats) == Seq::<ByteRange>::empty(),
    decreases pats.len(),
{
    if pats.len() > 0 {
        lemma_no_match_empty_from(t, pats[0], 0);
        assert forall|k: int, i: int|
            0 <= k < pats.drop_first().len() implies !#[trigger] matches_at(
            t,
            pats.drop_first()[k],
            i,
        ) by {
            assert(pats.drop_first()[k] == pats[k + 1]);
            assert(!matches_at(t, pats[k + 1], i));
        }
        lemma_no_match_no_private(t, pats.drop_first());
        assert(all_pattern_matches(t, pats) =~= Seq::<ByteRange>::empty());
    }
}

/// A pattern with no occurrence from `i0` on records no match there.
proof fn lemma_no_match_empty_from(t: Seq<u8>, p: Seq<u8>, i0: int)
    requires
        forall|i: int| !#[trigger] matches_at(t, p, i),
    ensures
        pattern_matches_from(t, p, i0) == Seq::<ByteRange>::empty(),
    decreases t.len() + 1 - i0,
{
    if i0 + p.len() <= t.len() {
        lemma_no_match_empty_from(t, p, i0 + 1);
    }
}

/// With an empty pattern list the whole transcript is one public
/// range and no private range is recorded.
pub proof fn lemma_empty_patterns_full_span(t: Seq<u8>, public: Seq<ByteRange>)
    requires
        resolver_public_ok(t, Seq::<Seq<u8>>::empty(), public),
        0 < t.len() <= usize::MAX,
    ensures
        public == seq![ByteRange { start: 0, end: t.len() as usize }],
        all_pattern_matches(t, Seq::<Seq<u8>>::empty()) == Seq::<ByteRange>::empty(),
{
    let pats = Seq::<Seq<u8>>::empty();
    assert forall|k: int, i: int| 0 <= k < pats.len() implies !#[trigger] matches_at(
        t,
        pats[k],
        i,
    ) by {}
    lemma_no_match_full_span(t, pats, public);
    lemma_no_match_no_private(t, pats);
}

/// Patterns longer than the transcript itself produce zero matches and
/// a single full-span public range.
pub proof fn lemma_long_patterns_full_span(t: Seq<u8>, pats: Seq<Seq<u8>>, public: Seq<ByteRange>)
    requires
        resolver_public_ok(t, pats, public),
        0 < t.len() <= usize::MAX,
        forall|k: int| 0 <= k < pats.len() ==> (#[trigger] pats[k]).len() > t.len(),
    ensures
        public == seq![ByteRange { start: 0, end: t.len() as usize }],
        all_pattern_matches(t, pats) == Seq::<ByteRange>::empty(),
{
    assert forall|k: int, i: int| 0 <= k < pats.len() implies !#[trigger] matches_at(
        t,
        pats[k],
        i,
    ) by {
        assert(pats[k].len() > t.len());
    }
    lemma_no_match_full_span(t, pats, public);
    lemma_no_match_no_private(t, pats);
}

/// A pattern that equals the whole transcript covers every byte, so
/// nothing is public.
pub proof fn lemma_full_match_empty_public(
    t: Seq<u8>,
    pats: Seq<Seq<u8>>,
    public: Seq<ByteRange>,
    k: int,
)
    requires
        resolver_public_ok(t, pats, public),
        0 <= k < pats.len(),
        pats[k] == t,
        t.len() > 0,
    ensures
        public == Seq::<ByteRange>::empty(),
{
    assert(t.subrange(0, t.len() as int) =~= t);
    assert(matches_at(t, pats[k], 0));
    assert forall|j: int| 0 <= j < t.len() implies covered(t, pats, j) by {
        assert(covered_by(t, pats[k], j));
    }
    if public.len() > 0 {
        assert(in_range(public[0], public[0].start as int));
        assert(in_ranges(public, public[0].start as int));
        assert(0 <= public[0].start < t.len());
    }
    assert(public =~= Seq::<ByteRange>::empty());
}

} // verus!
