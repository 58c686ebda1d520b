use vstd::prelude::*;

verus! {

/// A binary feature descriptor of 512 bits.
pub type Descriptor = [u8; 64];

/// The number of set bits of `x`.
pub open spec fn popcount(x: nat) -> nat
    decreases x,
{
    if x == 0 {
        0
    } else {
        x % 2 + popcount(x / 2)
    }
}

/// The Hamming distance of the first `n` bytes of two descriptors.
pub open spec fn hamming_prefix(a: Seq<u8>, b: Seq<u8>, n: int) -> nat
    decreases n,
{
    if n <= 0 {
        0
    } else {
        hamming_prefix(a, b, n - 1) + popcount((a[n - 1] ^ b[n - 1]) as nat)
    }
}

/// The Hamming distance of two descriptors: the number of bits in which they differ.
pub open spec fn hamming(a: Descriptor, b: Descriptor) -> nat {
    hamming_prefix(a@, b@, 64)
}

/// The index of the first descriptor of `s` nearest to `x` (0 for an empty `s`).
pub open spec fn nearest(x: Descriptor, s: Seq<Descriptor>) -> int
    decreases s.len(),
{
    if s.len() <= 1 {
        0
    } else {
        let j = nearest(x, s.drop_last());
        if hamming(x, s.last()) < hamming(x, s[j]) {
            s.len() - 1
        } else {
            j
        }
    }
}

proof fn lemma_popcount_bound(x: nat, k: nat, p: nat)
    requires
        x < p,
        p == vstd::arithmetic::power2::pow2(k),
    ensures
        popcount(x) <= k,
    decreases k,
{
    if x != 0 {
        if k == 0 {
            vstd::arithmetic::power2::lemma2_to64();
        } else {
            vstd::arithmetic::power2::lemma_pow2_unfold(k);
            lemma_popcount_bound(x / 2, (k - 1) as nat, vstd::arithmetic::power2::pow2((k - 1) as nat));
        }
    }
}

proof fn lemma_nearest_bounds(x: Descriptor, s: Seq<Descriptor>)
    requires
        s.len() > 0,
    ensures
        0 <= nearest(x, s) < s.len(),
        forall|k: int| 0 <= k < s.len() ==> hamming(x, s[nearest(x, s)]) <= #[trigger] hamming(x, s[k]),
        forall|k: int| 0 <= k < nearest(x, s) ==> hamming(x, s[nearest(x, s)]) < #[trigger] hamming(x, s[k]),
    decreases s.len(),
{
    if s.len() > 1 {
        let t = s.drop_last();
        lemma_nearest_bounds(x, t);
        assert forall|k: int| 0 <= k < t.len() implies t[k] == s[k] by {}
    }
}

/// The number of set bits of a byte.
fn byte_popcount(x: u8) -> (r: u32)
    ensures
        r == popcount(x as nat),
        r <= 8,
{
    let mut v: u8 = x;
    let mut c: u32 = 0;
    proof {
        vstd::arithmetic::power2::lemma2_to64();
        lemma_popcount_bound(x as nat, 8, 256);
    }
    while v > 0
        invariant
            c + popcount(v as nat) == popcount(x as nat),
            popcount(x as nat) <= 8,
        decreases v,
    {
        c = c + (v % 2) as u32;
        v = v / 2;
    }
    c
}

/// The Hamming distance of two descriptors.
pub fn descriptor_distance(a: &Descriptor, b: &Descriptor) -> (r: u32)
    ensures
        r == hamming(*a, *b),
        r <= 512,
{
    let mut total: u32 = 0;
    let mut i: usize = 0;
    while i < 64
        invariant
            0 <= i <= 64,
            a@.len() == 64,
            b@.len() == 64,
            total == hamming_prefix(a@, b@, i as int),
            total <= 8 * i,
        decreases 64 - i,
    {
        let c = byte_popcount(a[i] ^ b[i]);
        total = total + c;
        i = i + 1;
    }
    total
}

/// For each descriptor of `a`, the index of its nearest descriptor in `b` (the
/// first, where several are equally near) and their distance.
pub fn matching(a_descriptors: &Vec<Descriptor>, b_descriptors: &Vec<Descriptor>) -> (r: Vec<(usize, u32)>)
    requires
        b_descriptors.len() > 0,
    ensures
        r.len() == a_descriptors.len(),
        forall|i: int|
            0 <= i < r.len() ==> {
                &&& #[trigger] r@[i].0 == nearest(a_descriptors@[i], b_descriptors@)
                &&& r@[i].1 == hamming(a_descriptors@[i], b_descriptors@[r@[i].0 as int])
            },
{
    let mut r: Vec<(usize, u32)> = Vec::new();
    let mut i: usize = 0;
    while i < a_descriptors.len()
        invariant
            0 <= i <= a_descriptors.len(),
            b_descriptors.len() > 0,
            r.len() == i,
            forall|k: int|
                0 <= k < i ==> {
                    &&& #[trigger] r@[k].0 == nearest(a_descriptors@[k], b_descriptors@)
                    &&& r@[k].1 == hamming(a_descriptors@[k], b_descriptors@[r@[k].0 as int])
                },
        decreases a_descriptors.len() - i,
    {
        let x = &a_descriptors[i];
        let mut best: usize = 0;
        let mut best_d: u32 = descriptor_distance(x, &b_descriptors[0]);
        let mut j: usize = 1;
        while j < b_descriptors.len()
            invariant
                1 <= j <= b_descriptors.len(),
                *x == a_descriptors@[i as int],
                best == nearest(*x, b_descriptors@.subrange(0, j as int)),
                best < j,
                best_d == hamming(*x, b_descriptors@[best as int]),
            decreases b_descriptors.len() - j,
        {
            let d = descriptor_distance(x, &b_descriptors[j]);
            proof {
                let s = b_descriptors@.subrange(0, j as int + 1);
                assert(s.drop_last() =~= b_descriptors@.subrange(0, j as int));
                assert(s.last() == b_descriptors@[j as int]);
                assert(s[best as int] == b_descriptors@[best as int]);
            }
            if d < best_d {
                best = j;
                best_d = d;
            }
            j = j + 1;
        }
        assert(b_descriptors@.subrange(0, b_descriptors.len() as int) =~= b_descriptors@);
        r.push((best, best_d));
        i = i + 1;
    }
    r
}

/// The cross-checked matches of two descriptor sets: `(i, j)` with distance `d`
/// is kept when `j` is the nearest descriptor of `b` to `a[i]` and `i` is the
/// nearest descriptor of `a` to `b[j]`, in increasing order of `i`.
pub fn symmetric_matching(a: &Vec<Descriptor>, b: &Vec<Descriptor>) -> (r: Vec<((usize, usize), u32)>)
    ensures
        forall|k: int|
            0 <= k < r.len() ==> {
                let ((i, j), d) = #[trigger] r@[k];
                &&& i < a.len()
                &&& j < b.len()
                &&& j == nearest(a@[i as int], b@)
                &&& i == nearest(b@[j as int], a@)
                &&& d == hamming(a@[i as int], b@[j as int])
            },
        forall|k: int, l: int| 0 <= k < l < r.len() ==> (r@[k].0).0 < (r@[l].0).0,
        forall|i: int|
            0 <= i < a.len() && b.len() > 0 && nearest(b@[nearest(a@[i], b@)], a@) == i ==> exists|k: int|
                0 <= k < r.len() && (#[trigger] r@[k].0).0 == i,
{
    let mut r: Vec<((usize, usize), u32)> = Vec::new();
    if a.len() == 0 || b.len() == 0 {
        return r;
    }
    let forward = matching(a, b);
    let reverse = matching(b, a);
    let mut i: usize = 0;
    while i < forward.len()
        invariant
            0 <= i <= forward.len(),
            forward.len() == a.len(),
            reverse.len() == b.len(),
            a.len() > 0,
            b.len() > 0,
            forall|k: int|
                0 <= k < forward.len() ==> {
                    &&& #[trigger] forward@[k].0 == nearest(a@[k], b@)
                    &&& forward@[k].1 == hamming(a@[k], b@[forward@[k].0 as int])
                },
            forall|k: int|
                0 <= k < reverse.len() ==> {
                    &&& #[trigger] reverse@[k].0 == nearest(b@[k], a@)
                    &&& reverse@[k].1 == hamming(b@[k], a@[reverse@[k].0 as int])
                },
            forall|k: int|
                0 <= k < r.len() ==> {
                    let ((ai, bj), d) = #[trigger] r@[k];
                    &&& ai < i
                    &&& bj < b.len()
                    &&& bj == nearest(a@[ai as int], b@)
                    &&& ai == nearest(b@[bj as int], a@)
                    &&& d == hamming(a@[ai as int], b@[bj as int])
                },
            forall|k: int, l: int| 0 <= k < l < r.len() ==> (r@[k].0).0 < (r@[l].0).0,
            forall|ai: int|
                0 <= ai < i && nearest(b@[nearest(a@[ai], b@)], a@) == ai ==> exists|k: int|
                    0 <= k < r.len() && (#[trigger] r@[k].0).0 == ai,
        decreases forward.len() - i,
    {
        let (bix, distance) = forward[i];
        proof {
            lemma_nearest_bounds(a@[i as int], b@);
        }
        let ghost old_r = r@;
        if reverse[bix].0 == i {
            r.push(((i, bix), distance));
        }
        proof {
            assert forall|ai: int|
                0 <= ai < i + 1 && nearest(b@[nearest(a@[ai], b@)], a@) == ai implies exists|k: int|
                    0 <= k < r.len() && (#[trigger] r@[k].0).0 == ai by {
                if ai < i {
                    let k = choose|k: int| 0 <= k < old_r.len() && (#[trigger] old_r[k].0).0 == ai;
                    assert(r@[k] == old_r[k]);
                } else {
                    assert((r@[r.len() - 1].0).0 == ai);
                }
            }
        }
        i = i + 1;
    }
    r
}

/// Whether `m` pairs mutually nearest descriptors of `a` and `b` whose
/// distance is at most `threshold`.
pub open spec fn is_candidate(a: Seq<Descriptor>, b: Seq<Descriptor>, threshold: usize, m: (usize, usize)) -> bool {
    &&& m.0 < a.len()
    &&& m.1 < b.len()
    &&& nearest(a[m.0 as int], b) == m.1
    &&& nearest(b[m.1 as int], a) == m.0
    &&& hamming(a[m.0 as int], b[m.1 as int]) <= threshold
}

/// `cands` holds candidate matches only, and every candidate match.
pub open spec fn holds_candidates(a: Seq<Descriptor>, b: Seq<Descriptor>, threshold: usize, cands: Seq<(usize, usize)>) -> bool {
    &&& forall|k: int| 0 <= k < cands.len() ==> is_candidate(a, b, threshold, #[trigger] cands[k])
    &&& forall|m: (usize, usize)| is_candidate(a, b, threshold, m) ==> #[trigger] cands.contains(m)
}

/// The matches of a cross-checked list whose distance is at most `threshold`,
/// in their order.
pub open spec fn within_threshold(matches: Seq<((usize, usize), u32)>, threshold: usize) -> Seq<(usize, usize)> {
    matches.filter_map(|e: ((usize, usize), u32)| if e.1 <= threshold { Some(e.0) } else { None })
}

/// `x` is the pair of some match of the list within `threshold`.
pub open spec fn kept_from(matches: Seq<((usize, usize), u32)>, threshold: usize, x: (usize, usize)) -> bool {
    exists|j: int| 0 <= j < matches.len() && (#[trigger] matches[j]).0 == x && matches[j].1 <= threshold
}

/// Keeps the matches whose distance is at most `threshold`.
pub fn threshold_matches(matches: &Vec<((usize, usize), u32)>, threshold: usize) -> (r: Vec<(usize, usize)>)
    ensures
        r@ == within_threshold(matches@, threshold),
        forall|k: int| 0 <= k < r.len() ==> kept_from(matches@, threshold, #[trigger] r@[k]),
{
    let mut r: Vec<(usize, usize)> = Vec::new();
    let mut i: usize = 0;
    while i < matches.len()
        invariant
            0 <= i <= matches.len(),
            r@ == within_threshold(matches@.take(i as int), threshold),
            forall|k: int| 0 <= k < r.len() ==> kept_from(matches@, threshold, #[trigger] r@[k]),
        decreases matches.len() - i,
    {
        proof {
            assert(matches@.take(i as int + 1).drop_last() =~= matches@.take(i as int));
            assert(matches@.take(i as int + 1).last() == matches@[i as int]);
        }
        let ghost old_r = r@;
        if (matches[i].1 as usize) <= threshold {
            r.push(matches[i].0);
            proof {
                assert(r@ =~= old_r + seq![matches@[i as int].0]);
                assert forall|k: int| 0 <= k < r.len() implies kept_from(matches@, threshold, #[trigger] r@[k]) by {
                    if k < old_r.len() {
                        assert(r@[k] == old_r[k]);
                    } else {
                        assert(matches@[i as int].0 == r@[k]);
                    }
                }
            }
        }
        i = i + 1;
    }
    assert(matches@.take(matches.len() as int) =~= matches@);
    r
}

/// The matches at the given positions, in the order of `positions`; a
/// position past the end of `matches` is skipped.
pub open spec fn at_positions(matches: Seq<(usize, usize)>, positions: Seq<usize>) -> Seq<(usize, usize)> {
    positions.filter_map(|p: usize| if p < matches.len() { Some(matches[p as int]) } else { None })
}

/// Picks the matches at the given positions.
pub fn select_matches(matches: &Vec<(usize, usize)>, positions: &Vec<usize>) -> (r: Vec<(usize, usize)>)
    ensures
        r@ == at_positions(matches@, positions@),
        forall|k: int| 0 <= k < r.len() ==> matches@.contains(#[trigger] r@[k]),
{
    let mut r: Vec<(usize, usize)> = Vec::new();
    let mut i: usize = 0;
    while i < positions.len()
        invariant
            0 <= i <= positions.len(),
            r@ == at_positions(matches@, positions@.take(i as int)),
            forall|k: int| 0 <= k < r.len() ==> matches@.contains(#[trigger] r@[k]),
        decreases positions.len() - i,
    {
        proof {
            assert(positions@.take(i as int + 1).drop_last() =~= positions@.take(i as int));
            assert(positions@.take(i as int + 1).last() == positions@[i as int]);
        }
        let p = positions[i];
        let ghost old_r = r@;
        if p < matches.len() {
            r.push(matches[p]);
            proof {
                assert(r@ =~= old_r + seq![matches@[p as int]]);
                assert forall|k: int| 0 <= k < r.len() implies matches@.contains(#[trigger] r@[k]) by {
                    if k < old_r.len() {
                        assert(r@[k] == old_r[k]);
                    } else {
                        assert(matches@[p as int] == r@[k]);
                    }
                }
            }
        }
        i = i + 1;
    }
    assert(positions@.take(positions.len() as int) =~= positions@);
    r
}

/// The cross-checked matches of two descriptor sets whose distance is at most
/// `threshold`, in increasing order of the first index.
pub fn candidate_matches(a: &Vec<Descriptor>, b: &Vec<Descriptor>, threshold: usize) -> (r: Vec<(usize, usize)>)
    ensures
        forall|k: int| 0 <= k < r.len() ==> is_candidate(a@, b@, threshold, #[trigger] r@[k]),
        forall|k: int, l: int| 0 <= k < l < r.len() ==> r@[k].0 < r@[l].0,
        forall|m: (usize, usize)| is_candidate(a@, b@, threshold, m) ==> #[trigger] r@.contains(m),
{
    let sym = symmetric_matching(a, b);
    let r = threshold_matches(&sym, threshold);
    proof {
        assert forall|k: int| 0 <= k < r.len() implies is_candidate(a@, b@, threshold, #[trigger] r@[k]) by {
            assert(kept_from(sym@, threshold, r@[k]));
            let j = choose|j: int| 0 <= j < sym.len() && (#[trigger] sym@[j]).0 == r@[k] && sym@[j].1 <= threshold;
            assert(sym@[j] == sym@[j]);
        }
        lemma_within_threshold_order(sym@, threshold);
        assert forall|m: (usize, usize)| is_candidate(a@, b@, threshold, m) implies #[trigger] r@.contains(m) by {
            let i = m.0 as int;
            assert(b.len() > 0);
            assert(nearest(b@[nearest(a@[i], b@)], a@) == i);
            let k = choose|k: int| 0 <= k < sym.len() && (#[trigger] sym@[k].0).0 == i;
            assert(sym@[k].0 == m);
            lemma_within_threshold_keeps(sym@, threshold, k);
        }
    }
    r
}

proof fn lemma_within_threshold_order(s: Seq<((usize, usize), u32)>, threshold: usize)
    requires
        forall|k: int, l: int| 0 <= k < l < s.len() ==> (s[k].0).0 < (s[l].0).0,
    ensures
        forall|k: int, l: int|
            0 <= k < l < within_threshold(s, threshold).len() ==> within_threshold(s, threshold)[k].0 < within_threshold(s, threshold)[l].0,
        forall|k: int| #![trigger within_threshold(s, threshold)[k]] 0 <= k < within_threshold(s, threshold).len() ==> exists|j: int|
            0 <= j < s.len() && (#[trigger] s[j]).0 == within_threshold(s, threshold)[k],
    decreases s.len(),
{
    if s.len() > 0 {
        let t = s.drop_last();
        lemma_within_threshold_order(t, threshold);
        let bt = within_threshold(t, threshold);
        assert forall|k: int| 0 <= k < bt.len() implies (#[trigger] bt[k]).0 < (s.last().0).0 by {
            let j = choose|j: int| 0 <= j < t.len() && (#[trigger] t[j]).0 == bt[k];
            assert(s[j] == t[j]);
        }
        let bs = within_threshold(s, threshold);
        assert forall|k: int| #![trigger bs[k]] 0 <= k < bs.len() implies exists|j: int|
            0 <= j < s.len() && (#[trigger] s[j]).0 == bs[k] by {
            if k < bt.len() {
                let j = choose|j: int| 0 <= j < t.len() && (#[trigger] t[j]).0 == bt[k];
                assert(s[j] == t[j]);
            } else {
                assert(s[s.len() - 1].0 == bs[k]);
            }
        }
    }
}

proof fn lemma_within_threshold_keeps(s: Seq<((usize, usize), u32)>, threshold: usize, k: int)
    requires
        0 <= k < s.len(),
        s[k].1 <= threshold,
    ensures
        within_threshold(s, threshold).contains(s[k].0),
    decreases s.len(),
{
    let t = s.drop_last();
    if k < s.len() - 1 {
        lemma_within_threshold_keeps(t, threshold, k);
        let bt = within_threshold(t, threshold);
        let i = choose|i: int| 0 <= i < bt.len() && bt[i] == t[k].0;
        assert(within_threshold(s, threshold)[i] == bt[i]);
    } else {
        let bs = within_threshold(s, threshold);
        assert(bs[bs.len() - 1] == s[k].0);
    }
}

} // verus!
