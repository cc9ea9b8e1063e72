use vstd::prelude::*;
use crate::data::{BisectData, BisectView, contains_rev};

verus! {

broadcast use {vstd::seq_lib::group_seq_properties, vstd::seq_lib::group_filter_ensures};

/// What the selector tells the user to do next.
#[derive(Clone, Copy, Debug, PartialEq, Eq, Structural)]
pub enum Outcome {
    /// Test this revision next.
    Instruction(u64),
    /// The defect is isolated at this (bad) revision.
    Converged(u64),
    /// Every revision left in the interval is skipped.
    Exhausted,
    /// No good and bad boundary exist yet.
    NotStarted,
}

/// `m` is the least element of `s`.
pub open spec fn is_least(s: Set<u64>, m: u64) -> bool {
    s.contains(m) && forall|x: u64| s.contains(x) ==> m <= x
}

/// `m` is the greatest element of `s`.
pub open spec fn is_greatest(s: Set<u64>, m: u64) -> bool {
    s.contains(m) && forall|x: u64| s.contains(x) ==> x <= m
}

/// The least element of a non-empty finite set.
pub open spec fn least(s: Set<u64>) -> u64 {
    choose|m: u64| is_least(s, m)
}

/// The greatest element of a non-empty finite set.
pub open spec fn greatest(s: Set<u64>) -> u64 {
    choose|m: u64| is_greatest(s, m)
}

/// The elements of `s` below `k`.
pub open spec fn below(s: Set<u64>, k: u64) -> Set<u64> {
    s.filter(|x: u64| x < k)
}

/// Standard orientation: some good revision lies before every bad one, so the
/// defect was introduced moving forward. Otherwise it was fixed moving forward.
pub open spec fn is_forward(v: BisectView) -> bool {
    least(v.good) < least(v.bad)
}

/// The lower end of the search interval (exclusive).
pub open spec fn lower_bound(v: BisectView) -> u64 {
    if is_forward(v) {
        greatest(below(v.good, least(v.bad)))
    } else {
        greatest(below(v.bad, least(v.good)))
    }
}

/// The upper end of the search interval (exclusive).
pub open spec fn upper_bound(v: BisectView) -> u64 {
    if is_forward(v) {
        least(v.bad)
    } else {
        least(v.good)
    }
}

/// The bad revision that closes the interval: the verdict once nothing is left.
pub open spec fn bad_boundary(v: BisectView) -> u64 {
    if is_forward(v) {
        upper_bound(v)
    } else {
        lower_bound(v)
    }
}

/// The revisions of `h` strictly between `lo` and `hi`, in the order of `h`.
pub open spec fn between(h: Seq<u64>, lo: u64, hi: u64) -> Seq<u64> {
    h.filter(|r: u64| lo < r && r < hi)
}

/// The revisions of `c` that are not in `skip`, in the order of `c`.
pub open spec fn unskipped(c: Seq<u64>, skip: Set<u64>) -> Seq<u64> {
    c.filter(|r: u64| !skip.contains(r))
}

/// The revisions of the history inside the search interval.
pub open spec fn raw_candidates(v: BisectView, h: Seq<u64>) -> Seq<u64> {
    between(h, lower_bound(v), upper_bound(v))
}

/// The revisions of the history inside the search interval and not skipped.
pub open spec fn candidates(v: BisectView, h: Seq<u64>) -> Seq<u64> {
    unskipped(raw_candidates(v, h), v.skip)
}

/// What the selector answers for the session `v` over the history `h`.
pub open spec fn next_outcome(v: BisectView, h: Seq<u64>) -> Outcome {
    if v.good == Set::<u64>::empty() || v.bad == Set::<u64>::empty() {
        Outcome::NotStarted
    } else {
        let c = candidates(v, h);
        if c.len() == 0 {
            if raw_candidates(v, h).len() == 0 {
                Outcome::Converged(bad_boundary(v))
            } else {
                Outcome::Exhausted
            }
        } else {
            Outcome::Instruction(c[(c.len() / 2) as int])
        }
    }
}

proof fn lemma_least_is(s: Set<u64>, m: u64)
    requires
        is_least(s, m),
    ensures
        least(s) == m,
{
    let l = least(s);
    assert(is_least(s, l));
    assert(l <= m && m <= l);
}

proof fn lemma_greatest_is(s: Set<u64>, m: u64)
    requires
        is_greatest(s, m),
    ensures
        greatest(s) == m,
{
    let g = greatest(s);
    assert(is_greatest(s, g));
    assert(g <= m && m <= g);
}

/// The least revision of `v`, if `v` has any.
fn least_rev(v: &Vec<u64>) -> (r: Option<u64>)
    ensures
        v@.len() == 0 <==> r is None,
        r matches Some(m) ==> is_least(v@.to_set(), m) && least(v@.to_set()) == m,
{
    if v.len() == 0 {
        return None;
    }
    let mut m: u64 = v[0];
    let mut i: usize = 1;
    while i < v.len()
        invariant
            1 <= i <= v.len(),
            v@.contains(m),
            forall|j: int| 0 <= j < i ==> m <= v@[j],
        decreases v.len() - i,
    {
        if v[i] < m {
            m = v[i];
        }
        i = i + 1;
    }
    proof {
        assert(v@.to_set().contains(m));
        assert(is_least(v@.to_set(), m));
        lemma_least_is(v@.to_set(), m);
    }
    Some(m)
}

/// The greatest revision of `v` below `k`, if there is one.
fn greatest_below(v: &Vec<u64>, k: u64) -> (r: Option<u64>)
    ensures
        r is None <==> below(v@.to_set(), k) =~= Set::empty(),
        r matches Some(m) ==> is_greatest(below(v@.to_set(), k), m) && greatest(
            below(v@.to_set(), k),
        ) == m,
{
    let mut best: Option<u64> = None;
    let mut i: usize = 0;
    while i < v.len()
        invariant
            0 <= i <= v.len(),
            best is None ==> forall|j: int| 0 <= j < i ==> v@[j] >= k,
            best matches Some(m) ==> v@.contains(m) && m < k && forall|j: int|
                0 <= j < i && v@[j] < k ==> v@[j] <= m,
        decreases v.len() - i,
    {
        let x = v[i];
        if x < k {
            match best {
                None => {
                    best = Some(x);
                },
                Some(m) => {
                    if x > m {
                        best = Some(x);
                    }
                },
            }
        }
        i = i + 1;
    }
    let ghost s = below(v@.to_set(), k);
    match best {
        None => {
            assert(s =~= Set::empty());
        },
        Some(m) => {
            assert(s.contains(m));
            assert(is_greatest(s, m));
            proof {
                lemma_greatest_is(s, m);
            }
        },
    }
    best
}

/// The revisions of `h` strictly between `lo` and `hi`.
fn collect_between(h: &Vec<u64>, lo: u64, hi: u64) -> (r: Vec<u64>)
    ensures
        r@ == between(h@, lo, hi),
{
    let mut out: Vec<u64> = Vec::new();
    let mut i: usize = 0;
    while i < h.len()
        invariant
            0 <= i <= h.len(),
            out@ == between(h@.subrange(0, i as int), lo, hi),
        decreases h.len() - i,
    {
        proof {
            assert(h@.subrange(0, i + 1) == h@.subrange(0, i as int).push(h@[i as int]));
            h@.subrange(0, i as int).lemma_filter_push(h@[i as int], |r: u64| lo < r && r < hi);
        }
        if lo < h[i] && h[i] < hi {
            out.push(h[i]);
        }
        i = i + 1;
    }
    assert(h@.subrange(0, h@.len() as int) == h@);
    out
}

/// The revisions of `c` that `skip` does not hold.
fn collect_unskipped(c: &Vec<u64>, skip: &Vec<u64>) -> (r: Vec<u64>)
    ensures
        r@ == unskipped(c@, skip@.to_set()),
{
    let ghost s = skip@.to_set();
    let mut out: Vec<u64> = Vec::new();
    let mut i: usize = 0;
    while i < c.len()
        invariant
            0 <= i <= c.len(),
            s == skip@.to_set(),
            out@ == unskipped(c@.subrange(0, i as int), s),
        decreases c.len() - i,
    {
        proof {
            assert(c@.subrange(0, i + 1) == c@.subrange(0, i as int).push(c@[i as int]));
            c@.subrange(0, i as int).lemma_filter_push(c@[i as int], |r: u64| !s.contains(r));
        }
        if !contains_rev(skip, c[i]) {
            out.push(c[i]);
        }
        i = i + 1;
    }
    assert(c@.subrange(0, c@.len() as int) == c@);
    out
}

/// Computes the next step of the bisection over `history`, the revisions that
/// exist for the tracked path in ascending order.
pub fn next(data: &BisectData, history: &Vec<u64>) -> (r: Outcome)
    requires
        data.view().disjoint(),
    ensures
        r == next_outcome(data.view(), history@),
{
    let ghost v = data.view();
    let lg = least_rev(&data.good);
    let lb = least_rev(&data.bad);
    let (lg, lb) = match (lg, lb) {
        (Some(g), Some(b)) => (g, b),
        _ => {
            proof {
                if data.good@.len() == 0 {
                    assert(v.good =~= Set::empty());
                }
                if data.bad@.len() == 0 {
                    assert(v.bad =~= Set::empty());
                }
            }
            return Outcome::NotStarted;
        },
    };
    proof {
        assert(v.good.contains(lg));
        assert(v.bad.contains(lb));
        assert(v.good != Set::<u64>::empty());
        assert(v.bad != Set::<u64>::empty());
    }
    let forward = lg < lb;
    let (lo, hi, boundary) = if forward {
        let lo = greatest_below(&data.good, lb);
        assert(below(v.good, lb).contains(lg));
        let lo = match lo {
            Some(g) => g,
            None => {
                return Outcome::NotStarted;
            },
        };
        (lo, lb, lb)
    } else {
        assert(lb != lg);
        let lo = greatest_below(&data.bad, lg);
        assert(below(v.bad, lg).contains(lb));
        let lo = match lo {
            Some(b) => b,
            None => {
                return Outcome::NotStarted;
            },
        };
        (lo, lg, lo)
    };
    let raw = collect_between(history, lo, hi);
    let free = collect_unskipped(&raw, &data.skip);
    if free.len() == 0 {
        if raw.len() == 0 {
            Outcome::Converged(boundary)
        } else {
            Outcome::Exhausted
        }
    } else {
        Outcome::Instruction(free[free.len() / 2])
    }
}

proof fn lemma_least_exists(s: Set<u64>, a: u64)
    requires
        s.finite(),
        s.contains(a),
    ensures
        is_least(s, least(s)),
    decreases s.len(),
{
    broadcast use vstd::set::group_set_axioms;

    let r = s.remove(a);
    if exists|b: u64| r.contains(b) {
        let b = choose|b: u64| r.contains(b);
        lemma_least_exists(r, b);
        let m = least(r);
        if a < m {
            assert(is_least(s, a));
        } else {
            assert(is_least(s, m));
        }
    } else {
        assert(is_least(s, a));
    }
}

proof fn lemma_greatest_exists(s: Set<u64>, a: u64)
    requires
        s.finite(),
        s.contains(a),
    ensures
        is_greatest(s, greatest(s)),
    decreases s.len(),
{
    broadcast use vstd::set::group_set_axioms;

    let r = s.remove(a);
    if exists|b: u64| r.contains(b) {
        let b = choose|b: u64| r.contains(b);
        lemma_greatest_exists(r, b);
        let m = greatest(r);
        if a > m {
            assert(is_greatest(s, a));
        } else {
            assert(is_greatest(s, m));
        }
    } else {
        assert(is_greatest(s, a));
    }
}

proof fn lemma_in_between(h: Seq<u64>, lo: u64, hi: u64, x: u64)
    requires
        h.contains(x),
        lo < x < hi,
    ensures
        between(h, lo, hi).contains(x),
{
    let p = |r: u64| lo < r && r < hi;
    let j = choose|j: int| 0 <= j < h.len() && h[j] == x;
    assert(p(h[j]));
}

proof fn lemma_from_between(h: Seq<u64>, lo: u64, hi: u64, i: int)
    requires
        0 <= i < between(h, lo, hi).len(),
    ensures
        h.contains(between(h, lo, hi)[i]),
        lo < between(h, lo, hi)[i] < hi,
{
    let p = |r: u64| lo < r && r < hi;
    h.lemma_filter_contains_rev(p, between(h, lo, hi)[i]);
}

/// Reading the same session over the same history always gives the same outcome.
pub proof fn lemma_next_deterministic(v1: BisectView, v2: BisectView, h1: Seq<u64>, h2: Seq<u64>)
    requires
        v1 == v2,
        h1 == h2,
    ensures
        next_outcome(v1, h1) == next_outcome(v2, h2),
{
}

/// When every revision of a non-empty search interval is skipped, the
/// selector reports that no candidate is left.
pub proof fn lemma_all_skipped_exhausted(v: BisectView, h: Seq<u64>)
    requires
        v.good != Set::<u64>::empty(),
        v.bad != Set::<u64>::empty(),
        raw_candidates(v, h).len() > 0,
        forall|i: int|
            0 <= i < raw_candidates(v, h).len() ==> v.skip.contains(
                #[trigger] raw_candidates(v, h)[i],
            ),
    ensures
        next_outcome(v, h) == Outcome::Exhausted,
{
    let raw = raw_candidates(v, h);
    let p = |r: u64| !v.skip.contains(r);
    if candidates(v, h).len() > 0 {
        let c = candidates(v, h)[0];
        assert(p(c));
        assert(candidates(v, h).contains(c));
        raw.lemma_filter_contains_rev(p, c);
        let j = choose|j: int| 0 <= j < raw.len() && raw[j] == c;
        assert(v.skip.contains(raw[j]));
    }
}

/// Facts on the boundaries of a valid session in the forward orientation.
proof fn lemma_forward_bounds(v: BisectView)
    requires
        v.finite(),
        v.disjoint(),
        v.good != Set::<u64>::empty(),
        v.bad != Set::<u64>::empty(),
        is_forward(v),
    ensures
        is_least(v.good, least(v.good)),
        is_least(v.bad, least(v.bad)),
        is_greatest(below(v.good, least(v.bad)), lower_bound(v)),
        least(v.good) <= lower_bound(v) < upper_bound(v),
{
    let g = choose|g: u64| v.good.contains(g);
    assert(v.good.contains(g)) by {
        assert(!(v.good =~= Set::<u64>::empty()));
    }
    let b = choose|b: u64| v.bad.contains(b);
    assert(v.bad.contains(b)) by {
        assert(!(v.bad =~= Set::<u64>::empty()));
    }
    lemma_least_exists(v.good, g);
    lemma_least_exists(v.bad, b);
    let s = below(v.good, least(v.bad));
    assert(s.contains(least(v.good)));
    assert(s.finite()) by {
        assert(s.subset_of(v.good));
        vstd::set_lib::lemma_set_subset_finite(v.good, s);
    }
    lemma_greatest_exists(s, least(v.good));
}

/// In the forward orientation, classifying as bad the lowest revision of the
/// search interval ends the search at that revision, skipped or not.
pub proof fn lemma_lowest_marked_bad_converges(v: BisectView, h: Seq<u64>, c: u64)
    requires
        v.finite(),
        v.disjoint(),
        v.good != Set::<u64>::empty(),
        v.bad != Set::<u64>::empty(),
        is_forward(v),
        raw_candidates(v, h).contains(c),
        forall|x: u64| raw_candidates(v, h).contains(x) ==> c <= x,
    ensures
        next_outcome(v.with_bad(c), h) == Outcome::Converged(c),
{
    let w = v.with_bad(c);
    let lo = lower_bound(v);
    let hi = upper_bound(v);
    lemma_forward_bounds(v);
    let j = choose|j: int| 0 <= j < raw_candidates(v, h).len() && raw_candidates(v, h)[j] == c;
    lemma_from_between(h, lo, hi, j);
    assert(!v.good.contains(c)) by {
        if v.good.contains(c) {
            assert(below(v.good, least(v.bad)).contains(c));
        }
    }
    assert(w.good =~= v.good);
    assert(is_least(w.bad, c));
    lemma_least_is(w.bad, c);
    lemma_least_is(w.good, least(v.good));
    assert(is_greatest(below(w.good, c), lo)) by {
        assert(below(v.good, least(v.bad)).contains(lo));
        assert forall|x: u64| below(w.good, c).contains(x) implies x <= lo by {
            assert(below(v.good, least(v.bad)).contains(x));
        }
    }
    lemma_greatest_is(below(w.good, c), lo);
    assert(w.good.contains(least(v.good)));
    assert(w.bad.contains(c));
    let raw2 = raw_candidates(w, h);
    if raw2.len() > 0 {
        lemma_from_between(h, lo, c, 0);
        let x = raw2[0];
        lemma_in_between(h, lo, hi, x);
    }
}

/// In the forward orientation, classifying as good the highest revision of the
/// search interval ends the search at the bad boundary, skipped or not.
pub proof fn lemma_highest_marked_good_converges(v: BisectView, h: Seq<u64>, c: u64)
    requires
        v.finite(),
        v.disjoint(),
        v.good != Set::<u64>::empty(),
        v.bad != Set::<u64>::empty(),
        is_forward(v),
        raw_candidates(v, h).contains(c),
        forall|x: u64| raw_candidates(v, h).contains(x) ==> x <= c,
    ensures
        next_outcome(v.with_good(c), h) == Outcome::Converged(upper_bound(v)),
{
    let w = v.with_good(c);
    let lo = lower_bound(v);
    let hi = upper_bound(v);
    lemma_forward_bounds(v);
    let j = choose|j: int| 0 <= j < raw_candidates(v, h).len() && raw_candidates(v, h)[j] == c;
    lemma_from_between(h, lo, hi, j);
    assert(!v.bad.contains(c));
    assert(w.bad =~= v.bad);
    assert(is_least(w.good, least(v.good)));
    lemma_least_is(w.good, least(v.good));
    assert(is_greatest(below(w.good, hi), c)) by {
        assert forall|x: u64| below(w.good, hi).contains(x) implies x <= c by {
            if x != c {
                assert(below(v.good, least(v.bad)).contains(x));
            }
        }
    }
    lemma_greatest_is(below(w.good, hi), c);
    assert(w.bad.contains(hi));
    let raw2 = raw_candidates(w, h);
    if raw2.len() > 0 {
        lemma_from_between(h, c, hi, 0);
        let x = raw2[0];
        lemma_in_between(h, lo, hi, x);
    }
}

/// Facts on the boundaries of a valid session in the reverse orientation.
proof fn lemma_reverse_bounds(v: BisectView)
    requires
        v.finite(),
        v.disjoint(),
        v.good != Set::<u64>::empty(),
        v.bad != Set::<u64>::empty(),
        !is_forward(v),
    ensures
        is_least(v.good, least(v.good)),
        is_least(v.bad, least(v.bad)),
        is_greatest(below(v.bad, least(v.good)), lower_bound(v)),
        least(v.bad) <= lower_bound(v) < upper_bound(v),
{
    let g = choose|g: u64| v.good.contains(g);
    assert(v.good.contains(g)) by {
        assert(!(v.good =~= Set::<u64>::empty()));
    }
    let b = choose|b: u64| v.bad.contains(b);
    assert(v.bad.contains(b)) by {
        assert(!(v.bad =~= Set::<u64>::empty()));
    }
    lemma_least_exists(v.good, g);
    lemma_least_exists(v.bad, b);
    assert(least(v.good) != least(v.bad));
    let s = below(v.bad, least(v.good));
    assert(s.contains(least(v.bad)));
    assert(s.finite()) by {
        vstd::set_lib::lemma_set_subset_finite(v.bad, s);
    }
    lemma_greatest_exists(s, least(v.bad));
}

/// In the reverse orientation, classifying as good the lowest revision of the
/// search interval ends the search at the bad boundary, skipped or not.
pub proof fn lemma_lowest_marked_good_converges(v: BisectView, h: Seq<u64>, c: u64)
    requires
        v.finite(),
        v.disjoint(),
        v.good != Set::<u64>::empty(),
        v.bad != Set::<u64>::empty(),
        !is_forward(v),
        raw_candidates(v, h).contains(c),
        forall|x: u64| raw_candidates(v, h).contains(x) ==> c <= x,
    ensures
        next_outcome(v.with_good(c), h) == Outcome::Converged(lower_bound(v)),
{
    let w = v.with_good(c);
    let lo = lower_bound(v);
    let hi = upper_bound(v);
    lemma_reverse_bounds(v);
    let j = choose|j: int| 0 <= j < raw_candidates(v, h).len() && raw_candidates(v, h)[j] == c;
    lemma_from_between(h, lo, hi, j);
    assert(!v.bad.contains(c)) by {
        if v.bad.contains(c) {
            assert(below(v.bad, least(v.good)).contains(c));
        }
    }
    assert(w.bad =~= v.bad);
    assert(is_least(w.good, c));
    lemma_least_is(w.good, c);
    lemma_least_is(w.bad, least(v.bad));
    assert(is_greatest(below(w.bad, c), lo)) by {
        assert(below(v.bad, least(v.good)).contains(lo));
        assert forall|x: u64| below(w.bad, c).contains(x) implies x <= lo by {
            assert(below(v.bad, least(v.good)).contains(x));
        }
    }
    lemma_greatest_is(below(w.bad, c), lo);
    assert(w.good.contains(c));
    assert(w.bad.contains(lo));
    let raw2 = raw_candidates(w, h);
    if raw2.len() > 0 {
        lemma_from_between(h, lo, c, 0);
        lemma_in_between(h, lo, hi, raw2[0]);
    }
}

/// In the reverse orientation, classifying as bad the highest revision of the
/// search interval ends the search at that revision, skipped or not.
pub proof fn lemma_highest_marked_bad_converges(v: BisectView, h: Seq<u64>, c: u64)
    requires
        v.finite(),
        v.disjoint(),
        v.good != Set::<u64>::empty(),
        v.bad != Set::<u64>::empty(),
        !is_forward(v),
        raw_candidates(v, h).contains(c),
        forall|x: u64| raw_candidates(v, h).contains(x) ==> x <= c,
    ensures
        next_outcome(v.with_bad(c), h) == Outcome::Converged(c),
{
    let w = v.with_bad(c);
    let lo = lower_bound(v);
    let hi = upper_bound(v);
    lemma_reverse_bounds(v);
    let j = choose|j: int| 0 <= j < raw_candidates(v, h).len() && raw_candidates(v, h)[j] == c;
    lemma_from_between(h, lo, hi, j);
    assert(!v.good.contains(c));
    assert(w.good =~= v.good);
    assert(is_least(w.bad, least(v.bad)));
    lemma_least_is(w.bad, least(v.bad));
    lemma_least_is(w.good, least(v.good));
    assert(is_greatest(below(w.bad, hi), c)) by {
        assert forall|x: u64| below(w.bad, hi).contains(x) implies x <= c by {
            if x != c {
                assert(below(v.bad, least(v.good)).contains(x));
            }
        }
    }
    lemma_greatest_is(below(w.bad, hi), c);
    assert(w.good.contains(hi));
    let raw2 = raw_candidates(w, h);
    if raw2.len() > 0 {
        lemma_from_between(h, c, hi, 0);
        lemma_in_between(h, lo, hi, raw2[0]);
    }
}

/// `s` is strictly increasing.
pub open spec fn increasing(s: Seq<u64>) -> bool {
    forall|i: int, j: int| 0 <= i < j < s.len() ==> s[i] < s[j]
}

/// Two to the power `k`.
pub open spec fn pow2(k: nat) -> nat
    decreases k,
{
    if k == 0 {
        1
    } else {
        2 * pow2((k - 1) as nat)
    }
}

/// A session whose classifications agree with "every revision from `t` on is
/// bad": nothing skipped, at least one good and one bad revision.
pub open spec fn agrees_with(v: BisectView, t: u64) -> bool {
    &&& v.finite()
    &&& v.disjoint()
    &&& v.good != Set::<u64>::empty()
    &&& v.bad != Set::<u64>::empty()
    &&& v.skip == Set::<u64>::empty()
    &&& forall|x: u64| v.good.contains(x) ==> x < t
    &&& forall|x: u64| v.bad.contains(x) ==> t <= x
}

/// The session after classifying the suggested revision as "every revision
/// from `t` on is bad" says; unchanged when nothing is suggested.
pub open spec fn oracle_step(v: BisectView, h: Seq<u64>, t: u64) -> BisectView {
    match next_outcome(v, h) {
        Outcome::Instruction(r) => if r < t {
            v.with_good(r)
        } else {
            v.with_bad(r)
        },
        _ => v,
    }
}

/// The session after `k` such steps.
pub open spec fn oracle_run(v: BisectView, h: Seq<u64>, t: u64, k: nat) -> BisectView
    decreases k,
{
    if k == 0 {
        v
    } else {
        oracle_run(oracle_step(v, h, t), h, t, (k - 1) as nat)
    }
}

proof fn lemma_filter_increasing(s: Seq<u64>, p: spec_fn(u64) -> bool)
    requires
        increasing(s),
    ensures
        increasing(s.filter(p)),
    decreases s.len(),
{
    if s.len() > 0 {
        let d = s.drop_last();
        lemma_filter_increasing(d, p);
        assert(s == d.push(s.last()));
        d.lemma_filter_push(s.last(), p);
        assert forall|i: int| 0 <= i < d.filter(p).len() implies d.filter(p)[i] < s.last() by {
            assert(d.filter(p).contains(d.filter(p)[i]));
            d.lemma_filter_contains_rev(p, d.filter(p)[i]);
        }
    }
}

proof fn lemma_filter_all(s: Seq<u64>, p: spec_fn(u64) -> bool)
    requires
        forall|x: u64| #[trigger] p(x),
    ensures
        s.filter(p) == s,
    decreases s.len(),
{
    if s.len() > 0 {
        let d = s.drop_last();
        lemma_filter_all(d, p);
        assert(s == d.push(s.last()));
        d.lemma_filter_push(s.last(), p);
    }
}

proof fn lemma_len_bound(a: Seq<u64>, b: Seq<u64>)
    requires
        increasing(a),
        forall|i: int| 0 <= i < a.len() ==> b.contains(#[trigger] a[i]),
    ensures
        a.len() <= b.len(),
{
    assert(a.no_duplicates());
    a.unique_seq_to_set();
    b.lemma_cardinality_of_set();
    assert(a.to_set().subset_of(b.to_set()));
    vstd::set_lib::lemma_len_subset(a.to_set(), b.to_set());
}

proof fn lemma_agrees_bounds(v: BisectView, h: Seq<u64>, t: u64)
    requires
        agrees_with(v, t),
    ensures
        is_forward(v),
        is_least(v.good, least(v.good)),
        is_least(v.bad, least(v.bad)),
        forall|x: u64| v.good.contains(x) ==> x <= lower_bound(v),
        v.good.contains(lower_bound(v)),
        lower_bound(v) < t <= upper_bound(v),
        upper_bound(v) == least(v.bad),
        candidates(v, h) == raw_candidates(v, h),
{
    let g = choose|g: u64| v.good.contains(g);
    assert(v.good.contains(g)) by {
        assert(!(v.good =~= Set::<u64>::empty()));
    }
    let b = choose|b: u64| v.bad.contains(b);
    assert(v.bad.contains(b)) by {
        assert(!(v.bad =~= Set::<u64>::empty()));
    }
    lemma_least_exists(v.good, g);
    lemma_least_exists(v.bad, b);
    lemma_forward_bounds(v);
    assert forall|x: u64| v.good.contains(x) implies x <= lower_bound(v) by {
        assert(below(v.good, least(v.bad)).contains(x));
    }
    lemma_filter_all(raw_candidates(v, h), |r: u64| !v.skip.contains(r));
}

proof fn lemma_oracle_fixed(v: BisectView, h: Seq<u64>, t: u64, k: nat)
    requires
        !(next_outcome(v, h) is Instruction),
    ensures
        oracle_run(v, h, t, k) == v,
    decreases k,
{
    if k > 0 {
        lemma_oracle_fixed(v, h, t, (k - 1) as nat);
    }
}

/// Binary search converges: over a strictly increasing history that holds the
/// first bad revision `t`, answering each suggestion truthfully ends in
/// `Converged(t)` after `k` steps once the interval holds fewer than `2^k`
/// candidates.
pub proof fn lemma_bisection_converges(v: BisectView, h: Seq<u64>, t: u64, k: nat)
    requires
        increasing(h),
        h.contains(t),
        agrees_with(v, t),
        raw_candidates(v, h).len() < pow2(k),
    ensures
        next_outcome(oracle_run(v, h, t, k), h) == Outcome::Converged(t),
    decreases k,
{
    let raw = raw_candidates(v, h);
    let n = raw.len();
    let lo = lower_bound(v);
    let hi = upper_bound(v);
    lemma_agrees_bounds(v, h, t);
    if n == 0 {
        if t < hi {
            lemma_in_between(h, lo, hi, t);
        }
        lemma_oracle_fixed(v, h, t, k);
        return;
    }
    assert(k > 0);
    let p = (k - 1) as nat;
    lemma_filter_increasing(h, |r: u64| lo < r && r < hi);
    let m = (n / 2) as int;
    let r = raw[m];
    lemma_from_between(h, lo, hi, m);
    assert(next_outcome(v, h) == Outcome::Instruction(r));
    let w = oracle_step(v, h, t);
    if r < t {
        assert(w == v.with_good(r));
        assert(!v.bad.contains(r));
        assert(w.bad =~= v.bad);
        assert(w.skip =~= Set::<u64>::empty());
        assert(agrees_with(w, t)) by {
            vstd::set::axiom_set_insert_finite(v.good, r);
            vstd::set::axiom_set_remove_finite(v.skip, r);
        }
        lemma_agrees_bounds(w, h, t);
        assert(lower_bound(w) == r) by {
            assert(is_greatest(below(w.good, hi), r));
            lemma_greatest_is(below(w.good, hi), r);
        }
        let raw2 = raw_candidates(w, h);
        lemma_filter_increasing(h, |x: u64| r < x && x < hi);
        let tail = raw.subrange(m + 1, n as int);
        assert forall|i: int| 0 <= i < raw2.len() implies tail.contains(#[trigger] raw2[i]) by {
            lemma_from_between(h, r, hi, i);
            lemma_in_between(h, lo, hi, raw2[i]);
            let j = choose|j: int| 0 <= j < n && raw[j] == raw2[i];
            assert(tail[j - m - 1] == raw2[i]);
        }
        lemma_len_bound(raw2, tail);
        lemma_bisection_converges(w, h, t, p);
    } else {
        assert(w == v.with_bad(r));
        assert(!v.good.contains(r));
        assert(w.good =~= v.good);
        assert(w.skip =~= Set::<u64>::empty());
        assert(agrees_with(w, t)) by {
            vstd::set::axiom_set_insert_finite(v.bad, r);
            vstd::set::axiom_set_remove_finite(v.skip, r);
        }
        lemma_agrees_bounds(w, h, t);
        assert(is_least(w.bad, r));
        lemma_least_is(w.bad, r);
        assert(lower_bound(w) == lo) by {
            assert(is_greatest(below(w.good, r), lo));
            lemma_greatest_is(below(w.good, r), lo);
        }
        let raw2 = raw_candidates(w, h);
        lemma_filter_increasing(h, |x: u64| lo < x && x < r);
        let head = raw.subrange(0, m);
        assert forall|i: int| 0 <= i < raw2.len() implies head.contains(#[trigger] raw2[i]) by {
            lemma_from_between(h, lo, r, i);
            lemma_in_between(h, lo, hi, raw2[i]);
            let j = choose|j: int| 0 <= j < n && raw[j] == raw2[i];
            assert(head[j] == raw2[i]);
        }
        lemma_len_bound(raw2, head);
        lemma_bisection_converges(w, h, t, p);
    }
}

} // verus!
