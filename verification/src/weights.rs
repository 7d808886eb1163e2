//! Mathematical model of projected batch shapes.
//!
//! A batch member is summarized by a [`Shape`]: how many prompt tokens it
//! carries, how many output tokens it may still produce, and how many it has
//! produced already.  Weight models reason about the multiset of shapes a
//! batch will pass through as members finish and drop out; the helpers here
//! are conditional sums and maxima over shape sequences together with the
//! lemmas that make them behave like functions of the underlying multiset.

use vstd::prelude::*;

verus! {

/// The projected shape of one request inside a batch.
pub struct Shape {
    /// Prompt length that the request entered the batch with.
    pub in_len: int,
    /// Total output budget (`max_new_tokens`).
    pub out_len: int,
    /// Tokens generated so far.
    pub generated: int,
    /// The entry id that carries this shape.
    pub id: int,
}

impl Shape {
    /// Output tokens the member may still produce.
    pub open spec fn rem(self) -> int {
        self.out_len - self.generated
    }

    /// Tokens currently held by the member (prompt plus generated).
    pub open spec fn cur(self) -> int {
        self.in_len + self.generated
    }

    /// Field bounds: lengths fit a `u32`, and a live member still owes at
    /// least one token.
    pub open spec fn wf(self) -> bool {
        &&& 0 <= self.in_len <= u32::MAX
        &&& 1 <= self.out_len <= u32::MAX
        &&& 0 <= self.generated < self.out_len
    }
}

pub open spec fn shapes_wf(ms: Seq<Shape>) -> bool {
    forall|k: int| 0 <= k < ms.len() ==> (#[trigger] ms[k]).wf()
}

/// Sum of `f` over the members satisfying `p`.
pub open spec fn csum(ms: Seq<Shape>, p: spec_fn(Shape) -> bool, f: spec_fn(Shape) -> int) -> int
    decreases ms.len(),
{
    if ms.len() == 0 {
        0
    } else {
        csum(ms.drop_last(), p, f) + if p(ms.last()) {
            f(ms.last())
        } else {
            0
        }
    }
}

/// Maximum of `f` over the members satisfying `p`; 0 when none does.
pub open spec fn cmax(ms: Seq<Shape>, p: spec_fn(Shape) -> bool, f: spec_fn(Shape) -> int) -> int
    decreases ms.len(),
{
    if ms.len() == 0 {
        0
    } else {
        let rest = cmax(ms.drop_last(), p, f);
        if p(ms.last()) && f(ms.last()) > rest {
            f(ms.last())
        } else {
            rest
        }
    }
}

/// Membership predicate for the batch state after `g` further output tokens:
/// a member is still decoding iff it owes at least `g` more tokens.
pub open spec fn alive(g: int) -> spec_fn(Shape) -> bool {
    |m: Shape| m.rem() >= g
}

/// Count of members still alive after `g` further tokens.
pub open spec fn alive_n(ms: Seq<Shape>, g: int) -> int {
    csum(ms, alive(g), |m: Shape| 1int)
}

/// Total tokens currently held by the members alive after `g` further tokens.
pub open spec fn alive_sum(ms: Seq<Shape>, g: int) -> int {
    csum(ms, alive(g), |m: Shape| m.cur())
}

/// Largest current length among the members alive after `g` further tokens.
pub open spec fn alive_max(ms: Seq<Shape>, g: int) -> int {
    cmax(ms, alive(g), |m: Shape| m.cur())
}

/// How many members owe exactly `r` more tokens.
pub open spec fn rem_count(ms: Seq<Shape>, r: int) -> int {
    alive_n(ms, r) - alive_n(ms, r + 1)
}

/// `o` is a point where the projected batch changes shape: some member
/// owes exactly `o` more tokens.
pub open spec fn is_boundary(ms: Seq<Shape>, o: int) -> bool {
    rem_count(ms, o) >= 1
}

/// No two members owe the same number of tokens.
pub open spec fn distinct_rems(ms: Seq<Shape>) -> bool {
    forall|i: int, j: int|
        0 <= i < ms.len() && 0 <= j < ms.len() && i != j ==> (#[trigger] ms[i]).rem() != (
        #[trigger] ms[j]).rem()
}

/// Removing member `j` removes exactly its contribution from a sum.
pub proof fn lemma_csum_remove(
    ms: Seq<Shape>,
    p: spec_fn(Shape) -> bool,
    f: spec_fn(Shape) -> int,
    j: int,
)
    requires
        0 <= j < ms.len(),
    ensures
        csum(ms.remove(j), p, f) == csum(ms, p, f) - if p(ms[j]) {
            f(ms[j])
        } else {
            0
        },
    decreases ms.len(),
{
    if j == ms.len() - 1 {
        assert(ms.remove(j) =~= ms.drop_last());
    } else {
        assert(ms.remove(j).drop_last() =~= ms.drop_last().remove(j));
        assert(ms.remove(j).last() == ms.last());
        lemma_csum_remove(ms.drop_last(), p, f, j);
    }
}

/// Sums are functions of the underlying multiset.
pub proof fn lemma_csum_multiset(
    ms1: Seq<Shape>,
    ms2: Seq<Shape>,
    p: spec_fn(Shape) -> bool,
    f: spec_fn(Shape) -> int,
)
    requires
        ms1.to_multiset() == ms2.to_multiset(),
    ensures
        csum(ms1, p, f) == csum(ms2, p, f),
    decreases ms1.len(),
{
    broadcast use vstd::seq_lib::group_to_multiset_ensures;

    ms1.to_multiset_ensures();
    ms2.to_multiset_ensures();
    if ms1.len() == 0 {
        assert(ms2.len() == 0);
    } else {
        let c = ms1.last();
        let n = ms1.len() - 1;
        assert(ms1.contains(c));
        assert(ms2.to_multiset().count(c) > 0);
        assert(ms2.contains(c));
        let j = choose|j: int| 0 <= j < ms2.len() && ms2[j] == c;
        assert(ms1.drop_last() =~= ms1.remove(n));
        assert(ms1.remove(n).to_multiset() == ms1.to_multiset().remove(c));
        assert(ms2.remove(j).to_multiset() == ms2.to_multiset().remove(c));
        lemma_csum_multiset(ms1.drop_last(), ms2.remove(j), p, f);
        lemma_csum_remove(ms2, p, f, j);
    }
}

/// Bounds: a sum of a pointwise-bounded term is bounded by count times bound.
pub proof fn lemma_csum_bounds(
    ms: Seq<Shape>,
    p: spec_fn(Shape) -> bool,
    f: spec_fn(Shape) -> int,
    lo: int,
    hi: int,
)
    requires
        lo <= 0,
        hi >= 0,
        forall|k: int| 0 <= k < ms.len() ==> lo <= #[trigger] f(ms[k]) <= hi,
    ensures
        ms.len() * lo <= csum(ms, p, f) <= ms.len() * hi,
    decreases ms.len(),
{
    if ms.len() > 0 {
        lemma_csum_bounds(ms.drop_last(), p, f, lo, hi);
        assert((ms.len() - 1) * lo + lo == ms.len() * lo) by (nonlinear_arith);
        assert((ms.len() - 1) * hi + hi == ms.len() * hi) by (nonlinear_arith);
    }
}

/// Bounds for a sum over members that all qualify.
pub proof fn lemma_csum_all(
    ms: Seq<Shape>,
    p: spec_fn(Shape) -> bool,
    f: spec_fn(Shape) -> int,
    lo: int,
    hi: int,
)
    requires
        forall|k: int| 0 <= k < ms.len() ==> p(#[trigger] ms[k]),
        forall|k: int| 0 <= k < ms.len() ==> lo <= #[trigger] f(ms[k]) <= hi,
    ensures
        ms.len() * lo <= csum(ms, p, f) <= ms.len() * hi,
    decreases ms.len(),
{
    if ms.len() > 0 {
        lemma_csum_all(ms.drop_last(), p, f, lo, hi);
        assert((ms.len() - 1) * lo + lo == ms.len() * lo) by (nonlinear_arith);
        assert((ms.len() - 1) * hi + hi == ms.len() * hi) by (nonlinear_arith);
    }
}

/// Pointwise-equal predicates and terms give equal sums.
pub proof fn lemma_csum_congruent(
    ms: Seq<Shape>,
    p: spec_fn(Shape) -> bool,
    q: spec_fn(Shape) -> bool,
    f: spec_fn(Shape) -> int,
    h: spec_fn(Shape) -> int,
)
    requires
        forall|k: int| 0 <= k < ms.len() ==> p(#[trigger] ms[k]) == q(ms[k]),
        forall|k: int| 0 <= k < ms.len() ==> f(#[trigger] ms[k]) == h(ms[k]),
    ensures
        csum(ms, p, f) == csum(ms, q, h),
    decreases ms.len(),
{
    if ms.len() > 0 {
        lemma_csum_congruent(ms.drop_last(), p, q, f, h);
    }
}

/// Unfolding a sum at the front of the sequence.
pub proof fn lemma_csum_drop_first(
    ms: Seq<Shape>,
    p: spec_fn(Shape) -> bool,
    f: spec_fn(Shape) -> int,
)
    requires
        ms.len() > 0,
    ensures
        csum(ms, p, f) == csum(ms.drop_first(), p, f) + if p(ms[0]) {
            f(ms[0])
        } else {
            0
        },
{
    lemma_csum_remove(ms, p, f, 0);
    assert(ms.remove(0) =~= ms.drop_first());
}

/// A sum ignores a prefix on which the predicate is false.
pub proof fn lemma_csum_skip(
    ms: Seq<Shape>,
    p: spec_fn(Shape) -> bool,
    f: spec_fn(Shape) -> int,
    i: int,
)
    requires
        0 <= i <= ms.len(),
        forall|k: int| 0 <= k < i ==> !p(#[trigger] ms[k]),
    ensures
        csum(ms, p, f) == csum(ms.skip(i), p, f),
    decreases i,
{
    if i > 0 {
        lemma_csum_drop_first(ms, p, f);
        assert(ms.drop_first() =~= ms.skip(1));
        lemma_csum_skip(ms.skip(1), p, f, i - 1);
        assert(ms.skip(1).skip(i - 1) =~= ms.skip(i));
    } else {
        assert(ms.skip(0) =~= ms);
    }
}

/// Inserting anywhere in a sequence inserts into its multiset.
pub proof fn lemma_seq_insert_to_multiset(s: Seq<Shape>, at: int, c: Shape)
    requires
        0 <= at <= s.len(),
    ensures
        s.insert(at, c).to_multiset() == s.to_multiset().insert(c),
{
    broadcast use vstd::seq_lib::group_to_multiset_ensures;

    let s2 = s.insert(at, c);
    assert(s2.remove(at) =~= s);
    assert(s2[at] == c);
    assert(s2.contains(c));
    assert(s2.to_multiset().count(c) > 0);
    assert(s2.remove(at).to_multiset() == s2.to_multiset().remove(c));
    assert(s2.to_multiset() =~= s.to_multiset().insert(c));
}

/// Ids missing from one arrangement of a multiset are missing from every
/// other.
pub proof fn lemma_shape_ids_transfer(ts: Seq<Shape>, ps: Seq<Shape>, id: int)
    requires
        ts.to_multiset() == ps.to_multiset(),
        forall|k: int| 0 <= k < ps.len() ==> (#[trigger] ps[k]).id != id,
    ensures
        forall|j: int| 0 <= j < ts.len() ==> (#[trigger] ts[j]).id != id,
{
    broadcast use vstd::seq_lib::group_to_multiset_ensures;

    assert forall|j: int| 0 <= j < ts.len() implies (#[trigger] ts[j]).id != id by {
        assert(ts.contains(ts[j]));
        assert(ps.to_multiset().count(ts[j]) > 0);
        assert(ps.contains(ts[j]));
    }
}

/// A sum splits at any index.
pub proof fn lemma_csum_parts(
    ms: Seq<Shape>,
    p: spec_fn(Shape) -> bool,
    f: spec_fn(Shape) -> int,
    i: int,
)
    requires
        0 <= i <= ms.len(),
    ensures
        csum(ms, p, f) == csum(ms.take(i), p, f) + csum(ms.skip(i), p, f),
    decreases ms.len(),
{
    if i == ms.len() {
        assert(ms.take(i) =~= ms);
        assert(ms.skip(i) =~= Seq::<Shape>::empty());
    } else {
        lemma_csum_parts(ms.drop_last(), p, f, i);
        assert(ms.drop_last().take(i) =~= ms.take(i));
        assert(ms.drop_last().skip(i) =~= ms.skip(i).drop_last());
        assert(ms.skip(i).last() == ms.last());
    }
}

/// A sum over members that never qualify vanishes, and so does the maximum.
pub proof fn lemma_alive_none(ms: Seq<Shape>, g: int)
    requires
        alive_n(ms, g) == 0,
    ensures
        alive_sum(ms, g) == 0,
        alive_max(ms, g) == 0,
    decreases ms.len(),
{
    if ms.len() > 0 {
        assert(alive_n(ms.drop_last(), g) >= 0 && alive_n(ms.drop_last(), g) <= alive_n(ms, g))
            by {
            lemma_csum_bounds(ms.drop_last(), alive(g), |m: Shape| 1int, 0, 1);
        }
        lemma_alive_none(ms.drop_last(), g);
    }
}

/// A strictly positive conditional count has a qualifying member.
pub proof fn lemma_csum_pos_witness(
    ms: Seq<Shape>,
    p: spec_fn(Shape) -> bool,
    f: spec_fn(Shape) -> int,
)
    requires
        csum(ms, p, f) != 0,
    ensures
        exists|k: int| 0 <= k < ms.len() && p(#[trigger] ms[k]),
    decreases ms.len(),
{
    if ms.len() > 0 {
        if p(ms.last()) {
            assert(p(ms[ms.len() - 1]));
        } else {
            lemma_csum_pos_witness(ms.drop_last(), p, f);
            let k = choose|k: int| 0 <= k < ms.len() - 1 && p(#[trigger] ms.drop_last()[k]);
            assert(p(ms[k]));
        }
    }
}

/// Pointwise-equal predicates give equal maxima.
pub proof fn lemma_cmax_congruent(
    ms: Seq<Shape>,
    p: spec_fn(Shape) -> bool,
    q: spec_fn(Shape) -> bool,
    f: spec_fn(Shape) -> int,
)
    requires
        forall|k: int| 0 <= k < ms.len() ==> p(#[trigger] ms[k]) == q(ms[k]),
    ensures
        cmax(ms, p, f) == cmax(ms, q, f),
    decreases ms.len(),
{
    if ms.len() > 0 {
        lemma_cmax_congruent(ms.drop_last(), p, q, f);
    }
}

/// Inserting a member that does not qualify leaves a maximum unchanged.
pub proof fn lemma_cmax_insert_inert(
    ms: Seq<Shape>,
    c: Shape,
    at: int,
    p: spec_fn(Shape) -> bool,
    f: spec_fn(Shape) -> int,
)
    requires
        0 <= at <= ms.len(),
        !p(c),
        forall|k: int| 0 <= k < ms.len() ==> 0 <= #[trigger] f(ms[k]),
        0 <= f(c),
    ensures
        cmax(ms.insert(at, c), p, f) == cmax(ms, p, f),
{
    let ms2 = ms.insert(at, c);
    assert(forall|k: int| 0 <= k < at ==> ms2[k] == #[trigger] ms[k]);
    assert(forall|k: int| at < k < ms2.len() ==> #[trigger] ms2[k] == ms[k - 1]);
    assert(forall|k: int| 0 <= k < ms2.len() ==> 0 <= #[trigger] f(ms2[k]));
    lemma_cmax_char(ms, p, f);
    lemma_cmax_char(ms2, p, f);
    if exists|k: int| 0 <= k < ms2.len() && p(#[trigger] ms2[k]) {
        let k = choose|k: int|
            0 <= k < ms2.len() && p(#[trigger] ms2[k]) && f(ms2[k]) == cmax(ms2, p, f);
        assert(k != at);
        let k0 = if k < at {
            k
        } else {
            k - 1
        };
        assert(ms[k0] == ms2[k]);
        assert(cmax(ms2, p, f) <= cmax(ms, p, f));
        let j = choose|j: int|
            0 <= j < ms.len() && p(#[trigger] ms[j]) && f(ms[j]) == cmax(ms, p, f);
        let j2 = if j < at {
            j
        } else {
            j + 1
        };
        assert(ms2[j2] == ms[j]);
        assert(cmax(ms, p, f) <= cmax(ms2, p, f));
    } else {
        assert forall|k: int| 0 <= k < ms.len() implies !p(#[trigger] ms[k]) by {
            let k2 = if k < at {
                k
            } else {
                k + 1
            };
            assert(ms2[k2] == ms[k]);
        }
    }
}

/// Unfolding a maximum at the front of the sequence.
pub proof fn lemma_cmax_drop_first(
    ms: Seq<Shape>,
    p: spec_fn(Shape) -> bool,
    f: spec_fn(Shape) -> int,
)
    requires
        ms.len() > 0,
    ensures
        cmax(ms, p, f) == if p(ms[0]) && f(ms[0]) > cmax(ms.drop_first(), p, f) {
            f(ms[0])
        } else {
            cmax(ms.drop_first(), p, f)
        },
    decreases ms.len(),
{
    if ms.len() == 1 {
        assert(ms.drop_first() =~= Seq::<Shape>::empty());
        assert(ms.drop_last() =~= Seq::<Shape>::empty());
        assert(ms.last() == ms[0]);
    } else {
        lemma_cmax_drop_first(ms.drop_last(), p, f);
        assert(ms.drop_last()[0] == ms[0]);
        assert(ms.drop_last().drop_first() =~= ms.drop_first().drop_last());
        assert(ms.drop_first().last() == ms.last());
    }
}

/// A maximum ignores a prefix on which the predicate is false.
pub proof fn lemma_cmax_skip(
    ms: Seq<Shape>,
    p: spec_fn(Shape) -> bool,
    f: spec_fn(Shape) -> int,
    i: int,
)
    requires
        0 <= i <= ms.len(),
        forall|k: int| 0 <= k < i ==> !p(#[trigger] ms[k]),
    ensures
        cmax(ms, p, f) == cmax(ms.skip(i), p, f),
    decreases i,
{
    if i > 0 {
        lemma_cmax_drop_first(ms, p, f);
        assert(ms.drop_first() =~= ms.skip(1));
        lemma_cmax_skip(ms.skip(1), p, f, i - 1);
        assert(ms.skip(1).skip(i - 1) =~= ms.skip(i));
    } else {
        assert(ms.skip(0) =~= ms);
    }
}

/// Characterization of a conditional maximum: it is zero when no member
/// qualifies, it is attained by a qualifying member otherwise, and it
/// dominates every qualifying member.
pub proof fn lemma_cmax_char(ms: Seq<Shape>, p: spec_fn(Shape) -> bool, f: spec_fn(Shape) -> int)
    requires
        forall|k: int| 0 <= k < ms.len() ==> 0 <= #[trigger] f(ms[k]),
    ensures
        cmax(ms, p, f) >= 0,
        (forall|k: int| 0 <= k < ms.len() ==> !p(#[trigger] ms[k])) ==> cmax(ms, p, f) == 0,
        (exists|k: int| 0 <= k < ms.len() && p(#[trigger] ms[k])) ==> exists|k: int|
            0 <= k < ms.len() && p(#[trigger] ms[k]) && f(ms[k]) == cmax(ms, p, f),
        forall|k: int| 0 <= k < ms.len() && p(#[trigger] ms[k]) ==> f(ms[k]) <= cmax(ms, p, f),
    decreases ms.len(),
{
    if ms.len() > 0 {
        lemma_cmax_char(ms.drop_last(), p, f);
        let n = ms.len() - 1;
        assert(forall|k: int| 0 <= k < n ==> ms.drop_last()[k] == #[trigger] ms[k]);
        if exists|k: int| 0 <= k < ms.len() && p(#[trigger] ms[k]) {
            if p(ms.last()) && f(ms.last()) > cmax(ms.drop_last(), p, f) {
                assert(p(ms[n]) && f(ms[n]) == cmax(ms, p, f));
            } else {
                if exists|k: int| 0 <= k < n && p(#[trigger] ms[k]) {
                    let w = choose|k: int|
                        0 <= k < n && p(#[trigger] ms[k]) && f(ms[k]) == cmax(ms.drop_last(), p, f);
                    assert(p(ms[w]) && f(ms[w]) == cmax(ms, p, f));
                } else {
                    assert(p(ms[n]) && f(ms[n]) == cmax(ms, p, f));
                }
            }
        }
    }
}

/// Maxima are functions of the underlying multiset.
pub proof fn lemma_cmax_multiset(
    ms1: Seq<Shape>,
    ms2: Seq<Shape>,
    p: spec_fn(Shape) -> bool,
    f: spec_fn(Shape) -> int,
)
    requires
        ms1.to_multiset() == ms2.to_multiset(),
        forall|k: int| 0 <= k < ms1.len() ==> 0 <= #[trigger] f(ms1[k]),
        forall|k: int| 0 <= k < ms2.len() ==> 0 <= #[trigger] f(ms2[k]),
    ensures
        cmax(ms1, p, f) == cmax(ms2, p, f),
{
    broadcast use vstd::seq_lib::group_to_multiset_ensures;

    lemma_cmax_char(ms1, p, f);
    lemma_cmax_char(ms2, p, f);
    lemma_cmax_le(ms1, ms2, p, f);
    lemma_cmax_le(ms2, ms1, p, f);
}

proof fn lemma_cmax_le(
    ms1: Seq<Shape>,
    ms2: Seq<Shape>,
    p: spec_fn(Shape) -> bool,
    f: spec_fn(Shape) -> int,
)
    requires
        ms1.to_multiset() == ms2.to_multiset(),
        forall|k: int| 0 <= k < ms1.len() ==> 0 <= #[trigger] f(ms1[k]),
        forall|k: int| 0 <= k < ms2.len() ==> 0 <= #[trigger] f(ms2[k]),
    ensures
        cmax(ms1, p, f) <= cmax(ms2, p, f),
{
    broadcast use vstd::seq_lib::group_to_multiset_ensures;

    lemma_cmax_char(ms1, p, f);
    lemma_cmax_char(ms2, p, f);
    if exists|k: int| 0 <= k < ms1.len() && p(#[trigger] ms1[k]) {
        let w = choose|k: int|
            0 <= k < ms1.len() && p(#[trigger] ms1[k]) && f(ms1[k]) == cmax(ms1, p, f);
        let c = ms1[w];
        assert(ms1.contains(c));
        assert(ms2.to_multiset().count(c) > 0);
        assert(ms2.contains(c));
        let j = choose|j: int| 0 <= j < ms2.len() && ms2[j] == c;
        assert(f(ms2[j]) <= cmax(ms2, p, f));
    }
}

/// Counting members with a given residue: existence transfers both ways.
pub proof fn lemma_rem_count_char(ms: Seq<Shape>, r: int)
    ensures
        rem_count(ms, r) >= 0,
        rem_count(ms, r) >= 1 <==> exists|k: int| 0 <= k < ms.len() && (#[trigger] ms[k]).rem()
            == r,
        rem_count(ms, r) >= 2 <==> exists|i: int, j: int|
            0 <= i < ms.len() && 0 <= j < ms.len() && i != j && (#[trigger] ms[i]).rem() == r && (
            #[trigger] ms[j]).rem() == r,
    decreases ms.len(),
{
    reveal_with_fuel(csum, 2);
    if ms.len() == 0 {
    } else {
        lemma_rem_count_char(ms.drop_last(), r);
        let n = ms.len() - 1;
        assert(forall|k: int| 0 <= k < n ==> ms.drop_last()[k] == #[trigger] ms[k]);
        let pa = alive(r);
        let pb = alive(r + 1);
        let one = |m: Shape| 1int;
        assert(csum(ms, pa, one) == csum(ms.drop_last(), pa, one) + if pa(ms.last()) {
            1int
        } else {
            0int
        });
        assert(csum(ms, pb, one) == csum(ms.drop_last(), pb, one) + if pb(ms.last()) {
            1int
        } else {
            0int
        });
        if ms.last().rem() == r {
            assert(pa(ms.last()) && !pb(ms.last()));
            if rem_count(ms, r) >= 2 {
                let w = choose|k: int|
                    0 <= k < n && (#[trigger] ms.drop_last()[k]).rem() == r;
                assert(ms[w].rem() == r && ms[n].rem() == r && w != n);
            }
            if exists|i: int, j: int|
                0 <= i < ms.len() && 0 <= j < ms.len() && i != j && (#[trigger] ms[i]).rem() == r
                    && (#[trigger] ms[j]).rem() == r {
                let (i, j) = choose|i: int, j: int|
                    0 <= i < ms.len() && 0 <= j < ms.len() && i != j && (#[trigger] ms[i]).rem()
                        == r && (#[trigger] ms[j]).rem() == r;
                let w = if i == n {
                    j
                } else {
                    i
                };
                assert(0 <= w < n && ms.drop_last()[w].rem() == r);
            }
        } else {
            assert(pa(ms.last()) == pb(ms.last()));
        }
    }
}

/// Alive counts shrink as the lookahead grows, and are bounded by the batch.
pub proof fn lemma_alive_bounds(ms: Seq<Shape>, g1: int, g2: int)
    requires
        shapes_wf(ms),
        g1 <= g2,
    ensures
        0 <= alive_n(ms, g2) <= alive_n(ms, g1) <= ms.len(),
        0 <= alive_sum(ms, g2) <= alive_sum(ms, g1),
        0 <= alive_max(ms, g2) <= alive_max(ms, g1),
    decreases ms.len(),
{
    if ms.len() > 0 {
        lemma_alive_bounds(ms.drop_last(), g1, g2);
        assert(forall|k: int| 0 <= k < ms.len() - 1 ==> ms.drop_last()[k] == #[trigger] ms[k]);
        assert(ms.last() == ms[ms.len() - 1]);
    }
}

} // verus!
