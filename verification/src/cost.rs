//! Batch cost models.
//!
//! A cost model summarizes a set of requests into statistics, prices a batch
//! and a prefill pass, and — through [`BatchType::exceeds_weight`] — decides
//! whether a candidate batch would outgrow the weight budget at *any* future
//! decode step, not just today.

use vstd::prelude::*;

use crate::weights::{
    alive, alive_max, alive_n, alive_sum, cmax, csum, distinct_rems, is_boundary,
    lemma_alive_bounds, lemma_cmax_drop_first, lemma_cmax_skip, lemma_csum_all,
    lemma_alive_none, lemma_cmax_char, lemma_cmax_congruent, lemma_cmax_insert_inert,
    lemma_cmax_multiset, lemma_csum_bounds, lemma_csum_congruent, lemma_csum_drop_first,
    lemma_csum_multiset, lemma_csum_parts, lemma_csum_pos_witness, lemma_csum_remove,
    lemma_csum_skip, lemma_rem_count_char, shapes_wf, Shape,
};

verus! {

/// Floor of the square root of a nonnegative integer.
pub open spec fn isqrt(x: int) -> int
    decreases x,
{
    if x <= 0 {
        0
    } else {
        let r = isqrt(x - 1);
        if (r + 1) * (r + 1) <= x {
            r + 1
        } else {
            r
        }
    }
}

pub proof fn lemma_isqrt_bounds(x: int)
    requires
        0 <= x,
    ensures
        0 <= isqrt(x),
        isqrt(x) * isqrt(x) <= x,
        x < (isqrt(x) + 1) * (isqrt(x) + 1),
    decreases x,
{
    reveal_with_fuel(isqrt, 1);
    if x <= 0 {
        assert(isqrt(x) == 0);
    } else {
        lemma_isqrt_bounds(x - 1);
        let r = isqrt(x - 1);
        if (r + 1) * (r + 1) <= x {
            assert(isqrt(x) == r + 1);
            assert(x - 1 < (r + 1) * (r + 1));
            assert(x < (r + 1) * (r + 1) + 1);
            assert((r + 1) * (r + 1) + 1 <= (r + 1 + 1) * (r + 1 + 1)) by (nonlinear_arith)
                requires
                    0 <= r,
            ;
        } else {
            assert(isqrt(x) == r);
        }
    }
}

/// The square-root floor is pinned by its bracketing property.
pub proof fn lemma_isqrt_unique(x: int, r: int)
    requires
        0 <= x,
        0 <= r,
        r * r <= x,
        x < (r + 1) * (r + 1),
    ensures
        r == isqrt(x),
{
    lemma_isqrt_bounds(x);
    let s = isqrt(x);
    assert(r <= s) by {
        if r > s {
            assert((s + 1) * (s + 1) <= r * r) by (nonlinear_arith)
                requires
                    0 <= s,
                    s + 1 <= r,
            ;
        }
    }
    assert(s <= r) by {
        if s > r {
            assert((r + 1) * (r + 1) <= s * s) by (nonlinear_arith)
                requires
                    0 <= r,
                    r + 1 <= s,
            ;
        }
    }
}

/// Relies on `num::integer::Roots::sqrt`: the truncated principal square
/// root of an integer.
#[verifier::external_body]
fn int_sqrt(x: u128) -> (r: u128)
    ensures
        r * r <= x,
        x < (r + 1) * (r + 1),
{
    num::integer::Roots::sqrt(&x)
}

/// Lexicographic order on `(remaining output, current length, id)` records.
pub open spec fn triple_lt(a: (u64, u64, u64), b: (u64, u64, u64)) -> bool {
    ||| a.0 < b.0
    ||| (a.0 == b.0 && a.1 < b.1)
    ||| (a.0 == b.0 && a.1 == b.1 && a.2 < b.2)
}

/// The projected members of a candidate batch, kept sorted by
/// `(remaining output, current length, id)` so that the weight analyses can
/// walk future batch shapes from the longest-lived member down.
pub struct ProjTree {
    /// `(remaining output, current length, id)` records in ascending order.
    pub items: Vec<(u64, u64, u64)>,
    /// The shapes the records stand for, in record order.
    pub shapes: Ghost<Seq<Shape>>,
}

impl ProjTree {
    pub open spec fn wf(&self) -> bool {
        &&& self.items@.len() == self.shapes@.len()
        &&& self.items@.len() <= u32::MAX
        &&& shapes_wf(self.shapes@)
        &&& forall|k: int|
            0 <= k < self.items@.len() ==> (#[trigger] self.items@[k]).0 == self.shapes@[k].rem()
                && self.items@[k].1 == self.shapes@[k].cur() && self.items@[k].2
                == self.shapes@[k].id
        &&& forall|k: int, j: int|
            0 <= k < j < self.items@.len() ==> triple_lt(
                #[trigger] self.items@[k],
                #[trigger] self.items@[j],
            )
    }

    pub fn new() -> (t: Self)
        ensures
            t.wf(),
            t.shapes@ == Seq::<Shape>::empty(),
    {
        ProjTree { items: Vec::new(), shapes: Ghost(Seq::empty()) }
    }

    pub fn len(&self) -> (n: usize)
        requires
            self.wf(),
        ensures
            n == self.shapes@.len(),
    {
        self.items.len()
    }

    /// Insert a record for a member whose id is not yet present.
    pub fn insert(&mut self, rem: u64, cur: u64, id: u64, shape: Ghost<Shape>) -> (at: Ghost<int>)
        requires
            old(self).wf(),
            old(self).shapes@.len() < u32::MAX,
            shape@.wf(),
            shape@.rem() == rem,
            shape@.cur() == cur,
            shape@.id == id,
            forall|k: int| 0 <= k < old(self).shapes@.len() ==> (#[trigger] old(
                self,
            ).shapes@[k]).id != id,
        ensures
            final(self).wf(),
            0 <= at@ <= old(self).shapes@.len(),
            final(self).shapes@ == old(self).shapes@.insert(at@, shape@),
    {
        let n = self.items.len();
        let mut i: usize = 0;
        while i < n
            invariant
                0 <= i <= n,
                n == self.items@.len(),
                *self == *old(self),
                forall|k: int| 0 <= k < i ==> triple_lt(#[trigger] self.items@[k], (rem, cur, id)),
            ensures
                0 <= i <= n,
                n == self.items@.len(),
                *self == *old(self),
                forall|k: int| 0 <= k < i ==> triple_lt(#[trigger] self.items@[k], (rem, cur, id)),
                i < n ==> !triple_lt(self.items@[i as int], (rem, cur, id)),
            decreases n - i,
        {
            let (r0, c0, i0) = self.items[i];
            if r0 < rem || (r0 == rem && (c0 < cur || (c0 == cur && i0 < id))) {
                i = i + 1;
            } else {
                break ;
            }
        }
        assert forall|k: int| i <= k < n implies triple_lt(
            (rem, cur, id),
            #[trigger] self.items@[k],
        ) by {
            assert(self.items@[k].2 != id);
            if k > i {
                assert(triple_lt(self.items@[i as int], self.items@[k]));
            }
        }
        self.items.insert(i, (rem, cur, id));
        proof {
            self.shapes@ = self.shapes@.insert(i as int, shape@);
            let vi = self.items@;
            let si = self.shapes@;
            let vo = old(self).items@;
            let so = old(self).shapes@;
            assert(forall|k: int| 0 <= k < i ==> vi[k] == #[trigger] vo[k] && si[k] == so[k]);
            assert(forall|k: int|
                i < k < vi.len() ==> #[trigger] vi[k] == vo[k - 1] && si[k] == so[k - 1]);
            assert(vi[i as int] == (rem, cur, id) && si[i as int] == shape@);
            assert forall|k: int, j: int| 0 <= k < j < vi.len() implies triple_lt(
                #[trigger] vi[k],
                #[trigger] vi[j],
            ) by {
                if k < i && j > i {
                    if triple_lt(vo[k], (rem, cur, id)) && triple_lt((rem, cur, id), vo[j - 1]) {
                    }
                }
            }
        }
        Ghost(i as int)
    }

    /// Remove the record of a member known to be present.
    pub fn remove(&mut self, rem: u64, cur: u64, id: u64) -> (at: Ghost<int>)
        requires
            old(self).wf(),
            exists|k: int|
                0 <= k < old(self).shapes@.len() && (#[trigger] old(self).shapes@[k]).rem() == rem
                    && old(self).shapes@[k].cur() == cur && old(self).shapes@[k].id == id,
        ensures
            final(self).wf(),
            0 <= at@ < old(self).shapes@.len(),
            old(self).shapes@[at@].rem() == rem && old(self).shapes@[at@].cur() == cur && old(
                self,
            ).shapes@[at@].id == id,
            final(self).shapes@ == old(self).shapes@.remove(at@),
    {
        let n = self.items.len();
        let ghost w = choose|k: int|
            0 <= k < old(self).shapes@.len() && (#[trigger] old(self).shapes@[k]).rem() == rem
                && old(self).shapes@[k].cur() == cur && old(self).shapes@[k].id == id;
        assert(self.items@[w] == (rem, cur, id));
        let mut i: usize = 0;
        loop
            invariant
                0 <= i <= w < n,
                *self == *old(self),
                self.items@[w] == (rem, cur, id),
                old(self).wf(),
                n == self.items@.len(),
            ensures
                0 <= i < n,
                *self == *old(self),
                n == self.items@.len(),
                self.items@[i as int] == (rem, cur, id),
            decreases n - i,
        {
            let (r0, c0, i0) = self.items[i];
            if r0 == rem && c0 == cur && i0 == id {
                break ;
            }
            assert(i < w) by {
                assert(i != w);
                assert(triple_lt(self.items@[i as int], self.items@[w]) || i >= w);
            }
            i = i + 1;
        }
        self.items.remove(i);
        proof {
            self.shapes@ = self.shapes@.remove(i as int);
        }
        Ghost(i as int)
    }
}

/// A batch cost model: statistics summary, weights, and the future-shape
/// analysis.  All spec-level weights are stated over sequences of [`Shape`].
pub trait BatchType: Sized {
    /// Executable statistics summary for a set of requests.
    type Stats: Copy;

    /// `s` summarizes the full projected dimensions of `ms`.
    spec fn is_stats(s: Self::Stats, ms: Seq<Shape>) -> bool;

    /// `s` summarizes the prompt lengths of `ms` for prefill pricing.
    spec fn is_prefill_stats(s: Self::Stats, ms: Seq<Shape>) -> bool;

    /// Projected lifetime weight of a batch made of `ms`.
    spec fn spec_weight(ms: Seq<Shape>) -> int;

    /// Cost of one prefill pass over `ms`.
    spec fn spec_prefill_weight(ms: Seq<Shape>) -> int;

    /// Weight of a batch state: `n` live members holding `in_sum` tokens in
    /// total, `max_cur` at most each, after `g` further output tokens.
    spec fn step_weight(n: int, in_sum: int, max_cur: int, g: int) -> int;

    /// Shapes on which the fine-grained analysis accounts exactly.
    spec fn exact(ms: Seq<Shape>) -> bool;

    fn default_stats() -> (s: Self::Stats)
        ensures
            Self::is_stats(s, Seq::empty()),
            Self::is_prefill_stats(s, Seq::empty()),
    ;

    /// Fold one more request into a statistics summary.
    fn update_stats(
        s: &Self::Stats,
        input_length: u64,
        output_length: u64,
        shapes: Ghost<Seq<Shape>>,
        m: Ghost<Shape>,
    ) -> (r: Self::Stats)
        requires
            Self::is_stats(*s, shapes@),
            shapes_wf(shapes@),
            shapes@.len() <= u32::MAX,
            m@.wf(),
            m@.in_len == input_length,
            m@.out_len == output_length,
        ensures
            Self::is_stats(r, shapes@.push(m@)),
    ;

    /// Fold one more prompt into a prefill statistics summary.
    fn update_prefill_stats(
        s: &Self::Stats,
        input_length: u64,
        shapes: Ghost<Seq<Shape>>,
        m: Ghost<Shape>,
    ) -> (r: Self::Stats)
        requires
            Self::is_prefill_stats(*s, shapes@),
            shapes_wf(shapes@),
            shapes@.len() <= u32::MAX,
            m@.wf(),
            m@.in_len == input_length,
        ensures
            Self::is_prefill_stats(r, shapes@.push(m@)),
    ;

    /// Projected lifetime weight of the summarized batch.
    fn batch_weight(s: &Self::Stats, batch_size: usize, shapes: Ghost<Seq<Shape>>) -> (w: u128)
        requires
            Self::is_stats(*s, shapes@),
            batch_size == shapes@.len(),
            shapes_wf(shapes@),
            shapes@.len() <= u32::MAX,
        ensures
            w == Self::spec_weight(shapes@),
    ;

    /// Cost of one prefill pass over the summarized batch.
    fn prefill_weight(s: &Self::Stats, batch_size: usize, shapes: Ghost<Seq<Shape>>) -> (w: u128)
        requires
            Self::is_prefill_stats(*s, shapes@),
            batch_size == shapes@.len(),
            shapes_wf(shapes@),
            shapes@.len() <= u32::MAX,
        ensures
            w == Self::spec_prefill_weight(shapes@),
    ;

    /// Decide whether the projected batch held by `tree` outgrows
    /// `max_total_weight` at some future step within `current_output_len`
    /// further tokens.  Between boundaries the live set is constant and the
    /// step weight only grows, so the boundaries are the complete set of
    /// worst cases: when the shapes are exact for this model, the answer is
    /// `true` if and only if some boundary within the lookahead is over
    /// budget.  A `true` answer names a real violation even on inexact
    /// shapes.
    fn exceeds_weight(tree: &ProjTree, max_total_weight: u128, current_output_len: u64) -> (r:
        bool)
        requires
            tree.wf(),
        ensures
            (!r && Self::exact(tree.shapes@)) ==> forall|o: int|
                is_boundary(tree.shapes@, o) && o <= current_output_len ==> Self::step_weight(
                    alive_n(tree.shapes@, o),
                    alive_sum(tree.shapes@, o),
                    alive_max(tree.shapes@, o),
                    o,
                ) <= max_total_weight,
            r ==> exists|g: int|
                0 <= g <= current_output_len && is_boundary(tree.shapes@, g) && Self::step_weight(
                    alive_n(tree.shapes@, g),
                    alive_sum(tree.shapes@, g),
                    alive_max(tree.shapes@, g),
                    g,
                ) > max_total_weight,
    ;

    /// No future step of a batch weighs more than its projected lifetime
    /// weight.
    proof fn lemma_step_le_full(ms: Seq<Shape>, g: int)
        requires
            shapes_wf(ms),
            0 <= g,
        ensures
            Self::step_weight(alive_n(ms, g), alive_sum(ms, g), alive_max(ms, g), g)
                <= Self::spec_weight(ms),
    ;

    /// Step weights grow with the lookahead, vanish on the empty batch, and
    /// are never negative.
    proof fn lemma_step_mono(n: int, in_sum: int, max_cur: int, g: int, o: int)
        requires
            0 <= g <= o,
            0 <= n,
            0 <= in_sum,
            0 <= max_cur,
        ensures
            Self::step_weight(n, in_sum, max_cur, g) <= Self::step_weight(n, in_sum, max_cur, o),
            Self::step_weight(0, 0, 0, g) == 0,
            Self::step_weight(n, in_sum, max_cur, g) >= 0,
    ;

    /// An empty prefill batch costs nothing.
    proof fn lemma_prefill_empty()
        ensures
            Self::spec_prefill_weight(Seq::<Shape>::empty()) == 0,
    ;

    /// Exactness depends only on the multiset of shapes.
    proof fn lemma_exact_multiset(ms1: Seq<Shape>, ms2: Seq<Shape>)
        requires
            ms1.to_multiset() == ms2.to_multiset(),
            Self::exact(ms1),
        ensures
            Self::exact(ms2),
    ;

    /// Exactness is preserved by dropping a member.
    proof fn lemma_exact_remove(ms: Seq<Shape>, j: int)
        requires
            0 <= j < ms.len(),
            Self::exact(ms),
        ensures
            Self::exact(ms.remove(j)),
    ;
}

/// Weight of the batch `ms` after `g` further output tokens, under model `B`.
pub open spec fn step_at<B: BatchType>(ms: Seq<Shape>, g: int) -> int {
    B::step_weight(alive_n(ms, g), alive_sum(ms, g), alive_max(ms, g), g)
}

/// The batch `ms` stays within `limit` at every future decode step.
pub open spec fn ok_all<B: BatchType>(ms: Seq<Shape>, limit: int) -> bool {
    forall|g: int| 0 <= g ==> step_at::<B>(ms, g) <= limit
}

/// Step weights are functions of the underlying multiset of shapes.
pub proof fn lemma_step_at_multiset<B: BatchType>(ms1: Seq<Shape>, ms2: Seq<Shape>, g: int)
    requires
        ms1.to_multiset() == ms2.to_multiset(),
        shapes_wf(ms1),
    ensures
        step_at::<B>(ms1, g) == step_at::<B>(ms2, g),
        is_boundary(ms1, g) == is_boundary(ms2, g),
{
    lemma_shapes_wf_multiset(ms1, ms2);
    let one = |m: Shape| 1int;
    let cur = |m: Shape| m.cur();
    lemma_csum_multiset(ms1, ms2, alive(g), one);
    lemma_csum_multiset(ms1, ms2, alive(g), cur);
    lemma_csum_multiset(ms1, ms2, alive(g + 1), one);
    lemma_cmax_multiset(ms1, ms2, alive(g), cur);
}

/// Well-formedness transfers along multiset equality.
pub proof fn lemma_shapes_wf_multiset(ms1: Seq<Shape>, ms2: Seq<Shape>)
    requires
        ms1.to_multiset() == ms2.to_multiset(),
        shapes_wf(ms1),
    ensures
        shapes_wf(ms2),
{
    broadcast use vstd::seq_lib::group_to_multiset_ensures;

    assert forall|k: int| 0 <= k < ms2.len() implies (#[trigger] ms2[k]).wf() by {
        assert(ms2.contains(ms2[k]));
        assert(ms1.to_multiset().count(ms2[k]) > 0);
        assert(ms1.contains(ms2[k]));
    }
}

/// If every *boundary* at or beyond `g` is within the limit, so is the step
/// at `g` itself: between boundaries the live set does not change and the
/// step weight only grows towards the next boundary.
pub proof fn lemma_boundaries_cover<B: BatchType>(ms: Seq<Shape>, limit: int, g: int)
    requires
        shapes_wf(ms),
        0 <= limit,
        0 <= g,
        forall|o: int| is_boundary(ms, o) && o >= g ==> step_at::<B>(ms, o) <= limit,
    ensures
        step_at::<B>(ms, g) <= limit,
{
    lemma_alive_bounds(ms, g, g);
    let one = |m: Shape| 1int;
    let cur = |m: Shape| m.cur();
    if alive_n(ms, g) == 0 {
        lemma_alive_none(ms, g);
        B::lemma_step_mono(0, 0, 0, g, g);
    } else {
        // The nearest remaining-output value at or beyond `g`.
        let negrem = |m: Shape| u32::MAX - m.rem();
        lemma_cmax_char(ms, alive(g), negrem);
        lemma_csum_pos_witness(ms, alive(g), one);
        let w = choose|k: int| 0 <= k < ms.len() && alive(g)(#[trigger] ms[k]);
        assert(negrem(ms[w]) >= 0);
        let att = choose|k: int|
            0 <= k < ms.len() && alive(g)(#[trigger] ms[k]) && negrem(ms[k]) == cmax(
                ms,
                alive(g),
                negrem,
            );
        let o = ms[att].rem();
        assert(o >= g);
        // Every member alive at `g` is alive at `o` and vice versa.
        assert forall|k: int| 0 <= k < ms.len() implies alive(g)(#[trigger] ms[k]) == alive(o)(
            ms[k],
        ) by {
            if alive(g)(ms[k]) {
                assert(negrem(ms[k]) <= cmax(ms, alive(g), negrem));
            }
        }
        lemma_csum_congruent(ms, alive(g), alive(o), one, one);
        lemma_csum_congruent(ms, alive(g), alive(o), cur, cur);
        lemma_cmax_congruent(ms, alive(g), alive(o), cur);
        // `o` is a boundary: the attaining member owes exactly `o`.
        lemma_rem_count_char(ms, o);
        assert(is_boundary(ms, o)) by {
            assert(ms[att].rem() == o);
        }
        lemma_alive_bounds(ms, g, o);
        B::lemma_step_mono(alive_n(ms, o), alive_sum(ms, o), alive_max(ms, o), g, o);
        assert(step_at::<B>(ms, o) <= limit);
    }
}

/// Inserting a member whose own boundaries were all checked preserves the
/// all-steps bound: beyond the member's remaining output it is no longer
/// alive and the old bound applies unchanged.
pub proof fn lemma_ok_all_insert<B: BatchType>(ms: Seq<Shape>, c: Shape, at: int, limit: int)
    requires
        shapes_wf(ms),
        c.wf(),
        0 <= at <= ms.len(),
        0 <= limit,
        ok_all::<B>(ms, limit),
        forall|o: int|
            is_boundary(ms.insert(at, c), o) && o <= c.rem() ==> step_at::<B>(
                ms.insert(at, c),
                o,
            ) <= limit,
    ensures
        ok_all::<B>(ms.insert(at, c), limit),
{
    let ms2 = ms.insert(at, c);
    assert(ms2.remove(at) =~= ms);
    assert(shapes_wf(ms2)) by {
        assert(forall|k: int| 0 <= k < at ==> ms2[k] == #[trigger] ms[k]);
        assert(forall|k: int| at < k < ms2.len() ==> #[trigger] ms2[k] == ms[k - 1]);
        assert(ms2[at] == c);
    }
    let one = |m: Shape| 1int;
    let cur = |m: Shape| m.cur();
    assert forall|o: int| is_boundary(ms2, o) && o > c.rem() implies step_at::<B>(ms2, o)
        <= limit by {
        lemma_csum_remove(ms2, alive(o), one, at);
        lemma_csum_remove(ms2, alive(o), cur, at);
        lemma_csum_remove(ms2, alive(o + 1), one, at);
        lemma_cmax_insert_inert(ms, c, at, alive(o), cur);
        assert(step_at::<B>(ms2, o) == step_at::<B>(ms, o));
        assert(is_boundary(ms, o));
        lemma_rem_count_char(ms, o);
        assert(o >= 0) by {
            lemma_rem_count_char(ms2, o);
        }
    }
    assert forall|g: int| 0 <= g implies step_at::<B>(ms2, g) <= limit by {
        assert forall|o: int| is_boundary(ms2, o) && o >= g implies step_at::<B>(ms2, o)
            <= limit by {
            if o > c.rem() {
            } else {
            }
        }
        lemma_boundaries_cover::<B>(ms2, limit, g);
    }
}

/// Admitting a candidate preserves the all-steps bound: either the cheap
/// full-weight check passed, or the fine-grained analysis cleared every new
/// boundary the candidate is alive for.
pub proof fn lemma_admit_ok<B: BatchType>(
    members: Seq<Shape>,
    cand: Shape,
    tshapes: Seq<Shape>,
    limit: int,
    cheap: bool,
)
    requires
        shapes_wf(members),
        cand.wf(),
        0 <= limit,
        B::exact(members.push(cand)) ==> B::exact(members),
        B::exact(members) ==> ok_all::<B>(members, limit),
        cheap ==> B::spec_weight(members.push(cand)) <= limit,
        !cheap ==> tshapes.to_multiset() == members.push(cand).to_multiset(),
        !cheap ==> (B::exact(tshapes) ==> forall|o: int|
            is_boundary(tshapes, o) && o <= cand.rem() ==> B::step_weight(
                alive_n(tshapes, o),
                alive_sum(tshapes, o),
                alive_max(tshapes, o),
                o,
            ) <= limit),
    ensures
        B::exact(members.push(cand)) ==> ok_all::<B>(members.push(cand), limit),
{
    let grown = members.push(cand);
    assert(shapes_wf(grown)) by {
        assert(forall|k: int| 0 <= k < members.len() ==> grown[k] == #[trigger] members[k]);
        assert(grown[members.len() as int] == cand);
    }
    if B::exact(grown) {
        if cheap {
            lemma_ok_all_from_full::<B>(grown, limit);
        } else {
            B::lemma_exact_multiset(grown, tshapes);
            assert forall|o: int| is_boundary(grown, o) && o <= cand.rem() implies step_at::<B>(
                grown,
                o,
            ) <= limit by {
                lemma_step_at_multiset::<B>(grown, tshapes, o);
                assert(is_boundary(tshapes, o));
            }
            assert(members.insert(members.len() as int, cand) =~= grown);
            assert forall|o: int|
                is_boundary(members.insert(members.len() as int, cand), o) && o
                    <= cand.rem() implies step_at::<B>(
                members.insert(members.len() as int, cand),
                o,
            ) <= limit by {
                assert(members.insert(members.len() as int, cand) =~= grown);
            }
            lemma_ok_all_insert::<B>(members, cand, members.len() as int, limit);
            assert forall|g: int| 0 <= g implies step_at::<B>(grown, g) <= limit by {
                assert(step_at::<B>(members.insert(members.len() as int, cand), g) <= limit);
            }
        }
    }
}

/// A bounded lifetime weight bounds every future step.
pub proof fn lemma_ok_all_from_full<B: BatchType>(ms: Seq<Shape>, limit: int)
    requires
        shapes_wf(ms),
        B::spec_weight(ms) <= limit,
    ensures
        ok_all::<B>(ms, limit),
{
    assert forall|g: int| 0 <= g implies step_at::<B>(ms, g) <= limit by {
        B::lemma_step_le_full(ms, g);
    }
}

/// Non-padded batching as used with flash attention: the weight of a batch
/// is the total number of tokens it holds over its projected lifetime.
#[derive(Clone)]
pub struct FlashBatch {}

/// Total projected tokens (prompt plus output budget) of a set of shapes.
pub open spec fn flash_total(ms: Seq<Shape>) -> int {
    csum(ms, |m: Shape| true, |m: Shape| m.in_len + m.out_len)
}

/// Total prompt tokens of a set of shapes.
pub open spec fn flash_prefill_total(ms: Seq<Shape>) -> int {
    csum(ms, |m: Shape| true, |m: Shape| m.in_len)
}

/// At any future step, the live members hold no more than the projected
/// total: each live member holds its current tokens plus at most its
/// remaining budget.
proof fn lemma_flash_step_le_total(ms: Seq<Shape>, g: int)
    requires
        shapes_wf(ms),
        0 <= g,
    ensures
        alive_sum(ms, g) + alive_n(ms, g) * g <= flash_total(ms),
    decreases ms.len(),
{
    if ms.len() > 0 {
        lemma_flash_step_le_total(ms.drop_last(), g);
        assert(forall|k: int| 0 <= k < ms.len() - 1 ==> ms.drop_last()[k] == #[trigger] ms[k]);
        assert(ms.last() == ms[ms.len() - 1]);
        let m = ms.last();
        if m.rem() >= g {
            assert((alive_n(ms.drop_last(), g) + 1) * g == alive_n(ms.drop_last(), g) * g + g)
                by (nonlinear_arith);
        }
    }
}

impl BatchType for FlashBatch {
    type Stats = u128;

    open spec fn is_stats(s: u128, ms: Seq<Shape>) -> bool {
        s == flash_total(ms)
    }

    open spec fn is_prefill_stats(s: u128, ms: Seq<Shape>) -> bool {
        s == flash_prefill_total(ms)
    }

    open spec fn spec_weight(ms: Seq<Shape>) -> int {
        flash_total(ms)
    }

    open spec fn spec_prefill_weight(ms: Seq<Shape>) -> int {
        flash_prefill_total(ms)
    }

    open spec fn step_weight(n: int, in_sum: int, max_cur: int, g: int) -> int {
        in_sum + n * g
    }

    open spec fn exact(ms: Seq<Shape>) -> bool {
        true
    }

    fn default_stats() -> (s: u128) {
        0
    }

    fn update_stats(
        s: &u128,
        input_length: u64,
        output_length: u64,
        shapes: Ghost<Seq<Shape>>,
        m: Ghost<Shape>,
    ) -> (r: u128) {
        proof {
            lemma_csum_bounds(
                shapes@,
                |m: Shape| true,
                |m: Shape| m.in_len + m.out_len,
                0,
                0x2_0000_0000,
            );
            assert(shapes@.push(m@).drop_last() =~= shapes@);
        }
        *s + input_length as u128 + output_length as u128
    }

    fn update_prefill_stats(
        s: &u128,
        input_length: u64,
        shapes: Ghost<Seq<Shape>>,
        m: Ghost<Shape>,
    ) -> (r: u128) {
        proof {
            lemma_csum_bounds(shapes@, |m: Shape| true, |m: Shape| m.in_len, 0, 0x1_0000_0000);
            assert(shapes@.push(m@).drop_last() =~= shapes@);
        }
        *s + input_length as u128
    }

    fn batch_weight(s: &u128, batch_size: usize, shapes: Ghost<Seq<Shape>>) -> (w: u128) {
        *s
    }

    fn prefill_weight(s: &u128, batch_size: usize, shapes: Ghost<Seq<Shape>>) -> (w: u128) {
        *s
    }

    fn exceeds_weight(tree: &ProjTree, max_total_weight: u128, current_output_len: u64) -> (r:
        bool) {
        let ghost tms = tree.shapes@;
        let n = tree.items.len();
        proof {
            assert forall|k: int, j: int| 0 <= k <= j < n implies (#[trigger] tms[k]).rem() <= (
            #[trigger] tms[j]).rem() by {
                if k < j {
                    assert(triple_lt(tree.items@[k], tree.items@[j]));
                }
            }
            assert forall|o: int| is_boundary(tms, o) && (n == 0 || tms[n - 1].rem()
                < o) implies false by {
                lemma_rem_count_char(tms, o);
                let k = choose|k: int| 0 <= k < tms.len() && (#[trigger] tms[k]).rem() == o;
                assert(tms[k].rem() <= tms[n - 1].rem());
            }
        }
        let mut in_sum: u128 = 0;
        let mut idx: usize = n;
        while idx > 0
            invariant
                0 <= idx <= n,
                n == tree.items@.len(),
                tree.wf(),
                tms == tree.shapes@,
                in_sum == csum(tms.skip(idx as int), |m: Shape| true, |m: Shape| m.cur()),
                forall|k: int, j: int|
                    0 <= k <= j < n ==> (#[trigger] tms[k]).rem() <= (#[trigger] tms[j]).rem(),
                forall|o: int|
                    is_boundary(tms, o) && o <= current_output_len && (idx == 0 || tms[
                        idx - 1
                    ].rem() < o) ==> alive_sum(tms, o) + alive_n(tms, o) * o <= max_total_weight,
            decreases idx,
        {
            idx = idx - 1;
            let (rem, cur, _id) = tree.items[idx];
            proof {
                assert(tms[idx as int].rem() == rem && tms[idx as int].cur() == cur);
                assert(tms[idx as int].wf());
                let sfx = tms.skip(idx as int);
                assert(sfx[0] == tms[idx as int]);
                assert(sfx.drop_first() =~= tms.skip(idx as int + 1));
                lemma_csum_drop_first(sfx, |m: Shape| true, |m: Shape| m.cur());
                assert(forall|k: int|
                    0 <= k < sfx.len() ==> (#[trigger] sfx[k]) == tms[idx + k] && sfx[k].wf());
                lemma_csum_bounds(sfx, |m: Shape| true, |m: Shape| m.cur(), 0, 0x2_0000_0000);
            }
            in_sum = in_sum + cur as u128;
            if rem <= current_output_len {
                let count = (n - idx) as u128;
                proof {
                    let o = rem as int;
                    let sfx = tms.skip(idx as int);
                    let pall = |m: Shape| true;
                    let fone = |m: Shape| 1int;
                    let fcur = |m: Shape| m.cur();
                    lemma_csum_parts(tms, alive(o), fone, idx as int);
                    lemma_csum_parts(tms, alive(o), fcur, idx as int);
                    assert(forall|k: int|
                        0 <= k < sfx.len() ==> (#[trigger] sfx[k]) == tms[idx + k]);
                    assert(forall|k: int| 0 <= k < sfx.len() ==> alive(o)(#[trigger] sfx[k]));
                    lemma_csum_congruent(sfx, alive(o), pall, fone, fone);
                    lemma_csum_congruent(sfx, alive(o), pall, fcur, fcur);
                    lemma_csum_all(sfx, pall, fone, 1, 1);
                    assert(csum(sfx, alive(o), fone) == n - idx);
                    lemma_csum_bounds(tms.take(idx as int), alive(o), fone, 0, 1);
                    lemma_csum_bounds(tms.take(idx as int), alive(o), fcur, 0, 0x2_0000_0000);
                    assert(alive_n(tms, o) >= n - idx && alive_sum(tms, o) >= in_sum);
                    assert(alive_n(tms, o) * o >= (n - idx) * o) by (nonlinear_arith)
                        requires
                            alive_n(tms, o) >= n - idx >= 0,
                            o >= 0,
                    ;
                    assert(in_sum <= (n - idx) * 0x2_0000_0000) by {
                        lemma_csum_bounds(sfx, pall, fcur, 0, 0x2_0000_0000);
                    }
                    assert((n - idx) * 0x2_0000_0000 <= 0x1_0000_0000 * 0x2_0000_0000int)
                        by (nonlinear_arith)
                        requires
                            0 <= n - idx <= 0x1_0000_0000,
                    ;
                    assert(count * (rem as u128) <= 0x1_0000_0000u128 * 0xFFFF_FFFFu128)
                        by (nonlinear_arith)
                        requires
                            0 <= count <= 0x1_0000_0000u128,
                            0 <= rem as u128 <= 0xFFFF_FFFFu128,
                    ;
                }
                let v = in_sum + count * (rem as u128);
                if v > max_total_weight {
                    proof {
                        let o = rem as int;
                        assert(alive_sum(tms, o) + alive_n(tms, o) * o > max_total_weight);
                        assert(0 <= o <= current_output_len);
                        lemma_rem_count_char(tms, o);
                        assert(is_boundary(tms, o)) by {
                            assert(tms[idx as int].rem() == o);
                        }
                    }
                    return true;
                }
                proof {
                    let o = rem as int;
                    let pall = |m: Shape| true;
                    let fone = |m: Shape| 1int;
                    let fcur = |m: Shape| m.cur();
                    let tier_start = idx == 0 || tms[idx as int - 1].rem() < o;
                    if tier_start {
                        assert(forall|k: int| 0 <= k < idx ==> !alive(o)(#[trigger] tms[k]));
                        lemma_csum_skip(tms, alive(o), fone, idx as int);
                        lemma_csum_skip(tms, alive(o), fcur, idx as int);
                        assert(alive_n(tms, o) == n - idx && alive_sum(tms, o) == in_sum);
                    }
                    assert forall|o2: int|
                        is_boundary(tms, o2) && o2 <= current_output_len && (idx == 0 || tms[
                            idx - 1
                        ].rem() < o2) implies alive_sum(tms, o2) + alive_n(tms, o2) * o2
                        <= max_total_weight by {
                        if o2 > o {
                        } else if o2 == o {
                            assert(tier_start);
                        } else {
                            lemma_rem_count_char(tms, o2);
                            let k = choose|k: int|
                                0 <= k < tms.len() && (#[trigger] tms[k]).rem() == o2;
                            if k >= idx {
                                assert(tms[idx as int].rem() <= tms[k].rem());
                                assert(false);
                            } else {
                                assert(tms[k].rem() <= tms[idx as int - 1].rem());
                                assert(false);
                            }
                        }
                    }
                }
            } else {
                proof {
                    assert forall|o2: int|
                        is_boundary(tms, o2) && o2 <= current_output_len && (idx == 0 || tms[
                            idx - 1
                        ].rem() < o2) implies alive_sum(tms, o2) + alive_n(tms, o2) * o2
                        <= max_total_weight by {
                        lemma_rem_count_char(tms, o2);
                        let k = choose|k: int|
                            0 <= k < tms.len() && (#[trigger] tms[k]).rem() == o2;
                        if k >= idx {
                            assert(tms[idx as int].rem() <= tms[k].rem());
                            assert(false);
                        } else {
                            assert(tms[k].rem() <= tms[idx as int - 1].rem());
                            assert(false);
                        }
                    }
                }
            }
        }
        false
    }

    proof fn lemma_step_le_full(ms: Seq<Shape>, g: int) {
        lemma_flash_step_le_total(ms, g);
    }

    proof fn lemma_step_mono(n: int, in_sum: int, max_cur: int, g: int, o: int) {
        assert(n * g <= n * o) by (nonlinear_arith)
            requires
                0 <= n,
                g <= o,
        ;
        assert(n * g >= 0) by (nonlinear_arith)
            requires
                0 <= n,
                0 <= g,
        ;
        assert(0int * g == 0) by (nonlinear_arith);
    }

    proof fn lemma_prefill_empty() {
    }

    proof fn lemma_exact_multiset(ms1: Seq<Shape>, ms2: Seq<Shape>) {
    }

    proof fn lemma_exact_remove(ms: Seq<Shape>, j: int) {
    }
}

/// Rectangular padded batching: every member is padded to the longest
/// prompt and the longest output, so a batch's weight is its size times the
/// square of that padded sequence length.
#[derive(Clone)]
pub struct PaddedBatch {}

/// Statistics of a padded batch: the longest prompt and the longest output.
#[derive(Clone, Copy)]
pub struct PaddedStats {
    pub max_input: u64,
    pub max_output: u64,
}

/// Longest prompt among a set of shapes.
pub open spec fn padded_max_in(ms: Seq<Shape>) -> int {
    cmax(ms, |m: Shape| true, |m: Shape| m.in_len)
}

/// Longest output budget among a set of shapes.
pub open spec fn padded_max_out(ms: Seq<Shape>) -> int {
    cmax(ms, |m: Shape| true, |m: Shape| m.out_len)
}

/// At any future step the padded shape fits inside the full padded rectangle:
/// a member alive after `g` more tokens owes at least `g`, so its current
/// length plus `g` stays within the longest prompt plus the longest output.
proof fn lemma_padded_step_le_total(ms: Seq<Shape>, g: int)
    requires
        shapes_wf(ms),
        0 <= g,
    ensures
        alive_n(ms, g) * ((alive_max(ms, g) + g) * (alive_max(ms, g) + g)) <= ms.len() * ((
        padded_max_in(ms) + padded_max_out(ms)) * (padded_max_in(ms) + padded_max_out(ms))),
{
    let pall = |m: Shape| true;
    let fone = |m: Shape| 1int;
    let fcur = |m: Shape| m.cur();
    let fin = |m: Shape| m.in_len;
    let fout = |m: Shape| m.out_len;
    lemma_cmax_char(ms, pall, fin);
    lemma_cmax_char(ms, pall, fout);
    lemma_alive_bounds(ms, g, g);
    let mi = padded_max_in(ms);
    let mo = padded_max_out(ms);
    if alive_n(ms, g) == 0 {
        lemma_alive_none(ms, g);
        assert(0int * ((0 + g) * (0 + g)) == 0) by (nonlinear_arith);
        assert(ms.len() * ((mi + mo) * (mi + mo)) >= 0) by (nonlinear_arith)
            requires
                ms.len() >= 0,
                mi >= 0,
                mo >= 0,
        ;
    } else {
        lemma_csum_pos_witness(ms, alive(g), fone);
        lemma_cmax_char(ms, alive(g), fcur);
        let a = choose|k: int|
            0 <= k < ms.len() && alive(g)(#[trigger] ms[k]) && fcur(ms[k]) == cmax(
                ms,
                alive(g),
                fcur,
            );
        assert(ms[a].cur() + g <= ms[a].in_len + ms[a].out_len);
        assert(fin(ms[a]) <= mi && fout(ms[a]) <= mo);
        lemma_alive_bounds(ms, g, g);
        assert(alive_n(ms, g) * ((alive_max(ms, g) + g) * (alive_max(ms, g) + g)) <= ms.len() * ((
        mi + mo) * (mi + mo))) by (nonlinear_arith)
            requires
                0 <= alive_n(ms, g) <= ms.len(),
                0 <= alive_max(ms, g) + g <= mi + mo,
        ;
    }
}

impl BatchType for PaddedBatch {
    type Stats = PaddedStats;

    open spec fn is_stats(s: PaddedStats, ms: Seq<Shape>) -> bool {
        s.max_input == padded_max_in(ms) && s.max_output == padded_max_out(ms)
    }

    open spec fn is_prefill_stats(s: PaddedStats, ms: Seq<Shape>) -> bool {
        s.max_input == padded_max_in(ms)
    }

    open spec fn spec_weight(ms: Seq<Shape>) -> int {
        ms.len() * ((padded_max_in(ms) + padded_max_out(ms)) * (padded_max_in(ms) + padded_max_out(
            ms,
        )))
    }

    open spec fn spec_prefill_weight(ms: Seq<Shape>) -> int {
        ms.len() * isqrt(padded_max_in(ms) * padded_max_in(ms) * padded_max_in(ms))
    }

    open spec fn step_weight(n: int, in_sum: int, max_cur: int, g: int) -> int {
        n * ((max_cur + g) * (max_cur + g))
    }

    open spec fn exact(ms: Seq<Shape>) -> bool {
        distinct_rems(ms)
    }

    fn default_stats() -> (s: PaddedStats) {
        PaddedStats { max_input: 0, max_output: 0 }
    }

    fn update_stats(
        s: &PaddedStats,
        input_length: u64,
        output_length: u64,
        shapes: Ghost<Seq<Shape>>,
        m: Ghost<Shape>,
    ) -> (r: PaddedStats) {
        proof {
            assert(shapes@.push(m@).drop_last() =~= shapes@);
        }
        let mi = if input_length > s.max_input {
            input_length
        } else {
            s.max_input
        };
        let mo = if output_length > s.max_output {
            output_length
        } else {
            s.max_output
        };
        PaddedStats { max_input: mi, max_output: mo }
    }

    fn update_prefill_stats(
        s: &PaddedStats,
        input_length: u64,
        shapes: Ghost<Seq<Shape>>,
        m: Ghost<Shape>,
    ) -> (r: PaddedStats) {
        proof {
            assert(shapes@.push(m@).drop_last() =~= shapes@);
        }
        let mi = if input_length > s.max_input {
            input_length
        } else {
            s.max_input
        };
        PaddedStats { max_input: mi, max_output: 0 }
    }

    fn batch_weight(s: &PaddedStats, batch_size: usize, shapes: Ghost<Seq<Shape>>) -> (w: u128) {
        proof {
            let pall = |m: Shape| true;
            lemma_cmax_char(shapes@, pall, |m: Shape| m.in_len);
            lemma_cmax_char(shapes@, pall, |m: Shape| m.out_len);
            assert(s.max_input <= u32::MAX && s.max_output <= u32::MAX) by {
                if shapes@.len() > 0 {
                    assert(pall(shapes@[0]));
                }
            }
        }
        let seq_len = (s.max_input + s.max_output) as u128;
        proof {
            assert(seq_len * seq_len <= 0x4_0000_0000_0000_0000) by (nonlinear_arith)
                requires
                    0 <= seq_len <= 0x2_0000_0000u128,
            ;
            assert((batch_size as u128) * (seq_len * seq_len) <= 0x1_0000_0000u128
                * 0x4_0000_0000_0000_0000) by (nonlinear_arith)
                requires
                    0 <= batch_size as u128 <= 0x1_0000_0000u128,
                    0 <= seq_len * seq_len <= 0x4_0000_0000_0000_0000,
            ;
        }
        (batch_size as u128) * (seq_len * seq_len)
    }

    fn prefill_weight(s: &PaddedStats, batch_size: usize, shapes: Ghost<Seq<Shape>>) -> (w: u128) {
        proof {
            lemma_cmax_char(shapes@, |m: Shape| true, |m: Shape| m.in_len);
            assert(s.max_input <= u32::MAX) by {
                if shapes@.len() > 0 {
                    assert((|m: Shape| true)(shapes@[0]));
                }
            }
            assert((s.max_input as u128) * (s.max_input as u128) < 0x1_0000_0000_0000_0000u128)
                by (nonlinear_arith)
                requires
                    0 <= s.max_input as u128 <= 0xFFFF_FFFFu128,
            ;
            assert((s.max_input as u128) * (s.max_input as u128) * (s.max_input as u128)
                < 0x1_0000_0000_0000_0000_0000_0000u128) by (nonlinear_arith)
                requires
                    0 <= s.max_input as u128 <= 0xFFFF_FFFFu128,
            ;
        }
        let cube = (s.max_input as u128) * (s.max_input as u128) * (s.max_input as u128);
        let root = int_sqrt(cube);
        proof {
            lemma_isqrt_unique(cube as int, root as int);
            assert(root <= 0x1_0000_0000_0000u128) by (nonlinear_arith)
                requires
                    root * root <= cube,
                    cube < 0x1_0000_0000_0000_0000_0000_0000u128,
            ;
            assert((batch_size as u128) * root <= 0x1_0000_0000u128 * 0x1_0000_0000_0000u128)
                by (nonlinear_arith)
                requires
                    0 <= batch_size as u128 <= 0x1_0000_0000u128,
                    0 <= root <= 0x1_0000_0000_0000u128,
            ;
        }
        (batch_size as u128) * root
    }

    fn exceeds_weight(tree: &ProjTree, max_total_weight: u128, current_output_len: u64) -> (r:
        bool) {
        let ghost tms = tree.shapes@;
        let n = tree.items.len();
        proof {
            assert forall|k: int, j: int| 0 <= k <= j < n implies (#[trigger] tms[k]).rem() <= (
            #[trigger] tms[j]).rem() by {
                if k < j {
                    assert(triple_lt(tree.items@[k], tree.items@[j]));
                }
            }
            if distinct_rems(tms) {
                assert(cmax(tms.skip(n as int), |m: Shape| true, |m: Shape| m.cur()) == 0) by {
                    assert(tms.skip(n as int) =~= Seq::<Shape>::empty());
                }
            }
            assert forall|o: int| is_boundary(tms, o) && (n == 0 || tms[n - 1].rem()
                < o) implies false by {
                lemma_rem_count_char(tms, o);
                let k = choose|k: int| 0 <= k < tms.len() && (#[trigger] tms[k]).rem() == o;
                assert(tms[k].rem() <= tms[n - 1].rem());
            }
        }
        let mut max_in: u64 = 0;
        let mut last_ol: u64 = 0;
        let mut idx: usize = n;
        while idx > 0
            invariant
                0 <= idx <= n,
                n == tree.items@.len(),
                tree.wf(),
                tms == tree.shapes@,
                max_in <= 0x2_0000_0000u64,
                max_in == 0 || exists|k: int| idx <= k < n && (#[trigger] tms[k]).cur() == max_in,
                idx == n ==> last_ol == 0,
                idx < n ==> last_ol == tms[idx as int].rem(),
                forall|k: int, j: int|
                    0 <= k <= j < n ==> (#[trigger] tms[k]).rem() <= (#[trigger] tms[j]).rem(),
                distinct_rems(tms) ==> max_in == cmax(
                    tms.skip(idx as int),
                    |m: Shape| true,
                    |m: Shape| m.cur(),
                ),
                distinct_rems(tms) ==> forall|o: int|
                    is_boundary(tms, o) && o <= current_output_len && (idx == 0 || tms[
                        idx - 1
                    ].rem() < o) ==> alive_n(tms, o) * ((alive_max(tms, o) + o) * (alive_max(
                        tms,
                        o,
                    ) + o)) <= max_total_weight,
            decreases idx,
        {
            idx = idx - 1;
            let (rem, cur, _id) = tree.items[idx];
            proof {
                assert(tms[idx as int].rem() == rem && tms[idx as int].cur() == cur);
                assert(tms[idx as int].wf());
            }
            if rem != last_ol {
                proof {
                    let sfx = tms.skip(idx as int);
                    assert(sfx[0] == tms[idx as int]);
                    assert(sfx.drop_first() =~= tms.skip(idx as int + 1));
                    lemma_cmax_drop_first(sfx, |m: Shape| true, |m: Shape| m.cur());
                    assert(forall|k: int|
                        0 <= k < sfx.len() ==> (#[trigger] sfx[k]) == tms[idx + k]);
                }
                if cur > max_in {
                    max_in = cur;
                }
                if rem <= current_output_len {
                    let seq_len = (max_in + rem) as u128;
                    let count = (n - idx) as u128;
                    proof {
                        assert(seq_len * seq_len <= 0x40_0000_0000_0000_0000u128)
                            by (nonlinear_arith)
                            requires
                                0 <= seq_len <= 0x8_0000_0000u128,
                        ;
                        assert(count * (seq_len * seq_len) <= 0x1_0000_0000u128
                            * 0x40_0000_0000_0000_0000u128) by (nonlinear_arith)
                            requires
                                0 <= count <= 0x1_0000_0000u128,
                                0 <= seq_len * seq_len <= 0x40_0000_0000_0000_0000u128,
                        ;
                        let o = rem as int;
                        let sfx = tms.skip(idx as int);
                        let pall = |m: Shape| true;
                        let fone = |m: Shape| 1int;
                        let fcur = |m: Shape| m.cur();
                        lemma_csum_parts(tms, alive(o), fone, idx as int);
                        assert(forall|k: int|
                            0 <= k < sfx.len() ==> (#[trigger] sfx[k]) == tms[idx + k]);
                        assert(forall|k: int| 0 <= k < sfx.len() ==> alive(o)(#[trigger] sfx[k]));
                        lemma_csum_congruent(sfx, alive(o), pall, fone, fone);
                        lemma_csum_all(sfx, pall, fone, 1, 1);
                        lemma_csum_bounds(tms.take(idx as int), alive(o), fone, 0, 1);
                        assert(alive_n(tms, o) >= n - idx);
                        lemma_cmax_char(tms, alive(o), fcur);
                        lemma_alive_bounds(tms, o, o);
                        if max_in > 0 {
                            let w = choose|k: int|
                                idx <= k < n && (#[trigger] tms[k]).cur() == max_in;
                            assert(alive(o)(tms[w]));
                            assert(alive_max(tms, o) >= max_in);
                        }
                    }
                    let v = count * (seq_len * seq_len);
                    if v > max_total_weight {
                        proof {
                            let o = rem as int;
                            assert(alive_n(tms, o) * ((alive_max(tms, o) + o) * (alive_max(tms, o)
                                + o)) >= count * (seq_len * seq_len)) by (nonlinear_arith)
                                requires
                                    alive_n(tms, o) >= count >= 0,
                                    alive_max(tms, o) + o >= seq_len >= 0,
                            ;
                            assert(0 <= o <= current_output_len);
                            lemma_rem_count_char(tms, o);
                            assert(is_boundary(tms, o)) by {
                                assert(tms[idx as int].rem() == o);
                            }
                        }
                        return true;
                    }
                    proof {
                        let o = rem as int;
                        let pall = |m: Shape| true;
                        let fone = |m: Shape| 1int;
                        let fcur = |m: Shape| m.cur();
                        if distinct_rems(tms) {
                            assert forall|k: int| 0 <= k < idx implies (#[trigger] tms[k]).rem()
                                < o by {
                                assert(tms[k].rem() <= tms[idx as int].rem());
                            }
                            assert(forall|k: int| 0 <= k < idx ==> !alive(o)(#[trigger] tms[k]));
                            lemma_csum_skip(tms, alive(o), fone, idx as int);
                            let sfx = tms.skip(idx as int);
                            assert(forall|k: int|
                                0 <= k < sfx.len() ==> alive(o)(#[trigger] sfx[k]));
                            lemma_csum_congruent(sfx, alive(o), pall, fone, fone);
                            lemma_csum_all(sfx, pall, fone, 1, 1);
                            assert(alive_n(tms, o) == n - idx);
                            lemma_cmax_skip(tms, alive(o), fcur, idx as int);
                            lemma_cmax_congruent(sfx, alive(o), pall, fcur);
                            assert(alive_max(tms, o) == max_in);
                            assert forall|o2: int|
                                is_boundary(tms, o2) && o2 <= current_output_len && (idx == 0
                                    || tms[idx - 1].rem() < o2) implies alive_n(tms, o2) * ((
                            alive_max(tms, o2) + o2) * (alive_max(tms, o2) + o2))
                                <= max_total_weight by {
                                if o2 > o {
                                } else if o2 == o {
                                } else {
                                    lemma_rem_count_char(tms, o2);
                                    let k = choose|k: int|
                                        0 <= k < tms.len() && (#[trigger] tms[k]).rem() == o2;
                                    if k >= idx {
                                        assert(tms[idx as int].rem() <= tms[k].rem());
                                        assert(false);
                                    } else {
                                        assert(tms[k].rem() <= tms[idx as int - 1].rem());
                                        assert(false);
                                    }
                                }
                            }
                        }
                    }
                } else {
                    proof {
                        if distinct_rems(tms) {
                            assert forall|o2: int|
                                is_boundary(tms, o2) && o2 <= current_output_len && (idx == 0
                                    || tms[idx - 1].rem() < o2) implies alive_n(tms, o2) * ((
                            alive_max(tms, o2) + o2) * (alive_max(tms, o2) + o2))
                                <= max_total_weight by {
                                lemma_rem_count_char(tms, o2);
                                let k = choose|k: int|
                                    0 <= k < tms.len() && (#[trigger] tms[k]).rem() == o2;
                                if k >= idx {
                                    assert(tms[idx as int].rem() <= tms[k].rem());
                                    assert(false);
                                } else {
                                    assert(tms[k].rem() <= tms[idx as int - 1].rem());
                                    assert(false);
                                }
                            }
                        }
                    }
                }
                last_ol = rem;
            } else {
                proof {
                    if distinct_rems(tms) {
                        if idx + 1 < n {
                            assert(tms[idx as int].rem() == tms[idx as int + 1].rem());
                            assert(false);
                        } else {
                            assert(tms[idx as int].rem() >= 1);
                            assert(false);
                        }
                    }
                }
            }
        }
        false
    }

    proof fn lemma_step_le_full(ms: Seq<Shape>, g: int) {
        lemma_padded_step_le_total(ms, g);
    }

    proof fn lemma_step_mono(n: int, in_sum: int, max_cur: int, g: int, o: int) {
        assert(n * ((max_cur + g) * (max_cur + g)) <= n * ((max_cur + o) * (max_cur + o)))
            by (nonlinear_arith)
            requires
                0 <= n,
                0 <= max_cur,
                0 <= g <= o,
        ;
        assert(n * ((max_cur + g) * (max_cur + g)) >= 0) by (nonlinear_arith)
            requires
                0 <= n,
                0 <= max_cur,
                0 <= g,
        ;
        assert(0int * ((0 + g) * (0 + g)) == 0) by (nonlinear_arith);
    }

    proof fn lemma_prefill_empty() {
        assert(Seq::<Shape>::empty().len() * isqrt(
            padded_max_in(Seq::<Shape>::empty()) * padded_max_in(Seq::<Shape>::empty())
                * padded_max_in(Seq::<Shape>::empty()),
        ) == 0) by (nonlinear_arith);
    }

    proof fn lemma_exact_multiset(ms1: Seq<Shape>, ms2: Seq<Shape>) {
        let fone = |m: Shape| 1int;
        assert forall|i: int, j: int|
            0 <= i < ms2.len() && 0 <= j < ms2.len() && i != j implies (#[trigger] ms2[i]).rem()
            != (#[trigger] ms2[j]).rem() by {
            if ms2[i].rem() == ms2[j].rem() {
                let r = ms2[i].rem();
                lemma_rem_count_char(ms2, r);
                lemma_rem_count_char(ms1, r);
                lemma_csum_multiset(ms1, ms2, alive(r), fone);
                lemma_csum_multiset(ms1, ms2, alive(r + 1), fone);
            }
        }
    }

    proof fn lemma_exact_remove(ms: Seq<Shape>, j: int) {
        let ms2 = ms.remove(j);
        assert forall|a: int, b: int|
            0 <= a < ms2.len() && 0 <= b < ms2.len() && a != b implies (#[trigger] ms2[a]).rem()
            != (#[trigger] ms2[b]).rem() by {
            let a0 = if a < j {
                a
            } else {
                a + 1
            };
            let b0 = if b < j {
                b
            } else {
                b + 1
            };
            assert(ms2[a] == ms[a0] && ms2[b] == ms[b0]);
        }
    }
}

} // verus!
