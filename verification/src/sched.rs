//! Stride scheduling: which of the ready processes runs next.
//!
//! Every process carries a stride that grows by its pass each time it has
//! run one quantum; the pass is `BIG_STRIDE` divided by the priority, so a
//! higher priority means smaller steps and more turns. The process with the
//! smallest stride runs next; of several, the one that comes first. Strides
//! are 64-bit counters that wrap around: two strides are ordered by the sign
//! of their difference, which is right as long as no two strides are half
//! the counter's range apart. They never are: a priority is at least 2, so
//! that no pass exceeds `MAX_PASS`, and processes that take turns in this
//! way stay within `MAX_PASS` of each other (`lemma_fair_turns_stay_together`).
//! That is also why the turns of two processes are, in the long run, to
//! each other as their priorities (`lemma_turns_in_proportion`).

use vstd::prelude::*;
use crate::config::{BIG_STRIDE, MAX_PASS};

verus! {

/// Half the range of a stride counter.
pub const HALF_RANGE: u64 = 0x8000_0000_0000_0000;

/// The stride that a process of priority `priority` advances by in one quantum.
pub open spec fn spec_pass_of(priority: isize) -> u64 {
    (BIG_STRIDE as int / priority as int) as u64
}

/// The stride that a process of priority `priority` advances by in one quantum.
#[verifier::when_used_as_spec(spec_pass_of)]
pub fn pass_of(priority: isize) -> (r: u64)
    requires
        priority >= 2,
    ensures
        r == spec_pass_of(priority),
        1 <= r <= MAX_PASS,
{
    let p: u64 = priority as u64;
    assert(1 <= 0xFFFF_FFFF_FFFF_FFFFu64 as int / p as int <= 0x7FFF_FFFF_FFFF_FFFF)
        by (nonlinear_arith)
        requires
            2 <= p <= 0x7FFF_FFFF_FFFF_FFFF,
    ;
    BIG_STRIDE / p
}

/// `a` comes before `b`: their difference, read as a signed number, is negative.
pub open spec fn stride_before(a: u64, b: u64) -> bool {
    a.wrapping_sub(b) >= HALF_RANGE
}

/// Whether stride `a` comes before stride `b`.
pub fn stride_lt(a: u64, b: u64) -> (r: bool)
    ensures
        r == stride_before(a, b),
{
    a.wrapping_sub(b) >= HALF_RANGE
}

/// The place of the stride that runs next: going through `strides` from the
/// front, the first one is kept until a later one comes before it. -1 for
/// an empty sequence.
pub open spec fn pick(strides: Seq<u64>) -> int
    decreases strides.len(),
{
    if strides.len() == 0 {
        -1
    } else if strides.len() == 1 {
        0
    } else if stride_before(strides.last(), strides[pick(strides.drop_last())]) {
        strides.len() - 1
    } else {
        pick(strides.drop_last())
    }
}

/// Of strides that are there, one is picked.
pub proof fn lemma_pick_range(strides: Seq<u64>)
    requires
        strides.len() > 0,
    ensures
        0 <= pick(strides) < strides.len(),
    decreases strides.len(),
{
    if strides.len() > 1 {
        lemma_pick_range(strides.drop_last());
    }
}

/// How far stride `a` lies after `base`, going up and around.
pub open spec fn offset_from(base: u64, a: u64) -> int {
    a.wrapping_sub(base) as int
}

/// All of `strides` lie within `span` after `base`.
pub open spec fn within(strides: Seq<u64>, base: u64, span: int) -> bool {
    forall|i: int| 0 <= i < strides.len() ==> offset_from(base, #[trigger] strides[i]) <= span
}

/// Two strides that lie less than half the counter's range after a common
/// base are ordered by the sign of their difference as their distances from
/// the base are ordered.
pub proof fn lemma_stride_order(base: u64, a: u64, b: u64)
    requires
        offset_from(base, a) < HALF_RANGE,
        offset_from(base, b) < HALF_RANGE,
    ensures
        stride_before(a, b) <==> offset_from(base, a) < offset_from(base, b),
{
}

/// Among strides that lie less than half the counter's range after a common
/// base, the one picked is the first of those nearest to the base.
pub proof fn lemma_pick_is_first_minimum(strides: Seq<u64>, base: u64)
    requires
        strides.len() > 0,
        within(strides, base, HALF_RANGE - 1),
    ensures
        forall|i: int|
            0 <= i < strides.len() ==> offset_from(base, strides[pick(strides)]) <= offset_from(
                base,
                #[trigger] strides[i],
            ),
        forall|i: int|
            0 <= i < pick(strides) ==> offset_from(base, strides[pick(strides)]) < offset_from(
                base,
                #[trigger] strides[i],
            ),
    decreases strides.len(),
{
    if strides.len() > 1 {
        let init = strides.drop_last();
        assert forall|i: int| 0 <= i < init.len() implies offset_from(base, #[trigger] init[i])
            <= HALF_RANGE - 1 by {
            assert(init[i] == strides[i]);
        }
        lemma_pick_is_first_minimum(init, base);
        lemma_pick_range(init);
        let p = pick(init);
        assert(init[p] == strides[p]);
        lemma_stride_order(base, strides.last(), strides[p]);
        assert forall|i: int| 0 <= i < strides.len() implies offset_from(
            base,
            strides[pick(strides)],
        ) <= offset_from(base, #[trigger] strides[i]) by {
            if i < init.len() {
                assert(init[i] == strides[i]);
            }
        }
        assert forall|i: int| 0 <= i < pick(strides) implies offset_from(
            base,
            strides[pick(strides)],
        ) < offset_from(base, #[trigger] strides[i]) by {
            if i < init.len() {
                assert(init[i] == strides[i]);
            }
        }
    }
}

/// Stride `i` is least: none of `strides` comes before it.
pub open spec fn least(strides: Seq<u64>, i: int) -> bool {
    &&& 0 <= i < strides.len()
    &&& forall|j: int| 0 <= j < strides.len() ==> !stride_before(#[trigger] strides[j], strides[i])
}

/// The strides after the turns of `who`: in each turn the process named
/// advances by its pass, wrapping around.
pub open spec fn strides_after(strides: Seq<u64>, passes: Seq<u64>, who: Seq<int>) -> Seq<u64>
    decreases who.len(),
{
    if who.len() == 0 {
        strides
    } else {
        let before = strides_after(strides, passes, who.drop_last());
        before.update(who.last(), before[who.last()].wrapping_add(passes[who.last()]))
    }
}

/// Every turn of `who` goes to a process whose stride is least at that time.
pub open spec fn fair_turns(strides: Seq<u64>, passes: Seq<u64>, who: Seq<int>) -> bool
    decreases who.len(),
{
    who.len() == 0 || (fair_turns(strides, passes, who.drop_last()) && least(
        strides_after(strides, passes, who.drop_last()),
        who.last(),
    ))
}

/// The number of turns of process `i` among those of `who`.
pub open spec fn turns_of(who: Seq<int>, i: int) -> nat
    decreases who.len(),
{
    if who.len() == 0 {
        0
    } else {
        turns_of(who.drop_last(), i) + if who.last() == i {
            1nat
        } else {
            0nat
        }
    }
}

/// Where process `i` stands after the turns of `who`, counted from `base`
/// without wrapping: where it started, and its pass for each of its turns.
pub open spec fn position(strides: Seq<u64>, passes: Seq<u64>, base: u64, who: Seq<int>, i: int) -> int {
    offset_from(base, strides[i]) + turns_of(who, i) * passes[i]
}

/// After the turns of `who`, process `i` stands no further than `MAX_PASS`
/// ahead of process `j`, and if it stands ahead at all, the strides, though
/// they wrap around, tell how far.
pub open spec fn near(
    strides: Seq<u64>,
    passes: Seq<u64>,
    base: u64,
    who: Seq<int>,
    i: int,
    j: int,
) -> bool {
    let now = strides_after(strides, passes, who);
    let d = position(strides, passes, base, who, i) - position(strides, passes, base, who, j);
    0 <= i < strides.len() && 0 <= j < strides.len() ==> d <= MAX_PASS && (d >= 0 ==> offset_from(
        now[j],
        now[i],
    ) == d)
}

/// After the turns of `who`, no two processes stand further apart than
/// `MAX_PASS`, and the strides, though they wrap around, tell how far.
pub open spec fn together(
    strides: Seq<u64>,
    passes: Seq<u64>,
    base: u64,
    who: Seq<int>,
) -> bool {
    &&& strides_after(strides, passes, who).len() == strides.len()
    &&& forall|i: int, j: int| #[trigger] near(strides, passes, base, who, i, j)
}

/// How far apart a stride that advances and one that stays are afterwards,
/// if the one that stays was no more than `MAX_PASS` ahead.
proof fn lemma_wrapping_offsets(mover: u64, other: u64, pass: u64)
    requires
        offset_from(mover, other) <= MAX_PASS,
        pass <= MAX_PASS,
    ensures
        pass >= offset_from(mover, other) ==> offset_from(other, mover.wrapping_add(pass)) == pass
            - offset_from(mover, other),
        pass <= offset_from(mover, other) ==> offset_from(mover.wrapping_add(pass), other)
            == offset_from(mover, other) - pass,
{
}

/// Without a turn a process makes no way.
proof fn lemma_no_turns(who: Seq<int>, i: int, pass: u64)
    requires
        who.len() == 0,
    ensures
        turns_of(who, i) * pass == 0,
{
    let t = turns_of(who, i);
    assert(t * pass == 0) by (nonlinear_arith)
        requires
            t == 0,
    ;
}

/// One more turn of a process is one more pass on its way.
proof fn lemma_one_more_turn(who: Seq<int>, i: int, pass: u64)
    requires
        who.len() > 0,
    ensures
        turns_of(who, i) * pass == turns_of(who.drop_last(), i) * pass + if who.last() == i {
            pass as int
        } else {
            0
        },
{
    let t = turns_of(who.drop_last(), i);
    assert((t + 1) * pass == t * pass + pass) by (nonlinear_arith);
}

/// Processes that start within `MAX_PASS` of each other and take turns
/// fairly stay within `MAX_PASS` of each other.
pub proof fn lemma_fair_turns_stay_together(
    strides: Seq<u64>,
    passes: Seq<u64>,
    base: u64,
    who: Seq<int>,
)
    requires
        strides.len() == passes.len(),
        within(strides, base, MAX_PASS as int),
        forall|i: int| 0 <= i < passes.len() ==> #[trigger] passes[i] <= MAX_PASS,
        fair_turns(strides, passes, who),
    ensures
        together(strides, passes, base, who),
    decreases who.len(),
{
    let now = strides_after(strides, passes, who);
    if who.len() == 0 {
        assert forall|i: int, j: int| #[trigger] near(strides, passes, base, who, i, j) by {
            if 0 <= i < strides.len() && 0 <= j < strides.len() {
                assert(offset_from(base, strides[i]) <= MAX_PASS);
                assert(offset_from(base, strides[j]) <= MAX_PASS);
                lemma_no_turns(who, i, passes[i]);
                lemma_no_turns(who, j, passes[j]);
            }
        }
    } else {
        let init = who.drop_last();
        let c = who.last();
        let was = strides_after(strides, passes, init);
        lemma_fair_turns_stay_together(strides, passes, base, init);
        assert(least(was, c));
        let pc = position(strides, passes, base, init, c);
        // the process that takes the turn stands behind no other
        assert forall|j: int| 0 <= j < strides.len() implies pc <= position(
            strides,
            passes,
            base,
            init,
            j,
        ) by {
            assert(near(strides, passes, base, init, c, j));
            let d = pc - position(strides, passes, base, init, j);
            if d > 0 {
                assert(offset_from(was[j], was[c]) == d);
                assert(stride_before(was[j], was[c]));
            }
        }
        assert(passes[c] <= MAX_PASS);
        assert(now[c] == was[c].wrapping_add(passes[c]));
        assert forall|i: int, j: int| #[trigger] near(strides, passes, base, who, i, j) by {
            if 0 <= i < strides.len() && 0 <= j < strides.len() {
                lemma_one_more_turn(who, i, passes[i]);
                lemma_one_more_turn(who, j, passes[j]);
                let pi = position(strides, passes, base, init, i);
                let pj = position(strides, passes, base, init, j);
                assert(near(strides, passes, base, init, i, j));
                assert(near(strides, passes, base, init, i, c));
                assert(near(strides, passes, base, init, j, c));
                assert(pc <= pi && pc <= pj);
                if i == c && j == c {
                } else if i == c {
                    assert(now[j] == was[j]);
                    lemma_wrapping_offsets(was[c], was[j], passes[c]);
                } else if j == c {
                    assert(now[i] == was[i]);
                    lemma_wrapping_offsets(was[c], was[i], passes[c]);
                } else {
                    assert(now[i] == was[i] && now[j] == was[j]);
                }
            }
        }
    }
}

/// Stride scheduling is fair. Let processes start with strides within
/// `MAX_PASS` of each other, and let every turn go to a process whose
/// stride is least. Then, count for each process the way it has made: its
/// pass for each turn it had. At no time is one process more than
/// `2 * MAX_PASS` ahead of another, and no more than `MAX_PASS` if they
/// started together. So in the long run the turns of two processes are to
/// each other as their priorities.
pub proof fn lemma_turns_in_proportion(
    strides: Seq<u64>,
    passes: Seq<u64>,
    base: u64,
    who: Seq<int>,
    a: int,
    b: int,
)
    requires
        strides.len() == passes.len(),
        within(strides, base, MAX_PASS as int),
        forall|i: int| 0 <= i < passes.len() ==> #[trigger] passes[i] <= MAX_PASS,
        fair_turns(strides, passes, who),
        0 <= a < strides.len(),
        0 <= b < strides.len(),
    ensures
        turns_of(who, a) * passes[a] - turns_of(who, b) * passes[b] <= MAX_PASS + offset_from(
            base,
            strides[b],
        ) - offset_from(base, strides[a]),
        turns_of(who, a) * passes[a] - turns_of(who, b) * passes[b] <= 2 * MAX_PASS,
        strides[a] == strides[b] ==> turns_of(who, a) * passes[a] - turns_of(who, b) * passes[b]
            <= MAX_PASS,
{
    lemma_fair_turns_stay_together(strides, passes, base, who);
    assert(near(strides, passes, base, who, a, b));
    assert(offset_from(base, strides[a]) <= MAX_PASS);
    assert(offset_from(base, strides[b]) <= MAX_PASS);
}

/// Among strides within `MAX_PASS` of each other, the one that is picked is least.
pub proof fn lemma_pick_is_least(strides: Seq<u64>, base: u64)
    requires
        strides.len() > 0,
        within(strides, base, MAX_PASS as int),
    ensures
        least(strides, pick(strides)),
{
    lemma_pick_range(strides);
    lemma_pick_is_first_minimum(strides, base);
    let p = pick(strides);
    assert forall|j: int| 0 <= j < strides.len() implies !stride_before(
        #[trigger] strides[j],
        strides[p],
    ) by {
        lemma_stride_order(base, strides[j], strides[p]);
    }
}

/// The place in `strides` of the stride that runs next.
pub fn pick_index(strides: &Vec<u64>) -> (r: usize)
    requires
        strides.len() > 0,
    ensures
        r == pick(strides@),
        r < strides.len(),
{
    let mut best: usize = 0;
    let mut i: usize = 1;
    assert(strides@.take(1).len() == 1);
    while i < strides.len()
        invariant
            1 <= i <= strides.len(),
            best == pick(strides@.take(i as int)),
            best < i,
        decreases strides.len() - i,
    {
        assert(strides@.take(i + 1).drop_last() =~= strides@.take(i as int));
        assert(strides@.take(i as int)[best as int] == strides[best as int]);
        if stride_lt(strides[i], strides[best]) {
            best = i;
        }
        i = i + 1;
    }
    assert(strides@.take(i as int) =~= strides@);
    best
}

} // verus!
