use core::cmp::Ordering;
use core::ops::Add;
use vstd::prelude::*;
use vstd::std_specs::cmp::{PartialEqSpec, PartialOrdSpec};
use vstd::std_specs::ops::AddSpec;

use crate::step::AtomicStep;

verus! {

/// `==`, `+` and `<=` of `T` behave as their specifications say: `==` is
/// equality of values, `+` is `add_spec` and `<=` follows `partial_cmp_spec`.
/// Every primitive integer type meets this.
pub open spec fn ops_obeyed<T: AtomicStep + Add<Output = T>>() -> bool {
    &&& T::obeys_eq_spec()
    &&& forall|x: T, y: T| #[trigger] x.eq_spec(&y) <==> x == y
    &&& T::obeys_add_spec()
    &&& T::obeys_partial_cmp_spec()
}

/// The value immediately after `x`: `x` plus its own step.
pub open spec fn next_of<T: AtomicStep + Add<Output = T>>(x: T) -> T {
    x.add_spec(x.spec_atomic_step())
}

/// `x + x.atomic_step()` can be computed (for an integer: it does not overflow).
pub open spec fn can_step<T: AtomicStep + Add<Output = T>>(x: T) -> bool {
    x.add_req(x.spec_atomic_step())
}

/// `a <= b` under the order of `T`.
pub open spec fn at_most<T: AtomicStep>(a: T, b: T) -> bool {
    a.partial_cmp_spec(&b) matches Some(Ordering::Less | Ordering::Equal)
}

/// `a < b` under the order of `T`.
pub open spec fn below<T: AtomicStep>(a: T, b: T) -> bool {
    a.partial_cmp_spec(&b) == Some(Ordering::Less)
}

/// The ranges of `s`, in the order they are met: a value that equals the
/// one before it plus that one's step extends the open range; any other value
/// closes it and opens a new one.
pub open spec fn groups_of<T: AtomicStep + Add<Output = T>>(s: Seq<T>) -> Seq<(T, T)>
    decreases s.len(),
{
    if s.len() == 0 {
        Seq::empty()
    } else {
        let init = s.drop_last();
        let g = groups_of(init);
        if init.len() > 0 && next_of(init.last()) == s.last() {
            g.update(g.len() - 1, (g.last().0, s.last()))
        } else {
            g.push((s.last(), s.last()))
        }
    }
}

/// Every value of `s` but the last can be stepped from.
pub open spec fn steppable_but_last<T: AtomicStep + Add<Output = T>>(s: Seq<T>) -> bool {
    forall|i: int| 0 <= i < s.len() - 1 ==> can_step(#[trigger] s[i])
}

/// The value reached from `start` after `m` steps.
pub open spec fn walk_from<T: AtomicStep + Add<Output = T>>(start: T, m: nat) -> T
    decreases m,
{
    if m == 0 {
        start
    } else {
        next_of(walk_from(start, (m - 1) as nat))
    }
}

/// Walking from `start` towards `end` emits exactly `n` values: the first `n`
/// values of the walk are at most `end` and can be stepped from, and the next
/// one is not at most `end`.
pub open spec fn walk_stops_at<T: AtomicStep + Add<Output = T>>(start: T, end: T, n: nat) -> bool {
    &&& forall|m: nat| m < n ==> at_most(#[trigger] walk_from(start, m), end) && can_step(walk_from(start, m))
    &&& !at_most(walk_from(start, n), end)
}

/// The walk from `start` towards `end` comes to an end.
pub open spec fn walk_ends<T: AtomicStep + Add<Output = T>>(start: T, end: T) -> bool {
    exists|n: nat| walk_stops_at(start, end, n)
}

/// How many values the walk from `start` towards `end` emits.
pub open spec fn walk_len<T: AtomicStep + Add<Output = T>>(start: T, end: T) -> nat {
    choose|n: nat| walk_stops_at(start, end, n)
}

/// The values of the inclusive range from `start` to `end`, in the order the
/// walk meets them. A range whose start exceeds its end holds none.
pub open spec fn expand<T: AtomicStep + Add<Output = T>>(start: T, end: T) -> Seq<T> {
    Seq::new(walk_len(start, end), |m: int| walk_from(start, m as nat))
}

/// The values of the ranges `gs`, range after range.
pub open spec fn ungrouped<T: AtomicStep + Add<Output = T>>(gs: Seq<(T, T)>) -> Seq<T>
    decreases gs.len(),
{
    if gs.len() == 0 {
        Seq::empty()
    } else {
        ungrouped(gs.drop_last()) + expand(gs.last().0, gs.last().1)
    }
}

/// Every range of `gs` can be walked to its end.
pub open spec fn all_walks_end<T: AtomicStep + Add<Output = T>>(gs: Seq<(T, T)>) -> bool {
    forall|k: int| 0 <= k < gs.len() ==> walk_ends(#[trigger] gs[k].0, gs[k].1)
}

/// A walk that stops after `n` values has length `n`: the stopping point of a
/// walk is unique.
pub proof fn lemma_walk_len_unique<T: AtomicStep + Add<Output = T>>(start: T, end: T, n: nat)
    requires
        walk_stops_at(start, end, n),
    ensures
        walk_len(start, end) == n,
{
    let w = walk_len(start, end);
    assert(walk_stops_at(start, end, w));
    if w < n {
        assert(at_most(walk_from(start, w), end));
    } else if n < w {
        assert(at_most(walk_from(start, n), end));
    }
}

/// A range whose start is not at most its end can be walked, and holds no
/// values.
pub proof fn lemma_reversed_range_is_empty<T: AtomicStep + Add<Output = T>>(start: T, end: T)
    requires
        !at_most(start, end),
    ensures
        walk_ends(start, end),
        expand(start, end) == Seq::<T>::empty(),
{
    assert(walk_from(start, 0) == start);
    assert(walk_stops_at(start, end, 0));
    lemma_walk_len_unique(start, end, 0);
    assert(expand(start, end) =~= Seq::<T>::empty());
}

proof fn lemma_groups_of_last<T: AtomicStep + Add<Output = T>>(s: Seq<T>)
    requires
        s.len() > 0,
    ensures
        groups_of(s).len() > 0,
        groups_of(s).last().1 == s.last(),
    decreases s.len(),
{
    let init = s.drop_last();
    if init.len() > 0 {
        lemma_groups_of_last(init);
    }
}

/// The order of `T` behaves as the walk needs: `<=` is reflexive, a value
/// below another is below everything at or above that one, a value below
/// another is not above it, and each value that can be stepped from lies
/// below the value after it.
pub open spec fn steps_forward<T: AtomicStep + Add<Output = T>>() -> bool {
    &&& forall|x: T| #[trigger] at_most(x, x)
    &&& forall|x: T, y: T, z: T| #[trigger] below(x, y) && #[trigger] at_most(y, z) ==> at_most(x, z)
    &&& forall|x: T, y: T| #[trigger] below(x, y) ==> !at_most(y, x)
    &&& forall|x: T| can_step(x) ==> below(x, #[trigger] next_of(x))
}

/// Where the last range of `s` begins.
spec fn last_run_start<T: AtomicStep + Add<Output = T>>(s: Seq<T>) -> int
    decreases s.len(),
{
    if s.len() <= 1 {
        0
    } else if next_of(s.drop_last().last()) == s.last() {
        last_run_start(s.drop_last())
    } else {
        s.len() - 1
    }
}

proof fn lemma_last_run<T: AtomicStep + Add<Output = T>>(s: Seq<T>)
    requires
        s.len() > 0,
    ensures
        0 <= last_run_start(s) < s.len(),
        groups_of(s).len() > 0,
        groups_of(s).last() == (s[last_run_start(s)], s.last()),
        groups_of(s).drop_last() == groups_of(s.take(last_run_start(s))),
        forall|m: nat| last_run_start(s) + m < s.len()
            ==> s[last_run_start(s) + m] == #[trigger] walk_from(s[last_run_start(s)], m),
    decreases s.len(),
{
    let init = s.drop_last();
    let j = last_run_start(s);
    if init.len() > 0 && next_of(init.last()) == s.last() {
        lemma_last_run(init);
        assert(init.take(j) == s.take(j));
        let g = groups_of(init);
        assert(groups_of(s).drop_last() == g.drop_last());
        assert forall|m: nat| j + m < s.len() implies s[j + m] == #[trigger] walk_from(s[j], m) by {
            if j + m < init.len() {
                assert(init[j + m] == walk_from(init[j], m));
            } else {
                assert(init[j + m - 1] == walk_from(init[j], (m - 1) as nat));
            }
        }
    } else {
        if init.len() > 0 {
            lemma_groups_of_last(init);
        }
        assert(s.take(j) == init);
        assert(groups_of(Seq::<T>::empty()) == Seq::<(T, T)>::empty());
        assert forall|m: nat| j + m < s.len() implies s[j + m] == #[trigger] walk_from(s[j], m) by {
            assert(m == 0);
        }
    }
}

proof fn lemma_walk_at_most<T: AtomicStep + Add<Output = T>>(start: T, a: nat, b: nat)
    requires
        steps_forward::<T>(),
        a <= b,
        forall|m: nat| a <= m < b ==> can_step(#[trigger] walk_from(start, m)),
    ensures
        at_most(walk_from(start, a), walk_from(start, b)),
    decreases b - a,
{
    if a < b {
        lemma_walk_at_most(start, a + 1, b);
        let x = walk_from(start, a);
        assert(walk_from(start, a + 1) == next_of(x));
        assert(can_step(x));
        assert(below(x, next_of(x)));
    }
}

/// Ungrouping the ranges that grouping gives back reproduces the input, value
/// for value and in order, when every value can be stepped from and steps move
/// forward in the order of `T`. Each of those ranges can then be walked to its
/// end, as ungrouping asks.
pub proof fn lemma_ungroup_inverts_group<T: AtomicStep + Add<Output = T>>(s: Seq<T>)
    requires
        steps_forward::<T>(),
        forall|i: int| 0 <= i < s.len() ==> can_step(#[trigger] s[i]),
    ensures
        all_walks_end(groups_of(s)),
        ungrouped(groups_of(s)) == s,
    decreases s.len(),
{
    if s.len() == 0 {
        assert(groups_of(s) == Seq::<(T, T)>::empty());
        assert(ungrouped(Seq::<(T, T)>::empty()) == Seq::<T>::empty());
    } else {
        lemma_last_run(s);
        let j = last_run_start(s);
        let head = s.take(j);
        lemma_ungroup_inverts_group(head);
        let st = s[j];
        let en = s.last();
        let len = (s.len() - j) as nat;
        assert(en == walk_from(st, (len - 1) as nat));
        assert forall|m: nat| m < len implies at_most(#[trigger] walk_from(st, m), en)
            && can_step(walk_from(st, m)) by {
            assert(s[j + m] == walk_from(st, m));
            assert forall|q: nat| m <= q < len - 1 implies can_step(#[trigger] walk_from(st, q)) by {
                assert(s[j + q] == walk_from(st, q));
            }
            lemma_walk_at_most(st, m, (len - 1) as nat);
        }
        assert(can_step(en));
        assert(below(en, next_of(en)));
        assert(walk_stops_at(st, en, len));
        lemma_walk_len_unique(st, en, len);
        let g = groups_of(s);
        assert(g == groups_of(head).push((st, en)));
        assert(g.drop_last() == groups_of(head));
        assert(expand(st, en) =~= s.subrange(j, s.len() as int));
        assert(s == head + s.subrange(j, s.len() as int));
        assert forall|k: int| 0 <= k < g.len() implies walk_ends(#[trigger] g[k].0, g[k].1) by {
            if k < g.len() - 1 {
                assert(g[k] == groups_of(head)[k]);
            }
        }
    }
}

/// Groups immediately successive values of `sequence` into inclusive
/// `(start, end)` ranges, in the order they are met.
///
/// A value continues the current range when it equals the last value of that
/// range plus that value's own step; any other value starts a new range. The
/// input is never reordered, so descending or overlapping runs simply become
/// separate ranges.
pub fn sequential_group<T: AtomicStep + Add<Output = T> + Copy>(sequence: Vec<T>) -> (groups: Vec<(T, T)>)
    requires
        ops_obeyed::<T>(),
        steppable_but_last(sequence@),
    ensures
        groups@ == groups_of(sequence@),
{
    let mut groups: Vec<(T, T)> = Vec::new();
    let n = sequence.len();
    if n == 0 {
        assert(groups_of(sequence@) == Seq::<(T, T)>::empty());
        return groups;
    }
    let mut start: T = sequence[0];
    let mut current: T = start;
    let mut i: usize = 1;
    assert(sequence@.take(1).drop_last() == Seq::<T>::empty());
    assert(groups_of(Seq::<T>::empty()) == Seq::<(T, T)>::empty());
    assert(sequence@.take(1).last() == start);
    while i < n
        invariant
            n == sequence.len(),
            1 <= i <= n,
            ops_obeyed::<T>(),
            steppable_but_last(sequence@),
            current == sequence@[i - 1],
            groups@.push((start, current)) == groups_of(sequence@.take(i as int)),
        decreases n - i,
    {
        let value: T = sequence[i];
        let ghost prev = sequence@.take(i as int);
        let ghost upto = sequence@.take(i + 1);
        assert(upto.drop_last() == prev);
        proof {
            lemma_groups_of_last(prev);
        }
        let step = current.atomic_step();
        let reached = current + step;
        if reached == value {
            current = value;
        } else {
            groups.push((start, current));
            start = value;
            current = value;
        }
        i = i + 1;
    }
    assert(sequence@.take(n as int) == sequence@);
    groups.push((start, current));
    groups
}

/// Expands inclusive `(start, end)` ranges back into their values, range after
/// range: from each start it emits the current value and steps by that value's
/// own step for as long as the current value is at most the range's end.
pub fn sequential_ungroup<T: AtomicStep + Add<Output = T> + Copy>(grouped: Vec<(T, T)>) -> (ungrouped_values: Vec<T>)
    requires
        ops_obeyed::<T>(),
        all_walks_end(grouped@),
    ensures
        ungrouped_values@ == ungrouped(grouped@),
{
    let mut out: Vec<T> = Vec::new();
    let mut k: usize = 0;
    while k < grouped.len()
        invariant
            0 <= k <= grouped.len(),
            ops_obeyed::<T>(),
            all_walks_end(grouped@),
            out@ == ungrouped(grouped@.take(k as int)),
        decreases grouped.len() - k,
    {
        let (start, end) = grouped[k];
        assert(walk_ends(grouped@[k as int].0, grouped@[k as int].1));
        let ghost n = walk_len(start, end);
        let ghost before = out@;
        let mut current: T = start;
        let ghost mut j: nat = 0;
        while current <= end
            invariant
                ops_obeyed::<T>(),
                walk_stops_at(start, end, n),
                j <= n,
                current == walk_from(start, j),
                out@ == before + Seq::new(j, |m: int| walk_from(start, m as nat)),
            decreases n - j,
        {
            out.push(current);
            let step = current.atomic_step();
            current = current + step;
            proof {
                assert(out@ =~= before + Seq::new(j + 1, |m: int| walk_from(start, m as nat)));
                j = j + 1;
            }
        }
        proof {
            assert(j == n);
            let gk = grouped@.take(k + 1);
            assert(gk.drop_last() == grouped@.take(k as int));
            assert(out@ =~= ungrouped(gk));
        }
        k = k + 1;
    }
    assert(grouped@.take(grouped.len() as int) == grouped@);
    out
}

/// Every primitive integer type meets the conditions of grouping, ungrouping
/// and their round trip: its operators follow their specifications, and
/// stepping by one moves forward wherever it does not overflow.
pub proof fn lemma_integers_step_forward()
    ensures
        ops_obeyed::<usize>(),
        steps_forward::<usize>(),
        ops_obeyed::<u8>(),
        steps_forward::<u8>(),
        ops_obeyed::<u32>(),
        steps_forward::<u32>(),
        ops_obeyed::<u64>(),
        steps_forward::<u64>(),
        ops_obeyed::<u128>(),
        steps_forward::<u128>(),
        ops_obeyed::<isize>(),
        steps_forward::<isize>(),
        ops_obeyed::<i8>(),
        steps_forward::<i8>(),
        ops_obeyed::<i32>(),
        steps_forward::<i32>(),
        ops_obeyed::<i64>(),
        steps_forward::<i64>(),
        ops_obeyed::<i128>(),
        steps_forward::<i128>(),
{
}

} // verus!
