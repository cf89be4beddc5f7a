use vstd::prelude::*;
use crate::index_vec::Idx;
use crate::order::forward_edge;
use crate::order::relation::Relation;
use crate::order::Order;
use crate::order::Rows;

verus! {

/// What a traversal knows of an element: not seen yet, on the way at a given
/// depth, or finished.
#[derive(Clone, Copy, PartialEq, Eq, Structural, Debug)]
pub enum Flag {
    Unseen,
    Cycle(usize),
    Done,
}

/// The number of elements that a traversal has not seen yet.
pub open spec fn count_none(flags: Seq<Flag>) -> nat
    decreases flags.len(),
{
    if flags.len() == 0 {
        0
    } else {
        count_none(flags.drop_last()) + if flags.last() is Unseen {
            1nat
        } else {
            0nat
        }
    }
}

/// No more elements are unseen than there are elements.
pub proof fn lemma_count_none_bound(flags: Seq<Flag>)
    ensures
        count_none(flags) <= flags.len(),
    decreases flags.len(),
{
    if flags.len() > 0 {
        lemma_count_none_bound(flags.drop_last());
    }
}

/// Changing one flag changes the count of unseen elements by that flag alone.
pub proof fn lemma_count_none_update(flags: Seq<Flag>, i: int, flag: Flag)
    requires
        0 <= i < flags.len(),
    ensures
        count_none(flags.update(i, flag)) + (if flags[i] is Unseen {
            1nat
        } else {
            0nat
        }) == count_none(flags) + (if flag is Unseen {
            1nat
        } else {
            0nat
        }),
    decreases flags.len(),
{
    let updated = flags.update(i, flag);
    if i == flags.len() - 1 {
        assert(updated.drop_last() =~= flags.drop_last());
    } else {
        lemma_count_none_update(flags.drop_last(), i, flag);
        assert(updated.drop_last() =~= flags.drop_last().update(i, flag));
    }
}

/// Whether the order says that `c[i]` is below `c[i + 1]`.
pub open spec fn step(rows: Rows, c: Seq<usize>, i: int) -> bool {
    forward_edge(rows, c[i], c[i + 1]) is Some
}

/// Whether the order says that `c[i]` is strictly below `c[i + 1]`.
pub open spec fn strict_step(rows: Rows, c: Seq<usize>, i: int) -> bool {
    forward_edge(rows, c[i], c[i + 1]) == Some(Relation::LT)
}

/// A walk: each element is below the next one.
pub open spec fn is_walk(rows: Rows, c: Seq<usize>) -> bool {
    forall|i: int| 0 <= i < c.len() - 1 ==> #[trigger] step(rows, c, i)
}

/// A cycle: a walk that ends where it starts and goes strictly up somewhere, so
/// that no assignment of values to the elements satisfies the order.
pub open spec fn is_strict_cycle(rows: Rows, c: Seq<usize>) -> bool {
    &&& c.len() >= 2
    &&& c.first() == c.last()
    &&& is_walk(rows, c)
    &&& exists|i: int| 0 <= i < c.len() - 1 && #[trigger] strict_step(rows, c, i)
}

/// Whether the order has any cycle.
pub open spec fn has_cycle(rows: Rows) -> bool {
    exists|c: Seq<usize>| is_strict_cycle(rows, c)
}

/// Whether no walk along forward relations comes back to the element that it
/// starts from.
pub open spec fn forward_acyclic(rows: Rows) -> bool {
    forall|w: Seq<usize>| w.len() >= 2 && #[trigger] is_walk(rows, w) ==> w.first() != w.last()
}

/// Whether every forward relation of the order is strict.
pub open spec fn all_strict(rows: Rows) -> bool {
    forall|a: usize, b: usize|
        #![trigger forward_edge(rows, a, b)]
        forward_edge(rows, a, b) is Some ==> forward_edge(rows, a, b) == Some(Relation::LT)
}

/// Whether no walk along forward relations from `x` comes back to `x`.
pub open spec fn no_return(rows: Rows, x: usize) -> bool {
    forall|w: Seq<usize>|
        w.len() >= 2 && #[trigger] is_walk(rows, w) && w.first() == x ==> w.last() != x
}

/// Whether the order says that `a` is strictly below itself.
pub open spec fn strict_loop(rows: Rows, a: usize) -> bool {
    forward_edge(rows, a, a) == Some(Relation::LT)
}

/// The positions of a list of indices.
pub open spec fn positions<I: Idx>(c: Seq<I>) -> Seq<usize> {
    Seq::new(c.len(), |i: int| c[i].index())
}

/// Whether a walk goes strictly up somewhere.
pub open spec fn strict_walk(rows: Rows, w: Seq<usize>) -> bool {
    exists|i: int| 0 <= i < w.len() - 1 && #[trigger] strict_step(rows, w, i)
}

/// Whether an element lies on a cycle of the order.
pub open spec fn on_cycle(rows: Rows, x: usize) -> bool {
    exists|c: Seq<usize>| #[trigger] is_strict_cycle(rows, c) && c.contains(x)
}

/// Whether a cycle of the order starts at `x`.
pub open spec fn cycle_from(rows: Rows, x: usize) -> bool {
    exists|c: Seq<usize>| #[trigger] is_strict_cycle(rows, c) && c.first() == x
}

/// A cycle can be walked from each of its elements: an element that lies on a
/// cycle starts one.
pub proof fn lemma_cycle_rotates(rows: Rows, c: Seq<usize>, j: int)
    requires
        is_strict_cycle(rows, c),
        0 <= j < c.len(),
    ensures
        cycle_from(rows, c[j]),
{
    let n = c.len() as int;
    let w = c.subrange(j, n) + c.subrange(1, j + 1);
    assert(w.len() == n);
    assert forall|i: int| 0 <= i < w.len() - 1 implies #[trigger] step(rows, w, i) by {
        if i < n - j - 1 {
            assert(step(rows, c, j + i));
        } else if i == n - j - 1 {
            assert(step(rows, c, 0));
        } else {
            assert(step(rows, c, 1 + i - (n - j)));
        }
    }
    let at = choose|i: int| 0 <= i < c.len() - 1 && #[trigger] strict_step(rows, c, i);
    if at >= j {
        assert(strict_step(rows, w, at - j));
    } else {
        assert(strict_step(rows, w, n - j + at - 1));
    }
    assert(w.first() == c[j]);
    assert(w.last() == c[j]);
    assert(is_strict_cycle(rows, w));
}

/// The sum of the marks of a search.
spec fn total(marks: Seq<u8>) -> int
    decreases marks.len(),
{
    if marks.len() == 0 {
        0
    } else {
        total(marks.drop_last()) + marks.last() as int
    }
}

proof fn lemma_total_update(marks: Seq<u8>, i: int, mark: u8)
    requires
        0 <= i < marks.len(),
    ensures
        total(marks.update(i, mark)) == total(marks) - marks[i] + mark,
    decreases marks.len(),
{
    let updated = marks.update(i, mark);
    if i == marks.len() - 1 {
        assert(updated.drop_last() =~= marks.drop_last());
    } else {
        lemma_total_update(marks.drop_last(), i, mark);
        assert(updated.drop_last() =~= marks.drop_last().update(i, mark));
    }
}

proof fn lemma_total_bound(marks: Seq<u8>)
    requires
        forall|j: int| 0 <= j < marks.len() ==> #[trigger] marks[j] <= 2,
    ensures
        0 <= total(marks) <= 2 * marks.len(),
    decreases marks.len(),
{
    if marks.len() > 0 {
        assert forall|j: int| 0 <= j < marks.drop_last().len() implies #[trigger] marks.drop_last()[j]
            <= 2 by {
            assert(marks.drop_last()[j] == marks[j]);
        }
        lemma_total_bound(marks.drop_last());
    }
}

/// The mark of a forward relation: 2 where it is strict, else 1.
spec fn edge_mark(rel: Relation) -> u8 {
    if rel.permits_eq() {
        1
    } else {
        2
    }
}

/// The mark of a walk: 2 where it goes strictly up somewhere, else 1.
spec fn walk_mark(rows: Rows, w: Seq<usize>) -> u8 {
    if strict_walk(rows, w) {
        2
    } else {
        1
    }
}

/// The mark that a relation hands on from an element with the mark `from`.
spec fn joined_mark(from: u8, rel: Relation) -> u8 {
    if from == 2 || edge_mark(rel) == 2 {
        2
    } else {
        1
    }
}

/// Whether every mark is backed by a walk from `x`: an element with a mark
/// has a walk from `x` to it, which goes strictly up where the mark is 2.
spec fn marks_sound(rows: Rows, x: usize, marks: Seq<u8>, paths: Seq<Vec<usize>>) -> bool {
    forall|v: int|
        0 <= v < marks.len() && #[trigger] marks[v] > 0 ==> {
            let p = paths[v]@;
            &&& p.len() >= 2
            &&& p.first() == x
            &&& p.last() == v
            &&& is_walk(rows, p)
            &&& marks[v] == 2 ==> strict_walk(rows, p)
        }
}

/// Whether a relation has handed on all that it can: its end has at least the
/// mark that the relation gives it from its start.
spec fn handed_on<I: Idx>(x: usize, marks: Seq<u8>, e: (I, I, Relation)) -> bool {
    let u = e.0.index() as int;
    let v = e.1.index() as int;
    &&& u == x ==> marks[v] >= edge_mark(e.2)
    &&& marks[u] > 0 ==> marks[v] >= joined_mark(marks[u], e.2)
}

/// Whether the first `upto` relations of the list have handed on all that they
/// can.
spec fn marks_closed<I: Idx>(
    x: usize,
    marks: Seq<u8>,
    list: Seq<(I, I, Relation)>,
    upto: int,
) -> bool {
    forall|k: int| 0 <= k < upto ==> handed_on(x, marks, #[trigger] list[k])
}

/// Where every relation has handed on all that it can, the end of every walk
/// from `x` has at least the mark of the walk.
proof fn lemma_closed_reaches<I: Idx>(
    rows: Rows,
    x: usize,
    marks: Seq<u8>,
    list: Seq<(I, I, Relation)>,
    w: Seq<usize>,
)
    requires
        crate::order::rows_wf(rows),
        crate::order::lists_forward_edges(rows, list),
        marks_closed(x, marks, list, list.len() as int),
        marks.len() == rows.len(),
        forall|j: int| 0 <= j < marks.len() ==> #[trigger] marks[j] <= 2,
        w.len() >= 2,
        is_walk(rows, w),
        w.first() == x,
    ensures
        w.last() < marks.len(),
        marks[w.last() as int] >= walk_mark(rows, w),
    decreases w.len(),
{
    let n = w.len() as int;
    let u = w[n - 2];
    let v = w[n - 1];
    assert(step(rows, w, n - 2));
    assert(rows[u as int].contains_key(v));
    let k = choose|k: int|
        0 <= k < list.len() && (#[trigger] list[k]).0.index() == u && list[k].1.index() == v;
    assert(forward_edge(rows, list[k].0.index(), list[k].1.index()) == Some(list[k].2));
    assert(handed_on(x, marks, list[k]));
    let rel = list[k].2;
    assert(rel == Relation::LT || rel == Relation::LE);
    assert(strict_step(rows, w, n - 2) == (edge_mark(rel) == 2));
    assert(v < rows.len());
    assert(w.last() == v);
    if n == 2 {
        assert(u == x);
        assert(marks[v as int] >= edge_mark(rel));
        if strict_walk(rows, w) {
            let i = choose|i: int| 0 <= i < w.len() - 1 && #[trigger] strict_step(rows, w, i);
            assert(i == 0);
        }
    } else {
        let before = w.drop_last();
        assert(before.last() == u);
        assert(before.first() == x);
        assert forall|i: int| 0 <= i < before.len() - 1 implies #[trigger] step(rows, before, i) by {
            assert(step(rows, w, i));
        }
        lemma_closed_reaches(rows, x, marks, list, before);
        assert(marks[u as int] >= 1);
        assert(marks[v as int] >= joined_mark(marks[u as int], rel));
        if strict_walk(rows, w) {
            let i = choose|i: int| 0 <= i < w.len() - 1 && #[trigger] strict_step(rows, w, i);
            if i < n - 2 {
                assert(strict_step(rows, before, i));
                assert(strict_walk(rows, before));
            }
        }
    }
}

fn copy_path(path: &Vec<usize>) -> (r: Vec<usize>)
    ensures
        r@ == path@,
{
    let mut r: Vec<usize> = Vec::new();
    let mut i: usize = 0;
    while i < path.len()
        invariant
            i <= path@.len(),
            r@ == path@.subrange(0, i as int),
        decreases path@.len() - i,
    {
        r.push(path[i]);
        assert(r@ =~= path@.subrange(0, i + 1));
        i += 1;
    }
    assert(path@.subrange(0, i as int) =~= path@);
    r
}

/// Whether one of the cycles of a list goes through `x`.
pub open spec fn covers<I: Idx>(cycles: Seq<Vec<I>>, x: usize) -> bool {
    exists|j: int| 0 <= j < cycles.len() && positions((#[trigger] cycles[j])@).contains(x)
}

/// Whether a list holds, for every element that is strictly below itself, the
/// cycle of that element alone.
pub open spec fn loops_listed<I: Idx>(rows: Rows, cycles: Seq<Vec<I>>) -> bool {
    forall|a: usize|
        a < rows.len() && strict_loop(rows, a) ==> exists|k: int|
            0 <= k < cycles.len() && positions((#[trigger] cycles[k])@) == seq![a, a]
}

/// A list that grows keeps what it covers and the cycles that it holds.
proof fn lemma_covers_more<I: Idx>(rows: Rows, before: Seq<Vec<I>>, after: Seq<Vec<I>>)
    requires
        before.len() <= after.len(),
        forall|j: int| 0 <= j < before.len() ==> #[trigger] after[j] == before[j],
    ensures
        forall|x: usize| covers(before, x) ==> covers(after, x),
        loops_listed(rows, before) ==> loops_listed(rows, after),
{
    assert forall|x: usize| covers(before, x) implies covers(after, x) by {
        let j = choose|j: int|
            0 <= j < before.len() && positions((#[trigger] before[j])@).contains(x);
        assert(after[j] == before[j]);
    }
    if loops_listed(rows, before) {
        assert forall|a: usize| a < rows.len() && strict_loop(rows, a) implies exists|k: int|
            0 <= k < after.len() && positions((#[trigger] after[k])@) == seq![a, a] by {
            let k = choose|k: int|
                0 <= k < before.len() && positions((#[trigger] before[k])@) == seq![a, a];
            assert(after[k] == before[k]);
        }
    }
}

spec fn back_step(rows: Rows, c: Seq<usize>, i: int) -> bool {
    forward_edge(rows, c[i + 1], c[i]) is Some
}

spec fn strict_back_step(rows: Rows, c: Seq<usize>, i: int) -> bool {
    forward_edge(rows, c[i + 1], c[i]) == Some(Relation::LT)
}

spec fn back_walk(rows: Rows, c: Seq<usize>) -> bool {
    forall|i: int| 0 <= i < c.len() - 1 ==> #[trigger] back_step(rows, c, i)
}

spec fn strict_back(rows: Rows, c: Seq<usize>) -> bool {
    exists|i: int| 0 <= i < c.len() - 1 && #[trigger] strict_back_step(rows, c, i)
}

spec fn step_cost(rows: Rows, a: usize, b: usize) -> int {
    if forward_edge(rows, a, b) == Some(Relation::LT) {
        1
    } else {
        0
    }
}

/// A cycle under construction, written backwards from the element that it
/// closes at, which is on the way at a depth that the cycle goes above.
spec fn pending(rows: Rows, flags: Seq<Flag>, c: Seq<usize>, depth: int) -> bool {
    &&& c.len() >= 1
    &&& c[0] < flags.len()
    &&& back_walk(rows, c)
    &&& flags[c[0] as int] matches Flag::Cycle(k) && (strict_back(rows, c) || depth > k)
}

spec fn closed_done(rows: Rows, flags: Seq<Flag>) -> bool {
    forall|x: usize, y: usize|
        #![trigger flags[x as int], forward_edge(rows, x, y)]
        x < flags.len() && flags[x as int] is Done && forward_edge(rows, x, y) is Some ==> y
            < flags.len() && flags[y as int] is Done
}

spec fn done_no_return(rows: Rows, flags: Seq<Flag>) -> bool {
    forall|x: usize| x < flags.len() && #[trigger] flags[x as int] is Done ==> no_return(rows, x)
}

spec fn grays_below(flags: Seq<Flag>, depth: int) -> bool {
    forall|x: usize|
        x < flags.len() && #[trigger] flags[x as int] is Cycle ==> flags[x as int]->Cycle_0 < depth
}

/// What a visit starts from in an order whose forward relations are all
/// strict, as long as no cycle has been met.
spec fn searching(rows: Rows, flags: Seq<Flag>, depth: int) -> bool {
    &&& all_strict(rows)
    &&& closed_done(rows, flags)
    &&& done_no_return(rows, flags)
    &&& grays_below(flags, depth)
}

proof fn lemma_walk_stays_done(rows: Rows, flags: Seq<Flag>, w: Seq<usize>)
    requires
        closed_done(rows, flags),
        w.len() >= 1,
        is_walk(rows, w),
        w[0] < flags.len(),
        flags[w[0] as int] is Done,
    ensures
        w.last() < flags.len(),
        flags[w.last() as int] is Done,
    decreases w.len(),
{
    if w.len() > 1 {
        let shorter = w.drop_last();
        assert forall|i: int| 0 <= i < shorter.len() - 1 implies #[trigger] step(rows, shorter, i) by {
            assert(step(rows, w, i));
        }
        lemma_walk_stays_done(rows, flags, shorter);
        assert(step(rows, w, w.len() - 2));
        let x = w[w.len() - 2];
        assert(shorter.last() == x);
        assert(flags[x as int] is Done && forward_edge(rows, x, w.last()) is Some);
    }
}

proof fn lemma_finished_no_return(rows: Rows, flags: Seq<Flag>, a: usize)
    requires
        closed_done(rows, flags),
        a < flags.len(),
        !(flags[a as int] is Done),
        forall|y: usize|
            #![trigger forward_edge(rows, a, y)]
            forward_edge(rows, a, y) is Some ==> y < flags.len() && flags[y as int] is Done,
    ensures
        no_return(rows, a),
{
    assert forall|w: Seq<usize>|
        w.len() >= 2 && #[trigger] is_walk(rows, w) && w.first() == a implies w.last() != a by {
        assert(step(rows, w, 0));
        let tail = w.subrange(1, w.len() as int);
        assert forall|i: int| 0 <= i < tail.len() - 1 implies #[trigger] step(rows, tail, i) by {
            assert(step(rows, w, i + 1));
        }
        assert(forward_edge(rows, a, w[1]) is Some);
        lemma_walk_stays_done(rows, flags, tail);
        assert(tail.last() == w.last());
    }
}

spec fn all_cycles(rows: Rows, cycles: Seq<Vec<usize>>) -> bool {
    forall|k: int| 0 <= k < cycles.len() ==> is_strict_cycle(rows, #[trigger] cycles[k]@)
}

spec fn flags_advance(before: Seq<Flag>, after: Seq<Flag>) -> bool {
    &&& after.len() == before.len()
    &&& forall|x: int|
        0 <= x < before.len() ==> (if before[x] is Unseen {
            after[x] is Unseen || after[x] is Done
        } else {
            #[trigger] after[x] == before[x]
        })
}

spec fn loops_found(rows: Rows, before: Seq<Flag>, after: Seq<Flag>, found: Seq<Vec<usize>>) -> bool {
    forall|x: usize|
        x < before.len() && before[x as int] is Unseen && #[trigger] after[x as int] is Done
            && strict_loop(rows, x) ==> exists|k: int|
            0 <= k < found.len() && (#[trigger] found[k])@ == seq![x, x]
}

proof fn lemma_count_none_advance(before: Seq<Flag>, after: Seq<Flag>)
    requires
        flags_advance(before, after),
    ensures
        count_none(after) <= count_none(before),
    decreases before.len(),
{
    if before.len() > 0 {
        assert(after.last() == after[after.len() - 1]);
        assert(before.last() == before[before.len() - 1]);
        assert forall|x: int| 0 <= x < before.drop_last().len() implies (if before.drop_last()[x] is Unseen {
            after.drop_last()[x] is Unseen || after.drop_last()[x] is Done
        } else {
            #[trigger] after.drop_last()[x] == before.drop_last()[x]
        }) by {
            assert(after[x] == after.drop_last()[x]);
        }
        lemma_count_none_advance(before.drop_last(), after.drop_last());
    }
}

proof fn lemma_reverse_cycle(rows: Rows, c: Seq<usize>)
    requires
        c.len() >= 2,
        c.first() == c.last(),
        back_walk(rows, c),
        strict_back(rows, c),
    ensures
        is_strict_cycle(rows, c.reverse()),
{
    let r = c.reverse();
    assert forall|i: int| 0 <= i < r.len() - 1 implies #[trigger] step(rows, r, i) by {
        let j = c.len() - 2 - i;
        assert(back_step(rows, c, j));
        assert(r[i] == c[j + 1]);
        assert(r[i + 1] == c[j]);
    }
    let j = choose|j: int| 0 <= j < c.len() - 1 && #[trigger] strict_back_step(rows, c, j);
    let i = c.len() - 2 - j;
    assert(r[i] == c[j + 1]);
    assert(r[i + 1] == c[j]);
    assert(strict_step(rows, r, i));
}

fn reversed(c: &Vec<usize>) -> (r: Vec<usize>)
    ensures
        r@ == c@.reverse(),
{
    let mut r: Vec<usize> = Vec::new();
    let mut i: usize = c.len();
    while i > 0
        invariant
            i <= c@.len(),
            r@.len() == c@.len() - i,
            forall|j: int| 0 <= j < r@.len() ==> r@[j] == c@[c@.len() - 1 - j],
        decreases i,
    {
        i -= 1;
        r.push(c[i]);
    }
    assert(r@ =~= c@.reverse());
    r
}

struct CycleFinder<'a, I: Idx> {
    order: &'a Order<I>,
    flags: Vec<Flag>,
    finished_cycles: Vec<Vec<usize>>,
    active_cycles_0: Vec<Vec<usize>>,
    active_cycles_1: Vec<Vec<usize>>,
}

impl<'a, I: Idx> CycleFinder<'a, I> {
    spec fn inv(&self) -> bool {
        &&& self.order.wf()
        &&& self.flags@.len() == self.order@.len()
        &&& all_cycles(self.order@, self.finished_cycles@)
    }

    fn visit(&mut self, a: usize, strong_depth: usize)
        requires
            old(self).inv(),
            strong_depth + count_none(old(self).flags@) <= old(self).flags@.len(),
        ensures
            final(self).inv(),
            final(self).order == old(self).order,
            flags_advance(old(self).flags@, final(self).flags@),
            a < old(self).flags@.len() && old(self).flags@[a as int] is Unseen ==> final(self).flags@[a as int] is Done,
            final(self).active_cycles_1@ == old(self).active_cycles_1@,
            final(self).active_cycles_0@.len() >= old(self).active_cycles_0@.len(),
            final(self).active_cycles_0@.subrange(0, old(self).active_cycles_0@.len() as int)
                == old(self).active_cycles_0@,
            forall|k: int|
                old(self).active_cycles_0@.len() <= k < final(self).active_cycles_0@.len() ==> {
                    &&& pending(
                        final(self).order@,
                        final(self).flags@,
                        (#[trigger] final(self).active_cycles_0@[k])@,
                        strong_depth as int,
                    )
                    &&& final(self).active_cycles_0@[k]@.last() == a
                },
            a < old(self).flags@.len() && (old(self).flags@[a as int] matches Flag::Cycle(k)
                && strong_depth > k) ==> final(self).active_cycles_0@.len() == old(self).active_cycles_0@.len() + 1 && final(self).active_cycles_0@.last()@ == seq![a],
            final(self).finished_cycles@.len() >= old(self).finished_cycles@.len(),
            final(self).finished_cycles@.subrange(0, old(self).finished_cycles@.len() as int)
                == old(self).finished_cycles@,
            loops_found(
                final(self).order@,
                old(self).flags@,
                final(self).flags@,
                final(self).finished_cycles@,
            ),
            searching(old(self).order@, old(self).flags@, strong_depth as int) && final(self).active_cycles_0@.len() == old(self).active_cycles_0@.len() && final(self).finished_cycles@.len() == old(self).finished_cycles@.len() ==> {
                &&& closed_done(final(self).order@, final(self).flags@)
                &&& done_no_return(final(self).order@, final(self).flags@)
                &&& a < old(self).flags@.len() ==> final(self).flags@[a as int] is Done
            },
        decreases count_none(old(self).flags@),
    {
        let ghost rows = self.order@;
        let ghost hyp = searching(self.order@, self.flags@, strong_depth as int);
        let ghost flags0 = self.flags@;
        let ghost a0 = self.active_cycles_0@;
        let ghost a1 = self.active_cycles_1@;
        let ghost fin0 = self.finished_cycles@;
        assert(self.active_cycles_0@.subrange(0, a0.len() as int) =~= a0);
        assert(self.finished_cycles@.subrange(0, fin0.len() as int) =~= fin0);
        if a >= self.order.len() {
            return ;
        }
        match self.flags[a] {
            Flag::Done => {
                return ;
            },
            Flag::Cycle(previous_depth) => {
                proof {
                    if hyp {
                        assert(flags0[a as int]->Cycle_0 < strong_depth);
                    }
                }
                if strong_depth > previous_depth {
                    let mut cycle: Vec<usize> = Vec::new();
                    cycle.push(a);
                    assert(cycle@ =~= seq![a]);
                    self.active_cycles_0.push(cycle);
                    assert(self.active_cycles_0@.subrange(0, a0.len() as int) =~= a0);
                }
                return ;
            },
            Flag::Unseen => {},
        }
        self.flags[a] = Flag::Cycle(strong_depth);
        let ghost flags1 = self.flags@;
        proof {
            lemma_count_none_update(flags0, a as int, Flag::Cycle(strong_depth));
            lemma_count_none_bound(flags1);
            if hyp {
                assert(closed_done(rows, flags1)) by {
                    assert forall|x: usize, y: usize|
                        #![trigger flags1[x as int], forward_edge(rows, x, y)]
                        x < flags1.len() && flags1[x as int] is Done && forward_edge(
                            rows,
                            x,
                            y,
                        ) is Some implies y < flags1.len() && flags1[y as int] is Done by {
                        assert(flags0[x as int] is Done);
                        assert(flags0[y as int] is Done);
                    }
                }
                assert(done_no_return(rows, flags1)) by {
                    assert forall|x: usize|
                        x < flags1.len() && #[trigger] flags1[x as int] is Done implies no_return(
                        rows,
                        x,
                    ) by {
                        assert(flags0[x as int] is Done);
                    }
                }
            }
        }
        core::mem::swap(&mut self.active_cycles_0, &mut self.active_cycles_1);
        let new_cycles_start = self.active_cycles_0.len();
        let entries = self.order.element(a).entries();
        let mut i: usize = 0;
        while i < entries.len()
            invariant
                self.inv(),
                self.order == old(self).order,
                rows == self.order@,
                a < flags0.len(),
                flags0[a as int] is Unseen,
                flags1 == flags0.update(a as int, Flag::Cycle(strong_depth)),
                flags_advance(flags1, self.flags@),
                strong_depth + 1 + count_none(flags1) <= flags1.len(),
                count_none(flags1) < count_none(flags0),
                count_none(flags0) == count_none(old(self).flags@),
                i <= entries@.len(),
                forall|j: int|
                    0 <= j < entries@.len() ==> rows[a as int].contains_pair(
                        (#[trigger] entries@[j]).0,
                        entries@[j].1,
                    ),
                forall|k: usize|
                    rows[a as int].contains_key(k) ==> exists|j: int|
                        0 <= j < entries@.len() && (#[trigger] entries@[j]).0 == k,
                self.active_cycles_1@ == a0,
                new_cycles_start == a1.len(),
                self.active_cycles_0@.len() >= a1.len(),
                self.active_cycles_0@.subrange(0, a1.len() as int) == a1,
                forall|k: int|
                    a1.len() <= k < self.active_cycles_0@.len() ==> {
                        let c = (#[trigger] self.active_cycles_0@[k])@;
                        &&& c.len() >= 1
                        &&& forward_edge(rows, a, c.last()) is Some
                        &&& pending(rows, self.flags@, c, strong_depth + step_cost(rows, a, c.last()))
                    },
                self.finished_cycles@.len() >= fin0.len(),
                self.finished_cycles@.subrange(0, fin0.len() as int) == fin0,
                loops_found(rows, flags1, self.flags@, self.finished_cycles@),
                forall|j: int|
                    0 <= j < i && entries@[j].0 == a && strict_loop(rows, a) ==> exists|k: int|
                        a1.len() <= k < self.active_cycles_0@.len() && (
                        #[trigger] self.active_cycles_0@[k])@ == seq![a],
                hyp == searching(rows, flags0, strong_depth as int),
                hyp && self.active_cycles_0@.len() == a1.len() && self.finished_cycles@.len()
                    == fin0.len() ==> {
                    &&& closed_done(rows, self.flags@)
                    &&& done_no_return(rows, self.flags@)
                    &&& forall|j: int|
                        0 <= j < i && (#[trigger] entries@[j]).1.lte_component() is Some
                            ==> self.flags@[entries@[j].0 as int] is Done
                },
            decreases entries@.len() - i,
        {
            let (b, rel) = entries[i];
            let ghost flags_before = self.flags@;
            let ghost act_before = self.active_cycles_0@;
            let ghost fin_before = self.finished_cycles@;
            if let Some(fwd) = rel.lte_component() {
                assert(strong_depth + 1 <= self.flags.len());
                let depth = if fwd.allows_equal() {
                    strong_depth
                } else {
                    strong_depth + 1
                };
                proof {
                    lemma_count_none_advance(flags1, flags_before);
                    assert(rows[a as int].contains_pair(entries@[i as int].0, entries@[i as int].1));
                    assert(forward_edge(rows, a, b) == Some(fwd));
                    assert(depth == strong_depth + step_cost(rows, a, b));
                    if hyp && act_before.len() == a1.len() && fin_before.len() == fin0.len() {
                        assert(depth == strong_depth + 1);
                        assert(grays_below(flags_before, depth as int)) by {
                            assert forall|x: usize|
                                x < flags_before.len() && #[trigger] flags_before[x as int] is Cycle implies flags_before[x as int]->Cycle_0
                                < depth by {
                                assert(flags_before[x as int] == flags1[x as int]);
                                if x != a {
                                    assert(flags0[x as int] is Cycle);
                                }
                            }
                        }
                        assert(searching(rows, flags_before, depth as int));
                    }
                }
                self.visit(b, depth);
                proof {
                    if hyp && self.active_cycles_0@.len() == a1.len() && self.finished_cycles@.len()
                        == fin0.len() {
                        assert(act_before.len() == a1.len() && fin_before.len() == fin0.len());
                        assert forall|j: int|
                            0 <= j < i + 1 && (#[trigger] entries@[j]).1.lte_component() is Some implies self.flags@[entries@[j].0 as int] is Done by {
                            if j < i {
                                let t = entries@[j].0 as int;
                                assert(rows[a as int].contains_pair(entries@[j].0, entries@[j].1));
                                assert(flags_before[t] is Done);
                            }
                        }
                    }
                }
                proof {
                    let flags_after = self.flags@;
                    assert(flags_advance(flags1, flags_after));
                    assert forall|k: int|
                        a1.len() <= k < self.active_cycles_0@.len() implies {
                        let c = (#[trigger] self.active_cycles_0@[k])@;
                        &&& c.len() >= 1
                        &&& forward_edge(rows, a, c.last()) is Some
                        &&& pending(rows, self.flags@, c, strong_depth + step_cost(rows, a, c.last()))
                    } by {
                        if k < act_before.len() {
                            assert(self.active_cycles_0@.subrange(0, act_before.len() as int)[k]
                                == act_before[k]);
                            let c = act_before[k]@;
                            assert(pending(
                                rows,
                                flags_before,
                                c,
                                strong_depth + step_cost(rows, a, c.last()),
                            ));
                            assert(flags_after[c[0] as int] == flags_before[c[0] as int]);
                        }
                    }
                    assert(self.active_cycles_0@.subrange(0, a1.len() as int) =~= a1) by {
                        assert forall|k: int| 0 <= k < a1.len() implies self.active_cycles_0@[k]
                            == a1[k] by {
                            assert(self.active_cycles_0@.subrange(0, act_before.len() as int)[k]
                                == act_before[k]);
                            assert(act_before.subrange(0, a1.len() as int)[k] == act_before[k]);
                        }
                    }
                    assert(self.finished_cycles@.subrange(0, fin0.len() as int) =~= fin0) by {
                        assert forall|k: int| 0 <= k < fin0.len() implies self.finished_cycles@[k]
                            == fin0[k] by {
                            assert(self.finished_cycles@.subrange(0, fin_before.len() as int)[k]
                                == fin_before[k]);
                            assert(fin_before.subrange(0, fin0.len() as int)[k] == fin_before[k]);
                        }
                    }
                    assert(loops_found(rows, flags1, flags_after, self.finished_cycles@)) by {
                        assert forall|x: usize|
                            x < flags1.len() && flags1[x as int] is Unseen
                                && #[trigger] flags_after[x as int] is Done && strict_loop(
                                rows,
                                x,
                            ) implies exists|k: int|
                            0 <= k < self.finished_cycles@.len() && (
                            #[trigger] self.finished_cycles@[k])@ == seq![x, x] by {
                            if flags_before[x as int] is Done {
                                let k = choose|k: int|
                                    0 <= k < fin_before.len() && (#[trigger] fin_before[k])@
                                        == seq![x, x];
                                assert(self.finished_cycles@.subrange(
                                    0,
                                    fin_before.len() as int,
                                )[k] == fin_before[k]);
                            }
                        }
                    }
                    assert forall|j: int|
                        0 <= j < i + 1 && entries@[j].0 == a && strict_loop(
                            rows,
                            a,
                        ) implies exists|k: int|
                        a1.len() <= k < self.active_cycles_0@.len() && (
                        #[trigger] self.active_cycles_0@[k])@ == seq![a] by {
                        if j < i {
                            let k = choose|k: int|
                                a1.len() <= k < act_before.len() && (#[trigger] act_before[k])@
                                    == seq![a];
                            assert(self.active_cycles_0@.subrange(0, act_before.len() as int)[k]
                                == act_before[k]);
                        } else {
                            assert(b == a);
                            assert(flags_before[a as int] == flags1[a as int]);
                            assert(self.active_cycles_0@.last()@ == seq![a]);
                            assert(self.active_cycles_0@[self.active_cycles_0@.len() - 1]@
                                == seq![a]);
                        }
                    }
                }
            } else {
                proof {
                    assert(rows[a as int].contains_pair(entries@[i as int].0, entries@[i as int].1));
                    assert(forward_edge(rows, a, b) is None);
                }
            }
            i += 1;
        }
        let ghost flags2 = self.flags@;
        let ghost tail_all = self.active_cycles_0@;
        let ghost fin2 = self.finished_cycles@;
        let mut tail = self.active_cycles_0.split_off(new_cycles_start);
        assert(self.active_cycles_0@ =~= a1);
        let mut j: usize = 0;
        while j < tail.len()
            invariant
                self.inv(),
                self.order == old(self).order,
                rows == self.order@,
                a < flags2.len(),
                self.flags@ == flags2,
                flags2[a as int] == Flag::Cycle(strong_depth),
                self.active_cycles_0@ == a1,
                j <= tail@.len(),
                tail@.len() == tail_all.len() - a1.len(),
                forall|t: int|
                    a1.len() + j <= t < tail_all.len() ==> tail@[t - a1.len()] == #[trigger] tail_all[t],
                forall|k: int|
                    a1.len() <= k < tail_all.len() ==> {
                        let c = (#[trigger] tail_all[k])@;
                        &&& c.len() >= 1
                        &&& forward_edge(rows, a, c.last()) is Some
                        &&& pending(rows, flags2, c, strong_depth + step_cost(rows, a, c.last()))
                    },
                self.active_cycles_1@.len() >= a0.len(),
                self.active_cycles_1@.len() + self.finished_cycles@.len() == a0.len() + fin2.len()
                    + j,
                self.active_cycles_1@.subrange(0, a0.len() as int) == a0,
                forall|k: int|
                    a0.len() <= k < self.active_cycles_1@.len() ==> {
                        let c = (#[trigger] self.active_cycles_1@[k])@;
                        &&& pending(rows, flags2, c, strong_depth as int)
                        &&& c.last() == a
                        &&& c[0] != a
                    },
                self.finished_cycles@.len() >= fin2.len(),
                self.finished_cycles@.subrange(0, fin2.len() as int) == fin2,
                forall|t: int|
                    a1.len() <= t < a1.len() + j && (#[trigger] tail_all[t])@ == seq![a]
                        ==> exists|m: int|
                        0 <= m < self.finished_cycles@.len() && (
                        #[trigger] self.finished_cycles@[m])@ == seq![a, a],
            decreases tail@.len() - j,
        {
            let mut cycle: Vec<usize> = Vec::new();
            core::mem::swap(&mut cycle, &mut tail[j]);
            let ghost c = cycle@;
            let ghost act1_before = self.active_cycles_1@;
            let ghost finished_before = self.finished_cycles@;
            assert(tail_all[a1.len() + j]@ == c);
            assert(pending(rows, flags2, c, strong_depth + step_cost(rows, a, c.last())));
            cycle.push(a);
            let ghost c2 = cycle@;
            proof {
                assert forall|m: int| 0 <= m < c2.len() - 1 implies #[trigger] back_step(
                    rows,
                    c2,
                    m,
                ) by {
                    if m < c.len() - 1 {
                        assert(back_step(rows, c, m));
                    }
                }
                if strict_back(rows, c) {
                    let m = choose|m: int| 0 <= m < c.len() - 1 && #[trigger] strict_back_step(rows, c, m);
                    assert(strict_back_step(rows, c2, m));
                } else if step_cost(rows, a, c.last()) == 1 {
                    assert(strict_back_step(rows, c2, c.len() - 1));
                }
            }
            if cycle[0] == a {
                proof {
                    assert(strict_back(rows, c2));
                    lemma_reverse_cycle(rows, c2);
                }
                let forward = reversed(&cycle);
                self.finished_cycles.push(forward);
                proof {
                    assert(all_cycles(rows, self.finished_cycles@)) by {
                        assert forall|k: int|
                            0 <= k < self.finished_cycles@.len() implies is_strict_cycle(
                            rows,
                            #[trigger] self.finished_cycles@[k]@,
                        ) by {
                            if k < finished_before.len() {
                                assert(self.finished_cycles@[k] == finished_before[k]);
                            }
                        }
                    }
                    assert(self.finished_cycles@.subrange(0, fin2.len() as int) =~= fin2) by {
                        assert forall|k: int| 0 <= k < fin2.len() implies self.finished_cycles@[k]
                            == fin2[k] by {
                            assert(finished_before.subrange(0, fin2.len() as int)[k]
                                == finished_before[k]);
                        }
                    }
                    if c == seq![a] {
                        assert(c2 =~= seq![a, a]);
                        assert(c2.reverse() =~= seq![a, a]);
                        assert(self.finished_cycles@[self.finished_cycles@.len() - 1]@ == seq![
                            a,
                            a,
                        ]);
                    }
                    assert forall|t: int|
                        a1.len() <= t < a1.len() + j + 1 && (#[trigger] tail_all[t])@ == seq![
                            a,
                        ] implies exists|m: int|
                        0 <= m < self.finished_cycles@.len() && (
                        #[trigger] self.finished_cycles@[m])@ == seq![a, a] by {
                        if t < a1.len() + j {
                            let m = choose|m: int|
                                0 <= m < finished_before.len() && (#[trigger] finished_before[m])@
                                    == seq![a, a];
                            assert(self.finished_cycles@[m] == finished_before[m]);
                        } else {
                            assert(self.finished_cycles@[self.finished_cycles@.len() - 1]@
                                == seq![a, a]);
                        }
                    }
                }
            } else {
                self.active_cycles_1.push(cycle);
                proof {
                    assert(c != seq![a]);
                    assert forall|t: int|
                        a1.len() <= t < a1.len() + j + 1 && (#[trigger] tail_all[t])@ == seq![
                            a,
                        ] implies exists|m: int|
                        0 <= m < self.finished_cycles@.len() && (
                        #[trigger] self.finished_cycles@[m])@ == seq![a, a] by {
                        if t < a1.len() + j {
                            let m = choose|m: int|
                                0 <= m < finished_before.len() && (#[trigger] finished_before[m])@
                                    == seq![a, a];
                            assert(self.finished_cycles@[m] == finished_before[m]);
                        } else {
                            assert(tail_all[t]@ == c);
                        }
                    }
                    assert(pending(rows, flags2, c2, strong_depth as int));
                    assert(self.active_cycles_1@.subrange(0, a0.len() as int) =~= a0) by {
                        assert forall|k: int| 0 <= k < a0.len() implies self.active_cycles_1@[k]
                            == a0[k] by {
                            assert(act1_before.subrange(0, a0.len() as int)[k] == act1_before[k]);
                        }
                    }
                    assert forall|k: int|
                        a0.len() <= k < self.active_cycles_1@.len() implies {
                        let c = (#[trigger] self.active_cycles_1@[k])@;
                        &&& pending(rows, flags2, c, strong_depth as int)
                        &&& c.last() == a
                        &&& c[0] != a
                    } by {
                        if k < act1_before.len() {
                            assert(self.active_cycles_1@[k] == act1_before[k]);
                        }
                    }
                }
            }
            j += 1;
        }
        self.flags[a] = Flag::Done;
        core::mem::swap(&mut self.active_cycles_0, &mut self.active_cycles_1);
        proof {
            let flags3 = self.flags@;
            assert(flags_advance(flags0, flags3));
            if hyp && self.active_cycles_0@.len() == a0.len() && self.finished_cycles@.len()
                == fin0.len() {
                assert(tail_all.len() == a1.len() && fin2.len() == fin0.len());
                assert(closed_done(rows, flags2));
                assert forall|y: usize| #![trigger forward_edge(rows, a, y)]
                    forward_edge(rows, a, y) is Some implies y < flags2.len()
                    && flags2[y as int] is Done by {
                    assert(rows[a as int].contains_key(y));
                    let e = choose|e: int| 0 <= e < entries@.len() && (#[trigger] entries@[e]).0 == y;
                    assert(rows[a as int].contains_pair(entries@[e].0, entries@[e].1));
                }
                lemma_finished_no_return(rows, flags2, a);
                assert(closed_done(rows, flags3)) by {
                    assert forall|x: usize, y: usize|
                        #![trigger flags3[x as int], forward_edge(rows, x, y)]
                        x < flags3.len() && flags3[x as int] is Done && forward_edge(
                            rows,
                            x,
                            y,
                        ) is Some implies y < flags3.len() && flags3[y as int] is Done by {
                        if x != a {
                            assert(flags2[x as int] is Done);
                            assert(flags2[y as int] is Done);
                        }
                    }
                }
                assert(done_no_return(rows, flags3)) by {
                    assert forall|x: usize|
                        x < flags3.len() && #[trigger] flags3[x as int] is Done implies no_return(
                        rows,
                        x,
                    ) by {
                        if x != a {
                            assert(flags2[x as int] is Done);
                        }
                    }
                }
            }
            assert forall|k: int|
                a0.len() <= k < self.active_cycles_0@.len() implies {
                &&& pending(
                    rows,
                    flags3,
                    (#[trigger] self.active_cycles_0@[k])@,
                    strong_depth as int,
                )
                &&& self.active_cycles_0@[k]@.last() == a
            } by {
                let c = self.active_cycles_0@[k]@;
                assert(pending(rows, flags2, c, strong_depth as int));
                assert(c[0] != a);
            }
            assert(self.finished_cycles@.subrange(0, fin0.len() as int) =~= fin0) by {
                assert forall|k: int| 0 <= k < fin0.len() implies self.finished_cycles@[k]
                    == fin0[k] by {
                    assert(self.finished_cycles@.subrange(0, fin2.len() as int)[k] == fin2[k]);
                    assert(fin2.subrange(0, fin0.len() as int)[k] == fin2[k]);
                }
            }
            assert(loops_found(rows, flags0, flags3, self.finished_cycles@)) by {
                assert forall|x: usize|
                    x < flags0.len() && flags0[x as int] is Unseen && #[trigger] flags3[x as int] is Done
                        && strict_loop(rows, x) implies exists|k: int|
                    0 <= k < self.finished_cycles@.len() && (#[trigger] self.finished_cycles@[k])@
                        == seq![x, x] by {
                    if x == a {
                        assert(rows[a as int].contains_key(a));
                        let e = choose|e: int| 0 <= e < entries@.len() && (#[trigger] entries@[e]).0 == a;
                        let k = choose|k: int|
                            a1.len() <= k < tail_all.len() && (#[trigger] tail_all[k])@ == seq![a];
                        assert(tail_all[k]@ == seq![a]);
                    } else {
                        assert(flags2[x as int] is Done);
                        assert(flags1[x as int] is Unseen);
                        let k = choose|k: int| 0 <= k < fin2.len() && (#[trigger] fin2[k])@ == seq![x, x];
                        assert(self.finished_cycles@.subrange(0, fin2.len() as int)[k] == fin2[k]);
                    }
                }
            }
        }
    }
}

impl<I: Idx> Order<I> {
    /// Looks for a cycle that starts at `x`: the relations of `edges`, which are
    /// the forward relations of the order, hand marks on from `x` until none
    /// has anything left to hand on. A cycle is returned exactly where one
    /// starts at `x`.
    fn cycle_through(&self, x: usize, edges: &Vec<(I, I, Relation)>) -> (r: Option<Vec<usize>>)
        requires
            self.wf(),
            x < self@.len(),
            crate::order::lists_forward_edges(self@, edges@),
        ensures
            r matches Some(c) ==> is_strict_cycle(self@, c@) && c@.first() == x,
            r is None ==> !cycle_from(self@, x),
    {
        let n = self.len();
        let ghost rows = self@;
        let mut marks: Vec<u8> = Vec::new();
        let mut paths: Vec<Vec<usize>> = Vec::new();
        let mut i: usize = 0;
        while i < n
            invariant
                i <= n,
                marks@.len() == i,
                paths@.len() == i,
                forall|j: int| 0 <= j < i ==> #[trigger] marks@[j] == 0,
            decreases n - i,
        {
            marks.push(0);
            paths.push(Vec::new());
            i += 1;
        }
        let mut done = false;
        proof {
            lemma_total_bound(marks@);
            self.lemma_len_fits();
        }
        while !done
            invariant
                self.wf(),
                rows == self@,
                n == rows.len(),
                x < n,
                crate::order::lists_forward_edges(rows, edges@),
                marks@.len() == n,
                paths@.len() == n,
                forall|j: int| 0 <= j < n ==> #[trigger] marks@[j] <= 2,
                marks_sound(rows, x, marks@, paths@),
                done ==> marks_closed(x, marks@, edges@, edges@.len() as int),
                0 <= total(marks@) <= 2 * n,
            decreases 2 * n - total(marks@), (if done { 0int } else { 1int }),
        {
            let ghost start = marks@;
            let mut changed = false;
            let mut k: usize = 0;
            while k < edges.len()
                invariant
                    self.wf(),
                    rows == self@,
                    n == rows.len(),
                    x < n,
                    crate::order::lists_forward_edges(rows, edges@),
                    k <= edges@.len(),
                    marks@.len() == n,
                    paths@.len() == n,
                    start.len() == n,
                    forall|j: int| 0 <= j < n ==> #[trigger] marks@[j] <= 2,
                    marks_sound(rows, x, marks@, paths@),
                    total(marks@) >= total(start),
                    changed ==> total(marks@) > total(start),
                    !changed ==> marks@ == start && marks_closed(x, marks@, edges@, k as int),
                decreases edges@.len() - k,
            {
                let (a, b, rel) = edges[k];
                let u = a.to_usize();
                let v = b.to_usize();
                proof {
                    assert(forward_edge(rows, edges@[k as int].0.index(), edges@[k as int].1.index())
                        == Some(rel));
                    assert(rows[u as int].contains_key(v));
                }
                let mark: u8 = if rel.allows_equal() {
                    1
                } else {
                    2
                };
                let mut best: u8 = 0;
                let mut direct = false;
                if marks[u] > 0 {
                    best = if marks[u] == 2 || mark == 2 {
                        2
                    } else {
                        1
                    };
                }
                if u == x && mark > best {
                    best = mark;
                    direct = true;
                }
                if best > marks[v] {
                    let ghost before = marks@;
                    let ghost paths_before = paths@;
                    let mut path = if direct {
                        let mut p: Vec<usize> = Vec::new();
                        p.push(x);
                        p
                    } else {
                        copy_path(&paths[u])
                    };
                    let ghost stem = path@;
                    path.push(v);
                    proof {
                        let p = path@;
                        let m = p.len() as int;
                        assert(p.last() == v);
                        assert(p.first() == x);
                        assert(p[m - 2] == u);
                        assert forall|i: int| 0 <= i < p.len() - 1 implies #[trigger] step(
                            rows,
                            p,
                            i,
                        ) by {
                            if i < m - 2 {
                                assert(step(rows, stem, i));
                            }
                        }
                        if best == 2 {
                            if mark == 2 {
                                assert(strict_step(rows, p, m - 2));
                            } else {
                                let i = choose|i: int|
                                    0 <= i < stem.len() - 1 && #[trigger] strict_step(rows, stem, i);
                                assert(strict_step(rows, p, i));
                            }
                        }
                        lemma_total_update(before, v as int, best);
                    }
                    marks.set(v, best);
                    paths.set(v, path);
                    changed = true;
                    proof {
                        assert forall|w: int| 0 <= w < marks@.len() && #[trigger] marks@[w] > 0 implies {
                            let p = paths@[w]@;
                            &&& p.len() >= 2
                            &&& p.first() == x
                            &&& p.last() == w
                            &&& is_walk(rows, p)
                            &&& marks@[w] == 2 ==> strict_walk(rows, p)
                        } by {
                            if w != v {
                                assert(before[w] > 0);
                                assert(paths@[w] == paths_before[w]);
                            }
                        }
                    }
                } else {
                    proof {
                        if !changed {
                            assert(handed_on(x, marks@, edges@[k as int]));
                        }
                    }
                }
                k += 1;
            }
            proof {
                lemma_total_bound(marks@);
            }
            if !changed {
                done = true;
            }
        }
        if marks[x] == 2 {
            let c = copy_path(&paths[x]);
            assert(is_strict_cycle(self@, c@));
            Some(c)
        } else {
            proof {
                if cycle_from(rows, x) {
                    let c = choose|c: Seq<usize>| #[trigger] is_strict_cycle(rows, c) && c.first() == x;
                    lemma_closed_reaches(rows, x, marks@, edges@, c);
                }
            }
            None
        }
    }

    /// Looks for cycles: walks along forward relations that come back to their
    /// start and go strictly up on the way.
    ///
    /// Every list returned is such a cycle, written from its start to its start
    /// again; so an order without cycles gives no list. Every element that is
    /// strictly below itself is reported as the cycle of that element alone,
    /// and every element that lies on a cycle is on one of the cycles returned:
    /// where the walk from element to element has left one out, a cycle
    /// through it is looked for by itself. Which cycles are reported beyond
    /// that depends on the order in which the relations of an element are
    /// walked.
    pub fn find_cycles(&self) -> (cycles: Vec<Vec<I>>)
        requires
            self.wf(),
        ensures
            forall|k: int|
                0 <= k < cycles@.len() ==> is_strict_cycle(self@, positions((#[trigger] cycles@[k])@)),
            !has_cycle(self@) ==> cycles@.len() == 0,
            has_cycle(self@) ==> cycles@.len() > 0,
            forall|x: usize| on_cycle(self@, x) ==> covers(cycles@, x),
            all_strict(self@) ==> (cycles@.len() == 0 <==> !has_cycle(self@)),
            forall|a: usize|
                a < self@.len() && strict_loop(self@, a) ==> exists|k: int|
                    0 <= k < cycles@.len() && positions((#[trigger] cycles@[k])@) == seq![a, a],
    {
        let n = self.len();
        let mut flags: Vec<Flag> = Vec::new();
        let mut i: usize = 0;
        while i < n
            invariant
                i <= n,
                flags@.len() == i,
                forall|j: int| 0 <= j < i ==> flags@[j] is Unseen,
            decreases n - i,
        {
            flags.push(Flag::Unseen);
            i += 1;
        }
        let mut finder = CycleFinder {
            order: self,
            flags,
            finished_cycles: Vec::new(),
            active_cycles_0: Vec::new(),
            active_cycles_1: Vec::new(),
        };
        let mut a: usize = 0;
        while a < n
            invariant
                a <= n,
                n == self@.len(),
                finder.inv(),
                finder.order == self,
                forall|x: int| 0 <= x < n ==> !(#[trigger] finder.flags@[x] is Cycle),
                forall|x: int| 0 <= x < a ==> #[trigger] finder.flags@[x] is Done,
                finder.active_cycles_0@.len() == 0,
                finder.active_cycles_1@.len() == 0,
                all_strict(self@) && finder.finished_cycles@.len() == 0 ==> closed_done(
                    self@,
                    finder.flags@,
                ) && done_no_return(self@, finder.flags@),
                forall|x: usize|
                    x < n && #[trigger] finder.flags@[x as int] is Done && strict_loop(self@, x)
                        ==> exists|k: int|
                        0 <= k < finder.finished_cycles@.len() && (
                        #[trigger] finder.finished_cycles@[k])@ == seq![x, x],
            decreases n - a,
        {
            let ghost flags_before = finder.flags@;
            let ghost fin_before = finder.finished_cycles@;
            proof {
                lemma_count_none_bound(finder.flags@);
            }
            proof {
                if all_strict(self@) && fin_before.len() == 0 {
                    assert(searching(self@, flags_before, 0));
                }
            }
            finder.visit(a, 0);
            proof {
                if finder.active_cycles_0@.len() > 0 {
                    let c = finder.active_cycles_0@[0]@;
                    assert(pending(self@, finder.flags@, c, 0));
                    assert(finder.flags@[c[0] as int] is Cycle);
                    assert(flags_before[c[0] as int] is Cycle);
                }
                assert forall|x: usize|
                    x < n && #[trigger] finder.flags@[x as int] is Done && strict_loop(
                        self@,
                        x,
                    ) implies exists|k: int|
                    0 <= k < finder.finished_cycles@.len() && (
                    #[trigger] finder.finished_cycles@[k])@ == seq![x, x] by {
                    if flags_before[x as int] is Done {
                        let k = choose|k: int|
                            0 <= k < fin_before.len() && (#[trigger] fin_before[k])@ == seq![x, x];
                        assert(finder.finished_cycles@.subrange(0, fin_before.len() as int)[k]
                            == fin_before[k]);
                    }
                }
            }
            a += 1;
        }
        let mut cycles: Vec<Vec<I>> = Vec::new();
        let mut k: usize = 0;
        while k < finder.finished_cycles.len()
            invariant
                k <= finder.finished_cycles@.len(),
                cycles@.len() == k,
                forall|m: int|
                    0 <= m < k ==> positions((#[trigger] cycles@[m])@)
                        == finder.finished_cycles@[m]@,
            decreases finder.finished_cycles@.len() - k,
        {
            let source = &finder.finished_cycles[k];
            let mut cycle: Vec<I> = Vec::new();
            let mut m: usize = 0;
            while m < source.len()
                invariant
                    m <= source@.len(),
                    cycle@.len() == m,
                    forall|p: int| 0 <= p < m ==> (#[trigger] cycle@[p]).index() == source@[p],
                decreases source@.len() - m,
            {
                cycle.push(I::from_usize(source[m]));
                m += 1;
            }
            assert(positions(cycle@) =~= source@);
            cycles.push(cycle);
            k += 1;
        }
        proof {
            assert forall|k: int| 0 <= k < cycles@.len() implies is_strict_cycle(
                self@,
                positions((#[trigger] cycles@[k])@),
            ) by {
                assert(is_strict_cycle(self@, finder.finished_cycles@[k]@));
            }
            if !has_cycle(self@) && cycles@.len() > 0 {
                assert(is_strict_cycle(self@, positions(cycles@[0]@)));
            }
            if all_strict(self@) && cycles@.len() == 0 && has_cycle(self@) {
                let c = choose|c: Seq<usize>| is_strict_cycle(self@, c);
                assert(is_walk(self@, c));
                assert(step(self@, c, 0));
                assert(self@[c[0] as int].contains_key(c[1]));
                assert(finder.flags@[c[0] as int] is Done);
                assert(no_return(self@, c[0]));
            }
            assert forall|a: usize| a < self@.len() && strict_loop(self@, a) implies exists|k: int|
                0 <= k < cycles@.len() && positions((#[trigger] cycles@[k])@) == seq![a, a] by {
                assert(finder.flags@[a as int] is Done);
                let k = choose|k: int|
                    0 <= k < finder.finished_cycles@.len() && (
                    #[trigger] finder.finished_cycles@[k])@ == seq![a, a];
                assert(positions(cycles@[k]@) == seq![a, a]);
            }
            assert(loops_listed(self@, cycles@));
        }
        let edges = self.iter_forward();
        let mut covered: Vec<bool> = Vec::new();
        let mut x: usize = 0;
        while x < n
            invariant
                x <= n,
                covered@.len() == x,
                forall|y: int| 0 <= y < x ==> !#[trigger] covered@[y],
            decreases n - x,
        {
            covered.push(false);
            x += 1;
        }
        let mut k: usize = 0;
        while k < cycles.len()
            invariant
                k <= cycles@.len(),
                covered@.len() == n,
                forall|y: usize| y < n && #[trigger] covered@[y as int] ==> covers(cycles@, y),
            decreases cycles@.len() - k,
        {
            let mut m: usize = 0;
            while m < cycles[k].len()
                invariant
                    k < cycles@.len(),
                    m <= cycles@[k as int]@.len(),
                    covered@.len() == n,
                    forall|y: usize| y < n && #[trigger] covered@[y as int] ==> covers(cycles@, y),
                decreases cycles@[k as int]@.len() - m,
            {
                let e = cycles[k][m].to_usize();
                if e < n {
                    proof {
                        assert(positions(cycles@[k as int]@)[m as int] == e);
                        assert(positions(cycles@[k as int]@).contains(e));
                        assert(covers(cycles@, e));
                    }
                    covered.set(e, true);
                }
                m += 1;
            }
            k += 1;
        }
        let mut x: usize = 0;
        while x < n
            invariant
                self.wf(),
                n == self@.len(),
                x <= n,
                crate::order::lists_forward_edges(self@, edges@),
                covered@.len() == n,
                loops_listed(self@, cycles@),
                forall|j: int|
                    0 <= j < cycles@.len() ==> is_strict_cycle(
                        self@,
                        positions((#[trigger] cycles@[j])@),
                    ),
                forall|y: usize| y < n && #[trigger] covered@[y as int] ==> covers(cycles@, y),
                forall|y: usize| y < x && cycle_from(self@, y) ==> #[trigger] covers(cycles@, y),
            decreases n - x,
        {
            if !covered[x] {
                match self.cycle_through(x, &edges) {
                    Some(c) => {
                        let mut cycle: Vec<I> = Vec::new();
                        let mut m: usize = 0;
                        while m < c.len()
                            invariant
                                m <= c@.len(),
                                cycle@.len() == m,
                                forall|p: int|
                                    0 <= p < m ==> (#[trigger] cycle@[p]).index() == c@[p],
                            decreases c@.len() - m,
                        {
                            cycle.push(I::from_usize(c[m]));
                            m += 1;
                        }
                        let ghost before = cycles@;
                        cycles.push(cycle);
                        proof {
                            assert(positions(cycle@) =~= c@);
                            lemma_covers_more(self@, before, cycles@);
                            assert(positions(cycles@[before.len() as int]@)[0] == x);
                            assert(positions(cycles@[before.len() as int]@).contains(x));
                            assert(covers(cycles@, x));
                            assert forall|j: int| 0 <= j < cycles@.len() implies is_strict_cycle(
                                self@,
                                positions((#[trigger] cycles@[j])@),
                            ) by {
                                if j < before.len() {
                                    assert(cycles@[j] == before[j]);
                                }
                            }
                        }
                    },
                    None => {},
                }
            }
            x += 1;
        }
        proof {
            assert forall|x: usize| on_cycle(self@, x) implies covers(cycles@, x) by {
                let c = choose|c: Seq<usize>| #[trigger] is_strict_cycle(self@, c) && c.contains(x);
                let j = choose|j: int| 0 <= j < c.len() && c[j] == x;
                lemma_cycle_rotates(self@, c, j);
                let w = choose|w: Seq<usize>| #[trigger] is_strict_cycle(self@, w) && w.first() == x;
                assert(step(self@, w, 0));
            }
            if has_cycle(self@) {
                let c = choose|c: Seq<usize>| is_strict_cycle(self@, c);
                assert(c.contains(c[0]));
                assert(on_cycle(self@, c[0]));
                assert(covers(cycles@, c[0]));
            }
            if !has_cycle(self@) && cycles@.len() > 0 {
                assert(is_strict_cycle(self@, positions(cycles@[0]@)));
            }
        }
        cycles
    }
}

} // verus!
