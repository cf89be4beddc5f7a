use vstd::prelude::*;
use crate::index_vec::Idx;
use crate::order::edge;
use crate::order::find_cycles::count_none;
use crate::order::find_cycles::lemma_count_none_bound;
use crate::order::find_cycles::lemma_count_none_update;
use crate::order::find_cycles::forward_acyclic;
use crate::order::find_cycles::is_walk;
use crate::order::find_cycles::step;
use crate::order::find_cycles::strict_step;
use crate::order::find_cycles::Flag;
use crate::order::forward_edge;
use crate::order::lists_forward_edges;
use crate::order::related;
use crate::order::lemma_related_wf;
use crate::order::relation::lemma_relation_semantics;
use crate::order::relation::Relation;
use crate::order::rows_wf;
use crate::order::Order;
use crate::order::Rows;

verus! {

/// Whether an assignment of values to the elements satisfies every relation
/// that an order stores.
pub open spec fn satisfies(rows: Rows, v: spec_fn(usize) -> int) -> bool {
    forall|a: usize, b: usize|
        a < rows.len() && #[trigger] rows[a as int].contains_key(b) ==> rows[a as int][b].holds(
            v(a),
            v(b),
        )
}

/// Whether `derived` says nothing that `source` does not imply: every
/// assignment of values that satisfies `source` satisfies `derived`.
pub open spec fn refines(source: Rows, derived: Rows) -> bool {
    forall|v: spec_fn(usize) -> int| #[trigger] satisfies(source, v) ==> satisfies(derived, v)
}

/// Whether `source` implies `a rel b`.
pub open spec fn entails(source: Rows, a: usize, rel: Relation, b: usize) -> bool {
    forall|v: spec_fn(usize) -> int| #[trigger] satisfies(source, v) ==> rel.holds(v(a), v(b))
}

/// Whether `after` stores, for every pair that `before` has a relation for, a
/// relation at least as tight.
pub open spec fn tightens(before: Rows, after: Rows) -> bool {
    &&& before.len() <= after.len()
    &&& forall|a: usize, b: usize|
        a < before.len() && #[trigger] before[a as int].contains_key(b) ==> {
            &&& after[a as int].contains_key(b)
            &&& after[a as int][b].implies(before[a as int][b])
        }
}

/// Recording a relation only tightens, and what is stored for the pair
/// afterwards is at least as tight as the relation.
pub proof fn lemma_related_tightens(rows: Rows, a: usize, b: usize, rel: Relation)
    requires
        a < usize::MAX,
        b < usize::MAX,
    ensures
        tightens(rows, related(rows, a, b, rel)),
        !(a == b && rel.permits_eq()) ==> edge(related(rows, a, b, rel), a, b) is Some && edge(
            related(rows, a, b, rel),
            a,
            b,
        )->0.implies(rel),
        related(rows, a, b, rel).len() == (if a == b && rel.permits_eq() {
            rows.len()
        } else if rows.len() > a && rows.len() > b {
            rows.len()
        } else if a > b {
            (a + 1) as nat
        } else {
            (b + 1) as nat
        }),
{
}

/// Recording a relation that holds under an assignment keeps the order
/// satisfied by it.
pub proof fn lemma_related_satisfies(
    rows: Rows,
    a: usize,
    b: usize,
    rel: Relation,
    v: spec_fn(usize) -> int,
)
    requires
        a < usize::MAX,
        b < usize::MAX,
        satisfies(rows, v),
        rel.holds(v(a), v(b)),
    ensures
        satisfies(related(rows, a, b, rel), v),
{
    let r = related(rows, a, b, rel);
    assert forall|x: usize, y: usize|
        x < r.len() && #[trigger] r[x as int].contains_key(y) implies r[x as int][y].holds(
        v(x),
        v(y),
    ) by {
        if x < rows.len() && rows[x as int].contains_key(y) {
            assert(rows[x as int][y].holds(v(x), v(y)));
        }
        lemma_relation_semantics(rel, rel, v(a), v(b), 0);
    }
}

/// Tightening is transitive.
/// An output is as tight as itself.
proof fn lemma_tightens_reflexive(rows: Rows)
    ensures
        tightens(rows, rows),
{
    assert forall|a: usize, b: usize|
        a < rows.len() && #[trigger] rows[a as int].contains_key(b) implies rows[a as int][b].implies(
        rows[a as int][b],
    ) by {
        crate::order::relation::lemma_conj_idempotent(rows[a as int][b]);
    }
}

pub proof fn lemma_tightens_transitive(first: Rows, second: Rows, third: Rows)
    requires
        tightens(first, second),
        tightens(second, third),
    ensures
        tightens(first, third),
{
    assert forall|a: usize, b: usize|
        a < first.len() && #[trigger] first[a as int].contains_key(b) implies third[a as int].contains_key(
        b,
    ) && third[a as int][b].implies(first[a as int][b]) by {
        assert(second[a as int].contains_key(b));
    }
}

/// The configuration of a transistor: which relations the walk follows, which
/// relation the output carries for a relation of the source, and how two
/// relations along a walked path compose.
///
/// The three functions are functions of their arguments. What `remap` and
/// `trans` return must follow from what they are given: a configuration derives
/// relations, it does not invent them.
pub trait TransistorConfig<I: Idx>: Sized {
    /// The elements that the configuration can be asked about.
    spec fn knows(&self, a: usize) -> bool;

    /// The elements that the walk may visit: those that it may start from, and
    /// those that it descends to from them.
    spec fn walks(&self, a: usize) -> bool;

    /// The pairs of elements that the output may relate.
    spec fn pairs(&self, a: usize, c: usize) -> bool;

    /// Whether the walk descends from `a` along `a rel b`.
    spec fn enters(&self, a: usize, rel: Relation, b: usize) -> bool;

    /// The relation that the output carries for `a rel b`, if any.
    spec fn remaps(&self, a: usize, rel: Relation, b: usize) -> Option<Relation>;

    /// The relation of `a` to `c` that follows from `a r_ab b` and `b r_bc c`, if
    /// any.
    spec fn composes(&self, a: usize, r_ab: Relation, b: usize, r_bc: Relation, c: usize) -> Option<
        Relation,
    >;

    /// Whether the walk descends from `a` along `a rel b`.
    fn enter(&self, a: I, rel: Relation, b: I) -> (r: bool)
        requires
            self.knows(a.index()),
            self.knows(b.index()),
        ensures
            r == self.enters(a.index(), rel, b.index()),
    ;

    /// The relation that the output carries for `a rel b`, if any.
    fn remap(&self, a: I, rel: Relation, b: I) -> (r: Option<Relation>)
        requires
            self.knows(a.index()),
            self.knows(b.index()),
        ensures
            r == self.remaps(a.index(), rel, b.index()),
    ;

    /// The relation of `a` to `c` that follows from `a r_ab b` and `b r_bc c`, if
    /// any.
    fn trans(&self, a: I, r_ab: Relation, b: I, r_bc: Relation, c: I) -> (r: Option<Relation>)
        requires
            self.knows(a.index()),
            self.knows(b.index()),
            self.knows(c.index()),
        ensures
            r == self.composes(a.index(), r_ab, b.index(), r_bc, c.index()),
    ;

    /// What `remap` returns holds wherever the relation that it was given holds.
    proof fn lemma_remap_sound(&self, a: usize, rel: Relation, b: usize, p: int, q: int)
        requires
            rel.holds(p, q),
            self.remaps(a, rel, b) is Some,
        ensures
            self.remaps(a, rel, b)->0.holds(p, q),
    ;

    /// The walk descends only to elements that it may visit.
    proof fn lemma_enter_walks(&self, a: usize, rel: Relation, b: usize)
        requires
            self.walks(a),
            self.enters(a, rel, b),
        ensures
            self.walks(b),
    ;

    /// The pairs that the output may relate do not depend on the side from
    /// which a pair is seen; `remap` gives relations for such pairs only, and
    /// `trans` composes a relation to such a pair.
    proof fn lemma_pairs(&self, a: usize, r_ab: Relation, b: usize, r_bc: Relation, c: usize)
        requires
            self.walks(a),
        ensures
            self.pairs(a, c) ==> self.pairs(c, a),
            self.pairs(b, c) ==> self.pairs(c, b),
            self.remaps(a, r_ab, b) is Some ==> self.pairs(a, b),
            self.enters(a, r_ab, b) && self.pairs(b, c) && self.composes(a, r_ab, b, r_bc, c) is Some
                ==> self.pairs(a, c),
    ;

    /// `trans` keeps step with its second relation: where it returns a relation,
    /// it returns one at least as tight for a second relation that is tighter.
    proof fn lemma_trans_monotone(
        &self,
        a: usize,
        r_ab: Relation,
        b: usize,
        r_bc: Relation,
        tighter: Relation,
        c: usize,
    )
        requires
            tighter.implies(r_bc),
            self.composes(a, r_ab, b, r_bc, c) is Some,
        ensures
            self.composes(a, r_ab, b, tighter, c) is Some,
            self.composes(a, r_ab, b, tighter, c)->0.implies(self.composes(a, r_ab, b, r_bc, c)->0),
    ;

    /// What `trans` returns holds for the ends of a path wherever the two
    /// relations that it was given hold along the path.
    proof fn lemma_trans_sound(
        &self,
        a: usize,
        r_ab: Relation,
        b: usize,
        r_bc: Relation,
        c: usize,
        p: int,
        q: int,
        t: int,
    )
        requires
            r_ab.holds(p, q),
            r_bc.holds(q, t),
            self.composes(a, r_ab, b, r_bc, c) is Some,
        ensures
            self.composes(a, r_ab, b, r_bc, c)->0.holds(p, t),
    ;
}

/// A choice of elements.
pub trait Selector<I: Idx> {
    /// The elements that the selector can be asked about.
    spec fn knows(&self, a: usize) -> bool;

    /// Whether the element at position `a` is chosen.
    spec fn selects(&self, a: usize) -> bool;

    /// Whether `a` is chosen.
    fn select(&self, a: I) -> (r: bool)
        requires
            self.knows(a.index()),
        ensures
            r == self.selects(a.index()),
    ;
}

/// The choice of the elements whose position holds `true`.
impl<I: Idx> Selector<I> for Vec<bool> {
    open spec fn knows(&self, a: usize) -> bool {
        true
    }

    open spec fn selects(&self, a: usize) -> bool {
        a < self@.len() && self@[a as int]
    }

    fn select(&self, a: I) -> (r: bool) {
        let i = a.to_usize();
        i < self.len() && self[i]
    }
}

/// The choice of every element.
pub struct Everything;

impl<I: Idx> Selector<I> for Everything {
    open spec fn knows(&self, a: usize) -> bool {
        true
    }

    open spec fn selects(&self, a: usize) -> bool {
        true
    }

    fn select(&self, a: I) -> (r: bool) {
        true
    }
}

/// The configuration of the forward transitive closure: the walk follows the
/// forward relations, the output carries their forward component, and two
/// forward relations compose to their conjunction.
///
/// With `enter_all` the walk follows every relation; the output is the same.
pub struct Completion {
    pub enter_all: bool,
}

impl<I: Idx> TransistorConfig<I> for Completion {
    open spec fn knows(&self, a: usize) -> bool {
        true
    }

    open spec fn walks(&self, a: usize) -> bool {
        true
    }

    open spec fn pairs(&self, a: usize, c: usize) -> bool {
        true
    }

    open spec fn enters(&self, a: usize, rel: Relation, b: usize) -> bool {
        self.enter_all || rel.lte_component() is Some
    }

    open spec fn remaps(&self, a: usize, rel: Relation, b: usize) -> Option<Relation> {
        rel.lte_component()
    }

    open spec fn composes(
        &self,
        a: usize,
        r_ab: Relation,
        b: usize,
        r_bc: Relation,
        c: usize,
    ) -> Option<Relation> {
        forward_composition(r_ab, r_bc)
    }

    fn enter(&self, a: I, rel: Relation, b: I) -> (r: bool) {
        self.enter_all || rel.lte_component().is_some()
    }

    fn remap(&self, a: I, rel: Relation, b: I) -> (r: Option<Relation>) {
        rel.lte_component()
    }

    fn trans(&self, a: I, r_ab: Relation, b: I, r_bc: Relation, c: I) -> (r: Option<Relation>) {
        compose_forward(r_ab, r_bc)
    }

    proof fn lemma_remap_sound(&self, a: usize, rel: Relation, b: usize, p: int, q: int) {
    }

    proof fn lemma_enter_walks(&self, a: usize, rel: Relation, b: usize) {
    }

    proof fn lemma_pairs(&self, a: usize, r_ab: Relation, b: usize, r_bc: Relation, c: usize) {
    }

    proof fn lemma_trans_monotone(
        &self,
        a: usize,
        r_ab: Relation,
        b: usize,
        r_bc: Relation,
        tighter: Relation,
        c: usize,
    ) {
    }

    proof fn lemma_trans_sound(
        &self,
        a: usize,
        r_ab: Relation,
        b: usize,
        r_bc: Relation,
        c: usize,
        p: int,
        q: int,
        t: int,
    ) {
    }
}

/// The conjunction of the forward components of two relations, where both have
/// one.
pub open spec fn forward_composition(r_ab: Relation, r_bc: Relation) -> Option<Relation> {
    match (r_ab.lte_component(), r_bc.lte_component()) {
        (Some(first), Some(second)) => Some(first.conj(second)),
        _ => None,
    }
}

/// The conjunction of the forward components of two relations, where both have
/// one.
pub fn compose_forward(r_ab: Relation, r_bc: Relation) -> (r: Option<Relation>)
    ensures
        r == forward_composition(r_ab, r_bc),
{
    match r_ab.lte_component() {
        Some(first) => match r_bc.lte_component() {
            Some(second) => Some(first.conj(second)),
            None => None,
        },
        None => None,
    }
}

/// The configuration of a closure that leaves chosen elements out: like
/// `Completion`, but the output carries no relation to an element that the
/// selector chooses.
pub struct Omission<'a, S> {
    pub omit: &'a S,
}

impl<'a, I: Idx, S: Selector<I>> TransistorConfig<I> for Omission<'a, S> {
    open spec fn knows(&self, a: usize) -> bool {
        self.omit.knows(a)
    }

    open spec fn walks(&self, a: usize) -> bool {
        true
    }

    open spec fn pairs(&self, a: usize, c: usize) -> bool {
        true
    }

    open spec fn enters(&self, a: usize, rel: Relation, b: usize) -> bool {
        rel.lte_component() is Some
    }

    open spec fn remaps(&self, a: usize, rel: Relation, b: usize) -> Option<Relation> {
        if self.omit.selects(b) {
            None
        } else {
            rel.lte_component()
        }
    }

    open spec fn composes(
        &self,
        a: usize,
        r_ab: Relation,
        b: usize,
        r_bc: Relation,
        c: usize,
    ) -> Option<Relation> {
        forward_composition(r_ab, r_bc)
    }

    fn enter(&self, a: I, rel: Relation, b: I) -> (r: bool) {
        rel.lte_component().is_some()
    }

    fn remap(&self, a: I, rel: Relation, b: I) -> (r: Option<Relation>) {
        if self.omit.select(b) {
            None
        } else {
            rel.lte_component()
        }
    }

    fn trans(&self, a: I, r_ab: Relation, b: I, r_bc: Relation, c: I) -> (r: Option<Relation>) {
        compose_forward(r_ab, r_bc)
    }

    proof fn lemma_remap_sound(&self, a: usize, rel: Relation, b: usize, p: int, q: int) {
    }

    proof fn lemma_enter_walks(&self, a: usize, rel: Relation, b: usize) {
    }

    proof fn lemma_pairs(&self, a: usize, r_ab: Relation, b: usize, r_bc: Relation, c: usize) {
    }

    proof fn lemma_trans_monotone(
        &self,
        a: usize,
        r_ab: Relation,
        b: usize,
        r_bc: Relation,
        tighter: Relation,
        c: usize,
    ) {
    }

    proof fn lemma_trans_sound(
        &self,
        a: usize,
        r_ab: Relation,
        b: usize,
        r_bc: Relation,
        c: usize,
        p: int,
        q: int,
        t: int,
    ) {
    }
}

/// What is left to do for an element: everything, the second look that closes
/// its cycle, or nothing.
spec fn weight(flag: Flag) -> nat {
    match flag {
        Flag::Unseen => 2,
        Flag::Cycle(_) => 1,
        Flag::Done => 0,
    }
}

/// What is left to do for all elements.
spec fn total_weight(flags: Seq<Flag>) -> nat
    decreases flags.len(),
{
    if flags.len() == 0 {
        0
    } else {
        total_weight(flags.drop_last()) + weight(flags.last())
    }
}

proof fn lemma_total_weight_update(flags: Seq<Flag>, i: int, flag: Flag)
    requires
        0 <= i < flags.len(),
    ensures
        total_weight(flags.update(i, flag)) + weight(flags[i]) == total_weight(flags) + weight(flag),
    decreases flags.len(),
{
    let updated = flags.update(i, flag);
    if i == flags.len() - 1 {
        assert(updated.drop_last() =~= flags.drop_last());
    } else {
        lemma_total_weight_update(flags.drop_last(), i, flag);
        assert(updated.drop_last() =~= flags.drop_last().update(i, flag));
    }
}

/// Whether every element has as much left to do in `after` as in `before`, or
/// less.
spec fn flags_step(before: Seq<Flag>, after: Seq<Flag>) -> bool {
    &&& after.len() == before.len()
    &&& forall|x: int| 0 <= x < before.len() ==> weight(#[trigger] after[x]) <= weight(before[x])
}

proof fn lemma_flags_step_measures(before: Seq<Flag>, after: Seq<Flag>)
    requires
        flags_step(before, after),
    ensures
        total_weight(after) <= total_weight(before),
        count_none(after) <= count_none(before),
    decreases before.len(),
{
    if before.len() > 0 {
        assert(weight(after[after.len() - 1]) <= weight(before[before.len() - 1]));
        assert forall|x: int| 0 <= x < before.drop_last().len() implies weight(
            #[trigger] after.drop_last()[x],
        ) <= weight(before.drop_last()[x]) by {
            assert(weight(after[x]) <= weight(before[x]));
        }
        lemma_flags_step_measures(before.drop_last(), after.drop_last());
    }
}

/// Whether the output holds, for every relation of `a` in the source that the
/// configuration gives the output a relation for, a relation at least as tight.
pub open spec fn emitted<I: Idx, C: TransistorConfig<I>>(
    cfg: &C,
    source: Rows,
    output: Rows,
    a: usize,
) -> bool {
    forall|b: usize|
        a < source.len() && #[trigger] source[a as int].contains_key(b) ==> (match cfg.remaps(
            a,
            source[a as int][b],
            b,
        ) {
            Some(rel) => a == b && rel.permits_eq() || (edge(output, a, b) matches Some(has)
                && has.implies(rel)),
            None => true,
        })
}

proof fn lemma_emitted_stays<I: Idx, C: TransistorConfig<I>>(
    cfg: &C,
    source: Rows,
    before: Rows,
    after: Rows,
    a: usize,
)
    requires
        emitted(cfg, source, before, a),
        tightens(before, after),
    ensures
        emitted(cfg, source, after, a),
{
    assert forall|b: usize|
        a < source.len() && #[trigger] source[a as int].contains_key(b) implies (match cfg.remaps(
        a,
        source[a as int][b],
        b,
    ) {
        Some(rel) => a == b && rel.permits_eq() || (edge(after, a, b) matches Some(has)
            && has.implies(rel)),
        None => true,
    }) by {
        match cfg.remaps(a, source[a as int][b], b) {
            Some(rel) => {
                if !(a == b && rel.permits_eq()) {
                    assert(before[a as int].contains_key(b));
                }
            },
            None => {},
        }
    }
}

/// Whether the walk descends from `a` to `b`: the source relates `a` to `b`, and
/// the configuration follows that relation.
pub open spec fn entered<I: Idx, C: TransistorConfig<I>>(
    cfg: &C,
    source: Rows,
    a: usize,
    b: usize,
) -> bool {
    a < source.len() && source[a as int].contains_key(b) && cfg.enters(a, source[a as int][b], b)
}

/// Whether the walk descends from `w[i]` to `w[i + 1]`.
pub open spec fn descent_step<I: Idx, C: TransistorConfig<I>>(
    cfg: &C,
    source: Rows,
    w: Seq<usize>,
    i: int,
) -> bool {
    entered(cfg, source, w[i], w[i + 1])
}

/// A descent: at least two elements, with the walk descending from each to the
/// next.
pub open spec fn is_descent<I: Idx, C: TransistorConfig<I>>(
    cfg: &C,
    source: Rows,
    w: Seq<usize>,
) -> bool {
    w.len() >= 2 && forall|i: int| 0 <= i < w.len() - 1 ==> #[trigger] descent_step(cfg, source, w, i)
}

/// Whether no descent comes back to the element that it starts from.
pub open spec fn descends_without_cycle<I: Idx, C: TransistorConfig<I>>(
    cfg: &C,
    source: Rows,
) -> bool {
    forall|w: Seq<usize>| #[trigger] is_descent(cfg, source, w) ==> w.first() != w.last()
}

/// Whether a descent leads from `x` to `y`.
spec fn reaches<I: Idx, C: TransistorConfig<I>>(
    cfg: &C,
    source: Rows,
    x: usize,
    y: usize,
) -> bool {
    exists|w: Seq<usize>| #[trigger] is_descent(cfg, source, w) && w.first() == x && w.last() == y
}

/// Whether `w[i]`, `w[i + 1]` is a step of a route before its last: the walk
/// descends, to another element, which is not the end of the route.
pub open spec fn route_step<I: Idx, C: TransistorConfig<I>>(
    cfg: &C,
    source: Rows,
    w: Seq<usize>,
    i: int,
) -> bool {
    entered(cfg, source, w[i], w[i + 1]) && w[i] != w[i + 1] && w[i + 1] != w.last()
}

/// A route: the way along which the output gets a relation from its first
/// element to its last. All steps but the last are steps of a descent; the
/// last is any relation of the source.
pub open spec fn is_route<I: Idx, C: TransistorConfig<I>>(
    cfg: &C,
    source: Rows,
    w: Seq<usize>,
) -> bool {
    &&& w.len() >= 2
    &&& w[w.len() - 2] < source.len()
    &&& source[w[w.len() - 2] as int].contains_key(w.last())
    &&& forall|i: int| 0 <= i < w.len() - 2 ==> #[trigger] route_step(cfg, source, w, i)
}

/// The relation that a route gives from its first element to its last: the
/// remapped relation of its last step, composed step by step towards the
/// start.
pub open spec fn derived<I: Idx, C: TransistorConfig<I>>(
    cfg: &C,
    source: Rows,
    w: Seq<usize>,
) -> Option<Relation>
    decreases w.len(),
{
    if w.len() < 2 {
        None
    } else if w.len() == 2 {
        cfg.remaps(w[0], source[w[0] as int][w[1]], w[1])
    } else {
        match derived(cfg, source, w.subrange(1, w.len() as int)) {
            Some(rel) => cfg.composes(w[0], source[w[0] as int][w[1]], w[1], rel, w.last()),
            None => None,
        }
    }
}

/// Whether the output holds, for a route, a relation from its first element to
/// its last that is at least as tight as the relation that the route gives. A
/// route that gives an element at most itself asks for nothing.
pub open spec fn route_held<I: Idx, C: TransistorConfig<I>>(
    cfg: &C,
    source: Rows,
    output: Rows,
    w: Seq<usize>,
) -> bool {
    derived(cfg, source, w) matches Some(rel) ==> w.first() == w.last() && rel.permits_eq() || (
    edge(output, w.first(), w.last()) matches Some(has) && has.implies(rel))
}

/// Whether the output holds the relation of every route from `a` that goes
/// through `b` first.
spec fn covered<I: Idx, C: TransistorConfig<I>>(
    cfg: &C,
    source: Rows,
    output: Rows,
    a: usize,
    b: usize,
) -> bool {
    forall|w: Seq<usize>|
        #![trigger is_route(cfg, source, w)]
        is_route(cfg, source, w) && w[0] == a && w[1] == b ==> route_held(cfg, source, output, w)
}

/// Whether the output holds the relation of every route from `a`.
pub open spec fn row_complete<I: Idx, C: TransistorConfig<I>>(
    cfg: &C,
    source: Rows,
    output: Rows,
    a: usize,
) -> bool {
    forall|w: Seq<usize>|
        #![trigger is_route(cfg, source, w)]
        is_route(cfg, source, w) && w[0] == a ==> route_held(cfg, source, output, w)
}

/// Whether every element that the walk is on its way through reaches `y`.
spec fn grays_reach<I: Idx, C: TransistorConfig<I>>(
    cfg: &C,
    source: Rows,
    flags: Seq<Flag>,
    y: usize,
) -> bool {
    forall|x: usize|
        x < flags.len() && #[trigger] flags[x as int] is Cycle ==> reaches(cfg, source, x, y)
}

/// Whether the output holds the relation of every route from every element
/// that the walk has finished.
spec fn done_complete<I: Idx, C: TransistorConfig<I>>(
    cfg: &C,
    source: Rows,
    flags: Seq<Flag>,
    output: Rows,
) -> bool {
    forall|x: usize|
        x < flags.len() && #[trigger] flags[x as int] is Done ==> row_complete(
            cfg,
            source,
            output,
            x,
        )
}

/// A relation that is held stays held when the output is tightened.
proof fn lemma_route_held_stays<I: Idx, C: TransistorConfig<I>>(
    cfg: &C,
    source: Rows,
    before: Rows,
    after: Rows,
    w: Seq<usize>,
)
    requires
        route_held(cfg, source, before, w),
        tightens(before, after),
    ensures
        route_held(cfg, source, after, w),
{
    if let Some(rel) = derived(cfg, source, w) {
        if !(w.first() == w.last() && rel.permits_eq()) {
            assert(before[w.first() as int].contains_key(w.last()));
        }
    }
}

/// The routes that are held stay held when the output is tightened.
proof fn lemma_row_complete_stays<I: Idx, C: TransistorConfig<I>>(
    cfg: &C,
    source: Rows,
    before: Rows,
    after: Rows,
    a: usize,
)
    requires
        row_complete(cfg, source, before, a),
        tightens(before, after),
    ensures
        row_complete(cfg, source, after, a),
{
    assert forall|w: Seq<usize>| #![trigger is_route(cfg, source, w)]
        is_route(cfg, source, w) && w[0] == a implies route_held(cfg, source, after, w) by {
        lemma_route_held_stays(cfg, source, before, after, w);
    }
}

/// The routes through `b` that are held stay held when the output is
/// tightened.
proof fn lemma_covered_stays<I: Idx, C: TransistorConfig<I>>(
    cfg: &C,
    source: Rows,
    before: Rows,
    after: Rows,
    a: usize,
    b: usize,
)
    requires
        covered(cfg, source, before, a, b),
        tightens(before, after),
    ensures
        covered(cfg, source, after, a, b),
{
    assert forall|w: Seq<usize>| #![trigger is_route(cfg, source, w)]
        is_route(cfg, source, w) && w[0] == a && w[1] == b implies route_held(
        cfg,
        source,
        after,
        w,
    ) by {
        lemma_route_held_stays(cfg, source, before, after, w);
    }
}

/// What is held for all finished elements stays held when the output is
/// tightened.
proof fn lemma_done_complete_stays<I: Idx, C: TransistorConfig<I>>(
    cfg: &C,
    source: Rows,
    flags: Seq<Flag>,
    before: Rows,
    after: Rows,
)
    requires
        done_complete(cfg, source, flags, before),
        tightens(before, after),
    ensures
        done_complete(cfg, source, flags, after),
{
    assert forall|x: usize| x < flags.len() && #[trigger] flags[x as int] is Done implies row_complete(
        cfg,
        source,
        after,
        x,
    ) by {
        lemma_row_complete_stays(cfg, source, before, after, x);
    }
}

/// A route of more than one step, without its first element, is a route.
proof fn lemma_route_tail<I: Idx, C: TransistorConfig<I>>(cfg: &C, source: Rows, w: Seq<usize>)
    requires
        is_route(cfg, source, w),
        w.len() >= 3,
    ensures
        is_route(cfg, source, w.subrange(1, w.len() as int)),
        w.subrange(1, w.len() as int).first() == w[1],
        w.subrange(1, w.len() as int).last() == w.last(),
        entered(cfg, source, w[0], w[1]),
        w[0] != w[1],
        w[1] != w.last(),
{
    let tail = w.subrange(1, w.len() as int);
    assert(route_step(cfg, source, w, 0));
    assert forall|i: int| 0 <= i < tail.len() - 2 implies #[trigger] route_step(
        cfg,
        source,
        tail,
        i,
    ) by {
        assert(route_step(cfg, source, w, i + 1));
    }
}

/// A descent that goes on by one step.
proof fn lemma_reaches_extend<I: Idx, C: TransistorConfig<I>>(
    cfg: &C,
    source: Rows,
    x: usize,
    a: usize,
    b: usize,
)
    requires
        x == a || reaches(cfg, source, x, a),
        entered(cfg, source, a, b),
    ensures
        reaches(cfg, source, x, b),
{
    if x == a {
        let w = seq![a, b];
        assert(descent_step(cfg, source, w, 0));
        assert(is_descent(cfg, source, w));
    } else {
        let w = choose|w: Seq<usize>| #[trigger]
            is_descent(cfg, source, w) && w.first() == x && w.last() == a;
        let longer = w.push(b);
        assert forall|i: int| 0 <= i < longer.len() - 1 implies #[trigger] descent_step(
            cfg,
            source,
            longer,
            i,
        ) by {
            if i < w.len() - 1 {
                assert(descent_step(cfg, source, w, i));
            }
        }
        assert(is_descent(cfg, source, longer));
    }
}

/// The routes from `a` through a child `b` are held once the relation from
/// `a` to `b` has been composed with every relation that the output held for
/// `b`, all routes from `b` being held.
proof fn lemma_covers_child<I: Idx, C: TransistorConfig<I>>(
    cfg: &C,
    source: Rows,
    child_rows: Rows,
    output: Rows,
    a: usize,
    b: usize,
    others: Seq<(usize, Relation)>,
)
    requires
        row_complete(cfg, source, child_rows, b),
        a < source.len(),
        source[a as int].contains_key(b),
        covered_direct(cfg, source, output, a, b),
        b < child_rows.len() ==> forall|c: usize| #[trigger]
            child_rows[b as int].contains_key(c) ==> exists|m: int|
                0 <= m < others.len() && #[trigger] others[m] == (c, child_rows[b as int][c]),
        b < child_rows.len() ==> forall|m: int|
            0 <= m < others.len() ==> composed_held(
                cfg,
                source,
                output,
                a,
                b,
                (#[trigger] others[m]).0,
                others[m].1,
            ),
    ensures
        covered(cfg, source, output, a, b),
{
    assert forall|w: Seq<usize>| #![trigger is_route(cfg, source, w)]
        is_route(cfg, source, w) && w[0] == a && w[1] == b implies route_held(
        cfg,
        source,
        output,
        w,
    ) by {
        if w.len() == 2 {
            assert(w =~= seq![a, b]);
        } else if let Some(rel) = derived(cfg, source, w) {
            lemma_route_tail(cfg, source, w);
            let tail = w.subrange(1, w.len() as int);
            let c = w.last();
            let through = derived(cfg, source, tail)->0;
            assert(route_held(cfg, source, child_rows, tail));
            assert(child_rows[b as int].contains_key(c));
            let stored = child_rows[b as int][c];
            let m = choose|m: int| 0 <= m < others.len() && #[trigger] others[m] == (c, stored);
            cfg.lemma_trans_monotone(a, source[a as int][b], b, through, stored, c);
            assert(composed_held(cfg, source, output, a, b, others[m].0, others[m].1));
        }
    }
}

/// The number of outcomes that what is stored for a pair still permits: four
/// where nothing is stored.
spec fn room(stored: Option<Relation>) -> int {
    match stored {
        None => 4,
        Some(rel) => (if rel.permits_lt() {
            1int
        } else {
            0int
        }) + (if rel.permits_eq() {
            1int
        } else {
            0int
        }) + (if rel.permits_gt() {
            1int
        } else {
            0int
        }),
    }
}

/// The room of the pair that stands at the place `i` where the pairs of `n`
/// elements are counted row by row.
spec fn pair_room(rows: Rows, n: int, i: int) -> int {
    room(edge(rows, (i / n) as usize, (i % n) as usize))
}

/// The room of the first `upto` pairs together.
spec fn slack(rows: Rows, n: int, upto: int) -> int
    decreases upto,
{
    if upto <= 0 {
        0
    } else {
        slack(rows, n, upto - 1) + pair_room(rows, n, upto - 1)
    }
}

proof fn lemma_slack_order(before: Rows, after: Rows, n: int, upto: int)
    requires
        forall|i: int| 0 <= i < upto ==> pair_room(after, n, i) <= #[trigger] pair_room(before, n, i),
    ensures
        slack(after, n, upto) <= slack(before, n, upto),
        0 <= slack(after, n, upto),
    decreases upto,
{
    if upto > 0 {
        lemma_slack_order(before, after, n, upto - 1);
        assert(pair_room(after, n, upto - 1) <= pair_room(before, n, upto - 1));
    }
}

proof fn lemma_slack_drops(before: Rows, after: Rows, n: int, upto: int, at: int)
    requires
        forall|i: int| 0 <= i < upto ==> pair_room(after, n, i) <= #[trigger] pair_room(before, n, i),
        0 <= at < upto,
        pair_room(after, n, at) < pair_room(before, n, at),
    ensures
        slack(after, n, upto) < slack(before, n, upto),
    decreases upto,
{
    if at == upto - 1 {
        lemma_slack_order(before, after, n, upto - 1);
    } else {
        lemma_slack_drops(before, after, n, upto - 1, at);
        assert(pair_room(after, n, upto - 1) <= pair_room(before, n, upto - 1));
    }
}

/// A relation that is at least as tight leaves no more room.
proof fn lemma_room_order(tighter: Relation, rel: Relation)
    requires
        tighter.implies(rel),
    ensures
        room(Some(tighter)) <= room(Some(rel)),
        tighter != rel ==> room(Some(tighter)) < room(Some(rel)),
        room(Some(rel)) <= 3,
{
    crate::order::relation::lemma_conj_is_intersection(tighter, rel);
}

/// Conjoining a relation that was not held takes room away.
proof fn lemma_room_conj(kept: Relation, rel: Relation)
    ensures
        room(Some(kept.conj(rel))) <= room(Some(kept)),
        !kept.implies(rel) ==> room(Some(kept.conj(rel))) < room(Some(kept)),
{
    crate::order::relation::lemma_conj_is_intersection(kept, rel);
}

/// Tightening leaves no more room for any pair.
proof fn lemma_tightens_room(before: Rows, after: Rows, n: int, upto: int)
    requires
        tightens(before, after),
    ensures
        forall|i: int| 0 <= i < upto ==> pair_room(after, n, i) <= #[trigger] pair_room(before, n, i),
{
    assert forall|i: int| 0 <= i < upto implies pair_room(after, n, i) <= #[trigger] pair_room(
        before,
        n,
        i,
    ) by {
        let a = (i / n) as usize;
        let c = (i % n) as usize;
        match edge(before, a, c) {
            Some(rel) => {
                assert(before[a as int].contains_key(c));
                assert(after[a as int].contains_key(c));
                lemma_room_order(after[a as int][c], rel);
            },
            None => {
                if let Some(rel) = edge(after, a, c) {
                    lemma_room_order(rel, rel);
                }
            },
        }
    }
}

/// The place of a pair where the pairs of `n` elements are counted row by row.
proof fn lemma_pair_place(a: int, c: int, n: int)
    requires
        0 <= a < n,
        0 <= c < n,
    ensures
        0 <= a * n + c < n * n,
        (a * n + c) / n == a,
        (a * n + c) % n == c,
{
    assert(0 <= a * n + c < n * n) by (nonlinear_arith)
        requires
            0 <= a < n,
            0 <= c < n,
    ;
    assert((a * n + c) / n == a && (a * n + c) % n == c) by (nonlinear_arith)
        requires
            0 <= a,
            0 <= c < n,
    ;
}

/// Recording a relation that was not held takes room away, and never gives
/// any.
proof fn lemma_related_slack(rows: Rows, a: usize, c: usize, rel: Relation, n: int)
    requires
        rows_wf(rows),
        a < n,
        c < n,
        n <= usize::MAX,
        !(a == c && rel.permits_eq()),
        !(edge(rows, a, c) matches Some(kept) && kept.implies(rel)),
    ensures
        slack(related(rows, a, c, rel), n, n * n) < slack(rows, n, n * n),
{
    let after = related(rows, a, c, rel);
    lemma_related_tightens(rows, a, c, rel);
    lemma_tightens_room(rows, after, n, n * n);
    lemma_pair_place(a as int, c as int, n);
    let at = a * n + c;
    crate::order::lemma_related_edges(rows, a, c, rel);
    assert(edge(after, a, c) is Some);
    match edge(rows, a, c) {
        Some(kept) => {
            lemma_room_conj(kept, rel);
            if a == c {
                lemma_room_conj(kept.conj(rel), rel.rev());
            }
        },
        None => {
            lemma_room_order(edge(after, a, c)->0, edge(after, a, c)->0);
        },
    }
    assert(pair_room(after, n, at) < pair_room(rows, n, at));
    lemma_slack_drops(rows, after, n, n * n, at);
}

/// Whether the output holds the relation of the route of the one step from `a`
/// to `b`.
spec fn covered_direct<I: Idx, C: TransistorConfig<I>>(
    cfg: &C,
    source: Rows,
    output: Rows,
    a: usize,
    b: usize,
) -> bool {
    route_held(cfg, source, output, seq![a, b])
}

/// Whether the output holds what the relation from `a` to `b` composes to with
/// a relation `rel` from `b` to `c`.
spec fn composed_held<I: Idx, C: TransistorConfig<I>>(
    cfg: &C,
    source: Rows,
    output: Rows,
    a: usize,
    b: usize,
    c: usize,
    rel: Relation,
) -> bool {
    b != c ==> (match cfg.composes(a, source[a as int][b], b, rel, c) {
        Some(to) => a == c && to.permits_eq() || (edge(output, a, c) matches Some(has)
            && has.implies(to)),
        None => true,
    })
}

/// What is composed and held stays held when the output is tightened.
proof fn lemma_composed_held_stays<I: Idx, C: TransistorConfig<I>>(
    cfg: &C,
    source: Rows,
    before: Rows,
    after: Rows,
    a: usize,
    b: usize,
    c: usize,
    rel: Relation,
)
    requires
        composed_held(cfg, source, before, a, b, c, rel),
        tightens(before, after),
    ensures
        composed_held(cfg, source, after, a, b, c, rel),
{
    if b != c {
        if let Some(to) = cfg.composes(a, source[a as int][b], b, rel, c) {
            if !(a == c && to.permits_eq()) {
                assert(before[a as int].contains_key(c));
            }
        }
    }
}

/// The routes from `a` through `b` are held where the walk does not descend
/// from `a` to `b`, or `b` is `a` itself: the one step is then the only route.
proof fn lemma_covers_leaf<I: Idx, C: TransistorConfig<I>>(
    cfg: &C,
    source: Rows,
    output: Rows,
    a: usize,
    b: usize,
)
    requires
        covered_direct(cfg, source, output, a, b),
        a == b || !entered(cfg, source, a, b),
    ensures
        covered(cfg, source, output, a, b),
{
    assert forall|w: Seq<usize>| #![trigger is_route(cfg, source, w)]
        is_route(cfg, source, w) && w[0] == a && w[1] == b implies route_held(
        cfg,
        source,
        output,
        w,
    ) by {
        if w.len() == 2 {
            assert(w =~= seq![a, b]);
        } else {
            assert(route_step(cfg, source, w, 0));
        }
    }
}

/// Whether one relation of `a` in the source is settled: the output holds what
/// the relation is remapped to, and, where the walk descends along it to
/// another element, that element has been seen and the output holds what the
/// relation composes to with every relation that the output holds for it.
spec fn step_settled<I: Idx, C: TransistorConfig<I>>(
    cfg: &C,
    source: Rows,
    flags: Seq<Flag>,
    output: Rows,
    a: usize,
    b: usize,
) -> bool {
    &&& covered_direct(cfg, source, output, a, b)
    &&& a != b && cfg.enters(a, source[a as int][b], b) ==> {
        &&& b < flags.len() && !(flags[b as int] is Unseen)
        &&& forall|c: usize|
            b < output.len() && #[trigger] output[b as int].contains_key(c) ==> composed_held(
                cfg,
                source,
                output,
                a,
                b,
                c,
                output[b as int][c],
            )
    }
}

/// Whether every relation of `a` in the source is settled.
spec fn row_settled<I: Idx, C: TransistorConfig<I>>(
    cfg: &C,
    source: Rows,
    flags: Seq<Flag>,
    output: Rows,
    a: usize,
) -> bool {
    forall|b: usize|
        a < source.len() && #[trigger] source[a as int].contains_key(b) ==> step_settled(
            cfg,
            source,
            flags,
            output,
            a,
            b,
        )
}

/// Whether the row of every element that has been seen is settled.
spec fn all_settled<I: Idx, C: TransistorConfig<I>>(
    cfg: &C,
    source: Rows,
    flags: Seq<Flag>,
    output: Rows,
) -> bool {
    forall|x: usize|
        x < flags.len() && !(#[trigger] flags[x as int] is Unseen) ==> row_settled(
            cfg,
            source,
            flags,
            output,
            x,
        )
}

/// Where all rows are settled, the output holds every route from an element
/// that has been seen.
proof fn lemma_settled_route<I: Idx, C: TransistorConfig<I>>(
    cfg: &C,
    source: Rows,
    flags: Seq<Flag>,
    output: Rows,
    w: Seq<usize>,
)
    requires
        all_settled(cfg, source, flags, output),
        is_route(cfg, source, w),
        w[0] < flags.len(),
        !(flags[w[0] as int] is Unseen),
    ensures
        route_held(cfg, source, output, w),
    decreases w.len(),
{
    let a = w[0];
    let b = w[1];
    assert(row_settled(cfg, source, flags, output, a));
    if w.len() == 2 {
        assert(source[a as int].contains_key(b));
        assert(step_settled(cfg, source, flags, output, a, b));
        assert(w =~= seq![a, b]);
    } else if let Some(rel) = derived(cfg, source, w) {
        lemma_route_tail(cfg, source, w);
        let tail = w.subrange(1, w.len() as int);
        let c = w.last();
        assert(source[a as int].contains_key(b));
        assert(step_settled(cfg, source, flags, output, a, b));
        lemma_settled_route(cfg, source, flags, output, tail);
        let through = derived(cfg, source, tail)->0;
        assert(route_held(cfg, source, output, tail));
        assert(output[b as int].contains_key(c));
        let stored = output[b as int][c];
        cfg.lemma_trans_monotone(a, source[a as int][b], b, through, stored, c);
        assert(composed_held(cfg, source, output, a, b, c, stored));
        let to = cfg.composes(a, source[a as int][b], b, stored, c)->0;
        if !(a == c && to.permits_eq()) {
            let kept = edge(output, a, c)->0;
            crate::order::relation::lemma_conj_is_intersection(kept, to);
            crate::order::relation::lemma_conj_is_intersection(to, rel);
            crate::order::relation::lemma_conj_is_intersection(kept, rel);
        } else {
            crate::order::relation::lemma_conj_is_intersection(to, rel);
        }
    }
}

/// All routes from an element are held once the routes through each of its
/// relations in the source are.
proof fn lemma_row_complete_from_covered<I: Idx, C: TransistorConfig<I>>(
    cfg: &C,
    source: Rows,
    output: Rows,
    a: usize,
)
    requires
        forall|b: usize|
            a < source.len() && #[trigger] source[a as int].contains_key(b) ==> covered(
                cfg,
                source,
                output,
                a,
                b,
            ),
    ensures
        row_complete(cfg, source, output, a),
{
    assert forall|w: Seq<usize>| #![trigger is_route(cfg, source, w)]
        is_route(cfg, source, w) && w[0] == a implies route_held(cfg, source, output, w) by {
        if w.len() > 2 {
            assert(route_step(cfg, source, w, 0));
        }
        assert(source[a as int].contains_key(w[1]));
        assert(covered(cfg, source, output, a, w[1]));
    }
}

/// Whether the output relates only pairs that the configuration lets it
/// relate.
pub open spec fn pairs_ok<I: Idx, C: TransistorConfig<I>>(cfg: &C, output: Rows) -> bool {
    forall|p: usize, q: usize|
        p < output.len() && #[trigger] output[p as int].contains_key(q) ==> cfg.pairs(p, q)
}

/// Recording a relation for a pair that the output may relate keeps the output
/// to such pairs.
proof fn lemma_related_pairs<I: Idx, C: TransistorConfig<I>>(
    cfg: &C,
    output: Rows,
    a: usize,
    c: usize,
    rel: Relation,
)
    requires
        pairs_ok(cfg, output),
        cfg.pairs(a, c),
        cfg.pairs(c, a),
        a < usize::MAX,
        c < usize::MAX,
    ensures
        pairs_ok(cfg, related(output, a, c, rel)),
{
    let after = related(output, a, c, rel);
    assert forall|p: usize, q: usize|
        p < after.len() && #[trigger] after[p as int].contains_key(q) implies cfg.pairs(p, q) by {
        if p < output.len() && output[p as int].contains_key(q) {
        }
    }
}

/// A fold over an order that derives another order from it.
///
/// One walk over the source visits each element at most twice. A visit gives
/// the output the remapped relations of the element; where the walk descends to
/// another element, it composes the relation to that element with what the
/// output holds for it.
pub struct Transistor<'a, I: Idx, C: TransistorConfig<I>> {
    source: &'a Order<I>,
    output: Order<I>,
    cfg: C,
    flags: Vec<Flag>,
}

impl<'a, I: Idx, C: TransistorConfig<I>> Transistor<'a, I, C> {
    /// The validity of a transistor that is at rest: its output is an order, and
    /// says nothing that the source does not imply; every element that the walk
    /// has seen has its remapped relations in the output.
    pub closed spec fn wf(&self) -> bool {
        &&& self.inv()
        &&& forall|x: usize|
            x < self.flags@.len() && !(#[trigger] self.flags@[x as int] is Unseen) ==> emitted(
                &self.cfg,
                self.source@,
                self.output@,
                x,
            )
        &&& descends_without_cycle(&self.cfg, self.source@) ==> {
            &&& forall|x: usize|
                x < self.flags@.len() ==> !(#[trigger] self.flags@[x as int] is Cycle)
            &&& done_complete(&self.cfg, self.source@, self.flags@, self.output@)
        }
        &&& all_settled(&self.cfg, self.source@, self.flags@, self.output@)
    }

    /// What a visit starts from where no descent comes back to its start: every
    /// element that the walk is on its way through reaches the element that is
    /// visited, and the routes from the finished elements are held.
    spec fn descending(&self, a: usize, depth: Option<usize>) -> bool {
        &&& depth is Some
        &&& descends_without_cycle(&self.cfg, self.source@)
        &&& grays_reach(&self.cfg, self.source@, self.flags@, a)
        &&& done_complete(&self.cfg, self.source@, self.flags@, self.output@)
    }

    spec fn inv(&self) -> bool {
        &&& self.source.wf()
        &&& self.output.wf()
        &&& self.flags@.len() == self.source@.len()
        &&& self.source@.len() <= usize::MAX
        &&& self.output@.len() <= self.source@.len()
        &&& refines(self.source@, self.output@)
        &&& pairs_ok(&self.cfg, self.output@)
        &&& forall|x: usize| x < self.source@.len() ==> self.cfg.knows(x)
        &&& forall|x: usize|
            x < self.flags@.len() && !(#[trigger] self.flags@[x as int] is Unseen)
                ==> self.cfg.walks(x)
    }

    /// The order that the transistor reads.
    pub closed spec fn spec_source(&self) -> Rows {
        self.source@
    }

    /// The order that the transistor has derived so far.
    pub closed spec fn spec_output(&self) -> Rows {
        self.output@
    }

    /// The configuration.
    pub closed spec fn spec_cfg(&self) -> C {
        self.cfg
    }

    /// Whether the walk has seen the element at position `a`.
    pub closed spec fn seen(&self, a: usize) -> bool {
        a < self.flags@.len() && !(self.flags@[a as int] is Unseen)
    }

    /// A transistor over `source` that has visited nothing yet.
    pub fn new(source: &'a Order<I>, cfg: C) -> (r: Self)
        requires
            source.wf(),
            forall|x: usize| x < source@.len() ==> cfg.knows(x),
        ensures
            r.wf(),
            r.spec_source() == source@,
            r.spec_cfg() == cfg,
            r.spec_output() == Seq::<Map<usize, Relation>>::empty(),
            forall|a: usize| !r.seen(a),
    {
        let n = source.len();
        let mut flags: Vec<Flag> = Vec::new();
        let mut i: usize = 0;
        while i < n
            invariant
                i <= n,
                flags@.len() == i,
                forall|j: int| 0 <= j < i ==> flags@[j] is Unseen,
            decreases n - i,
        {
            flags.push(Flag::Unseen);
            i += 1;
        }
        Transistor { source, output: Order::new(), cfg, flags }
    }

    /// What the properties of a transistor at rest say in terms of its source
    /// and output.
    pub proof fn lemma_wf(&self)
        requires
            self.wf(),
        ensures
            rows_wf(self.spec_source()),
            rows_wf(self.spec_output()),
            self.spec_output().len() <= self.spec_source().len(),
            refines(self.spec_source(), self.spec_output()),
            pairs_ok(&self.spec_cfg(), self.spec_output()),
            forall|x: usize|
                self.seen(x) ==> emitted(
                    &self.spec_cfg(),
                    self.spec_source(),
                    self.spec_output(),
                    x,
                ),
            forall|x: usize| self.seen(x) ==> x < self.spec_source().len(),
            descends_without_cycle(&self.spec_cfg(), self.spec_source()) ==> forall|x: usize|
                self.seen(x) ==> row_complete(
                    &self.spec_cfg(),
                    self.spec_source(),
                    self.spec_output(),
                    x,
                ),
            forall|x: usize|
                self.seen(x) ==> #[trigger] row_complete(
                    &self.spec_cfg(),
                    self.spec_source(),
                    self.spec_output(),
                    x,
                ),
            forall|x: usize, y: usize|
                self.seen(x) && x != y && #[trigger] entered(
                    &self.spec_cfg(),
                    self.spec_source(),
                    x,
                    y,
                ) ==> self.seen(y),
    {
        assert forall|x: usize| self.seen(x) implies #[trigger] row_complete(
            &self.cfg,
            self.source@,
            self.output@,
            x,
        ) by {
            assert forall|w: Seq<usize>| #![trigger is_route(&self.cfg, self.source@, w)]
                is_route(&self.cfg, self.source@, w) && w[0] == x implies route_held(
                &self.cfg,
                self.source@,
                self.output@,
                w,
            ) by {
                lemma_settled_route(&self.cfg, self.source@, self.flags@, self.output@, w);
            }
        }
        assert forall|x: usize, y: usize|
            self.seen(x) && x != y && #[trigger] entered(
                &self.cfg,
                self.source@,
                x,
                y,
            ) implies self.seen(y) by {
            assert(row_settled(&self.cfg, self.source@, self.flags@, self.output@, x));
            assert(step_settled(&self.cfg, self.source@, self.flags@, self.output@, x, y));
        }
        if descends_without_cycle(&self.cfg, self.source@) {
            assert forall|x: usize| self.seen(x) implies row_complete(
                &self.cfg,
                self.source@,
                self.output@,
                x,
            ) by {
                assert(!(self.flags@[x as int] is Cycle));
                assert(self.flags@[x as int] is Done);
            }
        }
    }

    /// Visits every element and returns the output, which holds every route
    /// from every element.
    pub fn finish(self) -> (r: Order<I>)
        requires
            self.wf(),
            forall|x: usize| x < self.spec_source().len() ==> self.spec_cfg().walks(x),
        ensures
            r.wf(),
            pairs_ok(&self.spec_cfg(), r@),
            r@.len() <= self.spec_source().len(),
            refines(self.spec_source(), r@),
            tightens(self.spec_output(), r@),
            forall|x: usize|
                x < self.spec_source().len() ==> emitted(
                    &self.spec_cfg(),
                    self.spec_source(),
                    r@,
                    x,
                ),
            descends_without_cycle(&self.spec_cfg(), self.spec_source()) ==> forall|x: usize|
                x < self.spec_source().len() ==> row_complete(
                    &self.spec_cfg(),
                    self.spec_source(),
                    r@,
                    x,
                ),
            forall|x: usize|
                x < self.spec_source().len() ==> #[trigger] row_complete(
                    &self.spec_cfg(),
                    self.spec_source(),
                    r@,
                    x,
                ),
    {
        let mut this = self;
        let everything = Everything;
        assert forall|x: usize| x < this.spec_source().len() implies Selector::<I>::knows(
            &everything,
            x,
        ) by {}
        this.visit_where(&everything);
        proof {
            this.lemma_wf();
            assert forall|x: usize| x < this.spec_source().len() implies emitted(
                &this.spec_cfg(),
                this.spec_source(),
                this.spec_output(),
                x,
            ) by {
                assert(Selector::<I>::selects(&everything, x));
                assert(this.seen(x));
            }
            if descends_without_cycle(&this.spec_cfg(), this.spec_source()) {
                assert forall|x: usize| x < this.spec_source().len() implies row_complete(
                    &this.spec_cfg(),
                    this.spec_source(),
                    this.spec_output(),
                    x,
                ) by {
                    assert(Selector::<I>::selects(&everything, x));
                    assert(this.seen(x));
                }
            }
            assert forall|x: usize| x < this.spec_source().len() implies #[trigger] row_complete(
                &this.spec_cfg(),
                this.spec_source(),
                this.spec_output(),
                x,
            ) by {
                assert(Selector::<I>::selects(&everything, x));
                assert(this.seen(x));
            }
        }
        this.output
    }

    /// Visits every element that `visit` chooses and returns the output.
    pub fn finish_where<S: Selector<I>>(self, visit: &S) -> (r: Order<I>)
        requires
            self.wf(),
            forall|x: usize| x < self.spec_source().len() ==> visit.knows(x),
            forall|x: usize|
                x < self.spec_source().len() && visit.selects(x) ==> self.spec_cfg().walks(x),
        ensures
            r.wf(),
            pairs_ok(&self.spec_cfg(), r@),
            r@.len() <= self.spec_source().len(),
            refines(self.spec_source(), r@),
            tightens(self.spec_output(), r@),
            forall|x: usize|
                x < self.spec_source().len() && (visit.selects(x) || self.seen(x)) ==> emitted(
                    &self.spec_cfg(),
                    self.spec_source(),
                    r@,
                    x,
                ),
            descends_without_cycle(&self.spec_cfg(), self.spec_source()) ==> forall|x: usize|
                x < self.spec_source().len() && (visit.selects(x) || self.seen(x))
                    ==> row_complete(&self.spec_cfg(), self.spec_source(), r@, x),
            forall|x: usize|
                x < self.spec_source().len() && (visit.selects(x) || self.seen(x))
                    ==> #[trigger] row_complete(&self.spec_cfg(), self.spec_source(), r@, x),
    {
        let mut this = self;
        this.visit_where(visit);
        proof {
            this.lemma_wf();
            assert forall|x: usize|
                x < this.spec_source().len() && (visit.selects(x) || self.seen(x))
                    implies #[trigger] row_complete(
                &this.spec_cfg(),
                this.spec_source(),
                this.spec_output(),
                x,
            ) by {
                assert(this.seen(x));
            }
            assert forall|x: usize|
                x < this.spec_source().len() && (visit.selects(x) || self.seen(x)) implies emitted(
                &this.spec_cfg(),
                this.spec_source(),
                this.spec_output(),
                x,
            ) by {
                assert(this.seen(x));
            }
        }
        this.output
    }

    /// Visits every element that `visit` chooses.
    pub fn visit_where<S: Selector<I>>(&mut self, visit: &S)
        requires
            old(self).wf(),
            forall|x: usize| x < old(self).spec_source().len() ==> visit.knows(x),
            forall|x: usize|
                x < old(self).spec_source().len() && visit.selects(x) ==> old(self).spec_cfg().walks(x),
        ensures
            final(self).wf(),
            final(self).spec_source() == old(self).spec_source(),
            final(self).spec_cfg() == old(self).spec_cfg(),
            tightens(old(self).spec_output(), final(self).spec_output()),
            forall|x: usize| old(self).seen(x) ==> final(self).seen(x),
            forall|x: usize|
                x < final(self).spec_source().len() && visit.selects(x) ==> final(self).seen(x),
            forall|x: usize|
                final(self).seen(x) ==> #[trigger] row_complete(
                    &final(self).spec_cfg(),
                    final(self).spec_source(),
                    final(self).spec_output(),
                    x,
                ),
            forall|x: usize, y: usize|
                final(self).seen(x) && x != y && #[trigger] entered(
                    &final(self).spec_cfg(),
                    final(self).spec_source(),
                    x,
                    y,
                ) ==> final(self).seen(y),
    {
        let n = self.source.len();
        let mut a: usize = 0;
        while a < n
            invariant
                a <= n,
                n == self.spec_source().len(),
                self.wf(),
                self.spec_source() == old(self).spec_source(),
                self.spec_cfg() == old(self).spec_cfg(),
                tightens(old(self).spec_output(), self.spec_output()),
                forall|x: usize| x < n ==> visit.knows(x),
                forall|x: usize| x < n && visit.selects(x) ==> self.spec_cfg().walks(x),
                forall|x: usize| old(self).seen(x) ==> self.seen(x),
                forall|x: usize| x < a && visit.selects(x) ==> self.seen(x),
            decreases n - a,
        {
            let key = I::from_usize(a);
            if visit.select(key) {
                let ghost before = self.spec_output();
                self.visit(key);
                proof {
                    lemma_tightens_transitive(old(self).spec_output(), before, self.spec_output());
                }
            }
            a += 1;
        }
        proof {
            self.lemma_wf();
        }
    }

    /// Visits `a`, and before it every element that the walk reaches from it;
    /// then settles the rows of all elements that have been seen. Afterwards
    /// the walk has seen every element that it descends to from an element
    /// that it has seen, and the output holds every route from each of them.
    pub fn visit(&mut self, a: I)
        requires
            old(self).wf(),
            a.index() < old(self).spec_source().len() ==> old(self).spec_cfg().walks(a.index()),
        ensures
            final(self).wf(),
            final(self).spec_source() == old(self).spec_source(),
            final(self).spec_cfg() == old(self).spec_cfg(),
            tightens(old(self).spec_output(), final(self).spec_output()),
            forall|x: usize| old(self).seen(x) ==> final(self).seen(x),
            a.index() < final(self).spec_source().len() ==> final(self).seen(a.index()),
            forall|x: usize|
                final(self).seen(x) ==> #[trigger] row_complete(
                    &final(self).spec_cfg(),
                    final(self).spec_source(),
                    final(self).spec_output(),
                    x,
                ),
            forall|x: usize, y: usize|
                final(self).seen(x) && x != y && #[trigger] entered(
                    &final(self).spec_cfg(),
                    final(self).spec_source(),
                    x,
                    y,
                ) ==> final(self).seen(y),
    {
        let ghost flags0 = self.flags@;
        let ghost out0 = self.output@;
        proof {
            lemma_count_none_bound(self.flags@);
            if descends_without_cycle(&self.cfg, self.source@) {
                assert(self.descending(a.index(), Some(0usize)));
            }
        }
        self.visit_inner(a.to_usize(), Some(0));
        let ghost flags1 = self.flags@;
        let ghost out1 = self.output@;
        self.settle();
        proof {
            lemma_tightens_transitive(out0, out1, self.output@);
            assert forall|x: usize| x < self.flags@.len() implies weight(
                #[trigger] self.flags@[x as int],
            ) <= weight(flags0[x as int]) by {
                assert(weight(self.flags@[x as int]) <= weight(flags1[x as int]));
                assert(weight(flags1[x as int]) <= weight(flags0[x as int]));
            }
            assert forall|x: usize|
                x < self.flags@.len() && !(#[trigger] self.flags@[x as int] is Unseen) implies emitted(
                &self.cfg,
                self.source@,
                self.output@,
                x,
            ) by {
                assert(row_settled(&self.cfg, self.source@, self.flags@, self.output@, x));
                assert forall|b: usize|
                    x < self.source@.len() && #[trigger] self.source@[x as int].contains_key(
                        b,
                    ) implies (match self.cfg.remaps(x, self.source@[x as int][b], b) {
                    Some(rel) => x == b && rel.permits_eq() || (edge(
                        self.output@,
                        x,
                        b,
                    ) matches Some(kept) && kept.implies(rel)),
                    None => true,
                }) by {
                    assert(step_settled(&self.cfg, self.source@, self.flags@, self.output@, x, b));
                    assert(derived(&self.cfg, self.source@, seq![x, b]) == self.cfg.remaps(
                        x,
                        self.source@[x as int][b],
                        b,
                    ));
                }
            }
            assert forall|x: usize| old(self).seen(x) implies self.seen(x) by {
                assert(weight(self.flags@[x as int]) <= weight(flags0[x as int]));
            }
            if a.index() < self.flags@.len() {
                assert(weight(self.flags@[a.index() as int]) <= weight(flags1[a.index() as int]));
            }
            assert forall|x: usize|
                x < self.flags@.len() && #[trigger] self.flags@[x as int] is Done implies row_complete(
                &self.cfg,
                self.source@,
                self.output@,
                x,
            ) by {
                assert forall|w: Seq<usize>| #![trigger is_route(&self.cfg, self.source@, w)]
                    is_route(&self.cfg, self.source@, w) && w[0] == x implies route_held(
                    &self.cfg,
                    self.source@,
                    self.output@,
                    w,
                ) by {
                    lemma_settled_route(&self.cfg, self.source@, self.flags@, self.output@, w);
                }
            }
            if descends_without_cycle(&self.cfg, self.source@) {
                assert forall|x: usize| x < self.flags@.len() implies !(
                #[trigger] self.flags@[x as int] is Cycle) by {
                    if self.flags@[x as int] is Cycle {
                        assert(flags1[x as int] is Cycle);
                        assert(flags0[x as int] is Cycle);
                    }
                }
            }
            self.lemma_wf();
        }
    }

    /// Settles the rows of all elements that have been seen, over and over
    /// until nothing changes: the output then holds every route from every
    /// such element, whether or not the walk comes back to its start.
    fn settle(&mut self)
        requires
            old(self).inv(),
        ensures
            final(self).inv(),
            final(self).source == old(self).source,
            final(self).cfg == old(self).cfg,
            tightens(old(self).output@, final(self).output@),
            flags_step(old(self).flags@, final(self).flags@),
            forall|x: int|
                0 <= x < old(self).flags@.len() && #[trigger] final(self).flags@[x] is Cycle ==> old(self).flags@[x] is Cycle,
            all_settled(&final(self).cfg, final(self).source@, final(self).flags@, final(self).output@),
    {
        let ghost source = self.source@;
        let ghost flags0 = self.flags@;
        let ghost out0 = self.output@;
        let n = self.source.len();
        let mut done = false;
        proof {
            lemma_tightens_reflexive(out0);
            lemma_slack_order(self.output@, self.output@, n as int, (n as int) * (n as int));
        }
        while !done
            invariant
                self.inv(),
                self.source == old(self).source,
                self.cfg == old(self).cfg,
                source == self.source@,
                n == source.len(),
                flags0 == old(self).flags@,
                out0 == old(self).output@,
                tightens(out0, self.output@),
                flags_step(flags0, self.flags@),
                forall|x: int|
                    0 <= x < flags0.len() && #[trigger] self.flags@[x] is Cycle ==> flags0[x] is Cycle,
                done ==> all_settled(&self.cfg, source, self.flags@, self.output@),
                0 <= self.energy(),
            decreases self.energy(), (if done { 0int } else { 1int }),
        {
            let ghost out_start = self.output@;
            let ghost flags_start = self.flags@;
            let ghost energy_start = self.energy();
            let mut changed = false;
            let mut a: usize = 0;
            proof {
                lemma_tightens_reflexive(out_start);
            }
            while a < n
                invariant
                    self.inv(),
                    self.source == old(self).source,
                    self.cfg == old(self).cfg,
                    source == self.source@,
                    n == source.len(),
                    a <= n,
                    flags0 == old(self).flags@,
                    out0 == old(self).output@,
                    out_start.len() <= n,
                    flags_start.len() == n,
                    tightens(out0, self.output@),
                    tightens(out_start, self.output@),
                    flags_step(flags0, self.flags@),
                    flags_step(flags_start, self.flags@),
                    forall|x: int|
                        0 <= x < flags0.len() && #[trigger] self.flags@[x] is Cycle
                            ==> flags0[x] is Cycle,
                    self.energy() <= energy_start,
                    changed ==> self.energy() < energy_start,
                    !changed ==> self.output@ == out_start && self.flags@ == flags_start,
                    !changed ==> forall|x: usize|
                        x < a && !(#[trigger] flags_start[x as int] is Unseen) ==> row_settled(
                            &self.cfg,
                            source,
                            flags_start,
                            out_start,
                            x,
                        ),
                decreases n - a,
            {
                let seen = match self.flags[a] {
                    Flag::Unseen => false,
                    _ => true,
                };
                if seen {
                    let ghost out_round = self.output@;
                    let ghost flags_round = self.flags@;
                    if self.settle_row(a) {
                        changed = true;
                    }
                    proof {
                        lemma_tightens_transitive(out0, out_round, self.output@);
                        lemma_tightens_transitive(out_start, out_round, self.output@);
                        assert forall|x: int| 0 <= x < flags0.len() implies weight(
                            #[trigger] self.flags@[x],
                        ) <= weight(flags0[x]) && weight(self.flags@[x]) <= weight(flags_start[x]) by {
                            assert(weight(self.flags@[x]) <= weight(flags_round[x]));
                            assert(weight(flags_round[x]) <= weight(flags0[x]));
                            assert(weight(flags_round[x]) <= weight(flags_start[x]));
                        }
                        assert forall|x: int|
                            0 <= x < flags0.len() && #[trigger] self.flags@[x] is Cycle implies flags0[x] is Cycle by {
                            assert(flags_round[x] is Cycle);
                        }
                    }
                }
                a += 1;
            }
            proof {
                lemma_tightens_room(self.output@, self.output@, n as int, (n as int) * (n as int));
                lemma_slack_order(self.output@, self.output@, n as int, (n as int) * (n as int));
            }
            if !changed {
                done = true;
            }
        }
    }

    fn visit_inner(&mut self, a: usize, depth: Option<usize>) -> (head_depth: usize)
        requires
            old(self).inv(),
            depth matches Some(d) ==> d + count_none(old(self).flags@) <= old(self).flags@.len(),
            a < old(self).flags@.len() ==> old(self).cfg.walks(a),
        ensures
            final(self).inv(),
            final(self).source == old(self).source,
            final(self).cfg == old(self).cfg,
            flags_step(old(self).flags@, final(self).flags@),
            tightens(old(self).output@, final(self).output@),
            a < old(self).flags@.len() ==> !(final(self).flags@[a as int] is Unseen),
            forall|x: usize|
                x < old(self).flags@.len() && old(self).flags@[x as int] is Unseen && !(
                #[trigger] final(self).flags@[x as int] is Unseen) ==> emitted(
                    &final(self).cfg,
                    final(self).source@,
                    final(self).output@,
                    x,
                ),
            old(self).descending(a, depth) ==> {
                &&& head_depth == usize::MAX
                &&& a < old(self).flags@.len() ==> final(self).flags@[a as int] is Done
                &&& done_complete(
                    &final(self).cfg,
                    final(self).source@,
                    final(self).flags@,
                    final(self).output@,
                )
                &&& forall|x: usize|
                    x < old(self).flags@.len() && #[trigger] final(self).flags@[x as int] is Cycle
                        ==> old(self).flags@[x as int] is Cycle
            },
        decreases total_weight(old(self).flags@),
    {
        let ghost source = self.source@;
        let ghost flags0 = self.flags@;
        let ghost out0 = self.output@;
        let ghost hyp = self.descending(a, depth);
        let n = self.source.len();
        if a >= n {
            return usize::MAX;
        }
        match self.flags[a] {
            Flag::Unseen => {
                match depth {
                    Some(d) => {
                        self.flags[a] = Flag::Cycle(d);
                    },
                    None => {
                        self.flags[a] = Flag::Done;
                    },
                }
            },
            Flag::Done => {
                return usize::MAX;
            },
            Flag::Cycle(d) => {
                proof {
                    if hyp {
                        assert(reaches(&self.cfg, source, a, a));
                        let w = choose|w: Seq<usize>| #[trigger]
                            is_descent(&self.cfg, source, w) && w.first() == a && w.last() == a;
                        assert(false);
                    }
                }
                if depth.is_some() {
                    return d;
                }
                self.flags[a] = Flag::Done;
            },
        }
        let ghost flags1 = self.flags@;
        proof {
            lemma_total_weight_update(flags0, a as int, flags1[a as int]);
            lemma_count_none_update(flags0, a as int, flags1[a as int]);
            lemma_count_none_bound(flags1);
            assert(flags1 =~= flags0.update(a as int, flags1[a as int]));
            if hyp {
                assert(done_complete(&self.cfg, source, flags1, out0)) by {
                    assert forall|x: usize|
                        x < flags1.len() && #[trigger] flags1[x as int] is Done implies row_complete(
                        &self.cfg,
                        source,
                        out0,
                        x,
                    ) by {
                        assert(flags0[x as int] is Done);
                    }
                }
            }
        }
        let child_depth = match depth {
            Some(d) => Some(d + 1),
            None => None,
        };
        let key_a = I::from_usize(a);
        let entries = self.source.element(a).entries();
        let mut head_depth = usize::MAX;
        let mut i: usize = 0;
        while i < entries.len()
            invariant
                self.inv(),
                self.source == old(self).source,
                self.cfg == old(self).cfg,
                source == self.source@,
                n == source.len(),
                a < n,
                self.cfg.walks(a),
                key_a.index() == a,
                flags1.len() == flags0.len(),
                flags0 == old(self).flags@,
                flags_step(flags0, flags1),
                flags_step(flags1, self.flags@),
                total_weight(flags1) < total_weight(flags0),
                !(flags1[a as int] is Unseen),
                child_depth matches Some(d) ==> d + count_none(flags1) <= flags1.len(),
                tightens(out0, self.output@),
                i <= entries@.len(),
                forall|j: int|
                    0 <= j < entries@.len() ==> source[a as int].contains_pair(
                        (#[trigger] entries@[j]).0,
                        entries@[j].1,
                    ),
                forall|x: usize|
                    x < flags1.len() && flags1[x as int] is Unseen && !(
                    #[trigger] self.flags@[x as int] is Unseen) ==> emitted(
                        &self.cfg,
                        source,
                        self.output@,
                        x,
                    ),
                flags1 == flags0.update(a as int, flags1[a as int]),
                depth is Some ==> child_depth is Some,
                hyp ==> depth is Some && descends_without_cycle(&self.cfg, source) && grays_reach(
                    &self.cfg,
                    source,
                    flags0,
                    a,
                ),
                hyp ==> head_depth == usize::MAX,
                hyp ==> done_complete(&self.cfg, source, self.flags@, self.output@),
                hyp ==> forall|x: usize|
                    x < flags1.len() && #[trigger] self.flags@[x as int] is Cycle
                        ==> flags1[x as int] is Cycle,
                hyp ==> forall|j: int|
                    0 <= j < i && self.cfg.enters(a, (#[trigger] entries@[j]).1, entries@[j].0)
                        ==> self.flags@[entries@[j].0 as int] is Done,
            decreases entries@.len() - i,
        {
            let (b, rel) = entries[i];
            assert(source[a as int].contains_pair(entries@[i as int].0, entries@[i as int].1));
            assert(b < n);
            let key_b = I::from_usize(b);
            if self.cfg.enter(key_a, rel, key_b) {
                let ghost flags_before = self.flags@;
                let ghost out_before = self.output@;
                proof {
                    lemma_flags_step_measures(flags1, flags_before);
                    self.cfg.lemma_enter_walks(a, rel, b);
                    if hyp {
                        assert(entered(&self.cfg, source, a, b));
                        assert forall|x: usize|
                            x < flags_before.len() && #[trigger] flags_before[x as int] is Cycle implies reaches(
                            &self.cfg,
                            source,
                            x,
                            b,
                        ) by {
                            assert(flags1[x as int] is Cycle);
                            if x != a {
                                assert(flags0[x as int] is Cycle);
                            }
                            lemma_reaches_extend(&self.cfg, source, x, a, b);
                        }
                        assert(self.descending(b, child_depth));
                    }
                }
                let h = self.visit_inner(b, child_depth);
                if h < head_depth {
                    head_depth = h;
                }
                proof {
                    if hyp {
                        assert forall|j: int|
                            0 <= j < i + 1 && self.cfg.enters(
                                a,
                                (#[trigger] entries@[j]).1,
                                entries@[j].0,
                            ) implies self.flags@[entries@[j].0 as int] is Done by {
                            if j < i {
                                let t = entries@[j].0 as int;
                                assert(source[a as int].contains_pair(entries@[j].0, entries@[j].1));
                                assert(flags_before[t] is Done);
                                assert(weight(self.flags@[t]) <= weight(flags_before[t]));
                            }
                        }
                        assert forall|x: usize|
                            x < flags1.len() && #[trigger] self.flags@[x as int] is Cycle implies flags1[x as int] is Cycle by {
                            assert(flags_before[x as int] is Cycle);
                        }
                    }
                    lemma_tightens_transitive(out0, out_before, self.output@);
                    assert(flags_step(flags1, self.flags@)) by {
                        assert forall|x: int| 0 <= x < flags1.len() implies weight(
                            #[trigger] self.flags@[x],
                        ) <= weight(flags1[x]) by {
                            assert(weight(self.flags@[x]) <= weight(flags_before[x]));
                            assert(weight(flags_before[x]) <= weight(flags1[x]));
                        }
                    }
                    assert forall|x: usize|
                        x < flags1.len() && flags1[x as int] is Unseen && !(
                        #[trigger] self.flags@[x as int] is Unseen) implies emitted(
                        &self.cfg,
                        source,
                        self.output@,
                        x,
                    ) by {
                        if !(flags_before[x as int] is Unseen) {
                            lemma_emitted_stays(&self.cfg, source, out_before, self.output@, x);
                        }
                    }
                }
            }
            i += 1;
        }
        let ghost flags2 = self.flags@;
        let ghost out2 = self.output@;
        let mut i: usize = 0;
        while i < entries.len()
            invariant
                self.inv(),
                self.source == old(self).source,
                self.cfg == old(self).cfg,
                source == self.source@,
                n == source.len(),
                a < n,
                self.cfg.walks(a),
                key_a.index() == a,
                self.flags@ == flags2,
                tightens(out2, self.output@),
                i <= entries@.len(),
                forall|j: int|
                    0 <= j < entries@.len() ==> source[a as int].contains_pair(
                        (#[trigger] entries@[j]).0,
                        entries@[j].1,
                    ),
                forall|j: int|
                    0 <= j < i ==> (match self.cfg.remaps(a, (#[trigger] entries@[j]).1, entries@[j].0) {
                        Some(rel) => a == entries@[j].0 && rel.permits_eq() || (edge(
                            self.output@,
                            a,
                            entries@[j].0,
                        ) matches Some(has) && has.implies(rel)),
                        None => true,
                    }),
                hyp ==> done_complete(&self.cfg, source, flags2, self.output@),
                hyp ==> forall|j: int|
                    0 <= j < entries@.len() && self.cfg.enters(
                        a,
                        (#[trigger] entries@[j]).1,
                        entries@[j].0,
                    ) ==> flags2[entries@[j].0 as int] is Done,
                hyp ==> forall|j: int|
                    0 <= j < i ==> covered(
                        &self.cfg,
                        source,
                        self.output@,
                        a,
                        (#[trigger] entries@[j]).0,
                    ),
            decreases entries@.len() - i,
        {
            let (b, rel_ab) = entries[i];
            assert(source[a as int].contains_pair(entries@[i as int].0, entries@[i as int].1));
            assert(b < n);
            let key_b = I::from_usize(b);
            let ghost out_start = self.output@;
            let ghost mut held: Seq<(usize, Relation)> = Seq::empty();
            let ghost mut child_rows: Rows = self.output@;
            if let Some(new_rel) = self.cfg.remap(key_a, rel_ab, key_b) {
                proof {
                    self.lemma_relate_keeps(a, b, new_rel);
                    assert forall|v: spec_fn(usize) -> int| #[trigger]
                        satisfies(source, v) implies new_rel.holds(v(a), v(b)) by {
                        assert(source[a as int][b].holds(v(a), v(b)));
                        self.cfg.lemma_remap_sound(a, rel_ab, b, v(a), v(b));
                    }
                    self.lemma_relate_refines(a, b, new_rel);
                    self.cfg.lemma_pairs(a, rel_ab, b, rel_ab, b);
                    lemma_related_pairs(&self.cfg, self.output@, a, b, new_rel);
                }
                self.output.relate(key_a, key_b, new_rel);
            }
            let ghost out_mid = self.output@;
            proof {
                if self.cfg.remaps(a, rel_ab, b) is Some {
                    lemma_related_tightens(out_start, a, b, self.cfg.remaps(a, rel_ab, b)->0);
                }
                assert(tightens(out_start, out_mid));
                child_rows = out_mid;
                assert(covered_direct(&self.cfg, source, out_mid, a, b));
            }
            if a != b && self.cfg.enter(key_a, rel_ab, key_b) {
                if b < self.output.len() {
                    let others = self.output.element(b).entries();
                    let mut k: usize = 0;
                    while k < others.len()
                        invariant
                            self.inv(),
                            self.source == old(self).source,
                            self.cfg == old(self).cfg,
                            source == self.source@,
                            n == source.len(),
                            a < n,
                            b < n,
                            a != b,
                            key_a.index() == a,
                            key_b.index() == b,
                            self.flags@ == flags2,
                            source[a as int].contains_pair(b, rel_ab),
                            tightens(out_mid, self.output@),
                            refines(source, out_mid),
                            pairs_ok(&self.cfg, out_mid),
                            self.cfg.walks(a),
                            self.cfg.enters(a, rel_ab, b),
                            rows_wf(out_mid),
                            out_mid.len() <= n,
                            b < out_mid.len(),
                            k <= others@.len(),
                            forall|m: int|
                                0 <= m < others@.len() ==> out_mid[b as int].contains_pair(
                                    (#[trigger] others@[m]).0,
                                    others@[m].1,
                                ),
                            forall|m: int|
                                0 <= m < k ==> composed_held(
                                    &self.cfg,
                                    source,
                                    self.output@,
                                    a,
                                    b,
                                    (#[trigger] others@[m]).0,
                                    others@[m].1,
                                ),
                        decreases others@.len() - k,
                    {
                        let ghost out_round = self.output@;
                        let (c, rel_bc) = others[k];
                        assert(out_mid[b as int].contains_pair(others@[k as int].0, others@[k as int].1));
                        assert(c < n);
                        if b != c {
                            let key_c = I::from_usize(c);
                            if let Some(rel_ac) = self.cfg.trans(key_a, rel_ab, key_b, rel_bc, key_c) {
                                let ghost out_before = self.output@;
                                proof {
                                    self.lemma_relate_keeps(a, c, rel_ac);
                                    assert forall|v: spec_fn(usize) -> int| #[trigger]
                                        satisfies(source, v) implies rel_ac.holds(v(a), v(c)) by {
                                        assert(source[a as int][b].holds(v(a), v(b)));
                                        assert(satisfies(out_mid, v));
                                        assert(out_mid[b as int][c].holds(v(b), v(c)));
                                        self.cfg.lemma_trans_sound(
                                            a,
                                            rel_ab,
                                            b,
                                            rel_bc,
                                            c,
                                            v(a),
                                            v(b),
                                            v(c),
                                        );
                                    }
                                    self.lemma_relate_refines(a, c, rel_ac);
                                    lemma_related_tightens(out_before, a, c, rel_ac);
                                    assert(self.cfg.pairs(b, c)) by {
                                        assert(out_mid[b as int].contains_key(c));
                                    }
                                    self.cfg.lemma_pairs(a, rel_ab, b, rel_bc, c);
                                    lemma_related_pairs(&self.cfg, out_before, a, c, rel_ac);
                                }
                                self.output.relate(key_a, key_c, rel_ac);
                                proof {
                                    lemma_tightens_transitive(out_mid, out_before, self.output@);
                                }
                            }
                        }
                        proof {
                            if b != c {
                                if let Some(to) = self.cfg.composes(a, rel_ab, b, rel_bc, c) {
                                    lemma_related_tightens(out_round, a, c, to);
                                }
                            }
                            assert(tightens(out_round, self.output@));
                            assert forall|m: int| 0 <= m < k + 1 implies composed_held(
                                &self.cfg,
                                source,
                                self.output@,
                                a,
                                b,
                                (#[trigger] others@[m]).0,
                                others@[m].1,
                            ) by {
                                if m < k {
                                    lemma_composed_held_stays(
                                        &self.cfg,
                                        source,
                                        out_round,
                                        self.output@,
                                        a,
                                        b,
                                        others@[m].0,
                                        others@[m].1,
                                    );
                                }
                            }
                        }
                        k += 1;
                    }
                    proof {
                        held = others@;
                    }
                }
            }
            proof {
                lemma_tightens_transitive(out_start, out_mid, self.output@);
                lemma_tightens_transitive(out2, out_start, self.output@);
                if hyp {
                    lemma_done_complete_stays(&self.cfg, source, flags2, out_start, self.output@);
                    lemma_done_complete_stays(&self.cfg, source, flags2, out_start, out_mid);
                    lemma_route_held_stays(&self.cfg, source, out_mid, self.output@, seq![a, b]);
                    if a != b && self.cfg.enters(a, rel_ab, b) {
                        assert(flags2[b as int] is Done);
                        assert(row_complete(&self.cfg, source, out_mid, b));
                        if b < out_mid.len() {
                            assert forall|c: usize| #[trigger]
                                out_mid[b as int].contains_key(c) implies exists|m: int|
                                0 <= m < held.len() && #[trigger] held[m] == (
                                    c,
                                    out_mid[b as int][c],
                                ) by {
                                let m = choose|m: int|
                                    0 <= m < held.len() && (#[trigger] held[m]).0 == c;
                                assert(out_mid[b as int].contains_pair(held[m].0, held[m].1));
                            }
                        }
                        lemma_covers_child(&self.cfg, source, out_mid, self.output@, a, b, held);
                    } else {
                        lemma_covers_leaf(&self.cfg, source, self.output@, a, b);
                    }
                    assert forall|j: int| 0 <= j < i + 1 implies covered(
                        &self.cfg,
                        source,
                        self.output@,
                        a,
                        (#[trigger] entries@[j]).0,
                    ) by {
                        if j < i {
                            lemma_covered_stays(
                                &self.cfg,
                                source,
                                out_start,
                                self.output@,
                                a,
                                entries@[j].0,
                            );
                        }
                    }
                }
                assert forall|j: int| 0 <= j < i + 1 implies (match self.cfg.remaps(
                    a,
                    (#[trigger] entries@[j]).1,
                    entries@[j].0,
                ) {
                    Some(rel) => a == entries@[j].0 && rel.permits_eq() || (edge(
                        self.output@,
                        a,
                        entries@[j].0,
                    ) matches Some(has) && has.implies(rel)),
                    None => true,
                }) by {
                    let target = entries@[j].0;
                    match self.cfg.remaps(a, entries@[j].1, target) {
                        Some(rel) => {
                            if !(a == target && rel.permits_eq()) {
                                if j < i {
                                    assert(out_start[a as int].contains_key(target));
                                } else {
                                    assert(out_mid[a as int].contains_key(target));
                                }
                            }
                        },
                        None => {},
                    }
                }
            }
            i += 1;
        }
        proof {
            assert(emitted(&self.cfg, source, self.output@, a)) by {
                assert forall|b: usize|
                    a < source.len() && #[trigger] source[a as int].contains_key(b) implies (
                match self.cfg.remaps(a, source[a as int][b], b) {
                    Some(rel) => a == b && rel.permits_eq() || (edge(self.output@, a, b) matches Some(
                        has,
                    ) && has.implies(rel)),
                    None => true,
                }) by {
                    let j = choose|j: int| 0 <= j < entries@.len() && (#[trigger] entries@[j]).0 == b;
                    assert(source[a as int].contains_pair(entries@[j].0, entries@[j].1));
                }
            }
        }
        let ghost out3 = self.output@;
        proof {
            if hyp {
                assert forall|b: usize|
                    a < source.len() && #[trigger] source[a as int].contains_key(b) implies covered(
                    &self.cfg,
                    source,
                    out3,
                    a,
                    b,
                ) by {
                    let j = choose|j: int| 0 <= j < entries@.len() && (#[trigger] entries@[j]).0 == b;
                    assert(covered(&self.cfg, source, out3, a, entries@[j].0));
                }
                lemma_row_complete_from_covered(&self.cfg, source, out3, a);
                lemma_count_none_bound(flags0);
            }
        }
        let closes = match depth {
            Some(d) => d > head_depth,
            None => false,
        };
        if closes {
            match self.flags[a] {
                Flag::Cycle(_) => {
                    self.flags[a] = Flag::Cycle(head_depth);
                },
                _ => {},
            }
            proof {
                assert(flags_step(flags2, self.flags@));
            }
        } else {
            self.flags[a] = Flag::Done;
            let ghost flags3 = self.flags@;
            proof {
                lemma_total_weight_update(flags2, a as int, Flag::Done);
                lemma_flags_step_measures(flags1, flags2);
                assert(flags_step(flags2, flags3));
            }
            let heads = match depth {
                Some(d) => d == head_depth,
                None => false,
            };
            if heads {
                let mut i: usize = 0;
                while i < entries.len()
                    invariant
                        self.inv(),
                        self.source == old(self).source,
                        self.cfg == old(self).cfg,
                        source == self.source@,
                        n == source.len(),
                        a < n,
                        self.cfg.walks(a),
                        key_a.index() == a,
                        flags0 == old(self).flags@,
                        flags_step(flags3, self.flags@),
                        flags_step(flags2, flags3),
                        flags_step(flags1, flags2),
                        total_weight(flags3) <= total_weight(flags2),
                        total_weight(flags2) <= total_weight(flags1),
                        total_weight(flags1) < total_weight(flags0),
                        tightens(out3, self.output@),
                        i <= entries@.len(),
                        forall|j: int|
                            0 <= j < entries@.len() ==> source[a as int].contains_pair(
                                (#[trigger] entries@[j]).0,
                                entries@[j].1,
                            ),
                        forall|x: usize|
                            x < flags3.len() && flags3[x as int] is Unseen && !(
                            #[trigger] self.flags@[x as int] is Unseen) ==> emitted(
                                &self.cfg,
                                source,
                                self.output@,
                                x,
                            ),
                    decreases entries@.len() - i,
                {
                    let (b, rel) = entries[i];
                    assert(source[a as int].contains_pair(entries@[i as int].0, entries@[i as int].1));
                    assert(b < n);
                    let key_b = I::from_usize(b);
                    if self.cfg.enter(key_a, rel, key_b) {
                        let ghost flags_before = self.flags@;
                        let ghost out_before = self.output@;
                        proof {
                            lemma_flags_step_measures(flags3, flags_before);
                            self.cfg.lemma_enter_walks(a, rel, b);
                        }
                        self.visit_inner(b, None);
                        proof {
                            lemma_tightens_transitive(out3, out_before, self.output@);
                            assert(flags_step(flags3, self.flags@)) by {
                                assert forall|x: int| 0 <= x < flags3.len() implies weight(
                                    #[trigger] self.flags@[x],
                                ) <= weight(flags3[x]) by {
                                    assert(weight(self.flags@[x]) <= weight(flags_before[x]));
                                    assert(weight(flags_before[x]) <= weight(flags3[x]));
                                }
                            }
                            assert forall|x: usize|
                                x < flags3.len() && flags3[x as int] is Unseen && !(
                                #[trigger] self.flags@[x as int] is Unseen) implies emitted(
                                &self.cfg,
                                source,
                                self.output@,
                                x,
                            ) by {
                                if !(flags_before[x as int] is Unseen) {
                                    lemma_emitted_stays(
                                        &self.cfg,
                                        source,
                                        out_before,
                                        self.output@,
                                        x,
                                    );
                                }
                            }
                        }
                    }
                    i += 1;
                }
            }
        }
        proof {
            let flags_end = self.flags@;
            assert(flags_step(flags0, flags_end)) by {
                assert forall|x: int| 0 <= x < flags0.len() implies weight(#[trigger] flags_end[x])
                    <= weight(flags0[x]) by {
                    assert(weight(flags2[x]) <= weight(flags1[x]));
                    assert(weight(flags1[x]) <= weight(flags0[x]));
                    if closes {
                        assert(weight(flags_end[x]) <= weight(flags2[x]));
                    } else {
                        let flags3 = flags2.update(a as int, Flag::Done);
                        assert(weight(flags3[x]) <= weight(flags2[x]));
                        assert(weight(flags_end[x]) <= weight(flags3[x]));
                    }
                }
            }
            lemma_tightens_transitive(out2, out3, self.output@);
            lemma_tightens_transitive(out0, out2, self.output@);
            lemma_emitted_stays(&self.cfg, source, out3, self.output@, a);
            if hyp {
                assert(!closes);
                assert(flags0[a as int] is Unseen);
                assert(count_none(flags0) >= 1);
                assert(self.output@ == out3);
                assert(flags_end == flags2.update(a as int, Flag::Done));
                assert(done_complete(&self.cfg, source, flags_end, self.output@)) by {
                    assert forall|x: usize|
                        x < flags_end.len() && #[trigger] flags_end[x as int] is Done implies row_complete(
                        &self.cfg,
                        source,
                        self.output@,
                        x,
                    ) by {
                        if x != a {
                            assert(flags2[x as int] is Done);
                        }
                    }
                }
                assert forall|x: usize|
                    x < flags0.len() && #[trigger] flags_end[x as int] is Cycle implies flags0[x as int] is Cycle by {
                    assert(flags2[x as int] is Cycle);
                    assert(flags1[x as int] is Cycle);
                }
            }
            assert forall|x: usize|
                x < flags0.len() && flags0[x as int] is Unseen && !(
                #[trigger] flags_end[x as int] is Unseen) implies emitted(
                &self.cfg,
                source,
                self.output@,
                x,
            ) by {
                if x != a {
                    assert(flags1[x as int] is Unseen);
                    if !(flags2[x as int] is Unseen) {
                        lemma_emitted_stays(&self.cfg, source, out2, self.output@, x);
                    } else {
                        let flags3 = flags2.update(a as int, Flag::Done);
                        assert(flags3[x as int] is Unseen);
                        assert(!closes);
                    }
                }
            }
        }
        head_depth
    }

    /// What is left to settle: the elements that have not been seen, and the
    /// room that the output leaves.
    spec fn energy(&self) -> int {
        count_none(self.flags@) + slack(
            self.output@,
            self.flags@.len() as int,
            (self.flags@.len() as int) * (self.flags@.len() as int),
        )
    }

    /// Records `a rel c` in the output unless the output holds it already or it
    /// says that an element is at most itself; says whether it was recorded.
    fn settle_pair(&mut self, a: usize, c: usize, rel: Relation) -> (changed: bool)
        requires
            old(self).inv(),
            a < old(self).flags@.len(),
            c < old(self).flags@.len(),
            old(self).cfg.pairs(a, c),
            old(self).cfg.pairs(c, a),
            forall|v: spec_fn(usize) -> int| #[trigger]
                satisfies(old(self).source@, v) ==> rel.holds(v(a), v(c)),
        ensures
            final(self).inv(),
            final(self).source == old(self).source,
            final(self).cfg == old(self).cfg,
            final(self).flags@ == old(self).flags@,
            tightens(old(self).output@, final(self).output@),
            a == c && rel.permits_eq() || (edge(final(self).output@, a, c) matches Some(kept)
                && kept.implies(rel)),
            final(self).energy() <= old(self).energy(),
            changed ==> final(self).energy() < old(self).energy(),
            !changed ==> final(self).output@ == old(self).output@,
    {
        let key_a = I::from_usize(a);
        let key_c = I::from_usize(c);
        proof {
            lemma_tightens_reflexive(self.output@);
        }
        if a == c && rel.allows_equal() {
            return false;
        }
        if self.output.has(key_a, key_c, rel) {
            return false;
        }
        let ghost before = self.output@;
        proof {
            self.lemma_relate_keeps(a, c, rel);
            self.lemma_relate_refines(a, c, rel);
            lemma_related_tightens(before, a, c, rel);
            lemma_related_pairs(&self.cfg, before, a, c, rel);
            lemma_related_slack(before, a, c, rel, self.flags@.len() as int);
        }
        self.output.relate(key_a, key_c, rel);
        true
    }

    /// Composes the relation from `a` to `b`, along which the walk descends,
    /// with every relation that the output holds for `b`, and records what is
    /// not held yet. Says whether anything was recorded.
    fn settle_through(&mut self, a: usize, b: usize, rel_ab: Relation) -> (changed: bool)
        requires
            old(self).inv(),
            a < old(self).flags@.len(),
            b < old(self).flags@.len(),
            a != b,
            !(old(self).flags@[a as int] is Unseen),
            old(self).source@[a as int].contains_pair(b, rel_ab),
            old(self).cfg.enters(a, rel_ab, b),
        ensures
            final(self).inv(),
            final(self).source == old(self).source,
            final(self).cfg == old(self).cfg,
            final(self).flags@ == old(self).flags@,
            tightens(old(self).output@, final(self).output@),
            final(self).energy() <= old(self).energy(),
            changed ==> final(self).energy() < old(self).energy(),
            !changed ==> final(self).output@ == old(self).output@,
            !changed ==> forall|c: usize|
                b < final(self).output@.len() && #[trigger] final(self).output@[b as int].contains_key(
                    c,
                ) ==> composed_held(
                    &final(self).cfg,
                    final(self).source@,
                    final(self).output@,
                    a,
                    b,
                    c,
                    final(self).output@[b as int][c],
                ),
    {
        let ghost source = self.source@;
        let ghost out0 = self.output@;
        let ghost energy0 = self.energy();
        let n = self.source.len();
        let key_a = I::from_usize(a);
        let key_b = I::from_usize(b);
        let mut changed = false;
        proof {
            lemma_tightens_reflexive(out0);
        }
        if b >= self.output.len() {
            return false;
        }
        let others = self.output.element(b).entries();
        let mut k: usize = 0;
        while k < others.len()
            invariant
                self.inv(),
                self.source == old(self).source,
                self.cfg == old(self).cfg,
                self.flags@ == old(self).flags@,
                source == self.source@,
                n == source.len(),
                a < n,
                b < n,
                a != b,
                out0 == old(self).output@,
                energy0 == old(self).energy(),
                !(self.flags@[a as int] is Unseen),
                source[a as int].contains_pair(b, rel_ab),
                self.cfg.enters(a, rel_ab, b),
                key_a.index() == a,
                key_b.index() == b,
                tightens(out0, self.output@),
                refines(source, out0),
                pairs_ok(&self.cfg, out0),
                rows_wf(out0),
                b < out0.len(),
                self.energy() <= energy0,
                changed ==> self.energy() < energy0,
                !changed ==> self.output@ == out0,
                k <= others@.len(),
                forall|m: int|
                    0 <= m < others@.len() ==> out0[b as int].contains_pair(
                        (#[trigger] others@[m]).0,
                        others@[m].1,
                    ),
                forall|m: int|
                    0 <= m < k ==> composed_held(
                        &self.cfg,
                        source,
                        self.output@,
                        a,
                        b,
                        (#[trigger] others@[m]).0,
                        others@[m].1,
                    ),
            decreases others@.len() - k,
        {
            let ghost out_round = self.output@;
            let (c, rel_bc) = others[k];
            assert(out0[b as int].contains_pair(others@[k as int].0, others@[k as int].1));
            assert(c < n);
            if b != c {
                let key_c = I::from_usize(c);
                if let Some(rel_ac) = self.cfg.trans(key_a, rel_ab, key_b, rel_bc, key_c) {
                    proof {
                        assert forall|v: spec_fn(usize) -> int| #[trigger]
                            satisfies(source, v) implies rel_ac.holds(v(a), v(c)) by {
                            assert(source[a as int][b].holds(v(a), v(b)));
                            assert(satisfies(out0, v));
                            assert(out0[b as int][c].holds(v(b), v(c)));
                            self.cfg.lemma_trans_sound(a, rel_ab, b, rel_bc, c, v(a), v(b), v(c));
                        }
                        assert(self.cfg.pairs(b, c)) by {
                            assert(out0[b as int].contains_key(c));
                        }
                        self.cfg.lemma_pairs(a, rel_ab, b, rel_bc, c);
                    }
                    if self.settle_pair(a, c, rel_ac) {
                        changed = true;
                    }
                    proof {
                        lemma_tightens_transitive(out0, out_round, self.output@);
                    }
                }
            }
            proof {
                assert forall|m: int| 0 <= m < k + 1 implies composed_held(
                    &self.cfg,
                    source,
                    self.output@,
                    a,
                    b,
                    (#[trigger] others@[m]).0,
                    others@[m].1,
                ) by {
                    if m < k {
                        lemma_composed_held_stays(
                            &self.cfg,
                            source,
                            out_round,
                            self.output@,
                            a,
                            b,
                            others@[m].0,
                            others@[m].1,
                        );
                    }
                }
            }
            k += 1;
        }
        proof {
            if !changed {
                assert forall|c: usize|
                    b < self.output@.len() && #[trigger] self.output@[b as int].contains_key(
                        c,
                    ) implies composed_held(
                    &self.cfg,
                    source,
                    self.output@,
                    a,
                    b,
                    c,
                    self.output@[b as int][c],
                ) by {
                    let m = choose|m: int| 0 <= m < others@.len() && (#[trigger] others@[m]).0 == c;
                    assert(out0[b as int].contains_pair(others@[m].0, others@[m].1));
                }
            }
        }
        changed
    }

    /// Settles one relation of `a`, which has been seen: records what it is
    /// remapped to and what it composes to, and marks the element that the
    /// walk descends to along it as seen. Says whether anything changed.
    fn settle_step(&mut self, a: usize, b: usize, rel_ab: Relation) -> (changed: bool)
        requires
            old(self).inv(),
            a < old(self).flags@.len(),
            !(old(self).flags@[a as int] is Unseen),
            old(self).source@[a as int].contains_pair(b, rel_ab),
        ensures
            final(self).inv(),
            final(self).source == old(self).source,
            final(self).cfg == old(self).cfg,
            tightens(old(self).output@, final(self).output@),
            flags_step(old(self).flags@, final(self).flags@),
            forall|x: int|
                0 <= x < old(self).flags@.len() && #[trigger] final(self).flags@[x] is Cycle ==> old(self).flags@[x] is Cycle,
            final(self).energy() <= old(self).energy(),
            changed ==> final(self).energy() < old(self).energy(),
            !changed ==> final(self).output@ == old(self).output@ && final(self).flags@ == old(self).flags@ && step_settled(
                &final(self).cfg,
                final(self).source@,
                final(self).flags@,
                final(self).output@,
                a,
                b,
            ),
    {
        let ghost source = self.source@;
        let ghost out0 = self.output@;
        let key_a = I::from_usize(a);
        assert(b < source.len());
        let key_b = I::from_usize(b);
        let mut changed = false;
        proof {
            lemma_tightens_reflexive(out0);
        }
        if let Some(new_rel) = self.cfg.remap(key_a, rel_ab, key_b) {
            proof {
                assert forall|v: spec_fn(usize) -> int| #[trigger]
                    satisfies(source, v) implies new_rel.holds(v(a), v(b)) by {
                    assert(source[a as int][b].holds(v(a), v(b)));
                    self.cfg.lemma_remap_sound(a, rel_ab, b, v(a), v(b));
                }
                self.cfg.lemma_pairs(a, rel_ab, b, rel_ab, b);
            }
            if self.settle_pair(a, b, new_rel) {
                changed = true;
            }
        }
        let ghost out1 = self.output@;
        assert(covered_direct(&self.cfg, source, out1, a, b));
        if a != b && self.cfg.enter(key_a, rel_ab, key_b) {
            proof {
                self.cfg.lemma_enter_walks(a, rel_ab, b);
            }
            let unseen = match self.flags[b] {
                Flag::Unseen => true,
                _ => false,
            };
            if unseen {
                let ghost flags_before = self.flags@;
                self.flags[b] = Flag::Done;
                changed = true;
                proof {
                    lemma_count_none_update(flags_before, b as int, Flag::Done);
                    assert(self.flags@ =~= flags_before.update(b as int, Flag::Done));
                }
            }
            if self.settle_through(a, b, rel_ab) {
                changed = true;
            }
            proof {
                lemma_tightens_transitive(out0, out1, self.output@);
                lemma_route_held_stays(&self.cfg, source, out1, self.output@, seq![a, b]);
            }
        }
        changed
    }

    /// Settles the relations of `a`, which has been seen. Says whether
    /// anything changed.
    fn settle_row(&mut self, a: usize) -> (changed: bool)
        requires
            old(self).inv(),
            a < old(self).flags@.len(),
            !(old(self).flags@[a as int] is Unseen),
        ensures
            final(self).inv(),
            final(self).source == old(self).source,
            final(self).cfg == old(self).cfg,
            tightens(old(self).output@, final(self).output@),
            flags_step(old(self).flags@, final(self).flags@),
            forall|x: int|
                0 <= x < old(self).flags@.len() && #[trigger] final(self).flags@[x] is Cycle ==> old(self).flags@[x] is Cycle,
            final(self).energy() <= old(self).energy(),
            changed ==> final(self).energy() < old(self).energy(),
            !changed ==> final(self).output@ == old(self).output@ && final(self).flags@ == old(self).flags@ && row_settled(
                &final(self).cfg,
                final(self).source@,
                final(self).flags@,
                final(self).output@,
                a,
            ),
    {
        let ghost source = self.source@;
        let ghost flags0 = self.flags@;
        let ghost out0 = self.output@;
        let ghost energy0 = self.energy();
        let entries = self.source.element(a).entries();
        let mut changed = false;
        proof {
            lemma_tightens_reflexive(out0);
        }
        let mut i: usize = 0;
        while i < entries.len()
            invariant
                self.inv(),
                self.source == old(self).source,
                self.cfg == old(self).cfg,
                source == self.source@,
                a < source.len(),
                flags0 == old(self).flags@,
                out0 == old(self).output@,
                energy0 == old(self).energy(),
                !(self.flags@[a as int] is Unseen),
                tightens(out0, self.output@),
                flags_step(flags0, self.flags@),
                forall|x: int|
                    0 <= x < flags0.len() && #[trigger] self.flags@[x] is Cycle ==> flags0[x] is Cycle,
                self.energy() <= energy0,
                changed ==> self.energy() < energy0,
                !changed ==> self.output@ == out0 && self.flags@ == flags0,
                !changed ==> forall|j: int|
                    0 <= j < i ==> step_settled(
                        &self.cfg,
                        source,
                        flags0,
                        out0,
                        a,
                        (#[trigger] entries@[j]).0,
                    ),
                i <= entries@.len(),
                forall|j: int|
                    0 <= j < entries@.len() ==> source[a as int].contains_pair(
                        (#[trigger] entries@[j]).0,
                        entries@[j].1,
                    ),
            decreases entries@.len() - i,
        {
            let (b, rel_ab) = entries[i];
            assert(source[a as int].contains_pair(entries@[i as int].0, entries@[i as int].1));
            let ghost out_round = self.output@;
            let ghost flags_round = self.flags@;
            if self.settle_step(a, b, rel_ab) {
                changed = true;
            }
            proof {
                lemma_tightens_transitive(out0, out_round, self.output@);
                assert(flags_step(flags0, self.flags@)) by {
                    assert forall|x: int| 0 <= x < flags0.len() implies weight(
                        #[trigger] self.flags@[x],
                    ) <= weight(flags0[x]) by {
                        assert(weight(self.flags@[x]) <= weight(flags_round[x]));
                        assert(weight(flags_round[x]) <= weight(flags0[x]));
                    }
                }
                assert forall|x: int|
                    0 <= x < flags0.len() && #[trigger] self.flags@[x] is Cycle implies flags0[x] is Cycle by {
                    assert(flags_round[x] is Cycle);
                }
                assert(weight(self.flags@[a as int]) <= weight(flags_round[a as int]));
            }
            i += 1;
        }
        proof {
            if !changed {
                assert forall|b: usize|
                    a < source.len() && #[trigger] source[a as int].contains_key(
                        b,
                    ) implies step_settled(&self.cfg, source, self.flags@, self.output@, a, b) by {
                    let j = choose|j: int| 0 <= j < entries@.len() && (#[trigger] entries@[j]).0 == b;
                    assert(source[a as int].contains_pair(entries@[j].0, entries@[j].1));
                }
            }
        }
        changed
    }

    proof fn lemma_relate_keeps(&self, a: usize, c: usize, rel: Relation)
        requires
            self.inv(),
            a < self.source@.len(),
            c < self.source@.len(),
        ensures
            rows_wf(related(self.output@, a, c, rel)),
            related(self.output@, a, c, rel).len() <= self.source@.len(),
            a < usize::MAX,
            c < usize::MAX,
    {
        lemma_related_wf(self.output@, a, c, rel);
        lemma_related_tightens(self.output@, a, c, rel);
    }

    proof fn lemma_relate_refines(&self, a: usize, c: usize, rel: Relation)
        requires
            self.inv(),
            a < usize::MAX,
            c < usize::MAX,
            forall|v: spec_fn(usize) -> int| #[trigger]
                satisfies(self.source@, v) ==> rel.holds(v(a), v(c)),
        ensures
            refines(self.source@, related(self.output@, a, c, rel)),
    {
        assert forall|v: spec_fn(usize) -> int| #[trigger]
            satisfies(self.source@, v) implies satisfies(related(self.output@, a, c, rel), v) by {
            lemma_related_satisfies(self.output@, a, c, rel, v);
        }
    }

    /// Whether `a rel b` is missing: neither the source stores it, nor the
    /// output after a visit to `a`.
    pub fn has(&mut self, a: I, b: I, rel: Relation) -> (r: bool)
        requires
            old(self).wf(),
            a.index() < old(self).spec_source().len() ==> old(self).spec_cfg().walks(a.index()),
        ensures
            final(self).wf(),
            final(self).spec_source() == old(self).spec_source(),
            final(self).spec_cfg() == old(self).spec_cfg(),
            tightens(old(self).spec_output(), final(self).spec_output()),
            forall|x: usize| old(self).seen(x) ==> final(self).seen(x),
            r ==> !(edge(final(self).spec_source(), a.index(), b.index()) matches Some(has)
                && has.implies(rel)),
            r ==> !(edge(final(self).spec_output(), a.index(), b.index()) matches Some(has)
                && has.implies(rel)),
            r && a.index() < final(self).spec_source().len() ==> final(self).seen(a.index()),
            !r ==> (edge(final(self).spec_source(), a.index(), b.index()) matches Some(has)
                && has.implies(rel)) || (edge(
                final(self).spec_output(),
                a.index(),
                b.index(),
            ) matches Some(has) && has.implies(rel)),
    {
        if !self.source.has(a, b, rel) {
            self.visit(a);
            !self.output.has(a, b, rel)
        } else {
            false
        }
    }
}

/// What the forward relations of `kept` that `other` does not give may be:
/// each is a forward relation of `kept` that `other` does not store, none
/// comes twice, and every forward relation of `kept` that `other` does not
/// imply is among them. Where no walk along forward relations in `other`
/// comes back to its start, no such walk gives one of them.
pub open spec fn residual_outcome<I: Idx>(
    kept: Rows,
    other: Rows,
    missing: Seq<(I, I, Relation)>,
) -> bool {
    &&& forall|k: int|
        0 <= k < missing.len() ==> {
            &&& forward_edge(kept, (#[trigger] missing[k]).0.index(), missing[k].1.index())
                == Some(missing[k].2)
            &&& !(edge(other, missing[k].0.index(), missing[k].1.index()) matches Some(has)
                && has.implies(missing[k].2))
        }
    &&& forall|a: usize, b: usize|
        #![trigger forward_edge(kept, a, b)]
        forward_edge(kept, a, b) is Some && !entails(other, a, forward_edge(kept, a, b)->0, b)
            ==> exists|k: int|
            0 <= k < missing.len() && (#[trigger] missing[k]).0.index() == a
                && missing[k].1.index() == b
    &&& forall|i: int, j: int|
        0 <= i < j < missing.len() ==> !((#[trigger] missing[i]).0.index() == (
        #[trigger] missing[j]).0.index() && missing[i].1.index() == missing[j].1.index())
    &&& forward_acyclic(other) ==> forall|k: int|
        0 <= k < missing.len() ==> not_walked(
            other,
            (#[trigger] missing[k]).0.index(),
            missing[k].2,
            missing[k].1.index(),
        )
    &&& forall|k: int|
        0 <= k < missing.len() ==> not_walked_directly(
            other,
            (#[trigger] missing[k]).0.index(),
            missing[k].2,
            missing[k].1.index(),
        )
    &&& !crate::order::find_cycles::has_cycle(other) ==> forall|k: int|
        0 <= k < missing.len() ==> not_walked(
            other,
            (#[trigger] missing[k]).0.index(),
            missing[k].2,
            missing[k].1.index(),
        )
}

/// The relation that a walk along forward relations gives from its first
/// element to its last: strictly below where a step of the walk is strict.
pub open spec fn walk_relation(rows: Rows, w: Seq<usize>) -> Relation {
    if exists|i: int| 0 <= i < w.len() - 1 && #[trigger] strict_step(rows, w, i) {
        Relation::LT
    } else {
        Relation::LE
    }
}

/// Whether no walk along forward relations from `a` to `b` gives a relation at
/// least as tight as `rel`.
pub open spec fn not_walked(rows: Rows, a: usize, rel: Relation, b: usize) -> bool {
    forall|w: Seq<usize>|
        w.len() >= 2 && #[trigger] is_walk(rows, w) && w.first() == a && w.last() == b
            ==> !walk_relation(rows, w).implies(rel)
}

/// Whether a configuration follows the forward relations and composes them by
/// conjunction, as the forward closure does.
spec fn follows_forward<I: Idx, C: TransistorConfig<I>>(cfg: &C) -> bool {
    &&& forall|a: usize, rel: Relation, b: usize| #[trigger]
        cfg.enters(a, rel, b) == (rel.lte_component() is Some)
    &&& forall|a: usize, r_ab: Relation, b: usize, r_bc: Relation, c: usize| #[trigger]
        cfg.composes(a, r_ab, b, r_bc, c) == forward_composition(r_ab, r_bc)
}

/// A part of a walk is a walk.
proof fn lemma_walk_part(rows: Rows, w: Seq<usize>, from: int, to: int)
    requires
        is_walk(rows, w),
        0 <= from <= to <= w.len(),
    ensures
        is_walk(rows, w.subrange(from, to)),
{
    let part = w.subrange(from, to);
    assert forall|i: int| 0 <= i < part.len() - 1 implies #[trigger] step(rows, part, i) by {
        assert(step(rows, w, from + i));
    }
}

/// Under a configuration that follows the forward relations, the descents are
/// the walks along forward relations.
proof fn lemma_forward_descents<I: Idx, C: TransistorConfig<I>>(cfg: &C, rows: Rows)
    requires
        follows_forward(cfg),
        forward_acyclic(rows),
    ensures
        descends_without_cycle(cfg, rows),
{
    assert forall|w: Seq<usize>| #[trigger] is_descent(cfg, rows, w) implies w.first()
        != w.last() by {
        assert forall|i: int| 0 <= i < w.len() - 1 implies #[trigger] step(rows, w, i) by {
            assert(descent_step(cfg, rows, w, i));
        }
        assert(is_walk(rows, w));
    }
}

/// Whether a walk goes straight to its end: it never stays in place, and it
/// comes to its last element only at its end.
pub open spec fn direct_walk(w: Seq<usize>) -> bool {
    forall|i: int| 0 <= i < w.len() - 2 ==> #[trigger] goes_on(w, i)
}

/// Whether a walk moves at its step `i`, to an element that is not its last.
pub open spec fn goes_on(w: Seq<usize>, i: int) -> bool {
    w[i] != w[i + 1] && w[i + 1] != w.last()
}

/// Whether no walk along forward relations that goes straight from `a` to `b`
/// gives a relation at least as tight as `rel`.
pub open spec fn not_walked_directly(rows: Rows, a: usize, rel: Relation, b: usize) -> bool {
    forall|w: Seq<usize>|
        w.len() >= 2 && #[trigger] is_walk(rows, w) && direct_walk(w) && w.first() == a
            && w.last() == b ==> !walk_relation(rows, w).implies(rel)
}

/// Where no walk along forward relations comes back to its start, every walk
/// goes straight to its end.
pub proof fn lemma_acyclic_direct(rows: Rows, w: Seq<usize>)
    requires
        forward_acyclic(rows),
        w.len() >= 2,
        is_walk(rows, w),
    ensures
        direct_walk(w),
{
    let n = w.len() as int;
    assert forall|i: int| 0 <= i < w.len() - 2 implies #[trigger] goes_on(w, i) by {
        lemma_walk_part(rows, w, i, i + 2);
        assert(w.subrange(i, i + 2).first() == w[i] && w.subrange(i, i + 2).last() == w[i + 1]);
        lemma_walk_part(rows, w, i + 1, n);
        assert(w.subrange(i + 1, n).first() == w[i + 1] && w.subrange(i + 1, n).last() == w.last());
    }
}

/// In an order without cycle, every walk along forward relations has a walk
/// beside it that goes straight to the same end from the same start and gives
/// the same relation: what a walk passes on its way back to an element it has
/// been at is never strict.
pub proof fn lemma_direct_walk(rows: Rows, w: Seq<usize>) -> (d: Seq<usize>)
    requires
        rows_wf(rows),
        !crate::order::find_cycles::has_cycle(rows),
        w.len() >= 2,
        is_walk(rows, w),
    ensures
        d.len() >= 2,
        is_walk(rows, d),
        direct_walk(d),
        d.first() == w.first(),
        d.last() == w.last(),
        walk_relation(rows, d) == walk_relation(rows, w),
    decreases w.len(),
{
    let n = w.len() as int;
    if direct_walk(w) {
        w
    } else {
        let i = choose|i: int| 0 <= i < w.len() - 2 && !#[trigger] goes_on(w, i);
        if w[i] == w[i + 1] {
            let x = w[i];
            assert(step(rows, w, i));
            assert(rows[x as int].contains_key(x));
            let c = seq![x, x];
            assert(step(rows, c, 0));
            assert(strict_step(rows, c, 0));
            assert(crate::order::find_cycles::is_strict_cycle(rows, c));
            w
        } else {
            let head = w.subrange(0, i + 2);
            let tail = w.subrange(i + 1, n);
            lemma_walk_part(rows, w, 0, i + 2);
            lemma_walk_part(rows, w, i + 1, n);
            assert(tail.first() == w.last() && tail.last() == w.last());
            if exists|j: int| 0 <= j < tail.len() - 1 && #[trigger] strict_step(rows, tail, j) {
                assert(crate::order::find_cycles::is_strict_cycle(rows, tail));
            }
            if exists|j: int| 0 <= j < w.len() - 1 && #[trigger] strict_step(rows, w, j) {
                let j = choose|j: int| 0 <= j < w.len() - 1 && #[trigger] strict_step(rows, w, j);
                if j >= i + 1 {
                    assert(strict_step(rows, tail, j - (i + 1)));
                } else {
                    assert(strict_step(rows, head, j));
                }
            }
            if exists|j: int| 0 <= j < head.len() - 1 && #[trigger] strict_step(rows, head, j) {
                let j = choose|j: int|
                    0 <= j < head.len() - 1 && #[trigger] strict_step(rows, head, j);
                assert(strict_step(rows, w, j));
            }
            assert(walk_relation(rows, head) == walk_relation(rows, w));
            assert(head.first() == w.first() && head.last() == w.last());
            lemma_direct_walk(rows, head)
        }
    }
}

/// Under a configuration that follows the forward relations, a walk along
/// forward relations that goes straight to its end is a route, and gives the
/// relation of the walk where the output may carry a relation to its end.
proof fn lemma_forward_route<I: Idx, C: TransistorConfig<I>>(cfg: &C, rows: Rows, w: Seq<usize>)
    requires
        follows_forward(cfg),
        forall|a: usize, rel: Relation| #[trigger]
            cfg.remaps(a, rel, w.last()) == rel.lte_component(),
        direct_walk(w),
        w.len() >= 2,
        is_walk(rows, w),
    ensures
        is_route(cfg, rows, w),
        derived(cfg, rows, w) == Some(walk_relation(rows, w)),
    decreases w.len(),
{
    let n = w.len() as int;
    assert(step(rows, w, n - 2));
    assert forall|i: int| 0 <= i < n - 2 implies #[trigger] route_step(cfg, rows, w, i) by {
        assert(step(rows, w, i));
        assert(goes_on(w, i));
    }
    assert(step(rows, w, 0));
    if n == 2 {
        if strict_step(rows, w, 0) {
        } else {
            assert forall|i: int| 0 <= i < w.len() - 1 implies !#[trigger] strict_step(rows, w, i) by {}
        }
    } else {
        let tail = w.subrange(1, n);
        lemma_walk_part(rows, w, 1, n);
        assert(tail.last() == w.last());
        assert forall|i: int| 0 <= i < tail.len() - 2 implies #[trigger] goes_on(tail, i) by {
            assert(goes_on(w, i + 1));
        }
        lemma_forward_route(cfg, rows, tail);
        if exists|i: int| 0 <= i < tail.len() - 1 && #[trigger] strict_step(rows, tail, i) {
            let i = choose|i: int| 0 <= i < tail.len() - 1 && #[trigger] strict_step(rows, tail, i);
            assert(strict_step(rows, w, i + 1));
        } else if strict_step(rows, w, 0) {
        } else {
            assert forall|i: int| 0 <= i < w.len() - 1 implies !#[trigger] strict_step(rows, w, i) by {
                if i > 0 {
                    assert(!strict_step(rows, tail, i - 1));
                }
            }
        }
    }
}

/// The choice of the elements that another selector does not choose.
pub struct Unchosen<'a, S> {
    pub inner: &'a S,
}

impl<'a, I: Idx, S: Selector<I>> Selector<I> for Unchosen<'a, S> {
    open spec fn knows(&self, a: usize) -> bool {
        self.inner.knows(a)
    }

    open spec fn selects(&self, a: usize) -> bool {
        !self.inner.selects(a)
    }

    fn select(&self, a: I) -> (r: bool) {
        !self.inner.select(a)
    }
}

/// A relation that an order stores is implied by the order.
pub proof fn lemma_stored_is_entailed(rows: Rows, a: usize, b: usize, rel: Relation)
    requires
        edge(rows, a, b) matches Some(has) && has.implies(rel),
    ensures
        entails(rows, a, rel, b),
{
    assert forall|v: spec_fn(usize) -> int| #[trigger] satisfies(rows, v) implies rel.holds(
        v(a),
        v(b),
    ) by {
        assert(rows[a as int].contains_key(b));
        lemma_relation_semantics(rows[a as int][b], rel, v(a), v(b), 0);
    }
}

/// A relation that a derived order stores is implied by the source.
pub proof fn lemma_derived_is_entailed(
    source: Rows,
    derived: Rows,
    a: usize,
    b: usize,
    rel: Relation,
)
    requires
        refines(source, derived),
        edge(derived, a, b) matches Some(has) && has.implies(rel),
    ensures
        entails(source, a, rel, b),
{
    assert forall|v: spec_fn(usize) -> int| #[trigger] satisfies(source, v) implies rel.holds(
        v(a),
        v(b),
    ) by {
        assert(satisfies(derived, v));
        assert(derived[a as int].contains_key(b));
        lemma_relation_semantics(derived[a as int][b], rel, v(a), v(b), 0);
    }
}

impl<I: Idx> Order<I> {
    /// The forward transitive closure.
    ///
    /// The result says nothing that the order does not imply, and it holds
    /// every forward relation of the order, at least as tight. It holds the
    /// relation of every walk along forward relations that goes straight to
    /// its end; in an order without cycle that is the relation of every walk:
    /// the transitive closure.
    pub fn complete(&self) -> (r: Order<I>)
        requires
            self.wf(),
        ensures
            r.wf(),
            r@.len() <= self@.len(),
            refines(self@, r@),
            forall|a: usize, b: usize|
                #![trigger forward_edge(self@, a, b)]
                forward_edge(self@, a, b) is Some ==> (edge(r@, a, b) matches Some(has)
                    && has.implies(forward_edge(self@, a, b)->0)),
            forward_acyclic(self@) ==> forall|w: Seq<usize>|
                w.len() >= 2 && #[trigger] is_walk(self@, w) ==> (edge(
                    r@,
                    w.first(),
                    w.last(),
                ) matches Some(has) && has.implies(walk_relation(self@, w))),
            forall|w: Seq<usize>|
                w.len() >= 2 && #[trigger] is_walk(self@, w) && direct_walk(w) ==> (w.first()
                    == w.last() && walk_relation(self@, w).permits_eq()) || (edge(
                    r@,
                    w.first(),
                    w.last(),
                ) matches Some(kept) && kept.implies(walk_relation(self@, w))),
            !crate::order::find_cycles::has_cycle(self@) ==> forall|w: Seq<usize>|
                w.len() >= 2 && #[trigger] is_walk(self@, w) ==> (w.first() == w.last()
                    && walk_relation(self@, w).permits_eq()) || (edge(
                    r@,
                    w.first(),
                    w.last(),
                ) matches Some(kept) && kept.implies(walk_relation(self@, w))),
    {
        let cfg = Completion { enter_all: false };
        assert forall|x: usize| x < self@.len() implies TransistorConfig::<I>::knows(&cfg, x) by {}
        let transistor = Transistor::new(self, cfg);
        let r = transistor.finish();
        proof {
            assert forall|w: Seq<usize>|
                w.len() >= 2 && #[trigger] is_walk(self@, w) && direct_walk(w) implies (w.first()
                == w.last() && walk_relation(self@, w).permits_eq()) || (edge(
                r@,
                w.first(),
                w.last(),
            ) matches Some(kept) && kept.implies(walk_relation(self@, w))) by {
                assert(follows_forward::<I, Completion>(&cfg));
                lemma_forward_route::<I, Completion>(&cfg, self@, w);
                assert(step(self@, w, 0));
                assert(row_complete::<I, Completion>(&cfg, self@, r@, w[0]));
                assert(route_held::<I, Completion>(&cfg, self@, r@, w));
            }
            if !crate::order::find_cycles::has_cycle(self@) {
                assert forall|w: Seq<usize>| w.len() >= 2 && #[trigger] is_walk(self@, w) implies (
                w.first() == w.last() && walk_relation(self@, w).permits_eq()) || (edge(
                    r@,
                    w.first(),
                    w.last(),
                ) matches Some(kept) && kept.implies(walk_relation(self@, w))) by {
                    let d = lemma_direct_walk(self@, w);
                    assert(is_walk(self@, d) && direct_walk(d));
                }
            }
            if forward_acyclic(self@) {
                assert(follows_forward::<I, Completion>(&cfg));
                lemma_forward_descents::<I, Completion>(&cfg, self@);
                assert forall|w: Seq<usize>| w.len() >= 2 && #[trigger] is_walk(self@, w) implies (
                edge(r@, w.first(), w.last()) matches Some(has) && has.implies(
                    walk_relation(self@, w),
                )) by {
                    lemma_acyclic_direct(self@, w);
                    lemma_forward_route::<I, Completion>(&cfg, self@, w);
                    assert(step(self@, w, 0));
                    assert(row_complete::<I, Completion>(&cfg, self@, r@, w[0]));
                    assert(route_held::<I, Completion>(&cfg, self@, r@, w));
                }
            }
            assert forall|a: usize, b: usize| #![trigger forward_edge(self@, a, b)]
                forward_edge(self@, a, b) is Some implies (edge(r@, a, b) matches Some(has)
                && has.implies(forward_edge(self@, a, b)->0)) by {
                if forward_edge(self@, a, b) is Some {
                    assert(self@[a as int].contains_key(b));
                    assert(emitted::<I, Completion>(&cfg, self@, r@, a));
                    assert(TransistorConfig::<I>::remaps(&cfg, a, self@[a as int][b], b)
                        == self@[a as int][b].lte_component());
                }
            }
        }
        r
    }

    /// The forward relations of the order that `other` does not give: those
    /// that neither `other` stores nor a walk over `other` derives.
    ///
    /// Every relation returned is a forward relation of the order that `other`
    /// does not store; every forward relation of the order that `other` does
    /// not imply is returned. No walk along forward relations in `other` that
    /// goes straight to its end gives a relation that is returned; where
    /// `other` has no cycle, no walk at all does.
    pub fn difference(&self, other: &Order<I>) -> (missing: Vec<(I, I, Relation)>)
        requires
            self.wf(),
            other.wf(),
        ensures
            residual_outcome(self@, other@, missing@),
            forall|k: int|
                0 <= k < missing@.len() ==> {
                    &&& forward_edge(
                        self@,
                        (#[trigger] missing@[k]).0.index(),
                        missing@[k].1.index(),
                    ) == Some(missing@[k].2)
                    &&& !(edge(other@, missing@[k].0.index(), missing@[k].1.index()) matches Some(
                        has,
                    ) && has.implies(missing@[k].2))
                },
            forall|a: usize, b: usize|
                #![trigger forward_edge(self@, a, b)]
                forward_edge(self@, a, b) is Some && !entails(
                    other@,
                    a,
                    forward_edge(self@, a, b)->0,
                    b,
                ) ==> exists|k: int|
                    0 <= k < missing@.len() && (#[trigger] missing@[k]).0.index() == a
                        && missing@[k].1.index() == b,
            forall|i: int, j: int|
                0 <= i < j < missing@.len() ==> !((#[trigger] missing@[i]).0.index() == (
                #[trigger] missing@[j]).0.index() && missing@[i].1.index() == missing@[j].1.index()),
            forward_acyclic(other@) ==> forall|k: int|
                0 <= k < missing@.len() ==> not_walked(
                    other@,
                    (#[trigger] missing@[k]).0.index(),
                    missing@[k].2,
                    missing@[k].1.index(),
                ),
            forall|k: int|
                0 <= k < missing@.len() ==> not_walked_directly(
                    other@,
                    (#[trigger] missing@[k]).0.index(),
                    missing@[k].2,
                    missing@[k].1.index(),
                ),
            !crate::order::find_cycles::has_cycle(other@) ==> forall|k: int|
                0 <= k < missing@.len() ==> not_walked(
                    other@,
                    (#[trigger] missing@[k]).0.index(),
                    missing@[k].2,
                    missing@[k].1.index(),
                ),
    {
        let cfg = Completion { enter_all: false };
        assert forall|x: usize| x < other@.len() implies TransistorConfig::<I>::knows(&cfg, x) by {}
        let mut transistor = Transistor::new(other, cfg);
        let list = self.iter_forward();
        let mut missing: Vec<(I, I, Relation)> = Vec::new();
        let ghost mut origin: Seq<int> = Seq::empty();
        let mut i: usize = 0;
        while i < list.len()
            invariant
                self.wf(),
                transistor.wf(),
                transistor.spec_source() == other@,
                lists_forward_edges(self@, list@),
                i <= list@.len(),
                origin.len() == missing@.len(),
                forall|k: int|
                    0 <= k < missing@.len() ==> 0 <= (#[trigger] origin[k]) < i && missing@[k]
                        == list@[origin[k]],
                forall|k: int, m: int| 0 <= k < m < missing@.len() ==> origin[k] < origin[m],
                forall|k: int|
                    0 <= k < missing@.len() ==> !(edge(
                        other@,
                        (#[trigger] missing@[k]).0.index(),
                        missing@[k].1.index(),
                    ) matches Some(has) && has.implies(missing@[k].2)),
                forall|j: int|
                    0 <= j < i && !entails(
                        other@,
                        (#[trigger] list@[j]).0.index(),
                        list@[j].2,
                        list@[j].1.index(),
                    ) ==> exists|k: int| 0 <= k < missing@.len() && #[trigger] origin[k] == j,
                transistor.spec_cfg() == cfg,
                !cfg.enter_all,
                forward_acyclic(other@) ==> forall|k: int|
                    0 <= k < missing@.len() ==> not_walked(
                        other@,
                        (#[trigger] missing@[k]).0.index(),
                        missing@[k].2,
                        missing@[k].1.index(),
                    ),
                forall|k: int|
                    0 <= k < missing@.len() ==> not_walked_directly(
                        other@,
                        (#[trigger] missing@[k]).0.index(),
                        missing@[k].2,
                        missing@[k].1.index(),
                    ),
            decreases list@.len() - i,
        {
            let (a, b, rel) = list[i];
            let ghost before = origin;
            let ghost kept = missing@;
            let absent = transistor.has(a, b, rel);
            proof {
                transistor.lemma_wf();
                if absent {
                    assert(follows_forward::<I, Completion>(&cfg));
                    assert forall|w: Seq<usize>|
                        w.len() >= 2 && #[trigger] is_walk(other@, w) && direct_walk(w) && w.first()
                            == a.index() && w.last() == b.index() implies !walk_relation(
                        other@,
                        w,
                    ).implies(rel) by {
                        lemma_forward_route::<I, Completion>(&cfg, other@, w);
                        assert(step(other@, w, 0));
                        assert(transistor.seen(a.index()));
                        assert(row_complete::<I, Completion>(
                            &cfg,
                            other@,
                            transistor.spec_output(),
                            w[0],
                        ));
                        assert(route_held::<I, Completion>(
                            &cfg,
                            other@,
                            transistor.spec_output(),
                            w,
                        ));
                        assert(forward_edge(self@, a.index(), b.index()) == Some(rel));
                        if w.first() == w.last() && walk_relation(other@, w).permits_eq() {
                            assert(self@[a.index() as int].contains_key(b.index()));
                            assert(!self@[a.index() as int][b.index()].permits_eq());
                            assert(rel == Relation::LT);
                            assert(walk_relation(other@, w) == Relation::LE);
                        }
                    }
                    assert(not_walked_directly(other@, a.index(), rel, b.index()));
                }
                if absent && forward_acyclic(other@) {
                    assert(follows_forward::<I, Completion>(&cfg));
                    lemma_forward_descents::<I, Completion>(&cfg, other@);
                    assert forall|w: Seq<usize>|
                        w.len() >= 2 && #[trigger] is_walk(other@, w) && w.first() == a.index()
                            && w.last() == b.index() implies !walk_relation(other@, w).implies(
                        rel,
                    ) by {
                        lemma_acyclic_direct(other@, w);
                        lemma_forward_route::<I, Completion>(&cfg, other@, w);
                        assert(step(other@, w, 0));
                        assert(transistor.seen(a.index()));
                        assert(row_complete::<I, Completion>(
                            &cfg,
                            other@,
                            transistor.spec_output(),
                            w[0],
                        ));
                        assert(route_held::<I, Completion>(
                            &cfg,
                            other@,
                            transistor.spec_output(),
                            w,
                        ));
                    }
                    assert(not_walked(other@, a.index(), rel, b.index()));
                }
                if !absent {
                    if edge(other@, a.index(), b.index()) matches Some(has) && has.implies(rel) {
                        lemma_stored_is_entailed(other@, a.index(), b.index(), rel);
                    } else {
                        lemma_derived_is_entailed(
                            other@,
                            transistor.spec_output(),
                            a.index(),
                            b.index(),
                            rel,
                        );
                    }
                }
            }
            if absent {
                missing.push((a, b, rel));
                proof {
                    origin = origin.push(i as int);
                    if forward_acyclic(other@) {
                        assert forall|k: int| 0 <= k < missing@.len() implies not_walked(
                            other@,
                            (#[trigger] missing@[k]).0.index(),
                            missing@[k].2,
                            missing@[k].1.index(),
                        ) by {
                            if k < kept.len() {
                                assert(missing@[k] == kept[k]);
                            }
                        }
                    }
                }
            }
            proof {
                assert forall|j: int|
                    0 <= j < i + 1 && !entails(
                        other@,
                        (#[trigger] list@[j]).0.index(),
                        list@[j].2,
                        list@[j].1.index(),
                    ) implies exists|k: int| 0 <= k < missing@.len() && #[trigger] origin[k] == j by {
                    if j < i {
                        let k = choose|k: int| 0 <= k < before.len() && #[trigger] before[k] == j;
                        assert(origin[k] == j);
                    } else {
                        assert(absent);
                        assert(origin[missing@.len() - 1] == j);
                    }
                }
            }
            i += 1;
        }
        proof {
            assert forall|a: usize, b: usize| #![trigger forward_edge(self@, a, b)]
                forward_edge(self@, a, b) is Some && !entails(
                    other@,
                    a,
                    forward_edge(self@, a, b)->0,
                    b,
                ) implies exists|k: int|
                0 <= k < missing@.len() && (#[trigger] missing@[k]).0.index() == a
                    && missing@[k].1.index() == b by {
                assert(self@[a as int].contains_key(b));
                let j = choose|j: int|
                    0 <= j < list@.len() && (#[trigger] list@[j]).0.index() == a
                        && list@[j].1.index() == b;
                assert(forward_edge(self@, list@[j].0.index(), list@[j].1.index()) == Some(
                    list@[j].2,
                ));
                let k = choose|k: int| 0 <= k < missing@.len() && #[trigger] origin[k] == j;
                assert(missing@[k] == list@[origin[k]]);
            }
            assert forall|i: int, j: int| 0 <= i < j < missing@.len() implies !((
            #[trigger] missing@[i]).0.index() == (#[trigger] missing@[j]).0.index()
                && missing@[i].1.index() == missing@[j].1.index()) by {
                assert(origin[i] < origin[j]);
                assert(missing@[i] == list@[origin[i]]);
                assert(missing@[j] == list@[origin[j]]);
            }
            assert forall|k: int| 0 <= k < missing@.len() implies forward_edge(
                self@,
                (#[trigger] missing@[k]).0.index(),
                missing@[k].1.index(),
            ) == Some(missing@[k].2) by {
                assert(missing@[k] == list@[origin[k]]);
            }
            if !crate::order::find_cycles::has_cycle(other@) {
                assert forall|k: int| 0 <= k < missing@.len() implies not_walked(
                    other@,
                    (#[trigger] missing@[k]).0.index(),
                    missing@[k].2,
                    missing@[k].1.index(),
                ) by {
                    let a = missing@[k].0.index();
                    let b = missing@[k].1.index();
                    let rel = missing@[k].2;
                    assert(not_walked_directly(other@, a, rel, b));
                    assert forall|w: Seq<usize>|
                        w.len() >= 2 && #[trigger] is_walk(other@, w) && w.first() == a && w.last()
                            == b implies !walk_relation(other@, w).implies(rel) by {
                        let d = lemma_direct_walk(other@, w);
                        assert(is_walk(other@, d) && direct_walk(d));
                    }
                }
            }
        }
        missing
    }

    /// The forward closure without the elements that `omit` chooses: their
    /// relations serve to relate the other elements, and they have no relation
    /// in the result.
    ///
    /// The result says nothing that the order does not imply, and it holds
    /// every forward relation of the order between elements that stay, at least
    /// as tight. It holds the relation of every walk along forward relations
    /// between elements that stay that goes straight to its end; in an order
    /// without cycle that is the relation of every walk between them.
    pub fn omit<S: Selector<I>>(&self, omit: &S) -> (r: Order<I>)
        requires
            self.wf(),
            forall|x: usize| x < self@.len() ==> omit.knows(x),
        ensures
            r.wf(),
            r@.len() <= self@.len(),
            refines(self@, r@),
            forall|a: usize, b: usize|
                #![trigger edge(r@, a, b)]
                edge(r@, a, b) is Some ==> !omit.selects(a) && !omit.selects(b),
            forall|a: usize, b: usize|
                #![trigger forward_edge(self@, a, b)]
                forward_edge(self@, a, b) is Some && !omit.selects(a) && !omit.selects(b) ==> (edge(
                    r@,
                    a,
                    b,
                ) matches Some(has) && has.implies(forward_edge(self@, a, b)->0)),
            forward_acyclic(self@) ==> forall|w: Seq<usize>|
                w.len() >= 2 && #[trigger] is_walk(self@, w) && !omit.selects(w.first())
                    && !omit.selects(w.last()) ==> (edge(r@, w.first(), w.last()) matches Some(has)
                    && has.implies(walk_relation(self@, w))),
            forall|w: Seq<usize>|
                w.len() >= 2 && #[trigger] is_walk(self@, w) && direct_walk(w) && !omit.selects(
                    w.first(),
                ) && !omit.selects(w.last()) ==> (w.first() == w.last() && walk_relation(
                    self@,
                    w,
                ).permits_eq()) || (edge(r@, w.first(), w.last()) matches Some(kept)
                    && kept.implies(walk_relation(self@, w))),
            !crate::order::find_cycles::has_cycle(self@) ==> forall|w: Seq<usize>|
                w.len() >= 2 && #[trigger] is_walk(self@, w) && !omit.selects(w.first())
                    && !omit.selects(w.last()) ==> (w.first() == w.last() && walk_relation(
                    self@,
                    w,
                ).permits_eq()) || (edge(r@, w.first(), w.last()) matches Some(kept)
                    && kept.implies(walk_relation(self@, w))),
    {
        let cfg = Omission { omit };
        let starts = Unchosen { inner: omit };
        let transistor = Transistor::new(self, cfg);
        let closure = transistor.finish_where(&starts);
        let r = closure.without(omit);
        proof {
            assert forall|w: Seq<usize>|
                w.len() >= 2 && #[trigger] is_walk(self@, w) && direct_walk(w) && !omit.selects(
                    w.first(),
                ) && !omit.selects(w.last()) implies (w.first() == w.last() && walk_relation(
                self@,
                w,
            ).permits_eq()) || (edge(r@, w.first(), w.last()) matches Some(kept) && kept.implies(
                walk_relation(self@, w),
            )) by {
                assert(follows_forward::<I, Omission<S>>(&cfg));
                lemma_forward_route::<I, Omission<S>>(&cfg, self@, w);
                assert(step(self@, w, 0));
                assert(Selector::<I>::selects(&starts, w[0]));
                assert(row_complete::<I, Omission<S>>(&cfg, self@, closure@, w[0]));
                assert(route_held::<I, Omission<S>>(&cfg, self@, closure@, w));
                assert(edge(r@, w.first(), w.last()) == edge(closure@, w.first(), w.last()));
            }
            if !crate::order::find_cycles::has_cycle(self@) {
                assert forall|w: Seq<usize>|
                    w.len() >= 2 && #[trigger] is_walk(self@, w) && !omit.selects(w.first())
                        && !omit.selects(w.last()) implies (w.first() == w.last() && walk_relation(
                    self@,
                    w,
                ).permits_eq()) || (edge(r@, w.first(), w.last()) matches Some(kept)
                    && kept.implies(walk_relation(self@, w))) by {
                    let d = lemma_direct_walk(self@, w);
                    assert(is_walk(self@, d) && direct_walk(d));
                }
            }
            if forward_acyclic(self@) {
                assert(follows_forward::<I, Omission<S>>(&cfg));
                lemma_forward_descents::<I, Omission<S>>(&cfg, self@);
                assert forall|w: Seq<usize>|
                    w.len() >= 2 && #[trigger] is_walk(self@, w) && !omit.selects(w.first())
                        && !omit.selects(w.last()) implies (edge(r@, w.first(), w.last()) matches Some(
                    has,
                ) && has.implies(walk_relation(self@, w))) by {
                    lemma_acyclic_direct(self@, w);
                    lemma_forward_route::<I, Omission<S>>(&cfg, self@, w);
                    assert(step(self@, w, 0));
                    assert(Selector::<I>::selects(&starts, w[0]));
                    assert(row_complete::<I, Omission<S>>(&cfg, self@, closure@, w[0]));
                    assert(route_held::<I, Omission<S>>(&cfg, self@, closure@, w));
                    assert(edge(r@, w.first(), w.last()) == edge(closure@, w.first(), w.last()));
                }
            }
            assert forall|v: spec_fn(usize) -> int| #[trigger] satisfies(self@, v) implies satisfies(
                r@,
                v,
            ) by {
                assert(satisfies(closure@, v));
                assert forall|a: usize, b: usize|
                    a < r@.len() && #[trigger] r@[a as int].contains_key(b) implies r@[a as int][b].holds(
                    v(a),
                    v(b),
                ) by {
                    assert(edge(r@, a, b) == edge(closure@, a, b));
                    assert(closure@[a as int].contains_key(b));
                }
            }
            assert forall|a: usize, b: usize| #![trigger forward_edge(self@, a, b)]
                forward_edge(self@, a, b) is Some && !omit.selects(a) && !omit.selects(
                    b,
                ) implies (edge(r@, a, b) matches Some(has) && has.implies(
                    forward_edge(self@, a, b)->0,
                )) by {
                assert(self@[a as int].contains_key(b));
                assert(Selector::<I>::selects(&starts, a));
                assert(emitted::<I, Omission<S>>(&cfg, self@, closure@, a));
                assert(TransistorConfig::<I>::remaps(&cfg, a, self@[a as int][b], b)
                    == self@[a as int][b].lte_component());
                assert(edge(r@, a, b) == edge(closure@, a, b));
            }
        }
        r
    }
}

} // verus!
