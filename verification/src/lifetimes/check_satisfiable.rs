use vstd::prelude::*;
use crate::index_vec::Idx;
use crate::order::transistor::Selector;
use vstd::string::StringExecFns;
use crate::error::Error;
use crate::error::ErrorTree;
use crate::order::transistor::refines;
use crate::lifetimes::populate_bounds::bounds_outcome;
use crate::lifetimes::populate_bounds::OnSide;
use crate::lifetimes::Lifetime;
use crate::lifetimes::LifetimeCtx;
use crate::lifetimes::LifetimeInfo;
use crate::lifetimes::Side;
use crate::order::edge;
use crate::order::find_cycles::strict_loop;
use crate::order::forward_edge;
use crate::order::lemma_related_all_holds;
use crate::order::find_cycles::has_cycle;
use crate::order::find_cycles::is_strict_cycle;
use crate::order::transistor::entails;
use crate::order::find_cycles::forward_acyclic;
use crate::order::transistor::lemma_derived_is_entailed;
use crate::order::transistor::not_walked;
use crate::order::transistor::satisfies;
use crate::order::find_cycles::is_walk;
use crate::order::find_cycles::step;
use crate::order::coherent_outcome;
use crate::order::lines_outcome;
use crate::order::related_all;
use crate::order::transistor::residual_outcome;
use crate::order::transistor::walk_relation;
use crate::scope::leaf;
use crate::order::relation::Relation;
use crate::order::Order;
use crate::order::Rows;
use crate::lifetimes::entry_wf;
use crate::scope::DefinitionState;
use crate::scope::ScopeEntry;

verus! {

/// The label of the error for an order of a side that has a cycle.
pub open spec fn impossible_text(side: Side) -> Seq<char> {
    "impossible "@ + side.name_text() + " constraints:"@
}

/// The label of the error for obligations that would need a cycle.
pub open spec fn incoherent_text(side: Side) -> Seq<char> {
    "satisfying "@ + side.name_text() + " obligations would require incoherent constraints:"@
}

/// The label of the error for obligations that the guarantees do not give.
pub open spec fn missing_text(side: Side) -> Seq<char> {
    "satisfying "@ + side.name_text() + " obligations is impossible without more "@
        + side.other().name_text() + " guarantees:"@
}

/// The upper bound that is recorded for a lifetime.
pub open spec fn max_of(lifetimes: Seq<ScopeEntry<LifetimeInfo>>, a: Lifetime) -> Option<Lifetime> {
    if a.0 < lifetimes.len() {
        match lifetimes[a.0 as int].state {
            DefinitionState::Defined(info) => info.max,
            _ => None,
        }
    } else {
        None
    }
}

/// The lower bound that is recorded for a lifetime.
pub open spec fn min_of(lifetimes: Seq<ScopeEntry<LifetimeInfo>>, a: Lifetime) -> Option<Lifetime> {
    if a.0 < lifetimes.len() {
        match lifetimes[a.0 as int].state {
            DefinitionState::Defined(info) => info.min,
            _ => None,
        }
    } else {
        None
    }
}

/// What an obligation `a rel b` becomes when bounds stand in for its ends: the
/// upper bound of `a` for `a`, the lower bound of `b` for `b`. Nothing where
/// neither end has its bound.
pub open spec fn relaxed(
    lifetimes: Seq<ScopeEntry<LifetimeInfo>>,
    obligation: (Lifetime, Lifetime, Relation),
) -> Option<(Lifetime, Lifetime, Relation)> {
    let (a, b, rel) = obligation;
    match (max_of(lifetimes, a), min_of(lifetimes, b)) {
        (Some(x), Some(y)) => Some((x, y, rel)),
        (Some(x), None) => Some((x, b, rel)),
        (None, Some(y)) => Some((a, y, rel)),
        (None, None) => None,
    }
}

/// The relaxed forms of the obligations that have one, in order.
pub open spec fn relaxations(
    lifetimes: Seq<ScopeEntry<LifetimeInfo>>,
    residual: Seq<(Lifetime, Lifetime, Relation)>,
) -> Seq<(Lifetime, Lifetime, Relation)>
    decreases residual.len(),
{
    if residual.len() == 0 {
        Seq::empty()
    } else {
        let rest = relaxations(lifetimes, residual.drop_last());
        match relaxed(lifetimes, residual.last()) {
            Some(e) => rest.push(e),
            None => rest,
        }
    }
}

/// The obligations that have no relaxed form, in order.
pub open spec fn unbounded(
    lifetimes: Seq<ScopeEntry<LifetimeInfo>>,
    residual: Seq<(Lifetime, Lifetime, Relation)>,
) -> Seq<(Lifetime, Lifetime, Relation)>
    decreases residual.len(),
{
    if residual.len() == 0 {
        Seq::empty()
    } else {
        let rest = unbounded(lifetimes, residual.drop_last());
        match relaxed(lifetimes, residual.last()) {
            Some(_) => rest,
            None => rest.push(residual.last()),
        }
    }
}

/// An obligation without a relaxed form is among the obligations that are left.
proof fn lemma_unbounded_contains(
    lifetimes: Seq<ScopeEntry<LifetimeInfo>>,
    residual: Seq<(Lifetime, Lifetime, Relation)>,
    k: int,
)
    requires
        0 <= k < residual.len(),
        relaxed(lifetimes, residual[k]) is None,
    ensures
        exists|m: int|
            0 <= m < unbounded(lifetimes, residual).len() && #[trigger] unbounded(
                lifetimes,
                residual,
            )[m] == residual[k],
        forall|m: int|
            0 <= m < unbounded(lifetimes, residual).len() ==> exists|j: int|
                0 <= j < residual.len() && #[trigger] unbounded(lifetimes, residual)[m]
                    == residual[j],
    decreases residual.len(),
{
    lemma_unbounded_within(lifetimes, residual);
    let rest = unbounded(lifetimes, residual.drop_last());
    if k < residual.len() - 1 {
        assert(residual.drop_last()[k] == residual[k]);
        lemma_unbounded_contains(lifetimes, residual.drop_last(), k);
        let m = choose|m: int| 0 <= m < rest.len() && #[trigger] rest[m] == residual[k];
        assert(unbounded(lifetimes, residual)[m] == rest[m]);
    } else {
        assert(unbounded(lifetimes, residual) == rest.push(residual.last()));
        assert(unbounded(lifetimes, residual)[rest.len() as int] == residual[k]);
    }
}

/// Every obligation that is left is one of the obligations.
proof fn lemma_unbounded_within(
    lifetimes: Seq<ScopeEntry<LifetimeInfo>>,
    residual: Seq<(Lifetime, Lifetime, Relation)>,
)
    ensures
        forall|m: int|
            0 <= m < unbounded(lifetimes, residual).len() ==> exists|j: int|
                0 <= j < residual.len() && #[trigger] unbounded(lifetimes, residual)[m]
                    == residual[j],
    decreases residual.len(),
{
    if residual.len() > 0 {
        lemma_unbounded_within(lifetimes, residual.drop_last());
        let rest = unbounded(lifetimes, residual.drop_last());
        let all = unbounded(lifetimes, residual);
        assert forall|m: int| 0 <= m < all.len() implies exists|j: int|
            0 <= j < residual.len() && #[trigger] all[m] == residual[j] by {
            if m < rest.len() {
                assert(all[m] == rest[m]);
                let j = choose|j: int|
                    0 <= j < residual.drop_last().len() && rest[m] == residual.drop_last()[j];
                assert(residual.drop_last()[j] == residual[j]);
            } else {
                assert(all[m] == residual[residual.len() - 1]);
            }
        }
    }
}

/// Whether the obligations leave a lifetime out: it is defined and on the side
/// that is given.
pub open spec fn left_out(
    lifetimes: Seq<ScopeEntry<LifetimeInfo>>,
    side: Option<Side>,
    a: usize,
) -> bool {
    side is Some && crate::lifetimes::side_in(lifetimes, a) == side
}

/// Whether every obligation between lifetimes that are not left out follows
/// from the guarantees or has a bound to stand in at one of its ends.
pub open spec fn obligations_met(
    lifetimes: Seq<ScopeEntry<LifetimeInfo>>,
    side: Option<Side>,
    knows: Rows,
    needs: Rows,
) -> bool {
    forall|a: usize, b: usize|
        #![trigger forward_edge(needs, a, b)]
        forward_edge(needs, a, b) is Some && !left_out(lifetimes, side, a) && !left_out(
            lifetimes,
            side,
            b,
        ) ==> entails(knows, a, forward_edge(needs, a, b)->0, b) || max_of(lifetimes, Lifetime(a)) is Some
            || min_of(lifetimes, Lifetime(b)) is Some
}

/// Whether the guarantees give, by a walk along forward relations, every
/// forward relation that the obligations imply between lifetimes that are not
/// left out. That a lifetime is at most itself needs no walk.
pub open spec fn obligations_given(
    lifetimes: Seq<ScopeEntry<LifetimeInfo>>,
    side: Option<Side>,
    knows: Rows,
    needs: Rows,
) -> bool {
    forall|a: usize, b: usize, rel: Relation|
        #![trigger entails(needs, a, rel, b)]
        !left_out(lifetimes, side, a) && !left_out(lifetimes, side, b) && rel.lte_component()
            == Some(rel) && !(a == b && rel.permits_eq()) && entails(needs, a, rel, b)
            ==> !not_walked(knows, a, rel, b)
}

/// An order without relations has no cycle and puts no obligation: whatever
/// the guarantees are, they give all that it implies.
pub proof fn lemma_nothing_owed(
    lifetimes: Seq<ScopeEntry<LifetimeInfo>>,
    side: Option<Side>,
    knows: Rows,
    needs: Rows,
)
    requires
        needs.len() == 0,
    ensures
        obligations_given(lifetimes, side, knows, needs),
        forward_acyclic(needs),
        !has_cycle(needs),
{
    assert forall|a: usize, b: usize, rel: Relation|
        #![trigger entails(needs, a, rel, b)]
        !left_out(lifetimes, side, a) && !left_out(lifetimes, side, b) && rel.lte_component()
            == Some(rel) && !(a == b && rel.permits_eq()) && entails(
            needs,
            a,
            rel,
            b,
        ) implies !not_walked(knows, a, rel, b) by {
        let v = |x: usize| -> int {
            if x == a {
                1int
            } else {
                0int
            }
        };
        assert(satisfies(needs, v));
        assert(rel.holds(v(a), v(b)));
    }
    assert forall|w: Seq<usize>| w.len() >= 2 && #[trigger] is_walk(needs, w) implies w.first()
        != w.last() by {
        assert(step(needs, w, 0));
    }
    if has_cycle(needs) {
        let c = choose|c: Seq<usize>| is_strict_cycle(needs, c);
        assert(step(needs, c, 0));
    }
}

/// The names of the entries of a scope, in order.
pub open spec fn entry_names<T>(entries: Seq<ScopeEntry<T>>) -> Seq<Seq<char>> {
    Seq::new(entries.len(), |i: int| entries[i].name)
}

/// What the obligations may come to once the lifetimes of `side` are left
/// out: `kept` says nothing that the obligations do not imply, relates no
/// lifetime that is left out, and holds every forward relation of the
/// obligations between lifetimes that stay, at least as tight; where no walk
/// along forward relations comes back to its start, it holds the relation of
/// every such walk between lifetimes that stay.
pub open spec fn kept_outcome(
    lifetimes: Seq<ScopeEntry<LifetimeInfo>>,
    side: Option<Side>,
    needs: Rows,
    kept: Rows,
) -> bool {
    &&& crate::order::rows_wf(kept)
    &&& kept.len() <= needs.len()
    &&& refines(needs, kept)
    &&& forall|a: usize, b: usize|
        #![trigger edge(kept, a, b)]
        edge(kept, a, b) is Some ==> !left_out(lifetimes, side, a) && !left_out(lifetimes, side, b)
    &&& forall|a: usize, b: usize|
        #![trigger forward_edge(needs, a, b)]
        forward_edge(needs, a, b) is Some && !left_out(lifetimes, side, a) && !left_out(
            lifetimes,
            side,
            b,
        ) ==> (edge(kept, a, b) matches Some(has) && has.implies(forward_edge(needs, a, b)->0))
    &&& forward_acyclic(needs) ==> forall|w: Seq<usize>|
        w.len() >= 2 && #[trigger] is_walk(needs, w) && !left_out(lifetimes, side, w.first())
            && !left_out(lifetimes, side, w.last()) ==> (edge(kept, w.first(), w.last()) matches Some(
            has,
        ) && has.implies(walk_relation(needs, w)))
    &&& forall|w: Seq<usize>|
        w.len() >= 2 && #[trigger] is_walk(needs, w) && crate::order::transistor::direct_walk(w)
            && !left_out(lifetimes, side, w.first()) && !left_out(lifetimes, side, w.last()) ==> (
        w.first() == w.last() && walk_relation(needs, w).permits_eq()) || (edge(
            kept,
            w.first(),
            w.last(),
        ) matches Some(found) && found.implies(walk_relation(needs, w)))
    &&& !has_cycle(needs) ==> forall|w: Seq<usize>|
        w.len() >= 2 && #[trigger] is_walk(needs, w) && !left_out(lifetimes, side, w.first())
            && !left_out(lifetimes, side, w.last()) ==> (w.first() == w.last() && walk_relation(
            needs,
            w,
        ).permits_eq()) || (edge(kept, w.first(), w.last()) matches Some(found) && found.implies(
            walk_relation(needs, w),
        ))
}

/// The steps of `check_satisfiable`, each as far as it is fixed: the errors of
/// the cycles of the obligations; the obligations without the lifetimes that
/// are left out; those among them that the guarantees do not give; the errors
/// of the cycles of the guarantees with the relaxed obligations; the lines of
/// the obligations without bounds; and the two lists that follow them.
pub struct SatisfiableSteps {
    pub cycles: Seq<ErrorTree>,
    pub kept: Rows,
    pub residual: Seq<(Lifetime, Lifetime, Relation)>,
    pub relaxed_cycles: Seq<ErrorTree>,
    pub problems: Seq<ErrorTree>,
    pub known: ErrorTree,
    pub needed: ErrorTree,
}

/// Whether `r` is what `check_satisfiable` gives where its steps come to
/// `steps`. A cycle in the obligations ends the check with the error of the
/// cycles. Else the obligations that the guarantees do not give are relaxed
/// by the bounds of their ends and added to the guarantees; a cycle in these
/// ends the check in the same way. Else the obligations without bounds are
/// the error, followed by what is known and what is needed; without any, the
/// check succeeds.
pub open spec fn satisfiable_steps(
    lifetimes: Seq<ScopeEntry<LifetimeInfo>>,
    side: Option<Side>,
    knows: Rows,
    needs: Rows,
    cycle_message: Seq<char>,
    diff_message: Seq<char>,
    steps: SatisfiableSteps,
    r: Result<(), Error>,
) -> bool {
    let names = entry_names(lifetimes);
    let relaxed = relaxations(lifetimes, steps.residual);
    let left = unbounded(lifetimes, steps.residual);
    &&& coherent_outcome(needs, names, steps.cycles)
    &&& if steps.cycles.len() > 0 {
        r is Err && r->Err_0@ == (ErrorTree { message: cycle_message, causes: steps.cycles })
    } else {
        &&& kept_outcome(lifetimes, side, needs, steps.kept)
        &&& residual_outcome(steps.kept, knows, steps.residual)
        &&& if relaxed.len() > 0 {
            coherent_outcome(related_all(knows, relaxed), names, steps.relaxed_cycles)
        } else {
            steps.relaxed_cycles.len() == 0
        }
        &&& if steps.relaxed_cycles.len() > 0 {
            r is Err && r->Err_0@ == (ErrorTree {
                message: cycle_message,
                causes: steps.relaxed_cycles,
            })
        } else {
            &&& lines_outcome::<Lifetime>(
                related_all(Seq::<Map<usize, Relation>>::empty(), left),
                names,
                steps.problems,
            )
            &&& if steps.problems.len() == 0 {
                r is Ok
            } else {
                &&& r is Err
                &&& r->Err_0@ == (ErrorTree {
                    message: diff_message,
                    causes: steps.problems.push(steps.known).push(steps.needed),
                })
                &&& steps.known.message == "we know:"@
                &&& lines_outcome::<Lifetime>(knows, names, steps.known.causes)
                &&& steps.needed.message == "we need:"@
                &&& lines_outcome::<Lifetime>(needs, names, steps.needed.causes)
            }
        }
    }
}

/// Whether `r` is what `check_satisfiable` may give: the result of its steps,
/// whatever they come to within what is fixed of them.
pub open spec fn satisfiable_outcome(
    lifetimes: Seq<ScopeEntry<LifetimeInfo>>,
    side: Option<Side>,
    knows: Rows,
    needs: Rows,
    cycle_message: Seq<char>,
    diff_message: Seq<char>,
    r: Result<(), Error>,
) -> bool {
    exists|steps: SatisfiableSteps|
        satisfiable_steps(lifetimes, side, knows, needs, cycle_message, diff_message, steps, r)
}

/// The steps of `check_contract_satisfiable`, each as far as it is fixed: the
/// errors of the cycles of the two orders, the lifetimes and the result after
/// the bounds of each side have been recorded, and the result of the check of
/// the external obligations.
pub struct ContractSteps {
    pub ex_cycles: Seq<ErrorTree>,
    pub in_cycles: Seq<ErrorTree>,
    pub ex_lifetimes: Seq<ScopeEntry<LifetimeInfo>>,
    pub ex_bounds: Result<(), String>,
    pub in_lifetimes: Seq<ScopeEntry<LifetimeInfo>>,
    pub in_bounds: Result<(), String>,
    pub ex_sat: Result<(), Error>,
}

/// Whether `after` and `r` are what `check_contract_satisfiable` gives where
/// its steps come to `steps`. A cycle in the guarantees, and then one in the
/// obligations, ends the check with the error of the cycles, the lifetimes
/// unchanged. Else the bounds of the external and then of the internal
/// lifetimes are recorded; a bound that is rejected ends the check with its
/// message. Else the external obligations must follow from the internal
/// guarantees, and then the internal obligations from the external
/// guarantees.
pub open spec fn contract_steps(
    lifetimes: Seq<ScopeEntry<LifetimeInfo>>,
    ex_order: Rows,
    in_order: Rows,
    steps: ContractSteps,
    after: Seq<ScopeEntry<LifetimeInfo>>,
    r: Result<(), Error>,
) -> bool {
    let names = entry_names(lifetimes);
    &&& coherent_outcome(ex_order, names, steps.ex_cycles)
    &&& if steps.ex_cycles.len() > 0 {
        r is Err && r->Err_0@ == (ErrorTree {
            message: impossible_text(Side::External),
            causes: steps.ex_cycles,
        }) && after == lifetimes
    } else {
        &&& coherent_outcome(in_order, names, steps.in_cycles)
        &&& if steps.in_cycles.len() > 0 {
            r is Err && r->Err_0@ == (ErrorTree {
                message: impossible_text(Side::Internal),
                causes: steps.in_cycles,
            }) && after == lifetimes
        } else {
            &&& bounds_outcome(
                lifetimes,
                ex_order,
                Side::External,
                steps.ex_lifetimes,
                steps.ex_bounds,
            )
            &&& match steps.ex_bounds {
                Err(msg) => r is Err && r->Err_0@ == leaf(msg@) && after == steps.ex_lifetimes,
                Ok(_) => {
                    &&& bounds_outcome(
                        steps.ex_lifetimes,
                        in_order,
                        Side::Internal,
                        steps.in_lifetimes,
                        steps.in_bounds,
                    )
                    &&& after == steps.in_lifetimes
                    &&& match steps.in_bounds {
                        Err(msg) => r is Err && r->Err_0@ == leaf(msg@),
                        Ok(_) => {
                            &&& satisfiable_outcome(
                                after,
                                Some(Side::External),
                                in_order,
                                ex_order,
                                incoherent_text(Side::External),
                                missing_text(Side::External),
                                steps.ex_sat,
                            )
                            &&& match steps.ex_sat {
                                Err(e) => r is Err && r->Err_0@ == e@,
                                Ok(_) => satisfiable_outcome(
                                    after,
                                    Some(Side::Internal),
                                    ex_order,
                                    in_order,
                                    incoherent_text(Side::Internal),
                                    missing_text(Side::Internal),
                                    r,
                                ),
                            }
                        },
                    }
                },
            }
        }
    }
}

/// Whether `after` and `r` are what `check_contract_satisfiable` may give: the
/// result of its steps, whatever they come to within what is fixed of them.
pub open spec fn contract_outcome(
    lifetimes: Seq<ScopeEntry<LifetimeInfo>>,
    ex_order: Rows,
    in_order: Rows,
    after: Seq<ScopeEntry<LifetimeInfo>>,
    r: Result<(), Error>,
) -> bool {
    exists|steps: ContractSteps| contract_steps(lifetimes, ex_order, in_order, steps, after, r)
}

/// What `discharge` hands back: the guarantees with the relaxed obligations
/// added, whether any was added, and the obligations that are left.
pub struct Discharge {
    pub new_knows: Order<Lifetime>,
    pub changed: bool,
    pub problems: Order<Lifetime>,
}

fn side_text(side: Side, which: u8) -> (s: String)
    requires
        which < 3,
    ensures
        which == 0 ==> s@ == impossible_text(side),
        which == 1 ==> s@ == incoherent_text(side),
        which == 2 ==> s@ == missing_text(side),
{
    if which == 0 {
        let mut s = String::from_str("impossible ");
        s.append(side.name());
        s.append(" constraints:");
        s
    } else if which == 1 {
        let mut s = String::from_str("satisfying ");
        s.append(side.name());
        s.append(" obligations would require incoherent constraints:");
        s
    } else {
        let other = match side {
            Side::External => Side::Internal,
            Side::Internal => Side::External,
        };
        let mut s = String::from_str("satisfying ");
        s.append(side.name());
        s.append(" obligations is impossible without more ");
        s.append(other.name());
        s.append(" guarantees:");
        s
    }
}

impl LifetimeCtx {
    /// Tries to discharge obligations that the guarantees do not give by the
    /// bounds of their ends: an obligation with a bound at either end is added
    /// to the guarantees in its relaxed form, one without is a problem.
    pub fn discharge(
        &self,
        residual: &Vec<(Lifetime, Lifetime, Relation)>,
        knows: &Order<Lifetime>,
    ) -> (r: Discharge)
        requires
            self.wf(),
            knows.wf(),
            knows@.len() <= self.lifetimes@.len(),
            forall|k: int|
                0 <= k < residual@.len() ==> (#[trigger] residual@[k]).0.0 < self.lifetimes@.len()
                    && residual@[k].1.0 < self.lifetimes@.len(),
        ensures
            r.new_knows.wf(),
            r.problems.wf(),
            r.new_knows@ == related_all(knows@, relaxations(self.lifetimes@, residual@)),
            r.problems@ == related_all(
                Seq::<Map<usize, Relation>>::empty(),
                unbounded(self.lifetimes@, residual@),
            ),
            r.changed == (relaxations(self.lifetimes@, residual@).len() > 0),
            r.new_knows@.len() <= self.lifetimes@.len(),
            r.problems@.len() <= self.lifetimes@.len(),
    {
        let mut new_knows = knows.clone();
        let mut changed = false;
        let mut problems: Order<Lifetime> = Order::new();
        let n = self.lifetimes.count();
        let mut i: usize = 0;
        assert(residual@.subrange(0, 0) =~= Seq::<(Lifetime, Lifetime, Relation)>::empty());
        while i < residual.len()
            invariant
                self.wf(),
                n == self.lifetimes@.len(),
                i <= residual@.len(),
                forall|k: int|
                    0 <= k < residual@.len() ==> (#[trigger] residual@[k]).0.0 < self.lifetimes@.len()
                        && residual@[k].1.0 < self.lifetimes@.len(),
                new_knows.wf(),
                problems.wf(),
                new_knows@.len() <= n,
                problems@.len() <= n,
                new_knows@ == related_all(
                    knows@,
                    relaxations(self.lifetimes@, residual@.subrange(0, i as int)),
                ),
                problems@ == related_all(
                    Seq::<Map<usize, Relation>>::empty(),
                    unbounded(self.lifetimes@, residual@.subrange(0, i as int)),
                ),
                changed == (relaxations(self.lifetimes@, residual@.subrange(0, i as int)).len() > 0),
            decreases residual@.len() - i,
        {
            let (a, b, rel) = residual[i];
            proof {
                let upto = residual@.subrange(0, i + 1);
                assert(upto.drop_last() =~= residual@.subrange(0, i as int));
                assert(upto.last() == residual@[i as int]);
                assert(entry_wf(self.lifetimes@[a.0 as int], self.lifetimes@.len()));
                assert(entry_wf(self.lifetimes@[b.0 as int], self.lifetimes@.len()));
            }
            let max = match self.lifetimes.peek(a) {
                Some(info) => info.max,
                None => None,
            };
            let min = match self.lifetimes.peek(b) {
                Some(info) => info.min,
                None => None,
            };
            let ghost knows_before = new_knows@;
            let ghost problems_before = problems@;
            proof {
                let before = residual@.subrange(0, i as int);
                let upto = residual@.subrange(0, i + 1);
                assert(upto.drop_last() == before);
                match relaxed(self.lifetimes@, residual@[i as int]) {
                    Some(e) => {
                        assert(relaxations(self.lifetimes@, upto) == relaxations(
                            self.lifetimes@,
                            before,
                        ).push(e));
                        assert(unbounded(self.lifetimes@, upto) == unbounded(self.lifetimes@, before));
                        crate::order::lemma_related_all_push(
                            knows@,
                            relaxations(self.lifetimes@, before),
                            e,
                        );
                    },
                    None => {
                        assert(relaxations(self.lifetimes@, upto) == relaxations(
                            self.lifetimes@,
                            before,
                        ));
                        assert(unbounded(self.lifetimes@, upto) == unbounded(
                            self.lifetimes@,
                            before,
                        ).push(residual@[i as int]));
                        crate::order::lemma_related_all_push(
                            Seq::<Map<usize, Relation>>::empty(),
                            unbounded(self.lifetimes@, before),
                            residual@[i as int],
                        );
                    },
                }
            }
            match (max, min) {
                (Some(x), Some(y)) => {
                    proof {
                        crate::order::lemma_related_tightens_len(knows_before, x.0, y.0, rel);
                    }
                    new_knows.relate(x, y, rel);
                    changed = true;
                },
                (Some(x), None) => {
                    proof {
                        crate::order::lemma_related_tightens_len(knows_before, x.0, b.0, rel);
                    }
                    new_knows.relate(x, b, rel);
                    changed = true;
                },
                (None, Some(y)) => {
                    proof {
                        crate::order::lemma_related_tightens_len(knows_before, a.0, y.0, rel);
                    }
                    new_knows.relate(a, y, rel);
                    changed = true;
                },
                (None, None) => {
                    proof {
                        crate::order::lemma_related_tightens_len(problems_before, a.0, b.0, rel);
                    }
                    problems.relate(a, b, rel);
                },
            }
            i += 1;
        }
        assert(residual@.subrange(0, i as int) =~= residual@);
        Discharge { new_knows, changed, problems }
    }

    /// The error that lists what an order of the context says: under `label`,
    /// one line for each forward relation of the order.
    fn describe(&self, label: &str, order: &Order<Lifetime>) -> (e: Error)
        requires
            order.wf(),
            order@.len() <= self.lifetimes@.len(),
        ensures
            e@.message == label@,
            e@.causes.len() == 0 <==> forall|a: usize, b: usize| forward_edge(order@, a, b) is None,
            lines_outcome::<Lifetime>(order@, entry_names(self.lifetimes@), e@.causes),
    {
        assert(self.lifetimes.names() =~= entry_names(self.lifetimes@));
        let mut lines = order.verify_empty(&self.lifetimes);
        match lines.report(String::from_str(label)) {
            Ok(()) => Error::msg(label),
            Err(e) => e,
        }
    }

    /// Decides whether the obligations `needs` follow from the guarantees
    /// `knows`, with bounds standing in for lifetimes where they have to.
    ///
    /// The obligations must have no cycle. Lifetimes of `side` are left out of
    /// them: what they say of the other lifetimes is kept. An obligation that
    /// is then left and that `knows` does not give is relaxed by the bounds of
    /// its ends and added to the guarantees, which must stay without cycle; one
    /// without bounds is reported. Where no side is given, the messages speak
    /// of the internal side. Obligations that relate nothing are always met.
    pub fn check_satisfiable(
        &self,
        side: Option<Side>,
        knows: &Order<Lifetime>,
        needs: &Order<Lifetime>,
    ) -> (r: Result<(), Error>)
        requires
            self.wf(),
            knows.wf(),
            needs.wf(),
            knows@.len() <= self.lifetimes@.len(),
            needs@.len() <= self.lifetimes@.len(),
        ensures
            r is Ok ==> forall|a: usize| a < needs@.len() ==> !strict_loop(needs@, a),
            r is Ok ==> obligations_met(self.lifetimes@, side, knows@, needs@),
            forward_acyclic(needs@) && forward_acyclic(knows@) && obligations_given(
                self.lifetimes@,
                side,
                knows@,
                needs@,
            ) ==> r is Ok,
            needs@.len() == 0 ==> r is Ok,
            !has_cycle(needs@) && !has_cycle(knows@) && obligations_given(
                self.lifetimes@,
                side,
                knows@,
                needs@,
            ) ==> r is Ok,
            (exists|a: usize| a < needs@.len() && strict_loop(needs@, a)) ==> r is Err
                && r->Err_0@.message == incoherent_text(obligation_side(side)),
            r matches Err(e) ==> e@.message == incoherent_text(obligation_side(side)) || e@.message
                == missing_text(obligation_side(side)),
            has_cycle(needs@) ==> r is Err && r->Err_0@.message == incoherent_text(
                obligation_side(side),
            ),
            satisfiable_outcome(
                self.lifetimes@,
                side,
                knows@,
                needs@,
                incoherent_text(obligation_side(side)),
                missing_text(obligation_side(side)),
                r,
            ),
    {
        let named = match side {
            Some(side) => side,
            None => Side::Internal,
        };
        let cycle_message = side_text(named, 1);
        let diff_message = side_text(named, 2);
        self.check_satisfiable_with(side, knows, needs, cycle_message.as_str(), diff_message.as_str())
    }

    /// The work of `check_satisfiable`, with the labels of its two errors given.
    fn check_satisfiable_with(
        &self,
        side: Option<Side>,
        knows: &Order<Lifetime>,
        needs: &Order<Lifetime>,
        cycle_message: &str,
        diff_message: &str,
    ) -> (r: Result<(), Error>)
        requires
            self.wf(),
            knows.wf(),
            needs.wf(),
            knows@.len() <= self.lifetimes@.len(),
            needs@.len() <= self.lifetimes@.len(),
        ensures
            r is Ok ==> forall|a: usize| a < needs@.len() ==> !strict_loop(needs@, a),
            r is Ok ==> obligations_met(self.lifetimes@, side, knows@, needs@),
            forward_acyclic(needs@) && forward_acyclic(knows@) && obligations_given(
                self.lifetimes@,
                side,
                knows@,
                needs@,
            ) ==> r is Ok,
            needs@.len() == 0 ==> r is Ok,
            !has_cycle(needs@) && !has_cycle(knows@) && obligations_given(
                self.lifetimes@,
                side,
                knows@,
                needs@,
            ) ==> r is Ok,
            (exists|a: usize| a < needs@.len() && strict_loop(needs@, a)) ==> r is Err
                && r->Err_0@.message == cycle_message@,
            r matches Err(e) ==> e@.message == cycle_message@ || e@.message == diff_message@,
            has_cycle(needs@) ==> r is Err && r->Err_0@.message == cycle_message@,
            satisfiable_outcome(
                self.lifetimes@,
                side,
                knows@,
                needs@,
                cycle_message@,
                diff_message@,
                r,
            ),
    {
        let ghost names = entry_names(self.lifetimes@);
        assert(self.lifetimes.names() =~= names);
        let ghost owed = !has_cycle(needs@) && !has_cycle(knows@) && obligations_given(
            self.lifetimes@,
            side,
            knows@,
            needs@,
        );
        proof {
            if forward_acyclic(needs@) && has_cycle(needs@) {
                let c = choose|c: Seq<usize>| is_strict_cycle(needs@, c);
                assert(crate::order::find_cycles::is_walk(needs@, c));
            }
            if forward_acyclic(knows@) && has_cycle(knows@) {
                let c = choose|c: Seq<usize>| is_strict_cycle(knows@, c);
                assert(crate::order::find_cycles::is_walk(knows@, c));
            }
            if needs@.len() == 0 {
                lemma_nothing_owed(self.lifetimes@, side, knows@, needs@);
            }
        }
        let mut cycles = needs.check_coherent(&self.lifetimes);
        let ghost found = cycles@;
        match cycles.report(String::from_str(cycle_message)) {
            Err(e) => {
                let r = Err(e);
                proof {
                    let steps = SatisfiableSteps {
                        cycles: found,
                        kept: Seq::empty(),
                        residual: Seq::empty(),
                        relaxed_cycles: Seq::empty(),
                        problems: Seq::empty(),
                        known: leaf(Seq::empty()),
                        needed: leaf(Seq::empty()),
                    };
                    assert(satisfiable_steps(
                        self.lifetimes@,
                        side,
                        knows@,
                        needs@,
                        cycle_message@,
                        diff_message@,
                        steps,
                        r,
                    ));
                }
                return r;
            },
            Ok(()) => {},
        }
        let omitted = OnSide { lifetimes: &self.lifetimes, side };
        let ghost total = self.lifetimes@.len();
        proof {
            self.lifetimes.lemma_count_fits();
        }
        let kept = needs.omit(&omitted);
        let residual = kept.difference(knows);
        proof {
            assert forall|k: int| 0 <= k < residual@.len() implies (#[trigger] residual@[k]).0.0
                < self.lifetimes@.len() && residual@[k].1.0 < self.lifetimes@.len() by {
                let a = residual@[k].0.0;
                let b = residual@[k].1.0;
                assert(forward_edge(kept@, residual@[k].0.index(), residual@[k].1.index()) is Some);
                assert(kept@[a as int].contains_key(b));
            }
        }
        proof {
            if needs@.len() == 0 && residual@.len() > 0 {
                assert(forward_edge(kept@, residual@[0].0.index(), residual@[0].1.index()) is Some);
            }
            if owed && residual@.len() > 0 {
                let a = residual@[0].0.index();
                let b = residual@[0].1.index();
                let rel = residual@[0].2;
                assert(forward_edge(kept@, a, b) == Some(rel));
                assert(kept@[a as int].contains_key(b));
                assert(edge(kept@, a, b) is Some);
                lemma_derived_is_entailed(needs@, kept@, a, b, rel);
                assert(!omitted.selects(a) && !omitted.selects(b));
                assert(not_walked(knows@, a, rel, b));
                assert(false);
            }
        }
        assert(kept_outcome(self.lifetimes@, side, needs@, kept@));
        let outcome = self.discharge(&residual, knows);
        let ghost mut relaxed_found: Seq<ErrorTree> = Seq::empty();
        if outcome.changed {
            let mut cycles = outcome.new_knows.check_coherent(&self.lifetimes);
            proof {
                relaxed_found = cycles@;
            }
            match cycles.report(String::from_str(cycle_message)) {
                Err(e) => {
                    let r = Err(e);
                    proof {
                        let steps = SatisfiableSteps {
                            cycles: found,
                            kept: kept@,
                            residual: residual@,
                            relaxed_cycles: relaxed_found,
                            problems: Seq::empty(),
                            known: leaf(Seq::empty()),
                            needed: leaf(Seq::empty()),
                        };
                        assert(satisfiable_steps(
                            self.lifetimes@,
                            side,
                            knows@,
                            needs@,
                            cycle_message@,
                            diff_message@,
                            steps,
                            r,
                        ));
                    }
                    return r;
                },
                Ok(()) => {},
            }
        }
        let mut errors = outcome.problems.verify_empty(&self.lifetimes);
        let ghost lines = errors@;
        if errors.is_empty() {
            proof {
                let left = unbounded(self.lifetimes@, residual@);
                assert forall|a: usize, b: usize| #![trigger forward_edge(needs@, a, b)]
                    forward_edge(needs@, a, b) is Some && !left_out(self.lifetimes@, side, a)
                        && !left_out(self.lifetimes@, side, b) implies entails(
                    knows@,
                    a,
                    forward_edge(needs@, a, b)->0,
                    b,
                ) || max_of(self.lifetimes@, Lifetime(a)) is Some || min_of(
                    self.lifetimes@,
                    Lifetime(b),
                ) is Some by {
                    let fwd = forward_edge(needs@, a, b)->0;
                    assert(!omitted.selects(a) && !omitted.selects(b));
                    assert(needs@[a as int].contains_key(b));
                    assert(kept@[a as int].contains_key(b));
                    let has = kept@[a as int][b];
                    assert(has.implies(fwd));
                    let tight = forward_edge(kept@, a, b)->0;
                    assert(tight.implies(fwd));
                    if !entails(knows@, a, tight, b) {
                        let k = choose|k: int|
                            0 <= k < residual@.len() && (#[trigger] residual@[k]).0.index() == a
                                && residual@[k].1.index() == b;
                        assert(forward_edge(
                            kept@,
                            residual@[k].0.index(),
                            residual@[k].1.index(),
                        ) == Some(residual@[k].2));
                        assert(residual@[k] == (Lifetime(a), Lifetime(b), tight));
                        if relaxed(self.lifetimes@, residual@[k]) is None {
                            lemma_unbounded_contains(self.lifetimes@, residual@, k);
                            let m = choose|m: int| 0 <= m < left.len() && #[trigger] left[m] == residual@[k];
                            assert forall|j: int| 0 <= j < left.len() implies (#[trigger] left[j]).0.index()
                                < usize::MAX && left[j].1.index() < usize::MAX by {
                                assert(total == self.lifetimes@.len());
                                let i = choose|i: int|
                                    0 <= i < residual@.len() && left[j] == residual@[i];
                                assert(forward_edge(
                                    kept@,
                                    residual@[i].0.index(),
                                    residual@[i].1.index(),
                                ) is Some);
                                assert(kept@[residual@[i].0.index() as int].contains_key(
                                    residual@[i].1.index(),
                                ));
                            }
                            lemma_related_all_holds(
                                Seq::<Map<usize, Relation>>::empty(),
                                left,
                                m,
                            );
                            assert(forward_edge(outcome.problems@, a, b) is Some);
                        }
                    } else {
                        assert forall|v: spec_fn(usize) -> int| #[trigger]
                            crate::order::transistor::satisfies(knows@, v) implies fwd.holds(
                            v(a),
                            v(b),
                        ) by {
                            assert(tight.holds(v(a), v(b)));
                        }
                    }
                }
            }
            let r = Ok(());
            proof {
                let steps = SatisfiableSteps {
                    cycles: found,
                    kept: kept@,
                    residual: residual@,
                    relaxed_cycles: relaxed_found,
                    problems: lines,
                    known: leaf(Seq::empty()),
                    needed: leaf(Seq::empty()),
                };
                assert(satisfiable_steps(
                    self.lifetimes@,
                    side,
                    knows@,
                    needs@,
                    cycle_message@,
                    diff_message@,
                    steps,
                    r,
                ));
            }
            r
        } else {
            let known = self.describe("we know:", knows);
            let needed = self.describe("we need:", needs);
            let ghost known_tree = known@;
            let ghost needed_tree = needed@;
            errors.push_error(known);
            errors.push_error(needed);
            let r = errors.report(String::from_str(diff_message));
            proof {
                reveal_strlit("we know:");
                reveal_strlit("we need:");
                let steps = SatisfiableSteps {
                    cycles: found,
                    kept: kept@,
                    residual: residual@,
                    relaxed_cycles: relaxed_found,
                    problems: lines,
                    known: known_tree,
                    needed: needed_tree,
                };
                assert(satisfiable_steps(
                    self.lifetimes@,
                    side,
                    knows@,
                    needs@,
                    cycle_message@,
                    diff_message@,
                    steps,
                    r,
                ));
            }
            r
        }
    }

    /// Decides whether the contract can be kept at all: neither order has a
    /// cycle, the bounds of the lifetimes can be found, and on each side the
    /// obligations follow from what the other side guarantees.
    pub fn check_contract_satisfiable(&mut self) -> (r: Result<(), Error>)
        requires
            old(self).wf(),
        ensures
            final(self).wf(),
            final(self).ex_order == old(self).ex_order,
            final(self).in_order == old(self).in_order,
            final(self).lifetimes@.len() == old(self).lifetimes@.len(),
            forall|a: int|
                0 <= a < old(self).lifetimes@.len() ==> {
                    let before = old(self).lifetimes@[a];
                    let after = #[trigger] final(self).lifetimes@[a];
                    &&& after.name == before.name
                    &&& final(self).side_of(a as usize) == old(self).side_of(a as usize)
                },
            r is Ok ==> forall|a: usize|
                (a < old(self).ex_order@.len() ==> !strict_loop(old(self).ex_order@, a)) && (a < old(self).in_order@.len() ==> !strict_loop(old(self).in_order@, a)),
            (exists|a: usize| a < old(self).ex_order@.len() && strict_loop(old(self).ex_order@, a))
                ==> r is Err && r->Err_0@.message == impossible_text(Side::External),
            !has_cycle(old(self).ex_order@) && (exists|a: usize|
                a < old(self).in_order@.len() && strict_loop(old(self).in_order@, a)) ==> r is Err
                && r->Err_0@.message == impossible_text(Side::Internal),
            r is Ok ==> obligations_met(
                final(self).lifetimes@,
                Some(Side::External),
                old(self).in_order@,
                old(self).ex_order@,
            ) && obligations_met(
                final(self).lifetimes@,
                Some(Side::Internal),
                old(self).ex_order@,
                old(self).in_order@,
            ),
            old(self).ex_order@.len() == 0 && old(self).in_order@.len() == 0 ==> r is Ok && final(self).lifetimes@ == old(self).lifetimes@,
            has_cycle(old(self).ex_order@) ==> r is Err && r->Err_0@.message == impossible_text(
                Side::External,
            ) && final(self).lifetimes@ == old(self).lifetimes@,
            !has_cycle(old(self).ex_order@) && has_cycle(old(self).in_order@) ==> r is Err
                && r->Err_0@.message == impossible_text(Side::Internal) && final(self).lifetimes@
                == old(self).lifetimes@,
            r is Ok ==> !has_cycle(old(self).ex_order@) && !has_cycle(old(self).in_order@),
            contract_outcome(
                old(self).lifetimes@,
                old(self).ex_order@,
                old(self).in_order@,
                final(self).lifetimes@,
                r,
            ),
    {
        let ghost start = self.lifetimes@;
        let ghost ex = self.ex_order@;
        let ghost inn = self.in_order@;
        let ghost mut steps = ContractSteps {
            ex_cycles: Seq::empty(),
            in_cycles: Seq::empty(),
            ex_lifetimes: Seq::empty(),
            ex_bounds: Ok(()),
            in_lifetimes: Seq::empty(),
            in_bounds: Ok(()),
            ex_sat: Ok(()),
        };
        assert(self.lifetimes.names() =~= entry_names(start));
        proof {
            if self.ex_order@.len() == 0 && self.in_order@.len() == 0 {
                lemma_nothing_owed(
                    self.lifetimes@,
                    Some(Side::External),
                    self.in_order@,
                    self.ex_order@,
                );
                lemma_nothing_owed(
                    self.lifetimes@,
                    Some(Side::Internal),
                    self.ex_order@,
                    self.in_order@,
                );
            }
        }
        let mut cycles = self.ex_order.check_coherent(&self.lifetimes);
        proof {
            steps.ex_cycles = cycles@;
        }
        match cycles.report(side_text(Side::External, 0)) {
            Err(e) => {
                let r = Err(e);
                assert(contract_steps(start, ex, inn, steps, self.lifetimes@, r));
                return r;
            },
            Ok(()) => {},
        }
        let mut cycles = self.in_order.check_coherent(&self.lifetimes);
        proof {
            steps.in_cycles = cycles@;
        }
        match cycles.report(side_text(Side::Internal, 0)) {
            Err(e) => {
                let r = Err(e);
                assert(contract_steps(start, ex, inn, steps, self.lifetimes@, r));
                return r;
            },
            Ok(()) => {},
        }
        let bounds = self.populate_bounds(Side::External);
        proof {
            steps.ex_lifetimes = self.lifetimes@;
            steps.ex_bounds = bounds;
        }
        match bounds {
            Err(msg) => {
                let r = Err(Error::new(msg));
                assert(contract_steps(start, ex, inn, steps, self.lifetimes@, r));
                return r;
            },
            Ok(()) => {},
        }
        let bounds = self.populate_bounds(Side::Internal);
        proof {
            steps.in_lifetimes = self.lifetimes@;
            steps.in_bounds = bounds;
        }
        match bounds {
            Err(msg) => {
                let r = Err(Error::new(msg));
                assert(contract_steps(start, ex, inn, steps, self.lifetimes@, r));
                return r;
            },
            Ok(()) => {},
        }
        let cycle_message = side_text(Side::External, 1);
        let diff_message = side_text(Side::External, 2);
        let sat = self.check_satisfiable_with(
            Some(Side::External),
            &self.in_order,
            &self.ex_order,
            cycle_message.as_str(),
            diff_message.as_str(),
        );
        proof {
            steps.ex_sat = sat;
        }
        match sat {
            Err(e) => {
                let r = Err(e);
                assert(contract_steps(start, ex, inn, steps, self.lifetimes@, r));
                return r;
            },
            Ok(()) => {},
        }
        let cycle_message = side_text(Side::Internal, 1);
        let diff_message = side_text(Side::Internal, 2);
        let r = self.check_satisfiable_with(
            Some(Side::Internal),
            &self.ex_order,
            &self.in_order,
            cycle_message.as_str(),
            diff_message.as_str(),
        );
        assert(contract_steps(start, ex, inn, steps, self.lifetimes@, r));
        r
    }
}

/// The side that the messages of `check_satisfiable` speak of.
pub open spec fn obligation_side(side: Option<Side>) -> Side {
    match side {
        Some(side) => side,
        None => Side::Internal,
    }
}

} // verus!
