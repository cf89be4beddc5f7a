use vstd::prelude::*;
use crate::index_vec::Idx;
use vstd::string::StringExecFns;
use crate::lifetimes::entry_wf;
use crate::lifetimes::side_in;
use crate::lifetimes::Lifetime;
use crate::lifetimes::LifetimeCtx;
use crate::lifetimes::LifetimeInfo;
use crate::lifetimes::Side;
use crate::order::edge;
use crate::order::relation::lemma_relation_semantics;
use crate::order::relation::Relation;
use crate::order::rows_wf;
use crate::order::transistor::emitted;
use crate::order::transistor::row_complete;
use crate::order::transistor::entails;
use crate::order::transistor::lemma_derived_is_entailed;
use crate::order::transistor::pairs_ok;
use crate::order::transistor::refines;
use crate::order::transistor::Selector;
use crate::order::transistor::Transistor;
use crate::order::transistor::TransistorConfig;
use crate::order::Element;
use crate::order::Order;
use crate::order::Rows;
use crate::scope::Scope;
use crate::scope::ScopeEntry;
use crate::text::quoted;
use crate::text::quoted_text;

verus! {

/// The configuration that finds, for the lifetimes of one side, their bounds on
/// the other side: the walk stays on the side, the output keeps the relations
/// that end on the other side, and relations compose along the walk.
pub struct BoundsConfig<'a> {
    pub lifetimes: &'a Scope<Lifetime, LifetimeInfo>,
    pub side: Side,
}

impl<'a> BoundsConfig<'a> {
    /// The side of a lifetime, if it is defined.
    pub open spec fn side_of(&self, a: usize) -> Option<Side> {
        side_in(self.lifetimes@, a)
    }
}

impl<'a> TransistorConfig<Lifetime> for BoundsConfig<'a> {
    open spec fn knows(&self, a: usize) -> bool {
        true
    }

    open spec fn walks(&self, a: usize) -> bool {
        self.side_of(a) == Some(self.side)
    }

    open spec fn pairs(&self, a: usize, c: usize) -> bool {
        (self.side_of(a) == Some(self.side) && self.side_of(c) == Some(self.side.other())) || (
        self.side_of(c) == Some(self.side) && self.side_of(a) == Some(self.side.other()))
    }

    open spec fn enters(&self, a: usize, rel: Relation, b: usize) -> bool {
        self.side_of(b) == Some(self.side)
    }

    open spec fn remaps(&self, a: usize, rel: Relation, b: usize) -> Option<Relation> {
        if self.side_of(b) == Some(self.side.other()) {
            Some(rel)
        } else {
            None
        }
    }

    open spec fn composes(
        &self,
        a: usize,
        r_ab: Relation,
        b: usize,
        r_bc: Relation,
        c: usize,
    ) -> Option<Relation> {
        r_ab.compose(r_bc)
    }

    fn enter(&self, a: Lifetime, rel: Relation, b: Lifetime) -> (r: bool) {
        match self.lifetimes.peek(b) {
            Some(info) => info.side == self.side,
            None => false,
        }
    }

    fn remap(&self, a: Lifetime, rel: Relation, b: Lifetime) -> (r: Option<Relation>) {
        match self.lifetimes.peek(b) {
            Some(info) => if info.side != self.side {
                Some(rel)
            } else {
                None
            },
            None => None,
        }
    }

    fn trans(&self, a: Lifetime, r_ab: Relation, b: Lifetime, r_bc: Relation, c: Lifetime) -> (r:
        Option<Relation>) {
        r_ab.compose(r_bc)
    }

    proof fn lemma_remap_sound(&self, a: usize, rel: Relation, b: usize, p: int, q: int) {
    }

    proof fn lemma_enter_walks(&self, a: usize, rel: Relation, b: usize) {
    }

    proof fn lemma_pairs(&self, a: usize, r_ab: Relation, b: usize, r_bc: Relation, c: usize) {
    }

    proof fn lemma_trans_monotone(
        &self,
        a: usize,
        r_ab: Relation,
        b: usize,
        r_bc: Relation,
        tighter: Relation,
        c: usize,
    ) {
    }

    proof fn lemma_trans_sound(
        &self,
        a: usize,
        r_ab: Relation,
        b: usize,
        r_bc: Relation,
        c: usize,
        p: int,
        q: int,
        t: int,
    ) {
        lemma_relation_semantics(r_ab, r_bc, p, q, t);
    }
}

/// The choice of the defined lifetimes of one side; no lifetime where no side is
/// given.
pub struct OnSide<'a> {
    pub lifetimes: &'a Scope<Lifetime, LifetimeInfo>,
    pub side: Option<Side>,
}

impl<'a> Selector<Lifetime> for OnSide<'a> {
    open spec fn knows(&self, a: usize) -> bool {
        true
    }

    open spec fn selects(&self, a: usize) -> bool {
        self.side is Some && side_in(self.lifetimes@, a) == self.side
    }

    fn select(&self, a: Lifetime) -> (r: bool) {
        match self.side {
            Some(side) => match self.lifetimes.peek(a) {
                Some(info) => info.side == side,
                None => false,
            },
            None => false,
        }
    }
}

/// Whether a relation to another lifetime makes it a bound: a lower bound where
/// the relation has a `≥`-direction, an upper bound where it has a
/// `≤`-direction.
pub open spec fn is_bound(rel: Relation, lower: bool) -> bool {
    if lower {
        rel.gte_component() is Some
    } else {
        rel.lte_component() is Some
    }
}

/// Whether the row has no bound of the kind.
pub open spec fn no_bound(row: Map<usize, Relation>, lower: bool) -> bool {
    forall|b: usize| #[trigger] row.contains_key(b) ==> !is_bound(row[b], lower)
}

/// Whether `b` is the one bound of the kind in the row.
pub open spec fn sole_bound(row: Map<usize, Relation>, lower: bool, b: usize) -> bool {
    &&& row.contains_key(b)
    &&& is_bound(row[b], lower)
    &&& forall|c: usize| #[trigger] row.contains_key(c) && is_bound(row[c], lower) ==> c == b
}

/// Whether the row has more than one bound of the kind.
pub open spec fn many_bounds(row: Map<usize, Relation>, lower: bool) -> bool {
    exists|b: usize, c: usize|
        b != c && #[trigger] row.contains_key(b) && #[trigger] row.contains_key(c) && is_bound(
            row[b],
            lower,
        ) && is_bound(row[c], lower)
}

/// The word for a kind of bound.
pub open spec fn bound_word(lower: bool) -> Seq<char> {
    if lower {
        "lower"@
    } else {
        "upper"@
    }
}

/// The message for a lifetime with more than one bound of a kind.
pub open spec fn many_bounds_text(name: Seq<char>, side: Side, lower: bool) -> Seq<char> {
    side.name_text() + " lifetime "@ + quoted_text(name) + " has multiple "@
        + side.other().name_text() + " "@ + bound_word(lower) + " bounds"@
        + "\n  rewrite the contract so there is only one"@
        + "\n  (this is a temporary limitation of the checker)"@
}

/// The message for a lifetime whose bound of a kind is strict.
pub open spec fn strict_bound_text(name: Seq<char>, side: Side, lower: bool) -> Seq<char> {
    side.name_text() + " lifetime "@ + quoted_text(name) + "'s "@ + side.other().name_text() + " "@
        + bound_word(lower) + " bound is related with '<', not '<='"@
        + "\n  rewrite the contract so that it uses '<='"@
        + "\n  (this is a temporary limitation of the checker)"@
}

/// Whether `msg` rejects a bound of one of the lifetimes of `side` that have an
/// element in `bounds`.
pub open spec fn rejects(
    names: Seq<ScopeEntry<LifetimeInfo>>,
    bounds: Rows,
    side: Side,
    msg: String,
) -> bool {
    exists|a: int, lower: bool|
        0 <= a < bounds.len() && side_in(names, a as usize) == Some(side)
            && #[trigger] bound_result(names[a].name, bounds[a], side, lower, Err(msg))
}

/// What `get_bound` returns for a row.
pub open spec fn bound_result(
    name: Seq<char>,
    row: Map<usize, Relation>,
    side: Side,
    lower: bool,
    r: Result<Option<Lifetime>, String>,
) -> bool {
    match r {
        Ok(None) => no_bound(row, lower),
        Ok(Some(lt)) => sole_bound(row, lower, lt.0) && row[lt.0].permits_eq(),
        Err(msg) => (many_bounds(row, lower) && msg@ == many_bounds_text(name, side, lower)) || (
        exists|b: usize| #[trigger]
            sole_bound(row, lower, b) && !row[b].permits_eq() && msg@ == strict_bound_text(
                name,
                side,
                lower,
            )),
    }
}

/// What the bounds of the lifetimes of a side may be derived to from the order
/// of the side: `bounds` says nothing that the order does not imply, relates
/// lifetimes of the side to lifetimes of the other side only, and holds every
/// relation that the order stores between such a pair, at least as tight,
/// and the relation of every route through lifetimes of the side that ends on
/// the other side.
pub open spec fn derived_bounds(cfg: BoundsConfig, order: Rows, bounds: Rows) -> bool {
    &&& rows_wf(bounds)
    &&& bounds.len() <= order.len()
    &&& refines(order, bounds)
    &&& pairs_ok(&cfg, bounds)
    &&& forall|x: usize|
        x < order.len() && cfg.side_of(x) == Some(cfg.side) ==> #[trigger] emitted(
            &cfg,
            order,
            bounds,
            x,
        )
    &&& forall|x: usize|
        x < order.len() && cfg.side_of(x) == Some(cfg.side) ==> #[trigger] row_complete(
            &cfg,
            order,
            bounds,
            x,
        )
}

/// Whether `after` and `r` are what recording the bounds of the lifetimes of
/// `side` from `bounds` gives: names and sides stay; a lifetime of another
/// side, or without a row in `bounds`, keeps its bounds; on success every
/// other lifetime has the bounds of its row; and a failure is the message of
/// a bound that is rejected.
pub open spec fn recorded_bounds(
    before: Seq<ScopeEntry<LifetimeInfo>>,
    bounds: Rows,
    side: Side,
    after: Seq<ScopeEntry<LifetimeInfo>>,
    r: Result<(), String>,
) -> bool {
    &&& after.len() == before.len()
    &&& forall|a: int|
        0 <= a < before.len() ==> {
            &&& (#[trigger] after[a]).name == before[a].name
            &&& side_in(after, a as usize) == side_in(before, a as usize)
            &&& side_in(before, a as usize) != Some(side) || a >= bounds.len() ==> after[a]
                == before[a]
        }
    &&& r is Ok ==> forall|a: int|
        0 <= a < bounds.len() && side_in(before, a as usize) == Some(side) ==> {
            let info = (#[trigger] after[a]).state->Defined_0;
            &&& bound_result(before[a].name, bounds[a], side, true, Ok(info.min))
            &&& bound_result(before[a].name, bounds[a], side, false, Ok(info.max))
        }
    &&& r matches Err(msg) ==> rejects(before, bounds, side, msg)
}

/// Whether `after` and `r` are what `populate_bounds` may give: the bounds
/// are derived from the order of the side, and recorded.
pub open spec fn bounds_outcome(
    before: Seq<ScopeEntry<LifetimeInfo>>,
    order: Rows,
    side: Side,
    after: Seq<ScopeEntry<LifetimeInfo>>,
    r: Result<(), String>,
) -> bool {
    exists|scope: Scope<Lifetime, LifetimeInfo>, bounds: Rows|
        scope@ == before && #[trigger] derived_bounds(
            BoundsConfig { lifetimes: &scope, side },
            order,
            bounds,
        ) && recorded_bounds(before, bounds, side, after, r)
}

impl LifetimeCtx {
    /// The bound of one kind among the relations of a lifetime to lifetimes of
    /// the other side: none where there is no such relation, the other lifetime
    /// where there is one and it permits equality. More than one bound, and a
    /// strict bound, are errors.
    pub fn get_bound(lt: &str, el: &Element, side: Side, lower: bool) -> (r: Result<
        Option<Lifetime>,
        String,
    >)
        ensures
            bound_result(lt@, el@, side, lower, r),
    {
        let entries = el.entries();
        let mut found: Option<(usize, Relation)> = None;
        let mut i: usize = 0;
        while i < entries.len()
            invariant
                i <= entries@.len(),
                forall|j: int|
                    0 <= j < entries@.len() ==> el@.contains_pair(
                        (#[trigger] entries@[j]).0,
                        entries@[j].1,
                    ),
                forall|p: int, q: int|
                    0 <= p < q < entries@.len() ==> (#[trigger] entries@[p]).0 != (
                    #[trigger] entries@[q]).0,
                match found {
                    None => forall|j: int| 0 <= j < i ==> !is_bound((#[trigger] entries@[j]).1, lower),
                    Some((b, rel)) => exists|m: int|
                        0 <= m < i && #[trigger] entries@[m] == (b, rel) && is_bound(rel, lower)
                            && forall|j: int|
                            0 <= j < i && j != m ==> !is_bound((#[trigger] entries@[j]).1, lower),
                },
            decreases entries@.len() - i,
        {
            let (b, rel) = entries[i];
            let bound = if lower {
                rel.gte_component().is_some()
            } else {
                rel.lte_component().is_some()
            };
            if bound {
                match found {
                    Some((first, first_rel)) => {
                        proof {
                            let m = choose|m: int|
                                0 <= m < i && #[trigger] entries@[m] == (first, first_rel)
                                    && is_bound(first_rel, lower);
                            assert(el@.contains_pair(entries@[m].0, entries@[m].1));
                            assert(el@.contains_pair(entries@[i as int].0, entries@[i as int].1));
                            assert(entries@[m].0 != entries@[i as int].0);
                            assert(el@.contains_key(first) && el@.contains_key(b));
                        }
                        let mut msg = String::from_str(side.name());
                        msg.append(" lifetime ");
                        msg.append(quoted(lt).as_str());
                        msg.append(" has multiple ");
                        msg.append(other_side(side).name());
                        msg.append(" ");
                        msg.append(bound_name(lower));
                        msg.append(" bounds");
                        msg.append("\n  rewrite the contract so there is only one");
                        msg.append("\n  (this is a temporary limitation of the checker)");
                        return Err(msg);
                    },
                    None => {
                        found = Some((b, rel));
                        assert(entries@[i as int] == (b, rel));
                    },
                }
            } else {
                proof {
                    if let Some((first, first_rel)) = found {
                        let m = choose|m: int|
                            0 <= m < i && #[trigger] entries@[m] == (first, first_rel) && is_bound(
                                first_rel,
                                lower,
                            ) && forall|j: int|
                                0 <= j < i && j != m ==> !is_bound((#[trigger] entries@[j]).1, lower);
                        assert(0 <= m < i + 1 && entries@[m] == (first, first_rel));
                    }
                }
            }
            i += 1;
        }
        match found {
            None => {
                proof {
                    assert forall|b: usize| #[trigger] el@.contains_key(b) implies !is_bound(
                        el@[b],
                        lower,
                    ) by {
                        let j = choose|j: int| 0 <= j < entries@.len() && (#[trigger] entries@[j]).0 == b;
                        assert(el@.contains_pair(entries@[j].0, entries@[j].1));
                    }
                }
                Ok(None)
            },
            Some((b, rel)) => {
                proof {
                    let m = choose|m: int|
                        0 <= m < i && #[trigger] entries@[m] == (b, rel) && is_bound(rel, lower)
                            && forall|j: int|
                            0 <= j < i && j != m ==> !is_bound((#[trigger] entries@[j]).1, lower);
                    assert(el@.contains_pair(entries@[m].0, entries@[m].1));
                    assert forall|c: usize| #[trigger]
                        el@.contains_key(c) && is_bound(el@[c], lower) implies c == b by {
                        let j = choose|j: int| 0 <= j < entries@.len() && (#[trigger] entries@[j]).0 == c;
                        assert(el@.contains_pair(entries@[j].0, entries@[j].1));
                    }
                    assert(sole_bound(el@, lower, b));
                }
                if !rel.allows_equal() {
                    let mut msg = String::from_str(side.name());
                    msg.append(" lifetime ");
                    msg.append(quoted(lt).as_str());
                    msg.append("'s ");
                    msg.append(other_side(side).name());
                    msg.append(" ");
                    msg.append(bound_name(lower));
                    msg.append(" bound is related with '<', not '<='");
                    msg.append("\n  rewrite the contract so that it uses '<='");
                    msg.append("\n  (this is a temporary limitation of the checker)");
                    Err(msg)
                } else {
                    Ok(Some(Lifetime(b)))
                }
            },
        }
    }

    /// Takes the bounds of the lifetimes of `side` from `bounds`: for each such
    /// lifetime, in order, first its lower and then its upper bound. A lifetime
    /// that `bounds` has no element for keeps its bounds. The first bound that
    /// is rejected ends the work with its message.
    pub fn record_bounds(&mut self, side: Side, bounds: &Order<Lifetime>) -> (r: Result<(), String>)
        requires
            old(self).wf(),
            bounds.wf(),
            bounds@.len() <= old(self).lifetimes@.len(),
        ensures
            final(self).wf(),
            final(self).ex_order == old(self).ex_order,
            final(self).in_order == old(self).in_order,
            final(self).lifetimes@.len() == old(self).lifetimes@.len(),
            forall|a: int|
                0 <= a < old(self).lifetimes@.len() ==> {
                    let before = old(self).lifetimes@[a];
                    let after = #[trigger] final(self).lifetimes@[a];
                    &&& after.name == before.name
                    &&& side_in(final(self).lifetimes@, a as usize) == old(self).side_of(a as usize)
                    &&& old(self).side_of(a as usize) != Some(side) || a >= bounds@.len() ==> after
                        == before
                },
            r is Ok ==> forall|a: int|
                0 <= a < bounds@.len() && old(self).side_of(a as usize) == Some(side) ==> {
                    let info = (#[trigger] final(self).lifetimes@[a]).state->Defined_0;
                    &&& bound_result(
                        old(self).lifetimes@[a].name,
                        bounds@[a],
                        side,
                        true,
                        Ok(info.min),
                    )
                    &&& bound_result(
                        old(self).lifetimes@[a].name,
                        bounds@[a],
                        side,
                        false,
                        Ok(info.max),
                    )
                },
            r matches Err(msg) ==> rejects(old(self).lifetimes@, bounds@, side, msg),
            recorded_bounds(old(self).lifetimes@, bounds@, side, final(self).lifetimes@, r),
    {
        let n = self.lifetimes.count();
        let m = bounds.len();
        let mut a: usize = 0;
        while a < n
            invariant
                self.wf(),
                bounds.wf(),
                m == bounds@.len(),
                m <= n,
                n == old(self).lifetimes@.len(),
                a <= n,
                self.ex_order == old(self).ex_order,
                self.in_order == old(self).in_order,
                self.lifetimes@.len() == n,
                forall|x: int|
                    0 <= x < n ==> {
                        let before = old(self).lifetimes@[x];
                        let after = #[trigger] self.lifetimes@[x];
                        &&& after.name == before.name
                        &&& side_in(self.lifetimes@, x as usize) == old(self).side_of(x as usize)
                        &&& old(self).side_of(x as usize) != Some(side) || x >= m || x >= a ==> after
                            == before
                    },
                forall|x: int|
                    0 <= x < a && x < m && old(self).side_of(x as usize) == Some(side) ==> {
                        let info = (#[trigger] self.lifetimes@[x]).state->Defined_0;
                        &&& bound_result(
                            old(self).lifetimes@[x].name,
                            bounds@[x],
                            side,
                            true,
                            Ok(info.min),
                        )
                        &&& bound_result(
                            old(self).lifetimes@[x].name,
                            bounds@[x],
                            side,
                            false,
                            Ok(info.max),
                        )
                    },
            decreases n - a,
        {
            let key = Lifetime(a);
            let on_side = match self.lifetimes.peek(key) {
                Some(info) => info.side == side,
                None => false,
            };
            if on_side && a < m {
                let el = bounds.element(a);
                let min = match Self::get_bound(self.lifetimes.name(key), el, side, true) {
                    Ok(min) => min,
                    Err(msg) => {
                        proof {
                            let before = old(self).lifetimes@[a as int];
                            assert(self.lifetimes@[a as int].name == before.name);
                            assert(old(self).side_of(a) == Some(side));
                            let witness = a as int;
                            assert(bound_result(
                                old(self).lifetimes@[witness].name,
                                bounds@[witness],
                                side,
                                true,
                                Err(msg),
                            ));
                            assert(rejects(old(self).lifetimes@, bounds@, side, msg));
                        }
                        return Err(msg);
                    },
                };
                let max = match Self::get_bound(self.lifetimes.name(key), el, side, false) {
                    Ok(max) => max,
                    Err(msg) => {
                        proof {
                            let before = old(self).lifetimes@[a as int];
                            assert(self.lifetimes@[a as int].name == before.name);
                            assert(old(self).side_of(a) == Some(side));
                            let witness = a as int;
                            assert(bound_result(
                                old(self).lifetimes@[witness].name,
                                bounds@[witness],
                                side,
                                false,
                                Err(msg),
                            ));
                            assert(rejects(old(self).lifetimes@, bounds@, side, msg));
                        }
                        return Err(msg);
                    },
                };
                proof {
                    if let Some(lt) = min {
                        assert(bounds@[a as int].contains_key(lt.0));
                    }
                    if let Some(lt) = max {
                        assert(bounds@[a as int].contains_key(lt.0));
                    }
                    assert forall|x: int| 0 <= x < n implies entry_wf(
                        #[trigger] self.lifetimes@[x],
                        n as nat,
                    ) by {}
                }
                self.lifetimes.replace(key, LifetimeInfo { side, min, max });
            }
            a += 1;
        }
        Ok(())
    }

    /// Finds, for each lifetime of `side`, its nearest lower and upper bound
    /// among the lifetimes of the other side, and records them.
    ///
    /// A bound that is recorded anew is a lifetime of the other side and follows
    /// from the order of the side: the lifetime is at least its `min` and at
    /// most its `max`. A lifetime of the side that the order relates to a
    /// lifetime of the other side does not end without the bound of that
    /// direction. Where the order of the side relates nothing, nothing is
    /// recorded and nothing fails.
    pub fn populate_bounds(&mut self, side: Side) -> (r: Result<(), String>)
        requires
            old(self).wf(),
        ensures
            final(self).wf(),
            bounds_outcome(
                old(self).lifetimes@,
                old(self).spec_order(side)@,
                side,
                final(self).lifetimes@,
                r,
            ),
            old(self).spec_order(side)@.len() == 0 ==> r is Ok && final(self).lifetimes@ == old(self).lifetimes@,
            final(self).ex_order == old(self).ex_order,
            final(self).in_order == old(self).in_order,
            final(self).lifetimes@.len() == old(self).lifetimes@.len(),
            forall|a: int|
                0 <= a < old(self).lifetimes@.len() ==> {
                    let before = old(self).lifetimes@[a];
                    let after = #[trigger] final(self).lifetimes@[a];
                    &&& after.name == before.name
                    &&& side_in(final(self).lifetimes@, a as usize) == old(self).side_of(a as usize)
                    &&& old(self).side_of(a as usize) != Some(side) ==> after == before
                },
            r is Ok ==> forall|a: usize|
                a < old(self).spec_order(side)@.len() && old(self).side_of(a) == Some(side) ==> {
                    let info = (#[trigger] final(self).lifetimes@[a as int]).state->Defined_0;
                    let order = old(self).spec_order(side)@;
                    &&& info.min matches Some(lt) ==> info.min == old(self).lifetimes@[a as int].state->Defined_0.min
                        || (old(self).side_of(lt.0) == Some(side.other()) && entails(
                        order,
                        a,
                        Relation::GE,
                        lt.0,
                    ))
                    &&& info.max matches Some(lt) ==> info.max == old(self).lifetimes@[a as int].state->Defined_0.max
                        || (old(self).side_of(lt.0) == Some(side.other()) && entails(
                        order,
                        a,
                        Relation::LE,
                        lt.0,
                    ))
                    &&& info.min is None ==> forall|b: usize|
                        #![trigger edge(order, a, b)]
                        edge(order, a, b) is Some && old(self).side_of(b) == Some(side.other()) ==> edge(
                            order,
                            a,
                            b,
                        )->0.gte_component() is None
                    &&& info.max is None ==> forall|b: usize|
                        #![trigger edge(order, a, b)]
                        edge(order, a, b) is Some && old(self).side_of(b) == Some(side.other()) ==> edge(
                            order,
                            a,
                            b,
                        )->0.lte_component() is None
                },
    {
        let ghost order = self.spec_order(side)@;
        let cfg = BoundsConfig { lifetimes: &self.lifetimes, side };
        let starts = OnSide { lifetimes: &self.lifetimes, side: Some(side) };
        let source = match side {
            Side::External => &self.ex_order,
            Side::Internal => &self.in_order,
        };
        let transistor = Transistor::new(source, cfg);
        let bounds = transistor.finish_where(&starts);
        let r = self.record_bounds(side, &bounds);
        proof {
            assert(derived_bounds(cfg, order, bounds@)) by {
                assert forall|x: usize|
                    x < order.len() && cfg.side_of(x) == Some(cfg.side) implies #[trigger] emitted(
                    &cfg,
                    order,
                    bounds@,
                    x,
                ) by {
                    assert(starts.selects(x));
                }
                assert forall|x: usize|
                    x < order.len() && cfg.side_of(x) == Some(
                        cfg.side,
                    ) implies #[trigger] row_complete(&cfg, order, bounds@, x) by {
                    assert(starts.selects(x));
                }
            }
            assert(cfg == (BoundsConfig { lifetimes: &old(self).lifetimes, side }));
            if order.len() == 0 {
                assert(self.lifetimes@ =~= old(self).lifetimes@);
            }
            if r is Ok {
                assert forall|a: usize|
                    a < order.len() && old(self).side_of(a) == Some(side) implies {
                    let info = (#[trigger] self.lifetimes@[a as int]).state->Defined_0;
                    &&& info.min matches Some(lt) ==> info.min == old(self).lifetimes@[a as int].state->Defined_0.min
                        || (old(self).side_of(lt.0) == Some(side.other()) && entails(
                        order,
                        a,
                        Relation::GE,
                        lt.0,
                    ))
                    &&& info.max matches Some(lt) ==> info.max == old(self).lifetimes@[a as int].state->Defined_0.max
                        || (old(self).side_of(lt.0) == Some(side.other()) && entails(
                        order,
                        a,
                        Relation::LE,
                        lt.0,
                    ))
                    &&& info.min is None ==> forall|b: usize|
                        #![trigger edge(order, a, b)]
                        edge(order, a, b) is Some && old(self).side_of(b) == Some(side.other()) ==> edge(
                            order,
                            a,
                            b,
                        )->0.gte_component() is None
                    &&& info.max is None ==> forall|b: usize|
                        #![trigger edge(order, a, b)]
                        edge(order, a, b) is Some && old(self).side_of(b) == Some(side.other()) ==> edge(
                            order,
                            a,
                            b,
                        )->0.lte_component() is None
                } by {
                    let info = self.lifetimes@[a as int].state->Defined_0;
                    assert(starts.selects(a));
                    assert(emitted(&cfg, order, bounds@, a));
                    assert(refines(order, bounds@));
                    assert(pairs_ok(&cfg, bounds@));
                    if a < bounds@.len() {
                        assert(bound_result(
                            old(self).lifetimes@[a as int].name,
                            bounds@[a as int],
                            side,
                            true,
                            Ok(info.min),
                        ));
                        assert(bound_result(
                            old(self).lifetimes@[a as int].name,
                            bounds@[a as int],
                            side,
                            false,
                            Ok(info.max),
                        ));
                        let row = bounds@[a as int];
                        if let Some(lt) = info.min {
                            assert(sole_bound(row, true, lt.0));
                            assert(cfg.pairs(a, lt.0));
                            lemma_derived_is_entailed(order, bounds@, a, lt.0, Relation::GE);
                        }
                        if let Some(lt) = info.max {
                            assert(sole_bound(row, false, lt.0));
                            assert(cfg.pairs(a, lt.0));
                            lemma_derived_is_entailed(order, bounds@, a, lt.0, Relation::LE);
                        }
                    }
                    assert forall|b: usize|
                        #![trigger edge(order, a, b)]
                        edge(order, a, b) is Some && old(self).side_of(b) == Some(
                            side.other(),
                        ) implies (
                    info.min is None ==> edge(order, a, b)->0.gte_component() is None) && (
                    info.max is None ==> edge(order, a, b)->0.lte_component() is None) by {
                        let rel = edge(order, a, b)->0;
                        assert(order[a as int].contains_key(b));
                        assert(cfg.remaps(a, rel, b) == Some(rel));
                        if !(a == b && rel.permits_eq()) {
                            assert(bounds@[a as int].contains_key(b));
                        }
                    }
                }
            }
        }
        r
    }
}

fn other_side(side: Side) -> (r: Side)
    ensures
        r == side.other(),
{
    match side {
        Side::External => Side::Internal,
        Side::Internal => Side::External,
    }
}

fn bound_name(lower: bool) -> (s: &'static str)
    ensures
        s@ == bound_word(lower),
{
    if lower {
        "lower"
    } else {
        "upper"
    }
}

} // verus!
