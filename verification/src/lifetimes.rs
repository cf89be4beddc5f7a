pub mod check_satisfiable;
pub mod populate_bounds;

use vstd::prelude::*;
use vstd::std_specs::ops::NotSpecImpl;
use vstd::string::StrSliceExecFns;
use vstd::string::StringExecFns;
use crate::index_vec::Idx;
use crate::order::edge;
use crate::order::imported_edge;
use crate::order::Order;
use crate::scope::DefinitionState;
use crate::scope::Scope;
use crate::scope::ScopeEntry;

verus! {

/// A lifetime, by its index in the scope of lifetimes of its context.
#[derive(Clone, Copy, PartialEq, Eq, Structural, PartialOrd, Ord, Hash, Debug)]
pub struct Lifetime(pub usize);

impl Idx for Lifetime {
    open spec fn index(self) -> usize {
        self.0
    }

    open spec fn kind_name() -> Seq<char> {
        "lifetime"@
    }

    fn from_usize(n: usize) -> (r: Self) {
        Lifetime(n)
    }

    fn to_usize(self) -> (n: usize) {
        self.0
    }

    fn kind() -> (s: &'static str) {
        "lifetime"
    }

    proof fn lemma_index_injective(a: Self, b: Self) {
    }
}

impl Lifetime {
    /// The lifetime moved up by `base` positions.
    pub fn offset(self, base: Lifetime) -> (r: Lifetime)
        requires
            base.0 + self.0 <= usize::MAX,
        ensures
            r.0 == base.0 + self.0,
    {
        Lifetime(base.0 + self.0)
    }
}

/// The two sides of a contract: what the surroundings guarantee, and what the
/// component itself has to arrange.
#[derive(Clone, Copy, PartialEq, Eq, Structural, PartialOrd, Ord, Hash, Debug)]
pub enum Side {
    External,
    Internal,
}

impl Side {
    /// The other side.
    pub open spec fn other(self) -> Side {
        match self {
            Side::External => Side::Internal,
            Side::Internal => Side::External,
        }
    }

    /// The side itself, or the other side where `flip` holds.
    pub open spec fn flipped(self, flip: bool) -> Side {
        if flip {
            self.other()
        } else {
            self
        }
    }

    /// The word for the side in messages.
    pub open spec fn name_text(self) -> Seq<char> {
        match self {
            Side::External => "external"@,
            Side::Internal => "internal"@,
        }
    }

    /// The side itself, or the other side where `flip` holds.
    pub fn flip(self, flip: bool) -> (r: Side)
        ensures
            r == self.flipped(flip),
    {
        if flip {
            match self {
                Side::External => Side::Internal,
                Side::Internal => Side::External,
            }
        } else {
            self
        }
    }

    /// The word for the side in messages.
    pub fn name(self) -> (s: &'static str)
        ensures
            s@ == self.name_text(),
    {
        match self {
            Side::External => "external",
            Side::Internal => "internal",
        }
    }
}

impl core::ops::Not for Side {
    type Output = Side;

    fn not(self) -> (r: Side) {
        match self {
            Side::External => Side::Internal,
            Side::Internal => Side::External,
        }
    }
}

impl NotSpecImpl for Side {
    open spec fn obeys_not_spec() -> bool {
        true
    }

    open spec fn not_req(self) -> bool {
        true
    }

    open spec fn not_spec(self) -> Side {
        self.other()
    }
}

/// What is known of a lifetime: its side, and the nearest bounds on the other
/// side that `populate_bounds` has found for it.
#[derive(Clone, Copy, PartialEq, Eq, Structural, Debug)]
pub struct LifetimeInfo {
    pub side: Side,
    pub max: Option<Lifetime>,
    pub min: Option<Lifetime>,
}

/// The contract of a component: its lifetimes, what is guaranteed of them
/// (`ex_order`) and what the component has to arrange (`in_order`).
pub struct LifetimeCtx {
    pub lifetimes: Scope<Lifetime, LifetimeInfo>,
    pub ex_order: Order<Lifetime>,
    pub in_order: Order<Lifetime>,
}

/// The validity of one lifetime in a context of `len` lifetimes: it has a name,
/// and its bounds are lifetimes of the context.
pub open spec fn entry_wf(entry: ScopeEntry<LifetimeInfo>, len: nat) -> bool {
    &&& entry.name.len() >= 1
    &&& entry.state matches DefinitionState::Defined(info) ==> {
        &&& info.min matches Some(lt) ==> lt.0 < len
        &&& info.max matches Some(lt) ==> lt.0 < len
    }
}

/// The side of the lifetime at a position, if there is one and it is defined.
pub open spec fn side_in(lifetimes: Seq<ScopeEntry<LifetimeInfo>>, lt: usize) -> Option<Side> {
    if lt < lifetimes.len() {
        match lifetimes[lt as int].state {
            DefinitionState::Defined(info) => Some(info.side),
            _ => None,
        }
    } else {
        None
    }
}

/// The name of an imported lifetime: the quote, the prefix, and the name
/// without its own quote.
pub open spec fn imported_name(prefix: Seq<char>, name: Seq<char>) -> Seq<char> {
    "'"@ + prefix + name.subrange(1, name.len() as int)
}

/// A bound of an imported lifetime: moved up with the lifetimes.
pub open spec fn imported_bound(bound: Option<Lifetime>, base: usize) -> Option<Lifetime> {
    match bound {
        Some(lt) => Some(Lifetime((base + lt.0) as usize)),
        None => None,
    }
}

/// The entry of an imported lifetime.
pub open spec fn imported_entry(
    entry: ScopeEntry<LifetimeInfo>,
    invert: bool,
    prefix: Seq<char>,
    base: usize,
) -> ScopeEntry<LifetimeInfo> {
    ScopeEntry {
        name: imported_name(prefix, entry.name),
        state: match entry.state {
            DefinitionState::Defined(info) => DefinitionState::Defined(
                LifetimeInfo {
                    side: info.side.flipped(invert),
                    min: imported_bound(info.min, base),
                    max: imported_bound(info.max, base),
                },
            ),
            _ => DefinitionState::Undefined,
        },
    }
}

impl Default for LifetimeCtx {
    fn default() -> (r: Self)
        ensures
            r.wf(),
            r.lifetimes@.len() == 0,
            r.ex_order@.len() == 0,
            r.in_order@.len() == 0,
    {
        LifetimeCtx { lifetimes: Scope::new(), ex_order: Order::new(), in_order: Order::new() }
    }
}

impl Clone for LifetimeCtx {
    fn clone(&self) -> (r: Self)
        ensures
            r.lifetimes@ == self.lifetimes@,
            r.ex_order@ == self.ex_order@,
            r.in_order@ == self.in_order@,
    {
        LifetimeCtx {
            lifetimes: self.lifetimes.clone(),
            ex_order: self.ex_order.clone(),
            in_order: self.in_order.clone(),
        }
    }
}

impl LifetimeCtx {
    /// The validity of a context: both orders are orders over its lifetimes,
    /// every lifetime has a name, and the bounds of a lifetime are lifetimes of
    /// the context.
    pub open spec fn wf(&self) -> bool {
        &&& self.ex_order.wf()
        &&& self.in_order.wf()
        &&& self.ex_order@.len() <= self.lifetimes@.len()
        &&& self.in_order@.len() <= self.lifetimes@.len()
        &&& forall|i: int|
            0 <= i < self.lifetimes@.len() ==> entry_wf(
                #[trigger] self.lifetimes@[i],
                self.lifetimes@.len(),
            )
    }

    /// The side of a lifetime, if it is defined.
    pub open spec fn side_of(&self, lt: usize) -> Option<Side> {
        side_in(self.lifetimes@, lt)
    }

    /// The order of a side.
    pub open spec fn spec_order(&self, side: Side) -> &Order<Lifetime> {
        match side {
            Side::External => &self.ex_order,
            Side::Internal => &self.in_order,
        }
    }

    /// The order of a side: the guarantees for `External`, the obligations for
    /// `Internal`.
    pub fn order(&self, side: Side) -> (r: &Order<Lifetime>)
        ensures
            r == self.spec_order(side),
    {
        match side {
            Side::External => &self.ex_order,
            Side::Internal => &self.in_order,
        }
    }

    /// The name of a lifetime.
    pub fn show_lt(&self, lt: Lifetime) -> (s: &str)
        requires
            lt.0 < self.lifetimes@.len(),
        ensures
            s@ == self.lifetimes@[lt.0 as int].name,
    {
        self.lifetimes.name(lt)
    }

    /// Adds a lifetime without bounds and returns its index.
    pub fn intro(&mut self, name: String, side: Side) -> (lt: Lifetime)
        requires
            old(self).wf(),
            name@.len() >= 1,
        ensures
            final(self).wf(),
            lt.0 == old(self).lifetimes@.len(),
            final(self).lifetimes@ == old(self).lifetimes@.push(
                ScopeEntry {
                    name: name@,
                    state: DefinitionState::Defined(LifetimeInfo { side, max: None, min: None }),
                },
            ),
            final(self).ex_order@ == old(self).ex_order@,
            final(self).in_order@ == old(self).in_order@,
    {
        self.lifetimes.push(name, Some(LifetimeInfo { side, max: None, min: None }))
    }

    /// Brings the contract of another context into this one and returns the
    /// position that its first lifetime gets.
    ///
    /// The lifetimes of `from` are appended, each under its name with `prefix`
    /// put in behind the quote, and with its bounds moved along; one without a
    /// definition stays without. With `invert`
    /// the sides change places: the lifetimes change sides, and what `from`
    /// guarantees becomes an obligation and the other way round. The relations
    /// of `from` are recorded for the new lifetimes.
    pub fn import(&mut self, from: &LifetimeCtx, invert: bool, prefix: &str) -> (base: Lifetime)
        requires
            old(self).wf(),
            from.wf(),
            old(self).lifetimes@.len() + from.lifetimes@.len() <= usize::MAX,
        ensures
            final(self).wf(),
            base.0 == old(self).lifetimes@.len(),
            final(self).lifetimes@.len() == old(self).lifetimes@.len() + from.lifetimes@.len(),
            forall|i: int|
                0 <= i < old(self).lifetimes@.len() ==> #[trigger] final(self).lifetimes@[i] == old(self).lifetimes@[i],
            forall|i: int|
                0 <= i < from.lifetimes@.len() ==> #[trigger] final(self).lifetimes@[base.0 + i]
                    == imported_entry(from.lifetimes@[i], invert, prefix@, base.0),
            forall|x: usize, y: usize|
                #![trigger edge(final(self).ex_order@, x, y)]
                edge(final(self).ex_order@, x, y) == imported_edge(
                    old(self).ex_order@,
                    from.spec_order(Side::External.flipped(invert))@,
                    base.0,
                    x,
                    y,
                ),
            forall|x: usize, y: usize|
                #![trigger edge(final(self).in_order@, x, y)]
                edge(final(self).in_order@, x, y) == imported_edge(
                    old(self).in_order@,
                    from.spec_order(Side::Internal.flipped(invert))@,
                    base.0,
                    x,
                    y,
                ),
    {
        let base = self.lifetimes.len();
        let ghost start = self.lifetimes@;
        let n = from.lifetimes.count();
        let mut i: usize = 0;
        while i < n
            invariant
                from.wf(),
                n == from.lifetimes@.len(),
                i <= n,
                base.0 == start.len(),
                start == old(self).lifetimes@,
                start.len() + n <= usize::MAX,
                self.ex_order == old(self).ex_order,
                self.in_order == old(self).in_order,
                self.lifetimes@.len() == start.len() + i,
                forall|k: int| 0 <= k < start.len() ==> #[trigger] self.lifetimes@[k] == start[k],
                forall|k: int|
                    0 <= k < i ==> #[trigger] self.lifetimes@[base.0 + k] == imported_entry(
                        from.lifetimes@[k],
                        invert,
                        prefix@,
                        base.0,
                    ),
            decreases n - i,
        {
            let key = Lifetime(i);
            assert(entry_wf(from.lifetimes@[i as int], from.lifetimes@.len()));
            let name = from.lifetimes.name(key);
            let mut new_name = String::from_str("'");
            new_name.append(prefix);
            let total = name.unicode_len();
            new_name.append(name.substring_char(1, total));
            let entry = match from.lifetimes.peek(key) {
                Some(info) => {
                    let min = match info.min {
                        Some(lt) => Some(lt.offset(base)),
                        None => None,
                    };
                    let max = match info.max {
                        Some(lt) => Some(lt.offset(base)),
                        None => None,
                    };
                    Some(LifetimeInfo { side: info.side.flip(invert), min, max })
                },
                None => None,
            };
            self.lifetimes.push(new_name, entry);
            i += 1;
        }
        let (known, needs) = if invert {
            (&from.in_order, &from.ex_order)
        } else {
            (&from.ex_order, &from.in_order)
        };
        self.ex_order.import(known, base.0);
        self.in_order.import(needs, base.0);
        proof {
            assert forall|k: int| 0 <= k < self.lifetimes@.len() implies entry_wf(
                #[trigger] self.lifetimes@[k],
                self.lifetimes@.len(),
            ) by {
                if k < start.len() {
                    assert(self.lifetimes@[k] == start[k]);
                    assert(entry_wf(start[k], start.len()));
                } else {
                    let j = k - start.len();
                    assert(self.lifetimes@[base.0 + j] == imported_entry(
                        from.lifetimes@[j],
                        invert,
                        prefix@,
                        base.0,
                    ));
                    assert(entry_wf(from.lifetimes@[j], from.lifetimes@.len()));
                    reveal_strlit("'");
                }
            }
        }
        base
    }
}

} // verus!
