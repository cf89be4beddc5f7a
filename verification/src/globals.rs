use vstd::prelude::*;
use vstd::std_specs::ops::NotSpecImpl;
use crate::index_vec::Idx;
use crate::lifetimes::Lifetime;
use crate::lifetimes::LifetimeCtx;
use crate::order::Order;
use crate::scope::Scope;

verus! {

/// The polarity of a type: every declared name gives one type of each polarity.
#[derive(Clone, Copy, PartialEq, Eq, Structural, PartialOrd, Ord, Hash, Debug)]
pub enum Polarity {
    Pos,
    Neg,
}

impl Polarity {
    /// The other polarity.
    pub open spec fn negate(self) -> Polarity {
        match self {
            Polarity::Pos => Polarity::Neg,
            Polarity::Neg => Polarity::Pos,
        }
    }

    /// The sign that a declaration writes for this polarity.
    pub fn symbol(self) -> (s: &'static str)
        ensures
            s@ == (if self == Polarity::Pos { "+"@ } else { "-"@ }),
    {
        match self {
            Polarity::Pos => "+",
            Polarity::Neg => "-",
        }
    }
}

impl core::ops::Not for Polarity {
    type Output = Polarity;

    fn not(self) -> (r: Polarity) {
        match self {
            Polarity::Pos => Polarity::Neg,
            Polarity::Neg => Polarity::Pos,
        }
    }
}

impl NotSpecImpl for Polarity {
    open spec fn obeys_not_spec() -> bool {
        true
    }

    open spec fn not_req(self) -> bool {
        true
    }

    open spec fn not_spec(self) -> Polarity {
        self.negate()
    }
}

/// Negating a polarity twice gives it back.
pub proof fn lemma_polarity_negate_involution(p: Polarity)
    ensures
        p.negate().negate() == p,
{
}

/// A type, by its index in the scope of types. Every declared name has two
/// types, one of each polarity: the dual of the type at an even index stands
/// at the next index, and the dual of that one is the first again.
#[derive(Clone, Copy, PartialEq, Eq, Structural, PartialOrd, Ord, Hash, Debug)]
pub struct Type(pub usize);

impl Idx for Type {
    open spec fn index(self) -> usize {
        self.0
    }

    open spec fn kind_name() -> Seq<char> {
        "type"@
    }

    fn from_usize(n: usize) -> (r: Self) {
        Type(n)
    }

    fn to_usize(self) -> (n: usize) {
        self.0
    }

    fn kind() -> (s: &'static str) {
        "type"
    }

    proof fn lemma_index_injective(a: Self, b: Self) {
    }
}

impl Type {
    /// The dual of a type: the other type of the same name.
    pub open spec fn dual(self) -> Type {
        if self.0 % 2 == 0 {
            Type((self.0 + 1) as usize)
        } else {
            Type((self.0 - 1) as usize)
        }
    }
}

impl core::ops::Not for Type {
    type Output = Type;

    fn not(self) -> (r: Type) {
        dual_of(self)
    }
}

/// The dual of a type.
pub fn dual_of(ty: Type) -> (r: Type)
    ensures
        r == ty.dual(),
{
    if ty.0 % 2 == 0 {
        Type(ty.0 + 1)
    } else {
        Type(ty.0 - 1)
    }
}

impl NotSpecImpl for Type {
    open spec fn obeys_not_spec() -> bool {
        true
    }

    open spec fn not_req(self) -> bool {
        true
    }

    open spec fn not_spec(self) -> Type {
        self.dual()
    }
}

/// The dual of the dual of a type is the type itself, and no type is its own
/// dual.
pub proof fn lemma_dual_involution(ty: Type)
    ensures
        ty.dual().dual() == ty,
        ty.dual() != ty,
{
}

/// What is known of a type: its polarity.
#[derive(Clone, Copy, PartialEq, Eq, Structural, Debug)]
pub struct TypeInfo {
    pub polarity: Polarity,
}

/// A component, agent or net, by its index in the scope of components.
#[derive(Clone, Copy, PartialEq, Eq, Structural, PartialOrd, Ord, Hash, Debug)]
pub struct Component(pub usize);

impl Idx for Component {
    open spec fn index(self) -> usize {
        self.0
    }

    open spec fn kind_name() -> Seq<char> {
        "component"@
    }

    fn from_usize(n: usize) -> (r: Self) {
        Component(n)
    }

    fn to_usize(self) -> (n: usize) {
        self.0
    }

    fn kind() -> (s: &'static str) {
        "component"
    }

    proof fn lemma_index_injective(a: Self, b: Self) {
    }
}

/// The label of a port: its type and its lifetime.
#[derive(Clone, Copy, PartialEq, Eq, Structural, PartialOrd, Ord, Hash, Debug)]
pub struct PortLabel(pub Type, pub Lifetime);

/// The contract of a component: its lifetime context and the labels of its
/// ports. The first port is the principal port.
pub struct ComponentInfo {
    pub lt_ctx: LifetimeCtx,
    pub ports: Vec<PortLabel>,
}

/// What a program declares globally: its types and components, and the order
/// that the agents put on the types.
pub struct GlobalCtx {
    pub type_order: Order<Type>,
    pub types: Scope<Type, TypeInfo>,
    pub components: Scope<Component, ComponentInfo>,
}

impl Default for GlobalCtx {
    fn default() -> (r: Self)
        ensures
            r.type_order@.len() == 0,
            r.type_order.wf(),
            r.types@.len() == 0,
            r.components@.len() == 0,
    {
        GlobalCtx { type_order: Order::new(), types: Scope::new(), components: Scope::new() }
    }
}

} // verus!
