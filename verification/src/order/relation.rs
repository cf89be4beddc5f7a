use vstd::prelude::*;
use vstd::std_specs::ops::AddSpecImpl;
use vstd::std_specs::ops::BitAndSpecImpl;
use crate::globals::Polarity;

verus! {

/// A constraint between two elements `a` and `b`, given as the set of outcomes
/// (`a < b`, `a = b`, `a > b`) that it still permits.
///
/// The four inequalities are `LT`, `LE`, `GE` and `GT`. Conjoining them also
/// yields `EQ` (both `LE` and `GE`) and `BOT`, the incoherent relation that
/// permits nothing. `NE` and `TOP` complete the lattice.
#[derive(Clone, Copy, PartialEq, Eq, Structural, Hash, Debug)]
pub enum Relation {
    LT,
    LE,
    GE,
    GT,
    EQ,
    NE,
    TOP,
    BOT,
}

impl Relation {
    /// Whether `a < b` is a permitted outcome.
    pub open spec fn permits_lt(self) -> bool {
        self == Relation::LT || self == Relation::LE || self == Relation::NE || self
            == Relation::TOP
    }

    /// Whether `a = b` is a permitted outcome.
    pub open spec fn permits_eq(self) -> bool {
        self == Relation::LE || self == Relation::GE || self == Relation::EQ || self
            == Relation::TOP
    }

    /// Whether `a > b` is a permitted outcome.
    pub open spec fn permits_gt(self) -> bool {
        self == Relation::GT || self == Relation::GE || self == Relation::NE || self
            == Relation::TOP
    }

    /// The relation that permits exactly the given outcomes.
    pub open spec fn of_outcomes(lt: bool, eq: bool, gt: bool) -> Relation {
        if lt {
            if eq {
                if gt {
                    Relation::TOP
                } else {
                    Relation::LE
                }
            } else {
                if gt {
                    Relation::NE
                } else {
                    Relation::LT
                }
            }
        } else {
            if eq {
                if gt {
                    Relation::GE
                } else {
                    Relation::EQ
                }
            } else {
                if gt {
                    Relation::GT
                } else {
                    Relation::BOT
                }
            }
        }
    }

    /// The set of permitted outcomes as a bit-set: bit 0 for `<`, bit 1 for `=`,
    /// bit 2 for `>`.
    pub open spec fn spec_bits(self) -> u8 {
        match self {
            Relation::BOT => 0u8,
            Relation::LT => 1u8,
            Relation::EQ => 2u8,
            Relation::LE => 3u8,
            Relation::GT => 4u8,
            Relation::NE => 5u8,
            Relation::GE => 6u8,
            Relation::TOP => 7u8,
        }
    }

    /// The relation seen from the other side: `a r b` becomes `b r.rev() a`.
    pub open spec fn spec_rev(self) -> Relation {
        Relation::of_outcomes(self.permits_gt(), self.permits_eq(), self.permits_lt())
    }

    /// The conjunction of two relations on the same pair: the outcomes that both permit.
    pub open spec fn spec_conj(self, other: Relation) -> Relation {
        Relation::of_outcomes(
            self.permits_lt() && other.permits_lt(),
            self.permits_eq() && other.permits_eq(),
            self.permits_gt() && other.permits_gt(),
        )
    }

    /// Whether `self` is at least as tight as `other`: every outcome that `self`
    /// permits, `other` permits too.
    pub open spec fn implies(self, other: Relation) -> bool {
        self.spec_conj(other) == self
    }

    /// The `≤`-direction of a relation: `LT` where it forces `a < b`, `LE` where it
    /// forces only `a ≤ b`, nothing where it permits `a > b`.
    pub open spec fn spec_lte_component(self) -> Option<Relation> {
        if self.permits_gt() {
            None
        } else if self.permits_eq() {
            Some(Relation::LE)
        } else {
            Some(Relation::LT)
        }
    }

    /// The `≥`-direction of a relation, the mirror image of `spec_lte_component`.
    pub open spec fn spec_gte_component(self) -> Option<Relation> {
        if self.permits_lt() {
            None
        } else if self.permits_eq() {
            Some(Relation::GE)
        } else {
            Some(Relation::GT)
        }
    }

    /// The relation without the outcome `a = b`.
    pub open spec fn spec_not_equal(self) -> Relation {
        Relation::of_outcomes(self.permits_lt(), false, self.permits_gt())
    }

    /// The relation under a polarity: unchanged under `Pos`, reversed under `Neg`.
    pub open spec fn spec_twist(self, polarity: Polarity) -> Relation {
        match polarity {
            Polarity::Pos => self,
            Polarity::Neg => self.spec_rev(),
        }
    }

    /// The outcomes of `a` against `c` that `a self b` and `b other c` leave open.
    pub open spec fn chain(self, other: Relation) -> Relation {
        let apart = (self.permits_lt() && other.permits_gt()) || (self.permits_gt()
            && other.permits_lt());
        Relation::of_outcomes(
            apart || (self.permits_lt() && (other.permits_lt() || other.permits_eq())) || (
            self.permits_eq() && other.permits_lt()),
            apart || (self.permits_eq() && other.permits_eq()),
            apart || (self.permits_gt() && (other.permits_gt() || other.permits_eq())) || (
            self.permits_eq() && other.permits_gt()),
        )
    }

    /// The composition of two relations along a path, or nothing where the two
    /// together say nothing about the ends of the path.
    pub open spec fn spec_compose(self, other: Relation) -> Option<Relation> {
        if self.chain(other) == Relation::TOP {
            None
        } else {
            Some(self.chain(other))
        }
    }

    /// Whether the relation holds between two values.
    pub open spec fn holds(self, p: int, q: int) -> bool {
        (p < q && self.permits_lt()) || (p == q && self.permits_eq()) || (p > q
            && self.permits_gt())
    }

    /// Builds a relation from the outcomes it permits.
    pub fn from_outcomes(lt: bool, eq: bool, gt: bool) -> (r: Relation)
        ensures
            r == Relation::of_outcomes(lt, eq, gt),
            r.permits_lt() == lt,
            r.permits_eq() == eq,
            r.permits_gt() == gt,
    {
        if lt {
            if eq {
                if gt {
                    Relation::TOP
                } else {
                    Relation::LE
                }
            } else {
                if gt {
                    Relation::NE
                } else {
                    Relation::LT
                }
            }
        } else {
            if eq {
                if gt {
                    Relation::GE
                } else {
                    Relation::EQ
                }
            } else {
                if gt {
                    Relation::GT
                } else {
                    Relation::BOT
                }
            }
        }
    }

    /// Whether `a < b` is a permitted outcome.
    pub fn allows_less(self) -> (b: bool)
        ensures
            b == self.permits_lt(),
    {
        match self {
            Relation::LT | Relation::LE | Relation::NE | Relation::TOP => true,
            _ => false,
        }
    }

    /// Whether `a = b` is a permitted outcome: true of `LE` and `GE`, false of `LT`
    /// and `GT`.
    pub fn allows_equal(self) -> (b: bool)
        ensures
            b == self.permits_eq(),
    {
        match self {
            Relation::LE | Relation::GE | Relation::EQ | Relation::TOP => true,
            _ => false,
        }
    }

    /// Whether `a > b` is a permitted outcome.
    pub fn allows_greater(self) -> (b: bool)
        ensures
            b == self.permits_gt(),
    {
        match self {
            Relation::GT | Relation::GE | Relation::NE | Relation::TOP => true,
            _ => false,
        }
    }

    /// The permitted outcomes as a bit-set; conjunction is the bitwise `&` of these.
    pub fn bits(self) -> (b: u8)
        ensures
            b == self.spec_bits(),
            b < 8,
    {
        match self {
            Relation::BOT => 0,
            Relation::LT => 1,
            Relation::EQ => 2,
            Relation::LE => 3,
            Relation::GT => 4,
            Relation::NE => 5,
            Relation::GE => 6,
            Relation::TOP => 7,
        }
    }

    /// Swaps the two sides: `LT` and `GT` change places, and so do `LE` and `GE`.
    #[verifier::when_used_as_spec(spec_rev)]
    pub fn rev(self) -> (r: Relation)
        ensures
            r == self.spec_rev(),
    {
        Relation::from_outcomes(self.allows_greater(), self.allows_equal(), self.allows_less())
    }

    /// Conjoins two relations on the same pair.
    #[verifier::when_used_as_spec(spec_conj)]
    pub fn conj(self, other: Relation) -> (r: Relation)
        ensures
            r == self.spec_conj(other),
    {
        Relation::from_outcomes(
            self.allows_less() && other.allows_less(),
            self.allows_equal() && other.allows_equal(),
            self.allows_greater() && other.allows_greater(),
        )
    }

    /// Projects to the `≤`-direction.
    #[verifier::when_used_as_spec(spec_lte_component)]
    pub fn lte_component(self) -> (r: Option<Relation>)
        ensures
            r == self.spec_lte_component(),
    {
        if self.allows_greater() {
            None
        } else if self.allows_equal() {
            Some(Relation::LE)
        } else {
            Some(Relation::LT)
        }
    }

    /// Projects to the `≥`-direction.
    #[verifier::when_used_as_spec(spec_gte_component)]
    pub fn gte_component(self) -> (r: Option<Relation>)
        ensures
            r == self.spec_gte_component(),
    {
        if self.allows_less() {
            None
        } else if self.allows_equal() {
            Some(Relation::GE)
        } else {
            Some(Relation::GT)
        }
    }

    /// The strict version of a relation: `LE` becomes `LT`, `GE` becomes `GT`.
    #[verifier::when_used_as_spec(spec_not_equal)]
    pub fn not_equal(self) -> (r: Relation)
        ensures
            r == self.spec_not_equal(),
    {
        Relation::from_outcomes(self.allows_less(), false, self.allows_greater())
    }

    /// Applies a polarity: `Neg` reverses the relation, `Pos` leaves it.
    #[verifier::when_used_as_spec(spec_twist)]
    pub fn twist(self, polarity: Polarity) -> (r: Relation)
        ensures
            r == self.spec_twist(polarity),
    {
        match polarity {
            Polarity::Pos => self,
            Polarity::Neg => self.rev(),
        }
    }

    /// Composes `a self b` with `b other c` into the relation of `a` to `c`.
    #[verifier::when_used_as_spec(spec_compose)]
    pub fn compose(self, other: Relation) -> (r: Option<Relation>)
        ensures
            r == self.spec_compose(other),
    {
        let apart = (self.allows_less() && other.allows_greater()) || (self.allows_greater()
            && other.allows_less());
        let lt = apart || (self.allows_less() && (other.allows_less() || other.allows_equal()))
            || (self.allows_equal() && other.allows_less());
        let eq = apart || (self.allows_equal() && other.allows_equal());
        let gt = apart || (self.allows_greater() && (other.allows_greater()
            || other.allows_equal())) || (self.allows_equal() && other.allows_greater());
        if lt && eq && gt {
            None
        } else {
            Some(Relation::from_outcomes(lt, eq, gt))
        }
    }

    /// The sign that stands for the relation in a message.
    pub fn symbol(self) -> (s: &'static str)
        ensures
            s@ == self.symbol_spec(),
    {
        match self {
            Relation::LT => "<",
            Relation::LE => "≤",
            Relation::GE => "≥",
            Relation::GT => ">",
            Relation::EQ => "=",
            Relation::NE => "≠",
            Relation::TOP => "?",
            Relation::BOT => "!",
        }
    }

    /// The characters of `symbol`.
    pub open spec fn symbol_spec(self) -> Seq<char> {
        match self {
            Relation::LT => "<"@,
            Relation::LE => "≤"@,
            Relation::GE => "≥"@,
            Relation::GT => ">"@,
            Relation::EQ => "="@,
            Relation::NE => "≠"@,
            Relation::TOP => "?"@,
            Relation::BOT => "!"@,
        }
    }
}

impl core::ops::BitAnd for Relation {
    type Output = Relation;

    fn bitand(self, rhs: Relation) -> (r: Relation) {
        self.conj(rhs)
    }
}

impl BitAndSpecImpl for Relation {
    open spec fn obeys_bitand_spec() -> bool {
        true
    }

    open spec fn bitand_req(self, rhs: Relation) -> bool {
        true
    }

    open spec fn bitand_spec(self, rhs: Relation) -> Relation {
        self.spec_conj(rhs)
    }
}

impl core::ops::Add for Relation {
    type Output = Option<Relation>;

    fn add(self, rhs: Relation) -> (r: Option<Relation>) {
        self.compose(rhs)
    }
}

impl AddSpecImpl for Relation {
    open spec fn obeys_add_spec() -> bool {
        true
    }

    open spec fn add_req(self, rhs: Relation) -> bool {
        true
    }

    open spec fn add_spec(self, rhs: Relation) -> Option<Relation> {
        self.spec_compose(rhs)
    }
}

/// Reversing a relation twice gives it back.
pub proof fn lemma_rev_involution(r: Relation)
    ensures
        r.rev().rev() == r,
{
}

/// Conjunction is idempotent.
pub proof fn lemma_conj_idempotent(r: Relation)
    ensures
        r.conj(r) == r,
{
}

/// Conjunction is commutative.
pub proof fn lemma_conj_commutative(r: Relation, s: Relation)
    ensures
        r.conj(s) == s.conj(r),
{
}

/// Conjunction is associative.
pub proof fn lemma_conj_associative(r: Relation, s: Relation, t: Relation)
    ensures
        r.conj(s).conj(t) == r.conj(s.conj(t)),
{
}

/// Reversal distributes over conjunction.
pub proof fn lemma_rev_distributes_over_conj(r: Relation, s: Relation)
    ensures
        r.conj(s).rev() == r.rev().conj(s.rev()),
{
}

/// Conjunction is the bitwise `&` of the two bit-sets.
pub proof fn lemma_conj_is_intersection(r: Relation, s: Relation)
    ensures
        r.conj(s).spec_bits() == r.spec_bits() & s.spec_bits(),
{
    let a = r.spec_bits();
    let b = s.spec_bits();
    assert(a < 8 && b < 8);
    assert(a < 8 && b < 8 ==> (a & b) == (if (a & 1 == 1) && (b & 1 == 1) {
        1u8
    } else {
        0u8
    }) + (if (a & 2 == 2) && (b & 2 == 2) {
        2u8
    } else {
        0u8
    }) + (if (a & 4 == 4) && (b & 4 == 4) {
        4u8
    } else {
        0u8
    })) by (bit_vector);
    assert((a & 1 == 1) == (a == 1 || a == 3 || a == 5 || a == 7) && (a & 2 == 2) == (a == 2 || a
        == 3 || a == 6 || a == 7) && (a & 4 == 4) == (a == 4 || a == 5 || a == 6 || a == 7))
        by (bit_vector)
        requires
            a < 8,
    ;
    assert((b & 1 == 1) == (b == 1 || b == 3 || b == 5 || b == 7) && (b & 2 == 2) == (b == 2 || b
        == 3 || b == 6 || b == 7) && (b & 4 == 4) == (b == 4 || b == 5 || b == 6 || b == 7))
        by (bit_vector)
        requires
            b < 8,
    ;
}

/// Composition among the four inequalities: two relations of the same direction
/// compose to that direction, strict as soon as one of them is; two of opposite
/// directions compose to nothing.
pub proof fn lemma_composition_table()
    ensures
        Relation::LT.compose(Relation::LT) == Some(Relation::LT),
        Relation::LT.compose(Relation::LE) == Some(Relation::LT),
        Relation::LT.compose(Relation::GE) == None::<Relation>,
        Relation::LT.compose(Relation::GT) == None::<Relation>,
        Relation::LE.compose(Relation::LT) == Some(Relation::LT),
        Relation::LE.compose(Relation::LE) == Some(Relation::LE),
        Relation::LE.compose(Relation::GE) == None::<Relation>,
        Relation::LE.compose(Relation::GT) == None::<Relation>,
        Relation::GE.compose(Relation::LT) == None::<Relation>,
        Relation::GE.compose(Relation::LE) == None::<Relation>,
        Relation::GE.compose(Relation::GE) == Some(Relation::GE),
        Relation::GE.compose(Relation::GT) == Some(Relation::GT),
        Relation::GT.compose(Relation::LT) == None::<Relation>,
        Relation::GT.compose(Relation::LE) == None::<Relation>,
        Relation::GT.compose(Relation::GE) == Some(Relation::GT),
        Relation::GT.compose(Relation::GT) == Some(Relation::GT),
{
}

/// What the operations mean for values: a conjunction holds where both relations
/// hold, a reversed relation holds with the sides swapped, a relation implies its
/// components, and what holds along a path implies the composition for its ends.
pub proof fn lemma_relation_semantics(r: Relation, s: Relation, p: int, q: int, t: int)
    ensures
        r.conj(s).holds(p, q) <==> r.holds(p, q) && s.holds(p, q),
        r.rev().holds(q, p) <==> r.holds(p, q),
        r.implies(s) && r.holds(p, q) ==> s.holds(p, q),
        r.holds(p, q) && r.lte_component() is Some ==> r.lte_component()->0.holds(p, q),
        r.holds(p, q) && r.gte_component() is Some ==> r.gte_component()->0.holds(p, q),
        r.holds(p, q) && s.holds(q, t) ==> r.chain(s).holds(p, t),
        !Relation::BOT.holds(p, q),
{
}

} // verus!
