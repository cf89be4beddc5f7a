use inet_lifetimes::globals::Polarity;
use inet_lifetimes::order::Relation;

const LT: Relation = Relation::LT;
const LE: Relation = Relation::LE;
const GE: Relation = Relation::GE;
const GT: Relation = Relation::GT;

const ALL: [Relation; 8] = [
    Relation::LT,
    Relation::LE,
    Relation::GE,
    Relation::GT,
    Relation::EQ,
    Relation::NE,
    Relation::TOP,
    Relation::BOT,
];

#[test]
fn reversal_is_an_involution() {
    for r in ALL {
        assert_eq!(r.rev().rev(), r);
    }
    assert_eq!(Relation::LT.rev(), Relation::GT);
    assert_eq!(Relation::LE.rev(), Relation::GE);
    assert_eq!(Relation::GE.rev(), Relation::LE);
    assert_eq!(Relation::GT.rev(), Relation::LT);
}

#[test]
fn conjunction_is_idempotent_commutative_associative() {
    for r in ALL {
        assert_eq!(r & r, r);
        for s in ALL {
            assert_eq!(r & s, s & r);
            assert_eq!(r.conj(s), r & s);
            for t in ALL {
                assert_eq!((r & s) & t, r & (s & t));
            }
        }
    }
    assert_eq!(Relation::LT & Relation::LE, Relation::LT);
    assert_eq!(Relation::LE & Relation::GE, Relation::EQ);
    assert_eq!(Relation::LT & Relation::GE, Relation::BOT);
    assert_eq!(Relation::LT & Relation::GT, Relation::BOT);
}

#[test]
fn conjunction_is_intersection_of_bits() {
    for r in ALL {
        for s in ALL {
            assert_eq!((r & s).bits(), r.bits() & s.bits());
        }
    }
    assert_eq!(Relation::LT.bits(), 0b001);
    assert_eq!(Relation::LE.bits(), 0b011);
    assert_eq!(Relation::GE.bits(), 0b110);
    assert_eq!(Relation::GT.bits(), 0b100);
}

#[test]
fn reversal_distributes_over_conjunction() {
    for r in ALL {
        for s in ALL {
            assert_eq!((r & s).rev(), r.rev() & s.rev());
        }
    }
}

#[test]
fn composition_table() {
    let table = [
        (LT, [Some(LT), Some(LT), None, None]),
        (LE, [Some(LT), Some(LE), None, None]),
        (GE, [None, None, Some(GE), Some(GT)]),
        (GT, [None, None, Some(GT), Some(GT)]),
    ];
    assert_eq!(table.len(), 4);
    for (r0, row) in table {
        for (r1, expected) in [LT, LE, GE, GT].into_iter().zip(row) {
            assert_eq!(r0 + r1, expected, "{:?} + {:?}", r0, r1);
            assert_eq!(r0.compose(r1), expected);
        }
    }
}

#[test]
fn components_and_strictness() {
    assert_eq!(Relation::LT.lte_component(), Some(Relation::LT));
    assert_eq!(Relation::LE.lte_component(), Some(Relation::LE));
    assert_eq!(Relation::GE.lte_component(), None);
    assert_eq!(Relation::GT.lte_component(), None);
    assert_eq!(Relation::GE.gte_component(), Some(Relation::GE));
    assert_eq!(Relation::GT.gte_component(), Some(Relation::GT));
    assert_eq!(Relation::LT.gte_component(), None);
    assert_eq!(Relation::BOT.lte_component(), Some(Relation::LT));
    assert_eq!(Relation::EQ.lte_component(), Some(Relation::LE));
    assert!(Relation::LE.allows_equal());
    assert!(Relation::GE.allows_equal());
    assert!(!Relation::LT.allows_equal());
    assert!(!Relation::GT.allows_equal());
    assert_eq!(Relation::LE.not_equal(), Relation::LT);
    assert_eq!(Relation::GE.not_equal(), Relation::GT);
}

#[test]
fn polarity_twist() {
    assert_eq!(Relation::LT.twist(Polarity::Pos), Relation::LT);
    assert_eq!(Relation::LT.twist(Polarity::Neg), Relation::GT);
    assert_eq!(Relation::LE.twist(Polarity::Neg), Relation::GE);
    assert_eq!(!Polarity::Pos, Polarity::Neg);
    assert_eq!(!Polarity::Neg, Polarity::Pos);
    assert_eq!(Polarity::Pos.symbol(), "+");
    assert_eq!(Polarity::Neg.symbol(), "-");
}

#[test]
fn symbols() {
    assert_eq!(Relation::LT.symbol(), "<");
    assert_eq!(Relation::LE.symbol(), "≤");
    assert_eq!(Relation::GE.symbol(), "≥");
    assert_eq!(Relation::GT.symbol(), ">");
}
