use node_fiddler::State;
use node_fiddler::State::{High, Invalid, Low};

const ALL: [State; 3] = [Low, High, Invalid];

#[test]
fn or_table_on_driven_operands() {
    assert_eq!(Low.or(Low), Low);
    assert_eq!(Low.or(High), High);
    assert_eq!(High.or(Low), High);
    assert_eq!(High.or(High), High);
}

#[test]
fn and_table_on_driven_operands() {
    assert_eq!(Low.and(Low), Low);
    assert_eq!(Low.and(High), Low);
    assert_eq!(High.and(Low), Low);
    assert_eq!(High.and(High), High);
}

#[test]
fn xor_table_on_driven_operands() {
    assert_eq!(Low.xor(Low), Low);
    assert_eq!(Low.xor(High), High);
    assert_eq!(High.xor(Low), High);
    assert_eq!(High.xor(High), Low);
}

#[test]
fn not_table() {
    assert_eq!(Low.not(), High);
    assert_eq!(High.not(), Low);
    assert_eq!(Invalid.not(), Invalid);
}

#[test]
fn or_lets_high_win_over_invalid() {
    assert_eq!(High.or(Invalid), High);
    assert_eq!(Invalid.or(High), High);
    assert_eq!(Low.or(Invalid), Invalid);
    assert_eq!(Invalid.or(Low), Invalid);
    assert_eq!(Invalid.or(Invalid), Invalid);
}

#[test]
fn and_lets_low_win_over_invalid() {
    assert_eq!(Low.and(Invalid), Low);
    assert_eq!(Invalid.and(Low), Low);
    assert_eq!(High.and(Invalid), Invalid);
    assert_eq!(Invalid.and(High), Invalid);
    assert_eq!(Invalid.and(Invalid), Invalid);
}

#[test]
fn xor_is_invalid_with_any_invalid_operand() {
    for other in ALL {
        assert_eq!(Invalid.xor(other), Invalid);
        assert_eq!(other.xor(Invalid), Invalid);
    }
}

#[test]
fn binary_gates_are_symmetric() {
    for a in ALL {
        for b in ALL {
            assert_eq!(a.or(b), b.or(a));
            assert_eq!(a.and(b), b.and(a));
            assert_eq!(a.xor(b), b.xor(a));
        }
    }
}

#[test]
fn driven_operands_give_driven_results() {
    for a in [Low, High] {
        for b in [Low, High] {
            assert_ne!(a.or(b), Invalid);
            assert_ne!(a.and(b), Invalid);
            assert_ne!(a.xor(b), Invalid);
        }
        assert_ne!(a.not(), Invalid);
    }
}

#[test]
fn signals_are_named_for_display() {
    assert_eq!(Low.to_string(), "Low");
    assert_eq!(High.to_string(), "High");
    assert_eq!(Invalid.to_string(), "Invalid");
}
