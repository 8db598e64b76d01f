use lau_varadhan_transport::maslov::{TropicalMaxPlus, TropicalMinPlus, TropicalValue};

fn fin(x: i64) -> TropicalValue {
    TropicalValue::Finite(x)
}

#[test]
fn test_tropical_min_plus_add() {
    assert_eq!(TropicalMinPlus::add(fin(3), fin(5)), fin(3));
    assert_eq!(TropicalMinPlus::add(fin(1), fin(1)), fin(1));
}

#[test]
fn test_tropical_min_plus_mul() {
    assert_eq!(TropicalMinPlus::mul(fin(3), fin(5)), fin(8));
}

#[test]
fn test_tropical_min_plus_identities() {
    assert_eq!(TropicalMinPlus::add(fin(3), TropicalMinPlus::zero()), fin(3));
    assert_eq!(TropicalMinPlus::mul(fin(3), TropicalMinPlus::one()), fin(3));
}

#[test]
fn test_tropical_max_plus_add() {
    assert_eq!(TropicalMaxPlus::add(fin(3), fin(5)), fin(5));
}

#[test]
fn test_tropical_max_plus_mul() {
    assert_eq!(TropicalMaxPlus::mul(fin(3), fin(5)), fin(8));
}

#[test]
fn min_plus_zero_and_one() {
    assert_eq!(TropicalMinPlus::zero(), TropicalValue::PosInfinity);
    assert_eq!(TropicalMinPlus::one(), fin(0));
}

#[test]
fn max_plus_zero_and_one() {
    assert_eq!(TropicalMaxPlus::zero(), TropicalValue::NegInfinity);
    assert_eq!(TropicalMaxPlus::one(), fin(0));
    assert_eq!(TropicalMaxPlus::add(fin(-7), TropicalMaxPlus::zero()), fin(-7));
    assert_eq!(TropicalMaxPlus::mul(fin(-7), TropicalMaxPlus::one()), fin(-7));
}

#[test]
fn min_plus_infinities() {
    let inf = TropicalValue::PosInfinity;
    let neg = TropicalValue::NegInfinity;
    assert_eq!(TropicalMinPlus::mul(fin(4), inf), inf);
    assert_eq!(TropicalMinPlus::mul(inf, neg), TropicalValue::Undefined);
    assert_eq!(TropicalMinPlus::mul(neg, fin(4)), neg);
    assert_eq!(TropicalMinPlus::add(neg, fin(4)), neg);
    assert_eq!(TropicalMinPlus::add(inf, inf), inf);
}

#[test]
fn max_plus_infinities() {
    let inf = TropicalValue::PosInfinity;
    let neg = TropicalValue::NegInfinity;
    assert_eq!(TropicalMaxPlus::mul(fin(4), neg), neg);
    assert_eq!(TropicalMaxPlus::mul(inf, neg), TropicalValue::Undefined);
    assert_eq!(TropicalMaxPlus::mul(inf, fin(4)), inf);
    assert_eq!(TropicalMaxPlus::add(inf, fin(4)), inf);
}

#[test]
fn min_plus_negative_values() {
    assert_eq!(TropicalMinPlus::add(fin(-2), fin(-9)), fin(-9));
    assert_eq!(TropicalMinPlus::mul(fin(-2), fin(-9)), fin(-11));
    assert_eq!(TropicalMinPlus::mul(fin(i64::MAX), fin(-1)), fin(i64::MAX - 1));
}

#[test]
fn min_plus_distributes_over_min() {
    let (a, b, c) = (fin(2), fin(7), fin(-3));
    let lhs = TropicalMinPlus::mul(a, TropicalMinPlus::add(b, c));
    let rhs = TropicalMinPlus::add(TropicalMinPlus::mul(a, b), TropicalMinPlus::mul(a, c));
    assert_eq!(lhs, rhs);
    assert_eq!(lhs, fin(-1));
}

#[test]
fn max_plus_distributes_over_max() {
    let (a, b, c) = (fin(2), fin(7), TropicalValue::NegInfinity);
    let lhs = TropicalMaxPlus::mul(a, TropicalMaxPlus::add(b, c));
    let rhs = TropicalMaxPlus::add(TropicalMaxPlus::mul(a, b), TropicalMaxPlus::mul(a, c));
    assert_eq!(lhs, rhs);
    assert_eq!(lhs, fin(9));
}

#[test]
fn min_plus_add_is_associative_and_commutative_on_values() {
    let vals = [
        fin(4),
        fin(-1),
        TropicalValue::PosInfinity,
        TropicalValue::NegInfinity,
        fin(0),
        TropicalValue::Undefined,
    ];
    for &a in &vals {
        for &b in &vals {
            assert_eq!(TropicalMinPlus::add(a, b), TropicalMinPlus::add(b, a));
            for &c in &vals {
                assert_eq!(
                    TropicalMinPlus::add(TropicalMinPlus::add(a, b), c),
                    TropicalMinPlus::add(a, TropicalMinPlus::add(b, c))
                );
                assert_eq!(
                    TropicalMinPlus::mul(TropicalMinPlus::mul(a, b), c),
                    TropicalMinPlus::mul(a, TropicalMinPlus::mul(b, c))
                );
            }
        }
    }
}

#[test]
fn undefined_value_behaves_like_nan() {
    let undef = TropicalValue::Undefined;
    assert_eq!(TropicalMinPlus::add(undef, fin(3)), fin(3));
    assert_eq!(TropicalMinPlus::add(fin(3), undef), fin(3));
    assert_eq!(TropicalMaxPlus::add(undef, fin(-3)), fin(-3));
    assert_eq!(TropicalMinPlus::add(undef, undef), undef);
    assert_eq!(TropicalMinPlus::mul(undef, fin(3)), undef);
    assert_eq!(TropicalMaxPlus::mul(TropicalValue::NegInfinity, TropicalValue::PosInfinity), undef);
}
