use std::collections::HashMap;

use nabla_game::basis::builders::{
    ACosBasisNode, ASinBasisNode, AddBasisNode, CosBasisNode, DivBasisNode, EBasisNode, IntBasisNode, LogBasisNode, MinusBasisNode, MultBasisNode, PowBasisNode, SinBasisNode, SqrtBasisNode,
};
use nabla_game::basis::structs::{Basis, BasisElement, BasisLeaf, BasisNode, BasisOperator};
use nabla_game::cards::LimitCard;
use nabla_game::math::derivative::derivative;
use nabla_game::math::fraction::Fraction;
use nabla_game::math::integral::{integral, integration_by_parts, tabular_integration};
use nabla_game::math::liate::{algebraic, trig};
use nabla_game::math::inverse::inverse;
use nabla_game::math::limits::limit;
use nabla_game::math::logarithm::logarithm;
use nabla_game::math::util::function_composition;

fn sin_x() -> Basis {
    sin(&Basis::x())
}
fn sin(operand: &Basis) -> Basis {
    SinBasisNode(operand)
}
fn cos_x() -> Basis {
    CosBasisNode(&Basis::x())
}
fn cos(operand: &Basis) -> Basis {
    CosBasisNode(operand)
}
fn e_x() -> Basis {
    EBasisNode(&Basis::x())
}
fn e(operand: &Basis) -> Basis {
    EBasisNode(operand)
}
fn log_x() -> Basis {
    LogBasisNode(&Basis::x())
}
fn log(operand: &Basis) -> Basis {
    LogBasisNode(operand)
}

// test add operator
#[test]
fn test_add() {
    let (mut a, mut b);

    // test return 1 operand
    a = AddBasisNode(vec![Basis::x()]);
    b = Basis::x();
    println!("{} = {}", a.to_string(), b.to_string());
    assert_eq!(a, b);

    // test INF short circuit
    a = Basis::x() + Basis::inf(1);
    b = Basis::inf(1);
    println!("{} = {}", a.to_string(), b.to_string());
    assert_eq!(a, b);

    // test collect like terms
    a = Basis::x() + Basis::x();
    b = Basis::BasisLeaf(BasisLeaf {
        coefficient: Fraction::from(2),
        element: BasisElement::X,
    });
    println!("{} = {}", a.to_string(), b.to_string());
    assert_eq!(a, b);

    // test multiple elements
    a = AddBasisNode(vec![Basis::x(), Basis::x() * 2, e_x()]);
    b = (Basis::x() * 3) + e_x();
    println!("{} = {}", a.to_string(), b.to_string());
    assert_eq!(a, b);

    // test nested add nodes
    a = Basis::x() + AddBasisNode(vec![Basis::x(), cos_x()]);
    b = (Basis::x() * 2) + cos_x();
    println!("{} = {}", a.to_string(), b.to_string());
    assert_eq!(a, b);

    // test nested minus nodes
    a = AddBasisNode(vec![Basis::x(), log_x()]) + MinusBasisNode(vec![sin_x(), Basis::x()]);
    b = sin_x() + log_x();
    println!("{} = {}", a.to_string(), b.to_string());
    assert_eq!(a, b);
}

// test mult operator
#[test]
fn test_mult() {
    let (mut a, mut b);

    // test return 1 operand
    a = MultBasisNode(vec![Basis::x()]);
    b = Basis::x();
    println!("{} = {}", a.to_string(), b.to_string());
    assert_eq!(a, b);

    // test INF short circuit
    a = Basis::x() * Basis::inf(1);
    b = Basis::inf(1);
    println!("{} = {}", a.to_string(), b.to_string());
    assert_eq!(a, b);

    // test collect like terms
    a = Basis::x() * Basis::x();
    b = Basis::x() ^ 2;
    println!("{} = {}", a.to_string(), b.to_string());
    assert_eq!(a, b);

    // test multiple elements
    a = MultBasisNode(vec![Basis::x(), Basis::x() ^ 2, e_x()]);
    b = e_x() * (Basis::x() ^ 3);
    println!("{} = {}", a.to_string(), b.to_string());
    assert_eq!(a, b);

    // test nested mult nodes
    a = MultBasisNode(vec![Basis::x(), cos_x()]) * Basis::x();
    b = (Basis::x() ^ 2) * cos_x();
    println!("{} = {}", a.to_string(), b.to_string());
    assert_eq!(a, b);

    // test simple div node
    a = MultBasisNode(vec![
        MultBasisNode(vec![Basis::x(), log_x()]),
        sin_x() / Basis::x(),
    ]);
    b = sin_x() * log_x();
    println!("{} = {}", a.to_string(), b.to_string());
    assert_eq!(a, b);

    // test nested div node
    a = Basis::x() * e_x() * (((Basis::x() ^ (3, 2)) * cos_x()) / (e_x() * sin_x()));
    b = (cos_x() * (Basis::x() ^ (5, 2))) / sin_x();

    println!("{} = {}", a.to_string(), b.to_string());
    assert_eq!(a, b);
}

// test div operator
#[test]
fn test_div() {
    let (mut a, mut b);

    // test return 1 operand with coefficient
    a = Basis::x() / Basis::from((1, 2));
    b = Basis::x() * 2;
    println!("{} = {}", a.to_string(), b.to_string());
    assert_eq!(a, b);

    // test divide by INF
    a = Basis::x() / Basis::inf(1);
    b = Basis::from(0);
    println!("{} = {}", a.to_string(), b.to_string());
    assert_eq!(a, b);

    // test reduce like terms
    a = (Basis::x() ^ 2) / Basis::x();
    b = Basis::x();
    println!("{} = {}", a.to_string(), b.to_string());
    assert_eq!(a, b);

    // test div numerator
    a = (Basis::x() / (Basis::x() ^ 2)) / e_x();
    b = Basis::from(1) / (e_x() * Basis::x());
    println!("{} = {}", a.to_string(), b.to_string());
    assert_eq!(a, b);

    // test mult denominator
    a = Basis::x() / ((Basis::x() ^ -2) * log_x());
    b = (Basis::x() ^ 3) / log_x();
    println!("{} = {}", a.to_string(), b.to_string());
    assert_eq!(a, b);

    // test div denominator
    a = cos_x() / (sin_x() / cos_x());
    b = (cos_x() ^ 2) / sin_x();
    println!("{} = {}", a.to_string(), b.to_string());
    assert_eq!(a, b);

    // test mult numerator
    a = (Basis::x() * e_x()) / (Basis::x() ^ (3, 2));
    b = e_x() * (Basis::x() ^ (-1, 2));

    println!("{} = {}", a.to_string(), b.to_string());
    assert_eq!(a, b);

    // test div numerator and denominator
    a = (Basis::x() / log_x()) / (Basis::x() / e_x());
    b = e_x() / log_x();
    println!("{} = {}", a.to_string(), b.to_string());
    assert_eq!(a, b);

    // test mult numerator and denominator
    a = (Basis::x() * sin_x() * cos_x()) / (cos_x() * e_x() * log_x());
    b = (Basis::x() * sin_x()) / (e_x() * log_x());
    println!("{} = {}", a.to_string(), b.to_string());
    assert_eq!(a, b);
}

// test basic derivatives
#[test]
fn test_basic_derivatives() {
    let derivative_lookup = HashMap::from([
        (Basis::from(0), Basis::from(0)),
        (Basis::from(1), Basis::from(0)),
        (Basis::x(), Basis::from(1)),
        (Basis::x() ^ 2, 2 * Basis::x()),
        (e_x(), e_x()),
        (log_x(), Basis::x() ^ -1),
        (cos_x(), -sin_x()),
        (sin_x(), cos_x()),
    ]);

    for (key, value) in derivative_lookup.into_iter() {
        println!("d/dx({}) = {}", key.to_string(), value.to_string());
        assert_eq!(derivative(&key), value);
    }
}

// test Add and Minus derivatives
#[test]
fn derivative_test_add_derivatives() {
    let (mut a, mut b);

    // test first derivative
    a = Basis::x() + e_x();
    b = Basis::from(1) + e_x();
    println!("d/dx({}) = {}", a.to_string(), b.to_string());
    assert_eq!(derivative(&a), b);

    // test second derivative
    a = cos_x() + (Basis::x() ^ 2);
    b = -cos_x() + Basis::from(2);
    println!("d/dx(d/dx({})) = {}", a.to_string(), b.to_string());
    assert_eq!(derivative(&derivative(&a)), b);

    // test trinomial (nested BasisNode)
    a = sin_x() + (Basis::x() ^ 2) + Basis::x();
    b = cos_x() + (Basis::x() * 2) + Basis::from(1);
    println!("d/dx({}) = {}", a.to_string(), b.to_string());
    assert_eq!(derivative(&a), b);

    // test trim 0
    a = cos_x() + Basis::from(1);
    b = -sin_x();
    println!("d/dx({}) = {}", a.to_string(), b.to_string());
    assert_eq!(derivative(&a), b);
}

// test Mult and Div derivatives
#[test]
fn derivative_test_mult_derivatives() {
    let (mut a, mut b);

    // test mult derivative
    a = (Basis::x() ^ 2) * cos_x();
    b = ((Basis::x() ^ 2) * -sin_x()) + (cos_x() * Basis::x() * 2);
    println!("d/dx({}) = {}", a.to_string(), b.to_string());
    assert_eq!(derivative(&a), b);

    // test trim 1
    a = Basis::x() * e_x();
    b = (Basis::x() * e_x()) + e_x();
    println!("d/dx({}) = {}", a.to_string(), b.to_string());
    assert_eq!(derivative(&a), b);

    // test div derivative
    a = cos_x() / e_x();
    b = ((-sin_x() * e_x()) - (cos_x() * e_x())) / (e_x() ^ 2);
    println!("d/dx({}) = {}", a.to_string(), b.to_string());
    assert_eq!(derivative(&a), b);
}

// test Pow and Sqrt derivatives
#[test]
fn derivative_test_exponent_derivatives() {
    let (mut a, mut b);

    // test pow derivative
    a = Basis::x() ^ 4;
    b = 4 * (Basis::x() ^ 3);
    println!("d/dx({}) = {}", a.to_string(), b.to_string());
    assert_eq!(derivative(&a), b);

    // test sqrt derivative
    a = Basis::x() ^ (1, 2);
    b = (Basis::x() ^ (-1, 2)) / 2;
    println!("d/dx({}) = {}", a.to_string(), b.to_string());
    assert_eq!(derivative(&a), b);

    // test sin pow derivative
    a = cos_x() ^ 2;
    b = -2 * sin_x() * cos_x();
    println!("d/dx({}) = {}", a.to_string(), b.to_string());
    assert_eq!(derivative(&a), b);

    // test e pow derivative
    a = e_x() ^ (1, 2);
    b = e(&(Basis::x() / 2)) / 2;
    println!("d/dx({}) = {}", a.to_string(), b.to_string());
    assert_eq!(derivative(&a), b);
}

// test Log derivatives
#[test]
fn test_log_derivatives() {
    let (mut a, mut b);

    // test log(x) derivative
    a = log_x();
    b = Basis::x() ^ -1;
    println!("d/dx({}) = {}", a.to_string(), b.to_string());
    assert_eq!(derivative(&a), b);

    // test log(sin(x)) derivative
    a = log(&sin_x());
    b = cos_x() / sin_x();
    println!("d/dx({}) = {}", a.to_string(), b.to_string());
    assert_eq!(derivative(&a), b);

    // test log(acos(x)) derivative
    a = log(&ACosBasisNode(&Basis::x()));
    b = derivative(&ACosBasisNode(&Basis::x())) / ACosBasisNode(&Basis::x());
    println!("d/dx({}) = {}", a.to_string(), b.to_string());
    assert_eq!(derivative(&a), b);
}

// integrals of logarithms by parts, and of 1/x
#[test]
fn test_basic_inverses() {
    let (mut a, mut b);

    // test leaf num
    a = Basis::from(2);
    b = Basis::from(2);
    println!("f-1({}) = {}", a.to_string(), b.to_string());
    assert_eq!(inverse(&a), b);

    // test leaf x
    a = Basis::x();
    b = Basis::x();
    println!("f-1({}) = {}", a.to_string(), b.to_string());
    assert_eq!(inverse(&a), b);

    // test e → log
    a = e_x();
    b = log_x();
    println!("f-1({}) = {}", a.to_string(), b.to_string());
    assert_eq!(inverse(&a), b);

    // test log → e
    a = log_x();
    b = e_x();
    println!("f-1({}) = {}", a.to_string(), b.to_string());
    assert_eq!(inverse(&a), b);

    // test powers
    a = Basis::x() ^ 2;
    b = Basis::x() ^ (1, 2);
    println!("f-1({}) = {}", a.to_string(), b.to_string());
    assert_eq!(inverse(&a), b);

    // test root powers
    a = Basis::x() ^ (3, 2);
    b = Basis::x() ^ (2, 3);
    println!("f-1({}) = {}", a.to_string(), b.to_string());
    assert_eq!(inverse(&a), b);

    // test sin, asin
    a = sin_x();
    b = ASinBasisNode(&Basis::x());
    println!("f-1({}) = {}", a.to_string(), b.to_string());
    assert_eq!(inverse(&a), b);

    // test cos, acos
    a = ACosBasisNode(&Basis::x());
    b = cos_x();
    println!("f-1({}) = {}", a.to_string(), b.to_string());
    assert_eq!(inverse(&a), b);

    // test addition
    a = Basis::x() - Basis::from(1);
    b = Basis::x() + Basis::from(1);
    println!("f-1({}) = {}", a.to_string(), b.to_string());
    assert_eq!(inverse(&a), b);
}

#[test]
fn test_complex_inverses() {
    let (mut a, mut b);

    // cos(x)^2
    a = cos_x() ^ 2;
    b = ACosBasisNode(&(Basis::x() ^ (1, 2)));
    println!("f-1({}) = {}", a.to_string(), b.to_string());
    assert_eq!(inverse(&a), b);

    // e^2x
    a = e_x() ^ 2;
    b = log(&(Basis::x() ^ (1, 2)));
    println!("f-1({}) = {}", a.to_string(), b.to_string());
    assert_eq!(inverse(&a), b);

    // ln(cos(x))
    a = log(&cos_x());
    b = ACosBasisNode(&e_x());
    println!("f-1({}) = {}", a.to_string(), b.to_string());
    assert_eq!(inverse(&a), b);

    // asin(e^x)
    a = ASinBasisNode(&e_x());
    b = log(&sin_x());
    println!("f-1({}) = {}", a.to_string(), b.to_string());
    assert_eq!(inverse(&a), b);
}

#[test]
fn test_basic_limit_zero() {
    let limit_zero_map = HashMap::from([
        (Basis::from(0), Basis::from(0)),
        (Basis::from(1), Basis::from(1)),
        (Basis::x(), Basis::from(0)),
        (CosBasisNode(&Basis::x()), Basis::from(1)),
        (SinBasisNode(&Basis::x()), Basis::from(0)),
        (EBasisNode(&Basis::x()), Basis::from(1)),
    ]);

    for (key, value) in limit_zero_map.iter() {
        println!("lim, x→0({}) = {}", key.to_string(), value.to_string());
        assert_eq!(limit(&LimitCard::Lim0, &key).unwrap(), *value);
    }
}

#[test]
fn test_basic_limit_inf() {
    let limit_inf_map = HashMap::from([
        (Basis::x() ^ 2, Basis::inf(1)),
        (Basis::from(1), Basis::from(1)),
        (Basis::from(0), Basis::from(0)),
    ]);

    for (key, value) in limit_inf_map.iter() {
        println!("lim, x→INF({}) = {}", key.to_string(), value.to_string());
        assert_eq!(limit(&LimitCard::LimPosInf, &key).unwrap(), *value);
        println!("lim, x→-INF({}) = {}", key.to_string(), value.to_string());
        assert_eq!(limit(&LimitCard::LimNegInf, &key).unwrap(), *value);
    }

    let (mut a, mut b);

    // test e INF
    a = EBasisNode(&Basis::x());
    b = Basis::inf(1);
    println!("lim, x→INF({}) = {}", a.to_string(), b.to_string());
    assert_eq!(limit(&LimitCard::LimPosInf, &a).unwrap(), b);

    // test e -INF
    b = Basis::from(0);
    println!("lim, x→-INF({}) = {}", a.to_string(), b.to_string());
    assert_eq!(limit(&LimitCard::LimNegInf, &a).unwrap(), b);

    // test x INF
    a = Basis::x();
    b = Basis::inf(1);
    println!("lim, x→INF({}) = {}", a.to_string(), b.to_string());
    assert_eq!(limit(&LimitCard::LimPosInf, &a).unwrap(), b);

    // test x -INF
    b = Basis::inf(-1);
    println!("lim, x→-INF({}) = {}", a.to_string(), b.to_string());
    assert_eq!(limit(&LimitCard::LimNegInf, &a).unwrap(), b);
}

#[test]
fn test_basic_liminfsup() {
    let liminfsup_map = HashMap::from([
        (EBasisNode(&Basis::x()), Basis::inf(1)),
        (Basis::x(), Basis::inf(1)),
        (Basis::from(1), Basis::from(1)),
        (Basis::from(0), Basis::from(0)),
        (CosBasisNode(&Basis::x()), Basis::from(1)),
        (SinBasisNode(&Basis::x()), Basis::from(1)),
    ]);

    for (key, value) in liminfsup_map.iter() {
        println!("liminf, x→INF({}) = {}", key.to_string(), value.to_string());
        assert_eq!(limit(&LimitCard::Liminf, &key).unwrap(), *value);
        println!("limsup, x→INF({}) = {}", key.to_string(), value.to_string());
        assert_eq!(limit(&LimitCard::Limsup, &key).unwrap(), *value);
    }
}

#[test]
fn test_complex_basis_limits() {
    let (mut a, mut b);

    // test add limit
    a = EBasisNode(&Basis::x()) + Basis::x();
    b = Basis::from(1);
    println!("lim, x→0({}) = {}", a.to_string(), b.to_string());
    assert_eq!(limit(&LimitCard::Lim0, &a).unwrap(), b);

    // test minus limit
    a = SinBasisNode(&Basis::x()) - CosBasisNode(&Basis::x());
    b = Basis::from(0);
    println!("limsup, x→INF({}) = {}", a.to_string(), b.to_string());
    assert_eq!(limit(&LimitCard::Limsup, &a).unwrap(), b);

    // test mult limit
    a = EBasisNode(&Basis::x()) * (Basis::x() ^ 2);
    b = Basis::inf(1);
    println!("lim, x→INF({}) = {}", a.to_string(), b.to_string());
    assert_eq!(limit(&LimitCard::LimPosInf, &a).unwrap(), b);

    // test invalid limit
    a = Basis::x() * SinBasisNode(&Basis::x());
    println!("lim, x→INF({}) = None", a.to_string());
    assert_eq!(limit(&LimitCard::LimPosInf, &a), None);
}

#[test]
fn test_logarithm() {
    let (mut a, mut b);

    // test cancel E
    a = e_x();
    b = Basis::x();
    println!("log({}) = {}", a.to_string(), b.to_string());
    assert_eq!(logarithm(&a), b);

    // test pow rule
    a = Basis::x() ^ 2;
    b = 2 * log_x();
    println!("log({}) = {}", a.to_string(), b.to_string());
    assert_eq!(logarithm(&a), b);

    // test mult rule
    a = Basis::x() * e_x();
    b = log_x() + Basis::x();
    println!("log({}) = {}", a.to_string(), b.to_string());
    assert_eq!(logarithm(&a), b);

    // test div rule
    a = cos(&Basis::x()) / (Basis::x() ^ 2);
    b = log(&cos(&Basis::x())) - (2 * log_x());
    println!("log({}) = {}", a.to_string(), b.to_string());
    assert_eq!(logarithm(&a), b);
}

#[test]
fn not_is_the_inverse_function() {
    assert_eq!(!e_x(), log_x());
    assert_eq!(!log_x(), e_x());
    assert_eq!(!(Basis::x() ^ 2), Basis::x() ^ (1, 2));
    assert_eq!(!Basis::x(), Basis::x());
}

#[test]
fn algebraic_integration_picks_a_method() {
    let mult = BasisOperator::Mult;
    // low whole powers go to tabular integration
    assert_eq!(
        algebraic(mult, &(Basis::x() ^ 2), &cos_x(), false),
        Some(tabular_integration(&(Basis::x() ^ 2), &cos_x()))
    );
    // high powers only when asked
    assert_eq!(algebraic(mult, &(Basis::x() ^ 5), &e_x(), false), None);
    assert_eq!(
        algebraic(mult, &(Basis::x() ^ 5), &e_x(), true),
        Some(tabular_integration(&(Basis::x() ^ 5), &e_x()))
    );
    // fractional powers never
    assert_eq!(algebraic(mult, &(Basis::x() ^ (1, 2)), &e_x(), true), None);
    // x goes by parts
    assert_eq!(
        algebraic(mult, &Basis::x(), &e_x(), false),
        Some(integration_by_parts(&Basis::x(), &e_x()))
    );
    assert_eq!(algebraic(mult, &cos_x(), &e_x(), false), None);
}

#[test]
fn test_log_integral() {
    let (mut a, mut b);

    // integral of log(x)
    a = log_x();
    b = Basis::x() * log_x() - Basis::x();
    println!("I({}) = {}", a.to_string(), b.to_string());
    assert_eq!(integral(&a), b);

    // integral of 1/x
    a = Basis::x() ^ -1;
    b = log_x();
    println!("I({}) = {}", a.to_string(), b.to_string());
    assert_eq!(integral(&a), b);

    // integral of xlog(x)
    a = Basis::x() * log_x();
    b = (2 * (Basis::x() ^ 2) * log_x() - (Basis::x() ^ 2)) / 4;
    println!("I({}) = {}", a.to_string(), b.to_string());
    assert_eq!(integral(&a), b);

    // integral of log(x)/x
    a = log_x() / Basis::x();
    b = (log_x() ^ 2) / 2;
    println!("I({}) = {}", a.to_string(), b.to_string());
    assert_eq!(integral(&a), b);

    // integral of log(x)/x^2
    a = log_x() / (Basis::x() ^ 2);
    b = -log_x() / Basis::x() - (Basis::x() ^ -1);
    println!("I({}) = {}", a.to_string(), b.to_string());
    assert_eq!(integral(&a), b);
}

#[test]
fn test_tabular_integration() {
    let (mut a, mut b);

    // integral of xsin(x)
    a = sin_x() * Basis::x();
    b = sin_x() - Basis::x() * cos_x();
    println!("I({}) = {}", a.to_string(), b.to_string());
    assert_eq!(integral(&a), b);

    // integral of x^2cos(x)
    a = (Basis::x() ^ 2) * cos_x();
    b = ((Basis::x() ^ 2) * sin_x()) + (2 * Basis::x() * cos_x()) - (2 * sin_x());
    println!("I({}) = {}", a.to_string(), b.to_string());
    assert_eq!(integral(&a), b);

    // integral of x^3e^x
    a = (Basis::x() ^ 3) * e_x();
    b = ((Basis::x() ^ 3) * e_x()) - (3 * (Basis::x() ^ 2) * e_x()) + (6 * Basis::x() * e_x())
        - (6 * e_x());
    println!("I({}) = {}", a.to_string(), b.to_string());
    assert_eq!(integral(&a), b);
}

#[test]
fn builders_keep_coefficients() {
    let x = Basis::x();
    // a coefficient on a product numerator is kept
    let n = x.clone() * e_x() * 2;
    assert_eq!(
        DivBasisNode(&n, &log_x()),
        Basis::BasisNode(BasisNode {
            coefficient: Fraction::from(1),
            operator: BasisOperator::Div,
            operands: vec![n.clone(), log_x()],
        })
    );
    // (2x)^2 is 4x^2
    assert_eq!(PowBasisNode(2, 1, &(x.clone() * 2)), PowBasisNode(2, 1, &x) * 4);
    // a number among the divisors divides
    assert_eq!(MultBasisNode(vec![x.clone(), Basis::from(2)]) / Basis::from(4), x.clone() * (1, 2));
}

#[test]
fn derivative_rules_with_coefficients() {
    let x = Basis::x();
    // d/dx arccos(x) = -1/sqrt(1 - x^2)
    assert_eq!(
        derivative(&ACosBasisNode(&x)),
        Basis::from(-1) / ((Basis::from(1) - (x.clone() ^ 2)) ^ (1, 2))
    );
    // d/dx arcsin(x) = 1/sqrt(1 - x^2)
    assert_eq!(
        derivative(&ASinBasisNode(&x)),
        Basis::from(1) / ((Basis::from(1) - (x.clone() ^ 2)) ^ (1, 2))
    );
    // constant factor rule on a product
    let p = x.clone() * e_x();
    assert_eq!(derivative(&(p.clone() * 2)), derivative(&p) * 2);
}

#[test]
fn trig_integration_divides_by_the_new_power() {
    let r = trig(BasisOperator::Mult, &(cos_x() ^ 2), &sin_x());
    assert_eq!(r, Some((cos_x() ^ 3) * Fraction::from((-1, 3))));
}

#[test]
fn equality_is_symmetric_on_examples() {
    let p = AddBasisNode(vec![Basis::x(), Basis::from(1)]);
    let a = MultBasisNode(vec![p.clone(), cos_x()]);
    let b = MultBasisNode(vec![p.clone(), cos_x(), AddBasisNode(vec![Basis::x(), Basis::from(2)])]);
    assert_ne!(a, b);
    assert_ne!(b, a);
    assert_eq!(a, a.clone());
}

#[test]
fn coefficients_are_set_and_integrals_undone() {
    let x = Basis::x();
    // outside sums the coefficient is set, not scaled
    assert_eq!(x.with_coefficient(2).with_coefficient(3), x.with_coefficient(3));
    assert_eq!(cos_x().with_coefficient(2).with_coefficient(3).coefficient(), Fraction::from(3));
    // the derivative of an integral left as a node is its integrand
    assert_eq!(derivative(&IntBasisNode(&cos_x())), cos_x());
    // x composed with g is g
    assert_eq!(function_composition(&x, &cos_x()), cos_x());
}

#[test]
fn inverses_and_powers_undo_each_other() {
    let x = Basis::x();
    // log(e^f) is f
    let f = cos_x() * 3;
    assert_eq!(log(&e(&f)), f);
    // inverting twice gives the function back
    let g = cos(&e_x());
    assert_eq!(inverse(&g), log(&ACosBasisNode(&x)));
    assert_eq!(inverse(&inverse(&g)), g);
    // (x^a)^b is x^(ab)
    assert_eq!(PowBasisNode(3, 2, &PowBasisNode(2, 5, &x)), PowBasisNode(6, 10, &x));
    assert_eq!(PowBasisNode(5, 2, &PowBasisNode(2, 5, &x)), x.clone());
    // the square root is the power 1/2
    assert_eq!(SqrtBasisNode(1, &x), PowBasisNode(1, 2, &x));
    // f composed with x is f
    assert_eq!(function_composition(&cos_x(), &x), cos_x());
    // the log of a product is the sum of the logs
    assert_eq!(logarithm(&(cos_x() * sin_x())), log(&cos_x()) + log(&sin_x()));
    // a difference keeps its first operand and subtracts the others
    assert_eq!(MinusBasisNode(vec![x.clone() * 3, x.clone()]), x.clone() * 2);
}

#[test]
fn simplify_gives_lowest_terms() {
    assert_eq!(Fraction { n: 2, d: -4 }.simplify(), Fraction { n: -1, d: 2 });
    assert_eq!(Fraction { n: -1, d: 2 }.simplify(), Fraction { n: -1, d: 2 });
    assert_eq!(Fraction { n: 6, d: 9 }.simplify(), Fraction { n: 4, d: 6 }.simplify());
}

#[test]
fn operand_order_does_not_matter() {
    let node = |ops: Vec<Basis>| {
        Basis::BasisNode(BasisNode { coefficient: Fraction::from(2), operator: BasisOperator::Mult, operands: ops })
    };
    let p = AddBasisNode(vec![Basis::x(), Basis::from(1)]);
    let a = node(vec![cos_x(), p.clone(), sin_x()]);
    let b = node(vec![sin_x(), cos_x(), p.clone()]);
    assert_eq!(a, b);
    assert_eq!(b, a);
    assert_ne!(a, node(vec![sin_x(), cos_x()]));
}
