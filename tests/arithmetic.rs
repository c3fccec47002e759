use mathdrill::arithmetic::{ArithmeticProblem, Expr, Op, Valued};
use mathdrill::question::GenerateQuestion;
use rand::rngs::StdRng;
use rand::SeedableRng;

fn value_of(v: &Valued) -> i64 {
    match v {
        Valued::Num(n) => *n as i64,
        Valued::Add(l, r) => value_of(l) + value_of(r),
        Valued::Sub(l, r) => value_of(l) - value_of(r),
        Valued::Mul(l, r) => value_of(l) * value_of(r),
        Valued::Div(l, r) => {
            assert_eq!(value_of(l) % value_of(r), 0);
            value_of(l) / value_of(r)
        }
    }
}

fn check_sound(v: &Valued) {
    match v {
        Valued::Num(_) => {}
        Valued::Add(l, r) => {
            assert!(value_of(l) >= 1 && value_of(r) >= 1);
            check_sound(l);
            check_sound(r);
        }
        Valued::Sub(l, r) => {
            assert!((1..=15).contains(&value_of(r)));
            assert!(value_of(l) > value_of(r));
            check_sound(l);
            check_sound(r);
        }
        Valued::Mul(l, r) => {
            check_sound(l);
            check_sound(r);
        }
        Valued::Div(l, r) => {
            assert!((2..=7).contains(&value_of(r)));
            assert_eq!(value_of(l) % value_of(r), 0);
            check_sound(l);
            check_sound(r);
        }
    }
}

/// Evaluates infix text with `*` and `/` over `+` and `-`, left to right.
fn eval_text(text: &str) -> i64 {
    let tokens: Vec<&str> = text.split(' ').collect();
    let mut sum: i64 = 0;
    let mut sign: i64 = 1;
    let mut i = 0;
    while i < tokens.len() {
        let mut prod: i64 = tokens[i].parse().unwrap();
        i += 1;
        while i < tokens.len() && (tokens[i] == "*" || tokens[i] == "/") {
            let rhs: i64 = tokens[i + 1].parse().unwrap();
            if tokens[i] == "*" {
                prod *= rhs;
            } else {
                assert_eq!(prod % rhs, 0);
                prod /= rhs;
            }
            i += 2;
        }
        sum += sign * prod;
        if i < tokens.len() {
            sign = if tokens[i] == "+" { 1 } else { -1 };
            i += 1;
        }
    }
    sum
}

fn all_shapes(len: usize) -> Vec<Vec<Op>> {
    let mut out = vec![vec![]];
    for _ in 0..len {
        let mut next = Vec::new();
        for s in &out {
            for op in [Op::Add, Op::Sub, Op::Mul, Op::Div] {
                let mut t = s.clone();
                t.push(op);
                next.push(t);
            }
        }
        out = next;
    }
    out
}

#[test]
fn test_primes() {
    assert!(Expr::primes_less_than(1).is_empty());
    for i in 2..50 {
        assert!(!Expr::primes_less_than(i).is_empty());
    }
}

#[test]
fn test_factors() {
    for i in 1..50 {
        assert_eq!(Expr::factorize(i).into_iter().product::<u32>(), i);
    }
}

#[test]
fn primes_up_to_and_including_n() {
    assert_eq!(Expr::primes_less_than(10), vec![2, 3, 5, 7]);
    assert_eq!(Expr::primes_less_than(13), vec![2, 3, 5, 7, 11, 13]);
    assert!(Expr::primes_less_than(0).is_empty());
}

#[test]
fn factorize_lists_primes_after_one() {
    assert_eq!(Expr::factorize(1), vec![1]);
    assert_eq!(Expr::factorize(12), vec![1, 2, 2, 3]);
    assert_eq!(Expr::factorize(37), vec![1, 37]);
}

#[test]
fn split_factors_multiplies_back() {
    let mut rng = StdRng::seed_from_u64(3);
    for target in 2..40 {
        for _ in 0..20 {
            let (l, r) = Expr::split_factors(target, &mut rng);
            assert!(l >= 1 && r >= 1);
            assert_eq!(l * r, target);
        }
    }
}

#[test]
fn parse_respects_precedence() {
    let mut ops = vec![Op::Add, Op::Mul, Op::Sub];
    let e = Expr::parse_add(&mut ops);
    assert!(ops.is_empty());
    match *e {
        Expr::Sub(l, r) => {
            assert!(matches!(*r, Expr::Num));
            match *l {
                Expr::Add(a, m) => {
                    assert!(matches!(*a, Expr::Num));
                    assert!(matches!(*m, Expr::Mul(_, _)));
                }
                _ => panic!("expected a sum on the left"),
            }
        }
        _ => panic!("expected a subtraction at the root"),
    }
}

#[test]
fn parse_mul_stops_at_addition() {
    let mut ops = vec![Op::Div, Op::Mul, Op::Add, Op::Mul];
    let e = Expr::parse_mul(&mut ops);
    assert_eq!(ops, vec![Op::Add, Op::Mul]);
    assert!(matches!(*e, Expr::Mul(_, _)));
}

#[test]
fn leaf_takes_the_target() {
    let mut rng = StdRng::seed_from_u64(1);
    let v = Expr::Num.try_build(7, &mut rng).unwrap();
    assert!(matches!(v, Valued::Num(7)));
    assert_eq!(v.render(), "7");
}

#[test]
fn sum_of_one_has_no_split() {
    let mut rng = StdRng::seed_from_u64(1);
    let e = Expr::Add(Box::new(Expr::Num), Box::new(Expr::Num));
    assert!(e.try_build(1, &mut rng).is_none());
}

#[test]
fn render_spaces_operators() {
    let v = Valued::Add(
        Box::new(Valued::Sub(Box::new(Valued::Num(19)), Box::new(Valued::Num(4)))),
        Box::new(Valued::Div(Box::new(Valued::Num(12)), Box::new(Valued::Num(3)))),
    );
    assert_eq!(v.render(), "19 - 4 + 12 / 3");
    assert_eq!(value_of(&v), 19);
}

#[test]
fn every_shape_reaches_its_target() {
    let mut rng = StdRng::seed_from_u64(7);
    for n in 3..=4 {
        for shape in all_shapes(n) {
            let mut ops = shape.clone();
            let e = Expr::parse_add(&mut ops);
            for target in 1..40 {
                if let Some(v) = e.try_build(target, &mut rng) {
                    assert_eq!(value_of(&v), target as i64);
                    check_sound(&v);
                    assert_eq!(eval_text(&v.render()), target as i64);
                }
            }
        }
    }
}

#[test]
fn build_text_evaluates_to_target() {
    let mut rng = StdRng::seed_from_u64(11);
    for shape in all_shapes(3) {
        let mut ops = shape.clone();
        let e = Expr::parse_add(&mut ops);
        let (target, text) = e.build(&mut rng).unwrap();
        assert!((1..40).contains(&target));
        assert_eq!(eval_text(&text), target as i64);
    }
}

#[test]
fn arithmetic_question_round_trip() {
    let mut rng = StdRng::seed_from_u64(5);
    for _ in 0..50 {
        let q = ArithmeticProblem.generate(&mut rng).unwrap();
        let expr = q.text.strip_prefix("What is ").unwrap().strip_suffix('?').unwrap();
        let target = q.check_answer.expected;
        assert!((1..40).contains(&target));
        assert_eq!(eval_text(expr), target as i64);
        let ops = expr.split(' ').filter(|t| ["+", "-", "*", "/"].contains(t)).count();
        assert!((3..=5).contains(&ops));
        assert!(q.check_answer.check(&target.to_string()).is_ok());
    }
}

#[test]
fn shapes_without_addition_always_succeed() {
    let mut rng = StdRng::seed_from_u64(13);
    for n in 1..=5 {
        for shape in all_shapes(n) {
            if shape.contains(&Op::Add) {
                continue;
            }
            let mut ops = shape.clone();
            let e = Expr::parse_add(&mut ops);
            for target in 1..40 {
                let v = e.try_build(target, &mut rng).unwrap();
                assert_eq!(value_of(&v), target as i64);
            }
            assert!(e.build(&mut rng).is_some());
        }
    }
}

#[test]
fn factorize_is_nondecreasing() {
    assert_eq!(Expr::factorize(7), vec![1, 7]);
    for n in 2..200 {
        let f = Expr::factorize(n);
        assert!(f[1..].windows(2).all(|w| w[0] <= w[1]));
    }
}
