use mathdrill::calculus::{RelatedRates, Scenario, Unit};
use mathdrill::question::GenerateQuestion;
use rand::rngs::StdRng;
use rand::SeedableRng;

fn scenario(vx_known: bool, x_known: bool, vx_positive: bool) -> Scenario {
    Scenario {
        x: 3,
        y: 4,
        ladder: 5,
        unit: Unit::new("meter", "meters"),
        vx_known,
        x_known,
        vx_positive,
        multiplier: 2,
    }
}

#[test]
fn pluralize_counts() {
    let u = Unit::new("foot", "feet");
    assert_eq!(u.pluralize(1), "1 foot");
    assert_eq!(u.pluralize(12), "12 feet");
    assert_eq!(u.pluralize(0), "0 feet");
}

#[test]
fn ladder_scenario_three_four_five() {
    let q = RelatedRates::question_for(&scenario(true, true, true));
    assert_eq!(q.check_answer.expected, 6);
    assert!(q.check_answer.check("6").is_ok());
    let msg = q.check_answer.check("5").unwrap_err();
    assert!(msg.contains('6'));
    assert_eq!(
        q.text,
        "A ladder 5 meters long is leaning against a wall. The bottom of the ladder is sliding \
         away from the wall at a rate of 8 meters per second. How fast is the top of the ladder \
         sliding down the wall when the bottom of the ladder is 3 meters from the wall? \
         (Leave off the units.)"
    );
}

#[test]
fn top_rate_given() {
    let q = RelatedRates::question_for(&scenario(false, false, false));
    assert_eq!(q.check_answer.expected, 8);
    assert_eq!(
        q.text,
        "A ladder 5 meters long is leaning against a wall. The top of the ladder is sliding up \
         the wall at a rate of 6 meters per second. How fast is the bottom of the ladder sliding \
         towards the wall when the top of the ladder is 4 meters from the floor? \
         (Leave off the units.)"
    );
    let msg = q.check_answer.check("x").unwrap_err();
    assert!(msg.starts_with("Could not understand input ("));
}

#[test]
fn other_wordings() {
    let q = RelatedRates::question_for(&scenario(true, false, false));
    assert!(q.text.contains("The bottom of the ladder is sliding towards the wall at a rate of 8 meters"));
    assert!(q.text.contains("sliding up the wall when the top of the ladder is 4 meters from the floor?"));
    let q = RelatedRates::question_for(&scenario(false, true, true));
    assert!(q.text.contains("The top of the ladder is sliding down the wall at a rate of 6 meters"));
    assert!(q.text.contains("sliding away from the wall when the bottom of the ladder is 3 meters"));
}

#[test]
fn rates_are_exact_for_catalog() {
    let triples = [
        (3, 4, 5), (6, 8, 10), (5, 12, 13), (9, 12, 15),
        (8, 15, 17), (12, 16, 20), (15, 20, 25), (7, 24, 25),
    ];
    for (a, b, l) in triples {
        for (x, y) in [(a, b), (b, a)] {
            for vx_known in [true, false] {
                let mut s = scenario(vx_known, true, true);
                s.x = x;
                s.y = y;
                s.ladder = l;
                let base = if vx_known { y } else { x };
                s.multiplier = 50 / base;
                let q = RelatedRates::question_for(&s);
                let v = base * s.multiplier;
                let ans = q.check_answer.expected;
                if vx_known {
                    assert_eq!(x * v, y * ans);
                } else {
                    assert_eq!(y * v, x * ans);
                }
            }
        }
    }
}

#[test]
fn generated_rates_questions() {
    let mut rng = StdRng::seed_from_u64(21);
    for _ in 0..100 {
        let q = RelatedRates.generate(&mut rng).unwrap();
        assert!(q.text.starts_with("A ladder "));
        assert!(q.text.ends_with("(Leave off the units.)"));
        assert!(q.check_answer.expected >= 1);
        let e = q.check_answer.expected;
        assert!(q.check_answer.check(&e.to_string()).is_ok());
    }
}
