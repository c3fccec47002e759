use mathdrill::question::{Answer, CheckAnswer};
use mathdrill::utils::{div_ceil, rand_product_in_range};
use rand::rngs::StdRng;
use rand::SeedableRng;

fn answer(expected: u32) -> Answer {
    Answer { expected, parse_lead: String::from("Could not parse answer. ") }
}

#[test]
fn check_accepts_expected() {
    assert_eq!(answer(7).check("7"), Ok(()));
    assert_eq!(answer(7).check("+7"), Ok(()));
    assert_eq!(answer(7).check("007"), Ok(()));
}

#[test]
fn check_rejects_other_number() {
    let r = answer(7).check("8");
    assert_eq!(r, Err(String::from("The correct answer is 7.")));
    assert!(r.unwrap_err().contains('7'));
}

#[test]
fn check_reports_parse_failure() {
    let msg = answer(7).check("seven").unwrap_err();
    assert_eq!(msg, "Could not parse answer. (invalid digit found in string)");
    assert_eq!(
        answer(7).check("-7").unwrap_err(),
        "Could not parse answer. (invalid digit found in string)"
    );
    assert_eq!(answer(7).check("seven"), answer(7).check("seven"));
    assert!(answer(7).check("").is_err());
    assert!(answer(7).check("-7").unwrap_err().starts_with("Could not parse answer."));
    assert!(answer(7).check("4294967296").unwrap_err().starts_with("Could not parse"));
}

#[test]
fn check_through_trait() {
    let a = answer(12);
    assert!(CheckAnswer::check(&a, "12").is_ok());
    assert!(CheckAnswer::check(&a, "13").is_err());
}

#[test]
fn div_ceil_rounds_up() {
    assert_eq!(div_ceil(7, 2), 4);
    assert_eq!(div_ceil(8, 2), 4);
    assert_eq!(div_ceil(0, 3), 0);
    assert_eq!(div_ceil(51, 25), 3);
}

#[test]
fn product_in_range_stays_inside() {
    let mut rng = StdRng::seed_from_u64(9);
    for a in 1..=24 {
        for _ in 0..20 {
            let m = rand_product_in_range(a, a + 1, 50, &mut rng);
            assert!(a + 1 <= a * m && a * m <= 50);
        }
    }
    assert_eq!(rand_product_in_range(24, 25, 50, &mut rng), 2);
}
