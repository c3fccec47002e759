use crate::question::{decimal, decimal_text, Answer, GenerateQuestion, Question};
use crate::random::{choose_from, coin};
use crate::utils::rand_product_in_range;
use rand::rngs::StdRng;
use vstd::prelude::*;
use vstd::string::StringExecFns;

verus! {

/// A unit of length, with its singular and plural names.
#[derive(Clone, Copy)]
pub struct Unit {
    pub singular: &'static str,
    pub plural: &'static str,
}

/// `count` followed by the unit's name, plural unless `count` is 1.
pub open spec fn counted(unit: Unit, count: int) -> Seq<char> {
    decimal(count as nat) + " "@ + if count == 1 {
        unit.singular@
    } else {
        unit.plural@
    }
}

impl Unit {
    pub fn new(singular: &'static str, plural: &'static str) -> (r: Unit)
        ensures
            r.singular == singular,
            r.plural == plural,
    {
        Unit { singular, plural }
    }

    pub fn pluralize(&self, count: u32) -> (r: String)
        ensures
            r@ == counted(*self, count as int),
    {
        let mut r = decimal_text(count);
        r.append(" ");
        if count == 1 {
            r.append(self.singular);
        } else {
            r.append(self.plural);
        }
        r
    }
}

/// The units a question may be worded in.
pub open spec fn known_unit(u: Unit) -> bool {
    ||| (u.singular@ == "meter"@ && u.plural@ == "meters"@)
    ||| (u.singular@ == "foot"@ && u.plural@ == "feet"@)
    ||| (u.singular@ == "yard"@ && u.plural@ == "yards"@)
}

/// The right triangles a ladder may form: legs and hypotenuse.
pub open spec fn triple_catalog() -> Seq<(u32, u32, u32)> {
    seq![
        (3, 4, 5),
        (6, 8, 10),
        (5, 12, 13),
        (9, 12, 15),
        (8, 15, 17),
        (12, 16, 20),
        (15, 20, 25),
        (7, 24, 25),
    ]
}

/// The choices behind one related-rates question.
#[derive(Clone, Copy)]
pub struct Scenario {
    /// Distance from the ladder's foot to the wall.
    pub x: u32,
    /// Height of the ladder's top above the floor.
    pub y: u32,
    /// Length of the ladder.
    pub ladder: u32,
    pub unit: Unit,
    /// Whether the foot's rate is the one given.
    pub vx_known: bool,
    /// Whether the foot's distance is the one given.
    pub x_known: bool,
    /// Whether the foot moves away from the wall.
    pub vx_positive: bool,
    /// The given rate is this multiple of the other end's distance.
    pub multiplier: u32,
}

impl Scenario {
    /// The numbers stay small enough for every rate to fit in a `u32`.
    pub open spec fn fits(self) -> bool {
        self.x >= 1 && self.y >= 1 && self.x * self.y * self.multiplier <= u32::MAX
    }

    /// The rate stated in the question.
    pub open spec fn given_rate(self) -> int {
        if self.vx_known {
            self.y * self.multiplier
        } else {
            self.x * self.multiplier
        }
    }

    /// The rate asked for: from `x * vx == y * vy`.
    pub open spec fn unknown_rate(self) -> int {
        if self.vx_known {
            self.x * self.given_rate() / self.y as int
        } else {
            self.y * self.given_rate() / self.x as int
        }
    }

    pub open spec fn motion(self) -> Seq<char> {
        let v = counted(self.unit, self.given_rate());
        if self.vx_known && self.vx_positive {
            "The bottom of the ladder is sliding away from the wall at a rate of "@ + v
                + " per second. How fast is the top of the ladder sliding down the wall when "@
        } else if !self.vx_known && self.vx_positive {
            "The top of the ladder is sliding down the wall at a rate of "@ + v
                + " per second. How fast is the bottom of the ladder sliding away from the wall when "@
        } else if self.vx_known {
            "The bottom of the ladder is sliding towards the wall at a rate of "@ + v
                + " per second. How fast is the top of the ladder sliding up the wall when "@
        } else {
            "The top of the ladder is sliding up the wall at a rate of "@ + v
                + " per second. How fast is the bottom of the ladder sliding towards the wall when "@
        }
    }

    pub open spec fn position(self) -> Seq<char> {
        if self.x_known {
            "the bottom of the ladder is "@ + counted(self.unit, self.x as int) + " from the wall? "@
        } else {
            "the top of the ladder is "@ + counted(self.unit, self.y as int) + " from the floor? "@
        }
    }

    /// The whole question text.
    pub open spec fn text(self) -> Seq<char> {
        "A ladder "@ + counted(self.unit, self.ladder as int) + " long is leaning against a wall. "@
            + self.motion() + self.position() + "(Leave off the units.)"@
    }
}

/// The rate asked for is exact: `x * vx == y * vy` with no remainder, for
/// either end's rate given.
pub proof fn lemma_rates_exact(s: Scenario)
    requires
        s.fits(),
    ensures
        s.vx_known ==> s.x * s.given_rate() == s.y * s.unknown_rate(),
        !s.vx_known ==> s.x * s.unknown_rate() == s.y * s.given_rate(),
        s.unknown_rate() == if s.vx_known {
            s.x * s.multiplier
        } else {
            s.y * s.multiplier
        },
{
    let (x, y, m) = (s.x as int, s.y as int, s.multiplier as int);
    assert(x * (y * m) == y * (x * m)) by (nonlinear_arith);
    vstd::arithmetic::div_mod::lemma_div_multiples_vanish(x * m, y);
    vstd::arithmetic::div_mod::lemma_div_multiples_vanish(y * m, x);
}

/// Questions about a ladder sliding along a wall.
pub struct RelatedRates;

impl RelatedRates {
    /// The question for the given choices.
    #[verifier::rlimit(50)]
    pub fn question_for(s: &Scenario) -> (q: Question)
        requires
            s.fits(),
        ensures
            q.text@ == s.text(),
            q.check_answer.expected == s.unknown_rate(),
            q.check_answer.parse_lead@ == "Could not understand input "@,
    {
        proof {
            lemma_rates_exact(*s);
            let (x, y, m) = (s.x as int, s.y as int, s.multiplier as int);
            assert(x * m <= x * y * m && y * m <= x * y * m && x * y * m == y * (x * m) && x * y
                * m == x * (y * m)) by (nonlinear_arith)
                requires
                    x >= 1,
                    y >= 1,
                    m >= 0,
            ;
        }
        let (v, answer) = if s.vx_known {
            let v = s.y * s.multiplier;
            (v, s.x * v / s.y)
        } else {
            let v = s.x * s.multiplier;
            (v, s.y * v / s.x)
        };
        let mut question = String::from_str("A ladder ");
        question.append(s.unit.pluralize(s.ladder).as_str());
        question.append(" long is leaning against a wall. ");
        let rate = s.unit.pluralize(v);
        if s.vx_known && s.vx_positive {
            question.append("The bottom of the ladder is sliding away from the wall at a rate of ");
            question.append(rate.as_str());
            question.append(
                " per second. How fast is the top of the ladder sliding down the wall when ",
            );
        } else if !s.vx_known && s.vx_positive {
            question.append("The top of the ladder is sliding down the wall at a rate of ");
            question.append(rate.as_str());
            question.append(
                " per second. How fast is the bottom of the ladder sliding away from the wall when ",
            );
        } else if s.vx_known {
            question.append("The bottom of the ladder is sliding towards the wall at a rate of ");
            question.append(rate.as_str());
            question.append(
                " per second. How fast is the top of the ladder sliding up the wall when ",
            );
        } else {
            question.append("The top of the ladder is sliding up the wall at a rate of ");
            question.append(rate.as_str());
            question.append(
                " per second. How fast is the bottom of the ladder sliding towards the wall when ",
            );
        }
        if s.x_known {
            question.append("the bottom of the ladder is ");
            question.append(s.unit.pluralize(s.x).as_str());
            question.append(" from the wall? ");
        } else {
            question.append("the top of the ladder is ");
            question.append(s.unit.pluralize(s.y).as_str());
            question.append(" from the floor? ");
        }
        question.append("(Leave off the units.)");
        assert(question@ =~= s.text());
        let check_answer = Answer {
            expected: answer,
            parse_lead: String::from_str("Could not understand input "),
        };
        Question { text: question, check_answer }
    }
}

/// What a related-rates question holds: a ladder from the catalog, its legs
/// in either order, one of the known units, and a given rate above the
/// other leg and at most 50.
pub open spec fn rates_question(q: Question) -> bool {
    exists|s: Scenario|
        #![trigger s.text()]
        {
            &&& (triple_catalog().contains((s.x, s.y, s.ladder)) || triple_catalog().contains(
                (s.y, s.x, s.ladder),
            ))
            &&& if s.vx_known {
                s.y < s.given_rate() <= 50
            } else {
                s.x < s.given_rate() <= 50
            }
            &&& known_unit(s.unit)
            &&& q.text@ == s.text()
            &&& q.check_answer.expected == s.unknown_rate()
        }
}

impl GenerateQuestion for RelatedRates {
    fn generate(&self, rng: &mut StdRng) -> (r: Option<Question>)
        ensures
            r matches Some(q) && rates_question(q),
    {
        let triples = [
            (3u32, 4u32, 5u32),
            (6, 8, 10),
            (5, 12, 13),
            (9, 12, 15),
            (8, 15, 17),
            (12, 16, 20),
            (15, 20, 25),
            (7, 24, 25),
        ];
        assert(triples@ =~= triple_catalog());
        let meter = Unit::new("meter", "meters");
        let foot = Unit::new("foot", "feet");
        let yard = Unit::new("yard", "yards");
        let units = [meter, foot, yard];
        assert(units@ =~= seq![meter, foot, yard]);
        let (a, b, l) = choose_from(&triples, rng).unwrap();
        let unit = choose_from(&units, rng).unwrap();
        let (x, y) = if coin(rng) {
            (b, a)
        } else {
            (a, b)
        };
        let vx_known = coin(rng);
        let x_known = coin(rng);
        let vx_positive = coin(rng);
        let base = if vx_known {
            y
        } else {
            x
        };
        proof {
            let b = base as int;
            assert(1 <= b <= 24);
            vstd::arithmetic::div_mod::lemma_div_multiples_vanish(2, b);
            vstd::arithmetic::div_mod::lemma_fundamental_div_mod(50, b);
            let q = 50int / b;
            let rem = 50int % b;
            assert(q >= 2) by (nonlinear_arith)
                requires
                    50 == b * q + rem,
                    0 <= rem < b,
                    1 <= b <= 24,
            ;
            assert((b + 1 + b - 1) == b * 2);
        }
        let multiplier = rand_product_in_range(base, base + 1, 50, rng);
        let s = Scenario { x, y, ladder: l, unit, vx_known, x_known, vx_positive, multiplier };
        proof {
            let (xi, yi, m) = (x as int, y as int, multiplier as int);
            assert(1 <= xi <= 24 && 1 <= yi <= 24);
            assert(base * m <= 50);
            assert(xi * yi * m <= 24 * 50) by (nonlinear_arith)
                requires
                    1 <= xi <= 24,
                    1 <= yi <= 24,
                    0 <= m,
                    base == xi || base == yi,
                    base * m <= 50,
            ;
        }
        let q = Self::question_for(&s);
        assert(q.text@ == s.text());
        Some(q)
    }
}

} // verus!
