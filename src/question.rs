use rand::rngs::StdRng;
use vstd::prelude::*;
use vstd::string::StringExecFns;

verus! {

/// The decimal digit `d` as a character.
pub open spec fn digit(d: int) -> char {
    seq!['0', '1', '2', '3', '4', '5', '6', '7', '8', '9'][d]
}

/// The value of a digit character.
pub open spec fn digit_value(c: char) -> int {
    c as int - '0' as int
}

/// Decimal text of `n`, without sign or leading zeros.
pub open spec fn decimal(n: nat) -> Seq<char>
    decreases n,
{
    if n < 10 {
        seq![digit(n as int)]
    } else {
        decimal(n / 10).push(digit(n as int % 10))
    }
}

pub open spec fn all_digits(s: Seq<char>) -> bool {
    forall|i: int| 0 <= i < s.len() ==> '0' <= #[trigger] s[i] <= '9'
}

/// The number that a string of digits denotes.
pub open spec fn digits_value(s: Seq<char>) -> int
    decreases s.len(),
{
    if s.len() == 0 {
        0
    } else {
        digits_value(s.drop_last()) * 10 + digit_value(s.last())
    }
}

/// What `str::parse::<u32>` accepts: an optional `+`, then at least one
/// digit, denoting a value that fits in a `u32`.
pub open spec fn parsed_u32(s: Seq<char>) -> Option<u32> {
    let body = if s.len() > 0 && s[0] == '+' {
        s.drop_first()
    } else {
        s
    };
    if body.len() > 0 && all_digits(body) && digits_value(body) <= u32::MAX {
        Some(digits_value(body) as u32)
    } else {
        None
    }
}

/// Relies on `<u32 as Display>`: decimal digits, no sign, no leading zeros.
#[verifier::external_body]
pub(crate) fn decimal_text(n: u32) -> (r: String)
    ensures
        r@ == decimal(n as nat),
{
    n.to_string()
}

/// The message of the error that `str::parse::<u32>` gives on `s`.
pub uninterp spec fn parse_error_text(s: Seq<char>) -> Seq<char>;

/// Relies on `str::parse::<u32>`, keeping the error's message, which
/// depends on the text alone.
#[verifier::external_body]
pub(crate) fn parse_u32(s: &str) -> (r: Result<u32, String>)
    ensures
        r is Ok <==> parsed_u32(s@) is Some,
        r matches Ok(v) ==> parsed_u32(s@) == Some(v),
        r matches Err(e) ==> e@ == parse_error_text(s@),
{
    match s.parse::<u32>() {
        Ok(v) => Ok(v),
        Err(e) => Err(e.to_string()),
    }
}

/// The message given for a wrong answer.
pub open spec fn wrong_answer_message(expected: u32) -> Seq<char> {
    "The correct answer is "@ + decimal(expected as nat) + "."@
}

/// The expected answer to a question, and how to word a reply that is no number.
pub struct Answer {
    pub expected: u32,
    pub parse_lead: String,
}

impl Answer {
    /// Checks typed `answer` text against the expected value.
    pub fn check(&self, answer: &str) -> (r: Result<(), String>)
        ensures
            r is Ok <==> parsed_u32(answer@) == Some(self.expected),
            parsed_u32(answer@) is None ==> (r matches Err(m) && m@ == self.parse_lead@ + "("@
                + parse_error_text(answer@) + ")"@),
            parsed_u32(answer@) matches Some(v) && v != self.expected ==> (r matches Err(m)
                && m@ == wrong_answer_message(self.expected)),
    {
        match parse_u32(answer) {
            Err(e) => {
                let mut m = self.parse_lead.clone();
                m.append("(");
                m.append(e.as_str());
                m.append(")");
                Err(m)
            },
            Ok(v) => {
                if v == self.expected {
                    Ok(())
                } else {
                    let mut m = String::from_str("The correct answer is ");
                    let d = decimal_text(self.expected);
                    m.append(d.as_str());
                    m.append(".");
                    Err(m)
                }
            },
        }
    }
}

/// Something that checks answer text.
pub trait CheckAnswer {
    spec fn accepts(&self, answer: Seq<char>) -> bool;

    fn check(&self, answer: &str) -> (r: Result<(), String>)
        ensures
            r is Ok <==> self.accepts(answer@),
    ;
}

impl CheckAnswer for Answer {
    open spec fn accepts(&self, answer: Seq<char>) -> bool {
        parsed_u32(answer) == Some(self.expected)
    }

    fn check(&self, answer: &str) -> (r: Result<(), String>) {
        Answer::check(self, answer)
    }
}

proof fn lemma_digit(d: int)
    requires
        0 <= d < 10,
    ensures
        '0' <= digit(d) <= '9',
        digit_value(digit(d)) == d,
{
    if d == 0 {
    } else if d == 1 {
    } else if d == 2 {
    } else if d == 3 {
    } else if d == 4 {
    } else if d == 5 {
    } else if d == 6 {
    } else if d == 7 {
    } else if d == 8 {
    } else {
    }
}

/// The decimal text of `n` is a non-empty run of digits denoting `n`.
pub proof fn lemma_decimal_digits(n: nat)
    ensures
        decimal(n).len() > 0,
        all_digits(decimal(n)),
        digits_value(decimal(n)) == n,
    decreases n,
{
    if n < 10 {
        lemma_digit(n as int);
        assert(decimal(n).drop_last() =~= Seq::<char>::empty());
        assert(digits_value(decimal(n)) == digits_value(Seq::<char>::empty()) * 10 + n);
    } else {
        lemma_decimal_digits(n / 10);
        lemma_digit(n as int % 10);
        assert(decimal(n).drop_last() =~= decimal(n / 10));
        assert(digits_value(decimal(n)) == (n / 10) as int * 10 + n as int % 10);
        assert((n / 10) as int * 10 + n as int % 10 == n as int);
    }
}

/// Answer checking accepts the decimal text of the expected value and
/// refuses that of any other number: text `decimal(n)` parses back to `n`.
pub proof fn lemma_check_round_trip(a: Answer, n: u32)
    ensures
        parsed_u32(decimal(n as nat)) == Some(n),
        a.accepts(decimal(n as nat)) <==> n == a.expected,
{
    lemma_decimal_digits(n as nat);
    let s = decimal(n as nat);
    assert('0' <= s[0] <= '9');
}

/// Question text with the means to check one answer to it.
pub struct Question {
    pub text: String,
    pub check_answer: Answer,
}

/// A kind of question that can be drawn at random.
pub trait GenerateQuestion {
    /// A fresh question, or `None` when none could be drawn.
    fn generate(&self, rng: &mut StdRng) -> Option<Question>;
}

} // verus!
