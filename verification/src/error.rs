//! What can go wrong while a token is chosen, and the text that says so.

use vstd::prelude::*;

verus! {

/// Errors of the OCR backends.
#[derive(Debug)]
pub enum CandleOcrError {
    /// A tensor does not have the shape that an operation reads.
    InvalidTensorShape {
        expected: String,
        got: String,
    },
    /// A step of the inference failed. The text starts with the name of the step.
    InferenceFailed(String),
    /// Candle refused an operation that no step names.
    Candle(candle_core::Error),
}

impl CandleOcrError {
    /// An [`InferenceFailed`](CandleOcrError::InferenceFailed) with this text.
    pub open spec fn says(self, text: Seq<char>) -> bool {
        self matches CandleOcrError::InferenceFailed(t) && t@ == text
    }

    /// An [`InferenceFailed`](CandleOcrError::InferenceFailed) whose text is `step`, followed by
    /// what candle's error writes of itself.
    pub open spec fn reports(self, step: Seq<char>, cause: candle_core::Error) -> bool {
        exists|written: String|
            #[trigger] vstd::string::to_string_from_display_ensures(&cause, written) && self.says(
                step + written@,
            )
    }

    /// Some error of candle stopped this step.
    pub open spec fn failed_at(self, step: Seq<char>) -> bool {
        exists|cause: candle_core::Error| #[trigger] self.reports(step, cause)
    }

    /// An [`InvalidTensorShape`](CandleOcrError::InvalidTensorShape) with these two texts.
    pub open spec fn rejects_shape(self, expected: Seq<char>, got: Seq<char>) -> bool {
        self matches CandleOcrError::InvalidTensorShape { expected: e, got: g } && e@ == expected
            && g@ == got
    }

    /// Names the step that candle failed, and writes candle's error behind it.
    pub fn inference(step: &str, e: candle_core::Error) -> (r: CandleOcrError)
        ensures
            r.reports(step@, e),
            r.failed_at(step@),
    {
        let written = e.to_string();
        let text = step.to_owned().concat(written.as_str());
        let r = CandleOcrError::InferenceFailed(text);
        proof {
            assert(vstd::string::to_string_from_display_ensures(&e, written));
            assert(r.says(step@ + written@));
            assert(r.reports(step@, e));
        }
        r
    }
}

/// The text of a failed step starts with the name of the step.
pub proof fn a_failure_names_its_step(e: CandleOcrError, step: Seq<char>)
    requires
        e.failed_at(step),
    ensures
        e is InferenceFailed,
        step.is_prefix_of(e->InferenceFailed_0@),
{
}

impl From<candle_core::Error> for CandleOcrError {
    fn from(e: candle_core::Error) -> (r: CandleOcrError) {
        CandleOcrError::Candle(e)
    }
}

impl vstd::std_specs::convert::FromSpecImpl<candle_core::Error> for CandleOcrError {
    open spec fn obeys_from_spec() -> bool {
        true
    }

    open spec fn from_spec(e: candle_core::Error) -> CandleOcrError {
        CandleOcrError::Candle(e)
    }
}

/// The decimal digit `d`.
pub open spec fn digit(d: int) -> char {
    seq!['0', '1', '2', '3', '4', '5', '6', '7', '8', '9'][d]
}

/// The decimal digits of `n`, without leading zeros.
pub open spec fn decimal(n: nat) -> Seq<char>
    decreases n,
{
    if n < 10 {
        seq![digit(n as int)]
    } else {
        decimal(n / 10).push(digit((n % 10) as int))
    }
}

/// The numbers in decimal, with a comma and a space between each two.
pub open spec fn comma_separated(numbers: Seq<usize>) -> Seq<char>
    decreases numbers.len(),
{
    if numbers.len() == 0 {
        seq![]
    } else if numbers.len() == 1 {
        decimal(numbers[0] as nat)
    } else {
        comma_separated(numbers.drop_last()) + seq![',', ' '] + decimal(numbers.last() as nat)
    }
}

/// The numbers as a list in brackets.
pub open spec fn bracketed(numbers: Seq<usize>) -> Seq<char> {
    seq!['['] + comma_separated(numbers) + seq![']']
}

fn digit_text(d: usize) -> (r: &'static str)
    requires
        d < 10,
    ensures
        r@ == seq![digit(d as int)],
{
    proof {
        reveal_strlit("0");
        reveal_strlit("1");
        reveal_strlit("2");
        reveal_strlit("3");
        reveal_strlit("4");
        reveal_strlit("5");
        reveal_strlit("6");
        reveal_strlit("7");
        reveal_strlit("8");
        reveal_strlit("9");
    }
    match d {
        0 => "0",
        1 => "1",
        2 => "2",
        3 => "3",
        4 => "4",
        5 => "5",
        6 => "6",
        7 => "7",
        8 => "8",
        _ => "9",
    }
}

fn decimal_text(n: usize) -> (r: String)
    ensures
        r@ == decimal(n as nat),
    decreases n,
{
    if n < 10 {
        digit_text(n).to_owned()
    } else {
        decimal_text(n / 10).concat(digit_text(n % 10))
    }
}

/// Writes a list of sizes, such as `[2, 3]`.
pub fn bracketed_text(numbers: &[usize]) -> (r: String)
    ensures
        r@ == bracketed(numbers@),
{
    proof {
        reveal_strlit("[");
        reveal_strlit("]");
        reveal_strlit(", ");
    }
    let mut text = "[".to_owned();
    let mut i: usize = 0;
    assert(numbers@.take(0) == Seq::<usize>::empty());
    while i < numbers.len()
        invariant
            i <= numbers@.len(),
            text@ == seq!['['] + comma_separated(numbers@.take(i as int)),
            ", "@ == seq![',', ' '],
        decreases numbers@.len() - i,
    {
        if i > 0 {
            text.append(", ");
        }
        text.append(decimal_text(numbers[i]).as_str());
        proof {
            assert(numbers@.take(i + 1).drop_last() == numbers@.take(i as int));
            assert(numbers@.take(i + 1).last() == numbers@[i as int]);
        }
        i = i + 1;
    }
    assert(numbers@.take(i as int) == numbers@);
    text.append("]");
    text
}

}
