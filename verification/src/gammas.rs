//! The resolution parameters of a clustering, written as a number, a dash and the number of times
//! that it is halved: `3-4` stands for 3 / 2^4, and `-4` for 1 / 2^4.

use crate::strings::copy_range;
use vstd::prelude::*;
use vstd::utf8::encode_utf8;

verus! {

/// A resolution parameter: a number that is halved some times.
#[derive(Clone, Copy, Debug, PartialEq, Eq, Structural)]
pub struct Gamma {
    /// The number.
    pub coefficient: usize,
    /// How many times it is halved.
    pub exponent: usize,
}

/// Why a text is not a resolution parameter.
#[derive(Clone, Copy, Debug, PartialEq, Eq, Structural)]
pub enum GammaError {
    /// There is not exactly one dash.
    Dashes,
    /// There is no number where there should be one, or it is too large.
    Number,
}

/// The number of dashes of a text.
pub open spec fn num_dashes(text: Seq<u8>) -> nat
    decreases text.len(),
{
    if text.len() == 0 {
        0
    } else {
        num_dashes(text.drop_last()) + if text.last() == 45 {
            1nat
        } else {
            0nat
        }
    }
}

/// Whether a byte is a decimal digit.
pub open spec fn is_digit(byte: u8) -> bool {
    48 <= byte <= 57
}

/// The number that decimal digits stand for.
pub open spec fn digits_value(digits: Seq<u8>) -> nat
    decreases digits.len(),
{
    if digits.len() == 0 {
        0
    } else {
        digits_value(digits.drop_last()) * 10 + (digits.last() - 48) as nat
    }
}

/// A text without the plus sign that it may begin with.
pub open spec fn without_sign(text: Seq<u8>) -> Seq<u8> {
    if text.len() > 0 && text[0] == 43 {
        text.skip(1)
    } else {
        text
    }
}

/// The number that digits stand for, if they are such and it is not too large.
pub open spec fn digits_number(digits: Seq<u8>) -> Option<nat> {
    if digits.len() > 0 && (forall|i: int| 0 <= i < digits.len() ==> is_digit(#[trigger] digits[i]))
        && digits_value(digits) <= usize::MAX {
        Some(digits_value(digits))
    } else {
        None
    }
}

/// The number that a text stands for: some digits, maybe after a plus sign.
pub open spec fn decimal(text: Seq<u8>) -> Option<nat> {
    digits_number(without_sign(text))
}

/// The position of the last dash of a text.
pub open spec fn last_dash(text: Seq<u8>) -> int
    decreases text.len(),
{
    if text.len() == 0 {
        0
    } else if text.last() == 45 {
        text.len() - 1
    } else {
        last_dash(text.drop_last())
    }
}

/// The resolution parameter that a text stands for, of which the dash is at a position.
pub open spec fn gamma_at(text: Seq<u8>, dash: int) -> Result<(nat, nat), GammaError> {
    let before = text.take(dash);
    let after = text.skip(dash + 1);
    if (before.len() > 0 && decimal(before) is None) || decimal(after) is None {
        Err(GammaError::Number)
    } else if before.len() == 0 {
        Ok((1, decimal(after)->Some_0))
    } else {
        Ok((decimal(before)->Some_0, decimal(after)->Some_0))
    }
}

proof fn lemma_digits_prefix(digits: Seq<u8>, n: int)
    requires
        0 <= n <= digits.len(),
        forall|i: int| 0 <= i < digits.len() ==> is_digit(#[trigger] digits[i]),
    ensures
        digits_value(digits.take(n)) <= digits_value(digits),
    decreases digits.len() - n,
{
    if n == digits.len() {
        assert(digits.take(n) =~= digits);
    } else {
        lemma_digits_prefix(digits, n + 1);
        assert(digits.take(n + 1).drop_last() =~= digits.take(n));
        assert(is_digit(digits[n]));
        assert(digits.take(n + 1).last() == digits[n]);
    }
}

/// Reads a number in decimal digits.
pub fn parse_decimal(text: &[u8]) -> (res: Option<usize>)
    ensures
        match decimal(text@) {
            None => res is None,
            Some(value) => res matches Some(n) && n == value,
        },
{
    let start: usize = if text.len() > 0 && text[0] == 43 {
        1
    } else {
        0
    };
    let digits = vstd::slice::slice_subrange(text, start, text.len());
    assert(digits@ =~= without_sign(text@));
    if digits.len() == 0 {
        return None;
    }
    let mut value: usize = 0;
    let mut i: usize = 0;
    assert(digits@.take(0) =~= Seq::empty());
    while i < digits.len()
        invariant
            digits@ == without_sign(text@),
            0 < digits@.len(),
            i <= digits@.len(),
            value == digits_value(digits@.take(i as int)),
            forall|j: int| 0 <= j < i ==> is_digit(#[trigger] digits@[j]),
        decreases digits@.len() - i,
    {
        let byte: u8 = digits[i];
        proof {
            assert(digits@.take(i + 1).drop_last() =~= digits@.take(i as int));
            assert(digits@.take(i + 1).last() == byte);
            if forall|j: int| 0 <= j < digits@.len() ==> is_digit(#[trigger] digits@[j]) {
                lemma_digits_prefix(digits@, i + 1);
            }
        }
        if byte < 48 || byte > 57 {
            assert(!is_digit(digits@[i as int]));
            return None;
        }
        let digit: usize = (byte - 48) as usize;
        if value > (usize::MAX - digit) / 10 {
            assert(digits_value(digits@.take(i + 1)) > usize::MAX);
            return None;
        }
        value = value * 10 + digit;
        i = i + 1;
    }
    assert(digits@.take(i as int) =~= digits@);
    Some(value)
}

proof fn lemma_one_dash(text: Seq<u8>, n: int)
    requires
        0 <= n <= text.len(),
    ensures
        num_dashes(text.take(n)) <= num_dashes(text),
    decreases text.len() - n,
{
    if n == text.len() {
        assert(text.take(n) =~= text);
    } else {
        lemma_one_dash(text, n + 1);
        assert(text.take(n + 1).drop_last() =~= text.take(n));
    }
}

/// The resolution parameter that a text stands for.
pub open spec fn gamma_of(text: Seq<u8>) -> Result<(nat, nat), GammaError> {
    if num_dashes(text) != 1 {
        Err(GammaError::Dashes)
    } else {
        gamma_at(text, last_dash(text))
    }
}

/// The position of the dash of a text, if there is exactly one.
fn find_dash(text: &[u8]) -> (dash: Option<usize>)
    ensures
        match dash {
            None => num_dashes(text@) != 1,
            Some(dash) => num_dashes(text@) == 1 && dash == last_dash(text@) && dash < text@.len(),
        },
{
    let mut dash: Option<usize> = None;
    let mut i: usize = 0;
    assert(text@.take(0) =~= Seq::empty());
    while i < text.len()
        invariant
            i <= text@.len(),
            match dash {
                None => num_dashes(text@.take(i as int)) == 0,
                Some(d) => num_dashes(text@.take(i as int)) == 1 && d == last_dash(
                    text@.take(i as int),
                ) && d < i,
            },
        decreases text@.len() - i,
    {
        proof {
            assert(text@.take(i + 1).drop_last() =~= text@.take(i as int));
            assert(text@.take(i + 1).last() == text@[i as int]);
            lemma_one_dash(text@, i + 1);
        }
        if text[i] == 45 {
            if dash.is_some() {
                return None;
            }
            dash = Some(i);
        }
        i = i + 1;
    }
    assert(text@.take(i as int) =~= text@);
    dash
}

/// Reads a resolution parameter.
pub fn parse_gamma(text: &str) -> (res: Result<Gamma, GammaError>)
    ensures
        match gamma_of(encode_utf8(text@)) {
            Err(e) => res is Err && res->Err_0 == e,
            Ok((coefficient, exponent)) => res matches Ok(gamma) && gamma.coefficient == coefficient
                && gamma.exponent == exponent,
        },
{
    let bytes: &[u8] = text.as_bytes();
    let len: usize = bytes.len();
    let dash: usize = match find_dash(bytes) {
        None => {
            return Err(GammaError::Dashes);
        },
        Some(dash) => dash,
    };
    let before: Vec<u8> = copy_range(bytes, 0, dash);
    let after: Vec<u8> = copy_range(bytes, dash + 1, len);
    proof {
        assert(before@ =~= bytes@.take(dash as int));
        assert(after@ =~= bytes@.skip(dash + 1));
    }
    let coefficient: usize = if before.len() == 0 {
        1
    } else {
        match parse_decimal(before.as_slice()) {
            None => {
                return Err(GammaError::Number);
            },
            Some(value) => value,
        }
    };
    match parse_decimal(after.as_slice()) {
        None => Err(GammaError::Number),
        Some(exponent) => Ok(Gamma { coefficient, exponent }),
    }
}

/// The decimal digits of a number.
pub open spec fn digits_of(n: nat) -> Seq<u8>
    decreases n,
{
    if n < 10 {
        seq![(48 + n) as u8]
    } else {
        digits_of(n / 10).push((48 + n % 10) as u8)
    }
}

proof fn lemma_digits_of(n: nat)
    ensures
        digits_of(n).len() > 0,
        forall|i: int| 0 <= i < digits_of(n).len() ==> is_digit(#[trigger] digits_of(n)[i]),
        digits_value(digits_of(n)) == n,
    decreases n,
{
    let digits = digits_of(n);
    if n < 10 {
        assert(digits.drop_last() =~= Seq::empty());
        assert(digits_value(digits.drop_last()) == 0);
        assert(digits.last() == 48 + n);
    } else {
        lemma_digits_of(n / 10);
        assert(digits.drop_last() =~= digits_of(n / 10));
        assert forall|i: int| 0 <= i < digits.len() implies is_digit(#[trigger] digits[i]) by {
            if i < digits.len() - 1 {
                assert(digits[i] == digits_of(n / 10)[i]);
            }
        }
    }
}

/// The digits of a number that is not too large are read as that number, with a plus sign or
/// without.
pub proof fn lemma_decimal(n: nat)
    requires
        n <= usize::MAX,
    ensures
        decimal(digits_of(n)) == Some(n),
        decimal(seq![43u8] + digits_of(n)) == Some(n),
{
    let digits = digits_of(n);
    lemma_digits_of(n);
    assert(is_digit(digits[0]));
    assert((seq![43u8] + digits).skip(1) =~= digits);
}

proof fn lemma_num_dashes_add(a: Seq<u8>, b: Seq<u8>)
    ensures
        num_dashes(a + b) == num_dashes(a) + num_dashes(b),
    decreases b.len(),
{
    if b.len() == 0 {
        assert(a + b =~= a);
    } else {
        lemma_num_dashes_add(a, b.drop_last());
        assert((a + b).drop_last() =~= a + b.drop_last());
    }
}

proof fn lemma_no_dash(text: Seq<u8>)
    requires
        forall|i: int| 0 <= i < text.len() ==> text[i] != 45,
    ensures
        num_dashes(text) == 0,
    decreases text.len(),
{
    if text.len() > 0 {
        lemma_no_dash(text.drop_last());
    }
}

proof fn lemma_last_dash(before: Seq<u8>, after: Seq<u8>)
    requires
        forall|i: int| 0 <= i < after.len() ==> after[i] != 45,
    ensures
        last_dash(before + seq![45u8] + after) == before.len(),
    decreases after.len(),
{
    let text = before + seq![45u8] + after;
    if after.len() == 0 {
        assert(text.last() == 45);
    } else {
        lemma_last_dash(before, after.drop_last());
        assert(text.drop_last() =~= before + seq![45u8] + after.drop_last());
        assert(text.last() == after.last());
    }
}

/// A number, a dash and another number are read as these numbers. Without the first number, it is
/// one.
pub proof fn lemma_gamma(coefficient: nat, exponent: nat)
    requires
        coefficient <= usize::MAX,
        exponent <= usize::MAX,
    ensures
        gamma_of(digits_of(coefficient) + seq![45u8] + digits_of(exponent)) == Ok::<
            (nat, nat),
            GammaError,
        >((coefficient, exponent)),
        gamma_of(seq![45u8] + digits_of(exponent)) == Ok::<(nat, nat), GammaError>((1, exponent)),
{
    let (c, e) = (digits_of(coefficient), digits_of(exponent));
    let dash = seq![45u8];
    lemma_decimal(coefficient);
    lemma_decimal(exponent);
    lemma_digits_of(coefficient);
    lemma_digits_of(exponent);
    assert forall|i: int| 0 <= i < c.len() implies c[i] != 45 by {
        assert(is_digit(c[i]));
    }
    assert forall|i: int| 0 <= i < e.len() implies e[i] != 45 by {
        assert(is_digit(e[i]));
    }
    lemma_no_dash(c);
    lemma_no_dash(e);
    assert(dash.drop_last() =~= Seq::empty());
    assert(num_dashes(dash.drop_last()) == 0);
    assert(num_dashes(dash) == 1);
    let text = c + dash + e;
    lemma_num_dashes_add(c, dash);
    lemma_num_dashes_add(c + dash, e);
    lemma_last_dash(c, e);
    assert(text.take(c.len() as int) =~= c);
    assert(text.skip(c.len() as int + 1) =~= e);
    let short = dash + e;
    lemma_num_dashes_add(dash, e);
    lemma_last_dash(Seq::empty(), e);
    assert(Seq::<u8>::empty() + dash + e =~= short);
    assert(short.take(0) =~= Seq::empty());
    assert(short.skip(1) =~= e);
}

/// What is read as two numbers has a single dash, after which there is a number, and before which
/// there is another one, or nothing.
pub proof fn lemma_gamma_parts(text: Seq<u8>)
    requires
        gamma_of(text) is Ok,
    ensures
        exists|dash: int|
            0 <= dash < text.len() && #[trigger] text[dash] == 45 && (forall|i: int|
                0 <= i < text.len() && i != dash ==> text[i] != 45) && decimal(text.skip(dash + 1))
                == Some(gamma_of(text)->Ok_0.1) && if dash == 0 {
                gamma_of(text)->Ok_0.0 == 1
            } else {
                decimal(text.take(dash)) == Some(gamma_of(text)->Ok_0.0)
            },
{
    lemma_single_dash(text);
    let dash = last_dash(text);
    assert(text[dash] == 45);
}

proof fn lemma_single_dash(text: Seq<u8>)
    requires
        num_dashes(text) == 1,
    ensures
        0 <= last_dash(text) < text.len(),
        text[last_dash(text)] == 45,
        forall|i: int| 0 <= i < text.len() && i != last_dash(text) ==> text[i] != 45,
    decreases text.len(),
{
    let before = text.drop_last();
    if text.last() == 45 {
        assert forall|i: int| 0 <= i < text.len() && i != last_dash(text) implies text[i] != 45 by {
            lemma_dash_counted(before, i);
            assert(before[i] == text[i]);
        }
    } else {
        lemma_single_dash(before);
        assert forall|i: int| 0 <= i < text.len() && i != last_dash(text) implies text[i] != 45 by {
            if i < before.len() {
                assert(before[i] == text[i]);
            }
        }
    }
}

proof fn lemma_dash_counted(text: Seq<u8>, i: int)
    requires
        0 <= i < text.len(),
        num_dashes(text) == 0,
    ensures
        text[i] != 45,
    decreases text.len(),
{
    if i < text.len() - 1 {
        lemma_dash_counted(text.drop_last(), i);
    }
}

} // verus!
