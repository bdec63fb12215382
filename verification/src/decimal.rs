//! Decimal numerals as bytes: the form in which lengths and identifiers
//! appear on the wire.

use vstd::prelude::*;
use vstd::string::StringExecFns;

verus! {

/// The ASCII digit that stands for `d`.
pub open spec fn digit_byte(d: nat) -> u8 {
    (48 + d) as u8
}

/// Whether `b` is one of the ASCII digits `0` to `9`.
pub open spec fn is_digit(b: u8) -> bool {
    48 <= b <= 57
}

/// A numeral: one or more ASCII digits and nothing else.
pub open spec fn is_numeral(s: Seq<u8>) -> bool {
    s.len() > 0 && forall|i: int| 0 <= i < s.len() ==> is_digit(#[trigger] s[i])
}

/// The number that a sequence of digits denotes, most significant digit first.
pub open spec fn numeral_value(s: Seq<u8>) -> nat
    decreases s.len(),
{
    if s.len() == 0 {
        0
    } else {
        numeral_value(s.drop_last()) * 10 + (s.last() - 48) as nat
    }
}

/// The shortest numeral of `n`: no leading zero except for zero itself.
pub open spec fn numeral_of(n: nat) -> Seq<u8>
    decreases n,
{
    if n < 10 {
        seq![digit_byte(n)]
    } else {
        numeral_of(n / 10).push(digit_byte(n % 10))
    }
}

/// Reading back the numeral of `n` gives `n`.
pub proof fn lemma_numeral_round_trip(n: nat)
    ensures
        is_numeral(numeral_of(n)),
        numeral_value(numeral_of(n)) == n,
    decreases n,
{
    if n < 10 {
        let s = numeral_of(n);
        assert(s.len() == 1);
        assert(s.drop_last() =~= Seq::<u8>::empty());
        assert(numeral_value(s.drop_last()) == 0);
    } else {
        lemma_numeral_round_trip(n / 10);
        let s = numeral_of(n);
        assert(s.drop_last() =~= numeral_of(n / 10));
    }
}

/// Writes `n` as its shortest numeral.
pub fn render_decimal(n: u64) -> (out: Vec<u8>)
    ensures
        out@ == numeral_of(n as nat),
{
    let mut digits: Vec<u8> = Vec::new();
    let mut rest: u64 = n;
    // Collect the digits least significant first, then reverse.
    loop
        invariant_except_break
            rest <= n,
            numeral_of(n as nat) =~= numeral_of(rest as nat) + digits@.reverse(),
        ensures
            numeral_of(n as nat) =~= digits@.reverse(),
        decreases rest,
    {
        let d: u8 = (rest % 10) as u8;
        if rest < 10 {
            proof {
                let tail = digits@;
                assert(numeral_of(rest as nat) =~= seq![digit_byte(rest as nat)]);
                assert(tail.push((48 + d) as u8).reverse() =~= seq![(48 + d) as u8] + tail.reverse());
            }
            digits.push(48 + d);
            break;
        }
        proof {
            let tail = digits@;
            assert(numeral_of(rest as nat) =~= numeral_of((rest / 10) as nat).push(
                digit_byte((rest % 10) as nat),
            ));
            assert(tail.push((48 + d) as u8).reverse() =~= seq![(48 + d) as u8] + tail.reverse());
        }
        digits.push(48 + d);
        rest = rest / 10;
    }
    let mut out: Vec<u8> = Vec::new();
    let mut i: usize = digits.len();
    while i > 0
        invariant
            i <= digits.len(),
            out@ =~= digits@.reverse().subrange(0, digits.len() - i),
        decreases i,
    {
        i = i - 1;
        out.push(digits[i]);
    }
    assert(out@ =~= digits@.reverse());
    out
}

/// Reads a numeral. Anything that is not a numeral, or that denotes a number
/// beyond sixty-four bits, is refused.
pub fn parse_decimal(s: &[u8]) -> (out: Option<u64>)
    ensures
        out == (if is_numeral(s@) && numeral_value(s@) <= u64::MAX {
            Some(numeral_value(s@) as u64)
        } else {
            None
        }),
{
    if s.len() == 0 {
        return None;
    }
    let mut acc: u64 = 0;
    let mut i: usize = 0;
    while i < s.len()
        invariant
            i <= s.len(),
            acc == numeral_value(s@.take(i as int)),
            forall|j: int| 0 <= j < i ==> is_digit(#[trigger] s@[j]),
        decreases s.len() - i,
    {
        let b = s[i];
        proof {
            assert(s@.take(i + 1).drop_last() =~= s@.take(i as int));
            assert(s@.take(i + 1).last() == b);
        }
        if b < 48 || b > 57 {
            return None;
        }
        let d: u64 = (b - 48) as u64;
        if acc > (u64::MAX - d) / 10 {
            proof {
                if is_numeral(s@) {
                    lemma_numeral_value_monotone(s@, i + 1);
                }
            }
            return None;
        }
        acc = acc * 10 + d;
        i = i + 1;
    }
    proof {
        assert(s@.take(i as int) =~= s@);
    }
    Some(acc)
}

/// The value of a prefix of a digit sequence never exceeds the value of the whole.
pub proof fn lemma_numeral_value_monotone(s: Seq<u8>, k: int)
    requires
        0 <= k <= s.len(),
        forall|j: int| k <= j < s.len() ==> s[j] >= 48,
    ensures
        numeral_value(s.take(k)) <= numeral_value(s),
    decreases s.len() - k,
{
    if k == s.len() {
        assert(s.take(k) =~= s);
    } else {
        lemma_numeral_value_monotone(s.drop_last(), k);
        assert(s.drop_last().take(k) =~= s.take(k));
    }
}

/// The character of an ASCII digit.
pub open spec fn digit_char(b: u8) -> char {
    if b == 48 {
        '0'
    } else if b == 49 {
        '1'
    } else if b == 50 {
        '2'
    } else if b == 51 {
        '3'
    } else if b == 52 {
        '4'
    } else if b == 53 {
        '5'
    } else if b == 54 {
        '6'
    } else if b == 55 {
        '7'
    } else if b == 56 {
        '8'
    } else {
        '9'
    }
}

/// A run of ASCII digits as text.
pub open spec fn digit_chars(s: Seq<u8>) -> Seq<char> {
    s.map_values(|b: u8| digit_char(b))
}

/// A whole number as text: its shortest numeral, after a minus sign where it
/// is negative.
pub open spec fn integer_text(i: int) -> Seq<char> {
    if i < 0 {
        seq!['-'] + digit_chars(numeral_of((-i) as nat))
    } else {
        digit_chars(numeral_of(i as nat))
    }
}

/// One ASCII digit as a piece of text.
pub fn digit_str(b: u8) -> (out: &'static str)
    requires
        is_digit(b),
    ensures
        out@ == seq![digit_char(b)],
{
    proof {
        reveal_strlit("0");
        reveal_strlit("1");
        reveal_strlit("2");
        reveal_strlit("3");
        reveal_strlit("4");
        reveal_strlit("5");
        reveal_strlit("6");
        reveal_strlit("7");
        reveal_strlit("8");
        reveal_strlit("9");
    }
    let out = if b == 48 {
        "0"
    } else if b == 49 {
        "1"
    } else if b == 50 {
        "2"
    } else if b == 51 {
        "3"
    } else if b == 52 {
        "4"
    } else if b == 53 {
        "5"
    } else if b == 54 {
        "6"
    } else if b == 55 {
        "7"
    } else if b == 56 {
        "8"
    } else {
        "9"
    };
    assert(out@ =~= seq![digit_char(b)]);
    out
}

/// Writes a natural number as text: its shortest numeral.
pub fn render_natural(n: u64) -> (out: String)
    ensures
        out@ == digit_chars(numeral_of(n as nat)),
{
    let mut out = String::new();
    let digits = render_decimal(n);
    proof {
        lemma_numeral_round_trip(n as nat);
    }
    let mut k: usize = 0;
    assert(digit_chars(digits@.take(0)) =~= Seq::<char>::empty());
    while k < digits.len()
        invariant
            k <= digits.len(),
            is_numeral(digits@),
            out@ == digit_chars(digits@.take(k as int)),
        decreases digits.len() - k,
    {
        out.append(digit_str(digits[k]));
        k = k + 1;
        proof {
            assert(digits@.take(k as int) =~= digits@.take(k - 1).push(digits@[k - 1]));
            assert(digit_chars(digits@.take(k as int)) =~= digit_chars(digits@.take(k - 1)) + seq![
                digit_char(digits@[k - 1]),
            ]);
        }
    }
    assert(digits@.take(k as int) =~= digits@);
    out
}

/// Writes a whole number as text.
pub fn render_integer(i: i64) -> (out: String)
    ensures
        out@ == integer_text(i as int),
{
    if i < 0 {
        proof {
            reveal_strlit("-");
        }
        let mut out = "-".to_owned();
        let magnitude = render_natural(((-(i + 1)) as u64) + 1);
        out.append(magnitude.as_str());
        assert("-"@ =~= seq!['-']);
        out
    } else {
        render_natural(i as u64)
    }
}

/// The bytes of a numeral are the encoding of its text.
pub proof fn lemma_numeral_text(s: Seq<u8>)
    requires
        is_numeral(s),
    ensures
        digit_chars(s).len() == s.len(),
        forall|i: int| 0 <= i < s.len() ==> #[trigger] digit_chars(s)[i] as u8 == s[i],
        forall|i: int| 0 <= i < s.len() ==> '\0' <= #[trigger] digit_chars(s)[i] <= '\u{7f}',
{
    assert forall|i: int| 0 <= i < s.len() implies #[trigger] digit_chars(s)[i] as u8 == s[i]
        && '\0' <= digit_chars(s)[i] <= '\u{7f}' by {
        assert(is_digit(s[i]));
    }
}

} // verus!
