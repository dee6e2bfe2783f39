//! Text: code-point order, decimal integers and upper case.

use vstd::prelude::*;

verus! {

/// The order of two texts by code points: at the first place where they differ the smaller
/// code point comes first, and a proper prefix comes before the longer text.
pub open spec fn text_before(a: Seq<char>, b: Seq<char>) -> bool
    decreases a.len(),
{
    if b.len() == 0 {
        false
    } else if a.len() == 0 {
        true
    } else if a[0] != b[0] {
        a[0] < b[0]
    } else {
        text_before(a.drop_first(), b.drop_first())
    }
}

/// No text comes before itself.
pub proof fn lemma_text_before_irreflexive(a: Seq<char>)
    ensures
        !text_before(a, a),
    decreases a.len(),
{
    if a.len() > 0 {
        lemma_text_before_irreflexive(a.drop_first());
    }
}

/// Of two different texts exactly one comes before the other.
pub proof fn lemma_text_before_total(a: Seq<char>, b: Seq<char>)
    ensures
        a != b ==> text_before(a, b) != text_before(b, a),
        !text_before(a, b) && !text_before(b, a) ==> a == b,
    decreases a.len(),
{
    if a.len() == 0 && b.len() == 0 {
        assert(a =~= b);
    } else if a.len() > 0 && b.len() > 0 && a[0] == b[0] {
        lemma_text_before_total(a.drop_first(), b.drop_first());
        if a.drop_first() == b.drop_first() {
            assert(a =~= seq![a[0]] + a.drop_first());
            assert(b =~= seq![b[0]] + b.drop_first());
            lemma_text_before_irreflexive(a.drop_first());
        }
    }
}

/// The order of texts is transitive.
pub proof fn lemma_text_before_transitive(a: Seq<char>, b: Seq<char>, c: Seq<char>)
    requires
        text_before(a, b),
        text_before(b, c),
    ensures
        text_before(a, c),
    decreases a.len(),
{
    if a.len() > 0 && a[0] == b[0] && b[0] == c[0] {
        lemma_text_before_transitive(a.drop_first(), b.drop_first(), c.drop_first());
    }
}

/// The characters of a text, in order.
pub(crate) fn chars_of(text: &str) -> (chars: Vec<char>)
    ensures
        chars@ == text@,
{
    let mut chars: Vec<char> = Vec::new();
    for c in it: text.chars()
        invariant
            chars@ == text@.take(it.index()),
            it.seq() == text@,
    {
        chars.push(c);
        assert(chars@ =~= text@.take(it.index() + 1));
    }
    assert(text@.take(text@.len() as int) =~= text@);
    chars
}

/// Whether `a` comes before `b`, by code points.
pub fn is_text_before(a: &str, b: &str) -> (before: bool)
    ensures
        before == text_before(a@, b@),
{
    let left: Vec<char> = chars_of(a);
    let right: Vec<char> = chars_of(b);
    let mut i: usize = 0;
    assert(left@.skip(0) =~= left@);
    assert(right@.skip(0) =~= right@);
    while i < left.len() && i < right.len()
        invariant
            left@ == a@,
            right@ == b@,
            i <= left@.len(),
            i <= right@.len(),
            text_before(left@, right@) == text_before(left@.skip(i as int), right@.skip(i as int)),
        decreases left@.len() - i,
    {
        if left[i] != right[i] {
            return left[i] < right[i];
        }
        assert(left@.skip(i as int).drop_first() =~= left@.skip(i + 1));
        assert(right@.skip(i as int).drop_first() =~= right@.skip(i + 1));
        i = i + 1;
    }
    i < right.len()
}

/// Whether a character is one of the ten decimal digits.
pub open spec fn is_digit(c: char) -> bool {
    '0' <= c && c <= '9'
}

/// Whether a text consists of decimal digits only.
pub open spec fn all_digits(text: Seq<char>) -> bool {
    forall|i: int| 0 <= i < text.len() ==> is_digit(#[trigger] text[i])
}

/// The number that a sequence of decimal digits denotes.
pub open spec fn digits_value(digits: Seq<char>) -> int
    decreases digits.len(),
{
    if digits.len() == 0 {
        0
    } else {
        digits_value(digits.drop_last()) * 10 + (digits.last() as int - '0' as int)
    }
}

/// What follows the sign of a number, where it has one.
pub open spec fn unsigned_part(text: Seq<char>) -> Seq<char> {
    if text.len() > 0 && (text[0] == '-' || text[0] == '+') {
        text.skip(1)
    } else {
        text
    }
}

/// The integer that a text denotes, without a bound: an optional sign, then one digit or more.
pub open spec fn denoted_integer(text: Seq<char>) -> Option<int> {
    let digits = unsigned_part(text);
    if digits.len() == 0 || !all_digits(digits) {
        None
    } else if text[0] == '-' {
        Some(-digits_value(digits))
    } else {
        Some(digits_value(digits))
    }
}

/// The `i64` that a text denotes. A text that denotes no integer, or one outside the type's
/// range, denotes none.
pub open spec fn parsed_i64(text: Seq<char>) -> Option<i64> {
    match denoted_integer(text) {
        Some(value) => if i64::MIN <= value <= i64::MAX {
            Some(value as i64)
        } else {
            None
        },
        None => None,
    }
}

/// A longer sequence of digits denotes no smaller number.
proof fn lemma_digits_value_grows(digits: Seq<char>, k: int)
    requires
        all_digits(digits),
        0 <= k <= digits.len(),
    ensures
        0 <= digits_value(digits.take(k)) <= digits_value(digits),
    decreases digits.len(),
{
    if digits.len() == 0 {
        assert(digits.take(k) =~= digits);
    } else {
        assert(is_digit(digits.last()));
        assert forall|i: int| 0 <= i < digits.len() - 1 implies is_digit(
            #[trigger] digits.drop_last()[i],
        ) by {
            assert(is_digit(digits[i]));
        }
        if k == digits.len() {
            assert(digits.take(k) =~= digits);
            lemma_digits_value_grows(digits.drop_last(), k - 1);
            assert(digits.drop_last().take(k - 1) =~= digits.drop_last());
        } else {
            lemma_digits_value_grows(digits.drop_last(), k);
            assert(digits.drop_last().take(k) =~= digits.take(k));
        }
    }
}

/// Reads an `i64`: an optional sign and one decimal digit or more, within the type's range.
pub fn parse_i64(text: &str) -> (value: Option<i64>)
    ensures
        value == parsed_i64(text@),
{
    let chars: Vec<char> = chars_of(text);
    if chars.len() == 0 {
        return None;
    }
    let negative: bool = chars[0] == '-';
    let start: usize = if negative || chars[0] == '+' {
        1
    } else {
        0
    };
    let ghost digits = unsigned_part(text@);
    assert(text@.skip(0) =~= text@);
    assert(digits =~= text@.skip(start as int));
    if start == chars.len() {
        return None;
    }
    let mut magnitude: u64 = 0;
    let mut i: usize = start;
    assert(digits.take(0) =~= Seq::<char>::empty());
    while i < chars.len()
        invariant
            chars@ == text@,
            start <= 1,
            start <= i <= chars@.len(),
            digits == text@.skip(start as int),
            digits == unsigned_part(text@),
            forall|j: int| 0 <= j < i - start ==> is_digit(#[trigger] digits[j]),
            magnitude == digits_value(digits.take(i - start)),
            magnitude <= 0x8000_0000_0000_0000,
        decreases chars@.len() - i,
    {
        let c: char = chars[i];
        assert(digits[i - start] == c);
        if c < '0' || c > '9' {
            assert(!is_digit(digits[i - start]));
            return None;
        }
        let digit: u64 = (c as u32 - '0' as u32) as u64;
        assert(digits.take(i + 1 - start).drop_last() =~= digits.take(i - start));
        let larger: u128 = magnitude as u128 * 10 + digit as u128;
        if larger > 0x8000_0000_0000_0000 {
            proof {
                if all_digits(digits) {
                    lemma_digits_value_grows(digits, i + 1 - start);
                }
            }
            return None;
        }
        magnitude = larger as u64;
        i = i + 1;
    }
    assert(digits.take(digits.len() as int) =~= digits);
    if negative {
        if magnitude == 0x8000_0000_0000_0000 {
            Some(i64::MIN)
        } else {
            Some(-(magnitude as i64))
        }
    } else if magnitude <= 0x7fff_ffff_ffff_ffff {
        Some(magnitude as i64)
    } else {
        None
    }
}

/// The decimal digit of a number below ten.
pub open spec fn digit_char(d: nat) -> char {
    (d + '0' as nat) as char
}

/// The decimal text of a natural number, without leading zeros.
pub open spec fn decimal_text(n: nat) -> Seq<char>
    decreases n,
{
    if n < 10 {
        seq![digit_char(n)]
    } else {
        decimal_text(n / 10).push(digit_char(n % 10))
    }
}

/// Writing a number in decimal and reading it back gives the number.
pub proof fn lemma_decimal_round_trip(n: nat)
    requires
        n <= i64::MAX,
    ensures
        parsed_i64(decimal_text(n)) == Some(n as i64),
{
    lemma_decimal_digits(n);
    let text = decimal_text(n);
    assert(is_digit(text[0]));
    assert(unsigned_part(text) == text);
}

/// The decimal text of a number consists of digits, one at least, and denotes the number.
proof fn lemma_decimal_digits(n: nat)
    ensures
        all_digits(decimal_text(n)),
        decimal_text(n).len() > 0,
        digits_value(decimal_text(n)) == n,
    decreases n,
{
    reveal_with_fuel(digits_value, 2);
    if n < 10 {
        assert(decimal_text(n).drop_last() =~= Seq::<char>::empty());
    } else {
        lemma_decimal_digits(n / 10);
        let shorter = decimal_text(n / 10);
        assert(decimal_text(n).drop_last() =~= shorter);
        assert forall|i: int| 0 <= i < decimal_text(n).len() implies is_digit(
            #[trigger] decimal_text(n)[i],
        ) by {
            if i < shorter.len() {
                assert(is_digit(shorter[i]));
            }
        }
    }
}

/// The text of one decimal digit.
fn digit_str(d: u64) -> (text: &'static str)
    requires
        d < 10,
    ensures
        text@ == seq![digit_char(d as nat)],
{
    proof {
        reveal_strlit("0");
        reveal_strlit("1");
        reveal_strlit("2");
        reveal_strlit("3");
        reveal_strlit("4");
        reveal_strlit("5");
        reveal_strlit("6");
        reveal_strlit("7");
        reveal_strlit("8");
        reveal_strlit("9");
    }
    match d {
        0 => "0",
        1 => "1",
        2 => "2",
        3 => "3",
        4 => "4",
        5 => "5",
        6 => "6",
        7 => "7",
        8 => "8",
        _ => "9",
    }
}

/// Writes a number in decimal.
pub fn decimal(n: u64) -> (text: String)
    ensures
        text@ == decimal_text(n as nat),
    decreases n,
{
    if n < 10 {
        digit_str(n).to_owned()
    } else {
        decimal(n / 10).concat(digit_str(n % 10))
    }
}

/// The upper case of one ASCII character: a small letter becomes the capital one, any other
/// character stays.
pub open spec fn ascii_upper(c: char) -> char {
    if 'a' <= c && c <= 'z' {
        (c as int - 32) as char
    } else {
        c
    }
}

/// The upper case of a text, as `str::to_uppercase` gives it.
pub uninterp spec fn upper_text(text: Seq<char>) -> Seq<char>;

/// `str::to_uppercase` of the standard library. The contract gives the result the name
/// [`upper_text`] and says of it that in an ASCII text the small letters become the capital
/// ones and nothing else changes.
#[verifier::external_body]
pub(crate) fn upper_case(text: &str) -> (upper: String)
    ensures
        upper@ == upper_text(text@),
        vstd::utf8::is_ascii_chars(text@) ==> upper@ == text@.map_values(|c: char| ascii_upper(c)),
{
    text.to_uppercase()
}

/// Of two texts that are alike up to a place, the character there decides: the text with the
/// smaller code point comes first, and one that ends there comes before one that goes on.
pub proof fn lemma_first_difference(a: Seq<char>, b: Seq<char>, at: int)
    requires
        0 <= at <= a.len(),
        at <= b.len(),
        forall|i: int| 0 <= i < at ==> a[i] == b[i],
    ensures
        at < a.len() && at < b.len() && a[at] < b[at] ==> text_before(a, b),
        at < a.len() && at < b.len() && a[at] > b[at] ==> !text_before(a, b),
        at == a.len() && at < b.len() ==> text_before(a, b),
        at == b.len() ==> !text_before(a, b),
    decreases at,
{
    if at > 0 {
        assert(a[0] == b[0]);
        assert forall|i: int| 0 <= i < at - 1 implies a.drop_first()[i] == b.drop_first()[i] by {
            assert(a[i + 1] == b[i + 1]);
        }
        lemma_first_difference(a.drop_first(), b.drop_first(), at - 1);
    }
}

/// What reads as a number: after an optional sign there is one digit or more and nothing else, and
/// the number is within the range of `i64`; a minus sign negates it.
pub proof fn lemma_parsed_i64(text: Seq<char>)
    ensures
        text.len() == 0 ==> parsed_i64(text) is None,
        text.len() == 1 && !('0' <= text[0] && text[0] <= '9') ==> parsed_i64(text) is None,
        text.len() > 0 && !('0' <= text[0] && text[0] <= '9') && text[0] != '-' && text[0] != '+'
            ==> parsed_i64(text) is None,
        forall|i: int|
            1 <= i < text.len() && !('0' <= #[trigger] text[i] && text[i] <= '9') ==> parsed_i64(
                text,
            ) is None,
        text.len() > 1 && (forall|i: int|
            1 <= i < text.len() ==> '0' <= #[trigger] text[i] && text[i] <= '9') ==> {
            let value = digits_value(text.skip(1));
            &&& text[0] == '-' ==> parsed_i64(text) == if value <= 0x8000_0000_0000_0000 {
                Some((-value) as i64)
            } else {
                None
            }
            &&& text[0] == '+' ==> parsed_i64(text) == if value <= 0x7fff_ffff_ffff_ffff {
                Some(value as i64)
            } else {
                None
            }
        },
        text.len() > 0 && (forall|i: int|
            0 <= i < text.len() ==> '0' <= #[trigger] text[i] && text[i] <= '9') ==> parsed_i64(
            text,
        ) == if digits_value(text) <= 0x7fff_ffff_ffff_ffff {
            Some(digits_value(text) as i64)
        } else {
            None
        },
{
    let digits = unsigned_part(text);
    assert forall|i: int|
        1 <= i < text.len() && !('0' <= #[trigger] text[i] && text[i] <= '9') implies parsed_i64(
        text,
    ) is None by {
        if text[0] == '-' || text[0] == '+' {
            assert(digits[i - 1] == text[i]);
            assert(!is_digit(digits[i - 1]));
        } else {
            assert(!is_digit(digits[i]));
        }
    }
    if text.len() > 0 && !is_digit(text[0]) && text[0] != '-' && text[0] != '+' {
        assert(!is_digit(digits[0]));
    }
    if text.len() > 1 && (text[0] == '-' || text[0] == '+') && (forall|i: int|
        1 <= i < text.len() ==> '0' <= #[trigger] text[i] && text[i] <= '9') {
        assert forall|i: int| 0 <= i < digits.len() implies is_digit(#[trigger] digits[i]) by {
            assert('0' <= text[i + 1] && text[i + 1] <= '9');
        }
        lemma_digits_value_grows(digits, 0);
    }
    if text.len() > 0 && (forall|i: int|
        0 <= i < text.len() ==> '0' <= #[trigger] text[i] && text[i] <= '9') {
        assert('0' <= text[0] && text[0] <= '9');
        assert forall|i: int| 0 <= i < digits.len() implies is_digit(#[trigger] digits[i]) by {
            assert('0' <= text[i] && text[i] <= '9');
        }
        lemma_digits_value_grows(digits, 0);
    }
}

/// A further digit makes a number ten times as large, and adds the digit.
pub proof fn lemma_one_more_digit(digits: Seq<char>, digit: char)
    ensures
        digits_value(digits.push(digit)) == 10 * digits_value(digits) + (digit as int - 48),
        digits_value(seq![digit]) == digit as int - 48,
{
    reveal_with_fuel(digits_value, 2);
    assert(digits.push(digit).drop_last() =~= digits);
    assert(seq![digit].drop_last() =~= Seq::<char>::empty());
}

}
