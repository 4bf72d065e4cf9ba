//! Building human-readable messages from pieces.

use vstd::prelude::*;
use vstd::string::StringSliceAdditionalSpecFns;
use vstd::utf8::valid_utf8;

verus! {

/// `first` followed by `second`.
pub fn join2(first: &str, second: &str) -> (text: String)
    ensures
        text@ == first@ + second@,
{
    let mut text = String::new();
    text.append(first);
    text.append(second);
    text
}

/// `first`, `second` and `third`, one after another.
pub fn join3(first: &str, second: &str, third: &str) -> (text: String)
    ensures
        text@ == first@ + second@ + third@,
{
    let mut text = String::new();
    text.append(first);
    text.append(second);
    text.append(third);
    text
}

/// The character of a decimal digit.
pub open spec fn digit_char(digit: nat) -> char {
    if digit == 0 { '0' } else if digit == 1 { '1' } else if digit == 2 { '2' } else if digit == 3 {
        '3'
    } else if digit == 4 { '4' } else if digit == 5 { '5' } else if digit == 6 { '6' } else if digit
        == 7 { '7' } else if digit == 8 { '8' } else { '9' }
}

/// The decimal digits of `value`, most significant first, without leading
/// zeros (zero is written as one digit).
pub open spec fn decimal(value: nat) -> Seq<char>
    decreases value,
{
    if value < 10 {
        seq![digit_char(value)]
    } else {
        decimal(value / 10).push(digit_char(value % 10))
    }
}

/// `digits` padded on the left with zeros to at least `width` characters.
pub open spec fn zero_padded(digits: Seq<char>, width: nat) -> Seq<char> {
    if digits.len() >= width {
        digits
    } else {
        Seq::new((width - digits.len()) as nat, |i: int| '0') + digits
    }
}

fn digit_text(digit: u64) -> (text: &'static str)
    requires
        digit < 10,
    ensures
        text@ == seq![digit_char(digit as nat)],
{
    proof {
        reveal_strlit("0");
        reveal_strlit("1");
        reveal_strlit("2");
        reveal_strlit("3");
        reveal_strlit("4");
        reveal_strlit("5");
        reveal_strlit("6");
        reveal_strlit("7");
        reveal_strlit("8");
        reveal_strlit("9");
    }
    if digit == 0 {
        "0"
    } else if digit == 1 {
        "1"
    } else if digit == 2 {
        "2"
    } else if digit == 3 {
        "3"
    } else if digit == 4 {
        "4"
    } else if digit == 5 {
        "5"
    } else if digit == 6 {
        "6"
    } else if digit == 7 {
        "7"
    } else if digit == 8 {
        "8"
    } else {
        "9"
    }
}

/// Writes `value` in decimal, padded with leading zeros to at least `width`
/// digits.
pub fn format_decimal(value: u64, width: usize) -> (text: String)
    ensures
        text@ == zero_padded(decimal(value as nat), width as nat),
{
    let mut digits: Vec<u64> = Vec::new();
    let mut rest = value;
    loop
        invariant_except_break
            rest <= value,
            decimal(value as nat) == decimal(rest as nat) + Seq::new(
                digits@.len(),
                |i: int| digit_char(digits@[digits@.len() - 1 - i] as nat),
            ),
            rest > 0 || digits@.len() == 0,
        invariant
            forall|i: int| 0 <= i < digits@.len() ==> digits@[i] < 10,
        ensures
            decimal(value as nat) == Seq::new(
                digits@.len(),
                |i: int| digit_char(digits@[digits@.len() - 1 - i] as nat),
            ),
        decreases rest,
    {
        let ghost before = digits@;
        if rest < 10 {
            digits.push(rest);
            assert(Seq::new(digits@.len(), |i: int| digit_char(digits@[digits@.len() - 1 - i] as nat))
                =~= seq![digit_char(rest as nat)] + Seq::new(
                before.len(),
                |i: int| digit_char(before[before.len() - 1 - i] as nat),
            ));
            assert(decimal(value as nat) =~= Seq::new(
                digits@.len(),
                |i: int| digit_char(digits@[digits@.len() - 1 - i] as nat),
            ));
            break;
        }
        digits.push(rest % 10);
        assert(decimal(rest as nat) == decimal((rest / 10) as nat).push(digit_char((rest % 10) as nat)));
        assert(Seq::new(digits@.len(), |i: int| digit_char(digits@[digits@.len() - 1 - i] as nat))
            =~= seq![digit_char((rest % 10) as nat)] + Seq::new(
            before.len(),
            |i: int| digit_char(before[before.len() - 1 - i] as nat),
        ));
        assert(decimal(value as nat) =~= decimal((rest / 10) as nat) + Seq::new(
            digits@.len(),
            |i: int| digit_char(digits@[digits@.len() - 1 - i] as nat),
        ));
        rest = rest / 10;
    }
    let ghost all = decimal(value as nat);
    let mut text = String::new();
    let count = digits.len();
    let mut padding = width;
    while padding > count
        invariant
            count == digits@.len(),
            padding <= width,
            padding == width || padding >= count,
            text@ == Seq::new((width - padding) as nat, |i: int| '0'),
        decreases padding,
    {
        text.append("0");
        proof {
            reveal_strlit("0");
        }
        assert(text@ =~= Seq::new((width - padding + 1) as nat, |i: int| '0'));
        padding = padding - 1;
    }
    let ghost pad = text@;
    assert(pad.len() == if width > count { width - count } else { 0 });
    let mut index = count;
    while index > 0
        invariant
            index <= count,
            count == digits@.len(),
            forall|i: int| 0 <= i < digits@.len() ==> digits@[i] < 10,
            all == Seq::new(count as nat, |i: int| digit_char(digits@[count - 1 - i] as nat)),
            text@ == pad + all.subrange(0, (count - index) as int),
        decreases index,
    {
        index = index - 1;
        let piece = digit_text(digits[index]);
        text.append(piece);
        assert(text@ =~= pad + all.subrange(0, (count - index) as int));
    }
    assert(all.subrange(0, count as int) =~= all);
    assert(all.len() == count);
    assert(text@ =~= zero_padded(all, width as nat));
    text
}

/// Reads `bytes` as UTF-8 text with `std::str::from_utf8`. The contract
/// claims what std documents: the call succeeds exactly on valid UTF-8, and
/// the text it returns consists of exactly these bytes.
#[verifier::external_body]
pub(crate) fn str_from_utf8(bytes: &[u8]) -> (text: Option<&str>)
    ensures
        text is Some <==> valid_utf8(bytes@),
        text matches Some(t) ==> t.spec_bytes() == bytes@,
{
    std::str::from_utf8(bytes).ok()
}

/// Whether `name` starts with `prefix` and, after it, ends with `suffix`.
pub open spec fn affixed(name: Seq<char>, prefix: Seq<char>, suffix: Seq<char>) -> bool {
    &&& name.len() >= prefix.len() + suffix.len()
    &&& name.subrange(0, prefix.len() as int) == prefix
    &&& name.subrange(name.len() - suffix.len(), name.len() as int) == suffix
}

/// What lies between `prefix` and `suffix` in an affixed `name`.
pub open spec fn between_affixes(name: Seq<char>, prefix: Seq<char>, suffix: Seq<char>) -> Seq<char> {
    name.subrange(prefix.len() as int, name.len() - suffix.len())
}

/// Whether `c` is an ASCII decimal digit.
pub open spec fn is_digit(c: char) -> bool {
    '0' <= c <= '9'
}

/// Whether every character of `text` is an ASCII decimal digit.
pub open spec fn all_digits(text: Seq<char>) -> bool {
    forall|i: int| 0 <= i < text.len() ==> is_digit(#[trigger] text[i])
}

/// The number an all-digit string denotes in decimal.
pub open spec fn decimal_value(digits: Seq<char>) -> nat
    decreases digits.len(),
{
    if digits.len() == 0 {
        0
    } else {
        decimal_value(digits.drop_last()) * 10 + ((digits.last() as u32) - ('0' as u32)) as nat
    }
}

/// A longer run of digits denotes at least as much as its start.
pub proof fn lemma_decimal_value_grows(digits: Seq<char>, count: int)
    requires
        0 <= count <= digits.len(),
        all_digits(digits),
    ensures
        decimal_value(digits.subrange(0, count)) <= decimal_value(digits),
    decreases digits.len() - count,
{
    if count < digits.len() {
        lemma_decimal_value_grows(digits, count + 1);
        let longer = digits.subrange(0, count + 1);
        assert(longer.drop_last() =~= digits.subrange(0, count));
        assert(is_digit(digits[count]));
        assert(longer.last() == digits[count]);
        assert(decimal_value(longer) == decimal_value(digits.subrange(0, count)) * 10 + ((
        digits[count] as u32) - ('0' as u32)) as nat);
    } else {
        assert(digits.subrange(0, count) =~= digits);
    }
}

/// Whether `name` starts with `prefix` and ends with `suffix`, the two not
/// overlapping.
pub fn has_affixes(name: &str, prefix: &str, suffix: &str) -> (found: bool)
    ensures
        found == affixed(name@, prefix@, suffix@),
{
    let name_length = name.unicode_len();
    let prefix_length = prefix.unicode_len();
    let suffix_length = suffix.unicode_len();
    if name_length < prefix_length || name_length - prefix_length < suffix_length {
        return false;
    }
    let mut i: usize = 0;
    while i < prefix_length
        invariant
            prefix_length == prefix@.len(),
            name_length == name@.len(),
            prefix_length <= name_length,
            i <= prefix_length,
            forall|j: int| 0 <= j < i ==> name@[j] == prefix@[j],
        decreases prefix_length - i,
    {
        if name.get_char(i) != prefix.get_char(i) {
            assert(name@.subrange(0, prefix@.len() as int)[i as int] != prefix@[i as int]);
            return false;
        }
        i = i + 1;
    }
    let start = name_length - suffix_length;
    let mut k: usize = 0;
    while k < suffix_length
        invariant
            suffix_length == suffix@.len(),
            name_length == name@.len(),
            start == name_length - suffix_length,
            k <= suffix_length,
            forall|j: int| 0 <= j < k ==> name@[start + j] == suffix@[j],
        decreases suffix_length - k,
    {
        if name.get_char(start + k) != suffix.get_char(k) {
            assert(name@.subrange(start as int, name_length as int)[k as int] != suffix@[k as int]);
            return false;
        }
        k = k + 1;
    }
    assert(name@.subrange(0, prefix@.len() as int) =~= prefix@);
    assert(name@.subrange(start as int, name_length as int) =~= suffix@);
    true
}

/// Whether the characters of `text` from `start` up to `end` are all ASCII
/// digits.
pub fn digits_between(text: &str, start: usize, end: usize) -> (digits: bool)
    requires
        start <= end <= text@.len(),
    ensures
        digits == all_digits(text@.subrange(start as int, end as int)),
{
    let mut i = start;
    while i < end
        invariant
            start <= i <= end,
            end <= text@.len(),
            forall|j: int| start <= j < i ==> is_digit(#[trigger] text@[j]),
        decreases end - i,
    {
        let c = text.get_char(i);
        if !('0' <= c && c <= '9') {
            assert(!is_digit(text@.subrange(start as int, end as int)[i - start]));
            return false;
        }
        i = i + 1;
    }
    assert forall|j: int| 0 <= j < end - start implies is_digit(
        #[trigger] text@.subrange(start as int, end as int)[j],
    ) by {
        assert(text@.subrange(start as int, end as int)[j] == text@[start + j]);
    }
    true
}

/// The `u64` that the all-digit characters of `text` from `start` up to
/// `end` denote, or nothing when the number does not fit.
pub fn parse_decimal(text: &str, start: usize, end: usize) -> (value: Option<u64>)
    requires
        start <= end <= text@.len(),
        all_digits(text@.subrange(start as int, end as int)),
    ensures
        decimal_value(text@.subrange(start as int, end as int)) <= u64::MAX <==> value is Some,
        value matches Some(v) ==> v == decimal_value(text@.subrange(start as int, end as int)),
{
    let ghost digits = text@.subrange(start as int, end as int);
    let mut value: u64 = 0;
    let mut i = start;
    while i < end
        invariant
            start <= i <= end,
            end <= text@.len(),
            digits == text@.subrange(start as int, end as int),
            all_digits(digits),
            value == decimal_value(digits.subrange(0, i - start)),
        decreases end - i,
    {
        let c = text.get_char(i);
        assert(c == digits[i - start]);
        assert(is_digit(digits[i - start]));
        let digit = (c as u32 - '0' as u32) as u64;
        let ghost prefix = digits.subrange(0, i - start + 1);
        assert(prefix.drop_last() =~= digits.subrange(0, i - start));
        proof {
            lemma_decimal_value_grows(digits, i - start + 1);
        }
        let scaled = match value.checked_mul(10) {
            Some(scaled) => scaled,
            None => return None,
        };
        value = match scaled.checked_add(digit) {
            Some(next) => next,
            None => return None,
        };
        i = i + 1;
    }
    assert(digits.subrange(0, end - start) =~= digits);
    Some(value)
}

proof fn lemma_digit_char(digit: nat)
    requires
        digit < 10,
    ensures
        is_digit(digit_char(digit)),
        ((digit_char(digit) as u32) - ('0' as u32)) as nat == digit,
{
}

/// Appending a digit multiplies the value by ten and adds the digit.
proof fn lemma_decimal_value_push(digits: Seq<char>, digit: nat)
    requires
        digit < 10,
    ensures
        decimal_value(digits.push(digit_char(digit))) == decimal_value(digits) * 10 + digit,
{
    lemma_digit_char(digit);
    assert(digits.push(digit_char(digit)).drop_last() =~= digits);
}

/// The decimal digits of a number are digits, denote the number, and are
/// no more than twenty for a `u64`.
pub proof fn lemma_decimal_reads_back(value: nat)
    ensures
        all_digits(decimal(value)),
        decimal_value(decimal(value)) == value,
        decimal(value).len() >= 1,
        value <= u64::MAX ==> decimal(value).len() <= 20,
    decreases value,
{
    if value < 10 {
        lemma_digit_char(value);
        assert(decimal(value) =~= Seq::<char>::empty().push(digit_char(value)));
        lemma_decimal_value_push(Seq::empty(), value);
    } else {
        lemma_decimal_reads_back(value / 10);
        lemma_digit_char(value % 10);
        lemma_decimal_value_push(decimal(value / 10), value % 10);
        if value <= u64::MAX {
            assert(power_of_ten(20) == 100000000000000000000) by {
                reveal_with_fuel(power_of_ten, 21);
            }
            lemma_decimal_length(value, 20);
        }
    }
}

/// A number below ten to the power `width` has at most `width` digits.
proof fn lemma_decimal_length(value: nat, width: nat)
    requires
        width >= 1,
        value < power_of_ten(width),
    ensures
        decimal(value).len() <= width,
    decreases value,
{
    if value >= 10 {
        assert(width >= 2) by {
            if width == 1 {
                assert(power_of_ten(1) == 10 * power_of_ten(0));
            }
        }
        assert(value / 10 < power_of_ten((width - 1) as nat)) by {
            assert(power_of_ten(width) == 10 * power_of_ten((width - 1) as nat));
        }
        lemma_decimal_length(value / 10, (width - 1) as nat);
    }
}

/// Ten to the power `exponent`.
pub open spec fn power_of_ten(exponent: nat) -> nat
    decreases exponent,
{
    if exponent == 0 {
        1
    } else {
        10 * power_of_ten((exponent - 1) as nat)
    }
}

/// Leading zeros do not change what digits denote.
pub proof fn lemma_zero_padded_reads_back(digits: Seq<char>, width: nat)
    requires
        all_digits(digits),
    ensures
        all_digits(zero_padded(digits, width)),
        decimal_value(zero_padded(digits, width)) == decimal_value(digits),
        zero_padded(digits, width).len() == if digits.len() >= width {
            digits.len()
        } else {
            width
        },
{
    if digits.len() < width {
        let zeros = Seq::new((width - digits.len()) as nat, |i: int| '0');
        lemma_zeros_then(zeros, digits);
    }
}

proof fn lemma_zeros_then(zeros: Seq<char>, digits: Seq<char>)
    requires
        forall|i: int| 0 <= i < zeros.len() ==> zeros[i] == '0',
        all_digits(digits),
    ensures
        all_digits(zeros + digits),
        decimal_value(zeros + digits) == decimal_value(digits),
    decreases digits.len(),
{
    let whole = zeros + digits;
    assert forall|i: int| 0 <= i < whole.len() implies is_digit(#[trigger] whole[i]) by {
        if i >= zeros.len() {
            assert(whole[i] == digits[i - zeros.len()]);
        }
    }
    if digits.len() == 0 {
        assert(whole =~= zeros);
        lemma_zeros_value(zeros);
    } else {
        let shorter = digits.drop_last();
        assert(all_digits(shorter)) by {
            assert forall|i: int| 0 <= i < shorter.len() implies is_digit(#[trigger] shorter[i]) by {
                assert(shorter[i] == digits[i]);
            }
        }
        lemma_zeros_then(zeros, shorter);
        assert(whole.drop_last() =~= zeros + shorter);
        assert(whole.last() == digits.last());
    }
}

proof fn lemma_zeros_value(zeros: Seq<char>)
    requires
        forall|i: int| 0 <= i < zeros.len() ==> zeros[i] == '0',
    ensures
        decimal_value(zeros) == 0,
    decreases zeros.len(),
{
    if zeros.len() > 0 {
        lemma_zeros_value(zeros.drop_last());
    }
}

} // verus!
