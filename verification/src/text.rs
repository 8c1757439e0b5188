//! Numbers as text, and strings as sequences of characters.

use vstd::prelude::*;
use vstd::string::*;

verus! {

/// `String::push` appends one character.
pub assume_specification[ String::push ](s: &mut String, c: char)
    ensures
        final(s)@ == old(s)@.push(c),
;

/// The character of the decimal or hexadecimal digit `d`.
pub open spec fn digit_char(d: nat) -> char {
    if d < 10 {
        (48 + d) as char
    } else {
        (87 + d) as char
    }
}

/// The number `n` in base ten, without leading zeros.
pub open spec fn decimal(n: nat) -> Seq<char>
    decreases n,
{
    if n < 10 {
        seq![digit_char(n)]
    } else {
        decimal(n / 10).push(digit_char(n % 10))
    }
}

/// The number `n` in base ten, with a minus sign where it is negative.
pub open spec fn signed_decimal(n: int) -> Seq<char> {
    if n < 0 {
        seq!['-'] + decimal((-n) as nat)
    } else {
        decimal(n as nat)
    }
}

/// The last `width` hexadecimal digits of `n`.
pub open spec fn hexadecimal(n: nat, width: nat) -> Seq<char>
    decreases width,
{
    if width == 0 {
        seq![]
    } else {
        hexadecimal(n / 16, (width - 1) as nat).push(digit_char(n % 16))
    }
}

/// The number `n` in base ten with at least two digits.
pub open spec fn two_digits(n: nat) -> Seq<char> {
    if n < 10 {
        seq!['0'] + decimal(n)
    } else {
        decimal(n)
    }
}

fn digit(d: u64) -> (c: char)
    requires
        d < 16,
    ensures
        c == digit_char(d as nat),
{
    if d < 10 {
        (48 + d as u8) as char
    } else {
        (87 + d as u8) as char
    }
}

pub fn push_decimal(text: &mut String, n: u64)
    ensures
        final(text)@ == old(text)@ + decimal(n as nat),
    decreases n,
{
    if n >= 10 {
        push_decimal(text, n / 10);
    }
    text.push(digit(n % 10));
    assert(text@ =~= old(text)@ + decimal(n as nat));
}

pub fn push_signed(text: &mut String, n: i64)
    ensures
        final(text)@ == old(text)@ + signed_decimal(n as int),
{
    if n < 0 {
        text.push('-');
        push_decimal(text, (-(n + 1)) as u64 + 1);
        assert(text@ =~= old(text)@ + signed_decimal(n as int));
    } else {
        push_decimal(text, n as u64);
    }
}

pub fn push_hexadecimal(text: &mut String, n: u64, width: u64)
    ensures
        final(text)@ == old(text)@ + hexadecimal(n as nat, width as nat),
    decreases width,
{
    if width > 0 {
        push_hexadecimal(text, n / 16, width - 1);
        text.push(digit(n % 16));
    }
    assert(text@ =~= old(text)@ + hexadecimal(n as nat, width as nat));
}

pub fn push_two_digits(text: &mut String, n: u64)
    ensures
        final(text)@ == old(text)@ + two_digits(n as nat),
{
    if n < 10 {
        text.push('0');
    }
    push_decimal(text, n);
    assert(text@ =~= old(text)@ + two_digits(n as nat));
}

/// The characters of `text`, one by one.
pub fn chars_of(text: &str) -> (chars: Vec<char>)
    ensures
        chars@ == text@,
{
    let mut chars: Vec<char> = Vec::new();
    for c in it: text.chars()
        invariant
            chars@.len() == it.index(),
            it.seq() == text@,
            chars@ == text@.take(it.index() as int),
    {
        chars.push(c);
        assert(chars@ =~= text@.take(it.index() + 1));
    }
    assert(text@.take(text@.len() as int) =~= text@);
    chars
}

/// The string made of `chars` from `from` up to `to`.
pub fn string_of(chars: &Vec<char>, from: usize, to: usize) -> (text: String)
    requires
        from <= to <= chars@.len(),
    ensures
        text@ == chars@.subrange(from as int, to as int),
{
    let mut text = String::new();
    for i in from..to
        invariant
            from <= to <= chars@.len(),
            text@ == chars@.subrange(from as int, i as int),
    {
        text.push(chars[i]);
        assert(text@ =~= chars@.subrange(from as int, i + 1));
    }
    text
}

/// Whether every character of `s` is an ASCII digit.
pub open spec fn all_digits(s: Seq<char>) -> bool {
    forall|i: int| 0 <= i < s.len() ==> '0' <= #[trigger] s[i] <= '9'
}

/// The number that the digits of `s` spell in base ten.
pub open spec fn digits_value(s: Seq<char>) -> nat
    decreases s.len(),
{
    if s.len() == 0 {
        0
    } else {
        digits_value(s.drop_last()) * 10 + (s.last() as nat - 48) as nat
    }
}

/// The number that `s` spells: an optional sign, then one or more digits.
pub open spec fn number_in(s: Seq<char>) -> Option<int> {
    let signed = s.len() > 0 && (s[0] == '+' || s[0] == '-');
    let digits = if signed {
        s.skip(1)
    } else {
        s
    };
    if digits.len() > 0 && all_digits(digits) {
        Some(
            if signed && s[0] == '-' {
                -(digits_value(digits) as int)
            } else {
                digits_value(digits) as int
            },
        )
    } else {
        None
    }
}

/// The `i32` that `s` spells, if it spells one.
pub open spec fn i32_in(s: Seq<char>) -> Option<i32> {
    match number_in(s) {
        Some(n) => if i32::MIN <= n <= i32::MAX {
            Some(n as i32)
        } else {
            None
        },
        None => None,
    }
}

/// A number in base ten is made of digits that spell it.
pub proof fn lemma_decimal_spells(n: nat)
    ensures
        decimal(n).len() > 0,
        all_digits(decimal(n)),
        digits_value(decimal(n)) == n,
    decreases n,
{
    if n < 10 {
        assert(decimal(n).drop_last() =~= seq![]);
        assert(digits_value(decimal(n).drop_last()) == 0);
    } else {
        lemma_decimal_spells(n / 10);
        assert(decimal(n).drop_last() =~= decimal(n / 10));
    }
}

/// A number that was written in base ten is read back.
pub proof fn law_signed_decimal_reads_back(n: int)
    ensures
        number_in(signed_decimal(n)) == Some(n),
        !signed_decimal(n).contains('.'),
{
    let s = signed_decimal(n);
    if n < 0 {
        lemma_decimal_spells((-n) as nat);
        assert(s.skip(1) =~= decimal((-n) as nat));
    } else {
        lemma_decimal_spells(n as nat);
    }
    if s.contains('.') {
        let i = choose|i: int| 0 <= i < s.len() && s[i] == '.';
        if n < 0 && i > 0 {
            assert(s[i] == decimal((-n) as nat)[i - 1]);
        }
    }
}

/// Parses the characters of `chars` from `from` up to `to` as an `i32`.
#[verifier::loop_isolation(false)]
pub fn parse_i32(chars: &Vec<char>, from: usize, to: usize) -> (value: Option<i32>)
    requires
        from <= to <= chars@.len(),
    ensures
        value == i32_in(chars@.subrange(from as int, to as int)),
{
    let ghost s = chars@.subrange(from as int, to as int);
    let mut start = from;
    let mut negative = false;
    if from < to && (chars[from] == '+' || chars[from] == '-') {
        negative = chars[from] == '-';
        start = from + 1;
    }
    let ghost digits = chars@.subrange(start as int, to as int);
    assert(digits =~= (if start == from { s } else { s.skip(1) }));
    if start == to {
        return None;
    }
    let mut magnitude: u64 = 0;
    let mut oversized = false;
    let mut i = start;
    while i < to
        invariant
            start <= i <= to,
            all_digits(digits.take(i - start)),
            oversized ==> digits_value(digits.take(i - start)) > 0x8000_0000,
            !oversized ==> magnitude == digits_value(digits.take(i - start)),
            !oversized ==> magnitude <= 0x8000_0000,
        decreases to - i,
    {
        let c = chars[i];
        assert(digits[i - start] == c);
        if c < '0' || c > '9' {
            return None;
        }
        let ghost longer = digits.take(i + 1 - start);
        assert(longer.drop_last() =~= digits.take(i - start));
        assert(all_digits(longer)) by {
            assert forall|k: int| 0 <= k < longer.len() implies '0' <= #[trigger] longer[k]
                <= '9' by {
                if k < i - start {
                    assert(longer[k] == digits.take(i - start)[k]);
                }
            }
        }
        if !oversized {
            magnitude = magnitude * 10 + (c as u64 - 48);
            if magnitude > 0x8000_0000 {
                oversized = true;
            }
        }
        i += 1;
    }
    assert(digits.take(to - start) =~= digits);
    if oversized {
        return None;
    }
    if negative {
        Some((-(magnitude as i64)) as i32)
    } else if magnitude <= 0x7fff_ffff {
        Some(magnitude as i32)
    } else {
        None
    }
}

/// Whether `part` stands somewhere in `s`.
pub open spec fn contains_text(s: Seq<char>, part: Seq<char>) -> bool {
    exists|i: int|
        0 <= i && i + part.len() <= s.len() && #[trigger] s.subrange(i, i + part.len()) == part
}

/// Whether `part` stands in `chars` at `at`.
fn stands_at(chars: &Vec<char>, part: &Vec<char>, at: usize) -> (stands: bool)
    requires
        at + part@.len() <= chars@.len(),
    ensures
        stands == (chars@.subrange(at as int, at + part@.len()) == part@),
{
    let ghost there = chars@.subrange(at as int, at + part@.len());
    let size = chars.len();
    let mut i: usize = 0;
    while i < part.len()
        invariant
            i <= part.len(),
            size == chars@.len(),
            at + part@.len() <= size,
            there == chars@.subrange(at as int, at + part@.len()),
            forall|k: int| 0 <= k < i ==> there[k] == #[trigger] part@[k],
        decreases part.len() - i,
    {
        if chars[at + i] != part[i] {
            assert(there[i as int] != part@[i as int]);
            return false;
        }
        i = i + 1;
    }
    assert(there =~= part@);
    true
}

/// Whether `part` stands somewhere in `whole`.
pub fn contains(whole: &str, part: &str) -> (found: bool)
    ensures
        found == contains_text(whole@, part@),
{
    let chars = chars_of(whole);
    let wanted = chars_of(part);
    if wanted.len() > chars.len() {
        return false;
    }
    let last = chars.len() - wanted.len();
    let mut i: usize = 0;
    while i <= last
        invariant
            i <= last + 1,
            last + wanted@.len() == chars@.len(),
            chars@ == whole@,
            wanted@ == part@,
            forall|k: int|
                0 <= k < i ==> #[trigger] whole@.subrange(k, k + part@.len()) != part@,
        decreases last + 1 - i,
    {
        if stands_at(&chars, &wanted, i) {
            assert(whole@.subrange(i as int, i + part@.len()) == part@);
            return true;
        }
        if i == last {
            return false;
        }
        i = i + 1;
    }
    false
}

/// A number in base ten is written digit by digit, and no digit stands before the first
/// that counts.
pub proof fn law_decimal_is_written_by_digits(n: nat, d: nat)
    requires
        d < 10,
    ensures
        decimal(d).len() == 1 && decimal(d)[0] as nat == 48 + d,
        n > 0 ==> decimal(10 * n + d) == decimal(n) + decimal(d),
        signed_decimal(n as int) == decimal(n),
        n > 0 ==> signed_decimal(-(n as int)) == seq!['-'] + decimal(n),
        two_digits(d) == decimal(0) + decimal(d),
        n > 0 ==> two_digits(10 * n + d) == decimal(n) + decimal(d),
{
    let c = digit_char(d);
    assert(c as nat == 48 + d);
    if n > 0 {
        assert((10 * n + d) / 10 == n && (10 * n + d) % 10 == d);
        assert(decimal(10 * n + d) =~= decimal(n) + decimal(d));
    }
    assert(digit_char(0) == '0');
    assert(decimal(0) =~= seq!['0']);
}

/// The digits of a number are read from the first to the last, each ten times what
/// follows it.
pub proof fn law_digits_are_read_in_order(digits: Seq<char>, c: char)
    ensures
        digits_value(seq![]) == 0,
        '0' <= c <= '9' ==> digits_value(digits.push(c)) == 10 * digits_value(digits) + (c as nat
            - 48),
        all_digits(digits) && digits.len() > 0 ==> {
            &&& number_in(digits) == Some(digits_value(digits) as int)
            &&& number_in(seq!['+'] + digits) == Some(digits_value(digits) as int)
            &&& number_in(seq!['-'] + digits) == Some(-(digits_value(digits) as int))
        },
{
    assert(digits.push(c).drop_last() =~= digits);
    if all_digits(digits) && digits.len() > 0 {
        assert('0' <= digits[0] <= '9');
        assert((seq!['+'] + digits).skip(1) =~= digits);
        assert((seq!['-'] + digits).skip(1) =~= digits);
    }
}

/// Nothing spells a number but digits, with a sign before them or none, and a number is an
/// `i32` where it is one.
pub proof fn law_only_digits_spell_numbers(s: Seq<char>, n: i32)
    ensures
        number_in(s) is Some <==> exists|digits: Seq<char>|
            #![trigger all_digits(digits)]
            digits.len() > 0 && all_digits(digits) && (s == digits || s == seq!['+'] + digits || s
                == seq!['-'] + digits),
        i32_in(s) == Some(n) <==> number_in(s) == Some(n as int),
        i32_in(s) is None <==> (number_in(s) matches Some(value) ==> value < -0x8000_0000 || value
            > 0x7fff_ffff),
{
    if number_in(s) is Some {
        if s[0] == '+' || s[0] == '-' {
            let digits = s.skip(1);
            assert(s =~= seq![s[0]] + digits);
            assert(all_digits(digits));
        } else {
            assert(all_digits(s));
        }
    }
    assert forall|digits: Seq<char>|
        #![trigger all_digits(digits)]
        digits.len() > 0 && all_digits(digits) && (s == digits || s == seq!['+'] + digits || s
            == seq!['-'] + digits) implies number_in(s) is Some by {
        law_digits_are_read_in_order(digits, '0');
    }
}

/// A number in base sixteen has as many digits as are asked for, the last ones, of which
/// the last tells the rest by sixteen.
pub proof fn law_hexadecimal_is_written_by_digits(n: nat, d: nat, width: nat)
    requires
        d < 16,
    ensures
        hexadecimal(n, 0).len() == 0,
        hexadecimal(n, width).len() == width,
        hexadecimal(16 * n + d, width + 1).len() == width + 1,
        hexadecimal(16 * n + d, width + 1).drop_last() == hexadecimal(n, width),
        hexadecimal(16 * n + d, width + 1).last() as nat == if d < 10 {
            48 + d
        } else {
            97 + (d - 10) as nat
        },
    decreases width,
{
    assert((16 * n + d) / 16 == n && (16 * n + d) % 16 == d);
    assert(hexadecimal(16 * n + d, width + 1).drop_last() =~= hexadecimal(n, width));
    if width > 0 {
        law_hexadecimal_is_written_by_digits(n / 16, 0, (width - 1) as nat);
    }
}

/// How many numbers there are with that many hexadecimal digits.
pub open spec fn hexadecimal_numbers(width: nat) -> nat
    decreases width,
{
    if width == 0 {
        1
    } else {
        16 * hexadecimal_numbers((width - 1) as nat)
    }
}

/// There are as many numbers of eight digits as `u32` holds.
pub proof fn lemma_eight_digits()
    ensures
        hexadecimal_numbers(8) == 0x1_0000_0000,
{
    reveal_with_fuel(hexadecimal_numbers, 9);
}

/// A number is told by its hexadecimal digits, where there are enough of them.
pub proof fn law_hexadecimal_tells_the_number(n: nat, m: nat, width: nat)
    requires
        hexadecimal(n, width) == hexadecimal(m, width),
    ensures
        n < hexadecimal_numbers(width) && m < hexadecimal_numbers(width) ==> n == m,
    decreases width,
{
    if width > 0 {
        let a = hexadecimal(n, width);
        let b = hexadecimal(m, width);
        assert(a.drop_last() =~= hexadecimal(n / 16, (width - 1) as nat));
        assert(b.drop_last() =~= hexadecimal(m / 16, (width - 1) as nat));
        law_hexadecimal_tells_the_number(n / 16, m / 16, (width - 1) as nat);
        assert(a.last() == digit_char(n % 16) && b.last() == digit_char(m % 16));
        assert(digit_char(n % 16) as nat == digit_char(m % 16) as nat);
        assert(n % 16 == m % 16);
    }
}

/// A text holds what stands in the middle of it.
pub proof fn lemma_contains(before: Seq<char>, part: Seq<char>, after: Seq<char>)
    ensures
        contains_text(before + part + after, part),
{
    let at = before.len() as int;
    assert((before + part + after).subrange(at, at + part.len()) =~= part);
}

} // verus!
