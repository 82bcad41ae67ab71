//! Names of ephemeral files: `ephemeral-` followed by a number.

use vstd::prelude::*;
use vstd::std_specs::iter::IteratorSpec;
use vstd::string::StringExecFns;

verus! {

broadcast use {vstd::string::axiom_spec_iter, vstd::string::next_postcondition};

/// What every name begins with.
pub open spec fn name_prefix() -> Seq<char> {
    "ephemeral-"@
}

pub open spec fn is_digit(c: char) -> bool {
    '0' <= c <= '9'
}

/// The number that a row of decimal digits stands for.
pub open spec fn decimal_value(digits: Seq<char>) -> int
    decreases digits.len(),
{
    if digits.len() == 0 {
        0
    } else {
        decimal_value(digits.drop_last()) * 10 + (digits.last() as int - '0' as int)
    }
}

/// At least one digit, and nothing else.
pub open spec fn is_decimal(s: Seq<char>) -> bool {
    s.len() > 0 && forall|i: int| 0 <= i < s.len() ==> is_digit(#[trigger] s[i])
}

/// The part of a number that has to be digits: all but a leading plus sign.
pub open spec fn without_plus(s: Seq<char>) -> Seq<char> {
    if s.len() > 0 && s[0] == '+' {
        s.drop_first()
    } else {
        s
    }
}

/// The text of a `u32`: an optional plus sign, then digits whose value is in range.
pub open spec fn is_u32(s: Seq<char>) -> bool {
    is_decimal(without_plus(s)) && decimal_value(without_plus(s)) <= u32::MAX
}

/// The prefix, then the text of a `u32`.
pub open spec fn is_ephemeral_name(s: Seq<char>) -> bool {
    name_prefix().is_prefix_of(s) && is_u32(s.skip(name_prefix().len() as int))
}

/// A longer row of digits stands for no smaller a number.
proof fn lemma_value_grows(digits: Seq<char>, n: int)
    requires
        is_decimal(digits),
        0 <= n <= digits.len(),
    ensures
        0 <= decimal_value(digits.take(n)) <= decimal_value(digits),
    decreases digits.len() - n,
{
    if n == digits.len() {
        assert(digits.take(n) =~= digits);
        lemma_value_nonneg(digits);
    } else {
        lemma_value_grows(digits, n + 1);
        assert(digits.take(n + 1).drop_last() =~= digits.take(n));
        assert(digits.take(n + 1).last() == digits[n]);
        if n > 0 {
            lemma_value_nonneg(digits.take(n));
        }
    }
}

proof fn lemma_value_nonneg(digits: Seq<char>)
    requires
        is_decimal(digits),
    ensures
        0 <= decimal_value(digits),
    decreases digits.len(),
{
    if digits.len() > 1 {
        lemma_value_nonneg(digits.drop_last());
    } else {
        assert(decimal_value(digits.drop_last()) == 0);
    }
    assert(is_digit(digits[digits.len() - 1]));
}

/// The characters of a string.
pub(crate) fn chars_of(s: &str) -> (chars: Vec<char>)
    ensures
        chars@ == s@,
{
    let mut chars: Vec<char> = Vec::new();
    let mut rest = s.chars();
    loop
        invariant
            s@ == chars@ + rest.remaining(),
        ensures
            s@ == chars@,
        decreases s@.len() - chars@.len(),
    {
        match rest.next() {
            Some(c) => {
                chars.push(c);
            },
            None => {
                break;
            },
        }
    }
    chars
}

/// Whether the characters from `start` on are the text of a `u32`.
fn parses_as_u32(chars: &Vec<char>, start: usize) -> (parses: bool)
    requires
        start <= chars@.len(),
    ensures
        parses == is_u32(chars@.skip(start as int)),
{
    let ghost digits = without_plus(chars@.skip(start as int));
    let first: usize = if start < chars.len() && chars[start] == '+' {
        start + 1
    } else {
        start
    };
    assert(digits =~= chars@.skip(first as int));
    if first == chars.len() {
        return false;
    }
    let mut value: u64 = 0;
    let mut i: usize = first;
    while i < chars.len()
        invariant
            first <= i <= chars.len(),
            digits == chars@.skip(first as int),
            digits == without_plus(chars@.skip(start as int)),
            forall|k: int| 0 <= k < i - first ==> is_digit(#[trigger] digits[k]),
            value == decimal_value(digits.take(i - first)),
            value <= u32::MAX,
        decreases chars.len() - i,
    {
        let c: char = chars[i];
        assert(digits[i - first] == c);
        if c < '0' || c > '9' {
            return false;
        }
        value = value * 10 + (c as u64 - '0' as u64);
        assert(digits.take(i - first + 1).drop_last() =~= digits.take(i - first));
        if value > u32::MAX as u64 {
            proof {
                if is_decimal(digits) {
                    lemma_value_grows(digits, i - first + 1);
                }
            }
            return false;
        }
        i = i + 1;
    }
    assert(digits.take(i - first) =~= digits);
    true
}

/// Whether `filename` is the name of an ephemeral file.
pub fn is_ephemeral_file(filename: &str) -> (found: bool)
    ensures
        found == is_ephemeral_name(filename@),
{
    let prefix: Vec<char> = chars_of("ephemeral-");
    let chars: Vec<char> = chars_of(filename);
    if chars.len() < prefix.len() {
        return false;
    }
    let mut i: usize = 0;
    while i < prefix.len()
        invariant
            i <= prefix.len() <= chars.len(),
            prefix@ == name_prefix(),
            chars@ == filename@,
            forall|k: int| 0 <= k < i ==> prefix@[k] == chars@[k],
        decreases prefix.len() - i,
    {
        if chars[i] != prefix[i] {
            return false;
        }
        i = i + 1;
    }
    assert(chars@.take(prefix@.len() as int) =~= prefix@);
    parses_as_u32(&chars, prefix.len())
}

/// The decimal digits of a number.
pub open spec fn decimal(n: nat) -> Seq<char>
    decreases n,
{
    if n < 10 {
        seq![('0' as int + n) as char]
    } else {
        decimal(n / 10).push(('0' as int + n % 10) as char)
    }
}

/// The name of the file with the given number.
pub open spec fn numbered_name(n: u64) -> Seq<char> {
    name_prefix() + decimal(n as nat)
}

/// The text of one digit.
fn digit_text(d: u64) -> (text: &'static str)
    requires
        d < 10,
    ensures
        text@ == seq![('0' as int + d) as char],
{
    proof {
        reveal_strlit("0");
        reveal_strlit("1");
        reveal_strlit("2");
        reveal_strlit("3");
        reveal_strlit("4");
        reveal_strlit("5");
        reveal_strlit("6");
        reveal_strlit("7");
        reveal_strlit("8");
        reveal_strlit("9");
    }
    let text: &'static str = match d {
        0 => "0",
        1 => "1",
        2 => "2",
        3 => "3",
        4 => "4",
        5 => "5",
        6 => "6",
        7 => "7",
        8 => "8",
        _ => "9",
    };
    assert(text@ =~= seq![('0' as int + d) as char]);
    text
}

/// Appends the decimal digits of `n`.
fn append_decimal(text: &mut String, n: u64)
    ensures
        final(text)@ == old(text)@ + decimal(n as nat),
    decreases n,
{
    if n >= 10 {
        append_decimal(text, n / 10);
    }
    text.append(digit_text(n % 10));
    assert(text@ =~= old(text)@ + decimal(n as nat));
}

/// The name for the ephemeral file that `disambiguator` tells from all others.
pub fn ephemeral_file_name(disambiguator: u64) -> (name: String)
    ensures
        name@ == numbered_name(disambiguator),
{
    let mut name: String = String::from_str("ephemeral-");
    append_decimal(&mut name, disambiguator);
    name
}

/// The digits of a number are digits, and stand for it.
pub proof fn lemma_decimal(n: nat)
    ensures
        is_decimal(decimal(n)),
        decimal_value(decimal(n)) == n,
    decreases n,
{
    if n < 10 {
        assert(decimal(n).drop_last() =~= Seq::<char>::empty());
        assert(decimal_value(decimal(n).drop_last()) == 0);
    } else {
        lemma_decimal(n / 10);
        assert(decimal(n).drop_last() =~= decimal(n / 10));
    }
}

/// A name that the library gives is recognised as one, as long as its number is a `u32`.
pub proof fn law_given_name_is_recognised(n: u64)
    ensures
        is_ephemeral_name(numbered_name(n)) <==> n <= u32::MAX,
{
    lemma_decimal(n as nat);
    let name = numbered_name(n);
    let len = name_prefix().len() as int;
    assert(name.take(len) =~= name_prefix());
    assert(name.skip(len) =~= decimal(n as nat));
    assert(is_digit(decimal(n as nat)[0]));
}

/// Digits stand for what their places say: a single one for itself, and of two rows, one behind
/// the other, the first counts ten times more for each digit of the second.
pub proof fn law_digits_have_place_values(a: Seq<char>, b: Seq<char>, c: char)
    ensures
        decimal_value(seq![c]) == c as int - 48,
        decimal_value(a + b) == decimal_value(a) * vstd::arithmetic::power::pow(10, b.len())
            + decimal_value(b),
    decreases b.len(),
{
    assert(seq![c].drop_last() =~= Seq::<char>::empty());
    assert(decimal_value(seq![c].drop_last()) == 0);
    reveal(vstd::arithmetic::power::pow);
    if b.len() == 0 {
        assert(a + b =~= a);
    } else {
        let shorter = b.drop_last();
        law_digits_have_place_values(a, shorter, c);
        assert((a + b).drop_last() =~= a + shorter);
        let v = decimal_value(a);
        let p = vstd::arithmetic::power::pow(10, shorter.len());
        assert((v * p) * 10 == v * (10 * p)) by (nonlinear_arith);
    }
}

/// A name is recognised only if it is `ephemeral-`, at most one plus sign, and then digits, at
/// least one of them and nothing else, that stand for a number of no more than 32 bits.
pub proof fn law_recognised_name_has_number(s: Seq<char>)
    requires
        is_ephemeral_name(s),
    ensures
        s.len() > 10,
        s.take(10) == seq!['e', 'p', 'h', 'e', 'm', 'e', 'r', 'a', 'l', '-'],
        s[10] == '+' ==> s.len() > 11,
        forall|i: int|
            10 <= i < s.len() && !(i == 10 && s[i] == '+') ==> 48 <= (#[trigger] s[i]) as int
                <= 57,
        s[10] != '+' ==> 0 <= decimal_value(s.skip(10)) < 0x1_0000_0000,
        s[10] == '+' ==> 0 <= decimal_value(s.skip(11)) < 0x1_0000_0000,
{
    reveal_strlit("ephemeral-");
    let rest = s.skip(10);
    assert(s.take(10) =~= name_prefix());
    assert(name_prefix() =~= seq!['e', 'p', 'h', 'e', 'm', 'e', 'r', 'a', 'l', '-']);
    assert(rest.len() > 0);
    let digits = without_plus(rest);
    lemma_value_nonneg(digits);
    if s[10] == '+' {
        assert(digits =~= s.skip(11));
    }
    assert forall|i: int| 10 <= i < s.len() && !(i == 10 && s[i] == '+') implies 48 <= (
    #[trigger] s[i]) as int <= 57 by {
        assert(is_digit(digits[i - (s.len() - digits.len())]));
    }
}

/// `ephemeral-` and digits, with or without a plus sign between them, are recognised just if the
/// digits stand for a number of no more than 32 bits, however many zeros they begin with.
pub proof fn law_number_makes_a_name(digits: Seq<char>)
    requires
        digits.len() > 0,
        forall|i: int| 0 <= i < digits.len() ==> 48 <= (#[trigger] digits[i]) as int <= 57,
    ensures
        is_ephemeral_name(seq!['e', 'p', 'h', 'e', 'm', 'e', 'r', 'a', 'l', '-'] + digits)
            <==> decimal_value(digits) < 0x1_0000_0000,
        is_ephemeral_name(seq!['e', 'p', 'h', 'e', 'm', 'e', 'r', 'a', 'l', '-', '+'] + digits)
            <==> decimal_value(digits) < 0x1_0000_0000,
{
    reveal_strlit("ephemeral-");
    let plain = seq!['e', 'p', 'h', 'e', 'm', 'e', 'r', 'a', 'l', '-'] + digits;
    let plus = seq!['e', 'p', 'h', 'e', 'm', 'e', 'r', 'a', 'l', '-', '+'] + digits;
    assert(plain.take(10) =~= name_prefix());
    assert(plain.skip(10) =~= digits);
    assert(plus.take(10) =~= name_prefix());
    assert(plus.skip(10)[0] == '+');
    assert(plus.skip(10).drop_first() =~= digits);
    assert(digits[0] != '+');
    assert(is_decimal(digits));
}

/// Names that begin otherwise are refused, and so are those that have no digit behind
/// `ephemeral-`, or anything but digits there, but for a plus sign in the first place.
pub proof fn law_other_names_are_refused(s: Seq<char>)
    requires
        ({
            ||| s.len() < 11
            ||| s.take(10) != seq!['e', 'p', 'h', 'e', 'm', 'e', 'r', 'a', 'l', '-']
            ||| s.len() == 11 && s[10] == '+'
            ||| exists|i: int|
                10 <= i < s.len() && !(48 <= (#[trigger] s[i]) as int <= 57) && !(i == 10 && s[i]
                    == '+')
        }),
    ensures
        !is_ephemeral_name(s),
{
    if is_ephemeral_name(s) {
        law_recognised_name_has_number(s);
    }
}

/// The name of file `n` is `ephemeral-` and then the number itself, in digits that do not begin
/// with a zero unless the number is zero.
pub proof fn law_name_holds_its_number(n: u64)
    ensures
        numbered_name(n).len() > 10,
        numbered_name(n).take(10) == seq!['e', 'p', 'h', 'e', 'm', 'e', 'r', 'a', 'l', '-'],
        forall|i: int|
            10 <= i < numbered_name(n).len() ==> 48 <= (#[trigger] numbered_name(n)[i]) as int
                <= 57,
        decimal_value(numbered_name(n).skip(10)) == n,
        numbered_name(n).len() > 11 ==> numbered_name(n)[10] != '0',
{
    reveal_strlit("ephemeral-");
    lemma_decimal(n as nat);
    lemma_no_leading_zero(n as nat);
    let digits = decimal(n as nat);
    assert(numbered_name(n).take(10) =~= seq![
        'e', 'p', 'h', 'e', 'm', 'e', 'r', 'a', 'l', '-',
    ]);
    assert(numbered_name(n).skip(10) =~= digits);
    assert forall|i: int| 10 <= i < numbered_name(n).len() implies 48 <= (
    #[trigger] numbered_name(n)[i]) as int <= 57 by {
        assert(is_digit(digits[i - 10]));
    }
}

proof fn lemma_no_leading_zero(n: nat)
    ensures
        n > 0 ==> decimal(n)[0] != '0',
        n == 0 ==> decimal(n).len() == 1,
    decreases n,
{
    if n >= 10 {
        lemma_no_leading_zero(n / 10);
        lemma_decimal(n / 10);
    }
}

/// Different numbers give different names.
pub proof fn law_names_are_distinct(m: u64, n: u64)
    requires
        m != n,
    ensures
        numbered_name(m) != numbered_name(n),
{
    lemma_decimal(m as nat);
    lemma_decimal(n as nat);
    if numbered_name(m) == numbered_name(n) {
        let len = name_prefix().len() as int;
        assert(numbered_name(m).skip(len) =~= decimal(m as nat));
        assert(numbered_name(n).skip(len) =~= decimal(n as nat));
    }
}

/// Gives out the numbers by which ephemeral files are told apart.
pub struct Disambiguator {
    next: u64,
}

/// The number that is given out after `n`.
pub open spec fn number_after(n: u64) -> u64 {
    if n == u64::MAX {
        0
    } else {
        (n + 1) as u64
    }
}

impl View for Disambiguator {
    type V = u64;

    closed spec fn view(&self) -> u64 {
        self.next
    }
}

impl Disambiguator {
    /// The first number is one.
    pub fn new() -> (numbers: Disambiguator)
        ensures
            numbers@ == 1,
    {
        Disambiguator { next: 1 }
    }

    /// Gives out the next number.
    pub fn take(&mut self) -> (n: u64)
        ensures
            n == old(self)@,
            final(self)@ == number_after(old(self)@),
    {
        let n: u64 = self.next;
        self.next = n.wrapping_add(1);
        n
    }
}

/// Numbers follow each other by one, and the largest is followed by zero.
pub proof fn law_numbers_follow_by_one(n: u64)
    ensures
        number_after(n) == (n + 1) % 0x1_0000_0000_0000_0000,
{
}

/// Whether the numbers are those that are given out one after the other.
pub open spec fn follows_at(numbers: Seq<u64>, i: int) -> bool {
    numbers[i + 1] == number_after(numbers[i])
}

pub open spec fn are_given_out(numbers: Seq<u64>) -> bool {
    &&& numbers.len() > 0 ==> numbers[0] == 1
    &&& forall|i: int| 0 <= i < numbers.len() - 1 ==> #[trigger] follows_at(numbers, i)
}

/// The first number that is given out is one, the second two, and so on up to the largest.
pub proof fn law_numbers_count_up(numbers: Seq<u64>, i: int)
    requires
        are_given_out(numbers),
        0 <= i < numbers.len(),
        i < u64::MAX,
    ensures
        numbers[i] == i + 1,
    decreases i,
{
    if i > 0 {
        law_numbers_count_up(numbers, i - 1);
        assert(follows_at(numbers, i - 1));
    }
}

} // verus!
