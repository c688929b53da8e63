//! Numbers as text: the hexadecimal quantities of the remote protocol and the
//! decimal strings of the output records.

use vstd::prelude::*;
use vstd::string::*;

verus! {

/// The character that writes the digit `d`, for `0 <= d < 16`; lower case above nine.
pub open spec fn digit_char(d: int) -> char {
    if d < 10 {
        ('0' as int + d) as char
    } else {
        ('a' as int + d - 10) as char
    }
}

/// The value of a decimal digit, if `c` is one.
pub open spec fn decimal_digit_value(c: char) -> Option<int> {
    if '0' <= c && c <= '9' {
        Some(c as int - '0' as int)
    } else {
        None
    }
}

/// The value of a hexadecimal digit of either case, if `c` is one.
pub open spec fn hex_digit_value(c: char) -> Option<int> {
    if '0' <= c && c <= '9' {
        Some(c as int - '0' as int)
    } else if 'a' <= c && c <= 'f' {
        Some(c as int - 'a' as int + 10)
    } else if 'A' <= c && c <= 'F' {
        Some(c as int - 'A' as int + 10)
    } else {
        None
    }
}

/// Every character of `s` is a decimal digit.
pub open spec fn all_decimal_digits(s: Seq<char>) -> bool {
    forall|i: int| 0 <= i < s.len() ==> (#[trigger] decimal_digit_value(s[i])) is Some
}

/// Every character of `s` is a hexadecimal digit.
pub open spec fn all_hex_digits(s: Seq<char>) -> bool {
    forall|i: int| 0 <= i < s.len() ==> (#[trigger] hex_digit_value(s[i])) is Some
}

/// The number that a run of decimal digits denotes, most significant digit first.
pub open spec fn decimal_value(s: Seq<char>) -> nat
    decreases s.len(),
{
    if s.len() == 0 {
        0
    } else {
        (10 * decimal_value(s.drop_last()) + decimal_digit_value(s.last()).unwrap_or(0)) as nat
    }
}

/// The number that a run of hexadecimal digits denotes, most significant digit first.
pub open spec fn hex_value(s: Seq<char>) -> nat
    decreases s.len(),
{
    if s.len() == 0 {
        0
    } else {
        (16 * hex_value(s.drop_last()) + hex_digit_value(s.last()).unwrap_or(0)) as nat
    }
}

/// The shortest decimal text of `n`.
pub open spec fn decimal_text(n: nat) -> Seq<char>
    decreases n,
{
    if n < 10 {
        seq![digit_char(n as int)]
    } else {
        decimal_text(n / 10).push(digit_char((n % 10) as int))
    }
}

/// The shortest lower-case hexadecimal text of `n`.
pub open spec fn hex_text(n: nat) -> Seq<char>
    decreases n,
{
    if n < 16 {
        seq![digit_char(n as int)]
    } else {
        hex_text(n / 16).push(digit_char((n % 16) as int))
    }
}

/// The digits of a hexadecimal number: the text without its optional leading plus sign.
pub open spec fn hex_body(s: Seq<char>) -> Seq<char> {
    if s.len() > 0 && s[0] == '+' {
        s.drop_first()
    } else {
        s
    }
}

/// What `s` is as a hexadecimal `u64`: an optional plus sign, then at least one
/// digit, denoting a number that fits. `None` for anything else.
pub open spec fn parsed_hex(s: Seq<char>) -> Option<u64> {
    let body = hex_body(s);
    if body.len() > 0 && all_hex_digits(body) && hex_value(body) <= u64::MAX {
        Some(hex_value(body) as u64)
    } else {
        None
    }
}

/// The text begins with `0x`.
pub open spec fn has_hex_prefix(s: Seq<char>) -> bool {
    s.len() >= 2 && s[0] == '0' && s[1] == 'x'
}

/// The canonical form of a quantity on the wire. Text that begins with `0x` is a
/// hexadecimal number and becomes its decimal text, or `None` where it is
/// malformed; any other text is taken to be decimal already and stands as it is.
pub open spec fn normalized_quantity(s: Seq<char>) -> Option<Seq<char>> {
    if has_hex_prefix(s) {
        match parsed_hex(s.skip(2)) {
            Some(n) => Some(decimal_text(n as nat)),
            None => None,
        }
    } else {
        Some(s)
    }
}

/// The wire form of a block number: `0x`, then its shortest lower-case hexadecimal text.
pub open spec fn hex_quantity(n: nat) -> Seq<char> {
    seq!['0', 'x'] + hex_text(n)
}

proof fn lemma_hex_value_push(s: Seq<char>, c: char)
    ensures
        hex_value(s.push(c)) == 16 * hex_value(s) + hex_digit_value(c).unwrap_or(0),
        hex_digit_value(c) is Some ==> 0 <= hex_digit_value(c).unwrap() < 16,
{
    assert(s.push(c).drop_last() =~= s);
}

proof fn lemma_decimal_value_push(s: Seq<char>, c: char)
    ensures
        decimal_value(s.push(c)) == 10 * decimal_value(s) + decimal_digit_value(c).unwrap_or(0),
        decimal_digit_value(c) is Some ==> 0 <= decimal_digit_value(c).unwrap() < 10,
{
    assert(s.push(c).drop_last() =~= s);
}

/// A run of hexadecimal digits denotes at least what any of its prefixes denotes.
proof fn lemma_hex_value_prefix(s: Seq<char>, k: int)
    requires
        0 <= k <= s.len(),
    ensures
        hex_value(s.take(k)) <= hex_value(s),
    decreases s.len(),
{
    if k == s.len() {
        assert(s.take(k) =~= s);
    } else {
        lemma_hex_value_prefix(s.drop_last(), k);
        assert(s.drop_last().take(k) =~= s.take(k));
    }
}

/// The decimal text of a number is made of decimal digits and denotes that number.
pub proof fn lemma_decimal_text_value(n: nat)
    ensures
        decimal_text(n).len() >= 1,
        all_decimal_digits(decimal_text(n)),
        decimal_value(decimal_text(n)) == n,
    decreases n,
{
    if n < 10 {
        let s = seq![digit_char(n as int)];
        assert(decimal_value(s.drop_last()) == 0);
    } else {
        lemma_decimal_text_value(n / 10);
        let c = digit_char((n % 10) as int);
        lemma_decimal_value_push(decimal_text(n / 10), c);
    }
}

/// The hexadecimal text of a number is made of hexadecimal digits and denotes that number.
pub proof fn lemma_hex_text_value(n: nat)
    ensures
        hex_text(n).len() >= 1,
        hex_text(n)[0] != '+',
        all_hex_digits(hex_text(n)),
        hex_value(hex_text(n)) == n,
    decreases n,
{
    if n < 16 {
        let s = seq![digit_char(n as int)];
        assert(hex_value(s.drop_last()) == 0);
    } else {
        lemma_hex_text_value(n / 16);
        let c = digit_char((n % 16) as int);
        lemma_hex_value_push(hex_text(n / 16), c);
    }
}

/// Reading back the hexadecimal text of a `u64` gives the number.
pub proof fn lemma_hex_text_parses(n: u64)
    ensures
        parsed_hex(hex_text(n as nat)) == Some(n),
{
    lemma_hex_text_value(n as nat);
}

/// Normalization is exact: where a hexadecimal quantity is well formed, its
/// canonical form is a run of decimal digits that denotes the number that the
/// hexadecimal digits denote.
pub proof fn lemma_normalization_keeps_the_number(s: Seq<char>)
    requires
        has_hex_prefix(s),
        normalized_quantity(s) is Some,
    ensures
        all_decimal_digits(normalized_quantity(s).unwrap()),
        decimal_value(normalized_quantity(s).unwrap()) == hex_value(hex_body(s.skip(2))),
{
    lemma_decimal_text_value(parsed_hex(s.skip(2)).unwrap() as nat);
}

/// Normalization round-trips with the wire form: the canonical form of the wire
/// form of a block number is the decimal text of that number.
pub proof fn lemma_wire_form_normalizes(n: u64)
    ensures
        normalized_quantity(hex_quantity(n as nat)) == Some(decimal_text(n as nat)),
{
    let s = hex_quantity(n as nat);
    assert(s.skip(2) =~= hex_text(n as nat));
    lemma_hex_text_parses(n);
}

/// The characters of a string, in order.
fn chars_of(s: &str) -> (v: Vec<char>)
    ensures
        v@ == s@,
{
    let mut v: Vec<char> = Vec::new();
    for c in it: s.chars()
        invariant
            v@ == it.seq().take(it.index() as int),
    {
        v.push(c);
    }
    v
}

fn hex_digit(c: char) -> (r: Option<u8>)
    ensures
        match r {
            Some(d) => hex_digit_value(c) == Some(d as int) && d < 16,
            None => hex_digit_value(c) is None,
        },
{
    if '0' <= c && c <= '9' {
        Some((c as u32 - '0' as u32) as u8)
    } else if 'a' <= c && c <= 'f' {
        Some((c as u32 - 'a' as u32 + 10) as u8)
    } else if 'A' <= c && c <= 'F' {
        Some((c as u32 - 'A' as u32 + 10) as u8)
    } else {
        None
    }
}

/// Reads the characters from `start` on as a hexadecimal `u64`.
fn parse_hex_from(chars: &Vec<char>, start: usize) -> (r: Option<u64>)
    requires
        start <= chars.len(),
    ensures
        r == parsed_hex(chars@.skip(start as int)),
{
    let n = chars.len();
    let mut i = start;
    if i < n && chars[i] == '+' {
        i = i + 1;
    }
    let first = i;
    let ghost body = chars@.skip(first as int);
    if i == n {
        return None;
    }
    let mut acc: u64 = 0;
    while i < n
        invariant
            first <= i <= n,
            n == chars.len(),
            start <= chars.len(),
            body == chars@.skip(first as int),
            body == hex_body(chars@.skip(start as int)),
            all_hex_digits(body.take(i - first)),
            acc == hex_value(body.take(i - first)),
        decreases n - i,
    {
        let ghost seen = body.take(i - first);
        let c = chars[i];
        proof {
            assert(body.take(i - first + 1) =~= seen.push(c));
            lemma_hex_value_push(seen, c);
            lemma_hex_value_prefix(body, i - first + 1);
        }
        match hex_digit(c) {
            None => {
                return None;
            },
            Some(d) => {
                if acc > (u64::MAX - d as u64) / 16 {
                    return None;
                }
                acc = acc * 16 + d as u64;
            },
        }
        i = i + 1;
    }
    assert(body.take(n - first) =~= body);
    Some(acc)
}

fn digit_str(d: u64) -> (r: &'static str)
    requires
        d < 16,
    ensures
        r@ == seq![digit_char(d as int)],
{
    let r = match d {
        0 => "0",
        1 => "1",
        2 => "2",
        3 => "3",
        4 => "4",
        5 => "5",
        6 => "6",
        7 => "7",
        8 => "8",
        9 => "9",
        10 => "a",
        11 => "b",
        12 => "c",
        13 => "d",
        14 => "e",
        _ => "f",
    };
    proof {
        reveal_strlit("0");
        reveal_strlit("1");
        reveal_strlit("2");
        reveal_strlit("3");
        reveal_strlit("4");
        reveal_strlit("5");
        reveal_strlit("6");
        reveal_strlit("7");
        reveal_strlit("8");
        reveal_strlit("9");
        reveal_strlit("a");
        reveal_strlit("b");
        reveal_strlit("c");
        reveal_strlit("d");
        reveal_strlit("e");
        reveal_strlit("f");
    }
    r
}

/// Writes `n` in decimal.
pub fn u64_to_decimal(n: u64) -> (r: String)
    ensures
        r@ == decimal_text(n as nat),
    decreases n,
{
    if n < 10 {
        digit_str(n).to_owned()
    } else {
        let mut r = u64_to_decimal(n / 10);
        r.append(digit_str(n % 10));
        r
    }
}

fn u64_to_hex(n: u64) -> (r: String)
    ensures
        r@ == hex_text(n as nat),
    decreases n,
{
    if n < 16 {
        digit_str(n).to_owned()
    } else {
        let mut r = u64_to_hex(n / 16);
        r.append(digit_str(n % 16));
        r
    }
}

/// The wire form of a block number, as the remote protocol takes it.
pub fn block_number_to_hex(block_number: u64) -> (r: String)
    ensures
        r@ == hex_quantity(block_number as nat),
{
    let mut r = "0x".to_owned();
    let digits = u64_to_hex(block_number);
    r.append(digits.as_str());
    proof {
        reveal_strlit("0x");
    }
    r
}

/// Brings a quantity from the wire into canonical decimal form.
pub fn normalize_quantity(text: &str) -> (r: Option<String>)
    ensures
        match r {
            Some(s) => normalized_quantity(text@) == Some(s@),
            None => normalized_quantity(text@) is None,
        },
{
    let chars = chars_of(text);
    if chars.len() >= 2 && chars[0] == '0' && chars[1] == 'x' {
        match parse_hex_from(&chars, 2) {
            Some(n) => Some(u64_to_decimal(n)),
            None => None,
        }
    } else {
        Some(text.to_owned())
    }
}

} // verus!
