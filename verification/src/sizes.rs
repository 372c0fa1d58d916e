//! Sizes as they are written on the command line, such as `100MB` or `1.5 GB`.

use vstd::prelude::*;
use vstd::string::StringExecFns;

use crate::double::{
    are_digits, decimal_bytes, digits_value, double_bytes, fraction, law_whole_numbers_exact,
    lemma_far_exponents, shifted,
};
use crate::text::{chars_of, decimal, owned, string_of};

verus! {

/// The characters with the Unicode property `White_Space`.
pub open spec fn is_white(c: char) -> bool {
    let n = c as u32;
    ||| 0x9 <= n <= 0xd
    ||| n == 0x20
    ||| n == 0x85
    ||| n == 0xa0
    ||| n == 0x1680
    ||| 0x2000 <= n <= 0x200a
    ||| 0x2028 <= n <= 0x2029
    ||| n == 0x202f
    ||| n == 0x205f
    ||| n == 0x3000
}

/// `s` without white space at its ends.
pub open spec fn trimmed(s: Seq<char>) -> Seq<char>
    decreases s.len(),
{
    if s.len() > 0 && is_white(s[0]) {
        trimmed(s.skip(1))
    } else if s.len() > 0 && is_white(s.last()) {
        trimmed(s.drop_last())
    } else {
        s
    }
}

/// `str::trim` takes the white space, by the Unicode property `White_Space`, off both ends.
pub assume_specification[ str::trim ](s: &str) -> (r: &str)
    ensures
        r@ == trimmed(s@),
;

/// What `str::to_uppercase` makes of `s`.
pub uninterp spec fn uppercased(s: Seq<char>) -> Seq<char>;

/// An ASCII character in upper case.
pub open spec fn ascii_upper(c: char) -> char {
    if 'a' <= c && c <= 'z' {
        (c as u32 - 32) as char
    } else {
        c
    }
}

/// An ASCII text in upper case.
pub open spec fn ascii_uppercased(s: Seq<char>) -> Seq<char> {
    s.map_values(|c: char| ascii_upper(c))
}

/// Every character of `s` is an ASCII character or white space.
pub open spec fn is_plain(s: Seq<char>) -> bool {
    forall|i: int| 0 <= i < s.len() ==> (#[trigger] s[i]) <= '\u{7f}' || is_white(s[i])
}

/// `str::to_uppercase` depends on its argument alone. Characters that have no case stay as they
/// are, white space among them, and of the ASCII characters the letters `a` to `z` change: so a
/// text of these alone keeps its length. How the other letters of Unicode change is left to the
/// name.
pub assume_specification[ str::to_uppercase ](s: &str) -> (r: String)
    ensures
        r@ == uppercased(s@),
        is_plain(s@) ==> r@ == ascii_uppercased(s@),
;

/// A number as it is written.
pub enum Number {
    NotANumber,
    Infinite { negative: bool },
    Finite { negative: bool, mantissa: nat, exponent: int },
}

pub open spec fn is_digit(c: char) -> bool {
    '0' <= c && c <= '9'
}

pub open spec fn all_digits(s: Seq<char>) -> bool {
    forall|i: int| 0 <= i < s.len() ==> is_digit(s[i])
}

/// The values of digits.
pub open spec fn digit_values(s: Seq<char>) -> Seq<u8> {
    s.map_values(|c: char| (c as u32 - 48) as u8)
}

/// What stands before the first `c` in `s`, and what stands behind it where there is one.
pub open spec fn split_at_char(s: Seq<char>, c: char) -> (Seq<char>, Option<Seq<char>>) {
    match s.index_of_first(c) {
        Some(i) => (s.take(i), Some(s.skip(i + 1))),
        None => (s, None),
    }
}

/// Whether `s` starts with a minus sign, and `s` without a sign at its start.
pub open spec fn split_sign(s: Seq<char>) -> (bool, Seq<char>) {
    if s.len() > 0 && s[0] == '-' {
        (true, s.skip(1))
    } else if s.len() > 0 && s[0] == '+' {
        (false, s.skip(1))
    } else {
        (false, s)
    }
}

/// The integer that `s` spells: digits, with a sign or without.
pub open spec fn integer(s: Seq<char>) -> Option<int> {
    let (negative, digits) = split_sign(s);
    if digits.len() > 0 && all_digits(digits) {
        let n = digits_value(digit_values(digits)) as int;
        Some(if negative { -n } else { n })
    } else {
        None
    }
}

/// The number that `s` spells without a sign: digits with at most one point among or beside
/// them, and behind an `E` a power of ten.
pub open spec fn unsigned_number(s: Seq<char>, negative: bool) -> Option<Number> {
    let (mantissa, power) = split_at_char(s, 'E');
    let (whole, behind) = split_at_char(mantissa, '.');
    let frac = match behind {
        Some(f) => f,
        None => Seq::empty(),
    };
    let exponent = match power {
        Some(p) => integer(p),
        None => Some(0),
    };
    let digits = whole + frac;
    if digits.len() > 0 && all_digits(digits) && exponent is Some {
        Some(
            Number::Finite {
                negative,
                mantissa: digits_value(digit_values(digits)),
                exponent: exponent->0 - frac.len(),
            },
        )
    } else {
        None
    }
}

/// The number that `s`, in upper case, spells.
pub open spec fn number(s: Seq<char>) -> Option<Number> {
    let (negative, rest) = split_sign(s);
    if rest == seq!['N', 'A', 'N'] {
        Some(Number::NotANumber)
    } else if rest == seq!['I', 'N', 'F'] || rest == seq![
        'I',
        'N',
        'F',
        'I',
        'N',
        'I',
        'T',
        'Y',
    ] {
        Some(Number::Infinite { negative })
    } else {
        unsigned_number(rest, negative)
    }
}

/// `s` without the unit at its end, and the power of two that the unit stands for.
pub open spec fn split_unit(s: Seq<char>) -> (Seq<char>, nat) {
    let n = s.len();
    if n >= 1 && s[n - 1] == 'B' {
        if n >= 2 && s[n - 2] == 'T' {
            (s.take(n - 2), 40)
        } else if n >= 2 && s[n - 2] == 'G' {
            (s.take(n - 2), 30)
        } else if n >= 2 && s[n - 2] == 'M' {
            (s.take(n - 2), 20)
        } else if n >= 2 && s[n - 2] == 'K' {
            (s.take(n - 2), 10)
        } else {
            (s.take(n - 1), 0)
        }
    } else {
        (s, 0)
    }
}

/// The whole bytes in a number of units of `2^k` bytes. The number counts at the precision of
/// a binary floating point number with 53 significant bits; what is negative or no number
/// makes no bytes, and what exceeds a `u64` makes its largest value.
pub open spec fn number_bytes(n: Number, k: nat) -> nat {
    match n {
        Number::NotANumber => 0,
        Number::Infinite { negative } => if negative {
            0
        } else {
            u64::MAX as nat
        },
        Number::Finite { negative, mantissa, exponent } => if negative {
            0
        } else {
            let f = fraction(mantissa, exponent);
            double_bytes(f.0, f.1, k)
        },
    }
}

/// The bytes that the size `s`, in upper case and without white space around it, stands for.
pub open spec fn size_bytes(s: Seq<char>) -> Option<nat> {
    let (num, k) = split_unit(s);
    match number(trimmed(num)) {
        Some(n) => Some(number_bytes(n, k)),
        None => None,
    }
}

/// The characters `s[from..to]`.
fn part(s: &Vec<char>, from: usize, to: usize) -> (r: Vec<char>)
    requires
        from <= to <= s@.len(),
    ensures
        r@ == s@.subrange(from as int, to as int),
{
    let mut out: Vec<char> = Vec::new();
    let mut i: usize = from;
    while i < to
        invariant
            from <= i <= to <= s@.len(),
            out@ =~= s@.subrange(from as int, i as int),
        decreases to - i,
    {
        out.push(s[i]);
        i += 1;
    }
    out
}

/// Splits `s` at its first `c`.
fn split_char(s: &Vec<char>, c: char) -> (r: (Vec<char>, Option<Vec<char>>))
    ensures
        r.0@ == split_at_char(s@, c).0,
        match r.1 {
            Some(behind) => split_at_char(s@, c).1 == Some(behind@),
            None => split_at_char(s@, c).1 is None,
        },
{
    let mut i: usize = 0;
    while i < s.len() && s[i] != c
        invariant
            i <= s@.len(),
            forall|j: int| 0 <= j < i ==> s@[j] != c,
        decreases s@.len() - i,
    {
        i += 1;
    }
    proof {
        s@.index_of_first_ensures(c);
        if let Some(at) = s@.index_of_first(c) {
            assert(s@[at] == c);
            assert(i <= at);
            assert(i < s@.len());
            assert(at == i);
        } else if i < s@.len() {
            assert(s@.contains(s@[i as int]));
        }
    }
    if i < s.len() {
        let before: Vec<char> = part(s, 0, i);
        let behind: Vec<char> = part(s, i + 1, s.len());
        assert(before@ =~= s@.take(i as int));
        assert(behind@ =~= s@.skip(i + 1));
        (before, Some(behind))
    } else {
        let all: Vec<char> = part(s, 0, i);
        assert(all@ =~= s@);
        (all, None)
    }
}

/// Takes a sign off the start of `s`.
fn take_sign(s: Vec<char>) -> (r: (bool, Vec<char>))
    ensures
        (r.0, r.1@) == split_sign(s@),
{
    if s.len() > 0 && (s[0] == '-' || s[0] == '+') {
        let negative: bool = s[0] == '-';
        let rest: Vec<char> = part(&s, 1, s.len());
        assert(rest@ =~= s@.skip(1));
        (negative, rest)
    } else {
        (false, s)
    }
}

/// The values of the digits in `s` and then in `t`, where there is no other character.
fn read_digits(s: &Vec<char>, t: &Vec<char>) -> (r: Option<Vec<u8>>)
    ensures
        match r {
            Some(d) => all_digits(s@ + t@) && d@ == digit_values(s@ + t@) && are_digits(d@),
            None => !all_digits(s@ + t@),
        },
{
    let ghost all = s@ + t@;
    let mut out: Vec<u8> = Vec::new();
    let mut i: usize = 0;
    while i < s.len()
        invariant
            i <= s@.len(),
            all == s@ + t@,
            out@.len() == i,
            all_digits(all.take(i as int)),
            are_digits(out@),
            forall|j: int| 0 <= j < i ==> out@[j] == #[trigger] digit_values(all)[j],
        decreases s@.len() - i,
    {
        let c: char = s[i];
        assert(all[i as int] == c);
        if !('0' <= c && c <= '9') {
            return None;
        }
        let n: u32 = c as u32 - 48;
        out.push(n as u8);
        i += 1;
        let ghost seen = all.take(i as int);
        let ghost before = all.take(i - 1);
        assert forall|j: int| 0 <= j < seen.len() implies is_digit(seen[j]) by {
            if j < before.len() {
                assert(is_digit(before[j]));
            }
        }
    }
    let mut k: usize = 0;
    while k < t.len()
        invariant
            k <= t@.len(),
            all == s@ + t@,
            out@.len() == s@.len() + k,
            all_digits(all.take(s@.len() + k)),
            are_digits(out@),
            forall|j: int| 0 <= j < s@.len() + k ==> out@[j] == #[trigger] digit_values(all)[j],
        decreases t@.len() - k,
    {
        let c: char = t[k];
        assert(all[s@.len() + k] == c);
        if !('0' <= c && c <= '9') {
            return None;
        }
        let n: u32 = c as u32 - 48;
        out.push(n as u8);
        k += 1;
        let ghost seen = all.take(s@.len() + k);
        let ghost before = all.take(s@.len() + k - 1);
        assert forall|j: int| 0 <= j < seen.len() implies is_digit(seen[j]) by {
            if j < before.len() {
                assert(is_digit(before[j]));
            }
        }
    }
    assert(all.take(all.len() as int) =~= all);
    assert(out@ =~= digit_values(all));
    Some(out)
}

/// A power of ten that no number of digits makes up for.
const FAR: i128 = 100000000000000000000000000;

/// `r` is `n`, or both lie far on the same side of zero.
spec fn as_good_as(r: int, n: int) -> bool {
    ||| r == n
    ||| r >= FAR && n >= FAR
    ||| r <= -FAR && n <= -FAR
}

/// The integer that `s` spells, or another one as far from zero where it is very large.
fn read_integer(s: Vec<char>) -> (r: Option<i128>)
    ensures
        match r {
            Some(n) => integer(s@) is Some && as_good_as(n as int, integer(s@)->0) && -12 * FAR < n
                < 12 * FAR,
            None => integer(s@) is None,
        },
{
    let (negative, rest) = take_sign(s);
    let nothing: Vec<char> = Vec::new();
    if rest.len() == 0 {
        return None;
    }
    assert(rest@ + nothing@ =~= rest@);
    let digits: Vec<u8> = match read_digits(&rest, &nothing) {
        Some(d) => d,
        None => {
            return None;
        },
    };
    let mut n: i128 = 0;
    let mut i: usize = 0;
    while i < digits.len()
        invariant
            i <= digits@.len(),
            are_digits(digits@),
            0 <= n < 11 * FAR,
            as_good_as(n as int, digits_value(digits@.take(i as int)) as int),
        decreases digits@.len() - i,
    {
        assert(digits@.take(i + 1).drop_last() =~= digits@.take(i as int));
        if n < FAR {
            n = n * 10 + digits[i] as i128;
        }
        i += 1;
    }
    assert(digits@.take(digits@.len() as int) =~= digits@);
    if negative {
        Some(-n)
    } else {
        Some(n)
    }
}

/// Whether `s` is the word `w`.
fn is_word(s: &Vec<char>, w: &[char]) -> (r: bool)
    ensures
        r == (s@ == w@),
{
    if s.len() != w.len() {
        return false;
    }
    let mut i: usize = 0;
    while i < s.len()
        invariant
            i <= s@.len(),
            s@.len() == w@.len(),
            forall|j: int| 0 <= j < i ==> s@[j] == w@[j],
        decreases s@.len() - i,
    {
        if s[i] != w[i] {
            return false;
        }
        i += 1;
    }
    assert(s@ =~= w@);
    true
}

/// The bytes in the number of units of `2^k` bytes that `text`, in upper case, spells.
pub fn bytes_of_number(text: &str, k: u32) -> (r: Option<u64>)
    requires
        k <= 40,
    ensures
        match r {
            Some(b) => number(text@) is Some && b == number_bytes(number(text@)->0, k as nat),
            None => number(text@) is None,
        },
{
    let (negative, rest) = take_sign(chars_of(text));
    let nan: [char; 3] = ['N', 'A', 'N'];
    let inf: [char; 3] = ['I', 'N', 'F'];
    let infinity: [char; 8] = ['I', 'N', 'F', 'I', 'N', 'I', 'T', 'Y'];
    assert(nan@ =~= seq!['N', 'A', 'N']);
    assert(inf@ =~= seq!['I', 'N', 'F']);
    assert(infinity@ =~= seq!['I', 'N', 'F', 'I', 'N', 'I', 'T', 'Y']);
    if is_word(&rest, &nan) {
        return Some(0);
    }
    if is_word(&rest, &inf) || is_word(&rest, &infinity) {
        return Some(
            if negative {
                0
            } else {
                0xffff_ffff_ffff_ffff
            },
        );
    }
    let (mantissa, power) = split_char(&rest, 'E');
    let (whole, behind) = split_char(&mantissa, '.');
    let frac: Vec<char> = match behind {
        Some(f) => f,
        None => Vec::new(),
    };
    let exponent: i128 = match power {
        Some(p) => match read_integer(p) {
            Some(n) => n,
            None => {
                return None;
            },
        },
        None => 0,
    };
    if whole.len() == 0 && frac.len() == 0 {
        return None;
    }
    match read_digits(&whole, &frac) {
        Some(digits) => {
            if negative {
                return Some(0);
            }
            let scale: i128 = exponent - frac.len() as i128;
            proof {
                let exact = number(text@)->0->exponent;
                if scale != exact {
                    lemma_far_exponents(digits@, scale as int, exact, k as nat);
                }
            }
            Some(decimal_bytes(&digits, scale, k))
        },
        None => None,
    }
}

/// The bytes that the size `s` stands for: a number and behind it one of the units `B`, `KB`,
/// `MB`, `GB` and `TB`, or none, in upper or lower case, with or without white space.
pub fn parse_size(s: &str) -> (r: Result<u64, String>)
    ensures
        match r {
            Ok(bytes) => size_bytes(uppercased(trimmed(s@))) == Some(bytes as nat),
            Err(message) => size_bytes(uppercased(trimmed(s@))) is None && message@
                == "Invalid size: "@ + uppercased(trimmed(s@)),
        },
        is_plain(trimmed(s@)) ==> uppercased(trimmed(s@)) == ascii_uppercased(trimmed(s@)),
{
    let upper: String = s.trim().to_uppercase();
    match bytes_of_size(upper.as_str()) {
        Some(bytes) => Ok(bytes),
        None => {
            let mut message = owned("Invalid size: ");
            message.append(upper.as_str());
            Err(message)
        },
    }
}

/// The bytes that the size `text`, in upper case and without white space around it, stands
/// for; `None` where it is no size.
pub fn bytes_of_size(text: &str) -> (r: Option<u64>)
    ensures
        match r {
            Some(bytes) => size_bytes(text@) == Some(bytes as nat),
            None => size_bytes(text@) is None,
        },
{
    let chars: Vec<char> = chars_of(text);
    let n: usize = chars.len();
    let mut end: usize = n;
    let mut k: u32 = 0;
    if n >= 1 && chars[n - 1] == 'B' {
        end = n - 1;
        if n >= 2 {
            let unit: char = chars[n - 2];
            if unit == 'T' {
                k = 40;
            } else if unit == 'G' {
                k = 30;
            } else if unit == 'M' {
                k = 20;
            } else if unit == 'K' {
                k = 10;
            }
            if k > 0 {
                end = n - 2;
            }
        }
    }
    let num: String = string_of(&chars, 0, end);
    assert(num@ =~= split_unit(text@).0);
    bytes_of_number(num.as_str().trim(), k)
}

/// `unit` is a unit of `2^k` bytes.
pub open spec fn is_unit(unit: Seq<char>, k: nat) -> bool {
    ||| unit == Seq::<char>::empty() && k == 0
    ||| unit == seq!['B'] && k == 0
    ||| unit == seq!['K', 'B'] && k == 10
    ||| unit == seq!['M', 'B'] && k == 20
    ||| unit == seq!['G', 'B'] && k == 30
    ||| unit == seq!['T', 'B'] && k == 40
}

/// A whole number up to `2^53` and a unit stand for exactly that many units, or for the
/// largest `u64` where they are more bytes than it holds.
pub proof fn law_whole_sizes_exact(digits: Seq<char>, unit: Seq<char>, k: nat)
    requires
        digits.len() > 0,
        all_digits(digits),
        digits_value(digit_values(digits)) <= 0x20_0000_0000_0000,
        is_unit(unit, k),
    ensures
        size_bytes(digits + unit) == Some(
            shifted(digits_value(digit_values(digits)), k as int),
        ),
{
    let n = digits.len();
    assert(is_digit(digits[0]) && is_digit(digits[n - 1]));
    lemma_not_a_word(digits);
    lemma_unit_apart(digits, unit, k);
    lemma_no_marks(digits);
    assert(digits + Seq::<char>::empty() =~= digits);
    let v = digits_value(digit_values(digits));
    assert(number(digits) == Some(
        Number::Finite { negative: false, mantissa: v, exponent: 0 },
    ));
    assert(v * 1 == v);
    assert(fraction(v, 0) == (v, 1nat));
    law_whole_numbers_exact(v, k);
}

/// White space around a size makes no difference.
pub proof fn law_space_around(before: Seq<char>, s: Seq<char>, after: Seq<char>)
    requires
        forall|i: int| 0 <= i < before.len() ==> is_white(before[i]),
        forall|i: int| 0 <= i < after.len() ==> is_white(after[i]),
    ensures
        trimmed(before + s + after) == trimmed(s),
    decreases before.len() + after.len(),
{
    if before.len() > 0 {
        let rest = before.skip(1);
        assert((before + s + after).skip(1) =~= rest + s + after);
        assert((before + s + after)[0] == before[0]);
        law_space_around(rest, s, after);
    } else if after.len() > 0 {
        let rest = after.drop_last();
        assert(before + s + after =~= (s + rest).push(after.last()));
        lemma_trim_last(s + rest, after.last());
        assert(before + s + rest =~= s + rest);
        law_space_around(before, s, rest);
    } else {
        assert(before + s + after =~= s);
    }
}

proof fn lemma_trim_last(s: Seq<char>, c: char)
    requires
        is_white(c),
    ensures
        trimmed(s.push(c)) == trimmed(s),
    decreases s.len(),
{
    let t = s.push(c);
    if s.len() == 0 {
        assert(t.skip(1) =~= s);
    } else if is_white(s[0]) {
        assert(t.skip(1) =~= s.skip(1).push(c));
        lemma_trim_last(s.skip(1), c);
    } else {
        assert(t.drop_last() =~= s);
    }
}

/// The case of letters makes no difference: texts that differ in it only are the same in upper
/// case, with the white space around them taken off.
pub proof fn law_letter_case(s: Seq<char>, t: Seq<char>)
    requires
        ascii_uppercased(s) == ascii_uppercased(t),
    ensures
        ascii_uppercased(trimmed(s)) == ascii_uppercased(trimmed(t)),
    decreases s.len(),
{
    assert(s.len() == ascii_uppercased(s).len());
    assert(t.len() == ascii_uppercased(t).len());
    assert forall|i: int| 0 <= i < s.len() implies is_white(#[trigger] s[i]) == is_white(t[i]) by {
        assert(ascii_uppercased(s)[i] == ascii_upper(s[i]));
        assert(ascii_uppercased(t)[i] == ascii_upper(t[i]));
    }
    if s.len() > 0 {
        assert(is_white(s[0]) == is_white(t[0]));
        assert(is_white(s[s.len() - 1]) == is_white(t[t.len() - 1]));
        if is_white(s[0]) {
            assert(ascii_uppercased(s.skip(1)) =~= ascii_uppercased(s).skip(1));
            assert(ascii_uppercased(t.skip(1)) =~= ascii_uppercased(t).skip(1));
            law_letter_case(s.skip(1), t.skip(1));
        } else if is_white(s.last()) {
            assert(ascii_uppercased(s.drop_last()) =~= ascii_uppercased(s).drop_last());
            assert(ascii_uppercased(t.drop_last()) =~= ascii_uppercased(t).drop_last());
            law_letter_case(s.drop_last(), t.drop_last());
        }
    }
}

/// White space between the number and its unit makes no difference, unless the number ends in a
/// letter that makes another unit of the `B` behind it.
pub proof fn law_space_between(num: Seq<char>, space: Seq<char>, unit: Seq<char>, k: nat)
    requires
        is_unit(unit, k),
        unit.len() > 0,
        forall|i: int| 0 <= i < space.len() ==> is_white(space[i]),
        unit == seq!['B'] ==> split_unit(num + unit).1 == 0,
    ensures
        size_bytes(num + space + unit) == size_bytes(num + unit),
{
    let close = num + unit;
    let apart = num + space + unit;
    assert(split_unit(close).0 =~= num && split_unit(close).1 == k);
    let before = num + space;
    if before.len() > 0 && space.len() > 0 {
        assert(is_white(space[space.len() - 1]));
        assert(before.last() == space[space.len() - 1]);
    } else {
        assert(before =~= num);
    }
    assert(split_unit(apart).0 =~= before && split_unit(apart).1 == k) by {
        if unit == seq!['B'] && before.len() > 0 {
            assert(apart[apart.len() - 2] == before.last());
            if space.len() == 0 {
                assert(apart =~= close);
            }
        }
    }
    law_space_around(Seq::empty(), num, space);
    assert(Seq::<char>::empty() + num + space =~= before);
}

/// A whole number up to `2^53` and a unit stand for exactly that many units however the size is
/// written: in upper or lower case, and with white space around it and between the number and
/// the unit.
pub proof fn law_sizes_as_written(
    before: Seq<char>,
    digits: Seq<char>,
    between: Seq<char>,
    unit: Seq<char>,
    after: Seq<char>,
    k: nat,
)
    requires
        forall|i: int| 0 <= i < before.len() ==> is_white(before[i]),
        forall|i: int| 0 <= i < between.len() ==> is_white(between[i]),
        forall|i: int| 0 <= i < after.len() ==> is_white(after[i]),
        digits.len() > 0,
        all_digits(digits),
        digits_value(digit_values(digits)) <= 0x20_0000_0000_0000,
        is_unit(ascii_uppercased(unit), k),
    ensures
        ({
            let text = trimmed(before + (digits + between + unit) + after);
            &&& is_plain(text)
            &&& size_bytes(ascii_uppercased(text)) == Some(
                shifted(digits_value(digit_values(digits)), k as int),
            )
        }),
{
    let core = digits + between + unit;
    let upper = ascii_uppercased(unit);
    law_space_around(before, core, after);
    assert(upper.len() == unit.len());
    assert(is_digit(digits[0]) && is_digit(digits[digits.len() - 1]));
    assert forall|i: int| 0 <= i < digits.len() implies ascii_upper(digits[i]) == digits[i] by {
        assert(is_digit(digits[i]));
    }
    assert forall|i: int| 0 <= i < unit.len() implies 'A' <= #[trigger] upper[i] <= 'Z' by {
        assert(upper[i] == 'B' || upper[i] == 'K' || upper[i] == 'M' || upper[i] == 'G' || upper[i]
            == 'T');
    }
    assert forall|i: int| 0 <= i < unit.len() implies #[trigger] unit[i] <= 'z' && !is_white(
        unit[i],
    ) by {
        assert(upper[i] == ascii_upper(unit[i]));
    }
    assert(trimmed(digits) == digits);
    law_whole_sizes_exact(digits, upper, k);
    if unit.len() == 0 {
        law_space_around(Seq::empty(), digits, between);
        assert(Seq::<char>::empty() + digits + between =~= core);
        assert(ascii_uppercased(digits) =~= digits);
        assert(digits + upper =~= digits);
        assert(is_plain(digits)) by {
            assert forall|i: int| 0 <= i < digits.len() implies (#[trigger] digits[i]) <= '\u{7f}' by {
                assert(is_digit(digits[i]));
            }
        }
    } else {
        assert(core[0] == digits[0]);
        assert(core.last() == unit[unit.len() - 1]);
        assert(trimmed(core) == core);
        assert(ascii_uppercased(core) =~= digits + between + upper) by {
            assert forall|i: int| 0 <= i < core.len() implies #[trigger] ascii_uppercased(core)[i] == (
            digits + between + upper)[i] by {
                if digits.len() <= i < digits.len() + between.len() {
                    assert(is_white(between[i - digits.len()]));
                }
            }
        }
        assert(split_unit(digits + upper).1 == 0 || upper != seq!['B']) by {
            let s = digits + upper;
            if upper == seq!['B'] {
                assert(s[s.len() - 2] == digits[digits.len() - 1]);
            }
        }
        law_space_between(digits, between, upper, k);
        assert(is_plain(core)) by {
            assert forall|i: int| 0 <= i < core.len() implies (#[trigger] core[i]) <= '\u{7f}'
                || is_white(core[i]) by {
                if i < digits.len() {
                    assert(is_digit(digits[i]));
                } else if i < digits.len() + between.len() {
                    assert(core[i] == between[i - digits.len()]);
                } else {
                    assert(core[i] == unit[i - digits.len() - between.len()]);
                }
            }
        }
    }
}

/// Behind a number that has no letters of a unit at its end stands its unit.
proof fn lemma_unit_apart(num: Seq<char>, unit: Seq<char>, k: nat)
    requires
        is_unit(unit, k),
        num.len() > 0,
        num.last() != 'B' && num.last() != 'K' && num.last() != 'M' && num.last() != 'G'
            && num.last() != 'T',
        !is_white(num[0]),
        !is_white(num.last()),
    ensures
        size_bytes(num + unit) == (match number(num) {
            Some(n) => Some(number_bytes(n, k)),
            None => None,
        }),
{
    let s = num + unit;
    let n = num.len();
    assert(s[n - 1] == num.last());
    assert(split_unit(s).0 =~= num && split_unit(s).1 == k);
    assert(trimmed(num) == num);
}

/// A number with a point, or with a power of ten behind an `E`, or with both, counts as it reads:
/// the digits around the point as one number, moved by the digits behind the point and by the
/// power.
pub proof fn law_points_and_powers(
    whole: Seq<char>,
    frac: Seq<char>,
    power: Seq<char>,
    unit: Seq<char>,
    k: nat,
)
    requires
        all_digits(whole),
        all_digits(frac),
        whole.len() + frac.len() > 0,
        all_digits(power),
        power.len() > 0,
        is_unit(unit, k),
    ensures
        ({
            let m = digits_value(digit_values(whole + frac));
            let d = frac.len();
            let p = digits_value(digit_values(power));
            let plain = fraction(m, -(d as int));
            let up = fraction(m, p - d);
            let down = fraction(m, -p - d);
            let point = whole + seq!['.'] + frac;
            &&& size_bytes(point + unit) == Some(double_bytes(plain.0, plain.1, k))
            &&& size_bytes(point + seq!['E'] + power + unit) == Some(double_bytes(up.0, up.1, k))
            &&& size_bytes(point + seq!['E', '+'] + power + unit) == Some(
                double_bytes(up.0, up.1, k),
            )
            &&& size_bytes(point + seq!['E', '-'] + power + unit) == Some(
                double_bytes(down.0, down.1, k),
            )
        }),
{
    let point = whole + seq!['.'] + frac;
    let e = seq!['E'];
    lemma_point(whole, frac);
    assert(point[0] == '.' || is_digit(point[0])) by {
        if whole.len() > 0 {
            assert(is_digit(whole[0]));
        }
    }
    assert(point.last() == '.' || is_digit(point.last())) by {
        if frac.len() > 0 {
            assert(is_digit(frac[frac.len() - 1]));
            assert(point.last() == frac[frac.len() - 1]);
        }
    }
    point.index_of_first_ensures('E');
    assert(split_at_char(point, 'E') == (point, None::<Seq<char>>)) by {
        assert(!point.contains('E'));
    }
    lemma_unit_apart(point, unit, k);
    lemma_not_a_word(point);
    lemma_power(point, power);
    let a = point + e + power;
    lemma_not_a_word(a);
    assert(is_digit(power[power.len() - 1]));
    assert(a.last() == power[power.len() - 1] && a[0] == point[0]);
    lemma_unit_apart(a, unit, k);
    let b = point + seq!['E', '+'] + power;
    lemma_power(point, seq!['+'] + power);
    assert(b =~= point + e + (seq!['+'] + power));
    assert((seq!['+'] + power).skip(1) =~= power);
    lemma_not_a_word(b);
    assert(b.last() == power[power.len() - 1] && b[0] == point[0]);
    lemma_unit_apart(b, unit, k);
    let c = point + seq!['E', '-'] + power;
    lemma_power(point, seq!['-'] + power);
    assert(c =~= point + e + (seq!['-'] + power));
    assert((seq!['-'] + power).skip(1) =~= power);
    lemma_not_a_word(c);
    assert(c.last() == power[power.len() - 1] && c[0] == point[0]);
    lemma_unit_apart(c, unit, k);
    assert(is_digit(power[0]));
    assert(split_sign(power) == (false, power));
}

/// What starts with a digit or a point has no sign and is none of the words for numbers.
proof fn lemma_not_a_word(s: Seq<char>)
    requires
        s.len() > 0,
        s[0] == '.' || is_digit(s[0]),
    ensures
        split_sign(s) == (false, s),
        number(s) == unsigned_number(s, false),
{
    assert(seq!['N', 'A', 'N'][0] == 'N');
    assert(seq!['I', 'N', 'F'][0] == 'I');
    assert(seq!['I', 'N', 'F', 'I', 'N', 'I', 'T', 'Y'][0] == 'I');
}

proof fn lemma_point(whole: Seq<char>, frac: Seq<char>)
    requires
        all_digits(whole),
        all_digits(frac),
    ensures
        ({
            let point = whole + seq!['.'] + frac;
            &&& split_at_char(point, '.') == (whole, Some(frac))
            &&& all_digits(whole + frac)
            &&& !point.contains('E')
        }),
{
    let point = whole + seq!['.'] + frac;
    point.index_of_first_ensures('.');
    assert(point[whole.len() as int] == '.');
    let i = point.index_of_first('.')->0;
    assert(point.contains('.'));
    if i < whole.len() {
        assert(point[i] == whole[i]);
        assert(is_digit(whole[i]));
    }
    assert(i == whole.len());
    assert(point.take(i) =~= whole);
    assert(point.skip(i + 1) =~= frac);
    assert forall|j: int| 0 <= j < (whole + frac).len() implies is_digit((whole + frac)[j]) by {
        if j < whole.len() {
            assert(is_digit(whole[j]));
        } else {
            assert(is_digit(frac[j - whole.len()]));
        }
    }
    assert forall|j: int| 0 <= j < point.len() implies point[j] != 'E' by {
        if j < whole.len() {
            assert(is_digit(whole[j]));
        } else if j > whole.len() {
            assert(is_digit(frac[j - whole.len() - 1]));
        }
    }
}

proof fn lemma_power(point: Seq<char>, power: Seq<char>)
    requires
        !point.contains('E'),
    ensures
        split_at_char(point + seq!['E'] + power, 'E') == (point, Some(power)),
{
    let s = point + seq!['E'] + power;
    s.index_of_first_ensures('E');
    assert(s[point.len() as int] == 'E');
    assert(s.contains('E'));
    let i = s.index_of_first('E')->0;
    if i < point.len() {
        assert(point[i] == 'E');
    }
    assert(s.take(i) =~= point);
    assert(s.skip(i + 1) =~= power);
}

/// Digits alone have neither a point nor a power of ten among them.
proof fn lemma_no_marks(digits: Seq<char>)
    requires
        all_digits(digits),
    ensures
        split_at_char(digits, 'E') == (digits, None::<Seq<char>>),
        split_at_char(digits, '.') == (digits, None::<Seq<char>>),
{
    digits.index_of_first_ensures('E');
    digits.index_of_first_ensures('.');
    if digits.contains('E') {
        let i = choose|i: int| 0 <= i < digits.len() && digits[i] == 'E';
        assert(is_digit(digits[i]));
    }
    if digits.contains('.') {
        let i = choose|i: int| 0 <= i < digits.len() && digits[i] == '.';
        assert(is_digit(digits[i]));
    }
}

/// A number below zero makes no bytes, and a plus sign makes no difference.
pub proof fn law_signs(digits: Seq<char>, unit: Seq<char>, k: nat)
    requires
        digits.len() > 0,
        all_digits(digits),
        is_unit(unit, k),
    ensures
        size_bytes(seq!['-'] + digits + unit) == Some(0nat),
        size_bytes(seq!['+'] + digits + unit) == size_bytes(digits + unit),
{
    let minus = seq!['-'] + digits;
    let plus = seq!['+'] + digits;
    assert(is_digit(digits[0]) && is_digit(digits[digits.len() - 1]));
    assert(minus.last() == digits[digits.len() - 1] && plus.last() == digits[digits.len() - 1]);
    assert(minus.skip(1) =~= digits);
    assert(plus.skip(1) =~= digits);
    lemma_not_a_word(digits);
    lemma_unit_apart(minus, unit, k);
    lemma_unit_apart(plus, unit, k);
    lemma_unit_apart(digits, unit, k);
    lemma_no_marks(digits);
    assert(digits + Seq::<char>::empty() =~= digits);
}

/// The words for numbers count as such: an infinite size is the largest there is, and one below
/// zero, or that is no number, makes no bytes.
pub proof fn law_words_for_numbers(unit: Seq<char>, k: nat)
    requires
        is_unit(unit, k),
    ensures
        size_bytes(seq!['N', 'A', 'N'] + unit) == Some(0nat),
        size_bytes(seq!['I', 'N', 'F'] + unit) == Some(u64::MAX as nat),
        size_bytes(seq!['I', 'N', 'F', 'I', 'N', 'I', 'T', 'Y'] + unit) == Some(u64::MAX as nat),
        size_bytes(seq!['-', 'I', 'N', 'F'] + unit) == Some(0nat),
{
    let nan = seq!['N', 'A', 'N'];
    let inf = seq!['I', 'N', 'F'];
    let infinity = seq!['I', 'N', 'F', 'I', 'N', 'I', 'T', 'Y'];
    let minus = seq!['-', 'I', 'N', 'F'];
    assert(minus.skip(1) =~= inf);
    assert(nan[0] != inf[0]);
    assert(nan[0] != infinity[0]);
    lemma_unit_apart(nan, unit, k);
    lemma_unit_apart(inf, unit, k);
    lemma_unit_apart(infinity, unit, k);
    lemma_unit_apart(minus, unit, k);
}

/// A text with a character that no number has, or with two points, or with nothing but a unit, is
/// no size.
pub proof fn law_no_number_no_size(num: Seq<char>, unit: Seq<char>, k: nat, i: int, j: int)
    requires
        is_unit(unit, k),
        0 <= i < num.len(),
        num[0] == '.' || is_digit(num[0]),
        num.last() != 'B' && num.last() != 'K' && num.last() != 'M' && num.last() != 'G'
            && num.last() != 'T',
        !is_white(num.last()),
        ({
            let c = num[i];
            ||| !is_digit(c) && c != '.' && c != 'E' && c != '+' && c != '-'
            ||| c == '.' && 0 <= j < i && num[j] == '.'
        }),
    ensures
        size_bytes(num + unit) is None,
{
    lemma_not_a_word(num);
    lemma_unit_apart(num, unit, k);
    num.index_of_first_ensures('E');
    let (mantissa, power) = split_at_char(num, 'E');
    if power is Some && i > mantissa.len() {
        let p = power->0;
        let at = i - mantissa.len() - 1;
        assert(p[at] == num[i]);
        let (negative, digits) = split_sign(p);
        if digits.len() < p.len() {
            assert(at > 0);
            assert(digits[at - 1] == num[i]);
        } else {
            assert(digits[at] == num[i]);
        }
        assert(!all_digits(digits));
        assert(integer(p) is None);
    } else {
        assert(i < mantissa.len());
        assert(mantissa[i] == num[i]);
        mantissa.index_of_first_ensures('.');
        let (whole, behind) = split_at_char(mantissa, '.');
        if num[i] == '.' {
            assert(mantissa[j] == '.');
            assert(mantissa.contains('.'));
        }
        if behind is Some {
            let frac = behind->0;
            let all = whole + frac;
            if i < whole.len() {
                assert(all[i] == num[i]);
            } else {
                assert(i != whole.len());
                assert(frac[i - whole.len() - 1] == num[i]);
                assert(all[i - 1] == num[i]);
            }
            assert(!all_digits(all));
        } else {
            let all = whole + Seq::<char>::empty();
            assert(all[i] == num[i]);
            assert(!all_digits(all));
        }
    }
}

/// A unit alone, or nothing, is no size.
pub proof fn law_unit_alone_is_no_size(unit: Seq<char>, k: nat)
    requires
        is_unit(unit, k),
    ensures
        size_bytes(unit) is None,
{
    let none = Seq::<char>::empty();
    assert(split_unit(unit).0 =~= none);
    assert(trimmed(none) == none);
    assert(split_sign(none) == (false, none));
    assert(seq!['N', 'A', 'N'].len() == 3);
    assert(seq!['I', 'N', 'F'].len() == 3);
    assert(seq!['I', 'N', 'F', 'I', 'N', 'I', 'T', 'Y'].len() == 8);
    none.index_of_first_ensures('E');
    none.index_of_first_ensures('.');
    assert(!none.contains('E') && !none.contains('.'));
    assert(none + none =~= none);
}

/// A number of bytes up to `2^53` reads as itself when it is written in decimal.
pub proof fn law_bytes_read_back(n: nat)
    requires
        n <= 0x20_0000_0000_0000,
    ensures
        size_bytes(decimal(n)) == Some(n),
{
    lemma_decimal_value(n);
    law_whole_sizes_exact(decimal(n), Seq::empty(), 0);
    assert(decimal(n) + Seq::<char>::empty() =~= decimal(n));
    vstd::arithmetic::power2::lemma2_to64();
    assert(n * 1 == n);
}

proof fn lemma_decimal_value(n: nat)
    ensures
        decimal(n).len() > 0,
        all_digits(decimal(n)),
        digits_value(digit_values(decimal(n))) == n,
    decreases n,
{
    let values = digit_values(decimal(n));
    if n >= 10 {
        lemma_decimal_value(n / 10);
        let rest = decimal(n / 10);
        assert(decimal(n).drop_last() =~= rest);
        assert(values.drop_last() =~= digit_values(rest));
        assert(values.last() == n % 10);
        assert forall|i: int| 0 <= i < decimal(n).len() implies is_digit(decimal(n)[i]) by {
            if i < rest.len() {
                assert(is_digit(rest[i]));
            }
        }
    } else {
        assert(values.drop_last() =~= Seq::<u8>::empty());
        assert(digits_value(values.drop_last()) == 0);
        assert(values.last() == n);
    }
}

} // verus!
