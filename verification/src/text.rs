//! Strings as sequences of characters.

use vstd::prelude::*;
use vstd::string::StringExecFns;
use vstd::utf8::{decode_first_scalar, encode_scalar, encode_utf8, encode_utf8_first_scalar};

verus! {

/// `String::push` puts a character at the end.
pub assume_specification[ String::push ](s: &mut String, c: char)
    ensures
        final(s)@ == old(s)@.push(c),
;

/// The characters of an optional string.
pub open spec fn text_of(s: Option<String>) -> Option<Seq<char>> {
    match s {
        Some(t) => Some(t@),
        None => None,
    }
}

/// The characters of `s`, in order.
pub fn chars_of(s: &str) -> (r: Vec<char>)
    ensures
        r@ == s@,
{
    let mut out: Vec<char> = Vec::new();
    for c in it: s.chars()
        invariant
            out@ == it.seq().take(it.index()),
            it.seq() == s@,
    {
        out.push(c);
    }
    out
}

/// The string of the characters `chars[from..to]`.
pub fn string_of(chars: &Vec<char>, from: usize, to: usize) -> (r: String)
    requires
        from <= to <= chars@.len(),
    ensures
        r@ == chars@.subrange(from as int, to as int),
{
    let mut out = String::new();
    let mut i: usize = from;
    while i < to
        invariant
            from <= i <= to <= chars@.len(),
            out@ =~= chars@.subrange(from as int, i as int),
        decreases to - i,
    {
        out.push(chars[i]);
        i += 1;
    }
    out
}

/// The string that holds `s`.
pub fn owned(s: &str) -> (r: String)
    ensures
        r@ == s@,
{
    s.to_owned()
}

/// The UTF-8 form of a concatenation is the concatenation of the UTF-8 forms.
pub proof fn lemma_encode_concat(a: Seq<char>, b: Seq<char>)
    ensures
        encode_utf8(a + b) == encode_utf8(a) + encode_utf8(b),
    decreases a.len(),
{
    if a.len() == 0 {
        assert(a + b =~= b);
        assert(encode_utf8(a) =~= Seq::<u8>::empty());
    } else {
        assert((a + b).drop_first() =~= a.drop_first() + b);
        lemma_encode_concat(a.drop_first(), b);
        assert(encode_utf8(a + b) =~= encode_utf8(a) + encode_utf8(b));
    }
}

/// The UTF-8 form of one text starts with that of another just where the text itself does.
proof fn lemma_prefix_bytes(prefix: Seq<char>, s: Seq<char>)
    ensures
        encode_utf8(prefix).is_prefix_of(encode_utf8(s)) == prefix.is_prefix_of(s),
    decreases prefix.len(),
{
    let a = encode_utf8(prefix);
    let b = encode_utf8(s);
    if prefix.is_prefix_of(s) {
        let rest = s.skip(prefix.len() as int);
        assert(s =~= prefix + rest);
        lemma_encode_concat(prefix, rest);
        assert(a =~= b.subrange(0, a.len() as int));
    } else if a.is_prefix_of(b) && prefix.len() > 0 {
        encode_utf8_first_scalar(prefix);
        if s.len() == 0 {
            assert(false);
        }
        encode_utf8_first_scalar(s);
        assert forall|i: int| 0 <= i < a.len() implies a[i] == b[i] by {
            assert(a[i] == b.subrange(0, a.len() as int)[i]);
        }
        assert(decode_first_scalar(a) == decode_first_scalar(b));
        vstd::utf8::char_u32_cast(prefix[0], prefix[0] as u32);
        vstd::utf8::char_u32_cast(s[0], s[0] as u32);
        assert(prefix[0] == s[0]);
        let head = encode_scalar(s[0] as u32);
        let x = encode_utf8(prefix.drop_first());
        let y = encode_utf8(s.drop_first());
        assert(a == head + x);
        assert(b == head + y);
        assert forall|i: int| 0 <= i < x.len() implies x[i] == y[i] by {
            assert(x[i] == a[head.len() + i]);
            assert(y[i] == b[head.len() + i]);
        }
        assert(x =~= y.subrange(0, x.len() as int));
        lemma_prefix_bytes(prefix.drop_first(), s.drop_first());
        assert(prefix =~= s.subrange(0, prefix.len() as int)) by {
            let p1 = prefix.drop_first();
            let s1 = s.drop_first();
            assert forall|i: int| 0 <= i < prefix.len() implies prefix[i] == s[i] by {
                if i > 0 {
                    assert(p1[i - 1] == s1.subrange(0, p1.len() as int)[i - 1]);
                }
            }
        }
    } else if prefix.len() == 0 {
        assert(prefix =~= s.subrange(0, 0));
    }
}

/// Whether `s` starts with `prefix`.
pub fn starts_with(s: &str, prefix: &str) -> (r: bool)
    ensures
        r == prefix@.is_prefix_of(s@),
{
    let a: &[u8] = s.as_bytes();
    let b: &[u8] = prefix.as_bytes();
    proof {
        lemma_prefix_bytes(prefix@, s@);
    }
    if b.len() > a.len() {
        return false;
    }
    let mut i: usize = 0;
    while i < b.len()
        invariant
            i <= b@.len() <= a@.len(),
            forall|j: int| 0 <= j < i ==> a@[j] == b@[j],
            a@ == encode_utf8(s@),
            b@ == encode_utf8(prefix@),
            b@.is_prefix_of(a@) == prefix@.is_prefix_of(s@),
        decreases b@.len() - i,
    {
        if a[i] != b[i] {
            assert(b@[i as int] != a@.subrange(0, b@.len() as int)[i as int]);
            return false;
        }
        i += 1;
    }
    assert(b@ =~= a@.subrange(0, b@.len() as int));
    true
}

/// Whether the two texts are the same.
pub fn same_text(a: &str, b: &str) -> (r: bool)
    ensures
        r == (a@ == b@),
{
    let r: bool = starts_with(a, b) && starts_with(b, a);
    proof {
        assert(a@ =~= a@.subrange(0, a@.len() as int));
        if r {
            assert(a@ =~= b@.subrange(0, a@.len() as int));
            assert(a@ =~= b@);
        }
    }
    r
}

/// The digit `d`.
pub open spec fn digit(d: nat) -> char {
    (48 + d) as char
}

/// `n` in decimal.
pub open spec fn decimal(n: nat) -> Seq<char>
    decreases n,
{
    if n < 10 {
        seq![digit(n)]
    } else {
        decimal(n / 10).push(digit(n % 10))
    }
}

/// Writes `n` in decimal behind `out`.
pub fn push_decimal(out: &mut String, n: u64)
    ensures
        final(out)@ == old(out)@ + decimal(n as nat),
    decreases n,
{
    let ghost before = out@;
    if n >= 10 {
        push_decimal(out, n / 10);
    }
    let d: u8 = (n % 10) as u8;
    out.push((48 + d) as char);
    assert(out@ =~= before + decimal(n as nat));
}

/// `s` with spaces in front, up to `width` characters.
pub open spec fn padded(s: Seq<char>, width: nat) -> Seq<char> {
    if s.len() >= width {
        s
    } else {
        Seq::new((width - s.len()) as nat, |i: int| ' ') + s
    }
}

/// `s` aligned to the right in `width` characters; unchanged where it is that long already.
pub fn pad_left(s: &str, width: usize) -> (r: String)
    ensures
        r@ == padded(s@, width as nat),
{
    let len: usize = chars_of(s).len();
    let mut out = String::new();
    let mut i: usize = len;
    while i < width
        invariant
            len == s@.len(),
            i == len || i <= width,
            len <= i,
            out@ =~= Seq::new((i - len) as nat, |j: int| ' '),
        decreases width - i,
    {
        out.push(' ');
        i += 1;
    }
    out.append(s);
    assert(out@ =~= padded(s@, width as nat));
    out
}

/// What stands in `s` before the first `stop`.
pub open spec fn run_before<T>(s: Seq<T>, stop: T) -> Seq<T>
    decreases s.len(),
{
    if s.len() == 0 || s[0] == stop {
        Seq::empty()
    } else {
        seq![s[0]] + run_before(s.skip(1), stop)
    }
}

/// A part at the front of `s` without `stop`, at the end of `s` or of a `stop`, is all that
/// stands before the first `stop`.
pub proof fn lemma_run_before<T>(s: Seq<T>, stop: T, n: int)
    requires
        0 <= n <= s.len(),
        forall|i: int| 0 <= i < n ==> s[i] != stop,
        n == s.len() || s[n] == stop,
    ensures
        run_before(s, stop) == s.take(n),
    decreases s.len(),
{
    if n > 0 {
        lemma_run_before(s.skip(1), stop, n - 1);
        assert(s.take(n) =~= seq![s[0]] + s.skip(1).take(n - 1));
    } else {
        assert(s.take(0) =~= Seq::<T>::empty());
    }
}

/// How many bytes stand before the first that is 0.
pub fn run_length(s: &[u8]) -> (r: usize)
    ensures
        r <= s@.len(),
        s@.take(r as int) == run_before(s@, 0u8),
{
    let mut i: usize = 0;
    while i < s.len() && s[i] != 0
        invariant
            i <= s@.len(),
            forall|j: int| 0 <= j < i ==> s@[j] != 0,
        decreases s@.len() - i,
    {
        i += 1;
    }
    proof {
        lemma_run_before(s@, 0u8, i as int);
    }
    i
}

/// Padding puts nothing but spaces in front of a text, as many as it lacks.
pub proof fn law_padding_is_blank(s: Seq<char>, width: nat)
    ensures
        padded(s, width).len() == (if s.len() < width {
            width
        } else {
            s.len()
        }),
        padded(s, width).skip(padded(s, width).len() - s.len()) == s,
        forall|i: int| 0 <= i < padded(s, width).len() - s.len() ==> padded(s, width)[i] == ' ',
{
}

/// What a text of decimal digits stands for.
pub open spec fn digits_value(s: Seq<char>) -> int
    decreases s.len(),
{
    if s.len() == 0 {
        0
    } else {
        10 * digits_value(s.drop_last()) + (s.last() as int - '0' as int)
    }
}

/// A number in decimal has digits only, none too many, and reads as the number again.
pub proof fn law_decimal_reads_back(n: nat)
    ensures
        decimal(n).len() > 0,
        forall|i: int| 0 <= i < decimal(n).len() ==> '0' <= #[trigger] decimal(n)[i] <= '9',
        digits_value(decimal(n)) == n,
        n > 0 ==> decimal(n)[0] != '0',
    decreases n,
{
    if n >= 10 {
        law_decimal_reads_back(n / 10);
        assert(decimal(n).drop_last() =~= decimal(n / 10));
    } else {
        assert(decimal(n).drop_last() =~= Seq::<char>::empty());
        assert(digits_value(decimal(n).drop_last()) == 0);
    }
}

/// What stands before the first `stop` is the front of the whole, up to the first `stop` or to
/// the end.
pub proof fn law_run_before<T>(s: Seq<T>, stop: T)
    ensures
        run_before(s, stop).len() <= s.len(),
        run_before(s, stop) == s.take(run_before(s, stop).len() as int),
        forall|i: int| 0 <= i < run_before(s, stop).len() ==> #[trigger] s[i] != stop,
        run_before(s, stop).len() < s.len() ==> s[run_before(s, stop).len() as int] == stop,
    decreases s.len(),
{
    if s.len() > 0 && s[0] != stop {
        let rest = s.skip(1);
        law_run_before(rest, stop);
        let n = run_before(rest, stop).len() as int;
        assert(run_before(s, stop) =~= s.take(n + 1));
        assert forall|i: int| 0 <= i < n + 1 implies #[trigger] s[i] != stop by {
            if i > 0 {
                assert(rest[i - 1] != stop);
            }
        }
    } else {
        assert(run_before(s, stop) =~= s.take(0));
    }
}

} // verus!
