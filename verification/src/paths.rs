//! Paths as the interface shows them.

use vstd::prelude::*;
use vstd::string::StringExecFns;
use vstd::utf8::{decode_utf8, encode_utf8, is_char_boundary};

use crate::text::{chars_of, lemma_encode_concat, owned, starts_with, string_of};

verus! {

/// `path` with a leading home directory written `~`.
pub open spec fn shortened(path: Seq<char>, home: Option<Seq<char>>) -> Seq<char> {
    match home {
        Some(h) if h.is_prefix_of(path) => "~"@ + path.skip(h.len() as int),
        _ => path,
    }
}

/// The characters of an optional string.
pub open spec fn optional_text(s: Option<&str>) -> Option<Seq<char>> {
    match s {
        Some(t) => Some(t@),
        None => None,
    }
}

/// `path` with the home directory at its start, where there is one and `path` starts with it,
/// replaced by `~`.
pub fn shorten_path(path: &str, home: Option<&str>) -> (r: String)
    ensures
        r@ == shortened(path@, optional_text(home)),
{
    if let Some(h) = home {
        if starts_with(path, h) {
            let chars: Vec<char> = chars_of(path);
            let from: usize = chars_of(h).len();
            let mut out = owned("~");
            out.append(string_of(&chars, from, chars.len()).as_str());
            assert(out@ =~= shortened(path@, optional_text(home)));
            return out;
        }
    }
    owned(path)
}

/// Where `text` has to be cut so that the rest and three dots take `width` bytes in UTF-8.
pub open spec fn cut_at(text: Seq<char>, width: nat) -> int {
    encode_utf8(text).len() - (width - 3)
}

/// Whether `text` fits into `width` bytes as it is or can be cut to them between characters.
pub open spec fn cuts_cleanly(text: Seq<char>, width: nat) -> bool {
    encode_utf8(text).len() > width && width > 3 ==> is_char_boundary(
        encode_utf8(text),
        cut_at(text, width),
    )
}

/// `text` where it fits into `width` bytes, otherwise dots and as much of its end as does.
pub open spec fn clipped(text: Seq<char>, width: nat) -> Seq<char> {
    if encode_utf8(text).len() <= width {
        text
    } else if width <= 3 {
        "..."@
    } else {
        "..."@ + decode_utf8(encode_utf8(text).skip(cut_at(text, width)))
    }
}

/// The shortened `path`, clipped to `max_width` bytes; `None` where the cut would fall inside
/// a character.
pub fn try_truncate_path(path: &str, max_width: usize, home: Option<&str>) -> (r: Option<String>)
    ensures
        ({
            let text = shortened(path@, optional_text(home));
            match r {
                Some(s) => cuts_cleanly(text, max_width as nat) && s@ == clipped(
                    text,
                    max_width as nat,
                ),
                None => !cuts_cleanly(text, max_width as nat),
            }
        }),
{
    let short: String = shorten_path(path, home);
    let len: usize = short.as_str().as_bytes().len();
    if len <= max_width {
        return Some(short);
    }
    if max_width <= 3 {
        return Some(owned("..."));
    }
    let cut: usize = len - (max_width - 3);
    let text: &str = short.as_str();
    if !text.is_char_boundary(cut) {
        return None;
    }
    let tail: &str = text.split_at(cut).1;
    let mut out = owned("...");
    out.append(tail);
    proof {
        vstd::utf8::encode_utf8_decode_utf8(tail@);
        assert(encode_utf8(text@).skip(cut as int) =~= encode_utf8(text@).subrange(
            cut as int,
            len as int,
        ));
    }
    Some(out)
}

/// The shortened `path`, clipped to `max_width` bytes.
pub fn truncate_path(path: &str, max_width: usize, home: Option<&str>) -> (r: String)
    requires
        cuts_cleanly(shortened(path@, optional_text(home)), max_width as nat),
    ensures
        r@ == clipped(shortened(path@, optional_text(home)), max_width as nat),
{
    match try_truncate_path(path, max_width, home) {
        Some(s) => s,
        None => {
            assert(false);
            String::new()
        },
    }
}

/// The path of `name` in the directory `dir`.
pub open spec fn joined(dir: Seq<char>, name: Seq<char>, separator: char) -> Seq<char> {
    if dir.len() == 0 || dir.last() == separator {
        dir + name
    } else {
        dir.push(separator) + name
    }
}

/// The path of `name` in `dir`: with a separator between them, unless `dir` ends with one.
pub fn join_path(dir: &str, name: &str, separator: char) -> (r: String)
    ensures
        r@ == joined(dir@, name@, separator),
{
    let chars: Vec<char> = chars_of(dir);
    let mut out = owned(dir);
    if chars.len() > 0 && chars[chars.len() - 1] != separator {
        out.push(separator);
    }
    out.append(name);
    out
}

/// A path that fits is shown whole, and one that does not never takes more bytes than the
/// width, or the three dots where the width is smaller.
pub proof fn law_clipped_fits(text: Seq<char>, width: nat)
    requires
        cuts_cleanly(text, width),
    ensures
        encode_utf8(clipped(text, width)).len() <= (if width < 3 {
            3
        } else {
            width
        }),
        encode_utf8(text).len() <= width ==> clipped(text, width) == text,
{
    reveal_strlit("...");
    let dots = "..."@;
    vstd::utf8::is_ascii_chars_encode_utf8(dots);
    if encode_utf8(text).len() > width && width > 3 {
        let bytes = encode_utf8(text);
        let cut = cut_at(text, width);
        let tail = bytes.skip(cut);
        vstd::utf8::encode_utf8_valid_utf8(text);
        vstd::utf8::valid_utf8_split(bytes, cut);
        assert(tail =~= bytes.subrange(cut, bytes.len() as int));
        vstd::utf8::decode_utf8_encode_utf8(tail);
        lemma_encode_concat(dots, decode_utf8(tail));
    }
}

/// A path in the home directory is written with `~` for it, and any other as it is.
pub proof fn law_home_is_shortened(home: Seq<char>, rest: Seq<char>, path: Seq<char>)
    ensures
        shortened(home + rest, Some(home)) == "~"@ + rest,
        !home.is_prefix_of(path) ==> shortened(path, Some(home)) == path,
        shortened(path, None) == path,
{
    assert(home =~= (home + rest).subrange(0, home.len() as int));
    assert((home + rest).skip(home.len() as int) =~= rest);
}

/// A path that has to be cut keeps its end: behind three dots stands the part of it that fills
/// the width exactly, or nothing where the dots alone do.
pub proof fn law_clipped_keeps_end(text: Seq<char>, width: nat)
    requires
        cuts_cleanly(text, width),
        encode_utf8(text).len() > width,
    ensures
        clipped(text, width).len() >= 3,
        forall|i: int| 0 <= i < 3 ==> clipped(text, width)[i] == '.',
        width <= 3 ==> clipped(text, width).len() == 3,
        width >= 3 ==> encode_utf8(clipped(text, width)).len() == width,
        encode_utf8(clipped(text, width).skip(3)).is_suffix_of(encode_utf8(text)),
{
    reveal_strlit("...");
    let dots = "..."@;
    vstd::utf8::is_ascii_chars_encode_utf8(dots);
    let bytes = encode_utf8(text);
    if width > 3 {
        let cut = cut_at(text, width);
        let tail = bytes.skip(cut);
        vstd::utf8::encode_utf8_valid_utf8(text);
        vstd::utf8::valid_utf8_split(bytes, cut);
        assert(tail =~= bytes.subrange(cut, bytes.len() as int));
        vstd::utf8::decode_utf8_encode_utf8(tail);
        lemma_encode_concat(dots, decode_utf8(tail));
        assert(clipped(text, width).skip(3) =~= decode_utf8(tail));
        assert(tail.is_suffix_of(bytes));
    } else {
        assert(clipped(text, width).skip(3) =~= Seq::<char>::empty());
        assert(encode_utf8(Seq::<char>::empty()) =~= Seq::<u8>::empty());
        assert(Seq::<u8>::empty() =~= bytes.subrange(bytes.len() as int, bytes.len() as int));
    }
}

/// The path of an entry is that of its directory and its name, with one separator between them
/// unless the directory ends in one or is empty.
pub proof fn law_joined_shape(dir: Seq<char>, name: Seq<char>, separator: char)
    ensures
        dir.is_prefix_of(joined(dir, name, separator)),
        name.is_suffix_of(joined(dir, name, separator)),
        joined(dir, name, separator).len() == dir.len() + name.len() + (if dir.len() > 0
            && dir.last() != separator {
            1int
        } else {
            0
        }),
        dir.len() > 0 ==> joined(dir, name, separator)[joined(dir, name, separator).len()
            - name.len() - 1] == separator,
{
    let path = joined(dir, name, separator);
    assert(dir =~= path.subrange(0, dir.len() as int));
    assert(name =~= path.subrange(path.len() - name.len(), path.len() as int));
}

} // verus!
