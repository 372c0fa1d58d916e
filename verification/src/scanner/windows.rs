//! Directory entries as Windows reports them.

use vstd::arithmetic::div_mod::lemma_fundamental_div_mod_converse;
use vstd::prelude::*;
use vstd::slice::slice_subrange;

use crate::scanner::listing::{Entry, EntryKind};
use crate::text::{law_run_before, lemma_run_before, run_before};

verus! {

pub const FILE_ATTRIBUTE_DIRECTORY: u32 = 0x10;

pub const FILE_ATTRIBUTE_REPARSE_POINT: u32 = 0x400;

/// The code units `a` and `b` together stand for one character.
pub open spec fn is_pair(a: u16, b: u16) -> bool {
    0xd800 <= a < 0xdc00 && 0xdc00 <= b < 0xe000
}

/// The text that UTF-16 `units` spell, with U+FFFD for every surrogate that has no partner.
pub open spec fn utf16_text(units: Seq<u16>) -> Seq<char>
    decreases units.len(),
{
    if units.len() == 0 {
        Seq::empty()
    } else if units.len() > 1 && is_pair(units[0], units[1]) {
        seq![(0x1_0000 + 0x400 * (units[0] - 0xd800) + (units[1] - 0xdc00)) as char] + utf16_text(
            units.skip(2),
        )
    } else if 0xd800 <= units[0] < 0xe000 {
        seq!['\u{fffd}'] + utf16_text(units.skip(1))
    } else {
        seq![units[0] as char] + utf16_text(units.skip(1))
    }
}

/// `String::from_utf16_lossy` decodes UTF-16 and puts U+FFFD for every surrogate that has no
/// partner.
pub assume_specification[ String::from_utf16_lossy ](v: &[u16]) -> (r: String)
    ensures
        r@ == utf16_text(v@),
;

/// How many code units stand before the first that is 0.
fn name_length(name: &[u16]) -> (r: usize)
    ensures
        r <= name@.len(),
        name@.take(r as int) == run_before(name@, 0u16),
{
    let mut i: usize = 0;
    while i < name.len() && name[i] != 0
        invariant
            i <= name@.len(),
            forall|j: int| 0 <= j < i ==> name@[j] != 0,
        decreases name@.len() - i,
    {
        i += 1;
    }
    proof {
        lemma_run_before(name@, 0u16, i as int);
    }
    i
}

/// The name up to its end mark is `.` or `..`.
pub open spec fn names_dots(name: Seq<u16>) -> bool {
    let text = run_before(name, 0u16);
    text == seq![0x2eu16] || text == seq![0x2eu16, 0x2eu16]
}

/// Whether the entry is the directory itself or the one above it.
pub fn is_dot_dir(name: &[u16]) -> (r: bool)
    ensures
        r == names_dots(name@),
{
    let len: usize = name_length(name);
    let ghost text = run_before(name@, 0u16);
    let r: bool = (len == 1 && name[0] == 0x2e) || (len == 2 && name[0] == 0x2e && name[1] == 0x2e);
    proof {
        if len > 0 {
            assert(text[0] == name@[0]);
        }
        if len > 1 {
            assert(text[1] == name@[1]);
        }
        assert(text.len() == len);
        let one = seq![0x2eu16];
        let two = seq![0x2eu16, 0x2eu16];
        assert(one.len() == 1 && two.len() == 2 && two[0] == 0x2e && two[1] == 0x2e && one[0]
            == 0x2e);
        assert(len == 1 && text[0] == 0x2e ==> text =~= one);
        assert(len == 2 && text[0] == 0x2e && text[1] == 0x2e ==> text =~= two);
    }
    r
}

/// The entry is passed over: a reparse point, the directory itself, or the one above it.
pub open spec fn is_passed_over(attributes: u32, name: Seq<u16>) -> bool {
    names_dots(name) || (attributes & FILE_ATTRIBUTE_REPARSE_POINT) != 0
}

/// What an entry with these attributes is.
pub open spec fn windows_kind(attributes: u32) -> EntryKind {
    if (attributes & FILE_ATTRIBUTE_DIRECTORY) == 0 {
        EntryKind::File
    } else {
        EntryKind::Dir
    }
}

/// The bytes of an entry whose size comes in two halves.
pub open spec fn windows_bytes(size_high: u32, size_low: u32) -> int {
    size_low + 0x1_0000_0000 * size_high
}

/// The entry with these attributes, this name, up to its end mark, and this size in two
/// halves; `None` for a reparse point, such as a link, and for the directory itself and the
/// one above it.
pub fn windows_entry(attributes: u32, name: &[u16], size_high: u32, size_low: u32) -> (r: Option<Entry>)
    ensures
        match r {
            Some(e) => {
                &&& (attributes & FILE_ATTRIBUTE_REPARSE_POINT) == 0
                &&& !names_dots(name@)
                &&& e.name@ == utf16_text(run_before(name@, 0u16))
                &&& e.kind == (if (attributes & FILE_ATTRIBUTE_DIRECTORY) != 0 {
                    EntryKind::Dir
                } else {
                    EntryKind::File
                })
                &&& e.size == 0x1_0000_0000 * size_high + size_low
                &&& e.dev is None
            },
            None => (attributes & FILE_ATTRIBUTE_REPARSE_POINT) != 0 || names_dots(name@),
        },
        r is None == is_passed_over(attributes, name@),
        r matches Some(e) ==> e.kind == windows_kind(attributes) && e.size == windows_bytes(
            size_high,
            size_low,
        ),
{
    if attributes & FILE_ATTRIBUTE_REPARSE_POINT != 0 || is_dot_dir(name) {
        return None;
    }
    let len: usize = name_length(name);
    let units: &[u16] = slice_subrange(name, 0, len);
    assert(units@ =~= name@.take(len as int));
    let kind: EntryKind = if attributes & FILE_ATTRIBUTE_DIRECTORY != 0 {
        EntryKind::Dir
    } else {
        EntryKind::File
    };
    Some(
        Entry {
            name: String::from_utf16_lossy(units),
            kind,
            size: 0x1_0000_0000 * size_high as u64 + size_low as u64,
            dev: None,
        },
    )
}

/// The directory itself and the one above it are named by one dot and by two, and nothing else
/// names them, whatever stands behind the end mark.
pub proof fn law_dots(name: Seq<u16>)
    ensures
        names_dots(name) <==> name.len() > 0 && name[0] == 0x2e && (name.len() == 1 || name[1] == 0
            || (name[1] == 0x2e && (name.len() == 2 || name[2] == 0))),
{
    let text = run_before(name, 0u16);
    law_run_before(name, 0u16);
    let one = seq![0x2eu16];
    let two = seq![0x2eu16, 0x2eu16];
    assert(one.len() == 1 && one[0] == 0x2e && two.len() == 2 && two[0] == 0x2e && two[1] == 0x2e);
    if text.len() > 0 {
        assert(text[0] == name[0]);
        assert(name[0] != 0);
    }
    if text.len() > 1 {
        assert(text[1] == name[1]);
        assert(name[1] != 0);
    }
    if text.len() > 2 {
        assert(name[2] != 0);
    }
    assert(text.len() == 1 && text[0] == 0x2e ==> text =~= one);
    assert(text.len() == 2 && text[0] == 0x2e && text[1] == 0x2e ==> text =~= two);
}

/// A directory has the fifth bit of its attributes set, and a reparse point the eleventh.
pub proof fn law_attribute_bits(attributes: u32)
    ensures
        ((attributes & FILE_ATTRIBUTE_DIRECTORY) != 0) == ((attributes / 16) % 2 == 1),
        ((attributes & FILE_ATTRIBUTE_REPARSE_POINT) != 0) == ((attributes / 1024) % 2 == 1),
{
    assert(((attributes & 0x10) != 0) == ((attributes / 16) % 2 == 1)) by (bit_vector);
    assert(((attributes & 0x400) != 0) == ((attributes / 1024) % 2 == 1)) by (bit_vector);
}

/// Reparse points, the directory itself and the one above it are passed over, and nothing else;
/// of the rest those with the bit for it are directories, and all others files. The upper half of
/// a size counts in units of four gibibytes.
pub proof fn law_windows_entries(attributes: u32, name: Seq<u16>, size_high: u32, size_low: u32)
    ensures
        is_passed_over(attributes, name) <==> (attributes / 1024) % 2 == 1 || (name.len() > 0
            && name[0] == 0x2e && (name.len() == 1 || name[1] == 0 || (name[1] == 0x2e && (
        name.len() == 2 || name[2] == 0)))),
        (windows_kind(attributes) == EntryKind::Dir) == ((attributes / 16) % 2 == 1),
        (windows_kind(attributes) == EntryKind::File) == ((attributes / 16) % 2 == 0),
        windows_bytes(size_high, size_low) % 0x1_0000_0000 == size_low,
        windows_bytes(size_high, size_low) / 0x1_0000_0000 == size_high,
{
    law_dots(name);
    law_attribute_bits(attributes);
    lemma_fundamental_div_mod_converse(
        windows_bytes(size_high, size_low),
        0x1_0000_0000,
        size_high as int,
        size_low as int,
    );
}

} // verus!
