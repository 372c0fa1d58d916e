//! Directory listings as `getattrlistbulk` of macOS puts them into a buffer.

use vstd::arithmetic::div_mod::lemma_fundamental_div_mod_converse;
use vstd::prelude::*;
use vstd::slice::slice_subrange;
use vstd::utf8::{decode_utf8, valid_utf8};

use crate::scanner::listing::{Entry, EntryKind};
use crate::text::{run_before, run_length};

verus! {

pub const ATTR_BIT_MAP_COUNT: u16 = 5;

pub const ATTR_CMN_RETURNED_ATTRS: u32 = 0x80000000;

pub const ATTR_CMN_NAME: u32 = 0x00000001;

pub const ATTR_CMN_OBJTYPE: u32 = 0x00000008;

pub const ATTR_FILE_DATAALLOCSIZE: u32 = 0x00000400;

/// The type of a regular file.
pub const VREG: u32 = 1;

/// The type of a directory.
pub const VDIR: u32 = 2;

/// The size of the buffer that a listing is read through.
pub const BUF_SIZE: usize = 256 * 1024;

/// The attributes that a listing is asked for.
pub struct AttrList {
    pub bitmapcount: u16,
    pub reserved: u16,
    pub commonattr: u32,
    pub volattr: u32,
    pub dirattr: u32,
    pub fileattr: u32,
    pub forkattr: u32,
}

impl AttrList {
    /// Asks for the name, the type and the allocated size of each entry.
    pub fn new() -> (r: Self)
        ensures
            r.bitmapcount == ATTR_BIT_MAP_COUNT,
            r.reserved == 0,
            r.commonattr == (ATTR_CMN_RETURNED_ATTRS | ATTR_CMN_NAME | ATTR_CMN_OBJTYPE),
            r.volattr == 0,
            r.dirattr == 0,
            r.fileattr == ATTR_FILE_DATAALLOCSIZE,
            r.forkattr == 0,
    {
        AttrList {
            bitmapcount: ATTR_BIT_MAP_COUNT,
            reserved: 0,
            commonattr: ATTR_CMN_RETURNED_ATTRS | ATTR_CMN_NAME | ATTR_CMN_OBJTYPE,
            volattr: 0,
            dirattr: 0,
            fileattr: ATTR_FILE_DATAALLOCSIZE,
            forkattr: 0,
        }
    }
}

/// An entry of a directory. What was not returned for it is empty or 0.
pub struct BulkEntry {
    pub name: String,
    pub obj_type: u32,
    pub size: u64,
}

/// The number of 32 bits at `off`, its lowest byte first.
pub open spec fn u32_at(buf: Seq<u8>, off: int) -> u32 {
    (buf[off] + 0x100 * buf[off + 1] + 0x1_0000 * buf[off + 2] + 0x100_0000 * buf[off + 3]) as u32
}

/// The signed number of 32 bits at `off`.
pub open spec fn i32_at(buf: Seq<u8>, off: int) -> i32 {
    let n = u32_at(buf, off);
    if n < 0x8000_0000 {
        n as i32
    } else {
        (n - 0x1_0000_0000) as i32
    }
}

/// The number of 64 bits at `off`, its lowest byte first.
pub open spec fn u64_at(buf: Seq<u8>, off: int) -> u64 {
    (u32_at(buf, off) + 0x1_0000_0000 * u32_at(buf, off + 4)) as u64
}

/// Reads the number of 32 bits at `off`.
pub fn read_u32(buf: &[u8], off: usize) -> (r: u32)
    requires
        off + 4 <= buf@.len(),
    ensures
        r == u32_at(buf@, off as int),
{
    buf[off] as u32 + 0x100 * buf[off + 1] as u32 + 0x1_0000 * buf[off + 2] as u32 + 0x100_0000
        * buf[off + 3] as u32
}

/// Reads the signed number of 32 bits at `off`.
pub fn read_i32(buf: &[u8], off: usize) -> (r: i32)
    requires
        off + 4 <= buf@.len(),
    ensures
        r == i32_at(buf@, off as int),
{
    let n: u32 = read_u32(buf, off);
    if n < 0x8000_0000 {
        n as i32
    } else {
        (n as i64 - 0x1_0000_0000) as i32
    }
}

/// Reads the number of 64 bits at `off`.
fn read_u64(buf: &[u8], off: usize) -> (r: u64)
    requires
        off + 8 <= buf@.len(),
    ensures
        r == u64_at(buf@, off as int),
{
    let low: u64 = read_u32(buf, off) as u64;
    assert(off + 8 <= buf.len());
    low + 0x1_0000_0000 * read_u32(buf, off + 4) as u64
}

/// The text that `String::from_utf8_lossy` reads in `bytes`.
pub uninterp spec fn lossy_utf8(bytes: Seq<u8>) -> Seq<char>;

/// Calls `String::from_utf8_lossy`: bytes that are UTF-8 are read as such. What stands in the
/// text for bytes that are not is left to the name.
#[verifier::external_body]
fn from_utf8_lossy(bytes: &[u8]) -> (r: String)
    ensures
        r@ == lossy_utf8(bytes@),
        valid_utf8(bytes@) ==> r@ == decode_utf8(bytes@),
{
    String::from_utf8_lossy(bytes).into_owned()
}

/// Where the entry that starts at `start` ends.
pub open spec fn entry_end(buf: Seq<u8>, start: int) -> int {
    start + u32_at(buf, start)
}

/// Whether a name was returned for the entry at `start`.
pub open spec fn has_name(buf: Seq<u8>, start: int) -> bool {
    (u32_at(buf, start + 4) & ATTR_CMN_NAME) != 0
}

/// Whether a type was returned for the entry at `start`.
pub open spec fn has_type(buf: Seq<u8>, start: int) -> bool {
    (u32_at(buf, start + 4) & ATTR_CMN_OBJTYPE) != 0
}

/// Whether a size was returned for the entry at `start`.
pub open spec fn has_size(buf: Seq<u8>, start: int) -> bool {
    (u32_at(buf, start + 16) & ATTR_FILE_DATAALLOCSIZE) != 0
}

/// Where the name of the entry at `start` is said to start.
pub open spec fn name_at(buf: Seq<u8>, start: int) -> int {
    start + 24 + i32_at(buf, start + 24)
}

/// The name of the entry at `start` lies before the end of the entry.
pub open spec fn names_itself(buf: Seq<u8>, start: int) -> bool {
    has_name(buf, start) && 0 <= name_at(buf, start) < entry_end(buf, start)
}

/// Where the type of the entry at `start` stands.
pub open spec fn type_at(buf: Seq<u8>, start: int) -> int {
    start + 24 + (if has_name(buf, start) {
        8int
    } else {
        0
    })
}

/// Where the size of the entry at `start` stands.
pub open spec fn size_at(buf: Seq<u8>, start: int) -> int {
    type_at(buf, start) + (if has_type(buf, start) {
        4int
    } else {
        0
    })
}

/// The size of the entry at `start` lies before the end of the entry.
pub open spec fn holds_size(buf: Seq<u8>, start: int) -> bool {
    has_size(buf, start) && size_at(buf, start) + 8 <= entry_end(buf, start)
}

/// What is to be read of the entry at `start` lies in the buffer.
pub open spec fn is_whole(buf: Seq<u8>, start: int) -> bool {
    &&& has_name(buf, start) ==> start + 32 <= buf.len()
    &&& names_itself(buf, start) ==> entry_end(buf, start) <= buf.len()
    &&& has_type(buf, start) ==> type_at(buf, start) + 4 <= buf.len()
    &&& holds_size(buf, start) ==> size_at(buf, start) + 8 <= buf.len()
}

/// The name, the type and the size of the entry at `start`.
pub open spec fn entry_at(buf: Seq<u8>, start: int) -> (Seq<char>, u32, u64) {
    (
        if names_itself(buf, start) {
            lossy_utf8(
                run_before(buf.subrange(name_at(buf, start), entry_end(buf, start)), 0u8),
            )
        } else {
            Seq::empty()
        },
        if has_type(buf, start) {
            u32_at(buf, type_at(buf, start))
        } else {
            0
        },
        if holds_size(buf, start) {
            u64_at(buf, size_at(buf, start))
        } else {
            0
        },
    )
}

/// The `count` entries from `start` on, as far as the buffer has room for them.
pub open spec fn entries_at(buf: Seq<u8>, start: int, count: nat) -> Seq<(Seq<char>, u32, u64)>
    decreases count,
{
    if count == 0 || start + 28 > buf.len() {
        Seq::empty()
    } else {
        seq![entry_at(buf, start)] + entries_at(buf, entry_end(buf, start), (count - 1) as nat)
    }
}

/// What is to be read of the `count` entries from `start` on lies in the buffer.
pub open spec fn are_whole(buf: Seq<u8>, start: int, count: nat) -> bool
    decreases count,
{
    count == 0 || start + 28 > buf.len() || (is_whole(buf, start) && are_whole(
        buf,
        entry_end(buf, start),
        (count - 1) as nat,
    ))
}

/// The names, types and sizes of entries.
pub open spec fn bulk_views(entries: Seq<BulkEntry>) -> Seq<(Seq<char>, u32, u64)> {
    entries.map_values(|e: BulkEntry| (e.name@, e.obj_type, e.size))
}

/// Reads the entry at `start`; `None` where it reaches out of the buffer.
fn read_entry(buf: &[u8], start: usize) -> (r: Option<BulkEntry>)
    requires
        start + 28 <= buf@.len(),
        buf@.len() == BUF_SIZE,
    ensures
        match r {
            Some(e) => is_whole(buf@, start as int) && (e.name@, e.obj_type, e.size) == entry_at(
                buf@,
                start as int,
            ),
            None => !is_whole(buf@, start as int),
        },
{
    let len: usize = buf.len();
    let end: u64 = start as u64 + read_u32(buf, start) as u64;
    let common: u32 = read_u32(buf, start + 4);
    let file: u32 = read_u32(buf, start + 16);
    let mut offset: usize = start + 24;
    let mut name = String::new();
    let mut obj_type: u32 = 0;
    let mut size: u64 = 0;
    if common & ATTR_CMN_NAME != 0 {
        if start + 32 > len {
            return None;
        }
        let at: i64 = offset as i64 + read_i32(buf, offset) as i64;
        if 0 <= at && (at as u64) < end {
            if end > len as u64 {
                return None;
            }
            let text: &[u8] = slice_subrange(buf, at as usize, end as usize);
            let run: usize = run_length(text);
            name = from_utf8_lossy(slice_subrange(text, 0, run));
        }
        offset = offset + 8;
    }
    if common & ATTR_CMN_OBJTYPE != 0 {
        if offset + 4 > len {
            return None;
        }
        obj_type = read_u32(buf, offset);
        offset = offset + 4;
    }
    if file & ATTR_FILE_DATAALLOCSIZE != 0 && offset as u64 + 8 <= end {
        if offset + 8 > len {
            return None;
        }
        size = read_u64(buf, offset);
    }
    Some(BulkEntry { name, obj_type, size })
}

/// Reads the entries that a call of `getattrlistbulk` put into `buf` behind `entries`, and
/// says whether to call it again; `count` is what the call returned. Returns `None`, and leaves
/// `entries` as they were, where an entry reaches out of the buffer.
pub fn try_read_dir_bulk(buf: &[u8], count: i32, entries: &mut Vec<BulkEntry>) -> (r: Option<bool>)
    requires
        buf@.len() == BUF_SIZE,
    ensures
        match r {
            Some(more) => {
                &&& more == (count > 0)
                &&& more ==> are_whole(buf@, 0, count as nat)
                &&& bulk_views(final(entries)@) == bulk_views(old(entries)@) + (if more {
                    entries_at(buf@, 0, count as nat)
                } else {
                    Seq::empty()
                })
            },
            None => {
                &&& count > 0
                &&& !are_whole(buf@, 0, count as nat)
                &&& final(entries)@ == old(entries)@
            },
        },
{
    if count <= 0 {
        assert(bulk_views(entries@) =~= bulk_views(entries@) + Seq::empty());
        return Some(false);
    }
    let total: usize = count as usize;
    let mut read: Vec<BulkEntry> = Vec::new();
    let mut offset: u64 = 0;
    let mut i: usize = 0;
    assert(bulk_views(read@) + entries_at(buf@, 0, count as nat) =~= entries_at(
        buf@,
        0,
        count as nat,
    ));
    while i < total && offset + 28 <= buf.len() as u64
        invariant
            i <= total,
            total == count,
            buf@.len() == BUF_SIZE,
            offset <= 0x1_ffff_ffff,
            bulk_views(read@) + entries_at(buf@, offset as int, (total - i) as nat) == entries_at(
                buf@,
                0,
                total as nat,
            ),
            are_whole(buf@, offset as int, (total - i) as nat) == are_whole(buf@, 0, total as nat),
        decreases total - i,
    {
        let ghost was = read@;
        let ghost left = (total - i) as nat;
        let start: usize = offset as usize;
        match read_entry(buf, start) {
            Some(entry) => {
                read.push(entry);
            },
            None => {
                return None;
            },
        }
        offset = start as u64 + read_u32(buf, start) as u64;
        i += 1;
        proof {
            let here = entry_at(buf@, start as int);
            assert(bulk_views(read@) =~= bulk_views(was).push(here));
            let rest = entries_at(buf@, offset as int, (left - 1) as nat);
            assert(entries_at(buf@, start as int, left) == seq![here] + rest);
            assert(bulk_views(read@) + rest =~= bulk_views(was) + (seq![here] + rest));
        }
    }
    let ghost before = entries@;
    let ghost found = read@;
    assert(bulk_views(found) =~= entries_at(buf@, 0, total as nat));
    entries.append(&mut read);
    assert(bulk_views(entries@) =~= bulk_views(before) + bulk_views(found));
    Some(true)
}

/// Reads the entries that a call of `getattrlistbulk` put into `buf` behind `entries`, and
/// says whether to call it again; `count` is what the call returned.
pub fn read_dir_bulk(buf: &[u8], count: i32, entries: &mut Vec<BulkEntry>) -> (more: bool)
    requires
        buf@.len() == BUF_SIZE,
        count > 0 ==> are_whole(buf@, 0, count as nat),
    ensures
        more == (count > 0),
        bulk_views(final(entries)@) == bulk_views(old(entries)@) + (if more {
            entries_at(buf@, 0, count as nat)
        } else {
            Seq::empty()
        }),
{
    match try_read_dir_bulk(buf, count, entries) {
        Some(more) => more,
        None => {
            assert(false);
            false
        },
    }
}

/// What an entry with this type is.
pub open spec fn bulk_kind(obj_type: u32) -> EntryKind {
    if obj_type == VREG {
        EntryKind::File
    } else if obj_type == VDIR {
        EntryKind::Dir
    } else {
        EntryKind::Other
    }
}

/// The entry of a listing that `e` stands for.
pub fn bulk_entry(e: &BulkEntry) -> (r: Entry)
    ensures
        r.name@ == e.name@,
        r.kind == (if e.obj_type == VDIR {
            EntryKind::Dir
        } else if e.obj_type == VREG {
            EntryKind::File
        } else {
            EntryKind::Other
        }),
        r.size == e.size,
        r.dev is None,
        r.kind == bulk_kind(e.obj_type),
{
    let kind: EntryKind = if e.obj_type == VDIR {
        EntryKind::Dir
    } else if e.obj_type == VREG {
        EntryKind::File
    } else {
        EntryKind::Other
    };
    Entry { name: e.name.clone(), kind, size: e.size, dev: None }
}

/// The entries follow each other in the buffer: each starts as many bytes behind the one before
/// as that one says that it takes, and they end where there are as many as there should be or
/// where the buffer has no room for one more.
pub proof fn law_entries_in_a_row(buf: Seq<u8>, start: int, count: nat) -> (starts: Seq<int>)
    ensures
        ({
            let entries = entries_at(buf, start, count);
            &&& starts.len() == entries.len() + 1
            &&& starts[0] == start
            &&& entries.len() <= count
            &&& forall|i: int|
                0 <= i < entries.len() ==> {
                    &&& #[trigger] entries[i] == entry_at(buf, starts[i])
                    &&& starts[i] + 28 <= buf.len()
                    &&& starts[i + 1] == starts[i] + buf[starts[i]] + 0x100 * buf[starts[i] + 1]
                        + 0x1_0000 * buf[starts[i] + 2] + 0x100_0000 * buf[starts[i] + 3]
                }
            &&& entries.len() < count ==> starts.last() + 28 > buf.len()
        }),
    decreases count,
{
    let entries = entries_at(buf, start, count);
    if count == 0 || start + 28 > buf.len() {
        seq![start]
    } else {
        let rest = entries_at(buf, entry_end(buf, start), (count - 1) as nat);
        let tail = law_entries_in_a_row(buf, entry_end(buf, start), (count - 1) as nat);
        let starts = seq![start] + tail;
        assert forall|i: int| 0 <= i < entries.len() implies {
            &&& #[trigger] entries[i] == entry_at(buf, starts[i])
            &&& starts[i] + 28 <= buf.len()
            &&& starts[i + 1] == starts[i] + buf[starts[i]] + 0x100 * buf[starts[i] + 1] + 0x1_0000
                * buf[starts[i] + 2] + 0x100_0000 * buf[starts[i] + 3]
        } by {
            if i > 0 {
                assert(entries[i] == rest[i - 1]);
                assert(starts[i] == tail[i - 1]);
                assert(starts[i + 1] == tail[i]);
            } else {
                assert(starts[1] == tail[0]);
            }
        }
        assert(starts.last() == tail.last());
        starts
    }
}

/// The name, the type and the size of an entry follow its head, those of them that were returned:
/// the name by a reference to where it stands, up to its end mark. What was not returned is empty
/// or 0.
pub proof fn law_entry_fields(buf: Seq<u8>, start: int)
    ensures
        ({
            let (name, kind, size) = entry_at(buf, start);
            let common = u32_at(buf, start + 4);
            let named = common % 2 == 1;
            let typed = (common / 8) % 2 == 1;
            let sized = (u32_at(buf, start + 16) / 1024) % 2 == 1;
            let from = start + 24 + i32_at(buf, start + 24);
            let end = start + u32_at(buf, start);
            let at: int = if named {
                start + 32
            } else {
                start + 24
            };
            let behind: int = if typed {
                at + 4
            } else {
                at
            };
            &&& named && 0 <= from < end ==> name == lossy_utf8(
                run_before(buf.subrange(from, end), 0u8),
            )
            &&& !(named && 0 <= from < end) ==> name.len() == 0
            &&& typed ==> kind == u32_at(buf, at)
            &&& !typed ==> kind == 0
            &&& sized && behind + 8 <= end ==> size == u64_at(buf, behind)
            &&& !(sized && behind + 8 <= end) ==> size == 0
        }),
{
    let common = u32_at(buf, start + 4);
    let file = u32_at(buf, start + 16);
    assert(((common & 1) != 0) == (common % 2 == 1)) by (bit_vector);
    assert(((common & 8) != 0) == ((common / 8) % 2 == 1)) by (bit_vector);
    assert(((file & 0x400) != 0) == ((file / 1024) % 2 == 1)) by (bit_vector);
}

/// Numbers stand in the buffer with their lowest byte first, and signed ones in two's complement.
pub proof fn law_numbers_in_buffer(buf: Seq<u8>, off: int)
    ensures
        u32_at(buf, off) % 0x100 == buf[off],
        (u32_at(buf, off) / 0x100) % 0x100 == buf[off + 1],
        (u32_at(buf, off) / 0x1_0000) % 0x100 == buf[off + 2],
        u32_at(buf, off) / 0x100_0000 == buf[off + 3],
        u64_at(buf, off) % 0x1_0000_0000 == u32_at(buf, off),
        u64_at(buf, off) / 0x1_0000_0000 == u32_at(buf, off + 4),
        i32_at(buf, off) == u32_at(buf, off) || i32_at(buf, off) == u32_at(buf, off)
            - 0x1_0000_0000,
{
    let a = buf[off] as int;
    let b = buf[off + 1] as int;
    let c = buf[off + 2] as int;
    let d = buf[off + 3] as int;
    let n = u32_at(buf, off) as int;
    let high = u32_at(buf, off + 4) as int;
    assert(n == a + 0x100 * b + 0x1_0000 * c + 0x100_0000 * d);
    lemma_fundamental_div_mod_converse(n, 0x100, b + 0x100 * c + 0x1_0000 * d, a);
    lemma_fundamental_div_mod_converse(n, 0x1_0000, c + 0x100 * d, a + 0x100 * b);
    lemma_fundamental_div_mod_converse(n, 0x100_0000, d, a + 0x100 * b + 0x1_0000 * c);
    lemma_fundamental_div_mod_converse(n / 0x100, 0x100, c + 0x100 * d, b);
    lemma_fundamental_div_mod_converse(n / 0x1_0000, 0x100, d, c);
    lemma_fundamental_div_mod_converse(u64_at(buf, off) as int, 0x1_0000_0000, high, n);
}

/// An entry can be read just where what it is said to hold lies in the buffer: the reference to
/// its name and the name itself, its type, and its size, each where it was returned.
pub proof fn law_what_can_be_read(buf: Seq<u8>, start: int)
    ensures
        ({
            let common = u32_at(buf, start + 4);
            let named = common % 2 == 1;
            let typed = (common / 8) % 2 == 1;
            let sized = (u32_at(buf, start + 16) / 1024) % 2 == 1;
            let from = start + 24 + i32_at(buf, start + 24);
            let end = start + u32_at(buf, start);
            let at: int = if named {
                start + 32
            } else {
                start + 24
            };
            let behind: int = if typed {
                at + 4
            } else {
                at
            };
            is_whole(buf, start) <==> {
                &&& named ==> start + 32 <= buf.len()
                &&& named && 0 <= from < end ==> end <= buf.len()
                &&& typed ==> at + 4 <= buf.len()
                &&& sized && behind + 8 <= end ==> behind + 8 <= buf.len()
            }
        }),
{
    let common = u32_at(buf, start + 4);
    let file = u32_at(buf, start + 16);
    assert(((common & 1) != 0) == (common % 2 == 1)) by (bit_vector);
    assert(((common & 8) != 0) == ((common / 8) % 2 == 1)) by (bit_vector);
    assert(((file & 0x400) != 0) == ((file / 1024) % 2 == 1)) by (bit_vector);
}

/// All entries can be read just where the first can and then all that follow it, as far as the
/// buffer has room for them.
pub proof fn law_all_can_be_read(buf: Seq<u8>, start: int, count: nat)
    ensures
        are_whole(buf, start, 0),
        start + 28 > buf.len() ==> are_whole(buf, start, count),
        count > 0 && start + 28 <= buf.len() ==> are_whole(buf, start, count) == (is_whole(buf, start)
            && are_whole(buf, start + u32_at(buf, start), (count - 1) as nat)),
{
}

/// Regular files have the type 1 and directories the type 2; everything else is neither.
pub proof fn law_bulk_kinds(obj_type: u32)
    ensures
        (bulk_kind(obj_type) == EntryKind::File) == (obj_type == 1),
        (bulk_kind(obj_type) == EntryKind::Dir) == (obj_type == 2),
        bulk_kind(obj_type) != EntryKind::Failed,
{
}

} // verus!
