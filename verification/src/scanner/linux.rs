//! Directory entries as Unix reports them.

use vstd::prelude::*;

use crate::scanner::listing::{Entry, EntryKind};

verus! {

/// The size of the blocks that allocated space is counted in.
pub const BLOCK_SIZE: u64 = 512;

/// The bytes that `blocks` take.
pub fn allocated_bytes(blocks: u64) -> (r: u64)
    requires
        blocks * BLOCK_SIZE <= u64::MAX,
    ensures
        r == blocks * BLOCK_SIZE,
{
    blocks * BLOCK_SIZE
}

/// What an entry is: a directory, or a file where its blocks are known.
pub open spec fn unix_kind(is_dir: bool, is_file: bool, blocks: Option<u64>) -> EntryKind {
    match (is_dir, is_file, blocks) {
        (true, _, _) => EntryKind::Dir,
        (false, true, Some(_)) => EntryKind::File,
        (false, true, None) => EntryKind::Failed,
        (false, false, _) => EntryKind::Other,
    }
}

/// The bytes of an entry with these `blocks`.
pub open spec fn unix_bytes(blocks: Option<u64>) -> int {
    match blocks {
        Some(n) => n * BLOCK_SIZE,
        None => 0,
    }
}

/// The entry `name`. `blocks` is what a file takes, and is missing where that could not be
/// found out; a file takes what is allocated for it.
pub fn unix_entry(name: String, is_dir: bool, is_file: bool, blocks: Option<u64>, dev: Option<u64>) -> (r:
    Entry)
    requires
        blocks matches Some(n) ==> n * BLOCK_SIZE <= u64::MAX,
    ensures
        r.name == name,
        r.dev == dev,
        r.kind == (if is_dir {
            EntryKind::Dir
        } else if !is_file {
            EntryKind::Other
        } else if blocks is None {
            EntryKind::Failed
        } else {
            EntryKind::File
        }),
        r.size == (match blocks {
            Some(n) => n * BLOCK_SIZE,
            None => 0,
        }),
        r.kind == unix_kind(is_dir, is_file, blocks),
        r.size == unix_bytes(blocks),
{
    let kind: EntryKind = if is_dir {
        EntryKind::Dir
    } else if !is_file {
        EntryKind::Other
    } else if blocks.is_none() {
        EntryKind::Failed
    } else {
        EntryKind::File
    };
    let size: u64 = match blocks {
        Some(n) => allocated_bytes(n),
        None => 0,
    };
    Entry { name, kind, size, dev }
}

/// Space is counted in blocks of 512 bytes.
pub proof fn law_blocks_of_512(blocks: u64)
    ensures
        blocks * BLOCK_SIZE == 512 * blocks,
{
}

/// A directory is one whatever else is known of it. A file counts with what is allocated for it,
/// in blocks of 512 bytes, and is a failure where that is not known; anything else, such as a
/// link, is neither.
pub proof fn law_unix_entries(is_dir: bool, is_file: bool, blocks: Option<u64>)
    ensures
        (unix_kind(is_dir, is_file, blocks) == EntryKind::Dir) == is_dir,
        (unix_kind(is_dir, is_file, blocks) == EntryKind::File) == (!is_dir && is_file && blocks
            is Some),
        (unix_kind(is_dir, is_file, blocks) == EntryKind::Failed) == (!is_dir && is_file && blocks
            is None),
        (unix_kind(is_dir, is_file, blocks) == EntryKind::Other) == (!is_dir && !is_file),
        blocks matches Some(n) ==> unix_bytes(blocks) == 512 * n,
        blocks is None ==> unix_bytes(blocks) == 0,
{
}

} // verus!
