//! What the file system says of a path, and which files have been counted already.

use std::collections::HashSet;
use vstd::prelude::*;

verus! {

broadcast use vstd::std_specs::hash::group_hash_axioms;

/// What kind of thing a path names.
#[derive(Clone, Copy, Debug, PartialEq, Eq, Structural)]
pub enum FileKind {
    Directory,
    Symlink,
    Other,
}

/// How the platform tells one file from another.
#[derive(Clone, Copy, Debug, PartialEq, Eq, Structural)]
pub enum Identity {
    /// An inode number and the device that it counts on.
    Inode { inode: u64, device: u64 },
    /// The two halves of a file index and the serial number of the volume that it counts on.
    FileIndex { high: u32, low: u32, volume: u32 },
    /// The platform does not say.
    Unknown,
}

/// What the platform says of the space that a file takes.
#[derive(Clone, Copy, Debug, PartialEq, Eq, Structural)]
pub enum Usage {
    /// The number of blocks set aside for it.
    Blocks(u64),
    /// Its length in bytes.
    Length(u64),
}

/// What is known of a file.
#[derive(Clone, Copy, Debug, PartialEq, Eq, Structural)]
pub struct Metadata {
    pub kind: FileKind,
    pub identity: Identity,
    pub usage: Usage,
}

/// What was found under a path: the metadata of the path itself, and, where it is a symbolic link
/// that is to be followed, of what the link leads to. Either is `None` when it cannot be had.
#[derive(Clone, Copy, Debug, PartialEq, Eq, Structural)]
pub struct Lookup {
    pub link: Option<Metadata>,
    pub target: Option<Metadata>,
}

impl Lookup {
    /// The metadata that counts: that of the target for a link that is to be followed, else that of
    /// the path itself.
    pub open spec fn effective(self, follow_symlinks: bool) -> Option<Metadata> {
        match self.link {
            Some(meta) if follow_symlinks && meta.kind == FileKind::Symlink => self.target,
            link => link,
        }
    }
}

/// Picks the metadata that counts.
pub fn effective_metadata(lookup: Lookup, follow_symlinks: bool) -> (meta: Option<Metadata>)
    ensures
        meta == lookup.effective(follow_symlinks),
{
    match lookup.link {
        Some(meta) => {
            if follow_symlinks && meta.kind == FileKind::Symlink {
                lookup.target
            } else {
                Some(meta)
            }
        },
        None => None,
    }
}

/// The bytes in a block.
pub const BLOCK: u64 = 512;

impl Metadata {
    pub open spec fn is_dir(self) -> bool {
        self.kind == FileKind::Directory
    }

    /// What the file is told apart by, if it can be: the inode and its device, or the file index and
    /// its volume. A directory has no file index.
    pub open spec fn key(self) -> Option<(u64, u64)> {
        match self.identity {
            Identity::Inode { inode, device } => Some((inode, device)),
            Identity::FileIndex { high, low, volume } => if self.is_dir() {
                None
            } else {
                Some(((high * 0x1_0000_0000 + low) as u64, volume as u64))
            },
            Identity::Unknown => None,
        }
    }

    /// The bytes that the file takes on disk, or the most that a number holds when they are more.
    pub open spec fn size(self) -> u64 {
        match self.usage {
            Usage::Blocks(blocks) => if blocks * BLOCK > u64::MAX {
                u64::MAX
            } else {
                (blocks * BLOCK) as u64
            },
            Usage::Length(length) => length,
        }
    }
}

/// What the file is told apart by.
pub fn inode_key(meta: &Metadata) -> (key: Option<(u64, u64)>)
    ensures
        key == meta.key(),
{
    match meta.identity {
        Identity::Inode { inode, device } => Some((inode, device)),
        Identity::FileIndex { high, low, volume } => if meta.kind == FileKind::Directory {
            None
        } else {
            assert((((high as u64) << 32) | low as u64) == high * 0x1_0000_0000 + low)
                by (bit_vector);
            Some((((high as u64) << 32) | low as u64, volume as u64))
        },
        Identity::Unknown => None,
    }
}

/// The bytes that the file takes on disk.
pub fn allocated_size(meta: &Metadata) -> (size: u64)
    ensures
        size == meta.size(),
{
    match meta.usage {
        Usage::Blocks(blocks) => match blocks.checked_mul(BLOCK) {
            Some(size) => size,
            None => u64::MAX,
        },
        Usage::Length(length) => length,
    }
}

/// One number for both parts of a file's key.
pub open spec fn packed(key: (u64, u64)) -> u128 {
    (key.0 * 0x1_0000_0000_0000_0000 + key.1) as u128
}

/// Different keys are packed into different numbers.
pub proof fn packed_is_injective(a: (u64, u64), b: (u64, u64))
    ensures
        packed(a) == packed(b) ==> a == b,
{
}

/// The files that have been counted.
pub struct SeenInodes {
    keys: HashSet<u128>,
}

impl View for SeenInodes {
    type V = Set<(u64, u64)>;

    closed spec fn view(&self) -> Set<(u64, u64)> {
        Set::new(|key: (u64, u64)| self.keys@.contains(packed(key)))
    }
}

impl SeenInodes {
    pub fn new() -> (seen: SeenInodes)
        ensures
            seen@ == Set::<(u64, u64)>::empty(),
    {
        let seen = SeenInodes { keys: HashSet::new() };
        assert(seen@ =~= Set::<(u64, u64)>::empty());
        seen
    }

    /// Counts a file, and says whether it had not been counted before.
    pub fn insert(&mut self, key: (u64, u64)) -> (fresh: bool)
        ensures
            final(self)@ == old(self)@.insert(key),
            fresh == !old(self)@.contains(key),
    {
        let number: u128 = key.0 as u128 * 0x1_0000_0000_0000_0000 + key.1 as u128;
        assert(number == packed(key));
        let fresh = self.keys.insert(number);
        assert forall|k: (u64, u64)| self@.contains(k) <==> old(self)@.insert(key).contains(k) by {
            packed_is_injective(k, key);
        }
        assert(self@ =~= old(self)@.insert(key));
        fresh
    }
}

/// Whether a file with this metadata has been counted already.
pub open spec fn is_counted(seen: Set<(u64, u64)>, meta: Metadata) -> bool {
    meta.key() matches Some(key) && seen.contains(key)
}

/// The files counted once a file with this metadata has been.
pub open spec fn counted(seen: Set<(u64, u64)>, meta: Metadata) -> Set<(u64, u64)> {
    match meta.key() {
        Some(key) => seen.insert(key),
        None => seen,
    }
}

/// The size of a file that has not been counted before, which it then has.
pub fn unique_allocated_size(meta: &Metadata, seen: &mut SeenInodes) -> (size: Option<u64>)
    ensures
        final(seen)@ == counted(old(seen)@, *meta),
        size == (if is_counted(old(seen)@, *meta) {
            None
        } else {
            Some(meta.size())
        }),
{
    if let Some(key) = inode_key(meta) {
        if !seen.insert(key) {
            return None;
        }
    }
    Some(allocated_size(meta))
}

/// Marks a directory as visited, and says whether this is the first visit. A directory that cannot
/// be told apart from others always counts as new.
pub fn mark_dir_visited(meta: &Metadata, seen: &mut SeenInodes) -> (fresh: bool)
    ensures
        final(seen)@ == counted(old(seen)@, *meta),
        fresh == !is_counted(old(seen)@, *meta),
{
    match inode_key(meta) {
        Some(key) => seen.insert(key),
        None => true,
    }
}

/// What the metadata of a file says: how much space it takes, in blocks of 512 bytes or in bytes, up
/// to the largest number, and what it is told apart by.
pub proof fn metadata_is_read_as_given(kind: FileKind, identity: Identity, usage: Usage)
    ensures
        ({
            let meta = Metadata { kind, identity, usage };
            &&& meta.is_dir() <==> kind == FileKind::Directory
            &&& match usage {
                Usage::Blocks(blocks) => meta.size() == if blocks as int * 512 <= u64::MAX {
                    blocks as int * 512
                } else {
                    u64::MAX as int
                },
                Usage::Length(length) => meta.size() == length,
            }
            &&& match identity {
                Identity::Inode { inode, device } => meta.key() == Some((inode, device)),
                Identity::FileIndex { high, low, volume } => if kind == FileKind::Directory {
                    meta.key() is None
                } else {
                    &&& meta.key() matches Some(key)
                    &&& key.0 == high as int * 0x1_0000_0000 + low
                    &&& key.1 == volume
                },
                Identity::Unknown => meta.key() is None,
            }
        }),
{
}

/// What counts of what was found under a path: what a symbolic link leads to where links are
/// followed, else the path itself.
pub proof fn links_count_as_their_targets(lookup: Lookup, follow_symlinks: bool)
    ensures
        lookup.link is None ==> lookup.effective(follow_symlinks) is None,
        lookup.link matches Some(meta) ==> if follow_symlinks && meta.kind == FileKind::Symlink {
            lookup.effective(follow_symlinks) == lookup.target
        } else {
            lookup.effective(follow_symlinks) == Some(meta)
        },
{
}

/// Which files count as counted: those with a key that was counted, and after one more file its own
/// key too, and no other.
pub proof fn counting_marks_one_key(seen: Set<(u64, u64)>, meta: Metadata, other: Metadata)
    ensures
        is_counted(seen, other) <==> (other.key() is Some && seen.contains(other.key()->0)),
        is_counted(counted(seen, meta), other) <==> is_counted(seen, other) || (other.key() is Some
            && other.key() == meta.key()),
        forall|key: (u64, u64)| #[trigger]
            counted(seen, meta).contains(key) <==> seen.contains(key) || meta.key() == Some(key),
{
}

/// A file that can be told apart is counted at most once: after it was counted it is counted.
pub proof fn counting_is_once(seen: Set<(u64, u64)>, meta: Metadata)
    ensures
        meta.key() is Some ==> is_counted(counted(seen, meta), meta),
        counted(counted(seen, meta), meta) == counted(seen, meta),
        forall|other: Metadata|
            #![auto]
            is_counted(seen, other) ==> is_counted(counted(seen, meta), other),
{
    assert(counted(counted(seen, meta), meta) =~= counted(seen, meta));
}

} // verus!
