//! The metadata of files, for repositories that hold a file tree, and the
//! iterators over the paths of such a tree.
//!
//! This module holds the values and the arithmetic; reading metadata from a
//! file system and writing it back is the business of whoever implements
//! [`FileMetadata`] for a platform.

use vstd::prelude::*;
use crate::error::Error;
use crate::handle::ObjectHandle;

verus! {

/// The number of nanoseconds in a second.
pub const NANOS_PER_SECOND: i64 = 1_000_000_000;

/// A point in time: `seconds` whole seconds from the Unix epoch, negative
/// before it, and `nanoseconds` more.
#[derive(Debug, Clone, Copy, PartialEq, Eq, Structural, Hash)]
pub struct FileTime {
    pub seconds: i64,
    pub nanoseconds: u32,
}

impl FileTime {
    /// The number of nanoseconds from the epoch to this time.
    pub open spec fn nanos(self) -> int {
        self.seconds * 1_000_000_000 + self.nanoseconds
    }

    /// The invariant of a time: its nanoseconds are less than a second.
    pub open spec fn wf(self) -> bool {
        self.nanoseconds < 1_000_000_000
    }
}

/// The whole seconds in `nanos` nanoseconds, rounded down.
pub open spec fn whole_seconds(nanos: int) -> int {
    nanos / 1_000_000_000
}

/// Construct a time from a unix timestamp: `secs` seconds and `nsec`
/// nanoseconds from the epoch, either of which may be negative. The result
/// is `None` where the time lies further from the epoch than a `FileTime`
/// can tell.
pub fn unix_file_time(secs: i64, nsec: i64) -> (time: Option<FileTime>)
    ensures
        match time {
            Some(time) => time.wf() && time.nanos() == secs * 1_000_000_000 + nsec,
            None => {
                let seconds = whole_seconds(secs * 1_000_000_000 + nsec);
                seconds < i64::MIN || seconds > i64::MAX
            },
        },
{
    let carry: i64 = nsec / NANOS_PER_SECOND;
    let rest: i64 = nsec % NANOS_PER_SECOND;
    let (carry, nanoseconds): (i64, i64) = if rest < 0 {
        (carry - 1, rest + NANOS_PER_SECOND)
    } else {
        (carry, rest)
    };
    assert(nsec == carry * 1_000_000_000 + nanoseconds);
    assert(0 <= nanoseconds < 1_000_000_000);
    assert(whole_seconds(secs * 1_000_000_000 + nsec) == secs + carry) by {
        let total = secs * 1_000_000_000 + nsec;
        assert(total == (secs + carry) * 1_000_000_000 + nanoseconds) by (nonlinear_arith)
            requires
                total == secs * 1_000_000_000 + nsec,
                nsec == carry * 1_000_000_000 + nanoseconds,
        ;
        vstd::arithmetic::div_mod::lemma_fundamental_div_mod_converse(
            total,
            1_000_000_000,
            secs + carry,
            nanoseconds as int,
        );
    }
    match secs.checked_add(carry) {
        Some(seconds) => {
            assert(seconds * 1_000_000_000 + nanoseconds == secs * 1_000_000_000 + nsec)
                by (nonlinear_arith)
                requires
                    seconds == secs + carry,
                    nsec == carry * 1_000_000_000 + nanoseconds,
            ;
            Some(FileTime { seconds, nanoseconds: nanoseconds as u32 })
        },
        None => None,
    }
}

/// A `FileMetadata` which stores no metadata.
#[derive(Debug, PartialEq, Eq, Structural, Hash, Clone, Copy)]
pub struct NoMetadata;

/// A qualifier which determines who is granted a set of permissions in an
/// access control list.
#[derive(Debug, PartialEq, Eq, Structural, Hash, Clone, Copy)]
pub enum AccessQualifier {
    /// The user with a given UID.
    User(u32),
    /// The group with a given GID.
    Group(u32),
}

/// The permission mode for an access control list: a set of the permissions
/// to read, to write and to execute.
#[derive(Debug, PartialEq, Eq, Structural, Hash, Clone, Copy)]
pub struct AccessMode {
    bits: u32,
}

/// The bit of the permission to read.
pub const ACCESS_READ: u32 = 4;

/// The bit of the permission to write.
pub const ACCESS_WRITE: u32 = 2;

/// The bit of the permission to execute.
pub const ACCESS_EXECUTE: u32 = 1;

impl AccessMode {
    /// The bits of this mode.
    pub closed spec fn spec_bits(self) -> u32 {
        self.bits
    }

    /// The mode with the permissions whose bits are set in `bits`, or `None`
    /// where `bits` has a bit that stands for no permission.
    pub fn from_bits(bits: u32) -> (mode: Option<AccessMode>)
        ensures
            match mode {
                Some(mode) => mode.spec_bits() == bits && bits <= 7,
                None => bits > 7,
            },
    {
        if bits > 7 {
            None
        } else {
            Some(AccessMode { bits })
        }
    }

    /// The bits of this mode.
    pub fn bits(&self) -> (bits: u32)
        ensures
            bits == self.spec_bits(),
    {
        self.bits
    }

    /// Whether this mode grants every permission that `other` grants.
    pub fn contains(&self, other: AccessMode) -> (all: bool)
        ensures
            all == (self.spec_bits() & other.spec_bits() == other.spec_bits()),
    {
        self.bits & other.bits == other.bits
    }
}

/// An extended attribute of a file.
#[derive(Debug)]
pub struct Attribute {
    pub name: String,
    pub value: Vec<u8>,
}

/// An entry of an access control list.
#[derive(Debug, PartialEq, Eq, Structural, Hash, Clone, Copy)]
pub struct AccessEntry {
    pub qualifier: AccessQualifier,
    pub mode: AccessMode,
}

/// A `FileMetadata` for unix-like operating systems.
#[derive(Debug)]
pub struct UnixMetadata {
    /// The file mode (st_mode).
    pub mode: u32,
    /// The time the file was last modified (st_mtime).
    pub modified: FileTime,
    /// The time the file was last accessed (st_atime).
    pub accessed: FileTime,
    /// The time the file metadata was last changed (st_ctime).
    pub changed: FileTime,
    /// The UID of the user which owns the file (st_uid).
    pub user: u32,
    /// The GID of the group which owns the file (st_gid).
    pub group: u32,
    /// The extended attributes of the file.
    pub attributes: Vec<Attribute>,
    /// The access control list for the file.
    pub acl: Vec<AccessEntry>,
}

/// A `FileMetadata` for metadata that is common to most platforms.
#[derive(Debug, PartialEq, Eq, Structural, Hash, Clone, Copy)]
pub struct CommonMetadata {
    /// The time the file was last modified.
    pub modified: FileTime,
    /// The time the file was last accessed.
    pub accessed: FileTime,
}

/// The metadata for a file in the file system.
///
/// This trait can be implemented to customize how a repository of files
/// handles file metadata.
pub trait FileMetadata: Sized {
    /// Read the metadata from the file at `path` and create a new instance.
    fn from_file(path: &str) -> Result<Self, Error>;

    /// Write this metadata to the file at `path`.
    fn write_metadata(&self, path: &str) -> Result<(), Error>;
}

impl FileMetadata for NoMetadata {
    fn from_file(path: &str) -> (result: Result<Self, Error>)
        ensures
            result == Ok::<NoMetadata, Error>(NoMetadata),
    {
        Ok(NoMetadata)
    }

    fn write_metadata(&self, path: &str) -> (result: Result<(), Error>)
        ensures
            result is Ok,
    {
        Ok(())
    }
}

/// A type of file which can be stored in an archive.
#[derive(Debug)]
pub enum EntryType {
    /// A regular file.
    File {
        /// The contents of the file.
        data: ObjectHandle,
    },
    /// A directory.
    Directory,
    /// A symbolic link.
    Link {
        /// The file the symbolic link points to.
        target: String,
    },
}

/// Metadata about a file stored in an archive.
#[derive(Debug)]
pub struct ArchiveEntry {
    /// The time the file was last modified.
    pub modified_time: FileTime,
    /// The POSIX permissions of the file, or `None` if POSIX permissions are
    /// not applicable.
    pub permissions: Option<i32>,
    /// The file's extended attributes.
    pub attributes: Vec<Attribute>,
    /// The type of file this entry represents.
    pub entry_type: EntryType,
}

/// An iterator over the children of an entry in a tree of files.
///
/// The tree keeps a handle with each path; the iterator hands out the
/// paths, in the order in which the tree gave them.
#[derive(Debug)]
pub struct List<H> {
    /// The children, each with the handle that the tree keeps for it.
    pub entries: Vec<(String, H)>,
    /// The number of paths that have been handed out.
    pub taken: usize,
}

impl<H> List<H> {
    /// The paths that have not been handed out, in the order in which they
    /// will be.
    pub open spec fn remaining(&self) -> Seq<Seq<char>> {
        Seq::new(
            if self.taken <= self.entries@.len() {
                (self.entries@.len() - self.taken) as nat
            } else {
                0
            },
            |i: int| self.entries@[self.taken + i].0@,
        )
    }

    /// Iterate over `entries`.
    pub fn new(entries: Vec<(String, H)>) -> (list: Self)
        ensures
            list.remaining() == Seq::new(entries@.len(), |i: int| entries@[i].0@),
    {
        let list = List { entries, taken: 0 };
        assert(list.remaining() =~= Seq::new(entries@.len(), |i: int| entries@[i].0@));
        list
    }

    /// Hand out the next path, or `None` when there is none left.
    pub fn next(&mut self) -> (path: Option<String>)
        ensures
            match path {
                Some(path) => old(self).remaining().len() > 0 && path@ == old(self).remaining()[0]
                    && final(self).remaining() == old(self).remaining().skip(1),
                None => old(self).remaining().len() == 0 && final(self).remaining().len() == 0,
            },
    {
        if self.taken < self.entries.len() {
            let path = self.entries[self.taken].0.clone();
            self.taken = self.taken + 1;
            assert(self.remaining() =~= old(self).remaining().skip(1));
            assert(path@ == old(self).remaining()[0]);
            Some(path)
        } else {
            None
        }
    }

    /// The number of paths that are left, as a lower and an upper bound.
    pub fn size_hint(&self) -> (bounds: (usize, Option<usize>))
        ensures
            bounds.0 == self.remaining().len(),
            bounds.1 == Some(bounds.0),
    {
        let left = if self.taken <= self.entries.len() {
            self.entries.len() - self.taken
        } else {
            0
        };
        (left, Some(left))
    }
}

/// An iterator over the descendants of an entry in a tree of files.
///
/// The tree keeps a handle with each path; the iterator hands out the
/// paths, in the order in which the tree gave them.
#[derive(Debug)]
pub struct Walk<H> {
    /// The descendants, each with the handle that the tree keeps for it.
    pub entries: Vec<(String, H)>,
    /// The number of paths that have been handed out.
    pub taken: usize,
}

impl<H> Walk<H> {
    /// The paths that have not been handed out, in the order in which they
    /// will be.
    pub open spec fn remaining(&self) -> Seq<Seq<char>> {
        Seq::new(
            if self.taken <= self.entries@.len() {
                (self.entries@.len() - self.taken) as nat
            } else {
                0
            },
            |i: int| self.entries@[self.taken + i].0@,
        )
    }

    /// Iterate over `entries`.
    pub fn new(entries: Vec<(String, H)>) -> (walk: Self)
        ensures
            walk.remaining() == Seq::new(entries@.len(), |i: int| entries@[i].0@),
    {
        let walk = Walk { entries, taken: 0 };
        assert(walk.remaining() =~= Seq::new(entries@.len(), |i: int| entries@[i].0@));
        walk
    }

    /// Hand out the next path, or `None` when there is none left.
    pub fn next(&mut self) -> (path: Option<String>)
        ensures
            match path {
                Some(path) => old(self).remaining().len() > 0 && path@ == old(self).remaining()[0]
                    && final(self).remaining() == old(self).remaining().skip(1),
                None => old(self).remaining().len() == 0 && final(self).remaining().len() == 0,
            },
    {
        if self.taken < self.entries.len() {
            let path = self.entries[self.taken].0.clone();
            self.taken = self.taken + 1;
            assert(self.remaining() =~= old(self).remaining().skip(1));
            assert(path@ == old(self).remaining()[0]);
            Some(path)
        } else {
            None
        }
    }

    /// The number of paths that are left, as a lower and an upper bound.
    pub fn size_hint(&self) -> (bounds: (usize, Option<usize>))
        ensures
            bounds.0 == self.remaining().len(),
            bounds.1 == Some(bounds.0),
    {
        let left = if self.taken <= self.entries.len() {
            self.entries.len() - self.taken
        } else {
            0
        };
        (left, Some(left))
    }
}

} // verus!
