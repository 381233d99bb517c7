//! The archive member model: a path, a size, permission bits, a
//! modification time and a kind, with the validity rules a ustar header
//! imposes and the directory-path normalization applied on encode.

use vstd::prelude::*;
use crate::errors::EncodingError;
use crate::octal::pow8;

verus! {

/// The kind of an archive member.
#[derive(Debug, Clone)]
pub enum EntryType {
    RegularFile,
    Directory,
    /// A symbolic link and its target path.
    Symlink(Vec<u8>),
    /// A member of a kind this codec does not model; encoded as a
    /// regular file, as tar readers conventionally treat unknown kinds.
    Other,
}

/// One archive member. The checksum is computed on encode, never stored here.
#[derive(Debug, Clone)]
pub struct Entry {
    /// Archive-relative path, as bytes.
    pub path: Vec<u8>,
    /// Payload size in bytes; zero for directories and symlinks.
    pub size: u64,
    /// Permission bits.
    pub mode: u32,
    /// Modification time, seconds since the epoch.
    pub mtime: u64,
    pub entry_type: EntryType,
}

/// Mathematical model of an entry kind.
#[verifier::ext_equal]
pub enum EntryTypeModel {
    RegularFile,
    Directory,
    Symlink(Seq<u8>),
    Other,
}

/// Mathematical model of an entry.
#[verifier::ext_equal]
pub struct EntryModel {
    pub path: Seq<u8>,
    pub size: u64,
    pub mode: u32,
    pub mtime: u64,
    pub entry_type: EntryTypeModel,
}

impl View for EntryType {
    type V = EntryTypeModel;

    open spec fn view(&self) -> EntryTypeModel {
        match self {
            EntryType::RegularFile => EntryTypeModel::RegularFile,
            EntryType::Directory => EntryTypeModel::Directory,
            EntryType::Symlink(t) => EntryTypeModel::Symlink(t@),
            EntryType::Other => EntryTypeModel::Other,
        }
    }
}

impl View for Entry {
    type V = EntryModel;

    open spec fn view(&self) -> EntryModel {
        EntryModel {
            path: self.path@,
            size: self.size,
            mode: self.mode,
            mtime: self.mtime,
            entry_type: self.entry_type@,
        }
    }
}

/// True when some byte of `s` is NUL.
pub open spec fn has_nul(s: Seq<u8>) -> bool {
    exists|k: int| 0 <= k < s.len() && s[k] == 0
}

/// The link target of a kind; empty except for symlinks.
pub open spec fn link_target(t: EntryTypeModel) -> Seq<u8> {
    match t {
        EntryTypeModel::Symlink(s) => s,
        _ => Seq::empty(),
    }
}

/// Directories and symlinks carry no data blocks.
pub open spec fn needs_zero_size(t: EntryTypeModel) -> bool {
    t is Directory || t is Symlink
}

/// Directory paths are normalized to end with '/' on encode, so readers
/// can infer directory-ness even from legacy archives.
pub open spec fn spec_normalize(e: EntryModel) -> EntryModel {
    if e.entry_type is Directory && (e.path.len() == 0 || e.path.last() != 47) {
        EntryModel { path: e.path.push(47), ..e }
    } else {
        e
    }
}

/// True when normalization would leave `e` unchanged.
pub open spec fn is_normalized(e: EntryModel) -> bool {
    e.entry_type is Directory ==> e.path.len() > 0 && e.path.last() == 47
}

/// The first place after the start where a long path can split into a
/// ustar prefix and name: the smallest `i >= start` where `path[i]` is
/// '/' and at most 100 bytes follow it, or `path.len()` when there is
/// none.
pub open spec fn first_split_from(path: Seq<u8>, start: int) -> int
    decreases path.len() - start
        when 0 <= start <= path.len()
{
    if start >= path.len() {
        path.len() as int
    } else if path[start] == 47 && path.len() - start - 1 <= 100 {
        start
    } else {
        first_split_from(path, start + 1)
    }
}

/// Where a long path splits into prefix and name; the prefix is never
/// empty, so the split is searched from index 1.
pub open spec fn split_index(path: Seq<u8>) -> int {
    first_split_from(path, 1)
}

/// A path is representable in a ustar header when it fits the name
/// field outright, or splits at a '/' into a prefix of at most 155
/// bytes and a name of at most 100.
pub open spec fn path_fits(path: Seq<u8>) -> bool {
    ||| path.len() <= 100
    ||| (split_index(path) < path.len() && split_index(path) <= 155)
}

/// The name-field part of a representable path.
pub open spec fn name_part(path: Seq<u8>) -> Seq<u8> {
    if path.len() <= 100 {
        path
    } else {
        path.skip(split_index(path) + 1)
    }
}

/// The prefix-field part of a representable path; empty for short paths.
pub open spec fn prefix_part(path: Seq<u8>) -> Seq<u8> {
    if path.len() <= 100 {
        Seq::empty()
    } else {
        path.take(split_index(path))
    }
}

/// Why `e` cannot be encoded, or `None` when it can; the checks run in
/// this order, so exactly one error is owed for each rejected entry.
pub open spec fn entry_error(e: EntryModel) -> Option<EncodingError> {
    if e.path.len() == 0 || has_nul(e.path) || (needs_zero_size(e.entry_type) && e.size != 0)
        || has_nul(link_target(e.entry_type)) {
        Some(EncodingError::InvalidEntry)
    } else if !path_fits(spec_normalize(e).path) {
        Some(EncodingError::PathTooLong)
    } else if link_target(e.entry_type).len() > 100 {
        Some(EncodingError::LinkTargetTooLong)
    } else if e.mode as int >= pow8(7) || e.mtime as int >= pow8(11) {
        Some(EncodingError::FieldTooLarge)
    } else {
        None
    }
}

/// Everything a header encoding needs of an entry model.
pub open spec fn valid_model(e: EntryModel) -> bool {
    &&& 1 <= e.path.len()
    &&& path_fits(e.path)
    &&& !has_nul(e.path)
    &&& (e.mode as int) < pow8(7)
    &&& (e.mtime as int) < pow8(11)
    &&& (needs_zero_size(e.entry_type) ==> e.size == 0)
    &&& !has_nul(link_target(e.entry_type))
    &&& link_target(e.entry_type).len() <= 100
}

/// `first_split_from` is the unique boundary: no position before it
/// satisfies the split condition, and it does (or none in the path does).
pub proof fn lemma_first_split_char(path: Seq<u8>, start: int, n: int)
    requires
        0 <= start <= n <= path.len(),
        forall|k: int| start <= k < n ==> !(path[k] == 47 && path.len() - k - 1 <= 100),
        n == path.len() || (path[n] == 47 && path.len() - n - 1 <= 100),
    ensures
        first_split_from(path, start) == n,
    decreases n - start,
{
    if start < n {
        lemma_first_split_char(path, start + 1, n);
    }
}

/// The chosen split point lies in the path and satisfies the split
/// condition whenever it exists.
pub proof fn lemma_first_split_bounds(path: Seq<u8>, start: int)
    requires
        0 <= start <= path.len(),
    ensures
        start <= first_split_from(path, start) <= path.len(),
        first_split_from(path, start) < path.len() ==> path[first_split_from(path, start)] == 47
            && path.len() - first_split_from(path, start) - 1 <= 100,
    decreases path.len() - start,
{
    if start < path.len() && !(path[start] == 47 && path.len() - start - 1 <= 100) {
        lemma_first_split_bounds(path, start + 1);
    }
}

/// What the two parts of a representable NUL-free path look like, and
/// that joining them with '/' restores the path.
pub proof fn lemma_path_parts(path: Seq<u8>)
    requires
        path.len() >= 1,
        path_fits(path),
        !has_nul(path),
    ensures
        name_part(path).len() <= 100,
        prefix_part(path).len() <= 155,
        !has_nul(name_part(path)),
        !has_nul(prefix_part(path)),
        path.len() > 100 ==> prefix_part(path).len() >= 1 && prefix_part(path) + seq![47u8]
            + name_part(path) == path,
{
    if path.len() <= 100 {
        assert(prefix_part(path).len() == 0);
    } else {
        lemma_first_split_bounds(path, 1);
        let i = split_index(path);
        assert(1 <= i <= 155);
        assert(path[i] == 47 && path.len() - i - 1 <= 100);
        assert(!has_nul(name_part(path))) by {
            if has_nul(name_part(path)) {
                let k = choose|k: int|
                    0 <= k < name_part(path).len() && name_part(path)[k] == 0;
                assert(path[i + 1 + k] == 0);
            }
        }
        assert(!has_nul(prefix_part(path))) by {
            if has_nul(prefix_part(path)) {
                let k = choose|k: int|
                    0 <= k < prefix_part(path).len() && prefix_part(path)[k] == 0;
                assert(path[k] == 0);
            }
        }
        assert(prefix_part(path) + seq![47u8] + name_part(path) =~= path);
    }
}

/// An accepted entry normalizes to a valid, normalized model.
pub proof fn lemma_accepted_entry_valid(e: EntryModel)
    requires
        entry_error(e) is None,
    ensures
        valid_model(spec_normalize(e)),
        is_normalized(spec_normalize(e)),
        spec_normalize(e).size == e.size,
        spec_normalize(e).entry_type == e.entry_type,
{
    let n = spec_normalize(e);
    if e.entry_type is Directory && (e.path.len() == 0 || e.path.last() != 47) {
        assert(!has_nul(n.path)) by {
            if has_nul(n.path) {
                let k = choose|k: int| 0 <= k < n.path.len() && n.path[k] == 0;
                assert(k < e.path.len());
                assert(e.path[k] == 0);
            }
        }
        assert(n.path.last() == 47);
    }
}

} // verus!
