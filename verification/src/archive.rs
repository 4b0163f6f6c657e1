//! An RPF archive held in memory: its entries, its directory tree and the
//! files in it, found by full path or bare file name without regard to case,
//! and extracted, also from an archive nested inside another.
//!
//! Parsing the table of contents, building the tree and extracting (with its
//! decryption) are the work of `rpf_archive`; this module checks what it
//! hands that crate (an RPF7 archive, a table the directory walk can go down,
//! a complete key set), keeps what the crate hands back and does the looking
//! up.

use vstd::prelude::*;
use rpf_archive::{DirNode, GtaKeys, RpfArchive, RpfEncryption};
use crate::text::{chars_of, find, find_first, string_from_chars};
use crate::rsc7::{le32, read_le32};

verus! {

#[verifier::external_type_specification]
#[verifier::external_body]
pub struct ExRpfArchive(RpfArchive);

#[verifier::external_type_specification]
#[verifier::external_body]
pub struct ExDirNode(DirNode);

#[verifier::external_type_specification]
#[verifier::external_body]
pub struct ExGtaKeys(GtaKeys);

#[verifier::external_type_specification]
#[verifier::external_body]
pub struct ExRpfEncryption(RpfEncryption);

#[verifier::external_type_specification]
#[verifier::external_body]
pub struct ExAnyhowError(anyhow::Error);

/// Code of a directory entry in `rpf_entries`.
pub const KIND_DIRECTORY: u8 = 0;
/// Code of a plain (binary) file entry.
pub const KIND_BINARY: u8 = 1;
/// Code of a resource (RSC) file entry.
pub const KIND_RESOURCE: u8 = 2;

/// First four bytes of an RPF7 archive, read little-endian.
pub const RPF7_MAGIC: u32 = 0x52504637;
/// How many NG keys a key set holds, and the length in bytes of each.
pub const NG_KEY_COUNT: usize = 101;
pub const NG_KEY_LEN: usize = 272;

/// Each entry of a parsed archive's table of contents, in order, as
/// (kind code, first child index, child count, encrypted): the child range is
/// that of a directory (zeros for a file), the flag that of a file (false for
/// a directory).
pub uninterp spec fn rpf_entries(a: RpfArchive) -> Seq<(u8, u32, u32, bool)>;

/// The kind code of each entry of a parsed archive.
pub open spec fn rpf_entry_kinds(a: RpfArchive) -> Seq<u8> {
    rpf_entries(a).map_values(|e: (u8, u32, u32, bool)| e.0)
}

/// The entry table that `RpfArchive::parse` reads out of an RPF7 archive's
/// bytes named `name`, decrypting it with `keys` where it is encrypted and
/// keys are given.
pub uninterp spec fn rpf_toc(data: Seq<u8>, name: Seq<char>, keys: Option<&GtaKeys>) -> Seq<(u8, u32, u32, bool)>;

/// What `RpfArchive::extract_entry` gives for entry `index` of `a` out of
/// `data` with the key set `keys` (decrypting an encrypted entry with it):
/// its bytes, or `None` where it refuses.
pub uninterp spec fn rpf_extracted(a: RpfArchive, data: Seq<u8>, index: usize, keys: Option<&GtaKeys>) -> Option<Seq<u8>>;

/// The length in bytes of each NG key of a key set.
pub uninterp spec fn rpf_ng_key_lengths(k: GtaKeys) -> Seq<usize>;

/// Whether `d` starts like an RPF7 archive.
pub open spec fn is_rpf7(d: Seq<u8>) -> bool {
    d.len() >= 4 && le32(d.subrange(0, 4)) == RPF7_MAGIC
}

/// Whether `d` carries the magic of an archive version other than RPF7 that
/// `rpf_archive` knows (RPF0, 2, 3, 4, 6 and 8, IMG2, IMG3).
pub open spec fn other_version(d: Seq<u8>) -> bool {
    d.len() >= 12 && {
        let m = le32(d.subrange(0, 4));
        ||| m == 0x30465052
        ||| m == 0x32465052
        ||| m == 0x33465052
        ||| m == 0x34465052
        ||| m == 0x36465052
        ||| m == 0x52504638
        ||| m == 0x32524556
        ||| m == 0xA94E2A52
    }
}

/// Whether the header and the table of contents (16 bytes per entry, then the
/// names) fit in `d`.
pub open spec fn toc_fits(d: Seq<u8>) -> bool {
    &&& d.len() >= 16
    &&& d.len() >= 16 + 16 * le32(d.subrange(4, 8)) + le32(d.subrange(8, 12))
}

/// Whether a key set holds every NG key that decryption may pick, each long
/// enough for all its round keys.
pub open spec fn keys_sound(k: GtaKeys) -> bool {
    let l = rpf_ng_key_lengths(k);
    &&& l.len() >= NG_KEY_COUNT
    &&& forall|i: int| 0 <= i < NG_KEY_COUNT ==> l[i] >= NG_KEY_LEN
}

/// No keys, or sound ones.
pub open spec fn keys_fit(keys: Option<&GtaKeys>) -> bool {
    keys matches Some(k) ==> keys_sound(*k)
}

/// Where the child range of entry `i` ends: its start plus its count, cut at
/// the end of the table.
pub open spec fn range_end(e: Seq<(u8, u32, u32, bool)>, i: int) -> int {
    if e[i].1 + e[i].2 < e.len() {
        e[i].1 + e[i].2
    } else {
        e.len() as int
    }
}

/// Whether entry `i` is a directory whose child range holds an entry.
pub open spec fn holds_children(e: Seq<(u8, u32, u32, bool)>, i: int) -> bool {
    e[i].0 == KIND_DIRECTORY && (e[i].1 as int) < range_end(e, i)
}

/// Whether entry `x` lies in the child range of directory `k`.
pub open spec fn covers(e: Seq<(u8, u32, u32, bool)>, k: int, x: int) -> bool {
    0 <= k < e.len() && holds_children(e, k) && e[k].1 <= x < range_end(e, k)
}

/// How deep directories may be nested: the directory walk recurses once per
/// level, and a table nested deeper is refused.
pub const MAX_NESTING: usize = 64;

/// Whether some directory lists entry `x` among its children.
pub open spec fn has_parent(e: Seq<(u8, u32, u32, bool)>, x: int) -> bool {
    exists|k: int| #[trigger] covers(e, k, x)
}

/// A directory that lists entry `x` among its children.
pub open spec fn parent(e: Seq<(u8, u32, u32, bool)>, x: int) -> int {
    choose|k: int| #[trigger] covers(e, k, x)
}

/// How many directories lie above entry `x`, going from each entry to the
/// directory that lists it (where that directory comes earlier).
pub open spec fn nesting(e: Seq<(u8, u32, u32, bool)>, x: int) -> nat
    decreases x,
{
    if x > 0 && has_parent(e, x) && 0 <= parent(e, x) < x {
        nesting(e, parent(e, x)) + 1
    } else {
        0
    }
}

/// Whether no entry lies more than `MAX_NESTING` directories deep.
pub open spec fn shallow(e: Seq<(u8, u32, u32, bool)>) -> bool {
    forall|x: int| 0 <= x < e.len() ==> #[trigger] nesting(e, x) <= MAX_NESTING
}

/// Whether no two directories share a child: their child ranges are apart.
pub open spec fn ranges_apart(e: Seq<(u8, u32, u32, bool)>) -> bool {
    forall|i: int, j: int|
        #![trigger e[i], e[j]]
        0 <= i < j < e.len() && holds_children(e, i) && holds_children(e, j) ==> range_end(e, i)
            <= e[j].1 || range_end(e, j) <= e[i].1
}

/// Whether the table of contents is a tree the directory walk goes down:
/// every directory before its children, no entry the child of two, and no
/// entry nested deeper than `MAX_NESTING`.
pub open spec fn walkable(e: Seq<(u8, u32, u32, bool)>) -> bool {
    children_follow(e) && ranges_apart(e) && shallow(e)
}

/// Whether every directory whose child range holds an entry lies before all
/// of its children.
pub open spec fn children_follow(e: Seq<(u8, u32, u32, bool)>) -> bool {
    forall|i: int|
        #![trigger e[i]]
        0 <= i < e.len() && e[i].0 == KIND_DIRECTORY && (e[i].1 as int) < range_end(e, i) ==> e[i].1
            > i
}

/// The files of a directory tree in the order `rpf_archive::list_all_files`
/// gives them (a node's own files, then each subdirectory in turn), each as
/// (name, path, entry index, size, memory size, is a resource).
pub uninterp spec fn rpf_tree_files(d: DirNode) -> Seq<(Seq<char>, Seq<char>, usize, u32, u32, bool)>;

/// The files of the directory tree `rpf_archive::build_directory_tree` builds
/// over a parsed archive's entries, in the order `rpf_tree_files` lists them.
pub uninterp spec fn rpf_dir_files(a: RpfArchive) -> Seq<(Seq<char>, Seq<char>, usize, u32, u32, bool)>;

/// `rpf_dir_files` of the archive `RpfArchive::parse` makes of the bytes
/// `data` named `name` with the key set `keys`.
pub uninterp spec fn rpf_toc_files(data: Seq<u8>, name: Seq<char>, keys: Option<&GtaKeys>) -> Seq<(Seq<char>, Seq<char>, usize, u32, u32, bool)>;

/// Unicode lower case (`str::to_lowercase`) of a string that is not all
/// ASCII.
pub uninterp spec fn unicode_lowercase(s: Seq<char>) -> Seq<char>;

/// Whether every character of `s` is ASCII.
pub open spec fn is_ascii_chars(s: Seq<char>) -> bool {
    forall|i: int| 0 <= i < s.len() ==> (s[i] as u32) < 128
}

/// The code of an ASCII capital letter turned small; any other code kept.
pub open spec fn ascii_lower_code(x: u32) -> u32 {
    if 65 <= x <= 90 {
        (x + 32) as u32
    } else {
        x
    }
}

/// An ASCII capital letter turned small; any other character kept.
pub open spec fn ascii_lower_char(c: char) -> char {
    ascii_lower_code(c as u32) as char
}

/// Lower case of a string: for an all-ASCII string each capital letter made
/// small, for any other string its Unicode lower case.
pub open spec fn lowercase(s: Seq<char>) -> Seq<char> {
    if is_ascii_chars(s) {
        s.map_values(|c: char| ascii_lower_char(c))
    } else {
        unicode_lowercase(s)
    }
}

/// A file of the archive's tree.
pub struct FileEntry {
    pub name: String,
    pub path: String,
    /// Index of its entry in the archive's table of contents.
    pub entry_index: usize,
    /// On-disk (compressed) size.
    pub size: u32,
    /// Uncompressed size, or the resource's system page size.
    pub mem_size: u32,
    pub is_resource: bool,
}

impl View for FileEntry {
    type V = (Seq<char>, Seq<char>, usize, u32, u32, bool);

    open spec fn view(&self) -> Self::V {
        (self.name@, self.path@, self.entry_index, self.size, self.mem_size, self.is_resource)
    }
}

/// The kind of an archive entry.
#[derive(Clone, Copy, PartialEq, Eq, Structural, Debug)]
pub enum EntryKind {
    Directory,
    BinaryFile,
    ResourceFile,
}

pub open spec fn kind_of(code: u8) -> EntryKind {
    if code == KIND_DIRECTORY {
        EntryKind::Directory
    } else if code == KIND_RESOURCE {
        EntryKind::ResourceFile
    } else {
        EntryKind::BinaryFile
    }
}

/// Why an archive could not be opened or a file not be had from it.
pub enum ArchiveError {
    /// `rpf_archive` refused the archive's bytes.
    Parse { name: String, source: anyhow::Error },
    /// The bytes are an archive of another version than RPF7 (its magic).
    Unsupported { name: String, magic: u32 },
    /// The table of contents is not a tree the directory walk can go down: a
    /// directory lists itself or an earlier entry among its children, two
    /// directories share a child, or directories nest deeper than
    /// `MAX_NESTING`.
    Unordered { name: String },
    /// No file of that name in the archive.
    NotFound { name: String, archive: String },
    /// `rpf_archive` could not extract the file.
    Extract { name: String, source: anyhow::Error },
}

/// `RpfArchive::parse` of an RPF7 archive (or of bytes too short or of no
/// known magic, which it refuses), with `keys` sound where given. The
/// contract claims what the crate's source shows: the bytes parse exactly
/// when the header and the table of contents fit in them, and the archive is
/// a function of the bytes, the name and the keys (the name and the keys pick
/// the decryption): its entries are `rpf_toc` of them, and the files of its
/// directory tree `rpf_toc_files` of them.
#[verifier::external_body]
fn rpf_parse(data: &[u8], name: &str, keys: Option<&GtaKeys>) -> (r: Result<RpfArchive, anyhow::Error>)
    requires
        !other_version(data@),
        keys_fit(keys),
    ensures
        match r {
            Ok(a) => {
                &&& is_rpf7(data@)
                &&& toc_fits(data@)
                &&& rpf_entries(a) == rpf_toc(data@, name@, keys)
                &&& rpf_dir_files(a) == rpf_toc_files(data@, name@, keys)
            },
            Err(_) => !(is_rpf7(data@) && toc_fits(data@)),
        },
{
    RpfArchive::parse(data, name, keys)
}

/// The `encryption` field of a parsed archive. Nothing is claimed of it.
#[verifier::external_body]
fn encryption_of(a: &RpfArchive) -> (r: RpfEncryption) {
    a.encryption
}

/// Each of `a.entries` as (kind code, first child, child count, encrypted),
/// one arm per `RpfEntryKind` variant: the contract claims the table is
/// `rpf_entries(a)`.
#[verifier::external_body]
fn entry_table(a: &RpfArchive) -> (r: Vec<(u8, u32, u32, bool)>)
    ensures
        r@ == rpf_entries(*a),
{
    a.entries.iter().map(|e| match e.kind {
        rpf_archive::RpfEntryKind::Directory { entries_index, entries_count } => (KIND_DIRECTORY, entries_index, entries_count, false),
        rpf_archive::RpfEntryKind::BinaryFile { is_encrypted, .. } => (KIND_BINARY, 0, 0, is_encrypted),
        rpf_archive::RpfEntryKind::ResourceFile { is_encrypted, .. } => (KIND_RESOURCE, 0, 0, is_encrypted),
    }).collect()
}

/// The length of each of `k.ng_keys`: the contract claims they are
/// `rpf_ng_key_lengths(k)`.
#[verifier::external_body]
fn ng_key_lengths(k: &GtaKeys) -> (r: Vec<usize>)
    ensures
        r@ == rpf_ng_key_lengths(*k),
{
    k.ng_keys.iter().map(|key| key.len()).collect()
}

/// `rpf_archive::build_directory_tree` over the archive's entries, for a
/// table in which every directory comes before its children, no entry is the
/// child of two directories and nothing is nested deeper than `MAX_NESTING`
/// (the crate walks each directory's child range recursively, so each step
/// goes further down the table, each entry is visited at most once, and the
/// walk ends at most `MAX_NESTING` calls deep). The contract claims what its
/// source shows: the tree is a function of the archive's entries, its files
/// being `rpf_dir_files(a)`, and every file of the tree has the index of an
/// entry of the archive, and that entry is not a directory.
#[verifier::external_body]
fn directory_tree(a: &RpfArchive) -> (r: DirNode)
    requires
        walkable(rpf_entries(*a)),
    ensures
        rpf_tree_files(r) == rpf_dir_files(*a),
        forall|i: int|
            0 <= i < rpf_tree_files(r).len() ==> {
                let k = (#[trigger] rpf_tree_files(r)[i]).2;
                &&& k < rpf_entries(*a).len()
                &&& rpf_entries(*a)[k as int].0 != KIND_DIRECTORY
            },
{
    rpf_archive::build_directory_tree(&a.entries)
}

/// `rpf_archive::list_all_files`, each `FileRef` copied field by field: the
/// contract claims the copies are `rpf_tree_files(root)`.
#[verifier::external_body]
fn tree_files(root: &DirNode) -> (r: Vec<FileEntry>)
    ensures
        r@.map_values(|f: FileEntry| f@) == rpf_tree_files(*root),
{
    rpf_archive::list_all_files(root).into_iter().map(|f| FileEntry {
        name: f.name.clone(),
        path: f.path.clone(),
        entry_index: f.entry_index,
        size: f.size,
        mem_size: f.mem_size,
        is_resource: f.is_resource,
    }).collect()
}

/// `RpfArchive::extract_entry` of entry `index` of `a` out of the archive's
/// bytes, with `keys` sound where given. The contract claims what its source
/// shows: a directory entry is refused, and the outcome, a function of the
/// archive, its bytes, the index and the keys, is `rpf_extracted(a, data,
/// index, keys)`.
#[verifier::external_body]
fn rpf_extract(a: &RpfArchive, data: &[u8], index: usize, keys: Option<&GtaKeys>) -> (r: Result<Vec<u8>, anyhow::Error>)
    requires
        index < rpf_entries(*a).len(),
        keys_fit(keys),
    ensures
        rpf_entries(*a)[index as int].0 == KIND_DIRECTORY ==> r is Err,
        match r {
            Ok(b) => rpf_extracted(*a, data@, index, keys) == Some(b@),
            Err(_) => rpf_extracted(*a, data@, index, keys) is None,
        },
{
    a.extract_entry(data, &a.entries[index], keys)
}

/// Whether a key set is sound: it holds every NG key that decryption may
/// pick, each long enough.
pub fn keys_usable(k: &GtaKeys) -> (r: bool)
    ensures
        r == keys_sound(*k),
{
    let lens = ng_key_lengths(k);
    if lens.len() < NG_KEY_COUNT {
        return false;
    }
    let mut i: usize = 0;
    while i < NG_KEY_COUNT
        invariant
            i <= NG_KEY_COUNT <= lens@.len(),
            lens@ == rpf_ng_key_lengths(*k),
            forall|j: int| 0 <= j < i ==> lens@[j] >= NG_KEY_LEN,
        decreases NG_KEY_COUNT - i,
    {
        if lens[i] < NG_KEY_LEN {
            return false;
        }
        i = i + 1;
    }
    true
}

/// Whether no two directories of `table` share a child: each directory's
/// children are marked with its index, and a child found marked already is
/// shared.
fn ranges_apart_exec(table: &Vec<(u8, u32, u32, bool)>) -> (r: bool)
    ensures
        r == ranges_apart(table@),
{
    let n = table.len();
    let mut owner: Vec<usize> = Vec::new();
    let mut x: usize = 0;
    while x < n
        invariant
            x <= n,
            owner@.len() == x,
            forall|y: int| 0 <= y < x ==> owner@[y] == n,
        decreases n - x,
    {
        owner.push(n);
        x = x + 1;
    }
    let ghost e = table@;
    let mut i: usize = 0;
    while i < n
        invariant
            i <= n == e.len(),
            e == table@,
            owner@.len() == n,
            forall|y: int|
                0 <= y < n ==> #[trigger] owner@[y] == n || (owner@[y] < i && covers(e, owner@[y] as int, y)),
            forall|y: int, k: int| 0 <= y < n && 0 <= k < i && owner@[y] == n ==> !#[trigger] covers(e, k, y),
            forall|a: int, b: int|
                #![trigger e[a], e[b]]
                0 <= a < b < i && holds_children(e, a) && holds_children(e, b) ==> range_end(e, a) <= e[b].1
                    || range_end(e, b) <= e[a].1,
        decreases n - i,
    {
        let (kind, start, count, _) = table[i];
        let s64: u64 = start as u64;
        let e64: u64 = s64 + count as u64;
        let end: usize = if e64 < n as u64 {
            e64 as usize
        } else {
            n
        };
        assert(end == range_end(e, i as int));
        if kind == KIND_DIRECTORY && (start as usize) < end {
            assert(holds_children(e, i as int));
            let first: usize = start as usize;
            let mut x: usize = first;
            while x < end
                invariant
                    first <= x <= end <= n == e.len(),
                    i < n,
                    e == table@,
                    first == e[i as int].1,
                    end == range_end(e, i as int),
                    holds_children(e, i as int),
                    owner@.len() == n,
                    forall|y: int|
                        0 <= y < n ==> #[trigger] owner@[y] == n || (owner@[y] < i && covers(e, owner@[y] as int, y))
                            || (owner@[y] == i && first <= y < x),
                    forall|y: int, k: int| 0 <= y < n && 0 <= k < i && owner@[y] == n ==> !#[trigger] covers(e, k, y),
                    forall|y: int, k: int| first <= y < x && 0 <= k < i ==> !#[trigger] covers(e, k, y),
                    forall|y: int| first <= y < x ==> #[trigger] owner@[y] == i,
                    forall|a: int, b: int|
                        #![trigger e[a], e[b]]
                        0 <= a < b < i && holds_children(e, a) && holds_children(e, b) ==> range_end(e, a) <= e[b].1
                            || range_end(e, b) <= e[a].1,
                decreases end - x,
            {
                if owner[x] != n {
                    proof {
                        let k = owner@[x as int] as int;
                        assert(owner@[x as int] == n || (owner@[x as int] < i && covers(e, k, x as int))
                            || (owner@[x as int] == i && first <= x < x));
                        assert(covers(e, k, x as int));
                        assert(!(range_end(e, k) <= e[i as int].1 || range_end(e, i as int) <= e[k].1));
                    }
                    return false;
                }
                proof {
                    assert forall|k: int| 0 <= k < i implies !#[trigger] covers(e, k, x as int) by {
                        assert(owner@[x as int] == n);
                    }
                }
                owner.set(x, i);
                x = x + 1;
            }
            proof {
                assert forall|y: int, k: int|
                    0 <= y < n && 0 <= k <= i && owner@[y] == n implies !#[trigger] covers(e, k, y) by {
                    if k == i as int && covers(e, k, y) {
                        assert(owner@[y] == i);
                    }
                }
                assert forall|a: int|
                    0 <= a < i && holds_children(e, a) implies range_end(e, a) <= e[i as int].1 || range_end(
                        e,
                        i as int,
                    ) <= e[a].1 by {
                    if !(range_end(e, a) <= e[i as int].1 || range_end(e, i as int) <= e[a].1) {
                        let y: int = if e[a].1 <= e[i as int].1 {
                            e[i as int].1 as int
                        } else {
                            e[a].1 as int
                        };
                        assert(covers(e, a, y));
                    }
                }
            }
        }
        i = i + 1;
    }
    proof {
        assert forall|a: int, b: int|
            #![trigger e[a], e[b]]
            0 <= a < b < e.len() && holds_children(e, a) && holds_children(e, b) implies range_end(e, a)
                <= e[b].1 || range_end(e, b) <= e[a].1 by {}
    }
    true
}

/// A directory that lists `x` is the only one that does.
proof fn lemma_one_parent(e: Seq<(u8, u32, u32, bool)>, k: int, x: int)
    requires
        ranges_apart(e),
        covers(e, k, x),
    ensures
        has_parent(e, x),
        parent(e, x) == k,
{
    let p = parent(e, x);
    assert(covers(e, p, x));
    if p < k {
        assert(range_end(e, p) <= e[k].1 || range_end(e, k) <= e[p].1);
    } else if k < p {
        assert(range_end(e, k) <= e[p].1 || range_end(e, p) <= e[k].1);
    }
}

/// Whether no entry of `table` lies more than `MAX_NESTING` directories deep:
/// each entry is marked with the directory that lists it, and an entry's
/// depth is one more than that directory's.
fn shallow_exec(table: &Vec<(u8, u32, u32, bool)>) -> (r: bool)
    requires
        children_follow(table@),
        ranges_apart(table@),
    ensures
        r == shallow(table@),
{
    let n = table.len();
    let ghost e = table@;
    let mut owner: Vec<usize> = Vec::new();
    let mut x: usize = 0;
    while x < n
        invariant
            x <= n,
            owner@.len() == x,
            forall|y: int| 0 <= y < x ==> owner@[y] == n,
        decreases n - x,
    {
        owner.push(n);
        x = x + 1;
    }
    let mut i: usize = 0;
    while i < n
        invariant
            i <= n == e.len(),
            e == table@,
            owner@.len() == n,
            forall|y: int| 0 <= y < n ==> #[trigger] owner@[y] == n || (owner@[y] < i && covers(e, owner@[y] as int, y)),
            forall|y: int, k: int| 0 <= y < n && 0 <= k < i && #[trigger] covers(e, k, y) ==> owner@[y] != n,
        decreases n - i,
    {
        let (kind, start, count, _) = table[i];
        let s64: u64 = start as u64;
        let e64: u64 = s64 + count as u64;
        let end: usize = if e64 < n as u64 {
            e64 as usize
        } else {
            n
        };
        assert(end == range_end(e, i as int));
        if kind == KIND_DIRECTORY && (start as usize) < end {
            let first: usize = start as usize;
            let mut x: usize = first;
            while x < end
                invariant
                    first <= x <= end <= n == e.len(),
                    i < n,
                    e == table@,
                    first == e[i as int].1,
                    end == range_end(e, i as int),
                    holds_children(e, i as int),
                    owner@.len() == n,
                    forall|y: int|
                        0 <= y < n ==> #[trigger] owner@[y] == n || (owner@[y] <= i && covers(e, owner@[y] as int, y)),
                    forall|y: int, k: int| 0 <= y < n && 0 <= k < i && #[trigger] covers(e, k, y) ==> owner@[y] != n,
                    forall|y: int| first <= y < x ==> #[trigger] owner@[y] == i,
                decreases end - x,
            {
                owner.set(x, i);
                x = x + 1;
            }
            proof {
                assert forall|y: int, k: int| 0 <= y < n && 0 <= k <= i && #[trigger] covers(e, k, y) implies owner@[y]
                    != n by {
                    if k == i as int {
                        assert(owner@[y] == i);
                    }
                }
            }
        } else {
            proof {
                assert forall|y: int, k: int| 0 <= y < n && 0 <= k <= i && #[trigger] covers(e, k, y) implies owner@[y]
                    != n by {
                    if k == i as int {
                        assert(!holds_children(e, k));
                    }
                }
            }
        }
        i = i + 1;
    }
    let mut depth: Vec<usize> = Vec::new();
    let mut x: usize = 0;
    while x < n
        invariant
            x <= n == e.len(),
            e == table@,
            owner@.len() == n,
            children_follow(e),
            ranges_apart(e),
            forall|y: int| 0 <= y < n ==> #[trigger] owner@[y] == n || (owner@[y] < n && covers(e, owner@[y] as int, y)),
            forall|y: int, k: int| 0 <= y < n && 0 <= k < n && #[trigger] covers(e, k, y) ==> owner@[y] != n,
            depth@.len() == x,
            forall|y: int| 0 <= y < x ==> #[trigger] depth@[y] == nesting(e, y) && depth@[y] <= MAX_NESTING,
        decreases n - x,
    {
        let o = owner[x];
        let d: usize = if o == n {
            proof {
                if has_parent(e, x as int) {
                    let k = parent(e, x as int);
                    assert(covers(e, k, x as int));
                }
            }
            0
        } else {
            proof {
                lemma_one_parent(e, o as int, x as int);
                assert(e[o as int].1 > o);
            }
            depth[o] + 1
        };
        assert(d == nesting(e, x as int));
        if d > MAX_NESTING {
            return false;
        }
        depth.push(d);
        x = x + 1;
    }
    assert forall|y: int| 0 <= y < e.len() implies #[trigger] nesting(e, y) <= MAX_NESTING by {
        assert(depth@[y] == nesting(e, y));
    }
    true
}

/// Whether every directory of `table` lies before its children.
fn children_follow_exec(table: &Vec<(u8, u32, u32, bool)>) -> (r: bool)
    ensures
        r == children_follow(table@),
{
    let n = table.len();
    let mut i: usize = 0;
    while i < n
        invariant
            i <= n == table@.len(),
            forall|j: int|
                #![trigger table@[j]]
                0 <= j < i && table@[j].0 == KIND_DIRECTORY && (table@[j].1 as int) < range_end(table@, j)
                    ==> table@[j].1 > j,
        decreases n - i,
    {
        let (kind, start, count, _) = table[i];
        if kind == KIND_DIRECTORY {
            let end: u64 = if (start as u64) + (count as u64) < (n as u64) {
                (start as u64) + (count as u64)
            } else {
                n as u64
            };
            if (start as u64) < end && (start as usize) <= i {
                assert((table@[i as int].1 as int) < range_end(table@, i as int));
                return false;
            }
        }
        i = i + 1;
    }
    true
}

/// `str::to_lowercase`: the contract claims the result is `lowercase(s)`,
/// that is, for an all-ASCII string the documented ASCII mapping (A to Z made
/// small, every other character kept), and for any other string the Unicode
/// lower case, named `unicode_lowercase`.
#[verifier::external_body]
pub(crate) fn lower(s: &str) -> (r: String)
    ensures
        is_ascii_chars(s@) ==> r@ == s@.map_values(|c: char| ascii_lower_char(c)),
        !is_ascii_chars(s@) ==> r@ == unicode_lowercase(s@),
{
    s.to_lowercase()
}

/// `s` with each backslash turned into a forward slash.
pub open spec fn forward_slashes(s: Seq<char>) -> Seq<char> {
    s.map_values(|c: char| if c == '\\' { '/' } else { c })
}

/// The key a path is looked up by: forward slashes, lower case.
pub open spec fn lookup_key(path: Seq<char>) -> Seq<char> {
    lowercase(forward_slashes(path))
}

/// Whether file `f` answers to `key`: its path or its bare name, lower-cased.
pub open spec fn answers_to(f: FileEntry, key: Seq<char>) -> bool {
    lowercase(f.path@) == key || lowercase(f.name@) == key
}

/// The position of the first file in `files` that answers to `key`.
pub open spec fn first_answering(files: Seq<FileEntry>, key: Seq<char>) -> Option<int>
    decreases files.len(),
{
    if files.len() == 0 {
        None
    } else {
        match first_answering(files.drop_last(), key) {
            Some(k) => Some(k),
            None => if answers_to(files.last(), key) {
                Some(files.len() - 1)
            } else {
                None
            },
        }
    }
}

/// How many of `kinds` are directories.
pub open spec fn dir_total(kinds: Seq<u8>) -> nat
    decreases kinds.len(),
{
    if kinds.len() == 0 {
        0
    } else {
        dir_total(kinds.drop_last()) + if kinds.last() == KIND_DIRECTORY { 1nat } else { 0nat }
    }
}

pub proof fn lemma_first_answering(files: Seq<FileEntry>, key: Seq<char>)
    ensures
        first_answering(files, key) matches Some(k) ==> 0 <= k < files.len() && answers_to(files[k], key),
    decreases files.len(),
{
    if files.len() > 0 {
        lemma_first_answering(files.drop_last(), key);
    }
}

fn forward_slashed(s: &str) -> (r: String)
    ensures
        r@ == forward_slashes(s@),
{
    let cs = chars_of(s);
    let mut out: Vec<char> = Vec::new();
    let mut i: usize = 0;
    while i < cs.len()
        invariant
            i <= cs.len(),
            cs@ == s@,
            out@ == forward_slashes(cs@.take(i as int)),
        decreases cs.len() - i,
    {
        let c = cs[i];
        out.push(if c == '\\' { '/' } else { c });
        assert(forward_slashes(cs@.take(i + 1)) =~= forward_slashes(cs@.take(i as int)).push(
            if c == '\\' { '/' } else { c },
        ));
        i = i + 1;
    }
    assert(cs@.take(cs.len() as int) =~= cs@);
    string_from_chars(out.as_slice())
}

/// What opening `data` as the archive `name` gives: an RPF7 archive whose
/// table fits and is `walkable` (the table being `rpf_toc` of the bytes, the
/// name and the keys, and its files `rpf_toc_files` of them), or the error
/// that says which of these fails.
pub open spec fn open_outcome(
    r: Result<Archive, ArchiveError>,
    data: Seq<u8>,
    name: Seq<char>,
    keys: Option<&GtaKeys>,
) -> bool {
    match r {
        Ok(a) => {
            &&& a.wf()
            &&& a.name@ == name
            &&& a.data@ == data
            &&& is_rpf7(data)
            &&& toc_fits(data)
            &&& walkable(rpf_entries(a.archive))
            &&& rpf_entries(a.archive) == rpf_toc(data, name, keys)
            &&& a.files@.map_values(|f: FileEntry| f@) == rpf_toc_files(data, name, keys)
        },
        Err(ArchiveError::Unsupported { name: n, magic }) => {
            &&& n@ == name
            &&& other_version(data)
            &&& magic as nat == le32(data.subrange(0, 4))
        },
        Err(ArchiveError::Parse { name: n, .. }) => {
            &&& n@ == name
            &&& !other_version(data)
            &&& !(is_rpf7(data) && toc_fits(data))
        },
        Err(ArchiveError::Unordered { name: n }) => {
            &&& n@ == name
            &&& is_rpf7(data)
            &&& toc_fits(data)
            &&& !walkable(rpf_toc(data, name, keys))
        },
        Err(_) => false,
    }
}

/// An archive loaded into memory.
pub struct Archive {
    pub name: String,
    pub encryption: RpfEncryption,
    /// Entries in the table of contents, directories included.
    pub entry_count: usize,
    /// Directory entries among them.
    pub dir_count: usize,
    pub root: DirNode,
    /// The parsed table of contents.
    pub archive: RpfArchive,
    /// The archive's bytes.
    pub data: Vec<u8>,
    /// The kind code of each entry of the table of contents.
    pub kinds: Vec<u8>,
    /// The files of the tree, in the order they are searched.
    pub files: Vec<FileEntry>,
}

impl Archive {
    /// What holds of every archive this module builds.
    pub open spec fn wf(&self) -> bool {
        &&& self.kinds@ == rpf_entry_kinds(self.archive)
        &&& self.entry_count == self.kinds@.len()
        &&& self.dir_count == dir_total(self.kinds@)
        &&& self.files@.map_values(|f: FileEntry| f@) == rpf_tree_files(self.root)
        &&& self.files@.map_values(|f: FileEntry| f@) == rpf_dir_files(self.archive)
        &&& forall|i: int|
            0 <= i < self.files@.len() ==> {
                let k = (#[trigger] self.files@[i]).entry_index;
                &&& k < self.kinds@.len()
                &&& self.kinds@[k as int] != KIND_DIRECTORY
            }
    }

    /// What extracting entry `i` with the key set `keys` gives.
    pub open spec fn extracted(&self, i: usize, keys: Option<&GtaKeys>) -> Option<Seq<u8>> {
        rpf_extracted(self.archive, self.data@, i, keys)
    }

    /// An archive from its bytes and the table of contents parsed from them
    /// (one the directory walk goes down, see `walkable`): the entry and
    /// directory counts, the directory tree and its files.
    pub fn from_parsed(archive: RpfArchive, data: Vec<u8>, name: &str) -> (r: Archive)
        requires
            walkable(rpf_entries(archive)),
        ensures
            r.wf(),
            r.name@ == name@,
            r.archive == archive,
            r.data@ == data@,
            r.kinds@ == rpf_entry_kinds(archive),
            r.entry_count == rpf_entry_kinds(archive).len(),
            r.dir_count == dir_total(rpf_entry_kinds(archive)),
            r.files@.map_values(|f: FileEntry| f@) == rpf_tree_files(r.root),
            r.files@.map_values(|f: FileEntry| f@) == rpf_dir_files(archive),
    {
        let encryption = encryption_of(&archive);
        let table = entry_table(&archive);
        let mut kinds: Vec<u8> = Vec::new();
        let mut dir_count: usize = 0;
        let mut i: usize = 0;
        while i < table.len()
            invariant
                i <= table.len(),
                table@ == rpf_entries(archive),
                kinds@ == table@.take(i as int).map_values(|e: (u8, u32, u32, bool)| e.0),
                dir_count == dir_total(kinds@),
                dir_count <= i,
            decreases table.len() - i,
        {
            let k = table[i].0;
            kinds.push(k);
            assert(kinds@.drop_last() == table@.take(i as int).map_values(|e: (u8, u32, u32, bool)| e.0));
            assert(table@.take(i + 1).map_values(|e: (u8, u32, u32, bool)| e.0) =~= table@.take(
                i as int,
            ).map_values(|e: (u8, u32, u32, bool)| e.0).push(k));
            if k == KIND_DIRECTORY {
                dir_count = dir_count + 1;
            }
            i = i + 1;
        }
        assert(table@.take(table.len() as int) =~= table@);
        let root = directory_tree(&archive);
        let files = tree_files(&root);
        proof {
            assert forall|j: int| 0 <= j < files@.len() implies {
                let k = (#[trigger] files@[j]).entry_index;
                &&& k < kinds@.len()
                &&& kinds@[k as int] != KIND_DIRECTORY
            } by {
                assert(files@.map_values(|f: FileEntry| f@)[j] == files@[j]@);
                assert(rpf_tree_files(root)[j] == files@[j]@);
            }
        }
        Archive {
            name: name.to_owned(),
            encryption,
            entry_count: kinds.len(),
            dir_count,
            root,
            archive,
            data,
            kinds,
            files,
        }
    }

    /// Parse an archive's bytes: RPF7 only (an archive of another version
    /// that `rpf_archive` knows is refused as unsupported), with a table of
    /// contents that the directory walk goes down (see `walkable`).
    pub fn from_bytes(data: Vec<u8>, name: &str, keys: Option<&GtaKeys>) -> (r: Result<Archive, ArchiveError>)
        requires
            keys_fit(keys),
        ensures
            open_outcome(r, data@, name@, keys),
    {
        if data.len() >= 12 {
            let magic = read_le32(data.as_slice(), 0);
            if magic == 0x30465052 || magic == 0x32465052 || magic == 0x33465052 || magic == 0x34465052
                || magic == 0x36465052 || magic == 0x52504638 || magic == 0x32524556 || magic
                == 0xA94E2A52 {
                return Err(ArchiveError::Unsupported { name: name.to_owned(), magic });
            }
        }
        match rpf_parse(data.as_slice(), name, keys) {
            Ok(archive) => {
                let table = entry_table(&archive);
                if !children_follow_exec(&table) || !ranges_apart_exec(&table) || !shallow_exec(&table) {
                    return Err(ArchiveError::Unordered { name: name.to_owned() });
                }
                Ok(Archive::from_parsed(archive, data, name))
            },
            Err(e) => Err(ArchiveError::Parse { name: name.to_owned(), source: e }),
        }
    }

    /// All files, in the order they are searched.
    pub fn list_files(&self) -> (r: &[FileEntry])
        ensures
            r@ == self.files@,
    {
        self.files.as_slice()
    }

    /// The first file whose full path or bare name equals `path`, compared
    /// without regard to case and with backslashes read as forward slashes.
    pub fn find_file(&self, path: &str) -> (r: Option<&FileEntry>)
        ensures
            match first_answering(self.files@, lookup_key(path@)) {
                Some(k) => r == Some(&self.files@[k]),
                None => r is None,
            },
    {
        let slashed = forward_slashed(path);
        let key = lower(slashed.as_str());
        let mut i: usize = 0;
        while i < self.files.len()
            invariant
                i <= self.files@.len(),
                key@ == lookup_key(path@),
                first_answering(self.files@.take(i as int), key@) is None,
            decreases self.files.len() - i,
        {
            let f = &self.files[i];
            assert(self.files@.take(i + 1).drop_last() =~= self.files@.take(i as int));
            let p = lower(f.path.as_str());
            let n = lower(f.name.as_str());
            if p == key || n == key {
                proof {
                    lemma_first_answering(self.files@.take(i + 1), key@);
                    assert(self.files@.take(i + 1).last() == self.files@[i as int]);
                    let pre = self.files@.take(i + 1);
                    assert(first_answering(pre, key@) == Some(i as int));
                    lemma_prefix_answer(self.files@, key@, i as int);
                }
                return Some(f);
            }
            assert(self.files@.take(i + 1).last() == self.files@[i as int]);
            i = i + 1;
        }
        assert(self.files@.take(self.files.len() as int) =~= self.files@);
        None
    }

    /// The kind of the entry behind `file`.
    pub fn entry_kind(&self, file: &FileEntry) -> (r: EntryKind)
        requires
            self.wf(),
            file.entry_index < self.entry_count,
        ensures
            r == kind_of(self.kinds@[file.entry_index as int]),
    {
        let code = self.kinds[file.entry_index];
        if code == KIND_DIRECTORY {
            EntryKind::Directory
        } else if code == KIND_RESOURCE {
            EntryKind::ResourceFile
        } else {
            EntryKind::BinaryFile
        }
    }

    /// The bytes of `file`, decrypted and decompressed by `rpf_archive`.
    pub fn extract(&self, file: &FileEntry, keys: Option<&GtaKeys>) -> (r: Result<Vec<u8>, ArchiveError>)
        requires
            self.wf(),
            file.entry_index < self.entry_count,
            keys_fit(keys),
        ensures
            self.kinds@[file.entry_index as int] == KIND_DIRECTORY ==> r is Err,
            r matches Err(e) ==> e matches ArchiveError::Extract { name: n, .. } && n@ == file.name@,
            match r {
                Ok(b) => self.extracted(file.entry_index, keys) == Some(b@),
                Err(_) => self.extracted(file.entry_index, keys) is None,
            },
    {
        proof {
            assert(self.kinds@[file.entry_index as int] == rpf_entries(self.archive)[file.entry_index as int].0);
        }
        match rpf_extract(&self.archive, self.data.as_slice(), file.entry_index, keys) {
            Ok(bytes) => Ok(bytes),
            Err(e) => Err(ArchiveError::Extract { name: file.name.clone(), source: e }),
        }
    }

    /// Open an archive nested in this one (such as `vehicles.rpf` inside
    /// `x64e.rpf`), found as `find_file` finds it and opened as `from_bytes`
    /// opens its extracted bytes.
    pub fn open_nested(&self, name: &str, keys: Option<&GtaKeys>) -> (r: Result<Archive, ArchiveError>)
        requires
            self.wf(),
            keys_fit(keys),
        ensures
            first_answering(self.files@, lookup_key(name@)) is None <==> r matches Err(
                ArchiveError::NotFound { .. },
            ),
            r matches Err(ArchiveError::NotFound { name: n, archive: a }) ==> n@ == name@
                && a@ == self.name@,
            r matches Ok(a) ==> a.wf() && a.name@ == name@,
            first_answering(self.files@, lookup_key(name@)) matches Some(k) ==> {
                let i = self.files@[k].entry_index;
                match self.extracted(i, keys) {
                    None => r matches Err(ArchiveError::Extract { .. }),
                    Some(b) => open_outcome(r, b, name@, keys),
                }
            },
    {
        let file = match self.find_file(name) {
            Some(f) => f,
            None => {
                return Err(ArchiveError::NotFound { name: name.to_owned(), archive: self.name.clone() });
            },
        };
        proof {
            lemma_first_answering(self.files@, lookup_key(name@));
        }
        let bytes = match self.extract(file, keys) {
            Ok(b) => b,
            Err(e) => return Err(e),
        };
        Archive::from_bytes(bytes, name, keys)
    }
}

proof fn lemma_prefix_answer(files: Seq<FileEntry>, key: Seq<char>, i: int)
    requires
        0 <= i < files.len(),
        first_answering(files.take(i + 1), key) == Some(i),
    ensures
        first_answering(files, key) == Some(i),
    decreases files.len(),
{
    if files.len() == i + 1 {
        assert(files.take(i + 1) =~= files);
    } else {
        assert(files.drop_last().take(i + 1) =~= files.take(i + 1));
        lemma_prefix_answer(files.drop_last(), key, i);
    }
}

/// Whether the file name `name` holds `filter`, both taken in lower case (how
/// a listing is filtered).
pub fn name_has(name: &str, filter: &str) -> (r: bool)
    ensures
        r == (find_first(lowercase(name@), lowercase(filter@)) is Some),
{
    let n = lower(name);
    let f = lower(filter);
    let nc = chars_of(n.as_str());
    let fc = chars_of(f.as_str());
    find(nc.as_slice(), fc.as_slice()).is_some()
}

/// Whether the file name `name` starts with `prefix`, both taken in lower
/// case (how the assets related to a vehicle are picked out).
pub fn name_starts_with(name: &str, prefix: &str) -> (r: bool)
    ensures
        r == lowercase(prefix@).is_prefix_of(lowercase(name@)),
{
    let n = lower(name);
    let p = lower(prefix);
    let nc = chars_of(n.as_str());
    let pc = chars_of(p.as_str());
    if pc.len() > nc.len() {
        return false;
    }
    let mut i: usize = 0;
    while i < pc.len()
        invariant
            i <= pc@.len() <= nc@.len(),
            pc@ == lowercase(prefix@),
            nc@ == lowercase(name@),
            forall|k: int| 0 <= k < i ==> pc@[k] == nc@[k],
        decreases pc.len() - i,
    {
        if pc[i] != nc[i] {
            assert(!pc@.is_prefix_of(nc@)) by {
                if pc@.is_prefix_of(nc@) {
                    assert(pc@[i as int] == nc@.subrange(0, pc@.len() as int)[i as int]);
                }
            }
            return false;
        }
        i = i + 1;
    }
    assert(pc@ =~= nc@.subrange(0, pc@.len() as int));
    true
}

/// Where the keys live when no folder is given.
pub fn default_keys_dir() -> (r: String)
    ensures
        r@ == "C:\\Users\\nic10\\Downloads\\archive"@,
{
    "C:\\Users\\nic10\\Downloads\\archive".to_owned()
}

/// A path is looked up as its forward-slashed form is: backslashes and
/// forward slashes are the same to `find_file`.
pub proof fn lookup_ignores_slash_style(path: Seq<char>)
    ensures
        lookup_key(forward_slashes(path)) == lookup_key(path),
{
    assert(forward_slashes(forward_slashes(path)) =~= forward_slashes(path));
}

/// A path character's code as `find_file` compares it: a backslash read as a
/// forward slash, an ASCII capital letter made small.
pub open spec fn folded_code(c: char) -> u32 {
    ascii_lower_code(if c == '\\' { 47u32 } else { c as u32 })
}

/// Neither the case of ASCII letters nor the slash style matters to
/// `find_file`: two all-ASCII paths that differ only in these are looked up
/// by the same key, so the same file answers both (as `find_file` states, the
/// first in search order whose lower-cased path or name equals the key).
pub proof fn find_ignores_case_and_slashes(files: Seq<FileEntry>, p: Seq<char>, q: Seq<char>)
    requires
        is_ascii_chars(p),
        is_ascii_chars(q),
        p.len() == q.len(),
        forall|i: int| 0 <= i < p.len() ==> folded_code(p[i]) == folded_code(q[i]),
    ensures
        lookup_key(p) == lookup_key(q),
        first_answering(files, lookup_key(p)) == first_answering(files, lookup_key(q)),
{
    let fp = forward_slashes(p);
    let fq = forward_slashes(q);
    assert('/' as u32 == 47);
    assert forall|i: int| 0 <= i < fp.len() implies (fp[i] as u32) < 128 by {
        assert((p[i] as u32) < 128);
    }
    assert forall|i: int| 0 <= i < fq.len() implies (fq[i] as u32) < 128 by {
        assert((q[i] as u32) < 128);
    }
    assert forall|i: int| 0 <= i < fp.len() implies ascii_lower_code(fp[i] as u32) == ascii_lower_code(
        fq[i] as u32,
    ) by {
        assert(folded_code(p[i]) == folded_code(q[i]));
    }
    assert(fp.map_values(|c: char| ascii_lower_char(c)) =~= fq.map_values(|c: char| ascii_lower_char(c)));
}

proof fn lemma_dir_total_bound(kinds: Seq<u8>)
    ensures
        dir_total(kinds) <= kinds.len(),
    decreases kinds.len(),
{
    if kinds.len() > 0 {
        lemma_dir_total_bound(kinds.drop_last());
    }
}

/// An archive never counts more directories than entries.
pub proof fn dirs_within_entries(a: Archive)
    requires
        a.wf(),
    ensures
        a.dir_count <= a.entry_count,
{
    lemma_dir_total_bound(a.kinds@);
}

} // verus!
