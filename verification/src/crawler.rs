//! The rules of the crawl: what is entered, what counts as text, and the order
//! of the result.
//!
//! Symbolic links are not followed, ignore files are honoured, `.git` and the
//! index's own directory are never entered. A file over the size limit or with
//! a NUL byte in its first bytes is recorded but never read.

use vstd::prelude::*;
use vstd::utf8::encode_utf8;

use crate::order::{bytes_lt, lemma_total, lemma_transitive};
use crate::sort::{arrange, is_order, lemma_order_is_permutation, order, picked, Ranked};
use crate::store::DIR_NAME;
use crate::text::same;

verus! {

/// One file as the crawl found it.
#[derive(Debug)]
pub struct FileEntry {
    /// With `/` between the names, on every platform.
    pub path: String,
    /// Identity in the file system; zero if unavailable.
    pub inode: u64,
    /// Modification time in nanoseconds since the epoch.
    pub mtime: i64,
    pub size: u64,
}

impl Clone for FileEntry {
    fn clone(&self) -> (r: Self)
        ensures
            r.path@ == self.path@,
            r.inode == self.inode,
            r.mtime == self.mtime,
            r.size == self.size,
    {
        FileEntry {
            path: self.path.clone(),
            inode: self.inode,
            mtime: self.mtime,
            size: self.size,
        }
    }
}

/// What kind of file it is.
#[derive(Debug, Clone, Copy, PartialEq, Eq, Structural)]
pub enum FileKind {
    /// Passed every filter. Whether it is UTF-8 is seen when it is read.
    Text,
    /// A NUL byte among the first bytes.
    Binary,
    /// Larger than [`CrawlConfig::max_size`].
    TooLarge,
}

/// One crawled file with its kind.
#[derive(Debug)]
pub struct CrawledFile {
    pub entry: FileEntry,
    pub kind: FileKind,
}

impl Clone for CrawledFile {
    fn clone(&self) -> (r: Self)
        ensures
            r.entry.path@ == self.entry.path@,
            r.entry.inode == self.entry.inode,
            r.entry.mtime == self.entry.mtime,
            r.entry.size == self.entry.size,
            r.kind == self.kind,
    {
        CrawledFile { entry: self.entry.clone(), kind: self.kind }
    }
}

/// How to crawl.
#[derive(Debug, Clone, Copy)]
pub struct CrawlConfig {
    /// Larger files are recorded but not read. Default 10 MiB.
    pub max_size: u64,
    /// Leading bytes inspected for a NUL byte. Default 8 KiB.
    pub sniff_bytes: usize,
    /// Whether dotfiles are crawled. `.git` never is.
    pub include_hidden: bool,
    /// Whether the user's global ignore file applies. Default on.
    pub respect_global_gitignore: bool,
    /// Walker threads; zero for the number of CPUs.
    pub threads: usize,
}

impl Default for CrawlConfig {
    fn default() -> (c: Self)
        ensures
            c.max_size == 10 * 1024 * 1024,
            c.sniff_bytes == 8 * 1024,
            c.include_hidden,
            c.respect_global_gitignore,
            c.threads == 0,
    {
        CrawlConfig {
            max_size: 10 * 1024 * 1024,
            sniff_bytes: 8 * 1024,
            include_hidden: true,
            respect_global_gitignore: true,
            threads: 0,
        }
    }
}

/// Counters of one crawl. What ignore files prune is not counted.
#[derive(Debug, Clone, Copy, PartialEq, Eq, Structural)]
pub struct CrawlStats {
    /// Regular files reached by the walk.
    pub files_seen: u64,
    pub skipped_too_large: u64,
    pub skipped_binary: u64,
    /// Files that could not be opened or inspected.
    pub errors: u64,
    /// Text files found.
    pub indexable: u64,
    /// Sum of the sizes of the text files.
    pub indexable_bytes: u64,
}

impl Default for CrawlStats {
    fn default() -> (s: Self)
        ensures
            s == (CrawlStats {
                files_seen: 0,
                skipped_too_large: 0,
                skipped_binary: 0,
                errors: 0,
                indexable: 0,
                indexable_bytes: 0,
            }),
    {
        CrawlStats {
            files_seen: 0,
            skipped_too_large: 0,
            skipped_binary: 0,
            errors: 0,
            indexable: 0,
            indexable_bytes: 0,
        }
    }
}

/// Whether `prefix`, the first bytes of a file, holds a NUL byte.
pub fn looks_binary(prefix: &[u8]) -> (r: bool)
    ensures
        r == prefix@.contains(0),
{
    let mut i: usize = 0;
    while i < prefix.len()
        invariant
            i <= prefix@.len(),
            forall|k: int| 0 <= k < i ==> prefix@[k] != 0,
        decreases prefix@.len() - i,
    {
        if prefix[i] == 0 {
            assert(prefix@[i as int] == 0);
            return true;
        }
        i = i + 1;
    }
    false
}

/// Whether a directory entry of this name is visited at all.
pub fn is_visited(name: &str) -> (r: bool)
    ensures
        r == (name@ != ".git"@ && name@ != ".ripindex"@),
{
    !same(name, ".git") && !same(name, DIR_NAME)
}

/// How many leading bytes of a file of this size are inspected; `None` where
/// the size alone decides.
pub fn sniff_len(size: u64, config: &CrawlConfig) -> (r: Option<usize>)
    ensures
        r == if size > config.max_size {
            None::<usize>
        } else if size < config.sniff_bytes {
            Some(size as usize)
        } else {
            Some(config.sniff_bytes)
        },
{
    if size > config.max_size {
        None
    } else if size < config.sniff_bytes as u64 {
        Some(size as usize)
    } else {
        Some(config.sniff_bytes)
    }
}

/// The kind of a file of this size whose inspected bytes are `prefix`.
pub fn kind_of(size: u64, prefix: &[u8], config: &CrawlConfig) -> (k: FileKind)
    ensures
        k == if size > config.max_size {
            FileKind::TooLarge
        } else if prefix@.contains(0) {
            FileKind::Binary
        } else {
            FileKind::Text
        },
{
    if size > config.max_size {
        FileKind::TooLarge
    } else if looks_binary(prefix) {
        FileKind::Binary
    } else {
        FileKind::Text
    }
}

/// The bytes of a path with the separators below every other byte: paths
/// compare by these as they do component by component.
pub open spec fn path_key(path: Seq<char>) -> Seq<u8> {
    encode_utf8(path).map_values(
        |b: u8|
            if b == 47 {
                0u8
            } else {
                b
            },
    )
}

/// The bytes by which a path is put in order.
fn path_bytes(path: &str) -> (r: Vec<u8>)
    ensures
        r@ == path_key(path@),
{
    let b: &[u8] = path.as_bytes();
    let mut r: Vec<u8> = Vec::new();
    let mut i: usize = 0;
    while i < b.len()
        invariant
            i <= b@.len(),
            b@ == encode_utf8(path@),
            r@ == path_key(path@).take(i as int),
        decreases b@.len() - i,
    {
        r.push(
            if b[i] == 47 {
                0
            } else {
                b[i]
            },
        );
        i = i + 1;
        assert(r@ =~= path_key(path@).take(i as int));
    }
    assert(r@ =~= path_key(path@));
    r
}

/// A path as it is put in order.
pub struct PathRank {
    key: Vec<u8>,
}

impl View for PathRank {
    type V = Seq<u8>;

    closed spec fn view(&self) -> Seq<u8> {
        self.key@
    }
}

impl Ranked for PathRank {
    open spec fn below(&self, other: &Self) -> bool {
        bytes_lt(self@, other@)
    }

    proof fn lemma_ranks(a: &Self, b: &Self, c: &Self) {
        lemma_total(a@, b@);
        lemma_total(a@, c@);
        lemma_total(c@, b@);
        if bytes_lt(a@, b@) && bytes_lt(c@, a@) {
            lemma_transitive(c@, a@, b@);
        }
    }

    fn is_below(&self, other: &Self) -> (r: bool) {
        self.key.as_slice().is_below(&other.key.as_slice())
    }
}

/// The ranks of the paths of these files.
pub open spec fn ranks_match(ranks: Seq<PathRank>, files: Seq<CrawledFile>) -> bool {
    &&& ranks.len() == files.len()
    &&& forall|i: int|
        #![trigger ranks[i]]
        0 <= i < files.len() ==> ranks[i]@ == path_key(files[i].entry.path@)
}

/// Of the same files, in ascending order of their paths, equal ones as they
/// came.
pub open spec fn path_sorted(files: Seq<CrawledFile>, sorted: Seq<CrawledFile>) -> bool {
    exists|ranks: Seq<PathRank>, places: Seq<usize>|
        #![trigger is_order(ranks, places)]
        ranks_match(ranks, files) && is_order(ranks, places) && sorted == picked(files, places)
}

/// How many of the files have this kind.
pub open spec fn count_kind(files: Seq<CrawledFile>, kind: FileKind) -> nat
    decreases files.len(),
{
    if files.len() == 0 {
        0
    } else {
        count_kind(files.drop_last(), kind) + if files.last().kind == kind {
            1nat
        } else {
            0nat
        }
    }
}

/// The sizes of the text files together.
pub open spec fn text_bytes(files: Seq<CrawledFile>) -> nat
    decreases files.len(),
{
    if files.len() == 0 {
        0
    } else {
        text_bytes(files.drop_last()) + if files.last().kind == FileKind::Text {
            files.last().entry.size as nat
        } else {
            0nat
        }
    }
}

/// The files in the order in which document numbers are given out, which does
/// not depend on the order in which the walk met them.
pub fn sort_by_path(files: Vec<CrawledFile>) -> (r: Vec<CrawledFile>)
    ensures
        path_sorted(files@, r@),
{
    let mut ranks: Vec<PathRank> = Vec::new();
    let mut i: usize = 0;
    while i < files.len()
        invariant
            i <= files@.len(),
            ranks_match(ranks@, files@.take(i as int)),
        decreases files@.len() - i,
    {
        let key: Vec<u8> = path_bytes(files[i].entry.path.as_str());
        let ghost had = ranks@;
        ranks.push(PathRank { key });
        i = i + 1;
        proof {
            let now = files@.take(i as int);
            assert forall|k: int| #![trigger ranks@[k]] 0 <= k < now.len() implies ranks@[k]@
                == path_key(now[k].entry.path@) by {
                if k < i - 1 {
                    assert(ranks@[k] == had[k]);
                }
            }
        }
    }
    assert(files@.take(i as int) =~= files@);
    let places = order(ranks.as_slice());
    proof {
        lemma_order_is_permutation(ranks@, places@);
    }
    arrange(files, places.as_slice())
}

/// The counters of a crawl that saw `files_seen` files, found these and failed
/// on `errors`.
pub fn crawl_stats(files: &[CrawledFile], files_seen: u64, errors: u64) -> (s: CrawlStats)
    ensures
        s.files_seen == files_seen,
        s.errors == errors,
        s.skipped_too_large == count_kind(files@, FileKind::TooLarge),
        s.skipped_binary == count_kind(files@, FileKind::Binary),
        s.indexable == count_kind(files@, FileKind::Text),
        s.indexable_bytes == if text_bytes(files@) <= u64::MAX {
            text_bytes(files@) as int
        } else {
            u64::MAX as int
        },
{
    let mut s = CrawlStats {
        files_seen,
        skipped_too_large: 0,
        skipped_binary: 0,
        errors,
        indexable: 0,
        indexable_bytes: 0,
    };
    let mut i: usize = 0;
    assert(files@.len() == files.len());
    while i < files.len()
        invariant
            i <= files@.len() <= usize::MAX,
            s.files_seen == files_seen,
            s.errors == errors,
            s.skipped_too_large == count_kind(files@.take(i as int), FileKind::TooLarge) <= i,
            s.skipped_binary == count_kind(files@.take(i as int), FileKind::Binary) <= i,
            s.indexable == count_kind(files@.take(i as int), FileKind::Text) <= i,
            s.indexable_bytes == if text_bytes(files@.take(i as int)) <= u64::MAX {
                text_bytes(files@.take(i as int)) as int
            } else {
                u64::MAX as int
            },
        decreases files@.len() - i,
    {
        assert(files@.take(i + 1).drop_last() =~= files@.take(i as int));
        match files[i].kind {
            FileKind::Text => {
                s.indexable = s.indexable + 1;
                s.indexable_bytes = s.indexable_bytes.saturating_add(files[i].entry.size);
            },
            FileKind::Binary => {
                s.skipped_binary = s.skipped_binary + 1;
            },
            FileKind::TooLarge => {
                s.skipped_too_large = s.skipped_too_large + 1;
            },
        }
        i = i + 1;
    }
    assert(files@.take(i as int) =~= files@);
    s
}

/// The entries of the text files, in order.
pub open spec fn text_entries(files: Seq<CrawledFile>) -> Seq<FileEntry>
    decreases files.len(),
{
    if files.len() == 0 {
        Seq::empty()
    } else if files.last().kind == FileKind::Text {
        text_entries(files.drop_last()).push(files.last().entry)
    } else {
        text_entries(files.drop_last())
    }
}

/// Keeps the text files.
pub fn text_files(files: Vec<CrawledFile>) -> (r: Vec<FileEntry>)
    ensures
        r@ == text_entries(files@),
    decreases files@.len(),
{
    let mut files = files;
    match files.pop() {
        None => Vec::new(),
        Some(f) => {
            let mut r: Vec<FileEntry> = text_files(files);
            if f.kind == FileKind::Text {
                r.push(f.entry);
            }
            r
        },
    }
}

} // verus!
