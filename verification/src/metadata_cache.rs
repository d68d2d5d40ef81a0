//! A traversal-scoped cache of filesystem metadata, keyed by path.
//!
//! The cache only stores and looks values up; fetching metadata from
//! the filesystem is the caller's job. A caller that misses looks the
//! metadata up once and stores it; once a value is present, later
//! lookups for the same path skip the fetch. Entries are never
//! evicted or replaced: the first value stored for a path wins, so
//! within one traversal the cache never holds a stale entry.

use vstd::prelude::*;

verus! {

/// The kind of a filesystem entry: a regular file, a directory, or
/// anything else (symlink, socket, device, ...).
#[derive(Clone, Copy, Debug, PartialEq, Eq, Structural)]
pub enum EntryKind {
    File,
    Directory,
    Other,
}

/// Filesystem metadata of one entry, reduced to the plain values the
/// search reads: its kind, its size in bytes, its Unix permission
/// bits, and its modification time as seconds and nanoseconds since
/// the Unix epoch.
#[derive(Clone, Copy, Debug, PartialEq, Eq, Structural)]
pub struct Metadata {
    pub kind: EntryKind,
    pub len: u64,
    pub mode: u32,
    pub modified_secs: i64,
    pub modified_nanos: u32,
}

impl Metadata {
    /// Whether this metadata describes a regular file.
    pub fn is_file(&self) -> (r: bool)
        ensures
            r == (self.kind is File),
    {
        matches!(self.kind, EntryKind::File)
    }

    /// Whether this metadata describes a directory.
    pub fn is_dir(&self) -> (r: bool)
        ensures
            r == (self.kind is Directory),
    {
        matches!(self.kind, EntryKind::Directory)
    }
}

/// The mapping a sequence of cache entries denotes: later entries
/// shadow earlier ones (the cache itself never stores a key twice).
pub open spec fn entries_map(s: Seq<(String, Metadata)>) -> Map<Seq<char>, Metadata>
    decreases s.len(),
{
    if s.len() == 0 {
        Map::empty()
    } else {
        entries_map(s.drop_last()).insert(s.last().0@, s.last().1)
    }
}

/// A key is in the map of a sequence of entries exactly when some
/// entry carries it, and then the map holds the value of the last
/// such entry.
proof fn lemma_entries_map_contains(s: Seq<(String, Metadata)>, k: Seq<char>)
    ensures
        entries_map(s).contains_key(k) <==> exists|i: int| 0 <= i < s.len() && #[trigger] s[i].0@
            == k,
    decreases s.len(),
{
    if s.len() > 0 {
        lemma_entries_map_contains(s.drop_last(), k);
        if s.last().0@ == k {
            assert(s[s.len() - 1].0@ == k);
        } else if entries_map(s).contains_key(k) {
            let i = choose|i: int| 0 <= i < s.drop_last().len() && #[trigger] s.drop_last()[i].0@
                == k;
            assert(s[i].0@ == k);
        } else if exists|i: int| 0 <= i < s.len() && #[trigger] s[i].0@ == k {
            let i = choose|i: int| 0 <= i < s.len() && #[trigger] s[i].0@ == k;
            assert(s.drop_last()[i].0@ == k);
        }
    }
}

/// In a sequence whose keys are pairwise distinct, the map value of a
/// key is the value stored beside it.
proof fn lemma_entries_map_at(s: Seq<(String, Metadata)>, i: int)
    requires
        0 <= i < s.len(),
        forall|p: int, q: int|
            0 <= p < q < s.len() ==> (#[trigger] s[p].0)@ != (#[trigger] s[q].0)@,
    ensures
        entries_map(s).contains_key(s[i].0@),
        entries_map(s)[s[i].0@] == s[i].1,
    decreases s.len(),
{
    if i == s.len() - 1 {
        assert(entries_map(s) == entries_map(s.drop_last()).insert(s.last().0@, s.last().1));
    } else {
        lemma_entries_map_at(s.drop_last(), i);
        assert(s.drop_last()[i] == s[i]);
        assert(s.last().0@ != s[i].0@);
    }
}

/// Structure to cache metadata for files and directories.
pub struct MetadataCache {
    cache: Vec<(String, Metadata)>,
}

impl View for MetadataCache {
    type V = Map<Seq<char>, Metadata>;

    closed spec fn view(&self) -> Map<Seq<char>, Metadata> {
        entries_map(self.cache@)
    }
}

impl MetadataCache {
    /// The cache stores no path twice.
    pub closed spec fn wf(&self) -> bool {
        forall|p: int, q: int|
            0 <= p < q < self.cache@.len() ==> (#[trigger] self.cache@[p].0)@
                != (#[trigger] self.cache@[q].0)@
    }

    /// Creates a new, empty MetadataCache.
    pub fn new() -> (c: Self)
        ensures
            c.wf(),
            c@ == Map::<Seq<char>, Metadata>::empty(),
    {
        Self { cache: Vec::new() }
    }

    /// Returns the cached metadata for `path`, or `None` when nothing
    /// has been stored for `path` yet (the caller then fetches the
    /// metadata itself and hands it to `store`).
    pub fn get_metadata(&self, path: &String) -> (r: Option<Metadata>)
        requires
            self.wf(),
        ensures
            match r {
                Some(m) => self@.contains_key(path@) && self@[path@] == m,
                None => !self@.contains_key(path@),
            },
    {
        let n = self.cache.len();
        let mut i: usize = 0;
        while i < n
            invariant
                self.wf(),
                n == self.cache@.len(),
                0 <= i <= n,
                forall|j: int| 0 <= j < i ==> (#[trigger] self.cache@[j].0)@ != path@,
            decreases n - i,
        {
            if self.cache[i].0 == *path {
                let m = self.cache[i].1;
                proof {
                    lemma_entries_map_at(self.cache@, i as int);
                }
                return Some(m);
            }
            i += 1;
        }
        proof {
            lemma_entries_map_contains(self.cache@, path@);
        }
        None
    }

    /// Stores metadata for `path` unless the cache already holds
    /// some: the first value stored for a path wins, so a cached
    /// entry is never replaced within one traversal.
    pub fn store(&mut self, path: String, metadata: Metadata)
        requires
            old(self).wf(),
        ensures
            final(self).wf(),
            final(self)@ == if old(self)@.contains_key(path@) {
                old(self)@
            } else {
                old(self)@.insert(path@, metadata)
            },
    {
        if self.get_metadata(&path).is_none() {
            proof {
                lemma_entries_map_contains(self.cache@, path@);
            }
            self.cache.push((path, metadata));
            proof {
                assert(self.cache@.drop_last() == old(self).cache@);
            }
        }
    }
}

} // verus!
