//! The breadth-first traversal engine.
//!
//! The engine owns the frontier (a FIFO queue of directories still to
//! expand) and the output staging buffer (a FIFO queue of matched
//! entries ready to be yielded). It is driven by pulling: each pull
//! either yields a buffered match, or asks the caller to expand the
//! next frontier directory. The caller lists that directory on the
//! filesystem (best effort — an unreadable directory simply produces
//! no entries) and hands the classified children back through
//! `process_directory`, which routes discovered directories into the
//! frontier and matching entries into the buffer. Traversal ends when
//! frontier and buffer are both exhausted.
//!
//! The frontier applies no cross-traversal deduplication — this is a
//! deliberate choice: on a filesystem where the same directory is
//! reachable twice (overlapping mounts, listing races) it is expanded
//! twice, an at-least-once behaviour. On a static tree, where every
//! node is listed by exactly one parent, each directory is expanded
//! at most once; the `tree` module proves exactly that.

use vstd::prelude::*;

use vstd::multiset::Multiset;

use crate::filter::SearchOptions;
use crate::filter::spec_apply_filters;
use crate::metadata_cache::Metadata;

verus! {

/// One listed child of a directory, as the caller hands it to the
/// engine: its full path, its bare file name, and its metadata, or
/// `None` when the metadata could not be fetched (the entry vanished
/// or may not be read) — such an entry cannot be classified, so it is
/// neither expanded nor reported.
pub struct DirEntry {
    pub path: String,
    pub file_name: String,
    pub metadata: Option<Metadata>,
}

/// The entry is a directory (and so belongs on the frontier).
pub open spec fn entry_is_dir(e: DirEntry) -> bool {
    e.metadata matches Some(m) && m.kind is Directory
}

/// The entry could be classified and passes the filter predicate (and
/// so belongs in the output buffer).
pub open spec fn entry_matches(options: SearchOptions, e: DirEntry) -> bool {
    e.metadata matches Some(m) && spec_apply_filters(
        options,
        e.file_name@,
        m.kind is File,
        m.kind is Directory,
    )
}

/// `entry_is_dir` as a value, so that every filter over it is stated
/// with one and the same function.
pub open spec fn dir_pred() -> spec_fn(DirEntry) -> bool {
    |e: DirEntry| entry_is_dir(e)
}

/// `entry_matches` under fixed options, as a value.
pub open spec fn match_pred(options: SearchOptions) -> spec_fn(DirEntry) -> bool {
    |e: DirEntry| entry_matches(options, e)
}

/// The entries of a listing that are directories, in listing order.
pub open spec fn dir_children(entries: Seq<DirEntry>) -> Seq<DirEntry> {
    entries.filter(dir_pred())
}

/// The entries of a listing that pass the filter, in listing order.
pub open spec fn matched_children(options: SearchOptions, entries: Seq<DirEntry>) -> Seq<
    DirEntry,
> {
    entries.filter(match_pred(options))
}

/// The paths of a sequence of entries, in order.
pub open spec fn paths_of(entries: Seq<DirEntry>) -> Seq<Seq<char>> {
    entries.map_values(|e: DirEntry| e.path@)
}

/// What one pull from the engine produced: a matched path ready for
/// the consumer, a directory the caller must expand (followed by a
/// call to `process_directory` with whatever the listing gave), or
/// the end of the traversal.
pub enum Step {
    Matched(String),
    Expand(String),
    Done,
}

/// The traversal state: the frontier of directories still to expand,
/// the staging buffer of matched entries not yet yielded, and the
/// search options, fixed for the traversal's lifetime. The ghost
/// `seen` records every entry ever handed to `process_directory`, so
/// that contracts can say where yielded paths come from.
pub struct SearchEngine {
    pub queue: Vec<String>,
    pub files_queue: Vec<DirEntry>,
    pub options: SearchOptions,
    pub seen: Ghost<Seq<DirEntry>>,
}

impl SearchEngine {
    /// The frontier: paths of directories discovered but not yet
    /// expanded, in the order they will be expanded.
    pub open spec fn frontier(&self) -> Seq<Seq<char>> {
        self.queue@.map_values(|p: String| p@)
    }

    /// The staging buffer: matched entries awaiting delivery.
    pub open spec fn buffer(&self) -> Seq<DirEntry> {
        self.files_queue@
    }

    /// The options this traversal was started with.
    pub open spec fn opts(&self) -> SearchOptions {
        self.options
    }

    /// Every entry ever handed to `process_directory`.
    pub open spec fn seen_entries(&self) -> Seq<DirEntry> {
        self.seen@
    }

    /// The engine's invariant: everything in the staging buffer came
    /// from a processed listing and passed the filter predicate.
    pub open spec fn wf(&self) -> bool {
        forall|i: int|
            0 <= i < self.buffer().len() ==> entry_matches(self.opts(), #[trigger] self.buffer()[i])
                && self.seen_entries().contains(self.buffer()[i])
    }
}

/// Starts a breadth-first search: the root directory is seeded into
/// the frontier, to be expanded but never itself tested against the
/// filter; only its descendants are candidates for output.
pub fn bfs_search(root: String, options: SearchOptions) -> (e: SearchEngine)
    ensures
        e.wf(),
        e.frontier() =~= seq![root@],
        e.buffer() =~= Seq::<DirEntry>::empty(),
        e.opts() == options,
        e.seen_entries() =~= Seq::<DirEntry>::empty(),
{
    let mut queue: Vec<String> = Vec::new();
    queue.push(root);
    SearchEngine { queue, files_queue: Vec::new(), options, seen: Ghost(Seq::empty()) }
}

impl SearchEngine {
    /// One pull: yields the front of the staging buffer if it is
    /// non-empty; otherwise dequeues the front of the frontier for
    /// the caller to expand; otherwise the traversal is over. A
    /// yielded path always stems from a processed entry that passed
    /// the filter.
    pub fn next_step(&mut self) -> (s: Step)
        requires
            old(self).wf(),
        ensures
            final(self).wf(),
            final(self).opts() == old(self).opts(),
            final(self).seen_entries() == old(self).seen_entries(),
            old(self).buffer().len() > 0 ==> {
                &&& s matches Step::Matched(p) && p == old(self).buffer()[0].path
                &&& entry_matches(old(self).opts(), old(self).buffer()[0])
                &&& old(self).seen_entries().contains(old(self).buffer()[0])
                &&& final(self).buffer() == old(self).buffer().drop_first()
                &&& final(self).frontier() == old(self).frontier()
            },
            old(self).buffer().len() == 0 && old(self).frontier().len() > 0 ==> {
                &&& s matches Step::Expand(p) && p@ == old(self).frontier()[0]
                &&& final(self).frontier() =~= old(self).frontier().drop_first()
                &&& final(self).buffer() == old(self).buffer()
            },
            old(self).buffer().len() == 0 && old(self).frontier().len() == 0 ==> {
                &&& s is Done
                &&& *final(self) == *old(self)
            },
    {
        if self.files_queue.len() > 0 {
            let e = self.files_queue.remove(0);
            proof {
                assert(old(self).buffer()[0] == e);
                assert(self.files_queue@ =~= old(self).buffer().drop_first());
            }
            return Step::Matched(e.path);
        }
        if self.queue.len() > 0 {
            let dir = self.queue.remove(0);
            proof {
                assert(self.frontier() =~= old(self).frontier().drop_first()) by {
                    assert(self.queue@ == old(self).queue@.remove(0));
                }
                assert(old(self).frontier()[0] == old(self).queue@[0]@);
            }
            return Step::Expand(dir);
        }
        Step::Done
    }

    /// Routes one directory's listed children: every child that is
    /// itself a directory is appended to the frontier — whether or
    /// not it matches the filter — so that its own children can still
    /// be discovered; every child that passes the filter is appended
    /// to the staging buffer; a child whose metadata is missing, and
    /// a listing that produced no entries (an empty or unreadable
    /// directory), contribute nothing.
    pub fn process_directory(&mut self, entries: Vec<DirEntry>)
        requires
            old(self).wf(),
        ensures
            final(self).wf(),
            final(self).opts() == old(self).opts(),
            final(self).frontier() == old(self).frontier() + paths_of(dir_children(entries@)),
            final(self).buffer() == old(self).buffer() + matched_children(
                old(self).opts(),
                entries@,
            ),
            final(self).seen_entries() == old(self).seen_entries() + entries@,
    {
        let ghost orig: Seq<DirEntry> = entries@;
        proof {
            self.seen@ = self.seen@ + orig;
        }
        let mut entries = entries;
        let ghost mut k: int = 0;
        proof {
            assert(orig.skip(0) =~= orig);
            assert(orig.take(0) =~= Seq::<DirEntry>::empty());
            assert(dir_children(orig.take(0)) =~= Seq::<DirEntry>::empty()) by {
                reveal(Seq::filter);
            }
            assert(matched_children(old(self).options, orig.take(0)) =~= Seq::<
                DirEntry,
            >::empty()) by {
                reveal(Seq::filter);
            }
            assert(paths_of(dir_children(orig.take(0))) =~= Seq::<Seq<char>>::empty());
            assert(self.frontier() =~= self.frontier() + paths_of(dir_children(orig.take(0))));
            assert(self.files_queue@ =~= self.files_queue@ + matched_children(
                old(self).options,
                orig.take(0),
            ));
        }
        while entries.len() > 0
            invariant
                0 <= k <= orig.len(),
                entries@ == orig.skip(k),
                self.options == old(self).options,
                self.seen@ == old(self).seen@ + orig,
                self.frontier() == old(self).frontier() + paths_of(dir_children(orig.take(k))),
                self.files_queue@ == old(self).files_queue@ + matched_children(
                    old(self).options,
                    orig.take(k),
                ),
            decreases entries@.len(),
        {
            let e = entries.remove(0);
            proof {
                assert(e == orig.skip(k)[0]);
                assert(orig.skip(k)[0] == orig[k]);
                assert(entries@ =~= orig.skip(k + 1));
                assert(orig.take(k + 1) =~= orig.take(k).push(orig[k]));
            }
            let ghost frontier_before = self.frontier();
            if let Some(m) = &e.metadata {
                let is_file = m.is_file();
                let is_dir = m.is_dir();
                if is_dir {
                    let p = e.path.clone();
                    self.queue.push(p);
                    proof {
                        assert(self.frontier() =~= frontier_before.push(e.path@));
                    }
                }
                if crate::filter::apply_filters(
                    &self.options,
                    e.file_name.as_str(),
                    is_file,
                    is_dir,
                ) {
                    self.files_queue.push(e);
                }
            }
            proof {
                lemma_filter_step(orig.take(k), orig[k], dir_pred());
                lemma_filter_step(orig.take(k), orig[k], match_pred(old(self).options));
                if entry_is_dir(orig[k]) {
                    assert(paths_of(dir_children(orig.take(k + 1))) =~= paths_of(
                        dir_children(orig.take(k)),
                    ).push(orig[k].path@));
                    assert(self.frontier() =~= old(self).frontier() + paths_of(
                        dir_children(orig.take(k + 1)),
                    ));
                } else {
                    assert(dir_children(orig.take(k + 1)) == dir_children(orig.take(k)));
                }
                if entry_matches(old(self).options, orig[k]) {
                    assert(self.files_queue@ =~= old(self).files_queue@ + matched_children(
                        old(self).options,
                        orig.take(k + 1),
                    ));
                } else {
                    assert(matched_children(old(self).options, orig.take(k + 1))
                        == matched_children(old(self).options, orig.take(k)));
                }
                k = k + 1;
            }
        }
        proof {
            assert(orig.take(k) =~= orig);
            assert forall|i: int| 0 <= i < self.buffer().len() implies entry_matches(
                self.opts(),
                #[trigger] self.buffer()[i],
            ) && self.seen_entries().contains(self.buffer()[i]) by {
                let ob = old(self).files_queue@;
                if i < ob.len() {
                    assert(self.buffer()[i] == ob[i]);
                    assert(old(self).buffer()[i] == ob[i]);
                    assert(entry_matches(old(self).opts(), old(self).buffer()[i]));
                    assert(old(self).seen@.contains(ob[i]));
                    let j = choose|j: int|
                        0 <= j < old(self).seen@.len() && old(self).seen@[j] == ob[i];
                    assert(self.seen@[j] == ob[i]);
                } else {
                    let mc = matched_children(old(self).options, orig);
                    let ii = i - ob.len();
                    assert(self.buffer()[i] == mc[ii]);
                    orig.lemma_filter_pred(match_pred(old(self).options), ii);
                    assert(entry_matches(old(self).options, mc[ii]));
                    lemma_filter_subset(orig, match_pred(old(self).options), ii);
                    let j = choose|j: int| 0 <= j < orig.len() && #[trigger] orig[j] == mc[ii];
                    assert(self.seen@[old(self).seen@.len() + j] == orig[j]);
                }
            }
        }
    }
}

/// Soundness of the traversal: every entry the engine holds ready to
/// be yielded was handed in by some expansion of the tree being
/// walked, and satisfies the filter predicate under the traversal's
/// options. Together with the contract of `next_step` this says that
/// the output sequence is a subset of the tree's entries and that
/// every yielded entry passes the filter.
pub proof fn lemma_buffer_sound(e: &SearchEngine, i: int)
    requires
        e.wf(),
        0 <= i < e.buffer().len(),
    ensures
        e.seen_entries().contains(e.buffer()[i]),
        entry_matches(e.opts(), e.buffer()[i]),
{
}

/// Directories are enqueued for expansion regardless of whether they
/// themselves match the filter: a listed child that is a directory
/// always has its path appended to the frontier, and when it fails
/// the filter it still does not reach the output buffer.
pub proof fn lemma_directories_always_enqueued(
    options: SearchOptions,
    entries: Seq<DirEntry>,
    i: int,
)
    requires
        0 <= i < entries.len(),
        entry_is_dir(entries[i]),
    ensures
        paths_of(dir_children(entries)).contains(entries[i].path@),
        !entry_matches(options, entries[i]) ==> !matched_children(options, entries).contains(
            entries[i],
        ),
{
    entries.lemma_filter_contains(dir_pred(), i);
    let dc = dir_children(entries);
    let j = choose|j: int| 0 <= j < dc.len() && dc[j] == entries[i];
    assert(paths_of(dc)[j] == entries[i].path@);
    if !entry_matches(options, entries[i]) && matched_children(options, entries).contains(
        entries[i],
    ) {
        let mc = matched_children(options, entries);
        let l = choose|l: int| 0 <= l < mc.len() && mc[l] == entries[i];
        entries.lemma_filter_pred(match_pred(options), l);
    }
}

/// An entry whose metadata could not be fetched is neither enqueued
/// for expansion nor reported, and an unreadable directory (an empty
/// listing) contributes nothing at all — so neither prevents the
/// discovery of other directories' matches.
pub proof fn lemma_unclassified_contributes_nothing(
    options: SearchOptions,
    entries: Seq<DirEntry>,
    i: int,
)
    requires
        0 <= i < entries.len(),
        entries[i].metadata is None,
    ensures
        !dir_children(entries).contains(entries[i]),
        !matched_children(options, entries).contains(entries[i]),
{
    if dir_children(entries).contains(entries[i]) {
        let j = choose|j: int|
            0 <= j < dir_children(entries).len() && dir_children(entries)[j] == entries[i];
        entries.lemma_filter_pred(dir_pred(), j);
    }
    if matched_children(options, entries).contains(entries[i]) {
        let j = choose|j: int|
            0 <= j < matched_children(options, entries).len() && matched_children(
                options,
                entries,
            )[j] == entries[i];
        entries.lemma_filter_pred(match_pred(options), j);
    }
}

/// How often an element occurs in a filtered sequence: as often as in
/// the sequence itself when it satisfies the predicate, never
/// otherwise.
pub(crate) proof fn lemma_filter_count(s: Seq<DirEntry>, pred: spec_fn(DirEntry) -> bool, x: DirEntry)
    ensures
        s.filter(pred).to_multiset().count(x) == if pred(x) {
            s.to_multiset().count(x)
        } else {
            0
        },
    decreases s.len(),
{
    broadcast use vstd::seq_lib::group_seq_properties;

    if s.len() == 0 {
        reveal(Seq::filter);
        assert(s.to_multiset() =~= Multiset::<DirEntry>::empty());
        assert(s.filter(pred).to_multiset() =~= Multiset::<DirEntry>::empty());
    } else {
        let d = s.drop_last();
        let l = s.last();
        lemma_filter_count(d, pred, x);
        lemma_filter_step(d, l, pred);
        assert(s =~= d.push(l));
        assert(s.to_multiset() =~= d.to_multiset().insert(l));
        if pred(l) {
            assert(s.filter(pred).to_multiset() =~= d.filter(pred).to_multiset().insert(l));
        }
    }
}

/// Concurrent expansion of one directory hands the engine its
/// children in some arbitrary order; this lemma says the order is
/// irrelevant: two listings with the same entries — as a multiset —
/// produce the same multiset of matched entries and the same multiset
/// of enqueued directories, so the final match set never depends on
/// the order in which children were processed.
pub proof fn lemma_expansion_order_irrelevant(
    options: SearchOptions,
    entries1: Seq<DirEntry>,
    entries2: Seq<DirEntry>,
)
    requires
        entries1.to_multiset() == entries2.to_multiset(),
    ensures
        matched_children(options, entries1).to_multiset() == matched_children(
            options,
            entries2,
        ).to_multiset(),
        dir_children(entries1).to_multiset() == dir_children(entries2).to_multiset(),
{
    assert forall|x: DirEntry|
        matched_children(options, entries1).to_multiset().count(x) == matched_children(
            options,
            entries2,
        ).to_multiset().count(x) by {
        lemma_filter_count(entries1, match_pred(options), x);
        lemma_filter_count(entries2, match_pred(options), x);
    }
    assert(matched_children(options, entries1).to_multiset() =~= matched_children(
        options,
        entries2,
    ).to_multiset());
    assert forall|x: DirEntry|
        dir_children(entries1).to_multiset().count(x) == dir_children(
            entries2,
        ).to_multiset().count(x) by {
        lemma_filter_count(entries1, dir_pred(), x);
        lemma_filter_count(entries2, dir_pred(), x);
    }
    assert(dir_children(entries1).to_multiset() =~= dir_children(entries2).to_multiset());
}

/// Two filters whose predicates agree on every element of a sequence
/// select the same entries from it.
proof fn lemma_filter_congruence(
    s: Seq<DirEntry>,
    p1: spec_fn(DirEntry) -> bool,
    p2: spec_fn(DirEntry) -> bool,
)
    requires
        forall|i: int| 0 <= i < s.len() ==> p1(#[trigger] s[i]) == p2(s[i]),
    ensures
        s.filter(p1) == s.filter(p2),
    decreases s.len(),
{
    reveal(Seq::filter);
    if s.len() > 0 {
        lemma_filter_congruence(s.drop_last(), p1, p2);
        assert(p1(s[s.len() - 1]) == p2(s[s.len() - 1]));
    }
}

/// A search for kind `'d'` with no name pattern selects from a
/// listing exactly its directories: every directory below the root is
/// reported, and nothing else is. The root itself is never reported,
/// since it is seeded into the frontier without ever being listed as
/// anyone's child.
pub proof fn lemma_kind_only_search_selects_directories(
    options: SearchOptions,
    entries: Seq<DirEntry>,
)
    requires
        options.name_pattern is None,
        options.file_type matches Some(t) && t@ == seq!['d'],
    ensures
        matched_children(options, entries) == dir_children(entries),
{
    assert forall|i: int| 0 <= i < entries.len() implies match_pred(options)(
        #[trigger] entries[i],
    ) == dir_pred()(entries[i]) by {
        let e = entries[i];
        if e.metadata is Some {
            let m = e.metadata->Some_0;
            assert(seq!['f'] != seq!['d']) by {
                assert(seq!['f'][0] != seq!['d'][0]);
            }
            assert(crate::filter::name_matches(options, e.file_name@));
            assert(crate::filter::kind_matches(options, m.kind is File, m.kind is Directory)
                == (m.kind is Directory));
        }
    }
    lemma_filter_congruence(entries, match_pred(options), dir_pred());
}

/// Filtering a sequence extended by one element keeps the old result
/// and appends the element exactly when it satisfies the predicate.
pub(crate) proof fn lemma_filter_step(s: Seq<DirEntry>, x: DirEntry, pred: spec_fn(DirEntry) -> bool)
    ensures
        s.push(x).filter(pred) == if pred(x) {
            s.filter(pred).push(x)
        } else {
            s.filter(pred)
        },
{
    reveal(Seq::filter);
    assert(s.push(x).drop_last() =~= s);
    assert(s.push(x).last() == x);
}

/// Every element of a filtered sequence is an element of the
/// sequence it was filtered from.
pub(crate) proof fn lemma_filter_subset(s: Seq<DirEntry>, pred: spec_fn(DirEntry) -> bool, i: int)
    requires
        0 <= i < s.filter(pred).len(),
    ensures
        exists|j: int| 0 <= j < s.len() && #[trigger] s[j] == s.filter(pred)[i],
    decreases s.len(),
{
    reveal(Seq::filter);
    if s.len() > 0 {
        let sub = s.drop_last().filter(pred);
        if pred(s.last()) && i == sub.len() {
            assert(s[s.len() - 1] == s.filter(pred)[i]);
        } else {
            lemma_filter_subset(s.drop_last(), pred, i);
            let j = choose|j: int|
                0 <= j < s.drop_last().len() && #[trigger] s.drop_last()[j] == s.drop_last().filter(
                    pred,
                )[i];
            assert(s[j] == s.filter(pred)[i]);
        }
    }
}

} // verus!
