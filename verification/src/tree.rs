//! A model of a static directory tree, and a whole traversal run
//! against it.
//!
//! The engine itself is driven by a caller who does the filesystem
//! work; nothing inside the engine can say what a complete traversal
//! of a real filesystem delivers. This module closes that gap for
//! static trees: a `Tree` value describes a filesystem that does not
//! change while it is walked — every node with its path, name,
//! metadata, children and whether listing it succeeds — and
//! `search_tree` runs a whole breadth-first search against it,
//! proving that the result contains exactly one occurrence of every
//! entry that is reachable through listable directories and passes
//! the filter, and nothing else.

use vstd::prelude::*;

use vstd::multiset::Multiset;

use crate::bfs::DirEntry;
use crate::bfs::entry_is_dir;
use crate::bfs::entry_matches;
use crate::filter::SearchOptions;
use crate::metadata_cache::Metadata;

verus! {

/// One node of a static tree: its location and metadata as the
/// traversal would observe them, the index of its parent (the root,
/// node 0, stores itself), the indices of its children, and whether
/// listing it succeeds. Metadata of `None` stands for a node whose
/// metadata cannot be fetched.
pub struct TreeNode {
    pub path: String,
    pub file_name: String,
    pub metadata: Option<Metadata>,
    pub parent: usize,
    pub children: Vec<usize>,
    pub listable: bool,
}

/// A static tree: node 0 is the root directory the search starts at.
pub struct Tree {
    pub nodes: Vec<TreeNode>,
}

impl Tree {
    /// The directory entry the filesystem would report for node `i`.
    pub open spec fn spec_entry(&self, i: int) -> DirEntry {
        DirEntry {
            path: self.nodes@[i].path,
            file_name: self.nodes@[i].file_name,
            metadata: self.nodes@[i].metadata,
        }
    }

    /// What a tree must satisfy to describe a filesystem tree: child
    /// links and parent links agree, parents come before their
    /// children, no child is listed twice, and paths are distinct.
    pub open spec fn wf(&self) -> bool {
        let n = self.nodes@.len() as int;
        &&& n >= 1
        &&& self.nodes@[0].parent == 0
        &&& forall|i: int| 1 <= i < n ==> (#[trigger] self.nodes@[i].parent) < i
        &&& forall|p: int, c: int|
            0 <= p < n && 0 <= c < self.nodes@[p].children@.len() ==> {
                &&& 0 < #[trigger] self.nodes@[p].children@[c] < n
                &&& self.nodes@[self.nodes@[p].children@[c] as int].parent == p
            }
        &&& forall|i: int|
            1 <= i < n ==> self.nodes@[(#[trigger] self.nodes@[i].parent) as int].children@.contains(
                i as usize,
            )
        &&& forall|p: int, c1: int, c2: int|
            0 <= p < n && 0 <= c1 < c2 < self.nodes@[p].children@.len()
                ==> #[trigger] self.nodes@[p].children@[c1] != #[trigger] self.nodes@[p].children@[c2]
        &&& forall|i: int, j: int|
            0 <= i < j < n ==> (#[trigger] self.nodes@[i].path)@ != (#[trigger] self.nodes@[j].path)@
    }

    /// What listing node `i` produces: the directory entries of its
    /// children when the listing succeeds, nothing when it does not.
    pub open spec fn spec_listing(&self, i: int) -> Seq<DirEntry> {
        if self.nodes@[i].listable {
            self.nodes@[i].children@.map_values(entry_of(*self))
        } else {
            Seq::empty()
        }
    }
}

/// The entry of a node, as a function value, so that every mapping of
/// children to entries is stated with one and the same function.
pub open spec fn entry_of(tree: Tree) -> spec_fn(usize) -> DirEntry {
    |c: usize| tree.spec_entry(c as int)
}

/// Whether node `i` gets expanded with a successful listing when the
/// tree is traversed: the root is listed exactly when it is listable,
/// and any other node exactly when its parent is, it is a directory,
/// and it is itself listable.
pub open spec fn expands(tree: Tree, i: int) -> bool
    decreases i,
    when 0 <= i < tree.nodes@.len() && tree.wf()
{
    if i == 0 {
        tree.nodes@[0].listable
    } else {
        &&& expands(tree, tree.nodes@[i].parent as int)
        &&& entry_is_dir(tree.spec_entry(i))
        &&& tree.nodes@[i].listable
    }
}

/// Whether node `i` ever reaches the traversal's frontier: it is the
/// root, or a directory whose parent gets listed.
pub open spec fn enqueue_ok(tree: Tree, i: int) -> bool {
    i == 0 || (entry_is_dir(tree.spec_entry(i)) && expands(tree, tree.nodes@[i].parent as int))
}

/// Whether node `i` belongs to the search's answer: it is a proper
/// descendant of the root, every directory on the way to it gets
/// listed, and it satisfies the filter predicate.
pub open spec fn matched_node(tree: Tree, options: SearchOptions, i: int) -> bool {
    &&& 1 <= i < tree.nodes@.len()
    &&& expands(tree, tree.nodes@[i].parent as int)
    &&& entry_matches(options, tree.spec_entry(i))
}

/// The views of a sequence of path strings.
pub open spec fn path_views(s: Seq<String>) -> Seq<Seq<char>> {
    s.map_values(|x: String| x@)
}

/// The paths of the given tree nodes, in order.
pub open spec fn node_paths(tree: Tree, ps: Seq<int>) -> Seq<Seq<char>> {
    ps.map_values(|i: int| tree.nodes@[i].path@)
}

/// A predicate on entries, pulled back to the child indices that
/// produce them.
pub open spec fn lift_pred(tree: Tree, pred: spec_fn(DirEntry) -> bool) -> spec_fn(usize) -> bool {
    |c: usize| pred(tree.spec_entry(c as int))
}

/// The indices of the directories among a node's listed children: the
/// nodes its expansion sends to the frontier.
pub open spec fn dir_child_indices(tree: Tree, i: int) -> Seq<int> {
    if tree.nodes@[i].listable {
        tree.nodes@[i].children@.filter(lift_pred(tree, crate::bfs::dir_pred())).map_values(
            |c: usize| c as int,
        )
    } else {
        Seq::empty()
    }
}

proof fn lemma_usize_filter_step(s: Seq<usize>, x: usize, pred: spec_fn(usize) -> bool)
    ensures
        s.push(x).filter(pred) == if pred(x) {
            s.filter(pred).push(x)
        } else {
            s.filter(pred)
        },
{
    reveal(Seq::filter);
    assert(s.push(x).drop_last() =~= s);
    assert(s.push(x).last() == x);
}

/// How often a value occurs in a filtered sequence of indices.
proof fn lemma_usize_filter_count(s: Seq<usize>, pred: spec_fn(usize) -> bool, x: usize)
    ensures
        s.filter(pred).to_multiset().count(x) == if pred(x) {
            s.to_multiset().count(x)
        } else {
            0
        },
    decreases s.len(),
{
    broadcast use vstd::seq_lib::group_seq_properties;
    broadcast use vstd::multiset::group_multiset_axioms;

    if s.len() == 0 {
        reveal(Seq::filter);
        assert(s.to_multiset() =~= Multiset::<usize>::empty());
        assert(s.filter(pred).to_multiset() =~= Multiset::<usize>::empty());
    } else {
        let d = s.drop_last();
        let l = s.last();
        lemma_usize_filter_count(d, pred, x);
        lemma_usize_filter_step(d, l, pred);
        assert(s =~= d.push(l));
        assert(s.to_multiset() =~= d.to_multiset().insert(l));
        if pred(l) {
            assert(s.filter(pred).to_multiset() =~= d.filter(pred).to_multiset().insert(l));
        }
    }
}

/// Filtering the entries of a listing is the same as filtering the
/// child indices first and listing those.
proof fn lemma_filter_of_listing(tree: Tree, cs: Seq<usize>, pred: spec_fn(DirEntry) -> bool)
    ensures
        cs.map_values(entry_of(tree)).filter(pred) == cs.filter(lift_pred(tree, pred)).map_values(
            entry_of(tree),
        ),
    decreases cs.len(),
{
    if cs.len() == 0 {
        reveal(Seq::filter);
        assert(cs.map_values(entry_of(tree)) =~= Seq::<DirEntry>::empty());
        assert(cs.map_values(entry_of(tree)).filter(pred) =~= Seq::<DirEntry>::empty());
        assert(cs.filter(lift_pred(tree, pred)) =~= Seq::<usize>::empty());
        assert(cs.filter(lift_pred(tree, pred)).map_values(entry_of(tree)) =~= Seq::<
            DirEntry,
        >::empty());
    } else {
        let d = cs.drop_last();
        let l = cs.last();
        lemma_filter_of_listing(tree, d, pred);
        assert(cs =~= d.push(l));
        assert(cs.map_values(entry_of(tree)) =~= d.map_values(entry_of(tree)).push(
            entry_of(tree)(l),
        ));
        crate::bfs::lemma_filter_step(d.map_values(entry_of(tree)), entry_of(tree)(l), pred);
        lemma_usize_filter_step(d, l, lift_pred(tree, pred));
        if pred(entry_of(tree)(l)) {
            assert(cs.filter(lift_pred(tree, pred)).map_values(entry_of(tree)) =~= d.filter(
                lift_pred(tree, pred),
            ).map_values(entry_of(tree)).push(entry_of(tree)(l)));
        }
    }
}

/// Distinct nodes of a well-formed tree have distinct entries, their
/// paths being distinct.
proof fn lemma_entry_injective(tree: Tree, i: int, j: int)
    requires
        tree.wf(),
        0 <= i < tree.nodes@.len(),
        0 <= j < tree.nodes@.len(),
        tree.spec_entry(i) == tree.spec_entry(j),
    ensures
        i == j,
{
    if i != j {
        assert(tree.nodes@[i].path@ != tree.nodes@[j].path@);
    }
}

/// How often a node's entry occurs in another node's listing: once
/// when that node is its parent and listable, never otherwise.
proof fn lemma_listing_count(tree: Tree, px: int, i: int)
    requires
        tree.wf(),
        0 <= px < tree.nodes@.len(),
        1 <= i < tree.nodes@.len(),
    ensures
        tree.spec_listing(px).to_multiset().count(tree.spec_entry(i)) == if tree.nodes@[px].listable
            && tree.nodes@[i].parent == px {
            1nat
        } else {
            0nat
        },
{
    broadcast use vstd::seq_lib::group_to_multiset_ensures;

    assert(tree.nodes@.len() == tree.nodes.len());
    let listing = tree.spec_listing(px);
    if !tree.nodes@[px].listable {
        assert(listing =~= Seq::<DirEntry>::empty());
        assert(!listing.contains(tree.spec_entry(i)));
    } else {
        let cs = tree.nodes@[px].children@;
        assert(listing == cs.map_values(entry_of(tree)));
        assert(listing.no_duplicates()) by {
            assert forall|a: int, b: int|
                0 <= a < listing.len() && 0 <= b < listing.len() && a != b implies listing[a]
                != listing[b] by {
                if listing[a] == listing[b] {
                    lemma_entry_injective(tree, cs[a] as int, cs[b] as int);
                }
            }
        }
        listing.lemma_multiset_has_no_duplicates();
        if tree.nodes@[i].parent == px {
            assert(cs.contains(i as usize));
            let c = choose|c: int| 0 <= c < cs.len() && cs[c] == i as usize;
            assert(listing[c] == tree.spec_entry(i));
            assert(listing.contains(tree.spec_entry(i)));
        } else {
            if listing.contains(tree.spec_entry(i)) {
                let c = choose|c: int| 0 <= c < listing.len() && listing[c] == tree.spec_entry(i);
                lemma_entry_injective(tree, cs[c] as int, i);
            }
            assert(!listing.contains(tree.spec_entry(i)));
        }
    }
}

/// `expands` spelt out over `enqueue_ok`: a node's listing happens
/// exactly when the node can reach the frontier and is listable.
proof fn lemma_expands_unfold(tree: Tree, q: int)
    requires
        tree.wf(),
        0 <= q < tree.nodes@.len(),
    ensures
        expands(tree, q) == (enqueue_ok(tree, q) && tree.nodes@[q].listable),
{
}

/// Once the frontier is exhausted, every node whose whole ancestor
/// chain gets listed has been expanded: the induction that carries
/// completeness from one level to the next.
proof fn lemma_expands_expanded(tree: Tree, expanded: Set<int>, q: int)
    requires
        tree.wf(),
        0 <= q < tree.nodes@.len(),
        forall|i: int|
            0 <= i < tree.nodes@.len() && #[trigger] enqueue_ok(tree, i) && (i == 0
                || expanded.contains(tree.nodes@[i].parent as int)) ==> expanded.contains(i),
        enqueue_ok(tree, q),
    ensures
        expanded.contains(q),
    decreases q,
{
    if q != 0 {
        let p = tree.nodes@[q].parent as int;
        lemma_expands_unfold(tree, p);
        lemma_expands_expanded(tree, expanded, p);
    }
}

proof fn lemma_usize_filter_subset(s: Seq<usize>, pred: spec_fn(usize) -> bool, i: int)
    requires
        0 <= i < s.filter(pred).len(),
    ensures
        exists|j: int| 0 <= j < s.len() && #[trigger] s[j] == s.filter(pred)[i],
    decreases s.len(),
{
    reveal(Seq::filter);
    if s.len() > 0 {
        let sub = s.drop_last().filter(pred);
        if pred(s.last()) && i == sub.len() {
            assert(s[s.len() - 1] == s.filter(pred)[i]);
        } else {
            lemma_usize_filter_subset(s.drop_last(), pred, i);
            let j = choose|j: int|
                0 <= j < s.drop_last().len() && #[trigger] s.drop_last()[j] == s.drop_last().filter(
                    pred,
                )[i];
            assert(s[j] == s.filter(pred)[i]);
        }
    }
}

/// What the counting invariant of a traversal owes for node `i`: one
/// occurrence once the node's parent has been expanded with a
/// successful listing and the node passes the filter, none otherwise.
pub open spec fn count_rhs(tree: Tree, options: SearchOptions, expanded: Set<int>, i: int) -> nat {
    let p = tree.nodes@[i].parent as int;
    if expanded.contains(p) && tree.nodes@[p].listable && entry_matches(
        options,
        tree.spec_entry(i),
    ) {
        1nat
    } else {
        0nat
    }
}

/// Lists the node with the given path, best effort, as a filesystem
/// would: an unknown path or an unlistable node lists as empty.
fn list_node(tree: &Tree, path: &String) -> (entries: Vec<DirEntry>)
    requires
        tree.wf(),
    ensures
        forall|i: int|
            0 <= i < tree.nodes@.len() && (#[trigger] tree.nodes@[i].path)@ == path@
                ==> entries@ == tree.spec_listing(i),
        (forall|i: int| 0 <= i < tree.nodes@.len() ==> (#[trigger] tree.nodes@[i].path)@ != path@)
            ==> entries@ == Seq::<DirEntry>::empty(),
{
    let n = tree.nodes.len();
    let mut idx: usize = 0;
    loop
        invariant
            n == tree.nodes@.len(),
            0 <= idx <= n,
            forall|j: int| 0 <= j < idx ==> (#[trigger] tree.nodes@[j].path)@ != path@,
        ensures
            0 <= idx <= n,
            idx < n ==> tree.nodes@[idx as int].path@ == path@,
            forall|j: int| 0 <= j < idx ==> (#[trigger] tree.nodes@[j].path)@ != path@,
        decreases n - idx,
    {
        if idx == n {
            break ;
        }
        if tree.nodes[idx].path == *path {
            break ;
        }
        idx += 1;
    }
    if idx == n {
        return Vec::new();
    }
    let node = &tree.nodes[idx];
    if !node.listable {
        return Vec::new();
    }
    let mut entries: Vec<DirEntry> = Vec::new();
    let mut j: usize = 0;
    let count = node.children.len();
    proof {
        assert(entries@ =~= node.children@.take(0).map_values(entry_of(*tree)));
    }
    while j < count
        invariant
            tree.wf(),
            0 <= idx < tree.nodes@.len(),
            node == &tree.nodes@[idx as int],
            count == node.children@.len(),
            0 <= j <= count,
            entries@ == node.children@.take(j as int).map_values(entry_of(*tree)),
        decreases count - j,
    {
        let c = node.children[j];
        proof {
            assert(0 < node.children@[j as int] < tree.nodes@.len());
        }
        let child = &tree.nodes[c];
        entries.push(
            DirEntry {
                path: child.path.clone(),
                file_name: child.file_name.clone(),
                metadata: child.metadata,
            },
        );
        proof {
            assert(node.children@.take(j + 1) =~= node.children@.take(j as int).push(
                node.children@[j as int],
            ));
            assert(entries@ =~= node.children@.take(j + 1).map_values(entry_of(*tree)));
        }
        j += 1;
    }
    proof {
        assert(node.children@.take(count as int) =~= node.children@);
    }
    entries
}

proof fn lemma_usize_filter_no_dup(s: Seq<usize>, pred: spec_fn(usize) -> bool)
    requires
        s.no_duplicates(),
    ensures
        s.filter(pred).no_duplicates(),
    decreases s.len(),
{
    reveal(Seq::filter);
    if s.len() > 0 {
        let d = s.drop_last();
        let l = s.last();
        assert(d.no_duplicates());
        lemma_usize_filter_no_dup(d, pred);
        if pred(l) && d.filter(pred).contains(l) {
            let j = choose|j: int| 0 <= j < d.filter(pred).len() && d.filter(pred)[j] == l;
            lemma_usize_filter_subset(d, pred, j);
            let jd = choose|jd: int| 0 <= jd < d.len() && #[trigger] d[jd] == d.filter(pred)[j];
            assert(s[jd] == s[s.len() - 1]);
        }
    }
}

/// The counting invariant of a traversal: for every node, the number
/// of times its path has been delivered, plus the number of times its
/// entry waits in the staging buffer, is one when its parent has been
/// expanded with a successful listing and it passes the filter, and
/// zero otherwise.
spec fn inv_counts(
    tree: Tree,
    options: SearchOptions,
    expanded: Set<int>,
    results: Seq<String>,
    buffer: Seq<DirEntry>,
) -> bool {
    forall|i: int|
        1 <= i < tree.nodes@.len() ==> path_views(results).to_multiset().count(
            (#[trigger] tree.nodes@[i].path)@,
        ) + buffer.to_multiset().count(tree.spec_entry(i)) == count_rhs(tree, options, expanded, i)
}

/// Everything in the staging buffer is the entry of some tree node.
spec fn inv_buffer_entries(tree: Tree, buffer: Seq<DirEntry>) -> bool {
    forall|j: int|
        0 <= j < buffer.len() ==> exists|i: int|
            1 <= i < tree.nodes@.len() && #[trigger] buffer[j] == tree.spec_entry(i)
}

/// Everything delivered is the path of a matched node.
pub open spec fn inv_results(tree: Tree, options: SearchOptions, results: Seq<String>) -> bool {
    forall|j: int|
        0 <= j < results.len() ==> exists|i: int|
            1 <= i < tree.nodes@.len() && matched_node(tree, options, i) && (#[trigger] results[j])@
                == tree.nodes@[i].path@
}

/// Every expanded node reached the frontier rightfully, and was
/// discovered through expanded ancestors.
spec fn inv_expanded(tree: Tree, expanded: Set<int>) -> bool {
    &&& expanded.finite()
    &&& forall|e: int|
        #[trigger] expanded.contains(e) ==> 0 <= e < tree.nodes@.len() && enqueue_ok(tree, e)
    &&& forall|e: int|
        #[trigger] expanded.contains(e) ==> (e == 0 || expanded.contains(
            tree.nodes@[e].parent as int,
        ))
}

/// The frontier holds rightfully discovered, not yet expanded nodes,
/// each at most once.
spec fn inv_pending(tree: Tree, expanded: Set<int>, pending: Seq<int>) -> bool {
    &&& forall|j: int| 0 <= j < pending.len() ==> 0 <= #[trigger] pending[j] < tree.nodes@.len()
    &&& forall|j: int| 0 <= j < pending.len() ==> enqueue_ok(tree, #[trigger] pending[j])
    &&& forall|j: int|
        0 <= j < pending.len() ==> (#[trigger] pending[j] == 0 || expanded.contains(
            tree.nodes@[pending[j]].parent as int,
        ))
    &&& forall|j: int| 0 <= j < pending.len() ==> !expanded.contains(#[trigger] pending[j])
    &&& forall|j1: int, j2: int|
        0 <= j1 < j2 < pending.len() ==> #[trigger] pending[j1] != #[trigger] pending[j2]
}

/// Nothing rightfully discovered is ever lost: it has been expanded,
/// or still waits on the frontier.
spec fn inv_complete(tree: Tree, expanded: Set<int>, pending: Seq<int>) -> bool {
    forall|i: int|
        0 <= i < tree.nodes@.len() && #[trigger] enqueue_ok(tree, i) && (i == 0
            || expanded.contains(tree.nodes@[i].parent as int)) ==> expanded.contains(i)
            || pending.contains(i)
}

/// Yielding the front of the staging buffer moves one occurrence of
/// one matched node's path from the buffer to the results and changes
/// nothing else the invariants speak of.
#[verifier::rlimit(100)]
#[verifier::spinoff_prover]
proof fn lemma_step_matched(
    tree: Tree,
    options: SearchOptions,
    expanded: Set<int>,
    results: Seq<String>,
    buffer: Seq<DirEntry>,
    p: String,
)
    requires
        tree.wf(),
        buffer.len() > 0,
        p == buffer[0].path,
        inv_counts(tree, options, expanded, results, buffer),
        inv_buffer_entries(tree, buffer),
        inv_results(tree, options, results),
        inv_expanded(tree, expanded),
    ensures
        inv_counts(tree, options, expanded, results.push(p), buffer.drop_first()),
        inv_buffer_entries(tree, buffer.drop_first()),
        inv_results(tree, options, results.push(p)),
{
    broadcast use vstd::seq_lib::group_to_multiset_ensures;
    broadcast use vstd::multiset::group_multiset_axioms;

    let n = tree.nodes@.len() as int;
    let front = buffer[0];
    let i0 = choose|i: int| 1 <= i < n && buffer[0] == tree.spec_entry(i);
    assert(buffer[0] == tree.spec_entry(i0));
    assert(buffer.drop_first() =~= buffer.remove(0));
    assert(buffer.remove(0).to_multiset() =~= buffer.to_multiset().remove(front));
    assert(buffer.contains(front));
    assert(path_views(results.push(p)) =~= path_views(results).push(p@));
    assert(path_views(results.push(p)).to_multiset() =~= path_views(results).to_multiset().insert(
        p@,
    ));
    assert(p@ == tree.nodes@[i0].path@);

    // the yielded node is a matched one
    assert(count_rhs(tree, options, expanded, i0) >= 1) by {
        assert(buffer.to_multiset().count(front) > 0);
    }
    let pi = tree.nodes@[i0].parent as int;
    assert(0 <= pi < n);
    lemma_expands_unfold(tree, pi);
    assert(matched_node(tree, options, i0));

    assert forall|i: int| 1 <= i < n implies path_views(results.push(p)).to_multiset().count(
        (#[trigger] tree.nodes@[i].path)@,
    ) + buffer.drop_first().to_multiset().count(tree.spec_entry(i)) == count_rhs(
        tree,
        options,
        expanded,
        i,
    ) by {
        if i != i0 {
            assert(tree.nodes@[i].path@ != tree.nodes@[i0].path@);
            assert(tree.spec_entry(i) != front) by {
                if tree.spec_entry(i) == front {
                    lemma_entry_injective(tree, i, i0);
                }
            }
        } else {
            assert(tree.spec_entry(i0) == front);
        }
    }

    assert forall|j: int| 0 <= j < buffer.drop_first().len() implies exists|i: int|
        1 <= i < n && #[trigger] buffer.drop_first()[j] == tree.spec_entry(i) by {
        assert(buffer.drop_first()[j] == buffer[j + 1]);
    }

    assert forall|j: int| 0 <= j < results.push(p).len() implies exists|i: int|
        1 <= i < n && matched_node(tree, options, i) && (#[trigger] results.push(p)[j])@
            == tree.nodes@[i].path@ by {
        if j < results.len() {
            assert(results.push(p)[j] == results[j]);
        } else {
            assert(results.push(p)[j] == p);
            assert(matched_node(tree, options, i0) && p@ == tree.nodes@[i0].path@);
        }
    }
}

/// The directories among a node's listed children: each a valid,
/// distinct directory node whose parent is the listed node.
#[verifier::spinoff_prover]
proof fn lemma_expand_new_pending(tree: Tree, px: int)
    requires
        tree.wf(),
        0 <= px < tree.nodes@.len(),
    ensures
        ({
            let new_pending = dir_child_indices(tree, px);
            &&& forall|t: int|
                0 <= t < new_pending.len() ==> {
                    &&& 1 <= #[trigger] new_pending[t] < tree.nodes@.len()
                    &&& tree.nodes@[new_pending[t]].parent == px
                    &&& entry_is_dir(tree.spec_entry(new_pending[t]))
                    &&& tree.nodes@[px].listable
                }
            &&& new_pending.no_duplicates()
        }),
{
    let n = tree.nodes@.len() as int;
    let cs = tree.nodes@[px].children@;
    let new_pending = dir_child_indices(tree, px);
    assert forall|t: int| 0 <= t < new_pending.len() implies {
        &&& 1 <= #[trigger] new_pending[t] < n
        &&& tree.nodes@[new_pending[t]].parent == px
        &&& entry_is_dir(tree.spec_entry(new_pending[t]))
        &&& tree.nodes@[px].listable
    } by {
        let fs = cs.filter(lift_pred(tree, crate::bfs::dir_pred()));
        assert(new_pending[t] == fs[t] as int);
        lemma_usize_filter_subset(cs, lift_pred(tree, crate::bfs::dir_pred()), t);
        let j = choose|j: int| 0 <= j < cs.len() && #[trigger] cs[j] == fs[t];
        cs.lemma_filter_pred(lift_pred(tree, crate::bfs::dir_pred()), t);
    }
    assert(new_pending.no_duplicates()) by {
        if tree.nodes@[px].listable {
            assert(cs.no_duplicates());
            lemma_usize_filter_no_dup(cs, lift_pred(tree, crate::bfs::dir_pred()));
            let fs = cs.filter(lift_pred(tree, crate::bfs::dir_pred()));
            assert forall|t1: int, t2: int|
                0 <= t1 < t2 < new_pending.len() implies #[trigger] new_pending[t1]
                != #[trigger] new_pending[t2] by {
                assert(fs[t1] != fs[t2]);
            }
        }
    }
}

/// The paths of the directories an expansion discovers are the paths
/// of the directory children it enqueues.
#[verifier::spinoff_prover]
proof fn lemma_expand_paths(tree: Tree, px: int)
    requires
        tree.wf(),
        0 <= px < tree.nodes@.len(),
    ensures
        crate::bfs::paths_of(crate::bfs::dir_children(tree.spec_listing(px))) == node_paths(
            tree,
            dir_child_indices(tree, px),
        ),
{
    let listing = tree.spec_listing(px);
    let cs = tree.nodes@[px].children@;
    lemma_filter_of_listing(tree, cs, crate::bfs::dir_pred());
    if tree.nodes@[px].listable {
        assert(crate::bfs::dir_children(listing) == cs.filter(
            lift_pred(tree, crate::bfs::dir_pred()),
        ).map_values(entry_of(tree)));
        assert(crate::bfs::paths_of(crate::bfs::dir_children(listing)) =~= node_paths(
            tree,
            dir_child_indices(tree, px),
        ));
    } else {
        assert(listing =~= Seq::<DirEntry>::empty());
        assert(crate::bfs::dir_children(listing) =~= Seq::<DirEntry>::empty()) by {
            reveal(Seq::filter);
        }
        assert(crate::bfs::paths_of(crate::bfs::dir_children(listing)) =~= node_paths(
            tree,
            dir_child_indices(tree, px),
        ));
    }
}

/// Expanding a node moves the counting invariant along: each of its
/// children passing the filter enters the staging buffer exactly
/// once, and no other node's count changes.
#[verifier::rlimit(100)]
#[verifier::spinoff_prover]
proof fn lemma_expand_counts(
    tree: Tree,
    options: SearchOptions,
    expanded: Set<int>,
    px: int,
    results: Seq<String>,
)
    requires
        tree.wf(),
        0 <= px < tree.nodes@.len(),
        !expanded.contains(px),
        inv_counts(tree, options, expanded, results, Seq::empty()),
    ensures
        inv_counts(
            tree,
            options,
            expanded.insert(px),
            results,
            crate::bfs::matched_children(options, tree.spec_listing(px)),
        ),
{
    broadcast use vstd::seq_lib::group_to_multiset_ensures;
    broadcast use vstd::multiset::group_multiset_axioms;

    let n = tree.nodes@.len() as int;
    let listing = tree.spec_listing(px);
    let matched = crate::bfs::matched_children(options, listing);
    let expanded2 = expanded.insert(px);
    assert forall|i: int| 1 <= i < n implies path_views(results).to_multiset().count(
        (#[trigger] tree.nodes@[i].path)@,
    ) + matched.to_multiset().count(tree.spec_entry(i)) == count_rhs(tree, options, expanded2, i)
        by {
        crate::bfs::lemma_filter_count(
            listing,
            crate::bfs::match_pred(options),
            tree.spec_entry(i),
        );
        lemma_listing_count(tree, px, i);
        assert(Seq::<DirEntry>::empty().to_multiset().count(tree.spec_entry(i)) == 0) by {
            assert(!Seq::<DirEntry>::empty().contains(tree.spec_entry(i)));
        }
        let pi = tree.nodes@[i].parent as int;
        if pi == px {
            assert(count_rhs(tree, options, expanded, i) == 0);
        } else {
            assert(expanded2.contains(pi) == expanded.contains(pi));
        }
    }
}

/// What an expansion stages for delivery are entries of tree nodes.
#[verifier::spinoff_prover]
proof fn lemma_expand_buffer_entries(tree: Tree, options: SearchOptions, px: int)
    requires
        tree.wf(),
        0 <= px < tree.nodes@.len(),
    ensures
        inv_buffer_entries(tree, crate::bfs::matched_children(options, tree.spec_listing(px))),
{
    let n = tree.nodes@.len() as int;
    let listing = tree.spec_listing(px);
    let cs = tree.nodes@[px].children@;
    let matched = crate::bfs::matched_children(options, listing);
    assert forall|j: int| 0 <= j < matched.len() implies exists|i: int|
        1 <= i < n && #[trigger] matched[j] == tree.spec_entry(i) by {
        crate::bfs::lemma_filter_subset(listing, crate::bfs::match_pred(options), j);
        let jj = choose|jj: int| 0 <= jj < listing.len() && #[trigger] listing[jj] == matched[j];
        assert(tree.nodes@[px].listable);
        assert(listing[jj] == tree.spec_entry(cs[jj] as int));
        assert(1 <= cs[jj] && (cs[jj] as int) < n);
    }
}

/// A node an expansion newly enqueues was never on the frontier nor
/// expanded before, and is not the expanded node itself.
#[verifier::spinoff_prover]
proof fn lemma_expand_fresh(tree: Tree, expanded: Set<int>, pending: Seq<int>)
    requires
        tree.wf(),
        pending.len() > 0,
        inv_pending(tree, expanded, pending),
        inv_expanded(tree, expanded),
    ensures
        ({
            let new_pending = dir_child_indices(tree, pending[0]);
            forall|t: int|
                0 <= t < new_pending.len() ==> #[trigger] new_pending[t] != pending[0]
                    && !expanded.contains(new_pending[t]) && !pending.contains(new_pending[t])
        }),
{
    let px = pending[0];
    let new_pending = dir_child_indices(tree, px);
    lemma_expand_new_pending(tree, px);
    assert forall|t: int| 0 <= t < new_pending.len() implies #[trigger] new_pending[t] != px
        && !expanded.contains(new_pending[t]) && !pending.contains(new_pending[t]) by {
        let c = new_pending[t];
        if c == px {
            assert(tree.nodes@[px].parent == px);
        }
        if pending.contains(c) {
            let jq = choose|jq: int| 0 <= jq < pending.len() && pending[jq] == c;
        }
    }
}

/// After an expansion, the frontier still holds only rightfully
/// discovered, unexpanded nodes, each at most once.
#[verifier::rlimit(100)]
#[verifier::spinoff_prover]
proof fn lemma_expand_pending(tree: Tree, expanded: Set<int>, pending: Seq<int>)
    requires
        tree.wf(),
        pending.len() > 0,
        inv_pending(tree, expanded, pending),
        inv_expanded(tree, expanded),
    ensures
        inv_pending(
            tree,
            expanded.insert(pending[0]),
            pending.drop_first() + dir_child_indices(tree, pending[0]),
        ),
{
    let n = tree.nodes@.len() as int;
    let px = pending[0];
    let new_pending = dir_child_indices(tree, px);
    let expanded2 = expanded.insert(px);
    let pending2 = pending.drop_first() + new_pending;
    lemma_expand_new_pending(tree, px);
    lemma_expand_fresh(tree, expanded, pending);
    lemma_expands_unfold(tree, px);
    assert forall|j: int| 0 <= j < pending2.len() implies 0 <= #[trigger] pending2[j] < n
        && enqueue_ok(tree, pending2[j]) && (pending2[j] == 0 || expanded2.contains(
        tree.nodes@[pending2[j]].parent as int,
    )) && !expanded2.contains(pending2[j]) by {
        let cut = pending.len() - 1;
        if j < cut {
            assert(pending2[j] == pending[j + 1]);
        } else {
            assert(pending2[j] == new_pending[j - cut]);
            let t = j - cut;
            assert(enqueue_ok(tree, new_pending[t])) by {
                assert(expands(tree, px));
            }
        }
    }
    assert forall|j1: int, j2: int|
        0 <= j1 < j2 < pending2.len() implies #[trigger] pending2[j1] != #[trigger] pending2[j2] by {
        let cut = pending.len() - 1;
        if j1 < cut {
            assert(pending2[j1] == pending[j1 + 1]);
        } else {
            assert(pending2[j1] == new_pending[j1 - cut]);
        }
        if j2 < cut {
            assert(pending2[j2] == pending[j2 + 1]);
        } else {
            assert(pending2[j2] == new_pending[j2 - cut]);
        }
        if j1 < cut && j2 >= cut && pending2[j1] == pending2[j2] {
            assert(pending.contains(pending2[j2])) by {
                assert(pending[j1 + 1] == pending2[j1]);
            }
        }
    }
}

/// After an expansion, nothing rightfully discovered has been lost:
/// it is expanded, or it waits on the frontier.
#[verifier::rlimit(100)]
#[verifier::spinoff_prover]
proof fn lemma_expand_complete(tree: Tree, expanded: Set<int>, pending: Seq<int>)
    requires
        tree.wf(),
        pending.len() > 0,
        inv_pending(tree, expanded, pending),
        inv_expanded(tree, expanded),
        inv_complete(tree, expanded, pending),
    ensures
        inv_complete(
            tree,
            expanded.insert(pending[0]),
            pending.drop_first() + dir_child_indices(tree, pending[0]),
        ),
{
    let n = tree.nodes@.len() as int;
    assert(tree.nodes@.len() == tree.nodes.len());
    let px = pending[0];
    let cs = tree.nodes@[px].children@;
    let new_pending = dir_child_indices(tree, px);
    let expanded2 = expanded.insert(px);
    let pending2 = pending.drop_first() + new_pending;
    lemma_expands_unfold(tree, px);
    assert forall|i: int|
        0 <= i < n && #[trigger] enqueue_ok(tree, i) && (i == 0 || expanded2.contains(
            tree.nodes@[i].parent as int,
        )) implies expanded2.contains(i) || pending2.contains(i) by {
        let pi = tree.nodes@[i].parent as int;
        if i != 0 && pi == px && !expanded.contains(px) {
            // a child of the freshly expanded node stands among the
            // newly pending ones
            assert(expands(tree, px));
            assert(tree.nodes@[px].listable);
            assert(cs.contains(i as usize));
            let jc = choose|jc: int| 0 <= jc < cs.len() && cs[jc] == i as usize;
            assert(lift_pred(tree, crate::bfs::dir_pred())(cs[jc]));
            cs.lemma_filter_contains(lift_pred(tree, crate::bfs::dir_pred()), jc);
            let fs = cs.filter(lift_pred(tree, crate::bfs::dir_pred()));
            let jf = choose|jf: int| 0 <= jf < fs.len() && #[trigger] fs[jf] == i as usize;
            assert(new_pending[jf] == i);
            assert(pending2[pending.len() - 1 + jf] == i);
            assert(pending2.contains(i));
        } else {
            assert(i == 0 || expanded.contains(pi) || pi == px);
            if i == 0 || expanded.contains(pi) {
                assert(expanded.contains(i) || pending.contains(i));
                if !expanded.contains(i) && pending.contains(i) {
                    let jq = choose|jq: int| 0 <= jq < pending.len() && pending[jq] == i;
                    if jq == 0 {
                        assert(expanded2.contains(i));
                    } else {
                        assert(pending2[jq - 1] == i);
                        assert(pending2.contains(i));
                    }
                }
            }
        }
    }
}

/// Expanding the front of the frontier removes it, marks it expanded,
/// appends its directory children to the frontier and its matched
/// children to the staging buffer, and preserves every invariant of
/// the traversal.
#[verifier::rlimit(100)]
#[verifier::spinoff_prover]
proof fn lemma_step_expand(
    tree: Tree,
    options: SearchOptions,
    expanded: Set<int>,
    pending: Seq<int>,
    results: Seq<String>,
)
    requires
        tree.wf(),
        pending.len() > 0,
        inv_pending(tree, expanded, pending),
        inv_expanded(tree, expanded),
        inv_complete(tree, expanded, pending),
        inv_counts(tree, options, expanded, results, Seq::empty()),
    ensures
        ({
            let px = pending[0];
            let listing = tree.spec_listing(px);
            let expanded2 = expanded.insert(px);
            let pending2 = pending.drop_first() + dir_child_indices(tree, px);
            &&& inv_pending(tree, expanded2, pending2)
            &&& inv_expanded(tree, expanded2)
            &&& inv_complete(tree, expanded2, pending2)
            &&& inv_counts(
                tree,
                options,
                expanded2,
                results,
                crate::bfs::matched_children(options, listing),
            )
            &&& inv_buffer_entries(tree, crate::bfs::matched_children(options, listing))
            &&& node_paths(tree, pending2) == node_paths(tree, pending).drop_first()
                + crate::bfs::paths_of(crate::bfs::dir_children(listing))
            &&& expanded2.len() == expanded.len() + 1
        }),
{
    let px = pending[0];
    let new_pending = dir_child_indices(tree, px);
    let expanded2 = expanded.insert(px);
    let pending2 = pending.drop_first() + new_pending;

    lemma_expand_pending(tree, expanded, pending);
    lemma_expand_complete(tree, expanded, pending);
    lemma_expand_counts(tree, options, expanded, px, results);
    lemma_expand_buffer_entries(tree, options, px);
    lemma_expand_paths(tree, px);

    assert(node_paths(tree, pending2) =~= node_paths(tree, pending).drop_first() + node_paths(
        tree,
        new_pending,
    ));

    assert(inv_expanded(tree, expanded2)) by {
        assert forall|e: int| #[trigger] expanded2.contains(e) implies 0 <= e < tree.nodes@.len()
            && enqueue_ok(tree, e) && (e == 0 || expanded2.contains(
            tree.nodes@[e].parent as int,
        )) by {
            if e != px {
                assert(expanded.contains(e));
            }
        }
    }

    assert(expanded2.len() == expanded.len() + 1) by {
        assert(!expanded.contains(px));
    }
}

/// Completeness of the traversal, on a static tree: running a whole
/// breadth-first search over a tree that does not change while it is
/// walked delivers the path of every descendant of the root whose
/// every ancestor directory is listable and which itself satisfies
/// the filter predicate — each exactly once — and the path of nothing
/// else.
#[verifier::rlimit(100)]
pub fn search_tree(tree: &Tree, options: SearchOptions) -> (results: Vec<String>)
    requires
        tree.wf(),
    ensures
        forall|i: int|
            1 <= i < tree.nodes@.len() ==> path_views(results@).to_multiset().count(
                (#[trigger] tree.nodes@[i].path)@,
            ) == if matched_node(*tree, options, i) {
                1nat
            } else {
                0nat
            },
        inv_results(*tree, options, results@),
{
    broadcast use vstd::seq_lib::group_to_multiset_ensures;

    let ghost opts = options;
    let ghost n = tree.nodes@.len() as int;
    let root_path = tree.nodes[0].path.clone();
    let mut engine = crate::bfs::bfs_search(root_path, options);
    let mut results: Vec<String> = Vec::new();
    let ghost mut expanded: Set<int> = Set::empty();
    let ghost mut pending: Seq<int> = seq![0int];
    proof {
        assert(engine.frontier() =~= node_paths(*tree, pending));
        assert(pending.contains(0int)) by {
            assert(pending[0] == 0int);
        }
        assert(path_views(results@) =~= Seq::<Seq<char>>::empty());
        assert forall|i: int| 1 <= i < n implies path_views(results@).to_multiset().count(
            (#[trigger] tree.nodes@[i].path)@,
        ) + engine.buffer().to_multiset().count(tree.spec_entry(i)) == count_rhs(
            *tree,
            opts,
            expanded,
            i,
        ) by {
            assert(!path_views(results@).contains(tree.nodes@[i].path@));
            assert(!engine.buffer().contains(tree.spec_entry(i)));
        }
    }
    loop
        invariant
            tree.wf(),
            n == tree.nodes@.len(),
            engine.wf(),
            engine.opts() == opts,
            engine.frontier() == node_paths(*tree, pending),
            inv_pending(*tree, expanded, pending),
            inv_expanded(*tree, expanded),
            inv_complete(*tree, expanded, pending),
            inv_counts(*tree, opts, expanded, results@, engine.buffer()),
            inv_buffer_entries(*tree, engine.buffer()),
            inv_results(*tree, opts, results@),
            expanded.len() <= n,
        ensures
            pending.len() == 0,
            engine.buffer().len() == 0,
            inv_expanded(*tree, expanded),
            inv_complete(*tree, expanded, pending),
            inv_counts(*tree, opts, expanded, results@, engine.buffer()),
            inv_results(*tree, opts, results@),
        decreases n - expanded.len(), pending.len() + engine.buffer().len(),
    {
        let ghost pre_engine = engine;
        let ghost pre_results = results@;
        let step = engine.next_step();
        match step {
            crate::bfs::Step::Matched(p) => {
                proof {
                    lemma_step_matched(
                        *tree,
                        opts,
                        expanded,
                        pre_results,
                        pre_engine.buffer(),
                        p,
                    );
                }
                results.push(p);
            },
            crate::bfs::Step::Expand(dir) => {
                let ghost mid_engine = engine;
                proof {
                    assert(pending.len() > 0) by {
                        assert(node_paths(*tree, pending).len() == pending.len());
                    }
                    assert(dir@ == node_paths(*tree, pending)[0]);
                    assert(dir@ == tree.nodes@[pending[0]].path@);
                }
                let ghost px = pending[0];
                let entries = list_node(tree, &dir);
                proof {
                    assert(entries@ == tree.spec_listing(px)) by {
                        assert((tree.nodes@[px].path)@ == dir@);
                    }
                }
                engine.process_directory(entries);
                proof {
                    let ghost old_pending = pending;
                    assert(pre_engine.buffer() =~= Seq::<DirEntry>::empty());
                    lemma_step_expand(*tree, opts, expanded, pending, results@);
                    expanded = expanded.insert(px);
                    pending = pending.drop_first() + dir_child_indices(*tree, px);
                    assert(engine.buffer() =~= crate::bfs::matched_children(
                        opts,
                        tree.spec_listing(px),
                    )) by {
                        assert(engine.buffer() == mid_engine.buffer()
                            + crate::bfs::matched_children(opts, entries@));
                        assert(mid_engine.buffer() == pre_engine.buffer());
                    }
                    assert(engine.frontier() == node_paths(*tree, pending)) by {
                        assert(mid_engine.frontier() == node_paths(*tree, old_pending).drop_first());
                        assert(engine.frontier() == mid_engine.frontier() + crate::bfs::paths_of(
                            crate::bfs::dir_children(entries@),
                        ));
                    }
                    assert(expanded.len() <= n) by {
                        vstd::set_lib::lemma_int_range(0, n);
                        assert(expanded.subset_of(vstd::set_lib::set_int_range(0, n))) by {
                            assert forall|e: int| expanded.contains(e) implies
                                vstd::set_lib::set_int_range(0, n).contains(e) by {}
                        }
                        vstd::set_lib::lemma_len_subset(
                            expanded,
                            vstd::set_lib::set_int_range(0, n),
                        );
                    }
                }
            },
            crate::bfs::Step::Done => {
                proof {
                    assert(pending.len() == 0) by {
                        assert(node_paths(*tree, pending).len() == pending.len());
                    }
                }
                break ;
            },
        }
    }
    proof {
        assert forall|i: int| 1 <= i < tree.nodes@.len() implies path_views(
            results@,
        ).to_multiset().count((#[trigger] tree.nodes@[i].path)@) == if matched_node(
            *tree,
            options,
            i,
        ) {
            1nat
        } else {
            0nat
        } by {
            assert(engine.buffer().to_multiset().count(tree.spec_entry(i)) == 0) by {
                assert(!engine.buffer().contains(tree.spec_entry(i)));
            }
            let pi = tree.nodes@[i].parent as int;
            assert(0 <= pi < n);
            lemma_expands_unfold(*tree, pi);
            if matched_node(*tree, options, i) {
                assert(forall|k: int|
                    0 <= k < n && #[trigger] enqueue_ok(*tree, k) && (k == 0 || expanded.contains(
                        tree.nodes@[k].parent as int,
                    )) ==> expanded.contains(k));
                lemma_expands_expanded(*tree, expanded, pi);
                assert(count_rhs(*tree, opts, expanded, i) == 1);
            } else {
                assert(count_rhs(*tree, opts, expanded, i) == 0);
            }
        }
        assert(inv_results(*tree, options, results@)) by {
            assert(opts == options);
        }
    }
    results
}

} // verus!
