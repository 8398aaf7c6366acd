//! The filesystem model the agent's operations are verified against.
//!
//! A filesystem is a finite map from nonempty component paths to nodes
//! (regular files with byte contents, or directories), closed under
//! parents: every stored path's parent is a stored directory, with an
//! implicit root directory at the empty path. The agent's operations —
//! read, write, delete, create, move, copy — are implemented over this
//! model and specified by how they transform the map.

use vstd::prelude::*;
use vstd::string::StringExecFns;

use crate::paths::is_prefix_of;
use crate::paths::PathView;

verus! {

/// A stored node: a regular file with its bytes, or a directory.
pub enum FsNode {
    File(Vec<u8>),
    Dir,
}

/// The mathematical value of a node.
pub enum NodeView {
    File(Seq<u8>),
    Dir,
}

/// The value of an exec node.
pub open spec fn node_view(n: FsNode) -> NodeView {
    match n {
        FsNode::File(c) => NodeView::File(c@),
        FsNode::Dir => NodeView::Dir,
    }
}

/// One stored path with its node.
pub struct FsEntry {
    pub path: Vec<String>,
    pub node: FsNode,
}

impl FsEntry {
    /// The entry's path as a component sequence.
    pub open spec fn pathv(self) -> PathView {
        self.path.deep_view()
    }

    /// The entry's node value.
    pub open spec fn nodev(self) -> NodeView {
        node_view(self.node)
    }
}

/// No two entries share a path.
pub open spec fn distinct_paths(s: Seq<FsEntry>) -> bool {
    forall|i: int, j: int| 0 <= i < j < s.len() ==> s[i].pathv() != s[j].pathv()
}

/// Some entry stores path `k`.
pub open spec fn seq_has_path(s: Seq<FsEntry>, k: PathView) -> bool {
    exists|i: int| 0 <= i < s.len() && s[i].pathv() == k
}

/// The map an entry sequence denotes; later entries win, though the
/// sequences used here never repeat a path.
pub open spec fn map_of(s: Seq<FsEntry>) -> Map<PathView, NodeView>
    decreases s.len(),
{
    if s.len() == 0 {
        Map::empty()
    } else {
        map_of(s.drop_last()).insert(s.last().pathv(), s.last().nodev())
    }
}

/// A path is in the denoted map exactly when some entry stores it.
pub proof fn lemma_map_of_dom(s: Seq<FsEntry>)
    ensures
        forall|k: PathView| #[trigger] map_of(s).dom().contains(k) <==> seq_has_path(s, k),
    decreases s.len(),
{
    if s.len() == 0 {
    } else {
        lemma_map_of_dom(s.drop_last());
        assert forall|k: PathView| #[trigger] map_of(s).dom().contains(k) implies seq_has_path(s, k) by {
            if k == s.last().pathv() {
                assert(0 <= s.len() - 1 < s.len() && s[s.len() - 1].pathv() == k);
            } else {
                assert(map_of(s.drop_last()).dom().contains(k));
                assert(seq_has_path(s.drop_last(), k));
                let i = choose|i: int|
                    0 <= i < s.drop_last().len() && s.drop_last()[i].pathv() == k;
                assert(s.drop_last()[i] == s[i]);
                assert(0 <= i < s.len() && s[i].pathv() == k);
            }
        }
        assert forall|k: PathView| seq_has_path(s, k) implies #[trigger] map_of(s).dom().contains(k) by {
            let i = choose|i: int| 0 <= i < s.len() && s[i].pathv() == k;
            if i < s.len() - 1 {
                assert(s.drop_last()[i] == s[i]);
                assert(0 <= i < s.drop_last().len() && s.drop_last()[i].pathv() == k);
                assert(seq_has_path(s.drop_last(), k));
                assert(map_of(s.drop_last()).dom().contains(k));
            } else {
                assert(k == s.last().pathv());
            }
        }
    }
}

/// With distinct paths, each entry's node is what the denoted map holds.
pub proof fn lemma_map_of_get(s: Seq<FsEntry>, i: int)
    requires
        distinct_paths(s),
        0 <= i < s.len(),
    ensures
        map_of(s).dom().contains(s[i].pathv()),
        map_of(s)[s[i].pathv()] == s[i].nodev(),
    decreases s.len(),
{
    if i == s.len() - 1 {
    } else {
        assert(distinct_paths(s.drop_last()));
        assert(s.drop_last()[i] == s[i]);
        lemma_map_of_get(s.drop_last(), i);
        assert(s[i].pathv() != s.last().pathv());
    }
}

/// With distinct paths, the denoted map has as many keys as there are
/// entries.
pub proof fn lemma_map_of_len(s: Seq<FsEntry>)
    requires
        distinct_paths(s),
    ensures
        map_of(s).dom().finite(),
        map_of(s).dom().len() == s.len(),
    decreases s.len(),
{
    if s.len() == 0 {
        assert(map_of(s).dom() =~= Set::<PathView>::empty());
    } else {
        assert(distinct_paths(s.drop_last()));
        lemma_map_of_len(s.drop_last());
        lemma_map_of_dom(s.drop_last());
        assert(!seq_has_path(s.drop_last(), s.last().pathv()));
        assert(map_of(s).dom() =~= map_of(s.drop_last()).dom().insert(s.last().pathv()));
    }
}

/// The node at a path, with the implicit root directory at the empty
/// path.
pub open spec fn lookup(m: Map<PathView, NodeView>, p: PathView) -> Option<NodeView> {
    if p.len() == 0 {
        Some(NodeView::Dir)
    } else if m.dom().contains(p) {
        Some(m[p])
    } else {
        None
    }
}

/// The parent-closure invariant: every stored path is nonempty, and its
/// parent is the root or a stored directory.
pub open spec fn map_closed(m: Map<PathView, NodeView>) -> bool {
    forall|k: PathView| #[trigger] m.dom().contains(k) ==> k.len() >= 1 && lookup(m, k.drop_last()) == Some(NodeView::Dir)
}

/// Under a closed map, every proper nonempty prefix of a stored path is a
/// stored directory.
pub proof fn lemma_closed_ancestors(m: Map<PathView, NodeView>, k: PathView, l: int)
    requires
        map_closed(m),
        m.dom().contains(k),
        1 <= l <= k.len(),
    ensures
        lookup(m, k.take(l)) == Some(NodeView::Dir) || (l == k.len() && m.dom().contains(k)),
        m.dom().contains(k.take(l)),
    decreases k.len() - l,
{
    if l == k.len() {
        assert(k.take(l) =~= k);
    } else {
        lemma_closed_ancestors(m, k, l + 1);
        let kk = k.take(l + 1);
        assert(m.dom().contains(kk));
        assert(lookup(m, kk.drop_last()) == Some(NodeView::Dir));
        assert(kk.drop_last() =~= k.take(l));
    }
}

/// The modelled filesystem: a well-formed collection of entries.
pub struct FsState {
    entries: Vec<FsEntry>,
}

impl FsState {
    /// The stored entries, in traversal order.
    pub closed spec fn entries_view(self) -> Seq<FsEntry> {
        self.entries@
    }

    /// The map the filesystem denotes.
    pub open spec fn as_map(self) -> Map<PathView, NodeView> {
        map_of(self.entries_view())
    }

    /// Well-formedness: distinct paths, and parent closure of the map.
    pub open spec fn wf(self) -> bool {
        &&& distinct_paths(self.entries_view())
        &&& map_closed(self.as_map())
    }

    /// An empty filesystem: only the implicit root directory.
    pub fn empty() -> (r: FsState)
        ensures
            r.wf(),
            r.as_map() == Map::<PathView, NodeView>::empty(),
    {
        FsState { entries: Vec::new() }
    }

    /// The index of the entry storing `path`, if any.
    fn find_idx(&self, path: &Vec<String>) -> (r: Option<usize>)
        ensures
            match r {
                Some(i) => i < self.entries@.len() && self.entries@[i as int].pathv() == path.deep_view(),
                None => !seq_has_path(self.entries@, path.deep_view()),
            },
    {
        let mut i: usize = 0;
        while i < self.entries.len()
            invariant
                i <= self.entries@.len(),
                forall|j: int| 0 <= j < i ==> self.entries@[j].pathv() != path.deep_view(),
            decreases self.entries@.len() - i,
        {
            if crate::paths::path_eq(&self.entries[i].path, path) {
                return Some(i);
            }
            i += 1;
        }
        None
    }

}

/// The reasons an operation on the model can fail; each carries a fixed
/// human-readable message.
#[derive(Clone, Copy, Debug, PartialEq, Eq, Structural)]
pub enum FsError {
    NotFound,
    SourceNotFound,
    IsADirectory,
    NotADirectory,
    NotUtf8,
    Conflict,
}

impl FsError {
    /// The message reported for this failure.
    pub open spec fn message_view(self) -> Seq<char> {
        match self {
            FsError::NotFound => "Path does not exist"@,
            FsError::SourceNotFound => "Source file does not exist"@,
            FsError::IsADirectory => "Is a directory"@,
            FsError::NotADirectory => "Not a directory"@,
            FsError::NotUtf8 => "stream did not contain valid UTF-8"@,
            FsError::Conflict => "Destination conflicts with an existing entry"@,
        }
    }

    /// Renders the message.
    pub fn message(&self) -> (r: String)
        ensures
            r@ == self.message_view(),
    {
        match self {
            FsError::NotFound => String::from_str("Path does not exist"),
            FsError::SourceNotFound => String::from_str("Source file does not exist"),
            FsError::IsADirectory => String::from_str("Is a directory"),
            FsError::NotADirectory => String::from_str("Not a directory"),
            FsError::NotUtf8 => String::from_str("stream did not contain valid UTF-8"),
            FsError::Conflict => String::from_str("Destination conflicts with an existing entry"),
        }
    }
}

/// The byte contents stored at `p`, if `p` is a regular file.
pub open spec fn read_view(m: Map<PathView, NodeView>, p: PathView) -> Option<Seq<u8>> {
    match lookup(m, p) {
        Some(NodeView::File(c)) => Some(c),
        _ => None,
    }
}

/// The map without every path at or under `pre`.
pub open spec fn prune_map(m: Map<PathView, NodeView>, pre: PathView) -> Map<PathView, NodeView> {
    Map::new(|k: PathView| m.dom().contains(k) && !is_prefix_of(pre, k), |k: PathView| m[k])
}

/// The part of the map at or under `pre`.
pub open spec fn restrict_map(m: Map<PathView, NodeView>, pre: PathView) -> Map<
    PathView,
    NodeView,
> {
    Map::new(|k: PathView| m.dom().contains(k) && is_prefix_of(pre, k), |k: PathView| m[k])
}

/// `p` is stored as a regular file.
pub open spec fn is_file_at(m: Map<PathView, NodeView>, k: PathView) -> bool {
    m.dom().contains(k) && m[k] is File
}

/// No nonempty prefix of `p` is stored as a regular file, so the whole
/// directory chain down to `p` can be created.
pub open spec fn dirs_creatable(m: Map<PathView, NodeView>, p: PathView) -> bool {
    forall|l: int| 1 <= l <= p.len() ==> !is_file_at(m, p.take(l))
}

/// The map with every missing nonempty prefix of `p` added as a
/// directory; existing nodes are kept as they are.
pub open spec fn with_dirs(m: Map<PathView, NodeView>, p: PathView) -> Map<PathView, NodeView> {
    Map::new(
        |k: PathView| m.dom().contains(k) || (k.len() >= 1 && is_prefix_of(k, p)),
        |k: PathView| if m.dom().contains(k) { m[k] } else { NodeView::Dir },
    )
}

/// Two sequences with equal path and node values denote the same map.
proof fn lemma_map_of_congruence(s1: Seq<FsEntry>, s2: Seq<FsEntry>)
    requires
        s1.len() == s2.len(),
        forall|t: int| 0 <= t < s1.len() ==> s2[t].pathv() == s1[t].pathv() && s2[t].nodev() == s1[t].nodev(),
    ensures
        map_of(s1) == map_of(s2),
    decreases s1.len(),
{
    if s1.len() == 0 {
    } else {
        assert(forall|t: int| 0 <= t < s1.len() - 1 ==> s1.drop_last()[t] == s1[t]);
        assert(forall|t: int| 0 <= t < s2.len() - 1 ==> s2.drop_last()[t] == s2[t]);
        lemma_map_of_congruence(s1.drop_last(), s2.drop_last());
        assert(s2[s1.len() - 1].pathv() == s1[s1.len() - 1].pathv());
        assert(map_of(s1) =~= map_of(s2));
    }
}

/// Replacing the node stored at one path denotes an insert over the
/// original map.
proof fn lemma_map_of_replace(s1: Seq<FsEntry>, s2: Seq<FsEntry>, i: int)
    requires
        distinct_paths(s1),
        s1.len() == s2.len(),
        0 <= i < s1.len(),
        forall|t: int| 0 <= t < s1.len() && t != i ==> s2[t].pathv() == s1[t].pathv() && s2[t].nodev() == s1[t].nodev(),
        s2[i].pathv() == s1[i].pathv(),
    ensures
        map_of(s2) == map_of(s1).insert(s2[i].pathv(), s2[i].nodev()),
        distinct_paths(s2),
    decreases s1.len(),
{
    assert forall|a: int, b: int| 0 <= a < b < s2.len() implies s2[a].pathv() != s2[b].pathv() by {
        assert(s2[a].pathv() == s1[a].pathv());
        assert(s2[b].pathv() == s1[b].pathv());
    }
    assert(forall|t: int| 0 <= t < s1.len() - 1 ==> s1.drop_last()[t] == s1[t]);
    assert(forall|t: int| 0 <= t < s2.len() - 1 ==> s2.drop_last()[t] == s2[t]);
    if i == s1.len() - 1 {
        lemma_map_of_congruence(s1.drop_last(), s2.drop_last());
        assert(map_of(s2) =~= map_of(s1).insert(s2[i].pathv(), s2[i].nodev()));
    } else {
        assert(distinct_paths(s1.drop_last()));
        lemma_map_of_replace(s1.drop_last(), s2.drop_last(), i);
        assert(s1[i].pathv() != s1[s1.len() - 1].pathv());
        assert(map_of(s2) =~= map_of(s1).insert(s2[i].pathv(), s2[i].nodev()));
    }
}

/// Inserting a file whose parent is a directory, over a spot that is not
/// a directory, keeps the map closed.
proof fn lemma_insert_file_closed(m: Map<PathView, NodeView>, p: PathView, c: Seq<u8>)
    requires
        map_closed(m),
        p.len() >= 1,
        lookup(m, p.drop_last()) == Some(NodeView::Dir),
        lookup(m, p) != Some(NodeView::Dir),
    ensures
        map_closed(m.insert(p, NodeView::File(c))),
{
    let m2 = m.insert(p, NodeView::File(c));
    assert forall|k: PathView| #[trigger] m2.dom().contains(k) implies k.len() >= 1 && lookup(
        m2,
        k.drop_last(),
    ) == Some(NodeView::Dir) by {
        if k == p {
            assert(p.drop_last().len() < p.len());
            assert(lookup(m2, p.drop_last()) == lookup(m, p.drop_last()));
        } else {
            assert(m.dom().contains(k));
            assert(lookup(m, k.drop_last()) == Some(NodeView::Dir));
            if k.drop_last() == p {
                assert(lookup(m, p) == Some(NodeView::Dir));
                assert(false);
            } else {
                assert(lookup(m2, k.drop_last()) == lookup(m, k.drop_last()));
            }
        }
    }
}

/// Removing a whole subtree keeps the map closed.
proof fn lemma_prune_closed(m: Map<PathView, NodeView>, pre: PathView)
    requires
        map_closed(m),
    ensures
        map_closed(prune_map(m, pre)),
{
    let pm = prune_map(m, pre);
    assert forall|k: PathView| #[trigger] pm.dom().contains(k) implies k.len() >= 1 && lookup(
        pm,
        k.drop_last(),
    ) == Some(NodeView::Dir) by {
        assert(m.dom().contains(k) && !is_prefix_of(pre, k));
        assert(lookup(m, k.drop_last()) == Some(NodeView::Dir));
        if k.drop_last().len() == 0 {
        } else {
            if is_prefix_of(pre, k.drop_last()) {
                crate::paths::lemma_parent_is_prefix(k);
                crate::paths::lemma_prefix_transitive(pre, k.drop_last(), k);
                assert(false);
            }
            assert(pm.dom().contains(k.drop_last()));
        }
    }
}

fn clone_node(n: &FsNode) -> (r: FsNode)
    ensures
        node_view(r) == node_view(*n),
{
    match n {
        FsNode::File(c) => FsNode::File(clone_bytes(c)),
        FsNode::Dir => FsNode::Dir,
    }
}

fn clone_entry(e: &FsEntry) -> (r: FsEntry)
    ensures
        r.pathv() == e.pathv(),
        r.nodev() == e.nodev(),
{
    FsEntry { path: crate::paths::clone_path(&e.path), node: clone_node(&e.node) }
}

impl FsState {
    /// Stores `node` at `path`, replacing whatever was there.
    fn upsert(&mut self, path: &Vec<String>, node: &FsNode)
        requires
            distinct_paths(old(self).entries_view()),
        ensures
            distinct_paths(final(self).entries_view()),
            final(self).as_map() == old(self).as_map().insert(path.deep_view(), node_view(*node)),
    {
        let ghost s = self.entries@;
        match self.find_idx(path) {
            Some(i) => {
                let mut out: Vec<FsEntry> = Vec::new();
                let mut j: usize = 0;
                while j < self.entries.len()
                    invariant
                        self.entries@ == s,
                        i < s.len(),
                        j <= s.len(),
                        out@.len() == j,
                        forall|t: int| 0 <= t < j && t != i ==> (#[trigger] out@[t]).pathv() == s[t].pathv() && out@[t].nodev() == s[t].nodev(),
                        i < j ==> out@[i as int].pathv() == path.deep_view() && out@[i as int].nodev() == node_view(*node),
                        s[i as int].pathv() == path.deep_view(),
                    decreases s.len() - j,
                {
                    let ghost outprev = out@;
                    if j == i {
                        out.push(FsEntry { path: crate::paths::clone_path(path), node: clone_node(node) });
                    } else {
                        out.push(clone_entry(&self.entries[j]));
                    }
                    proof {
                        assert(out@.drop_last() =~= outprev);
                        assert(forall|t: int| 0 <= t < j ==> out@[t] == outprev[t]);
                        assert(out@[j as int] == out@.last());
                    }
                    j += 1;
                }
                proof {
                    lemma_map_of_replace(s, out@, i as int);
                }
                self.entries = out;
            },
            None => {
                proof {
                    lemma_map_of_dom(s);
                }
                let ghost prev = self.entries@;
                self.entries.push(FsEntry { path: crate::paths::clone_path(path), node: clone_node(node) });
                proof {
                    assert(self.entries@.drop_last() =~= prev);
                    assert(self.entries@.last().pathv() == path.deep_view());
                    assert forall|a: int, b: int| 0 <= a < b < self.entries@.len() implies self.entries@[a].pathv() != self.entries@[b].pathv() by {
                        if b == self.entries@.len() - 1 {
                            assert(self.entries@[a] == prev[a]);
                            assert(seq_has_path(prev, prev[a].pathv()));
                        } else {
                            assert(self.entries@[a] == prev[a]);
                            assert(self.entries@[b] == prev[b]);
                        }
                    }
                }
            },
        }
    }

    /// Removes every entry at or under `pre`.
    fn remove_under(&mut self, pre: &Vec<String>)
        requires
            distinct_paths(old(self).entries_view()),
        ensures
            distinct_paths(final(self).entries_view()),
            final(self).as_map() == prune_map(old(self).as_map(), pre.deep_view()),
    {
        let ghost s = self.entries@;
        let ghost prev = pre.deep_view();
        let mut out: Vec<FsEntry> = Vec::new();
        let mut j: usize = 0;
        proof {
            assert(s.take(0) =~= Seq::<FsEntry>::empty());
            assert(map_of(out@) =~= prune_map(map_of(s.take(0)), prev));
        }
        while j < self.entries.len()
            invariant
                self.entries@ == s,
                distinct_paths(s),
                prev == pre.deep_view(),
                j <= s.len(),
                distinct_paths(out@),
                map_of(out@) == prune_map(map_of(s.take(j as int)), prev),
                forall|t: int| 0 <= t < out@.len() ==> map_of(s.take(j as int)).dom().contains(
                    #[trigger] out@[t].pathv(),
                ),
            decreases s.len() - j,
        {
            proof {
                assert(s.take(j + 1).drop_last() =~= s.take(j as int));
                assert(s.take(j + 1).last() == s[j as int]);
                lemma_map_of_dom(s.take(j as int));
                if seq_has_path(s.take(j as int), s[j as int].pathv()) {
                    let t = choose|t: int|
                        0 <= t < j && s.take(j as int)[t].pathv() == s[j as int].pathv();
                    assert(s[t].pathv() == s[j as int].pathv());
                    assert(false);
                }
            }
            let keep = !crate::paths::path_is_prefix(pre, &self.entries[j].path);
            if keep {
                let ghost outprev = out@;
                out.push(clone_entry(&self.entries[j]));
                proof {
                    assert(out@.drop_last() =~= outprev);
                    assert(out@.last().pathv() == s[j as int].pathv());
                    assert(out@.last().nodev() == s[j as int].nodev());
                    assert forall|a: int, b: int| 0 <= a < b < out@.len() implies out@[a].pathv() != out@[b].pathv() by {
                        if b == out@.len() - 1 {
                            assert(out@[a] == outprev[a]);
                            assert(map_of(s.take(j as int)).dom().contains(outprev[a].pathv()));
                        } else {
                            assert(out@[a] == outprev[a]);
                            assert(out@[b] == outprev[b]);
                        }
                    }
                    assert(map_of(out@) =~= prune_map(map_of(s.take(j + 1)), prev));
                    assert forall|t: int| 0 <= t < out@.len() implies map_of(s.take(j + 1)).dom().contains(
                        #[trigger] out@[t].pathv(),
                    ) by {
                        if t < out@.len() - 1 {
                            assert(out@[t] == outprev[t]);
                            assert(map_of(s.take(j as int)).dom().contains(outprev[t].pathv()));
                        }
                    }
                }
            } else {
                proof {
                    assert(is_prefix_of(prev, s[j as int].pathv()));
                    assert(map_of(out@) =~= prune_map(map_of(s.take(j + 1)), prev));
                    assert forall|t: int| 0 <= t < out@.len() implies map_of(s.take(j + 1)).dom().contains(
                        #[trigger] out@[t].pathv(),
                    ) by {
                        assert(map_of(s.take(j as int)).dom().contains(out@[t].pathv()));
                    }
                }
            }
            j += 1;
        }
        proof {
            assert(s.take(s.len() as int) =~= s);
        }
        self.entries = out;
    }

    /// Reads the raw bytes of the regular file at `path`.
    pub fn read_bytes(&self, path: &Vec<String>) -> (r: Result<Vec<u8>, FsError>)
        requires
            self.wf(),
        ensures
            r matches Ok(c) ==> read_view(self.as_map(), path.deep_view()) == Some(c@),
            read_view(self.as_map(), path.deep_view()) is Some ==> r is Ok,
            r matches Err(e) ==> (if lookup(self.as_map(), path.deep_view()) is None {
                e == FsError::NotFound
            } else {
                e == FsError::IsADirectory
            }),
    {
        if path.len() == 0 {
            return Err(FsError::IsADirectory);
        }
        match self.find_idx(path) {
            Some(i) => {
                proof {
                    lemma_map_of_get(self.entries@, i as int);
                }
                match &self.entries[i].node {
                    FsNode::File(c) => Ok(clone_bytes(c)),
                    FsNode::Dir => Err(FsError::IsADirectory),
                }
            },
            None => {
                proof {
                    lemma_map_of_dom(self.entries@);
                }
                Err(FsError::NotFound)
            },
        }
    }

    /// Reads the file at `path` as UTF-8 text.
    pub fn read_text(&self, path: &Vec<String>) -> (r: Result<String, FsError>)
        requires
            self.wf(),
        ensures
            r matches Ok(s) ==> (read_view(self.as_map(), path.deep_view()) matches Some(c)
                && vstd::utf8::valid_utf8(c) && s@ == vstd::utf8::decode_utf8(c)),
            (read_view(self.as_map(), path.deep_view()) matches Some(c) && vstd::utf8::valid_utf8(
                c,
            )) ==> r is Ok,
            r matches Err(e) ==> (if lookup(self.as_map(), path.deep_view()) is None {
                e == FsError::NotFound
            } else if lookup(self.as_map(), path.deep_view()) == Some(NodeView::Dir) {
                e == FsError::IsADirectory
            } else {
                e == FsError::NotUtf8
            }),
    {
        match self.read_bytes(path) {
            Ok(c) => match crate::codec::bytes_to_utf8(c) {
                Some(s) => Ok(s),
                None => Err(FsError::NotUtf8),
            },
            Err(e) => Err(e),
        }
    }

    /// Overwrites (or creates) the regular file at `path` with `content`;
    /// the parent must already be a directory.
    pub fn write_bytes(&mut self, path: &Vec<String>, content: Vec<u8>) -> (r: Result<
        (),
        FsError,
    >)
        requires
            old(self).wf(),
        ensures
            final(self).wf(),
            r is Ok <==> write_allowed(old(self).as_map(), path.deep_view()),
            r is Ok ==> final(self).as_map() == old(self).as_map().insert(
                path.deep_view(),
                NodeView::File(content@),
            ),
            r is Err ==> *final(self) == *old(self),
            r matches Err(e) ==> ({
                let p = path.deep_view();
                let m = old(self).as_map();
                if p.len() == 0 {
                    e == FsError::IsADirectory
                } else if lookup(m, p.drop_last()) is None {
                    e == FsError::NotFound
                } else if lookup(m, p.drop_last()) != Some(NodeView::Dir) {
                    e == FsError::NotADirectory
                } else {
                    e == FsError::IsADirectory
                }
            }),
    {
        let ghost m = self.as_map();
        let ghost p = path.deep_view();
        if path.len() == 0 {
            return Err(FsError::IsADirectory);
        }
        if path.len() >= 2 {
            let par = crate::paths::parent_of(path);
            match self.find_idx(&par) {
                None => {
                    proof {
                        lemma_map_of_dom(self.entries@);
                    }
                    return Err(FsError::NotFound);
                },
                Some(i) => {
                    proof {
                        lemma_map_of_get(self.entries@, i as int);
                    }
                    match &self.entries[i].node {
                        FsNode::File(_) => {
                            return Err(FsError::NotADirectory);
                        },
                        FsNode::Dir => {},
                    }
                },
            }
        } else {
            proof {
                assert(p.drop_last().len() == 0);
            }
        }
        assert(lookup(m, p.drop_last()) == Some(NodeView::Dir));
        match self.find_idx(path) {
            Some(i) => {
                proof {
                    lemma_map_of_get(self.entries@, i as int);
                }
                match &self.entries[i].node {
                    FsNode::Dir => {
                        return Err(FsError::IsADirectory);
                    },
                    FsNode::File(_) => {},
                }
            },
            None => {
                proof {
                    lemma_map_of_dom(self.entries@);
                }
            },
        }
        assert(lookup(m, p) != Some(NodeView::Dir));
        let ghost cv = content@;
        let node = FsNode::File(content);
        self.upsert(path, &node);
        proof {
            lemma_insert_file_closed(m, p, cv);
        }
        Ok(())
    }

    /// Removes the file at `path`, or the directory at `path` together
    /// with everything under it.
    pub fn delete_path(&mut self, path: &Vec<String>) -> (r: Result<(), FsError>)
        requires
            old(self).wf(),
        ensures
            final(self).wf(),
            r is Ok <==> old(self).as_map().dom().contains(path.deep_view()),
            r is Ok ==> final(self).as_map() == prune_map(old(self).as_map(), path.deep_view()),
            r is Err ==> *final(self) == *old(self),
            r matches Err(e) ==> e == FsError::NotFound,
    {
        match self.find_idx(path) {
            Some(_) => {
                proof {
                    lemma_map_of_dom(self.entries@);
                    lemma_prune_closed(self.as_map(), path.deep_view());
                }
                self.remove_under(path);
                Ok(())
            },
            None => {
                proof {
                    lemma_map_of_dom(self.entries@);
                }
                Err(FsError::NotFound)
            },
        }
    }
}

/// Creating the whole directory chain keeps the map closed, provided no
/// prefix is a regular file.
proof fn lemma_with_dirs_closed(m: Map<PathView, NodeView>, p: PathView)
    requires
        map_closed(m),
        dirs_creatable(m, p),
    ensures
        map_closed(with_dirs(m, p)),
{
    let wd = with_dirs(m, p);
    assert forall|k: PathView| #[trigger] wd.dom().contains(k) implies k.len() >= 1 && lookup(
        wd,
        k.drop_last(),
    ) == Some(NodeView::Dir) by {
        if m.dom().contains(k) {
            assert(lookup(m, k.drop_last()) == Some(NodeView::Dir));
            if k.drop_last().len() > 0 {
                assert(m.dom().contains(k.drop_last()));
                assert(wd[k.drop_last()] == m[k.drop_last()]);
            }
        } else {
            let kl = k.len() as int;
            assert(p.take(kl) == k);
            if kl >= 2 {
                let par = k.drop_last();
                assert(par =~= p.take(kl - 1));
                assert(is_prefix_of(par, p));
                assert(wd.dom().contains(par));
                if m.dom().contains(par) {
                    assert(!is_file_at(m, p.take(kl - 1)));
                    assert(wd[par] == m[par]);
                    assert(m[par] is Dir);
                } else {
                    assert(wd[par] == NodeView::Dir);
                }
            } else {
                assert(k.drop_last().len() == 0);
            }
        }
    }
}

/// Every nonempty prefix of a creatable chain is a directory once the
/// chain is created.
pub proof fn lemma_create_dir_makes_ancestors(m: Map<PathView, NodeView>, p: PathView, l: int)
    requires
        dirs_creatable(m, p),
        1 <= l <= p.len(),
    ensures
        lookup(with_dirs(m, p), p.take(l)) == Some(NodeView::Dir),
{
    let q = p.take(l);
    assert(is_prefix_of(q, p));
    assert(with_dirs(m, p).dom().contains(q));
    if m.dom().contains(q) {
        assert(!is_file_at(m, q));
        assert(m[q] is Dir);
    }
}

impl FsState {
    /// Whether the first `upto` components of `p` can all become
    /// directories: none of those prefixes is a regular file.
    #[verifier::rlimit(50)]
    fn creatable_upto(&self, p: &Vec<String>, upto: usize) -> (r: bool)
        requires
            self.wf(),
            upto <= p@.len(),
        ensures
            r == dirs_creatable(self.as_map(), p.deep_view().take(upto as int)),
    {
        let ghost m = self.as_map();
        let ghost pv = p.deep_view();
        let mut prefix: Vec<String> = Vec::new();
        let mut l: usize = 0;
        while l < upto
            invariant
                self.wf(),
                m == self.as_map(),
                pv == p.deep_view(),
                upto <= p@.len(),
                l <= upto,
                prefix.deep_view() == pv.take(l as int),
                forall|t: int| 1 <= t <= l ==> !is_file_at(m, pv.take(t)),
            decreases upto - l,
        {
            let ghost prevdv = prefix.deep_view();
            prefix.push(p[l].clone());
            proof {
                assert(prefix.deep_view() =~= prevdv.push(pv[l as int]));
                assert(prefix.deep_view() =~= pv.take(l + 1));
            }
            match self.find_idx(&prefix) {
                Some(i) => {
                    proof {
                        lemma_map_of_get(self.entries@, i as int);
                    }
                    match &self.entries[i].node {
                        FsNode::File(_) => {
                            proof {
                                assert(is_file_at(m, pv.take(l + 1)));
                                assert(pv.take(upto as int).take(l + 1) =~= pv.take(l + 1));
                            }
                            return false;
                        },
                        FsNode::Dir => {},
                    }
                },
                None => {
                    proof {
                        lemma_map_of_dom(self.entries@);
                    }
                },
            }
            proof {
                assert(!is_file_at(m, pv.take(l + 1)));
            }
            l += 1;
        }
        proof {
            assert forall|t: int| 1 <= t <= pv.take(upto as int).len() implies !is_file_at(
                m,
                pv.take(upto as int).take(t),
            ) by {
                assert(pv.take(upto as int).take(t) =~= pv.take(t));
            }
        }
        true
    }

    /// Adds every missing prefix of the first `upto` components of `p` as
    /// a directory.
    fn make_dirs(&mut self, p: &Vec<String>, upto: usize)
        requires
            distinct_paths(old(self).entries_view()),
            upto <= p@.len(),
        ensures
            distinct_paths(final(self).entries_view()),
            final(self).as_map() == with_dirs(old(self).as_map(), p.deep_view().take(upto as int)),
    {
        let ghost m0 = self.as_map();
        let ghost pv = p.deep_view();
        let mut prefix: Vec<String> = Vec::new();
        let mut l: usize = 0;
        proof {
            assert(self.as_map() =~= with_dirs(m0, pv.take(0)));
        }
        while l < upto
            invariant
                distinct_paths(self.entries@),
                self.as_map() == with_dirs(m0, pv.take(l as int)),
                pv == p.deep_view(),
                upto <= p@.len(),
                l <= upto,
                prefix.deep_view() == pv.take(l as int),
            decreases upto - l,
        {
            let ghost prevdv = prefix.deep_view();
            prefix.push(p[l].clone());
            proof {
                assert(prefix.deep_view() =~= prevdv.push(pv[l as int]));
                assert(prefix.deep_view() =~= pv.take(l + 1));
            }
            let ghost mcur = self.as_map();
            match self.find_idx(&prefix) {
                Some(i) => {
                    proof {
                        lemma_map_of_get(self.entries@, i as int);
                        assert(mcur.dom().contains(pv.take(l + 1)));
                        assert forall|k: PathView|
                            #![trigger with_dirs(m0, pv.take(l + 1)).dom().contains(k)]
                            with_dirs(m0, pv.take(l + 1)).dom().contains(k) <==> with_dirs(
                                m0,
                                pv.take(l as int),
                            ).dom().contains(k) by {
                            crate::paths::lemma_prefix_step(k, pv, l as int);
                            if k == pv.take(l + 1) && !m0.dom().contains(k) {
                                assert(with_dirs(m0, pv.take(l as int)).dom().contains(k));
                                assert(false);
                            }
                        }
                        assert(with_dirs(m0, pv.take(l + 1)) =~= with_dirs(m0, pv.take(l as int)));
                    }
                },
                None => {
                    proof {
                        lemma_map_of_dom(self.entries@);
                    }
                    let node = FsNode::Dir;
                    self.upsert(&prefix, &node);
                    proof {
                        assert forall|k: PathView|
                            #![trigger with_dirs(m0, pv.take(l + 1)).dom().contains(k)]
                            with_dirs(m0, pv.take(l + 1)).dom().contains(k) <==> mcur.insert(
                                pv.take(l + 1),
                                NodeView::Dir,
                            ).dom().contains(k) by {
                            crate::paths::lemma_prefix_step(k, pv, l as int);
                        }
                        assert(!mcur.dom().contains(pv.take(l + 1)));
                        assert(!m0.dom().contains(pv.take(l + 1)));
                        assert(self.as_map() =~= with_dirs(m0, pv.take(l + 1)));
                    }
                },
            }
            l += 1;
        }
    }

    /// Creates a directory (with all missing ancestors), or an empty
    /// regular file (creating missing ancestors first, and truncating an
    /// existing file).
    pub fn create_path(&mut self, path: &Vec<String>, is_directory: bool) -> (r: Result<
        (),
        FsError,
    >)
        requires
            old(self).wf(),
        ensures
            final(self).wf(),
            is_directory ==> (r is Ok <==> create_dir_allowed(
                old(self).as_map(),
                path.deep_view(),
            )),
            !is_directory ==> (r is Ok <==> create_file_allowed(
                old(self).as_map(),
                path.deep_view(),
            )),
            r is Ok && is_directory ==> final(self).as_map() == with_dirs(
                old(self).as_map(),
                path.deep_view(),
            ),
            r is Ok && !is_directory ==> final(self).as_map() == with_dirs(
                old(self).as_map(),
                path.deep_view().drop_last(),
            ).insert(path.deep_view(), NodeView::File(Seq::empty())),
            r is Err ==> *final(self) == *old(self),
            r matches Err(e) ==> ({
                let p = path.deep_view();
                let m = old(self).as_map();
                if p.len() == 0 {
                    e == FsError::NotFound
                } else if is_directory {
                    e == FsError::NotADirectory
                } else if !dirs_creatable(m, p.drop_last()) {
                    e == FsError::NotADirectory
                } else {
                    e == FsError::IsADirectory
                }
            }),
    {
        let ghost m = self.as_map();
        let ghost p = path.deep_view();
        if path.len() == 0 {
            return Err(FsError::NotFound);
        }
        if is_directory {
            if !self.creatable_upto(path, path.len()) {
                proof {
                    assert(p.take(p.len() as int) =~= p);
                }
                return Err(FsError::NotADirectory);
            }
            proof {
                assert(p.take(p.len() as int) =~= p);
                lemma_with_dirs_closed(m, p);
            }
            self.make_dirs(path, path.len());
            proof {
                assert(p.take(p.len() as int) =~= p);
            }
            Ok(())
        } else {
            if !self.creatable_upto(path, path.len() - 1) {
                proof {
                    assert(p.take(p.len() - 1) =~= p.drop_last());
                }
                return Err(FsError::NotADirectory);
            }
            match self.find_idx(path) {
                Some(i) => {
                    proof {
                        lemma_map_of_get(self.entries@, i as int);
                    }
                    match &self.entries[i].node {
                        FsNode::Dir => {
                            proof {
                                assert(p.take(p.len() - 1) =~= p.drop_last());
                            }
                            return Err(FsError::IsADirectory);
                        },
                        FsNode::File(_) => {},
                    }
                },
                None => {
                    proof {
                        lemma_map_of_dom(self.entries@);
                    }
                },
            }
            proof {
                assert(p.take(p.len() - 1) =~= p.drop_last());
                lemma_with_dirs_closed(m, p.drop_last());
            }
            self.make_dirs(path, path.len() - 1);
            let ghost wd = with_dirs(m, p.drop_last());
            proof {
                if p.len() >= 2 {
                    assert(p.drop_last().take(p.drop_last().len() as int) =~= p.drop_last());
                    assert(is_prefix_of(p.drop_last(), p.drop_last()));
                    assert(wd.dom().contains(p.drop_last()));
                    if m.dom().contains(p.drop_last()) {
                        assert(!is_file_at(m, p.drop_last()));
                        assert(wd[p.drop_last()] == m[p.drop_last()]);
                        assert(m[p.drop_last()] is Dir);
                    }
                    assert(lookup(wd, p.drop_last()) == Some(NodeView::Dir));
                } else {
                    assert(p.drop_last().len() == 0);
                }
                assert(lookup(wd, p) != Some(NodeView::Dir));
                lemma_insert_file_closed(wd, p, Seq::empty());
            }
            let node = FsNode::File(Vec::new());
            self.upsert(path, &node);
            proof {
                assert(node_view(node) == NodeView::File(Seq::<u8>::empty()));
            }
            Ok(())
        }
    }
}

/// The create operation's success condition for a directory: a real path
/// none of whose prefixes is a regular file.
pub open spec fn create_dir_allowed(m: Map<PathView, NodeView>, p: PathView) -> bool {
    p.len() >= 1 && dirs_creatable(m, p)
}

/// The create operation's success condition for a file: a real path with
/// a creatable ancestor chain that is not itself a directory.
pub open spec fn create_file_allowed(m: Map<PathView, NodeView>, p: PathView) -> bool {
    p.len() >= 1 && dirs_creatable(m, p.drop_last()) && lookup(m, p) != Some(NodeView::Dir)
}

/// The map with a copy of `sub` (a set of `src`-prefixed entries) placed
/// under `dst`: every `src + rest` of `sub` appears as `dst + rest`,
/// overwriting what `base` held there; everything else is `base`.
pub open spec fn graft_map(
    base: Map<PathView, NodeView>,
    sub: Map<PathView, NodeView>,
    src: PathView,
    dst: PathView,
) -> Map<PathView, NodeView> {
    Map::new(
        |k: PathView| base.dom().contains(k) || (is_prefix_of(dst, k) && sub.dom().contains(
            src + k.skip(dst.len() as int),
        )),
        |k: PathView| if is_prefix_of(dst, k) && sub.dom().contains(src + k.skip(dst.len() as int)) {
            sub[src + k.skip(dst.len() as int)]
        } else {
            base[k]
        },
    )
}

/// Grafted entries agree in kind with what `base` already holds at the
/// same spot, so directories are never overwritten by files or files by
/// directories.
pub open spec fn graft_compat(
    base: Map<PathView, NodeView>,
    sub: Map<PathView, NodeView>,
    src: PathView,
    dst: PathView,
) -> bool {
    forall|rest: PathView| #[trigger] sub.dom().contains(src + rest) && base.dom().contains(
        dst + rest,
    ) ==> ((sub[src + rest] is Dir) <==> (base[dst + rest] is Dir))
}

/// Adding one `src`-prefixed entry to the grafted set inserts its image
/// under `dst`.
proof fn lemma_graft_insert(
    base: Map<PathView, NodeView>,
    sub: Map<PathView, NodeView>,
    src: PathView,
    dst: PathView,
    ke: PathView,
    v: NodeView,
)
    requires
        is_prefix_of(src, ke),
    ensures
        graft_map(base, sub.insert(ke, v), src, dst) == graft_map(base, sub, src, dst).insert(
            dst + ke.skip(src.len() as int),
            v,
        ),
{
    let kk = dst + ke.skip(src.len() as int);
    assert(kk.take(dst.len() as int) =~= dst);
    assert(is_prefix_of(dst, kk));
    assert(kk.skip(dst.len() as int) =~= ke.skip(src.len() as int));
    assert(src + kk.skip(dst.len() as int) =~= ke);
    let lhs = graft_map(base, sub.insert(ke, v), src, dst);
    let rhs = graft_map(base, sub, src, dst).insert(kk, v);
    assert forall|k: PathView|
        #![trigger lhs.dom().contains(k)]
        #![trigger rhs.dom().contains(k)]
        k != kk && is_prefix_of(dst, k) implies src + k.skip(dst.len() as int) != ke by {
        if src + k.skip(dst.len() as int) == ke {
            assert(k.take(dst.len() as int) + k.skip(dst.len() as int) =~= k);
            assert((src + k.skip(dst.len() as int)).skip(src.len() as int) =~= k.skip(
                dst.len() as int,
            ));
            assert(k =~= kk);
        }
    }
    assert(lhs =~= rhs);
}

/// The part of a closed map under `src` is itself closed relative to
/// `src`: parents of deeper entries stay inside it, as directories.
proof fn lemma_restrict_rel_closed(m: Map<PathView, NodeView>, src: PathView)
    requires
        map_closed(m),
        src.len() >= 1,
    ensures
        forall|k: PathView| #[trigger] restrict_map(m, src).dom().contains(k) && k.len() > src.len()
            ==> restrict_map(m, src).dom().contains(k.drop_last()) && restrict_map(m, src)[k.drop_last()]
            == NodeView::Dir,
{
    let sub = restrict_map(m, src);
    assert forall|k: PathView| #[trigger] sub.dom().contains(k) && k.len() > src.len() implies sub.dom().contains(
        k.drop_last(),
    ) && sub[k.drop_last()] == NodeView::Dir by {
        assert(m.dom().contains(k));
        assert(lookup(m, k.drop_last()) == Some(NodeView::Dir));
        assert(k.drop_last().take(src.len() as int) =~= k.take(src.len() as int));
        assert(is_prefix_of(src, k.drop_last()));
        assert(m.dom().contains(k.drop_last()));
    }
}

/// Grafting a relatively closed, kind-compatible subtree whose root lands
/// on a directory's child keeps the map closed.
#[verifier::rlimit(100)]
proof fn lemma_graft_closed(
    base: Map<PathView, NodeView>,
    sub: Map<PathView, NodeView>,
    src: PathView,
    dst: PathView,
)
    requires
        map_closed(base),
        src.len() >= 1,
        dst.len() >= 1,
        lookup(base, dst.drop_last()) == Some(NodeView::Dir),
        forall|k: PathView| #[trigger] sub.dom().contains(k) ==> is_prefix_of(src, k),
        forall|k: PathView| #[trigger] sub.dom().contains(k) && k.len() > src.len() ==> sub.dom().contains(
            k.drop_last(),
        ) && sub[k.drop_last()] == NodeView::Dir,
        graft_compat(base, sub, src, dst),
    ensures
        map_closed(graft_map(base, sub, src, dst)),
{
    let g = graft_map(base, sub, src, dst);
    assert forall|k: PathView| #[trigger] g.dom().contains(k) implies k.len() >= 1 && lookup(
        g,
        k.drop_last(),
    ) == Some(NodeView::Dir) by {
        if is_prefix_of(dst, k) && sub.dom().contains(src + k.skip(dst.len() as int)) {
            let rest = k.skip(dst.len() as int);
            let ke = src + rest;
            assert(k.len() >= dst.len() >= 1);
            if rest.len() == 0 {
                assert(k.take(dst.len() as int) + k.skip(dst.len() as int) =~= k);
                assert(k =~= dst);
                if dst.len() == 1 {
                    assert(k.drop_last().len() == 0);
                } else {
                    let par = dst.drop_last();
                    assert(base.dom().contains(par));
                    assert(!is_prefix_of(dst, par));
                    assert(g.dom().contains(par));
                    assert(g[par] == base[par]);
                    assert(k.drop_last() =~= par);
                }
            } else {
                assert(ke.len() > src.len());
                assert(sub.dom().contains(ke.drop_last()) && sub[ke.drop_last()] == NodeView::Dir);
                let par = k.drop_last();
                assert(par =~= dst + rest.drop_last());
                assert((dst + rest.drop_last()).take(dst.len() as int) =~= dst);
                assert(is_prefix_of(dst, par));
                assert(par.skip(dst.len() as int) =~= rest.drop_last());
                assert(src + par.skip(dst.len() as int) =~= ke.drop_last());
                assert(sub.dom().contains(src + par.skip(dst.len() as int)));
                assert(g.dom().contains(par));
                assert(g[par] == sub[src + par.skip(dst.len() as int)]);
                assert(par.len() >= 1);
            }
        } else {
            assert(base.dom().contains(k));
            assert(lookup(base, k.drop_last()) == Some(NodeView::Dir));
            if k.drop_last().len() == 0 {
            } else {
                let par = k.drop_last();
                assert(base.dom().contains(par));
                assert(g.dom().contains(par));
                if is_prefix_of(dst, par) && sub.dom().contains(src + par.skip(dst.len() as int)) {
                    let rest = par.skip(dst.len() as int);
                    assert(dst + rest =~= par);
                    assert(base.dom().contains(dst + rest));
                    assert(sub.dom().contains(src + rest));
                    assert((sub[src + rest] is Dir) <==> (base[dst + rest] is Dir));
                    assert(base[par] is Dir);
                    assert(g[par] == sub[src + rest]);
                    assert(g[par] is Dir);
                } else {
                    assert(g[par] == base[par]);
                }
            }
        }
    }
}

impl FsState {
    /// Fresh copies of every entry at or under `pre`.
    fn collect_under(&self, pre: &Vec<String>) -> (r: Vec<FsEntry>)
        requires
            distinct_paths(self.entries_view()),
        ensures
            distinct_paths(r@),
            map_of(r@) == restrict_map(self.as_map(), pre.deep_view()),
            forall|t: int| 0 <= t < r@.len() ==> is_prefix_of(
                pre.deep_view(),
                (#[trigger] r@[t]).pathv(),
            ),
    {
        let ghost s = self.entries@;
        let ghost prev = pre.deep_view();
        let mut out: Vec<FsEntry> = Vec::new();
        let mut j: usize = 0;
        proof {
            assert(s.take(0) =~= Seq::<FsEntry>::empty());
            assert(map_of(out@) =~= restrict_map(map_of(s.take(0)), prev));
        }
        while j < self.entries.len()
            invariant
                self.entries@ == s,
                distinct_paths(s),
                prev == pre.deep_view(),
                j <= s.len(),
                distinct_paths(out@),
                map_of(out@) == restrict_map(map_of(s.take(j as int)), prev),
                forall|t: int| 0 <= t < out@.len() ==> map_of(s.take(j as int)).dom().contains(
                    (#[trigger] out@[t]).pathv(),
                ),
                forall|t: int| 0 <= t < out@.len() ==> is_prefix_of(
                    prev,
                    (#[trigger] out@[t]).pathv(),
                ),
            decreases s.len() - j,
        {
            proof {
                assert(s.take(j + 1).drop_last() =~= s.take(j as int));
                assert(s.take(j + 1).last() == s[j as int]);
                lemma_map_of_dom(s.take(j as int));
                if seq_has_path(s.take(j as int), s[j as int].pathv()) {
                    let t = choose|t: int|
                        0 <= t < j && s.take(j as int)[t].pathv() == s[j as int].pathv();
                    assert(s[t].pathv() == s[j as int].pathv());
                    assert(false);
                }
            }
            let keep = crate::paths::path_is_prefix(pre, &self.entries[j].path);
            if keep {
                let ghost outprev = out@;
                out.push(clone_entry(&self.entries[j]));
                proof {
                    assert(out@.drop_last() =~= outprev);
                    assert(out@.last().pathv() == s[j as int].pathv());
                    assert(out@.last().nodev() == s[j as int].nodev());
                    assert forall|a: int, b: int| 0 <= a < b < out@.len() implies out@[a].pathv()
                        != out@[b].pathv() by {
                        if b == out@.len() - 1 {
                            assert(out@[a] == outprev[a]);
                            assert(map_of(s.take(j as int)).dom().contains(outprev[a].pathv()));
                        } else {
                            assert(out@[a] == outprev[a]);
                            assert(out@[b] == outprev[b]);
                        }
                    }
                    assert(map_of(out@) =~= restrict_map(map_of(s.take(j + 1)), prev));
                    assert forall|t: int| 0 <= t < out@.len() implies map_of(s.take(j + 1)).dom().contains(
                        (#[trigger] out@[t]).pathv(),
                    ) by {
                        if t < out@.len() - 1 {
                            assert(out@[t] == outprev[t]);
                            assert(map_of(s.take(j as int)).dom().contains(outprev[t].pathv()));
                        }
                    }
                    assert forall|t: int| 0 <= t < out@.len() implies is_prefix_of(
                        prev,
                        (#[trigger] out@[t]).pathv(),
                    ) by {
                        if t < out@.len() - 1 {
                            assert(out@[t] == outprev[t]);
                        }
                    }
                }
            } else {
                proof {
                    assert(!is_prefix_of(prev, s[j as int].pathv()));
                    assert(map_of(out@) =~= restrict_map(map_of(s.take(j + 1)), prev));
                    assert forall|t: int| 0 <= t < out@.len() implies map_of(s.take(j + 1)).dom().contains(
                        (#[trigger] out@[t]).pathv(),
                    ) by {
                        assert(map_of(s.take(j as int)).dom().contains(out@[t].pathv()));
                    }
                }
            }
            j += 1;
        }
        proof {
            assert(s.take(s.len() as int) =~= s);
        }
        out
    }

    /// Places a copy of the collected `src`-prefixed entries under `dst`.
    fn graft_from(
        &mut self,
        sub: &Vec<FsEntry>,
        src_len: usize,
        dst: &Vec<String>,
        Ghost(srcv): Ghost<PathView>,
    )
        requires
            distinct_paths(old(self).entries_view()),
            distinct_paths(sub@),
            srcv.len() == src_len,
            forall|t: int| 0 <= t < sub@.len() ==> is_prefix_of(srcv, (#[trigger] sub@[t]).pathv()),
        ensures
            distinct_paths(final(self).entries_view()),
            final(self).as_map() == graft_map(
                old(self).as_map(),
                map_of(sub@),
                srcv,
                dst.deep_view(),
            ),
    {
        let ghost m0 = self.as_map();
        let ghost dstv = dst.deep_view();
        let mut t: usize = 0;
        proof {
            assert(sub@.take(0) =~= Seq::<FsEntry>::empty());
            assert(self.as_map() =~= graft_map(m0, map_of(sub@.take(0)), srcv, dstv));
        }
        while t < sub.len()
            invariant
                distinct_paths(self.entries@),
                self.as_map() == graft_map(m0, map_of(sub@.take(t as int)), srcv, dstv),
                distinct_paths(sub@),
                srcv.len() == src_len,
                dstv == dst.deep_view(),
                forall|q: int| 0 <= q < sub@.len() ==> is_prefix_of(
                    srcv,
                    (#[trigger] sub@[q]).pathv(),
                ),
                t <= sub@.len(),
            decreases sub@.len() - t,
        {
            let newp = crate::paths::reprefix(dst, &sub[t].path, src_len);
            self.upsert(&newp, &sub[t].node);
            proof {
                assert(sub@.take(t + 1).drop_last() =~= sub@.take(t as int));
                assert(sub@.take(t + 1).last() == sub@[t as int]);
                lemma_graft_insert(
                    m0,
                    map_of(sub@.take(t as int)),
                    srcv,
                    dstv,
                    sub@[t as int].pathv(),
                    sub@[t as int].nodev(),
                );
                assert(self.as_map() =~= graft_map(m0, map_of(sub@.take(t + 1)), srcv, dstv));
            }
            t += 1;
        }
        proof {
            assert(sub@.take(sub@.len() as int) =~= sub@);
        }
    }

    /// Whether grafting `sub` under `dst` would overwrite a directory
    /// with a file or a file with a directory.
    fn graft_compatible(
        &self,
        sub: &Vec<FsEntry>,
        src_len: usize,
        dst: &Vec<String>,
        Ghost(srcv): Ghost<PathView>,
    ) -> (r: bool)
        requires
            distinct_paths(self.entries_view()),
            distinct_paths(sub@),
            srcv.len() == src_len,
            forall|t: int| 0 <= t < sub@.len() ==> is_prefix_of(srcv, (#[trigger] sub@[t]).pathv()),
        ensures
            r == graft_compat(self.as_map(), map_of(sub@), srcv, dst.deep_view()),
    {
        let ghost base = self.as_map();
        let ghost dstv = dst.deep_view();
        let mut t: usize = 0;
        while t < sub.len()
            invariant
                distinct_paths(self.entries@),
                base == self.as_map(),
                distinct_paths(sub@),
                srcv.len() == src_len,
                dstv == dst.deep_view(),
                forall|q: int| 0 <= q < sub@.len() ==> is_prefix_of(
                    srcv,
                    (#[trigger] sub@[q]).pathv(),
                ),
                t <= sub@.len(),
                forall|q: int| 0 <= q < t ==> (base.dom().contains(
                    dstv + (#[trigger] sub@[q]).pathv().skip(src_len as int),
                ) ==> ((sub@[q].nodev() is Dir) <==> (base[dstv + sub@[q].pathv().skip(
                    src_len as int,
                )] is Dir))),
            decreases sub@.len() - t,
        {
            let newp = crate::paths::reprefix(dst, &sub[t].path, src_len);
            match self.find_idx(&newp) {
                Some(i) => {
                    proof {
                        lemma_map_of_get(self.entries@, i as int);
                    }
                    let sub_is_dir = match &sub[t].node {
                        FsNode::Dir => true,
                        FsNode::File(_) => false,
                    };
                    let base_is_dir = match &self.entries[i].node {
                        FsNode::Dir => true,
                        FsNode::File(_) => false,
                    };
                    if sub_is_dir != base_is_dir {
                        proof {
                            lemma_map_of_get(sub@, t as int);
                            let rest = sub@[t as int].pathv().skip(src_len as int);
                            assert(srcv + rest =~= sub@[t as int].pathv());
                            assert(map_of(sub@).dom().contains(srcv + rest));
                            assert(map_of(sub@)[srcv + rest] == sub@[t as int].nodev());
                            assert(base.dom().contains(dstv + rest));
                            assert(!((map_of(sub@)[srcv + rest] is Dir) <==> (base[dstv + rest]
                                is Dir)));
                        }
                        return false;
                    }
                },
                None => {
                    proof {
                        lemma_map_of_dom(self.entries@);
                    }
                },
            }
            t += 1;
        }
        proof {
            assert forall|rest: PathView| #[trigger] map_of(sub@).dom().contains(srcv + rest)
                && base.dom().contains(dstv + rest) implies ((map_of(sub@)[srcv + rest] is Dir)
                <==> (base[dstv + rest] is Dir)) by {
                lemma_map_of_dom(sub@);
                assert(seq_has_path(sub@, srcv + rest));
                let q = choose|q: int| 0 <= q < sub@.len() && sub@[q].pathv() == srcv + rest;
                assert(rest =~= sub@[q].pathv().skip(src_len as int));
                lemma_map_of_get(sub@, q);
            }
        }
        true
    }
}

/// After the destination's ancestors are created, its parent is a
/// directory.
proof fn lemma_wd_parent_dir(m: Map<PathView, NodeView>, p: PathView)
    requires
        p.len() >= 1,
        dirs_creatable(m, p.drop_last()),
    ensures
        lookup(with_dirs(m, p.drop_last()), p.drop_last()) == Some(NodeView::Dir),
{
    let q = p.drop_last();
    if q.len() > 0 {
        assert(q.take(q.len() as int) =~= q);
        assert(is_prefix_of(q, q));
        assert(with_dirs(m, q).dom().contains(q));
        if m.dom().contains(q) {
            assert(!is_file_at(m, q.take(q.len() as int)));
            assert(m[q] is Dir);
        }
    }
}

/// Creating ancestors of `par` adds nothing at or under a subtree that is
/// not above `par`, so the subtree reads the same.
proof fn lemma_restrict_wd(m: Map<PathView, NodeView>, par: PathView, sv: PathView)
    requires
        !is_prefix_of(sv, par),
    ensures
        restrict_map(with_dirs(m, par), sv) == restrict_map(m, sv),
{
    let wd = with_dirs(m, par);
    assert forall|k: PathView|
        #![trigger restrict_map(wd, sv).dom().contains(k)]
        #![trigger restrict_map(m, sv).dom().contains(k)]
        restrict_map(wd, sv).dom().contains(k) <==> restrict_map(m, sv).dom().contains(k) by {
        if wd.dom().contains(k) && is_prefix_of(sv, k) && !m.dom().contains(k) {
            assert(is_prefix_of(k, par));
            crate::paths::lemma_prefix_transitive(sv, k, par);
            assert(false);
        }
    }
    assert(restrict_map(wd, sv) =~= restrict_map(m, sv));
}

/// A key strictly longer than `par` is in the ancestor-extended map
/// exactly as it is in the original.
proof fn lemma_wd_same_deep(m: Map<PathView, NodeView>, par: PathView, k: PathView)
    requires
        k.len() > par.len(),
    ensures
        with_dirs(m, par).dom().contains(k) <==> m.dom().contains(k),
        m.dom().contains(k) ==> with_dirs(m, par)[k] == m[k],
{
}

/// The rename operation accepts a destination that is absent, or is a
/// regular file being replaced by a regular file; moving a tree into
/// itself (either path a prefix of the other) is rejected, except the
/// trivial move onto itself.
pub open spec fn move_target_ok(m: Map<PathView, NodeView>, src: PathView, dst: PathView) -> bool {
    ||| src == dst
    ||| {
        &&& !is_prefix_of(src, dst)
        &&& !is_prefix_of(dst, src)
        &&& match lookup(m, dst) {
            Option::None => true,
            Option::Some(NodeView::File(c)) => lookup(m, src) matches Some(NodeView::File(_)),
            Option::Some(NodeView::Dir) => false,
        }
    }
}

/// The copy operation rejects overlapping paths (the same path included)
/// and any kind conflict between the copied entries and what already
/// stands under the destination.
pub open spec fn copy_target_ok(m: Map<PathView, NodeView>, src: PathView, dst: PathView) -> bool {
    &&& !is_prefix_of(src, dst)
    &&& !is_prefix_of(dst, src)
    &&& graft_compat(with_dirs(m, dst.drop_last()), restrict_map(m, src), src, dst)
}

impl FsState {
    /// Moves the node (and, for a directory, its whole subtree) at
    /// `source` to `destination`, creating the destination's missing
    /// ancestors first.
    pub fn move_entry(&mut self, source: &Vec<String>, destination: &Vec<String>) -> (r: Result<
        (),
        FsError,
    >)
        requires
            old(self).wf(),
        ensures
            final(self).wf(),
            ({
                let m = old(self).as_map();
                let sv = source.deep_view();
                let dv = destination.deep_view();
                &&& (r is Ok <==> sv.len() >= 1 && m.dom().contains(sv) && dv.len() >= 1
                    && dirs_creatable(m, dv.drop_last()) && move_target_ok(m, sv, dv))
                &&& (r is Ok ==> final(self).as_map() == graft_map(
                    prune_map(with_dirs(m, dv.drop_last()), sv),
                    restrict_map(m, sv),
                    sv,
                    dv,
                ))
                &&& (r matches Err(e) ==> (if sv.len() == 0 || !m.dom().contains(sv) {
                    e == FsError::SourceNotFound && *final(self) == *old(self)
                } else if dv.len() == 0 {
                    e == FsError::Conflict && *final(self) == *old(self)
                } else if !dirs_creatable(m, dv.drop_last()) {
                    e == FsError::NotADirectory && *final(self) == *old(self)
                } else {
                    e == FsError::Conflict && final(self).as_map() == with_dirs(m, dv.drop_last())
                }))
            }),
    {
        let ghost m = self.as_map();
        let ghost sv = source.deep_view();
        let ghost dvv = destination.deep_view();
        if source.len() == 0 {
            return Err(FsError::SourceNotFound);
        }
        let mut src_is_file = false;
        match self.find_idx(source) {
            None => {
                proof {
                    lemma_map_of_dom(self.entries@);
                }
                return Err(FsError::SourceNotFound);
            },
            Some(i) => {
                proof {
                    lemma_map_of_get(self.entries@, i as int);
                }
                src_is_file = match &self.entries[i].node {
                    FsNode::File(_) => true,
                    FsNode::Dir => false,
                };
            },
        }
        if destination.len() == 0 {
            return Err(FsError::Conflict);
        }
        if !self.creatable_upto(destination, destination.len() - 1) {
            proof {
                assert(dvv.take(dvv.len() - 1) =~= dvv.drop_last());
            }
            return Err(FsError::NotADirectory);
        }
        proof {
            assert(dvv.take(dvv.len() - 1) =~= dvv.drop_last());
            lemma_with_dirs_closed(m, dvv.drop_last());
        }
        self.make_dirs(destination, destination.len() - 1);
        let ghost wd = with_dirs(m, dvv.drop_last());
        proof {
            assert(self.as_map() == wd);
        }
        let equal = crate::paths::path_eq(source, destination);
        if !equal {
            let s_pre_d = crate::paths::path_is_prefix(source, destination);
            let d_pre_s = crate::paths::path_is_prefix(destination, source);
            if s_pre_d || d_pre_s {
                return Err(FsError::Conflict);
            }
            match self.find_idx(destination) {
                Some(i) => {
                    proof {
                        lemma_map_of_get(self.entries@, i as int);
                        lemma_wd_same_deep(m, dvv.drop_last(), dvv);
                    }
                    match &self.entries[i].node {
                        FsNode::Dir => {
                            return Err(FsError::Conflict);
                        },
                        FsNode::File(_) => {
                            if !src_is_file {
                                return Err(FsError::Conflict);
                            }
                        },
                    }
                },
                None => {
                    proof {
                        lemma_map_of_dom(self.entries@);
                        lemma_wd_same_deep(m, dvv.drop_last(), dvv);
                    }
                },
            }
        }
        assert(move_target_ok(m, sv, dvv));
        let sub = self.collect_under(source);
        proof {
            if is_prefix_of(sv, dvv.drop_last()) {
                crate::paths::lemma_parent_is_prefix(dvv);
                crate::paths::lemma_prefix_transitive(sv, dvv.drop_last(), dvv);
                assert(sv.len() < dvv.len() || sv == dvv);
                if sv == dvv {
                    assert(sv.len() <= dvv.drop_last().len());
                    assert(false);
                }
                assert(false);
            }
            lemma_restrict_wd(m, dvv.drop_last(), sv);
        }
        self.remove_under(source);
        let ghost base = prune_map(wd, sv);
        proof {
            lemma_prune_closed(wd, sv);
            lemma_restrict_rel_closed(m, sv);
            lemma_wd_parent_dir(m, dvv);
            assert(!is_prefix_of(sv, dvv.drop_last()));
            assert(lookup(base, dvv.drop_last()) == Some(NodeView::Dir));
            let sub_m = restrict_map(m, sv);
            assert forall|rest: PathView| #[trigger] sub_m.dom().contains(sv + rest)
                && base.dom().contains(dvv + rest) implies ((sub_m[sv + rest] is Dir) <==> (base[dvv
                + rest] is Dir)) by {
                assert((dvv + rest).take(dvv.len() as int) =~= dvv);
                assert(is_prefix_of(dvv, dvv + rest));
                if sv == dvv {
                    assert(is_prefix_of(sv, dvv + rest));
                    assert(!base.dom().contains(dvv + rest));
                } else {
                    assert(wd.dom().contains(dvv + rest));
                    if rest.len() == 0 {
                        assert(dvv + rest =~= dvv);
                        lemma_wd_same_deep(m, dvv.drop_last(), dvv);
                        assert(m.dom().contains(dvv));
                        assert(m[dvv] is File);
                        assert(lookup(m, sv) matches Some(NodeView::File(c)));
                        assert(sub_m[sv + rest] == m[sv + rest]);
                        assert(sv + rest =~= sv);
                        assert(m[sv] is File);
                    } else {
                        lemma_wd_same_deep(m, dvv.drop_last(), dvv + rest);
                        assert(m.dom().contains(dvv + rest));
                        lemma_closed_ancestors(m, dvv + rest, dvv.len() as int);
                        assert((dvv + rest).take(dvv.len() as int) =~= dvv);
                        assert(lookup(m, dvv) == Some(NodeView::Dir));
                        assert(false);
                    }
                }
            }
            lemma_graft_closed(base, restrict_map(m, sv), sv, dvv);
        }
        self.graft_from(&sub, source.len(), destination, Ghost(sv));
        Ok(())
    }

    /// Copies the node at `source` — recursively, for a directory — to
    /// `destination`, creating the destination's missing ancestors first
    /// and merging into whatever already stands there.
    pub fn copy_entry(&mut self, source: &Vec<String>, destination: &Vec<String>) -> (r: Result<
        (),
        FsError,
    >)
        requires
            old(self).wf(),
        ensures
            final(self).wf(),
            ({
                let m = old(self).as_map();
                let sv = source.deep_view();
                let dv = destination.deep_view();
                &&& (r is Ok <==> sv.len() >= 1 && m.dom().contains(sv) && dv.len() >= 1
                    && dirs_creatable(m, dv.drop_last()) && copy_target_ok(m, sv, dv))
                &&& (r is Ok ==> final(self).as_map() == graft_map(
                    with_dirs(m, dv.drop_last()),
                    restrict_map(m, sv),
                    sv,
                    dv,
                ))
                &&& (r matches Err(e) ==> (if sv.len() == 0 || !m.dom().contains(sv) {
                    e == FsError::SourceNotFound && *final(self) == *old(self)
                } else if dv.len() == 0 {
                    e == FsError::Conflict && *final(self) == *old(self)
                } else if !dirs_creatable(m, dv.drop_last()) {
                    e == FsError::NotADirectory && *final(self) == *old(self)
                } else {
                    e == FsError::Conflict && final(self).as_map() == with_dirs(m, dv.drop_last())
                }))
            }),
    {
        let ghost m = self.as_map();
        let ghost sv = source.deep_view();
        let ghost dvv = destination.deep_view();
        if source.len() == 0 {
            return Err(FsError::SourceNotFound);
        }
        match self.find_idx(source) {
            None => {
                proof {
                    lemma_map_of_dom(self.entries@);
                }
                return Err(FsError::SourceNotFound);
            },
            Some(_) => {
                proof {
                    lemma_map_of_dom(self.entries@);
                }
            },
        }
        if destination.len() == 0 {
            return Err(FsError::Conflict);
        }
        if !self.creatable_upto(destination, destination.len() - 1) {
            proof {
                assert(dvv.take(dvv.len() - 1) =~= dvv.drop_last());
            }
            return Err(FsError::NotADirectory);
        }
        proof {
            assert(dvv.take(dvv.len() - 1) =~= dvv.drop_last());
            lemma_with_dirs_closed(m, dvv.drop_last());
        }
        self.make_dirs(destination, destination.len() - 1);
        let ghost wd = with_dirs(m, dvv.drop_last());
        if crate::paths::path_is_prefix(source, destination) || crate::paths::path_is_prefix(
            destination,
            source,
        ) {
            return Err(FsError::Conflict);
        }
        proof {
            if is_prefix_of(sv, dvv.drop_last()) {
                crate::paths::lemma_parent_is_prefix(dvv);
                crate::paths::lemma_prefix_transitive(sv, dvv.drop_last(), dvv);
                assert(false);
            }
            lemma_restrict_wd(m, dvv.drop_last(), sv);
        }
        let sub = self.collect_under(source);
        if !self.graft_compatible(&sub, source.len(), destination, Ghost(sv)) {
            return Err(FsError::Conflict);
        }
        proof {
            lemma_restrict_rel_closed(m, sv);
            lemma_wd_parent_dir(m, dvv);
            lemma_graft_closed(wd, restrict_map(m, sv), sv, dvv);
        }
        self.graft_from(&sub, source.len(), destination, Ghost(sv));
        Ok(())
    }
}

/// A directory-entry snapshot as the agent reports it: the full path, the
/// final name component, whether it is a regular file, and the size when
/// one is known (directories report none).
pub struct FileInfo {
    pub path: String,
    pub name: String,
    pub is_file: bool,
    pub size: Option<u64>,
}

/// The mathematical value of a `FileInfo`.
pub struct FileInfoView {
    pub path: Seq<char>,
    pub name: Seq<char>,
    pub is_file: bool,
    pub size: Option<u64>,
}

impl View for FileInfo {
    type V = FileInfoView;

    open spec fn view(&self) -> FileInfoView {
        FileInfoView {
            path: self.path@,
            name: self.name@,
            is_file: self.is_file,
            size: self.size,
        }
    }
}

/// The snapshot reported for the node `n` stored at `k`.
pub open spec fn info_of(k: PathView, n: NodeView) -> FileInfoView {
    FileInfoView {
        path: crate::paths::join_of(k),
        name: if k.len() >= 1 {
            k.last()
        } else {
            Seq::empty()
        },
        is_file: n is File,
        size: match n {
            NodeView::File(c) => Some(c.len() as u64),
            NodeView::Dir => None,
        },
    }
}

/// Builds the snapshot for one stored entry.
fn make_info(path: &Vec<String>, node: &FsNode) -> (r: FileInfo)
    requires
        path@.len() >= 1,
    ensures
        r@ == info_of(path.deep_view(), node_view(*node)),
{
    let path_s = crate::paths::join_path(path);
    let name = path[path.len() - 1].clone();
    proof {
        assert(path.deep_view().last() == path@[path@.len() - 1]@);
    }
    match node {
        FsNode::File(c) => FileInfo { path: path_s, name, is_file: true, size: Some(c.len() as u64) },
        FsNode::Dir => FileInfo { path: path_s, name, is_file: false, size: None },
    }
}

/// `k` is an immediate child of `p`.
pub open spec fn is_child_of(p: PathView, k: PathView) -> bool {
    k.len() == p.len() + 1 && is_prefix_of(p, k)
}

/// A visited entry matches when its lowercased name contains the
/// lowercased pattern.
pub open spec fn search_matches(k: PathView, pat: Seq<char>) -> bool {
    k.len() >= 1 && crate::text::is_substring(
        crate::text::lower_of(k.last()),
        crate::text::lower_of(pat),
    )
}

impl FsState {
    /// Enumerates the immediate children of the directory at `path`, one
    /// snapshot each, in traversal order.
    #[verifier::rlimit(100)]
    pub fn list_dir(&self, path: &Vec<String>) -> (r: Result<Vec<FileInfo>, FsError>)
        requires
            self.wf(),
        ensures
            r is Ok <==> lookup(self.as_map(), path.deep_view()) == Some(NodeView::Dir),
            r matches Err(e) ==> (if lookup(self.as_map(), path.deep_view()) is None {
                e == FsError::NotFound
            } else {
                e == FsError::NotADirectory
            }),
            r matches Ok(v) ==> list_result_ok(self.as_map(), path.deep_view(), v@),
    {
        let ghost m = self.as_map();
        let ghost p = path.deep_view();
        if path.len() > 0 {
            match self.find_idx(path) {
                None => {
                    proof {
                        lemma_map_of_dom(self.entries@);
                    }
                    return Err(FsError::NotFound);
                },
                Some(i) => {
                    proof {
                        lemma_map_of_get(self.entries@, i as int);
                    }
                    match &self.entries[i].node {
                        FsNode::File(_) => {
                            return Err(FsError::NotADirectory);
                        },
                        FsNode::Dir => {},
                    }
                },
            }
        }
        let ghost s = self.entries@;
        let mut out: Vec<FileInfo> = Vec::new();
        let mut j: usize = 0;
        while j < self.entries.len()
            invariant
                self.wf(),
                self.entries@ == s,
                m == self.as_map(),
                p == path.deep_view(),
                j <= s.len(),
                forall|t: int| 0 <= t < out@.len() ==> m.dom().contains(
                    p.push((#[trigger] out@[t])@.name),
                ) && is_child_of(p, p.push(out@[t]@.name)) && out@[t]@ == info_of(
                    p.push(out@[t]@.name),
                    m[p.push(out@[t]@.name)],
                ),
                forall|i: int| 0 <= i < j && is_child_of(p, (#[trigger] s[i]).pathv()) ==> exists|
                    t: int,
                |
                    0 <= t < out@.len() && (#[trigger] out@[t])@ == info_of(
                        s[i].pathv(),
                        m[s[i].pathv()],
                    ),
                forall|t1: int, t2: int| 0 <= t1 < t2 < out@.len() ==> (#[trigger] out@[t1])@.name
                    != (#[trigger] out@[t2])@.name,
                forall|t: int| 0 <= t < out@.len() ==> seq_has_path(
                    s.take(j as int),
                    p.push((#[trigger] out@[t])@.name),
                ),
            decreases s.len() - j,
        {
            let is_child = self.entries[j].path.len() >= 1 && self.entries[j].path.len() - 1
                == path.len() && crate::paths::path_is_prefix(path, &self.entries[j].path);
            if is_child {
                proof {
                    lemma_map_of_get(s, j as int);
                    assert(s[j as int].pathv().len() >= 1);
                    assert(p.push(s[j as int].pathv().last()) =~= s[j as int].pathv());
                }
                let ghost outprev = out@;
                let info = make_info(&self.entries[j].path, &self.entries[j].node);
                out.push(info);
                proof {
                    assert(out@.drop_last() =~= outprev);
                    assert(out@.last()@ == info_of(s[j as int].pathv(), s[j as int].nodev()));
                    assert(forall|t: int| 0 <= t < outprev.len() ==> out@[t] == outprev[t]);
                    assert forall|t1: int, t2: int| 0 <= t1 < t2 < out@.len() implies (
                    #[trigger] out@[t1])@.name != (#[trigger] out@[t2])@.name by {
                        if t2 == out@.len() - 1 && out@[t1]@.name == out@[t2]@.name {
                            assert(p.push(outprev[t1]@.name) =~= s[j as int].pathv());
                            assert(seq_has_path(s.take(j as int), p.push(outprev[t1]@.name)));
                            let q = choose|q: int|
                                0 <= q < j && s.take(j as int)[q].pathv() == p.push(
                                    outprev[t1]@.name,
                                );
                            assert(s[q].pathv() == s[j as int].pathv());
                            assert(false);
                        }
                    }
                    assert forall|t: int| 0 <= t < out@.len() implies seq_has_path(
                        s.take(j + 1),
                        p.push((#[trigger] out@[t])@.name),
                    ) by {
                        if t < out@.len() - 1 {
                            assert(seq_has_path(s.take(j as int), p.push(outprev[t]@.name)));
                            let q = choose|q: int|
                                0 <= q < j && s.take(j as int)[q].pathv() == p.push(
                                    outprev[t]@.name,
                                );
                            assert(s.take(j + 1)[q].pathv() == p.push(out@[t]@.name));
                        } else {
                            assert(p.push(out@[t]@.name) =~= s[j as int].pathv());
                            assert(s.take(j + 1)[j as int].pathv() == p.push(out@[t]@.name));
                        }
                    }
                }
            } else {
                proof {
                    assert forall|t: int| 0 <= t < out@.len() implies seq_has_path(
                        s.take(j + 1),
                        p.push((#[trigger] out@[t])@.name),
                    ) by {
                        assert(seq_has_path(s.take(j as int), p.push(out@[t]@.name)));
                        let q = choose|q: int|
                            0 <= q < j && s.take(j as int)[q].pathv() == p.push(out@[t]@.name);
                        assert(s.take(j + 1)[q].pathv() == p.push(out@[t]@.name));
                    }
                }
            }
            j += 1;
        }
        proof {
            assert forall|k: PathView| #[trigger] m.dom().contains(k) && is_child_of(p, k) implies exists|
                t: int,
            | 0 <= t < out@.len() && (#[trigger] out@[t])@ == info_of(k, m[k]) by {
                lemma_map_of_dom(s);
                assert(seq_has_path(s, k));
                let i = choose|i: int| 0 <= i < s.len() && s[i].pathv() == k;
                assert(is_child_of(p, s[i].pathv()));
            }
        }
        Ok(out)
    }
}

/// The snapshot `iv` belongs to some stored entry under `dv` whose name
/// matches the pattern.
pub open spec fn matching_info(
    m: Map<PathView, NodeView>,
    dv: PathView,
    pat: Seq<char>,
    iv: FileInfoView,
) -> bool {
    exists|k: PathView|
        m.dom().contains(k) && is_prefix_of(dv, k) && search_matches(k, pat) && iv == info_of(
            k,
            m[k],
        )
}

/// What a successful listing holds: every reported snapshot is an
/// immediate child, every child is reported, and no name repeats.
pub open spec fn list_result_ok(
    m: Map<PathView, NodeView>,
    p: PathView,
    res: Seq<FileInfo>,
) -> bool {
    &&& (forall|t: int| 0 <= t < res.len() ==> m.dom().contains(p.push((#[trigger] res[t])@.name))
        && is_child_of(p, p.push(res[t]@.name)) && res[t]@ == info_of(
        p.push(res[t]@.name),
        m[p.push(res[t]@.name)],
    ))
    &&& (forall|k: PathView| #[trigger] m.dom().contains(k) && is_child_of(p, k) ==> exists|t: int|
        0 <= t < res.len() && (#[trigger] res[t])@ == info_of(k, m[k]))
    &&& (forall|t1: int, t2: int| 0 <= t1 < t2 < res.len() ==> (#[trigger] res[t1])@.name != (
    #[trigger] res[t2])@.name)
}

/// What a search result holds: at most the visit cap, only matching
/// entries under the directory and, when the whole filesystem fits under
/// the cap, all of them.
pub open spec fn search_result_ok(
    m: Map<PathView, NodeView>,
    dv: PathView,
    pat: Seq<char>,
    res: Seq<FileInfo>,
) -> bool {
    &&& res.len() <= 1000
    &&& (forall|t: int| 0 <= t < res.len() ==> matching_info(m, dv, pat, (#[trigger] res[t])@))
    &&& (m.dom().len() <= 1000 ==> forall|k: PathView|
        #[trigger] m.dom().contains(k) && is_prefix_of(dv, k) && search_matches(k, pat)
            ==> exists|t: int| 0 <= t < res.len() && (#[trigger] res[t])@ == info_of(k, m[k]))
}

impl FsState {
    /// Recursive, bounded search: visits entries at or under `directory`
    /// in traversal order, at most 1000 of them, and reports a snapshot
    /// of each whose lowercased name contains the lowercased pattern.
    /// Visiting stops silently at the cap, so a larger tree may yield
    /// fewer matches than exist; a missing directory yields no matches
    /// rather than an error.
    #[verifier::rlimit(100)]
    pub fn search(&self, directory: &Vec<String>, pattern: &str) -> (r: Vec<FileInfo>)
        requires
            self.wf(),
        ensures
            search_result_ok(self.as_map(), directory.deep_view(), pattern@, r@),
    {
        let ghost m = self.as_map();
        let ghost dv = directory.deep_view();
        let ghost s = self.entries@;
        let pat_lower = crate::text::to_lowercase(pattern);
        let mut out: Vec<FileInfo> = Vec::new();
        let ghost mut keys: Seq<PathView> = Seq::empty();
        let mut visited: usize = 0;
        let mut j: usize = 0;
        while j < self.entries.len() && visited < 1000
            invariant
                self.wf(),
                self.entries@ == s,
                m == self.as_map(),
                dv == directory.deep_view(),
                pat_lower@ == crate::text::lower_of(pattern@),
                j <= s.len(),
                out@.len() <= visited,
                visited <= j,
                visited <= 1000,
                keys.len() == out@.len(),
                forall|t: int| 0 <= t < out@.len() ==> m.dom().contains(#[trigger] keys[t])
                    && is_prefix_of(dv, keys[t]) && search_matches(keys[t], pattern@)
                    && out@[t]@ == info_of(keys[t], m[keys[t]]),
                forall|t: int| 0 <= t < out@.len() ==> matching_info(
                    m,
                    dv,
                    pattern@,
                    (#[trigger] out@[t])@,
                ),
                s.len() <= 1000 ==> forall|i: int|
                    0 <= i < j && is_prefix_of(dv, (#[trigger] s[i]).pathv()) && search_matches(
                        s[i].pathv(),
                        pattern@,
                    ) ==> exists|t: int|
                        0 <= t < out@.len() && (#[trigger] out@[t])@ == info_of(
                            s[i].pathv(),
                            m[s[i].pathv()],
                        ),
            decreases s.len() - j,
        {
            if crate::paths::path_is_prefix(directory, &self.entries[j].path) {
                visited += 1;
                proof {
                    lemma_map_of_get(s, j as int);
                    assert(s[j as int].pathv().len() >= 1);
                }
                let name = &self.entries[j].path[self.entries[j].path.len() - 1];
                let name_lower = crate::text::to_lowercase(name.as_str());
                proof {
                    assert(name@ == s[j as int].pathv().last());
                }
                if crate::text::str_contains(name_lower.as_str(), pat_lower.as_str()) {
                    let ghost outprev = out@;
                    let info = make_info(&self.entries[j].path, &self.entries[j].node);
                    out.push(info);
                    proof {
                        keys = keys.push(s[j as int].pathv());
                        assert(out@.drop_last() =~= outprev);
                        assert(forall|t: int| 0 <= t < outprev.len() ==> out@[t] == outprev[t]);
                        assert(forall|t: int| 0 <= t < keys.len() - 1 ==> keys[t]
                            == keys.drop_last()[t]);
                        assert(search_matches(s[j as int].pathv(), pattern@));
                        assert(out@.last()@ == info_of(s[j as int].pathv(), m[s[j as int].pathv()]));
                        assert(keys.last() == s[j as int].pathv());
                        assert(matching_info(m, dv, pattern@, out@.last()@));
                        assert(forall|t: int| 0 <= t < out@.len() - 1 ==> matching_info(
                            m,
                            dv,
                            pattern@,
                            (#[trigger] out@[t])@,
                        ));
                    }
                }
            }
            j += 1;
        }
        proof {
            if m.dom().len() <= 1000 {
                lemma_map_of_len(s);
                assert(s.len() <= 1000);
                assert(j >= s.len() || visited >= 1000);
                if j < s.len() {
                    assert(visited >= 1000);
                    assert(visited <= j);
                    assert(false);
                }
                assert forall|k: PathView|
                    #[trigger] self.as_map().dom().contains(k) && is_prefix_of(
                        directory.deep_view(),
                        k,
                    ) && search_matches(k, pattern@) implies exists|t: int|
                    0 <= t < out@.len() && (#[trigger] out@[t])@ == info_of(
                        k,
                        self.as_map()[k],
                    ) by {
                    lemma_map_of_dom(s);
                    assert(seq_has_path(s, k));
                    let i = choose|i: int| 0 <= i < s.len() && s[i].pathv() == k;
                    assert(is_prefix_of(dv, s[i].pathv()));
                    assert(search_matches(s[i].pathv(), pattern@));
                    let t = choose|t: int|
                        0 <= t < out@.len() && (#[trigger] out@[t])@ == info_of(
                            s[i].pathv(),
                            m[s[i].pathv()],
                        );
                    assert(0 <= t < out@.len() && out@[t]@ == info_of(k, self.as_map()[k]));
                }
            }
        }
        out
    }
}

/// The write operation's success condition: a real path whose parent is a
/// directory and which is not itself a directory.
pub open spec fn write_allowed(m: Map<PathView, NodeView>, p: PathView) -> bool {
    &&& p.len() >= 1
    &&& lookup(m, p.drop_last()) == Some(NodeView::Dir)
    &&& lookup(m, p) != Some(NodeView::Dir)
}

/// Text round trip: after writing the UTF-8 encoding of any character
/// sequence to a writable path, reading that path finds those bytes,
/// which are valid UTF-8 and decode to the original characters.
pub proof fn lemma_text_round_trip(m: Map<PathView, NodeView>, p: PathView, c: Seq<char>)
    requires
        write_allowed(m, p),
    ensures
        read_view(m.insert(p, NodeView::File(vstd::utf8::encode_utf8(c))), p) == Some(
            vstd::utf8::encode_utf8(c),
        ),
        vstd::utf8::valid_utf8(vstd::utf8::encode_utf8(c)),
        vstd::utf8::decode_utf8(vstd::utf8::encode_utf8(c)) == c,
{
    broadcast use vstd::utf8::encode_utf8_valid_utf8, vstd::utf8::encode_utf8_decode_utf8;

}

/// Binary round trip: after writing any byte sequence to a writable
/// path, reading that path returns exactly those bytes (which the binary
/// endpoints carry as their base64 text).
pub proof fn lemma_binary_round_trip(m: Map<PathView, NodeView>, p: PathView, b: Seq<u8>)
    requires
        write_allowed(m, p),
    ensures
        read_view(m.insert(p, NodeView::File(b)), p) == Some(b),
{
}

/// A successful move leaves the destination holding what the source
/// held, the source gone (when the two differ), and every missing
/// destination ancestor created as a directory.
pub proof fn lemma_move_effect(m: Map<PathView, NodeView>, src: PathView, dst: PathView)
    requires
        src.len() >= 1,
        dst.len() >= 1,
        m.dom().contains(src),
        dirs_creatable(m, dst.drop_last()),
        move_target_ok(m, src, dst),
        src != dst,
    ensures
        ({
            let m2 = graft_map(
                prune_map(with_dirs(m, dst.drop_last()), src),
                restrict_map(m, src),
                src,
                dst,
            );
            &&& !m2.dom().contains(src)
            &&& m2.dom().contains(dst)
            &&& m2[dst] == m[src]
            &&& forall|l: int| 1 <= l < dst.len() ==> lookup(m2, dst.take(l)) == Some(
                NodeView::Dir,
            )
        }),
{
    let wd = with_dirs(m, dst.drop_last());
    let base = prune_map(wd, src);
    let sub = restrict_map(m, src);
    let m2 = graft_map(base, sub, src, dst);
    assert(src.take(src.len() as int) =~= src);
    assert(is_prefix_of(src, src));
    assert(!base.dom().contains(src));
    assert(dst.take(dst.len() as int) =~= dst);
    assert(is_prefix_of(dst, dst));
    assert(src + dst.skip(dst.len() as int) =~= src);
    assert(sub.dom().contains(src) && sub[src] == m[src]);
    assert(m2.dom().contains(dst) && m2[dst] == m[src]);
    assert(!is_prefix_of(dst, src));
    assert(!m2.dom().contains(src));
    assert forall|l: int| 1 <= l < dst.len() implies lookup(m2, dst.take(l)) == Some(
        NodeView::Dir,
    ) by {
        let q = dst.take(l);
        assert(dst.drop_last().take(l) =~= q);
        assert(is_prefix_of(q, dst.drop_last()));
        assert(wd.dom().contains(q));
        if m.dom().contains(q) {
            assert(!is_file_at(m, dst.drop_last().take(l)));
            assert(m[q] is Dir);
        }
        assert(wd[q] == NodeView::Dir);
        if is_prefix_of(src, q) {
            crate::paths::lemma_parent_is_prefix(dst);
            crate::paths::lemma_prefix_transitive(src, q, dst.drop_last());
            crate::paths::lemma_prefix_transitive(src, dst.drop_last(), dst);
            assert(false);
        }
        assert(base.dom().contains(q) && base[q] == NodeView::Dir);
        assert(!(is_prefix_of(dst, q) && sub.dom().contains(src + q.skip(dst.len() as int))));
        assert(m2[q] == NodeView::Dir);
    }
}

/// A successful copy reproduces every entry of the source tree under the
/// destination with identical contents.
pub proof fn lemma_copy_reproduces(
    m: Map<PathView, NodeView>,
    src: PathView,
    dst: PathView,
    rest: PathView,
)
    requires
        src.len() >= 1,
        dst.len() >= 1,
        m.dom().contains(src + rest),
    ensures
        ({
            let m2 = graft_map(with_dirs(m, dst.drop_last()), restrict_map(m, src), src, dst);
            &&& m2.dom().contains(dst + rest)
            &&& m2[dst + rest] == m[src + rest]
        }),
{
    let sub = restrict_map(m, src);
    let m2 = graft_map(with_dirs(m, dst.drop_last()), sub, src, dst);
    let kk = dst + rest;
    assert((src + rest).take(src.len() as int) =~= src);
    assert(is_prefix_of(src, src + rest));
    assert(sub.dom().contains(src + rest) && sub[src + rest] == m[src + rest]);
    assert(kk.take(dst.len() as int) =~= dst);
    assert(is_prefix_of(dst, kk));
    assert(kk.skip(dst.len() as int) =~= rest);
    assert(src + kk.skip(dst.len() as int) =~= src + rest);
    assert(m2.dom().contains(kk) && m2[kk] == m[src + rest]);
}

/// A fresh copy of a byte vector.
fn clone_bytes(v: &Vec<u8>) -> (r: Vec<u8>)
    ensures
        r@ == v@,
{
    let mut r: Vec<u8> = Vec::new();
    let mut i: usize = 0;
    while i < v.len()
        invariant
            i <= v@.len(),
            r@ =~= v@.take(i as int),
        decreases v@.len() - i,
    {
        r.push(v[i]);
        i += 1;
    }
    proof {
        assert(v@.take(v@.len() as int) =~= v@);
    }
    r
}

} // verus!
