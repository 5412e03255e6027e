//! The index: the commit graph, by position.
use crate::commit::CommitId;
use crate::graph::{
    all_ancestors, has_id, heads_of, in_graph, is_ancestor, is_parent, lemma_ancestor_below,
    lemma_ancestor_transitive, lemma_ancestors_in_graph, lemma_last_step, lemma_parent_below,
    lemma_position, position_of, valid_graph, Graph, Vertex,
};
use crate::hexadecimal::{begins_with, HexPrefix};
use crate::positions::{elements, lemma_elements_push, lists_descending, PositionSet};
use std::collections::HashSet;
use vstd::prelude::*;

verus! {

struct IndexRecord {
    commit_id: CommitId,
    parents: Vec<u32>,
    is_pruned: bool,
}

/// The commits of a repository, numbered so that parents come before children.
pub struct Index {
    records: Vec<IndexRecord>,
}

spec fn vertex(record: IndexRecord) -> Vertex {
    Vertex {
        id: record.commit_id@,
        parents: Seq::new(record.parents@.len(), |k: int| record.parents@[k] as int),
        pruned: record.is_pruned,
    }
}

impl View for Index {
    type V = Graph;

    closed spec fn view(&self) -> Graph {
        Seq::new(self.records@.len(), |i: int| vertex(self.records@[i]))
    }
}

/// Where each of the commits `ids` stands in `g`.
pub open spec fn positions_of(g: Graph, ids: Seq<CommitId>) -> Seq<int> {
    Seq::new(ids.len(), |k: int| position_of(g, ids[k]@))
}

/// Whether all the commits `ids` are in `g`.
pub open spec fn has_ids(g: Graph, ids: Seq<CommitId>) -> bool {
    forall|k: int| 0 <= k < ids.len() ==> has_id(g, #[trigger] ids[k]@)
}

/// What a prefix of an id stands for.
#[derive(Debug)]
pub enum PrefixResolution {
    NoMatch,
    SingleMatch(CommitId),
    AmbiguousMatch,
}

/// Whether the id of the commit at `p` begins with `prefix`.
pub open spec fn matches_at(g: Graph, prefix: Seq<char>, p: int) -> bool {
    0 <= p < g.len() && begins_with(g[p].id, prefix)
}

/// Whether `r` is what `prefix` stands for in `g`.
pub open spec fn is_resolution(g: Graph, prefix: Seq<char>, r: PrefixResolution) -> bool {
    match r {
        PrefixResolution::NoMatch => forall|p: int| !#[trigger] matches_at(g, prefix, p),
        PrefixResolution::SingleMatch(id) => exists|p: int| #[trigger]
            matches_at(g, prefix, p) && id@ == g[p].id && forall|q: int| #[trigger]
                matches_at(g, prefix, q) ==> q == p,
        PrefixResolution::AmbiguousMatch => exists|p: int, q: int| #[trigger]
            matches_at(g, prefix, p) && #[trigger] matches_at(g, prefix, q) && p != q,
    }
}

impl Index {
    #[verifier::type_invariant]
    pub open spec fn inv(self) -> bool {
        valid_graph(self@)
    }

    /// The index of no commits.
    pub fn new() -> (r: Index)
        ensures
            r@.len() == 0,
    {
        Index { records: Vec::new() }
    }

    /// Adds a commit whose parents are in the index, at the next position.
    /// Changes nothing where the commit is there already, where a parent is
    /// missing, or where no position is left.
    pub fn add_commit_data(
        &mut self,
        commit_id: CommitId,
        is_pruned: bool,
        parent_ids: &Vec<CommitId>,
    ) -> (r: Option<u32>)
        ensures
            r is Some <==> !has_id(old(self)@, commit_id@) && has_ids(old(self)@, parent_ids@)
                && old(self)@.len() < u32::MAX,
            r is None ==> final(self)@ == old(self)@,
            r matches Some(p) ==> {
                &&& p == old(self)@.len()
                &&& final(self)@ == old(self)@.push(
                    Vertex {
                        id: commit_id@,
                        parents: positions_of(old(self)@, parent_ids@),
                        pruned: is_pruned,
                    },
                )
            },
    {
        proof {
            use_type_invariant(&*self);
        }
        let ghost g = self@;
        if self.records.len() >= 0xffff_ffff || self.commit_id_to_pos(&commit_id).is_some() {
            return None;
        }
        let mut parents: Vec<u32> = Vec::new();
        let mut k: usize = 0;
        while k < parent_ids.len()
            invariant
                self@ == g,
                k <= parent_ids@.len(),
                parents@.len() == k,
                forall|j: int| 0 <= j < k ==> has_id(g, #[trigger] parent_ids@[j]@),
                forall|j: int|
                    0 <= j < k ==> #[trigger] parents@[j] == position_of(g, parent_ids@[j]@),
            decreases parent_ids@.len() - k,
        {
            match self.commit_id_to_pos(&parent_ids[k]) {
                Some(p) => {
                    parents.push(p);
                },
                None => {
                    assert(!has_id(g, parent_ids@[k as int]@));
                    return None;
                },
            }
            k += 1;
        }
        let position = self.records.len() as u32;
        let mut records: Vec<IndexRecord> = Vec::new();
        std::mem::swap(&mut records, &mut self.records);
        let ghost record = IndexRecord { commit_id, parents, is_pruned };
        records.push(IndexRecord { commit_id, parents, is_pruned });
        proof {
            let added = vertex(record);
            let after = g.push(added);
            assert(added.parents =~= positions_of(g, parent_ids@));
            assert(Seq::new(records@.len(), |i: int| vertex(records@[i])) =~= after);
            assert forall|d: int, k: int|
                0 <= d < after.len() && 0 <= k < after[d].parents.len() implies 0
                <= #[trigger] after[d].parents[k] < d by {
                if d < g.len() {
                    assert(after[d] == g[d]);
                    assert(0 <= g[d].parents[k] < d);
                } else {
                    assert(has_id(g, parent_ids@[k]@));
                }
            }
            assert forall|i: int, j: int|
                0 <= i < j < after.len() implies #[trigger] after[i].id != #[trigger] after[j].id by {
                if j < g.len() {
                    assert(g[i].id != g[j].id);
                } else {
                    assert(g[i] == after[i]);
                }
            }
            assert(valid_graph(after));
        }
        self.records = records;
        Some(position)
    }

    fn commit_id_to_pos(&self, id: &CommitId) -> (r: Option<u32>)
        ensures
            r is Some <==> has_id(self@, id@),
            r matches Some(p) ==> {
                &&& p == position_of(self@, id@)
                &&& 0 <= p < self@.len()
                &&& self@[p as int].id == id@
            },
    {
        proof {
            use_type_invariant(self);
        }
        for i in 0..self.records.len()
            invariant
                valid_graph(self@),
                self@.len() == self.records@.len(),
                forall|p: int| 0 <= p < i ==> (#[trigger] self@[p]).id != id@,
        {
            assert(self@[i as int] == vertex(self.records@[i as int]));
            if self.records[i].commit_id.same(id) {
                proof {
                    lemma_position(self@, i as int);
                }
                return Some(i as u32);
            }
        }
        None
    }

    /// The entry of the commit `id`.
    pub fn entry_by_id(&self, id: &CommitId) -> (r: Option<IndexEntry<'_>>)
        ensures
            r is Some <==> has_id(self@, id@),
            r matches Some(entry) ==> entry.graph() == self@ && entry.pos() == position_of(
                self@,
                id@,
            ),
    {
        match self.commit_id_to_pos(id) {
            Some(position) => Some(IndexEntry { index: self, position }),
            None => None,
        }
    }

    /// The entry at `position`.
    pub fn entry_by_pos(&self, position: u32) -> (r: IndexEntry<'_>)
        requires
            position < self@.len(),
        ensures
            r.graph() == self@,
            r.pos() == position,
    {
        IndexEntry { index: self, position }
    }

    /// Which commit's id begins with `prefix`.
    pub fn resolve_prefix(&self, prefix: &HexPrefix) -> (r: PrefixResolution)
        ensures
            is_resolution(self@, prefix@, r),
    {
        let mut found: Option<usize> = None;
        for i in 0..self.records.len()
            invariant
                self@.len() == self.records@.len(),
                match found {
                    Some(p) => p < i && matches_at(self@, prefix@, p as int) && forall|q: int|
                        q < i && #[trigger] matches_at(self@, prefix@, q) ==> q == p,
                    None => forall|q: int| q < i ==> !#[trigger] matches_at(self@, prefix@, q),
                },
        {
            assert(self@[i as int] == vertex(self.records@[i as int]));
            if prefix.matches(&self.records[i].commit_id) {
                assert(matches_at(self@, prefix@, i as int));
                if found.is_some() {
                    return PrefixResolution::AmbiguousMatch;
                }
                found = Some(i);
            } else {
                assert(!matches_at(self@, prefix@, i as int));
            }
        }
        match found {
            Some(p) => {
                assert(self@[p as int] == vertex(self.records@[p as int]));
                PrefixResolution::SingleMatch(self.records[p].commit_id.clone())
            },
            None => PrefixResolution::NoMatch,
        }
    }
}

/// A commit in an index.
#[derive(Clone, Copy)]
pub struct IndexEntry<'repo> {
    index: &'repo Index,
    position: u32,
}

impl<'repo> IndexEntry<'repo> {
    #[verifier::type_invariant]
    closed spec fn inv(self) -> bool {
        0 <= self.position < self.index@.len()
    }

    /// The graph that the commit is in.
    pub closed spec fn graph(&self) -> Graph {
        self.index@
    }

    /// The position of the commit.
    pub closed spec fn pos(&self) -> int {
        self.position as int
    }

    /// The position of the commit.
    pub fn position(&self) -> (r: u32)
        ensures
            r == self.pos(),
            r < self.graph().len(),
            valid_graph(self.graph()),
    {
        proof {
            use_type_invariant(self);
            use_type_invariant(self.index);
        }
        self.position
    }

    /// The id of the commit.
    pub fn commit_id(&self) -> (r: CommitId)
        ensures
            r@ == self.graph()[self.pos()].id,
    {
        proof {
            use_type_invariant(self);
        }
        let record = &self.index.records[self.position as usize];
        assert(self.graph()[self.pos()] == vertex(*record));
        record.commit_id.clone()
    }

    /// Whether the commit is pruned.
    pub fn is_pruned(&self) -> (r: bool)
        ensures
            r == self.graph()[self.pos()].pruned,
    {
        proof {
            use_type_invariant(self);
        }
        let record = &self.index.records[self.position as usize];
        assert(self.graph()[self.pos()] == vertex(*record));
        record.is_pruned
    }

    /// The parents of the commit.
    pub fn parents(&self) -> (r: Vec<IndexEntry<'repo>>)
        ensures
            r@.len() == self.graph()[self.pos()].parents.len(),
            forall|k: int|
                0 <= k < r@.len() ==> (#[trigger] r@[k]).graph() == self.graph() && r@[k].pos()
                    == self.graph()[self.pos()].parents[k] && 0 <= r@[k].pos() < self.pos(),
            self.pos() < self.graph().len(),
    {
        proof {
            use_type_invariant(self);
            use_type_invariant(self.index);
        }
        let index: &'repo Index = self.index;
        let record = &index.records[self.position as usize];
        let ghost v = self.graph()[self.pos()];
        assert(v == vertex(*record));
        let mut r: Vec<IndexEntry<'repo>> = Vec::new();
        for k in 0..record.parents.len()
            invariant
                valid_graph(index@),
                self.graph() == index@,
                0 <= self.pos() < index@.len(),
                v == index@[self.pos()],
                v == vertex(*record),
                r@.len() == k,
                forall|j: int|
                    0 <= j < k ==> (#[trigger] r@[j]).graph() == index@ && r@[j].pos()
                        == v.parents[j] && 0 <= r@[j].pos() < self.pos(),
        {
            assert(0 <= v.parents[k as int] < self.pos());
            r.push(IndexEntry { index, position: record.parents[k] });
        }
        r
    }
}

/// The positions of the commits `ids`.
pub open spec fn id_positions(g: Graph, ids: Seq<CommitId>) -> Set<int> {
    Set::new(
        |p: int| exists|k: int| 0 <= k < ids.len() && position_of(g, #[trigger] ids[k]@) == p,
    )
}

/// A set of 32-bit positions, as a set of integers.
pub open spec fn wide(s: Set<u32>) -> Set<int> {
    Set::new(|p: int| 0 <= p <= u32::MAX && s.contains(p as u32))
}

/// A walk over commits and their ancestors, from the highest position to the lowest.
pub struct RevWalk<'repo> {
    index: &'repo Index,
    frontier: PositionSet,
}

impl<'repo> RevWalk<'repo> {
    #[verifier::type_invariant]
    closed spec fn inv(self) -> bool {
        self.frontier.wf() && in_graph(self.index@, self.frontier@)
    }

    /// The graph that is walked.
    pub closed spec fn graph(&self) -> Graph {
        self.index@
    }

    /// The commits that are still to come.
    pub closed spec fn remaining(&self) -> Set<int> {
        all_ancestors(self.index@, self.frontier@)
    }

    /// The next commit of the walk.
    pub fn next(&mut self) -> (r: Option<IndexEntry<'repo>>)
        ensures
            final(self).graph() == old(self).graph(),
            r is None <==> old(self).remaining() == Set::<int>::empty(),
            r is None ==> final(self).remaining() == old(self).remaining(),
            r matches Some(entry) ==> {
                &&& entry.graph() == old(self).graph()
                &&& 0 <= entry.pos() < entry.graph().len()
                &&& old(self).remaining().contains(entry.pos())
                &&& forall|q: int| #[trigger] old(self).remaining().contains(q) ==> q <= entry.pos()
                &&& final(self).remaining() == old(self).remaining().remove(entry.pos())
            },
    {
        proof {
            use_type_invariant(&*self);
            use_type_invariant(self.index);
        }
        let index: &'repo Index = self.index;
        let ghost g = index@;
        let ghost before = self.frontier@;
        let mut frontier = PositionSet::new();
        std::mem::swap(&mut frontier, &mut self.frontier);
        match frontier.pop_max() {
            None => {
                proof {
                    assert(all_ancestors(g, before) =~= Set::<int>::empty());
                }
                self.frontier = frontier;
                None
            },
            Some(position) => {
                let ghost top = position as int;
                let parents = &index.records[position as usize].parents;
                let ghost v = g[top];
                assert(v == vertex(index.records@[top]));
                for k in 0..parents.len()
                    invariant
                        frontier.wf(),
                        valid_graph(g),
                        0 <= top < g.len(),
                        v == g[top],
                        v == vertex(index.records@[top]),
                        parents == &index.records@[top].parents,
                        forall|p: int| #[trigger]
                            frontier@.contains(p) <==> (before.remove(top).contains(p) || exists|j: int|
                                0 <= j < k && #[trigger] v.parents[j] == p),
                {
                    assert(v.parents[k as int] == parents@[k as int]);
                    frontier.insert(parents[k]);
                }
                proof {
                    let after = frontier@;
                    assert(in_graph(g, after)) by {
                        assert forall|p: int| #[trigger] after.contains(p) implies 0 <= p < g.len() by {
                            if !before.contains(p) {
                                assert(is_parent(g, p, top));
                            }
                        }
                    }
                    assert(is_ancestor(g, top, top));
                    assert(all_ancestors(g, before).contains(top));
                    assert forall|q: int| #[trigger] all_ancestors(g, before).contains(q) implies q
                        <= top by {
                        let d = choose|d: int| #[trigger] before.contains(d) && is_ancestor(g, q, d);
                        lemma_ancestor_below(g, q, d);
                    }
                    lemma_frontier_step(g, before, after, top);
                }
                self.frontier = frontier;
                Some(IndexEntry { index, position })
            },
        }
    }
}

proof fn lemma_frontier_step(g: Graph, before: Set<int>, after: Set<int>, top: int)
    requires
        valid_graph(g),
        in_graph(g, before),
        before.contains(top),
        forall|q: int| #[trigger] before.contains(q) ==> q <= top,
        forall|p: int| #[trigger]
            after.contains(p) <==> (before.remove(top).contains(p) || is_parent(g, p, top)),
    ensures
        all_ancestors(g, after) == all_ancestors(g, before).remove(top),
{
    assert forall|a: int|
        all_ancestors(g, after).contains(a) == all_ancestors(g, before).remove(top).contains(a) by {
        if all_ancestors(g, after).contains(a) {
            let d = choose|d: int| #[trigger] after.contains(d) && is_ancestor(g, a, d);
            if before.contains(d) && d != top {
                lemma_ancestor_below(g, a, d);
            } else {
                lemma_parent_below(g, d, top);
                lemma_ancestor_below(g, a, d);
                lemma_ancestor_transitive(g, a, d, top);
                assert(before.contains(top));
            }
        }
        if all_ancestors(g, before).contains(a) && a != top {
            let d = choose|d: int| #[trigger] before.contains(d) && is_ancestor(g, a, d);
            if d != top {
                assert(after.contains(d));
            } else {
                let p = choose|p: int|
                    0 <= p < d && #[trigger] is_parent(g, p, d) && is_ancestor(g, a, p);
                assert(after.contains(p));
            }
        }
    }
    assert(all_ancestors(g, after) =~= all_ancestors(g, before).remove(top));
}

impl<'repo> Clone for RevWalk<'repo> {
    fn clone(&self) -> (r: RevWalk<'repo>)
        ensures
            r.graph() == self.graph(),
            r.remaining() == self.remaining(),
            valid_graph(r.graph()),
            in_graph(r.graph(), r.remaining()),
    {
        proof {
            use_type_invariant(self);
            use_type_invariant(self.index);
            lemma_ancestors_in_graph(self.index@, self.frontier@);
        }
        RevWalk { index: self.index, frontier: self.frontier.clone() }
    }
}

impl Index {
    /// The walk over the commits `wanted` and their ancestors.
    pub fn walk_revs(&self, wanted: &Vec<CommitId>) -> (r: RevWalk<'_>)
        requires
            has_ids(self@, wanted@),
        ensures
            r.graph() == self@,
            r.remaining() == all_ancestors(self@, id_positions(self@, wanted@)),
    {
        let mut frontier = PositionSet::new();
        for k in 0..wanted.len()
            invariant
                frontier.wf(),
                has_ids(self@, wanted@),
                in_graph(self@, frontier@),
                forall|p: int| #[trigger]
                    frontier@.contains(p) <==> exists|j: int|
                        0 <= j < k && position_of(self@, #[trigger] wanted@[j]@) == p,
        {
            assert(has_id(self@, wanted@[k as int]@));
            match self.commit_id_to_pos(&wanted[k]) {
                Some(position) => {
                    frontier.insert(position);
                },
                None => {},
            }
        }
        assert(frontier@ =~= id_positions(self@, wanted@));
        RevWalk { index: self, frontier }
    }

    /// The commits among `candidates` that are not ancestors of others among
    /// them, from the highest position to the lowest.
    pub fn heads(&self, candidates: &HashSet<u32>) -> (r: Vec<u32>)
        requires
            in_graph(self@, wide(candidates@)),
        ensures
            lists_descending(r@, heads_of(self@, wide(candidates@))),
    {
        broadcast use vstd::std_specs::hash::group_hash_axioms;

        proof {
            use_type_invariant(self);
        }
        let ghost g = self@;
        let ghost s = wide(candidates@);
        let n: usize = self.records.len();
        let mut covered: Vec<bool> = Vec::new();
        let mut k: usize = 0;
        while k < n
            invariant
                k <= n,
                covered@.len() == k,
                forall|j: int| 0 <= j < k ==> !#[trigger] covered@[j],
            decreases n - k,
        {
            covered.push(false);
            k += 1;
        }
        let mut r: Vec<u32> = Vec::new();
        let mut i: usize = n;
        while i > 0
            invariant
                n == g.len() == self.records@.len(),
                g == self@,
                valid_graph(g),
                s == wide(candidates@),
                in_graph(g, s),
                i <= n,
                covered@.len() == n,
                forall|p: int| i <= p < n ==> #[trigger] covered@[p] == is_covered(g, s, p),
                forall|j: int|
                    0 <= j < i ==> #[trigger] covered@[j] == marked(g, s, covered@, i as int, j),
                forall|a: int, b: int| 0 <= a < b < r@.len() ==> #[trigger] r@[a] > #[trigger] r@[b],
                forall|a: int| 0 <= a < r@.len() ==> #[trigger] r@[a] >= i,
                forall|p: int| #[trigger]
                    elements(r@).contains(p) <==> i <= p < n && heads_of(g, s).contains(p),
            decreases i,
        {
            i -= 1;
            let ghost before = covered@;
            let ghost top = i as int;
            proof {
                lemma_marked_is_covered(g, s, before, top);
            }
            let is_candidate = candidates.contains(&(i as u32));
            assert(is_candidate == s.contains(top));
            let is_head = is_candidate && !covered[i];
            assert(is_head == heads_of(g, s).contains(top));
            if is_head {
                let ghost listed = r@;
                r.push(i as u32);
                proof {
                    lemma_elements_push(listed, i as u32);
                }
            }
            if is_candidate || covered[i] {
                let parents = &self.records[i].parents;
                let ghost v = g[top];
                assert(v == vertex(self.records@[top]));
                for k in 0..parents.len()
                    invariant
                        valid_graph(g),
                        0 <= top < g.len(),
                        v == g[top],
                        v == vertex(self.records@[top]),
                        parents == &self.records@[top].parents,
                        covered@.len() == before.len() == g.len(),
                        forall|j: int| top <= j < g.len() ==> #[trigger] covered@[j] == before[j],
                        forall|j: int|
                            0 <= j < top ==> #[trigger] covered@[j] == (before[j] || exists|m: int|
                                0 <= m < k && #[trigger] v.parents[m] == j),
                {
                    assert(v.parents[k as int] == parents@[k as int]);
                    assert(0 <= v.parents[k as int] < top);
                    covered.set(parents[k] as usize, true);
                }
            }
            proof {
                assert forall|j: int| 0 <= j < top implies #[trigger] covered@[j] == (before[j] || ((
                s.contains(top) || before[top]) && is_parent(g, j, top))) by {}
                assert forall|j: int| 0 <= j < top implies #[trigger] covered@[j] == marked(
                    g,
                    s,
                    covered@,
                    top,
                    j,
                ) by {
                    assert(before[j] == marked(g, s, before, top + 1, j));
                    if marked(g, s, before, top + 1, j) {
                        let p = choose|p: int|
                            top + 1 <= p < g.len() && (s.contains(p) || before[p])
                                && #[trigger] is_parent(g, j, p);
                        assert(covered@[p] == before[p]);
                        assert(marked(g, s, covered@, top, j));
                    } else if (s.contains(top) || before[top]) && is_parent(g, j, top) {
                        assert(covered@[top] == before[top]);
                        assert(marked(g, s, covered@, top, j));
                    }
                    if marked(g, s, covered@, top, j) {
                        let p = choose|p: int|
                            top <= p < g.len() && (s.contains(p) || covered@[p])
                                && #[trigger] is_parent(g, j, p);
                        assert(covered@[p] == before[p]);
                    }
                }
            }
        }
        assert(elements(r@) =~= heads_of(g, s));
        r
    }
}

proof fn lemma_marked_is_covered(g: Graph, s: Set<int>, covered: Seq<bool>, top: int)
    requires
        valid_graph(g),
        in_graph(g, s),
        0 <= top < g.len(),
        covered.len() == g.len(),
        forall|p: int| top < p < g.len() ==> #[trigger] covered[p] == is_covered(g, s, p),
    ensures
        marked(g, s, covered, top + 1, top) == is_covered(g, s, top),
{
    if marked(g, s, covered, top + 1, top) {
        let p = choose|p: int|
            top + 1 <= p < g.len() && (s.contains(p) || covered[p]) && #[trigger] is_parent(g, top, p);
        lemma_parent_below(g, top, p);
        if s.contains(p) {
            assert(is_covered(g, s, top));
        } else {
            assert(is_covered(g, s, p));
            let q = choose|q: int| #[trigger] s.contains(q) && q != p && is_ancestor(g, p, q);
            lemma_ancestor_transitive(g, top, p, q);
            lemma_ancestor_below(g, p, q);
        }
    }
    if is_covered(g, s, top) {
        let q = choose|q: int| #[trigger] s.contains(q) && q != top && is_ancestor(g, top, q);
        let p = lemma_last_step(g, top, q);
        if p != q {
            assert(is_covered(g, s, p));
            assert(covered[p]);
        }
    }
}

/// Whether the commit at `p` is a proper ancestor of one in `s`.
spec fn is_covered(g: Graph, s: Set<int>, p: int) -> bool {
    exists|q: int| #[trigger] s.contains(q) && q != p && is_ancestor(g, p, q)
}

/// Whether the commit at `j` is a parent of one at `i` or above that is in `s`
/// or covered.
spec fn marked(g: Graph, s: Set<int>, covered: Seq<bool>, i: int, j: int) -> bool {
    exists|p: int| i <= p < g.len() && (s.contains(p) || covered[p]) && #[trigger] is_parent(g, j, p)
}

} // verus!
