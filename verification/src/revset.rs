//! Evaluating revset expressions.
use crate::commit::CommitId;
use crate::expression::{ExpressionModel, RevsetExpression};
use crate::graph::{
    all_ancestors, all_parents, has_id, heads_of, in_graph, is_parent, lemma_position,
    lemma_surface_insert, lemma_weight_step, position_of, surface, surfaces, total_weight,
    valid_graph, Graph,
};
use crate::index::{has_ids, id_positions, wide, Index, IndexEntry, RevWalk};
use crate::positions::{elements, lemma_elements_push, sort_descending};
use crate::repo::{id_set, RepoModel, RepoRef};
use crate::resolve::{resolution, resolve_symbol, RevsetError, RevsetErrorModel};
use crate::text::{occurs, text_contains};
use std::collections::HashSet;
use vstd::prelude::*;

verus! {

/// The positions of the entries.
pub open spec fn entry_positions(entries: Seq<IndexEntry<'_>>) -> Set<int> {
    Set::new(|p: int| exists|i: int| 0 <= i < entries.len() && #[trigger] entries[i].pos() == p)
}

/// Whether all entries are commits of the graph `g`.
pub open spec fn entries_in(entries: Seq<IndexEntry<'_>>, g: Graph) -> bool {
    forall|i: int|
        #![trigger entries[i].graph()]
        #![trigger entries[i].pos()]
        0 <= i < entries.len() ==> entries[i].graph() == g && 0 <= entries[i].pos() < g.len()
}

/// Whether the entries are the commits of `g` in `s`, each once, from the
/// highest position to the lowest.
pub open spec fn lists_entries(entries: Seq<IndexEntry<'_>>, g: Graph, s: Set<int>) -> bool {
    &&& entries_in(entries, g)
    &&& forall|i: int, j: int|
        0 <= i < j < entries.len() ==> #[trigger] entries[i].pos() > #[trigger] entries[j].pos()
    &&& entry_positions(entries) == s
}

/// A set of commits.
pub trait Revset<'repo> {
    /// Whether iterating gives `entries`.
    spec fn yields(&self, entries: Seq<IndexEntry<'repo>>) -> bool;

    /// The commits of the set, in order.
    fn iter(&self) -> (r: Vec<IndexEntry<'repo>>)
        ensures
            self.yields(r@),
    ;
}

/// Whether `set` is the set of commits `s` of `g`, from the highest position to the lowest.
pub open spec fn lists<'repo, R: Revset<'repo>>(set: R, g: Graph, s: Set<int>) -> bool {
    forall|entries: Seq<IndexEntry<'repo>>| #[trigger]
        set.yields(entries) ==> lists_entries(entries, g, s)
}

/// A set of commits that is held in memory.
pub struct EagerRevset<'repo> {
    index_entries: Vec<IndexEntry<'repo>>,
}

impl<'repo> EagerRevset<'repo> {
    /// The commits of the set, in order.
    pub closed spec fn entries(&self) -> Seq<IndexEntry<'repo>> {
        self.index_entries@
    }
}

impl<'repo> Revset<'repo> for EagerRevset<'repo> {
    open spec fn yields(&self, entries: Seq<IndexEntry<'repo>>) -> bool {
        entries == self.entries()
    }

    fn iter(&self) -> (r: Vec<IndexEntry<'repo>>)
        ensures
            r@ == self.entries(),
    {
        let mut r: Vec<IndexEntry<'repo>> = Vec::new();
        for k in 0..self.index_entries.len()
            invariant
                r@ == self.index_entries@.take(k as int),
        {
            r.push(self.index_entries[k]);
        }
        assert(r@ =~= self.index_entries@);
        r
    }
}

/// A set of commits that a walk goes over.
pub struct RevWalkRevset<'repo> {
    walk: RevWalk<'repo>,
}

impl<'repo> RevWalkRevset<'repo> {
    /// The graph that is walked.
    pub closed spec fn graph(&self) -> Graph {
        self.walk.graph()
    }

    /// The commits that the walk goes over.
    pub closed spec fn remaining(&self) -> Set<int> {
        self.walk.remaining()
    }
}

impl<'repo> Revset<'repo> for RevWalkRevset<'repo> {
    open spec fn yields(&self, entries: Seq<IndexEntry<'repo>>) -> bool {
        lists_entries(entries, self.graph(), self.remaining())
    }

    fn iter(&self) -> (r: Vec<IndexEntry<'repo>>)
        ensures
            lists_entries(r@, self.graph(), self.remaining()),
    {
        let mut iterator = RevWalkRevsetIterator { walk: self.walk.clone() };
        let mut r: Vec<IndexEntry<'repo>> = Vec::new();
        let ghost g = self.walk.graph();
        let ghost all = self.walk.remaining();
        let ghost mut bound: int = u32::MAX as int + 1;
        loop
            invariant
                iterator.walk.graph() == g,
                entries_in(r@, g),
                forall|i: int, j: int|
                    0 <= i < j < r@.len() ==> #[trigger] r@[i].pos() > #[trigger] r@[j].pos(),
                forall|i: int, q: int|
                    0 <= i < r@.len() && #[trigger] iterator.walk.remaining().contains(q)
                        ==> #[trigger] r@[i].pos() > q,
                forall|p: int| #[trigger]
                    all.contains(p) <==> iterator.walk.remaining().contains(p)
                        || entry_positions(r@).contains(p),
                forall|q: int| #[trigger] iterator.walk.remaining().contains(q) ==> q < bound,
                bound >= 0,
                g == self.walk.graph(),
                all == self.walk.remaining(),
            decreases bound,
        {
            let ghost before = r@;
            let ghost remaining = iterator.walk.remaining();
            match iterator.next() {
                Some(entry) => {
                    let position = entry.position();
                    r.push(entry);
                    proof {
                        lemma_entries_push(before, entry);
                        bound = position as int;
                    }
                },
                None => {
                    assert(entry_positions(r@) =~= all);
                    return r;
                },
            }
        }
    }
}

/// Goes over the commits of a walk.
pub struct RevWalkRevsetIterator<'repo> {
    walk: RevWalk<'repo>,
}

impl<'repo> RevWalkRevsetIterator<'repo> {
    /// The graph that is walked.
    pub closed spec fn graph(&self) -> Graph {
        self.walk.graph()
    }

    /// The commits that are still to come.
    pub closed spec fn remaining(&self) -> Set<int> {
        self.walk.remaining()
    }

    /// The next commit.
    pub fn next(&mut self) -> (r: Option<IndexEntry<'repo>>)
        ensures
            final(self).graph() == old(self).graph(),
            r is None <==> old(self).remaining() == Set::<int>::empty(),
            r is None ==> final(self).remaining() == old(self).remaining(),
            r matches Some(entry) ==> {
                &&& entry.graph() == old(self).graph()
                &&& 0 <= entry.pos() < entry.graph().len()
                &&& old(self).remaining().contains(entry.pos())
                &&& forall|q: int| #[trigger] old(self).remaining().contains(q) ==> q <= entry.pos()
                &&& final(self).remaining() == old(self).remaining().remove(entry.pos())
            },
    {
        self.walk.next()
    }
}

proof fn lemma_entries_push(entries: Seq<IndexEntry<'_>>, entry: IndexEntry<'_>)
    ensures
        entry_positions(entries.push(entry)) == entry_positions(entries).insert(entry.pos()),
{
    let after = entries.push(entry);
    assert forall|p: int|
        entry_positions(after).contains(p) == entry_positions(entries).insert(
            entry.pos(),
        ).contains(p) by {
        if entry_positions(entries).contains(p) {
            let i = choose|i: int| 0 <= i < entries.len() && #[trigger] entries[i].pos() == p;
            assert(after[i].pos() == p);
        }
        assert(after[entries.len() as int].pos() == entry.pos());
        if entry_positions(after).contains(p) && p != entry.pos() {
            let i = choose|i: int| 0 <= i < after.len() && #[trigger] after[i].pos() == p;
            assert(entries[i].pos() == p);
        }
    }
    assert(entry_positions(after) =~= entry_positions(entries).insert(entry.pos()));
}

/// The value of evaluating an expression.
pub enum EvaluatedRevset<'repo> {
    Eager(EagerRevset<'repo>),
    RevWalk(RevWalkRevset<'repo>),
}

impl<'repo> Revset<'repo> for EvaluatedRevset<'repo> {
    open spec fn yields(&self, entries: Seq<IndexEntry<'repo>>) -> bool {
        match self {
            EvaluatedRevset::Eager(set) => set.yields(entries),
            EvaluatedRevset::RevWalk(set) => set.yields(entries),
        }
    }

    fn iter(&self) -> (r: Vec<IndexEntry<'repo>>) {
        match self {
            EvaluatedRevset::Eager(set) => set.iter(),
            EvaluatedRevset::RevWalk(set) => set.iter(),
        }
    }
}

/// The commits that are neither pruned nor obsolete.
pub open spec fn live(repo: RepoModel) -> Set<int> {
    Set::new(
        |p: int|
            0 <= p < repo.index.len() && !repo.index[p].pruned && !repo.obsolete.contains(
                repo.index[p].id,
            ),
    )
}

/// The heads of the first live commits on the ways down from those in `s`.
pub open spec fn live_heads(repo: RepoModel, s: Set<int>) -> Set<int> {
    heads_of(repo.index, surface(repo.index, live(repo), s))
}

spec fn work_positions(work: Seq<IndexEntry<'_>>) -> Seq<int> {
    Seq::new(work.len(), |i: int| work[i].pos())
}

fn entries_at<'repo>(index: &'repo Index, positions: &Vec<u32>) -> (r: Vec<IndexEntry<'repo>>)
    requires
        forall|i: int| 0 <= i < positions@.len() ==> #[trigger] positions@[i] < index@.len(),
    ensures
        entries_in(r@, index@),
        r@.len() == positions@.len(),
        forall|i: int| 0 <= i < r@.len() ==> #[trigger] r@[i].pos() == positions@[i],
{
    let mut r: Vec<IndexEntry<'repo>> = Vec::new();
    for k in 0..positions.len()
        invariant
            forall|i: int| 0 <= i < positions@.len() ==> #[trigger] positions@[i] < index@.len(),
            entries_in(r@, index@),
            r@.len() == k,
            forall|i: int| 0 <= i < r@.len() ==> #[trigger] r@[i].pos() == positions@[i],
    {
        r.push(index.entry_by_pos(positions[k]));
    }
    r
}

/// The set of the commits at `positions`, from the highest position to the lowest.
fn eager_set<'repo>(index: &'repo Index, positions: &Vec<u32>) -> (r: EagerRevset<'repo>)
    requires
        in_graph(index@, elements(positions@)),
    ensures
        lists(r, index@, elements(positions@)),
{
    let sorted = sort_descending(positions);
    assert forall|i: int| 0 <= i < sorted@.len() implies #[trigger] sorted@[i] < index@.len() by {
        assert(elements(sorted@).contains(sorted@[i] as int));
    }
    let index_entries = entries_at(index, &sorted);
    proof {
        assert forall|p: int|
            entry_positions(index_entries@).contains(p) == elements(sorted@).contains(p) by {
            if elements(sorted@).contains(p) {
                let i = choose|i: int| 0 <= i < sorted@.len() && #[trigger] sorted@[i] == p;
                assert(index_entries@[i].pos() == p);
            }
            if entry_positions(index_entries@).contains(p) {
                let i = choose|i: int|
                    0 <= i < index_entries@.len() && #[trigger] index_entries@[i].pos() == p;
                assert(sorted@[i] == p);
            }
        }
        assert(entry_positions(index_entries@) =~= elements(positions@));
    }
    EagerRevset { index_entries }
}

/// The heads of the first commits that are neither pruned nor obsolete on the
/// ways down from `heads`.
pub fn non_obsolete_heads<'repo, R: Revset<'repo>>(repo: RepoRef<'repo>, heads: &R) -> (r:
    EagerRevset<'repo>)
    requires
        forall|entries: Seq<IndexEntry<'repo>>| #[trigger]
            heads.yields(entries) ==> entries_in(entries, repo.index@),
    ensures
        exists|entries: Seq<IndexEntry<'repo>>| #[trigger]
            heads.yields(entries) && lists(
                r,
                repo.index@,
                live_heads(repo@, entry_positions(entries)),
            ),
{
    broadcast use vstd::std_specs::hash::group_hash_axioms;

    let ghost g = repo.index@;
    let ghost alive = live(repo@);
    let mut commit_ids: HashSet<u32> = HashSet::new();
    let mut work: Vec<IndexEntry<'repo>> = heads.iter();
    let ghost start = work@;
    while work.len() > 0
        invariant
            g == repo.index@,
            alive == live(repo@),
            entries_in(work@, g),
            forall|q: u32| #[trigger] commit_ids@.contains(q) ==> alive.contains(q as int),
            forall|q: int| #[trigger]
                surface(g, alive, entry_positions(start)).contains(q) <==> (wide(
                    commit_ids@,
                ).contains(q) || surface(g, alive, entry_positions(work@)).contains(q)),
        decreases total_weight(g, work_positions(work@), g.len() as int),
    {
        let ghost before = work@;
        let index_entry = work.pop().unwrap();
        let ghost rest = work@;
        let position = index_entry.position();
        let ghost p = position as int;
        proof {
            assert(before =~= rest.push(index_entry));
            lemma_entries_push(rest, index_entry);
            assert(work_positions(before) =~= work_positions(rest).push(p));
            lemma_weight_step(g, work_positions(rest), p);
            assert forall|q: int| #[trigger]
                surface(g, alive, entry_positions(before)).contains(q) <==> surface(
                    g,
                    alive,
                    entry_positions(rest),
                ).contains(q) || surfaces(g, alive, q, p) by {
                lemma_surface_insert(g, alive, entry_positions(rest), p, q);
            }
        }
        if commit_ids.contains(&position) {
            assert(alive.contains(p));
            assert(wide(commit_ids@).contains(p));
            continue ;
        }
        let is_obsolete = repo.evolution.is_obsolete(&index_entry.commit_id());
        if !index_entry.is_pruned() && !is_obsolete {
            let ghost found = commit_ids@;
            commit_ids.insert(position);
            assert(alive.contains(p));
            assert(wide(commit_ids@) =~= wide(found).insert(p));
        } else {
            let parents = index_entry.parents();
            assert(!alive.contains(p));
            for k in 0..parents.len()
                invariant
                    entries_in(rest, g),
                    entries_in(parents@, g),
                    work@ =~= rest + parents@.take(k as int),
            {
                assert(parents@.take(k + 1) =~= parents@.take(k as int).push(parents@[k as int]));
                work.push(parents[k]);
            }
            proof {
                assert(parents@.take(parents@.len() as int) =~= parents@);
                assert(work_positions(work@) =~= work_positions(rest) + g[p].parents);
                assert forall|q: int| #[trigger]
                    surface(g, alive, entry_positions(work@)).contains(q) <==> surface(
                        g,
                        alive,
                        entry_positions(rest),
                    ).contains(q) || surfaces(g, alive, q, p) by {
                    lemma_parents_surface(g, alive, rest, parents@, p, q);
                }
            }
        }
    }
    proof {
        assert(surface(g, alive, entry_positions(work@)) =~= Set::<int>::empty());
        assert(wide(commit_ids@) =~= surface(g, alive, entry_positions(start)));
    }
    let sorted = repo.index.heads(&commit_ids);
    assert(heads.yields(start));
    eager_set(repo.index, &sorted)
}

proof fn lemma_parents_surface(
    g: Graph,
    alive: Set<int>,
    rest: Seq<IndexEntry<'_>>,
    parents: Seq<IndexEntry<'_>>,
    p: int,
    q: int,
)
    requires
        valid_graph(g),
        0 <= p < g.len(),
        !alive.contains(p),
        parents.len() == g[p].parents.len(),
        forall|k: int| 0 <= k < parents.len() ==> #[trigger] parents[k].pos() == g[p].parents[k],
    ensures
        surface(g, alive, entry_positions(rest + parents)).contains(q) <==> surface(
            g,
            alive,
            entry_positions(rest),
        ).contains(q) || surfaces(g, alive, q, p),
{
    let all = rest + parents;
    if surface(g, alive, entry_positions(all)).contains(q) {
        let h = choose|h: int| #[trigger]
            entry_positions(all).contains(h) && surfaces(g, alive, q, h);
        let i = choose|i: int| 0 <= i < all.len() && #[trigger] all[i].pos() == h;
        if i < rest.len() {
            assert(rest[i].pos() == h);
            assert(entry_positions(rest).contains(h));
        } else {
            assert(parents[i - rest.len()].pos() == h);
            assert(g[p].parents[i - rest.len()] == h);
            assert(is_parent(g, h, p));
        }
    }
    if surface(g, alive, entry_positions(rest)).contains(q) {
        let h = choose|h: int| #[trigger]
            entry_positions(rest).contains(h) && surfaces(g, alive, q, h);
        let i = choose|i: int| 0 <= i < rest.len() && #[trigger] rest[i].pos() == h;
        assert(all[i].pos() == h);
        assert(entry_positions(all).contains(h));
    }
    if surfaces(g, alive, q, p) {
        let h = choose|h: int|
            0 <= h < p && #[trigger] is_parent(g, h, p) && surfaces(g, alive, q, h);
        let k = choose|k: int| 0 <= k < g[p].parents.len() && #[trigger] g[p].parents[k] == h;
        assert(parents[k].pos() == h);
        assert(all[rest.len() + k].pos() == h);
        assert(entry_positions(all).contains(h));
    }
}

/// What an expression stands for: positions of commits, or an error.
pub type Selection = Result<Set<int>, RevsetErrorModel>;

/// The commits of `s` whose description contains `needle`.
pub open spec fn described(repo: RepoModel, needle: Seq<char>, s: Set<int>) -> Set<int> {
    s.filter(
        |p: int|
            occurs(needle, repo.store.get_commit(repo.index[p].id)->Ok_0.description),
    )
}

/// The commits that `expression` stands for in `repo`.
pub open spec fn selected(repo: RepoModel, expression: ExpressionModel) -> Selection
    decreases expression,
{
    match expression {
        ExpressionModel::Symbol(symbol) => match resolution(repo, symbol) {
            Ok(commit) => Ok(set![position_of(repo.index, commit.id)]),
            Err(error) => Err(error),
        },
        ExpressionModel::Parents(base) => match selected(repo, *base) {
            Ok(s) => Ok(all_parents(repo.index, s)),
            Err(error) => Err(error),
        },
        ExpressionModel::Ancestors(base) => match selected(repo, *base) {
            Ok(s) => Ok(all_ancestors(repo.index, s)),
            Err(error) => Err(error),
        },
        ExpressionModel::AllHeads => Ok(
            Set::new(
                |p: int| 0 <= p < repo.index.len() && repo.view.heads.contains(repo.index[p].id),
            ),
        ),
        ExpressionModel::NonObsoleteHeads(base) => match selected(repo, *base) {
            Ok(s) => Ok(live_heads(repo, s)),
            Err(error) => Err(error),
        },
        ExpressionModel::Description { needle, base_expression } => match selected(
            repo,
            *base_expression,
        ) {
            Ok(s) => Ok(described(repo, needle, s)),
            Err(error) => Err(error),
        },
    }
}

/// Whether the index has the commits that evaluating `expression` comes to, and
/// the store those whose descriptions it reads.
pub open spec fn evaluable(repo: RepoModel, expression: ExpressionModel) -> bool
    decreases expression,
{
    match expression {
        ExpressionModel::Symbol(symbol) => resolution(repo, symbol) matches Ok(commit) ==> has_id(
            repo.index,
            commit.id,
        ),
        ExpressionModel::Parents(base) => evaluable(repo, *base),
        ExpressionModel::Ancestors(base) => evaluable(repo, *base),
        ExpressionModel::AllHeads => forall|id: Seq<u8>| #[trigger]
            repo.view.heads.contains(id) ==> has_id(repo.index, id),
        ExpressionModel::NonObsoleteHeads(base) => evaluable(repo, *base),
        ExpressionModel::Description { base_expression, .. } => {
            &&& evaluable(repo, *base_expression)
            &&& selected(repo, *base_expression) matches Ok(s) ==> forall|p: int| #[trigger]
                s.contains(p) ==> repo.store.get_commit(repo.index[p].id) is Ok
        },
    }
}

/// Whether `expression` can be evaluated.
pub fn is_evaluable(repo: RepoRef<'_>, expression: &RevsetExpression) -> (r: bool)
    ensures
        r == evaluable(repo@, expression@),
    decreases expression,
{
    match expression {
        RevsetExpression::Symbol(symbol) => match resolve_symbol(repo, symbol) {
            Ok(commit) => repo.index.entry_by_id(commit.id()).is_some(),
            Err(_) => true,
        },
        RevsetExpression::Parents(base_expression) => is_evaluable(repo, base_expression),
        RevsetExpression::Ancestors(base_expression) => is_evaluable(repo, base_expression),
        RevsetExpression::AllHeads => {
            let heads = repo.view.heads();
            assert(forall|k: int|
                0 <= k < heads@.len() ==> repo@.view.heads.contains(#[trigger] heads@[k]@));
            all_indexed(repo.index, heads)
        },
        RevsetExpression::NonObsoleteHeads(base_expression) => is_evaluable(repo, base_expression),
        RevsetExpression::Description { base_expression, .. } => {
            if !is_evaluable(repo, base_expression) {
                return false;
            }
            match evaluate_expression(repo, base_expression) {
                Ok(base_set) => {
                    let entries = base_set.iter();
                    all_readable(repo, &entries)
                },
                Err(_) => true,
            }
        },
    }
}

/// Whether the index has all the commits `ids`.
fn all_indexed(index: &Index, ids: &Vec<CommitId>) -> (r: bool)
    ensures
        r == has_ids(index@, ids@),
{
    for k in 0..ids.len()
        invariant
            forall|j: int| 0 <= j < k ==> has_id(index@, #[trigger] ids@[j]@),
    {
        if index.entry_by_id(&ids[k]).is_none() {
            assert(!has_id(index@, ids@[k as int]@));
            return false;
        }
    }
    true
}

/// Whether the store gives all the commits.
fn all_readable(repo: RepoRef<'_>, entries: &Vec<IndexEntry<'_>>) -> (r: bool)
    requires
        entries_in(entries@, repo.index@),
    ensures
        r == forall|p: int| #[trigger]
            entry_positions(entries@).contains(p) ==> repo@.store.get_commit(
                repo@.index[p].id,
            ) is Ok,
{
    for k in 0..entries.len()
        invariant
            entries_in(entries@, repo.index@),
            forall|j: int|
                0 <= j < k ==> repo@.store.get_commit(
                    repo@.index[#[trigger] entries@[j].pos()].id,
                ) is Ok,
    {
        let entry = entries[k];
        assert(entry_positions(entries@).contains(entries@[k as int].pos()));
        if repo.store.get_commit(&entry.commit_id()).is_err() {
            return false;
        }
    }
    true
}

/// Whether `r` is the outcome `selection`.
pub open spec fn is_evaluation(
    r: Result<EvaluatedRevset<'_>, RevsetError>,
    g: Graph,
    selection: Selection,
) -> bool {
    match r {
        Ok(set) => selection matches Ok(s) && lists(set, g, s),
        Err(error) => selection == Err::<Set<int>, _>(error@),
    }
}

/// Evaluates an expression.
pub fn evaluate_expression<'repo>(repo: RepoRef<'repo>, expression: &RevsetExpression) -> (r:
    Result<EvaluatedRevset<'repo>, RevsetError>)
    requires
        evaluable(repo@, expression@),
    ensures
        is_evaluation(r, repo.index@, selected(repo@, expression@)),
    decreases expression,
{
    proof {
        use_type_invariant(repo.index);
    }
    let ghost g = repo.index@;
    match expression {
        RevsetExpression::Symbol(symbol) => {
            let commit = match resolve_symbol(repo, symbol) {
                Ok(commit) => commit,
                Err(error) => {
                    return Err(error);
                },
            };
            let entry = repo.index.entry_by_id(commit.id()).unwrap();
            let positions = vec![entry.position()];
            assert(positions@[0] == entry.pos());
            assert(elements(positions@) =~= set![entry.pos()]);
            Ok(EvaluatedRevset::Eager(eager_set(repo.index, &positions)))
        },
        RevsetExpression::Parents(base_expression) => {
            let base_set = match evaluate_expression(repo, base_expression) {
                Ok(set) => set,
                Err(error) => {
                    return Err(error);
                },
            };
            let positions = parent_positions(Ghost(g), &base_set.iter());
            Ok(EvaluatedRevset::Eager(eager_set(repo.index, &positions)))
        },
        RevsetExpression::Ancestors(base_expression) => {
            let base_set = match evaluate_expression(repo, base_expression) {
                Ok(set) => set,
                Err(error) => {
                    return Err(error);
                },
            };
            let base_ids = commit_ids_of(Ghost(g), &base_set.iter());
            let walk = repo.index.walk_revs(&base_ids);
            Ok(EvaluatedRevset::RevWalk(RevWalkRevset { walk }))
        },
        RevsetExpression::AllHeads => {
            let heads = repo.view.heads();
            proof {
                lemma_all_heads(repo@, heads@);
            }
            let positions = positions_by_id(repo.index, heads);
            Ok(EvaluatedRevset::Eager(eager_set(repo.index, &positions)))
        },
        RevsetExpression::NonObsoleteHeads(base_expression) => {
            let base_set = match evaluate_expression(repo, base_expression) {
                Ok(set) => set,
                Err(error) => {
                    return Err(error);
                },
            };
            Ok(EvaluatedRevset::Eager(non_obsolete_heads(repo, &base_set)))
        },
        RevsetExpression::Description { needle, base_expression } => {
            let base_set = match evaluate_expression(repo, base_expression) {
                Ok(set) => set,
                Err(error) => {
                    return Err(error);
                },
            };
            let positions = described_positions(repo, needle, &base_set.iter());
            Ok(EvaluatedRevset::Eager(eager_set(repo.index, &positions)))
        },
    }
}

proof fn lemma_all_heads(repo: RepoModel, heads: Seq<CommitId>)
    requires
        valid_graph(repo.index),
        repo.view.heads == id_set(heads),
        evaluable(repo, ExpressionModel::AllHeads),
    ensures
        has_ids(repo.index, heads),
        selected(repo, ExpressionModel::AllHeads) == Ok::<Set<int>, RevsetErrorModel>(
            id_positions(repo.index, heads),
        ),
{
    let g = repo.index;
    assert forall|k: int| 0 <= k < heads.len() implies has_id(g, #[trigger] heads[k]@) by {
        assert(repo.view.heads.contains(heads[k]@));
    }
    let s = selected(repo, ExpressionModel::AllHeads)->Ok_0;
    assert forall|p: int| s.contains(p) == id_positions(g, heads).contains(p) by {
        if s.contains(p) {
            let k = choose|k: int| 0 <= k < heads.len() && #[trigger] heads[k]@ == g[p].id;
            lemma_position(g, p);
        }
        if id_positions(g, heads).contains(p) {
            let k = choose|k: int| 0 <= k < heads.len() && position_of(g, #[trigger] heads[k]@) == p;
            assert(has_id(g, heads[k]@));
            assert(repo.view.heads.contains(heads[k]@));
        }
    }
    assert(s =~= id_positions(g, heads));
}

fn parent_positions(Ghost(g): Ghost<Graph>, entries: &Vec<IndexEntry<'_>>) -> (r: Vec<u32>)
    requires
        valid_graph(g),
        entries_in(entries@, g),
    ensures
        elements(r@) == all_parents(g, entry_positions(entries@)),
        in_graph(g, elements(r@)),
{
    let mut r: Vec<u32> = Vec::new();
    let ghost mut seen: Seq<IndexEntry<'_>> = seq![];
    for k in 0..entries.len()
        invariant
            valid_graph(g),
            entries_in(entries@, g),
            seen == entries@.take(k as int),
            in_graph(g, elements(r@)),
            elements(r@) == all_parents(g, entry_positions(seen)),
    {
        let entry = entries[k];
        let position = entry.position();
        let parents = entry.parents();
        let ghost before = r@;
        let ghost p = entry.pos();
        for j in 0..parents.len()
            invariant
                valid_graph(g),
                0 <= p < g.len(),
                entries_in(parents@, g),
                parents@.len() == g[p].parents.len(),
                forall|m: int| 0 <= m < parents@.len() ==> #[trigger] parents@[m].pos() == g[p].parents[m],
                in_graph(g, elements(r@)),
                forall|q: int| #[trigger]
                    elements(r@).contains(q) <==> elements(before).contains(q) || exists|m: int|
                        0 <= m < j && #[trigger] g[p].parents[m] == q,
        {
            let ghost listed = r@;
            let parent = parents[j].position();
            r.push(parent);
            proof {
                lemma_elements_push(listed, parent);
                assert(g[p].parents[j as int] == parent);
            }
        }
        proof {
            let after = seen.push(entry);
            lemma_entries_push(seen, entry);
            assert(entries@.take(k + 1) =~= after);
            assert forall|q: int|
                elements(r@).contains(q) == all_parents(g, entry_positions(after)).contains(q) by {
                if all_parents(g, entry_positions(after)).contains(q) {
                    let d = choose|d: int| #[trigger]
                        entry_positions(after).contains(d) && is_parent(g, q, d);
                    if d != p {
                        assert(entry_positions(seen).contains(d));
                        assert(elements(before).contains(q));
                    }
                }
                if elements(before).contains(q) {
                    let d = choose|d: int| #[trigger]
                        entry_positions(seen).contains(d) && is_parent(g, q, d);
                    assert(entry_positions(after).contains(d));
                }
                if is_parent(g, q, p) {
                    assert(entry_positions(after).contains(p));
                }
            }
            assert(elements(r@) =~= all_parents(g, entry_positions(after)));
            seen = after;
        }
    }
    assert(entries@.take(entries@.len() as int) =~= entries@);
    r
}

fn commit_ids_of(Ghost(g): Ghost<Graph>, entries: &Vec<IndexEntry<'_>>) -> (r: Vec<CommitId>)
    requires
        entries_in(entries@, g),
    ensures
        has_ids(g, r@),
        id_positions(g, r@) == entry_positions(entries@),
{
    let mut r: Vec<CommitId> = Vec::new();
    for k in 0..entries.len()
        invariant
            entries_in(entries@, g),
            r@.len() == k,
            forall|j: int|
                0 <= j < k ==> has_id(g, (#[trigger] r@[j])@) && position_of(g, r@[j]@)
                    == entries@[j].pos(),
    {
        let entry = entries[k];
        let position = entry.position();
        proof {
            lemma_position(g, position as int);
        }
        r.push(entry.commit_id());
    }
    proof {
        assert forall|p: int| id_positions(g, r@).contains(p) == entry_positions(entries@).contains(p) by {
            if id_positions(g, r@).contains(p) {
                let k = choose|k: int| 0 <= k < r@.len() && position_of(g, #[trigger] r@[k]@) == p;
                assert(entries@[k].pos() == p);
            }
            if entry_positions(entries@).contains(p) {
                let k = choose|k: int| 0 <= k < entries@.len() && #[trigger] entries@[k].pos() == p;
                assert(position_of(g, r@[k]@) == p);
            }
        }
        assert(id_positions(g, r@) =~= entry_positions(entries@));
    }
    r
}

fn positions_by_id(index: &Index, ids: &Vec<CommitId>) -> (r: Vec<u32>)
    requires
        has_ids(index@, ids@),
    ensures
        elements(r@) == id_positions(index@, ids@),
        in_graph(index@, elements(r@)),
{
    let mut r: Vec<u32> = Vec::new();
    for k in 0..ids.len()
        invariant
            has_ids(index@, ids@),
            r@.len() == k,
            forall|j: int|
                0 <= j < k ==> #[trigger] r@[j] == position_of(index@, ids@[j]@) && r@[j]
                    < index@.len(),
    {
        assert(has_id(index@, ids@[k as int]@));
        r.push(index.entry_by_id(&ids[k]).unwrap().position());
    }
    proof {
        assert forall|p: int| elements(r@).contains(p) == id_positions(index@, ids@).contains(p) by {
            if elements(r@).contains(p) {
                let k = choose|k: int| 0 <= k < r@.len() && #[trigger] r@[k] == p;
                assert(position_of(index@, ids@[k]@) == p);
            }
            if id_positions(index@, ids@).contains(p) {
                let k = choose|k: int|
                    0 <= k < ids@.len() && position_of(index@, #[trigger] ids@[k]@) == p;
                assert(r@[k] == p);
            }
        }
        assert(elements(r@) =~= id_positions(index@, ids@));
    }
    r
}

fn described_positions(repo: RepoRef<'_>, needle: &str, entries: &Vec<IndexEntry<'_>>) -> (r: Vec<
    u32,
>)
    requires
        entries_in(entries@, repo.index@),
        forall|p: int| #[trigger]
            entry_positions(entries@).contains(p) ==> repo@.store.get_commit(
                repo@.index[p].id,
            ) is Ok,
    ensures
        elements(r@) == described(repo@, needle@, entry_positions(entries@)),
        in_graph(repo.index@, elements(r@)),
{
    let mut r: Vec<u32> = Vec::new();
    let ghost g = repo.index@;
    let ghost mut seen: Seq<IndexEntry<'_>> = seq![];
    assert(elements(r@) =~= described(repo@, needle@, entry_positions(seen)));
    for k in 0..entries.len()
        invariant
            g == repo.index@,
            entries_in(entries@, g),
            forall|p: int| #[trigger]
                entry_positions(entries@).contains(p) ==> repo@.store.get_commit(
                    repo@.index[p].id,
                ) is Ok,
            seen == entries@.take(k as int),
            in_graph(g, elements(r@)),
            elements(r@) == described(repo@, needle@, entry_positions(seen)),
    {
        let entry = entries[k];
        let position = entry.position();
        let ghost p = entry.pos();
        let ghost before = r@;
        assert(entries@[k as int].pos() == p);
        assert(entry_positions(entries@).contains(p));
        let commit = repo.store.get_commit(&entry.commit_id()).unwrap();
        if text_contains(commit.description(), needle) {
            r.push(position);
        }
        proof {
            let after = seen.push(entry);
            lemma_entries_push(seen, entry);
            lemma_elements_push(before, position);
            assert(entries@.take(k + 1) =~= after);
            assert(elements(r@) =~= described(repo@, needle@, entry_positions(after)));
            seen = after;
        }
    }
    assert(entries@.take(entries@.len() as int) =~= entries@);
    r
}

} // verus!
