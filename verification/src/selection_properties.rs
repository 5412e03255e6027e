//! What each operator selects, commit by commit.
use crate::evaluation_properties::{
    ancestors_are_closed, ancestors_are_least, live_heads_are_heads_of_live_ancestors,
};
use crate::expression::ExpressionModel;
use crate::graph::{
    all_ancestors, all_parents, has_id, heads_of, in_graph, is_parent, lemma_ancestors_in_graph,
    lemma_position, valid_graph, Graph,
};
use crate::index::IndexEntry;
use crate::model_properties::{leads_down, occurring_is_being_a_run, sets_of_commits};
use crate::repo::RepoModel;
use crate::resolve::{resolution, RevsetError, RevsetErrorModel};
use crate::revset::{
    described, entries_in, entry_positions, evaluable, is_evaluation, lists, lists_entries, live,
    live_heads, selected, EagerRevset, EvaluatedRevset, RevWalkRevset, Revset, Selection,
};
use vstd::prelude::*;

verus! {

/// A symbol selects just the commit that it stands for, or fails as it fails to
/// stand for one.
pub proof fn symbols_select_one_commit(repo: RepoModel, symbol: Seq<char>, p: int)
    requires
        valid_graph(repo.index),
    ensures
        resolution(repo, symbol) matches Ok(commit) ==> 0 <= p < repo.index.len()
            && repo.index[p].id == commit.id ==> selected(repo, ExpressionModel::Symbol(symbol))
            == Ok::<_, RevsetErrorModel>(set![p]),
        resolution(repo, symbol) matches Err(error) ==> selected(
            repo,
            ExpressionModel::Symbol(symbol),
        ) == Err::<Set<int>, _>(error),
{
    if 0 <= p < repo.index.len() {
        lemma_position(repo.index, p);
    }
}

/// "Parents" selects the commits that are parents of commits that its base
/// selects, and no others.
pub proof fn parents_select_parents(repo: RepoModel, base: ExpressionModel)
    ensures
        selected(repo, base) matches Ok(s) ==> {
            &&& selected(repo, ExpressionModel::Parents(Box::new(base))) matches Ok(t)
            &&& forall|p: int| #[trigger]
                t.contains(p) <==> exists|d: int, k: int|
                    s.contains(d) && 0 <= k < repo.index[d].parents.len()
                        && p == #[trigger] repo.index[d].parents[k]
        },
{
    if let Ok(s) = selected(repo, base) {
        let g = repo.index;
        let t = all_parents(g, s);
        assert forall|p: int| #[trigger]
            t.contains(p) <==> exists|d: int, k: int|
                s.contains(d) && 0 <= k < g[d].parents.len() && p
                    == #[trigger] g[d].parents[k] by {
            if t.contains(p) {
                let d = choose|d: int| #[trigger] s.contains(d) && is_parent(g, p, d);
                let k = choose|k: int|
                    0 <= k < g[d].parents.len() && #[trigger] g[d].parents[k] == p;
                assert(s.contains(d) && p == g[d].parents[k]);
            }
            if exists|d: int, k: int|
                s.contains(d) && 0 <= k < g[d].parents.len() && p == #[trigger] g[d].parents[k] {
                let (d, k) = choose|d: int, k: int|
                    s.contains(d) && 0 <= k < g[d].parents.len() && p
                        == #[trigger] g[d].parents[k];
                assert(is_parent(g, p, d));
            }
        }
    }
}

/// "Ancestors" selects the commits that its base selects and those that ways down
/// from them lead to, and no others.
pub proof fn ancestors_select_what_ways_down_lead_to(repo: RepoModel, base: ExpressionModel)
    requires
        valid_graph(repo.index),
        selected(repo, base) matches Ok(s) && forall|p: int| #[trigger]
            s.contains(p) ==> 0 <= p < repo.index.len(),
    ensures
        selected(repo, base) matches Ok(s) && selected(
            repo,
            ExpressionModel::Ancestors(Box::new(base)),
        ) matches Ok(t) && forall|p: int| #[trigger]
            t.contains(p) <==> exists|d: int|
                s.contains(d) && #[trigger] leads_down(repo.index, d, p),
{
    let s = selected(repo, base)->Ok_0;
    assert forall|p: int| #[trigger]
        all_ancestors(repo.index, s).contains(p) <==> exists|d: int|
            s.contains(d) && #[trigger] leads_down(repo.index, d, p) by {
        sets_of_commits(repo.index, s, p);
    }
}

/// What "ancestors" selects contains all that its base selects and, with every
/// commit, its parents, and is contained in every set that does.
pub proof fn ancestors_select_the_least_closed_set(
    repo: RepoModel,
    base: ExpressionModel,
    other: Set<int>,
)
    requires
        valid_graph(repo.index),
        selected(repo, base) matches Ok(s) && forall|p: int| #[trigger]
            s.contains(p) ==> 0 <= p < repo.index.len(),
    ensures
        selected(repo, base) matches Ok(s) && selected(
            repo,
            ExpressionModel::Ancestors(Box::new(base)),
        ) matches Ok(t) && {
            &&& s.subset_of(t)
            &&& forall|d: int, k: int|
                t.contains(d) && 0 <= k < repo.index[d].parents.len() ==> t.contains(
                    #[trigger] repo.index[d].parents[k],
                )
            &&& s.subset_of(other) && (forall|d: int, k: int|
                other.contains(d) && 0 <= k < repo.index[d].parents.len() ==> other.contains(
                    #[trigger] repo.index[d].parents[k],
                )) ==> t.subset_of(other)
        },
{
    let g = repo.index;
    let s = selected(repo, base)->Ok_0;
    let t = all_ancestors(g, s);
    ancestors_are_closed(g, s);
    assert forall|d: int, k: int|
        t.contains(d) && 0 <= k < g[d].parents.len() implies t.contains(
        #[trigger] g[d].parents[k],
    ) by {
        assert(is_parent(g, g[d].parents[k], d));
        assert(all_parents(g, t).contains(g[d].parents[k]));
    }
    if s.subset_of(other) && (forall|d: int, k: int|
        other.contains(d) && 0 <= k < g[d].parents.len() ==> other.contains(
            #[trigger] g[d].parents[k],
        )) {
        assert forall|p: int| #[trigger] all_parents(g, other).contains(p) implies other.contains(
            p,
        ) by {
            let d = choose|d: int| #[trigger] other.contains(d) && is_parent(g, p, d);
            let k = choose|k: int| 0 <= k < g[d].parents.len() && #[trigger] g[d].parents[k] == p;
        }
        ancestors_are_least(g, s, other);
    }
}

/// "All heads" selects the commits in the index that are heads of the view, and no
/// others.
pub proof fn all_heads_select_the_heads(repo: RepoModel)
    ensures
        selected(repo, ExpressionModel::AllHeads) matches Ok(t) && forall|p: int| #[trigger]
            t.contains(p) <==> 0 <= p < repo.index.len() && repo.view.heads.contains(
                repo.index[p].id,
            ),
{
}

/// A commit is live exactly where it is in the index and neither pruned nor
/// obsolete.
pub proof fn live_commits_are_neither_pruned_nor_obsolete(repo: RepoModel, p: int)
    ensures
        live(repo).contains(p) <==> 0 <= p < repo.index.len() && !repo.index[p].pruned
            && !repo.obsolete.contains(repo.index[p].id),
{
}

/// Which commits are live, and which are the live heads of a set, depends on the
/// index and on what is obsolete alone.
pub proof fn live_heads_look_at_nothing_else(repo: RepoModel, other: RepoModel, s: Set<int>)
    requires
        repo.index == other.index,
        repo.obsolete == other.obsolete,
    ensures
        live(repo) == live(other),
        live_heads(repo, s) == live_heads(other, s),
{
    assert(live(repo) =~= live(other));
}

/// Whether the commit at `p` is neither pruned nor obsolete, and in `s` or where a
/// way down from a commit in `s` leads.
pub open spec fn is_candidate(repo: RepoModel, s: Set<int>, p: int) -> bool {
    &&& 0 <= p < repo.index.len()
    &&& !repo.index[p].pruned
    &&& !repo.obsolete.contains(repo.index[p].id)
    &&& exists|d: int| s.contains(d) && #[trigger] leads_down(repo.index, d, p)
}

/// The live heads of `s` are the commits, among those in `s` and below that are
/// neither pruned nor obsolete, that no way down from another of these leads to.
pub proof fn live_heads_are_the_highest_candidates(repo: RepoModel, s: Set<int>, p: int)
    requires
        valid_graph(repo.index),
        forall|q: int| #[trigger] s.contains(q) ==> 0 <= q < repo.index.len(),
    ensures
        live_heads(repo, s).contains(p) <==> is_candidate(repo, s, p) && forall|q: int|
            #[trigger]
            is_candidate(repo, s, q) && leads_down(repo.index, q, p) ==> q == p,
{
    let g = repo.index;
    let below = live(repo).intersect(all_ancestors(g, s));
    assert(in_graph(g, s));
    live_heads_are_heads_of_live_ancestors(repo, s);
    lemma_ancestors_in_graph(g, s);
    assert(in_graph(g, below));
    assert forall|q: int| #[trigger] below.contains(q) == is_candidate(repo, s, q) by {
        sets_of_commits(g, s, q);
    }
    assert forall|q: int| #[trigger] is_candidate(repo, s, q) == below.contains(q) by {
        assert(below.contains(q) == is_candidate(repo, s, q));
    }
    sets_of_commits(g, below, p);
    if heads_of(g, below).contains(p) {
        assert forall|q: int| #[trigger]
            is_candidate(repo, s, q) && leads_down(g, q, p) implies q == p by {
            assert(below.contains(q));
        }
    }
    if is_candidate(repo, s, p) && (forall|q: int| #[trigger]
        is_candidate(repo, s, q) && leads_down(g, q, p) ==> q == p) {
        assert forall|q: int| below.contains(q) && #[trigger] leads_down(g, q, p) implies q
            == p by {
            assert(is_candidate(repo, s, q));
        }
    }
}

/// "Non-obsolete heads" selects the highest commits, among those that its base
/// selects and below, that are neither pruned nor obsolete, and no others.
pub proof fn non_obsolete_heads_select_the_highest_candidates(
    repo: RepoModel,
    base: ExpressionModel,
)
    requires
        valid_graph(repo.index),
        selected(repo, base) matches Ok(s) && forall|p: int| #[trigger]
            s.contains(p) ==> 0 <= p < repo.index.len(),
    ensures
        selected(repo, base) matches Ok(s) && selected(
            repo,
            ExpressionModel::NonObsoleteHeads(Box::new(base)),
        ) matches Ok(t) && forall|p: int| #[trigger]
            t.contains(p) <==> is_candidate(repo, s, p) && forall|q: int| #[trigger]
                is_candidate(repo, s, q) && leads_down(repo.index, q, p) ==> q == p,
{
    let s = selected(repo, base)->Ok_0;
    assert forall|p: int| #[trigger]
        live_heads(repo, s).contains(p) <==> is_candidate(repo, s, p) && forall|q: int| #[trigger]
            is_candidate(repo, s, q) && leads_down(repo.index, q, p) ==> q == p by {
        live_heads_are_the_highest_candidates(repo, s, p);
    }
}

/// A commit of `s` is kept by its description exactly where the needle is a run of
/// characters anywhere in the description that the store gives.
pub proof fn descriptions_are_searched_in_full(
    repo: RepoModel,
    needle: Seq<char>,
    s: Set<int>,
    p: int,
)
    ensures
        described(repo, needle, s).contains(p) ==> s.contains(p),
        repo.store.get_commit(repo.index[p].id) matches Ok(commit) ==> s.contains(p) ==> {
            &&& described(repo, needle, s).contains(p) <==> exists|i: int|
                0 <= i && i + needle.len() <= commit.description.len()
                    && #[trigger] commit.description.subrange(i, i + needle.len()) == needle
            &&& described(repo, needle, s).contains(p) <==> exists|a: Seq<char>, b: Seq<char>|
                commit.description == #[trigger] (a + needle + b)
        },
{
    if let Ok(commit) = repo.store.get_commit(repo.index[p].id) {
        occurring_is_being_a_run(needle, commit.description);
    }
}

/// "Description" selects the commits that its base selects and that have the
/// needle in their description, and no others.
pub proof fn descriptions_select_by_needle(
    repo: RepoModel,
    needle: Seq<char>,
    base: ExpressionModel,
)
    requires
        selected(repo, base) matches Ok(s) && forall|p: int| #[trigger]
            s.contains(p) ==> repo.store.get_commit(repo.index[p].id) is Ok,
    ensures
        selected(repo, base) matches Ok(s) && selected(
            repo,
            ExpressionModel::Description { needle, base_expression: Box::new(base) },
        ) matches Ok(t) && forall|p: int| #[trigger]
            t.contains(p) <==> s.contains(p) && exists|a: Seq<char>, b: Seq<char>|
                repo.store.get_commit(repo.index[p].id)->Ok_0.description == #[trigger] (a + needle
                    + b),
{
    let s = selected(repo, base)->Ok_0;
    assert forall|p: int| #[trigger]
        described(repo, needle, s).contains(p) <==> s.contains(p) && exists|
            a: Seq<char>,
            b: Seq<char>,
        |
            repo.store.get_commit(repo.index[p].id)->Ok_0.description == #[trigger] (a + needle
                + b) by {
        descriptions_are_searched_in_full(repo, needle, s, p);
    }
}

/// What can be evaluated: a symbol whose commit, if it stands for one, is in the
/// index; the heads, if they all are; a description filter whose base can be and
/// selects only commits that the store gives; and every other operator whose base
/// can be.
pub proof fn what_can_be_evaluated(
    repo: RepoModel,
    symbol: Seq<char>,
    needle: Seq<char>,
    base: ExpressionModel,
)
    ensures
        evaluable(repo, ExpressionModel::Symbol(symbol)) <==> (resolution(repo, symbol) matches Ok(
            commit,
        ) ==> exists|p: int| 0 <= p < repo.index.len() && (#[trigger] repo.index[p]).id
            == commit.id),
        evaluable(repo, ExpressionModel::Parents(Box::new(base))) <==> evaluable(repo, base),
        evaluable(repo, ExpressionModel::Ancestors(Box::new(base))) <==> evaluable(repo, base),
        evaluable(repo, ExpressionModel::NonObsoleteHeads(Box::new(base))) <==> evaluable(
            repo,
            base,
        ),
        evaluable(repo, ExpressionModel::AllHeads) <==> forall|id: Seq<u8>| #[trigger]
            repo.view.heads.contains(id) ==> exists|p: int|
                0 <= p < repo.index.len() && (#[trigger] repo.index[p]).id == id,
        evaluable(
            repo,
            ExpressionModel::Description { needle, base_expression: Box::new(base) },
        ) <==> {
            &&& evaluable(repo, base)
            &&& selected(repo, base) matches Ok(s) ==> forall|p: int| #[trigger]
                s.contains(p) ==> repo.store.get_commit(repo.index[p].id) is Ok
        },
{
    assert forall|id: Seq<u8>| #[trigger] has_id(repo.index, id) <==> exists|p: int|
        0 <= p < repo.index.len() && (#[trigger] repo.index[p]).id == id by {
        if has_id(repo.index, id) {
            let p = choose|p: int| 0 <= p < repo.index.len() && #[trigger] repo.index[p].id == id;
            assert(repo.index[p].id == id);
        }
        if exists|p: int| 0 <= p < repo.index.len() && (#[trigger] repo.index[p]).id == id {
            let p = choose|p: int|
                0 <= p < repo.index.len() && (#[trigger] repo.index[p]).id == id;
            assert(repo.index[p].id == id);
        }
    }
    if evaluable(repo, ExpressionModel::AllHeads) {
        assert forall|id: Seq<u8>| #[trigger] repo.view.heads.contains(id) implies exists|p: int|
            0 <= p < repo.index.len() && (#[trigger] repo.index[p]).id == id by {
            assert(has_id(repo.index, id));
        }
    }
    if forall|id: Seq<u8>| #[trigger]
        repo.view.heads.contains(id) ==> exists|p: int|
            0 <= p < repo.index.len() && (#[trigger] repo.index[p]).id == id {
        assert forall|id: Seq<u8>| #[trigger] repo.view.heads.contains(id) implies has_id(
            repo.index,
            id,
        ) by {
            let p = choose|p: int|
                0 <= p < repo.index.len() && (#[trigger] repo.index[p]).id == id;
            assert(repo.index[p].id == id);
        }
    }
    if let Ok(commit) = resolution(repo, symbol) {
        assert(has_id(repo.index, commit.id) <==> exists|p: int|
            0 <= p < repo.index.len() && (#[trigger] repo.index[p]).id == commit.id);
    }
}

/// Whether the entries are just the commits of `g` in `s`, each once, from the
/// highest position to the lowest.
pub open spec fn is_listing(entries: Seq<IndexEntry<'_>>, g: Graph, s: Set<int>) -> bool {
    &&& forall|i: int|
        0 <= i < entries.len() ==> (#[trigger] entries[i]).graph() == g && s.contains(
            entries[i].pos(),
        ) && 0 <= entries[i].pos() < g.len()
    &&& forall|i: int, j: int|
        0 <= i < j < entries.len() ==> (#[trigger] entries[i]).pos() > (#[trigger] entries[j]).pos()
    &&& forall|p: int| #[trigger]
        s.contains(p) ==> exists|i: int| 0 <= i < entries.len() && (#[trigger] entries[i]).pos()
            == p
}

/// Listing a set of commits is going over all of them, once each, from the highest
/// position to the lowest.
pub proof fn listings_go_down(
    entries: Seq<IndexEntry<'_>>,
    g: Graph,
    s: Set<int>,
    p: int,
)
    ensures
        lists_entries(entries, g, s) <==> is_listing(entries, g, s),
        entry_positions(entries).contains(p) <==> exists|i: int|
            0 <= i < entries.len() && (#[trigger] entries[i]).pos() == p,
        entries_in(entries, g) <==> forall|i: int|
            0 <= i < entries.len() ==> (#[trigger] entries[i]).graph() == g && 0
                <= entries[i].pos() < g.len(),
{
    assert forall|q: int| #[trigger]
        entry_positions(entries).contains(q) <==> exists|i: int|
            0 <= i < entries.len() && (#[trigger] entries[i]).pos() == q by {
        if entry_positions(entries).contains(q) {
            let i = choose|i: int| 0 <= i < entries.len() && #[trigger] entries[i].pos() == q;
            assert(entries[i].pos() == q);
        }
    }
    if lists_entries(entries, g, s) {
        assert forall|i: int| 0 <= i < entries.len() implies (#[trigger] entries[i]).graph() == g
            && s.contains(entries[i].pos()) && 0 <= entries[i].pos() < g.len() by {
            assert(entries[i].graph() == g);
            assert(entry_positions(entries).contains(entries[i].pos()));
        }
        assert forall|i: int, j: int| 0 <= i < j < entries.len() implies (
        #[trigger] entries[i]).pos() > (#[trigger] entries[j]).pos() by {}
        assert forall|q: int| #[trigger] s.contains(q) implies exists|i: int|
            0 <= i < entries.len() && (#[trigger] entries[i]).pos() == q by {
            assert(entry_positions(entries).contains(q));
        }
    }
    if is_listing(entries, g, s) {
        assert forall|i: int, j: int| 0 <= i < j < entries.len() implies #[trigger] entries[i].pos()
            > #[trigger] entries[j].pos() by {
            assert(entries[i].pos() > entries[j].pos());
        }
        assert forall|q: int| entry_positions(entries).contains(q) == s.contains(q) by {}
        assert(entry_positions(entries) =~= s);
    }
    if entries_in(entries, g) {
        assert forall|i: int| 0 <= i < entries.len() implies (#[trigger] entries[i]).graph() == g
            && 0 <= entries[i].pos() < g.len() by {
            assert(entries[i].graph() == g);
        }
    }
}

/// Iterating over a set that is known to be a set of commits lists it.
pub proof fn sets_list_their_commits<'repo, R: Revset<'repo>>(
    set: R,
    entries: Seq<IndexEntry<'repo>>,
    g: Graph,
    s: Set<int>,
)
    requires
        lists(set, g, s),
        set.yields(entries),
    ensures
        is_listing(entries, g, s),
{
    listings_go_down(entries, g, s, 0);
}

/// Where evaluating succeeds, iterating over the outcome lists the commits that
/// the expression stands for; where it fails, the error is that of the expression.
pub proof fn evaluations_list_the_selection<'repo>(
    r: Result<EvaluatedRevset<'repo>, RevsetError>,
    g: Graph,
    selection: Selection,
    entries: Seq<IndexEntry<'repo>>,
)
    requires
        is_evaluation(r, g, selection),
    ensures
        r matches Ok(set) ==> selection is Ok && (set.yields(entries) ==> is_listing(
            entries,
            g,
            selection->Ok_0,
        )),
        r matches Err(error) ==> selection == Err::<Set<int>, _>(error@),
{
    if let Ok(set) = r {
        if set.yields(entries) {
            sets_list_their_commits(set, entries, g, selection->Ok_0);
        }
    }
}

/// A set that an expression was evaluated to yields what the set that it holds
/// yields: the entries in memory, or a listing of the commits of the walk.
pub proof fn evaluated_sets_yield_what_they_hold<'repo>(
    eager: EagerRevset<'repo>,
    walk: RevWalkRevset<'repo>,
    entries: Seq<IndexEntry<'repo>>,
)
    ensures
        EvaluatedRevset::Eager(eager).yields(entries) <==> entries == eager.entries(),
        EvaluatedRevset::RevWalk(walk).yields(entries) <==> is_listing(
            entries,
            walk.graph(),
            walk.remaining(),
        ),
{
    listings_go_down(entries, walk.graph(), walk.remaining(), 0);
}

} // verus!
