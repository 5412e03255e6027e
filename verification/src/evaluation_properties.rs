//! What holds of every evaluation.
use crate::commit::StoreErrorModel;
use crate::expression::ExpressionModel;
use crate::graph::{
    all_ancestors, all_parents, has_id, heads_of, in_graph, is_ancestor, is_parent,
    lemma_ancestor_below, lemma_ancestor_transitive, lemma_ancestors_in_graph, lemma_parent_below,
    lemma_surfaces, surface, surfaces, valid_graph, Graph,
};
use crate::index::IndexEntry;
use crate::repo::RepoModel;
use crate::resolve::resolution;
use crate::revset::{
    described, entries_in, entry_positions, evaluable, lists_entries, live, live_heads, selected,
    EagerRevset, EvaluatedRevset, RevWalkRevset, Revset,
};
use crate::text::occurs_at;
use vstd::prelude::*;

verus! {

/// A repository whose parts fit together: the index is a valid graph, every
/// head and every commit that the store gives is in the index, and the store
/// gives every commit that is in the index.
pub open spec fn consistent(repo: RepoModel) -> bool {
    &&& valid_graph(repo.index)
    &&& forall|id: Seq<u8>| #[trigger] repo.view.heads.contains(id) ==> has_id(repo.index, id)
    &&& forall|id: Seq<u8>| #[trigger]
        repo.store.get_commit(id) is Ok ==> has_id(repo.index, id)
    &&& has_id(repo.index, repo.store.root.id)
    &&& forall|p: int|
        0 <= p < repo.index.len() ==> repo.store.get_commit(#[trigger] repo.index[p].id) is Ok
}

/// What a symbol stands for is the root commit or a commit that the store gives.
pub proof fn lemma_resolution_read(repo: RepoModel, symbol: Seq<char>)
    ensures
        resolution(repo, symbol) matches Ok(commit) ==> commit == repo.store.root
            || repo.store.get_commit(commit.id) == Ok::<_, StoreErrorModel>(commit),
{
}

/// The commits that an expression stands for are in the index.
pub proof fn selection_is_in_the_index(repo: RepoModel, expression: ExpressionModel)
    requires
        valid_graph(repo.index),
        evaluable(repo, expression),
    ensures
        selected(repo, expression) matches Ok(s) ==> in_graph(repo.index, s),
    decreases expression,
{
    let g = repo.index;
    match expression {
        ExpressionModel::Symbol(symbol) => {
            if let Ok(commit) = resolution(repo, symbol) {
                assert(has_id(g, commit.id));
            }
        },
        ExpressionModel::Parents(base) => {
            selection_is_in_the_index(repo, *base);
            if let Ok(s) = selected(repo, *base) {
                assert forall|p: int| #[trigger] all_parents(g, s).contains(p) implies 0 <= p
                    < g.len() by {
                    let d = choose|d: int| #[trigger] s.contains(d) && is_parent(g, p, d);
                    lemma_parent_below(g, p, d);
                }
            }
        },
        ExpressionModel::Ancestors(base) => {
            selection_is_in_the_index(repo, *base);
            if let Ok(s) = selected(repo, *base) {
                lemma_ancestors_in_graph(g, s);
            }
        },
        ExpressionModel::AllHeads => {},
        ExpressionModel::NonObsoleteHeads(base) => {
            selection_is_in_the_index(repo, *base);
            if let Ok(s) = selected(repo, *base) {
                live_heads_are_live_ancestors(repo, s);
            }
        },
        ExpressionModel::Description { base_expression, .. } => {
            selection_is_in_the_index(repo, *base_expression);
        },
    }
}

/// In a consistent repository every expression can be evaluated.
pub proof fn consistent_repository_is_evaluable(repo: RepoModel, expression: ExpressionModel)
    requires
        consistent(repo),
    ensures
        evaluable(repo, expression),
    decreases expression,
{
    match expression {
        ExpressionModel::Symbol(symbol) => {
            lemma_resolution_read(repo, symbol);
        },
        ExpressionModel::Parents(base) => {
            consistent_repository_is_evaluable(repo, *base);
        },
        ExpressionModel::Ancestors(base) => {
            consistent_repository_is_evaluable(repo, *base);
        },
        ExpressionModel::AllHeads => {},
        ExpressionModel::NonObsoleteHeads(base) => {
            consistent_repository_is_evaluable(repo, *base);
        },
        ExpressionModel::Description { base_expression, .. } => {
            consistent_repository_is_evaluable(repo, *base_expression);
            selection_is_in_the_index(repo, *base_expression);
        },
    }
}

/// The live heads of `s` are live, are ancestors of commits in `s`, and none of
/// them is an ancestor of another.
pub proof fn live_heads_are_live_ancestors(repo: RepoModel, s: Set<int>)
    requires
        in_graph(repo.index, s),
    ensures
        live_heads(repo, s).subset_of(live(repo)),
        live_heads(repo, s).subset_of(all_ancestors(repo.index, s)),
        forall|p: int, q: int| #[trigger]
            live_heads(repo, s).contains(p) && #[trigger] live_heads(repo, s).contains(q) && p != q
                ==> !is_ancestor(repo.index, p, q),
        in_graph(repo.index, live_heads(repo, s)),
{
    lemma_surface_is_live(repo, s);
}

/// A live ancestor of `h` is an ancestor of a commit that surfaces from `h`.
proof fn lemma_surface_above(g: Graph, alive: Set<int>, a: int, h: int) -> (f: int)
    requires
        0 <= h,
        alive.contains(a),
        is_ancestor(g, a, h),
    ensures
        surfaces(g, alive, f, h),
        is_ancestor(g, a, f),
    decreases h,
{
    if alive.contains(h) {
        h
    } else {
        let p = choose|p: int| 0 <= p < h && #[trigger] is_parent(g, p, h) && is_ancestor(g, a, p);
        lemma_surface_above(g, alive, a, p)
    }
}

/// What surfaces from commits in the graph is live and among their ancestors.
proof fn lemma_surface_is_live(repo: RepoModel, s: Set<int>)
    requires
        in_graph(repo.index, s),
    ensures
        surface(repo.index, live(repo), s).subset_of(
            live(repo).intersect(all_ancestors(repo.index, s)),
        ),
        in_graph(repo.index, surface(repo.index, live(repo), s)),
{
    let g = repo.index;
    let alive = live(repo);
    assert forall|q: int| #[trigger] surface(g, alive, s).contains(q) implies alive.contains(q)
        && all_ancestors(g, s).contains(q) by {
        let h = choose|h: int| #[trigger] s.contains(h) && surfaces(g, alive, q, h);
        lemma_surfaces(g, alive, q, h);
    }
}

/// The live heads of `s` are the heads of the live commits among `s` and its
/// ancestors.
pub proof fn live_heads_are_heads_of_live_ancestors(repo: RepoModel, s: Set<int>)
    requires
        in_graph(repo.index, s),
    ensures
        live_heads(repo, s) == heads_of(
            repo.index,
            live(repo).intersect(all_ancestors(repo.index, s)),
        ),
{
    let g = repo.index;
    let alive = live(repo);
    let f = surface(g, alive, s);
    let a = alive.intersect(all_ancestors(g, s));
    lemma_surface_is_live(repo, s);
    assert forall|p: int| heads_of(g, f).contains(p) == heads_of(g, a).contains(p) by {
        if heads_of(g, f).contains(p) {
            assert forall|q: int| #[trigger] a.contains(q) && q != p implies !is_ancestor(
                g,
                p,
                q,
            ) by {
                if is_ancestor(g, p, q) {
                    let d = choose|d: int| #[trigger] s.contains(d) && is_ancestor(g, q, d);
                    let e = lemma_surface_above(g, alive, q, d);
                    lemma_surfaces(g, alive, e, d);
                    assert(f.contains(e));
                    lemma_ancestor_below(g, q, e);
                    lemma_ancestor_below(g, p, q);
                    lemma_ancestor_transitive(g, p, q, e);
                }
            }
        }
        if heads_of(g, a).contains(p) {
            let d = choose|d: int| #[trigger] s.contains(d) && is_ancestor(g, p, d);
            let e = lemma_surface_above(g, alive, p, d);
            assert(f.contains(e));
            assert(a.contains(e));
            assert(e == p);
        }
    }
    assert(heads_of(g, f) =~= heads_of(g, a));
}

/// The ancestors of `s` have the live heads of `s`.
pub proof fn live_heads_of_ancestors(repo: RepoModel, s: Set<int>)
    requires
        valid_graph(repo.index),
        in_graph(repo.index, s),
    ensures
        live_heads(repo, all_ancestors(repo.index, s)) == live_heads(repo, s),
{
    lemma_ancestors_in_graph(repo.index, s);
    live_heads_are_heads_of_live_ancestors(repo, s);
    live_heads_are_heads_of_live_ancestors(repo, all_ancestors(repo.index, s));
    ancestors_are_stable(repo.index, s);
}

/// Every live commit among `s` and its ancestors is a live head of `s` or an
/// ancestor of one.
pub proof fn live_ancestors_are_covered(repo: RepoModel, s: Set<int>, p: int) -> (h: int)
    requires
        valid_graph(repo.index),
        in_graph(repo.index, s),
        all_ancestors(repo.index, s).contains(p),
        live(repo).contains(p),
    ensures
        live_heads(repo, s).contains(h),
        is_ancestor(repo.index, p, h),
{
    let a = live(repo).intersect(all_ancestors(repo.index, s));
    live_heads_are_heads_of_live_ancestors(repo, s);
    lemma_head_above(repo.index, a, p)
}

/// Every live commit of `s` is a live head of `s` or an ancestor of one.
pub proof fn live_commits_are_covered(repo: RepoModel, s: Set<int>, p: int) -> (h: int)
    requires
        valid_graph(repo.index),
        in_graph(repo.index, s),
        s.contains(p),
        live(repo).contains(p),
    ensures
        live_heads(repo, s).contains(h),
        is_ancestor(repo.index, p, h),
{
    ancestors_are_closed(repo.index, s);
    live_ancestors_are_covered(repo, s, p)
}

/// Every commit of `s` is a head of `s` or an ancestor of one.
pub proof fn lemma_head_above(g: Graph, s: Set<int>, p: int) -> (h: int)
    requires
        valid_graph(g),
        in_graph(g, s),
        s.contains(p),
    ensures
        heads_of(g, s).contains(h),
        is_ancestor(g, p, h),
    decreases g.len() - p,
{
    if heads_of(g, s).contains(p) {
        p
    } else {
        let q = choose|q: int| #[trigger] s.contains(q) && q != p && is_ancestor(g, p, q);
        lemma_ancestor_below(g, p, q);
        let h = lemma_head_above(g, s, q);
        lemma_ancestor_transitive(g, p, q, h);
        h
    }
}

/// Taking the live heads of live heads changes nothing.
pub proof fn live_heads_are_stable(repo: RepoModel, s: Set<int>)
    requires
        in_graph(repo.index, s),
    ensures
        live_heads(repo, live_heads(repo, s)) == live_heads(repo, s),
{
    let g = repo.index;
    let t = live_heads(repo, s);
    live_heads_are_live_ancestors(repo, s);
    lemma_surface_of_live(repo, t);
    assert(heads_of(g, t) =~= t);
}

proof fn lemma_surface_of_live(repo: RepoModel, t: Set<int>)
    requires
        t.subset_of(live(repo)),
    ensures
        surface(repo.index, live(repo), t) == t,
{
    let g = repo.index;
    let f = surface(g, live(repo), t);
    assert forall|q: int| f.contains(q) == t.contains(q) by {
        if t.contains(q) {
            assert(surfaces(g, live(repo), q, q));
        }
        if f.contains(q) {
            let h = choose|h: int| #[trigger] t.contains(h) && surfaces(g, live(repo), q, h);
            assert(live(repo).contains(h));
        }
    }
    assert(f =~= t);
}

/// Where all commits of `s` are live, its live heads are its heads.
pub proof fn live_heads_of_live_commits(repo: RepoModel, s: Set<int>)
    requires
        s.subset_of(live(repo)),
    ensures
        live_heads(repo, s) == heads_of(repo.index, s),
{
    lemma_surface_of_live(repo, s);
}

/// The ancestors of `s` contain `s` and, with every commit, its parents.
pub proof fn ancestors_are_closed(g: Graph, s: Set<int>)
    requires
        valid_graph(g),
        in_graph(g, s),
    ensures
        s.subset_of(all_ancestors(g, s)),
        all_parents(g, all_ancestors(g, s)).subset_of(all_ancestors(g, s)),
{
    assert forall|p: int| #[trigger] s.contains(p) implies all_ancestors(g, s).contains(p) by {
        assert(is_ancestor(g, p, p));
    }
    let a = all_ancestors(g, s);
    assert forall|p: int| #[trigger] all_parents(g, a).contains(p) implies a.contains(p) by {
        let d = choose|d: int| #[trigger] a.contains(d) && is_parent(g, p, d);
        let e = choose|e: int| #[trigger] s.contains(e) && is_ancestor(g, d, e);
        lemma_ancestor_below(g, d, e);
        lemma_parent_below(g, p, d);
        lemma_ancestor_transitive(g, p, d, e);
    }
}

/// The ancestors of `s` are the least set that contains `s` and, with every
/// commit, its parents.
pub proof fn ancestors_are_least(g: Graph, s: Set<int>, t: Set<int>)
    requires
        s.subset_of(t),
        all_parents(g, t).subset_of(t),
        in_graph(g, s),
    ensures
        all_ancestors(g, s).subset_of(t),
{
    assert forall|a: int| #[trigger] all_ancestors(g, s).contains(a) implies t.contains(a) by {
        let d = choose|d: int| #[trigger] s.contains(d) && is_ancestor(g, a, d);
        lemma_closed(g, t, a, d);
    }
}

proof fn lemma_closed(g: Graph, t: Set<int>, a: int, d: int)
    requires
        all_parents(g, t).subset_of(t),
        t.contains(d),
        is_ancestor(g, a, d),
    ensures
        t.contains(a),
    decreases d,
{
    if a != d {
        let p = choose|p: int| 0 <= p < d && #[trigger] is_parent(g, p, d) && is_ancestor(g, a, p);
        assert(all_parents(g, t).contains(p));
        lemma_closed(g, t, a, p);
    }
}

/// Ancestors of ancestors are ancestors.
pub proof fn ancestors_are_stable(g: Graph, s: Set<int>)
    requires
        valid_graph(g),
        in_graph(g, s),
    ensures
        all_ancestors(g, all_ancestors(g, s)) == all_ancestors(g, s),
{
    lemma_ancestors_in_graph(g, s);
    ancestors_are_closed(g, s);
    ancestors_are_closed(g, all_ancestors(g, s));
    ancestors_are_least(g, all_ancestors(g, s), all_ancestors(g, s));
    assert(all_ancestors(g, all_ancestors(g, s)) =~= all_ancestors(g, s));
}

/// The ancestors of `s` are `s` and the ancestors of its parents.
pub proof fn ancestors_unfold(g: Graph, s: Set<int>)
    requires
        valid_graph(g),
        in_graph(g, s),
    ensures
        all_ancestors(g, s) == s.union(all_ancestors(g, all_parents(g, s))),
{
    let right = s.union(all_ancestors(g, all_parents(g, s)));
    assert forall|a: int| all_ancestors(g, s).contains(a) == right.contains(a) by {
        if all_ancestors(g, s).contains(a) {
            let d = choose|d: int| #[trigger] s.contains(d) && is_ancestor(g, a, d);
            if a != d {
                let p = choose|p: int|
                    0 <= p < d && #[trigger] is_parent(g, p, d) && is_ancestor(g, a, p);
                assert(all_parents(g, s).contains(p));
            }
        }
        if s.contains(a) {
            assert(is_ancestor(g, a, a));
        }
        if all_ancestors(g, all_parents(g, s)).contains(a) {
            let p = choose|p: int| #[trigger]
                all_parents(g, s).contains(p) && is_ancestor(g, a, p);
            let d = choose|d: int| #[trigger] s.contains(d) && is_parent(g, p, d);
            lemma_parent_below(g, p, d);
            lemma_ancestor_transitive(g, a, p, d);
        }
    }
    assert(all_ancestors(g, s) =~= right);
}

/// Every operator but the symbol keeps the error of its base.
pub proof fn errors_come_through(repo: RepoModel, base: ExpressionModel, needle: Seq<char>)
    requires
        selected(repo, base) is Err,
    ensures
        selected(repo, ExpressionModel::Parents(Box::new(base))) == selected(repo, base),
        selected(repo, ExpressionModel::Ancestors(Box::new(base))) == selected(repo, base),
        selected(repo, ExpressionModel::NonObsoleteHeads(Box::new(base))) == selected(repo, base),
        selected(
            repo,
            ExpressionModel::Description { needle, base_expression: Box::new(base) },
        ) == selected(repo, base),
{
}

/// Filtering by description keeps only commits of the base, filtering by the
/// empty text keeps them all, filtering again by the same text changes nothing,
/// and two filters can be applied in either order.
pub proof fn descriptions_filter(
    repo: RepoModel,
    first: Seq<char>,
    second: Seq<char>,
    s: Set<int>,
)
    ensures
        described(repo, first, s).subset_of(s),
        described(repo, seq![], s) == s,
        described(repo, first, described(repo, first, s)) == described(repo, first, s),
        described(repo, first, described(repo, second, s)) == described(
            repo,
            second,
            described(repo, first, s),
        ),
{
    assert forall|p: int| s.contains(p) implies #[trigger] described(repo, seq![], s).contains(
        p,
    ) by {
        let text = repo.store.get_commit(repo.index[p].id)->Ok_0.description;
        assert(text.subrange(0, 0) =~= seq![]);
        assert(occurs_at(seq![], text, 0));
    }
    assert(described(repo, seq![], s) =~= s);
    assert(described(repo, first, described(repo, first, s)) =~= described(repo, first, s));
    assert(described(repo, first, described(repo, second, s)) =~= described(
        repo,
        second,
        described(repo, first, s),
    ));
}

/// Whether the two lists have the same commits in the same order.
pub open spec fn same_entries(a: Seq<IndexEntry<'_>>, b: Seq<IndexEntry<'_>>) -> bool {
    &&& a.len() == b.len()
    &&& forall|i: int|
        #![trigger a[i]]
        #![trigger b[i]]
        0 <= i < a.len() ==> a[i].graph() == b[i].graph() && a[i].pos() == b[i].pos()
}

/// There is one order in which a set of commits is listed.
pub proof fn listings_agree(
    a: Seq<IndexEntry<'_>>,
    b: Seq<IndexEntry<'_>>,
    g: Graph,
    s: Set<int>,
)
    requires
        lists_entries(a, g, s),
        lists_entries(b, g, s),
    ensures
        same_entries(a, b),
{
    assert forall|i: int| 0 <= i < a.len() implies i < b.len() && (#[trigger] a[i]).pos()
        == b[i].pos() by {
        lemma_listings_agree_at(a, b, g, s, i);
    }
    if a.len() < b.len() {
        lemma_listings_agree_at(b, a, g, s, a.len() as int);
    }
    if b.len() < a.len() {
        assert(a[b.len() as int].pos() == b[b.len() as int].pos());
    }
    assert forall|i: int| 0 <= i < a.len() implies (#[trigger] a[i]).graph() == g && b[i].graph()
        == g by {
        assert(a[i].graph() == g);
        assert(b[i].graph() == g);
    }
}

proof fn lemma_listings_agree_at(
    a: Seq<IndexEntry<'_>>,
    b: Seq<IndexEntry<'_>>,
    g: Graph,
    s: Set<int>,
    i: int,
)
    requires
        lists_entries(a, g, s),
        lists_entries(b, g, s),
        0 <= i < a.len(),
    ensures
        i < b.len(),
        a[i].pos() == b[i].pos(),
    decreases i,
{
    let p = a[i].pos();
    assert(entry_positions(a).contains(p));
    let j = choose|j: int| 0 <= j < b.len() && #[trigger] b[j].pos() == p;
    assert forall|k: int| 0 <= k < i implies k < b.len() && (#[trigger] a[k]).pos()
        == b[k].pos() by {
        lemma_listings_agree_at(a, b, g, s, k);
    }
    if j < i {
        assert(a[j].pos() == b[j].pos());
        assert(a[j].pos() > a[i].pos());
    }
    if i < j {
        let q = b[i].pos();
        assert(q > b[j].pos());
        assert(entry_positions(b).contains(q));
        let k = choose|k: int| 0 <= k < a.len() && #[trigger] a[k].pos() == q;
        if k < i {
            assert(a[k].pos() == b[k].pos());
            assert(b[k].pos() > b[i].pos());
        } else if i < k {
            assert(a[i].pos() > a[k].pos());
        }
    }
}

/// Iterating over a set that is held in memory gives its commits, every time.
pub proof fn eager_sets_yield_their_entries<'repo>(
    set: EagerRevset<'repo>,
    a: Seq<IndexEntry<'repo>>,
    b: Seq<IndexEntry<'repo>>,
)
    requires
        set.yields(a),
        set.yields(b),
    ensures
        a == set.entries(),
        b == a,
{
}

/// Iterating over a walk again gives the same commits in the same order, from
/// the start of the walk.
pub proof fn walks_start_over<'repo>(
    set: RevWalkRevset<'repo>,
    a: Seq<IndexEntry<'repo>>,
    b: Seq<IndexEntry<'repo>>,
)
    requires
        set.yields(a),
        set.yields(b),
    ensures
        lists_entries(a, set.graph(), set.remaining()),
        same_entries(a, b),
{
    listings_agree(a, b, set.graph(), set.remaining());
}

/// Iterating again over what an expression was evaluated to gives the same
/// commits in the same order.
pub proof fn evaluated_sets_start_over<'repo>(
    set: EvaluatedRevset<'repo>,
    a: Seq<IndexEntry<'repo>>,
    b: Seq<IndexEntry<'repo>>,
)
    requires
        set.yields(a),
        set.yields(b),
    ensures
        same_entries(a, b),
{
    match set {
        EvaluatedRevset::Eager(eager) => {
            eager_sets_yield_their_entries(eager, a, b);
        },
        EvaluatedRevset::RevWalk(walk) => {
            walks_start_over(walk, a, b);
        },
    }
}

/// The positions of entries of a graph are positions in it.
pub proof fn entries_are_in_the_graph(entries: Seq<IndexEntry<'_>>, g: Graph)
    requires
        entries_in(entries, g),
    ensures
        in_graph(g, entry_positions(entries)),
{
}

} // verus!
