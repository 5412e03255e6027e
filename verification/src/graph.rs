//! The commit graph as a mathematical object: commits are numbered so that
//! every parent has a smaller position than its children.
use vstd::prelude::*;

verus! {

/// A commit in the graph.
pub struct Vertex {
    /// The id of the commit.
    pub id: Seq<u8>,
    /// The positions of its parents.
    pub parents: Seq<int>,
    /// Whether the commit is pruned.
    pub pruned: bool,
}

/// The commits, by position.
pub type Graph = Seq<Vertex>;

/// Parents come before their children, no id occurs twice, and positions fit
/// in 32 bits.
pub open spec fn valid_graph(g: Graph) -> bool {
    &&& g.len() <= u32::MAX
    &&& forall|d: int, k: int|
        0 <= d < g.len() && 0 <= k < g[d].parents.len() ==> 0 <= #[trigger] g[d].parents[k] < d
    &&& forall|i: int, j: int| 0 <= i < j < g.len() ==> #[trigger] g[i].id != #[trigger] g[j].id
}

/// Whether all elements of `s` are positions in `g`.
pub open spec fn in_graph(g: Graph, s: Set<int>) -> bool {
    forall|p: int| #[trigger] s.contains(p) ==> 0 <= p < g.len()
}

/// Whether the commit `id` is in the graph.
pub open spec fn has_id(g: Graph, id: Seq<u8>) -> bool {
    exists|p: int| 0 <= p < g.len() && #[trigger] g[p].id == id
}

/// The position of the commit `id`.
pub open spec fn position_of(g: Graph, id: Seq<u8>) -> int
    recommends
        has_id(g, id),
{
    choose|p: int| 0 <= p < g.len() && #[trigger] g[p].id == id
}

/// Whether the commit at `p` is a parent of the one at `d`.
pub open spec fn is_parent(g: Graph, p: int, d: int) -> bool {
    exists|k: int| 0 <= k < g[d].parents.len() && #[trigger] g[d].parents[k] == p
}

/// Whether the commit at `a` is the one at `d` or an ancestor of it.
pub open spec fn is_ancestor(g: Graph, a: int, d: int) -> bool
    decreases d,
{
    a == d || exists|p: int| 0 <= p < d && #[trigger] is_parent(g, p, d) && is_ancestor(g, a, p)
}

/// The parents of the commits in `s`.
pub open spec fn all_parents(g: Graph, s: Set<int>) -> Set<int> {
    Set::new(|p: int| exists|d: int| #[trigger] s.contains(d) && is_parent(g, p, d))
}

/// The commits in `s` and their ancestors.
pub open spec fn all_ancestors(g: Graph, s: Set<int>) -> Set<int> {
    Set::new(|a: int| exists|d: int| #[trigger] s.contains(d) && is_ancestor(g, a, d))
}

/// The commits in `s` that are not ancestors of others in `s`.
pub open spec fn heads_of(g: Graph, s: Set<int>) -> Set<int> {
    Set::new(
        |p: int|
            s.contains(p) && forall|q: int| #[trigger]
                s.contains(q) && q != p ==> !is_ancestor(g, p, q),
    )
}

/// Whether the commit at `q` is reached first among the live ones on some way
/// down from `h` through commits that are not live.
pub open spec fn surfaces(g: Graph, live: Set<int>, q: int, h: int) -> bool
    decreases h,
{
    if live.contains(h) {
        q == h
    } else {
        exists|p: int| 0 <= p < h && #[trigger] is_parent(g, p, h) && surfaces(g, live, q, p)
    }
}

/// The first live commits on the ways down from the commits in `s`.
pub open spec fn surface(g: Graph, live: Set<int>, s: Set<int>) -> Set<int> {
    Set::new(|q: int| exists|h: int| #[trigger] s.contains(h) && surfaces(g, live, q, h))
}

/// The position of an id is the only place where it stands.
pub proof fn lemma_position(g: Graph, p: int)
    requires
        valid_graph(g),
        0 <= p < g.len(),
    ensures
        has_id(g, g[p].id),
        position_of(g, g[p].id) == p,
{
    let q = position_of(g, g[p].id);
    assert(0 <= q < g.len() && g[q].id == g[p].id);
    if q < p {
        assert(g[q].id != g[p].id);
    } else if p < q {
        assert(g[p].id != g[q].id);
    }
}

/// A parent stands before its child.
pub proof fn lemma_parent_below(g: Graph, p: int, d: int)
    requires
        valid_graph(g),
        0 <= d < g.len(),
        is_parent(g, p, d),
    ensures
        0 <= p < d,
        is_ancestor(g, p, d),
{
    assert(is_ancestor(g, p, p));
}

/// An ancestor does not stand after its descendant.
pub proof fn lemma_ancestor_below(g: Graph, a: int, d: int)
    requires
        0 <= d,
        is_ancestor(g, a, d),
    ensures
        0 <= a <= d,
    decreases d,
{
    if a != d {
        let p = choose|p: int|
            0 <= p < d && #[trigger] is_parent(g, p, d) && is_ancestor(g, a, p);
        lemma_ancestor_below(g, a, p);
    }
}

/// Ancestors of commits in the graph are in the graph.
pub proof fn lemma_ancestors_in_graph(g: Graph, s: Set<int>)
    requires
        in_graph(g, s),
    ensures
        in_graph(g, all_ancestors(g, s)),
{
    assert forall|a: int| #[trigger] all_ancestors(g, s).contains(a) implies 0 <= a < g.len() by {
        let d = choose|d: int| #[trigger] s.contains(d) && is_ancestor(g, a, d);
        lemma_ancestor_below(g, a, d);
    }
}

/// An ancestor of an ancestor is an ancestor.
pub proof fn lemma_ancestor_transitive(g: Graph, a: int, b: int, d: int)
    requires
        is_ancestor(g, a, b),
        is_ancestor(g, b, d),
    ensures
        is_ancestor(g, a, d),
    decreases d,
{
    if b != d {
        let p = choose|p: int|
            0 <= p < d && #[trigger] is_parent(g, p, d) && is_ancestor(g, b, p);
        lemma_ancestor_transitive(g, a, b, p);
    }
}

/// A proper ancestor is a parent of some ancestor.
pub proof fn lemma_last_step(g: Graph, a: int, d: int) -> (c: int)
    requires
        valid_graph(g),
        0 <= d < g.len(),
        is_ancestor(g, a, d),
        a != d,
    ensures
        a < c <= d,
        is_parent(g, a, c),
        is_ancestor(g, c, d),
    decreases d,
{
    let p = choose|p: int| 0 <= p < d && #[trigger] is_parent(g, p, d) && is_ancestor(g, a, p);
    if p == a {
        d
    } else {
        let c = lemma_last_step(g, a, p);
        lemma_ancestor_below(g, c, p);
        c
    }
}

/// What surfaces is live, in the graph, and an ancestor of where the search began.
pub proof fn lemma_surfaces(g: Graph, live: Set<int>, q: int, h: int)
    requires
        0 <= h,
        surfaces(g, live, q, h),
    ensures
        live.contains(q),
        0 <= q <= h,
        is_ancestor(g, q, h),
    decreases h,
{
    if !live.contains(h) {
        let p = choose|p: int|
            0 <= p < h && #[trigger] is_parent(g, p, h) && surfaces(g, live, q, p);
        lemma_surfaces(g, live, q, p);
    }
}

/// How many visits a search down from `p` makes at most, if it goes to every
/// parent of every commit that it comes to.
pub open spec fn weight(g: Graph, p: int) -> nat
    decreases p, g[p].parents.len() + 1,
{
    if 0 <= p < g.len() {
        1 + total_weight(g, g[p].parents, p)
    } else {
        1
    }
}

/// The sum of the weights of `s`, all below `bound`.
pub open spec fn total_weight(g: Graph, s: Seq<int>, bound: int) -> nat
    decreases bound, s.len(),
{
    if s.len() == 0 {
        0
    } else {
        total_weight(g, s.drop_last(), bound) + if 0 <= s.last() < bound {
            weight(g, s.last())
        } else {
            0
        }
    }
}

/// The bound does not matter to elements below it.
pub proof fn lemma_total_weight(g: Graph, s: Seq<int>, b: int, c: int)
    requires
        forall|i: int| 0 <= i < s.len() ==> 0 <= #[trigger] s[i] < b && s[i] < c,
    ensures
        total_weight(g, s, b) == total_weight(g, s, c),
    decreases s.len(),
{
    if s.len() > 0 {
        assert(s.last() == s[s.len() - 1]);
        lemma_total_weight(g, s.drop_last(), b, c);
    }
}

/// Weights add up.
pub proof fn lemma_total_weight_concat(g: Graph, s: Seq<int>, t: Seq<int>, bound: int)
    ensures
        total_weight(g, s + t, bound) == total_weight(g, s, bound) + total_weight(g, t, bound),
    decreases t.len(),
{
    if t.len() == 0 {
        assert(s + t =~= s);
    } else {
        assert((s + t).drop_last() =~= s + t.drop_last());
        assert((s + t).last() == t.last());
        lemma_total_weight_concat(g, s, t.drop_last(), bound);
    }
}

/// Putting the parents of a commit in its place makes the weight smaller.
pub proof fn lemma_weight_step(g: Graph, s: Seq<int>, p: int)
    requires
        valid_graph(g),
        0 <= p < g.len(),
    ensures
        total_weight(g, s, g.len() as int) < total_weight(g, s.push(p), g.len() as int),
        total_weight(g, s + g[p].parents, g.len() as int) < total_weight(
            g,
            s.push(p),
            g.len() as int,
        ),
{
    let n = g.len() as int;
    assert(s.push(p).drop_last() =~= s);
    assert(total_weight(g, s.push(p), n) == total_weight(g, s, n) + weight(g, p));
    lemma_total_weight_concat(g, s, g[p].parents, n);
    lemma_total_weight(g, g[p].parents, p, n);
}

/// What surfaces from `h` and from the commits in `s`.
pub proof fn lemma_surface_insert(g: Graph, live: Set<int>, s: Set<int>, h: int, q: int)
    ensures
        surface(g, live, s.insert(h)).contains(q) <==> surface(g, live, s).contains(q) || surfaces(
            g,
            live,
            q,
            h,
        ),
{
    if surface(g, live, s).contains(q) {
        let d = choose|d: int| #[trigger] s.contains(d) && surfaces(g, live, q, d);
        assert(s.insert(h).contains(d));
    }
    if surfaces(g, live, q, h) {
        assert(s.insert(h).contains(h));
    }
    if surface(g, live, s.insert(h)).contains(q) {
        let d = choose|d: int| #[trigger] s.insert(h).contains(d) && surfaces(g, live, q, d);
        if d != h {
            assert(s.contains(d));
        }
    }
}

} // verus!
