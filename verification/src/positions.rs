//! Sets of positions in the commit graph.
use vstd::prelude::*;

verus! {

/// The elements of `v`.
pub open spec fn elements(v: Seq<u32>) -> Set<int> {
    Set::new(|p: int| exists|i: int| 0 <= i < v.len() && #[trigger] v[i] == p)
}

/// Pushing onto a list adds to its elements.
pub proof fn lemma_elements_push(v: Seq<u32>, x: u32)
    ensures
        elements(v.push(x)) == elements(v).insert(x as int),
{
    let w = v.push(x);
    assert forall|p: int| elements(w).contains(p) == elements(v).insert(x as int).contains(p) by {
        if elements(v).contains(p) {
            let i = choose|i: int| 0 <= i < v.len() && #[trigger] v[i] == p;
            assert(w[i] == p);
        }
        assert(w[v.len() as int] == x);
    }
    assert(elements(w) =~= elements(v).insert(x as int));
}

/// Whether `v` lists the elements of `s`, each once, from the highest to the lowest.
pub open spec fn lists_descending(v: Seq<u32>, s: Set<int>) -> bool {
    &&& forall|i: int, j: int| 0 <= i < j < v.len() ==> #[trigger] v[i] > #[trigger] v[j]
    &&& elements(v) == s
}

/// A set of positions, from which the highest can be taken.
pub struct PositionSet {
    ascending: Vec<u32>,
}

impl View for PositionSet {
    type V = Set<int>;

    closed spec fn view(&self) -> Set<int> {
        elements(self.ascending@)
    }
}

impl PositionSet {
    /// Whether the elements are held in ascending order.
    pub closed spec fn wf(&self) -> bool {
        forall|i: int, j: int|
            0 <= i < j < self.ascending@.len() ==> #[trigger] self.ascending@[i]
                < #[trigger] self.ascending@[j]
    }

    /// The empty set.
    pub fn new() -> (r: PositionSet)
        ensures
            r.wf(),
            r@ == Set::<int>::empty(),
    {
        let r = PositionSet { ascending: Vec::new() };
        assert(r@ =~= Set::<int>::empty());
        r
    }

    /// Adds `p` to the set.
    pub fn insert(&mut self, p: u32)
        requires
            old(self).wf(),
        ensures
            final(self).wf(),
            final(self)@ == old(self)@.insert(p as int),
    {
        let ghost before = self.ascending@;
        let mut low: usize = 0;
        let mut high: usize = self.ascending.len();
        while low < high
            invariant
                self.wf(),
                self.ascending@ == before,
                low <= high <= before.len(),
                forall|i: int| 0 <= i < low ==> before[i] < p,
                forall|i: int| high <= i < before.len() ==> before[i] >= p,
            decreases high - low,
        {
            let middle: usize = low + (high - low) / 2;
            if self.ascending[middle] < p {
                low = middle + 1;
            } else {
                high = middle;
            }
        }
        if low < self.ascending.len() && self.ascending[low] == p {
            assert(self@ =~= old(self)@.insert(p as int));
            return ;
        }
        self.ascending.insert(low, p);
        proof {
            let after = self.ascending@;
            assert(forall|i: int| 0 <= i < low ==> after[i] == before[i]);
            assert(forall|i: int| low < i < after.len() ==> after[i] == before[i - 1]);
            assert forall|q: int| self@.contains(q) == old(self)@.insert(p as int).contains(q) by {
                if old(self)@.contains(q) {
                    let i = choose|i: int| 0 <= i < before.len() && #[trigger] before[i] == q;
                    if i < low {
                        assert(after[i] == q);
                    } else {
                        assert(after[i + 1] == q);
                    }
                }
                if self@.contains(q) && q != p {
                    let i = choose|i: int| 0 <= i < after.len() && #[trigger] after[i] == q;
                    if i < low {
                        assert(before[i] == q);
                    } else {
                        assert(before[i - 1] == q);
                    }
                }
                assert(after[low as int] == p);
            }
            assert(self@ =~= old(self)@.insert(p as int));
        }
    }

    /// Takes the highest element out of the set.
    pub fn pop_max(&mut self) -> (r: Option<u32>)
        requires
            old(self).wf(),
        ensures
            final(self).wf(),
            r is None <==> old(self)@ == Set::<int>::empty(),
            r is None ==> final(self)@ == old(self)@,
            r matches Some(p) ==> {
                &&& old(self)@.contains(p as int)
                &&& forall|q: int| #[trigger] old(self)@.contains(q) ==> q <= p
                &&& final(self)@ == old(self)@.remove(p as int)
            },
    {
        let ghost before = self.ascending@;
        let r = self.ascending.pop();
        proof {
            let after = self.ascending@;
            if let Some(p) = r {
                assert(before[before.len() - 1] == p);
                assert(old(self)@.contains(p as int));
                assert forall|q: int| #[trigger] old(self)@.contains(q) implies q <= p by {
                    let i = choose|i: int| 0 <= i < before.len() && #[trigger] before[i] == q;
                }
                assert forall|q: int| self@.contains(q) == old(self)@.remove(p as int).contains(q) by {
                    if old(self)@.contains(q) && q != p {
                        let i = choose|i: int| 0 <= i < before.len() && #[trigger] before[i] == q;
                        assert(after[i] == q);
                    }
                    if self@.contains(q) {
                        let i = choose|i: int| 0 <= i < after.len() && #[trigger] after[i] == q;
                        assert(before[i] == q);
                    }
                }
                assert(self@ =~= old(self)@.remove(p as int));
            } else {
                assert(old(self)@ =~= Set::<int>::empty());
            }
        }
        r
    }

    /// The elements, from the highest to the lowest.
    pub fn into_descending(self) -> (r: Vec<u32>)
        requires
            self.wf(),
        ensures
            lists_descending(r@, self@),
    {
        let ascending = self.ascending;
        let mut r: Vec<u32> = Vec::new();
        let n: usize = ascending.len();
        for k in 0..n
            invariant
                n == ascending@.len(),
                r@.len() == k,
                forall|i: int| 0 <= i < k ==> r@[i] == ascending@[n - 1 - i],
        {
            r.push(ascending[n - 1 - k]);
        }
        assert forall|p: int| elements(r@).contains(p) == self@.contains(p) by {
            if elements(r@).contains(p) {
                let i = choose|i: int| 0 <= i < r@.len() && #[trigger] r@[i] == p;
                assert(ascending@[n - 1 - i] == p);
            }
            if self@.contains(p) {
                let i = choose|i: int| 0 <= i < ascending@.len() && #[trigger] ascending@[i] == p;
                assert(r@[n - 1 - i] == p);
            }
        }
        assert(elements(r@) =~= self@);
        r
    }
}

impl Clone for PositionSet {
    fn clone(&self) -> (r: PositionSet)
        ensures
            r@ == self@,
            self.wf() ==> r.wf(),
    {
        let ascending = self.ascending.clone();
        assert(ascending@ =~= self.ascending@);
        PositionSet { ascending }
    }
}

/// The elements of `v`, each once, from the highest to the lowest.
pub fn sort_descending(v: &Vec<u32>) -> (r: Vec<u32>)
    ensures
        lists_descending(r@, elements(v@)),
{
    let mut set = PositionSet::new();
    for k in 0..v.len()
        invariant
            set.wf(),
            forall|p: int|
                set@.contains(p) <==> exists|i: int| 0 <= i < k && #[trigger] v@[i] == p,
    {
        set.insert(v[k]);
    }
    assert(set@ =~= elements(v@));
    set.into_descending()
}

} // verus!
