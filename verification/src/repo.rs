//! What a revset is evaluated against: a store, a view, an index and the
//! evolution of commits.
use crate::commit::{CommitId, Store, StoreModel};
use crate::graph::Graph;
use crate::index::Index;
use crate::text::same_text;
use vstd::prelude::*;

verus! {

/// A git ref and the commit it points to.
#[derive(Debug)]
pub struct GitRef {
    pub name: String,
    pub target: CommitId,
}

/// What a repository shows: the commit that is checked out, git refs, and heads.
/// Of two refs of one name the later one holds.
#[derive(Debug)]
pub struct RepoView {
    pub checkout: CommitId,
    pub git_refs: Vec<GitRef>,
    pub heads: Vec<CommitId>,
}

/// The mathematical value of a [`RepoView`].
pub struct RepoViewModel {
    pub checkout: Seq<u8>,
    pub git_refs: Map<Seq<char>, Seq<u8>>,
    pub heads: Set<Seq<u8>>,
}

/// Where each ref points.
pub open spec fn ref_map(refs: Seq<GitRef>) -> Map<Seq<char>, Seq<u8>>
    decreases refs.len(),
{
    if refs.len() == 0 {
        Map::empty()
    } else {
        ref_map(refs.drop_last()).insert(refs.last().name@, refs.last().target@)
    }
}

/// The ids in `ids`.
pub open spec fn id_set(ids: Seq<CommitId>) -> Set<Seq<u8>> {
    Set::new(|id: Seq<u8>| exists|k: int| 0 <= k < ids.len() && #[trigger] ids[k]@ == id)
}

impl View for RepoView {
    type V = RepoViewModel;

    open spec fn view(&self) -> RepoViewModel {
        RepoViewModel {
            checkout: self.checkout@,
            git_refs: ref_map(self.git_refs@),
            heads: id_set(self.heads@),
        }
    }
}

impl RepoView {
    /// The commit that is checked out.
    pub fn checkout(&self) -> (r: &CommitId)
        ensures
            r@ == self@.checkout,
    {
        &self.checkout
    }

    /// The commit that the git ref `name` points to.
    pub fn git_ref(&self, name: &str) -> (r: Option<CommitId>)
        ensures
            r is Some <==> self@.git_refs.dom().contains(name@),
            r matches Some(id) ==> id@ == self@.git_refs[name@],
    {
        let mut k: usize = self.git_refs.len();
        assert(self.git_refs@.take(k as int) =~= self.git_refs@);
        while k > 0
            invariant
                k <= self.git_refs@.len(),
                self@.git_refs.dom().contains(name@) <==> ref_map(
                    self.git_refs@.take(k as int),
                ).dom().contains(name@),
                self@.git_refs.dom().contains(name@) ==> self@.git_refs[name@] == ref_map(
                    self.git_refs@.take(k as int),
                )[name@],
            decreases k,
        {
            assert(self.git_refs@.take(k as int).drop_last() =~= self.git_refs@.take(k - 1));
            k -= 1;
            let git_ref = &self.git_refs[k];
            if same_text(&git_ref.name, name) {
                return Some(git_ref.target.clone());
            }
        }
        None
    }

    /// The heads.
    pub fn heads(&self) -> (r: &Vec<CommitId>)
        ensures
            id_set(r@) == self@.heads,
    {
        &self.heads
    }
}

/// Which commits are obsolete.
#[derive(Debug)]
pub struct Evolution {
    pub obsolete: Vec<CommitId>,
}

impl View for Evolution {
    type V = Set<Seq<u8>>;

    open spec fn view(&self) -> Set<Seq<u8>> {
        id_set(self.obsolete@)
    }
}

impl Evolution {
    /// Whether the commit `id` is obsolete.
    pub fn is_obsolete(&self, id: &CommitId) -> (r: bool)
        ensures
            r == self@.contains(id@),
    {
        for k in 0..self.obsolete.len()
            invariant
                forall|j: int| 0 <= j < k ==> #[trigger] self.obsolete@[j]@ != id@,
        {
            if self.obsolete[k].same(id) {
                assert(self.obsolete@[k as int]@ == id@);
                return true;
            }
        }
        false
    }
}

/// A reference to a repository.
#[derive(Clone, Copy)]
pub struct RepoRef<'repo> {
    pub store: &'repo Store,
    pub view: &'repo RepoView,
    pub index: &'repo Index,
    pub evolution: &'repo Evolution,
}

/// The mathematical value of a [`RepoRef`].
pub struct RepoModel {
    pub store: StoreModel,
    pub view: RepoViewModel,
    pub index: Graph,
    pub obsolete: Set<Seq<u8>>,
}

impl<'repo> View for RepoRef<'repo> {
    type V = RepoModel;

    open spec fn view(&self) -> RepoModel {
        RepoModel {
            store: self.store@,
            view: self.view@,
            index: self.index@,
            obsolete: self.evolution@,
        }
    }
}

} // verus!
