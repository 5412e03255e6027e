//! What a symbol in a revset stands for.
use crate::commit::{Commit, CommitId, CommitModel, StoreError, StoreErrorModel};
use crate::hexadecimal::{decode_hex, hex_bytes, is_hex_bytes, is_hex_prefix, HexPrefix};
use crate::index::{matches_at, PrefixResolution};
use crate::repo::{RepoModel, RepoRef};
use crate::text::same_text;
use vstd::prelude::*;
use vstd::string::*;

verus! {

/// Why a revset cannot be evaluated.
#[derive(Debug, PartialEq, Eq)]
pub enum RevsetError {
    NoSuchRevision(String),
    AmbiguousCommitIdPrefix(String),
    StoreError(StoreError),
}

/// The mathematical value of a [`RevsetError`].
pub enum RevsetErrorModel {
    NoSuchRevision(Seq<char>),
    AmbiguousCommitIdPrefix(Seq<char>),
    StoreError(StoreErrorModel),
}

impl View for RevsetError {
    type V = RevsetErrorModel;

    open spec fn view(&self) -> RevsetErrorModel {
        match self {
            RevsetError::NoSuchRevision(symbol) => RevsetErrorModel::NoSuchRevision(symbol@),
            RevsetError::AmbiguousCommitIdPrefix(symbol) =>
                RevsetErrorModel::AmbiguousCommitIdPrefix(symbol@),
            RevsetError::StoreError(error) => RevsetErrorModel::StoreError(error@),
        }
    }
}

impl RevsetErrorModel {
    /// The error in words.
    pub open spec fn message(self) -> Seq<char> {
        match self {
            RevsetErrorModel::NoSuchRevision(symbol) => "Revision \""@ + symbol
                + "\" doesn't exist"@,
            RevsetErrorModel::AmbiguousCommitIdPrefix(symbol) => "Commit id prefix \""@ + symbol
                + "\" is ambiguous"@,
            RevsetErrorModel::StoreError(error) => "Unexpected error from store: "@
                + error.message(),
        }
    }
}

impl RevsetError {
    /// The error in words.
    pub fn message(&self) -> (r: String)
        ensures
            r@ == self@.message(),
    {
        match self {
            RevsetError::NoSuchRevision(symbol) => "Revision \"".to_owned().concat(symbol).concat(
                "\" doesn't exist",
            ),
            RevsetError::AmbiguousCommitIdPrefix(symbol) =>
                "Commit id prefix \"".to_owned().concat(symbol).concat("\" is ambiguous"),
            RevsetError::StoreError(error) => "Unexpected error from store: ".to_owned().concat(
                &error.message(),
            ),
        }
    }
}

impl From<StoreError> for RevsetError {
    fn from(error: StoreError) -> (r: RevsetError) {
        RevsetError::StoreError(error)
    }
}

impl vstd::std_specs::convert::FromSpecImpl<StoreError> for RevsetError {
    open spec fn obeys_from_spec() -> bool {
        true
    }

    open spec fn from_spec(error: StoreError) -> RevsetError {
        RevsetError::StoreError(error)
    }
}

/// What a symbol stands for, or why it stands for nothing.
pub type Resolution = Result<CommitModel, RevsetErrorModel>;

/// The value of an outcome of resolving a symbol.
pub open spec fn resolution_outcome(r: Result<Commit, RevsetError>) -> Resolution {
    match r {
        Ok(commit) => Ok(commit@),
        Err(error) => Err(error@),
    }
}

/// The places where a git ref is looked for, in this order.
pub open spec fn git_ref_prefixes() -> Seq<Seq<char>> {
    seq![""@, "refs/"@, "refs/heads/"@, "refs/tags/"@, "refs/remotes/"@]
}

/// Where the first ref among those named `symbol` under `prefixes` points.
pub open spec fn ref_target(
    refs: Map<Seq<char>, Seq<u8>>,
    prefixes: Seq<Seq<char>>,
    symbol: Seq<char>,
) -> Option<Seq<u8>>
    decreases prefixes.len(),
{
    if prefixes.len() == 0 {
        None
    } else if refs.dom().contains(prefixes[0] + symbol) {
        Some(refs[prefixes[0] + symbol])
    } else {
        ref_target(refs, prefixes.drop_first(), symbol)
    }
}

/// The commit `id`, as the store gives it.
pub open spec fn read(repo: RepoModel, id: Seq<u8>) -> Resolution {
    match repo.store.get_commit(id) {
        Ok(commit) => Ok(commit),
        Err(error) => Err(RevsetErrorModel::StoreError(error)),
    }
}

/// What `symbol` stands for as the beginning of a commit id.
pub open spec fn prefix_resolution(repo: RepoModel, symbol: Seq<char>) -> Resolution {
    if !is_hex_prefix(symbol) || forall|p: int| !#[trigger] matches_at(repo.index, symbol, p) {
        Err(RevsetErrorModel::NoSuchRevision(symbol))
    } else if exists|p: int, q: int| #[trigger]
        matches_at(repo.index, symbol, p) && #[trigger] matches_at(repo.index, symbol, q) && p
            != q {
        Err(RevsetErrorModel::AmbiguousCommitIdPrefix(symbol))
    } else {
        let p = choose|p: int| #[trigger] matches_at(repo.index, symbol, p);
        read(repo, repo.index[p].id)
    }
}

/// What `symbol` stands for as a commit id: a full id that the store does not
/// miss comes before a prefix.
pub open spec fn id_resolution(repo: RepoModel, symbol: Seq<char>) -> Resolution {
    if is_hex_bytes(symbol) && repo.store.get_commit(hex_bytes(symbol)) != Err::<CommitModel, _>(
        StoreErrorModel::NotFound,
    ) {
        read(repo, hex_bytes(symbol))
    } else {
        prefix_resolution(repo, symbol)
    }
}

/// What `symbol` stands for: the commit that is checked out, the root commit,
/// what a git ref points to, or a commit by its id.
pub open spec fn resolution(repo: RepoModel, symbol: Seq<char>) -> Resolution {
    if symbol == "@"@ {
        read(repo, repo.view.checkout)
    } else if symbol == "root"@ {
        Ok(repo.store.root)
    } else {
        match ref_target(repo.view.git_refs, git_ref_prefixes(), symbol) {
            Some(id) => read(repo, id),
            None => id_resolution(repo, symbol),
        }
    }
}

fn read_commit(repo: RepoRef<'_>, id: &CommitId) -> (r: Result<Commit, RevsetError>)
    ensures
        resolution_outcome(r) == read(repo@, id@),
{
    match repo.store.get_commit(id) {
        Ok(commit) => Ok(commit),
        Err(error) => Err(RevsetError::from(error)),
    }
}

fn find_git_ref(repo: RepoRef<'_>, symbol: &str) -> (r: Option<CommitId>)
    ensures
        r is Some <==> ref_target(repo@.view.git_refs, git_ref_prefixes(), symbol@) is Some,
        r matches Some(id) ==> ref_target(repo@.view.git_refs, git_ref_prefixes(), symbol@)
            == Some(id@),
{
    let prefixes: Vec<&str> = vec!["", "refs/", "refs/heads/", "refs/tags/", "refs/remotes/"];
    let ghost all = git_ref_prefixes();
    assert(all.skip(0) =~= all);
    let mut k: usize = 0;
    while k < prefixes.len()
        invariant
            all == git_ref_prefixes(),
            k <= prefixes@.len() == all.len(),
            forall|j: int| 0 <= j < all.len() ==> all[j] == #[trigger] prefixes@[j]@,
            ref_target(repo@.view.git_refs, all, symbol@) == ref_target(
                repo@.view.git_refs,
                all.skip(k as int),
                symbol@,
            ),
        decreases prefixes@.len() - k,
    {
        assert(all.skip(k as int).drop_first() =~= all.skip(k + 1));
        let name = prefixes[k].to_owned().concat(symbol);
        assert(name@ == all.skip(k as int)[0] + symbol@);
        let target = repo.view.git_ref(&name);
        if target.is_some() {
            return target;
        }
        k += 1;
    }
    None
}

/// Finds the commit that `symbol` stands for.
pub fn resolve_symbol(repo: RepoRef<'_>, symbol: &str) -> (r: Result<Commit, RevsetError>)
    ensures
        resolution_outcome(r) == resolution(repo@, symbol@),
{
    if same_text(symbol, "@") {
        return read_commit(repo, repo.view.checkout());
    }
    if same_text(symbol, "root") {
        return Ok(repo.store.root_commit());
    }
    if let Some(commit_id) = find_git_ref(repo, symbol) {
        return read_commit(repo, &commit_id);
    }
    // Try a full commit id before a prefix of one.
    if let Ok(binary_commit_id) = decode_hex(symbol) {
        let commit_id = CommitId(binary_commit_id);
        match repo.store.get_commit(&commit_id) {
            Ok(commit) => {
                return Ok(commit);
            },
            Err(StoreError::NotFound) => {},
            Err(error) => {
                return Err(RevsetError::StoreError(error));
            },
        }
    }
    if let Some(prefix) = HexPrefix::new(symbol.to_owned()) {
        match repo.index.resolve_prefix(&prefix) {
            PrefixResolution::NoMatch => {
                return Err(RevsetError::NoSuchRevision(symbol.to_owned()));
            },
            PrefixResolution::AmbiguousMatch => {
                return Err(RevsetError::AmbiguousCommitIdPrefix(symbol.to_owned()));
            },
            PrefixResolution::SingleMatch(commit_id) => {
                return read_commit(repo, &commit_id);
            },
        }
    }
    Err(RevsetError::NoSuchRevision(symbol.to_owned()))
}

} // verus!
