//! What holds of every symbol.
use crate::commit::{CommitModel, StoreError, StoreErrorModel};
use crate::graph::Graph;
use crate::hexadecimal::{
    begins_with, hex_bytes, hex_text, hex_text_is_read_back, is_hex, is_hex_bytes, is_hex_prefix,
    is_lower_hex, nth_digit,
};
use crate::index::{is_resolution, matches_at, PrefixResolution};
use crate::model_properties::{hexadecimal_digits, hexadecimal_texts, spells};
use crate::repo::RepoModel;
use crate::resolve::{
    git_ref_prefixes, read, ref_target, resolution, Resolution, RevsetError, RevsetErrorModel,
};
use vstd::prelude::*;
use vstd::std_specs::convert::FromSpec;

verus! {

/// "@" is the commit that is checked out and "root" is the root commit, whatever
/// git refs there are.
pub proof fn reserved_symbols(repo: RepoModel)
    ensures
        resolution(repo, "@"@) == read(repo, repo.view.checkout),
        resolution(repo, "root"@) == Ok::<_, RevsetErrorModel>(repo.store.root),
{
    reveal_strlit("@");
    reveal_strlit("root");
    assert("@"@.len() != "root"@.len());
}

/// Whether `symbol` is neither "@" nor "root".
pub open spec fn is_ordinary(symbol: Seq<char>) -> bool {
    symbol != "@"@ && symbol != "root"@
}

/// A symbol that is the name of a git ref under one of the places where refs are
/// looked for, and under none before it, stands for what that ref points to.
pub proof fn first_git_ref_wins(repo: RepoModel, symbol: Seq<char>, k: int)
    requires
        is_ordinary(symbol),
        0 <= k < git_ref_prefixes().len(),
        repo.view.git_refs.dom().contains(git_ref_prefixes()[k] + symbol),
        forall|j: int|
            0 <= j < k ==> !repo.view.git_refs.dom().contains(
                #[trigger] git_ref_prefixes()[j] + symbol,
            ),
    ensures
        resolution(repo, symbol) == read(
            repo,
            repo.view.git_refs[git_ref_prefixes()[k] + symbol],
        ),
{
    let all = git_ref_prefixes();
    assert(all.skip(0) =~= all);
    lemma_ref_target(repo, symbol, all, 0, k);
}

proof fn lemma_ref_target(
    repo: RepoModel,
    symbol: Seq<char>,
    all: Seq<Seq<char>>,
    from: int,
    k: int,
)
    requires
        0 <= from <= k < all.len(),
        repo.view.git_refs.dom().contains(all[k] + symbol),
        forall|j: int|
            0 <= j < k ==> !repo.view.git_refs.dom().contains(#[trigger] all[j] + symbol),
    ensures
        ref_target(repo.view.git_refs, all.skip(from), symbol) == Some(
            repo.view.git_refs[all[k] + symbol],
        ),
    decreases k - from,
{
    assert(all.skip(from)[0] == all[from]);
    if from < k {
        lemma_ref_target(repo, symbol, all, from + 1, k);
        assert(all.skip(from).drop_first() =~= all.skip(from + 1));
    }
}

/// The full name of a git ref stands for what the ref points to.
pub proof fn full_git_ref_name(repo: RepoModel, name: Seq<char>)
    requires
        is_ordinary(name),
        repo.view.git_refs.dom().contains(name),
    ensures
        resolution(repo, name) == read(repo, repo.view.git_refs[name]),
{
    reveal_strlit("");
    assert(git_ref_prefixes()[0] + name =~= name);
    first_git_ref_wins(repo, name, 0);
}

/// The hexadecimal text of an id is an ordinary symbol.
pub proof fn lemma_hex_text_is_ordinary(id: Seq<u8>)
    ensures
        is_ordinary(hex_text(id)),
        is_hex_prefix(hex_text(id)),
{
    let s = hex_text(id);
    hex_text_is_read_back(id);
    assert forall|k: int| 0 <= k < s.len() implies is_lower_hex(#[trigger] s[k]) by {
        assert(0 <= id[k / 2] as int / 16 < 16);
    }
    reveal_strlit("@");
    reveal_strlit("root");
    if s == "root"@ {
        assert(is_hex(s[0]));
        assert(false);
    }
    assert(s.len() % 2 == 0);
}

/// The full id of a commit, as hexadecimal text that is not the name of a git
/// ref, stands for that commit, even where it is also a prefix of other ids.
pub proof fn full_commit_id(repo: RepoModel, id: Seq<u8>)
    requires
        ref_target(repo.view.git_refs, git_ref_prefixes(), hex_text(id)) is None,
        repo.store.get_commit(id) is Ok,
    ensures
        resolution(repo, hex_text(id)) == Ok::<_, RevsetErrorModel>(
            repo.store.get_commit(id)->Ok_0,
        ),
{
    lemma_hex_text_is_ordinary(id);
    hex_text_is_read_back(id);
}

/// A prefix of the hexadecimal text of just one id in the index, that is neither
/// the name of a git ref nor itself the full id of a commit, stands for the
/// commit with that id.
pub proof fn unique_prefix(repo: RepoModel, p: int, n: int)
    requires
        0 <= p < repo.index.len(),
        0 <= n <= hex_text(repo.index[p].id).len(),
        ref_target(
            repo.view.git_refs,
            git_ref_prefixes(),
            hex_text(repo.index[p].id).take(n),
        ) is None,
        is_hex_bytes(hex_text(repo.index[p].id).take(n)) ==> repo.store.get_commit(
            hex_bytes(hex_text(repo.index[p].id).take(n)),
        ) == Err::<CommitModel, _>(StoreErrorModel::NotFound),
        forall|q: int|
            0 <= q < repo.index.len() && q != p ==> !begins_with(
                #[trigger] repo.index[q].id,
                hex_text(repo.index[p].id).take(n),
            ),
    ensures
        resolution(repo, hex_text(repo.index[p].id).take(n)) == read(repo, repo.index[p].id),
{
    let id = repo.index[p].id;
    let symbol = hex_text(id).take(n);
    lemma_hex_text_is_ordinary(id);
    assert forall|k: int| 0 <= k < symbol.len() implies is_lower_hex(#[trigger] symbol[k]) by {
        assert(is_lower_hex(hex_text(id)[k]));
    }
    assert(begins_with(id, symbol)) by {
        assert forall|k: int| 0 <= k < symbol.len() implies #[trigger] symbol[k] == nth_digit(
            id,
            k,
        ) by {
            assert(symbol[k] == hex_text(id)[k]);
        }
    }
    assert(matches_at(repo.index, symbol, p));
    assert forall|q: int| #[trigger] matches_at(repo.index, symbol, q) implies q == p by {
        if q != p {
            assert(!begins_with(repo.index[q].id, symbol));
        }
    }
    reveal_strlit("@");
    reveal_strlit("root");
    if symbol == "@"@ {
        assert(is_lower_hex(symbol[0]));
        assert(false);
    }
    if symbol == "root"@ {
        assert(is_lower_hex(symbol[0]));
        assert(false);
    }
}

/// An error about a symbol names that symbol.
pub proof fn errors_name_the_symbol(repo: RepoModel, symbol: Seq<char>)
    ensures
        resolution(repo, symbol) matches Err(RevsetErrorModel::NoSuchRevision(named)) ==> named
            == symbol,
        resolution(repo, symbol) matches Err(RevsetErrorModel::AmbiguousCommitIdPrefix(named))
            ==> named == symbol,
{
}

/// A symbol that is no reserved word, names no git ref and is no hexadecimal
/// text is refused as a revision that does not exist.
pub proof fn unknown_symbol(repo: RepoModel, symbol: Seq<char>)
    requires
        is_ordinary(symbol),
        ref_target(repo.view.git_refs, git_ref_prefixes(), symbol) is None,
        exists|k: int| 0 <= k < symbol.len() && !is_hex(#[trigger] symbol[k]),
    ensures
        resolution(repo, symbol) == Err::<CommitModel, _>(
            RevsetErrorModel::NoSuchRevision(symbol),
        ),
{
    let k = choose|k: int| 0 <= k < symbol.len() && !is_hex(#[trigger] symbol[k]);
    assert(!is_lower_hex(symbol[k]));
}

/// Whether `r` is the commit `id` as the store gives it, or the error that the
/// store gives in its place.
pub open spec fn is_read(repo: RepoModel, id: Seq<u8>, r: Resolution) -> bool {
    match repo.store.get_commit(id) {
        Ok(commit) => r == Ok::<_, RevsetErrorModel>(commit),
        Err(error) => r == Err::<CommitModel, _>(RevsetErrorModel::StoreError(error)),
    }
}

/// Whether no git ref is named `symbol`, in full or without "refs/", "refs/heads/",
/// "refs/tags/" or "refs/remotes/".
pub open spec fn names_no_ref(repo: RepoModel, symbol: Seq<char>) -> bool {
    let names = repo.view.git_refs.dom();
    &&& !names.contains(symbol)
    &&& !names.contains("refs/"@ + symbol)
    &&& !names.contains("refs/heads/"@ + symbol)
    &&& !names.contains("refs/tags/"@ + symbol)
    &&& !names.contains("refs/remotes/"@ + symbol)
}

/// What each kind of symbol comes to before it is tried as a commit id: "@" is
/// the checkout, "root" the root commit, and every other symbol the first git
/// ref that it names, in full, then without "refs/", "refs/heads/", "refs/tags/"
/// and "refs/remotes/".
pub proof fn words_and_refs(repo: RepoModel, symbol: Seq<char>)
    ensures
        symbol == "@"@ ==> is_read(repo, repo.view.checkout, resolution(repo, symbol)),
        symbol == "root"@ ==> resolution(repo, symbol) == Ok::<_, RevsetErrorModel>(
            repo.store.root,
        ),
        symbol != "@"@ && symbol != "root"@ ==> {
            let refs = repo.view.git_refs;
            let names = refs.dom();
            if names.contains(symbol) {
                is_read(repo, refs[symbol], resolution(repo, symbol))
            } else if names.contains("refs/"@ + symbol) {
                is_read(repo, refs["refs/"@ + symbol], resolution(repo, symbol))
            } else if names.contains("refs/heads/"@ + symbol) {
                is_read(repo, refs["refs/heads/"@ + symbol], resolution(repo, symbol))
            } else if names.contains("refs/tags/"@ + symbol) {
                is_read(repo, refs["refs/tags/"@ + symbol], resolution(repo, symbol))
            } else if names.contains("refs/remotes/"@ + symbol) {
                is_read(repo, refs["refs/remotes/"@ + symbol], resolution(repo, symbol))
            } else {
                names_no_ref(repo, symbol)
            }
        },
{
    reserved_symbols(repo);
    reveal_strlit("");
    let all = git_ref_prefixes();
    assert(all[0] + symbol =~= symbol);
    let names = repo.view.git_refs.dom();
    if symbol != "@"@ && symbol != "root"@ {
        if names.contains(symbol) {
            first_git_ref_wins(repo, symbol, 0);
        } else if names.contains(all[1] + symbol) {
            first_git_ref_wins(repo, symbol, 1);
        } else if names.contains(all[2] + symbol) {
            first_git_ref_wins(repo, symbol, 2);
        } else if names.contains(all[3] + symbol) {
            first_git_ref_wins(repo, symbol, 3);
        } else if names.contains(all[4] + symbol) {
            first_git_ref_wins(repo, symbol, 4);
        }
    }
}

proof fn lemma_no_ref(repo: RepoModel, symbol: Seq<char>)
    requires
        names_no_ref(repo, symbol),
    ensures
        ref_target(repo.view.git_refs, git_ref_prefixes(), symbol) is None,
{
    reveal_strlit("");
    reveal_with_fuel(ref_target, 6);
    assert(git_ref_prefixes()[0] + symbol =~= symbol);
}

/// A symbol that writes a whole number of bytes, in either case, and names no git
/// ref, stands for the commit with that id, or for the error that the store gives
/// in its place, unless the store does not find it.
pub proof fn whole_commit_ids(repo: RepoModel, symbol: Seq<char>)
    requires
        is_ordinary(symbol),
        names_no_ref(repo, symbol),
        is_hex_bytes(symbol),
        repo.store.get_commit(hex_bytes(symbol)) != Err::<CommitModel, _>(
            StoreErrorModel::NotFound,
        ),
    ensures
        is_read(repo, hex_bytes(symbol), resolution(repo, symbol)),
{
    lemma_no_ref(repo, symbol);
}

/// Whether `symbol` is left to be tried as the beginning of a commit id: it is no
/// word, names no git ref, and is not the whole id of anything that the store
/// finds.
pub open spec fn is_left_to_prefixes(repo: RepoModel, symbol: Seq<char>) -> bool {
    &&& symbol != "@"@
    &&& symbol != "root"@
    &&& names_no_ref(repo, symbol)
    &&& is_hex_bytes(symbol) ==> repo.store.get_commit(hex_bytes(symbol)) == Err::<CommitModel, _>(
        StoreErrorModel::NotFound,
    )
}

/// Where two ids in the index begin with a symbol it is refused as ambiguous,
/// whatever else the repository holds.
pub proof fn ambiguous_prefixes(repo: RepoModel, symbol: Seq<char>, p: int, q: int)
    requires
        is_left_to_prefixes(repo, symbol),
        0 <= p < repo.index.len(),
        0 <= q < repo.index.len(),
        p != q,
        spells(repo.index[p].id, symbol),
        spells(repo.index[q].id, symbol),
    ensures
        resolution(repo, symbol) == Err::<CommitModel, _>(
            RevsetErrorModel::AmbiguousCommitIdPrefix(symbol),
        ),
{
    lemma_no_ref(repo, symbol);
    hexadecimal_texts(repo.index[p].id, symbol);
    hexadecimal_texts(repo.index[q].id, symbol);
    lemma_spelled_is_hex(repo.index[p].id, symbol);
    assert(matches_at(repo.index, symbol, p));
    assert(matches_at(repo.index, symbol, q));
}

/// Where just one id in the index begins with a symbol, that is the commit that
/// is read.
pub proof fn single_prefixes(repo: RepoModel, symbol: Seq<char>, p: int)
    requires
        is_left_to_prefixes(repo, symbol),
        0 <= p < repo.index.len(),
        spells(repo.index[p].id, symbol),
        forall|q: int|
            0 <= q < repo.index.len() && q != p ==> !spells((#[trigger] repo.index[q]).id, symbol),
    ensures
        is_read(repo, repo.index[p].id, resolution(repo, symbol)),
{
    lemma_no_ref(repo, symbol);
    hexadecimal_texts(repo.index[p].id, symbol);
    lemma_spelled_is_hex(repo.index[p].id, symbol);
    assert(matches_at(repo.index, symbol, p));
    assert forall|q: int| #[trigger] matches_at(repo.index, symbol, q) implies q == p by {
        hexadecimal_texts(repo.index[q].id, symbol);
    }
}

/// Where no id in the index begins with a symbol, there is no such revision.
pub proof fn missing_prefixes(repo: RepoModel, symbol: Seq<char>)
    requires
        is_left_to_prefixes(repo, symbol),
        forall|q: int| 0 <= q < repo.index.len() ==> !spells((#[trigger] repo.index[q]).id, symbol),
    ensures
        resolution(repo, symbol) == Err::<CommitModel, _>(
            RevsetErrorModel::NoSuchRevision(symbol),
        ),
{
    lemma_no_ref(repo, symbol);
    assert forall|q: int| !#[trigger] matches_at(repo.index, symbol, q) by {
        if 0 <= q < repo.index.len() {
            hexadecimal_texts(repo.index[q].id, symbol);
        }
    }
}

proof fn lemma_spelled_is_hex(id: Seq<u8>, symbol: Seq<char>)
    requires
        spells(id, symbol),
    ensures
        is_hex_prefix(symbol),
{
    assert forall|k: int| 0 <= k < symbol.len() implies is_lower_hex(#[trigger] symbol[k]) by {
        hexadecimal_digits(id[k / 2] as int / 16, symbol[k]);
        hexadecimal_digits(id[k / 2] as int % 16, symbol[k]);
        assert(0 <= id[k / 2] as int / 16 < 16);
    }
}

/// What looking for a prefix in the index gives: nothing where no id begins with
/// it, the id where just one does, and otherwise that it is ambiguous.
pub proof fn prefixes_in_the_index(g: Graph, prefix: Seq<char>, r: PrefixResolution)
    ensures
        is_resolution(g, prefix, r) <==> match r {
            PrefixResolution::NoMatch => forall|p: int|
                0 <= p < g.len() ==> !spells((#[trigger] g[p]).id, prefix),
            PrefixResolution::SingleMatch(id) => exists|p: int|
                0 <= p < g.len() && spells((#[trigger] g[p]).id, prefix) && id.0@ == g[p].id && (
                forall|q: int| 0 <= q < g.len() && spells((#[trigger] g[q]).id, prefix) ==> q == p),
            PrefixResolution::AmbiguousMatch => exists|p: int, q: int|
                0 <= p < g.len() && 0 <= q < g.len() && p != q && spells(
                    (#[trigger] g[p]).id,
                    prefix,
                ) && spells((#[trigger] g[q]).id, prefix),
        },
{
    assert forall|p: int| #[trigger] matches_at(g, prefix, p) <==> 0 <= p < g.len() && spells(
        g[p].id,
        prefix,
    ) by {
        hexadecimal_texts(g[p].id, prefix);
    }
    assert forall|p: int| 0 <= p < g.len() implies matches_at(g, prefix, p) == spells(
        (#[trigger] g[p]).id,
        prefix,
    ) by {
        assert(matches_at(g, prefix, p) <==> 0 <= p < g.len() && spells(g[p].id, prefix));
    }
    match r {
        PrefixResolution::NoMatch => {},
        PrefixResolution::SingleMatch(id) => {
            if is_resolution(g, prefix, r) {
                let p = choose|p: int| #[trigger]
                    matches_at(g, prefix, p) && id@ == g[p].id && forall|q: int| #[trigger]
                        matches_at(g, prefix, q) ==> q == p;
                assert(spells(g[p].id, prefix));
            }
            if exists|p: int|
                0 <= p < g.len() && spells((#[trigger] g[p]).id, prefix) && id.0@ == g[p].id && (
                forall|q: int|
                    0 <= q < g.len() && spells((#[trigger] g[q]).id, prefix) ==> q == p) {
                let p = choose|p: int|
                    0 <= p < g.len() && spells((#[trigger] g[p]).id, prefix) && id.0@ == g[p].id
                        && (forall|q: int|
                        0 <= q < g.len() && spells((#[trigger] g[q]).id, prefix) ==> q == p);
                assert(matches_at(g, prefix, p));
            }
        },
        PrefixResolution::AmbiguousMatch => {
            if is_resolution(g, prefix, r) {
                let (p, q) = choose|p: int, q: int| #[trigger]
                    matches_at(g, prefix, p) && #[trigger] matches_at(g, prefix, q) && p != q;
                assert(spells(g[p].id, prefix) && spells(g[q].id, prefix));
            }
            if exists|p: int, q: int|
                0 <= p < g.len() && 0 <= q < g.len() && p != q && spells(
                    (#[trigger] g[p]).id,
                    prefix,
                ) && spells((#[trigger] g[q]).id, prefix) {
                let (p, q) = choose|p: int, q: int|
                    0 <= p < g.len() && 0 <= q < g.len() && p != q && spells(
                        (#[trigger] g[p]).id,
                        prefix,
                    ) && spells((#[trigger] g[q]).id, prefix);
                assert(matches_at(g, prefix, p) && matches_at(g, prefix, q));
            }
        },
    }
}

/// What a symbol stands for depends on the checkout and the root commit only for
/// "@" and "root", and never on heads or on what is obsolete.
pub proof fn resolution_looks_at_nothing_else(
    repo: RepoModel,
    other: RepoModel,
    symbol: Seq<char>,
)
    requires
        repo.store.records == other.store.records,
        repo.view.git_refs == other.view.git_refs,
        repo.index == other.index,
        symbol == "@"@ ==> repo.view.checkout == other.view.checkout,
        symbol == "root"@ ==> repo.store.root == other.store.root,
    ensures
        resolution(repo, symbol) == resolution(other, symbol),
{
    reserved_symbols(repo);
    reserved_symbols(other);
    reveal_strlit("@");
    reveal_strlit("root");
    assert(forall|id: Seq<u8>| #[trigger] repo.store.get_commit(id) == other.store.get_commit(id));
    if symbol != "@"@ && symbol != "root"@ {
        words_and_refs(repo, symbol);
        words_and_refs(other, symbol);
        if names_no_ref(repo, symbol) {
            lemma_no_ref(repo, symbol);
            lemma_no_ref(other, symbol);
        }
    }
}

/// An error of the store becomes the error of resolving that holds it.
pub proof fn store_errors_are_wrapped(error: StoreError)
    ensures
        <RevsetError as FromSpec<StoreError>>::from_spec(error) == RevsetError::StoreError(error),
{
}

} // verus!
