//! What the models of data, texts and graphs are, in terms of the fields and the
//! characters that they are made of.
use crate::commit::{
    commit_outcome, content_model, record_map, Commit, CommitId, CommitModel, CommitRecord, Store,
    StoreError, StoreErrorModel,
};
use crate::expression::{
    expression_model, meaning, string_meaning, ExpressionModel, ParseErrorModel, RevsetExpression,
    RevsetParseError,
};
use crate::grammar::{lemma_inner_nodes, nodes, CharClass, Pair};
use crate::graph::{
    all_ancestors, all_parents, has_id, heads_of, in_graph, is_ancestor, is_parent, position_of,
    valid_graph, Graph,
};
use crate::hexadecimal::{
    begins_with, hex_bytes, hex_digit, hex_text, hex_value, is_hex, is_hex_bytes, is_hex_prefix,
    is_lower_hex, nth_digit,
};
use crate::index::{has_ids, id_positions, positions_of, wide};
use crate::positions::{elements, lists_descending};
use crate::repo::{ref_map, Evolution, GitRef, RepoRef, RepoView};
use crate::resolve::{resolution_outcome, RevsetError, RevsetErrorModel};
use crate::text::{byte_offset, decimal, occurs, occurs_at};
use vstd::prelude::*;
use vstd::utf8::encode_utf8;

verus! {

/// A commit is known by the bytes of its id and the characters of its
/// description.
pub proof fn commits_are_their_fields(commit: Commit, id: CommitId)
    ensures
        id@ == id.0@,
        commit@.id == commit.id.0@,
        commit@.description == commit.description@,
{
}

/// The errors of the store, and what reading gives, are kept as they are.
pub proof fn store_errors_are_their_fields(text: String, commit: Commit, error: StoreError)
    ensures
        StoreError::NotFound@ == StoreErrorModel::NotFound,
        StoreError::Other(text)@ == StoreErrorModel::Other(text@),
        commit_outcome(Ok(commit)) == Ok::<_, StoreErrorModel>(commit@),
        commit_outcome(Err(error)) == Err::<CommitModel, _>(error@),
{
}

/// What reads back the last of the records of a commit is what is read of it,
/// and a commit without a record is not found.
pub proof fn the_last_record_is_read(store: Store, id: Seq<u8>, k: int)
    ensures
        0 <= k < store.records@.len() && store.records@[k].id.0@ == id && (forall|j: int|
            k < j < store.records@.len() ==> (#[trigger] store.records@[j]).id.0@ != id) ==> (
        match store.records@[k].content {
            Ok(description) => store@.get_commit(id) == Ok::<_, StoreErrorModel>(
                CommitModel { id, description: description@ },
            ),
            Err(StoreError::NotFound) => store@.get_commit(id) == Err::<CommitModel, _>(
                StoreErrorModel::NotFound,
            ),
            Err(StoreError::Other(text)) => store@.get_commit(id) == Err::<CommitModel, _>(
                StoreErrorModel::Other(text@),
            ),
        }),
        (forall|j: int|
            0 <= j < store.records@.len() ==> (#[trigger] store.records@[j]).id.0@ != id)
            ==> store@.get_commit(id) == Err::<CommitModel, _>(StoreErrorModel::NotFound),
        store@.root.id == store.root.id.0@,
        store@.root.description == store.root.description@,
{
    lemma_record_map(store.records@, id, k);
}

proof fn lemma_record_map(records: Seq<CommitRecord>, id: Seq<u8>, k: int)
    ensures
        0 <= k < records.len() && records[k].id@ == id && (forall|j: int|
            k < j < records.len() ==> (#[trigger] records[j]).id.0@ != id) ==> {
            &&& record_map(records).dom().contains(id)
            &&& record_map(records)[id] == content_model(
                records[k].content,
            )
        },
        (forall|j: int| 0 <= j < records.len() ==> (#[trigger] records[j]).id.0@ != id)
            ==> !record_map(records).dom().contains(id),
    decreases records.len(),
{
    if records.len() > 0 {
        let rest = records.drop_last();
        lemma_record_map(rest, id, k);
        assert(records.last() == records[records.len() - 1]);
        assert(forall|j: int| 0 <= j < rest.len() ==> rest[j] == #[trigger] records[j]);
        assert(forall|j: int| 0 <= j < rest.len() ==> #[trigger] rest[j] == records[j]);
    }
}

/// The last of the refs of a name says where it points, and a name without a ref
/// points nowhere.
pub proof fn the_last_ref_holds(view: RepoView, name: Seq<char>, k: int)
    ensures
        0 <= k < view.git_refs@.len() && view.git_refs@[k].name@ == name && (forall|j: int|
            k < j < view.git_refs@.len() ==> (#[trigger] view.git_refs@[j]).name@ != name) ==> {
            &&& view@.git_refs.dom().contains(name)
            &&& view@.git_refs[name] == view.git_refs@[k].target.0@
        },
        (forall|j: int|
            0 <= j < view.git_refs@.len() ==> (#[trigger] view.git_refs@[j]).name@ != name)
            ==> !view@.git_refs.dom().contains(name),
{
    lemma_ref_map(view.git_refs@, name, k);
}

proof fn lemma_ref_map(refs: Seq<GitRef>, name: Seq<char>, k: int)
    ensures
        0 <= k < refs.len() && refs[k].name@ == name && (forall|j: int|
            k < j < refs.len() ==> (#[trigger] refs[j]).name@ != name) ==> {
            &&& ref_map(refs).dom().contains(name)
            &&& ref_map(refs)[name] == refs[k].target@
        },
        (forall|j: int| 0 <= j < refs.len() ==> (#[trigger] refs[j]).name@ != name)
            ==> !ref_map(refs).dom().contains(name),
    decreases refs.len(),
{
    if refs.len() > 0 {
        let rest = refs.drop_last();
        lemma_ref_map(rest, name, k);
        assert(refs.last() == refs[refs.len() - 1]);
        assert(forall|j: int| 0 <= j < rest.len() ==> rest[j] == #[trigger] refs[j]);
        assert(forall|j: int| 0 <= j < rest.len() ==> #[trigger] rest[j] == refs[j]);
    }
}

/// A view shows the checkout and just the heads that it holds, and just the
/// commits that the evolution holds are obsolete.
pub proof fn heads_and_obsolete_commits_are_those_held(
    view: RepoView,
    evolution: Evolution,
    id: Seq<u8>,
)
    ensures
        view@.checkout == view.checkout.0@,
        view@.heads.contains(id) <==> exists|k: int|
            0 <= k < view.heads@.len() && (#[trigger] view.heads@[k]).0@ == id,
        evolution@.contains(id) <==> exists|k: int|
            0 <= k < evolution.obsolete@.len() && (#[trigger] evolution.obsolete@[k]).0@ == id,
{
    if view@.heads.contains(id) {
        let k = choose|k: int| 0 <= k < view.heads@.len() && #[trigger] view.heads@[k]@ == id;
        assert(view.heads@[k].0@ == id);
    }
    if exists|k: int| 0 <= k < view.heads@.len() && (#[trigger] view.heads@[k]).0@ == id {
        let k = choose|k: int| 0 <= k < view.heads@.len() && (#[trigger] view.heads@[k]).0@ == id;
        assert(view.heads@[k]@ == id);
    }
    if evolution@.contains(id) {
        let k = choose|k: int|
            0 <= k < evolution.obsolete@.len() && #[trigger] evolution.obsolete@[k]@ == id;
        assert(evolution.obsolete@[k].0@ == id);
    }
    if exists|k: int|
        0 <= k < evolution.obsolete@.len() && (#[trigger] evolution.obsolete@[k]).0@ == id {
        let k = choose|k: int|
            0 <= k < evolution.obsolete@.len() && (#[trigger] evolution.obsolete@[k]).0@ == id;
        assert(evolution.obsolete@[k]@ == id);
    }
}

/// A reference to a repository shows its parts as they are.
pub proof fn repositories_are_their_parts(repo: RepoRef<'_>)
    ensures
        repo@.store == repo.store@,
        repo@.view == repo.view@,
        repo@.index == repo.index@,
        repo@.obsolete == repo.evolution@,
{
}

/// The errors of resolving, and what it gives, are kept as they are.
pub proof fn revset_errors_are_their_fields(text: String, error: StoreError, commit: Commit)
    ensures
        RevsetError::NoSuchRevision(text)@ == RevsetErrorModel::NoSuchRevision(text@),
        RevsetError::AmbiguousCommitIdPrefix(text)@ == RevsetErrorModel::AmbiguousCommitIdPrefix(
            text@,
        ),
        RevsetError::StoreError(error)@ == RevsetErrorModel::StoreError(error@),
        resolution_outcome(Ok(commit)) == Ok::<_, RevsetErrorModel>(commit@),
        forall|e: RevsetError| #[trigger] resolution_outcome(Err(e)) == Err::<CommitModel, _>(e@),
{
}

/// Every error in words.
pub proof fn messages_in_words(text: Seq<char>, other: Seq<char>)
    ensures
        StoreErrorModel::NotFound.message() == "Object not found"@,
        StoreErrorModel::Other(text).message() == "Error: "@ + text,
        RevsetErrorModel::NoSuchRevision(text).message() == "Revision \""@ + text
            + "\" doesn't exist"@,
        RevsetErrorModel::AmbiguousCommitIdPrefix(text).message() == "Commit id prefix \""@ + text
            + "\" is ambiguous"@,
        RevsetErrorModel::StoreError(StoreErrorModel::NotFound).message()
            == "Unexpected error from store: "@ + "Object not found"@,
        RevsetErrorModel::StoreError(StoreErrorModel::Other(text)).message()
            == "Unexpected error from store: "@ + ("Error: "@ + text),
        ParseErrorModel::SyntaxError(text).message() == text,
        ParseErrorModel::NoSuchFunction(text).message() == "Revset function \""@ + text
            + "\" doesn't exist"@,
        (ParseErrorModel::InvalidFunctionArguments { name: text, message: other }).message()
            == "Invalid arguments to revset function \""@ + text + "\": "@ + other,
{
}

/// Expressions and the errors of parsing, and what parsing gives, are kept as
/// they are.
pub proof fn expressions_are_their_fields(
    text: String,
    other: String,
    base: Box<RevsetExpression>,
)
    ensures
        RevsetExpression::Symbol(text)@ == ExpressionModel::Symbol(text@),
        RevsetExpression::Parents(base)@ == ExpressionModel::Parents(Box::new(base@)),
        RevsetExpression::Ancestors(base)@ == ExpressionModel::Ancestors(Box::new(base@)),
        RevsetExpression::AllHeads@ == ExpressionModel::AllHeads,
        RevsetExpression::NonObsoleteHeads(base)@ == ExpressionModel::NonObsoleteHeads(
            Box::new(base@),
        ),
        (RevsetExpression::Description { needle: text, base_expression: base })@ == (
        ExpressionModel::Description { needle: text@, base_expression: Box::new(base@) }),
        RevsetParseError::SyntaxError(text)@ == ParseErrorModel::SyntaxError(text@),
        RevsetParseError::NoSuchFunction(text)@ == ParseErrorModel::NoSuchFunction(text@),
        (RevsetParseError::InvalidFunctionArguments { name: text, message: other })@ == (
        ParseErrorModel::InvalidFunctionArguments { name: text@, message: other@ }),
        forall|e: RevsetExpression| #[trigger] meaning(Ok(e)) == Ok::<_, ParseErrorModel>(e@),
        forall|e: RevsetParseError| #[trigger] meaning(Err(e)) == Err::<ExpressionModel, _>(e@),
        string_meaning(Ok(text)) == Ok::<_, ParseErrorModel>(text@),
        forall|e: RevsetParseError| #[trigger] string_meaning(Err(e)) == Err::<Seq<char>, _>(e@),
{
    reveal_with_fuel(expression_model, 2);
}

/// A node of a parse tree is its rule, its text and the nodes inside it.
pub proof fn pairs_are_their_fields(pair: Pair, pairs: Seq<Pair>)
    ensures
        pair@.rule == pair.rule,
        pair@.text == pair.text@,
        pair@.inner.len() == pair.inner@.len(),
        forall|k: int| 0 <= k < pair.inner@.len() ==> #[trigger] pair@.inner[k] == pair.inner@[k]@,
        nodes(pairs).len() == pairs.len(),
        forall|k: int| 0 <= k < pairs.len() ==> #[trigger] nodes(pairs)[k] == pairs[k]@,
{
    lemma_inner_nodes(pair);
}

/// A text contains another exactly where that is a run of its characters; in
/// particular it contains every text that it is put together from.
pub proof fn occurring_is_being_a_run(needle: Seq<char>, text: Seq<char>)
    ensures
        occurs(needle, text) <==> exists|a: Seq<char>, b: Seq<char>|
            text == #[trigger] (a + needle + b),
        occurs(needle, text) <==> exists|i: int|
            0 <= i && i + needle.len() <= text.len() && #[trigger] text.subrange(
                i,
                i + needle.len(),
            ) == needle,
        forall|a: Seq<char>, b: Seq<char>| occurs(needle, #[trigger] (a + needle + b)),
{
    if occurs(needle, text) {
        let i = choose|i: int| occurs_at(needle, text, i);
        let a = text.take(i);
        let b = text.skip(i + needle.len());
        assert(text =~= a + needle + b);
        assert(text.subrange(i, i + needle.len()) == needle);
    }
    if exists|i: int|
        0 <= i && i + needle.len() <= text.len() && #[trigger] text.subrange(i, i + needle.len())
            == needle {
        let i = choose|i: int|
            0 <= i && i + needle.len() <= text.len() && #[trigger] text.subrange(
                i,
                i + needle.len(),
            ) == needle;
        assert(occurs_at(needle, text, i));
    }
    assert forall|a: Seq<char>, b: Seq<char>| occurs(needle, #[trigger] (a + needle + b)) by {
        let whole = a + needle + b;
        let i = a.len() as int;
        assert(whole.subrange(i, i + needle.len()) =~= needle);
        assert(occurs_at(needle, whole, i));
    }
}

/// A numeral of one digit is that digit, and every other numeral is that of a
/// tenth of the number with the digit of the remainder behind it.
pub proof fn numerals(n: nat, d: nat)
    requires
        d < 10,
    ensures
        decimal(d) == seq!["0123456789"@[d as int]],
        n > 0 ==> decimal(10 * n + d) == decimal(n).push("0123456789"@[d as int]),
{
    reveal_strlit("0123456789");
    if n > 0 {
        assert((10 * n + d) / 10 == n && (10 * n + d) % 10 == d);
    }
}

/// An offset in bytes is the length in UTF-8 of what stands before it.
pub proof fn byte_offsets_are_lengths(before: Seq<char>, after: Seq<char>)
    ensures
        byte_offset(before + after, before.len() as int) == encode_utf8(before).len(),
{
    assert((before + after).take(before.len() as int) =~= before);
}

/// The hexadecimal digits are "0" to "9" and "a" to "f" of either case, and are
/// written in lower case.
pub proof fn hexadecimal_digits(v: int, c: char)
    ensures
        0 <= v < 16 ==> {
            &&& hex_digit(v) == "0123456789abcdef"@[v]
            &&& hex_value("0123456789abcdef"@[v]) == v
            &&& hex_value("0123456789ABCDEF"@[v]) == v
        },
        is_hex(c) <==> "0123456789abcdefABCDEF"@.contains(c),
        is_lower_hex(c) <==> "0123456789abcdef"@.contains(c),
{
    reveal_strlit("0123456789abcdef");
    reveal_strlit("0123456789ABCDEF");
    reveal_strlit("0123456789abcdefABCDEF");
    let lower = "0123456789abcdef"@;
    let both = "0123456789abcdefABCDEF"@;
    if is_lower_hex(c) {
        if '0' <= c <= '9' {
            assert(lower[c as int - '0' as int] == c);
        } else {
            assert(lower[c as int - 'a' as int + 10] == c);
        }
    }
    if is_hex(c) {
        if '0' <= c <= '9' {
            assert(both[c as int - '0' as int] == c);
        } else if 'a' <= c <= 'f' {
            assert(both[c as int - 'a' as int + 10] == c);
        } else {
            assert(both[c as int - 'A' as int + 16] == c);
        }
    }
}

/// Whether the hexadecimal text of `id`, two digits for each byte with the more
/// significant first, begins with `symbol`.
pub open spec fn spells(id: Seq<u8>, symbol: Seq<char>) -> bool {
    &&& symbol.len() <= 2 * id.len()
    &&& forall|k: int|
        0 <= k < symbol.len() ==> #[trigger] symbol[k] == "0123456789abcdef"@[if k % 2 == 0 {
            id[k / 2] as int / 16
        } else {
            id[k / 2] as int % 16
        }]
}

/// A prefix is one that the text of an id begins with, and the text of an id is
/// all of what it begins with.
pub proof fn hexadecimal_texts(id: Seq<u8>, symbol: Seq<char>)
    ensures
        begins_with(id, symbol) <==> spells(id, symbol),
        symbol == hex_text(id) <==> spells(id, symbol) && symbol.len() == 2 * id.len(),
        is_hex_prefix(symbol) <==> forall|k: int|
            0 <= k < symbol.len() ==> "0123456789abcdef"@.contains(#[trigger] symbol[k]),
{
    assert forall|k: int| 0 <= k < 2 * id.len() implies #[trigger] nth_digit(id, k)
        == "0123456789abcdef"@[if k % 2 == 0 {
        id[k / 2] as int / 16
    } else {
        id[k / 2] as int % 16
    }] by {
        hexadecimal_digits(id[k / 2] as int / 16, '0');
        hexadecimal_digits(id[k / 2] as int % 16, '0');
    }
    assert forall|k: int| 0 <= k < symbol.len() implies is_lower_hex(#[trigger] symbol[k])
        == "0123456789abcdef"@.contains(symbol[k]) by {
        hexadecimal_digits(0, symbol[k]);
    }
    if spells(id, symbol) && symbol.len() == 2 * id.len() {
        assert(symbol =~= hex_text(id));
    }
    if symbol == hex_text(id) {
        assert forall|k: int| 0 <= k < symbol.len() implies #[trigger] symbol[k] == nth_digit(
            id,
            k,
        ) by {}
    }
}

/// What a digit of either case is worth.
pub open spec fn is_worth(c: char, v: int) -> bool {
    0 <= v < 16 && (c == "0123456789abcdef"@[v] || c == "0123456789ABCDEF"@[v])
}

/// Texts of whole bytes have an even number of hexadecimal digits, and are read
/// two digits to a byte, the more significant first.
pub proof fn hexadecimal_bytes(symbol: Seq<char>, id: Seq<u8>)
    ensures
        is_hex_bytes(symbol) <==> symbol.len() % 2 == 0 && forall|k: int|
            0 <= k < symbol.len() ==> "0123456789abcdefABCDEF"@.contains(#[trigger] symbol[k]),
        symbol.len() == 2 * id.len() && (forall|i: int|
            0 <= i < id.len() ==> is_worth(symbol[2 * i], #[trigger] id[i] as int / 16) && is_worth(
                symbol[2 * i + 1],
                id[i] as int % 16,
            )) ==> is_hex_bytes(symbol) && hex_bytes(symbol) == id,
{
    assert forall|k: int| 0 <= k < symbol.len() implies is_hex(#[trigger] symbol[k])
        == "0123456789abcdefABCDEF"@.contains(symbol[k]) by {
        hexadecimal_digits(0, symbol[k]);
    }
    if symbol.len() == 2 * id.len() && (forall|i: int|
        0 <= i < id.len() ==> is_worth(symbol[2 * i], #[trigger] id[i] as int / 16) && is_worth(
            symbol[2 * i + 1],
            id[i] as int % 16,
        )) {
        assert forall|k: int| 0 <= k < symbol.len() implies is_hex(#[trigger] symbol[k]) by {
            let i = k / 2;
            assert(is_worth(symbol[2 * i], id[i] as int / 16));
            lemma_worth(symbol[2 * i], id[i] as int / 16);
            lemma_worth(symbol[2 * i + 1], id[i] as int % 16);
            assert(k == 2 * i || k == 2 * i + 1);
        }
        assert forall|i: int| 0 <= i < id.len() implies hex_bytes(symbol)[i] == id[i] by {
            assert(is_worth(symbol[2 * i], id[i] as int / 16));
            lemma_worth(symbol[2 * i], id[i] as int / 16);
            lemma_worth(symbol[2 * i + 1], id[i] as int % 16);
        }
        assert(hex_bytes(symbol) =~= id);
    }
}

proof fn lemma_worth(c: char, v: int)
    requires
        is_worth(c, v),
    ensures
        is_hex(c),
        hex_value(c) == v,
{
    reveal_strlit("0123456789abcdef");
    reveal_strlit("0123456789ABCDEF");
    hexadecimal_digits(v, c);
}

/// Symbols are made of ASCII letters, digits, and "@", "_", "-", "." and "/";
/// names of ASCII letters, digits and "_"; and quoted text of all but quotes.
pub proof fn character_classes(c: char)
    ensures
        CharClass::Name.has(c)
            <==> "ABCDEFGHIJKLMNOPQRSTUVWXYZabcdefghijklmnopqrstuvwxyz0123456789_"@.contains(c),
        CharClass::Symbol.has(c) <==> CharClass::Name.has(c) || "@-./"@.contains(c),
        CharClass::Quoted.has(c) <==> c != '"',
{
    reveal_strlit("ABCDEFGHIJKLMNOPQRSTUVWXYZabcdefghijklmnopqrstuvwxyz0123456789_");
    reveal_strlit("@-./");
    let all = "ABCDEFGHIJKLMNOPQRSTUVWXYZabcdefghijklmnopqrstuvwxyz0123456789_"@;
    let marks = "@-./"@;
    if 'A' <= c <= 'Z' {
        assert(all[c as int - 'A' as int] == c);
    } else if 'a' <= c <= 'z' {
        assert(all[c as int - 'a' as int + 26] == c);
    } else if '0' <= c <= '9' {
        assert(all[c as int - '0' as int + 52] == c);
    } else if c == '_' {
        assert(all[62] == c);
    }
    if c == '@' {
        assert(marks[0] == c);
    } else if c == '-' {
        assert(marks[1] == c);
    } else if c == '.' {
        assert(marks[2] == c);
    } else if c == '/' {
        assert(marks[3] == c);
    }
}

/// In a valid graph parents stand before their children, no id stands twice, and
/// every position fits in 32 bits; nothing else is asked.
pub proof fn valid_graphs(g: Graph)
    ensures
        valid_graph(g) <==> {
            &&& g.len() <= 0xffff_ffff
            &&& forall|d: int, k: int|
                0 <= d < g.len() && 0 <= k < g[d].parents.len() ==> 0
                    <= #[trigger] g[d].parents[k] < d
            &&& forall|i: int, j: int|
                0 <= i < g.len() && 0 <= j < g.len() && (#[trigger] g[i]).id == (
                #[trigger] g[j]).id ==> i == j
        },
        forall|s: Set<int>| #[trigger]
            in_graph(g, s) <==> forall|p: int| #[trigger] s.contains(p) ==> 0 <= p < g.len(),
{
    if valid_graph(g) {
        assert forall|i: int, j: int|
            0 <= i < g.len() && 0 <= j < g.len() && (#[trigger] g[i]).id == (
            #[trigger] g[j]).id implies i == j by {
            if i < j {
                assert(g[i].id != g[j].id);
            } else if j < i {
                assert(g[j].id != g[i].id);
            }
        }
    }
}

/// A commit is in the graph where a position has its id, and its position is
/// such a position.
pub proof fn positions_have_their_ids(g: Graph, id: Seq<u8>, ids: Seq<CommitId>)
    ensures
        has_id(g, id) <==> exists|p: int| 0 <= p < g.len() && (#[trigger] g[p]).id == id,
        has_id(g, id) ==> 0 <= position_of(g, id) < g.len() && g[position_of(g, id)].id == id,
        has_ids(g, ids) <==> forall|k: int|
            0 <= k < ids.len() ==> has_id(g, (#[trigger] ids[k]).0@),
        positions_of(g, ids).len() == ids.len(),
        forall|k: int|
            0 <= k < ids.len() ==> #[trigger] positions_of(g, ids)[k] == position_of(g, ids[k].0@),
        forall|p: int| #[trigger]
            id_positions(g, ids).contains(p) <==> exists|k: int|
                0 <= k < ids.len() && p == position_of(g, (#[trigger] ids[k]).0@),
{
    if has_id(g, id) {
        let p = choose|p: int| 0 <= p < g.len() && #[trigger] g[p].id == id;
        assert(g[p].id == id);
    }
    if has_ids(g, ids) {
        assert forall|k: int| 0 <= k < ids.len() implies has_id(g, (#[trigger] ids[k]).0@) by {
            assert(has_id(g, ids[k]@));
        }
    }
    if forall|k: int| 0 <= k < ids.len() ==> has_id(g, (#[trigger] ids[k]).0@) {
        assert forall|k: int| 0 <= k < ids.len() implies has_id(g, #[trigger] ids[k]@) by {
            assert(has_id(g, ids[k].0@));
        }
    }
    assert forall|p: int| #[trigger]
        id_positions(g, ids).contains(p) <==> exists|k: int|
            0 <= k < ids.len() && p == position_of(g, (#[trigger] ids[k]).0@) by {
        if id_positions(g, ids).contains(p) {
            let k = choose|k: int| 0 <= k < ids.len() && position_of(g, #[trigger] ids[k]@) == p;
            assert(p == position_of(g, ids[k].0@));
        }
        if exists|k: int| 0 <= k < ids.len() && p == position_of(g, (#[trigger] ids[k]).0@) {
            let k = choose|k: int|
                0 <= k < ids.len() && p == position_of(g, (#[trigger] ids[k]).0@);
            assert(position_of(g, ids[k]@) == p);
        }
    }
}

/// Lists of positions have the elements that stand in them.
pub proof fn lists_have_their_elements(v: Seq<u32>, s: Set<int>, t: Set<u32>)
    ensures
        forall|p: int| #[trigger]
            elements(v).contains(p) <==> exists|i: int|
                0 <= i < v.len() && #[trigger] v[i] as int == p,
        forall|p: u32| #[trigger] t.contains(p) <==> wide(t).contains(p as int),
        forall|p: int| #[trigger] wide(t).contains(p) ==> 0 <= p <= 0xffff_ffff,
        lists_descending(v, s) <==> {
            &&& forall|i: int, j: int| 0 <= i < j < v.len() ==> #[trigger] v[i] > #[trigger] v[j]
            &&& forall|i: int| 0 <= i < v.len() ==> s.contains(#[trigger] v[i] as int)
            &&& forall|p: int| #[trigger]
                s.contains(p) ==> exists|i: int| 0 <= i < v.len() && #[trigger] v[i] as int == p
        },
{
    if lists_descending(v, s) {
        assert forall|i: int| 0 <= i < v.len() implies s.contains(#[trigger] v[i] as int) by {
            assert(elements(v).contains(v[i] as int));
        }
        assert forall|p: int| #[trigger] s.contains(p) implies exists|i: int|
            0 <= i < v.len() && #[trigger] v[i] as int == p by {
            assert(elements(v).contains(p));
        }
    }
    if (forall|i: int, j: int| 0 <= i < j < v.len() ==> #[trigger] v[i] > #[trigger] v[j]) && (
    forall|i: int| 0 <= i < v.len() ==> s.contains(#[trigger] v[i] as int)) && (forall|p: int|
        #[trigger]
        s.contains(p) ==> exists|i: int| 0 <= i < v.len() && #[trigger] v[i] as int == p) {
        assert(elements(v) =~= s);
    }
}

/// Whether the commit at place `i` of `path` has the next one for a parent.
pub open spec fn is_step(g: Graph, path: Seq<int>, i: int) -> bool {
    exists|k: int| 0 <= k < g[path[i]].parents.len() && #[trigger] g[path[i]].parents[k] == path[i + 1]
}

/// Whether `path` goes from the commit at `d` to the one at `a`, each time from a
/// commit to one of its parents.
pub open spec fn is_way_down(g: Graph, path: Seq<int>, d: int, a: int) -> bool {
    &&& path.len() > 0
    &&& path[0] == d
    &&& path[path.len() - 1] == a
    &&& forall|i: int| 0 <= i < path.len() - 1 ==> #[trigger] is_step(g, path, i)
}

/// Whether there is a way down from `d` to `a`.
pub open spec fn leads_down(g: Graph, d: int, a: int) -> bool {
    exists|path: Seq<int>| is_way_down(g, path, d, a)
}

/// The ancestors of a commit are the commits that ways down from it lead to.
pub proof fn ancestors_are_where_ways_down_lead(g: Graph, a: int, d: int)
    requires
        valid_graph(g),
        0 <= d < g.len(),
    ensures
        is_ancestor(g, a, d) <==> leads_down(g, d, a),
        is_parent(g, a, d) <==> exists|k: int|
            0 <= k < g[d].parents.len() && a == #[trigger] g[d].parents[k],
{
    if is_ancestor(g, a, d) {
        lemma_way_down(g, a, d);
    }
    if leads_down(g, d, a) {
        let path = choose|path: Seq<int>| is_way_down(g, path, d, a);
        lemma_way_is_ancestry(g, path, a, d);
    }
}

proof fn lemma_way_down(g: Graph, a: int, d: int)
    requires
        is_ancestor(g, a, d),
    ensures
        leads_down(g, d, a),
    decreases d,
{
    if a == d {
        assert(is_way_down(g, seq![d], d, a));
    } else {
        let p = choose|p: int| 0 <= p < d && #[trigger] is_parent(g, p, d) && is_ancestor(g, a, p);
        lemma_way_down(g, a, p);
        let rest = choose|path: Seq<int>| is_way_down(g, path, p, a);
        let path = seq![d] + rest;
        assert forall|i: int| 0 <= i < path.len() - 1 implies #[trigger] is_step(g, path, i) by {
            if i == 0 {
                let k = choose|k: int|
                    0 <= k < g[d].parents.len() && #[trigger] g[d].parents[k] == p;
                assert(path[1] == rest[0]);
                assert(g[path[0]].parents[k] == path[1]);
            } else {
                assert(path[i] == rest[i - 1] && path[i + 1] == rest[i]);
                assert(is_step(g, rest, i - 1));
                let k = choose|k: int|
                    0 <= k < g[rest[i - 1]].parents.len() && #[trigger] g[rest[i - 1]].parents[k]
                        == rest[i - 1 + 1];
                assert(g[path[i]].parents[k] == path[i + 1]);
            }
        }
        assert(path[path.len() - 1] == rest[rest.len() - 1]);
        assert(is_way_down(g, path, d, a));
    }
}

proof fn lemma_way_is_ancestry(g: Graph, path: Seq<int>, a: int, d: int)
    requires
        valid_graph(g),
        0 <= d < g.len(),
        is_way_down(g, path, d, a),
    ensures
        is_ancestor(g, a, d),
    decreases path.len(),
{
    if path.len() > 1 {
        let p = path[1];
        assert(is_step(g, path, 0));
        let k = choose|k: int|
            0 <= k < g[path[0]].parents.len() && #[trigger] g[path[0]].parents[k] == path[1];
        assert(g[d].parents[k] == p);
        assert(is_parent(g, p, d));
        let rest = path.drop_first();
        assert forall|i: int| 0 <= i < rest.len() - 1 implies #[trigger] is_step(g, rest, i) by {
            assert(is_step(g, path, i + 1));
            assert(rest[i] == path[i + 1] && rest[i + 1] == path[i + 2]);
            let m = choose|m: int|
                0 <= m < g[path[i + 1]].parents.len() && #[trigger] g[path[i + 1]].parents[m]
                    == path[i + 1 + 1];
            assert(g[rest[i]].parents[m] == rest[i + 1]);
        }
        assert(is_way_down(g, rest, p, a));
        lemma_way_is_ancestry(g, rest, a, p);
    }
}

/// The parents, the ancestors and the heads of a set of commits, commit by
/// commit.
pub proof fn sets_of_commits(g: Graph, s: Set<int>, p: int)
    requires
        valid_graph(g),
        in_graph(g, s),
    ensures
        all_parents(g, s).contains(p) <==> exists|d: int, k: int|
            s.contains(d) && 0 <= k < g[d].parents.len() && p == #[trigger] g[d].parents[k],
        all_ancestors(g, s).contains(p) <==> exists|d: int|
            s.contains(d) && #[trigger] leads_down(g, d, p),
        heads_of(g, s).contains(p) <==> s.contains(p) && forall|q: int|
            s.contains(q) && #[trigger] leads_down(g, q, p) ==> q == p,
{
    if all_parents(g, s).contains(p) {
        let d = choose|d: int| #[trigger] s.contains(d) && is_parent(g, p, d);
        let k = choose|k: int| 0 <= k < g[d].parents.len() && #[trigger] g[d].parents[k] == p;
        assert(s.contains(d) && p == g[d].parents[k]);
    }
    if exists|d: int, k: int|
        s.contains(d) && 0 <= k < g[d].parents.len() && p == #[trigger] g[d].parents[k] {
        let (d, k) = choose|d: int, k: int|
            s.contains(d) && 0 <= k < g[d].parents.len() && p == #[trigger] g[d].parents[k];
        assert(is_parent(g, p, d));
    }
    assert forall|d: int| s.contains(d) implies is_ancestor(g, p, d) == #[trigger] leads_down(
        g,
        d,
        p,
    ) by {
        ancestors_are_where_ways_down_lead(g, p, d);
    }
    if all_ancestors(g, s).contains(p) {
        let d = choose|d: int| #[trigger] s.contains(d) && is_ancestor(g, p, d);
        assert(leads_down(g, d, p));
    }
    if heads_of(g, s).contains(p) {
        assert forall|q: int| s.contains(q) && #[trigger] leads_down(g, q, p) implies q == p by {}
    }
    if s.contains(p) && (forall|q: int|
        s.contains(q) && #[trigger] leads_down(g, q, p) ==> q == p) {
        assert forall|q: int| #[trigger] s.contains(q) && q != p implies !is_ancestor(g, p, q) by {
            assert(!leads_down(g, q, p));
        }
    }
}

} // verus!
