//! What holds of every text of a revset.
use crate::expression::{
    ancestors_of, argument_expression_of, argument_string_of, expression_of, function_of,
    invalid_arguments, lemma_expression_readable, non_obsolete_heads_of, parents_of, parsed,
    primary_of, ExpressionModel, Meaning, ParseErrorModel,
};
use crate::grammar::{
    argument_at, arguments_at, call_at, char_at, expression_at, lemma_expression_progress,
    lemma_run, literal_string_at, more_arguments_at, node, primary_at, run_end, symbol_at,
    CharClass, Node, Rule,
};
use crate::locality::{lemma_expression_local, lemma_first_char, stops};
use vstd::prelude::*;

verus! {

/// Whether the whole of `x` is an expression.
pub open spec fn complete(x: Seq<char>) -> bool {
    expression_at(x, 0) matches Some((_, end)) && end == x.len()
}

/// The tree of a text that is an expression.
pub open spec fn tree(x: Seq<char>) -> Node {
    expression_at(x, 0).unwrap().0
}

/// A text that begins with an expression is refused for its syntax exactly where
/// that expression is not the whole of it.
pub proof fn syntax_error_means_incomplete(x: Seq<char>)
    requires
        expression_at(x, 0) is Some,
    ensures
        parsed(x) matches Err(ParseErrorModel::SyntaxError(_)) <==> !complete(x),
{
    let (first, end) = expression_at(x, 0)->0;
    lemma_no_syntax_error(first.inner);
    lemma_expression_readable(x, 0);
}

/// Whether `m` is no complaint about syntax.
pub open spec fn no_syntax_error(m: Option<Meaning>) -> bool {
    !(m matches Some(Err(ParseErrorModel::SyntaxError(_))))
}

proof fn lemma_no_syntax_error(pairs: Seq<Node>)
    ensures
        no_syntax_error(expression_of(pairs)),
        no_syntax_error(primary_of(pairs)),
        forall|name: Seq<char>| no_syntax_error(#[trigger] function_of(name, pairs)),
        forall|name: Seq<char>| no_syntax_error(#[trigger] argument_expression_of(name, pairs)),
    decreases pairs,
{
    if pairs.len() > 0 {
        lemma_no_syntax_error(pairs[0].inner);
    }
    if pairs.len() > 1 {
        lemma_no_syntax_error(pairs[1].inner);
        assert(no_syntax_error(function_of(pairs[0].text, pairs[1].inner)));
        assert(no_syntax_error(expression_of(pairs[1].inner)));
    }
}

/// A complete text keeps its tree wherever it stands before an end, a comma or a
/// closing parenthesis.
proof fn lemma_embedded(x: Seq<char>, t: Seq<char>, d: int)
    requires
        complete(x),
        0 <= d,
        d + x.len() <= t.len(),
        t.subrange(d, d + x.len()) == x,
        stops(t, d + x.len()),
    ensures
        expression_at(t, d) == Some((tree(x), d + x.len())),
        x.len() > 0,
        t[d] == x[0],
{
    lemma_expression_progress(x, 0);
    assert forall|k: int| 0 <= k < x.len() implies #[trigger] x[k] == t[k + d] by {
        assert(t.subrange(d, d + x.len())[k] == t[k + d]);
    }
    lemma_expression_local(x, t, 0, d);
}

/// Parentheses around an expression do not change what it stands for.
pub proof fn parentheses(x: Seq<char>)
    requires
        complete(x),
    ensures
        complete(seq!['('] + x + seq![')']),
        parsed(seq!['('] + x + seq![')']) == parsed(x),
{
    let t = seq!['('] + x + seq![')'];
    assert(t.subrange(1, 1int + x.len()) =~= x);
    lemma_embedded(x, t, 1);
    lemma_run(t, 0, CharClass::Name);
    lemma_run(t, 0, CharClass::Symbol);
    reveal_with_fuel(primary_at, 2);
    assert(symbol_at(t, 0) is None);
    assert(call_at(t, 0) is None);
    lemma_expression_readable(x, 0);
    let inner = node(Rule::Primary, t, 0, t.len() as int, seq![tree(x)]);
    assert(primary_at(t, 0) == Some((inner, t.len() as int)));
    assert(tree(t).inner == seq![inner]);
    assert(expression_of(seq![inner]) == primary_of(seq![tree(x)]));
    assert(primary_of(seq![tree(x)]) == expression_of(tree(x).inner));
}

/// ":" before an expression is the operator "parents", and "*:" is the operator
/// "ancestors".
pub proof fn prefix_operators(x: Seq<char>)
    requires
        complete(x),
    ensures
        complete(seq![':'] + x),
        Some(parsed(seq![':'] + x)) == parents_of(Some(parsed(x))),
        complete(seq!['*', ':'] + x),
        Some(parsed(seq!['*', ':'] + x)) == ancestors_of(Some(parsed(x))),
{
    lemma_expression_readable(x, 0);
    let t = seq![':'] + x;
    assert(t.subrange(1, 1int + x.len()) =~= x);
    lemma_embedded(x, t, 1);
    let operator = node(Rule::Parents, t, 0, 1, seq![]);
    assert(tree(t).inner == seq![operator, tree(x)]);
    assert(expression_of(seq![operator, tree(x)]) == parents_of(expression_of(tree(x).inner)));
    let u = seq!['*', ':'] + x;
    assert(u.subrange(2, 2int + x.len()) =~= x);
    lemma_embedded(x, u, 2);
    let operator = node(Rule::Ancestors, u, 0, 2, seq![]);
    assert(tree(u).inner == seq![operator, tree(x)]);
    assert(expression_of(seq![operator, tree(x)]) == ancestors_of(expression_of(tree(x).inner)));
}

/// Whether `name` is a function name.
pub open spec fn is_name(name: Seq<char>) -> bool {
    name.len() > 0 && forall|k: int| 0 <= k < name.len() ==> CharClass::Name.has(#[trigger] name[k])
}

/// Whether `text` can be a symbol.
pub open spec fn is_symbol_text(text: Seq<char>) -> bool {
    text.len() > 0 && forall|k: int|
        0 <= k < text.len() ==> CharClass::Symbol.has(#[trigger] text[k])
}

/// Whether `text` can stand between quotes.
pub open spec fn is_quotable(text: Seq<char>) -> bool {
    forall|k: int| 0 <= k < text.len() ==> #[trigger] text[k] != '"'
}

/// `text` in quotes.
pub open spec fn quoted(text: Seq<char>) -> Seq<char> {
    seq!['"'] + text + seq!['"']
}

/// The text of a call of `name` with the text `arguments` between the parentheses.
pub open spec fn call(name: Seq<char>, arguments: Seq<char>) -> Seq<char> {
    name + seq!['('] + arguments + seq![')']
}

/// A run that ends where its class ends.
pub proof fn lemma_run_of(s: Seq<char>, i: int, end: int, class: CharClass)
    requires
        0 <= i <= end <= s.len(),
        forall|k: int| i <= k < end ==> class.has(#[trigger] s[k]),
        end < s.len() ==> !class.has(s[end]),
    ensures
        run_end(s, i, class) == end,
    decreases end - i,
{
    if i < end {
        lemma_run_of(s, i + 1, end, class);
    }
}

/// A call whose arguments are read up to the closing parenthesis.
pub proof fn lemma_call(name: Seq<char>, arguments: Seq<char>, list: Seq<Node>)
    requires
        is_name(name),
        arguments_at(call(name, arguments), name.len() as int + 1) == (
            list,
            name.len() as int + 1 + arguments.len(),
        ),
    ensures
        complete(call(name, arguments)),
        expression_of(tree(call(name, arguments)).inner) == function_of(name, list),
        Some(parsed(call(name, arguments))) == function_of(name, list),
{
    let t = call(name, arguments);
    let open = name.len() as int;
    let end = open + 1 + arguments.len();
    assert(t[open] == '(' && t[end] == ')' && t.len() == end + 1);
    assert forall|k: int| 0 <= k < open implies CharClass::Name.has(#[trigger] t[k]) by {
        assert(t[k] == name[k]);
    }
    lemma_run_of(t, 0, open, CharClass::Name);
    assert(t[0] == name[0]);
    assert(CharClass::Name.has(t[0]));
    assert(t.subrange(0, open) =~= name);
    let first = node(Rule::FunctionName, t, 0, open, seq![]);
    let second = node(Rule::FunctionArguments, t, open + 1, end, list);
    assert(call_at(t, 0) == Some(
        (node(Rule::Expression, t, 0, end + 1, seq![first, second]), end + 1),
    ));
    assert(tree(t).inner == seq![first, second]);
    assert(expression_of(seq![first, second]) == function_of(name, list));
    lemma_expression_readable(t, 0);
}

/// The argument that a complete text is.
pub open spec fn expression_argument(x: Seq<char>) -> Node {
    Node { rule: Rule::FunctionArgument, text: x, inner: seq![tree(x)] }
}

/// The argument that a quoted text is.
pub open spec fn string_argument(text: Seq<char>) -> Node {
    Node {
        rule: Rule::FunctionArgument,
        text: quoted(text),
        inner: seq![Node { rule: Rule::LiteralString, text: quoted(text), inner: seq![] }],
    }
}

/// A complete text as an argument.
pub proof fn lemma_expression_argument(x: Seq<char>, t: Seq<char>, d: int)
    requires
        complete(x),
        0 <= d,
        d + x.len() <= t.len(),
        t.subrange(d, d + x.len()) == x,
        stops(t, d + x.len()),
    ensures
        argument_at(t, d) == Some((expression_argument(x), d + x.len())),
        x.len() > 0,
{
    lemma_embedded(x, t, d);
    lemma_first_char(t, d);
    assert(literal_string_at(t, d) is None);
}

/// A quoted text as an argument.
pub proof fn lemma_string_argument(text: Seq<char>, t: Seq<char>, d: int)
    requires
        is_quotable(text),
        0 <= d,
        d + text.len() + 2 <= t.len(),
        t.subrange(d, d + text.len() + 2) == quoted(text),
    ensures
        argument_at(t, d) == Some((string_argument(text), d + text.len() + 2)),
{
    let w = t.subrange(d, d + text.len() + 2);
    let close = d + text.len() + 1;
    assert(t[d] == w[0]);
    assert(t[close] == w[text.len() as int + 1]);
    assert forall|k: int| d + 1 <= k < close implies CharClass::Quoted.has(#[trigger] t[k]) by {
        assert(t[k] == w[k - d]);
        assert(w[k - d] == text[k - d - 1]);
    }
    lemma_run_of(t, d + 1, close, CharClass::Quoted);
}

/// No argument stands at a closing parenthesis.
pub proof fn lemma_no_argument(t: Seq<char>, d: int)
    requires
        char_at(t, d, ')'),
    ensures
        arguments_at(t, d) == (Seq::<Node>::empty(), d),
        more_arguments_at(t, d) == (Seq::<Node>::empty(), d),
{
    if expression_at(t, d) is Some {
        lemma_first_char(t, d);
    }
}

proof fn lemma_one_argument(t: Seq<char>, d: int, argument: Node, end: int)
    requires
        argument_at(t, d) == Some((argument, end)),
        d < end,
        char_at(t, end, ')'),
    ensures
        arguments_at(t, d) == (seq![argument], end),
{
    lemma_no_argument(t, end);
    assert(seq![argument] + Seq::<Node>::empty() =~= seq![argument]);
}

/// A call with no argument.
pub proof fn lemma_empty_call(name: Seq<char>)
    requires
        is_name(name),
    ensures
        complete(call(name, seq![])),
        Some(parsed(call(name, seq![]))) == function_of(name, seq![]),
{
    let t = call(name, seq![]);
    assert(char_at(t, name.len() as int + 1, ')'));
    lemma_no_argument(t, name.len() as int + 1);
    lemma_call(name, seq![], seq![]);
}

proof fn lemma_expression_call(name: Seq<char>, x: Seq<char>)
    requires
        is_name(name),
        complete(x),
    ensures
        complete(call(name, x)),
        Some(parsed(call(name, x))) == function_of(name, seq![expression_argument(x)]),
{
    let t = call(name, x);
    let d = name.len() as int + 1;
    assert(t.subrange(d, d + x.len()) =~= x);
    assert(char_at(t, d + x.len(), ')'));
    lemma_expression_argument(x, t, d);
    lemma_one_argument(t, d, expression_argument(x), d + x.len());
    lemma_call(name, x, seq![expression_argument(x)]);
}

/// The names of the functions are names, and differ.
pub proof fn lemma_names()
    ensures
        is_name("parents"@),
        is_name("ancestors"@),
        is_name("all_heads"@),
        is_name("non_obsolete_heads"@),
        is_name("description"@),
        "parents"@ != "ancestors"@,
        "all_heads"@ != "parents"@,
        "all_heads"@ != "ancestors"@,
        "non_obsolete_heads"@ != "parents"@,
        "non_obsolete_heads"@ != "ancestors"@,
        "non_obsolete_heads"@ != "all_heads"@,
        "description"@ != "parents"@,
        "description"@ != "ancestors"@,
        "description"@ != "all_heads"@,
        "description"@ != "non_obsolete_heads"@,
{
    reveal_strlit("parents");
    reveal_strlit("ancestors");
    reveal_strlit("all_heads");
    reveal_strlit("non_obsolete_heads");
    reveal_strlit("description");
    assert("parents"@[0] == 'p');
    assert("ancestors"@[1] == 'n');
    assert("all_heads"@[1] == 'l');
    assert("non_obsolete_heads"@[0] == 'n');
    assert("description"@[0] == 'd');
    assert("ancestors"@[0] == 'a');
    assert("all_heads"@[0] == 'a');
}

/// The functions "parents" and "ancestors" are the operators of the same names,
/// and "non_obsolete_heads" is its operator.
pub proof fn operator_functions(x: Seq<char>)
    requires
        complete(x),
    ensures
        complete(call("parents"@, x)),
        parsed(call("parents"@, x)) == parsed(seq![':'] + x),
        complete(call("ancestors"@, x)),
        parsed(call("ancestors"@, x)) == parsed(seq!['*', ':'] + x),
        complete(call("non_obsolete_heads"@, x)),
        Some(parsed(call("non_obsolete_heads"@, x))) == non_obsolete_heads_of(Some(parsed(x))),
{
    lemma_names();
    prefix_operators(x);
    lemma_expression_readable(x, 0);
    lemma_expression_call("parents"@, x);
    lemma_expression_call("ancestors"@, x);
    lemma_expression_call("non_obsolete_heads"@, x);
    let inner = seq![tree(x)];
    assert(expression_argument(x).inner == inner);
    assert forall|name: Seq<char>|
        #[trigger] argument_expression_of(name, inner) == expression_of(tree(x).inner) by {}
}

/// Without an argument, "non_obsolete_heads" takes all heads.
pub proof fn non_obsolete_heads_default()
    ensures
        complete(call("non_obsolete_heads"@, seq![])),
        complete(call("all_heads"@, seq![])),
        parsed(call("non_obsolete_heads"@, seq![])) == parsed(
            call("non_obsolete_heads"@, call("all_heads"@, seq![])),
        ),
        parsed(call("all_heads"@, seq![])) == Ok::<_, ParseErrorModel>(ExpressionModel::AllHeads),
{
    lemma_names();
    lemma_empty_call("non_obsolete_heads"@);
    lemma_empty_call("all_heads"@);
    operator_functions(call("all_heads"@, seq![]));
}

/// A symbol is an expression, with its tree.
pub proof fn lemma_symbol_tree(text: Seq<char>)
    requires
        is_symbol_text(text),
    ensures
        complete(text),
        tree(text) == symbol_tree(text),
{
    let n = text.len() as int;
    lemma_run_of(text, 0, n, CharClass::Symbol);
    lemma_run(text, 0, CharClass::Name);
    let open = run_end(text, 0, CharClass::Name);
    if open < n {
        assert(CharClass::Symbol.has(text[open]));
    }
    assert(CharClass::Symbol.has(text[0]));
    assert(call_at(text, 0) is None);
    assert(text.subrange(0, n) =~= text);
    let symbol = node(Rule::Symbol, text, 0, n, seq![]);
    let primary = node(Rule::Primary, text, 0, n, seq![symbol]);
    assert(primary_at(text, 0) == Some((primary, n)));
}

/// The tree of a symbol.
pub open spec fn symbol_tree(text: Seq<char>) -> Node {
    let symbol = Node { rule: Rule::Symbol, text, inner: seq![] };
    let primary = Node { rule: Rule::Primary, text, inner: seq![symbol] };
    Node { rule: Rule::Expression, text, inner: seq![primary] }
}

/// A symbol is an expression, and stands for itself.
pub proof fn symbols(text: Seq<char>)
    requires
        is_symbol_text(text),
    ensures
        complete(text),
        parsed(text) == Ok::<_, ParseErrorModel>(ExpressionModel::Symbol(text)),
{
    lemma_symbol_tree(text);
    let primary = symbol_tree(text).inner[0];
    assert(expression_of(seq![primary]) == primary_of(primary.inner));
}

/// A description in quotes and a base: the commits of the base whose
/// description contains the text between the quotes.
pub proof fn description_function(needle: Seq<char>, x: Seq<char>)
    requires
        is_quotable(needle),
        complete(x),
    ensures
        complete(call("description"@, quoted(needle) + seq![','] + x)),
        parsed(call("description"@, quoted(needle) + seq![','] + x)) == (match parsed(x) {
            Ok(base) => Ok(
                ExpressionModel::Description { needle, base_expression: Box::new(base) },
            ),
            Err(error) => Err(error),
        }),
{
    lemma_names();
    lemma_expression_readable(x, 0);
    let name = "description"@;
    let arguments = quoted(needle) + seq![','] + x;
    let list = seq![string_argument(needle), expression_argument(x)];
    lemma_description_arguments(name, needle, x);
    lemma_call(name, arguments, list);
    lemma_quoted_argument(needle);
    assert(argument_expression_of(name, list[1].inner) == expression_of(tree(x).inner));
}

proof fn lemma_description_arguments(name: Seq<char>, needle: Seq<char>, x: Seq<char>)
    requires
        is_quotable(needle),
        complete(x),
    ensures
        arguments_at(
            call(name, quoted(needle) + seq![','] + x),
            name.len() as int + 1,
        ) == (
            seq![string_argument(needle), expression_argument(x)],
            name.len() as int + 1 + (quoted(needle) + seq![','] + x).len(),
        ),
{
    let arguments = quoted(needle) + seq![','] + x;
    let t = call(name, arguments);
    let d = name.len() as int + 1;
    let m = d + needle.len() + 2;
    let e = d + arguments.len();
    assert(t.subrange(d, d + needle.len() + 2) =~= quoted(needle));
    assert(char_at(t, m, ','));
    assert(t.subrange(m + 1, m + 1 + x.len()) =~= x);
    assert(char_at(t, e, ')'));
    lemma_string_argument(needle, t, d);
    lemma_expression_argument(x, t, m + 1);
    lemma_two_arguments(t, d, string_argument(needle), m, expression_argument(x), e);
}

proof fn lemma_two_arguments(
    t: Seq<char>,
    d: int,
    first: Node,
    middle: int,
    second: Node,
    end: int,
)
    requires
        argument_at(t, d) == Some((first, middle)),
        d < middle,
        char_at(t, middle, ','),
        argument_at(t, middle + 1) == Some((second, end)),
        middle < end,
        char_at(t, end, ')'),
    ensures
        arguments_at(t, d) == (seq![first, second], end),
{
    lemma_no_argument(t, end);
    assert(more_arguments_at(t, middle) == (seq![second] + Seq::<Node>::empty(), end));
    assert(seq![second] + Seq::<Node>::empty() =~= seq![second]);
    assert(seq![first] + seq![second] =~= seq![first, second]);
}

proof fn lemma_quoted_argument(needle: Seq<char>)
    ensures
        argument_string_of("description"@, string_argument(needle).inner) == Some(
            Ok::<_, ParseErrorModel>(needle),
        ),
{
    let q = quoted(needle);
    assert(q.subrange(1, q.len() - 1) =~= needle);
    assert(q.last() == '"');
}

/// Without a base, "description" takes the ancestors of the non-obsolete heads.
pub proof fn description_default(needle: Seq<char>)
    requires
        is_quotable(needle),
    ensures
        complete(call("description"@, quoted(needle))),
        parsed(call("description"@, quoted(needle))) == parsed(
            call(
                "description"@,
                quoted(needle) + seq![','] + (seq!['*', ':'] + call("non_obsolete_heads"@, seq![])),
            ),
        ),
{
    lemma_names();
    let name = "description"@;
    let heads = call("non_obsolete_heads"@, seq![]);
    lemma_empty_call("non_obsolete_heads"@);
    prefix_operators(heads);
    description_function(needle, seq!['*', ':'] + heads);
    let t = call(name, quoted(needle));
    let d = name.len() as int + 1;
    assert(t.subrange(d, d + needle.len() + 2) =~= quoted(needle));
    lemma_string_argument(needle, t, d);
    assert(char_at(t, d + needle.len() + 2, ')'));
    lemma_one_argument(t, d, string_argument(needle), d + needle.len() + 2);
    lemma_call(name, quoted(needle), seq![string_argument(needle)]);
    lemma_quoted_argument(needle);
}

/// A symbol as the first argument of "description" is read as the same text in quotes.
pub proof fn description_of_a_symbol(text: Seq<char>)
    requires
        is_symbol_text(text),
    ensures
        complete(call("description"@, text)),
        parsed(call("description"@, text)) == parsed(call("description"@, quoted(text))),
{
    lemma_names();
    let name = "description"@;
    assert forall|k: int| 0 <= k < text.len() implies #[trigger] text[k] != '"' by {
        assert(CharClass::Symbol.has(text[k]));
    }
    description_default(text);
    symbols(text);
    lemma_expression_call(name, text);
    let t = call(name, quoted(text));
    let d = name.len() as int + 1;
    assert(t.subrange(d, d + text.len() + 2) =~= quoted(text));
    lemma_string_argument(text, t, d);
    assert(char_at(t, d + text.len() + 2, ')'));
    lemma_one_argument(t, d, string_argument(text), d + text.len() + 2);
    lemma_call(name, quoted(text), seq![string_argument(text)]);
    lemma_quoted_argument(text);
    lemma_symbol_tree(text);
}

/// A text that stands for `expression`.
pub open spec fn written(expression: ExpressionModel) -> Seq<char>
    decreases expression,
{
    match expression {
        ExpressionModel::Symbol(symbol) => symbol,
        ExpressionModel::Parents(base) => seq![':'] + written(*base),
        ExpressionModel::Ancestors(base) => seq!['*', ':'] + written(*base),
        ExpressionModel::AllHeads => call("all_heads"@, seq![]),
        ExpressionModel::NonObsoleteHeads(base) => call("non_obsolete_heads"@, written(*base)),
        ExpressionModel::Description { needle, base_expression } => call(
            "description"@,
            quoted(needle) + seq![','] + written(*base_expression),
        ),
    }
}

/// Whether the symbols of `expression` are symbols of the grammar, and its
/// strings can stand between quotes.
pub open spec fn is_writable(expression: ExpressionModel) -> bool
    decreases expression,
{
    match expression {
        ExpressionModel::Symbol(symbol) => is_symbol_text(symbol),
        ExpressionModel::Parents(base) => is_writable(*base),
        ExpressionModel::Ancestors(base) => is_writable(*base),
        ExpressionModel::AllHeads => true,
        ExpressionModel::NonObsoleteHeads(base) => is_writable(*base),
        ExpressionModel::Description { needle, base_expression } => is_quotable(needle)
            && is_writable(*base_expression),
    }
}

/// Every expression that can be written is read back from what is written.
pub proof fn written_is_read_back(expression: ExpressionModel)
    requires
        is_writable(expression),
    ensures
        complete(written(expression)),
        parsed(written(expression)) == Ok::<_, ParseErrorModel>(expression),
    decreases expression,
{
    match expression {
        ExpressionModel::Symbol(symbol) => {
            symbols(symbol);
        },
        ExpressionModel::Parents(base) => {
            written_is_read_back(*base);
            prefix_operators(written(*base));
        },
        ExpressionModel::Ancestors(base) => {
            written_is_read_back(*base);
            prefix_operators(written(*base));
        },
        ExpressionModel::AllHeads => {
            non_obsolete_heads_default();
        },
        ExpressionModel::NonObsoleteHeads(base) => {
            written_is_read_back(*base);
            operator_functions(written(*base));
        },
        ExpressionModel::Description { needle, base_expression } => {
            written_is_read_back(*base_expression);
            description_function(needle, written(*base_expression));
        },
    }
}

/// Whether `name` is the name of a function.
pub open spec fn is_function(name: Seq<char>) -> bool {
    ||| name == "parents"@
    ||| name == "ancestors"@
    ||| name == "all_heads"@
    ||| name == "non_obsolete_heads"@
    ||| name == "description"@
}

/// A text that is a call as a whole stands for a call with the arguments that
/// are read between the parentheses.
proof fn lemma_complete_call(name: Seq<char>, arguments: Seq<char>)
    requires
        is_name(name),
        complete(call(name, arguments)),
    ensures
        Some(parsed(call(name, arguments))) == function_of(name, arguments_of(name, arguments)),
{
    let t = call(name, arguments);
    let open = name.len() as int;
    assert(t[open] == '(');
    assert forall|k: int| 0 <= k < open implies CharClass::Name.has(#[trigger] t[k])
        && CharClass::Symbol.has(t[k]) by {
        assert(t[k] == name[k]);
    }
    lemma_run_of(t, 0, open, CharClass::Name);
    lemma_run_of(t, 0, open, CharClass::Symbol);
    assert(CharClass::Name.has(t[0]));
    assert(t.subrange(0, open) =~= name);
    if call_at(t, 0) is None {
        let symbol = node(Rule::Symbol, t, 0, open, seq![]);
        assert(symbol_at(t, 0) == Some((symbol, open)));
        assert(primary_at(t, 0) == Some((node(Rule::Primary, t, 0, open, seq![symbol]), open)));
        assert(expression_at(t, 0).unwrap().1 == open);
    }
    let (list, end) = arguments_at(t, open + 1);
    let first = node(Rule::FunctionName, t, 0, open, seq![]);
    let second = node(Rule::FunctionArguments, t, open + 1, end, list);
    assert(tree(t).inner == seq![first, second]);
    assert(expression_of(seq![first, second]) == function_of(name, list));
    lemma_expression_readable(t, 0);
}

/// The arguments that a call of `name` has, with the text `arguments` between
/// the parentheses.
pub open spec fn arguments_of(name: Seq<char>, arguments: Seq<char>) -> Seq<Node> {
    arguments_at(call(name, arguments), name.len() as int + 1).0
}

/// A call of a name that is not the name of a function is refused as that,
/// whatever the arguments.
pub proof fn unknown_functions(name: Seq<char>, arguments: Seq<char>)
    requires
        is_name(name),
        !is_function(name),
        complete(call(name, arguments)),
    ensures
        parsed(call(name, arguments)) == Err::<ExpressionModel, _>(
            ParseErrorModel::NoSuchFunction(name),
        ),
{
    lemma_complete_call(name, arguments);
}

/// What is said of a call of a function with a number of arguments that it does
/// not take; `None` where it takes that number.
pub open spec fn count_complaint(name: Seq<char>, count: nat) -> Option<Seq<char>> {
    if (name == "parents"@ || name == "ancestors"@) && count != 1 {
        Some("Expected 1 argument"@)
    } else if name == "all_heads"@ && count != 0 {
        Some("Expected 0 arguments"@)
    } else if name == "non_obsolete_heads"@ && count > 1 {
        Some("Expected 0 or 1 argument"@)
    } else if name == "description"@ && count != 1 && count != 2 {
        Some("Expected 1 or 2 arguments"@)
    } else {
        None
    }
}

/// A call with a number of arguments that the function does not take is refused
/// with the numbers that it takes, whatever the arguments.
pub proof fn argument_counts(name: Seq<char>, arguments: Seq<char>)
    requires
        is_name(name),
        complete(call(name, arguments)),
        count_complaint(name, arguments_of(name, arguments).len()) is Some,
    ensures
        parsed(call(name, arguments)) == Err::<ExpressionModel, _>(
            invalid_arguments(
                name,
                count_complaint(name, arguments_of(name, arguments).len())->0,
            ),
        ),
{
    lemma_names();
    lemma_complete_call(name, arguments);
}

} // verus!
