//! What the outcome of parsing takes from the text.
use crate::expression::{
    argument_expression_of, argument_string_of, expression_of, function_of, is_quoted, is_symbol,
    lemma_expression_readable, parsed, primary_of, ExpressionModel, ParseErrorModel,
};
use crate::grammar::{
    argument_at, arguments_at, call_at, char_at, expression_at, lemma_argument_progress,
    lemma_arguments_progress, lemma_expression_progress, lemma_run, literal_string_at,
    more_arguments_at, primary_at, run_end, symbol_at, CharClass, Node, Rule,
};
use crate::syntax_properties::{
    count_complaint, is_function, is_quotable, is_symbol_text, is_writable,
    lemma_names, syntax_error_means_incomplete, tree, written, written_is_read_back,
};
use crate::text::{occurs, occurs_at};
use vstd::prelude::*;

verus! {

/// Whether the nodes are those of a call of `name` with the given arguments.
pub open spec fn is_call(pairs: Seq<Node>, name: Seq<char>, arguments: Seq<Node>) -> bool {
    &&& pairs.len() >= 2
    &&& pairs[0].rule == Rule::FunctionName
    &&& pairs[0].text == name
    &&& pairs[1].inner == arguments
}

/// Whether the nodes are those of a call of `name` with the given arguments, or
/// there is such a call inside them.
pub open spec fn has_call(pairs: Seq<Node>, name: Seq<char>, arguments: Seq<Node>) -> bool
    decreases pairs,
{
    ||| is_call(pairs, name, arguments)
    ||| exists|k: int|
        0 <= k < pairs.len() && has_call((#[trigger] pairs[k]).inner, name, arguments)
}

/// Whether the expression that `x` begins with calls `name` with the given
/// arguments.
pub open spec fn calls(x: Seq<char>, name: Seq<char>, arguments: Seq<Node>) -> bool {
    has_call(tree(x).inner, name, arguments)
}

/// Whether an argument can be read as an expression.
pub open spec fn is_expression_argument(argument: Node) -> bool {
    argument.inner[0].rule == Rule::Expression
}

/// Whether an argument can be read as a string.
pub open spec fn is_string_argument(argument: Node) -> bool {
    ||| argument.inner[0].rule == Rule::LiteralString
    ||| argument.inner[0].rule == Rule::Expression && is_symbol(argument.inner[0].inner)
}

/// What is said of a call of a function for its own arguments: how many there
/// are, or the first that is not of the type that the function takes; `None`
/// where there is nothing to say.
pub open spec fn own_complaint(name: Seq<char>, arguments: Seq<Node>) -> Option<Seq<char>> {
    if count_complaint(name, arguments.len()) is Some {
        count_complaint(name, arguments.len())
    } else if name == "description"@ {
        if !is_string_argument(arguments[0]) {
            Some(
                "Expected function argument of type string, found: "@ + arguments[0].inner[0].text,
            )
        } else if arguments.len() == 2 && !is_expression_argument(arguments[1]) {
            Some(
                "Expected function argument of type expression, found: "@
                    + arguments[1].inner[0].text,
            )
        } else {
            None
        }
    } else if is_function(name) && arguments.len() == 1 && !is_expression_argument(arguments[0]) {
        Some(
            "Expected function argument of type expression, found: "@ + arguments[0].inner[0].text,
        )
    } else {
        None
    }
}

/// Whether `error` is what is said of a call of `name` with the given arguments,
/// for the name or for its own arguments.
pub open spec fn refuses(
    error: ParseErrorModel,
    name: Seq<char>,
    arguments: Seq<Node>,
) -> bool {
    match error {
        ParseErrorModel::SyntaxError(_) => false,
        ParseErrorModel::NoSuchFunction(named) => named == name && !is_function(name),
        ParseErrorModel::InvalidFunctionArguments { name: named, message } => named == name
            && own_complaint(name, arguments) == Some(message),
    }
}

/// Whether `error` is what is said of one of the calls in the nodes.
spec fn is_caused(pairs: Seq<Node>, error: ParseErrorModel) -> bool {
    exists|name: Seq<char>, arguments: Seq<Node>| #[trigger]
        has_call(pairs, name, arguments) && refuses(error, name, arguments)
}

proof fn lemma_caused_inside(pairs: Seq<Node>, k: int, error: ParseErrorModel)
    requires
        0 <= k < pairs.len(),
        is_caused(pairs[k].inner, error),
    ensures
        is_caused(pairs, error),
{
    let (name, arguments) = choose|name: Seq<char>, arguments: Seq<Node>| #[trigger]
        has_call(pairs[k].inner, name, arguments) && refuses(error, name, arguments);
    assert(has_call(pairs, name, arguments));
}

/// An error about nodes is about a call in them.
proof fn lemma_error_is_caused(pairs: Seq<Node>)
    ensures
        expression_of(pairs) matches Some(Err(error)) ==> is_caused(pairs, error),
        primary_of(pairs) matches Some(Err(error)) ==> is_caused(pairs, error),
    decreases pairs, 1int,
{
    if pairs.len() > 0 {
        lemma_error_is_caused(pairs[0].inner);
        if let Some(Err(error)) = primary_of(pairs[0].inner) {
            lemma_caused_inside(pairs, 0, error);
        }
        if let Some(Err(error)) = expression_of(pairs[0].inner) {
            lemma_caused_inside(pairs, 0, error);
        }
    }
    if pairs.len() > 1 {
        lemma_error_is_caused(pairs[1].inner);
        if let Some(Err(error)) = expression_of(pairs[1].inner) {
            lemma_caused_inside(pairs, 1, error);
        }
    }
    if pairs.len() > 1 && pairs[0].rule == Rule::FunctionName {
        let name = pairs[0].text;
        let arguments = pairs[1].inner;
        lemma_function_error(name, arguments);
        if let Some(Err(error)) = function_of(name, arguments) {
            if is_caused(arguments, error) {
                lemma_caused_inside(pairs, 1, error);
            } else {
                assert(has_call(pairs, name, arguments));
            }
        }
    }
}

/// An error about a call is about that call or about one in its arguments.
proof fn lemma_function_error(name: Seq<char>, arguments: Seq<Node>)
    ensures
        function_of(name, arguments) matches Some(Err(error)) ==> refuses(error, name, arguments)
            || is_caused(arguments, error),
    decreases arguments, 0int,
{
    lemma_names();
    if let Some(Err(error)) = function_of(name, arguments) {
        if count_complaint(name, arguments.len()) is None && is_function(name) {
            if arguments.len() > 0 {
                lemma_argument_error(name, arguments, 0);
            }
            if arguments.len() > 1 {
                lemma_argument_error(name, arguments, 1);
            }
        }
    }
}

proof fn lemma_argument_error(name: Seq<char>, arguments: Seq<Node>, k: int)
    requires
        0 <= k < arguments.len(),
    ensures
        argument_expression_of(name, arguments[k].inner) matches Some(Err(error))
            ==> !is_expression_argument(arguments[k]) || is_caused(arguments, error),
    decreases arguments[k].inner, 2int,
{
    let pairs = arguments[k].inner;
    if pairs.len() == 1 && pairs[0].rule == Rule::Expression {
        lemma_error_is_caused(pairs[0].inner);
        if let Some(Err(error)) = expression_of(pairs[0].inner) {
            lemma_caused_inside(pairs, 0, error);
            lemma_caused_inside(arguments, k, error);
        }
    }
}

/// Whether at `i` of `x` there is a call of `name` with the given arguments.
pub open spec fn is_call_at(
    x: Seq<char>,
    i: int,
    name: Seq<char>,
    arguments: Seq<Node>,
) -> bool {
    let open = run_end(x, i, CharClass::Name);
    &&& 0 <= i
    &&& call_at(x, i) is Some
    &&& name == x.subrange(i, open)
    &&& arguments == arguments_at(x, open + 1).0
}

/// Whether a node has its text from `x`, and the text is what its rule matches.
spec fn is_grown(x: Seq<char>, n: Node) -> bool {
    &&& occurs(n.text, x)
    &&& n.rule == Rule::Symbol ==> is_symbol_text(n.text)
    &&& n.rule == Rule::LiteralString ==> is_quoted(n.text) && is_quotable(
        n.text.subrange(1, n.text.len() - 1),
    )
}

/// Whether the nodes and all inside them have their texts and calls from `x`.
spec fn all_grown(x: Seq<char>, pairs: Seq<Node>) -> bool
    decreases pairs,
{
    &&& pairs.len() >= 2 && pairs[0].rule == Rule::FunctionName ==> exists|i: int|
        is_call_at(x, i, pairs[0].text, pairs[1].inner)
    &&& forall|k: int|
        0 <= k < pairs.len() ==> is_grown(x, #[trigger] pairs[k]) && all_grown(x, pairs[k].inner)
}

proof fn lemma_occurs(x: Seq<char>, i: int, end: int)
    requires
        0 <= i <= end <= x.len(),
    ensures
        occurs(x.subrange(i, end), x),
{
    assert(occurs_at(x.subrange(i, end), x, i));
}

/// What occurs in a part of `x` occurs in `x`.
proof fn lemma_occurs_inside(x: Seq<char>, part: Seq<char>, i: int, end: int)
    requires
        occurs(part, x),
        0 <= i <= end <= part.len(),
    ensures
        occurs(part.subrange(i, end), x),
{
    let d = choose|d: int| occurs_at(part, x, d);
    assert(x.subrange(d, d + part.len()).subrange(i, end) =~= x.subrange(d + i, d + end));
    lemma_occurs(x, d + i, d + end);
}

proof fn lemma_expression_grown(x: Seq<char>, i: int)
    requires
        0 <= i <= x.len(),
    ensures
        expression_at(x, i) matches Some((n, _)) ==> is_grown(x, n) && all_grown(x, n.inner)
            && n.rule == Rule::Expression,
    decreases x.len() - i, 1int,
{
    lemma_expression_progress(x, i);
    lemma_expression_readable(x, i);
    if let Some((n, end)) = expression_at(x, i) {
        lemma_occurs(x, i, end);
        if char_at(x, i, ':') && expression_at(x, i + 1) is Some {
            lemma_expression_grown(x, i + 1);
            lemma_occurs(x, i, i + 1);
            assert(all_grown(x, n.inner[0].inner));
        } else if char_at(x, i, '*') && char_at(x, i + 1, ':') && expression_at(x, i + 2) is Some {
            lemma_expression_grown(x, i + 2);
            lemma_occurs(x, i, i + 2);
            assert(all_grown(x, n.inner[0].inner));
        } else if call_at(x, i) is Some {
            let open = run_end(x, i, CharClass::Name);
            lemma_run(x, i, CharClass::Name);
            lemma_arguments_progress(x, open + 1);
            lemma_arguments_grown(x, open + 1);
            lemma_occurs(x, i, open);
            lemma_occurs(x, open + 1, end - 1);
            assert(all_grown(x, n.inner[0].inner));
            assert(is_call_at(x, i, n.inner[0].text, n.inner[1].inner));
        } else {
            lemma_primary_grown(x, i);
        }
    }
}

proof fn lemma_primary_grown(x: Seq<char>, i: int)
    requires
        0 <= i <= x.len(),
    ensures
        primary_at(x, i) matches Some((n, _)) ==> is_grown(x, n) && all_grown(x, n.inner) && n.rule
            == Rule::Primary,
    decreases x.len() - i, 0int,
{
    lemma_run(x, i, CharClass::Symbol);
    if let Some((n, end)) = primary_at(x, i) {
        if symbol_at(x, i) is Some {
            lemma_occurs(x, i, end);
            assert(all_grown(x, n.inner[0].inner));
            assert(is_symbol_text(n.inner[0].text));
        } else {
            lemma_expression_progress(x, i + 1);
            lemma_expression_grown(x, i + 1);
            lemma_occurs(x, i, end);
        }
    }
}

proof fn lemma_argument_grown(x: Seq<char>, i: int)
    requires
        0 <= i <= x.len(),
    ensures
        argument_at(x, i) matches Some((n, _)) ==> is_grown(x, n) && all_grown(x, n.inner) && n.rule
            == Rule::FunctionArgument,
    decreases x.len() - i, 2int,
{
    lemma_argument_progress(x, i);
    lemma_expression_grown(x, i);
    if let Some((n, end)) = argument_at(x, i) {
        lemma_occurs(x, i, end);
        if literal_string_at(x, i) is Some {
            lemma_run(x, i + 1, CharClass::Quoted);
            let text = n.inner[0].text;
            assert(all_grown(x, n.inner[0].inner));
            assert forall|k: int| 0 <= k < text.len() - 2 implies #[trigger] text.subrange(
                1,
                text.len() - 1,
            )[k] != '"' by {
                assert(CharClass::Quoted.has(x[i + 1 + k]));
            }
        }
    }
}

proof fn lemma_arguments_grown(x: Seq<char>, i: int)
    requires
        0 <= i <= x.len(),
    ensures
        all_grown(x, arguments_at(x, i).0),
        all_grown(x, more_arguments_at(x, i).0),
        arguments_at(x, i).0.len() > 0 ==> arguments_at(x, i).0[0].rule == Rule::FunctionArgument,
        more_arguments_at(x, i).0.len() > 0 ==> more_arguments_at(x, i).0[0].rule
            == Rule::FunctionArgument,
    decreases x.len() - i, 3int,
{
    lemma_argument_grown(x, i);
    lemma_argument_progress(x, i);
    if let Some((argument, end)) = argument_at(x, i) {
        lemma_arguments_grown(x, end);
        lemma_grown_push_front(x, argument, more_arguments_at(x, end).0);
    }
    if char_at(x, i, ',') {
        lemma_argument_grown(x, i + 1);
        lemma_argument_progress(x, i + 1);
        if let Some((argument, end)) = argument_at(x, i + 1) {
            lemma_arguments_grown(x, end);
            lemma_grown_push_front(x, argument, more_arguments_at(x, end).0);
        }
    }
}

proof fn lemma_grown_push_front(x: Seq<char>, first: Node, rest: Seq<Node>)
    requires
        first.rule != Rule::FunctionName,
        is_grown(x, first),
        all_grown(x, first.inner),
        all_grown(x, rest),
    ensures
        all_grown(x, seq![first] + rest),
{
    let all = seq![first] + rest;
    assert forall|k: int| 0 <= k < all.len() implies is_grown(x, #[trigger] all[k]) && all_grown(
        x,
        all[k].inner,
    ) by {
        if k > 0 {
            assert(all[k] == rest[k - 1]);
        }
    }
}

/// A call in nodes that are grown from `x` stands in `x`.
proof fn lemma_call_stands(
    x: Seq<char>,
    pairs: Seq<Node>,
    name: Seq<char>,
    arguments: Seq<Node>,
)
    requires
        all_grown(x, pairs),
        has_call(pairs, name, arguments),
    ensures
        exists|i: int| is_call_at(x, i, name, arguments),
    decreases pairs,
{
    if !is_call(pairs, name, arguments) {
        let k = choose|k: int|
            0 <= k < pairs.len() && has_call((#[trigger] pairs[k]).inner, name, arguments);
        lemma_call_stands(x, pairs[k].inner, name, arguments);
    }
}

/// Whether every symbol and every string of `expression` occurs in `x`.
pub open spec fn is_drawn_from(expression: ExpressionModel, x: Seq<char>) -> bool
    decreases expression,
{
    match expression {
        ExpressionModel::Symbol(symbol) => occurs(symbol, x),
        ExpressionModel::Parents(base) => is_drawn_from(*base, x),
        ExpressionModel::Ancestors(base) => is_drawn_from(*base, x),
        ExpressionModel::AllHeads => true,
        ExpressionModel::NonObsoleteHeads(base) => is_drawn_from(*base, x),
        ExpressionModel::Description { needle, base_expression } => occurs(needle, x)
            && is_drawn_from(*base_expression, x),
    }
}

spec fn is_taken(expression: ExpressionModel, x: Seq<char>) -> bool {
    is_drawn_from(expression, x) && is_writable(expression)
}

/// What nodes that are grown from `x` stand for is drawn from `x`.
proof fn lemma_taken(x: Seq<char>, pairs: Seq<Node>)
    requires
        all_grown(x, pairs),
    ensures
        expression_of(pairs) matches Some(Ok(expression)) ==> is_taken(expression, x),
        primary_of(pairs) matches Some(Ok(expression)) ==> is_taken(expression, x),
    decreases pairs, 1int,
{
    if pairs.len() > 0 {
        lemma_taken(x, pairs[0].inner);
    }
    if pairs.len() > 1 {
        lemma_taken(x, pairs[1].inner);
        lemma_function_taken(x, pairs[0].text, pairs[1].inner);
    }
}

proof fn lemma_function_taken(x: Seq<char>, name: Seq<char>, arguments: Seq<Node>)
    requires
        all_grown(x, arguments),
    ensures
        function_of(name, arguments) matches Some(Ok(expression)) ==> is_taken(expression, x),
    decreases arguments, 0int,
{
    reveal_with_fuel(is_drawn_from, 4);
    reveal_with_fuel(is_writable, 4);
    if arguments.len() > 0 {
        lemma_argument_taken(x, name, arguments[0].inner);
    }
    if arguments.len() > 1 {
        lemma_argument_taken(x, name, arguments[1].inner);
    }
}

proof fn lemma_argument_taken(x: Seq<char>, name: Seq<char>, pairs: Seq<Node>)
    requires
        all_grown(x, pairs),
    ensures
        argument_expression_of(name, pairs) matches Some(Ok(expression)) ==> is_taken(
            expression,
            x,
        ),
        argument_string_of(name, pairs) matches Some(Ok(text)) ==> occurs(text, x) && is_quotable(
            text,
        ),
    decreases pairs, 2int,
{
    if pairs.len() == 1 {
        let content = pairs[0];
        assert(is_grown(x, content));
        lemma_taken(x, content.inner);
        if content.rule == Rule::LiteralString {
            lemma_occurs_inside(x, content.text, 1, content.text.len() - 1);
        } else if is_symbol(content.inner) {
            let primary = content.inner[0];
            assert(all_grown(x, primary.inner));
            let symbol = primary.inner[0];
            assert(is_grown(x, symbol));
            assert forall|k: int| 0 <= k < symbol.text.len() implies #[trigger] symbol.text[k]
                != '"' by {
                assert(CharClass::Symbol.has(symbol.text[k]));
            }
        }
    }
}

/// A function that is said not to exist is one that the text calls, and
/// arguments that are said to be invalid are those of a call in the text, of a
/// function that exists and does not take them.
pub proof fn errors_are_about_calls(x: Seq<char>)
    requires
        expression_at(x, 0) is Some,
    ensures
        parsed(x) matches Err(ParseErrorModel::NoSuchFunction(name)) ==> {
            &&& !is_function(name)
            &&& exists|arguments: Seq<Node>| #[trigger] calls(x, name, arguments)
        },
        parsed(x) matches Err(ParseErrorModel::InvalidFunctionArguments { name, message }) ==> {
            &&& is_function(name)
            &&& exists|arguments: Seq<Node>| #[trigger]
                calls(x, name, arguments) && own_complaint(name, arguments) == Some(message)
        },
{
    syntax_error_means_incomplete(x);
    lemma_expression_readable(x, 0);
    lemma_error_is_caused(tree(x).inner);
    if let Err(error) = parsed(x) {
        if is_caused(tree(x).inner, error) {
            let (name, arguments) = choose|name: Seq<char>, arguments: Seq<Node>| #[trigger]
                has_call(tree(x).inner, name, arguments) && refuses(error, name, arguments);
            assert(calls(x, name, arguments));
        }
    }
}

/// What the expression that a text begins with calls, stands in the text as a
/// call with the same arguments.
pub proof fn calls_stand_in_the_text(x: Seq<char>, name: Seq<char>, arguments: Seq<Node>)
    requires
        expression_at(x, 0) is Some,
        calls(x, name, arguments),
    ensures
        exists|i: int| is_call_at(x, i, name, arguments),
{
    lemma_expression_grown(x, 0);
    lemma_call_stands(x, tree(x).inner, name, arguments);
}

/// Every symbol and every string of an expression is a run of characters of the
/// text that it was parsed from.
pub proof fn expressions_are_drawn_from_the_text(x: Seq<char>)
    requires
        expression_at(x, 0) is Some,
    ensures
        parsed(x) matches Ok(expression) ==> is_drawn_from(expression, x),
{
    lemma_expression_grown(x, 0);
    lemma_expression_readable(x, 0);
    lemma_taken(x, tree(x).inner);
}

/// What was parsed can be written, and what is written stands for the same.
pub proof fn parsed_can_be_written(x: Seq<char>)
    requires
        expression_at(x, 0) is Some,
    ensures
        parsed(x) matches Ok(expression) ==> {
            &&& is_writable(expression)
            &&& parsed(written(expression)) == parsed(x)
        },
{
    lemma_expression_grown(x, 0);
    lemma_expression_readable(x, 0);
    lemma_taken(x, tree(x).inner);
    if let Ok(expression) = parsed(x) {
        written_is_read_back(expression);
    }
}

} // verus!
