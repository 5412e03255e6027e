//! The forms that the text of a revset can have, and what each stands for.
use crate::expression::{
    argument_expression_of, argument_string_of, expression_of, function_of, incomplete, is_symbol,
    lemma_expression_readable, parsed, primary_of, ExpressionModel, ParseErrorModel,
};
use crate::grammar::{
    argument_at, arguments_at, call_at, char_at, expression_at, lemma_argument_progress,
    lemma_arguments_progress, lemma_expression_progress, lemma_run, literal_string_at,
    more_arguments_at, node, primary_at, run_end, symbol_at, CharClass, Node, Rule,
};
use crate::locality::{agree, lemma_call_local, lemma_expression_local, lemma_first_char, stops};
use crate::syntax_properties::{
    call, complete, expression_argument, is_name, is_quotable, is_symbol_text, lemma_call,
    lemma_expression_argument, lemma_names, lemma_no_argument, lemma_run_of, lemma_string_argument,
    lemma_symbol_tree, parentheses, prefix_operators, quoted, string_argument, symbols, tree,
};
use crate::text::decimal;
use vstd::prelude::*;
use vstd::utf8::encode_utf8;

verus! {

/// Whether `a` can be an argument: an expression or a text in quotes.
pub open spec fn is_argument(a: Seq<char>) -> bool {
    complete(a) || is_literal(a)
}

/// Whether `a` is a text in quotes, without quotes inside.
pub open spec fn is_literal(a: Seq<char>) -> bool {
    &&& a.len() >= 2
    &&& a[0] == '"'
    &&& a[a.len() - 1] == '"'
    &&& forall|k: int| 0 < k < a.len() - 1 ==> #[trigger] a[k] != '"'
}

/// Whether all of `arguments` can be arguments.
pub open spec fn are_arguments(arguments: Seq<Seq<char>>) -> bool {
    forall|k: int| 0 <= k < arguments.len() ==> is_argument(#[trigger] arguments[k])
}

/// The arguments with a comma before each.
pub open spec fn with_commas(arguments: Seq<Seq<char>>) -> Seq<char>
    decreases arguments.len(),
{
    if arguments.len() == 0 {
        seq![]
    } else {
        seq![','] + arguments[0] + with_commas(arguments.drop_first())
    }
}

/// The arguments with commas between them.
pub open spec fn joined(arguments: Seq<Seq<char>>) -> Seq<char> {
    if arguments.len() == 0 {
        seq![]
    } else {
        arguments[0] + with_commas(arguments.drop_first())
    }
}

/// The node of an argument.
pub open spec fn argument_node(a: Seq<char>) -> Node {
    Node {
        rule: Rule::FunctionArgument,
        text: a,
        inner: seq![
            if complete(a) {
                tree(a)
            } else {
                Node { rule: Rule::LiteralString, text: a, inner: seq![] }
            },
        ],
    }
}

/// The nodes of arguments.
pub open spec fn argument_nodes(arguments: Seq<Seq<char>>) -> Seq<Node> {
    Seq::new(arguments.len(), |k: int| argument_node(arguments[k]))
}

/// An expression does not begin with a quote.
proof fn lemma_literal_is_no_expression(a: Seq<char>)
    requires
        is_literal(a),
    ensures
        !complete(a),
        a == quoted(a.subrange(1, a.len() - 1)),
        is_quotable(a.subrange(1, a.len() - 1)),
{
    if expression_at(a, 0) is Some {
        lemma_first_char(a, 0);
    }
    assert(a =~= quoted(a.subrange(1, a.len() - 1)));
}

proof fn lemma_argument_node(a: Seq<char>, t: Seq<char>, d: int)
    requires
        is_argument(a),
        0 <= d,
        d + a.len() <= t.len(),
        t.subrange(d, d + a.len()) == a,
        stops(t, d + a.len()),
    ensures
        argument_at(t, d) == Some((argument_node(a), d + a.len())),
        a.len() > 0,
{
    if complete(a) {
        lemma_expression_argument(a, t, d);
        assert(argument_node(a) == expression_argument(a));
    } else {
        lemma_literal_is_no_expression(a);
        lemma_string_argument(a.subrange(1, a.len() - 1), t, d);
        assert(argument_node(a) == string_argument(a.subrange(1, a.len() - 1)));
    }
}

proof fn lemma_with_commas(arguments: Seq<Seq<char>>, t: Seq<char>, d: int)
    requires
        are_arguments(arguments),
        0 <= d,
        d + with_commas(arguments).len() < t.len(),
        t.subrange(d, d + with_commas(arguments).len()) == with_commas(arguments),
        t[d + with_commas(arguments).len()] == ')',
    ensures
        more_arguments_at(t, d) == (
            argument_nodes(arguments),
            d + with_commas(arguments).len(),
        ),
    decreases arguments.len(),
{
    let w = with_commas(arguments);
    if arguments.len() == 0 {
        lemma_no_argument(t, d);
        assert(argument_nodes(arguments) =~= Seq::<Node>::empty());
    } else {
        let a = arguments[0];
        let rest = arguments.drop_first();
        let e = d + 1 + a.len();
        assert(t[d] == w[0]);
        assert(t.subrange(d + 1, e) =~= w.subrange(1, 1 + a.len() as int));
        assert(w.subrange(1, 1 + a.len() as int) =~= a);
        assert(t.subrange(e, e + with_commas(rest).len()) =~= w.subrange(
            1 + a.len() as int,
            w.len() as int,
        ));
        assert(w.subrange(1 + a.len() as int, w.len() as int) =~= with_commas(rest));
        if rest.len() > 0 {
            assert(with_commas(rest)[0] == ',');
            assert(t[e] == t.subrange(e, e + with_commas(rest).len())[0]);
        }
        assert(is_argument(a));
        lemma_argument_node(a, t, d + 1);
        assert forall|k: int| 0 <= k < rest.len() implies is_argument(#[trigger] rest[k]) by {
            assert(rest[k] == arguments[k + 1]);
        }
        lemma_with_commas(rest, t, e);
        assert(argument_nodes(arguments) =~= seq![argument_node(a)] + argument_nodes(rest));
    }
}

proof fn lemma_joined(arguments: Seq<Seq<char>>, t: Seq<char>, d: int)
    requires
        are_arguments(arguments),
        0 <= d,
        d + joined(arguments).len() < t.len(),
        t.subrange(d, d + joined(arguments).len()) == joined(arguments),
        t[d + joined(arguments).len()] == ')',
    ensures
        arguments_at(t, d) == (argument_nodes(arguments), d + joined(arguments).len()),
{
    let w = joined(arguments);
    if arguments.len() == 0 {
        lemma_no_argument(t, d);
        assert(argument_nodes(arguments) =~= Seq::<Node>::empty());
    } else {
        let a = arguments[0];
        let rest = arguments.drop_first();
        let e = d + a.len();
        assert(t.subrange(d, e) =~= w.subrange(0, a.len() as int));
        assert(w.subrange(0, a.len() as int) =~= a);
        assert(t.subrange(e, e + with_commas(rest).len()) =~= w.subrange(
            a.len() as int,
            w.len() as int,
        ));
        assert(w.subrange(a.len() as int, w.len() as int) =~= with_commas(rest));
        if rest.len() > 0 {
            assert(with_commas(rest)[0] == ',');
            assert(t[e] == t.subrange(e, e + with_commas(rest).len())[0]);
        }
        assert(is_argument(a));
        lemma_argument_node(a, t, d);
        assert forall|k: int| 0 <= k < rest.len() implies is_argument(#[trigger] rest[k]) by {
            assert(rest[k] == arguments[k + 1]);
        }
        lemma_with_commas(rest, t, e);
        assert(argument_nodes(arguments) =~= seq![argument_node(a)] + argument_nodes(rest));
    }
}

/// A call of a name with any arguments is an expression. Its tree holds the name
/// and the arguments, in order, each with its own tree.
pub proof fn calls_are_expressions(name: Seq<char>, arguments: Seq<Seq<char>>)
    requires
        is_name(name),
        are_arguments(arguments),
    ensures
        complete(name + seq!['('] + joined(arguments) + seq![')']),
        tree(name + seq!['('] + joined(arguments) + seq![')']) == (Node {
            rule: Rule::Expression,
            text: name + seq!['('] + joined(arguments) + seq![')'],
            inner: seq![
                Node { rule: Rule::FunctionName, text: name, inner: seq![] },
                Node {
                    rule: Rule::FunctionArguments,
                    text: joined(arguments),
                    inner: argument_nodes(arguments),
                },
            ],
        }),
{
    let t = call(name, joined(arguments));
    let d = name.len() as int + 1;
    let e = d + joined(arguments).len();
    assert(t.subrange(d, e) =~= joined(arguments));
    assert(t[e] == ')');
    lemma_joined(arguments, t, d);
    lemma_call(name, joined(arguments), argument_nodes(arguments));
    assert(t.subrange(0, d - 1) =~= name);
    assert(t.subrange(0, t.len() as int) =~= t);
    lemma_expression_readable(t, 0);
    lemma_call_tree(name, joined(arguments), argument_nodes(arguments));
}

proof fn lemma_call_tree(name: Seq<char>, arguments: Seq<char>, list: Seq<Node>)
    requires
        is_name(name),
        arguments_at(call(name, arguments), name.len() as int + 1) == (
            list,
            name.len() as int + 1 + arguments.len(),
        ),
    ensures
        tree(call(name, arguments)) == (Node {
            rule: Rule::Expression,
            text: call(name, arguments),
            inner: seq![
                Node { rule: Rule::FunctionName, text: name, inner: seq![] },
                Node { rule: Rule::FunctionArguments, text: arguments, inner: list },
            ],
        }),
{
    let t = call(name, arguments);
    let open = name.len() as int;
    let end = open + 1 + arguments.len();
    assert(t[open] == '(' && t[end] == ')' && t.len() == end + 1);
    assert forall|k: int| 0 <= k < open implies CharClass::Name.has(#[trigger] t[k]) by {
        assert(t[k] == name[k]);
    }
    lemma_run_of(t, 0, open, CharClass::Name);
    assert(CharClass::Name.has(t[0]));
    assert(t.subrange(0, open) =~= name);
    assert(t.subrange(open + 1, end) =~= arguments);
    assert(t.subrange(0, end + 1) =~= t);
    let first = node(Rule::FunctionName, t, 0, open, seq![]);
    let second = node(Rule::FunctionArguments, t, open + 1, end, list);
    assert(call_at(t, 0) == Some(
        (node(Rule::Expression, t, 0, end + 1, seq![first, second]), end + 1),
    ));
}

proof fn lemma_call_meaning(name: Seq<char>, arguments: Seq<Seq<char>>)
    requires
        is_name(name),
        are_arguments(arguments),
    ensures
        Some(parsed(name + seq!['('] + joined(arguments) + seq![')'])) == function_of(
            name,
            argument_nodes(arguments),
        ),
        forall|k: int|
            0 <= k < arguments.len() && complete(#[trigger] arguments[k])
                ==> argument_expression_of(name, argument_nodes(arguments)[k].inner) == Some(
                parsed(arguments[k]),
            ),
        forall|k: int|
            0 <= k < arguments.len() && !complete(#[trigger] arguments[k])
                ==> argument_expression_of(name, argument_nodes(arguments)[k].inner) == Some(
                Err::<ExpressionModel, _>(
                    ParseErrorModel::InvalidFunctionArguments {
                        name,
                        message: "Expected function argument of type expression, found: "@
                            + arguments[k],
                    },
                ),
            ),
{
    let t = call(name, joined(arguments));
    let d = name.len() as int + 1;
    assert(t.subrange(d, d + joined(arguments).len()) =~= joined(arguments));
    assert(t[d + joined(arguments).len()] == ')');
    lemma_joined(arguments, t, d);
    lemma_call(name, joined(arguments), argument_nodes(arguments));
    assert forall|k: int| 0 <= k < arguments.len() && complete(#[trigger] arguments[k]) implies
        argument_expression_of(name, argument_nodes(arguments)[k].inner) == Some(
        parsed(arguments[k]),
    ) by {
        lemma_expression_readable(arguments[k], 0);
    }
}

/// What the calls of "parents", "ancestors", "all_heads" and "non_obsolete_heads"
/// stand for, with any arguments: the operator over what the argument stands for,
/// the error of the argument, or a complaint about the number or the type of the
/// arguments.
pub proof fn operator_calls(arguments: Seq<Seq<char>>)
    requires
        are_arguments(arguments),
    ensures
        parsed("parents"@ + seq!['('] + joined(arguments) + seq![')']) == (if arguments.len() != 1 {
            Err(
                ParseErrorModel::InvalidFunctionArguments {
                    name: "parents"@,
                    message: "Expected 1 argument"@,
                },
            )
        } else if !complete(arguments[0]) {
            Err(
                ParseErrorModel::InvalidFunctionArguments {
                    name: "parents"@,
                    message: "Expected function argument of type expression, found: "@
                        + arguments[0],
                },
            )
        } else {
            match parsed(arguments[0]) {
                Ok(base) => Ok(ExpressionModel::Parents(Box::new(base))),
                Err(error) => Err(error),
            }
        }),
        parsed("ancestors"@ + seq!['('] + joined(arguments) + seq![')']) == (if arguments.len()
            != 1 {
            Err(
                ParseErrorModel::InvalidFunctionArguments {
                    name: "ancestors"@,
                    message: "Expected 1 argument"@,
                },
            )
        } else if !complete(arguments[0]) {
            Err(
                ParseErrorModel::InvalidFunctionArguments {
                    name: "ancestors"@,
                    message: "Expected function argument of type expression, found: "@
                        + arguments[0],
                },
            )
        } else {
            match parsed(arguments[0]) {
                Ok(base) => Ok(ExpressionModel::Ancestors(Box::new(base))),
                Err(error) => Err(error),
            }
        }),
        parsed("all_heads"@ + seq!['('] + joined(arguments) + seq![')']) == (if arguments.len()
            != 0 {
            Err(
                ParseErrorModel::InvalidFunctionArguments {
                    name: "all_heads"@,
                    message: "Expected 0 arguments"@,
                },
            )
        } else {
            Ok(ExpressionModel::AllHeads)
        }),
        parsed("non_obsolete_heads"@ + seq!['('] + joined(arguments) + seq![')']) == (
        if arguments.len() > 1 {
            Err(
                ParseErrorModel::InvalidFunctionArguments {
                    name: "non_obsolete_heads"@,
                    message: "Expected 0 or 1 argument"@,
                },
            )
        } else if arguments.len() == 0 {
            Ok(ExpressionModel::NonObsoleteHeads(Box::new(ExpressionModel::AllHeads)))
        } else if !complete(arguments[0]) {
            Err(
                ParseErrorModel::InvalidFunctionArguments {
                    name: "non_obsolete_heads"@,
                    message: "Expected function argument of type expression, found: "@
                        + arguments[0],
                },
            )
        } else {
            match parsed(arguments[0]) {
                Ok(base) => Ok(ExpressionModel::NonObsoleteHeads(Box::new(base))),
                Err(error) => Err(error),
            }
        }),
{
    lemma_names();
    lemma_call_meaning("parents"@, arguments);
    lemma_call_meaning("ancestors"@, arguments);
    lemma_call_meaning("all_heads"@, arguments);
    lemma_call_meaning("non_obsolete_heads"@, arguments);
    if arguments.len() > 0 {
        assert(complete(arguments[0]) || !complete(arguments[0]));
    }
}

/// What the first argument of "description" is searched for: the text between the
/// quotes, or a symbol as it stands; `None` for every other argument.
pub open spec fn needle_of(argument: Seq<char>) -> Option<Seq<char>> {
    if is_literal(argument) {
        Some(argument.subrange(1, argument.len() - 1))
    } else if is_symbol_text(argument) {
        Some(argument)
    } else {
        None
    }
}

/// What the calls of "description" stand for, with any arguments: the needle is the
/// first argument, in quotes or a symbol, and the base is just what the second
/// argument stands for, or the ancestors of the non-obsolete heads of all heads
/// where there is none.
pub proof fn description_calls(arguments: Seq<Seq<char>>)
    requires
        are_arguments(arguments),
    ensures
        parsed("description"@ + seq!['('] + joined(arguments) + seq![')']) == (if arguments.len()
            != 1 && arguments.len() != 2 {
            Err(
                ParseErrorModel::InvalidFunctionArguments {
                    name: "description"@,
                    message: "Expected 1 or 2 arguments"@,
                },
            )
        } else if needle_of(arguments[0]) is None {
            Err(
                ParseErrorModel::InvalidFunctionArguments {
                    name: "description"@,
                    message: "Expected function argument of type string, found: "@ + arguments[0],
                },
            )
        } else if arguments.len() == 1 {
            Ok(
                ExpressionModel::Description {
                    needle: needle_of(arguments[0])->0,
                    base_expression: Box::new(
                        ExpressionModel::Ancestors(
                            Box::new(
                                ExpressionModel::NonObsoleteHeads(
                                    Box::new(ExpressionModel::AllHeads),
                                ),
                            ),
                        ),
                    ),
                },
            )
        } else if !complete(arguments[1]) {
            Err(
                ParseErrorModel::InvalidFunctionArguments {
                    name: "description"@,
                    message: "Expected function argument of type expression, found: "@
                        + arguments[1],
                },
            )
        } else {
            match parsed(arguments[1]) {
                Ok(base) => Ok(
                    ExpressionModel::Description {
                        needle: needle_of(arguments[0])->0,
                        base_expression: Box::new(base),
                    },
                ),
                Err(error) => Err(error),
            }
        }),
{
    lemma_names();
    let name = "description"@;
    lemma_call_meaning(name, arguments);
    if arguments.len() > 0 {
        assert(is_argument(arguments[0]));
        lemma_needle(name, arguments[0]);
        assert(argument_nodes(arguments)[0] == argument_node(arguments[0]));
    }
    if arguments.len() > 1 {
        assert(complete(arguments[1]) || !complete(arguments[1]));
    }
}

proof fn lemma_needle(name: Seq<char>, a: Seq<char>)
    requires
        is_argument(a),
    ensures
        argument_string_of(name, argument_node(a).inner) == Some(
            match needle_of(a) {
                Some(needle) => Ok::<Seq<char>, ParseErrorModel>(needle),
                None => Err(
                    ParseErrorModel::InvalidFunctionArguments {
                        name,
                        message: "Expected function argument of type string, found: "@ + a,
                    },
                ),
            },
        ),
{
    if complete(a) {
        lemma_expression_readable(a, 0);
        if is_literal(a) {
            lemma_literal_is_no_expression(a);
        }
        if is_symbol_text(a) {
            lemma_symbol_tree(a);
        } else {
            lemma_only_symbols_are_symbols(a);
        }
        lemma_tree_text(a);
    } else {
        lemma_literal_is_no_expression(a);
        let content = Node { rule: Rule::LiteralString, text: a, inner: seq![] };
        assert(argument_node(a).inner == seq![content]);
    }
}

/// The text of the tree of an expression is the expression.
proof fn lemma_tree_text(a: Seq<char>)
    requires
        complete(a),
    ensures
        tree(a).text == a,
{
    reveal_with_fuel(expression_at, 2);
    reveal_with_fuel(call_at, 2);
    assert(a.subrange(0, a.len() as int) =~= a);
}

/// What an expression without operator and call is: a symbol, or an expression in
/// parentheses.
proof fn lemma_primary_cases(x: Seq<char>, i: int)
    requires
        0 <= i <= x.len(),
        expression_at(x, i) is Some,
        !char_at(x, i, ':'),
        !char_at(x, i, '*'),
        call_at(x, i) is None,
    ensures
        ({
            let (n, e) = expression_at(x, i)->0;
            &&& primary_at(x, i) matches Some((p, end)) && end == e && n.inner == seq![p] && p.rule
                == Rule::Primary
            &&& symbol_at(x, i) is Some ==> {
                &&& e == run_end(x, i, CharClass::Symbol)
                &&& forall|k: int| i <= k < e ==> CharClass::Symbol.has(#[trigger] x[k])
            }
            &&& symbol_at(x, i) is None ==> {
                &&& char_at(x, i, '(')
                &&& expression_at(x, i + 1) matches Some((_, end)) && end == e - 1
                &&& char_at(x, e - 1, ')')
                &&& n.inner[0].inner == seq![expression_at(x, i + 1).unwrap().0]
            }
        }),
{
    reveal_with_fuel(expression_at, 2);
    reveal_with_fuel(primary_at, 2);
    lemma_run(x, i, CharClass::Symbol);
}

/// A tree that is just a symbol is that of a symbol.
proof fn lemma_only_symbols_are_symbols(a: Seq<char>)
    requires
        complete(a),
        !is_symbol_text(a),
    ensures
        !is_symbol(tree(a).inner),
        tree(a).inner.len() > 0,
        tree(a).inner[0].rule == Rule::Primary ==> tree(a).inner[0].inner.len() > 0,
{
    lemma_expression_progress(a, 0);
    lemma_first_char(a, 0);
    if !char_at(a, 0, ':') && !char_at(a, 0, '*') && call_at(a, 0) is None {
        lemma_primary_cases(a, 0);
        if symbol_at(a, 0) is None {
            lemma_expression_readable(a, 1);
        }
    }
}

/// A call of a name that is not one of the five functions is refused for its name,
/// with any arguments.
pub proof fn other_calls(name: Seq<char>, arguments: Seq<Seq<char>>)
    requires
        is_name(name),
        are_arguments(arguments),
        name != "parents"@,
        name != "ancestors"@,
        name != "all_heads"@,
        name != "non_obsolete_heads"@,
        name != "description"@,
    ensures
        parsed(name + seq!['('] + joined(arguments) + seq![')']) == Err::<ExpressionModel, _>(
            ParseErrorModel::NoSuchFunction(name),
        ),
{
    lemma_call_meaning(name, arguments);
}

/// A needle in quotes or as a symbol makes no difference, whatever the base.
pub proof fn symbols_are_needles(text: Seq<char>, x: Seq<char>)
    requires
        is_symbol_text(text),
        complete(x),
    ensures
        complete(call("description"@, text + seq![','] + x)),
        parsed(call("description"@, text + seq![','] + x)) == parsed(
            call("description"@, quoted(text) + seq![','] + x),
        ),
        parsed(call("description"@, text + seq![','] + x)) == (match parsed(x) {
            Ok(base) => Ok(
                ExpressionModel::Description { needle: text, base_expression: Box::new(base) },
            ),
            Err(error) => Err(error),
        }),
{
    lemma_names();
    symbols(text);
    assert forall|k: int| 0 <= k < text.len() implies #[trigger] text[k] != '"' by {
        assert(CharClass::Symbol.has(text[k]));
    }
    let q = quoted(text);
    assert(is_literal(q)) by {
        assert forall|k: int| 0 < k < q.len() - 1 implies #[trigger] q[k] != '"' by {
            assert(q[k] == text[k - 1]);
        }
    }
    assert(q.subrange(1, q.len() - 1) =~= text);
    assert(!is_literal(text)) by {
        if is_literal(text) {
            assert(text[0] == '"');
        }
    }
    lemma_two_joined(text, x);
    lemma_two_joined(q, x);
    calls_are_expressions("description"@, seq![text, x]);
    description_calls(seq![text, x]);
    description_calls(seq![q, x]);
}

proof fn lemma_two_joined(a: Seq<char>, b: Seq<char>)
    ensures
        joined(seq![a, b]) == a + seq![','] + b,
{
    let one = seq![a, b].drop_first();
    assert(one =~= seq![b]);
    assert(one.drop_first() =~= Seq::<Seq<char>>::empty());
    reveal_with_fuel(with_commas, 3);
    assert(joined(seq![a, b]) =~= a + seq![','] + b);
}

/// The trees of symbols, of expressions in parentheses and of those under an
/// operator.
pub proof fn trees_of_the_other_forms(x: Seq<char>)
    ensures
        is_symbol_text(x) ==> tree(x) == (Node {
            rule: Rule::Expression,
            text: x,
            inner: seq![
                Node {
                    rule: Rule::Primary,
                    text: x,
                    inner: seq![Node { rule: Rule::Symbol, text: x, inner: seq![] }],
                },
            ],
        }),
        complete(x) ==> {
            let t = seq!['('] + x + seq![')'];
            tree(t) == (Node {
                rule: Rule::Expression,
                text: t,
                inner: seq![Node { rule: Rule::Primary, text: t, inner: seq![tree(x)] }],
            })
        },
        complete(x) ==> {
            let t = seq![':'] + x;
            tree(t) == (Node {
                rule: Rule::Expression,
                text: t,
                inner: seq![
                    Node { rule: Rule::Parents, text: seq![':'], inner: seq![] },
                    tree(x),
                ],
            })
        },
        complete(x) ==> {
            let t = seq!['*', ':'] + x;
            tree(t) == (Node {
                rule: Rule::Expression,
                text: t,
                inner: seq![
                    Node { rule: Rule::Ancestors, text: seq!['*', ':'], inner: seq![] },
                    tree(x),
                ],
            })
        },
{
    if is_symbol_text(x) {
        lemma_symbol_tree(x);
    }
    if complete(x) {
        let t = seq!['('] + x + seq![')'];
        lemma_inside(x, t, 1);
        lemma_run(t, 0, CharClass::Name);
        lemma_run(t, 0, CharClass::Symbol);
        reveal_with_fuel(primary_at, 2);
        assert(symbol_at(t, 0) is None);
        assert(call_at(t, 0) is None);
        assert(t.subrange(0, t.len() as int) =~= t);
        let primary = node(Rule::Primary, t, 0, t.len() as int, seq![tree(x)]);
        assert(primary_at(t, 0) == Some((primary, t.len() as int)));
        let u = seq![':'] + x;
        lemma_inside(x, u, 1);
        assert(u.subrange(0, u.len() as int) =~= u);
        assert(u.subrange(0, 1) =~= seq![':']);
        let v = seq!['*', ':'] + x;
        lemma_inside(x, v, 2);
        assert(v.subrange(0, v.len() as int) =~= v);
        assert(v.subrange(0, 2) =~= seq!['*', ':']);
    }
}

proof fn lemma_inside(x: Seq<char>, t: Seq<char>, d: int)
    requires
        complete(x),
        0 <= d,
        d + x.len() <= t.len(),
        forall|k: int| 0 <= k < x.len() ==> #[trigger] x[k] == t[k + d],
        stops(t, d + x.len()),
    ensures
        expression_at(t, d) == Some((tree(x), d + x.len())),
{
    lemma_expression_progress(x, 0);
    assert(agree(x, t, 0, x.len() as int, d));
    lemma_expression_local(x, t, 0, d);
}

/// What symbols, expressions in parentheses and those under an operator stand for.
pub proof fn meanings_of_the_other_forms(x: Seq<char>)
    ensures
        is_symbol_text(x) ==> parsed(x) == Ok::<_, ParseErrorModel>(ExpressionModel::Symbol(x)),
        complete(x) ==> {
            &&& parsed(seq!['('] + x + seq![')']) == parsed(x)
            &&& parsed(seq![':'] + x) == (match parsed(x) {
                Ok(base) => Ok(ExpressionModel::Parents(Box::new(base))),
                Err(error) => Err(error),
            })
            &&& parsed(seq!['*', ':'] + x) == (match parsed(x) {
                Ok(base) => Ok(ExpressionModel::Ancestors(Box::new(base))),
                Err(error) => Err(error),
            })
        },
{
    if is_symbol_text(x) {
        symbols(x);
    }
    if complete(x) {
        parentheses(x);
        prefix_operators(x);
    }
}

/// Whether `x` has one of the forms of an expression: a symbol, an expression in
/// parentheses or after ":" or "*:", or a call.
pub open spec fn has_a_form(x: Seq<char>) -> bool {
    ||| is_symbol_text(x)
    ||| exists|y: Seq<char>| #[trigger] complete(y) && x == (seq!['('] + y + seq![')'])
    ||| exists|y: Seq<char>| #[trigger] complete(y) && x == (seq![':'] + y)
    ||| exists|y: Seq<char>| #[trigger] complete(y) && x == (seq!['*', ':'] + y)
    ||| exists|name: Seq<char>, arguments: Seq<Seq<char>>|
        #[trigger] is_name(name) && #[trigger] are_arguments(arguments) && x == (name + seq!['('] + joined(
            arguments,
        ) + seq![')'])
}

/// The texts that are expressions are those that have one of the forms, and no
/// others.
pub proof fn expressions_have_forms(x: Seq<char>)
    ensures
        complete(x) <==> has_a_form(x),
{
    if complete(x) {
        lemma_has_a_form(x);
    }
    if has_a_form(x) && !complete(x) {
        if is_symbol_text(x) {
            symbols(x);
        } else if exists|y: Seq<char>| #[trigger] complete(y) && x == (seq!['('] + y + seq![')']) {
            let y = choose|y: Seq<char>|
                #[trigger] complete(y) && x == (seq!['('] + y + seq![')']);
            parentheses(y);
        } else if exists|y: Seq<char>| #[trigger] complete(y) && x == (seq![':'] + y) {
            let y = choose|y: Seq<char>| #[trigger] complete(y) && x == (seq![':'] + y);
            prefix_operators(y);
        } else if exists|y: Seq<char>| #[trigger] complete(y) && x == (seq!['*', ':'] + y) {
            let y = choose|y: Seq<char>| #[trigger] complete(y) && x == (seq!['*', ':'] + y);
            prefix_operators(y);
        } else {
            let (name, arguments) = choose|name: Seq<char>, arguments: Seq<Seq<char>>|
                #[trigger] is_name(name) && #[trigger] are_arguments(arguments) && x == (name + seq!['(']
                    + joined(arguments) + seq![')']);
            calls_are_expressions(name, arguments);
        }
    }
}

/// What an expression in a text takes is an expression by itself, with the same
/// tree.
proof fn lemma_cut_out(x: Seq<char>, i: int)
    requires
        0 <= i <= x.len(),
        expression_at(x, i) is Some,
    ensures
        complete(x.subrange(i, expression_at(x, i).unwrap().1)),
        tree(x.subrange(i, expression_at(x, i).unwrap().1)) == expression_at(x, i).unwrap().0,
{
    let (n, e) = expression_at(x, i)->0;
    lemma_expression_progress(x, i);
    let y = x.subrange(i, e);
    assert(agree(x, y, i, e, -i));
    lemma_expression_local(x, y, i, -i);
}

proof fn lemma_has_a_form(x: Seq<char>)
    requires
        complete(x),
    ensures
        has_a_form(x),
{
    let n = x.len() as int;
    lemma_expression_progress(x, 0);
    lemma_first_char(x, 0);
    if char_at(x, 0, ':') {
        lemma_cut_out(x, 1);
        assert(x =~= seq![':'] + x.subrange(1, n));
    } else if char_at(x, 0, '*') {
        lemma_cut_out(x, 2);
        assert(x =~= seq!['*', ':'] + x.subrange(2, n));
    } else if call_at(x, 0) is Some {
        let open = run_end(x, 0, CharClass::Name);
        lemma_run(x, 0, CharClass::Name);
        let name = x.subrange(0, open);
        assert(is_name(name));
        lemma_arguments_progress(x, open + 1);
        let arguments = lemma_cut_arguments(x, open + 1);
        assert(x =~= name + seq!['('] + joined(arguments) + seq![')']);
    } else {
        lemma_primary_cases(x, 0);
        if symbol_at(x, 0) is Some {
            assert(is_symbol_text(x));
        } else {
            lemma_cut_out(x, 1);
            assert(x =~= seq!['('] + x.subrange(1, n - 1) + seq![')']);
        }
    }
}

proof fn lemma_cut_argument(x: Seq<char>, i: int)
    requires
        0 <= i <= x.len(),
        argument_at(x, i) is Some,
    ensures
        is_argument(x.subrange(i, argument_at(x, i).unwrap().1)),
        i < argument_at(x, i).unwrap().1 <= x.len(),
{
    lemma_argument_progress(x, i);
    let e = argument_at(x, i).unwrap().1;
    let a = x.subrange(i, e);
    if literal_string_at(x, i) is Some {
        lemma_run(x, i + 1, CharClass::Quoted);
        assert forall|k: int| 0 < k < a.len() - 1 implies #[trigger] a[k] != '"' by {
            assert(CharClass::Quoted.has(x[i + k]));
        }
        assert(is_literal(a));
    } else {
        lemma_cut_out(x, i);
    }
}

/// The texts of the arguments that are read at `i`.
proof fn lemma_cut_arguments(x: Seq<char>, i: int) -> (arguments: Seq<Seq<char>>)
    requires
        0 <= i <= x.len(),
    ensures
        are_arguments(arguments),
        i <= arguments_at(x, i).1 <= x.len(),
        x.subrange(i, arguments_at(x, i).1) == joined(arguments),
{
    lemma_arguments_progress(x, i);
    lemma_argument_progress(x, i);
    match argument_at(x, i) {
        Some((_, end)) => {
            lemma_cut_argument(x, i);
            let rest = lemma_cut_more_arguments(x, end);
            let a = x.subrange(i, end);
            let arguments = seq![a] + rest;
            assert(arguments.drop_first() =~= rest);
            assert forall|k: int| 0 <= k < arguments.len() implies is_argument(
                #[trigger] arguments[k],
            ) by {
                if k > 0 {
                    assert(arguments[k] == rest[k - 1]);
                }
            }
            let last = more_arguments_at(x, end).1;
            assert(x.subrange(i, last) =~= a + x.subrange(end, last));
            arguments
        },
        None => {
            assert(x.subrange(i, i) =~= seq![]);
            seq![]
        },
    }
}

proof fn lemma_cut_more_arguments(x: Seq<char>, i: int) -> (arguments: Seq<Seq<char>>)
    requires
        0 <= i <= x.len(),
    ensures
        are_arguments(arguments),
        i <= more_arguments_at(x, i).1 <= x.len(),
        x.subrange(i, more_arguments_at(x, i).1) == with_commas(arguments),
    decreases x.len() - i,
{
    lemma_arguments_progress(x, i);
    if char_at(x, i, ',') && argument_at(x, i + 1) is Some {
        lemma_cut_argument(x, i + 1);
        let end = argument_at(x, i + 1).unwrap().1;
        let rest = lemma_cut_more_arguments(x, end);
        let a = x.subrange(i + 1, end);
        let arguments = seq![a] + rest;
        assert(arguments.drop_first() =~= rest);
        assert forall|k: int| 0 <= k < arguments.len() implies is_argument(
            #[trigger] arguments[k],
        ) by {
            if k > 0 {
                assert(arguments[k] == rest[k - 1]);
            }
        }
        let last = more_arguments_at(x, end).1;
        assert(x.subrange(i, last) =~= seq![','] + a + x.subrange(end, last));
        arguments
    } else {
        assert(x.subrange(i, i) =~= seq![]);
        seq![]
    }
}

/// A text begins with an expression exactly where some part at its start is an
/// expression. The one that is read is the longest such part, with its own tree.
pub proof fn the_longest_expression_is_read(x: Seq<char>, m: int)
    ensures
        expression_at(x, 0) is Some <==> exists|n: int|
            0 <= n <= x.len() && complete(#[trigger] x.take(n)),
        expression_at(x, 0) matches Some((node, end)) ==> {
            &&& 0 < end <= x.len()
            &&& complete(x.take(end))
            &&& node == tree(x.take(end))
            &&& 0 <= m <= x.len() && complete(x.take(m)) ==> m <= end
        },
{
    if let Some((node, end)) = expression_at(x, 0) {
        lemma_expression_progress(x, 0);
        lemma_cut_out(x, 0);
        assert(x.subrange(0, end) =~= x.take(end));
        if 0 <= m <= x.len() && complete(x.take(m)) {
            lemma_longer_text(x.take(m), x, 0);
        }
    }
    if exists|n: int| 0 <= n <= x.len() && complete(#[trigger] x.take(n)) {
        let n = choose|n: int| 0 <= n <= x.len() && complete(#[trigger] x.take(n));
        lemma_longer_text(x.take(n), x, 0);
    }
}

/// An expression at the end of a text is also read where the text goes on, and no
/// less of it.
proof fn lemma_longer_text(t: Seq<char>, x: Seq<char>, i: int)
    requires
        0 <= i <= t.len() <= x.len(),
        forall|k: int| 0 <= k < t.len() ==> #[trigger] t[k] == x[k],
        expression_at(t, i) matches Some((_, end)) && end == t.len(),
    ensures
        expression_at(x, i) matches Some((_, end)) && end >= t.len(),
    decreases t.len() - i,
{
    let n = t.len() as int;
    lemma_first_char(t, i);
    lemma_expression_progress(x, i);
    assert(t[i] == x[i]);
    if char_at(t, i, ':') {
        lemma_longer_text(t, x, i + 1);
    } else if char_at(t, i, '*') {
        assert(t[i + 1] == x[i + 1]);
        lemma_longer_text(t, x, i + 2);
    } else if call_at(t, i) is Some {
        assert(agree(t, x, i, n, 0)) by {
            assert forall|k: int| i <= k < n implies #[trigger] t[k] == x[k + 0] by {}
        }
        lemma_call_local(t, x, i, 0);
    } else {
        lemma_run(t, i, CharClass::Symbol);
        lemma_run(x, i, CharClass::Symbol);
        lemma_run(x, i, CharClass::Name);
        lemma_run(t, i, CharClass::Name);
        lemma_primary_cases(t, i);
        if symbol_at(t, i) is Some {
            assert forall|k: int| i <= k < n implies CharClass::Symbol.has(#[trigger] x[k]) by {
                assert(t[k] == x[k]);
            }
            let run = run_end(x, i, CharClass::Symbol);
            if run < n {
                assert(CharClass::Symbol.has(x[run]));
            }
            if call_at(x, i) is Some {
                let open = run_end(x, i, CharClass::Name);
                if open < n {
                    assert(CharClass::Symbol.has(x[open]));
                }
                lemma_arguments_progress(x, open + 1);
            }
        } else {
            lemma_expression_progress(t, i + 1);
            let e = expression_at(t, i + 1).unwrap().1;
            assert(t[e] == x[e]);
            assert(agree(t, x, i + 1, e, 0)) by {
                assert forall|k: int| i + 1 <= k < e implies #[trigger] t[k] == x[k + 0] by {}
            }
            lemma_expression_local(t, x, i + 1, 0);
            assert(symbol_at(x, i) is None);
            assert(primary_at(x, i) is Some);
        }
    }
}

/// A text of which only a part at its start is an expression is refused with the
/// end, in bytes, of the longest such part.
pub proof fn incomplete_texts_are_refused(x: Seq<char>, m: int)
    requires
        !complete(x),
        0 <= m <= x.len(),
        complete(x.take(m)),
        forall|n: int| m < n <= x.len() ==> !complete(#[trigger] x.take(n)),
    ensures
        parsed(x) == Err::<ExpressionModel, _>(
            ParseErrorModel::SyntaxError(
                "Failed to parse revset \""@ + x + "\" past position "@ + decimal(
                    encode_utf8(x.take(m)).len(),
                ),
            ),
        ),
{
    the_longest_expression_is_read(x, m);
    let end = expression_at(x, 0).unwrap().1;
    if m < end {
        assert(complete(x.take(end)));
    }
}

/// The complaint about a text of which only a part is an expression holds the whole
/// text and where that part ends.
pub proof fn complaints_about_incomplete_texts(x: Seq<char>, position: nat)
    ensures
        incomplete(x, position) == ParseErrorModel::SyntaxError(
            "Failed to parse revset \""@ + x + "\" past position "@ + decimal(position),
        ),
{
}

/// What nodes inside an expression stand for, by the rule of the first; where the
/// grammar puts no such nodes, nothing.
pub proof fn expressions_are_read_by_rule(pairs: Seq<Node>)
    ensures
        pairs.len() == 0 ==> expression_of(pairs) is None && primary_of(pairs) is None,
        pairs.len() > 0 ==> {
            let inner = pairs[0].inner;
            let second = pairs[1].inner;
            &&& pairs[0].rule == Rule::Primary ==> expression_of(pairs) == primary_of(inner)
            &&& pairs[0].rule == Rule::Parents && pairs.len() > 1 ==> expression_of(pairs) == (
            match expression_of(second) {
                Some(Ok(base)) => Some(Ok(ExpressionModel::Parents(Box::new(base)))),
                other => other,
            })
            &&& pairs[0].rule == Rule::Ancestors && pairs.len() > 1 ==> expression_of(pairs) == (
            match expression_of(second) {
                Some(Ok(base)) => Some(Ok(ExpressionModel::Ancestors(Box::new(base)))),
                other => other,
            })
            &&& pairs[0].rule == Rule::FunctionName && pairs.len() > 1 ==> expression_of(pairs)
                == function_of(pairs[0].text, second)
            &&& pairs[0].rule != Rule::Primary && pairs.len() == 1 ==> expression_of(pairs) is None
            &&& pairs[0].rule != Rule::Primary && pairs[0].rule != Rule::Parents && pairs[0].rule
                != Rule::Ancestors && pairs[0].rule != Rule::FunctionName ==> expression_of(
                pairs,
            ) is None
            &&& pairs[0].rule == Rule::Symbol ==> primary_of(pairs) == Some(
                Ok::<_, ParseErrorModel>(ExpressionModel::Symbol(pairs[0].text)),
            )
            &&& pairs[0].rule == Rule::Expression ==> primary_of(pairs) == expression_of(inner)
            &&& pairs[0].rule != Rule::Symbol && pairs[0].rule != Rule::Expression ==> primary_of(
                pairs,
            ) is None
        },
{
}

/// What the nodes inside an argument stand for, as an expression and as a string;
/// where the grammar puts no such nodes, nothing.
pub proof fn arguments_are_read_by_rule(name: Seq<char>, pairs: Seq<Node>, text: Seq<char>)
    ensures
        pairs.len() != 1 ==> argument_expression_of(name, pairs) is None && argument_string_of(
            name,
            pairs,
        ) is None,
        pairs.len() == 1 ==> {
            let content = pairs[0];
            let is_expression = content.rule == Rule::Expression;
            let is_primary = is_expression && content.inner.len() > 0 && content.inner[0].rule
                == Rule::Primary;
            &&& is_expression ==> argument_expression_of(name, pairs) == expression_of(
                content.inner,
            )
            &&& !is_expression ==> argument_expression_of(name, pairs) == Some(
                Err::<ExpressionModel, _>(
                    ParseErrorModel::InvalidFunctionArguments {
                        name,
                        message: "Expected function argument of type expression, found: "@
                            + content.text,
                    },
                ),
            )
            &&& content.rule == Rule::LiteralString && content.text == seq!['"'] + text + seq!['"']
                ==> argument_string_of(name, pairs) == Some(Ok::<_, ParseErrorModel>(text))
            &&& is_primary && content.inner[0].inner.len() > 0 && content.inner[0].inner[0].rule
                == Rule::Symbol ==> argument_string_of(name, pairs) == Some(
                Ok::<_, ParseErrorModel>(content.inner[0].inner[0].text),
            )
            &&& (content.rule != Rule::LiteralString && !is_expression) || (is_expression
                && content.inner.len() > 0 && !is_primary) || (is_primary
                && content.inner[0].inner.len() > 0 && content.inner[0].inner[0].rule
                != Rule::Symbol) ==> argument_string_of(name, pairs) == Some(
                Err::<Seq<char>, _>(
                    ParseErrorModel::InvalidFunctionArguments {
                        name,
                        message: "Expected function argument of type string, found: "@
                            + content.text,
                    },
                ),
            )
        },
{
    let q = seq!['"'] + text + seq!['"'];
    assert(q.subrange(1, q.len() - 1) =~= text);
    assert(q[0] == '"' && q.last() == '"');
}

/// What a call stands for, by its name, in terms of what its arguments stand for as
/// expressions and as strings.
pub proof fn calls_are_read_by_name(name: Seq<char>, arguments: Seq<Node>)
    ensures
        ({
            let count = arguments.len();
            let first = argument_expression_of(name, arguments[0].inner);
            let needle = argument_string_of(name, arguments[0].inner);
            let second = argument_expression_of(name, arguments[1].inner);
            let meaning = function_of(name, arguments);
            &&& name == "parents"@ && count == 1 ==> (match first {
                Some(Ok(base)) => meaning == Some(
                    Ok::<_, ParseErrorModel>(ExpressionModel::Parents(Box::new(base))),
                ),
                other => meaning == other,
            })
            &&& name == "ancestors"@ && count == 1 ==> (match first {
                Some(Ok(base)) => meaning == Some(
                    Ok::<_, ParseErrorModel>(ExpressionModel::Ancestors(Box::new(base))),
                ),
                other => meaning == other,
            })
            &&& name == "all_heads"@ && count == 0 ==> meaning == Some(
                Ok::<_, ParseErrorModel>(ExpressionModel::AllHeads),
            )
            &&& name == "non_obsolete_heads"@ && count == 0 ==> meaning == Some(
                Ok::<_, ParseErrorModel>(
                    ExpressionModel::NonObsoleteHeads(Box::new(ExpressionModel::AllHeads)),
                ),
            )
            &&& name == "non_obsolete_heads"@ && count == 1 ==> (match first {
                Some(Ok(base)) => meaning == Some(
                    Ok::<_, ParseErrorModel>(ExpressionModel::NonObsoleteHeads(Box::new(base))),
                ),
                other => meaning == other,
            })
            &&& name == "description"@ && (count == 1 || count == 2) ==> (match needle {
                None => meaning is None,
                Some(Err(error)) => meaning == Some(Err::<ExpressionModel, _>(error)),
                Some(Ok(text)) => if count == 1 {
                    meaning == Some(
                        Ok::<_, ParseErrorModel>(
                            ExpressionModel::Description {
                                needle: text,
                                base_expression: Box::new(
                                    ExpressionModel::Ancestors(
                                        Box::new(
                                            ExpressionModel::NonObsoleteHeads(
                                                Box::new(ExpressionModel::AllHeads),
                                            ),
                                        ),
                                    ),
                                ),
                            },
                        ),
                    )
                } else {
                    match second {
                        Some(Ok(base)) => meaning == Some(
                            Ok::<_, ParseErrorModel>(
                                ExpressionModel::Description {
                                    needle: text,
                                    base_expression: Box::new(base),
                                },
                            ),
                        ),
                        other => meaning == other,
                    }
                },
            })
            &&& (name == "parents"@ || name == "ancestors"@) && count != 1 ==> meaning == Some(
                Err::<ExpressionModel, _>(
                    ParseErrorModel::InvalidFunctionArguments {
                        name,
                        message: "Expected 1 argument"@,
                    },
                ),
            )
            &&& name == "all_heads"@ && count != 0 ==> meaning == Some(
                Err::<ExpressionModel, _>(
                    ParseErrorModel::InvalidFunctionArguments {
                        name,
                        message: "Expected 0 arguments"@,
                    },
                ),
            )
            &&& name == "non_obsolete_heads"@ && count > 1 ==> meaning == Some(
                Err::<ExpressionModel, _>(
                    ParseErrorModel::InvalidFunctionArguments {
                        name,
                        message: "Expected 0 or 1 argument"@,
                    },
                ),
            )
            &&& name == "description"@ && count != 1 && count != 2 ==> meaning == Some(
                Err::<ExpressionModel, _>(
                    ParseErrorModel::InvalidFunctionArguments {
                        name,
                        message: "Expected 1 or 2 arguments"@,
                    },
                ),
            )
            &&& name != "parents"@ && name != "ancestors"@ && name != "all_heads"@ && name
                != "non_obsolete_heads"@ && name != "description"@ ==> meaning == Some(
                Err::<ExpressionModel, _>(ParseErrorModel::NoSuchFunction(name)),
            )
        }),
{
    lemma_names();
}

} // verus!
