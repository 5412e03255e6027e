//! Revset expressions, and how the text of a revset becomes one.
use crate::grammar::{
    argument_at, arguments_at, call_at, char_at, expression_at, lemma_expression_progress,
    lemma_inner_nodes, lemma_run, literal_string_at, more_arguments_at, nodes, primary_at, run_end,
    CharClass, Node, Pair, RevsetParser, Rule,
};
use crate::text::{append_decimal, byte_length, byte_offset, decimal, lemma_byte_offset, same_text};
use vstd::prelude::*;
use vstd::string::*;
use vstd::utf8::encode_utf8;

verus! {

/// Why a text is not a revset expression.
#[derive(Debug, PartialEq, Eq)]
pub enum RevsetParseError {
    SyntaxError(String),
    NoSuchFunction(String),
    InvalidFunctionArguments { name: String, message: String },
}

/// A revset expression.
#[derive(Debug, PartialEq, Eq)]
pub enum RevsetExpression {
    Symbol(String),
    Parents(Box<RevsetExpression>),
    Ancestors(Box<RevsetExpression>),
    AllHeads,
    NonObsoleteHeads(Box<RevsetExpression>),
    Description { needle: String, base_expression: Box<RevsetExpression> },
}

/// The mathematical value of a [`RevsetParseError`].
pub enum ParseErrorModel {
    SyntaxError(Seq<char>),
    NoSuchFunction(Seq<char>),
    InvalidFunctionArguments { name: Seq<char>, message: Seq<char> },
}

/// The mathematical value of a [`RevsetExpression`].
pub enum ExpressionModel {
    Symbol(Seq<char>),
    Parents(Box<ExpressionModel>),
    Ancestors(Box<ExpressionModel>),
    AllHeads,
    NonObsoleteHeads(Box<ExpressionModel>),
    Description { needle: Seq<char>, base_expression: Box<ExpressionModel> },
}

impl View for RevsetParseError {
    type V = ParseErrorModel;

    open spec fn view(&self) -> ParseErrorModel {
        match self {
            RevsetParseError::SyntaxError(message) => ParseErrorModel::SyntaxError(message@),
            RevsetParseError::NoSuchFunction(name) => ParseErrorModel::NoSuchFunction(name@),
            RevsetParseError::InvalidFunctionArguments { name, message } =>
                ParseErrorModel::InvalidFunctionArguments { name: name@, message: message@ },
        }
    }
}

impl View for RevsetExpression {
    type V = ExpressionModel;

    open spec fn view(&self) -> ExpressionModel {
        expression_model(*self)
    }
}

/// The value of an expression.
pub open spec fn expression_model(e: RevsetExpression) -> ExpressionModel
    decreases e,
{
    match e {
        RevsetExpression::Symbol(symbol) => ExpressionModel::Symbol(symbol@),
        RevsetExpression::Parents(base) => ExpressionModel::Parents(
            Box::new(expression_model(*base)),
        ),
        RevsetExpression::Ancestors(base) => ExpressionModel::Ancestors(
            Box::new(expression_model(*base)),
        ),
        RevsetExpression::AllHeads => ExpressionModel::AllHeads,
        RevsetExpression::NonObsoleteHeads(base) => ExpressionModel::NonObsoleteHeads(
            Box::new(expression_model(*base)),
        ),
        RevsetExpression::Description { needle, base_expression } => ExpressionModel::Description {
            needle: needle@,
            base_expression: Box::new(expression_model(*base_expression)),
        },
    }
}

impl ParseErrorModel {
    /// The error in words.
    pub open spec fn message(self) -> Seq<char> {
        match self {
            ParseErrorModel::SyntaxError(message) => message,
            ParseErrorModel::NoSuchFunction(name) => "Revset function \""@ + name
                + "\" doesn't exist"@,
            ParseErrorModel::InvalidFunctionArguments { name, message } =>
                "Invalid arguments to revset function \""@ + name + "\": "@ + message,
        }
    }
}

impl RevsetParseError {
    /// The error in words.
    pub fn message(&self) -> (r: String)
        ensures
            r@ == self@.message(),
    {
        match self {
            RevsetParseError::SyntaxError(message) => message.clone(),
            RevsetParseError::NoSuchFunction(name) => "Revset function \"".to_owned().concat(
                name,
            ).concat("\" doesn't exist"),
            RevsetParseError::InvalidFunctionArguments { name, message } =>
                "Invalid arguments to revset function \"".to_owned().concat(name).concat(
                "\": ",
            ).concat(message),
        }
    }
}

/// What a parse tree stands for, or why it stands for nothing.
pub type Meaning = Result<ExpressionModel, ParseErrorModel>;

/// The value of an outcome of parsing.
pub open spec fn meaning(r: Result<RevsetExpression, RevsetParseError>) -> Meaning {
    match r {
        Ok(expression) => Ok(expression@),
        Err(error) => Err(error@),
    }
}

/// The value of an outcome of reading a string argument.
pub open spec fn string_meaning(r: Result<String, RevsetParseError>) -> Result<
    Seq<char>,
    ParseErrorModel,
> {
    match r {
        Ok(text) => Ok(text@),
        Err(error) => Err(error@),
    }
}

/// `m` with its expression under the operator "parents".
pub open spec fn parents_of(m: Option<Meaning>) -> Option<Meaning> {
    match m {
        Some(Ok(base)) => Some(Ok(ExpressionModel::Parents(Box::new(base)))),
        _ => m,
    }
}

/// `m` with its expression under the operator "ancestors".
pub open spec fn ancestors_of(m: Option<Meaning>) -> Option<Meaning> {
    match m {
        Some(Ok(base)) => Some(Ok(ExpressionModel::Ancestors(Box::new(base)))),
        _ => m,
    }
}

/// `m` with its expression under the operator "non-obsolete heads".
pub open spec fn non_obsolete_heads_of(m: Option<Meaning>) -> Option<Meaning> {
    match m {
        Some(Ok(base)) => Some(Ok(ExpressionModel::NonObsoleteHeads(Box::new(base)))),
        _ => m,
    }
}

/// The complaint about a call of `name`.
pub open spec fn invalid_arguments(name: Seq<char>, message: Seq<char>) -> ParseErrorModel {
    ParseErrorModel::InvalidFunctionArguments { name, message }
}

/// The non-obsolete heads of all heads.
pub open spec fn default_heads() -> ExpressionModel {
    ExpressionModel::NonObsoleteHeads(Box::new(ExpressionModel::AllHeads))
}

/// What the nodes inside an `expression` node stand for; `None` where they are
/// not what the grammar puts there.
pub open spec fn expression_of(pairs: Seq<Node>) -> Option<Meaning>
    decreases pairs,
{
    if pairs.len() == 0 {
        None
    } else {
        match pairs[0].rule {
            Rule::Primary => primary_of(pairs[0].inner),
            Rule::Parents => if pairs.len() < 2 {
                None
            } else {
                parents_of(expression_of(pairs[1].inner))
            },
            Rule::Ancestors => if pairs.len() < 2 {
                None
            } else {
                ancestors_of(expression_of(pairs[1].inner))
            },
            Rule::FunctionName => if pairs.len() < 2 {
                None
            } else {
                function_of(pairs[0].text, pairs[1].inner)
            },
            _ => None,
        }
    }
}

/// What the nodes inside a `primary` node stand for.
pub open spec fn primary_of(pairs: Seq<Node>) -> Option<Meaning>
    decreases pairs,
{
    if pairs.len() == 0 {
        None
    } else {
        match pairs[0].rule {
            Rule::Symbol => Some(Ok(ExpressionModel::Symbol(pairs[0].text))),
            Rule::Expression => expression_of(pairs[0].inner),
            _ => None,
        }
    }
}

/// What a call of the function `name` with the given `function_argument` nodes
/// stands for.
pub open spec fn function_of(name: Seq<char>, arguments: Seq<Node>) -> Option<Meaning>
    decreases arguments,
{
    if name == "parents"@ {
        if arguments.len() == 1 {
            parents_of(argument_expression_of(name, arguments[0].inner))
        } else {
            Some(Err(invalid_arguments(name, "Expected 1 argument"@)))
        }
    } else if name == "ancestors"@ {
        if arguments.len() == 1 {
            ancestors_of(argument_expression_of(name, arguments[0].inner))
        } else {
            Some(Err(invalid_arguments(name, "Expected 1 argument"@)))
        }
    } else if name == "all_heads"@ {
        if arguments.len() == 0 {
            Some(Ok(ExpressionModel::AllHeads))
        } else {
            Some(Err(invalid_arguments(name, "Expected 0 arguments"@)))
        }
    } else if name == "non_obsolete_heads"@ {
        if arguments.len() == 0 {
            Some(Ok(default_heads()))
        } else if arguments.len() == 1 {
            non_obsolete_heads_of(argument_expression_of(name, arguments[0].inner))
        } else {
            Some(Err(invalid_arguments(name, "Expected 0 or 1 argument"@)))
        }
    } else if name == "description"@ {
        if arguments.len() == 1 || arguments.len() == 2 {
            match argument_string_of(name, arguments[0].inner) {
                None => None,
                Some(Err(error)) => Some(Err(error)),
                Some(Ok(needle)) => {
                    let base = if arguments.len() == 1 {
                        Some(Ok(ExpressionModel::Ancestors(Box::new(default_heads()))))
                    } else {
                        argument_expression_of(name, arguments[1].inner)
                    };
                    match base {
                        Some(Ok(base)) => Some(
                            Ok(
                                ExpressionModel::Description {
                                    needle,
                                    base_expression: Box::new(base),
                                },
                            ),
                        ),
                        _ => base,
                    }
                },
            }
        } else {
            Some(Err(invalid_arguments(name, "Expected 1 or 2 arguments"@)))
        }
    } else {
        Some(Err(ParseErrorModel::NoSuchFunction(name)))
    }
}

/// The expression that the nodes inside a `function_argument` node stand for.
pub open spec fn argument_expression_of(name: Seq<char>, pairs: Seq<Node>) -> Option<Meaning>
    decreases pairs,
{
    if pairs.len() != 1 {
        None
    } else if pairs[0].rule == Rule::Expression {
        expression_of(pairs[0].inner)
    } else {
        Some(
            Err(
                invalid_arguments(
                    name,
                    "Expected function argument of type expression, found: "@ + pairs[0].text,
                ),
            ),
        )
    }
}

/// Whether `text` is quoted.
pub open spec fn is_quoted(text: Seq<char>) -> bool {
    text.len() >= 2 && text[0] == '"' && text.last() == '"'
}

/// Whether the nodes inside an `expression` node are just a symbol.
pub open spec fn is_symbol(pairs: Seq<Node>) -> bool {
    &&& pairs.len() > 0
    &&& pairs[0].rule == Rule::Primary
    &&& pairs[0].inner.len() > 0
    &&& pairs[0].inner[0].rule == Rule::Symbol
}

/// The string that the nodes inside a `function_argument` node stand for: the
/// text between the quotes of a literal, or the text of a lone symbol.
pub open spec fn argument_string_of(name: Seq<char>, pairs: Seq<Node>) -> Option<
    Result<Seq<char>, ParseErrorModel>,
> {
    if pairs.len() != 1 {
        None
    } else if pairs[0].rule == Rule::LiteralString {
        if is_quoted(pairs[0].text) {
            Some(Ok(pairs[0].text.subrange(1, pairs[0].text.len() - 1)))
        } else {
            None
        }
    } else if pairs[0].rule == Rule::Expression && (pairs[0].inner.len() == 0 || (
    pairs[0].inner[0].rule == Rule::Primary && pairs[0].inner[0].inner.len() == 0)) {
        None
    } else if pairs[0].rule == Rule::Expression && is_symbol(pairs[0].inner) {
        Some(Ok(pairs[0].inner[0].inner[0].text))
    } else {
        Some(
            Err(
                invalid_arguments(
                    name,
                    "Expected function argument of type string, found: "@ + pairs[0].text,
                ),
            ),
        )
    }
}

fn complain(name: String, message: &str) -> (r: RevsetParseError)
    ensures
        r@ == invalid_arguments(name@, message@),
{
    RevsetParseError::InvalidFunctionArguments { name, message: message.to_owned() }
}

/// Reads the nodes inside an `expression` node.
pub fn parse_expression_rule(pairs: &Vec<Pair>) -> (r: Result<RevsetExpression, RevsetParseError>)
    requires
        expression_of(nodes(pairs@)) is Some,
    ensures
        Some(meaning(r)) == expression_of(nodes(pairs@)),
    decreases nodes(pairs@),
{
    broadcast use lemma_inner_nodes;

    let ghost n = nodes(pairs@);
    let first = &pairs[0];
    assert(first@ == n[0]);
    match first.rule {
        Rule::Primary => parse_primary_rule(&first.inner),
        Rule::Parents => {
            let expression = &pairs[1];
            assert(expression@ == n[1]);
            match parse_expression_rule(&expression.inner) {
                Ok(base) => Ok(RevsetExpression::Parents(Box::new(base))),
                Err(error) => Err(error),
            }
        },
        Rule::Ancestors => {
            let expression = &pairs[1];
            assert(expression@ == n[1]);
            match parse_expression_rule(&expression.inner) {
                Ok(base) => Ok(RevsetExpression::Ancestors(Box::new(base))),
                Err(error) => Err(error),
            }
        },
        _ => {
            let arguments = &pairs[1];
            assert(arguments@ == n[1]);
            parse_function_expression(first.text.clone(), &arguments.inner)
        },
    }
}

/// Reads the nodes inside a `primary` node.
pub fn parse_primary_rule(pairs: &Vec<Pair>) -> (r: Result<RevsetExpression, RevsetParseError>)
    requires
        primary_of(nodes(pairs@)) is Some,
    ensures
        Some(meaning(r)) == primary_of(nodes(pairs@)),
    decreases nodes(pairs@),
{
    broadcast use lemma_inner_nodes;

    let first = &pairs[0];
    assert(first@ == nodes(pairs@)[0]);
    match first.rule {
        Rule::Symbol => Ok(RevsetExpression::Symbol(first.text.clone())),
        _ => parse_expression_rule(&first.inner),
    }
}

/// Reads a call of the function `name`.
pub fn parse_function_expression(name: String, arguments: &Vec<Pair>) -> (r: Result<
    RevsetExpression,
    RevsetParseError,
>)
    requires
        function_of(name@, nodes(arguments@)) is Some,
    ensures
        Some(meaning(r)) == function_of(name@, nodes(arguments@)),
    decreases nodes(arguments@),
{
    broadcast use lemma_inner_nodes;

    proof {
        reveal_with_fuel(expression_model, 4);
    }
    let ghost n = nodes(arguments@);
    let arg_count = arguments.len();
    assert(forall|i: int| 0 <= i < arguments@.len() ==> #[trigger] n[i] == arguments@[i]@);
    if same_text(&name, "parents") {
        if arg_count == 1 {
            match parse_function_argument_to_expression(&name, &arguments[0].inner) {
                Ok(base) => Ok(RevsetExpression::Parents(Box::new(base))),
                Err(error) => Err(error),
            }
        } else {
            Err(complain(name, "Expected 1 argument"))
        }
    } else if same_text(&name, "ancestors") {
        if arg_count == 1 {
            match parse_function_argument_to_expression(&name, &arguments[0].inner) {
                Ok(base) => Ok(RevsetExpression::Ancestors(Box::new(base))),
                Err(error) => Err(error),
            }
        } else {
            Err(complain(name, "Expected 1 argument"))
        }
    } else if same_text(&name, "all_heads") {
        if arg_count == 0 {
            Ok(RevsetExpression::AllHeads)
        } else {
            Err(complain(name, "Expected 0 arguments"))
        }
    } else if same_text(&name, "non_obsolete_heads") {
        if arg_count == 0 {
            Ok(RevsetExpression::NonObsoleteHeads(Box::new(RevsetExpression::AllHeads)))
        } else if arg_count == 1 {
            match parse_function_argument_to_expression(&name, &arguments[0].inner) {
                Ok(base) => Ok(RevsetExpression::NonObsoleteHeads(Box::new(base))),
                Err(error) => Err(error),
            }
        } else {
            Err(complain(name, "Expected 0 or 1 argument"))
        }
    } else if same_text(&name, "description") {
        if !(arg_count == 1 || arg_count == 2) {
            return Err(complain(name, "Expected 1 or 2 arguments"));
        }
        let needle = match parse_function_argument_to_string(&name, &arguments[0].inner) {
            Ok(needle) => needle,
            Err(error) => {
                return Err(error);
            },
        };
        let base_expression = if arg_count == 1 {
            RevsetExpression::Ancestors(
                Box::new(
                    RevsetExpression::NonObsoleteHeads(Box::new(RevsetExpression::AllHeads)),
                ),
            )
        } else {
            match parse_function_argument_to_expression(&name, &arguments[1].inner) {
                Ok(base) => base,
                Err(error) => {
                    return Err(error);
                },
            }
        };
        Ok(RevsetExpression::Description { needle, base_expression: Box::new(base_expression) })
    } else {
        Err(RevsetParseError::NoSuchFunction(name))
    }
}

/// Reads an argument of the function `name` as an expression.
pub fn parse_function_argument_to_expression(name: &str, pairs: &Vec<Pair>) -> (r: Result<
    RevsetExpression,
    RevsetParseError,
>)
    requires
        argument_expression_of(name@, nodes(pairs@)) is Some,
    ensures
        Some(meaning(r)) == argument_expression_of(name@, nodes(pairs@)),
    decreases nodes(pairs@),
{
    broadcast use lemma_inner_nodes;

    let first = &pairs[0];
    assert(first@ == nodes(pairs@)[0]);
    match first.rule {
        Rule::Expression => parse_expression_rule(&first.inner),
        _ => {
            let mut message = "Expected function argument of type expression, found: ".to_owned();
            message.append(&first.text);
            Err(RevsetParseError::InvalidFunctionArguments { name: name.to_owned(), message })
        },
    }
}

/// Reads an argument of the function `name` as a string.
pub fn parse_function_argument_to_string(name: &str, pairs: &Vec<Pair>) -> (r: Result<
    String,
    RevsetParseError,
>)
    requires
        argument_string_of(name@, nodes(pairs@)) is Some,
    ensures
        Some(string_meaning(r)) == argument_string_of(name@, nodes(pairs@)),
{
    broadcast use lemma_inner_nodes;

    let first = &pairs[0];
    assert(first@ == nodes(pairs@)[0]);
    match first.rule {
        Rule::LiteralString => {
            let length = first.text.as_str().unicode_len();
            return Ok(first.text.as_str().substring_char(1, length - 1).to_owned());
        },
        Rule::Expression => {
            let inner = &first.inner[0];
            assert(inner@ == first@.inner[0]);
            if inner.rule == Rule::Primary {
                let symbol = &inner.inner[0];
                assert(symbol@ == inner@.inner[0]);
                if symbol.rule == Rule::Symbol {
                    return Ok(symbol.text.clone());
                }
            }
        },
        _ => {},
    }
    let mut message = "Expected function argument of type string, found: ".to_owned();
    message.append(&first.text);
    Err(RevsetParseError::InvalidFunctionArguments { name: name.to_owned(), message })
}

/// The complaint about a text of which only the first `position` bytes are an
/// expression.
pub open spec fn incomplete(revset_str: Seq<char>, position: nat) -> ParseErrorModel {
    ParseErrorModel::SyntaxError(
        "Failed to parse revset \""@ + revset_str + "\" past position "@ + decimal(position),
    )
}

/// Reads the `expression` node `first` that matched the first `end` bytes of
/// `revset_str`.
pub fn parse_first_pair(revset_str: &str, first: &Pair, end: usize) -> (r: Result<
    RevsetExpression,
    RevsetParseError,
>)
    requires
        end == encode_utf8(revset_str@).len() ==> expression_of(first@.inner) is Some,
    ensures
        end != encode_utf8(revset_str@).len() ==> meaning(r) == Err::<ExpressionModel, _>(
            incomplete(revset_str@, end as nat),
        ),
        end == encode_utf8(revset_str@).len() ==> Some(meaning(r)) == expression_of(first@.inner),
{
    broadcast use lemma_inner_nodes;

    if end != byte_length(revset_str) {
        let mut message = "Failed to parse revset \"".to_owned();
        message.append(revset_str);
        message.append("\" past position ");
        append_decimal(&mut message, end);
        return Err(RevsetParseError::SyntaxError(message));
    }
    parse_expression_rule(&first.inner)
}

/// What a text that starts with an expression stands for: that expression, if
/// it is the whole text.
pub open spec fn parsed(revset_str: Seq<char>) -> Meaning
    recommends
        expression_at(revset_str, 0) is Some,
{
    let (first, end) = expression_at(revset_str, 0)->0;
    if end != revset_str.len() {
        Err(incomplete(revset_str, byte_offset(revset_str, end)))
    } else {
        expression_of(first.inner)->0
    }
}

/// Parses a revset.
pub fn parse(revset_str: &str) -> (r: Result<RevsetExpression, RevsetParseError>)
    requires
        expression_at(revset_str@, 0) is Some,
    ensures
        meaning(r) == parsed(revset_str@),
{
    let parsed_prefix = RevsetParser::parse(revset_str);
    let (first, end) = parsed_prefix.unwrap();
    proof {
        let stop = expression_at(revset_str@, 0).unwrap().1;
        lemma_expression_progress(revset_str@, 0);
        lemma_byte_offset(revset_str@, stop);
        lemma_expression_readable(revset_str@, 0);
    }
    parse_first_pair(revset_str, &first, end)
}

/// The trees of the grammar are what [`parse_expression_rule`] reads.
pub proof fn lemma_expression_readable(s: Seq<char>, i: int)
    requires
        0 <= i <= s.len(),
    ensures
        expression_at(s, i) matches Some((node, _)) ==> {
            &&& node.rule == Rule::Expression
            &&& expression_of(node.inner) is Some
        },
    decreases s.len() - i, 1int,
{
    reveal_with_fuel(expression_at, 2);
    reveal_with_fuel(primary_at, 2);
    reveal_with_fuel(call_at, 2);
    reveal_with_fuel(expression_of, 2);
    lemma_run(s, i, CharClass::Name);
    if i < s.len() {
        lemma_expression_readable(s, i + 1);
    }
    if i + 1 < s.len() {
        lemma_expression_readable(s, i + 2);
    }
    let open = run_end(s, i, CharClass::Name);
    if call_at(s, i) is Some {
        let name = s.subrange(i, open);
        let arguments = arguments_at(s, open + 1).0;
        lemma_arguments_readable(name, s, open + 1);
        if arguments.len() > 0 {
            assert(readable_argument(name, arguments[0]));
        }
        if arguments.len() > 1 {
            assert(readable_argument(name, arguments[1]));
        }
        assert(function_of(name, arguments) is Some);
    }
}

/// Whether a node is a `function_argument` that can be read as a string and as
/// an expression.
pub open spec fn readable_argument(name: Seq<char>, argument: Node) -> bool {
    &&& argument_expression_of(name, argument.inner) is Some
    &&& argument_string_of(name, argument.inner) is Some
}

proof fn lemma_argument_readable(name: Seq<char>, s: Seq<char>, i: int)
    requires
        0 <= i <= s.len(),
    ensures
        argument_at(s, i) matches Some((node, _)) ==> readable_argument(name, node),
    decreases s.len() - i, 2int,
{
    lemma_expression_readable(s, i);
    if let Some((literal, _)) = literal_string_at(s, i) {
        lemma_run(s, i + 1, CharClass::Quoted);
        assert(is_quoted(literal.text));
    } else if let Some((content, _)) = expression_at(s, i) {
        assert(expression_of(content.inner) is Some);
    }
}

proof fn lemma_arguments_readable(name: Seq<char>, s: Seq<char>, i: int)
    requires
        0 <= i <= s.len(),
    ensures
        forall|k: int|
            0 <= k < arguments_at(s, i).0.len() ==> readable_argument(
                name,
                #[trigger] arguments_at(s, i).0[k],
            ),
        forall|k: int|
            0 <= k < more_arguments_at(s, i).0.len() ==> readable_argument(
                name,
                #[trigger] more_arguments_at(s, i).0[k],
            ),
    decreases s.len() - i, 3int,
{
    lemma_argument_readable(name, s, i);
    if let Some((argument, end)) = argument_at(s, i) {
        if i < end <= s.len() {
            lemma_arguments_readable(name, s, end);
            let rest = more_arguments_at(s, end).0;
            assert(arguments_at(s, i).0 == seq![argument] + rest);
            assert forall|k: int| 0 <= k < arguments_at(s, i).0.len() implies readable_argument(
                name,
                #[trigger] arguments_at(s, i).0[k],
            ) by {
                if k > 0 {
                    assert(arguments_at(s, i).0[k] == rest[k - 1]);
                }
            }
        }
    }
    if char_at(s, i, ',') {
        lemma_argument_readable(name, s, i + 1);
        if let Some((argument, end)) = argument_at(s, i + 1) {
            if i < end <= s.len() {
                lemma_arguments_readable(name, s, end);
                let rest = more_arguments_at(s, end).0;
                assert(more_arguments_at(s, i).0 == seq![argument] + rest);
                assert forall|k: int| 0 <= k < more_arguments_at(s, i).0.len() implies readable_argument(
                    name,
                    #[trigger] more_arguments_at(s, i).0[k],
                ) by {
                    if k > 0 {
                        assert(more_arguments_at(s, i).0[k] == rest[k - 1]);
                    }
                }
            }
        }
    }
}

} // verus!
