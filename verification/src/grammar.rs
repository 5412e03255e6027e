//! The grammar of the revset language, as a parsing expression grammar.
//!
//! ```text
//! symbol             = (ASCII_ALPHANUMERIC | "@" | "_" | "-" | "." | "/")+
//! literal_string     = "\"" (!"\"" ANY)* "\""
//! parents            = ":"
//! ancestors          = "*:"
//! primary            = symbol | "(" expression ")"
//! function_name      = (ASCII_ALPHANUMERIC | "_")+
//! function_argument  = literal_string | expression
//! function_arguments = function_argument ("," function_argument)* | ""
//! expression         = parents expression
//!                    | ancestors expression
//!                    | function_name "(" function_arguments ")"
//!                    | primary
//! ```
//!
//! Alternatives are tried in the order in which they are written and the first
//! that matches is taken; repetitions take as much as they can. No whitespace
//! is skipped.
use crate::text::{byte_length, byte_offset, characters};
use vstd::prelude::*;
use vstd::string::*;

verus! {

/// The rules of the grammar.
#[derive(Clone, Copy, Debug, PartialEq, Eq, Structural)]
pub enum Rule {
    Symbol,
    LiteralString,
    Parents,
    Ancestors,
    Primary,
    FunctionName,
    FunctionArgument,
    FunctionArguments,
    Expression,
}

/// A node of a parse tree: the rule that matched, the text that it matched,
/// and the nodes of the rules that matched inside it.
#[derive(Debug)]
pub struct Pair {
    pub rule: Rule,
    pub text: String,
    pub inner: Vec<Pair>,
}

/// The mathematical value of a [`Pair`].
pub struct Node {
    pub rule: Rule,
    pub text: Seq<char>,
    pub inner: Seq<Node>,
}

impl View for Pair {
    type V = Node;

    open spec fn view(&self) -> Node {
        pair_node(*self)
    }
}

/// The value of a pair.
pub open spec fn pair_node(pair: Pair) -> Node
    decreases pair,
{
    Node {
        rule: pair.rule,
        text: pair.text@,
        inner: Seq::new(
            pair.inner@.len(),
            |i: int|
                if 0 <= i < pair.inner@.len() {
                    pair_node(pair.inner@[i])
                } else {
                    arbitrary()
                },
        ),
    }
}

/// The values of a sequence of nodes.
pub open spec fn nodes(pairs: Seq<Pair>) -> Seq<Node> {
    Seq::new(pairs.len(), |i: int| pairs[i]@)
}

/// The nodes inside a pair are those of its value.
pub broadcast proof fn lemma_inner_nodes(pair: Pair)
    ensures
        #[trigger] pair@.inner == nodes(pair.inner@),
{
    reveal_with_fuel(pair_node, 2);
    assert(pair@.inner =~= nodes(pair.inner@));
}

/// Classes of characters that the grammar repeats.
#[derive(Clone, Copy, PartialEq, Eq, Structural)]
pub enum CharClass {
    /// The characters of a symbol.
    Symbol,
    /// The characters of a function name.
    Name,
    /// The characters inside a quoted string.
    Quoted,
}

/// ASCII letters and digits.
pub open spec fn is_alphanumeric(c: char) -> bool {
    ||| 'a' <= c <= 'z'
    ||| 'A' <= c <= 'Z'
    ||| '0' <= c <= '9'
}

impl CharClass {
    /// Whether `c` belongs to the class.
    pub open spec fn has(self, c: char) -> bool {
        match self {
            CharClass::Symbol => is_alphanumeric(c) || c == '@' || c == '_' || c == '-' || c == '.'
                || c == '/',
            CharClass::Name => is_alphanumeric(c) || c == '_',
            CharClass::Quoted => c != '"',
        }
    }

    fn test(self, c: char) -> (r: bool)
        ensures
            r == self.has(c),
    {
        let alphanumeric = ('a' <= c && c <= 'z') || ('A' <= c && c <= 'Z') || ('0' <= c && c
            <= '9');
        match self {
            CharClass::Symbol => alphanumeric || c == '@' || c == '_' || c == '-' || c == '.' || c
                == '/',
            CharClass::Name => alphanumeric || c == '_',
            CharClass::Quoted => c != '"',
        }
    }
}

/// Where the longest run of characters of `class` that starts at `i` ends.
pub open spec fn run_end(s: Seq<char>, i: int, class: CharClass) -> int
    decreases s.len() - i,
{
    if 0 <= i < s.len() && class.has(s[i]) {
        run_end(s, i + 1, class)
    } else {
        i
    }
}

/// The node of `rule` over the characters `i..end` of `s`.
pub open spec fn node(
    rule: Rule,
    s: Seq<char>,
    i: int,
    end: int,
    inner: Seq<Node>,
) -> Node {
    Node { rule, text: s.subrange(i, end), inner }
}

/// Whether the character at `i` is `c`.
pub open spec fn char_at(s: Seq<char>, i: int, c: char) -> bool {
    0 <= i < s.len() && s[i] == c
}

/// A match of `symbol` at `i`: its node and where it ends.
pub open spec fn symbol_at(s: Seq<char>, i: int) -> Option<(Node, int)> {
    let end = run_end(s, i, CharClass::Symbol);
    if end > i {
        Some((node(Rule::Symbol, s, i, end, seq![]), end))
    } else {
        None
    }
}

/// A match of `literal_string` at `i`.
pub open spec fn literal_string_at(s: Seq<char>, i: int) -> Option<(Node, int)> {
    let close = run_end(s, i + 1, CharClass::Quoted);
    if char_at(s, i, '"') && char_at(s, close, '"') {
        Some((node(Rule::LiteralString, s, i, close + 1, seq![]), close + 1))
    } else {
        None
    }
}

/// A match of `primary` at `i`.
pub open spec fn primary_at(s: Seq<char>, i: int) -> Option<(Node, int)>
    decreases s.len() - i, 0int,
{
    if let Some((symbol, end)) = symbol_at(s, i) {
        Some((node(Rule::Primary, s, i, end, seq![symbol]), end))
    } else if char_at(s, i, '(') {
        match expression_at(s, i + 1) {
            Some((expression, end)) if char_at(s, end, ')') => Some(
                (node(Rule::Primary, s, i, end + 1, seq![expression]), end + 1),
            ),
            _ => None,
        }
    } else {
        None
    }
}

/// A match of `function_name "(" function_arguments ")"` at `i`, as a node of
/// `expression`.
pub open spec fn call_at(s: Seq<char>, i: int) -> Option<(Node, int)>
    decreases s.len() - i, 0int,
{
    let open = run_end(s, i, CharClass::Name);
    if 0 <= i < open && char_at(s, open, '(') {
        let (arguments, end) = arguments_at(s, open + 1);
        if char_at(s, end, ')') {
            let name = node(Rule::FunctionName, s, i, open, seq![]);
            let list = node(Rule::FunctionArguments, s, open + 1, end, arguments);
            Some((node(Rule::Expression, s, i, end + 1, seq![name, list]), end + 1))
        } else {
            None
        }
    } else {
        None
    }
}

/// A match of `function_argument` at `i`.
pub open spec fn argument_at(s: Seq<char>, i: int) -> Option<(Node, int)>
    decreases s.len() - i, 2int,
{
    let content = if literal_string_at(s, i) is Some {
        literal_string_at(s, i)
    } else {
        expression_at(s, i)
    };
    match content {
        Some((content, end)) => Some((node(Rule::FunctionArgument, s, i, end, seq![content]), end)),
        None => None,
    }
}

/// The match of `function_arguments` at `i`: the arguments and where they end.
pub open spec fn arguments_at(s: Seq<char>, i: int) -> (Seq<Node>, int)
    decreases s.len() - i, 3int,
{
    match argument_at(s, i) {
        Some((argument, end)) if i < end <= s.len() => {
            let (rest, last) = more_arguments_at(s, end);
            (seq![argument] + rest, last)
        },
        _ => (seq![], i),
    }
}

/// The match of `("," function_argument)*` at `i`.
pub open spec fn more_arguments_at(s: Seq<char>, i: int) -> (Seq<Node>, int)
    decreases s.len() - i, 3int,
{
    if char_at(s, i, ',') {
        match argument_at(s, i + 1) {
            Some((argument, end)) if i < end <= s.len() => {
                let (rest, last) = more_arguments_at(s, end);
                (seq![argument] + rest, last)
            },
            _ => (seq![], i),
        }
    } else {
        (seq![], i)
    }
}

/// A match of `expression` at `i`.
pub open spec fn expression_at(s: Seq<char>, i: int) -> Option<(Node, int)>
    decreases s.len() - i, 1int,
{
    if char_at(s, i, ':') && expression_at(s, i + 1) is Some {
        let (base, end) = expression_at(s, i + 1)->0;
        let operator = node(Rule::Parents, s, i, i + 1, seq![]);
        Some((node(Rule::Expression, s, i, end, seq![operator, base]), end))
    } else if char_at(s, i, '*') && char_at(s, i + 1, ':') && expression_at(s, i + 2) is Some {
        let (base, end) = expression_at(s, i + 2)->0;
        let operator = node(Rule::Ancestors, s, i, i + 2, seq![]);
        Some((node(Rule::Expression, s, i, end, seq![operator, base]), end))
    } else if call_at(s, i) is Some {
        call_at(s, i)
    } else {
        match primary_at(s, i) {
            Some((primary, end)) => Some((node(Rule::Expression, s, i, end, seq![primary]), end)),
            None => None,
        }
    }
}

/// A run of characters ends after its start and within the text, and every
/// character in it is of its class, while the one after it is not.
pub proof fn lemma_run(s: Seq<char>, i: int, class: CharClass)
    requires
        0 <= i <= s.len(),
    ensures
        i <= run_end(s, i, class) <= s.len(),
        forall|k: int| i <= k < run_end(s, i, class) ==> class.has(#[trigger] s[k]),
        run_end(s, i, class) < s.len() ==> !class.has(s[run_end(s, i, class)]),
    decreases s.len() - i,
{
    if i < s.len() && class.has(s[i]) {
        lemma_run(s, i + 1, class);
    }
}

/// A match of `expression` takes at least one character and ends within the text.
pub proof fn lemma_expression_progress(s: Seq<char>, i: int)
    requires
        0 <= i <= s.len(),
    ensures
        expression_at(s, i) matches Some((_, end)) ==> i < end <= s.len(),
    decreases s.len() - i, 1int,
{
    reveal_with_fuel(expression_at, 2);
    reveal_with_fuel(primary_at, 2);
    reveal_with_fuel(call_at, 2);
    lemma_run(s, i, CharClass::Name);
    lemma_run(s, i, CharClass::Symbol);
    if i < s.len() {
        lemma_expression_progress(s, i + 1);
    }
    if i + 1 < s.len() {
        lemma_expression_progress(s, i + 2);
    }
    let open = run_end(s, i, CharClass::Name);
    if i < open < s.len() {
        lemma_arguments_progress(s, open + 1);
    }
}

/// A match of `function_argument` takes at least one character and ends within
/// the text.
pub proof fn lemma_argument_progress(s: Seq<char>, i: int)
    requires
        0 <= i <= s.len(),
    ensures
        argument_at(s, i) matches Some((_, end)) ==> i < end <= s.len(),
    decreases s.len() - i, 2int,
{
    if i < s.len() {
        lemma_run(s, i + 1, CharClass::Quoted);
    }
    lemma_expression_progress(s, i);
}

/// The match of `function_arguments` ends within the text.
pub proof fn lemma_arguments_progress(s: Seq<char>, i: int)
    requires
        0 <= i <= s.len(),
    ensures
        i <= arguments_at(s, i).1 <= s.len(),
        i <= more_arguments_at(s, i).1 <= s.len(),
    decreases s.len() - i, 3int,
{
    lemma_argument_progress(s, i);
    if let Some((_, end)) = argument_at(s, i) {
        lemma_arguments_progress(s, end);
    }
    if i < s.len() {
        lemma_argument_progress(s, i + 1);
        if let Some((_, end)) = argument_at(s, i + 1) {
            lemma_arguments_progress(s, end);
        }
    }
}

/// A text under parse, with its characters.
struct Scanner<'a> {
    input: &'a str,
    chars: Vec<char>,
}

impl<'a> Scanner<'a> {
    spec fn wf(&self) -> bool {
        self.chars@ == self.input@
    }

    spec fn s(&self) -> Seq<char> {
        self.input@
    }

    fn has_char(&self, i: usize, c: char) -> (r: bool)
        requires
            self.wf(),
        ensures
            r == char_at(self.s(), i as int, c),
            r ==> i < self.s().len() <= usize::MAX,
    {
        i < self.chars.len() && self.chars[i] == c
    }

    fn run(&self, i: usize, class: CharClass) -> (end: usize)
        requires
            self.wf(),
            i <= self.s().len(),
        ensures
            end == run_end(self.s(), i as int, class),
            i <= end <= self.s().len(),
    {
        let mut end = i;
        while end < self.chars.len() && class.test(self.chars[end])
            invariant
                self.wf(),
                i <= end <= self.s().len(),
                run_end(self.s(), i as int, class) == run_end(self.s(), end as int, class),
            decreases self.s().len() - end,
        {
            end += 1;
        }
        end
    }

    fn pair(&self, rule: Rule, i: usize, end: usize, inner: Vec<Pair>) -> (r: Pair)
        requires
            self.wf(),
            i <= end <= self.s().len(),
        ensures
            r@ == node(rule, self.s(), i as int, end as int, nodes(inner@)),
    {
        let r = Pair { rule, text: self.input.substring_char(i, end).to_owned(), inner };
        proof {
            lemma_inner_nodes(r);
        }
        r
    }

    fn symbol(&self, i: usize) -> (r: Option<(Pair, usize)>)
        requires
            self.wf(),
            i <= self.s().len(),
        ensures
            matched(r, symbol_at(self.s(), i as int)),
    {
        let end = self.run(i, CharClass::Symbol);
        if end > i {
            let leaf = self.pair(Rule::Symbol, i, end, Vec::new());
            assert(nodes(Seq::<Pair>::empty()) =~= seq![]);
            Some((leaf, end))
        } else {
            None
        }
    }

    fn literal_string(&self, i: usize) -> (r: Option<(Pair, usize)>)
        requires
            self.wf(),
            i <= self.s().len(),
        ensures
            matched(r, literal_string_at(self.s(), i as int)),
    {
        if self.has_char(i, '"') {
            let close = self.run(i + 1, CharClass::Quoted);
            if self.has_char(close, '"') {
                let leaf = self.pair(Rule::LiteralString, i, close + 1, Vec::new());
                assert(nodes(Seq::<Pair>::empty()) =~= seq![]);
                return Some((leaf, close + 1));
            }
        }
        None
    }

    fn primary(&self, i: usize) -> (r: Option<(Pair, usize)>)
        requires
            self.wf(),
            i <= self.s().len(),
        ensures
            matched(r, primary_at(self.s(), i as int)),
        decreases self.s().len() - i, 0int,
    {
        if let Some((symbol, end)) = self.symbol(i) {
            proof {
                lemma_run(self.s(), i as int, CharClass::Symbol);
            }
            let inner = vec![symbol];
            assert(nodes(inner@) =~= seq![symbol@]);
            return Some((self.pair(Rule::Primary, i, end, inner), end));
        }
        if self.has_char(i, '(') {
            if let Some((expression, end)) = self.expression(i + 1) {
                if self.has_char(end, ')') {
                    let inner = vec![expression];
                    assert(nodes(inner@) =~= seq![expression@]);
                    return Some((self.pair(Rule::Primary, i, end + 1, inner), end + 1));
                }
            }
        }
        None
    }

    fn call(&self, i: usize) -> (r: Option<(Pair, usize)>)
        requires
            self.wf(),
            i <= self.s().len(),
        ensures
            matched(r, call_at(self.s(), i as int)),
        decreases self.s().len() - i, 0int,
    {
        let open = self.run(i, CharClass::Name);
        if i < open && self.has_char(open, '(') {
            let (arguments, end) = self.arguments(open + 1);
            if self.has_char(end, ')') {
                let name = self.pair(Rule::FunctionName, i, open, Vec::new());
                assert(nodes(Seq::<Pair>::empty()) =~= seq![]);
                let list = self.pair(Rule::FunctionArguments, open + 1, end, arguments);
                let inner = vec![name, list];
                assert(nodes(inner@) =~= seq![name@, list@]);
                return Some((self.pair(Rule::Expression, i, end + 1, inner), end + 1));
            }
        }
        None
    }

    fn argument(&self, i: usize) -> (r: Option<(Pair, usize)>)
        requires
            self.wf(),
            i <= self.s().len(),
        ensures
            matched(r, argument_at(self.s(), i as int)),
            r matches Some((_, end)) ==> i < end <= self.s().len(),
        decreases self.s().len() - i, 2int,
    {
        proof {
            lemma_argument_progress(self.s(), i as int);
        }
        let literal = self.literal_string(i);
        let content = if literal.is_some() {
            literal
        } else {
            self.expression(i)
        };
        match content {
            Some((content, end)) => {
                let inner = vec![content];
                assert(nodes(inner@) =~= seq![content@]);
                Some((self.pair(Rule::FunctionArgument, i, end, inner), end))
            },
            None => None,
        }
    }

    fn arguments(&self, i: usize) -> (r: (Vec<Pair>, usize))
        requires
            self.wf(),
            i <= self.s().len(),
        ensures
            arguments_at(self.s(), i as int) == (nodes(r.0@), r.1 as int),
            i <= r.1 <= self.s().len(),
        decreases self.s().len() - i, 3int,
    {
        let mut arguments: Vec<Pair> = Vec::new();
        assert(nodes(arguments@) =~= seq![]);
        let mut end: usize = i;
        match self.argument(i) {
            Some((argument, after)) => {
                arguments.push(argument);
                assert(nodes(arguments@) =~= seq![argument@]);
                end = after;
            },
            None => {
                return (arguments, end);
            },
        }
        assert(nodes(arguments@) + more_arguments_at(self.s(), end as int).0 =~= arguments_at(
            self.s(),
            i as int,
        ).0);
        while self.has_char(end, ',')
            invariant
                self.wf(),
                i < end <= self.s().len(),
                arguments_at(self.s(), i as int) == (
                    nodes(arguments@) + more_arguments_at(self.s(), end as int).0,
                    more_arguments_at(self.s(), end as int).1,
                ),
            decreases self.s().len() - end,
        {
            match self.argument(end + 1) {
                Some((argument, after)) => {
                    let ghost before = nodes(arguments@);
                    arguments.push(argument);
                    assert(nodes(arguments@) =~= before.push(argument@));
                    assert(nodes(arguments@) + more_arguments_at(self.s(), after as int).0
                        =~= before + more_arguments_at(self.s(), end as int).0);
                    end = after;
                },
                None => {
                    assert(nodes(arguments@) + seq![] =~= nodes(arguments@));
                    return (arguments, end);
                },
            }
        }
        assert(nodes(arguments@) + seq![] =~= nodes(arguments@));
        (arguments, end)
    }

    fn expression(&self, i: usize) -> (r: Option<(Pair, usize)>)
        requires
            self.wf(),
            i <= self.s().len(),
        ensures
            matched(r, expression_at(self.s(), i as int)),
            r matches Some((_, end)) ==> i < end <= self.s().len(),
        decreases self.s().len() - i, 1int,
    {
        proof {
            lemma_expression_progress(self.s(), i as int);
        }
        if self.has_char(i, ':') {
            if let Some((base, end)) = self.expression(i + 1) {
                let operator = self.pair(Rule::Parents, i, i + 1, Vec::new());
                assert(nodes(Seq::<Pair>::empty()) =~= seq![]);
                let inner = vec![operator, base];
                assert(nodes(inner@) =~= seq![operator@, base@]);
                return Some((self.pair(Rule::Expression, i, end, inner), end));
            }
        }
        if self.has_char(i, '*') && self.has_char(i + 1, ':') {
            if let Some((base, end)) = self.expression(i + 2) {
                let operator = self.pair(Rule::Ancestors, i, i + 2, Vec::new());
                assert(nodes(Seq::<Pair>::empty()) =~= seq![]);
                let inner = vec![operator, base];
                assert(nodes(inner@) =~= seq![operator@, base@]);
                return Some((self.pair(Rule::Expression, i, end, inner), end));
            }
        }
        let call = self.call(i);
        if call.is_some() {
            return call;
        }
        match self.primary(i) {
            Some((primary, end)) => {
                let inner = vec![primary];
                assert(nodes(inner@) =~= seq![primary@]);
                Some((self.pair(Rule::Expression, i, end, inner), end))
            },
            None => None,
        }
    }
}

/// The parser of the revset language.
pub struct RevsetParser;

impl RevsetParser {
    /// Matches `expression` at the start of `input`: its node and the offset in
    /// bytes where it ends, or `None` where no prefix of `input` is an
    /// expression.
    pub fn parse(input: &str) -> (r: Option<(Pair, usize)>)
        ensures
            r is Some <==> expression_at(input@, 0) is Some,
            r matches Some((pair, end)) ==> {
                let (node, stop) = expression_at(input@, 0)->0;
                &&& pair@ == node
                &&& end == byte_offset(input@, stop)
            },
    {
        let scanner = Scanner { input, chars: characters(input) };
        match scanner.expression(0) {
            Some((pair, end)) => {
                let prefix = input.substring_char(0, end);
                assert(prefix@ =~= input@.take(end as int));
                Some((pair, byte_length(prefix)))
            },
            None => None,
        }
    }
}

/// Whether an outcome of matching is the given one.
spec fn matched(r: Option<(Pair, usize)>, m: Option<(Node, int)>) -> bool {
    match r {
        Some((pair, end)) => m == Some((pair@, end as int)),
        None => m is None,
    }
}

} // verus!
