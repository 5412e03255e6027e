//! A match of the grammar depends on the text that it takes, and on the text
//! after it only as far as that says that the match stops.
use crate::grammar::{
    argument_at, arguments_at, call_at, char_at, expression_at, lemma_argument_progress,
    lemma_arguments_progress, lemma_expression_progress, lemma_run, literal_string_at,
    more_arguments_at, primary_at, run_end, symbol_at, CharClass,
};
use vstd::prelude::*;

verus! {

/// Whether nothing that continues an expression stands at `e`.
pub open spec fn stops(s: Seq<char>, e: int) -> bool {
    e == s.len() || char_at(s, e, ')') || char_at(s, e, ',')
}

/// Whether `i..e` of `s` is the text of `t` that stands `d` characters further.
pub open spec fn agree(s: Seq<char>, t: Seq<char>, i: int, e: int, d: int) -> bool {
    &&& 0 <= i <= e <= s.len()
    &&& 0 <= i + d
    &&& e + d <= t.len()
    &&& forall|k: int| i <= k < e ==> #[trigger] s[k] == t[k + d]
}

proof fn lemma_text(s: Seq<char>, t: Seq<char>, i: int, e: int, d: int, a: int, b: int)
    requires
        agree(s, t, i, e, d),
        i <= a <= b <= e,
    ensures
        s.subrange(a, b) == t.subrange(a + d, b + d),
{
    assert forall|k: int| 0 <= k < b - a implies s.subrange(a, b)[k] == t.subrange(a + d, b + d)[k] by {
        assert(s[a + k] == t[a + k + d]);
    }
    assert(s.subrange(a, b) =~= t.subrange(a + d, b + d));
}

proof fn lemma_run_local(
    s: Seq<char>,
    t: Seq<char>,
    i: int,
    e: int,
    d: int,
    class: CharClass,
)
    requires
        agree(s, t, i, e, d),
        run_end(s, i, class) <= e,
        run_end(s, i, class) < e || e + d == t.len() || !class.has(t[e + d]),
    ensures
        run_end(t, i + d, class) == run_end(s, i, class) + d,
    decreases e - i,
{
    if i < e {
        assert(s[i] == t[i + d]);
        if class.has(s[i]) {
            lemma_run_local(s, t, i + 1, e, d, class);
        }
    } else {
        lemma_run(s, i, class);
    }
}

/// Characters of names are characters of symbols.
proof fn lemma_name_in_symbol(s: Seq<char>, i: int)
    requires
        0 <= i <= s.len(),
    ensures
        run_end(s, i, CharClass::Name) <= run_end(s, i, CharClass::Symbol),
    decreases s.len() - i,
{
    if i < s.len() && CharClass::Name.has(s[i]) {
        lemma_name_in_symbol(s, i + 1);
    } else {
        lemma_run(s, i, CharClass::Symbol);
    }
}

/// What an expression can begin with.
pub open spec fn begins_expression(c: char) -> bool {
    c == ':' || c == '*' || c == '(' || CharClass::Symbol.has(c)
}

/// An expression begins with an operator, a parenthesis or a symbol character.
pub proof fn lemma_first_char(s: Seq<char>, i: int)
    requires
        0 <= i <= s.len(),
        expression_at(s, i) is Some,
    ensures
        i < s.len(),
        begins_expression(s[i]),
        s[i] == ':' ==> expression_at(s, i + 1) is Some,
        s[i] == '*' ==> char_at(s, i + 1, ':') && expression_at(s, i + 2) is Some,
{
    reveal_with_fuel(expression_at, 2);
    reveal_with_fuel(primary_at, 2);
    reveal_with_fuel(call_at, 2);
    lemma_run(s, i, CharClass::Name);
    lemma_run(s, i, CharClass::Symbol);
    lemma_expression_progress(s, i);
}

/// A match of `expression` is also found where its text stands in another text and
/// stops.
pub proof fn lemma_expression_local(s: Seq<char>, t: Seq<char>, i: int, d: int)
    requires
        expression_at(s, i) is Some,
        agree(s, t, i, expression_at(s, i).unwrap().1, d),
        stops(t, expression_at(s, i).unwrap().1 + d),
    ensures
        expression_at(t, i + d) == Some(
            (expression_at(s, i).unwrap().0, expression_at(s, i).unwrap().1 + d),
        ),
    decreases s.len() - i, 1int,
{
    let (n, e) = expression_at(s, i)->0;
    lemma_first_char(s, i);
    lemma_expression_progress(s, i);
    assert(s[i] == t[i + d]);
    lemma_run(s, i, CharClass::Name);
    lemma_run(s, i, CharClass::Symbol);
    lemma_text(s, t, i, e, d, i, e);
    if char_at(s, i, ':') {
        lemma_expression_progress(s, i + 1);
        lemma_text(s, t, i, e, d, i, i + 1);
        lemma_expression_local(s, t, i + 1, d);
    } else if char_at(s, i, '*') {
        lemma_expression_progress(s, i + 2);
        lemma_text(s, t, i, e, d, i, i + 2);
        assert(s[i + 1] == t[i + 1 + d]);
        lemma_expression_local(s, t, i + 2, d);
    } else if call_at(s, i) is Some {
        lemma_call_local(s, t, i, d);
    } else {
        lemma_no_call(s, t, i, e, d);
        lemma_primary_local(s, t, i, d);
    }
}

proof fn lemma_no_call(s: Seq<char>, t: Seq<char>, i: int, e: int, d: int)
    requires
        agree(s, t, i, e, d),
        i < e,
        call_at(s, i) is None,
        primary_at(s, i) matches Some((_, end)) && end == e,
        stops(t, e + d),
    ensures
        call_at(t, i + d) is None,
{
    lemma_run(s, i, CharClass::Name);
    lemma_run(s, i, CharClass::Symbol);
    lemma_name_in_symbol(s, i);
    assert(s[i] == t[i + d]);
    let open = run_end(s, i, CharClass::Name);
    if symbol_at(s, i) is Some {
        lemma_run_local(s, t, i, e, d, CharClass::Name);
        if open < e {
            assert(s[open] == t[open + d]);
            assert(CharClass::Symbol.has(s[open]));
        }
    }
}

proof fn lemma_primary_local(s: Seq<char>, t: Seq<char>, i: int, d: int)
    requires
        primary_at(s, i) is Some,
        0 <= i < primary_at(s, i).unwrap().1,
        agree(s, t, i, primary_at(s, i).unwrap().1, d),
        stops(t, primary_at(s, i).unwrap().1 + d),
    ensures
        primary_at(t, i + d) == Some((primary_at(s, i).unwrap().0, primary_at(s, i).unwrap().1 + d)),
    decreases s.len() - i, 0int,
{
    let (n, e) = primary_at(s, i)->0;
    assert(s[i] == t[i + d]);
    lemma_run(s, i, CharClass::Symbol);
    lemma_text(s, t, i, e, d, i, e);
    if symbol_at(s, i) is Some {
        lemma_run_local(s, t, i, e, d, CharClass::Symbol);
    } else {
        assert(s[e - 1] == t[e - 1 + d]);
        lemma_expression_progress(s, i + 1);
        lemma_expression_local(s, t, i + 1, d);
        lemma_run(t, i + d, CharClass::Symbol);
    }
}

/// A match of a call is also found where its text stands in another text.
pub proof fn lemma_call_local(s: Seq<char>, t: Seq<char>, i: int, d: int)
    requires
        0 <= i,
        call_at(s, i) is Some,
        agree(s, t, i, call_at(s, i).unwrap().1, d),
    ensures
        call_at(t, i + d) == Some((call_at(s, i).unwrap().0, call_at(s, i).unwrap().1 + d)),
    decreases s.len() - i, 0int,
{
    let (n, e) = call_at(s, i)->0;
    let open = run_end(s, i, CharClass::Name);
    lemma_run(s, i, CharClass::Name);
    lemma_arguments_progress(s, open + 1);
    lemma_run_local(s, t, i, e, d, CharClass::Name);
    assert(s[open] == t[open + d]);
    assert(s[e - 1] == t[e - 1 + d]);
    lemma_arguments_local(s, t, open + 1, d);
    lemma_text(s, t, i, e, d, i, e);
    lemma_text(s, t, i, e, d, i, open);
    lemma_text(s, t, i, e, d, open + 1, e - 1);
}

proof fn lemma_argument_local(s: Seq<char>, t: Seq<char>, i: int, d: int)
    requires
        0 <= i <= s.len(),
        argument_at(s, i) is Some,
        agree(s, t, i, argument_at(s, i).unwrap().1, d),
        stops(t, argument_at(s, i).unwrap().1 + d),
    ensures
        argument_at(t, i + d) == Some((argument_at(s, i).unwrap().0, argument_at(s, i).unwrap().1 + d)),
    decreases s.len() - i, 2int,
{
    let (n, e) = argument_at(s, i)->0;
    if literal_string_at(s, i) is Some {
        lemma_run(s, i + 1, CharClass::Quoted);
        assert(s[i] == t[i + d]);
        assert(s[e - 1] == t[e - 1 + d]);
        lemma_run_local(s, t, i + 1, e, d, CharClass::Quoted);
    } else {
        lemma_first_char(s, i);
        lemma_expression_progress(s, i);
        assert(s[i] == t[i + d]);
        lemma_expression_local(s, t, i, d);
    }
    lemma_text(s, t, i, e, d, i, e);
}

proof fn lemma_no_argument_at_close(s: Seq<char>, i: int)
    requires
        char_at(s, i, ')'),
    ensures
        argument_at(s, i) is None,
{
    if expression_at(s, i) is Some {
        lemma_first_char(s, i);
    }
}

proof fn lemma_arguments_local(s: Seq<char>, t: Seq<char>, i: int, d: int)
    requires
        0 <= i <= s.len(),
        char_at(s, arguments_at(s, i).1, ')'),
        agree(s, t, i, arguments_at(s, i).1 + 1, d),
    ensures
        arguments_at(t, i + d) == (arguments_at(s, i).0, arguments_at(s, i).1 + d),
    decreases s.len() - i, 3int,
{
    let e = arguments_at(s, i).1;
    lemma_arguments_progress(s, i);
    assert(s[e] == t[e + d]);
    lemma_argument_progress(s, i);
    match argument_at(s, i) {
        Some((argument, m)) => {
            lemma_arguments_progress(s, m);
            assert(arguments_at(s, i) == (
                seq![argument] + more_arguments_at(s, m).0,
                more_arguments_at(s, m).1,
            ));
            if m < e {
                assert(char_at(s, m, ','));
                assert(s[m] == t[m + d]);
            }
            lemma_argument_local(s, t, i, d);
            lemma_more_arguments_local(s, t, m, d);
            assert(arguments_at(t, i + d) == (
                seq![argument] + more_arguments_at(t, m + d).0,
                more_arguments_at(t, m + d).1,
            ));
        },
        None => {
            lemma_no_argument_at_close(t, i + d);
        },
    }
}

proof fn lemma_more_arguments_local(s: Seq<char>, t: Seq<char>, i: int, d: int)
    requires
        0 <= i <= s.len(),
        char_at(s, more_arguments_at(s, i).1, ')'),
        agree(s, t, i, more_arguments_at(s, i).1 + 1, d),
    ensures
        more_arguments_at(t, i + d) == (more_arguments_at(s, i).0, more_arguments_at(s, i).1 + d),
    decreases s.len() - i, 3int,
{
    let e = more_arguments_at(s, i).1;
    lemma_arguments_progress(s, i);
    assert(s[e] == t[e + d]);
    assert(s[i] == t[i + d]);
    if char_at(s, i, ',') {
        lemma_argument_progress(s, i + 1);
        let (argument, m) = argument_at(s, i + 1)->0;
        assert(argument_at(s, i + 1) is Some);
        lemma_arguments_progress(s, m);
        assert(more_arguments_at(s, i) == (
            seq![argument] + more_arguments_at(s, m).0,
            more_arguments_at(s, m).1,
        ));
        if m < e {
            assert(char_at(s, m, ','));
            assert(s[m] == t[m + d]);
        }
        lemma_argument_local(s, t, i + 1, d);
        lemma_more_arguments_local(s, t, m, d);
        assert(more_arguments_at(t, i + d) == (
            seq![argument] + more_arguments_at(t, m + d).0,
            more_arguments_at(t, m + d).1,
        ));
    }
}

} // verus!
