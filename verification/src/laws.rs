//! The laws of the parser and the evaluator, stated over the
//! mathematical parse and evaluation functions that the executable
//! functions are proved to implement.

use vstd::prelude::*;
use crate::ast::{ValView, ExprView};
use crate::grammar::{
    ParseErrorView, is_digit, is_int_text, float_dot_at, is_float_text, is_sym_text, digits_val,
    spec_parse_atom, spec_parse_expr,
};
use crate::system::{EvalErrorView, spec_eval};

verus! {

/// Every nonempty decimal-digit string whose value fits in an `i64`
/// parses to exactly that integer, read in base 10.
pub proof fn lemma_parse_integer(d: Seq<char>)
    requires
        is_int_text(d),
        digits_val(d) <= i64::MAX as int,
    ensures
        spec_parse_atom(d) == Ok::<ValView, ParseErrorView>(ValView::Int(digits_val(d))),
{
}

/// Every fragment of the shape `digits.digits` (the leading group
/// may be empty, the trailing one may not) parses to the float value
/// carrying that text verbatim.
pub proof fn lemma_parse_float(s: Seq<char>)
    requires
        is_float_text(s),
    ensures
        spec_parse_atom(s) == Ok::<ValView, ParseErrorView>(ValView::Float(s)),
{
    let i = choose|i: int| float_dot_at(s, i);
    assert(!is_digit(s[i]));
    assert(!is_int_text(s));
}

/// Wrapping any character sequence in double quotes parses to the
/// string holding exactly that sequence, with no unescaping.
pub proof fn lemma_parse_quoted(s: Seq<char>)
    ensures
        spec_parse_atom(seq!['"'] + s + seq!['"']) == Ok::<ValView, ParseErrorView>(
            ValView::Str(s),
        ),
{
    let q = seq!['"'] + s + seq!['"'];
    assert(q.len() == s.len() + 2);
    assert(q[0] == '"');
    assert(q[q.len() - 1] == '"');
    assert(!is_int_text(q)) by {
        assert(!is_digit(q[0]));
    }
    assert(!is_float_text(q)) by {
        assert forall|i: int| !#[trigger] float_dot_at(q, i) by {
            if float_dot_at(q, i) {
                if i == 0 {
                    assert(q[0] == '.');
                } else {
                    assert(is_digit(q[0]));
                }
            }
        }
    }
    assert(q.subrange(1, q.len() - 1) =~= s);
}

/// Every fragment matching the symbol pattern — a letter or
/// underscore followed by letters, digits and underscores — parses
/// to the symbol of exactly that name.
pub proof fn lemma_parse_symbol(n: Seq<char>)
    requires
        is_sym_text(n),
    ensures
        spec_parse_expr(n) == Ok::<ExprView, ParseErrorView>(ExprView::Sym(n)),
{
}

/// Evaluating a literal atom yields its value unconditionally,
/// whatever the environment holds.
pub proof fn lemma_eval_atom(v: ValView, env: Map<Seq<char>, ValView>)
    ensures
        spec_eval(ExprView::Atom(v), env) == Ok::<ValView, EvalErrorView>(v),
{
}

/// Parsing is deterministic: two outcomes of parsing the same text
/// are structurally equal.  Every result of the executable parser
/// equals the mathematical one, so two runs agree.
pub proof fn lemma_parse_idempotent(
    s: Seq<char>,
    r1: Result<ExprView, ParseErrorView>,
    r2: Result<ExprView, ParseErrorView>,
)
    requires
        r1 == spec_parse_expr(s),
        r2 == spec_parse_expr(s),
    ensures
        r1 == r2,
{
}

/// Evaluation is deterministic: two outcomes of evaluating the same
/// expression against the same environment — in particular the same
/// bound symbol twice — are equal.
pub proof fn lemma_eval_idempotent(
    e: ExprView,
    env: Map<Seq<char>, ValView>,
    r1: Result<ValView, EvalErrorView>,
    r2: Result<ValView, EvalErrorView>,
)
    requires
        r1 == spec_eval(e, env),
        r2 == spec_eval(e, env),
    ensures
        r1 == r2,
{
}

} // verus!
