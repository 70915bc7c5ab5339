//! The grammar of the language, stated mathematically over `Seq<char>`.
//!
//! Atom fragments are recognized in a fixed order (integer, float,
//! string, quoted list), and expression fragments as a symbol, a
//! call form, or an atom.  Call arguments are decomposed by the
//! single-nesting rule: the argument text is split at its first `(`
//! and the remainder at its last `)`, so exactly one nested call per
//! argument list is decomposed correctly; this limitation is a
//! deliberate part of the grammar, not an accident of the
//! implementation.

use vstd::prelude::*;
use crate::ast::{ValView, ExprView};

verus! {

/// A structured parse failure, naming the offending fragment.
#[derive(Debug, PartialEq)]
pub enum ParseError {
    /// The fragment matches none of the atom or expression patterns.
    Malformed(String),
    /// The fragment is a digit string whose value exceeds `i64::MAX`.
    Overflow(String),
    /// The fragment is a quoted list literal `'(...)`; building list
    /// values is a declared but unimplemented extension point.
    ListNotSupported(String),
    /// A call form whose argument text opens a nested group without a
    /// matching closing parenthesis.
    Unmatched(String),
}

/// The mathematical model of a [`ParseError`].
pub enum ParseErrorView {
    Malformed(Seq<char>),
    Overflow(Seq<char>),
    ListNotSupported(Seq<char>),
    Unmatched(Seq<char>),
}

impl DeepView for ParseError {
    type V = ParseErrorView;

    open spec fn deep_view(&self) -> ParseErrorView {
        match self {
            ParseError::Malformed(f) => ParseErrorView::Malformed(f@),
            ParseError::Overflow(f) => ParseErrorView::Overflow(f@),
            ParseError::ListNotSupported(f) => ParseErrorView::ListNotSupported(f@),
            ParseError::Unmatched(f) => ParseErrorView::Unmatched(f@),
        }
    }
}

// ---------------------------------------------------------------------------
// Character classes
// ---------------------------------------------------------------------------

pub open spec fn is_digit(c: char) -> bool {
    '0' <= c && c <= '9'
}

/// The whitespace characters that separate the pieces of a call form.
pub open spec fn is_space(c: char) -> bool {
    c == ' ' || c == '\t' || c == '\n' || c == '\r' || c == '\x0b' || c == '\x0c'
}

/// A character that may open a symbol: a letter or an underscore.
pub open spec fn is_sym_start(c: char) -> bool {
    ('a' <= c && c <= 'z') || ('A' <= c && c <= 'Z') || c == '_'
}

/// A character that may continue a symbol.
pub open spec fn is_sym_char(c: char) -> bool {
    is_sym_start(c) || is_digit(c)
}

// ---------------------------------------------------------------------------
// Fragment shapes
// ---------------------------------------------------------------------------

pub open spec fn all_digits(s: Seq<char>) -> bool {
    forall|i: int| 0 <= i < s.len() ==> is_digit(#[trigger] s[i])
}

/// A nonempty string of decimal digits (leading zeros permitted).
pub open spec fn is_int_text(s: Seq<char>) -> bool {
    s.len() > 0 && all_digits(s)
}

/// Position `i` splits `s` into a (possibly empty) digit group, a
/// dot, and a nonempty digit group.
pub open spec fn float_dot_at(s: Seq<char>, i: int) -> bool {
    0 <= i < s.len() - 1 && s[i] == '.' && (forall|j: int|
        0 <= j < i ==> is_digit(#[trigger] s[j])) && (forall|j: int|
        i < j < s.len() ==> is_digit(#[trigger] s[j]))
}

/// Digits, a literal `.`, then one or more digits; the digits before
/// the dot may be empty, those after it may not.
pub open spec fn is_float_text(s: Seq<char>) -> bool {
    exists|i: int| #[trigger] float_dot_at(s, i)
}

/// The fragment begins and ends with a double quote.
pub open spec fn is_string_text(s: Seq<char>) -> bool {
    s.len() >= 2 && s[0] == '"' && s[s.len() - 1] == '"'
}

/// The fragment is a quoted list literal: `'(`, a nonempty body, `)`.
pub open spec fn is_list_text(s: Seq<char>) -> bool {
    s.len() >= 4 && s[0] == '\'' && s[1] == '(' && s[s.len() - 1] == ')'
}

/// The fragment is exactly a symbol: a letter or underscore followed
/// by letters, digits and underscores.
pub open spec fn is_sym_text(s: Seq<char>) -> bool {
    s.len() > 0 && is_sym_start(s[0]) && forall|i: int|
        0 <= i < s.len() ==> is_sym_char(#[trigger] s[i])
}

// ---------------------------------------------------------------------------
// Scanning helpers
// ---------------------------------------------------------------------------

/// The first position at or after `p` holding a non-space character,
/// or the end of the fragment.
pub open spec fn skip_spaces(s: Seq<char>, p: int) -> int
    decreases s.len() - p,
    when 0 <= p <= s.len()
{
    if p >= s.len() {
        p
    } else if is_space(s[p]) {
        skip_spaces(s, p + 1)
    } else {
        p
    }
}

/// The first position at or after `p` holding a non-symbol character,
/// or the end of the fragment.
pub open spec fn skip_sym_chars(s: Seq<char>, p: int) -> int
    decreases s.len() - p,
    when 0 <= p <= s.len()
{
    if p >= s.len() {
        p
    } else if is_sym_char(s[p]) {
        skip_sym_chars(s, p + 1)
    } else {
        p
    }
}

pub open spec fn has_char(s: Seq<char>, c: char) -> bool {
    exists|i: int| 0 <= i < s.len() && #[trigger] s[i] == c
}

/// The position of the first occurrence of `c` (meaningful only when
/// `has_char(s, c)` holds).
pub open spec fn first_pos(s: Seq<char>, c: char) -> int
    decreases s.len(),
{
    if s.len() == 0 {
        0
    } else if s[0] == c {
        0
    } else {
        1 + first_pos(s.drop_first(), c)
    }
}

/// The position of the last occurrence of `c` (meaningful only when
/// `has_char(s, c)` holds).
pub open spec fn last_pos(s: Seq<char>, c: char) -> int
    decreases s.len(),
{
    if s.len() == 0 {
        -1
    } else if s[s.len() - 1] == c {
        s.len() - 1
    } else {
        last_pos(s.drop_last(), c)
    }
}

// ---------------------------------------------------------------------------
// Splitting argument text into tokens
// ---------------------------------------------------------------------------

/// The pieces of `s` cut at every single space, empty pieces kept;
/// the empty fragment yields one empty piece.
pub open spec fn split_spaces(s: Seq<char>) -> Seq<Seq<char>>
    decreases s.len(),
{
    if s.len() == 0 {
        seq![Seq::empty()]
    } else if s.last() == ' ' {
        split_spaces(s.drop_last()).push(Seq::empty())
    } else {
        let r = split_spaces(s.drop_last());
        r.update(r.len() - 1, r.last().push(s.last()))
    }
}

/// `t` without leading and trailing whitespace.
pub open spec fn trim(t: Seq<char>) -> Seq<char>
    decreases t.len(),
{
    if t.len() == 0 {
        t
    } else if is_space(t[0]) {
        trim(t.drop_first())
    } else if is_space(t.last()) {
        trim(t.drop_last())
    } else {
        t
    }
}

/// Discards empty pieces and trims the survivors.
pub open spec fn keep_and_trim(pieces: Seq<Seq<char>>) -> Seq<Seq<char>>
    decreases pieces.len(),
{
    if pieces.len() == 0 {
        Seq::empty()
    } else {
        let rest = keep_and_trim(pieces.drop_first());
        if pieces[0].len() > 0 {
            seq![trim(pieces[0])] + rest
        } else {
            rest
        }
    }
}

/// The argument fragments of a call form: the argument text is cut at
/// single spaces, empty pieces are discarded, and each survivor is
/// trimmed of surrounding whitespace.
pub open spec fn tokens_of(s: Seq<char>) -> Seq<Seq<char>> {
    keep_and_trim(split_spaces(s))
}

// ---------------------------------------------------------------------------
// The shape of a call form
// ---------------------------------------------------------------------------

/// Position where the call name starts: after `(` and any whitespace.
pub open spec fn fname_start(s: Seq<char>) -> int {
    skip_spaces(s, 1)
}

/// Position one past the end of the call name.
pub open spec fn fname_end(s: Seq<char>) -> int {
    skip_sym_chars(s, fname_start(s))
}

/// Position where the argument text starts: after the name and any
/// whitespace.
pub open spec fn fargs_start(s: Seq<char>) -> int {
    skip_spaces(s, fname_end(s))
}

/// The fragment has the shape of a call form: parenthesized, with a
/// symbol as its first meaningful content.
pub open spec fn is_func_text(s: Seq<char>) -> bool {
    s.len() >= 3 && s[0] == '(' && s[s.len() - 1] == ')' && fname_start(s) < s.len()
        && is_sym_start(s[fname_start(s)])
}

/// The name of a call form (meaningful only when `is_func_text`).
pub open spec fn func_name(s: Seq<char>) -> Seq<char> {
    s.subrange(fname_start(s), fname_end(s))
}

/// The argument text of a call form: everything after the name and
/// its trailing whitespace, up to the final `)`.
pub open spec fn func_args(s: Seq<char>) -> Seq<char> {
    s.subrange(fargs_start(s), s.len() - 1)
}

// ---------------------------------------------------------------------------
// Characterizations of the scanning helpers
// ---------------------------------------------------------------------------

pub proof fn lemma_skip_spaces(s: Seq<char>, p: int)
    requires
        0 <= p <= s.len(),
    ensures
        p <= skip_spaces(s, p) <= s.len(),
        skip_spaces(s, p) < s.len() ==> !is_space(s[skip_spaces(s, p)]),
        forall|q: int| p <= q < skip_spaces(s, p) ==> is_space(#[trigger] s[q]),
    decreases s.len() - p,
{
    if p < s.len() && is_space(s[p]) {
        lemma_skip_spaces(s, p + 1);
    }
}

pub proof fn lemma_skip_sym_chars(s: Seq<char>, p: int)
    requires
        0 <= p <= s.len(),
    ensures
        p <= skip_sym_chars(s, p) <= s.len(),
        skip_sym_chars(s, p) < s.len() ==> !is_sym_char(s[skip_sym_chars(s, p)]),
        forall|q: int| p <= q < skip_sym_chars(s, p) ==> is_sym_char(#[trigger] s[q]),
    decreases s.len() - p,
{
    if p < s.len() && is_sym_char(s[p]) {
        lemma_skip_sym_chars(s, p + 1);
    }
}

pub proof fn lemma_first_pos(s: Seq<char>, c: char)
    requires
        has_char(s, c),
    ensures
        0 <= first_pos(s, c) < s.len(),
        s[first_pos(s, c)] == c,
        forall|j: int| 0 <= j < first_pos(s, c) ==> s[j] != c,
    decreases s.len(),
{
    if s.len() > 0 && s[0] != c {
        let i = choose|i: int| 0 <= i < s.len() && s[i] == c;
        assert(s.drop_first()[i - 1] == c);
        lemma_first_pos(s.drop_first(), c);
        assert forall|j: int| 0 <= j < first_pos(s, c) implies s[j] != c by {
            if j > 0 {
                assert(s.drop_first()[j - 1] != c);
            }
        }
    }
}

pub proof fn lemma_last_pos(s: Seq<char>, c: char)
    requires
        has_char(s, c),
    ensures
        0 <= last_pos(s, c) < s.len(),
        s[last_pos(s, c)] == c,
        forall|j: int| last_pos(s, c) < j < s.len() ==> s[j] != c,
    decreases s.len(),
{
    if s.len() > 0 && s[s.len() - 1] != c {
        let i = choose|i: int| 0 <= i < s.len() && s[i] == c;
        assert(s.drop_last()[i] == c);
        lemma_last_pos(s.drop_last(), c);
        assert forall|j: int| last_pos(s, c) < j < s.len() implies s[j] != c by {
            if j < s.len() - 1 {
                assert(s.drop_last()[j] != c);
            }
        }
    }
}

pub proof fn lemma_split_spaces_len(s: Seq<char>)
    ensures
        split_spaces(s).len() >= 1,
        forall|k: int|
            0 <= k < split_spaces(s).len() ==> #[trigger] split_spaces(s)[k].len() <= s.len(),
    decreases s.len(),
{
    if s.len() > 0 {
        lemma_split_spaces_len(s.drop_last());
    }
}

pub proof fn lemma_trim_len(t: Seq<char>)
    ensures
        trim(t).len() <= t.len(),
    decreases t.len(),
{
    if t.len() > 0 {
        if is_space(t[0]) {
            lemma_trim_len(t.drop_first());
        } else if is_space(t.last()) {
            lemma_trim_len(t.drop_last());
        }
    }
}

pub proof fn lemma_keep_and_trim_len(pieces: Seq<Seq<char>>, b: int)
    requires
        forall|i: int| 0 <= i < pieces.len() ==> #[trigger] pieces[i].len() <= b,
    ensures
        forall|k: int|
            0 <= k < keep_and_trim(pieces).len() ==> #[trigger] keep_and_trim(pieces)[k].len()
                <= b,
    decreases pieces.len(),
{
    if pieces.len() > 0 {
        assert forall|i: int| 0 <= i < pieces.drop_first().len() implies #[trigger] pieces
            .drop_first()[i].len() <= b by {
            assert(pieces.drop_first()[i] == pieces[i + 1]);
        }
        lemma_keep_and_trim_len(pieces.drop_first(), b);
        lemma_trim_len(pieces[0]);
        let rest = keep_and_trim(pieces.drop_first());
        assert forall|k: int| 0 <= k < keep_and_trim(pieces).len() implies #[trigger] keep_and_trim(
            pieces,
        )[k].len() <= b by {
            if pieces[0].len() > 0 {
                if k > 0 {
                    assert(keep_and_trim(pieces)[k] == rest[k - 1]);
                }
            } else {
                assert(keep_and_trim(pieces)[k] == rest[k]);
            }
        }
    }
}

/// Every token cut out of `s` is no longer than `s` itself.
pub proof fn lemma_tokens_len(s: Seq<char>, b: int)
    requires
        s.len() <= b,
    ensures
        forall|k: int| 0 <= k < tokens_of(s).len() ==> #[trigger] tokens_of(s)[k].len() <= b,
{
    lemma_split_spaces_len(s);
    assert forall|i: int| 0 <= i < split_spaces(s).len() implies #[trigger] split_spaces(
        s,
    )[i].len() <= b by {}
    lemma_keep_and_trim_len(split_spaces(s), b);
}

// ---------------------------------------------------------------------------
// The value of a digit string, and the parse functions
// ---------------------------------------------------------------------------

/// The base-10 value of a digit string.
pub open spec fn digits_val(s: Seq<char>) -> int
    decreases s.len(),
{
    if s.len() == 0 {
        0
    } else {
        digits_val(s.drop_last()) * 10 + (s.last() as int - '0' as int)
    }
}

/// What parsing a fragment as an atomic value yields: the patterns
/// are tried in order (integer, float, string, quoted list), the
/// whole fragment must conform, and the first match wins.
pub open spec fn spec_parse_atom(s: Seq<char>) -> Result<ValView, ParseErrorView> {
    if is_int_text(s) {
        if digits_val(s) <= i64::MAX {
            Ok(ValView::Int(digits_val(s)))
        } else {
            Err(ParseErrorView::Overflow(s))
        }
    } else if is_float_text(s) {
        Ok(ValView::Float(s))
    } else if is_string_text(s) {
        Ok(ValView::Str(s.subrange(1, s.len() - 1)))
    } else if is_list_text(s) {
        Err(ParseErrorView::ListNotSupported(s))
    } else {
        Err(ParseErrorView::Malformed(s))
    }
}

/// What parsing a fragment as an expression yields: a symbol, a call
/// form, or an atom, in that order.  A call form's argument text is
/// tokenized, or — when it opens a nested group — decomposed by the
/// single-nesting rule, and the pieces are parsed left to right; the
/// first failure is the result.
pub open spec fn spec_parse_expr(s: Seq<char>) -> Result<ExprView, ParseErrorView>
    decreases s.len(), 0int, 0int,
{
    if is_sym_text(s) {
        Ok(ExprView::Sym(s))
    } else if is_func_text(s) {
        proof {
            lemma_skip_spaces(s, 1);
            lemma_skip_sym_chars(s, fname_start(s));
            lemma_skip_spaces(s, fname_end(s));
        }
        let name = func_name(s);
        let args = func_args(s);
        if has_char(args, '(') {
            proof {
                lemma_first_pos(args, '(');
            }
            let b = first_pos(args, '(');
            let before = args.subrange(0, b);
            let na = args.subrange(b + 1, args.len() as int);
            if !has_char(na, ')') {
                Err(ParseErrorView::Unmatched(s))
            } else {
                proof {
                    lemma_last_pos(na, ')');
                    lemma_tokens_len(before, s.len() - 2);
                }
                let c = last_pos(na, ')');
                let nested = na.subrange(0, c);
                let after = na.subrange(c + 1, na.len() as int);
                let nested_frag = seq!['('] + nested + seq![')'];
                match spec_parse_args(s.len() - 1, tokens_of(before)) {
                    Err(e) => Err(e),
                    Ok(bargs) => match spec_parse_expr(nested_frag) {
                        Err(e) => Err(e),
                        Ok(ne) => {
                            proof {
                                lemma_tokens_len(after, s.len() - 2);
                            }
                            match spec_parse_args(s.len() - 1, tokens_of(after)) {
                                Err(e) => Err(e),
                                Ok(aargs) => Ok(
                                    ExprView::Func(name, bargs + seq![ne] + aargs),
                                ),
                            }
                        },
                    },
                }
            }
        } else {
            proof {
                lemma_tokens_len(args, s.len() - 2);
            }
            match spec_parse_args(s.len() - 1, tokens_of(args)) {
                Err(e) => Err(e),
                Ok(l) => Ok(ExprView::Func(name, l)),
            }
        }
    } else {
        match spec_parse_atom(s) {
            Ok(v) => Ok(ExprView::Atom(v)),
            Err(e) => Err(e),
        }
    }
}

/// What parsing a list of argument fragments yields: each fragment is
/// parsed as an expression, left to right; the first failure is the
/// result.  `bound` is a strict upper bound on the fragments' lengths
/// and only serves termination.
pub open spec fn spec_parse_args(bound: int, toks: Seq<Seq<char>>) -> Result<
    Seq<ExprView>,
    ParseErrorView,
>
    decreases bound, 1int, toks.len(),
    when 0 <= bound && forall|i: int| 0 <= i < toks.len() ==> #[trigger] toks[i].len() < bound
{
    if toks.len() == 0 {
        Ok(Seq::empty())
    } else {
        match spec_parse_expr(toks[0]) {
            Err(e) => Err(e),
            Ok(e0) => {
                proof {
                    assert(forall|i: int|
                        0 <= i < toks.drop_first().len() ==> #[trigger] toks.drop_first()[i].len()
                            < bound);
                }
                match spec_parse_args(bound, toks.drop_first()) {
                    Err(e) => Err(e),
                    Ok(rest) => Ok(seq![e0] + rest),
                }
            },
        }
    }
}

} // verus!
