//! The executable parser, proved equal to the grammar's parse
//! functions.

use vstd::prelude::*;
use crate::ast::{Val, Expr, ValView, ExprView, expr_view, exprs_view};
use crate::grammar::{
    ParseError, ParseErrorView, is_digit, is_space, is_sym_start, is_sym_char, all_digits,
    is_int_text, float_dot_at, is_float_text, is_sym_text, skip_spaces, skip_sym_chars, has_char,
    first_pos, last_pos, split_spaces, trim, keep_and_trim, tokens_of, is_func_text, func_name,
    func_args, lemma_skip_spaces, lemma_skip_sym_chars, lemma_first_pos, lemma_last_pos,
    lemma_tokens_len, digits_val, spec_parse_atom, spec_parse_expr, spec_parse_args,
};

verus! {

/// The model of an atom-parse outcome.
pub open spec fn atom_result_view(r: Result<Val, ParseError>) -> Result<
    ValView,
    ParseErrorView,
> {
    match r {
        Ok(v) => Ok(v.deep_view()),
        Err(e) => Err(e.deep_view()),
    }
}

/// The model of an expression-parse outcome.
pub open spec fn expr_result_view(r: Result<Expr, ParseError>) -> Result<
    ExprView,
    ParseErrorView,
> {
    match r {
        Ok(e) => Ok(e.deep_view()),
        Err(e) => Err(e.deep_view()),
    }
}

// ---------------------------------------------------------------------------
// Executable character classes
// ---------------------------------------------------------------------------

fn space_char(c: char) -> (b: bool)
    ensures
        b == is_space(c),
{
    c == ' ' || c == '\t' || c == '\n' || c == '\r' || c == '\x0b' || c == '\x0c'
}

fn digit_char(c: char) -> (b: bool)
    ensures
        b == is_digit(c),
{
    '0' <= c && c <= '9'
}

fn sym_start_char(c: char) -> (b: bool)
    ensures
        b == is_sym_start(c),
{
    ('a' <= c && c <= 'z') || ('A' <= c && c <= 'Z') || c == '_'
}

fn sym_char(c: char) -> (b: bool)
    ensures
        b == is_sym_char(c),
{
    sym_start_char(c) || digit_char(c)
}

// ---------------------------------------------------------------------------
// Executable scanning helpers
// ---------------------------------------------------------------------------

/// Whether every character in `[from, to)` is a decimal digit.
fn all_digits_in(s: &str, from: usize, to: usize) -> (b: bool)
    requires
        from <= to <= s@.len(),
    ensures
        b == forall|j: int| from <= j < to ==> is_digit(#[trigger] s@[j]),
{
    let mut i = from;
    while i < to
        invariant
            from <= i <= to <= s@.len(),
            forall|j: int| from <= j < i ==> is_digit(#[trigger] s@[j]),
        decreases to - i,
    {
        if !digit_char(s.get_char(i)) {
            return false;
        }
        i += 1;
    }
    true
}

/// The first position whose character is not a digit, or the length.
fn first_non_digit(s: &str) -> (k: usize)
    ensures
        k <= s@.len(),
        forall|j: int| 0 <= j < k ==> is_digit(#[trigger] s@[j]),
        k < s@.len() ==> !is_digit(s@[k as int]),
{
    let n = s.unicode_len();
    let mut i: usize = 0;
    while i < n
        invariant
            i <= n == s@.len(),
            forall|j: int| 0 <= j < i ==> is_digit(#[trigger] s@[j]),
        decreases n - i,
    {
        if !digit_char(s.get_char(i)) {
            return i;
        }
        i += 1;
    }
    i
}

// ---------------------------------------------------------------------------
// Digit strings and their values
// ---------------------------------------------------------------------------

/// Once a prefix of a digit string exceeds `i64::MAX`, the whole
/// string does.
proof fn lemma_digits_val_grows(s: Seq<char>, i: int)
    requires
        all_digits(s),
        0 <= i <= s.len(),
        digits_val(s.take(i)) > i64::MAX as int,
    ensures
        digits_val(s) > i64::MAX as int,
    decreases s.len() - i,
{
    if i < s.len() {
        assert(s.take(i + 1).drop_last() =~= s.take(i));
        assert(s.take(i + 1).last() == s[i]);
        assert(is_digit(s[i]));
        lemma_digits_val_grows(s, i + 1);
    } else {
        assert(s.take(i) =~= s);
    }
}

/// Reads the base-10 value of a nonempty digit string, detecting
/// overflow past `i64::MAX`.
fn digits_to_i64(s: &str) -> (r: Option<i64>)
    requires
        is_int_text(s@),
    ensures
        match r {
            Some(v) => digits_val(s@) <= i64::MAX as int && v as int == digits_val(s@),
            None => digits_val(s@) > i64::MAX as int,
        },
{
    let n = s.unicode_len();
    let mut acc: i64 = 0;
    let mut i: usize = 0;
    while i < n
        invariant
            i <= n == s@.len(),
            is_int_text(s@),
            acc as int == digits_val(s@.take(i as int)),
            acc >= 0,
        decreases n - i,
    {
        let c = s.get_char(i);
        assert(is_digit(c));
        let d: i64 = ((c as u32) - ('0' as u32)) as i64;
        proof {
            assert(s@.take(i + 1).drop_last() =~= s@.take(i as int));
            assert(s@.take(i + 1).last() == s@[i as int]);
        }
        let step = match acc.checked_mul(10) {
            Some(m) => m.checked_add(d),
            None => None,
        };
        match step {
            Some(v) => {
                acc = v;
            },
            None => {
                proof {
                    lemma_digits_val_grows(s@, i + 1);
                }
                return None;
            },
        }
        i += 1;
    }
    proof {
        assert(s@.take(n as int) =~= s@);
    }
    Some(acc)
}

// ---------------------------------------------------------------------------
// Shape checks
// ---------------------------------------------------------------------------

fn check_float(s: &str) -> (b: bool)
    ensures
        b == is_float_text(s@),
{
    let n = s.unicode_len();
    let k = first_non_digit(s);
    if k == n {
        proof {
            assert forall|i: int| !#[trigger] float_dot_at(s@, i) by {
                if float_dot_at(s@, i) {
                    assert(is_digit(s@[i]));
                }
            }
        }
        false
    } else {
        let c = s.get_char(k);
        if c != '.' {
            proof {
                assert forall|i: int| !#[trigger] float_dot_at(s@, i) by {
                    if float_dot_at(s@, i) {
                        if i < k {
                            assert(is_digit(s@[i]));
                        } else if i > k {
                            assert(is_digit(s@[k as int]));
                        }
                    }
                }
            }
            false
        } else if k + 1 >= n {
            proof {
                assert forall|i: int| !#[trigger] float_dot_at(s@, i) by {
                    if float_dot_at(s@, i) {
                        if i < k {
                            assert(is_digit(s@[i]));
                        } else if i > k {
                            assert(is_digit(s@[k as int]));
                        }
                    }
                }
            }
            false
        } else if all_digits_in(s, k + 1, n) {
            proof {
                assert(float_dot_at(s@, k as int));
            }
            true
        } else {
            proof {
                let m = choose|m: int| k < m < n && !is_digit(#[trigger] s@[m]);
                assert forall|i: int| !#[trigger] float_dot_at(s@, i) by {
                    if float_dot_at(s@, i) {
                        if i < k {
                            assert(is_digit(s@[i]));
                        } else if i > k {
                            assert(is_digit(s@[k as int]));
                        } else {
                            assert(is_digit(s@[m]));
                        }
                    }
                }
            }
            false
        }
    }
}

fn check_sym(s: &str) -> (b: bool)
    ensures
        b == is_sym_text(s@),
{
    let n = s.unicode_len();
    if n == 0 {
        return false;
    }
    if !sym_start_char(s.get_char(0)) {
        return false;
    }
    let mut i: usize = 1;
    while i < n
        invariant
            1 <= i <= n == s@.len(),
            is_sym_start(s@[0]),
            forall|j: int| 0 <= j < i ==> is_sym_char(#[trigger] s@[j]),
        decreases n - i,
    {
        if !sym_char(s.get_char(i)) {
            return false;
        }
        i += 1;
    }
    true
}

// ---------------------------------------------------------------------------
// Tokenizing argument text
// ---------------------------------------------------------------------------

/// The views of a sequence of owned strings.
pub open spec fn strings_view(ss: Seq<String>) -> Seq<Seq<char>> {
    Seq::new(ss.len(), |i: int| ss[i]@)
}

proof fn lemma_trim_all_spaces(t: Seq<char>)
    requires
        forall|j: int| 0 <= j < t.len() ==> is_space(#[trigger] t[j]),
    ensures
        trim(t) == Seq::<char>::empty(),
    decreases t.len(),
{
    if t.len() > 0 {
        assert(forall|j: int|
            0 <= j < t.drop_first().len() ==> is_space(#[trigger] t.drop_first()[j]));
        lemma_trim_all_spaces(t.drop_first());
    }
}

proof fn lemma_trim_shape(t: Seq<char>, a: int, b: int)
    requires
        0 <= a <= b < t.len(),
        forall|j: int| 0 <= j < a ==> is_space(#[trigger] t[j]),
        forall|j: int| b < j < t.len() ==> is_space(#[trigger] t[j]),
        !is_space(t[a]),
        !is_space(t[b]),
    ensures
        trim(t) == t.subrange(a, b + 1),
    decreases t.len(),
{
    if a > 0 {
        let u = t.drop_first();
        assert(forall|j: int| 0 <= j < a - 1 ==> is_space(#[trigger] u[j]));
        assert(forall|j: int| b - 1 < j < u.len() ==> is_space(#[trigger] u[j]));
        lemma_trim_shape(u, a - 1, b - 1);
        assert(u.subrange(a - 1, b) =~= t.subrange(a, b + 1));
    } else if b < t.len() - 1 {
        let u = t.drop_last();
        assert(forall|j: int| b < j < u.len() ==> is_space(#[trigger] u[j]));
        lemma_trim_shape(u, a, b);
        assert(u.subrange(a, b + 1) =~= t.subrange(a, b + 1));
    } else {
        assert(t.subrange(0, t.len() as int) =~= t);
    }
}

/// Strips leading and trailing whitespace.
fn trim_str(t: &str) -> (r: String)
    ensures
        r@ == trim(t@),
{
    let n = t.unicode_len();
    let mut a: usize = 0;
    while a < n && space_char(t.get_char(a))
        invariant
            a <= n == t@.len(),
            forall|j: int| 0 <= j < a ==> is_space(#[trigger] t@[j]),
        decreases n - a,
    {
        a += 1;
    }
    if a == n {
        proof {
            lemma_trim_all_spaces(t@);
        }
        return String::new();
    }
    let mut b: usize = n - 1;
    while space_char(t.get_char(b))
        invariant
            a <= b < n == t@.len(),
            !is_space(t@[a as int]),
            forall|j: int| b < j < n ==> is_space(#[trigger] t@[j]),
        decreases b,
    {
        b -= 1;
    }
    proof {
        lemma_trim_shape(t@, a as int, b as int);
    }
    String::from_str(t.substring_char(a, b + 1))
}

/// Cuts argument text at single spaces, discards empty pieces, and
/// trims the survivors.
fn tokenize(s: &str) -> (toks: Vec<String>)
    ensures
        strings_view(toks@) == tokens_of(s@),
{
    let n = s.unicode_len();
    let mut pieces: Vec<String> = Vec::new();
    let mut cur: String = String::new();
    proof {
        assert(strings_view(pieces@).push(cur@) =~= split_spaces(s@.take(0)));
    }
    let mut i: usize = 0;
    while i < n
        invariant
            i <= n == s@.len(),
            split_spaces(s@.take(i as int)) == strings_view(pieces@).push(cur@),
        decreases n - i,
    {
        let c = s.get_char(i);
        proof {
            assert(s@.take(i + 1).drop_last() =~= s@.take(i as int));
            assert(s@.take(i + 1).last() == s@[i as int]);
        }
        if c == ' ' {
            let ghost old_pieces = pieces@;
            let ghost old_cur = cur@;
            pieces.push(cur);
            cur = String::new();
            proof {
                assert(strings_view(pieces@) =~= strings_view(old_pieces).push(old_cur));
                assert(split_spaces(s@.take(i + 1)) =~= strings_view(pieces@).push(cur@));
            }
        } else {
            let ghost old_cur = cur@;
            cur.append(s.substring_char(i, i + 1));
            proof {
                assert(cur@ =~= old_cur.push(s@[i as int]));
                let r = strings_view(pieces@).push(old_cur);
                assert(split_spaces(s@.take(i + 1)) == r.update(
                    r.len() - 1,
                    r.last().push(s@[i as int]),
                ));
                assert(r.update(r.len() - 1, r.last().push(s@[i as int])) =~= strings_view(
                    pieces@,
                ).push(cur@));
            }
        }
        i += 1;
    }
    proof {
        assert(s@.take(n as int) =~= s@);
    }
    let ghost old_pieces = pieces@;
    let ghost old_cur = cur@;
    pieces.push(cur);
    proof {
        assert(strings_view(pieces@) =~= strings_view(old_pieces).push(old_cur));
    }
    let ghost ps = strings_view(pieces@);
    assert(ps == split_spaces(s@));
    let mut toks: Vec<String> = Vec::new();
    let mut p: usize = 0;
    proof {
        assert(ps.skip(0) =~= ps);
        assert(strings_view(toks@) + keep_and_trim(ps) =~= keep_and_trim(ps));
    }
    while p < pieces.len()
        invariant
            p <= pieces.len(),
            ps == strings_view(pieces@),
            keep_and_trim(ps) == strings_view(toks@) + keep_and_trim(ps.skip(p as int)),
        decreases pieces.len() - p,
    {
        proof {
            assert(ps.skip(p as int).drop_first() =~= ps.skip(p as int + 1));
            assert(ps.skip(p as int)[0] == ps[p as int]);
        }
        let piece = &pieces[p];
        if piece.as_str().unicode_len() > 0 {
            let tr = trim_str(piece.as_str());
            let ghost old_toks = toks@;
            toks.push(tr);
            proof {
                assert(strings_view(toks@) =~= strings_view(old_toks).push(trim(ps[p as int])));
                assert(keep_and_trim(ps.skip(p as int)) == seq![trim(ps[p as int])]
                    + keep_and_trim(ps.skip(p as int + 1)));
                assert(strings_view(old_toks) + keep_and_trim(ps.skip(p as int))
                    =~= strings_view(toks@) + keep_and_trim(ps.skip(p as int + 1)));
            }
        } else {
            proof {
                assert(keep_and_trim(ps.skip(p as int)) == keep_and_trim(ps.skip(p as int + 1)));
            }
        }
        p += 1;
    }
    proof {
        assert(ps.skip(pieces@.len() as int).len() == 0);
        assert(strings_view(toks@) + keep_and_trim(ps.skip(pieces@.len() as int)) =~= strings_view(
            toks@,
        ));
    }
    toks
}

// ---------------------------------------------------------------------------
// Atom parsing
// ---------------------------------------------------------------------------

/// Parses a trimmed fragment as an atomic value: a nonempty digit
/// string as an integer (overflow past `i64::MAX` is an error), a
/// `digits.digits` fragment as a float kept verbatim, a
/// double-quoted fragment as the string strictly between its first
/// and last character (no unescaping), and a quoted list literal as
/// a not-supported error; anything else is malformed.
pub fn try_parse_atom(src: &str) -> (r: Result<Val, ParseError>)
    ensures
        atom_result_view(r) == spec_parse_atom(src@),
{
    let n = src.unicode_len();
    if n > 0 && all_digits_in(src, 0, n) {
        assert(is_int_text(src@));
        match digits_to_i64(src) {
            Some(v) => Ok(Val::Int(v)),
            None => Err(ParseError::Overflow(String::from_str(src))),
        }
    } else if check_float(src) {
        assert(!is_int_text(src@));
        Ok(Val::Float(String::from_str(src)))
    } else if n >= 2 && src.get_char(0) == '"' && src.get_char(n - 1) == '"' {
        let inner = src.substring_char(1, n - 1);
        Ok(Val::Str(String::from_str(inner)))
    } else if n >= 4 && src.get_char(0) == '\'' && src.get_char(1) == '(' && src.get_char(n - 1)
        == ')' {
        Err(ParseError::ListNotSupported(String::from_str(src)))
    } else {
        Err(ParseError::Malformed(String::from_str(src)))
    }
}

// ---------------------------------------------------------------------------
// Expression parsing
// ---------------------------------------------------------------------------

fn skip_spaces_x(s: &str, from: usize) -> (r: usize)
    requires
        from <= s@.len(),
    ensures
        r as int == skip_spaces(s@, from as int),
        from <= r <= s@.len(),
{
    let n = s.unicode_len();
    let mut p = from;
    while p < n && space_char(s.get_char(p))
        invariant
            from <= p <= n == s@.len(),
            skip_spaces(s@, from as int) == skip_spaces(s@, p as int),
        decreases n - p,
    {
        p += 1;
    }
    p
}

fn skip_sym_x(s: &str, from: usize) -> (r: usize)
    requires
        from <= s@.len(),
    ensures
        r as int == skip_sym_chars(s@, from as int),
        from <= r <= s@.len(),
{
    let n = s.unicode_len();
    let mut p = from;
    while p < n && sym_char(s.get_char(p))
        invariant
            from <= p <= n == s@.len(),
            skip_sym_chars(s@, from as int) == skip_sym_chars(s@, p as int),
        decreases n - p,
    {
        p += 1;
    }
    p
}

fn find_char(s: &str, c: char) -> (r: Option<usize>)
    ensures
        match r {
            Some(i) => has_char(s@, c) && i < s@.len() && i as int == first_pos(s@, c),
            None => !has_char(s@, c),
        },
{
    let n = s.unicode_len();
    let mut i: usize = 0;
    while i < n
        invariant
            i <= n == s@.len(),
            forall|j: int| 0 <= j < i ==> s@[j] != c,
        decreases n - i,
    {
        if s.get_char(i) == c {
            proof {
                assert(s@[i as int] == c);
                lemma_first_pos(s@, c);
            }
            return Some(i);
        }
        i += 1;
    }
    None
}

fn rfind_char(s: &str, c: char) -> (r: Option<usize>)
    ensures
        match r {
            Some(i) => has_char(s@, c) && i < s@.len() && i as int == last_pos(s@, c),
            None => !has_char(s@, c),
        },
{
    let n = s.unicode_len();
    let mut i: usize = n;
    while i > 0
        invariant
            i <= n == s@.len(),
            forall|j: int| i <= j < n ==> s@[j] != c,
        decreases i,
    {
        i -= 1;
        if s.get_char(i) == c {
            proof {
                assert(s@[i as int] == c);
                lemma_last_pos(s@, c);
            }
            return Some(i);
        }
    }
    None
}

proof fn lemma_exprs_view_push(es: Seq<Expr>, e: Expr)
    ensures
        exprs_view(es.push(e)) == exprs_view(es).push(expr_view(e)),
    decreases es.len(),
{
    if es.len() == 0 {
        assert(es.push(e)[0] == e);
        assert(es.push(e).drop_first() =~= es);
        assert(exprs_view(es.push(e)) =~= exprs_view(es).push(expr_view(e)));
    } else {
        assert(es.push(e)[0] == es[0]);
        assert(es.push(e).drop_first() =~= es.drop_first().push(e));
        lemma_exprs_view_push(es.drop_first(), e);
        assert(seq![expr_view(es[0])] + exprs_view(es.drop_first()).push(expr_view(e))
            =~= (seq![expr_view(es[0])] + exprs_view(es.drop_first())).push(expr_view(e)));
    }
}

proof fn lemma_exprs_view_concat(a: Seq<Expr>, b: Seq<Expr>)
    ensures
        exprs_view(a + b) == exprs_view(a) + exprs_view(b),
    decreases a.len(),
{
    if a.len() == 0 {
        assert(a + b =~= b);
        assert(exprs_view(a) + exprs_view(b) =~= exprs_view(b));
    } else {
        assert((a + b)[0] == a[0]);
        assert((a + b).drop_first() =~= a.drop_first() + b);
        lemma_exprs_view_concat(a.drop_first(), b);
        assert(seq![expr_view(a[0])] + (exprs_view(a.drop_first()) + exprs_view(b))
            =~= (seq![expr_view(a[0])] + exprs_view(a.drop_first())) + exprs_view(b));
    }
}

/// Parses each argument fragment in order; the first failure wins.
fn parse_fragments(toks: &Vec<String>, bound: Ghost<int>) -> (r: Result<Vec<Expr>, ParseError>)
    requires
        0 <= bound@,
        forall|i: int| 0 <= i < toks@.len() ==> #[trigger] toks@[i]@.len() < bound@,
    ensures
        (match r {
            Ok(es) => spec_parse_args(bound@, strings_view(toks@)) == Ok::<
                Seq<ExprView>,
                ParseErrorView,
            >(exprs_view(es@)),
            Err(e) => spec_parse_args(bound@, strings_view(toks@)) == Err::<
                Seq<ExprView>,
                ParseErrorView,
            >(e.deep_view()),
        }),
    decreases bound@, 1int, 0int,
{
    let ghost full = strings_view(toks@);
    let mut out: Vec<Expr> = Vec::new();
    let mut i: usize = 0;
    proof {
        assert(full.skip(0) =~= full);
        assert(exprs_view(out@) =~= Seq::<ExprView>::empty());
    }
    while i < toks.len()
        invariant
            0 <= bound@,
            forall|k: int| 0 <= k < toks@.len() ==> #[trigger] toks@[k]@.len() < bound@,
            i <= toks@.len(),
            full == strings_view(toks@),
            (match spec_parse_args(bound@, full.skip(i as int)) {
                Ok(rest) => spec_parse_args(bound@, full) == Ok::<
                    Seq<ExprView>,
                    ParseErrorView,
                >(exprs_view(out@) + rest),
                Err(e) => spec_parse_args(bound@, full) == Err::<Seq<ExprView>, ParseErrorView>(e),
            }),
        decreases toks@.len() - i,
    {
        proof {
            assert(full.skip(i as int)[0] == toks@[i as int]@);
            assert(full.skip(i as int).drop_first() =~= full.skip(i as int + 1));
            assert(forall|k: int|
                0 <= k < full.skip(i as int).len() ==> #[trigger] full.skip(i as int)[k].len()
                    < bound@);
        }
        match try_parse_expr(toks[i].as_str()) {
            Ok(e) => {
                let ghost old_out = out@;
                out.push(e);
                proof {
                    lemma_exprs_view_push(old_out, e);
                    if let Ok(rest) = spec_parse_args(bound@, full.skip(i as int + 1)) {
                        assert(exprs_view(old_out) + (seq![expr_view(e)] + rest) =~= exprs_view(
                            out@,
                        ) + rest);
                    }
                }
            },
            Err(e) => {
                return Err(e);
            },
        }
        i += 1;
    }
    proof {
        assert(full.skip(toks@.len() as int).len() == 0);
        assert(exprs_view(out@) + Seq::<ExprView>::empty() =~= exprs_view(out@));
    }
    Ok(out)
}

/// Parses a trimmed fragment as an expression: a symbol, a call form
/// — whose argument text is tokenized at single spaces, or, when it
/// opens a nested group, decomposed at the first `(` and the last `)`
/// into leading siblings, one nested call, and trailing siblings —
/// or, failing both, an atomic value.
pub fn try_parse_expr(src: &str) -> (r: Result<Expr, ParseError>)
    ensures
        expr_result_view(r) == spec_parse_expr(src@),
    decreases src@.len(), 0int, 0int,
{
    let n = src.unicode_len();
    if check_sym(src) {
        return Ok(Expr::Sym(String::from_str(src)));
    }
    if n >= 3 && src.get_char(0) == '(' && src.get_char(n - 1) == ')' {
        proof {
            lemma_skip_spaces(src@, 1);
        }
        let i = skip_spaces_x(src, 1);
        if i < n && sym_start_char(src.get_char(i)) {
            assert(is_func_text(src@));
            proof {
                lemma_skip_sym_chars(src@, i as int);
            }
            let j = skip_sym_x(src, i);
            assert(j < n) by {
                assert(!is_sym_char(src@[n - 1]));
            }
            proof {
                lemma_skip_spaces(src@, j as int);
            }
            let k = skip_spaces_x(src, j);
            assert(k < n) by {
                assert(!is_space(src@[n - 1]));
            }
            let name = String::from_str(src.substring_char(i, j));
            assert(name@ == func_name(src@));
            let args_s = src.substring_char(k, n - 1);
            assert(args_s@ == func_args(src@));
            let args_len = args_s.unicode_len();
            match find_char(args_s, '(') {
                Some(b) => {
                    proof {
                        lemma_first_pos(args_s@, '(');
                    }
                    let before = args_s.substring_char(0, b);
                    let na = args_s.substring_char(b + 1, args_len);
                    match rfind_char(na, ')') {
                        None => {
                            return Err(ParseError::Unmatched(String::from_str(src)));
                        },
                        Some(c) => {
                            proof {
                                lemma_last_pos(na@, ')');
                            }
                            let na_len = na.unicode_len();
                            let nested = na.substring_char(0, c);
                            let after = na.substring_char(c + 1, na_len);
                            let mut nf = String::from_str("(");
                            nf.append(nested);
                            nf.append(")");
                            proof {
                                reveal_strlit("(");
                                reveal_strlit(")");
                                assert(nf@ =~= seq!['('] + na@.subrange(0, c as int) + seq![')']);
                                lemma_tokens_len(before@, src@.len() - 2);
                                lemma_tokens_len(after@, src@.len() - 2);
                            }
                            let btoks = tokenize(before);
                            proof {
                                assert forall|idx: int| 0 <= idx < btoks@.len() implies #[trigger]
                                btoks@[idx]@.len() < src@.len() - 1 by {
                                    assert(strings_view(btoks@)[idx] == btoks@[idx]@);
                                    assert(tokens_of(before@)[idx].len() <= src@.len() - 2);
                                }
                            }
                            let mut args_vec: Vec<Expr>;
                            match parse_fragments(&btoks, Ghost(src@.len() - 1)) {
                                Err(e) => {
                                    return Err(e);
                                },
                                Ok(v) => {
                                    args_vec = v;
                                },
                            }
                            let ghost bargs = exprs_view(args_vec@);
                            match try_parse_expr(nf.as_str()) {
                                Err(e) => {
                                    return Err(e);
                                },
                                Ok(ne) => {
                                    let ghost old_args = args_vec@;
                                    let ghost ne_v = expr_view(ne);
                                    args_vec.push(ne);
                                    proof {
                                        lemma_exprs_view_push(old_args, ne);
                                    }
                                    let atoks = tokenize(after);
                                    proof {
                                        assert forall|idx: int|
                                            0 <= idx < atoks@.len() implies #[trigger]
                                        atoks@[idx]@.len() < src@.len() - 1 by {
                                            assert(strings_view(atoks@)[idx] == atoks@[idx]@);
                                            assert(tokens_of(after@)[idx].len() <= src@.len() - 2);
                                        }
                                    }
                                    match parse_fragments(&atoks, Ghost(src@.len() - 1)) {
                                        Err(e) => {
                                            return Err(e);
                                        },
                                        Ok(mut av) => {
                                            let ghost pre = args_vec@;
                                            let ghost av0 = av@;
                                            args_vec.append(&mut av);
                                            proof {
                                                lemma_exprs_view_concat(pre, av0);
                                                assert(exprs_view(args_vec@) =~= bargs + seq![ne_v]
                                                    + exprs_view(av0));
                                            }
                                            return Ok(Expr::Func(name, args_vec));
                                        },
                                    }
                                },
                            }
                        },
                    }
                },
                None => {
                    proof {
                        lemma_tokens_len(args_s@, src@.len() - 2);
                    }
                    let toks = tokenize(args_s);
                    proof {
                        assert forall|idx: int| 0 <= idx < toks@.len() implies #[trigger]
                        toks@[idx]@.len() < src@.len() - 1 by {
                            assert(strings_view(toks@)[idx] == toks@[idx]@);
                            assert(tokens_of(args_s@)[idx].len() <= src@.len() - 2);
                        }
                    }
                    match parse_fragments(&toks, Ghost(src@.len() - 1)) {
                        Err(e) => {
                            return Err(e);
                        },
                        Ok(v) => {
                            return Ok(Expr::Func(name, v));
                        },
                    }
                },
            }
        } else {
            assert(!is_func_text(src@));
        }
    }
    assert(!is_sym_text(src@) && !is_func_text(src@));
    match try_parse_atom(src) {
        Ok(v) => Ok(Expr::Atom(v)),
        Err(e) => Err(e),
    }
}

} // verus!
