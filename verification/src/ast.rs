//! The value and expression trees that the parser produces and the
//! evaluator consumes, together with their mathematical models.

use vstd::prelude::*;

verus! {

/// A runtime value.
///
/// Floating-point literals are carried as their source digits
/// (`Float("12.5")`): the interpreter core performs no floating-point
/// arithmetic, so the text is the value, and an embedder converts it
/// to a machine float only at the boundary where it is consumed.
#[derive(Debug, PartialEq)]
pub enum Val {
    Int(i64),
    Float(String),
    Str(String),
    List(Vec<Val>),
}

/// An expression tree node: a bare symbol, a literal value, or a
/// function-call form with its argument expressions.
#[derive(Debug, PartialEq)]
pub enum Expr {
    Sym(String),
    Atom(Val),
    Func(String, Vec<Expr>),
}

/// The mathematical model of a [`Val`]: strings become `Seq<char>`,
/// integers become `int`, lists become `Seq`.
pub enum ValView {
    Int(int),
    Float(Seq<char>),
    Str(Seq<char>),
    List(Seq<ValView>),
}

/// The mathematical model of an [`Expr`].
pub enum ExprView {
    Sym(Seq<char>),
    Atom(ValView),
    Func(Seq<char>, Seq<ExprView>),
}

pub open spec fn val_view(v: Val) -> ValView
    decreases v, 0int,
{
    match v {
        Val::Int(i) => ValView::Int(i as int),
        Val::Float(t) => ValView::Float(t@),
        Val::Str(t) => ValView::Str(t@),
        Val::List(vs) => ValView::List(vals_view(vs@)),
    }
}

pub open spec fn vals_view(vs: Seq<Val>) -> Seq<ValView>
    decreases vs, 1int,
{
    if vs.len() == 0 {
        Seq::empty()
    } else {
        seq![val_view(vs[0])] + vals_view(vs.drop_first())
    }
}

pub open spec fn expr_view(e: Expr) -> ExprView
    decreases e, 0int,
{
    match e {
        Expr::Sym(s) => ExprView::Sym(s@),
        Expr::Atom(v) => ExprView::Atom(val_view(v)),
        Expr::Func(name, args) => ExprView::Func(name@, exprs_view(args@)),
    }
}

pub open spec fn exprs_view(es: Seq<Expr>) -> Seq<ExprView>
    decreases es, 1int,
{
    if es.len() == 0 {
        Seq::empty()
    } else {
        seq![expr_view(es[0])] + exprs_view(es.drop_first())
    }
}

impl DeepView for Val {
    type V = ValView;

    open spec fn deep_view(&self) -> ValView {
        val_view(*self)
    }
}

pub proof fn lemma_exprs_view_index(es: Seq<Expr>, i: int)
    requires
        0 <= i < es.len(),
    ensures
        exprs_view(es).len() == es.len(),
        exprs_view(es)[i] == expr_view(es[i]),
    decreases es.len(),
{
    lemma_exprs_view_len(es);
    if i > 0 {
        lemma_exprs_view_index(es.drop_first(), i - 1);
    }
}

pub proof fn lemma_exprs_view_len(es: Seq<Expr>)
    ensures
        exprs_view(es).len() == es.len(),
    decreases es.len(),
{
    if es.len() > 0 {
        lemma_exprs_view_len(es.drop_first());
    }
}

pub proof fn lemma_vals_view_push(vs: Seq<Val>, v: Val)
    ensures
        vals_view(vs.push(v)) == vals_view(vs).push(val_view(v)),
    decreases vs.len(),
{
    if vs.len() == 0 {
        assert(vs.push(v)[0] == v);
        assert(vs.push(v).drop_first() =~= vs);
        assert(vals_view(vs.push(v)) =~= vals_view(vs).push(val_view(v)));
    } else {
        assert(vs.push(v)[0] == vs[0]);
        assert(vs.push(v).drop_first() =~= vs.drop_first().push(v));
        lemma_vals_view_push(vs.drop_first(), v);
        assert(seq![val_view(vs[0])] + vals_view(vs.drop_first()).push(val_view(v)) =~= (seq![
            val_view(vs[0]),
        ] + vals_view(vs.drop_first())).push(val_view(v)));
    }
}

impl Clone for Val {
    /// A deep copy: the copy has the same model as the original.
    fn clone(&self) -> (r: Val)
        ensures
            r.deep_view() == self.deep_view(),
        decreases self,
    {
        match self {
            Val::Int(i) => Val::Int(*i),
            Val::Float(t) => Val::Float(t.clone()),
            Val::Str(t) => Val::Str(t.clone()),
            Val::List(vs) => {
                let mut out: Vec<Val> = Vec::new();
                let mut i: usize = 0;
                proof {
                    assert(vals_view(out@) =~= vals_view(vs@.take(0)));
                }
                #[verifier::loop_isolation(false)]
                while i < vs.len()
                    invariant
                        i <= vs@.len(),
                        vals_view(out@) == vals_view(vs@.take(i as int)),
                    decreases vs@.len() - i,
                {
                    proof {
                        assert(decreases_to!(*self => (*self)->List_0));
                        assert(decreases_to!(*vs => (*vs)[i as int]));
                    }
                    let c = vs[i].clone();
                    let ghost cv = c;
                    let ghost old_out = out@;
                    out.push(c);
                    proof {
                        lemma_vals_view_push(old_out, cv);
                        assert(vs@.take(i + 1) =~= vs@.take(i as int).push(vs@[i as int]));
                        lemma_vals_view_push(vs@.take(i as int), vs@[i as int]);
                    }
                    i += 1;
                }
                proof {
                    assert(vs@.take(vs@.len() as int) =~= vs@);
                }
                Val::List(out)
            },
        }
    }
}

impl DeepView for Expr {
    type V = ExprView;

    open spec fn deep_view(&self) -> ExprView {
        expr_view(*self)
    }
}

} // verus!
