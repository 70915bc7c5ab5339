//! The evaluation environment and the evaluator.
//!
//! The environment is a write-once symbol table: a name, once bound,
//! can never be rebound.  Evaluation resolves atoms to themselves and
//! symbols through the table; call forms evaluate their arguments
//! left to right and then fail, since the registry of built-in
//! operations is an open extension point that holds no operations.

use vstd::prelude::*;
use crate::ast::{
    Val, Expr, ValView, ExprView, val_view, expr_view, exprs_view, lemma_exprs_view_index,
    lemma_exprs_view_len,
};
use crate::grammar::{ParseError, ParseErrorView};

verus! {

/// A failure of the symbol table, naming the symbol.
#[derive(Debug, PartialEq)]
pub enum NameError {
    /// `bind` was asked to rebind an already-bound name.
    Redefinition(String),
    /// A lookup found no binding for the name.
    Undefined(String),
}

/// The mathematical model of a [`NameError`].
pub enum NameErrorView {
    Redefinition(Seq<char>),
    Undefined(Seq<char>),
}

impl DeepView for NameError {
    type V = NameErrorView;

    open spec fn deep_view(&self) -> NameErrorView {
        match self {
            NameError::Redefinition(n) => NameErrorView::Redefinition(n@),
            NameError::Undefined(n) => NameErrorView::Undefined(n@),
        }
    }
}

/// A failure of evaluation.
#[derive(Debug, PartialEq)]
pub enum EvalError {
    /// A symbol could not be resolved.
    Name(NameError),
    /// A call form named a function, but the registry of built-in
    /// operations holds none.
    UnknownFunction(String),
}

/// The mathematical model of an [`EvalError`].
pub enum EvalErrorView {
    Name(NameErrorView),
    UnknownFunction(Seq<char>),
}

impl DeepView for EvalError {
    type V = EvalErrorView;

    open spec fn deep_view(&self) -> EvalErrorView {
        match self {
            EvalError::Name(n) => EvalErrorView::Name(n.deep_view()),
            EvalError::UnknownFunction(n) => EvalErrorView::UnknownFunction(n@),
        }
    }
}

/// Any failure the interpreter front-end can report.
#[derive(Debug, PartialEq)]
pub enum Error {
    Parse(ParseError),
    Name(NameError),
    Eval(EvalError),
}

/// The mathematical model of an [`Error`].
pub enum ErrorView {
    Parse(ParseErrorView),
    Name(NameErrorView),
    Eval(EvalErrorView),
}

impl DeepView for Error {
    type V = ErrorView;

    open spec fn deep_view(&self) -> ErrorView {
        match self {
            Error::Parse(e) => ErrorView::Parse(e.deep_view()),
            Error::Name(e) => ErrorView::Name(e.deep_view()),
            Error::Eval(e) => ErrorView::Eval(e.deep_view()),
        }
    }
}

/// The report line for a symbol-table failure.
pub open spec fn name_err_msg(e: NameErrorView) -> Seq<char> {
    match e {
        NameErrorView::Redefinition(n) => "cannot reassign name `"@ + n + "`"@,
        NameErrorView::Undefined(n) => "name `"@ + n + "` is undefined"@,
    }
}

/// The report line for a failure: its kind and the offending
/// fragment or name.
pub open spec fn err_msg(e: ErrorView) -> Seq<char> {
    match e {
        ErrorView::Parse(ParseErrorView::Malformed(f)) => "malformed value: `"@ + f + "`"@,
        ErrorView::Parse(ParseErrorView::Overflow(f)) => "numeric overflow in: `"@ + f + "`"@,
        ErrorView::Parse(ParseErrorView::ListNotSupported(f)) => "list literals are not supported: `"@
            + f + "`"@,
        ErrorView::Parse(ParseErrorView::Unmatched(f)) => "unmatched parentheses in: `"@ + f
            + "`"@,
        ErrorView::Name(n) => name_err_msg(n),
        ErrorView::Eval(EvalErrorView::Name(n)) => name_err_msg(n),
        ErrorView::Eval(EvalErrorView::UnknownFunction(n)) => "unknown function `"@ + n + "`"@,
    }
}

fn name_err_to_string(err: &NameError) -> (r: String)
    ensures
        r@ == name_err_msg(err.deep_view()),
{
    match err {
        NameError::Redefinition(n) => {
            let mut m = String::from_str("cannot reassign name `");
            m.append(n.as_str());
            m.append("`");
            m
        },
        NameError::Undefined(n) => {
            let mut m = String::from_str("name `");
            m.append(n.as_str());
            m.append("` is undefined");
            m
        },
    }
}

/// Renders a failure for an external consumer, naming its kind and
/// the fragment or symbol it concerns.
pub fn err_to_string(err: &Error) -> (r: String)
    ensures
        r@ == err_msg(err.deep_view()),
{
    match err {
        Error::Parse(ParseError::Malformed(f)) => {
            let mut m = String::from_str("malformed value: `");
            m.append(f.as_str());
            m.append("`");
            m
        },
        Error::Parse(ParseError::Overflow(f)) => {
            let mut m = String::from_str("numeric overflow in: `");
            m.append(f.as_str());
            m.append("`");
            m
        },
        Error::Parse(ParseError::ListNotSupported(f)) => {
            let mut m = String::from_str("list literals are not supported: `");
            m.append(f.as_str());
            m.append("`");
            m
        },
        Error::Parse(ParseError::Unmatched(f)) => {
            let mut m = String::from_str("unmatched parentheses in: `");
            m.append(f.as_str());
            m.append("`");
            m
        },
        Error::Name(n) => name_err_to_string(n),
        Error::Eval(EvalError::Name(n)) => name_err_to_string(n),
        Error::Eval(EvalError::UnknownFunction(n)) => {
            let mut m = String::from_str("unknown function `");
            m.append(n.as_str());
            m.append("`");
            m
        },
    }
}

// ---------------------------------------------------------------------------
// What evaluation yields
// ---------------------------------------------------------------------------

/// What evaluating an expression against an environment yields: an
/// atom is its own value, a symbol resolves through the environment,
/// and a call form evaluates its arguments left to right — the first
/// failure wins — and then fails as an unknown function, the
/// registry of built-ins being empty.
pub open spec fn spec_eval(e: ExprView, env: Map<Seq<char>, ValView>) -> Result<
    ValView,
    EvalErrorView,
>
    decreases e, 0int,
{
    match e {
        ExprView::Atom(v) => Ok(v),
        ExprView::Sym(s) => if env.dom().contains(s) {
            Ok(env[s])
        } else {
            Err(EvalErrorView::Name(NameErrorView::Undefined(s)))
        },
        ExprView::Func(name, args) => match spec_eval_args(args, env) {
            Err(e) => Err(e),
            Ok(_) => Err(EvalErrorView::UnknownFunction(name)),
        },
    }
}

/// What evaluating an argument list yields: each value in order, or
/// the first failure.
pub open spec fn spec_eval_args(args: Seq<ExprView>, env: Map<Seq<char>, ValView>) -> Result<
    Seq<ValView>,
    EvalErrorView,
>
    decreases args, 1int,
{
    if args.len() == 0 {
        Ok(Seq::empty())
    } else {
        match spec_eval(args[0], env) {
            Err(e) => Err(e),
            Ok(v) => match spec_eval_args(args.drop_first(), env) {
                Err(e) => Err(e),
                Ok(rest) => Ok(seq![v] + rest),
            },
        }
    }
}

// ---------------------------------------------------------------------------
// The environment
// ---------------------------------------------------------------------------

/// The model of a binding list: later entries would win, but the
/// write-once discipline keeps every key unique.
pub open spec fn entries_map(entries: Seq<(String, Val)>) -> Map<Seq<char>, ValView>
    decreases entries.len(),
{
    if entries.len() == 0 {
        Map::empty()
    } else {
        entries_map(entries.drop_last()).insert(
            entries.last().0@,
            val_view(entries.last().1),
        )
    }
}

proof fn lemma_entries_map_absent(entries: Seq<(String, Val)>, key: Seq<char>)
    requires
        forall|i: int| 0 <= i < entries.len() ==> (#[trigger] entries[i].0)@ != key,
    ensures
        !entries_map(entries).dom().contains(key),
    decreases entries.len(),
{
    if entries.len() > 0 {
        assert(entries[entries.len() - 1].0@ != key);
        assert(forall|i: int|
            0 <= i < entries.drop_last().len() ==> (#[trigger] entries.drop_last()[i].0)@ != key);
        lemma_entries_map_absent(entries.drop_last(), key);
    }
}

proof fn lemma_entries_map_found(entries: Seq<(String, Val)>, i: int)
    requires
        0 <= i < entries.len(),
        forall|p: int, q: int|
            0 <= p < q < entries.len() ==> (#[trigger] entries[p].0)@ != (#[trigger] entries[q].0)@,
    ensures
        entries_map(entries).dom().contains(entries[i].0@),
        entries_map(entries)[entries[i].0@] == val_view(entries[i].1),
    decreases entries.len(),
{
    if i < entries.len() - 1 {
        assert(forall|p: int, q: int|
            0 <= p < q < entries.drop_last().len() ==> (#[trigger] entries.drop_last()[p].0)@ != (
            #[trigger] entries.drop_last()[q].0)@);
        lemma_entries_map_found(entries.drop_last(), i);
        assert(entries[i].0@ != entries.last().0@);
    }
}

/// A mutable symbol environment with write-once bindings.
pub struct System {
    mappings: Vec<(String, Val)>,
}

impl System {
    /// The environment as a mathematical map from symbol names to
    /// value models.
    pub closed spec fn env(self) -> Map<Seq<char>, ValView> {
        entries_map(self.mappings@)
    }

    /// No name is bound twice.
    pub closed spec fn wf(self) -> bool {
        forall|p: int, q: int|
            0 <= p < q < self.mappings@.len() ==> (#[trigger] self.mappings@[p].0)@ != (
            #[trigger] self.mappings@[q].0)@
    }

    /// An empty environment.
    pub fn new() -> (r: Self)
        ensures
            r.wf(),
            r.env() == Map::<Seq<char>, ValView>::empty(),
    {
        Self { mappings: Vec::new() }
    }

    /// Finds the index of a binding, or reports that none exists.
    fn index_of(&self, sym: &String) -> (r: Option<usize>)
        requires
            self.wf(),
        ensures
            match r {
                Some(i) => i < self.mappings@.len() && self.mappings@[i as int].0@ == sym@
                    && self.env().dom().contains(sym@) && self.env()[sym@] == val_view(
                    self.mappings@[i as int].1,
                ),
                None => !self.env().dom().contains(sym@),
            },
    {
        let mut i: usize = 0;
        while i < self.mappings.len()
            invariant
                i <= self.mappings@.len(),
                self.wf(),
                forall|j: int| 0 <= j < i ==> (#[trigger] self.mappings@[j].0)@ != sym@,
            decreases self.mappings@.len() - i,
        {
            if self.mappings[i].0 == *sym {
                proof {
                    lemma_entries_map_found(self.mappings@, i as int);
                }
                return Some(i);
            }
            i += 1;
        }
        proof {
            lemma_entries_map_absent(self.mappings@, sym@);
        }
        None
    }

    /// Binds `sym` to `val` if `sym` is unbound; an already-bound
    /// name is a redefinition error and leaves the environment
    /// entirely unchanged.
    pub fn set(&mut self, sym: String, val: Val) -> (r: Result<(), NameError>)
        requires
            old(self).wf(),
        ensures
            final(self).wf(),
            match r {
                Ok(()) => !old(self).env().dom().contains(sym@) && final(self).env() == old(
                    self,
                ).env().insert(sym@, val.deep_view()),
                Err(e) => old(self).env().dom().contains(sym@) && *final(self) == *old(self)
                    && e.deep_view() == NameErrorView::Redefinition(sym@),
            },
    {
        match self.index_of(&sym) {
            Some(_) => Err(NameError::Redefinition(sym)),
            None => {
                let ghost old_entries = self.mappings@;
                let ghost key = sym@;
                let ghost vv = val_view(val);
                self.mappings.push((sym, val));
                proof {
                    assert(self.mappings@.drop_last() =~= old_entries);
                    assert(self.mappings@.last().0@ == key);
                    assert(val_view(self.mappings@.last().1) == vv);
                    assert forall|p: int, q: int|
                        0 <= p < q < self.mappings@.len() implies (
                    #[trigger] self.mappings@[p].0)@ != (#[trigger] self.mappings@[q].0)@ by {
                        if q == self.mappings@.len() - 1 {
                            assert(old_entries[p].0@ != key) by {
                                if old_entries[p].0@ == key {
                                    lemma_entries_map_found(old_entries, p);
                                }
                            }
                        }
                    }
                }
                Ok(())
            },
        }
    }

    /// Looks `sym` up and returns a copy of its value; an unbound
    /// name is an undefined-name error.
    pub fn get(&self, sym: String) -> (r: Result<Val, NameError>)
        requires
            self.wf(),
        ensures
            match r {
                Ok(v) => self.env().dom().contains(sym@) && v.deep_view() == self.env()[sym@],
                Err(e) => !self.env().dom().contains(sym@) && e.deep_view()
                    == NameErrorView::Undefined(sym@),
            },
    {
        match self.index_of(&sym) {
            Some(i) => Ok(self.mappings[i].1.clone()),
            None => Err(NameError::Undefined(sym)),
        }
    }

    /// Evaluates an expression against this environment, which it
    /// never changes.
    pub fn eval(&mut self, expr: &Expr) -> (r: Result<Val, EvalError>)
        requires
            old(self).wf(),
        ensures
            *final(self) == *old(self),
            final(self).wf(),
            match r {
                Ok(v) => spec_eval(expr.deep_view(), old(self).env()) == Ok::<
                    ValView,
                    EvalErrorView,
                >(v.deep_view()),
                Err(e) => spec_eval(expr.deep_view(), old(self).env()) == Err::<
                    ValView,
                    EvalErrorView,
                >(e.deep_view()),
            },
        decreases expr,
    {
        match expr {
            Expr::Atom(v) => Ok(v.clone()),
            Expr::Sym(s) => match self.get(s.clone()) {
                Ok(v) => Ok(v),
                Err(e) => Err(EvalError::Name(e)),
            },
            Expr::Func(name, args) => {
                let ghost full = exprs_view(args@);
                let mut i: usize = 0;
                proof {
                    assert(full.skip(0) =~= full);
                }
                #[verifier::loop_isolation(false)]
                while i < args.len()
                    invariant
                        i <= args@.len(),
                        *self == *old(self),
                        match spec_eval_args(full.skip(i as int), old(self).env()) {
                            Ok(rest) => spec_eval_args(full, old(self).env()) is Ok,
                            Err(e) => spec_eval_args(full, old(self).env()) == Err::<
                                Seq<ValView>,
                                EvalErrorView,
                            >(e),
                        },
                    decreases args@.len() - i,
                {
                    proof {
                        assert(decreases_to!(*expr => (*expr)->Func_1));
                        assert(decreases_to!(*args => (*args)[i as int]));
                        lemma_exprs_view_index(args@, i as int);
                        assert(full.skip(i as int)[0] == expr_view(args@[i as int]));
                        assert(full.skip(i as int).drop_first() =~= full.skip(i as int + 1));
                    }
                    match self.eval(&args[i]) {
                        Ok(_) => {},
                        Err(e) => {
                            return Err(e);
                        },
                    }
                    i += 1;
                }
                proof {
                    lemma_exprs_view_len(args@);
                    assert(full.skip(args@.len() as int).len() == 0);
                }
                Err(EvalError::UnknownFunction(name.clone()))
            },
        }
    }
}

} // verus!
