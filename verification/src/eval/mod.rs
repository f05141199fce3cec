//! The evaluator: runtime values, the errors of evaluation, and the walk
//! over the expression tree.

pub mod env;
pub mod model;
pub mod prim;

use crate::lexer::Span;
use crate::number::{integer_text, push_integer};
use crate::parser::{node_models, Ast, AstModel};
use self::env::lemma_restore_snapshot;
pub use self::env::Env;
use self::model::{eval_args, eval_body, eval_list, eval_model, ArgsOutcome, Outcome};
use self::prim::{arg_models, result_model, Prim};
use vstd::prelude::*;

verus! {

/// A name: the key under which the environment holds a value.
#[derive(Debug, Hash, PartialEq, Eq, PartialOrd, Ord)]
pub struct Symbol(pub String);

impl View for Symbol {
    type V = Seq<char>;

    open spec fn view(&self) -> Seq<char> {
        self.0@
    }
}

impl Clone for Symbol {
    fn clone(&self) -> (r: Symbol)
        ensures
            r@ == self@,
    {
        Symbol(self.0.clone())
    }
}

/// Why an expression has no value.
#[derive(Debug, PartialEq, Eq)]
pub enum EvalError {
    /// A divisor that is zero, at the span of the divisor; or divisors that
    /// add up to zero, at the span of the call.
    DivisionByZero(Span),
    /// The word `def` with nothing to define.
    EmptyDef(Span),
    /// A call of a name that is bound to something that cannot be called.
    NotAFunction(Span, Symbol),
    /// An argument that is not an integer where one is needed.
    InvalidType(Span),
    /// A name that is not bound.
    UnknownDef(Span, Symbol),
    /// A call with the wrong number of arguments.
    WrongArity(Span),
    /// A list that is neither empty, nor a definition, nor a call of a
    /// name.
    InvalidForm(Span),
    /// A call nested deeper in other calls than the evaluator allows.
    RecursionTooDeep(Span),
}

/// An evaluation error with its symbol as a sequence of characters.
pub enum EvalErrorModel {
    DivisionByZero(Span),
    EmptyDef(Span),
    NotAFunction(Span, Seq<char>),
    InvalidType(Span),
    UnknownDef(Span, Seq<char>),
    WrongArity(Span),
    InvalidForm(Span),
    RecursionTooDeep(Span),
}

impl View for EvalError {
    type V = EvalErrorModel;

    open spec fn view(&self) -> EvalErrorModel {
        match self {
            EvalError::DivisionByZero(span) => EvalErrorModel::DivisionByZero(*span),
            EvalError::EmptyDef(span) => EvalErrorModel::EmptyDef(*span),
            EvalError::NotAFunction(span, name) => EvalErrorModel::NotAFunction(*span, name@),
            EvalError::InvalidType(span) => EvalErrorModel::InvalidType(*span),
            EvalError::UnknownDef(span, name) => EvalErrorModel::UnknownDef(*span, name@),
            EvalError::WrongArity(span) => EvalErrorModel::WrongArity(*span),
            EvalError::InvalidForm(span) => EvalErrorModel::InvalidForm(*span),
            EvalError::RecursionTooDeep(span) => EvalErrorModel::RecursionTooDeep(*span),
        }
    }
}

impl EvalErrorModel {
    /// The message of the error, as `EvalError::as_string` renders it.
    pub open spec fn text(self) -> Seq<char> {
        match self {
            EvalErrorModel::DivisionByZero(span) => "division by zero at "@ + span.text(),
            EvalErrorModel::EmptyDef(span) => "empty def at "@ + span.text(),
            EvalErrorModel::NotAFunction(span, name) => "`"@ + name + "` is not a function at "@
                + span.text(),
            EvalErrorModel::InvalidType(span) => "unexpected argument type at "@ + span.text(),
            EvalErrorModel::UnknownDef(span, name) => "undefined symbol: `"@ + name + "` at "@
                + span.text(),
            EvalErrorModel::WrongArity(span) => "wrong arity at "@ + span.text(),
            EvalErrorModel::InvalidForm(span) => "cannot evaluate this form at "@ + span.text(),
            EvalErrorModel::RecursionTooDeep(span) => "recursion too deep at "@ + span.text(),
        }
    }
}

impl EvalError {
    /// The error as a sentence for the user.
    pub fn as_string(&self) -> (r: String)
        ensures
            r@ == self@.text(),
    {
        match self {
            EvalError::DivisionByZero(span) => {
                let mut out = "division by zero at ".to_owned();
                out.append(span.as_string().as_str());
                out
            },
            EvalError::EmptyDef(span) => {
                let mut out = "empty def at ".to_owned();
                out.append(span.as_string().as_str());
                out
            },
            EvalError::NotAFunction(span, name) => {
                let mut out = "`".to_owned();
                out.append(name.0.as_str());
                out.append("` is not a function at ");
                out.append(span.as_string().as_str());
                out
            },
            EvalError::InvalidType(span) => {
                let mut out = "unexpected argument type at ".to_owned();
                out.append(span.as_string().as_str());
                out
            },
            EvalError::UnknownDef(span, name) => {
                let mut out = "undefined symbol: `".to_owned();
                out.append(name.0.as_str());
                out.append("` at ");
                out.append(span.as_string().as_str());
                out
            },
            EvalError::WrongArity(span) => {
                let mut out = "wrong arity at ".to_owned();
                out.append(span.as_string().as_str());
                out
            },
            EvalError::InvalidForm(span) => {
                let mut out = "cannot evaluate this form at ".to_owned();
                out.append(span.as_string().as_str());
                out
            },
            EvalError::RecursionTooDeep(span) => {
                let mut out = "recursion too deep at ".to_owned();
                out.append(span.as_string().as_str());
                out
            },
        }
    }
}

/// A runtime value.
#[derive(Debug, PartialEq, Eq)]
pub enum Object {
    /// An integer.
    Int(i128),
    /// A function of the user: its parameters and the expressions of its
    /// body.
    Lambda(Vec<Symbol>, Vec<Ast>),
    /// The empty value.
    Nil,
    /// One of the built-in operators.
    PrimOp(Prim),
}

/// A runtime value as a mathematical value.
pub enum ObjectModel {
    Int(i128),
    Lambda(Seq<Seq<char>>, Seq<AstModel>),
    Nil,
    PrimOp(Prim),
}

/// The names of a run of symbols.
pub open spec fn symbol_models(symbols: Seq<Symbol>) -> Seq<Seq<char>> {
    Seq::new(symbols.len(), |i: int| symbols[i]@)
}

/// The models of the expressions of a body.
pub open spec fn body_models(body: Seq<Ast>) -> Seq<AstModel> {
    Seq::new(body.len(), |i: int| body[i]@)
}

impl View for Object {
    type V = ObjectModel;

    open spec fn view(&self) -> ObjectModel {
        match self {
            Object::Int(n) => ObjectModel::Int(*n),
            Object::Lambda(params, body) => ObjectModel::Lambda(
                symbol_models(params@),
                body_models(body@),
            ),
            Object::Nil => ObjectModel::Nil,
            Object::PrimOp(p) => ObjectModel::PrimOp(*p),
        }
    }
}

/// Copies a run of symbols.
pub fn clone_symbols(symbols: &Vec<Symbol>) -> (r: Vec<Symbol>)
    ensures
        symbol_models(r@) == symbol_models(symbols@),
{
    let mut copies: Vec<Symbol> = Vec::new();
    let mut i: usize = 0;
    while i < symbols.len()
        invariant
            i <= symbols.len(),
            copies.len() == i,
            forall|j: int| 0 <= j < i ==> copies[j]@ == symbols[j]@,
        decreases symbols.len() - i,
    {
        copies.push(symbols[i].clone());
        i += 1;
    }
    assert(symbol_models(copies@) =~= symbol_models(symbols@));
    copies
}

/// Copies the expressions of a body.
pub fn clone_body(body: &Vec<Ast>) -> (r: Vec<Ast>)
    ensures
        body_models(r@) == body_models(body@),
{
    let mut copies: Vec<Ast> = Vec::new();
    let mut i: usize = 0;
    while i < body.len()
        invariant
            i <= body.len(),
            copies.len() == i,
            forall|j: int| 0 <= j < i ==> copies[j]@ == body[j]@,
        decreases body.len() - i,
    {
        copies.push(body[i].clone());
        i += 1;
    }
    assert(body_models(copies@) =~= body_models(body@));
    copies
}

impl Clone for Object {
    /// A deep copy: the same value.
    fn clone(&self) -> (r: Object)
        ensures
            r@ == self@,
    {
        match self {
            Object::Int(n) => Object::Int(*n),
            Object::Lambda(params, body) => Object::Lambda(clone_symbols(params), clone_body(body)),
            Object::Nil => Object::Nil,
            Object::PrimOp(p) => Object::PrimOp(*p),
        }
    }
}

/// The names `names` from position `from` on, each but the last followed
/// by a blank.
pub open spec fn spaced(names: Seq<Seq<char>>, from: int) -> Seq<char>
    decreases names.len() - from,
{
    if from < 0 || from >= names.len() {
        Seq::empty()
    } else if from == names.len() - 1 {
        names[from]
    } else {
        names[from] + " "@ + spaced(names, from + 1)
    }
}

impl ObjectModel {
    /// The value as `Object::as_string` renders it: an integer in decimal,
    /// a function as `#lambda(` and its parameters `)#`, the empty value as
    /// `()`, a built-in operator as `#primop#`.
    pub open spec fn text(self) -> Seq<char> {
        match self {
            ObjectModel::Int(n) => integer_text(n as int),
            ObjectModel::Lambda(params, _) => "#lambda("@ + spaced(params, 0) + ")#"@,
            ObjectModel::Nil => "()"@,
            ObjectModel::PrimOp(_) => "#primop#"@,
        }
    }
}

impl Object {
    /// Renders the value for the user.
    pub fn as_string(&self) -> (r: String)
        ensures
            r@ == self@.text(),
    {
        match self {
            Object::Int(n) => {
                let mut out = String::new();
                push_integer(*n, &mut out);
                assert(out@ =~= integer_text(*n as int));
                out
            },
            Object::Lambda(params, _) => {
                let mut out = "#lambda(".to_owned();
                let ghost names = symbol_models(params@);
                let mut i: usize = 0;
                while i < params.len()
                    invariant
                        i <= params.len(),
                        names == symbol_models(params@),
                        out@ + spaced(names, i as int) == "#lambda("@ + spaced(names, 0),
                    decreases params.len() - i,
                {
                    let ghost before = out@;
                    out.append(params[i].0.as_str());
                    if i != params.len() - 1 {
                        out.append(" ");
                        assert(out@ + spaced(names, i + 1) =~= before + spaced(names, i as int));
                    } else {
                        assert(out@ + spaced(names, i + 1) =~= before + spaced(names, i as int));
                    }
                    i += 1;
                }
                assert(out@ + spaced(names, i as int) =~= out@);
                out.append(")#");
                out
            },
            Object::Nil => "()".to_owned(),
            Object::PrimOp(_) => "#primop#".to_owned(),
        }
    }
}

/// How deep calls of functions of the user may nest unless the evaluator
/// is told otherwise.
pub const DEFAULT_DEPTH_LIMIT: usize = 128;

/// The evaluator: it holds the environment for as long as it lives, reads
/// it and writes to it.
pub struct Eval<'a> {
    pub env: &'a mut Env,
    pub depth_limit: usize,
}

/// The outcome of evaluating arguments as a model.
pub open spec fn args_model(r: Result<Vec<(Object, Span)>, EvalError>) -> Result<
    Seq<(ObjectModel, Span)>,
    EvalErrorModel,
> {
    match r {
        Ok(values) => Ok(arg_models(values@)),
        Err(e) => Err(e@),
    }
}

/// The values `front` followed by the outcome `tail` of evaluating the
/// arguments after them.
pub open spec fn join_args(front: Seq<(ObjectModel, Span)>, tail: ArgsOutcome) -> ArgsOutcome {
    ArgsOutcome {
        result: match tail.result {
            Ok(values) => Ok(front + values),
            Err(e) => Err(e),
        },
        env: tail.env,
    }
}

impl<'a> Eval<'a> {
    /// An evaluator over `env` with the default limit on nested calls.
    pub fn new(env: &'a mut Env) -> (r: Eval<'a>)
        ensures
            r.env@ == old(env)@,
            r.depth_limit == DEFAULT_DEPTH_LIMIT,
            *final(env) == *final(r.env),
    {
        Eval { env, depth_limit: DEFAULT_DEPTH_LIMIT }
    }

    /// An evaluator over `env` that lets calls of functions of the user
    /// nest `depth_limit` deep.
    pub fn with_depth_limit(env: &'a mut Env, depth_limit: usize) -> (r: Eval<'a>)
        ensures
            r.env@ == old(env)@,
            r.depth_limit == depth_limit,
            *final(env) == *final(r.env),
    {
        Eval { env, depth_limit }
    }

    /// Evaluates the expression `ast`, which stands at `span`: gives its
    /// value or its error, and leaves in the environment what the
    /// evaluation has defined.
    pub fn eval(&mut self, ast: &Ast, span: Span) -> (r: Result<Object, EvalError>)
        ensures
            result_model(r) == eval_model(
                old(self).env@,
                ast@,
                span,
                old(self).depth_limit as nat,
            ).result,
            final(self).env@ == eval_model(
                old(self).env@,
                ast@,
                span,
                old(self).depth_limit as nat,
            ).env,
            final(self).depth_limit == old(self).depth_limit,
            *final(final(self).env) == *final(old(self).env),
    {
        eval_node(self.env, ast, span, self.depth_limit)
    }
}

/// Evaluates `ast` in `env` with calls nested at most `depth` deep.
fn eval_node(env: &mut Env, ast: &Ast, span: Span, depth: usize) -> (r: Result<
    Object,
    EvalError,
>)
    ensures
        result_model(r) == eval_model(old(env)@, ast@, span, depth as nat).result,
        final(env)@ == eval_model(old(env)@, ast@, span, depth as nat).env,
    decreases depth, ast@, 0nat,
{
    match ast {
        Ast::List(children) => eval_form(env, children, span, depth),
        Ast::Def => Err(EvalError::EmptyDef(span)),
        Ast::Int(n) => Ok(Object::Int(*n)),
        Ast::Symbol(name) => {
            let sym = Symbol(name.clone());
            match env.lookup(&sym) {
                Some(value) => Ok(value),
                None => Err(EvalError::UnknownDef(span, sym)),
            }
        },
    }
}

/// Evaluates the list of `items`, which stands at `span`.
fn eval_form(env: &mut Env, items: &Vec<(Ast, Span)>, span: Span, depth: usize) -> (r: Result<
    Object,
    EvalError,
>)
    ensures
        result_model(r) == eval_list(old(env)@, node_models(items@), span, depth as nat).result,
        final(env)@ == eval_list(old(env)@, node_models(items@), span, depth as nat).env,
    decreases depth, node_models(items@), items.len() + 1,
{
    let ghost models = node_models(items@);
    if items.len() == 0 {
        return Ok(Object::Nil);
    }
    let at = items[0].1;
    match &items[0].0 {
        Ast::Def => {
            if items.len() == 1 {
                Err(EvalError::EmptyDef(at))
            } else if items.len() == 3 {
                match &items[1].0 {
                    Ast::Symbol(name) => {
                        let key = Symbol(name.clone());
                        proof {
                            assert(decreases_to!(models => models[2]));
                            assert(decreases_to!(models[2] => models[2].0));
                        }
                        match eval_node(env, &items[2].0, items[2].1, depth) {
                            Ok(value) => {
                                env.define(key, value);
                                Ok(Object::Nil)
                            },
                            Err(e) => Err(e),
                        }
                    },
                    _ => Err(EvalError::InvalidForm(span)),
                }
            } else {
                Err(EvalError::InvalidForm(span))
            }
        },
        Ast::Symbol(name) => {
            let sym = Symbol(name.clone());
            match env.lookup(&sym) {
                None => Err(EvalError::UnknownDef(at, sym)),
                Some(Object::PrimOp(prim)) => {
                    match eval_arguments(env, items, depth) {
                        Ok(values) => prim.apply(at, values.as_slice()),
                        Err(e) => Err(e),
                    }
                },
                Some(Object::Lambda(params, body)) => {
                    match eval_arguments(env, items, depth) {
                        Ok(values) => {
                            if values.len() != params.len() {
                                Err(EvalError::WrongArity(at))
                            } else if depth == 0 {
                                Err(EvalError::RecursionTooDeep(at))
                            } else {
                                let ghost before = env@;
                                let saved = env.save(&params);
                                env.bind(&params, &values);
                                let r = eval_sequence(env, &body, at, depth - 1);
                                proof {
                                    lemma_restore_snapshot(env@, before, symbol_models(params@));
                                }
                                env.restore(&params, &saved);
                                r
                            }
                        },
                        Err(e) => Err(e),
                    }
                },
                Some(_) => Err(EvalError::NotAFunction(at, sym)),
            }
        },
        _ => Err(EvalError::InvalidForm(span)),
    }
}

/// Evaluates the arguments of a call, the items after the first, from left
/// to right.
fn eval_arguments(env: &mut Env, items: &Vec<(Ast, Span)>, depth: usize) -> (r: Result<
    Vec<(Object, Span)>,
    EvalError,
>)
    requires
        items.len() >= 1,
    ensures
        args_model(r) == eval_args(old(env)@, node_models(items@), 1, depth as nat).result,
        final(env)@ == eval_args(old(env)@, node_models(items@), 1, depth as nat).env,
    decreases depth, node_models(items@), items.len(),
{
    let ghost models = node_models(items@);
    let ghost start = env@;
    let mut values: Vec<(Object, Span)> = Vec::new();
    let mut i: usize = 1;
    proof {
        assert(arg_models(values@) =~= Seq::empty());
        let whole = eval_args(start, models, 1, depth as nat);
        assert(join_args(Seq::empty(), whole).result == whole.result) by {
            if let Ok(found) = whole.result {
                assert(Seq::<(ObjectModel, Span)>::empty() + found =~= found);
            }
        }
    }
    while i < items.len()
        invariant
            1 <= i <= items.len(),
            models == node_models(items@),
            start == old(env)@,
            eval_args(start, models, 1, depth as nat) == join_args(
                arg_models(values@),
                eval_args(env@, models, i as nat, depth as nat),
            ),
        decreases items.len() - i,
    {
        let ghost before = arg_models(values@);
        let ghost env_before = env@;
        proof {
            assert(decreases_to!(models => models[i as int]));
            assert(decreases_to!(models[i as int] => models[i as int].0));
        }
        match eval_node(env, &items[i].0, items[i].1, depth) {
            Ok(value) => {
                values.push((value, items[i].1));
                proof {
                    let first = eval_model(
                        env_before,
                        models[i as int].0,
                        models[i as int].1,
                        depth as nat,
                    );
                    let here = seq![(first.result->Ok_0, models[i as int].1)];
                    assert(arg_models(values@) =~= before + here);
                    let tail = eval_args(env@, models, (i + 1) as nat, depth as nat);
                    if let Ok(found) = tail.result {
                        assert(before + (here + found) =~= (before + here) + found);
                    }
                }
            },
            Err(e) => {
                return Err(e);
            },
        }
        i += 1;
    }
    proof {
        assert(arg_models(values@) + Seq::<(ObjectModel, Span)>::empty() =~= arg_models(values@));
    }
    Ok(values)
}

/// Evaluates the expressions of a body in order and gives the value of the
/// last.
fn eval_sequence(env: &mut Env, body: &Vec<Ast>, span: Span, depth: usize) -> (r: Result<
    Object,
    EvalError,
>)
    ensures
        result_model(r) == eval_body(old(env)@, body_models(body@), 0, span, depth as nat).result,
        final(env)@ == eval_body(old(env)@, body_models(body@), 0, span, depth as nat).env,
    decreases depth, body_models(body@), body.len(),
{
    let ghost models = body_models(body@);
    let ghost start = env@;
    let mut last = Object::Nil;
    let mut i: usize = 0;
    while i < body.len()
        invariant
            i <= body.len(),
            models == body_models(body@),
            start == old(env)@,
            eval_body(start, models, 0, span, depth as nat) == (if i < body.len() {
                eval_body(env@, models, i as nat, span, depth as nat)
            } else {
                Outcome { result: Ok(last@), env: env@ }
            }),
        decreases body.len() - i,
    {
        proof {
            assert(decreases_to!(models => models[i as int]));
        }
        match eval_node(env, &body[i], span, depth) {
            Ok(value) => {
                last = value;
            },
            Err(e) => {
                return Err(e);
            },
        }
        i += 1;
    }
    Ok(last)
}

} // verus!
