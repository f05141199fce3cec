//! What evaluation means: the value of an expression and the environment
//! that it leaves behind, as functions of the expression and the
//! environment that it starts from.

use super::prim::prim_model;
use super::{EvalErrorModel, ObjectModel};
use crate::lexer::Span;
use crate::parser::AstModel;
use vstd::prelude::*;

verus! {

/// An environment as a mathematical value: a finite or infinite map from
/// names to values.
pub type Table = Map<Seq<char>, ObjectModel>;

/// What evaluating an expression gives: its value or its error, and the
/// environment afterwards.
pub struct Outcome {
    pub result: Result<ObjectModel, EvalErrorModel>,
    pub env: Table,
}

/// What evaluating a run of arguments gives: their values with their
/// spans, or the first error, and the environment afterwards.
pub struct ArgsOutcome {
    pub result: Result<Seq<(ObjectModel, Span)>, EvalErrorModel>,
    pub env: Table,
}

/// The value of a bare name at `span`: what it is bound to, or the error
/// that names it.
pub open spec fn lookup_model(env: Table, name: Seq<char>, span: Span) -> Result<
    ObjectModel,
    EvalErrorModel,
> {
    if env.contains_key(name) {
        Ok(env[name])
    } else {
        Err(EvalErrorModel::UnknownDef(span, name))
    }
}

/// The environment in which each parameter is bound to the argument at its
/// position, the parameters taken from left to right.
pub open spec fn bind_all(env: Table, params: Seq<Seq<char>>, args: Seq<(ObjectModel, Span)>) -> Table
    decreases params.len(),
{
    if params.len() == 0 || args.len() != params.len() {
        env
    } else {
        bind_all(env, params.drop_last(), args.drop_last()).insert(params.last(), args.last().0)
    }
}

/// The environment after a call: every parameter is bound, or unbound, as
/// it was in `before`, and every other name as in `after`.
pub open spec fn restore_model(after: Table, before: Table, params: Seq<Seq<char>>) -> Table {
    Map::new(
        |name: Seq<char>|
            if params.contains(name) {
                before.contains_key(name)
            } else {
                after.contains_key(name)
            },
        |name: Seq<char>|
            if params.contains(name) {
                before[name]
            } else {
                after[name]
            },
    )
}

/// The value of the expression `node`, which stands at `span`, in the
/// environment `env`, with calls of functions of the user nested at most
/// `depth` deep.
///
/// The word `def` by itself is an empty definition. An integer is its own
/// value. A name has the value that it is bound to. A list is a form: see
/// `eval_list`.
pub open spec fn eval_model(env: Table, node: AstModel, span: Span, depth: nat) -> Outcome
    decreases depth, node, 0nat,
{
    match node {
        AstModel::Def => Outcome { result: Err(EvalErrorModel::EmptyDef(span)), env },
        AstModel::Int(n) => Outcome { result: Ok(ObjectModel::Int(n)), env },
        AstModel::Symbol(name) => Outcome { result: lookup_model(env, name, span), env },
        AstModel::List(items) => eval_list(env, items, span, depth),
    }
}

/// The value of the list of `items`, which stands at `span`.
///
/// - The empty list is the empty value.
/// - `(def)` is an empty definition, at the span of `def`.
/// - `(def name expr)` binds `name` to the value of `expr` and is the empty
///   value; an error of `expr` is the error of the form, and binds
///   nothing.
/// - `(name arg...)` is a call. An unbound `name` is an unknown
///   definition, and a name bound to an integer or to the empty value is
///   not a function; either is found before any argument is evaluated. The
///   arguments are evaluated from left to right, and the first error among
///   them is the error of the call. An operator is then applied to their
///   values. A function of the user takes as many arguments as it has
///   parameters and may be nested `depth` deep; its parameters are bound to
///   the arguments, the expressions of its body are evaluated in order, and
///   the value of the last is the value of the call; afterwards the
///   parameters are bound as before the call, whether the body failed or
///   not. The errors of a call carry the span of `name`.
/// - Any other list is an invalid form, at the span of the list.
pub open spec fn eval_list(env: Table, items: Seq<(AstModel, Span)>, span: Span, depth: nat) -> Outcome
    decreases depth, items, items.len() + 1,
{
    if items.len() == 0 {
        Outcome { result: Ok(ObjectModel::Nil), env }
    } else {
        let at = items[0].1;
        match items[0].0 {
            AstModel::Def => if items.len() == 1 {
                Outcome { result: Err(EvalErrorModel::EmptyDef(at)), env }
            } else if items.len() == 3 && items[1].0 is Symbol {
                let inner = eval_model(env, items[2].0, items[2].1, depth);
                match inner.result {
                    Ok(value) => Outcome {
                        result: Ok(ObjectModel::Nil),
                        env: inner.env.insert(items[1].0->Symbol_0, value),
                    },
                    Err(e) => inner,
                }
            } else {
                Outcome { result: Err(EvalErrorModel::InvalidForm(span)), env }
            },
            AstModel::Symbol(name) => if !env.contains_key(name) {
                Outcome { result: Err(EvalErrorModel::UnknownDef(at, name)), env }
            } else {
                match env[name] {
                    ObjectModel::PrimOp(prim) => {
                        let args = eval_args(env, items, 1, depth);
                        match args.result {
                            Ok(values) => Outcome {
                                result: prim_model(prim, at, values),
                                env: args.env,
                            },
                            Err(e) => Outcome { result: Err(e), env: args.env },
                        }
                    },
                    ObjectModel::Lambda(params, body) => {
                        let args = eval_args(env, items, 1, depth);
                        match args.result {
                            Ok(values) => if values.len() != params.len() {
                                Outcome {
                                    result: Err(EvalErrorModel::WrongArity(at)),
                                    env: args.env,
                                }
                            } else if depth == 0 {
                                Outcome {
                                    result: Err(EvalErrorModel::RecursionTooDeep(at)),
                                    env: args.env,
                                }
                            } else {
                                let inner = eval_body(
                                    bind_all(args.env, params, values),
                                    body,
                                    0,
                                    at,
                                    (depth - 1) as nat,
                                );
                                Outcome {
                                    result: inner.result,
                                    env: restore_model(inner.env, args.env, params),
                                }
                            },
                            Err(e) => Outcome { result: Err(e), env: args.env },
                        }
                    },
                    _ => Outcome { result: Err(EvalErrorModel::NotAFunction(at, name)), env },
                }
            },
            _ => Outcome { result: Err(EvalErrorModel::InvalidForm(span)), env },
        }
    }
}

/// The values of the expressions `items` from position `from` on, each
/// evaluated in the environment that the one before it left, with the
/// span of its expression. The first error ends the evaluation.
pub open spec fn eval_args(env: Table, items: Seq<(AstModel, Span)>, from: nat, depth: nat) -> ArgsOutcome
    decreases depth, items, items.len() - from,
{
    if from >= items.len() {
        ArgsOutcome { result: Ok(Seq::empty()), env }
    } else {
        let first = eval_model(env, items[from as int].0, items[from as int].1, depth);
        match first.result {
            Ok(value) => {
                let others = eval_args(first.env, items, from + 1, depth);
                match others.result {
                    Ok(values) => ArgsOutcome {
                        result: Ok(seq![(value, items[from as int].1)] + values),
                        env: others.env,
                    },
                    Err(e) => others,
                }
            },
            Err(e) => ArgsOutcome { result: Err(e), env: first.env },
        }
    }
}

/// The value of the expressions `body` from position `from` on, evaluated
/// in order: the value of the last, or the first error. Nothing at all has
/// the empty value. Every expression of a body stands at `span`.
pub open spec fn eval_body(env: Table, body: Seq<AstModel>, from: nat, span: Span, depth: nat) -> Outcome
    decreases depth, body, body.len() - from,
{
    if from >= body.len() {
        Outcome { result: Ok(ObjectModel::Nil), env }
    } else {
        let first = eval_model(env, body[from as int], span, depth);
        if first.result is Err || from + 1 == body.len() {
            first
        } else {
            eval_body(first.env, body, from + 1, span, depth)
        }
    }
}

/// The form `(def name expr)`, with `def` at `at`, `name` at `at_name` and
/// `expr` at `at_expr`.
pub open spec fn def_form(
    at: Span,
    name: Seq<char>,
    at_name: Span,
    expr: AstModel,
    at_expr: Span,
) -> AstModel {
    AstModel::List(seq![(AstModel::Def, at), (AstModel::Symbol(name), at_name), (expr, at_expr)])
}

/// A definition evaluates its expression, binds the name to the value and
/// changes nothing else; the bare name then has that value. A definition
/// whose expression fails is that failure, and binds nothing.
pub proof fn law_def_then_lookup(
    env: Table,
    name: Seq<char>,
    expr: AstModel,
    at_def: Span,
    at_name: Span,
    at_expr: Span,
    at_form: Span,
    at_use: Span,
    depth: nat,
)
    ensures
        ({
            let form = def_form(at_def, name, at_name, expr, at_expr);
            let inner = eval_model(env, expr, at_expr, depth);
            let defined = eval_model(env, form, at_form, depth);
            match inner.result {
                Ok(value) => {
                    &&& defined.result == Ok::<ObjectModel, EvalErrorModel>(ObjectModel::Nil)
                    &&& defined.env == inner.env.insert(name, value)
                    &&& eval_model(defined.env, AstModel::Symbol(name), at_use, depth).result
                        == Ok::<ObjectModel, EvalErrorModel>(value)
                },
                Err(e) => defined == inner,
            }
        }),
{
    let form = def_form(at_def, name, at_name, expr, at_expr);
    let items = form->List_0;
    assert(items.len() == 3);
    assert(items[0].0 is Def);
    assert(items[1].0 == AstModel::Symbol(name));
    assert(items[2] == (expr, at_expr));
}

/// A name that is not bound has no value, as an expression or as the head
/// of a call: the error names it and carries its span.
pub proof fn law_unbound_name_is_unknown(
    env: Table,
    name: Seq<char>,
    at: Span,
    args: Seq<(AstModel, Span)>,
    span: Span,
    depth: nat,
)
    requires
        !env.contains_key(name),
    ensures
        eval_model(env, AstModel::Symbol(name), at, depth) == (Outcome {
            result: Err(EvalErrorModel::UnknownDef(at, name)),
            env,
        }),
        eval_model(env, AstModel::List(seq![(AstModel::Symbol(name), at)] + args), span, depth)
            == (Outcome { result: Err(EvalErrorModel::UnknownDef(at, name)), env }),
{
    let items = seq![(AstModel::Symbol(name), at)] + args;
    assert(items[0] == (AstModel::Symbol(name), at));
}

/// A list that starts with an integer or with a list is no form: it is
/// rejected at its span, whatever follows, and nothing is evaluated.
pub proof fn law_list_without_a_name_is_rejected(
    env: Table,
    items: Seq<(AstModel, Span)>,
    span: Span,
    depth: nat,
)
    requires
        items.len() > 0,
        items[0].0 is Int || items[0].0 is List,
    ensures
        eval_model(env, AstModel::List(items), span, depth) == (Outcome {
            result: Err(EvalErrorModel::InvalidForm(span)),
            env,
        }),
{
}

} // verus!
