//! The built-in operators: addition, subtraction, multiplication and
//! division over evaluated arguments.

use super::{EvalError, EvalErrorModel, Object, ObjectModel};
use crate::lexer::Span;
use vstd::arithmetic::div_mod::{
    lemma_fundamental_div_mod, lemma_mod_multiples_vanish, lemma_small_mod,
};
use vstd::prelude::*;

verus! {

/// The four built-in operators.
#[derive(Copy, Clone, Debug, PartialEq, Eq, Structural)]
pub enum Prim {
    Add,
    Sub,
    Mul,
    Div,
}

/// The number of values of a 128-bit integer.
pub open spec fn modulus() -> int {
    0x1_0000_0000_0000_0000_0000_0000_0000_0000int
}

/// The 128-bit integer that `v` wraps around to: the one value of the type
/// that differs from `v` by a multiple of two to the 128th.
pub open spec fn wrap(v: int) -> i128 {
    if v % modulus() > i128::MAX {
        (v % modulus() - modulus()) as i128
    } else {
        (v % modulus()) as i128
    }
}

/// The quotient of `n` by `d` rounded toward zero, for `d` other than
/// zero.
pub open spec fn trunc_div(n: int, d: int) -> int {
    if n >= 0 && d > 0 {
        n / d
    } else if n < 0 && d < 0 {
        (-n) / (-d)
    } else if n < 0 {
        -((-n) / d)
    } else {
        -(n / (-d))
    }
}

/// The models of a run of arguments, each with its span.
pub open spec fn arg_models(args: Seq<(Object, Span)>) -> Seq<(ObjectModel, Span)> {
    Seq::new(args.len(), |i: int| (args[i].0@, args[i].1))
}

/// The outcome of an operator as a model.
pub open spec fn result_model(r: Result<Object, EvalError>) -> Result<
    ObjectModel,
    EvalErrorModel,
> {
    match r {
        Ok(value) => Ok(value@),
        Err(e) => Err(e@),
    }
}

/// The integer that an argument contributes: its value, or nothing when it
/// is not an integer.
pub open spec fn int_of(value: ObjectModel) -> int {
    match value {
        ObjectModel::Int(n) => n as int,
        _ => 0,
    }
}

/// The arguments that are not integers.
pub open spec fn not_int() -> spec_fn(ObjectModel) -> bool {
    |value: ObjectModel| !(value is Int)
}

/// The arguments that cannot be a term of a divisor: those that are not
/// integers, and the integer zero.
pub open spec fn not_divisor() -> spec_fn(ObjectModel) -> bool {
    |value: ObjectModel| !(value is Int) || value == ObjectModel::Int(0)
}

/// The position of the first argument at or after `from` of which `bad`
/// holds, or the number of arguments when there is none.
pub open spec fn first_bad(
    args: Seq<(ObjectModel, Span)>,
    from: int,
    bad: spec_fn(ObjectModel) -> bool,
) -> int
    decreases args.len() - from,
{
    if 0 <= from < args.len() && !bad(args[from].0) {
        first_bad(args, from + 1, bad)
    } else {
        from
    }
}

/// The sum of what the arguments contribute.
pub open spec fn sum_of(args: Seq<(ObjectModel, Span)>) -> int
    decreases args.len(),
{
    if args.len() == 0 {
        0
    } else {
        sum_of(args.drop_last()) + int_of(args.last().0)
    }
}

/// The product of the integers among the arguments.
pub open spec fn product_of(args: Seq<(ObjectModel, Span)>) -> int
    decreases args.len(),
{
    if args.len() == 0 {
        1
    } else if args.last().0 is Int {
        product_of(args.drop_last()) * int_of(args.last().0)
    } else {
        product_of(args.drop_last())
    }
}

/// Addition: the first argument that is not an integer is a type error at
/// its span; otherwise the sum of the arguments, zero for none, wrapped to
/// 128 bits.
pub open spec fn add_model(args: Seq<(ObjectModel, Span)>) -> Result<ObjectModel, EvalErrorModel> {
    let k = first_bad(args, 0, not_int());
    if k < args.len() {
        Err(EvalErrorModel::InvalidType(args[k].1))
    } else {
        Ok(ObjectModel::Int(wrap(sum_of(args))))
    }
}

/// Multiplication: the first argument that is not an integer is a type
/// error at its span; otherwise the product of the arguments, one for
/// none, wrapped to 128 bits.
pub open spec fn mul_model(args: Seq<(ObjectModel, Span)>) -> Result<ObjectModel, EvalErrorModel> {
    let k = first_bad(args, 0, not_int());
    if k < args.len() {
        Err(EvalErrorModel::InvalidType(args[k].1))
    } else {
        Ok(ObjectModel::Int(wrap(product_of(args))))
    }
}

/// Subtraction. No argument is an arity error at the span of the call. One
/// argument is negated, and must be an integer. Of two or more, the sum of
/// all but the first is taken from the first; the later ones must be
/// integers, and the first type error among them is reported at its span,
/// while a first argument that is not an integer counts as zero. Results
/// wrap to 128 bits.
pub open spec fn sub_model(span: Span, args: Seq<(ObjectModel, Span)>) -> Result<
    ObjectModel,
    EvalErrorModel,
> {
    if args.len() == 0 {
        Err(EvalErrorModel::WrongArity(span))
    } else if args.len() == 1 {
        match args[0].0 {
            ObjectModel::Int(n) => Ok(ObjectModel::Int(wrap(-n))),
            _ => Err(EvalErrorModel::InvalidType(args[0].1)),
        }
    } else {
        let k = first_bad(args, 1, not_int());
        if k < args.len() {
            Err(EvalErrorModel::InvalidType(args[k].1))
        } else {
            Ok(ObjectModel::Int(wrap(int_of(args[0].0) - sum_of(args.skip(1)))))
        }
    }
}

/// Division. No argument is an arity error at the span of the call. The
/// first argument is the numerator and must be an integer. A numerator
/// alone is an arity error. The divisor is the sum of the other arguments,
/// wrapped to 128 bits: the first of them that is zero is a division by
/// zero at its span, the first that is not an integer a type error at its
/// span, whichever comes first. Terms that add up to zero are a division by
/// zero at the span of the call. The quotient is rounded toward zero and
/// wraps to 128 bits.
pub open spec fn div_model(span: Span, args: Seq<(ObjectModel, Span)>) -> Result<
    ObjectModel,
    EvalErrorModel,
> {
    if args.len() == 0 {
        Err(EvalErrorModel::WrongArity(span))
    } else if !(args[0].0 is Int) {
        Err(EvalErrorModel::InvalidType(args[0].1))
    } else if args.len() == 1 {
        Err(EvalErrorModel::WrongArity(span))
    } else {
        let k = first_bad(args, 1, not_divisor());
        if k < args.len() {
            if args[k].0 is Int {
                Err(EvalErrorModel::DivisionByZero(args[k].1))
            } else {
                Err(EvalErrorModel::InvalidType(args[k].1))
            }
        } else {
            let divisor = wrap(sum_of(args.skip(1)));
            if divisor == 0 {
                Err(EvalErrorModel::DivisionByZero(span))
            } else {
                Ok(ObjectModel::Int(wrap(trunc_div(int_of(args[0].0), divisor as int))))
            }
        }
    }
}

/// What the operator `prim` makes of the arguments `args` in a call at
/// `span`.
pub open spec fn prim_model(prim: Prim, span: Span, args: Seq<(ObjectModel, Span)>) -> Result<
    ObjectModel,
    EvalErrorModel,
> {
    match prim {
        Prim::Add => add_model(args),
        Prim::Sub => sub_model(span, args),
        Prim::Mul => mul_model(args),
        Prim::Div => div_model(span, args),
    }
}

/// A value within the range of the type wraps to itself.
pub proof fn lemma_wrap_in_range(v: int)
    requires
        i128::MIN <= v <= i128::MAX,
    ensures
        wrap(v) == v,
{
    if v >= 0 {
        lemma_small_mod(v as nat, modulus() as nat);
    } else {
        lemma_small_mod((v + modulus()) as nat, modulus() as nat);
        lemma_mod_multiples_vanish(-1, v + modulus(), modulus());
    }
}

/// Values that differ by a multiple of the modulus wrap to the same.
pub proof fn lemma_wrap_congruent(v: int, k: int)
    ensures
        wrap(v + k * modulus()) == wrap(v),
{
    lemma_mod_multiples_vanish(k, v, modulus());
    assert(modulus() * k + v == v + k * modulus()) by (nonlinear_arith);
}

/// A value and what it wraps to differ by a multiple of the modulus.
pub proof fn lemma_wrap_differs(v: int) -> (k: int)
    ensures
        v == wrap(v) + k * modulus(),
{
    lemma_fundamental_div_mod(v, modulus());
    let q = v / modulus();
    if v % modulus() > i128::MAX {
        assert(v == (v % modulus() - modulus()) + (q + 1) * modulus()) by (nonlinear_arith)
            requires
                v == modulus() * q + v % modulus(),
        ;
        q + 1
    } else {
        assert(v == v % modulus() + q * modulus()) by (nonlinear_arith)
            requires
                v == modulus() * q + v % modulus(),
        ;
        q
    }
}

/// Wrapping after every addition gives what wrapping the exact sum gives.
pub proof fn lemma_wrap_add(a: int, b: i128)
    ensures
        wrap(a).wrapping_add(b) == wrap(a + b),
{
    let k = lemma_wrap_differs(a);
    let s = wrap(a) + b;
    lemma_wrap_congruent(s, k);
    assert(s + k * modulus() == a + b);
    if s > i128::MAX {
        lemma_wrap_congruent(s - modulus(), 1);
        lemma_wrap_in_range(s - modulus());
    } else if s < i128::MIN {
        lemma_wrap_congruent(s + modulus(), -1);
        lemma_wrap_in_range(s + modulus());
    } else {
        lemma_wrap_in_range(s);
    }
}

/// Wrapping after every subtraction gives what wrapping the exact
/// difference gives.
pub proof fn lemma_wrap_sub(a: int, b: i128)
    ensures
        wrap(a).wrapping_sub(b) == wrap(a - b),
{
    let k = lemma_wrap_differs(a);
    let s = wrap(a) - b;
    lemma_wrap_congruent(s, k);
    assert(s + k * modulus() == a - b);
    if s > i128::MAX {
        lemma_wrap_congruent(s - modulus(), 1);
        lemma_wrap_in_range(s - modulus());
    } else if s < i128::MIN {
        lemma_wrap_congruent(s + modulus(), -1);
        lemma_wrap_in_range(s + modulus());
    } else {
        lemma_wrap_in_range(s);
    }
}

/// Wrapping after every multiplication gives what wrapping the exact
/// product gives.
pub proof fn lemma_wrap_mul(a: int, b: i128)
    ensures
        wrap(a).wrapping_mul(b) == wrap(a * b),
{
    let k = lemma_wrap_differs(a);
    let w = wrap(a) as int;
    assert(a * b == w * b + (k * b) * modulus()) by (nonlinear_arith)
        requires
            a == w + k * modulus(),
    ;
    lemma_wrap_congruent(w * b, k * b);
}

/// One more argument adds its contribution to the sum.
proof fn lemma_sum_step(args: Seq<(ObjectModel, Span)>, from: int, to: int)
    requires
        0 <= from <= to < args.len(),
    ensures
        sum_of(args.subrange(from, to + 1)) == sum_of(args.subrange(from, to)) + int_of(
            args[to].0,
        ),
{
    let longer = args.subrange(from, to + 1);
    assert(longer.drop_last() =~= args.subrange(from, to));
    assert(longer.last() == args[to]);
}

/// One more integer multiplies the product by its value.
proof fn lemma_product_step(args: Seq<(ObjectModel, Span)>, to: int)
    requires
        0 <= to < args.len(),
        args[to].0 is Int,
    ensures
        product_of(args.subrange(0, to + 1)) == product_of(args.subrange(0, to)) * int_of(
            args[to].0,
        ),
{
    let longer = args.subrange(0, to + 1);
    assert(longer.drop_last() =~= args.subrange(0, to));
    assert(longer.last() == args[to]);
}

/// Adds the arguments up.
pub fn prim_add(_span: Span, args: &[(Object, Span)]) -> (r: Result<Object, EvalError>)
    ensures
        result_model(r) == add_model(arg_models(args@)),
{
    let ghost models = arg_models(args@);
    let mut acc: i128 = 0;
    let mut i: usize = 0;
    proof {
        lemma_wrap_in_range(0);
        assert(models.subrange(0, 0) =~= Seq::empty());
    }
    while i < args.len()
        invariant
            i <= args.len(),
            models == arg_models(args@),
            models.len() == args.len(),
            first_bad(models, 0, not_int()) == first_bad(models, i as int, not_int()),
            acc == wrap(sum_of(models.subrange(0, i as int))),
        decreases args.len() - i,
    {
        match &args[i].0 {
            Object::Int(n) => {
                proof {
                    lemma_sum_step(models, 0, i as int);
                    lemma_wrap_add(sum_of(models.subrange(0, i as int)), *n);
                }
                acc = acc.wrapping_add(*n);
            },
            _ => {
                return Err(EvalError::InvalidType(args[i].1));
            },
        }
        i += 1;
    }
    proof {
        assert(models.subrange(0, i as int) =~= models);
    }
    Ok(Object::Int(acc))
}

/// Multiplies the arguments.
pub fn prim_mul(_span: Span, args: &[(Object, Span)]) -> (r: Result<Object, EvalError>)
    ensures
        result_model(r) == mul_model(arg_models(args@)),
{
    let ghost models = arg_models(args@);
    let mut acc: i128 = 1;
    let mut i: usize = 0;
    proof {
        lemma_wrap_in_range(1);
        assert(models.subrange(0, 0) =~= Seq::empty());
    }
    while i < args.len()
        invariant
            i <= args.len(),
            models == arg_models(args@),
            models.len() == args.len(),
            first_bad(models, 0, not_int()) == first_bad(models, i as int, not_int()),
            acc == wrap(product_of(models.subrange(0, i as int))),
        decreases args.len() - i,
    {
        match &args[i].0 {
            Object::Int(n) => {
                proof {
                    lemma_product_step(models, i as int);
                    lemma_wrap_mul(product_of(models.subrange(0, i as int)), *n);
                }
                acc = acc.wrapping_mul(*n);
            },
            _ => {
                return Err(EvalError::InvalidType(args[i].1));
            },
        }
        i += 1;
    }
    proof {
        assert(models.subrange(0, i as int) =~= models);
    }
    Ok(Object::Int(acc))
}

/// Adds up the arguments from the second on, for as long as `prim` takes
/// them as terms: integers for a subtraction, integers other than zero for
/// a division. Gives the wrapped sum, or the error of the first argument
/// that is no such term.
fn sum_of_rest(prim: Prim, args: &[(Object, Span)]) -> (r: Result<i128, EvalError>)
    requires
        args.len() >= 2,
        prim == Prim::Sub || prim == Prim::Div,
    ensures
        ({
            let models = arg_models(args@);
            let bad = if prim == Prim::Div {
                not_divisor()
            } else {
                not_int()
            };
            let k = first_bad(models, 1, bad);
            if k < models.len() {
                &&& r matches Err(e)
                &&& e@ == (if prim == Prim::Div && models[k].0 is Int {
                    EvalErrorModel::DivisionByZero(models[k].1)
                } else {
                    EvalErrorModel::InvalidType(models[k].1)
                })
            } else {
                r == Ok::<i128, EvalError>(wrap(sum_of(models.skip(1))))
            }
        }),
{
    let ghost models = arg_models(args@);
    let ghost bad = if prim == Prim::Div {
        not_divisor()
    } else {
        not_int()
    };
    let mut acc: i128 = 0;
    let mut i: usize = 1;
    proof {
        lemma_wrap_in_range(0);
        assert(models.subrange(1, 1) =~= Seq::empty());
    }
    while i < args.len()
        invariant
            1 <= i <= args.len(),
            models == arg_models(args@),
            models.len() == args.len(),
            prim == Prim::Sub || prim == Prim::Div,
            bad == (if prim == Prim::Div {
                not_divisor()
            } else {
                not_int()
            }),
            first_bad(models, 1, bad) == first_bad(models, i as int, bad),
            acc == wrap(sum_of(models.subrange(1, i as int))),
        decreases args.len() - i,
    {
        match &args[i].0 {
            Object::Int(n) => {
                if *n == 0 && matches!(prim, Prim::Div) {
                    return Err(EvalError::DivisionByZero(args[i].1));
                }
                proof {
                    lemma_sum_step(models, 1, i as int);
                    lemma_wrap_add(sum_of(models.subrange(1, i as int)), *n);
                }
                acc = acc.wrapping_add(*n);
            },
            _ => {
                return Err(EvalError::InvalidType(args[i].1));
            },
        }
        i += 1;
    }
    proof {
        assert(models.subrange(1, i as int) =~= models.skip(1));
    }
    Ok(acc)
}

/// Negates one argument, or takes the sum of the later arguments from the
/// first.
pub fn prim_sub(span: Span, args: &[(Object, Span)]) -> (r: Result<Object, EvalError>)
    ensures
        result_model(r) == sub_model(span, arg_models(args@)),
{
    if args.len() == 0 {
        Err(EvalError::WrongArity(span))
    } else if args.len() == 1 {
        match &args[0].0 {
            Object::Int(n) => {
                proof {
                    lemma_wrap_in_range(0);
                    lemma_wrap_sub(0, *n);
                }
                Ok(Object::Int(0i128.wrapping_sub(*n)))
            },
            _ => Err(EvalError::InvalidType(args[0].1)),
        }
    } else {
        let first: i128 = match &args[0].0 {
            Object::Int(n) => *n,
            _ => 0,
        };
        match sum_of_rest(Prim::Sub, args) {
            Ok(rest) => {
                proof {
                    let models = arg_models(args@);
                    let total = sum_of(models.skip(1));
                    lemma_wrap_in_range(first as int);
                    lemma_wrap_sub(first as int, rest);
                    let k = lemma_wrap_differs(total);
                    lemma_wrap_congruent(first - total, k);
                    assert(first - total + k * modulus() == first - wrap(total));
                }
                Ok(Object::Int(first.wrapping_sub(rest)))
            },
            Err(e) => Err(e),
        }
    }
}

/// Divides the first argument by the sum of the others.
pub fn prim_div(span: Span, args: &[(Object, Span)]) -> (r: Result<Object, EvalError>)
    ensures
        result_model(r) == div_model(span, arg_models(args@)),
{
    if args.len() == 0 {
        return Err(EvalError::WrongArity(span));
    }
    match &args[0].0 {
        Object::Int(numerator) => {
            if args.len() == 1 {
                return Err(EvalError::WrongArity(span));
            }
            match sum_of_rest(Prim::Div, args) {
                Ok(divisor) => {
                    if divisor == 0 {
                        return Err(EvalError::DivisionByZero(span));
                    }
                    match numerator.checked_div(divisor) {
                        Some(quotient) => {
                            proof {
                                lemma_wrap_in_range(quotient as int);
                            }
                            Ok(Object::Int(quotient))
                        },
                        None => {
                            proof {
                                lemma_wrap_congruent(i128::MIN as int, 1);
                                lemma_wrap_in_range(i128::MIN as int);
                            }
                            Ok(Object::Int(i128::MIN))
                        },
                    }
                },
                Err(e) => Err(e),
            }
        },
        _ => Err(EvalError::InvalidType(args[0].1)),
    }
}

impl Prim {
    /// Applies the operator to evaluated arguments in a call at `span`.
    pub fn apply(self, span: Span, args: &[(Object, Span)]) -> (r: Result<Object, EvalError>)
        ensures
            result_model(r) == prim_model(self, span, arg_models(args@)),
    {
        match self {
            Prim::Add => prim_add(span, args),
            Prim::Sub => prim_sub(span, args),
            Prim::Mul => prim_mul(span, args),
            Prim::Div => prim_div(span, args),
        }
    }
}

/// The first offender stands at or after the start and within the
/// arguments, nothing before it offends, and it does.
pub proof fn lemma_first_bad(
    args: Seq<(ObjectModel, Span)>,
    from: int,
    bad: spec_fn(ObjectModel) -> bool,
)
    requires
        0 <= from <= args.len(),
    ensures
        from <= first_bad(args, from, bad) <= args.len(),
        forall|i: int| from <= i < first_bad(args, from, bad) ==> !bad((#[trigger] args[i]).0),
        first_bad(args, from, bad) < args.len() ==> bad(args[first_bad(args, from, bad)].0),
    decreases args.len() - from,
{
    if from < args.len() && !bad(args[from].0) {
        lemma_first_bad(args, from + 1, bad);
    }
}

/// An offender before which nothing offends is the first offender.
pub proof fn lemma_first_bad_is(
    args: Seq<(ObjectModel, Span)>,
    from: int,
    bad: spec_fn(ObjectModel) -> bool,
    k: int,
)
    requires
        0 <= from <= k <= args.len(),
        forall|i: int| from <= i < k ==> !bad((#[trigger] args[i]).0),
        k < args.len() ==> bad(args[k].0),
    ensures
        first_bad(args, from, bad) == k,
    decreases k - from,
{
    if from < k {
        assert(!bad(args[from].0));
        lemma_first_bad_is(args, from + 1, bad, k);
    }
}

/// Whether one of the arguments after the first is not an integer, and the
/// first of those carries the same span as the first argument.
pub open spec fn later_error_at_same_span(args: Seq<(ObjectModel, Span)>) -> bool {
    let j = first_bad(args, 1, not_int());
    j < args.len() && args[j].1 == args[0].1
}

/// An operator that is handed an argument that is not an integer fails
/// with a type error at the span of the first such argument.
///
/// Two kinds of calls are left out, because the operators are defined
/// otherwise on them: a subtraction of two or more arguments whose first is
/// not an integer, which counts that argument as zero (unless a later
/// argument fails at a span equal to that of the first); and a division in
/// which a zero divisor comes before the first argument that is not an
/// integer, which is a division by zero.
pub proof fn law_first_non_integer_is_a_type_error(
    prim: Prim,
    span: Span,
    args: Seq<(ObjectModel, Span)>,
)
    requires
        exists|i: int| 0 <= i < args.len() && !((#[trigger] args[i]).0 is Int),
        !(prim == Prim::Sub && args.len() >= 2 && !(args[0].0 is Int) && !later_error_at_same_span(
            args,
        )),
        !(prim == Prim::Div && exists|i: int|
            1 <= i < first_bad(args, 0, not_int()) && i < args.len() && (#[trigger] args[i]).0
                == ObjectModel::Int(0)),
    ensures
        ({
            let k = first_bad(args, 0, not_int());
            &&& 0 <= k < args.len()
            &&& !(args[k].0 is Int)
            &&& forall|i: int| 0 <= i < k ==> (#[trigger] args[i]).0 is Int
            &&& prim_model(prim, span, args) == Err::<ObjectModel, EvalErrorModel>(
                EvalErrorModel::InvalidType(args[k].1),
            )
        }),
{
    let k = first_bad(args, 0, not_int());
    lemma_first_bad(args, 0, not_int());
    let witness = choose|i: int| 0 <= i < args.len() && !((#[trigger] args[i]).0 is Int);
    if k == args.len() {
        assert(!not_int()(args[witness].0));
    }
    assert forall|i: int| 0 <= i < k implies (#[trigger] args[i]).0 is Int by {
        assert(!not_int()(args[i].0));
    }
    match prim {
        Prim::Add => {},
        Prim::Mul => {},
        Prim::Sub => {
            if args.len() >= 2 && k >= 1 {
                lemma_first_bad_is(args, 1, not_int(), k);
            }
        },
        Prim::Div => {
            if k >= 1 {
                assert forall|i: int| 1 <= i < k implies !not_divisor()((#[trigger] args[i]).0) by {
                    assert(args[i].0 is Int);
                    assert(args[i].0 != ObjectModel::Int(0));
                }
                lemma_first_bad_is(args, 1, not_divisor(), k);
            }
        },
    }
}

} // verus!
