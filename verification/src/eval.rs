//! The evaluator: special forms, function application and the loop that
//! turns calls in tail position into iterations.
//!
//! What an evaluation does is defined by `eval_spec`, a function from a world,
//! an expression, an environment and a budget to the world afterwards and the
//! value, if there is one. The executable evaluator returns exactly that.
use crate::builtins::{
    builtin_help, builtin_result, call_builtin, describe, car_cdr, first_last, first_of, front_of, is_truthy, rest_of,
    truthy,
};
use crate::env::{
    call_frame, env_binds, env_get, env_new, env_set, outermost, FrameView, Halt, HaltView,
    Runtime, World,
};
use crate::frac::ratio_floor;
use crate::printer::{print_value, prt};
use crate::reader::texts_of;
use crate::text::{contains_text, join_spaced, joined, same_text, text_contains};
use crate::types::{MalErr, Severity};
use crate::value::{
    agrees, complaint, copy_range, dict_get, distinct_keys, entries_of, fails_as, hard, items_of,
    key_text, lemma_view_dict, lemma_view_list, lift, models_of, outcome, Entries, Env, Fault,
    MalArgs, MalMap, MalRet, MalType, Value,
};
use vstd::prelude::*;
use vstd::slice::slice_subrange;

verus! {

/// The special forms.
#[derive(Clone, Copy, Debug, PartialEq, Eq, Structural)]
pub enum Form {
    Def,
    Let,
    Do,
    If,
    Fn,
    Quote,
    Guard,
    Eval,
    Help,
    Find,
}

/// The special form that a symbol names, if it names one.
pub open spec fn special_form(s: Seq<char>) -> Option<Form> {
    if s == "def!"@ {
        Some(Form::Def)
    } else if s == "let*"@ {
        Some(Form::Let)
    } else if s == "do"@ {
        Some(Form::Do)
    } else if s == "if"@ {
        Some(Form::If)
    } else if s == "fn*"@ || s == "\u{3bb}"@ {
        Some(Form::Fn)
    } else if s == "quote"@ {
        Some(Form::Quote)
    } else if s == "ok?"@ {
        Some(Form::Guard)
    } else if s == "eval"@ {
        Some(Form::Eval)
    } else if s == "help"@ || s == "h"@ {
        Some(Form::Help)
    } else if s == "find"@ {
        Some(Form::Find)
    } else {
        None
    }
}

/// The special form that the symbol names, if it names one.
pub fn form_of(s: &str) -> (r: Option<Form>)
    ensures
        r == special_form(s@),
{
    if same_text(s, "def!") {
        Some(Form::Def)
    } else if same_text(s, "let*") {
        Some(Form::Let)
    } else if same_text(s, "do") {
        Some(Form::Do)
    } else if same_text(s, "if") {
        Some(Form::If)
    } else if same_text(s, "fn*") || same_text(s, "\u{3bb}") {
        Some(Form::Fn)
    } else if same_text(s, "quote") {
        Some(Form::Quote)
    } else if same_text(s, "ok?") {
        Some(Form::Guard)
    } else if same_text(s, "eval") {
        Some(Form::Eval)
    } else if same_text(s, "help") || same_text(s, "h") {
        Some(Form::Help)
    } else if same_text(s, "find") {
        Some(Form::Find)
    } else {
        None
    }
}

/// What calling a function gives: a value, or an expression still to be
/// evaluated in an environment (a call in tail position).
pub enum Called {
    Value(Value),
    Tail { ast: Value, env: nat },
}

/// What calling a function gives: the value that a host function,
/// a map or a vector returned, or the last expression of a user-defined
/// function with the environment to evaluate it in.
pub enum CallFunc {
    Builtin(MalType),
    MalFun(MalType, Env),
}

impl View for CallFunc {
    type V = Called;

    open spec fn view(&self) -> Called {
        match self {
            CallFunc::Builtin(v) => Called::Value(v@),
            CallFunc::MalFun(ast, env) => Called::Tail { ast: ast@, env: *env as nat },
        }
    }
}

pub type CallRet = Result<CallFunc, MalErr>;

/// The value of an expression and the world after its evaluation.
///
/// The evaluator works in turns. Each turn takes one unit of `fuel` and
/// either ends with a value or leaves an expression in tail position to go
/// on with in the next turn. An evaluation that finds no fuel stops the
/// world. Evaluations nested in a turn get the fuel left at that turn.
pub open spec fn eval_spec(w: World, ast: Value, env: nat, fuel: nat) -> (
    World,
    Result<Value, Fault>,
)
    decreases fuel, 0nat, 0nat,
{
    if fuel == 0 {
        (w.halted(HaltView::OutOfFuel), Err(Fault::Other))
    } else {
        let (w1, step) = step_spec(w, ast, env, (fuel - 1) as nat);
        match step {
            Ok(Called::Value(v)) => (w1, Ok(v)),
            Ok(Called::Tail { ast: next, env: inner }) => eval_spec(
                w1,
                next,
                inner,
                (fuel - 1) as nat,
            ),
            Err(f) => (w1, Err(f)),
        }
    }
}

/// One turn of the evaluator: an empty list is its own value; a list
/// headed by the name of a special form is that form; any other list is a
/// call; anything else is evaluated as it stands.
pub open spec fn step_spec(w: World, ast: Value, env: nat, fuel: nat) -> (
    World,
    Result<Called, Fault>,
)
    decreases fuel, 7nat, 0nat,
{
    match ast {
        Value::List(l) => if l.len() == 0 {
            (w, Ok(Called::Value(ast)))
        } else {
            match l[0] {
                Value::Sym(s) => match special_form(s) {
                    Some(form) => form_step(w, form, rest_of(l), env, fuel),
                    None => apply_step(w, ast, env, fuel),
                },
                _ => apply_step(w, ast, env, fuel),
            }
        },
        _ => as_value(eval_ast_spec(w, ast, env, fuel)),
    }
}

/// A value as the end of a turn.
pub open spec fn as_value(r: (World, Result<Value, Fault>)) -> (World, Result<Called, Fault>) {
    (
        r.0,
        match r.1 {
            Ok(v) => Ok(Called::Value(v)),
            Err(f) => Err(f),
        },
    )
}

/// An expression and an environment as what the next turn goes on with.
pub open spec fn as_tail(r: (World, Result<Value, Fault>), env: nat) -> (
    World,
    Result<Called, Fault>,
) {
    (
        r.0,
        match r.1 {
            Ok(ast) => Ok(Called::Tail { ast, env }),
            Err(f) => Err(f),
        },
    )
}

/// The values of `items[i..]`, evaluated from left to right.
pub open spec fn eval_seq_spec(w: World, items: Seq<Value>, i: int, env: nat, fuel: nat) -> (
    World,
    Result<Seq<Value>, Fault>,
)
    decreases fuel, 1nat, items.len() - i,
{
    if i < 0 || i >= items.len() {
        (w, Ok(Seq::empty()))
    } else {
        let (w1, v) = eval_spec(w, items[i], env, fuel);
        match v {
            Err(f) => (w1, Err(f)),
            Ok(x) => {
                let (w2, rest) = eval_seq_spec(w1, items, i + 1, env, fuel);
                match rest {
                    Ok(r) => (w2, Ok(seq![x] + r)),
                    Err(f) => (w2, Err(f)),
                }
            },
        }
    }
}

/// The entries `d[i..]` with their values evaluated in turn.
pub open spec fn eval_map_spec(
    w: World,
    d: Seq<(Seq<char>, Value)>,
    i: int,
    env: nat,
    fuel: nat,
) -> (World, Result<Seq<(Seq<char>, Value)>, Fault>)
    decreases fuel, 1nat, d.len() - i,
{
    if i < 0 || i >= d.len() {
        (w, Ok(Seq::empty()))
    } else {
        let (w1, v) = eval_spec(w, d[i].1, env, fuel);
        match v {
            Err(f) => (w1, Err(f)),
            Ok(x) => {
                let (w2, rest) = eval_map_spec(w1, d, i + 1, env, fuel);
                match rest {
                    Ok(r) => (w2, Ok(seq![(d[i].0, x)] + r)),
                    Err(f) => (w2, Err(f)),
                }
            },
        }
    }
}

/// The value of an expression that is not a call: a symbol is looked up;
/// the elements of a list or vector, and the values of a map, are
/// evaluated; anything else is its own value.
pub open spec fn eval_ast_spec(w: World, ast: Value, env: nat, fuel: nat) -> (
    World,
    Result<Value, Fault>,
)
    decreases fuel, 2nat, 0nat,
{
    match ast {
        Value::Sym(s) => (w, lift(w.lookup(env, s))),
        Value::List(l) => {
            let (w1, vs) = eval_seq_spec(w, l, 0, env, fuel);
            match vs {
                Ok(r) => (w1, Ok(Value::List(r))),
                Err(f) => (w1, Err(f)),
            }
        },
        Value::Vector(l) => {
            let (w1, vs) = eval_seq_spec(w, l, 0, env, fuel);
            match vs {
                Ok(r) => (w1, Ok(Value::Vector(r))),
                Err(f) => (w1, Err(f)),
            }
        },
        Value::Dict(d) => {
            let (w1, es) = eval_map_spec(w, d, 0, env, fuel);
            match es {
                Ok(r) => (w1, Ok(Value::Dict(r))),
                Err(f) => (w1, Err(f)),
            }
        },
        _ => (w, Ok(ast)),
    }
}

/// Evaluates `items[i..]` in turn for their effects, up to the first that
/// fails; gives that failure, if there is one.
pub open spec fn run_all(w: World, items: Seq<Value>, i: int, env: nat, fuel: nat) -> (
    World,
    Option<Fault>,
)
    decreases fuel, 1nat, items.len() - i,
{
    if i < 0 || i >= items.len() {
        (w, None)
    } else {
        let (w1, v) = eval_spec(w, items[i], env, fuel);
        match v {
            Err(f) => (w1, Some(f)),
            Ok(_) => run_all(w1, items, i + 1, env, fuel),
        }
    }
}

/// A sequence of expressions as an implicit `do`: all but the last are
/// evaluated for their effects and the last one is given, unevaluated; nil
/// for an empty sequence.
pub open spec fn do_last(w: World, args: Seq<Value>, env: nat, fuel: nat) -> (
    World,
    Result<Value, Fault>,
)
    decreases fuel, 2nat, 0nat,
{
    let (w1, failed) = run_all(w, front_of(args), 0, env, fuel);
    match failed {
        None => (
            w1,
            Ok(
                if args.len() == 0 {
                    Value::Nil
                } else {
                    args[args.len() - 1]
                },
            ),
        ),
        Some(f) => (w1, Err(f)),
    }
}

/// `def!`: with a symbol and an expression, the value of the expression is
/// bound to the symbol in `env` and returned.
pub open spec fn def_spec(w: World, args: Seq<Value>, env: nat, fuel: nat) -> (
    World,
    Result<Value, Fault>,
)
    decreases fuel, 2nat, 0nat,
{
    if args.len() != 2 {
        (w, Err(Fault::Other))
    } else {
        match args[0] {
            Value::Sym(s) => {
                let (w1, v) = eval_spec(w, args[1], env, fuel);
                match v {
                    Ok(x) => (w1.define(env, s, x), Ok(x)),
                    Err(f) => (w1, Err(f)),
                }
            },
            _ => (w, Err(Fault::Other)),
        }
    }
}

/// Binds the pairs `b[i..]` of a `let*` in the frame `inner`, each value
/// being evaluated in `inner` itself, up to the first pair that cannot be
/// bound; gives that failure, if there is one.
pub open spec fn let_bind(w: World, b: Seq<Value>, i: int, inner: nat, fuel: nat) -> (
    World,
    Option<Fault>,
)
    decreases fuel, 3nat, b.len() - i,
{
    if i < 0 || i + 1 >= b.len() {
        (w, None)
    } else {
        let (w1, v) = def_spec(w, b.subrange(i, i + 2), inner, fuel);
        match v {
            Ok(_) => let_bind(w1, b, i + 2, inner, fuel),
            Err(f) => (w1, Some(f)),
        }
    }
}

/// `let*`: the bindings, a list or vector of an even number of elements,
/// are bound in a new frame inside `env`; the body is run there as an
/// implicit `do`, whose last expression is given with the new frame.
pub open spec fn let_setup(w: World, args: Seq<Value>, env: nat, fuel: nat) -> (
    World,
    Result<(Value, nat), Fault>,
)
    decreases fuel, 4nat, 0nat,
{
    if args.len() == 0 {
        (w, Err(Fault::Other))
    } else {
        match items_of(args[0]) {
            None => (w, Err(Fault::Other)),
            Some(b) => if b.len() % 2 != 0 {
                (w, Err(Fault::Other))
            } else {
                let inner = w.frames.len();
                let w1 = w.with_frame(FrameView { data: Seq::empty(), outer: Some(env) });
                let (w2, failed) = let_bind(w1, b, 0, inner, fuel);
                match failed {
                    Some(f) => (w2, Err(f)),
                    None => {
                        let (w3, last) = do_last(w2, rest_of(args), inner, fuel);
                        match last {
                            Ok(ast) => (w3, Ok((ast, inner))),
                            Err(f) => (w3, Err(f)),
                        }
                    },
                }
            },
        }
    }
}

/// `if`: with two or three arguments, the condition is evaluated and the
/// branch to go on with is given, unevaluated: the second argument when the
/// condition counts as true, else the third, or nil when there is none.
pub open spec fn if_branch(w: World, args: Seq<Value>, env: nat, fuel: nat) -> (
    World,
    Result<Value, Fault>,
)
    decreases fuel, 2nat, 0nat,
{
    if !(2 <= args.len() <= 3) {
        (w, Err(Fault::Other))
    } else {
        let (w1, c) = eval_spec(w, args[0], env, fuel);
        match c {
            Err(f) => (w1, Err(f)),
            Ok(x) => (
                w1,
                Ok(
                    if truthy(x) {
                        args[1]
                    } else if args.len() == 3 {
                        args[2]
                    } else {
                        Value::Nil
                    },
                ),
            ),
        }
    }
}

/// `fn*`: with a list or vector of parameters, a function that keeps the
/// parameters, the body as a list and the environment `env`.
pub open spec fn fn_value(args: Seq<Value>, env: nat) -> Option<Value> {
    if args.len() == 0 {
        None
    } else if items_of(args[0]) is None {
        None
    } else {
        Some(
            Value::Closure {
                params: Box::new(args[0]),
                body: Box::new(Value::List(rest_of(args))),
                env,
            },
        )
    }
}

/// `ok?`: true when the expression has a value, nil when its evaluation
/// fails; a stop of the world is not caught.
pub open spec fn ok_spec(w: World, args: Seq<Value>, env: nat, fuel: nat) -> (
    World,
    Result<Value, Fault>,
)
    decreases fuel, 2nat, 0nat,
{
    if args.len() == 0 {
        (w, Err(Fault::Other))
    } else {
        let (w1, v) = eval_spec(w, args[0], env, fuel);
        if w1.halt is Some {
            (
                w1,
                match v {
                    Err(f) => Err(f),
                    Ok(_) => Err(Fault::Other),
                },
            )
        } else {
            (
                w1,
                Ok(
                    if v is Ok {
                        Value::T
                    } else {
                        Value::Nil
                    },
                ),
            )
        }
    }
}

/// One line of `help` for each of the expressions `l[i..]` of a body.
pub open spec fn body_lines(l: Seq<Value>, i: int) -> Seq<char>
    decreases l.len() - i,
{
    if i < 0 || i >= l.len() {
        Seq::empty()
    } else {
        ";   "@ + print_value(l[i], true) + seq!['\n'] + body_lines(l, i + 1)
    }
}

/// What `help` prints for the symbol `s` whose value is `x`: for a host
/// function its description, for a user-defined function its parameters
/// and the expressions of its body, else the readable text of the value.
pub open spec fn help_text(s: Seq<char>, x: Value) -> Seq<char> {
    match x {
        Value::Fun(b) => s + "\t[builtin]: "@ + builtin_help(b) + "\n\n"@,
        Value::Closure { params, body, env } => s + "\t[function]: "@ + print_value(*params, true)
            + seq!['\n'] + body_lines(
            match items_of(*body) {
                Some(l) => l,
                None => Seq::empty(),
            },
            0,
        ) + seq!['\n'],
        _ => s + "\t[symbol]: "@ + print_value(x, true) + "\n\n"@,
    }
}

/// `help`: prints what is known of the value of a symbol and returns nil.
pub open spec fn help_spec(w: World, args: Seq<Value>, env: nat, fuel: nat) -> (
    World,
    Result<Value, Fault>,
)
    decreases fuel, 2nat, 0nat,
{
    if args.len() == 0 {
        (w, Err(Fault::Other))
    } else {
        match args[0] {
            Value::Sym(s) => {
                let (w1, v) = eval_spec(w, args[0], env, fuel);
                match v {
                    Ok(x) => (w1.printed(help_text(s, x)), Ok(Value::Nil)),
                    Err(f) => (w1, Err(f)),
                }
            },
            _ => (w, Err(Fault::Other)),
        }
    }
}

/// Whether `patterns[i..]` are symbols whose names all stand somewhere in
/// `key`.
pub open spec fn has_all(key: Seq<char>, patterns: Seq<Value>, i: int) -> bool
    decreases patterns.len() - i,
{
    if i < 0 || i >= patterns.len() {
        true
    } else {
        match patterns[i] {
            Value::Sym(p) => contains_text(key, p) && has_all(key, patterns, i + 1),
            _ => false,
        }
    }
}

/// Whether each of `patterns[i..]` is a symbol.
pub open spec fn all_symbols(patterns: Seq<Value>, i: int) -> bool
    decreases patterns.len() - i,
{
    if i < 0 || i >= patterns.len() {
        true
    } else {
        patterns[i] is Sym && all_symbols(patterns, i + 1)
    }
}

/// Those of the first `n` keys in which every pattern stands, in order.
pub open spec fn matching_keys(keys: Seq<Seq<char>>, patterns: Seq<Value>, n: nat) -> Seq<
    Seq<char>,
>
    decreases n,
{
    if n == 0 {
        Seq::empty()
    } else if has_all(keys[n - 1], patterns, 0) {
        matching_keys(keys, patterns, (n - 1) as nat).push(keys[n - 1])
    } else {
        matching_keys(keys, patterns, (n - 1) as nat)
    }
}

/// `find`: with symbols as arguments, prints the names bound in the
/// outermost frame in which the name of every argument stands, in
/// ascending order and separated by spaces, and returns nil.
pub open spec fn find_spec(w: World, args: Seq<Value>, env: nat) -> (World, Result<Value, Fault>) {
    if !all_symbols(args, 0) {
        (w, Err(Fault::Other))
    } else {
        let keys = w.keys(w.root_of(env));
        (
            w.printed(
                "\t[matches]:\n"@ + joined(matching_keys(keys, args, keys.len()), 0) + "\n\n"@,
            ),
            Ok(Value::Nil),
        )
    }
}

/// What a vector gives when it is called with a number: the element at the
/// integer below the number, or nil when there is none.
pub open spec fn vector_at(v: Seq<Value>, args: Seq<Value>) -> Option<Value> {
    if args.len() == 0 {
        None
    } else {
        match args[0] {
            Value::Num(r) => Some(
                if 0 <= ratio_floor(r) < v.len() {
                    v[ratio_floor(r)]
                } else {
                    Value::Nil
                },
            ),
            _ => None,
        }
    }
}

/// What a map gives when it is called with a string or a keyword: the value
/// of that key, or nil when it has none.
pub open spec fn map_at(m: Seq<(Seq<char>, Value)>, args: Seq<Value>) -> Option<Value> {
    if args.len() == 0 {
        None
    } else {
        match key_text(args[0]) {
            Some(k) => Some(
                match dict_get(m, k) {
                    Some(v) => v,
                    None => Value::Nil,
                },
            ),
            None => None,
        }
    }
}

/// The call of `func` with evaluated arguments.
///
/// A host function is run. A user-defined function binds its parameters in
/// a new frame inside the environment it was created in, runs its body
/// there but for the last expression, and gives that expression back with
/// the frame. A map or a vector looks its argument up.
pub open spec fn call_spec(w: World, func: Value, args: Seq<Value>, fuel: nat) -> (
    World,
    Result<Called, Fault>,
)
    decreases fuel, 3nat, 0nat,
{
    match func {
        Value::Fun(b) => as_value(builtin_result(w, b, args)),
        Value::Closure { params, body, env } => match call_frame(env, *params, args) {
            None => (w, Err(Fault::Other)),
            Some(f) => match *body {
                Value::List(l) => {
                    let inner = w.frames.len();
                    as_tail(do_last(w.with_frame(f), l, inner, fuel), inner)
                },
                _ => (w, Err(Fault::Other)),
            },
        },
        Value::Dict(m) => as_value((w, lift(map_at(m, args)))),
        Value::Vector(v) => as_value((w, lift(vector_at(v, args)))),
        _ => (w, Err(Fault::Other)),
    }
}

/// The call that an evaluated list writes: its first element is called
/// with the others.
pub open spec fn func_spec(w: World, list: Value, fuel: nat) -> (World, Result<Called, Fault>)
    decreases fuel, 4nat, 0nat,
{
    match items_of(list) {
        Some(vals) => if vals.len() == 0 {
            (w, Err(Fault::Other))
        } else {
            call_spec(w, vals[0], rest_of(vals), fuel)
        },
        None => (w, Err(Fault::Other)),
    }
}

/// A call: every element of the list is evaluated, then the first value is
/// called with the others.
pub open spec fn apply_step(w: World, ast: Value, env: nat, fuel: nat) -> (
    World,
    Result<Called, Fault>,
)
    decreases fuel, 5nat, 0nat,
{
    let (w1, v) = eval_ast_spec(w, ast, env, fuel);
    match v {
        Ok(list) => func_spec(w1, list, fuel),
        Err(f) => (w1, Err(f)),
    }
}

/// `eval`: the value of the expression, to be evaluated in turn in the
/// outermost frame around `env`.
pub open spec fn eval_again(w: World, args: Seq<Value>, env: nat, fuel: nat) -> (
    World,
    Result<Called, Fault>,
)
    decreases fuel, 2nat, 0nat,
{
    if args.len() == 0 {
        (w, Err(Fault::Other))
    } else {
        let (w1, v) = eval_spec(w, args[0], env, fuel);
        match v {
            Ok(x) => (w1, Ok(Called::Tail { ast: x, env: w1.root_of(env) })),
            Err(f) => (w1, Err(f)),
        }
    }
}

/// A special form applied to its unevaluated arguments: what the turn ends
/// with, or goes on with.
pub open spec fn form_step(w: World, form: Form, args: Seq<Value>, env: nat, fuel: nat) -> (
    World,
    Result<Called, Fault>,
)
    decreases fuel, 6nat, 0nat,
{
    match form {
        Form::Def => as_value(def_spec(w, args, env, fuel)),
        Form::Let => {
            let (w1, next) = let_setup(w, args, env, fuel);
            match next {
                Ok((ast, inner)) => (w1, Ok(Called::Tail { ast, env: inner })),
                Err(f) => (w1, Err(f)),
            }
        },
        Form::Do => as_tail(do_last(w, args, env, fuel), env),
        Form::If => as_tail(if_branch(w, args, env, fuel), env),
        Form::Fn => as_value((w, lift(fn_value(args, env)))),
        Form::Quote => as_value((w, lift(first_of(args)))),
        Form::Guard => as_value(ok_spec(w, args, env, fuel)),
        Form::Eval => eval_again(w, args, env, fuel),
        Form::Help => as_value(help_spec(w, args, env, fuel)),
        Form::Find => as_value(find_spec(w, args, env)),
    }
}

/// Whether a call result is the outcome: what the call gave, or an error
/// that reports the failure.
pub open spec fn agrees_call(r: CallRet, s: Result<Called, Fault>) -> bool {
    match (r, s) {
        (Ok(c), Ok(x)) => c@ == x,
        (Err(e), Err(f)) => fails_as(e, f),
        _ => false,
    }
}

/// `front` put before the values that an evaluation gave.
pub open spec fn seq_front(front: Seq<Value>, r: (World, Result<Seq<Value>, Fault>)) -> (
    World,
    Result<Seq<Value>, Fault>,
) {
    (
        r.0,
        match r.1 {
            Ok(s) => Ok(front + s),
            Err(f) => Err(f),
        },
    )
}

/// `front` put before the entries that an evaluation gave.
pub open spec fn entries_front(
    front: Seq<(Seq<char>, Value)>,
    r: (World, Result<Seq<(Seq<char>, Value)>, Fault>),
) -> (World, Result<Seq<(Seq<char>, Value)>, Fault>) {
    (
        r.0,
        match r.1 {
            Ok(s) => Ok(front + s),
            Err(f) => Err(f),
        },
    )
}

/// Evaluates an expression with a budget of `fuel` turns.
pub fn eval_within(rt: &mut Runtime, ast: &MalType, env: Env, fuel: u64) -> (r: MalRet)
    ensures
        final(rt)@ == eval_spec(old(rt)@, ast@, env as nat, fuel as nat).0,
        agrees(
            r,
            eval_spec(old(rt)@, ast@, env as nat, fuel as nat).1,
        ),
    decreases fuel, 0nat, 0nat,
{
    let mut cur = ast.clone();
    let mut scope = env;
    let mut left = fuel;
    loop
        invariant
            left <= fuel,
            eval_spec(rt@, cur@, scope as nat, left as nat) == eval_spec(
                old(rt)@,
                ast@,
                env as nat,
                fuel as nat,
            ),
        decreases left,
    {
        if left == 0 {
            rt.stop(Halt::OutOfFuel);
            return Err(MalErr::unrecoverable("Evaluation budget exhausted"));
        }
        left = left - 1;
        match eval_step(rt, &cur, scope, left) {
            Ok(CallFunc::Builtin(ret)) => {
                return Ok(ret);
            },
            Ok(CallFunc::MalFun(next, inner)) => {
                cur = next;
                scope = inner;
            },
            Err(e) => {
                return Err(e);
            },
        }
    }
}

/// One turn of the evaluator.
pub fn eval_step(rt: &mut Runtime, ast: &MalType, env: Env, fuel: u64) -> (r: CallRet)
    ensures
        final(rt)@ == step_spec(old(rt)@, ast@, env as nat, fuel as nat).0,
        agrees_call(
            r,
            step_spec(old(rt)@, ast@, env as nat, fuel as nat).1,
        ),
    decreases fuel, 7nat, 0nat,
{
    match ast {
        MalType::List(list) => {
            proof {
                lemma_view_list(*list);
            }
            if list.len() == 0 {
                return Ok(CallFunc::Builtin(ast.clone()));
            }
            assert(models_of(list@)[0] == list@[0]@);
            match &list[0] {
                MalType::Sym(sym) => match form_of(sym.as_str()) {
                    Some(form) => {
                        let args = crate::builtins::cdr(list.as_slice());
                        assert(models_of(args@) =~= rest_of(models_of(list@)));
                        eval_form(rt, form, args, env, fuel)
                    },
                    None => apply(rt, ast, env, fuel),
                },
                _ => apply(rt, ast, env, fuel),
            }
        },
        _ => match eval_ast(rt, ast, env, fuel) {
            Ok(v) => Ok(CallFunc::Builtin(v)),
            Err(e) => Err(e),
        },
    }
}

/// Evaluates the elements of a call and calls the first with the others.
fn apply(rt: &mut Runtime, ast: &MalType, env: Env, fuel: u64) -> (r: CallRet)
    ensures
        final(rt)@ == apply_step(old(rt)@, ast@, env as nat, fuel as nat).0,
        agrees_call(
            r,
            apply_step(old(rt)@, ast@, env as nat, fuel as nat).1,
        ),
    decreases fuel, 5nat, 0nat,
{
    match eval_ast(rt, ast, env, fuel) {
        Ok(list) => eval_func(rt, &list, fuel),
        Err(e) => Err(e),
    }
}

/// Calls the first element of an evaluated list with the other elements as
/// arguments.
pub fn eval_func(rt: &mut Runtime, list: &MalType, fuel: u64) -> (r: CallRet)
    ensures
        final(rt)@ == func_spec(old(rt)@, list@, fuel as nat).0,
        agrees_call(
            r,
            func_spec(old(rt)@, list@, fuel as nat).1,
        ),
    decreases fuel, 4nat, 0nat,
{
    let items = match list.if_list() {
        Ok(l) => l,
        Err(e) => {
            return Err(e);
        },
    };
    match car_cdr(items) {
        Ok((func, args)) => {
            assert(models_of(items@)[0] == items@[0]@);
            assert(models_of(args@) =~= rest_of(models_of(items@)));
            call_func(rt, func, args, fuel)
        },
        Err(e) => Err(e),
    }
}

/// Calls `func` with evaluated arguments.
pub fn call_func(rt: &mut Runtime, func: &MalType, args: &[MalType], fuel: u64) -> (r: CallRet)
    ensures
        final(rt)@ == call_spec(old(rt)@, func@, models_of(args@), fuel as nat).0,
        agrees_call(
            r,
            call_spec(old(rt)@, func@, models_of(args@), fuel as nat).1,
        ),
    decreases fuel, 3nat, 0nat,
{
    if args.len() > 0 {
        assert(models_of(args@)[0] == args@[0]@);
    }
    match func {
        MalType::Fun(b) => match call_builtin(rt, *b, args) {
            Ok(v) => Ok(CallFunc::Builtin(v)),
            Err(e) => Err(e),
        },
        MalType::MalFun { params, ast, env } => {
            match &**ast {
                MalType::List(list) => {
                    proof {
                        lemma_view_list(*list);
                    }
                    let inner = match env_binds(rt, *env, &**params, args) {
                        Ok(e) => e,
                        Err(e) => {
                            return Err(e);
                        },
                    };
                    match do_form(rt, list.as_slice(), inner, fuel) {
                        Ok(last) => Ok(CallFunc::MalFun(last, inner)),
                        Err(e) => Err(e),
                    }
                },
                _ => {
                    assert(!((**ast)@ is List));
                    Err(MalErr::unrecoverable("The body of a function is not a list"))
                },
            }
        },
        MalType::Dict(m) => {
            proof {
                lemma_view_dict(*m);
            }
            if args.len() == 0 {
                return Err(MalErr::unrecoverable("No key provided to Map construct"));
            }
            match &args[0] {
                MalType::Str(s) => Ok(CallFunc::Builtin(map_value(m, s.as_str()))),
                MalType::Key(s) => Ok(CallFunc::Builtin(map_value(m, s.as_str()))),
                _ => Err(MalErr::unrecoverable("Map argument must be string or key")),
            }
        },
        MalType::Vector(v) => {
            proof {
                lemma_view_list(*v);
            }
            if args.len() == 0 {
                return Err(MalErr::unrecoverable("No key provided to Vector construct"));
            }
            match &args[0] {
                MalType::Num(f) => {
                    let idx: isize = f.to_int();
                    if 0 <= idx && (idx as usize) < v.len() {
                        assert(models_of(v@)[idx as int] == v@[idx as int]@);
                        Ok(CallFunc::Builtin(v[idx as usize].clone()))
                    } else {
                        Ok(CallFunc::Builtin(MalType::Nil))
                    }
                },
                _ => Err(MalErr::unrecoverable("Vector argument must be a number")),
            }
        },
        _ => Err(complaint(func, " is not a function")),
    }
}

/// The value of the key `k` in the map, nil when it has none.
fn map_value(m: &MalMap, k: &str) -> (r: MalType)
    ensures
        r@ == (match dict_get(m@, k@) {
            Some(v) => v,
            None => Value::Nil,
        }),
{
    match m.get(k) {
        Some(v) => v.clone(),
        None => MalType::Nil,
    }
}

/// Evaluates every element of a list or vector, from left to right.
pub fn eval_collection(rt: &mut Runtime, list: &[MalType], env: Env, fuel: u64) -> (r: Result<
    MalArgs,
    MalErr,
>)
    ensures
        final(rt)@ == eval_seq_spec(old(rt)@, models_of(list@), 0, env as nat, fuel as nat).0,
        match (r, eval_seq_spec(old(rt)@, models_of(list@), 0, env as nat, fuel as nat).1) {
            (Ok(v), Ok(x)) => models_of(v@) == x,
            (Err(e), Err(f)) => fails_as(e, f),
            _ => false,
        },
    decreases fuel, 1nat, 0nat,
{
    let ghost items = models_of(list@);
    let ghost goal = eval_seq_spec(rt@, items, 0, env as nat, fuel as nat);
    let mut ret: Vec<MalType> = Vec::new();
    let mut i: usize = 0;
    proof {
        match goal.1 {
            Ok(s) => {
                assert(models_of(ret@) + s =~= s);
            },
            Err(_) => {},
        }
    }
    while i < list.len()
        invariant
            i <= list.len(),
            items == models_of(list@),
            goal == eval_seq_spec(old(rt)@, items, 0, env as nat, fuel as nat),
            seq_front(models_of(ret@), eval_seq_spec(rt@, items, i as int, env as nat, fuel as nat))
                == goal,
        decreases list.len() - i,
    {
        assert(items[i as int] == list@[i as int]@);
        let ghost before = models_of(ret@);
        match eval_within(rt, &list[i], env, fuel) {
            Ok(v) => {
                ret.push(v);
                proof {
                    assert(models_of(ret@) =~= before.push(v@));
                    match eval_seq_spec(rt@, items, i + 1, env as nat, fuel as nat).1 {
                        Ok(s) => {
                            assert(before + (seq![v@] + s) =~= before.push(v@) + s);
                        },
                        Err(_) => {},
                    }
                }
            },
            Err(e) => {
                return Err(e);
            },
        }
        i += 1;
    }
    assert(models_of(ret@) + Seq::<Value>::empty() =~= models_of(ret@));
    Ok(ret)
}

/// Evaluates the values of a map, the keys staying as they are.
pub fn eval_map(rt: &mut Runtime, map: &MalMap, env: Env, fuel: u64) -> (r: MalRet)
    ensures
        final(rt)@ == eval_map_spec(old(rt)@, map@, 0, env as nat, fuel as nat).0,
        match (r, eval_map_spec(old(rt)@, map@, 0, env as nat, fuel as nat).1) {
            (Ok(v), Ok(x)) => v@ == Value::Dict(x),
            (Err(e), Err(f)) => fails_as(e, f),
            _ => false,
        },
    decreases fuel, 1nat, 0nat,
{
    let source = map.entries();
    let ghost items = map@;
    let ghost goal = eval_map_spec(rt@, items, 0, env as nat, fuel as nat);
    let mut ret: Entries = Vec::new();
    let mut i: usize = 0;
    proof {
        match goal.1 {
            Ok(s) => {
                assert(entries_of(ret@) + s =~= s);
            },
            Err(_) => {},
        }
    }
    while i < source.len()
        invariant
            i <= source.len(),
            ret@.len() == i,
            items == entries_of(source@),
            items == map@,
            distinct_keys(items),
            forall|j: int| 0 <= j < i ==> (#[trigger] ret@[j]).0@ == items[j].0,
            goal == eval_map_spec(old(rt)@, items, 0, env as nat, fuel as nat),
            entries_front(
                entries_of(ret@),
                eval_map_spec(rt@, items, i as int, env as nat, fuel as nat),
            ) == goal,
        decreases source.len() - i,
    {
        assert(items[i as int] == (source@[i as int].0@, source@[i as int].1@));
        let ghost before = entries_of(ret@);
        match eval_within(rt, &source[i].1, env, fuel) {
            Ok(v) => {
                ret.push((source[i].0.clone(), v));
                proof {
                    assert(entries_of(ret@) =~= before.push((items[i as int].0, v@)));
                    match eval_map_spec(rt@, items, i + 1, env as nat, fuel as nat).1 {
                        Ok(s) => {
                            assert(before + (seq![(items[i as int].0, v@)] + s) =~= before.push(
                                (items[i as int].0, v@),
                            ) + s);
                        },
                        Err(_) => {},
                    }
                }
            },
            Err(e) => {
                return Err(e);
            },
        }
        i += 1;
    }
    proof {
        assert(entries_of(ret@) + Seq::<(Seq<char>, Value)>::empty() =~= entries_of(ret@));
        assert forall|a: int, b: int| 0 <= a < b < ret@.len() implies (#[trigger] entries_of(
            ret@,
        )[a]).0 != (#[trigger] entries_of(ret@)[b]).0 by {
            assert(ret@[a].0@ == items[a].0);
            assert(ret@[b].0@ == items[b].0);
        }
    }
    let evaluated = MalMap::from_entries(ret);
    proof {
        crate::value::lemma_map_entries(evaluated);
    }
    Ok(MalType::Dict(evaluated))
}

/// Evaluates an expression that is not a call.
pub fn eval_ast(rt: &mut Runtime, ast: &MalType, env: Env, fuel: u64) -> (r: MalRet)
    ensures
        final(rt)@ == eval_ast_spec(old(rt)@, ast@, env as nat, fuel as nat).0,
        agrees(
            r,
            eval_ast_spec(old(rt)@, ast@, env as nat, fuel as nat).1,
        ),
    decreases fuel, 2nat, 0nat,
{
    match ast {
        MalType::Sym(sym) => env_get(rt, env, sym.as_str()),
        MalType::List(list) => {
            proof {
                lemma_view_list(*list);
            }
            match eval_collection(rt, list.as_slice(), env, fuel) {
                Ok(v) => {
                    proof {
                        lemma_view_list(v);
                    }
                    Ok(MalType::List(v))
                },
                Err(e) => Err(e),
            }
        },
        MalType::Vector(list) => {
            proof {
                lemma_view_list(*list);
            }
            match eval_collection(rt, list.as_slice(), env, fuel) {
                Ok(v) => {
                    proof {
                        lemma_view_list(v);
                    }
                    Ok(MalType::Vector(v))
                },
                Err(e) => Err(e),
            }
        },
        MalType::Dict(map) => {
            proof {
                lemma_view_dict(*map);
            }
            eval_map(rt, map, env, fuel)
        },
        _ => Ok(ast.clone()),
    }
}

/// `do`: evaluates all the expressions but the last and gives a copy of
/// the last one, unevaluated; nil when there is none.
pub fn do_form(rt: &mut Runtime, list: &[MalType], env: Env, fuel: u64) -> (r: MalRet)
    ensures
        final(rt)@ == do_last(old(rt)@, models_of(list@), env as nat, fuel as nat).0,
        agrees(
            r,
            do_last(old(rt)@, models_of(list@), env as nat, fuel as nat).1,
        ),
    decreases fuel, 2nat, 0nat,
{
    let (front, last) = first_last(list);
    let ghost items = models_of(front@);
    let ghost goal = run_all(rt@, items, 0, env as nat, fuel as nat);
    assert(items =~= front_of(models_of(list@)));
    let mut i: usize = 0;
    while i < front.len()
        invariant
            i <= front.len(),
            items == models_of(front@),
            items == front_of(models_of(list@)),
            goal == run_all(old(rt)@, items, 0, env as nat, fuel as nat),
            run_all(rt@, items, i as int, env as nat, fuel as nat) == goal,
        decreases front.len() - i,
    {
        assert(items[i as int] == front@[i as int]@);
        match eval_within(rt, &front[i], env, fuel) {
            Ok(_) => {},
            Err(e) => {
                return Err(e);
            },
        }
        i += 1;
    }
    if list.len() > 0 {
        assert(models_of(list@)[list@.len() - 1] == list@[list@.len() - 1]@);
    }
    last
}

/// `def!`: evaluates the second argument and binds it to the first, a
/// symbol, in `env`.
pub fn def_bang_form(rt: &mut Runtime, list: &[MalType], env: Env, fuel: u64) -> (r: MalRet)
    ensures
        final(rt)@ == def_spec(old(rt)@, models_of(list@), env as nat, fuel as nat).0,
        agrees(
            r,
            def_spec(old(rt)@, models_of(list@), env as nat, fuel as nat).1,
        ),
    decreases fuel, 2nat, 0nat,
{
    if list.len() != 2 {
        return Err(MalErr::unrecoverable("def! form: needs 2 arguments"));
    }
    assert(models_of(list@)[0] == list@[0]@);
    assert(models_of(list@)[1] == list@[1]@);
    let sym = match list[0].if_symbol() {
        Ok(s) => s,
        Err(e) => {
            return Err(e);
        },
    };
    match eval_within(rt, &list[1], env, fuel) {
        Ok(val) => {
            env_set(rt, env, sym, &val);
            Ok(val)
        },
        Err(e) => Err(e),
    }
}

/// `let*`: binds the pairs of the first argument in a new frame inside
/// `env`, runs the body there but for its last expression, and gives that
/// expression with the new frame.
pub fn let_star_form(rt: &mut Runtime, list: &[MalType], env: Env, fuel: u64) -> (r: Result<
    (MalType, Env),
    MalErr,
>)
    ensures
        final(rt)@ == let_setup(old(rt)@, models_of(list@), env as nat, fuel as nat).0,
        match (r, let_setup(old(rt)@, models_of(list@), env as nat, fuel as nat).1) {
            (Ok(p), Ok(x)) => (p.0@, p.1 as nat) == x,
            (Err(e), Err(f)) => fails_as(e, f),
            _ => false,
        },
    decreases fuel, 4nat, 0nat,
{
    let (first, body) = match car_cdr(list) {
        Ok(p) => p,
        Err(e) => {
            return Err(e);
        },
    };
    assert(models_of(list@)[0] == list@[0]@);
    assert(models_of(body@) =~= rest_of(models_of(list@)));
    let binds = match first.if_list() {
        Ok(b) => b,
        Err(e) => {
            return Err(e);
        },
    };
    if binds.len() % 2 != 0 {
        return Err(MalErr::unrecoverable("let* form, number of arguments must be even"));
    }
    let inner = env_new(rt, Some(env));
    let ghost b = models_of(binds@);
    let ghost goal = let_bind(rt@, b, 0, inner as nat, fuel as nat);
    let mut i: usize = 0;
    while i < binds.len()
        invariant
            i <= binds.len(),
            i % 2 == 0,
            binds.len() % 2 == 0,
            b == models_of(binds@),
            items_of(models_of(list@)[0]) == Some(b),
            list@.len() > 0,
            inner == old(rt)@.frames.len(),
            goal == let_bind(
                old(rt)@.with_frame(FrameView { data: Seq::empty(), outer: Some(env as nat) }),
                b,
                0,
                inner as nat,
                fuel as nat,
            ),
            let_bind(rt@, b, i as int, inner as nat, fuel as nat) == goal,
        decreases binds.len() - i,
    {
        let pair = slice_subrange(binds, i, i + 2);
        assert(models_of(pair@) =~= b.subrange(i as int, i + 2));
        match def_bang_form(rt, pair, inner, fuel) {
            Ok(_) => {},
            Err(e) => {
                return Err(e);
            },
        }
        i += 2;
    }
    match do_form(rt, body, inner, fuel) {
        Ok(last) => Ok((last, inner)),
        Err(e) => Err(e),
    }
}

/// `if`: evaluates the condition and gives a copy of the branch to go on
/// with, unevaluated.
pub fn if_form(rt: &mut Runtime, list: &[MalType], env: Env, fuel: u64) -> (r: MalRet)
    ensures
        final(rt)@ == if_branch(old(rt)@, models_of(list@), env as nat, fuel as nat).0,
        agrees(
            r,
            if_branch(old(rt)@, models_of(list@), env as nat, fuel as nat).1,
        ),
    decreases fuel, 2nat, 0nat,
{
    if !(2 <= list.len() && list.len() <= 3) {
        return Err(MalErr::unrecoverable("if form: number of arguments is wrong"));
    }
    assert(models_of(list@)[0] == list@[0]@);
    assert(models_of(list@)[1] == list@[1]@);
    match eval_within(rt, &list[0], env, fuel) {
        Ok(c) => {
            if is_truthy(&c) {
                Ok(list[1].clone())
            } else if list.len() == 3 {
                assert(models_of(list@)[2] == list@[2]@);
                Ok(list[2].clone())
            } else {
                Ok(MalType::Nil)
            }
        },
        Err(e) => Err(e),
    }
}

/// `fn*`: a function of the given parameters and body that keeps `env`.
pub fn fn_star_form(list: &[MalType], env: Env) -> (r: MalRet)
    ensures
        outcome(r) == fn_value(models_of(list@), env as nat),
        hard(r),
{
    let (binds, exprs) = match car_cdr(list) {
        Ok(p) => p,
        Err(e) => {
            return Err(e);
        },
    };
    assert(models_of(list@)[0] == list@[0]@);
    match binds.if_list() {
        Ok(_) => {},
        Err(e) => {
            return Err(e);
        },
    }
    let body = copy_range(exprs, 0, exprs.len());
    proof {
        lemma_view_list(body);
        assert(models_of(body@) =~= rest_of(models_of(list@)));
    }
    Ok(
        MalType::MalFun {
            params: Box::new(binds.clone()),
            ast: Box::new(MalType::List(body)),
            env,
        },
    )
}

/// `help`: prints what is known of the value of a symbol.
pub fn help_form(rt: &mut Runtime, list: &[MalType], env: Env, fuel: u64) -> (r: MalRet)
    ensures
        final(rt)@ == help_spec(old(rt)@, models_of(list@), env as nat, fuel as nat).0,
        agrees(
            r,
            help_spec(old(rt)@, models_of(list@), env as nat, fuel as nat).1,
        ),
    decreases fuel, 2nat, 0nat,
{
    if list.len() == 0 {
        return Err(MalErr::unrecoverable("Expected at least one argument"));
    }
    assert(models_of(list@)[0] == list@[0]@);
    let sym = match list[0].if_symbol() {
        Ok(s) => s,
        Err(e) => {
            return Err(e);
        },
    };
    let value = match eval_within(rt, &list[0], env, fuel) {
        Ok(v) => v,
        Err(e) => {
            return Err(e);
        },
    };
    let mut out = sym.to_owned();
    match &value {
        MalType::Fun(b) => {
            out.append("\t[builtin]: ");
            out.append(describe(*b));
            out.append("\n\n");
        },
        MalType::MalFun { params, ast, env } => {
            out.append("\t[function]: ");
            out.append(prt(&**params).as_str());
            out.push('\n');
            let lines = print_malfun(&**ast);
            out.append(lines.as_str());
            out.push('\n');
        },
        _ => {
            out.append("\t[symbol]: ");
            out.append(prt(&value).as_str());
            out.append("\n\n");
        },
    }
    assert(out@ =~= help_text(sym@, value@));
    rt.print(out);
    Ok(MalType::Nil)
}

/// One line for each expression of the body of a function.
pub fn print_malfun(ast: &MalType) -> (r: String)
    ensures
        r@ == body_lines(
            match items_of(ast@) {
                Some(l) => l,
                None => Seq::empty(),
            },
            0,
        ),
{
    let mut out = String::new();
    match ast.if_list() {
        Ok(list) => {
            let ghost l = models_of(list@);
            assert(out@ + body_lines(l, 0) =~= body_lines(l, 0));
            let mut i: usize = 0;
            while i < list.len()
                invariant
                    i <= list.len(),
                    l == models_of(list@),
                    out@ + body_lines(l, i as int) == body_lines(l, 0),
                decreases list.len() - i,
            {
                assert(l[i as int] == list@[i as int]@);
                let ghost before = out@;
                out.append(";   ");
                out.append(prt(&list[i]).as_str());
                out.push('\n');
                assert(out@ + body_lines(l, i + 1) =~= before + body_lines(l, i as int));
                i += 1;
            }
            assert(out@ + body_lines(l, list.len() as int) =~= out@);
        },
        Err(_) => {},
    }
    out
}

/// Whether every pattern is a symbol whose name stands somewhere in `key`.
fn key_matches(key: &str, patterns: &[MalType]) -> (b: bool)
    ensures
        b == has_all(key@, models_of(patterns@), 0),
{
    let ghost ps = models_of(patterns@);
    let mut i: usize = 0;
    while i < patterns.len()
        invariant
            i <= patterns.len(),
            ps == models_of(patterns@),
            has_all(key@, ps, 0) == has_all(key@, ps, i as int),
        decreases patterns.len() - i,
    {
        assert(ps[i as int] == patterns@[i as int]@);
        match &patterns[i] {
            MalType::Sym(p) => {
                if !text_contains(key, p.as_str()) {
                    return false;
                }
            },
            _ => {
                return false;
            },
        }
        i += 1;
    }
    true
}

/// `find`: prints the names bound in the outermost frame in which the name
/// of every argument stands.
pub fn find_form(rt: &mut Runtime, list: &[MalType], env: Env) -> (r: MalRet)
    ensures
        final(rt)@ == find_spec(old(rt)@, models_of(list@), env as nat).0,
        agrees(
            r,
            find_spec(old(rt)@, models_of(list@), env as nat).1,
        ),
{
    let ghost ps = models_of(list@);
    let mut i: usize = 0;
    while i < list.len()
        invariant
            i <= list.len(),
            ps == models_of(list@),
            *rt == *old(rt),
            all_symbols(ps, 0) == all_symbols(ps, i as int),
        decreases list.len() - i,
    {
        assert(ps[i as int] == list@[i as int]@);
        match list[i].if_symbol() {
            Ok(_) => {},
            Err(e) => {
                return Err(e);
            },
        }
        i += 1;
    }
    let keys = rt.keys(outermost(rt, env));
    let ghost ks = texts_of(keys@);
    let mut found: Vec<String> = Vec::new();
    assert(texts_of(found@) =~= matching_keys(ks, ps, 0));
    let mut j: usize = 0;
    while j < keys.len()
        invariant
            j <= keys.len(),
            ks == texts_of(keys@),
            ps == models_of(list@),
            texts_of(found@) == matching_keys(ks, ps, j as nat),
        decreases keys.len() - j,
    {
        assert(ks[j as int] == keys@[j as int]@);
        if key_matches(keys[j].as_str(), list) {
            let ghost before = texts_of(found@);
            found.push(keys[j].clone());
            assert(texts_of(found@) =~= before.push(ks[j as int]));
        }
        j += 1;
    }
    let mut out = "\t[matches]:\n".to_owned();
    out.append(join_spaced(&found).as_str());
    out.append("\n\n");
    assert(texts_of(found@) =~= Seq::new(found@.len(), |i: int| found@[i]@));
    rt.print(out);
    Ok(MalType::Nil)
}

/// Applies a special form to its unevaluated arguments.
pub fn eval_form(rt: &mut Runtime, form: Form, args: &[MalType], env: Env, fuel: u64) -> (r:
    CallRet)
    ensures
        final(rt)@ == form_step(
            old(rt)@,
            form,
            models_of(args@),
            env as nat,
            fuel as nat,
        ).0,
        agrees_call(
            r,
            form_step(
            old(rt)@,
            form,
            models_of(args@),
            env as nat,
            fuel as nat,
        ).1,
        ),
    decreases fuel, 6nat, 0nat,
{
    if args.len() > 0 {
        assert(models_of(args@)[0] == args@[0]@);
    }
    match form {
        Form::Def => match def_bang_form(rt, args, env, fuel) {
            Ok(v) => Ok(CallFunc::Builtin(v)),
            Err(e) => Err(e),
        },
        Form::Let => match let_star_form(rt, args, env, fuel) {
            Ok((ast, inner)) => Ok(CallFunc::MalFun(ast, inner)),
            Err(e) => Err(e),
        },
        Form::Do => match do_form(rt, args, env, fuel) {
            Ok(ast) => Ok(CallFunc::MalFun(ast, env)),
            Err(e) => Err(e),
        },
        Form::If => match if_form(rt, args, env, fuel) {
            Ok(ast) => Ok(CallFunc::MalFun(ast, env)),
            Err(e) => Err(e),
        },
        Form::Fn => match fn_star_form(args, env) {
            Ok(v) => Ok(CallFunc::Builtin(v)),
            Err(e) => Err(e),
        },
        Form::Quote => {
            if args.len() == 0 {
                Err(MalErr::unrecoverable("Expected at least one argument"))
            } else {
                Ok(CallFunc::Builtin(args[0].clone()))
            }
        },
        Form::Guard => {
            if args.len() == 0 {
                return Err(MalErr::unrecoverable("Expected at least one argument"));
            }
            let inner = eval_within(rt, &args[0], env, fuel);
            if rt.is_halted() {
                return match inner {
                    Ok(_) => Err(MalErr::unrecoverable("Evaluation stopped")),
                    Err(e) => Err(e),
                };
            }
            match inner {
                Ok(_) => Ok(CallFunc::Builtin(MalType::T)),
                Err(_) => Ok(CallFunc::Builtin(MalType::Nil)),
            }
        },
        Form::Eval => {
            if args.len() == 0 {
                return Err(MalErr::unrecoverable("Expected at least one argument"));
            }
            match eval_within(rt, &args[0], env, fuel) {
                Ok(ast) => {
                    let root = outermost(rt, env);
                    Ok(CallFunc::MalFun(ast, root))
                },
                Err(e) => Err(e),
            }
        },
        Form::Help => match help_form(rt, args, env, fuel) {
            Ok(v) => Ok(CallFunc::Builtin(v)),
            Err(e) => Err(e),
        },
        Form::Find => match find_form(rt, args, env) {
            Ok(v) => Ok(CallFunc::Builtin(v)),
            Err(e) => Err(e),
        },
    }
}

/// Evaluates an expression in an environment.
///
/// Nothing is evaluated while the world is stopped. The budget is the
/// largest there is.
pub fn eval(rt: &mut Runtime, ast: &MalType, env: Env) -> (r: MalRet)
    ensures
        final(rt)@ == (if old(rt)@.halt is Some {
            (old(rt)@, Err::<Value, Fault>(Fault::Other))
        } else {
            eval_spec(old(rt)@, ast@, env as nat, u64::MAX as nat)
        }).0,
        agrees(r, (if old(rt)@.halt is Some {
            (old(rt)@, Err::<Value, Fault>(Fault::Other))
        } else {
            eval_spec(old(rt)@, ast@, env as nat, u64::MAX as nat)
        }).1),
{
    if rt.is_halted() {
        return Err(MalErr::unrecoverable("Evaluation stopped"));
    }
    eval_within(rt, ast, env, u64::MAX)
}

} // verus!
