//! General properties of the interpreter, each proved from the definitions
//! that the contracts of the library use.
use crate::builtins::{
    arith_fold, arith_result, arith_step, division_defined, integer, truthy, zero_from,
};
use crate::env::{FrameView, HaltView, World};
use crate::builtins::{builtin_result, front_of, rest_of};
use crate::eval::{
    apply_step, call_spec, def_spec, do_last, eval_again, eval_ast_spec, eval_map_spec,
    eval_seq_spec, eval_spec, find_spec, form_step, func_spec, help_spec, if_branch, let_bind,
    let_setup, ok_spec, run_all, step_spec, Called, Form,
};
use crate::frac::{
    fits, gcd, lemma_gcd_divides, lemma_reduce_lowest_terms, lowest_terms, magnitude, ratio_add, ratio_apply, ratio_div, ratio_eq,
    ratio_mul, reduce, ArithOp, Ratio,
};
use crate::frac::{
    denominator_digits, number_shaped, numerator_digits, parse_number, ratio_text, slash_at,
    written_ratio,
};
use crate::printer::{keyword_text, print_value, sentinel};
use crate::reader::{
    atom_of, is_closer, lemma_parse_form_advances, lemma_parse_items_advances, parse_form,
    parse_items, scan_string, Parse, ParseSeq, Quoted,
};
use crate::text::{
    all_digits, decimal, decimal_int, digits_value, escape_body, escape_char, escape_text,
    is_digit, lemma_decimal_digits, lemma_decimal_round_trip, lemma_unescape_escape,
    unescape_text,
};
use crate::value::items_eq;
use crate::types::Severity;
use crate::value::{dict_get, dict_put, lemma_dict_put, value_eq, Value};
use vstd::prelude::*;

verus! {

/// An integer over 1 is in lowest terms.
pub proof fn lemma_reduce_integer(n: int)
    ensures
        reduce(n, 1) == (Ratio { num: n, den: 1 }),
{
    reveal_with_fuel(gcd, 3);
    let m = magnitude(n);
    assert(m % 1 == 0);
    assert(gcd(m, 1) == 1);
}

proof fn lemma_times_one(a: int, one: int)
    requires
        one == 1,
    ensures
        a * one == a,
        one * a == a,
{
}

/// Reducing a fraction gives the same rational, and one that fits where the
/// fraction did.
pub proof fn lemma_reduce_same_rational(n: int, d: int)
    requires
        d > 0,
    ensures
        ratio_eq(reduce(n, d), Ratio { num: n, den: d }),
        reduce(n, d).den > 0,
        fits(Ratio { num: n, den: d }) ==> fits(reduce(n, d)),
{
    let m = magnitude(n);
    let g = gcd(m, d as nat);
    lemma_gcd_divides(m, d as nat);
    let qm = m / g;
    let qd = (d as nat) / g;
    assert(qm * g == m && qd * g == d && qm <= m && qd <= d && qd > 0) by (nonlinear_arith)
        requires
            g > 0,
            m % g == 0,
            (d as nat) % g == 0,
            qm == m / g,
            qd == (d as nat) / g,
            d > 0,
    ;
    assert(qm * d == m * qd) by (nonlinear_arith)
        requires
            qm * g == m,
            qd * g == d,
    ;
    if n < 0 {
        assert((-(qm as int)) * d == n * (qd as int)) by (nonlinear_arith)
            requires
                qm * d == m * qd,
                m == -n,
        ;
    }
}

/// `(+ x y z)` is `(+ (+ x y) z)`, for any three values: both fail
/// together, and give the same number otherwise.
pub proof fn law_addition_folds_left(x: Value, y: Value, z: Value)
    ensures
        arith_result(0, ArithOp::Add, seq![x, y, z]) == (match arith_result(
            0,
            ArithOp::Add,
            seq![x, y],
        ) {
            Some(s) => arith_result(0, ArithOp::Add, seq![s, z]),
            None => None,
        }),
{
    reveal_with_fuel(arith_fold, 4);
}

/// The sum of three integers is the integer `a + b + c`, where `a + b` and
/// `a + b + c` fit.
pub proof fn law_addition_of_integers(a: int, b: int, c: int)
    requires
        isize::MIN <= a + b <= isize::MAX,
        isize::MIN <= a + b + c <= isize::MAX,
    ensures
        arith_result(0, ArithOp::Add, seq![integer(a), integer(b), integer(c)]) == Some(
            integer(a + b + c),
        ),
{
    reveal_with_fuel(arith_fold, 4);
    lemma_reduce_integer(a + b);
    lemma_reduce_integer(a + b + c);
    let ra = Ratio { num: a, den: 1 };
    let rb = Ratio { num: b, den: 1 };
    let rc = Ratio { num: c, den: 1 };
    lemma_times_one(a, rb.den);
    lemma_times_one(b, ra.den);
    lemma_times_one(1, rb.den);
    lemma_times_one(a + b, rc.den);
    lemma_times_one(c, 1);
    assert(ratio_add(ra, rb) == (Ratio { num: a + b, den: 1 }));
    assert(ratio_add(Ratio { num: a + b, den: 1 }, rc) == (Ratio { num: a + b + c, den: 1 }));
}

/// Whether every number among the values has a positive denominator.
pub open spec fn proper_numbers(args: Seq<Value>) -> bool {
    forall|i: int| 0 <= i < args.len() ==> (#[trigger] args[i] matches Value::Num(r) ==> r.den > 0)
}

/// One arithmetic step gives a number in lowest terms.
pub proof fn lemma_step_lowest_terms(op: ArithOp, a: Ratio, b: Ratio)
    requires
        a.den > 0,
        b.den > 0,
        op == ArithOp::Div ==> b.num != 0,
    ensures
        lowest_terms(ratio_apply(op, a, b)),
{
    assert(a.den * b.den > 0) by (nonlinear_arith)
        requires
            a.den > 0,
            b.den > 0,
    ;
    match op {
        ArithOp::Add => lemma_reduce_lowest_terms(a.num * b.den + b.num * a.den, a.den * b.den),
        ArithOp::Sub => lemma_reduce_lowest_terms(a.num * b.den - b.num * a.den, a.den * b.den),
        ArithOp::Mul => lemma_reduce_lowest_terms(a.num * b.num, a.den * b.den),
        ArithOp::Div => {
            let m = magnitude(b.num);
            assert(a.den * m > 0) by (nonlinear_arith)
                requires
                    a.den > 0,
                    m > 0,
            ;
            lemma_reduce_lowest_terms(-(a.num * b.den), a.den * m);
            lemma_reduce_lowest_terms(a.num * b.den, a.den * m);
        },
    }
}

proof fn lemma_fold_lowest_terms(op: ArithOp, acc: Ratio, args: Seq<Value>, i: int)
    requires
        0 <= i,
        acc.den > 0,
        proper_numbers(args),
        lowest_terms(acc) || i < args.len(),
    ensures
        arith_fold(op, acc, args, i) matches Some(r) ==> lowest_terms(r),
    decreases args.len() - i,
{
    if i < args.len() {
        match arith_step(op, acc, args[i]) {
            Some(next) => {
                lemma_step_lowest_terms(op, acc, args[i]->Num_0);
                lemma_fold_lowest_terms(op, next, args, i + 1);
            },
            None => {},
        }
    }
}

/// Whatever number an arithmetic function returns is in lowest terms.
pub proof fn law_arithmetic_in_lowest_terms(set: int, op: ArithOp, args: Seq<Value>)
    requires
        proper_numbers(args),
    ensures
        arith_result(set, op, args) matches Some(Value::Num(r)) ==> lowest_terms(r),
{
    if args.len() == 0 {
        lemma_reduce_integer(set);
        lemma_reduce_lowest_terms(set, 1);
    } else if args.len() == 1 {
        match arith_step(op, Ratio { num: set, den: 1 }, args[0]) {
            Some(r) => {
                lemma_step_lowest_terms(op, Ratio { num: set, den: 1 }, args[0]->Num_0);
            },
            None => {},
        }
    } else {
        match args[0] {
            Value::Num(r) => {
                lemma_fold_lowest_terms(op, r, args, 1);
            },
            _ => {},
        }
    }
}

/// `(* 1 x)` equals `x` under `=`, for every number `x`.
pub proof fn law_one_times(x: Ratio)
    requires
        fits(x),
    ensures
        arith_result(1, ArithOp::Mul, seq![integer(1), Value::Num(x)]) matches Some(v)
            && value_eq(v, Value::Num(x)),
{
    reveal_with_fuel(arith_fold, 3);
    lemma_reduce_same_rational(x.num, x.den);
    let one = Ratio { num: 1, den: 1 };
    lemma_times_one(x.num, one.num);
    lemma_times_one(x.den, one.den);
    assert(one.num * x.num == x.num && one.den * x.den == x.den);
    assert(ratio_mul(one, x) == reduce(x.num, x.den));
}

/// `(/ x 1)` equals `x` under `=`, for every number `x` other than zero
/// (no operand of a division may be zero).
pub proof fn law_divided_by_one(x: Ratio)
    requires
        fits(x),
        x.num != 0,
    ensures
        division_defined(seq![Value::Num(x), integer(1)]),
        arith_result(1, ArithOp::Div, seq![Value::Num(x), integer(1)]) matches Some(v)
            && value_eq(v, Value::Num(x)),
{
    reveal_with_fuel(arith_fold, 3);
    reveal_with_fuel(zero_from, 3);
    lemma_reduce_same_rational(x.num, x.den);
    let one = Ratio { num: 1, den: 1 };
    lemma_times_one(x.num, one.den);
    lemma_times_one(x.den, magnitude(one.num) as int);
    assert(ratio_div(x, one) == reduce(x.num, x.den));
}

/// After a name is bound in a frame, looking it up from that frame gives
/// the bound value.
pub proof fn law_define_then_lookup(w: World, env: nat, k: Seq<char>, v: Value)
    requires
        env < w.frames.len(),
    ensures
        w.define(env, k, v).lookup(env, k) == Some(v),
{
    lemma_dict_put(w.frames[env as int].data, k, v, k);
}

/// Binding a name in a frame changes nothing for a frame that was made
/// before it: what any name means there stays as it was.
pub proof fn law_define_is_local(
    w: World,
    env: nat,
    k: Seq<char>,
    v: Value,
    other: nat,
    name: Seq<char>,
)
    requires
        other < env,
    ensures
        w.define(env, k, v).lookup(other, name) == w.lookup(other, name),
    decreases other,
{
    let w2 = w.define(env, k, v);
    if other < w.frames.len() {
        assert(w2.frames[other as int] == w.frames[other as int]);
        match w.frames[other as int].outer {
            Some(o) => {
                if o < other {
                    law_define_is_local(w, env, k, v, o, name);
                }
            },
            None => {},
        }
    }
}

/// Binding a name changes nothing for any other name, from whatever frame
/// it is looked up.
pub proof fn law_define_keeps_other_names(
    w: World,
    env: nat,
    k: Seq<char>,
    v: Value,
    other: nat,
    name: Seq<char>,
)
    requires
        name != k,
    ensures
        w.define(env, k, v).lookup(other, name) == w.lookup(other, name),
    decreases other,
{
    let w2 = w.define(env, k, v);
    if other < w.frames.len() {
        if env < w.frames.len() {
            lemma_dict_put(w.frames[env as int].data, k, v, name);
        }
        assert(w2.frames[other as int].outer == w.frames[other as int].outer);
        assert(dict_get(w2.frames[other as int].data, name) == dict_get(
            w.frames[other as int].data,
            name,
        ));
        match w.frames[other as int].outer {
            Some(o) => {
                if o < other {
                    law_define_keeps_other_names(w, env, k, v, o, name);
                }
            },
            None => {},
        }
    }
}

/// A new frame changes nothing for the frames that exist: what any name
/// means there stays as it was.
pub proof fn law_new_frame_is_invisible(w: World, f: FrameView, other: nat, name: Seq<char>)
    requires
        other < w.frames.len(),
    ensures
        w.with_frame(f).lookup(other, name) == w.lookup(other, name),
    decreases other,
{
    let w2 = w.with_frame(f);
    assert(w2.frames[other as int] == w.frames[other as int]);
    match w.frames[other as int].outer {
        Some(o) => {
            if o < other {
                law_new_frame_is_invisible(w, f, o, name);
            }
        },
        None => {},
    }
}

/// After `(def! s e)` has a value in the frame `env`, `s` means that value
/// in `env`.
pub proof fn law_def_binds(w: World, s: Seq<char>, e: Value, env: nat, fuel: nat)
    requires
        def_spec(w, seq![Value::Sym(s), e], env, fuel).1 is Ok,
        env < w.frames.len(),
    ensures
        def_spec(w, seq![Value::Sym(s), e], env, fuel).0.lookup(env, s) == Some(
            def_spec(w, seq![Value::Sym(s), e], env, fuel).1->Ok_0,
        ),
{
    let (w1, v) = eval_spec(w, e, env, fuel);
    law_evaluation_keeps_frames(w, e, env, fuel);
    law_define_then_lookup(w1, env, s, v->Ok_0);
}

/// `let*` binds in a frame of its own: the frame that the body runs in is
/// none of the frames that existed when the form was entered.
pub proof fn law_let_frame_is_new(w: World, args: Seq<Value>, env: nat, fuel: nat)
    ensures
        let_setup(w, args, env, fuel).1 matches Ok(next) ==> next.1 == w.frames.len(),
{
}

/// Only nil and false take the else branch of an `if`: with a condition
/// that has the value `c`, the form goes on with its third argument (nil
/// when there is none) exactly when `c` is nil or false, and with its
/// second argument otherwise.
pub proof fn law_falsiness(w: World, args: Seq<Value>, env: nat, fuel: nat)
    requires
        2 <= args.len() <= 3,
        eval_spec(w, args[0], env, fuel).1 is Ok,
    ensures
        ({
            let c = eval_spec(w, args[0], env, fuel).1->Ok_0;
            if_branch(w, args, env, fuel).1 == Ok::<Value, crate::value::Fault>(
                if c is Nil || c is F {
                    if args.len() == 3 {
                        args[2]
                    } else {
                        Value::Nil
                    }
                } else {
                    args[1]
                },
            )
        }),
        truthy(integer(0)),
        truthy(Value::Str(Seq::empty())),
        truthy(Value::List(Seq::empty())),
        truthy(Value::Vector(Seq::empty())),
        truthy(Value::Dict(Seq::empty())),
{
}

/// A form that is read reads the same from any prefix of the tokens that
/// holds all of it.
pub proof fn law_prefix_reads_same(tokens: Seq<Seq<char>>, pos: int, k: int)
    requires
        parse_form(tokens, pos) matches Parse::Done { next, .. } && next <= k <= tokens.len(),
    ensures
        parse_form(tokens.take(k), pos) == parse_form(tokens, pos),
    decreases tokens.len() - pos, 0nat,
{
    let short = tokens.take(k);
    lemma_parse_form_advances(tokens, pos);
    assert(short[pos] == tokens[pos]);
    if tokens[pos] == seq!['('] {
        lemma_prefix_reads_same_items(tokens, pos + 1, ')', k);
    } else if tokens[pos] == seq!['['] {
        lemma_prefix_reads_same_items(tokens, pos + 1, ']', k);
    } else if tokens[pos] == seq!['{'] {
        lemma_prefix_reads_same_items(tokens, pos + 1, '}', k);
    } else if tokens[pos] == seq!['\''] {
        law_prefix_reads_same(tokens, pos + 1, k);
    }
}

/// The elements of a collection that is read read the same from any prefix
/// of the tokens that holds all of them.
pub proof fn lemma_prefix_reads_same_items(tokens: Seq<Seq<char>>, pos: int, close: char, k: int)
    requires
        parse_items(tokens, pos, close) matches ParseSeq::Done { next, .. } && next <= k
            <= tokens.len(),
    ensures
        parse_items(tokens.take(k), pos, close) == parse_items(tokens, pos, close),
    decreases tokens.len() - pos, 1nat,
{
    let short = tokens.take(k);
    lemma_parse_items_advances(tokens, pos, close);
    assert(short[pos] == tokens[pos]);
    if tokens[pos] != seq![close] {
        lemma_parse_form_advances(tokens, pos);
        match parse_form(tokens, pos) {
            Parse::Done { value, next } => {
                lemma_parse_items_advances(tokens, next, close);
                law_prefix_reads_same(tokens, pos, k);
                lemma_prefix_reads_same_items(tokens, next, close, k);
            },
            _ => {},
        }
    }
}

/// Reading a form from a prefix of its tokens that ends inside the form
/// fails with a recoverable error.
pub proof fn law_unfinished_form_is_recoverable(tokens: Seq<Seq<char>>, pos: int, k: int)
    requires
        parse_form(tokens, pos) matches Parse::Done { next, .. } && pos <= k < next,
    ensures
        parse_form(tokens.take(k), pos) == Parse::Fail(Severity::Recoverable),
    decreases tokens.len() - pos, 0nat,
{
    let short = tokens.take(k);
    lemma_parse_form_advances(tokens, pos);
    if pos < k {
        assert(short[pos] == tokens[pos]);
        if tokens[pos] == seq!['('] {
            lemma_unfinished_items_are_recoverable(tokens, pos + 1, ')', k);
        } else if tokens[pos] == seq!['['] {
            lemma_unfinished_items_are_recoverable(tokens, pos + 1, ']', k);
        } else if tokens[pos] == seq!['{'] {
            lemma_unfinished_items_are_recoverable(tokens, pos + 1, '}', k);
        } else if tokens[pos] == seq!['\''] {
            law_unfinished_form_is_recoverable(tokens, pos + 1, k);
        }
    }
}

/// Reading the elements of a collection from a prefix of the tokens that
/// ends before its closing delimiter fails with a recoverable error.
pub proof fn lemma_unfinished_items_are_recoverable(
    tokens: Seq<Seq<char>>,
    pos: int,
    close: char,
    k: int,
)
    requires
        parse_items(tokens, pos, close) matches ParseSeq::Done { next, .. } && pos <= k < next,
    ensures
        parse_items(tokens.take(k), pos, close) == ParseSeq::Fail(Severity::Recoverable),
    decreases tokens.len() - pos, 1nat,
{
    let short = tokens.take(k);
    lemma_parse_items_advances(tokens, pos, close);
    if pos < k {
        assert(short[pos] == tokens[pos]);
        if tokens[pos] != seq![close] {
            lemma_parse_form_advances(tokens, pos);
            match parse_form(tokens, pos) {
                Parse::Done { value, next } => {
                    lemma_parse_items_advances(tokens, next, close);
                    if k < next {
                        law_unfinished_form_is_recoverable(tokens, pos, k);
                    } else {
                        law_prefix_reads_same(tokens, pos, k);
                        lemma_unfinished_items_are_recoverable(tokens, next, close, k);
                    }
                },
                _ => {},
            }
        }
    }
}

/// Reading a form from a prefix of its tokens that ends inside a string
/// fails with a recoverable error: the prefix holds some of the tokens of
/// the form and then, as its last token, a string that is not closed.
pub proof fn law_unfinished_string_is_recoverable(
    tokens: Seq<Seq<char>>,
    pos: int,
    k: int,
    open: Seq<char>,
)
    requires
        parse_form(tokens, pos) matches Parse::Done { next, .. } && pos <= k < next,
        atom_of(open) == Err::<Value, Severity>(Severity::Recoverable),
    ensures
        parse_form(tokens.take(k).push(open), pos) == Parse::Fail(Severity::Recoverable),
    decreases tokens.len() - pos, 0nat,
{
    let short = tokens.take(k).push(open);
    lemma_parse_form_advances(tokens, pos);
    assert(open.len() > 0 && open[0] == '"');
    assert(seq!['('][0] == '(' && seq!['['][0] == '[' && seq!['{'][0] == '{' && seq!['\''][0]
        == '\'');
    if pos < k {
        assert(short[pos] == tokens[pos]);
        if tokens[pos] == seq!['('] {
            lemma_unfinished_string_in_items(tokens, pos + 1, ')', k, open);
        } else if tokens[pos] == seq!['['] {
            lemma_unfinished_string_in_items(tokens, pos + 1, ']', k, open);
        } else if tokens[pos] == seq!['{'] {
            lemma_unfinished_string_in_items(tokens, pos + 1, '}', k, open);
        } else if tokens[pos] == seq!['\''] {
            law_unfinished_string_is_recoverable(tokens, pos + 1, k, open);
        }
    } else {
        assert(short[pos] == open);
    }
}

/// Reading the elements of a collection from a prefix of the tokens that
/// ends inside a string fails with a recoverable error.
pub proof fn lemma_unfinished_string_in_items(
    tokens: Seq<Seq<char>>,
    pos: int,
    close: char,
    k: int,
    open: Seq<char>,
)
    requires
        parse_items(tokens, pos, close) matches ParseSeq::Done { next, .. } && pos <= k < next,
        atom_of(open) == Err::<Value, Severity>(Severity::Recoverable),
        close == ')' || close == ']' || close == '}',
    ensures
        parse_items(tokens.take(k).push(open), pos, close) == ParseSeq::Fail(
            Severity::Recoverable,
        ),
    decreases tokens.len() - pos, 1nat,
{
    let short = tokens.take(k).push(open);
    lemma_parse_items_advances(tokens, pos, close);
    assert(open.len() > 0 && open[0] == '"');
    assert(seq![close][0] == close);
    assert(seq!['('][0] == '(' && seq!['['][0] == '[' && seq!['{'][0] == '{' && seq!['\''][0]
        == '\'');
    if pos < k {
        assert(short[pos] == tokens[pos]);
        if tokens[pos] != seq![close] {
            lemma_parse_form_advances(tokens, pos);
            match parse_form(tokens, pos) {
                Parse::Done { value, next } => {
                    lemma_parse_items_advances(tokens, next, close);
                    if k < next {
                        law_unfinished_string_is_recoverable(tokens, pos, k, open);
                        assert(parse_form(short, pos) == Parse::Fail(Severity::Recoverable));
                    } else {
                        lemma_longer_reads_same(tokens, pos, k, open);
                        lemma_unfinished_string_in_items(tokens, next, close, k, open);
                        assert(parse_form(short, pos) == parse_form(tokens, pos));
                        assert(parse_items(short, next, close) == ParseSeq::Fail(
                            Severity::Recoverable,
                        ));
                    }
                },
                _ => {},
            }
        }
    } else {
        assert(short[pos] == open);
        assert(open != seq![close]);
        assert(open != seq!['('] && open != seq!['['] && open != seq!['{'] && open != seq!['\'']);
        assert(parse_form(short, pos) == Parse::Fail(Severity::Recoverable));
    }
}

/// A form that is read from a prefix of the tokens reads the same from all
/// of them.
pub proof fn law_more_tokens_read_same(tokens: Seq<Seq<char>>, pos: int, k: int)
    requires
        0 <= k <= tokens.len(),
        parse_form(tokens.take(k), pos) is Done,
    ensures
        parse_form(tokens, pos) == parse_form(tokens.take(k), pos),
    decreases tokens.len() - pos, 0nat,
{
    let short = tokens.take(k);
    lemma_parse_form_advances(short, pos);
    assert(short[pos] == tokens[pos]);
    if tokens[pos] == seq!['('] {
        lemma_more_tokens_read_same_items(tokens, pos + 1, ')', k);
    } else if tokens[pos] == seq!['['] {
        lemma_more_tokens_read_same_items(tokens, pos + 1, ']', k);
    } else if tokens[pos] == seq!['{'] {
        lemma_more_tokens_read_same_items(tokens, pos + 1, '}', k);
    } else if tokens[pos] == seq!['\''] {
        law_more_tokens_read_same(tokens, pos + 1, k);
    }
}

/// The elements of a collection that are read from a prefix of the tokens
/// read the same from all of them.
pub proof fn lemma_more_tokens_read_same_items(
    tokens: Seq<Seq<char>>,
    pos: int,
    close: char,
    k: int,
)
    requires
        0 <= k <= tokens.len(),
        parse_items(tokens.take(k), pos, close) is Done,
    ensures
        parse_items(tokens, pos, close) == parse_items(tokens.take(k), pos, close),
    decreases tokens.len() - pos, 1nat,
{
    let short = tokens.take(k);
    lemma_parse_items_advances(short, pos, close);
    assert(short[pos] == tokens[pos]);
    if tokens[pos] != seq![close] {
        lemma_parse_form_advances(short, pos);
        match parse_form(short, pos) {
            Parse::Done { value, next } => {
                law_more_tokens_read_same(tokens, pos, k);
                lemma_more_tokens_read_same_items(tokens, next, close, k);
            },
            _ => {},
        }
    }
}

/// A form that is read within the first `k` tokens reads the same when
/// those `k` tokens are followed by another token.
pub proof fn lemma_longer_reads_same(tokens: Seq<Seq<char>>, pos: int, k: int, more: Seq<char>)
    requires
        parse_form(tokens, pos) matches Parse::Done { next, .. } && next <= k <= tokens.len(),
    ensures
        parse_form(tokens.take(k).push(more), pos) == parse_form(tokens, pos),
{
    let longer = tokens.take(k).push(more);
    lemma_parse_form_advances(tokens, pos);
    law_prefix_reads_same(tokens, pos, k);
    assert(longer.take(k) =~= tokens.take(k));
    law_more_tokens_read_same(longer, pos, k);
}

/// Whether a token opens a collection or a quotation.
pub open spec fn is_opener(tk: Seq<char>) -> bool {
    tk == seq!['('] || tk == seq!['['] || tk == seq!['{'] || tk == seq!['\'']
}

/// Whether a text reads as the symbol of that name.
pub open spec fn reads_as_symbol(s: Seq<char>) -> bool {
    atom_of(s) == Ok::<Value, Severity>(Value::Sym(s)) && !is_opener(s)
}

/// The values that the reader can produce from text, maps aside: nil,
/// true, false, numbers, strings, keywords, symbols, and lists and vectors
/// of such values.
pub open spec fn readable(v: Value) -> bool
    decreases v, 0nat, 0nat,
{
    match v {
        Value::Nil => true,
        Value::T => true,
        Value::F => true,
        Value::Num(r) => fits(r),
        Value::Str(_) => true,
        Value::Key(k) => k.len() >= 2 && k[0] == sentinel() && k[1] == ':',
        Value::Sym(s) => reads_as_symbol(s),
        Value::List(l) => all_readable(l, 0),
        Value::Vector(l) => all_readable(l, 0),
        _ => false,
    }
}

/// Whether each of `l[i..]` is readable.
pub open spec fn all_readable(l: Seq<Value>, i: int) -> bool
    decreases l, 1nat, l.len() - i,
{
    if i < 0 || i >= l.len() {
        true
    } else {
        readable(l[i]) && all_readable(l, i + 1)
    }
}

/// The tokens of the readable text of a value: the delimiters of lists and
/// vectors, and the text of everything else as one token.
pub open spec fn tokens_for(v: Value) -> Seq<Seq<char>>
    decreases v, 0nat, 0nat,
{
    match v {
        Value::List(l) => seq![seq!['(']] + items_tokens(l, 0) + seq![seq![')']],
        Value::Vector(l) => seq![seq!['[']] + items_tokens(l, 0) + seq![seq![']']],
        _ => seq![print_value(v, true)],
    }
}

/// The tokens of `l[i..]`, one value after the other.
pub open spec fn items_tokens(l: Seq<Value>, i: int) -> Seq<Seq<char>>
    decreases l, 1nat, l.len() - i,
{
    if i < 0 || i >= l.len() {
        Seq::empty()
    } else {
        tokens_for(l[i]) + items_tokens(l, i + 1)
    }
}

/// A text shaped as a number starts with a digit or with `-`.
pub proof fn lemma_number_shaped_start(s: Seq<char>)
    requires
        number_shaped(s),
    ensures
        s.len() > 0,
        s[0] == '-' || is_digit(s[0]),
{
    s.index_of_first_ensures('/');
    let digits = numerator_digits(s);
    assert(digits.len() > 0);
    if !(s.len() > 0 && s[0] == '-') {
        assert(is_digit(digits[0]));
        assert(digits[0] == s[0]);
    }
}

/// The scan of an escaped text closes at its final quote.
proof fn lemma_scan_escaped(pre: Seq<char>, s: Seq<char>)
    requires
        pre.len() >= 1,
    ensures
        scan_string(pre + escape_body(s) + seq!['"'], pre.len() as int) == Quoted::Closed,
    decreases s.len(),
{
    let t = pre + escape_body(s) + seq!['"'];
    let i = pre.len() as int;
    if s.len() == 0 {
        assert(t[i] == '"');
    } else {
        let c = s[0];
        let e = escape_char(c);
        let rest = escape_body(s.skip(1));
        assert(escape_body(s) == e + rest);
        lemma_scan_escaped(pre + e, s.skip(1));
        assert(t =~= (pre + e) + rest + seq!['"']);
        assert(t[i] == e[0]);
        if e.len() == 2 {
            assert(t[i] == '\\');
        } else {
            assert(t[i] == c);
        }
    }
}

/// The text of a number that fits is shaped as a number and writes that
/// number.
pub proof fn lemma_number_text(r: Ratio)
    requires
        fits(r),
    ensures
        number_shaped(ratio_text(r)),
        written_ratio(ratio_text(r)) == r,
        ratio_text(r).len() > 0,
        ratio_text(r)[0] == '-' || is_digit(ratio_text(r)[0]),
{
    let text = ratio_text(r);
    let m = magnitude(r.num);
    let d = decimal(m);
    let n = decimal_int(r.num);
    lemma_decimal_digits(m);
    lemma_decimal_round_trip(m);
    lemma_decimal_digits(r.den as nat);
    lemma_decimal_round_trip(r.den as nat);
    let start: int = if r.num < 0 {
        1
    } else {
        0
    };
    assert(n.len() == start + d.len());
    assert(forall|j: int| 0 <= j < d.len() ==> n[start + j] == d[j]);
    assert forall|j: int| 0 <= j < n.len() implies n[j] != '/' by {
        if j >= start {
            assert(is_digit(d[j - start]));
        }
    }
    assert(n[0] == '-' <==> r.num < 0) by {
        if r.num >= 0 {
            assert(is_digit(d[0]));
        }
    }
    text.index_of_first_ensures('/');
    if r.den == 1 {
        assert(text == n);
        assert(slash_at(text) is None);
        assert(numerator_digits(text) =~= d);
    } else {
        let dd = decimal(r.den as nat);
        let l = n.len() as int;
        assert(text == n + seq!['/'] + dd);
        assert(text[l] == '/');
        assert(forall|j: int| 0 <= j < l ==> text[j] == n[j]);
        assert(text.contains('/'));
        assert(slash_at(text) == Some(l));
        assert(numerator_digits(text) =~= d);
        assert(denominator_digits(text)->Some_0 =~= dd);
    }
    assert(text[0] == n[0]);
    if r.num >= 0 {
        assert(is_digit(d[0]));
    }
}

/// Reading the readable text of a readable value that is no list or vector
/// gives a value equal to it.
pub proof fn lemma_atom_round_trip(v: Value)
    requires
        readable(v),
        !(v is List),
        !(v is Vector),
    ensures
        atom_of(print_value(v, true)) matches Ok(x) && value_eq(v, x),
        !is_opener(print_value(v, true)),
{
    reveal_strlit("nil");
    reveal_strlit("true");
    reveal_strlit("false");
    let text = print_value(v, true);
    assert(seq![')'][0] == ')' && seq![']'][0] == ']' && seq!['}'][0] == '}');
    assert(seq!['('][0] == '(' && seq!['['][0] == '[' && seq!['{'][0] == '{' && seq!['\''][0]
        == '\'');
    match v {
        Value::Nil => {
            if number_shaped(text) {
                lemma_number_shaped_start(text);
            }
        },
        Value::T => {
            if number_shaped(text) {
                lemma_number_shaped_start(text);
            }
        },
        Value::F => {},
        Value::Num(r) => {
            lemma_number_text(r);
            lemma_reduce_same_rational(r.num, r.den);
            assert(parse_number(text) == Some(reduce(r.num, r.den)));
            assert(text != "false"@ && text != "true"@ && text != "nil"@);
        },
        Value::Str(s) => {
            assert(text == escape_text(s));
            assert(text[0] == '"');
            if number_shaped(text) {
                lemma_number_shaped_start(text);
            }
            lemma_scan_escaped(seq!['"'], s);
            lemma_unescape_escape(s);
            assert(text != "false"@ && text != "true"@ && text != "nil"@);
        },
        Value::Key(k) => {
            assert(text == k.skip(1));
            assert(text[0] == ':');
            if number_shaped(text) {
                lemma_number_shaped_start(text);
            }
            assert(seq![sentinel()] + text =~= k);
            assert(text != "false"@ && text != "true"@ && text != "nil"@);
        },
        Value::Sym(s) => {},
        _ => {},
    }
}

/// Two sequences of the same length are equal element by element from `i`
/// on when each pair of elements is equal.
proof fn lemma_items_equal(x: Seq<Value>, y: Seq<Value>, i: int)
    requires
        x.len() == y.len(),
        0 <= i,
        forall|j: int| i <= j < x.len() ==> value_eq(x[j], y[j]),
    ensures
        items_eq(x, y, i),
    decreases x.len() - i,
{
    if i < x.len() {
        lemma_items_equal(x, y, i + 1);
    }
}

/// The tokens of a readable value start with a token that closes nothing.
proof fn lemma_first_token(v: Value)
    requires
        readable(v),
    ensures
        tokens_for(v).len() >= 1,
        !is_closer(tokens_for(v)[0]),
{
    assert(seq![')'][0] == ')' && seq![']'][0] == ']' && seq!['}'][0] == '}');
    assert(seq!['('][0] == '(' && seq!['['][0] == '[');
    match v {
        Value::List(l) => {
            assert(tokens_for(v)[0] == seq!['(']);
        },
        Value::Vector(l) => {
            assert(tokens_for(v)[0] == seq!['[']);
        },
        _ => {
            lemma_atom_round_trip(v);
        },
    }
}

/// The round trip between printer and reader, token by token: reading the
/// tokens of the readable text of a readable value, wherever they stand
/// among other tokens, takes exactly those tokens and gives a value equal
/// to it under `=`.
pub proof fn law_tokens_round_trip(v: Value, tokens: Seq<Seq<char>>, pos: int)
    requires
        readable(v),
        0 <= pos,
        pos + tokens_for(v).len() <= tokens.len(),
        tokens.subrange(pos, pos + tokens_for(v).len()) == tokens_for(v),
    ensures
        parse_form(tokens, pos) matches Parse::Done { value, next } && next == pos + tokens_for(
            v,
        ).len() && value_eq(v, value),
    decreases v, 0nat, 0nat,
{
    let mine = tokens_for(v);
    assert(tokens[pos] == tokens.subrange(pos, pos + mine.len())[0]);
    assert(seq!['('][0] == '(' && seq!['['][0] == '[' && seq!['{'][0] == '{' && seq!['\''][0]
        == '\'');
    match v {
        Value::List(l) => {
            let inner = items_tokens(l, 0);
            assert(mine[0] == seq!['(']);
            assert(tokens.subrange(pos + 1, pos + 1 + inner.len()) =~= inner) by {
                assert forall|j: int| 0 <= j < inner.len() implies tokens[pos + 1 + j]
                    == inner[j] by {
                    assert(tokens[pos + 1 + j] == tokens.subrange(pos, pos + mine.len())[1 + j]);
                }
            }
            assert(tokens[pos + 1 + inner.len()] == tokens.subrange(pos, pos + mine.len())[1
                + inner.len() as int]);
            lemma_items_round_trip(l, 0, ')', tokens, pos + 1);
            match parse_items(tokens, pos + 1, ')') {
                ParseSeq::Done { items, next } => {
                    lemma_items_equal(l, items, 0);
                },
                _ => {},
            }
        },
        Value::Vector(l) => {
            let inner = items_tokens(l, 0);
            assert(mine[0] == seq!['[']);
            assert(tokens.subrange(pos + 1, pos + 1 + inner.len()) =~= inner) by {
                assert forall|j: int| 0 <= j < inner.len() implies tokens[pos + 1 + j]
                    == inner[j] by {
                    assert(tokens[pos + 1 + j] == tokens.subrange(pos, pos + mine.len())[1 + j]);
                }
            }
            assert(tokens[pos + 1 + inner.len()] == tokens.subrange(pos, pos + mine.len())[1
                + inner.len() as int]);
            lemma_items_round_trip(l, 0, ']', tokens, pos + 1);
            match parse_items(tokens, pos + 1, ']') {
                ParseSeq::Done { items, next } => {
                    lemma_items_equal(l, items, 0);
                },
                _ => {},
            }
        },
        _ => {
            lemma_atom_round_trip(v);
            assert(tokens[pos] == print_value(v, true));
        },
    }
}

/// Reading the tokens of readable values up to a closing delimiter gives
/// values equal to them, one for one.
pub proof fn lemma_items_round_trip(
    l: Seq<Value>,
    i: int,
    close: char,
    tokens: Seq<Seq<char>>,
    pos: int,
)
    requires
        all_readable(l, i),
        0 <= i <= l.len(),
        0 <= pos,
        close == ')' || close == ']',
        pos + items_tokens(l, i).len() < tokens.len(),
        tokens.subrange(pos, pos + items_tokens(l, i).len()) == items_tokens(l, i),
        tokens[pos + items_tokens(l, i).len()] == seq![close],
    ensures
        parse_items(tokens, pos, close) matches ParseSeq::Done { items, next } && next == pos
            + items_tokens(l, i).len() + 1 && items.len() == l.len() - i && forall|j: int|
            0 <= j < items.len() ==> value_eq(l[i + j], #[trigger] items[j]),
    decreases l, 1nat, l.len() - i,
{
    let mine = items_tokens(l, i);
    if i < l.len() {
        let head = tokens_for(l[i]);
        let tail = items_tokens(l, i + 1);
        lemma_first_token(l[i]);
        assert(mine == head + tail);
        assert(tokens[pos] == tokens.subrange(pos, pos + mine.len())[0]);
        assert(tokens[pos] == head[0]);
        assert(seq![close] == seq![')'] || seq![close] == seq![']']);
        assert(tokens[pos] != seq![close]);
        assert(tokens.subrange(pos, pos + head.len()) =~= head) by {
            assert forall|j: int| 0 <= j < head.len() implies tokens[pos + j] == head[j] by {
                assert(tokens[pos + j] == tokens.subrange(pos, pos + mine.len())[j]);
            }
        }
        law_tokens_round_trip(l[i], tokens, pos);
        let after = pos + head.len();
        assert(tokens.subrange(after, after + tail.len()) =~= tail) by {
            assert forall|j: int| 0 <= j < tail.len() implies tokens[after + j] == tail[j] by {
                assert(tokens[after + j] == tokens.subrange(pos, pos + mine.len())[head.len()
                    as int + j]);
            }
        }
        lemma_items_round_trip(l, i + 1, close, tokens, after);
        match (parse_form(tokens, pos), parse_items(tokens, after, close)) {
            (Parse::Done { value, next }, ParseSeq::Done { items, next: end }) => {
                let all = seq![value] + items;
                assert forall|j: int| 0 <= j < all.len() implies value_eq(
                    l[i + j],
                    #[trigger] all[j],
                ) by {
                    if j > 0 {
                        assert(all[j] == items[j - 1]);
                    }
                }
            },
            _ => {},
        }
    }
}

/// Whether the world `later` keeps what `w` has: every frame and atom of
/// `w` is still there, and every frame still has the outer frame it had.
pub open spec fn keeps(w: World, later: World) -> bool {
    &&& w.frames.len() <= later.frames.len()
    &&& w.atoms.len() <= later.atoms.len()
    &&& forall|i: int|
        0 <= i < w.frames.len() ==> (#[trigger] later.frames[i]).outer == w.frames[i].outer
}

proof fn lemma_keeps_builtin(w: World, b: crate::value::Builtin, args: Seq<Value>)
    ensures
        keeps(w, builtin_result(w, b, args).0),
{
}

proof fn lemma_keeps_seq(w: World, items: Seq<Value>, i: int, env: nat, fuel: nat)
    ensures
        keeps(w, eval_seq_spec(w, items, i, env, fuel).0),
    decreases fuel, 1nat, items.len() - i,
{
    if 0 <= i < items.len() {
        let (w1, v) = eval_spec(w, items[i], env, fuel);
        law_evaluation_keeps_frames(w, items[i], env, fuel);
        if v is Ok {
            lemma_keeps_seq(w1, items, i + 1, env, fuel);
        }
    }
}

proof fn lemma_keeps_map(w: World, d: Seq<(Seq<char>, Value)>, i: int, env: nat, fuel: nat)
    ensures
        keeps(w, eval_map_spec(w, d, i, env, fuel).0),
    decreases fuel, 1nat, d.len() - i,
{
    if 0 <= i < d.len() {
        let (w1, v) = eval_spec(w, d[i].1, env, fuel);
        law_evaluation_keeps_frames(w, d[i].1, env, fuel);
        if v is Ok {
            lemma_keeps_map(w1, d, i + 1, env, fuel);
        }
    }
}

proof fn lemma_keeps_ast(w: World, ast: Value, env: nat, fuel: nat)
    ensures
        keeps(w, eval_ast_spec(w, ast, env, fuel).0),
    decreases fuel, 2nat, 0nat,
{
    match ast {
        Value::List(l) => lemma_keeps_seq(w, l, 0, env, fuel),
        Value::Vector(l) => lemma_keeps_seq(w, l, 0, env, fuel),
        Value::Dict(d) => lemma_keeps_map(w, d, 0, env, fuel),
        _ => {},
    }
}

proof fn lemma_keeps_run(w: World, items: Seq<Value>, i: int, env: nat, fuel: nat)
    ensures
        keeps(w, run_all(w, items, i, env, fuel).0),
    decreases fuel, 1nat, items.len() - i,
{
    if 0 <= i < items.len() {
        let (w1, v) = eval_spec(w, items[i], env, fuel);
        law_evaluation_keeps_frames(w, items[i], env, fuel);
        if v is Ok {
            lemma_keeps_run(w1, items, i + 1, env, fuel);
        }
    }
}

proof fn lemma_keeps_do(w: World, args: Seq<Value>, env: nat, fuel: nat)
    ensures
        keeps(w, do_last(w, args, env, fuel).0),
    decreases fuel, 2nat, 0nat,
{
    lemma_keeps_run(w, front_of(args), 0, env, fuel);
}

proof fn lemma_keeps_def(w: World, args: Seq<Value>, env: nat, fuel: nat)
    ensures
        keeps(w, def_spec(w, args, env, fuel).0),
    decreases fuel, 2nat, 0nat,
{
    if args.len() == 2 && args[0] is Sym {
        law_evaluation_keeps_frames(w, args[1], env, fuel);
    }
}

proof fn lemma_keeps_let_bind(w: World, b: Seq<Value>, i: int, inner: nat, fuel: nat)
    ensures
        keeps(w, let_bind(w, b, i, inner, fuel).0),
    decreases fuel, 3nat, b.len() - i,
{
    if 0 <= i && i + 1 < b.len() {
        let (w1, v) = def_spec(w, b.subrange(i, i + 2), inner, fuel);
        lemma_keeps_def(w, b.subrange(i, i + 2), inner, fuel);
        if v is Ok {
            lemma_keeps_let_bind(w1, b, i + 2, inner, fuel);
        }
    }
}

proof fn lemma_keeps_let(w: World, args: Seq<Value>, env: nat, fuel: nat)
    ensures
        keeps(w, let_setup(w, args, env, fuel).0),
    decreases fuel, 4nat, 0nat,
{
    if args.len() > 0 {
        match crate::value::items_of(args[0]) {
            Some(b) => {
                if b.len() % 2 == 0 {
                    let inner = w.frames.len();
                    let w1 = w.with_frame(FrameView { data: Seq::empty(), outer: Some(env) });
                    assert(keeps(w, w1));
                    let (w2, bound) = let_bind(w1, b, 0, inner, fuel);
                    lemma_keeps_let_bind(w1, b, 0, inner, fuel);
                    if bound is None {
                        lemma_keeps_do(w2, rest_of(args), inner, fuel);
                    }
                }
            },
            None => {},
        }
    }
}

proof fn lemma_keeps_if(w: World, args: Seq<Value>, env: nat, fuel: nat)
    ensures
        keeps(w, if_branch(w, args, env, fuel).0),
    decreases fuel, 2nat, 0nat,
{
    if 2 <= args.len() <= 3 {
        law_evaluation_keeps_frames(w, args[0], env, fuel);
    }
}

proof fn lemma_keeps_ok(w: World, args: Seq<Value>, env: nat, fuel: nat)
    ensures
        keeps(w, ok_spec(w, args, env, fuel).0),
    decreases fuel, 2nat, 0nat,
{
    if args.len() > 0 {
        law_evaluation_keeps_frames(w, args[0], env, fuel);
    }
}

proof fn lemma_keeps_help(w: World, args: Seq<Value>, env: nat, fuel: nat)
    ensures
        keeps(w, help_spec(w, args, env, fuel).0),
    decreases fuel, 2nat, 0nat,
{
    if args.len() > 0 && args[0] is Sym {
        law_evaluation_keeps_frames(w, args[0], env, fuel);
    }
}

proof fn lemma_keeps_again(w: World, args: Seq<Value>, env: nat, fuel: nat)
    ensures
        keeps(w, eval_again(w, args, env, fuel).0),
    decreases fuel, 2nat, 0nat,
{
    if args.len() > 0 {
        law_evaluation_keeps_frames(w, args[0], env, fuel);
    }
}

proof fn lemma_keeps_call(w: World, func: Value, args: Seq<Value>, fuel: nat)
    ensures
        keeps(w, call_spec(w, func, args, fuel).0),
    decreases fuel, 3nat, 0nat,
{
    match func {
        Value::Fun(b) => lemma_keeps_builtin(w, b, args),
        Value::Closure { params, body, env } => {
            match crate::env::call_frame(env, *params, args) {
                Some(f) => match *body {
                    Value::List(l) => {
                        let w1 = w.with_frame(f);
                        assert(keeps(w, w1));
                        lemma_keeps_do(w1, l, w.frames.len(), fuel);
                    },
                    _ => {},
                },
                None => {},
            }
        },
        _ => {},
    }
}

proof fn lemma_keeps_func(w: World, list: Value, fuel: nat)
    ensures
        keeps(w, func_spec(w, list, fuel).0),
    decreases fuel, 4nat, 0nat,
{
    match crate::value::items_of(list) {
        Some(vals) => {
            if vals.len() > 0 {
                lemma_keeps_call(w, vals[0], rest_of(vals), fuel);
            }
        },
        None => {},
    }
}

proof fn lemma_keeps_apply(w: World, ast: Value, env: nat, fuel: nat)
    ensures
        keeps(w, apply_step(w, ast, env, fuel).0),
    decreases fuel, 5nat, 0nat,
{
    let (w1, v) = eval_ast_spec(w, ast, env, fuel);
    lemma_keeps_ast(w, ast, env, fuel);
    match v {
        Ok(list) => lemma_keeps_func(w1, list, fuel),
        Err(_) => {},
    }
}

proof fn lemma_keeps_form(w: World, form: Form, args: Seq<Value>, env: nat, fuel: nat)
    ensures
        keeps(w, form_step(w, form, args, env, fuel).0),
    decreases fuel, 6nat, 0nat,
{
    match form {
        Form::Def => lemma_keeps_def(w, args, env, fuel),
        Form::Let => lemma_keeps_let(w, args, env, fuel),
        Form::Do => lemma_keeps_do(w, args, env, fuel),
        Form::If => lemma_keeps_if(w, args, env, fuel),
        Form::Fn => {},
        Form::Quote => {},
        Form::Guard => lemma_keeps_ok(w, args, env, fuel),
        Form::Eval => lemma_keeps_again(w, args, env, fuel),
        Form::Help => lemma_keeps_help(w, args, env, fuel),
        Form::Find => {},
    }
}

proof fn lemma_keeps_step(w: World, ast: Value, env: nat, fuel: nat)
    ensures
        keeps(w, step_spec(w, ast, env, fuel).0),
    decreases fuel, 7nat, 0nat,
{
    match ast {
        Value::List(l) => {
            if l.len() > 0 {
                match l[0] {
                    Value::Sym(s) => match crate::eval::special_form(s) {
                        Some(form) => lemma_keeps_form(w, form, rest_of(l), env, fuel),
                        None => lemma_keeps_apply(w, ast, env, fuel),
                    },
                    _ => lemma_keeps_apply(w, ast, env, fuel),
                }
            }
        },
        _ => lemma_keeps_ast(w, ast, env, fuel),
    }
}

/// Evaluation never loses a frame or an atom, and never changes which
/// frame is around which: an environment that a function has captured is
/// there, with the same frames around it, for as long as the function is.
pub proof fn law_evaluation_keeps_frames(w: World, ast: Value, env: nat, fuel: nat)
    ensures
        keeps(w, eval_spec(w, ast, env, fuel).0),
    decreases fuel, 0nat, 0nat,
{
    if fuel > 0 {
        let (w1, step) = step_spec(w, ast, env, (fuel - 1) as nat);
        lemma_keeps_step(w, ast, env, (fuel - 1) as nat);
        match step {
            Ok(Called::Tail { ast: next, env: inner }) => {
                law_evaluation_keeps_frames(w1, next, inner, (fuel - 1) as nat);
            },
            _ => {},
        }
    }
}

proof fn lemma_value_seq(w: World, items: Seq<Value>, i: int, env: nat, fuel: nat)
    requires
        w.halt is None,
    ensures
        eval_seq_spec(w, items, i, env, fuel).1 is Ok ==> eval_seq_spec(
            w,
            items,
            i,
            env,
            fuel,
        ).0.halt is None,
    decreases fuel, 1nat, items.len() - i,
{
    if 0 <= i < items.len() {
        let (w1, v) = eval_spec(w, items[i], env, fuel);
        law_value_means_not_stopped(w, items[i], env, fuel);
        if v is Ok {
            lemma_value_seq(w1, items, i + 1, env, fuel);
        }
    }
}

proof fn lemma_value_map(w: World, d: Seq<(Seq<char>, Value)>, i: int, env: nat, fuel: nat)
    requires
        w.halt is None,
    ensures
        eval_map_spec(w, d, i, env, fuel).1 is Ok ==> eval_map_spec(w, d, i, env, fuel).0.halt
            is None,
    decreases fuel, 1nat, d.len() - i,
{
    if 0 <= i < d.len() {
        let (w1, v) = eval_spec(w, d[i].1, env, fuel);
        law_value_means_not_stopped(w, d[i].1, env, fuel);
        if v is Ok {
            lemma_value_map(w1, d, i + 1, env, fuel);
        }
    }
}

proof fn lemma_value_ast(w: World, ast: Value, env: nat, fuel: nat)
    requires
        w.halt is None,
    ensures
        eval_ast_spec(w, ast, env, fuel).1 is Ok ==> eval_ast_spec(w, ast, env, fuel).0.halt
            is None,
    decreases fuel, 2nat, 0nat,
{
    match ast {
        Value::List(l) => lemma_value_seq(w, l, 0, env, fuel),
        Value::Vector(l) => lemma_value_seq(w, l, 0, env, fuel),
        Value::Dict(d) => lemma_value_map(w, d, 0, env, fuel),
        _ => {},
    }
}

proof fn lemma_value_run(w: World, items: Seq<Value>, i: int, env: nat, fuel: nat)
    requires
        w.halt is None,
    ensures
        run_all(w, items, i, env, fuel).1 is None ==> run_all(w, items, i, env, fuel).0.halt
            is None,
    decreases fuel, 1nat, items.len() - i,
{
    if 0 <= i < items.len() {
        let (w1, v) = eval_spec(w, items[i], env, fuel);
        law_value_means_not_stopped(w, items[i], env, fuel);
        if v is Ok {
            lemma_value_run(w1, items, i + 1, env, fuel);
        }
    }
}

proof fn lemma_value_do(w: World, args: Seq<Value>, env: nat, fuel: nat)
    requires
        w.halt is None,
    ensures
        do_last(w, args, env, fuel).1 is Ok ==> do_last(w, args, env, fuel).0.halt is None,
    decreases fuel, 2nat, 0nat,
{
    lemma_value_run(w, front_of(args), 0, env, fuel);
}

proof fn lemma_value_def(w: World, args: Seq<Value>, env: nat, fuel: nat)
    requires
        w.halt is None,
    ensures
        def_spec(w, args, env, fuel).1 is Ok ==> def_spec(w, args, env, fuel).0.halt is None,
    decreases fuel, 2nat, 0nat,
{
    if args.len() == 2 && args[0] is Sym {
        law_value_means_not_stopped(w, args[1], env, fuel);
    }
}

proof fn lemma_value_let_bind(w: World, b: Seq<Value>, i: int, inner: nat, fuel: nat)
    requires
        w.halt is None,
    ensures
        let_bind(w, b, i, inner, fuel).1 is None ==> let_bind(w, b, i, inner, fuel).0.halt
            is None,
    decreases fuel, 3nat, b.len() - i,
{
    if 0 <= i && i + 1 < b.len() {
        let (w1, v) = def_spec(w, b.subrange(i, i + 2), inner, fuel);
        lemma_value_def(w, b.subrange(i, i + 2), inner, fuel);
        if v is Ok {
            lemma_value_let_bind(w1, b, i + 2, inner, fuel);
        }
    }
}

proof fn lemma_value_let(w: World, args: Seq<Value>, env: nat, fuel: nat)
    requires
        w.halt is None,
    ensures
        let_setup(w, args, env, fuel).1 is Ok ==> let_setup(w, args, env, fuel).0.halt is None,
    decreases fuel, 4nat, 0nat,
{
    if args.len() > 0 {
        match crate::value::items_of(args[0]) {
            Some(b) => {
                if b.len() % 2 == 0 {
                    let inner = w.frames.len();
                    let w1 = w.with_frame(FrameView { data: Seq::empty(), outer: Some(env) });
                    let (w2, bound) = let_bind(w1, b, 0, inner, fuel);
                    lemma_value_let_bind(w1, b, 0, inner, fuel);
                    if bound is None {
                        lemma_value_do(w2, rest_of(args), inner, fuel);
                    }
                }
            },
            None => {},
        }
    }
}

proof fn lemma_value_call(w: World, func: Value, args: Seq<Value>, fuel: nat)
    requires
        w.halt is None,
    ensures
        call_spec(w, func, args, fuel).1 is Ok ==> call_spec(w, func, args, fuel).0.halt
            is None,
    decreases fuel, 3nat, 0nat,
{
    match func {
        Value::Closure { params, body, env } => {
            match crate::env::call_frame(env, *params, args) {
                Some(f) => match *body {
                    Value::List(l) => {
                        lemma_value_do(w.with_frame(f), l, w.frames.len(), fuel);
                    },
                    _ => {},
                },
                None => {},
            }
        },
        _ => {},
    }
}

proof fn lemma_value_apply(w: World, ast: Value, env: nat, fuel: nat)
    requires
        w.halt is None,
    ensures
        apply_step(w, ast, env, fuel).1 is Ok ==> apply_step(w, ast, env, fuel).0.halt is None,
    decreases fuel, 5nat, 0nat,
{
    let (w1, v) = eval_ast_spec(w, ast, env, fuel);
    lemma_value_ast(w, ast, env, fuel);
    match v {
        Ok(list) => match crate::value::items_of(list) {
            Some(vals) => {
                if vals.len() > 0 {
                    lemma_value_call(w1, vals[0], rest_of(vals), fuel);
                }
            },
            None => {},
        },
        Err(_) => {},
    }
}

proof fn lemma_value_form(w: World, form: Form, args: Seq<Value>, env: nat, fuel: nat)
    requires
        w.halt is None,
    ensures
        form_step(w, form, args, env, fuel).1 is Ok ==> form_step(
            w,
            form,
            args,
            env,
            fuel,
        ).0.halt is None,
    decreases fuel, 6nat, 0nat,
{
    match form {
        Form::Def => lemma_value_def(w, args, env, fuel),
        Form::Let => lemma_value_let(w, args, env, fuel),
        Form::Do => lemma_value_do(w, args, env, fuel),
        Form::If => {
            if 2 <= args.len() <= 3 {
                law_value_means_not_stopped(w, args[0], env, fuel);
            }
        },
        Form::Fn => {},
        Form::Quote => {},
        Form::Guard => {},
        Form::Eval => {
            if args.len() > 0 {
                law_value_means_not_stopped(w, args[0], env, fuel);
            }
        },
        Form::Help => {
            if args.len() > 0 && args[0] is Sym {
                law_value_means_not_stopped(w, args[0], env, fuel);
            }
        },
        Form::Find => {},
    }
}

proof fn lemma_value_step(w: World, ast: Value, env: nat, fuel: nat)
    requires
        w.halt is None,
    ensures
        step_spec(w, ast, env, fuel).1 is Ok ==> step_spec(w, ast, env, fuel).0.halt is None,
    decreases fuel, 7nat, 0nat,
{
    match ast {
        Value::List(l) => {
            if l.len() > 0 {
                match l[0] {
                    Value::Sym(s) => match crate::eval::special_form(s) {
                        Some(form) => lemma_value_form(w, form, rest_of(l), env, fuel),
                        None => lemma_value_apply(w, ast, env, fuel),
                    },
                    _ => lemma_value_apply(w, ast, env, fuel),
                }
            }
        },
        _ => lemma_value_ast(w, ast, env, fuel),
    }
}

/// An evaluation that started in a world that was not stopped and that
/// gives a value has not stopped the world: whatever stops it, a request
/// to the host or the end of the budget, comes out as an error.
pub proof fn law_value_means_not_stopped(w: World, ast: Value, env: nat, fuel: nat)
    requires
        w.halt is None,
    ensures
        eval_spec(w, ast, env, fuel).1 is Ok ==> eval_spec(w, ast, env, fuel).0.halt is None,
    decreases fuel, 0nat, 0nat,
{
    if fuel > 0 {
        let (w1, step) = step_spec(w, ast, env, (fuel - 1) as nat);
        lemma_value_step(w, ast, env, (fuel - 1) as nat);
        match step {
            Ok(Called::Tail { ast: next, env: inner }) => {
                law_value_means_not_stopped(w1, next, inner, (fuel - 1) as nat);
            },
            _ => {},
        }
    }
}

/// Whether the world has stopped because the budget ran out.
pub open spec fn out_of_fuel(w: World) -> bool {
    w.halt == Some(HaltView::OutOfFuel)
}

proof fn lemma_more_seq(w: World, items: Seq<Value>, i: int, env: nat, fuel: nat, more: nat)
    requires
        w.halt is None,
        fuel <= more,
        !out_of_fuel(eval_seq_spec(w, items, i, env, fuel).0),
    ensures
        eval_seq_spec(w, items, i, env, more) == eval_seq_spec(w, items, i, env, fuel),
    decreases fuel, 1nat, items.len() - i,
{
    if 0 <= i < items.len() {
        let (w1, v) = eval_spec(w, items[i], env, fuel);
        law_value_means_not_stopped(w, items[i], env, fuel);
        law_more_fuel_same_result(w, items[i], env, fuel, more);
        if v is Ok {
            lemma_more_seq(w1, items, i + 1, env, fuel, more);
        }
    }
}

proof fn lemma_more_map(
    w: World,
    d: Seq<(Seq<char>, Value)>,
    i: int,
    env: nat,
    fuel: nat,
    more: nat,
)
    requires
        w.halt is None,
        fuel <= more,
        !out_of_fuel(eval_map_spec(w, d, i, env, fuel).0),
    ensures
        eval_map_spec(w, d, i, env, more) == eval_map_spec(w, d, i, env, fuel),
    decreases fuel, 1nat, d.len() - i,
{
    if 0 <= i < d.len() {
        let (w1, v) = eval_spec(w, d[i].1, env, fuel);
        law_value_means_not_stopped(w, d[i].1, env, fuel);
        law_more_fuel_same_result(w, d[i].1, env, fuel, more);
        if v is Ok {
            lemma_more_map(w1, d, i + 1, env, fuel, more);
        }
    }
}

proof fn lemma_more_ast(w: World, ast: Value, env: nat, fuel: nat, more: nat)
    requires
        w.halt is None,
        fuel <= more,
        !out_of_fuel(eval_ast_spec(w, ast, env, fuel).0),
    ensures
        eval_ast_spec(w, ast, env, more) == eval_ast_spec(w, ast, env, fuel),
    decreases fuel, 2nat, 0nat,
{
    match ast {
        Value::List(l) => lemma_more_seq(w, l, 0, env, fuel, more),
        Value::Vector(l) => lemma_more_seq(w, l, 0, env, fuel, more),
        Value::Dict(d) => lemma_more_map(w, d, 0, env, fuel, more),
        _ => {},
    }
}

proof fn lemma_more_run(w: World, items: Seq<Value>, i: int, env: nat, fuel: nat, more: nat)
    requires
        w.halt is None,
        fuel <= more,
        !out_of_fuel(run_all(w, items, i, env, fuel).0),
    ensures
        run_all(w, items, i, env, more) == run_all(w, items, i, env, fuel),
    decreases fuel, 1nat, items.len() - i,
{
    if 0 <= i < items.len() {
        let (w1, v) = eval_spec(w, items[i], env, fuel);
        law_value_means_not_stopped(w, items[i], env, fuel);
        law_more_fuel_same_result(w, items[i], env, fuel, more);
        if v is Ok {
            lemma_more_run(w1, items, i + 1, env, fuel, more);
        }
    }
}

proof fn lemma_more_do(w: World, args: Seq<Value>, env: nat, fuel: nat, more: nat)
    requires
        w.halt is None,
        fuel <= more,
        !out_of_fuel(do_last(w, args, env, fuel).0),
    ensures
        do_last(w, args, env, more) == do_last(w, args, env, fuel),
    decreases fuel, 2nat, 0nat,
{
    lemma_more_run(w, front_of(args), 0, env, fuel, more);
}

proof fn lemma_more_def(w: World, args: Seq<Value>, env: nat, fuel: nat, more: nat)
    requires
        w.halt is None,
        fuel <= more,
        !out_of_fuel(def_spec(w, args, env, fuel).0),
    ensures
        def_spec(w, args, env, more) == def_spec(w, args, env, fuel),
    decreases fuel, 2nat, 0nat,
{
    if args.len() == 2 && args[0] is Sym {
        law_more_fuel_same_result(w, args[1], env, fuel, more);
    }
}

proof fn lemma_more_let_bind(w: World, b: Seq<Value>, i: int, inner: nat, fuel: nat, more: nat)
    requires
        w.halt is None,
        fuel <= more,
        !out_of_fuel(let_bind(w, b, i, inner, fuel).0),
    ensures
        let_bind(w, b, i, inner, more) == let_bind(w, b, i, inner, fuel),
    decreases fuel, 3nat, b.len() - i,
{
    if 0 <= i && i + 1 < b.len() {
        let (w1, v) = def_spec(w, b.subrange(i, i + 2), inner, fuel);
        lemma_value_def(w, b.subrange(i, i + 2), inner, fuel);
        lemma_more_def(w, b.subrange(i, i + 2), inner, fuel, more);
        if v is Ok {
            lemma_more_let_bind(w1, b, i + 2, inner, fuel, more);
        }
    }
}

proof fn lemma_more_let(w: World, args: Seq<Value>, env: nat, fuel: nat, more: nat)
    requires
        w.halt is None,
        fuel <= more,
        !out_of_fuel(let_setup(w, args, env, fuel).0),
    ensures
        let_setup(w, args, env, more) == let_setup(w, args, env, fuel),
    decreases fuel, 4nat, 0nat,
{
    if args.len() > 0 {
        match crate::value::items_of(args[0]) {
            Some(b) => {
                if b.len() % 2 == 0 {
                    let inner = w.frames.len();
                    let w1 = w.with_frame(FrameView { data: Seq::empty(), outer: Some(env) });
                    let (w2, bound) = let_bind(w1, b, 0, inner, fuel);
                    lemma_value_let_bind(w1, b, 0, inner, fuel);
                    lemma_more_let_bind(w1, b, 0, inner, fuel, more);
                    if bound is None {
                        lemma_more_do(w2, rest_of(args), inner, fuel, more);
                    }
                }
            },
            None => {},
        }
    }
}

proof fn lemma_more_call(w: World, func: Value, args: Seq<Value>, fuel: nat, more: nat)
    requires
        w.halt is None,
        fuel <= more,
        !out_of_fuel(call_spec(w, func, args, fuel).0),
    ensures
        call_spec(w, func, args, more) == call_spec(w, func, args, fuel),
    decreases fuel, 3nat, 0nat,
{
    match func {
        Value::Closure { params, body, env } => {
            match crate::env::call_frame(env, *params, args) {
                Some(f) => match *body {
                    Value::List(l) => {
                        lemma_more_do(w.with_frame(f), l, w.frames.len(), fuel, more);
                    },
                    _ => {},
                },
                None => {},
            }
        },
        _ => {},
    }
}

proof fn lemma_more_apply(w: World, ast: Value, env: nat, fuel: nat, more: nat)
    requires
        w.halt is None,
        fuel <= more,
        !out_of_fuel(apply_step(w, ast, env, fuel).0),
    ensures
        apply_step(w, ast, env, more) == apply_step(w, ast, env, fuel),
    decreases fuel, 5nat, 0nat,
{
    let (w1, v) = eval_ast_spec(w, ast, env, fuel);
    lemma_value_ast(w, ast, env, fuel);
    lemma_more_ast(w, ast, env, fuel, more);
    match v {
        Ok(list) => match crate::value::items_of(list) {
            Some(vals) => {
                if vals.len() > 0 {
                    lemma_more_call(w1, vals[0], rest_of(vals), fuel, more);
                }
            },
            None => {},
        },
        Err(_) => {},
    }
}

proof fn lemma_more_form(
    w: World,
    form: Form,
    args: Seq<Value>,
    env: nat,
    fuel: nat,
    more: nat,
)
    requires
        w.halt is None,
        fuel <= more,
        !out_of_fuel(form_step(w, form, args, env, fuel).0),
    ensures
        form_step(w, form, args, env, more) == form_step(w, form, args, env, fuel),
    decreases fuel, 6nat, 0nat,
{
    match form {
        Form::Def => lemma_more_def(w, args, env, fuel, more),
        Form::Let => lemma_more_let(w, args, env, fuel, more),
        Form::Do => lemma_more_do(w, args, env, fuel, more),
        Form::If => {
            if 2 <= args.len() <= 3 {
                law_more_fuel_same_result(w, args[0], env, fuel, more);
            }
        },
        Form::Fn => {},
        Form::Quote => {},
        Form::Guard => {
            if args.len() > 0 {
                law_more_fuel_same_result(w, args[0], env, fuel, more);
            }
        },
        Form::Eval => {
            if args.len() > 0 {
                law_more_fuel_same_result(w, args[0], env, fuel, more);
            }
        },
        Form::Help => {
            if args.len() > 0 && args[0] is Sym {
                law_more_fuel_same_result(w, args[0], env, fuel, more);
            }
        },
        Form::Find => {},
    }
}

proof fn lemma_more_step(w: World, ast: Value, env: nat, fuel: nat, more: nat)
    requires
        w.halt is None,
        fuel <= more,
        !out_of_fuel(step_spec(w, ast, env, fuel).0),
    ensures
        step_spec(w, ast, env, more) == step_spec(w, ast, env, fuel),
    decreases fuel, 7nat, 0nat,
{
    match ast {
        Value::List(l) => {
            if l.len() > 0 {
                match l[0] {
                    Value::Sym(s) => match crate::eval::special_form(s) {
                        Some(form) => lemma_more_form(w, form, rest_of(l), env, fuel, more),
                        None => lemma_more_apply(w, ast, env, fuel, more),
                    },
                    _ => lemma_more_apply(w, ast, env, fuel, more),
                }
            }
        },
        _ => lemma_more_ast(w, ast, env, fuel, more),
    }
}

/// The budget decides nothing but whether it is enough: an evaluation that
/// does not run out of fuel gives the same value and the same world with
/// any larger budget.
pub proof fn law_more_fuel_same_result(w: World, ast: Value, env: nat, fuel: nat, more: nat)
    requires
        w.halt is None,
        fuel <= more,
        !out_of_fuel(eval_spec(w, ast, env, fuel).0),
    ensures
        eval_spec(w, ast, env, more) == eval_spec(w, ast, env, fuel),
    decreases fuel, 0nat, 0nat,
{
    if fuel > 0 {
        let (w1, step) = step_spec(w, ast, env, (fuel - 1) as nat);
        lemma_value_step(w, ast, env, (fuel - 1) as nat);
        lemma_more_step(w, ast, env, (fuel - 1) as nat, (more - 1) as nat);
        match step {
            Ok(Called::Tail { ast: next, env: inner }) => {
                law_more_fuel_same_result(w1, next, inner, (fuel - 1) as nat, (more - 1) as nat);
            },
            _ => {},
        }
    }
}

} // verus!
