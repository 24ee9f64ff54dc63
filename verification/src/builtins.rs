//! The functions that the host language provides to programs.
use crate::env::{env_new, env_set, FrameView, Halt, HaltView, Runtime, World};
use crate::frac::{
    fits, ratio_apply, ratio_floor, ratio_holds, ArithOp, Frac, Ratio, Relation,
};
use crate::printer::{pr_str, print_items, print_value};
use crate::reader::{parse_all, read_str, tokens_of, Reader};
use crate::text::chars_of;
use crate::types::{MalErr, Severity};
use crate::value::{
    agrees, complaint, copy_range, dict_get, dict_put, equals_result, fails_as, hard, items_of,
    label_name, lemma_view_list, lift, mal_equals, models_of, outcome, Builtin, Env, Fault,
    MalRet, MalType, Value,
};
use vstd::prelude::*;
use vstd::slice::slice_subrange;

verus! {

/// The number `i/1`.
pub open spec fn integer(i: int) -> Value {
    Value::Num(Ratio { num: i, den: 1 })
}

/// All but the first element.
pub open spec fn rest_of<A>(l: Seq<A>) -> Seq<A> {
    if l.len() > 1 {
        l.subrange(1, l.len() as int)
    } else {
        Seq::empty()
    }
}

/// All but the last element.
pub open spec fn front_of<A>(l: Seq<A>) -> Seq<A> {
    if l.len() > 1 {
        l.subrange(0, l.len() - 1)
    } else {
        Seq::empty()
    }
}

/// The first element, or an error for an empty slice.
pub fn car(list: &[MalType]) -> (r: Result<&MalType, MalErr>)
    ensures
        match r {
            Ok(v) => list@.len() > 0 && *v == list@[0],
            Err(e) => list@.len() == 0 && e.level() == Severity::Unrecoverable,
        },
{
    if list.len() == 0 {
        Err(MalErr::unrecoverable("Expected at least one argument"))
    } else {
        Ok(&list[0])
    }
}

/// All but the first element.
pub fn cdr(list: &[MalType]) -> (r: &[MalType])
    ensures
        r@ == rest_of(list@),
{
    if list.len() > 1 {
        slice_subrange(list, 1, list.len())
    } else {
        slice_subrange(list, 0, 0)
    }
}

/// The first element and the rest.
pub fn car_cdr(list: &[MalType]) -> (r: Result<(&MalType, &[MalType]), MalErr>)
    ensures
        match r {
            Ok(p) => list@.len() > 0 && *p.0 == list@[0] && p.1@ == rest_of(list@),
            Err(e) => list@.len() == 0 && e.level() == Severity::Unrecoverable,
        },
{
    match car(list) {
        Ok(first) => Ok((first, cdr(list))),
        Err(e) => Err(e),
    }
}

fn first(list: &[MalType]) -> (r: &[MalType])
    ensures
        r@ == front_of(list@),
{
    if list.len() > 1 {
        slice_subrange(list, 0, list.len() - 1)
    } else {
        slice_subrange(list, 0, 0)
    }
}

fn last(list: &[MalType]) -> (r: MalRet)
    ensures
        r is Ok,
        r->Ok_0@ == (if list@.len() == 0 {
            Value::Nil
        } else {
            list@[list@.len() - 1]@
        }),
{
    if list.len() == 0 {
        Ok(MalType::Nil)
    } else {
        Ok(list[list.len() - 1].clone())
    }
}

/// All but the last element, and a copy of the last one (nil for an empty
/// slice).
pub fn first_last(list: &[MalType]) -> (r: (&[MalType], MalRet))
    ensures
        r.0@ == front_of(list@),
        r.1 is Ok,
        r.1->Ok_0@ == (if list@.len() == 0 {
            Value::Nil
        } else {
            list@[list@.len() - 1]@
        }),
{
    (first(list), last(list))
}

/// Whether one of `args[i..]` is the number zero.
pub open spec fn zero_from(args: Seq<Value>, i: int) -> bool
    decreases args.len() - i,
{
    if i < 0 || i >= args.len() {
        false
    } else {
        (args[i] matches Value::Num(r) && r.num == 0) || zero_from(args, i + 1)
    }
}

/// Whether a division by these arguments is allowed: a single argument
/// must be a number other than zero; of several, none may be zero, the
/// first one included.
pub open spec fn division_defined(args: Seq<Value>) -> bool {
    if args.len() == 1 {
        args[0] matches Value::Num(r) && r.num != 0
    } else {
        !zero_from(args, 0)
    }
}

/// The arguments themselves where a division by them is allowed, else an
/// error.
pub fn any_zero(list: &[MalType]) -> (r: Result<&[MalType], MalErr>)
    ensures
        match r {
            Ok(l) => division_defined(models_of(list@)) && l@ == list@,
            Err(e) => !division_defined(models_of(list@)) && e.level() == Severity::Unrecoverable,
        },
{
    let ghost args = models_of(list@);
    if list.len() == 1 {
        assert(args[0] == list@[0]@);
        match list[0].if_number() {
            Ok(f) => {
                if f.get_num() == 0 {
                    Err(MalErr::unrecoverable("Attempting division by 0"))
                } else {
                    Ok(list)
                }
            },
            Err(e) => Err(e),
        }
    } else {
        let mut i: usize = 0;
        while i < list.len()
            invariant
                args == models_of(list@),
                zero_from(args, 0) == zero_from(args, i as int),
            decreases list.len() - i,
        {
            assert(args[i as int] == list@[i as int]@);
            match &list[i] {
                MalType::Num(v) => {
                    if v.exact_zero() {
                        return Err(MalErr::unrecoverable("Attempting division by 0"));
                    }
                },
                _ => {},
            }
            i += 1;
        }
        Ok(list)
    }
}

/// One step of an arithmetic fold: the next accumulator, when the operand
/// is a number, the step is defined and its result fits.
pub open spec fn arith_step(op: ArithOp, acc: Ratio, v: Value) -> Option<Ratio> {
    match v {
        Value::Num(r) => if op == ArithOp::Div && r.num == 0 {
            None
        } else if fits(ratio_apply(op, acc, r)) {
            Some(ratio_apply(op, acc, r))
        } else {
            None
        },
        _ => None,
    }
}

/// The left fold of `op` over `args[i..]`, starting from `acc`.
pub open spec fn arith_fold(op: ArithOp, acc: Ratio, args: Seq<Value>, i: int) -> Option<Ratio>
    decreases args.len() - i,
{
    if i < 0 || i >= args.len() {
        Some(acc)
    } else {
        match arith_step(op, acc, args[i]) {
            Some(next) => arith_fold(op, next, args, i + 1),
            None => None,
        }
    }
}

/// What an arithmetic function returns: the identity `set` for no
/// argument; `set op x` for one; the left fold for more. Every partial
/// result is exact and in lowest terms; `None` when an operand is no
/// number, a divisor is zero or a partial result does not fit.
pub open spec fn arith_result(set: int, op: ArithOp, args: Seq<Value>) -> Option<Value> {
    if args.len() == 0 {
        Some(integer(set))
    } else if args.len() == 1 {
        match arith_step(op, Ratio { num: set, den: 1 }, args[0]) {
            Some(r) => Some(Value::Num(r)),
            None => None,
        }
    } else {
        match args[0] {
            Value::Num(r) => match arith_fold(op, r, args, 1) {
                Some(x) => Some(Value::Num(x)),
                None => None,
            },
            _ => None,
        }
    }
}

fn arith_next(op: ArithOp, acc: Frac, v: &MalType) -> (r: Result<Frac, MalErr>)
    ensures
        match r {
            Ok(f) => arith_step(op, acc@, v@) == Some(f@),
            Err(e) => arith_step(op, acc@, v@) is None && e.level() == Severity::Unrecoverable,
        },
{
    match v.if_number() {
        Ok(x) => match acc.apply(op, &x) {
            Some(f) => Ok(f),
            None => Err(MalErr::unrecoverable("Arithmetic result is undefined or out of range")),
        },
        Err(e) => Err(e),
    }
}

/// Folds `op` over the arguments from the left, starting from the first
/// one, or from the identity `set` when there are fewer than two.
pub fn arithmetic_op(set: isize, op: ArithOp, args: &[MalType]) -> (r: MalRet)
    ensures
        outcome(r) == arith_result(set as int, op, models_of(args@)),
        hard(r),
{
    let ghost xs = models_of(args@);
    if args.len() == 0 {
        return Ok(MalType::Num(Frac::num(set)));
    }
    assert(xs[0] == args@[0]@);
    if args.len() == 1 {
        return match arith_next(op, Frac::num(set), &args[0]) {
            Ok(f) => Ok(MalType::Num(f)),
            Err(e) => Err(e),
        };
    }
    let mut left = match args[0].if_number() {
        Ok(f) => f,
        Err(e) => {
            return Err(e);
        },
    };
    let mut i: usize = 1;
    while i < args.len()
        invariant
            1 <= i,
            xs == models_of(args@),
            xs[0] is Num,
            arith_fold(op, xs[0]->Num_0, xs, 1) == arith_fold(op, left@, xs, i as int),
        decreases args.len() - i,
    {
        assert(xs[i as int] == args@[i as int]@);
        match arith_next(op, left, &args[i]) {
            Ok(f) => {
                left = f;
            },
            Err(e) => {
                return Err(e);
            },
        }
        i += 1;
    }
    Ok(MalType::Num(left))
}

/// Whether each of `args[i..]` stands in the relation to the one before
/// it, `left` being before `args[i]`: true or nil, or `None` when a value
/// that has to be compared is no number.
pub open spec fn compare_fold(rel: Relation, left: Ratio, args: Seq<Value>, i: int) -> Option<
    Value,
>
    decreases args.len() - i,
{
    if i < 0 || i >= args.len() {
        Some(Value::T)
    } else {
        match args[i] {
            Value::Num(r) => if ratio_holds(rel, left, r) {
                compare_fold(rel, r, args, i + 1)
            } else {
                Some(Value::Nil)
            },
            _ => None,
        }
    }
}

/// What a comparison returns: nil for no argument, else true when every
/// adjacent pair stands in the relation and nil at the first pair that
/// does not.
pub open spec fn compare_result(rel: Relation, args: Seq<Value>) -> Option<Value> {
    if args.len() == 0 {
        Some(Value::Nil)
    } else {
        match args[0] {
            Value::Num(r) => compare_fold(rel, r, args, 1),
            _ => None,
        }
    }
}

/// Compares each argument with the next.
pub fn comparison_op(rel: Relation, args: &[MalType]) -> (r: MalRet)
    ensures
        outcome(r) == compare_result(rel, models_of(args@)),
        hard(r),
{
    let ghost xs = models_of(args@);
    if args.len() == 0 {
        return Ok(MalType::Nil);
    }
    assert(xs[0] == args@[0]@);
    let mut left = match args[0].if_number() {
        Ok(f) => f,
        Err(e) => {
            return Err(e);
        },
    };
    let mut i: usize = 1;
    while i < args.len()
        invariant
            1 <= i,
            xs == models_of(args@),
            xs[0] is Num,
            compare_fold(rel, xs[0]->Num_0, xs, 1) == compare_fold(rel, left@, xs, i as int),
        decreases args.len() - i,
    {
        assert(xs[i as int] == args@[i as int]@);
        let right = match args[i].if_number() {
            Ok(f) => f,
            Err(e) => {
                return Err(e);
            },
        };
        if !left.holds(rel, &right) {
            return Ok(MalType::Nil);
        }
        left = right;
        i += 1;
    }
    Ok(MalType::T)
}

/// The first element of a list or vector, nil when it is empty.
pub open spec fn head_of(v: Value) -> Option<Value> {
    match items_of(v) {
        Some(l) => Some(
            if l.len() == 0 {
                Value::Nil
            } else {
                l[0]
            },
        ),
        None => None,
    }
}

/// The list of all but the first element of a list or vector.
pub open spec fn tail_of(v: Value) -> Option<Value> {
    match items_of(v) {
        Some(l) => Some(Value::List(rest_of(l))),
        None => None,
    }
}

/// A copy of the first element of a list or vector, nil when it is empty.
pub fn mal_car(arg: &MalType) -> (r: MalRet)
    ensures
        outcome(r) == head_of(arg@),
        hard(r),
{
    match arg.if_list() {
        Ok(list) => {
            if list.len() == 0 {
                Ok(MalType::Nil)
            } else {
                assert(models_of(list@)[0] == list@[0]@);
                Ok(list[0].clone())
            }
        },
        Err(e) => Err(e),
    }
}

/// A list of copies of all but the first element of a list or vector.
pub fn mal_cdr(arg: &MalType) -> (r: MalRet)
    ensures
        outcome(r) == tail_of(arg@),
        hard(r),
{
    match arg.if_list() {
        Ok(list) => {
            let out = if list.len() > 1 {
                copy_range(list, 1, list.len())
            } else {
                copy_range(list, 0, 0)
            };
            proof {
                lemma_view_list(out);
                assert(models_of(out@) =~= rest_of(models_of(list@)));
            }
            Ok(MalType::List(out))
        },
        Err(e) => Err(e),
    }
}

/// What `cons` returns: for two arguments, the second a list or vector,
/// the list of the first followed by the elements of the second.
pub open spec fn cons_result(args: Seq<Value>) -> Option<Value> {
    if args.len() == 2 {
        match items_of(args[1]) {
            Some(l) => Some(Value::List(seq![args[0]] + l)),
            None => None,
        }
    } else {
        None
    }
}

/// A fresh list: the first argument followed by the elements of the
/// second.
pub fn mal_cons(args: &[MalType]) -> (r: MalRet)
    ensures
        outcome(r) == cons_result(models_of(args@)),
        hard(r),
{
    if args.len() != 2 {
        return Err(MalErr::unrecoverable("cons: requires 2 arguments"));
    }
    assert(models_of(args@)[0] == args@[0]@);
    assert(models_of(args@)[1] == args@[1]@);
    match args[1].if_list() {
        Ok(tail) => {
            let mut out: Vec<MalType> = Vec::new();
            out.push(args[0].clone());
            let ghost l = models_of(tail@);
            let mut i: usize = 0;
            while i < tail.len()
                invariant
                    i <= tail.len(),
                    l == models_of(tail@),
                    out@.len() == i + 1,
                    out@[0]@ == args@[0]@,
                    forall|j: int| 0 <= j < i ==> out@[j + 1]@ == tail@[j]@,
                decreases tail.len() - i,
            {
                out.push(tail[i].clone());
                i += 1;
            }
            proof {
                lemma_view_list(out);
                assert(models_of(out@) =~= seq![args@[0]@] + l);
            }
            Ok(MalType::List(out))
        },
        Err(e) => Err(e),
    }
}

/// The characters of a text, each as a value.
pub open spec fn chars_as_values(s: Seq<char>) -> Seq<Value> {
    Seq::new(
        s.len(),
        |i: int|
            if 0 <= i < s.len() {
                Value::Ch(s[i])
            } else {
                Value::Nil
            },
    )
}

/// What `boom` returns: the list of the characters of its first argument,
/// a string.
pub open spec fn boom_result(args: Seq<Value>) -> Option<Value> {
    if args.len() == 0 {
        None
    } else {
        match args[0] {
            Value::Str(s) => Some(Value::List(chars_as_values(s))),
            _ => None,
        }
    }
}

fn char_value(c: char) -> (r: MalType)
    ensures
        r == MalType::Ch(c),
{
    MalType::Ch(c)
}

/// Splits a string into the list of its characters.
pub fn mal_boom(args: &[MalType]) -> (r: MalRet)
    ensures
        outcome(r) == boom_result(models_of(args@)),
        hard(r),
{
    if args.len() == 0 {
        return Err(MalErr::unrecoverable("Expected at least one argument"));
    }
    assert(models_of(args@)[0] == args@[0]@);
    let string = match args[0].if_string() {
        Ok(s) => s,
        Err(e) => {
            return Err(e);
        },
    };
    let v = chars_of(string);
    let mut out: Vec<MalType> = Vec::new();
    let mut i: usize = 0;
    while i < v.len()
        invariant
            i <= v.len(),
            out@.len() == i,
            forall|j: int| 0 <= j < i ==> out@[j]@ == Value::Ch(v@[j]),
            v@ == string@,
        decreases v.len() - i,
    {
        out.push(char_value(v[i]));
        i += 1;
    }
    proof {
        lemma_view_list(out);
        assert(models_of(out@) =~= chars_as_values(string@));
    }
    Ok(MalType::List(out))
}

/// The texts of `l[i..]`, one after the other.
pub open spec fn print_concat(l: Seq<Value>, readable: bool, i: int) -> Seq<char>
    decreases l.len() - i,
{
    if i < 0 || i >= l.len() {
        Seq::empty()
    } else {
        print_value(l[i], readable) + print_concat(l, readable, i + 1)
    }
}

/// The texts of the values, one after the other.
pub fn pr_all(args: &[MalType], print_readably: bool) -> (r: String)
    ensures
        r@ == print_concat(models_of(args@), print_readably, 0),
{
    let ghost xs = models_of(args@);
    let mut out = String::new();
    assert(out@ + print_concat(xs, print_readably, 0) =~= print_concat(xs, print_readably, 0));
    let mut i: usize = 0;
    while i < args.len()
        invariant
            i <= args.len(),
            xs == models_of(args@),
            out@ + print_concat(xs, print_readably, i as int) == print_concat(
                xs,
                print_readably,
                0,
            ),
        decreases args.len() - i,
    {
        assert(xs[i as int] == args@[i as int]@);
        let ghost before = out@;
        let piece = pr_str(&args[i], print_readably);
        out.append(piece.as_str());
        assert(out@ + print_concat(xs, print_readably, i + 1) =~= before + print_concat(
            xs,
            print_readably,
            i as int,
        ));
        i += 1;
    }
    assert(out@ =~= out@ + print_concat(xs, print_readably, args.len() as int));
    out
}

/// The texts of the values, separated by single spaces.
pub fn pr_spaced(args: &[MalType], print_readably: bool) -> (r: String)
    ensures
        r@ == print_items(models_of(args@), print_readably, 0),
{
    let ghost xs = models_of(args@);
    let mut out = String::new();
    assert(out@ + print_items(xs, print_readably, 0) =~= print_items(xs, print_readably, 0));
    let mut i: usize = 0;
    while i < args.len()
        invariant
            i <= args.len(),
            xs == models_of(args@),
            out@ + print_items(xs, print_readably, i as int) == print_items(xs, print_readably, 0),
        decreases args.len() - i,
    {
        assert(xs[i as int] == args@[i as int]@);
        let ghost before = out@;
        let piece = pr_str(&args[i], print_readably);
        out.append(piece.as_str());
        if i + 1 < args.len() {
            out.push(' ');
        }
        assert(out@ + print_items(xs, print_readably, i + 1) =~= before + print_items(
            xs,
            print_readably,
            i as int,
        ));
        i += 1;
    }
    assert(out@ =~= out@ + print_items(xs, print_readably, args.len() as int));
    out
}

/// Whether a value counts as true in a condition: everything but nil and
/// false does.
pub open spec fn truthy(v: Value) -> bool {
    !(v is Nil || v is F)
}

/// Whether each of `args[i..]` counts as true.
pub open spec fn all_truthy(args: Seq<Value>, i: int) -> bool
    decreases args.len() - i,
{
    if i < 0 || i >= args.len() {
        true
    } else {
        truthy(args[i]) && all_truthy(args, i + 1)
    }
}

/// Whether the value counts as true in a condition.
pub fn is_truthy(v: &MalType) -> (b: bool)
    ensures
        b == truthy(v@),
{
    match v {
        MalType::Nil => false,
        MalType::F => false,
        _ => true,
    }
}

/// The first argument, if there is one.
pub open spec fn first_of(args: Seq<Value>) -> Option<Value> {
    if args.len() > 0 {
        Some(args[0])
    } else {
        None
    }
}

/// What reading a text gives: the last form of the text followed by a line
/// break, or nil when it holds none.
pub open spec fn read_text(s: Seq<char>) -> Option<Value> {
    match parse_all(tokens_of(s + seq!['\n']), 0, Value::Nil) {
        Ok(v) => Some(v),
        Err(_) => None,
    }
}

/// The failure of `raise`: the message is that of the first argument, a
/// string.
pub open spec fn raise_fault(args: Seq<Value>) -> Fault {
    match first_of(args) {
        Some(Value::Str(s)) => Fault::Raised(s),
        _ => Fault::Other,
    }
}

/// What a function that leaves the world as it is returns for its
/// arguments; `raise` fails with its message.
pub open spec fn pure_result(b: Builtin, args: Seq<Value>) -> Result<Value, Fault> {
    if b is Raise {
        Err(raise_fault(args))
    } else {
        lift(pure_value(b, args))
    }
}

/// What a function other than `raise` that leaves the world as it is
/// returns for its arguments, `None` standing for a failure.
pub open spec fn pure_value(b: Builtin, args: Seq<Value>) -> Option<Value> {
    match b {
        Builtin::Arith(ArithOp::Add) => arith_result(0, ArithOp::Add, args),
        Builtin::Arith(ArithOp::Sub) => arith_result(0, ArithOp::Sub, args),
        Builtin::Arith(ArithOp::Mul) => arith_result(1, ArithOp::Mul, args),
        Builtin::Arith(ArithOp::Div) => if division_defined(args) {
            arith_result(1, ArithOp::Div, args)
        } else {
            None
        },
        Builtin::Order(rel) => compare_result(rel, args),
        Builtin::Equal => Some(equals_result(args)),
        Builtin::List => Some(Value::List(args)),
        Builtin::Count => match first_of(args) {
            Some(v) => match items_of(v) {
                Some(l) => if l.len() <= isize::MAX {
                    Some(integer(l.len() as int))
                } else {
                    None
                },
                None => None,
            },
            None => None,
        },
        Builtin::Car => match first_of(args) {
            Some(v) => head_of(v),
            None => None,
        },
        Builtin::Cdr => match first_of(args) {
            Some(v) => tail_of(v),
            None => None,
        },
        Builtin::Cons => cons_result(args),
        Builtin::Type => match first_of(args) {
            Some(v) => Some(Value::Key(label_name(v))),
            None => None,
        },
        Builtin::Num => match first_of(args) {
            Some(Value::Num(r)) => Some(integer(r.num)),
            _ => None,
        },
        Builtin::Den => match first_of(args) {
            Some(Value::Num(r)) => if r.den <= isize::MAX {
                Some(integer(r.den))
            } else {
                None
            },
            _ => None,
        },
        Builtin::Floor => match first_of(args) {
            Some(Value::Num(r)) => Some(integer(ratio_floor(r))),
            _ => None,
        },
        Builtin::PrStr => Some(Value::Str(print_items(args, true, 0))),
        Builtin::Str => Some(Value::Str(print_concat(args, false, 0))),
        Builtin::Boom => boom_result(args),
        Builtin::ReadString => match first_of(args) {
            Some(Value::Str(s)) => read_text(s),
            _ => None,
        },
        Builtin::Assert => if all_truthy(args, 0) {
            Some(Value::Nil)
        } else {
            None
        },
        _ => None,
    }
}

/// What a function does to the world, and what it returns.
pub open spec fn builtin_result(w: World, b: Builtin, args: Seq<Value>) -> (
    World,
    Result<Value, Fault>,
) {
    if b is Raise {
        (w, Err(raise_fault(args)))
    } else {
        (builtin_effect(w, b, args).0, lift(builtin_effect(w, b, args).1))
    }
}

/// What a function other than `raise` does to the world and returns,
/// `None` standing for a failure.
///
/// `prn` and `println` print the plain texts of their arguments, one after
/// the other, `println` with a line break at the end. `atom` makes a new
/// atom; `deref` reads one; `reset!` gives one a new content. `slurp`,
/// `env` and `read-line` answer from what the host has provided and stop
/// the evaluation where the host has not answered yet; `exit` stops it for
/// good.
pub open spec fn builtin_effect(w: World, b: Builtin, args: Seq<Value>) -> (World, Option<Value>) {
    match b {
        Builtin::Prn => (w.printed(print_concat(args, false, 0)), Some(Value::Nil)),
        Builtin::Println => (
            w.printed(print_concat(args, false, 0) + seq!['\n']),
            Some(Value::Nil),
        ),
        Builtin::Atom => (
            w.with_atom(
                match first_of(args) {
                    Some(v) => v,
                    None => Value::Nil,
                },
            ),
            Some(Value::Atom(w.atoms.len())),
        ),
        Builtin::Deref => match first_of(args) {
            Some(Value::Atom(a)) => if a < w.atoms.len() {
                (w, Some(w.atoms[a as int]))
            } else {
                (w, None)
            },
            _ => (w, None),
        },
        Builtin::Reset => reset_result(w, args),
        Builtin::Slurp => match first_of(args) {
            Some(Value::Str(name)) => match dict_get(w.files, name) {
                Some(Some(content)) => (w, Some(Value::Str(content))),
                Some(None) => (w, None),
                None => (w.halted(HaltView::NeedFile(name)), None),
            },
            _ => (w, None),
        },
        Builtin::Env => match first_of(args) {
            Some(Value::Str(name)) => match dict_get(w.vars, name) {
                Some(Some(value)) => (w, Some(Value::Str(value))),
                Some(None) => (w, Some(Value::Nil)),
                None => (w.halted(HaltView::NeedVar(name)), None),
            },
            _ => (w, None),
        },
        Builtin::ReadLine => if w.lines_read < w.lines.len() {
            (w.line_taken(), Some(Value::Str(w.lines[w.lines_read as int])))
        } else {
            (w.halted(HaltView::NeedLine), None)
        },
        Builtin::Exit => exit_result(w, args),
        _ => (w, pure_value(b, args)),
    }
}

/// What `reset!` does: with an atom and a value, the atom gets the value,
/// which is also returned.
pub open spec fn reset_result(w: World, args: Seq<Value>) -> (World, Option<Value>) {
    if args.len() < 2 {
        (w, None)
    } else {
        match args[0] {
            Value::Atom(a) => if a < w.atoms.len() {
                (w.set_atom(a, args[1]), Some(args[1]))
            } else {
                (w, None)
            },
            _ => (w, None),
        }
    }
}

/// What `exit` does: without an argument, an error and nothing else; with
/// a number, a stop with the integer below it as status; else a stop with
/// status -1.
pub open spec fn exit_result(w: World, args: Seq<Value>) -> (World, Option<Value>) {
    if args.len() == 0 {
        (w, None)
    } else {
        match args[0] {
            Value::Num(r) => (w.halted(HaltView::Exit(ratio_floor(r))), None),
            _ => (w.halted(HaltView::Exit(-1)), None),
        }
    }
}

/// Gives an atom a new content and returns that content.
pub fn reset_bang(rt: &mut Runtime, args: &[MalType]) -> (r: MalRet)
    ensures
        (final(rt)@, outcome(r)) == reset_result(old(rt)@, models_of(args@)),
        hard(r),
{
    if args.len() < 2 {
        return Err(MalErr::unrecoverable("reset requires two arguments"));
    }
    assert(models_of(args@)[0] == args@[0]@);
    assert(models_of(args@)[1] == args@[1]@);
    match &args[0] {
        MalType::Atom(a) => {
            if rt.set_atom(*a, args[1].clone()) {
                Ok(args[1].clone())
            } else {
                Err(MalErr::unrecoverable("No such atom"))
            }
        },
        _ => Err(complaint(&args[0], " is not an atom")),
    }
}

/// Asks to end the process: stops the evaluation with the status to exit
/// with.
pub fn mal_exit(rt: &mut Runtime, list: &[MalType]) -> (r: MalRet)
    ensures
        (final(rt)@, outcome(r)) == exit_result(old(rt)@, models_of(list@)),
        hard(r),
{
    if list.len() == 0 {
        return Err(MalErr::unrecoverable("Expected at least one argument"));
    }
    assert(models_of(list@)[0] == list@[0]@);
    match &list[0] {
        MalType::Num(val) => {
            rt.stop(Halt::Exit(val.to_int()));
        },
        _ => {
            rt.stop(Halt::Exit(-1));
        },
    }
    Err(MalErr::unrecoverable("exit"))
}

/// Raises an unrecoverable error whose message is the first argument, a
/// string.
pub fn mal_raise(args: &[MalType]) -> (r: MalRet)
    ensures
        r is Err,
        fails_as(r->Err_0, raise_fault(models_of(args@))),
{
    if args.len() == 0 {
        return Err(MalErr::unrecoverable("Expected at least one argument"));
    }
    assert(models_of(args@)[0] == args@[0]@);
    match args[0].if_string() {
        Ok(s) => Err(MalErr::unrecoverable(s)),
        Err(e) => Err(e),
    }
}

/// Reads the last form of a text.
pub fn read_string(text: &str) -> (r: MalRet)
    ensures
        outcome(r) == read_text(text@),
        hard(r),
{
    let mut reader = Reader::new();
    reader.push(text);
    assert(reader@.buffer =~= text@ + seq!['\n']);
    match read_str(&mut reader) {
        Ok(v) => Ok(v),
        Err(e) => Err(e.severe()),
    }
}

/// Calls a function that leaves the world as it is.
pub fn call_pure(b: Builtin, args: &[MalType]) -> (r: MalRet)
    ensures
        agrees(r, pure_result(b, models_of(args@))),
{
    let ghost xs = models_of(args@);
    if args.len() > 0 {
        assert(xs[0] == args@[0]@);
    }
    match b {
        Builtin::Arith(ArithOp::Add) => arithmetic_op(0, ArithOp::Add, args),
        Builtin::Arith(ArithOp::Sub) => arithmetic_op(0, ArithOp::Sub, args),
        Builtin::Arith(ArithOp::Mul) => arithmetic_op(1, ArithOp::Mul, args),
        Builtin::Arith(ArithOp::Div) => match any_zero(args) {
            Ok(checked) => arithmetic_op(1, ArithOp::Div, checked),
            Err(e) => Err(e),
        },
        Builtin::Order(rel) => comparison_op(rel, args),
        Builtin::Equal => mal_equals(args),
        Builtin::List => {
            let out = copy_range(args, 0, args.len());
            proof {
                lemma_view_list(out);
                assert(models_of(out@) =~= xs);
            }
            Ok(MalType::List(out))
        },
        Builtin::Count => match car(args) {
            Ok(v) => match v.if_list() {
                Ok(l) => {
                    if l.len() <= isize::MAX as usize {
                        Ok(MalType::Num(Frac::num(l.len() as isize)))
                    } else {
                        Err(MalErr::unrecoverable("Too many elements to count"))
                    }
                },
                Err(e) => Err(e),
            },
            Err(e) => Err(e),
        },
        Builtin::Car => match car(args) {
            Ok(v) => mal_car(v),
            Err(e) => Err(e),
        },
        Builtin::Cdr => match car(args) {
            Ok(v) => mal_cdr(v),
            Err(e) => Err(e),
        },
        Builtin::Cons => mal_cons(args),
        Builtin::Type => match car(args) {
            Ok(v) => Ok(v.label_type()),
            Err(e) => Err(e),
        },
        Builtin::Num => match car(args) {
            Ok(v) => match v.if_number() {
                Ok(f) => Ok(MalType::Num(Frac::num(f.get_num()))),
                Err(e) => Err(e),
            },
            Err(e) => Err(e),
        },
        Builtin::Den => match car(args) {
            Ok(v) => match v.if_number() {
                Ok(f) => {
                    if f.get_den() <= isize::MAX as usize {
                        Ok(MalType::Num(Frac::num(f.get_den() as isize)))
                    } else {
                        Err(MalErr::unrecoverable("Denominator out of range"))
                    }
                },
                Err(e) => Err(e),
            },
            Err(e) => Err(e),
        },
        Builtin::Floor => match car(args) {
            Ok(v) => match v.if_number() {
                Ok(f) => Ok(MalType::Num(Frac::num(f.to_int()))),
                Err(e) => Err(e),
            },
            Err(e) => Err(e),
        },
        Builtin::PrStr => Ok(MalType::Str(pr_spaced(args, true))),
        Builtin::Str => Ok(MalType::Str(pr_all(args, false))),
        Builtin::Boom => mal_boom(args),
        Builtin::ReadString => match car(args) {
            Ok(v) => match v.if_string() {
                Ok(s) => read_string(s),
                Err(e) => Err(e),
            },
            Err(e) => Err(e),
        },
        Builtin::Assert => {
            let mut i: usize = 0;
            while i < args.len()
                invariant
                    i <= args.len(),
                    xs == models_of(args@),
                    b is Assert,
                    all_truthy(xs, 0) == all_truthy(xs, i as int),
                decreases args.len() - i,
            {
                assert(xs[i as int] == args@[i as int]@);
                if !is_truthy(&args[i]) {
                    return Err(MalErr::unrecoverable("Assertion failed"));
                }
                i += 1;
            }
            Ok(MalType::Nil)
        },
        Builtin::Raise => mal_raise(args),
        _ => Err(MalErr::unrecoverable("This function needs the runtime")),
    }
}

/// Calls a host function on evaluated arguments.
pub fn call_builtin(rt: &mut Runtime, b: Builtin, args: &[MalType]) -> (r: MalRet)
    ensures
        final(rt)@ == builtin_result(old(rt)@, b, models_of(args@)).0,
        agrees(r, builtin_result(old(rt)@, b, models_of(args@)).1),
{
    let ghost xs = models_of(args@);
    if args.len() > 0 {
        assert(xs[0] == args@[0]@);
    }
    match b {
        Builtin::Prn => {
            rt.print(pr_all(args, false));
            Ok(MalType::Nil)
        },
        Builtin::Println => {
            let mut text = pr_all(args, false);
            text.push('\n');
            assert(text@ =~= print_concat(xs, false, 0) + seq!['\n']);
            rt.print(text);
            Ok(MalType::Nil)
        },
        Builtin::Atom => {
            let content = if args.len() > 0 {
                args[0].clone()
            } else {
                MalType::Nil
            };
            Ok(MalType::Atom(rt.add_atom(content)))
        },
        Builtin::Deref => match car(args) {
            Ok(v) => match v {
                MalType::Atom(a) => match rt.atom(*a) {
                    Some(content) => Ok(content),
                    None => Err(MalErr::unrecoverable("No such atom")),
                },
                _ => Err(complaint(v, " is not an atom")),
            },
            Err(e) => Err(e),
        },
        Builtin::Reset => reset_bang(rt, args),
        Builtin::Slurp => match car(args) {
            Ok(v) => match v.if_string() {
                Ok(name) => match rt.file(name) {
                    Some(Some(content)) => Ok(MalType::Str(content)),
                    Some(None) => Err(MalErr::unrecoverable("Failed to open file")),
                    None => {
                        rt.stop(Halt::NeedFile(name.to_owned()));
                        Err(MalErr::unrecoverable("Waiting for a file"))
                    },
                },
                Err(e) => Err(e),
            },
            Err(e) => Err(e),
        },
        Builtin::Env => match car(args) {
            Ok(v) => match v.if_string() {
                Ok(name) => match rt.var(name) {
                    Some(Some(value)) => Ok(MalType::Str(value)),
                    Some(None) => Ok(MalType::Nil),
                    None => {
                        rt.stop(Halt::NeedVar(name.to_owned()));
                        Err(MalErr::unrecoverable("Waiting for an environment variable"))
                    },
                },
                Err(e) => Err(e),
            },
            Err(e) => Err(e),
        },
        Builtin::ReadLine => match rt.take_line() {
            Some(line) => Ok(MalType::Str(line)),
            None => {
                rt.stop(Halt::NeedLine);
                Err(MalErr::unrecoverable("Waiting for a line of input"))
            },
        },
        Builtin::Exit => mal_exit(rt, args),
        _ => call_pure(b, args),
    }
}

/// The name under which a function is bound in the root frame.
pub open spec fn builtin_name(b: Builtin) -> Seq<char> {
    match b {
        Builtin::Exit => "exit"@,
        Builtin::Raise => "raise"@,
        Builtin::Arith(ArithOp::Add) => "+"@,
        Builtin::Arith(ArithOp::Sub) => "-"@,
        Builtin::Arith(ArithOp::Mul) => "*"@,
        Builtin::Arith(ArithOp::Div) => "/"@,
        Builtin::Order(Relation::Less) => "<"@,
        Builtin::Order(Relation::Greater) => ">"@,
        Builtin::Order(Relation::LessEq) => "<="@,
        Builtin::Order(Relation::GreaterEq) => ">="@,
        Builtin::PrStr => "pr-str"@,
        Builtin::Str => "str"@,
        Builtin::Prn => "prn"@,
        Builtin::Println => "println"@,
        Builtin::List => "list"@,
        Builtin::Type => "type"@,
        Builtin::Count => "count"@,
        Builtin::Equal => "="@,
        Builtin::Car => "car"@,
        Builtin::Cdr => "cdr"@,
        Builtin::Num => "num"@,
        Builtin::Den => "den"@,
        Builtin::Floor => "floor"@,
        Builtin::Boom => "boom"@,
        Builtin::ReadString => "read-string"@,
        Builtin::ReadLine => "read-line"@,
        Builtin::Slurp => "slurp"@,
        Builtin::Atom => "atom"@,
        Builtin::Deref => "deref"@,
        Builtin::Reset => "reset!"@,
        Builtin::Cons => "cons"@,
        Builtin::Env => "env"@,
        Builtin::Assert => "assert"@,
    }
}

/// What `help` says of a function.
pub open spec fn builtin_help(b: Builtin) -> Seq<char> {
    match b {
        Builtin::Exit => "Quits the program with specified status"@,
        Builtin::Raise => "Raise an unrecoverable error with the specified message"@,
        Builtin::Arith(ArithOp::Add) => "Returns the sum of the arguments"@,
        Builtin::Arith(ArithOp::Sub) => "Returns the difference of the arguments"@,
        Builtin::Arith(ArithOp::Mul) => "Returns the product of the arguments"@,
        Builtin::Arith(ArithOp::Div) => "Returns the quotient of the arguments"@,
        Builtin::Order(Relation::Less) => "Returns true if each argument is strictly smaller than the next one, nil otherwise"@,
        Builtin::Order(Relation::Greater) => "Returns true if each argument is strictly greater than the next one, nil otherwise"@,
        Builtin::Order(Relation::LessEq) => "Returns true if each argument is smaller than or equal to the next one, nil otherwise"@,
        Builtin::Order(Relation::GreaterEq) => "Returns true if each argument is greater than or equal to the next one, nil otherwise"@,
        Builtin::PrStr => "Print readably all arguments, separated by spaces, into a string"@,
        Builtin::Str => "Print non readably all arguments into a string"@,
        Builtin::Prn => "Print all the arguments"@,
        Builtin::Println => "Print all the arguments and end the line"@,
        Builtin::List => "Return the arguments as a list"@,
        Builtin::Type => "Returns a label indicating the type of its argument"@,
        Builtin::Count => "Return the number of elements in the first argument"@,
        Builtin::Equal => "Return true if all the arguments are the same type and content, in case of lists propagate to all elements"@,
        Builtin::Car => "Returns the first element of the list, nil if it is empty"@,
        Builtin::Cdr => "Returns all the list but the first element"@,
        Builtin::Num => "Get numerator of the number"@,
        Builtin::Den => "Get denominator of the number"@,
        Builtin::Floor => "Approximate the number to the closest smaller integer"@,
        Builtin::Boom => "Split a string into a list of characters"@,
        Builtin::ReadString => "Tokenize and read the first argument"@,
        Builtin::ReadLine => "Read a line from input and return its content"@,
        Builtin::Slurp => "Read a file and return the content as a string"@,
        Builtin::Atom => "Return an atom pointing to the given arg"@,
        Builtin::Deref => "Return the content of the atom argument"@,
        Builtin::Reset => "Change the value of the atom (first argument) to the second argument"@,
        Builtin::Cons => "Push to front if second element is a list"@,
        Builtin::Env => "Retrieve the specified environment variable, returns nil if that variable does not exist"@,
        Builtin::Assert => "Raise an error if one of the arguments is nil or false"@,
    }
}

/// The name under which the function is bound in the root frame.
pub fn name_of(b: Builtin) -> (r: &'static str)
    ensures
        r@ == builtin_name(b),
{
    match b {
        Builtin::Exit => "exit",
        Builtin::Raise => "raise",
        Builtin::Arith(ArithOp::Add) => "+",
        Builtin::Arith(ArithOp::Sub) => "-",
        Builtin::Arith(ArithOp::Mul) => "*",
        Builtin::Arith(ArithOp::Div) => "/",
        Builtin::Order(Relation::Less) => "<",
        Builtin::Order(Relation::Greater) => ">",
        Builtin::Order(Relation::LessEq) => "<=",
        Builtin::Order(Relation::GreaterEq) => ">=",
        Builtin::PrStr => "pr-str",
        Builtin::Str => "str",
        Builtin::Prn => "prn",
        Builtin::Println => "println",
        Builtin::List => "list",
        Builtin::Type => "type",
        Builtin::Count => "count",
        Builtin::Equal => "=",
        Builtin::Car => "car",
        Builtin::Cdr => "cdr",
        Builtin::Num => "num",
        Builtin::Den => "den",
        Builtin::Floor => "floor",
        Builtin::Boom => "boom",
        Builtin::ReadString => "read-string",
        Builtin::ReadLine => "read-line",
        Builtin::Slurp => "slurp",
        Builtin::Atom => "atom",
        Builtin::Deref => "deref",
        Builtin::Reset => "reset!",
        Builtin::Cons => "cons",
        Builtin::Env => "env",
        Builtin::Assert => "assert",
    }
}

/// What `help` says of the function.
pub fn describe(b: Builtin) -> (r: &'static str)
    ensures
        r@ == builtin_help(b),
{
    match b {
        Builtin::Exit => "Quits the program with specified status",
        Builtin::Raise => "Raise an unrecoverable error with the specified message",
        Builtin::Arith(ArithOp::Add) => "Returns the sum of the arguments",
        Builtin::Arith(ArithOp::Sub) => "Returns the difference of the arguments",
        Builtin::Arith(ArithOp::Mul) => "Returns the product of the arguments",
        Builtin::Arith(ArithOp::Div) => "Returns the quotient of the arguments",
        Builtin::Order(Relation::Less) => "Returns true if each argument is strictly smaller than the next one, nil otherwise",
        Builtin::Order(Relation::Greater) => "Returns true if each argument is strictly greater than the next one, nil otherwise",
        Builtin::Order(Relation::LessEq) => "Returns true if each argument is smaller than or equal to the next one, nil otherwise",
        Builtin::Order(Relation::GreaterEq) => "Returns true if each argument is greater than or equal to the next one, nil otherwise",
        Builtin::PrStr => "Print readably all arguments, separated by spaces, into a string",
        Builtin::Str => "Print non readably all arguments into a string",
        Builtin::Prn => "Print all the arguments",
        Builtin::Println => "Print all the arguments and end the line",
        Builtin::List => "Return the arguments as a list",
        Builtin::Type => "Returns a label indicating the type of its argument",
        Builtin::Count => "Return the number of elements in the first argument",
        Builtin::Equal => "Return true if all the arguments are the same type and content, in case of lists propagate to all elements",
        Builtin::Car => "Returns the first element of the list, nil if it is empty",
        Builtin::Cdr => "Returns all the list but the first element",
        Builtin::Num => "Get numerator of the number",
        Builtin::Den => "Get denominator of the number",
        Builtin::Floor => "Approximate the number to the closest smaller integer",
        Builtin::Boom => "Split a string into a list of characters",
        Builtin::ReadString => "Tokenize and read the first argument",
        Builtin::ReadLine => "Read a line from input and return its content",
        Builtin::Slurp => "Read a file and return the content as a string",
        Builtin::Atom => "Return an atom pointing to the given arg",
        Builtin::Deref => "Return the content of the atom argument",
        Builtin::Reset => "Change the value of the atom (first argument) to the second argument",
        Builtin::Cons => "Push to front if second element is a list",
        Builtin::Env => "Retrieve the specified environment variable, returns nil if that variable does not exist",
        Builtin::Assert => "Raise an error if one of the arguments is nil or false",
    }
}

/// Every host function, in the order in which the root frame binds them.
pub open spec fn all_builtins() -> Seq<Builtin> {
    seq![
        Builtin::Exit,
        Builtin::Raise,
        Builtin::Arith(ArithOp::Add),
        Builtin::Arith(ArithOp::Sub),
        Builtin::Arith(ArithOp::Mul),
        Builtin::Arith(ArithOp::Div),
        Builtin::Order(Relation::Less),
        Builtin::Order(Relation::Greater),
        Builtin::Order(Relation::LessEq),
        Builtin::Order(Relation::GreaterEq),
        Builtin::PrStr,
        Builtin::Str,
        Builtin::Prn,
        Builtin::Println,
        Builtin::List,
        Builtin::Type,
        Builtin::Count,
        Builtin::Equal,
        Builtin::Car,
        Builtin::Cdr,
        Builtin::Num,
        Builtin::Den,
        Builtin::Floor,
        Builtin::Boom,
        Builtin::ReadString,
        Builtin::ReadLine,
        Builtin::Slurp,
        Builtin::Atom,
        Builtin::Deref,
        Builtin::Reset,
        Builtin::Cons,
        Builtin::Env,
        Builtin::Assert,
    ]
}

/// The world after the first `n` host functions are bound to their names
/// in the frame `env`.
pub open spec fn define_builtins(w: World, env: nat, n: nat) -> World
    decreases n,
{
    if n == 0 {
        w
    } else {
        define_builtins(w, env, (n - 1) as nat).define(
            env,
            builtin_name(all_builtins()[n - 1]),
            Value::Fun(all_builtins()[n - 1]),
        )
    }
}

fn builtin_list() -> (r: Vec<Builtin>)
    ensures
        r@ == all_builtins(),
{
    let mut r: Vec<Builtin> = Vec::new();
    r.push(Builtin::Exit);
    r.push(Builtin::Raise);
    r.push(Builtin::Arith(ArithOp::Add));
    r.push(Builtin::Arith(ArithOp::Sub));
    r.push(Builtin::Arith(ArithOp::Mul));
    r.push(Builtin::Arith(ArithOp::Div));
    r.push(Builtin::Order(Relation::Less));
    r.push(Builtin::Order(Relation::Greater));
    r.push(Builtin::Order(Relation::LessEq));
    r.push(Builtin::Order(Relation::GreaterEq));
    r.push(Builtin::PrStr);
    r.push(Builtin::Str);
    r.push(Builtin::Prn);
    r.push(Builtin::Println);
    r.push(Builtin::List);
    r.push(Builtin::Type);
    r.push(Builtin::Count);
    r.push(Builtin::Equal);
    r.push(Builtin::Car);
    r.push(Builtin::Cdr);
    r.push(Builtin::Num);
    r.push(Builtin::Den);
    r.push(Builtin::Floor);
    r.push(Builtin::Boom);
    r.push(Builtin::ReadString);
    r.push(Builtin::ReadLine);
    r.push(Builtin::Slurp);
    r.push(Builtin::Atom);
    r.push(Builtin::Deref);
    r.push(Builtin::Reset);
    r.push(Builtin::Cons);
    r.push(Builtin::Env);
    r.push(Builtin::Assert);
    assert(r@ =~= all_builtins());
    r
}

/// Makes the root frame: a new frame without an outer one, in which every
/// host function is bound to its name.
pub fn ns_init(rt: &mut Runtime) -> (e: Env)
    ensures
        e == old(rt)@.frames.len(),
        final(rt)@ == define_builtins(
            old(rt)@.with_frame(FrameView { data: Seq::empty(), outer: None }),
            e as nat,
            all_builtins().len(),
        ),
{
    let all = builtin_list();
    let e = env_new(rt, None);
    let ghost start = rt@;
    let mut i: usize = 0;
    while i < all.len()
        invariant
            i <= all.len(),
            all@ == all_builtins(),
            rt@ == define_builtins(start, e as nat, i as nat),
        decreases all.len() - i,
    {
        let b = all[i];
        env_set(rt, e, name_of(b), &MalType::Fun(b));
        i += 1;
    }
    e
}

} // verus!
