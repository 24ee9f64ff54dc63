//! Reading, evaluating and printing whole texts: what a driver needs to run
//! programs and an interactive session.
use crate::env::{env_set, Runtime, World};
use crate::eval::{eval, eval_spec};
use crate::printer::{pr_str, print_value};
use crate::reader::{
    lemma_parse_form_advances, parse_all, parse_form, parse_stop, read_str, texts_of, tokens_of,
    Parse, Reader,
};
use crate::text::{escape_str, escape_text};
use crate::types::{MalErr, Severity};
use crate::value::{lemma_view_list, models_of, Env, Fault, MalRet, MalType, Value};
use vstd::prelude::*;

verus! {

/// The evaluation of a top-level expression: nothing is evaluated while the
/// world is stopped; the budget is the largest there is.
pub open spec fn eval_top(w: World, ast: Value, env: nat) -> (World, Result<Value, Fault>) {
    if w.halt is Some {
        (w, Err(Fault::Other))
    } else {
        eval_spec(w, ast, env, u64::MAX as nat)
    }
}

/// Why a text or a pass gave no result: how severe the failure is, and
/// what failed.
pub struct Stop {
    pub severity: Severity,
    pub fault: Fault,
}

/// The failure to read a form.
pub open spec fn unread(s: Severity) -> Stop {
    Stop { severity: s, fault: Fault::Other }
}

/// The failure to evaluate a form.
pub open spec fn unevaluated(f: Fault) -> Stop {
    Stop { severity: Severity::Unrecoverable, fault: f }
}

/// Whether an error reports the failure: it has its severity, and where
/// the program raised an error its message is that of the program after
/// `prefix`.
pub open spec fn reports(e: MalErr, stop: Stop, prefix: Seq<char>) -> bool {
    e.level() == stop.severity && (stop.fault matches Fault::Raised(m) ==> e.text() == prefix + m)
}

/// Reads, evaluates and prints the forms from token `pos` on, one after the
/// other: the world afterwards, where reading stopped, and the printed
/// values, or the first failure.
pub open spec fn run_forms(w: World, tokens: Seq<Seq<char>>, pos: int, env: nat) -> (
    World,
    int,
    Result<Seq<Seq<char>>, Stop>,
)
    decreases tokens.len() - pos,
{
    if pos < 0 || pos >= tokens.len() {
        (w, pos, Ok(Seq::empty()))
    } else {
        match parse_form(tokens, pos) {
            Parse::Fail(s) => (w, pos, Err(unread(s))),
            Parse::Done { value, next } => if !(pos < next <= tokens.len()) {
                (w, pos, Err(unread(Severity::Unrecoverable)))
            } else {
                let (w1, v) = eval_top(w, value, env);
                match v {
                    Err(f) => (w1, next, Err(unevaluated(f))),
                    Ok(x) => {
                        let (w2, stop, rest) = run_forms(w1, tokens, next, env);
                        (
                            w2,
                            stop,
                            match rest {
                                Ok(r) => Ok(seq![print_value(x, true)] + r),
                                Err(s) => Err(s),
                            },
                        )
                    },
                }
            },
        }
    }
}

/// One pass of an interactive session over the tokens from `pos` on.
///
/// When one of the forms cannot be read, nothing is evaluated and the
/// reading failure is reported, so that an unfinished form can be completed
/// and the pass made again. Otherwise every form is evaluated in turn and
/// its value printed, up to the first evaluation that fails.
pub open spec fn rep_spec(w: World, tokens: Seq<Seq<char>>, pos: int, env: nat) -> (
    World,
    int,
    Result<Seq<Seq<char>>, Stop>,
) {
    match parse_all(tokens, pos, Value::Nil) {
        Err(s) => (w, parse_stop(tokens, pos), Err(unread(s))),
        Ok(_) => run_forms(w, tokens, pos, env),
    }
}

/// `front` put before the texts that a pass gave.
pub open spec fn texts_front(
    front: Seq<Seq<char>>,
    r: (World, int, Result<Seq<Seq<char>>, Stop>),
) -> (World, int, Result<Seq<Seq<char>>, Stop>) {
    (
        r.0,
        r.1,
        match r.2 {
            Ok(s) => Ok(front + s),
            Err(e) => Err(e),
        },
    )
}

/// The same error with `prefix` before its message.
fn prefixed(prefix: &str, e: MalErr) -> (r: MalErr)
    ensures
        r.level() == e.level(),
        r.text() == prefix@ + e.text(),
{
    let mut m = prefix.to_owned();
    m.append(e.message().as_str());
    MalErr::new(m, e.severity())
}

/// Reads the form under the cursor.
#[allow(non_snake_case)]
pub fn READ(input: &mut Reader) -> (r: MalRet)
    ensures
        final(input)@.buffer == old(input)@.buffer,
        final(input)@.tokens == old(input)@.tokens,
        match r {
            Ok(v) => parse_form(old(input)@.tokens, old(input)@.pos) == (Parse::Done {
                value: v@,
                next: final(input)@.pos,
            }),
            Err(e) => parse_form(old(input)@.tokens, old(input)@.pos) == Parse::Fail(e.level())
                && final(input)@.pos == old(input)@.pos,
        },
{
    match input.read_form() {
        Ok(v) => Ok(v),
        Err(e) => Err(prefixed("READ: ", e)),
    }
}

/// Evaluates a top-level expression.
#[allow(non_snake_case)]
pub fn EVAL(rt: &mut Runtime, ast: MalType, env: Env) -> (r: MalRet)
    ensures
        final(rt)@ == eval_top(old(rt)@, ast@, env as nat).0,
        match (r, eval_top(old(rt)@, ast@, env as nat).1) {
            (Ok(v), Ok(x)) => v@ == x,
            (Err(e), Err(f)) => reports(e, unevaluated(f), "EVAL: "@),
            _ => false,
        },
{
    match eval(rt, &ast, env) {
        Ok(v) => Ok(v),
        Err(e) => Err(prefixed("EVAL: ", e)),
    }
}

/// The readable text of a value.
#[allow(non_snake_case)]
pub fn PRINT(output: MalType) -> (r: String)
    ensures
        r@ == print_value(output@, true),
{
    pr_str(&output, true)
}

/// One pass of an interactive session: reads every form from the cursor
/// on, then evaluates each and gives the texts of their values.
pub fn rep(rt: &mut Runtime, reader: &mut Reader, env: Env) -> (r: Result<Vec<String>, MalErr>)
    ensures
        final(reader)@.buffer == old(reader)@.buffer,
        final(reader)@.tokens == old(reader)@.tokens,
        final(rt)@ == rep_spec(old(rt)@, old(reader)@.tokens, old(reader)@.pos, env as nat).0,
        final(reader)@.pos == rep_spec(
            old(rt)@,
            old(reader)@.tokens,
            old(reader)@.pos,
            env as nat,
        ).1,
        match (r, rep_spec(old(rt)@, old(reader)@.tokens, old(reader)@.pos, env as nat).2) {
            (Ok(v), Ok(x)) => texts_of(v@) == x,
            (Err(e), Err(stop)) => reports(e, stop, "EVAL: "@),
            _ => false,
        },
{
    let start = reader.position();
    let ghost tokens = reader@.tokens;
    match read_str(reader) {
        Ok(_) => {},
        Err(e) => {
            return Err(prefixed("READ: ", e));
        },
    }
    reader.seek(start);
    let ghost goal = run_forms(rt@, tokens, start as int, env as nat);
    let mut ret: Vec<String> = Vec::new();
    proof {
        match goal.2 {
            Ok(s) => {
                assert(texts_of(ret@) + s =~= s);
            },
            Err(_) => {},
        }
    }
    while !reader.ended()
        invariant
            reader@.buffer == old(reader)@.buffer,
            reader@.tokens == tokens,
            tokens == old(reader)@.tokens,
            0 <= reader@.pos,
            goal == rep_spec(old(rt)@, tokens, old(reader)@.pos, env as nat),
            texts_front(texts_of(ret@), run_forms(rt@, tokens, reader@.pos, env as nat)) == goal,
        decreases tokens.len() - reader@.pos,
    {
        proof {
            lemma_parse_form_advances(tokens, reader@.pos);
        }
        let ast = match READ(reader) {
            Ok(v) => v,
            Err(e) => {
                return Err(e);
            },
        };
        let out = match EVAL(rt, ast, env) {
            Ok(v) => v,
            Err(e) => {
                return Err(e);
            },
        };
        let ghost before = texts_of(ret@);
        let text = PRINT(out);
        ret.push(text);
        proof {
            assert(texts_of(ret@) =~= before.push(text@));
            match run_forms(rt@, tokens, reader@.pos, env as nat).2 {
                Ok(s) => {
                    assert(before + (seq![text@] + s) =~= before.push(text@) + s);
                },
                Err(_) => {},
            }
        }
    }
    assert(texts_of(ret@) + Seq::<Seq<char>>::empty() =~= texts_of(ret@));
    Ok(ret)
}

/// What evaluating a text gives: its last form is read (nil for none) and
/// evaluated.
pub open spec fn eval_text(w: World, text: Seq<char>, env: nat) -> (World, Result<Value, Stop>) {
    match parse_all(tokens_of(text + seq!['\n']), 0, Value::Nil) {
        Err(s) => (w, Err(unread(s))),
        Ok(ast) => {
            let (w1, v) = eval_top(w, ast, env);
            (
                w1,
                match v {
                    Ok(x) => Ok(x),
                    Err(f) => Err(unevaluated(f)),
                },
            )
        },
    }
}

/// Whether a result is the outcome of evaluating a text: the value, or an
/// error that reports the failure.
pub open spec fn verdict(r: MalRet, s: Result<Value, Stop>) -> bool {
    match (r, s) {
        (Ok(v), Ok(x)) => v@ == x,
        (Err(e), Err(stop)) => reports(e, stop, Seq::empty()),
        _ => false,
    }
}

/// Reads the last form of a text and evaluates it.
pub fn eval_str(rt: &mut Runtime, line: &str, env: Env) -> (r: MalRet)
    ensures
        final(rt)@ == eval_text(old(rt)@, line@, env as nat).0,
        verdict(r, eval_text(old(rt)@, line@, env as nat).1),
{
    let mut reader = Reader::new();
    reader.push(line);
    assert(reader@.buffer =~= line@ + seq!['\n']);
    match read_str(&mut reader) {
        Ok(ast) => {
            let r = eval(rt, &ast, env);
            proof {
                match eval_top(old(rt)@, ast@, env as nat).1 {
                    Err(Fault::Raised(m)) => {
                        assert(Seq::<char>::empty() + m =~= m);
                    },
                    _ => {},
                }
            }
            r
        },
        Err(e) => Err(e),
    }
}

/// The program that loads a file: it reads the file as one `do` form that
/// ends in nil and evaluates that form in the outermost frame.
pub open spec fn load_source(filename: Seq<char>) -> Seq<char> {
    "(eval (read-string (str \"(do \" (slurp "@ + escape_text(filename) + ") \"\\nnil)\")))"@
}

/// Loads the file `filename`: evaluates `load_source(filename)`.
pub fn load_file(rt: &mut Runtime, filename: &str, env: Env) -> (r: MalRet)
    ensures
        final(rt)@ == eval_text(old(rt)@, load_source(filename@), env as nat).0,
        verdict(r, eval_text(old(rt)@, load_source(filename@), env as nat).1),
{
    let mut text = "(eval (read-string (str \"(do \" (slurp ".to_owned();
    text.append(escape_str(filename).as_str());
    text.append(") \"\\nnil)\")))");
    eval_str(rt, text.as_str(), env)
}

/// The texts as string values.
pub open spec fn strings(s: Seq<Seq<char>>) -> Seq<Value> {
    Seq::new(
        s.len(),
        |i: int|
            if 0 <= i < s.len() {
                Value::Str(s[i])
            } else {
                Value::Nil
            },
    )
}

/// The command-line arguments that follow the program's name and the file
/// to load: all but the first two texts.
pub open spec fn after_file(s: Seq<Seq<char>>) -> Seq<Seq<char>> {
    if s.len() > 2 {
        s.subrange(2, s.len() as int)
    } else {
        Seq::empty()
    }
}

/// Binds `*ARGV*` in `env` to the list of the command-line arguments that
/// remain after the program's name and the file to load, as strings.
pub fn pre_load(rt: &mut Runtime, argv: &Vec<String>, env: Env)
    ensures
        final(rt)@ == old(rt)@.define(
            env as nat,
            "*ARGV*"@,
            Value::List(strings(after_file(texts_of(argv@)))),
        ),
{
    let mut items: Vec<MalType> = Vec::new();
    let mut i: usize = 2;
    while i < argv.len()
        invariant
            2 <= i,
            i <= argv.len() || i == 2,
            items@.len() == (if i <= argv.len() {
                i - 2
            } else {
                0
            }),
            forall|j: int| 0 <= j < items@.len() ==> items@[j]@ == Value::Str(argv@[j + 2]@),
        decreases argv.len() - i,
    {
        items.push(MalType::Str(argv[i].clone()));
        i += 1;
    }
    proof {
        lemma_view_list(items);
        let rest = after_file(texts_of(argv@));
        let want = strings(rest);
        assert(texts_of(argv@).len() == argv@.len());
        assert(rest.len() == items@.len());
        assert(want.len() == rest.len());
        assert(models_of(items@).len() == want.len());
        assert forall|j: int| 0 <= j < want.len() implies models_of(items@)[j] == want[j] by {
            assert(items@[j]@ == Value::Str(argv@[j + 2]@));
            assert(rest[j] == texts_of(argv@)[j + 2]);
        }
        assert(models_of(items@) =~= want);
    }
    env_set(rt, env, "*ARGV*", &MalType::List(items));
}

/// The program that binds `MAL_HOME`: to the environment variable of that
/// name, or else to `.config/mal` under the home directory.
pub open spec fn home_source() -> Seq<char> {
    "(if (env \"MAL_HOME\") (def! MAL_HOME (env \"MAL_HOME\")) (def! MAL_HOME (str (env \"HOME\") \"/.config/mal\")))"@
}

/// Binds `MAL_HOME`: evaluates `home_source()`.
pub fn set_home_path(rt: &mut Runtime, env: Env) -> (r: MalRet)
    ensures
        final(rt)@ == eval_text(old(rt)@, home_source(), env as nat).0,
        verdict(r, eval_text(old(rt)@, home_source(), env as nat).1),
{
    eval_str(
        rt,
        "(if (env \"MAL_HOME\") (def! MAL_HOME (env \"MAL_HOME\")) (def! MAL_HOME (str (env \"HOME\") \"/.config/mal\")))",
        env,
    )
}

/// Prints the value of `BANNER`, if it has one: evaluates `(prn BANNER)`.
pub fn print_banner(rt: &mut Runtime, env: Env)
    ensures
        final(rt)@ == eval_text(old(rt)@, "(prn BANNER)"@, env as nat).0,
{
    let _ = eval_str(rt, "(prn BANNER)", env);
}

/// The value of `MAL_HOME`, a string: evaluates `MAL_HOME`.
pub fn get_home_path(rt: &mut Runtime, env: Env) -> (r: Result<String, MalErr>)
    ensures
        final(rt)@ == eval_text(old(rt)@, "MAL_HOME"@, env as nat).0,
        match r {
            Ok(s) => eval_text(old(rt)@, "MAL_HOME"@, env as nat).1 == Ok::<Value, Stop>(
                Value::Str(s@),
            ),
            Err(_) => !(eval_text(old(rt)@, "MAL_HOME"@, env as nat).1 matches Ok(Value::Str(_))),
        },
{
    match eval_str(rt, "MAL_HOME", env) {
        Ok(v) => match v.if_string() {
            Ok(s) => Ok(s.to_owned()),
            Err(e) => Err(e),
        },
        Err(e) => Err(e),
    }
}

} // verus!
