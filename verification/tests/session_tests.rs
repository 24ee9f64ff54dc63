use mal::builtins::{
    any_zero, arithmetic_op, call_builtin, car, car_cdr, cdr, comparison_op, first_last, mal_boom,
    mal_car, mal_cdr, mal_cons, mal_exit, mal_raise, ns_init, reset_bang,
};
use mal::env::{env_binds, env_get, env_new, env_set, outermost, Halt, Runtime};
use mal::eval::{eval, eval_within};
use mal::frac::{ArithOp, Frac, Relation};
use mal::printer::{key_str, pr_str, prt};
use mal::reader::{read_str, Reader};
use mal::repl::{eval_str, get_home_path, load_file, pre_load, print_banner, rep, set_home_path};
use mal::types::{MalErr, Severity};
use mal::value::{make_map, mal_equals, Builtin, Env, MalMap, MalType};

fn fresh() -> (Runtime, Env) {
    let mut rt = Runtime::new();
    let env = ns_init(&mut rt);
    (rt, env)
}

fn session(lines: &[&str]) -> Vec<String> {
    let (mut rt, env) = fresh();
    let mut reader = Reader::new();
    let mut out = Vec::new();
    for line in lines {
        reader.push(line);
        match rep(&mut rt, &mut reader, env) {
            Ok(texts) => {
                out.extend(texts);
                reader.clear();
            }
            Err(e) if e.is_recoverable() => {}
            Err(e) => {
                out.push(format!("Error @ {}", e.message()));
                reader.clear();
            }
        }
    }
    out
}

fn value(text: &str) -> String {
    let (mut rt, env) = fresh();
    match eval_str(&mut rt, text, env) {
        Ok(v) => pr_str(&v, true),
        Err(e) => panic!("{}: {}", text, e.message()),
    }
}

fn fails(text: &str) -> MalErr {
    let (mut rt, env) = fresh();
    match eval_str(&mut rt, text, env) {
        Ok(v) => panic!("{} gave {}", text, pr_str(&v, true)),
        Err(e) => e,
    }
}

fn num(n: isize) -> MalType {
    MalType::Num(Frac::num(n))
}

fn text(s: &str) -> MalType {
    MalType::Str(s.to_string())
}

#[test]
fn sum_of_three() {
    assert_eq!(session(&["(+ 1 2 3)"]), vec!["6"]);
}

#[test]
fn define_and_call_square() {
    assert_eq!(
        session(&["(def! sq (fn* (x) (* x x))) (sq 7)"]),
        vec!["#<function>", "49"]
    );
}

#[test]
fn let_binds_in_order() {
    assert_eq!(session(&["(let* (a 1 b (+ a 2)) (* a b))"]), vec!["3"]);
}

#[test]
fn if_takes_else_branch() {
    assert_eq!(session(&["(if (= 0 1) :yes :no)"]), vec![":no"]);
}

#[test]
fn atom_is_updated_in_place() {
    assert_eq!(
        session(&["(def! a (atom 1)) (reset! a (+ (deref a) 41)) (deref a)"]),
        vec!["#<atom>", "42", "42"]
    );
}

#[test]
fn boom_counts_characters() {
    assert_eq!(session(&["(count (boom \"abc\"))"]), vec!["3"]);
}

#[test]
fn tail_calls_do_not_grow_the_stack() {
    assert_eq!(
        session(&[
            "(def! loop (fn* (n) (if (= n 0) :done (loop (- n 1)))))",
            "(loop 100000)"
        ]),
        vec!["#<function>", ":done"]
    );
}

#[test]
fn tail_calls_through_do_and_let() {
    assert_eq!(
        value("(do (def! down (fn* (n) (do 1 (let* (m (- n 1)) (if (< m 0) \"end\" (down m)))))) (down 20000))"),
        "\"end\""
    );
}

#[test]
fn budget_runs_out() {
    let (mut rt, env) = fresh();
    let mut r = Reader::new();
    r.push("(do (def! spin (fn* () (spin))) (ok? (spin)))");
    let ast = read_str(&mut r).unwrap();
    let e = eval_within(&mut rt, &ast, env, 5000).unwrap_err();
    assert_eq!(e.severity(), Severity::Unrecoverable);
    assert!(matches!(rt.halt(), Some(Halt::OutOfFuel)));
    assert!(eval_str(&mut rt, "1", env).is_err());
    rt.resume();
    assert!(rt.halt().is_none());
    assert_eq!(pr_str(&eval_str(&mut rt, "(+ 1 1)", env).unwrap(), true), "2");
    let one = eval_within(&mut rt, &num(1), env, 1).unwrap();
    assert_eq!(prt(&one), "1");
    assert!(eval_within(&mut rt, &num(1), env, 0).is_err());
}

#[test]
fn round_trip_of_read_values() {
    for src in [
        "nil", "true", "false", "0", "-12", "3/4", "-3/4", "\"\"", "\"a b\"", "\"q\\\"q\"",
        "\"back\\\\slash\"", "\"line\\nbreak\\ttab\\rcr\"", "\"\\\\n\"", ":kw", "sym", "+", "-",
        "()", "[]", "(1 2 3)", "[1 [2 (3 \"x\")] :k sym]", "(quote (a b))", "(nil true false)",
    ] {
        let mut r = Reader::new();
        r.push(src);
        let v = read_str(&mut r).unwrap();
        let printed = pr_str(&v, true);
        let mut again = Reader::new();
        again.push(&printed);
        let w = read_str(&mut again).unwrap();
        let same = mal_equals(&[v, w]).unwrap();
        assert!(matches!(same, MalType::T), "{} printed as {}", src, printed);
        assert_eq!(printed, src);
    }
}

#[test]
fn lookup_is_local() {
    let (mut rt, env) = fresh();
    eval_str(&mut rt, "(let* (x 1) x)", env).unwrap();
    assert!(env_get(&rt, env, "x").is_err());
    eval_str(&mut rt, "(def! y 2)", env).unwrap();
    assert_eq!(prt(&env_get(&rt, env, "y").unwrap()), "2");
    eval_str(&mut rt, "((fn* (z) (def! inner z)) 5)", env).unwrap();
    assert!(env_get(&rt, env, "inner").is_err());
    assert!(env_get(&rt, env, "z").is_err());
    eval_str(&mut rt, "(let* (p 1) (eval '(def! from-eval 9)))", env).unwrap();
    assert_eq!(prt(&env_get(&rt, env, "from-eval").unwrap()), "9");
}

#[test]
fn environments() {
    let mut rt = Runtime::new();
    let root = env_new(&mut rt, None);
    let inner = env_new(&mut rt, Some(root));
    let innermost = env_new(&mut rt, Some(inner));
    assert_eq!((root, inner, innermost), (0, 1, 2));
    env_set(&mut rt, root, "a", &num(1));
    env_set(&mut rt, root, "b", &num(2));
    env_set(&mut rt, inner, "a", &num(10));
    assert_eq!(prt(&env_get(&rt, innermost, "a").unwrap()), "10");
    assert_eq!(prt(&env_get(&rt, innermost, "b").unwrap()), "2");
    assert_eq!(prt(&env_get(&rt, root, "a").unwrap()), "1");
    env_set(&mut rt, root, "a", &num(3));
    assert_eq!(prt(&env_get(&rt, root, "a").unwrap()), "3");
    assert_eq!(prt(&env_get(&rt, inner, "a").unwrap()), "10");
    let e = env_get(&rt, innermost, "c").unwrap_err();
    assert_eq!(e.severity(), Severity::Unrecoverable);
    assert!(env_get(&rt, 99, "a").is_err());
    env_set(&mut rt, 99, "a", &num(1));
    assert_eq!(rt.frame_count(), 3);
    assert_eq!(outermost(&rt, innermost), root);
    assert_eq!(outermost(&rt, root), root);
    env_set(&mut rt, root, "zeta", &num(0));
    env_set(&mut rt, root, "Alpha", &num(0));
    env_set(&mut rt, root, "ab", &num(0));
    assert_eq!(rt.keys(root), vec!["Alpha", "a", "ab", "b", "zeta"]);
    assert_eq!(rt.keys(inner), vec!["a"]);
    assert!(rt.keys(innermost).is_empty());
    assert!(rt.keys(99).is_empty());
}

#[test]
fn binding_parameters() {
    let mut rt = Runtime::new();
    let root = env_new(&mut rt, None);
    let params = MalType::Vector(vec![
        MalType::Sym("a".to_string()),
        MalType::Sym("b".to_string()),
    ]);
    let e = env_binds(&mut rt, root, &params, &[num(1)]).unwrap();
    assert_eq!(e, 1);
    assert_eq!(prt(&env_get(&rt, e, "a").unwrap()), "1");
    assert_eq!(prt(&env_get(&rt, e, "b").unwrap()), "nil");
    assert!(env_get(&rt, root, "a").is_err());
    let before = rt.frame_count();
    let too_many = env_binds(&mut rt, root, &params, &[num(1), num(2), num(3)]).unwrap_err();
    assert_eq!(too_many.severity(), Severity::Unrecoverable);
    assert!(env_binds(&mut rt, root, &num(1), &[]).is_err());
    assert!(env_binds(&mut rt, root, &MalType::List(vec![num(1)]), &[num(1)]).is_err());
    assert_eq!(rt.frame_count(), before);
    let twice = MalType::List(vec![MalType::Sym("a".to_string()), MalType::Sym("a".to_string())]);
    let e2 = env_binds(&mut rt, root, &twice, &[num(1), num(2)]).unwrap();
    assert_eq!(prt(&env_get(&rt, e2, "a").unwrap()), "2");
    assert_eq!(rt.keys(e2), vec!["a"]);
}

#[test]
fn a_map_holds_each_key_once() {
    let m = MalMap::new().with("a", num(1)).with("b", num(2)).with("a", num(3)).with("", num(4));
    let keys: Vec<&str> = m.entries().iter().map(|e| e.0.as_str()).collect();
    assert_eq!(keys, vec!["a", "b", ""]);
    assert_eq!(prt(m.get("a").unwrap()), "3");
    assert_eq!(prt(m.get("").unwrap()), "4");
    assert!(m.get("c").is_none());
    assert!(MalMap::new().entries().is_empty());
    let copy = m.clone();
    assert_eq!(prt(&MalType::Dict(copy)), "{\"a\" 3 \"b\" 2 \"\" 4}");
    let mut rt = Runtime::new();
    let frame = rt.add_frame(m, None);
    assert_eq!(rt.keys(frame), vec!["", "a", "b"]);
    assert_eq!(prt(&env_get(&rt, frame, "a").unwrap()), "3");
    assert_eq!(value("{:k 1 :k 2 \"k\" (+ 1 2)}"), "{:k 2 \"k\" 3}");
}

#[test]
fn a_name_is_bound_once_in_a_frame() {
    let mut rt = Runtime::new();
    let root = env_new(&mut rt, None);
    for (name, n) in [("b", 1), ("a", 2), ("b", 3), ("a", 4), ("c", 5), ("b", 6)] {
        env_set(&mut rt, root, name, &num(n));
    }
    assert_eq!(rt.keys(root), vec!["a", "b", "c"]);
    assert_eq!(prt(&env_get(&rt, root, "a").unwrap()), "4");
    assert_eq!(prt(&env_get(&rt, root, "b").unwrap()), "6");
    let (mut rt, env) = fresh();
    let before = rt.keys(env).len();
    eval_str(&mut rt, "(do (def! + 1) (def! + 2) (def! fresh 3) (def! fresh 4))", env).unwrap();
    let names = rt.keys(env);
    assert_eq!(names.len(), before + 1);
    let mut once = names.clone();
    once.dedup();
    assert_eq!(once, names);
    let copy = rt.clone();
    assert_eq!(copy.keys(env), names);
}

#[test]
fn arithmetic_functions() {
    let three = [num(1), num(2), num(3)];
    assert_eq!(prt(&arithmetic_op(0, ArithOp::Add, &three).unwrap()), "6");
    assert_eq!(prt(&arithmetic_op(0, ArithOp::Sub, &three).unwrap()), "-4");
    assert_eq!(prt(&arithmetic_op(1, ArithOp::Mul, &three).unwrap()), "6");
    assert_eq!(prt(&arithmetic_op(1, ArithOp::Div, &three).unwrap()), "1/6");
    assert_eq!(prt(&arithmetic_op(7, ArithOp::Add, &[]).unwrap()), "7");
    assert_eq!(prt(&arithmetic_op(1, ArithOp::Div, &[num(4)]).unwrap()), "1/4");
    assert!(arithmetic_op(0, ArithOp::Add, &[num(1), text("a")]).is_err());
    assert!(arithmetic_op(0, ArithOp::Add, &[text("a")]).is_err());
    assert!(arithmetic_op(1, ArithOp::Div, &[num(1), num(0)]).is_err());
    assert!(arithmetic_op(0, ArithOp::Add, &[num(isize::MAX), num(1)]).is_err());
    assert!(any_zero(&[num(0)]).is_err());
    assert!(any_zero(&[text("a")]).is_err());
    assert!(any_zero(&[num(0), num(1)]).is_err());
    assert!(any_zero(&[num(0), num(5)]).is_err());
    assert!(any_zero(&[num(2), num(5)]).is_ok());
    assert!(!any_zero(&[num(3), num(0), num(1)]).unwrap_err().is_recoverable());
    assert!(arithmetic_op(1, ArithOp::Div, &[num(0), num(5)]).is_ok());
    assert!(call_builtin(&mut Runtime::new(), Builtin::Arith(ArithOp::Div), &[num(0), num(5)]).is_err());
    assert!(any_zero(&[num(1), num(2), num(0)]).is_err());
    assert!(any_zero(&[]).is_ok());
    assert!(any_zero(&[num(1), text("a")]).is_ok());
    assert_eq!(prt(&comparison_op(Relation::Less, &[]).unwrap()), "nil");
    assert_eq!(prt(&comparison_op(Relation::Less, &[num(1)]).unwrap()), "true");
    assert_eq!(prt(&comparison_op(Relation::Less, &three).unwrap()), "true");
    assert_eq!(prt(&comparison_op(Relation::Greater, &three).unwrap()), "nil");
    assert_eq!(prt(&comparison_op(Relation::LessEq, &[num(1), num(1)]).unwrap()), "true");
    assert_eq!(prt(&comparison_op(Relation::GreaterEq, &[num(1), num(2)]).unwrap()), "nil");
    assert_eq!(prt(&comparison_op(Relation::Less, &[num(2), num(1), text("a")]).unwrap()), "nil");
    assert!(comparison_op(Relation::Less, &[num(1), num(2), text("a")]).is_err());
    assert!(comparison_op(Relation::Less, &[text("a")]).is_err());
}

#[test]
fn arithmetic_identities() {
    for (a, b, c) in [(1, 2, 3), (-5, 5, 0), (1000000, -1, 7)] {
        let flat = arithmetic_op(0, ArithOp::Add, &[num(a), num(b), num(c)]).unwrap();
        let inner = arithmetic_op(0, ArithOp::Add, &[num(a), num(b)]).unwrap();
        let nested = arithmetic_op(0, ArithOp::Add, &[inner, num(c)]).unwrap();
        assert_eq!(prt(&flat), prt(&nested));
        assert_eq!(prt(&flat), (a + b + c).to_string());
    }
    for x in ["7", "-7/3", "0", "22/7"] {
        assert_eq!(value(&format!("(= (* 1 {}) {})", x, x)), "true");
        assert_eq!(value(&format!("(* 1 {})", x)), x);
    }
    for x in ["7", "-7/3", "22/7"] {
        assert_eq!(value(&format!("(= (/ {} 1) {})", x, x)), "true");
    }
    assert!(!fails("(/ 0 1)").is_recoverable());
    assert_eq!(value("(= (/ 4 6) (/ 2 3))"), "true");
    assert_eq!(value("(/ 4 6)"), "2/3");
}

#[test]
fn falsiness() {
    for c in ["nil", "false", "(= 1 2)", "(car ())"] {
        assert_eq!(value(&format!("(if {} 1 2)", c)), "2");
    }
    for c in ["0", "\"\"", "()", "[]", "{}", "true", ":k", "'a", "(list)", "(atom nil)", "+"] {
        assert_eq!(value(&format!("(if {} 1 2)", c)), "1");
    }
}

#[test]
fn list_helpers() {
    let l = [num(1), num(2), num(3)];
    assert_eq!(prt(car(&l).unwrap()), "1");
    assert!(car(&[]).is_err());
    assert_eq!(cdr(&l).len(), 2);
    assert_eq!(prt(&cdr(&l)[0]), "2");
    assert!(cdr(&l[0..1]).is_empty());
    assert!(cdr(&[]).is_empty());
    let (first, rest) = car_cdr(&l).unwrap();
    assert_eq!((prt(first), rest.len()), ("1".to_string(), 2));
    assert!(car_cdr(&[]).is_err());
    let (front, last) = first_last(&l);
    assert_eq!((front.len(), prt(&last.unwrap())), (2, "3".to_string()));
    let (front, last) = first_last(&[]);
    assert_eq!((front.len(), prt(&last.unwrap())), (0, "nil".to_string()));
    let list = MalType::List(l.to_vec());
    let vector = MalType::Vector(l.to_vec());
    assert_eq!(prt(&mal_car(&list).unwrap()), "1");
    assert_eq!(prt(&mal_car(&MalType::List(vec![])).unwrap()), "nil");
    assert_eq!(prt(&mal_cdr(&vector).unwrap()), "(2 3)");
    assert_eq!(prt(&mal_cdr(&MalType::List(vec![])).unwrap()), "()");
    assert!(mal_car(&num(1)).is_err());
    assert!(mal_cdr(&num(1)).is_err());
    assert_eq!(prt(&mal_cons(&[num(0), vector]).unwrap()), "(0 1 2 3)");
    assert!(mal_cons(&[num(0)]).is_err());
    assert!(mal_cons(&[num(0), num(1)]).is_err());
    assert_eq!(prt(&mal_boom(&[text("h\u{e9}")]).unwrap()), "(h \u{e9})");
    assert!(mal_boom(&[]).is_err());
    assert!(mal_boom(&[num(1)]).is_err());
    assert_eq!(prt(&mal_equals(&[]).unwrap()), "true");
    assert_eq!(prt(&mal_equals(&[num(1), num(1), num(2)]).unwrap()), "nil");
}

#[test]
fn maps_and_keys() {
    let m = make_map(vec![text("a"), num(1), key_str("\u{29e}:b"), num(2), text("a"), num(3)]).unwrap();
    assert_eq!(prt(&m), "{\"a\" 3 :b 2}");
    assert_eq!(pr_str(&m, false), "{a 3 :b 2}");
    assert!(make_map(vec![text("a")]).is_err());
    assert!(make_map(vec![num(1), num(2)]).is_err());
    assert_eq!(prt(&make_map(vec![]).unwrap()), "{}");
    assert!(matches!(key_str("plain"), MalType::Str(s) if s == "plain"));
    assert!(matches!(key_str("\u{29e}:k"), MalType::Key(s) if s == "\u{29e}:k"));
    assert_eq!(value("{:a (+ 1 2) \"b\" (list 1)}"), "{:a 3 \"b\" (1)}");
    assert_eq!(value("[(+ 1 2) 'x]"), "[3 x]");
}

#[test]
fn type_errors_name_the_value() {
    assert_eq!(num(1).if_string().unwrap_err().message(), "1 is not a string");
    assert_eq!(text("a").if_number().unwrap_err().message(), "\"a\" is not a number");
    assert!(num(1).if_list().is_err());
    assert!(MalType::List(vec![]).if_vec().is_err());
    assert!(MalType::Vector(vec![]).if_vec().is_ok());
    assert!(MalType::Vector(vec![]).if_list().is_ok());
    assert!(num(1).if_symbol().is_err());
    assert_eq!(MalType::Sym("s".to_string()).if_symbol().unwrap(), "s");
    assert_eq!(prt(&MalType::F.label_type()), ":f");
    assert_eq!(prt(&MalType::T.label_type()), ":t");
}

#[test]
fn error_values() {
    let e = MalErr::new("m".to_string(), Severity::Recoverable);
    assert!(e.is_recoverable());
    assert_eq!(e.message(), "m");
    assert_eq!(e.severity(), Severity::Recoverable);
    let e = e.severe();
    assert!(!e.is_recoverable());
    assert_eq!(e.message(), "m");
    assert!(MalErr::recoverable("r").is_recoverable());
    assert_eq!(MalErr::unrecoverable("u").severity(), Severity::Unrecoverable);
    assert_eq!(fails("(raise \"my message\")").message(), "my message");
    assert!(!fails("(raise 1)").is_recoverable());
    assert!(!fails("(read-string \"(1\")").is_recoverable());
    assert!(fails("(1 2").is_recoverable());
    assert!(!fails("(1 2))").is_recoverable());
    assert!(!fails("(undefined)").is_recoverable());
    assert_eq!(mal_raise(&[text("x")]).unwrap_err().message(), "x");
    assert_eq!(fails("(do 1 (let* (a 2) (if a (car (list (raise \"deep\"))))))").message(), "deep");
    assert_eq!(fails("((fn* (m) (raise m)) (str \"a\" 1))").message(), "a1");
    assert_eq!(
        session(&["(def! x 1) (raise \"stop here\") (def! x 2)", "x"]),
        vec!["Error @ EVAL: stop here", "1"]
    );
}

#[test]
fn atoms_through_the_runtime() {
    let (mut rt, _) = fresh();
    let a = call_builtin(&mut rt, Builtin::Atom, &[num(1)]).unwrap();
    let b = call_builtin(&mut rt, Builtin::Atom, &[]).unwrap();
    assert_eq!(prt(&call_builtin(&mut rt, Builtin::Deref, &[a.clone()]).unwrap()), "1");
    assert_eq!(prt(&call_builtin(&mut rt, Builtin::Deref, &[b.clone()]).unwrap()), "nil");
    assert_eq!(prt(&reset_bang(&mut rt, &[a.clone(), text("s")]).unwrap()), "\"s\"");
    assert_eq!(prt(&call_builtin(&mut rt, Builtin::Deref, &[a]).unwrap()), "\"s\"");
    assert_eq!(prt(&call_builtin(&mut rt, Builtin::Deref, &[b]).unwrap()), "nil");
    assert!(reset_bang(&mut rt, &[MalType::Atom(99), num(1)]).is_err());
    assert!(reset_bang(&mut rt, &[num(1), num(1)]).is_err());
    assert!(call_builtin(&mut rt, Builtin::Deref, &[MalType::Atom(99)]).is_err());
}

#[test]
fn printing_goes_to_the_output() {
    let (mut rt, env) = fresh();
    eval_str(&mut rt, "(do (prn \"a\" 1 :k) (println \"b\" (list \"c\")) (println))", env).unwrap();
    assert_eq!(rt.take_output(), vec!["a1:k", "b(c)\n", "\n"]);
    assert!(rt.take_output().is_empty());
    eval_str(&mut rt, "(def! BANNER \"hello\")", env).unwrap();
    print_banner(&mut rt, env);
    assert_eq!(rt.take_output(), vec!["hello"]);
}

#[test]
fn help_and_find() {
    let (mut rt, env) = fresh();
    eval_str(&mut rt, "(def! twice (fn* (f x) (f (f x)) \"end\"))", env).unwrap();
    eval_str(&mut rt, "(def! answer 42)", env).unwrap();
    assert_eq!(prt(&eval_str(&mut rt, "(help +)", env).unwrap()), "nil");
    eval_str(&mut rt, "(h twice)", env).unwrap();
    eval_str(&mut rt, "(help answer)", env).unwrap();
    assert!(eval_str(&mut rt, "(help 1)", env).is_err());
    assert!(eval_str(&mut rt, "(help nothing)", env).is_err());
    assert_eq!(
        rt.take_output(),
        vec![
            "+\t[builtin]: Returns the sum of the arguments\n\n",
            "twice\t[function]: (f x)\n;   (f (f x))\n;   \"end\"\n\n",
            "answer\t[symbol]: 42\n\n",
        ]
    );
    eval_str(&mut rt, "(let* (hidden 1) (find re))", env).unwrap();
    eval_str(&mut rt, "(find re -)", env).unwrap();
    eval_str(&mut rt, "(find zzz)", env).unwrap();
    assert!(eval_str(&mut rt, "(find \"re\")", env).is_err());
    assert_eq!(
        rt.take_output(),
        vec![
            "\t[matches]:\nderef read-line read-string reset!\n\n",
            "\t[matches]:\nread-line read-string\n\n",
            "\t[matches]:\n\n\n",
        ]
    );
}

#[test]
fn the_host_answers_on_request() {
    let (mut rt, env) = fresh();
    let e = eval_str(&mut rt, "(ok? (slurp \"notes.txt\"))", env).unwrap_err();
    assert!(!e.is_recoverable());
    assert!(matches!(rt.halt(), Some(Halt::NeedFile(f)) if f == "notes.txt"));
    rt.resume();
    rt.provide_file("notes.txt", Some("(+ 1 2)".to_string()));
    assert_eq!(prt(&eval_str(&mut rt, "(slurp \"notes.txt\")", env).unwrap()), "\"(+ 1 2)\"");
    assert_eq!(prt(&load_file(&mut rt, "notes.txt", env).unwrap()), "nil");
    rt.provide_file("missing.txt", None);
    assert!(eval_str(&mut rt, "(slurp \"missing.txt\")", env).is_err());
    assert!(rt.halt().is_none());
    assert_eq!(prt(&eval_str(&mut rt, "(ok? (slurp \"missing.txt\"))", env).unwrap()), "nil");

    assert!(eval_str(&mut rt, "(env \"HOME\")", env).is_err());
    assert!(matches!(rt.halt(), Some(Halt::NeedVar(v)) if v == "HOME"));
    rt.resume();
    rt.provide_var("HOME", Some("/home/me".to_string()));
    rt.provide_var("MAL_HOME", None);
    assert_eq!(prt(&eval_str(&mut rt, "(env \"HOME\")", env).unwrap()), "\"/home/me\"");
    assert_eq!(prt(&eval_str(&mut rt, "(env \"MAL_HOME\")", env).unwrap()), "nil");
    set_home_path(&mut rt, env).unwrap();
    assert_eq!(get_home_path(&mut rt, env).unwrap(), "/home/me/.config/mal");

    assert!(eval_str(&mut rt, "(read-line)", env).is_err());
    assert!(matches!(rt.halt(), Some(Halt::NeedLine)));
    rt.resume();
    rt.provide_line("first".to_string());
    rt.provide_line("second".to_string());
    assert_eq!(prt(&eval_str(&mut rt, "(list (read-line) (read-line))", env).unwrap()), "(\"first\" \"second\")");
    assert!(eval_str(&mut rt, "(read-line)", env).is_err());
    rt.resume();

    assert!(eval_str(&mut rt, "(ok? (exit 3))", env).is_err());
    assert!(matches!(rt.halt(), Some(Halt::Exit(3))));
    rt.resume();
    assert!(mal_exit(&mut rt, &[text("x")]).is_err());
    assert!(matches!(rt.halt(), Some(Halt::Exit(-1))));
    rt.resume();
    assert!(mal_exit(&mut rt, &[]).is_err());
    assert!(rt.halt().is_none());
    assert!(eval_str(&mut rt, "(exit 7/2)", env).is_err());
    assert!(matches!(rt.halt(), Some(Halt::Exit(3))));
}

#[test]
fn command_line_arguments() {
    let (mut rt, env) = fresh();
    let argv = |words: &[&str]| words.iter().map(|w| w.to_string()).collect::<Vec<String>>();
    pre_load(&mut rt, &argv(&["mal", "f.mal", "x", "1"]), env);
    assert_eq!(prt(&env_get(&rt, env, "*ARGV*").unwrap()), "(\"x\" \"1\")");
    pre_load(&mut rt, &argv(&["mal", "file.mal", "x y"]), env);
    assert_eq!(prt(&env_get(&rt, env, "*ARGV*").unwrap()), "(\"x y\")");
    pre_load(&mut rt, &argv(&["mal", "file.mal"]), env);
    assert_eq!(prt(&env_get(&rt, env, "*ARGV*").unwrap()), "()");
    pre_load(&mut rt, &argv(&["mal"]), env);
    assert_eq!(prt(&env_get(&rt, env, "*ARGV*").unwrap()), "()");
    pre_load(&mut rt, &vec![], env);
    assert_eq!(prt(&env_get(&rt, env, "*ARGV*").unwrap()), "()");
    assert_eq!(prt(&eval_str(&mut rt, "(count *ARGV*)", env).unwrap()), "0");
}

#[test]
fn a_pass_reads_before_it_evaluates() {
    let (mut rt, env) = fresh();
    let mut reader = Reader::new();
    reader.push("(def! n 1) (def! m");
    let e = rep(&mut rt, &mut reader, env).unwrap_err();
    assert!(e.is_recoverable());
    assert!(env_get(&rt, env, "n").is_err());
    reader.push("(+ n 1))");
    assert_eq!(rep(&mut rt, &mut reader, env).unwrap(), vec!["1", "2"]);
    assert!(reader.ended());
    reader.clear();
    reader.push("(def! k 5) (undefined) (def! never 1)");
    let e = rep(&mut rt, &mut reader, env).unwrap_err();
    assert!(!e.is_recoverable());
    assert_eq!(prt(&env_get(&rt, env, "k").unwrap()), "5");
    assert!(env_get(&rt, env, "never").is_err());
    reader.clear();
    assert!(rep(&mut rt, &mut reader, env).unwrap().is_empty());
}

#[test]
fn multi_line_input() {
    assert_eq!(
        session(&["(+ 1", "   2", "   \"unfinished", "string\"", ")", "(str \"a", "b\")"]),
        vec!["Error @ EVAL: \"unfinished\\nstring\" is not a number", "\"a\\nb\""]
    );
    assert_eq!(session(&["1 ; comment (", "2"]), vec!["1", "2"]);
    assert_eq!(session(&[")", "3"]).len(), 2);
}

#[test]
fn closures_keep_their_environment() {
    assert_eq!(
        value("(do (def! make (fn* (n) (fn* (m) (+ n m)))) (def! add5 (make 5)) (def! n 100) (add5 1))"),
        "6"
    );
    assert_eq!(value("(do (def! + -) (+ 5 3))"), "2");
    assert_eq!(value("(let* (+ *) (+ 5 3))"), "15");
}

#[test]
fn evaluation_of_plain_values() {
    let (mut rt, env) = fresh();
    assert_eq!(prt(&eval(&mut rt, &MalType::List(vec![]), env).unwrap()), "()");
    assert_eq!(prt(&eval(&mut rt, &text("s"), env).unwrap()), "\"s\"");
    assert_eq!(prt(&eval(&mut rt, &MalType::Sym("+".to_string()), env).unwrap()), "#<builtin>");
    assert!(eval(&mut rt, &MalType::Sym("nope".to_string()), env).is_err());
    assert_eq!(prt(&MalType::Ch('c')), "c");
}

#[test]
fn a_copy_of_the_runtime_goes_back() {
    let (mut rt, env) = fresh();
    eval_str(&mut rt, "(do (def! a (atom 1)) (def! x 1) (prn 1))", env).unwrap();
    rt.provide_line("l".to_string());
    let before = rt.clone();
    eval_str(&mut rt, "(do (reset! a 2) (def! x 2) (def! y 3) (prn 2) (read-line) (slurp \"f\"))", env).unwrap_err();
    assert!(matches!(rt.halt(), Some(Halt::NeedFile(_))));
    assert!(eval_str(&mut rt.clone(), "1", env).is_err());
    let mut rt = before;
    assert!(rt.halt().is_none());
    assert_eq!(prt(&eval_str(&mut rt, "(list (deref a) x (ok? y) (read-line))", env).unwrap()), "(1 1 nil \"l\")");
    assert_eq!(rt.take_output(), vec!["1"]);
}

#[test]
fn a_larger_budget_gives_the_same() {
    let program = "(do (def! fib (fn* (n) (if (< n 2) n (+ (fib (- n 1)) (fib (- n 2)))))) (list (fib 10) (ok? (undefined)) (let* (a (atom 0)) (do (reset! a 5) (deref a)))))";
    let mut texts = Vec::new();
    for fuel in [100u64, 1_000_000, u64::MAX] {
        let (mut rt, env) = fresh();
        let mut r = Reader::new();
        r.push(program);
        let ast = read_str(&mut r).unwrap();
        let v = eval_within(&mut rt, &ast, env, fuel).unwrap();
        texts.push((prt(&v), rt.frame_count()));
    }
    assert_eq!(texts[0].0, "(55 nil 5)");
    assert_eq!(texts[0], texts[1]);
    assert_eq!(texts[1], texts[2]);
    let (mut rt, env) = fresh();
    let mut r = Reader::new();
    r.push(program);
    let ast = read_str(&mut r).unwrap();
    assert!(eval_within(&mut rt, &ast, env, 5).is_err());
    assert!(matches!(rt.halt(), Some(Halt::OutOfFuel)));
}
