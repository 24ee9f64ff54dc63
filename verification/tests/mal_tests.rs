use mal::builtins::ns_init;
use mal::env::Runtime;
use mal::repl::{load_file, set_home_path};
use mal::value::Env;

const CORE: &str = "
(def! not (fn* (x) (if x nil true)))
(def! load-file (fn* (f) (eval (read-string (str \"(do \" (slurp f) \"\\nnil)\")))))
(def! inc (fn* (n) (+ n 1)))
(def! map (fn* (f l) (if (= (count l) 0) (list) (cons (f (car l)) (map f (cdr l))))))
";

fn source(file: &str) -> &'static str {
    match file {
        "assert" => "
            (assert true)
            (assert 1 \"a\" :k (list) 0)
            (assert (ok? (assert true)))
            (assert (not (ok? (assert nil))))
            (assert (not (ok? (assert 1 false 2))))
            (assert (not (ok? (raise \"boom\"))))",
        "logic" => "
            (assert (not nil))
            (assert (not false))
            (assert (= (not true) nil))
            (assert (= (not 0) nil))
            (assert (if 0 true nil))
            (assert (if \"\" true nil))
            (assert (if (list) true nil))
            (assert (if [] true nil))
            (assert (if {} true nil))
            (assert (= (if nil 1 2) 2))
            (assert (= (if false 1 2) 2))
            (assert (= (if nil 1) nil))
            (assert (< 1 2 3))
            (assert (not (< 1 3 2)))
            (assert (<= 1 1 2))
            (assert (> 3 2 1))
            (assert (>= 3 3 1))
            (assert (not (> 1 1)))
            (assert (not (<)))",
        "equals" => "
            (assert (=))
            (assert (= 1))
            (assert (= 1 1 1))
            (assert (not (= 1 1 2)))
            (assert (= nil nil))
            (assert (= true true))
            (assert (= false false))
            (assert (not (= nil false)))
            (assert (= \"a\" \"a\"))
            (assert (not (= \"a\" :a)))
            (assert (not (= \"a\" 'a)))
            (assert (= :a :a))
            (assert (= 'a 'a))
            (assert (= (list 1 (list 2 \"x\")) (list 1 (list 2 \"x\"))))
            (assert (not (= (list 1 2) (list 1 2 3))))
            (assert (not (= (list 1 2) [1 2])))
            (assert (= [1 [2]] [1 [2]]))
            (assert (= (car (boom \"ab\")) (car (boom \"a\"))))
            (assert (= (/ 4 6) (/ 2 3)))
            (assert (= 2/4 1/2))
            (assert (not (= {} {})))
            (assert (not (= + +)))",
        "arithmetic" => "
            (assert (= (+) 0))
            (assert (= (*) 1))
            (assert (= (-) 0))
            (assert (= (/) 1))
            (assert (= (+ 5) 5))
            (assert (= (- 5) -5))
            (assert (= (* 5) 5))
            (assert (= (/ 5) 1/5))
            (assert (= (+ 1 2 3) 6))
            (assert (= (- 10 1 2) 7))
            (assert (= (* 2 3 4) 24))
            (assert (= (/ 12 2 3) 2))
            (assert (= (/ 1 3) 1/3))
            (assert (= (+ 1/2 1/3) 5/6))
            (assert (= (* 1 7/3) 7/3))
            (assert (= (/ 7/3 1) 7/3))
            (assert (not (ok? (/ 0 5))))
            (assert (not (ok? (/ 0 5 2))))
            (assert (not (ok? (/ 5 0))))
            (assert (not (ok? (/ 1 0))))
            (assert (not (ok? (/ 0))))
            (assert (not (ok? (/ 5 1 0 2))))
            (assert (not (ok? (+ 1 \"a\"))))
            (assert (not (ok? (+ 9223372036854775807 1))))
            (assert (= (num 6/4) 3))
            (assert (= (den 6/4) 2))
            (assert (= (floor 7/2) 3))
            (assert (= (floor -7/2) -4))",
        "fibonacci" => "
            (def! fib (fn* (n) (if (< n 2) n (+ (fib (- n 1)) (fib (- n 2))))))
            (assert (= (fib 0) 0))
            (assert (= (fib 1) 1))
            (assert (= (fib 10) 55))
            (assert (= (fib 15) 610))",
        "forms" => "
            (def! x 3)
            (assert (= x 3))
            (assert (= (def! y (+ x 1)) 4))
            (assert (= (let* (a 1 b (+ a 2)) (* a b)) 3))
            (assert (= (let* [a 1 a (+ a 1)] a) 2))
            (assert (= (let* (x 10) x) 10))
            (assert (= x 3))
            (assert (not (ok? (do (let* (q 1) q) q))))
            (assert (= (do 1 2 3) 3))
            (assert (= (do) nil))
            (assert (= (do (def! z 5) (+ z 1)) 6))
            (assert (= ((fn* (a b) (+ a b)) 1 2) 3))
            (assert (= ((fn* [a b] b) 1) nil))
            (assert (not (ok? ((fn* (a) a) 1 2))))
            (assert (= ((\u{3bb} (a) (* a a)) 4) 16))
            (assert (= (quote (1 a)) (list 1 'a)))
            (assert (= (eval (list + 1 2)) 3))
            (assert (= (eval '(+ x 1)) 4))
            (assert (= (let* (x 50) (eval 'x)) 3))
            (assert (= (eval (read-string \"(+ 2 3)\")) 5))
            (assert (not (ok? (def! 1 2))))
            (assert (not (ok? (def! w))))
            (assert (not (ok? (if))))
            (assert (not (ok? (if 1 2 3 4))))
            (assert (not (ok? (let* (a) a))))
            (assert (not (ok? (let* (1 2) 3))))
            (assert (not (ok? undefined-symbol)))
            (assert (not (ok? (1 2))))
            (assert (= (count (quote ())) 0))
            (assert (= () ()))",
        "lists" => "
            (assert (= (list) ()))
            (assert (= (list 1 2) '(1 2)))
            (assert (= (count (list 1 2 3)) 3))
            (assert (= (count [1 2]) 2))
            (assert (= (count ()) 0))
            (assert (= (cons 1 (list 2 3)) (list 1 2 3)))
            (assert (= (cons 1 [2 3]) (list 1 2 3)))
            (assert (= (cons (list 1) ()) (list (list 1))))
            (assert (not (ok? (cons 1))))
            (assert (not (ok? (cons 1 2))))
            (assert (= (map inc (list 1 2 3)) (list 2 3 4)))
            (assert (= ([10 20 30] 1) 20))
            (assert (= ([10 20 30] 3) nil))
            (assert (= ([10 20 30] -1) nil))
            (assert (= ([10 20 30] 5/2) 30))
            (assert (= (type (list)) :list))
            (assert (= (type [1]) :vector))
            (assert (= (type {}) :map))
            (assert (= (type 1) :number))
            (assert (= (type \"s\") :string))
            (assert (= (type :k) :key))
            (assert (= (type 'a) :symbol))
            (assert (= (type nil) :nil))
            (assert (= (type +) :lambda))
            (assert (= (type (fn* () 1)) :lambda))
            (assert (= (type (atom 1)) :atom))
            (assert (= (type (car (boom \"a\"))) :char))
            (assert (= (count (boom \"abc\")) 3))
            (assert (= (str 1 \"a\" :b 'c) \"1a:bc\"))
            (assert (= (pr-str 1 \"a\" :b 'c) \"1 \\\"a\\\" :b c\"))
            (assert (= (str) \"\"))
            (assert (= (read-string \"(1 [2] :a)\") (list 1 [2] :a)))
            (assert (not (ok? (read-string \"(1 2\"))))",
        "atoms" => "
            (def! a (atom 1))
            (assert (= (deref a) 1))
            (assert (= (reset! a (+ (deref a) 41)) 42))
            (assert (= (deref a) 42))
            (def! b a)
            (reset! b (list 1 2))
            (assert (= (deref a) (list 1 2)))
            (def! counter (let* (c (atom 0)) (fn* () (reset! c (+ (deref c) 1)))))
            (counter)
            (counter)
            (assert (= (counter) 3))
            (assert (= (deref (atom)) nil))
            (assert (not (ok? (deref 1))))
            (assert (not (ok? (reset! a))))
            (assert (not (ok? (reset! 1 2))))",
        "car-cdr" => "
            (assert (= (car (list 1 2 3)) 1))
            (assert (= (car [4 5]) 4))
            (assert (= (car ()) nil))
            (assert (= (cdr (list 1 2 3)) (list 2 3)))
            (assert (= (cdr [1 2]) (list 2)))
            (assert (= (cdr (list 1)) ()))
            (assert (= (cdr ()) ()))
            (assert (not (ok? (car 1))))
            (assert (not (ok? (cdr \"a\"))))
            (assert (not (ok? (car))))",
        "map" => "
            (def! m {:a 1 \"b\" 2 :c (+ 1 2)})
            (assert (= (m :a) 1))
            (assert (= (m \"b\") 2))
            (assert (= (m :c) 3))
            (assert (= (m \"a\") nil))
            (assert (= (m :b) nil))
            (assert (= (({\"k\" {\"i\" 7}} \"k\") \"i\") ({\"i\" 7 \"j\" 8} \"i\")))
            (assert (not (ok? (m))))
            (assert (not (ok? (m 1))))
            (assert (= (str {:a 1}) \"{:a 1}\"))",
        "fil" => "
            (def! fil (fn* (p l)
                (if (= (count l) 0)
                    (list)
                    (if (p (car l))
                        (cons (car l) (fil p (cdr l)))
                        (fil p (cdr l))))))
            (assert (= (fil (fn* (x) (< x 3)) (list 1 5 2 7 0)) (list 1 2 0)))
            (assert (= (fil (fn* (x) nil) (list 1 2)) ()))
            (assert (= (fil (fn* (x) true) ()) ()))",
        _ => panic!("no such program"),
    }
}

fn setup() -> (Runtime, Env) {
    let mut rt = Runtime::new();
    let env = ns_init(&mut rt);
    rt.provide_var("MAL_HOME", Some("/home/user/.config/mal".to_string()));
    assert!(matches!(set_home_path(&mut rt, env), Ok(_)));
    rt.provide_file("/home/user/.config/mal/core.mal", Some(CORE.to_string()));
    assert!(matches!(load_file(&mut rt, "/home/user/.config/mal/core.mal", env), Ok(_)));
    (rt, env)
}

fn run(file: &str) {
    let (mut rt, env) = setup();
    let name = format!("tests/{}.mal", file);
    rt.provide_file(&name, Some(source(file).to_string()));
    match load_file(&mut rt, name.as_str(), env) {
        Ok(_) => {}
        Err(e) => panic!("{}", e.message()),
    }
}

#[test]
fn mal_assert() {
    run("assert")
}

#[test]
fn builtin_logic() {
    run("logic")
}

#[test]
fn builtin_equals() {
    run("equals")
}

#[test]
fn mod_builtin_equals() {
    run("equals");
}

#[test]
fn arithmetic() {
    run("arithmetic")
}

#[test]
fn fibonacci() {
    run("fibonacci")
}

#[test]
fn mod_fibonacci() {
    run("fibonacci");
}

#[test]
fn forms() {
    run("forms")
}

#[test]
fn lists() {
    run("lists")
}

#[test]
fn atoms() {
    run("atoms")
}

#[test]
fn car_cdr() {
    run("car-cdr")
}

#[test]
fn map() {
    run("map")
}

#[test]
fn fil() {
    run("fil")
}
