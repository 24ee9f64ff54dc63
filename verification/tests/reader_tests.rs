use mal::printer::pr_str;
use mal::reader::{keep, read_str, tokenize, Reader};
use mal::value::MalType;

fn reader_setup1() -> Reader {
    let mut r = Reader::new();
    r.push("()[]{} \"str\" :key sym 1 ; comment");
    r
}

#[test]
fn init() {
    let r = Reader::new();
    assert_eq!(r.tokens().len(), 0);
    assert_eq!(r.position(), 0);
}

#[test]
fn do_tokenize() {
    assert_eq!(
        tokenize("()[]{} \"str\" :key sym 1 ; comment"),
        vec!["(", ")", "[", "]", "{", "}", "\"str\"", ":key", "sym", "1"]
    );
}

#[test]
fn push() {
    let r = reader_setup1();
    let mut tokens = Vec::new();
    r.tokens().iter().for_each(|i| tokens.push(i.clone()));
    assert_eq!(
        tokens,
        vec!["(", ")", "[", "]", "{", "}", "\"str\"", ":key", "sym", "1"]
    );
}

#[test]
fn get_token() {
    let r = reader_setup1();
    assert!(matches!(r.get_token(0), Ok(i) if i == "("));
    assert!(matches!(r.get_token(9), Ok(i) if i == "1"));
    assert!(matches!(r.get_token(10), Err(e) if e.is_recoverable()));
}

#[test]
fn get() {
    let mut r = reader_setup1();
    assert!(matches!(r.peek(), Ok(i) if i == "("));
    assert_eq!(r.position(), 0);
    assert!(matches!(r.next(), Ok(i) if i == "("));
    assert_eq!(r.position(), 1);
    assert!(matches!(r.next(), Ok(i) if i == ")"));
    assert_eq!(r.position(), 2);
}

#[test]
fn clear() {
    let mut r = reader_setup1();
    r.clear();
    assert_eq!(r.tokens().len(), 0);
    assert_eq!(r.position(), 0);
}

#[test]
fn ended() {
    let mut r = reader_setup1();
    assert!(!r.ended());
    for _ in r.tokens().iter() {
        assert!(matches!(r.next(), Ok(_)))
    }
    assert!(r.ended());
}

#[test]
fn errors() {
    let mut r = Reader::new();
    assert!(matches!(r.peek(), Err(e) if e.is_recoverable()));
    assert!(matches!(r.next(), Err(e) if e.is_recoverable()));
}

#[test]
fn read_atom() {
    let mut r = Reader::new();
    r.push("nil 1 true a \"s\" :a ) ] }");
    assert!(matches!(r.read_atom(), Ok(x) if matches!(x, MalType::Nil)));
    assert!(matches!(r.read_atom(), Ok(MalType::Num(v)) if v.get_num() == 1 && v.get_den() == 1));
    assert!(matches!(r.read_atom(), Ok(x) if matches!(x, MalType::T)));
    assert!(matches!(r.read_atom(), Ok(MalType::Sym(v)) if v == "a"));
    assert!(matches!(r.read_atom(), Ok(MalType::Str(v)) if v == "s"));
    assert!(matches!(r.read_atom(), Ok(MalType::Key(v)) if v == "\u{29e}:a"));
    assert!(matches!(r.read_atom(), Err(e) if !e.is_recoverable()));
    assert_eq!(r.position(), 6);
    r.seek(7);
    assert!(matches!(r.read_atom(), Err(e) if !e.is_recoverable()));
    assert_eq!(r.position(), 7);
    r.seek(8);
    assert!(matches!(r.read_atom(), Err(e) if !e.is_recoverable()));
    assert_eq!(r.position(), 8);
    r.seek(9);
    assert!(matches!(r.read_atom(), Err(e) if e.is_recoverable()));
}

#[test]
fn empty_texts_and_comments_are_no_tokens() {
    let groups: Vec<String> = ["(", "", "; note", "a;b", ";", " ", "\"s\"", ""]
        .iter()
        .map(|s| s.to_string())
        .collect();
    assert_eq!(keep(groups), vec!["(", "a;b", " ", "\"s\""]);
    assert!(keep(Vec::new()).is_empty());
    assert!(keep(vec![String::new(), ";".to_string()]).is_empty());
    assert_eq!(tokenize(" , ,; only a comment"), Vec::<String>::new());
    assert_eq!(tokenize("a,b ~@c"), vec!["a", "b", "~@", "c"]);
}

#[test]
fn printed_forms_read_back() {
    let mut r = Reader::new();
    r.push("(1 -2/4 \"a\\nb\" :k sym [true false nil] {\"x\" 1})");
    let v = read_str(&mut r).unwrap();
    assert_eq!(pr_str(&v, true), "(1 -1/2 \"a\\nb\" :k sym [true false nil] {\"x\" 1})");
    assert_eq!(pr_str(&v, false), "(1 -1/2 a\nb :k sym [true false nil] {x 1})");
}

fn is_int(x: &MalType, y: isize) -> bool {
    matches!(x, MalType::Num(v) if v.get_num() == y && v.get_den() == 1)
}

fn entry<'a>(m: &'a Vec<(String, MalType)>, key: &str) -> Option<&'a MalType> {
    m.iter().find(|e| e.0 == key).map(|e| &e.1)
}

#[test]
fn _read_str() {
    let mut r = Reader::new();

    let expected = vec![1, 2, 12];
    r.push("(1 2 12)");
    assert!(matches!(
        read_str(&mut r), Ok(x)
        if matches!(x.clone(), MalType::List(list)
            if list.len() == expected.len()
            && list.iter().zip(expected)
                .all(|(x, y)| is_int(x, y)))));
    r.clear();

    let exp = vec![1, 2, 12];
    r.push("[1 2 12]");
    assert!(matches!(
        read_str(&mut r), Ok(x)
        if matches!(x.clone(), MalType::Vector(list)
            if list.len() == exp.len()
            && list.iter().zip(exp)
                .all(|(x, y)| is_int(x, y)))));
    r.clear();

    r.push("{\"i\" 1 \"s\" \"str\" \"t\" true \"n\" nil :s :sym}");
    let t = match read_str(&mut r) {
        Ok(x) => match x {
            MalType::Dict(x) => x.entries().clone(),
            _ => {
                assert!(false);
                Vec::new()
            }
        },
        _ => {
            assert!(false);
            Vec::new()
        }
    };
    assert!(matches!(entry(&t, "n"),   Some(x) if matches!(&x, MalType::Nil)));
    assert!(matches!(entry(&t, "t"),   Some(x) if matches!(&x, MalType::T)));
    assert!(matches!(entry(&t, "i"),   Some(x) if is_int(x, 1)));
    assert!(matches!(entry(&t, "s"),   Some(x) if matches!(&x, MalType::Str(v) if v == "str")));
    assert!(matches!(entry(&t, "\u{29e}:s"), Some(x) if matches!(&x, MalType::Key(v) if v == "\u{29e}:sym")));
}

#[test]
fn unfinished_forms_are_recoverable() {
    for text in ["(1 2", "[1 (2 3)", "{\"a\" 1", "'(a", "\"abc", "(\"ab\\\"", "'"] {
        let mut r = Reader::new();
        r.push(text);
        assert!(matches!(read_str(&mut r), Err(e) if e.is_recoverable()), "{}", text);
        assert_eq!(r.position(), 0);
    }
}

#[test]
fn finished_later_reads_whole_form() {
    let mut r = Reader::new();
    r.push("(+ 1");
    assert!(matches!(read_str(&mut r), Err(e) if e.is_recoverable()));
    r.push("(* 2 \"a");
    assert!(matches!(read_str(&mut r), Err(e) if e.is_recoverable()));
    r.push("b\"))");
    let v = read_str(&mut r).unwrap();
    assert_eq!(pr_str(&v, true), "(+ 1 (* 2 \"a\\nb\"))");
    assert!(r.ended());
}

#[test]
fn stray_and_malformed_are_unrecoverable() {
    for text in [")", "]", "}", "(1 ]", "{1 2}", "{\"a\"}", "{:a 1 :b}", "99999999999999999999999", "1/0"] {
        let mut r = Reader::new();
        r.push(text);
        assert!(matches!(read_str(&mut r), Err(e) if !e.is_recoverable()), "{}", text);
    }
}

#[test]
fn atoms_of_every_kind() {
    let mut r = Reader::new();
    r.push("-7 4/6 -3/9 abc -x 1a :kw \"a\\tb\\\\\" false, nil ; rest");
    let texts: Vec<String> = (0..10).map(|_| pr_str(&r.read_form().unwrap(), true)).collect();
    assert_eq!(texts, vec!["-7", "2/3", "-1/3", "abc", "-x", "1a", ":kw", "\"a\\tb\\\\\"", "false", "nil"]);
    assert!(r.ended());
}

#[test]
fn quote_expands() {
    let mut r = Reader::new();
    r.push("'(1 'a)");
    let v = read_str(&mut r).unwrap();
    assert_eq!(pr_str(&v, true), "(quote (1 (quote a)))");
}

#[test]
fn later_key_replaces_earlier() {
    let mut r = Reader::new();
    r.push("{:a 1 \"a\" 2 :a 3}");
    let v = read_str(&mut r).unwrap();
    assert_eq!(pr_str(&v, true), "{:a 3 \"a\" 2}");
}
