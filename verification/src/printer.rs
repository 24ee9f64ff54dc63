//! The printer: the text of a value, readable (strings quoted and escaped) or
//! plain.
use crate::frac::ratio_text;
use crate::text::{chars_of, escape_str, escape_text, string_of};
use crate::value::{entries_of, lemma_map_entries, lemma_view_list, models_of, MalType, Value};
use vstd::prelude::*;

verus! {

/// The character that marks, in front of its text, a keyword.
pub open spec fn sentinel() -> char {
    '\u{29e}'
}

/// The value that a map key stands for: a keyword when it starts with the
/// sentinel, else a string.
pub open spec fn key_value(k: Seq<char>) -> Value {
    if k.len() > 0 && k[0] == sentinel() {
        Value::Key(k)
    } else {
        Value::Str(k)
    }
}

/// A keyword's text without the sentinel in front.
pub open spec fn keyword_text(s: Seq<char>) -> Seq<char> {
    if s.len() == 0 {
        s
    } else {
        s.skip(1)
    }
}

/// The text of a map key: that of the keyword or string it stands for.
pub open spec fn print_key(k: Seq<char>, readable: bool) -> Seq<char> {
    if k.len() > 0 && k[0] == sentinel() {
        keyword_text(k)
    } else if readable {
        escape_text(k)
    } else {
        k
    }
}

/// The text of a value.
///
/// Lists print as `(e1 ... en)`, vectors as `[e1 ... en]`, maps as
/// `{k1 v1 ...}`; a keyword prints without its sentinel; a string prints
/// quoted and escaped when `readable`, else as it is.
pub open spec fn print_value(v: Value, readable: bool) -> Seq<char>
    decreases v, 0nat, 0nat,
{
    match v {
        Value::Nil => "nil"@,
        Value::T => "true"@,
        Value::F => "false"@,
        Value::Sym(s) => s,
        Value::Key(s) => keyword_text(s),
        Value::Num(r) => ratio_text(r),
        Value::Ch(c) => seq![c],
        Value::Str(s) => if readable {
            escape_text(s)
        } else {
            s
        },
        Value::List(l) => seq!['('] + print_items(l, readable, 0) + seq![')'],
        Value::Vector(l) => seq!['['] + print_items(l, readable, 0) + seq![']'],
        Value::Dict(d) => seq!['{'] + print_entries(d, readable, 0) + seq!['}'],
        Value::Fun(_) => "#<builtin>"@,
        Value::Closure { .. } => "#<function>"@,
        Value::Atom(_) => "#<atom>"@,
    }
}

/// The texts of `l[i..]`, separated by single spaces.
pub open spec fn print_items(l: Seq<Value>, readable: bool, i: int) -> Seq<char>
    decreases l, 1nat, l.len() - i,
{
    if i < 0 || i >= l.len() {
        Seq::empty()
    } else if i + 1 == l.len() {
        print_value(l[i], readable)
    } else {
        print_value(l[i], readable) + seq![' '] + print_items(l, readable, i + 1)
    }
}

/// The texts of the entries `d[i..]`, each as its key, a space and its
/// value, separated by single spaces.
pub open spec fn print_entries(d: Seq<(Seq<char>, Value)>, readable: bool, i: int) -> Seq<char>
    decreases d, 1nat, d.len() - i,
{
    if i < 0 || i >= d.len() {
        Seq::empty()
    } else if i + 1 == d.len() {
        print_key(d[i].0, readable) + seq![' '] + print_value(d[i].1, readable)
    } else {
        print_key(d[i].0, readable) + seq![' '] + print_value(d[i].1, readable)
            + seq![' '] + print_entries(d, readable, i + 1)
    }
}

/// The value that a map key stands for.
pub fn key_str(val: &str) -> (r: MalType)
    ensures
        r@ == key_value(val@),
{
    let v = chars_of(val);
    if v.len() > 0 && v[0] == '\u{29e}' {
        MalType::Key(val.to_owned())
    } else {
        MalType::Str(val.to_owned())
    }
}

/// The text of `ast`, with strings quoted and escaped when `print_readably`.
pub fn pr_str(ast: &MalType, print_readably: bool) -> (r: String)
    ensures
        r@ == print_value(ast@, print_readably),
    decreases ast,
{
    match ast {
        MalType::Nil => "nil".to_owned(),
        MalType::T => "true".to_owned(),
        MalType::F => "false".to_owned(),
        MalType::Sym(sym) => sym.clone(),
        MalType::Key(sym) => {
            let v = chars_of(sym.as_str());
            if v.len() == 0 {
                String::new()
            } else {
                string_of(&v, 1, v.len())
            }
        },
        MalType::Num(val) => val.to_text(),
        MalType::Ch(c) => {
            let mut out = String::new();
            out.push(*c);
            assert(out@ =~= seq![*c]);
            out
        },
        MalType::Str(s) => {
            if print_readably {
                escape_str(s.as_str())
            } else {
                s.clone()
            }
        },
        MalType::List(el) => {
            let mut out = String::new();
            out.push('(');
            let ghost items = models_of(el@);
            let mut i: usize = 0;
            while i < el.len()
                invariant
                    i <= el.len(),
                    items == models_of(el@),
                    ast is List && ast->List_0 == *el,
                    out@ + print_items(items, print_readably, i as int) == seq!['(']
                        + print_items(items, print_readably, 0),
                decreases el.len() - i,
            {
                assert(decreases_to!(*el => el[i as int]));
                assert(decreases_to!(*ast => ast->List_0));
                let ghost before = out@;
                let piece = pr_str(&el[i], print_readably);
                out.append(piece.as_str());
                if i + 1 < el.len() {
                    out.push(' ');
                }
                assert(out@ + print_items(items, print_readably, i + 1) =~= before + print_items(
                    items,
                    print_readably,
                    i as int,
                ));
                i += 1;
            }
            out.push(')');
            proof {
                lemma_view_list(*el);
                assert(out@ =~= print_value(ast@, print_readably));
            }
            out
        },
        MalType::Vector(el) => {
            let mut out = String::new();
            out.push('[');
            let ghost items = models_of(el@);
            let mut i: usize = 0;
            while i < el.len()
                invariant
                    i <= el.len(),
                    items == models_of(el@),
                    ast is Vector && ast->Vector_0 == *el,
                    out@ + print_items(items, print_readably, i as int) == seq!['[']
                        + print_items(items, print_readably, 0),
                decreases el.len() - i,
            {
                assert(decreases_to!(*el => el[i as int]));
                assert(decreases_to!(*ast => ast->Vector_0));
                let ghost before = out@;
                let piece = pr_str(&el[i], print_readably);
                out.append(piece.as_str());
                if i + 1 < el.len() {
                    out.push(' ');
                }
                assert(out@ + print_items(items, print_readably, i + 1) =~= before + print_items(
                    items,
                    print_readably,
                    i as int,
                ));
                i += 1;
            }
            out.push(']');
            proof {
                lemma_view_list(*el);
                assert(out@ =~= print_value(ast@, print_readably));
            }
            out
        },
        MalType::Dict(map) => {
            let el = &map.entries;
            let mut out = String::new();
            out.push('{');
            let ghost items = entries_of(el@);
            let mut i: usize = 0;
            while i < el.len()
                invariant
                    i <= el.len(),
                    items == entries_of(el@),
                    ast is Dict && ast->Dict_0 == *map,
                    *el == map.entries,
                    out@ + print_entries(items, print_readably, i as int) == seq!['{']
                        + print_entries(items, print_readably, 0),
                decreases el.len() - i,
            {
                assert(decreases_to!(*el => el[i as int]));
                assert(decreases_to!(*map => map.entries));
                assert(decreases_to!(*ast => ast->Dict_0));
                let ghost before = out@;
                let key = key_str(el[i].0.as_str());
                let key_text = pr_str_flat(&key, print_readably);
                let piece = pr_str(&el[i].1, print_readably);
                out.append(key_text.as_str());
                out.push(' ');
                out.append(piece.as_str());
                if i + 1 < el.len() {
                    out.push(' ');
                }
                assert(out@ + print_entries(items, print_readably, i + 1) =~= before
                    + print_entries(items, print_readably, i as int));
                i += 1;
            }
            out.push('}');
            proof {
                lemma_map_entries(*map);
                assert(out@ =~= print_value(ast@, print_readably));
            }
            out
        },
        MalType::Fun(_) => "#<builtin>".to_owned(),
        MalType::MalFun { .. } => "#<function>".to_owned(),
        MalType::Atom(_) => "#<atom>".to_owned(),
    }
}

/// The text of a keyword or a string.
fn pr_str_flat(key: &MalType, print_readably: bool) -> (r: String)
    requires
        key is Key || key is Str,
    ensures
        r@ == print_value(key@, print_readably),
{
    match key {
        MalType::Key(sym) => {
            let v = chars_of(sym.as_str());
            if v.len() == 0 {
                String::new()
            } else {
                string_of(&v, 1, v.len())
            }
        },
        MalType::Str(s) => {
            if print_readably {
                escape_str(s.as_str())
            } else {
                s.clone()
            }
        },
        _ => String::new(),
    }
}

/// The readable text of `ast`.
pub fn prt(ast: &MalType) -> (r: String)
    ensures
        r@ == print_value(ast@, true),
{
    pr_str(ast, true)
}

} // verus!
