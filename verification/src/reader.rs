//! The reader: text to tokens, tokens to values.
//!
//! A `Reader` keeps the text it was given, the tokens of that text and a
//! cursor. Reading an unfinished form fails with a recoverable error and
//! leaves the cursor where it was, so that more text can be pushed and the
//! form read again.
use crate::frac::{number_shaped, parse_number, Frac};
use crate::printer::sentinel;
use crate::text::{chars_of, same_text, unescape_str, unescape_text};
use crate::types::{MalErr, Severity};
use crate::value::{lemma_view_list, make_map, map_of, models_of, MalRet, MalType, Value};
use regex::Regex;
use vstd::prelude::*;

verus! {

/// What `Regex::captures_iter` finds: for a pattern that compiles, the text
/// of the first group of each successive match in `input` (empty where the
/// group took no part), and `None` for a pattern that does not compile.
pub uninterp spec fn regex_groups(pattern: Seq<char>, input: Seq<char>) -> Option<Seq<Seq<char>>>;

/// The texts of a vector of strings.
pub open spec fn texts_of(v: Seq<String>) -> Seq<Seq<char>> {
    Seq::new(v.len(), |i: int| v[i]@)
}

/// Compiles `pattern` with `Regex::new` and collects, with
/// `Regex::captures_iter`, the first group of every match in `input`.
/// The contract only names the result.
#[verifier::external_body]
fn first_groups(pattern: &str, input: &str) -> (r: Option<Vec<String>>)
    ensures
        match r {
            Some(v) => regex_groups(pattern@, input@) == Some(texts_of(v@)),
            None => regex_groups(pattern@, input@) is None,
        },
{
    match Regex::new(pattern) {
        Ok(re) => Some(
            re.captures_iter(input).map(
                |c| c.get(1).map_or(String::new(), |m| m.as_str().to_owned()),
            ).collect(),
        ),
        Err(_) => None,
    }
}

/// The pattern of one token, after any run of whitespace and commas: `~@`,
/// a single special character, a string literal (closed or not), a comment
/// to the end of the line, or a run of ordinary characters.
pub open spec fn token_grammar() -> Seq<char> {
    "[\\s,]*(~@|[\\[\\]{}()'`~^@]|\"(?:\\\\.|[^\\\\\"])*\"?|;.*|[^\\s\\[\\]{}('\"`,;)]*)"@
}

/// Whether a matched text counts as a token: it is not empty and is no
/// comment.
pub open spec fn is_token(t: Seq<char>) -> bool {
    t.len() > 0 && t[0] != ';'
}

/// The tokens among the first `n` matched texts, in order.
pub open spec fn keep_tokens(g: Seq<Seq<char>>, n: nat) -> Seq<Seq<char>>
    decreases n,
{
    if n == 0 {
        Seq::empty()
    } else if is_token(g[n - 1]) {
        keep_tokens(g, (n - 1) as nat).push(g[n - 1])
    } else {
        keep_tokens(g, (n - 1) as nat)
    }
}

/// The tokens of a text.
pub open spec fn tokens_of(input: Seq<char>) -> Seq<Seq<char>> {
    match regex_groups(token_grammar(), input) {
        Some(g) => keep_tokens(g, g.len()),
        None => Seq::empty(),
    }
}

/// Every token is non-empty and none is a comment.
pub proof fn lemma_tokens_are_tokens(g: Seq<Seq<char>>, n: nat)
    ensures
        forall|i: int| 0 <= i < keep_tokens(g, n).len() ==> is_token(#[trigger] keep_tokens(g, n)[i]),
    decreases n,
{
    if n > 0 {
        lemma_tokens_are_tokens(g, (n - 1) as nat);
        let k = keep_tokens(g, n);
        let shorter = keep_tokens(g, (n - 1) as nat);
        assert forall|i: int| 0 <= i < k.len() implies is_token(#[trigger] k[i]) by {
            if i < shorter.len() {
                assert(k[i] == shorter[i]);
            }
        }
    }
}

/// The tokens among matched texts: those that are neither empty nor a
/// comment, in their order.
pub fn keep(groups: Vec<String>) -> (r: Vec<String>)
    ensures
        texts_of(r@) == keep_tokens(texts_of(groups@), groups@.len()),
        forall|i: int| 0 <= i < r@.len() ==> is_token(#[trigger] r@[i]@),
{
    let ghost g = texts_of(groups@);
    let mut out: Vec<String> = Vec::new();
    assert(texts_of(out@) =~= keep_tokens(g, 0));
    let mut i: usize = 0;
    while i < groups.len()
        invariant
            i <= groups.len(),
            g == texts_of(groups@),
            texts_of(out@) == keep_tokens(g, i as nat),
        decreases groups.len() - i,
    {
        let v = chars_of(groups[i].as_str());
        assert(g[i as int] == groups@[i as int]@);
        if v.len() > 0 && v[0] != ';' {
            let ghost before = texts_of(out@);
            out.push(groups[i].clone());
            assert(texts_of(out@) =~= before.push(g[i as int]));
        }
        i += 1;
    }
    proof {
        lemma_tokens_are_tokens(g, g.len());
    }
    assert forall|i: int| 0 <= i < out@.len() implies is_token(#[trigger] out@[i]@) by {
        assert(texts_of(out@)[i] == out@[i]@);
    }
    out
}

/// Splits a text into tokens; whitespace, commas and comments are dropped.
pub fn tokenize(input: &str) -> (r: Vec<String>)
    ensures
        texts_of(r@) == tokens_of(input@),
        forall|i: int| 0 <= i < r@.len() ==> is_token(#[trigger] r@[i]@),
{
    match first_groups(
        "[\\s,]*(~@|[\\[\\]{}()'`~^@]|\"(?:\\\\.|[^\\\\\"])*\"?|;.*|[^\\s\\[\\]{}('\"`,;)]*)",
        input,
    ) {
        Some(groups) => keep(groups),
        None => {
            let out: Vec<String> = Vec::new();
            assert(texts_of(out@) =~= Seq::empty());
            out
        },
    }
}

/// How the scan of a string token ends.
pub enum Quoted {
    /// The closing quote is the last character.
    Closed,
    /// The token ends before a closing quote.
    Open,
    /// A closing quote stands before the end.
    Broken,
}

/// Scans a string token from index `i`, an escape taking two characters.
pub open spec fn scan_string(tk: Seq<char>, i: int) -> Quoted
    decreases tk.len() - i,
{
    if i < 1 || i >= tk.len() {
        Quoted::Open
    } else if tk[i] == '"' {
        if i + 1 == tk.len() {
            Quoted::Closed
        } else {
            Quoted::Broken
        }
    } else if tk[i] == '\\' {
        if i + 1 < tk.len() {
            scan_string(tk, i + 2)
        } else {
            Quoted::Open
        }
    } else {
        scan_string(tk, i + 1)
    }
}

/// Whether the token is one closing delimiter.
pub open spec fn is_closer(tk: Seq<char>) -> bool {
    tk == seq![')'] || tk == seq![']'] || tk == seq!['}']
}

/// The value that an atomic token denotes, or how reading it fails.
///
/// A closing delimiter is an unrecoverable error; a number that does not
/// fit, or a string with a quote in its middle, too; a string that is not
/// closed is a recoverable one.
pub open spec fn atom_of(tk: Seq<char>) -> Result<Value, Severity> {
    if is_closer(tk) {
        Err(Severity::Unrecoverable)
    } else if tk == "false"@ {
        Ok(Value::F)
    } else if tk == "true"@ {
        Ok(Value::T)
    } else if tk == "nil"@ {
        Ok(Value::Nil)
    } else if number_shaped(tk) {
        match parse_number(tk) {
            Some(r) => Ok(Value::Num(r)),
            None => Err(Severity::Unrecoverable),
        }
    } else if tk.len() > 0 && tk[0] == '"' {
        match scan_string(tk, 1) {
            Quoted::Closed => Ok(Value::Str(unescape_text(tk))),
            Quoted::Open => Err(Severity::Recoverable),
            Quoted::Broken => Err(Severity::Unrecoverable),
        }
    } else if tk.len() > 0 && tk[0] == ':' {
        Ok(Value::Key(seq![sentinel()] + tk))
    } else {
        Ok(Value::Sym(tk))
    }
}

/// The outcome of reading one form.
pub enum Parse {
    Done { value: Value, next: int },
    Fail(Severity),
}

/// The outcome of reading the elements of a collection.
pub enum ParseSeq {
    Done { items: Seq<Value>, next: int },
    Fail(Severity),
}

/// The form that starts at token `pos`, and the position after it.
///
/// Running out of tokens is a recoverable failure.
pub open spec fn parse_form(tokens: Seq<Seq<char>>, pos: int) -> Parse
    decreases tokens.len() - pos, 0nat,
{
    if pos < 0 || pos >= tokens.len() {
        Parse::Fail(Severity::Recoverable)
    } else if tokens[pos] == seq!['('] {
        match parse_items(tokens, pos + 1, ')') {
            ParseSeq::Done { items, next } => Parse::Done { value: Value::List(items), next },
            ParseSeq::Fail(s) => Parse::Fail(s),
        }
    } else if tokens[pos] == seq!['['] {
        match parse_items(tokens, pos + 1, ']') {
            ParseSeq::Done { items, next } => Parse::Done { value: Value::Vector(items), next },
            ParseSeq::Fail(s) => Parse::Fail(s),
        }
    } else if tokens[pos] == seq!['{'] {
        match parse_items(tokens, pos + 1, '}') {
            ParseSeq::Done { items, next } => match map_of(items) {
                Some(m) => Parse::Done { value: m, next },
                None => Parse::Fail(Severity::Unrecoverable),
            },
            ParseSeq::Fail(s) => Parse::Fail(s),
        }
    } else if tokens[pos] == seq!['\''] {
        match parse_form(tokens, pos + 1) {
            Parse::Done { value, next } => Parse::Done {
                value: Value::List(seq![Value::Sym("quote"@), value]),
                next,
            },
            Parse::Fail(s) => Parse::Fail(s),
        }
    } else {
        match atom_of(tokens[pos]) {
            Ok(value) => Parse::Done { value, next: pos + 1 },
            Err(s) => Parse::Fail(s),
        }
    }
}

/// The forms from token `pos` up to the closing delimiter `close`, and the
/// position after that delimiter.
pub open spec fn parse_items(tokens: Seq<Seq<char>>, pos: int, close: char) -> ParseSeq
    decreases tokens.len() - pos, 1nat,
{
    if pos < 0 || pos >= tokens.len() {
        ParseSeq::Fail(Severity::Recoverable)
    } else if tokens[pos] == seq![close] {
        ParseSeq::Done { items: Seq::empty(), next: pos + 1 }
    } else {
        match parse_form(tokens, pos) {
            Parse::Fail(s) => ParseSeq::Fail(s),
            Parse::Done { value, next } => if !(pos < next <= tokens.len()) {
                ParseSeq::Fail(Severity::Unrecoverable)
            } else {
                match parse_items(tokens, next, close) {
                    ParseSeq::Done { items, next: after } => ParseSeq::Done {
                        items: seq![value] + items,
                        next: after,
                    },
                    ParseSeq::Fail(s) => ParseSeq::Fail(s),
                }
            },
        }
    }
}

/// The elements of a collection that is read end within the tokens.
pub proof fn lemma_parse_items_advances(tokens: Seq<Seq<char>>, pos: int, close: char)
    ensures
        parse_items(tokens, pos, close) matches ParseSeq::Done { next, .. } ==> 0 <= pos < next
            <= tokens.len(),
    decreases tokens.len() - pos, 1nat,
{
    if 0 <= pos < tokens.len() && tokens[pos] != seq![close] {
        lemma_parse_form_advances(tokens, pos);
        match parse_form(tokens, pos) {
            Parse::Done { value, next } => {
                if pos < next <= tokens.len() {
                    lemma_parse_items_advances(tokens, next, close);
                }
            },
            _ => {},
        }
    }
}

/// A form that is read takes at least one token and ends within the tokens.
pub proof fn lemma_parse_form_advances(tokens: Seq<Seq<char>>, pos: int)
    ensures
        parse_form(tokens, pos) matches Parse::Done { next, .. } ==> 0 <= pos < next
            <= tokens.len(),
    decreases tokens.len() - pos, 0nat,
{
    if 0 <= pos < tokens.len() {
        if tokens[pos] == seq!['('] {
            lemma_parse_items_advances(tokens, pos + 1, ')');
        } else if tokens[pos] == seq!['['] {
            lemma_parse_items_advances(tokens, pos + 1, ']');
        } else if tokens[pos] == seq!['{'] {
            lemma_parse_items_advances(tokens, pos + 1, '}');
        } else if tokens[pos] == seq!['\''] {
            lemma_parse_form_advances(tokens, pos + 1);
        }
    }
}

/// The last form read when every form from `pos` on is read in turn; `last`
/// when there is none.
pub open spec fn parse_all(tokens: Seq<Seq<char>>, pos: int, last: Value) -> Result<
    Value,
    Severity,
>
    decreases tokens.len() - pos,
{
    if pos < 0 || pos >= tokens.len() {
        Ok(last)
    } else {
        match parse_form(tokens, pos) {
            Parse::Fail(s) => Err(s),
            Parse::Done { value, next } => if !(pos < next <= tokens.len()) {
                Err(Severity::Unrecoverable)
            } else {
                parse_all(tokens, next, value)
            },
        }
    }
}

/// Where reading every form from `pos` on stops: at the end of the tokens,
/// or at the start of the first form that cannot be read.
pub open spec fn parse_stop(tokens: Seq<Seq<char>>, pos: int) -> int
    decreases tokens.len() - pos,
{
    if pos < 0 || pos >= tokens.len() {
        pos
    } else {
        match parse_form(tokens, pos) {
            Parse::Fail(_) => pos,
            Parse::Done { value, next } => if !(pos < next <= tokens.len()) {
                pos
            } else {
                parse_stop(tokens, next)
            },
        }
    }
}

/// `front` put before the elements that were read.
pub open spec fn with_front(front: Seq<Value>, r: ParseSeq) -> ParseSeq {
    match r {
        ParseSeq::Done { items, next } => ParseSeq::Done { items: front + items, next },
        ParseSeq::Fail(s) => ParseSeq::Fail(s),
    }
}

/// Whether `tk` is the single character `c`.
fn is_char(tk: &str, c: char) -> (b: bool)
    ensures
        b == (tk@ == seq![c]),
{
    let v = chars_of(tk);
    if v.len() == 1 && v[0] == c {
        assert(v@ =~= seq![c]);
        true
    } else {
        assert(seq![c].len() == 1 && seq![c][0] == c);
        false
    }
}

fn scan_quoted(v: &Vec<char>) -> (q: Quoted)
    ensures
        q == scan_string(v@, 1),
{
    let mut i: usize = 1;
    while i < v.len()
        invariant
            1 <= i,
            scan_string(v@, 1) == scan_string(v@, i as int),
        decreases v.len() - i,
    {
        if v[i] == '"' {
            if i + 1 == v.len() {
                return Quoted::Closed;
            } else {
                return Quoted::Broken;
            }
        } else if v[i] == '\\' {
            if i + 1 < v.len() {
                i += 2;
            } else {
                return Quoted::Open;
            }
        } else {
            i += 1;
        }
    }
    Quoted::Open
}

/// Reads one atomic token.
pub fn read_token(tk: &str) -> (r: MalRet)
    ensures
        match r {
            Ok(v) => atom_of(tk@) == Ok::<Value, Severity>(v@),
            Err(e) => atom_of(tk@) == Err::<Value, Severity>(e.level()),
        },
{
    if is_char(tk, ')') || is_char(tk, ']') || is_char(tk, '}') {
        return Err(MalErr::unrecoverable("Missing open parenthesis"));
    }
    if same_text(tk, "false") {
        return Ok(MalType::F);
    }
    if same_text(tk, "true") {
        return Ok(MalType::T);
    }
    if same_text(tk, "nil") {
        return Ok(MalType::Nil);
    }
    if Frac::is_shaped(tk) {
        return match Frac::from_str(tk) {
            Some(f) => Ok(MalType::Num(f)),
            None => Err(MalErr::unrecoverable("Number out of range")),
        };
    }
    let v = chars_of(tk);
    if v.len() > 0 && v[0] == '"' {
        return match scan_quoted(&v) {
            Quoted::Closed => Ok(MalType::Str(unescape_str(tk))),
            Quoted::Open => Err(MalErr::recoverable("End of input reached without closing string")),
            Quoted::Broken => Err(MalErr::unrecoverable("Characters after the end of a string")),
        };
    }
    if v.len() > 0 && v[0] == ':' {
        let mut k = String::new();
        k.push('\u{29e}');
        k.append(tk);
        assert(k@ =~= seq![sentinel()] + tk@);
        return Ok(MalType::Key(k));
    }
    Ok(MalType::Sym(tk.to_owned()))
}

/// Reads the form that starts at token `pos`; gives it with the position
/// after it.
pub fn read_form_at(tokens: &Vec<String>, pos: usize) -> (r: Result<(MalType, usize), MalErr>)
    ensures
        match r {
            Ok(p) => parse_form(texts_of(tokens@), pos as int) == (Parse::Done {
                value: p.0@,
                next: p.1 as int,
            }) && pos < p.1 <= tokens.len(),
            Err(e) => parse_form(texts_of(tokens@), pos as int) == Parse::Fail(e.level()),
        },
    decreases tokens.len() - pos, 0nat,
{
    if pos >= tokens.len() {
        return Err(MalErr::recoverable("Unexpected EOF"));
    }
    let tk = tokens[pos].as_str();
    assert(texts_of(tokens@)[pos as int] == tk@);
    proof {
        lemma_parse_form_advances(texts_of(tokens@), pos as int);
    }
    if is_char(tk, '(') {
        match read_list_at(tokens, pos + 1, ')') {
            Ok((items, next)) => {
                proof {
                    lemma_view_list(items);
                }
                Ok((MalType::List(items), next))
            },
            Err(e) => Err(e),
        }
    } else if is_char(tk, '[') {
        match read_list_at(tokens, pos + 1, ']') {
            Ok((items, next)) => {
                proof {
                    lemma_view_list(items);
                }
                Ok((MalType::Vector(items), next))
            },
            Err(e) => Err(e),
        }
    } else if is_char(tk, '{') {
        match read_list_at(tokens, pos + 1, '}') {
            Ok((items, next)) => match make_map(items) {
                Ok(m) => Ok((m, next)),
                Err(e) => Err(e),
            },
            Err(e) => Err(e),
        }
    } else if is_char(tk, '\'') {
        match read_form_at(tokens, pos + 1) {
            Ok((value, next)) => {
                let mut items: Vec<MalType> = Vec::new();
                items.push(MalType::Sym("quote".to_owned()));
                items.push(value);
                proof {
                    lemma_view_list(items);
                    assert(models_of(items@) =~= seq![Value::Sym("quote"@), value@]);
                }
                Ok((MalType::List(items), next))
            },
            Err(e) => Err(e),
        }
    } else {
        match read_token(tk) {
            Ok(v) => Ok((v, pos + 1)),
            Err(e) => Err(e),
        }
    }
}

/// Reads forms from token `pos` up to the closing delimiter `close`; gives
/// them with the position after the delimiter.
pub fn read_list_at(tokens: &Vec<String>, pos: usize, close: char) -> (r: Result<
    (Vec<MalType>, usize),
    MalErr,
>)
    ensures
        match r {
            Ok(p) => parse_items(texts_of(tokens@), pos as int, close) == (ParseSeq::Done {
                items: models_of(p.0@),
                next: p.1 as int,
            }) && pos < p.1 <= tokens.len(),
            Err(e) => parse_items(texts_of(tokens@), pos as int, close) == ParseSeq::Fail(
                e.level(),
            ),
        },
    decreases tokens.len() - pos, 1nat,
{
    let ghost texts = texts_of(tokens@);
    let mut out: Vec<MalType> = Vec::new();
    let mut cur: usize = pos;
    assert(Seq::<Value>::empty() + models_of(out@) =~= models_of(out@));
    assert(with_front(models_of(out@), parse_items(texts, cur as int, close)) == parse_items(
        texts,
        pos as int,
        close,
    )) by {
        match parse_items(texts, cur as int, close) {
            ParseSeq::Done { items, next } => {
                assert(models_of(out@) + items =~= items);
            },
            _ => {},
        }
    }
    while cur < tokens.len()
        invariant
            pos <= cur,
            texts == texts_of(tokens@),
            with_front(models_of(out@), parse_items(texts, cur as int, close)) == parse_items(
                texts,
                pos as int,
                close,
            ),
        decreases tokens.len() - cur,
    {
        assert(texts[cur as int] == tokens@[cur as int]@);
        if is_char(tokens[cur].as_str(), close) {
            assert(models_of(out@) + Seq::<Value>::empty() =~= models_of(out@));
            return Ok((out, cur + 1));
        }
        match read_form_at(tokens, cur) {
            Err(e) => {
                return Err(e);
            },
            Ok((v, next)) => {
                let ghost before = models_of(out@);
                out.push(v);
                proof {
                    assert(models_of(out@) =~= before.push(v@));
                    match parse_items(texts, next as int, close) {
                        ParseSeq::Done { items, next: after } => {
                            assert(before + (seq![v@] + items) =~= before.push(v@) + items);
                        },
                        _ => {},
                    }
                }
                cur = next;
            },
        }
    }
    Err(MalErr::recoverable("Unexpected EOF"))
}

/// What a `Reader` holds.
pub struct ReaderView {
    /// The text pushed so far, each push followed by a line break.
    pub buffer: Seq<char>,
    /// The tokens of that text.
    pub tokens: Seq<Seq<char>>,
    /// The index of the next token to read.
    pub pos: int,
}

/// A buffer of text, its tokens, and a cursor among them.
pub struct Reader {
    buffer: String,
    tokens: Vec<String>,
    ptr: usize,
}

impl View for Reader {
    type V = ReaderView;

    closed spec fn view(&self) -> ReaderView {
        ReaderView { buffer: self.buffer@, tokens: texts_of(self.tokens@), pos: self.ptr as int }
    }
}

/// The collection that `read_list` builds for a closing delimiter.
pub open spec fn parse_collection(tokens: Seq<Seq<char>>, pos: int, terminator: Seq<char>) -> Parse {
    if terminator == seq![')'] {
        match parse_items(tokens, pos + 1, ')') {
            ParseSeq::Done { items, next } => Parse::Done { value: Value::List(items), next },
            ParseSeq::Fail(s) => Parse::Fail(s),
        }
    } else if terminator == seq![']'] {
        match parse_items(tokens, pos + 1, ']') {
            ParseSeq::Done { items, next } => Parse::Done { value: Value::Vector(items), next },
            ParseSeq::Fail(s) => Parse::Fail(s),
        }
    } else if terminator == seq!['}'] {
        match parse_items(tokens, pos + 1, '}') {
            ParseSeq::Done { items, next } => match map_of(items) {
                Some(m) => Parse::Done { value: m, next },
                None => Parse::Fail(Severity::Unrecoverable),
            },
            ParseSeq::Fail(s) => Parse::Fail(s),
        }
    } else {
        Parse::Fail(Severity::Unrecoverable)
    }
}

/// The atom at token `pos`.
pub open spec fn parse_atom(tokens: Seq<Seq<char>>, pos: int) -> Parse {
    if pos < 0 || pos >= tokens.len() {
        Parse::Fail(Severity::Recoverable)
    } else {
        match atom_of(tokens[pos]) {
            Ok(value) => Parse::Done { value, next: pos + 1 },
            Err(s) => Parse::Fail(s),
        }
    }
}

impl Reader {
    /// An empty reader.
    pub fn new() -> (r: Reader)
        ensures
            r@ == (ReaderView { buffer: Seq::empty(), tokens: Seq::empty(), pos: 0 }),
    {
        let r = Reader { buffer: String::new(), tokens: Vec::new(), ptr: 0 };
        assert(texts_of(r.tokens@) =~= Seq::empty());
        r
    }

    /// Appends `input` and a line break to the text, splits the whole text
    /// into tokens again and moves the cursor to the first token.
    pub fn push(&mut self, input: &str)
        ensures
            final(self)@.buffer == old(self)@.buffer + input@ + seq!['\n'],
            final(self)@.tokens == tokens_of(final(self)@.buffer),
            final(self)@.pos == 0,
    {
        self.buffer.append(input);
        self.buffer.push('\n');
        self.tokens = tokenize(self.buffer.as_str());
        self.ptr = 0;
        assert(self.buffer@ =~= old(self).buffer@ + input@ + seq!['\n']);
    }

    /// Forgets the text and the tokens.
    pub fn clear(&mut self)
        ensures
            final(self)@ == (ReaderView { buffer: Seq::empty(), tokens: Seq::empty(), pos: 0 }),
    {
        self.buffer = String::new();
        self.tokens = Vec::new();
        self.ptr = 0;
        assert(texts_of(self.tokens@) =~= Seq::empty());
    }

    /// A copy of the tokens.
    pub fn tokens(&self) -> (r: Vec<String>)
        ensures
            texts_of(r@) == self@.tokens,
    {
        let mut out: Vec<String> = Vec::new();
        let mut i: usize = 0;
        while i < self.tokens.len()
            invariant
                i <= self.tokens.len(),
                out@.len() == i,
                forall|j: int| 0 <= j < i ==> out@[j]@ == self.tokens@[j]@,
            decreases self.tokens.len() - i,
        {
            out.push(self.tokens[i].clone());
            i += 1;
        }
        assert(texts_of(out@) =~= texts_of(self.tokens@));
        out
    }

    /// The index of the next token to read.
    pub fn position(&self) -> (p: usize)
        ensures
            p == self@.pos,
    {
        self.ptr
    }

    /// Moves the cursor to the token at index `pos`.
    pub fn seek(&mut self, pos: usize)
        ensures
            final(self)@ == (ReaderView { pos: pos as int, ..old(self)@ }),
    {
        self.ptr = pos;
    }

    /// The token at index `i`; past the last token, a recoverable error.
    pub fn get_token(&self, i: usize) -> (r: Result<String, MalErr>)
        ensures
            match r {
                Ok(t) => i < self@.tokens.len() && t@ == self@.tokens[i as int],
                Err(e) => i >= self@.tokens.len() && e.level() == Severity::Recoverable,
            },
    {
        if i < self.tokens.len() {
            Ok(self.tokens[i].clone())
        } else {
            Err(MalErr::recoverable("Unexpected EOF"))
        }
    }

    /// The token under the cursor.
    pub fn peek(&self) -> (r: Result<String, MalErr>)
        ensures
            match r {
                Ok(t) => 0 <= self@.pos < self@.tokens.len() && t@ == self@.tokens[self@.pos],
                Err(e) => self@.pos >= self@.tokens.len() && e.level() == Severity::Recoverable,
            },
    {
        self.get_token(self.ptr)
    }

    /// The token under the cursor; the cursor moves past it. At the end the
    /// cursor stays and the error is recoverable.
    pub fn next(&mut self) -> (r: Result<String, MalErr>)
        ensures
            final(self)@.buffer == old(self)@.buffer,
            final(self)@.tokens == old(self)@.tokens,
            match r {
                Ok(t) => 0 <= old(self)@.pos < old(self)@.tokens.len() && t@ == old(
                    self,
                )@.tokens[old(self)@.pos] && final(self)@.pos == old(self)@.pos + 1,
                Err(e) => old(self)@.pos >= old(self)@.tokens.len() && e.level()
                    == Severity::Recoverable && final(self)@.pos == old(self)@.pos,
            },
    {
        if self.ptr < self.tokens.len() {
            let t = self.tokens[self.ptr].clone();
            self.ptr = self.ptr + 1;
            Ok(t)
        } else {
            Err(MalErr::recoverable("Unexpected EOF"))
        }
    }

    /// Whether every token has been read.
    pub fn ended(&self) -> (b: bool)
        ensures
            b == (self@.pos >= self@.tokens.len()),
    {
        self.ptr >= self.tokens.len()
    }

    /// Reads the collection that is opened by the token under the cursor
    /// and closed by `terminator`. The cursor moves past it, or stays on
    /// failure.
    pub fn read_list(&mut self, terminator: &str) -> (r: MalRet)
        ensures
            final(self)@.buffer == old(self)@.buffer,
            final(self)@.tokens == old(self)@.tokens,
            match r {
                Ok(v) => parse_collection(old(self)@.tokens, old(self)@.pos, terminator@) == (
                Parse::Done { value: v@, next: final(self)@.pos }),
                Err(e) => parse_collection(old(self)@.tokens, old(self)@.pos, terminator@)
                    == Parse::Fail(e.level()) && final(self)@.pos == old(self)@.pos,
            },
    {
        if self.ptr >= self.tokens.len() {
            let e = MalErr::recoverable("Unexpected EOF");
            if !(is_char(terminator, ')') || is_char(terminator, ']') || is_char(terminator, '}')) {
                return Err(e.severe());
            }
            return Err(e);
        }
        if is_char(terminator, ')') {
            match read_list_at(&self.tokens, self.ptr + 1, ')') {
                Ok((items, next)) => {
                    proof {
                        lemma_view_list(items);
                    }
                    self.ptr = next;
                    Ok(MalType::List(items))
                },
                Err(e) => Err(e),
            }
        } else if is_char(terminator, ']') {
            match read_list_at(&self.tokens, self.ptr + 1, ']') {
                Ok((items, next)) => {
                    proof {
                        lemma_view_list(items);
                    }
                    self.ptr = next;
                    Ok(MalType::Vector(items))
                },
                Err(e) => Err(e),
            }
        } else if is_char(terminator, '}') {
            match read_list_at(&self.tokens, self.ptr + 1, '}') {
                Ok((items, next)) => match make_map(items) {
                    Ok(m) => {
                        self.ptr = next;
                        Ok(m)
                    },
                    Err(e) => Err(e),
                },
                Err(e) => Err(e),
            }
        } else {
            Err(MalErr::unrecoverable("Unknown collection terminator"))
        }
    }

    /// Reads the token under the cursor as an atom. The cursor moves past
    /// it, or stays on failure.
    pub fn read_atom(&mut self) -> (r: MalRet)
        ensures
            final(self)@.buffer == old(self)@.buffer,
            final(self)@.tokens == old(self)@.tokens,
            match r {
                Ok(v) => parse_atom(old(self)@.tokens, old(self)@.pos) == (Parse::Done {
                    value: v@,
                    next: final(self)@.pos,
                }),
                Err(e) => parse_atom(old(self)@.tokens, old(self)@.pos) == Parse::Fail(e.level())
                    && final(self)@.pos == old(self)@.pos,
            },
    {
        if self.ptr >= self.tokens.len() {
            return Err(MalErr::recoverable("Unexpected EOF"));
        }
        assert(texts_of(self.tokens@)[self.ptr as int] == self.tokens@[self.ptr as int]@);
        match read_token(self.tokens[self.ptr].as_str()) {
            Ok(v) => {
                self.ptr = self.ptr + 1;
                Ok(v)
            },
            Err(e) => Err(e),
        }
    }

    /// Reads the form under the cursor. The cursor moves past it, or stays
    /// on failure.
    pub fn read_form(&mut self) -> (r: MalRet)
        ensures
            final(self)@.buffer == old(self)@.buffer,
            final(self)@.tokens == old(self)@.tokens,
            match r {
                Ok(v) => parse_form(old(self)@.tokens, old(self)@.pos) == (Parse::Done {
                    value: v@,
                    next: final(self)@.pos,
                }),
                Err(e) => parse_form(old(self)@.tokens, old(self)@.pos) == Parse::Fail(e.level())
                    && final(self)@.pos == old(self)@.pos,
            },
    {
        match read_form_at(&self.tokens, self.ptr) {
            Ok((v, next)) => {
                self.ptr = next;
                Ok(v)
            },
            Err(e) => Err(e),
        }
    }
}

/// Reads every form from the cursor on and gives the last one (nil when
/// there is none). On failure the cursor stays at the form that failed.
pub fn read_str(reader: &mut Reader) -> (r: MalRet)
    ensures
        final(reader)@.buffer == old(reader)@.buffer,
        final(reader)@.tokens == old(reader)@.tokens,
        final(reader)@.pos == parse_stop(old(reader)@.tokens, old(reader)@.pos),
        match r {
            Ok(v) => parse_all(old(reader)@.tokens, old(reader)@.pos, Value::Nil) == Ok::<
                Value,
                Severity,
            >(v@),
            Err(e) => parse_all(old(reader)@.tokens, old(reader)@.pos, Value::Nil) == Err::<
                Value,
                Severity,
            >(e.level()),
        },
{
    let mut ret = MalType::Nil;
    while !reader.ended()
        invariant
            reader@.buffer == old(reader)@.buffer,
            reader@.tokens == old(reader)@.tokens,
            0 <= reader@.pos,
            parse_all(reader@.tokens, reader@.pos, ret@) == parse_all(
                old(reader)@.tokens,
                old(reader)@.pos,
                Value::Nil,
            ),
            parse_stop(reader@.tokens, reader@.pos) == parse_stop(
                old(reader)@.tokens,
                old(reader)@.pos,
            ),
        decreases reader@.tokens.len() - reader@.pos,
    {
        proof {
            lemma_parse_form_advances(reader@.tokens, reader@.pos);
        }
        match reader.read_form() {
            Ok(v) => {
                ret = v;
            },
            Err(e) => {
                return Err(e);
            },
        }
    }
    Ok(ret)
}

} // verus!
