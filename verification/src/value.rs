//! The value model: every datum the interpreter reads, evaluates or prints.
use crate::frac::{ArithOp, Frac, Ratio, Relation};
use crate::printer::prt;
use crate::text::same_text;
use crate::types::{MalErr, Severity};
use vstd::prelude::*;

verus! {

/// A handle to an environment frame of a `Runtime`.
pub type Env = usize;

pub type MalArgs = Vec<MalType>;

/// Keys with their values, in insertion order.
pub type Entries = Vec<(String, MalType)>;

/// The entries of a map value, in insertion order, each key once.
#[derive(Debug)]
pub struct MalMap {
    pub(crate) entries: Entries,
}

pub type MalRet = Result<MalType, MalErr>;

/// The functions that the host language provides.
#[derive(Clone, Copy, Debug, PartialEq, Eq, Structural)]
pub enum Builtin {
    Arith(ArithOp),
    Order(Relation),
    Equal,
    List,
    Count,
    Car,
    Cdr,
    Cons,
    Type,
    Num,
    Den,
    Floor,
    PrStr,
    Str,
    Prn,
    Println,
    Boom,
    ReadString,
    Slurp,
    Env,
    ReadLine,
    Exit,
    Raise,
    Atom,
    Deref,
    Reset,
    Assert,
}

/// A runtime value; also the syntax tree that the reader produces.
#[derive(Debug)]
pub enum MalType {
    List(MalArgs),
    Vector(MalArgs),
    Dict(MalMap),
    /// A host function.
    Fun(Builtin),
    /// A user-defined function: parameter list, body (a list of
    /// expressions) and the environment it was created in.
    MalFun { params: Box<MalType>, ast: Box<MalType>, env: Env },
    Sym(String),
    /// A keyword; the text starts with the sentinel character.
    Key(String),
    Str(String),
    Ch(char),
    Num(Frac),
    /// A handle to a mutable cell of a `Runtime`.
    Atom(usize),
    Nil,
    T,
    F,
}

/// The mathematical content of a `MalType`.
pub enum Value {
    List(Seq<Value>),
    Vector(Seq<Value>),
    Dict(Seq<(Seq<char>, Value)>),
    Fun(Builtin),
    Closure { params: Box<Value>, body: Box<Value>, env: nat },
    Sym(Seq<char>),
    Key(Seq<char>),
    Str(Seq<char>),
    Ch(char),
    Num(Ratio),
    Atom(nat),
    Nil,
    T,
    F,
}

/// The content of one value.
pub open spec fn model_of(v: MalType) -> Value
    decreases v,
{
    match v {
        MalType::List(l) => Value::List(
            Seq::new(
                l@.len(),
                |i: int|
                    if 0 <= i < l@.len() {
                        model_of(l@[i])
                    } else {
                        Value::Nil
                    },
            ),
        ),
        MalType::Vector(l) => Value::Vector(
            Seq::new(
                l@.len(),
                |i: int|
                    if 0 <= i < l@.len() {
                        model_of(l@[i])
                    } else {
                        Value::Nil
                    },
            ),
        ),
        MalType::Dict(m) => Value::Dict(map_model(m)),
        MalType::Fun(b) => Value::Fun(b),
        MalType::MalFun { params, ast, env } => Value::Closure {
            params: Box::new(model_of(*params)),
            body: Box::new(model_of(*ast)),
            env: env as nat,
        },
        MalType::Sym(s) => Value::Sym(s@),
        MalType::Key(s) => Value::Key(s@),
        MalType::Str(s) => Value::Str(s@),
        MalType::Ch(c) => Value::Ch(c),
        MalType::Num(f) => Value::Num(f@),
        MalType::Atom(a) => Value::Atom(a as nat),
        MalType::Nil => Value::Nil,
        MalType::T => Value::T,
        MalType::F => Value::F,
    }
}

/// The content of a map: its keys with the contents of their values.
pub closed spec fn map_model(m: MalMap) -> Seq<(Seq<char>, Value)>
    decreases m,
{
    Seq::new(
        m.entries@.len(),
        |i: int|
            if 0 <= i < m.entries@.len() {
                (m.entries@[i].0@, model_of(m.entries@[i].1))
            } else {
                (Seq::empty(), Value::Nil)
            },
    )
}

impl View for MalType {
    type V = Value;

    open spec fn view(&self) -> Value {
        model_of(*self)
    }
}

/// The contents of a sequence of values.
pub open spec fn models_of(s: Seq<MalType>) -> Seq<Value> {
    Seq::new(s.len(), |i: int| s[i]@)
}

/// The contents of the entries of a map.
pub open spec fn entries_of(s: Seq<(String, MalType)>) -> Seq<(Seq<char>, Value)> {
    Seq::new(s.len(), |i: int| (s[i].0@, s[i].1@))
}

impl View for MalMap {
    type V = Seq<(Seq<char>, Value)>;

    open spec fn view(&self) -> Seq<(Seq<char>, Value)> {
        map_model(*self)
    }
}

/// What a map holds is the contents of its entries.
pub(crate) proof fn lemma_map_entries(m: MalMap)
    ensures
        m@ == entries_of(m.entries@),
{
    assert(map_model(m) =~= entries_of(m.entries@));
}

impl MalMap {
    #[verifier::type_invariant]
    spec fn keys_once(self) -> bool {
        distinct_keys(entries_of(self.entries@))
    }

    /// The map without an entry.
    pub fn new() -> (m: MalMap)
        ensures
            m@ == Seq::<(Seq<char>, Value)>::empty(),
    {
        let entries: Entries = Vec::new();
        assert(entries_of(entries@) =~= Seq::empty());
        let m = MalMap { entries };
        proof {
            lemma_map_entries(m);
        }
        m
    }

    /// The map of the given entries, no two of which have the same key.
    pub(crate) fn from_entries(entries: Entries) -> (m: MalMap)
        requires
            distinct_keys(entries_of(entries@)),
        ensures
            m.entries == entries,
    {
        MalMap { entries }
    }

    /// The entries, in insertion order; no two have the same key.
    pub fn entries(&self) -> (r: &Entries)
        ensures
            entries_of(r@) == self@,
            distinct_keys(self@),
    {
        proof {
            use_type_invariant(self);
            lemma_map_entries(*self);
        }
        &self.entries
    }

    /// The value of the key `k`, if the map has one.
    pub fn get(&self, k: &str) -> (r: Option<&MalType>)
        ensures
            match r {
                Some(v) => dict_get(self@, k@) == Some(v@),
                None => dict_get(self@, k@) is None,
            },
    {
        proof {
            lemma_map_entries(*self);
        }
        match find_entry(&self.entries, k) {
            Some(i) => {
                assert(entries_of(self.entries@)[i as int].1 == self.entries@[i as int].1@);
                Some(&self.entries[i].1)
            },
            None => None,
        }
    }

    /// The map in which `k` has the value `v`: the entry of `k` is replaced
    /// where it stands, or a new entry is added at the end.
    pub fn with(self, k: &str, v: MalType) -> (m: MalMap)
        ensures
            m@ == dict_put(self@, k@, v@),
    {
        proof {
            use_type_invariant(&self);
            lemma_map_entries(self);
            lemma_dict_put(self@, k@, v@, k@);
        }
        let MalMap { entries } = self;
        let mut entries = entries;
        put_entry(&mut entries, k, v);
        let m = MalMap { entries };
        proof {
            lemma_map_entries(m);
        }
        m
    }
}

/// What a list holds is the contents of its elements.
pub proof fn lemma_view_list(l: Vec<MalType>)
    ensures
        MalType::List(l)@ == Value::List(models_of(l@)),
        MalType::Vector(l)@ == Value::Vector(models_of(l@)),
{
    assert(MalType::List(l)@->List_0 =~= models_of(l@));
    assert(MalType::Vector(l)@->Vector_0 =~= models_of(l@));
}

/// What a map holds is the contents of its entries.
pub proof fn lemma_view_dict(m: MalMap)
    ensures
        MalType::Dict(m)@ == Value::Dict(m@),
{
}

/// A copy of `l[from..to]`.
pub(crate) fn copy_range(l: &[MalType], from: usize, to: usize) -> (r: Vec<MalType>)
    requires
        from <= to <= l@.len(),
    ensures
        models_of(r@) == models_of(l@).subrange(from as int, to as int),
{
    let mut out: Vec<MalType> = Vec::new();
    let mut i: usize = from;
    while i < to
        invariant
            from <= i <= to <= l@.len(),
            out@.len() == i - from,
            forall|j: int| 0 <= j < i - from ==> out@[j]@ == l@[from + j]@,
        decreases to - i,
    {
        out.push(l[i].clone());
        i += 1;
    }
    assert(models_of(out@) =~= models_of(l@).subrange(from as int, to as int));
    out
}

/// A copy of the entries of a map.
pub(crate) fn copy_entries(m: &Vec<(String, MalType)>) -> (r: Vec<(String, MalType)>)
    ensures
        entries_of(r@) == entries_of(m@),
{
    let mut out: Vec<(String, MalType)> = Vec::new();
    let mut i: usize = 0;
    while i < m.len()
        invariant
            i <= m.len(),
            out@.len() == i,
            forall|j: int| 0 <= j < i ==> out@[j].0@ == m@[j].0@ && out@[j].1@ == m@[j].1@,
        decreases m.len() - i,
    {
        out.push((m[i].0.clone(), m[i].1.clone()));
        i += 1;
    }
    assert(entries_of(out@) =~= entries_of(m@));
    out
}

impl Clone for MalMap {
    /// A copy with the same entries.
    fn clone(&self) -> (r: Self)
        ensures
            r@ == self@,
    {
        proof {
            use_type_invariant(self);
            lemma_map_entries(*self);
        }
        let copy = MalMap::from_entries(copy_entries(&self.entries));
        proof {
            lemma_map_entries(copy);
        }
        copy
    }
}

impl Clone for MalType {
    /// A copy with the same content.
    fn clone(&self) -> (r: Self)
        ensures
            r@ == self@,
        decreases self,
    {
        match self {
            MalType::List(l) => {
                let mut out: Vec<MalType> = Vec::new();
                let mut i: usize = 0;
                while i < l.len()
                    invariant
                        i <= l.len(),
                        out@.len() == i,
                        forall|j: int| 0 <= j < i ==> out@[j]@ == l@[j]@,
                        self is List && self->List_0 == *l,
                    decreases l.len() - i,
                {
                    assert(decreases_to!(*l => l[i as int]));
                    assert(decreases_to!(*self => self->List_0));
                    out.push(l[i].clone());
                    i += 1;
                }
                proof {
                    lemma_view_list(out);
                    lemma_view_list(*l);
                    assert(models_of(out@) =~= models_of(l@));
                }
                MalType::List(out)
            },
            MalType::Vector(l) => {
                let mut out: Vec<MalType> = Vec::new();
                let mut i: usize = 0;
                while i < l.len()
                    invariant
                        i <= l.len(),
                        out@.len() == i,
                        forall|j: int| 0 <= j < i ==> out@[j]@ == l@[j]@,
                        self is Vector && self->Vector_0 == *l,
                    decreases l.len() - i,
                {
                    assert(decreases_to!(*l => l[i as int]));
                    assert(decreases_to!(*self => self->Vector_0));
                    out.push(l[i].clone());
                    i += 1;
                }
                proof {
                    lemma_view_list(out);
                    lemma_view_list(*l);
                    assert(models_of(out@) =~= models_of(l@));
                }
                MalType::Vector(out)
            },
            MalType::Dict(map) => {
                let m = &map.entries;
                let mut out: Vec<(String, MalType)> = Vec::new();
                let mut i: usize = 0;
                while i < m.len()
                    invariant
                        i <= m.len(),
                        out@.len() == i,
                        forall|j: int|
                            0 <= j < i ==> out@[j].0@ == m@[j].0@ && out@[j].1@ == m@[j].1@,
                        self is Dict && self->Dict_0 == *map,
                        *m == map.entries,
                    decreases m.len() - i,
                {
                    assert(decreases_to!(*m => m[i as int]));
                    assert(decreases_to!(*map => map.entries));
                    assert(decreases_to!(*self => self->Dict_0));
                    out.push((m[i].0.clone(), m[i].1.clone()));
                    i += 1;
                }
                proof {
                    use_type_invariant(map);
                    assert(entries_of(out@) =~= entries_of(m@));
                }
                let copy = MalMap::from_entries(out);
                proof {
                    lemma_map_entries(copy);
                    lemma_map_entries(*map);
                }
                MalType::Dict(copy)
            },
            MalType::Fun(b) => MalType::Fun(*b),
            MalType::MalFun { params, ast, env } => MalType::MalFun {
                params: Box::new((**params).clone()),
                ast: Box::new((**ast).clone()),
                env: *env,
            },
            MalType::Sym(s) => MalType::Sym(s.clone()),
            MalType::Key(s) => MalType::Key(s.clone()),
            MalType::Str(s) => MalType::Str(s.clone()),
            MalType::Ch(c) => MalType::Ch(*c),
            MalType::Num(f) => MalType::Num(*f),
            MalType::Atom(a) => MalType::Atom(*a),
            MalType::Nil => MalType::Nil,
            MalType::T => MalType::T,
            MalType::F => MalType::F,
        }
    }
}

/// What a result holds, an error being no value.
pub open spec fn outcome(r: MalRet) -> Option<Value> {
    match r {
        Ok(v) => Some(v@),
        Err(_) => None,
    }
}

/// Whether the result, if it is an error, is an unrecoverable one.
pub open spec fn hard(r: MalRet) -> bool {
    r matches Err(e) ==> e.level() == Severity::Unrecoverable
}

/// Why an evaluation has no value.
pub enum Fault {
    /// The program raised an error with this message.
    Raised(Seq<char>),
    /// Anything else went wrong.
    Other,
}

/// An optional result as an outcome, nothing being a failure.
pub open spec fn lift<A>(o: Option<A>) -> Result<A, Fault> {
    match o {
        Some(v) => Ok(v),
        None => Err(Fault::Other),
    }
}

/// Whether an error reports the failure: it is unrecoverable, and it
/// carries the message of the program where the program raised it.
pub open spec fn fails_as(e: MalErr, f: Fault) -> bool {
    e.level() == Severity::Unrecoverable && (f matches Fault::Raised(m) ==> e.text() == m)
}

/// Whether a result is the outcome: the value, or an error that reports
/// the failure.
pub open spec fn agrees(r: MalRet, s: Result<Value, Fault>) -> bool {
    match (r, s) {
        (Ok(v), Ok(x)) => v@ == x,
        (Err(e), Err(f)) => fails_as(e, f),
        _ => false,
    }
}

/// An unrecoverable error whose message is the readable text of `v`
/// followed by `what`.
pub(crate) fn complaint(v: &MalType, what: &str) -> (e: MalErr)
    ensures
        e.level() == Severity::Unrecoverable,
{
    let mut m = prt(v);
    m.append(what);
    MalErr::new(m, Severity::Unrecoverable)
}

/// The elements of a list or vector.
pub open spec fn items_of(v: Value) -> Option<Seq<Value>> {
    match v {
        Value::List(l) => Some(l),
        Value::Vector(l) => Some(l),
        _ => None,
    }
}

/// The name of a value's variant, as `type` reports it.
pub open spec fn label_name(v: Value) -> Seq<char> {
    match v {
        Value::Nil => "\u{29e}:nil"@,
        Value::T => "\u{29e}:t"@,
        Value::F => "\u{29e}:f"@,
        Value::Num(_) => "\u{29e}:number"@,
        Value::Fun(_) => "\u{29e}:lambda"@,
        Value::Closure { .. } => "\u{29e}:lambda"@,
        Value::Key(_) => "\u{29e}:key"@,
        Value::Str(_) => "\u{29e}:string"@,
        Value::Sym(_) => "\u{29e}:symbol"@,
        Value::List(_) => "\u{29e}:list"@,
        Value::Vector(_) => "\u{29e}:vector"@,
        Value::Dict(_) => "\u{29e}:map"@,
        Value::Atom(_) => "\u{29e}:atom"@,
        Value::Ch(_) => "\u{29e}:char"@,
    }
}

impl MalType {
    /// The number, or an error for anything else.
    pub fn if_number(&self) -> (r: Result<Frac, MalErr>)
        ensures
            match r {
                Ok(f) => self@ == Value::Num(f@),
                Err(e) => !(self@ is Num) && e.level() == Severity::Unrecoverable,
            },
    {
        match self {
            MalType::Num(val) => Ok(*val),
            _ => Err(complaint(self, " is not a number")),
        }
    }

    /// The elements of a list or of a vector, or an error for anything else.
    pub fn if_list(&self) -> (r: Result<&[MalType], MalErr>)
        ensures
            match r {
                Ok(l) => items_of(self@) == Some(models_of(l@)),
                Err(e) => items_of(self@) is None && e.level() == Severity::Unrecoverable,
            },
    {
        match self {
            MalType::List(list) => {
                proof {
                    lemma_view_list(*list);
                }
                Ok(list.as_slice())
            },
            MalType::Vector(list) => {
                proof {
                    lemma_view_list(*list);
                }
                Ok(list.as_slice())
            },
            _ => Err(complaint(self, " is not an iterable")),
        }
    }

    /// The elements of a vector, or an error for anything else.
    pub fn if_vec(&self) -> (r: Result<&[MalType], MalErr>)
        ensures
            match r {
                Ok(l) => self@ == Value::Vector(models_of(l@)),
                Err(e) => !(self@ is Vector) && e.level() == Severity::Unrecoverable,
            },
    {
        match self {
            MalType::Vector(list) => {
                proof {
                    lemma_view_list(*list);
                }
                Ok(list.as_slice())
            },
            _ => Err(complaint(self, " is not a vector")),
        }
    }

    /// The name of a symbol, or an error for anything else.
    pub fn if_symbol(&self) -> (r: Result<&str, MalErr>)
        ensures
            match r {
                Ok(s) => self@ == Value::Sym(s@),
                Err(e) => !(self@ is Sym) && e.level() == Severity::Unrecoverable,
            },
    {
        match self {
            MalType::Sym(sym) => Ok(sym.as_str()),
            _ => Err(complaint(self, " is not a symbol")),
        }
    }

    /// The text of a string, or an error for anything else.
    pub fn if_string(&self) -> (r: Result<&str, MalErr>)
        ensures
            match r {
                Ok(s) => self@ == Value::Str(s@),
                Err(e) => !(self@ is Str) && e.level() == Severity::Unrecoverable,
            },
    {
        match self {
            MalType::Str(sym) => Ok(sym.as_str()),
            _ => Err(complaint(self, " is not a string")),
        }
    }

    /// A keyword that names the variant of the value.
    pub fn label_type(&self) -> (r: MalType)
        ensures
            r@ == Value::Key(label_name(self@)),
    {
        MalType::Key(
            match self {
                MalType::Nil => "\u{29e}:nil",
                MalType::T => "\u{29e}:t",
                MalType::F => "\u{29e}:f",
                MalType::Num(_) => "\u{29e}:number",
                MalType::Fun(_) => "\u{29e}:lambda",
                MalType::MalFun { .. } => "\u{29e}:lambda",
                MalType::Key(_) => "\u{29e}:key",
                MalType::Str(_) => "\u{29e}:string",
                MalType::Sym(_) => "\u{29e}:symbol",
                MalType::List(_) => "\u{29e}:list",
                MalType::Vector(_) => "\u{29e}:vector",
                MalType::Dict(_) => "\u{29e}:map",
                MalType::Atom(_) => "\u{29e}:atom",
                MalType::Ch(_) => "\u{29e}:char",
            }.to_owned(),
        )
    }
}

/// Structural equality, as the `=` function sees it: numbers by the
/// rational they denote; lists with lists and vectors with vectors, element
/// by element; maps, functions and atoms are equal to nothing.
pub open spec fn value_eq(a: Value, b: Value) -> bool
    decreases a, 0nat, 0nat,
{
    match (a, b) {
        (Value::Nil, Value::Nil) => true,
        (Value::T, Value::T) => true,
        (Value::F, Value::F) => true,
        (Value::Num(x), Value::Num(y)) => crate::frac::ratio_eq(x, y),
        (Value::Ch(x), Value::Ch(y)) => x == y,
        (Value::Key(x), Value::Key(y)) => x == y,
        (Value::Str(x), Value::Str(y)) => x == y,
        (Value::Sym(x), Value::Sym(y)) => x == y,
        (Value::List(x), Value::List(y)) => x.len() == y.len() && items_eq(x, y, 0),
        (Value::Vector(x), Value::Vector(y)) => x.len() == y.len() && items_eq(x, y, 0),
        _ => false,
    }
}

/// Whether `x[i..]` and `y[i..]` are equal element by element.
pub open spec fn items_eq(x: Seq<Value>, y: Seq<Value>, i: int) -> bool
    decreases x, 1nat, x.len() - i,
{
    if i < 0 || i >= x.len() || i >= y.len() {
        true
    } else {
        value_eq(x[i], y[i]) && items_eq(x, y, i + 1)
    }
}

/// Whether `cdr[i..]` are all equal to `car`.
pub open spec fn all_equal(car: Value, cdr: Seq<Value>, i: int) -> bool
    decreases cdr.len() - i,
{
    if i < 0 || i >= cdr.len() {
        true
    } else {
        value_eq(car, cdr[i]) && all_equal(car, cdr, i + 1)
    }
}

/// What `=` returns: true for no argument, else whether every other argument
/// equals the first.
pub open spec fn equals_result(args: Seq<Value>) -> Value {
    if args.len() == 0 || all_equal(args[0], args, 1) {
        Value::T
    } else {
        Value::Nil
    }
}

/// Whether two values are equal under `value_eq`.
pub fn mal_compare(a: &MalType, b: &MalType) -> (r: bool)
    ensures
        r == value_eq(a@, b@),
    decreases a,
{
    match (a, b) {
        (MalType::Nil, MalType::Nil) => true,
        (MalType::T, MalType::T) => true,
        (MalType::F, MalType::F) => true,
        (MalType::Num(x), MalType::Num(y)) => x.same(y),
        (MalType::Ch(x), MalType::Ch(y)) => *x == *y,
        (MalType::Key(x), MalType::Key(y)) => same_text(x.as_str(), y.as_str()),
        (MalType::Str(x), MalType::Str(y)) => same_text(x.as_str(), y.as_str()),
        (MalType::Sym(x), MalType::Sym(y)) => same_text(x.as_str(), y.as_str()),
        (MalType::List(x), MalType::List(y)) => {
            proof {
                lemma_view_list(*x);
                lemma_view_list(*y);
            }
            if x.len() != y.len() {
                return false;
            }
            let mut i: usize = 0;
            while i < x.len()
                invariant
                    i <= x.len() == y.len(),
                    a is List && a->List_0 == *x,
                    a@ == Value::List(models_of(x@)),
                    b@ == Value::List(models_of(y@)),
                    items_eq(models_of(x@), models_of(y@), 0) == items_eq(
                        models_of(x@),
                        models_of(y@),
                        i as int,
                    ),
                decreases x.len() - i,
            {
                assert(decreases_to!(*x => x[i as int]));
                assert(decreases_to!(*a => a->List_0));
                assert(models_of(x@)[i as int] == x@[i as int]@);
                assert(models_of(y@)[i as int] == y@[i as int]@);
                if !mal_compare(&x[i], &y[i]) {
                    return false;
                }
                i += 1;
            }
            true
        },
        (MalType::Vector(x), MalType::Vector(y)) => {
            proof {
                lemma_view_list(*x);
                lemma_view_list(*y);
            }
            if x.len() != y.len() {
                return false;
            }
            let mut i: usize = 0;
            while i < x.len()
                invariant
                    i <= x.len() == y.len(),
                    a is Vector && a->Vector_0 == *x,
                    a@ == Value::Vector(models_of(x@)),
                    b@ == Value::Vector(models_of(y@)),
                    items_eq(models_of(x@), models_of(y@), 0) == items_eq(
                        models_of(x@),
                        models_of(y@),
                        i as int,
                    ),
                decreases x.len() - i,
            {
                assert(decreases_to!(*x => x[i as int]));
                assert(decreases_to!(*a => a->Vector_0));
                assert(models_of(x@)[i as int] == x@[i as int]@);
                assert(models_of(y@)[i as int] == y@[i as int]@);
                if !mal_compare(&x[i], &y[i]) {
                    return false;
                }
                i += 1;
            }
            true
        },
        _ => false,
    }
}

/// The `=` function: true for no argument, else true when every other
/// argument equals the first, and nil otherwise.
pub fn mal_equals(args: &[MalType]) -> (r: MalRet)
    ensures
        r is Ok,
        r->Ok_0@ == equals_result(models_of(args@)),
{
    if args.len() == 0 {
        return Ok(MalType::T);
    }
    let mut i: usize = 1;
    while i < args.len()
        invariant
            1 <= i <= args.len(),
            all_equal(models_of(args@)[0], models_of(args@), 1) == all_equal(
                models_of(args@)[0],
                models_of(args@),
                i as int,
            ),
        decreases args.len() - i,
    {
        assert(models_of(args@)[i as int] == args@[i as int]@);
        assert(models_of(args@)[0] == args@[0]@);
        if !mal_compare(&args[0], &args[i]) {
            return Ok(MalType::Nil);
        }
        i += 1;
    }
    Ok(MalType::T)
}

/// The first index at or after `from` whose entry has the key `k`.
pub open spec fn find_key<V>(d: Seq<(Seq<char>, V)>, k: Seq<char>, from: int) -> Option<int>
    decreases d.len() - from,
{
    if from < 0 || from >= d.len() {
        None
    } else if d[from].0 == k {
        Some(from)
    } else {
        find_key(d, k, from + 1)
    }
}

/// The value that the entries give to `k`.
pub open spec fn dict_get<V>(d: Seq<(Seq<char>, V)>, k: Seq<char>) -> Option<V> {
    match find_key(d, k, 0) {
        Some(i) => Some(d[i].1),
        None => None,
    }
}

/// The entries after `k` is given the value `v`: the entry of `k` is
/// replaced where it stands, or a new entry is added at the end.
pub open spec fn dict_put<V>(d: Seq<(Seq<char>, V)>, k: Seq<char>, v: V) -> Seq<(Seq<char>, V)> {
    match find_key(d, k, 0) {
        Some(i) => d.update(i, (k, v)),
        None => d.push((k, v)),
    }
}

/// Whether no key occurs twice.
pub open spec fn distinct_keys<V>(d: Seq<(Seq<char>, V)>) -> bool {
    forall|i: int, j: int| 0 <= i < j < d.len() ==> (#[trigger] d[i]).0 != (#[trigger] d[j]).0
}

/// `find_key` finds an entry with the key, and none stands before it.
pub proof fn lemma_find_key<V>(d: Seq<(Seq<char>, V)>, k: Seq<char>, from: int)
    requires
        0 <= from,
    ensures
        match find_key(d, k, from) {
            Some(i) => from <= i < d.len() && d[i].0 == k && forall|j: int|
                from <= j < i ==> (#[trigger] d[j]).0 != k,
            None => forall|j: int| from <= j < d.len() ==> (#[trigger] d[j]).0 != k,
        },
    decreases d.len() - from,
{
    if from < d.len() && d[from].0 != k {
        lemma_find_key(d, k, from + 1);
    }
}

/// Giving a key a value keeps the keys distinct, and the key then has that
/// value while every other key keeps its own.
pub proof fn lemma_dict_put<V>(d: Seq<(Seq<char>, V)>, k: Seq<char>, v: V, other: Seq<char>)
    ensures
        distinct_keys(d) ==> distinct_keys(dict_put(d, k, v)),
        dict_get(dict_put(d, k, v), k) == Some(v),
        other != k ==> dict_get(dict_put(d, k, v), other) == dict_get(d, other),
{
    let p = dict_put(d, k, v);
    lemma_find_key(d, k, 0);
    lemma_find_key(p, k, 0);
    lemma_find_key(d, other, 0);
    lemma_find_key(p, other, 0);
    match find_key(d, k, 0) {
        Some(i) => {
            assert(p[i].0 == k);
            assert forall|j: int| 0 <= j < p.len() implies (#[trigger] p[j]).0 == d[j].0 by {}
        },
        None => {
            assert(p[d.len() as int].0 == k);
            assert forall|j: int| 0 <= j < d.len() implies (#[trigger] p[j]) == d[j] by {}
        },
    }
    if other != k {
        match find_key(d, other, 0) {
            Some(i) => {
                assert(p[i].0 == other);
                assert(p[i] == d[i]);
            },
            None => {},
        }
        match find_key(p, other, 0) {
            Some(i) => {
                assert(i < d.len());
                assert(d[i].0 == other);
            },
            None => {},
        }
    }
}

/// Where the key `k` stands among the entries, if it does.
pub(crate) fn find_entry(d: &Vec<(String, MalType)>, k: &str) -> (r: Option<usize>)
    ensures
        match r {
            Some(i) => find_key(entries_of(d@), k@, 0) == Some(i as int) && i < d.len(),
            None => find_key(entries_of(d@), k@, 0) is None,
        },
{
    let mut i: usize = 0;
    while i < d.len()
        invariant
            i <= d.len(),
            find_key(entries_of(d@), k@, 0) == find_key(entries_of(d@), k@, i as int),
        decreases d.len() - i,
    {
        assert(entries_of(d@)[i as int].0 == d@[i as int].0@);
        if same_text(d[i].0.as_str(), k) {
            return Some(i);
        }
        i += 1;
    }
    None
}

/// Gives the key `k` the value `v` among the entries.
pub(crate) fn put_entry(d: &mut Vec<(String, MalType)>, k: &str, v: MalType)
    ensures
        entries_of(final(d)@) == dict_put(entries_of(old(d)@), k@, v@),
{
    match find_entry(d, k) {
        Some(i) => {
            d[i] = (k.to_owned(), v);
            assert(entries_of(d@) =~= dict_put(entries_of(old(d)@), k@, v@));
        },
        None => {
            d.push((k.to_owned(), v));
            assert(entries_of(d@) =~= dict_put(entries_of(old(d)@), k@, v@));
        },
    }
}

/// The text under which a value is a map key: that of a string or of a
/// keyword.
pub open spec fn key_text(v: Value) -> Option<Seq<char>> {
    match v {
        Value::Key(k) => Some(k),
        Value::Str(k) => Some(k),
        _ => None,
    }
}

/// The entries that the first `2 * n` elements of `list` write, taken as
/// key and value in turn; `None` when one of the keys is neither a string
/// nor a keyword.
pub open spec fn map_entries(list: Seq<Value>, n: nat) -> Option<Seq<(Seq<char>, Value)>>
    decreases n,
{
    if n == 0 {
        Some(Seq::empty())
    } else {
        match (map_entries(list, (n - 1) as nat), key_text(list[2 * (n - 1)])) {
            (Some(d), Some(k)) => Some(dict_put(d, k, list[2 * (n - 1) + 1])),
            _ => None,
        }
    }
}

/// The map that a sequence of keys and values writes: it needs an even
/// number of elements and string or keyword keys; a later value for a key
/// replaces an earlier one.
pub open spec fn map_of(list: Seq<Value>) -> Option<Value> {
    if list.len() % 2 != 0 {
        None
    } else {
        match map_entries(list, list.len() / 2) {
            Some(d) => Some(Value::Dict(d)),
            None => None,
        }
    }
}

/// A map written by a sequence of keys and values has distinct keys.
pub proof fn lemma_map_entries_distinct(list: Seq<Value>, n: nat)
    ensures
        map_entries(list, n) matches Some(d) ==> distinct_keys(d),
    decreases n,
{
    if n > 0 {
        lemma_map_entries_distinct(list, (n - 1) as nat);
        match (map_entries(list, (n - 1) as nat), key_text(list[2 * (n - 1)])) {
            (Some(d), Some(k)) => {
                lemma_dict_put(d, k, list[2 * (n - 1) + 1], k);
            },
            _ => {},
        }
    }
}

/// Builds a map from keys and values in turn.
pub fn make_map(list: MalArgs) -> (r: MalRet)
    ensures
        match r {
            Ok(m) => map_of(models_of(list@)) == Some(m@) && m@ is Dict && distinct_keys(
                m@->Dict_0,
            ),
            Err(e) => map_of(models_of(list@)) is None && e.level() == Severity::Unrecoverable,
        },
{
    if list.len() % 2 != 0 {
        return Err(MalErr::unrecoverable("Map length is odd: missing value"));
    }
    let mut map: Entries = Vec::new();
    let ghost items = models_of(list@);
    let mut i: usize = 0;
    assert(entries_of(map@) =~= Seq::empty());
    while i < list.len()
        invariant
            i <= list.len(),
            i % 2 == 0,
            list.len() % 2 == 0,
            items == models_of(list@),
            map_entries(items, (i / 2) as nat) == Some(entries_of(map@)),
        decreases list.len() - i,
    {
        let ghost before = entries_of(map@);
        assert((i + 2) / 2 == i / 2 + 1);
        match &list[i] {
            MalType::Key(k) => {
                put_entry(&mut map, k.as_str(), list[i + 1].clone());
            },
            MalType::Str(k) => {
                put_entry(&mut map, k.as_str(), list[i + 1].clone());
            },
            _ => {
                proof {
                    lemma_map_entries_none(items, (i / 2 + 1) as nat, (list.len() / 2) as nat);
                }
                return Err(complaint(&list[i], " is not a valid map key"));
            },
        }
        i += 2;
    }
    proof {
        lemma_map_entries_distinct(items, (list.len() / 2) as nat);
    }
    let made = MalMap::from_entries(map);
    proof {
        lemma_map_entries(made);
    }
    Ok(MalType::Dict(made))
}

/// Once a prefix writes no map, no longer prefix does.
pub proof fn lemma_map_entries_none(list: Seq<Value>, n: nat, m: nat)
    requires
        n <= m,
        map_entries(list, n) is None,
    ensures
        map_entries(list, m) is None,
    decreases m,
{
    if n < m {
        lemma_map_entries_none(list, n, (m - 1) as nat);
    }
}

} // verus!
