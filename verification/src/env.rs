//! The runtime store: environment frames, atoms, printed output and what the
//! host has provided.
//!
//! Frames and atoms live in arenas and are named by their index. A frame
//! points to its outer frame by an index below its own, so every chain of
//! frames ends.
use crate::reader::texts_of;
use crate::text::same_text;
use crate::types::{MalErr, Severity};
use crate::value::{
    dict_get, dict_put, distinct_keys, find_key, items_of, models_of, Env, MalMap, MalRet,
    MalType, Value,
};
use vstd::prelude::*;
use vstd::relations::{sorted_by, total_ordering};
use vstd::seq_lib::lemma_sorted_unique;

verus! {

/// What a frame holds: its bindings, and the frame around it.
pub struct FrameView {
    pub data: Seq<(Seq<char>, Value)>,
    pub outer: Option<nat>,
}

/// One frame of bindings with a link to the frame around it. No name is
/// bound twice in a frame.
#[derive(Debug)]
pub struct EnvType {
    data: MalMap,
    pub outer: Option<Env>,
}

impl View for EnvType {
    type V = FrameView;

    closed spec fn view(&self) -> FrameView {
        FrameView {
            data: self.data@,
            outer: match self.outer {
                Some(o) => Some(o as nat),
                None => None,
            },
        }
    }
}

/// Why an evaluation stopped before it had a result.
#[derive(Debug)]
pub enum Halt {
    /// The program asked to end the process with this status.
    Exit(isize),
    /// The content of the file of that name is needed.
    NeedFile(String),
    /// The value of the environment variable of that name is needed.
    NeedVar(String),
    /// One more line of input is needed.
    NeedLine,
    /// The evaluation budget ran out.
    OutOfFuel,
}

pub enum HaltView {
    Exit(int),
    NeedFile(Seq<char>),
    NeedVar(Seq<char>),
    NeedLine,
    OutOfFuel,
}

impl View for Halt {
    type V = HaltView;

    open spec fn view(&self) -> HaltView {
        match self {
            Halt::Exit(c) => HaltView::Exit(*c as int),
            Halt::NeedFile(s) => HaltView::NeedFile(s@),
            Halt::NeedVar(s) => HaltView::NeedVar(s@),
            Halt::NeedLine => HaltView::NeedLine,
            Halt::OutOfFuel => HaltView::OutOfFuel,
        }
    }
}

impl Clone for Halt {
    fn clone(&self) -> (r: Self)
        ensures
            r@ == self@,
    {
        match self {
            Halt::Exit(c) => Halt::Exit(*c),
            Halt::NeedFile(s) => Halt::NeedFile(s.clone()),
            Halt::NeedVar(s) => Halt::NeedVar(s.clone()),
            Halt::NeedLine => Halt::NeedLine,
            Halt::OutOfFuel => Halt::OutOfFuel,
        }
    }
}

/// What the host has told the runtime: for a name, `Some(text)` for what
/// is there and `None` for what is known to be missing.
pub type Table = Vec<(String, Option<String>)>;

pub open spec fn text_option(o: Option<String>) -> Option<Seq<char>> {
    match o {
        Some(s) => Some(s@),
        None => None,
    }
}

pub open spec fn table_of(t: Seq<(String, Option<String>)>) -> Seq<(Seq<char>, Option<Seq<char>>)> {
    Seq::new(t.len(), |i: int| (t[i].0@, text_option(t[i].1)))
}

/// The state of the world as an evaluation sees and changes it.
pub struct World {
    /// The environment frames.
    pub frames: Seq<FrameView>,
    /// The contents of the atoms.
    pub atoms: Seq<Value>,
    /// The pieces of text printed so far.
    pub output: Seq<Seq<char>>,
    /// The files the host has answered for.
    pub files: Seq<(Seq<char>, Option<Seq<char>>)>,
    /// The environment variables the host has answered for.
    pub vars: Seq<(Seq<char>, Option<Seq<char>>)>,
    /// The lines of input the host has given.
    pub lines: Seq<Seq<char>>,
    /// How many of those lines have been read.
    pub lines_read: nat,
    /// Why evaluation has stopped, if it has.
    pub halt: Option<HaltView>,
}

impl World {
    /// The world with one more frame.
    pub open spec fn with_frame(self, f: FrameView) -> World {
        World { frames: self.frames.push(f), ..self }
    }

    /// The world after `k` is bound to `v` in the frame `env` (unchanged
    /// when there is no such frame).
    pub open spec fn define(self, env: nat, k: Seq<char>, v: Value) -> World {
        if env < self.frames.len() {
            World {
                frames: self.frames.update(
                    env as int,
                    FrameView {
                        data: dict_put(self.frames[env as int].data, k, v),
                        outer: self.frames[env as int].outer,
                    },
                ),
                ..self
            }
        } else {
            self
        }
    }

    /// The value of `k` as seen from the frame `env`: that of the innermost
    /// frame, from `env` outwards, that binds it.
    pub open spec fn lookup(self, env: nat, k: Seq<char>) -> Option<Value>
        decreases env,
    {
        if env >= self.frames.len() {
            None
        } else {
            match dict_get(self.frames[env as int].data, k) {
                Some(v) => Some(v),
                None => match self.frames[env as int].outer {
                    Some(o) => if o < env {
                        self.lookup(o, k)
                    } else {
                        None
                    },
                    None => None,
                },
            }
        }
    }

    /// The outermost frame around `env`.
    pub open spec fn root_of(self, env: nat) -> nat
        decreases env,
    {
        if env >= self.frames.len() {
            env
        } else {
            match self.frames[env as int].outer {
                Some(o) => if o < env {
                    self.root_of(o)
                } else {
                    env
                },
                None => env,
            }
        }
    }

    /// The names bound in the frame `env` itself, in ascending order.
    pub open spec fn keys(self, env: nat) -> Seq<Seq<char>> {
        if env < self.frames.len() {
            sorted_keys(self.frames[env as int].data)
        } else {
            Seq::empty()
        }
    }

    /// The world with one more atom.
    pub open spec fn with_atom(self, v: Value) -> World {
        World { atoms: self.atoms.push(v), ..self }
    }

    /// The world after the atom `a` is given the content `v`.
    pub open spec fn set_atom(self, a: nat, v: Value) -> World {
        if a < self.atoms.len() {
            World { atoms: self.atoms.update(a as int, v), ..self }
        } else {
            self
        }
    }

    /// The world after `text` is printed.
    pub open spec fn printed(self, text: Seq<char>) -> World {
        World { output: self.output.push(text), ..self }
    }

    /// The world stopped for the reason `h`.
    pub open spec fn halted(self, h: HaltView) -> World {
        World { halt: Some(h), ..self }
    }

    /// The world after one more line of input is read.
    pub open spec fn line_taken(self) -> World {
        World { lines_read: self.lines_read + 1, ..self }
    }
}

/// The state that evaluation works on.
#[derive(Debug)]
pub struct Runtime {
    envs: Vec<EnvType>,
    atoms: Vec<MalType>,
    output: Vec<String>,
    files: Table,
    vars: Table,
    lines: Vec<String>,
    lines_read: usize,
    halt: Option<Halt>,
}

pub open spec fn frames_of(s: Seq<EnvType>) -> Seq<FrameView> {
    Seq::new(s.len(), |i: int| s[i]@)
}

impl View for Runtime {
    type V = World;

    closed spec fn view(&self) -> World {
        World {
            frames: frames_of(self.envs@),
            atoms: models_of(self.atoms@),
            output: texts_of(self.output@),
            files: table_of(self.files@),
            vars: table_of(self.vars@),
            lines: texts_of(self.lines@),
            lines_read: self.lines_read as nat,
            halt: match self.halt {
                Some(h) => Some(h@),
                None => None,
            },
        }
    }
}

/// The empty world: no frame, no atom, nothing printed, nothing provided.
pub open spec fn empty_world() -> World {
    World {
        frames: Seq::empty(),
        atoms: Seq::empty(),
        output: Seq::empty(),
        files: Seq::empty(),
        vars: Seq::empty(),
        lines: Seq::empty(),
        lines_read: 0,
        halt: None,
    }
}

fn find_named(t: &Table, k: &str) -> (r: Option<usize>)
    ensures
        match r {
            Some(i) => find_key(table_of(t@), k@, 0) == Some(i as int) && i < t.len(),
            None => find_key(table_of(t@), k@, 0) is None,
        },
{
    let mut i: usize = 0;
    while i < t.len()
        invariant
            i <= t.len(),
            find_key(table_of(t@), k@, 0) == find_key(table_of(t@), k@, i as int),
        decreases t.len() - i,
    {
        assert(table_of(t@)[i as int].0 == t@[i as int].0@);
        if same_text(t[i].0.as_str(), k) {
            return Some(i);
        }
        i += 1;
    }
    None
}

fn put_named(t: &mut Table, k: &str, v: Option<String>)
    ensures
        table_of(final(t)@) == dict_put(table_of(old(t)@), k@, text_option(v)),
{
    match find_named(t, k) {
        Some(i) => {
            t[i] = (k.to_owned(), v);
            assert(table_of(t@) =~= dict_put(table_of(old(t)@), k@, text_option(v)));
        },
        None => {
            t.push((k.to_owned(), v));
            assert(table_of(t@) =~= dict_put(table_of(old(t)@), k@, text_option(v)));
        },
    }
}

fn copy_table(t: &Table) -> (r: Table)
    ensures
        table_of(r@) == table_of(t@),
{
    let mut out: Table = Vec::new();
    let mut i: usize = 0;
    while i < t.len()
        invariant
            i <= t.len(),
            out@.len() == i,
            forall|j: int|
                0 <= j < i ==> out@[j].0@ == t@[j].0@ && text_option(out@[j].1) == text_option(
                    t@[j].1,
                ),
        decreases t.len() - i,
    {
        out.push((t[i].0.clone(), clone_text_option(&t[i].1)));
        i += 1;
    }
    assert(table_of(out@) =~= table_of(t@));
    out
}

fn copy_texts(t: &Vec<String>) -> (r: Vec<String>)
    ensures
        texts_of(r@) == texts_of(t@),
{
    let mut out: Vec<String> = Vec::new();
    let mut i: usize = 0;
    while i < t.len()
        invariant
            i <= t.len(),
            out@.len() == i,
            forall|j: int| 0 <= j < i ==> out@[j]@ == t@[j]@,
        decreases t.len() - i,
    {
        out.push(t[i].clone());
        i += 1;
    }
    assert(texts_of(out@) =~= texts_of(t@));
    out
}

impl Clone for EnvType {
    /// A copy with the same bindings and outer frame.
    fn clone(&self) -> (r: Self)
        ensures
            r@ == self@,
    {
        EnvType { data: self.data.clone(), outer: self.outer }
    }
}

impl Clone for Runtime {
    /// A copy of the whole state, to go back to.
    fn clone(&self) -> (r: Self)
        ensures
            r@ == self@,
    {
        let mut envs: Vec<EnvType> = Vec::new();
        let mut i: usize = 0;
        while i < self.envs.len()
            invariant
                i <= self.envs.len(),
                envs@.len() == i,
                forall|j: int| 0 <= j < i ==> envs@[j]@ == self.envs@[j]@,
            decreases self.envs.len() - i,
        {
            envs.push(self.envs[i].clone());
            i += 1;
        }
        let atoms = crate::value::copy_range(self.atoms.as_slice(), 0, self.atoms.len());
        let r = Runtime {
            envs,
            atoms,
            output: copy_texts(&self.output),
            files: copy_table(&self.files),
            vars: copy_table(&self.vars),
            lines: copy_texts(&self.lines),
            lines_read: self.lines_read,
            halt: match &self.halt {
                Some(h) => Some(h.clone()),
                None => None,
            },
        };
        assert(r@.frames =~= self@.frames);
        assert(r@.atoms =~= self@.atoms);
        r
    }
}

fn clone_text_option(o: &Option<String>) -> (r: Option<String>)
    ensures
        text_option(r) == text_option(*o),
{
    match o {
        Some(s) => Some(s.clone()),
        None => None,
    }
}

impl Runtime {
    /// A runtime for the empty world.
    pub fn new() -> (rt: Runtime)
        ensures
            rt@ == empty_world(),
    {
        let rt = Runtime {
            envs: Vec::new(),
            atoms: Vec::new(),
            output: Vec::new(),
            files: Vec::new(),
            vars: Vec::new(),
            lines: Vec::new(),
            lines_read: 0,
            halt: None,
        };
        assert(rt@.frames =~= Seq::empty());
        assert(rt@.atoms =~= Seq::empty());
        assert(rt@.output =~= Seq::empty());
        assert(rt@.files =~= Seq::empty());
        assert(rt@.vars =~= Seq::empty());
        assert(rt@.lines =~= Seq::empty());
        rt
    }

    /// Adds a frame with the given bindings and outer frame, and gives its
    /// handle.
    pub fn add_frame(&mut self, data: MalMap, outer: Option<Env>) -> (e: Env)
        ensures
            e == old(self)@.frames.len(),
            final(self)@ == old(self)@.with_frame(
                FrameView {
                    data: data@,
                    outer: match outer {
                        Some(o) => Some(o as nat),
                        None => None,
                    },
                },
            ),
    {
        let e = self.envs.len();
        self.envs.push(EnvType { data, outer });
        assert(self@.frames =~= old(self)@.frames.push(self.envs@[e as int]@));
        e
    }

    /// The number of frames.
    pub fn frame_count(&self) -> (n: usize)
        ensures
            n == self@.frames.len(),
    {
        self.envs.len()
    }

    /// Binds `sym` to `val` in the frame `env`; nothing happens when there
    /// is no such frame.
    pub fn define(&mut self, env: Env, sym: &str, val: MalType)
        ensures
            final(self)@ == old(self)@.define(env as nat, sym@, val@),
    {
        if env < self.envs.len() {
            let ghost before = self.envs@[env as int]@;
            let mut frame = EnvType { data: MalMap::new(), outer: None };
            std::mem::swap(&mut frame, &mut self.envs[env]);
            let EnvType { data, outer } = frame;
            self.envs[env] = EnvType { data: data.with(sym, val), outer };
            assert(self.envs@[env as int]@ == (FrameView {
                data: dict_put(before.data, sym@, val@),
                outer: before.outer,
            }));
            assert(self@.frames =~= old(self)@.frames.update(
                env as int,
                self.envs@[env as int]@,
            ));
        }
    }

    /// The value bound to `sym` in the frame `env` itself, and that
    /// frame's outer link.
    fn probe(&self, env: Env, sym: &str) -> (r: (Option<MalType>, Option<Env>))
        requires
            env < self@.frames.len(),
        ensures
            match r.0 {
                Some(v) => dict_get(self@.frames[env as int].data, sym@) == Some(v@),
                None => dict_get(self@.frames[env as int].data, sym@) is None,
            },
            match r.1 {
                Some(o) => self@.frames[env as int].outer == Some(o as nat),
                None => self@.frames[env as int].outer is None,
            },
    {
        assert(self@.frames[env as int] == self.envs@[env as int]@);
        let frame = &self.envs[env];
        let found = match frame.data.get(sym) {
            Some(v) => Some(v.clone()),
            None => None,
        };
        (found, frame.outer)
    }

    /// The value of `sym` as seen from the frame `env`.
    pub fn lookup(&self, env: Env, sym: &str) -> (r: Option<MalType>)
        ensures
            match r {
                Some(v) => self@.lookup(env as nat, sym@) == Some(v@),
                None => self@.lookup(env as nat, sym@) is None,
            },
    {
        let mut cur: usize = env;
        loop
            invariant
                self@.lookup(env as nat, sym@) == self@.lookup(cur as nat, sym@),
            decreases cur,
        {
            if cur >= self.envs.len() {
                return None;
            }
            let (found, outer) = self.probe(cur, sym);
            match found {
                Some(v) => {
                    return Some(v);
                },
                None => {},
            }
            match outer {
                Some(o) => {
                    if o < cur {
                        cur = o;
                    } else {
                        return None;
                    }
                },
                None => {
                    return None;
                },
            }
        }
    }

    /// The outermost frame around `env`.
    pub fn root_of(&self, env: Env) -> (r: Env)
        ensures
            r == self@.root_of(env as nat),
    {
        let mut cur: usize = env;
        loop
            invariant
                self@.root_of(env as nat) == self@.root_of(cur as nat),
            decreases cur,
        {
            if cur >= self.envs.len() {
                return cur;
            }
            assert(self@.frames[cur as int] == self.envs@[cur as int]@);
            match self.envs[cur].outer {
                Some(o) => {
                    if o < cur {
                        cur = o;
                    } else {
                        return cur;
                    }
                },
                None => {
                    return cur;
                },
            }
        }
    }

    /// Adds an atom that holds `v`, and gives its handle.
    pub fn add_atom(&mut self, v: MalType) -> (a: usize)
        ensures
            a == old(self)@.atoms.len(),
            final(self)@ == old(self)@.with_atom(v@),
    {
        let a = self.atoms.len();
        self.atoms.push(v);
        assert(self@.atoms =~= old(self)@.atoms.push(v@));
        a
    }

    /// What the atom `a` holds.
    pub fn atom(&self, a: usize) -> (r: Option<MalType>)
        ensures
            match r {
                Some(v) => a < self@.atoms.len() && v@ == self@.atoms[a as int],
                None => a >= self@.atoms.len(),
            },
    {
        if a < self.atoms.len() {
            assert(self@.atoms[a as int] == self.atoms@[a as int]@);
            Some(self.atoms[a].clone())
        } else {
            None
        }
    }

    /// Gives the atom `a` the content `v`; tells whether there is such an
    /// atom.
    pub fn set_atom(&mut self, a: usize, v: MalType) -> (found: bool)
        ensures
            found == (a < old(self)@.atoms.len()),
            final(self)@ == old(self)@.set_atom(a as nat, v@),
    {
        if a < self.atoms.len() {
            self.atoms[a] = v;
            assert(self@.atoms =~= old(self)@.atoms.update(a as int, v@));
            true
        } else {
            false
        }
    }

    /// Adds `text` to the printed output.
    pub fn print(&mut self, text: String)
        ensures
            final(self)@ == old(self)@.printed(text@),
    {
        self.output.push(text);
        assert(self@.output =~= old(self)@.output.push(text@));
    }

    /// Takes the printed output away, leaving none.
    pub fn take_output(&mut self) -> (out: Vec<String>)
        ensures
            texts_of(out@) == old(self)@.output,
            final(self)@ == (World { output: Seq::empty(), ..old(self)@ }),
    {
        let mut out: Vec<String> = Vec::new();
        std::mem::swap(&mut out, &mut self.output);
        assert(self@.output =~= Seq::empty());
        out
    }

    /// Why evaluation has stopped, if it has.
    pub fn halt(&self) -> (h: Option<Halt>)
        ensures
            match h {
                Some(x) => self@.halt == Some(x@),
                None => self@.halt is None,
            },
    {
        match &self.halt {
            Some(h) => Some(h.clone()),
            None => None,
        }
    }

    /// Whether evaluation has stopped.
    pub fn is_halted(&self) -> (b: bool)
        ensures
            b == self@.halt is Some,
    {
        self.halt.is_some()
    }

    /// Stops evaluation for the reason `h`.
    pub fn stop(&mut self, h: Halt)
        ensures
            final(self)@ == old(self)@.halted(h@),
    {
        self.halt = Some(h);
    }

    /// Lets evaluation go on after a stop.
    pub fn resume(&mut self)
        ensures
            final(self)@ == (World { halt: None, ..old(self)@ }),
    {
        self.halt = None;
    }

    /// Records the content of the file `name`, or that it cannot be read.
    pub fn provide_file(&mut self, name: &str, content: Option<String>)
        ensures
            final(self)@ == (World {
                files: dict_put(old(self)@.files, name@, text_option(content)),
                ..old(self)@
            }),
    {
        put_named(&mut self.files, name, content);
    }

    /// Records the value of the environment variable `name`, or that it is
    /// not set.
    pub fn provide_var(&mut self, name: &str, value: Option<String>)
        ensures
            final(self)@ == (World {
                vars: dict_put(old(self)@.vars, name@, text_option(value)),
                ..old(self)@
            }),
    {
        put_named(&mut self.vars, name, value);
    }

    /// Adds one line of input.
    pub fn provide_line(&mut self, line: String)
        ensures
            final(self)@ == (World { lines: old(self)@.lines.push(line@), ..old(self)@ }),
    {
        self.lines.push(line);
        assert(self@.lines =~= old(self)@.lines.push(line@));
    }

    /// What the host has said of the file `name`: nothing yet, that it
    /// cannot be read, or its content.
    pub fn file(&self, name: &str) -> (r: Option<Option<String>>)
        ensures
            match r {
                Some(c) => dict_get(self@.files, name@) == Some(text_option(c)),
                None => dict_get(self@.files, name@) is None,
            },
    {
        match find_named(&self.files, name) {
            Some(i) => {
                assert(table_of(self.files@)[i as int].1 == text_option(self.files@[i as int].1));
                Some(clone_text_option(&self.files[i].1))
            },
            None => None,
        }
    }

    /// What the host has said of the environment variable `name`.
    pub fn var(&self, name: &str) -> (r: Option<Option<String>>)
        ensures
            match r {
                Some(c) => dict_get(self@.vars, name@) == Some(text_option(c)),
                None => dict_get(self@.vars, name@) is None,
            },
    {
        match find_named(&self.vars, name) {
            Some(i) => {
                assert(table_of(self.vars@)[i as int].1 == text_option(self.vars@[i as int].1));
                Some(clone_text_option(&self.vars[i].1))
            },
            None => None,
        }
    }

    /// The next line of input, if one is left; it is then read.
    pub fn take_line(&mut self) -> (r: Option<String>)
        ensures
            match r {
                Some(l) => old(self)@.lines_read < old(self)@.lines.len() && l@ == old(
                    self,
                )@.lines[old(self)@.lines_read as int] && final(self)@ == old(self)@.line_taken(),
                None => old(self)@.lines_read >= old(self)@.lines.len() && final(self)@ == old(
                    self,
                )@,
            },
    {
        if self.lines_read < self.lines.len() {
            let l = self.lines[self.lines_read].clone();
            self.lines_read = self.lines_read + 1;
            Some(l)
        } else {
            None
        }
    }
}

/// The order of texts: character by character, a proper prefix first.
pub open spec fn text_le(a: Seq<char>, b: Seq<char>) -> bool
    decreases a.len(),
{
    if a.len() == 0 {
        true
    } else if b.len() == 0 {
        false
    } else if a[0] != b[0] {
        (a[0] as int) < (b[0] as int)
    } else {
        text_le(a.skip(1), b.skip(1))
    }
}

/// The order of texts as a relation.
pub open spec fn text_order() -> spec_fn(Seq<char>, Seq<char>) -> bool {
    |a: Seq<char>, b: Seq<char>| text_le(a, b)
}

/// The keys of the entries, in their order.
pub open spec fn keys_of(d: Seq<(Seq<char>, Value)>) -> Seq<Seq<char>> {
    Seq::new(d.len(), |i: int| d[i].0)
}

/// The keys of the entries in ascending order.
pub open spec fn sorted_keys(d: Seq<(Seq<char>, Value)>) -> Seq<Seq<char>> {
    keys_of(d).sort_by(text_order())
}

proof fn lemma_text_le_reflexive(a: Seq<char>)
    ensures
        text_le(a, a),
    decreases a.len(),
{
    if a.len() > 0 {
        lemma_text_le_reflexive(a.skip(1));
    }
}

proof fn lemma_text_le_antisymmetric(a: Seq<char>, b: Seq<char>)
    requires
        text_le(a, b),
        text_le(b, a),
    ensures
        a == b,
    decreases a.len(),
{
    if a.len() == 0 {
        assert(a =~= b);
    } else {
        lemma_text_le_antisymmetric(a.skip(1), b.skip(1));
        assert(a =~= seq![a[0]] + a.skip(1));
        assert(b =~= seq![b[0]] + b.skip(1));
    }
}

proof fn lemma_text_le_transitive(a: Seq<char>, b: Seq<char>, c: Seq<char>)
    requires
        text_le(a, b),
        text_le(b, c),
    ensures
        text_le(a, c),
    decreases a.len(),
{
    if a.len() > 0 && a[0] == b[0] && b[0] == c[0] {
        lemma_text_le_transitive(a.skip(1), b.skip(1), c.skip(1));
    }
}

proof fn lemma_text_le_connected(a: Seq<char>, b: Seq<char>)
    ensures
        text_le(a, b) || text_le(b, a),
    decreases a.len(),
{
    if a.len() > 0 && b.len() > 0 && a[0] == b[0] {
        lemma_text_le_connected(a.skip(1), b.skip(1));
    }
}

/// Where no name is bound twice, no name stands twice among the sorted
/// names.
pub proof fn lemma_sorted_keys_once(d: Seq<(Seq<char>, Value)>)
    requires
        distinct_keys(d),
    ensures
        sorted_keys(d).no_duplicates(),
{
    let names = keys_of(d);
    assert(names.no_duplicates()) by {
        assert forall|i: int, j: int| 0 <= i < names.len() && 0 <= j < names.len() && i
            != j implies names[i] != names[j] by {
            if i < j {
                assert(d[i].0 != d[j].0);
            } else {
                assert(d[j].0 != d[i].0);
            }
        }
    }
    lemma_text_order_total();
    names.lemma_sort_by_ensures(text_order());
    names.lemma_multiset_has_no_duplicates();
    sorted_keys(d).lemma_multiset_has_no_duplicates_conv();
}

/// The order of texts is a total order.
pub proof fn lemma_text_order_total()
    ensures
        total_ordering(text_order()),
{
    let r = text_order();
    assert forall|a: Seq<char>| #[trigger] r(a, a) by {
        lemma_text_le_reflexive(a);
    }
    assert forall|a: Seq<char>, b: Seq<char>| #[trigger] r(a, b) && #[trigger] r(b, a) implies a
        == b by {
        lemma_text_le_antisymmetric(a, b);
    }
    assert forall|a: Seq<char>, b: Seq<char>, c: Seq<char>| #[trigger]
        r(a, b) && #[trigger] r(b, c) implies r(a, c) by {
        lemma_text_le_transitive(a, b, c);
    }
    assert forall|a: Seq<char>, b: Seq<char>| #[trigger] r(a, b) || #[trigger] r(b, a) by {
        lemma_text_le_connected(a, b);
    }
}

/// `sort_unstable` on strings: afterwards the vector holds the same strings
/// as before, in ascending order (strings compare by their bytes, which is
/// the order of their characters).
#[verifier::external_body]
fn sort_texts(v: &mut Vec<String>)
    ensures
        texts_of(final(v)@).to_multiset() == texts_of(old(v)@).to_multiset(),
        sorted_by(texts_of(final(v)@), text_order()),
{
    v.sort_unstable();
}

impl EnvType {
    /// The names bound in this frame, in ascending order.
    pub fn keys(&self) -> (r: Vec<String>)
        ensures
            texts_of(r@) == sorted_keys(self@.data),
            texts_of(r@).no_duplicates(),
    {
        let entries = self.data.entries();
        let mut keys: Vec<String> = Vec::new();
        let mut i: usize = 0;
        while i < entries.len()
            invariant
                i <= entries.len(),
                keys@.len() == i,
                forall|j: int| 0 <= j < i ==> keys@[j]@ == entries@[j].0@,
            decreases entries.len() - i,
        {
            keys.push(entries[i].0.clone());
            i += 1;
        }
        assert(texts_of(keys@) =~= keys_of(self@.data));
        sort_texts(&mut keys);
        proof {
            lemma_text_order_total();
            keys_of(self@.data).lemma_sort_by_ensures(text_order());
            lemma_sorted_unique(texts_of(keys@), sorted_keys(self@.data), text_order());
            lemma_sorted_keys_once(self@.data);
        }
        keys
    }
}

impl Runtime {
    /// The names bound in the frame `env` itself, in ascending order (none
    /// when there is no such frame).
    pub fn keys(&self, env: Env) -> (r: Vec<String>)
        ensures
            texts_of(r@) == self@.keys(env as nat),
            texts_of(r@).no_duplicates(),
    {
        if env < self.envs.len() {
            assert(self@.frames[env as int] == self.envs@[env as int]@);
            self.envs[env].keys()
        } else {
            let r: Vec<String> = Vec::new();
            assert(texts_of(r@) =~= Seq::empty());
            r
        }
    }
}

/// A new, empty frame inside `outer`.
pub fn env_new(rt: &mut Runtime, outer: Option<Env>) -> (e: Env)
    ensures
        e == old(rt)@.frames.len(),
        final(rt)@ == old(rt)@.with_frame(
            FrameView {
                data: Seq::empty(),
                outer: match outer {
                    Some(o) => Some(o as nat),
                    None => None,
                },
            },
        ),
{
    rt.add_frame(MalMap::new(), outer)
}

/// Binds `sym` to a copy of `val` in the frame `env` itself, whatever the
/// frames around it bind.
pub fn env_set(rt: &mut Runtime, env: Env, sym: &str, val: &MalType)
    ensures
        final(rt)@ == old(rt)@.define(env as nat, sym@, val@),
{
    rt.define(env, sym, val.clone());
}

/// The value of `sym` as seen from `env`; an unrecoverable error when no
/// frame from `env` outwards binds it.
pub fn env_get(rt: &Runtime, env: Env, sym: &str) -> (r: MalRet)
    ensures
        match r {
            Ok(v) => rt@.lookup(env as nat, sym@) == Some(v@),
            Err(e) => rt@.lookup(env as nat, sym@) is None && e.level() == Severity::Unrecoverable,
        },
{
    match rt.lookup(env, sym) {
        Some(v) => Ok(v),
        None => {
            let mut m = "symbol \"".to_owned();
            m.append(sym);
            m.append("\" not defined");
            Err(MalErr::new(m, Severity::Unrecoverable))
        },
    }
}

/// The outermost frame around `env`.
pub fn outermost(rt: &Runtime, env: Env) -> (r: Env)
    ensures
        r == rt@.root_of(env as nat),
{
    rt.root_of(env)
}

/// The bindings of the first `n` parameters: each symbol is bound to the
/// argument at its position, or to nil where the arguments have run out;
/// `None` when one of them is no symbol.
pub open spec fn bound_entries(params: Seq<Value>, args: Seq<Value>, n: nat) -> Option<
    Seq<(Seq<char>, Value)>,
>
    decreases n,
{
    if n == 0 {
        Some(Seq::empty())
    } else {
        match (bound_entries(params, args, (n - 1) as nat), params[n - 1]) {
            (Some(d), Value::Sym(s)) => Some(
                dict_put(
                    d,
                    s,
                    if n - 1 < args.len() {
                        args[n - 1]
                    } else {
                        Value::Nil
                    },
                ),
            ),
            _ => None,
        }
    }
}

/// The frame that a call binds: `binds` must be a list or vector of
/// symbols, at least as many as there are arguments.
pub open spec fn call_frame(outer: nat, binds: Value, args: Seq<Value>) -> Option<FrameView> {
    match items_of(binds) {
        Some(params) => if params.len() < args.len() {
            None
        } else {
            match bound_entries(params, args, params.len()) {
                Some(d) => Some(FrameView { data: d, outer: Some(outer) }),
                None => None,
            }
        },
        None => None,
    }
}

/// Once a prefix of the parameters cannot be bound, no longer prefix can.
pub proof fn lemma_bound_entries_none(params: Seq<Value>, args: Seq<Value>, n: nat, m: nat)
    requires
        n <= m,
        bound_entries(params, args, n) is None,
    ensures
        bound_entries(params, args, m) is None,
    decreases m,
{
    if n < m {
        lemma_bound_entries_none(params, args, n, (m - 1) as nat);
    }
}

/// A new frame inside `outer` that binds the parameters `binds` to the
/// arguments `exprs`, missing arguments being nil. On failure nothing
/// changes.
pub fn env_binds(rt: &mut Runtime, outer: Env, binds: &MalType, exprs: &[MalType]) -> (r: Result<
    Env,
    MalErr,
>)
    ensures
        match r {
            Ok(e) => call_frame(outer as nat, binds@, models_of(exprs@)) matches Some(f)
                && final(rt)@ == old(rt)@.with_frame(f) && e == old(rt)@.frames.len(),
            Err(e) => call_frame(outer as nat, binds@, models_of(exprs@)) is None && final(rt)@
                == old(rt)@ && e.level() == Severity::Unrecoverable,
        },
{
    let params = match binds.if_list() {
        Ok(p) => p,
        Err(e) => {
            return Err(e);
        },
    };
    let binl: usize = params.len();
    let expl: usize = exprs.len();
    if binl < expl {
        return Err(MalErr::unrecoverable("More arguments than parameters"));
    }
    let ghost ps = models_of(params@);
    let ghost xs = models_of(exprs@);
    let mut data = MalMap::new();
    let mut i: usize = 0;
    while i < binl
        invariant
            i <= binl == params@.len(),
            expl == exprs@.len(),
            ps == models_of(params@),
            xs == models_of(exprs@),
            items_of(binds@) == Some(ps),
            *rt == *old(rt),
            bound_entries(ps, xs, i as nat) == Some(data@),
        decreases binl - i,
    {
        assert(ps[i as int] == params@[i as int]@);
        match &params[i] {
            MalType::Sym(s) => {
                if i < expl {
                    assert(xs[i as int] == exprs@[i as int]@);
                    data = data.with(s.as_str(), exprs[i].clone());
                } else {
                    data = data.with(s.as_str(), MalType::Nil);
                }
            },
            _ => {
                proof {
                    assert(!(params@[i as int]@ is Sym));
                    assert(bound_entries(ps, xs, (i + 1) as nat) is None);
                    lemma_bound_entries_none(ps, xs, (i + 1) as nat, binl as nat);
                }
                return Err(crate::value::complaint(&params[i], " is not a symbol"));
            },
        }
        i += 1;
    }
    Ok(rt.add_frame(data, Some(outer)))
}

} // verus!
