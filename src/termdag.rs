//! Lowering of an extracted term DAG (terms that share subterms by index) to
//! structural Verilog, with registers clocked by a term of the DAG.
use vstd::prelude::*;
use crate::text::{int_text, nat_text, push_int, push_nat, str_eq};
use crate::walk::{
    count_false, covered, edges_valid, frontier, lemma_count_false_set, lemma_frontier_pop_marked,
    lemma_frontier_visit, lemma_marked_is_reached, lemma_path_step, lemma_root_reaches,
    push_unmarked, reaches,
};

verus! {

/// A term: an integer or string literal, a literal of another kind, a
/// variable, or an operator applied to the terms at the given indices.
pub enum Term {
    Int(i64),
    Str(String),
    OtherLit,
    Var(String),
    App(String, Vec<usize>),
}

/// Terms that refer to each other by index.
pub struct TermDag {
    pub terms: Vec<Term>,
}

impl TermDag {
    /// Every child index points into the DAG.
    pub open spec fn wf(&self) -> bool {
        forall|i: int, k: int|
            0 <= i < self.terms@.len() && self.terms@[i] is App && 0 <= k
                < self.terms@[i]->App_1@.len() ==> #[trigger] self.terms@[i]->App_1@[k]
                < self.terms@.len()
    }

    /// Checks [`TermDag::wf`].
    pub fn is_well_formed(&self) -> (r: bool)
        ensures
            r == self.wf(),
    {
        let n = self.terms.len();
        let mut i: usize = 0;
        while i < n
            invariant
                n == self.terms@.len(),
                i <= n,
                forall|j: int, k: int|
                    0 <= j < i && self.terms@[j] is App && 0 <= k < self.terms@[j]->App_1@.len()
                        ==> #[trigger] self.terms@[j]->App_1@[k] < n,
            decreases n - i,
        {
            match &self.terms[i] {
                Term::App(_, v) => {
                    let mut k: usize = 0;
                    while k < v.len()
                        invariant
                            n == self.terms@.len(),
                            i < n,
                            self.terms@[i as int] is App,
                            *v == self.terms@[i as int]->App_1,
                            k <= v@.len(),
                            forall|m: int| 0 <= m < k ==> #[trigger] v@[m] < n,
                        decreases v@.len() - k,
                    {
                        if v[k] >= n {
                            return false;
                        }
                        k = k + 1;
                    }
                },
                _ => {},
            }
            i = i + 1;
        }
        true
    }
}

/// What a term lowers to.
pub enum TermDef {
    /// An integer literal, as a 32-bit wire.
    Literal(i64),
    /// A register with its initial value, clock term and data term.
    Register { init: i64, clk: usize, d: usize },
    /// An input port with its name and width.
    Input { name: String, width: i64 },
    /// A constant of the given value and width.
    Const { val: i64, width: i64 },
    /// Bits `hi` down to `lo` of term `arg`.
    Slice { hi: i64, lo: i64, arg: usize },
    /// The concatenation of two terms.
    Concat { lhs: usize, rhs: usize },
    /// Term `arg` extended with `width` zero bits.
    Zext { arg: usize, width: i64 },
    /// A four-input lookup table reading term `arg`.
    Lut { arg: usize },
}

/// The lowering of term `id`.
pub struct TermDecl {
    pub id: usize,
    pub def: TermDef,
}

/// [`TermDef`] with texts as character sequences, or what stops lowering.
pub enum TermShape {
    Skip,
    Literal(i64),
    Register { init: i64, clk: usize, d: usize },
    Input { name: Seq<char>, width: i64 },
    Const { val: i64, width: i64 },
    Slice { hi: i64, lo: i64, arg: usize },
    Concat { lhs: usize, rhs: usize },
    Zext { arg: usize, width: i64 },
    Lut { arg: usize },
    Unsupported,
    BadLiteral,
}

impl TermShape {
    pub open spec fn is_error(self) -> bool {
        self is Unsupported || self is BadLiteral
    }

    pub open spec fn declares(self) -> bool {
        !(self is Skip) && !self.is_error()
    }

    /// The terms whose wires this one reads, in the order they are visited.
    pub open spec fn edges(self) -> Seq<usize> {
        match self {
            TermShape::Register { clk, d, .. } => seq![d, clk],
            TermShape::Slice { arg, .. } => seq![arg],
            TermShape::Concat { lhs, rhs } => seq![lhs, rhs],
            TermShape::Zext { arg, .. } => seq![arg],
            TermShape::Lut { arg } => seq![arg],
            _ => Seq::empty(),
        }
    }
}

impl TermDef {
    pub open spec fn view(&self) -> TermShape {
        match self {
            TermDef::Literal(v) => TermShape::Literal(*v),
            TermDef::Register { init, clk, d } => TermShape::Register {
                init: *init,
                clk: *clk,
                d: *d,
            },
            TermDef::Input { name, width } => TermShape::Input { name: name@, width: *width },
            TermDef::Const { val, width } => TermShape::Const { val: *val, width: *width },
            TermDef::Slice { hi, lo, arg } => TermShape::Slice { hi: *hi, lo: *lo, arg: *arg },
            TermDef::Concat { lhs, rhs } => TermShape::Concat { lhs: *lhs, rhs: *rhs },
            TermDef::Zext { arg, width } => TermShape::Zext { arg: *arg, width: *width },
            TermDef::Lut { arg } => TermShape::Lut { arg: *arg },
        }
    }
}

/// Why lowering a term DAG stopped.
#[derive(Debug, PartialEq, Eq, Structural)]
pub enum TermError {
    /// Term `term` is outside the vocabulary.
    Unsupported { term: usize },
    /// A literal under term `term` is not of the kind expected.
    MalformedLiteral { term: usize },
}

impl TermError {
    pub open spec fn term(self) -> usize {
        match self {
            TermError::Unsupported { term } => term,
            TermError::MalformedLiteral { term } => term,
        }
    }

    pub open spec fn describes(self, s: TermShape) -> bool {
        match self {
            TermError::Unsupported { .. } => s is Unsupported,
            TermError::MalformedLiteral { .. } => s is BadLiteral,
        }
    }
}

pub open spec fn int_at(dag: &TermDag, i: usize) -> Option<i64> {
    match dag.terms@[i as int] {
        Term::Int(v) => Some(v),
        _ => None,
    }
}

pub open spec fn str_at(dag: &TermDag, i: usize) -> Option<Seq<char>> {
    match dag.terms@[i as int] {
        Term::Str(s) => Some(s@),
        _ => None,
    }
}

/// Term `i` is the operator `LUT4` applied to nothing.
pub open spec fn is_lut4(dag: &TermDag, i: usize) -> bool {
    dag.terms@[i as int] is App && dag.terms@[i as int]->App_0@ == "LUT4"@
        && dag.terms@[i as int]->App_1@.len() == 0
}

/// Meaning of operator `s` applied to the terms `v`.
pub open spec fn app_shape(dag: &TermDag, s: Seq<char>, v: Seq<usize>) -> TermShape {
    if s == "Reg"@ && v.len() == 3 {
        match int_at(dag, v[0]) {
            Some(init) => TermShape::Register { init, clk: v[1], d: v[2] },
            None => TermShape::BadLiteral,
        }
    } else if s == "Var"@ && v.len() == 2 {
        match (str_at(dag, v[0]), int_at(dag, v[1])) {
            (Some(name), Some(width)) => TermShape::Input { name, width },
            _ => TermShape::BadLiteral,
        }
    } else if ((s == "Mux"@ || s == "LUT4"@ || s == "Or"@ || s == "Eq"@) && v.len() == 0) || (s
        == "Bitvector"@ && v.len() == 1) {
        TermShape::Skip
    } else if s == "BV"@ && v.len() == 2 {
        match (int_at(dag, v[0]), int_at(dag, v[1])) {
            (Some(val), Some(width)) => TermShape::Const { val, width },
            _ => TermShape::BadLiteral,
        }
    } else if s == "Extract"@ && v.len() == 3 {
        match (int_at(dag, v[0]), int_at(dag, v[1])) {
            (Some(hi), Some(lo)) => TermShape::Slice { hi, lo, arg: v[2] },
            _ => TermShape::BadLiteral,
        }
    } else if s == "Concat"@ && v.len() == 2 {
        TermShape::Concat { lhs: v[0], rhs: v[1] }
    } else if s == "ZeroExtend"@ && v.len() == 2 {
        match int_at(dag, v[1]) {
            Some(width) => TermShape::Zext { arg: v[0], width },
            None => TermShape::BadLiteral,
        }
    } else if s == "Sketch1"@ && v.len() == 2 && is_lut4(dag, v[0]) {
        TermShape::Lut { arg: v[1] }
    } else {
        TermShape::Unsupported
    }
}

/// Meaning of term `i`.
pub open spec fn term_shape(dag: &TermDag, i: usize) -> TermShape {
    match dag.terms@[i as int] {
        Term::Str(_) => TermShape::Skip,
        Term::Int(v) => TermShape::Literal(v),
        Term::OtherLit => TermShape::Unsupported,
        Term::Var(_) => TermShape::Unsupported,
        Term::App(s, v) => app_shape(dag, s@, v@),
    }
}

/// The terms that each term reads.
pub open spec fn term_edges(dag: &TermDag) -> spec_fn(usize) -> Seq<usize> {
    |i: usize| term_shape(dag, i).edges()
}

proof fn lemma_term_edges_valid(dag: &TermDag)
    requires
        dag.wf(),
    ensures
        edges_valid(term_edges(dag), dag.terms@.len()),
{
    assert forall|c: usize, j: int|
        c < dag.terms@.len() && 0 <= j < term_edges(dag)(c).len() implies #[trigger] term_edges(
        dag,
    )(c)[j] < dag.terms@.len() by {
        match dag.terms@[c as int] {
            Term::App(_, v) => {
                assert(forall|k: int| 0 <= k < v@.len() ==> #[trigger] v@[k] < dag.terms@.len());
            },
            _ => {},
        }
    }
}

fn int_of(dag: &TermDag, i: usize) -> (r: Option<i64>)
    requires
        i < dag.terms@.len(),
    ensures
        r == int_at(dag, i),
{
    match &dag.terms[i] {
        Term::Int(v) => Some(*v),
        _ => None,
    }
}

fn str_of(dag: &TermDag, i: usize) -> (r: Option<String>)
    requires
        i < dag.terms@.len(),
    ensures
        match r {
            Some(s) => str_at(dag, i) == Some(s@),
            None => str_at(dag, i) is None,
        },
{
    match &dag.terms[i] {
        Term::Str(s) => Some(String::from_str(s.as_str())),
        _ => None,
    }
}

fn decode_app(dag: &TermDag, s: &str, v: &Vec<usize>) -> (r: Result<Option<TermDef>, TermShape>)
    requires
        forall|k: int| 0 <= k < v@.len() ==> #[trigger] v@[k] < dag.terms@.len(),
    ensures
        match r {
            Ok(Some(d)) => app_shape(dag, s@, v@) == d@,
            Ok(None) => app_shape(dag, s@, v@) is Skip,
            Err(e) => app_shape(dag, s@, v@) == e && e.is_error(),
        },
{
    if str_eq(s, "Reg") && v.len() == 3 {
        match int_of(dag, v[0]) {
            Some(init) => Ok(Some(TermDef::Register { init, clk: v[1], d: v[2] })),
            None => Err(TermShape::BadLiteral),
        }
    } else if str_eq(s, "Var") && v.len() == 2 {
        match (str_of(dag, v[0]), int_of(dag, v[1])) {
            (Some(name), Some(width)) => Ok(Some(TermDef::Input { name, width })),
            _ => Err(TermShape::BadLiteral),
        }
    } else if ((str_eq(s, "Mux") || str_eq(s, "LUT4") || str_eq(s, "Or") || str_eq(s, "Eq"))
        && v.len() == 0) || (str_eq(s, "Bitvector") && v.len() == 1) {
        Ok(None)
    } else if str_eq(s, "BV") && v.len() == 2 {
        match (int_of(dag, v[0]), int_of(dag, v[1])) {
            (Some(val), Some(width)) => Ok(Some(TermDef::Const { val, width })),
            _ => Err(TermShape::BadLiteral),
        }
    } else if str_eq(s, "Extract") && v.len() == 3 {
        match (int_of(dag, v[0]), int_of(dag, v[1])) {
            (Some(hi), Some(lo)) => Ok(Some(TermDef::Slice { hi, lo, arg: v[2] })),
            _ => Err(TermShape::BadLiteral),
        }
    } else if str_eq(s, "Concat") && v.len() == 2 {
        Ok(Some(TermDef::Concat { lhs: v[0], rhs: v[1] }))
    } else if str_eq(s, "ZeroExtend") && v.len() == 2 {
        match int_of(dag, v[1]) {
            Some(width) => Ok(Some(TermDef::Zext { arg: v[0], width })),
            None => Err(TermShape::BadLiteral),
        }
    } else if str_eq(s, "Sketch1") && v.len() == 2 && is_lut4_exec(dag, v[0]) {
        Ok(Some(TermDef::Lut { arg: v[1] }))
    } else {
        Err(TermShape::Unsupported)
    }
}

fn is_lut4_exec(dag: &TermDag, i: usize) -> (r: bool)
    requires
        i < dag.terms@.len(),
    ensures
        r == is_lut4(dag, i),
{
    match &dag.terms[i] {
        Term::App(s, v) => str_eq(s.as_str(), "LUT4") && v.len() == 0,
        _ => false,
    }
}

/// Decodes term `i`: what it lowers to, nothing, or the shape that stops
/// lowering.
fn decode_term(dag: &TermDag, i: usize) -> (r: Result<Option<TermDef>, TermShape>)
    requires
        dag.wf(),
        i < dag.terms@.len(),
    ensures
        match r {
            Ok(Some(d)) => term_shape(dag, i) == d@,
            Ok(None) => term_shape(dag, i) is Skip,
            Err(e) => term_shape(dag, i) == e && e.is_error(),
        },
{
    match &dag.terms[i] {
        Term::Str(_) => Ok(None),
        Term::Int(v) => Ok(Some(TermDef::Literal(*v))),
        Term::OtherLit => Err(TermShape::Unsupported),
        Term::Var(_) => Err(TermShape::Unsupported),
        Term::App(s, v) => {
            assert(forall|k: int| 0 <= k < v@.len() ==> #[trigger] v@[k] < dag.terms@.len());
            decode_app(dag, s.as_str(), v)
        },
    }
}

fn def_edges(d: &TermDef) -> (r: Vec<usize>)
    ensures
        r@ == d@.edges(),
{
    let mut r: Vec<usize> = Vec::new();
    match d {
        TermDef::Register { clk, d, .. } => {
            r.push(*d);
            r.push(*clk);
        },
        TermDef::Slice { arg, .. } => {
            r.push(*arg);
        },
        TermDef::Concat { lhs, rhs } => {
            r.push(*lhs);
            r.push(*rhs);
        },
        TermDef::Zext { arg, .. } => {
            r.push(*arg);
        },
        TermDef::Lut { arg } => {
            r.push(*arg);
        },
        _ => {},
    }
    assert(r@ =~= d@.edges());
    r
}

/// The declarations for the terms marked in `done`: one for each that
/// declares, none twice.
pub open spec fn decls_partial(dag: &TermDag, done: Seq<bool>, ds: Seq<TermDecl>) -> bool {
    let n = dag.terms@.len();
    &&& forall|i: int|
        0 <= i < ds.len() ==> {
            let t = #[trigger] ds[i].id;
            t < n && done[t as int] && term_shape(dag, t) == ds[i].def@
        }
    &&& forall|t: usize|
        t < n && done[t as int] && #[trigger] term_shape(dag, t).declares() ==> exists|i: int|
            0 <= i < ds.len() && #[trigger] ds[i].id == t
    &&& forall|i: int, j: int| 0 <= i < j < ds.len() ==> #[trigger] ds[i].id != #[trigger] ds[j].id
}

/// `ds` lowers exactly the terms reached from `roots`, each once.
pub open spec fn term_lowers(dag: &TermDag, roots: Set<usize>, ds: Seq<TermDecl>) -> bool {
    let n = dag.terms@.len();
    &&& forall|i: int|
        0 <= i < ds.len() ==> {
            let t = #[trigger] ds[i].id;
            t < n && reaches(term_edges(dag), roots, t) && term_shape(dag, t) == ds[i].def@
        }
    &&& forall|t: usize|
        t < n && reaches(term_edges(dag), roots, t) && #[trigger] term_shape(dag, t).declares()
            ==> exists|i: int| 0 <= i < ds.len() && #[trigger] ds[i].id == t
    &&& forall|i: int, j: int| 0 <= i < j < ds.len() ==> #[trigger] ds[i].id != #[trigger] ds[j].id
}

proof fn lemma_decls_push(dag: &TermDag, done: Seq<bool>, ds: Seq<TermDecl>, d: TermDecl)
    requires
        decls_partial(dag, done, ds),
        done.len() == dag.terms@.len(),
        d.id < done.len(),
        !done[d.id as int],
        term_shape(dag, d.id) == d.def@,
    ensures
        decls_partial(dag, done.update(d.id as int, true), ds.push(d)),
{
    let d2 = done.update(d.id as int, true);
    let ds2 = ds.push(d);
    assert forall|t: usize|
        t < dag.terms@.len() && d2[t as int] && #[trigger] term_shape(dag, t).declares() implies exists|
        i: int,
    | 0 <= i < ds2.len() && #[trigger] ds2[i].id == t by {
        if t == d.id {
            assert(ds2[ds.len() as int].id == t);
        } else {
            let i = choose|i: int| 0 <= i < ds.len() && #[trigger] ds[i].id == t;
            assert(ds2[i].id == t);
        }
    }
    assert forall|i: int, j: int| 0 <= i < j < ds2.len() implies #[trigger] ds2[i].id
        != #[trigger] ds2[j].id by {
        if j == ds.len() {
            assert(ds[i].id < done.len() && done[ds[i].id as int]);
        }
    }
}

proof fn lemma_decls_keep(dag: &TermDag, done: Seq<bool>, ds: Seq<TermDecl>, t: usize)
    requires
        decls_partial(dag, done, ds),
        done.len() == dag.terms@.len(),
        t < done.len(),
        !term_shape(dag, t).declares(),
    ensures
        decls_partial(dag, done.update(t as int, true), ds),
{
    let d2 = done.update(t as int, true);
    assert forall|x: usize|
        x < dag.terms@.len() && d2[x as int] && #[trigger] term_shape(dag, x).declares() implies exists|
        i: int,
    | 0 <= i < ds.len() && #[trigger] ds[i].id == x by {
        assert(done[x as int]);
    }
    assert forall|i: int| 0 <= i < ds.len() implies d2[#[trigger] ds[i].id as int] by {
        assert(done[ds[i].id as int]);
    }
}

struct TermWalk {
    done: Vec<bool>,
    remaining: usize,
    stack: Vec<usize>,
    decls: Vec<TermDecl>,
}

impl TermWalk {
    spec fn inv(&self, dag: &TermDag, roots: Seq<usize>) -> bool {
        let n = dag.terms@.len();
        let rs = roots.to_set();
        &&& dag.wf()
        &&& forall|k: int| 0 <= k < roots.len() ==> #[trigger] roots[k] < n
        &&& self.done@.len() == n
        &&& self.remaining == count_false(self.done@)
        &&& forall|i: int|
            0 <= i < self.stack@.len() ==> #[trigger] self.stack@[i] < n && reaches(
                term_edges(dag),
                rs,
                self.stack@[i],
            )
        &&& forall|c: int|
            0 <= c < n && #[trigger] self.done@[c] ==> reaches(term_edges(dag), rs, c as usize)
                && !term_shape(dag, c as usize).is_error()
        &&& frontier(term_edges(dag), roots, self.done@, self.stack@)
        &&& decls_partial(dag, self.done@, self.decls@)
    }

    fn step(&mut self, dag: &TermDag, roots: Ghost<Seq<usize>>) -> (r: Result<(), TermError>)
        requires
            old(self).inv(dag, roots@),
            old(self).stack@.len() > 0,
        ensures
            r is Ok ==> final(self).inv(dag, roots@),
            r is Ok ==> final(self).remaining < old(self).remaining || (final(self).remaining
                == old(self).remaining && final(self).stack@.len() < old(self).stack@.len()),
            r matches Err(e) ==> e.term() < dag.terms@.len() && reaches(
                term_edges(dag),
                roots@.to_set(),
                e.term(),
            ) && e.describes(term_shape(dag, e.term())),
    {
        let ghost rs = roots@.to_set();
        let ghost old_stack = self.stack@;
        let ghost d0 = self.done@;
        let t = self.stack.pop().unwrap();
        let ghost mid = self.stack@;
        proof {
            assert(old_stack =~= mid.push(t));
            assert(old_stack[old_stack.len() - 1] == t);
        }
        if self.done[t] {
            proof {
                lemma_frontier_pop_marked(term_edges(dag), roots@, d0, mid, t);
                assert forall|i: int| 0 <= i < mid.len() implies #[trigger] mid[i] < d0.len()
                    && reaches(term_edges(dag), rs, mid[i]) by {
                    assert(mid[i] == old_stack[i]);
                }
            }
            return Ok(());
        }
        self.done.set(t, true);
        proof {
            lemma_count_false_set(d0, t as int);
            lemma_term_edges_valid(dag);
        }
        self.remaining = self.remaining - 1;
        let next = match decode_term(dag, t) {
            Ok(Some(def)) => {
                let next = def_edges(&def);
                let d = TermDecl { id: t, def };
                proof {
                    lemma_decls_push(dag, d0, self.decls@, d);
                }
                self.decls.push(d);
                next
            },
            Ok(None) => {
                proof {
                    lemma_decls_keep(dag, d0, self.decls@, t);
                }
                Vec::new()
            },
            Err(TermShape::BadLiteral) => {
                return Err(TermError::MalformedLiteral { term: t });
            },
            Err(_) => {
                return Err(TermError::Unsupported { term: t });
            },
        };
        proof {
            assert(term_edges(dag)(t) == next@);
            assert forall|j: int| 0 <= j < next@.len() implies #[trigger] next@[j] < d0.len() by {
                assert(term_edges(dag)(t)[j] < d0.len());
            }
        }
        push_unmarked(&mut self.stack, &self.done, &next);
        proof {
            let d2 = self.done@;
            assert(d2 == d0.update(t as int, true));
            lemma_frontier_visit(term_edges(dag), roots@, d0, mid, t, self.stack@);
            assert forall|i: int| 0 <= i < self.stack@.len() implies #[trigger] self.stack@[i]
                < d0.len() && reaches(term_edges(dag), rs, self.stack@[i]) by {
                let x = self.stack@[i];
                if mid.contains(x) {
                    let k = choose|k: int| 0 <= k < mid.len() && mid[k] == x;
                    assert(old_stack[k] == x);
                } else {
                    assert(next@.contains(x));
                    let k = choose|k: int| 0 <= k < next@.len() && next@[k] == x;
                    assert(next@[k] < d0.len());
                    lemma_path_step(term_edges(dag), rs, t, x);
                }
            }
            assert forall|x: int| 0 <= x < d0.len() && #[trigger] d2[x] implies reaches(
                term_edges(dag),
                rs,
                x as usize,
            ) && !term_shape(dag, x as usize).is_error() by {
                if x != t {
                    assert(d0[x]);
                }
            }
        }
        Ok(())
    }
}

proof fn lemma_term_lowers(dag: &TermDag, roots: Set<usize>, done: Seq<bool>, ds: Seq<TermDecl>)
    requires
        done.len() == dag.terms@.len(),
        forall|t: usize|
            t < done.len() ==> (#[trigger] done[t as int] <==> reaches(term_edges(dag), roots, t)),
        decls_partial(dag, done, ds),
    ensures
        term_lowers(dag, roots, ds),
{
    assert forall|i: int| 0 <= i < ds.len() implies reaches(
        term_edges(dag),
        roots,
        #[trigger] ds[i].id,
    ) by {
        assert(done[ds[i].id as int]);
    }
    assert forall|t: usize|
        t < done.len() && reaches(term_edges(dag), roots, t) && #[trigger] term_shape(
            dag,
            t,
        ).declares() implies exists|i: int| 0 <= i < ds.len() && #[trigger] ds[i].id == t by {
        assert(done[t as int]);
    }
}

/// Lowers the terms reached from term `root`, each once, in the order a
/// depth-first walk first meets them.
pub fn lower_terms(dag: &TermDag, root: usize) -> (r: Result<Vec<TermDecl>, TermError>)
    requires
        dag.wf(),
        root < dag.terms@.len(),
    ensures
        r is Ok <==> (forall|t: usize|
            t < dag.terms@.len() && reaches(term_edges(dag), set![root], t)
                ==> !(#[trigger] term_shape(dag, t)).is_error()),
        r matches Err(e) ==> e.term() < dag.terms@.len() && reaches(
            term_edges(dag),
            set![root],
            e.term(),
        ) && e.describes(term_shape(dag, e.term())),
        r matches Ok(ds) ==> term_lowers(dag, set![root], ds@),
{
    let n = dag.terms.len();
    let mut done: Vec<bool> = Vec::new();
    let mut remaining: usize = 0;
    while done.len() < n
        invariant
            done@.len() <= n,
            remaining == done@.len(),
            count_false(done@) == remaining,
            forall|c: int| 0 <= c < done@.len() ==> !#[trigger] done@[c],
        decreases n - done@.len(),
    {
        proof {
            assert(done@.push(false).drop_last() =~= done@);
        }
        done.push(false);
        remaining = remaining + 1;
    }
    let mut stack: Vec<usize> = Vec::new();
    stack.push(root);
    let ghost roots = seq![root];
    assert(roots[0] == root);
    assert(roots.contains(root));
    assert forall|x: usize| roots.to_set().contains(x) <==> set![root].contains(x) by {
        if roots.contains(x) {
            let k = choose|k: int| 0 <= k < roots.len() && roots[k] == x;
            assert(k == 0);
        }
    }
    assert(roots.to_set() =~= set![root]);
    let mut walk = TermWalk { done, remaining, stack, decls: Vec::new() };
    proof {
        assert(roots.contains(root));
        lemma_root_reaches(term_edges(dag), roots, root);
        assert(walk.stack@[0] == root);
        assert(covered(walk.done@, walk.stack@, roots[0]));
    }
    while walk.stack.len() > 0
        invariant
            walk.inv(dag, roots),
            roots.to_set() == set![root],
        decreases walk.remaining, walk.stack@.len(),
    {
        match walk.step(dag, Ghost(roots)) {
            Ok(()) => {},
            Err(e) => {
                return Err(e);
            },
        }
    }
    proof {
        assert(walk.stack@ =~= Seq::<usize>::empty());
        lemma_term_edges_valid(dag);
        lemma_marked_is_reached(term_edges(dag), roots, walk.done@);
        lemma_term_lowers(dag, set![root], walk.done@, walk.decls@);
        assert forall|t: usize|
            t < dag.terms@.len() && reaches(term_edges(dag), set![root], t) implies !(#[trigger] term_shape(
            dag,
            t,
        )).is_error() by {
            assert(walk.done@[t as int]);
        }
    }
    Ok(walk.decls)
}

/// Name of the wire of term `t`.
pub open spec fn term_wire(t: usize) -> Seq<char> {
    "wire_"@ + nat_text(t as nat)
}

/// The line of a declaration in one section of the module: 0 the input
/// ports, 1 the wire declarations, 2 the clocked blocks, 3 the lookup tables.
pub open spec fn term_line(section: int, d: TermDecl) -> Seq<char> {
    let w = term_wire(d.id);
    if section == 0 {
        match d.def {
            TermDef::Input { name, width } => "input ["@ + int_text(width as int) + "-1:0] "@ + name@
                + ";\n"@,
            _ => Seq::empty(),
        }
    } else if section == 1 {
        match d.def {
            TermDef::Literal(v) => "logic [31:0] "@ + w + " = "@ + int_text(v as int) + ";\n"@,
            TermDef::Register { init, .. } => "logic "@ + w + " = "@ + int_text(init as int)
                + ";\n"@,
            TermDef::Input { name, width } => "logic ["@ + int_text(width as int) + "-1:0] "@ + w
                + " = "@ + name@ + ";\n"@,
            TermDef::Const { val, width } => "logic ["@ + int_text(width as int) + "-1:0] "@ + w
                + " = "@ + int_text(width as int) + "'d"@ + int_text(val as int) + ";\n"@,
            TermDef::Slice { hi, lo, arg } => "logic "@ + w + " = "@ + term_wire(arg) + "["@
                + int_text(hi as int) + ":"@ + int_text(lo as int) + "];\n"@,
            TermDef::Concat { lhs, rhs } => "logic "@ + w + " = { "@ + term_wire(lhs) + ", "@
                + term_wire(rhs) + " };\n"@,
            TermDef::Zext { arg, width } => "logic "@ + w + " = { "@ + int_text(width as int)
                + "'d0, "@ + term_wire(arg) + " };\n"@,
            TermDef::Lut { .. } => "logic "@ + w + ";\n"@,
        }
    } else if section == 2 {
        match d.def {
            TermDef::Register { clk, d: data, .. } => "always @(posedge "@ + term_wire(clk)
                + ") begin\n                            "@ + w + " <= "@ + term_wire(data)
                + ";\n                        end\n"@,
            _ => Seq::empty(),
        }
    } else {
        match d.def {
            TermDef::Lut { arg } => "lut4 lut4_"@ + nat_text(d.id as nat) + " (.in("@ + term_wire(
                arg,
            ) + "), .out("@ + w + "));\n"@,
            _ => Seq::empty(),
        }
    }
}

pub open spec fn term_lines(section: int, ds: Seq<TermDecl>) -> Seq<char>
    decreases ds.len(),
{
    if ds.len() == 0 {
        Seq::empty()
    } else {
        term_lines(section, ds.drop_last()) + term_line(section, ds.last())
    }
}

/// The module for the declarations `ds`.
pub open spec fn term_verilog_text(ds: Seq<TermDecl>) -> Seq<char> {
    let inputs = term_lines(0, ds);
    "module top("@ + inputs + ");\n            "@ + inputs + "\n            "@ + term_lines(1, ds)
        + "\n            "@ + term_lines(2, ds) + "\n            "@ + term_lines(3, ds)
        + "\n        endmodule"@
}

fn push_term_wire(out: &mut String, t: usize)
    ensures
        final(out)@ == old(out)@ + term_wire(t),
{
    out.append("wire_");
    push_nat(out, t as u64);
    assert(out@ =~= old(out)@ + term_wire(t));
}

fn push_term_line(out: &mut String, section: u8, d: &TermDecl)
    ensures
        final(out)@ == old(out)@ + term_line(section as int, *d),
{
    let id = d.id;
    if section == 0 {
        match &d.def {
            TermDef::Input { name, width } => {
                out.append("input [");
                push_int(out, *width);
                out.append("-1:0] ");
                out.append(name.as_str());
                out.append(";\n");
            },
            _ => {},
        }
    } else if section == 1 {
        match &d.def {
            TermDef::Literal(v) => {
                out.append("logic [31:0] ");
                push_term_wire(out, id);
                out.append(" = ");
                push_int(out, *v);
                out.append(";\n");
            },
            TermDef::Register { init, .. } => {
                out.append("logic ");
                push_term_wire(out, id);
                out.append(" = ");
                push_int(out, *init);
                out.append(";\n");
            },
            TermDef::Input { name, width } => {
                out.append("logic [");
                push_int(out, *width);
                out.append("-1:0] ");
                push_term_wire(out, id);
                out.append(" = ");
                out.append(name.as_str());
                out.append(";\n");
            },
            TermDef::Const { val, width } => {
                out.append("logic [");
                push_int(out, *width);
                out.append("-1:0] ");
                push_term_wire(out, id);
                out.append(" = ");
                push_int(out, *width);
                out.append("'d");
                push_int(out, *val);
                out.append(";\n");
            },
            TermDef::Slice { hi, lo, arg } => {
                out.append("logic ");
                push_term_wire(out, id);
                out.append(" = ");
                push_term_wire(out, *arg);
                out.append("[");
                push_int(out, *hi);
                out.append(":");
                push_int(out, *lo);
                out.append("];\n");
            },
            TermDef::Concat { lhs, rhs } => {
                out.append("logic ");
                push_term_wire(out, id);
                out.append(" = { ");
                push_term_wire(out, *lhs);
                out.append(", ");
                push_term_wire(out, *rhs);
                out.append(" };\n");
            },
            TermDef::Zext { arg, width } => {
                out.append("logic ");
                push_term_wire(out, id);
                out.append(" = { ");
                push_int(out, *width);
                out.append("'d0, ");
                push_term_wire(out, *arg);
                out.append(" };\n");
            },
            TermDef::Lut { .. } => {
                out.append("logic ");
                push_term_wire(out, id);
                out.append(";\n");
            },
        }
    } else if section == 2 {
        match &d.def {
            TermDef::Register { clk, d: data, .. } => {
                out.append("always @(posedge ");
                push_term_wire(out, *clk);
                out.append(") begin\n                            ");
                push_term_wire(out, id);
                out.append(" <= ");
                push_term_wire(out, *data);
                out.append(";\n                        end\n");
            },
            _ => {},
        }
    } else {
        match &d.def {
            TermDef::Lut { arg } => {
                out.append("lut4 lut4_");
                push_nat(out, id as u64);
                out.append(" (.in(");
                push_term_wire(out, *arg);
                out.append("), .out(");
                push_term_wire(out, id);
                out.append("));\n");
            },
            _ => {},
        }
    }
    assert(out@ =~= old(out)@ + term_line(section as int, *d));
}

fn push_term_lines(out: &mut String, section: u8, ds: &Vec<TermDecl>)
    ensures
        final(out)@ == old(out)@ + term_lines(section as int, ds@),
{
    let ghost head = out@;
    let mut k: usize = 0;
    while k < ds.len()
        invariant
            k <= ds@.len(),
            out@ == head + term_lines(section as int, ds@.subrange(0, k as int)),
        decreases ds@.len() - k,
    {
        push_term_line(out, section, &ds[k]);
        proof {
            let p = ds@.subrange(0, k + 1);
            assert(p.drop_last() =~= ds@.subrange(0, k as int));
            assert(out@ =~= head + term_lines(section as int, p));
        }
        k = k + 1;
    }
    assert(ds@.subrange(0, ds@.len() as int) =~= ds@);
}

/// Lowers the terms reached from term `id` and prints them as one module:
/// the input ports, the wire declarations, the clocked blocks and the
/// lookup-table instances.
pub fn to_verilog(term_dag: &TermDag, id: usize) -> (r: Result<String, TermError>)
    requires
        term_dag.wf(),
        id < term_dag.terms@.len(),
    ensures
        r is Ok <==> (forall|t: usize|
            t < term_dag.terms@.len() && reaches(term_edges(term_dag), set![id], t)
                ==> !(#[trigger] term_shape(term_dag, t)).is_error()),
        r matches Err(e) ==> e.term() < term_dag.terms@.len() && reaches(
            term_edges(term_dag),
            set![id],
            e.term(),
        ) && e.describes(term_shape(term_dag, e.term())),
        r matches Ok(s) ==> exists|ds: Seq<TermDecl>|
            term_lowers(term_dag, set![id], ds) && s@ == #[trigger] term_verilog_text(ds),
{
    let ds = match lower_terms(term_dag, id) {
        Ok(ds) => ds,
        Err(e) => {
            return Err(e);
        },
    };
    let mut out = String::new();
    out.append("module top(");
    push_term_lines(&mut out, 0, &ds);
    out.append(");\n            ");
    push_term_lines(&mut out, 0, &ds);
    out.append("\n            ");
    push_term_lines(&mut out, 1, &ds);
    out.append("\n            ");
    push_term_lines(&mut out, 2, &ds);
    out.append("\n            ");
    push_term_lines(&mut out, 3, &ds);
    out.append("\n        endmodule");
    assert(out@ =~= term_verilog_text(ds@));
    assert(term_lowers(term_dag, set![id], ds@) && out@ == term_verilog_text(ds@));
    Ok(out)
}

} // verus!
