//! Lowering: a depth-first walk over the chosen nodes from the output ports,
//! safe on cyclic graphs, that collects wires, registers and module instances.
use vstd::prelude::*;
use crate::graph::Graph;
use crate::shape::{class_shape, decode, BinOp, Kind, Shape};
use crate::walk::{
    count_false, covered, edges_valid, frontier, lemma_count_false_set, lemma_frontier_pop_marked,
    lemma_frontier_visit, lemma_marked_is_reached, lemma_path_step, lemma_root_reaches,
    push_unmarked, reaches,
};

verus! {

/// How a wire gets its value.
pub enum WireDef {
    /// Driven by the input port `name` of the given width.
    Input { name: String, width: i64 },
    /// A register's wire with its initial value.
    Init(i64),
    /// A two-input operator over two other wires.
    Binary { op: BinOp, lhs: usize, rhs: usize },
    /// Bits `hi` down to `lo` of another wire.
    Slice { hi: i64, lo: i64, arg: usize },
}

/// The wire of class `class`.
pub struct WireDecl {
    pub class: usize,
    pub def: WireDef,
}

/// On every clock edge the wire of `class` takes the value of the wire of `d`.
pub struct RegisterBlock {
    pub class: usize,
    pub d: usize,
}

/// Output `port` of an instance drives the wire of class `wire`.
pub struct PortBinding {
    pub port: String,
    pub wire: usize,
}

/// The instance of `module` held by class `class`, with its output bindings.
pub struct InstanceRecord {
    pub class: usize,
    pub module: String,
    pub outputs: Vec<PortBinding>,
}

/// A flat structural circuit.
pub struct Netlist {
    pub wires: Vec<WireDecl>,
    pub registers: Vec<RegisterBlock>,
    pub instances: Vec<InstanceRecord>,
}

/// Why lowering stopped.
#[derive(Debug, PartialEq, Eq, Structural)]
pub enum LowerError {
    /// The node chosen for `class` is outside the vocabulary.
    Unsupported { class: usize },
    /// A literal under the node chosen for `class` does not read as expected.
    MalformedLiteral { class: usize },
    /// The instance read by the node chosen for `class` is not a single node.
    AmbiguousInstance { class: usize },
    /// An `IsPort` marker (node `node`) without its four children.
    MalformedPort { node: usize },
}

impl LowerError {
    /// The error reports what `s` says of class `c`.
    pub open spec fn describes(self, c: usize, s: Shape) -> bool {
        match self {
            LowerError::Unsupported { class } => class == c && s is Unsupported,
            LowerError::MalformedLiteral { class } => class == c && s is BadLiteral,
            LowerError::AmbiguousInstance { class } => class == c && s is Ambiguous,
            LowerError::MalformedPort { .. } => false,
        }
    }

    pub open spec fn class(self) -> usize {
        match self {
            LowerError::Unsupported { class } => class,
            LowerError::MalformedLiteral { class } => class,
            LowerError::AmbiguousInstance { class } => class,
            LowerError::MalformedPort { node } => node,
        }
    }
}

/// The declaration `def` is what the shape `s` lowers to.
pub open spec fn def_matches(def: WireDef, s: Shape) -> bool {
    match def {
        WireDef::Input { name, width } => s == Shape::Input { name: name@, width },
        WireDef::Init(v) => s is Register && s->Register_init == v,
        WireDef::Binary { op, lhs, rhs } => s == Shape::Binary { op, lhs, rhs },
        WireDef::Slice { hi, lo, arg } => s == Shape::Slice { hi, lo, arg },
    }
}

/// The classes that the node chosen for each class reads.
pub open spec fn graph_edges(g: &Graph, choices: Seq<usize>) -> spec_fn(usize) -> Seq<usize> {
    |c: usize| class_shape(g, choices, c as int).edges()
}

/// Class `c` is reached from `roots` through the chosen nodes.
pub open spec fn reachable(g: &Graph, choices: Seq<usize>, roots: Set<usize>, c: usize) -> bool {
    reaches(graph_edges(g, choices), roots, c)
}

/// `n` lowers exactly the classes reached from `roots`: one wire for each
/// that declares one, one block for each register, and one instance record for
/// each instance class read, binding every output read from it.
pub open spec fn lowers(g: &Graph, choices: Seq<usize>, roots: Set<usize>, n: Netlist) -> bool {
    let nc = g.class_names@.len();
    let ws = n.wires@;
    let rs = n.registers@;
    let is = n.instances@;
    &&& forall|i: int|
        0 <= i < ws.len() ==> {
            let c = #[trigger] ws[i].class;
            c < nc && reachable(g, choices, roots, c) && def_matches(
                ws[i].def,
                class_shape(g, choices, c as int),
            )
        }
    &&& forall|c: usize|
        c < nc && reachable(g, choices, roots, c) && #[trigger] class_shape(
            g,
            choices,
            c as int,
        ).declares_wire() ==> exists|i: int| 0 <= i < ws.len() && #[trigger] ws[i].class == c
    &&& forall|i: int, j: int| 0 <= i < j < ws.len() ==> #[trigger] ws[i].class != #[trigger] ws[j].class
    &&& forall|i: int|
        0 <= i < rs.len() ==> {
            let c = #[trigger] rs[i].class;
            c < nc && reachable(g, choices, roots, c) && class_shape(g, choices, c as int)
                is Register && class_shape(g, choices, c as int)->Register_d == rs[i].d
        }
    &&& forall|c: usize|
        c < nc && reachable(g, choices, roots, c) && #[trigger] class_shape(
            g,
            choices,
            c as int,
        ) is Register ==> exists|i: int| 0 <= i < rs.len() && #[trigger] rs[i].class == c
    &&& forall|i: int, j: int| 0 <= i < j < rs.len() ==> #[trigger] rs[i].class != #[trigger] rs[j].class
    &&& instances_lower(g, choices, roots, is)
}

/// The instance records for the reached `GetOutput` nodes.
pub open spec fn instances_lower(
    g: &Graph,
    choices: Seq<usize>,
    roots: Set<usize>,
    is: Seq<InstanceRecord>,
) -> bool {
    let nc = g.class_names@.len();
    &&& forall|k: int|
        0 <= k < is.len() ==> #[trigger] is[k].class < nc && is[k].outputs@.len() > 0
    &&& forall|k: int, l: int| 0 <= k < l < is.len() ==> #[trigger] is[k].class != #[trigger] is[l].class
    &&& forall|k: int, b: int|
        0 <= k < is.len() && 0 <= b < is[k].outputs@.len() ==> {
            let w = #[trigger] is[k].outputs@[b].wire;
            w < nc && reachable(g, choices, roots, w) && class_shape(g, choices, w as int)
                == Shape::Output {
                instance: is[k].class,
                port: is[k].outputs@[b].port@,
                module: is[k].module@,
            }
        }
    &&& forall|k: int, b: int, e: int|
        0 <= k < is.len() && 0 <= b < e < is[k].outputs@.len() ==> #[trigger] is[k].outputs@[b].wire
            != #[trigger] is[k].outputs@[e].wire
    &&& forall|c: usize|
        c < nc && reachable(g, choices, roots, c) && #[trigger] class_shape(g, choices, c as int)
            is Output ==> exists|k: int, b: int|
            0 <= k < is.len() && 0 <= b < is[k].outputs@.len() && #[trigger] is[k].outputs@[b].wire
                == c
}

/// The classes that a chosen node reads are classes of the graph.
pub proof fn lemma_edges_valid(g: &Graph, choices: Seq<usize>, c: int)
    requires
        g.wf(),
        g.valid_choices(choices),
        0 <= c < g.class_names@.len(),
    ensures
        forall|j: int|
            0 <= j < class_shape(g, choices, c).edges().len() ==> #[trigger] class_shape(
                g,
                choices,
                c,
            ).edges()[j] < g.class_names@.len(),
{
    let t = g.nodes@[choices[c] as int];
    assert(choices[c] < g.nodes@.len());
    assert forall|k: int| 0 <= k < t.children@.len() implies #[trigger] g.nodes@[t.children@[k] as int].eclass
        < g.class_names@.len() by {
        assert(g.nodes@[choices[c] as int].children@[k] < g.nodes@.len());
    }
}

proof fn lemma_graph_edges_valid(g: &Graph, choices: Seq<usize>)
    requires
        g.wf(),
        g.valid_choices(choices),
    ensures
        edges_valid(graph_edges(g, choices), g.class_names@.len()),
{
    assert forall|c: usize, j: int|
        c < g.class_names@.len() && 0 <= j < graph_edges(g, choices)(c).len() implies #[trigger] graph_edges(
        g,
        choices,
    )(c)[j] < g.class_names@.len() by {
        lemma_edges_valid(g, choices, c as int);
    }
}

/// Module name of the single node of instance class `inst`.
pub open spec fn instance_module(g: &Graph, inst: usize) -> Option<Seq<char>> {
    let m = g.nodes@[g.class_nodes@[inst as int]@[0] as int];
    crate::text::unquoted(g.nodes@[m.children@[0] as int].op@)
}

/// An output read names a class of the graph, and the module of that class.
proof fn lemma_output_valid(g: &Graph, choices: Seq<usize>, c: int)
    requires
        g.wf(),
        g.valid_choices(choices),
        0 <= c < g.class_names@.len(),
        class_shape(g, choices, c) is Output,
    ensures
        class_shape(g, choices, c)->Output_instance < g.class_names@.len(),
        instance_module(g, class_shape(g, choices, c)->Output_instance) == Some(
            class_shape(g, choices, c)->Output_module,
        ),
{
    let t = g.nodes@[choices[c] as int];
    assert(choices[c] < g.nodes@.len());
    assert(g.nodes@[choices[c] as int].children@[0] < g.nodes@.len());
}

/// [`instances_lower`] for the classes marked in `done`.
pub open spec fn instances_partial(
    g: &Graph,
    choices: Seq<usize>,
    done: Seq<bool>,
    is: Seq<InstanceRecord>,
) -> bool {
    let nc = g.class_names@.len();
    &&& forall|k: int|
        0 <= k < is.len() ==> #[trigger] is[k].class < nc && is[k].outputs@.len() > 0
    &&& forall|k: int, l: int| 0 <= k < l < is.len() ==> #[trigger] is[k].class != #[trigger] is[l].class
    &&& forall|k: int, b: int|
        0 <= k < is.len() && 0 <= b < is[k].outputs@.len() ==> {
            let w = #[trigger] is[k].outputs@[b].wire;
            w < nc && done[w as int] && class_shape(g, choices, w as int) == Shape::Output {
                instance: is[k].class,
                port: is[k].outputs@[b].port@,
                module: is[k].module@,
            }
        }
    &&& forall|k: int, b: int, e: int|
        0 <= k < is.len() && 0 <= b < e < is[k].outputs@.len() ==> #[trigger] is[k].outputs@[b].wire
            != #[trigger] is[k].outputs@[e].wire
    &&& forall|c: usize|
        c < nc && done[c as int] && #[trigger] class_shape(g, choices, c as int) is Output
            ==> exists|k: int, b: int|
            0 <= k < is.len() && 0 <= b < is[k].outputs@.len() && #[trigger] is[k].outputs@[b].wire
                == c
}

/// Records that output `port` of the instance in class `instance` drives the
/// wire of class `wire`, adding a record for the instance on first use.
fn bind_output(
    insts: &mut Vec<InstanceRecord>,
    instance: usize,
    port: String,
    module: String,
    wire: usize,
    g: &Graph,
    choices: &Vec<usize>,
    done: Ghost<Seq<bool>>,
)
    requires
        g.wf(),
        g.valid_choices(choices@),
        done@.len() == g.class_names@.len(),
        wire < g.class_names@.len(),
        !done@[wire as int],
        class_shape(g, choices@, wire as int) == (Shape::Output {
            instance,
            port: port@,
            module: module@,
        }),
        instances_partial(g, choices@, done@, old(insts)@),
    ensures
        instances_partial(g, choices@, done@.update(wire as int, true), final(insts)@),
{
    let ghost d2 = done@.update(wire as int, true);
    let ghost old_is = insts@;
    proof {
        lemma_output_valid(g, choices@, wire as int);
    }
    let mut k: usize = 0;
    while k < insts.len()
        invariant
            insts@ == old_is,
            k <= insts@.len(),
            forall|j: int| 0 <= j < k ==> #[trigger] insts@[j].class != instance,
        ensures
            insts@ == old_is,
            k <= insts@.len(),
            forall|j: int| 0 <= j < k ==> #[trigger] insts@[j].class != instance,
            k < insts@.len() ==> insts@[k as int].class == instance,
        decreases insts@.len() - k,
    {
        if insts[k].class == instance {
            break;
        }
        k = k + 1;
    }
    let ghost nb = PortBinding { port, wire };
    if k < insts.len() {
        let mut rec = insts.remove(k);
        proof {
            assert(old_is[k as int].class < g.class_names@.len());
            let w0 = rec.outputs@[0].wire;
            assert(old_is[k as int].outputs@[0].wire == w0);
            lemma_output_valid(g, choices@, w0 as int);
        }
        let ghost old_outs = rec.outputs@;
        rec.outputs.push(PortBinding { port, wire });
        insts.insert(k, rec);
        proof {
            assert(insts@ =~= old_is.update(k as int, insts@[k as int]));
            assert(insts@[k as int].outputs@ =~= old_outs.push(nb));
            assert forall|j: int, b: int|
                0 <= j < insts@.len() && 0 <= b < insts@[j].outputs@.len() implies {
                let w = #[trigger] insts@[j].outputs@[b].wire;
                w < g.class_names@.len() && d2[w as int] && class_shape(g, choices@, w as int)
                    == Shape::Output {
                    instance: insts@[j].class,
                    port: insts@[j].outputs@[b].port@,
                    module: insts@[j].module@,
                }
            } by {
                if j != k || b < old_outs.len() {
                    assert(insts@[j].outputs@[b] == old_is[j].outputs@[b]);
                }
            }
            assert forall|c: usize|
                c < g.class_names@.len() && d2[c as int] && #[trigger] class_shape(
                    g,
                    choices@,
                    c as int,
                ) is Output implies exists|j: int, b: int|
                0 <= j < insts@.len() && 0 <= b < insts@[j].outputs@.len()
                    && #[trigger] insts@[j].outputs@[b].wire == c by {
                if c == wire {
                    assert(insts@[k as int].outputs@[old_outs.len() as int].wire == c);
                } else {
                    let (j, b) = choose|j: int, b: int|
                        0 <= j < old_is.len() && 0 <= b < old_is[j].outputs@.len()
                            && #[trigger] old_is[j].outputs@[b].wire == c;
                    assert(insts@[j].outputs@[b].wire == c);
                }
            }
        }
    } else {
        let mut outputs: Vec<PortBinding> = Vec::new();
        outputs.push(PortBinding { port, wire });
        insts.push(InstanceRecord { class: instance, module, outputs });
        proof {
            assert forall|j: int, b: int|
                0 <= j < insts@.len() && 0 <= b < insts@[j].outputs@.len() implies {
                let w = #[trigger] insts@[j].outputs@[b].wire;
                w < g.class_names@.len() && d2[w as int] && class_shape(g, choices@, w as int)
                    == Shape::Output {
                    instance: insts@[j].class,
                    port: insts@[j].outputs@[b].port@,
                    module: insts@[j].module@,
                }
            } by {
                if j < old_is.len() {
                    assert(insts@[j] == old_is[j]);
                }
            }
            assert forall|c: usize|
                c < g.class_names@.len() && d2[c as int] && #[trigger] class_shape(
                    g,
                    choices@,
                    c as int,
                ) is Output implies exists|j: int, b: int|
                0 <= j < insts@.len() && 0 <= b < insts@[j].outputs@.len()
                    && #[trigger] insts@[j].outputs@[b].wire == c by {
                if c == wire {
                    assert(insts@[old_is.len() as int].outputs@[0].wire == c);
                } else {
                    let (j, b) = choose|j: int, b: int|
                        0 <= j < old_is.len() && 0 <= b < old_is[j].outputs@.len()
                            && #[trigger] old_is[j].outputs@[b].wire == c;
                    assert(insts@[j].outputs@[b].wire == c);
                }
            }
        }
    }
}

/// The wires declared for the classes marked in `done`.
pub open spec fn wires_partial(g: &Graph, choices: Seq<usize>, done: Seq<bool>, ws: Seq<WireDecl>) -> bool {
    let nc = g.class_names@.len();
    &&& forall|i: int|
        0 <= i < ws.len() ==> {
            let c = #[trigger] ws[i].class;
            c < nc && done[c as int] && def_matches(ws[i].def, class_shape(g, choices, c as int))
        }
    &&& forall|c: usize|
        c < nc && done[c as int] && #[trigger] class_shape(g, choices, c as int).declares_wire()
            ==> exists|i: int| 0 <= i < ws.len() && #[trigger] ws[i].class == c
    &&& forall|i: int, j: int| 0 <= i < j < ws.len() ==> #[trigger] ws[i].class != #[trigger] ws[j].class
}

/// The register blocks for the classes marked in `done`.
pub open spec fn registers_partial(
    g: &Graph,
    choices: Seq<usize>,
    done: Seq<bool>,
    rs: Seq<RegisterBlock>,
) -> bool {
    let nc = g.class_names@.len();
    &&& forall|i: int|
        0 <= i < rs.len() ==> {
            let c = #[trigger] rs[i].class;
            c < nc && done[c as int] && class_shape(g, choices, c as int) is Register
                && class_shape(g, choices, c as int)->Register_d == rs[i].d
        }
    &&& forall|c: usize|
        c < nc && done[c as int] && #[trigger] class_shape(g, choices, c as int) is Register
            ==> exists|i: int| 0 <= i < rs.len() && #[trigger] rs[i].class == c
    &&& forall|i: int, j: int| 0 <= i < j < rs.len() ==> #[trigger] rs[i].class != #[trigger] rs[j].class
}

proof fn lemma_wires_push(g: &Graph, choices: Seq<usize>, done: Seq<bool>, ws: Seq<WireDecl>, w: WireDecl)
    requires
        wires_partial(g, choices, done, ws),
        done.len() == g.class_names@.len(),
        w.class < done.len(),
        !done[w.class as int],
        def_matches(w.def, class_shape(g, choices, w.class as int)),
    ensures
        wires_partial(g, choices, done.update(w.class as int, true), ws.push(w)),
{
    let d2 = done.update(w.class as int, true);
    let ws2 = ws.push(w);
    assert forall|c: usize|
        c < g.class_names@.len() && d2[c as int] && #[trigger] class_shape(
            g,
            choices,
            c as int,
        ).declares_wire() implies exists|i: int| 0 <= i < ws2.len() && #[trigger] ws2[i].class == c by {
        if c == w.class {
            assert(ws2[ws.len() as int].class == c);
        } else {
            let i = choose|i: int| 0 <= i < ws.len() && #[trigger] ws[i].class == c;
            assert(ws2[i].class == c);
        }
    }
    assert forall|i: int, j: int| 0 <= i < j < ws2.len() implies #[trigger] ws2[i].class
        != #[trigger] ws2[j].class by {
        if j == ws.len() {
            assert(ws[i].class < done.len() && done[ws[i].class as int]);
        }
    }
}

proof fn lemma_wires_keep(g: &Graph, choices: Seq<usize>, done: Seq<bool>, ws: Seq<WireDecl>, c: usize)
    requires
        wires_partial(g, choices, done, ws),
        done.len() == g.class_names@.len(),
        c < done.len(),
        !class_shape(g, choices, c as int).declares_wire(),
    ensures
        wires_partial(g, choices, done.update(c as int, true), ws),
{
    let d2 = done.update(c as int, true);
    assert forall|x: usize|
        x < g.class_names@.len() && d2[x as int] && #[trigger] class_shape(
            g,
            choices,
            x as int,
        ).declares_wire() implies exists|i: int| 0 <= i < ws.len() && #[trigger] ws[i].class == x by {
        assert(done[x as int]);
    }
    assert forall|i: int| 0 <= i < ws.len() implies d2[#[trigger] ws[i].class as int] by {
        assert(done[ws[i].class as int]);
    }
}

proof fn lemma_registers_push(
    g: &Graph,
    choices: Seq<usize>,
    done: Seq<bool>,
    rs: Seq<RegisterBlock>,
    b: RegisterBlock,
)
    requires
        registers_partial(g, choices, done, rs),
        done.len() == g.class_names@.len(),
        b.class < done.len(),
        !done[b.class as int],
        class_shape(g, choices, b.class as int) is Register,
        class_shape(g, choices, b.class as int)->Register_d == b.d,
    ensures
        registers_partial(g, choices, done.update(b.class as int, true), rs.push(b)),
{
    let d2 = done.update(b.class as int, true);
    let rs2 = rs.push(b);
    assert forall|c: usize|
        c < g.class_names@.len() && d2[c as int] && #[trigger] class_shape(g, choices, c as int)
            is Register implies exists|i: int| 0 <= i < rs2.len() && #[trigger] rs2[i].class == c by {
        if c == b.class {
            assert(rs2[rs.len() as int].class == c);
        } else {
            let i = choose|i: int| 0 <= i < rs.len() && #[trigger] rs[i].class == c;
            assert(rs2[i].class == c);
        }
    }
    assert forall|i: int, j: int| 0 <= i < j < rs2.len() implies #[trigger] rs2[i].class
        != #[trigger] rs2[j].class by {
        if j == rs.len() {
            assert(rs[i].class < done.len() && done[rs[i].class as int]);
        }
    }
}

proof fn lemma_registers_keep(
    g: &Graph,
    choices: Seq<usize>,
    done: Seq<bool>,
    rs: Seq<RegisterBlock>,
    c: usize,
)
    requires
        registers_partial(g, choices, done, rs),
        done.len() == g.class_names@.len(),
        c < done.len(),
        !(class_shape(g, choices, c as int) is Register),
    ensures
        registers_partial(g, choices, done.update(c as int, true), rs),
{
    let d2 = done.update(c as int, true);
    assert forall|x: usize|
        x < g.class_names@.len() && d2[x as int] && #[trigger] class_shape(g, choices, x as int)
            is Register implies exists|i: int| 0 <= i < rs.len() && #[trigger] rs[i].class == x by {
        assert(done[x as int]);
    }
    assert forall|i: int| 0 <= i < rs.len() implies d2[#[trigger] rs[i].class as int] by {
        assert(done[rs[i].class as int]);
    }
}

proof fn lemma_instances_keep(
    g: &Graph,
    choices: Seq<usize>,
    done: Seq<bool>,
    is: Seq<InstanceRecord>,
    c: usize,
)
    requires
        instances_partial(g, choices, done, is),
        done.len() == g.class_names@.len(),
        c < done.len(),
        !(class_shape(g, choices, c as int) is Output),
    ensures
        instances_partial(g, choices, done.update(c as int, true), is),
{
    let d2 = done.update(c as int, true);
    assert forall|x: usize|
        x < g.class_names@.len() && d2[x as int] && #[trigger] class_shape(g, choices, x as int)
            is Output implies exists|k: int, b: int|
        0 <= k < is.len() && 0 <= b < is[k].outputs@.len() && #[trigger] is[k].outputs@[b].wire
            == x by {
        assert(done[x as int]);
    }
    assert forall|k: int, b: int| 0 <= k < is.len() && 0 <= b < is[k].outputs@.len() implies d2[
        #[trigger] is[k].outputs@[b].wire as int] by {
        assert(done[is[k].outputs@[b].wire as int]);
    }
}

/// The classes that the node of `kind` reads.
fn kind_edges(kind: &Kind) -> (r: Vec<usize>)
    ensures
        r@ == kind@.edges(),
{
    let mut r: Vec<usize> = Vec::new();
    match kind {
        Kind::Register { d, .. } => {
            r.push(*d);
        },
        Kind::Binary { lhs, rhs, .. } => {
            r.push(*lhs);
            r.push(*rhs);
        },
        Kind::Slice { arg, .. } => {
            r.push(*arg);
        },
        _ => {},
    }
    assert(r@ =~= kind@.edges());
    r
}

/// The state of a walk: marked classes, classes still to visit, and what has
/// been lowered so far.
struct Walk {
    done: Vec<bool>,
    remaining: usize,
    stack: Vec<usize>,
    wires: Vec<WireDecl>,
    registers: Vec<RegisterBlock>,
    instances: Vec<InstanceRecord>,
}

impl Walk {
    spec fn inv(&self, g: &Graph, choices: Seq<usize>, roots: Seq<usize>) -> bool {
        let nc = g.class_names@.len();
        let rs = roots.to_set();
        &&& g.wf()
        &&& g.valid_choices(choices)
        &&& forall|k: int| 0 <= k < roots.len() ==> #[trigger] roots[k] < nc
        &&& self.done@.len() == nc
        &&& self.remaining == count_false(self.done@)
        &&& forall|i: int|
            0 <= i < self.stack@.len() ==> #[trigger] self.stack@[i] < nc && reachable(
                g,
                choices,
                rs,
                self.stack@[i],
            )
        &&& forall|c: int|
            0 <= c < nc && #[trigger] self.done@[c] ==> reachable(g, choices, rs, c as usize)
                && !class_shape(g, choices, c).is_error()
        &&& frontier(graph_edges(g, choices), roots, self.done@, self.stack@)
        &&& wires_partial(g, choices, self.done@, self.wires@)
        &&& registers_partial(g, choices, self.done@, self.registers@)
        &&& instances_partial(g, choices, self.done@, self.instances@)
    }

    /// Adds what the node of class `c` lowers to, `c` being newly marked.
    fn record(
        &mut self,
        g: &Graph,
        choices: &Vec<usize>,
        c: usize,
        kind: Kind,
        old_done: Ghost<Seq<bool>>,
    ) -> (r: Result<(), LowerError>)
        requires
            g.wf(),
            g.valid_choices(choices@),
            c < g.class_names@.len(),
            old_done@.len() == g.class_names@.len(),
            !old_done@[c as int],
            kind@ == class_shape(g, choices@, c as int),
            wires_partial(g, choices@, old_done@, old(self).wires@),
            registers_partial(g, choices@, old_done@, old(self).registers@),
            instances_partial(g, choices@, old_done@, old(self).instances@),
        ensures
            final(self).done == old(self).done,
            final(self).remaining == old(self).remaining,
            final(self).stack == old(self).stack,
            r is Ok <==> !kind@.is_error(),
            r matches Err(e) ==> e.class() == c && e.describes(c, kind@),
            r is Ok ==> {
                let d2 = old_done@.update(c as int, true);
                &&& wires_partial(g, choices@, d2, final(self).wires@)
                &&& registers_partial(g, choices@, d2, final(self).registers@)
                &&& instances_partial(g, choices@, d2, final(self).instances@)
            },
    {
        let ghost d = old_done@;
        match kind {
            Kind::Ignored => {
                proof {
                    lemma_wires_keep(g, choices@, d, self.wires@, c);
                    lemma_registers_keep(g, choices@, d, self.registers@, c);
                    lemma_instances_keep(g, choices@, d, self.instances@, c);
                }
                Ok(())
            },
            Kind::Register { init, d: data } => {
                let w = WireDecl { class: c, def: WireDef::Init(init) };
                let b = RegisterBlock { class: c, d: data };
                proof {
                    lemma_wires_push(g, choices@, d, self.wires@, w);
                    lemma_registers_push(g, choices@, d, self.registers@, b);
                    lemma_instances_keep(g, choices@, d, self.instances@, c);
                }
                self.wires.push(w);
                self.registers.push(b);
                Ok(())
            },
            Kind::Binary { op, lhs, rhs } => {
                let w = WireDecl { class: c, def: WireDef::Binary { op, lhs, rhs } };
                proof {
                    lemma_wires_push(g, choices@, d, self.wires@, w);
                    lemma_registers_keep(g, choices@, d, self.registers@, c);
                    lemma_instances_keep(g, choices@, d, self.instances@, c);
                }
                self.wires.push(w);
                Ok(())
            },
            Kind::Slice { hi, lo, arg } => {
                let w = WireDecl { class: c, def: WireDef::Slice { hi, lo, arg } };
                proof {
                    lemma_wires_push(g, choices@, d, self.wires@, w);
                    lemma_registers_keep(g, choices@, d, self.registers@, c);
                    lemma_instances_keep(g, choices@, d, self.instances@, c);
                }
                self.wires.push(w);
                Ok(())
            },
            Kind::Input { name, width } => {
                let w = WireDecl { class: c, def: WireDef::Input { name, width } };
                proof {
                    lemma_wires_push(g, choices@, d, self.wires@, w);
                    lemma_registers_keep(g, choices@, d, self.registers@, c);
                    lemma_instances_keep(g, choices@, d, self.instances@, c);
                }
                self.wires.push(w);
                Ok(())
            },
            Kind::Output { instance, port, module } => {
                proof {
                    lemma_wires_keep(g, choices@, d, self.wires@, c);
                    lemma_registers_keep(g, choices@, d, self.registers@, c);
                }
                bind_output(&mut self.instances, instance, port, module, c, g, choices, old_done);
                Ok(())
            },
            Kind::Unsupported => Err(LowerError::Unsupported { class: c }),
            Kind::BadLiteral => Err(LowerError::MalformedLiteral { class: c }),
            Kind::Ambiguous => Err(LowerError::AmbiguousInstance { class: c }),
        }
    }
    /// Takes one class off the stack and, unless it is marked, marks it,
    /// lowers its node and pushes the unmarked classes that the node reads.
    fn step(&mut self, g: &Graph, choices: &Vec<usize>, roots: Ghost<Seq<usize>>) -> (r: Result<
        (),
        LowerError,
    >)
        requires
            old(self).inv(g, choices@, roots@),
            old(self).stack@.len() > 0,
        ensures
            r is Ok ==> final(self).inv(g, choices@, roots@),
            r is Ok ==> final(self).remaining < old(self).remaining || (final(self).remaining
                == old(self).remaining && final(self).stack@.len() < old(self).stack@.len()),
            r matches Err(e) ==> e.class() < g.class_names@.len() && reachable(
                g,
                choices@,
                roots@.to_set(),
                e.class(),
            ) && e.describes(e.class(), class_shape(g, choices@, e.class() as int)),
    {
        let ghost rs = roots@.to_set();
        let ghost old_stack = self.stack@;
        let ghost d0 = self.done@;
        let c = self.stack.pop().unwrap();
        let ghost mid = self.stack@;
        proof {
            assert(old_stack =~= mid.push(c));
            assert(old_stack[old_stack.len() - 1] == c);
        }
        if self.done[c] {
            proof {
                lemma_frontier_pop_marked(graph_edges(g, choices@), roots@, d0, mid, c);
                assert forall|i: int| 0 <= i < mid.len() implies #[trigger] mid[i] < d0.len()
                    && reachable(g, choices@, rs, mid[i]) by {
                    assert(mid[i] == old_stack[i]);
                }
            }
            return Ok(());
        }
        self.done.set(c, true);
        proof {
            lemma_count_false_set(d0, c as int);
            lemma_edges_valid(g, choices@, c as int);
        }
        self.remaining = self.remaining - 1;
        let kind = decode(g, choices, c);
        let next = kind_edges(&kind);
        let ghost shape = kind@;
        let res = self.record(g, choices, c, kind, Ghost(d0));
        if res.is_err() {
            return res;
        }
        push_unmarked(&mut self.stack, &self.done, &next);
        proof {
            let d2 = self.done@;
            assert(d2 == d0.update(c as int, true));
            assert(graph_edges(g, choices@)(c) == next@);
            lemma_graph_edges_valid(g, choices@);
            lemma_frontier_visit(graph_edges(g, choices@), roots@, d0, mid, c, self.stack@);
            assert forall|i: int| 0 <= i < self.stack@.len() implies #[trigger] self.stack@[i]
                < d0.len() && reachable(g, choices@, rs, self.stack@[i]) by {
                let x = self.stack@[i];
                if mid.contains(x) {
                    let k = choose|k: int| 0 <= k < mid.len() && mid[k] == x;
                    assert(old_stack[k] == x);
                } else {
                    assert(next@.contains(x));
                    lemma_path_step(graph_edges(g, choices@), rs, c, x);
                }
            }
            assert forall|x: int| 0 <= x < d0.len() && #[trigger] d2[x] implies reachable(
                g,
                choices@,
                rs,
                x as usize,
            ) && !class_shape(g, choices@, x).is_error() by {
                if x != c {
                    assert(d0[x]);
                }
            }
        }
        Ok(())
    }
}

proof fn lemma_lowers(g: &Graph, choices: Seq<usize>, roots: Set<usize>, done: Seq<bool>, n: Netlist)
    requires
        done.len() == g.class_names@.len(),
        forall|c: usize|
            c < done.len() ==> (#[trigger] done[c as int] <==> reachable(g, choices, roots, c)),
        wires_partial(g, choices, done, n.wires@),
        registers_partial(g, choices, done, n.registers@),
        instances_partial(g, choices, done, n.instances@),
    ensures
        lowers(g, choices, roots, n),
{
    let is = n.instances@;
    assert forall|i: int| 0 <= i < n.wires@.len() implies reachable(
        g,
        choices,
        roots,
        #[trigger] n.wires@[i].class,
    ) by {
        assert(done[n.wires@[i].class as int]);
    }
    assert forall|c: usize|
        c < done.len() && reachable(g, choices, roots, c) && #[trigger] class_shape(
            g,
            choices,
            c as int,
        ).declares_wire() implies exists|i: int|
        0 <= i < n.wires@.len() && #[trigger] n.wires@[i].class == c by {
        assert(done[c as int]);
    }
    assert forall|i: int| 0 <= i < n.registers@.len() implies reachable(
        g,
        choices,
        roots,
        #[trigger] n.registers@[i].class,
    ) by {
        assert(done[n.registers@[i].class as int]);
    }
    assert forall|c: usize|
        c < done.len() && reachable(g, choices, roots, c) && #[trigger] class_shape(
            g,
            choices,
            c as int,
        ) is Register implies exists|i: int|
        0 <= i < n.registers@.len() && #[trigger] n.registers@[i].class == c by {
        assert(done[c as int]);
    }
    assert forall|k: int, b: int| 0 <= k < is.len() && 0 <= b < is[k].outputs@.len() implies reachable(
        g,
        choices,
        roots,
        #[trigger] is[k].outputs@[b].wire,
    ) by {
        assert(done[is[k].outputs@[b].wire as int]);
    }
    assert forall|c: usize|
        c < done.len() && reachable(g, choices, roots, c) && #[trigger] class_shape(
            g,
            choices,
            c as int,
        ) is Output implies exists|k: int, b: int|
        0 <= k < is.len() && 0 <= b < is[k].outputs@.len() && #[trigger] is[k].outputs@[b].wire
            == c by {
        assert(done[c as int]);
    }
}

/// Lowers the classes reached from `roots`. Each class is visited once: it is
/// marked before its node is read, so a register whose input leads back to
/// itself is declared once, and the walk ends on every graph.
pub fn lower(g: &Graph, choices: &Vec<usize>, roots: &Vec<usize>) -> (r: Result<Netlist, LowerError>)
    requires
        g.wf(),
        g.valid_choices(choices@),
        forall|k: int| 0 <= k < roots@.len() ==> #[trigger] roots@[k] < g.class_names@.len(),
    ensures
        r is Ok <==> (forall|c: usize|
            c < g.class_names@.len() && reachable(g, choices@, roots@.to_set(), c)
                ==> !(#[trigger] class_shape(g, choices@, c as int)).is_error()),
        r matches Err(e) ==> e.class() < g.class_names@.len() && reachable(
            g,
            choices@,
            roots@.to_set(),
            e.class(),
        ) && e.describes(e.class(), class_shape(g, choices@, e.class() as int)),
        r matches Ok(n) ==> lowers(g, choices@, roots@.to_set(), n),
{
    let ghost rs = roots@.to_set();
    let nc = g.class_names.len();
    let mut done: Vec<bool> = Vec::new();
    let mut remaining: usize = 0;
    while done.len() < nc
        invariant
            done@.len() <= nc,
            remaining == done@.len(),
            count_false(done@) == remaining,
            forall|c: int| 0 <= c < done@.len() ==> !#[trigger] done@[c],
        decreases nc - done@.len(),
    {
        proof {
            assert(done@.push(false).drop_last() =~= done@);
        }
        done.push(false);
        remaining = remaining + 1;
    }
    let mut stack: Vec<usize> = Vec::new();
    let mut k: usize = 0;
    while k < roots.len()
        invariant
            k <= roots@.len(),
            stack@ =~= roots@.subrange(0, k as int),
        decreases roots@.len() - k,
    {
        stack.push(roots[k]);
        k = k + 1;
    }
    let mut walk = Walk {
        done,
        remaining,
        stack,
        wires: Vec::new(),
        registers: Vec::new(),
        instances: Vec::new(),
    };
    proof {
        let st = walk.stack@;
        assert(st =~= roots@);
        assert forall|i: int| 0 <= i < st.len() implies #[trigger] st[i] < nc && reachable(
            g,
            choices@,
            rs,
            st[i],
        ) by {
            assert(roots@.contains(st[i]));
            lemma_root_reaches(graph_edges(g, choices@), roots@, st[i]);
        }
        assert forall|i: int| 0 <= i < roots@.len() implies #[trigger] covered(
            walk.done@,
            st,
            roots@[i],
        ) by {
            assert(st[i] == roots@[i]);
        }
    }
    while walk.stack.len() > 0
        invariant
            walk.inv(g, choices@, roots@),
        decreases walk.remaining, walk.stack@.len(),
    {
        match walk.step(g, choices, Ghost(roots@)) {
            Ok(()) => {},
            Err(e) => {
                return Err(e);
            },
        }
    }
    proof {
        assert(walk.stack@ =~= Seq::<usize>::empty());
        lemma_graph_edges_valid(g, choices@);
        lemma_marked_is_reached(graph_edges(g, choices@), roots@, walk.done@);
    }
    let n = Netlist { wires: walk.wires, registers: walk.registers, instances: walk.instances };
    proof {
        lemma_lowers(g, choices@, rs, walk.done@, n);
    }
    Ok(n)
}

} // verus!
