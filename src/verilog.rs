//! Structural Verilog: the roots of lowering are the classes marked as output
//! ports, and a lowered netlist is printed as one top-level module.
use vstd::prelude::*;
use crate::graph::Graph;
use crate::lower::{
    lemma_edges_valid, lower, lowers, reachable, InstanceRecord, LowerError, Netlist, PortBinding,
    RegisterBlock, WireDecl, WireDef,
};
use crate::shape::{class_shape, BinOp};
use crate::text::{int_text, push_int, str_eq};

verus! {

/// Node `i` is an `IsPort` marker whose direction is `Output`.
pub open spec fn is_output_marker(g: &Graph, i: int) -> bool {
    let t = g.nodes@[i];
    t.op@ == "IsPort"@ && t.children@.len() == 4 && g.nodes@[t.children@[2] as int].op@
        == "Output"@
}

/// The class of the signal that marker node `i` names.
pub open spec fn marker_signal(g: &Graph, i: int) -> usize {
    g.nodes@[g.nodes@[i].children@[3] as int].eclass
}

/// Node `i` is an `IsPort` marker without its four children.
pub open spec fn is_malformed_marker(g: &Graph, i: int) -> bool {
    g.nodes@[i].op@ == "IsPort"@ && g.nodes@[i].children@.len() != 4
}

/// The classes of all output ports.
pub open spec fn port_roots(g: &Graph) -> Set<usize> {
    Set::new(
        |c: usize|
            exists|i: int|
                0 <= i < g.nodes@.len() && #[trigger] is_output_marker(g, i) && marker_signal(g, i)
                    == c,
    )
}

/// Collects the classes of the output ports, in node order.
pub fn output_roots(g: &Graph) -> (r: Result<Vec<usize>, LowerError>)
    requires
        g.wf(),
    ensures
        r is Ok <==> (forall|i: int| 0 <= i < g.nodes@.len() ==> !#[trigger] is_malformed_marker(g, i)),
        r matches Err(e) ==> e is MalformedPort && e->node < g.nodes@.len() && is_malformed_marker(
            g,
            e->node as int,
        ),
        r matches Ok(v) ==> v@.to_set() == port_roots(g) && forall|k: int|
            0 <= k < v@.len() ==> #[trigger] v@[k] < g.class_names@.len(),
{
    let mut v: Vec<usize> = Vec::new();
    let mut i: usize = 0;
    while i < g.nodes.len()
        invariant
            g.wf(),
            i <= g.nodes@.len(),
            forall|j: int| 0 <= j < i ==> !#[trigger] is_malformed_marker(g, j),
            forall|k: int| 0 <= k < v@.len() ==> #[trigger] v@[k] < g.class_names@.len(),
            forall|c: usize|
                v@.contains(c) <==> exists|j: int|
                    0 <= j < i && #[trigger] is_output_marker(g, j) && marker_signal(g, j) == c,
        decreases g.nodes@.len() - i,
    {
        let t = &g.nodes[i];
        let ghost before = v@;
        let mut pushed = false;
        if str_eq(t.op.as_str(), "IsPort") {
            if t.children.len() != 4 {
                proof {
                    assert(is_malformed_marker(g, i as int));
                }
                return Err(LowerError::MalformedPort { node: i });
            }
            proof {
                assert(g.nodes@[i as int].children@[2] < g.nodes@.len());
                assert(g.nodes@[i as int].children@[3] < g.nodes@.len());
            }
            if str_eq(g.nodes[t.children[2]].op.as_str(), "Output") {
                v.push(g.nodes[t.children[3]].eclass);
                pushed = true;
            }
        }
        proof {
            assert(!is_malformed_marker(g, i as int));
            assert(pushed == is_output_marker(g, i as int));
            assert(pushed ==> v@ == before.push(marker_signal(g, i as int)));
            assert(!pushed ==> v@ == before);
            assert forall|c: usize| v@.contains(c) <==> exists|j: int|
                0 <= j < i + 1 && #[trigger] is_output_marker(g, j) && marker_signal(g, j) == c by {
                if v@.contains(c) {
                    let k = choose|k: int| 0 <= k < v@.len() && v@[k] == c;
                    if k < before.len() {
                        assert(before[k] == c);
                        assert(before.contains(c));
                        let j = choose|j: int|
                            0 <= j < i && #[trigger] is_output_marker(g, j) && marker_signal(g, j)
                                == c;
                        assert(0 <= j < i + 1 && is_output_marker(g, j));
                    } else {
                        assert(is_output_marker(g, i as int) && marker_signal(g, i as int) == c);
                    }
                }
                if exists|j: int|
                    0 <= j < i + 1 && #[trigger] is_output_marker(g, j) && marker_signal(g, j) == c {
                    let j = choose|j: int|
                        0 <= j < i + 1 && #[trigger] is_output_marker(g, j) && marker_signal(g, j)
                            == c;
                    if j < i {
                        assert(before.contains(c));
                        let k = choose|k: int| 0 <= k < before.len() && before[k] == c;
                        assert(v@[k] == c);
                    } else {
                        assert(v@[before.len() as int] == c);
                    }
                }
            }
        }
        i = i + 1;
    }
    assert(v@.to_set() =~= port_roots(g));
    Ok(v)
}

/// Name of the wire of class `c`.
pub open spec fn wire_name(g: &Graph, c: usize) -> Seq<char> {
    "wire_"@ + g.class_names@[c as int]@
}

/// Expression of a two-input operator over two wires.
pub open spec fn binary_text(g: &Graph, op: BinOp, lhs: usize, rhs: usize) -> Seq<char> {
    match op {
        BinOp::Concat => "{ "@ + wire_name(g, lhs) + ", "@ + wire_name(g, rhs) + " }"@,
        BinOp::Xor => wire_name(g, lhs) + "^"@ + wire_name(g, rhs),
        BinOp::And => wire_name(g, lhs) + "&"@ + wire_name(g, rhs),
        BinOp::Or => wire_name(g, lhs) + "|"@ + wire_name(g, rhs),
    }
}

/// The declaration line of a wire.
pub open spec fn decl_line(g: &Graph, w: WireDecl) -> Seq<char> {
    match w.def {
        WireDef::Input { name, width } => "  logic ["@ + int_text(width as int) + "-1:0] "@
            + wire_name(g, w.class) + " = "@ + name@ + ";\n"@,
        WireDef::Init(v) => "  logic "@ + wire_name(g, w.class) + " = "@ + int_text(v as int)
            + ";\n"@,
        WireDef::Binary { op, lhs, rhs } => "  logic "@ + wire_name(g, w.class) + " = "@
            + binary_text(g, op, lhs, rhs) + ";\n"@,
        WireDef::Slice { hi, lo, arg } => "  logic "@ + wire_name(g, w.class) + " = "@ + wire_name(
            g,
            arg,
        ) + "["@ + int_text(hi as int) + ":"@ + int_text(lo as int) + "];\n"@,
    }
}

/// The input port line of a wire driven by an input, and nothing for others.
pub open spec fn input_line(w: WireDecl) -> Seq<char> {
    match w.def {
        WireDef::Input { name, width } => "  input ["@ + int_text(width as int) + "-1:0] "@ + name@
            + ",\n"@,
        _ => Seq::empty(),
    }
}

pub open spec fn inputs_text(ws: Seq<WireDecl>) -> Seq<char>
    decreases ws.len(),
{
    if ws.len() == 0 {
        Seq::empty()
    } else {
        inputs_text(ws.drop_last()) + input_line(ws.last())
    }
}

pub open spec fn decls_text(g: &Graph, ws: Seq<WireDecl>) -> Seq<char>
    decreases ws.len(),
{
    if ws.len() == 0 {
        Seq::empty()
    } else {
        decls_text(g, ws.drop_last()) + decl_line(g, ws.last())
    }
}

/// The clocked block of a register.
pub open spec fn register_text(g: &Graph, clk: Seq<char>, r: RegisterBlock) -> Seq<char> {
    "always @(posedge "@ + clk + ") begin\n                            "@ + wire_name(g, r.class)
        + " <= "@ + wire_name(g, r.d) + ";\n                        end\n"@
}

pub open spec fn registers_text(g: &Graph, clk: Seq<char>, rs: Seq<RegisterBlock>) -> Seq<char>
    decreases rs.len(),
{
    if rs.len() == 0 {
        Seq::empty()
    } else {
        registers_text(g, clk, rs.drop_last()) + register_text(g, clk, rs.last())
    }
}

pub open spec fn binding_text(g: &Graph, b: PortBinding) -> Seq<char> {
    "  ."@ + b.port@ + "("@ + wire_name(g, b.wire) + "),"@
}

/// The bindings, one per line.
pub open spec fn bindings_text(g: &Graph, bs: Seq<PortBinding>) -> Seq<char>
    decreases bs.len(),
{
    if bs.len() == 0 {
        Seq::empty()
    } else if bs.len() == 1 {
        binding_text(g, bs[0])
    } else {
        bindings_text(g, bs.drop_last()) + "\n"@ + binding_text(g, bs.last())
    }
}

/// Name of the instance held by class `c`.
pub open spec fn instance_name(g: &Graph, c: usize) -> Seq<char> {
    "module_"@ + g.class_names@[c as int]@
}

pub open spec fn instance_text(g: &Graph, r: InstanceRecord) -> Seq<char> {
    "  "@ + r.module@ + " "@ + instance_name(g, r.class) + " ("@ + bindings_text(g, r.outputs@)
        + ");\n"@
}

pub open spec fn instances_text(g: &Graph, is: Seq<InstanceRecord>) -> Seq<char>
    decreases is.len(),
{
    if is.len() == 0 {
        Seq::empty()
    } else {
        instances_text(g, is.drop_last()) + instance_text(g, is.last())
    }
}

/// The whole module.
pub open spec fn verilog_text(g: &Graph, n: Netlist, clk: Seq<char>) -> Seq<char> {
    "module top(\n"@ + inputs_text(n.wires@) + "  \n);\n"@ + decls_text(g, n.wires@) + "  \n"@
        + registers_text(g, clk, n.registers@) + "\n"@ + instances_text(g, n.instances@)
        + "endmodule"@
}

/// Every class that the netlist names is a class of the graph.
pub open spec fn in_graph(g: &Graph, n: Netlist) -> bool {
    let nc = g.class_names@.len();
    &&& forall|i: int|
        0 <= i < n.wires@.len() ==> #[trigger] n.wires@[i].class < nc && match n.wires@[i].def {
            WireDef::Binary { lhs, rhs, .. } => lhs < nc && rhs < nc,
            WireDef::Slice { arg, .. } => arg < nc,
            _ => true,
        }
    &&& forall|i: int|
        0 <= i < n.registers@.len() ==> #[trigger] n.registers@[i].class < nc && n.registers@[i].d
            < nc
    &&& forall|k: int|
        0 <= k < n.instances@.len() ==> #[trigger] n.instances@[k].class < nc && forall|b: int|
            0 <= b < n.instances@[k].outputs@.len() ==> #[trigger] n.instances@[k].outputs@[b].wire
                < nc
}

proof fn lemma_wire_in_graph(g: &Graph, choices: Seq<usize>, c: usize, def: WireDef)
    requires
        g.wf(),
        g.valid_choices(choices),
        c < g.class_names@.len(),
        crate::lower::def_matches(def, class_shape(g, choices, c as int)),
    ensures
        match def {
            WireDef::Binary { lhs, rhs, .. } => lhs < g.class_names@.len() && rhs
                < g.class_names@.len(),
            WireDef::Slice { arg, .. } => arg < g.class_names@.len(),
            _ => true,
        },
{
    lemma_edges_valid(g, choices, c as int);
    let e = class_shape(g, choices, c as int).edges();
    match def {
        WireDef::Binary { .. } => {
            assert(e[0] < g.class_names@.len() && e[1] < g.class_names@.len());
        },
        WireDef::Slice { .. } => {
            assert(e[0] < g.class_names@.len());
        },
        _ => {},
    }
}

proof fn lemma_lowered_in_graph(g: &Graph, choices: Seq<usize>, roots: Set<usize>, n: Netlist)
    requires
        g.wf(),
        g.valid_choices(choices),
        lowers(g, choices, roots, n),
    ensures
        in_graph(g, n),
{
    assert forall|i: int| 0 <= i < n.wires@.len() implies #[trigger] n.wires@[i].class
        < g.class_names@.len() && match n.wires@[i].def {
        WireDef::Binary { lhs, rhs, .. } => lhs < g.class_names@.len() && rhs
            < g.class_names@.len(),
        WireDef::Slice { arg, .. } => arg < g.class_names@.len(),
        _ => true,
    } by {
        lemma_wire_in_graph(g, choices, n.wires@[i].class, n.wires@[i].def);
    }
    assert forall|i: int| 0 <= i < n.registers@.len() implies #[trigger] n.registers@[i].class
        < g.class_names@.len() && n.registers@[i].d < g.class_names@.len() by {
        let c = n.registers@[i].class;
        lemma_edges_valid(g, choices, c as int);
        assert(class_shape(g, choices, c as int).edges()[0] < g.class_names@.len());
    }
}

fn push_wire(out: &mut String, g: &Graph, c: usize)
    requires
        c < g.class_names@.len(),
    ensures
        final(out)@ == old(out)@ + wire_name(g, c),
{
    out.append("wire_");
    out.append(g.class_names[c].as_str());
    assert(out@ =~= old(out)@ + wire_name(g, c));
}

fn push_input_line(out: &mut String, w: &WireDecl)
    ensures
        final(out)@ == old(out)@ + input_line(*w),
{
    match &w.def {
        WireDef::Input { name, width } => {
            out.append("  input [");
            push_int(out, *width);
            out.append("-1:0] ");
            out.append(name.as_str());
            out.append(",\n");
            assert(out@ =~= old(out)@ + input_line(*w));
        },
        _ => {
            assert(out@ =~= old(out)@ + input_line(*w));
        },
    }
}

fn push_decl_line(out: &mut String, g: &Graph, w: &WireDecl)
    requires
        w.class < g.class_names@.len(),
        match w.def {
            WireDef::Binary { lhs, rhs, .. } => lhs < g.class_names@.len() && rhs
                < g.class_names@.len(),
            WireDef::Slice { arg, .. } => arg < g.class_names@.len(),
            _ => true,
        },
    ensures
        final(out)@ == old(out)@ + decl_line(g, *w),
{
    match &w.def {
        WireDef::Input { name, width } => {
            out.append("  logic [");
            push_int(out, *width);
            out.append("-1:0] ");
            push_wire(out, g, w.class);
            out.append(" = ");
            out.append(name.as_str());
            out.append(";\n");
        },
        WireDef::Init(v) => {
            out.append("  logic ");
            push_wire(out, g, w.class);
            out.append(" = ");
            push_int(out, *v);
            out.append(";\n");
        },
        WireDef::Binary { op, lhs, rhs } => {
            out.append("  logic ");
            push_wire(out, g, w.class);
            out.append(" = ");
            let ghost mid = out@;
            match op {
                BinOp::Concat => {
                    out.append("{ ");
                    push_wire(out, g, *lhs);
                    out.append(", ");
                    push_wire(out, g, *rhs);
                    out.append(" }");
                },
                BinOp::Xor => {
                    push_wire(out, g, *lhs);
                    out.append("^");
                    push_wire(out, g, *rhs);
                },
                BinOp::And => {
                    push_wire(out, g, *lhs);
                    out.append("&");
                    push_wire(out, g, *rhs);
                },
                BinOp::Or => {
                    push_wire(out, g, *lhs);
                    out.append("|");
                    push_wire(out, g, *rhs);
                },
            }
            assert(out@ =~= mid + binary_text(g, *op, *lhs, *rhs));
            out.append(";\n");
        },
        WireDef::Slice { hi, lo, arg } => {
            out.append("  logic ");
            push_wire(out, g, w.class);
            out.append(" = ");
            push_wire(out, g, *arg);
            out.append("[");
            push_int(out, *hi);
            out.append(":");
            push_int(out, *lo);
            out.append("];\n");
        },
    }
    assert(out@ =~= old(out)@ + decl_line(g, *w));
}

fn push_register(out: &mut String, g: &Graph, clk: &str, r: &RegisterBlock)
    requires
        r.class < g.class_names@.len(),
        r.d < g.class_names@.len(),
    ensures
        final(out)@ == old(out)@ + register_text(g, clk@, *r),
{
    out.append("always @(posedge ");
    out.append(clk);
    out.append(") begin\n                            ");
    push_wire(out, g, r.class);
    out.append(" <= ");
    push_wire(out, g, r.d);
    out.append(";\n                        end\n");
    assert(out@ =~= old(out)@ + register_text(g, clk@, *r));
}

fn push_binding(out: &mut String, g: &Graph, b: &PortBinding)
    requires
        b.wire < g.class_names@.len(),
    ensures
        final(out)@ == old(out)@ + binding_text(g, *b),
{
    out.append("  .");
    out.append(b.port.as_str());
    out.append("(");
    push_wire(out, g, b.wire);
    out.append("),");
    assert(out@ =~= old(out)@ + binding_text(g, *b));
}

fn push_instance(out: &mut String, g: &Graph, r: &InstanceRecord)
    requires
        r.class < g.class_names@.len(),
        forall|b: int| 0 <= b < r.outputs@.len() ==> #[trigger] r.outputs@[b].wire < g.class_names@.len(),
    ensures
        final(out)@ == old(out)@ + instance_text(g, *r),
{
    out.append("  ");
    out.append(r.module.as_str());
    out.append(" ");
    out.append("module_");
    out.append(g.class_names[r.class].as_str());
    out.append(" (");
    let ghost head = out@;
    let bs = &r.outputs;
    let mut k: usize = 0;
    while k < bs.len()
        invariant
            k <= bs@.len(),
            forall|b: int| 0 <= b < bs@.len() ==> #[trigger] bs@[b].wire < g.class_names@.len(),
            out@ == head + bindings_text(g, bs@.subrange(0, k as int)),
        decreases bs@.len() - k,
    {
        let ghost before = out@;
        if k > 0 {
            out.append("\n");
        }
        push_binding(out, g, &bs[k]);
        proof {
            let p = bs@.subrange(0, k + 1);
            assert(p.drop_last() =~= bs@.subrange(0, k as int));
            if k == 0 {
                assert(out@ =~= head + bindings_text(g, p));
            } else {
                assert(out@ =~= head + bindings_text(g, p));
            }
        }
        k = k + 1;
    }
    assert(bs@.subrange(0, bs@.len() as int) =~= bs@);
    out.append(");\n");
    assert(out@ =~= old(out)@ + instance_text(g, *r));
}

/// Prints a netlist as one top-level module: the input ports, the wire
/// declarations, the clocked register blocks and the module instances.
pub fn render(g: &Graph, n: &Netlist, clk_name: &str) -> (r: String)
    requires
        in_graph(g, *n),
    ensures
        r@ == verilog_text(g, *n, clk_name@),
{
    let mut out = String::new();
    out.append("module top(\n");
    let ghost h0 = out@;
    let mut i: usize = 0;
    while i < n.wires.len()
        invariant
            i <= n.wires@.len(),
            out@ == h0 + inputs_text(n.wires@.subrange(0, i as int)),
        decreases n.wires@.len() - i,
    {
        push_input_line(&mut out, &n.wires[i]);
        proof {
            assert(n.wires@.subrange(0, i + 1).drop_last() =~= n.wires@.subrange(0, i as int));
            assert(out@ =~= h0 + inputs_text(n.wires@.subrange(0, i + 1)));
        }
        i = i + 1;
    }
    assert(n.wires@.subrange(0, n.wires@.len() as int) =~= n.wires@);
    out.append("  \n);\n");
    let ghost h1 = out@;
    let mut i: usize = 0;
    while i < n.wires.len()
        invariant
            in_graph(g, *n),
            i <= n.wires@.len(),
            out@ == h1 + decls_text(g, n.wires@.subrange(0, i as int)),
        decreases n.wires@.len() - i,
    {
        proof {
            assert(n.wires@[i as int].class < g.class_names@.len());
        }
        push_decl_line(&mut out, g, &n.wires[i]);
        proof {
            assert(n.wires@.subrange(0, i + 1).drop_last() =~= n.wires@.subrange(0, i as int));
            assert(out@ =~= h1 + decls_text(g, n.wires@.subrange(0, i + 1)));
        }
        i = i + 1;
    }
    out.append("  \n");
    let ghost h2 = out@;
    let mut i: usize = 0;
    while i < n.registers.len()
        invariant
            in_graph(g, *n),
            i <= n.registers@.len(),
            out@ == h2 + registers_text(g, clk_name@, n.registers@.subrange(0, i as int)),
        decreases n.registers@.len() - i,
    {
        proof {
            assert(n.registers@[i as int].class < g.class_names@.len());
        }
        push_register(&mut out, g, clk_name, &n.registers[i]);
        proof {
            assert(n.registers@.subrange(0, i + 1).drop_last() =~= n.registers@.subrange(
                0,
                i as int,
            ));
            assert(out@ =~= h2 + registers_text(
                g,
                clk_name@,
                n.registers@.subrange(0, i + 1),
            ));
        }
        i = i + 1;
    }
    assert(n.registers@.subrange(0, n.registers@.len() as int) =~= n.registers@);
    out.append("\n");
    let ghost h3 = out@;
    let mut i: usize = 0;
    while i < n.instances.len()
        invariant
            in_graph(g, *n),
            i <= n.instances@.len(),
            out@ == h3 + instances_text(g, n.instances@.subrange(0, i as int)),
        decreases n.instances@.len() - i,
    {
        proof {
            assert(n.instances@[i as int].class < g.class_names@.len());
        }
        push_instance(&mut out, g, &n.instances[i]);
        proof {
            assert(n.instances@.subrange(0, i + 1).drop_last() =~= n.instances@.subrange(
                0,
                i as int,
            ));
            assert(out@ =~= h3 + instances_text(g, n.instances@.subrange(0, i + 1)));
        }
        i = i + 1;
    }
    assert(n.instances@.subrange(0, n.instances@.len() as int) =~= n.instances@);
    out.append("endmodule");
    assert(out@ =~= verilog_text(g, *n, clk_name@));
    out
}

/// Lowers the classes reached from the output ports through the chosen nodes
/// and prints them as one module clocked by `clk_name`.
pub fn to_verilog_egraph_serialize(egraph: &Graph, choices: &Vec<usize>, clk_name: &str) -> (r:
    Result<String, LowerError>)
    requires
        egraph.wf(),
        egraph.valid_choices(choices@),
    ensures
        r is Ok <==> ((forall|i: int|
            0 <= i < egraph.nodes@.len() ==> !#[trigger] is_malformed_marker(egraph, i))
            && forall|c: usize|
            c < egraph.class_names@.len() && reachable(egraph, choices@, port_roots(egraph), c)
                ==> !(#[trigger] class_shape(egraph, choices@, c as int)).is_error()),
        r matches Err(e) ==> (e is MalformedPort && e->node < egraph.nodes@.len()
            && is_malformed_marker(egraph, e->node as int)) || (e.class() < egraph.class_names@.len()
            && reachable(egraph, choices@, port_roots(egraph), e.class()) && e.describes(
            e.class(),
            class_shape(egraph, choices@, e.class() as int),
        )),
        r matches Ok(s) ==> exists|n: Netlist|
            lowers(egraph, choices@, port_roots(egraph), n) && s@ == #[trigger] verilog_text(
                egraph,
                n,
                clk_name@,
            ),
{
    let roots = match output_roots(egraph) {
        Ok(v) => v,
        Err(e) => {
            return Err(e);
        },
    };
    let n = match lower(egraph, choices, &roots) {
        Ok(n) => n,
        Err(e) => {
            return Err(e);
        },
    };
    proof {
        lemma_lowered_in_graph(egraph, choices@, port_roots(egraph), n);
    }
    let s = render(egraph, &n, clk_name);
    assert(lowers(egraph, choices@, port_roots(egraph), n) && s@ == verilog_text(
        egraph,
        n,
        clk_name@,
    ));
    Ok(s)
}

} // verus!
