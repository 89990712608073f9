//! The closed vocabulary of operators that lowering understands, and the
//! decoding of a class's chosen node into it.
use vstd::prelude::*;
use crate::graph::{Graph, Node};
use crate::text::{i64_of_text, parse_i64, str_eq, starts_with, strip_quotes, unquoted};

verus! {

/// A two-input combinational operator.
#[derive(Clone, Copy, Debug, PartialEq, Eq, Structural)]
pub enum BinOp {
    Concat,
    Xor,
    And,
    Or,
}

/// What a chosen node means to lowering, as plain values.
pub enum Kind {
    /// Carries no runtime value (markers, operator tags, literals).
    Ignored,
    /// A register with its initial value and the class of its data input.
    Register { init: i64, d: usize },
    /// A two-input operator over the classes `lhs` and `rhs`.
    Binary { op: BinOp, lhs: usize, rhs: usize },
    /// Bits `hi` down to `lo` of class `arg`.
    Slice { hi: i64, lo: i64, arg: usize },
    /// An input signal with its name and width.
    Input { name: String, width: i64 },
    /// Output `port` of the instance of `module` held by class `instance`.
    Output { instance: usize, port: String, module: String },
    /// An operator, arity or child shape outside the vocabulary.
    Unsupported,
    /// A literal that does not read as the integer or string expected.
    BadLiteral,
    /// An instance class that holds more than one node.
    Ambiguous,
}

/// [`Kind`] with its texts as character sequences.
pub enum Shape {
    Ignored,
    Register { init: i64, d: usize },
    Binary { op: BinOp, lhs: usize, rhs: usize },
    Slice { hi: i64, lo: i64, arg: usize },
    Input { name: Seq<char>, width: i64 },
    Output { instance: usize, port: Seq<char>, module: Seq<char> },
    Unsupported,
    BadLiteral,
    Ambiguous,
}

impl Kind {
    pub open spec fn view(&self) -> Shape {
        match self {
            Kind::Ignored => Shape::Ignored,
            Kind::Register { init, d } => Shape::Register { init: *init, d: *d },
            Kind::Binary { op, lhs, rhs } => Shape::Binary { op: *op, lhs: *lhs, rhs: *rhs },
            Kind::Slice { hi, lo, arg } => Shape::Slice { hi: *hi, lo: *lo, arg: *arg },
            Kind::Input { name, width } => Shape::Input { name: name@, width: *width },
            Kind::Output { instance, port, module } => Shape::Output {
                instance: *instance,
                port: port@,
                module: module@,
            },
            Kind::Unsupported => Shape::Unsupported,
            Kind::BadLiteral => Shape::BadLiteral,
            Kind::Ambiguous => Shape::Ambiguous,
        }
    }
}

impl Shape {
    /// Lowering cannot go on past this node.
    pub open spec fn is_error(self) -> bool {
        self is Unsupported || self is BadLiteral || self is Ambiguous
    }

    /// The classes whose wires this node reads, in the order they are visited.
    pub open spec fn edges(self) -> Seq<usize> {
        match self {
            Shape::Register { d, .. } => seq![d],
            Shape::Binary { lhs, rhs, .. } => seq![lhs, rhs],
            Shape::Slice { arg, .. } => seq![arg],
            _ => Seq::empty(),
        }
    }

    /// The node is lowered to a wire declaration of its own.
    pub open spec fn declares_wire(self) -> bool {
        self is Register || self is Binary || self is Slice || self is Input
    }
}

/// Operator texts that stand for relations, operator tags and the unit value.
pub open spec fn is_ignored_op(op: Seq<char>) -> bool {
    op == "()"@ || op == "IsPort"@ || op == "Input"@ || op == "Output"@ || op == "Concat"@
        || op == "Extract"@ || op == "Or"@ || op == "And"@ || op == "Add"@ || op == "Shr"@
        || op == "Eq"@ || op == "Xor"@ || op == "Reg"@
}

/// Class of the node's `k`-th child.
pub open spec fn child_class(g: &Graph, t: Node, k: int) -> usize {
    g.nodes@[t.children@[k] as int].eclass
}

/// Operator text of the node's `k`-th child.
pub open spec fn child_op(g: &Graph, t: Node, k: int) -> Seq<char> {
    g.nodes@[t.children@[k] as int].op@
}

/// Meaning of an `Op1` / `Op2` application `t`.
pub open spec fn op_shape(g: &Graph, t: Node) -> Shape {
    if t.children@.len() < 1 {
        Shape::Unsupported
    } else {
        let o = g.nodes@[t.children@[0] as int];
        let oop = o.op@;
        if oop == "Reg"@ {
            if o.children@.len() < 1 || t.children@.len() < 2 {
                Shape::Unsupported
            } else {
                match i64_of_text(child_op(g, o, 0)) {
                    Some(v) => Shape::Register { init: v, d: child_class(g, t, 1) },
                    None => Shape::BadLiteral,
                }
            }
        } else if oop == "Concat"@ || oop == "Xor"@ || oop == "And"@ || oop == "Or"@ {
            if t.children@.len() != 3 {
                Shape::Unsupported
            } else {
                Shape::Binary {
                    op: if oop == "Concat"@ {
                        BinOp::Concat
                    } else if oop == "Xor"@ {
                        BinOp::Xor
                    } else if oop == "And"@ {
                        BinOp::And
                    } else {
                        BinOp::Or
                    },
                    lhs: child_class(g, t, 1),
                    rhs: child_class(g, t, 2),
                }
            }
        } else if oop == "Extract"@ {
            if t.children@.len() != 2 || o.children@.len() != 2 {
                Shape::Unsupported
            } else {
                match (i64_of_text(child_op(g, o, 0)), i64_of_text(child_op(g, o, 1))) {
                    (Some(hi), Some(lo)) => Shape::Slice { hi, lo, arg: child_class(g, t, 1) },
                    _ => Shape::BadLiteral,
                }
            }
        } else {
            Shape::Unsupported
        }
    }
}

/// Meaning of a `Var` node `t`.
pub open spec fn var_shape(g: &Graph, t: Node) -> Shape {
    if t.children@.len() != 2 {
        Shape::Unsupported
    } else {
        match (unquoted(child_op(g, t, 0)), i64_of_text(child_op(g, t, 1))) {
            (Some(name), Some(width)) => Shape::Input { name, width },
            _ => Shape::BadLiteral,
        }
    }
}

/// Meaning of a `GetOutput` node `t`.
pub open spec fn output_shape(g: &Graph, t: Node) -> Shape {
    if t.children@.len() != 2 {
        Shape::Unsupported
    } else {
        let inst = child_class(g, t, 0);
        match unquoted(child_op(g, t, 1)) {
            None => Shape::BadLiteral,
            Some(port) => {
                let members = g.class_nodes@[inst as int]@;
                if members.len() != 1 {
                    Shape::Ambiguous
                } else {
                    let m = g.nodes@[members[0] as int];
                    if m.op@ != "ModuleInstance"@ || m.children@.len() != 3 {
                        Shape::Unsupported
                    } else {
                        match unquoted(child_op(g, m, 0)) {
                            Some(module) => Shape::Output { instance: inst, port, module },
                            None => Shape::BadLiteral,
                        }
                    }
                }
            }
        }
    }
}

/// Meaning of the node chosen for class `c`.
pub open spec fn class_shape(g: &Graph, choices: Seq<usize>, c: int) -> Shape {
    let t = g.nodes@[choices[c] as int];
    let op = t.op@;
    if is_ignored_op(op) || i64_of_text(op) is Some {
        Shape::Ignored
    } else if op == "Op1"@ || op == "Op2"@ {
        op_shape(g, t)
    } else if op == "Var"@ {
        var_shape(g, t)
    } else if "String"@.len() <= g.class_names@[c]@.len() && g.class_names@[c]@.subrange(
        0,
        "String"@.len() as int,
    ) == "String"@ {
        Shape::Ignored
    } else if op == "GetOutput"@ {
        output_shape(g, t)
    } else {
        Shape::Unsupported
    }
}

fn is_ignored(op: &str) -> (r: bool)
    ensures
        r == is_ignored_op(op@),
{
    str_eq(op, "()") || str_eq(op, "IsPort") || str_eq(op, "Input") || str_eq(op, "Output")
        || str_eq(op, "Concat") || str_eq(op, "Extract") || str_eq(op, "Or") || str_eq(op, "And")
        || str_eq(op, "Add") || str_eq(op, "Shr") || str_eq(op, "Eq") || str_eq(op, "Xor")
        || str_eq(op, "Reg")
}

fn decode_op(g: &Graph, t: &Node) -> (r: Kind)
    requires
        g.wf(),
        forall|k: int| 0 <= k < t.children@.len() ==> #[trigger] t.children@[k] < g.nodes@.len(),
    ensures
        r@ == op_shape(g, *t),
{
    if t.children.len() < 1 {
        return Kind::Unsupported;
    }
    let o = &g.nodes[t.children[0]];
    let oop = o.op.as_str();
    if str_eq(oop, "Reg") {
        if o.children.len() < 1 || t.children.len() < 2 {
            Kind::Unsupported
        } else {
            match parse_i64(g.nodes[o.children[0]].op.as_str()) {
                Some(v) => Kind::Register { init: v, d: g.nodes[t.children[1]].eclass },
                None => Kind::BadLiteral,
            }
        }
    } else if str_eq(oop, "Concat") || str_eq(oop, "Xor") || str_eq(oop, "And") || str_eq(
        oop,
        "Or",
    ) {
        if t.children.len() != 3 {
            Kind::Unsupported
        } else {
            let op = if str_eq(oop, "Concat") {
                BinOp::Concat
            } else if str_eq(oop, "Xor") {
                BinOp::Xor
            } else if str_eq(oop, "And") {
                BinOp::And
            } else {
                BinOp::Or
            };
            Kind::Binary {
                op,
                lhs: g.nodes[t.children[1]].eclass,
                rhs: g.nodes[t.children[2]].eclass,
            }
        }
    } else if str_eq(oop, "Extract") {
        if t.children.len() != 2 || o.children.len() != 2 {
            Kind::Unsupported
        } else {
            match (
                parse_i64(g.nodes[o.children[0]].op.as_str()),
                parse_i64(g.nodes[o.children[1]].op.as_str()),
            ) {
                (Some(hi), Some(lo)) => Kind::Slice { hi, lo, arg: g.nodes[t.children[1]].eclass },
                _ => Kind::BadLiteral,
            }
        }
    } else {
        Kind::Unsupported
    }
}

fn decode_var(g: &Graph, t: &Node) -> (r: Kind)
    requires
        g.wf(),
        forall|k: int| 0 <= k < t.children@.len() ==> #[trigger] t.children@[k] < g.nodes@.len(),
    ensures
        r@ == var_shape(g, *t),
{
    if t.children.len() != 2 {
        return Kind::Unsupported;
    }
    match (
        strip_quotes(g.nodes[t.children[0]].op.as_str()),
        parse_i64(g.nodes[t.children[1]].op.as_str()),
    ) {
        (Some(name), Some(width)) => Kind::Input { name, width },
        _ => Kind::BadLiteral,
    }
}

fn decode_output(g: &Graph, t: &Node) -> (r: Kind)
    requires
        g.wf(),
        forall|k: int| 0 <= k < t.children@.len() ==> #[trigger] t.children@[k] < g.nodes@.len(),
    ensures
        r@ == output_shape(g, *t),
{
    if t.children.len() != 2 {
        return Kind::Unsupported;
    }
    let inst = g.nodes[t.children[0]].eclass;
    let port = match strip_quotes(g.nodes[t.children[1]].op.as_str()) {
        Some(p) => p,
        None => {
            return Kind::BadLiteral;
        },
    };
    let members = &g.class_nodes[inst];
    if members.len() != 1 {
        return Kind::Ambiguous;
    }
    let m = &g.nodes[members[0]];
    if !str_eq(m.op.as_str(), "ModuleInstance") || m.children.len() != 3 {
        return Kind::Unsupported;
    }
    match strip_quotes(g.nodes[m.children[0]].op.as_str()) {
        Some(module) => Kind::Output { instance: inst, port, module },
        None => Kind::BadLiteral,
    }
}

/// Decodes the node chosen for class `c`.
pub fn decode(g: &Graph, choices: &Vec<usize>, c: usize) -> (r: Kind)
    requires
        g.wf(),
        g.valid_choices(choices@),
        c < g.class_names@.len(),
    ensures
        r@ == class_shape(g, choices@, c as int),
{
    let t = &g.nodes[choices[c]];
    let op = t.op.as_str();
    assert(forall|k: int| 0 <= k < t.children@.len() ==> #[trigger] t.children@[k] < g.nodes@.len())
        by {
        assert forall|k: int| 0 <= k < t.children@.len() implies #[trigger] t.children@[k]
            < g.nodes@.len() by {
            assert(g.nodes@[choices@[c as int] as int].children@[k] < g.nodes@.len());
        }
    }
    if is_ignored(op) || parse_i64(op).is_some() {
        Kind::Ignored
    } else if str_eq(op, "Op1") || str_eq(op, "Op2") {
        decode_op(g, t)
    } else if str_eq(op, "Var") {
        decode_var(g, t)
    } else if starts_with(g.class_names[c].as_str(), "String") {
        Kind::Ignored
    } else if str_eq(op, "GetOutput") {
        decode_output(g, t)
    } else {
        Kind::Unsupported
    }
}

} // verus!
