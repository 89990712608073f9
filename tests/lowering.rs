use churchroad::{
    to_verilog_egraph_serialize, AnythingExtractor, Graph, LowerError, Node,
};

fn node(op: &str, children: &[usize], eclass: usize) -> Node {
    Node { op: op.to_string(), children: children.to_vec(), eclass }
}

/// One class per node, named by `names`.
fn graph(nodes: Vec<Node>, names: &[&str]) -> Graph {
    let class_nodes = (0..nodes.len()).map(|i| vec![i]).collect();
    Graph {
        nodes,
        class_names: names.iter().map(|s| s.to_string()).collect(),
        class_nodes,
    }
}

fn lower_first_choices(g: &Graph, clk: &str) -> Result<String, LowerError> {
    assert!(g.is_well_formed());
    let choices = AnythingExtractor.extract(g, &[]);
    assert!(g.are_valid_choices(&choices));
    to_verilog_egraph_serialize(g, &choices, clk)
}

/// A register whose data input is its own class.
fn self_loop() -> Graph {
    graph(
        vec![
            node("0", &[], 0),
            node("Reg", &[0], 1),
            node("Op1", &[1, 2], 2),
            node("\"\"", &[], 3),
            node("\"out\"", &[], 4),
            node("Output", &[], 5),
            node("IsPort", &[3, 4, 5, 2], 6),
        ],
        &["i64-0", "5", "6", "String-1", "String-2", "3", "7"],
    )
}

#[test]
fn extract_cycle() {
    let g = self_loop();
    assert_eq!(
        "module top(
  
);
  logic wire_6 = 0;
  
always @(posedge clk) begin
                            wire_6 <= wire_6;
                        end

endmodule",
        lower_first_choices(&g, "clk").unwrap()
    );
}

#[test]
fn compile_module_instance() {
    // Two variables and an instance output, all marked as outputs.
    let g = graph(
        vec![
            node("\"a\"", &[], 0),
            node("8", &[], 1),
            node("Var", &[0, 1], 2),
            node("\"b\"", &[], 3),
            node("Var", &[3, 1], 4),
            node("\"some_module\"", &[], 5),
            node("StringNil", &[], 6),
            node("ExprNil", &[], 7),
            node("ModuleInstance", &[5, 6, 7], 8),
            node("\"out\"", &[], 9),
            node("GetOutput", &[8, 9], 10),
            node("Output", &[], 11),
            node("\"\"", &[], 12),
            node("IsPort", &[12, 0, 11, 2], 13),
            node("IsPort", &[12, 3, 11, 4], 14),
            node("IsPort", &[12, 9, 11, 10], 15),
        ],
        &[
            "String-0", "i64-0", "2", "String-1", "4", "String-2", "10", "11", "12",
            "String-3", "13", "14", "String-4", "15", "16", "17",
        ],
    );
    let out = lower_first_choices(&g, "").unwrap();
    assert_eq!(
        out,
        "module top(
  input [8-1:0] b,
  input [8-1:0] a,
  
);
  logic [8-1:0] wire_4 = b;
  logic [8-1:0] wire_2 = a;
  

  some_module module_12 (  .out(wire_13),);
endmodule"
    );
}

#[test]
fn register_in_cycle_declared_once() {
    // r = Reg 3 (x), x = And(r, a): the register feeds itself through an and.
    let g = graph(
        vec![
            node("3", &[], 0),
            node("Reg", &[0], 1),
            node("Op1", &[1, 4], 2),
            node("And", &[], 3),
            node("Op2", &[3, 2, 7], 4),
            node("\"a\"", &[], 5),
            node("1", &[], 6),
            node("Var", &[5, 6], 7),
            node("\"\"", &[], 8),
            node("\"r\"", &[], 9),
            node("Output", &[], 10),
            node("IsPort", &[8, 9, 10, 2], 11),
        ],
        &["i64-3", "1", "r", "3", "x", "String-5", "i64-1", "a", "String-8", "String-9", "10", "11"],
    );
    let out = lower_first_choices(&g, "clk").unwrap();
    assert_eq!(
        out,
        "module top(
  input [1-1:0] a,
  
);
  logic wire_r = 3;
  logic wire_x = wire_r&wire_a;
  logic [1-1:0] wire_a = a;
  
always @(posedge clk) begin
                            wire_r <= wire_x;
                        end

endmodule"
    );
    assert_eq!(out.matches("logic wire_r").count(), 1);
    assert_eq!(out.matches("always @").count(), 1);
}

/// Two outputs read from one instance class, and one from another instance
/// of the same module.
fn instances() -> Graph {
    graph(
        vec![
            node("\"m\"", &[], 0),
            node("StringNil", &[], 1),
            node("ExprNil", &[], 2),
            node("ModuleInstance", &[0, 1, 2], 3),
            node("ModuleInstance", &[0, 2, 1], 4),
            node("\"p\"", &[], 5),
            node("\"q\"", &[], 6),
            node("GetOutput", &[3, 5], 7),
            node("GetOutput", &[3, 6], 8),
            node("GetOutput", &[4, 5], 9),
            node("Output", &[], 10),
            node("\"\"", &[], 11),
            node("IsPort", &[11, 5, 10, 7], 12),
            node("IsPort", &[11, 6, 10, 8], 13),
            node("IsPort", &[11, 5, 10, 9], 14),
        ],
        &[
            "String-0", "1", "2", "3", "4", "String-5", "String-6", "7", "8", "9", "10",
            "String-11", "12", "13", "14",
        ],
    )
}

#[test]
fn shared_and_separate_instances() {
    let out = lower_first_choices(&instances(), "clk").unwrap();
    assert_eq!(
        out,
        "module top(
  
);
  

  m module_4 (  .p(wire_9),);
  m module_3 (  .q(wire_8),
  .p(wire_7),);
endmodule"
    );
    assert_eq!(out.matches("module_3 (").count(), 1);
    assert_eq!(out.matches("module_4 (").count(), 1);
}

#[test]
fn unsupported_operator_fails() {
    let g = graph(
        vec![
            node("Mul", &[], 0),
            node("\"a\"", &[], 1),
            node("4", &[], 2),
            node("Var", &[1, 2], 3),
            node("Op2", &[0, 3, 3], 4),
            node("\"\"", &[], 5),
            node("Output", &[], 6),
            node("IsPort", &[5, 1, 6, 4], 7),
        ],
        &["0", "String-1", "i64-2", "3", "4", "String-5", "6", "7"],
    );
    assert_eq!(lower_first_choices(&g, "clk"), Err(LowerError::Unsupported { class: 4 }));
}

#[test]
fn unknown_tag_fails() {
    let g = graph(
        vec![
            node("Frobnicate", &[], 0),
            node("\"\"", &[], 1),
            node("Output", &[], 2),
            node("IsPort", &[1, 1, 2, 0], 3),
        ],
        &["0", "String-1", "2", "3"],
    );
    assert_eq!(lower_first_choices(&g, "clk"), Err(LowerError::Unsupported { class: 0 }));
}

#[test]
fn malformed_literal_fails() {
    let g = graph(
        vec![
            node("x1", &[], 0),
            node("Reg", &[0], 1),
            node("Op1", &[1, 2], 2),
            node("\"\"", &[], 3),
            node("Output", &[], 4),
            node("IsPort", &[3, 3, 4, 2], 5),
        ],
        &["0", "1", "2", "String-3", "4", "5"],
    );
    assert_eq!(
        lower_first_choices(&g, "clk"),
        Err(LowerError::MalformedLiteral { class: 2 })
    );
}

#[test]
fn ambiguous_instance_fails() {
    let mut g = instances();
    // The class of the first instance also holds the second instance node.
    g.class_nodes[3] = vec![3, 4];
    assert_eq!(
        lower_first_choices(&g, "clk"),
        Err(LowerError::AmbiguousInstance { class: 8 })
    );
}

#[test]
fn malformed_port_fails() {
    let g = graph(
        vec![node("\"\"", &[], 0), node("IsPort", &[0, 0], 1)],
        &["String-0", "1"],
    );
    assert_eq!(lower_first_choices(&g, "clk"), Err(LowerError::MalformedPort { node: 1 }));
}

#[test]
fn slice_and_concat() {
    let g = graph(
        vec![
            node("\"v\"", &[], 0),
            node("4", &[], 1),
            node("Var", &[0, 1], 2),
            node("3", &[], 3),
            node("-1", &[], 4),
            node("Extract", &[3, 4], 5),
            node("Op1", &[5, 2], 6),
            node("Concat", &[], 7),
            node("Op2", &[7, 6, 2], 8),
            node("\"\"", &[], 9),
            node("Output", &[], 10),
            node("IsPort", &[9, 0, 10, 8], 11),
        ],
        &["String-0", "i64-1", "v", "i64-3", "i64-4", "5", "s", "7", "c", "String-9", "10", "11"],
    );
    assert_eq!(
        lower_first_choices(&g, "clk").unwrap(),
        "module top(
  input [4-1:0] v,
  
);
  logic wire_c = { wire_s, wire_v };
  logic [4-1:0] wire_v = v;
  logic wire_s = wire_v[3:-1];
  

endmodule"
    );
}

#[test]
fn unreached_classes_are_not_lowered() {
    let mut g = self_loop();
    // An unsupported node that no output reaches.
    g.nodes.push(node("Mul", &[], 7));
    g.class_names.push("8".to_string());
    g.class_nodes.push(vec![7]);
    assert!(lower_first_choices(&g, "clk").is_ok());
}

#[test]
fn ill_formed_graph_is_detected() {
    let mut g = self_loop();
    g.nodes[2].children.push(99);
    assert!(!g.is_well_formed());
    let mut h = self_loop();
    h.class_names[1] = "6".to_string();
    assert!(!h.is_well_formed());
}
