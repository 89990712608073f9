use churchroad::{to_verilog, Term, TermDag, TermError};

fn app(op: &str, children: &[usize]) -> Term {
    Term::App(op.to_string(), children.to_vec())
}

fn module(i: &str, d: &str, r: &str, m: &str) -> String {
    format!(
        "module top({i});\n            {i}\n            {d}\n            {r}\n            {m}\n        endmodule"
    )
}

#[test]
fn register_clocked_by_a_term() {
    let dag = TermDag {
        terms: vec![
            Term::Str("clk".to_string()),
            Term::Int(1),
            app("Var", &[0, 1]),
            Term::Int(0),
            Term::Str("a".to_string()),
            Term::Int(8),
            app("Var", &[4, 5]),
            app("Reg", &[3, 2, 6]),
        ],
    };
    assert!(dag.is_well_formed());
    assert_eq!(
        to_verilog(&dag, 7).unwrap(),
        module(
            "input [1-1:0] clk;\ninput [8-1:0] a;\n",
            "logic wire_7 = 0;\nlogic [1-1:0] wire_2 = clk;\nlogic [8-1:0] wire_6 = a;\n",
            "always @(posedge wire_2) begin\n                            wire_7 <= wire_6;\n                        end\n",
            ""
        )
    );
}

#[test]
fn register_feeding_itself() {
    // The data input of the register is the register itself.
    let dag = TermDag {
        terms: vec![Term::Int(0), Term::Str("c".to_string()), app("Reg", &[0, 1, 2])],
    };
    assert_eq!(
        to_verilog(&dag, 2).unwrap(),
        module(
            "",
            "logic wire_2 = 0;\n",
            "always @(posedge wire_1) begin\n                            wire_2 <= wire_2;\n                        end\n",
            ""
        )
    );
}

#[test]
fn lookup_table_constants_and_extension() {
    let dag = TermDag {
        terms: vec![
            app("LUT4", &[]),
            Term::Int(3),
            Term::Int(4),
            app("BV", &[1, 2]),
            app("ZeroExtend", &[3, 2]),
            Term::Int(0),
            app("Concat", &[4, 3]),
            app("Sketch1", &[0, 6]),
        ],
    };
    assert_eq!(
        to_verilog(&dag, 7).unwrap(),
        module(
            "",
            "logic wire_7;\nlogic wire_6 = { wire_4, wire_3 };\nlogic [4-1:0] wire_3 = 4'd3;\nlogic wire_4 = { 4'd0, wire_3 };\n",
            "",
            "lut4 lut4_7 (.in(wire_6), .out(wire_7));\n"
        )
    );
}

#[test]
fn slice_of_a_literal() {
    let dag = TermDag {
        terms: vec![Term::Int(7), Term::Int(0), app("Extract", &[1, 1, 0])],
    };
    assert_eq!(
        to_verilog(&dag, 2).unwrap(),
        module("", "logic wire_2 = wire_0[0:0];\nlogic [31:0] wire_0 = 7;\n", "", "")
    );
}

#[test]
fn ignored_operators_and_strings() {
    let dag = TermDag { terms: vec![app("Mux", &[]), Term::Str("s".to_string())] };
    assert_eq!(to_verilog(&dag, 0).unwrap(), module("", "", "", ""));
    assert_eq!(to_verilog(&dag, 1).unwrap(), module("", "", "", ""));
}

#[test]
fn unknown_operator_is_an_error() {
    let dag = TermDag {
        terms: vec![Term::Int(1), app("Mul", &[0, 0]), app("Concat", &[0, 1])],
    };
    assert_eq!(to_verilog(&dag, 2), Err(TermError::Unsupported { term: 1 }));
    let vars = TermDag { terms: vec![Term::Var("x".to_string())] };
    assert_eq!(to_verilog(&vars, 0), Err(TermError::Unsupported { term: 0 }));
}

#[test]
fn register_default_must_be_an_integer() {
    let dag = TermDag {
        terms: vec![Term::Str("z".to_string()), app("Reg", &[0, 0, 1])],
    };
    assert_eq!(to_verilog(&dag, 1), Err(TermError::MalformedLiteral { term: 1 }));
}

#[test]
fn dangling_child_is_detected() {
    let dag = TermDag { terms: vec![app("Concat", &[0, 5])] };
    assert!(!dag.is_well_formed());
}
