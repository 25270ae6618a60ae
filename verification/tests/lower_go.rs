//! Lowering Go functions to control-flow graphs.

use autoreview::dataflow::cfg::{CallTarget, Cfg, ClosureKind, EdgeKind, GuardOp, RhsShape, Stmt};
use autoreview::dataflow::lower::go::{function_name, function_returns_error, function_returns_pointer, lower_function};
use autoreview::langsupport::{parse_source, Language};

fn lower(source: &str) -> Cfg<Stmt> {
    let root = parse_source(Language::Go, source.as_bytes()).unwrap();
    let fn_node = root.children.iter().find(|n| n.named && n.kind == "function_declaration").expect("no function_declaration found");
    lower_function(fn_node)
}

#[test]
fn go_lowers_a_straight_line_function() {
    let cfg = lower("package p\nfunc f() {\n\tx := 1\n\treturn\n}\n");
    assert!(cfg.nodes.iter().any(|n| n.stmts.iter().any(|s| matches!(s, Stmt::Assign { lhs, .. } if lhs == "x"))));
    assert!(cfg.edges.iter().any(|(_, to, _)| *to == cfg.exit));
}

#[test]
fn go_lowers_an_if_else_into_true_false_edges() {
    let cfg = lower("package p\nfunc f(x int) {\n\tif x > 0 {\n\t\ty := 1\n\t\t_ = y\n\t} else {\n\t\tz := 2\n\t\t_ = z\n\t}\n}\n");
    assert!(cfg.edges.iter().any(|(_, _, kind)| *kind == EdgeKind::True));
    assert!(cfg.edges.iter().any(|(_, _, kind)| *kind == EdgeKind::False));
}

#[test]
fn recognizes_a_reslice_and_an_append_reassignment() {
    let cfg = lower("package p\nfunc f(full []int) []int {\n\tsub := full[2:4]\n\tsub = append(sub, 9)\n\treturn sub\n}\n");
    let reslice_found = cfg.nodes.iter().any(|n| n.stmts.iter().any(|s| matches!(s, Stmt::Assign { lhs, rhs: RhsShape::Reslice { of } } if lhs == "sub" && of == "full")));
    let append_found = cfg.nodes.iter().any(|n| {
        n.stmts.iter().any(|s| matches!(s, Stmt::Call { assigned_to: Some(a), args, .. } if a == "sub" && args.contains(&"sub".to_string())))
    });
    assert!(reslice_found, "got: {:#?}", cfg.nodes);
    assert!(append_found, "got: {:#?}", cfg.nodes);
}

#[test]
fn go_lowers_a_for_loop_with_a_back_edge() {
    let cfg = lower("package p\nfunc f() {\n\tfor i := 0; i < 3; i++ {\n\t\tx := i\n\t\t_ = x\n\t}\n}\n");
    assert!(cfg.edges.iter().any(|(_, _, kind)| *kind == EdgeKind::Loop));
}

#[test]
fn return_statement_carries_its_value_identifier() {
    let cfg = lower("package p\nfunc f() int {\n\tx := 1\n\treturn x\n}\n");
    assert!(cfg.nodes.iter().any(|n| n.stmts.iter().any(|s| matches!(s, Stmt::Return { value: Some(v) } if v == "x"))), "got: {:#?}", cfg.nodes);
}

#[test]
fn lowers_an_if_statements_initializer_clause() {
    let cfg = lower("package p\nfunc f() {\n\tif v := g(); v != nil {\n\t\t_ = v\n\t}\n}\n");
    assert!(
        cfg.nodes.iter().any(|n| n.stmts.iter().any(|s| matches!(s, Stmt::Call { assigned_to: Some(a), .. } if a == "v") || matches!(s, Stmt::Assign { lhs, .. } if lhs == "v"))),
        "got: {:#?}",
        cfg.nodes
    );
}

#[test]
fn lowers_an_uninitialized_pointer_var_declaration_as_nil() {
    let cfg = lower("package p\nfunc f() *T {\n\tvar e *T\n\treturn e\n}\n");
    assert!(cfg.nodes.iter().any(|n| n.stmts.iter().any(|s| matches!(s, Stmt::Assign { lhs, rhs: RhsShape::NilLiteral } if lhs == "e"))), "got: {:#?}", cfg.nodes);
}

#[test]
fn recognizes_a_call_assigned_to_a_variable_as_a_call_target() {
    let cfg = lower("package p\nfunc f() *T {\n\te := helper()\n\treturn e\n}\n");
    assert!(
        cfg.nodes.iter().any(|n| n.stmts.iter().any(|s| matches!(s, Stmt::Call { target: CallTarget::Named(name), assigned_to: Some(a), .. } if name == "helper" && a == "e"))),
        "got: {:#?}",
        cfg.nodes
    );
}

#[test]
fn recognizes_a_not_equal_nil_guard() {
    let cfg = lower("package p\nfunc f() error {\n\tvar e *T\n\tif e != nil {\n\t\treturn e\n\t}\n\treturn nil\n}\n");
    assert!(
        cfg.nodes.iter().any(|n| n.stmts.iter().any(|s| matches!(s, Stmt::Guard { var, op: GuardOp::NotEqual, .. } if var == "e"))),
        "got: {:#?}",
        cfg.nodes
    );
}

#[test]
fn function_metadata_helpers_recognize_error_and_pointer_returns() {
    let src = "package p\nfunc a() error { return nil }\nfunc b() (int, error) { return 0, nil }\nfunc c() *T { return nil }\nfunc d() int { return 0 }\n";
    let root = parse_source(Language::Go, src.as_bytes()).unwrap();
    let fns: Vec<_> = root.children.iter().filter(|n| n.kind == "function_declaration").collect();
    assert!(function_returns_error(fns[0]));
    assert!(function_returns_error(fns[1]));
    assert!(!function_returns_error(fns[2]));
    assert!(function_returns_pointer(fns[2]));
    assert!(!function_returns_pointer(fns[0]));
    assert_eq!(function_name(fns[2]).as_deref(), Some("c"));
}

#[test]
fn range_loop_binds_its_own_variables() {
    let cfg = lower("package p\nfunc f(items []string) {\n\tfor _, item := range items {\n\t\tprintln(item)\n\t}\n}\n");
    assert!(cfg.nodes.iter().any(|n| n.stmts.iter().any(|s| matches!(s, Stmt::LoopVarBind { vars } if vars == &vec!["item".to_string()]))), "got: {:#?}", cfg.nodes);
}

#[test]
fn a_three_clause_for_loop_does_not_bind_loop_vars() {
    let cfg = lower("package p\nfunc f() {\n\tfor i := 0; i < 3; i++ {\n\t\tprintln(i)\n\t}\n}\n");
    assert!(!cfg.nodes.iter().any(|n| n.stmts.iter().any(|s| matches!(s, Stmt::LoopVarBind { .. }))), "got: {:#?}", cfg.nodes);
}

#[test]
fn a_bare_goroutine_closure_captures_its_free_identifiers() {
    let cfg = lower("package p\nfunc f(items []string) {\n\tfor _, item := range items {\n\t\tgo func() {\n\t\t\tprintln(item)\n\t\t}()\n\t}\n}\n");
    assert!(
        cfg.nodes.iter().any(|n| n.stmts.iter().any(|s| matches!(s, Stmt::ClosureCapture { captured, kind: ClosureKind::Goroutine } if captured.contains(&"item".to_string())))),
        "got: {:#?}",
        cfg.nodes
    );
}

#[test]
fn a_shadowed_closure_excludes_the_shadowed_var_from_captured() {
    let cfg = lower("package p\nfunc f(items []string) {\n\tfor _, item := range items {\n\t\tgo func() {\n\t\t\titem := item\n\t\t\tprintln(item)\n\t\t}()\n\t}\n}\n");
    assert!(
        !cfg.nodes.iter().any(|n| n.stmts.iter().any(|s| matches!(s, Stmt::ClosureCapture { captured, .. } if captured.contains(&"item".to_string())))),
        "got: {:#?}",
        cfg.nodes
    );
}

#[test]
fn a_closure_with_parameters_is_not_treated_as_a_capture() {
    let cfg = lower("package p\nfunc f(items []string) {\n\tfor _, item := range items {\n\t\tgo func(x string) {\n\t\t\tprintln(x)\n\t\t}(item)\n\t}\n}\n");
    assert!(!cfg.nodes.iter().any(|n| n.stmts.iter().any(|s| matches!(s, Stmt::ClosureCapture { .. }))), "got: {:#?}", cfg.nodes);
}

#[test]
fn recognizes_an_address_of_argument_in_an_append_call() {
    let cfg = lower("package p\nfunc f(items []string) []*string {\n\tvar out []*string\n\tfor _, item := range items {\n\t\tout = append(out, &item)\n\t}\n\treturn out\n}\n");
    assert!(
        cfg.nodes.iter().any(|n| n.stmts.iter().any(|s| matches!(s, Stmt::Call { args, .. } if args.contains(&"&item".to_string())))),
        "got: {:#?}",
        cfg.nodes
    );
}

#[test]
fn recognizes_a_direct_address_of_assignment() {
    let cfg = lower("package p\nfunc f(items []string) {\n\tfor _, item := range items {\n\t\tp := &item\n\t\t_ = p\n\t}\n}\n");
    assert!(
        cfg.nodes.iter().any(|n| n.stmts.iter().any(|s| matches!(s, Stmt::Assign { lhs, rhs: RhsShape::AddressOf { of } } if lhs == "p" && of == "item"))),
        "got: {:#?}",
        cfg.nodes
    );
}

#[test]
fn recognizes_a_package_qualified_selector_call_assigned_to_a_variable() {
    let cfg = lower("package p\nfunc f(userInput string) {\n\tcmd := exec.Command(\"sh\", \"-c\", userInput)\n\t_ = cmd\n}\n");
    assert!(
        cfg.nodes.iter().any(
            |n| n.stmts.iter().any(|s| matches!(s, Stmt::Call { target: CallTarget::Named(name), args, assigned_to: Some(a) } if name == "exec.Command" && a == "cmd" && args.contains(&"userInput".to_string())))
        ),
        "got: {:#?}",
        cfg.nodes
    );
}

#[test]
fn recognizes_an_address_of_struct_literal_field_as_a_synthetic_call() {
    let cfg = lower("package p\nfunc f(userInput string) {\n\tcmd := &exec.Cmd{Path: userInput, Dir: \"/tmp\"}\n\t_ = cmd\n}\n");
    assert!(
        cfg.nodes.iter().any(|n| n.stmts.iter().any(
            |s| matches!(s, Stmt::Call { target: CallTarget::Named(name), args, assigned_to: None } if name == "exec.Cmd{Path}" && args == &vec!["userInput".to_string()])
        )),
        "got: {:#?}",
        cfg.nodes
    );
}

#[test]
fn a_struct_literal_field_set_to_a_string_literal_is_not_lowered_to_a_synthetic_call() {
    let cfg = lower("package p\nfunc f() {\n\tcmd := &exec.Cmd{Dir: \"/tmp\"}\n\t_ = cmd\n}\n");
    assert!(
        !cfg.nodes.iter().any(|n| n.stmts.iter().any(|s| matches!(s, Stmt::Call { target: CallTarget::Named(name), .. } if name.starts_with("exec.Cmd")))),
        "a literal field value shouldn't lower to a synthetic call: {:#?}",
        cfg.nodes
    );
}

#[test]
fn go_recognizes_a_bare_method_call_statement_with_no_assignment() {
    let cfg = lower("package p\nfunc f() {\n\tcmd.Run()\n}\n");
    assert!(
        cfg.nodes.iter().any(|n| n.stmts.iter().any(|s| matches!(s, Stmt::Call { target: CallTarget::Named(name), assigned_to: None, .. } if name == "cmd.Run"))),
        "got: {:#?}",
        cfg.nodes
    );
}

#[test]
fn indexing_into_a_variable_as_a_call_argument_still_counts_as_a_use() {
    let cfg = lower("package p\nfunc f(full []int) {\n\tprintln(full[0])\n}\n");
    assert!(
        cfg.nodes.iter().any(|n| n.stmts.iter().any(|s| matches!(s, Stmt::Call { args, .. } if args.contains(&"full".to_string())))),
        "got: {:#?}",
        cfg.nodes
    );
}

#[test]
fn lowers_a_value_err_tuple_assignment_from_a_call() {
    let cfg = lower("package p\nfunc f(path string) {\n\tfile, err := os.Open(path)\n\t_ = file\n\t_ = err\n}\n");
    assert!(
        cfg.nodes.iter().any(
            |n| n.stmts.iter().any(|s| matches!(s, Stmt::Call { target: CallTarget::Named(name), args, assigned_to: Some(a) } if name == "os.Open" && a == "file" && args.contains(&"path".to_string())))
        ),
        "got: {:#?}",
        cfg.nodes
    );
}

#[test]
fn recognizes_string_concatenation_carrying_both_operand_identifiers() {
    let cfg = lower("package p\nfunc f(userInput string) {\n\tquery := \"SELECT * FROM x WHERE id=\" + userInput\n\t_ = query\n}\n");
    assert!(
        cfg.nodes.iter().any(|n| n.stmts.iter().any(|s| matches!(s, Stmt::Assign { lhs, rhs: RhsShape::Concat { parts } } if lhs == "query" && parts.contains(&"userInput".to_string())))),
        "got: {:#?}",
        cfg.nodes
    );
}

#[test]
fn a_variable_declaration_of_several_names_is_not_modelled() {
    let cfg = lower("package p\nfunc f() {\n\tvar a, b *T\n\tg(a, b)\n}\n");
    let stmts: Vec<&Stmt> = cfg.nodes.iter().flat_map(|n| n.stmts.iter()).collect();
    assert!(stmts.iter().any(|s| matches!(s, Stmt::Other(source) if source.contains("a, b *T"))), "got: {stmts:#?}");
    assert!(!stmts.iter().any(|s| matches!(s, Stmt::Assign { .. })), "got: {stmts:#?}");
}
