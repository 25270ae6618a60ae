//! Request values that reach a command.

use autoreview::dataflow::cfg::{Cfg, Stmt};
use autoreview::dataflow::lower::go::lower_function;
use autoreview::dataflow::rules::go_command_injection_taint::spec;
use autoreview::dataflow::taint::check;
use autoreview::langsupport::{parse_source, Language};

fn lower(source: &str) -> Cfg<Stmt> {
    let root = parse_source(Language::Go, source.as_bytes()).unwrap();
    let fn_node = root.children.iter().find(|n| n.named && n.kind == "function_declaration").expect("no function_declaration found");
    lower_function(fn_node)
}

#[test]
fn flags_a_form_value_reaching_exec_command() {
    let cfg = lower("package p\nfunc handle(r *http.Request) {\n\tuserInput := r.FormValue(\"cmd\")\n\texec.Command(\"sh\", \"-c\", userInput)\n}\n");
    let hits = check(&spec(), &cfg);
    assert_eq!(hits.len(), 1, "got: {hits:#?}");
    assert_eq!(hits[0].sink_call, "exec.Command");
}

#[test]
fn flags_a_post_form_value_reaching_syscall_exec() {
    let cfg = lower("package p\nfunc handle(r *http.Request) {\n\tbin := r.PostFormValue(\"bin\")\n\tsyscall.Exec(bin, args, env)\n}\n");
    let hits = check(&spec(), &cfg);
    assert_eq!(hits.len(), 1, "got: {hits:#?}");
    assert_eq!(hits[0].sink_call, "syscall.Exec");
}

#[test]
fn does_not_flag_a_literal_only_command() {
    let cfg = lower("package p\nfunc f() {\n\texec.Command(\"ls\", \"-la\")\n}\n");
    assert!(check(&spec(), &cfg).is_empty());
}

#[test]
fn does_not_flag_an_untainted_local_variable_reaching_the_sink() {
    let cfg = lower("package p\nfunc f() {\n\tsafe := \"ls\"\n\texec.Command(safe)\n}\n");
    assert!(check(&spec(), &cfg).is_empty(), "got: {:#?}", check(&spec(), &cfg));
}
