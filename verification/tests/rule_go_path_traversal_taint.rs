//! Request values that reach a path.

use autoreview::dataflow::cfg::{Cfg, Stmt};
use autoreview::dataflow::lower::go::lower_function;
use autoreview::dataflow::rules::go_path_traversal_taint::spec;
use autoreview::dataflow::taint::check;
use autoreview::langsupport::{parse_source, Language};

fn lower(source: &str) -> Cfg<Stmt> {
    let root = parse_source(Language::Go, source.as_bytes()).unwrap();
    let fn_node = root.children.iter().find(|n| n.named && n.kind == "function_declaration").expect("no function_declaration found");
    lower_function(fn_node)
}

#[test]
fn flags_a_form_value_used_directly_to_open_a_file() {
    let cfg = lower("package p\nfunc handle(r *http.Request) {\n\tname := r.FormValue(\"file\")\n\tf, err := os.Open(name)\n\t_ = f\n\t_ = err\n}\n");
    let hits = check(&spec(), &cfg);
    assert_eq!(hits.len(), 1, "got: {hits:#?}");
    assert_eq!(hits[0].sink_call, "os.Open");
}

#[test]
fn flags_a_form_value_concatenated_into_a_path_before_reading() {
    let cfg = lower("package p\nfunc handle(r *http.Request) {\n\tname := r.FormValue(\"file\")\n\tpath := \"/uploads/\" + name\n\tdata, err := os.ReadFile(path)\n\t_ = data\n\t_ = err\n}\n");
    let hits = check(&spec(), &cfg);
    assert_eq!(hits.len(), 1, "got: {hits:#?}");
}

#[test]
fn does_not_flag_a_hardcoded_path() {
    let cfg = lower("package p\nfunc f() {\n\tdata, err := os.ReadFile(\"/etc/config.json\")\n\t_ = data\n\t_ = err\n}\n");
    assert!(check(&spec(), &cfg).is_empty());
}
