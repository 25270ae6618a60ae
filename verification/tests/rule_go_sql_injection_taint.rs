//! Request values that reach a query.

use autoreview::dataflow::cfg::{Cfg, Stmt};
use autoreview::dataflow::lower::go::lower_function;
use autoreview::dataflow::rules::go_sql_injection_taint::spec;
use autoreview::dataflow::taint::check;
use autoreview::langsupport::{parse_source, Language};

fn lower(source: &str) -> Cfg<Stmt> {
    let root = parse_source(Language::Go, source.as_bytes()).unwrap();
    let fn_node = root.children.iter().find(|n| n.named && n.kind == "function_declaration").expect("no function_declaration found");
    lower_function(fn_node)
}

#[test]
fn flags_a_form_value_passed_directly_to_query() {
    let cfg = lower("package p\nfunc handle(r *http.Request, db *sql.DB) {\n\tid := r.FormValue(\"id\")\n\trows, err := db.Query(id)\n\t_ = rows\n\t_ = err\n}\n");
    let hits = check(&spec(), &cfg);
    assert_eq!(hits.len(), 1, "got: {hits:#?}");
    assert_eq!(hits[0].sink_call, "db.Query");
}

#[test]
fn flags_a_concatenated_query_built_from_a_tainted_value() {
    let cfg = lower(
        "package p\nfunc handle(r *http.Request, db *sql.DB) {\n\tid := r.FormValue(\"id\")\n\tquery := \"SELECT * FROM users WHERE id=\" + id\n\trows, err := db.Query(query)\n\t_ = rows\n\t_ = err\n}\n",
    );
    let hits = check(&spec(), &cfg);
    assert_eq!(hits.len(), 1, "got: {hits:#?} — indirect concatenation should still be caught");
}

#[test]
fn does_not_flag_a_query_row_call_with_no_tainted_argument() {
    let cfg = lower("package p\nfunc handle(db *sql.DB) {\n\trow := db.QueryRow(\"SELECT * FROM users WHERE id=?\", 42)\n\t_ = row\n}\n");
    assert!(check(&spec(), &cfg).is_empty());
}
