//! A form value that reaches a query, directly or through a variable that the
//! query was built in.

use vstd::prelude::*;

use crate::dataflow::taint;
use crate::dataflow::taint::{NamePattern, TaintSink, TaintSpec};

verus! {

/// The rule.
pub fn spec() -> (rule: TaintSpec)
    ensures
        rule.rule_id@ == "go-sql-injection-taint"@,
        taint::are_suffixes(rule.sources@, seq!["FormValue"@, "PostFormValue"@]),
        taint::are_suffix_sinks(
            rule.sinks@,
            seq![
                "Query"@,
                "QueryContext"@,
                "QueryRow"@,
                "QueryRowContext"@,
                "Exec"@,
                "ExecContext"@,
            ],
        ),
        rule.sanitizers@.len() == 0,
{
    let sources: Vec<NamePattern> = vec![
        NamePattern::suffix("FormValue"),
        NamePattern::suffix("PostFormValue"),
    ];
    let sinks: Vec<TaintSink> = vec![
        taint::any_arg_sink("Query"),
        taint::any_arg_sink("QueryContext"),
        taint::any_arg_sink("QueryRow"),
        taint::any_arg_sink("QueryRowContext"),
        taint::any_arg_sink("Exec"),
        taint::any_arg_sink("ExecContext"),
    ];
    TaintSpec { rule_id: "go-sql-injection-taint".to_owned(), sources, sinks, sanitizers: Vec::new() }
}

} // verus!
