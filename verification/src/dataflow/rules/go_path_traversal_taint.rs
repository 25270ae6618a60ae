//! A form value that reaches a file-system call. Nothing counts as a sanitizer:
//! `filepath.Clean` alone does not keep a path inside a directory.

use vstd::prelude::*;

use crate::dataflow::taint;
use crate::dataflow::taint::{NamePattern, TaintSink, TaintSpec};

verus! {

/// The rule.
pub fn spec() -> (rule: TaintSpec)
    ensures
        rule.rule_id@ == "go-path-traversal-taint"@,
        taint::are_suffixes(rule.sources@, seq!["FormValue"@, "PostFormValue"@]),
        taint::are_suffix_sinks(
            rule.sinks@,
            seq![
                "Open"@,
                "OpenFile"@,
                "Create"@,
                "ReadFile"@,
                "WriteFile"@,
                "Remove"@,
                "RemoveAll"@,
            ],
        ),
        rule.sanitizers@.len() == 0,
{
    let sources: Vec<NamePattern> = vec![
        NamePattern::suffix("FormValue"),
        NamePattern::suffix("PostFormValue"),
    ];
    let sinks: Vec<TaintSink> = vec![
        taint::any_arg_sink("Open"),
        taint::any_arg_sink("OpenFile"),
        taint::any_arg_sink("Create"),
        taint::any_arg_sink("ReadFile"),
        taint::any_arg_sink("WriteFile"),
        taint::any_arg_sink("Remove"),
        taint::any_arg_sink("RemoveAll"),
    ];
    TaintSpec { rule_id: "go-path-traversal-taint".to_owned(), sources, sinks, sanitizers: Vec::new() }
}

} // verus!
