//! A form value that reaches a command-running call. Calls on `exec.Cmd` fields
//! and on `StdinPipe` are out of scope, and nothing counts as a sanitizer.

use vstd::prelude::*;

use crate::dataflow::taint;
use crate::dataflow::taint::{NamePattern, TaintSink, TaintSpec};

verus! {

/// The rule.
pub fn spec() -> (rule: TaintSpec)
    ensures
        rule.rule_id@ == "go-command-injection-taint"@,
        taint::are_suffixes(rule.sources@, seq!["FormValue"@, "PostFormValue"@]),
        taint::are_suffix_sinks(
            rule.sinks@,
            seq![
                "exec.Command"@,
                "exec.CommandContext"@,
                "syscall.Exec"@,
                "syscall.ForkExec"@,
            ],
        ),
        rule.sanitizers@.len() == 0,
{
    let sources: Vec<NamePattern> = vec![
        NamePattern::suffix("FormValue"),
        NamePattern::suffix("PostFormValue"),
    ];
    let sinks: Vec<TaintSink> = vec![
        taint::any_arg_sink("exec.Command"),
        taint::any_arg_sink("exec.CommandContext"),
        taint::any_arg_sink("syscall.Exec"),
        taint::any_arg_sink("syscall.ForkExec"),
    ];
    TaintSpec { rule_id: "go-command-injection-taint".to_owned(), sources, sinks, sanitizers: Vec::new() }
}

} // verus!
