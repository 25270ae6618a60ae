//! A declarative taint-tracking engine: sources, sinks and sanitizers named by
//! pattern, with taint carried through assignments and unrecognised calls.
//! Strictly intraprocedural, but for summaries of called functions.
//!
//! Matching is by name alone: a source pattern `FormValue` matches any call
//! whose qualified name ends in `.FormValue`.

use std::sync::Arc;

use regex::Regex;
use vstd::prelude::*;

use crate::dataflow::cfg::{CallTarget, Cfg, NodeId, RhsShape, Stmt};
use crate::dataflow::name_facts;
use crate::dataflow::name_facts::NameRule;
use crate::dataflow::summaries;
use crate::dataflow::summaries::Summaries;
use crate::names::NameSet;
use crate::text;

verus! {

/// A compiled regular expression.
#[verifier::external_type_specification]
#[verifier::external_body]
pub struct ExRegex(regex::Regex);

/// Why a regular expression does not compile.
#[verifier::external_type_specification]
#[verifier::external_body]
pub struct ExRegexError(regex::Error);

/// The pattern that a regular expression was compiled from. Of one that
/// `regex::Regex::new` made this is the pattern's text; of one that was built with
/// other settings it stands for the pattern and those settings.
pub uninterp spec fn regex_source(re: regex::Regex) -> Seq<char>;

/// Whether a pattern is a regular expression that compiles.
pub uninterp spec fn regex_compiles(pattern: Seq<char>) -> bool;

/// Whether the regular expression written as `pattern` matches somewhere in
/// `text`.
pub uninterp spec fn regex_matches(pattern: Seq<char>, text: Seq<char>) -> bool;

/// Calls `regex::Regex::new`: compiles `pattern`, or says why it does not
/// compile. Which patterns compile is named `regex_compiles`; what the outcome
/// was compiled from is named `regex_source`.
#[verifier::external_body]
fn regex_new(pattern: &str) -> (compiled: Result<Regex, regex::Error>)
    ensures
        compiled is Ok <==> regex_compiles(pattern@),
        compiled matches Ok(re) ==> regex_source(re) == pattern@,
{
    Regex::new(pattern)
}

/// Calls `regex::Regex::is_match`: whether the expression matches somewhere in
/// `text`. The outcome, which depends on the pattern and the text alone, is
/// named `regex_matches`.
#[verifier::external_body]
fn regex_is_match(re: &Regex, text: &str) -> (matched: bool)
    ensures
        matched == regex_matches(regex_source(*re), text@),
{
    re.is_match(text)
}

/// A pattern for the name of a call, as lowered: `name` for a bare call,
/// `operand.field` for a selector call.
#[derive(Debug, Clone)]
pub enum NamePattern {
    /// The whole name, or its trailing `.name` part.
    Suffix(String),
    /// A regular expression tested against the whole name. `NamePattern::regex`
    /// makes it with `regex::Regex::new`; only of one made so does its source say
    /// what it was written as.
    Regex(Arc<Regex>),
}

/// `call` is `name`, or `name` behind some qualifier and a dot.
pub open spec fn names_suffix(call: Seq<char>, name: Seq<char>) -> bool {
    call == name || text::ends(call, seq!['.'] + name)
}

impl NamePattern {
    /// The pattern accepts a call of this name.
    pub open spec fn accepts(&self, call: Seq<char>) -> bool {
        match self {
            NamePattern::Suffix(name) => names_suffix(call, name@),
            NamePattern::Regex(re) => regex_matches(regex_source(**re), call),
        }
    }

    /// A pattern for a bare name behind any qualifier.
    pub fn suffix(name: &str) -> (pattern: Self)
        ensures
            pattern matches NamePattern::Suffix(kept) && kept@ == name@,
    {
        NamePattern::Suffix(name.to_owned())
    }

    /// A pattern given as a regular expression.
    pub fn regex(pattern: &str) -> (made: Result<Self, regex::Error>)
        ensures
            made is Ok <==> regex_compiles(pattern@),
            made matches Ok(p) ==> {
                &&& p matches NamePattern::Regex(re)
                &&& regex_source(*re) == pattern@
            },
    {
        match regex_new(pattern) {
            Ok(re) => Ok(NamePattern::Regex(Arc::new(re))),
            Err(e) => Err(e),
        }
    }

    /// Whether the pattern accepts a call of this name.
    pub fn matches(&self, call_name: &str) -> (r: bool)
        ensures
            r == self.accepts(call_name@),
    {
        match self {
            NamePattern::Suffix(name) => {
                if text::same(call_name, name.as_str()) {
                    return true;
                }
                let dotted: String = ".".to_owned().concat(name.as_str());
                proof {
                    reveal_strlit(".");
                    assert(dotted@ =~= seq!['.'] + name@);
                }
                text::ends_with(call_name, dotted.as_str())
            },
            NamePattern::Regex(re) => regex_is_match(re, call_name),
        }
    }
}

/// One of the patterns accepts a call of this name.
pub open spec fn any_accepts(patterns: Seq<NamePattern>, call: Seq<char>) -> bool {
    exists|i: int| 0 <= i < patterns.len() && (#[trigger] patterns[i]).accepts(call)
}

/// Whether one of the patterns accepts a call of this name.
pub fn any_matches(patterns: &Vec<NamePattern>, call_name: &str) -> (r: bool)
    ensures
        r == any_accepts(patterns@, call_name@),
{
    let mut i: usize = 0;
    while i < patterns.len()
        invariant
            0 <= i <= patterns@.len(),
            forall|k: int| 0 <= k < i ==> !(#[trigger] patterns@[k]).accepts(call_name@),
        decreases patterns.len() - i,
    {
        if patterns[i].matches(call_name) {
            return true;
        }
        i += 1;
    }
    false
}

/// A call that must not be reached with tainted data, and the positions at
/// which it is dangerous: `None` for any argument.
#[derive(Debug, Clone)]
pub struct TaintSink {
    pub call: NamePattern,
    pub tainted_arg_positions: Option<Vec<usize>>,
}

/// A taint rule.
#[derive(Debug, Clone)]
pub struct TaintSpec {
    pub rule_id: String,
    /// A call matching one of these taints the variable it is assigned to.
    pub sources: Vec<NamePattern>,
    /// A call matching one of these, reached with a tainted argument in a
    /// dangerous position, is a hit.
    pub sinks: Vec<TaintSink>,
    /// A call matching one of these clears the variable it is assigned to.
    pub sanitizers: Vec<NamePattern>,
}

/// The patterns are the bare names, in order.
pub open spec fn are_suffixes(patterns: Seq<NamePattern>, names: Seq<Seq<char>>) -> bool {
    &&& patterns.len() == names.len()
    &&& forall|i: int|
        0 <= i < patterns.len() ==> ((#[trigger] patterns[i]) matches NamePattern::Suffix(name)
            && name@ == names[i])
}

/// The sinks are calls of the bare names, in order, dangerous at any argument.
pub open spec fn are_suffix_sinks(sinks: Seq<TaintSink>, names: Seq<Seq<char>>) -> bool {
    &&& sinks.len() == names.len()
    &&& forall|i: int|
        0 <= i < sinks.len() ==> ((#[trigger] sinks[i]).call matches NamePattern::Suffix(name)
            && name@ == names[i]) && sinks[i].tainted_arg_positions is None
}

/// A sink that is dangerous at any argument of a call of the bare name.
pub fn any_arg_sink(name: &str) -> (sink: TaintSink)
    ensures
        sink.call matches NamePattern::Suffix(kept) && kept@ == name@,
        sink.tainted_arg_positions is None,
{
    TaintSink { call: NamePattern::suffix(name), tainted_arg_positions: None }
}

/// A tainted argument that reaches a sink.
#[derive(Debug, Clone, PartialEq, Eq)]
pub struct TaintHit {
    pub sink_call: String,
    pub tainted_arg: String,
    pub node: NodeId,
    pub source_line: u32,
}

/// What a `TaintHit` says.
pub struct TaintHitView {
    pub sink_call: Seq<char>,
    pub tainted_arg: Seq<char>,
    pub node: NodeId,
    pub source_line: u32,
}

impl View for TaintHit {
    type V = TaintHitView;

    open spec fn view(&self) -> TaintHitView {
        TaintHitView {
            sink_call: self.sink_call@,
            tainted_arg: self.tainted_arg@,
            node: self.node,
            source_line: self.source_line,
        }
    }
}

/// What a rule and the summaries of called functions do to the tainted names.
pub struct TaintRule<'a> {
    pub spec: &'a TaintSpec,
    pub summaries: Option<&'a Summaries>,
}

/// `name` in the set if `on`, out of it if not.
pub open spec fn set_to(held: Set<Seq<char>>, name: Seq<char>, on: bool) -> Set<Seq<char>> {
    if on {
        held.insert(name)
    } else {
        held.remove(name)
    }
}

/// One of the names is in the set.
pub open spec fn any_held(held: Set<Seq<char>>, names: Seq<Seq<char>>) -> bool {
    exists|i: int| 0 <= i < names.len() && held.contains(#[trigger] names[i])
}

/// The variables that arguments name: each without its leading `&`s.
pub open spec fn arg_vars(args: Seq<String>) -> Seq<Seq<char>> {
    Seq::new(args.len(), |i: int| text::strip_leading(args[i]@, '&'))
}

/// `name` in the set if `on`, out of it if not.
pub fn with_name(held: &NameSet, name: &str, on: bool) -> (after: NameSet)
    ensures
        after@ == set_to(held@, name@, on),
{
    let mut after: NameSet = held.dup();
    if on {
        after.insert(name);
    } else {
        after.remove(name);
    }
    after
}

/// Whether a variable that one of the arguments names is in the set.
pub fn any_arg_held(held: &NameSet, args: &Vec<String>) -> (r: bool)
    ensures
        r == any_held(held@, arg_vars(args@)),
{
    let mut i: usize = 0;
    while i < args.len()
        invariant
            0 <= i <= args@.len(),
            forall|k: int| 0 <= k < i ==> !held@.contains(#[trigger] arg_vars(args@)[k]),
        decreases args.len() - i,
    {
        let var: &str = text::trim_leading(args[i].as_str(), '&');
        if held.contains(var) {
            proof {
                assert(held@.contains(arg_vars(args@)[i as int]));
            }
            return true;
        }
        i += 1;
    }
    false
}

/// Whether one of the names is in the set.
pub fn any_name_held(held: &NameSet, names: &Vec<String>) -> (r: bool)
    ensures
        r == any_held(held@, text::views(names@)),
{
    let mut i: usize = 0;
    while i < names.len()
        invariant
            0 <= i <= names@.len(),
            forall|k: int| 0 <= k < i ==> !held@.contains(#[trigger] text::views(names@)[k]),
        decreases names.len() - i,
    {
        if held.contains(names[i].as_str()) {
            proof {
                assert(held@.contains(text::views(names@)[i as int]));
            }
            return true;
        }
        i += 1;
    }
    false
}

/// An assignment whose value is on always, or when one of `from` is, treats
/// names one by one.
pub proof fn lemma_set_to_additive(
    a: Set<Seq<char>>,
    b: Set<Seq<char>>,
    name: Seq<char>,
    always: bool,
    from: Seq<Seq<char>>,
)
    ensures
        set_to(a.union(b), name, always || any_held(a.union(b), from)) == set_to(
            a,
            name,
            always || any_held(a, from),
        ).union(set_to(b, name, always || any_held(b, from))),
{
    assert(any_held(a.union(b), from) <==> any_held(a, from) || any_held(b, from)) by {
        if any_held(a.union(b), from) {
            let i = choose|i: int| 0 <= i < from.len() && a.union(b).contains(#[trigger] from[i]);
            assert(a.contains(from[i]) || b.contains(from[i]));
        }
        if any_held(a, from) {
            let i = choose|i: int| 0 <= i < from.len() && a.contains(#[trigger] from[i]);
            assert(a.union(b).contains(from[i]));
        }
        if any_held(b, from) {
            let i = choose|i: int| 0 <= i < from.len() && b.contains(#[trigger] from[i]);
            assert(a.union(b).contains(from[i]));
        }
    }
    assert(set_to(a.union(b), name, always || any_held(a.union(b), from)) =~= set_to(
        a,
        name,
        always || any_held(a, from),
    ).union(set_to(b, name, always || any_held(b, from))));
}

/// The tainted names after a statement. A call that is no sanitizer taints the
/// variable it is assigned to if it is a source, if a summary says that its
/// result is tainted, or if one of its arguments is tainted; a copy or a
/// concatenation passes taint on; any other assignment clears it.
pub open spec fn taint_flow(
    spec: TaintSpec,
    summaries: Option<Summaries>,
    held: Set<Seq<char>>,
    stmt: Stmt,
) -> Set<Seq<char>> {
    match stmt {
        Stmt::Call { target: CallTarget::Named(name), args, assigned_to: Some(v) } => set_to(
            held,
            v@,
            !any_accepts(spec.sanitizers@, name@) && (any_accepts(spec.sources@, name@)
                || summaries::summarized(summaries, name@) || any_held(held, arg_vars(args@))),
        ),
        Stmt::Assign { lhs, rhs: RhsShape::Var(from) } => set_to(held, lhs@, held.contains(from@)),
        Stmt::Assign { lhs, rhs: RhsShape::Concat { parts } } => set_to(
            held,
            lhs@,
            any_held(held, text::views(parts@)),
        ),
        Stmt::Assign { lhs, rhs } => held.remove(lhs@),
        _ => held,
    }
}

/// The name that a statement assigns, if it assigns one.
pub open spec fn assigned_name(stmt: Stmt) -> Set<Seq<char>> {
    match stmt {
        Stmt::Call { target, args, assigned_to: Some(v) } => Set::empty().insert(v@),
        Stmt::Assign { lhs, rhs } => Set::empty().insert(lhs@),
        _ => Set::empty(),
    }
}

impl<'a> NameRule for TaintRule<'a> {
    open spec fn flow(&self, held: Set<Seq<char>>, stmt: Stmt) -> Set<Seq<char>> {
        taint_flow(*self.spec, summaries::owned(self.summaries), held, stmt)
    }

    open spec fn added(&self, stmt: Stmt) -> Set<Seq<char>> {
        assigned_name(stmt)
    }

    fn step(&self, held: &NameSet, stmt: &Stmt) -> (after: NameSet) {
        match stmt {
            Stmt::Call { target: CallTarget::Named(name), args, assigned_to: Some(v) } => {
                let tainted: bool = !any_matches(&self.spec.sanitizers, name.as_str()) && (
                any_matches(&self.spec.sources, name.as_str()) || summaries::is_summarized(
                    self.summaries,
                    name.as_str(),
                ) || any_arg_held(held, args));
                with_name(held, v.as_str(), tainted)
            },
            Stmt::Assign { lhs, rhs: RhsShape::Var(from) } => {
                with_name(held, lhs.as_str(), held.contains(from.as_str()))
            },
            Stmt::Assign { lhs, rhs: RhsShape::Concat { parts } } => {
                with_name(held, lhs.as_str(), any_name_held(held, parts))
            },
            Stmt::Assign { lhs, rhs: _ } => with_name(held, lhs.as_str(), false),
            _ => held.dup(),
        }
    }

    proof fn flow_is_additive(&self, a: Set<Seq<char>>, b: Set<Seq<char>>, stmt: Stmt) {
        match stmt {
            Stmt::Call { target: CallTarget::Named(name), args, assigned_to: Some(v) } => {
                if any_accepts(self.spec.sanitizers@, name@) {
                    lemma_set_to_additive(a, b, v@, false, Seq::empty());
                } else {
                    let always = any_accepts(self.spec.sources@, name@) || summaries::summarized(
                        summaries::owned(self.summaries),
                        name@,
                    );
                    lemma_set_to_additive(a, b, v@, always, arg_vars(args@));
                }
            },
            Stmt::Assign { lhs, rhs: RhsShape::Var(from) } => {
                let names = seq![from@];
                assert forall|s: Set<Seq<char>>| #[trigger] any_held(s, names) <==> s.contains(
                    from@,
                ) by {
                    if s.contains(from@) {
                        assert(s.contains(names[0]));
                    }
                }
                lemma_set_to_additive(a, b, lhs@, false, names);
            },
            Stmt::Assign { lhs, rhs: RhsShape::Concat { parts } } => {
                lemma_set_to_additive(a, b, lhs@, false, text::views(parts@));
            },
            Stmt::Assign { lhs, rhs } => {
                lemma_set_to_additive(a, b, lhs@, false, Seq::empty());
            },
            _ => {},
        }
    }

    proof fn flow_is_bounded(&self, held: Set<Seq<char>>, stmt: Stmt) {
    }
}

/// The rule and the summaries, as what they do to the tainted names.
pub open spec fn rule_of<'a>(spec: &'a TaintSpec, summaries: Option<&'a Summaries>) -> TaintRule<'a> {
    TaintRule { spec, summaries }
}

/// The sink is dangerous at argument position `i`.
pub open spec fn dangerous_at(sink: TaintSink, i: int) -> bool {
    match sink.tainted_arg_positions {
        None => true,
        Some(positions) => exists|k: int| 0 <= k < positions@.len() && #[trigger] positions@[k] == i,
    }
}

/// The hits of one sink on a call: one for each tainted variable among its
/// dangerous arguments, in argument order.
pub open spec fn arg_hits(
    sink: TaintSink,
    held: Set<Seq<char>>,
    call: Seq<char>,
    args: Seq<String>,
    node: NodeId,
    line: u32,
) -> Seq<TaintHitView>
    decreases args.len(),
{
    if args.len() == 0 {
        Seq::empty()
    } else {
        let earlier = arg_hits(sink, held, call, args.drop_last(), node, line);
        let var = text::strip_leading(args.last()@, '&');
        if dangerous_at(sink, args.len() - 1) && held.contains(var) {
            earlier.push(
                TaintHitView { sink_call: call, tainted_arg: var, node, source_line: line },
            )
        } else {
            earlier
        }
    }
}

/// The hits of all sinks on a call, sink by sink.
pub open spec fn sink_hits(
    sinks: Seq<TaintSink>,
    held: Set<Seq<char>>,
    call: Seq<char>,
    args: Seq<String>,
    node: NodeId,
    line: u32,
) -> Seq<TaintHitView>
    decreases sinks.len(),
{
    if sinks.len() == 0 {
        Seq::empty()
    } else {
        let earlier = sink_hits(sinks.drop_last(), held, call, args, node, line);
        if sinks.last().call.accepts(call) {
            earlier + arg_hits(sinks.last(), held, call, args, node, line)
        } else {
            earlier
        }
    }
}

/// The hits on one statement, given the tainted names before it.
pub open spec fn stmt_hits(
    spec: TaintSpec,
    held: Set<Seq<char>>,
    stmt: Stmt,
    node: NodeId,
    line: u32,
) -> Seq<TaintHitView> {
    match stmt {
        Stmt::Call { target: CallTarget::Named(name), args, assigned_to } => sink_hits(
            spec.sinks@,
            held,
            name@,
            args@,
            node,
            line,
        ),
        _ => Seq::empty(),
    }
}

/// The hits on statements, given the tainted names before the first.
pub open spec fn run_hits(
    rule: TaintRule,
    held: Set<Seq<char>>,
    stmts: Seq<Stmt>,
    node: NodeId,
    line: u32,
) -> Seq<TaintHitView>
    decreases stmts.len(),
{
    if stmts.len() == 0 {
        Seq::empty()
    } else {
        run_hits(rule, held, stmts.drop_last(), node, line) + stmt_hits(
            *rule.spec,
            name_facts::flow_all(rule, held, stmts.drop_last()),
            stmts.last(),
            node,
            line,
        )
    }
}

/// The hits in the first `count` nodes of a graph.
pub open spec fn hits_in(rule: TaintRule, cfg: Cfg<Stmt>, count: nat) -> Seq<TaintHitView>
    decreases count,
{
    if count == 0 {
        Seq::empty()
    } else {
        let node = (count - 1) as NodeId;
        hits_in(rule, cfg, (count - 1) as nat) + run_hits(
            rule,
            name_facts::held_before(rule, cfg, node),
            cfg.nodes@[node as int].stmts@,
            node,
            cfg.nodes@[node as int].source_line,
        )
    }
}

/// Statement `k` of `node` returns a variable that some walk there taints.
pub open spec fn returns_held<R: NameRule>(
    rule: R,
    cfg: Cfg<Stmt>,
    node: NodeId,
    k: int,
) -> bool {
    &&& node < cfg.nodes@.len()
    &&& 0 <= k < cfg.nodes@[node as int].stmts@.len()
    &&& cfg.nodes@[node as int].stmts@[k] matches Stmt::Return { value: Some(v) }
    &&& name_facts::held_at(rule, cfg, node, k).contains(v@)
}

fn positions_contain(positions: &Vec<usize>, i: usize) -> (r: bool)
    ensures
        r == exists|k: int| 0 <= k < positions@.len() && #[trigger] positions@[k] == i,
{
    let mut k: usize = 0;
    while k < positions.len()
        invariant
            0 <= k <= positions@.len(),
            forall|j: int| 0 <= j < k ==> #[trigger] positions@[j] != i,
        decreases positions.len() - k,
    {
        if positions[k] == i {
            return true;
        }
        k += 1;
    }
    false
}

fn push_arg_hits(
    hits: &mut Vec<TaintHit>,
    sink: &TaintSink,
    held: &NameSet,
    call: &String,
    args: &Vec<String>,
    node: NodeId,
    line: u32,
)
    ensures
        text::views(final(hits)@) == text::views(old(hits)@) + arg_hits(
            *sink,
            held@,
            call@,
            args@,
            node,
            line,
        ),
{
    let ghost before = text::views(hits@);
    let mut i: usize = 0;
    proof {
        assert(before + Seq::<TaintHitView>::empty() =~= before);
    }
    while i < args.len()
        invariant
            0 <= i <= args@.len(),
            text::views(hits@) == before + arg_hits(
                *sink,
                held@,
                call@,
                args@.take(i as int),
                node,
                line,
            ),
        decreases args.len() - i,
    {
        proof {
            assert(args@.take(i + 1).drop_last() =~= args@.take(i as int));
            assert(args@.take(i + 1).last() == args@[i as int]);
        }
        let dangerous: bool = match &sink.tainted_arg_positions {
            None => true,
            Some(positions) => positions_contain(positions, i),
        };
        let var: &str = text::trim_leading(args[i].as_str(), '&');
        if dangerous && held.contains(var) {
            let hit = TaintHit {
                sink_call: call.clone(),
                tainted_arg: var.to_owned(),
                node,
                source_line: line,
            };
            proof {
                text::lemma_views_push(hits@, hit);
            }
            hits.push(hit);
            proof {
                assert(text::views(hits@) =~= before + arg_hits(
                    *sink,
                    held@,
                    call@,
                    args@.take(i + 1),
                    node,
                    line,
                ));
            }
        }
        i += 1;
    }
    proof {
        assert(args@.take(args@.len() as int) =~= args@);
    }
}

fn push_stmt_hits(
    hits: &mut Vec<TaintHit>,
    spec: &TaintSpec,
    held: &NameSet,
    stmt: &Stmt,
    node: NodeId,
    line: u32,
)
    ensures
        text::views(final(hits)@) == text::views(old(hits)@) + stmt_hits(
            *spec,
            held@,
            *stmt,
            node,
            line,
        ),
{
    let ghost before = text::views(hits@);
    proof {
        assert(before + Seq::<TaintHitView>::empty() =~= before);
    }
    if let Stmt::Call { target: CallTarget::Named(name), args, assigned_to: _ } = stmt {
        let mut i: usize = 0;
        while i < spec.sinks.len()
            invariant
                0 <= i <= spec.sinks@.len(),
                text::views(hits@) == before + sink_hits(
                    spec.sinks@.take(i as int),
                    held@,
                    name@,
                    args@,
                    node,
                    line,
                ),
            decreases spec.sinks.len() - i,
        {
            proof {
                assert(spec.sinks@.take(i + 1).drop_last() =~= spec.sinks@.take(i as int));
                assert(spec.sinks@.take(i + 1).last() == spec.sinks@[i as int]);
            }
            if spec.sinks[i].call.matches(name.as_str()) {
                push_arg_hits(hits, &spec.sinks[i], held, name, args, node, line);
                proof {
                    assert(text::views(hits@) =~= before + sink_hits(
                        spec.sinks@.take(i + 1),
                        held@,
                        name@,
                        args@,
                        node,
                        line,
                    ));
                }
            }
            i += 1;
        }
        proof {
            assert(spec.sinks@.take(spec.sinks@.len() as int) =~= spec.sinks@);
        }
    }
}

/// Runs `spec` against one function's graph, within the function alone.
pub fn check(spec: &TaintSpec, cfg: &Cfg<Stmt>) -> (hits: Vec<TaintHit>)
    requires
        cfg.well_formed(),
    ensures
        text::views(hits@) == hits_in(rule_of(spec, None), *cfg, cfg.nodes@.len()),
{
    check_with_summaries(spec, cfg, None)
}

/// Runs `spec` against one function's graph. The result of a call that is
/// neither source nor sanitizer is tainted, too, where `summaries` says so of
/// the function that is called. The hits come in node order, within a node in
/// statement order, within a statement sink by sink and argument by argument.
pub fn check_with_summaries(
    spec: &TaintSpec,
    cfg: &Cfg<Stmt>,
    summaries: Option<&Summaries>,
) -> (hits: Vec<TaintHit>)
    requires
        cfg.well_formed(),
    ensures
        text::views(hits@) == hits_in(rule_of(spec, summaries), *cfg, cfg.nodes@.len()),
{
    let rule: TaintRule = TaintRule { spec, summaries };
    let entry: Vec<NameSet> = name_facts::entry_facts(&rule, cfg);
    let mut hits: Vec<TaintHit> = Vec::new();
    let mut n: usize = 0;
    proof {
        assert(text::views(hits@) =~= Seq::<TaintHitView>::empty());
    }
    while n < cfg.nodes.len()
        invariant
            rule == rule_of(spec, summaries),
            0 <= n <= cfg.nodes@.len(),
            entry@.len() == cfg.nodes@.len(),
            forall|i: NodeId|
                0 <= i < cfg.nodes@.len() ==> (#[trigger] entry@[i as int])@
                    == name_facts::held_before(rule, *cfg, i),
            text::views(hits@) == hits_in(rule, *cfg, n as nat),
        decreases cfg.nodes.len() - n,
    {
        let line: u32 = cfg.nodes[n].source_line;
        let mut held: NameSet = entry[n].dup();
        let ghost before = text::views(hits@);
        let ghost start = held@;
        let ghost stmts = cfg.nodes@[n as int].stmts@;
        let mut k: usize = 0;
        proof {
            assert(before + Seq::<TaintHitView>::empty() =~= before);
        }
        while k < cfg.nodes[n].stmts.len()
            invariant
                rule == rule_of(spec, summaries),
                n < cfg.nodes@.len(),
                stmts == cfg.nodes@[n as int].stmts@,
                0 <= k <= stmts.len(),
                held@ == name_facts::flow_all(rule, start, stmts.take(k as int)),
                text::views(hits@) == before + run_hits(
                    rule,
                    start,
                    stmts.take(k as int),
                    n,
                    line,
                ),
            decreases stmts.len() - k,
        {
            proof {
                assert(stmts.take(k + 1).drop_last() =~= stmts.take(k as int));
                assert(stmts.take(k + 1).last() == stmts[k as int]);
            }
            push_stmt_hits(&mut hits, spec, &held, &cfg.nodes[n].stmts[k], n, line);
            proof {
                assert(text::views(hits@) =~= before + run_hits(
                    rule,
                    start,
                    stmts.take(k + 1),
                    n,
                    line,
                ));
            }
            held = rule.step(&held, &cfg.nodes[n].stmts[k]);
            k += 1;
        }
        proof {
            assert(stmts.take(stmts.len() as int) =~= stmts);
        }
        n += 1;
    }
    hits
}

/// Whether the function has a `return` of a variable that is tainted there on
/// some path.
pub fn compute_source_summary(spec: &TaintSpec, cfg: &Cfg<Stmt>) -> (r: bool)
    requires
        cfg.well_formed(),
    ensures
        r == exists|node: NodeId, k: int| #[trigger]
            returns_held(rule_of(spec, None), *cfg, node, k),
{
    let rule: TaintRule = TaintRule { spec, summaries: None };
    returns_tracked(&rule, cfg)
}

/// Whether some `return` of a variable is reached with the variable tracked.
pub fn returns_tracked<R: NameRule>(rule: &R, cfg: &Cfg<Stmt>) -> (r: bool)
    requires
        cfg.well_formed(),
    ensures
        r == exists|node: NodeId, k: int| #[trigger] returns_held(*rule, *cfg, node, k),
{
    let entry: Vec<NameSet> = name_facts::entry_facts(rule, cfg);
    let mut n: usize = 0;
    while n < cfg.nodes.len()
        invariant
            0 <= n <= cfg.nodes@.len(),
            entry@.len() == cfg.nodes@.len(),
            forall|i: NodeId|
                0 <= i < cfg.nodes@.len() ==> (#[trigger] entry@[i as int])@
                    == name_facts::held_before(*rule, *cfg, i),
            forall|i: NodeId, k: int| i < n ==> !#[trigger] returns_held(*rule, *cfg, i, k),
        decreases cfg.nodes.len() - n,
    {
        let mut held: NameSet = entry[n].dup();
        let ghost stmts = cfg.nodes@[n as int].stmts@;
        let mut k: usize = 0;
        while k < cfg.nodes[n].stmts.len()
            invariant
                n < cfg.nodes@.len(),
                stmts == cfg.nodes@[n as int].stmts@,
                0 <= k <= stmts.len(),
                held@ == name_facts::held_at(*rule, *cfg, n, k as int),
                forall|j: int| 0 <= j < k ==> !#[trigger] returns_held(*rule, *cfg, n, j),
            decreases stmts.len() - k,
        {
            proof {
                assert(stmts.take(k + 1).drop_last() =~= stmts.take(k as int));
                assert(stmts.take(k + 1).last() == stmts[k as int]);
            }
            if let Stmt::Return { value: Some(v) } = &cfg.nodes[n].stmts[k] {
                if held.contains(v.as_str()) {
                    assert(returns_held(*rule, *cfg, n, k as int));
                    return true;
                }
            }
            assert(!returns_held(*rule, *cfg, n, k as int));
            held = rule.step(&held, &cfg.nodes[n].stmts[k]);
            k += 1;
        }
        n += 1;
    }
    false
}

/// A rule without sources, and without summaries that say "yes", has no hits.
pub proof fn nothing_is_tainted_without_a_source(
    spec: &TaintSpec,
    summaries: Option<&Summaries>,
    cfg: Cfg<Stmt>,
)
    requires
        cfg.well_formed(),
        spec.sources@.len() == 0,
        forall|name: Seq<char>| !#[trigger]
            summaries::summarized(summaries::owned(summaries), name),
    ensures
        hits_in(rule_of(spec, summaries), cfg, cfg.nodes@.len()) == Seq::<TaintHitView>::empty(),
{
    let rule = rule_of(spec, summaries);
    assert forall|stmt: Stmt| #[trigger] rule.flow(Set::empty(), stmt) == Set::<
        Seq<char>,
    >::empty() by {
        assert(rule.flow(Set::empty(), stmt) =~= Set::<Seq<char>>::empty());
    }
    lemma_no_hits(rule, cfg, cfg.nodes@.len());
}

proof fn lemma_no_arg_hits(
    sink: TaintSink,
    call: Seq<char>,
    args: Seq<String>,
    node: NodeId,
    line: u32,
)
    ensures
        arg_hits(sink, Set::empty(), call, args, node, line) == Seq::<TaintHitView>::empty(),
    decreases args.len(),
{
    if args.len() > 0 {
        lemma_no_arg_hits(sink, call, args.drop_last(), node, line);
    }
}

proof fn lemma_no_sink_hits(
    sinks: Seq<TaintSink>,
    call: Seq<char>,
    args: Seq<String>,
    node: NodeId,
    line: u32,
)
    ensures
        sink_hits(sinks, Set::empty(), call, args, node, line) == Seq::<TaintHitView>::empty(),
    decreases sinks.len(),
{
    if sinks.len() > 0 {
        lemma_no_sink_hits(sinks.drop_last(), call, args, node, line);
        lemma_no_arg_hits(sinks.last(), call, args, node, line);
        assert(sink_hits(sinks, Set::empty(), call, args, node, line) =~= Seq::<
            TaintHitView,
        >::empty());
    }
}

proof fn lemma_no_run_hits(rule: TaintRule, stmts: Seq<Stmt>, node: NodeId, line: u32)
    requires
        forall|stmt: Stmt| #[trigger] rule.flow(Set::empty(), stmt) == Set::<Seq<char>>::empty(),
    ensures
        run_hits(rule, Set::empty(), stmts, node, line) == Seq::<TaintHitView>::empty(),
    decreases stmts.len(),
{
    if stmts.len() > 0 {
        lemma_no_run_hits(rule, stmts.drop_last(), node, line);
        name_facts::lemma_nothing_flows(rule, stmts.drop_last());
        match stmts.last() {
            Stmt::Call { target: CallTarget::Named(name), args, assigned_to } => {
                lemma_no_sink_hits(rule.spec.sinks@, name@, args@, node, line);
            },
            _ => {},
        }
        assert(run_hits(rule, Set::empty(), stmts, node, line) =~= Seq::<TaintHitView>::empty());
    }
}

proof fn lemma_no_hits(rule: TaintRule, cfg: Cfg<Stmt>, count: nat)
    requires
        forall|stmt: Stmt| #[trigger] rule.flow(Set::empty(), stmt) == Set::<Seq<char>>::empty(),
    ensures
        hits_in(rule, cfg, count) == Seq::<TaintHitView>::empty(),
    decreases count,
{
    if count > 0 {
        let node = (count - 1) as NodeId;
        lemma_no_hits(rule, cfg, (count - 1) as nat);
        name_facts::lemma_never_tracks(rule, cfg, node);
        lemma_no_run_hits(
            rule,
            cfg.nodes@[node as int].stmts@,
            node,
            cfg.nodes@[node as int].source_line,
        );
        assert(hits_in(rule, cfg, count) =~= Seq::<TaintHitView>::empty());
    }
}

/// Summaries that never say "yes" are as good as none: an unknown function is
/// a boundary that taints nothing by itself.
pub proof fn unknown_functions_taint_nothing(
    spec: &TaintSpec,
    summaries: Option<&Summaries>,
    cfg: Cfg<Stmt>,
)
    requires
        cfg.well_formed(),
        forall|name: Seq<char>| !#[trigger]
            summaries::summarized(summaries::owned(summaries), name),
    ensures
        hits_in(rule_of(spec, summaries), cfg, cfg.nodes@.len()) == hits_in(
            rule_of(spec, None),
            cfg,
            cfg.nodes@.len(),
        ),
{
    let r = rule_of(spec, summaries);
    let q = rule_of(spec, None);
    assert forall|held: Set<Seq<char>>, stmt: Stmt| #[trigger] r.flow(held, stmt) == q.flow(
        held,
        stmt,
    ) by {
        match stmt {
            Stmt::Call { target: CallTarget::Named(name), args, assigned_to: Some(v) } => {
                assert(!summaries::summarized(summaries::owned(summaries), name@));
            },
            _ => {},
        }
    }
    lemma_same_hits(r, q, cfg, cfg.nodes@.len());
}

proof fn lemma_same_run_hits(
    r: TaintRule,
    q: TaintRule,
    held: Set<Seq<char>>,
    stmts: Seq<Stmt>,
    node: NodeId,
    line: u32,
)
    requires
        r.spec == q.spec,
        forall|held: Set<Seq<char>>, stmt: Stmt| #[trigger] r.flow(held, stmt) == q.flow(held, stmt),
    ensures
        run_hits(r, held, stmts, node, line) == run_hits(q, held, stmts, node, line),
    decreases stmts.len(),
{
    if stmts.len() > 0 {
        lemma_same_run_hits(r, q, held, stmts.drop_last(), node, line);
        name_facts::lemma_same_flow_all(r, q, held, stmts.drop_last());
    }
}

proof fn lemma_same_hits(r: TaintRule, q: TaintRule, cfg: Cfg<Stmt>, count: nat)
    requires
        r.spec == q.spec,
        forall|held: Set<Seq<char>>, stmt: Stmt| #[trigger] r.flow(held, stmt) == q.flow(held, stmt),
    ensures
        hits_in(r, cfg, count) == hits_in(q, cfg, count),
    decreases count,
{
    if count > 0 {
        let node = (count - 1) as NodeId;
        lemma_same_hits(r, q, cfg, (count - 1) as nat);
        name_facts::lemma_same_flow(r, q, cfg, node);
        lemma_same_run_hits(
            r,
            q,
            name_facts::held_before(r, cfg, node),
            cfg.nodes@[node as int].stmts@,
            node,
            cfg.nodes@[node as int].source_line,
        );
    }
}

/// A variable assigned from a sanitizer is clean, whatever went in, and no
/// other variable is touched.
pub proof fn sanitizer_cleans_what_it_is_assigned_to(
    rule: TaintRule,
    held: Set<Seq<char>>,
    stmt: Stmt,
    other: Seq<char>,
)
    requires
        stmt matches Stmt::Call { target: CallTarget::Named(name), args, assigned_to: Some(v) }
            && any_accepts(rule.spec.sanitizers@, name@) && other != v@,
    ensures
        stmt matches Stmt::Call { target, args, assigned_to: Some(v) } && !rule.flow(
            held,
            stmt,
        ).contains(v@),
        rule.flow(held, stmt).contains(other) == held.contains(other),
{
}

/// Argument `a` of a call is a variable that is tainted and stands where the sink
/// is dangerous, and `hit` says so.
pub open spec fn arg_hit(
    sink: TaintSink,
    held: Set<Seq<char>>,
    call: Seq<char>,
    args: Seq<String>,
    node: NodeId,
    line: u32,
    a: int,
    hit: TaintHitView,
) -> bool {
    &&& 0 <= a < args.len()
    &&& dangerous_at(sink, a)
    &&& held.contains(arg_vars(args)[a])
    &&& hit == (TaintHitView {
        sink_call: call,
        tainted_arg: arg_vars(args)[a],
        node,
        source_line: line,
    })
}

proof fn lemma_arg_hits(
    sink: TaintSink,
    held: Set<Seq<char>>,
    call: Seq<char>,
    args: Seq<String>,
    node: NodeId,
    line: u32,
    hit: TaintHitView,
)
    ensures
        arg_hits(sink, held, call, args, node, line).contains(hit) <==> exists|a: int| #[trigger]
            arg_hit(sink, held, call, args, node, line, a, hit),
    decreases args.len(),
{
    if args.len() > 0 {
        let rest = args.drop_last();
        let last = args.len() - 1;
        lemma_arg_hits(sink, held, call, rest, node, line, hit);
        let made = TaintHitView {
            sink_call: call,
            tainted_arg: arg_vars(args)[last],
            node,
            source_line: line,
        };
        text::lemma_push_contains(arg_hits(sink, held, call, rest, node, line), made, hit);
        assert forall|a: int| 0 <= a < last implies arg_vars(rest)[a] == #[trigger] arg_vars(
            args,
        )[a] by {}
        if exists|a: int| #[trigger] arg_hit(sink, held, call, rest, node, line, a, hit) {
            let a = choose|a: int| #[trigger] arg_hit(sink, held, call, rest, node, line, a, hit);
            assert(arg_hit(sink, held, call, args, node, line, a, hit));
        }
        if exists|a: int| #[trigger] arg_hit(sink, held, call, args, node, line, a, hit) {
            let a = choose|a: int| #[trigger] arg_hit(sink, held, call, args, node, line, a, hit);
            if a < last {
                assert(arg_hit(sink, held, call, rest, node, line, a, hit));
            }
        }
        if dangerous_at(sink, last) && held.contains(arg_vars(args)[last]) && hit == made {
            assert(arg_hit(sink, held, call, args, node, line, last, hit));
        }
    } else {
        assert(arg_hits(sink, held, call, args, node, line).len() == 0);
    }
}

/// Sink `s` accepts the call, and `hit` is on its argument `a`.
pub open spec fn sink_hit(
    sinks: Seq<TaintSink>,
    held: Set<Seq<char>>,
    call: Seq<char>,
    args: Seq<String>,
    node: NodeId,
    line: u32,
    s: int,
    a: int,
    hit: TaintHitView,
) -> bool {
    &&& 0 <= s < sinks.len()
    &&& sinks[s].call.accepts(call)
    &&& arg_hit(sinks[s], held, call, args, node, line, a, hit)
}

proof fn lemma_sink_hits(
    sinks: Seq<TaintSink>,
    held: Set<Seq<char>>,
    call: Seq<char>,
    args: Seq<String>,
    node: NodeId,
    line: u32,
    hit: TaintHitView,
)
    ensures
        sink_hits(sinks, held, call, args, node, line).contains(hit) <==> exists|s: int, a: int|
            #[trigger] sink_hit(sinks, held, call, args, node, line, s, a, hit),
    decreases sinks.len(),
{
    if sinks.len() > 0 {
        let rest = sinks.drop_last();
        let last = sinks.len() - 1;
        let earlier = sink_hits(rest, held, call, args, node, line);
        let here = arg_hits(sinks[last], held, call, args, node, line);
        lemma_sink_hits(rest, held, call, args, node, line, hit);
        lemma_arg_hits(sinks[last], held, call, args, node, line, hit);
        text::lemma_joined_contains(earlier, here, hit);
        if earlier.contains(hit) {
            let (s, a) = choose|s: int, a: int| #[trigger]
                sink_hit(rest, held, call, args, node, line, s, a, hit);
            assert(sink_hit(sinks, held, call, args, node, line, s, a, hit));
        }
        if here.contains(hit) && sinks[last].call.accepts(call) {
            let a = choose|a: int| #[trigger]
                arg_hit(sinks[last], held, call, args, node, line, a, hit);
            assert(sink_hit(sinks, held, call, args, node, line, last, a, hit));
        }
        if exists|s: int, a: int| #[trigger]
            sink_hit(sinks, held, call, args, node, line, s, a, hit) {
            let (s, a) = choose|s: int, a: int| #[trigger]
                sink_hit(sinks, held, call, args, node, line, s, a, hit);
            if s < last {
                assert(sink_hit(rest, held, call, args, node, line, s, a, hit));
            } else {
                assert(arg_hit(sinks[last], held, call, args, node, line, a, hit));
            }
        }
    } else {
        assert(sink_hits(sinks, held, call, args, node, line).len() == 0);
    }
}

/// A statement is a call that a sink accepts, with a tainted variable where the
/// sink is dangerous, and `hit` says so.
pub open spec fn taints_sink(
    spec: TaintSpec,
    held: Set<Seq<char>>,
    stmt: Stmt,
    node: NodeId,
    line: u32,
    hit: TaintHitView,
) -> bool {
    stmt matches Stmt::Call { target: CallTarget::Named(name), args, assigned_to } && exists|
        s: int,
        a: int,
    | #[trigger]
        sink_hit(spec.sinks@, held, name@, args@, node, line, s, a, hit)
}

proof fn lemma_run_hits(
    rule: TaintRule,
    held: Set<Seq<char>>,
    stmts: Seq<Stmt>,
    node: NodeId,
    line: u32,
    hit: TaintHitView,
)
    ensures
        run_hits(rule, held, stmts, node, line).contains(hit) <==> exists|k: int|
            0 <= k < stmts.len() && #[trigger] taints_sink(
                *rule.spec,
                name_facts::flow_all(rule, held, stmts.take(k)),
                stmts[k],
                node,
                line,
                hit,
            ),
    decreases stmts.len(),
{
    if stmts.len() > 0 {
        let rest = stmts.drop_last();
        let last = stmts.len() - 1;
        let earlier = run_hits(rule, held, rest, node, line);
        let at = name_facts::flow_all(rule, held, rest);
        let here = stmt_hits(*rule.spec, at, stmts[last], node, line);
        lemma_run_hits(rule, held, rest, node, line, hit);
        text::lemma_joined_contains(earlier, here, hit);
        assert(stmts.take(last) =~= rest);
        assert(here.contains(hit) <==> taints_sink(*rule.spec, at, stmts[last], node, line, hit))
            by {
            match stmts[last] {
                Stmt::Call { target: CallTarget::Named(name), args, assigned_to } => {
                    lemma_sink_hits(rule.spec.sinks@, at, name@, args@, node, line, hit);
                },
                _ => {
                    assert(here.len() == 0);
                },
            }
        }
        assert forall|k: int| 0 <= k < last implies #[trigger] stmts.take(k) == rest.take(k)
            && stmts[k] == rest[k] by {
            assert(stmts.take(k) =~= rest.take(k));
        }
        if earlier.contains(hit) {
            let k = choose|k: int|
                0 <= k < rest.len() && #[trigger] taints_sink(
                    *rule.spec,
                    name_facts::flow_all(rule, held, rest.take(k)),
                    rest[k],
                    node,
                    line,
                    hit,
                );
            assert(taints_sink(
                *rule.spec,
                name_facts::flow_all(rule, held, stmts.take(k)),
                stmts[k],
                node,
                line,
                hit,
            ));
        }
        if here.contains(hit) {
            assert(taints_sink(
                *rule.spec,
                name_facts::flow_all(rule, held, stmts.take(last)),
                stmts[last],
                node,
                line,
                hit,
            ));
        }
        if exists|k: int|
            0 <= k < stmts.len() && #[trigger] taints_sink(
                *rule.spec,
                name_facts::flow_all(rule, held, stmts.take(k)),
                stmts[k],
                node,
                line,
                hit,
            ) {
            let k = choose|k: int|
                0 <= k < stmts.len() && #[trigger] taints_sink(
                    *rule.spec,
                    name_facts::flow_all(rule, held, stmts.take(k)),
                    stmts[k],
                    node,
                    line,
                    hit,
                );
            if k < last {
                assert(taints_sink(
                    *rule.spec,
                    name_facts::flow_all(rule, held, rest.take(k)),
                    rest[k],
                    node,
                    line,
                    hit,
                ));
            }
        }
    } else {
        assert(run_hits(rule, held, stmts, node, line).len() == 0);
    }
}

/// `hit` is on statement `k` of `node`, given what some walk taints there.
pub open spec fn tainted_at(
    rule: TaintRule,
    cfg: Cfg<Stmt>,
    node: int,
    k: int,
    hit: TaintHitView,
) -> bool {
    &&& 0 <= k < cfg.nodes@[node].stmts@.len()
    &&& taints_sink(
        *rule.spec,
        name_facts::held_at(rule, cfg, node as NodeId, k),
        cfg.nodes@[node].stmts@[k],
        node as NodeId,
        cfg.nodes@[node].source_line,
        hit,
    )
}

/// Every tainted value that reaches a sink along some walk is a hit, and nothing
/// else is.
pub proof fn hits_are_tainted_sink_arguments(
    rule: TaintRule,
    cfg: Cfg<Stmt>,
    count: nat,
    hit: TaintHitView,
)
    requires
        count <= cfg.nodes@.len(),
        cfg.nodes@.len() <= NodeId::MAX,
    ensures
        hits_in(rule, cfg, count).contains(hit) <==> exists|node: int, k: int|
            0 <= node < count && #[trigger] tainted_at(rule, cfg, node, k, hit),
    decreases count,
{
    if count > 0 {
        let last = count - 1;
        let node = last as NodeId;
        let held = name_facts::held_before(rule, cfg, node);
        let stmts = cfg.nodes@[last].stmts@;
        let line = cfg.nodes@[last].source_line;
        let before = hits_in(rule, cfg, last as nat);
        let here = run_hits(rule, held, stmts, node, line);
        hits_are_tainted_sink_arguments(rule, cfg, last as nat, hit);
        lemma_run_hits(rule, held, stmts, node, line, hit);
        text::lemma_joined_contains(before, here, hit);
        if before.contains(hit) {
            let (n, k) = choose|n: int, k: int|
                0 <= n < last && #[trigger] tainted_at(rule, cfg, n, k, hit);
            assert(0 <= n < count && tainted_at(rule, cfg, n, k, hit));
        }
        if here.contains(hit) {
            let k = choose|k: int|
                0 <= k < stmts.len() && #[trigger] taints_sink(
                    *rule.spec,
                    name_facts::flow_all(rule, held, stmts.take(k)),
                    stmts[k],
                    node,
                    line,
                    hit,
                );
            assert(tainted_at(rule, cfg, last, k, hit));
        }
        if exists|n: int, k: int| 0 <= n < count && #[trigger] tainted_at(rule, cfg, n, k, hit) {
            let (n, k) = choose|n: int, k: int|
                0 <= n < count && #[trigger] tainted_at(rule, cfg, n, k, hit);
            if n < last {
                assert(tainted_at(rule, cfg, n, k, hit));
            } else {
                assert(taints_sink(
                    *rule.spec,
                    name_facts::flow_all(rule, held, stmts.take(k)),
                    stmts[k],
                    node,
                    line,
                    hit,
                ));
            }
        }
    } else {
        assert(hits_in(rule, cfg, count).len() == 0);
    }
}

/// The more functions are known to return a tainted value, the more arguments are
/// reported.
pub proof fn hits_grow_with_summaries(
    spec: &TaintSpec,
    less: Option<&Summaries>,
    more: Option<&Summaries>,
    cfg: Cfg<Stmt>,
    hit: TaintHitView,
)
    requires
        summaries::says_no_more(summaries::owned(less), summaries::owned(more)),
        cfg.nodes@.len() <= NodeId::MAX,
        hits_in(rule_of(spec, less), cfg, cfg.nodes@.len()).contains(hit),
    ensures
        hits_in(rule_of(spec, more), cfg, cfg.nodes@.len()).contains(hit),
{
    let count = cfg.nodes@.len();
    let r = rule_of(spec, less);
    let q = rule_of(spec, more);
    assert forall|a: Set<Seq<char>>, b: Set<Seq<char>>, stmt: Stmt|
        #![trigger r.flow(a, stmt), q.flow(b, stmt)]
        a.subset_of(b) implies r.flow(a, stmt).subset_of(q.flow(b, stmt)) by {
        assert forall|names: Seq<Seq<char>>| #[trigger] any_held(a, names) implies any_held(
            b,
            names,
        ) by {
            let i = choose|i: int| 0 <= i < names.len() && a.contains(#[trigger] names[i]);
            assert(b.contains(names[i]));
        }
    }
    hits_are_tainted_sink_arguments(r, cfg, count, hit);
    hits_are_tainted_sink_arguments(q, cfg, count, hit);
    let (node, k) = choose|node: int, k: int|
        0 <= node < count && #[trigger] tainted_at(r, cfg, node, k, hit);
    name_facts::lemma_more_at(r, q, cfg, node as NodeId, k);
    let held = name_facts::held_at(r, cfg, node as NodeId, k);
    let wider = name_facts::held_at(q, cfg, node as NodeId, k);
    let line = cfg.nodes@[node].source_line;
    if let Stmt::Call { target: CallTarget::Named(name), args, assigned_to } =
        cfg.nodes@[node].stmts@[k] {
        let (s, a) = choose|s: int, a: int| #[trigger]
            sink_hit(spec.sinks@, held, name@, args@, node as NodeId, line, s, a, hit);
        assert(sink_hit(spec.sinks@, wider, name@, args@, node as NodeId, line, s, a, hit));
    }
    assert(tainted_at(q, cfg, node, k, hit));
}

/// An argument names a variable: it is the variable behind `count` address
/// operators.
pub open spec fn names_behind(arg: Seq<char>, count: int, var: Seq<char>) -> bool {
    &&& 0 <= count <= arg.len()
    &&& forall|i: int| 0 <= i < count ==> #[trigger] arg[i] == '&'
    &&& var == arg.skip(count)
    &&& var.len() == 0 || var[0] != '&'
}

proof fn lemma_strip(arg: Seq<char>) -> (count: int)
    ensures
        names_behind(arg, count, text::strip_leading(arg, '&')),
    decreases arg.len(),
{
    if arg.len() > 0 && arg[0] == '&' {
        let n = lemma_strip(arg.drop_first());
        assert forall|i: int| 0 <= i < n + 1 implies #[trigger] arg[i] == '&' by {
            if i > 0 {
                assert(arg.drop_first()[i - 1] == arg[i]);
            }
        }
        assert(arg.skip(n + 1) =~= arg.drop_first().skip(n));
        n + 1
    } else {
        assert(arg.skip(0) =~= arg);
        0
    }
}

/// What an argument names is one variable: what stands behind all of its address
/// operators.
pub proof fn an_argument_names_one_variable(arg: Seq<char>, count: int, var: Seq<char>)
    requires
        names_behind(arg, count, var),
    ensures
        text::strip_leading(arg, '&') == var,
{
    let n = lemma_strip(arg);
    if n < count {
        assert(arg[n] == '&');
        assert(arg.skip(n)[0] == arg[n]);
    } else if count < n {
        assert(arg[count] == '&');
        assert(arg.skip(count)[0] == arg[count]);
    }
}

/// What a pattern accepts: a bare name accepts itself and everything that ends in
/// a dot and the name; a regular expression accepts what it matches.
pub proof fn patterns_accept_names_behind_a_dot(pattern: NamePattern, call: Seq<char>)
    ensures
        pattern matches NamePattern::Suffix(name) ==> (pattern.accepts(call) <==> call == name@ || (
        call.len() > name@.len() && call[call.len() - name@.len() - 1] == '.' && call.skip(
            call.len() - name@.len(),
        ) == name@)),
        pattern matches NamePattern::Regex(re) ==> (pattern.accepts(call) <==> regex_matches(
            regex_source(*re),
            call,
        )),
{
    if let NamePattern::Suffix(name) = pattern {
        let part = seq!['.'] + name@;
        let at = call.len() - part.len();
        if text::ends(call, part) {
            assert(call.subrange(at, at + part.len())[0] == part[0]);
            assert(call.skip(at + 1) =~= part.skip(1));
            assert(part.skip(1) =~= name@);
        }
        if call.len() > name@.len() && call[call.len() - name@.len() - 1] == '.' && call.skip(
            call.len() - name@.len(),
        ) == name@ {
            assert(call.subrange(at, at + part.len()) =~= part) by {
                assert forall|i: int| 0 <= i < part.len() implies call.subrange(
                    at,
                    at + part.len(),
                )[i] == part[i] by {
                    if i > 0 {
                        assert(call.skip(call.len() - name@.len())[i - 1] == name@[i - 1]);
                    }
                }
            }
        }
    }
}

/// What a call does to the taint of the variable that it is assigned to: it is
/// tainted exactly if no sanitizer accepts the call, and a source accepts it, or
/// its function is known to return a tainted value, or one of its arguments names
/// a tainted variable. No other variable changes.
pub proof fn calls_pass_taint_on(
    rule: TaintRule,
    held: Set<Seq<char>>,
    name: String,
    args: Vec<String>,
    v: String,
    other: Seq<char>,
)
    ensures
        ({
            let stmt = Stmt::Call { target: CallTarget::Named(name), args, assigned_to: Some(v) };
            let sanitized = exists|i: int|
                0 <= i < rule.spec.sanitizers@.len() && (
                #[trigger] rule.spec.sanitizers@[i]).accepts(name@);
            let source = exists|i: int|
                0 <= i < rule.spec.sources@.len() && (#[trigger] rule.spec.sources@[i]).accepts(
                    name@,
                );
            let known = rule.summaries matches Some(s) && s@.contains_key(name@) && s@[name@];
            let fed = exists|i: int, count: int, var: Seq<char>|
                0 <= i < args@.len() && #[trigger] names_behind(args@[i]@, count, var)
                    && held.contains(var);
            &&& rule.flow(held, stmt).contains(v@) <==> !sanitized && (source || known || fed)
            &&& other != v@ ==> (rule.flow(held, stmt).contains(other) <==> held.contains(other))
        }),
{
    let fed = exists|i: int, count: int, var: Seq<char>|
        0 <= i < args@.len() && #[trigger] names_behind(args@[i]@, count, var) && held.contains(var);
    let vars = arg_vars(args@);
    if any_held(held, vars) {
        let i = choose|i: int| 0 <= i < vars.len() && held.contains(#[trigger] vars[i]);
        let count = lemma_strip(args@[i]@);
        assert(names_behind(args@[i]@, count, vars[i]));
    }
    if fed {
        let (i, count, var) = choose|i: int, count: int, var: Seq<char>|
            0 <= i < args@.len() && #[trigger] names_behind(args@[i]@, count, var)
                && held.contains(var);
        an_argument_names_one_variable(args@[i]@, count, var);
        assert(held.contains(vars[i]));
    }
}

/// What assignments do to taint: a copy is tainted exactly if what it copies is, a
/// concatenation exactly if one of its parts is, any other value is not; no other
/// variable changes. Every other statement changes nothing, and so does a call
/// whose result is not kept or whose function has no name.
pub proof fn assignments_pass_taint_on(
    rule: TaintRule,
    held: Set<Seq<char>>,
    stmt: Stmt,
    other: Seq<char>,
)
    ensures
        stmt matches Stmt::Assign { lhs, rhs } ==> {
            &&& rhs matches RhsShape::Var(from) ==> (rule.flow(held, stmt).contains(lhs@)
                <==> held.contains(from@))
            &&& rhs matches RhsShape::Concat { parts } ==> (rule.flow(held, stmt).contains(lhs@)
                <==> exists|i: int| 0 <= i < parts@.len() && held.contains(#[trigger] parts@[i]@))
            &&& !(rhs is Var) && !(rhs is Concat) ==> !rule.flow(held, stmt).contains(lhs@)
            &&& other != lhs@ ==> (rule.flow(held, stmt).contains(other) <==> held.contains(other))
        },
        !(stmt is Assign) && !(stmt is Call) ==> rule.flow(held, stmt) == held,
        stmt matches Stmt::Call { target, args, assigned_to } && (assigned_to is None || target
            is Unknown) ==> rule.flow(held, stmt) == held,
{
    if let Stmt::Assign { lhs, rhs: RhsShape::Concat { parts } } = stmt {
        let views = text::views(parts@);
        if any_held(held, views) {
            let i = choose|i: int| 0 <= i < views.len() && held.contains(#[trigger] views[i]);
            assert(held.contains(parts@[i]@));
        }
        if exists|i: int| 0 <= i < parts@.len() && held.contains(#[trigger] parts@[i]@) {
            let i = choose|i: int| 0 <= i < parts@.len() && held.contains(#[trigger] parts@[i]@);
            assert(held.contains(views[i]));
        }
    }
}

/// A call that a sink accepts, with an argument that names a variable which some
/// walk taints there, is reported with the call, the variable, the node and its
/// line, provided that the sink is dangerous at that argument.
pub proof fn tainted_arguments_of_sinks_are_reported(
    rule: TaintRule,
    cfg: Cfg<Stmt>,
    node: NodeId,
    k: int,
    name: String,
    args: Vec<String>,
    assigned_to: Option<String>,
    s: int,
    a: int,
    count: int,
    var: Seq<char>,
)
    requires
        node < cfg.nodes@.len() <= NodeId::MAX,
        0 <= k < cfg.nodes@[node as int].stmts@.len(),
        cfg.nodes@[node as int].stmts@[k] == (Stmt::Call {
            target: CallTarget::Named(name),
            args,
            assigned_to,
        }),
        0 <= s < rule.spec.sinks@.len(),
        rule.spec.sinks@[s].call.accepts(name@),
        0 <= a < args@.len(),
        names_behind(args@[a]@, count, var),
        rule.spec.sinks@[s].tainted_arg_positions matches Some(at) ==> exists|p: int|
            0 <= p < at@.len() && #[trigger] at@[p] == a,
        name_facts::held_at(rule, cfg, node, k).contains(var),
    ensures
        hits_in(rule, cfg, cfg.nodes@.len()).contains(
            TaintHitView {
                sink_call: name@,
                tainted_arg: var,
                node,
                source_line: cfg.nodes@[node as int].source_line,
            },
        ),
{
    let line = cfg.nodes@[node as int].source_line;
    let hit = TaintHitView { sink_call: name@, tainted_arg: var, node, source_line: line };
    let held = name_facts::held_at(rule, cfg, node, k);
    an_argument_names_one_variable(args@[a]@, count, var);
    assert(arg_vars(args@)[a] == var);
    assert(arg_hit(rule.spec.sinks@[s], held, name@, args@, node, line, a, hit));
    let stmt = cfg.nodes@[node as int].stmts@[k];
    if let Stmt::Call { target: CallTarget::Named(n), args: given, assigned_to: to } = stmt {
        assert(n == name && given == args);
        assert(sink_hit(rule.spec.sinks@, held, n@, given@, node, line, s, a, hit));
        assert(exists|s: int, a: int| #[trigger]
            sink_hit(rule.spec.sinks@, held, n@, given@, node, line, s, a, hit));
    }
    assert(taints_sink(*rule.spec, held, stmt, node, line, hit));
    assert((node as int) as NodeId == node);
    assert(tainted_at(rule, cfg, node as int, k, hit));
    hits_are_tainted_sink_arguments(rule, cfg, cfg.nodes@.len(), hit);
}

/// Whatever is reported is a call in the graph that a sink accepts, with an
/// argument where the sink is dangerous, and that argument names a variable which
/// some walk taints there.
pub proof fn only_tainted_arguments_of_sinks_are_reported(
    rule: TaintRule,
    cfg: Cfg<Stmt>,
    hit: TaintHitView,
)
    requires
        cfg.nodes@.len() <= NodeId::MAX,
        hits_in(rule, cfg, cfg.nodes@.len()).contains(hit),
    ensures
        hit.node < cfg.nodes@.len(),
        hit.source_line == cfg.nodes@[hit.node as int].source_line,
        exists|k: int, s: int, a: int, count: int|
            #![trigger cfg.nodes@[hit.node as int].stmts@[k], rule.spec.sinks@[s], names_behind(cfg.nodes@[hit.node as int].stmts@[k]->args@[a]@, count, hit.tainted_arg)]
            {
                let stmt = cfg.nodes@[hit.node as int].stmts@[k];
                &&& 0 <= k < cfg.nodes@[hit.node as int].stmts@.len()
                &&& 0 <= s < rule.spec.sinks@.len()
                &&& stmt matches Stmt::Call { target: CallTarget::Named(name), args, assigned_to }
                &&& name@ == hit.sink_call
                &&& rule.spec.sinks@[s].call.accepts(name@)
                &&& 0 <= a < stmt->args@.len()
                &&& names_behind(stmt->args@[a]@, count, hit.tainted_arg)
                &&& rule.spec.sinks@[s].tainted_arg_positions matches Some(at) ==> exists|p: int|
                    0 <= p < at@.len() && #[trigger] at@[p] == a
                &&& name_facts::held_at(rule, cfg, hit.node, k).contains(hit.tainted_arg)
            },
{
    let len = cfg.nodes@.len();
    hits_are_tainted_sink_arguments(rule, cfg, len, hit);
    let (node, k) = choose|node: int, k: int|
        0 <= node < len && #[trigger] tainted_at(rule, cfg, node, k, hit);
    let line = cfg.nodes@[node].source_line;
    let held = name_facts::held_at(rule, cfg, node as NodeId, k);
    if let Stmt::Call { target: CallTarget::Named(name), args, assigned_to } =
        cfg.nodes@[node].stmts@[k] {
        let (s, a) = choose|s: int, a: int| #[trigger]
            sink_hit(rule.spec.sinks@, held, name@, args@, node as NodeId, line, s, a, hit);
        assert(arg_hit(rule.spec.sinks@[s], held, name@, args@, node as NodeId, line, a, hit));
        let count = lemma_strip(args@[a]@);
        assert(rule.spec.sinks@[s].call.accepts(name@));
        assert(names_behind(cfg.nodes@[hit.node as int].stmts@[k]->args@[a]@, count, hit.tainted_arg));
    }
}

/// A function is summarized as returning a tainted value exactly if one of its
/// returns gives back a variable that some walk taints there.
pub proof fn a_summary_is_a_tainted_return(spec: &TaintSpec, cfg: Cfg<Stmt>, node: NodeId, k: int)
    ensures
        returns_held(rule_of(spec, None), cfg, node, k) <==> node < cfg.nodes@.len() && 0 <= k
            < cfg.nodes@[node as int].stmts@.len() && (cfg.nodes@[node as int].stmts@[k]
            matches Stmt::Return { value: Some(v) } && name_facts::held_at(
            rule_of(spec, None),
            cfg,
            node,
            k,
        ).contains(v@)),
{
}

} // verus!
