//! Compares the linter configuration of a repository with the shipped rules:
//! which checks the team switched off that a rule still covers, and which
//! checks it switched on that no rule covers.

use vstd::prelude::*;

use crate::report::dedupe;
use crate::report::dedupe::Similarity;
use crate::rule_factory::existing_rules::{ExistingRuleSummary, RuleView};
use crate::text;

verus! {

/// How alike the names of a check and a rule are, in a hundred, for the rule to
/// cover the check. Short names share fewer windows than prose does.
pub const GAP_REPORT_SIMILARITY_PERCENT: u8 = 15;

/// A check of a linter, and whether it is on.
#[derive(Debug, Clone, PartialEq, Eq)]
pub struct LinterCheckStatus {
    pub name: String,
    pub enabled: bool,
}

/// What a `LinterCheckStatus` says.
pub struct CheckView {
    pub name: Seq<char>,
    pub enabled: bool,
}

impl View for LinterCheckStatus {
    type V = CheckView;

    open spec fn view(&self) -> CheckView {
        CheckView { name: self.name@, enabled: self.enabled }
    }
}

/// A check that is off, and the rule that covers it.
#[derive(Debug, Clone, PartialEq, Eq)]
pub struct DisabledMatch {
    pub linter_check: String,
    pub autoreview_rule_id: String,
    pub similarity: Similarity,
}

/// What a `DisabledMatch` says.
pub struct DisabledView {
    pub linter_check: Seq<char>,
    pub autoreview_rule_id: Seq<char>,
    pub similarity: Similarity,
}

impl View for DisabledMatch {
    type V = DisabledView;

    open spec fn view(&self) -> DisabledView {
        DisabledView {
            linter_check: self.linter_check@,
            autoreview_rule_id: self.autoreview_rule_id@,
            similarity: self.similarity,
        }
    }
}

/// What the comparison found for one configuration file.
#[derive(Debug, Clone)]
pub struct ConfigGapReport {
    pub tool: String,
    pub config_path: String,
    pub disabled_matches: Vec<DisabledMatch>,
    pub uncovered_checks: Vec<String>,
}

/// A character as names are compared: an ASCII letter in lower case or a digit,
/// and a space for any other.
pub open spec fn plain_char(c: char) -> char {
    let n = c as u32;
    if 0x41 <= n <= 0x5a || 0x61 <= n <= 0x7a || 0x30 <= n <= 0x39 {
        text::ascii_lower(c)
    } else {
        ' '
    }
}

/// A name as names are compared.
pub open spec fn plain(s: Seq<char>) -> Seq<char> {
    Seq::new(s.len(), |i: int| plain_char(s[i]))
}

fn to_plain_char(c: char) -> (p: char)
    ensures
        p == plain_char(c),
{
    let n: u32 = c as u32;
    if 0x41 <= n && n <= 0x5a {
        let lower: u8 = (n + 32) as u8;
        lower as char
    } else if (0x61 <= n && n <= 0x7a) || (0x30 <= n && n <= 0x39) {
        c
    } else {
        ' '
    }
}

/// A name as names are compared.
pub fn normalize_for_matching(s: &str) -> (p: String)
    ensures
        p@ == plain(s@),
{
    let chars: Vec<char> = text::chars_of(s);
    let mut p: String = String::new();
    let mut i: usize = 0;
    while i < chars.len()
        invariant
            0 <= i <= chars@.len(),
            chars@ == s@,
            p@.len() == i,
            forall|j: int| 0 <= j < i ==> p@[j] == plain_char(s@[j]),
        decreases chars.len() - i,
    {
        p.push(to_plain_char(chars[i]));
        i += 1;
    }
    proof {
        assert(p@ =~= plain(s@));
    }
    p
}

/// The rule that covers a check: the one whose name is most like the check's and
/// alike enough; of equally alike ones the last.
pub open spec fn covering_rule(check: Seq<char>, rules: Seq<RuleView>) -> Option<DisabledView>
    decreases rules.len(),
{
    if rules.len() == 0 {
        None
    } else {
        let before = covering_rule(check, rules.drop_last());
        let similarity = dedupe::similarity_of(plain(check), plain(rules.last().id));
        if similarity.reaches(GAP_REPORT_SIMILARITY_PERCENT as nat) && (before is None
            || !similarity.below(before->Some_0.similarity)) {
            Some(
                DisabledView {
                    linter_check: check,
                    autoreview_rule_id: rules.last().id,
                    similarity,
                },
            )
        } else {
            before
        }
    }
}

fn best_rule_match(check_name: &str, existing: &[ExistingRuleSummary]) -> (found: Option<
    DisabledMatch,
>)
    ensures
        match found {
            Some(m) => covering_rule(check_name@, text::views(existing@)) == Some(m@)
                && m.similarity.sound(),
            None => covering_rule(check_name@, text::views(existing@)) is None,
        },
{
    let ghost rules = text::views(existing@);
    let wanted: String = normalize_for_matching(check_name);
    let mut best: Option<DisabledMatch> = None;
    let mut i: usize = 0;
    while i < existing.len()
        invariant
            0 <= i <= existing@.len(),
            rules == text::views(existing@),
            wanted@ == plain(check_name@),
            match best {
                Some(m) => covering_rule(check_name@, rules.take(i as int)) == Some(m@)
                    && m.similarity.sound(),
                None => covering_rule(check_name@, rules.take(i as int)) is None,
            },
        decreases existing.len() - i,
    {
        proof {
            assert(rules.take(i + 1).drop_last() =~= rules.take(i as int));
            assert(rules.take(i + 1).last() == existing@[i as int]@);
        }
        let id: String = normalize_for_matching(existing[i].id.as_str());
        let similarity: Similarity = dedupe::title_similarity(wanted.as_str(), id.as_str());
        if similarity.at_least(GAP_REPORT_SIMILARITY_PERCENT) {
            let better: bool = match &best {
                Some(m) => !similarity.less_than(m.similarity),
                None => true,
            };
            if better {
                best = Some(
                    DisabledMatch {
                        linter_check: check_name.to_owned(),
                        autoreview_rule_id: existing[i].id.clone(),
                        similarity,
                    },
                );
            }
        }
        i += 1;
    }
    proof {
        assert(rules.take(rules.len() as int) =~= rules);
    }
    best
}

/// A list with one more match, in front of the first that is less alike.
pub open spec fn ranked_with(list: Seq<DisabledView>, m: DisabledView) -> Seq<DisabledView>
    decreases list.len(),
{
    if list.len() == 0 || list[0].similarity.below(m.similarity) {
        seq![m] + list
    } else {
        seq![list[0]] + ranked_with(list.drop_first(), m)
    }
}

/// The checks that are off and that a rule covers, the most alike first, and
/// equally alike ones in the order of the checks.
pub open spec fn disabled_of(checks: Seq<CheckView>, rules: Seq<RuleView>) -> Seq<DisabledView>
    decreases checks.len(),
{
    if checks.len() == 0 {
        Seq::empty()
    } else {
        let rest = disabled_of(checks.drop_last(), rules);
        match covering_rule(checks.last().name, rules) {
            Some(m) => if checks.last().enabled {
                rest
            } else {
                ranked_with(rest, m)
            },
            None => rest,
        }
    }
}

/// The checks that are on and that no rule covers.
pub open spec fn uncovered_of(checks: Seq<CheckView>, rules: Seq<RuleView>) -> Seq<Seq<char>>
    decreases checks.len(),
{
    if checks.len() == 0 {
        Seq::empty()
    } else {
        let rest = uncovered_of(checks.drop_last(), rules);
        if checks.last().enabled && covering_rule(checks.last().name, rules) is None {
            rest.push(checks.last().name)
        } else {
            rest
        }
    }
}

proof fn lemma_ranked_with(list: Seq<DisabledView>, m: DisabledView, k: int)
    requires
        0 <= k <= list.len(),
        forall|j: int| 0 <= j < k ==> !(#[trigger] list[j]).similarity.below(m.similarity),
        k < list.len() ==> list[k].similarity.below(m.similarity),
    ensures
        ranked_with(list, m) == list.insert(k, m),
    decreases list.len(),
{
    if list.len() == 0 || list[0].similarity.below(m.similarity) {
        assert(ranked_with(list, m) =~= list.insert(0, m));
    } else {
        let rest = list.drop_first();
        assert forall|j: int| 0 <= j < k - 1 implies !(#[trigger] rest[j]).similarity.below(
            m.similarity,
        ) by {
            assert(rest[j] == list[j + 1]);
        }
        lemma_ranked_with(rest, m, k - 1);
        assert(ranked_with(list, m) =~= list.insert(k, m));
    }
}

/// Every similarity of a list is one of two texts.
pub open spec fn all_sound(list: Seq<DisabledMatch>) -> bool {
    forall|i: int| 0 <= i < list.len() ==> (#[trigger] list[i]).similarity.sound()
}

fn insert_ranked(list: &mut Vec<DisabledMatch>, m: DisabledMatch)
    requires
        all_sound(old(list)@),
        m.similarity.sound(),
    ensures
        text::views(final(list)@) == ranked_with(text::views(old(list)@), m@),
        all_sound(final(list)@),
{
    let ghost before = text::views(list@);
    let ghost rows = list@;
    let mut k: usize = 0;
    while k < list.len() && !list[k].similarity.less_than(m.similarity)
        invariant
            0 <= k <= list@.len(),
            before == text::views(list@),
            all_sound(list@),
            m.similarity.sound(),
            forall|j: int| 0 <= j < k ==> !(#[trigger] before[j]).similarity.below(m.similarity),
        decreases list.len() - k,
    {
        k += 1;
    }
    proof {
        lemma_ranked_with(before, m@, k as int);
    }
    let ghost added = m;
    list.insert(k, m);
    proof {
        assert(text::views(list@) =~= before.insert(k as int, added@));
        assert forall|i: int| 0 <= i < list@.len() implies (
        #[trigger] list@[i]).similarity.sound() by {
            if i < k {
                assert(list@[i] == rows[i]);
            } else if i > k {
                assert(list@[i] == rows[i - 1]);
            }
        }
    }
}

/// Compares the checks of one configuration file with the shipped rules.
pub fn build_report(
    tool: &str,
    config_path: &str,
    checks: &[LinterCheckStatus],
    existing: &[ExistingRuleSummary],
) -> (report: ConfigGapReport)
    ensures
        report.tool@ == tool@,
        report.config_path@ == config_path@,
        text::views(report.disabled_matches@) == disabled_of(
            text::views(checks@),
            text::views(existing@),
        ),
        text::views(report.uncovered_checks@) == uncovered_of(
            text::views(checks@),
            text::views(existing@),
        ),
{
    let ghost all = text::views(checks@);
    let ghost rules = text::views(existing@);
    let mut disabled: Vec<DisabledMatch> = Vec::new();
    let mut uncovered: Vec<String> = Vec::new();
    proof {
        assert(text::views(disabled@) =~= Seq::empty());
        assert(text::views(uncovered@) =~= Seq::empty());
    }
    let mut i: usize = 0;
    while i < checks.len()
        invariant
            0 <= i <= checks@.len(),
            all == text::views(checks@),
            rules == text::views(existing@),
            all_sound(disabled@),
            text::views(disabled@) == disabled_of(all.take(i as int), rules),
            text::views(uncovered@) == uncovered_of(all.take(i as int), rules),
        decreases checks.len() - i,
    {
        proof {
            assert(all.take(i + 1).drop_last() =~= all.take(i as int));
            assert(all.take(i + 1).last() == checks@[i as int]@);
        }
        match best_rule_match(checks[i].name.as_str(), existing) {
            Some(m) => {
                if !checks[i].enabled {
                    insert_ranked(&mut disabled, m);
                }
            },
            None => {
                if checks[i].enabled {
                    let name: String = checks[i].name.clone();
                    proof {
                        text::lemma_views_push(uncovered@, name);
                    }
                    uncovered.push(name);
                }
            },
        }
        i += 1;
    }
    proof {
        assert(all.take(all.len() as int) =~= all);
    }
    ConfigGapReport {
        tool: tool.to_owned(),
        config_path: config_path.to_owned(),
        disabled_matches: disabled,
        uncovered_checks: uncovered,
    }
}

/// Names with one status.
pub open spec fn with_status(names: Seq<Seq<char>>, enabled: bool) -> Seq<CheckView> {
    Seq::new(names.len(), |i: int| CheckView { name: names[i], enabled })
}

fn push_checks(names: &Vec<String>, enabled: bool, checks: &mut Vec<LinterCheckStatus>)
    ensures
        text::views(final(checks)@) == text::views(old(checks)@) + with_status(
            text::views(names@),
            enabled,
        ),
{
    let ghost before = text::views(checks@);
    let ghost wanted = with_status(text::views(names@), enabled);
    proof {
        assert(before + wanted.take(0) =~= before);
    }
    let mut i: usize = 0;
    while i < names.len()
        invariant
            0 <= i <= names@.len(),
            wanted == with_status(text::views(names@), enabled),
            text::views(checks@) == before + wanted.take(i as int),
        decreases names.len() - i,
    {
        let check = LinterCheckStatus { name: names[i].clone(), enabled };
        proof {
            text::lemma_views_push(checks@, check);
            assert(before + wanted.take(i + 1) =~= (before + wanted.take(i as int)).push(check@));
        }
        checks.push(check);
        i += 1;
    }
    proof {
        assert(wanted.take(wanted.len() as int) =~= wanted);
    }
}

/// The checks of a golangci-lint configuration, given the linters that it lists
/// as enabled and as disabled.
pub fn golangci_checks(enable: &Vec<String>, disable: &Vec<String>) -> (checks: Vec<
    LinterCheckStatus,
>)
    ensures
        text::views(checks@) == with_status(text::views(enable@), true) + with_status(
            text::views(disable@),
            false,
        ),
{
    let mut checks: Vec<LinterCheckStatus> = Vec::new();
    proof {
        assert(text::views(checks@) =~= Seq::empty());
        assert(Seq::<CheckView>::empty() + with_status(text::views(enable@), true)
            =~= with_status(text::views(enable@), true));
    }
    push_checks(enable, true, &mut checks);
    push_checks(disable, false, &mut checks);
    checks
}

/// A value in the setting of an ESLint rule.
#[derive(Debug, Clone)]
pub enum EslintValue {
    Text(String),
    Number(i64),
    /// A value that is neither text nor an integer.
    Other,
}

impl EslintValue {
    /// The value says `off` or 0.
    pub open spec fn off(self) -> bool {
        match self {
            EslintValue::Text(s) => s@ == "off"@,
            EslintValue::Number(n) => n == 0,
            EslintValue::Other => false,
        }
    }

    /// Whether the value says `off` or 0.
    pub fn is_off(&self) -> (r: bool)
        ensures
            r == self.off(),
    {
        match self {
            EslintValue::Text(s) => text::same(s.as_str(), "off"),
            EslintValue::Number(n) => *n == 0,
            EslintValue::Other => false,
        }
    }
}

/// The setting of an ESLint rule: a severity, or a list of one and its options.
#[derive(Debug, Clone)]
pub enum EslintSeverity {
    Bare(EslintValue),
    WithOptions(Vec<EslintValue>),
}

impl EslintSeverity {
    /// The rule is off: its severity, which is the first of a list, says so, or
    /// the list is empty.
    pub open spec fn off(self) -> bool {
        match self {
            EslintSeverity::Bare(value) => value.off(),
            EslintSeverity::WithOptions(items) => items@.len() == 0 || items@[0].off(),
        }
    }

    /// Whether the rule is off.
    pub fn is_off(&self) -> (r: bool)
        ensures
            r == self.off(),
    {
        match self {
            EslintSeverity::Bare(value) => value.is_off(),
            EslintSeverity::WithOptions(items) => items.len() == 0 || items[0].is_off(),
        }
    }
}

/// The checks of an ESLint configuration.
pub open spec fn eslint_of(rules: Seq<(String, EslintSeverity)>) -> Seq<CheckView> {
    Seq::new(rules.len(), |i: int| CheckView { name: rules[i].0@, enabled: !rules[i].1.off() })
}

/// The checks of an ESLint configuration, given its rules.
pub fn eslint_checks(rules: &Vec<(String, EslintSeverity)>) -> (checks: Vec<LinterCheckStatus>)
    ensures
        text::views(checks@) == eslint_of(rules@),
{
    let mut checks: Vec<LinterCheckStatus> = Vec::new();
    let mut i: usize = 0;
    while i < rules.len()
        invariant
            0 <= i <= rules@.len(),
            checks@.len() == i,
            forall|j: int| 0 <= j < i ==> (#[trigger] checks@[j])@ == eslint_of(rules@)[j],
        decreases rules.len() - i,
    {
        checks.push(
            LinterCheckStatus { name: rules[i].0.clone(), enabled: !rules[i].1.is_off() },
        );
        i += 1;
    }
    proof {
        assert(text::views(checks@) =~= eslint_of(rules@));
    }
    checks
}

/// The checks of a detekt configuration. One is active unless it says otherwise.
pub open spec fn detekt_of(rules: Seq<(String, Option<bool>)>) -> Seq<CheckView> {
    Seq::new(
        rules.len(),
        |i: int| CheckView { name: rules[i].0@, enabled: rules[i].1 != Some(false) },
    )
}

/// The checks of a detekt configuration, given the rules of its rule sets and
/// whether each says that it is active.
pub fn detekt_checks(rules: &Vec<(String, Option<bool>)>) -> (checks: Vec<LinterCheckStatus>)
    ensures
        text::views(checks@) == detekt_of(rules@),
{
    let mut checks: Vec<LinterCheckStatus> = Vec::new();
    let mut i: usize = 0;
    while i < rules.len()
        invariant
            0 <= i <= rules@.len(),
            checks@.len() == i,
            forall|j: int| 0 <= j < i ==> (#[trigger] checks@[j])@ == detekt_of(rules@)[j],
        decreases rules.len() - i,
    {
        let enabled: bool = match rules[i].1 {
            Some(active) => active,
            None => true,
        };
        checks.push(LinterCheckStatus { name: rules[i].0.clone(), enabled });
        i += 1;
    }
    proof {
        assert(text::views(checks@) =~= detekt_of(rules@));
    }
    checks
}

/// A node of an XML document: the local name of its tag, which is empty where
/// the node is no element, and its attribute `name`.
#[derive(Debug, Clone)]
pub struct XmlRow {
    pub tag: String,
    pub name: Option<String>,
}

/// What an `XmlRow` says.
pub struct XmlRowView {
    pub tag: Seq<char>,
    pub name: Option<Seq<char>>,
}

impl View for XmlRow {
    type V = XmlRowView;

    open spec fn view(&self) -> XmlRowView {
        XmlRowView { tag: self.tag@, name: text::optional(self.name) }
    }
}

/// The nodes of an XML document in document order, or `None` for a text that is
/// no XML document.
pub uninterp spec fn xml_rows(xml: Seq<char>) -> Option<Seq<XmlRowView>>;

/// The nodes that there may be.
pub open spec fn row_views(rows: Option<Vec<XmlRow>>) -> Option<Seq<XmlRowView>> {
    match rows {
        Some(r) => Some(text::views(r@)),
        None => None,
    }
}

/// Calls `roxmltree::Document::parse`, and of each node of
/// `Document::descendants` the name of `Node::tag_name` and
/// `Node::attribute("name")`: the nodes, named `xml_rows`, or `None` where the
/// text does not parse.
#[verifier::external_body]
fn xml_nodes(xml: &str) -> (rows: Option<Vec<XmlRow>>)
    ensures
        row_views(rows) == xml_rows(xml@),
{
    match roxmltree::Document::parse(xml) {
        Ok(doc) => Some(
            doc.descendants().map(
                |n| XmlRow {
                    tag: n.tag_name().name().to_string(),
                    name: n.attribute("name").map(|s| s.to_string()),
                },
            ).collect(),
        ),
        Err(_) => None,
    }
}

/// The node is a check: a module with a name that is not one of the two modules
/// around all others.
pub open spec fn is_check(row: XmlRowView) -> bool {
    row.tag == "module"@ && row.name is Some && row.name->Some_0 != "Checker"@ && row.name->Some_0
        != "TreeWalker"@
}

/// The checks among nodes, all of them on.
pub open spec fn checks_among(rows: Seq<XmlRowView>) -> Seq<CheckView>
    decreases rows.len(),
{
    if rows.len() == 0 {
        Seq::empty()
    } else if is_check(rows.last()) {
        checks_among(rows.drop_last()).push(
            CheckView { name: rows.last().name->Some_0, enabled: true },
        )
    } else {
        checks_among(rows.drop_last())
    }
}

/// The checks among the nodes of a Checkstyle configuration.
pub fn checkstyle_checks(rows: &Vec<XmlRow>) -> (checks: Vec<LinterCheckStatus>)
    ensures
        text::views(checks@) == checks_among(text::views(rows@)),
{
    let ghost all = text::views(rows@);
    let mut checks: Vec<LinterCheckStatus> = Vec::new();
    proof {
        assert(text::views(checks@) =~= Seq::empty());
    }
    let mut i: usize = 0;
    while i < rows.len()
        invariant
            0 <= i <= rows@.len(),
            all == text::views(rows@),
            text::views(checks@) == checks_among(all.take(i as int)),
        decreases rows.len() - i,
    {
        proof {
            assert(all.take(i + 1).drop_last() =~= all.take(i as int));
            assert(all.take(i + 1).last() == rows@[i as int]@);
        }
        if text::same(rows[i].tag.as_str(), "module") {
            if let Some(name) = &rows[i].name {
                if !text::same(name.as_str(), "Checker") && !text::same(
                    name.as_str(),
                    "TreeWalker",
                ) {
                    let check = LinterCheckStatus { name: name.clone(), enabled: true };
                    proof {
                        text::lemma_views_push(checks@, check);
                    }
                    checks.push(check);
                }
            }
        }
        i += 1;
    }
    proof {
        assert(all.take(all.len() as int) =~= all);
    }
    checks
}

/// The checks of a Checkstyle configuration. There are none in a text that is no
/// XML document.
pub fn parse_checkstyle_config(xml: &str) -> (checks: Vec<LinterCheckStatus>)
    ensures
        text::views(checks@) == match xml_rows(xml@) {
            Some(rows) => checks_among(rows),
            None => Seq::empty(),
        },
{
    match xml_nodes(xml) {
        Some(rows) => checkstyle_checks(&rows),
        None => {
            let none: Vec<LinterCheckStatus> = Vec::new();
            proof {
                assert(text::views(none@) =~= Seq::empty());
            }
            none
        },
    }
}

/// A check that is on is never reported as switched off, and one that is off
/// never as uncovered.
pub proof fn reports_respect_the_switch(checks: Seq<CheckView>, rules: Seq<RuleView>)
    ensures
        (forall|i: int| 0 <= i < checks.len() ==> (#[trigger] checks[i]).enabled) ==> disabled_of(
            checks,
            rules,
        ).len() == 0,
        (forall|i: int| 0 <= i < checks.len() ==> !(#[trigger] checks[i]).enabled)
            ==> uncovered_of(checks, rules).len() == 0,
    decreases checks.len(),
{
    if checks.len() > 0 {
        let head = checks.drop_last();
        reports_respect_the_switch(head, rules);
        assert(forall|i: int| 0 <= i < head.len() ==> (#[trigger] head[i]) == checks[i]);
        assert(checks.last() == checks[checks.len() - 1]);
    }
}

/// What a `ConfigGapReport` says.
pub struct ReportView {
    pub tool: Seq<char>,
    pub config_path: Seq<char>,
    pub disabled_matches: Seq<DisabledView>,
    pub uncovered_checks: Seq<Seq<char>>,
}

impl View for ConfigGapReport {
    type V = ReportView;

    open spec fn view(&self) -> ReportView {
        ReportView {
            tool: self.tool@,
            config_path: self.config_path@,
            disabled_matches: text::views(self.disabled_matches@),
            uncovered_checks: text::views(self.uncovered_checks@),
        }
    }
}

/// A configuration file that a repository may have: its path in the repository,
/// and the linter that it is for.
pub open spec fn known_configs() -> Seq<(Seq<char>, Seq<char>)> {
    seq![
        (".golangci.yml"@, "golangci-lint"@),
        (".golangci.yaml"@, "golangci-lint"@),
        (".eslintrc.json"@, "eslint"@),
        (".eslintrc.yml"@, "eslint"@),
        (".eslintrc.yaml"@, "eslint"@),
        ("config/checkstyle/checkstyle.xml"@, "checkstyle"@),
        ("checkstyle.xml"@, "checkstyle"@),
        ("config/detekt/detekt.yml"@, "detekt"@),
        ("detekt.yml"@, "detekt"@),
    ]
}

/// The configuration files that a repository may have, and the linters that they
/// are for.
pub fn config_candidates() -> (configs: Vec<(&'static str, &'static str)>)
    ensures
        configs@.len() == known_configs().len(),
        forall|i: int|
            0 <= i < configs@.len() ==> ((#[trigger] configs@[i]).0@, configs@[i].1@)
                == known_configs()[i],
{
    let mut configs: Vec<(&'static str, &'static str)> = Vec::new();
    configs.push((".golangci.yml", "golangci-lint"));
    configs.push((".golangci.yaml", "golangci-lint"));
    configs.push((".eslintrc.json", "eslint"));
    configs.push((".eslintrc.yml", "eslint"));
    configs.push((".eslintrc.yaml", "eslint"));
    configs.push(("config/checkstyle/checkstyle.xml", "checkstyle"));
    configs.push(("checkstyle.xml", "checkstyle"));
    configs.push(("config/detekt/detekt.yml", "detekt"));
    configs.push(("detekt.yml", "detekt"));
    configs
}

/// A configuration file that was found, with its checks.
#[derive(Debug, Clone)]
pub struct LinterConfig {
    pub tool: String,
    pub config_path: String,
    pub checks: Vec<LinterCheckStatus>,
}

/// The report on one configuration file.
pub open spec fn report_of(config: LinterConfig, rules: Seq<RuleView>) -> ReportView {
    ReportView {
        tool: config.tool@,
        config_path: config.config_path@,
        disabled_matches: disabled_of(text::views(config.checks@), rules),
        uncovered_checks: uncovered_of(text::views(config.checks@), rules),
    }
}

/// The reports on the configuration files that have checks.
pub open spec fn reports_of(configs: Seq<LinterConfig>, rules: Seq<RuleView>) -> Seq<ReportView>
    decreases configs.len(),
{
    if configs.len() == 0 {
        Seq::empty()
    } else if configs.last().checks@.len() == 0 {
        reports_of(configs.drop_last(), rules)
    } else {
        reports_of(configs.drop_last(), rules).push(report_of(configs.last(), rules))
    }
}

/// Compares the configuration files that were found with the shipped rules. A
/// file without checks gets no report.
pub fn compare_linter_configs_to_rule_catalog(
    configs: &Vec<LinterConfig>,
    existing: &[ExistingRuleSummary],
) -> (reports: Vec<ConfigGapReport>)
    ensures
        text::views(reports@) == reports_of(configs@, text::views(existing@)),
{
    let ghost rules = text::views(existing@);
    let mut reports: Vec<ConfigGapReport> = Vec::new();
    proof {
        assert(text::views(reports@) =~= Seq::empty());
    }
    let mut i: usize = 0;
    while i < configs.len()
        invariant
            0 <= i <= configs@.len(),
            rules == text::views(existing@),
            text::views(reports@) == reports_of(configs@.take(i as int), rules),
        decreases configs.len() - i,
    {
        proof {
            assert(configs@.take(i + 1).drop_last() =~= configs@.take(i as int));
            assert(configs@.take(i + 1).last() == configs@[i as int]);
        }
        if configs[i].checks.len() > 0 {
            let report: ConfigGapReport = build_report(
                configs[i].tool.as_str(),
                configs[i].config_path.as_str(),
                configs[i].checks.as_slice(),
                existing,
            );
            proof {
                text::lemma_views_push(reports@, report);
            }
            reports.push(report);
        }
        i += 1;
    }
    proof {
        assert(configs@.take(configs@.len() as int) =~= configs@);
    }
    reports
}

/// A check is covered by the rule whose name is most alike to its own, by 15 in a
/// hundred at least and letters and digits aside; of rules that are as alike, by the
/// last.
pub proof fn the_last_of_the_most_alike_covers(
    check: Seq<char>,
    rules: Seq<RuleView>,
    rule: RuleView,
)
    ensures
        ({
            let s = dedupe::similarity_of(plain(check), plain(rule.id));
            let fits = s.total > 0 && 100 * s.shared >= 15 * s.total;
            let (was, is) = (covering_rule(check, rules), covering_rule(check, rules.push(rule)));
            &&& !fits ==> is == was
            &&& fits && was is None ==> (is matches Some(m) && m.autoreview_rule_id == rule.id
                && m.linter_check == check && m.similarity == s)
            &&& fits ==> (was matches Some(m) ==> {
                &&& s.shared * m.similarity.total >= m.similarity.shared * s.total ==> (is
                    matches Some(n) && n.autoreview_rule_id == rule.id && n.linter_check == check
                    && n.similarity == s)
                &&& s.shared * m.similarity.total < m.similarity.shared * s.total ==> is == was
            })
        }),
        covering_rule(check, Seq::empty()) is None,
{
    assert(rules.push(rule).drop_last() =~= rules);
}

/// Names are compared by their letters, in small ones, and their digits; every other
/// character is a space.
pub proof fn names_are_compared_by_letters_and_digits(s: Seq<char>, i: int)
    requires
        0 <= i < s.len(),
    ensures
        plain(s).len() == s.len(),
        'a' <= s[i] <= 'z' || '0' <= s[i] <= '9' ==> plain(s)[i] == s[i],
        'A' <= s[i] <= 'Z' ==> plain(s)[i] as u32 == s[i] as u32 + 32,
        !('a' <= s[i] <= 'z') && !('0' <= s[i] <= '9') && !('A' <= s[i] <= 'Z') ==> plain(s)[i]
            == ' ',
{
    let c = s[i];
    assert(plain(s)[i] == plain_char(c));
    text::letters_change_with_the_case(c);
}

/// A check that is switched off and covered is reported with its rule; one that is
/// switched on and not covered is reported by name; and no other is.
pub proof fn gaps_are_reported_by_the_switch(
    checks: Seq<CheckView>,
    rules: Seq<RuleView>,
    m: DisabledView,
    name: Seq<char>,
)
    ensures
        disabled_of(checks, rules).contains(m) <==> exists|i: int|
            0 <= i < checks.len() && !(#[trigger] checks[i]).enabled && covering_rule(
                checks[i].name,
                rules,
            ) == Some(m),
        uncovered_of(checks, rules).contains(name) <==> exists|i: int|
            0 <= i < checks.len() && (#[trigger] checks[i]).enabled && checks[i].name == name
                && covering_rule(name, rules) is None,
    decreases checks.len(),
{
    if checks.len() > 0 {
        let rest = checks.drop_last();
        let last = checks.last();
        let n = checks.len() - 1;
        gaps_are_reported_by_the_switch(rest, rules, m, name);
        assert(checks[n] == last);
        assert forall|i: int| 0 <= i < rest.len() implies #[trigger] checks[i] == rest[i] by {}
        if let Some(found) = covering_rule(last.name, rules) {
            lemma_ranked_with_contains(disabled_of(rest, rules), found, m);
        }
        text::lemma_push_contains(uncovered_of(rest, rules), last.name, name);
        if disabled_of(rest, rules).contains(m) {
            let i = choose|i: int|
                0 <= i < rest.len() && !(#[trigger] rest[i]).enabled && covering_rule(
                    rest[i].name,
                    rules,
                ) == Some(m);
            assert(!checks[i].enabled);
        }
        if uncovered_of(rest, rules).contains(name) {
            let i = choose|i: int|
                0 <= i < rest.len() && (#[trigger] rest[i]).enabled && rest[i].name == name
                    && covering_rule(name, rules) is None;
            assert(checks[i].enabled);
        }
        if exists|i: int|
            0 <= i < checks.len() && !(#[trigger] checks[i]).enabled && covering_rule(
                checks[i].name,
                rules,
            ) == Some(m) {
            let i = choose|i: int|
                0 <= i < checks.len() && !(#[trigger] checks[i]).enabled && covering_rule(
                    checks[i].name,
                    rules,
                ) == Some(m);
            if i < n {
                assert(!rest[i].enabled);
            }
        }
        if exists|i: int|
            0 <= i < checks.len() && (#[trigger] checks[i]).enabled && checks[i].name == name
                && covering_rule(name, rules) is None {
            let i = choose|i: int|
                0 <= i < checks.len() && (#[trigger] checks[i]).enabled && checks[i].name == name
                    && covering_rule(name, rules) is None;
            if i < n {
                assert(rest[i].enabled);
            }
        }
    }
}

proof fn lemma_ranked_with_contains(list: Seq<DisabledView>, x: DisabledView, m: DisabledView)
    ensures
        ranked_with(list, x).contains(m) <==> list.contains(m) || x == m,
    decreases list.len(),
{
    if list.len() == 0 || list[0].similarity.below(x.similarity) {
        text::lemma_joined_contains(seq![x], list, m);
        assert(seq![x][0] == x);
    } else {
        lemma_ranked_with_contains(list.drop_first(), x, m);
        text::lemma_joined_contains(seq![list[0]], ranked_with(list.drop_first(), x), m);
        text::lemma_joined_contains(seq![list[0]], list.drop_first(), m);
        assert(seq![list[0]] + list.drop_first() =~= list);
        assert(seq![list[0]][0] == list[0]);
    }
}

/// Of two covered checks the one that is more alike to its rule comes first.
pub proof fn the_more_alike_comes_first(list: Seq<DisabledView>, m: DisabledView)
    requires
        list.len() > 0,
    ensures
        list[0].similarity.below(m.similarity) ==> ranked_with(list, m) == seq![m] + list,
        !list[0].similarity.below(m.similarity) ==> ranked_with(list, m)[0] == list[0],
{
}

/// What switches a check off: `off` or 0, alone or in front of its options, and a
/// list without anything; a check of the other tool is on unless it says `false`.
pub proof fn checks_are_switched_off_by_these(
    rules: Seq<(String, EslintSeverity)>,
    detekt: Seq<(String, Option<bool>)>,
    i: int,
)
    ensures
        0 <= i < rules.len() ==> eslint_of(rules)[i].name == rules[i].0@ && (eslint_of(
            rules,
        )[i].enabled <==> match rules[i].1 {
            EslintSeverity::Bare(EslintValue::Text(s)) => s@ != "off"@,
            EslintSeverity::Bare(EslintValue::Number(n)) => n != 0,
            EslintSeverity::Bare(EslintValue::Other) => true,
            EslintSeverity::WithOptions(items) => items@.len() > 0 && match items@[0] {
                EslintValue::Text(s) => s@ != "off"@,
                EslintValue::Number(n) => n != 0,
                EslintValue::Other => true,
            },
        }),
        0 <= i < detekt.len() ==> detekt_of(detekt)[i].name == detekt[i].0@ && (detekt_of(
            detekt,
        )[i].enabled <==> (detekt[i].1 matches Some(on) ==> on)),
{
    if 0 <= i < detekt.len() {
        let d = detekt[i];
        assert(detekt_of(detekt)[i].enabled == (d.1 != Some(false)));
        if let Some(on) = d.1 {
            assert((d.1 != Some(false)) == on);
        }
    }
}

/// The checks of a document are its modules that have a name, but for the two that
/// only hold others; all of them are on.
pub proof fn named_modules_are_checks(rows: Seq<XmlRowView>)
    ensures
        checks_among(rows) == rows.filter(
            |r: XmlRowView|
                r.tag == "module"@ && (r.name matches Some(n) && n != "Checker"@ && n
                    != "TreeWalker"@),
        ).map_values(|r: XmlRowView| CheckView { name: r.name->0, enabled: true }),
    decreases rows.len(),
{
    reveal(Seq::filter);
    let wanted = |r: XmlRowView|
        r.tag == "module"@ && (r.name matches Some(n) && n != "Checker"@ && n != "TreeWalker"@);
    let check = |r: XmlRowView| CheckView { name: r.name->0, enabled: true };
    if rows.len() == 0 {
        assert(checks_among(rows) =~= rows.filter(wanted).map_values(check));
    } else {
        let rest = rows.drop_last();
        named_modules_are_checks(rest);
        if wanted(rows.last()) {
            assert(rows.filter(wanted).map_values(check) =~= rest.filter(wanted).map_values(
                check,
            ).push(check(rows.last())));
        }
    }
}

/// A file with checks gets a report of its own, in order; one without gets none.
pub proof fn files_with_checks_are_reported(
    configs: Seq<LinterConfig>,
    config: LinterConfig,
    rules: Seq<RuleView>,
)
    ensures
        ({
            let (was, is) = (reports_of(configs, rules), reports_of(configs.push(config), rules));
            &&& config.checks@.len() == 0 ==> is == was
            &&& config.checks@.len() > 0 ==> is.len() == was.len() + 1 && is.drop_last() == was
                && is.last().tool == config.tool@ && is.last().config_path == config.config_path@
                && is.last().disabled_matches == disabled_of(text::views(config.checks@), rules)
                && is.last().uncovered_checks == uncovered_of(text::views(config.checks@), rules)
        }),
        reports_of(Seq::empty(), rules).len() == 0,
{
    assert(configs.push(config).drop_last() =~= configs);
    let was = reports_of(configs, rules);
    assert(was.push(report_of(config, rules)).drop_last() =~= was);
}

/// Checks that are listed are on, and those that are listed as off are off, in order.
pub proof fn listed_checks_are_on_or_off(names: Seq<Seq<char>>, enabled: bool, i: int)
    requires
        0 <= i < names.len(),
    ensures
        with_status(names, enabled).len() == names.len(),
        with_status(names, enabled)[i].name == names[i],
        with_status(names, enabled)[i].enabled == enabled,
{
}

/// The places where the linters of a project are set up, in the order in which they
/// are looked for.
pub proof fn linters_are_looked_for_in_these_places()
    ensures
        known_configs().len() == 9,
        known_configs()[0] == (".golangci.yml"@, "golangci-lint"@),
        known_configs()[1] == (".golangci.yaml"@, "golangci-lint"@),
        known_configs()[2] == (".eslintrc.json"@, "eslint"@),
        known_configs()[3] == (".eslintrc.yml"@, "eslint"@),
        known_configs()[4] == (".eslintrc.yaml"@, "eslint"@),
        known_configs()[5] == ("config/checkstyle/checkstyle.xml"@, "checkstyle"@),
        known_configs()[6] == ("checkstyle.xml"@, "checkstyle"@),
        known_configs()[7] == ("config/detekt/detekt.yml"@, "detekt"@),
        known_configs()[8] == ("detekt.yml"@, "detekt"@),
{
}

} // verus!
