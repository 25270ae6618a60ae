//! The event log: one compact record for each finding and each piece of
//! feedback, which is never changed once it is written.

use vstd::prelude::*;

use crate::paths;
use crate::schema::{Finding, ReviewReport};
use crate::storage::history_store::FindingLookup;
use crate::text;

verus! {

/// A finding, or what a human says of one.
#[derive(Debug, Clone, PartialEq, Eq)]
pub struct EventRecord {
    pub finding_fingerprint: String,
    pub category: String,
    pub rule_id_or_aspect: String,
    pub severity: String,
    pub feedback: Option<String>,
    pub run_id: String,
    pub host: String,
    pub timestamp: String,
}

/// What an `EventRecord` says.
pub struct EventView {
    pub finding_fingerprint: Seq<char>,
    pub category: Seq<char>,
    pub rule_id_or_aspect: Seq<char>,
    pub severity: Seq<char>,
    pub feedback: Option<Seq<char>>,
    pub run_id: Seq<char>,
    pub host: Seq<char>,
    pub timestamp: Seq<char>,
}

impl View for EventRecord {
    type V = EventView;

    open spec fn view(&self) -> EventView {
        EventView {
            finding_fingerprint: self.finding_fingerprint@,
            category: self.category@,
            rule_id_or_aspect: self.rule_id_or_aspect@,
            severity: self.severity@,
            feedback: text::optional(self.feedback),
            run_id: self.run_id@,
            host: self.host@,
            timestamp: self.timestamp@,
        }
    }
}

/// Who made a finding: its rule, else its aspect, else its tool.
pub open spec fn maker_of(finding: Finding) -> Seq<char> {
    match finding.source.rule_id {
        Some(rule) => rule@,
        None => match finding.source.aspect {
            Some(aspect) => aspect@,
            None => finding.source.tool@,
        },
    }
}

fn maker(finding: &Finding) -> (name: String)
    ensures
        name@ == maker_of(*finding),
{
    match &finding.source.rule_id {
        Some(rule) => rule.clone(),
        None => match &finding.source.aspect {
            Some(aspect) => aspect.clone(),
            None => finding.source.tool.clone(),
        },
    }
}

/// The event of a finding.
pub open spec fn event_of(
    finding: Finding,
    run_id: Seq<char>,
    host: Seq<char>,
    timestamp: Seq<char>,
) -> EventView {
    EventView {
        finding_fingerprint: finding.fingerprint@,
        category: finding.category@,
        rule_id_or_aspect: maker_of(finding),
        severity: finding.severity.label(),
        feedback: None,
        run_id,
        host,
        timestamp,
    }
}

/// The events of a review, one for each finding, without feedback.
pub fn events_from_report(report: &ReviewReport, host: &str) -> (events: Vec<EventRecord>)
    ensures
        text::views(events@) == Seq::new(
            report.findings@.len(),
            |i: int| event_of(report.findings@[i], report.run_id@, host@, report.created_at@),
        ),
{
    let mut events: Vec<EventRecord> = Vec::new();
    let mut i: usize = 0;
    while i < report.findings.len()
        invariant
            0 <= i <= report.findings@.len(),
            events@.len() == i,
            forall|j: int|
                0 <= j < i ==> (#[trigger] events@[j])@ == event_of(
                    report.findings@[j],
                    report.run_id@,
                    host@,
                    report.created_at@,
                ),
        decreases report.findings.len() - i,
    {
        let finding: &Finding = &report.findings[i];
        events.push(
            EventRecord {
                finding_fingerprint: finding.fingerprint.clone(),
                category: finding.category.clone(),
                rule_id_or_aspect: maker(finding),
                severity: finding.severity.as_str().to_owned(),
                feedback: None,
                run_id: report.run_id.clone(),
                host: host.to_owned(),
                timestamp: report.created_at.clone(),
            },
        );
        i += 1;
    }
    proof {
        assert(text::views(events@) =~= Seq::new(
            report.findings@.len(),
            |i: int| event_of(report.findings@[i], report.run_id@, host@, report.created_at@),
        ));
    }
    events
}

/// The event of a piece of feedback: a new one, beside that of the finding.
pub fn feedback_event(
    lookup: &FindingLookup,
    verdict: &str,
    run_id: &str,
    host: &str,
    timestamp: &str,
) -> (event: EventRecord)
    ensures
        event@ == (EventView {
            finding_fingerprint: lookup.fingerprint@,
            category: lookup.category@,
            rule_id_or_aspect: lookup.rule_id_or_tool@,
            severity: lookup.severity@,
            feedback: Some(verdict@),
            run_id: run_id@,
            host: host@,
            timestamp: timestamp@,
        }),
{
    EventRecord {
        finding_fingerprint: lookup.fingerprint.clone(),
        category: lookup.category.clone(),
        rule_id_or_aspect: lookup.rule_id_or_tool.clone(),
        severity: lookup.severity.clone(),
        feedback: Some(verdict.to_owned()),
        run_id: run_id.to_owned(),
        host: host.to_owned(),
        timestamp: timestamp.to_owned(),
    }
}

/// The directory of the event files.
pub fn events_dir(history_dir: &str) -> (dir: String)
    ensures
        dir@ == paths::joined_path(history_dir@, "events"@),
{
    paths::join(history_dir, "events")
}

/// The file that a host writes the events of a day to.
pub open spec fn log_file(history_dir: Seq<char>, date: Seq<char>, host: Seq<char>) -> Seq<char> {
    paths::joined_path(
        paths::joined_path(history_dir, "events"@),
        date + "-"@ + host + ".jsonl"@,
    )
}

/// The file that a host writes the events of a day to.
pub fn event_log_path(history_dir: &str, date: &str, host: &str) -> (path: String)
    ensures
        path@ == log_file(history_dir@, date@, host@),
{
    let dir: String = events_dir(history_dir);
    let name: String = text::concat3(date, "-", host);
    let file: String = text::concat2(name.as_str(), ".jsonl");
    paths::join(dir.as_str(), file.as_str())
}

/// No two hosts write the events of a day to the same file.
pub proof fn hosts_never_share_a_file(
    history_dir: Seq<char>,
    date: Seq<char>,
    host: Seq<char>,
    other: Seq<char>,
)
    requires
        host != other,
    ensures
        log_file(history_dir, date, host) != log_file(history_dir, date, other),
{
    reveal_strlit("-");
    let dir = paths::joined_path(history_dir, "events"@);
    let front = date + "-"@;
    let a = front + host + ".jsonl"@;
    let b = front + other + ".jsonl"@;
    assert(a[0] == front[0]);
    assert(b[0] == front[0]);
    if paths::joined_path(dir, a) == paths::joined_path(dir, b) {
        let lead = if a[0] == '/' {
            Seq::empty()
        } else if dir.len() == 0 || dir.last() == '/' {
            dir
        } else {
            dir + "/"@
        };
        assert(paths::joined_path(dir, a) =~= lead + a);
        assert(paths::joined_path(dir, b) =~= lead + b);
        assert(a =~= (lead + a).skip(lead.len() as int));
        assert(b =~= (lead + b).skip(lead.len() as int));
        assert(a.len() == b.len());
        assert(host =~= a.subrange(front.len() as int, (front.len() + host.len()) as int));
        assert(other =~= b.subrange(front.len() as int, (front.len() + other.len()) as int));
    }
}

/// An event keeps what was found, and who found it: its rule, the aspect where no
/// rule did, and the tool where there is neither. Nothing is said of it yet.
pub proof fn events_keep_their_finding(
    finding: Finding,
    run_id: Seq<char>,
    host: Seq<char>,
    timestamp: Seq<char>,
)
    ensures
        ({
            let e = event_of(finding, run_id, host, timestamp);
            &&& e.finding_fingerprint == finding.fingerprint@ && e.category == finding.category@
            &&& e.run_id == run_id && e.host == host && e.timestamp == timestamp
            &&& e.feedback is None
            &&& finding.source.rule_id matches Some(r) ==> e.rule_id_or_aspect == r@
            &&& finding.source.rule_id is None ==> (finding.source.aspect matches Some(a)
                ==> e.rule_id_or_aspect == a@)
            &&& finding.source.rule_id is None && finding.source.aspect is None
                ==> e.rule_id_or_aspect == finding.source.tool@
            &&& finding.severity is Blocker ==> e.severity == "blocker"@
            &&& finding.severity is High ==> e.severity == "high"@
            &&& finding.severity is Medium ==> e.severity == "medium"@
            &&& finding.severity is Low ==> e.severity == "low"@
            &&& finding.severity is Info ==> e.severity == "info"@
        }),
{
}

} // verus!
