//! What becomes of rules: how often they fire, and how often an agent finds the
//! same.

use vstd::prelude::*;

use crate::rule_factory::shadow::Agreement;
use crate::storage::history_store::{
    FiringView, HistoryStore, HistoryView, RuleFiringRow, RuleFiringView, RuleRow, RuleRowView,
    RuleState, RuleStateView, ShadowFiringRow,
};
use crate::text;

verus! {

/// What became of a rule so far, if it is followed.
pub open spec fn state_of(rules: Seq<RuleRowView>, id: Seq<char>) -> Option<RuleStateView>
    decreases rules.len(),
{
    if rules.len() == 0 {
        None
    } else {
        match state_of(rules.drop_last(), id) {
            Some(state) => Some(state),
            None => if rules.last().id == id {
                Some(rules.last().state)
            } else {
                None
            },
        }
    }
}

/// A rule that has not fired yet.
pub open spec fn fresh_rule(
    id: Seq<char>,
    status: Seq<char>,
    valid_from: Seq<char>,
) -> RuleRowView {
    RuleRowView {
        id,
        state: RuleStateView {
            status,
            firings: 0,
            agent_agreed: 0,
            agent_disagreed: 0,
            valid_from,
            invalid_at: None,
        },
    }
}

/// The rules that are followed, with one more unless it is among them.
pub open spec fn tracking(
    rules: Seq<RuleRowView>,
    id: Seq<char>,
    status: Seq<char>,
    valid_from: Seq<char>,
) -> Seq<RuleRowView> {
    if state_of(rules, id) is Some {
        rules
    } else {
        rules.push(fresh_rule(id, status, valid_from))
    }
}

/// One more, or the largest `u32`.
pub open spec fn one_more(n: u32) -> u32 {
    if n < u32::MAX {
        (n + 1) as u32
    } else {
        n
    }
}

fn count_up(n: u32) -> (m: u32)
    ensures
        m == one_more(n),
{
    if n < u32::MAX {
        n + 1
    } else {
        n
    }
}

/// The state of a rule after it fired once more.
pub open spec fn fired(state: RuleStateView, agreement: Seq<char>) -> RuleStateView {
    RuleStateView {
        firings: one_more(state.firings),
        agent_agreed: if agreement == Agreement::Agreed.label() {
            one_more(state.agent_agreed)
        } else {
            state.agent_agreed
        },
        agent_disagreed: if agreement == Agreement::Disagreed.label() {
            one_more(state.agent_disagreed)
        } else {
            state.agent_disagreed
        },
        ..state
    }
}

/// The rules after one of them fired once more.
pub open spec fn with_firing(
    rules: Seq<RuleRowView>,
    id: Seq<char>,
    agreement: Seq<char>,
) -> Seq<RuleRowView> {
    Seq::new(
        rules.len(),
        |i: int|
            if rules[i].id == id {
                RuleRowView { id: rules[i].id, state: fired(rules[i].state, agreement) }
            } else {
                rules[i]
            },
    )
}

/// The rules after the status of one of them was set.
pub open spec fn with_status(
    rules: Seq<RuleRowView>,
    id: Seq<char>,
    status: Seq<char>,
) -> Seq<RuleRowView> {
    Seq::new(
        rules.len(),
        |i: int|
            if rules[i].id == id {
                RuleRowView {
                    id: rules[i].id,
                    state: RuleStateView { status, ..rules[i].state },
                }
            } else {
                rules[i]
            },
    )
}

/// The rules after one of them was set aside.
pub open spec fn with_end(
    rules: Seq<RuleRowView>,
    id: Seq<char>,
    invalid_at: Seq<char>,
) -> Seq<RuleRowView> {
    Seq::new(
        rules.len(),
        |i: int|
            if rules[i].id == id {
                RuleRowView {
                    id: rules[i].id,
                    state: RuleStateView { invalid_at: Some(invalid_at), ..rules[i].state },
                }
            } else {
                rules[i]
            },
    )
}

/// The runs in which a rule fired.
pub open spec fn runs_of(firings: Seq<RuleFiringView>, rule_id: Seq<char>) -> Seq<Seq<char>>
    decreases firings.len(),
{
    if firings.len() == 0 {
        Seq::empty()
    } else if firings.last().rule_id == rule_id {
        runs_of(firings.drop_last(), rule_id).push(firings.last().firing.run_id)
    } else {
        runs_of(firings.drop_last(), rule_id)
    }
}

/// A list with a firing that was recorded behind all of them, in front of the
/// first that is not later.
pub open spec fn recent_with(list: Seq<FiringView>, f: FiringView) -> Seq<FiringView>
    decreases list.len(),
{
    if list.len() == 0 || !text::precedes(f.created_at, list[0].created_at) {
        seq![f] + list
    } else {
        seq![list[0]] + recent_with(list.drop_first(), f)
    }
}

/// The firings of a rule, the most recent first, and of the same date the one
/// that was recorded last.
pub open spec fn recent(firings: Seq<RuleFiringView>, rule_id: Seq<char>) -> Seq<FiringView>
    decreases firings.len(),
{
    if firings.len() == 0 {
        Seq::empty()
    } else if firings.last().rule_id == rule_id {
        recent_with(recent(firings.drop_last(), rule_id), firings.last().firing)
    } else {
        recent(firings.drop_last(), rule_id)
    }
}

proof fn lemma_recent_with(list: Seq<FiringView>, f: FiringView, k: int)
    requires
        0 <= k <= list.len(),
        forall|j: int|
            0 <= j < k ==> text::precedes(f.created_at, (#[trigger] list[j]).created_at),
        k < list.len() ==> !text::precedes(f.created_at, list[k].created_at),
    ensures
        recent_with(list, f) == list.insert(k, f),
    decreases list.len(),
{
    if list.len() == 0 || !text::precedes(f.created_at, list[0].created_at) {
        assert(recent_with(list, f) =~= list.insert(0, f));
    } else {
        let rest = list.drop_first();
        assert forall|j: int| 0 <= j < k - 1 implies text::precedes(
            f.created_at,
            (#[trigger] rest[j]).created_at,
        ) by {
            assert(rest[j] == list[j + 1]);
        }
        lemma_recent_with(rest, f, k - 1);
        assert(recent_with(list, f) =~= list.insert(k, f));
    }
}

fn insert_recent(list: &mut Vec<ShadowFiringRow>, f: ShadowFiringRow)
    ensures
        text::views(final(list)@) == recent_with(text::views(old(list)@), f@),
{
    let ghost before = text::views(list@);
    let mut k: usize = 0;
    while k < list.len() && text::before(f.created_at.as_str(), list[k].created_at.as_str())
        invariant
            0 <= k <= list@.len(),
            before == text::views(list@),
            forall|j: int|
                0 <= j < k ==> text::precedes(f@.created_at, (#[trigger] before[j]).created_at),
        decreases list.len() - k,
    {
        k += 1;
    }
    proof {
        lemma_recent_with(before, f@, k as int);
    }
    list.insert(k, f);
    proof {
        assert(text::views(list@) =~= before.insert(k as int, f@));
    }
}

impl HistoryStore {
    fn find_rule(&self, rule_id: &str) -> (found: Option<&RuleState>)
        ensures
            match found {
                Some(state) => state_of(self@.rules, rule_id@) == Some(state@),
                None => state_of(self@.rules, rule_id@) is None,
            },
    {
        let ghost all = self@.rules;
        let mut found: Option<&RuleState> = None;
        let mut i: usize = 0;
        while i < self.rules.len()
            invariant
                0 <= i <= self.rules@.len(),
                all == self@.rules,
                match found {
                    Some(state) => state_of(all.take(i as int), rule_id@) == Some(state@),
                    None => state_of(all.take(i as int), rule_id@) is None,
                },
            decreases self.rules.len() - i,
        {
            proof {
                assert(all.take(i + 1).drop_last() =~= all.take(i as int));
                assert(all.take(i + 1).last() == self.rules@[i as int]@);
            }
            if found.is_none() && text::same(self.rules[i].id.as_str(), rule_id) {
                found = Some(&self.rules[i].state);
            }
            i += 1;
        }
        proof {
            assert(all.take(all.len() as int) =~= all);
        }
        found
    }

    /// Follows a rule from now on. One that is followed already stays as it is.
    pub fn ensure_rule_tracked(&mut self, rule_id: &str, initial_status: &str, valid_from: &str)
        ensures
            final(self)@ == (HistoryView {
                rules: tracking(old(self)@.rules, rule_id@, initial_status@, valid_from@),
                ..old(self)@
            }),
            old(self)@.well_formed() ==> final(self)@.well_formed(),
    {
        if self.find_rule(rule_id).is_none() {
            let row = RuleRow {
                id: rule_id.to_owned(),
                state: RuleState {
                    status: initial_status.to_owned(),
                    firings: 0,
                    agent_agreed: 0,
                    agent_disagreed: 0,
                    valid_from: valid_from.to_owned(),
                    invalid_at: None,
                },
            };
            proof {
                text::lemma_views_push(self.rules@, row);
                lemma_untracked(self@.rules, rule_id@);
            }
            self.rules.push(row);
        }
    }

    fn count_firing(&mut self, rule_id: &str, agreement: &str)
        ensures
            final(self)@ == (HistoryView {
                rules: with_firing(old(self)@.rules, rule_id@, agreement@),
                ..old(self)@
            }),
    {
        let ghost before = self@;
        let ghost after = with_firing(before.rules, rule_id@, agreement@);
        let agreed: bool = text::same(agreement, Agreement::Agreed.as_str());
        let disagreed: bool = text::same(agreement, Agreement::Disagreed.as_str());
        let mut i: usize = 0;
        while i < self.rules.len()
            invariant
                0 <= i <= self.rules@.len(),
                self.rules@.len() == before.rules.len(),
                agreed == (agreement@ == Agreement::Agreed.label()),
                disagreed == (agreement@ == Agreement::Disagreed.label()),
                after == with_firing(before.rules, rule_id@, agreement@),
                self@ == (HistoryView { rules: self@.rules, ..before }),
                forall|j: int| 0 <= j < i ==> (#[trigger] self.rules@[j])@ == after[j],
                forall|j: int|
                    i <= j < self.rules@.len() ==> (#[trigger] self.rules@[j])@
                        == before.rules[j],
            decreases self.rules.len() - i,
        {
            let row: &RuleRow = &self.rules[i];
            if text::same(row.id.as_str(), rule_id) {
                let changed = RuleRow {
                    id: row.id.clone(),
                    state: RuleState {
                        status: row.state.status.clone(),
                        firings: count_up(row.state.firings),
                        agent_agreed: if agreed {
                            count_up(row.state.agent_agreed)
                        } else {
                            row.state.agent_agreed
                        },
                        agent_disagreed: if disagreed {
                            count_up(row.state.agent_disagreed)
                        } else {
                            row.state.agent_disagreed
                        },
                        valid_from: row.state.valid_from.clone(),
                        invalid_at: match &row.state.invalid_at {
                            Some(date) => Some(date.clone()),
                            None => None,
                        },
                    },
                };
                self.rules.set(i, changed);
            }
            i += 1;
        }
        proof {
            assert(self@.rules =~= after);
        }
    }

    /// Adds a firing of a rule, and counts it where the rule is followed.
    pub fn record_shadow_firing(
        &mut self,
        rule_id: &str,
        fingerprint: &str,
        run_id: &str,
        location_path: &str,
        location_line: u32,
        agreement: &str,
        created_at: &str,
    )
        ensures
            final(self)@ == (HistoryView {
                firings: old(self)@.firings.push(
                    RuleFiringView {
                        rule_id: rule_id@,
                        firing: FiringView {
                            fingerprint: fingerprint@,
                            run_id: run_id@,
                            location_path: location_path@,
                            location_line,
                            agreement: agreement@,
                            created_at: created_at@,
                        },
                    },
                ),
                rules: with_firing(old(self)@.rules, rule_id@, agreement@),
                ..old(self)@
            }),
            old(self)@.well_formed() ==> final(self)@.well_formed(),
    {
        let row = RuleFiringRow {
            rule_id: rule_id.to_owned(),
            firing: ShadowFiringRow {
                fingerprint: fingerprint.to_owned(),
                run_id: run_id.to_owned(),
                location_path: location_path.to_owned(),
                location_line,
                agreement: agreement.to_owned(),
                created_at: created_at.to_owned(),
            },
        };
        proof {
            text::lemma_views_push(self.firings@, row);
        }
        self.firings.push(row);
        self.count_firing(rule_id, agreement);
    }

    /// What became of a rule so far, if it is followed.
    pub fn rule_state(&self, rule_id: &str) -> (state: Option<RuleState>)
        ensures
            match state {
                Some(s) => state_of(self@.rules, rule_id@) == Some(s@),
                None => state_of(self@.rules, rule_id@) is None,
            },
    {
        match self.find_rule(rule_id) {
            Some(state) => Some(
                RuleState {
                    status: state.status.clone(),
                    firings: state.firings,
                    agent_agreed: state.agent_agreed,
                    agent_disagreed: state.agent_disagreed,
                    valid_from: state.valid_from.clone(),
                    invalid_at: match &state.invalid_at {
                        Some(date) => Some(date.clone()),
                        None => None,
                    },
                },
            ),
            None => None,
        }
    }

    /// In how many runs a rule fired. Many firings in one run are not as telling
    /// as as many in as many runs.
    pub fn distinct_shadow_run_count(&self, rule_id: &str) -> (n: usize)
        ensures
            n == text::distinct_of(runs_of(self@.firings, rule_id@)).len(),
    {
        let ghost all = self@.firings;
        let mut runs: Vec<String> = Vec::new();
        proof {
            assert(text::views(runs@) =~= Seq::empty());
        }
        let mut i: usize = 0;
        while i < self.firings.len()
            invariant
                0 <= i <= self.firings@.len(),
                all == self@.firings,
                text::views(runs@) == runs_of(all.take(i as int), rule_id@),
            decreases self.firings.len() - i,
        {
            let row: &RuleFiringRow = &self.firings[i];
            proof {
                assert(all.take(i + 1).drop_last() =~= all.take(i as int));
                assert(all.take(i + 1).last() == row@);
            }
            if text::same(row.rule_id.as_str(), rule_id) {
                let run: String = row.firing.run_id.clone();
                proof {
                    text::lemma_views_push(runs@, run);
                }
                runs.push(run);
            }
            i += 1;
        }
        proof {
            assert(all.take(all.len() as int) =~= all);
        }
        let found: Vec<String> = text::distinct(&runs);
        proof {
            assert(text::views(found@).len() == found@.len());
        }
        found.len()
    }

    /// The firings of a rule, the most recent first, `limit` at most.
    pub fn recent_shadow_firings(&self, rule_id: &str, limit: u32) -> (rows: Vec<ShadowFiringRow>)
        ensures
            text::views(rows@) == recent(self@.firings, rule_id@).take(
                if limit <= recent(self@.firings, rule_id@).len() {
                    limit as int
                } else {
                    recent(self@.firings, rule_id@).len() as int
                },
            ),
    {
        let ghost all = self@.firings;
        let mut rows: Vec<ShadowFiringRow> = Vec::new();
        proof {
            assert(text::views(rows@) =~= Seq::empty());
        }
        let mut i: usize = 0;
        while i < self.firings.len()
            invariant
                0 <= i <= self.firings@.len(),
                all == self@.firings,
                text::views(rows@) == recent(all.take(i as int), rule_id@),
            decreases self.firings.len() - i,
        {
            let row: &RuleFiringRow = &self.firings[i];
            proof {
                assert(all.take(i + 1).drop_last() =~= all.take(i as int));
                assert(all.take(i + 1).last() == row@);
            }
            if text::same(row.rule_id.as_str(), rule_id) {
                insert_recent(&mut rows, row.firing.dup());
            }
            i += 1;
        }
        proof {
            assert(all.take(all.len() as int) =~= all);
        }
        let ghost found = text::views(rows@);
        if rows.len() as u64 > limit as u64 {
            rows.truncate(limit as usize);
            proof {
                assert(text::views(rows@) =~= found.take(limit as int));
            }
        } else {
            proof {
                assert(found.take(found.len() as int) =~= found);
            }
        }
        rows
    }

    /// Sets the status of a rule, and nothing else of it.
    pub fn set_rule_status(&mut self, rule_id: &str, status: &str)
        ensures
            final(self)@ == (HistoryView {
                rules: with_status(old(self)@.rules, rule_id@, status@),
                ..old(self)@
            }),
            old(self)@.well_formed() ==> final(self)@.well_formed(),
    {
        let ghost before = self@;
        let ghost after = with_status(before.rules, rule_id@, status@);
        let mut i: usize = 0;
        while i < self.rules.len()
            invariant
                0 <= i <= self.rules@.len(),
                self.rules@.len() == before.rules.len(),
                after == with_status(before.rules, rule_id@, status@),
                self@ == (HistoryView { rules: self@.rules, ..before }),
                forall|j: int| 0 <= j < i ==> (#[trigger] self.rules@[j])@ == after[j],
                forall|j: int|
                    i <= j < self.rules@.len() ==> (#[trigger] self.rules@[j])@
                        == before.rules[j],
            decreases self.rules.len() - i,
        {
            let row: &RuleRow = &self.rules[i];
            if text::same(row.id.as_str(), rule_id) {
                let changed = RuleRow {
                    id: row.id.clone(),
                    state: RuleState {
                        status: status.to_owned(),
                        firings: row.state.firings,
                        agent_agreed: row.state.agent_agreed,
                        agent_disagreed: row.state.agent_disagreed,
                        valid_from: row.state.valid_from.clone(),
                        invalid_at: match &row.state.invalid_at {
                            Some(date) => Some(date.clone()),
                            None => None,
                        },
                    },
                };
                self.rules.set(i, changed);
            }
            i += 1;
        }
        proof {
            assert(self@.rules =~= after);
        }
    }

    /// Sets a rule aside, and changes nothing else of it.
    pub fn invalidate_rule(&mut self, rule_id: &str, invalid_at: &str)
        ensures
            final(self)@ == (HistoryView {
                rules: with_end(old(self)@.rules, rule_id@, invalid_at@),
                ..old(self)@
            }),
            old(self)@.well_formed() ==> final(self)@.well_formed(),
    {
        let ghost before = self@;
        let ghost after = with_end(before.rules, rule_id@, invalid_at@);
        let mut i: usize = 0;
        while i < self.rules.len()
            invariant
                0 <= i <= self.rules@.len(),
                self.rules@.len() == before.rules.len(),
                after == with_end(before.rules, rule_id@, invalid_at@),
                self@ == (HistoryView { rules: self@.rules, ..before }),
                forall|j: int| 0 <= j < i ==> (#[trigger] self.rules@[j])@ == after[j],
                forall|j: int|
                    i <= j < self.rules@.len() ==> (#[trigger] self.rules@[j])@
                        == before.rules[j],
            decreases self.rules.len() - i,
        {
            let row: &RuleRow = &self.rules[i];
            if text::same(row.id.as_str(), rule_id) {
                let changed = RuleRow {
                    id: row.id.clone(),
                    state: RuleState {
                        status: row.state.status.clone(),
                        firings: row.state.firings,
                        agent_agreed: row.state.agent_agreed,
                        agent_disagreed: row.state.agent_disagreed,
                        valid_from: row.state.valid_from.clone(),
                        invalid_at: Some(invalid_at.to_owned()),
                    },
                };
                self.rules.set(i, changed);
            }
            i += 1;
        }
        proof {
            assert(self@.rules =~= after);
        }
    }
}

proof fn lemma_untracked(rules: Seq<RuleRowView>, id: Seq<char>)
    requires
        state_of(rules, id) is None,
    ensures
        forall|i: int| 0 <= i < rules.len() ==> (#[trigger] rules[i]).id != id,
    decreases rules.len(),
{
    if rules.len() > 0 {
        lemma_untracked(rules.drop_last(), id);
        assert forall|i: int| 0 <= i < rules.len() implies (#[trigger] rules[i]).id != id by {
            if i < rules.len() - 1 {
                assert(rules.drop_last()[i] == rules[i]);
            }
        }
    }
}

/// To follow a rule twice is to follow it once: its state stays as it is.
pub proof fn tracking_is_idempotent(
    rules: Seq<RuleRowView>,
    id: Seq<char>,
    status: Seq<char>,
    valid_from: Seq<char>,
    other_status: Seq<char>,
    other_valid_from: Seq<char>,
)
    ensures
        tracking(tracking(rules, id, status, valid_from), id, other_status, other_valid_from)
            == tracking(rules, id, status, valid_from),
        state_of(tracking(rules, id, status, valid_from), id) is Some,
        state_of(rules, id) is Some ==> state_of(tracking(rules, id, status, valid_from), id)
            == state_of(rules, id),
{
    if state_of(rules, id) is None {
        let after = rules.push(fresh_rule(id, status, valid_from));
        assert(after.drop_last() =~= rules);
    }
}

/// A firing is counted once for the rule that fired, and for no other rule.
pub proof fn a_firing_counts_once(
    rules: Seq<RuleRowView>,
    id: Seq<char>,
    agreement: Seq<char>,
    other: Seq<char>,
)
    ensures
        state_of(with_firing(rules, id, agreement), other) == (match state_of(rules, other) {
            Some(state) => Some(
                if other == id {
                    fired(state, agreement)
                } else {
                    state
                },
            ),
            None => None,
        }),
    decreases rules.len(),
{
    if rules.len() > 0 {
        a_firing_counts_once(rules.drop_last(), id, agreement, other);
        assert(with_firing(rules, id, agreement).drop_last() =~= with_firing(
            rules.drop_last(),
            id,
            agreement,
        ));
    }
}

/// A change of status keeps the counts of every rule, and the status of every
/// other rule.
pub proof fn a_status_change_keeps_the_counts(
    rules: Seq<RuleRowView>,
    id: Seq<char>,
    status: Seq<char>,
    other: Seq<char>,
)
    ensures
        state_of(with_status(rules, id, status), other) == (match state_of(rules, other) {
            Some(state) => Some(
                if other == id {
                    RuleStateView { status, ..state }
                } else {
                    state
                },
            ),
            None => None,
        }),
    decreases rules.len(),
{
    if rules.len() > 0 {
        a_status_change_keeps_the_counts(rules.drop_last(), id, status, other);
        assert(with_status(rules, id, status).drop_last() =~= with_status(
            rules.drop_last(),
            id,
            status,
        ));
    }
}

/// To set a rule aside leaves its status and its counts as they are.
pub proof fn setting_aside_keeps_the_status(
    rules: Seq<RuleRowView>,
    id: Seq<char>,
    invalid_at: Seq<char>,
    other: Seq<char>,
)
    ensures
        state_of(with_end(rules, id, invalid_at), other) == (match state_of(rules, other) {
            Some(state) => Some(
                if other == id {
                    RuleStateView { invalid_at: Some(invalid_at), ..state }
                } else {
                    state
                },
            ),
            None => None,
        }),
    decreases rules.len(),
{
    if rules.len() > 0 {
        setting_aside_keeps_the_status(rules.drop_last(), id, invalid_at, other);
        assert(with_end(rules, id, invalid_at).drop_last() =~= with_end(
            rules.drop_last(),
            id,
            invalid_at,
        ));
    }
}

/// No firing is listed behind an earlier one.
pub open spec fn newest_first(list: Seq<FiringView>) -> bool {
    forall|i: int, j: int|
        0 <= i < j < list.len() ==> !text::precedes(
            (#[trigger] list[i]).created_at,
            (#[trigger] list[j]).created_at,
        )
}

proof fn lemma_recent_with_sorted(list: Seq<FiringView>, f: FiringView)
    requires
        newest_first(list),
    ensures
        newest_first(recent_with(list, f)),
        recent_with(list, f).len() == list.len() + 1,
        forall|i: int|
            0 <= i < list.len() + 1 ==> (#[trigger] recent_with(list, f)[i]) == f || list.contains(
                recent_with(list, f)[i],
            ),
    decreases list.len(),
{
    let after = recent_with(list, f);
    if list.len() == 0 || !text::precedes(f.created_at, list[0].created_at) {
        assert(after =~= seq![f] + list);
        assert forall|i: int| 0 <= i < after.len() implies (#[trigger] after[i]) == f
            || list.contains(after[i]) by {
            if i > 0 {
                assert(after[i] == list[i - 1]);
            }
        }
        assert forall|i: int, j: int| 0 <= i < j < after.len() implies !text::precedes(
            (#[trigger] after[i]).created_at,
            (#[trigger] after[j]).created_at,
        ) by {
            assert(after[j] == list[j - 1]);
            if i > 0 {
                assert(after[i] == list[i - 1]);
            } else if j > 1 {
                assert(!text::precedes(list[0].created_at, list[j - 1].created_at));
                if text::precedes(f.created_at, list[j - 1].created_at) {
                    text::lemma_precedes_total(f.created_at, list[0].created_at);
                    text::lemma_precedes_total(list[0].created_at, list[j - 1].created_at);
                    if text::precedes(list[0].created_at, f.created_at) {
                        text::lemma_precedes_transitive(
                            list[0].created_at,
                            f.created_at,
                            list[j - 1].created_at,
                        );
                    }
                }
            }
        }
    } else {
        let rest = list.drop_first();
        assert forall|i: int, j: int| 0 <= i < j < rest.len() implies !text::precedes(
            (#[trigger] rest[i]).created_at,
            (#[trigger] rest[j]).created_at,
        ) by {
            assert(rest[i] == list[i + 1] && rest[j] == list[j + 1]);
        }
        lemma_recent_with_sorted(rest, f);
        let tail = recent_with(rest, f);
        assert(after =~= seq![list[0]] + tail);
        assert forall|i: int| 0 <= i < tail.len() implies (#[trigger] tail[i]) == f || (
        list.contains(tail[i]) && !text::precedes(list[0].created_at, tail[i].created_at)) by {
            if tail[i] != f {
                let k = choose|k: int| 0 <= k < rest.len() && rest[k] == tail[i];
                assert(list[k + 1] == tail[i]);
            }
        }
        assert forall|i: int| 0 <= i < after.len() implies (#[trigger] after[i]) == f
            || list.contains(after[i]) by {
            if i > 0 {
                assert(after[i] == tail[i - 1]);
            } else {
                assert(after[0] == list[0]);
            }
        }
        assert forall|i: int, j: int| 0 <= i < j < after.len() implies !text::precedes(
            (#[trigger] after[i]).created_at,
            (#[trigger] after[j]).created_at,
        ) by {
            assert(after[j] == tail[j - 1]);
            if i > 0 {
                assert(after[i] == tail[i - 1]);
            } else {
                text::lemma_precedes_strict(f.created_at, list[0].created_at);
            }
        }
    }
}

/// The firings of a rule are listed the most recent first.
pub proof fn firings_are_listed_newest_first(firings: Seq<RuleFiringView>, rule_id: Seq<char>)
    ensures
        newest_first(recent(firings, rule_id)),
    decreases firings.len(),
{
    if firings.len() > 0 {
        firings_are_listed_newest_first(firings.drop_last(), rule_id);
        if firings.last().rule_id == rule_id {
            lemma_recent_with_sorted(
                recent(firings.drop_last(), rule_id),
                firings.last().firing,
            );
        }
    }
}

/// What a firing does to the counts of a rule that is tracked: it counts one more
/// firing, and one more that the agents agreed or disagreed with where they did.
/// Nothing else of the rule changes, nor any other rule.
pub proof fn firings_are_counted(
    rules: Seq<RuleRowView>,
    id: Seq<char>,
    agreement: Seq<char>,
    other: Seq<char>,
)
    ensures
        state_of(rules, other) matches Some(was) ==> (state_of(
            with_firing(rules, id, agreement),
            other,
        ) matches Some(is) && {
            &&& is.status == was.status && is.valid_from == was.valid_from && is.invalid_at
                == was.invalid_at
            &&& other != id ==> is == was
            &&& other == id && was.firings < u32::MAX ==> is.firings == was.firings + 1
            &&& other == id && agreement == "agreed"@ && was.agent_agreed < u32::MAX
                ==> is.agent_agreed == was.agent_agreed + 1 && is.agent_disagreed
                == was.agent_disagreed
            &&& other == id && agreement == "disagreed"@ && was.agent_disagreed < u32::MAX
                ==> is.agent_disagreed == was.agent_disagreed + 1 && is.agent_agreed
                == was.agent_agreed
            &&& other == id && agreement != "agreed"@ && agreement != "disagreed"@
                ==> is.agent_agreed == was.agent_agreed && is.agent_disagreed
                == was.agent_disagreed
        }),
{
    a_firing_counts_once(rules, id, agreement, other);
    reveal_strlit("agreed");
    reveal_strlit("disagreed");
    assert("agreed"@.len() != "disagreed"@.len());
}

/// A rule that is new to the store begins with no counts and no end; every other
/// rule is left as it was.
pub proof fn new_rules_begin_at_nothing(
    rules: Seq<RuleRowView>,
    id: Seq<char>,
    status: Seq<char>,
    valid_from: Seq<char>,
    other: Seq<char>,
)
    ensures
        state_of(rules, id) is None ==> (state_of(tracking(rules, id, status, valid_from), id)
            matches Some(is) && is.status == status && is.valid_from == valid_from && is.firings
            == 0 && is.agent_agreed == 0 && is.agent_disagreed == 0 && is.invalid_at is None),
        other != id ==> state_of(tracking(rules, id, status, valid_from), other) == state_of(
            rules,
            other,
        ),
{
    let more = rules.push(fresh_rule(id, status, valid_from));
    assert(more.drop_last() =~= rules);
}

/// The state of a rule is that of its first row.
pub proof fn the_first_row_counts(rules: Seq<RuleRowView>, id: Seq<char>)
    ensures
        state_of(rules, id) matches Some(s) ==> exists|i: int|
            0 <= i < rules.len() && (#[trigger] rules[i]).id == id && rules[i].state == s
                && forall|j: int| 0 <= j < i ==> (#[trigger] rules[j]).id != id,
        state_of(rules, id) is None ==> forall|j: int|
            0 <= j < rules.len() ==> (#[trigger] rules[j]).id != id,
    decreases rules.len(),
{
    if rules.len() > 0 {
        let rest = rules.drop_last();
        the_first_row_counts(rest, id);
        if let Some(s) = state_of(rest, id) {
            let i = choose|i: int|
                0 <= i < rest.len() && (#[trigger] rest[i]).id == id && rest[i].state == s
                    && forall|j: int| 0 <= j < i ==> (#[trigger] rest[j]).id != id;
            assert(rules[i].id == id && rules[i].state == s);
            assert forall|j: int| 0 <= j < i implies (#[trigger] rules[j]).id != id by {
                assert(rest[j].id != id);
            }
        } else {
            assert forall|j: int| 0 <= j < rules.len() - 1 implies (
            #[trigger] rules[j]).id != id by {
                assert(rest[j].id != id);
            }
            assert(rules[rules.len() - 1] == rules.last());
        }
    }
}

/// The recent firings of a rule are its firings, each as often as it was recorded.
pub proof fn every_firing_of_a_rule_is_listed(
    firings: Seq<RuleFiringView>,
    rule_id: Seq<char>,
)
    ensures
        recent(firings, rule_id).to_multiset() == firings.filter(
            |f: RuleFiringView| f.rule_id == rule_id,
        ).map_values(|f: RuleFiringView| f.firing).to_multiset(),
        runs_of(firings, rule_id) == firings.filter(
            |f: RuleFiringView| f.rule_id == rule_id,
        ).map_values(|f: RuleFiringView| f.firing.run_id),
    decreases firings.len(),
{
    broadcast use vstd::seq_lib::group_to_multiset_ensures;

    reveal(Seq::filter);
    let mine = |f: RuleFiringView| f.rule_id == rule_id;
    let firing = |f: RuleFiringView| f.firing;
    let run = |f: RuleFiringView| f.firing.run_id;
    if firings.len() == 0 {
        assert(recent(firings, rule_id) =~= firings.filter(mine).map_values(firing));
        assert(runs_of(firings, rule_id) =~= firings.filter(mine).map_values(run));
    } else {
        let rest = firings.drop_last();
        every_firing_of_a_rule_is_listed(rest, rule_id);
        if firings.last().rule_id == rule_id {
            let f = firings.last();
            lemma_recent_with_counts(recent(rest, rule_id), f.firing);
            assert(firings.filter(mine).map_values(firing) =~= rest.filter(mine).map_values(
                firing,
            ).push(f.firing));
            assert(firings.filter(mine).map_values(run) =~= rest.filter(mine).map_values(run).push(
                f.firing.run_id,
            ));
        }
    }
}

proof fn lemma_recent_with_counts(list: Seq<FiringView>, f: FiringView)
    ensures
        recent_with(list, f).to_multiset() == list.to_multiset().insert(f),
    decreases list.len(),
{
    broadcast use vstd::seq_lib::group_to_multiset_ensures;

    if list.len() == 0 || !text::precedes(f.created_at, list[0].created_at) {
        vstd::seq_lib::lemma_multiset_commutative(seq![f], list);
        assert(seq![f] =~= Seq::empty().push(f));
        assert((seq![f] + list).to_multiset() =~= list.to_multiset().insert(f));
    } else {
        let tail = list.drop_first();
        lemma_recent_with_counts(tail, f);
        vstd::seq_lib::lemma_multiset_commutative(seq![list[0]], recent_with(tail, f));
        vstd::seq_lib::lemma_multiset_commutative(seq![list[0]], tail);
        assert(seq![list[0]] + tail =~= list);
        assert(seq![list[0]] =~= Seq::empty().push(list[0]));
        assert(recent_with(list, f).to_multiset() =~= list.to_multiset().insert(f));
    }
}

/// Of two firings of one time the one that was recorded later is listed first.
pub proof fn later_records_come_first(
    firings: Seq<RuleFiringView>,
    rule_id: Seq<char>,
    f: FiringView,
)
    requires
        forall|i: int|
            0 <= i < firings.len() ==> !text::precedes(
                f.created_at,
                (#[trigger] firings[i]).firing.created_at,
            ),
    ensures
        recent(firings.push(RuleFiringView { rule_id, firing: f }), rule_id) == seq![f] + recent(
            firings,
            rule_id,
        ),
{
    let more = firings.push(RuleFiringView { rule_id, firing: f });
    assert(more.drop_last() =~= firings);
    let list = recent(firings, rule_id);
    if list.len() > 0 {
        broadcast use vstd::seq_lib::group_to_multiset_ensures;

        every_firing_of_a_rule_is_listed(firings, rule_id);
        let mine = |g: RuleFiringView| g.rule_id == rule_id;
        let kept = firings.filter(mine);
        let all = kept.map_values(|g: RuleFiringView| g.firing);
        assert(list.contains(list[0]));
        assert(all.to_multiset().count(list[0]) > 0);
        assert(all.contains(list[0]));
        let k = choose|k: int| 0 <= k < all.len() && all[k] == list[0];
        firings.lemma_filter_contains_rev(mine, kept[k]);
        assert(kept.contains(kept[k]));
        assert(firings.contains(kept[k]));
        let i = choose|i: int| 0 <= i < firings.len() && firings[i] == kept[k];
        assert(firings[i].firing == list[0]);
    }
}

} // verus!
