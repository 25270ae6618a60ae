//! What past reviews cost, summed over the runs.

use vstd::prelude::*;

use crate::schema::CostEntry;
use crate::text;

verus! {

/// What a run cost.
#[derive(Debug, Clone)]
pub struct RunCostRecord {
    pub run_id: String,
    pub created_at: String,
    pub base_ref: String,
    pub head_ref: String,
    pub total: CostEntry,
    pub per_stage: Vec<(String, CostEntry)>,
}

/// What a stage cost.
pub struct StageView {
    pub stage: Seq<char>,
    pub cost: CostEntry,
}

/// What a `RunCostRecord` says.
pub struct RunCostView {
    pub run_id: Seq<char>,
    pub created_at: Seq<char>,
    pub base_ref: Seq<char>,
    pub head_ref: Seq<char>,
    pub total: CostEntry,
    pub per_stage: Seq<StageView>,
}

impl View for RunCostRecord {
    type V = RunCostView;

    open spec fn view(&self) -> RunCostView {
        RunCostView {
            run_id: self.run_id@,
            created_at: self.created_at@,
            base_ref: self.base_ref@,
            head_ref: self.head_ref@,
            total: self.total,
            per_stage: Seq::new(
                self.per_stage@.len(),
                |i: int| StageView { stage: self.per_stage@[i].0@, cost: self.per_stage@[i].1 },
            ),
        }
    }
}

/// A list with one more run, in front of the first that is later.
pub open spec fn dated_with(list: Seq<RunCostView>, r: RunCostView) -> Seq<RunCostView>
    decreases list.len(),
{
    if list.len() == 0 || text::precedes(r.created_at, list[0].created_at) {
        seq![r] + list
    } else {
        seq![list[0]] + dated_with(list.drop_first(), r)
    }
}

/// Runs by their dates, the oldest first, and of the same date as they come.
pub open spec fn dated(runs: Seq<RunCostView>) -> Seq<RunCostView>
    decreases runs.len(),
{
    if runs.len() == 0 {
        Seq::empty()
    } else {
        dated_with(dated(runs.drop_last()), runs.last())
    }
}

proof fn lemma_dated_with(list: Seq<RunCostView>, r: RunCostView, k: int)
    requires
        0 <= k <= list.len(),
        forall|j: int|
            0 <= j < k ==> !text::precedes(r.created_at, (#[trigger] list[j]).created_at),
        k < list.len() ==> text::precedes(r.created_at, list[k].created_at),
    ensures
        dated_with(list, r) == list.insert(k, r),
    decreases list.len(),
{
    if list.len() == 0 || text::precedes(r.created_at, list[0].created_at) {
        assert(dated_with(list, r) =~= list.insert(0, r));
    } else {
        let rest = list.drop_first();
        assert forall|j: int| 0 <= j < k - 1 implies !text::precedes(
            r.created_at,
            (#[trigger] rest[j]).created_at,
        ) by {
            assert(rest[j] == list[j + 1]);
        }
        lemma_dated_with(rest, r, k - 1);
        assert(dated_with(list, r) =~= list.insert(k, r));
    }
}

fn insert_dated(list: &mut Vec<RunCostRecord>, r: RunCostRecord)
    ensures
        text::views(final(list)@) == dated_with(text::views(old(list)@), r@),
{
    let ghost before = text::views(list@);
    let mut k: usize = 0;
    while k < list.len() && !text::before(r.created_at.as_str(), list[k].created_at.as_str())
        invariant
            0 <= k <= list@.len(),
            before == text::views(list@),
            forall|j: int|
                0 <= j < k ==> !text::precedes(r@.created_at, (#[trigger] before[j]).created_at),
        decreases list.len() - k,
    {
        k += 1;
    }
    proof {
        lemma_dated_with(before, r@, k as int);
    }
    list.insert(k, r);
    proof {
        assert(text::views(list@) =~= before.insert(k as int, r@));
    }
}

/// Runs by their dates, the oldest first.
pub fn oldest_first(runs: Vec<RunCostRecord>) -> (sorted: Vec<RunCostRecord>)
    ensures
        text::views(sorted@) == dated(text::views(runs@)),
{
    let ghost all = text::views(runs@);
    let mut runs = runs;
    let mut sorted: Vec<RunCostRecord> = Vec::new();
    let mut waiting: Vec<RunCostRecord> = Vec::new();
    proof {
        assert(text::views(sorted@) =~= Seq::empty());
    }
    while runs.len() > 0
        invariant
            text::views(runs@) == all.take(runs@.len() as int),
            runs@.len() + waiting@.len() == all.len(),
            forall|j: int|
                0 <= j < waiting@.len() ==> (#[trigger] waiting@[j])@ == all[all.len() - 1 - j],
        decreases runs@.len(),
    {
        let ghost n = runs@.len();
        let ghost had = text::views(runs@);
        let run: Option<RunCostRecord> = runs.pop();
        if let Some(run) = run {
            proof {
                assert(had.last() == run@);
                assert(text::views(runs@) =~= all.take(n - 1));
            }
            waiting.push(run);
        }
    }
    while waiting.len() > 0
        invariant
            waiting@.len() <= all.len(),
            text::views(sorted@) == dated(all.take(all.len() - waiting@.len())),
            forall|j: int|
                0 <= j < waiting@.len() ==> (#[trigger] waiting@[j])@ == all[all.len() - 1 - j],
        decreases waiting@.len(),
    {
        let ghost n = all.len() - waiting@.len();
        proof {
            assert(all.take(n + 1).drop_last() =~= all.take(n));
            assert(waiting@[waiting@.len() - 1]@ == all[n]);
        }
        let run: Option<RunCostRecord> = waiting.pop();
        if let Some(run) = run {
            insert_dated(&mut sorted, run);
        }
    }
    proof {
        assert(all.take(all.len() as int) =~= all);
    }
    sorted
}

/// A run that was not made before a date.
pub open spec fn is_since(run: RunCostView, since: Seq<char>) -> bool {
    !text::precedes(run.created_at, since)
}

/// The runs that were not made before a date, in order.
pub open spec fn kept_since(runs: Seq<RunCostView>, since: Seq<char>) -> Seq<RunCostView>
    decreases runs.len(),
{
    if runs.len() == 0 {
        Seq::empty()
    } else if is_since(runs.last(), since) {
        kept_since(runs.drop_last(), since).push(runs.last())
    } else {
        kept_since(runs.drop_last(), since)
    }
}

/// The runs that were not made before a date, in order.
pub fn filter_since<'a>(records: &'a [RunCostRecord], since: &str) -> (kept: Vec<
    &'a RunCostRecord,
>)
    ensures
        text::views(kept@) == kept_since(text::views(records@), since@),
{
    let ghost all = text::views(records@);
    let mut kept: Vec<&'a RunCostRecord> = Vec::new();
    proof {
        assert(text::views(kept@) =~= Seq::empty());
    }
    let mut i: usize = 0;
    while i < records.len()
        invariant
            0 <= i <= records@.len(),
            all == text::views(records@),
            text::views(kept@) == kept_since(all.take(i as int), since@),
        decreases records.len() - i,
    {
        let record: &'a RunCostRecord = &records[i];
        proof {
            assert(all.take(i + 1).drop_last() =~= all.take(i as int));
            assert(all.take(i + 1).last() == record@);
        }
        if !text::before(record.created_at.as_str(), since) {
            proof {
                text::lemma_views_push(kept@, record);
            }
            kept.push(record);
        }
        i += 1;
    }
    proof {
        assert(all.take(all.len() as int) =~= all);
    }
    kept
}

/// An amount in millionths of a dollar under a name.
#[derive(Debug, Clone, PartialEq, Eq)]
pub struct Charge {
    pub name: String,
    pub usd: u64,
}

/// What a `Charge` says.
pub struct ChargeView {
    pub name: Seq<char>,
    pub usd: nat,
}

impl View for Charge {
    type V = ChargeView;

    open spec fn view(&self) -> ChargeView {
        ChargeView { name: self.name@, usd: self.usd as nat }
    }
}

/// A sum in millionths of a dollar under a name.
#[derive(Debug, Clone, PartialEq, Eq)]
pub struct NamedSum {
    pub name: String,
    pub usd: u128,
}

impl View for NamedSum {
    type V = ChargeView;

    open spec fn view(&self) -> ChargeView {
        ChargeView { name: self.name@, usd: self.usd as nat }
    }
}

/// The sum of the amounts under a name.
pub open spec fn sum_under(charges: Seq<ChargeView>, name: Seq<char>) -> nat
    decreases charges.len(),
{
    if charges.len() == 0 {
        0
    } else {
        sum_under(charges.drop_last(), name) + if charges.last().name == name {
            charges.last().usd
        } else {
            0
        }
    }
}

/// The names of amounts, in order.
pub open spec fn names_of(charges: Seq<ChargeView>) -> Seq<Seq<char>> {
    Seq::new(charges.len(), |i: int| charges[i].name)
}

/// The sums of amounts under each of some names.
pub open spec fn sums_of(charges: Seq<ChargeView>, names: Seq<Seq<char>>) -> Seq<ChargeView> {
    Seq::new(
        names.len(),
        |i: int| ChargeView { name: names[i], usd: sum_under(charges, names[i]) },
    )
}

fn sum_charges(charges: &Vec<Charge>, name: &str) -> (sum: u128)
    ensures
        sum == sum_under(text::views(charges@), name@),
{
    let ghost all = text::views(charges@);
    let count: usize = charges.len();
    let mut sum: u128 = 0;
    let mut i: usize = 0;
    while i < count
        invariant
            0 <= i <= count,
            count == charges@.len(),
            all == text::views(charges@),
            sum == sum_under(all.take(i as int), name@),
            sum <= i * u64::MAX,
        decreases count - i,
    {
        proof {
            assert(all.take(i + 1).drop_last() =~= all.take(i as int));
            assert(all.take(i + 1).last() == charges@[i as int]@);
            assert(i * u64::MAX + u64::MAX == (i + 1) * u64::MAX) by (nonlinear_arith);
            assert((i + 1) * u64::MAX <= u128::MAX) by (nonlinear_arith)
                requires
                    i < usize::MAX,
            ;
        }
        if text::same(charges[i].name.as_str(), name) {
            sum = sum + charges[i].usd as u128;
        }
        i += 1;
    }
    proof {
        assert(all.take(all.len() as int) =~= all);
    }
    sum
}

fn charge_names(charges: &Vec<Charge>) -> (names: Vec<String>)
    ensures
        text::views(names@) == names_of(text::views(charges@)),
{
    let mut names: Vec<String> = Vec::new();
    let mut i: usize = 0;
    while i < charges.len()
        invariant
            0 <= i <= charges@.len(),
            names@.len() == i,
            forall|j: int| 0 <= j < i ==> (#[trigger] names@[j])@ == charges@[j].name@,
        decreases charges.len() - i,
    {
        names.push(charges[i].name.clone());
        i += 1;
    }
    proof {
        assert(text::views(names@) =~= names_of(text::views(charges@)));
    }
    names
}

fn named_sums(charges: &Vec<Charge>, names: Vec<String>) -> (sums: Vec<NamedSum>)
    ensures
        text::views(sums@) == sums_of(text::views(charges@), text::views(names@)),
{
    let mut sums: Vec<NamedSum> = Vec::new();
    let mut i: usize = 0;
    while i < names.len()
        invariant
            0 <= i <= names@.len(),
            sums@.len() == i,
            forall|j: int|
                0 <= j < i ==> (#[trigger] sums@[j])@ == (ChargeView {
                    name: names@[j]@,
                    usd: sum_under(text::views(charges@), names@[j]@),
                }),
        decreases names.len() - i,
    {
        let usd: u128 = sum_charges(charges, names[i].as_str());
        sums.push(NamedSum { name: names[i].clone(), usd });
        i += 1;
    }
    proof {
        assert(text::views(sums@) =~= sums_of(text::views(charges@), text::views(names@)));
    }
    sums
}

/// A list with one more sum, in front of the first that is smaller.
pub open spec fn ranked_with(list: Seq<ChargeView>, c: ChargeView) -> Seq<ChargeView>
    decreases list.len(),
{
    if list.len() == 0 || c.usd > list[0].usd {
        seq![c] + list
    } else {
        seq![list[0]] + ranked_with(list.drop_first(), c)
    }
}

/// Sums by their size, the largest first, and of equal ones as they come.
pub open spec fn ranked(sums: Seq<ChargeView>) -> Seq<ChargeView>
    decreases sums.len(),
{
    if sums.len() == 0 {
        Seq::empty()
    } else {
        ranked_with(ranked(sums.drop_last()), sums.last())
    }
}

proof fn lemma_ranked_with(list: Seq<ChargeView>, c: ChargeView, k: int)
    requires
        0 <= k <= list.len(),
        forall|j: int| 0 <= j < k ==> c.usd <= (#[trigger] list[j]).usd,
        k < list.len() ==> c.usd > list[k].usd,
    ensures
        ranked_with(list, c) == list.insert(k, c),
    decreases list.len(),
{
    if list.len() == 0 || c.usd > list[0].usd {
        assert(ranked_with(list, c) =~= list.insert(0, c));
    } else {
        let rest = list.drop_first();
        assert forall|j: int| 0 <= j < k - 1 implies c.usd <= (#[trigger] rest[j]).usd by {
            assert(rest[j] == list[j + 1]);
        }
        lemma_ranked_with(rest, c, k - 1);
        assert(ranked_with(list, c) =~= list.insert(k, c));
    }
}

fn insert_ranked(list: &mut Vec<NamedSum>, c: NamedSum)
    ensures
        text::views(final(list)@) == ranked_with(text::views(old(list)@), c@),
{
    let ghost before = text::views(list@);
    let mut k: usize = 0;
    while k < list.len() && c.usd <= list[k].usd
        invariant
            0 <= k <= list@.len(),
            before == text::views(list@),
            forall|j: int| 0 <= j < k ==> c@.usd <= (#[trigger] before[j]).usd,
        decreases list.len() - k,
    {
        k += 1;
    }
    proof {
        lemma_ranked_with(before, c@, k as int);
    }
    list.insert(k, c);
    proof {
        assert(text::views(list@) =~= before.insert(k as int, c@));
    }
}

fn rank(sums: &Vec<NamedSum>) -> (sorted: Vec<NamedSum>)
    ensures
        text::views(sorted@) == ranked(text::views(sums@)),
{
    let ghost all = text::views(sums@);
    let mut sorted: Vec<NamedSum> = Vec::new();
    proof {
        assert(text::views(sorted@) =~= Seq::empty());
    }
    let mut i: usize = 0;
    while i < sums.len()
        invariant
            0 <= i <= sums@.len(),
            all == text::views(sums@),
            text::views(sorted@) == ranked(all.take(i as int)),
        decreases sums.len() - i,
    {
        proof {
            assert(all.take(i + 1).drop_last() =~= all.take(i as int));
            assert(all.take(i + 1).last() == sums@[i as int]@);
        }
        insert_ranked(&mut sorted, NamedSum { name: sums[i].name.clone(), usd: sums[i].usd });
        i += 1;
    }
    proof {
        assert(all.take(all.len() as int) =~= all);
    }
    sorted
}

/// The day of a date: its first ten bytes, or all of it where no character ends
/// there.
pub open spec fn day_of(created_at: Seq<char>) -> Seq<char> {
    match text::first_bytes(created_at, 10) {
        Some(day) => day,
        None => created_at,
    }
}

fn day(created_at: &str) -> (d: &str)
    ensures
        d@ == day_of(created_at@),
{
    match text::bytes_head(created_at, 10) {
        Some(day) => day,
        None => created_at,
    }
}

/// What the runs cost, under their days. A run that does not report it costs
/// nothing.
pub open spec fn day_charges(runs: Seq<RunCostView>) -> Seq<ChargeView> {
    Seq::new(
        runs.len(),
        |i: int| ChargeView { name: day_of(runs[i].created_at), usd: paid_by(runs[i]) },
    )
}

fn charges_by_day(records: &[&RunCostRecord]) -> (charges: Vec<Charge>)
    ensures
        text::views(charges@) == day_charges(text::views(records@)),
{
    let ghost all = text::views(records@);
    let mut charges: Vec<Charge> = Vec::new();
    let mut i: usize = 0;
    while i < records.len()
        invariant
            0 <= i <= records@.len(),
            all == text::views(records@),
            charges@.len() == i,
            forall|j: int| 0 <= j < i ==> (#[trigger] charges@[j])@ == day_charges(all)[j],
        decreases records.len() - i,
    {
        let record: &RunCostRecord = records[i];
        let usd: u64 = match record.total.usd {
            Some(usd) => usd,
            None => 0,
        };
        proof {
            assert(all[i as int] == record@);
        }
        charges.push(Charge { name: day(record.created_at.as_str()).to_owned(), usd });
        i += 1;
    }
    proof {
        assert(text::views(charges@) =~= day_charges(all));
    }
    charges
}

/// What the stages of a run cost, where it is reported.
pub open spec fn charges_in(stages: Seq<StageView>) -> Seq<ChargeView>
    decreases stages.len(),
{
    if stages.len() == 0 {
        Seq::empty()
    } else {
        let rest = charges_in(stages.drop_last());
        match stages.last().cost.usd {
            Some(usd) => rest.push(ChargeView { name: stages.last().stage, usd: usd as nat }),
            None => rest,
        }
    }
}

/// What the stages of the runs cost, where it is reported.
pub open spec fn stage_charges(runs: Seq<RunCostView>) -> Seq<ChargeView>
    decreases runs.len(),
{
    if runs.len() == 0 {
        Seq::empty()
    } else {
        stage_charges(runs.drop_last()) + charges_in(runs.last().per_stage)
    }
}

fn add_stages(charges: &mut Vec<Charge>, record: &RunCostRecord)
    ensures
        text::views(final(charges)@) == text::views(old(charges)@) + charges_in(
            record@.per_stage,
        ),
{
    let ghost before = text::views(charges@);
    let ghost all = record@.per_stage;
    let mut i: usize = 0;
    proof {
        assert(before + charges_in(all.take(0)) =~= before);
    }
    while i < record.per_stage.len()
        invariant
            0 <= i <= record.per_stage@.len(),
            all == record@.per_stage,
            all.len() == record.per_stage@.len(),
            text::views(charges@) == before + charges_in(all.take(i as int)),
        decreases record.per_stage.len() - i,
    {
        let cost: CostEntry = record.per_stage[i].1;
        proof {
            assert(all.take(i + 1).drop_last() =~= all.take(i as int));
            assert(all.take(i + 1).last() == (StageView {
                stage: record.per_stage@[i as int].0@,
                cost,
            }));
        }
        if let Some(usd) = cost.usd {
            let charge = Charge { name: record.per_stage[i].0.clone(), usd };
            proof {
                text::lemma_views_push(charges@, charge);
                assert(before + charges_in(all.take(i as int)).push(charge@) =~= (before
                    + charges_in(all.take(i as int))).push(charge@));
            }
            charges.push(charge);
        }
        i += 1;
    }
    proof {
        assert(all.take(all.len() as int) =~= all);
    }
}

fn charges_by_stage(records: &[&RunCostRecord]) -> (charges: Vec<Charge>)
    ensures
        text::views(charges@) == stage_charges(text::views(records@)),
{
    let ghost all = text::views(records@);
    let mut charges: Vec<Charge> = Vec::new();
    proof {
        assert(text::views(charges@) =~= Seq::empty());
    }
    let mut i: usize = 0;
    while i < records.len()
        invariant
            0 <= i <= records@.len(),
            all == text::views(records@),
            text::views(charges@) == stage_charges(all.take(i as int)),
        decreases records.len() - i,
    {
        proof {
            assert(all.take(i + 1).drop_last() =~= all.take(i as int));
            assert(all.take(i + 1).last() == records@[i as int]@);
        }
        add_stages(&mut charges, records[i]);
        i += 1;
    }
    proof {
        assert(all.take(all.len() as int) =~= all);
    }
    charges
}

/// What past reviews cost.
#[derive(Debug)]
pub struct CostDashboard {
    pub run_count: usize,
    /// In millionths of a dollar, over the runs that report it.
    pub total_usd: u128,
    /// Whether any run reports what it cost.
    pub any_usd_reported: bool,
    pub total_input_tokens: u128,
    pub total_output_tokens: u128,
    pub total_wall_ms: u128,
    /// The stages, the dearest first.
    pub by_stage_usd: Vec<NamedSum>,
    /// The days on which there was a run, the first one first.
    pub by_day_usd: Vec<NamedSum>,
}

/// What a `CostDashboard` says.
pub struct DashboardView {
    pub run_count: nat,
    pub total_usd: nat,
    pub any_usd_reported: bool,
    pub total_input_tokens: nat,
    pub total_output_tokens: nat,
    pub total_wall_ms: nat,
    pub by_stage_usd: Seq<ChargeView>,
    pub by_day_usd: Seq<ChargeView>,
}

impl View for CostDashboard {
    type V = DashboardView;

    open spec fn view(&self) -> DashboardView {
        DashboardView {
            run_count: self.run_count as nat,
            total_usd: self.total_usd as nat,
            any_usd_reported: self.any_usd_reported,
            total_input_tokens: self.total_input_tokens as nat,
            total_output_tokens: self.total_output_tokens as nat,
            total_wall_ms: self.total_wall_ms as nat,
            by_stage_usd: text::views(self.by_stage_usd@),
            by_day_usd: text::views(self.by_day_usd@),
        }
    }
}

/// The amounts that a run adds to the totals.
pub open spec fn paid_by(run: RunCostView) -> nat {
    match run.total.usd {
        Some(usd) => usd as nat,
        None => 0,
    }
}

/// What the runs cost, over those that report it.
pub open spec fn usd_in(runs: Seq<RunCostView>) -> nat
    decreases runs.len(),
{
    if runs.len() == 0 {
        0
    } else {
        usd_in(runs.drop_last()) + paid_by(runs.last())
    }
}

/// The tokens that the runs read.
pub open spec fn input_in(runs: Seq<RunCostView>) -> nat
    decreases runs.len(),
{
    if runs.len() == 0 {
        0
    } else {
        input_in(runs.drop_last()) + runs.last().total.input_tokens as nat
    }
}

/// The tokens that the runs wrote.
pub open spec fn output_in(runs: Seq<RunCostView>) -> nat
    decreases runs.len(),
{
    if runs.len() == 0 {
        0
    } else {
        output_in(runs.drop_last()) + runs.last().total.output_tokens as nat
    }
}

/// The time that the runs took.
pub open spec fn wall_in(runs: Seq<RunCostView>) -> nat
    decreases runs.len(),
{
    if runs.len() == 0 {
        0
    } else {
        wall_in(runs.drop_last()) + runs.last().total.wall_ms as nat
    }
}

/// The sums by day, the first day first.
pub open spec fn by_day(runs: Seq<RunCostView>) -> Seq<ChargeView> {
    let charges = day_charges(runs);
    sums_of(charges, text::ordered_set(names_of(charges)))
}

/// The sums by stage, the dearest first.
pub open spec fn by_stage(runs: Seq<RunCostView>) -> Seq<ChargeView> {
    let charges = stage_charges(runs);
    ranked(sums_of(charges, text::distinct_of(names_of(charges))))
}

/// What the runs cost in all.
pub open spec fn dashboard_of(runs: Seq<RunCostView>) -> DashboardView {
    DashboardView {
        run_count: runs.len(),
        total_usd: usd_in(runs),
        any_usd_reported: exists|i: int|
            0 <= i < runs.len() && (#[trigger] runs[i]).total.usd is Some,
        total_input_tokens: input_in(runs),
        total_output_tokens: output_in(runs),
        total_wall_ms: wall_in(runs),
        by_stage_usd: by_stage(runs),
        by_day_usd: by_day(runs),
    }
}

/// Sums up what the runs cost. The runs need not be in order.
pub fn summarize(records: &[&RunCostRecord]) -> (dashboard: CostDashboard)
    ensures
        dashboard@ == dashboard_of(text::views(records@)),
{
    let ghost all = text::views(records@);
    let count: usize = records.len();
    let mut total_usd: u128 = 0;
    let mut any_usd_reported: bool = false;
    let mut total_input_tokens: u128 = 0;
    let mut total_output_tokens: u128 = 0;
    let mut total_wall_ms: u128 = 0;
    let mut i: usize = 0;
    while i < count
        invariant
            0 <= i <= count,
            count == records@.len(),
            all == text::views(records@),
            total_usd == usd_in(all.take(i as int)),
            total_input_tokens == input_in(all.take(i as int)),
            total_output_tokens == output_in(all.take(i as int)),
            total_wall_ms == wall_in(all.take(i as int)),
            any_usd_reported == exists|j: int|
                0 <= j < i && (#[trigger] all[j]).total.usd is Some,
            total_usd <= i * u64::MAX,
            total_input_tokens <= i * u64::MAX,
            total_output_tokens <= i * u64::MAX,
            total_wall_ms <= i * u64::MAX,
        decreases count - i,
    {
        let total: CostEntry = records[i].total;
        proof {
            assert(all.take(i + 1).drop_last() =~= all.take(i as int));
            assert(all.take(i + 1).last() == records@[i as int]@);
            assert(all[i as int].total == total);
            assert(i * u64::MAX + u64::MAX == (i + 1) * u64::MAX) by (nonlinear_arith);
            assert((i + 1) * u64::MAX <= u128::MAX) by (nonlinear_arith)
                requires
                    i < usize::MAX,
            ;
        }
        total_input_tokens = total_input_tokens + total.input_tokens as u128;
        total_output_tokens = total_output_tokens + total.output_tokens as u128;
        total_wall_ms = total_wall_ms + total.wall_ms as u128;
        if let Some(usd) = total.usd {
            any_usd_reported = true;
            total_usd = total_usd + usd as u128;
        }
        i += 1;
    }
    proof {
        assert(all.take(all.len() as int) =~= all);
    }
    let by_stage: Vec<Charge> = charges_by_stage(records);
    let names: Vec<String> = charge_names(&by_stage);
    let stages: Vec<String> = text::distinct(&names);
    let stage_sums: Vec<NamedSum> = named_sums(&by_stage, stages);
    let by_day: Vec<Charge> = charges_by_day(records);
    let names: Vec<String> = charge_names(&by_day);
    let days: Vec<String> = text::sort_dedup(&names);
    CostDashboard {
        run_count: count,
        total_usd,
        any_usd_reported,
        total_input_tokens,
        total_output_tokens,
        total_wall_ms,
        by_stage_usd: rank(&stage_sums),
        by_day_usd: named_sums(&by_day, days),
    }
}

/// What a run adds to a day.
spec fn share_of(run: RunCostView, name: Seq<char>) -> nat {
    if day_of(run.created_at) == name {
        paid_by(run)
    } else {
        0
    }
}

proof fn lemma_remove(runs: Seq<RunCostView>, i: int, name: Seq<char>)
    requires
        0 <= i < runs.len(),
    ensures
        sum_under(day_charges(runs), name) == sum_under(day_charges(runs.remove(i)), name)
            + share_of(runs[i], name),
        usd_in(runs) == usd_in(runs.remove(i)) + paid_by(runs[i]),
        input_in(runs) == input_in(runs.remove(i)) + runs[i].total.input_tokens,
        output_in(runs) == output_in(runs.remove(i)) + runs[i].total.output_tokens,
        wall_in(runs) == wall_in(runs.remove(i)) + runs[i].total.wall_ms,
    decreases runs.len(),
{
    let last = runs.last();
    let rest = runs.drop_last();
    lemma_last_day(runs, name);
    if i == runs.len() - 1 {
        assert(runs.remove(i) =~= rest);
    } else {
        lemma_remove(rest, i, name);
        let without = runs.remove(i);
        assert(without.drop_last() =~= rest.remove(i));
        assert(without.last() == last);
        lemma_last_day(without, name);
    }
}

proof fn lemma_last_day(runs: Seq<RunCostView>, name: Seq<char>)
    requires
        runs.len() > 0,
    ensures
        sum_under(day_charges(runs), name) == sum_under(day_charges(runs.drop_last()), name)
            + share_of(runs.last(), name),
{
    assert(day_charges(runs).drop_last() =~= day_charges(runs.drop_last()));
}

/// A day on which there was a run.
pub open spec fn ran_on(runs: Seq<RunCostView>, day: Seq<char>) -> bool {
    exists|i: int| 0 <= i < runs.len() && day_of((#[trigger] runs[i]).created_at) == day
}

proof fn lemma_days(runs: Seq<RunCostView>, day: Seq<char>)
    ensures
        names_of(day_charges(runs)).contains(day) <==> ran_on(runs, day),
{
    let names = names_of(day_charges(runs));
    assert forall|i: int| 0 <= i < runs.len() implies names[i] == day_of(
        (#[trigger] runs[i]).created_at,
    ) by {}
    if names.contains(day) {
        let i = choose|i: int| 0 <= i < names.len() && names[i] == day;
        assert(day_of(runs[i].created_at) == day);
    }
    if ran_on(runs, day) {
        let i = choose|i: int| 0 <= i < runs.len() && day_of((#[trigger] runs[i]).created_at) == day;
        assert(names[i] == day);
    }
}

proof fn lemma_same_sums(a: Seq<RunCostView>, b: Seq<RunCostView>, name: Seq<char>)
    requires
        a.to_multiset() == b.to_multiset(),
    ensures
        sum_under(day_charges(a), name) == sum_under(day_charges(b), name),
        usd_in(a) == usd_in(b),
        input_in(a) == input_in(b),
        output_in(a) == output_in(b),
        wall_in(a) == wall_in(b),
    decreases a.len(),
{
    a.to_multiset_ensures();
    b.to_multiset_ensures();
    assert(a.len() == b.len());
    if a.len() > 0 {
        vstd::seq_lib::to_multiset_contains(a, a.last());
        vstd::seq_lib::to_multiset_contains(b, a.last());
        assert(a.contains(a[a.len() - 1]));
        let i = choose|i: int| 0 <= i < b.len() && b[i] == a.last();
        lemma_remove(a, a.len() - 1, name);
        lemma_remove(b, i, name);
        vstd::seq_lib::to_multiset_remove(a, a.len() - 1);
        vstd::seq_lib::to_multiset_remove(b, i);
        lemma_same_sums(a.remove(a.len() - 1), b.remove(i), name);
    }
}

/// In which order the runs come makes no difference to the totals and to the
/// sums by day.
pub proof fn order_makes_no_difference(a: Seq<RunCostView>, b: Seq<RunCostView>)
    requires
        a.to_multiset() == b.to_multiset(),
    ensures
        dashboard_of(a).run_count == dashboard_of(b).run_count,
        dashboard_of(a).total_usd == dashboard_of(b).total_usd,
        dashboard_of(a).any_usd_reported == dashboard_of(b).any_usd_reported,
        dashboard_of(a).total_input_tokens == dashboard_of(b).total_input_tokens,
        dashboard_of(a).total_output_tokens == dashboard_of(b).total_output_tokens,
        dashboard_of(a).total_wall_ms == dashboard_of(b).total_wall_ms,
        dashboard_of(a).by_day_usd == dashboard_of(b).by_day_usd,
{
    a.to_multiset_ensures();
    b.to_multiset_ensures();
    lemma_same_sums(a, b, Seq::empty());
    assert forall|r: RunCostView| #[trigger] a.contains(r) <==> b.contains(r) by {
        vstd::seq_lib::to_multiset_contains(a, r);
        vstd::seq_lib::to_multiset_contains(b, r);
    }
    let x = names_of(day_charges(a));
    let y = names_of(day_charges(b));
    assert forall|i: int| 0 <= i < a.len() implies b.contains(#[trigger] a[i]) by {
        assert(a.contains(a[i]));
    }
    assert forall|i: int| 0 <= i < b.len() implies a.contains(#[trigger] b[i]) by {
        assert(b.contains(b[i]));
        assert(a.contains(b[i]));
    }
    assert forall|d: Seq<char>| #[trigger] x.contains(d) <==> y.contains(d) by {
        lemma_days(a, d);
        lemma_days(b, d);
        if ran_on(a, d) {
            let i = choose|i: int| 0 <= i < a.len() && day_of((#[trigger] a[i]).created_at) == d;
            assert(b.contains(a[i]));
            let j = choose|j: int| 0 <= j < b.len() && b[j] == a[i];
            assert(day_of(b[j].created_at) == d);
        }
        if ran_on(b, d) {
            let i = choose|i: int| 0 <= i < b.len() && day_of((#[trigger] b[i]).created_at) == d;
            assert(a.contains(b[i]));
            let j = choose|j: int| 0 <= j < a.len() && a[j] == b[i];
            assert(day_of(a[j].created_at) == d);
        }
    }
    text::ordered_set_is_ordered(x);
    text::ordered_set_is_ordered(y);
    assert forall|d: Seq<char>| #[trigger]
        text::ordered_set(x).contains(d) <==> text::ordered_set(y).contains(d) by {
        assert(x.contains(d) <==> y.contains(d));
    }
    text::lemma_ordered_unique(text::ordered_set(x), text::ordered_set(y));
    assert(by_day(a) =~= by_day(b)) by {
        assert forall|i: int| 0 <= i < by_day(a).len() implies by_day(a)[i] == by_day(b)[i] by {
            lemma_same_sums(a, b, text::ordered_set(x)[i]);
        }
    }
    assert forall|i: int| 0 <= i < a.len() && (#[trigger] a[i]).total.usd is Some implies exists|
        j: int,
    |
        0 <= j < b.len() && (#[trigger] b[j]).total.usd is Some by {
        assert(b.contains(a[i]));
    }
    assert forall|i: int| 0 <= i < b.len() && (#[trigger] b[i]).total.usd is Some implies exists|
        j: int,
    |
        0 <= j < a.len() && (#[trigger] a[j]).total.usd is Some by {
        assert(a.contains(b[i]));
    }
}

/// No sum comes behind a smaller one.
pub open spec fn falling(sums: Seq<ChargeView>) -> bool {
    forall|i: int, j: int|
        0 <= i < j < sums.len() ==> (#[trigger] sums[i]).usd >= (#[trigger] sums[j]).usd
}

proof fn lemma_ranked_with_falls(list: Seq<ChargeView>, c: ChargeView)
    requires
        falling(list),
    ensures
        falling(ranked_with(list, c)),
        ranked_with(list, c).len() == list.len() + 1,
        forall|i: int|
            0 <= i < list.len() + 1 ==> (#[trigger] ranked_with(list, c)[i]) == c || list.contains(
                ranked_with(list, c)[i],
            ),
    decreases list.len(),
{
    let after = ranked_with(list, c);
    if list.len() == 0 || c.usd > list[0].usd {
        assert(after =~= seq![c] + list);
        assert forall|i: int| 0 <= i < after.len() implies (#[trigger] after[i]) == c
            || list.contains(after[i]) by {
            if i > 0 {
                assert(after[i] == list[i - 1]);
            }
        }
        assert forall|i: int, j: int| 0 <= i < j < after.len() implies (#[trigger] after[i]).usd
            >= (#[trigger] after[j]).usd by {
            assert(after[j] == list[j - 1]);
            if i > 0 {
                assert(after[i] == list[i - 1]);
            } else if j > 1 {
                assert(list[0].usd >= list[j - 1].usd);
            }
        }
    } else {
        let rest = list.drop_first();
        assert forall|i: int, j: int| 0 <= i < j < rest.len() implies (#[trigger] rest[i]).usd
            >= (#[trigger] rest[j]).usd by {
            assert(rest[i] == list[i + 1] && rest[j] == list[j + 1]);
        }
        lemma_ranked_with_falls(rest, c);
        let tail = ranked_with(rest, c);
        assert(after =~= seq![list[0]] + tail);
        assert forall|i: int| 0 <= i < tail.len() implies (#[trigger] tail[i]) == c || (list[0].usd
            >= tail[i].usd && list.contains(tail[i])) by {
            if tail[i] != c {
                let k = choose|k: int| 0 <= k < rest.len() && rest[k] == tail[i];
                assert(list[k + 1] == tail[i]);
            }
        }
        assert forall|i: int| 0 <= i < after.len() implies (#[trigger] after[i]) == c
            || list.contains(after[i]) by {
            if i > 0 {
                assert(after[i] == tail[i - 1]);
            } else {
                assert(after[0] == list[0]);
            }
        }
        assert forall|i: int, j: int| 0 <= i < j < after.len() implies (#[trigger] after[i]).usd
            >= (#[trigger] after[j]).usd by {
            assert(after[j] == tail[j - 1]);
            if i > 0 {
                assert(after[i] == tail[i - 1]);
            }
        }
    }
}

proof fn lemma_ranked_falls(sums: Seq<ChargeView>)
    ensures
        falling(ranked(sums)),
    decreases sums.len(),
{
    if sums.len() > 0 {
        lemma_ranked_falls(sums.drop_last());
        lemma_ranked_with_falls(ranked(sums.drop_last()), sums.last());
    }
}

/// No stage comes behind one that cost less.
pub proof fn dear_stages_come_first(runs: Seq<RunCostView>)
    ensures
        falling(dashboard_of(runs).by_stage_usd),
{
    let charges = stage_charges(runs);
    lemma_ranked_falls(sums_of(charges, text::distinct_of(names_of(charges))));
}

/// Each day is listed once, the days are in order, and they are those on which
/// there was a run.
pub proof fn days_are_in_order(runs: Seq<RunCostView>, day: Seq<char>)
    ensures
        text::strictly_ordered(names_of(by_day(runs))),
        names_of(by_day(runs)).contains(day) <==> ran_on(runs, day),
{
    let names = names_of(day_charges(runs));
    text::ordered_set_is_ordered(names);
    assert(names_of(by_day(runs)) =~= text::ordered_set(names));
    lemma_days(runs, day);
}

/// One more run adds what it cost to every total, and is counted.
pub proof fn a_run_adds_its_cost(runs: Seq<RunCostView>, run: RunCostView)
    ensures
        ({
            let (was, is) = (dashboard_of(runs), dashboard_of(runs.push(run)));
            &&& is.run_count == was.run_count + 1
            &&& is.total_usd == was.total_usd + (match run.total.usd {
                Some(usd) => usd as nat,
                None => 0nat,
            })
            &&& is.any_usd_reported == (was.any_usd_reported || run.total.usd is Some)
            &&& is.total_input_tokens == was.total_input_tokens + run.total.input_tokens
            &&& is.total_output_tokens == was.total_output_tokens + run.total.output_tokens
            &&& is.total_wall_ms == was.total_wall_ms + run.total.wall_ms
        }),
        dashboard_of(Seq::empty()).run_count == 0,
        dashboard_of(Seq::empty()).total_usd == 0,
        dashboard_of(Seq::empty()).total_input_tokens == 0,
        dashboard_of(Seq::empty()).total_output_tokens == 0,
        dashboard_of(Seq::empty()).total_wall_ms == 0,
        !dashboard_of(Seq::empty()).any_usd_reported,
{
    let more = runs.push(run);
    assert(more.drop_last() =~= runs);
    if dashboard_of(runs).any_usd_reported {
        let i = choose|i: int| 0 <= i < runs.len() && (#[trigger] runs[i]).total.usd is Some;
        assert(more[i].total.usd is Some);
    }
    assert(more[runs.len() as int] == run);
    if dashboard_of(more).any_usd_reported && run.total.usd is None {
        let i = choose|i: int| 0 <= i < more.len() && (#[trigger] more[i]).total.usd is Some;
        assert(runs[i].total.usd is Some);
    }
}

/// The runs since a time are those that are not before it, in order.
pub proof fn runs_before_a_time_are_left_out(runs: Seq<RunCostView>, since: Seq<char>)
    ensures
        kept_since(runs, since) == runs.filter(
            |r: RunCostView| !text::precedes(r.created_at, since),
        ),
    decreases runs.len(),
{
    reveal(Seq::filter);
    if runs.len() > 0 {
        runs_before_a_time_are_left_out(runs.drop_last(), since);
    }
}

/// Runs are listed from the oldest on, each as often as it was given; of two runs
/// of one time the one given first comes first.
pub proof fn runs_are_listed_from_the_oldest(runs: Seq<RunCostView>)
    ensures
        forall|i: int, j: int|
            0 <= i < j < dated(runs).len() ==> !text::precedes(
                (#[trigger] dated(runs)[j]).created_at,
                (#[trigger] dated(runs)[i]).created_at,
            ),
        dated(runs).to_multiset() == runs.to_multiset(),
        (forall|i: int, j: int|
            0 <= i < j < runs.len() ==> !text::precedes(
                (#[trigger] runs[j]).created_at,
                (#[trigger] runs[i]).created_at,
            )) ==> dated(runs) == runs,
    decreases runs.len(),
{
    broadcast use vstd::seq_lib::group_to_multiset_ensures;

    if runs.len() == 0 {
        assert(dated(runs) =~= runs);
    } else {
        let rest = runs.drop_last();
        runs_are_listed_from_the_oldest(rest);
        lemma_dated_with_here(dated(rest), runs.last());
        assert(rest.push(runs.last()) =~= runs);
        if forall|i: int, j: int|
            0 <= i < j < runs.len() ==> !text::precedes(
                (#[trigger] runs[j]).created_at,
                (#[trigger] runs[i]).created_at,
            ) {
            assert forall|i: int, j: int| 0 <= i < j < rest.len() implies !text::precedes(
                (#[trigger] rest[j]).created_at,
                (#[trigger] rest[i]).created_at,
            ) by {
                assert(rest[i] == runs[i] && rest[j] == runs[j]);
            }
            assert forall|i: int| 0 <= i < rest.len() implies !text::precedes(
                runs.last().created_at,
                (#[trigger] rest[i]).created_at,
            ) by {
                assert(rest[i] == runs[i]);
                assert(runs[runs.len() - 1] == runs.last());
            }
            lemma_dated_last(rest, runs.last());
        }
    }
}

spec fn in_time(list: Seq<RunCostView>) -> bool {
    forall|i: int, j: int|
        0 <= i < j < list.len() ==> !text::precedes(
            (#[trigger] list[j]).created_at,
            (#[trigger] list[i]).created_at,
        )
}

proof fn lemma_dated_last(list: Seq<RunCostView>, r: RunCostView)
    requires
        forall|i: int|
            0 <= i < list.len() ==> !text::precedes(
                r.created_at,
                (#[trigger] list[i]).created_at,
            ),
    ensures
        dated_with(list, r) == list.push(r),
    decreases list.len(),
{
    if list.len() == 0 {
        assert(dated_with(list, r) =~= list.push(r));
    } else {
        assert(!text::precedes(r.created_at, list[0].created_at));
        let tail = list.drop_first();
        assert forall|i: int| 0 <= i < tail.len() implies !text::precedes(
            r.created_at,
            (#[trigger] tail[i]).created_at,
        ) by {
            assert(tail[i] == list[i + 1]);
        }
        lemma_dated_last(tail, r);
        assert(dated_with(list, r) =~= list.push(r));
    }
}

proof fn lemma_dated_with_here(list: Seq<RunCostView>, r: RunCostView)
    requires
        in_time(list),
    ensures
        in_time(dated_with(list, r)),
        dated_with(list, r).to_multiset() == list.to_multiset().insert(r),
        forall|i: int|
            0 <= i < dated_with(list, r).len() ==> #[trigger] dated_with(list, r)[i] == r
                || list.contains(dated_with(list, r)[i]),
    decreases list.len(),
{
    broadcast use vstd::seq_lib::group_to_multiset_ensures;

    let new = dated_with(list, r);
    if list.len() == 0 || text::precedes(r.created_at, list[0].created_at) {
        vstd::seq_lib::lemma_multiset_commutative(seq![r], list);
        assert(seq![r] =~= Seq::empty().push(r));
        assert(new.to_multiset() =~= list.to_multiset().insert(r));
        assert forall|i: int| 0 <= i < new.len() implies #[trigger] new[i] == r || list.contains(
            new[i],
        ) by {
            if i > 0 {
                assert(new[i] == list[i - 1]);
            }
        }
        assert forall|i: int, j: int| 0 <= i < j < new.len() implies !text::precedes(
            (#[trigger] new[j]).created_at,
            (#[trigger] new[i]).created_at,
        ) by {
            assert(new[j] == list[j - 1]);
            if i > 0 {
                assert(new[i] == list[i - 1]);
            } else {
                text::lemma_precedes_strict(r.created_at, list[j - 1].created_at);
                if j > 1 && text::precedes(list[j - 1].created_at, r.created_at) {
                    text::lemma_precedes_transitive(
                        list[j - 1].created_at,
                        r.created_at,
                        list[0].created_at,
                    );
                    assert(!text::precedes(list[j - 1].created_at, list[0].created_at));
                }
            }
        }
    } else {
        let tail = list.drop_first();
        assert forall|i: int, j: int| 0 <= i < j < tail.len() implies !text::precedes(
            (#[trigger] tail[j]).created_at,
            (#[trigger] tail[i]).created_at,
        ) by {
            assert(tail[i] == list[i + 1] && tail[j] == list[j + 1]);
        }
        lemma_dated_with_here(tail, r);
        let less = dated_with(tail, r);
        vstd::seq_lib::lemma_multiset_commutative(seq![list[0]], less);
        vstd::seq_lib::lemma_multiset_commutative(seq![list[0]], tail);
        assert(seq![list[0]] + tail =~= list);
        assert(seq![list[0]] =~= Seq::empty().push(list[0]));
        assert(new.to_multiset() =~= list.to_multiset().insert(r));
        assert forall|i: int| 0 <= i < new.len() implies #[trigger] new[i] == r || list.contains(
            new[i],
        ) by {
            if i > 0 {
                assert(new[i] == less[i - 1]);
                if less[i - 1] != r {
                    let k = choose|k: int| 0 <= k < tail.len() && tail[k] == less[i - 1];
                    assert(list[k + 1] == less[i - 1]);
                }
            }
        }
        assert forall|i: int, j: int| 0 <= i < j < new.len() implies !text::precedes(
            (#[trigger] new[j]).created_at,
            (#[trigger] new[i]).created_at,
        ) by {
            assert(new[j] == less[j - 1]);
            if i > 0 {
                assert(new[i] == less[i - 1]);
            } else if less[j - 1] != r {
                let k = choose|k: int| 0 <= k < tail.len() && tail[k] == less[j - 1];
                assert(list[k + 1] == less[j - 1]);
            }
        }
    }
}

/// A day is the first ten bytes of a time, or the whole of it where it is shorter
/// or those end inside a character.
pub proof fn days_are_the_first_ten_bytes(day: Seq<char>, behind: Seq<char>)
    requires
        day.len() == 10,
        text::is_ascii_text(day),
    ensures
        day_of(day + behind) == day,
{
    lemma_first_bytes(day, behind);
}

proof fn lemma_first_bytes(head: Seq<char>, behind: Seq<char>)
    requires
        text::is_ascii_text(head),
    ensures
        text::first_bytes(head + behind, head.len()) == Some(head),
    decreases head.len(),
{
    let s = head + behind;
    if head.len() > 0 {
        assert((head[0] as u32) <= 0x7f);
        assert(s[0] == head[0]);
        assert(s.drop_first() =~= head.drop_first() + behind);
        assert forall|i: int| 0 <= i < head.drop_first().len() implies (
        #[trigger] head.drop_first()[i]) as u32 <= 0x7f by {
            assert((head[i + 1] as u32) <= 0x7f);
        }
        lemma_first_bytes(head.drop_first(), behind);
        assert(seq![s[0]] + head.drop_first() =~= head);
    }
}

/// What is charged under a name is the sum of the charges of that name.
pub proof fn charges_add_up_under_their_name(
    charges: Seq<ChargeView>,
    c: ChargeView,
    name: Seq<char>,
)
    ensures
        c.name == name ==> sum_under(charges.push(c), name) == sum_under(charges, name) + c.usd,
        c.name != name ==> sum_under(charges.push(c), name) == sum_under(charges, name),
        sum_under(Seq::empty(), name) == 0,
{
    assert(charges.push(c).drop_last() =~= charges);
}

/// What a day cost is the sum of what its runs cost.
pub proof fn days_sum_their_runs(runs: Seq<RunCostView>, i: int)
    requires
        0 <= i < by_day(runs).len(),
    ensures
        by_day(runs)[i].usd == sum_under(
            Seq::new(
                runs.len(),
                |k: int|
                    ChargeView {
                        name: day_of(runs[k].created_at),
                        usd: match runs[k].total.usd {
                            Some(usd) => usd as nat,
                            None => 0nat,
                        },
                    },
            ),
            by_day(runs)[i].name,
        ),
{
    assert(day_charges(runs) =~= Seq::new(
        runs.len(),
        |k: int|
            ChargeView {
                name: day_of(runs[k].created_at),
                usd: match runs[k].total.usd {
                    Some(usd) => usd as nat,
                    None => 0nat,
                },
            },
    ));
}

/// The charges of one more run are those of its stages that have a price.
pub proof fn stages_with_a_price_are_charged(runs: Seq<RunCostView>, run: RunCostView)
    ensures
        stage_charges(runs.push(run)) == stage_charges(runs) + run.per_stage.filter(
            |s: StageView| s.cost.usd is Some,
        ).map_values(
            |s: StageView| ChargeView { name: s.stage, usd: s.cost.usd->0 as nat },
        ),
        stage_charges(Seq::empty()).len() == 0,
{
    assert(runs.push(run).drop_last() =~= runs);
    lemma_charges_in(run.per_stage);
}

proof fn lemma_charges_in(stages: Seq<StageView>)
    ensures
        charges_in(stages) == stages.filter(|s: StageView| s.cost.usd is Some).map_values(
            |s: StageView| ChargeView { name: s.stage, usd: s.cost.usd->0 as nat },
        ),
    decreases stages.len(),
{
    reveal(Seq::filter);
    let priced = |s: StageView| s.cost.usd is Some;
    let charge = |s: StageView| ChargeView { name: s.stage, usd: s.cost.usd->0 as nat };
    if stages.len() == 0 {
        assert(charges_in(stages) =~= stages.filter(priced).map_values(charge));
    } else {
        let rest = stages.drop_last();
        lemma_charges_in(rest);
        if priced(stages.last()) {
            assert(stages.filter(priced).map_values(charge) =~= rest.filter(priced).map_values(
                charge,
            ).push(charge(stages.last())));
        }
    }
}

/// The stages of a dashboard are those that were charged, each once, with the sum
/// of its charges.
pub proof fn stages_sum_their_charges(runs: Seq<RunCostView>, c: ChargeView)
    ensures
        by_stage(runs).contains(c) <==> c.usd == sum_under(stage_charges(runs), c.name) && exists|
            i: int,
        |
            0 <= i < stage_charges(runs).len() && (#[trigger] stage_charges(runs)[i]).name
                == c.name,
{
    let charges = stage_charges(runs);
    let names = names_of(charges);
    let once = text::distinct_of(names);
    let sums = sums_of(charges, once);
    text::distinct_is_the_set(names);
    lemma_ranked_contains(sums, c);
    if sums.contains(c) {
        let i = choose|i: int| 0 <= i < sums.len() && sums[i] == c;
        assert(once.contains(once[i]));
        assert(names.contains(c.name));
        let k = choose|k: int| 0 <= k < names.len() && names[k] == c.name;
        assert(charges[k].name == c.name);
    }
    if c.usd == sum_under(charges, c.name) && exists|i: int|
        0 <= i < charges.len() && (#[trigger] charges[i]).name == c.name {
        let i = choose|i: int| 0 <= i < charges.len() && (#[trigger] charges[i]).name == c.name;
        assert(names[i] == c.name);
        assert(names.contains(c.name));
        assert(once.contains(c.name));
        let k = choose|k: int| 0 <= k < once.len() && once[k] == c.name;
        assert(sums[k].name == c.name && sums[k].usd == c.usd);
        assert(sums[k] == c);
        assert(sums.contains(c));
    }
}

proof fn lemma_ranked_contains(sums: Seq<ChargeView>, c: ChargeView)
    ensures
        ranked(sums).contains(c) <==> sums.contains(c),
    decreases sums.len(),
{
    if sums.len() > 0 {
        let rest = sums.drop_last();
        lemma_ranked_contains(rest, c);
        lemma_ranked_with_contains(ranked(rest), sums.last(), c);
        assert(rest.push(sums.last()) =~= sums);
        text::lemma_push_contains(rest, sums.last(), c);
    }
}

proof fn lemma_ranked_with_contains(list: Seq<ChargeView>, x: ChargeView, c: ChargeView)
    ensures
        ranked_with(list, x).contains(c) <==> list.contains(c) || x == c,
    decreases list.len(),
{
    if list.len() == 0 || x.usd > list[0].usd {
        text::lemma_joined_contains(seq![x], list, c);
        assert(seq![x][0] == x);
    } else {
        lemma_ranked_with_contains(list.drop_first(), x, c);
        text::lemma_joined_contains(seq![list[0]], ranked_with(list.drop_first(), x), c);
        text::lemma_joined_contains(seq![list[0]], list.drop_first(), c);
        assert(seq![list[0]] + list.drop_first() =~= list);
        assert(seq![list[0]][0] == list[0]);
    }
}

} // verus!
