//! Mines usage conventions from source text: where a call of one method is
//! almost always followed within a few lines by a call of another, a call
//! without the other may be a mistake.

use vstd::hash_map::StringHashMap;
use vstd::prelude::*;

use crate::text;

verus! {

/// Within how many lines a call accompanies another.
pub const WINDOW_LINES: usize = 15;

/// The extensions of the files that are scanned.
pub open spec fn is_source_extension(ext: Seq<char>) -> bool {
    ||| ext == "go"@
    ||| ext == "java"@
    ||| ext == "kt"@
    ||| ext == "kts"@
    ||| ext == "js"@
    ||| ext == "jsx"@
    ||| ext == "ts"@
    ||| ext == "tsx"@
}

/// Whether files with the extension are scanned.
pub fn scans_extension(ext: &str) -> (r: bool)
    ensures
        r == is_source_extension(ext@),
{
    text::same(ext, "go") || text::same(ext, "java") || text::same(ext, "kt") || text::same(
        ext,
        "kts",
    ) || text::same(ext, "js") || text::same(ext, "jsx") || text::same(ext, "ts") || text::same(
        ext,
        "tsx",
    )
}

/// A directory that is not scanned.
pub open spec fn is_skipped_directory(name: Seq<char>) -> bool {
    name == ".git"@ || name == "vendor"@ || name == "node_modules"@
}

/// Whether the directory is not scanned.
pub fn skips_directory(name: &str) -> (r: bool)
    ensures
        r == is_skipped_directory(name@),
{
    text::same(name, ".git") || text::same(name, "vendor") || text::same(name, "node_modules")
}

/// A source file: its path in the repository, and what it holds.
#[derive(Debug, Clone)]
pub struct SourceFile {
    pub path: String,
    pub content: String,
}

/// What a `SourceFile` says.
pub struct SourceView {
    pub path: Seq<char>,
    pub content: Seq<char>,
}

impl View for SourceFile {
    type V = SourceView;

    open spec fn view(&self) -> SourceView {
        SourceView { path: self.path@, content: self.content@ }
    }
}

/// A call of a method, and the line it is on.
#[derive(Debug, Clone, PartialEq, Eq)]
pub struct CallSite {
    pub name: String,
    pub line: usize,
}

/// What a `CallSite` says.
pub struct SiteView {
    pub name: Seq<char>,
    pub line: nat,
}

impl View for CallSite {
    type V = SiteView;

    open spec fn view(&self) -> SiteView {
        SiteView { name: self.name@, line: self.line as nat }
    }
}

/// A character of a name.
pub open spec fn is_name_char(c: char) -> bool {
    let n = c as u32;
    (0x30 <= n <= 0x39) || (0x41 <= n <= 0x5a) || (0x61 <= n <= 0x7a) || c == '_'
}

fn name_char(c: char) -> (r: bool)
    ensures
        r == is_name_char(c),
{
    let n: u32 = c as u32;
    (0x30 <= n && n <= 0x39) || (0x41 <= n && n <= 0x5a) || (0x61 <= n && n <= 0x7a) || c == '_'
}

/// The end of the name that starts at a position.
pub open spec fn name_end(line: Seq<char>, i: int) -> int
    decreases line.len() - i,
{
    if 0 <= i < line.len() && is_name_char(line[i]) {
        name_end(line, i + 1)
    } else {
        i
    }
}

/// A name that does not begin with a digit stands between positions, with an
/// opening bracket behind it.
pub open spec fn is_call(line: Seq<char>, start: int, end: int) -> bool {
    start < end < line.len() && line[end] == '(' && !(0x30 <= line[start] as u32 <= 0x39)
}

/// The methods that a line calls from a position on: each name between a dot and
/// an opening bracket.
pub open spec fn calls_from(line: Seq<char>, i: int) -> Seq<Seq<char>>
    decreases line.len() - i,
{
    if i < 0 || i >= line.len() {
        Seq::empty()
    } else if line[i] == '.' {
        let end = name_end(line, i + 1);
        if i < end <= line.len() {
            (if is_call(line, i + 1, end) {
                seq![line.subrange(i + 1, end)]
            } else {
                Seq::empty()
            }) + calls_from(line, end)
        } else {
            Seq::empty()
        }
    } else {
        calls_from(line, i + 1)
    }
}

/// Calls on one line.
pub open spec fn sites_on(names: Seq<Seq<char>>, line: nat) -> Seq<SiteView> {
    Seq::new(names.len(), |i: int| SiteView { name: names[i], line })
}

/// The calls on the first `n` lines.
pub open spec fn sites_of(lines: Seq<Seq<char>>) -> Seq<SiteView>
    decreases lines.len(),
{
    if lines.len() == 0 {
        Seq::empty()
    } else {
        sites_of(lines.drop_last()) + sites_on(calls_from(lines.last(), 0), lines.len())
    }
}

proof fn lemma_name_end(line: Seq<char>, i: int, end: int)
    requires
        0 <= i <= end <= line.len(),
        forall|j: int| i <= j < end ==> is_name_char(line[j]),
        end < line.len() ==> !is_name_char(line[end]),
    ensures
        name_end(line, i) == end,
    decreases end - i,
{
    if i < end {
        lemma_name_end(line, i + 1, end);
    }
}

fn push_calls(line: &str, number: usize, sites: &mut Vec<CallSite>)
    ensures
        text::views(final(sites)@) == text::views(old(sites)@) + sites_on(
            calls_from(line@, 0),
            number as nat,
        ),
{
    let chars: Vec<char> = text::chars_of(line);
    let ghost before = text::views(sites@);
    let ghost mut found: Seq<Seq<char>> = Seq::empty();
    let mut i: usize = 0;
    proof {
        assert(found + calls_from(line@, 0) =~= calls_from(line@, 0));
        assert(before + sites_on(found, number as nat) =~= before);
    }
    while i < chars.len()
        invariant
            0 <= i <= chars@.len(),
            chars@ == line@,
            found + calls_from(line@, i as int) == calls_from(line@, 0),
            text::views(sites@) == before + sites_on(found, number as nat),
        decreases chars.len() - i,
    {
        if chars[i] == '.' {
            let start: usize = i + 1;
            let mut end: usize = start;
            while end < chars.len() && name_char(chars[end])
                invariant
                    start <= end <= chars@.len(),
                    chars@ == line@,
                    forall|j: int| start <= j < end ==> is_name_char(line@[j]),
                decreases chars.len() - end,
            {
                end += 1;
            }
            proof {
                lemma_name_end(line@, start as int, end as int);
            }
            if start < end && end < chars.len() && chars[end] == '(' {
                let first: u32 = chars[start] as u32;
                if !(0x30 <= first && first <= 0x39) {
                    let name: String = line.substring_char(start, end).to_owned();
                    let site = CallSite { name, line: number };
                    proof {
                        assert(is_call(line@, start as int, end as int));
                        assert(name@ == line@.subrange(start as int, end as int));
                        text::lemma_views_push(sites@, site);
                        assert(before + sites_on(found.push(name@), number as nat) =~= (before
                            + sites_on(found, number as nat)).push(site@));
                        assert(found.push(name@) + calls_from(line@, end as int) =~= found + (
                        seq![name@] + calls_from(line@, end as int)));
                        found = found.push(name@);
                    }
                    sites.push(site);
                } else {
                    proof {
                        assert(Seq::<Seq<char>>::empty() + calls_from(line@, end as int)
                            =~= calls_from(line@, end as int));
                    }
                }
            } else {
                proof {
                    assert(Seq::<Seq<char>>::empty() + calls_from(line@, end as int) =~= calls_from(
                        line@,
                        end as int,
                    ));
                }
            }
            i = end;
        } else {
            i += 1;
        }
    }
    proof {
        assert(found + Seq::<Seq<char>>::empty() =~= found);
    }
}

/// The method calls of a file, in their order.
pub fn call_sites_in_file(content: &str) -> (sites: Vec<CallSite>)
    ensures
        text::views(sites@) == sites_of(text::lines_of(content@)),
{
    let lines: Vec<String> = text::lines(content);
    let ghost all = text::views(lines@);
    let mut sites: Vec<CallSite> = Vec::new();
    proof {
        assert(text::views(sites@) =~= Seq::empty());
    }
    let mut i: usize = 0;
    while i < lines.len()
        invariant
            0 <= i <= lines@.len(),
            all == text::views(lines@),
            text::views(sites@) == sites_of(all.take(i as int)),
        decreases lines.len() - i,
    {
        proof {
            assert(all.take(i + 1).drop_last() =~= all.take(i as int));
            assert(all.take(i + 1).last() == lines@[i as int]@);
        }
        push_calls(lines[i].as_str(), i + 1, &mut sites);
        i += 1;
    }
    proof {
        assert(all.take(all.len() as int) =~= all);
    }
    sites
}

/// The names of the calls from position `j` on that are within the window of the
/// call at position `i`.
pub open spec fn names_near(sites: Seq<SiteView>, i: int, j: int) -> Seq<Seq<char>>
    decreases sites.len() - j,
{
    if j < 0 || j >= sites.len() || sites[j].line > sites[i].line + WINDOW_LINES {
        Seq::empty()
    } else {
        seq![sites[j].name] + names_near(sites, i, j + 1)
    }
}

/// A call, with the names of the calls that accompany it and where it is.
#[derive(Debug, Clone)]
pub struct CallEvent {
    pub name: String,
    pub near: Vec<String>,
    pub location: String,
}

/// What a `CallEvent` says.
pub struct EventView {
    pub name: Seq<char>,
    pub near: Seq<Seq<char>>,
    pub location: Seq<char>,
}

impl View for CallEvent {
    type V = EventView;

    open spec fn view(&self) -> EventView {
        EventView {
            name: self.name@,
            near: text::views(self.near@),
            location: self.location@,
        }
    }
}

/// The event of a call of a file.
pub open spec fn event_of(path: Seq<char>, sites: Seq<SiteView>, i: int) -> EventView {
    EventView {
        name: sites[i].name,
        near: text::distinct_of(names_near(sites, i, i + 1)),
        location: path + ":"@ + text::decimal_of(sites[i].line),
    }
}

/// The events of a file.
pub open spec fn events_in(path: Seq<char>, sites: Seq<SiteView>) -> Seq<EventView> {
    Seq::new(sites.len(), |i: int| event_of(path, sites, i))
}

/// The events of files.
pub open spec fn events_of(files: Seq<SourceView>) -> Seq<EventView>
    decreases files.len(),
{
    if files.len() == 0 {
        Seq::empty()
    } else {
        events_of(files.drop_last()) + events_in(
            files.last().path,
            sites_of(text::lines_of(files.last().content)),
        )
    }
}

fn near_names(sites: &Vec<CallSite>, i: usize) -> (names: Vec<String>)
    requires
        i < sites@.len(),
    ensures
        text::views(names@) == text::distinct_of(
            names_near(text::views(sites@), i as int, i + 1),
        ),
{
    let ghost all = text::views(sites@);
    let count: usize = sites.len();
    let mut names: Vec<String> = Vec::new();
    let mut j: usize = i + 1;
    proof {
        assert(text::views(names@) + names_near(all, i as int, j as int) =~= names_near(
            all,
            i as int,
            i + 1,
        ));
    }
    while j < count && (sites[j].line <= sites[i].line || sites[j].line - sites[i].line
        <= WINDOW_LINES)
        invariant
            i < j <= sites@.len(),
            count == sites@.len(),
            all == text::views(sites@),
            text::views(names@) + names_near(all, i as int, j as int) == names_near(
                all,
                i as int,
                i + 1,
            ),
        decreases count - j,
    {
        let name: String = sites[j].name.clone();
        let ghost before = text::views(names@);
        proof {
            text::lemma_views_push(names@, name);
            assert(before.push(name@) + names_near(all, i as int, j + 1) =~= before + (seq![name@]
                + names_near(all, i as int, j + 1)));
        }
        names.push(name);
        j += 1;
    }
    proof {
        assert(names_near(all, i as int, j as int) =~= Seq::empty());
        assert(text::views(names@) + Seq::<Seq<char>>::empty() =~= text::views(names@));
    }
    text::distinct(&names)
}

fn push_events(path: &str, sites: &Vec<CallSite>, events: &mut Vec<CallEvent>)
    ensures
        text::views(final(events)@) == text::views(old(events)@) + events_in(
            path@,
            text::views(sites@),
        ),
{
    let ghost before = text::views(events@);
    let ghost all = text::views(sites@);
    let ghost wanted = events_in(path@, all);
    proof {
        assert(before + wanted.take(0) =~= before);
    }
    let mut i: usize = 0;
    while i < sites.len()
        invariant
            0 <= i <= sites@.len(),
            all == text::views(sites@),
            wanted == events_in(path@, all),
            text::views(events@) == before + wanted.take(i as int),
        decreases sites.len() - i,
    {
        let number: String = text::decimal(sites[i].line as u64);
        let event = CallEvent {
            name: sites[i].name.clone(),
            near: near_names(sites, i),
            location: text::concat3(path, ":", number.as_str()),
        };
        proof {
            text::lemma_views_push(events@, event);
            assert(event@ == wanted[i as int]);
            assert(before + wanted.take(i + 1) =~= (before + wanted.take(i as int)).push(event@));
        }
        events.push(event);
        i += 1;
    }
    proof {
        assert(wanted.take(wanted.len() as int) =~= wanted);
    }
}

/// The events of files.
pub fn call_events(files: &Vec<SourceFile>) -> (events: Vec<CallEvent>)
    ensures
        text::views(events@) == events_of(text::views(files@)),
{
    let ghost all = text::views(files@);
    let mut events: Vec<CallEvent> = Vec::new();
    proof {
        assert(text::views(events@) =~= Seq::empty());
    }
    let mut i: usize = 0;
    while i < files.len()
        invariant
            0 <= i <= files@.len(),
            all == text::views(files@),
            text::views(events@) == events_of(all.take(i as int)),
        decreases files.len() - i,
    {
        proof {
            assert(all.take(i + 1).drop_last() =~= all.take(i as int));
            assert(all.take(i + 1).last() == files@[i as int]@);
        }
        let sites: Vec<CallSite> = call_sites_in_file(files[i].content.as_str());
        push_events(files[i].path.as_str(), &sites, &mut events);
        i += 1;
    }
    proof {
        assert(all.take(all.len() as int) =~= all);
    }
    events
}

/// How often a call accompanies another, and where it first does.
pub struct Partner {
    pub name: String,
    pub count: usize,
    pub example: String,
}

/// What a `Partner` says.
pub struct PartnerView {
    pub name: Seq<char>,
    pub count: nat,
    pub example: Seq<char>,
}

impl View for Partner {
    type V = PartnerView;

    open spec fn view(&self) -> PartnerView {
        PartnerView { name: self.name@, count: self.count as nat, example: self.example@ }
    }
}

/// How often a method is called, and what accompanies the calls.
pub struct Entry {
    pub name: String,
    pub occurrences: usize,
    pub partners: Vec<Partner>,
}

/// What an `Entry` says.
pub struct EntryView {
    pub name: Seq<char>,
    pub occurrences: nat,
    pub partners: Seq<PartnerView>,
}

impl View for Entry {
    type V = EntryView;

    open spec fn view(&self) -> EntryView {
        EntryView {
            name: self.name@,
            occurrences: self.occurrences as nat,
            partners: text::views(self.partners@),
        }
    }
}

/// The partners with one more call of `name`.
pub open spec fn with_partner(partners: Seq<PartnerView>, name: Seq<char>, location: Seq<char>) -> Seq<
    PartnerView,
>
    decreases partners.len(),
{
    if partners.len() == 0 {
        seq![PartnerView { name, count: 1, example: location }]
    } else if partners[0].name == name {
        seq![PartnerView { count: partners[0].count + 1, ..partners[0] }] + partners.drop_first()
    } else {
        seq![partners[0]] + with_partner(partners.drop_first(), name, location)
    }
}

/// The partners of a method with one more call of each of `near`, but for the
/// method itself.
pub open spec fn with_partners(
    partners: Seq<PartnerView>,
    own: Seq<char>,
    near: Seq<Seq<char>>,
    location: Seq<char>,
) -> Seq<PartnerView>
    decreases near.len(),
{
    if near.len() == 0 {
        partners
    } else {
        let before = with_partners(partners, own, near.drop_last(), location);
        if near.last() == own {
            before
        } else {
            with_partner(before, near.last(), location)
        }
    }
}

/// The table with one more event.
pub open spec fn with_event(table: Seq<EntryView>, event: EventView) -> Seq<EntryView>
    decreases table.len(),
{
    if table.len() == 0 {
        seq![
            EntryView {
                name: event.name,
                occurrences: 1,
                partners: with_partners(Seq::empty(), event.name, event.near, event.location),
            },
        ]
    } else if table[0].name == event.name {
        seq![entry_with(table[0], event)] + table.drop_first()
    } else {
        seq![table[0]] + with_event(table.drop_first(), event)
    }
}

/// The entry of a method with one more call.
pub open spec fn entry_with(entry: EntryView, event: EventView) -> EntryView {
    EntryView {
        name: entry.name,
        occurrences: entry.occurrences + 1,
        partners: with_partners(entry.partners, entry.name, event.near, event.location),
    }
}

/// The table of events: one entry for each method that is called, in the order
/// in which they come up.
pub open spec fn table_of(events: Seq<EventView>) -> Seq<EntryView>
    decreases events.len(),
{
    if events.len() == 0 {
        Seq::empty()
    } else {
        with_event(table_of(events.drop_last()), events.last())
    }
}

proof fn lemma_with_partner(
    partners: Seq<PartnerView>,
    name: Seq<char>,
    location: Seq<char>,
    k: int,
)
    requires
        0 <= k <= partners.len(),
        forall|j: int| 0 <= j < k ==> (#[trigger] partners[j]).name != name,
        k < partners.len() ==> partners[k].name == name,
    ensures
        with_partner(partners, name, location) == if k < partners.len() {
            partners.update(k, (PartnerView { count: partners[k].count + 1, ..partners[k] }))
        } else {
            partners.push(PartnerView { name, count: 1, example: location })
        },
    decreases partners.len(),
{
    if partners.len() == 0 {
        assert(with_partner(partners, name, location) =~= partners.push(
            PartnerView { name, count: 1, example: location },
        ));
    } else if k == 0 {
        assert(with_partner(partners, name, location) =~= partners.update(
            0,
            (PartnerView { count: partners[0].count + 1, ..partners[0] }),
        ));
    } else {
        let rest = partners.drop_first();
        assert(partners[0].name != name);
        assert forall|j: int| 0 <= j < k - 1 implies (#[trigger] rest[j]).name != name by {
            assert(rest[j] == partners[j + 1]);
        }
        lemma_with_partner(rest, name, location, k - 1);
        if k < partners.len() {
            assert(with_partner(partners, name, location) =~= partners.update(
                k,
                (PartnerView { count: partners[k].count + 1, ..partners[k] }),
            ));
        } else {
            assert(with_partner(partners, name, location) =~= partners.push(
                PartnerView { name, count: 1, example: location },
            ));
        }
    }
}

proof fn lemma_with_event(table: Seq<EntryView>, event: EventView, k: int)
    requires
        0 <= k <= table.len(),
        forall|j: int| 0 <= j < k ==> (#[trigger] table[j]).name != event.name,
        k < table.len() ==> table[k].name == event.name,
    ensures
        with_event(table, event) == if k < table.len() {
            table.update(k, entry_with(table[k], event))
        } else {
            table.push(
                EntryView {
                    name: event.name,
                    occurrences: 1,
                    partners: with_partners(Seq::empty(), event.name, event.near, event.location),
                },
            )
        },
    decreases table.len(),
{
    let fresh = EntryView {
        name: event.name,
        occurrences: 1,
        partners: with_partners(Seq::empty(), event.name, event.near, event.location),
    };
    if table.len() == 0 {
        assert(with_event(table, event) =~= table.push(fresh));
    } else if k == 0 {
        assert(with_event(table, event) =~= table.update(0, entry_with(table[0], event)));
    } else {
        let rest = table.drop_first();
        assert(table[0].name != event.name);
        assert forall|j: int| 0 <= j < k - 1 implies (#[trigger] rest[j]).name != event.name by {
            assert(rest[j] == table[j + 1]);
        }
        lemma_with_event(rest, event, k - 1);
        if k < table.len() {
            assert(with_event(table, event) =~= table.update(k, entry_with(table[k], event)));
        } else {
            assert(with_event(table, event) =~= table.push(fresh));
        }
    }
}

/// No count of partners is above a bound.
pub open spec fn counts_within(partners: Seq<Partner>, bound: int) -> bool {
    forall|j: int| 0 <= j < partners.len() ==> (#[trigger] partners[j]).count <= bound
}

fn add_partner(partners: &mut Vec<Partner>, name: &str, location: &str)
    requires
        forall|j: int|
            0 <= j < old(partners)@.len() && (#[trigger] old(partners)@[j]).name@ == name@
                ==> old(partners)@[j].count < usize::MAX,
    ensures
        text::views(final(partners)@) == with_partner(
            text::views(old(partners)@),
            name@,
            location@,
        ),
        forall|j: int|
            0 <= j < final(partners)@.len() ==> {
                ||| j < old(partners)@.len() && (#[trigger] final(partners)@[j]) == old(
                    partners,
                )@[j]
                ||| final(partners)@[j].name@ == name@ && final(partners)@[j].count == 1
                ||| final(partners)@[j].name@ == name@ && j < old(partners)@.len() && old(
                    partners,
                )@[j].name@ == name@ && final(partners)@[j].count == old(partners)@[j].count + 1
            },
{
    let ghost before = text::views(partners@);
    let mut k: usize = 0;
    while k < partners.len() && !text::same(partners[k].name.as_str(), name)
        invariant
            0 <= k <= partners@.len(),
            before == text::views(partners@),
            forall|j: int| 0 <= j < k ==> (#[trigger] before[j]).name != name@,
        decreases partners.len() - k,
    {
        k += 1;
    }
    proof {
        lemma_with_partner(before, name@, location@, k as int);
    }
    if k < partners.len() {
        let partner = Partner {
            name: partners[k].name.clone(),
            count: partners[k].count + 1,
            example: partners[k].example.clone(),
        };
        partners.set(k, partner);
        proof {
            assert(text::views(partners@) =~= before.update(
                k as int,
                (PartnerView { count: before[k as int].count + 1, ..before[k as int] }),
            ));
        }
    } else {
        let partner = Partner { name: name.to_owned(), count: 1, example: location.to_owned() };
        proof {
            text::lemma_views_push(partners@, partner);
        }
        partners.push(partner);
    }
}

fn add_partners(
    partners: &mut Vec<Partner>,
    own: &str,
    near: &Vec<String>,
    location: &str,
    Ghost(bound): Ghost<int>,
)
    requires
        0 <= bound < usize::MAX,
        counts_within(old(partners)@, bound),
        text::views(near@).no_duplicates(),
    ensures
        text::views(final(partners)@) == with_partners(
            text::views(old(partners)@),
            own@,
            text::views(near@),
            location@,
        ),
        counts_within(final(partners)@, bound + 1),
{
    let ghost before = text::views(partners@);
    let ghost all = text::views(near@);
    let mut i: usize = 0;
    while i < near.len()
        invariant
            0 <= i <= near@.len(),
            0 <= bound < usize::MAX,
            all == text::views(near@),
            all.no_duplicates(),
            text::views(partners@) == with_partners(before, own@, all.take(i as int), location@),
            forall|j: int|
                0 <= j < partners@.len() ==> (#[trigger] partners@[j]).count <= bound || (
                partners@[j].count <= bound + 1 && all.take(i as int).contains(
                    partners@[j].name@,
                )),
        decreases near.len() - i,
    {
        let ghost now = partners@;
        proof {
            assert(all.take(i + 1).drop_last() =~= all.take(i as int));
            assert(all.take(i + 1).last() == near@[i as int]@);
            assert forall|x: Seq<char>| all.take(i as int).contains(x) implies all.take(
                i + 1,
            ).contains(x) by {
                let m = choose|m: int| 0 <= m < i && all.take(i as int)[m] == x;
                assert(all.take(i + 1)[m] == x);
            }
            assert(all.take(i + 1)[i as int] == near@[i as int]@);
            assert(!all.take(i as int).contains(near@[i as int]@)) by {
                if all.take(i as int).contains(near@[i as int]@) {
                    let m = choose|m: int|
                        0 <= m < i && all.take(i as int)[m] == near@[i as int]@;
                    assert(all[m] == all[i as int]);
                }
            }
        }
        if !text::same(near[i].as_str(), own) {
            add_partner(partners, near[i].as_str(), location);
            proof {
                assert forall|j: int| 0 <= j < partners@.len() implies (
                #[trigger] partners@[j]).count <= bound || (partners@[j].count <= bound + 1
                    && all.take(i + 1).contains(partners@[j].name@)) by {
                    if j < now.len() && partners@[j] == now[j] {
                    } else {
                        assert(partners@[j].name@ == near@[i as int]@);
                    }
                }
            }
        }
        i += 1;
    }
    proof {
        assert(all.take(all.len() as int) =~= all);
    }
}

fn record(entry: &mut Entry, event: &CallEvent, Ghost(bound): Ghost<int>)
    requires
        0 <= bound < usize::MAX,
        old(entry).occurrences <= bound,
        counts_within(old(entry).partners@, bound),
        text::views(event.near@).no_duplicates(),
    ensures
        final(entry)@ == entry_with(old(entry)@, event@),
        final(entry).name == old(entry).name,
        final(entry).occurrences <= bound + 1,
        counts_within(final(entry).partners@, bound + 1),
{
    let name: String = entry.name.clone();
    entry.occurrences = entry.occurrences + 1;
    add_partners(
        &mut entry.partners,
        name.as_str(),
        &event.near,
        event.location.as_str(),
        Ghost(bound),
    );
}

/// Every event names each call that accompanies it once.
pub open spec fn near_once(events: Seq<CallEvent>) -> bool {
    forall|i: int|
        0 <= i < events.len() ==> text::views((#[trigger] events[i]).near@).no_duplicates()
}

/// The table of events.
pub fn build_table(events: &Vec<CallEvent>) -> (table: Vec<Entry>)
    requires
        near_once(events@),
    ensures
        text::views(table@) == table_of(text::views(events@)),
{
    let ghost all = text::views(events@);
    let mut table: Vec<Entry> = Vec::new();
    let mut index: StringHashMap<usize> = StringHashMap::new();
    proof {
        assert(text::views(table@) =~= Seq::empty());
    }
    let mut i: usize = 0;
    while i < events.len()
        invariant
            0 <= i <= events@.len(),
            near_once(events@),
            all == text::views(events@),
            text::views(table@) == table_of(all.take(i as int)),
            forall|name: Seq<char>| #[trigger]
                index@.contains_key(name) ==> index@[name] < table@.len()
                    && table@[index@[name] as int].name@ == name,
            forall|k: int|
                0 <= k < table@.len() ==> index@.contains_key((#[trigger] table@[k]).name@)
                    && index@[table@[k].name@] == k,
            forall|k: int|
                0 <= k < table@.len() ==> (#[trigger] table@[k]).occurrences <= i && counts_within(
                    table@[k].partners@,
                    i as int,
                ),
        decreases events.len() - i,
    {
        let ghost before = text::views(table@);
        let ghost rows = table@;
        proof {
            assert(all.take(i + 1).drop_last() =~= all.take(i as int));
            assert(all.take(i + 1).last() == events@[i as int]@);
        }
        let event: &CallEvent = &events[i];
        let known: Option<usize> = match index.get(event.name.as_str()) {
            Some(k) => Some(*k),
            None => None,
        };
        match known {
            Some(k) => {
                proof {
                    assert forall|j: int| 0 <= j < k implies (#[trigger] before[j]).name
                        != event.name@ by {
                        assert(before[j].name == rows[j].name@);
                    }
                    lemma_with_event(before, event@, k as int);
                }
                record(&mut table[k], event, Ghost(i as int));
                proof {
                    assert(text::views(table@) =~= before.update(
                        k as int,
                        entry_with(before[k as int], event@),
                    ));
                    assert forall|j: int| 0 <= j < table@.len() implies (
                    #[trigger] table@[j]).name@ == rows[j].name@ by {
                    }
                    assert forall|j: int| 0 <= j < table@.len() implies (
                    #[trigger] table@[j]).occurrences <= i + 1 && counts_within(
                        table@[j].partners@,
                        i + 1,
                    ) by {
                        if j != k {
                            assert(table@[j] == rows[j]);
                        }
                    }
                }
            },
            None => {
                proof {
                    assert forall|j: int| 0 <= j < before.len() implies (
                    #[trigger] before[j]).name != event.name@ by {
                        assert(before[j].name == rows[j].name@);
                    }
                    lemma_with_event(before, event@, before.len() as int);
                }
                let mut entry = Entry {
                    name: event.name.clone(),
                    occurrences: 1,
                    partners: Vec::new(),
                };
                proof {
                    assert(text::views(entry.partners@) =~= Seq::empty());
                }
                add_partners(
                    &mut entry.partners,
                    event.name.as_str(),
                    &event.near,
                    event.location.as_str(),
                    Ghost(i as int),
                );
                let position: usize = table.len();
                index.insert(event.name.clone(), position);
                proof {
                    text::lemma_views_push(rows, entry);
                }
                table.push(entry);
            },
        }
        i += 1;
    }
    proof {
        assert(all.take(all.len() as int) =~= all);
    }
    table
}

/// A convention: calls of one method are accompanied by calls of another.
#[derive(Debug, Clone, PartialEq, Eq)]
pub struct CallPairConvention {
    pub call_a: String,
    pub call_b: String,
    pub occurrences_of_a: usize,
    pub co_occurrences: usize,
    /// Where a call of the one is first accompanied by the other.
    pub example_location: String,
}

/// What a `CallPairConvention` says.
pub struct ConventionView {
    pub call_a: Seq<char>,
    pub call_b: Seq<char>,
    pub occurrences_of_a: nat,
    pub co_occurrences: nat,
    pub example_location: Seq<char>,
}

impl View for CallPairConvention {
    type V = ConventionView;

    open spec fn view(&self) -> ConventionView {
        ConventionView {
            call_a: self.call_a@,
            call_b: self.call_b@,
            occurrences_of_a: self.occurrences_of_a as nat,
            co_occurrences: self.co_occurrences as nat,
            example_location: self.example_location@,
        }
    }
}

impl ConventionView {
    /// The share of calls that are accompanied is `share` in a million at least.
    /// Without calls it is not.
    pub open spec fn holds_for(self, share: nat) -> bool {
        self.occurrences_of_a > 0 && self.co_occurrences * 1_000_000 >= share
            * self.occurrences_of_a
    }

    /// A larger share of calls is accompanied than of another convention, or the
    /// same share of more calls.
    pub open spec fn above(self, other: ConventionView) -> bool {
        let ours = self.co_occurrences * other.occurrences_of_a;
        let theirs = other.co_occurrences * self.occurrences_of_a;
        ours > theirs || ours == theirs && self.occurrences_of_a > other.occurrences_of_a
    }
}

impl CallPairConvention {
    /// Whether the share of calls that are accompanied is `share` in a million
    /// at least.
    pub fn holds(&self, share: u32) -> (r: bool)
        ensures
            r == self@.holds_for(share as nat),
    {
        proof {
            assert(share * self.occurrences_of_a <= u128::MAX) by (nonlinear_arith)
                requires
                    share <= u32::MAX,
                    self.occurrences_of_a <= u64::MAX,
            ;
        }
        self.occurrences_of_a > 0 && self.co_occurrences as u128 * 1_000_000 >= share as u128
            * self.occurrences_of_a as u128
    }

    /// Whether a larger share of calls is accompanied than of another
    /// convention, or the same share of more calls.
    pub fn is_above(&self, other: &CallPairConvention) -> (r: bool)
        ensures
            r == self@.above(other@),
    {
        proof {
            assert(self.co_occurrences * other.occurrences_of_a <= u128::MAX) by (nonlinear_arith)
                requires
                    self.co_occurrences <= u64::MAX,
                    other.occurrences_of_a <= u64::MAX,
            ;
            assert(other.co_occurrences * self.occurrences_of_a <= u128::MAX) by (nonlinear_arith)
                requires
                    other.co_occurrences <= u64::MAX,
                    self.occurrences_of_a <= u64::MAX,
            ;
        }
        let ours: u128 = self.co_occurrences as u128 * other.occurrences_of_a as u128;
        let theirs: u128 = other.co_occurrences as u128 * self.occurrences_of_a as u128;
        ours > theirs || (ours == theirs && self.occurrences_of_a > other.occurrences_of_a)
    }
}

/// The convention of a method and a partner.
pub open spec fn convention_of(entry: EntryView, partner: PartnerView) -> ConventionView {
    ConventionView {
        call_a: entry.name,
        call_b: partner.name,
        occurrences_of_a: entry.occurrences,
        co_occurrences: partner.count,
        example_location: partner.example,
    }
}

/// The conventions of a method with some of its partners that have enough calls,
/// of which a large enough share is accompanied.
pub open spec fn conventions_with(
    entry: EntryView,
    partners: Seq<PartnerView>,
    min_occurrences: nat,
    min_share: nat,
) -> Seq<ConventionView>
    decreases partners.len(),
{
    if partners.len() == 0 {
        Seq::empty()
    } else {
        let rest = conventions_with(entry, partners.drop_last(), min_occurrences, min_share);
        let convention = convention_of(entry, partners.last());
        if entry.occurrences >= min_occurrences && convention.holds_for(min_share) {
            rest.push(convention)
        } else {
            rest
        }
    }
}

/// The conventions of a table.
pub open spec fn conventions_in(table: Seq<EntryView>, min_occurrences: nat, min_share: nat) -> Seq<
    ConventionView,
>
    decreases table.len(),
{
    if table.len() == 0 {
        Seq::empty()
    } else {
        conventions_in(table.drop_last(), min_occurrences, min_share) + conventions_with(
            table.last(),
            table.last().partners,
            min_occurrences,
            min_share,
        )
    }
}

/// A list with one more convention, in front of the first that it is above.
pub open spec fn ranked_with(list: Seq<ConventionView>, c: ConventionView) -> Seq<ConventionView>
    decreases list.len(),
{
    if list.len() == 0 || c.above(list[0]) {
        seq![c] + list
    } else {
        seq![list[0]] + ranked_with(list.drop_first(), c)
    }
}

/// Conventions in the order of their shares, the largest first, and of equal
/// ones as they come.
pub open spec fn ranked(conventions: Seq<ConventionView>) -> Seq<ConventionView>
    decreases conventions.len(),
{
    if conventions.len() == 0 {
        Seq::empty()
    } else {
        ranked_with(ranked(conventions.drop_last()), conventions.last())
    }
}

proof fn lemma_ranked_with(list: Seq<ConventionView>, c: ConventionView, k: int)
    requires
        0 <= k <= list.len(),
        forall|j: int| 0 <= j < k ==> !c.above(#[trigger] list[j]),
        k < list.len() ==> c.above(list[k]),
    ensures
        ranked_with(list, c) == list.insert(k, c),
    decreases list.len(),
{
    if list.len() == 0 || c.above(list[0]) {
        assert(ranked_with(list, c) =~= list.insert(0, c));
    } else {
        let rest = list.drop_first();
        assert forall|j: int| 0 <= j < k - 1 implies !c.above(#[trigger] rest[j]) by {
            assert(rest[j] == list[j + 1]);
        }
        lemma_ranked_with(rest, c, k - 1);
        assert(ranked_with(list, c) =~= list.insert(k, c));
    }
}

fn insert_ranked(list: &mut Vec<CallPairConvention>, c: CallPairConvention)
    ensures
        text::views(final(list)@) == ranked_with(text::views(old(list)@), c@),
{
    let ghost before = text::views(list@);
    let mut k: usize = 0;
    while k < list.len() && !c.is_above(&list[k])
        invariant
            0 <= k <= list@.len(),
            before == text::views(list@),
            forall|j: int| 0 <= j < k ==> !c@.above(#[trigger] before[j]),
        decreases list.len() - k,
    {
        k += 1;
    }
    proof {
        lemma_ranked_with(before, c@, k as int);
    }
    list.insert(k, c);
    proof {
        assert(text::views(list@) =~= before.insert(k as int, c@));
    }
}

fn conventions_in_table(table: &Vec<Entry>, min_occurrences: usize, min_share: u32) -> (found: Vec<
    CallPairConvention,
>)
    ensures
        text::views(found@) == ranked(
            conventions_in(text::views(table@), min_occurrences as nat, min_share as nat),
        ),
{
    let ghost all = text::views(table@);
    let ghost min = min_occurrences as nat;
    let ghost share = min_share as nat;
    let mut found: Vec<CallPairConvention> = Vec::new();
    let ghost mut listed: Seq<ConventionView> = Seq::empty();
    proof {
        assert(text::views(found@) =~= Seq::empty());
    }
    let mut i: usize = 0;
    while i < table.len()
        invariant
            0 <= i <= table@.len(),
            all == text::views(table@),
            min == min_occurrences as nat,
            share == min_share as nat,
            listed == conventions_in(all.take(i as int), min, share),
            text::views(found@) == ranked(listed),
        decreases table.len() - i,
    {
        let entry: &Entry = &table[i];
        let ghost partners = entry@.partners;
        let ghost before = listed;
        proof {
            assert(all.take(i + 1).drop_last() =~= all.take(i as int));
            assert(all.take(i + 1).last() == table@[i as int]@);
            assert(before + Seq::<ConventionView>::empty() =~= before);
        }
        let mut m: usize = 0;
        while m < entry.partners.len()
            invariant
                0 <= m <= entry.partners@.len(),
                partners == entry@.partners,
                min == min_occurrences as nat,
                share == min_share as nat,
                listed == before + conventions_with(entry@, partners.take(m as int), min, share),
                text::views(found@) == ranked(listed),
            decreases entry.partners.len() - m,
        {
            proof {
                assert(partners.take(m + 1).drop_last() =~= partners.take(m as int));
                assert(partners.take(m + 1).last() == entry.partners@[m as int]@);
            }
            let convention = CallPairConvention {
                call_a: entry.name.clone(),
                call_b: entry.partners[m].name.clone(),
                occurrences_of_a: entry.occurrences,
                co_occurrences: entry.partners[m].count,
                example_location: entry.partners[m].example.clone(),
            };
            if entry.occurrences >= min_occurrences && convention.holds(min_share) {
                let ghost next = convention@;
                proof {
                    assert(listed.push(next) =~= before + conventions_with(
                        entry@,
                        partners.take(m as int),
                        min,
                        share,
                    ).push(next));
                    assert(listed.push(next).drop_last() =~= listed);
                    listed = listed.push(next);
                }
                insert_ranked(&mut found, convention);
            }
            m += 1;
        }
        proof {
            assert(partners.take(partners.len() as int) =~= partners);
        }
        i += 1;
    }
    proof {
        assert(all.take(all.len() as int) =~= all);
    }
    found
}

/// The conventions of files: every pair of methods where the one has enough
/// calls and a large enough share of them is accompanied by the other, ranked by
/// that share. The share is in millionths.
pub fn mine_call_pair_conventions(files: &Vec<SourceFile>, min_occurrences: usize, min_share: u32) -> (found:
    Vec<CallPairConvention>)
    ensures
        text::views(found@) == ranked(
            conventions_in(
                table_of(events_of(text::views(files@))),
                min_occurrences as nat,
                min_share as nat,
            ),
        ),
{
    let events: Vec<CallEvent> = call_events(files);
    proof {
        lemma_events_near_once(text::views(files@));
        assert forall|i: int| 0 <= i < events@.len() implies text::views(
            (#[trigger] events@[i]).near@,
        ).no_duplicates() by {
            assert(text::views(events@)[i].near.no_duplicates());
        }
    }
    let table: Vec<Entry> = build_table(&events);
    conventions_in_table(&table, min_occurrences, min_share)
}

proof fn lemma_events_near_once(files: Seq<SourceView>)
    ensures
        forall|i: int|
            0 <= i < events_of(files).len() ==> (#[trigger] events_of(
                files,
            )[i]).near.no_duplicates(),
    decreases files.len(),
{
    if files.len() > 0 {
        lemma_events_near_once(files.drop_last());
        let rest = events_of(files.drop_last());
        let sites = sites_of(text::lines_of(files.last().content));
        assert forall|i: int| 0 <= i < events_of(files).len() implies (#[trigger] events_of(
            files,
        )[i]).near.no_duplicates() by {
            if i < rest.len() {
                assert(events_of(files)[i] == rest[i]);
            } else {
                text::distinct_is_the_set(
                    names_near(sites, i - rest.len(), i - rest.len() + 1),
                );
            }
        }
    }
}

/// How many calls of a method there are.
pub open spec fn calls_of(events: Seq<EventView>, a: Seq<char>) -> nat
    decreases events.len(),
{
    if events.len() == 0 {
        0
    } else {
        calls_of(events.drop_last(), a) + if events.last().name == a {
            1nat
        } else {
            0
        }
    }
}

/// A call of `a` that `b` accompanies.
pub open spec fn is_pair(event: EventView, a: Seq<char>, b: Seq<char>) -> bool {
    event.name == a && event.near.contains(b)
}

/// How many calls of `a` are accompanied by `b`.
pub open spec fn pairs_of(events: Seq<EventView>, a: Seq<char>, b: Seq<char>) -> nat
    decreases events.len(),
{
    if events.len() == 0 {
        0
    } else {
        pairs_of(events.drop_last(), a, b) + if is_pair(events.last(), a, b) {
            1nat
        } else {
            0
        }
    }
}

/// Where a call of `a` is first accompanied by `b`.
pub open spec fn first_pair(events: Seq<EventView>, a: Seq<char>, b: Seq<char>) -> Option<Seq<char>>
    decreases events.len(),
{
    if events.len() == 0 {
        None
    } else {
        match first_pair(events.drop_last(), a, b) {
            Some(location) => Some(location),
            None => if is_pair(events.last(), a, b) {
                Some(events.last().location)
            } else {
                None
            },
        }
    }
}

/// What there is of one pair of methods in files, if the one is called at all,
/// and often enough.
pub fn consistency_for_pair(
    files: &Vec<SourceFile>,
    call_a: &str,
    call_b: &str,
    min_occurrences: usize,
) -> (convention: Option<CallPairConvention>)
    ensures
        ({
            let events = events_of(text::views(files@));
            match convention {
                Some(c) => {
                    &&& calls_of(events, call_a@) > 0
                    &&& calls_of(events, call_a@) >= min_occurrences
                    &&& c@ == pair_in(events, call_a@, call_b@)
                },
                None => {
                    ||| calls_of(events, call_a@) == 0
                    ||| calls_of(events, call_a@) < min_occurrences
                },
            }
        }),
{
    let events: Vec<CallEvent> = call_events(files);
    let ghost all = text::views(events@);
    let mut calls: usize = 0;
    let mut pairs: usize = 0;
    let mut example: Option<String> = None;
    let mut i: usize = 0;
    while i < events.len()
        invariant
            0 <= i <= events@.len(),
            all == text::views(events@),
            calls == calls_of(all.take(i as int), call_a@),
            pairs == pairs_of(all.take(i as int), call_a@, call_b@),
            text::optional(example) == first_pair(all.take(i as int), call_a@, call_b@),
            calls <= i,
            pairs <= i,
        decreases events.len() - i,
    {
        proof {
            assert(all.take(i + 1).drop_last() =~= all.take(i as int));
            assert(all.take(i + 1).last() == events@[i as int]@);
        }
        if text::same(events[i].name.as_str(), call_a) {
            calls += 1;
            if text::contains_text(&events[i].near, call_b) {
                pairs += 1;
                if example.is_none() {
                    example = Some(events[i].location.clone());
                }
            }
        }
        i += 1;
    }
    proof {
        assert(all.take(all.len() as int) =~= all);
    }
    if calls == 0 || calls < min_occurrences {
        return None;
    }
    let location: String = match example {
        Some(location) => location,
        None => String::new(),
    };
    proof {
        assert(first_pair(all, call_a@, call_b@) is None ==> location@ =~= Seq::empty());
    }
    Some(
        CallPairConvention {
            call_a: call_a.to_owned(),
            call_b: call_b.to_owned(),
            occurrences_of_a: calls,
            co_occurrences: pairs,
            example_location: location,
        },
    )
}

/// What there is of one pair of methods.
pub open spec fn pair_in(events: Seq<EventView>, a: Seq<char>, b: Seq<char>) -> ConventionView {
    ConventionView {
        call_a: a,
        call_b: b,
        occurrences_of_a: calls_of(events, a),
        co_occurrences: pairs_of(events, a, b),
        example_location: match first_pair(events, a, b) {
            Some(location) => location,
            None => Seq::empty(),
        },
    }
}

/// The first partner of a name.
spec fn partner_named(partners: Seq<PartnerView>, name: Seq<char>) -> Option<PartnerView>
    decreases partners.len(),
{
    if partners.len() == 0 {
        None
    } else if partners[0].name == name {
        Some(partners[0])
    } else {
        partner_named(partners.drop_first(), name)
    }
}

/// The first entry of a name.
spec fn entry_named(table: Seq<EntryView>, name: Seq<char>) -> Option<EntryView>
    decreases table.len(),
{
    if table.len() == 0 {
        None
    } else if table[0].name == name {
        Some(table[0])
    } else {
        entry_named(table.drop_first(), name)
    }
}

/// A partner that is there once more.
spec fn once_more(partner: Option<PartnerView>, name: Seq<char>, location: Seq<char>) -> PartnerView {
    match partner {
        Some(p) => PartnerView { count: p.count + 1, ..p },
        None => PartnerView { name, count: 1, example: location },
    }
}

proof fn lemma_partner_after(
    partners: Seq<PartnerView>,
    name: Seq<char>,
    location: Seq<char>,
    b: Seq<char>,
)
    ensures
        partner_named(with_partner(partners, name, location), b) == if b == name {
            Some(once_more(partner_named(partners, b), name, location))
        } else {
            partner_named(partners, b)
        },
    decreases partners.len(),
{
    let after = with_partner(partners, name, location);
    if partners.len() == 0 {
        assert(after.drop_first() =~= Seq::empty());
    } else if partners[0].name == name {
        assert(after.drop_first() =~= partners.drop_first());
    } else {
        let rest = partners.drop_first();
        lemma_partner_after(rest, name, location, b);
        assert(after.drop_first() =~= with_partner(rest, name, location));
        assert(after[0] == partners[0]);
    }
}

proof fn lemma_partner_after_all(
    partners: Seq<PartnerView>,
    own: Seq<char>,
    near: Seq<Seq<char>>,
    location: Seq<char>,
    b: Seq<char>,
)
    requires
        near.no_duplicates(),
    ensures
        partner_named(with_partners(partners, own, near, location), b) == if b != own
            && near.contains(b) {
            Some(once_more(partner_named(partners, b), b, location))
        } else {
            partner_named(partners, b)
        },
    decreases near.len(),
{
    if near.len() > 0 {
        let head = near.drop_last();
        assert(head.no_duplicates());
        lemma_partner_after_all(partners, own, head, location, b);
        assert(near =~= head.push(near.last()));
        text::lemma_push_contains(head, near.last(), b);
        assert(!head.contains(near.last())) by {
            if head.contains(near.last()) {
                let m = choose|m: int| 0 <= m < head.len() && head[m] == near.last();
                assert(near[m] == near[near.len() - 1]);
            }
        }
        lemma_partner_after(
            with_partners(partners, own, head, location),
            near.last(),
            location,
            b,
        );
    }
}

proof fn lemma_entry_after(table: Seq<EntryView>, event: EventView, a: Seq<char>)
    ensures
        entry_named(with_event(table, event), a) == if a == event.name {
            Some(
                match entry_named(table, a) {
                    Some(entry) => entry_with(entry, event),
                    None => EntryView {
                        name: event.name,
                        occurrences: 1,
                        partners: with_partners(
                            Seq::empty(),
                            event.name,
                            event.near,
                            event.location,
                        ),
                    },
                },
            )
        } else {
            entry_named(table, a)
        },
    decreases table.len(),
{
    let after = with_event(table, event);
    if table.len() == 0 {
        assert(after.drop_first() =~= Seq::empty());
    } else if table[0].name == event.name {
        assert(after.drop_first() =~= table.drop_first());
    } else {
        let rest = table.drop_first();
        lemma_entry_after(rest, event, a);
        assert(after.drop_first() =~= with_event(rest, event));
        assert(after[0] == table[0]);
    }
}

/// Every event names each call that accompanies it once.
pub open spec fn named_once(events: Seq<EventView>) -> bool {
    forall|i: int| 0 <= i < events.len() ==> (#[trigger] events[i]).near.no_duplicates()
}

/// What the table says of a method and a partner.
spec fn entry_is_right(events: Seq<EventView>, a: Seq<char>, b: Seq<char>) -> bool {
    match entry_named(table_of(events), a) {
        Some(entry) => {
            &&& entry.name == a
            &&& entry.occurrences == calls_of(events, a)
            &&& entry.occurrences > 0
            &&& partner_named(entry.partners, b) == if a == b || pairs_of(events, a, b) == 0 {
                None
            } else {
                Some(
                    PartnerView {
                        name: b,
                        count: pairs_of(events, a, b),
                        example: first_pair(events, a, b)->Some_0,
                    },
                )
            }
        },
        None => calls_of(events, a) == 0 && pairs_of(events, a, b) == 0,
    }
}

proof fn lemma_first_pair(events: Seq<EventView>, a: Seq<char>, b: Seq<char>)
    ensures
        first_pair(events, a, b) is Some <==> pairs_of(events, a, b) > 0,
    decreases events.len(),
{
    if events.len() > 0 {
        lemma_first_pair(events.drop_last(), a, b);
    }
}

proof fn lemma_entry_is_right(events: Seq<EventView>, a: Seq<char>, b: Seq<char>)
    requires
        named_once(events),
    ensures
        entry_is_right(events, a, b),
    decreases events.len(),
{
    if events.len() > 0 {
        let head = events.drop_last();
        let event = events.last();
        assert(named_once(head));
        assert(events[events.len() - 1].near.no_duplicates());
        lemma_entry_is_right(head, a, b);
        lemma_entry_after(table_of(head), event, a);
        lemma_first_pair(head, a, b);
        lemma_first_pair(events, a, b);
        let partners = match entry_named(table_of(head), a) {
            Some(entry) => entry.partners,
            None => Seq::empty(),
        };
        lemma_partner_after_all(partners, a, event.near, event.location, b);
    }
}

/// No two entries have one name.
spec fn names_differ(table: Seq<EntryView>) -> bool {
    forall|i: int, j: int| 0 <= i < j < table.len() ==> #[trigger] table[i].name != #[trigger] table[j].name
}

/// No two partners have one name.
spec fn partners_differ(partners: Seq<PartnerView>) -> bool {
    forall|i: int, j: int|
        0 <= i < j < partners.len() ==> #[trigger] partners[i].name != #[trigger] partners[j].name
}

proof fn lemma_partner_at(partners: Seq<PartnerView>, k: int)
    requires
        partners_differ(partners),
        0 <= k < partners.len(),
    ensures
        partner_named(partners, partners[k].name) == Some(partners[k]),
    decreases partners.len(),
{
    if k > 0 {
        let rest = partners.drop_first();
        assert(rest[k - 1] == partners[k]);
        assert forall|i: int, j: int| 0 <= i < j < rest.len() implies #[trigger] rest[i].name
            != #[trigger] rest[j].name by {
            assert(rest[i] == partners[i + 1] && rest[j] == partners[j + 1]);
        }
        assert(partners[0].name != partners[k].name);
        lemma_partner_at(rest, k - 1);
    }
}

proof fn lemma_entry_at(table: Seq<EntryView>, k: int)
    requires
        names_differ(table),
        0 <= k < table.len(),
    ensures
        entry_named(table, table[k].name) == Some(table[k]),
    decreases table.len(),
{
    if k > 0 {
        let rest = table.drop_first();
        assert(rest[k - 1] == table[k]);
        assert forall|i: int, j: int| 0 <= i < j < rest.len() implies #[trigger] rest[i].name
            != #[trigger] rest[j].name by {
            assert(rest[i] == table[i + 1] && rest[j] == table[j + 1]);
        }
        assert(table[0].name != table[k].name);
        lemma_entry_at(rest, k - 1);
    }
}

proof fn lemma_first_partner(partners: Seq<PartnerView>, name: Seq<char>) -> (k: int)
    ensures
        0 <= k <= partners.len(),
        forall|j: int| 0 <= j < k ==> (#[trigger] partners[j]).name != name,
        k < partners.len() ==> partners[k].name == name,
        partner_named(partners, name) == if k < partners.len() {
            Some(partners[k])
        } else {
            None
        },
    decreases partners.len(),
{
    if partners.len() == 0 || partners[0].name == name {
        0
    } else {
        let rest = partners.drop_first();
        let k = lemma_first_partner(rest, name);
        assert forall|j: int| 0 <= j < k + 1 implies (#[trigger] partners[j]).name != name by {
            if j > 0 {
                assert(partners[j] == rest[j - 1]);
            }
        }
        if k < rest.len() {
            assert(rest[k] == partners[k + 1]);
        }
        k + 1
    }
}

proof fn lemma_first_entry(table: Seq<EntryView>, name: Seq<char>) -> (k: int)
    ensures
        0 <= k <= table.len(),
        forall|j: int| 0 <= j < k ==> (#[trigger] table[j]).name != name,
        k < table.len() ==> table[k].name == name,
        entry_named(table, name) == if k < table.len() {
            Some(table[k])
        } else {
            None
        },
    decreases table.len(),
{
    if table.len() == 0 || table[0].name == name {
        0
    } else {
        let rest = table.drop_first();
        let k = lemma_first_entry(rest, name);
        assert forall|j: int| 0 <= j < k + 1 implies (#[trigger] table[j]).name != name by {
            if j > 0 {
                assert(table[j] == rest[j - 1]);
            }
        }
        if k < rest.len() {
            assert(rest[k] == table[k + 1]);
        }
        k + 1
    }
}

proof fn lemma_partners_stay_different(
    partners: Seq<PartnerView>,
    own: Seq<char>,
    near: Seq<Seq<char>>,
    location: Seq<char>,
)
    requires
        partners_differ(partners),
    ensures
        partners_differ(with_partners(partners, own, near, location)),
    decreases near.len(),
{
    if near.len() > 0 {
        lemma_partners_stay_different(partners, own, near.drop_last(), location);
        let before = with_partners(partners, own, near.drop_last(), location);
        let k = lemma_first_partner(before, near.last());
        lemma_with_partner(before, near.last(), location, k);
    }
}

proof fn lemma_table_is_sound(events: Seq<EventView>)
    ensures
        names_differ(table_of(events)),
        forall|k: int|
            0 <= k < table_of(events).len() ==> partners_differ(
                (#[trigger] table_of(events)[k]).partners,
            ),
    decreases events.len(),
{
    if events.len() > 0 {
        let head = events.drop_last();
        let event = events.last();
        lemma_table_is_sound(head);
        let before = table_of(head);
        let k = lemma_first_entry(before, event.name);
        lemma_with_event(before, event, k);
        let empty: Seq<PartnerView> = Seq::empty();
        lemma_partners_stay_different(empty, event.name, event.near, event.location);
        if k < before.len() {
            assert(partners_differ(before[k].partners));
            lemma_partners_stay_different(
                before[k].partners,
                before[k].name,
                event.near,
                event.location,
            );
        }
        let after = table_of(events);
        assert forall|j: int| 0 <= j < after.len() implies partners_differ(
            (#[trigger] after[j]).partners,
        ) by {
            if j < before.len() && j != k {
                assert(after[j] == before[j]);
            }
        }
        assert forall|i: int, j: int| 0 <= i < j < after.len() implies #[trigger] after[i].name
            != #[trigger] after[j].name by {
            if j < before.len() {
                assert(after[i].name == before[i].name && after[j].name == before[j].name);
            } else {
                assert(after[i].name == before[i].name);
            }
        }
    }
}

/// What a mined convention is: what there is of its two methods in the events,
/// with enough calls, of which a large enough share is accompanied.
pub open spec fn is_convention(
    events: Seq<EventView>,
    c: ConventionView,
    min_occurrences: nat,
    min_share: nat,
) -> bool {
    &&& c.call_a != c.call_b
    &&& c == pair_in(events, c.call_a, c.call_b)
    &&& c.co_occurrences > 0
    &&& c.occurrences_of_a >= min_occurrences
    &&& c.holds_for(min_share)
}

proof fn lemma_conventions_with(
    entry: EntryView,
    partners: Seq<PartnerView>,
    min_occurrences: nat,
    min_share: nat,
    i: int,
) -> (m: int)
    requires
        0 <= i < conventions_with(entry, partners, min_occurrences, min_share).len(),
    ensures
        0 <= m < partners.len(),
        conventions_with(entry, partners, min_occurrences, min_share)[i] == convention_of(
            entry,
            partners[m],
        ),
        entry.occurrences >= min_occurrences,
        convention_of(entry, partners[m]).holds_for(min_share),
    decreases partners.len(),
{
    let rest = conventions_with(entry, partners.drop_last(), min_occurrences, min_share);
    if i < rest.len() {
        lemma_conventions_with(entry, partners.drop_last(), min_occurrences, min_share, i)
    } else {
        partners.len() - 1
    }
}

proof fn lemma_conventions_in(
    table: Seq<EntryView>,
    min_occurrences: nat,
    min_share: nat,
    i: int,
) -> (at: (int, int))
    requires
        0 <= i < conventions_in(table, min_occurrences, min_share).len(),
    ensures
        0 <= at.0 < table.len(),
        0 <= at.1 < table[at.0].partners.len(),
        conventions_in(table, min_occurrences, min_share)[i] == convention_of(
            table[at.0],
            table[at.0].partners[at.1],
        ),
        table[at.0].occurrences >= min_occurrences,
        convention_of(table[at.0], table[at.0].partners[at.1]).holds_for(min_share),
    decreases table.len(),
{
    let rest = conventions_in(table.drop_last(), min_occurrences, min_share);
    if i < rest.len() {
        lemma_conventions_in(table.drop_last(), min_occurrences, min_share, i)
    } else {
        let m = lemma_conventions_with(
            table.last(),
            table.last().partners,
            min_occurrences,
            min_share,
            i - rest.len(),
        );
        (table.len() - 1, m)
    }
}

/// Every convention that is mined says of its two methods exactly what there is
/// of them in the files, and clears both thresholds.
pub proof fn mined_conventions_are_real(
    events: Seq<EventView>,
    min_occurrences: nat,
    min_share: nat,
    i: int,
)
    requires
        named_once(events),
        0 <= i < conventions_in(table_of(events), min_occurrences, min_share).len(),
    ensures
        is_convention(
            events,
            conventions_in(table_of(events), min_occurrences, min_share)[i],
            min_occurrences,
            min_share,
        ),
{
    let table = table_of(events);
    let (k, m) = lemma_conventions_in(table, min_occurrences, min_share, i);
    lemma_table_is_sound(events);
    let entry = table[k];
    let partner = entry.partners[m];
    lemma_entry_at(table, k);
    assert(partners_differ(entry.partners));
    lemma_partner_at(entry.partners, m);
    lemma_entry_is_right(events, entry.name, partner.name);
    lemma_first_pair(events, entry.name, partner.name);
}

proof fn lemma_conventions_with_all(
    entry: EntryView,
    partners: Seq<PartnerView>,
    min_occurrences: nat,
    min_share: nat,
    m: int,
)
    requires
        0 <= m < partners.len(),
        entry.occurrences >= min_occurrences,
        convention_of(entry, partners[m]).holds_for(min_share),
    ensures
        conventions_with(entry, partners, min_occurrences, min_share).contains(
            convention_of(entry, partners[m]),
        ),
    decreases partners.len(),
{
    let c = convention_of(entry, partners[m]);
    let rest = conventions_with(entry, partners.drop_last(), min_occurrences, min_share);
    if m < partners.len() - 1 {
        lemma_conventions_with_all(entry, partners.drop_last(), min_occurrences, min_share, m);
        text::lemma_push_contains(rest, convention_of(entry, partners.last()), c);
    } else {
        text::lemma_push_contains(rest, c, c);
    }
}

proof fn lemma_conventions_in_all(
    table: Seq<EntryView>,
    min_occurrences: nat,
    min_share: nat,
    k: int,
    m: int,
)
    requires
        0 <= k < table.len(),
        0 <= m < table[k].partners.len(),
        table[k].occurrences >= min_occurrences,
        convention_of(table[k], table[k].partners[m]).holds_for(min_share),
    ensures
        conventions_in(table, min_occurrences, min_share).contains(
            convention_of(table[k], table[k].partners[m]),
        ),
    decreases table.len(),
{
    let c = convention_of(table[k], table[k].partners[m]);
    let rest = conventions_in(table.drop_last(), min_occurrences, min_share);
    let last = conventions_with(
        table.last(),
        table.last().partners,
        min_occurrences,
        min_share,
    );
    if k < table.len() - 1 {
        lemma_conventions_in_all(table.drop_last(), min_occurrences, min_share, k, m);
        let i = choose|i: int| 0 <= i < rest.len() && rest[i] == c;
        assert((rest + last)[i] == c);
    } else {
        lemma_conventions_with_all(
            table.last(),
            table.last().partners,
            min_occurrences,
            min_share,
            m,
        );
        let i = choose|i: int| 0 <= i < last.len() && last[i] == c;
        assert((rest + last)[rest.len() + i] == c);
    }
}

/// Every pair of methods that occurs in the files and clears both thresholds is
/// mined.
pub proof fn every_convention_is_mined(
    events: Seq<EventView>,
    a: Seq<char>,
    b: Seq<char>,
    min_occurrences: nat,
    min_share: nat,
)
    requires
        named_once(events),
        is_convention(events, pair_in(events, a, b), min_occurrences, min_share),
    ensures
        conventions_in(table_of(events), min_occurrences, min_share).contains(
            pair_in(events, a, b),
        ),
{
    let table = table_of(events);
    lemma_entry_is_right(events, a, b);
    lemma_first_pair(events, a, b);
    let k = lemma_first_entry(table, a);
    let entry = table[k];
    let m = lemma_first_partner(entry.partners, b);
    assert(convention_of(entry, entry.partners[m]) == pair_in(events, a, b));
    lemma_conventions_in_all(table, min_occurrences, min_share, k, m);
}

/// The events of files name each call that accompanies a call once.
pub proof fn events_name_each_call_once(files: Seq<SourceView>)
    ensures
        named_once(events_of(files)),
{
    lemma_events_near_once(files);
}

proof fn lemma_ranked_with_ordered(list: Seq<ConventionView>, c: ConventionView)
    requires
        in_order(list),
        c.occurrences_of_a > 0,
        forall|i: int| 0 <= i < list.len() ==> (#[trigger] list[i]).occurrences_of_a > 0,
    ensures
        in_order(ranked_with(list, c)),
        ranked_with(list, c).len() == list.len() + 1,
        forall|i: int|
            0 <= i < list.len() + 1 ==> (#[trigger] ranked_with(list, c)[i]).occurrences_of_a > 0,
        forall|x: ConventionView| #[trigger]
            ranked_with(list, c).contains(x) <==> x == c || list.contains(x),
    decreases list.len(),
{
    let after = ranked_with(list, c);
    if list.len() == 0 || c.above(list[0]) {
        assert(after =~= seq![c] + list);
        assert forall|i: int| 0 <= i < after.len() - 1 implies !#[trigger] after[i + 1].above(
            after[i],
        ) by {
            if i == 0 {
                lemma_above_is_strict(c, list[0]);
            } else {
                assert(after[i] == list[i - 1] && after[i + 1] == list[i - 1 + 1]);
            }
        }
        assert forall|x: ConventionView| #[trigger] after.contains(x) <==> x == c || list.contains(
            x,
        ) by {
            assert(after[0] == c);
            if list.contains(x) {
                let i = choose|i: int| 0 <= i < list.len() && list[i] == x;
                assert(after[i + 1] == x);
            }
        }
    } else {
        let rest = list.drop_first();
        assert forall|i: int| 0 <= i < rest.len() - 1 implies !#[trigger] rest[i + 1].above(
            rest[i],
        ) by {
            assert(rest[i + 1] == list[i + 1 + 1] && rest[i] == list[i + 1]);
        }
        assert forall|i: int| 0 <= i < rest.len() implies (
        #[trigger] rest[i]).occurrences_of_a > 0 by {
            assert(rest[i] == list[i + 1]);
        }
        lemma_ranked_with_ordered(rest, c);
        let tail = ranked_with(rest, c);
        assert(after =~= seq![list[0]] + tail);
        assert(tail[0] == c || tail[0] == rest[0]) by {
            if rest.len() > 0 && !c.above(rest[0]) {
                assert(tail[0] == rest[0]);
            }
        }
        assert forall|i: int| 0 <= i < after.len() - 1 implies !#[trigger] after[i + 1].above(
            after[i],
        ) by {
            if i == 0 {
                if tail[0] != c {
                    assert(rest[0] == list[1]);
                    assert(!list[0int + 1].above(list[0]));
                }
            } else {
                assert(after[i] == tail[i - 1] && after[i + 1] == tail[i - 1 + 1]);
            }
        }
        assert forall|i: int| 0 <= i < after.len() implies (
        #[trigger] after[i]).occurrences_of_a > 0 by {
            if i > 0 {
                assert(after[i] == tail[i - 1]);
            }
        }
        assert forall|x: ConventionView| #[trigger] after.contains(x) <==> x == c || list.contains(
            x,
        ) by {
            assert(list[0] == after[0]);
            if after.contains(x) {
                let i = choose|i: int| 0 <= i < after.len() && after[i] == x;
                if i > 0 {
                    assert(tail[i - 1] == x);
                    assert(tail.contains(x));
                    if rest.contains(x) {
                        let j = choose|j: int| 0 <= j < rest.len() && rest[j] == x;
                        assert(list[j + 1] == x);
                    }
                }
            }
            if x == c || list.contains(x) {
                if x != c {
                    let j = choose|j: int| 0 <= j < list.len() && list[j] == x;
                    if j > 0 {
                        assert(rest[j - 1] == x);
                    }
                }
                if !(list[0] == x) {
                    assert(tail.contains(x));
                    let i = choose|i: int| 0 <= i < tail.len() && tail[i] == x;
                    assert(after[i + 1] == x);
                }
            }
        }
    }
}

proof fn lemma_above_is_strict(x: ConventionView, y: ConventionView)
    requires
        x.above(y),
    ensures
        !y.above(x),
{
}

/// No convention in a list is above the one before it.
pub open spec fn in_order(list: Seq<ConventionView>) -> bool {
    forall|i: int| 0 <= i < list.len() - 1 ==> !#[trigger] list[i + 1].above(list[i])
}

/// Ranking puts conventions in order, and neither adds nor loses any.
pub proof fn ranking_sorts(conventions: Seq<ConventionView>)
    requires
        forall|i: int|
            0 <= i < conventions.len() ==> (#[trigger] conventions[i]).occurrences_of_a > 0,
    ensures
        in_order(ranked(conventions)),
        ranked(conventions).len() == conventions.len(),
        forall|i: int|
            0 <= i < conventions.len() ==> (#[trigger] ranked(conventions)[i]).occurrences_of_a > 0,
        forall|x: ConventionView| #[trigger]
            ranked(conventions).contains(x) <==> conventions.contains(x),
    decreases conventions.len(),
{
    if conventions.len() > 0 {
        let head = conventions.drop_last();
        assert forall|i: int| 0 <= i < head.len() implies (
        #[trigger] head[i]).occurrences_of_a > 0 by {
            assert(head[i] == conventions[i]);
        }
        ranking_sorts(head);
        assert(conventions[conventions.len() - 1].occurrences_of_a > 0);
        lemma_ranked_with_ordered(ranked(head), conventions.last());
        assert(conventions =~= head.push(conventions.last()));
        assert forall|x: ConventionView| #[trigger]
            ranked(conventions).contains(x) <==> conventions.contains(x) by {
            text::lemma_push_contains(head, conventions.last(), x);
        }
    }
}

/// No two conventions of a list are of one pair of methods.
pub open spec fn pairs_differ(list: Seq<ConventionView>) -> bool {
    forall|i: int, j: int|
        0 <= i < j < list.len() ==> (#[trigger] list[i]).call_a != (#[trigger] list[j]).call_a
            || list[i].call_b != list[j].call_b
}

proof fn lemma_pairs_of_entry(
    entry: EntryView,
    partners: Seq<PartnerView>,
    min_occurrences: nat,
    min_share: nat,
)
    requires
        partners_differ(partners),
    ensures
        pairs_differ(conventions_with(entry, partners, min_occurrences, min_share)),
    decreases partners.len(),
{
    if partners.len() > 0 {
        let head = partners.drop_last();
        assert(partners_differ(head)) by {
            assert forall|i: int, j: int| 0 <= i < j < head.len() implies #[trigger] head[i].name
                != #[trigger] head[j].name by {
                assert(head[i] == partners[i] && head[j] == partners[j]);
            }
        }
        lemma_pairs_of_entry(entry, head, min_occurrences, min_share);
        let rest = conventions_with(entry, head, min_occurrences, min_share);
        let all = conventions_with(entry, partners, min_occurrences, min_share);
        assert forall|i: int, j: int| 0 <= i < j < all.len() implies (#[trigger] all[i]).call_a != (
        #[trigger] all[j]).call_a || all[i].call_b != all[j].call_b by {
            assert(all[i] == rest[i]);
            if j < rest.len() {
                assert(all[j] == rest[j]);
            } else {
                let m = lemma_conventions_with(entry, head, min_occurrences, min_share, i);
                assert(head[m] == partners[m]);
                assert(partners[m].name != partners[partners.len() - 1].name);
            }
        }
    }
}

proof fn lemma_pairs_of_table(table: Seq<EntryView>, min_occurrences: nat, min_share: nat)
    requires
        names_differ(table),
        forall|k: int| 0 <= k < table.len() ==> partners_differ((#[trigger] table[k]).partners),
    ensures
        pairs_differ(conventions_in(table, min_occurrences, min_share)),
    decreases table.len(),
{
    if table.len() > 0 {
        let head = table.drop_last();
        assert(names_differ(head)) by {
            assert forall|i: int, j: int| 0 <= i < j < head.len() implies #[trigger] head[i].name
                != #[trigger] head[j].name by {
                assert(head[i] == table[i] && head[j] == table[j]);
            }
        }
        assert forall|k: int| 0 <= k < head.len() implies partners_differ(
            (#[trigger] head[k]).partners,
        ) by {
            assert(head[k] == table[k]);
        }
        lemma_pairs_of_table(head, min_occurrences, min_share);
        let last = table.last();
        assert(partners_differ(table[table.len() - 1].partners));
        lemma_pairs_of_entry(last, last.partners, min_occurrences, min_share);
        let rest = conventions_in(head, min_occurrences, min_share);
        let more = conventions_with(last, last.partners, min_occurrences, min_share);
        let all = rest + more;
        assert forall|i: int, j: int| 0 <= i < j < all.len() implies (#[trigger] all[i]).call_a != (
        #[trigger] all[j]).call_a || all[i].call_b != all[j].call_b by {
            if j < rest.len() {
                assert(all[i] == rest[i] && all[j] == rest[j]);
            } else if i >= rest.len() {
                assert(all[i] == more[i - rest.len()] && all[j] == more[j - rest.len()]);
            } else {
                let (k, _) = lemma_conventions_in(head, min_occurrences, min_share, i);
                let m = lemma_conventions_with(
                    last,
                    last.partners,
                    min_occurrences,
                    min_share,
                    j - rest.len(),
                );
                assert(all[i] == rest[i] && all[j] == more[j - rest.len()]);
                assert(head[k] == table[k]);
                assert(table[k].name != table[table.len() - 1].name);
            }
        }
    }
}

proof fn lemma_ranked_place(list: Seq<ConventionView>, c: ConventionView) -> (k: int)
    ensures
        0 <= k <= list.len(),
        ranked_with(list, c) == list.insert(k, c),
    decreases list.len(),
{
    if list.len() == 0 || c.above(list[0]) {
        assert(ranked_with(list, c) =~= list.insert(0, c));
        0
    } else {
        let k = lemma_ranked_place(list.drop_first(), c);
        assert(ranked_with(list, c) =~= list.insert(k + 1, c));
        k + 1
    }
}

proof fn lemma_ranking_keeps_pairs(conventions: Seq<ConventionView>)
    requires
        pairs_differ(conventions),
    ensures
        pairs_differ(ranked(conventions)),
        forall|i: int|
            0 <= i < ranked(conventions).len() ==> conventions.contains(
                #[trigger] ranked(conventions)[i],
            ),
    decreases conventions.len(),
{
    if conventions.len() > 0 {
        let head = conventions.drop_last();
        let c = conventions.last();
        assert(pairs_differ(head)) by {
            assert forall|i: int, j: int| 0 <= i < j < head.len() implies (
            #[trigger] head[i]).call_a != (#[trigger] head[j]).call_a || head[i].call_b
                != head[j].call_b by {
                assert(head[i] == conventions[i] && head[j] == conventions[j]);
            }
        }
        lemma_ranking_keeps_pairs(head);
        let before = ranked(head);
        let k = lemma_ranked_place(before, c);
        let after = ranked(conventions);
        assert(after == before.insert(k, c));
        assert forall|i: int| 0 <= i < before.len() implies conventions.contains(
            #[trigger] before[i],
        ) && (before[i].call_a != c.call_a || before[i].call_b != c.call_b) by {
            let j = choose|j: int| 0 <= j < head.len() && head[j] == before[i];
            assert(conventions[j] == before[i]);
            assert(conventions[conventions.len() - 1] == c);
        }
        assert forall|i: int| 0 <= i < after.len() implies conventions.contains(
            #[trigger] after[i],
        ) by {
            if i < k {
                assert(after[i] == before[i]);
            } else if i == k {
                assert(conventions[conventions.len() - 1] == after[i]);
            } else {
                assert(after[i] == before[i - 1]);
            }
        }
        assert forall|i: int, j: int| 0 <= i < j < after.len() implies (
        #[trigger] after[i]).call_a != (#[trigger] after[j]).call_a || after[i].call_b
            != after[j].call_b by {
            let x = if i < k {
                i
            } else {
                i - 1
            };
            let y = if j < k {
                j
            } else {
                j - 1
            };
            assert(i != k ==> after[i] == before[x]);
            assert(j != k ==> after[j] == before[y]);
        }
    }
}

/// No pair of methods is mined twice.
pub proof fn no_pair_is_mined_twice(
    files: Seq<SourceView>,
    min_occurrences: nat,
    min_share: nat,
)
    ensures
        pairs_differ(
            ranked(conventions_in(table_of(events_of(files)), min_occurrences, min_share)),
        ),
{
    let table = table_of(events_of(files));
    lemma_table_is_sound(events_of(files));
    lemma_pairs_of_table(table, min_occurrences, min_share);
    lemma_ranking_keeps_pairs(conventions_in(table, min_occurrences, min_share));
}

/// A method call stands behind a dot: a name of letters, digits and underscores that
/// begins with no digit, and an opening parenthesis. The search goes on behind the
/// name.
pub proof fn calls_stand_behind_dots(line: Seq<char>, i: int, end: int)
    requires
        0 <= i < line.len(),
    ensures
        line[i] != '.' ==> calls_from(line, i) == calls_from(line, i + 1),
        line[i] == '.' && i < end <= line.len() && (forall|k: int|
            i < k < end ==> is_name_char(#[trigger] line[k])) && (end < line.len() ==> !is_name_char(
            line[end],
        )) ==> {
            let called = i + 1 < end < line.len() && line[end] == '(' && !(0x30
                <= line[i + 1] as u32 <= 0x39);
            &&& called ==> calls_from(line, i) == seq![line.subrange(i + 1, end)] + calls_from(
                line,
                end,
            )
            &&& !called ==> calls_from(line, i) == calls_from(line, end)
        },
        calls_from(line, line.len() as int).len() == 0,
{
    if line[i] == '.' && i < end <= line.len() && (forall|k: int|
        i < k < end ==> is_name_char(#[trigger] line[k])) && (end < line.len() ==> !is_name_char(
        line[end],
    )) {
        lemma_name_end_here(line, i + 1, end);
        let none = Seq::<Seq<char>>::empty();
        let first = if is_call(line, i + 1, end) {
            seq![line.subrange(i + 1, end)]
        } else {
            none
        };
        assert(calls_from(line, i) == first + calls_from(line, end));
        assert(none + calls_from(line, end) =~= calls_from(line, end));
    }
}

proof fn lemma_name_end_here(line: Seq<char>, i: int, end: int)
    requires
        0 <= i <= end <= line.len(),
        forall|k: int| i <= k < end ==> is_name_char(#[trigger] line[k]),
        end < line.len() ==> !is_name_char(line[end]),
    ensures
        name_end(line, i) == end,
    decreases end - i,
{
    if i < end {
        assert(is_name_char(line[i]));
        lemma_name_end_here(line, i + 1, end);
    }
}

/// The characters of a name.
pub proof fn names_are_made_of_these(c: char)
    ensures
        is_name_char(c) <==> 'a' <= c <= 'z' || 'A' <= c <= 'Z' || '0' <= c <= '9' || c == '_',
{
}

/// The calls of a file are those of its lines, in order, each on its own line; lines
/// are counted from one.
pub proof fn calls_are_counted_by_lines(lines: Seq<Seq<char>>, line: Seq<char>)
    ensures
        ({
            let (was, is) = (sites_of(lines), sites_of(lines.push(line)));
            let new = calls_from(line, 0);
            &&& is.len() == was.len() + new.len()
            &&& is.take(was.len() as int) == was
            &&& forall|k: int|
                0 <= k < new.len() ==> (#[trigger] is[was.len() + k]).name == new[k]
                    && is[was.len() + k].line == lines.len() + 1
        }),
        sites_of(Seq::empty()).len() == 0,
{
    assert(lines.push(line).drop_last() =~= lines);
    assert(sites_of(lines.push(line)).take(sites_of(lines).len() as int) =~= sites_of(lines));
}

/// What is near a call: the calls behind it, up to the first that stands more than
/// fifteen lines below it.
pub proof fn calls_are_near_within_fifteen_lines(sites: Seq<SiteView>, i: int, j: int, end: int)
    requires
        0 <= i < sites.len(),
        0 <= j <= end <= sites.len(),
        forall|k: int| j <= k < end ==> (#[trigger] sites[k]).line <= sites[i].line + 15,
        end < sites.len() ==> sites[end].line > sites[i].line + 15,
    ensures
        names_near(sites, i, j).len() == end - j,
        forall|k: int|
            0 <= k < end - j ==> #[trigger] names_near(sites, i, j)[k] == sites[j + k].name,
    decreases end - j,
{
    if j < end {
        assert(sites[j].line <= sites[i].line + 15);
        calls_are_near_within_fifteen_lines(sites, i, j + 1, end);
        let all = names_near(sites, i, j);
        let less = names_near(sites, i, j + 1);
        assert forall|k: int| 0 <= k < end - j implies #[trigger] all[k] == sites[j + k].name by {
            if k > 0 {
                assert(all[k] == less[k - 1]);
            }
        }
    }
}

/// Every call of a file is an event: its name, the names that are near behind it,
/// each once, and where it stands.
pub proof fn calls_become_events(path: Seq<char>, sites: Seq<SiteView>, i: int, name: Seq<char>)
    requires
        0 <= i < sites.len(),
    ensures
        events_in(path, sites).len() == sites.len(),
        events_in(path, sites)[i].name == sites[i].name,
        events_in(path, sites)[i].location == path + ":"@ + text::decimal_of(sites[i].line),
        events_in(path, sites)[i].near.contains(name) <==> names_near(
            sites,
            i,
            i + 1,
        ).contains(name),
        events_in(path, sites)[i].near.no_duplicates(),
{
    text::distinct_is_the_set(names_near(sites, i, i + 1));
}

/// Files are read whole, and in order.
pub proof fn files_are_read_whole(files: Seq<SourceView>, file: SourceView)
    ensures
        events_of(files.push(file)) == events_of(files) + events_in(
            file.path,
            sites_of(text::lines_of(file.content)),
        ),
        events_of(Seq::empty()).len() == 0,
{
    assert(files.push(file).drop_last() =~= files);
}

/// What is counted of a pair: the calls of the first, those of them that have the
/// second near behind them, and where the first of those stands.
pub proof fn pairs_are_counted(events: Seq<EventView>, a: Seq<char>, b: Seq<char>)
    ensures
        ({
            let pair = |e: EventView| e.name == a && e.near.contains(b);
            let c = pair_in(events, a, b);
            &&& c.call_a == a && c.call_b == b
            &&& c.occurrences_of_a == events.filter(|e: EventView| e.name == a).len()
            &&& c.co_occurrences == events.filter(pair).len()
            &&& events.filter(pair).len() > 0 ==> c.example_location
                == events.filter(pair)[0].location
            &&& events.filter(pair).len() == 0 ==> c.example_location.len() == 0
        }),
{
    lemma_pairs_are_counted(events, a, b);
}

proof fn lemma_pairs_are_counted(events: Seq<EventView>, a: Seq<char>, b: Seq<char>)
    ensures
        ({
            let pair = |e: EventView| e.name == a && e.near.contains(b);
            &&& calls_of(events, a) == events.filter(|e: EventView| e.name == a).len()
            &&& pairs_of(events, a, b) == events.filter(pair).len()
            &&& events.filter(pair).len() > 0 ==> first_pair(events, a, b) == Some(
                events.filter(pair)[0].location,
            )
            &&& events.filter(pair).len() == 0 ==> first_pair(events, a, b) is None
        }),
    decreases events.len(),
{
    reveal(Seq::filter);
    if events.len() > 0 {
        lemma_pairs_are_counted(events.drop_last(), a, b);
    }
}

/// A pair holds where its share of the first calls, in millionths, reaches what is
/// asked for; and one that holds more often stands above one that does not.
pub proof fn pairs_hold_by_their_share(c: ConventionView, d: ConventionView, share: nat, less: nat)
    requires
        less <= share,
    ensures
        c.occurrences_of_a > 0 && c.co_occurrences == c.occurrences_of_a ==> c.holds_for(1_000_000),
        c.co_occurrences < c.occurrences_of_a ==> !c.holds_for(1_000_000),
        c.occurrences_of_a == 0 ==> !c.holds_for(share),
        c.holds_for(share) ==> c.holds_for(less),
        c.occurrences_of_a == d.occurrences_of_a && c.occurrences_of_a > 0 ==> (c.above(d)
            <==> c.co_occurrences > d.co_occurrences),
        c.co_occurrences == c.occurrences_of_a && d.co_occurrences == d.occurrences_of_a ==> (
        c.above(d) <==> c.occurrences_of_a > d.occurrences_of_a),
        c.above(d) ==> !d.above(c),
{
    let (ca, cc) = (c.occurrences_of_a as int, c.co_occurrences as int);
    let (da, dc) = (d.occurrences_of_a as int, d.co_occurrences as int);
    let (s, l) = (share as int, less as int);
    assert(l * ca <= s * ca) by (nonlinear_arith)
        requires
            l <= s,
            ca >= 0,
    ;
    if ca == da && ca > 0 {
        assert((cc * da > dc * ca) == (cc > dc)) by (nonlinear_arith)
            requires
                ca == da,
                ca > 0,
        ;
    }
    if cc == ca && dc == da {
        assert(cc * da == dc * ca) by (nonlinear_arith)
            requires
                cc == ca,
                dc == da,
        ;
    }
}

/// The directories that are passed over, and the extensions that are read.
pub proof fn these_places_are_read(name: Seq<char>)
    ensures
        is_skipped_directory(name) <==> seq![".git"@, "vendor"@, "node_modules"@].contains(name),
        is_source_extension(name) <==> seq![
            "go"@,
            "java"@,
            "kt"@,
            "kts"@,
            "js"@,
            "jsx"@,
            "ts"@,
            "tsx"@,
        ].contains(name),
{
    let dirs = seq![".git"@, "vendor"@, "node_modules"@];
    let exts = seq!["go"@, "java"@, "kt"@, "kts"@, "js"@, "jsx"@, "ts"@, "tsx"@];
    assert(dirs[0] == ".git"@ && dirs[1] == "vendor"@ && dirs[2] == "node_modules"@);
    assert(exts[0] == "go"@ && exts[1] == "java"@ && exts[2] == "kt"@ && exts[3] == "kts"@);
    assert(exts[4] == "js"@ && exts[5] == "jsx"@ && exts[6] == "ts"@ && exts[7] == "tsx"@);
}

/// Ranking keeps every convention, and makes up none.
pub proof fn ranking_keeps_every_convention(conventions: Seq<ConventionView>, c: ConventionView)
    ensures
        ranked(conventions).contains(c) <==> conventions.contains(c),
    decreases conventions.len(),
{
    if conventions.len() > 0 {
        let rest = conventions.drop_last();
        ranking_keeps_every_convention(rest, c);
        lemma_ranked_with_contains(ranked(rest), conventions.last(), c);
        assert(rest.push(conventions.last()) =~= conventions);
        text::lemma_push_contains(rest, conventions.last(), c);
    }
}

proof fn lemma_ranked_with_contains(
    list: Seq<ConventionView>,
    x: ConventionView,
    c: ConventionView,
)
    ensures
        ranked_with(list, x).contains(c) <==> list.contains(c) || x == c,
    decreases list.len(),
{
    if list.len() == 0 || x.above(list[0]) {
        text::lemma_joined_contains(seq![x], list, c);
        assert(seq![x][0] == x);
    } else {
        lemma_ranked_with_contains(list.drop_first(), x, c);
        text::lemma_joined_contains(seq![list[0]], ranked_with(list.drop_first(), x), c);
        text::lemma_joined_contains(seq![list[0]], list.drop_first(), c);
        assert(seq![list[0]] + list.drop_first() =~= list);
        assert(seq![list[0]][0] == list[0]);
    }
}

} // verus!
