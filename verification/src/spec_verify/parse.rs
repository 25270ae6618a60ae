//! Reads acceptance criteria: a title behind one `#`, and the sections `Intent`
//! and `Acceptance Criteria` under deeper headings.

use vstd::prelude::*;

use crate::schema::{AcceptanceSpec, AcceptanceView};
use crate::text;

verus! {

/// The section that a line stands in.
#[derive(Debug, Clone, Copy, PartialEq, Eq, Structural)]
pub enum Section {
    Other,
    Intent,
    Criteria,
}

/// How many `#` a line begins with.
pub open spec fn hashes(line: Seq<char>) -> nat {
    (line.len() - text::strip_leading(line, '#').len()) as nat
}

/// The text of a heading: what stands behind the `#`, of which there are one to
/// six, unless that is nothing.
pub open spec fn heading_text(line: Seq<char>) -> Option<Seq<char>> {
    let behind = text::trimmed(text::strip_leading(line, '#'));
    if 1 <= hashes(line) <= 6 && behind.len() > 0 {
        Some(behind)
    } else {
        None
    }
}

/// The level of a heading, and its text.
pub fn heading_level(line: &str) -> (heading: Option<(usize, &str)>)
    ensures
        match heading {
            Some((level, behind)) => heading_text(line@) == Some(behind@) && level == hashes(line@),
            None => heading_text(line@) is None,
        },
{
    let rest: &str = text::trim_leading(line, '#');
    proof {
        lemma_strip_shortens(line@);
    }
    let level: usize = line.unicode_len() - rest.unicode_len();
    if level == 0 || level > 6 {
        return None;
    }
    let behind: &str = text::trim(rest);
    if behind.unicode_len() == 0 {
        None
    } else {
        Some((level, behind))
    }
}

proof fn lemma_strip_shortens(line: Seq<char>)
    ensures
        text::strip_leading(line, '#').len() <= line.len(),
    decreases line.len(),
{
    if line.len() > 0 && line[0] == '#' {
        lemma_strip_shortens(line.drop_first());
    }
}

/// `line` without `prefix` in front, if it begins with it.
pub open spec fn behind(line: Seq<char>, prefix: Seq<char>) -> Option<Seq<char>> {
    if text::begins(line, prefix) {
        Some(line.skip(prefix.len() as int))
    } else {
        None
    }
}

/// What stands behind a check box: nothing, or white space first.
pub open spec fn behind_box(item: Seq<char>, checkbox: Seq<char>) -> Option<Seq<char>> {
    match behind(item, checkbox) {
        Some(rest) => if rest.len() == 0 || text::is_space(rest[0]) {
            Some(rest)
        } else {
            None
        },
        None => None,
    }
}

/// `item` without a check box in front.
pub open spec fn unboxed(item: Seq<char>) -> Seq<char> {
    match behind_box(item, "[ ]"@) {
        Some(rest) => rest,
        None => match behind_box(item, "[x]"@) {
            Some(rest) => rest,
            None => match behind_box(item, "[X]"@) {
                Some(rest) => rest,
                None => item,
            },
        },
    }
}

/// What is listed in a line, without the marker and an optional check box.
pub open spec fn bullet_text(line: Seq<char>) -> Option<Seq<char>> {
    let marked = match behind(line, "- "@) {
        Some(rest) => Some(rest),
        None => behind(line, "* "@),
    };
    match marked {
        Some(rest) => {
            let item = text::trimmed(unboxed(rest));
            if item.len() > 0 {
                Some(item)
            } else {
                None
            }
        },
        None => None,
    }
}

fn strip_prefix<'a>(line: &'a str, prefix: &str) -> (rest: Option<&'a str>)
    ensures
        match rest {
            Some(r) => behind(line@, prefix@) == Some(r@),
            None => behind(line@, prefix@) is None,
        },
{
    if text::starts_with(line, prefix) {
        let n: usize = prefix.unicode_len();
        let rest: &'a str = line.substring_char(n, line.unicode_len());
        proof {
            assert(rest@ =~= line@.skip(prefix@.len() as int));
        }
        Some(rest)
    } else {
        None
    }
}

fn strip_box<'a>(item: &'a str, checkbox: &str) -> (rest: Option<&'a str>)
    ensures
        match rest {
            Some(r) => behind_box(item@, checkbox@) == Some(r@),
            None => behind_box(item@, checkbox@) is None,
        },
{
    match strip_prefix(item, checkbox) {
        Some(rest) => if rest.unicode_len() == 0 || text::whitespace(rest.get_char(0)) {
            Some(rest)
        } else {
            None
        },
        None => None,
    }
}

/// What is listed in a line, without the marker and an optional check box.
pub fn parse_bullet(line: &str) -> (item: Option<String>)
    ensures
        match item {
            Some(i) => bullet_text(line@) == Some(i@),
            None => bullet_text(line@) is None,
        },
{
    let marked: Option<&str> = match strip_prefix(line, "- ") {
        Some(rest) => Some(rest),
        None => strip_prefix(line, "* "),
    };
    match marked {
        Some(rest) => {
            let unboxed: &str = match strip_box(rest, "[ ]") {
                Some(r) => r,
                None => match strip_box(rest, "[x]") {
                    Some(r) => r,
                    None => match strip_box(rest, "[X]") {
                        Some(r) => r,
                        None => rest,
                    },
                },
            };
            let item: &str = text::trim(unboxed);
            if item.unicode_len() == 0 {
                None
            } else {
                Some(item.to_owned())
            }
        },
        None => None,
    }
}

/// The section under a heading, given the heading in lower case.
pub open spec fn section_of(lower: Seq<char>) -> Section {
    if lower == "intent"@ {
        Section::Intent
    } else if lower == "acceptance criteria"@ {
        Section::Criteria
    } else {
        Section::Other
    }
}

/// The section under a heading, given the heading in lower case.
pub fn section_under(lower: &str) -> (section: Section)
    ensures
        section == section_of(lower@),
{
    if text::same(lower, "intent") {
        Section::Intent
    } else if text::same(lower, "acceptance criteria") {
        Section::Criteria
    } else {
        Section::Other
    }
}

/// What has been read of a document so far.
pub struct Reading {
    pub title: Option<Seq<char>>,
    pub intent: Seq<Seq<char>>,
    pub criteria: Seq<Seq<char>>,
    pub section: Section,
}

/// What has been read after one more line. `lower` is the text of the line in
/// lower case, where the line is a heading.
pub open spec fn read_line(before: Reading, line: Seq<char>, lower: Seq<char>) -> Reading {
    let stripped = text::trimmed(line);
    match heading_text(stripped) {
        Some(heading) => if hashes(stripped) == 1 {
            Reading {
                title: match before.title {
                    Some(t) => Some(t),
                    None => Some(heading),
                },
                section: Section::Other,
                ..before
            }
        } else {
            Reading { section: section_of(lower), ..before }
        },
        None => match before.section {
            Section::Intent => if stripped.len() > 0 {
                Reading { intent: before.intent.push(stripped), ..before }
            } else {
                before
            },
            Section::Criteria => match bullet_text(stripped) {
                Some(item) => Reading { criteria: before.criteria.push(item), ..before },
                None => before,
            },
            Section::Other => before,
        },
    }
}

/// What has been read after the lines. `lowered` holds, for each line that is a
/// heading, its text in lower case.
pub open spec fn read_lines(lines: Seq<Seq<char>>, lowered: Seq<Seq<char>>) -> Reading
    decreases lines.len(),
{
    if lines.len() == 0 {
        Reading {
            title: None,
            intent: Seq::empty(),
            criteria: Seq::empty(),
            section: Section::Other,
        }
    } else {
        read_line(
            read_lines(lines.drop_last(), lowered),
            lines.last(),
            lowered[lines.len() - 1],
        )
    }
}

/// The specification that a document gives: there is one if there is a title
/// and at least one criterion.
pub open spec fn spec_of(lines: Seq<Seq<char>>, lowered: Seq<Seq<char>>) -> Option<AcceptanceView> {
    let reading = read_lines(lines, lowered);
    match reading.title {
        Some(title) => if reading.criteria.len() > 0 {
            Some(
                AcceptanceView {
                    title,
                    intent: text::joined(reading.intent, " "@),
                    criteria: reading.criteria,
                },
            )
        } else {
            None
        },
        None => None,
    }
}

/// The texts of the headings in lower case, line by line, and nothing for a line
/// that is no heading.
pub open spec fn lowered_headings(lines: Seq<Seq<char>>) -> Seq<Seq<char>> {
    Seq::new(
        lines.len(),
        |i: int|
            match heading_text(text::trimmed(lines[i])) {
                Some(heading) => text::lowercase(heading),
                None => Seq::empty(),
            },
    )
}

/// The specification that lines give. `lowered` holds, for each line that is a
/// heading, its text in lower case.
pub fn parse_lines(lines: &Vec<String>, lowered: &Vec<String>) -> (spec: Option<AcceptanceSpec>)
    requires
        lowered@.len() == lines@.len(),
    ensures
        match spec {
            Some(s) => spec_of(text::views(lines@), text::views(lowered@)) == Some(s@),
            None => spec_of(text::views(lines@), text::views(lowered@)) is None,
        },
{
    let ghost all = text::views(lines@);
    let ghost low = text::views(lowered@);
    let mut title: Option<String> = None;
    let mut intent: Vec<String> = Vec::new();
    let mut criteria: Vec<String> = Vec::new();
    let mut section: Section = Section::Other;
    proof {
        assert(text::views(intent@) =~= Seq::empty());
        assert(text::views(criteria@) =~= Seq::empty());
    }
    let mut i: usize = 0;
    while i < lines.len()
        invariant
            0 <= i <= lines@.len(),
            lowered@.len() == lines@.len(),
            all == text::views(lines@),
            low == text::views(lowered@),
            text::optional(title) == read_lines(all.take(i as int), low).title,
            text::views(intent@) == read_lines(all.take(i as int), low).intent,
            text::views(criteria@) == read_lines(all.take(i as int), low).criteria,
            section == read_lines(all.take(i as int), low).section,
        decreases lines.len() - i,
    {
        proof {
            assert(all.take(i + 1).drop_last() =~= all.take(i as int));
            assert(all.take(i + 1).last() == lines@[i as int]@);
        }
        let line: &str = text::trim(lines[i].as_str());
        match heading_level(line) {
            Some((level, heading)) => {
                if level == 1 {
                    if title.is_none() {
                        title = Some(heading.to_owned());
                    }
                    section = Section::Other;
                } else {
                    section = section_under(lowered[i].as_str());
                }
            },
            None => match section {
                Section::Intent => {
                    if line.unicode_len() > 0 {
                        let part: String = line.to_owned();
                        proof {
                            text::lemma_views_push(intent@, part);
                        }
                        intent.push(part);
                    }
                },
                Section::Criteria => {
                    if let Some(item) = parse_bullet(line) {
                        proof {
                            text::lemma_views_push(criteria@, item);
                        }
                        criteria.push(item);
                    }
                },
                Section::Other => {},
            },
        }
        i += 1;
    }
    proof {
        assert(all.take(all.len() as int) =~= all);
        assert(text::views(criteria@).len() == criteria@.len());
    }
    match title {
        Some(title) => if criteria.len() == 0 {
            None
        } else {
            Some(AcceptanceSpec { title, intent: text::join(&intent, " "), criteria })
        },
        None => None,
    }
}

/// The specification that a document gives. There is none without a title or
/// without criteria.
pub fn parse_spec(content: &str) -> (spec: Option<AcceptanceSpec>)
    ensures
        match spec {
            Some(s) => spec_of(
                text::lines_of(content@),
                lowered_headings(text::lines_of(content@)),
            ) == Some(s@),
            None => spec_of(
                text::lines_of(content@),
                lowered_headings(text::lines_of(content@)),
            ) is None,
        },
{
    let lines: Vec<String> = text::lines(content);
    let ghost all = text::views(lines@);
    let mut lowered: Vec<String> = Vec::new();
    let mut i: usize = 0;
    while i < lines.len()
        invariant
            0 <= i <= lines@.len(),
            all == text::views(lines@),
            lowered@.len() == i,
            forall|j: int| 0 <= j < i ==> (#[trigger] lowered@[j])@ == lowered_headings(all)[j],
        decreases lines.len() - i,
    {
        let lower: String = match heading_level(text::trim(lines[i].as_str())) {
            Some((_, heading)) => text::to_lower(heading),
            None => String::new(),
        };
        proof {
            assert(lower@ =~= lowered_headings(all)[i as int]);
        }
        lowered.push(lower);
        i += 1;
    }
    proof {
        assert(text::views(lowered@) =~= lowered_headings(all));
    }
    parse_lines(&lines, &lowered)
}

/// A specification always has criteria.
pub proof fn specs_have_criteria(lines: Seq<Seq<char>>, lowered: Seq<Seq<char>>)
    ensures
        spec_of(lines, lowered) matches Some(spec) ==> spec.criteria.len() > 0,
{
}

/// The first title counts: no later line changes it.
pub proof fn the_first_title_counts(
    lines: Seq<Seq<char>>,
    lowered: Seq<Seq<char>>,
    line: Seq<char>,
)
    requires
        read_lines(lines, lowered).title is Some,
    ensures
        read_lines(lines.push(line), lowered).title == read_lines(lines, lowered).title,
{
    assert(lines.push(line).drop_last() =~= lines);
}

/// A heading is one to six hashes and a text behind them that is not blank.
pub proof fn headings_have_one_to_six_hashes(line: Seq<char>, n: nat)
    requires
        n <= line.len(),
        forall|i: int| 0 <= i < n ==> (#[trigger] line[i]) == '#',
        n < line.len() ==> line[n as int] != '#',
    ensures
        hashes(line) == n,
        1 <= n <= 6 && text::trimmed(line.skip(n as int)).len() > 0 ==> heading_text(line) == Some(
            text::trimmed(line.skip(n as int)),
        ),
        n == 0 || n > 6 || text::trimmed(line.skip(n as int)).len() == 0 ==> heading_text(line)
            is None,
{
    lemma_hashes(line, n);
}

proof fn lemma_hashes(line: Seq<char>, n: nat)
    requires
        n <= line.len(),
        forall|i: int| 0 <= i < n ==> (#[trigger] line[i]) == '#',
        n < line.len() ==> line[n as int] != '#',
    ensures
        text::strip_leading(line, '#') == line.skip(n as int),
    decreases n,
{
    if n > 0 {
        let rest = line.drop_first();
        assert(line[0] == '#');
        assert forall|i: int| 0 <= i < n - 1 implies (#[trigger] rest[i]) == '#' by {
            assert(line[i + 1] == '#');
        }
        lemma_hashes(rest, (n - 1) as nat);
        assert(rest.skip(n - 1) =~= line.skip(n as int));
    } else {
        assert(line.skip(0) =~= line);
    }
}

/// A bullet is a dash or a star and a space, and a text behind them; a checkbox in
/// front of the text, ticked or not, is left out.
pub proof fn bullets_are_read_without_their_marks(mark: Seq<char>, item: Seq<char>)
    requires
        mark == "- "@ || mark == "* "@,
    ensures
        ({
            let boxed = item.len() >= 3 && item[0] == '[' && (item[1] == ' ' || item[1] == 'x'
                || item[1] == 'X') && item[2] == ']' && (item.len() == 3 || text::is_space(item[3]));
            let inner = if boxed {
                text::trimmed(item.skip(3))
            } else {
                text::trimmed(item)
            };
            &&& inner.len() > 0 ==> bullet_text(mark + item) == Some(inner)
            &&& inner.len() == 0 ==> bullet_text(mark + item) is None
        }),
{
    reveal_strlit("- ");
    reveal_strlit("* ");
    reveal_strlit("[ ]");
    reveal_strlit("[x]");
    reveal_strlit("[X]");
    let line = mark + item;
    assert(line.skip(2) =~= item);
    assert(line.subrange(0, 2) =~= mark);
    assert("- "@[0] != "* "@[0]);
    assert(mark == "* "@ ==> !text::begins(line, "- "@)) by {
        if text::begins(line, "- "@) {
            assert(line.subrange(0, 2)[0] == "- "@[0]);
        }
    }
    if item.len() >= 3 {
        let head = item.subrange(0, 3);
        assert(head =~= seq![item[0], item[1], item[2]]);
        assert("[ ]"@ =~= seq!['[', ' ', ']']);
        assert("[x]"@ =~= seq!['[', 'x', ']']);
        assert("[X]"@ =~= seq!['[', 'X', ']']);
        assert(text::begins(item, "[ ]"@) <==> head =~= "[ ]"@);
        assert(text::begins(item, "[x]"@) <==> head =~= "[x]"@);
        assert(text::begins(item, "[X]"@) <==> head =~= "[X]"@);
        assert(head[0] == item[0] && head[1] == item[1] && head[2] == item[2]);
        assert("[ ]"@[1] == ' ' && "[x]"@[1] == 'x' && "[X]"@[1] == 'X');
        if item.len() > 3 {
            assert(item.skip(3)[0] == item[3]);
        }
    }
}

/// A line without one of the two marks is no bullet.
pub proof fn other_lines_are_no_bullets(line: Seq<char>)
    requires
        !text::begins(line, "- "@),
        !text::begins(line, "* "@),
    ensures
        bullet_text(line) is None,
{
}

/// How one more line is read. A heading of the first level sets the title, once,
/// and closes the section; a deeper heading opens the section of its name; a line
/// in the intent is kept, a bullet in the criteria is, and nothing else is.
pub proof fn lines_are_read_by_their_section(
    lines: Seq<Seq<char>>,
    lowered: Seq<Seq<char>>,
    line: Seq<char>,
    lower: Seq<char>,
)
    requires
        lowered.len() == lines.len(),
    ensures
        ({
            let was = read_lines(lines, lowered);
            let is = read_lines(lines.push(line), lowered.push(lower));
            let stripped = text::trimmed(line);
            &&& heading_text(stripped) matches Some(heading) ==> {
                &&& is.intent == was.intent && is.criteria == was.criteria
                &&& hashes(stripped) == 1 ==> is.section == Section::Other && (was.title is None
                    ==> is.title == Some(heading))
                &&& was.title is Some || hashes(stripped) > 1 ==> is.title == was.title
                &&& hashes(stripped) > 1 && lower == "intent"@ ==> is.section == Section::Intent
                &&& hashes(stripped) > 1 && lower == "acceptance criteria"@ ==> is.section
                    == Section::Criteria
                &&& hashes(stripped) > 1 && lower != "intent"@ && lower != "acceptance criteria"@
                    ==> is.section == Section::Other
            }
            &&& heading_text(stripped) is None ==> {
                &&& is.title == was.title && is.section == was.section
                &&& was.section == Section::Intent && stripped.len() > 0 ==> is.intent
                    == was.intent.push(stripped)
                &&& was.section != Section::Intent || stripped.len() == 0 ==> is.intent
                    == was.intent
                &&& was.section == Section::Criteria ==> (bullet_text(stripped) matches Some(item)
                    ==> is.criteria == was.criteria.push(item))
                &&& was.section != Section::Criteria || bullet_text(stripped) is None
                    ==> is.criteria == was.criteria
            }
        }),
        read_lines(Seq::empty(), Seq::empty()).title is None,
        read_lines(Seq::empty(), Seq::empty()).intent.len() == 0,
        read_lines(Seq::empty(), Seq::empty()).criteria.len() == 0,
        read_lines(Seq::empty(), Seq::empty()).section == Section::Other,
{
    let more = lines.push(line);
    assert(more.drop_last() =~= lines);
    lemma_lowered_stay(lines, lowered, lowered.push(lower));
    reveal_strlit("intent");
    reveal_strlit("acceptance criteria");
    assert("intent"@.len() != "acceptance criteria"@.len());
}

proof fn lemma_lowered_stay(lines: Seq<Seq<char>>, a: Seq<Seq<char>>, b: Seq<Seq<char>>)
    requires
        forall|i: int| 0 <= i < lines.len() ==> #[trigger] a[i] == b[i],
    ensures
        read_lines(lines, a) == read_lines(lines, b),
    decreases lines.len(),
{
    if lines.len() > 0 {
        lemma_lowered_stay(lines.drop_last(), a, b);
        assert(a[lines.len() - 1] == b[lines.len() - 1]);
    }
}

/// A text is a specification where it has a title and a criterion; it is made of
/// what was read, the lines of the intent with a space between any two.
pub proof fn titles_and_criteria_make_a_specification(
    lines: Seq<Seq<char>>,
    lowered: Seq<Seq<char>>,
)
    ensures
        ({
            let r = read_lines(lines, lowered);
            &&& spec_of(lines, lowered) is Some <==> r.title is Some && r.criteria.len() > 0
            &&& spec_of(lines, lowered) matches Some(s) ==> Some(s.title) == r.title && s.criteria
                == r.criteria && s.intent == text::joined(r.intent, " "@)
        }),
{
}

/// The section that a heading opens goes by its text without regard to case.
pub proof fn headings_are_read_in_any_case(lines: Seq<Seq<char>>, i: int)
    requires
        0 <= i < lines.len(),
    ensures
        lowered_headings(lines).len() == lines.len(),
        heading_text(text::trimmed(lines[i])) matches Some(h) ==> lowered_headings(lines)[i]
            == text::lowercase(h),
{
}

} // verus!
