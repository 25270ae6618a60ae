//! The versions that the instructions of skills went through.

use vstd::prelude::*;

use crate::storage::history_store::{
    HistoryStore, HistoryView, SkillVersionRow, SkillVersionView,
};
use crate::text;

verus! {

/// A space, a tab, or another character that ends a line or a page.
pub open spec fn is_blank(c: char) -> bool {
    0x09 <= c as u32 <= 0x0d || c as u32 == 0x20
}

fn blank(c: char) -> (r: bool)
    ensures
        r == is_blank(c),
{
    let n: u32 = c as u32;
    (0x09 <= n && n <= 0x0d) || n == 0x20
}

/// A text without the blanks that it begins with.
pub open spec fn unblanked(s: Seq<char>) -> Seq<char>
    decreases s.len(),
{
    if s.len() > 0 && is_blank(s[0]) {
        unblanked(s.drop_first())
    } else {
        s
    }
}

/// The digits that a text begins with.
pub open spec fn leading_digits(s: Seq<char>) -> Seq<char>
    decreases s.len(),
{
    if s.len() > 0 && text::digit_value(s[0]) < 10 {
        seq![s[0]] + leading_digits(s.drop_first())
    } else {
        Seq::empty()
    }
}

/// The integer that a version begins with: behind blanks, an optional sign and
/// digits. It is 0 without digits, and kept within an `i64`.
pub open spec fn version_number(version: Seq<char>) -> int {
    let s = unblanked(version);
    let n = if s.len() > 0 && (s[0] == '-' || s[0] == '+') {
        text::number_of(leading_digits(s.drop_first())) as int
    } else {
        text::number_of(leading_digits(s)) as int
    };
    if s.len() > 0 && s[0] == '-' {
        if -n >= i64::MIN {
            -n
        } else {
            i64::MIN as int
        }
    } else if n <= i64::MAX {
        n
    } else {
        i64::MAX as int
    }
}

proof fn lemma_leading_digits(s: Seq<char>)
    ensures
        text::all_digits(leading_digits(s)),
        leading_digits(s).len() <= s.len(),
    decreases s.len(),
{
    if s.len() > 0 && text::digit_value(s[0]) < 10 {
        let rest = leading_digits(s.drop_first());
        lemma_leading_digits(s.drop_first());
        assert forall|i: int| 0 <= i < leading_digits(s).len() implies text::digit_value(
            #[trigger] leading_digits(s)[i],
        ) < 10 by {
            if i > 0 {
                assert(leading_digits(s)[i] == rest[i - 1]);
            }
        }
    }
}

fn digits_from(version: &str, chars: &Vec<char>, start: usize, max: u64) -> (n: u64)
    requires
        chars@ == version@,
        start <= chars@.len(),
    ensures
        n == if text::number_of(leading_digits(version@.skip(start as int))) <= max {
            text::number_of(leading_digits(version@.skip(start as int)))
        } else {
            max as nat
        },
{
    let ghost all = version@.skip(start as int);
    let mut i: usize = start;
    proof {
        lemma_leading_digits(all);
        assert(version@.subrange(start as int, start as int) + leading_digits(all)
            =~= leading_digits(all));
    }
    while i < chars.len() && text::value_of_digit(chars[i]) < 10
        invariant
            chars@ == version@,
            start <= i <= chars@.len(),
            all == version@.skip(start as int),
            leading_digits(all) == version@.subrange(start as int, i as int) + leading_digits(
                version@.skip(i as int),
            ),
        decreases chars.len() - i,
    {
        proof {
            let rest = version@.skip(i as int);
            assert(rest[0] == version@[i as int]);
            assert(rest.drop_first() =~= version@.skip(i + 1));
            assert(version@.subrange(start as int, i as int) + (seq![rest[0]] + leading_digits(
                version@.skip(i + 1),
            )) =~= version@.subrange(start as int, i + 1) + leading_digits(version@.skip(i + 1)));
        }
        i += 1;
    }
    proof {
        let rest = version@.skip(i as int);
        if i < chars@.len() {
            assert(rest[0] == version@[i as int]);
        }
        assert(leading_digits(rest) =~= Seq::empty());
        assert(leading_digits(all) =~= version@.subrange(start as int, i as int));
    }
    if i == start {
        return 0;
    }
    let digits: &str = version.substring_char(start, i);
    proof {
        assert(digits@ == leading_digits(all));
        assert(text::digit_value(digits@[0]) < 10);
    }
    match text::parse_unsigned(digits, max) {
        Some(n) => n,
        None => max,
    }
}

/// The integer that a version begins with.
pub fn number_of_version(version: &str) -> (n: i64)
    ensures
        n == version_number(version@),
{
    let chars: Vec<char> = text::chars_of(version);
    let mut i: usize = 0;
    proof {
        assert(version@.skip(0) =~= version@);
    }
    while i < chars.len() && blank(chars[i])
        invariant
            chars@ == version@,
            0 <= i <= chars@.len(),
            unblanked(version@) == unblanked(version@.skip(i as int)),
        decreases chars.len() - i,
    {
        proof {
            assert(version@.skip(i as int)[0] == version@[i as int]);
            assert(version@.skip(i as int).drop_first() =~= version@.skip(i + 1));
        }
        i += 1;
    }
    let ghost s = version@.skip(i as int);
    proof {
        if i < chars@.len() {
            assert(s[0] == version@[i as int]);
            assert(s.drop_first() =~= version@.skip(i + 1));
        }
        assert(unblanked(version@) == s);
    }
    if i < chars.len() && chars[i] == '-' {
        let n: u64 = digits_from(version, &chars, i + 1, 0x8000_0000_0000_0000);
        (-(n as i128)) as i64
    } else if i < chars.len() && chars[i] == '+' {
        digits_from(version, &chars, i + 1, 0x7fff_ffff_ffff_ffff) as i64
    } else {
        digits_from(version, &chars, i, 0x7fff_ffff_ffff_ffff) as i64
    }
}

/// The versions without one of a skill.
pub open spec fn without_version(
    rows: Seq<SkillVersionView>,
    aspect: Seq<char>,
    version: Seq<char>,
) -> Seq<SkillVersionView>
    decreases rows.len(),
{
    if rows.len() == 0 {
        Seq::empty()
    } else if rows.last().aspect == aspect && rows.last().version == version {
        without_version(rows.drop_last(), aspect, version)
    } else {
        without_version(rows.drop_last(), aspect, version).push(rows.last())
    }
}

/// The versions with one of a skill, in place of what was recorded for it.
pub open spec fn with_version(
    rows: Seq<SkillVersionView>,
    row: SkillVersionView,
) -> Seq<SkillVersionView> {
    without_version(rows, row.aspect, row.version).push(row)
}

/// The instructions of a skill at a version.
pub open spec fn source_at(
    rows: Seq<SkillVersionView>,
    aspect: Seq<char>,
    version: Seq<char>,
) -> Option<Seq<char>>
    decreases rows.len(),
{
    if rows.len() == 0 {
        None
    } else {
        match source_at(rows.drop_last(), aspect, version) {
            Some(source) => Some(source),
            None => if rows.last().aspect == aspect && rows.last().version == version {
                rows.last().source
            } else {
                None
            },
        }
    }
}

/// The highest version of a skill.
pub open spec fn highest(rows: Seq<SkillVersionView>, aspect: Seq<char>) -> Option<int>
    decreases rows.len(),
{
    if rows.len() == 0 {
        None
    } else {
        let rest = highest(rows.drop_last(), aspect);
        let n = version_number(rows.last().version);
        if rows.last().aspect != aspect {
            rest
        } else {
            match rest {
                Some(m) => Some(
                    if n > m {
                        n
                    } else {
                        m
                    },
                ),
                None => Some(n),
            }
        }
    }
}

/// A list with one more version, in front of the first that is higher.
pub open spec fn numbered_with(
    list: Seq<SkillVersionView>,
    row: SkillVersionView,
) -> Seq<SkillVersionView>
    decreases list.len(),
{
    if list.len() == 0 || version_number(row.version) < version_number(list[0].version) {
        seq![row] + list
    } else {
        seq![list[0]] + numbered_with(list.drop_first(), row)
    }
}

/// The versions of a skill by their numbers, the lowest first, and of the same
/// number as they were recorded.
pub open spec fn numbered(rows: Seq<SkillVersionView>, aspect: Seq<char>) -> Seq<SkillVersionView>
    decreases rows.len(),
{
    if rows.len() == 0 {
        Seq::empty()
    } else if rows.last().aspect == aspect {
        numbered_with(numbered(rows.drop_last(), aspect), rows.last())
    } else {
        numbered(rows.drop_last(), aspect)
    }
}

proof fn lemma_numbered_with(list: Seq<SkillVersionView>, row: SkillVersionView, k: int)
    requires
        0 <= k <= list.len(),
        forall|j: int|
            0 <= j < k ==> version_number(row.version) >= version_number(
                (#[trigger] list[j]).version,
            ),
        k < list.len() ==> version_number(row.version) < version_number(list[k].version),
    ensures
        numbered_with(list, row) == list.insert(k, row),
    decreases list.len(),
{
    if list.len() == 0 || version_number(row.version) < version_number(list[0].version) {
        assert(numbered_with(list, row) =~= list.insert(0, row));
    } else {
        let rest = list.drop_first();
        assert forall|j: int| 0 <= j < k - 1 implies version_number(row.version) >= version_number(
            (#[trigger] rest[j]).version,
        ) by {
            assert(rest[j] == list[j + 1]);
        }
        lemma_numbered_with(rest, row, k - 1);
        assert(numbered_with(list, row) =~= list.insert(k, row));
    }
}

fn insert_numbered<'a>(list: &mut Vec<&'a SkillVersionRow>, row: &'a SkillVersionRow)
    ensures
        text::views(final(list)@) == numbered_with(text::views(old(list)@), row@),
{
    let ghost before = text::views(list@);
    let n: i64 = number_of_version(row.version.as_str());
    let mut k: usize = 0;
    while k < list.len() && n >= number_of_version(list[k].version.as_str())
        invariant
            0 <= k <= list@.len(),
            before == text::views(list@),
            n == version_number(row@.version),
            forall|j: int|
                0 <= j < k ==> n >= version_number((#[trigger] before[j]).version),
        decreases list.len() - k,
    {
        k += 1;
    }
    proof {
        lemma_numbered_with(before, row@, k as int);
    }
    list.insert(k, row);
    proof {
        assert(text::views(list@) =~= before.insert(k as int, row@));
    }
}

impl HistoryStore {
    /// Records the instructions of a skill at a version, in place of what was
    /// recorded for it.
    pub fn record_skill_version(
        &mut self,
        aspect: &str,
        version: &str,
        source: &str,
        valid_from: &str,
    )
        ensures
            final(self)@ == (HistoryView {
                skill_versions: with_version(
                    old(self)@.skill_versions,
                    SkillVersionView {
                        aspect: aspect@,
                        version: version@,
                        source: Some(source@),
                        valid_from: valid_from@,
                    },
                ),
                ..old(self)@
            }),
            old(self)@.well_formed() ==> final(self)@.well_formed(),
    {
        let ghost before = self@;
        let ghost all = before.skill_versions;
        let ghost mut seen: int = 0;
        let mut i: usize = 0;
        proof {
            assert(all.skip(0) =~= all);
            assert(without_version(all.take(0), aspect@, version@) + all =~= all);
        }
        while i < self.skill_versions.len()
            invariant
                0 <= i <= self.skill_versions@.len(),
                0 <= seen <= all.len(),
                self@ == (HistoryView { skill_versions: self@.skill_versions, ..before }),
                i == without_version(all.take(seen), aspect@, version@).len(),
                self@.skill_versions == without_version(all.take(seen), aspect@, version@)
                    + all.skip(seen),
            decreases self.skill_versions@.len() - i,
        {
            let ghost kept = without_version(all.take(seen), aspect@, version@);
            let ghost had = self@.skill_versions;
            let row: &SkillVersionRow = &self.skill_versions[i];
            proof {
                assert(all.skip(seen).len() > 0);
                assert(had[i as int] == all[seen]);
                assert(row@ == all[seen]);
                assert(all.take(seen + 1).drop_last() =~= all.take(seen));
                assert(all.take(seen + 1).last() == all[seen]);
            }
            if text::same(row.aspect.as_str(), aspect) && text::same(
                row.version.as_str(),
                version,
            ) {
                let _ = self.skill_versions.remove(i);
                proof {
                    assert(self@.skill_versions =~= had.remove(i as int));
                    assert(had.remove(i as int) =~= kept + all.skip(seen + 1));
                }
            } else {
                i += 1;
                proof {
                    assert(kept + all.skip(seen) =~= kept.push(all[seen]) + all.skip(seen + 1));
                }
            }
            proof {
                seen = seen + 1;
            }
        }
        let row = SkillVersionRow {
            aspect: aspect.to_owned(),
            version: version.to_owned(),
            source: Some(source.to_owned()),
            valid_from: valid_from.to_owned(),
        };
        proof {
            assert(all.skip(seen).len() == 0);
            assert(all.take(seen) =~= all);
            assert(self@.skill_versions =~= without_version(all, aspect@, version@));
            text::lemma_views_push(self.skill_versions@, row);
            if before.well_formed() {
                lemma_without(all, aspect@, version@);
            }
        }
        self.skill_versions.push(row);
    }

    /// The highest version of a skill that was recorded.
    pub fn latest_skill_version(&self, aspect: &str) -> (n: Option<i64>)
        ensures
            match n {
                Some(v) => highest(self@.skill_versions, aspect@) == Some(v as int),
                None => highest(self@.skill_versions, aspect@) is None,
            },
    {
        let ghost all = self@.skill_versions;
        let mut best: Option<i64> = None;
        let mut i: usize = 0;
        while i < self.skill_versions.len()
            invariant
                0 <= i <= self.skill_versions@.len(),
                all == self@.skill_versions,
                match best {
                    Some(v) => highest(all.take(i as int), aspect@) == Some(v as int),
                    None => highest(all.take(i as int), aspect@) is None,
                },
            decreases self.skill_versions.len() - i,
        {
            let row: &SkillVersionRow = &self.skill_versions[i];
            proof {
                assert(all.take(i + 1).drop_last() =~= all.take(i as int));
                assert(all.take(i + 1).last() == row@);
            }
            if text::same(row.aspect.as_str(), aspect) {
                let n: i64 = number_of_version(row.version.as_str());
                best = match best {
                    Some(m) => if n > m {
                        Some(n)
                    } else {
                        Some(m)
                    },
                    None => Some(n),
                };
            }
            i += 1;
        }
        proof {
            assert(all.take(all.len() as int) =~= all);
        }
        best
    }

    /// The instructions of a skill at a version, if they were kept.
    pub fn skill_version_source(&self, aspect: &str, version: &str) -> (source: Option<String>)
        ensures
            text::optional(source) == source_at(self@.skill_versions, aspect@, version@),
    {
        let ghost all = self@.skill_versions;
        let mut found: Option<String> = None;
        let mut i: usize = 0;
        while i < self.skill_versions.len()
            invariant
                0 <= i <= self.skill_versions@.len(),
                all == self@.skill_versions,
                text::optional(found) == source_at(all.take(i as int), aspect@, version@),
            decreases self.skill_versions.len() - i,
        {
            let row: &SkillVersionRow = &self.skill_versions[i];
            proof {
                assert(all.take(i + 1).drop_last() =~= all.take(i as int));
                assert(all.take(i + 1).last() == row@);
            }
            if found.is_none() && text::same(row.aspect.as_str(), aspect) && text::same(
                row.version.as_str(),
                version,
            ) {
                found = match &row.source {
                    Some(source) => Some(source.clone()),
                    None => None,
                };
            }
            i += 1;
        }
        proof {
            assert(all.take(all.len() as int) =~= all);
        }
        found
    }

    /// The versions of a skill with their dates, by their numbers.
    pub fn list_skill_versions(&self, aspect: &str) -> (versions: Vec<(String, String)>)
        ensures
            versions@.len() == numbered(self@.skill_versions, aspect@).len(),
            forall|i: int|
                0 <= i < versions@.len() ==> {
                    let row = numbered(self@.skill_versions, aspect@)[i];
                    (#[trigger] versions@[i]).0@ == row.version && versions@[i].1@
                        == row.valid_from
                },
    {
        let ghost all = self@.skill_versions;
        let mut rows: Vec<&SkillVersionRow> = Vec::new();
        proof {
            assert(text::views(rows@) =~= Seq::empty());
        }
        let mut i: usize = 0;
        while i < self.skill_versions.len()
            invariant
                0 <= i <= self.skill_versions@.len(),
                all == self@.skill_versions,
                text::views(rows@) == numbered(all.take(i as int), aspect@),
            decreases self.skill_versions.len() - i,
        {
            let row: &SkillVersionRow = &self.skill_versions[i];
            proof {
                assert(all.take(i + 1).drop_last() =~= all.take(i as int));
                assert(all.take(i + 1).last() == row@);
            }
            if text::same(row.aspect.as_str(), aspect) {
                insert_numbered(&mut rows, row);
            }
            i += 1;
        }
        proof {
            assert(all.take(all.len() as int) =~= all);
        }
        let ghost sorted = text::views(rows@);
        let mut versions: Vec<(String, String)> = Vec::new();
        let mut i: usize = 0;
        while i < rows.len()
            invariant
                0 <= i <= rows@.len(),
                sorted == text::views(rows@),
                versions@.len() == i,
                forall|j: int|
                    0 <= j < i ==> (#[trigger] versions@[j]).0@ == sorted[j].version
                        && versions@[j].1@ == sorted[j].valid_from,
            decreases rows.len() - i,
        {
            versions.push((rows[i].version.clone(), rows[i].valid_from.clone()));
            i += 1;
        }
        versions
    }
}

/// No version of a skill is there twice.
pub open spec fn no_version_twice(rows: Seq<SkillVersionView>) -> bool {
    forall|i: int, j: int|
        0 <= i < j < rows.len() ==> {
            ||| (#[trigger] rows[i]).aspect != (#[trigger] rows[j]).aspect
            ||| rows[i].version != rows[j].version
        }
}

proof fn lemma_without(rows: Seq<SkillVersionView>, aspect: Seq<char>, version: Seq<char>)
    requires
        no_version_twice(rows),
    ensures
        no_version_twice(without_version(rows, aspect, version)),
        forall|i: int|
            0 <= i < without_version(rows, aspect, version).len() ==> {
                let row = #[trigger] without_version(rows, aspect, version)[i];
                rows.contains(row) && !(row.aspect == aspect && row.version == version)
            },
    decreases rows.len(),
{
    if rows.len() > 0 {
        let rest = rows.drop_last();
        assert forall|i: int, j: int| 0 <= i < j < rest.len() implies ((
        #[trigger] rest[i]).aspect != (#[trigger] rest[j]).aspect || rest[i].version
            != rest[j].version) by {
            assert(rest[i] == rows[i] && rest[j] == rows[j]);
        }
        lemma_without(rest, aspect, version);
        let kept = without_version(rest, aspect, version);
        let after = without_version(rows, aspect, version);
        assert forall|i: int| 0 <= i < kept.len() implies rows.contains(#[trigger] kept[i]) && (
        kept[i].aspect != rows.last().aspect || kept[i].version != rows.last().version) by {
            let k = choose|k: int| 0 <= k < rest.len() && rest[k] == kept[i];
            assert(rows[k] == kept[i]);
            assert(rows[rows.len() - 1] == rows.last());
        }
        if !(rows.last().aspect == aspect && rows.last().version == version) {
            assert(after == kept.push(rows.last()));
            assert(rows.contains(rows[rows.len() - 1]));
        }
    }
}

proof fn lemma_source_without(
    rows: Seq<SkillVersionView>,
    aspect: Seq<char>,
    version: Seq<char>,
    a: Seq<char>,
    v: Seq<char>,
)
    ensures
        source_at(without_version(rows, aspect, version), a, v) == if a == aspect && v == version {
            None
        } else {
            source_at(rows, a, v)
        },
    decreases rows.len(),
{
    if rows.len() > 0 {
        lemma_source_without(rows.drop_last(), aspect, version, a, v);
        let kept = without_version(rows.drop_last(), aspect, version);
        if !(rows.last().aspect == aspect && rows.last().version == version) {
            assert(kept.push(rows.last()).drop_last() =~= kept);
        }
    }
}

/// What was recorded for a version is what is read back for it, and what was
/// recorded for the others stays.
pub proof fn a_version_reads_back(
    rows: Seq<SkillVersionView>,
    row: SkillVersionView,
    aspect: Seq<char>,
    version: Seq<char>,
)
    ensures
        source_at(with_version(rows, row), aspect, version) == if aspect == row.aspect && version
            == row.version {
            row.source
        } else {
            source_at(rows, aspect, version)
        },
{
    lemma_source_without(rows, row.aspect, row.version, aspect, version);
    let kept = without_version(rows, row.aspect, row.version);
    assert(kept.push(row).drop_last() =~= kept);
}

proof fn lemma_highest_without(
    rows: Seq<SkillVersionView>,
    aspect: Seq<char>,
    version: Seq<char>,
    other: Seq<char>,
)
    requires
        aspect != other,
    ensures
        highest(without_version(rows, aspect, version), other) == highest(rows, other),
    decreases rows.len(),
{
    if rows.len() > 0 {
        lemma_highest_without(rows.drop_last(), aspect, version, other);
        let kept = without_version(rows.drop_last(), aspect, version);
        if !(rows.last().aspect == aspect && rows.last().version == version) {
            assert(kept.push(rows.last()).drop_last() =~= kept);
        }
    }
}

/// The versions of a skill say nothing of those of another.
pub proof fn skills_are_versioned_independently(
    rows: Seq<SkillVersionView>,
    row: SkillVersionView,
    other: Seq<char>,
)
    requires
        row.aspect != other,
    ensures
        highest(with_version(rows, row), other) == highest(rows, other),
{
    lemma_highest_without(rows, row.aspect, row.version, other);
    let kept = without_version(rows, row.aspect, row.version);
    assert(kept.push(row).drop_last() =~= kept);
}

/// A version that is a plain number is that number, with a sign or without; digits
/// end where something else begins.
pub proof fn versions_are_read_as_numbers(n: nat, behind: Seq<char>)
    requires
        n <= i64::MAX,
        behind.len() > 0 ==> text::digit_value(behind[0]) >= 10,
    ensures
        version_number(text::decimal_of(n) + behind) == n,
        version_number(seq!['-'] + text::decimal_of(n) + behind) == -n,
        version_number(seq!['+'] + text::decimal_of(n) + behind) == n,
        version_number(seq![' '] + text::decimal_of(n) + behind) == n,
        version_number(behind) == 0 || behind[0] == '-' || behind[0] == '+' || is_blank(behind[0]),
{
    text::numbers_are_read_back(n, n);
    let d = text::decimal_of(n);
    let s = d + behind;
    lemma_leading_digits_here(d, behind);
    assert(text::digit_value(d[0]) < 10);
    assert(s[0] == d[0]);
    assert(unblanked(s) == s);
    let m = seq!['-'] + d + behind;
    assert(m[0] == '-');
    assert(m.drop_first() =~= s);
    let p = seq!['+'] + d + behind;
    assert(p[0] == '+');
    assert(p.drop_first() =~= s);
    let b = seq![' '] + d + behind;
    assert(b[0] == ' ');
    assert(b.drop_first() =~= s);
    assert(unblanked(b) == unblanked(s));
    assert(text::number_of(Seq::empty()) == 0);
    if behind.len() > 0 {
        assert(leading_digits(behind) =~= Seq::empty());
    } else {
        assert(leading_digits(behind) =~= Seq::empty());
    }
}

proof fn lemma_leading_digits_here(d: Seq<char>, behind: Seq<char>)
    requires
        text::all_digits(d),
        behind.len() > 0 ==> text::digit_value(behind[0]) >= 10,
    ensures
        leading_digits(d + behind) == d,
    decreases d.len(),
{
    let s = d + behind;
    if d.len() == 0 {
        assert(s =~= behind);
        assert(leading_digits(s) =~= d);
    } else {
        assert(s[0] == d[0]);
        assert(text::digit_value(d[0]) < 10);
        assert(s.drop_first() =~= d.drop_first() + behind);
        assert forall|i: int| 0 <= i < d.drop_first().len() implies text::digit_value(
            #[trigger] d.drop_first()[i],
        ) < 10 by {
            assert(text::digit_value(d[i + 1]) < 10);
        }
        lemma_leading_digits_here(d.drop_first(), behind);
        assert(leading_digits(s) =~= d);
    }
}

/// The highest version of a skill is one of its versions, and none of them is
/// higher; a skill without versions has none.
pub proof fn no_version_is_higher(rows: Seq<SkillVersionView>, aspect: Seq<char>)
    ensures
        highest(rows, aspect) is None <==> forall|i: int|
            0 <= i < rows.len() ==> (#[trigger] rows[i]).aspect != aspect,
        highest(rows, aspect) matches Some(n) ==> (exists|i: int|
            0 <= i < rows.len() && (#[trigger] rows[i]).aspect == aspect && version_number(
                rows[i].version,
            ) == n) && forall|i: int|
            0 <= i < rows.len() && (#[trigger] rows[i]).aspect == aspect ==> version_number(
                rows[i].version,
            ) <= n,
    decreases rows.len(),
{
    if rows.len() > 0 {
        let rest = rows.drop_last();
        no_version_is_higher(rest, aspect);
        let last = rows.len() - 1;
        assert(rows[last] == rows.last());
        assert forall|i: int| 0 <= i < rest.len() implies #[trigger] rows[i] == rest[i] by {}
        if let Some(m) = highest(rest, aspect) {
            let i = choose|i: int|
                0 <= i < rest.len() && (#[trigger] rest[i]).aspect == aspect && version_number(
                    rest[i].version,
                ) == m;
            assert(rows[i].aspect == aspect);
            assert forall|j: int|
                0 <= j < rows.len() && (
                #[trigger] rows[j]).aspect == aspect implies version_number(rows[j].version)
                <= highest(rows, aspect)->0 by {
                if j < last {
                    assert(rest[j].aspect == aspect);
                }
            }
        } else {
            assert forall|j: int| 0 <= j < last implies (#[trigger] rows[j]).aspect != aspect by {
                assert(rest[j].aspect != aspect);
            }
        }
    }
}

/// Recording a version replaces the one of its name and keeps all others, behind
/// which it stands.
pub proof fn recording_keeps_the_other_versions(
    rows: Seq<SkillVersionView>,
    row: SkillVersionView,
)
    ensures
        with_version(rows, row) == rows.filter(
            |r: SkillVersionView| !(r.aspect == row.aspect && r.version == row.version),
        ).push(row),
{
    lemma_without_version(rows, row.aspect, row.version);
}

proof fn lemma_without_version(
    rows: Seq<SkillVersionView>,
    aspect: Seq<char>,
    version: Seq<char>,
)
    ensures
        without_version(rows, aspect, version) == rows.filter(
            |r: SkillVersionView| !(r.aspect == aspect && r.version == version),
        ),
    decreases rows.len(),
{
    reveal(Seq::filter);
    if rows.len() > 0 {
        lemma_without_version(rows.drop_last(), aspect, version);
    }
}

/// The versions of a skill are listed by their numbers, each as often as it was
/// recorded.
pub proof fn versions_are_listed_by_number(rows: Seq<SkillVersionView>, aspect: Seq<char>)
    ensures
        forall|i: int, j: int|
            0 <= i < j < numbered(rows, aspect).len() ==> version_number(
                (#[trigger] numbered(rows, aspect)[i]).version,
            ) <= version_number((#[trigger] numbered(rows, aspect)[j]).version),
        numbered(rows, aspect).to_multiset() == rows.filter(
            |r: SkillVersionView| r.aspect == aspect,
        ).to_multiset(),
    decreases rows.len(),
{
    broadcast use vstd::seq_lib::group_to_multiset_ensures;

    reveal(Seq::filter);
    let mine = |r: SkillVersionView| r.aspect == aspect;
    if rows.len() == 0 {
        assert(numbered(rows, aspect) =~= rows.filter(mine));
    } else {
        let rest = rows.drop_last();
        versions_are_listed_by_number(rest, aspect);
        if rows.last().aspect == aspect {
            lemma_numbered_with_here(numbered(rest, aspect), rows.last());
            assert(rows.filter(mine) =~= rest.filter(mine).push(rows.last()));
        }
    }
}

spec fn rising(list: Seq<SkillVersionView>) -> bool {
    forall|i: int, j: int|
        0 <= i < j < list.len() ==> version_number((#[trigger] list[i]).version)
            <= version_number((#[trigger] list[j]).version)
}

proof fn lemma_numbered_with_here(list: Seq<SkillVersionView>, row: SkillVersionView)
    requires
        rising(list),
    ensures
        rising(numbered_with(list, row)),
        numbered_with(list, row).to_multiset() == list.to_multiset().insert(row),
        forall|i: int|
            0 <= i < numbered_with(list, row).len() ==> #[trigger] numbered_with(list, row)[i]
                == row || list.contains(numbered_with(list, row)[i]),
    decreases list.len(),
{
    broadcast use vstd::seq_lib::group_to_multiset_ensures;

    let new = numbered_with(list, row);
    if list.len() == 0 || version_number(row.version) < version_number(list[0].version) {
        vstd::seq_lib::lemma_multiset_commutative(seq![row], list);
        assert(seq![row] =~= Seq::empty().push(row));
        assert(new.to_multiset() =~= list.to_multiset().insert(row));
        assert forall|i: int| 0 <= i < new.len() implies #[trigger] new[i] == row || list.contains(
            new[i],
        ) by {
            if i > 0 {
                assert(new[i] == list[i - 1]);
            }
        }
        assert forall|i: int, j: int| 0 <= i < j < new.len() implies version_number(
            (#[trigger] new[i]).version,
        ) <= version_number((#[trigger] new[j]).version) by {
            assert(new[j] == list[j - 1]);
            if i > 0 {
                assert(new[i] == list[i - 1]);
            } else if j > 1 {
                assert(version_number(list[0].version) <= version_number(list[j - 1].version));
            }
        }
    } else {
        let tail = list.drop_first();
        assert forall|i: int, j: int| 0 <= i < j < tail.len() implies version_number(
            (#[trigger] tail[i]).version,
        ) <= version_number((#[trigger] tail[j]).version) by {
            assert(tail[i] == list[i + 1] && tail[j] == list[j + 1]);
        }
        lemma_numbered_with_here(tail, row);
        let less = numbered_with(tail, row);
        vstd::seq_lib::lemma_multiset_commutative(seq![list[0]], less);
        vstd::seq_lib::lemma_multiset_commutative(seq![list[0]], tail);
        assert(seq![list[0]] + tail =~= list);
        assert(seq![list[0]] =~= Seq::empty().push(list[0]));
        assert(new.to_multiset() =~= list.to_multiset().insert(row));
        assert forall|i: int| 0 <= i < new.len() implies #[trigger] new[i] == row || list.contains(
            new[i],
        ) by {
            if i > 0 {
                assert(new[i] == less[i - 1]);
                if less[i - 1] != row {
                    let k = choose|k: int| 0 <= k < tail.len() && tail[k] == less[i - 1];
                    assert(list[k + 1] == less[i - 1]);
                }
            }
        }
        assert forall|i: int, j: int| 0 <= i < j < new.len() implies version_number(
            (#[trigger] new[i]).version,
        ) <= version_number((#[trigger] new[j]).version) by {
            assert(new[j] == less[j - 1]);
            if i > 0 {
                assert(new[i] == less[i - 1]);
            } else if less[j - 1] != row {
                let k = choose|k: int| 0 <= k < tail.len() && tail[k] == less[j - 1];
                assert(list[k + 1] == less[j - 1]);
                assert(version_number(list[0].version) <= version_number(list[k + 1].version));
            }
        }
    }
}

} // verus!
