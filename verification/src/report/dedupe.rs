//! How alike two short texts are: the share of three-character windows that
//! they have in common.

use vstd::prelude::*;

use crate::text;

verus! {

/// How alike two texts are: how many windows both have, of how many in all.
#[derive(Debug, Clone, Copy, PartialEq, Eq, Structural)]
pub struct Similarity {
    pub shared: u64,
    pub total: u128,
}

/// The three characters of a text from a position on.
pub open spec fn window(s: Seq<char>, i: int) -> (char, char, char) {
    (s[i], s[i + 1], s[i + 2])
}

/// The windows at the first `n` positions of a text, each once.
pub open spec fn first_windows(s: Seq<char>, n: nat) -> Seq<(char, char, char)>
    decreases n,
{
    if n == 0 {
        Seq::empty()
    } else {
        let before = first_windows(s, (n - 1) as nat);
        let w = window(s, n - 1);
        if before.contains(w) {
            before
        } else {
            before.push(w)
        }
    }
}

/// The windows of a text, each once. A text of fewer than three characters has
/// none.
pub open spec fn windows(s: Seq<char>) -> Seq<(char, char, char)> {
    if s.len() < 3 {
        Seq::empty()
    } else {
        first_windows(s, (s.len() - 2) as nat)
    }
}

/// How many of the windows of `a` are among those of `b`.
pub open spec fn shared_windows(a: Seq<(char, char, char)>, b: Seq<(char, char, char)>) -> nat
    decreases a.len(),
{
    if a.len() == 0 {
        0
    } else {
        shared_windows(a.drop_last(), b) + if b.contains(a.last()) {
            1nat
        } else {
            0
        }
    }
}

/// How many windows two texts share.
pub open spec fn shared_by(a: Seq<char>, b: Seq<char>) -> nat {
    shared_windows(windows(a), windows(b))
}

/// How many different windows two texts have together.
pub open spec fn total_of(a: Seq<char>, b: Seq<char>) -> int {
    windows(a).len() + windows(b).len() - shared_by(a, b)
}

/// How alike two texts are.
pub open spec fn similarity_of(a: Seq<char>, b: Seq<char>) -> Similarity {
    Similarity { shared: shared_by(a, b) as u64, total: total_of(a, b) as u128 }
}

impl Similarity {
    /// The share is `percent` in a hundred at least. Without any window it is
    /// not.
    pub open spec fn reaches(self, percent: nat) -> bool {
        self.total > 0 && self.shared * 100 >= percent * self.total
    }

    /// The share is smaller than another.
    pub open spec fn below(self, other: Similarity) -> bool {
        self.shared * other.total < other.shared * self.total
    }

    /// There are not more windows than two texts can have.
    pub open spec fn sound(self) -> bool {
        self.total <= 0x1_ffff_ffff_ffff_ffff
    }

    /// Whether the share is `percent` in a hundred at least.
    pub fn at_least(self, percent: u8) -> (r: bool)
        requires
            self.sound(),
        ensures
            r == self.reaches(percent as nat),
    {
        proof {
            assert(percent * self.total <= u128::MAX) by (nonlinear_arith)
                requires
                    percent <= 255,
                    self.total <= 0x1_ffff_ffff_ffff_ffff,
            ;
        }
        self.total > 0 && self.shared as u128 * 100 >= percent as u128 * self.total
    }

    /// Whether the share is smaller than another.
    pub fn less_than(self, other: Similarity) -> (r: bool)
        requires
            self.sound(),
            other.sound(),
        ensures
            r == self.below(other),
    {
        let a: u128 = self.shared as u128;
        let b: u128 = other.shared as u128;
        let half_t: u128 = other.total / 2;
        let bit_t: u128 = other.total % 2;
        let half_s: u128 = self.total / 2;
        let bit_s: u128 = self.total % 2;
        proof {
            assert(half_t <= 0xffff_ffff_ffff_ffff && half_s <= 0xffff_ffff_ffff_ffff);
            assert(a * half_t <= u128::MAX) by (nonlinear_arith)
                requires
                    a <= 0xffff_ffff_ffff_ffff,
                    half_t <= 0xffff_ffff_ffff_ffff,
            ;
            assert(b * half_s <= u128::MAX) by (nonlinear_arith)
                requires
                    b <= 0xffff_ffff_ffff_ffff,
                    half_s <= 0xffff_ffff_ffff_ffff,
            ;
            assert(a * bit_t <= a) by (nonlinear_arith)
                requires
                    bit_t <= 1,
            ;
            assert(b * bit_s <= b) by (nonlinear_arith)
                requires
                    bit_s <= 1,
            ;
            assert(a * other.total == 2 * (a * half_t) + a * bit_t) by (nonlinear_arith)
                requires
                    other.total == 2 * half_t + bit_t,
            ;
            assert(b * self.total == 2 * (b * half_s) + b * bit_s) by (nonlinear_arith)
                requires
                    self.total == 2 * half_s + bit_s,
            ;
        }
        let left: u128 = a * half_t;
        let right: u128 = b * half_s;
        let left_rest: u128 = a * bit_t;
        let right_rest: u128 = b * bit_s;
        if left >= right {
            let more: u128 = left - right;
            more < 0x1_0000_0000_0000_0000 && 2 * more + left_rest < right_rest
        } else {
            let more: u128 = right - left;
            more >= 0x1_0000_0000_0000_0000 || left_rest < 2 * more + right_rest
        }
    }
}

fn contains_window(list: &Vec<(char, char, char)>, w: (char, char, char)) -> (found: bool)
    ensures
        found == list@.contains(w),
{
    let mut i: usize = 0;
    while i < list.len()
        invariant
            0 <= i <= list@.len(),
            forall|j: int| 0 <= j < i ==> list@[j] != w,
        decreases list.len() - i,
    {
        let other: (char, char, char) = list[i];
        if other.0 == w.0 && other.1 == w.1 && other.2 == w.2 {
            proof {
                assert(list@[i as int] == w);
            }
            return true;
        }
        i += 1;
    }
    false
}

fn windows_of(s: &str) -> (found: Vec<(char, char, char)>)
    ensures
        found@ == windows(s@),
        found@.len() <= s@.len(),
{
    let chars: Vec<char> = text::chars_of(s);
    let mut found: Vec<(char, char, char)> = Vec::new();
    if chars.len() < 3 {
        return found;
    }
    let mut i: usize = 0;
    while i < chars.len() - 2
        invariant
            chars@ == s@,
            chars@.len() >= 3,
            0 <= i <= chars@.len() - 2,
            found@ == first_windows(s@, i as nat),
            found@.len() <= i,
        decreases chars.len() - i,
    {
        let w: (char, char, char) = (chars[i], chars[i + 1], chars[i + 2]);
        if !contains_window(&found, w) {
            found.push(w);
        }
        i += 1;
    }
    found
}

/// How alike two texts are.
pub fn title_similarity(a: &str, b: &str) -> (s: Similarity)
    ensures
        s == similarity_of(a@, b@),
        s.shared == shared_by(a@, b@),
        s.total == total_of(a@, b@),
        s.sound(),
{
    let ours: Vec<(char, char, char)> = windows_of(a);
    let theirs: Vec<(char, char, char)> = windows_of(b);
    let mut shared: u64 = 0;
    let mut i: usize = 0;
    while i < ours.len()
        invariant
            0 <= i <= ours@.len(),
            shared == shared_windows(ours@.take(i as int), theirs@),
            shared <= i,
        decreases ours.len() - i,
    {
        proof {
            assert(ours@.take(i + 1).drop_last() =~= ours@.take(i as int));
            assert(ours@.take(i + 1).last() == ours@[i as int]);
        }
        if contains_window(&theirs, ours[i]) {
            shared += 1;
        }
        i += 1;
    }
    proof {
        assert(ours@.take(ours@.len() as int) =~= ours@);
    }
    let total: u128 = (ours.len() as u128 + theirs.len() as u128) - shared as u128;
    Similarity { shared, total }
}

proof fn lemma_windows_fit(s: Seq<char>, n: nat)
    ensures
        first_windows(s, n).len() <= n,
    decreases n,
{
    if n > 0 {
        lemma_windows_fit(s, (n - 1) as nat);
    }
}

proof fn lemma_shared_fit(a: Seq<(char, char, char)>, b: Seq<(char, char, char)>)
    ensures
        shared_windows(a, b) <= a.len(),
        b.len() == 0 ==> shared_windows(a, b) == 0,
    decreases a.len(),
{
    if a.len() > 0 {
        lemma_shared_fit(a.drop_last(), b);
    }
}

/// Texts without any window share none.
pub proof fn lemma_similarity_is_sound(a: Seq<char>, b: Seq<char>)
    requires
        a.len() <= u64::MAX,
        b.len() <= u64::MAX,
    ensures
        similarity_of(a, b).shared == shared_by(a, b),
        similarity_of(a, b).total == total_of(a, b),
        total_of(a, b) == 0 ==> shared_by(a, b) == 0,
{
    if a.len() >= 3 {
        lemma_windows_fit(a, (a.len() - 2) as nat);
    }
    if b.len() >= 3 {
        lemma_windows_fit(b, (b.len() - 2) as nat);
    }
    lemma_shared_fit(windows(a), windows(b));
}

/// The windows of a text are its runs of three characters, each once.
pub proof fn windows_are_runs_of_three(s: Seq<char>, w: (char, char, char))
    ensures
        windows(s).contains(w) <==> exists|i: int|
            0 <= i && i + 2 < s.len() && #[trigger] s[i] == w.0 && s[i + 1] == w.1 && s[i + 2]
                == w.2,
        windows(s).no_duplicates(),
{
    if s.len() >= 3 {
        lemma_first_windows(s, (s.len() - 2) as nat, w);
    }
}

proof fn lemma_first_windows(s: Seq<char>, n: nat, w: (char, char, char))
    requires
        n + 2 <= s.len(),
    ensures
        first_windows(s, n).contains(w) <==> exists|i: int|
            0 <= i < n && #[trigger] s[i] == w.0 && s[i + 1] == w.1 && s[i + 2] == w.2,
        first_windows(s, n).no_duplicates(),
    decreases n,
{
    if n > 0 {
        let before = first_windows(s, (n - 1) as nat);
        let last = window(s, n - 1);
        lemma_first_windows(s, (n - 1) as nat, w);
        if before.contains(w) {
            let i = choose|i: int|
                0 <= i < n - 1 && #[trigger] s[i] == w.0 && s[i + 1] == w.1 && s[i + 2] == w.2;
            let k = choose|k: int| 0 <= k < before.len() && before[k] == w;
            assert(before.push(last)[k] == w);
        }
        assert(before.push(last)[before.len() as int] == last);
        if w == last {
            assert(s[n - 1] == w.0 && s[n - 1 + 1] == w.1 && s[n - 1 + 2] == w.2);
        }
        if exists|i: int|
            0 <= i < n && #[trigger] s[i] == w.0 && s[i + 1] == w.1 && s[i + 2] == w.2 {
            let i = choose|i: int|
                0 <= i < n && #[trigger] s[i] == w.0 && s[i + 1] == w.1 && s[i + 2] == w.2;
            if i == n - 1 {
                assert(w == last);
            }
        }
    }
}

/// What two texts share is counted once, and all that they have is what either
/// has: the sizes of the two sets' intersection and union.
pub proof fn similarity_is_shared_over_all(a: Seq<char>, b: Seq<char>)
    ensures
        ({
            let (x, y) = (windows(a).to_set(), windows(b).to_set());
            &&& shared_by(a, b) == x.intersect(y).len()
            &&& total_of(a, b) == x.union(y).len()
            &&& shared_by(a, b) == shared_by(b, a)
            &&& total_of(a, b) == total_of(b, a)
            &&& shared_by(a, b) <= total_of(a, b)
            &&& shared_by(a, a) == total_of(a, a)
        }),
{
    let (x, y) = (windows(a).to_set(), windows(b).to_set());
    windows_are_runs_of_three(a, ('a', 'a', 'a'));
    windows_are_runs_of_three(b, ('a', 'a', 'a'));
    windows(a).unique_seq_to_set();
    windows(b).unique_seq_to_set();
    lemma_shared_windows(windows(a), windows(b));
    lemma_shared_windows(windows(b), windows(a));
    lemma_shared_windows(windows(a), windows(a));
    assert(x.intersect(y) =~= y.intersect(x));
    assert(x.intersect(x) =~= x);
    vstd::set_lib::lemma_set_intersect_union_lens(x, y);
    vstd::set_lib::lemma_len_intersect(x, y);
    assert(x.union(y) =~= y.union(x));
    vstd::set_lib::lemma_len_union(x, y);
    vstd::set_lib::lemma_len_subset(x.intersect(y), x.union(y));
}

proof fn lemma_shared_windows(a: Seq<(char, char, char)>, b: Seq<(char, char, char)>)
    requires
        a.no_duplicates(),
    ensures
        shared_windows(a, b) == a.to_set().intersect(b.to_set()).len(),
        a.to_set().intersect(b.to_set()).finite(),
    decreases a.len(),
{
    let y = b.to_set();
    if a.len() == 0 {
        assert(a.to_set().intersect(y) =~= Set::empty());
    } else {
        let rest = a.drop_last();
        lemma_shared_windows(rest, b);
        let w = a.last();
        assert(a =~= rest.push(w));
        assert forall|v: (char, char, char)| a.to_set().contains(v) <==> rest.to_set().contains(v)
            || v == w by {
            if rest.contains(v) {
                let k = choose|k: int| 0 <= k < rest.len() && rest[k] == v;
                assert(a[k] == v);
            }
            assert(a[a.len() - 1] == w);
            if a.contains(v) && v != w {
                let k = choose|k: int| 0 <= k < a.len() && a[k] == v;
                assert(rest[k] == v);
            }
        }
        assert(!rest.contains(w)) by {
            if rest.contains(w) {
                let k = choose|k: int| 0 <= k < rest.len() && rest[k] == w;
                assert(a[k] == w && a[a.len() - 1] == w);
            }
        }
        if b.contains(w) {
            assert(a.to_set().intersect(y) =~= rest.to_set().intersect(y).insert(w));
        } else {
            assert(a.to_set().intersect(y) =~= rest.to_set().intersect(y));
        }
    }
}

/// A share of the whole that reaches a percentage reaches every lower one, and one
/// that does not is below one that does.
pub proof fn shares_are_compared_by_their_size(s: Similarity, t: Similarity, percent: nat, less: nat)
    requires
        less <= percent,
    ensures
        s.reaches(percent) ==> s.reaches(less),
        s.shared > 0 && s.shared == s.total ==> s.reaches(100),
        s.total > 0 && s.shared < s.total ==> !s.reaches(100),
        s.shared == 0 && percent > 0 ==> !s.reaches(percent),
        s.total > 0 && t.reaches(percent) && !s.reaches(percent) ==> s.below(t),
        s.below(t) ==> !t.below(s),
        s.total == t.total && s.total > 0 ==> (s.below(t) <==> s.shared < t.shared),
        s.shared == t.shared && s.shared > 0 ==> (s.below(t) <==> t.total < s.total),
{
    let (ss, st, ts, tt) = (s.shared as int, s.total as int, t.shared as int, t.total as int);
    let (p, l) = (percent as int, less as int);
    assert(l * st <= p * st) by (nonlinear_arith)
        requires
            l <= p,
            st >= 0,
    ;
    if p > 0 && st > 0 {
        assert(p * st > 0) by (nonlinear_arith)
            requires
                p > 0,
                st > 0,
        ;
    }
    if s.total > 0 && t.reaches(percent) && !s.reaches(percent) {
        assert(ss * tt < ts * st) by (nonlinear_arith)
            requires
                st > 0,
                tt > 0,
                ts * 100 >= p * tt,
                ss * 100 < p * st,
        {
            assert(ss * 100 * tt < p * st * tt) by (nonlinear_arith)
                requires
                    ss * 100 < p * st,
                    tt > 0,
            ;
            assert(p * tt * st <= ts * 100 * st) by (nonlinear_arith)
                requires
                    ts * 100 >= p * tt,
                    st > 0,
            ;
            assert(p * st * tt == p * tt * st) by (nonlinear_arith);
            assert(ss * 100 * tt == 100 * (ss * tt)) by (nonlinear_arith);
            assert(ts * 100 * st == 100 * (ts * st)) by (nonlinear_arith);
        }
    }
    if st == tt && st > 0 {
        assert((ss * tt < ts * st) == (ss < ts)) by (nonlinear_arith)
            requires
                st == tt,
                st > 0,
        ;
    }
    if ss == ts && ss > 0 {
        assert((ss * tt < ts * st) == (tt < st)) by (nonlinear_arith)
            requires
                ss == ts,
                ss > 0,
        ;
    }
}

} // verus!
