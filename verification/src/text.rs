//! Text as sequences of characters.

use vstd::prelude::*;

verus! {

/// The views of a list of values, one by one.
pub open spec fn views<T: View>(items: Seq<T>) -> Seq<T::V> {
    Seq::new(items.len(), |i: int| items[i]@)
}

/// Appending a value appends its view.
pub proof fn lemma_views_push<T: View>(items: Seq<T>, item: T)
    ensures
        views(items.push(item)) == views(items).push(item@),
{
    assert(views(items.push(item)) =~= views(items).push(item@));
}

/// The characters of a text.
pub fn chars_of(s: &str) -> (chars: Vec<char>)
    ensures
        chars@ == s@,
{
    let mut chars: Vec<char> = Vec::new();
    for c in it: s.chars()
        invariant
            chars@ == it.seq().take(it.index() as int),
            it.seq() == s@,
    {
        proof {
            assert(it.seq().take(it.index() + 1) =~= it.seq().take(it.index() as int).push(c));
        }
        chars.push(c);
    }
    proof {
        assert(s@.take(s@.len() as int) =~= s@);
    }
    chars
}

/// `part` stands in `s` at position `i`.
pub open spec fn occurs_at(s: Seq<char>, part: Seq<char>, i: int) -> bool {
    0 <= i && i + part.len() <= s.len() && s.subrange(i, i + part.len()) == part
}

/// `part` stands somewhere in `s`.
pub open spec fn has(s: Seq<char>, part: Seq<char>) -> bool {
    exists|i: int| #[trigger] occurs_at(s, part, i)
}

/// `s` begins with `part`.
pub open spec fn begins(s: Seq<char>, part: Seq<char>) -> bool {
    occurs_at(s, part, 0)
}

/// `s` ends with `part`.
pub open spec fn ends(s: Seq<char>, part: Seq<char>) -> bool {
    occurs_at(s, part, s.len() - part.len())
}

/// Whether `part` stands in `s` at position `i`.
pub fn chars_at(s: &Vec<char>, part: &Vec<char>, i: usize) -> (r: bool)
    ensures
        r == occurs_at(s@, part@, i as int),
{
    if part.len() > s.len() || i > s.len() - part.len() {
        return false;
    }
    let mut k: usize = 0;
    while k < part.len()
        invariant
            0 <= k <= part@.len(),
            i + part.len() <= s.len(),
            forall|j: int| 0 <= j < k ==> s@[i + j] == #[trigger] part@[j],
        decreases part.len() - k,
    {
        if s[i + k] != part[k] {
            proof {
                assert(s@.subrange(i as int, i + part@.len())[k as int] != part@[k as int]);
            }
            return false;
        }
        k += 1;
    }
    proof {
        assert(s@.subrange(i as int, i + part@.len()) =~= part@);
    }
    true
}

/// The first position, from `from` on, at which `part` stands in `s`.
pub fn chars_find(s: &Vec<char>, part: &Vec<char>, from: usize) -> (found: Option<usize>)
    ensures
        match found {
            Some(i) => {
                &&& from <= i
                &&& occurs_at(s@, part@, i as int)
                &&& forall|j: int| from <= j < i ==> !#[trigger] occurs_at(s@, part@, j)
            },
            None => forall|j: int| from <= j ==> !#[trigger] occurs_at(s@, part@, j),
        },
{
    let mut i: usize = from;
    while i <= s.len()
        invariant
            from <= i,
            from <= s@.len() ==> i <= s@.len() + 1,
            s@.len() < usize::MAX || i <= s@.len(),
            forall|j: int| from <= j < i ==> !#[trigger] occurs_at(s@, part@, j),
        decreases s.len() + 1 - i,
    {
        if chars_at(s, part, i) {
            return Some(i);
        }
        if i == s.len() {
            return None;
        }
        i += 1;
    }
    None
}

/// Whether `part` stands somewhere in `s`.
pub fn contains(s: &str, part: &str) -> (r: bool)
    ensures
        r == has(s@, part@),
{
    chars_find(&chars_of(s), &chars_of(part), 0).is_some()
}

/// Whether `s` begins with `part`.
pub fn starts_with(s: &str, part: &str) -> (r: bool)
    ensures
        r == begins(s@, part@),
{
    chars_at(&chars_of(s), &chars_of(part), 0)
}

/// Whether `s` ends with `part`.
pub fn ends_with(s: &str, part: &str) -> (r: bool)
    ensures
        r == ends(s@, part@),
{
    let whole: Vec<char> = chars_of(s);
    let tail: Vec<char> = chars_of(part);
    if tail.len() > whole.len() {
        return false;
    }
    chars_at(&whole, &tail, whole.len() - tail.len())
}

/// `s` without the characters `c` that it begins with.
pub open spec fn strip_leading(s: Seq<char>, c: char) -> Seq<char>
    decreases s.len(),
{
    if s.len() > 0 && s[0] == c {
        strip_leading(s.drop_first(), c)
    } else {
        s
    }
}

/// `s` without the characters `c` that it begins with.
pub fn trim_leading(s: &str, c: char) -> (rest: &str)
    ensures
        rest@ == strip_leading(s@, c),
{
    let chars: Vec<char> = chars_of(s);
    let mut i: usize = 0;
    proof {
        assert(s@.skip(0) =~= s@);
    }
    while i < chars.len() && chars[i] == c
        invariant
            0 <= i <= chars@.len(),
            chars@ == s@,
            strip_leading(s@, c) == strip_leading(s@.skip(i as int), c),
        decreases chars.len() - i,
    {
        proof {
            assert(s@.skip(i as int).drop_first() =~= s@.skip(i + 1));
        }
        i += 1;
    }
    proof {
        assert(s@.skip(i as int) =~= s@.subrange(i as int, s@.len() as int));
    }
    s.substring_char(i, chars.len())
}

/// What a list with one more element contains.
pub proof fn lemma_push_contains<A>(s: Seq<A>, x: A, y: A)
    ensures
        s.push(x).contains(y) <==> s.contains(y) || x == y,
{
    assert(s.push(x)[s.len() as int] == x);
    if s.contains(y) {
        let k = choose|k: int| 0 <= k < s.len() && s[k] == y;
        assert(s.push(x)[k] == y);
    }
    if s.push(x).contains(y) {
        let k = choose|k: int| 0 <= k < s.push(x).len() && s.push(x)[k] == y;
        if k < s.len() {
            assert(s[k] == y);
        }
    }
}

/// What two lists together contain.
pub proof fn lemma_joined_contains<A>(a: Seq<A>, b: Seq<A>, x: A)
    ensures
        (a + b).contains(x) <==> a.contains(x) || b.contains(x),
{
    if a.contains(x) {
        let i = choose|i: int| 0 <= i < a.len() && a[i] == x;
        assert((a + b)[i] == x);
    }
    if b.contains(x) {
        let i = choose|i: int| 0 <= i < b.len() && b[i] == x;
        assert((a + b)[a.len() + i] == x);
    }
    if (a + b).contains(x) {
        let i = choose|i: int| 0 <= i < (a + b).len() && (a + b)[i] == x;
        if i < a.len() {
            assert(a[i] == x);
        } else {
            assert(b[i - a.len()] == x);
        }
    }
}

/// Whether `wanted` is among `items`.
pub fn contains_text(items: &Vec<String>, wanted: &str) -> (found: bool)
    ensures
        found == views(items@).contains(wanted@),
{
    let mut i: usize = 0;
    while i < items.len()
        invariant
            0 <= i <= items@.len(),
            forall|k: int| 0 <= k < i ==> (#[trigger] items@[k])@ != wanted@,
        decreases items.len() - i,
    {
        if same(items[i].as_str(), wanted) {
            assert(views(items@)[i as int] == wanted@);
            return true;
        }
        i += 1;
    }
    proof {
        assert forall|k: int| 0 <= k < views(items@).len() implies views(items@)[k] != wanted@ by {
            assert(items@[k]@ != wanted@);
        }
    }
    false
}

/// Whether two texts are the same, character for character.
pub fn same(a: &str, b: &str) -> (r: bool)
    ensures
        r == (a@ == b@),
{
    let x: &[u8] = a.as_bytes();
    let y: &[u8] = b.as_bytes();
    proof {
        vstd::utf8::encode_utf8_decode_utf8(a@);
        vstd::utf8::encode_utf8_decode_utf8(b@);
    }
    if x.len() != y.len() {
        return false;
    }
    let mut i: usize = 0;
    while i < x.len()
        invariant
            0 <= i <= x@.len(),
            x@.len() == y@.len(),
            x@ == vstd::utf8::encode_utf8(a@),
            y@ == vstd::utf8::encode_utf8(b@),
            forall|k: int| 0 <= k < i ==> x@[k] == y@[k],
        decreases x.len() - i,
    {
        if x[i] != y[i] {
            return false;
        }
        i += 1;
    }
    proof {
        assert(x@ =~= y@);
    }
    true
}

/// The position of the first `c` in `s`, or the length of `s` without one.
pub open spec fn first_at(s: Seq<char>, c: char) -> int
    decreases s.len(),
{
    if s.len() == 0 || s[0] == c {
        0
    } else {
        1 + first_at(s.drop_first(), c)
    }
}

/// What stands before and behind the first `c` in `s`, if there is one.
pub open spec fn split_first(s: Seq<char>, c: char) -> Option<(Seq<char>, Seq<char>)> {
    if first_at(s, c) < s.len() {
        Some((s.take(first_at(s, c)), s.skip(first_at(s, c) + 1)))
    } else {
        None
    }
}

/// What `first_at` finds: a `c` without another before it.
pub proof fn lemma_first_at(s: Seq<char>, c: char, i: int)
    requires
        0 <= i <= s.len(),
        forall|j: int| 0 <= j < i ==> s[j] != c,
        i < s.len() ==> s[i] == c,
    ensures
        first_at(s, c) == i,
    decreases s.len(),
{
    if s.len() > 0 && s[0] != c {
        let rest = s.drop_first();
        assert forall|j: int| 0 <= j < i - 1 implies rest[j] != c by {
            assert(rest[j] == s[j + 1]);
        }
        lemma_first_at(rest, c, i - 1);
    }
}

/// What stands before and behind the first `c` in `s`, if there is one.
pub fn split_once<'a>(s: &'a str, c: char) -> (parts: Option<(&'a str, &'a str)>)
    ensures
        match parts {
            Some((before, behind)) => split_first(s@, c) == Some((before@, behind@)),
            None => split_first(s@, c) is None,
        },
{
    let chars: Vec<char> = chars_of(s);
    let mut i: usize = 0;
    while i < chars.len()
        invariant
            0 <= i <= chars@.len(),
            chars@ == s@,
            forall|j: int| 0 <= j < i ==> s@[j] != c,
        decreases chars.len() - i,
    {
        if chars[i] == c {
            proof {
                lemma_first_at(s@, c, i as int);
                assert(s@.take(i as int) =~= s@.subrange(0, i as int));
                assert(s@.skip(i + 1) =~= s@.subrange(i + 1, s@.len() as int));
            }
            return Some((s.substring_char(0, i), s.substring_char(i + 1, chars.len())));
        }
        i += 1;
    }
    proof {
        lemma_first_at(s@, c, s@.len() as int);
    }
    None
}

/// Whether `wanted` is among `items`.
pub fn contains_str(items: &[&str], wanted: &str) -> (found: bool)
    ensures
        found == views(items@).contains(wanted@),
{
    let mut i: usize = 0;
    while i < items.len()
        invariant
            0 <= i <= items@.len(),
            forall|k: int| 0 <= k < i ==> (#[trigger] items@[k])@ != wanted@,
        decreases items.len() - i,
    {
        if same(items[i], wanted) {
            assert(views(items@)[i as int] == wanted@);
            return true;
        }
        i += 1;
    }
    proof {
        assert forall|k: int| 0 <= k < views(items@).len() implies views(items@)[k] != wanted@ by {
            assert(items@[k]@ != wanted@);
        }
    }
    false
}

/// The characters with Unicode's White_Space property.
pub open spec fn is_space(c: char) -> bool {
    let n = c as u32;
    ||| 0x09 <= n <= 0x0d
    ||| n == 0x20
    ||| n == 0x85
    ||| n == 0xa0
    ||| n == 0x1680
    ||| 0x2000 <= n <= 0x200a
    ||| n == 0x2028
    ||| n == 0x2029
    ||| n == 0x202f
    ||| n == 0x205f
    ||| n == 0x3000
}

/// Whether a character has Unicode's White_Space property.
pub fn whitespace(c: char) -> (r: bool)
    ensures
        r == is_space(c),
{
    let n: u32 = c as u32;
    (0x09 <= n && n <= 0x0d) || n == 0x20 || n == 0x85 || n == 0xa0 || n == 0x1680 || (0x2000 <= n
        && n <= 0x200a) || n == 0x2028 || n == 0x2029 || n == 0x202f || n == 0x205f || n == 0x3000
}

/// `s` without the white space that it begins with.
pub open spec fn trimmed_start(s: Seq<char>) -> Seq<char>
    decreases s.len(),
{
    if s.len() > 0 && is_space(s[0]) {
        trimmed_start(s.drop_first())
    } else {
        s
    }
}

/// `s` without the white space that it ends with.
pub open spec fn trimmed_end(s: Seq<char>) -> Seq<char>
    decreases s.len(),
{
    if s.len() > 0 && is_space(s.last()) {
        trimmed_end(s.drop_last())
    } else {
        s
    }
}

/// `s` without the white space that it begins and ends with.
pub open spec fn trimmed(s: Seq<char>) -> Seq<char> {
    trimmed_end(trimmed_start(s))
}

/// `s` without the white space that it begins with.
pub fn trim_start(s: &str) -> (rest: &str)
    ensures
        rest@ == trimmed_start(s@),
{
    let chars: Vec<char> = chars_of(s);
    let mut i: usize = 0;
    proof {
        assert(s@.skip(0) =~= s@);
    }
    while i < chars.len() && whitespace(chars[i])
        invariant
            0 <= i <= chars@.len(),
            chars@ == s@,
            trimmed_start(s@) == trimmed_start(s@.skip(i as int)),
        decreases chars.len() - i,
    {
        proof {
            assert(s@.skip(i as int).drop_first() =~= s@.skip(i + 1));
        }
        i += 1;
    }
    proof {
        assert(s@.skip(i as int) =~= s@.subrange(i as int, s@.len() as int));
    }
    s.substring_char(i, chars.len())
}

/// `s` without the white space that it ends with.
pub fn trim_end(s: &str) -> (rest: &str)
    ensures
        rest@ == trimmed_end(s@),
{
    let chars: Vec<char> = chars_of(s);
    let mut n: usize = chars.len();
    proof {
        assert(s@.take(s@.len() as int) =~= s@);
    }
    while n > 0 && whitespace(chars[n - 1])
        invariant
            0 <= n <= chars@.len(),
            chars@ == s@,
            trimmed_end(s@) == trimmed_end(s@.take(n as int)),
        decreases n,
    {
        proof {
            assert(s@.take(n as int).drop_last() =~= s@.take(n - 1));
        }
        n -= 1;
    }
    proof {
        assert(s@.take(n as int) =~= s@.subrange(0, n as int));
    }
    s.substring_char(0, n)
}

/// `s` without the white space that it begins and ends with.
pub fn trim(s: &str) -> (rest: &str)
    ensures
        rest@ == trimmed(s@),
{
    trim_end(trim_start(s))
}

/// `a` comes before `b` in the order of their characters' code points.
pub open spec fn precedes(a: Seq<char>, b: Seq<char>) -> bool
    decreases a.len(),
{
    if b.len() == 0 {
        false
    } else if a.len() == 0 {
        true
    } else if a[0] != b[0] {
        (a[0] as u32) < (b[0] as u32)
    } else {
        precedes(a.drop_first(), b.drop_first())
    }
}

/// Whether `a` comes before `b` in the order of their characters' code points.
pub fn before(a: &str, b: &str) -> (r: bool)
    ensures
        r == precedes(a@, b@),
{
    let x: Vec<char> = chars_of(a);
    let y: Vec<char> = chars_of(b);
    let mut i: usize = 0;
    proof {
        assert(a@.skip(0) =~= a@);
        assert(b@.skip(0) =~= b@);
    }
    while i < x.len() && i < y.len()
        invariant
            0 <= i <= x@.len(),
            i <= y@.len(),
            x@ == a@,
            y@ == b@,
            precedes(a@, b@) == precedes(a@.skip(i as int), b@.skip(i as int)),
        decreases x.len() - i,
    {
        proof {
            assert(a@.skip(i as int)[0] == a@[i as int]);
            assert(b@.skip(i as int)[0] == b@[i as int]);
            assert(a@.skip(i as int).drop_first() =~= a@.skip(i + 1));
            assert(b@.skip(i as int).drop_first() =~= b@.skip(i + 1));
        }
        if x[i] != y[i] {
            let less: bool = (x[i] as u32) < (y[i] as u32);
            return less;
        }
        i += 1;
    }
    i < y.len()
}

/// The order of texts is total.
pub proof fn lemma_precedes_total(a: Seq<char>, b: Seq<char>)
    ensures
        a == b || precedes(a, b) || precedes(b, a),
    decreases a.len(),
{
    if a.len() > 0 && b.len() > 0 && a[0] == b[0] {
        lemma_precedes_total(a.drop_first(), b.drop_first());
        if a.drop_first() == b.drop_first() {
            assert(a =~= seq![a[0]] + a.drop_first());
            assert(b =~= seq![b[0]] + b.drop_first());
        }
    } else if a.len() == 0 && b.len() == 0 {
        assert(a =~= b);
    } else if a.len() > 0 && b.len() > 0 {
        vstd::utf8::char_u32_cast(a[0], a[0] as u32);
        vstd::utf8::char_u32_cast(b[0], b[0] as u32);
    }
}

/// The order of texts is strict.
pub proof fn lemma_precedes_strict(a: Seq<char>, b: Seq<char>)
    ensures
        !(precedes(a, b) && precedes(b, a)),
        !precedes(a, a),
    decreases a.len(),
{
    if a.len() > 0 {
        if b.len() > 0 {
            lemma_precedes_strict(a.drop_first(), b.drop_first());
        } else {
            lemma_precedes_strict(a.drop_first(), b);
        }
    }
}

/// The order of texts is transitive.
pub proof fn lemma_precedes_transitive(a: Seq<char>, b: Seq<char>, c: Seq<char>)
    requires
        precedes(a, b),
        precedes(b, c),
    ensures
        precedes(a, c),
    decreases a.len(),
{
    if a.len() > 0 && a[0] == b[0] && b[0] == c[0] {
        lemma_precedes_transitive(a.drop_first(), b.drop_first(), c.drop_first());
    }
}

/// An ordered list without repetitions, with `x` in its place.
pub open spec fn ordered_with(list: Seq<Seq<char>>, x: Seq<char>) -> Seq<Seq<char>>
    decreases list.len(),
{
    if list.len() == 0 {
        seq![x]
    } else if x == list[0] {
        list
    } else if precedes(x, list[0]) {
        seq![x] + list
    } else {
        seq![list[0]] + ordered_with(list.drop_first(), x)
    }
}

/// The texts of a list in order and without repetitions.
pub open spec fn ordered_set(items: Seq<Seq<char>>) -> Seq<Seq<char>>
    decreases items.len(),
{
    if items.len() == 0 {
        Seq::empty()
    } else {
        ordered_with(ordered_set(items.drop_last()), items.last())
    }
}

/// Every text of the list comes before those behind it.
pub open spec fn strictly_ordered(list: Seq<Seq<char>>) -> bool {
    forall|i: int, j: int| 0 <= i < j < list.len() ==> precedes(#[trigger] list[i], #[trigger] list[j])
}

proof fn lemma_ordered_with(list: Seq<Seq<char>>, x: Seq<char>)
    requires
        strictly_ordered(list),
    ensures
        strictly_ordered(ordered_with(list, x)),
        forall|y: Seq<char>| #[trigger]
            ordered_with(list, x).contains(y) <==> list.contains(y) || x == y,
    decreases list.len(),
{
    let result = ordered_with(list, x);
    if list.len() == 0 {
        assert forall|y: Seq<char>| #[trigger] result.contains(y) <==> list.contains(y) || x == y by {
            assert(result[0] == x);
        }
    } else if x == list[0] {
    } else if precedes(x, list[0]) {
        assert forall|i: int, j: int| 0 <= i < j < result.len() implies precedes(
            #[trigger] result[i],
            #[trigger] result[j],
        ) by {
            assert(result[j] == list[j - 1]);
            if i == 0 {
                if j > 1 {
                    assert(precedes(list[0], list[j - 1]));
                    lemma_precedes_transitive(x, list[0], list[j - 1]);
                }
            } else {
                assert(result[i] == list[i - 1]);
            }
        }
        assert forall|y: Seq<char>| #[trigger] result.contains(y) <==> list.contains(y) || x == y by {
            lemma_cons_contains(x, list, y);
        }
    } else {
        let rest = list.drop_first();
        let tail = ordered_with(rest, x);
        lemma_precedes_total(x, list[0]);
        assert(strictly_ordered(rest)) by {
            assert forall|i: int, j: int| 0 <= i < j < rest.len() implies precedes(
                #[trigger] rest[i],
                #[trigger] rest[j],
            ) by {
                assert(rest[i] == list[i + 1] && rest[j] == list[j + 1]);
            }
        }
        lemma_ordered_with(rest, x);
        assert forall|i: int, j: int| 0 <= i < j < result.len() implies precedes(
            #[trigger] result[i],
            #[trigger] result[j],
        ) by {
            assert(result[j] == tail[j - 1]);
            if i == 0 {
                assert(tail.contains(tail[j - 1]));
                if tail[j - 1] != x {
                    let k = choose|k: int| 0 <= k < rest.len() && rest[k] == tail[j - 1];
                    assert(list[k + 1] == tail[j - 1]);
                }
            } else {
                assert(result[i] == tail[i - 1]);
            }
        }
        assert forall|y: Seq<char>| #[trigger] result.contains(y) <==> list.contains(y) || x == y by {
            lemma_cons_contains(list[0], tail, y);
            lemma_cons_contains(list[0], rest, y);
            assert(list =~= seq![list[0]] + rest);
        }
    }
}

proof fn lemma_cons_contains<A>(x: A, list: Seq<A>, y: A)
    ensures
        (seq![x] + list).contains(y) <==> x == y || list.contains(y),
{
    let all = seq![x] + list;
    if x == y {
        assert(all[0] == y);
    }
    if list.contains(y) {
        let k = choose|k: int| 0 <= k < list.len() && list[k] == y;
        assert(all[k + 1] == y);
    }
    if all.contains(y) {
        let k = choose|k: int| 0 <= k < all.len() && all[k] == y;
        if k > 0 {
            assert(list[k - 1] == y);
        }
    }
}

/// An ordered set is in order and holds what the list holds.
pub proof fn ordered_set_is_ordered(items: Seq<Seq<char>>)
    ensures
        strictly_ordered(ordered_set(items)),
        forall|y: Seq<char>| #[trigger] ordered_set(items).contains(y) <==> items.contains(y),
    decreases items.len(),
{
    if items.len() > 0 {
        let rest = items.drop_last();
        ordered_set_is_ordered(rest);
        lemma_ordered_with(ordered_set(rest), items.last());
        assert forall|y: Seq<char>| #[trigger] ordered_set(items).contains(y) <==> items.contains(
            y,
        ) by {
            lemma_push_contains(rest, items.last(), y);
            assert(items =~= rest.push(items.last()));
        }
    }
}

fn insert_ordered(list: &mut Vec<String>, x: String)
    ensures
        views(final(list)@) == ordered_with(views(old(list)@), x@),
{
    let ghost all = views(list@);
    let mut i: usize = 0;
    proof {
        assert(all.skip(0) =~= all);
        assert(all.take(0) + ordered_with(all.skip(0), x@) =~= ordered_with(all, x@));
    }
    while i < list.len()
        invariant
            0 <= i <= list@.len(),
            all == views(list@),
            list@ == old(list)@,
            ordered_with(all, x@) == all.take(i as int) + ordered_with(all.skip(i as int), x@),
        decreases list.len() - i,
    {
        let ghost rest = all.skip(i as int);
        proof {
            assert(rest[0] == list@[i as int]@);
            assert(rest.drop_first() =~= all.skip(i + 1));
        }
        if same(x.as_str(), list[i].as_str()) {
            proof {
                assert(all.take(i as int) + rest =~= all);
            }
            return;
        }
        if before(x.as_str(), list[i].as_str()) {
            list.insert(i, x);
            proof {
                assert(views(list@) =~= all.take(i as int) + (seq![x@] + rest));
            }
            return;
        }
        proof {
            assert(all.take(i as int) + (seq![rest[0]] + ordered_with(all.skip(i + 1), x@))
                =~= all.take(i + 1) + ordered_with(all.skip(i + 1), x@));
        }
        i += 1;
    }
    list.push(x);
    proof {
        assert(all.skip(all.len() as int) =~= Seq::empty());
        assert(views(list@) =~= all.take(all.len() as int) + seq![x@]);
    }
}

/// The texts of a list in order and without repetitions.
pub fn sort_dedup(items: &Vec<String>) -> (sorted: Vec<String>)
    ensures
        views(sorted@) == ordered_set(views(items@)),
{
    let mut sorted: Vec<String> = Vec::new();
    let ghost all = views(items@);
    let mut i: usize = 0;
    proof {
        assert(views(sorted@) =~= ordered_set(all.take(0)));
    }
    while i < items.len()
        invariant
            0 <= i <= items@.len(),
            all == views(items@),
            views(sorted@) == ordered_set(all.take(i as int)),
        decreases items.len() - i,
    {
        insert_ordered(&mut sorted, items[i].clone());
        proof {
            assert(all.take(i + 1).drop_last() =~= all.take(i as int));
            assert(all.take(i + 1).last() == items@[i as int]@);
        }
        i += 1;
    }
    proof {
        assert(all.take(all.len() as int) =~= all);
    }
    sorted
}

/// Two texts, one behind the other.
pub fn concat2(a: &str, b: &str) -> (s: String)
    ensures
        s@ == a@ + b@,
{
    a.to_owned().concat(b)
}

/// Three texts, one behind the other.
pub fn concat3(a: &str, b: &str, c: &str) -> (s: String)
    ensures
        s@ == a@ + b@ + c@,
{
    a.to_owned().concat(b).concat(c)
}

/// The texts of a list that are not `unwanted`, in order.
pub open spec fn without(items: Seq<Seq<char>>, unwanted: Seq<char>) -> Seq<Seq<char>>
    decreases items.len(),
{
    if items.len() == 0 {
        Seq::empty()
    } else if items.last() == unwanted {
        without(items.drop_last(), unwanted)
    } else {
        without(items.drop_last(), unwanted).push(items.last())
    }
}

/// The texts of a list that are not `unwanted`, in order.
pub fn drop_text(items: &Vec<String>, unwanted: &str) -> (kept: Vec<String>)
    ensures
        views(kept@) == without(views(items@), unwanted@),
{
    let mut kept: Vec<String> = Vec::new();
    let ghost all = views(items@);
    let mut i: usize = 0;
    proof {
        assert(views(kept@) =~= without(all.take(0), unwanted@));
    }
    while i < items.len()
        invariant
            0 <= i <= items@.len(),
            all == views(items@),
            views(kept@) == without(all.take(i as int), unwanted@),
        decreases items.len() - i,
    {
        proof {
            assert(all.take(i + 1).drop_last() =~= all.take(i as int));
            assert(all.take(i + 1).last() == items@[i as int]@);
        }
        if !same(items[i].as_str(), unwanted) {
            let item: String = items[i].clone();
            proof {
                lemma_views_push(kept@, item);
            }
            kept.push(item);
        }
        i += 1;
    }
    proof {
        assert(all.take(all.len() as int) =~= all);
    }
    kept
}

/// The lines of a text, without their ends: a line feed, or a carriage return
/// and a line feed. The end of the last line is optional.
pub open spec fn lines_of(s: Seq<char>) -> Seq<Seq<char>>
    decreases s.len(),
{
    if s.len() == 0 {
        Seq::empty()
    } else {
        let n = first_at(s, '\n');
        if 0 <= n < s.len() {
            seq![without_return(s.take(n))] + lines_of(s.skip(n + 1))
        } else {
            seq![s]
        }
    }
}

/// `s` without a carriage return at its end.
pub open spec fn without_return(s: Seq<char>) -> Seq<char> {
    if s.len() > 0 && s.last() == '\r' {
        s.drop_last()
    } else {
        s
    }
}

/// The lines of a text, without their ends.
pub fn lines(s: &str) -> (found: Vec<String>)
    ensures
        views(found@) == lines_of(s@),
{
    let chars: Vec<char> = chars_of(s);
    let mut found: Vec<String> = Vec::new();
    let mut start: usize = 0;
    proof {
        assert(s@.skip(0) =~= s@);
        assert(views(found@) + lines_of(s@.skip(0)) =~= lines_of(s@));
    }
    while start < chars.len()
        invariant
            chars@ == s@,
            start <= chars@.len(),
            views(found@) + lines_of(s@.skip(start as int)) == lines_of(s@),
        decreases chars.len() - start,
    {
        let ghost rest = s@.skip(start as int);
        let mut n: usize = start;
        while n < chars.len() && chars[n] != '\n'
            invariant
                chars@ == s@,
                start <= n <= chars@.len(),
                forall|j: int| start <= j < n ==> chars@[j] != '\n',
            decreases chars.len() - n,
        {
            n += 1;
        }
        proof {
            assert forall|j: int| 0 <= j < n - start implies rest[j] != '\n' by {
                assert(rest[j] == chars@[start + j]);
            }
            if n < chars.len() {
                assert(rest[n - start] == chars@[n as int]);
            }
            lemma_first_at(rest, '\n', n - start);
        }
        let ghost before = found@;
        if n < chars.len() {
            let end: usize = if n > start && chars[n - 1] == '\r' {
                n - 1
            } else {
                n
            };
            let line: String = s.substring_char(start, end).to_owned();
            proof {
                let whole = rest.take(n - start);
                if n > start {
                    assert(whole.last() == chars@[n - 1]);
                }
                assert(line@ =~= without_return(whole));
                assert(rest.skip(n - start + 1) =~= s@.skip(n + 1));
                lemma_views_push(before, line);
            }
            found.push(line);
            proof {
                assert(views(found@) + lines_of(s@.skip(n + 1)) =~= views(before) + (
                seq![line@] + lines_of(s@.skip(n + 1))));
            }
            start = n + 1;
        } else {
            let line: String = s.substring_char(start, n).to_owned();
            proof {
                assert(line@ =~= rest);
                lemma_views_push(before, line);
            }
            found.push(line);
            proof {
                assert(s@.skip(n as int) =~= Seq::empty());
                assert(views(found@) + lines_of(s@.skip(n as int)) =~= views(before) + seq![line@]);
            }
            start = n;
        }
    }
    proof {
        assert(s@.skip(start as int) =~= Seq::empty());
        assert(views(found@) + lines_of(s@.skip(start as int)) =~= views(found@));
    }
    found
}

/// The position of the first white space in `s`, or the length of `s` without
/// any.
pub open spec fn first_space(s: Seq<char>) -> int
    decreases s.len(),
{
    if s.len() == 0 || is_space(s[0]) {
        0
    } else {
        1 + first_space(s.drop_first())
    }
}

/// The runs of characters between white space.
pub open spec fn words_of(s: Seq<char>) -> Seq<Seq<char>>
    decreases s.len(),
{
    if s.len() == 0 {
        Seq::empty()
    } else if is_space(s[0]) {
        words_of(s.drop_first())
    } else {
        let n = first_space(s);
        if 0 < n <= s.len() {
            seq![s.take(n)] + words_of(s.skip(n))
        } else {
            Seq::empty()
        }
    }
}

proof fn lemma_first_space(s: Seq<char>, i: int)
    requires
        0 <= i <= s.len(),
        forall|j: int| 0 <= j < i ==> !is_space(s[j]),
        i < s.len() ==> is_space(s[i]),
    ensures
        first_space(s) == i,
    decreases s.len(),
{
    if s.len() > 0 && !is_space(s[0]) {
        let rest = s.drop_first();
        assert forall|j: int| 0 <= j < i - 1 implies !is_space(rest[j]) by {
            assert(rest[j] == s[j + 1]);
        }
        lemma_first_space(rest, i - 1);
    }
}

/// The runs of characters between white space.
pub fn words(s: &str) -> (found: Vec<String>)
    ensures
        views(found@) == words_of(s@),
{
    let chars: Vec<char> = chars_of(s);
    let mut found: Vec<String> = Vec::new();
    let mut start: usize = 0;
    proof {
        assert(s@.skip(0) =~= s@);
        assert(views(found@) + words_of(s@.skip(0)) =~= words_of(s@));
    }
    while start < chars.len()
        invariant
            chars@ == s@,
            start <= chars@.len(),
            views(found@) + words_of(s@.skip(start as int)) == words_of(s@),
        decreases chars.len() - start,
    {
        let ghost rest = s@.skip(start as int);
        proof {
            assert(rest[0] == chars@[start as int]);
        }
        if whitespace(chars[start]) {
            proof {
                assert(rest.drop_first() =~= s@.skip(start + 1));
            }
            start += 1;
        } else {
            let mut n: usize = start + 1;
            while n < chars.len() && !whitespace(chars[n])
                invariant
                    chars@ == s@,
                    start < n <= chars@.len(),
                    forall|j: int| start <= j < n ==> !is_space(chars@[j]),
                decreases chars.len() - n,
            {
                n += 1;
            }
            let word: String = s.substring_char(start, n).to_owned();
            let ghost before = found@;
            proof {
                assert forall|j: int| 0 <= j < n - start implies !is_space(rest[j]) by {
                    assert(rest[j] == chars@[start + j]);
                }
                if n < chars.len() {
                    assert(rest[n - start] == chars@[n as int]);
                }
                lemma_first_space(rest, n - start);
                assert(word@ =~= rest.take(n - start));
                assert(rest.skip(n - start) =~= s@.skip(n as int));
                lemma_views_push(before, word);
            }
            found.push(word);
            proof {
                assert(views(found@) + words_of(s@.skip(n as int)) =~= views(before) + (seq![word@]
                    + words_of(s@.skip(n as int))));
            }
            start = n;
        }
    }
    proof {
        assert(s@.skip(start as int) =~= Seq::empty());
        assert(views(found@) + words_of(s@.skip(start as int)) =~= views(found@));
    }
    found
}

/// Texts one behind the other, with `between` between any two.
pub open spec fn joined(items: Seq<Seq<char>>, between: Seq<char>) -> Seq<char>
    decreases items.len(),
{
    if items.len() == 0 {
        Seq::empty()
    } else if items.len() == 1 {
        items[0]
    } else {
        joined(items.drop_last(), between) + between + items.last()
    }
}

/// Texts one behind the other, with `between` between any two.
pub fn join(items: &Vec<String>, between: &str) -> (s: String)
    ensures
        s@ == joined(views(items@), between@),
{
    let ghost all = views(items@);
    if items.len() == 0 {
        return String::new();
    }
    let mut s: String = items[0].clone();
    let mut i: usize = 1;
    proof {
        assert(all.take(1)[0] == items@[0]@);
    }
    while i < items.len()
        invariant
            1 <= i <= items@.len(),
            all == views(items@),
            s@ == joined(all.take(i as int), between@),
        decreases items.len() - i,
    {
        proof {
            assert(all.take(i + 1).drop_last() =~= all.take(i as int));
            assert(all.take(i + 1).last() == items@[i as int]@);
        }
        s = s.concat(between).concat(items[i].as_str());
        i += 1;
    }
    proof {
        assert(all.take(all.len() as int) =~= all);
    }
    s
}

/// Appends a character: what `String::push` does.
pub assume_specification[ String::push ](s: &mut String, c: char)
    ensures
        final(s)@ == old(s)@.push(c),
;

/// The digit for a number below 10.
pub open spec fn digit_of(d: nat) -> char {
    if d == 0 {
        '0'
    } else if d == 1 {
        '1'
    } else if d == 2 {
        '2'
    } else if d == 3 {
        '3'
    } else if d == 4 {
        '4'
    } else if d == 5 {
        '5'
    } else if d == 6 {
        '6'
    } else if d == 7 {
        '7'
    } else if d == 8 {
        '8'
    } else {
        '9'
    }
}

/// A number in decimal.
pub open spec fn decimal_of(n: nat) -> Seq<char>
    decreases n,
{
    if n < 10 {
        seq![digit_of(n)]
    } else {
        decimal_of(n / 10).push(digit_of(n % 10))
    }
}

fn digit(d: u128) -> (c: char)
    requires
        d < 10,
    ensures
        c == digit_of(d as nat),
{
    if d == 0 {
        '0'
    } else if d == 1 {
        '1'
    } else if d == 2 {
        '2'
    } else if d == 3 {
        '3'
    } else if d == 4 {
        '4'
    } else if d == 5 {
        '5'
    } else if d == 6 {
        '6'
    } else if d == 7 {
        '7'
    } else if d == 8 {
        '8'
    } else {
        '9'
    }
}

/// A number in decimal.
pub fn decimal_wide(n: u128) -> (s: String)
    ensures
        s@ == decimal_of(n as nat),
    decreases n,
{
    let mut s: String = if n < 10 {
        String::new()
    } else {
        decimal_wide(n / 10)
    };
    s.push(digit(n % 10));
    proof {
        if n < 10 {
            assert(s@ =~= seq![digit_of(n as nat)]);
        }
    }
    s
}

/// A number in decimal.
pub fn decimal(n: u64) -> (s: String)
    ensures
        s@ == decimal_of(n as nat),
{
    decimal_wide(n as u128)
}

/// The value of a digit, or 10 for any other character.
pub open spec fn digit_value(c: char) -> nat {
    if c == '0' {
        0
    } else if c == '1' {
        1
    } else if c == '2' {
        2
    } else if c == '3' {
        3
    } else if c == '4' {
        4
    } else if c == '5' {
        5
    } else if c == '6' {
        6
    } else if c == '7' {
        7
    } else if c == '8' {
        8
    } else if c == '9' {
        9
    } else {
        10
    }
}

/// The value of a digit, or 10 for any other character.
pub fn value_of_digit(c: char) -> (d: u64)
    ensures
        d == digit_value(c),
{
    if c == '0' {
        0
    } else if c == '1' {
        1
    } else if c == '2' {
        2
    } else if c == '3' {
        3
    } else if c == '4' {
        4
    } else if c == '5' {
        5
    } else if c == '6' {
        6
    } else if c == '7' {
        7
    } else if c == '8' {
        8
    } else if c == '9' {
        9
    } else {
        10
    }
}

/// The number that digits write.
pub open spec fn number_of(digits: Seq<char>) -> nat
    decreases digits.len(),
{
    if digits.len() == 0 {
        0
    } else {
        number_of(digits.drop_last()) * 10 + digit_value(digits.last())
    }
}

/// Every character is a digit.
pub open spec fn all_digits(s: Seq<char>) -> bool {
    forall|i: int| 0 <= i < s.len() ==> digit_value(#[trigger] s[i]) < 10
}

/// The number that a text writes as an integer without sign, or behind a `+`,
/// if it is at most `max`.
pub open spec fn parsed_unsigned(s: Seq<char>, max: nat) -> Option<nat> {
    let digits = if s.len() > 0 && s[0] == '+' {
        s.drop_first()
    } else {
        s
    };
    if digits.len() > 0 && all_digits(digits) && number_of(digits) <= max {
        Some(number_of(digits))
    } else {
        None
    }
}

proof fn lemma_number_grows(digits: Seq<char>, i: int)
    requires
        0 <= i <= digits.len(),
    ensures
        number_of(digits.take(i)) <= number_of(digits),
    decreases digits.len() - i,
{
    if i < digits.len() {
        lemma_number_grows(digits, i + 1);
        assert(digits.take(i + 1).drop_last() =~= digits.take(i));
    } else {
        assert(digits.take(i) =~= digits);
    }
}

/// The number that a text writes as an integer without sign, or behind a `+`,
/// if it is at most `max`.
pub fn parse_unsigned(s: &str, max: u64) -> (n: Option<u64>)
    ensures
        match n {
            Some(v) => parsed_unsigned(s@, max as nat) == Some(v as nat),
            None => parsed_unsigned(s@, max as nat) is None,
        },
{
    let chars: Vec<char> = chars_of(s);
    let start: usize = if chars.len() > 0 && chars[0] == '+' {
        1
    } else {
        0
    };
    let ghost digits = s@.skip(start as int);
    proof {
        if start == 1 {
            assert(s@.drop_first() =~= digits);
        } else {
            assert(digits =~= s@);
        }
    }
    if start == chars.len() {
        return None;
    }
    let mut value: u64 = 0;
    let mut i: usize = start;
    while i < chars.len()
        invariant
            chars@ == s@,
            start <= i <= chars@.len(),
            digits == s@.skip(start as int),
            digits.len() > 0,
            s@.len() > 0 && s@[0] == '+' ==> digits == s@.drop_first(),
            !(s@.len() > 0 && s@[0] == '+') ==> digits == s@,
            forall|j: int| 0 <= j < i - start ==> digit_value(#[trigger] digits[j]) < 10,
            value == number_of(digits.take(i - start)),
            value <= max,
        decreases chars.len() - i,
    {
        let d: u64 = value_of_digit(chars[i]);
        proof {
            assert(digits[i - start] == chars@[i as int]);
        }
        if d >= 10 {
            return None;
        }
        proof {
            assert(digits.take(i - start + 1).drop_last() =~= digits.take(i - start));
            assert(digits.take(i - start + 1).last() == digits[i - start]);
            lemma_number_grows(digits, i - start + 1);
        }
        let next: u128 = (value as u128) * 10 + (d as u128);
        if next > max as u128 {
            return None;
        }
        value = next as u64;
        i += 1;
    }
    proof {
        assert(digits.take(digits.len() as int) =~= digits);
    }
    Some(value)
}

/// The text with every character in lower case.
pub uninterp spec fn lowercase(s: Seq<char>) -> Seq<char>;

/// An ASCII capital as the small letter; any other character as it is.
pub open spec fn ascii_lower(c: char) -> char {
    if 0x41 <= c as u32 <= 0x5a {
        ((c as u32) + 32) as char
    } else {
        c
    }
}

/// The text with every ASCII capital as the small letter.
pub open spec fn ascii_lowered(s: Seq<char>) -> Seq<char> {
    Seq::new(s.len(), |i: int| ascii_lower(s[i]))
}

/// An ASCII small letter as the capital; any other character as it is.
pub open spec fn ascii_upper(c: char) -> char {
    if 0x61 <= c as u32 <= 0x7a {
        ((c as u32) - 32) as char
    } else {
        c
    }
}

/// The text with every ASCII small letter as the capital.
pub open spec fn ascii_uppered(s: Seq<char>) -> Seq<char> {
    Seq::new(s.len(), |i: int| ascii_upper(s[i]))
}

/// Every character is ASCII.
pub open spec fn is_ascii_text(s: Seq<char>) -> bool {
    forall|i: int| 0 <= i < s.len() ==> (#[trigger] s[i]) as u32 <= 0x7f
}

/// Calls `str::to_lowercase`: the text in lower case. Of an ASCII text that is
/// each capital as the small letter; of any other it is named `lowercase`.
#[verifier::external_body]
pub(crate) fn to_lower(s: &str) -> (lower: String)
    ensures
        lower@ == lowercase(s@),
        is_ascii_text(s@) ==> lower@ == ascii_lowered(s@),
{
    s.to_lowercase()
}

/// Letter case is lost in lower case.
pub proof fn lemma_case_is_lost(s: Seq<char>)
    ensures
        ascii_lowered(ascii_uppered(s)) == ascii_lowered(s),
        is_ascii_text(s) ==> is_ascii_text(ascii_uppered(s)),
{
    assert(ascii_lowered(ascii_uppered(s)) =~= ascii_lowered(s));
}

/// What stands in a text stands in every longer one.
pub proof fn lemma_has_joined(a: Seq<char>, b: Seq<char>, part: Seq<char>)
    requires
        has(a, part),
    ensures
        has(a + b, part),
        has(b + a, part),
{
    let i = choose|i: int| #[trigger] occurs_at(a, part, i);
    assert((a + b).subrange(i, i + part.len()) =~= part);
    assert(occurs_at(a + b, part, i));
    let k = i + b.len();
    assert((b + a).subrange(k, k + part.len()) =~= part);
    assert(occurs_at(b + a, part, k));
}

/// How often `part` stands in `s`, counted from the left without overlap.
pub open spec fn times_in(s: Seq<char>, part: Seq<char>) -> nat
    decreases s.len(),
{
    if s.len() == 0 || part.len() == 0 {
        0
    } else if occurs_at(s, part, 0) {
        1 + times_in(s.skip(part.len() as int), part)
    } else {
        times_in(s.drop_first(), part)
    }
}

proof fn lemma_occurs_in_rest(s: Seq<char>, part: Seq<char>, i: int)
    requires
        0 <= i <= s.len(),
    ensures
        occurs_at(s.skip(i), part, 0) == occurs_at(s, part, i),
{
    if i + part.len() <= s.len() {
        assert(s.skip(i).subrange(0, part.len() as int) =~= s.subrange(i, i + part.len()));
    }
}

/// How often `part` stands in `s`, counted from the left without overlap.
pub fn count_of(s: &str, part: &str) -> (n: usize)
    ensures
        n == times_in(s@, part@),
{
    let chars: Vec<char> = chars_of(s);
    let wanted: Vec<char> = chars_of(part);
    if wanted.len() == 0 {
        return 0;
    }
    let mut n: usize = 0;
    let mut i: usize = 0;
    proof {
        assert(s@.skip(0) =~= s@);
    }
    while i < chars.len()
        invariant
            0 <= i <= chars@.len(),
            chars@ == s@,
            wanted@ == part@,
            wanted@.len() > 0,
            n <= i,
            n + times_in(s@.skip(i as int), part@) == times_in(s@, part@),
        decreases chars.len() - i,
    {
        proof {
            lemma_occurs_in_rest(s@, part@, i as int);
        }
        if chars_at(&chars, &wanted, i) {
            proof {
                assert(s@.skip(i as int).skip(part@.len() as int) =~= s@.skip(
                    i + part@.len(),
                ));
            }
            n += 1;
            i += wanted.len();
        } else {
            proof {
                assert(s@.skip(i as int).drop_first() =~= s@.skip(i + 1));
            }
            i += 1;
        }
    }
    proof {
        assert(s@.skip(i as int).len() == 0);
    }
    n
}

/// The text that there may be.
pub open spec fn optional(s: Option<String>) -> Option<Seq<char>> {
    match s {
        Some(s) => Some(s@),
        None => None,
    }
}

/// The digits of a fraction, from the digit that counts `place` on, without
/// zeros at the end.
pub open spec fn fraction_of(n: nat, place: nat) -> Seq<char>
    decreases place,
{
    if n == 0 || place == 0 {
        Seq::empty()
    } else {
        seq![digit_of(n / place)] + fraction_of(n % place, place / 10)
    }
}

/// A number of millionths, in decimal, without needless zeros.
pub open spec fn millionths_of(n: nat) -> Seq<char> {
    let whole = decimal_of(n / 1_000_000);
    if n % 1_000_000 == 0 {
        whole
    } else {
        whole + "."@ + fraction_of(n % 1_000_000, 100_000)
    }
}

/// A number of millionths, in decimal, without needless zeros.
pub fn millionths(n: u64) -> (s: String)
    ensures
        s@ == millionths_of(n as nat),
{
    let mut s: String = decimal(n / 1_000_000);
    let rest: u64 = n % 1_000_000;
    if rest == 0 {
        return s;
    }
    s = s.concat(".");
    let ghost before = s@;
    let mut left: u64 = rest;
    let mut place: u64 = 100_000;
    proof {
        assert(s@ + fraction_of(left as nat, place as nat) =~= before + fraction_of(
            rest as nat,
            100_000,
        ));
    }
    while left != 0 && place != 0
        invariant
            place == 100_000 || place == 10_000 || place == 1_000 || place == 100 || place == 10
                || place == 1 || place == 0,
            place == 0 || left < 10 * place,
            s@ + fraction_of(left as nat, place as nat) == before + fraction_of(
                rest as nat,
                100_000,
            ),
        decreases place,
    {
        let ghost so_far = s@;
        let d: u64 = left / place;
        proof {
            assert(d < 10) by (nonlinear_arith)
                requires
                    left < 10 * place,
                    place > 0,
                    d == left / place,
            ;
            assert(left % place < place);
        }
        s.push(digit(d as u128));
        proof {
            assert(s@ + fraction_of((left % place) as nat, (place / 10) as nat) =~= so_far + (
            seq![digit_of(d as nat)] + fraction_of((left % place) as nat, (place / 10) as nat)));
        }
        left = left % place;
        place = place / 10;
    }
    proof {
        assert(s@ + Seq::<char>::empty() =~= s@);
    }
    s
}

/// The texts of a list, each once, in the order in which they first come up.
pub open spec fn distinct_of(items: Seq<Seq<char>>) -> Seq<Seq<char>>
    decreases items.len(),
{
    if items.len() == 0 {
        Seq::empty()
    } else {
        let before = distinct_of(items.drop_last());
        if before.contains(items.last()) {
            before
        } else {
            before.push(items.last())
        }
    }
}

/// The texts of a list, each once, in the order in which they first come up.
pub fn distinct(items: &Vec<String>) -> (found: Vec<String>)
    ensures
        views(found@) == distinct_of(views(items@)),
        found@.len() <= items@.len(),
{
    let ghost all = views(items@);
    let mut found: Vec<String> = Vec::new();
    proof {
        assert(views(found@) =~= Seq::empty());
    }
    let mut i: usize = 0;
    while i < items.len()
        invariant
            0 <= i <= items@.len(),
            all == views(items@),
            views(found@) == distinct_of(all.take(i as int)),
            found@.len() <= i,
        decreases items.len() - i,
    {
        proof {
            assert(all.take(i + 1).drop_last() =~= all.take(i as int));
            assert(all.take(i + 1).last() == items@[i as int]@);
        }
        if !contains_text(&found, items[i].as_str()) {
            let item: String = items[i].clone();
            proof {
                lemma_views_push(found@, item);
            }
            found.push(item);
        }
        i += 1;
    }
    proof {
        assert(all.take(all.len() as int) =~= all);
    }
    found
}

/// What `distinct_of` keeps: every text of the list, and none twice.
pub proof fn distinct_is_the_set(items: Seq<Seq<char>>)
    ensures
        forall|x: Seq<char>| #[trigger] distinct_of(items).contains(x) <==> items.contains(x),
        distinct_of(items).no_duplicates(),
    decreases items.len(),
{
    if items.len() > 0 {
        let before = distinct_of(items.drop_last());
        distinct_is_the_set(items.drop_last());
        assert(items =~= items.drop_last().push(items.last()));
        assert forall|x: Seq<char>| #[trigger] distinct_of(items).contains(x) <==> items.contains(
            x,
        ) by {
            lemma_push_contains(items.drop_last(), items.last(), x);
            lemma_push_contains(before, items.last(), x);
        }
        if !before.contains(items.last()) {
            let after = before.push(items.last());
            assert forall|i: int, j: int|
                0 <= i < after.len() && 0 <= j < after.len() && i != j implies after[i]
                != after[j] by {
                if i < before.len() && j < before.len() {
                } else if i < before.len() {
                    assert(before.contains(before[i]));
                } else {
                    assert(before.contains(before[j]));
                }
            }
        }
    } else {
        assert(items.len() == 0);
    }
}

/// Texts one behind the other.
pub open spec fn glued(parts: Seq<Seq<char>>) -> Seq<char>
    decreases parts.len(),
{
    if parts.len() == 0 {
        Seq::empty()
    } else {
        glued(parts.drop_last()) + parts.last()
    }
}

/// Texts one behind the other.
pub fn glue(parts: &[&str]) -> (s: String)
    ensures
        s@ == glued(views(parts@)),
{
    let ghost all = views(parts@);
    let mut s: String = String::new();
    let mut i: usize = 0;
    while i < parts.len()
        invariant
            0 <= i <= parts@.len(),
            all == views(parts@),
            s@ == glued(all.take(i as int)),
        decreases parts.len() - i,
    {
        proof {
            assert(all.take(i + 1).drop_last() =~= all.take(i as int));
            assert(all.take(i + 1).last() == parts@[i as int]@);
        }
        s = s.concat(parts[i]);
        i += 1;
    }
    proof {
        assert(all.take(all.len() as int) =~= all);
    }
    s
}

/// The position of the last `part` in `s` that starts before `n`, or -1 without
/// any.
pub open spec fn last_before(s: Seq<char>, part: Seq<char>, n: int) -> int
    decreases n,
{
    if n <= 0 {
        -1
    } else if occurs_at(s, part, n - 1) {
        n - 1
    } else {
        last_before(s, part, n - 1)
    }
}

/// The position of the last `part` in `s` that ends at `end` at the latest.
pub fn find_last(s: &Vec<char>, part: &Vec<char>, end: usize) -> (found: Option<usize>)
    requires
        end <= s@.len(),
    ensures
        match found {
            Some(i) => last_before(s@.take(end as int), part@, end as int) == i && i < end
                && occurs_at(s@.take(end as int), part@, i as int),
            None => last_before(s@.take(end as int), part@, end as int) == -1,
        },
{
    let ghost head = s@.take(end as int);
    let mut n: usize = end;
    while n > 0
        invariant
            n <= end <= s@.len(),
            head == s@.take(end as int),
            last_before(head, part@, n as int) == last_before(head, part@, end as int),
        decreases n,
    {
        n -= 1;
        let inside: bool = part.len() <= end && n <= end - part.len();
        proof {
            if inside {
                assert(head.subrange(n as int, n + part@.len()) =~= s@.subrange(
                    n as int,
                    n + part@.len(),
                ));
            }
        }
        if inside && chars_at(s, part, n) {
            return Some(n);
        }
    }
    None
}

/// A number of millionths in tenths, rounded to the nearest, and to an even
/// tenth half way between two.
pub open spec fn tenths_of(n: nat) -> nat {
    let whole = n / 100_000;
    let rest = n % 100_000;
    if rest > 50_000 || rest == 50_000 && whole % 2 == 1 {
        whole + 1
    } else {
        whole
    }
}

/// A number of millionths, in decimal, with one digit behind the point.
pub open spec fn one_decimal_of(n: int) -> Seq<char> {
    let size = if n < 0 {
        -n
    } else {
        n
    };
    let tenths = tenths_of(size as nat);
    (if n < 0 {
        "-"@
    } else {
        Seq::empty()
    }) + decimal_of(tenths / 10) + "."@ + decimal_of(tenths % 10)
}

/// A number of millionths, in decimal, with one digit behind the point.
pub fn one_decimal(n: i128) -> (s: String)
    ensures
        s@ == one_decimal_of(n as int),
{
    let size: u128 = if n < 0 {
        if n == i128::MIN {
            0x8000_0000_0000_0000_0000_0000_0000_0000
        } else {
            (-n) as u128
        }
    } else {
        n as u128
    };
    let whole: u128 = size / 100_000;
    let rest: u128 = size % 100_000;
    let tenths: u128 = if rest > 50_000 || (rest == 50_000 && whole % 2 == 1) {
        whole + 1
    } else {
        whole
    };
    let front: String = decimal_wide(tenths / 10);
    let back: String = decimal_wide(tenths % 10);
    let digits: String = concat3(front.as_str(), ".", back.as_str());
    let s: String = if n < 0 {
        concat2("-", digits.as_str())
    } else {
        digits
    };
    proof {
        assert(s@ =~= one_decimal_of(n as int));
    }
    s
}

/// A truth value in words.
pub open spec fn truth_of(b: bool) -> Seq<char> {
    if b {
        "true"@
    } else {
        "false"@
    }
}

/// A truth value in words.
pub fn truth(b: bool) -> (s: &'static str)
    ensures
        s@ == truth_of(b),
{
    if b {
        "true"
    } else {
        "false"
    }
}

/// The first characters of a text, `n` at most.
pub open spec fn head_of(s: Seq<char>, n: nat) -> Seq<char> {
    if s.len() > n {
        s.take(n as int)
    } else {
        s
    }
}

/// The first characters of a text, `n` at most.
pub fn head(s: &str, n: usize) -> (h: &str)
    ensures
        h@ == head_of(s@, n as nat),
{
    if s.unicode_len() > n {
        let h: &str = s.substring_char(0, n);
        proof {
            assert(h@ =~= s@.take(n as int));
        }
        h
    } else {
        s
    }
}

/// What stands behind the first `part` in a text, if it is there.
pub open spec fn behind_first(s: Seq<char>, part: Seq<char>) -> Option<Seq<char>>
    decreases s.len(),
{
    if occurs_at(s, part, 0) {
        Some(s.skip(part.len() as int))
    } else if s.len() == 0 {
        None
    } else {
        behind_first(s.drop_first(), part)
    }
}

/// What stands behind the first `part` in a text, if it is there.
pub fn after_first<'a>(s: &'a str, part: &str) -> (rest: Option<&'a str>)
    ensures
        match rest {
            Some(r) => behind_first(s@, part@) == Some(r@),
            None => behind_first(s@, part@) is None,
        },
{
    let chars: Vec<char> = chars_of(s);
    let wanted: Vec<char> = chars_of(part);
    let mut i: usize = 0;
    proof {
        assert(s@.skip(0) =~= s@);
    }
    loop
        invariant
            0 <= i <= chars@.len(),
            chars@ == s@,
            wanted@ == part@,
            behind_first(s@.skip(i as int), part@) == behind_first(s@, part@),
        decreases chars.len() - i,
    {
        proof {
            lemma_occurs_in_rest(s@, part@, i as int);
        }
        if chars_at(&chars, &wanted, i) {
            let rest: &'a str = s.substring_char(i + wanted.len(), chars.len());
            proof {
                assert(rest@ =~= s@.skip(i as int).skip(part@.len() as int));
            }
            return Some(rest);
        }
        if i == chars.len() {
            return None;
        }
        proof {
            assert(s@.skip(i as int).drop_first() =~= s@.skip(i + 1));
        }
        i += 1;
    }
}

/// A text without any `part` at its end.
pub open spec fn strip_trailing(s: Seq<char>, part: Seq<char>) -> Seq<char>
    decreases s.len(),
{
    if part.len() > 0 && ends(s, part) {
        strip_trailing(s.take(s.len() - part.len()), part)
    } else {
        s
    }
}

/// A text without any `part` at its end.
pub fn trim_trailing<'a>(s: &'a str, part: &str) -> (rest: &'a str)
    ensures
        rest@ == strip_trailing(s@, part@),
{
    let n: usize = part.unicode_len();
    let mut rest: &'a str = s;
    while n > 0 && ends_with(rest, part)
        invariant
            n == part@.len(),
            strip_trailing(rest@, part@) == strip_trailing(s@, part@),
        decreases rest@.len(),
    {
        let len: usize = rest.unicode_len();
        let shorter: &'a str = rest.substring_char(0, len - n);
        proof {
            assert(shorter@ =~= rest@.take(rest@.len() - part@.len()));
        }
        rest = shorter;
    }
    rest
}

/// An ASCII letter or digit.
pub open spec fn is_alnum(c: char) -> bool {
    let n = c as u32;
    0x30 <= n <= 0x39 || 0x41 <= n <= 0x5a || 0x61 <= n <= 0x7a
}

/// Whether a character is an ASCII letter or digit.
pub fn alnum(c: char) -> (r: bool)
    ensures
        r == is_alnum(c),
{
    let n: u32 = c as u32;
    (0x30 <= n && n <= 0x39) || (0x41 <= n && n <= 0x5a) || (0x61 <= n && n <= 0x7a)
}

/// Two texts are the same, whatever the case of their ASCII letters.
pub open spec fn same_ignoring_case(a: Seq<char>, b: Seq<char>) -> bool {
    a.len() == b.len() && forall|i: int|
        0 <= i < a.len() ==> ascii_lower(#[trigger] a[i]) == ascii_lower(b[i])
}

/// ASCII letters and digits stand between two positions, with none before or
/// behind them.
pub open spec fn is_run(s: Seq<char>, i: int, j: int) -> bool {
    &&& 0 <= i <= j <= s.len()
    &&& forall|m: int| i <= m < j ==> is_alnum(#[trigger] s[m])
    &&& i == 0 || !is_alnum(s[i - 1])
    &&& j == s.len() || !is_alnum(s[j])
}

/// A run of ASCII letters and digits is the word, whatever its case.
pub open spec fn has_word(s: Seq<char>, word: Seq<char>) -> bool {
    exists|i: int, j: int| #[trigger]
        is_run(s, i, j) && same_ignoring_case(s.subrange(i, j), word)
}

fn lower_char(c: char) -> (l: char)
    ensures
        l == ascii_lower(c),
{
    let n: u32 = c as u32;
    if 0x41 <= n && n <= 0x5a {
        let lower: u8 = (n + 32) as u8;
        lower as char
    } else {
        c
    }
}

/// Whether a run of ASCII letters and digits is the word, whatever its case.
pub fn contains_word(s: &str, word: &str) -> (r: bool)
    ensures
        r == has_word(s@, word@),
{
    let chars: Vec<char> = chars_of(s);
    let wanted: Vec<char> = chars_of(word);
    let mut start: usize = 0;
    loop
        invariant
            0 <= start <= chars@.len(),
            chars@ == s@,
            wanted@ == word@,
            start == 0 || !is_alnum(s@[start - 1]),
            forall|i: int, j: int|
                i < start && #[trigger] is_run(s@, i, j) ==> !same_ignoring_case(
                    s@.subrange(i, j),
                    word@,
                ),
        decreases chars.len() - start,
    {
        let mut end: usize = start;
        while end < chars.len() && alnum(chars[end])
            invariant
                start <= end <= chars@.len(),
                chars@ == s@,
                forall|m: int| start <= m < end ==> is_alnum(#[trigger] s@[m]),
            decreases chars.len() - end,
        {
            end += 1;
        }
        let mut same: bool = end - start == wanted.len();
        let mut k: usize = 0;
        while same && k < wanted.len()
            invariant
                start <= end <= chars@.len(),
                0 <= k <= wanted@.len(),
                chars@ == s@,
                wanted@ == word@,
                same ==> end - start == wanted@.len(),
                same ==> forall|m: int|
                    0 <= m < k ==> ascii_lower(#[trigger] s@.subrange(start as int, end as int)[m])
                        == ascii_lower(word@[m]),
                !same ==> !same_ignoring_case(s@.subrange(start as int, end as int), word@),
            decreases wanted.len() - k + (if same {
                1int
            } else {
                0int
            }),
        {
            proof {
                assert(s@.subrange(start as int, end as int)[k as int] == s@[start + k]);
            }
            if lower_char(chars[start + k]) != lower_char(wanted[k]) {
                same = false;
            } else {
                k += 1;
            }
        }
        proof {
            assert(is_run(s@, start as int, end as int));
        }
        if same {
            return true;
        }
        proof {
            assert forall|i: int, j: int| i < end + 1 && #[trigger] is_run(s@, i, j) implies
                !same_ignoring_case(s@.subrange(i, j), word@) by {
                if i >= start {
                    if i > start {
                        assert(is_alnum(s@[i - 1]));
                    } else if j < end {
                        assert(is_alnum(s@[j]));
                    } else if j > end {
                        assert(is_alnum(s@[end as int]));
                    }
                }
            }
        }
        if end == chars.len() {
            return false;
        }
        start = end + 1;
    }
}

/// How many bytes a character takes in UTF-8.
pub open spec fn width_of(c: char) -> nat {
    if (c as u32) < 0x80 {
        1
    } else if (c as u32) < 0x800 {
        2
    } else if (c as u32) < 0x1_0000 {
        3
    } else {
        4
    }
}

/// How many bytes a character takes in UTF-8.
pub fn width(c: char) -> (n: usize)
    ensures
        n == width_of(c),
{
    let code: u32 = c as u32;
    if code < 0x80 {
        1
    } else if code < 0x800 {
        2
    } else if code < 0x1_0000 {
        3
    } else {
        4
    }
}

/// The first `n` bytes of a text in UTF-8, if a character ends there.
pub open spec fn first_bytes(s: Seq<char>, n: nat) -> Option<Seq<char>>
    decreases s.len(),
{
    if n == 0 {
        Some(Seq::empty())
    } else if s.len() == 0 || width_of(s[0]) > n {
        None
    } else {
        match first_bytes(s.drop_first(), (n - width_of(s[0])) as nat) {
            Some(rest) => Some(seq![s[0]] + rest),
            None => None,
        }
    }
}

/// The first `n` bytes of a text in UTF-8, if a character ends there.
pub fn bytes_head(s: &str, n: usize) -> (h: Option<&str>)
    ensures
        match h {
            Some(t) => first_bytes(s@, n as nat) == Some(t@),
            None => first_bytes(s@, n as nat) is None,
        },
{
    let chars: Vec<char> = chars_of(s);
    let mut i: usize = 0;
    let mut left: usize = n;
    proof {
        assert(s@.skip(0) =~= s@);
        assert forall|rest: Seq<char>| #[trigger] (s@.take(0) + rest) == rest by {
            assert(s@.take(0) + rest =~= rest);
        }
    }
    while left > 0
        invariant
            0 <= i <= chars@.len(),
            chars@ == s@,
            match first_bytes(s@.skip(i as int), left as nat) {
                Some(rest) => first_bytes(s@, n as nat) == Some(s@.take(i as int) + rest),
                None => first_bytes(s@, n as nat) is None,
            },
        decreases left,
    {
        let ghost rest = s@.skip(i as int);
        if i >= chars.len() {
            return None;
        }
        let step: usize = width(chars[i]);
        proof {
            assert(rest[0] == s@[i as int]);
            assert(rest.drop_first() =~= s@.skip(i + 1));
        }
        if step > left {
            return None;
        }
        proof {
            let tail = first_bytes(s@.skip(i + 1), (left - step) as nat);
            if tail is Some {
                assert(s@.take(i as int) + (seq![rest[0]] + tail->Some_0) =~= s@.take(i + 1)
                    + tail->Some_0);
            }
        }
        left -= step;
        i += 1;
    }
    let t: &str = s.substring_char(0, i);
    proof {
        assert(t@ =~= s@.take(i as int) + Seq::<char>::empty());
    }
    Some(t)
}

/// Lists that are in order and hold the same texts are the same.
pub proof fn lemma_ordered_unique(a: Seq<Seq<char>>, b: Seq<Seq<char>>)
    requires
        strictly_ordered(a),
        strictly_ordered(b),
        forall|x: Seq<char>| #[trigger] a.contains(x) <==> b.contains(x),
    ensures
        a == b,
    decreases a.len(),
{
    if a.len() == 0 {
        if b.len() > 0 {
            assert(b.contains(b[0]));
            assert(a.contains(b[0]));
        }
        assert(a =~= b);
    } else {
        assert(a.contains(a.last()));
        let k = choose|k: int| 0 <= k < b.len() && b[k] == a.last();
        if k < b.len() - 1 {
            assert(b.contains(b.last()));
            assert(a.contains(b.last()));
            let j = choose|j: int| 0 <= j < a.len() && a[j] == b.last();
            assert(precedes(b[k], b[b.len() - 1]));
            lemma_precedes_strict(b[k], b.last());
            if j < a.len() - 1 {
                assert(precedes(a[j], a[a.len() - 1]));
            }
            assert(false);
        }
        let x = a.last();
        let c = a.drop_last();
        let d = b.drop_last();
        assert(b.last() == x);
        lemma_precedes_strict(x, x);
        assert forall|y: Seq<char>| #[trigger] c.contains(y) <==> d.contains(y) by {
            if c.contains(y) {
                let i = choose|i: int| 0 <= i < c.len() && c[i] == y;
                assert(a[i] == y);
                assert(a.contains(y));
                assert(precedes(a[i], a[a.len() - 1]));
                let j = choose|j: int| 0 <= j < b.len() && b[j] == y;
                assert(d[j] == y);
            }
            if d.contains(y) {
                let i = choose|i: int| 0 <= i < d.len() && d[i] == y;
                assert(b[i] == y);
                assert(b.contains(y));
                assert(a.contains(y));
                assert(precedes(b[i], b[b.len() - 1]));
                let j = choose|j: int| 0 <= j < a.len() && a[j] == y;
                assert(c[j] == y);
            }
        }
        lemma_ordered_unique(c, d);
        assert(a =~= c.push(x));
        assert(b =~= d.push(x));
    }
}

/// Where `first_at` looks, there is a `c` with none in front of it, or none at
/// all.
pub proof fn lemma_first_of(s: Seq<char>, c: char)
    ensures
        0 <= first_at(s, c) <= s.len(),
        first_at(s, c) < s.len() ==> s[first_at(s, c)] == c,
        forall|j: int| 0 <= j < first_at(s, c) ==> #[trigger] s[j] != c,
    decreases s.len(),
{
    if s.len() > 0 && s[0] != c {
        let rest = s.drop_first();
        lemma_first_of(rest, c);
        assert forall|j: int| 0 <= j < first_at(s, c) implies #[trigger] s[j] != c by {
            if j > 0 {
                assert(rest[j - 1] == s[j]);
            }
        }
        if first_at(rest, c) < rest.len() {
            assert(rest[first_at(rest, c)] == s[first_at(s, c)]);
        }
    }
}

/// What is left out of a list is exactly the unwanted text.
pub proof fn lemma_without(items: Seq<Seq<char>>, unwanted: Seq<char>, x: Seq<char>)
    ensures
        without(items, unwanted).contains(x) <==> items.contains(x) && x != unwanted,
    decreases items.len(),
{
    if items.len() > 0 {
        let rest = items.drop_last();
        lemma_without(rest, unwanted, x);
        assert(rest.push(items.last()) =~= items);
        lemma_push_contains(rest, items.last(), x);
        lemma_push_contains(without(rest, unwanted), items.last(), x);
    } else {
        assert(without(items, unwanted).len() == 0);
    }
}

/// The position of the last `part` that starts before `n`.
pub proof fn lemma_last_before_is(s: Seq<char>, part: Seq<char>, n: int, i: int)
    requires
        0 <= i < n,
        occurs_at(s, part, i),
        forall|j: int| i < j < n ==> !#[trigger] occurs_at(s, part, j),
    ensures
        last_before(s, part, n) == i,
    decreases n,
{
    if i < n - 1 {
        assert(!occurs_at(s, part, n - 1));
        lemma_last_before_is(s, part, n - 1, i);
    }
}

/// Nothing stands before `n`.
pub proof fn lemma_last_before_none(s: Seq<char>, part: Seq<char>, n: int)
    requires
        forall|j: int| 0 <= j < n ==> !#[trigger] occurs_at(s, part, j),
    ensures
        last_before(s, part, n) < 0,
    decreases n,
{
    if n > 0 {
        assert(!occurs_at(s, part, n - 1));
        lemma_last_before_none(s, part, n - 1);
    }
}

/// Texts that are glued begin with the first of them.
pub proof fn lemma_glued_begins(parts: Seq<Seq<char>>, n: int)
    requires
        0 <= n <= parts.len(),
    ensures
        begins(glued(parts), glued(parts.take(n))),
    decreases parts.len(),
{
    if n == parts.len() {
        assert(parts.take(n) =~= parts);
        assert(glued(parts).subrange(0, glued(parts).len() as int) =~= glued(parts));
    } else {
        lemma_glued_begins(parts.drop_last(), n);
        assert(parts.drop_last().take(n) =~= parts.take(n));
        let head = glued(parts.take(n));
        let less = glued(parts.drop_last());
        assert(glued(parts).subrange(0, head.len() as int) =~= less.subrange(
            0,
            head.len() as int,
        ));
    }
}

/// What is trimmed is the middle of a text: white space stands in front of it and
/// behind it, and it neither begins nor ends with any.
pub proof fn the_middle_is_left_by_trimming(s: Seq<char>)
    ensures
        exists|a: int, b: int| #[trigger] is_middle(s, a, b) && trimmed(s) == s.subrange(a, b),
    decreases s.len(),
{
    if s.len() > 0 && is_space(s[0]) {
        let rest = s.drop_first();
        the_middle_is_left_by_trimming(rest);
        let (a, b) = choose|a: int, b: int| #[trigger]
            is_middle(rest, a, b) && trimmed(rest) == rest.subrange(a, b);
        assert(rest.subrange(a, b) =~= s.subrange(a + 1, b + 1));
        assert forall|i: int| 0 <= i < a + 1 implies is_space(#[trigger] s[i]) by {
            if i > 0 {
                assert(is_space(rest[i - 1]));
            }
        }
        assert forall|i: int| b + 1 <= i < s.len() implies is_space(#[trigger] s[i]) by {
            assert(is_space(rest[i - 1]));
        }
        assert(is_middle(s, a + 1, b + 1));
    } else {
        lemma_trimmed_end(s);
        let b = choose|b: int|
            0 <= b <= s.len() && trimmed_end(s) == #[trigger] s.take(b) && (forall|i: int|
                b <= i < s.len() ==> is_space(#[trigger] s[i])) && (b > 0 ==> !is_space(s[b - 1]));
        assert(s.take(b) =~= s.subrange(0, b));
        assert(is_middle(s, 0, b));
    }
}

/// Only white space stands before `a` and from `b` on, and none at either end of
/// what stands between.
pub open spec fn is_middle(s: Seq<char>, a: int, b: int) -> bool {
    &&& 0 <= a <= b <= s.len()
    &&& forall|i: int| 0 <= i < a ==> is_space(#[trigger] s[i])
    &&& forall|i: int| b <= i < s.len() ==> is_space(#[trigger] s[i])
    &&& a < b ==> !is_space(s[a]) && !is_space(s[b - 1])
}

proof fn lemma_trimmed_end(s: Seq<char>)
    ensures
        exists|b: int|
            0 <= b <= s.len() && trimmed_end(s) == #[trigger] s.take(b) && (forall|i: int|
                b <= i < s.len() ==> is_space(#[trigger] s[i])) && (b > 0 ==> !is_space(s[b - 1])),
    decreases s.len(),
{
    if s.len() > 0 && is_space(s.last()) {
        let rest = s.drop_last();
        lemma_trimmed_end(rest);
        let b = choose|b: int|
            0 <= b <= rest.len() && trimmed_end(rest) == #[trigger] rest.take(b) && (forall|i: int|
                b <= i < rest.len() ==> is_space(#[trigger] rest[i])) && (b > 0 ==> !is_space(
                rest[b - 1],
            ));
        assert(rest.take(b) =~= s.take(b));
        assert forall|i: int| b <= i < s.len() implies is_space(#[trigger] s[i]) by {
            if i < rest.len() {
                assert(is_space(rest[i]));
            }
        }
    } else {
        assert(s.take(s.len() as int) =~= s);
    }
}

/// A text is read line by line: up to each line feed, without it and without a
/// carriage return in front of it; what stands behind the last one is a line of its
/// own, if anything does.
pub proof fn lines_end_at_line_feeds(line: Seq<char>, rest: Seq<char>)
    requires
        !line.contains('\n'),
    ensures
        lines_of(line + seq!['\n'] + rest).len() == 1 + lines_of(rest).len(),
        lines_of(line + seq!['\n'] + rest).skip(1) == lines_of(rest),
        line.len() == 0 || line.last() != '\r' ==> lines_of(line + seq!['\n'] + rest)[0] == line,
        line.len() > 0 && line.last() == '\r' ==> lines_of(line + seq!['\n'] + rest)[0]
            == line.take(line.len() - 1),
        line.len() > 0 ==> lines_of(line) == seq![line],
        lines_of(Seq::empty()).len() == 0,
{
    let s = line + seq!['\n'] + rest;
    let n = line.len() as int;
    assert forall|j: int| 0 <= j < n implies s[j] != '\n' by {
        if s[j] == '\n' {
            assert(line[j] == '\n');
        }
    }
    lemma_first_at(s, '\n', n);
    assert(s.take(n) =~= line);
    assert(s.skip(n + 1) =~= rest);
    assert(lines_of(s).skip(1) =~= lines_of(rest));
    assert(line.drop_last() =~= line.take(line.len() - 1) || line.len() == 0);
    if line.len() > 0 {
        assert forall|j: int| 0 <= j < n implies line[j] != '\n' by {
            if line[j] == '\n' {
                assert(line.contains('\n'));
            }
        }
        lemma_first_at(line, '\n', n);
    }
}

/// Words are what white space divides.
pub proof fn words_are_divided_by_white_space(word: Seq<char>, c: char, rest: Seq<char>)
    requires
        word.len() > 0,
        forall|i: int| 0 <= i < word.len() ==> !is_space(#[trigger] word[i]),
        is_space(c),
    ensures
        words_of(word) == seq![word],
        words_of(word + seq![c] + rest) == seq![word] + words_of(rest),
        words_of(seq![c] + rest) == words_of(rest),
        words_of(Seq::empty()).len() == 0,
{
    let s = word + seq![c] + rest;
    let n = word.len() as int;
    lemma_first_space(word, n);
    assert forall|i: int| 0 <= i < n implies !is_space(#[trigger] s[i]) by {
        assert(!is_space(word[i]));
    }
    lemma_first_space(s, n);
    assert(!is_space(word[0]));
    assert(s[0] == word[0]);
    assert(word.take(n) =~= word);
    assert(word.skip(n) =~= Seq::empty());
    assert(words_of(Seq::<char>::empty()) =~= Seq::empty());
    assert(words_of(word) =~= seq![word]);
    assert((seq![c] + rest)[0] == c);
    assert(words_of(seq![c] + rest) == words_of((seq![c] + rest).drop_first()));
    assert(words_of(s) == seq![s.take(n)] + words_of(s.skip(n)));
    assert(s.take(n) =~= word);
    assert(s.skip(n) =~= seq![c] + rest);
    assert((seq![c] + rest).drop_first() =~= rest);
}

/// Texts are joined with what stands between any two of them, and nowhere else.
pub proof fn joints_stand_between(
    items: Seq<Seq<char>>,
    item: Seq<char>,
    between: Seq<char>,
)
    ensures
        joined(seq![item], between) == item,
        items.len() > 0 ==> joined(items.push(item), between) == joined(items, between) + between
            + item,
        joined(Seq::empty(), between).len() == 0,
{
    assert(items.push(item).drop_last() =~= items);
}

/// A number is written so that it is read back.
pub proof fn numbers_are_read_back(n: nat, max: nat)
    requires
        n <= max,
    ensures
        number_of(decimal_of(n)) == n,
        all_digits(decimal_of(n)),
        decimal_of(n).len() > 0,
        n > 0 ==> decimal_of(n)[0] != '0',
        parsed_unsigned(decimal_of(n), max) == Some(n),
        parsed_unsigned(seq!['+'] + decimal_of(n), max) == Some(n),
    decreases n,
{
    let s = decimal_of(n);
    if n < 10 {
        assert(s.drop_last() =~= Seq::empty());
        assert(number_of(Seq::empty()) == 0);
    } else {
        numbers_are_read_back(n / 10, max);
        let d = decimal_of(n / 10);
        assert(s.drop_last() =~= d);
        assert forall|i: int| 0 <= i < s.len() implies digit_value(#[trigger] s[i]) < 10 by {
            if i < d.len() {
                assert(s[i] == d[i]);
            }
        }
        assert(s[0] == d[0]);
    }
    assert(digit_value(s[0]) < 10);
    assert(s[0] != '+');
    assert((seq!['+'] + s).drop_first() =~= s);
}

/// A text is no number where it holds something but digits, behind a plus sign or
/// not, where it holds none, or where it is too large.
pub proof fn other_texts_are_no_numbers(s: Seq<char>, max: nat, i: int)
    ensures
        0 <= i < s.len() && !('0' <= s[i] <= '9') && (i > 0 || s[0] != '+') ==> parsed_unsigned(
            s,
            max,
        ) is None,
        s.len() == 0 || s == seq!['+'] ==> parsed_unsigned(s, max) is None,
        parsed_unsigned(s, max) matches Some(n) ==> n <= max,
{
    if 0 <= i < s.len() && !('0' <= s[i] <= '9') && (i > 0 || s[0] != '+') {
        assert(digit_value(s[i]) == 10);
        if s[0] == '+' {
            assert(s.drop_first()[i - 1] == s[i]);
        }
    }
}

/// Texts are ordered as in a dictionary, by the code points of their characters: at
/// the first place where they differ, or where one of them ends.
pub proof fn texts_are_ordered_where_they_differ(a: Seq<char>, b: Seq<char>, k: int)
    requires
        0 <= k <= a.len(),
        k <= b.len(),
        forall|i: int| 0 <= i < k ==> #[trigger] a[i] == b[i],
    ensures
        k < a.len() && k < b.len() && a[k] != b[k] ==> (precedes(a, b) <==> (a[k] as u32) < (b[k]
            as u32)),
        k == a.len() ==> (precedes(a, b) <==> a.len() < b.len()),
        k == b.len() ==> !precedes(a, b),
    decreases k,
{
    if k > 0 {
        assert(a[0] == b[0]);
        let (x, y) = (a.drop_first(), b.drop_first());
        assert forall|i: int| 0 <= i < k - 1 implies #[trigger] x[i] == y[i] by {
            assert(a[i + 1] == b[i + 1]);
        }
        texts_are_ordered_where_they_differ(x, y, k - 1);
    }
}

/// What is left of a text without the characters that it begins with.
pub proof fn leading_characters_are_stripped(s: Seq<char>, c: char, n: int)
    requires
        0 <= n <= s.len(),
        forall|i: int| 0 <= i < n ==> (#[trigger] s[i]) == c,
        n < s.len() ==> s[n] != c,
    ensures
        strip_leading(s, c) == s.skip(n),
    decreases n,
{
    if n > 0 {
        let rest = s.drop_first();
        assert(s[0] == c);
        assert forall|i: int| 0 <= i < n - 1 implies (#[trigger] rest[i]) == c by {
            assert(s[i + 1] == c);
        }
        leading_characters_are_stripped(rest, c, n - 1);
        assert(rest.skip(n - 1) =~= s.skip(n));
    } else {
        assert(s.skip(0) =~= s);
    }
}

/// A text is found behind the first place where another stands.
pub proof fn what_stands_behind_the_first(s: Seq<char>, part: Seq<char>, i: int)
    requires
        forall|j: int| 0 <= j < i ==> !#[trigger] occurs_at(s, part, j),
    ensures
        occurs_at(s, part, i) ==> behind_first(s, part) == Some(s.skip(i + part.len())),
        !(has(s, part)) ==> behind_first(s, part) is None,
    decreases s.len(),
{
    if occurs_at(s, part, 0) {
        if i > 0 {
            assert(!occurs_at(s, part, 0));
        }
    } else if s.len() > 0 {
        let rest = s.drop_first();
        assert forall|j: int| #[trigger] occurs_at(rest, part, j) implies occurs_at(
            s,
            part,
            j + 1,
        ) by {
            assert(rest.subrange(j, j + part.len()) =~= s.subrange(j + 1, j + 1 + part.len()));
        }
        assert forall|j: int| 0 <= j < i - 1 implies !#[trigger] occurs_at(rest, part, j) by {
            assert(!occurs_at(s, part, j + 1));
        }
        if occurs_at(s, part, i) {
            assert(rest.subrange(i - 1, i - 1 + part.len()) =~= s.subrange(i, i + part.len()));
            assert(occurs_at(rest, part, i - 1));
            assert(rest.skip(i - 1 + part.len()) =~= s.skip(i + part.len()));
        }
        what_stands_behind_the_first(rest, part, i - 1);
    }
}

/// Amounts are rounded to the nearest tenth, and to the even one of two that are as
/// near; both they and what they are rounded to count in millionths.
pub proof fn amounts_are_rounded_to_the_nearest_tenth(n: nat)
    ensures
        100_000 * tenths_of(n) - 50_000 <= n <= 100_000 * tenths_of(n) + 50_000,
        n % 100_000 == 50_000 ==> tenths_of(n) % 2 == 0,
{
}

/// A head is no longer than was asked for, and is the text where that is not.
pub proof fn heads_are_cut(s: Seq<char>, n: nat)
    ensures
        s.len() <= n ==> head_of(s, n) == s,
        s.len() > n ==> head_of(s, n).len() == n && begins(s, head_of(s, n)),
{
    if s.len() > n {
        assert(s.subrange(0, n as int) =~= s.take(n as int));
    }
}

/// The letters of the alphabet, and nothing else, change with the case: `a` to `z`
/// stand 32 behind `A` to `Z`.
pub proof fn letters_change_with_the_case(c: char)
    ensures
        'A' <= c <= 'Z' ==> ascii_lower(c) as u32 == c as u32 + 32,
        !('A' <= c <= 'Z') ==> ascii_lower(c) == c,
        'a' <= c <= 'z' ==> ascii_upper(c) as u32 == c as u32 - 32,
        !('a' <= c <= 'z') ==> ascii_upper(c) == c,
        is_alnum(c) <==> 'A' <= c <= 'Z' || 'a' <= c <= 'z' || '0' <= c <= '9',
{
}

/// How often a text stands in another, from left to right and without overlap.
pub proof fn occurrences_do_not_overlap(s: Seq<char>, part: Seq<char>)
    requires
        part.len() > 0,
    ensures
        begins(s, part) ==> times_in(s, part) == 1 + times_in(s.skip(part.len() as int), part),
        s.len() > 0 && !begins(s, part) ==> times_in(s, part) == times_in(s.skip(1), part),
        !(has(s, part)) ==> times_in(s, part) == 0,
        times_in(part, part) == 1,
    decreases s.len(),
{
    assert(s.len() > 0 ==> s.skip(1) =~= s.drop_first());
    assert(part.subrange(0, part.len() as int) =~= part);
    assert(part.skip(part.len() as int) =~= Seq::empty());
    assert(times_in(Seq::empty(), part) == 0);
    assert(occurs_at(part, part, 0));
    assert(times_in(part, part) == 1 + times_in(part.skip(part.len() as int), part));
    if s.len() > 0 && !(has(s, part)) {
        let rest = s.drop_first();
        assert forall|j: int| #[trigger] occurs_at(rest, part, j) implies false by {
            assert(rest.subrange(j, j + part.len()) =~= s.subrange(j + 1, j + 1 + part.len()));
            assert(occurs_at(s, part, j + 1));
        }
        occurrences_do_not_overlap(rest, part);
        assert(!occurs_at(s, part, 0));
    }
}

/// Texts that are glued hold any run of them, glued.
pub proof fn lemma_glued_has(parts: Seq<Seq<char>>, a: int, b: int)
    requires
        0 <= a <= b <= parts.len(),
    ensures
        has(glued(parts), glued(parts.subrange(a, b))),
    decreases parts.len(),
{
    if b == parts.len() {
        lemma_glued_ends(parts, a);
        let tail = glued(parts.subrange(a, b));
        assert(occurs_at(glued(parts), tail, glued(parts).len() - tail.len()));
    } else {
        let less = parts.drop_last();
        lemma_glued_has(less, a, b);
        assert(less.subrange(a, b) =~= parts.subrange(a, b));
        lemma_has_joined(glued(less), parts.last(), glued(parts.subrange(a, b)));
    }
}

proof fn lemma_glued_ends(parts: Seq<Seq<char>>, a: int)
    requires
        0 <= a <= parts.len(),
    ensures
        ends(glued(parts), glued(parts.subrange(a, parts.len() as int))),
    decreases parts.len(),
{
    let tail = parts.subrange(a, parts.len() as int);
    let whole = glued(parts);
    if a == parts.len() {
        assert(tail.len() == 0);
        assert(whole.subrange(whole.len() as int, whole.len() as int) =~= Seq::empty());
    } else {
        let less = parts.drop_last();
        lemma_glued_ends(less, a);
        assert(tail.drop_last() =~= less.subrange(a, less.len() as int));
        assert(tail.last() == parts.last());
        let end = glued(tail);
        let front = glued(less);
        let inner = glued(tail.drop_last());
        assert(front.subrange(front.len() - inner.len(), front.len() as int) == inner);
        assert(whole.subrange(whole.len() - end.len(), whole.len() as int) =~= end);
    }
}

/// The first texts that are glued, one behind the other.
pub proof fn lemma_glued_few(a: Seq<char>, b: Seq<char>, c: Seq<char>, d: Seq<char>)
    ensures
        glued(seq![a, b]) == a + b,
        glued(seq![a, b, c]) == a + b + c,
        glued(seq![a, b, c, d]) == a + b + c + d,
{
    let none = Seq::<Seq<char>>::empty();
    assert(glued(none) =~= Seq::empty());
    assert(seq![a].drop_last() =~= none);
    assert(glued(seq![a]) =~= a);
    assert(seq![a, b].drop_last() =~= seq![a]);
    assert(glued(seq![a, b]) =~= a + b);
    assert(seq![a, b, c].drop_last() =~= seq![a, b]);
    assert(glued(seq![a, b, c]) =~= a + b + c);
    assert(seq![a, b, c, d].drop_last() =~= seq![a, b, c]);
}

/// A text is stripped of an ending as often as it ends so, and no further.
pub proof fn endings_are_stripped_as_often_as_they_stand(s: Seq<char>, part: Seq<char>)
    requires
        part.len() > 0,
    ensures
        strip_trailing(s + part, part) == strip_trailing(s, part),
        !ends(s, part) ==> strip_trailing(s, part) == s,
{
    let more = s + part;
    assert(more.subrange(more.len() - part.len(), more.len() as int) =~= part);
    assert(more.take(more.len() - part.len()) =~= s);
}

/// Truth is told in words.
pub proof fn truth_is_told_in_words(b: bool)
    ensures
        b ==> truth_of(b) == "true"@,
        !b ==> truth_of(b) == "false"@,
{
}

/// A whole number of millions is written as a whole number; anything else has a
/// point behind it.
pub proof fn whole_amounts_have_no_point(n: nat)
    ensures
        millionths_of(n * 1_000_000) == decimal_of(n),
        n % 1_000_000 != 0 ==> begins(millionths_of(n), decimal_of(n / 1_000_000) + "."@),
        n % 1_000_000 == 500_000 ==> millionths_of(n) == decimal_of(n / 1_000_000) + "."@ + seq!['5'],
{
    assert(n * 1_000_000 % 1_000_000 == 0);
    assert(n * 1_000_000 / 1_000_000 == n);
    if n % 1_000_000 != 0 {
        let head = decimal_of(n / 1_000_000) + "."@;
        let whole = millionths_of(n);
        assert(whole.subrange(0, head.len() as int) =~= head);
    }
    if n % 1_000_000 == 500_000 {
        assert(500_000nat / 100_000nat == 5);
        assert(500_000nat % 100_000nat == 0);
        assert(fraction_of(0, 10_000) =~= Seq::empty());
        assert(fraction_of(500_000, 100_000) =~= seq!['5']);
    }
}

/// An amount is written with one decimal, and a sign where it is negative.
pub proof fn amounts_are_written_with_one_decimal(n: nat)
    ensures
        one_decimal_of(n as int) == decimal_of(tenths_of(n) / 10) + "."@ + decimal_of(
            tenths_of(n) % 10,
        ),
        n > 0 ==> one_decimal_of(-(n as int)) == "-"@ + one_decimal_of(n as int),
        one_decimal_of(n as int).len() >= 3,
{
    reveal_strlit(".");
    let t = tenths_of(n);
    numbers_are_read_back(t / 10, t / 10);
    numbers_are_read_back(t % 10, t % 10);
    let plain = decimal_of(t / 10) + "."@ + decimal_of(t % 10);
    assert(Seq::<char>::empty() + decimal_of(t / 10) + "."@ + decimal_of(t % 10) =~= plain);
    if n > 0 {
        assert("-"@ + decimal_of(t / 10) + "."@ + decimal_of(t % 10) =~= "-"@ + plain);
    }
}

} // verus!
