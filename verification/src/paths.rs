//! File paths with `/` between their components.

use vstd::prelude::*;

use crate::text;

verus! {

/// The position behind the last `c` in `s`, or 0 without one.
pub open spec fn behind_last(s: Seq<char>, c: char) -> nat
    decreases s.len(),
{
    if s.len() == 0 {
        0
    } else if s.last() == c {
        s.len()
    } else {
        behind_last(s.drop_last(), c)
    }
}

/// The last component of a path, past empty ones and `.`.
pub open spec fn last_component(path: Seq<char>) -> Option<Seq<char>>
    decreases path.len(),
{
    let n = behind_last(path, '/') as int;
    let base = path.skip(n);
    if base.len() > 0 && base != seq!['.'] {
        Some(base)
    } else if 0 < n <= path.len() {
        last_component(path.take(n - 1))
    } else {
        None
    }
}

/// The file name that a path ends in: its last component, unless that is `..`.
pub open spec fn file_name_of(path: Seq<char>) -> Option<Seq<char>> {
    match last_component(path) {
        Some(base) => if base == seq!['.', '.'] {
            None
        } else {
            Some(base)
        },
        None => None,
    }
}

/// The extension of the file that a path names: what stands behind the last dot
/// of the file name, unless the name begins with that dot.
pub open spec fn extension_of(path: Seq<char>) -> Option<Seq<char>> {
    match file_name_of(path) {
        Some(name) => if behind_last(name, '.') > 1 {
            Some(name.skip(behind_last(name, '.') as int))
        } else {
            None
        },
        None => None,
    }
}

proof fn lemma_behind_last(s: Seq<char>, c: char, n: int)
    requires
        0 <= n <= s.len(),
        n > 0 ==> s[n - 1] == c,
        forall|j: int| n <= j < s.len() ==> s[j] != c,
    ensures
        behind_last(s, c) == n,
    decreases s.len(),
{
    if s.len() > n {
        assert(s.last() == s[s.len() - 1]);
        lemma_behind_last(s.drop_last(), c, n);
    } else if n > 0 {
        assert(s.last() == s[n - 1]);
    }
}

/// The position behind the last `c` among the first `end` characters.
fn find_behind_last(chars: &Vec<char>, end: usize, c: char) -> (n: usize)
    requires
        end <= chars@.len(),
    ensures
        n == behind_last(chars@.take(end as int), c),
        n <= end,
{
    let mut n: usize = end;
    while n > 0 && chars[n - 1] != c
        invariant
            n <= end <= chars@.len(),
            forall|j: int| n <= j < end ==> chars@[j] != c,
        decreases n,
    {
        n -= 1;
    }
    proof {
        lemma_behind_last(chars@.take(end as int), c, n as int);
    }
    n
}

/// The file name that a path ends in: its last component, unless that is `..`.
pub fn file_name(path: &str) -> (name: Option<&str>)
    ensures
        match name {
            Some(n) => file_name_of(path@) == Some(n@),
            None => file_name_of(path@) is None,
        },
{
    let chars: Vec<char> = text::chars_of(path);
    let mut end: usize = chars.len();
    proof {
        assert(path@.take(path@.len() as int) =~= path@);
    }
    loop
        invariant
            chars@ == path@,
            end <= chars@.len(),
            last_component(path@) == last_component(path@.take(end as int)),
        decreases end,
    {
        let n: usize = find_behind_last(&chars, end, '/');
        let ghost now = path@.take(end as int);
        let base: &str = path.substring_char(n, end);
        proof {
            assert(base@ =~= now.skip(n as int));
        }
        let len: usize = end - n;
        if len > 0 && !(len == 1 && chars[n] == '.') {
            proof {
                assert(base@[0] == chars@[n as int]);
                if base@ == seq!['.'] {
                    assert(base@.len() == 1 && base@[0] == '.');
                }
            }
            if len == 2 && chars[n] == '.' && chars[n + 1] == '.' {
                proof {
                    assert(base@ =~= seq!['.', '.']);
                }
                return None;
            }
            proof {
                if base@ == seq!['.', '.'] {
                    assert(base@.len() == 2 && base@[0] == '.' && base@[1] == '.');
                    assert(chars@[n as int] == '.' && chars@[n + 1] == '.');
                }
            }
            return Some(base);
        }
        proof {
            if len == 1 {
                assert(base@ =~= seq!['.']);
            }
        }
        if n == 0 {
            return None;
        }
        proof {
            assert(now.take(n - 1) =~= path@.take(n - 1));
        }
        end = n - 1;
    }
}

/// The extension of the file that a path names.
pub fn extension(path: &str) -> (ext: Option<&str>)
    ensures
        match ext {
            Some(e) => extension_of(path@) == Some(e@),
            None => extension_of(path@) is None,
        },
{
    match file_name(path) {
        Some(name) => {
            let chars: Vec<char> = text::chars_of(name);
            proof {
                assert(name@.take(name@.len() as int) =~= name@);
            }
            let n: usize = find_behind_last(&chars, chars.len(), '.');
            if n > 1 {
                let ext: &str = name.substring_char(n, chars.len());
                proof {
                    assert(ext@ =~= name@.skip(n as int));
                }
                Some(ext)
            } else {
                None
            }
        },
        None => None,
    }
}

/// A path with another behind it. An absolute path stands on its own.
pub open spec fn joined_path(base: Seq<char>, rest: Seq<char>) -> Seq<char> {
    if rest.len() > 0 && rest[0] == '/' {
        rest
    } else if base.len() == 0 || base.last() == '/' {
        base + rest
    } else {
        base + "/"@ + rest
    }
}

/// A path with another behind it. An absolute path stands on its own.
pub fn join(base: &str, rest: &str) -> (path: String)
    ensures
        path@ == joined_path(base@, rest@),
{
    let n: usize = base.unicode_len();
    if rest.unicode_len() > 0 && rest.get_char(0) == '/' {
        rest.to_owned()
    } else if n == 0 || base.get_char(n - 1) == '/' {
        text::concat2(base, rest)
    } else {
        text::concat3(base, "/", rest)
    }
}

/// A path ends in its file name, behind the last slash; slashes and single dots at
/// its end are passed over, and two dots are no name.
pub proof fn file_names_stand_behind_the_last_slash(dir: Seq<char>, name: Seq<char>)
    requires
        name.len() > 0,
        !name.contains('/'),
        name != seq!['.'],
    ensures
        name != seq!['.', '.'] ==> file_name_of(name) == Some(name),
        name != seq!['.', '.'] ==> file_name_of(dir + seq!['/'] + name) == Some(name),
        name == seq!['.', '.'] ==> file_name_of(dir + seq!['/'] + name) is None,
        name != seq!['.', '.'] ==> file_name_of(dir + seq!['/'] + name + seq!['/']) == Some(name),
{
    let path = dir + seq!['/'] + name;
    lemma_behind_last_here(dir, '/', name);
    lemma_behind_none(name, '/');
    assert(name.skip(0) =~= name);
    assert(path.skip(dir.len() as int + 1) =~= name);
    let more = path + seq!['/'];
    lemma_behind_last_here(path, '/', Seq::empty());
    assert(path + seq!['/'] + Seq::<char>::empty() =~= more);
    assert(more.skip(more.len() as int) =~= Seq::empty());
    assert(more.take(more.len() - 1) =~= path);
    assert(last_component(more) == last_component(path));
}

/// An extension stands behind the last dot of a file name that does not begin with
/// that dot.
pub proof fn extensions_stand_behind_the_last_dot(path: Seq<char>, stem: Seq<char>, ext: Seq<char>)
    requires
        !ext.contains('.'),
        file_name_of(path) == Some(stem + seq!['.'] + ext),
    ensures
        stem.len() > 0 ==> extension_of(path) == Some(ext),
        stem.len() == 0 ==> extension_of(path) is None,
{
    let name = stem + seq!['.'] + ext;
    lemma_behind_last_here(stem, '.', ext);
    assert(name.skip(stem.len() as int + 1) =~= ext);
}

/// A name without a dot has no extension.
pub proof fn names_without_a_dot_have_no_extension(path: Seq<char>, name: Seq<char>)
    requires
        !name.contains('.'),
        file_name_of(path) == Some(name),
    ensures
        extension_of(path) is None,
{
    lemma_behind_none(name, '.');
}

/// Paths are joined with one slash; a path from the root stands for itself.
pub proof fn paths_are_joined_with_one_slash(base: Seq<char>, rest: Seq<char>)
    ensures
        rest.len() > 0 && rest[0] == '/' ==> joined_path(base, rest) == rest,
        (rest.len() == 0 || rest[0] != '/') && base.len() > 0 && base.last() != '/' ==> joined_path(
            base,
            rest,
        ) == base + seq!['/'] + rest,
        (rest.len() == 0 || rest[0] != '/') && base.len() > 0 && base.last() == '/' ==> joined_path(
            base,
            rest,
        ) == base + rest,
        (rest.len() == 0 || rest[0] != '/') && base.len() == 0 ==> joined_path(base, rest) == rest,
{
    reveal_strlit("/");
    assert("/"@ =~= seq!['/']);
    if base.len() == 0 {
        assert(base + rest =~= rest);
    }
}

proof fn lemma_behind_last_here(front: Seq<char>, c: char, back: Seq<char>)
    requires
        !back.contains(c),
    ensures
        behind_last(front + seq![c] + back, c) == front.len() + 1,
    decreases back.len(),
{
    let s = front + seq![c] + back;
    if back.len() > 0 {
        assert(s.last() == back.last());
        assert(back.last() != c) by {
            if back.last() == c {
                assert(back[back.len() - 1] == c);
            }
        }
        let less = back.drop_last();
        assert(!less.contains(c)) by {
            if less.contains(c) {
                let i = choose|i: int| 0 <= i < less.len() && less[i] == c;
                assert(back[i] == c);
            }
        }
        assert(s.drop_last() =~= front + seq![c] + less);
        lemma_behind_last_here(front, c, less);
    } else {
        assert(s.last() == c);
    }
}

proof fn lemma_behind_none(s: Seq<char>, c: char)
    requires
        !s.contains(c),
    ensures
        behind_last(s, c) == 0,
    decreases s.len(),
{
    if s.len() > 0 {
        assert(s.last() != c) by {
            if s.last() == c {
                assert(s[s.len() - 1] == c);
            }
        }
        let less = s.drop_last();
        assert(!less.contains(c)) by {
            if less.contains(c) {
                let i = choose|i: int| 0 <= i < less.len() && less[i] == c;
                assert(s[i] == c);
            }
        }
        lemma_behind_none(less, c);
    }
}

} // verus!
