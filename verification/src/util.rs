//! Small string helpers shared by the parser, the graph builder and the
//! recipe runner: filename extension splitting, token joining, and a few
//! character-level primitives that the rest of the crate states its
//! contracts with.

use vstd::prelude::*;
use vstd::string::*;

verus! {

/// Index of the first occurrence of `c` in `s`, if any.
pub open spec fn find_char(s: Seq<char>, c: char) -> Option<int>
    decreases s.len(),
{
    if s.len() == 0 {
        None
    } else if s[0] == c {
        Some(0int)
    } else {
        match find_char(s.drop_first(), c) {
            Some(i) => Some(i + 1),
            None => None,
        }
    }
}

/// `find_char` returns the first hit: the index holds `c` and nothing
/// before it does; `None` means `c` does not occur at all.
pub proof fn lemma_find_char(s: Seq<char>, c: char)
    ensures
        match find_char(s, c) {
            Some(i) => 0 <= i < s.len() && s[i] == c && (forall|j: int| 0 <= j < i ==> s[j] != c),
            None => forall|j: int| 0 <= j < s.len() ==> s[j] != c,
        },
    decreases s.len(),
{
    if s.len() == 0 {
    } else if s[0] == c {
    } else {
        lemma_find_char(s.drop_first(), c);
        assert(forall|j: int| 0 <= j < s.drop_first().len() ==> s.drop_first()[j] == s[j + 1]);
        match find_char(s.drop_first(), c) {
            Some(i) => {
                assert(s[i + 1] == s.drop_first()[i]);
                assert(forall|j: int| 1 <= j < i + 1 ==> s[j] == s.drop_first()[j - 1]);
            },
            None => {
                assert(forall|j: int| 1 <= j < s.len() ==> s[j] == s.drop_first()[j - 1]);
            },
        }
    }
}

/// The converse: a first hit at `i` pins `find_char` down to `Some(i)`.
pub proof fn lemma_find_char_at(s: Seq<char>, c: char, i: int)
    requires
        0 <= i < s.len(),
        s[i] == c,
        forall|j: int| 0 <= j < i ==> s[j] != c,
    ensures
        find_char(s, c) == Some(i),
    decreases s.len(),
{
    if i == 0 {
    } else {
        assert(s[0] != c);
        assert(forall|j: int| 0 <= j < s.drop_first().len() ==> s.drop_first()[j] == s[j + 1]);
        lemma_find_char_at(s.drop_first(), c, i - 1);
    }
}

/// First index of `c` in `s`, scanning left to right.
pub fn find_char_in(s: &str, c: char) -> (r: Option<usize>)
    ensures
        match r {
            Some(i) => i < s@.len() && find_char(s@, c) == Some(i as int),
            None => find_char(s@, c) is None,
        },
{
    let n: usize = s.unicode_len();
    let mut i: usize = 0;
    while i < n
        invariant
            i <= n,
            n == s@.len(),
            forall|j: int| 0 <= j < i ==> s@[j] != c,
        decreases n - i,
    {
        if s.get_char(i) == c {
            proof {
                lemma_find_char_at(s@, c, i as int);
            }
            return Some(i);
        }
        i += 1;
    }
    proof {
        lemma_find_char(s@, c);
        if find_char(s@, c) is Some {
            let k = find_char(s@, c)->Some_0;
            assert(s@[k] == c);
        }
    }
    None
}

/// What remains of a filename after its first `.`: the extension part.
/// A name without a dot stands for itself.
pub open spec fn spec_remove_prefix(s: Seq<char>) -> Seq<char> {
    match find_char(s, '.') {
        Some(i) => s.subrange(i + 1, s.len() as int),
        None => s,
    }
}

/// What stands before a filename's first `.`: the stem.
/// A name without a dot stands for itself.
pub open spec fn spec_remove_suffix(s: Seq<char>) -> Seq<char> {
    match find_char(s, '.') {
        Some(i) => s.subrange(0, i),
        None => s,
    }
}

/// Everything after the first `.` of `file`; `file` itself when it has none.
pub fn remove_prefix(file: &str) -> (r: &str)
    ensures
        r@ == spec_remove_prefix(file@),
{
    let n: usize = file.unicode_len();
    match find_char_in(file, '.') {
        Some(i) => file.substring_char(i + 1, n),
        None => file,
    }
}

/// Everything before the first `.` of `file`; `file` itself when it has none.
pub fn remove_suffix(file: &str) -> (r: &str)
    ensures
        r@ == spec_remove_suffix(file@),
{
    match find_char_in(file, '.') {
        Some(i) => file.substring_char(0, i),
        None => file,
    }
}

/// Joining a further token onto a space-separated string: a single space
/// between tokens, none in front of the first.
pub open spec fn spec_append_string(s: Seq<char>, end: Seq<char>) -> Seq<char> {
    if s.len() == 0 {
        end
    } else {
        s + seq![' '] + end
    }
}

/// Appends `end` to `s`, inserting a single separating space unless `s`
/// is still empty.
pub fn append_string(s: &mut String, end: &str)
    ensures
        final(s)@ == spec_append_string(old(s)@, end@),
{
    if !s.as_str().is_empty() {
        push_char(s, ' ');
    }
    s.append(end);
}

/// Relies on String::push: appends exactly the given character.
#[verifier::external_body]
pub fn push_char(s: &mut String, c: char)
    ensures
        final(s)@ == old(s)@.push(c),
{
    s.push(c);
}

/// Does `s` begin with `p`?
pub open spec fn spec_starts_with(s: Seq<char>, p: Seq<char>) -> bool {
    s.len() >= p.len() && s.subrange(0, p.len() as int) == p
}

/// Does `s` end with `p`?
pub open spec fn spec_ends_with(s: Seq<char>, p: Seq<char>) -> bool {
    s.len() >= p.len() && s.subrange(s.len() - p.len(), s.len() as int) == p
}

/// Whether `s` begins with `p`, character by character.
pub fn starts_with_str(s: &str, p: &str) -> (r: bool)
    ensures
        r == spec_starts_with(s@, p@),
{
    let n: usize = s.unicode_len();
    let m: usize = p.unicode_len();
    if n < m {
        return false;
    }
    let mut i: usize = 0;
    while i < m
        invariant
            i <= m,
            m <= n,
            n == s@.len(),
            m == p@.len(),
            forall|j: int| 0 <= j < i ==> s@[j] == p@[j],
        decreases m - i,
    {
        if s.get_char(i) != p.get_char(i) {
            proof {
                assert(s@.subrange(0, m as int)[i as int] != p@[i as int]);
            }
            return false;
        }
        i += 1;
    }
    proof {
        assert(s@.subrange(0, m as int) =~= p@);
    }
    true
}

/// Whether `s` ends with `p`, character by character.
pub fn ends_with_str(s: &str, p: &str) -> (r: bool)
    ensures
        r == spec_ends_with(s@, p@),
{
    let n: usize = s.unicode_len();
    let m: usize = p.unicode_len();
    if n < m {
        return false;
    }
    let off: usize = n - m;
    let mut i: usize = 0;
    while i < m
        invariant
            i <= m,
            m <= n,
            off == n - m,
            n == s@.len(),
            m == p@.len(),
            forall|j: int| 0 <= j < i ==> s@[off + j] == p@[j],
        decreases m - i,
    {
        if s.get_char(off + i) != p.get_char(i) {
            proof {
                assert(s@.subrange(n - m, n as int)[i as int] != p@[i as int]);
            }
            return false;
        }
        i += 1;
    }
    proof {
        assert(s@.subrange(n - m, n as int) =~= p@);
    }
    true
}

/// Does `sub` occur contiguously anywhere in `s`?
pub open spec fn spec_contains_sub(s: Seq<char>, sub: Seq<char>) -> bool {
    exists|i: int| 0 <= i && i + sub.len() <= s.len() && #[trigger] s.subrange(i, i + sub.len())
        == sub
}

/// Whether `needle` occurs anywhere in `hay`.
pub fn str_contains(hay: &str, needle: &str) -> (r: bool)
    ensures
        r == spec_contains_sub(hay@, needle@),
{
    let n: usize = hay.unicode_len();
    let m: usize = needle.unicode_len();
    if m > n {
        return false;
    }
    let mut i: usize = 0;
    while i <= n - m
        invariant
            m <= n,
            n == hay@.len(),
            m == needle@.len(),
            i <= n - m + 1,
            forall|p: int| 0 <= p < i ==> #[trigger] hay@.subrange(p, p + m) != needle@,
        decreases n + 1 - m - i,
    {
        let mut j: usize = 0;
        let mut all = true;
        while j < m
            invariant
                j <= m,
                i + m <= n,
                n == hay@.len(),
                m == needle@.len(),
                all ==> (forall|q: int| 0 <= q < j ==> hay@[i + q] == needle@[q]),
                !all ==> hay@.subrange(i as int, i + m) != needle@,
            decreases m - j,
        {
            if hay.get_char(i + j) != needle.get_char(j) {
                proof {
                    assert(hay@.subrange(i as int, i + m)[j as int] != needle@[j as int]);
                }
                all = false;
            }
            j += 1;
        }
        if all {
            proof {
                assert(hay@.subrange(i as int, i + m) =~= needle@);
            }
            return true;
        }
        proof {
            if m == 0 {
                assert(hay@.subrange(i as int, i + m) =~= needle@);
            }
        }
        i += 1;
    }
    false
}

/// Index of the last occurrence of `c` in `s`, if any.
pub open spec fn find_last_char(s: Seq<char>, c: char) -> Option<int>
    decreases s.len(),
{
    if s.len() == 0 {
        None
    } else if s.last() == c {
        Some(s.len() - 1)
    } else {
        find_last_char(s.drop_last(), c)
    }
}

/// `find_last_char` returns the last hit, or rules the character out.
pub proof fn lemma_find_last_char(s: Seq<char>, c: char)
    ensures
        match find_last_char(s, c) {
            Some(i) => 0 <= i < s.len() && s[i] == c && (forall|j: int|
                i < j < s.len() ==> s[j] != c),
            None => forall|j: int| 0 <= j < s.len() ==> s[j] != c,
        },
    decreases s.len(),
{
    if s.len() > 0 && s.last() != c {
        lemma_find_last_char(s.drop_last(), c);
        assert(forall|j: int| 0 <= j < s.drop_last().len() ==> s.drop_last()[j] == s[j]);
    }
}

/// A last hit at `i` pins `find_last_char` down to `Some(i)`.
pub proof fn lemma_find_last_char_at(s: Seq<char>, c: char, i: int)
    requires
        0 <= i < s.len(),
        s[i] == c,
        forall|j: int| i < j < s.len() ==> s[j] != c,
    ensures
        find_last_char(s, c) == Some(i),
    decreases s.len(),
{
    if i < s.len() - 1 {
        assert(s.last() != c);
        assert(forall|j: int| 0 <= j < s.drop_last().len() ==> s.drop_last()[j] == s[j]);
        lemma_find_last_char_at(s.drop_last(), c, i);
    }
}

/// Last index of `c` in `s`, scanning right to left.
pub fn find_last_char_in(s: &str, c: char) -> (r: Option<usize>)
    ensures
        match r {
            Some(i) => i < s@.len() && find_last_char(s@, c) == Some(i as int),
            None => find_last_char(s@, c) is None,
        },
{
    let n: usize = s.unicode_len();
    let mut i: usize = n;
    while i > 0
        invariant
            i <= n,
            n == s@.len(),
            forall|j: int| i <= j < n ==> s@[j] != c,
        decreases i,
    {
        i = i - 1;
        if s.get_char(i) == c {
            proof {
                lemma_find_last_char_at(s@, c, i as int);
            }
            return Some(i);
        }
    }
    proof {
        lemma_find_last_char(s@, c);
        if find_last_char(s@, c) is Some {
            let k = find_last_char(s@, c)->Some_0;
            assert(s@[k] == c);
        }
    }
    None
}

/// A root directory with exactly one trailing `/`.
pub open spec fn spec_with_slash(d: Seq<char>) -> Seq<char> {
    if d.len() > 0 && d[d.len() - 1] == '/' {
        d
    } else {
        d.push('/')
    }
}

/// Appends a `/` to `d` unless it already ends with one.
pub fn with_slash(d: &str) -> (r: String)
    ensures
        r@ == spec_with_slash(d@),
{
    let n: usize = d.unicode_len();
    let mut r = String::from_str(d);
    if n == 0 || d.get_char(n - 1) != '/' {
        push_char(&mut r, '/');
    }
    r
}

/// A file name resolved against a root: the root, one `/`, the name.
pub open spec fn spec_join(root: Seq<char>, name: Seq<char>) -> Seq<char> {
    spec_with_slash(root) + name
}

/// Joins a relative name onto a root directory.
pub fn join_path(root: &str, name: &str) -> (r: String)
    ensures
        r@ == spec_join(root@, name@),
{
    let mut r = with_slash(root);
    r.append(name);
    r
}

/// Builds owned strings from the given literals, in order.
pub fn make_svec(s: &[&str]) -> (r: Vec<String>)
    ensures
        r@.len() == s@.len(),
        forall|i: int| 0 <= i < s@.len() ==> r@[i]@ == s@[i]@,
{
    let mut r: Vec<String> = Vec::new();
    let mut i: usize = 0;
    while i < s.len()
        invariant
            i <= s@.len(),
            r@.len() == i,
            forall|j: int| 0 <= j < i ==> r@[j]@ == s@[j]@,
        decreases s@.len() - i,
    {
        r.push(String::from_str(s[i]));
        i += 1;
    }
    r
}

} // verus!
