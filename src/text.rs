//! Small verified operations on text: locating a character, splitting
//! around it, trimming white space and testing a prefix.

use vstd::prelude::*;
use vstd::string::{StrSliceExecFns, StringExecFns};

verus! {

/// Whether `c` has the Unicode White_Space property: tab to carriage
/// return, space, next line, no-break space, ogham space mark, en quad to
/// hair space, line and paragraph separators, narrow no-break space, medium
/// mathematical space and ideographic space.
pub open spec fn is_unicode_space(c: char) -> bool {
    let v = c as u32;
    ||| 0x9 <= v <= 0xd
    ||| v == 0x20
    ||| v == 0x85
    ||| v == 0xa0
    ||| v == 0x1680
    ||| 0x2000 <= v <= 0x200a
    ||| v == 0x2028
    ||| v == 0x2029
    ||| v == 0x202f
    ||| v == 0x205f
    ||| v == 0x3000
}

fn is_space(c: char) -> (r: bool)
    ensures
        r == is_unicode_space(c),
{
    let v = c as u32;
    (0x9 <= v && v <= 0xd) || v == 0x20 || v == 0x85 || v == 0xa0 || v == 0x1680 || (0x2000 <= v
        && v <= 0x200a) || v == 0x2028 || v == 0x2029 || v == 0x202f || v == 0x205f || v == 0x3000
}

/// The position of the first `c` in `s`.
pub open spec fn first_pos(s: Seq<char>, c: char) -> Option<int>
    decreases s.len(),
{
    if s.len() == 0 {
        None
    } else if s.last() == c && first_pos(s.drop_last(), c) is None {
        Some(s.len() - 1)
    } else {
        first_pos(s.drop_last(), c)
    }
}

/// The position of the last `c` in `s`.
pub open spec fn last_pos(s: Seq<char>, c: char) -> Option<int>
    decreases s.len(),
{
    if s.len() == 0 {
        None
    } else if s.last() == c {
        Some(s.len() - 1)
    } else {
        last_pos(s.drop_last(), c)
    }
}

/// `s` cut around the character at `k`, which is dropped.
pub open spec fn cut_at(s: Seq<char>, k: Option<int>) -> Option<(Seq<char>, Seq<char>)> {
    match k {
        Some(k) => Some((s.subrange(0, k), s.subrange(k + 1, s.len() as int))),
        None => None,
    }
}

pub open spec fn pair_view(p: Option<(String, String)>) -> Option<(Seq<char>, Seq<char>)> {
    match p {
        Some((a, b)) => Some((a@, b@)),
        None => None,
    }
}

fn find_char(s: &str, c: char, from_end: bool) -> (r: Option<usize>)
    ensures
        match r {
            Some(k) => k < s@.len() && Some(k as int) == (if from_end {
                last_pos(s@, c)
            } else {
                first_pos(s@, c)
            }),
            None => (if from_end {
                last_pos(s@, c)
            } else {
                first_pos(s@, c)
            }) is None,
        },
{
    let n = s.unicode_len();
    let mut found: Option<usize> = None;
    let mut i: usize = 0;
    while i < n
        invariant
            n == s@.len(),
            0 <= i <= n,
            match found {
                Some(k) => k < i && Some(k as int) == (if from_end {
                    last_pos(s@.take(i as int), c)
                } else {
                    first_pos(s@.take(i as int), c)
                }),
                None => (if from_end {
                    last_pos(s@.take(i as int), c)
                } else {
                    first_pos(s@.take(i as int), c)
                }) is None,
            },
        decreases n - i,
    {
        let ch = s.get_char(i);
        assert(s@.take(i + 1).drop_last() =~= s@.take(i as int));
        assert(s@.take(i + 1).last() == ch);
        if ch == c && (from_end || found.is_none()) {
            found = Some(i);
        }
        i = i + 1;
    }
    assert(s@.take(n as int) =~= s@);
    found
}

fn cut(s: &str, k: Option<usize>) -> (r: Option<(String, String)>)
    requires
        k matches Some(k) ==> k < s@.len(),
    ensures
        pair_view(r) == cut_at(
            s@,
            match k {
                Some(k) => Some(k as int),
                None => None,
            },
        ),
{
    match k {
        Some(k) => {
            let n = s.unicode_len();
            let a = String::from_str(s.substring_char(0, k));
            let b = String::from_str(s.substring_char(k + 1, n));
            Some((a, b))
        },
        None => None,
    }
}

/// `s` split around its first `c`.
pub fn split_first(s: &str, c: char) -> (r: Option<(String, String)>)
    ensures
        pair_view(r) == cut_at(s@, first_pos(s@, c)),
{
    let k = find_char(s, c, false);
    cut(s, k)
}

/// `s` split around its last `c`.
pub fn split_last(s: &str, c: char) -> (r: Option<(String, String)>)
    ensures
        pair_view(r) == cut_at(s@, last_pos(s@, c)),
{
    let k = find_char(s, c, true);
    cut(s, k)
}

/// The number of white-space characters that `s` begins with.
pub open spec fn leading_space(s: Seq<char>) -> nat
    decreases s.len(),
{
    if s.len() == 0 {
        0
    } else if leading_space(s.drop_last()) == s.len() - 1 && is_unicode_space(s.last()) {
        s.len()
    } else {
        leading_space(s.drop_last())
    }
}

/// The number of white-space characters that `s` ends with.
pub open spec fn trailing_space(s: Seq<char>) -> nat
    decreases s.len(),
{
    if s.len() > 0 && is_unicode_space(s.last()) {
        trailing_space(s.drop_last()) + 1
    } else {
        0
    }
}

/// `s` without leading and trailing white space.
pub open spec fn trimmed(s: Seq<char>) -> Seq<char> {
    let t = s.subrange(leading_space(s) as int, s.len() as int);
    t.subrange(0, t.len() - trailing_space(t))
}

proof fn lemma_leading_bound(s: Seq<char>)
    ensures
        leading_space(s) <= s.len(),
    decreases s.len(),
{
    if s.len() > 0 {
        lemma_leading_bound(s.drop_last());
    }
}

/// `s` without leading and trailing white space.
pub fn trim(s: &str) -> (r: String)
    ensures
        r@ == trimmed(s@),
{
    let n = s.unicode_len();
    let mut lead: usize = 0;
    let mut i: usize = 0;
    while i < n
        invariant
            n == s@.len(),
            0 <= i <= n,
            lead as int == leading_space(s@.take(i as int)),
        decreases n - i,
    {
        let ch = s.get_char(i);
        assert(s@.take(i + 1).drop_last() =~= s@.take(i as int));
        if lead == i && is_space(ch) {
            lead = i + 1;
        }
        i = i + 1;
    }
    assert(s@.take(n as int) =~= s@);
    proof {
        lemma_leading_bound(s@);
    }
    let t = s.substring_char(lead, n);
    let m = t.unicode_len();
    let mut trail: usize = 0;
    let mut j: usize = 0;
    while j < m
        invariant
            m == t@.len(),
            0 <= j <= m,
            trail as int == trailing_space(t@.take(j as int)),
            trail <= j,
        decreases m - j,
    {
        let ch = t.get_char(j);
        assert(t@.take(j + 1).drop_last() =~= t@.take(j as int));
        if is_space(ch) {
            trail = trail + 1;
        } else {
            trail = 0;
        }
        j = j + 1;
    }
    assert(t@.take(m as int) =~= t@);
    String::from_str(t.substring_char(0, m - trail))
}

/// Whether `t` begins with `p` followed by `c`.
pub open spec fn has_prefix_then(t: Seq<char>, p: Seq<char>, c: char) -> bool {
    t.len() > p.len() && t.subrange(0, p.len() as int) == p && t[p.len() as int] == c
}

pub fn starts_with_then(t: &str, p: &str, c: char) -> (r: bool)
    ensures
        r == has_prefix_then(t@, p@, c),
{
    let tn = t.unicode_len();
    let pn = p.unicode_len();
    if tn <= pn {
        return false;
    }
    let mut i: usize = 0;
    while i < pn
        invariant
            tn == t@.len(),
            pn == p@.len(),
            pn < tn,
            0 <= i <= pn,
            forall|k: int| 0 <= k < i ==> t@[k] == p@[k],
        decreases pn - i,
    {
        if t.get_char(i) != p.get_char(i) {
            assert(t@.subrange(0, pn as int)[i as int] != p@[i as int]);
            return false;
        }
        i = i + 1;
    }
    assert(t@.subrange(0, pn as int) =~= p@);
    t.get_char(pn) == c
}

/// Whether `a` and `b` hold the same characters.
pub fn same_chars(a: &str, b: &str) -> (r: bool)
    ensures
        r == (a@ == b@),
{
    let n = a.unicode_len();
    if n != b.unicode_len() {
        return false;
    }
    let mut i: usize = 0;
    while i < n
        invariant
            n == a@.len() && n == b@.len(),
            0 <= i <= n,
            forall|k: int| 0 <= k < i ==> a@[k] == b@[k],
        decreases n - i,
    {
        if a.get_char(i) != b.get_char(i) {
            return false;
        }
        i = i + 1;
    }
    assert(a@ =~= b@);
    true
}

} // verus!
