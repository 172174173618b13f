//! Small verified string utilities used by the registry codec and the
//! orchestrator: character search, equality, substring containment and
//! ASCII-whitespace trimming, all specified over `Seq<char>` views.

use vstd::prelude::*;

verus! {

/// Index of the first occurrence of `c` in `s`, or `-1` when absent.
pub open spec fn index_of(s: Seq<char>, c: char) -> int
    decreases s.len(),
{
    if s.len() == 0 {
        -1
    } else if s[0] == c {
        0
    } else {
        let r = index_of(s.drop_first(), c);
        if r < 0 {
            -1
        } else {
            r + 1
        }
    }
}

/// `index_of` returns either `-1` (and then `c` occurs nowhere) or the
/// least index holding `c`.
pub proof fn lemma_index_of(s: Seq<char>, c: char)
    ensures
        index_of(s, c) >= 0 ==> index_of(s, c) < s.len() && s[index_of(s, c)] == c,
        index_of(s, c) == -1 <==> forall|i: int| 0 <= i < s.len() ==> s[i] != c,
        forall|i: int| 0 <= i < index_of(s, c) ==> s[i] != c,
    decreases s.len(),
{
    if s.len() > 0 && s[0] != c {
        lemma_index_of(s.drop_first(), c);
        assert forall|i: int| 0 <= i < s.len() && index_of(s, c) == -1 implies s[i] != c by {
            if i > 0 {
                assert(s.drop_first()[i - 1] == s[i]);
            }
        }
        assert forall|i: int| 0 <= i < index_of(s, c) implies s[i] != c by {
            if i > 0 {
                assert(s.drop_first()[i - 1] == s[i]);
            }
        }
    }
}

/// An index that holds `c` with none before it is the one `index_of`
/// returns.
pub proof fn lemma_index_of_exact(s: Seq<char>, c: char, k: int)
    requires
        0 <= k < s.len(),
        s[k] == c,
        forall|i: int| 0 <= i < k ==> s[i] != c,
    ensures
        index_of(s, c) == k,
{
    lemma_index_of(s, c);
    let idx = index_of(s, c);
    if idx == -1 {
        assert(s[k] != c);
        assert(false);
    } else if idx < k {
        assert(s[idx] != c);
        assert(false);
    } else if idx > k {
        assert(s[k] != c);
        assert(false);
    }
}

/// Exec search for the first occurrence of `c` in `s`.
pub fn find_char(s: &str, c: char) -> (r: Option<usize>)
    ensures
        match r {
            Some(i) => index_of(s@, c) == i as int,
            None => index_of(s@, c) == -1,
        },
{
    let n = s.unicode_len();
    let mut i: usize = 0;
    proof {
        lemma_index_of(s@, c);
    }
    while i < n
        invariant
            n == s@.len(),
            0 <= i <= n,
            forall|j: int| 0 <= j < i ==> s@[j] != c,
            index_of(s@, c) >= 0 ==> index_of(s@, c) < s@.len() && s@[index_of(s@, c)] == c,
            index_of(s@, c) == -1 <==> forall|j: int| 0 <= j < s@.len() ==> s@[j] != c,
            forall|j: int| 0 <= j < index_of(s@, c) ==> s@[j] != c,
        decreases n - i,
    {
        if s.get_char(i) == c {
            return Some(i);
        }
        i += 1;
    }
    None
}

/// Index of the last occurrence of `c` in `s`, or `-1` when absent.
pub open spec fn last_index_of(s: Seq<char>, c: char) -> int
    decreases s.len(),
{
    if s.len() == 0 {
        -1
    } else if s.last() == c {
        s.len() - 1
    } else {
        last_index_of(s.drop_last(), c)
    }
}

/// `last_index_of` returns either `-1` (and then `c` occurs nowhere) or the
/// greatest index holding `c`.
pub proof fn lemma_last_index_of(s: Seq<char>, c: char)
    ensures
        last_index_of(s, c) >= 0 ==> last_index_of(s, c) < s.len() && s[last_index_of(s, c)] == c,
        last_index_of(s, c) == -1 <==> forall|i: int| 0 <= i < s.len() ==> s[i] != c,
        forall|i: int| last_index_of(s, c) < i < s.len() ==> s[i] != c,
    decreases s.len(),
{
    if s.len() > 0 && s.last() != c {
        lemma_last_index_of(s.drop_last(), c);
        assert forall|i: int| 0 <= i < s.len() && last_index_of(s, c) == -1 implies s[i] != c by {
            if i < s.len() - 1 {
                assert(s.drop_last()[i] == s[i]);
            }
        }
        assert forall|i: int| last_index_of(s, c) < i < s.len() implies s[i] != c by {
            if i < s.len() - 1 {
                assert(s.drop_last()[i] == s[i]);
            }
        }
    }
}

/// Exec search for the last occurrence of `c` in `s`.
pub fn rfind_char(s: &str, c: char) -> (r: Option<usize>)
    ensures
        match r {
            Some(i) => last_index_of(s@, c) == i as int,
            None => last_index_of(s@, c) == -1,
        },
{
    let n = s.unicode_len();
    let mut i: usize = n;
    proof {
        lemma_last_index_of(s@, c);
    }
    while i > 0
        invariant
            n == s@.len(),
            0 <= i <= n,
            forall|j: int| i <= j < n ==> s@[j] != c,
            last_index_of(s@, c) >= 0 ==> last_index_of(s@, c) < s@.len() && s@[last_index_of(
                s@,
                c,
            )] == c,
            last_index_of(s@, c) == -1 <==> forall|j: int| 0 <= j < s@.len() ==> s@[j] != c,
            forall|j: int| last_index_of(s@, c) < j < s@.len() ==> s@[j] != c,
        decreases i,
    {
        if s.get_char(i - 1) == c {
            return Some(i - 1);
        }
        i -= 1;
    }
    None
}

/// Exec character-wise string equality, specified over the views.
pub fn str_eq(a: &str, b: &str) -> (r: bool)
    ensures
        r == (a@ == b@),
{
    let na = a.unicode_len();
    let nb = b.unicode_len();
    if na != nb {
        return false;
    }
    let mut i: usize = 0;
    while i < na
        invariant
            na == a@.len(),
            na == b@.len(),
            0 <= i <= na,
            forall|j: int| 0 <= j < i ==> a@[j] == b@[j],
        decreases na - i,
    {
        if a.get_char(i) != b.get_char(i) {
            return false;
        }
        i += 1;
    }
    proof {
        assert(a@ =~= b@);
    }
    true
}

/// `needle` occurs contiguously somewhere inside `haystack`.
pub open spec fn contains_seq(haystack: Seq<char>, needle: Seq<char>) -> bool {
    exists|i: int|
        0 <= i && i + needle.len() <= haystack.len() && #[trigger] haystack.subrange(
            i,
            i + needle.len(),
        ) == needle
}

/// `needle` occurs in `haystack` starting exactly at index `i`.
fn matches_at(haystack: &str, needle: &str, i: usize) -> (r: bool)
    requires
        i + needle@.len() <= haystack@.len(),
    ensures
        r == (haystack@.subrange(i as int, i + needle@.len()) == needle@),
{
    let n = needle.unicode_len();
    let nh = haystack.unicode_len();
    let mut j: usize = 0;
    while j < n
        invariant
            n == needle@.len(),
            nh == haystack@.len(),
            i + n <= haystack@.len(),
            0 <= j <= n,
            forall|k: int| 0 <= k < j ==> haystack@[i + k] == needle@[k],
        decreases n - j,
    {
        if haystack.get_char(i + j) != needle.get_char(j) {
            proof {
                assert(haystack@.subrange(i as int, i + needle@.len())[j as int] != needle@[
                    j as int
                ]);
            }
            return false;
        }
        j += 1;
    }
    proof {
        assert(haystack@.subrange(i as int, i + needle@.len()) =~= needle@);
    }
    true
}

/// Exec substring containment, specified over the views.
pub fn str_contains(haystack: &str, needle: &str) -> (r: bool)
    ensures
        r == contains_seq(haystack@, needle@),
{
    let nh = haystack.unicode_len();
    let nn = needle.unicode_len();
    if nn > nh {
        return false;
    }
    if nn == 0 {
        proof {
            let z: int = 0;
            assert(haystack@.subrange(z, z + needle@.len()) =~= needle@);
        }
        return true;
    }
    let mut i: usize = 0;
    while i <= nh - nn
        invariant
            nh == haystack@.len(),
            nn == needle@.len(),
            1 <= nn <= nh,
            0 <= i <= nh - nn + 1,
            forall|k: int|
                0 <= k < i ==> #[trigger] haystack@.subrange(k, k + needle@.len()) != needle@,
        decreases nh - i,
    {
        if matches_at(haystack, needle, i) {
            return true;
        }
        i += 1;
    }
    false
}

/// ASCII whitespace, the only whitespace the engine emits around a URL.
pub open spec fn is_ws(c: char) -> bool {
    c == ' ' || c == '\t' || c == '\n' || c == '\r'
}

/// `s` without its leading whitespace.
pub open spec fn trim_front(s: Seq<char>) -> Seq<char>
    decreases s.len(),
{
    if s.len() > 0 && is_ws(s[0]) {
        trim_front(s.drop_first())
    } else {
        s
    }
}

/// `s` without its trailing whitespace.
pub open spec fn trim_back(s: Seq<char>) -> Seq<char>
    decreases s.len(),
{
    if s.len() > 0 && is_ws(s.last()) {
        trim_back(s.drop_last())
    } else {
        s
    }
}

/// `s` without leading and trailing whitespace.
pub open spec fn spec_trim(s: Seq<char>) -> Seq<char> {
    trim_back(trim_front(s))
}

proof fn lemma_trim_front_skip(s: Seq<char>, k: int)
    requires
        0 <= k <= s.len(),
        forall|i: int| 0 <= i < k ==> is_ws(s[i]),
        k == s.len() || !is_ws(s[k]),
    ensures
        trim_front(s) == s.skip(k),
    decreases k,
{
    if k == 0 {
        assert(trim_front(s) =~= s.skip(0)) by {
            if s.len() > 0 && is_ws(s[0]) {
                assert(false);
            } else {
                assert(s.skip(0) =~= s);
            }
        }
    } else {
        let t = s.drop_first();
        assert(forall|i: int| 0 <= i < k - 1 ==> t[i] == s[i + 1] && is_ws(t[i]));
        if k - 1 < t.len() {
            assert(t[k - 1] == s[k as int]);
        }
        lemma_trim_front_skip(t, k - 1);
        assert(t.skip(k - 1) =~= s.skip(k));
    }
}

proof fn lemma_trim_back_take(s: Seq<char>, k: int)
    requires
        0 <= k <= s.len(),
        forall|i: int| k <= i < s.len() ==> is_ws(s[i]),
        k == 0 || !is_ws(s[k - 1]),
    ensures
        trim_back(s) == s.take(k),
    decreases s.len(),
{
    if k == s.len() {
        assert(trim_back(s) =~= s.take(k)) by {
            if s.len() > 0 && is_ws(s.last()) {
                assert(false);
            } else {
                assert(s.take(k) =~= s);
            }
        }
    } else {
        let t = s.drop_last();
        assert(is_ws(s.last()));
        assert(forall|i: int| k <= i < t.len() ==> t[i] == s[i] && is_ws(t[i]));
        lemma_trim_back_take(t, k);
        assert(t.take(k) =~= s.take(k));
    }
}

/// Exec trim of leading and trailing ASCII whitespace.
pub fn str_trim(s: &str) -> (r: &str)
    ensures
        r@ == spec_trim(s@),
{
    let n = s.unicode_len();
    let mut lo: usize = 0;
    let mut stop_front = false;
    while !stop_front && lo < n
        invariant
            n == s@.len(),
            0 <= lo <= n,
            forall|i: int| 0 <= i < lo ==> is_ws(s@[i]),
            stop_front ==> lo < n && !is_ws(s@[lo as int]),
        decreases n - lo + if stop_front { 0int } else { 1int },
    {
        let c = s.get_char(lo);
        if c == ' ' || c == '\t' || c == '\n' || c == '\r' {
            lo += 1;
        } else {
            stop_front = true;
        }
    }
    let mut hi: usize = n;
    let mut stop_back = false;
    while !stop_back && hi > lo
        invariant
            n == s@.len(),
            lo <= hi <= n,
            forall|i: int| 0 <= i < lo ==> is_ws(s@[i]),
            lo == n || !is_ws(s@[lo as int]),
            forall|i: int| hi <= i < n ==> is_ws(s@[i]),
            stop_back ==> hi > lo && !is_ws(s@[hi - 1]),
        decreases hi + if stop_back { 0int } else { 1int },
    {
        let c = s.get_char(hi - 1);
        if c == ' ' || c == '\t' || c == '\n' || c == '\r' {
            hi -= 1;
        } else {
            stop_back = true;
        }
    }
    proof {
        lemma_trim_front_skip(s@, lo as int);
        let t = s@.skip(lo as int);
        lemma_trim_back_take(t, hi - lo);
        assert(t.take(hi - lo) =~= s@.subrange(lo as int, hi as int));
    }
    s.substring_char(lo, hi)
}

}
