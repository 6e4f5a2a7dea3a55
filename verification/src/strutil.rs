//! Character-level string utilities: equality, search, and trimming.
//!
//! All executable functions here are specified against recursive spec
//! functions over `Seq<char>` views.

use vstd::prelude::*;

verus! {

/// Whitespace recognized when trimming parsed keys and values.
pub open spec fn is_space(c: char) -> bool {
    c == ' ' || c == '\t' || c == '\r' || c == '\n'
}

/// Executable mirror of `is_space`.
fn space_char(c: char) -> (r: bool)
    ensures
        r == is_space(c),
{
    c == ' ' || c == '\t' || c == '\r' || c == '\n'
}

/// Index of the first occurrence of `c` in `s`, if any.
pub open spec fn find_char(s: Seq<char>, c: char) -> Option<int>
    decreases s.len(),
{
    if s.len() == 0 {
        None
    } else if s[0] == c {
        Some(0)
    } else {
        match find_char(s.drop_first(), c) {
            None => None,
            Some(i) => Some(i + 1),
        }
    }
}

/// What `find_char` returns is the first occurrence of `c`.
pub proof fn lemma_find_char(s: Seq<char>, c: char)
    ensures
        match find_char(s, c) {
            Some(i) => 0 <= i < s.len() && s[i] == c && (forall|j: int| 0 <= j < i ==> s[j] != c),
            None => forall|j: int| 0 <= j < s.len() ==> s[j] != c,
        },
    decreases s.len(),
{
    if s.len() > 0 && s[0] != c {
        lemma_find_char(s.drop_first(), c);
        assert(forall|j: int| 1 <= j < s.len() ==> s[j] == s.drop_first()[j - 1]);
    }
}

/// `s` with all leading characters satisfying `is_space` removed.
pub open spec fn trim_front_ws(s: Seq<char>) -> Seq<char>
    decreases s.len(),
{
    if s.len() > 0 && is_space(s[0]) {
        trim_front_ws(s.drop_first())
    } else {
        s
    }
}

/// `s` with all trailing characters satisfying `is_space` removed.
pub open spec fn trim_back_ws(s: Seq<char>) -> Seq<char>
    decreases s.len(),
{
    if s.len() > 0 && is_space(s.last()) {
        trim_back_ws(s.drop_last())
    } else {
        s
    }
}

/// `s` with surrounding whitespace removed.
pub open spec fn trim_ws_spec(s: Seq<char>) -> Seq<char> {
    trim_back_ws(trim_front_ws(s))
}

/// `s` with all leading occurrences of `c` removed.
pub open spec fn trim_front_char(s: Seq<char>, c: char) -> Seq<char>
    decreases s.len(),
{
    if s.len() > 0 && s[0] == c {
        trim_front_char(s.drop_first(), c)
    } else {
        s
    }
}

/// `s` with all trailing occurrences of `c` removed.
pub open spec fn trim_back_char(s: Seq<char>, c: char) -> Seq<char>
    decreases s.len(),
{
    if s.len() > 0 && s.last() == c {
        trim_back_char(s.drop_last(), c)
    } else {
        s
    }
}

/// `s` with all surrounding occurrences of `c` removed.
pub open spec fn trim_char_spec(s: Seq<char>, c: char) -> Seq<char> {
    trim_back_char(trim_front_char(s, c), c)
}

/// Character-by-character string equality.
pub fn str_eq(a: &str, b: &str) -> (r: bool)
    ensures
        r == (a@ == b@),
{
    let na = a.unicode_len();
    let nb = b.unicode_len();
    if na != nb {
        assert(a@ != b@);
        return false;
    }
    let mut i: usize = 0;
    while i < na
        invariant
            i <= na,
            na == a@.len(),
            na == b@.len(),
            forall|j: int| 0 <= j < i ==> a@[j] == b@[j],
        decreases na - i,
    {
        if a.get_char(i) != b.get_char(i) {
            assert(a@ != b@);
            return false;
        }
        i = i + 1;
    }
    assert(a@ =~= b@);
    true
}

/// First occurrence of `c` in `s`.
pub fn find_char_in(s: &str, c: char) -> (r: Option<usize>)
    ensures
        match r {
            Some(i) => find_char(s@, c) == Some(i as int),
            None => find_char(s@, c) is None,
        },
{
    let n = s.unicode_len();
    let mut i: usize = 0;
    while i < n
        invariant
            i <= n,
            n == s@.len(),
            forall|j: int| 0 <= j < i ==> s@[j] != c,
        decreases n - i,
    {
        if s.get_char(i) == c {
            proof {
                lemma_find_char(s@, c);
            }
            return Some(i);
        }
        i = i + 1;
    }
    proof {
        lemma_find_char(s@, c);
    }
    None
}

/// Removing a leading space keeps the whitespace trim of the suffix.
proof fn lemma_trim_front_ws_step(s: Seq<char>, k: int)
    requires
        0 <= k <= s.len(),
        forall|j: int| 0 <= j < k ==> is_space(s[j]),
    ensures
        trim_front_ws(s) == trim_front_ws(s.subrange(k, s.len() as int)),
    decreases k,
{
    if k > 0 {
        lemma_trim_front_ws_step(s, k - 1);
        let t = s.subrange(k - 1, s.len() as int);
        assert(t[0] == s[k - 1]);
        assert(t.drop_first() =~= s.subrange(k, s.len() as int));
    } else {
        assert(s.subrange(0, s.len() as int) =~= s);
    }
}

/// Removing a trailing space keeps the whitespace trim of the prefix.
proof fn lemma_trim_back_ws_step(s: Seq<char>, k: int)
    requires
        0 <= k <= s.len(),
        forall|j: int| k <= j < s.len() ==> is_space(s[j]),
    ensures
        trim_back_ws(s) == trim_back_ws(s.subrange(0, k)),
    decreases s.len() - k,
{
    if k < s.len() {
        assert(s.drop_last() =~= s.subrange(0, s.len() - 1));
        lemma_trim_back_ws_step(s.subrange(0, s.len() - 1), k);
        assert(s.subrange(0, s.len() - 1).subrange(0, k) =~= s.subrange(0, k));
    } else {
        assert(s.subrange(0, k) =~= s);
    }
}

/// `s` with surrounding whitespace removed.
pub fn trim_ws<'a>(s: &'a str) -> (r: &'a str)
    ensures
        r@ == trim_ws_spec(s@),
{
    let n = s.unicode_len();
    let mut start: usize = 0;
    while start < n && space_char(s.get_char(start))
        invariant
            start <= n,
            n == s@.len(),
            forall|j: int| 0 <= j < start ==> is_space(s@[j]),
        decreases n - start,
    {
        start = start + 1;
    }
    proof {
        lemma_trim_front_ws_step(s@, start as int);
        if start < n {
            assert(!is_space(s@.subrange(start as int, n as int)[0]));
        } else {
            assert(s@.subrange(start as int, n as int).len() == 0);
        }
        assert(trim_front_ws(s@) == s@.subrange(start as int, n as int));
    }
    let mut end: usize = n;
    while end > start && space_char(s.get_char(end - 1))
        invariant
            start <= end <= n,
            n == s@.len(),
            forall|j: int| end <= j < n ==> is_space(s@[j]),
        decreases end,
    {
        end = end - 1;
    }
    proof {
        let f = s@.subrange(start as int, n as int);
        lemma_trim_back_ws_step(f, end - start);
        assert(f.subrange(0, end - start) =~= s@.subrange(start as int, end as int));
        if end > start {
            let g = f.subrange(0, end - start);
            assert(g.last() == s@[end - 1]);
            assert(!is_space(g.last()));
        } else {
            assert(f.subrange(0, end - start).len() == 0);
        }
        assert(trim_back_ws(f) == s@.subrange(start as int, end as int));
    }
    s.substring_char(start, end)
}

/// Removing a leading `c` keeps the `c`-trim of the suffix.
proof fn lemma_trim_front_char_step(s: Seq<char>, c: char, k: int)
    requires
        0 <= k <= s.len(),
        forall|j: int| 0 <= j < k ==> s[j] == c,
    ensures
        trim_front_char(s, c) == trim_front_char(s.subrange(k, s.len() as int), c),
    decreases k,
{
    if k > 0 {
        lemma_trim_front_char_step(s, c, k - 1);
        let t = s.subrange(k - 1, s.len() as int);
        assert(t[0] == s[k - 1]);
        assert(t.drop_first() =~= s.subrange(k, s.len() as int));
    } else {
        assert(s.subrange(0, s.len() as int) =~= s);
    }
}

/// Removing a trailing `c` keeps the `c`-trim of the prefix.
proof fn lemma_trim_back_char_step(s: Seq<char>, c: char, k: int)
    requires
        0 <= k <= s.len(),
        forall|j: int| k <= j < s.len() ==> s[j] == c,
    ensures
        trim_back_char(s, c) == trim_back_char(s.subrange(0, k), c),
    decreases s.len() - k,
{
    if k < s.len() {
        assert(s.drop_last() =~= s.subrange(0, s.len() - 1));
        lemma_trim_back_char_step(s.subrange(0, s.len() - 1), c, k);
        assert(s.subrange(0, s.len() - 1).subrange(0, k) =~= s.subrange(0, k));
    } else {
        assert(s.subrange(0, k) =~= s);
    }
}

/// `s` with all surrounding occurrences of `c` removed.
pub fn trim_char<'a>(s: &'a str, c: char) -> (r: &'a str)
    ensures
        r@ == trim_char_spec(s@, c),
{
    let n = s.unicode_len();
    let mut start: usize = 0;
    while start < n && s.get_char(start) == c
        invariant
            start <= n,
            n == s@.len(),
            forall|j: int| 0 <= j < start ==> s@[j] == c,
        decreases n - start,
    {
        start = start + 1;
    }
    proof {
        lemma_trim_front_char_step(s@, c, start as int);
        if start < n {
            assert(s@.subrange(start as int, n as int)[0] != c);
        } else {
            assert(s@.subrange(start as int, n as int).len() == 0);
        }
        assert(trim_front_char(s@, c) == s@.subrange(start as int, n as int));
    }
    let mut end: usize = n;
    while end > start && s.get_char(end - 1) == c
        invariant
            start <= end <= n,
            n == s@.len(),
            forall|j: int| end <= j < n ==> s@[j] == c,
        decreases end,
    {
        end = end - 1;
    }
    proof {
        let f = s@.subrange(start as int, n as int);
        lemma_trim_back_char_step(f, c, end - start);
        assert(f.subrange(0, end - start) =~= s@.subrange(start as int, end as int));
        if end > start {
            let g = f.subrange(0, end - start);
            assert(g.last() == s@[end - 1]);
            assert(g.last() != c);
        } else {
            assert(f.subrange(0, end - start).len() == 0);
        }
        assert(trim_back_char(f, c) == s@.subrange(start as int, end as int));
    }
    s.substring_char(start, end)
}

} // verus!
