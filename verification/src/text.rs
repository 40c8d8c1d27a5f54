//! Small verified text utilities shared by the tool layer: string
//! comparison and search, character counting, and decimal formatting for
//! report messages.

use vstd::prelude::*;

verus! {

// ---------------------------------------------------------------------------
// Comparison and search
// ---------------------------------------------------------------------------

/// `p` is a prefix of `s`.
pub open spec fn seq_starts_with(s: Seq<char>, p: Seq<char>) -> bool {
    s.len() >= p.len() && s.subrange(0, p.len() as int) == p
}

/// `needle` occurs in `hay` starting at index `k`.
pub open spec fn contains_at(hay: Seq<char>, needle: Seq<char>, k: int) -> bool {
    0 <= k && k + needle.len() <= hay.len() && hay.subrange(k, k + needle.len()) == needle
}

/// `needle` occurs somewhere in `hay`.
pub open spec fn seq_contains(hay: Seq<char>, needle: Seq<char>) -> bool {
    exists|k: int| contains_at(hay, needle, k)
}

/// Character-wise string equality.
pub fn str_eq(a: &str, b: &str) -> (r: bool)
    ensures
        r == (a@ == b@),
{
    let n = a.unicode_len();
    if n != b.unicode_len() {
        return false;
    }
    let mut i: usize = 0;
    while i < n
        invariant
            i <= n,
            n == a@.len(),
            n == b@.len(),
            forall|j: int| 0 <= j < i ==> a@[j] == b@[j],
        decreases n - i,
    {
        if a.get_char(i) != b.get_char(i) {
            assert(a@[i as int] != b@[i as int]);
            return false;
        }
        i = i + 1;
    }
    proof {
        assert(a@ =~= b@);
    }
    true
}

/// `p` is a prefix of `s`.
pub fn str_starts_with(s: &str, p: &str) -> (r: bool)
    ensures
        r == seq_starts_with(s@, p@),
{
    let n = s.unicode_len();
    let pn = p.unicode_len();
    if pn > n {
        return false;
    }
    let mut i: usize = 0;
    while i < pn
        invariant
            i <= pn,
            pn <= n,
            n == s@.len(),
            pn == p@.len(),
            forall|j: int| 0 <= j < i ==> s@[j] == p@[j],
        decreases pn - i,
    {
        if s.get_char(i) != p.get_char(i) {
            assert(s@[i as int] != p@[i as int]);
            assert(!seq_starts_with(s@, p@)) by {
                if seq_starts_with(s@, p@) {
                    assert(s@.subrange(0, pn as int)[i as int] == s@[i as int]);
                }
            }
            return false;
        }
        i = i + 1;
    }
    proof {
        assert(s@.subrange(0, pn as int) =~= p@);
    }
    true
}

/// Whether `needle` occurs at position `k` of `hay`.
fn match_at(hay: &str, needle: &str, k: usize) -> (r: bool)
    requires
        k + needle@.len() <= hay@.len(),
    ensures
        r == contains_at(hay@, needle@, k as int),
{
    let hn = hay.unicode_len();
    let nn = needle.unicode_len();
    let mut j: usize = 0;
    while j < nn
        invariant
            j <= nn,
            nn == needle@.len(),
            hn == hay@.len(),
            k + nn <= hn,
            forall|m: int| 0 <= m < j ==> hay@[k + m] == needle@[m],
        decreases nn - j,
    {
        if hay.get_char(k + j) != needle.get_char(j) {
            assert(hay@[k + j as int] != needle@[j as int]);
            assert(!contains_at(hay@, needle@, k as int)) by {
                if contains_at(hay@, needle@, k as int) {
                    assert(hay@.subrange(k as int, k as int + nn as int)[j as int] == hay@[k
                        + j as int]);
                }
            }
            return false;
        }
        j = j + 1;
    }
    proof {
        assert(hay@.subrange(k as int, k as int + nn as int) =~= needle@);
    }
    true
}

/// Substring search, as `str::contains` with a string pattern.
pub fn str_contains(hay: &str, needle: &str) -> (r: bool)
    ensures
        r == seq_contains(hay@, needle@),
{
    let n = hay.unicode_len();
    let nn = needle.unicode_len();
    if nn > n {
        assert forall|k: int| !contains_at(hay@, needle@, k) by {}
        return false;
    }
    let last = n - nn;
    let mut k: usize = 0;
    while k < last
        invariant
            nn <= n,
            n == hay@.len(),
            nn == needle@.len(),
            last == n - nn,
            k <= last,
            forall|k0: int| 0 <= k0 < k ==> !contains_at(hay@, needle@, k0),
        decreases last - k,
    {
        if match_at(hay, needle, k) {
            return true;
        }
        k = k + 1;
    }
    if match_at(hay, needle, last) {
        return true;
    }
    assert forall|k0: int| !contains_at(hay@, needle@, k0) by {
        if k0 > last {
            assert(k0 + needle@.len() > hay@.len());
        }
    }
    false
}

// ---------------------------------------------------------------------------
// ASCII-case-insensitive matching
// ---------------------------------------------------------------------------

/// `c` reads as the lower-case letter `w`, ignoring ASCII case.
pub open spec fn same_letter_ci(c: char, w: char) -> bool {
    c == w || (65 <= c as u32 <= 90 && c as u32 + 32 == w as u32)
}

/// `s` spells the lower-case word `w`, ignoring ASCII case.
pub open spec fn spells_ci(s: Seq<char>, w: Seq<char>) -> bool {
    s.len() == w.len() && forall|i: int| 0 <= i < s.len() ==> same_letter_ci(s[i], w[i])
}

/// `s` spells the lower-case word `w`, ignoring ASCII case.
pub fn spells_word_ci(s: &str, w: &str) -> (r: bool)
    ensures
        r == spells_ci(s@, w@),
{
    let n = s.unicode_len();
    if n != w.unicode_len() {
        return false;
    }
    let mut i: usize = 0;
    while i < n
        invariant
            i <= n,
            n == s@.len(),
            n == w@.len(),
            forall|j: int| 0 <= j < i ==> same_letter_ci(s@[j], w@[j]),
        decreases n - i,
    {
        let c = s.get_char(i);
        let wc = w.get_char(i);
        let cu = c as u32;
        let wu = wc as u32;
        if !(c == wc || (65 <= cu && cu <= 90 && cu + 32 == wu)) {
            assert(!same_letter_ci(s@[i as int], w@[i as int]));
            return false;
        }
        i = i + 1;
    }
    true
}

/// The lower-case word `w` occurs in `hay` at index `k`, ignoring ASCII
/// case.
pub open spec fn contains_ci_at(hay: Seq<char>, w: Seq<char>, k: int) -> bool {
    0 <= k && k + w.len() <= hay.len() && spells_ci(hay.subrange(k, k + w.len()), w)
}

/// The lower-case word `w` occurs somewhere in `hay`, ignoring ASCII case.
pub open spec fn seq_contains_ci(hay: Seq<char>, w: Seq<char>) -> bool {
    exists|k: int| contains_ci_at(hay, w, k)
}

/// Whether `w` occurs at position `k` of `hay`, ignoring ASCII case.
fn match_ci_at(hay: &str, w: &str, k: usize) -> (r: bool)
    requires
        k + w@.len() <= hay@.len(),
    ensures
        r == contains_ci_at(hay@, w@, k as int),
{
    let hn = hay.unicode_len();
    let nn = w.unicode_len();
    let ghost part = hay@.subrange(k as int, k as int + nn as int);
    let mut j: usize = 0;
    while j < nn
        invariant
            j <= nn,
            nn == w@.len(),
            hn == hay@.len(),
            k + nn <= hn,
            part == hay@.subrange(k as int, k as int + nn as int),
            forall|m: int| 0 <= m < j ==> same_letter_ci(part[m], w@[m]),
        decreases nn - j,
    {
        let c = hay.get_char(k + j);
        let wc = w.get_char(j);
        let cu = c as u32;
        let wu = wc as u32;
        proof {
            assert(part[j as int] == hay@[k + j as int]);
        }
        if !(c == wc || (65 <= cu && cu <= 90 && cu + 32 == wu)) {
            assert(!same_letter_ci(part[j as int], w@[j as int]));
            return false;
        }
        j = j + 1;
    }
    true
}

/// Case-insensitive substring search for a lower-case word.
pub fn str_contains_ci(hay: &str, w: &str) -> (r: bool)
    ensures
        r == seq_contains_ci(hay@, w@),
{
    let n = hay.unicode_len();
    let nn = w.unicode_len();
    if nn > n {
        assert forall|k: int| !contains_ci_at(hay@, w@, k) by {}
        return false;
    }
    let last = n - nn;
    let mut k: usize = 0;
    while k < last
        invariant
            nn <= n,
            n == hay@.len(),
            nn == w@.len(),
            last == n - nn,
            k <= last,
            forall|k0: int| 0 <= k0 < k ==> !contains_ci_at(hay@, w@, k0),
        decreases last - k,
    {
        if match_ci_at(hay, w, k) {
            return true;
        }
        k = k + 1;
    }
    if match_ci_at(hay, w, last) {
        return true;
    }
    assert forall|k0: int| !contains_ci_at(hay@, w@, k0) by {
        if k0 > last {
            assert(k0 + w@.len() > hay@.len());
        }
    }
    false
}

// ---------------------------------------------------------------------------
// Counting characters
// ---------------------------------------------------------------------------

/// How many times `c` occurs in `s`.
pub open spec fn count_char(s: Seq<char>, c: char) -> int
    decreases s.len(),
{
    if s.len() == 0 {
        0
    } else {
        count_char(s.drop_last(), c) + if s.last() == c {
            1int
        } else {
            0int
        }
    }
}

/// Count the occurrences of `c` in `s`.
pub fn count_char_in(s: &str, c: char) -> (r: usize)
    ensures
        r as int == count_char(s@, c),
{
    let n = s.unicode_len();
    let mut count: usize = 0;
    let mut i: usize = 0;
    while i < n
        invariant
            i <= n,
            n == s@.len(),
            count <= i,
            count as int == count_char(s@.take(i as int), c),
        decreases n - i,
    {
        proof {
            assert(s@.take(i as int + 1).drop_last() =~= s@.take(i as int));
            assert(s@.take(i as int + 1).last() == s@[i as int]);
        }
        if s.get_char(i) == c {
            count = count + 1;
        }
        i = i + 1;
    }
    proof {
        assert(s@.take(n as int) =~= s@);
    }
    count
}

// ---------------------------------------------------------------------------
// Decimal formatting
// ---------------------------------------------------------------------------

/// The digit character for a value below ten.
pub open spec fn digit_char(d: int) -> char {
    if d == 0 {
        '0'
    } else if d == 1 {
        '1'
    } else if d == 2 {
        '2'
    } else if d == 3 {
        '3'
    } else if d == 4 {
        '4'
    } else if d == 5 {
        '5'
    } else if d == 6 {
        '6'
    } else if d == 7 {
        '7'
    } else if d == 8 {
        '8'
    } else {
        '9'
    }
}

/// The decimal digits of a non-negative number, most significant first.
pub open spec fn spec_fmt_nat(n: int) -> Seq<char>
    decreases n,
{
    if n < 10 {
        seq![digit_char(n)]
    } else {
        spec_fmt_nat(n / 10).push(digit_char(n % 10))
    }
}

/// One digit as a string.
fn digit_string(d: usize) -> (r: String)
    requires
        d < 10,
    ensures
        r@ == seq![digit_char(d as int)],
{
    let r = if d == 0 {
        "0"
    } else if d == 1 {
        "1"
    } else if d == 2 {
        "2"
    } else if d == 3 {
        "3"
    } else if d == 4 {
        "4"
    } else if d == 5 {
        "5"
    } else if d == 6 {
        "6"
    } else if d == 7 {
        "7"
    } else if d == 8 {
        "8"
    } else {
        "9"
    };
    proof {
        reveal_strlit("0");
        reveal_strlit("1");
        reveal_strlit("2");
        reveal_strlit("3");
        reveal_strlit("4");
        reveal_strlit("5");
        reveal_strlit("6");
        reveal_strlit("7");
        reveal_strlit("8");
        reveal_strlit("9");
        assert(r@ =~= seq![digit_char(d as int)]);
    }
    r.to_owned()
}

/// A number in decimal, without sign or padding.
pub fn fmt_usize(n: usize) -> (r: String)
    ensures
        r@ == spec_fmt_nat(n as int),
    decreases n,
{
    if n < 10 {
        digit_string(n)
    } else {
        let mut s = fmt_usize(n / 10);
        let d = digit_string(n % 10);
        s.append(d.as_str());
        proof {
            assert(spec_fmt_nat((n / 10) as int).push(digit_char(n as int % 10))
                =~= spec_fmt_nat((n / 10) as int) + seq![digit_char(n as int % 10)]);
        }
        s
    }
}

/// The numbers, separated by a comma and a space.
pub open spec fn spec_fmt_list_inner(ns: Seq<usize>) -> Seq<char>
    decreases ns.len(),
{
    if ns.len() == 0 {
        Seq::empty()
    } else if ns.len() == 1 {
        spec_fmt_nat(ns[0] as int)
    } else {
        spec_fmt_nat(ns[0] as int) + ", "@ + spec_fmt_list_inner(ns.skip(1))
    }
}

/// A bracketed, comma-separated list of numbers, as a list of line numbers
/// is reported.
pub open spec fn spec_fmt_list(ns: Seq<usize>) -> Seq<char> {
    "["@ + spec_fmt_list_inner(ns) + "]"@
}

proof fn lemma_fmt_list_inner_snoc(ns: Seq<usize>, x: usize)
    requires
        ns.len() >= 1,
    ensures
        spec_fmt_list_inner(ns.push(x)) == spec_fmt_list_inner(ns) + ", "@ + spec_fmt_nat(
            x as int,
        ),
    decreases ns.len(),
{
    if ns.len() == 1 {
        assert(ns.push(x)[0] == ns[0]);
        assert(ns.push(x).skip(1) =~= seq![x]);
        assert(spec_fmt_list_inner(seq![x]) == spec_fmt_nat(x as int));
    } else {
        assert(ns.push(x)[0] == ns[0]);
        assert(ns.push(x).skip(1) =~= ns.skip(1).push(x));
        lemma_fmt_list_inner_snoc(ns.skip(1), x);
        assert(spec_fmt_list_inner(ns.push(x)) == spec_fmt_nat(ns[0] as int) + ", "@
            + spec_fmt_list_inner(ns.skip(1).push(x)));
    }
}

/// Format a list of numbers the way a line-number list is reported.
pub fn fmt_usize_list(ns: &Vec<usize>) -> (r: String)
    ensures
        r@ == spec_fmt_list(ns@),
{
    let mut out = "[".to_owned();
    let n = ns.len();
    let mut i: usize = 0;
    while i < n
        invariant
            i <= n,
            n == ns@.len(),
            out@ == "["@ + spec_fmt_list_inner(ns@.take(i as int)),
        decreases n - i,
    {
        if i > 0 {
            out.append(", ");
        }
        let d = fmt_usize(ns[i]);
        out.append(d.as_str());
        proof {
            let taken = ns@.take(i as int);
            assert(taken.push(ns@[i as int]) =~= ns@.take(i as int + 1));
            if i == 0 {
                assert(ns@.take(1) =~= seq![ns@[0]]);
                assert(spec_fmt_list_inner(seq![ns@[0]]) == spec_fmt_nat(ns@[0] as int));
            } else {
                lemma_fmt_list_inner_snoc(taken, ns@[i as int]);
            }
        }
        i = i + 1;
    }
    out.append("]");
    proof {
        assert(ns@.take(n as int) =~= ns@);
    }
    out
}

} // verus!
