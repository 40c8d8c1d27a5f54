//! Unified-diff patch engine.
//!
//! A diff payload is an ordered sequence of text lines.  Each line is
//! classified by its leading characters: a hunk marker (`@@`), a deletion
//! (`-`), an addition (`+`), a context line (space), a file-identity header
//! (`---`/`+++`), or inert text.  Replaying the payload against the target
//! file's lines produces the patched lines together with counters of the
//! lines added and removed.
//!
//! Parsing is lenient by design: a hunk marker that does not parse is
//! ignored, and a deletion or addition whose cursor falls outside the
//! current line sequence is skipped, so imperfect diffs degrade gracefully
//! instead of aborting the whole patch.
//!
//! Hunk headers state 1-based positions in the original file, but earlier
//! hunks of the same payload may already have inserted or removed lines.
//! The engine therefore keeps a running offset — the net number of lines
//! inserted so far — and adds it whenever a header seeds the cursor, so
//! that later hunks land where their original-file positions point.

use vstd::prelude::*;

verus! {

// ---------------------------------------------------------------------------
// Character helpers
// ---------------------------------------------------------------------------

/// Whitespace that separates the fields of a hunk header.
pub open spec fn is_space(c: char) -> bool {
    c == ' ' || c == '\t'
}

/// Decimal digit, `'0'` through `'9'`.
pub open spec fn is_digit(c: char) -> bool {
    48 <= c as u32 <= 57
}

/// Numeric value of a decimal digit.
pub open spec fn digit_val(c: char) -> int {
    c as u32 - 48
}

// ---------------------------------------------------------------------------
// Leading-run measures over a line's characters
// ---------------------------------------------------------------------------

/// Length of the longest prefix of `s` free of header whitespace.
pub open spec fn token_len(s: Seq<char>) -> int
    decreases s.len(),
{
    if s.len() == 0 || is_space(s[0]) {
        0
    } else {
        1 + token_len(s.skip(1))
    }
}

/// Length of the longest prefix of `s` free of commas.
pub open spec fn comma_free_len(s: Seq<char>) -> int
    decreases s.len(),
{
    if s.len() == 0 || s[0] == ',' {
        0
    } else {
        1 + comma_free_len(s.skip(1))
    }
}

/// `s` with every leading occurrence of `c` removed.
pub open spec fn strip_leading(s: Seq<char>, c: char) -> Seq<char>
    decreases s.len(),
{
    if s.len() > 0 && s[0] == c {
        strip_leading(s.skip(1), c)
    } else {
        s
    }
}

proof fn lemma_token_len_bounds(s: Seq<char>)
    ensures
        0 <= token_len(s) <= s.len(),
    decreases s.len(),
{
    if s.len() == 0 || is_space(s[0]) {
    } else {
        lemma_token_len_bounds(s.skip(1));
    }
}

/// A prefix of non-space characters, either reaching the end of `s` or
/// stopped by a space, pins down `token_len`.
proof fn lemma_token_len_at(s: Seq<char>, m: int)
    requires
        0 <= m <= s.len(),
        forall|i: int| 0 <= i < m ==> !is_space(s[i]),
        m == s.len() || is_space(s[m]),
    ensures
        token_len(s) == m,
    decreases s.len(),
{
    if m == 0 {
    } else {
        assert(!is_space(s[0]));
        assert forall|i: int| 0 <= i < m - 1 implies !is_space(s.skip(1)[i]) by {
            assert(s.skip(1)[i] == s[i + 1]);
        }
        if m - 1 < s.skip(1).len() {
            assert(s.skip(1)[m - 1] == s[m]);
        }
        lemma_token_len_at(s.skip(1), m - 1);
    }
}

/// The analogous characterisation for `comma_free_len`.
proof fn lemma_comma_free_len_at(s: Seq<char>, m: int)
    requires
        0 <= m <= s.len(),
        forall|i: int| 0 <= i < m ==> s[i] != ',',
        m == s.len() || s[m] == ',',
    ensures
        comma_free_len(s) == m,
    decreases s.len(),
{
    if m == 0 {
    } else {
        assert forall|i: int| 0 <= i < m - 1 implies s.skip(1)[i] != ',' by {
            assert(s.skip(1)[i] == s[i + 1]);
        }
        if m - 1 < s.skip(1).len() {
            assert(s.skip(1)[m - 1] == s[m]);
        }
        lemma_comma_free_len_at(s.skip(1), m - 1);
    }
}

/// A prefix of `m` copies of `c` not followed by another `c` pins down
/// `strip_leading`.
proof fn lemma_strip_leading_at(s: Seq<char>, c: char, m: int)
    requires
        0 <= m <= s.len(),
        forall|i: int| 0 <= i < m ==> s[i] == c,
        m == s.len() || s[m] != c,
    ensures
        strip_leading(s, c) == s.skip(m),
    decreases s.len(),
{
    if m == 0 {
        assert(s.skip(0) =~= s);
    } else {
        assert forall|i: int| 0 <= i < m - 1 implies s.skip(1)[i] == c by {
            assert(s.skip(1)[i] == s[i + 1]);
        }
        if m - 1 < s.skip(1).len() {
            assert(s.skip(1)[m - 1] == s[m]);
        }
        lemma_strip_leading_at(s.skip(1), c, m - 1);
        assert(s.skip(1).skip(m - 1) =~= s.skip(m));
    }
}

// ---------------------------------------------------------------------------
// Decimal parsing
// ---------------------------------------------------------------------------

/// Value of a digit string, most significant digit first.
pub open spec fn digits_value(s: Seq<char>) -> int
    decreases s.len(),
{
    if s.len() == 0 {
        0
    } else {
        digits_value(s.drop_last()) * 10 + digit_val(s.last())
    }
}

/// A non-empty string of decimal digits.
pub open spec fn all_digits(s: Seq<char>) -> bool {
    s.len() > 0 && forall|i: int| 0 <= i < s.len() ==> is_digit(s[i])
}

/// What `str::parse::<usize>` accepts: an optional leading `+`, then one or
/// more decimal digits, with a value that fits in `usize`.
pub open spec fn spec_parse_usize(s: Seq<char>) -> Option<usize> {
    let body = if s.len() > 0 && s[0] == '+' {
        s.skip(1)
    } else {
        s
    };
    if all_digits(body) && digits_value(body) <= usize::MAX as int {
        Some(digits_value(body) as usize)
    } else {
        None
    }
}

proof fn lemma_digits_value_nonneg(s: Seq<char>)
    requires
        forall|i: int| 0 <= i < s.len() ==> is_digit(s[i]),
    ensures
        digits_value(s) >= 0,
    decreases s.len(),
{
    if s.len() > 0 {
        assert forall|i: int| 0 <= i < s.drop_last().len() implies is_digit(s.drop_last()[i]) by {
            assert(s.drop_last()[i] == s[i]);
        }
        lemma_digits_value_nonneg(s.drop_last());
        assert(is_digit(s.last()));
    }
}

/// Extending a digit string can only increase its value.
proof fn lemma_digits_value_prefix_le(s: Seq<char>, m: int)
    requires
        0 <= m <= s.len(),
        forall|i: int| 0 <= i < s.len() ==> is_digit(s[i]),
    ensures
        digits_value(s.take(m)) <= digits_value(s),
    decreases s.len(),
{
    if m == s.len() {
        assert(s.take(m) =~= s);
    } else {
        assert forall|i: int| 0 <= i < s.drop_last().len() implies is_digit(s.drop_last()[i]) by {
            assert(s.drop_last()[i] == s[i]);
        }
        lemma_digits_value_prefix_le(s.drop_last(), m);
        assert(s.drop_last().take(m) =~= s.take(m));
        lemma_digits_value_nonneg(s.drop_last());
        assert(is_digit(s.last()));
        assert(digits_value(s) == digits_value(s.drop_last()) * 10 + digit_val(s.last()));
        assert(digits_value(s.drop_last()) * 10 >= digits_value(s.drop_last()));
    }
}

// ---------------------------------------------------------------------------
// Hunk-header grammar
// ---------------------------------------------------------------------------

/// The whitespace-separated fields of a line.
pub open spec fn spec_tokens(s: Seq<char>) -> Seq<Seq<char>>
    decreases s.len(),
    via spec_tokens_dec
{
    if s.len() == 0 {
        Seq::empty()
    } else if is_space(s[0]) {
        spec_tokens(s.skip(1))
    } else {
        seq![s.take(token_len(s))] + spec_tokens(s.skip(token_len(s)))
    }
}

#[via_fn]
proof fn spec_tokens_dec(s: Seq<char>) {
    if s.len() > 0 && !is_space(s[0]) {
        lemma_token_len_bounds(s);
        lemma_token_len_bounds(s.skip(1));
        assert(token_len(s) >= 1);
    }
}

/// One range field of a hunk header, already stripped of its `-`/`+`
/// sentinel: `start[,count]`, with `count` defaulting to 1 when it is
/// missing or does not parse.  Rejected when `start` does not parse.
pub open spec fn spec_parse_range(s: Seq<char>) -> Option<(usize, usize)> {
    let k = comma_free_len(s);
    match spec_parse_usize(s.take(k)) {
        None => None,
        Some(start) => {
            if k == s.len() {
                Some((start, 1))
            } else {
                let rest = s.skip(k + 1);
                match spec_parse_usize(rest.take(comma_free_len(rest))) {
                    Some(count) => Some((start, count)),
                    None => Some((start, 1)),
                }
            }
        },
    }
}

/// The hunk-header grammar `@@ -old_start[,old_count] +new_start[,new_count] @@`:
/// split the line on whitespace, require at least three fields, strip the
/// sentinels from the second and third, and parse each as a range.  Text
/// after the third field is ignored.
pub open spec fn spec_parse_hunk_header(line: Seq<char>) -> Option<(usize, usize, usize, usize)> {
    let toks = spec_tokens(line);
    if toks.len() < 3 {
        None
    } else {
        match (
            spec_parse_range(strip_leading(toks[1], '-')),
            spec_parse_range(strip_leading(toks[2], '+')),
        ) {
            (Some((os, oc)), Some((ns, nc))) => Some((os, oc, ns, nc)),
            _ => None,
        }
    }
}

// ---------------------------------------------------------------------------
// Executable parsing
// ---------------------------------------------------------------------------

/// Whether `c` separates hunk-header fields.
fn is_space_char(c: char) -> (r: bool)
    ensures
        r == is_space(c),
{
    c == ' ' || c == '\t'
}

/// Parse a whole token as `str::parse::<usize>` would.
fn parse_usize_token(t: &str) -> (r: Option<usize>)
    ensures
        r == spec_parse_usize(t@),
{
    let n = t.unicode_len();
    let ghost body: Seq<char> = if t@.len() > 0 && t@[0] == '+' {
        t@.skip(1)
    } else {
        t@
    };
    let mut i: usize = 0;
    if n > 0 && t.get_char(0) == '+' {
        i = 1;
    }
    let ghost start: int = i as int;
    if i == n {
        // no digits at all
        assert(!all_digits(body));
        return None;
    }
    assert(body =~= t@.skip(start));
    let mut acc: u128 = 0;
    while i < n
        invariant
            start <= i as int <= n,
            n == t@.len(),
            body == t@.skip(start),
            start == 0 || start == 1,
            start == 1 ==> t@.len() > 0 && t@[0] == '+',
            start == 0 ==> !(t@.len() > 0 && t@[0] == '+'),
            forall|j: int| 0 <= j < i - start ==> is_digit(body[j]),
            acc as int == digits_value(body.take(i - start)),
            acc <= usize::MAX as u128,
        decreases n - i,
    {
        let c = t.get_char(i);
        let u = c as u32;
        if u < 48 || u > 57 {
            assert(!is_digit(body[i - start]));
            assert(!all_digits(body));
            return None;
        }
        let d: u128 = (u - 48) as u128;
        assert(acc * 10 + d <= (usize::MAX as u128) * 10 + 9) by (nonlinear_arith)
            requires
                acc <= usize::MAX as u128,
                d <= 9,
        ;
        let acc2: u128 = acc * 10 + d;
        proof {
            let m = i - start + 1;
            assert(body.take(m).drop_last() =~= body.take(m - 1));
            assert(body.take(m).last() == body[i - start]);
            assert(digits_value(body.take(m)) == digits_value(body.take(m - 1)) * 10 + digit_val(
                body[i - start],
            ));
        }
        if acc2 > usize::MAX as u128 {
            proof {
                assert(t@.skip(0) =~= t@);
                assert(body[i - start] == t@[i as int]);
                assert(digit_val(body[i - start]) == d as int);
                assert(digits_value(body.take(i - start + 1)) == acc2 as int);
                if all_digits(body) {
                    lemma_digits_value_prefix_le(body, i - start + 1);
                    assert(digits_value(body) > usize::MAX as int);
                }
            }
            return None;
        }
        acc = acc2;
        i = i + 1;
    }
    assert(body.take(i - start) =~= body);
    assert(all_digits(body));
    Some(acc as usize)
}

/// First index at or after `from` whose character is header whitespace, or
/// the length of `s` when there is none.
fn find_space(s: &str, from: usize) -> (r: usize)
    requires
        from <= s@.len(),
    ensures
        from <= r <= s@.len(),
        forall|i: int| from <= i < r ==> !is_space(s@[i]),
        r < s@.len() ==> is_space(s@[r as int]),
{
    let n = s.unicode_len();
    let mut j = from;
    while j < n
        invariant
            from <= j <= n,
            n == s@.len(),
            forall|i: int| from <= i < j ==> !is_space(s@[i]),
        decreases n - j,
    {
        if is_space_char(s.get_char(j)) {
            return j;
        }
        j = j + 1;
    }
    j
}

/// First index at or after `from` holding a comma, or the length of `s`.
fn find_comma(s: &str, from: usize) -> (r: usize)
    requires
        from <= s@.len(),
    ensures
        from <= r <= s@.len(),
        forall|i: int| from <= i < r ==> s@[i] != ',',
        r < s@.len() ==> s@[r as int] == ',',
{
    let n = s.unicode_len();
    let mut j = from;
    while j < n
        invariant
            from <= j <= n,
            n == s@.len(),
            forall|i: int| from <= i < j ==> s@[i] != ',',
        decreases n - j,
    {
        if s.get_char(j) == ',' {
            return j;
        }
        j = j + 1;
    }
    j
}

/// Split a line into its whitespace-separated fields.
fn tokenize(s: &str) -> (toks: Vec<String>)
    ensures
        toks.deep_view() == spec_tokens(s@),
{
    let n = s.unicode_len();
    let mut toks: Vec<String> = Vec::new();
    let mut pos: usize = 0;
    proof {
        assert(toks.deep_view() =~= Seq::<Seq<char>>::empty());
        assert(s@.skip(0) =~= s@);
        assert(Seq::<Seq<char>>::empty() + spec_tokens(s@) =~= spec_tokens(s@));
    }
    while pos < n
        invariant
            pos <= n,
            n == s@.len(),
            toks.deep_view() + spec_tokens(s@.skip(pos as int)) == spec_tokens(s@),
        decreases n - pos,
    {
        let c = s.get_char(pos);
        if is_space_char(c) {
            proof {
                assert(s@.skip(pos as int).skip(1) =~= s@.skip(pos as int + 1));
            }
            pos = pos + 1;
        } else {
            let e = find_space(s, pos);
            proof {
                let rest = s@.skip(pos as int);
                assert forall|i: int| 0 <= i < e - pos implies !is_space(rest[i]) by {
                    assert(rest[i] == s@[pos + i]);
                }
                if e < n {
                    assert(rest[e - pos] == s@[e as int]);
                }
                lemma_token_len_at(rest, e - pos);
                assert(rest.take(e - pos) =~= s@.subrange(pos as int, e as int));
                assert(rest.skip(e - pos) =~= s@.skip(e as int));
            }
            let tok = s.substring_char(pos, e).to_owned();
            let ghost old_toks = toks.deep_view();
            toks.push(tok);
            proof {
                assert(toks.deep_view() =~= old_toks.push(tok@));
                assert(old_toks.push(tok@) =~= old_toks + seq![tok@]);
                assert(toks.deep_view() + spec_tokens(s@.skip(e as int)) =~= old_toks + (seq![
                    tok@,
                ] + spec_tokens(s@.skip(e as int))));
            }
            pos = e;
        }
    }
    proof {
        assert(s@.skip(pos as int) =~= Seq::<char>::empty());
        assert(toks.deep_view() + spec_tokens(s@.skip(pos as int)) =~= toks.deep_view());
    }
    toks
}

/// `t` with every leading occurrence of `c` removed, as
/// `str::trim_start_matches` with a single-character pattern does.
fn strip_leading_char<'a>(t: &'a str, c: char) -> (r: &'a str)
    ensures
        r@ == strip_leading(t@, c),
{
    let n = t.unicode_len();
    let mut m: usize = 0;
    while m < n
        invariant
            m <= n,
            n == t@.len(),
            forall|i: int| 0 <= i < m ==> t@[i] == c,
        decreases n - m,
    {
        if t.get_char(m) != c {
            proof {
                lemma_strip_leading_at(t@, c, m as int);
                assert(t@.subrange(m as int, n as int) =~= t@.skip(m as int));
            }
            return t.substring_char(m, n);
        }
        m = m + 1;
    }
    proof {
        lemma_strip_leading_at(t@, c, n as int);
        assert(t@.subrange(n as int, n as int) =~= t@.skip(n as int));
    }
    t.substring_char(n, n)
}

/// Parse one sentinel-stripped range field of a hunk header.
fn parse_range_token(t: &str) -> (r: Option<(usize, usize)>)
    ensures
        r == spec_parse_range(t@),
{
    let n = t.unicode_len();
    let k = find_comma(t, 0);
    proof {
        lemma_comma_free_len_at(t@, k as int);
        assert(t@.take(k as int) =~= t@.subrange(0, k as int));
    }
    let p0 = t.substring_char(0, k);
    match parse_usize_token(p0) {
        None => None,
        Some(start) => {
            if k == n {
                Some((start, 1))
            } else {
                let k2 = find_comma(t, k + 1);
                proof {
                    let rest = t@.skip(k as int + 1);
                    assert forall|i: int| 0 <= i < k2 - k - 1 implies rest[i] != ',' by {
                        assert(rest[i] == t@[k + 1 + i]);
                    }
                    if k2 < n {
                        assert(rest[k2 - k - 1] == t@[k2 as int]);
                    }
                    lemma_comma_free_len_at(rest, k2 - k - 1);
                    assert(rest.take(k2 - k - 1) =~= t@.subrange(k as int + 1, k2 as int));
                }
                let p1 = t.substring_char(k + 1, k2);
                match parse_usize_token(p1) {
                    Some(count) => Some((start, count)),
                    None => Some((start, 1)),
                }
            }
        },
    }
}

/// Parse a hunk-header line such as `@@ -1,3 +1,4 @@` into
/// `(old_start, old_count, new_start, new_count)`, or report no match.
pub fn parse_hunk_header(line: &str) -> (r: Option<(usize, usize, usize, usize)>)
    ensures
        r == spec_parse_hunk_header(line@),
{
    let toks = tokenize(line);
    if toks.len() < 3 {
        return None;
    }
    assert(toks.deep_view()[1] == toks@[1]@);
    assert(toks.deep_view()[2] == toks@[2]@);
    let t1 = strip_leading_char(toks[1].as_str(), '-');
    let t2 = strip_leading_char(toks[2].as_str(), '+');
    match (parse_range_token(t1), parse_range_token(t2)) {
        (Some((os, oc)), Some((ns, nc))) => Some((os, oc, ns, nc)),
        _ => None,
    }
}

// ---------------------------------------------------------------------------
// Splitting text into lines and joining lines back
// ---------------------------------------------------------------------------

/// Length of the longest prefix of `s` free of line feeds.
pub open spec fn newline_free_len(s: Seq<char>) -> int
    decreases s.len(),
{
    if s.len() == 0 || s[0] == '\n' {
        0
    } else {
        1 + newline_free_len(s.skip(1))
    }
}

proof fn lemma_newline_free_len_bounds(s: Seq<char>)
    ensures
        0 <= newline_free_len(s) <= s.len(),
    decreases s.len(),
{
    if s.len() == 0 || s[0] == '\n' {
    } else {
        lemma_newline_free_len_bounds(s.skip(1));
    }
}

proof fn lemma_newline_free_len_at(s: Seq<char>, m: int)
    requires
        0 <= m <= s.len(),
        forall|i: int| 0 <= i < m ==> s[i] != '\n',
        m == s.len() || s[m] == '\n',
    ensures
        newline_free_len(s) == m,
    decreases s.len(),
{
    if m == 0 {
    } else {
        assert forall|i: int| 0 <= i < m - 1 implies s.skip(1)[i] != '\n' by {
            assert(s.skip(1)[i] == s[i + 1]);
        }
        if m - 1 < s.skip(1).len() {
            assert(s.skip(1)[m - 1] == s[m]);
        }
        lemma_newline_free_len_at(s.skip(1), m - 1);
    }
}

/// The lines of `s`, as `str::lines` yields them: split at `\n`, with a
/// `\r` directly before the `\n` removed, and no empty final line after a
/// trailing line break.
pub open spec fn spec_split_lines(s: Seq<char>) -> Seq<Seq<char>>
    decreases s.len(),
    via spec_split_lines_dec
{
    if s.len() == 0 {
        Seq::empty()
    } else {
        let k = newline_free_len(s);
        if k == s.len() {
            seq![s]
        } else {
            let content = if k > 0 && s[k - 1] == '\r' {
                s.take(k - 1)
            } else {
                s.take(k)
            };
            seq![content] + spec_split_lines(s.skip(k + 1))
        }
    }
}

#[via_fn]
proof fn spec_split_lines_dec(s: Seq<char>) {
    if s.len() > 0 {
        lemma_newline_free_len_bounds(s);
    }
}

/// The lines joined with a single `\n` between them, as `[_]::join` does.
pub open spec fn spec_join_lines(ls: Seq<Seq<char>>) -> Seq<char>
    decreases ls.len(),
{
    if ls.len() == 0 {
        Seq::empty()
    } else if ls.len() == 1 {
        ls[0]
    } else {
        ls[0] + seq!['\n'] + spec_join_lines(ls.skip(1))
    }
}

/// Appending one more line to a non-empty join adds a separator and the line.
proof fn lemma_join_snoc(ls: Seq<Seq<char>>, x: Seq<char>)
    requires
        ls.len() >= 1,
    ensures
        spec_join_lines(ls.push(x)) == spec_join_lines(ls) + seq!['\n'] + x,
    decreases ls.len(),
{
    if ls.len() == 1 {
        assert(ls.push(x)[0] == ls[0]);
        assert(ls.push(x).skip(1) =~= seq![x]);
        assert(spec_join_lines(seq![x]) == x);
    } else {
        assert(ls.push(x)[0] == ls[0]);
        assert(ls.push(x).skip(1) =~= ls.skip(1).push(x));
        lemma_join_snoc(ls.skip(1), x);
    }
}

/// First index at or after `from` holding a line feed, or the length of `s`.
fn find_newline(s: &str, from: usize) -> (r: usize)
    requires
        from <= s@.len(),
    ensures
        from <= r <= s@.len(),
        forall|i: int| from <= i < r ==> s@[i] != '\n',
        r < s@.len() ==> s@[r as int] == '\n',
{
    let n = s.unicode_len();
    let mut j = from;
    while j < n
        invariant
            from <= j <= n,
            n == s@.len(),
            forall|i: int| from <= i < j ==> s@[i] != '\n',
        decreases n - j,
    {
        if s.get_char(j) == '\n' {
            return j;
        }
        j = j + 1;
    }
    j
}

/// Split a text into its lines, as the diff engine and the file checker
/// see them.
pub fn split_lines(s: &str) -> (r: Vec<String>)
    ensures
        r.deep_view() == spec_split_lines(s@),
{
    let n = s.unicode_len();
    let mut out: Vec<String> = Vec::new();
    let mut pos: usize = 0;
    proof {
        assert(out.deep_view() =~= Seq::<Seq<char>>::empty());
        assert(s@.skip(0) =~= s@);
        assert(Seq::<Seq<char>>::empty() + spec_split_lines(s@) =~= spec_split_lines(s@));
    }
    while pos < n
        invariant
            pos <= n,
            n == s@.len(),
            out.deep_view() + spec_split_lines(s@.skip(pos as int)) == spec_split_lines(s@),
        decreases n - pos,
    {
        let j = find_newline(s, pos);
        proof {
            let rest = s@.skip(pos as int);
            assert forall|i: int| 0 <= i < j - pos implies rest[i] != '\n' by {
                assert(rest[i] == s@[pos + i]);
            }
            if j < n {
                assert(rest[j - pos] == s@[j as int]);
            }
            lemma_newline_free_len_at(rest, j - pos);
        }
        if j == n {
            let content = s.substring_char(pos, n).to_owned();
            let ghost old_out = out.deep_view();
            proof {
                let rest = s@.skip(pos as int);
                assert(rest =~= s@.subrange(pos as int, n as int));
                assert(spec_split_lines(rest) == seq![rest]);
            }
            out.push(content);
            pos = n;
            proof {
                assert(out.deep_view() =~= old_out.push(content@));
                assert(s@.skip(pos as int) =~= Seq::<char>::empty());
                assert(old_out.push(content@) + spec_split_lines(Seq::<char>::empty()) =~= old_out
                    + seq![content@]);
            }
        } else {
            let e = if j > pos && s.get_char(j - 1) == '\r' {
                j - 1
            } else {
                j
            };
            let content = s.substring_char(pos, e).to_owned();
            let ghost old_out = out.deep_view();
            proof {
                let rest = s@.skip(pos as int);
                let k = j - pos;
                if k > 0 {
                    assert(rest[k - 1] == s@[pos + (k - 1)]);
                    assert(rest.take(k - 1) =~= s@.subrange(pos as int, j - 1));
                }
                assert(rest.take(k) =~= s@.subrange(pos as int, j as int));
                assert(content@ == (if k > 0 && rest[k - 1] == '\r' {
                    rest.take(k - 1)
                } else {
                    rest.take(k)
                }));
                assert(rest.skip(k + 1) =~= s@.skip(j + 1));
                assert(spec_split_lines(rest) == seq![content@] + spec_split_lines(
                    s@.skip(j + 1),
                ));
            }
            out.push(content);
            pos = j + 1;
            proof {
                assert(out.deep_view() =~= old_out.push(content@));
                assert(old_out.push(content@) + spec_split_lines(s@.skip(pos as int)) =~= old_out
                    + (seq![content@] + spec_split_lines(s@.skip(pos as int))));
            }
        }
    }
    proof {
        assert(s@.skip(pos as int) =~= Seq::<char>::empty());
        assert(out.deep_view() + spec_split_lines(Seq::<char>::empty()) =~= out.deep_view());
    }
    out
}

/// Join lines with a single `\n` between them.
pub fn join_lines(lines: &Vec<String>) -> (r: String)
    ensures
        r@ == spec_join_lines(lines.deep_view()),
{
    let n = lines.len();
    let mut out = String::new();
    if n == 0 {
        return out;
    }
    out.append(lines[0].as_str());
    proof {
        assert(Seq::<char>::empty() + lines.deep_view()[0] =~= lines.deep_view()[0]);
        assert(lines.deep_view().take(1) =~= seq![lines.deep_view()[0]]);
        assert(spec_join_lines(seq![lines.deep_view()[0]]) == lines.deep_view()[0]);
    }
    let mut i: usize = 1;
    while i < n
        invariant
            1 <= i <= n,
            n == lines@.len(),
            out@ == spec_join_lines(lines.deep_view().take(i as int)),
        decreases n - i,
    {
        out.append("\n");
        out.append(lines[i].as_str());
        proof {
            reveal_strlit("\n");
            let dv = lines.deep_view();
            assert(dv.take(i as int).len() >= 1);
            lemma_join_snoc(dv.take(i as int), dv[i as int]);
            assert(dv.take(i as int).push(dv[i as int]) =~= dv.take(i as int + 1));
            assert("\n"@ =~= seq!['\n']);
        }
        i = i + 1;
    }
    proof {
        assert(lines.deep_view().take(n as int) =~= lines.deep_view());
    }
    out
}

// ---------------------------------------------------------------------------
// Line classification
// ---------------------------------------------------------------------------

/// A hunk marker line, `@@ ...`.
pub open spec fn is_hunk_marker(line: Seq<char>) -> bool {
    line.len() >= 2 && line[0] == '@' && line[1] == '@'
}

/// An old-file identity header, `--- ...`.
pub open spec fn is_dash_header(line: Seq<char>) -> bool {
    line.len() >= 3 && line[0] == '-' && line[1] == '-' && line[2] == '-'
}

/// A new-file identity header, `+++ ...`.
pub open spec fn is_plus_header(line: Seq<char>) -> bool {
    line.len() >= 3 && line[0] == '+' && line[1] == '+' && line[2] == '+'
}

/// A deletion line: leading `-` that is not a `---` header.
pub open spec fn is_deletion(line: Seq<char>) -> bool {
    line.len() >= 1 && line[0] == '-' && !is_dash_header(line)
}

/// An addition line: leading `+` that is not a `+++` header.
pub open spec fn is_addition(line: Seq<char>) -> bool {
    line.len() >= 1 && line[0] == '+' && !is_plus_header(line)
}

/// A context line: leading space.
pub open spec fn is_context(line: Seq<char>) -> bool {
    line.len() >= 1 && line[0] == ' '
}

// ---------------------------------------------------------------------------
// The replay model
// ---------------------------------------------------------------------------

/// The state of one replay pass: the evolving line sequence, the write-head
/// cursor, and the counters.  The cursor is an unbounded integer: a header
/// such as `@@ -0,0 ... @@`, or one following hunks that removed lines, can
/// seed it below zero, and every mutating operation checks it against the
/// line sequence first.  `skips` counts the deletions and additions that
/// were dropped because the cursor was out of range.
pub struct ReplayState {
    pub lines: Seq<Seq<char>>,
    pub cursor: int,
    pub added: nat,
    pub removed: nat,
    pub skips: nat,
}

/// The replay starts at the head of the original lines with clear counters.
pub open spec fn init_state(orig: Seq<Seq<char>>) -> ReplayState {
    ReplayState { lines: orig, cursor: 0, added: 0, removed: 0, skips: 0 }
}

/// The effect of one diff line on the replay state.
///
/// A hunk marker that parses seeds the cursor to `old_start - 1` plus the
/// net number of lines the earlier hunks inserted: `old_start` is a 1-based
/// position in the *original* file, and additions and deletions before this
/// point have shifted that position by `added - removed`.  A marker that
/// does not parse is inert.  A deletion in range removes the line under the
/// cursor and leaves the cursor in place, since the next line slides into
/// its index.  An addition in range inserts the line's content (everything
/// after the `+`) at the cursor and advances it.  A context line only
/// advances the cursor.  File-identity headers and unclassifiable lines are
/// ignored.  A deletion or addition whose cursor is out of range is skipped.
pub open spec fn replay_step(st: ReplayState, line: Seq<char>) -> ReplayState {
    if is_hunk_marker(line) {
        match spec_parse_hunk_header(line) {
            Some(h) => ReplayState {
                lines: st.lines,
                cursor: h.0 as int - 1 + st.added - st.removed,
                added: st.added,
                removed: st.removed,
                skips: st.skips,
            },
            None => st,
        }
    } else if is_deletion(line) {
        if 0 <= st.cursor && st.cursor < st.lines.len() {
            ReplayState {
                lines: st.lines.remove(st.cursor),
                cursor: st.cursor,
                added: st.added,
                removed: st.removed + 1,
                skips: st.skips,
            }
        } else {
            ReplayState {
                lines: st.lines,
                cursor: st.cursor,
                added: st.added,
                removed: st.removed,
                skips: st.skips + 1,
            }
        }
    } else if is_addition(line) {
        if 0 <= st.cursor && st.cursor <= st.lines.len() {
            ReplayState {
                lines: st.lines.insert(st.cursor, line.skip(1)),
                cursor: st.cursor + 1,
                added: st.added + 1,
                removed: st.removed,
                skips: st.skips,
            }
        } else {
            ReplayState {
                lines: st.lines,
                cursor: st.cursor,
                added: st.added,
                removed: st.removed,
                skips: st.skips + 1,
            }
        }
    } else if is_context(line) {
        ReplayState {
            lines: st.lines,
            cursor: st.cursor + 1,
            added: st.added,
            removed: st.removed,
            skips: st.skips,
        }
    } else {
        st
    }
}

/// Replay the diff lines, in order, from a given state.
pub open spec fn replay_from(st: ReplayState, diff: Seq<Seq<char>>) -> ReplayState
    decreases diff.len(),
{
    if diff.len() == 0 {
        st
    } else {
        replay_from(replay_step(st, diff[0]), diff.skip(1))
    }
}

/// The whole single-pass replay of a diff payload over the original lines.
pub open spec fn replay(orig: Seq<Seq<char>>, diff: Seq<Seq<char>>) -> ReplayState {
    replay_from(init_state(orig), diff)
}

/// Replaying one more line steps the state once.
proof fn lemma_replay_from_snoc(st: ReplayState, diff: Seq<Seq<char>>, line: Seq<char>)
    ensures
        replay_from(st, diff.push(line)) == replay_step(replay_from(st, diff), line),
    decreases diff.len(),
{
    if diff.len() == 0 {
        assert(diff.push(line)[0] == line);
        assert(diff.push(line).skip(1) =~= Seq::<Seq<char>>::empty());
        assert(replay_from(st, diff.push(line)) == replay_from(
            replay_step(st, line),
            Seq::<Seq<char>>::empty(),
        ));
        assert(replay_from(st, diff) == st);
    } else {
        assert(diff.push(line)[0] == diff[0]);
        assert(diff.push(line).skip(1) =~= diff.skip(1).push(line));
        lemma_replay_from_snoc(replay_step(st, diff[0]), diff.skip(1), line);
        assert(replay_from(st, diff.push(line)) == replay_from(
            replay_step(st, diff[0]),
            diff.skip(1).push(line),
        ));
        assert(replay_from(st, diff) == replay_from(replay_step(st, diff[0]), diff.skip(1)));
    }
}

// ---------------------------------------------------------------------------
// Laws of the replay
// ---------------------------------------------------------------------------

/// How many addition lines a diff payload holds.
pub open spec fn plus_count(diff: Seq<Seq<char>>) -> nat
    decreases diff.len(),
{
    if diff.len() == 0 {
        0
    } else {
        (if is_addition(diff[0]) {
            1nat
        } else {
            0nat
        }) + plus_count(diff.skip(1))
    }
}

/// How many deletion lines a diff payload holds.
pub open spec fn minus_count(diff: Seq<Seq<char>>) -> nat
    decreases diff.len(),
{
    if diff.len() == 0 {
        0
    } else {
        (if is_deletion(diff[0]) {
            1nat
        } else {
            0nat
        }) + minus_count(diff.skip(1))
    }
}

/// Replaying never forgets a skip.
proof fn lemma_skips_monotone(st: ReplayState, diff: Seq<Seq<char>>)
    ensures
        replay_from(st, diff).skips >= st.skips,
    decreases diff.len(),
{
    if diff.len() > 0 {
        lemma_skips_monotone(replay_step(st, diff[0]), diff.skip(1));
    }
}

proof fn lemma_counts_exact_from(st: ReplayState, diff: Seq<Seq<char>>)
    requires
        replay_from(st, diff).skips == st.skips,
    ensures
        replay_from(st, diff).added == st.added + plus_count(diff),
        replay_from(st, diff).removed == st.removed + minus_count(diff),
    decreases diff.len(),
{
    if diff.len() > 0 {
        let st1 = replay_step(st, diff[0]);
        lemma_skips_monotone(st1, diff.skip(1));
        assert(st1.skips == st.skips);
        lemma_counts_exact_from(st1, diff.skip(1));
    }
}

/// When the replay skips no operation, the counters are exactly the
/// literal counts of addition and deletion lines in the payload.  In
/// particular this holds of a well-formed single-hunk diff whose header
/// counts match its operation lines, since every such operation stays in
/// range.
pub proof fn lemma_counts_match_payload(orig: Seq<Seq<char>>, diff: Seq<Seq<char>>)
    requires
        replay(orig, diff).skips == 0,
    ensures
        replay(orig, diff).added == plus_count(diff),
        replay(orig, diff).removed == minus_count(diff),
{
    lemma_counts_exact_from(init_state(orig), diff);
}

/// How many lines of a payload consume a line of the old file: context
/// lines and deletions.
pub open spec fn ctx_del_count(diff: Seq<Seq<char>>) -> nat
    decreases diff.len(),
{
    if diff.len() == 0 {
        0
    } else {
        (if is_context(diff[0]) || is_deletion(diff[0]) {
            1nat
        } else {
            0nat
        }) + ctx_del_count(diff.skip(1))
    }
}

/// Operation lines that fit inside the current line sequence are never
/// skipped.
proof fn lemma_body_in_range_no_skip(st: ReplayState, body: Seq<Seq<char>>)
    requires
        forall|i: int|
            0 <= i < body.len() ==> is_context(body[i]) || is_addition(body[i]) || is_deletion(
                body[i],
            ),
        0 <= st.cursor,
        st.cursor + ctx_del_count(body) <= st.lines.len(),
    ensures
        replay_from(st, body).skips == st.skips,
    decreases body.len(),
{
    if body.len() > 0 {
        let line = body[0];
        let st1 = replay_step(st, line);
        assert(!is_hunk_marker(line));
        assert forall|i: int|
            0 <= i < body.skip(1).len() implies is_context(#[trigger] body.skip(1)[i])
            || is_addition(body.skip(1)[i]) || is_deletion(body.skip(1)[i]) by {
            assert(body.skip(1)[i] == body[i + 1]);
        }
        lemma_body_in_range_no_skip(st1, body.skip(1));
    }
}

/// The literal form of counter exactness: one well-formed hunk whose old
/// range lies inside the file — a parsed header with a 1-based start, a
/// body of nothing but context, addition and deletion lines, and enough
/// lines under it for every context line and deletion — skips nothing, so
/// the counters equal the literal counts of `+` and `-` lines in its body.
pub proof fn lemma_single_hunk_counts(
    orig: Seq<Seq<char>>,
    header: Seq<char>,
    body: Seq<Seq<char>>,
)
    requires
        is_hunk_marker(header),
        spec_parse_hunk_header(header) is Some,
        forall|i: int|
            0 <= i < body.len() ==> is_context(body[i]) || is_addition(body[i]) || is_deletion(
                body[i],
            ),
        ({
            let h = spec_parse_hunk_header(header)->0;
            h.0 >= 1 && h.0 - 1 + ctx_del_count(body) <= orig.len()
        }),
    ensures
        replay(orig, seq![header] + body).added == plus_count(body),
        replay(orig, seq![header] + body).removed == minus_count(body),
{
    let diff = seq![header] + body;
    assert(diff[0] == header);
    assert(diff.skip(1) =~= body);
    let st1 = replay_step(init_state(orig), header);
    assert(replay(orig, diff) == replay_from(st1, body));
    lemma_body_in_range_no_skip(st1, body);
    lemma_counts_exact_from(st1, body);
}

proof fn lemma_no_edit_from(st: ReplayState, diff: Seq<Seq<char>>)
    requires
        forall|i: int| 0 <= i < diff.len() ==> !is_addition(diff[i]) && !is_deletion(diff[i]),
    ensures
        replay_from(st, diff).lines == st.lines,
        replay_from(st, diff).added == st.added,
        replay_from(st, diff).removed == st.removed,
    decreases diff.len(),
{
    if diff.len() > 0 {
        let st1 = replay_step(st, diff[0]);
        assert(st1.lines == st.lines);
        assert forall|i: int|
            0 <= i < diff.skip(1).len() implies !is_addition(diff.skip(1)[i]) && !is_deletion(
            diff.skip(1)[i],
        ) by {
            assert(diff.skip(1)[i] == diff[i + 1]);
        }
        lemma_no_edit_from(st1, diff.skip(1));
    }
}

/// A payload without addition or deletion lines — context lines, hunk
/// markers, file-identity headers, inert text — leaves the line sequence
/// untouched and both counters at zero.
pub proof fn lemma_no_edit_lines_no_change(orig: Seq<Seq<char>>, diff: Seq<Seq<char>>)
    requires
        forall|i: int| 0 <= i < diff.len() ==> !is_addition(diff[i]) && !is_deletion(diff[i]),
    ensures
        replay(orig, diff).lines == orig,
        replay(orig, diff).added == 0,
        replay(orig, diff).removed == 0,
{
    lemma_no_edit_from(init_state(orig), diff);
}

/// A payload of nothing but `---`/`+++` file-identity headers — a diff
/// with zero hunks — changes nothing and counts nothing.
pub proof fn lemma_headers_only_no_change(orig: Seq<Seq<char>>, diff: Seq<Seq<char>>)
    requires
        forall|i: int| 0 <= i < diff.len() ==> is_dash_header(diff[i]) || is_plus_header(diff[i]),
    ensures
        replay(orig, diff).lines == orig,
        replay(orig, diff).added == 0,
        replay(orig, diff).removed == 0,
{
    assert forall|i: int| 0 <= i < diff.len() implies !is_addition(diff[i]) && !is_deletion(
        diff[i],
    ) by {
        assert(is_dash_header(diff[i]) || is_plus_header(diff[i]));
    }
    lemma_no_edit_lines_no_change(orig, diff);
}

// ---------------------------------------------------------------------------
// Result types
// ---------------------------------------------------------------------------

/// One hunk of a unified diff as callers hand it over the wire: the four
/// header numbers and the raw operation lines that follow the marker.  The
/// engine itself parses headers straight out of the textual payload; this
/// type is the structured form of the same data.
pub struct DiffHunk {
    pub old_start: usize,
    pub old_count: usize,
    pub new_start: usize,
    pub new_count: usize,
    pub lines: Vec<String>,
}

/// The outcome of one patch application.
pub struct ApplyDiffResult {
    pub success: bool,
    pub message: String,
    pub lines_changed: usize,
    pub lines_added: usize,
    pub lines_removed: usize,
}

// ---------------------------------------------------------------------------
// The engine
// ---------------------------------------------------------------------------

/// The replay state after the first `i` diff lines.
pub open spec fn replay_prefix(orig: Seq<Seq<char>>, diff: Seq<Seq<char>>, i: int) -> ReplayState {
    replay_from(init_state(orig), diff.take(i))
}

/// Replay a diff payload, given as lines, over the original lines.
/// Returns the patched lines and how many lines were added and removed.
pub fn apply_to_lines(orig_lines: Vec<String>, diff_lines: &Vec<String>) -> (r: (
    Vec<String>,
    usize,
    usize,
))
    ensures
        ({
            let st = replay(orig_lines.deep_view(), diff_lines.deep_view());
            &&& r.0.deep_view() == st.lines
            &&& r.1 == st.added
            &&& r.2 == st.removed
            &&& r.1 + r.2 <= diff_lines@.len()
            &&& r.1 + r.2 <= usize::MAX as int
        }),
{
    let ghost orig = orig_lines.deep_view();
    let ghost dl = diff_lines.deep_view();
    let mut lines = orig_lines;
    let dn = diff_lines.len();
    // The cursor can sit below zero (a header starting at 0) and far past
    // the end; i128 holds its whole range, since a header start and one
    // step per diff line stay well under its bounds.
    let mut cursor: i128 = 0;
    let mut added: usize = 0;
    let mut removed: usize = 0;
    let mut i: usize = 0;
    proof {
        assert(dl.take(0) =~= Seq::<Seq<char>>::empty());
    }
    while i < dn
        invariant
            i <= dn,
            dn == dl.len(),
            dl == diff_lines.deep_view(),
            dn == diff_lines@.len(),
            lines.deep_view() == replay_prefix(orig, dl, i as int).lines,
            cursor as int == replay_prefix(orig, dl, i as int).cursor,
            added as int == replay_prefix(orig, dl, i as int).added,
            removed as int == replay_prefix(orig, dl, i as int).removed,
            added + removed <= i,
            -(i as int) - 1 <= cursor as int <= usize::MAX as int + i as int,
        decreases dn - i,
    {
        let ghost st = replay_prefix(orig, dl, i as int);
        proof {
            lemma_replay_from_snoc(init_state(orig), dl.take(i as int), dl[i as int]);
            assert(dl.take(i as int).push(dl[i as int]) =~= dl.take(i as int + 1));
            assert(replay_prefix(orig, dl, i as int + 1) == replay_step(st, dl[i as int]));
        }
        let line: &String = &diff_lines[i];
        let l: &str = line.as_str();
        proof {
            assert(dl[i as int] == line@);
        }
        let n = l.unicode_len();
        if n >= 2 && l.get_char(0) == '@' && l.get_char(1) == '@' {
            assert(is_hunk_marker(l@));
            match parse_hunk_header(l) {
                Some((os, _oc, _ns, _nc)) => {
                    cursor = os as i128 - 1 + added as i128 - removed as i128;
                },
                None => {},
            }
        } else if n >= 1 && l.get_char(0) == '-' && !(n >= 3 && l.get_char(1) == '-' && l.get_char(
            2,
        ) == '-') {
            assert(is_deletion(l@));
            if cursor >= 0 && cursor < lines.len() as i128 {
                let ghost before = lines.deep_view();
                let idx = cursor as usize;
                lines.remove(idx);
                removed = removed + 1;
                proof {
                    assert(lines.deep_view() =~= before.remove(idx as int));
                }
            }
        } else if n >= 1 && l.get_char(0) == '+' && !(n >= 3 && l.get_char(1) == '+' && l.get_char(
            2,
        ) == '+') {
            assert(is_addition(l@));
            if cursor >= 0 && cursor <= lines.len() as i128 {
                let ghost before = lines.deep_view();
                let idx = cursor as usize;
                let content = l.substring_char(1, n).to_owned();
                proof {
                    assert(content@ =~= l@.skip(1));
                }
                lines.insert(idx, content);
                added = added + 1;
                cursor = cursor + 1;
                proof {
                    assert(lines.deep_view() =~= before.insert(idx as int, content@));
                }
            }
        } else if n >= 1 && l.get_char(0) == ' ' {
            assert(is_context(l@));
            cursor = cursor + 1;
        } else {
            proof {
                assert(!is_hunk_marker(l@));
                assert(!is_deletion(l@));
                assert(!is_addition(l@));
                assert(!is_context(l@));
            }
        }
        i = i + 1;
    }
    proof {
        assert(dl.take(dn as int) =~= dl);
    }
    (lines, added, removed)
}

/// The message reported after a successful application.
pub open spec fn spec_success_message(path: Seq<char>) -> Seq<char> {
    "Successfully applied diff to "@ + path
}

/// Apply a unified diff to a file's text.
///
/// `original_text` is the file's current content and `diff_content` the
/// diff payload; `path` only names the file in the report's message.  The
/// patched text is returned together with the change counters; reading the
/// file beforehand and writing the result back are the caller's side of
/// the contract.
pub fn apply_diff(path: &str, original_text: &str, diff_content: &str) -> (r: (
    String,
    ApplyDiffResult,
))
    ensures
        ({
            let st = replay(spec_split_lines(original_text@), spec_split_lines(diff_content@));
            &&& r.0@ == spec_join_lines(st.lines)
            &&& r.1.success == true
            &&& r.1.lines_added == st.added
            &&& r.1.lines_removed == st.removed
            &&& r.1.lines_changed == st.added + st.removed
            &&& r.1.message@ == spec_success_message(path@)
        }),
{
    let orig_lines = split_lines(original_text);
    let diff_lines = split_lines(diff_content);
    let (patched, added, removed) = apply_to_lines(orig_lines, &diff_lines);
    let new_text = join_lines(&patched);
    let mut message = "Successfully applied diff to ".to_owned();
    message.append(path);
    let result = ApplyDiffResult {
        success: true,
        message,
        lines_changed: added + removed,
        lines_added: added,
        lines_removed: removed,
    };
    (new_text, result)
}

} // verus!
