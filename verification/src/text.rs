//! Verified text primitives: substring search, matching, slicing and
//! concatenation, specified over `Seq<char>`.
use vstd::prelude::*;

verus! {

/// `pat` occurs in `s` at position `i`.
pub open spec fn match_at(s: Seq<char>, pat: Seq<char>, i: int) -> bool {
    0 <= i && i + pat.len() <= s.len() && s.subrange(i, i + pat.len()) == pat
}

/// Position of the first occurrence of a non-empty `pat` in `s` at or after
/// `from`; `None` for an empty pattern.
pub open spec fn spec_find(s: Seq<char>, pat: Seq<char>, from: int) -> Option<int>
    decreases s.len() - from,
{
    if pat.len() == 0 || from < 0 || from + pat.len() > s.len() {
        None
    } else if match_at(s, pat, from) {
        Some(from)
    } else {
        spec_find(s, pat, from + 1)
    }
}

/// What `spec_find` returns is the leftmost match at or after `from`.
pub proof fn lemma_find_props(s: Seq<char>, pat: Seq<char>, from: int)
    requires
        0 <= from,
        pat.len() > 0,
    ensures
        spec_find(s, pat, from) matches Some(i) ==> from <= i && match_at(s, pat, i)
            && forall|j: int| from <= j < i ==> !match_at(s, pat, j),
        spec_find(s, pat, from) is None ==> forall|j: int| from <= j ==> !match_at(s, pat, j),
    decreases s.len() - from,
{
    if from + pat.len() > s.len() {
        assert forall|j: int| from <= j implies !match_at(s, pat, j) by {}
    } else if match_at(s, pat, from) {
    } else {
        lemma_find_props(s, pat, from + 1);
    }
}

/// A found position lies between `from` and the end, with room for `pat`.
pub proof fn lemma_find_some_bounds(s: Seq<char>, pat: Seq<char>, from: int)
    ensures
        spec_find(s, pat, from) matches Some(i) ==> 0 <= from <= i && pat.len() >= 1 && i
            + pat.len() <= s.len(),
    decreases s.len() - from,
{
    if pat.len() == 0 || from < 0 || from + pat.len() > s.len() {
    } else if match_at(s, pat, from) {
    } else {
        lemma_find_some_bounds(s, pat, from + 1);
    }
}

proof fn lemma_find_past_end(s: Seq<char>, pat: Seq<char>, from: int)
    requires
        pat.len() == 0 || from + pat.len() > s.len(),
    ensures
        spec_find(s, pat, from) is None,
{
}

/// Exec counterpart of `match_at`.
pub fn is_match_at(s: &Vec<char>, pat: &Vec<char>, i: usize) -> (r: bool)
    requires
        i + pat@.len() <= s@.len(),
    ensures
        r == match_at(s@, pat@, i as int),
{
    let n = s.len();
    let m = pat.len();
    let mut k: usize = 0;
    while k < m
        invariant
            n == s@.len(),
            m == pat@.len(),
            i + m <= n,
            k <= m,
            forall|t: int| 0 <= t < k ==> s@[i + t] == pat@[t],
        decreases m - k,
    {
        if s[i + k] != pat[k] {
            assert(s@.subrange(i as int, i + pat@.len()) != pat@) by {
                assert(s@.subrange(i as int, i + pat@.len())[k as int] == s@[i + k]);
            }
            return false;
        }
        k = k + 1;
    }
    assert(s@.subrange(i as int, i + pat@.len()) =~= pat@);
    true
}

/// First occurrence of `pat` in `s` at or after `from`.
pub fn find_sub(s: &Vec<char>, pat: &Vec<char>, from: usize) -> (r: Option<usize>)
    ensures
        match r {
            Some(i) => from <= i && spec_find(s@, pat@, from as int) == Some(i as int),
            None => spec_find(s@, pat@, from as int) is None,
        },
{
    let n = s.len();
    let m = pat.len();
    if m == 0 || m > n || from > n - m {
        proof {
            lemma_find_past_end(s@, pat@, from as int);
        }
        return None;
    }
    let mut i: usize = from;
    while i <= n - m
        invariant
            from <= i,
            1 <= m <= n,
            n == s@.len(),
            m == pat@.len(),
            spec_find(s@, pat@, from as int) == spec_find(s@, pat@, i as int),
        decreases n - i,
    {
        if is_match_at(s, pat, i) {
            return Some(i);
        }
        assert(spec_find(s@, pat@, i as int) == spec_find(s@, pat@, i + 1));
        i = i + 1;
    }
    proof {
        lemma_find_past_end(s@, pat@, i as int);
    }
    None
}

/// `s` starts with `pat`.
pub open spec fn spec_starts_with(s: Seq<char>, pat: Seq<char>) -> bool {
    match_at(s, pat, 0)
}

/// `pat` matches `s` at `i`, where `i` may be anywhere.
pub fn starts_with_at(s: &Vec<char>, pat: &Vec<char>, i: usize) -> (r: bool)
    ensures
        r == match_at(s@, pat@, i as int),
{
    let n = s.len();
    let m = pat.len();
    if i > n || m > n - i {
        return false;
    }
    is_match_at(s, pat, i)
}

/// Copy of `s[lo..hi]`.
pub fn subrange_vec(s: &Vec<char>, lo: usize, hi: usize) -> (r: Vec<char>)
    requires
        lo <= hi <= s@.len(),
    ensures
        r@ == s@.subrange(lo as int, hi as int),
{
    let n = s.len();
    let mut out: Vec<char> = Vec::new();
    let mut i: usize = lo;
    while i < hi
        invariant
            lo <= i <= hi <= n,
            n == s@.len(),
            out@ == s@.subrange(lo as int, i as int),
        decreases hi - i,
    {
        out.push(s[i]);
        assert(out@ =~= s@.subrange(lo as int, i + 1));
        i = i + 1;
    }
    out
}

/// One trailing carriage return is dropped from a line split at '\n'.
pub open spec fn strip_cr(l: Seq<char>) -> Seq<char> {
    if l.len() > 0 && l.last() == '\r' {
        l.drop_last()
    } else {
        l
    }
}

/// The lines of `s[pos..]`: split at '\n', one trailing '\r' dropped from
/// each split line, no final empty line for text ending in '\n'.
pub open spec fn spec_lines_from(s: Seq<char>, pos: int) -> Seq<Seq<char>>
    decreases s.len() - pos,
    via spec_lines_from_decreases
{
    if pos < 0 || pos >= s.len() {
        Seq::empty()
    } else {
        match spec_find(s, seq!['\n'], pos) {
            Some(i) => seq![strip_cr(s.subrange(pos, i))] + spec_lines_from(s, i + 1),
            None => seq![s.subrange(pos, s.len() as int)],
        }
    }
}

#[via_fn]
proof fn spec_lines_from_decreases(s: Seq<char>, pos: int) {
    lemma_find_some_bounds(s, seq!['\n'], pos);
}

/// The lines of `s`.
pub open spec fn spec_lines(s: Seq<char>) -> Seq<Seq<char>> {
    spec_lines_from(s, 0)
}

/// Split `s` into its lines.
pub fn split_lines(s: &Vec<char>) -> (r: Vec<Vec<char>>)
    ensures
        r.deep_view() == spec_lines(s@),
{
    let n = s.len();
    let nl: Vec<char> = vec!['\n'];
    let mut out: Vec<Vec<char>> = Vec::new();
    let mut pos: usize = 0;
    while pos < n
        invariant
            pos <= n,
            n == s@.len(),
            nl@ =~= seq!['\n'],
            spec_lines(s@) == out.deep_view() + spec_lines_from(s@, pos as int),
        decreases n - pos,
    {
        match find_sub(s, &nl, pos) {
            Some(i) => {
                assert(match_at(s@, nl@, i as int)) by {
                    lemma_find_props(s@, nl@, pos as int);
                }
                assert(s@[i as int] == '\n') by {
                    assert(s@.subrange(i as int, i + 1)[0] == s@[i as int]);
                }
                let mut line = subrange_vec(s, pos, i);
                if line.len() > 0 && line[line.len() - 1] == '\r' {
                    line.pop();
                    assert(line@ =~= strip_cr(s@.subrange(pos as int, i as int)));
                }
                let ghost prev = out.deep_view();
                out.push(line);
                assert(out.deep_view() =~~= prev + seq![strip_cr(
                    s@.subrange(pos as int, i as int),
                )]);
                pos = i + 1;
            },
            None => {
                let line = subrange_vec(s, pos, n);
                let ghost prev = out.deep_view();
                out.push(line);
                assert(out.deep_view() =~~= prev + seq![s@.subrange(pos as int, n as int)]);
                pos = n;
            },
        }
        assert(spec_lines(s@) == out.deep_view() + spec_lines_from(s@, pos as int));
    }
    assert(spec_lines(s@) =~~= out.deep_view());
    out
}

/// The lines joined with `sep` between them.
pub open spec fn spec_join(ls: Seq<Seq<char>>, sep: Seq<char>) -> Seq<char>
    decreases ls.len(),
{
    if ls.len() == 0 {
        Seq::empty()
    } else if ls.len() == 1 {
        ls[0]
    } else {
        spec_join(ls.drop_last(), sep) + sep + ls.last()
    }
}

/// Join `ls` with `sep` between elements.
pub fn join_all(ls: &Vec<Vec<char>>, sep: &Vec<char>) -> (r: Vec<char>)
    ensures
        r@ == spec_join(ls.deep_view(), sep@),
{
    let n = ls.len();
    let mut out: Vec<char> = Vec::new();
    let mut i: usize = 0;
    while i < n
        invariant
            i <= n,
            n == ls@.len(),
            ls.deep_view().len() == n,
            out@ == spec_join(ls.deep_view().subrange(0, i as int), sep@),
        decreases n - i,
    {
        if i > 0 {
            push_all(&mut out, sep);
        }
        push_all(&mut out, &ls[i]);
        assert(ls.deep_view()[i as int] =~= ls@[i as int]@);
        assert(out@ =~= spec_join(ls.deep_view().subrange(0, i + 1), sep@)) by {
            let pre = ls.deep_view().subrange(0, i + 1);
            assert(pre.drop_last() =~= ls.deep_view().subrange(0, i as int));
            assert(pre.last() == ls.deep_view()[i as int]);
        }
        i = i + 1;
    }
    assert(ls.deep_view().subrange(0, n as int) =~= ls.deep_view());
    out
}

/// `s[pos..]` with every occurrence of `pat` at or after `pos` replaced by
/// `rep`, leftmost first, non-overlapping.
pub open spec fn spec_replace_from(s: Seq<char>, pat: Seq<char>, rep: Seq<char>, pos: int) -> Seq<
    char,
>
    decreases s.len() - pos,
    via spec_replace_from_decreases
{
    if pos < 0 || pos > s.len() {
        Seq::empty()
    } else {
        match spec_find(s, pat, pos) {
            None => s.subrange(pos, s.len() as int),
            Some(i) => s.subrange(pos, i) + rep + spec_replace_from(s, pat, rep, i + pat.len()),
        }
    }
}

#[via_fn]
proof fn spec_replace_from_decreases(s: Seq<char>, pat: Seq<char>, rep: Seq<char>, pos: int) {
    lemma_find_some_bounds(s, pat, pos);
}

/// `s` with every occurrence of `pat` replaced by `rep`.
pub open spec fn spec_replace(s: Seq<char>, pat: Seq<char>, rep: Seq<char>) -> Seq<char> {
    spec_replace_from(s, pat, rep, 0)
}

/// Replace every occurrence of `pat` in `s` by `rep`.
pub fn replace_all(s: &Vec<char>, pat: &Vec<char>, rep: &Vec<char>) -> (r: Vec<char>)
    ensures
        r@ == spec_replace(s@, pat@, rep@),
{
    let n = s.len();
    let mut out: Vec<char> = Vec::new();
    let mut pos: usize = 0;
    while pos < n
        invariant
            pos <= n,
            n == s@.len(),
            spec_replace(s@, pat@, rep@) == out@ + spec_replace_from(s@, pat@, rep@, pos as int),
        decreases n - pos,
    {
        match find_sub(s, pat, pos) {
            Some(i) => {
                assert(match_at(s@, pat@, i as int) && pat@.len() > 0) by {
                    lemma_find_props(s@, pat@, pos as int);
                }
                let seg = subrange_vec(s, pos, i);
                push_all(&mut out, &seg);
                push_all(&mut out, rep);
                pos = i + pat.len();
            },
            None => {
                let seg = subrange_vec(s, pos, n);
                push_all(&mut out, &seg);
                pos = n;
            },
        }
        assert(spec_replace(s@, pat@, rep@) == out@ + spec_replace_from(
            s@,
            pat@,
            rep@,
            pos as int,
        ));
    }
    assert(spec_replace_from(s@, pat@, rep@, pos as int) =~= Seq::<char>::empty()) by {
        lemma_find_past_end(s@, pat@, pos as int);
    }
    assert(out@ =~= out@ + Seq::<char>::empty());
    out
}

/// ASCII whitespace, the only kind these text formats carry.
pub open spec fn is_space(c: char) -> bool {
    c == ' ' || c == '\t' || c == '\r' || c == '\n'
}

/// `s` without leading whitespace.
pub open spec fn spec_trim_start(s: Seq<char>) -> Seq<char>
    decreases s.len(),
{
    if s.len() > 0 && is_space(s[0]) {
        spec_trim_start(s.drop_first())
    } else {
        s
    }
}

/// `s` without trailing whitespace.
pub open spec fn spec_trim_end(s: Seq<char>) -> Seq<char>
    decreases s.len(),
{
    if s.len() > 0 && is_space(s.last()) {
        spec_trim_end(s.drop_last())
    } else {
        s
    }
}

/// `s` without leading or trailing whitespace.
pub open spec fn spec_trim(s: Seq<char>) -> Seq<char> {
    spec_trim_end(spec_trim_start(s))
}

/// Exec counterpart of `is_space`.
pub fn char_is_space(c: char) -> (r: bool)
    ensures
        r == is_space(c),
{
    c == ' ' || c == '\t' || c == '\r' || c == '\n'
}

/// Drop leading whitespace.
pub fn trim_start_vec(s: &Vec<char>) -> (r: Vec<char>)
    ensures
        r@ == spec_trim_start(s@),
{
    let n = s.len();
    assert(s@.subrange(0, n as int) =~= s@);
    let mut lo: usize = 0;
    while lo < n && char_is_space(s[lo])
        invariant
            lo <= n,
            n == s@.len(),
            spec_trim_start(s@) == spec_trim_start(s@.subrange(lo as int, n as int)),
        decreases n - lo,
    {
        assert(s@.subrange(lo as int, n as int).drop_first() =~= s@.subrange(lo + 1, n as int));
        lo = lo + 1;
    }
    let r = subrange_vec(s, lo, n);
    assert(spec_trim_start(s@.subrange(lo as int, n as int)) == s@.subrange(lo as int, n as int));
    r
}

/// Drop trailing whitespace.
pub fn trim_end_vec(s: &Vec<char>) -> (r: Vec<char>)
    ensures
        r@ == spec_trim_end(s@),
{
    let n = s.len();
    assert(s@.subrange(0, n as int) =~= s@);
    let mut hi: usize = n;
    while hi > 0 && char_is_space(s[hi - 1])
        invariant
            hi <= n,
            n == s@.len(),
            spec_trim_end(s@) == spec_trim_end(s@.subrange(0, hi as int)),
        decreases hi,
    {
        assert(s@.subrange(0, hi as int).drop_last() =~= s@.subrange(0, hi - 1));
        hi = hi - 1;
    }
    let r = subrange_vec(s, 0, hi);
    assert(spec_trim_end(s@.subrange(0, hi as int)) == s@.subrange(0, hi as int));
    r
}

/// Drop leading and trailing whitespace.
pub fn trim_vec(s: &Vec<char>) -> (r: Vec<char>)
    ensures
        r@ == spec_trim(s@),
{
    let t = trim_start_vec(s);
    trim_end_vec(&t)
}

/// Append all of `src` to `dst`.
pub fn push_all(dst: &mut Vec<char>, src: &Vec<char>)
    ensures
        final(dst)@ == old(dst)@ + src@,
{
    let m = src.len();
    let mut i: usize = 0;
    while i < m
        invariant
            m == src@.len(),
            i <= m,
            dst@ == old(dst)@ + src@.subrange(0, i as int),
        decreases m - i,
    {
        dst.push(src[i]);
        assert(dst@ =~= old(dst)@ + src@.subrange(0, i + 1));
        i = i + 1;
    }
    assert(dst@ =~= old(dst)@ + src@);
}

/// `s` without leading copies of `c`.
pub open spec fn spec_trim_char_start(s: Seq<char>, c: char) -> Seq<char>
    decreases s.len(),
{
    if s.len() > 0 && s[0] == c {
        spec_trim_char_start(s.drop_first(), c)
    } else {
        s
    }
}

/// `s` without trailing copies of `c`.
pub open spec fn spec_trim_char_end(s: Seq<char>, c: char) -> Seq<char>
    decreases s.len(),
{
    if s.len() > 0 && s.last() == c {
        spec_trim_char_end(s.drop_last(), c)
    } else {
        s
    }
}

/// `s` without leading or trailing copies of `c`.
pub open spec fn spec_trim_char(s: Seq<char>, c: char) -> Seq<char> {
    spec_trim_char_end(spec_trim_char_start(s, c), c)
}

/// Drop leading and trailing copies of `c`.
pub fn trim_char_vec(s: &Vec<char>, c: char) -> (r: Vec<char>)
    ensures
        r@ == spec_trim_char(s@, c),
{
    let n = s.len();
    assert(s@.subrange(0, n as int) =~= s@);
    let mut lo: usize = 0;
    while lo < n && s[lo] == c
        invariant
            lo <= n,
            n == s@.len(),
            spec_trim_char_start(s@, c) == spec_trim_char_start(s@.subrange(lo as int, n as int), c),
        decreases n - lo,
    {
        assert(s@.subrange(lo as int, n as int).drop_first() =~= s@.subrange(lo + 1, n as int));
        lo = lo + 1;
    }
    assert(spec_trim_char_start(s@.subrange(lo as int, n as int), c) == s@.subrange(
        lo as int,
        n as int,
    ));
    let mut hi: usize = n;
    while hi > lo && s[hi - 1] == c
        invariant
            lo <= hi <= n,
            n == s@.len(),
            spec_trim_char_start(s@, c) == s@.subrange(lo as int, n as int),
            spec_trim_char_end(s@.subrange(lo as int, n as int), c) == spec_trim_char_end(
                s@.subrange(lo as int, hi as int),
                c,
            ),
        decreases hi,
    {
        assert(s@.subrange(lo as int, hi as int).drop_last() =~= s@.subrange(lo as int, hi - 1));
        hi = hi - 1;
    }
    assert(spec_trim_char_end(s@.subrange(lo as int, hi as int), c) == s@.subrange(
        lo as int,
        hi as int,
    ));
    subrange_vec(s, lo, hi)
}

/// The largest index holding `c`, if any.
pub open spec fn spec_rfind(s: Seq<char>, c: char) -> Option<int>
    decreases s.len(),
{
    if s.len() == 0 {
        None
    } else if s.last() == c {
        Some(s.len() - 1)
    } else {
        spec_rfind(s.drop_last(), c)
    }
}

/// Find the last occurrence of `c`.
pub fn rfind_char(s: &Vec<char>, c: char) -> (r: Option<usize>)
    ensures
        match r {
            Some(i) => spec_rfind(s@, c) == Some(i as int),
            None => spec_rfind(s@, c) is None,
        },
{
    let n = s.len();
    assert(s@.subrange(0, n as int) =~= s@);
    let mut hi: usize = n;
    while hi > 0
        invariant
            hi <= n,
            n == s@.len(),
            spec_rfind(s@, c) == spec_rfind(s@.subrange(0, hi as int), c),
        decreases hi,
    {
        if s[hi - 1] == c {
            assert(s@.subrange(0, hi as int).last() == s@[hi - 1]);
            return Some(hi - 1);
        }
        assert(s@.subrange(0, hi as int).drop_last() =~= s@.subrange(0, hi - 1));
        hi = hi - 1;
    }
    None
}

/// `s` with every run of consecutive `c` collapsed to a single `c`.
pub open spec fn spec_collapse_runs(s: Seq<char>, c: char) -> Seq<char>
    decreases s.len(),
{
    if s.len() == 0 {
        s
    } else if s.len() >= 2 && s[0] == c && s[1] == c {
        spec_collapse_runs(s.drop_first(), c)
    } else {
        seq![s[0]] + spec_collapse_runs(s.drop_first(), c)
    }
}

/// Collapse each run of consecutive `c` to a single `c`.
pub fn collapse_runs(s: &Vec<char>, c: char) -> (r: Vec<char>)
    ensures
        r@ == spec_collapse_runs(s@, c),
{
    let n = s.len();
    assert(s@.subrange(0, n as int) =~= s@);
    let mut out: Vec<char> = Vec::new();
    let mut i: usize = 0;
    while i < n
        invariant
            i <= n,
            n == s@.len(),
            spec_collapse_runs(s@, c) == out@ + spec_collapse_runs(
                s@.subrange(i as int, n as int),
                c,
            ),
        decreases n - i,
    {
        assert(s@.subrange(i as int, n as int).drop_first() =~= s@.subrange(i + 1, n as int));
        let skip = s[i] == c && i + 1 < n && s[i + 1] == c;
        if !skip {
            out.push(s[i]);
        }
        proof {
            let rest = s@.subrange(i as int, n as int);
            assert(rest[0] == s@[i as int]);
            if i + 1 < n {
                assert(rest[1] == s@[i + 1]);
            }
        }
        i = i + 1;
    }
    assert(out@ =~= out@ + spec_collapse_runs(s@.subrange(n as int, n as int), c));
    out
}

/// Exec equality of two character vectors.
pub fn eq_chars(a: &Vec<char>, b: &Vec<char>) -> (r: bool)
    ensures
        r == (a@ == b@),
{
    let n = a.len();
    if n != b.len() {
        return false;
    }
    let mut i: usize = 0;
    while i < n
        invariant
            i <= n,
            n == a@.len() && n == b@.len(),
            forall|j: int| 0 <= j < i ==> a@[j] == b@[j],
        decreases n - i,
    {
        if a[i] != b[i] {
            return false;
        }
        i = i + 1;
    }
    assert(a@ =~= b@);
    true
}

} // verus!
