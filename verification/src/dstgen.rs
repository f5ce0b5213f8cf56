//! The destructible-zone generator: preset header handling, marker
//! substitution, balanced-brace location of the `FractalParts` block,
//! letter-tagged zone blocks and their cloning, zone-count reconciliation,
//! health substitution, and debris/collider injection.
use vstd::prelude::*;

use crate::strconv::{
    chars_of, is_all_hex, lower_vec, spec_all_hex, spec_is_digit, spec_lower, string_of,
};
use crate::text::{
    char_is_space, eq_chars, find_sub, is_space, lemma_find_props, lemma_find_some_bounds,
    match_at, push_all, replace_all, spec_find, spec_join, spec_lines, spec_lines_from,
    spec_replace, spec_starts_with, spec_trim, spec_trim_start, split_lines, starts_with_at,
    strip_cr, subrange_vec, trim_start_vec, trim_vec,
};

verus! {

/// The metadata a preset's leading `Key: value` lines declare.
pub struct PresetHeader {
    pub id: String,
    pub title: String,
    pub project: String,
    pub generator: String,
    pub description: String,
}

/// The mathematical shadow of a preset header.
pub ghost struct HeaderView {
    pub id: Seq<char>,
    pub title: Seq<char>,
    pub project: Seq<char>,
    pub generator: Seq<char>,
    pub description: Seq<char>,
}

impl View for PresetHeader {
    type V = HeaderView;

    open spec fn view(&self) -> HeaderView {
        HeaderView {
            id: self.id@,
            title: self.title@,
            project: self.project@,
            generator: self.generator@,
            description: self.description@,
        }
    }
}

/// An empty header.
pub open spec fn spec_header_empty() -> HeaderView {
    HeaderView {
        id: Seq::empty(),
        title: Seq::empty(),
        project: Seq::empty(),
        generator: Seq::empty(),
        description: Seq::empty(),
    }
}

/// One `key: value` line folded into the header; unknown keys are ignored.
pub open spec fn spec_header_apply(h: HeaderView, k: Seq<char>, v: Seq<char>) -> HeaderView {
    if k == "id"@ {
        HeaderView { id: v, ..h }
    } else if k == "title"@ {
        HeaderView { title: v, ..h }
    } else if k == "project"@ {
        HeaderView { project: v, ..h }
    } else if k == "generator"@ {
        HeaderView { generator: v, ..h }
    } else if k == "description"@ {
        HeaderView { description: v, ..h }
    } else {
        h
    }
}

/// The header read from the lines before the first blank one: each line
/// with a colon contributes its lowercased key and trimmed value.
pub open spec fn spec_header_fold(lines: Seq<Seq<char>>, i: int, h: HeaderView) -> HeaderView
    decreases lines.len() - i,
{
    if i < 0 || i >= lines.len() {
        h
    } else {
        let line = spec_trim(lines[i]);
        if line.len() == 0 {
            h
        } else {
            let h2 = match spec_find(line, seq![':'], 0) {
                Some(c) => spec_header_apply(
                    h,
                    spec_lower(spec_trim(line.subrange(0, c))),
                    spec_trim(line.subrange(c + 1, line.len() as int)),
                ),
                None => h,
            };
            spec_header_fold(lines, i + 1, h2)
        }
    }
}

/// What `parse_preset_header` reads out of a preset text.
pub open spec fn spec_preset_header(s: Seq<char>) -> HeaderView {
    spec_header_fold(spec_lines(s), 0, spec_header_empty())
}

/// Read the preset metadata from the leading `Key: value` lines.
pub fn parse_preset_header(all_text: &str) -> (r: PresetHeader)
    ensures
        r@ == spec_preset_header(all_text@),
{
    let cs = chars_of(all_text);
    let lines = split_lines(&cs);
    let n = lines.len();
    let mut h = PresetHeader {
        id: String::new(),
        title: String::new(),
        project: String::new(),
        generator: String::new(),
        description: String::new(),
    };
    proof {
        assert(h@ == spec_header_empty());
    }
    let colon: Vec<char> = vec![':'];
    assert(colon@ =~= seq![':']);
    let key_id = chars_of("id");
    let key_title = chars_of("title");
    let key_project = chars_of("project");
    let key_generator = chars_of("generator");
    let key_description = chars_of("description");
    let mut i: usize = 0;
    while i < n
        invariant
            i <= n,
            n == lines@.len(),
            lines.deep_view().len() == n,
            colon@ == seq![':'],
            key_id@ == "id"@,
            key_title@ == "title"@,
            key_project@ == "project"@,
            key_generator@ == "generator"@,
            key_description@ == "description"@,
            spec_preset_header(all_text@) == spec_header_fold(
                lines.deep_view(),
                i as int,
                h@,
            ),
        decreases n - i,
    {
        proof {
            assert(lines.deep_view()[i as int] == lines@[i as int]@);
        }
        let line = trim_vec(&lines[i]);
        if line.len() == 0 {
            proof {
                assert(spec_header_fold(lines.deep_view(), i as int, h@) == h@);
            }
            return h;
        }
        match find_sub(&line, &colon, 0) {
            Some(c) => {
                proof {
                    lemma_find_some_bounds(line@, colon@, 0);
                }
                let rawk = subrange_vec(&line, 0, c);
                let k = lower_vec(&trim_vec(&rawk));
                let rawv = subrange_vec(&line, c + 1, line.len());
                let v = string_of(&trim_vec(&rawv));
                if eq_chars(&k, &key_id) {
                    h.id = v;
                } else if eq_chars(&k, &key_title) {
                    h.title = v;
                } else if eq_chars(&k, &key_project) {
                    h.project = v;
                } else if eq_chars(&k, &key_generator) {
                    h.generator = v;
                } else if eq_chars(&k, &key_description) {
                    h.description = v;
                }
            },
            None => {},
        }
        i = i + 1;
    }
    h
}

/// A word character of a header key.
pub open spec fn is_word_char(c: char) -> bool {
    ('A' <= c <= 'Z') || ('a' <= c <= 'z') || ('0' <= c <= '9') || c == '_' || c == '-'
}

/// The first index at or after `i` that is not a word character.
pub open spec fn scan_word(t: Seq<char>, i: int) -> int
    decreases t.len() - i,
{
    if i < 0 || i >= t.len() || !is_word_char(t[i]) {
        i
    } else {
        scan_word(t, i + 1)
    }
}

/// The first index at or after `i` that is not whitespace.
pub open spec fn scan_sp(t: Seq<char>, i: int) -> int
    decreases t.len() - i,
{
    if i < 0 || i >= t.len() || !is_space(t[i]) {
        i
    } else {
        scan_sp(t, i + 1)
    }
}

/// A header line: optional leading whitespace, a key starting with a letter
/// or underscore, optional whitespace, then a colon.
pub open spec fn is_kv_line(l: Seq<char>) -> bool {
    let t = spec_trim_start(l);
    t.len() > 0 && (('A' <= t[0] <= 'Z') || ('a' <= t[0] <= 'z') || t[0] == '_') && {
        let w = scan_word(t, 1);
        let p = scan_sp(t, w);
        p < t.len() && t[p] == ':'
    }
}

/// Exec counterpart of `is_word_char`.
fn word_char(c: char) -> (r: bool)
    ensures
        r == is_word_char(c),
{
    ('A' <= c && c <= 'Z') || ('a' <= c && c <= 'z') || ('0' <= c && c <= '9') || c == '_'
        || c == '-'
}

/// Exec counterpart of `scan_word`.
fn scan_word_exec(t: &Vec<char>, i: usize) -> (r: usize)
    requires
        i <= t@.len(),
    ensures
        r == scan_word(t@, i as int),
        i <= r <= t@.len(),
{
    let n = t.len();
    let mut j = i;
    while j < n && word_char(t[j])
        invariant
            i <= j <= n,
            n == t@.len(),
            scan_word(t@, i as int) == scan_word(t@, j as int),
        decreases n - j,
    {
        j = j + 1;
    }
    j
}

/// Exec counterpart of `scan_sp`.
fn scan_sp_exec(t: &Vec<char>, i: usize) -> (r: usize)
    requires
        i <= t@.len(),
    ensures
        r == scan_sp(t@, i as int),
        i <= r <= t@.len(),
{
    let n = t.len();
    let mut j = i;
    while j < n && char_is_space(t[j])
        invariant
            i <= j <= n,
            n == t@.len(),
            scan_sp(t@, i as int) == scan_sp(t@, j as int),
        decreases n - j,
    {
        j = j + 1;
    }
    j
}

/// Whether a line looks like `Key: value`.
pub fn is_kv_line_exec(l: &Vec<char>) -> (r: bool)
    ensures
        r == is_kv_line(l@),
{
    let t = trim_start_vec(l);
    if t.len() == 0 {
        return false;
    }
    let c0 = t[0];
    if !(('A' <= c0 && c0 <= 'Z') || ('a' <= c0 && c0 <= 'z') || c0 == '_') {
        return false;
    }
    let w = scan_word_exec(&t, 1);
    let p = scan_sp_exec(&t, w);
    p < t.len() && t[p] == ':'
}

/// The body lines once the header is stripped: `Key: value` lines are
/// consumed up to the first blank line, which is consumed too; an
/// unexpected line ends the header early and stays.
pub open spec fn spec_strip_lines(lines: Seq<Seq<char>>, i: int) -> Seq<Seq<char>>
    decreases lines.len() - i,
{
    if i < 0 || i >= lines.len() {
        Seq::empty()
    } else if spec_trim(lines[i]).len() == 0 {
        lines.subrange(i + 1, lines.len() as int)
    } else if is_kv_line(lines[i]) {
        spec_strip_lines(lines, i + 1)
    } else {
        lines.subrange(i, lines.len() as int)
    }
}

/// The preset body: header lines dropped, the rest joined with the text's
/// own newline.
pub open spec fn spec_strip_header(s: Seq<char>) -> Seq<char> {
    spec_join(spec_strip_lines(spec_lines(s), 0), crate::etgen::spec_newline(s))
}

/// Where the body starts: the index of the first line after the header.
fn header_cut(lines: &Vec<Vec<char>>) -> (r: usize)
    ensures
        r <= lines@.len(),
        spec_strip_lines(lines.deep_view(), 0) == lines.deep_view().subrange(
            r as int,
            lines.deep_view().len() as int,
        ),
{
    let n = lines.len();
    let mut i: usize = 0;
    while i < n
        invariant
            i <= n,
            n == lines@.len(),
            lines.deep_view().len() == n,
            spec_strip_lines(lines.deep_view(), 0) == spec_strip_lines(
                lines.deep_view(),
                i as int,
            ),
        decreases n - i,
    {
        proof {
            assert(lines.deep_view()[i as int] == lines@[i as int]@);
        }
        let t = trim_vec(&lines[i]);
        if t.len() == 0 {
            return i + 1;
        }
        if !is_kv_line_exec(&lines[i]) {
            return i;
        }
        i = i + 1;
    }
    proof {
        assert(spec_strip_lines(lines.deep_view(), n as int) =~= lines.deep_view().subrange(
            n as int,
            n as int,
        ));
    }
    n
}

/// Drop the leading `Key: value` header from a preset body.
pub fn strip_preset_header(body: &str) -> (r: String)
    ensures
        r@ == spec_strip_header(body@),
{
    let cs = chars_of(body);
    let nl = crate::etgen::detect_newline(body);
    let nlv = chars_of(nl);
    let lines = split_lines(&cs);
    let n = lines.len();
    let rest_from = header_cut(&lines);
    let mut rest: Vec<Vec<char>> = Vec::new();
    let mut j = rest_from;
    while j < n
        invariant
            rest_from <= j <= n,
            n == lines@.len(),
            lines.deep_view().len() == n,
            rest.deep_view() == lines.deep_view().subrange(rest_from as int, j as int),
        decreases n - j,
    {
        let ghost prev = rest.deep_view();
        rest.push(lines[j].clone());
        proof {
            assert(rest.deep_view() =~~= prev.push(lines.deep_view()[j as int]));
            assert(rest.deep_view() =~= lines.deep_view().subrange(rest_from as int, j + 1));
        }
        j = j + 1;
    }
    proof {
        assert(rest.deep_view() == spec_strip_lines(lines.deep_view(), 0));
    }
    let joined = crate::text::join_all(&rest, &nlv);
    string_of(&joined)
}

/// The template markers looked for, lowercased.
pub open spec fn tpl_start_marker() -> Seq<char> {
    "--- template ---"@
}

pub open spec fn tpl_end_marker() -> Seq<char> {
    "--- end template ---"@
}

/// The span between the marker lines: scanning line by line, `start`
/// becomes the position after the first line containing the start marker;
/// the span ends at the start of the first later line containing the end
/// marker.
pub open spec fn spec_body_span(s: Seq<char>, pos: int, start: Option<int>) -> Option<(int, int)>
    decreases s.len() - pos,
    via spec_body_span_decreases
{
    if pos < 0 || pos >= s.len() {
        None
    } else {
        let line = match spec_find(s, seq!['\n'], pos) {
            Some(e) => strip_cr(s.subrange(pos, e)),
            None => s.subrange(pos, s.len() as int),
        };
        let next = match spec_find(s, seq!['\n'], pos) {
            Some(e) => e + 1,
            None => s.len() as int,
        };
        let low = spec_lower(spec_trim(line));
        match start {
            None => if spec_find(low, tpl_start_marker(), 0) is Some {
                spec_body_span(s, next, Some(next))
            } else {
                spec_body_span(s, next, None)
            },
            Some(a) => if spec_find(low, tpl_end_marker(), 0) is Some {
                Some((a, pos))
            } else {
                spec_body_span(s, next, Some(a))
            },
        }
    }
}

#[via_fn]
proof fn spec_body_span_decreases(s: Seq<char>, pos: int, start: Option<int>) {
    lemma_find_some_bounds(s, seq!['\n'], pos);
}

/// The preferred template body: the text between the marker lines, or the
/// header-stripped text when the markers are absent.
pub open spec fn spec_template_body(s: Seq<char>) -> Seq<char> {
    match spec_body_span(s, 0, None) {
        Some((a, b)) => if 0 <= a <= b <= s.len() {
            s.subrange(a, b)
        } else {
            spec_strip_header(s)
        },
        None => spec_strip_header(s),
    }
}

/// Take the content between the template markers, else strip the header.
pub fn extract_template_body(all_text: &str) -> (r: String)
    ensures
        r@ == spec_template_body(all_text@),
{
    let cs = chars_of(all_text);
    let n = cs.len();
    let nlpat: Vec<char> = vec!['\n'];
    assert(nlpat@ =~= seq!['\n']);
    let m1 = chars_of("--- template ---");
    let m2 = chars_of("--- end template ---");
    let mut pos: usize = 0;
    let mut start: usize = 0;
    let mut have_start = false;
    while pos < n
        invariant
            pos <= n,
            n == cs@.len(),
            cs@ == all_text@,
            nlpat@ == seq!['\n'],
            m1@ == tpl_start_marker(),
            m2@ == tpl_end_marker(),
            have_start ==> start <= pos,
            spec_body_span(cs@, 0, None) == spec_body_span(
                cs@,
                pos as int,
                if have_start {
                    Some(start as int)
                } else {
                    None
                },
            ),
        decreases n - pos,
    {
        let (line, next) = match find_sub(&cs, &nlpat, pos) {
            Some(e) => {
                proof {
                    lemma_find_some_bounds(cs@, nlpat@, pos as int);
                }
                let mut l = subrange_vec(&cs, pos, e);
                if l.len() > 0 && l[l.len() - 1] == '\r' {
                    l.pop();
                    assert(l@ =~= strip_cr(cs@.subrange(pos as int, e as int)));
                }
                (l, e + 1)
            },
            None => (subrange_vec(&cs, pos, n), n),
        };
        let low = lower_vec(&trim_vec(&line));
        if !have_start {
            if find_sub(&low, &m1, 0).is_some() {
                have_start = true;
                start = next;
            }
        } else {
            if find_sub(&low, &m2, 0).is_some() {
                proof {
                    assert(spec_body_span(cs@, 0, None) == Some((start as int, pos as int)));
                }
                return string_of(&subrange_vec(&cs, start, pos));
            }
        }
        pos = next;
    }
    strip_preset_header(all_text)
}

/// Where the matching close brace of the block opened at `i` lies; the scan
/// counts every brace from `i` on.
pub open spec fn spec_brace_close(s: Seq<char>, i: int, depth: int) -> Option<int>
    decreases s.len() - i,
{
    if i < 0 || i >= s.len() {
        None
    } else if s[i] == '{' {
        spec_brace_close(s, i + 1, depth + 1)
    } else if s[i] == '}' {
        if depth == 1 {
            Some(i)
        } else {
            spec_brace_close(s, i + 1, depth - 1)
        }
    } else {
        spec_brace_close(s, i + 1, depth)
    }
}

/// The `FractalParts` block's bounds: the keyword, its opening brace, and
/// the matching closing brace found by depth counting.
pub open spec fn spec_fractal_bounds(s: Seq<char>) -> Option<(int, int, int)> {
    match spec_find(s, "FractalParts"@, 0) {
        None => None,
        Some(kw) => match spec_find(s, seq!['{'], kw) {
            None => None,
            Some(open) => match spec_brace_close(s, open, 0) {
                None => None,
                Some(close) => Some((open, close, kw)),
            },
        },
    }
}

proof fn lemma_brace_close_bounds(s: Seq<char>, i: int, depth: int)
    ensures
        spec_brace_close(s, i, depth) matches Some(c) ==> i <= c < s.len(),
    decreases s.len() - i,
{
    if 0 <= i < s.len() {
        lemma_brace_close_bounds(s, i + 1, depth + 1);
        lemma_brace_close_bounds(s, i + 1, depth - 1);
        lemma_brace_close_bounds(s, i + 1, depth);
    }
}

/// Find the matching close brace by scanning from `i`.
fn brace_close_from(s: &Vec<char>, i: usize, depth_in: i128) -> (r: Option<usize>)
    requires
        i <= s@.len(),
        -0x10000000000000000 <= depth_in <= 0x10000000000000000,
    ensures
        match r {
            Some(c) => spec_brace_close(s@, i as int, depth_in as int) == Some(c as int) && c
                < s@.len(),
            None => spec_brace_close(s@, i as int, depth_in as int) is None,
        },
{
    let n = s.len();
    let mut j = i;
    let mut depth: i128 = depth_in;
    while j < n
        invariant
            i <= j <= n,
            n == s@.len(),
            depth_in - ((j - i) as i128) <= depth <= depth_in + ((j - i) as i128),
            -0x10000000000000000 <= depth_in <= 0x10000000000000000,
            spec_brace_close(s@, i as int, depth_in as int) == spec_brace_close(
                s@,
                j as int,
                depth as int,
            ),
        decreases n - j,
    {
        let c = s[j];
        if c == '{' {
            depth = depth + 1;
        } else if c == '}' {
            if depth == 1 {
                return Some(j);
            }
            depth = depth - 1;
        }
        j = j + 1;
    }
    None
}

/// Locate the `FractalParts` block by keyword and balanced-brace scanning.
pub fn find_fractalparts_bounds(text: &str) -> (r: Option<(usize, usize, usize)>)
    ensures
        match r {
            Some(t) => spec_fractal_bounds(text@) == Some(
                (t.0 as int, t.1 as int, t.2 as int),
            ) && t.0 < t.1 < text@.len(),
            None => spec_fractal_bounds(text@) is None,
        },
{
    let cs = chars_of(text);
    let kwpat = chars_of("FractalParts");
    let openpat: Vec<char> = vec!['{'];
    assert(openpat@ =~= seq!['{']);
    match find_sub(&cs, &kwpat, 0) {
        None => None,
        Some(kw) => {
            match find_sub(&cs, &openpat, kw) {
                None => None,
                Some(open) => {
                    proof {
                        lemma_find_some_bounds(cs@, openpat@, kw as int);
                    }
                    match brace_close_from(&cs, open, 0) {
                        None => None,
                        Some(close) => {
                            proof {
                                lemma_find_props(cs@, openpat@, kw as int);
                                assert(cs@[open as int] == '{') by {
                                    assert(cs@.subrange(open as int, open + 1)[0] == cs@[
                                        open as int
                                    ]);
                                }
                                assert(spec_brace_close(cs@, open as int, 0)
                                    == spec_brace_close(cs@, open + 1, 1));
                                lemma_brace_close_bounds(cs@, open + 1, 1);
                            }
                            Some((open, close, kw))
                        },
                    }
                },
            }
        },
    }
}

/// How many times `c` occurs in `l`.
pub open spec fn count_char(l: Seq<char>, c: char) -> int
    decreases l.len(),
{
    if l.len() == 0 {
        0
    } else {
        count_char(l.drop_last(), c) + if l.last() == c {
            1int
        } else {
            0int
        }
    }
}

proof fn lemma_count_char_bound(l: Seq<char>, c: char)
    ensures
        0 <= count_char(l, c) <= l.len(),
    decreases l.len(),
{
    if l.len() > 0 {
        lemma_count_char_bound(l.drop_last(), c);
    }
}

/// Count occurrences of `c`.
fn count_char_exec(l: &Vec<char>, c: char) -> (r: usize)
    ensures
        r == count_char(l@, c),
{
    let n = l.len();
    let mut cnt: usize = 0;
    let mut i: usize = 0;
    proof {
        assert(l@.subrange(0, 0) =~= Seq::<char>::empty());
    }
    while i < n
        invariant
            i <= n,
            n == l@.len(),
            cnt <= i,
            cnt == count_char(l@.subrange(0, i as int), c),
        decreases n - i,
    {
        proof {
            assert(l@.subrange(0, i + 1).drop_last() =~= l@.subrange(0, i as int));
            assert(l@.subrange(0, i + 1).last() == l@[i as int]);
            lemma_count_char_bound(l@.subrange(0, i as int), c);
        }
        if l[i] == c {
            cnt = cnt + 1;
        }
        i = i + 1;
    }
    proof {
        assert(l@.subrange(0, n as int) =~= l@);
    }
    cnt
}

/// The total length of the lines in `[a, b)`.
pub open spec fn sum_lens(ls: Seq<Seq<char>>, a: int, b: int) -> int
    decreases b - a,
{
    if a >= b {
        0
    } else {
        ls[a].len() + sum_lens(ls, a + 1, b)
    }
}

proof fn lemma_sum_lens_nonneg(ls: Seq<Seq<char>>, a: int, b: int)
    ensures
        sum_lens(ls, a, b) >= 0,
    decreases b - a,
{
    if a < b {
        lemma_sum_lens_nonneg(ls, a + 1, b);
    }
}

proof fn lemma_sum_lens_split(ls: Seq<Seq<char>>, a: int, m: int, b: int)
    requires
        a <= m <= b,
    ensures
        sum_lens(ls, a, b) == sum_lens(ls, a, m) + sum_lens(ls, m, b),
    decreases m - a,
{
    if a < m {
        lemma_sum_lens_split(ls, a + 1, m, b);
    }
}

/// Sums agree where the elements do, allowing an index shift.
proof fn lemma_sum_lens_shift(xs: Seq<Seq<char>>, ys: Seq<Seq<char>>, a: int, b: int, off: int)
    requires
        forall|k: int| a <= k < b ==> xs[k + off] == ys[k],
    ensures
        sum_lens(xs, a + off, b + off) == sum_lens(ys, a, b),
    decreases b - a,
{
    if a < b {
        lemma_sum_lens_shift(xs, ys, a + 1, b, off);
    }
}

/// The split lines never hold more characters than the text they split.
proof fn lemma_lines_lens(s: Seq<char>, pos: int)
    requires
        0 <= pos <= s.len(),
    ensures
        sum_lens(spec_lines_from(s, pos), 0, spec_lines_from(s, pos).len() as int) <= s.len()
            - pos + 1,
    decreases s.len() - pos,
{
    if pos >= s.len() {
    } else {
        match spec_find(s, seq!['\n'], pos) {
            Some(e) => {
                lemma_find_some_bounds(s, seq!['\n'], pos);
                lemma_lines_lens(s, e + 1);
                let first = strip_cr(s.subrange(pos, e));
                let rest = spec_lines_from(s, e + 1);
                let whole = spec_lines_from(s, pos);
                assert(whole == seq![first] + rest);
                assert(whole[0] == first);
                assert(forall|k: int| 0 <= k < rest.len() ==> whole[k + 1] == rest[k]);
                lemma_sum_lens_shift(whole, rest, 0, rest.len() as int, 1);
                assert(sum_lens(whole, 0, whole.len() as int) == first.len() + sum_lens(
                    whole,
                    1,
                    whole.len() as int,
                ));
            },
            None => {
                let whole = spec_lines_from(s, pos);
                assert(whole == seq![s.subrange(pos, s.len() as int)]);
                assert(sum_lens(whole, 1, 1) == 0);
                assert(sum_lens(whole, 0, 1) == whole[0].len());
            },
        }
    }
}

/// Where a zone block that starts at line `j` ends: lines are consumed
/// while a per-line brace count runs, until the depth falls back to zero
/// after the first opening brace; the result is the index just past the
/// block's last line.
pub open spec fn spec_block_end(lines: Seq<Seq<char>>, j: int, depth: int, started: bool) -> int
    decreases lines.len() - j,
{
    if j < 0 || j >= lines.len() {
        lines.len() as int
    } else {
        let has_open = count_char(lines[j], '{') > 0;
        let started2 = started || has_open;
        let depth2 = depth + count_char(lines[j], '{') - count_char(lines[j], '}');
        if started2 && depth2 <= 0 {
            j + 1
        } else {
            spec_block_end(lines, j + 1, depth2, started2)
        }
    }
}

proof fn lemma_block_end_bounds(lines: Seq<Seq<char>>, j: int, depth: int, started: bool)
    requires
        0 <= j <= lines.len(),
    ensures
        j < lines.len() ==> j < spec_block_end(lines, j, depth, started) <= lines.len(),
        j == lines.len() ==> spec_block_end(lines, j, depth, started) == lines.len(),
    decreases lines.len() - j,
{
    if j < lines.len() {
        let has_open = count_char(lines[j], '{') > 0;
        let started2 = started || has_open;
        let depth2 = depth + count_char(lines[j], '{') - count_char(lines[j], '}');
        if !(started2 && depth2 <= 0) {
            lemma_block_end_bounds(lines, j + 1, depth2, started2);
        }
    }
}

/// Scan for the end of a block by per-line brace counting.
fn block_end_exec(lines: &Vec<Vec<char>>, start: usize) -> (r: usize)
    requires
        start < lines@.len(),
        sum_lens(lines.deep_view(), 0, lines.deep_view().len() as int)
            <= 0x10000000000000000,
    ensures
        r == spec_block_end(lines.deep_view(), start as int, 0, false),
        start < r <= lines@.len(),
{
    let ghost dv = lines.deep_view();
    let n = lines.len();
    let mut j = start;
    let mut depth: i128 = 0;
    let mut started = false;
    proof {
        lemma_block_end_bounds(dv, start as int, 0, false);
        lemma_sum_lens_nonneg(dv, start as int, start as int);
    }
    while j < n
        invariant
            start <= j <= n,
            n == lines@.len(),
            dv == lines.deep_view(),
            dv.len() == n,
            sum_lens(dv, 0, n as int) <= 0x10000000000000000,
            -sum_lens(dv, start as int, j as int) <= depth <= sum_lens(
                dv,
                start as int,
                j as int,
            ),
            spec_block_end(dv, start as int, 0, false) == spec_block_end(
                dv,
                j as int,
                depth as int,
                started,
            ),
            spec_block_end(dv, start as int, 0, false) <= n,
        decreases n - j,
    {
        proof {
            assert(dv[j as int] == lines@[j as int]@);
            lemma_sum_lens_split(dv, 0, start as int, n as int);
            lemma_sum_lens_split(dv, start as int, j as int, n as int);
            lemma_sum_lens_split(dv, j as int, j + 1, n as int);
            lemma_sum_lens_nonneg(dv, 0, start as int);
            lemma_sum_lens_nonneg(dv, j + 1, n as int);
            lemma_sum_lens_nonneg(dv, start as int, j as int);
            assert(sum_lens(dv, j as int, j + 1) == dv[j as int].len());
            lemma_count_char_bound(dv[j as int], '{');
            lemma_count_char_bound(dv[j as int], '}');
        }
        let opens = count_char_exec(&lines[j], '{');
        let closes = count_char_exec(&lines[j], '}');
        if opens > 0 {
            started = true;
        }
        depth = depth + (opens as i128) - (closes as i128);
        proof {
            lemma_sum_lens_split(dv, start as int, j as int, j + 1);
        }
        j = j + 1;
        if started && depth <= 0 {
            return j;
        }
    }
    n
}

/// The first letter tagged by a `PartId "X"` field, or `None`.
pub open spec fn spec_part_tag(blk: Seq<char>, pos: int) -> Option<char>
    decreases blk.len() - pos,
    via spec_part_tag_decreases
{
    match spec_find(blk, "PartId \""@, pos) {
        None => None,
        Some(i) => if i + 10 <= blk.len() && 'A' <= blk[i + 8] <= 'Z' && blk[i + 9] == '"' {
            Some(blk[i + 8])
        } else {
            spec_part_tag(blk, i + 1)
        },
    }
}

#[via_fn]
proof fn spec_part_tag_decreases(blk: Seq<char>, pos: int) {
    lemma_find_some_bounds(blk, "PartId \""@, pos);
}

/// The zone letter of a block: its `PartId` tag, or `A` when none parses.
pub open spec fn spec_part_letter(blk: Seq<char>) -> char {
    match spec_part_tag(blk, 0) {
        Some(c) => c,
        None => 'A',
    }
}

/// Find the letter tagged by the first well-formed `PartId "X"` field.
pub fn part_tag_of(blk: &Vec<char>) -> (r: Option<char>)
    ensures
        match r {
            Some(c) => spec_part_tag(blk@, 0) == Some(c),
            None => spec_part_tag(blk@, 0) is None,
        },
{
    let pat = chars_of("PartId \"");
    let n = blk.len();
    let mut pos: usize = 0;
    while pos <= n
        invariant
            pos <= n + 1,
            n == blk@.len(),
            pat@ == "PartId \""@,
            spec_part_tag(blk@, 0) == spec_part_tag(blk@, pos as int),
        decreases n + 1 - pos,
    {
        match find_sub(blk, &pat, pos) {
            None => {
                return None;
            },
            Some(i) => {
                proof {
                    lemma_find_some_bounds(blk@, pat@, pos as int);
                }
                if n >= 10 && i <= n - 10 && 'A' <= blk[i + 8] && blk[i + 8] <= 'Z' && blk[i + 9]
                    == '"' {
                    return Some(blk[i + 8]);
                }
                pos = i + 1;
            },
        }
    }
    proof {
        assert(spec_part_tag(blk@, pos as int) is None);
    }
    None
}

/// The letter-tagged blocks and the other lines of the `FractalParts`
/// interior: a block starts at a line opening `FractalPartData` and runs to
/// the line where its braces balance; everything else is kept aside.
pub open spec fn spec_extract_blocks(lines: Seq<Seq<char>>, i: int, nl: Seq<char>) -> (
    Seq<(char, Seq<char>)>,
    Seq<Seq<char>>,
)
    decreases lines.len() - i,
    via spec_extract_blocks_decreases
{
    if i < 0 || i >= lines.len() {
        (Seq::empty(), Seq::empty())
    } else if spec_starts_with(spec_trim_start(lines[i]), "FractalPartData"@) {
        let j = spec_block_end(lines, i, 0, false);
        let blk = spec_join(lines.subrange(i, j), nl);
        let rest = spec_extract_blocks(lines, j, nl);
        (seq![(spec_part_letter(blk), blk)] + rest.0, rest.1)
    } else {
        let rest = spec_extract_blocks(lines, i + 1, nl);
        (rest.0, seq![lines[i]] + rest.1)
    }
}

#[via_fn]
proof fn spec_extract_blocks_decreases(lines: Seq<Seq<char>>, i: int, nl: Seq<char>) {
    if 0 <= i < lines.len() {
        lemma_block_end_bounds(lines, i, 0, false);
    }
}

/// Stable insertion of a block by its letter.
pub open spec fn spec_block_insert(xs: Seq<(char, Seq<char>)>, b: (char, Seq<char>)) -> Seq<
    (char, Seq<char>),
>
    decreases xs.len(),
{
    if xs.len() == 0 {
        seq![b]
    } else if xs.last().0 <= b.0 {
        xs.push(b)
    } else {
        spec_block_insert(xs.drop_last(), b).push(xs.last())
    }
}

/// The blocks sorted by letter, stably.
pub open spec fn spec_sort_blocks(xs: Seq<(char, Seq<char>)>) -> Seq<(char, Seq<char>)>
    decreases xs.len(),
{
    if xs.len() == 0 {
        Seq::empty()
    } else {
        spec_block_insert(spec_sort_blocks(xs.drop_last()), xs.last())
    }
}

/// Where the stable insertion lands: before the greater tail.
proof fn lemma_block_insert_at(xs: Seq<(char, Seq<char>)>, b: (char, Seq<char>), k: int)
    requires
        0 <= k <= xs.len(),
        forall|t: int| k <= t < xs.len() ==> xs[t].0 > b.0,
        k > 0 ==> xs[k - 1].0 <= b.0,
    ensures
        spec_block_insert(xs, b) =~= xs.subrange(0, k) + seq![b] + xs.subrange(
            k,
            xs.len() as int,
        ),
    decreases xs.len(),
{
    if xs.len() == 0 {
    } else if xs.last().0 <= b.0 {
        assert(k == xs.len());
        assert(xs.subrange(0, xs.len() as int) =~= xs);
    } else {
        assert(k <= xs.len() - 1);
        let front = xs.drop_last();
        lemma_block_insert_at(front, b, k);
        assert(front.subrange(0, k) =~= xs.subrange(0, k));
        assert(front.subrange(k, front.len() as int) =~= xs.subrange(k, xs.len() - 1));
    }
}

/// Copy a slice of the lines.
fn lines_slice(lines: &Vec<Vec<char>>, lo: usize, hi: usize) -> (r: Vec<Vec<char>>)
    requires
        lo <= hi <= lines@.len(),
    ensures
        r.deep_view() == lines.deep_view().subrange(lo as int, hi as int),
{
    let mut out: Vec<Vec<char>> = Vec::new();
    let mut j = lo;
    proof {
        assert(out.deep_view() =~= lines.deep_view().subrange(lo as int, lo as int));
    }
    while j < hi
        invariant
            lo <= j <= hi <= lines@.len(),
            lines.deep_view().len() == lines@.len(),
            out.deep_view() == lines.deep_view().subrange(lo as int, j as int),
        decreases hi - j,
    {
        let ghost prev = out.deep_view();
        out.push(lines[j].clone());
        proof {
            assert(out.deep_view() =~~= prev.push(lines.deep_view()[j as int]));
            assert(out.deep_view() =~= lines.deep_view().subrange(lo as int, j + 1));
        }
        j = j + 1;
    }
    out
}

/// Parse the interior into letter-tagged blocks (sorted by letter) and the
/// remaining lines.
pub fn extract_fractalpart_blocks(inner: &str) -> (r: (Vec<(char, String)>, Vec<String>))
    ensures
        ({
            let parts = spec_extract_blocks(
                spec_lines(inner@),
                0,
                crate::etgen::spec_newline(inner@),
            );
            r.0.deep_view() == spec_sort_blocks(parts.0) && r.1.deep_view() == parts.1
        }),
{
    let cs = chars_of(inner);
    let nl = crate::etgen::detect_newline(inner);
    let nlv = chars_of(nl);
    let lines = split_lines(&cs);
    let ghost dv = lines.deep_view();
    let n = lines.len();
    let cn = cs.len();
    proof {
        lemma_lines_lens(cs@, 0);
        assert(sum_lens(dv, 0, dv.len() as int) <= cn + 1);
    }
    let pat = chars_of("FractalPartData");
    let mut blocks: Vec<(char, String)> = Vec::new();
    let mut others: Vec<String> = Vec::new();
    let mut i: usize = 0;
    proof {
        assert(blocks.deep_view() =~= Seq::<(char, Seq<char>)>::empty());
        assert(others.deep_view() =~= Seq::<Seq<char>>::empty());
    }
    while i < n
        invariant
            i <= n,
            n == lines@.len(),
            dv == lines.deep_view(),
            dv.len() == n,
            nlv@ == crate::etgen::spec_newline(inner@),
            pat@ == "FractalPartData"@,
            sum_lens(dv, 0, dv.len() as int) <= 0x10000000000000000,
            ({
                let whole = spec_extract_blocks(dv, 0, nlv@);
                let rest = spec_extract_blocks(dv, i as int, nlv@);
                whole.0 == blocks.deep_view() + rest.0 && whole.1 == others.deep_view() + rest.1
            }),
        decreases n - i,
    {
        proof {
            assert(dv[i as int] == lines@[i as int]@);
        }
        let t = trim_start_vec(&lines[i]);
        if starts_with_at(&t, &pat, 0) {
            let j = block_end_exec(&lines, i);
            let piece = lines_slice(&lines, i, j);
            let blkv = crate::text::join_all(&piece, &nlv);
            let letter = match part_tag_of(&blkv) {
                Some(c) => c,
                None => 'A',
            };
            let ghost prevb = blocks.deep_view();
            blocks.push((letter, string_of(&blkv)));
            proof {
                assert(blocks.deep_view() =~~= prevb.push((letter, blkv@)));
                assert(letter == spec_part_letter(blkv@));
            }
            i = j;
        } else {
            let ghost prevo = others.deep_view();
            others.push(string_of(&lines[i]));
            proof {
                assert(others.deep_view() =~~= prevo.push(dv[i as int]));
            }
            i = i + 1;
        }
        proof {
            let whole = spec_extract_blocks(dv, 0, nlv@);
            let rest = spec_extract_blocks(dv, i as int, nlv@);
            assert(whole.0 =~= blocks.deep_view() + rest.0);
            assert(whole.1 =~= others.deep_view() + rest.1);
        }
    }
    proof {
        let rest = spec_extract_blocks(dv, n as int, nlv@);
        assert(rest.0 =~= Seq::<(char, Seq<char>)>::empty());
        assert(rest.1 =~= Seq::<Seq<char>>::empty());
        assert(blocks.deep_view() =~= spec_extract_blocks(dv, 0, nlv@).0);
        assert(others.deep_view() =~= spec_extract_blocks(dv, 0, nlv@).1);
    }
    // Sort the blocks by letter, stably.
    let bl = blocks.len();
    let mut sorted: Vec<(char, String)> = Vec::new();
    let ghost bdv = blocks.deep_view();
    let mut t: usize = 0;
    proof {
        assert(sorted.deep_view() =~= spec_sort_blocks(bdv.subrange(0, 0)));
    }
    while t < bl
        invariant
            t <= bl,
            bl == blocks@.len(),
            bdv == blocks.deep_view(),
            bdv.len() == bl,
            sorted.deep_view() == spec_sort_blocks(bdv.subrange(0, t as int)),
        decreases bl - t,
    {
        let key = blocks[t].0;
        proof {
            assert(bdv[t as int] == (blocks@[t as int].0, blocks@[t as int].1@));
        }
        let slen = sorted.len();
        let mut k: usize = slen;
        while k > 0 && sorted[k - 1].0 > key
            invariant
                k <= slen,
                slen == sorted@.len(),
                sorted.deep_view().len() == slen,
                forall|u: int|
                    k <= u < slen ==> #[trigger] sorted.deep_view()[u].0 > key,
            decreases k,
        {
            proof {
                assert(sorted.deep_view()[k - 1].0 == sorted@[k - 1].0);
            }
            k = k - 1;
        }
        proof {
            if k > 0 {
                assert(sorted.deep_view()[k - 1].0 == sorted@[k - 1].0);
            }
            lemma_block_insert_at(sorted.deep_view(), bdv[t as int], k as int);
        }
        let ghost prevs = sorted.deep_view();
        sorted.insert(k, (key, blocks[t].1.clone()));
        proof {
            assert(sorted.deep_view() =~~= prevs.subrange(0, k as int) + seq![bdv[t as int]]
                + prevs.subrange(k as int, prevs.len() as int));
            assert(bdv.subrange(0, t + 1).drop_last() =~= bdv.subrange(0, t as int));
            assert(sorted.deep_view() =~= spec_sort_blocks(bdv.subrange(0, t + 1)));
        }
        t = t + 1;
    }
    proof {
        assert(bdv.subrange(0, bl as int) =~= bdv);
    }
    (sorted, others)
}

/// The first index at or after `i` that is not a decimal digit.
pub open spec fn scan_digits(t: Seq<char>, i: int) -> int
    decreases t.len() - i,
{
    if i < 0 || i >= t.len() || !spec_is_digit(t[i]) {
        i
    } else {
        scan_digits(t, i + 1)
    }
}

/// Exec counterpart of `scan_digits`.
fn scan_digits_exec(t: &Vec<char>, i: usize) -> (r: usize)
    requires
        i <= t@.len(),
    ensures
        r == scan_digits(t@, i as int),
        i <= r <= t@.len(),
{
    let n = t.len();
    let mut j = i;
    while j < n && crate::strconv::is_digit(t[j])
        invariant
            i <= j <= n,
            n == t@.len(),
            scan_digits(t@, i as int) == scan_digits(t@, j as int),
        decreases n - j,
    {
        j = j + 1;
    }
    j
}

/// The decimal rendering of a nonnegative value.
pub open spec fn spec_dec(v: int) -> Seq<char>
    decreases v,
{
    if v < 10 {
        seq![((48 + if v >= 0 { v } else { 0 }) as u8) as char]
    } else {
        spec_dec(v / 10) + seq![((48 + (v % 10)) as u8) as char]
    }
}

/// Render a small number in decimal.
pub fn dec_u32(v: u32) -> (r: Vec<char>)
    ensures
        r@ == spec_dec(v as int),
    decreases v,
{
    if v < 10 {
        let c = ((48 + v) as u8) as char;
        let r: Vec<char> = vec![c];
        proof {
            assert(r@ =~= spec_dec(v as int));
        }
        r
    } else {
        let mut r = dec_u32(v / 10);
        let c = ((48 + (v % 10)) as u8) as char;
        r.push(c);
        proof {
            assert(r@ =~= spec_dec(v as int));
        }
        r
    }
}

/// The `PartId "X"` token of a letter.
pub open spec fn partid_pat(c: char) -> Seq<char> {
    "PartId \""@ + seq![c] + seq!['"']
}

/// A letter alone in quotes.
pub open spec fn qletter_pat(c: char) -> Seq<char> {
    seq!['"', c, '"']
}

/// A zone marker for a letter.
pub open spec fn debris_marker(c: char) -> Seq<char> {
    "{{DEBRIS_ID-"@ + seq![c] + "}}"@
}

pub open spec fn colliders_marker(c: char) -> Seq<char> {
    "{{COLLIDERS_ID-"@ + seq![c] + "}}"@
}

/// `"X<digits>"` tokens with the letter swapped and the digits kept.
pub open spec fn spec_renum_from(s: Seq<char>, src: char, new: char, pos: int) -> Seq<char>
    decreases s.len() - pos,
    via spec_renum_from_decreases
{
    if pos < 0 || pos > s.len() {
        Seq::empty()
    } else {
        match spec_find(s, seq!['"', src], pos) {
            None => s.subrange(pos, s.len() as int),
            Some(i) => {
                let d = scan_digits(s, i + 2);
                if d > i + 2 && d < s.len() && s[d] == '"' {
                    s.subrange(pos, i) + seq!['"', new] + s.subrange(i + 2, d) + seq!['"']
                        + spec_renum_from(s, src, new, d + 1)
                } else {
                    s.subrange(pos, i + 1) + spec_renum_from(s, src, new, i + 1)
                }
            },
        }
    }
}

#[via_fn]
proof fn spec_renum_from_decreases(s: Seq<char>, src: char, new: char, pos: int) {
    lemma_find_some_bounds(s, seq!['"', src], pos);
    if 0 <= pos <= s.len() {
        match spec_find(s, seq!['"', src], pos) {
            Some(i) => {
                lemma_scan_digits_bounds(s, i + 2);
            },
            None => {},
        }
    }
}

proof fn lemma_scan_digits_bounds(t: Seq<char>, i: int)
    requires
        0 <= i <= t.len(),
    ensures
        i <= scan_digits(t, i) <= t.len(),
    decreases t.len() - i,
{
    if i < t.len() && spec_is_digit(t[i]) {
        lemma_scan_digits_bounds(t, i + 1);
    }
}

/// Swap the letter in `"X<digits>"` tokens, keeping the digits.
fn renum_letter_tokens(s: &Vec<char>, src: char, new: char) -> (r: Vec<char>)
    ensures
        r@ == spec_renum_from(s@, src, new, 0),
{
    let n = s.len();
    let mut pat: Vec<char> = Vec::new();
    pat.push('"');
    pat.push(src);
    assert(pat@ =~= seq!['"', src]);
    let mut out: Vec<char> = Vec::new();
    let mut pos: usize = 0;
    proof {
        assert(out@ + spec_renum_from(s@, src, new, 0) =~= spec_renum_from(s@, src, new, 0));
    }
    while pos <= n
        invariant
            pos <= n + 1,
            n == s@.len(),
            pat@ == seq!['"', src],
            spec_renum_from(s@, src, new, 0) == out@ + spec_renum_from(s@, src, new, pos as int),
        decreases n + 1 - pos,
    {
        match find_sub(s, &pat, pos) {
            None => {
                let tail = subrange_vec(s, pos, n);
                push_all(&mut out, &tail);
                proof {
                    assert(spec_renum_from(s@, src, new, pos as int) == s@.subrange(
                        pos as int,
                        n as int,
                    ));
                }
                return out;
            },
            Some(i) => {
                proof {
                    lemma_find_some_bounds(s@, pat@, pos as int);
                }
                let d = scan_digits_exec(s, i + 2);
                if d > i + 2 && d < n && s[d] == '"' {
                    let seg = subrange_vec(s, pos, i);
                    push_all(&mut out, &seg);
                    out.push('"');
                    out.push(new);
                    let digits = subrange_vec(s, i + 2, d);
                    push_all(&mut out, &digits);
                    out.push('"');
                    pos = d + 1;
                } else {
                    let seg = subrange_vec(s, pos, i + 1);
                    push_all(&mut out, &seg);
                    pos = i + 1;
                }
            },
        }
    }
    proof {
        assert(spec_renum_from(s@, src, new, pos as int) =~= Seq::<char>::empty());
        assert(out@ =~= out@ + Seq::<char>::empty());
    }
    out
}

/// A quoted braced 16-hex-digit GUID starts at `i`.
pub open spec fn guid_tok_at(s: Seq<char>, i: int) -> bool {
    i + 20 <= s.len() && s[i] == '"' && s[i + 1] == '{' && spec_all_hex(s.subrange(i + 2, i + 18))
        && s[i + 18] == '}' && s[i + 19] == '"'
}

/// Every quoted braced GUID replaced by the corresponding fresh identifier.
pub open spec fn spec_regen_from(s: Seq<char>, ids: Seq<Seq<char>>, pos: int, k: int) -> Seq<char>
    decreases s.len() - pos,
    via spec_regen_from_decreases
{
    if pos < 0 || pos > s.len() {
        Seq::empty()
    } else {
        match spec_find(s, seq!['"', '{'], pos) {
            None => s.subrange(pos, s.len() as int),
            Some(i) => if guid_tok_at(s, i) {
                s.subrange(pos, i) + seq!['"', '{'] + ids[k] + seq!['}', '"'] + spec_regen_from(
                    s,
                    ids,
                    i + 20,
                    k + 1,
                )
            } else {
                s.subrange(pos, i + 1) + spec_regen_from(s, ids, i + 1, k)
            },
        }
    }
}

#[via_fn]
proof fn spec_regen_from_decreases(s: Seq<char>, ids: Seq<Seq<char>>, pos: int, k: int) {
    lemma_find_some_bounds(s, seq!['"', '{'], pos);
}

/// How many quoted braced GUIDs occur at or after `pos`.
pub open spec fn spec_count_guid_toks(s: Seq<char>, pos: int) -> int
    decreases s.len() - pos,
    via spec_count_guid_toks_decreases
{
    if pos < 0 || pos > s.len() {
        0
    } else {
        match spec_find(s, seq!['"', '{'], pos) {
            None => 0,
            Some(i) => if guid_tok_at(s, i) {
                1 + spec_count_guid_toks(s, i + 20)
            } else {
                spec_count_guid_toks(s, i + 1)
            },
        }
    }
}

#[via_fn]
proof fn spec_count_guid_toks_decreases(s: Seq<char>, pos: int) {
    lemma_find_some_bounds(s, seq!['"', '{'], pos);
}

proof fn lemma_count_guid_toks_nonneg(s: Seq<char>, pos: int)
    ensures
        spec_count_guid_toks(s, pos) >= 0,
    decreases s.len() - pos,
{
    if 0 <= pos <= s.len() {
        match spec_find(s, seq!['"', '{'], pos) {
            None => {},
            Some(i) => {
                lemma_find_some_bounds(s, seq!['"', '{'], pos);
                if guid_tok_at(s, i) {
                    lemma_count_guid_toks_nonneg(s, i + 20);
                } else {
                    lemma_count_guid_toks_nonneg(s, i + 1);
                }
            },
        }
    }
}

/// Whether a quoted braced GUID starts at `i`.
fn guid_tok_at_exec(s: &Vec<char>, i: usize) -> (r: bool)
    requires
        i < s@.len(),
    ensures
        r == guid_tok_at(s@, i as int),
{
    let n = s.len();
    if n >= 20 && i <= n - 20 {
        if s[i] == '"' && s[i + 1] == '{' {
            let inner = subrange_vec(s, i + 2, i + 18);
            is_all_hex(&inner) && s[i + 18] == '}' && s[i + 19] == '"'
        } else {
            false
        }
    } else {
        false
    }
}

/// Count the quoted braced GUIDs.
fn count_guid_toks(s: &Vec<char>) -> (r: usize)
    ensures
        r == spec_count_guid_toks(s@, 0),
{
    let n = s.len();
    let pat: Vec<char> = vec!['"', '{'];
    assert(pat@ =~= seq!['"', '{']);
    let mut cnt: usize = 0;
    let mut pos: usize = 0;
    proof {
        lemma_count_guid_toks_nonneg(s@, 0);
    }
    while pos <= n
        invariant
            pos <= n + 1,
            n == s@.len(),
            pat@ == seq!['"', '{'],
            cnt + spec_count_guid_toks(s@, pos as int) == spec_count_guid_toks(s@, 0),
            spec_count_guid_toks(s@, pos as int) >= 0,
            20 * cnt <= pos,
        decreases n + 1 - pos,
    {
        match find_sub(s, &pat, pos) {
            None => {
                return cnt;
            },
            Some(i) => {
                proof {
                    lemma_find_some_bounds(s@, pat@, pos as int);
                }
                if guid_tok_at_exec(s, i) {
                    proof {
                        lemma_count_guid_toks_nonneg(s@, i + 20);
                    }
                    cnt = cnt + 1;
                    pos = i + 20;
                } else {
                    proof {
                        lemma_count_guid_toks_nonneg(s@, i + 1);
                    }
                    pos = i + 1;
                }
            },
        }
    }
    cnt
}

proof fn lemma_count_past_end(s: Seq<char>, pos: int)
    requires
        pos > s.len() || pos < 0,
    ensures
        spec_count_guid_toks(s, pos) == 0,
{
}

/// Fill the quoted braced GUIDs with the supplied identifiers, in order.
fn regen_with(s: &Vec<char>, ids: &Vec<Vec<char>>) -> (r: Vec<char>)
    requires
        ids@.len() >= spec_count_guid_toks(s@, 0),
    ensures
        r@ == spec_regen_from(s@, ids.deep_view(), 0, 0),
{
    let ghost idv = ids.deep_view();
    let m = ids.len();
    let n = s.len();
    let pat: Vec<char> = vec!['"', '{'];
    assert(pat@ =~= seq!['"', '{']);
    let mut out: Vec<char> = Vec::new();
    let mut pos: usize = 0;
    let mut k: usize = 0;
    proof {
        lemma_count_guid_toks_nonneg(s@, 0);
        assert(out@ + spec_regen_from(s@, idv, 0, 0) =~= spec_regen_from(s@, idv, 0, 0));
    }
    while pos <= n
        invariant
            pos <= n + 1,
            k <= m,
            m == ids@.len(),
            n == s@.len(),
            idv == ids.deep_view(),
            idv.len() == ids@.len(),
            pat@ == seq!['"', '{'],
            k + spec_count_guid_toks(s@, pos as int) == spec_count_guid_toks(s@, 0),
            spec_count_guid_toks(s@, pos as int) >= 0,
            ids@.len() >= spec_count_guid_toks(s@, 0),
            spec_regen_from(s@, idv, 0, 0) == out@ + spec_regen_from(
                s@,
                idv,
                pos as int,
                k as int,
            ),
        decreases n + 1 - pos,
    {
        match find_sub(s, &pat, pos) {
            None => {
                let tail = subrange_vec(s, pos, n);
                push_all(&mut out, &tail);
                proof {
                    assert(spec_regen_from(s@, idv, pos as int, k as int) == s@.subrange(
                        pos as int,
                        n as int,
                    ));
                }
                return out;
            },
            Some(i) => {
                proof {
                    lemma_find_some_bounds(s@, pat@, pos as int);
                }
                if guid_tok_at_exec(s, i) {
                    proof {
                        lemma_count_guid_toks_nonneg(s@, i + 20);
                        assert(spec_count_guid_toks(s@, pos as int) == 1 + spec_count_guid_toks(
                            s@,
                            i + 20,
                        ));
                        assert(k < ids@.len());
                        assert(idv[k as int] == ids@[k as int]@);
                    }
                    let seg = subrange_vec(s, pos, i);
                    push_all(&mut out, &seg);
                    out.push('"');
                    out.push('{');
                    push_all(&mut out, &ids[k]);
                    out.push('}');
                    out.push('"');
                    proof {
                        assert(spec_regen_from(s@, idv, pos as int, k as int) =~= s@.subrange(
                            pos as int,
                            i as int,
                        ) + seq!['"', '{'] + idv[k as int] + seq!['}', '"'] + spec_regen_from(
                            s@,
                            idv,
                            i + 20,
                            k + 1,
                        ));
                        assert(spec_regen_from(s@, idv, 0, 0) =~= out@ + spec_regen_from(
                            s@,
                            idv,
                            i + 20,
                            k + 1,
                        ));
                    }
                    k = k + 1;
                    pos = i + 20;
                } else {
                    proof {
                        lemma_count_guid_toks_nonneg(s@, i + 1);
                    }
                    let seg = subrange_vec(s, pos, i + 1);
                    push_all(&mut out, &seg);
                    proof {
                        assert(spec_regen_from(s@, idv, pos as int, k as int) =~= s@.subrange(
                            pos as int,
                            i + 1,
                        ) + spec_regen_from(s@, idv, i + 1, k as int));
                        assert(spec_regen_from(s@, idv, 0, 0) =~= out@ + spec_regen_from(
                            s@,
                            idv,
                            i + 1,
                            k as int,
                        ));
                    }
                    pos = i + 1;
                }
            },
        }
    }
    proof {
        assert(spec_regen_from(s@, idv, pos as int, k as int) =~= Seq::<char>::empty());
        assert(out@ =~= out@ + Seq::<char>::empty());
    }
    out
}

/// Generate `cnt` fresh random identifiers.
fn fresh_ids(cnt: usize) -> (r: Vec<Vec<char>>)
    ensures
        r@.len() == cnt,
        forall|t: int|
            0 <= t < r.deep_view().len() ==> crate::etgen::is_token16(
                #[trigger] r.deep_view()[t],
            ),
{
    let mut out: Vec<Vec<char>> = Vec::new();
    let mut i: usize = 0;
    while i < cnt
        invariant
            i <= cnt,
            out@.len() == i,
            forall|t: int|
                0 <= t < out.deep_view().len() ==> crate::etgen::is_token16(
                    #[trigger] out.deep_view()[t],
                ),
        decreases cnt - i,
    {
        let ghost prev = out.deep_view();
        let id = crate::ident::gen_guid16_chars();
        out.push(id);
        proof {
            assert(out.deep_view() =~~= prev.push(id@));
            assert forall|t: int| 0 <= t < out.deep_view().len() implies crate::etgen::is_token16(
                #[trigger] out.deep_view()[t],
            ) by {
                if t < prev.len() {
                    assert(out.deep_view()[t] == prev[t]);
                }
            }
        }
        i = i + 1;
    }
    out
}

/// Replace every quoted braced GUID with a fresh random identifier.
fn regen_guid_tokens(s: &Vec<char>) -> (r: Vec<char>)
    ensures
        exists|ids: Seq<Seq<char>>|
            #![auto]
            (forall|t: int|
                0 <= t < ids.len() ==> crate::etgen::is_token16(#[trigger] ids[t])) && r@
                == spec_regen_from(s@, ids, 0, 0),
{
    let cnt = count_guid_toks(s);
    let ids = fresh_ids(cnt);
    let r = regen_with(s, &ids);
    proof {
        assert(r@ == spec_regen_from(s@, ids.deep_view(), 0, 0));
    }
    r
}

/// The deterministic renames done before the GUID regeneration.
pub open spec fn spec_clone_pre(block: Seq<char>, src: char, new: char) -> Seq<char> {
    let a = spec_replace(block, partid_pat(src), partid_pat(new));
    let b = spec_replace(a, qletter_pat(src), qletter_pat(new));
    spec_renum_from(b, src, new, 0)
}

/// The marker renames done after the GUID regeneration.
pub open spec fn spec_clone_post(t: Seq<char>, src: char, new: char) -> Seq<char> {
    let d = spec_replace(t, debris_marker(src), debris_marker(new));
    spec_replace(d, colliders_marker(src), colliders_marker(new))
}

/// `out` is a clone of `block` relabeled from `src` to `new`: the `PartId`
/// field, quoted letter tokens (digits kept), and zone markers renamed, and
/// every quoted braced GUID replaced by some fresh 16-hex-digit token.
pub open spec fn is_clone_of(block: Seq<char>, src: char, new: char, out: Seq<char>) -> bool {
    exists|ids: Seq<Seq<char>>|
        #![auto]
        (forall|t: int| 0 <= t < ids.len() ==> crate::etgen::is_token16(#[trigger] ids[t])) && out
            == spec_clone_post(spec_regen_from(spec_clone_pre(block, src, new), ids, 0, 0), src, new)
}

/// Clone a zone block under a new letter.
pub fn clone_fractalpart_block(block: &str, src_letter: char, new_letter: char) -> (r: String)
    ensures
        is_clone_of(block@, src_letter, new_letter, r@),
{
    let cs = chars_of(block);
    let mut pat1: Vec<char> = chars_of("PartId \"");
    pat1.push(src_letter);
    pat1.push('"');
    let mut rep1: Vec<char> = chars_of("PartId \"");
    rep1.push(new_letter);
    rep1.push('"');
    assert(pat1@ =~= partid_pat(src_letter));
    assert(rep1@ =~= partid_pat(new_letter));
    let a = replace_all(&cs, &pat1, &rep1);
    let pat2: Vec<char> = vec!['"', src_letter, '"'];
    let rep2: Vec<char> = vec!['"', new_letter, '"'];
    assert(pat2@ =~= qletter_pat(src_letter));
    assert(rep2@ =~= qletter_pat(new_letter));
    let b = replace_all(&a, &pat2, &rep2);
    let c = renum_letter_tokens(&b, src_letter, new_letter);
    let d = regen_guid_tokens(&c);
    let mut pat3: Vec<char> = chars_of("{{DEBRIS_ID-");
    pat3.push(src_letter);
    push_all(&mut pat3, &chars_of("}}"));
    let mut rep3: Vec<char> = chars_of("{{DEBRIS_ID-");
    rep3.push(new_letter);
    push_all(&mut rep3, &chars_of("}}"));
    assert(pat3@ =~= debris_marker(src_letter));
    assert(rep3@ =~= debris_marker(new_letter));
    let e = replace_all(&d, &pat3, &rep3);
    let mut pat4: Vec<char> = chars_of("{{COLLIDERS_ID-");
    pat4.push(src_letter);
    push_all(&mut pat4, &chars_of("}}"));
    let mut rep4: Vec<char> = chars_of("{{COLLIDERS_ID-");
    rep4.push(new_letter);
    push_all(&mut rep4, &chars_of("}}"));
    assert(pat4@ =~= colliders_marker(src_letter));
    assert(rep4@ =~= colliders_marker(new_letter));
    let f = replace_all(&e, &pat4, &rep4);
    proof {
        let ids = choose|ids: Seq<Seq<char>>|
            #![auto]
            (forall|t: int|
                0 <= t < ids.len() ==> crate::etgen::is_token16(#[trigger] ids[t])) && d@
                == spec_regen_from(c@, ids, 0, 0);
        assert(c@ == spec_clone_pre(block@, src_letter, new_letter));
        assert(f@ == spec_clone_post(spec_regen_from(spec_clone_pre(
            block@,
            src_letter,
            new_letter,
        ), ids, 0, 0), src_letter, new_letter));
    }
    string_of(&f)
}

/// The zone letter for index `i`: `A` through `Z`.
pub open spec fn spec_letter_at(i: int) -> char {
    ((65 + i) as u8) as char
}

/// The last block tagged with `c`, as the reconciliation sees it.
pub open spec fn spec_lookup_block(blocks: Seq<(char, Seq<char>)>, c: char) -> Option<Seq<char>>
    decreases blocks.len(),
{
    if blocks.len() == 0 {
        None
    } else if blocks.last().0 == c {
        Some(blocks.last().1)
    } else {
        spec_lookup_block(blocks.drop_last(), c)
    }
}

/// The last block carrying a well-formed `PartId` tag.
pub open spec fn spec_tagged_tmpl(blocks: Seq<(char, Seq<char>)>) -> Option<(char, Seq<char>)>
    decreases blocks.len(),
{
    if blocks.len() == 0 {
        None
    } else if spec_part_tag(blocks.last().1, 0) is Some {
        Some(blocks.last())
    } else {
        spec_tagged_tmpl(blocks.drop_last())
    }
}

/// The clone template: the last tagged block, else the last block at all.
pub open spec fn spec_tmpl_of(blocks: Seq<(char, Seq<char>)>) -> Option<(char, Seq<char>)> {
    match spec_tagged_tmpl(blocks) {
        Some(t) => Some(t),
        None => if blocks.len() > 0 {
            Some(blocks.last())
        } else {
            None
        },
    }
}

/// `out` holds, for each letter from index `i` up to `desired`, the existing
/// block for that letter or a clone of the template relabeled to it;
/// letters with neither are skipped (possible only without a template).
pub open spec fn is_kept_from(
    blocks: Seq<(char, Seq<char>)>,
    tmpl: Option<(char, Seq<char>)>,
    desired: int,
    i: int,
    out: Seq<Seq<char>>,
) -> bool
    decreases desired - i,
{
    if i >= desired {
        out.len() == 0
    } else {
        match spec_lookup_block(blocks, spec_letter_at(i)) {
            Some(b) => out.len() > 0 && out[0] == b && is_kept_from(
                blocks,
                tmpl,
                desired,
                i + 1,
                out.drop_first(),
            ),
            None => match tmpl {
                Some(t) => out.len() > 0 && is_clone_of(t.1, t.0, spec_letter_at(i), out[0])
                    && is_kept_from(blocks, tmpl, desired, i + 1, out.drop_first()),
                None => is_kept_from(blocks, tmpl, desired, i + 1, out),
            },
        }
    }
}

/// With a template available, reconciliation yields exactly one block per
/// requested letter: the zone-count invariant.
pub proof fn lemma_zone_count(
    blocks: Seq<(char, Seq<char>)>,
    tmpl: Option<(char, Seq<char>)>,
    desired: int,
    i: int,
    kept: Seq<Seq<char>>,
)
    requires
        tmpl is Some,
        i <= desired,
        is_kept_from(blocks, tmpl, desired, i, kept),
    ensures
        kept.len() == desired - i,
    decreases desired - i,
{
    if i < desired {
        match spec_lookup_block(blocks, spec_letter_at(i)) {
            Some(_) => {
                lemma_zone_count(blocks, tmpl, desired, i + 1, kept.drop_first());
            },
            None => {
                lemma_zone_count(blocks, tmpl, desired, i + 1, kept.drop_first());
            },
        }
    }
}

/// A nonempty block list always yields a template.
pub proof fn lemma_tmpl_some(blocks: Seq<(char, Seq<char>)>)
    ensures
        blocks.len() > 0 ==> spec_tmpl_of(blocks) is Some,
{
}

/// The requested count clamped to the 1 to 26 letters available.
pub open spec fn spec_clamp_zones(n: int) -> int {
    if n < 1 {
        1
    } else if n > 26 {
        26
    } else {
        n
    }
}

/// The lines of all blocks, in order.
pub open spec fn spec_flat_lines(blocks: Seq<Seq<char>>) -> Seq<Seq<char>>
    decreases blocks.len(),
{
    if blocks.len() == 0 {
        Seq::empty()
    } else {
        spec_flat_lines(blocks.drop_last()) + spec_lines(blocks.last())
    }
}

/// Some line has content once trimmed.
pub open spec fn spec_any_nonblank(ls: Seq<Seq<char>>) -> bool {
    exists|i: int| 0 <= i < ls.len() && spec_trim(#[trigger] ls[i]).len() != 0
}

/// The reassembled text around the `FractalParts` interior.
pub open spec fn spec_zone_assembly(
    t: Seq<char>,
    open: int,
    close: int,
    inner_lines: Seq<Seq<char>>,
) -> Seq<char> {
    let nl = crate::etgen::spec_newline(t);
    t.subrange(0, open + 1) + nl + spec_join(inner_lines, nl) + nl + t.subrange(
        close,
        t.len() as int,
    )
}

/// What zone-count reconciliation guarantees: the request clamped to 1..=26;
/// the interior rebuilt from one block per letter (existing blocks kept
/// verbatim, missing ones cloned from the template), followed by the other
/// lines when any is non-blank; text without a `FractalParts` block kept
/// unchanged.
pub open spec fn is_zone_ensured(t: Seq<char>, desired_raw: int, out: Seq<char>) -> bool {
    let desired = spec_clamp_zones(desired_raw);
    match spec_fractal_bounds(t) {
        None => out == t,
        Some((open, close, kw)) => {
            let inner = t.subrange(open + 1, close);
            let parts = spec_extract_blocks(
                spec_lines(inner),
                0,
                crate::etgen::spec_newline(inner),
            );
            let blocks = spec_sort_blocks(parts.0);
            let tmpl = spec_tmpl_of(blocks);
            exists|kept: Seq<Seq<char>>|
                #![auto]
                is_kept_from(blocks, tmpl, desired, 0, kept) && out == spec_zone_assembly(
                    t,
                    open,
                    close,
                    spec_flat_lines(kept) + (if spec_any_nonblank(parts.1) {
                        parts.1
                    } else {
                        Seq::<Seq<char>>::empty()
                    }),
                )
        },
    }
}

/// The last block tagged `c`, if any.
fn lookup_block(blocks: &Vec<(char, String)>, c: char) -> (r: Option<String>)
    ensures
        match r {
            Some(b) => spec_lookup_block(blocks.deep_view(), c) == Some(b@),
            None => spec_lookup_block(blocks.deep_view(), c) is None,
        },
{
    let ghost dv = blocks.deep_view();
    let n = blocks.len();
    let mut hi = n;
    proof {
        assert(dv.subrange(0, n as int) =~= dv);
    }
    while hi > 0
        invariant
            hi <= n,
            n == blocks@.len(),
            dv == blocks.deep_view(),
            dv.len() == n,
            spec_lookup_block(dv, c) == spec_lookup_block(dv.subrange(0, hi as int), c),
        decreases hi,
    {
        proof {
            assert(dv.subrange(0, hi as int).last() == dv[hi - 1]);
            assert(dv[hi - 1] == (blocks@[hi - 1].0, blocks@[hi - 1].1@));
            assert(dv.subrange(0, hi as int).drop_last() =~= dv.subrange(0, hi - 1));
        }
        if blocks[hi - 1].0 == c {
            return Some(blocks[hi - 1].1.clone());
        }
        hi = hi - 1;
    }
    None
}

/// The clone template among the blocks.
fn template_of(blocks: &Vec<(char, String)>) -> (r: Option<(char, String)>)
    ensures
        match r {
            Some(t) => spec_tmpl_of(blocks.deep_view()) == Some((t.0, t.1@)),
            None => spec_tmpl_of(blocks.deep_view()) is None,
        },
{
    let ghost dv = blocks.deep_view();
    let n = blocks.len();
    let mut hi = n;
    proof {
        assert(dv.subrange(0, n as int) =~= dv);
    }
    while hi > 0
        invariant
            hi <= n,
            n == blocks@.len(),
            dv == blocks.deep_view(),
            dv.len() == n,
            spec_tagged_tmpl(dv) == spec_tagged_tmpl(dv.subrange(0, hi as int)),
        decreases hi,
    {
        proof {
            assert(dv.subrange(0, hi as int).last() == dv[hi - 1]);
            assert(dv[hi - 1] == (blocks@[hi - 1].0, blocks@[hi - 1].1@));
            assert(dv.subrange(0, hi as int).drop_last() =~= dv.subrange(0, hi - 1));
        }
        let bc = chars_of(blocks[hi - 1].1.as_str());
        if part_tag_of(&bc).is_some() {
            return Some((blocks[hi - 1].0, blocks[hi - 1].1.clone()));
        }
        hi = hi - 1;
    }
    if n > 0 {
        proof {
            assert(dv.last() == (blocks@[n - 1].0, blocks@[n - 1].1@));
        }
        Some((blocks[n - 1].0, blocks[n - 1].1.clone()))
    } else {
        None
    }
}

/// Keep an existing block per letter or clone the template, then rebuild
/// the `FractalParts` interior so exactly the requested zones exist.
pub fn ensure_fractalparts_zone_count(text: &str, desired_count: usize) -> (r: String)
    ensures
        is_zone_ensured(text@, desired_count as int, r@),
{
    let desired: usize = if desired_count < 1 {
        1
    } else if desired_count > 26 {
        26
    } else {
        desired_count
    };
    match find_fractalparts_bounds(text) {
        None => text.to_owned(),
        Some((open, close, _kw)) => {
            let cs = chars_of(text);
            let nl = crate::etgen::detect_newline(text);
            let nlv = chars_of(nl);
            let inner_s = string_of(&subrange_vec(&cs, open + 1, close));
            let parts = extract_fractalpart_blocks(inner_s.as_str());
            let blocks = parts.0;
            let others = parts.1;
            let ghost bdv = blocks.deep_view();
            let tmpl = template_of(&blocks);
            let ghost tmplv: Option<(char, Seq<char>)> = match tmpl {
                Some(ref t) => Some((t.0, t.1@)),
                None => None,
            };
            let mut kept: Vec<String> = Vec::new();
            let mut i: usize = desired;
            proof {
                assert(is_kept_from(bdv, tmplv, desired as int, desired as int,
                    kept.deep_view()));
            }
            while i > 0
                invariant
                    i <= desired,
                    desired <= 26,
                    bdv == blocks.deep_view(),
                    tmplv == (match tmpl {
                        Some(ref t) => Some((t.0, t.1@)),
                        None => None,
                    }),
                    is_kept_from(bdv, tmplv, desired as int, i as int, kept.deep_view()),
                decreases i,
            {
                let idx = i - 1;
                let letter: char = ((65 + (idx as u8)) as u8) as char;
                proof {
                    assert(letter == spec_letter_at(idx as int));
                }
                let ghost prev = kept.deep_view();
                match lookup_block(&blocks, letter) {
                    Some(b) => {
                        kept.insert(0, b);
                        proof {
                            assert(kept.deep_view() =~~= seq![
                                spec_lookup_block(bdv, spec_letter_at(idx as int))->0,
                            ] + prev);
                            assert(kept.deep_view().drop_first() =~~= prev);
                        }
                    },
                    None => {
                        match &tmpl {
                            Some(t) => {
                                let cl = clone_fractalpart_block(t.1.as_str(), t.0, letter);
                                kept.insert(0, cl.clone());
                                proof {
                                    assert(kept.deep_view()[0] == cl@);
                                    assert(kept.deep_view().drop_first() =~~= prev);
                                }
                            },
                            None => {},
                        }
                    },
                }
                i = idx;
            }
            // Rebuild the interior lines.
            let mut inner_lines: Vec<Vec<char>> = Vec::new();
            let kn = kept.len();
            let mut b: usize = 0;
            proof {
                assert(inner_lines.deep_view() =~~= spec_flat_lines(
                    kept.deep_view().subrange(0, 0),
                ));
            }
            while b < kn
                invariant
                    b <= kn,
                    kn == kept@.len(),
                    kept.deep_view().len() == kn,
                    inner_lines.deep_view() == spec_flat_lines(
                        kept.deep_view().subrange(0, b as int),
                    ),
                decreases kn - b,
            {
                let bc = chars_of(kept[b].as_str());
                let bls = split_lines(&bc);
                let mut t: usize = 0;
                let bln = bls.len();
                let ghost base = inner_lines.deep_view();
                while t < bln
                    invariant
                        t <= bln,
                        bln == bls@.len(),
                        bls.deep_view().len() == bln,
                        inner_lines.deep_view() == base + bls.deep_view().subrange(0, t as int),
                    decreases bln - t,
                {
                    let ghost prev = inner_lines.deep_view();
                    inner_lines.push(bls[t].clone());
                    proof {
                        assert(inner_lines.deep_view() =~~= prev.push(
                            bls.deep_view()[t as int],
                        ));
                        assert(inner_lines.deep_view() =~= base + bls.deep_view().subrange(
                            0,
                            t + 1,
                        ));
                    }
                    t = t + 1;
                }
                proof {
                    assert(bls.deep_view().subrange(0, bln as int) =~= bls.deep_view());
                    assert(bls.deep_view() == spec_lines(kept.deep_view()[b as int])) by {
                        assert(kept.deep_view()[b as int] == kept@[b as int]@);
                    }
                    assert(kept.deep_view().subrange(0, b + 1).drop_last() =~= kept.deep_view()
                        .subrange(0, b as int));
                    assert(kept.deep_view().subrange(0, b + 1).last() == kept.deep_view()[
                        b as int
                    ]);
                    assert(inner_lines.deep_view() =~= spec_flat_lines(
                        kept.deep_view().subrange(0, b + 1),
                    ));
                }
                b = b + 1;
            }
            proof {
                assert(kept.deep_view().subrange(0, kn as int) =~= kept.deep_view());
            }
            // Append the other lines when any is non-blank.
            let on = others.len();
            let mut any = false;
            let mut q: usize = 0;
            while q < on
                invariant
                    q <= on,
                    on == others@.len(),
                    others.deep_view().len() == on,
                    any == exists|x: int|
                        0 <= x < q && spec_trim(#[trigger] others.deep_view()[x]).len() != 0,
                decreases on - q,
            {
                proof {
                    assert(others.deep_view()[q as int] == others@[q as int]@);
                }
                let oc = chars_of(others[q].as_str());
                let tr = trim_vec(&oc);
                if tr.len() != 0 {
                    any = true;
                }
                q = q + 1;
            }
            proof {
                assert(any == spec_any_nonblank(others.deep_view()));
            }
            let ghost flat = inner_lines.deep_view();
            if any {
                let mut q2: usize = 0;
                let ghost base2 = inner_lines.deep_view();
                while q2 < on
                    invariant
                        q2 <= on,
                        on == others@.len(),
                        others.deep_view().len() == on,
                        inner_lines.deep_view() == base2 + others.deep_view().subrange(
                            0,
                            q2 as int,
                        ),
                    decreases on - q2,
                {
                    let ghost prev = inner_lines.deep_view();
                    let oc = chars_of(others[q2].as_str());
                    inner_lines.push(oc);
                    proof {
                        assert(inner_lines.deep_view() =~~= prev.push(
                            others.deep_view()[q2 as int],
                        ));
                        assert(inner_lines.deep_view() =~= base2 + others.deep_view().subrange(
                            0,
                            q2 + 1,
                        ));
                    }
                    q2 = q2 + 1;
                }
                proof {
                    assert(others.deep_view().subrange(0, on as int) =~= others.deep_view());
                }
            }
            let joined = crate::text::join_all(&inner_lines, &nlv);
            let mut out: Vec<char> = subrange_vec(&cs, 0, open + 1);
            push_all(&mut out, &nlv);
            push_all(&mut out, &joined);
            push_all(&mut out, &nlv);
            let tail = subrange_vec(&cs, close, cs.len());
            push_all(&mut out, &tail);
            proof {
                assert(out@ == spec_zone_assembly(
                    text@,
                    open as int,
                    close as int,
                    flat + (if spec_any_nonblank(others.deep_view()) {
                        others.deep_view()
                    } else {
                        Seq::<Seq<char>>::empty()
                    }),
                )) by {
                    if any {
                        assert(inner_lines.deep_view() == flat + others.deep_view());
                    } else {
                        assert(inner_lines.deep_view() =~~= flat + Seq::<Seq<char>>::empty());
                    }
                }
            }
            proof {
                let inner = text@.subrange(open + 1, close as int);
                assert(inner_s@ == inner);
                let partsx = spec_extract_blocks(
                    spec_lines(inner),
                    0,
                    crate::etgen::spec_newline(inner),
                );
                assert(blocks.deep_view() == spec_sort_blocks(partsx.0));
                assert(others.deep_view() == partsx.1);
                assert(spec_tmpl_of(blocks.deep_view()) == tmplv);
                assert(desired as int == spec_clamp_zones(desired_count as int));
                assert(is_kept_from(
                    spec_sort_blocks(partsx.0),
                    spec_tmpl_of(spec_sort_blocks(partsx.0)),
                    spec_clamp_zones(desired_count as int),
                    0,
                    kept.deep_view(),
                ));
                assert(is_zone_ensured(text@, desired_count as int, out@));
            }
            string_of(&out)
        },
    }
}

/// A line's `MaxHealth <number>` field rewritten to `hp`; anything after
/// the number stays.
pub open spec fn spec_hp_line(l: Seq<char>, hp: int) -> Seq<char> {
    let t = scan_sp(l, 0);
    if match_at(l, "MaxHealth"@, t) {
        let u = t + 9;
        let v = scan_sp(l, u);
        if v > u {
            let w = scan_digits(l, v);
            if w > v {
                let w2 = if w < l.len() && l[w] == '.' && scan_digits(l, w + 1) > w + 1 {
                    scan_digits(l, w + 1)
                } else {
                    w
                };
                l.subrange(0, u) + seq![' '] + spec_dec(hp) + l.subrange(w2, l.len() as int)
            } else {
                l
            }
        } else {
            l
        }
    } else {
        l
    }
}

/// A block with every `MaxHealth` line rewritten.
pub open spec fn spec_hp_block(b: Seq<char>, hp: int, nl: Seq<char>) -> Seq<char> {
    spec_join(spec_lines(b).map_values(|l: Seq<char>| spec_hp_line(l, hp)), nl)
}

/// The blocks of the `FractalParts` interior rewritten to carry `hp`, the
/// other lines kept when any is non-blank; text without the block is kept
/// unchanged.
pub open spec fn is_hp_applied(t: Seq<char>, hp: int, out: Seq<char>) -> bool {
    match spec_fractal_bounds(t) {
        None => out == t,
        Some((open, close, kw)) => {
            let inner = t.subrange(open + 1, close);
            let nl_inner = crate::etgen::spec_newline(inner);
            let parts = spec_extract_blocks(spec_lines(inner), 0, nl_inner);
            let blocks = spec_sort_blocks(parts.0);
            let rewritten = Seq::new(
                blocks.len(),
                |k: int| spec_hp_block(blocks[k].1, hp, nl_inner),
            );
            out == spec_zone_assembly(
                t,
                open,
                close,
                spec_flat_lines(rewritten) + (if spec_any_nonblank(parts.1) {
                    parts.1
                } else {
                    Seq::<Seq<char>>::empty()
                }),
            )
        },
    }
}

/// Rewrite one line's health field.
fn hp_line_exec(l: &Vec<char>, hp: u32) -> (r: Vec<char>)
    requires
        1 <= hp <= 9999,
    ensures
        r@ == spec_hp_line(l@, hp as int),
{
    let n = l.len();
    let t = scan_sp_exec(l, 0);
    let pat = chars_of("MaxHealth");
    if !starts_with_at(l, &pat, t) {
        return subrange_vec(l, 0, n);
    }
    proof {
        assert(t + 9 <= n) by {
            assert(match_at(l@, "MaxHealth"@, t as int));
            assert("MaxHealth"@.len() == 9) by {
                reveal_strlit("MaxHealth");
            }
        }
    }
    let u = t + 9;
    let v = scan_sp_exec(l, u);
    if !(v > u) {
        return subrange_vec(l, 0, n);
    }
    let w = scan_digits_exec(l, v);
    if !(w > v) {
        return subrange_vec(l, 0, n);
    }
    let w2 = if w < n && l[w] == '.' {
        let f = scan_digits_exec(l, w + 1);
        if f > w + 1 {
            f
        } else {
            w
        }
    } else {
        w
    };
    let mut out = subrange_vec(l, 0, u);
    out.push(' ');
    let d = dec_u32(hp);
    push_all(&mut out, &d);
    let tail = subrange_vec(l, w2, n);
    push_all(&mut out, &tail);
    proof {
        assert(out@ =~= spec_hp_line(l@, hp as int));
    }
    out
}

/// Rewrite one block's health lines.
fn hp_block_exec(b: &str, hp: u32, nlv: &Vec<char>) -> (r: String)
    requires
        1 <= hp <= 9999,
    ensures
        r@ == spec_hp_block(b@, hp as int, nlv@),
{
    let bc = chars_of(b);
    let bls = split_lines(&bc);
    let n = bls.len();
    let mut out: Vec<Vec<char>> = Vec::new();
    let mut i: usize = 0;
    proof {
        assert(out.deep_view() =~~= bls.deep_view().subrange(0, 0).map_values(
            |l: Seq<char>| spec_hp_line(l, hp as int),
        ));
    }
    while i < n
        invariant
            i <= n,
            n == bls@.len(),
            bls.deep_view().len() == n,
            1 <= hp <= 9999,
            out.deep_view() == bls.deep_view().subrange(0, i as int).map_values(
                |l: Seq<char>| spec_hp_line(l, hp as int),
            ),
        decreases n - i,
    {
        let nw = hp_line_exec(&bls[i], hp);
        let ghost prev = out.deep_view();
        out.push(nw);
        proof {
            assert(bls.deep_view()[i as int] == bls@[i as int]@);
            assert(out.deep_view() =~~= prev.push(spec_hp_line(
                bls.deep_view()[i as int],
                hp as int,
            )));
            assert(bls.deep_view().subrange(0, i + 1).drop_last() =~= bls.deep_view().subrange(
                0,
                i as int,
            ));
            assert(out.deep_view() =~= bls.deep_view().subrange(0, i + 1).map_values(
                |l: Seq<char>| spec_hp_line(l, hp as int),
            ));
        }
        i = i + 1;
    }
    proof {
        assert(bls.deep_view().subrange(0, n as int) =~= bls.deep_view());
    }
    let joined = crate::text::join_all(&out, nlv);
    string_of(&joined)
}

/// Rewrite the numeric health field of every zone block to `hp`, which the
/// callers clamp to the sane positive range.
pub fn apply_zone_hp(text: &str, hp: u32) -> (r: String)
    requires
        1 <= hp <= 9999,
    ensures
        is_hp_applied(text@, hp as int, r@),
{
    match find_fractalparts_bounds(text) {
        None => text.to_owned(),
        Some((open, close, _kw)) => {
            let cs = chars_of(text);
            let nl = crate::etgen::detect_newline(text);
            let nlv = chars_of(nl);
            let inner_s = string_of(&subrange_vec(&cs, open + 1, close));
            let nl_inner = crate::etgen::detect_newline(inner_s.as_str());
            let nl_inner_v = chars_of(nl_inner);
            let parts = extract_fractalpart_blocks(inner_s.as_str());
            let blocks = parts.0;
            let others = parts.1;
            let ghost bdv = blocks.deep_view();
            let bn = blocks.len();
            let mut rewritten: Vec<String> = Vec::new();
            let mut i: usize = 0;
            let ghost rw = Seq::new(bdv.len(), |k: int| spec_hp_block(
                bdv[k].1,
                hp as int,
                nl_inner_v@,
            ));
            proof {
                assert(rewritten.deep_view() =~~= rw.subrange(0, 0));
            }
            while i < bn
                invariant
                    i <= bn,
                    bn == blocks@.len(),
                    bdv == blocks.deep_view(),
                    bdv.len() == bn,
                    1 <= hp <= 9999,
                    rw == Seq::new(bdv.len(), |k: int| spec_hp_block(
                        bdv[k].1,
                        hp as int,
                        nl_inner_v@,
                    )),
                    rewritten.deep_view() == rw.subrange(0, i as int),
                decreases bn - i,
            {
                let nb = hp_block_exec(blocks[i].1.as_str(), hp, &nl_inner_v);
                let ghost prev = rewritten.deep_view();
                rewritten.push(nb);
                proof {
                    assert(bdv[i as int].1 == blocks@[i as int].1@);
                    assert(rewritten.deep_view() =~~= prev.push(rw[i as int]));
                    assert(rewritten.deep_view() =~= rw.subrange(0, i + 1));
                }
                i = i + 1;
            }
            proof {
                assert(rewritten.deep_view() =~= rw) by {
                    assert(rw.subrange(0, bn as int) =~= rw);
                }
            }
            // Flatten into lines.
            let mut inner_lines: Vec<Vec<char>> = Vec::new();
            let kn = rewritten.len();
            let mut b: usize = 0;
            proof {
                assert(inner_lines.deep_view() =~~= spec_flat_lines(
                    rewritten.deep_view().subrange(0, 0),
                ));
            }
            while b < kn
                invariant
                    b <= kn,
                    kn == rewritten@.len(),
                    rewritten.deep_view().len() == kn,
                    inner_lines.deep_view() == spec_flat_lines(
                        rewritten.deep_view().subrange(0, b as int),
                    ),
                decreases kn - b,
            {
                let bc = chars_of(rewritten[b].as_str());
                let bls = split_lines(&bc);
                let mut t: usize = 0;
                let bln = bls.len();
                let ghost base = inner_lines.deep_view();
                while t < bln
                    invariant
                        t <= bln,
                        bln == bls@.len(),
                        bls.deep_view().len() == bln,
                        inner_lines.deep_view() == base + bls.deep_view().subrange(0, t as int),
                    decreases bln - t,
                {
                    let ghost prev = inner_lines.deep_view();
                    inner_lines.push(bls[t].clone());
                    proof {
                        assert(inner_lines.deep_view() =~~= prev.push(
                            bls.deep_view()[t as int],
                        ));
                        assert(inner_lines.deep_view() =~= base + bls.deep_view().subrange(
                            0,
                            t + 1,
                        ));
                    }
                    t = t + 1;
                }
                proof {
                    assert(bls.deep_view().subrange(0, bln as int) =~= bls.deep_view());
                    assert(bls.deep_view() == spec_lines(rewritten.deep_view()[b as int])) by {
                        assert(rewritten.deep_view()[b as int] == rewritten@[b as int]@);
                    }
                    assert(rewritten.deep_view().subrange(0, b + 1).drop_last()
                        =~= rewritten.deep_view().subrange(0, b as int));
                    assert(rewritten.deep_view().subrange(0, b + 1).last()
                        == rewritten.deep_view()[b as int]);
                    assert(inner_lines.deep_view() =~= spec_flat_lines(
                        rewritten.deep_view().subrange(0, b + 1),
                    ));
                }
                b = b + 1;
            }
            proof {
                assert(rewritten.deep_view().subrange(0, kn as int) =~= rewritten.deep_view());
            }
            let on = others.len();
            let mut any = false;
            let mut q: usize = 0;
            while q < on
                invariant
                    q <= on,
                    on == others@.len(),
                    others.deep_view().len() == on,
                    any == exists|x: int|
                        0 <= x < q && spec_trim(#[trigger] others.deep_view()[x]).len() != 0,
                decreases on - q,
            {
                proof {
                    assert(others.deep_view()[q as int] == others@[q as int]@);
                }
                let oc = chars_of(others[q].as_str());
                let tr = trim_vec(&oc);
                if tr.len() != 0 {
                    any = true;
                }
                q = q + 1;
            }
            proof {
                assert(any == spec_any_nonblank(others.deep_view()));
            }
            let ghost flat = inner_lines.deep_view();
            if any {
                let mut q2: usize = 0;
                let ghost base2 = inner_lines.deep_view();
                while q2 < on
                    invariant
                        q2 <= on,
                        on == others@.len(),
                        others.deep_view().len() == on,
                        inner_lines.deep_view() == base2 + others.deep_view().subrange(
                            0,
                            q2 as int,
                        ),
                    decreases on - q2,
                {
                    let ghost prev = inner_lines.deep_view();
                    let oc = chars_of(others[q2].as_str());
                    inner_lines.push(oc);
                    proof {
                        assert(inner_lines.deep_view() =~~= prev.push(
                            others.deep_view()[q2 as int],
                        ));
                        assert(inner_lines.deep_view() =~= base2 + others.deep_view().subrange(
                            0,
                            q2 + 1,
                        ));
                    }
                    q2 = q2 + 1;
                }
                proof {
                    assert(others.deep_view().subrange(0, on as int) =~= others.deep_view());
                }
            }
            let joined = crate::text::join_all(&inner_lines, &nlv);
            let mut out: Vec<char> = subrange_vec(&cs, 0, open + 1);
            push_all(&mut out, &nlv);
            push_all(&mut out, &joined);
            push_all(&mut out, &nlv);
            let tail = subrange_vec(&cs, close, cs.len());
            push_all(&mut out, &tail);
            proof {
                let inner = text@.subrange(open + 1, close as int);
                assert(inner_s@ == inner);
                assert(nl_inner_v@ == crate::etgen::spec_newline(inner));
                let partsx = spec_extract_blocks(
                    spec_lines(inner),
                    0,
                    crate::etgen::spec_newline(inner),
                );
                assert(bdv == spec_sort_blocks(partsx.0));
                assert(others.deep_view() == partsx.1);
                assert(rw =~= Seq::new(
                    spec_sort_blocks(partsx.0).len(),
                    |k: int| spec_hp_block(
                        spec_sort_blocks(partsx.0)[k].1,
                        hp as int,
                        crate::etgen::spec_newline(inner),
                    ),
                ));
                if any {
                    assert(inner_lines.deep_view() == flat + others.deep_view());
                } else {
                    assert(inner_lines.deep_view() =~~= flat + Seq::<Seq<char>>::empty());
                }
                assert(out@ == spec_zone_assembly(
                    text@,
                    open as int,
                    close as int,
                    flat + (if spec_any_nonblank(partsx.1) {
                        partsx.1
                    } else {
                        Seq::<Seq<char>>::empty()
                    }),
                ));
                assert(is_hp_applied(text@, hp as int, out@));
            }
            string_of(&out)
        },
    }
}

/// A quoted field marker: `<label>...<needle>..."` with no newline inside
/// the quotes. Each such field is replaced whole by `rep`.
pub open spec fn spec_field_marker_from(
    s: Seq<char>,
    label: Seq<char>,
    needle: Seq<char>,
    rep: Seq<char>,
    pos: int,
) -> Seq<char>
    decreases s.len() - pos,
    via spec_field_marker_from_decreases
{
    if pos < 0 || pos > s.len() || label.len() == 0 {
        Seq::empty()
    } else {
        match spec_find(s, label, pos) {
            None => s.subrange(pos, s.len() as int),
            Some(i) => {
                let q1 = i + label.len();
                match spec_find(s, seq!['"'], q1 as int) {
                    None => s.subrange(pos, s.len() as int),
                    Some(q2) => {
                        let quoted = s.subrange(q1 as int, q2);
                        if spec_find(quoted, seq!['\n'], 0) is None && spec_find(
                            quoted,
                            needle,
                            0,
                        ) is Some {
                            s.subrange(pos, i) + rep + spec_field_marker_from(
                                s,
                                label,
                                needle,
                                rep,
                                q2 + 1,
                            )
                        } else {
                            s.subrange(pos, i + 1) + spec_field_marker_from(
                                s,
                                label,
                                needle,
                                rep,
                                i + 1,
                            )
                        }
                    },
                }
            },
        }
    }
}

#[via_fn]
proof fn spec_field_marker_from_decreases(
    s: Seq<char>,
    label: Seq<char>,
    needle: Seq<char>,
    rep: Seq<char>,
    pos: int,
) {
    lemma_find_some_bounds(s, label, pos);
    if 0 <= pos <= s.len() && label.len() > 0 {
        match spec_find(s, label, pos) {
            Some(i) => {
                lemma_find_some_bounds(s, seq!['"'], i + label.len());
            },
            None => {},
        }
    }
}

/// Replace each marked quoted field.
fn replace_field_marker(
    s: &Vec<char>,
    label: &Vec<char>,
    needle: &Vec<char>,
    rep: &Vec<char>,
) -> (r: Vec<char>)
    requires
        label@.len() > 0,
    ensures
        r@ == spec_field_marker_from(s@, label@, needle@, rep@, 0),
{
    let n = s.len();
    let quote: Vec<char> = vec!['"'];
    assert(quote@ =~= seq!['"']);
    let nlpat: Vec<char> = vec!['\n'];
    assert(nlpat@ =~= seq!['\n']);
    let mut out: Vec<char> = Vec::new();
    let mut pos: usize = 0;
    proof {
        assert(out@ + spec_field_marker_from(s@, label@, needle@, rep@, 0)
            =~= spec_field_marker_from(s@, label@, needle@, rep@, 0));
    }
    while pos <= n
        invariant
            pos <= n + 1,
            n == s@.len(),
            label@.len() > 0,
            quote@ == seq!['"'],
            nlpat@ == seq!['\n'],
            spec_field_marker_from(s@, label@, needle@, rep@, 0) == out@
                + spec_field_marker_from(s@, label@, needle@, rep@, pos as int),
        decreases n + 1 - pos,
    {
        match find_sub(s, label, pos) {
            None => {
                let tail = subrange_vec(s, pos, n);
                push_all(&mut out, &tail);
                return out;
            },
            Some(i) => {
                proof {
                    lemma_find_some_bounds(s@, label@, pos as int);
                }
                let q1 = i + label.len();
                match find_sub(s, &quote, q1) {
                    None => {
                        let tail = subrange_vec(s, pos, n);
                        push_all(&mut out, &tail);
                        return out;
                    },
                    Some(q2) => {
                        proof {
                            lemma_find_some_bounds(s@, quote@, q1 as int);
                        }
                        let quoted = subrange_vec(s, q1, q2);
                        let ok = find_sub(&quoted, &nlpat, 0).is_none() && find_sub(
                            &quoted,
                            needle,
                            0,
                        ).is_some();
                        if ok {
                            let seg = subrange_vec(s, pos, i);
                            push_all(&mut out, &seg);
                            push_all(&mut out, rep);
                            pos = q2 + 1;
                        } else {
                            let seg = subrange_vec(s, pos, i + 1);
                            push_all(&mut out, &seg);
                            pos = i + 1;
                        }
                    },
                }
            },
        }
    }
    proof {
        assert(spec_field_marker_from(s@, label@, needle@, rep@, pos as int)
            =~= Seq::<char>::empty());
        assert(out@ =~= out@ + Seq::<char>::empty());
    }
    out
}

/// What the object marker becomes: the real base model reference.
pub open spec fn spec_object_rep(guid: Seq<char>, res: Seq<char>) -> Seq<char> {
    "Object \"{"@ + guid + seq!['}'] + res + seq!['"']
}

/// Replace the `Object "...guid from xob input..."` marker with the real
/// `{GUID}path` reference.
pub fn replace_object_marker(text: &str, guid: &str, res: &str) -> (r: String)
    ensures
        r@ == spec_field_marker_from(
            text@,
            "Object \""@,
            "guid from xob input"@,
            spec_object_rep(guid@, res@),
            0,
        ),
{
    let cs = chars_of(text);
    let label = chars_of("Object \"");
    let needle = chars_of("guid from xob input");
    let mut rep = chars_of("Object \"{");
    push_all(&mut rep, &chars_of(guid));
    rep.push('}');
    push_all(&mut rep, &chars_of(res));
    rep.push('"');
    proof {
        assert(rep@ =~= spec_object_rep(guid@, res@));
        reveal_strlit("Object \"");
    }
    string_of(&replace_field_marker(&cs, &label, &needle, &rep))
}

/// What the sibling-model marker becomes.
pub open spec fn spec_model_rep(guid: Seq<char>, res: Seq<char>) -> Seq<char> {
    "Model \"{"@ + guid + seq!['}'] + res + seq!['"']
}

/// Replace the `Model "...same name_v2_dst..."` marker with the sibling
/// model's `{GUID}path` reference.
pub fn replace_v2_model_marker(text: &str, guid: &str, res: &str) -> (r: String)
    ensures
        r@ == spec_field_marker_from(
            text@,
            "Model \""@,
            "same name_v2_dst"@,
            spec_model_rep(guid@, res@),
            0,
        ),
{
    let cs = chars_of(text);
    let label = chars_of("Model \"");
    let needle = chars_of("same name_v2_dst");
    let mut rep = chars_of("Model \"{");
    push_all(&mut rep, &chars_of(guid));
    rep.push('}');
    push_all(&mut rep, &chars_of(res));
    rep.push('"');
    proof {
        assert(rep@ =~= spec_model_rep(guid@, res@));
        reveal_strlit("Model \"");
    }
    string_of(&replace_field_marker(&cs, &label, &needle, &rep))
}

/// How many times `pat` occurs, leftmost non-overlapping.
pub open spec fn spec_count_occ(s: Seq<char>, pat: Seq<char>, pos: int) -> int
    decreases s.len() - pos,
    via spec_count_occ_decreases
{
    if pos < 0 || pos > s.len() {
        0
    } else {
        match spec_find(s, pat, pos) {
            None => 0,
            Some(i) => 1 + spec_count_occ(s, pat, i + pat.len()),
        }
    }
}

#[via_fn]
proof fn spec_count_occ_decreases(s: Seq<char>, pat: Seq<char>, pos: int) {
    lemma_find_some_bounds(s, pat, pos);
}

proof fn lemma_count_occ_nonneg(s: Seq<char>, pat: Seq<char>, pos: int)
    ensures
        spec_count_occ(s, pat, pos) >= 0,
    decreases s.len() - pos,
{
    if 0 <= pos <= s.len() {
        match spec_find(s, pat, pos) {
            None => {},
            Some(i) => {
                lemma_find_some_bounds(s, pat, pos);
                lemma_count_occ_nonneg(s, pat, i + pat.len());
            },
        }
    }
}

/// Count occurrences of `pat`.
fn count_occ(s: &Vec<char>, pat: &Vec<char>) -> (r: usize)
    requires
        pat@.len() > 0,
    ensures
        r == spec_count_occ(s@, pat@, 0),
{
    let n = s.len();
    let mut cnt: usize = 0;
    let mut pos: usize = 0;
    proof {
        lemma_count_occ_nonneg(s@, pat@, 0);
    }
    while pos <= n
        invariant
            pos <= n + 1,
            n == s@.len(),
            pat@.len() > 0,
            cnt + spec_count_occ(s@, pat@, pos as int) == spec_count_occ(s@, pat@, 0),
            spec_count_occ(s@, pat@, pos as int) >= 0,
            cnt <= pos,
        decreases n + 1 - pos,
    {
        match find_sub(s, pat, pos) {
            None => {
                return cnt;
            },
            Some(i) => {
                proof {
                    lemma_find_some_bounds(s@, pat@, pos as int);
                    lemma_count_occ_nonneg(s@, pat@, i + pat@.len());
                }
                cnt = cnt + 1;
                pos = i + pat.len();
            },
        }
    }
    cnt
}

/// Each occurrence of `pat` replaced by `pre + ids[k] + post`, in order.
pub open spec fn spec_fill_from(
    s: Seq<char>,
    pat: Seq<char>,
    pre: Seq<char>,
    post: Seq<char>,
    ids: Seq<Seq<char>>,
    pos: int,
    k: int,
) -> Seq<char>
    decreases s.len() - pos,
    via spec_fill_from_decreases
{
    if pos < 0 || pos > s.len() {
        Seq::empty()
    } else {
        match spec_find(s, pat, pos) {
            None => s.subrange(pos, s.len() as int),
            Some(i) => s.subrange(pos, i) + pre + ids[k] + post + spec_fill_from(
                s,
                pat,
                pre,
                post,
                ids,
                i + pat.len(),
                k + 1,
            ),
        }
    }
}

#[via_fn]
proof fn spec_fill_from_decreases(
    s: Seq<char>,
    pat: Seq<char>,
    pre: Seq<char>,
    post: Seq<char>,
    ids: Seq<Seq<char>>,
    pos: int,
    k: int,
) {
    lemma_find_some_bounds(s, pat, pos);
}

/// Fill each occurrence of `pat` with the next identifier.
fn fill_with(s: &Vec<char>, pat: &Vec<char>, pre: &Vec<char>, post: &Vec<char>, ids: &Vec<
    Vec<char>,
>) -> (r: Vec<char>)
    requires
        pat@.len() > 0,
        ids@.len() >= spec_count_occ(s@, pat@, 0),
    ensures
        r@ == spec_fill_from(s@, pat@, pre@, post@, ids.deep_view(), 0, 0),
{
    let ghost idv = ids.deep_view();
    let m = ids.len();
    let n = s.len();
    let mut out: Vec<char> = Vec::new();
    let mut pos: usize = 0;
    let mut k: usize = 0;
    proof {
        lemma_count_occ_nonneg(s@, pat@, 0);
        assert(out@ + spec_fill_from(s@, pat@, pre@, post@, idv, 0, 0) =~= spec_fill_from(
            s@,
            pat@,
            pre@,
            post@,
            idv,
            0,
            0,
        ));
    }
    while pos <= n
        invariant
            pos <= n + 1,
            k <= m,
            m == ids@.len(),
            n == s@.len(),
            pat@.len() > 0,
            idv == ids.deep_view(),
            idv.len() == m,
            k + spec_count_occ(s@, pat@, pos as int) == spec_count_occ(s@, pat@, 0),
            spec_count_occ(s@, pat@, pos as int) >= 0,
            m >= spec_count_occ(s@, pat@, 0),
            spec_fill_from(s@, pat@, pre@, post@, idv, 0, 0) == out@ + spec_fill_from(
                s@,
                pat@,
                pre@,
                post@,
                idv,
                pos as int,
                k as int,
            ),
        decreases n + 1 - pos,
    {
        match find_sub(s, pat, pos) {
            None => {
                let tail = subrange_vec(s, pos, n);
                push_all(&mut out, &tail);
                return out;
            },
            Some(i) => {
                proof {
                    lemma_find_some_bounds(s@, pat@, pos as int);
                    lemma_count_occ_nonneg(s@, pat@, i + pat@.len());
                    assert(k < m);
                    assert(idv[k as int] == ids@[k as int]@);
                }
                let seg = subrange_vec(s, pos, i);
                push_all(&mut out, &seg);
                push_all(&mut out, pre);
                push_all(&mut out, &ids[k]);
                push_all(&mut out, post);
                proof {
                    assert(spec_fill_from(s@, pat@, pre@, post@, idv, 0, 0) =~= out@
                        + spec_fill_from(
                        s@,
                        pat@,
                        pre@,
                        post@,
                        idv,
                        i + pat@.len(),
                        k + 1,
                    ));
                }
                k = k + 1;
                pos = i + pat.len();
            },
        }
    }
    proof {
        assert(spec_fill_from(s@, pat@, pre@, post@, idv, pos as int, k as int)
            =~= Seq::<char>::empty());
        assert(out@ =~= out@ + Seq::<char>::empty());
    }
    out
}

/// `out` is `s` with every `{gen guid}` marker (braced form, then quoted
/// form) replaced by a fresh braced or quoted random identifier.
pub open spec fn is_guid_markers_filled(s: Seq<char>, out: Seq<char>) -> bool {
    exists|ids1: Seq<Seq<char>>, ids2: Seq<Seq<char>>|
        #![auto]
        (forall|t: int| 0 <= t < ids1.len() ==> crate::etgen::is_token16(#[trigger] ids1[t]))
            && (forall|t: int|
            0 <= t < ids2.len() ==> crate::etgen::is_token16(#[trigger] ids2[t])) && out
            == spec_fill_from(
            spec_fill_from(s, "{gen guid}"@, seq!['{'], seq!['}'], ids1, 0, 0),
            "\"gen guid\""@,
            seq!['"'],
            seq!['"'],
            ids2,
            0,
            0,
        )
}

/// Replace every `{gen guid}` marker, braced or quoted, with a fresh
/// random identifier.
pub fn replace_gen_guid_markers(text: &str) -> (r: String)
    ensures
        is_guid_markers_filled(text@, r@),
{
    let cs = chars_of(text);
    let pat1 = chars_of("{gen guid}");
    let pre1: Vec<char> = vec!['{'];
    let post1: Vec<char> = vec!['}'];
    proof {
        reveal_strlit("{gen guid}");
        assert(pat1@.len() > 0);
    }
    let cnt1 = count_occ(&cs, &pat1);
    let ids1 = fresh_ids(cnt1);
    let a = fill_with(&cs, &pat1, &pre1, &post1, &ids1);
    let pat2 = chars_of("\"gen guid\"");
    let pre2: Vec<char> = vec!['"'];
    let post2: Vec<char> = vec!['"'];
    proof {
        reveal_strlit("\"gen guid\"");
        assert(pat2@.len() > 0);
    }
    let cnt2 = count_occ(&a, &pat2);
    let ids2 = fresh_ids(cnt2);
    let b = fill_with(&a, &pat2, &pre2, &post2, &ids2);
    proof {
        assert(pre1@ =~= seq!['{']);
        assert(post1@ =~= seq!['}']);
        assert(pre2@ =~= seq!['"']);
        assert(post2@ =~= seq!['"']);
        assert(b@ == spec_fill_from(
            spec_fill_from(text@, "{gen guid}"@, seq!['{'], seq!['}'], ids1.deep_view(), 0, 0),
            "\"gen guid\""@,
            seq!['"'],
            seq!['"'],
            ids2.deep_view(),
            0,
            0,
        ));
    }
    string_of(&b)
}

/// Replace every `{gen vec3}` marker with a literal zero vector: the
/// explicit no-random-placement policy.
pub fn replace_gen_vec3_markers(text: &str) -> (r: String)
    ensures
        r@ == spec_replace(text@, "{gen vec3}"@, "0 0 0"@),
{
    let cs = chars_of(text);
    let pat = chars_of("{gen vec3}");
    let rep = chars_of("0 0 0");
    string_of(&replace_all(&cs, &pat, &rep))
}

/// One discovered debris or model reference: its GUID and relative path.
pub struct MetaEntry {
    pub guid: String,
    pub path: String,
}

impl View for MetaEntry {
    type V = (Seq<char>, Seq<char>);

    open spec fn view(&self) -> (Seq<char>, Seq<char>) {
        (self.guid@, self.path@)
    }
}

impl DeepView for MetaEntry {
    type V = (Seq<char>, Seq<char>);

    open spec fn deep_view(&self) -> (Seq<char>, Seq<char>) {
        self@
    }
}

/// The collider tags quoted and joined with single spaces.
pub open spec fn spec_colliders(tags: Seq<Seq<char>>, n: int) -> Seq<char>
    decreases n,
{
    if n <= 0 {
        Seq::empty()
    } else if n == 1 {
        seq!['"'] + tags[0] + seq!['"']
    } else {
        spec_colliders(tags, n - 1) + seq![' ', '"'] + tags[n - 1] + seq!['"']
    }
}

/// The collider list line: quoted tags, or one empty quoted string.
pub open spec fn spec_colliders_line(tags: Seq<Seq<char>>) -> Seq<char> {
    if tags.len() == 0 {
        seq!['"', '"']
    } else {
        spec_colliders(tags, tags.len() as int)
    }
}

/// Render the collider tag list for one zone.
pub fn build_colliders_line(tags: &Vec<String>) -> (r: String)
    ensures
        r@ == spec_colliders_line(tags.deep_view()),
{
    let n = tags.len();
    if n == 0 {
        let mut out: Vec<char> = Vec::new();
        out.push('"');
        out.push('"');
        assert(out@ =~= seq!['"', '"']);
        return string_of(&out);
    }
    let ghost tv = tags.deep_view();
    let mut out: Vec<char> = Vec::new();
    let mut i: usize = 0;
    while i < n
        invariant
            i <= n,
            n == tags@.len(),
            tv == tags.deep_view(),
            tv.len() == n,
            out@ == spec_colliders(tv, i as int),
        decreases n - i,
    {
        proof {
            assert(tv[i as int] == tags@[i as int]@);
        }
        if i > 0 {
            out.push(' ');
        }
        out.push('"');
        push_all(&mut out, &chars_of(tags[i].as_str()));
        out.push('"');
        proof {
            if i == 0 {
                assert(out@ =~= spec_colliders(tv, 1));
            } else {
                assert(out@ =~= spec_colliders(tv, i + 1));
            }
        }
        i = i + 1;
    }
    string_of(&out)
}

/// One debris-info block, without a trailing newline.
pub open spec fn spec_debris_row(
    guid: Seq<char>,
    path: Seq<char>,
    indent: Seq<char>,
    id1: Seq<char>,
    id2: Seq<char>,
) -> Seq<char> {
    indent + "SCR_DebrisInfo \"{"@ + id1 + "}\" {\n"@ + indent + " ModelPrefab \"{"@ + guid
        + seq!['}'] + path + "\"\n"@ + indent + " LocalTransform AttachPoint \"{"@ + id2
        + "}\" {\n"@ + indent + "  Offset 0 0 0\n"@ + indent + "  Angles 0.00001 0 0\n"@
        + indent + " }\n"@ + indent + " m_fMass 500\n"@ + indent + seq!['}']
}

/// The first `n` debris rows, separated by line feeds; each consumes two
/// identifiers.
pub open spec fn spec_debris_rows(
    items: Seq<(Seq<char>, Seq<char>)>,
    indent: Seq<char>,
    ids: Seq<Seq<char>>,
    n: int,
) -> Seq<char>
    decreases n,
{
    if n <= 0 {
        Seq::empty()
    } else if n == 1 {
        spec_debris_row(items[0].0, items[0].1, indent, ids[0], ids[1])
    } else {
        spec_debris_rows(items, indent, ids, n - 1) + seq!['\n'] + spec_debris_row(
            items[n - 1].0,
            items[n - 1].1,
            indent,
            ids[2 * (n - 1)],
            ids[2 * (n - 1) + 1],
        )
    }
}

proof fn lemma_debris_rows_extend(
    items: Seq<(Seq<char>, Seq<char>)>,
    indent: Seq<char>,
    ids: Seq<Seq<char>>,
    x: Seq<char>,
    n: int,
)
    requires
        2 * n <= ids.len(),
    ensures
        spec_debris_rows(items, indent, ids.push(x), n) == spec_debris_rows(
            items,
            indent,
            ids,
            n,
        ),
    decreases n,
{
    if n == 1 {
        assert(ids.push(x)[0] == ids[0] && ids.push(x)[1] == ids[1]);
    } else if n > 1 {
        lemma_debris_rows_extend(items, indent, ids, x, n - 1);
        assert(ids.push(x)[2 * (n - 1)] == ids[2 * (n - 1)]);
        assert(ids.push(x)[2 * (n - 1) + 1] == ids[2 * (n - 1) + 1]);
    }
}

/// Render one zone's debris-info blocks, each with fresh identifiers and
/// neutral defaults for offset, angles and mass.
#[verifier::rlimit(80)]
pub fn build_debris_infos_block(items: &Vec<MetaEntry>, indent: &str) -> (r: String)
    ensures
        items@.len() == 0 ==> r@ == Seq::<char>::empty(),
        exists|ids: Seq<Seq<char>>|
            #![auto]
            (forall|t: int|
                0 <= t < ids.len() ==> crate::etgen::is_token16(#[trigger] ids[t])) && ids.len()
                == 2 * items@.len() && r@ == spec_debris_rows(
                items.deep_view(),
                indent@,
                ids,
                items@.len() as int,
            ),
{
    let n = items.len();
    let ghost idev = items.deep_view();
    let indv = chars_of(indent);
    let mut out: Vec<char> = Vec::new();
    let ghost mut ids: Seq<Seq<char>> = Seq::empty();
    let mut i: usize = 0;
    proof {
        assert(out@ =~= spec_debris_rows(idev, indent@, ids, 0));
    }
    while i < n
        invariant
            i <= n,
            n == items@.len(),
            idev == items.deep_view(),
            idev.len() == n,
            indv@ == indent@,
            ids.len() == 2 * i,
            forall|t: int|
                0 <= t < ids.len() ==> crate::etgen::is_token16(#[trigger] ids[t]),
            out@ == spec_debris_rows(idev, indent@, ids, i as int),
        decreases n - i,
    {
        let id1 = crate::ident::gen_guid16_chars();
        let id2 = crate::ident::gen_guid16_chars();
        if i > 0 {
            out.push('\n');
        }
        push_all(&mut out, &indv);
        push_all(&mut out, &chars_of("SCR_DebrisInfo \"{"));
        push_all(&mut out, &id1);
        push_all(&mut out, &chars_of("}\" {\n"));
        push_all(&mut out, &indv);
        push_all(&mut out, &chars_of(" ModelPrefab \"{"));
        push_all(&mut out, &chars_of(items[i].guid.as_str()));
        out.push('}');
        push_all(&mut out, &chars_of(items[i].path.as_str()));
        push_all(&mut out, &chars_of("\"\n"));
        push_all(&mut out, &indv);
        push_all(&mut out, &chars_of(" LocalTransform AttachPoint \"{"));
        push_all(&mut out, &id2);
        push_all(&mut out, &chars_of("}\" {\n"));
        push_all(&mut out, &indv);
        push_all(&mut out, &chars_of("  Offset 0 0 0\n"));
        push_all(&mut out, &indv);
        push_all(&mut out, &chars_of("  Angles 0.00001 0 0\n"));
        push_all(&mut out, &indv);
        push_all(&mut out, &chars_of(" }\n"));
        push_all(&mut out, &indv);
        push_all(&mut out, &chars_of(" m_fMass 500\n"));
        push_all(&mut out, &indv);
        out.push('}');
        proof {
            lemma_debris_rows_extend(idev, indent@, ids, id1@, i as int);
            let ids1 = ids.push(id1@);
            lemma_debris_rows_extend(idev, indent@, ids1, id2@, i as int);
            ids = ids1.push(id2@);
            assert(ids[2 * (i as int)] == id1@ && ids[2 * (i as int) + 1] == id2@);
            assert(idev[i as int] == (items@[i as int].guid@, items@[i as int].path@));
            if i == 0 {
                assert(out@ =~= spec_debris_rows(idev, indent@, ids, 1));
            } else {
                assert(out@ =~= spec_debris_rows(idev, indent@, ids, i + 1));
            }
        }
        i = i + 1;
    }
    string_of(&out)
}

/// `pat` occurs somewhere in `s`.
pub open spec fn spec_has_sub(s: Seq<char>, pat: Seq<char>) -> bool {
    spec_find(s, pat, 0) is Some
}

/// Whether a geometry-parameter name carries one of the accepted collider
/// tag spellings for a zone letter, compared lowercased.
pub open spec fn spec_geom_belongs(name: Seq<char>, part: Seq<char>) -> bool {
    let n = spec_lower(name);
    let p = spec_lower(part);
    p.len() > 0 && (spec_has_sub(n, "id-"@ + p) || spec_has_sub(n, "fdst_id-"@ + p)
        || spec_has_sub(n, "vis-"@ + p) || spec_has_sub(n, "vis-!"@ + p))
}

/// Decide whether a geometry parameter belongs to a zone.
pub fn geometry_param_belongs_to_part(name: &str, part_id: &str) -> (r: bool)
    ensures
        r == spec_geom_belongs(name@, part_id@),
{
    let nc = lower_vec(&chars_of(name));
    let pc = lower_vec(&chars_of(part_id));
    if pc.len() == 0 {
        return false;
    }
    let mut p1 = chars_of("id-");
    push_all(&mut p1, &pc);
    if find_sub(&nc, &p1, 0).is_some() {
        return true;
    }
    let mut p2 = chars_of("fdst_id-");
    push_all(&mut p2, &pc);
    if find_sub(&nc, &p2, 0).is_some() {
        return true;
    }
    let mut p3 = chars_of("vis-");
    push_all(&mut p3, &pc);
    if find_sub(&nc, &p3, 0).is_some() {
        return true;
    }
    let mut p4 = chars_of("vis-!");
    push_all(&mut p4, &pc);
    if find_sub(&nc, &p4, 0).is_some() {
        return true;
    }
    false
}

/// The whole zone-fractal pipeline relation: header stripped, the object
/// and optional sibling-model markers filled, the `{gen guid}` markers
/// replaced by fresh identifiers, the zone count reconciled, the health
/// applied.
pub open spec fn is_zone_fractal_built(
    preset: Seq<char>,
    base_guid: Seq<char>,
    base_res: Seq<char>,
    v2: Option<(Seq<char>, Seq<char>)>,
    zones: int,
    hp: int,
    out: Seq<char>,
) -> bool {
    let s1 = spec_strip_header(preset);
    let s2 = spec_field_marker_from(
        s1,
        "Object \""@,
        "guid from xob input"@,
        spec_object_rep(base_guid, base_res),
        0,
    );
    let s3 = match v2 {
        Some(g) => spec_field_marker_from(
            s2,
            "Model \""@,
            "same name_v2_dst"@,
            spec_model_rep(g.0, g.1),
            0,
        ),
        None => s2,
    };
    exists|m1: Seq<char>, m2: Seq<char>|
        #![auto]
        is_guid_markers_filled(s3, m1) && is_zone_ensured(m1, zones, m2) && is_hp_applied(
            m2,
            hp,
            out,
        )
}

/// Build a destructible template from a zone-fractal preset.
pub fn build_zone_fractal_from_preset(
    preset_text: &str,
    base_guid: &str,
    base_res: &str,
    v2_guid: Option<&str>,
    v2_res: Option<&str>,
    zone_count: usize,
    hp_zone: u32,
) -> (r: String)
    requires
        1 <= hp_zone <= 9999,
    ensures
        is_zone_fractal_built(
            preset_text@,
            base_guid@,
            base_res@,
            match (v2_guid, v2_res) {
                (Some(g), Some(p)) => Some((g@, p@)),
                _ => None,
            },
            zone_count as int,
            hp_zone as int,
            r@,
        ),
{
    let s1 = strip_preset_header(preset_text);
    let s2 = replace_object_marker(s1.as_str(), base_guid, base_res);
    let s3 = match (v2_guid, v2_res) {
        (Some(g), Some(p)) => replace_v2_model_marker(s2.as_str(), g, p),
        _ => s2,
    };
    let m1 = replace_gen_guid_markers(s3.as_str());
    let m2 = ensure_fractalparts_zone_count(m1.as_str(), zone_count);
    let out = apply_zone_hp(m2.as_str(), hp_zone);
    proof {
        assert(is_guid_markers_filled(s3@, m1@) && is_zone_ensured(
            m1@,
            zone_count as int,
            m2@,
        ) && is_hp_applied(m2@, hp_zone as int, out@));
    }
    out
}

/// A quoted `{GUID}path` reference, or an empty quoted string.
pub open spec fn spec_quoted_ref(g: Seq<char>, p: Seq<char>) -> Seq<char> {
    seq!['"', '{'] + g + seq!['}'] + p + seq!['"']
}

/// The base object line: the reference when both parts are known, an empty
/// quoted object otherwise.
pub open spec fn spec_base_object_line(g: Seq<char>, p: Seq<char>) -> Seq<char> {
    if g.len() > 0 && p.len() > 0 {
        "   Object \"{"@ + g + seq!['}'] + p + seq!['"']
    } else {
        "   Object \"\""@
    }
}

/// The first list of debris pairs recorded under a phase number.
pub open spec fn spec_debris_of(
    debris: Seq<(Seq<char>, Seq<(Seq<char>, Seq<char>)>)>,
    pid: Seq<char>,
) -> Option<Seq<(Seq<char>, Seq<char>)>>
    decreases debris.len(),
{
    if debris.len() == 0 {
        None
    } else if debris[0].0 == pid {
        Some(debris[0].1)
    } else {
        spec_debris_of(debris.drop_first(), pid)
    }
}

/// Quoted references joined with single spaces.
pub open spec fn spec_ref_join(arr: Seq<(Seq<char>, Seq<char>)>, n: int) -> Seq<char>
    decreases n,
{
    if n <= 0 {
        Seq::empty()
    } else if n == 1 {
        spec_quoted_ref(arr[0].0, arr[0].1)
    } else {
        spec_ref_join(arr, n - 1) + seq![' '] + spec_quoted_ref(arr[n - 1].0, arr[n - 1].1)
    }
}

/// The debris list text for a phase, empty when the phase is unknown.
pub open spec fn spec_phase_debris_text(
    debris: Seq<(Seq<char>, Seq<(Seq<char>, Seq<char>)>)>,
    pid: Option<Seq<char>>,
) -> Seq<char> {
    match pid {
        Some(p) => match spec_debris_of(debris, p) {
            Some(arr) => spec_ref_join(arr, arr.len() as int),
            None => Seq::empty(),
        },
        None => Seq::empty(),
    }
}

/// The thirteen placeholder substitutions of the template-style renderer,
/// applied in order, then the newline normalization.
pub open spec fn spec_scr_chain(
    body: Seq<char>,
    ids: Seq<Seq<char>>,
    bol: Seq<char>,
    fm: Seq<char>,
    lm: Seq<char>,
    fd: Seq<char>,
    ld: Seq<char>,
    crlf: bool,
) -> Seq<char> {
    let r1 = spec_replace(body, "{{ENTITY_ID}}"@, ids[0]);
    let r2 = spec_replace(r1, "{{MESH_ID_BRACED}}"@, seq!['{'] + ids[1] + seq!['}']);
    let r3 = spec_replace(r2, "{{ID1}}"@, ids[2]);
    let r4 = spec_replace(r3, "{{ID2}}"@, ids[3]);
    let r5 = spec_replace(r4, "{{ID3}}"@, ids[4]);
    let r6 = spec_replace(r5, "{{ID4}}"@, ids[5]);
    let r7 = spec_replace(r6, "{{ID5}}"@, ids[6]);
    let r8 = spec_replace(r7, "{{ID6}}"@, ids[7]);
    let r9 = spec_replace(r8, "{{BASE_OBJECT_LINE}}"@, bol);
    let r10 = spec_replace(r9, "{{FIRST_PHASE_MODEL}}"@, fm);
    let r11 = spec_replace(r10, "{{LAST_PHASE_MODEL}}"@, lm);
    let r12 = spec_replace(r11, "{{FIRST_PHASE_DEBRIS}}"@, fd);
    let r13 = spec_replace(r12, "{{LAST_PHASE_DEBRIS}}"@, ld);
    if crlf {
        spec_replace(r13, seq!['\n'], seq!['\r', '\n'])
    } else {
        r13
    }
}

/// What the template-style renderer guarantees: the template body's
/// placeholders filled with eight fresh identifiers, the base object line,
/// the first and last phase models and debris lists, in the preset's own
/// newline convention.
pub open spec fn is_scr_rendered(
    preset: Seq<char>,
    base_guid: Seq<char>,
    base_res: Seq<char>,
    phases: Seq<(Seq<char>, (Seq<char>, Seq<char>))>,
    debris: Seq<(Seq<char>, Seq<(Seq<char>, Seq<char>)>)>,
    out: Seq<char>,
) -> bool {
    let body = spec_template_body(preset);
    let bol = spec_base_object_line(base_guid, base_res);
    let fm = if phases.len() > 0 {
        spec_quoted_ref(phases[0].1.0, phases[0].1.1)
    } else {
        seq!['"', '"']
    };
    let lm = if phases.len() > 0 {
        spec_quoted_ref(phases.last().1.0, phases.last().1.1)
    } else {
        seq!['"', '"']
    };
    let fd = spec_phase_debris_text(
        debris,
        if phases.len() > 0 {
            Some(phases[0].0)
        } else {
            None
        },
    );
    let ld = spec_phase_debris_text(
        debris,
        if phases.len() > 0 {
            Some(phases.last().0)
        } else {
            None
        },
    );
    exists|ids: Seq<Seq<char>>|
        #![auto]
        ids.len() == 8 && (forall|t: int|
            0 <= t < 8 ==> crate::etgen::is_token16(#[trigger] ids[t])) && out == spec_scr_chain(
            body,
            ids,
            bol,
            fm,
            lm,
            fd,
            ld,
            crate::etgen::spec_newline(preset) == seq!['\r', '\n'],
        )
}

/// Quote one reference.
fn quoted_ref(g: &str, p: &str) -> (r: Vec<char>)
    ensures
        r@ == spec_quoted_ref(g@, p@),
{
    let mut out: Vec<char> = Vec::new();
    out.push('"');
    out.push('{');
    push_all(&mut out, &chars_of(g));
    out.push('}');
    push_all(&mut out, &chars_of(p));
    out.push('"');
    proof {
        assert(out@ =~= spec_quoted_ref(g@, p@));
    }
    out
}

/// The debris text for one phase.
fn phase_debris_text(
    debris: &Vec<(String, Vec<(String, String)>)>,
    pid: Option<&String>,
) -> (r: Vec<char>)
    ensures
        r@ == spec_phase_debris_text(
            debris.deep_view(),
            match pid {
                Some(p) => Some(p@),
                None => None,
            },
        ),
{
    let ghost dv = debris.deep_view();
    match pid {
        None => Vec::new(),
        Some(p) => {
            let n = debris.len();
            let mut i: usize = 0;
            proof {
                assert(dv.subrange(0, n as int) =~= dv);
            }
            while i < n
                invariant
                    i <= n,
                    n == debris@.len(),
                    dv == debris.deep_view(),
                    dv.len() == n,
                    pid matches Some(pp) && pp@ == p@,
                    spec_debris_of(dv, p@) == spec_debris_of(
                        dv.subrange(i as int, n as int),
                        p@,
                    ),
                decreases n - i,
            {
                proof {
                    assert(dv.subrange(i as int, n as int)[0] == dv[i as int]);
                    assert(dv[i as int] == (debris@[i as int].0@, debris@[
                        i as int
                    ].1.deep_view()));
                    assert(dv.subrange(i as int, n as int).drop_first() =~= dv.subrange(
                        i + 1,
                        n as int,
                    ));
                }
                if debris[i].0 == *p {
                    let arr = &debris[i].1;
                    let ghost av = dv[i as int].1;
                    let m = arr.len();
                    let mut out: Vec<char> = Vec::new();
                    let mut j: usize = 0;
                    proof {
                        assert(spec_debris_of(dv.subrange(i as int, n as int), p@) == Some(av));
                    }
                    while j < m
                        invariant
                            j <= m,
                            m == arr@.len(),
                            av == arr.deep_view(),
                            av.len() == m,
                            pid matches Some(pp) && pp@ == p@,
                            dv == debris.deep_view(),
                            spec_debris_of(dv, p@) == Some(av),
                            out@ == spec_ref_join(av, j as int),
                        decreases m - j,
                    {
                        proof {
                            assert(av[j as int] == (arr@[j as int].0@, arr@[j as int].1@));
                        }
                        if j > 0 {
                            out.push(' ');
                        }
                        let q = quoted_ref(arr[j].0.as_str(), arr[j].1.as_str());
                        push_all(&mut out, &q);
                        proof {
                            if j == 0 {
                                assert(out@ =~= spec_ref_join(av, 1));
                            } else {
                                assert(out@ =~= spec_ref_join(av, j + 1));
                            }
                        }
                        j = j + 1;
                    }
                    return out;
                }
                i = i + 1;
            }
            proof {
                assert(spec_debris_of(dv.subrange(n as int, n as int), p@) is None);
            }
            Vec::new()
        },
    }
}

/// Render a destructible template from a template-style preset: fill the
/// numbered identifier and phase/debris placeholders from the supplied
/// phase scan, keeping the preset's newline convention.
pub fn render_scr_destructible_template(
    preset_text: &str,
    base_guid: &str,
    base_res: &str,
    phases: &Vec<(String, (String, String))>,
    debris: &Vec<(String, Vec<(String, String)>)>,
) -> (r: String)
    ensures
        is_scr_rendered(
            preset_text@,
            base_guid@,
            base_res@,
            phases.deep_view(),
            debris.deep_view(),
            r@,
        ),
{
    let ghost pv = phases.deep_view();
    let body_s = extract_template_body(preset_text);
    let body = chars_of(body_s.as_str());
    let mut ids_v: Vec<Vec<char>> = fresh_ids(8);
    let ghost ids = ids_v.deep_view();
    // Base object line.
    let bg = chars_of(base_guid);
    let br = chars_of(base_res);
    let mut bol: Vec<char> = Vec::new();
    if bg.len() > 0 && br.len() > 0 {
        push_all(&mut bol, &chars_of("   Object \"{"));
        push_all(&mut bol, &bg);
        bol.push('}');
        push_all(&mut bol, &br);
        bol.push('"');
        proof {
            assert(bol@ =~= spec_base_object_line(base_guid@, base_res@));
        }
    } else {
        push_all(&mut bol, &chars_of("   Object \"\""));
        proof {
            assert(bol@ =~= spec_base_object_line(base_guid@, base_res@));
        }
    }
    // Phase models and debris.
    let pn = phases.len();
    let mut fm: Vec<char> = Vec::new();
    let mut lm: Vec<char> = Vec::new();
    if pn > 0 {
        proof {
            assert(pv[0] == (phases@[0].0@, (phases@[0].1.0@, phases@[0].1.1@)));
            assert(pv[pn - 1] == (phases@[pn - 1].0@, (phases@[pn - 1].1.0@, phases@[
                pn - 1
            ].1.1@)));
        }
        fm = quoted_ref(phases[0].1.0.as_str(), phases[0].1.1.as_str());
        lm = quoted_ref(phases[pn - 1].1.0.as_str(), phases[pn - 1].1.1.as_str());
    } else {
        fm.push('"');
        fm.push('"');
        lm.push('"');
        lm.push('"');
        proof {
            assert(fm@ =~= seq!['"', '"']);
            assert(lm@ =~= seq!['"', '"']);
        }
    }
    let fd = if pn > 0 {
        phase_debris_text(debris, Some(&phases[0].0))
    } else {
        phase_debris_text(debris, None)
    };
    let ld = if pn > 0 {
        phase_debris_text(debris, Some(&phases[pn - 1].0))
    } else {
        phase_debris_text(debris, None)
    };
    // The substitutions, in order.
    let r1 = replace_all(&body, &chars_of("{{ENTITY_ID}}"), &ids_v[0]);
    let mut mesh: Vec<char> = Vec::new();
    mesh.push('{');
    push_all(&mut mesh, &ids_v[1]);
    mesh.push('}');
    proof {
        assert(mesh@ =~= seq!['{'] + ids[1] + seq!['}']);
    }
    let r2 = replace_all(&r1, &chars_of("{{MESH_ID_BRACED}}"), &mesh);
    let r3 = replace_all(&r2, &chars_of("{{ID1}}"), &ids_v[2]);
    let r4 = replace_all(&r3, &chars_of("{{ID2}}"), &ids_v[3]);
    let r5 = replace_all(&r4, &chars_of("{{ID3}}"), &ids_v[4]);
    let r6 = replace_all(&r5, &chars_of("{{ID4}}"), &ids_v[5]);
    let r7 = replace_all(&r6, &chars_of("{{ID5}}"), &ids_v[6]);
    let r8 = replace_all(&r7, &chars_of("{{ID6}}"), &ids_v[7]);
    let r9 = replace_all(&r8, &chars_of("{{BASE_OBJECT_LINE}}"), &bol);
    let r10 = replace_all(&r9, &chars_of("{{FIRST_PHASE_MODEL}}"), &fm);
    let r11 = replace_all(&r10, &chars_of("{{LAST_PHASE_MODEL}}"), &lm);
    let r12 = replace_all(&r11, &chars_of("{{FIRST_PHASE_DEBRIS}}"), &fd);
    let r13 = replace_all(&r12, &chars_of("{{LAST_PHASE_DEBRIS}}"), &ld);
    let nl = crate::etgen::detect_newline(preset_text);
    let nlv = chars_of(nl);
    let is_crlf = nlv.len() == 2;
    let out = if is_crlf {
        let lfpat: Vec<char> = vec!['\n'];
        let crlfrep: Vec<char> = vec!['\r', '\n'];
        assert(lfpat@ =~= seq!['\n']);
        assert(crlfrep@ =~= seq!['\r', '\n']);
        replace_all(&r13, &lfpat, &crlfrep)
    } else {
        r13
    };
    proof {
        assert(ids[0] == ids_v@[0]@ && ids[1] == ids_v@[1]@ && ids[2] == ids_v@[2]@ && ids[3]
            == ids_v@[3]@ && ids[4] == ids_v@[4]@ && ids[5] == ids_v@[5]@ && ids[6]
            == ids_v@[6]@ && ids[7] == ids_v@[7]@);
        assert(is_crlf == (crate::etgen::spec_newline(preset_text@) == seq!['\r', '\n'])) by {
            if crate::etgen::spec_newline(preset_text@) == seq!['\r', '\n'] {
                assert(nlv@.len() == 2);
            } else {
                assert(crate::etgen::spec_newline(preset_text@) == seq!['\n']);
                assert(nlv@.len() == 1);
            }
        }
        assert(out@ == spec_scr_chain(
            spec_template_body(preset_text@),
            ids,
            spec_base_object_line(base_guid@, base_res@),
            fm@,
            lm@,
            fd@,
            ld@,
            is_crlf,
        ));
        let fmspec = if pv.len() > 0 {
            spec_quoted_ref(pv[0].1.0, pv[0].1.1)
        } else {
            seq!['"', '"']
        };
        let lmspec = if pv.len() > 0 {
            spec_quoted_ref(pv[pv.len() - 1].1.0, pv[pv.len() - 1].1.1)
        } else {
            seq!['"', '"']
        };
        let fdspec = spec_phase_debris_text(
            debris.deep_view(),
            if pv.len() > 0 {
                Some(pv[0].0)
            } else {
                None
            },
        );
        let ldspec = spec_phase_debris_text(
            debris.deep_view(),
            if pv.len() > 0 {
                Some(pv[pv.len() - 1].0)
            } else {
                None
            },
        );
        assert(pv.len() == pn);
        if pn > 0 {
            assert(pv[0] == (phases@[0].0@, (phases@[0].1.0@, phases@[0].1.1@)));
            assert(pv[pn - 1] == (phases@[pn - 1].0@, (phases@[pn - 1].1.0@, phases@[
                pn - 1
            ].1.1@)));
            assert(pv.last() == pv[pn - 1]);
        }
        assert(fm@ == fmspec);
        assert(lm@ == lmspec);
        assert(fd@ == fdspec);
        assert(ld@ == ldspec);
        assert(ids.len() == 8 && (forall|t: int|
            0 <= t < 8 ==> crate::etgen::is_token16(#[trigger] ids[t])) && out@
            == spec_scr_chain(
            spec_template_body(preset_text@),
            ids,
            spec_base_object_line(base_guid@, base_res@),
            fmspec,
            lmspec,
            fdspec,
            ldspec,
            crate::etgen::spec_newline(preset_text@) == seq!['\r', '\n'],
        ));
        assert(is_scr_rendered(
            preset_text@,
            base_guid@,
            base_res@,
            phases.deep_view(),
            debris.deep_view(),
            out@,
        ));
    }
    string_of(&out)
}

/// One zone's scan result: its letter tag, discovered debris models, and
/// inferred collider tags.
pub struct ZoneInfo {
    pub part_id: String,
    pub debris: Vec<MetaEntry>,
    pub colliders: Vec<String>,
}

/// The mathematical shadow of a zone.
pub ghost struct ZoneView {
    pub part_id: Seq<char>,
    pub debris: Seq<(Seq<char>, Seq<char>)>,
    pub colliders: Seq<Seq<char>>,
}

impl View for ZoneInfo {
    type V = ZoneView;

    open spec fn view(&self) -> ZoneView {
        ZoneView {
            part_id: self.part_id@,
            debris: self.debris.deep_view(),
            colliders: self.colliders.deep_view(),
        }
    }
}

impl DeepView for ZoneInfo {
    type V = ZoneView;

    open spec fn deep_view(&self) -> ZoneView {
        self@
    }
}

/// A whole-line zone marker: leading whitespace, the prefix, one uppercase
/// letter, `}}`, then only whitespace. The result is the indentation and
/// the letter.
pub open spec fn spec_marker_line(l: Seq<char>, prefix: Seq<char>) -> Option<(Seq<char>, char)> {
    let t = scan_sp(l, 0);
    if 0 <= t && match_at(l, prefix, t) {
        let i = t + prefix.len();
        if i + 3 <= l.len() && 'A' <= l[i] <= 'Z' && l[i + 1] == '}' && l[i + 2] == '}'
            && scan_sp(l, i + 3) == l.len() {
            Some((l.subrange(0, t), l[i]))
        } else {
            None
        }
    } else {
        None
    }
}

/// Recognize a whole-line zone marker.
fn marker_line_exec(l: &Vec<char>, prefix: &Vec<char>) -> (r: Option<(Vec<char>, char)>)
    ensures
        match r {
            Some(p) => spec_marker_line(l@, prefix@) == Some((p.0@, p.1)),
            None => spec_marker_line(l@, prefix@) is None,
        },
{
    let n = l.len();
    let t = scan_sp_exec(l, 0);
    if !starts_with_at(l, prefix, t) {
        return None;
    }
    let i = t + prefix.len();
    if n >= 3 && i <= n - 3 && 'A' <= l[i] && l[i] <= 'Z' && l[i + 1] == '}' && l[i + 2] == '}' {
        let e = scan_sp_exec(l, i + 3);
        if e == n {
            return Some((subrange_vec(l, 0, t), l[i]));
        }
    }
    None
}

/// The first zone tagged with the letter, if any.
pub open spec fn spec_zone_of(zones: Seq<ZoneView>, c: char) -> Option<ZoneView>
    decreases zones.len(),
{
    if zones.len() == 0 {
        None
    } else if zones[0].part_id == seq![c] {
        Some(zones[0])
    } else {
        spec_zone_of(zones.drop_first(), c)
    }
}

/// The debris recorded for a letter; empty when the zone is unknown.
pub open spec fn spec_zone_debris(zones: Seq<ZoneView>, c: char) -> Seq<(Seq<char>, Seq<char>)> {
    match spec_zone_of(zones, c) {
        Some(z) => z.debris,
        None => Seq::empty(),
    }
}

/// The collider tags recorded for a letter; empty when the zone is unknown.
pub open spec fn spec_zone_colliders(zones: Seq<ZoneView>, c: char) -> Seq<Seq<char>> {
    match spec_zone_of(zones, c) {
        Some(z) => z.colliders,
        None => Seq::empty(),
    }
}

/// Find a zone's debris list.
fn zone_debris_exec(zones: &Vec<ZoneInfo>, c: char) -> (r: Vec<MetaEntry>)
    ensures
        r.deep_view() == spec_zone_debris(zones.deep_view(), c),
{
    let ghost zv = zones.deep_view();
    let n = zones.len();
    let mut i: usize = 0;
    proof {
        assert(zv.subrange(0, n as int) =~= zv);
    }
    while i < n
        invariant
            i <= n,
            n == zones@.len(),
            zv == zones.deep_view(),
            zv.len() == n,
            spec_zone_of(zv, c) == spec_zone_of(zv.subrange(i as int, n as int), c),
        decreases n - i,
    {
        proof {
            assert(zv.subrange(i as int, n as int)[0] == zv[i as int]);
            assert(zv[i as int] == zones@[i as int]@);
            assert(zv.subrange(i as int, n as int).drop_first() =~= zv.subrange(
                i + 1,
                n as int,
            ));
        }
        let pid = chars_of(zones[i].part_id.as_str());
        let single: Vec<char> = vec![c];
        assert(single@ =~= seq![c]);
        if eq_chars(&pid, &single) {
            let mut out: Vec<MetaEntry> = Vec::new();
            let m = zones[i].debris.len();
            let mut j: usize = 0;
            proof {
                assert(out.deep_view() =~~= zv[i as int].debris.subrange(0, 0));
            }
            while j < m
                invariant
                    j <= m,
                    i < n,
                    n == zones@.len(),
                    zv == zones.deep_view(),
                    zv.len() == n,
                    m == zones@[i as int].debris@.len(),
                    zv[i as int].debris.len() == m,
                    spec_zone_of(zv, c) == Some(zv[i as int]),
                    out.deep_view() == zv[i as int].debris.subrange(0, j as int),
                decreases m - j,
            {
                let ghost prev = out.deep_view();
                out.push(MetaEntry {
                    guid: zones[i].debris[j].guid.clone(),
                    path: zones[i].debris[j].path.clone(),
                });
                proof {
                    assert(zv[i as int].debris[j as int] == (zones@[i as int].debris@[
                        j as int
                    ].guid@, zones@[i as int].debris@[j as int].path@));
                    assert(out.deep_view() =~~= prev.push(zv[i as int].debris[j as int]));
                    assert(out.deep_view() =~= zv[i as int].debris.subrange(0, j + 1));
                }
                j = j + 1;
            }
            proof {
                assert(zv[i as int].debris.subrange(0, m as int) =~= zv[i as int].debris);
            }
            return out;
        }
        i = i + 1;
    }
    Vec::new()
}

/// Find a zone's collider tags.
fn zone_colliders_exec(zones: &Vec<ZoneInfo>, c: char) -> (r: Vec<String>)
    ensures
        r.deep_view() == spec_zone_colliders(zones.deep_view(), c),
{
    let ghost zv = zones.deep_view();
    let n = zones.len();
    let mut i: usize = 0;
    proof {
        assert(zv.subrange(0, n as int) =~= zv);
    }
    while i < n
        invariant
            i <= n,
            n == zones@.len(),
            zv == zones.deep_view(),
            zv.len() == n,
            spec_zone_of(zv, c) == spec_zone_of(zv.subrange(i as int, n as int), c),
        decreases n - i,
    {
        proof {
            assert(zv.subrange(i as int, n as int)[0] == zv[i as int]);
            assert(zv[i as int] == zones@[i as int]@);
            assert(zv.subrange(i as int, n as int).drop_first() =~= zv.subrange(
                i + 1,
                n as int,
            ));
        }
        let pid = chars_of(zones[i].part_id.as_str());
        let single: Vec<char> = vec![c];
        assert(single@ =~= seq![c]);
        if eq_chars(&pid, &single) {
            let mut out: Vec<String> = Vec::new();
            let m = zones[i].colliders.len();
            let mut j: usize = 0;
            proof {
                assert(out.deep_view() =~~= zv[i as int].colliders.subrange(0, 0));
            }
            while j < m
                invariant
                    j <= m,
                    i < n,
                    n == zones@.len(),
                    zv == zones.deep_view(),
                    zv.len() == n,
                    m == zones@[i as int].colliders@.len(),
                    zv[i as int].colliders.len() == m,
                    spec_zone_of(zv, c) == Some(zv[i as int]),
                    out.deep_view() == zv[i as int].colliders.subrange(0, j as int),
                decreases m - j,
            {
                let ghost prev = out.deep_view();
                out.push(zones[i].colliders[j].clone());
                proof {
                    assert(zv[i as int].colliders[j as int] == zones@[i as int].colliders@[
                        j as int
                    ]@);
                    assert(out.deep_view() =~~= prev.push(zv[i as int].colliders[j as int]));
                    assert(out.deep_view() =~= zv[i as int].colliders.subrange(0, j + 1));
                }
                j = j + 1;
            }
            proof {
                assert(zv[i as int].colliders.subrange(0, m as int) =~= zv[i as int].colliders);
            }
            return out;
        }
        i = i + 1;
    }
    Vec::new()
}

/// One line of the debris pass: a marker line becomes that zone's debris
/// blocks (indented one space deeper, with fresh identifiers), any other
/// line stays.
pub open spec fn line_debris_filled(l: Seq<char>, zones: Seq<ZoneView>, out: Seq<char>) -> bool {
    match spec_marker_line(l, "{{DEBRIS_ID-"@) {
        Some(m) => {
            let items = spec_zone_debris(zones, m.1);
            exists|ids: Seq<Seq<char>>|
                #![auto]
                ids.len() == 2 * items.len() && (forall|t: int|
                    0 <= t < ids.len() ==> crate::etgen::is_token16(#[trigger] ids[t])) && out
                    == spec_debris_rows(items, m.0 + seq![' '], ids, items.len() as int)
        },
        None => out == l,
    }
}

/// The debris pass over the whole text.
pub open spec fn is_debris_pass(s: Seq<char>, zones: Seq<ZoneView>, out: Seq<char>) -> bool {
    exists|repl: Seq<Seq<char>>|
        #![auto]
        repl.len() == spec_lines(s).len() && (forall|k: int|
            0 <= k < repl.len() ==> line_debris_filled(spec_lines(s)[k], zones, #[trigger] repl[k]))
            && out == spec_join(repl, crate::etgen::spec_newline(s))
}

/// One line of the collider pass, which is deterministic.
pub open spec fn spec_collider_line_sub(l: Seq<char>, zones: Seq<ZoneView>) -> Seq<char> {
    match spec_marker_line(l, "{{COLLIDERS_ID-"@) {
        Some(m) => m.0 + spec_colliders_line(spec_zone_colliders(zones, m.1)),
        None => l,
    }
}

/// The collider pass over the whole text.
pub open spec fn spec_collider_pass(s: Seq<char>, zones: Seq<ZoneView>) -> Seq<char> {
    spec_join(
        spec_lines(s).map_values(|l: Seq<char>| spec_collider_line_sub(l, zones)),
        crate::etgen::spec_newline(s),
    )
}

/// Replace whole-line `{{DEBRIS_ID-X}}` markers with generated debris
/// blocks and `{{COLLIDERS_ID-X}}` markers with the quoted collider list.
pub fn replace_full_dst_markers(text: &str, zones: &Vec<ZoneInfo>) -> (r: String)
    ensures
        exists|mid: Seq<char>|
            #![auto]
            is_debris_pass(text@, zones.deep_view(), mid) && r@ == spec_collider_pass(
                mid,
                zones.deep_view(),
            ),
{
    let ghost zv = zones.deep_view();
    let cs = chars_of(text);
    let nl = crate::etgen::detect_newline(text);
    let nlv = chars_of(nl);
    let dpref = chars_of("{{DEBRIS_ID-");
    let lines = split_lines(&cs);
    let n = lines.len();
    let mut repl: Vec<Vec<char>> = Vec::new();
    let mut i: usize = 0;
    while i < n
        invariant
            i <= n,
            n == lines@.len(),
            lines.deep_view().len() == n,
            zv == zones.deep_view(),
            dpref@ == "{{DEBRIS_ID-"@,
            repl.deep_view().len() == i,
            forall|k: int|
                0 <= k < i ==> line_debris_filled(
                    lines.deep_view()[k],
                    zv,
                    #[trigger] repl.deep_view()[k],
                ),
        decreases n - i,
    {
        proof {
            assert(lines.deep_view()[i as int] == lines@[i as int]@);
        }
        let ghost prev = repl.deep_view();
        match marker_line_exec(&lines[i], &dpref) {
            Some(m) => {
                let items = zone_debris_exec(zones, m.1);
                let ghost ind0 = m.0@;
                let mut ind = m.0;
                ind.push(' ');
                proof {
                    assert(ind@ =~= ind0 + seq![' ']);
                }
                let ind_s = string_of(&ind);
                let block = build_debris_infos_block(&items, ind_s.as_str());
                repl.push(chars_of(block.as_str()));
                proof {
                    assert(repl.deep_view() =~~= prev.push(block@));
                    let itv = items.deep_view();
                    let ids = choose|ids: Seq<Seq<char>>|
                        #![auto]
                        (forall|t: int|
                            0 <= t < ids.len() ==> crate::etgen::is_token16(#[trigger] ids[t]))
                            && ids.len() == 2 * items@.len() && block@ == spec_debris_rows(
                            itv,
                            ind_s@,
                            ids,
                            items@.len() as int,
                        );
                    assert(itv.len() == items@.len());
                    assert(itv == spec_zone_debris(zv, m.1));
                    assert(ids.len() == 2 * itv.len());
                    assert(block@ == spec_debris_rows(itv, ind0 + seq![' '], ids, itv.len() as int));
                    assert(line_debris_filled(lines.deep_view()[i as int], zv, block@));
                }
            },
            None => {
                repl.push(lines[i].clone());
                proof {
                    assert(repl.deep_view() =~~= prev.push(lines.deep_view()[i as int]));
                    assert(line_debris_filled(
                        lines.deep_view()[i as int],
                        zv,
                        lines.deep_view()[i as int],
                    ));
                }
            },
        }
        proof {
            assert forall|k: int| 0 <= k < i + 1 implies line_debris_filled(
                lines.deep_view()[k],
                zv,
                #[trigger] repl.deep_view()[k],
            ) by {
                if k < i {
                    assert(repl.deep_view()[k] == prev[k]);
                }
            }
        }
        i = i + 1;
    }
    let mid = crate::text::join_all(&repl, &nlv);
    let ghost midv = mid@;
    proof {
        assert(is_debris_pass(text@, zv, midv));
    }
    // The collider pass.
    let cpref = chars_of("{{COLLIDERS_ID-");
    let lines2 = split_lines(&mid);
    let n2 = lines2.len();
    let mut out2: Vec<Vec<char>> = Vec::new();
    let mut j: usize = 0;
    proof {
        assert(out2.deep_view() =~~= lines2.deep_view().subrange(0, 0).map_values(
            |l: Seq<char>| spec_collider_line_sub(l, zv),
        ));
    }
    while j < n2
        invariant
            j <= n2,
            n2 == lines2@.len(),
            lines2.deep_view().len() == n2,
            zv == zones.deep_view(),
            cpref@ == "{{COLLIDERS_ID-"@,
            out2.deep_view() == lines2.deep_view().subrange(0, j as int).map_values(
                |l: Seq<char>| spec_collider_line_sub(l, zv),
            ),
        decreases n2 - j,
    {
        proof {
            assert(lines2.deep_view()[j as int] == lines2@[j as int]@);
        }
        let ghost prev = out2.deep_view();
        let newline_vec: Vec<char> = match marker_line_exec(&lines2[j], &cpref) {
            Some(m) => {
                let tags = zone_colliders_exec(zones, m.1);
                let cl = build_colliders_line(&tags);
                let mut v = m.0;
                push_all(&mut v, &chars_of(cl.as_str()));
                proof {
                    assert(v@ == spec_collider_line_sub(lines2.deep_view()[j as int], zv));
                }
                v
            },
            None => {
                let v = lines2[j].clone();
                proof {
                    assert(v@ == spec_collider_line_sub(lines2.deep_view()[j as int], zv));
                }
                v
            },
        };
        out2.push(newline_vec);
        proof {
            assert(out2.deep_view() =~~= prev.push(spec_collider_line_sub(
                lines2.deep_view()[j as int],
                zv,
            )));
            assert(lines2.deep_view().subrange(0, j + 1).drop_last()
                =~= lines2.deep_view().subrange(0, j as int));
            assert(out2.deep_view() =~= lines2.deep_view().subrange(0, j + 1).map_values(
                |l: Seq<char>| spec_collider_line_sub(l, zv),
            ));
        }
        j = j + 1;
    }
    proof {
        assert(lines2.deep_view().subrange(0, n2 as int) =~= lines2.deep_view());
    }
    let crlf: Vec<char> = vec!['\r', '\n'];
    assert(crlf@ =~= seq!['\r', '\n']);
    let nlv2: Vec<char> = if find_sub(&mid, &crlf, 0).is_some() {
        vec!['\r', '\n']
    } else {
        vec!['\n']
    };
    proof {
        assert(nlv2@ =~= crate::etgen::spec_newline(midv));
    }
    let joined = crate::text::join_all(&out2, &nlv2);
    proof {
        assert(joined@ == spec_collider_pass(midv, zv));
    }
    string_of(&joined)
}

/// The first index at or after `i` that could not continue a bare name:
/// a quote, whitespace or an opening brace ends it.
pub open spec fn scan_bare(t: Seq<char>, i: int) -> int
    decreases t.len() - i,
{
    if i < 0 || i >= t.len() || t[i] == '"' || is_space(t[i]) || t[i] == '{' {
        i
    } else {
        scan_bare(t, i + 1)
    }
}

fn scan_bare_exec(t: &Vec<char>, i: usize) -> (r: usize)
    requires
        i <= t@.len(),
    ensures
        r == scan_bare(t@, i as int),
        i <= r <= t@.len(),
{
    let n = t.len();
    let mut j = i;
    while j < n && t[j] != '"' && !char_is_space(t[j]) && t[j] != '{'
        invariant
            i <= j <= n,
            n == t@.len(),
            scan_bare(t@, i as int) == scan_bare(t@, j as int),
        decreases n - j,
    {
        j = j + 1;
    }
    j
}

/// The geometry-parameter name a line declares: `GeometryParam` after
/// leading whitespace, then a quoted or bare name, then the opening brace.
/// The name comes back trimmed.
pub open spec fn spec_geom_name(l: Seq<char>) -> Option<Seq<char>> {
    let t = scan_sp(l, 0);
    if 0 <= t && match_at(l, "GeometryParam"@, t) {
        let u = t + 13;
        let v = scan_sp(l, u);
        if v > u && v < l.len() {
            if l[v] == '"' {
                match spec_find(l, seq!['"'], v + 1) {
                    Some(q2) => if q2 > v + 1 {
                        let w = scan_sp(l, q2 + 1);
                        if w < l.len() && l[w] == '{' {
                            Some(spec_trim(l.subrange(v + 1, q2)))
                        } else {
                            None
                        }
                    } else {
                        None
                    },
                    None => None,
                }
            } else {
                let e = scan_bare(l, v);
                if e > v {
                    let w = scan_sp(l, e);
                    if w < l.len() && l[w] == '{' {
                        Some(spec_trim(l.subrange(v, e)))
                    } else {
                        None
                    }
                } else {
                    None
                }
            }
        } else {
            None
        }
    } else {
        None
    }
}

/// A name already occurs, compared lowercased.
pub open spec fn spec_has_lower(acc: Seq<Seq<char>>, k: Seq<char>) -> bool {
    exists|j: int| 0 <= j < acc.len() && spec_lower(#[trigger] acc[j]) == k
}

/// The declared names collected line by line, first spelling kept, later
/// case-insensitive duplicates dropped.
pub open spec fn spec_geom_fold(lines: Seq<Seq<char>>, i: int, acc: Seq<Seq<char>>) -> Seq<
    Seq<char>,
>
    decreases lines.len() - i,
{
    if i < 0 || i >= lines.len() {
        acc
    } else {
        let acc2 = match spec_geom_name(lines[i]) {
            Some(nm) => if nm.len() > 0 && !spec_has_lower(acc, spec_lower(nm)) {
                acc.push(nm)
            } else {
                acc
            },
            None => acc,
        };
        spec_geom_fold(lines, i + 1, acc2)
    }
}

/// Parse the geometry-parameter name out of one line.
fn geom_name_exec(l: &Vec<char>) -> (r: Option<Vec<char>>)
    ensures
        match r {
            Some(nm) => spec_geom_name(l@) == Some(nm@),
            None => spec_geom_name(l@) is None,
        },
{
    let n = l.len();
    let t = scan_sp_exec(l, 0);
    let pat = chars_of("GeometryParam");
    if !starts_with_at(l, &pat, t) {
        return None;
    }
    proof {
        assert("GeometryParam"@.len() == 13) by {
            reveal_strlit("GeometryParam");
        }
    }
    let u = t + 13;
    let v = scan_sp_exec(l, u);
    if !(v > u && v < n) {
        return None;
    }
    if l[v] == '"' {
        let quote: Vec<char> = vec!['"'];
        assert(quote@ =~= seq!['"']);
        match find_sub(l, &quote, v + 1) {
            Some(q2) => {
                proof {
                    lemma_find_some_bounds(l@, quote@, v + 1);
                }
                if q2 > v + 1 {
                    let w = scan_sp_exec(l, q2 + 1);
                    if w < n && l[w] == '{' {
                        Some(trim_vec(&subrange_vec(l, v + 1, q2)))
                    } else {
                        None
                    }
                } else {
                    None
                }
            },
            None => None,
        }
    } else {
        let e = scan_bare_exec(l, v);
        if e > v {
            let w = scan_sp_exec(l, e);
            if w < n && l[w] == '{' {
                Some(trim_vec(&subrange_vec(l, v, e)))
            } else {
                None
            }
        } else {
            None
        }
    }
}

/// Collect the geometry-parameter names of a sidecar text, in order,
/// without case-insensitive duplicates.
pub fn parse_geometry_param_names(v2_meta_text: &str) -> (r: Vec<String>)
    ensures
        r.deep_view() == spec_geom_fold(spec_lines(v2_meta_text@), 0, Seq::empty()),
{
    let cs = chars_of(v2_meta_text);
    let lines = split_lines(&cs);
    let n = lines.len();
    let mut acc: Vec<String> = Vec::new();
    let mut i: usize = 0;
    proof {
        assert(acc.deep_view() =~~= Seq::<Seq<char>>::empty());
    }
    while i < n
        invariant
            i <= n,
            n == lines@.len(),
            lines.deep_view().len() == n,
            spec_geom_fold(lines.deep_view(), 0, Seq::empty()) == spec_geom_fold(
                lines.deep_view(),
                i as int,
                acc.deep_view(),
            ),
        decreases n - i,
    {
        proof {
            assert(lines.deep_view()[i as int] == lines@[i as int]@);
        }
        match geom_name_exec(&lines[i]) {
            Some(nm) => {
                if nm.len() > 0 {
                    let low = lower_vec(&nm);
                    let an = acc.len();
                    let mut seen = false;
                    let mut j: usize = 0;
                    while j < an && !seen
                        invariant
                            j <= an,
                            an == acc@.len(),
                            acc.deep_view().len() == an,
                            low@ == spec_lower(nm@),
                            seen ==> spec_has_lower(acc.deep_view(), spec_lower(nm@)),
                            !seen ==> forall|x: int|
                                0 <= x < j ==> spec_lower(#[trigger] acc.deep_view()[x])
                                    != spec_lower(nm@),
                        decreases an - j + (if seen { 0int } else { 1int }),
                    {
                        proof {
                            assert(acc.deep_view()[j as int] == acc@[j as int]@);
                        }
                        let al = lower_vec(&chars_of(acc[j].as_str()));
                        if eq_chars(&al, &low) {
                            seen = true;
                        } else {
                            j = j + 1;
                        }
                    }
                    proof {
                        if !seen {
                            if spec_has_lower(acc.deep_view(), spec_lower(nm@)) {
                                let x = choose|x: int|
                                    0 <= x < acc.deep_view().len() && spec_lower(
                                        acc.deep_view()[x],
                                    ) == spec_lower(nm@);
                                assert(false);
                            }
                        }
                    }
                    if !seen {
                        let ghost prev = acc.deep_view();
                        acc.push(string_of(&nm));
                        proof {
                            assert(acc.deep_view() =~~= prev.push(nm@));
                        }
                    }
                }
            },
            None => {},
        }
        i = i + 1;
    }
    acc
}

} // verus!
