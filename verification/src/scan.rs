//! The destructible-scan logic that does not touch the disk: recognizing
//! debris and phase file names, reading zone letters out of
//! geometry-parameter tags, and assembling per-zone scan results. The
//! caller lists the directory and reads sidecars; everything here is a
//! function of those plain values.
use vstd::prelude::*;

use crate::dstgen::{scan_digits, spec_geom_belongs, MetaEntry, ZoneInfo};
use crate::strconv::{
    chars_of, is_all_digits, lower_vec, spec_all_digits, spec_is_digit, spec_lower,
    spec_upper_char, string_of, upper_char,
};
use crate::text::{eq_chars, match_at, push_all, spec_starts_with, starts_with_at, subrange_vec};

verus! {

/// The value of a digit string, most significant first.
pub open spec fn spec_digits_val(s: Seq<char>) -> int
    decreases s.len(),
{
    if s.len() == 0 {
        0
    } else {
        spec_digits_val(s.drop_last()) * 10 + (s.last() as int - 48)
    }
}

/// The number a digit run encodes, or `fallback` when it is empty, not all
/// digits, or too large for the scan's signed range.
pub open spec fn spec_num_or(s: Seq<char>, fallback: int) -> int {
    if s.len() > 0 && spec_all_digits(s) && spec_digits_val(s) <= 0x7fffffff {
        spec_digits_val(s)
    } else {
        fallback
    }
}

proof fn lemma_digits_val_nonneg(s: Seq<char>)
    requires
        spec_all_digits(s),
    ensures
        spec_digits_val(s) >= 0,
    decreases s.len(),
{
    if s.len() > 0 {
        assert(spec_all_digits(s.drop_last())) by {
            assert(forall|i: int| 0 <= i < s.len() - 1 ==> s.drop_last()[i] == s[i]);
        }
        lemma_digits_val_nonneg(s.drop_last());
        assert(spec_is_digit(s.last()));
    }
}

proof fn lemma_digits_val_mono(s: Seq<char>, i: int)
    requires
        spec_all_digits(s),
        0 <= i <= s.len(),
    ensures
        spec_digits_val(s.subrange(0, i)) <= spec_digits_val(s),
    decreases s.len() - i,
{
    if i < s.len() {
        lemma_digits_val_mono(s, i + 1);
        let a = s.subrange(0, i);
        let b = s.subrange(0, i + 1);
        assert(b.drop_last() =~= a);
        assert(spec_all_digits(a)) by {
            assert(forall|k: int| 0 <= k < i ==> a[k] == s[k]);
        }
        lemma_digits_val_nonneg(a);
        assert(spec_is_digit(b.last()));
        assert(spec_digits_val(b) == spec_digits_val(a) * 10 + (b.last() as int - 48));
    } else {
        assert(s.subrange(0, i) =~= s);
    }
}

/// Parse a digit run, falling back when it overflows the scan's range.
pub fn parse_num_or(s: &Vec<char>, fallback: u32) -> (r: u32)
    requires
        fallback <= 0x7fffffff,
    ensures
        r == spec_num_or(s@, fallback as int),
        r <= 0x7fffffff,
{
    let n = s.len();
    if n == 0 || !is_all_digits(s) {
        return fallback;
    }
    let mut acc: u32 = 0;
    let mut i: usize = 0;
    proof {
        assert(s@.subrange(0, 0) =~= Seq::<char>::empty());
    }
    while i < n
        invariant
            i <= n,
            n == s@.len(),
            spec_all_digits(s@),
            fallback <= 0x7fffffff,
            acc == spec_digits_val(s@.subrange(0, i as int)),
            acc <= 0x7fffffff,
        decreases n - i,
    {
        let c = s[i];
        proof {
            assert(spec_is_digit(s@[i as int]));
        }
        let d: u32 = (c as u32) - 48;
        proof {
            assert(s@.subrange(0, i + 1).drop_last() =~= s@.subrange(0, i as int));
            assert(s@.subrange(0, i + 1).last() == s@[i as int]);
        }
        if acc > 214748364 || (acc == 214748364 && d > 7) {
            proof {
                assert(spec_digits_val(s@.subrange(0, i + 1)) > 0x7fffffff);
                lemma_digits_val_mono(s@, i + 1);
            }
            return fallback;
        }
        acc = acc * 10 + d;
        i = i + 1;
    }
    proof {
        assert(s@.subrange(0, n as int) =~= s@);
    }
    acc
}

/// A destructible debris file name: the stem, `_V2_dst_ID-`, one letter,
/// `_dbr_`, a number, `.xob`, all case-insensitively. The result is the
/// uppercased zone letter and the sequence number (0 when out of range).
pub open spec fn spec_full_debris_match(name: Seq<char>, stem: Seq<char>) -> Option<(char, int)> {
    let l = spec_lower(name);
    let p = spec_lower(stem) + "_v2_dst_id-"@;
    if spec_starts_with(l, p) && l.len() > p.len() {
        let c = l[p.len() as int];
        if 'a' <= c <= 'z' {
            let rest_at = p.len() + 1;
            if match_at(l, "_dbr_"@, rest_at as int) {
                let dstart = rest_at + 5;
                let dend = scan_digits(l, dstart as int);
                if dend > dstart && l.subrange(dend, l.len() as int) == ".xob"@ {
                    Some((spec_upper_char(c), spec_num_or(l.subrange(dstart as int, dend), 0)))
                } else {
                    None
                }
            } else {
                None
            }
        } else {
            None
        }
    } else {
        None
    }
}

/// Exec counterpart of `scan_digits`.
fn scan_digits_here(t: &Vec<char>, i: usize) -> (r: usize)
    requires
        i <= t@.len(),
    ensures
        r == scan_digits(t@, i as int),
        i <= r <= t@.len(),
{
    let n = t.len();
    let mut j = i;
    while j < n && crate::strconv::is_digit(t[j])
        invariant
            i <= j <= n,
            n == t@.len(),
            scan_digits(t@, i as int) == scan_digits(t@, j as int),
        decreases n - j,
    {
        j = j + 1;
    }
    j
}

/// Match one directory entry against the debris naming convention.
pub fn match_full_debris_name(name: &str, stem: &str) -> (r: Option<(char, u32)>)
    ensures
        match r {
            Some(m) => spec_full_debris_match(name@, stem@) == Some((m.0, m.1 as int)),
            None => spec_full_debris_match(name@, stem@) is None,
        },
{
    let l = lower_vec(&chars_of(name));
    let mut p = lower_vec(&chars_of(stem));
    push_all(&mut p, &chars_of("_v2_dst_id-"));
    if !starts_with_at(&l, &p, 0) {
        return None;
    }
    let pl = p.len();
    if l.len() <= pl {
        return None;
    }
    let c = l[pl];
    if !('a' <= c && c <= 'z') {
        return None;
    }
    let dbr = chars_of("_dbr_");
    if !starts_with_at(&l, &dbr, pl + 1) {
        return None;
    }
    proof {
        assert("_dbr_"@.len() == 5) by {
            reveal_strlit("_dbr_");
        }
    }
    let dstart = pl + 6;
    let dend = scan_digits_here(&l, dstart);
    if !(dend > dstart) {
        return None;
    }
    let tail = subrange_vec(&l, dend, l.len());
    let xob = chars_of(".xob");
    if !eq_chars(&tail, &xob) {
        return None;
    }
    let digits = subrange_vec(&l, dstart, dend);
    let num = parse_num_or(&digits, 0);
    Some((upper_char(c), num))
}

/// The zone letter a geometry-parameter tag encodes at one position: the
/// accepted spellings tried in order, each followed by a letter.
pub open spec fn spec_geom_part_at(l: Seq<char>, i: int) -> Option<char> {
    if match_at(l, "id-"@, i) && i + 3 < l.len() && 'a' <= l[i + 3] <= 'z' {
        Some(l[i + 3])
    } else if match_at(l, "fdst_id-"@, i) && i + 8 < l.len() && 'a' <= l[i + 8] <= 'z' {
        Some(l[i + 8])
    } else if match_at(l, "vis-!"@, i) && i + 5 < l.len() && 'a' <= l[i + 5] <= 'z' {
        Some(l[i + 5])
    } else if match_at(l, "vis-"@, i) && i + 4 < l.len() && 'a' <= l[i + 4] <= 'z' {
        Some(l[i + 4])
    } else {
        None
    }
}

/// The first position where a tag matches, scanning left to right.
pub open spec fn spec_geom_part_from(l: Seq<char>, i: int) -> Option<char>
    decreases l.len() - i,
{
    if i < 0 || i >= l.len() {
        None
    } else {
        match spec_geom_part_at(l, i) {
            Some(c) => Some(c),
            None => spec_geom_part_from(l, i + 1),
        }
    }
}

/// The uppercased zone letter a geometry-parameter name encodes, if any.
pub open spec fn spec_geom_part(name: Seq<char>) -> Option<char> {
    match spec_geom_part_from(spec_lower(name), 0) {
        Some(c) => Some(spec_upper_char(c)),
        None => None,
    }
}

/// Read the zone letter out of a geometry-parameter name.
pub fn geom_part_letter(name: &str) -> (r: Option<char>)
    ensures
        match r {
            Some(c) => spec_geom_part(name@) == Some(c),
            None => spec_geom_part(name@) is None,
        },
{
    let l = lower_vec(&chars_of(name));
    let n = l.len();
    let p1 = chars_of("id-");
    let p2 = chars_of("fdst_id-");
    let p3 = chars_of("vis-!");
    let p4 = chars_of("vis-");
    proof {
        reveal_strlit("id-");
        reveal_strlit("fdst_id-");
        reveal_strlit("vis-!");
        reveal_strlit("vis-");
    }
    let mut i: usize = 0;
    while i < n
        invariant
            i <= n,
            n == l@.len(),
            l@ == spec_lower(name@),
            p1@ == "id-"@ && p2@ == "fdst_id-"@ && p3@ == "vis-!"@ && p4@ == "vis-"@,
            p1@.len() == 3 && p2@.len() == 8 && p3@.len() == 5 && p4@.len() == 4,
            spec_geom_part_from(l@, 0) == spec_geom_part_from(l@, i as int),
        decreases n - i,
    {
        if starts_with_at(&l, &p1, i) && i + 3 < n && 'a' <= l[i + 3] && l[i + 3] <= 'z' {
            return Some(upper_char(l[i + 3]));
        }
        if starts_with_at(&l, &p2, i) && i + 8 < n && 'a' <= l[i + 8] && l[i + 8] <= 'z' {
            return Some(upper_char(l[i + 8]));
        }
        if starts_with_at(&l, &p3, i) && i + 5 < n && 'a' <= l[i + 5] && l[i + 5] <= 'z' {
            return Some(upper_char(l[i + 5]));
        }
        if starts_with_at(&l, &p4, i) && i + 4 < n && 'a' <= l[i + 4] && l[i + 4] <= 'z' {
            return Some(upper_char(l[i + 4]));
        }
        proof {
            assert(spec_geom_part_at(l@, i as int) is None);
        }
        i = i + 1;
    }
    None
}

/// The debris files recognized among the first `n` entries, in input
/// order: zone letter, sequence number, and the entry's model reference.
pub open spec fn spec_matched_debris(
    files: Seq<(Seq<char>, (Seq<char>, Seq<char>))>,
    stem: Seq<char>,
    n: int,
) -> Seq<(char, u32, (Seq<char>, Seq<char>))>
    decreases n,
{
    if n <= 0 {
        Seq::empty()
    } else {
        let front = spec_matched_debris(files, stem, n - 1);
        match spec_full_debris_match(files[n - 1].0, stem) {
            Some(m) => front.push((m.0, m.1 as u32, files[n - 1].1)),
            None => front,
        }
    }
}

/// Insert a letter into a sorted list, keeping it sorted and without
/// duplicates.
pub open spec fn spec_letter_insert(xs: Seq<char>, c: char) -> Seq<char>
    decreases xs.len(),
{
    if xs.len() == 0 {
        seq![c]
    } else if xs.last() == c {
        xs
    } else if xs.last() < c {
        xs.push(c)
    } else {
        spec_letter_insert(xs.drop_last(), c).push(xs.last())
    }
}

/// The sorted zone letters: every recognized debris letter, then every
/// letter a geometry-parameter tag encodes.
pub open spec fn spec_zone_letters(
    matched: Seq<(char, u32, (Seq<char>, Seq<char>))>,
    params: Seq<Seq<char>>,
    n: int,
    m: int,
) -> Seq<char>
    decreases (if n > 0 { n } else { 0 }) + (if m > 0 { m } else { 0 }),
{
    if m > 0 {
        let front = spec_zone_letters(matched, params, n, m - 1);
        match spec_geom_part(params[m - 1]) {
            Some(c) => spec_letter_insert(front, c),
            None => front,
        }
    } else if n > 0 {
        spec_letter_insert(spec_zone_letters(matched, params, n - 1, 0), matched[n - 1].0)
    } else {
        Seq::empty()
    }
}

/// Stable insertion of a debris entry by its sequence number.
pub open spec fn spec_dnum_insert(
    xs: Seq<(u32, (Seq<char>, Seq<char>))>,
    item: (u32, (Seq<char>, Seq<char>)),
) -> Seq<(u32, (Seq<char>, Seq<char>))>
    decreases xs.len(),
{
    if xs.len() == 0 {
        seq![item]
    } else if xs.last().0 <= item.0 {
        xs.push(item)
    } else {
        spec_dnum_insert(xs.drop_last(), item).push(xs.last())
    }
}

/// One zone's debris, sorted by sequence number, stably.
pub open spec fn spec_zone_debris_sorted(
    matched: Seq<(char, u32, (Seq<char>, Seq<char>))>,
    c: char,
    n: int,
) -> Seq<(u32, (Seq<char>, Seq<char>))>
    decreases n,
{
    if n <= 0 {
        Seq::empty()
    } else {
        let front = spec_zone_debris_sorted(matched, c, n - 1);
        if matched[n - 1].0 == c {
            spec_dnum_insert(front, (matched[n - 1].1, matched[n - 1].2))
        } else {
            front
        }
    }
}

/// The collider tags whose spelling encodes the letter.
pub open spec fn spec_zone_tags(params: Seq<Seq<char>>, c: char, m: int) -> Seq<Seq<char>>
    decreases m,
{
    if m <= 0 {
        Seq::empty()
    } else {
        let front = spec_zone_tags(params, c, m - 1);
        if spec_geom_belongs(params[m - 1], seq![c]) {
            front.push(params[m - 1])
        } else {
            front
        }
    }
}

/// What one assembled zone holds.
pub open spec fn spec_zone_view(
    matched: Seq<(char, u32, (Seq<char>, Seq<char>))>,
    params: Seq<Seq<char>>,
    c: char,
) -> crate::dstgen::ZoneView {
    crate::dstgen::ZoneView {
        part_id: seq![c],
        debris: spec_zone_debris_sorted(matched, c, matched.len() as int).map_values(
            |p: (u32, (Seq<char>, Seq<char>))| p.1,
        ),
        colliders: spec_zone_tags(params, c, params.len() as int),
    }
}

/// The assembled zones, one per letter in sorted order.
pub open spec fn spec_full_dst_zones(
    files: Seq<(Seq<char>, (Seq<char>, Seq<char>))>,
    stem: Seq<char>,
    params: Seq<Seq<char>>,
) -> Seq<crate::dstgen::ZoneView> {
    let matched = spec_matched_debris(files, stem, files.len() as int);
    let letters = spec_zone_letters(matched, params, matched.len() as int, params.len() as int);
    Seq::new(letters.len(), |k: int| spec_zone_view(matched, params, letters[k]))
}

/// Where the letter insertion lands among the sorted letters.
proof fn lemma_letter_insert_at(xs: Seq<char>, c: char, k: int)
    requires
        0 <= k <= xs.len(),
        forall|t: int| k <= t < xs.len() ==> xs[t] > c,
        k > 0 ==> xs[k - 1] <= c,
    ensures
        spec_letter_insert(xs, c) =~= if k > 0 && xs[k - 1] == c {
            xs
        } else {
            xs.subrange(0, k) + seq![c] + xs.subrange(k, xs.len() as int)
        },
    decreases xs.len(),
{
    if xs.len() == 0 {
    } else if xs.last() == c {
        assert(k == xs.len());
    } else if xs.last() < c {
        assert(k == xs.len());
        assert(xs.subrange(0, xs.len() as int) =~= xs);
    } else {
        assert(k <= xs.len() - 1);
        let front = xs.drop_last();
        lemma_letter_insert_at(front, c, k);
        if k > 0 && xs[k - 1] == c {
            assert(front[k - 1] == c);
        } else {
            assert(front.subrange(0, k) =~= xs.subrange(0, k));
            assert(front.subrange(k, front.len() as int) =~= xs.subrange(k, xs.len() - 1));
        }
    }
}

/// Where the stable numeric insertion lands.
proof fn lemma_dnum_insert_at(
    xs: Seq<(u32, (Seq<char>, Seq<char>))>,
    item: (u32, (Seq<char>, Seq<char>)),
    k: int,
)
    requires
        0 <= k <= xs.len(),
        forall|t: int| k <= t < xs.len() ==> xs[t].0 > item.0,
        k > 0 ==> xs[k - 1].0 <= item.0,
    ensures
        spec_dnum_insert(xs, item) =~= xs.subrange(0, k) + seq![item] + xs.subrange(
            k,
            xs.len() as int,
        ),
    decreases xs.len(),
{
    if xs.len() == 0 {
    } else if xs.last().0 <= item.0 {
        assert(k == xs.len());
        assert(xs.subrange(0, xs.len() as int) =~= xs);
    } else {
        assert(k <= xs.len() - 1);
        let front = xs.drop_last();
        lemma_dnum_insert_at(front, item, k);
        assert(front.subrange(0, k) =~= xs.subrange(0, k));
        assert(front.subrange(k, front.len() as int) =~= xs.subrange(k, xs.len() - 1));
    }
}

/// Assemble the per-zone scan result: a zone for every letter seen in the
/// debris names or the geometry tags, its debris sorted by sequence
/// number, its collider tags filtered by spelling.
pub fn assemble_full_dst_zones(
    files: &Vec<(String, MetaEntry)>,
    stem: &str,
    geom_params: &Vec<String>,
) -> (r: Vec<ZoneInfo>)
    ensures
        r.deep_view() == spec_full_dst_zones(files.deep_view(), stem@, geom_params.deep_view()),
{
    let ghost fv = files.deep_view();
    let ghost gv = geom_params.deep_view();
    let n = files.len();
    // Recognize the debris files.
    let mut matched: Vec<(char, u32, MetaEntry)> = Vec::new();
    let mut i: usize = 0;
    let ghost mspec = spec_matched_debris(fv, stem@, fv.len() as int);
    proof {
        assert(matched.deep_view() =~~= spec_matched_debris(fv, stem@, 0));
    }
    while i < n
        invariant
            i <= n,
            n == files@.len(),
            fv == files.deep_view(),
            fv.len() == n,
            matched.deep_view() == spec_matched_debris(fv, stem@, i as int),
            forall|t: int|
                0 <= t < matched.deep_view().len() ==> #[trigger] matched.deep_view()[t].1
                    <= 0x7fffffff,
        decreases n - i,
    {
        proof {
            assert(fv[i as int] == (files@[i as int].0@, files@[i as int].1@));
        }
        let ghost prev = matched.deep_view();
        match match_full_debris_name(files[i].0.as_str(), stem) {
            Some(m) => {
                matched.push(
                    (m.0, m.1, MetaEntry {
                        guid: files[i].1.guid.clone(),
                        path: files[i].1.path.clone(),
                    }),
                );
                proof {
                    assert(matched.deep_view() =~~= prev.push((m.0, m.1, fv[i as int].1)));
                    assert forall|t: int| 0 <= t < matched.deep_view().len() implies #[trigger]
                    matched.deep_view()[t].1 <= 0x7fffffff by {
                        if t < prev.len() {
                            assert(matched.deep_view()[t] == prev[t]);
                        }
                    }
                }
            },
            None => {},
        }
        i = i + 1;
    }
    proof {
        assert(matched.deep_view() == mspec);
    }
    let ghost mdv = matched.deep_view();
    // Collect the sorted zone letters.
    let mut letters: Vec<char> = Vec::new();
    let mn = matched.len();
    let mut a: usize = 0;
    proof {
        assert(letters@ =~= spec_zone_letters(mdv, gv, 0, 0));
    }
    while a < mn
        invariant
            a <= mn,
            mn == matched@.len(),
            mdv == matched.deep_view(),
            mdv.len() == mn,
            letters@ == spec_zone_letters(mdv, gv, a as int, 0),
        decreases mn - a,
    {
        proof {
            assert(mdv[a as int] == (matched@[a as int].0, matched@[a as int].1, matched@[
                a as int
            ].2@));
        }
        let c = matched[a].0;
        letter_insert_exec(&mut letters, c);
        a = a + 1;
    }
    let gn = geom_params.len();
    let mut b: usize = 0;
    while b < gn
        invariant
            b <= gn,
            gn == geom_params@.len(),
            gv == geom_params.deep_view(),
            gv.len() == gn,
            mdv == matched.deep_view(),
            mn == matched@.len(),
            mdv.len() == mn,
            letters@ == spec_zone_letters(mdv, gv, mn as int, b as int),
        decreases gn - b,
    {
        proof {
            assert(gv[b as int] == geom_params@[b as int]@);
        }
        match geom_part_letter(geom_params[b].as_str()) {
            Some(c) => {
                letter_insert_exec(&mut letters, c);
            },
            None => {},
        }
        b = b + 1;
    }
    // Build one zone per letter.
    let ln = letters.len();
    let ghost lv = letters@;
    let ghost zspec = Seq::new(lv.len(), |k: int| spec_zone_view(mdv, gv, lv[k]));
    let mut zones: Vec<ZoneInfo> = Vec::new();
    let mut z: usize = 0;
    proof {
        assert(zones.deep_view() =~~= zspec.subrange(0, 0));
    }
    while z < ln
        invariant
            z <= ln,
            ln == letters@.len(),
            lv == letters@,
            mdv == matched.deep_view(),
            mn == matched@.len(),
            mdv.len() == mn,
            gv == geom_params.deep_view(),
            gn == geom_params@.len(),
            gv.len() == gn,
            forall|t: int|
                0 <= t < mdv.len() ==> #[trigger] mdv[t].1 <= 0x7fffffff,
            zspec == Seq::new(lv.len(), |k: int| spec_zone_view(mdv, gv, lv[k])),
            zones.deep_view() == zspec.subrange(0, z as int),
        decreases ln - z,
    {
        let c = letters[z];
        // The zone's debris, sorted by number.
        let mut sorted: Vec<(u32, MetaEntry)> = Vec::new();
        let mut q: usize = 0;
        proof {
            assert(sorted.deep_view() =~~= spec_zone_debris_sorted(mdv, c, 0));
        }
        while q < mn
            invariant
                q <= mn,
                mn == matched@.len(),
                mdv == matched.deep_view(),
                mdv.len() == mn,
                forall|t: int|
                    0 <= t < mdv.len() ==> #[trigger] mdv[t].1 <= 0x7fffffff,
                sorted.deep_view() == spec_zone_debris_sorted(mdv, c, q as int),
            decreases mn - q,
        {
            proof {
                assert(mdv[q as int] == (matched@[q as int].0, matched@[q as int].1, matched@[
                    q as int
                ].2@));
            }
            if matched[q].0 == c {
                let num = matched[q].1;
                let ent = MetaEntry {
                    guid: matched[q].2.guid.clone(),
                    path: matched[q].2.path.clone(),
                };
                let ghost sdv = sorted.deep_view();
                let slen = sorted.len();
                let mut k: usize = slen;
                while k > 0 && sorted[k - 1].0 > num
                    invariant
                        k <= slen,
                        slen == sorted@.len(),
                        sorted.deep_view().len() == slen,
                        sdv == sorted.deep_view(),
                        forall|t: int|
                            k <= t < slen ==> #[trigger] sorted.deep_view()[t].0 > num,
                    decreases k,
                {
                    proof {
                        assert(sorted.deep_view()[k - 1].0 == sorted@[k - 1].0);
                    }
                    k = k - 1;
                }
                proof {
                    if k > 0 {
                        assert(sorted.deep_view()[k - 1].0 == sorted@[k - 1].0);
                    }
                    lemma_dnum_insert_at(sdv, (num, mdv[q as int].2), k as int);
                }
                let ghost prevs = sorted.deep_view();
                sorted.insert(k, (num, ent));
                proof {
                    assert(sorted.deep_view() =~~= prevs.subrange(0, k as int) + seq![
                        (num, mdv[q as int].2),
                    ] + prevs.subrange(k as int, prevs.len() as int));
                }
            }
            q = q + 1;
        }
        // Strip the numbers.
        let sn = sorted.len();
        let mut dlist: Vec<MetaEntry> = Vec::new();
        let mut w: usize = 0;
        proof {
            assert(dlist.deep_view() =~~= sorted.deep_view().subrange(0, 0).map_values(
                |pr: (u32, (Seq<char>, Seq<char>))| pr.1,
            ));
        }
        while w < sn
            invariant
                w <= sn,
                sn == sorted@.len(),
                sorted.deep_view().len() == sn,
                dlist.deep_view() == sorted.deep_view().subrange(0, w as int).map_values(
                    |pr: (u32, (Seq<char>, Seq<char>))| pr.1,
                ),
            decreases sn - w,
        {
            let ghost prevd = dlist.deep_view();
            dlist.push(MetaEntry {
                guid: sorted[w].1.guid.clone(),
                path: sorted[w].1.path.clone(),
            });
            proof {
                assert(sorted.deep_view()[w as int] == (sorted@[w as int].0, sorted@[
                    w as int
                ].1@));
                assert(dlist.deep_view() =~~= prevd.push(sorted.deep_view()[w as int].1));
                assert(sorted.deep_view().subrange(0, w + 1).drop_last()
                    =~= sorted.deep_view().subrange(0, w as int));
                assert(dlist.deep_view() =~= sorted.deep_view().subrange(0, w + 1).map_values(
                    |pr: (u32, (Seq<char>, Seq<char>))| pr.1,
                ));
            }
            w = w + 1;
        }
        // The zone's collider tags.
        let mut tags: Vec<String> = Vec::new();
        let mut g: usize = 0;
        let single: Vec<char> = vec![c];
        assert(single@ =~= seq![c]);
        let pid = string_of(&single);
        proof {
            assert(tags.deep_view() =~~= spec_zone_tags(gv, c, 0));
        }
        while g < gn
            invariant
                g < gn + 1,
                gn == geom_params@.len(),
                gv == geom_params.deep_view(),
                gv.len() == gn,
                pid@ == seq![c],
                tags.deep_view() == spec_zone_tags(gv, c, g as int),
            decreases gn - g,
        {
            proof {
                assert(gv[g as int] == geom_params@[g as int]@);
            }
            let ghost prevt = tags.deep_view();
            if crate::dstgen::geometry_param_belongs_to_part(
                geom_params[g].as_str(),
                pid.as_str(),
            ) {
                tags.push(geom_params[g].clone());
                proof {
                    assert(tags.deep_view() =~~= prevt.push(gv[g as int]));
                }
            }
            g = g + 1;
        }
        let ghost prevz = zones.deep_view();
        zones.push(ZoneInfo { part_id: pid, debris: dlist, colliders: tags });
        proof {
            assert(sorted.deep_view().subrange(0, sn as int) =~= sorted.deep_view());
            assert(zones.deep_view()[prevz.len() as int].part_id =~= seq![c]);
            assert(zones.deep_view()[prevz.len() as int].debris =~~= spec_zone_view(
                mdv,
                gv,
                lv[z as int],
            ).debris);
            assert(zones.deep_view()[prevz.len() as int].colliders =~~= spec_zone_view(
                mdv,
                gv,
                lv[z as int],
            ).colliders);
            assert(zones.deep_view() =~~= zspec.subrange(0, z + 1));
        }
        z = z + 1;
    }
    proof {
        assert(zspec.subrange(0, ln as int) =~= zspec);
        assert(lv == spec_zone_letters(mdv, gv, mn as int, gn as int));
        assert(zones.deep_view() =~~= spec_full_dst_zones(fv, stem@, gv));
    }
    zones
}

/// Insert one letter into the sorted list.
fn letter_insert_exec(letters: &mut Vec<char>, c: char)
    ensures
        final(letters)@ == spec_letter_insert(old(letters)@, c),
{
    let ghost lv = letters@;
    let n = letters.len();
    let mut k: usize = n;
    while k > 0 && letters[k - 1] > c
        invariant
            k <= n,
            n == letters@.len(),
            lv == letters@,
            forall|t: int| k <= t < n ==> letters@[t] > c,
        decreases k,
    {
        k = k - 1;
    }
    proof {
        lemma_letter_insert_at(lv, c, k as int);
    }
    if k > 0 && letters[k - 1] == c {
        return ;
    }
    letters.insert(k, c);
    proof {
        assert(letters@ =~= lv.subrange(0, k as int) + seq![c] + lv.subrange(
            k as int,
            lv.len() as int,
        ));
    }
}

/// The start of the maximal digit run that ends at `e`.
pub open spec fn scan_digits_back(l: Seq<char>, e: int) -> int
    decreases e,
{
    if e <= 0 || e > l.len() || !spec_is_digit(l[e - 1]) {
        e
    } else {
        scan_digits_back(l, e - 1)
    }
}

fn scan_digits_back_exec(l: &Vec<char>, e: usize) -> (r: usize)
    requires
        e <= l@.len(),
    ensures
        r == scan_digits_back(l@, e as int),
        r <= e,
{
    let mut j = e;
    while j > 0 && crate::strconv::is_digit(l[j - 1])
        invariant
            j <= e <= l@.len(),
            scan_digits_back(l@, e as int) == scan_digits_back(l@, j as int),
        decreases j,
    {
        j = j - 1;
    }
    j
}

/// A sequence ends with the given suffix at position `at`.
pub open spec fn ends_pat_at(l: Seq<char>, pat: Seq<char>, at: int) -> bool {
    at == l.len() - pat.len() && match_at(l, pat, at)
}

/// A phase number zero-padded to two digits.
pub open spec fn spec_pad2(d: Seq<char>) -> Seq<char> {
    if d.len() >= 2 {
        d
    } else {
        seq!['0'] + d
    }
}

/// A phase file name: anything, the stem, `_dst_`, digits, `.xob`, all
/// case-insensitively, with the digits read as the maximal run before the
/// extension. The result is the phase number padded to two digits.
pub open spec fn spec_phase_match(name: Seq<char>, stem: Seq<char>) -> Option<Seq<char>> {
    let l = spec_lower(name);
    let p = spec_lower(stem) + "_dst_"@;
    if l.len() >= 4 && ends_pat_at(l, ".xob"@, l.len() - 4) {
        let dend = l.len() - 4;
        let dstart = scan_digits_back(l, dend);
        if dstart < dend && dstart >= p.len() && match_at(l, p, dstart - p.len()) {
            Some(spec_pad2(l.subrange(dstart, dend)))
        } else {
            None
        }
    } else {
        None
    }
}

/// A phase-debris file name: the stem, `_dst_`, digits, `_dbr_`, digits,
/// `.xob`. The result is the padded phase number.
pub open spec fn spec_dst_debris_match(name: Seq<char>, stem: Seq<char>) -> Option<Seq<char>> {
    let l = spec_lower(name);
    let p = spec_lower(stem) + "_dst_"@;
    if l.len() >= 4 && ends_pat_at(l, ".xob"@, l.len() - 4) {
        let bend = l.len() - 4;
        let bstart = scan_digits_back(l, bend);
        if bstart < bend && bstart >= 5 && match_at(l, "_dbr_"@, bstart - 5) {
            let dend = bstart - 5;
            let dstart = scan_digits_back(l, dend);
            if dstart < dend && dstart >= p.len() && match_at(l, p, dstart - p.len()) {
                Some(spec_pad2(l.subrange(dstart, dend)))
            } else {
                None
            }
        } else {
            None
        }
    } else {
        None
    }
}

/// Match one directory entry as a phase file.
pub fn match_phase_name(name: &str, stem: &str) -> (r: Option<String>)
    ensures
        match r {
            Some(pid) => spec_phase_match(name@, stem@) == Some(pid@),
            None => spec_phase_match(name@, stem@) is None,
        },
{
    let l = lower_vec(&chars_of(name));
    let mut p = lower_vec(&chars_of(stem));
    push_all(&mut p, &chars_of("_dst_"));
    let n = l.len();
    let xob = chars_of(".xob");
    proof {
        assert(".xob"@.len() == 4) by {
            reveal_strlit(".xob");
        }
    }
    if n < 4 || !starts_with_at(&l, &xob, n - 4) {
        return None;
    }
    let dend = n - 4;
    let dstart = scan_digits_back_exec(&l, dend);
    if !(dstart < dend) {
        return None;
    }
    let pl = p.len();
    if !(dstart >= pl) {
        return None;
    }
    if !starts_with_at(&l, &p, dstart - pl) {
        return None;
    }
    let digits = subrange_vec(&l, dstart, dend);
    let padded = if digits.len() >= 2 {
        digits
    } else {
        let mut v: Vec<char> = Vec::new();
        v.push('0');
        push_all(&mut v, &digits);
        proof {
            assert(v@ =~= seq!['0'] + l@.subrange(dstart as int, dend as int));
        }
        v
    };
    Some(string_of(&padded))
}

/// Match one directory entry as a phase-debris file.
pub fn match_dst_debris_name(name: &str, stem: &str) -> (r: Option<String>)
    ensures
        match r {
            Some(pid) => spec_dst_debris_match(name@, stem@) == Some(pid@),
            None => spec_dst_debris_match(name@, stem@) is None,
        },
{
    let l = lower_vec(&chars_of(name));
    let mut p = lower_vec(&chars_of(stem));
    push_all(&mut p, &chars_of("_dst_"));
    let n = l.len();
    let xob = chars_of(".xob");
    proof {
        assert(".xob"@.len() == 4) by {
            reveal_strlit(".xob");
        }
        assert("_dbr_"@.len() == 5) by {
            reveal_strlit("_dbr_");
        }
    }
    if n < 4 || !starts_with_at(&l, &xob, n - 4) {
        return None;
    }
    let bend = n - 4;
    let bstart = scan_digits_back_exec(&l, bend);
    if !(bstart < bend) {
        return None;
    }
    if !(bstart >= 5) {
        return None;
    }
    let dbr = chars_of("_dbr_");
    if !starts_with_at(&l, &dbr, bstart - 5) {
        return None;
    }
    let dend = bstart - 5;
    let dstart = scan_digits_back_exec(&l, dend);
    if !(dstart < dend) {
        return None;
    }
    let pl = p.len();
    if !(dstart >= pl) {
        return None;
    }
    if !starts_with_at(&l, &p, dstart - pl) {
        return None;
    }
    let digits = subrange_vec(&l, dstart, dend);
    let padded = if digits.len() >= 2 {
        digits
    } else {
        let mut v: Vec<char> = Vec::new();
        v.push('0');
        push_all(&mut v, &digits);
        proof {
            assert(v@ =~= seq!['0'] + l@.subrange(dstart as int, dend as int));
        }
        v
    };
    Some(string_of(&padded))
}

/// The debris sequence number encoded in an entry's path, read from the
/// `_dbr_<n>.xob` tail of its file name; 9999 when absent or out of range.
pub open spec fn spec_dbr_sort_key(path: Seq<char>) -> int {
    let nm = spec_lower(crate::paths::spec_file_name(path));
    if nm.len() >= 4 && ends_pat_at(nm, ".xob"@, nm.len() - 4) {
        let dend = nm.len() - 4;
        let dstart = scan_digits_back(nm, dend);
        if dstart < dend && dstart >= 5 && match_at(nm, "_dbr_"@, dstart - 5) {
            spec_num_or(nm.subrange(dstart, dend), 9999)
        } else {
            9999
        }
    } else {
        9999
    }
}

/// Read the debris sort key out of an entry's path.
pub fn dbr_sort_key(path: &str) -> (r: u32)
    ensures
        r == spec_dbr_sort_key(path@),
        r <= 0x7fffffff,
{
    let nm_s = crate::paths::file_name_of(path);
    let nm = lower_vec(&chars_of(nm_s.as_str()));
    let n = nm.len();
    let xob = chars_of(".xob");
    proof {
        assert(".xob"@.len() == 4) by {
            reveal_strlit(".xob");
        }
        assert("_dbr_"@.len() == 5) by {
            reveal_strlit("_dbr_");
        }
    }
    if n < 4 || !starts_with_at(&nm, &xob, n - 4) {
        return 9999;
    }
    let dend = n - 4;
    let dstart = scan_digits_back_exec(&nm, dend);
    if !(dstart < dend && dstart >= 5) {
        return 9999;
    }
    let dbr = chars_of("_dbr_");
    if !starts_with_at(&nm, &dbr, dstart - 5) {
        return 9999;
    }
    let digits = subrange_vec(&nm, dstart, dend);
    parse_num_or(&digits, 9999)
}

/// The phase files recognized, in input order.
pub open spec fn spec_phase_list(
    files: Seq<(Seq<char>, (Seq<char>, Seq<char>))>,
    stem: Seq<char>,
    n: int,
) -> Seq<(Seq<char>, (Seq<char>, Seq<char>))>
    decreases n,
{
    if n <= 0 {
        Seq::empty()
    } else {
        let front = spec_phase_list(files, stem, n - 1);
        match spec_phase_match(files[n - 1].0, stem) {
            Some(pid) => front.push((pid, files[n - 1].1)),
            None => front,
        }
    }
}

/// Append an entry to its phase group, first-seen key order.
pub open spec fn spec_group_append(
    gs: Seq<(Seq<char>, Seq<(Seq<char>, Seq<char>)>)>,
    pid: Seq<char>,
    e: (Seq<char>, Seq<char>),
) -> Seq<(Seq<char>, Seq<(Seq<char>, Seq<char>)>)>
    decreases gs.len(),
{
    if gs.len() == 0 {
        seq![(pid, seq![e])]
    } else if gs[0].0 == pid {
        seq![(gs[0].0, gs[0].1.push(e))] + gs.drop_first()
    } else {
        seq![gs[0]] + spec_group_append(gs.drop_first(), pid, e)
    }
}

/// The debris files grouped by phase. A file counts as debris only when it
/// is not a phase file.
pub open spec fn spec_debris_groups(
    files: Seq<(Seq<char>, (Seq<char>, Seq<char>))>,
    stem: Seq<char>,
    n: int,
) -> Seq<(Seq<char>, Seq<(Seq<char>, Seq<char>)>)>
    decreases n,
{
    if n <= 0 {
        Seq::empty()
    } else {
        let front = spec_debris_groups(files, stem, n - 1);
        if spec_phase_match(files[n - 1].0, stem) is Some {
            front
        } else {
            match spec_dst_debris_match(files[n - 1].0, stem) {
                Some(pid) => spec_group_append(front, pid, files[n - 1].1),
                None => front,
            }
        }
    }
}

/// A phase number occurs among the phases.
pub open spec fn spec_has_pid(
    phases: Seq<(Seq<char>, (Seq<char>, Seq<char>))>,
    pid: Seq<char>,
) -> bool {
    exists|i: int| 0 <= i < phases.len() && phases[i].0 == pid
}

/// Phases completed so every phase number that has debris also has an
/// entry, with empty reference fields.
pub open spec fn spec_complete_phases(
    phases: Seq<(Seq<char>, (Seq<char>, Seq<char>))>,
    gs: Seq<(Seq<char>, Seq<(Seq<char>, Seq<char>)>)>,
    m: int,
) -> Seq<(Seq<char>, (Seq<char>, Seq<char>))>
    decreases m,
{
    if m <= 0 {
        phases
    } else {
        let front = spec_complete_phases(phases, gs, m - 1);
        if spec_has_pid(phases, gs[m - 1].0) {
            front
        } else {
            front.push((gs[m - 1].0, (Seq::empty(), Seq::empty())))
        }
    }
}

/// Stable insertion of a phase by its numeric value.
pub open spec fn spec_phase_insert(
    xs: Seq<(Seq<char>, (Seq<char>, Seq<char>))>,
    item: (Seq<char>, (Seq<char>, Seq<char>)),
) -> Seq<(Seq<char>, (Seq<char>, Seq<char>))>
    decreases xs.len(),
{
    if xs.len() == 0 {
        seq![item]
    } else if spec_num_or(xs.last().0, 9999) <= spec_num_or(item.0, 9999) {
        xs.push(item)
    } else {
        spec_phase_insert(xs.drop_last(), item).push(xs.last())
    }
}

/// The phases sorted by numeric value, stably.
pub open spec fn spec_sort_phases(xs: Seq<(Seq<char>, (Seq<char>, Seq<char>))>) -> Seq<
    (Seq<char>, (Seq<char>, Seq<char>)),
>
    decreases xs.len(),
{
    if xs.len() == 0 {
        Seq::empty()
    } else {
        spec_phase_insert(spec_sort_phases(xs.drop_last()), xs.last())
    }
}

/// Stable insertion of a debris entry by the number in its path.
pub open spec fn spec_dbr_insert(
    xs: Seq<(Seq<char>, Seq<char>)>,
    e: (Seq<char>, Seq<char>),
) -> Seq<(Seq<char>, Seq<char>)>
    decreases xs.len(),
{
    if xs.len() == 0 {
        seq![e]
    } else if spec_dbr_sort_key(xs.last().1) <= spec_dbr_sort_key(e.1) {
        xs.push(e)
    } else {
        spec_dbr_insert(xs.drop_last(), e).push(xs.last())
    }
}

/// One group's entries sorted by their path's debris number, stably.
pub open spec fn spec_sort_dbr(xs: Seq<(Seq<char>, Seq<char>)>) -> Seq<(Seq<char>, Seq<char>)>
    decreases xs.len(),
{
    if xs.len() == 0 {
        Seq::empty()
    } else {
        spec_dbr_insert(spec_sort_dbr(xs.drop_last()), xs.last())
    }
}

proof fn lemma_phase_insert_at(
    xs: Seq<(Seq<char>, (Seq<char>, Seq<char>))>,
    item: (Seq<char>, (Seq<char>, Seq<char>)),
    k: int,
)
    requires
        0 <= k <= xs.len(),
        forall|t: int| k <= t < xs.len() ==> spec_num_or(#[trigger] xs[t].0, 9999) > spec_num_or(
            item.0,
            9999,
        ),
        k > 0 ==> spec_num_or(xs[k - 1].0, 9999) <= spec_num_or(item.0, 9999),
    ensures
        spec_phase_insert(xs, item) =~= xs.subrange(0, k) + seq![item] + xs.subrange(
            k,
            xs.len() as int,
        ),
    decreases xs.len(),
{
    if xs.len() == 0 {
    } else if spec_num_or(xs.last().0, 9999) <= spec_num_or(item.0, 9999) {
        assert(k == xs.len());
        assert(xs.subrange(0, xs.len() as int) =~= xs);
    } else {
        assert(k <= xs.len() - 1);
        let front = xs.drop_last();
        lemma_phase_insert_at(front, item, k);
        assert(front.subrange(0, k) =~= xs.subrange(0, k));
        assert(front.subrange(k, front.len() as int) =~= xs.subrange(k, xs.len() - 1));
    }
}

proof fn lemma_dbr_insert_at(xs: Seq<(Seq<char>, Seq<char>)>, e: (Seq<char>, Seq<char>), k: int)
    requires
        0 <= k <= xs.len(),
        forall|t: int| k <= t < xs.len() ==> spec_dbr_sort_key(#[trigger] xs[t].1)
            > spec_dbr_sort_key(e.1),
        k > 0 ==> spec_dbr_sort_key(xs[k - 1].1) <= spec_dbr_sort_key(e.1),
    ensures
        spec_dbr_insert(xs, e) =~= xs.subrange(0, k) + seq![e] + xs.subrange(k, xs.len() as int),
    decreases xs.len(),
{
    if xs.len() == 0 {
    } else if spec_dbr_sort_key(xs.last().1) <= spec_dbr_sort_key(e.1) {
        assert(k == xs.len());
        assert(xs.subrange(0, xs.len() as int) =~= xs);
    } else {
        assert(k <= xs.len() - 1);
        let front = xs.drop_last();
        lemma_dbr_insert_at(front, e, k);
        assert(front.subrange(0, k) =~= xs.subrange(0, k));
        assert(front.subrange(k, front.len() as int) =~= xs.subrange(k, xs.len() - 1));
    }
}

/// The scan result for the template-style generator: phases sorted by
/// number (completed with empty entries for phase numbers only seen in
/// debris names) and the per-phase debris sorted by sequence number.
pub open spec fn spec_dst_scan(
    files: Seq<(Seq<char>, (Seq<char>, Seq<char>))>,
    stem: Seq<char>,
) -> (Seq<(Seq<char>, (Seq<char>, Seq<char>))>, Seq<(Seq<char>, Seq<(Seq<char>, Seq<char>)>)>) {
    let phases = spec_phase_list(files, stem, files.len() as int);
    let gs = spec_debris_groups(files, stem, files.len() as int);
    let complete = spec_complete_phases(phases, gs, gs.len() as int);
    (
        spec_sort_phases(complete),
        Seq::new(gs.len(), |k: int| (gs[k].0, spec_sort_dbr(gs[k].1))),
    )
}

/// Assemble the phase and debris lists out of the directory entries.
pub fn assemble_phases_debris(files: &Vec<(String, MetaEntry)>, stem: &str) -> (r: (
    Vec<(String, (String, String))>,
    Vec<(String, Vec<(String, String)>)>,
))
    ensures
        ({
            let sp = spec_dst_scan(files.deep_view(), stem@);
            r.0.deep_view() == sp.0 && r.1.deep_view() == sp.1
        }),
{
    let ghost fv = files.deep_view();
    let n = files.len();
    let mut phases: Vec<(String, (String, String))> = Vec::new();
    let mut groups: Vec<(String, Vec<(String, String)>)> = Vec::new();
    let mut i: usize = 0;
    proof {
        assert(phases.deep_view() =~~= spec_phase_list(fv, stem@, 0));
        assert(groups.deep_view() =~~= spec_debris_groups(fv, stem@, 0));
    }
    while i < n
        invariant
            i <= n,
            n == files@.len(),
            fv == files.deep_view(),
            fv.len() == n,
            phases.deep_view() == spec_phase_list(fv, stem@, i as int),
            groups.deep_view() == spec_debris_groups(fv, stem@, i as int),
        decreases n - i,
    {
        proof {
            assert(fv[i as int] == (files@[i as int].0@, files@[i as int].1@));
        }
        let ghost prevp = phases.deep_view();
        let ghost prevg = groups.deep_view();
        match match_phase_name(files[i].0.as_str(), stem) {
            Some(pid) => {
                phases.push((pid, (files[i].1.guid.clone(), files[i].1.path.clone())));
                proof {
                    assert(phases.deep_view() =~~= prevp.push(
                        (spec_phase_match(fv[i as int].0, stem@)->0, fv[i as int].1),
                    ));
                }
            },
            None => {
                match match_dst_debris_name(files[i].0.as_str(), stem) {
                    Some(pid) => {
                        let e = (files[i].1.guid.clone(), files[i].1.path.clone());
                        let ghost ev = fv[i as int].1;
                        let gl = groups.len();
                        let mut j: usize = 0;
                        let mut placed = false;
                        while j < gl && !placed
                            invariant
                                j <= gl,
                                gl == groups@.len(),
                                groups.deep_view().len() == gl,
                                i < n,
                                n == files@.len(),
                                fv == files.deep_view(),
                                fv.len() == n,
                                ev == fv[i as int].1,
                                e.0@ == ev.0 && e.1@ == ev.1,
                                pid@ == spec_dst_debris_match(fv[i as int].0, stem@)->0,
                                !placed ==> forall|t: int|
                                    0 <= t < j ==> #[trigger] groups.deep_view()[t].0 != pid@,
                                placed ==> groups.deep_view() =~~= spec_group_append(
                                    prevg,
                                    pid@,
                                    ev,
                                ),
                                !placed ==> groups.deep_view() == prevg,
                            decreases gl - j + (if placed { 0int } else { 1int }),
                        {
                            proof {
                                assert(groups.deep_view()[j as int].0 == groups@[j as int].0@);
                            }
                            if groups[j].0 == pid {
                                let ghost before = groups@;
                                let mut g = groups.remove(j);
                                proof {
                                    assert(g == before[j as int]);
                                }
                                g.1.push((e.0.clone(), e.1.clone()));
                                let ghost g1 = g;
                                groups.insert(j, g);
                                proof {
                                    assert(groups@ =~= before.remove(j as int).insert(
                                        j as int,
                                        g1,
                                    ));
                                    assert(groups@.len() == before.len());
                                    assert(groups@[j as int] == g1);
                                    assert(forall|t: int|
                                        0 <= t < groups@.len() && t != j ==> groups@[t]
                                            == before[t]);
                                    assert(g1.0@ == pid@);
                                    assert(e.0@ == ev.0 && e.1@ == ev.1);
                                    assert(g1.1@.len() == before[j as int].1@.len() + 1);
                                    assert(prevg[j as int].1 == before[j as int].1.deep_view());
                                    assert(g1.1@.last().0@ == ev.0 && g1.1@.last().1@ == ev.1);
                                    assert(g1.1.deep_view() =~~= prevg[j as int].1.push(ev));
                                    assert(groups.deep_view() =~~= prevg.update(
                                        j as int,
                                        (prevg[j as int].0, prevg[j as int].1.push(ev)),
                                    ));
                                    lemma_group_append_at(prevg, pid@, ev, j as int);
                                }
                                placed = true;
                            } else {
                                j = j + 1;
                            }
                        }
                        if !placed {
                            let mut single: Vec<(String, String)> = Vec::new();
                            single.push(e);
                            groups.push((pid, single));
                            proof {
                                lemma_group_append_at(prevg, pid@, ev, prevg.len() as int);
                                assert(groups.deep_view() =~~= prevg.push(
                                    (pid@, seq![ev]),
                                ));
                                assert(prevg.subrange(0, prevg.len() as int) =~= prevg);
                            }
                        }
                        proof {
                            assert(groups.deep_view() =~~= spec_group_append(prevg, pid@, ev));
                        }
                    },
                    None => {},
                }
            },
        }
        i = i + 1;
    }
    // Complete the phase list from the debris groups, whose keys are
    // pairwise distinct by construction.
    let ghost plist = phases.deep_view();
    let ghost glist = groups.deep_view();
    proof {
        lemma_groups_distinct(fv, stem@, fv.len() as int);
    }
    let gl = groups.len();
    let mut m: usize = 0;
    while m < gl
        invariant
            m <= gl,
            gl == groups@.len(),
            glist == groups.deep_view(),
            glist.len() == gl,
            forall|x: int, y: int|
                0 <= x < y < glist.len() ==> #[trigger] glist[x].0 != #[trigger] glist[y].0,
            plist.len() <= phases.deep_view().len(),
            phases.deep_view() == spec_complete_phases(plist, glist, m as int),
        decreases gl - m,
    {
        proof {
            assert(glist[m as int].0 == groups@[m as int].0@);
            lemma_complete_shape(plist, glist, m as int);
        }
        let pn = phases.len();
        let mut seen = false;
        let mut q: usize = 0;
        while q < pn && !seen
            invariant
                q <= pn,
                pn == phases@.len(),
                phases.deep_view().len() == pn,
                m < gl,
                gl == groups@.len(),
                glist == groups.deep_view(),
                glist.len() == gl,
                glist[m as int].0 == groups@[m as int].0@,
                seen ==> exists|t: int|
                    0 <= t < pn && #[trigger] phases.deep_view()[t].0 == glist[m as int].0,
                !seen ==> forall|t: int|
                    0 <= t < q ==> #[trigger] phases.deep_view()[t].0 != glist[m as int].0,
            decreases pn - q + (if seen { 0int } else { 1int }),
        {
            proof {
                assert(phases.deep_view()[q as int].0 == phases@[q as int].0@);
            }
            if phases[q].0 == groups[m].0 {
                seen = true;
            } else {
                q = q + 1;
            }
        }
        if !seen {
            proof {
                if spec_has_pid(plist, glist[m as int].0) {
                    let t = choose|t: int|
                        0 <= t < plist.len() && plist[t].0 == glist[m as int].0;
                    assert(phases.deep_view()[t].0 == glist[m as int].0);
                    assert(false);
                }
            }
            let ghost prevp2 = phases.deep_view();
            phases.push((groups[m].0.clone(), (String::new(), String::new())));
            proof {
                assert(phases.deep_view() =~~= prevp2.push(
                    (glist[m as int].0, (Seq::<char>::empty(), Seq::<char>::empty())),
                ));
            }
        } else {
            proof {
                // A hit must lie in the walked list itself: entries appended
                // so far carry keys of earlier groups, all distinct from
                // this one.
                let t = choose|t: int|
                    0 <= t < phases.deep_view().len() && #[trigger] phases.deep_view()[t].0
                        == glist[m as int].0;
                if t >= plist.len() {
                    let u = choose|u: int|
                        0 <= u < m && #[trigger] glist[u].0 == phases.deep_view()[t].0;
                    assert(false);
                }
                assert(spec_has_pid(plist, glist[m as int].0));
            }
        }
        m = m + 1;
    }
    // Sort the phases by numeric value.
    let ghost cplist = phases.deep_view();
    let pn2 = phases.len();
    let mut sorted: Vec<(String, (String, String))> = Vec::new();
    let mut a: usize = 0;
    proof {
        assert(sorted.deep_view() =~~= spec_sort_phases(cplist.subrange(0, 0)));
    }
    while a < pn2
        invariant
            a <= pn2,
            pn2 == phases@.len(),
            cplist == phases.deep_view(),
            cplist.len() == pn2,
            sorted.deep_view() == spec_sort_phases(cplist.subrange(0, a as int)),
        decreases pn2 - a,
    {
        proof {
            assert(cplist[a as int] == (phases@[a as int].0@, (phases@[a as int].1.0@, phases@[
                a as int
            ].1.1@)));
        }
        let keyv = chars_of(phases[a].0.as_str());
        let key = parse_num_or(&keyv, 9999);
        let k = phase_pos(&sorted, key);
        proof {
            lemma_phase_insert_at(sorted.deep_view(), cplist[a as int], k as int);
        }
        let ghost prevs = sorted.deep_view();
        sorted.insert(k, (phases[a].0.clone(), (phases[a].1.0.clone(), phases[a].1.1.clone())));
        proof {
            assert(sorted.deep_view() =~~= prevs.subrange(0, k as int) + seq![cplist[a as int]]
                + prevs.subrange(k as int, prevs.len() as int));
            assert(cplist.subrange(0, a + 1).drop_last() =~= cplist.subrange(0, a as int));
            assert(sorted.deep_view() =~= spec_sort_phases(cplist.subrange(0, a + 1)));
        }
        a = a + 1;
    }
    proof {
        assert(cplist.subrange(0, pn2 as int) =~= cplist);
    }
    // Sort each group's debris by its path's number.
    let ghost gfinal = groups.deep_view();
    let gl2 = groups.len();
    let ghost gspec = Seq::new(gfinal.len(), |k: int| (gfinal[k].0, spec_sort_dbr(gfinal[k].1)));
    let mut out_groups: Vec<(String, Vec<(String, String)>)> = Vec::new();
    let mut b: usize = 0;
    proof {
        assert(out_groups.deep_view() =~~= gspec.subrange(0, 0));
    }
    while b < gl2
        invariant
            b <= gl2,
            gl2 == groups@.len(),
            gfinal == groups.deep_view(),
            gfinal.len() == gl2,
            gspec == Seq::new(gfinal.len(), |k: int| (gfinal[k].0, spec_sort_dbr(gfinal[k].1))),
            out_groups.deep_view() == gspec.subrange(0, b as int),
        decreases gl2 - b,
    {
        proof {
            assert(gfinal[b as int] == (groups@[b as int].0@, groups@[b as int].1.deep_view()));
        }
        let ghost av = gfinal[b as int].1;
        let arr = &groups[b].1;
        let an = arr.len();
        let mut srt: Vec<(String, String)> = Vec::new();
        let mut w: usize = 0;
        proof {
            assert(srt.deep_view() =~~= spec_sort_dbr(av.subrange(0, 0)));
        }
        while w < an
            invariant
                w <= an,
                an == arr@.len(),
                av == arr.deep_view(),
                av.len() == an,
                srt.deep_view() == spec_sort_dbr(av.subrange(0, w as int)),
            decreases an - w,
        {
            proof {
                assert(av[w as int] == (arr@[w as int].0@, arr@[w as int].1@));
            }
            let key = dbr_sort_key(arr[w].1.as_str());
            let k = dbr_pos(&srt, key);
            proof {
                lemma_dbr_insert_at(srt.deep_view(), av[w as int], k as int);
            }
            let ghost prevs2 = srt.deep_view();
            srt.insert(k, (arr[w].0.clone(), arr[w].1.clone()));
            proof {
                assert(srt.deep_view() =~~= prevs2.subrange(0, k as int) + seq![av[w as int]]
                    + prevs2.subrange(k as int, prevs2.len() as int));
                assert(av.subrange(0, w + 1).drop_last() =~= av.subrange(0, w as int));
                assert(srt.deep_view() =~= spec_sort_dbr(av.subrange(0, w + 1)));
            }
            w = w + 1;
        }
        proof {
            assert(av.subrange(0, an as int) =~= av);
        }
        let ghost prevo = out_groups.deep_view();
        out_groups.push((groups[b].0.clone(), srt));
        proof {
            assert(out_groups.deep_view() =~~= prevo.push(gspec[b as int]));
            assert(out_groups.deep_view() =~= gspec.subrange(0, b + 1));
        }
        b = b + 1;
    }
    proof {
        assert(gspec.subrange(0, gl2 as int) =~= gspec);
        assert(phases.deep_view() == spec_complete_phases(plist, glist, gl as int));
    }
    (sorted, out_groups)
}

/// The insertion position among the sorted phases.
fn phase_pos(sorted: &Vec<(String, (String, String))>, key: u32) -> (k: usize)
    ensures
        k <= sorted@.len(),
        forall|t: int|
            k <= t < sorted.deep_view().len() ==> spec_num_or(
                #[trigger] sorted.deep_view()[t].0,
                9999,
            ) > key,
        k > 0 ==> spec_num_or(sorted.deep_view()[k - 1].0, 9999) <= key,
{
    let slen = sorted.len();
    let mut k: usize = slen;
    while k > 0
        invariant
            k <= slen,
            slen == sorted@.len(),
            sorted.deep_view().len() == slen,
            forall|t: int|
                k <= t < slen ==> spec_num_or(#[trigger] sorted.deep_view()[t].0, 9999) > key,
        decreases k,
    {
        proof {
            assert(sorted.deep_view()[k - 1].0 == sorted@[k - 1].0@);
        }
        let kv = chars_of(sorted[k - 1].0.as_str());
        if !(parse_num_or(&kv, 9999) > key) {
            return k;
        }
        k = k - 1;
    }
    k
}

/// The insertion position among one group's sorted debris.
fn dbr_pos(srt: &Vec<(String, String)>, key: u32) -> (k: usize)
    ensures
        k <= srt@.len(),
        forall|t: int|
            k <= t < srt.deep_view().len() ==> spec_dbr_sort_key(
                #[trigger] srt.deep_view()[t].1,
            ) > key,
        k > 0 ==> spec_dbr_sort_key(srt.deep_view()[k - 1].1) <= key,
{
    let slen = srt.len();
    let mut k: usize = slen;
    while k > 0
        invariant
            k <= slen,
            slen == srt@.len(),
            srt.deep_view().len() == slen,
            forall|t: int|
                k <= t < slen ==> spec_dbr_sort_key(#[trigger] srt.deep_view()[t].1) > key,
        decreases k,
    {
        proof {
            assert(srt.deep_view()[k - 1].1 == srt@[k - 1].1@);
        }
        if !(dbr_sort_key(srt[k - 1].1.as_str()) > key) {
            return k;
        }
        k = k - 1;
    }
    k
}

/// Where the group append lands: the first group with the key, or a fresh
/// group at the end.
proof fn lemma_group_append_at(
    gs: Seq<(Seq<char>, Seq<(Seq<char>, Seq<char>)>)>,
    pid: Seq<char>,
    e: (Seq<char>, Seq<char>),
    j: int,
)
    requires
        0 <= j <= gs.len(),
        forall|t: int| 0 <= t < j ==> #[trigger] gs[t].0 != pid,
        j < gs.len() ==> gs[j].0 == pid,
    ensures
        spec_group_append(gs, pid, e) =~= if j < gs.len() {
            gs.update(j, (gs[j].0, gs[j].1.push(e)))
        } else {
            gs.push((pid, seq![e]))
        },
    decreases gs.len(),
{
    if gs.len() == 0 {
    } else if gs[0].0 == pid {
        assert(j == 0);
        assert(seq![(gs[0].0, gs[0].1.push(e))] + gs.drop_first() =~= gs.update(
            0,
            (gs[0].0, gs[0].1.push(e)),
        ));
    } else {
        assert(j >= 1);
        let rest = gs.drop_first();
        lemma_group_append_at(rest, pid, e, j - 1);
        if j < gs.len() {
            assert(seq![gs[0]] + rest.update(j - 1, (rest[j - 1].0, rest[j - 1].1.push(e)))
                =~= gs.update(j, (gs[j].0, gs[j].1.push(e))));
        } else {
            assert(seq![gs[0]] + rest.push((pid, seq![e])) =~= gs.push((pid, seq![e])));
        }
    }
}

/// What completion builds: the walked entries stay in place, and every
/// appended entry carries the key of one of the groups already processed.
proof fn lemma_complete_shape(
    plist: Seq<(Seq<char>, (Seq<char>, Seq<char>))>,
    glist: Seq<(Seq<char>, Seq<(Seq<char>, Seq<char>)>)>,
    m: int,
)
    requires
        0 <= m <= glist.len(),
    ensures
        spec_complete_phases(plist, glist, m).len() >= plist.len(),
        forall|t: int|
            0 <= t < plist.len() ==> #[trigger] spec_complete_phases(plist, glist, m)[t]
                == plist[t],
        forall|t: int|
            plist.len() <= t < spec_complete_phases(plist, glist, m).len() ==> exists|u: int|
                0 <= u < m && glist[u].0 == #[trigger] spec_complete_phases(plist, glist, m)[t].0,
    decreases m,
{
    if m > 0 {
        lemma_complete_shape(plist, glist, m - 1);
        let front = spec_complete_phases(plist, glist, m - 1);
        let whole = spec_complete_phases(plist, glist, m);
        if !spec_has_pid(plist, glist[m - 1].0) {
            assert forall|t: int|
                plist.len() <= t < whole.len() implies exists|u: int|
                0 <= u < m && glist[u].0 == #[trigger] whole[t].0 by {
                if t < front.len() {
                    let u = choose|u: int|
                        0 <= u < m - 1 && #[trigger] glist[u].0 == front[t].0;
                    assert(glist[u].0 == whole[t].0);
                } else {
                    assert(whole[t].0 == glist[m - 1].0);
                }
            }
        }
    }
}

/// A key occurs among the groups.
pub open spec fn group_has_key(
    gs: Seq<(Seq<char>, Seq<(Seq<char>, Seq<char>)>)>,
    k: Seq<char>,
) -> bool {
    exists|x: int| 0 <= x < gs.len() && #[trigger] gs[x].0 == k
}

/// Group keys are pairwise distinct, and appending only ever adds the new
/// key.
proof fn lemma_group_append_distinct(
    gs: Seq<(Seq<char>, Seq<(Seq<char>, Seq<char>)>)>,
    pid: Seq<char>,
    e: (Seq<char>, Seq<char>),
)
    requires
        forall|x: int, y: int| 0 <= x < y < gs.len() ==> #[trigger] gs[x].0 != #[trigger] gs[y].0,
    ensures
        ({
            let r = spec_group_append(gs, pid, e);
            &&& forall|x: int, y: int|
                0 <= x < y < r.len() ==> #[trigger] r[x].0 != #[trigger] r[y].0
            &&& forall|k: Seq<char>|
                #[trigger] group_has_key(r, k) <==> (group_has_key(gs, k) || k == pid)
        }),
    decreases gs.len(),
{
    let r = spec_group_append(gs, pid, e);
    if gs.len() == 0 {
        assert forall|k: Seq<char>| #[trigger] group_has_key(r, k) implies (group_has_key(gs, k)
            || k == pid) by {
            let x = choose|x: int| 0 <= x < r.len() && r[x].0 == k;
            assert(r[0].0 == pid);
        }
        assert(r[0].0 == pid);
        assert(group_has_key(r, pid));
    } else if gs[0].0 == pid {
        assert forall|x: int, y: int|
            0 <= x < y < r.len() implies #[trigger] r[x].0 != #[trigger] r[y].0 by {
            assert(r[x].0 == gs[x].0 && r[y].0 == gs[y].0);
        }
        assert forall|k: Seq<char>| #[trigger] group_has_key(r, k) implies (group_has_key(gs, k)
            || k == pid) by {
            let x = choose|x: int| 0 <= x < r.len() && r[x].0 == k;
            assert(gs[x].0 == k);
        }
        assert forall|k: Seq<char>| group_has_key(gs, k) || k == pid implies #[trigger]
        group_has_key(r, k) by {
            if k == pid {
                assert(r[0].0 == pid);
            } else {
                let x = choose|x: int| 0 <= x < gs.len() && gs[x].0 == k;
                assert(r[x].0 == k);
            }
        }
    } else {
        let rest = gs.drop_first();
        lemma_group_append_distinct(rest, pid, e);
        let rr = spec_group_append(rest, pid, e);
        assert(r =~= seq![gs[0]] + rr);
        assert forall|x: int, y: int|
            0 <= x < y < r.len() implies #[trigger] r[x].0 != #[trigger] r[y].0 by {
            if x == 0 {
                assert(r[y].0 == rr[y - 1].0);
                if rr[y - 1].0 == gs[0].0 {
                    assert(group_has_key(rr, gs[0].0));
                    if group_has_key(rest, gs[0].0) {
                        let u = choose|u: int| 0 <= u < rest.len() && rest[u].0 == gs[0].0;
                        assert(gs[u + 1].0 == gs[0].0);
                        assert(false);
                    } else {
                        assert(gs[0].0 == pid);
                        assert(false);
                    }
                }
            } else {
                assert(r[x].0 == rr[x - 1].0 && r[y].0 == rr[y - 1].0);
            }
        }
        assert forall|k: Seq<char>| #[trigger] group_has_key(r, k) implies (group_has_key(gs, k)
            || k == pid) by {
            let x = choose|x: int| 0 <= x < r.len() && r[x].0 == k;
            if x == 0 {
                assert(gs[0].0 == k);
            } else {
                assert(rr[x - 1].0 == k);
                assert(group_has_key(rr, k));
                if group_has_key(rest, k) {
                    let u = choose|u: int| 0 <= u < rest.len() && rest[u].0 == k;
                    assert(gs[u + 1].0 == k);
                }
            }
        }
        assert forall|k: Seq<char>| group_has_key(gs, k) || k == pid implies #[trigger]
        group_has_key(r, k) by {
            if k == pid {
                assert(group_has_key(rr, pid));
                let u = choose|u: int| 0 <= u < rr.len() && rr[u].0 == pid;
                assert(r[u + 1].0 == pid);
            } else {
                let x = choose|x: int| 0 <= x < gs.len() && gs[x].0 == k;
                if x == 0 {
                    assert(r[0].0 == k);
                } else {
                    assert(rest[x - 1].0 == k);
                    assert(group_has_key(rest, k));
                    assert(group_has_key(rr, k));
                    let u = choose|u: int| 0 <= u < rr.len() && rr[u].0 == k;
                    assert(r[u + 1].0 == k);
                }
            }
        }
    }
}

/// The debris groups a scan builds carry pairwise distinct keys.
proof fn lemma_groups_distinct(
    files: Seq<(Seq<char>, (Seq<char>, Seq<char>))>,
    stem: Seq<char>,
    n: int,
)
    ensures
        forall|x: int, y: int|
            0 <= x < y < spec_debris_groups(files, stem, n).len()
                ==> #[trigger] spec_debris_groups(files, stem, n)[x].0 != #[trigger]
            spec_debris_groups(files, stem, n)[y].0,
    decreases n,
{
    if n > 0 {
        lemma_groups_distinct(files, stem, n - 1);
        let front = spec_debris_groups(files, stem, n - 1);
        if !(spec_phase_match(files[n - 1].0, stem) is Some) {
            match spec_dst_debris_match(files[n - 1].0, stem) {
                Some(pid) => {
                    lemma_group_append_distinct(front, pid, files[n - 1].1);
                },
                None => {},
            }
        }
    }
}

/// The combined geometry parameters: the sibling model's own, then the
/// base model's destructible-tagged ones, without case-insensitive
/// duplicates.
pub open spec fn spec_merge_params(
    v2: Seq<Seq<char>>,
    base: Seq<Seq<char>>,
    m: int,
) -> Seq<Seq<char>>
    decreases m,
{
    if m <= 0 {
        v2
    } else {
        let front = spec_merge_params(v2, base, m - 1);
        let p = base[m - 1];
        if crate::dstgen::spec_has_sub(spec_lower(p), "fdst_"@) && !crate::dstgen::spec_has_lower(
            front,
            spec_lower(p),
        ) {
            front.push(p)
        } else {
            front
        }
    }
}

/// Merge the base model's destructible geometry parameters into the
/// sibling model's list.
pub fn merge_geom_params(v2: &Vec<String>, base: &Vec<String>) -> (r: Vec<String>)
    ensures
        r.deep_view() == spec_merge_params(v2.deep_view(), base.deep_view(), base@.len() as int),
{
    let ghost vv = v2.deep_view();
    let ghost bv = base.deep_view();
    let mut out: Vec<String> = Vec::new();
    let vn = v2.len();
    let mut t: usize = 0;
    while t < vn
        invariant
            t <= vn,
            vn == v2@.len(),
            vv == v2.deep_view(),
            vv.len() == vn,
            out.deep_view() == vv.subrange(0, t as int),
        decreases vn - t,
    {
        let ghost prev = out.deep_view();
        out.push(v2[t].clone());
        proof {
            assert(out.deep_view() =~~= prev.push(vv[t as int]));
            assert(out.deep_view() =~= vv.subrange(0, t + 1));
        }
        t = t + 1;
    }
    proof {
        assert(out.deep_view() =~= vv) by {
            assert(vv.subrange(0, vn as int) =~= vv);
        }
    }
    let bn = base.len();
    let fd = chars_of("fdst_");
    let mut m: usize = 0;
    while m < bn
        invariant
            m <= bn,
            bn == base@.len(),
            bv == base.deep_view(),
            bv.len() == bn,
            fd@ == "fdst_"@,
            out.deep_view() == spec_merge_params(vv, bv, m as int),
        decreases bn - m,
    {
        proof {
            assert(bv[m as int] == base@[m as int]@);
        }
        let low = lower_vec(&chars_of(base[m].as_str()));
        let tagged = crate::text::find_sub(&low, &fd, 0).is_some();
        if tagged {
            let on = out.len();
            let mut seen = false;
            let mut q: usize = 0;
            while q < on && !seen
                invariant
                    q <= on,
                    on == out@.len(),
                    out.deep_view().len() == on,
                    low@ == spec_lower(bv[m as int]),
                    seen ==> crate::dstgen::spec_has_lower(out.deep_view(), spec_lower(
                        bv[m as int],
                    )),
                    !seen ==> forall|x: int|
                        0 <= x < q ==> spec_lower(#[trigger] out.deep_view()[x]) != spec_lower(
                            bv[m as int],
                        ),
                decreases on - q + (if seen { 0int } else { 1int }),
            {
                proof {
                    assert(out.deep_view()[q as int] == out@[q as int]@);
                }
                let ol = lower_vec(&chars_of(out[q].as_str()));
                if crate::text::eq_chars(&ol, &low) {
                    seen = true;
                } else {
                    q = q + 1;
                }
            }
            proof {
                if !seen && crate::dstgen::spec_has_lower(out.deep_view(), spec_lower(
                    bv[m as int],
                )) {
                    let x = choose|x: int|
                        0 <= x < out.deep_view().len() && spec_lower(out.deep_view()[x])
                            == spec_lower(bv[m as int]);
                    assert(false);
                }
            }
            if !seen {
                let ghost prev = out.deep_view();
                out.push(base[m].clone());
                proof {
                    assert(out.deep_view() =~~= prev.push(bv[m as int]));
                }
            }
        }
        m = m + 1;
    }
    out
}

} // verus!
