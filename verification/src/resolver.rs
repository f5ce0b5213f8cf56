//! The socket resolver: a socket name is matched to an indexed template by a
//! strict three-tier priority — an external-tool GUID hint, then a GUID
//! embedded in the name, then fuzzy name candidates — first hit wins.
use vstd::prelude::*;

use crate::meta::socket_prefix;
use crate::strconv::{
    chars_of, is_all_digits, is_all_hex, lower_vec, spec_all_digits, spec_all_hex, spec_lower,
    spec_upper, string_of, upper_vec,
};
use crate::strmap::AssocMap;
use crate::text::{
    collapse_runs, eq_chars, find_sub, lemma_find_some_bounds, push_all, rfind_char,
    spec_collapse_runs, spec_find, spec_rfind, spec_starts_with, spec_trim, spec_trim_char,
    starts_with_at, subrange_vec, trim_char_vec, trim_vec,
};

verus! {

/// A socket key normalized for hint lookup: trimmed, lowercased, with `-`
/// and spaces turned into `_`.
pub open spec fn spec_normalize_key(s: Seq<char>) -> Seq<char> {
    spec_lower(spec_trim(s)).map_values(
        |c: char|
            if c == '-' || c == ' ' {
                '_'
            } else {
                c
            },
    )
}

/// Normalize a socket name for external-hint lookup.
pub fn normalize_socket_key(s: &str) -> (r: String)
    ensures
        r@ == spec_normalize_key(s@),
{
    let cs = chars_of(s);
    let t = lower_vec(&trim_vec(&cs));
    let n = t.len();
    let mut out: Vec<char> = Vec::new();
    let mut i: usize = 0;
    while i < n
        invariant
            i <= n,
            n == t@.len(),
            out@ == t@.subrange(0, i as int).map_values(
                |c: char|
                    if c == '-' || c == ' ' {
                        '_'
                    } else {
                        c
                    },
            ),
        decreases n - i,
    {
        let c = t[i];
        if c == '-' || c == ' ' {
            out.push('_');
        } else {
            out.push(c);
        }
        assert(out@ =~= t@.subrange(0, i + 1).map_values(
            |c: char|
                if c == '-' || c == ' ' {
                    '_'
                } else {
                    c
                },
        )) by {
            assert(t@.subrange(0, i + 1).drop_last() == t@.subrange(0, i as int));
        }
        i = i + 1;
    }
    assert(t@.subrange(0, n as int) =~= t@);
    string_of(&out)
}

/// The GUID embedded in a socket name: after the `socket_` prefix the next
/// 16 characters, when they are all hexadecimal, uppercased.
pub open spec fn spec_socket_guid(name: Seq<char>) -> Option<Seq<char>> {
    let l = spec_lower(spec_trim(name));
    if spec_starts_with(l, socket_prefix()) && l.len() >= 23 {
        let g = l.subrange(7, 23);
        if spec_all_hex(g) {
            Some(spec_upper(g))
        } else {
            None
        }
    } else {
        None
    }
}

/// Extract the 16-hex-digit GUID embedded right after `socket_`, if any.
pub fn extract_guid_from_socket_name(name: &str) -> (r: Option<String>)
    ensures
        match r {
            Some(g) => spec_socket_guid(name@) == Some(g@),
            None => spec_socket_guid(name@) is None,
        },
{
    let cs = chars_of(name);
    let l = lower_vec(&trim_vec(&cs));
    let sock: Vec<char> = vec!['s', 'o', 'c', 'k', 'e', 't', '_'];
    assert(sock@ =~= socket_prefix());
    if starts_with_at(&l, &sock, 0) && l.len() >= 23 {
        let g = subrange_vec(&l, 7, 23);
        if is_all_hex(&g) {
            Some(string_of(&upper_vec(&g)))
        } else {
            None
        }
    } else {
        None
    }
}

/// The `.et` extension appended to a name candidate.
pub open spec fn et_ext() -> Seq<char> {
    seq!['.', 'e', 't']
}

/// The fuzzy name candidates derived from a socket's semantic tail: the
/// trimmed, lowercased tail after `socket_`, cut at `.et`, dots turned to
/// underscores, runs of underscores collapsed, edges trimmed of
/// underscores; and, when the tail ends in `_<digits>`, also the tail with
/// that suffix stripped.
pub open spec fn spec_candidates(name: Seq<char>) -> Seq<Seq<char>> {
    let s = spec_lower(spec_trim(name));
    if !spec_starts_with(s, socket_prefix()) {
        Seq::empty()
    } else {
        let tail0 = s.subrange(7, s.len() as int);
        let tail1 = match spec_find(tail0, et_ext(), 0) {
            Some(p) => tail0.subrange(0, p),
            None => tail0,
        };
        let tail2 = tail1.map_values(
            |c: char|
                if c == '.' {
                    '_'
                } else {
                    c
                },
        );
        let tail = spec_trim_char(spec_collapse_runs(tail2, '_'), '_');
        let first: Seq<Seq<char>> = if tail.len() > 0 {
            seq![tail]
        } else {
            Seq::empty()
        };
        match spec_rfind(tail, '_') {
            Some(p) => {
                let stem = tail.subrange(0, p);
                let sfx = tail.subrange(p + 1, tail.len() as int);
                if spec_all_digits(sfx) && stem.len() > 0 && !first.contains(stem) {
                    first.push(stem)
                } else {
                    first
                }
            },
            None => first,
        }
    }
}

/// Derive the ordered fuzzy candidates from a socket name.
pub fn prefab_candidates_from_socket(socket_name: &str) -> (r: Vec<String>)
    ensures
        r.deep_view() == spec_candidates(socket_name@),
{
    let cs = chars_of(socket_name);
    let s = lower_vec(&trim_vec(&cs));
    let sock: Vec<char> = vec!['s', 'o', 'c', 'k', 'e', 't', '_'];
    assert(sock@ =~= socket_prefix());
    let mut out: Vec<String> = Vec::new();
    if !starts_with_at(&s, &sock, 0) {
        assert(out.deep_view() =~= spec_candidates(socket_name@));
        return out;
    }
    let tail0 = subrange_vec(&s, 7, s.len());
    let etp: Vec<char> = vec!['.', 'e', 't'];
    assert(etp@ =~= et_ext());
    let tail1 = match find_sub(&tail0, &etp, 0) {
        Some(p) => {
            proof {
                lemma_find_some_bounds(tail0@, etp@, 0);
            }
            subrange_vec(&tail0, 0, p)
        },
        None => tail0,
    };
    let m = tail1.len();
    let mut tail2: Vec<char> = Vec::new();
    let mut i: usize = 0;
    while i < m
        invariant
            i <= m,
            m == tail1@.len(),
            tail2@ == tail1@.subrange(0, i as int).map_values(
                |c: char|
                    if c == '.' {
                        '_'
                    } else {
                        c
                    },
            ),
        decreases m - i,
    {
        let c = tail1[i];
        if c == '.' {
            tail2.push('_');
        } else {
            tail2.push(c);
        }
        assert(tail2@ =~= tail1@.subrange(0, i + 1).map_values(
            |c: char|
                if c == '.' {
                    '_'
                } else {
                    c
                },
        )) by {
            assert(tail1@.subrange(0, i + 1).drop_last() == tail1@.subrange(0, i as int));
        }
        i = i + 1;
    }
    assert(tail1@.subrange(0, m as int) =~= tail1@);
    let tail = trim_char_vec(&collapse_runs(&tail2, '_'), '_');
    let ghost tv = tail@;
    if tail.len() > 0 {
        out.push(string_of(&tail));
    }
    let ghost first = out.deep_view();
    proof {
        if tv.len() > 0 {
            assert(first =~= seq![tv]);
        } else {
            assert(first =~= Seq::<Seq<char>>::empty());
        }
    }
    match rfind_char(&tail, '_') {
        Some(p) => {
            proof {
                lemma_rfind_bounds(tail@, '_');
            }
            let stem = subrange_vec(&tail, 0, p);
            let sfx = subrange_vec(&tail, p + 1, tail.len());
            if is_all_digits(&sfx) && stem.len() > 0 && !eq_chars(&stem, &tail) {
                let ghost prev = out.deep_view();
                out.push(string_of(&stem));
                assert(out.deep_view() =~~= prev.push(stem@));
                proof {
                    if first.contains(stem@) {
                        assert(first[0] == stem@);
                        assert(tv == stem@);
                        assert(false);
                    }
                }
            } else {
                proof {
                    if stem@.len() > 0 && spec_all_digits(sfx@) {
                        assert(eq_chars_holds(stem@, tv));
                        assert(first.contains(stem@)) by {
                            assert(first[0] == stem@);
                        }
                    }
                }
            }
        },
        None => {},
    }
    assert(out.deep_view() =~~= spec_candidates(socket_name@));
    out
}

/// Helper naming the fact that two equal sequences compare equal.
spec fn eq_chars_holds(a: Seq<char>, b: Seq<char>) -> bool {
    a == b
}

/// A found last position is in range.
proof fn lemma_rfind_bounds(s: Seq<char>, c: char)
    ensures
        spec_rfind(s, c) matches Some(i) ==> 0 <= i < s.len(),
    decreases s.len(),
{
    if s.len() > 0 && s.last() != c {
        lemma_rfind_bounds(s.drop_last(), c);
    }
}

/// The first candidate, from `i` on, whose `.et` key is in the name index.
pub open spec fn spec_candidate_hit(
    cands: Seq<Seq<char>>,
    names: Map<Seq<char>, Seq<char>>,
    i: int,
) -> Option<Seq<char>>
    decreases cands.len() - i,
{
    if i < 0 || i >= cands.len() {
        None
    } else {
        let key = cands[i] + et_ext();
        if names.contains_key(key) {
            Some(names[key])
        } else {
            spec_candidate_hit(cands, names, i + 1)
        }
    }
}

/// The three-tier resolution, first hit wins: an external hint whose GUID is
/// indexed; a GUID embedded in the socket name; the first fuzzy candidate
/// with an indexed `.et` name. The lookups read `guids` for tiers one and
/// two and `names` for tier three, so the same scheme resolves either
/// declared names or paths.
pub open spec fn spec_resolve(
    socket: Seq<char>,
    hints: Option<Map<Seq<char>, Seq<char>>>,
    guids: Map<Seq<char>, Seq<char>>,
    names: Map<Seq<char>, Seq<char>>,
) -> Option<Seq<char>> {
    let tier1 = match hints {
        Some(h) => {
            let k = spec_normalize_key(socket);
            if h.contains_key(k) && guids.contains_key(h[k]) {
                Some(guids[h[k]])
            } else {
                None
            }
        },
        None => None,
    };
    if tier1 is Some {
        tier1
    } else {
        let tier2 = match spec_socket_guid(socket) {
            Some(g) => if guids.contains_key(g) {
                Some(guids[g])
            } else {
                None
            },
            None => None,
        };
        if tier2 is Some {
            tier2
        } else {
            spec_candidate_hit(spec_candidates(socket), names, 0)
        }
    }
}

/// Resolve one socket against the given indices.
pub fn resolve_socket(
    socket: &str,
    hints: Option<&AssocMap<String>>,
    guids: &AssocMap<String>,
    names: &AssocMap<String>,
) -> (r: Option<String>)
    requires
        guids.wf(),
        names.wf(),
        match hints {
            Some(h) => h.wf(),
            None => true,
        },
    ensures
        match r {
            Some(v) => spec_resolve(
                socket@,
                match hints {
                    Some(h) => Some(h@),
                    None => None,
                },
                guids@,
                names@,
            ) == Some(v@),
            None => spec_resolve(
                socket@,
                match hints {
                    Some(h) => Some(h@),
                    None => None,
                },
                guids@,
                names@,
            ) is None,
        },
{
    let ghost hview: Option<Map<Seq<char>, Seq<char>>> = match hints {
        Some(h) => Some(h@),
        None => None,
    };
    match hints {
        Some(h) => {
            let k = normalize_socket_key(socket);
            match h.get(&k) {
                Some(g) => {
                    match guids.get(g) {
                        Some(v) => {
                            proof {
                                assert(spec_resolve(socket@, hview, guids@, names@) == Some(v@));
                            }
                            return Some(v.clone());
                        },
                        None => {},
                    }
                },
                None => {},
            }
        },
        None => {},
    }
    match extract_guid_from_socket_name(socket) {
        Some(g) => {
            match guids.get(&g) {
                Some(v) => {
                    proof {
                        assert(spec_resolve(socket@, hview, guids@, names@) == Some(v@));
                    }
                    return Some(v.clone());
                },
                None => {},
            }
        },
        None => {},
    }
    let cands = prefab_candidates_from_socket(socket);
    let ghost cvs = cands.deep_view();
    proof {
        assert(spec_resolve(socket@, hview, guids@, names@) == spec_candidate_hit(
            cvs,
            names@,
            0,
        ));
    }
    let n = cands.len();
    let mut i: usize = 0;
    while i < n
        invariant
            i <= n,
            n == cands@.len(),
            cvs == cands.deep_view(),
            cvs.len() == n,
            names.wf(),
            hview == (match hints {
                Some(h) => Some(h@),
                None => None,
            }),
            spec_resolve(socket@, hview, guids@, names@) == spec_candidate_hit(
                cvs,
                names@,
                0,
            ),
            spec_candidate_hit(cvs, names@, 0) == spec_candidate_hit(cvs, names@, i as int),
        decreases n - i,
    {
        let mut keyc = chars_of(cands[i].as_str());
        let etp: Vec<char> = vec!['.', 'e', 't'];
        push_all(&mut keyc, &etp);
        let key = string_of(&keyc);
        proof {
            assert(cvs[i as int] == cands@[i as int]@);
            assert(key@ == cvs[i as int] + et_ext());
        }
        match names.get(&key) {
            Some(v) => {
                proof {
                    assert(spec_candidate_hit(cvs, names@, i as int) == Some(names@[key@]));
                    assert(spec_resolve(socket@, hview, guids@, names@) == Some(v@));
                }
                return Some(v.clone());
            },
            None => {},
        }
        proof {
            assert(spec_candidate_hit(cvs, names@, i as int) == spec_candidate_hit(
                cvs,
                names@,
                i + 1,
            ));
        }
        i = i + 1;
    }
    proof {
        assert(spec_candidate_hit(cvs, names@, i as int) is None);
        assert(spec_resolve(socket@, hview, guids@, names@) is None);
    }
    None
}

/// The external-tool hint beats a GUID embedded in the socket name: whenever
/// the hint's GUID is indexed, its template is the resolution, whatever GUID
/// the name itself embeds and wherever that one points.
pub proof fn lemma_resolver_priority(
    socket: Seq<char>,
    h: Map<Seq<char>, Seq<char>>,
    guids: Map<Seq<char>, Seq<char>>,
    names: Map<Seq<char>, Seq<char>>,
)
    requires
        h.contains_key(spec_normalize_key(socket)),
        guids.contains_key(h[spec_normalize_key(socket)]),
    ensures
        spec_resolve(socket, Some(h), guids, names) == Some(
            guids[h[spec_normalize_key(socket)]],
        ),
{
}

/// The matched `(socket, prefab)` pairs among the first `n` sockets, in
/// order; unresolved sockets are absent, never a placeholder.
pub open spec fn spec_matches(
    sockets: Seq<Seq<char>>,
    hints: Option<Map<Seq<char>, Seq<char>>>,
    guids: Map<Seq<char>, Seq<char>>,
    names: Map<Seq<char>, Seq<char>>,
    n: int,
) -> Seq<(Seq<char>, Seq<char>)>
    decreases n,
{
    if n <= 0 {
        Seq::empty()
    } else {
        let front = spec_matches(sockets, hints, guids, names, n - 1);
        match spec_resolve(sockets[n - 1], hints, guids, names) {
            Some(v) => front.push((sockets[n - 1], v)),
            None => front,
        }
    }
}

/// Match every socket against the indices, keeping the resolved pairs.
pub fn match_sockets(
    sockets: &Vec<String>,
    hints: Option<&AssocMap<String>>,
    guids: &AssocMap<String>,
    names: &AssocMap<String>,
) -> (maps: Vec<(String, String)>)
    requires
        guids.wf(),
        names.wf(),
        match hints {
            Some(h) => h.wf(),
            None => true,
        },
    ensures
        maps.deep_view() == spec_matches(
            sockets.deep_view(),
            match hints {
                Some(h) => Some(h@),
                None => None,
            },
            guids@,
            names@,
            sockets@.len() as int,
        ),
{
    let ghost hview: Option<Map<Seq<char>, Seq<char>>> = match hints {
        Some(h) => Some(h@),
        None => None,
    };
    let ghost svs = sockets.deep_view();
    let n = sockets.len();
    let mut out: Vec<(String, String)> = Vec::new();
    let mut i: usize = 0;
    proof {
        assert(out.deep_view() =~= spec_matches(svs, hview, guids@, names@, 0));
    }
    while i < n
        invariant
            i <= n,
            n == sockets@.len(),
            svs == sockets.deep_view(),
            svs.len() == n,
            guids.wf(),
            names.wf(),
            match hints {
                Some(h) => h.wf(),
                None => true,
            },
            hview == (match hints {
                Some(h) => Some(h@),
                None => None,
            }),
            out.deep_view() == spec_matches(svs, hview, guids@, names@, i as int),
        decreases n - i,
    {
        proof {
            assert(svs[i as int] == sockets@[i as int]@);
        }
        let ghost prev = out.deep_view();
        match resolve_socket(sockets[i].as_str(), hints, guids, names) {
            Some(v) => {
                out.push((sockets[i].clone(), v));
                assert(out.deep_view() =~~= prev.push((svs[i as int], svs[i as int])).update(
                    prev.len() as int,
                    (sockets@[i as int]@, spec_resolve(svs[i as int], hview, guids@, names@)->0),
                ));
            },
            None => {},
        }
        proof {
            assert(out.deep_view() =~~= spec_matches(svs, hview, guids@, names@, i + 1));
        }
        i = i + 1;
    }
    out
}

/// Whether a directory is suggested: not already known, and not under the
/// excluded root (compared lowercased).
pub open spec fn spec_dir_allowed(
    dir: Seq<char>,
    known: Seq<Seq<char>>,
    excl: Option<Seq<char>>,
) -> bool {
    !known.contains(dir) && match excl {
        Some(root) => !spec_starts_with(spec_lower(dir), spec_lower(root)),
        None => true,
    }
}

/// The directory a matched socket's template lies in, through the same
/// three tiers applied to the path indices.
pub open spec fn spec_dir_for_socket(
    socket: Seq<char>,
    hints: Option<Map<Seq<char>, Seq<char>>>,
    guids: Map<Seq<char>, Seq<char>>,
    names: Map<Seq<char>, Seq<char>>,
    gpaths: Map<Seq<char>, Seq<char>>,
    epaths: Map<Seq<char>, Seq<char>>,
) -> Option<Seq<char>> {
    if spec_resolve(socket, hints, guids, names) is Some {
        match spec_resolve(socket, hints, gpaths, epaths) {
            Some(p) => crate::paths::spec_parent(p),
            None => None,
        }
    } else {
        None
    }
}

/// The suggested directories after the first `n` sockets, deduplicated in
/// first-appearance order.
pub open spec fn spec_suggest(
    sockets: Seq<Seq<char>>,
    hints: Option<Map<Seq<char>, Seq<char>>>,
    guids: Map<Seq<char>, Seq<char>>,
    names: Map<Seq<char>, Seq<char>>,
    gpaths: Map<Seq<char>, Seq<char>>,
    epaths: Map<Seq<char>, Seq<char>>,
    known: Seq<Seq<char>>,
    excl: Option<Seq<char>>,
    n: int,
) -> Seq<Seq<char>>
    decreases n,
{
    if n <= 0 {
        Seq::empty()
    } else {
        let acc = spec_suggest(sockets, hints, guids, names, gpaths, epaths, known, excl, n - 1);
        match spec_dir_for_socket(sockets[n - 1], hints, guids, names, gpaths, epaths) {
            Some(dir) => if spec_dir_allowed(dir, known, excl) && !acc.contains(dir) {
                acc.push(dir)
            } else {
                acc
            },
            None => acc,
        }
    }
}

/// Whether a string occurs in a list.
fn list_has(xs: &Vec<String>, x: &String) -> (r: bool)
    ensures
        r == xs.deep_view().contains(x@),
{
    let n = xs.len();
    let mut i: usize = 0;
    while i < n
        invariant
            i <= n,
            n == xs@.len(),
            forall|j: int| 0 <= j < i ==> xs.deep_view()[j] != x@,
        decreases n - i,
    {
        proof {
            assert(xs.deep_view()[i as int] == xs@[i as int]@);
        }
        if xs[i] == *x {
            proof {
                assert(xs.deep_view()[i as int] == x@);
            }
            return true;
        }
        i = i + 1;
    }
    proof {
        if xs.deep_view().contains(x@) {
            let j = choose|j: int| 0 <= j < xs.deep_view().len() && xs.deep_view()[j] == x@;
            assert(false);
        }
    }
    false
}

/// Map each matched socket to its template's directory, drop directories
/// already known or under the excluded root, and keep first appearances.
pub fn suggest_source_directories(
    sockets: &Vec<String>,
    hints: Option<&AssocMap<String>>,
    guids: &AssocMap<String>,
    names: &AssocMap<String>,
    gpaths: &AssocMap<String>,
    epaths: &AssocMap<String>,
    known_dirs: &Vec<String>,
    excluded_root: Option<&String>,
) -> (r: Vec<String>)
    requires
        guids.wf(),
        names.wf(),
        gpaths.wf(),
        epaths.wf(),
        match hints {
            Some(h) => h.wf(),
            None => true,
        },
    ensures
        r.deep_view() == spec_suggest(
            sockets.deep_view(),
            match hints {
                Some(h) => Some(h@),
                None => None,
            },
            guids@,
            names@,
            gpaths@,
            epaths@,
            known_dirs.deep_view(),
            match excluded_root {
                Some(e) => Some(e@),
                None => None,
            },
            sockets@.len() as int,
        ),
{
    let ghost hview: Option<Map<Seq<char>, Seq<char>>> = match hints {
        Some(h) => Some(h@),
        None => None,
    };
    let ghost exview: Option<Seq<char>> = match excluded_root {
        Some(e) => Some(e@),
        None => None,
    };
    let ghost svs = sockets.deep_view();
    let ghost kvs = known_dirs.deep_view();
    let n = sockets.len();
    let mut out: Vec<String> = Vec::new();
    let mut i: usize = 0;
    proof {
        assert(out.deep_view() =~= spec_suggest(
            svs,
            hview,
            guids@,
            names@,
            gpaths@,
            epaths@,
            kvs,
            exview,
            0,
        ));
    }
    while i < n
        invariant
            i <= n,
            n == sockets@.len(),
            svs == sockets.deep_view(),
            svs.len() == n,
            kvs == known_dirs.deep_view(),
            guids.wf(),
            names.wf(),
            gpaths.wf(),
            epaths.wf(),
            match hints {
                Some(h) => h.wf(),
                None => true,
            },
            hview == (match hints {
                Some(h) => Some(h@),
                None => None,
            }),
            exview == (match excluded_root {
                Some(e) => Some(e@),
                None => None,
            }),
            out.deep_view() == spec_suggest(
                svs,
                hview,
                guids@,
                names@,
                gpaths@,
                epaths@,
                kvs,
                exview,
                i as int,
            ),
        decreases n - i,
    {
        proof {
            assert(svs[i as int] == sockets@[i as int]@);
        }
        let resolved = resolve_socket(sockets[i].as_str(), hints, guids, names);
        let ghost prev = out.deep_view();
        match resolved {
            Some(_) => {
                match resolve_socket(sockets[i].as_str(), hints, gpaths, epaths) {
                    Some(p) => {
                        match crate::paths::parent_of(p.as_str()) {
                            Some(dir) => {
                                let mut allowed = !list_has(known_dirs, &dir);
                                if allowed {
                                    match excluded_root {
                                        Some(root) => {
                                            let dl = crate::strconv::lower_vec(
                                                &chars_of(dir.as_str()),
                                            );
                                            let rl = crate::strconv::lower_vec(
                                                &chars_of(root.as_str()),
                                            );
                                            if starts_with_at(&dl, &rl, 0) {
                                                allowed = false;
                                            }
                                        },
                                        None => {},
                                    }
                                }
                                if allowed && !list_has(&out, &dir) {
                                    out.push(dir);
                                    assert(out.deep_view() =~~= prev.push(
                                        spec_dir_for_socket(
                                            svs[i as int],
                                            hview,
                                            guids@,
                                            names@,
                                            gpaths@,
                                            epaths@,
                                        )->0,
                                    ));
                                }
                            },
                            None => {},
                        }
                    },
                    None => {},
                }
            },
            None => {},
        }
        proof {
            assert(out.deep_view() =~~= spec_suggest(
                svs,
                hview,
                guids@,
                names@,
                gpaths@,
                epaths@,
                kvs,
                exview,
                i + 1,
            ));
        }
        i = i + 1;
    }
    out
}

} // verus!
