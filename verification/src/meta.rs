//! Metadata reading: the `Name "..."` field of a model sidecar, the
//! brace-delimited 16-hex-digit GUID at its front, and the socket names
//! declared in a companion sidecar.
use vstd::prelude::*;

use crate::strconv::{
    chars_of, is_all_hex, spec_all_hex, spec_lower, spec_upper, string_of, upper_vec,
};
use crate::text::{
    find_sub, lemma_find_props, lemma_find_some_bounds, match_at, spec_find, spec_starts_with,
    spec_trim, spec_trim_start, starts_with_at, subrange_vec, trim_start_vec, trim_vec,
};

verus! {

/// Why a sidecar's object field could not be read.
#[derive(Clone, Copy, Debug, PartialEq, Eq, Structural)]
pub enum MetaError {
    /// No `Name "` field occurs in the text.
    NameFieldMissing,
    /// The `Name "` field has no closing quote.
    NameFieldUnterminated,
    /// The field's value does not start with a well-formed braced GUID.
    GuidMissing,
}

/// The opening of the name field: `Name "`.
pub open spec fn name_field_pat() -> Seq<char> {
    seq!['N', 'a', 'm', 'e', ' ', '"']
}

/// A name value: the GUID in braces, then the relative path.
pub open spec fn spec_format_name(guid: Seq<char>, path: Seq<char>) -> Seq<char> {
    seq!['{'] + guid + seq!['}'] + path
}

/// `"{guid}path"`, the declared-name convention of the sidecar format.
pub fn format_name_value(guid: &str, path: &str) -> (r: String)
    ensures
        r@ == spec_format_name(guid@, path@),
{
    let g = chars_of(guid);
    let p = chars_of(path);
    let mut out: Vec<char> = Vec::new();
    out.push('{');
    let mut i: usize = 0;
    while i < g.len()
        invariant
            i <= g@.len(),
            out@ == seq!['{'] + g@.subrange(0, i as int),
        decreases g@.len() - i,
    {
        out.push(g[i]);
        assert(out@ =~= seq!['{'] + g@.subrange(0, i + 1));
        i = i + 1;
    }
    assert(out@ =~= seq!['{'] + g@);
    out.push('}');
    let mut j: usize = 0;
    while j < p.len()
        invariant
            j <= p@.len(),
            out@ == seq!['{'] + g@ + seq!['}'] + p@.subrange(0, j as int),
        decreases p@.len() - j,
    {
        out.push(p[j]);
        assert(out@ =~= seq!['{'] + g@ + seq!['}'] + p@.subrange(0, j + 1));
        j = j + 1;
    }
    assert(out@ =~= spec_format_name(guid@, path@));
    string_of(&out)
}

/// The GUID extracted from a name value: after leading whitespace the value
/// must open with `{`, and the 16 characters up to the first `}` must all be
/// hexadecimal; the result is uppercased.
pub open spec fn spec_extract_guid(s: Seq<char>) -> Option<Seq<char>> {
    let t = spec_trim_start(s);
    if t.len() > 0 && t[0] == '{' {
        match spec_find(t, seq!['}'], 1) {
            Some(j) => {
                let g = t.subrange(1, j);
                if g.len() == 16 && spec_all_hex(g) {
                    Some(spec_upper(g))
                } else {
                    None
                }
            },
            None => None,
        }
    } else {
        None
    }
}

/// Extract the braced 16-hex-digit GUID from the front of a name value.
pub fn extract_guid(name_value: &str) -> (r: Option<String>)
    ensures
        match r {
            Some(g) => spec_extract_guid(name_value@) == Some(g@),
            None => spec_extract_guid(name_value@) is None,
        },
{
    let s = chars_of(name_value);
    let t = trim_start_vec(&s);
    if t.len() > 0 && t[0] == '{' {
        let close: Vec<char> = vec!['}'];
        assert(close@ =~= seq!['}']);
        match find_sub(&t, &close, 1) {
            Some(j) => {
                proof {
                    lemma_find_some_bounds(t@, close@, 1);
                }
                let g = subrange_vec(&t, 1, j);
                if g.len() == 16 && is_all_hex(&g) {
                    Some(string_of(&upper_vec(&g)))
                } else {
                    None
                }
            },
            None => None,
        }
    } else {
        None
    }
}

/// GUID extraction round-trips with name formatting: for any 16 hexadecimal
/// characters, the GUID read back out of `spec_format_name(guid, path)` is
/// the uppercased GUID, whatever the path.
pub proof fn lemma_guid_roundtrip(guid: Seq<char>, path: Seq<char>)
    requires
        guid.len() == 16,
        spec_all_hex(guid),
    ensures
        spec_extract_guid(spec_format_name(guid, path)) == Some(spec_upper(guid)),
{
    let s = spec_format_name(guid, path);
    assert(s[0] == '{');
    assert(spec_trim_start(s) == s);
    assert(match_at(s, seq!['}'], 17)) by {
        assert(s.subrange(17, 18) =~= seq!['}']);
    }
    lemma_find_props(s, seq!['}'], 1);
    match spec_find(s, seq!['}'], 1) {
        Some(j) => {
            assert(j <= 17);
            if j < 17 {
                assert(match_at(s, seq!['}'], j));
                assert(s[j] == '}') by {
                    assert(s.subrange(j, j + 1)[0] == s[j]);
                }
                assert(s[j] == guid[j - 1]);
                assert(false);
            }
            assert(s.subrange(1, 17) =~= guid);
        },
        None => {
            assert(!match_at(s, seq!['}'], 17));
            assert(false);
        },
    }
}

/// The first `Name "..."` value in a sidecar text, trimmed.
pub open spec fn spec_name_field(s: Seq<char>) -> Option<Seq<char>> {
    match spec_find(s, name_field_pat(), 0) {
        Some(i) => match spec_find(s, seq!['"'], i + 6) {
            Some(j) => Some(spec_trim(s.subrange(i + 6, j))),
            None => None,
        },
        None => None,
    }
}

/// Locate the first `Name "..."` field and return its trimmed value.
pub fn parse_meta_name_field(text: &str) -> (r: Option<String>)
    ensures
        match r {
            Some(v) => spec_name_field(text@) == Some(v@),
            None => spec_name_field(text@) is None,
        },
{
    let s = chars_of(text);
    let n = s.len();
    assert(n == s@.len());
    let pat: Vec<char> = vec!['N', 'a', 'm', 'e', ' ', '"'];
    assert(pat@ =~= name_field_pat());
    let quote: Vec<char> = vec!['"'];
    assert(quote@ =~= seq!['"']);
    match find_sub(&s, &pat, 0) {
        Some(i) => {
            proof {
                lemma_find_some_bounds(s@, pat@, 0);
            }
            match find_sub(&s, &quote, i + 6) {
                Some(j) => {
                    proof {
                        lemma_find_some_bounds(s@, quote@, i + 6);
                    }
                    let v = subrange_vec(&s, i + 6, j);
                    Some(string_of(&trim_vec(&v)))
                },
                None => None,
            }
        },
        None => None,
    }
}

/// The `(GUID, relative path)` pair declared by a sidecar text: the name
/// field's value must open with a braced GUID; the path is everything after
/// the first closing brace (or the whole value if none).
pub open spec fn spec_object_field(s: Seq<char>) -> Result<(Seq<char>, Seq<char>), MetaError> {
    match spec_find(s, name_field_pat(), 0) {
        None => Err(MetaError::NameFieldMissing),
        Some(i) => match spec_find(s, seq!['"'], i + 6) {
            None => Err(MetaError::NameFieldUnterminated),
            Some(j) => {
                let nv = spec_trim(s.subrange(i + 6, j));
                match spec_extract_guid(nv) {
                    None => Err(MetaError::GuidMissing),
                    Some(g) => {
                        let rel = match spec_find(nv, seq!['}'], 0) {
                            Some(c) => nv.subrange(c + 1, nv.len() as int),
                            None => nv,
                        };
                        Ok((g, rel))
                    },
                }
            },
        },
    }
}

/// Read the declared GUID and relative path out of a sidecar text.
pub fn parse_object_field(text: &str) -> (r: Result<(String, String), MetaError>)
    ensures
        match r {
            Ok(p) => spec_object_field(text@) == Ok::<_, MetaError>((p.0@, p.1@)),
            Err(e) => spec_object_field(text@) == Err::<(Seq<char>, Seq<char>), _>(e),
        },
{
    let s = chars_of(text);
    let n = s.len();
    assert(n == s@.len());
    let pat: Vec<char> = vec!['N', 'a', 'm', 'e', ' ', '"'];
    assert(pat@ =~= name_field_pat());
    let quote: Vec<char> = vec!['"'];
    assert(quote@ =~= seq!['"']);
    match find_sub(&s, &pat, 0) {
        None => Err(MetaError::NameFieldMissing),
        Some(i) => {
            proof {
                lemma_find_some_bounds(s@, pat@, 0);
            }
            match find_sub(&s, &quote, i + 6) {
                None => Err(MetaError::NameFieldUnterminated),
                Some(j) => {
                    proof {
                        lemma_find_some_bounds(s@, quote@, i + 6);
                    }
                    let raw = subrange_vec(&s, i + 6, j);
                    let nv = trim_vec(&raw);
                    let t = trim_start_vec(&nv);
                    let close: Vec<char> = vec!['}'];
                    assert(close@ =~= seq!['}']);
                    let guid_opt = if t.len() > 0 && t[0] == '{' {
                        match find_sub(&t, &close, 1) {
                            Some(k) => {
                                proof {
                                    lemma_find_some_bounds(t@, close@, 1);
                                }
                                let g = subrange_vec(&t, 1, k);
                                if g.len() == 16 && is_all_hex(&g) {
                                    Some(upper_vec(&g))
                                } else {
                                    None
                                }
                            },
                            None => None,
                        }
                    } else {
                        None
                    };
                    match guid_opt {
                        None => Err(MetaError::GuidMissing),
                        Some(g) => {
                            let hi = nv.len();
                            let rel = match find_sub(&nv, &close, 0) {
                                Some(c) => {
                                    proof {
                                        lemma_find_some_bounds(nv@, close@, 0);
                                    }
                                    subrange_vec(&nv, c + 1, hi)
                                },
                                None => nv,
                            };
                            Ok((string_of(&g), string_of(&rel)))
                        },
                    }
                },
            }
        },
    }
}

/// The node-declaration openings scanned for in a socket sidecar.
pub open spec fn node_pat_tight() -> Seq<char> {
    seq!['$', 'n', 'o', 'd', 'e', '"']
}

pub open spec fn node_pat_spaced() -> Seq<char> {
    seq!['$', 'n', 'o', 'd', 'e', ' ', '"']
}

/// The socket-name prefix, compared case-insensitively.
pub open spec fn socket_prefix() -> Seq<char> {
    seq!['s', 'o', 'c', 'k', 'e', 't', '_']
}

/// The socket names declared at or after `pos`: at each node declaration the
/// next quoted name is taken, trimmed, and kept when it starts with
/// `socket_` (case-insensitively); duplicates are kept, in file order.
pub open spec fn spec_txo_sockets_from(s: Seq<char>, pos: int) -> Seq<Seq<char>>
    decreases s.len() - pos,
    via spec_txo_sockets_from_decreases
{
    if pos < 0 || pos >= s.len() {
        Seq::empty()
    } else if match_at(s, node_pat_tight(), pos) || match_at(s, node_pat_spaced(), pos) {
        match spec_find(s, seq!['"'], pos) {
            Some(q1) => match spec_find(s, seq!['"'], q1 + 1) {
                Some(q2) => {
                    let name = spec_trim(s.subrange(q1 + 1, q2));
                    (if spec_starts_with(spec_lower(name), socket_prefix()) {
                        seq![name]
                    } else {
                        Seq::empty()
                    }) + spec_txo_sockets_from(s, q2 + 1)
                },
                None => spec_txo_sockets_from(s, pos + 1),
            },
            None => spec_txo_sockets_from(s, pos + 1),
        }
    } else {
        spec_txo_sockets_from(s, pos + 1)
    }
}

#[via_fn]
proof fn spec_txo_sockets_from_decreases(s: Seq<char>, pos: int) {
    lemma_find_some_bounds(s, seq!['"'], pos);
    if pos >= 0 && pos < s.len() {
        match spec_find(s, seq!['"'], pos) {
            Some(q1) => {
                lemma_find_some_bounds(s, seq!['"'], q1 + 1);
            },
            None => {},
        }
    }
}

/// The socket names of a socket sidecar text, in file order.
pub open spec fn spec_txo_sockets(s: Seq<char>) -> Seq<Seq<char>> {
    spec_txo_sockets_from(s, 0)
}

/// Scan a socket sidecar text for node declarations whose quoted name starts
/// with `socket_` (case-insensitively); duplicates are kept.
pub fn parse_txo_socket_names(txo_text: &str) -> (r: Vec<String>)
    ensures
        r.deep_view() == spec_txo_sockets(txo_text@),
{
    let s = chars_of(txo_text);
    let n = s.len();
    let pat1: Vec<char> = vec!['$', 'n', 'o', 'd', 'e', '"'];
    assert(pat1@ =~= node_pat_tight());
    let pat2: Vec<char> = vec!['$', 'n', 'o', 'd', 'e', ' ', '"'];
    assert(pat2@ =~= node_pat_spaced());
    let quote: Vec<char> = vec!['"'];
    assert(quote@ =~= seq!['"']);
    let sock: Vec<char> = vec!['s', 'o', 'c', 'k', 'e', 't', '_'];
    assert(sock@ =~= socket_prefix());
    let mut out: Vec<String> = Vec::new();
    let mut pos: usize = 0;
    assert(out.deep_view() =~= Seq::<Seq<char>>::empty());
    while pos < n
        invariant
            pos <= n,
            n == s@.len(),
            pat1@ == node_pat_tight(),
            pat2@ == node_pat_spaced(),
            quote@ == seq!['"'],
            sock@ == socket_prefix(),
            spec_txo_sockets(s@) == out.deep_view() + spec_txo_sockets_from(s@, pos as int),
        decreases n - pos,
    {
        let mut advanced = false;
        if starts_with_at(&s, &pat1, pos) || starts_with_at(&s, &pat2, pos) {
            match find_sub(&s, &quote, pos) {
                Some(q1) => {
                    proof {
                        lemma_find_some_bounds(s@, quote@, pos as int);
                    }
                    match find_sub(&s, &quote, q1 + 1) {
                        Some(q2) => {
                            proof {
                                lemma_find_some_bounds(s@, quote@, q1 + 1);
                            }
                            let raw = subrange_vec(&s, q1 + 1, q2);
                            let name = trim_vec(&raw);
                            let low = crate::strconv::lower_vec(&name);
                            if starts_with_at(&low, &sock, 0) {
                                let ghost prev = out.deep_view();
                                out.push(string_of(&name));
                                assert(out.deep_view() =~~= prev + seq![name@]);
                            }
                            pos = q2 + 1;
                            advanced = true;
                        },
                        None => {},
                    }
                },
                None => {},
            }
        }
        if !advanced {
            pos = pos + 1;
        }
        assert(spec_txo_sockets(s@) == out.deep_view() + spec_txo_sockets_from(s@, pos as int));
    }
    assert(spec_txo_sockets(s@) =~~= out.deep_view());
    out
}

} // verus!
