//! Textual path handling: file names, parents, joins and stems over plain
//! strings (separators `/` and `\`), the data-file locations, and the
//! scan-root detection order. No filesystem is touched here; callers pass
//! in what they learned from the disk.
use vstd::prelude::*;

use crate::strconv::{chars_of, lower_vec, spec_lower, string_of};
use crate::text::{
    find_sub, lemma_find_some_bounds, push_all, spec_find, spec_replace, replace_all,
    subrange_vec,
};

verus! {

/// A path separator, either convention.
pub open spec fn is_sep(c: char) -> bool {
    c == '/' || c == '\\'
}

/// The last separator position, if any.
pub open spec fn spec_last_sep(p: Seq<char>) -> Option<int>
    decreases p.len(),
{
    if p.len() == 0 {
        None
    } else if is_sep(p.last()) {
        Some(p.len() - 1)
    } else {
        spec_last_sep(p.drop_last())
    }
}

/// The final component: everything after the last separator, or the whole
/// string when there is none.
pub open spec fn spec_file_name(p: Seq<char>) -> Seq<char> {
    match spec_last_sep(p) {
        Some(i) => p.subrange(i + 1, p.len() as int),
        None => p,
    }
}

/// Everything before the last separator; `None` when there is none.
pub open spec fn spec_parent(p: Seq<char>) -> Option<Seq<char>> {
    match spec_last_sep(p) {
        Some(i) => Some(p.subrange(0, i)),
        None => None,
    }
}

/// `dir` and `name` joined with `/` unless `dir` already ends in a
/// separator.
pub open spec fn spec_join_path(dir: Seq<char>, name: Seq<char>) -> Seq<char> {
    if dir.len() > 0 && is_sep(dir.last()) {
        dir + name
    } else {
        dir + seq!['/'] + name
    }
}

/// A file name without its last extension; a leading dot does not start
/// one.
pub open spec fn spec_file_stem(name: Seq<char>) -> Seq<char> {
    match crate::text::spec_rfind(name, '.') {
        Some(i) => if i > 0 {
            name.subrange(0, i)
        } else {
            name
        },
        None => name,
    }
}

proof fn lemma_last_sep_bounds(p: Seq<char>)
    ensures
        spec_last_sep(p) matches Some(i) ==> 0 <= i < p.len(),
    decreases p.len(),
{
    if p.len() > 0 && !is_sep(p.last()) {
        lemma_last_sep_bounds(p.drop_last());
    }
}

/// Find the last separator.
pub fn last_sep(p: &Vec<char>) -> (r: Option<usize>)
    ensures
        match r {
            Some(i) => spec_last_sep(p@) == Some(i as int),
            None => spec_last_sep(p@) is None,
        },
{
    let n = p.len();
    assert(p@.subrange(0, n as int) =~= p@);
    let mut hi: usize = n;
    while hi > 0
        invariant
            hi <= n,
            n == p@.len(),
            spec_last_sep(p@) == spec_last_sep(p@.subrange(0, hi as int)),
        decreases hi,
    {
        if p[hi - 1] == '/' || p[hi - 1] == '\\' {
            assert(p@.subrange(0, hi as int).last() == p@[hi - 1]);
            return Some(hi - 1);
        }
        assert(p@.subrange(0, hi as int).drop_last() =~= p@.subrange(0, hi - 1));
        hi = hi - 1;
    }
    None
}

/// The final component of a path.
pub fn file_name_of(p: &str) -> (r: String)
    ensures
        r@ == spec_file_name(p@),
{
    let cs = chars_of(p);
    let n = cs.len();
    match last_sep(&cs) {
        Some(i) => {
            proof {
                lemma_last_sep_bounds(cs@);
            }
            string_of(&subrange_vec(&cs, i + 1, n))
        },
        None => string_of(&cs),
    }
}

/// The directory a path lies in, textually.
pub fn parent_of(p: &str) -> (r: Option<String>)
    ensures
        match r {
            Some(d) => spec_parent(p@) == Some(d@),
            None => spec_parent(p@) is None,
        },
{
    let cs = chars_of(p);
    match last_sep(&cs) {
        Some(i) => {
            proof {
                lemma_last_sep_bounds(cs@);
            }
            Some(string_of(&subrange_vec(&cs, 0, i)))
        },
        None => None,
    }
}

/// Join a directory and a file name.
pub fn join_path(dir: &str, name: &str) -> (r: String)
    ensures
        r@ == spec_join_path(dir@, name@),
{
    let d = chars_of(dir);
    let nm = chars_of(name);
    let mut out: Vec<char> = Vec::new();
    push_all(&mut out, &d);
    let dl = d.len();
    if !(dl > 0 && (d[dl - 1] == '/' || d[dl - 1] == '\\')) {
        out.push('/');
    }
    push_all(&mut out, &nm);
    proof {
        if d@.len() > 0 && is_sep(d@.last()) {
            assert(out@ =~= d@ + nm@);
        } else {
            assert(out@ =~= d@ + seq!['/'] + nm@);
        }
    }
    string_of(&out)
}

/// A file name without its extension.
pub fn file_stem_of(name: &str) -> (r: String)
    ensures
        r@ == spec_file_stem(name@),
{
    let cs = chars_of(name);
    match crate::text::rfind_char(&cs, '.') {
        Some(i) => {
            proof {
                lemma_rfind_in_range(cs@, '.');
            }
            if i > 0 {
                string_of(&subrange_vec(&cs, 0, i))
            } else {
                string_of(&cs)
            }
        },
        None => string_of(&cs),
    }
}

proof fn lemma_rfind_in_range(s: Seq<char>, c: char)
    ensures
        crate::text::spec_rfind(s, c) matches Some(i) ==> 0 <= i < s.len(),
    decreases s.len(),
{
    if s.len() > 0 && s.last() != c {
        lemma_rfind_in_range(s.drop_last(), c);
    }
}

/// The cache key of a template file: its lowercased file name, or the
/// lowercased path when the name is empty.
pub open spec fn spec_cache_key(et_path: Seq<char>) -> Seq<char> {
    if spec_file_name(et_path).len() > 0 {
        spec_lower(spec_file_name(et_path))
    } else {
        spec_lower(et_path)
    }
}

/// Derive the index key for a template path.
pub fn cache_key_for(et_path: &str) -> (r: String)
    ensures
        r@ == spec_cache_key(et_path@),
{
    let name = file_name_of(et_path);
    let cs = if name.as_str().is_empty() {
        chars_of(et_path)
    } else {
        chars_of(name.as_str())
    };
    string_of(&lower_vec(&cs))
}

/// The path made relative from the first known anchor: separators
/// normalized to `/`, then cut from just after the `/` that precedes
/// `Prefabs/` or `Assets/` (either case); the bare file name when no anchor
/// occurs, or the whole string when it has no name.
pub open spec fn spec_rel_from_known_roots(abs_path: Seq<char>) -> Seq<char> {
    let p = spec_replace(abs_path, seq!['\\'], seq!['/']);
    match spec_find(p, "/Prefabs/"@, 0) {
        Some(i) => p.subrange(i + 1, p.len() as int),
        None => match spec_find(p, "/prefabs/"@, 0) {
            Some(i) => p.subrange(i + 1, p.len() as int),
            None => match spec_find(p, "/Assets/"@, 0) {
                Some(i) => p.subrange(i + 1, p.len() as int),
                None => match spec_find(p, "/assets/"@, 0) {
                    Some(i) => p.subrange(i + 1, p.len() as int),
                    None => if spec_file_name(p).len() > 0 {
                        spec_file_name(p)
                    } else {
                        p
                    },
                },
            },
        },
    }
}

/// Cut an absolute path down to the engine-relative form.
pub fn rel_from_known_roots(abs_path: &str) -> (r: String)
    ensures
        r@ == spec_rel_from_known_roots(abs_path@),
{
    let cs = chars_of(abs_path);
    let bs: Vec<char> = vec!['\\'];
    let fs: Vec<char> = vec!['/'];
    assert(bs@ =~= seq!['\\']);
    assert(fs@ =~= seq!['/']);
    let p = replace_all(&cs, &bs, &fs);
    let n = p.len();
    let a1 = chars_of("/Prefabs/");
    let a2 = chars_of("/prefabs/");
    let a3 = chars_of("/Assets/");
    let a4 = chars_of("/assets/");
    match find_sub(&p, &a1, 0) {
        Some(i) => {
            proof {
                lemma_find_some_bounds(p@, a1@, 0);
            }
            return string_of(&subrange_vec(&p, i + 1, n));
        },
        None => {},
    }
    match find_sub(&p, &a2, 0) {
        Some(i) => {
            proof {
                lemma_find_some_bounds(p@, a2@, 0);
            }
            return string_of(&subrange_vec(&p, i + 1, n));
        },
        None => {},
    }
    match find_sub(&p, &a3, 0) {
        Some(i) => {
            proof {
                lemma_find_some_bounds(p@, a3@, 0);
            }
            return string_of(&subrange_vec(&p, i + 1, n));
        },
        None => {},
    }
    match find_sub(&p, &a4, 0) {
        Some(i) => {
            proof {
                lemma_find_some_bounds(p@, a4@, 0);
            }
            return string_of(&subrange_vec(&p, i + 1, n));
        },
        None => {},
    }
    match last_sep(&p) {
        Some(i) => {
            proof {
                lemma_last_sep_bounds(p@);
            }
            let name = subrange_vec(&p, i + 1, n);
            if name.len() > 0 {
                string_of(&name)
            } else {
                string_of(&p)
            }
        },
        None => string_of(&p),
    }
}

/// Why a save path could not be resolved.
#[derive(Clone, Copy, Debug, PartialEq, Eq, Structural)]
pub enum PathError {
    /// The model path carries no usable file name.
    InvalidFileName,
    /// The model path has no parent directory to fall back to.
    InvalidDirectory,
}

/// The generated template's file name for a model stem.
pub open spec fn spec_auto_et_name(stem: Seq<char>) -> Seq<char> {
    stem + "_test_prefab.et"@
}

/// Where the generated template is written: `<stem>_test_prefab.et` beside
/// the model, or in the save directory when the caller verified it exists.
pub open spec fn spec_et_save_path(
    xob_abs: Seq<char>,
    save_dir: Option<Seq<char>>,
    save_dir_ok: bool,
) -> Result<Seq<char>, PathError> {
    if spec_file_name(xob_abs).len() == 0 {
        Err(PathError::InvalidFileName)
    } else {
        let auto = spec_auto_et_name(spec_file_stem(spec_file_name(xob_abs)));
        match save_dir {
            Some(sd) => if save_dir_ok {
                Ok(spec_join_path(sd, auto))
            } else {
                match spec_parent(xob_abs) {
                    Some(d) => Ok(spec_join_path(d, auto)),
                    None => Err(PathError::InvalidDirectory),
                }
            },
            None => match spec_parent(xob_abs) {
                Some(d) => Ok(spec_join_path(d, auto)),
                None => Err(PathError::InvalidDirectory),
            },
        }
    }
}

/// Resolve the output path for a generated template. `save_dir_ok` says
/// whether the caller found `save_dir` to be an existing directory.
pub fn resolve_et_save_path(xob_abs: &str, save_dir: Option<&str>, save_dir_ok: bool) -> (r:
    Result<String, PathError>)
    ensures
        match r {
            Ok(p) => spec_et_save_path(
                xob_abs@,
                match save_dir {
                    Some(sd) => Some(sd@),
                    None => None,
                },
                save_dir_ok,
            ) == Ok::<Seq<char>, PathError>(p@),
            Err(e) => spec_et_save_path(
                xob_abs@,
                match save_dir {
                    Some(sd) => Some(sd@),
                    None => None,
                },
                save_dir_ok,
            ) == Err::<Seq<char>, PathError>(e),
        },
{
    let name = file_name_of(xob_abs);
    if name.as_str().is_empty() {
        return Err(PathError::InvalidFileName);
    }
    let stem = file_stem_of(name.as_str());
    let mut auto = stem;
    auto.append("_test_prefab.et");
    match save_dir {
        Some(sd) => {
            if save_dir_ok {
                Ok(join_path(sd, auto.as_str()))
            } else {
                match parent_of(xob_abs) {
                    Some(d) => Ok(join_path(d.as_str(), auto.as_str())),
                    None => Err(PathError::InvalidDirectory),
                }
            }
        },
        None => {
            match parent_of(xob_abs) {
                Some(d) => Ok(join_path(d.as_str(), auto.as_str())),
                None => Err(PathError::InvalidDirectory),
            }
        },
    }
}

/// The persisted prefab index lives beside the other data files.
pub fn prefab_index_path(data_dir: &str) -> (r: String)
    ensures
        r@ == spec_join_path(data_dir@, "AutoSocket_PrefabIndex.json"@),
{
    join_path(data_dir, "AutoSocket_PrefabIndex.json")
}

/// The settings file location under the data directory.
pub fn settings_path(data_dir: &str) -> (r: String)
    ensures
        r@ == spec_join_path(data_dir@, "AutoSocket_Settings.json"@),
{
    join_path(data_dir, "AutoSocket_Settings.json")
}

/// The presets file location under the data directory.
pub fn presets_path(data_dir: &str) -> (r: String)
    ensures
        r@ == spec_join_path(data_dir@, "AutoSocket_Presets.json"@),
{
    join_path(data_dir, "AutoSocket_Presets.json")
}

/// Pick the scan root: a stored setting that still is a directory, else the
/// root recorded in the cache when it still is one, else whatever the
/// caller's filesystem search turned up.
pub fn auto_detect_svn_blocking(
    stored: Option<&String>,
    stored_is_dir: bool,
    cached: Option<&String>,
    cached_is_dir: bool,
    detected: Option<String>,
) -> (r: Option<String>)
    ensures
        match stored {
            Some(s) if stored_is_dir => r matches Some(v) && v@ == s@,
            _ => match cached {
                Some(c) if cached_is_dir => r matches Some(v) && v@ == c@,
                _ => r == detected,
            },
        },
{
    match stored {
        Some(s) => {
            if stored_is_dir {
                return Some(s.clone());
            }
        },
        None => {},
    }
    match cached {
        Some(c) => {
            if cached_is_dir {
                return Some(c.clone());
            }
        },
        None => {},
    }
    detected
}

} // verus!
