//! The entity-template generator: a mesh-reference root block, a
//! slot/bone-mapping component, grouped child-entity blocks, and the
//! anchor-string insertions that splice them into the template text.
use vstd::prelude::*;

use crate::ident::{gen_hex16, spec_hex16, TokenCounter};
use crate::strconv::{chars_of, string_of};
use crate::text::{
    find_sub, join_all, lemma_find_some_bounds, push_all, spec_find, spec_join, spec_lines,
    spec_trim, split_lines, subrange_vec, trim_vec,
};

verus! {

/// A 16-hex-digit token as the generator produces them.
pub open spec fn is_token16(s: Seq<char>) -> bool {
    exists|v: u64| s == spec_hex16(v)
}

/// Which newline convention a text uses.
pub open spec fn spec_newline(s: Seq<char>) -> Seq<char> {
    if spec_find(s, seq!['\r', '\n'], 0) is Some {
        seq!['\r', '\n']
    } else {
        seq!['\n']
    }
}

/// The newline the text already uses, kept by every rewrite.
pub fn detect_newline(s: &str) -> (r: &'static str)
    ensures
        r@ == spec_newline(s@),
{
    let cs = chars_of(s);
    let pat: Vec<char> = vec!['\r', '\n'];
    assert(pat@ =~= seq!['\r', '\n']);
    match find_sub(&cs, &pat, 0) {
        Some(_) => {
            let r = "\r\n";
            proof {
                reveal_strlit("\r\n");
                assert(r@ =~= seq!['\r', '\n']);
            }
            r
        },
        None => {
            let r = "\n";
            proof {
                reveal_strlit("\n");
                assert(r@ =~= seq!['\n']);
            }
            r
        },
    }
}

/// A line counts once whitespace is gone.
pub open spec fn line_kept(l: Seq<char>) -> bool {
    spec_trim(l).len() != 0
}

/// The text's non-blank lines, joined with a line feed.
pub open spec fn spec_remove_blank_lines(s: Seq<char>) -> Seq<char> {
    spec_join(spec_lines(s).filter(|l: Seq<char>| line_kept(l)), seq!['\n'])
}

/// Drop blank lines, the target format's cosmetic normalization.
pub fn remove_blank_lines(text: &str) -> (r: String)
    ensures
        r@ == spec_remove_blank_lines(text@),
{
    let cs = chars_of(text);
    let lines = split_lines(&cs);
    let n = lines.len();
    let mut kept: Vec<Vec<char>> = Vec::new();
    let mut i: usize = 0;
    proof {
        reveal(Seq::filter);
        assert(lines.deep_view().subrange(0, 0) =~= Seq::<Seq<char>>::empty());
        assert(kept.deep_view() =~= Seq::<Seq<char>>::empty().filter(
            |l: Seq<char>| line_kept(l),
        ));
    }
    while i < n
        invariant
            i <= n,
            n == lines@.len(),
            lines.deep_view().len() == n,
            kept.deep_view() == lines.deep_view().subrange(0, i as int).filter(
                |l: Seq<char>| line_kept(l),
            ),
        decreases n - i,
    {
        let t = trim_vec(&lines[i]);
        let ghost prev = kept.deep_view();
        if t.len() != 0 {
            kept.push(lines[i].clone());
        }
        proof {
            reveal(Seq::filter);
            let pre = lines.deep_view().subrange(0, i + 1);
            assert(pre.drop_last() =~= lines.deep_view().subrange(0, i as int));
            assert(pre.last() == lines.deep_view()[i as int]);
            assert(lines.deep_view()[i as int] =~= lines@[i as int]@);
            if t.len() != 0 {
                assert(kept.deep_view() =~~= prev.push(lines@[i as int]@));
            }
        }
        i = i + 1;
    }
    proof {
        assert(lines.deep_view().subrange(0, n as int) =~= lines.deep_view());
    }
    let nl: Vec<char> = vec!['\n'];
    assert(nl@ =~= seq!['\n']);
    let joined = join_all(&kept, &nl);
    string_of(&joined)
}

/// The sidecar text declaring a generated template: the name value and the
/// fixed platform configuration list.
pub open spec fn spec_et_meta_text(name_value: Seq<char>) -> Seq<char> {
    "MetaFileClass {\n Name \""@ + name_value
        + "\"\n Configurations {\n  EntityTemplateResourceClass PC {\n  }\n  EntityTemplateResourceClass XBOX_ONE : PC {\n  }\n  EntityTemplateResourceClass XBOX_SERIES : PC {\n  }\n  EntityTemplateResourceClass PS4 : PC {\n  }\n  EntityTemplateResourceClass PS5 : PC {\n  }\n  EntityTemplateResourceClass HEADLESS : PC {\n  }\n }\n}\n"@
}

/// Render the sidecar for a generated template.
pub fn build_et_meta_text(name_value: &str) -> (r: String)
    ensures
        r@ == spec_et_meta_text(name_value@),
{
    let mut out = String::new();
    out.append("MetaFileClass {\n Name \"");
    out.append(name_value);
    out.append(
        "\"\n Configurations {\n  EntityTemplateResourceClass PC {\n  }\n  EntityTemplateResourceClass XBOX_ONE : PC {\n  }\n  EntityTemplateResourceClass XBOX_SERIES : PC {\n  }\n  EntityTemplateResourceClass PS4 : PC {\n  }\n  EntityTemplateResourceClass PS5 : PC {\n  }\n  EntityTemplateResourceClass HEADLESS : PC {\n  }\n }\n}\n",
    );
    out
}

/// The root block: a generated identifier, a mesh-reference component
/// carrying the object field, and a zeroed coordinate triple.
pub open spec fn spec_new_et_text(gen_id: Seq<char>, mesh_guid: Seq<char>, obj_field: Seq<char>) -> Seq<
    char,
> {
    "GenericEntity {\n ID \""@ + gen_id + "\"\n components {\n  MeshObject \"{"@ + mesh_guid
        + "}\" {\n   Object \""@ + obj_field + "\"\n  }\n }\n coords 0 0 0\n}\n"@
}

/// Render the root block around a mesh reference; the mesh component gets a
/// fresh sequential identifier.
pub fn build_new_et_with_mesh(gen_id: &str, obj_field: &str, ctr: &mut TokenCounter) -> (r: String)
    ensures
        exists|mesh: Seq<char>|
            #![auto]
            is_token16(mesh) && r@ == spec_new_et_text(gen_id@, mesh, obj_field@),
{
    let mesh_guid = gen_hex16(ctr);
    let mut out = String::new();
    out.append("GenericEntity {\n ID \"");
    out.append(gen_id);
    out.append("\"\n components {\n  MeshObject \"{");
    out.append(mesh_guid.as_str());
    out.append("}\" {\n   Object \"");
    out.append(obj_field);
    out.append("\"\n  }\n }\n coords 0 0 0\n}\n");
    proof {
        assert(is_token16(mesh_guid@));
        assert(out@ == spec_new_et_text(gen_id@, mesh_guid@, obj_field@));
    }
    out
}

/// Where the slot component goes: just before the closing of the root's
/// component block, located by the `components {` opening and the
/// `}\n coords` anchor after it; appended at the end when the anchors are
/// not found.
pub open spec fn spec_insert_slot(t: Seq<char>, comp: Seq<char>) -> Seq<char> {
    match spec_find(t, " components {"@, 0) {
        Some(p) => match spec_find(t, "}\n coords"@, p) {
            Some(a) => t.subrange(0, a) + seq!['\n'] + comp + t.subrange(a, t.len() as int),
            None => t + seq!['\n'] + comp,
        },
        None => t + seq!['\n'] + comp,
    }
}

/// Splice the slot component into the template text.
pub fn insert_or_replace_slot_component(et_text: String, component_text: &str) -> (r: String)
    ensures
        r@ == spec_insert_slot(et_text@, component_text@),
{
    let t = chars_of(et_text.as_str());
    let comp = chars_of(component_text);
    let anchor1 = chars_of(" components {");
    let anchor2 = chars_of("}\n coords");
    match find_sub(&t, &anchor1, 0) {
        Some(p) => {
            match find_sub(&t, &anchor2, p) {
                Some(a) => {
                    proof {
                        lemma_find_some_bounds(t@, anchor2@, p as int);
                    }
                    let mut out = subrange_vec(&t, 0, a);
                    out.push('\n');
                    push_all(&mut out, &comp);
                    let rest = subrange_vec(&t, a, t.len());
                    push_all(&mut out, &rest);
                    assert(out@ =~= t@.subrange(0, a as int) + seq!['\n'] + comp@ + t@.subrange(
                        a as int,
                        t@.len() as int,
                    ));
                    string_of(&out)
                },
                None => {
                    let mut out = et_text;
                    out.append("\n");
                    out.append(component_text);
                    proof {
                        reveal_strlit("\n");
                        assert("\n"@ =~= seq!['\n']);
                    }
                    out
                },
            }
        },
        None => {
            let mut out = et_text;
            out.append("\n");
            out.append(component_text);
            proof {
                reveal_strlit("\n");
                assert("\n"@ =~= seq!['\n']);
            }
            out
        },
    }
}

/// Where the child-entity block goes: right after the root's coordinate
/// line, located by the `coords 0 0 0` anchor and the newline that ends its
/// line; appended at the end when the anchors are not found.
pub open spec fn spec_insert_children(t: Seq<char>, block: Seq<char>) -> Seq<char> {
    match spec_find(t, "coords 0 0 0"@, 0) {
        Some(p) => match spec_find(t, seq!['\n'], p) {
            Some(e) => t.subrange(0, e) + seq!['\n'] + block + t.subrange(e, t.len() as int),
            None => t + seq!['\n'] + block,
        },
        None => t + seq!['\n'] + block,
    }
}

/// Splice the child-entity block into the template text.
pub fn insert_or_replace_child_entities_block(et_text: String, block_text: &str) -> (r: String)
    ensures
        r@ == spec_insert_children(et_text@, block_text@),
{
    let t = chars_of(et_text.as_str());
    let block = chars_of(block_text);
    let anchor = chars_of("coords 0 0 0");
    let nl: Vec<char> = vec!['\n'];
    assert(nl@ =~= seq!['\n']);
    match find_sub(&t, &anchor, 0) {
        Some(p) => {
            match find_sub(&t, &nl, p) {
                Some(e) => {
                    proof {
                        lemma_find_some_bounds(t@, nl@, p as int);
                    }
                    let mut out = subrange_vec(&t, 0, e);
                    out.push('\n');
                    push_all(&mut out, &block);
                    let rest = subrange_vec(&t, e, t.len());
                    push_all(&mut out, &rest);
                    assert(out@ =~= t@.subrange(0, e as int) + seq!['\n'] + block@ + t@.subrange(
                        e as int,
                        t@.len() as int,
                    ));
                    string_of(&out)
                },
                None => {
                    let mut out = et_text;
                    out.append("\n");
                    out.append(block_text);
                    proof {
                        reveal_strlit("\n");
                        assert("\n"@ =~= seq!['\n']);
                    }
                    out
                },
            }
        },
        None => {
            let mut out = et_text;
            out.append("\n");
            out.append(block_text);
            proof {
                reveal_strlit("\n");
                assert("\n"@ =~= seq!['\n']);
            }
            out
        },
    }
}

/// One slot/bone mapping row.
pub open spec fn spec_slot_row(pair: (Seq<char>, Seq<char>), id: Seq<char>) -> Seq<char> {
    "    SlotBoneMappingObject \"{"@ + id + "}\" {\n     BonePrefix \""@ + pair.0
        + "\"\n     Prefab \""@ + pair.1 + "\"\n    }\n"@
}

/// The first `n` rows, each with its own identifier.
pub open spec fn spec_slot_rows(
    maps: Seq<(Seq<char>, Seq<char>)>,
    ids: Seq<Seq<char>>,
    n: int,
) -> Seq<char>
    decreases n,
{
    if n <= 0 {
        Seq::empty()
    } else {
        spec_slot_rows(maps, ids, n - 1) + spec_slot_row(maps[n - 1], ids[n - 1])
    }
}

/// The whole slot component around the rows.
pub open spec fn spec_slot_component(
    maps: Seq<(Seq<char>, Seq<char>)>,
    slot_id: Seq<char>,
    ids: Seq<Seq<char>>,
) -> Seq<char> {
    "  WB_SlotBoneMappingsComponent \"{"@ + slot_id + "}\" {\n   SlotBoneMappings {\n"@
        + spec_slot_rows(maps, ids, maps.len() as int) + "   }\n  }\n"@
}

/// Rows do not depend on identifiers beyond the first `n`.
proof fn lemma_slot_rows_extend(
    maps: Seq<(Seq<char>, Seq<char>)>,
    ids: Seq<Seq<char>>,
    x: Seq<char>,
    n: int,
)
    requires
        n <= ids.len(),
    ensures
        spec_slot_rows(maps, ids.push(x), n) == spec_slot_rows(maps, ids, n),
    decreases n,
{
    if n > 0 {
        lemma_slot_rows_extend(maps, ids, x, n - 1);
        assert(ids.push(x)[n - 1] == ids[n - 1]);
    }
}

/// Render the slot/bone-mapping component for the resolved pairs; `None`
/// when nothing resolved. Every identifier in it is freshly generated.
pub fn build_slot_component_text_from_mappings(
    maps: &Vec<(String, String)>,
    ctr: &mut TokenCounter,
) -> (r: Option<String>)
    ensures
        r is None <==> maps@.len() == 0,
        match r {
            Some(t) => exists|slot: Seq<char>, ids: Seq<Seq<char>>|
                #![auto]
                is_token16(slot) && ids.len() == maps@.len() && (forall|k: int|
                    0 <= k < ids.len() ==> is_token16(#[trigger] ids[k])) && t@
                    == spec_slot_component(maps.deep_view(), slot, ids),
            None => true,
        },
{
    let n = maps.len();
    if n == 0 {
        return None;
    }
    let slot_guid = gen_hex16(ctr);
    let ghost slotv = slot_guid@;
    let mut out = String::new();
    out.append("  WB_SlotBoneMappingsComponent \"{");
    out.append(slot_guid.as_str());
    out.append("}\" {\n   SlotBoneMappings {\n");
    let ghost mut ids: Seq<Seq<char>> = Seq::empty();
    let ghost pre = out@;
    let mut i: usize = 0;
    while i < n
        invariant
            i <= n,
            n == maps@.len(),
            maps.deep_view().len() == n,
            ids.len() == i,
            forall|k: int| 0 <= k < i ==> is_token16(#[trigger] ids[k]),
            out@ == pre + spec_slot_rows(maps.deep_view(), ids, i as int),
            pre == "  WB_SlotBoneMappingsComponent \"{"@ + slotv
                + "}\" {\n   SlotBoneMappings {\n"@,
        decreases n - i,
    {
        let obj_guid = gen_hex16(ctr);
        out.append("    SlotBoneMappingObject \"{");
        out.append(obj_guid.as_str());
        out.append("}\" {\n     BonePrefix \"");
        out.append(maps[i].0.as_str());
        out.append("\"\n     Prefab \"");
        out.append(maps[i].1.as_str());
        out.append("\"\n    }\n");
        proof {
            lemma_slot_rows_extend(maps.deep_view(), ids, obj_guid@, i as int);
            ids = ids.push(obj_guid@);
            assert(maps.deep_view()[i as int] == (maps@[i as int].0@, maps@[i as int].1@));
            assert(out@ == pre + spec_slot_rows(maps.deep_view(), ids, i + 1));
        }
        i = i + 1;
    }
    out.append("   }\n  }\n");
    proof {
        assert(out@ == spec_slot_component(maps.deep_view(), slotv, ids));
    }
    Some(out)
}

/// Character-wise lexicographic order, the order the grouped child blocks
/// are emitted in.
pub open spec fn lex_lt(a: Seq<char>, b: Seq<char>) -> bool
    decreases a.len(),
{
    if b.len() == 0 {
        false
    } else if a.len() == 0 {
        true
    } else if a[0] != b[0] {
        a[0] < b[0]
    } else {
        lex_lt(a.drop_first(), b.drop_first())
    }
}

/// The order is irreflexive and asymmetric.
proof fn lemma_lex_asym(a: Seq<char>, b: Seq<char>)
    ensures
        lex_lt(a, b) ==> a != b && !lex_lt(b, a),
    decreases a.len(),
{
    if a.len() > 0 && b.len() > 0 && a[0] == b[0] {
        lemma_lex_asym(a.drop_first(), b.drop_first());
        if lex_lt(a, b) {
            assert(a.drop_first() != b.drop_first());
            assert(a[0] == b[0]);
            assert(a != b) by {
                if a == b {
                    assert(a.drop_first() =~= b.drop_first());
                }
            }
        }
    }
}

/// Exec comparison in the same order.
pub fn lex_lt_vec(a: &Vec<char>, b: &Vec<char>) -> (r: bool)
    ensures
        r == lex_lt(a@, b@),
{
    let alen = a.len();
    let blen = b.len();
    assert(a@.subrange(0, alen as int) =~= a@);
    assert(b@.subrange(0, blen as int) =~= b@);
    let mut i: usize = 0;
    while i < alen && i < blen
        invariant
            i <= alen,
            i <= blen,
            alen == a@.len(),
            blen == b@.len(),
            lex_lt(a@, b@) == lex_lt(
                a@.subrange(i as int, alen as int),
                b@.subrange(i as int, blen as int),
            ),
        decreases alen - i,
    {
        let ghost asub = a@.subrange(i as int, alen as int);
        let ghost bsub = b@.subrange(i as int, blen as int);
        proof {
            assert(asub[0] == a@[i as int] && bsub[0] == b@[i as int]);
            assert(asub.drop_first() =~= a@.subrange(i + 1, alen as int));
            assert(bsub.drop_first() =~= b@.subrange(i + 1, blen as int));
        }
        if a[i] != b[i] {
            return a[i] < b[i];
        }
        i = i + 1;
    }
    proof {
        let asub = a@.subrange(i as int, alen as int);
        let bsub = b@.subrange(i as int, blen as int);
        assert(asub.len() == alen - i && bsub.len() == blen - i);
    }
    alen < blen
}

/// Insert one `(prefab, socket)` pair into the groups, which stay sorted by
/// prefab with one socket list per prefab.
pub open spec fn spec_group_add(
    gs: Seq<(Seq<char>, Seq<Seq<char>>)>,
    p: Seq<char>,
    s: Seq<char>,
) -> Seq<(Seq<char>, Seq<Seq<char>>)>
    decreases gs.len(),
{
    if gs.len() == 0 {
        seq![(p, seq![s])]
    } else if gs[0].0 == p {
        seq![(gs[0].0, gs[0].1.push(s))] + gs.drop_first()
    } else if lex_lt(p, gs[0].0) {
        seq![(p, seq![s])] + gs
    } else {
        seq![gs[0]] + spec_group_add(gs.drop_first(), p, s)
    }
}

/// The mapping pairs grouped by prefab, in sorted prefab order; `maps`
/// holds `(socket, prefab)` pairs.
pub open spec fn spec_groups(maps: Seq<(Seq<char>, Seq<char>)>, n: int) -> Seq<
    (Seq<char>, Seq<Seq<char>>),
>
    decreases n,
{
    if n <= 0 {
        Seq::empty()
    } else {
        spec_group_add(spec_groups(maps, n - 1), maps[n - 1].1, maps[n - 1].0)
    }
}

/// Skipping a sorted prefix of smaller prefabs commutes with insertion.
proof fn lemma_group_add_skip(
    gs: Seq<(Seq<char>, Seq<Seq<char>>)>,
    p: Seq<char>,
    s: Seq<char>,
    j: int,
)
    requires
        0 <= j <= gs.len(),
        forall|k: int| 0 <= k < j ==> lex_lt(#[trigger] gs[k].0, p),
    ensures
        spec_group_add(gs, p, s) == gs.subrange(0, j) + spec_group_add(
            gs.subrange(j, gs.len() as int),
            p,
            s,
        ),
    decreases j,
{
    if j == 0 {
        assert(gs.subrange(0, gs.len() as int) =~= gs);
        assert(spec_group_add(gs, p, s) =~= gs.subrange(0, 0) + spec_group_add(gs, p, s));
    } else {
        lemma_lex_asym(gs[0].0, p);
        let rest = gs.drop_first();
        assert(forall|k: int| 0 <= k < j - 1 ==> lex_lt(#[trigger] rest[k].0, p));
        lemma_group_add_skip(rest, p, s, j - 1);
        assert(rest.subrange(0, j - 1) =~= gs.subrange(1, j));
        assert(rest.subrange(j - 1, rest.len() as int) =~= gs.subrange(j, gs.len() as int));
        assert(spec_group_add(gs, p, s) == seq![gs[0]] + spec_group_add(rest, p, s));
        assert(seq![gs[0]] + (gs.subrange(1, j) + spec_group_add(
            gs.subrange(j, gs.len() as int),
            p,
            s,
        )) =~= gs.subrange(0, j) + spec_group_add(gs.subrange(j, gs.len() as int), p, s));
    }
}

/// The position where a prefab belongs among the sorted groups.
fn group_position(groups: &Vec<(String, Vec<String>)>, pc: &Vec<char>) -> (j: usize)
    ensures
        j <= groups@.len(),
        forall|k: int| 0 <= k < j ==> lex_lt(#[trigger] groups.deep_view()[k].0, pc@),
        j < groups@.len() ==> !lex_lt(groups.deep_view()[j as int].0, pc@),
{
    let glen = groups.len();
    let mut j: usize = 0;
    while j < glen
        invariant
            j <= glen,
            glen == groups@.len(),
            forall|k: int| 0 <= k < j ==> lex_lt(#[trigger] groups.deep_view()[k].0, pc@),
        decreases glen - j,
    {
        let gc = chars_of(groups[j].0.as_str());
        proof {
            assert(groups.deep_view()[j as int].0 == groups@[j as int].0@);
        }
        if !lex_lt_vec(&gc, pc) {
            return j;
        }
        j = j + 1;
    }
    j
}

/// Build the sorted groups from the mapping pairs.
pub fn group_mappings(maps: &Vec<(String, String)>) -> (r: Vec<(String, Vec<String>)>)
    ensures
        r.deep_view() == spec_groups(maps.deep_view(), maps@.len() as int),
{
    let n = maps.len();
    let mut groups: Vec<(String, Vec<String>)> = Vec::new();
    let mut i: usize = 0;
    proof {
        assert(groups.deep_view() =~= spec_groups(maps.deep_view(), 0));
    }
    while i < n
        invariant
            i <= n,
            n == maps@.len(),
            maps.deep_view().len() == n,
            groups.deep_view() == spec_groups(maps.deep_view(), i as int),
        decreases n - i,
    {
        let socket = maps[i].0.clone();
        let prefab = maps[i].1.clone();
        let pc = chars_of(prefab.as_str());
        let glen = groups.len();
        let j = group_position(&groups, &pc);
        let ghost gdv = groups.deep_view();
        let ghost mdv = maps.deep_view();
        proof {
            lemma_group_add_skip(gdv, pc@, socket@, j as int);
        }
        if j < glen && groups[j].0 == prefab {
            let mut g = groups.remove(j);
            g.1.push(socket);
            groups.insert(j, g);
            proof {
                assert(gdv[j as int].0 == pc@);
                assert(gdv.subrange(j as int, gdv.len() as int).drop_first() =~= gdv.subrange(
                    j + 1,
                    gdv.len() as int,
                ));
                assert(spec_group_add(gdv.subrange(j as int, gdv.len() as int), pc@, socket@)
                    =~= seq![(gdv[j as int].0, gdv[j as int].1.push(socket@))] + gdv.subrange(
                    j + 1,
                    gdv.len() as int,
                ));
                assert(groups.deep_view() =~~= gdv.subrange(0, j as int) + spec_group_add(
                    gdv.subrange(j as int, gdv.len() as int),
                    pc@,
                    socket@,
                ));
            }
        } else {
            proof {
                if j < glen {
                    assert(gdv[j as int].0 != pc@);
                    assert(!lex_lt(gdv[j as int].0, pc@));
                    assert(lex_lt(pc@, gdv[j as int].0)) by {
                        lemma_lex_total(pc@, gdv[j as int].0);
                    }
                }
            }
            let mut single: Vec<String> = Vec::new();
            single.push(socket);
            groups.insert(j, (prefab, single));
            proof {
                if j < gdv.len() {
                    assert(spec_group_add(gdv.subrange(j as int, gdv.len() as int), pc@, socket@)
                        =~= seq![(pc@, seq![socket@])] + gdv.subrange(j as int, gdv.len() as int));
                } else {
                    assert(gdv.subrange(j as int, gdv.len() as int).len() == 0);
                }
                assert(groups.deep_view() =~~= gdv.subrange(0, j as int) + spec_group_add(
                    gdv.subrange(j as int, gdv.len() as int),
                    pc@,
                    socket@,
                ));
            }
        }
        proof {
            assert(mdv[i as int] == (maps@[i as int].0@, maps@[i as int].1@));
            assert(groups.deep_view() == spec_group_add(gdv, mdv[i as int].1, mdv[i as int].0));
        }
        i = i + 1;
    }
    groups
}

/// Two distinct prefab names are ordered one way or the other.
proof fn lemma_lex_total(a: Seq<char>, b: Seq<char>)
    ensures
        a == b || lex_lt(a, b) || lex_lt(b, a),
    decreases a.len(),
{
    if a.len() == 0 && b.len() == 0 {
        assert(a =~= b);
    } else if a.len() > 0 && b.len() > 0 && a[0] == b[0] {
        let ad = a.drop_first();
        let bd = b.drop_first();
        lemma_lex_total(ad, bd);
        if ad == bd {
            assert(ad.len() == bd.len());
            assert(a.len() == ad.len() + 1 && b.len() == bd.len() + 1);
            assert(a =~= b) by {
                assert forall|i: int| 0 <= i < a.len() implies a[i] == b[i] by {
                    if i > 0 {
                        assert(ad[i - 1] == bd[i - 1]);
                        assert(a[i] == ad[i - 1] && b[i] == bd[i - 1]);
                    }
                }
            }
        } else if lex_lt(ad, bd) {
            assert(lex_lt(a, b));
        } else {
            assert(lex_lt(bd, ad));
            assert(lex_lt(b, a));
        }
    } else if a.len() > 0 && b.len() > 0 {
        assert(a[0] != b[0]);
        if a[0] < b[0] {
            assert(lex_lt(a, b));
        } else {
            assert(b[0] < a[0]);
            assert(lex_lt(b, a));
        }
    }
}

/// One child instance inside a grouped declaration.
pub open spec fn spec_child_inst(socket: Seq<char>, hier: Seq<char>, id: Seq<char>) -> Seq<char> {
    "   {\n    ID \""@ + id + "\"\n    components {\n     Hierarchy \"{"@ + hier
        + "}\" {\n      Enabled 1\n      PivotID \""@ + socket
        + "\"\n      AutoTransform 1\n     }\n    }\n    coords 0 0 0\n   }\n"@
}

/// A plain child declaration for a prefab referenced by one socket.
pub open spec fn spec_single_child(
    prefab: Seq<char>,
    socket: Seq<char>,
    hier: Seq<char>,
    id: Seq<char>,
) -> Seq<char> {
    "  GenericEntity : \""@ + prefab + "\" {\n   ID \""@ + id
        + "\"\n   components {\n    Hierarchy \"{"@ + hier
        + "}\" {\n     Enabled 1\n     PivotID \""@ + socket
        + "\"\n     AutoTransform 1\n    }\n   }\n   coords 0 0 0\n  }\n"@
}

/// The first `k` instances of a grouped declaration, with identifiers taken
/// from `ids` starting at `base`.
pub open spec fn spec_group_insts(
    sockets: Seq<Seq<char>>,
    hier: Seq<char>,
    ids: Seq<Seq<char>>,
    base: int,
    k: int,
) -> Seq<char>
    decreases k,
{
    if k <= 0 {
        Seq::empty()
    } else {
        spec_group_insts(sockets, hier, ids, base, k - 1) + spec_child_inst(
            sockets[k - 1],
            hier,
            ids[base + k - 1],
        )
    }
}

/// How many identifiers the first `n` groups consume: one per socket.
pub open spec fn count_sockets(gs: Seq<(Seq<char>, Seq<Seq<char>>)>, n: int) -> int
    decreases n,
{
    if n <= 0 {
        0
    } else {
        count_sockets(gs, n - 1) + gs[n - 1].1.len()
    }
}

/// One group's block: a grouped declaration with one instance per socket
/// for two or more sockets, a plain child declaration otherwise.
pub open spec fn spec_one_group(
    g: (Seq<char>, Seq<Seq<char>>),
    hier: Seq<char>,
    ids: Seq<Seq<char>>,
    base: int,
) -> Seq<char> {
    if g.1.len() >= 2 {
        "  $grp GenericEntity : \""@ + g.0 + "\" {\n"@ + spec_group_insts(
            g.1,
            hier,
            ids,
            base,
            g.1.len() as int,
        ) + "  }\n"@
    } else {
        spec_single_child(
            g.0,
            if g.1.len() > 0 {
                g.1[0]
            } else {
                Seq::empty()
            },
            hier,
            ids[base],
        )
    }
}

/// The first `n` groups' blocks, in order.
pub open spec fn spec_groups_text(
    gs: Seq<(Seq<char>, Seq<Seq<char>>)>,
    hier: Seq<char>,
    ids: Seq<Seq<char>>,
    n: int,
) -> Seq<char>
    decreases n,
{
    if n <= 0 {
        Seq::empty()
    } else {
        spec_groups_text(gs, hier, ids, n - 1) + spec_one_group(
            gs[n - 1],
            hier,
            ids,
            count_sockets(gs, n - 1),
        )
    }
}

/// The whole child-entity block around the groups.
pub open spec fn spec_child_block(
    gs: Seq<(Seq<char>, Seq<Seq<char>>)>,
    hier: Seq<char>,
    ids: Seq<Seq<char>>,
) -> Seq<char> {
    " {\n"@ + spec_groups_text(gs, hier, ids, gs.len() as int) + " }\n"@
}

/// Instances do not depend on identifiers beyond `base + k`.
proof fn lemma_insts_ids_extend(
    sockets: Seq<Seq<char>>,
    hier: Seq<char>,
    ids: Seq<Seq<char>>,
    x: Seq<char>,
    base: int,
    k: int,
)
    requires
        0 <= base,
        base + k <= ids.len(),
    ensures
        spec_group_insts(sockets, hier, ids.push(x), base, k) == spec_group_insts(
            sockets,
            hier,
            ids,
            base,
            k,
        ),
    decreases k,
{
    if k > 0 {
        lemma_insts_ids_extend(sockets, hier, ids, x, base, k - 1);
        assert(ids.push(x)[base + k - 1] == ids[base + k - 1]);
    }
}

/// Every group holds at least one socket.
proof fn lemma_group_add_nonempty(gs: Seq<(Seq<char>, Seq<Seq<char>>)>, p: Seq<char>, s: Seq<char>)
    requires
        forall|k: int| 0 <= k < gs.len() ==> #[trigger] gs[k].1.len() >= 1,
    ensures
        forall|k: int|
            0 <= k < spec_group_add(gs, p, s).len() ==> #[trigger] spec_group_add(gs, p, s)[k].1.len()
                >= 1,
    decreases gs.len(),
{
    let r = spec_group_add(gs, p, s);
    if gs.len() == 0 {
        assert(r[0].1.len() == 1);
    } else if gs[0].0 == p {
        assert forall|k: int| 0 <= k < r.len() implies #[trigger] r[k].1.len() >= 1 by {
            if k == 0 {
                assert(r[0].1 == gs[0].1.push(s));
            } else {
                assert(r[k] == gs[k]);
            }
        }
    } else if lex_lt(p, gs[0].0) {
        assert forall|k: int| 0 <= k < r.len() implies #[trigger] r[k].1.len() >= 1 by {
            if k == 0 {
                assert(r[0].1 == seq![s]);
            } else {
                assert(r[k] == gs[k - 1]);
            }
        }
    } else {
        lemma_group_add_nonempty(gs.drop_first(), p, s);
        let rr = spec_group_add(gs.drop_first(), p, s);
        assert forall|k: int| 0 <= k < r.len() implies #[trigger] r[k].1.len() >= 1 by {
            if k == 0 {
                assert(r[0] == gs[0]);
            } else {
                assert(r[k] == rr[k - 1]);
                assert(rr[k - 1].1.len() >= 1);
            }
        }
    }
}

proof fn lemma_groups_nonempty(maps: Seq<(Seq<char>, Seq<char>)>, n: int)
    ensures
        forall|k: int|
            0 <= k < spec_groups(maps, n).len() ==> #[trigger] spec_groups(maps, n)[k].1.len() >= 1,
    decreases n,
{
    if n > 0 {
        lemma_groups_nonempty(maps, n - 1);
        lemma_group_add_nonempty(spec_groups(maps, n - 1), maps[n - 1].1, maps[n - 1].0);
    }
}

/// Group blocks do not depend on identifiers beyond what they consume.
proof fn lemma_groups_text_ids_extend(
    gs: Seq<(Seq<char>, Seq<Seq<char>>)>,
    hier: Seq<char>,
    ids: Seq<Seq<char>>,
    x: Seq<char>,
    n: int,
)
    requires
        n <= gs.len(),
        count_sockets(gs, n) <= ids.len(),
        forall|k: int| 0 <= k < gs.len() ==> #[trigger] gs[k].1.len() >= 1,
    ensures
        spec_groups_text(gs, hier, ids.push(x), n) == spec_groups_text(gs, hier, ids, n),
    decreases n,
{
    if n > 0 {
        lemma_count_sockets_mono(gs, n - 1, n);
        lemma_groups_text_ids_extend(gs, hier, ids, x, n - 1);
        let base = count_sockets(gs, n - 1);
        lemma_count_nonneg(gs, n - 1);
        lemma_insts_ids_extend(gs[n - 1].1, hier, ids, x, base, gs[n - 1].1.len() as int);
        assert(ids.push(x)[base] == ids[base]);
    }
}

/// Socket counts grow with the group index.
proof fn lemma_count_sockets_mono(gs: Seq<(Seq<char>, Seq<Seq<char>>)>, m: int, n: int)
    requires
        m <= n,
    ensures
        count_sockets(gs, m) <= count_sockets(gs, n),
    decreases n - m,
{
    if m < n {
        lemma_count_sockets_mono(gs, m, n - 1);
    }
}

proof fn lemma_count_nonneg(gs: Seq<(Seq<char>, Seq<Seq<char>>)>, n: int)
    ensures
        count_sockets(gs, n) >= 0,
    decreases n,
{
    if n > 0 {
        lemma_count_nonneg(gs, n - 1);
    }
}

/// Render the child-entity block for the resolved pairs, grouped by prefab;
/// `None` when nothing resolved. Every instance identifier is fresh.
pub fn build_child_entities_block(
    maps: &Vec<(String, String)>,
    hier_guid: &str,
    ctr: &mut TokenCounter,
) -> (r: Option<String>)
    ensures
        r is None <==> maps@.len() == 0,
        match r {
            Some(t) => exists|ids: Seq<Seq<char>>|
                #![auto]
                (forall|k: int| 0 <= k < ids.len() ==> is_token16(#[trigger] ids[k])) && ids.len()
                    == count_sockets(
                    spec_groups(maps.deep_view(), maps@.len() as int),
                    spec_groups(maps.deep_view(), maps@.len() as int).len() as int,
                ) && t@ == spec_child_block(
                    spec_groups(maps.deep_view(), maps@.len() as int),
                    hier_guid@,
                    ids,
                ),
            None => true,
        },
{
    if maps.len() == 0 {
        return None;
    }
    let groups = group_mappings(maps);
    let ghost gdv = groups.deep_view();
    proof {
        lemma_groups_nonempty(maps.deep_view(), maps@.len() as int);
    }
    let mut out = String::new();
    out.append(" {\n");
    let ghost mut ids: Seq<Seq<char>> = Seq::empty();
    let ghost hier = hier_guid@;
    let glen = groups.len();
    proof {
        lemma_count_nonneg(gdv, 0);
    }
    let mut gi: usize = 0;
    while gi < glen
        invariant
            gi <= glen,
            glen == groups@.len(),
            gdv == groups.deep_view(),
            gdv.len() == glen,
            hier == hier_guid@,
            forall|k: int| 0 <= k < gdv.len() ==> #[trigger] gdv[k].1.len() >= 1,
            forall|k: int| 0 <= k < ids.len() ==> is_token16(#[trigger] ids[k]),
            ids.len() == count_sockets(gdv, gi as int),
            out@ == " {\n"@ + spec_groups_text(gdv, hier, ids, gi as int),
        decreases glen - gi,
    {
        let slen = groups[gi].1.len();
        proof {
            assert(gdv[gi as int] == (groups@[gi as int].0@, groups@[gi as int].1.deep_view()));
            assert(gdv[gi as int].1.len() == slen);
            lemma_count_nonneg(gdv, gi as int);
        }
        let ghost base = ids.len() as int;
        if slen >= 2 {
            out.append("  $grp GenericEntity : \"");
            out.append(groups[gi].0.as_str());
            out.append("\" {\n");
            let ghost grp_head = out@;
            let mut si: usize = 0;
            while si < slen
                invariant
                    si <= slen,
                    gi < glen,
                    glen == groups@.len(),
                    gdv == groups.deep_view(),
                    gdv.len() == glen,
                    slen == groups@[gi as int].1@.len(),
                    gdv[gi as int].1.len() == slen,
                    hier == hier_guid@,
                    forall|k: int| 0 <= k < gdv.len() ==> #[trigger] gdv[k].1.len() >= 1,
                    forall|k: int| 0 <= k < ids.len() ==> is_token16(#[trigger] ids[k]),
                    base == count_sockets(gdv, gi as int),
                    0 <= base,
                    ids.len() == base + si,
                    grp_head == " {\n"@ + spec_groups_text(gdv, hier, ids, gi as int)
                        + "  $grp GenericEntity : \""@ + gdv[gi as int].0 + "\" {\n"@,
                    out@ == grp_head + spec_group_insts(
                        gdv[gi as int].1,
                        hier,
                        ids,
                        base,
                        si as int,
                    ),
                decreases slen - si,
            {
                let inst = gen_hex16(ctr);
                out.append("   {\n    ID \"");
                out.append(inst.as_str());
                out.append("\"\n    components {\n     Hierarchy \"{");
                out.append(hier_guid);
                out.append("}\" {\n      Enabled 1\n      PivotID \"");
                out.append(groups[gi].1[si].as_str());
                out.append("\"\n      AutoTransform 1\n     }\n    }\n    coords 0 0 0\n   }\n");
                proof {
                    lemma_groups_text_ids_extend(gdv, hier, ids, inst@, gi as int);
                    lemma_insts_ids_extend(gdv[gi as int].1, hier, ids, inst@, base, si as int);
                    assert(gdv[gi as int].1[si as int] == groups@[gi as int].1@[si as int]@);
                    ids = ids.push(inst@);
                    assert(ids[base + si] == inst@);
                    assert(out@ == grp_head + spec_group_insts(
                        gdv[gi as int].1,
                        hier,
                        ids,
                        base,
                        si + 1,
                    ));
                }
                si = si + 1;
            }
            out.append("  }\n");
            proof {
                assert(out@ == " {\n"@ + spec_groups_text(gdv, hier, ids, gi + 1));
            }
        } else {
            let inst = gen_hex16(ctr);
            out.append("  GenericEntity : \"");
            out.append(groups[gi].0.as_str());
            out.append("\" {\n   ID \"");
            out.append(inst.as_str());
            out.append("\"\n   components {\n    Hierarchy \"{");
            out.append(hier_guid);
            out.append("}\" {\n     Enabled 1\n     PivotID \"");
            out.append(groups[gi].1[0].as_str());
            out.append("\"\n     AutoTransform 1\n    }\n   }\n   coords 0 0 0\n  }\n");
            proof {
                lemma_groups_text_ids_extend(gdv, hier, ids, inst@, gi as int);
                assert(gdv[gi as int].1[0] == groups@[gi as int].1@[0]@);
                ids = ids.push(inst@);
                assert(ids[base] == inst@);
                assert(gdv[gi as int].1.len() == 1);
                assert(out@ == " {\n"@ + spec_groups_text(gdv, hier, ids, gi + 1));
            }
        }
        gi = gi + 1;
    }
    out.append(" }\n");
    proof {
        assert(out@ == spec_child_block(gdv, hier, ids));
    }
    Some(out)
}

} // verus!
