use crate::dtb_data::{debug_quoted, dtb_ext, is_first_ext, node_name_of, occurs_at, slashes_mapped, DtbData};
use crate::render::{document_text, record_text, records_text};
use crate::mapping::{
    group_key, is_collision_group, is_key_split, is_mapping_split, paths_of, unique_key,
};
use crate::order::{lemma_lt_irreflexive, lemma_lt_total, seq_lt};
use vstd::prelude::*;

verus! {

/// Every record is either mapped or listed in exactly one collision group,
/// never both, and nothing else is listed.
pub proof fn lemma_split_partitions(ks: Seq<Seq<char>>, valid: Seq<usize>, groups: Seq<Seq<usize>>)
    requires
        is_key_split(ks, valid, groups),
        ks.len() <= usize::MAX,
    ensures
        forall|t: int| 0 <= t < valid.len() ==> #[trigger] valid[t] < ks.len(),
        forall|g: int, t: int|
            0 <= g < groups.len() && 0 <= t < groups[g].len() ==> #[trigger] groups[g][t] < ks.len(),
        valid.no_duplicates(),
        forall|g: int| 0 <= g < groups.len() ==> (#[trigger] groups[g]).no_duplicates(),
        forall|d: usize, g: int|
            d < ks.len() && 0 <= g < groups.len() && valid.contains(d) ==> !#[trigger] groups[g].contains(d),
        forall|d: usize| d < ks.len() && !valid.contains(d) ==> exists|g: int|
            0 <= g < groups.len() && #[trigger] groups[g].contains(d),
        forall|d: usize, g1: int, g2: int|
            0 <= g1 < g2 < groups.len() ==> !(#[trigger] groups[g1].contains(d) && #[trigger] groups[g2].contains(d)),
{
    assert forall|g: int, t: int| 0 <= g < groups.len() && 0 <= t < groups[g].len() implies #[trigger] groups[g][t]
        < ks.len() by {
        assert(is_collision_group(ks, groups[g]));
    }
    assert forall|d: usize, g: int|
        d < ks.len() && 0 <= g < groups.len() && valid.contains(d) implies !#[trigger] groups[g].contains(d) by {
        let gr = groups[g];
        assert(is_collision_group(ks, gr));
        if gr.contains(d) {
            let t = choose|t: int| 0 <= t < gr.len() && gr[t] == d;
            let other = if t == 0 { gr[1] } else { gr[0] };
            assert(gr[0] != gr[1]);
            assert(ks[other as int] == ks[d as int]);
            assert(!unique_key(ks, d as int));
        }
    }
    assert forall|d: usize| d < ks.len() && !valid.contains(d) implies exists|g: int|
        0 <= g < groups.len() && #[trigger] groups[g].contains(d) by {
        assert(!unique_key(ks, d as int));
        assert((d as int) as usize == d);
    }
    assert forall|d: usize, g1: int, g2: int|
        0 <= g1 < g2 < groups.len() implies !(#[trigger] groups[g1].contains(d) && #[trigger] groups[g2].contains(d)) by {
        let a = groups[g1];
        let b = groups[g2];
        assert(is_collision_group(ks, a));
        assert(is_collision_group(ks, b));
        if a.contains(d) && b.contains(d) {
            let ta = choose|t: int| 0 <= t < a.len() && a[t] == d;
            let tb = choose|t: int| 0 <= t < b.len() && b[t] == d;
            assert(ks[a[ta] as int] == group_key(ks, a));
            assert(ks[b[tb] as int] == group_key(ks, b));
            lemma_lt_irreflexive(group_key(ks, a));
        }
    }
}

/// A primary compatible is mapped exactly when one record has it, and has
/// a collision group exactly when two or more records share it.
pub proof fn lemma_split_by_sharing(ks: Seq<Seq<char>>, valid: Seq<usize>, groups: Seq<Seq<usize>>, k: Seq<char>)
    requires
        is_key_split(ks, valid, groups),
        ks.len() <= usize::MAX,
    ensures
        (exists|t: int| 0 <= t < valid.len() && ks[#[trigger] valid[t] as int] == k) <==> (exists|d: int|
            0 <= d < ks.len() && ks[d] == k && #[trigger] unique_key(ks, d)),
        (exists|g: int| 0 <= g < groups.len() && group_key(ks, #[trigger] groups[g]) == k) <==> (exists|
            d1: int,
            d2: int,
        | 0 <= d1 < ks.len() && 0 <= d2 < ks.len() && d1 != d2 && #[trigger] ks[d1] == k && #[trigger] ks[d2]
            == k),
{
    if exists|t: int| 0 <= t < valid.len() && ks[#[trigger] valid[t] as int] == k {
        let t = choose|t: int| 0 <= t < valid.len() && ks[#[trigger] valid[t] as int] == k;
        assert(valid.contains(valid[t]));
        assert(unique_key(ks, valid[t] as int));
    }
    if exists|d: int| 0 <= d < ks.len() && ks[d] == k && #[trigger] unique_key(ks, d) {
        let d = choose|d: int| 0 <= d < ks.len() && ks[d] == k && #[trigger] unique_key(ks, d);
        assert(valid.contains(d as usize));
        let t = choose|t: int| 0 <= t < valid.len() && valid[t] == d as usize;
        assert(ks[valid[t] as int] == k);
    }
    if exists|g: int| 0 <= g < groups.len() && group_key(ks, #[trigger] groups[g]) == k {
        let g = choose|g: int| 0 <= g < groups.len() && group_key(ks, #[trigger] groups[g]) == k;
        let gr = groups[g];
        assert(is_collision_group(ks, gr));
        assert(gr[0] != gr[1]);
        assert(ks[gr[0] as int] == k && ks[gr[1] as int] == k);
        assert(gr[0] as int != gr[1] as int);
    }
    if exists|d1: int, d2: int|
        0 <= d1 < ks.len() && 0 <= d2 < ks.len() && d1 != d2 && #[trigger] ks[d1] == k && #[trigger] ks[d2] == k {
        let (d1, d2) = choose|d1: int, d2: int|
            0 <= d1 < ks.len() && 0 <= d2 < ks.len() && d1 != d2 && #[trigger] ks[d1] == k && #[trigger] ks[d2] == k;
        assert(!unique_key(ks, d1));
        let g = choose|g: int| 0 <= g < groups.len() && #[trigger] groups[g].contains(d1 as usize);
        let gr = groups[g];
        assert(is_collision_group(ks, gr));
        let t = choose|t: int| 0 <= t < gr.len() && gr[t] == d1 as usize;
        assert(ks[gr[t] as int] == group_key(ks, gr));
    }
}

/// With distinct paths, the mapped records stand in strictly ascending
/// order of path, and the collision groups in strictly ascending order of
/// primary compatible.
pub proof fn lemma_document_order(data: Seq<DtbData>, valid: Seq<usize>, groups: Seq<Seq<usize>>)
    requires
        is_mapping_split(data, valid, groups),
        forall|i: int, j: int| 0 <= i < j < data.len() ==> data[i].path@ != data[j].path@,
    ensures
        forall|a: int, b: int|
            0 <= a < b < valid.len() ==> seq_lt(
                #[trigger] data[valid[a] as int].path@,
                #[trigger] data[valid[b] as int].path@,
            ),
        forall|g1: int, g2: int|
            0 <= g1 < g2 < groups.len() ==> seq_lt(
                data[(#[trigger] groups[g1])[0] as int].primary(),
                data[(#[trigger] groups[g2])[0] as int].primary(),
            ),
{
    let ps = paths_of(data);
    assert forall|a: int, b: int| 0 <= a < b < valid.len() implies seq_lt(
        #[trigger] data[valid[a] as int].path@,
        #[trigger] data[valid[b] as int].path@,
    ) by {
        let x = valid[a] as int;
        let y = valid[b] as int;
        assert(valid[a] != valid[b]);
        assert(x < data.len() && y < data.len());
        if x < y {
            assert(data[x].path@ != data[y].path@);
        } else {
            assert(data[y].path@ != data[x].path@);
        }
        assert(ps[x] == data[x].path@ && ps[y] == data[y].path@);
        lemma_lt_total(ps[x], ps[y]);
    }
}

/// The node name depends on the path alone.
pub proof fn lemma_node_name_deterministic(p: Seq<char>, q: Seq<char>)
    requires
        p == q,
    ensures
        node_name_of(p) == node_name_of(q),
{
}

proof fn lemma_occurs_in_concat(a: Seq<char>, b: Seq<char>, c: Seq<char>, pat: Seq<char>, k: int)
    requires
        occurs_at(b, pat, k),
    ensures
        occurs_at(a + b + c, pat, a.len() + k),
{
    assert((a + b + c).subrange(a.len() + k, a.len() + k + pat.len()) =~= b.subrange(k, k + pat.len()));
}

proof fn lemma_record_in_records(data: Seq<DtbData>, v: Seq<usize>, i: int)
    requires
        0 <= i < v.len(),
    ensures
        exists|k: int| occurs_at(records_text(data, v), record_text(data[v[i] as int]), k),
    decreases v.len(),
{
    let r = record_text(data[v[i] as int]);
    let prev = records_text(data, v.drop_last());
    let last = record_text(data[v.last() as int]);
    if i == v.len() - 1 {
        assert(r.subrange(0, r.len() as int) =~= r);
        lemma_occurs_in_concat(prev, r, Seq::empty(), r, 0);
        assert(prev + r + Seq::<char>::empty() =~= records_text(data, v));
    } else {
        lemma_record_in_records(data, v.drop_last(), i);
        let k = choose|k: int| occurs_at(prev, r, k);
        lemma_occurs_in_concat(Seq::empty(), prev, last, r, k);
        assert(Seq::<char>::empty() + prev + last =~= records_text(data, v));
    }
}

/// The path of every mapped record reappears, quoted, as the `dtb` value of
/// its node in the document.
pub proof fn lemma_dtb_path_verbatim(data: Seq<DtbData>, valid: Seq<usize>, groups: Seq<Seq<usize>>, t: int)
    requires
        0 <= t < valid.len(),
    ensures
        exists|k: int|
            occurs_at(
                document_text(data, valid, groups),
                " {\n\t\t\tdtb = "@ + debug_quoted(data[valid[t] as int].path@) + ";\n\t\t\tmodel = "@,
                k,
            ),
{
    let d = data[valid[t] as int];
    let line = " {\n\t\t\tdtb = "@ + debug_quoted(d.path@) + ";\n\t\t\tmodel = "@;
    let before = "\t\t/* "@ + d.model@ + ": ["@ + crate::dtb_data::quoted_list(d.compat_view())
        + "] */\n\t\t"@ + node_name_of(d.path@);
    let after = debug_quoted(d.model@) + ";\n\t\t\tcompatible = "@ + crate::dtb_data::quoted_list(
        d.compat_view(),
    ) + ";\n\t\t};\n"@;
    assert(before + line + after =~= record_text(d));
    assert(occurs_at(line, line, 0)) by {
        assert(line.subrange(0, line.len() as int) =~= line);
    }
    lemma_occurs_in_concat(before, line, after, line, 0);
    lemma_record_in_records(data, valid, t);
    let k = choose|k: int| occurs_at(records_text(data, valid), record_text(d), k);
    let rt = record_text(d);
    assert(occurs_at(records_text(data, valid), line, k + before.len())) by {
        let rs = records_text(data, valid);
        assert(rs.subrange(k + before.len(), k + before.len() + line.len()) =~= rt.subrange(
            before.len() as int,
            (before.len() + line.len()) as int,
        ));
    }
    let head = crate::render::header_text() + crate::render::warnings_text(data, groups)
        + "\n/ {\n\tmapping {\n"@;
    lemma_occurs_in_concat(head, records_text(data, valid), "\t};\n};\n"@, line, k + before.len());
    assert(head + records_text(data, valid) + "\t};\n};\n"@ =~= document_text(data, valid, groups));
}

/// A path of the shape that node names are made for: it ends in its only
/// `.dtb`, and holds no `@` or `_`.
pub open spec fn is_plain_dtb_path(p: Seq<char>) -> bool {
    &&& p.len() >= 4
    &&& occurs_at(p, dtb_ext(), p.len() - 4)
    &&& forall|j: int| 0 <= j < p.len() - 4 ==> !occurs_at(p, dtb_ext(), j)
    &&& forall|i: int| 0 <= i < p.len() ==> #[trigger] p[i] != '@' && p[i] != '_'
}

proof fn lemma_plain_name(p: Seq<char>)
    requires
        is_plain_dtb_path(p),
    ensures
        node_name_of(p) == slashes_mapped(p).subrange(0, p.len() - 4),
{
    let l = p.len() - 4;
    assert(is_first_ext(p, l));
    let c = choose|c: int| is_first_ext(p, c);
    assert(is_first_ext(p, c));
    if c < l {
    } else if l < c {
    }
    let m = slashes_mapped(p);
    assert(m.subrange(0, l) + m.subrange(l + 4, m.len() as int) =~= m.subrange(0, l));
}

/// Distinct paths of the intended shape, such as `a/b.dtb` and `a/c.dtb`,
/// get distinct node names.
pub proof fn lemma_node_names_distinct(p: Seq<char>, q: Seq<char>)
    requires
        is_plain_dtb_path(p),
        is_plain_dtb_path(q),
        p != q,
    ensures
        node_name_of(p) != node_name_of(q),
{
    lemma_plain_name(p);
    lemma_plain_name(q);
    if node_name_of(p) == node_name_of(q) {
        let mp = slashes_mapped(p);
        let mq = slashes_mapped(q);
        let l = p.len() - 4;
        assert(mp.subrange(0, l).len() == l);
        assert(q.len() == p.len());
        assert forall|i: int| 0 <= i < p.len() implies p[i] == q[i] by {
            if i < l {
                assert(mp.subrange(0, l)[i] == mq.subrange(0, l)[i]);
                assert(mp[i] == mq[i]);
            } else {
                assert(p.subrange(l, l + 4)[i - l] == q.subrange(l, l + 4)[i - l]);
            }
        }
        assert(p =~= q);
    }
}

} // verus!
