use crate::order::{lemma_lt_irreflexive, lemma_lt_total, lemma_lt_transitive, seq_lt, str_lt};
use crate::dtb_data::DtbData;
use crate::render::{document_text, render_document};
use itertools::Itertools;
use vstd::prelude::*;

verus! {

/// The strings of `v`, as character sequences.
pub open spec fn strings_view(v: Seq<String>) -> Seq<Seq<char>> {
    v.map_values(|s: String| s@)
}

/// `r` lists each index below `n` exactly once.
pub open spec fn is_index_perm(r: Seq<usize>, n: nat) -> bool {
    &&& r.len() == n
    &&& r.no_duplicates()
    &&& forall|j: int| 0 <= j < r.len() ==> r[j] < n
    &&& forall|k: usize| k < n ==> r.contains(k)
}

/// The indices of `r` are in ascending order of their keys.
pub open spec fn sorted_by(ks: Seq<Seq<char>>, r: Seq<usize>) -> bool {
    forall|a: int, b: int| 0 <= a < b < r.len() ==> !seq_lt(ks[r[b] as int], ks[r[a] as int])
}

/// `lens` cuts `ks` into its maximal runs of equal neighbours, in order.
pub open spec fn is_run_split(ks: Seq<Seq<char>>, lens: Seq<usize>) -> bool
    decreases lens.len(),
{
    if lens.len() == 0 {
        ks.len() == 0
    } else {
        let l = lens[0] as int;
        &&& 0 < l <= ks.len()
        &&& forall|j: int| 0 <= j < l ==> #[trigger] ks[j] == ks[0]
        &&& l < ks.len() ==> ks[l] != ks[0]
        &&& is_run_split(ks.skip(l), lens.skip(1))
    }
}

/// Relies on itertools' `chunk_by`, which groups neighbouring items whose
/// keys are equal: the length of each maximal run of equal strings, in order.
#[verifier::external_body]
fn run_lengths(keys: &Vec<String>) -> (r: Vec<usize>)
    ensures
        is_run_split(strings_view(keys@), r@),
{
    keys.iter().chunk_by(|k| *k).into_iter().map(|(_, run)| run.count()).collect()
}

/// Proves that in a sorted key list equal keys stand next to each other.
proof fn lemma_equal_keys_contiguous(ks: Seq<Seq<char>>, r: Seq<usize>, a: int, c: int, b: int)
    requires
        sorted_by(ks, r),
        0 <= a <= c <= b < r.len(),
        ks[r[a] as int] == ks[r[b] as int],
    ensures
        ks[r[c] as int] == ks[r[a] as int],
{
    let x = ks[r[a] as int];
    let y = ks[r[c] as int];
    if x != y {
        lemma_lt_total(x, y);
    }
}

/// Returns the indices of `keys`, ordered by their keys.
pub fn order_by(keys: &Vec<String>) -> (r: Vec<usize>)
    ensures
        is_index_perm(r@, keys@.len()),
        sorted_by(strings_view(keys@), r@),
{
    let ghost ks = strings_view(keys@);
    let mut out: Vec<usize> = Vec::new();
    let mut i: usize = 0;
    while i < keys.len()
        invariant
            ks == strings_view(keys@),
            i <= keys@.len(),
            is_index_perm(out@, i as nat),
            sorted_by(ks, out@),
        decreases keys@.len() - i,
    {
        let mut p: usize = 0;
        while p < out.len() && !str_lt(keys[i].as_str(), keys[out[p]].as_str())
            invariant
                ks == strings_view(keys@),
                i < keys@.len(),
                is_index_perm(out@, i as nat),
                p <= out@.len(),
                forall|a: int| 0 <= a < p ==> !seq_lt(ks[i as int], ks[out@[a] as int]),
            decreases out@.len() - p,
        {
            p = p + 1;
        }
        let ghost old_out = out@;
        out.insert(p, i);
        proof {
            let ki = ks[i as int];
            assert(out@ == old_out.insert(p as int, i));
            assert forall|a: int, b: int| 0 <= a < b < out@.len() implies !seq_lt(
                ks[out@[b] as int],
                ks[out@[a] as int],
            ) by {
                if a == p && b > p {
                    let kb = ks[old_out[b - 1] as int];
                    let kp = ks[old_out[p as int] as int];
                    if seq_lt(kb, ki) {
                        lemma_lt_transitive(kb, ki, kp);
                        if b - 1 == p {
                            lemma_lt_irreflexive(kb);
                        }
                    }
                }
            }
            assert forall|k: usize| k < i + 1 implies out@.contains(k) by {
                if k < i {
                    assert(old_out.contains(k));
                    let j = choose|j: int| 0 <= j < old_out.len() && old_out[j] == k;
                    if j < p {
                        assert(out@[j] == k);
                    } else {
                        assert(out@[j + 1] == k);
                    }
                } else {
                    assert(out@[p as int] == k);
                }
            }
            assert(!old_out.contains(i));
            assert forall|x: int, y: int| 0 <= x < y < out@.len() implies out@[x] != out@[y] by {
                if x != p && y != p {
                    let ox = if x < p { x } else { x - 1 };
                    let oy = if y < p { y } else { y - 1 };
                    assert(old_out[ox] == out@[x]);
                    assert(old_out[oy] == out@[y]);
                } else if x == p {
                    assert(old_out.contains(out@[y]));
                } else {
                    assert(old_out.contains(out@[x]));
                }
            }
        }
        i = i + 1;
    }
    out
}

/// Record `d` is the only one with its key.
pub open spec fn unique_key(ks: Seq<Seq<char>>, d: int) -> bool {
    forall|e: int| 0 <= e < ks.len() && e != d ==> ks[e] != ks[d]
}

/// The key of the group `g`.
pub open spec fn group_key(ks: Seq<Seq<char>>, g: Seq<usize>) -> Seq<char> {
    ks[g[0] as int]
}

/// `g` lists, once each, all the records with one shared key, and they are
/// two or more.
pub open spec fn is_collision_group(ks: Seq<Seq<char>>, g: Seq<usize>) -> bool {
    &&& g.len() >= 2
    &&& g.no_duplicates()
    &&& forall|t: int| 0 <= t < g.len() ==> #[trigger] g[t] < ks.len() && ks[g[t] as int] == group_key(ks, g)
    &&& forall|d: int| 0 <= d < ks.len() && ks[d] == group_key(ks, g) ==> g.contains(d as usize)
}

/// The index lists of `gs`.
pub open spec fn groups_view(gs: Seq<Vec<usize>>) -> Seq<Seq<usize>> {
    gs.map_values(|g: Vec<usize>| g@)
}

/// `valid` holds the records whose key no other record has; `groups` holds,
/// in ascending order of key, one collision group per key that several
/// records share.
pub open spec fn is_key_split(ks: Seq<Seq<char>>, valid: Seq<usize>, groups: Seq<Seq<usize>>) -> bool {
    &&& valid.no_duplicates()
    &&& forall|t: int| 0 <= t < valid.len() ==> #[trigger] valid[t] < ks.len()
    &&& forall|d: int| 0 <= d < ks.len() ==> (valid.contains(d as usize) <==> unique_key(ks, d))
    &&& forall|g: int| 0 <= g < groups.len() ==> is_collision_group(ks, #[trigger] groups[g])
    &&& forall|g1: int, g2: int|
        0 <= g1 < g2 < groups.len() ==> seq_lt(
            group_key(ks, #[trigger] groups[g1]),
            group_key(ks, #[trigger] groups[g2]),
        )
    &&& forall|d: int|
        0 <= d < ks.len() && !unique_key(ks, d) ==> exists|g: int|
            0 <= g < groups.len() && #[trigger] groups[g].contains(d as usize)
}

/// The position at which `d` stands in `r`.
pub open spec fn pos_of(r: Seq<usize>, d: usize) -> int {
    choose|c: int| 0 <= c < r.len() && r[c] == d
}

proof fn lemma_pos_of(r: Seq<usize>, n: nat, d: usize)
    requires
        is_index_perm(r, n),
        d < n,
    ensures
        0 <= pos_of(r, d) < n,
        r[pos_of(r, d)] == d,
        forall|c: int| 0 <= c < n && r[c] == d ==> c == pos_of(r, d),
{
    assert(r.contains(d));
}

/// Proves that in a sorted order the records with the key of the run that
/// starts at `pos` and has length `l` are exactly those of the run.
proof fn lemma_run_exact(ks: Seq<Seq<char>>, r: Seq<usize>, pos: int, l: int, c: int)
    requires
        sorted_by(ks, r),
        0 <= pos < pos + l <= r.len(),
        0 <= c < r.len(),
        pos > 0 ==> ks[r[pos - 1] as int] != ks[r[pos] as int],
        pos + l < r.len() ==> ks[r[pos + l] as int] != ks[r[pos] as int],
        ks[r[c] as int] == ks[r[pos] as int],
    ensures
        pos <= c < pos + l,
{
    if c < pos {
        lemma_equal_keys_contiguous(ks, r, c, pos - 1, pos);
    } else if c >= pos + l {
        lemma_equal_keys_contiguous(ks, r, pos, pos + l, c);
    }
}

/// Proves that keys before a run boundary come strictly before the key after it.
proof fn lemma_before_boundary(ks: Seq<Seq<char>>, r: Seq<usize>, c: int, pos: int)
    requires
        sorted_by(ks, r),
        0 <= c < pos < r.len(),
        ks[r[pos - 1] as int] != ks[r[pos] as int],
    ensures
        seq_lt(ks[r[c] as int], ks[r[pos] as int]),
{
    let x = ks[r[c] as int];
    let y = ks[r[pos] as int];
    if x == y {
        lemma_equal_keys_contiguous(ks, r, c, pos - 1, pos);
    } else {
        lemma_lt_total(x, y);
    }
}

/// Splits the records, given by their keys, into those whose key is their own
/// and the groups of those that share one.
#[verifier::rlimit(40)]
pub fn split_by_key(keys: &Vec<String>) -> (r: (Vec<usize>, Vec<Vec<usize>>))
    ensures
        is_key_split(strings_view(keys@), r.0@, groups_view(r.1@)),
{
    let ghost ks = strings_view(keys@);
    let n = keys.len();
    let order = order_by(keys);
    let mut sorted_keys: Vec<String> = Vec::new();
    let mut c: usize = 0;
    while c < n
        invariant
            n == keys@.len(),
            ks == strings_view(keys@),
            is_index_perm(order@, n as nat),
            c <= n,
            sorted_keys@.len() == c,
            forall|t: int| 0 <= t < c ==> (#[trigger] sorted_keys@[t])@ == ks[order@[t] as int],
        decreases n - c,
    {
        sorted_keys.push(keys[order[c]].clone());
        c = c + 1;
    }
    let ghost skv = strings_view(sorted_keys@);
    let lens = run_lengths(&sorted_keys);
    let mut valid: Vec<usize> = Vec::new();
    let mut groups: Vec<Vec<usize>> = Vec::new();
    let mut pos: usize = 0;
    let mut j: usize = 0;
    proof {
        assert(skv.skip(0) =~= skv);
        assert(lens@.skip(0) =~= lens@);
    }
    while j < lens.len()
        invariant
            n == keys@.len(),
            ks == strings_view(keys@),
            is_index_perm(order@, n as nat),
            sorted_by(ks, order@),
            skv.len() == n,
            forall|t: int| 0 <= t < n ==> #[trigger] skv[t] == ks[order@[t] as int],
            j <= lens@.len(),
            pos <= n,
            is_run_split(skv.skip(pos as int), lens@.skip(j as int)),
            0 < pos < n ==> skv[pos - 1] != skv[pos as int],
            valid@.no_duplicates(),
            forall|t: int|
                0 <= t < valid@.len() ==> #[trigger] valid@[t] < n && unique_key(ks, valid@[t] as int)
                    && pos_of(order@, valid@[t]) < pos,
            forall|c: int|
                0 <= c < pos && unique_key(ks, order@[c] as int) ==> valid@.contains(
                    #[trigger] order@[c],
                ),
            forall|g: int|
                0 <= g < groups@.len() ==> is_collision_group(ks, #[trigger] groups@[g]@)
                    && pos_of(order@, groups@[g]@[0]) < pos,
            forall|g1: int, g2: int|
                0 <= g1 < g2 < groups@.len() ==> seq_lt(
                    group_key(ks, #[trigger] groups@[g1]@),
                    group_key(ks, #[trigger] groups@[g2]@),
                ),
            forall|c: int|
                0 <= c < pos && !unique_key(ks, order@[c] as int) ==> exists|g: int|
                    0 <= g < groups@.len() && #[trigger] groups@[g]@.contains(order@[c]),
        decreases lens@.len() - j,
    {
        let l = lens[j];
        proof {
            let rest = skv.skip(pos as int);
            assert(lens@.skip(j as int)[0] == l);
            assert(forall|t: int| 0 <= t < l ==> #[trigger] rest[t] == skv[pos + t]);
            assert(rest[0] == skv[pos as int]);
            assert(rest.skip(l as int) =~= skv.skip(pos + l));
            assert(lens@.skip(j as int).skip(1) =~= lens@.skip(j + 1));
            if pos + l < n {
                assert(rest[l as int] == skv[pos + l]);
            }
            assert forall|t: int| 0 <= t < l implies #[trigger] skv[pos + t] == skv[pos as int] by {
                assert(rest[t] == rest[0]);
            }
        }
        let ghost key = skv[pos as int];
        let ghost old_valid = valid@;
        let ghost old_groups = groups@;
        if l == 1 {
            valid.push(order[pos]);
            proof {
                let d = order@[pos as int];
                lemma_pos_of(order@, n as nat, d);
                assert forall|e: int| 0 <= e < n && e != d implies ks[e] != ks[d as int] by {
                    if ks[e] == ks[d as int] {
                        lemma_pos_of(order@, n as nat, e as usize);
                        let ce = pos_of(order@, e as usize);
                        lemma_run_exact(ks, order@, pos as int, 1, ce);
                    }
                }
                assert(unique_key(ks, d as int));
                assert forall|x: int, y: int| 0 <= x < y < valid@.len() implies valid@[x] != valid@[y] by {
                    if y == valid@.len() - 1 {
                        assert(pos_of(order@, old_valid[x]) < pos);
                    }
                }
                assert(valid@[valid@.len() - 1] == d);
                assert forall|t: int| 0 <= t < valid@.len() implies #[trigger] valid@[t] < n && unique_key(ks, valid@[t] as int)
                    && pos_of(order@, valid@[t]) < pos + 1 by {
                    if t < old_valid.len() {
                        assert(valid@[t] == old_valid[t]);
                    }
                }
                assert forall|c: int| 0 <= c < pos + 1 && unique_key(ks, order@[c] as int) implies valid@.contains(
                    #[trigger] order@[c]) by {
                    if c < pos {
                        assert(old_valid.contains(order@[c]));
                        let w = choose|w: int| 0 <= w < old_valid.len() && old_valid[w] == order@[c];
                        assert(valid@[w] == order@[c]);
                    } else {
                        assert(valid@[valid@.len() - 1] == order@[c]);
                    }
                }
                assert forall|c: int| 0 <= c < pos + 1 && !unique_key(ks, order@[c] as int) implies exists|g: int|
                    0 <= g < groups@.len() && #[trigger] groups@[g]@.contains(order@[c]) by {
                    if c == pos {
                        assert(order@[c] == d);
                    }
                }
            }
        } else {
            let mut group: Vec<usize> = Vec::new();
            let mut t: usize = pos;
            while t < pos + l
                invariant
                    is_index_perm(order@, n as nat),
                    pos < pos + l <= n,
                    pos <= t <= pos + l,
                    group@ == order@.subrange(pos as int, t as int),
                decreases pos + l - t,
            {
                group.push(order[t]);
                proof {
                    assert(group@ =~= order@.subrange(pos as int, t + 1));
                }
                t = t + 1;
            }
            proof {
                let g = group@;
                assert(g.len() >= 2);
                assert(g[0] == order@[pos as int]);
                assert(group_key(ks, g) == key);
                assert forall|x: int, y: int| 0 <= x < y < g.len() implies g[x] != g[y] by {
                    assert(g[x] == order@[pos + x]);
                    assert(g[y] == order@[pos + y]);
                }
                assert forall|u: int| 0 <= u < g.len() implies #[trigger] g[u] < ks.len() && ks[g[u] as int] == group_key(ks, g) by {
                    assert(g[u] == order@[pos + u]);
                    assert(skv[pos + u] == skv[pos as int]);
                }
                assert forall|d: int| 0 <= d < ks.len() && ks[d] == group_key(ks, g) implies g.contains(d as usize) by {
                    lemma_pos_of(order@, n as nat, d as usize);
                    let cd = pos_of(order@, d as usize);
                    lemma_run_exact(ks, order@, pos as int, l as int, cd);
                    assert(g[cd - pos] == d as usize);
                }
                assert(is_collision_group(ks, g));
                lemma_pos_of(order@, n as nat, g[0]);
                assert forall|c: int| pos <= c < pos + l implies !unique_key(ks, #[trigger] order@[c] as int) && g.contains(order@[c]) by {
                    assert(g[c - pos] == order@[c]);
                    let other = if c == pos { order@[pos + 1] } else { order@[pos as int] };
                    assert(skv[pos + (c - pos)] == skv[pos as int]);
                    assert(skv[pos + 1] == skv[pos as int]);
                    assert(ks[other as int] == ks[order@[c] as int]);
                    assert(other != order@[c]);
                }
                {
                    assert forall|gi: int| 0 <= gi < old_groups.len() implies seq_lt(
                        group_key(ks, #[trigger] old_groups[gi]@), key) by {
                        let g0 = old_groups[gi]@[0];
                        assert(is_collision_group(ks, old_groups[gi]@));
                        assert(g0 < n);
                        lemma_pos_of(order@, n as nat, g0);
                        lemma_before_boundary(ks, order@, pos_of(order@, g0), pos as int);
                    }
                }
            }
            groups.push(group);
            proof {
                let last = groups@.len() - 1;
                assert(groups@[last]@ == group@);
                assert forall|g: int| 0 <= g < groups@.len() implies is_collision_group(ks, #[trigger] groups@[g]@)
                    && pos_of(order@, groups@[g]@[0]) < pos + l by {
                    if g < last {
                        assert(groups@[g] == old_groups[g]);
                    }
                }
                assert forall|g1: int, g2: int|
                    0 <= g1 < g2 < groups@.len() implies seq_lt(
                        group_key(ks, #[trigger] groups@[g1]@),
                        group_key(ks, #[trigger] groups@[g2]@),
                    ) by {
                    assert(groups@[g1] == old_groups[g1]);
                    if g2 < last {
                        assert(groups@[g2] == old_groups[g2]);
                    }
                }
                assert forall|c: int| 0 <= c < pos + l && !unique_key(ks, order@[c] as int) implies exists|g: int|
                    0 <= g < groups@.len() && #[trigger] groups@[g]@.contains(order@[c]) by {
                    if c < pos {
                        let g = choose|g: int| 0 <= g < old_groups.len() && #[trigger] old_groups[g]@.contains(order@[c]);
                        assert(groups@[g] == old_groups[g]);
                    } else {
                        assert(groups@[last]@.contains(order@[c]));
                    }
                }
            }
        }
        pos = pos + l;
        j = j + 1;
    }
    proof {
        assert(lens@.skip(j as int).len() == 0);
        assert(pos == n);
        assert forall|d: int| 0 <= d < ks.len() implies (valid@.contains(d as usize) <==> unique_key(ks, d)) by {
            lemma_pos_of(order@, n as nat, d as usize);
            let cd = pos_of(order@, d as usize);
            if valid@.contains(d as usize) {
                let w = choose|w: int| 0 <= w < valid@.len() && valid@[w] == d as usize;
                assert(unique_key(ks, valid@[w] as int));
            }
            if unique_key(ks, d) {
                assert(unique_key(ks, order@[cd] as int));
            }
        }
        assert forall|d: int| 0 <= d < ks.len() && !unique_key(ks, d) implies exists|g: int|
            0 <= g < groups_view(groups@).len() && #[trigger] groups_view(groups@)[g].contains(d as usize) by {
            lemma_pos_of(order@, n as nat, d as usize);
            let cd = pos_of(order@, d as usize);
            assert(!unique_key(ks, order@[cd] as int));
            let g = choose|g: int| 0 <= g < groups@.len() && #[trigger] groups@[g]@.contains(order@[cd]);
            assert(groups_view(groups@)[g] == groups@[g]@);
        }
        assert forall|g: int| 0 <= g < groups_view(groups@).len() implies is_collision_group(ks, #[trigger] groups_view(groups@)[g]) by {
            assert(groups_view(groups@)[g] == groups@[g]@);
        }
        assert forall|g1: int, g2: int|
            0 <= g1 < g2 < groups_view(groups@).len() implies seq_lt(
                group_key(ks, #[trigger] groups_view(groups@)[g1]),
                group_key(ks, #[trigger] groups_view(groups@)[g2]),
            ) by {
            assert(groups_view(groups@)[g1] == groups@[g1]@);
            assert(groups_view(groups@)[g2] == groups@[g2]@);
        }
    }
    (valid, groups)
}

/// The primary compatible of each record.
pub open spec fn primaries(data: Seq<DtbData>) -> Seq<Seq<char>> {
    data.map_values(|d: DtbData| d.primary())
}

/// The path of each record.
pub open spec fn paths_of(data: Seq<DtbData>) -> Seq<Seq<char>> {
    data.map_values(|d: DtbData| d.path@)
}

/// Every record has a primary compatible.
pub open spec fn all_wf(data: Seq<DtbData>) -> bool {
    forall|i: int| 0 <= i < data.len() ==> #[trigger] data[i].wf()
}

/// `valid` and `groups` split the records by primary compatible, and `valid`
/// is ordered by path.
pub open spec fn is_mapping_split(data: Seq<DtbData>, valid: Seq<usize>, groups: Seq<Seq<usize>>) -> bool {
    &&& is_key_split(primaries(data), valid, groups)
    &&& sorted_by(paths_of(data), valid)
}

/// `text` is the mapping document of `data`.
pub open spec fn is_mapping_of(data: Seq<DtbData>, text: Seq<char>) -> bool {
    exists|valid: Seq<usize>, groups: Seq<Seq<usize>>|
        is_mapping_split(data, valid, groups) && text == document_text(data, valid, groups)
}

/// Returns `items` in the order `q`.
fn permuted(items: &Vec<usize>, q: &Vec<usize>) -> (r: Vec<usize>)
    requires
        is_index_perm(q@, items@.len()),
    ensures
        r@.len() == items@.len(),
        forall|j: int| 0 <= j < r@.len() ==> r@[j] == items@[q@[j] as int],
{
    let mut r: Vec<usize> = Vec::new();
    let mut j: usize = 0;
    while j < q.len()
        invariant
            is_index_perm(q@, items@.len()),
            j <= q@.len(),
            r@.len() == j,
            forall|u: int| 0 <= u < j ==> r@[u] == items@[q@[u] as int],
        decreases q@.len() - j,
    {
        r.push(items[q[j]]);
        j = j + 1;
    }
    r
}

/// Builds the mapping document of the records `data`: those whose primary
/// compatible no other record has are mapped, ordered by path; the others
/// are listed as warnings, grouped by primary compatible.
pub fn mapping_document(data: &Vec<DtbData>) -> (r: String)
    requires
        all_wf(data@),
    ensures
        is_mapping_of(data@, r@),
{
    let ghost ks = primaries(data@);
    let mut keys: Vec<String> = Vec::new();
    let mut i: usize = 0;
    while i < data.len()
        invariant
            all_wf(data@),
            ks == primaries(data@),
            i <= data@.len(),
            keys@.len() == i,
            forall|t: int| 0 <= t < i ==> (#[trigger] keys@[t])@ == ks[t],
        decreases data@.len() - i,
    {
        keys.push(data[i].compatible().clone());
        i = i + 1;
    }
    assert(strings_view(keys@) =~= ks);
    let (valid, groups) = split_by_key(&keys);
    let ghost ps = paths_of(data@);
    let mut paths: Vec<String> = Vec::new();
    let mut t: usize = 0;
    while t < valid.len()
        invariant
            is_key_split(ks, valid@, groups_view(groups@)),
            ks.len() == data@.len(),
            ps == paths_of(data@),
            t <= valid@.len(),
            paths@.len() == t,
            forall|u: int| 0 <= u < t ==> (#[trigger] paths@[u])@ == ps[valid@[u] as int],
        decreases valid@.len() - t,
    {
        paths.push(data[valid[t]].path.clone());
        t = t + 1;
    }
    let q = order_by(&paths);
    let sorted = permuted(&valid, &q);
    proof {
        let v = valid@;
        let sv = sorted@;
        let pv = strings_view(paths@);
        assert forall|a: int, b: int| 0 <= a < b < sv.len() implies !seq_lt(ps[sv[b] as int], ps[sv[a] as int]) by {
            assert(pv[q@[a] as int] == ps[sv[a] as int]);
            assert(pv[q@[b] as int] == ps[sv[b] as int]);
        }
        assert forall|x: int, y: int| 0 <= x < y < sv.len() implies sv[x] != sv[y] by {
            assert(q@[x] != q@[y]);
        }
        assert forall|d: usize| sv.contains(d) <==> v.contains(d) by {
            if v.contains(d) {
                let w = choose|w: int| 0 <= w < v.len() && v[w] == d;
                assert(q@.contains(w as usize));
                let j = choose|j: int| 0 <= j < q@.len() && q@[j] == w as usize;
                assert(sv[j] == d);
            }
            if sv.contains(d) {
                let j = choose|j: int| 0 <= j < sv.len() && sv[j] == d;
                assert(v[q@[j] as int] == d);
            }
        }
        assert(is_key_split(ks, sv, groups_view(groups@)));
        assert forall|g: int|
            0 <= g < groups@.len() implies (#[trigger] groups@[g])@.len() > 0 && forall|u: int|
                0 <= u < groups@[g]@.len() ==> #[trigger] groups@[g]@[u] < data@.len() by {
            assert(groups_view(groups@)[g] == groups@[g]@);
            assert(is_collision_group(ks, groups_view(groups@)[g]));
        }
    }
    let r = render_document(data, &sorted, &groups);
    assert(is_mapping_split(data@, sorted@, groups_view(groups@)));
    r
}

} // verus!
