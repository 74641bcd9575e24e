use crate::dtb_data::{debug_quoted, node_name_of, quote, quoted_list, DtbData};
use crate::mapping::groups_view;
use vstd::prelude::*;

verus! {

/// The fixed header node of every mapping document.
pub open spec fn header_text() -> Seq<char> {
    "/dts-v1/;\n\n/ {\n\tfdtshim,schema-version = \"0.1\";\n\tfdtshim,generator = \"fdtshim-mapping-generator\";\n\tcompatible = \"fdtshim,mapping\";\n};\n\n"@
}

/// The comment that stands where no collision was found.
pub open spec fn no_warnings_text() -> Seq<char> {
    "/* No warnings during generation */\n"@
}

/// The opening of the comment that lists collisions.
pub open spec fn warning_intro_text() -> Seq<char> {
    "/*\n * WARNING: These dtb files share the main compatible names.\n *          No action has been taken for them.\n"@
}

/// The mapping node of one record.
pub open spec fn record_text(d: DtbData) -> Seq<char> {
    "\t\t/* "@ + d.model@ + ": ["@ + quoted_list(d.compat_view()) + "] */\n\t\t"@
        + node_name_of(d.path@) + " {\n\t\t\tdtb = "@ + debug_quoted(d.path@)
        + ";\n\t\t\tmodel = "@ + debug_quoted(d.model@) + ";\n\t\t\tcompatible = "@
        + quoted_list(d.compat_view()) + ";\n\t\t};\n"@
}

/// The mapping nodes of the records at the indices `v`, in that order.
pub open spec fn records_text(data: Seq<DtbData>, v: Seq<usize>) -> Seq<char>
    decreases v.len(),
{
    if v.len() == 0 {
        Seq::empty()
    } else {
        records_text(data, v.drop_last()) + record_text(data[v.last() as int])
    }
}

/// One warning line per path of the records at the indices `g`.
pub open spec fn members_text(data: Seq<DtbData>, g: Seq<usize>) -> Seq<char>
    decreases g.len(),
{
    if g.len() == 0 {
        Seq::empty()
    } else {
        members_text(data, g.drop_last()) + " *     - "@ + data[g.last() as int].path@ + "\n"@
    }
}

/// The warning entry of one collision group: its primary compatible, then
/// the paths of its members.
pub open spec fn group_text(data: Seq<DtbData>, g: Seq<usize>) -> Seq<char> {
    " *\n * - "@ + data[g[0] as int].primary() + "\n"@ + members_text(data, g)
}

/// The warning entries of the groups `gs`, in that order.
pub open spec fn groups_text(data: Seq<DtbData>, gs: Seq<Seq<usize>>) -> Seq<char>
    decreases gs.len(),
{
    if gs.len() == 0 {
        Seq::empty()
    } else {
        groups_text(data, gs.drop_last()) + group_text(data, gs.last())
    }
}

/// The warning block: a fixed comment when there is no group.
pub open spec fn warnings_text(data: Seq<DtbData>, gs: Seq<Seq<usize>>) -> Seq<char> {
    if gs.len() == 0 {
        no_warnings_text()
    } else {
        warning_intro_text() + groups_text(data, gs) + " */\n"@
    }
}

/// The whole document: header, warnings, and one mapping node per index of `valid`.
pub open spec fn document_text(data: Seq<DtbData>, valid: Seq<usize>, gs: Seq<Seq<usize>>) -> Seq<char> {
    header_text() + warnings_text(data, gs) + "\n/ {\n\tmapping {\n"@ + records_text(data, valid)
        + "\t};\n};\n"@
}

/// Appends the mapping node of `d` to `out`.
pub fn push_record(out: &mut String, d: &DtbData)
    ensures
        final(out)@ == old(out)@ + record_text(*d),
{
    let ghost start = out@;
    let source = d.compatibles_source();
    out.append("\t\t/* ");
    out.append(d.model.as_str());
    out.append(": [");
    out.append(source.as_str());
    out.append("] */\n\t\t");
    let name = d.node_name();
    out.append(name.as_str());
    out.append(" {\n\t\t\tdtb = ");
    let path = quote(d.path.as_str());
    out.append(path.as_str());
    out.append(";\n\t\t\tmodel = ");
    let model = quote(d.model.as_str());
    out.append(model.as_str());
    out.append(";\n\t\t\tcompatible = ");
    out.append(source.as_str());
    out.append(";\n\t\t};\n");
    assert(out@ =~= start + record_text(*d));
}

/// Appends the warning entry of the group `g` to `out`.
pub fn push_group(out: &mut String, data: &Vec<DtbData>, g: &Vec<usize>)
    requires
        g@.len() > 0,
        forall|t: int| 0 <= t < g@.len() ==> #[trigger] g@[t] < data@.len(),
        data@[g@[0] as int].wf(),
    ensures
        final(out)@ == old(out)@ + group_text(data@, g@),
{
    let ghost start = out@;
    out.append(" *\n * - ");
    out.append(data[g[0]].compatible().as_str());
    out.append("\n");
    let ghost head = out@;
    let mut t: usize = 0;
    while t < g.len()
        invariant
            forall|u: int| 0 <= u < g@.len() ==> #[trigger] g@[u] < data@.len(),
            t <= g@.len(),
            out@ == head + members_text(data@, g@.take(t as int)),
        decreases g@.len() - t,
    {
        out.append(" *     - ");
        out.append(data[g[t]].path.as_str());
        out.append("\n");
        proof {
            assert(g@.take(t + 1).drop_last() =~= g@.take(t as int));
            assert(out@ =~= head + members_text(data@, g@.take(t + 1)));
        }
        t = t + 1;
    }
    assert(g@.take(t as int) =~= g@);
    assert(out@ =~= start + group_text(data@, g@));
}

/// Renders the mapping document of `data`: the warnings list the groups
/// `groups`, and the mapping holds the records at the indices `valid`.
pub fn render_document(data: &Vec<DtbData>, valid: &Vec<usize>, groups: &Vec<Vec<usize>>) -> (r: String)
    requires
        forall|i: int| 0 <= i < data@.len() ==> #[trigger] data@[i].wf(),
        forall|t: int| 0 <= t < valid@.len() ==> #[trigger] valid@[t] < data@.len(),
        forall|g: int|
            0 <= g < groups@.len() ==> (#[trigger] groups@[g])@.len() > 0 && forall|t: int|
                0 <= t < groups@[g]@.len() ==> #[trigger] groups@[g]@[t] < data@.len(),
    ensures
        r@ == document_text(data@, valid@, groups_view(groups@)),
{
    let ghost gv = groups_view(groups@);
    let mut out = String::new();
    out.append("/dts-v1/;\n\n/ {\n\tfdtshim,schema-version = \"0.1\";\n\tfdtshim,generator = \"fdtshim-mapping-generator\";\n\tcompatible = \"fdtshim,mapping\";\n};\n\n");
    let ghost after_header = out@;
    if groups.len() == 0 {
        out.append("/* No warnings during generation */\n");
    } else {
        out.append("/*\n * WARNING: These dtb files share the main compatible names.\n *          No action has been taken for them.\n");
        let ghost head = out@;
        let mut g: usize = 0;
        while g < groups.len()
            invariant
                forall|i: int| 0 <= i < data@.len() ==> #[trigger] data@[i].wf(),
                forall|h: int|
                    0 <= h < groups@.len() ==> (#[trigger] groups@[h])@.len() > 0 && forall|t: int|
                        0 <= t < groups@[h]@.len() ==> #[trigger] groups@[h]@[t] < data@.len(),
                gv == groups_view(groups@),
                g <= groups@.len(),
                out@ == head + groups_text(data@, gv.take(g as int)),
            decreases groups@.len() - g,
        {
            assert(groups@[g as int]@[0] < data@.len());
            push_group(&mut out, data, &groups[g]);
            proof {
                assert(gv.take(g + 1).drop_last() =~= gv.take(g as int));
                assert(gv.take(g + 1).last() == groups@[g as int]@);
                assert(out@ =~= head + groups_text(data@, gv.take(g + 1)));
            }
            g = g + 1;
        }
        assert(gv.take(g as int) =~= gv);
        out.append(" */\n");
    }
    assert(out@ =~= after_header + warnings_text(data@, gv));
    out.append("\n/ {\n\tmapping {\n");
    let ghost head = out@;
    let mut t: usize = 0;
    while t < valid.len()
        invariant
            forall|u: int| 0 <= u < valid@.len() ==> #[trigger] valid@[u] < data@.len(),
            t <= valid@.len(),
            out@ == head + records_text(data@, valid@.take(t as int)),
        decreases valid@.len() - t,
    {
        push_record(&mut out, &data[valid[t]]);
        proof {
            assert(valid@.take(t + 1).drop_last() =~= valid@.take(t as int));
            assert(out@ =~= head + records_text(data@, valid@.take(t + 1)));
        }
        t = t + 1;
    }
    assert(valid@.take(t as int) =~= valid@);
    out.append("\t};\n};\n");
    assert(out@ =~= document_text(data@, valid@, gv));
    out
}

} // verus!
