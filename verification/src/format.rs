//! Plan formatting support: an indented display tree, and the pretty
//! form of an aggregate description.

use vstd::prelude::*;
use vstd::string::StringExecFns;

verus! {

/// One node of a display tree: a line of text and its children.
pub struct FormatTreeNode {
    pub payload: String,
    pub children: Vec<FormatTreeNode>,
}

impl FormatTreeNode {
    /// A leaf line.
    pub fn new(payload: String) -> (r: FormatTreeNode)
        ensures
            r.payload@ == payload@,
            r.children@.len() == 0,
    {
        FormatTreeNode { payload, children: Vec::new() }
    }

    /// A line with sub-lines beneath it.
    pub fn with_children(payload: String, children: Vec<FormatTreeNode>) -> (r: FormatTreeNode)
        ensures
            r.payload@ == payload@,
            r.children == children,
    {
        FormatTreeNode { payload, children }
    }
}

/// The number of lines in a display tree.
pub open spec fn node_size(n: FormatTreeNode) -> nat
    decreases n,
{
    1 + nodes_size(n.children@)
}

/// The number of lines in a list of display trees.
pub open spec fn nodes_size(s: Seq<FormatTreeNode>) -> nat
    decreases s,
{
    if s.len() == 0 {
        0
    } else {
        node_size(s[0]) + nodes_size(s.drop_first())
    }
}

/// Every tree in a list is smaller than one plus the list.
proof fn lemma_nodes_size_element(s: Seq<FormatTreeNode>, k: int)
    requires
        0 <= k < s.len(),
    ensures
        node_size(s[k]) <= nodes_size(s),
    decreases k,
{
    if k == 0 {
    } else {
        lemma_nodes_size_element(s.drop_first(), k - 1);
        assert(s.drop_first()[k - 1] == s[k]);
    }
}

/// The two-space indentation of one depth.
pub open spec fn indent_of(depth: nat) -> Seq<char>
    decreases depth,
{
    if depth == 0 {
        Seq::empty()
    } else {
        indent_of((depth - 1) as nat) + "  "@
    }
}

/// The rendered text of a tree at a depth: the indented payload, a
/// line break, and the children one level deeper.
pub open spec fn render(n: FormatTreeNode, depth: nat) -> Seq<char>
    decreases n,
{
    indent_of(depth) + n.payload@ + "\n"@ + render_list(n.children@, depth + 1)
}

/// The rendered text of a list of trees.
pub open spec fn render_list(s: Seq<FormatTreeNode>, depth: nat) -> Seq<char>
    decreases s,
{
    if s.len() == 0 {
        Seq::empty()
    } else {
        render(s[0], depth) + render_list(s.drop_first(), depth)
    }
}

impl FormatTreeNode {
    /// Render the tree as indented lines.
    pub fn format_pretty(&self) -> (r: String)
        requires
            node_size(*self) <= usize::MAX,
        ensures
            r@ == render(*self, 0),
    {
        let mut out = String::new();
        append_render(self, 0, &mut out);
        proof {
            assert(Seq::<char>::empty() + render(*self, 0) =~= render(*self, 0));
        }
        out
    }
}

/// Append one tree's rendering to the text so far.
#[verifier::loop_isolation(false)]
fn append_render(n: &FormatTreeNode, depth: usize, out: &mut String)
    requires
        depth + node_size(*n) <= usize::MAX,
    ensures
        final(out)@ == old(out)@ + render(*n, depth as nat),
    decreases node_size(*n),
{
    let mut d: usize = 0;
    while d < depth
        invariant
            0 <= d <= depth,
            out@ == old(out)@ + indent_of(d as nat),
        decreases depth - d,
    {
        out.append("  ");
        d += 1;
    }
    out.append(n.payload.as_str());
    out.append("\n");
    let ghost mid = out@;
    proof {
        assert(mid =~= old(out)@ + indent_of(depth as nat) + n.payload@ + "\n"@);
    }
    let mut j: usize = 0;
    while j < n.children.len()
        invariant
            0 <= j <= n.children@.len(),
            out@ == mid + render_list(n.children@.take(j as int), depth as nat + 1),
        decreases n.children@.len() - j,
    {
        proof {
            assert(node_size(*n) == 1 + nodes_size(n.children@));
            lemma_nodes_size_element(n.children@, j as int);
        }
        append_render(&n.children[j], depth + 1, out);
        proof {
            lemma_render_list_take_step(n.children@, j as int, depth as nat + 1);
            assert(out@ =~= mid + render_list(n.children@.take(j as int + 1), depth as nat + 1));
        }
        j += 1;
    }
    proof {
        assert(n.children@.take(n.children@.len() as int) =~= n.children@);
        assert(out@ =~= old(out)@ + render(*n, depth as nat));
    }
}

/// Rendering one more tree appends its text.
proof fn lemma_render_list_take_step(s: Seq<FormatTreeNode>, j: int, depth: nat)
    requires
        0 <= j < s.len(),
    ensures
        render_list(s.take(j + 1), depth) == render_list(s.take(j), depth) + render(s[j], depth),
{
    lemma_render_list_snoc(s.take(j + 1), depth);
    assert(s.take(j + 1).drop_last() =~= s.take(j));
    assert(s.take(j + 1).last() == s[j]);
}

/// Rendering a list visits the last tree after the rest.
proof fn lemma_render_list_snoc(s: Seq<FormatTreeNode>, depth: nat)
    requires
        s.len() > 0,
    ensures
        render_list(s, depth) == render_list(s.drop_last(), depth) + render(s.last(), depth),
    decreases s,
{
    if s.len() == 1 {
        assert(s.drop_first() =~= Seq::<FormatTreeNode>::empty());
        assert(s.drop_last() =~= Seq::<FormatTreeNode>::empty());
        assert(render_list(Seq::<FormatTreeNode>::empty(), depth) =~= Seq::<char>::empty());
        assert(render_list(s, depth) =~= render(s[0], depth));
        assert(render_list(s, depth) =~= render_list(s.drop_last(), depth) + render(
            s.last(),
            depth,
        ));
    } else {
        lemma_render_list_snoc(s.drop_first(), depth);
        assert(s.drop_first().drop_last() =~= s.drop_last().drop_first());
        assert(s.drop_first().last() == s.last());
        assert(s.drop_last()[0] == s[0]);
        assert(s.drop_last().len() > 0);
        assert(render_list(s.drop_last(), depth) == render(s[0], depth) + render_list(
            s.drop_last().drop_first(),
            depth,
        ));
        assert(render_list(s, depth) =~= render_list(s.drop_last(), depth) + render(
            s.last(),
            depth,
        ));
    }
}

/// One column the planner knows: a base table column, or a derived
/// column under an alias.
pub enum ColumnEntry {
    BaseTableColumn { column_name: String },
    DerivedColumn { alias: String },
}

/// The planner's column registry.
pub struct Metadata {
    pub columns: Vec<ColumnEntry>,
}

/// The name a column displays under.
pub open spec fn entry_display_name(e: ColumnEntry) -> Seq<char> {
    match e {
        ColumnEntry::BaseTableColumn { column_name } => column_name@,
        ColumnEntry::DerivedColumn { alias } => alias@,
    }
}

/// An aggregate function's signature, as far as display needs it.
pub struct AggregateFunctionSignature {
    pub name: String,
}

/// An aggregate function applied to columns of the registry.
pub struct AggregateFunctionDesc {
    pub sig: AggregateFunctionSignature,
    pub arg_indices: Vec<usize>,
}

/// The display names of the arguments, joined by commas.
pub open spec fn joined_arg_names(cols: Seq<ColumnEntry>, idxs: Seq<usize>) -> Seq<char>
    decreases idxs.len(),
{
    if idxs.len() == 0 {
        Seq::empty()
    } else if idxs.len() == 1 {
        entry_display_name(cols[idxs[0] as int])
    } else {
        joined_arg_names(cols, idxs.drop_last()) + ", "@ + entry_display_name(
            cols[idxs.last() as int],
        )
    }
}

/// The pretty form of an aggregate description: the function's name
/// applied to its arguments' display names.
pub fn pretty_display_agg_desc(desc: &AggregateFunctionDesc, metadata: &Metadata) -> (r: String)
    requires
        forall|k: int|
            0 <= k < desc.arg_indices@.len() ==> (#[trigger] desc.arg_indices@[k] as int)
                < metadata.columns@.len(),
    ensures
        r@ == desc.sig.name@ + "("@ + joined_arg_names(metadata.columns@, desc.arg_indices@)
            + ")"@,
{
    let mut out = clone_string_local(&desc.sig.name);
    out.append("(");
    let ghost head = out@;
    let mut k: usize = 0;
    while k < desc.arg_indices.len()
        invariant
            0 <= k <= desc.arg_indices@.len(),
            forall|t: int|
                0 <= t < desc.arg_indices@.len() ==> (#[trigger] desc.arg_indices@[t] as int)
                    < metadata.columns@.len(),
            head == desc.sig.name@ + "("@,
            out@ == head + joined_arg_names(metadata.columns@, desc.arg_indices@.take(k as int)),
        decreases desc.arg_indices@.len() - k,
    {
        if k > 0 {
            out.append(", ");
        }
        let idx = desc.arg_indices[k];
        match &metadata.columns[idx] {
            ColumnEntry::BaseTableColumn { column_name } => {
                out.append(column_name.as_str());
            },
            ColumnEntry::DerivedColumn { alias } => {
                out.append(alias.as_str());
            },
        }
        proof {
            let idxs1 = desc.arg_indices@.take(k as int + 1);
            assert(idxs1.drop_last() =~= desc.arg_indices@.take(k as int));
            assert(idxs1.last() == desc.arg_indices@[k as int]);
            if k == 0 {
                assert(idxs1.len() == 1);
                assert(out@ =~= head + joined_arg_names(metadata.columns@, idxs1));
            } else {
                assert(out@ =~= head + joined_arg_names(metadata.columns@, idxs1));
            }
        }
        k += 1;
    }
    proof {
        assert(desc.arg_indices@.take(desc.arg_indices@.len() as int) =~= desc.arg_indices@);
    }
    out.append(")");
    proof {
        assert(out@ =~= desc.sig.name@ + "("@ + joined_arg_names(
            metadata.columns@,
            desc.arg_indices@,
        ) + ")"@);
    }
    out
}

/// Copy a string together with its view.
fn clone_string_local(s: &String) -> (r: String)
    ensures
        r@ == s@,
{
    String::from_str(s.as_str())
}

} // verus!