//! The memory forest drawn as text: one line per memory with its id and
//! number of linked commands, one line with its description, and branch
//! lines (`├──`, `└──`, `│`) that show who is under whom.
use vstd::prelude::*;
use crate::memory::{Memory, MemoryTreeNode};
use crate::database::MemoryStore;
use crate::tree::{TreeNodeView, node_view, nodes_view, build_forest};
use crate::text::{decimal_text, trim_end, usize_text, trim_end_text};

verus! {

/// The branch drawn before a node: a corner for the last of its siblings.
pub open spec fn connector(is_last: bool) -> Seq<char> {
    if is_last {
        "└── "@
    } else {
        "├── "@
    }
}

/// What the lines of a node's descendants start with: the node's own prefix
/// followed by a bar, or by blanks below the last of its siblings.
pub open spec fn child_prefix(prefix: Seq<char>, is_last: bool) -> Seq<char> {
    prefix + if is_last {
        "    "@
    } else {
        "│   "@
    }
}

/// The two lines of a node itself.
pub open spec fn head_lines(n: TreeNodeView, prefix: Seq<char>, is_last: bool) -> Seq<Seq<char>> {
    seq![
        prefix + connector(is_last) + n.memory.id + " ("@ + decimal_text(n.memory.commands_count as nat)
            + " commands)"@,
        trim_end(child_prefix(prefix, is_last)) + "    "@ + n.memory.description,
    ]
}

/// The lines of a node and, below it, of its descendants.
pub open spec fn node_lines(n: TreeNodeView, prefix: Seq<char>, is_last: bool) -> Seq<Seq<char>>
    decreases n, 0nat,
{
    proof {
        assert(decreases_to!(n => n.children));
    }
    head_lines(n, prefix, is_last) + sibling_lines(
        n.children,
        child_prefix(prefix, is_last),
        n.children.len(),
    )
}

/// The lines of the first `k` of the sibling nodes `s`; the last of all `s`
/// is drawn with a corner.
pub open spec fn sibling_lines(s: Seq<TreeNodeView>, prefix: Seq<char>, k: nat) -> Seq<Seq<char>>
    decreases s, k,
{
    if k == 0 || k > s.len() {
        Seq::empty()
    } else {
        proof {
            assert(decreases_to!(s => s[k - 1]));
        }
        sibling_lines(s, prefix, (k - 1) as nat) + node_lines(s[k - 1], prefix, k == s.len())
    }
}

/// The lines of a whole forest.
pub open spec fn forest_lines(s: Seq<TreeNodeView>) -> Seq<Seq<char>> {
    sibling_lines(s, Seq::empty(), s.len())
}

pub open spec fn lines_view(v: Seq<String>) -> Seq<Seq<char>> {
    v.map_values(|l: String| l@)
}

pub proof fn lemma_lines_push(v: Seq<String>, l: String)
    ensures
        lines_view(v.push(l)) == lines_view(v).push(l@),
{
    assert(lines_view(v.push(l)) =~= lines_view(v).push(l@));
}

fn push_node_lines(out: &mut Vec<String>, n: &MemoryTreeNode, prefix: &str, is_last: bool)
    ensures
        lines_view(final(out)@) == lines_view(old(out)@) + node_lines(node_view(*n), prefix@, is_last),
    decreases *n,
{
    let ghost nv = node_view(*n);
    let ghost start = lines_view(out@);
    let conn = if is_last {
        "└── "
    } else {
        "├── "
    };
    let mut first = String::from_str(prefix);
    first.append(conn);
    first.append(n.memory.id.as_str());
    first.append(" (");
    let count = usize_text(n.memory.commands_count);
    first.append(count.as_str());
    first.append(" commands)");
    let mut cp = String::from_str(prefix);
    if is_last {
        cp.append("    ");
    } else {
        cp.append("│   ");
    }
    let mut second = trim_end_text(cp.as_str());
    second.append("    ");
    second.append(n.memory.description.as_str());
    proof {
        lemma_lines_push(out@, first);
    }
    out.push(first);
    proof {
        lemma_lines_push(out@, second);
    }
    out.push(second);
    assert(lines_view(out@) =~= start + head_lines(nv, prefix@, is_last));
    let ghost kids = nv.children;
    assert(kids == nodes_view(n.children@));
    proof {
        crate::tree::lemma_nodes_view_len(n.children@);
    }
    let mut k: usize = 0;
    while k < n.children.len()
        invariant
            nv == node_view(*n),
            kids == nv.children,
            kids == nodes_view(n.children@),
            kids.len() == n.children@.len(),
            cp@ == child_prefix(prefix@, is_last),
            k <= n.children.len(),
            lines_view(out@) == start + head_lines(nv, prefix@, is_last) + sibling_lines(kids, cp@, k as nat),
        decreases n.children.len() - k,
    {
        let last = k + 1 == n.children.len();
        proof {
            crate::tree::lemma_nodes_view_index(n.children@, k as int);
            assert(decreases_to!(*n => n.children));
            assert(decreases_to!(n.children => n.children@));
            assert(decreases_to!(n.children@ => n.children@[k as int]));
        }
        push_node_lines(out, &n.children[k], cp.as_str(), last);
        k = k + 1;
        assert(sibling_lines(kids, cp@, k as nat) == sibling_lines(kids, cp@, (k - 1) as nat) + node_lines(
            kids[k - 1],
            cp@,
            k == kids.len(),
        ));
        assert(lines_view(out@) =~= start + head_lines(nv, prefix@, is_last) + sibling_lines(kids, cp@, k as nat));
    }
    assert(node_lines(nv, prefix@, is_last) == head_lines(nv, prefix@, is_last) + sibling_lines(
        kids,
        child_prefix(prefix@, is_last),
        kids.len(),
    ));
    assert(lines_view(out@) =~= start + node_lines(nv, prefix@, is_last));
}

/// The text lines of a forest of memory nodes.
pub fn tree_lines(forest: &Vec<MemoryTreeNode>) -> (res: Vec<String>)
    ensures
        lines_view(res@) == forest_lines(nodes_view(forest@)),
{
    let ghost s = nodes_view(forest@);
    let mut out: Vec<String> = Vec::new();
    assert(lines_view(out@) =~= Seq::<Seq<char>>::empty());
    proof {
        crate::tree::lemma_nodes_view_len(forest@);
    }
    let mut k: usize = 0;
    while k < forest.len()
        invariant
            s == nodes_view(forest@),
            s.len() == forest@.len(),
            k <= forest.len(),
            lines_view(out@) == sibling_lines(s, Seq::empty(), k as nat),
        decreases forest.len() - k,
    {
        let last = k + 1 == forest.len();
        proof {
            crate::tree::lemma_nodes_view_index(forest@, k as int);
        }
        push_node_lines(&mut out, &forest[k], "", last);
        proof {
            reveal_strlit("");
            assert(""@ =~= Seq::<char>::empty());
        }
        k = k + 1;
        assert(lines_view(out@) =~= sibling_lines(s, Seq::empty(), k as nat));
    }
    out
}

impl crate::memory_cmd::Cmd {
    /// The forest of the given memories drawn as text lines, each memory
    /// under its parent, with the number of history entries linked to it.
    pub fn print_tree(&self, store: &MemoryStore, memories: &Vec<Memory>) -> (res: Vec<String>)
        ensures
            lines_view(res@) == forest_lines(
                crate::tree::forest(store@, memories@.map_values(|m: Memory| m@)),
            ),
    {
        let nodes = build_forest(store, memories);
        tree_lines(&nodes)
    }
}

} // verus!
