//! The memory forest as nested JSON nodes: each memory with the memories
//! that name it as parent below it.
use vstd::prelude::*;
use crate::memory::{Memory, MemoryView, MemoryJson, MemoryJsonView, MemoryTreeNode, json_of};
use crate::database::{MemoryStore, StoreView, linked};
use crate::text::str_eq;

verus! {

/// A tree node as a mathematical value.
pub struct TreeNodeView {
    pub memory: MemoryJsonView,
    pub children: Seq<TreeNodeView>,
}

/// The value of a tree node.
pub open spec fn node_view(n: MemoryTreeNode) -> TreeNodeView
    decreases n,
{
    proof {
        assert(decreases_to!(n => n.children));
        assert(decreases_to!(n.children => n.children@));
    }
    TreeNodeView { memory: n.memory@, children: nodes_view(n.children@) }
}

/// The values of a sequence of tree nodes.
pub open spec fn nodes_view(s: Seq<MemoryTreeNode>) -> Seq<TreeNodeView>
    decreases s,
{
    if s.len() == 0 {
        Seq::empty()
    } else {
        proof {
            assert(decreases_to!(s => s[s.len() - 1]));
            assert(decreases_to!(s => s.subrange(0, s.len() - 1)));
        }
        nodes_view(s.subrange(0, s.len() - 1)).push(node_view(s[s.len() - 1]))
    }
}

/// The positions, in order, of the memories whose parent is `parent`.
pub open spec fn child_positions(ms: Seq<MemoryView>, parent: Option<Seq<char>>) -> Seq<int>
    decreases ms.len(),
{
    if ms.len() == 0 {
        Seq::empty()
    } else {
        child_positions(ms.drop_last(), parent) + if ms.last().parent_memory_id == parent {
            seq![ms.len() - 1]
        } else {
            Seq::empty()
        }
    }
}

/// The number of history entries linked to memory `id`.
pub open spec fn command_count(s: StoreView, id: Seq<char>) -> usize {
    linked(s.links, id).len() as usize
}

/// The node of memory `i`, with its descendants down to `fuel` levels.
pub open spec fn tree_node(s: StoreView, ms: Seq<MemoryView>, i: int, fuel: nat) -> TreeNodeView
    decreases fuel, 0nat,
{
    TreeNodeView {
        memory: json_of(ms[i], command_count(s, ms[i].id)),
        children: if fuel == 0 {
            Seq::empty()
        } else {
            tree_nodes(s, ms, child_positions(ms, Some(ms[i].id)), (fuel - 1) as nat)
        },
    }
}

/// The nodes of the memories at positions `idx`, in that order.
pub open spec fn tree_nodes(s: StoreView, ms: Seq<MemoryView>, idx: Seq<int>, fuel: nat) -> Seq<TreeNodeView>
    decreases fuel, idx.len(),
{
    if idx.len() == 0 {
        Seq::empty()
    } else {
        tree_nodes(s, ms, idx.drop_last(), fuel).push(tree_node(s, ms, idx.last(), fuel))
    }
}

/// One of the given memories carries identifier `id`.
pub open spec fn names_one_of(ms: Seq<MemoryView>, id: Seq<char>) -> bool {
    exists|j: int| 0 <= j < ms.len() && (#[trigger] ms[j]).id == id
}

/// Memory `i` is at the top of the forest: it has no parent, or its parent
/// is not among the given memories.
pub open spec fn is_top(ms: Seq<MemoryView>, i: int) -> bool {
    match ms[i].parent_memory_id {
        None => true,
        Some(p) => !names_one_of(ms, p),
    }
}

/// The positions, in order, of the top memories among the first `k`.
pub open spec fn top_positions_upto(ms: Seq<MemoryView>, k: int) -> Seq<int>
    decreases k,
{
    if k <= 0 || k > ms.len() {
        Seq::empty()
    } else {
        top_positions_upto(ms, k - 1) + if is_top(ms, k - 1) {
            seq![k - 1]
        } else {
            Seq::empty()
        }
    }
}

/// The positions, in order, of the top memories.
pub open spec fn top_positions(ms: Seq<MemoryView>) -> Seq<int> {
    top_positions_upto(ms, ms.len() as int)
}

/// The forest of the given memories: the nodes of the top ones (those whose
/// parent is not among them), in the order given, each with its children in
/// the order given.
pub open spec fn forest(s: StoreView, ms: Seq<MemoryView>) -> Seq<TreeNodeView> {
    tree_nodes(s, ms, top_positions(ms), ms.len())
}

/// No two of the memories share an identifier.
pub open spec fn distinct_memory_ids(ms: Seq<MemoryView>) -> bool {
    forall|i: int, j: int| 0 <= i < ms.len() && 0 <= j < ms.len() && i != j ==> (#[trigger] ms[i]).id != (#[trigger] ms[j]).id
}

proof fn lemma_nodes_view_push(s: Seq<MemoryTreeNode>, x: MemoryTreeNode)
    ensures
        nodes_view(s.push(x)) == nodes_view(s).push(node_view(x)),
{
    assert(s.push(x).subrange(0, s.len() as int) =~= s);
    assert(s.push(x)[s.len() as int] == x);
}

/// The value of a sequence of nodes has one value per node, in order.
pub proof fn lemma_nodes_view_index(s: Seq<MemoryTreeNode>, k: int)
    requires
        0 <= k < s.len(),
    ensures
        nodes_view(s).len() == s.len(),
        nodes_view(s)[k] == node_view(s[k]),
    decreases s.len(),
{
    lemma_nodes_view_len(s);
    if k < s.len() - 1 {
        lemma_nodes_view_index(s.subrange(0, s.len() - 1), k);
    }
}

/// The value of a sequence of nodes has one value per node.
pub proof fn lemma_nodes_view_len(s: Seq<MemoryTreeNode>)
    ensures
        nodes_view(s).len() == s.len(),
    decreases s.len(),
{
    if s.len() > 0 {
        lemma_nodes_view_len(s.subrange(0, s.len() - 1));
    }
}

/// `c` is a path down the forest: positions of memories, each after the
/// first a child of the one before it.
pub open spec fn is_chain(ms: Seq<MemoryView>, c: Seq<int>) -> bool {
    &&& c.len() >= 1
    &&& forall|t: int| 0 <= t < c.len() ==> 0 <= #[trigger] c[t] < ms.len()
    &&& forall|t: int| 1 <= t < c.len() ==> ms[#[trigger] c[t]].parent_memory_id == Some(ms[c[t - 1]].id)
}

/// Every path down from memory `i` visits at most `f` memories.
pub open spec fn chain_bound(ms: Seq<MemoryView>, i: int, f: nat) -> bool {
    forall|c: Seq<int>| is_chain(ms, c) && c[0] == i ==> c.len() <= f
}

proof fn lemma_child_positions(ms: Seq<MemoryView>, parent: Option<Seq<char>>)
    ensures
        forall|k: int| 0 <= k < child_positions(ms, parent).len() ==> {
            let j = #[trigger] child_positions(ms, parent)[k];
            0 <= j < ms.len() && ms[j].parent_memory_id == parent
        },
    decreases ms.len(),
{
    if ms.len() > 0 {
        let d = ms.drop_last();
        lemma_child_positions(d, parent);
        let c = child_positions(ms, parent);
        let cd = child_positions(d, parent);
        assert forall|k: int| 0 <= k < c.len() implies {
            let j = #[trigger] c[k];
            0 <= j < ms.len() && ms[j].parent_memory_id == parent
        } by {
            if k < cd.len() {
                assert(c[k] == cd[k]);
                assert(ms[cd[k]] == d[cd[k]]);
            }
        }
    }
}

proof fn lemma_top_positions(ms: Seq<MemoryView>, k: int)
    requires
        0 <= k <= ms.len(),
    ensures
        forall|q: int| 0 <= q < top_positions_upto(ms, k).len() ==> {
            let j = #[trigger] top_positions_upto(ms, k)[q];
            0 <= j < k && is_top(ms, j)
        },
    decreases k,
{
    if k > 0 {
        lemma_top_positions(ms, k - 1);
        let c = top_positions_upto(ms, k);
        let cd = top_positions_upto(ms, k - 1);
        assert forall|q: int| 0 <= q < c.len() implies {
            let j = #[trigger] c[q];
            0 <= j < k && is_top(ms, j)
        } by {
            if q < cd.len() {
                assert(c[q] == cd[q]);
            }
        }
    }
}

proof fn lemma_node_stable(s: StoreView, ms: Seq<MemoryView>, i: int, f: nat, g: nat)
    requires
        0 <= i < ms.len(),
        chain_bound(ms, i, f),
        1 <= f <= g,
    ensures
        tree_node(s, ms, i, f) == tree_node(s, ms, i, g),
    decreases f, 0nat,
{
    let kids = child_positions(ms, Some(ms[i].id));
    lemma_child_positions(ms, Some(ms[i].id));
    assert forall|k: int| 0 <= k < kids.len() implies chain_bound(ms, #[trigger] kids[k], (f - 1) as nat) by {
        let j = kids[k];
        assert forall|c: Seq<int>| is_chain(ms, c) && c[0] == j implies c.len() <= f - 1 by {
            let c2 = seq![i] + c;
            assert(c2[0] == i);
            assert forall|t: int| 1 <= t < c2.len() implies ms[#[trigger] c2[t]].parent_memory_id == Some(ms[c2[t - 1]].id) by {
                assert(c2[t] == c[t - 1]);
                if t > 1 {
                    assert(c2[t - 1] == c[t - 2]);
                    assert(ms[c[t - 1]].parent_memory_id == Some(ms[c[t - 1 - 1]].id));
                }
            }
            assert(is_chain(ms, c2));
        }
    }
    if f == 1 {
        if kids.len() > 0 {
            let c2 = seq![i, kids[0]];
            assert(is_chain(ms, c2));
        }
    } else {
        lemma_nodes_stable(s, ms, kids, (f - 1) as nat, (g - 1) as nat);
    }
}

proof fn lemma_nodes_stable(s: StoreView, ms: Seq<MemoryView>, idx: Seq<int>, f: nat, g: nat)
    requires
        forall|k: int| 0 <= k < idx.len() ==> 0 <= #[trigger] idx[k] < ms.len() && chain_bound(ms, idx[k], f),
        1 <= f <= g,
    ensures
        tree_nodes(s, ms, idx, f) == tree_nodes(s, ms, idx, g),
    decreases f, idx.len(),
{
    if idx.len() > 0 {
        let d = idx.drop_last();
        assert forall|k: int| 0 <= k < d.len() implies 0 <= #[trigger] d[k] < ms.len() && chain_bound(ms, d[k], f) by {
            assert(d[k] == idx[k]);
        }
        lemma_nodes_stable(s, ms, d, f, g);
        assert(idx.last() == idx[idx.len() - 1]);
        lemma_node_stable(s, ms, idx.last(), f, g);
    }
}

/// A path down from a top memory never repeats a position,
/// when no two memories share an identifier.
proof fn lemma_chain_no_repeat(ms: Seq<MemoryView>, c: Seq<int>, a: int, b: int)
    requires
        distinct_memory_ids(ms),
        is_chain(ms, c),
        is_top(ms, c[0]),
        0 <= a < b < c.len(),
    ensures
        c[a] != c[b],
    decreases a,
{
    if c[a] == c[b] {
        assert(ms[c[b]].parent_memory_id == Some(ms[c[b - 1]].id));
        if a > 0 {
            assert(ms[c[a]].parent_memory_id == Some(ms[c[a - 1]].id));
            assert(ms[c[a - 1]].id == ms[c[b - 1]].id);
            assert(c[a - 1] == c[b - 1]);
            lemma_chain_no_repeat(ms, c, a - 1, b - 1);
        } else {
            assert(ms[c[b - 1]].id == ms[c[b - 1]].id);
            assert(names_one_of(ms, ms[c[b - 1]].id));
        }
    }
}

proof fn lemma_root_chain_bound(ms: Seq<MemoryView>, r: int)
    requires
        distinct_memory_ids(ms),
        0 <= r < ms.len(),
        is_top(ms, r),
    ensures
        chain_bound(ms, r, ms.len() as nat),
{
    assert forall|c: Seq<int>| is_chain(ms, c) && c[0] == r implies c.len() <= ms.len() by {
        assert(c.no_duplicates()) by {
            assert forall|a: int, b: int| 0 <= a < c.len() && 0 <= b < c.len() && a != b implies c[a] != c[b] by {
                if a < b {
                    lemma_chain_no_repeat(ms, c, a, b);
                } else {
                    lemma_chain_no_repeat(ms, c, b, a);
                }
            }
        }
        c.unique_seq_to_set();
        vstd::set_lib::lemma_int_range(0, ms.len() as int);
        assert(c.to_set().subset_of(vstd::set_lib::set_int_range(0, ms.len() as int)));
        vstd::set_lib::lemma_len_subset(c.to_set(), vstd::set_lib::set_int_range(0, ms.len() as int));
    }
}

/// When no two memories share an identifier, the forest is complete: going
/// deeper than the number of memories adds nothing, so every memory below
/// a top is listed under its parent, with all of its own children.
pub proof fn law_forest_complete(s: StoreView, ms: Seq<MemoryView>, g: nat)
    requires
        distinct_memory_ids(ms),
        g >= ms.len(),
    ensures
        tree_nodes(s, ms, top_positions(ms), g) == forest(s, ms),
{
    let roots = top_positions(ms);
    lemma_top_positions(ms, ms.len() as int);
    if roots.len() > 0 {
        assert forall|k: int| 0 <= k < roots.len() implies 0 <= #[trigger] roots[k] < ms.len() && chain_bound(ms, roots[k], ms.len() as nat) by {
            lemma_root_chain_bound(ms, roots[k]);
        }
        assert(ms.len() >= 1);
        lemma_nodes_stable(s, ms, roots, ms.len() as nat, g);
    }
}

/// The positions of the memories whose parent is `parent`.
fn child_positions_exec(ms: &Vec<Memory>, parent: Option<&str>) -> (res: Vec<usize>)
    ensures
        res@.map_values(|j: usize| j as int) == child_positions(ms@.map_values(|m: Memory| m@), match parent {
            Some(p) => Some(p@),
            None => None::<Seq<char>>,
        }),
        forall|k: int| 0 <= k < res.len() ==> #[trigger] res[k] < ms.len(),
{
    let ghost mv = ms@.map_values(|m: Memory| m@);
    let ghost pv = match parent {
        Some(p) => Some(p@),
        None => None::<Seq<char>>,
    };
    let mut res: Vec<usize> = Vec::new();
    let mut i: usize = 0;
    while i < ms.len()
        invariant
            mv == ms@.map_values(|m: Memory| m@),
            pv == match parent {
                Some(p) => Some(p@),
                None => None::<Seq<char>>,
            },
            i <= ms.len(),
            res@.map_values(|j: usize| j as int) == child_positions(mv.take(i as int), pv),
            forall|k: int| 0 <= k < res.len() ==> #[trigger] res[k] < i,
        decreases ms.len() - i,
    {
        assert(mv.take(i + 1).drop_last() =~= mv.take(i as int));
        assert(mv[i as int] == ms@[i as int]@);
        let hit = match (&ms[i].parent_memory_id, parent) {
            (Some(a), Some(b)) => str_eq(a.as_str(), b),
            (None, None) => true,
            _ => false,
        };
        let ghost prev = res@.map_values(|j: usize| j as int);
        if hit {
            res.push(i);
            assert(res@.map_values(|j: usize| j as int) =~= prev + seq![i as int]);
        } else {
            assert(res@.map_values(|j: usize| j as int) =~= prev + Seq::<int>::empty());
        }
        i = i + 1;
    }
    assert(mv.take(ms.len() as int) =~= mv);
    res
}

/// The node of memory `ms[i]` with its descendants down to `fuel` levels.
fn build_node(store: &MemoryStore, ms: &Vec<Memory>, i: usize, fuel: usize) -> (res: MemoryTreeNode)
    requires
        i < ms.len(),
    ensures
        node_view(res) == tree_node(store@, ms@.map_values(|m: Memory| m@), i as int, fuel as nat),
    decreases fuel,
{
    let ghost mv = ms@.map_values(|m: Memory| m@);
    assert(mv[i as int] == ms@[i as int]@);
    let count = store.get_linked_command_count(ms[i].id.as_str());
    let mut json = MemoryJson::from(&ms[i]);
    json.commands_count = count;
    let mut children: Vec<MemoryTreeNode> = Vec::new();
    if fuel > 0 {
        let kids = child_positions_exec(ms, Some(ms[i].id.as_str()));
        let ghost kv = kids@.map_values(|j: usize| j as int);
        let mut k: usize = 0;
        while k < kids.len()
            invariant
                mv == ms@.map_values(|m: Memory| m@),
                kv == kids@.map_values(|j: usize| j as int),
                forall|q: int| 0 <= q < kids.len() ==> #[trigger] kids[q] < ms.len(),
                k <= kids.len(),
                fuel > 0,
                nodes_view(children@) == tree_nodes(store@, mv, kv.take(k as int), (fuel - 1) as nat),
            decreases kids.len() - k,
        {
            let child = build_node(store, ms, kids[k], fuel - 1);
            proof {
                lemma_nodes_view_push(children@, child);
                assert(kv.take(k + 1).drop_last() =~= kv.take(k as int));
                assert(kv.take(k + 1).last() == kids[k as int] as int);
            }
            children.push(child);
            k = k + 1;
        }
        assert(kv.take(kids.len() as int) =~= kv);
    } else {
        assert(nodes_view(children@) =~= Seq::<TreeNodeView>::empty());
    }
    let res = MemoryTreeNode { memory: json, children };
    assert(node_view(res) == TreeNodeView { memory: res.memory@, children: nodes_view(res.children@) });
    res
}

/// Whether one of the memories carries identifier `id`.
fn names_one_of_exec(ms: &Vec<Memory>, id: &str) -> (res: bool)
    ensures
        res == names_one_of(ms@.map_values(|m: Memory| m@), id@),
{
    let ghost mv = ms@.map_values(|m: Memory| m@);
    let mut j: usize = 0;
    while j < ms.len()
        invariant
            mv == ms@.map_values(|m: Memory| m@),
            j <= ms.len(),
            forall|q: int| 0 <= q < j ==> (#[trigger] mv[q]).id != id@,
        decreases ms.len() - j,
    {
        assert(mv[j as int] == ms@[j as int]@);
        if str_eq(ms[j].id.as_str(), id) {
            return true;
        }
        j = j + 1;
    }
    false
}

/// The positions of the top memories, in order.
fn top_positions_exec(ms: &Vec<Memory>) -> (res: Vec<usize>)
    ensures
        res@.map_values(|j: usize| j as int) == top_positions(ms@.map_values(|m: Memory| m@)),
        forall|k: int| 0 <= k < res.len() ==> #[trigger] res[k] < ms.len(),
{
    let ghost mv = ms@.map_values(|m: Memory| m@);
    let mut res: Vec<usize> = Vec::new();
    let mut i: usize = 0;
    while i < ms.len()
        invariant
            mv == ms@.map_values(|m: Memory| m@),
            i <= ms.len(),
            res@.map_values(|j: usize| j as int) == top_positions_upto(mv, i as int),
            forall|k: int| 0 <= k < res.len() ==> #[trigger] res[k] < i,
        decreases ms.len() - i,
    {
        assert(mv[i as int] == ms@[i as int]@);
        let top = match &ms[i].parent_memory_id {
            None => true,
            Some(p) => !names_one_of_exec(ms, p.as_str()),
        };
        let ghost prev = res@.map_values(|j: usize| j as int);
        if top {
            res.push(i);
            assert(res@.map_values(|j: usize| j as int) =~= prev + seq![i as int]);
        } else {
            assert(res@.map_values(|j: usize| j as int) =~= prev + Seq::<int>::empty());
        }
        i = i + 1;
    }
    res
}

/// The forest of the given memories.
pub fn build_forest(store: &MemoryStore, ms: &Vec<Memory>) -> (res: Vec<MemoryTreeNode>)
    ensures
        nodes_view(res@) == forest(store@, ms@.map_values(|m: Memory| m@)),
{
    let ghost mv = ms@.map_values(|m: Memory| m@);
    let roots = top_positions_exec(ms);
    let ghost rv = roots@.map_values(|j: usize| j as int);
    let mut res: Vec<MemoryTreeNode> = Vec::new();
    let mut k: usize = 0;
    while k < roots.len()
        invariant
            mv == ms@.map_values(|m: Memory| m@),
            rv == roots@.map_values(|j: usize| j as int),
            rv == top_positions(mv),
            forall|q: int| 0 <= q < roots.len() ==> #[trigger] roots[q] < ms.len(),
            k <= roots.len(),
            nodes_view(res@) == tree_nodes(store@, mv, rv.take(k as int), ms.len() as nat),
        decreases roots.len() - k,
    {
        let node = build_node(store, ms, roots[k], ms.len());
        proof {
            lemma_nodes_view_push(res@, node);
            assert(rv.take(k + 1).drop_last() =~= rv.take(k as int));
            assert(rv.take(k + 1).last() == roots[k as int] as int);
        }
        res.push(node);
        k = k + 1;
    }
    assert(rv.take(roots.len() as int) =~= rv);
    res
}

} // verus!
