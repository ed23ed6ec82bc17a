//! Properties of the memory store that relate its operations.
use vstd::prelude::*;
use crate::memory::MemoryView;
use crate::tree::{top_positions, top_positions_upto, is_top, names_one_of};
use crate::order::{RowKey, ordered_selection, is_ordered_selection, precedes, lemma_selection_exists, lemma_selection_prefix};
use crate::database::{
    list_match, list_result, children_result, roots_result, newest_first, flat_keys, rows, ancestors_result,
    tree_result, indexed_keys, index_of, search_result, passes, lemma_lookup_index, command_search_result,
    has_matching_link, contains_pattern, lemma_distinct_index, lemma_ancestor_earlier, lemma_ids_index,
    lemma_tree_depth_bound, descends_below, distinct_ids,
};
use crate::database::{StoreView, store_wf, create_check, lookup, inserted, ids, orphaned, memories_without, links_without, linked, deleted, lemma_deleted_wf, with_link, links_distinct, is_ancestor, lemma_parent_idx, tree_start, tree_depth, parent_idx};

verus! {

/// After a memory is created, reading its identifier gives it back, and
/// every other identifier reads as before.
pub proof fn law_get_after_create(s: StoreView, m: MemoryView, x: Seq<char>)
    requires
        store_wf(s),
        create_check(s, m) is None,
    ensures
        lookup(inserted(s, m).memories, m.id) == Some(m),
        x != m.id ==> lookup(inserted(s, m).memories, x) == lookup(s.memories, x),
{
    assert(inserted(s, m).memories.drop_last() =~= s.memories);
}

/// A created memory is well formed when the store was.
pub proof fn law_create_keeps_wf(s: StoreView, m: MemoryView)
    requires
        store_wf(s),
        create_check(s, m) is None,
    ensures
        store_wf(inserted(s, m)),
{
    let t = inserted(s, m);
    assert(t.memories.drop_last() =~= s.memories);
    assert forall|k: int| 0 <= k < t.links.len() implies ids(t.memories).contains(#[trigger] t.links[k].0) by {
        assert(ids(s.memories).contains(s.links[k].0));
    }
}

/// Memory `x` of the store after deleting `id`: as before, with `id` no
/// longer its parent.
pub open spec fn after_delete(before: Option<MemoryView>, id: Seq<char>) -> Option<MemoryView> {
    match before {
        Some(m) => Some(orphaned(m, id)),
        None => None,
    }
}

proof fn lemma_lookup_without(ms: Seq<MemoryView>, id: Seq<char>, x: Seq<char>)
    ensures
        lookup(memories_without(ms, id), x) == if x == id {
            None
        } else {
            after_delete(lookup(ms, x), id)
        },
    decreases ms.len(),
{
    if ms.len() > 0 {
        let d = ms.drop_last();
        lemma_lookup_without(d, id, x);
        let w = memories_without(ms, id);
        let wd = memories_without(d, id);
        if ms.last().id == id {
            assert(w =~= wd);
        } else {
            assert(w =~= wd.push(orphaned(ms.last(), id)));
            assert(w.drop_last() =~= wd);
        }
    }
}

proof fn lemma_linked_without(ls: Seq<(Seq<char>, Seq<char>)>, id: Seq<char>, x: Seq<char>)
    ensures
        linked(links_without(ls, id), x) == if x == id {
            Seq::<Seq<char>>::empty()
        } else {
            linked(ls, x)
        },
    decreases ls.len(),
{
    if ls.len() > 0 {
        let d = ls.drop_last();
        lemma_linked_without(d, id, x);
        let w = links_without(ls, id);
        let wd = links_without(d, id);
        if ls.last().0 == id {
            assert(w =~= wd);
            if x != id {
                assert(linked(ls, x) =~= linked(d, x));
            }
        } else {
            assert(w =~= wd.push(ls.last()));
            assert(w.drop_last() =~= wd);
            if x == id {
                assert(linked(w, x) =~= linked(wd, x));
            } else {
                assert(linked(w, x) =~= linked(wd, x) + if ls.last().0 == x { seq![ls.last().1] } else { Seq::empty() });
            }
        }
    }
}

proof fn lemma_no_child_of_deleted(ms: Seq<MemoryView>, id: Seq<char>)
    ensures
        forall|k: int| 0 <= k < memories_without(ms, id).len()
            ==> (#[trigger] memories_without(ms, id)[k]).parent_memory_id != Some(id),
    decreases ms.len(),
{
    if ms.len() > 0 {
        let d = ms.drop_last();
        lemma_no_child_of_deleted(d, id);
        let w = memories_without(ms, id);
        let wd = memories_without(d, id);
        if ms.last().id == id {
            assert(w =~= wd);
        } else {
            assert(w =~= wd.push(orphaned(ms.last(), id)));
            assert forall|k: int| 0 <= k < w.len() implies (#[trigger] w[k]).parent_memory_id != Some(id) by {
                if k < wd.len() {
                    assert(w[k] == wd[k]);
                }
            }
        }
    }
}

/// Deleting a memory: it is gone, its links are gone, no memory names it as
/// parent any more, and every other memory and every other memory's links
/// are kept, with the deleted memory cleared from their parent.
pub proof fn law_delete(s: StoreView, id: Seq<char>, x: Seq<char>)
    requires
        store_wf(s),
    ensures
        store_wf(deleted(s, id)),
        lookup(deleted(s, id).memories, id) is None,
        linked(deleted(s, id).links, id).len() == 0,
        forall|k: int| 0 <= k < deleted(s, id).memories.len()
            ==> (#[trigger] deleted(s, id).memories[k]).parent_memory_id != Some(id),
        x != id ==> lookup(deleted(s, id).memories, x) == after_delete(lookup(s.memories, x), id),
        x != id ==> linked(deleted(s, id).links, x) == linked(s.links, x),
{
    lemma_deleted_wf(s, id);
    lemma_lookup_without(s.memories, id, id);
    lemma_lookup_without(s.memories, id, x);
    lemma_linked_without(s.links, id, id);
    lemma_linked_without(s.links, id, x);
    lemma_no_child_of_deleted(s.memories, id);
}

/// Linking the same pair twice is the same as linking it once.
pub proof fn law_link_idempotent(s: StoreView, mid: Seq<char>, hid: Seq<char>)
    ensures
        with_link(with_link(s, mid, hid), mid, hid) == with_link(s, mid, hid),
{
    if !s.links.contains((mid, hid)) {
        let t = with_link(s, mid, hid);
        assert(t.links[t.links.len() - 1] == (mid, hid));
    }
}

proof fn lemma_linked_contains(ls: Seq<(Seq<char>, Seq<char>)>, mid: Seq<char>, hid: Seq<char>)
    ensures
        linked(ls, mid).contains(hid) <==> ls.contains((mid, hid)),
    decreases ls.len(),
{
    if ls.len() > 0 {
        let d = ls.drop_last();
        lemma_linked_contains(d, mid, hid);
        let tail = if ls.last().0 == mid { seq![ls.last().1] } else { Seq::<Seq<char>>::empty() };
        assert(linked(ls, mid) == linked(d, mid) + tail);
        if linked(ls, mid).contains(hid) {
            let k = choose|k: int| 0 <= k < linked(ls, mid).len() && linked(ls, mid)[k] == hid;
            if k < linked(d, mid).len() {
                assert(linked(d, mid)[k] == hid);
                let j = choose|j: int| 0 <= j < d.len() && d[j] == (mid, hid);
                assert(ls[j] == (mid, hid));
            } else {
                assert(ls[ls.len() - 1] == (mid, hid));
            }
        }
        if ls.contains((mid, hid)) {
            let j = choose|j: int| 0 <= j < ls.len() && ls[j] == (mid, hid);
            if j < d.len() {
                assert(d[j] == (mid, hid));
                assert(linked(d, mid).contains(hid));
                let k = choose|k: int| 0 <= k < linked(d, mid).len() && linked(d, mid)[k] == hid;
                assert(linked(ls, mid)[k] == hid);
            } else {
                assert(linked(ls, mid)[linked(ls, mid).len() - 1] == hid);
            }
        }
    }
}

/// After linking, the history entry is among the memory's linked entries,
/// and the count of linked entries went up by one exactly when the link is
/// new.
pub proof fn law_link_then_linked(s: StoreView, mid: Seq<char>, hid: Seq<char>)
    ensures
        linked(with_link(s, mid, hid).links, mid).contains(hid),
        linked(with_link(s, mid, hid).links, mid).len() == linked(s.links, mid).len()
            + if s.links.contains((mid, hid)) { 0int } else { 1int },
{
    let t = with_link(s, mid, hid);
    lemma_linked_contains(t.links, mid, hid);
    if !s.links.contains((mid, hid)) {
        assert(t.links.drop_last() =~= s.links);
        assert(t.links.contains((mid, hid))) by {
            assert(t.links[t.links.len() - 1] == (mid, hid));
        }
    } else {
        lemma_linked_contains(s.links, mid, hid);
    }
}

proof fn lemma_linked_no_duplicates(ls: Seq<(Seq<char>, Seq<char>)>, mid: Seq<char>)
    requires
        links_distinct(ls),
    ensures
        linked(ls, mid).no_duplicates(),
    decreases ls.len(),
{
    if ls.len() > 0 {
        let d = ls.drop_last();
        lemma_linked_no_duplicates(d, mid);
        if ls.last().0 == mid {
            let l = linked(ls, mid);
            let ld = linked(d, mid);
            assert(l =~= ld.push(ls.last().1));
            lemma_linked_contains(d, mid, ls.last().1);
            assert forall|i: int, j: int| 0 <= i < l.len() && 0 <= j < l.len() && i != j implies l[i] != l[j] by {
                if i < ld.len() && j < ld.len() {
                    assert(l[i] == ld[i] && l[j] == ld[j]);
                } else if i < ld.len() {
                    assert(l[i] == ld[i]);
                    assert(ld.contains(l[i]));
                } else {
                    assert(l[j] == ld[j]);
                    assert(ld.contains(l[j]));
                }
            }
        } else {
            assert(linked(ls, mid) =~= linked(d, mid));
        }
    }
}

/// A memory's linked history entries never repeat.
pub proof fn law_linked_distinct(s: StoreView, mid: Seq<char>)
    requires
        store_wf(s),
    ensures
        linked(s.links, mid).no_duplicates(),
{
    lemma_linked_no_duplicates(s.links, mid);
}

/// A memory without a parent has no ancestors.
pub proof fn law_root_has_no_ancestors(s: StoreView, i: int, a: int)
    requires
        store_wf(s),
        0 <= i < s.memories.len(),
        s.memories[i].parent_memory_id is None,
    ensures
        !is_ancestor(s.memories, a, i),
{
    lemma_parent_idx(s.memories, i);
}

/// Every memory hangs from a root: listing all trees without a depth bound
/// short of the number of memories lists every memory, at a depth no
/// greater than its position.
pub proof fn law_every_memory_in_forest(s: StoreView, max_depth: usize, i: int)
    requires
        store_wf(s),
        s.memories.len() <= max_depth <= i64::MAX,
        0 <= i < s.memories.len(),
    ensures
        tree_depth(s.memories, None, max_depth, i) matches Some(d) && d <= i,
    decreases i,
{
    let ms = s.memories;
    lemma_parent_idx(ms, i);
    if !tree_start(ms[i], None) {
        let p = parent_idx(ms, i);
        law_every_memory_in_forest(s, max_depth, p);
    }
}

/// Memory `r` is a root (it has no parent) and it is memory `i` or one of
/// its ancestors.
pub open spec fn root_of(ms: Seq<MemoryView>, r: int, i: int) -> bool {
    0 <= r < ms.len() && ms[r].parent_memory_id is None && (r == i || is_ancestor(ms, r, i))
}

/// The parent chain of every memory ends at a root: some memory without a
/// parent is the memory itself or one of its ancestors.
pub proof fn law_ancestors_reach_root(s: StoreView, i: int)
    requires
        store_wf(s),
        0 <= i < s.memories.len(),
    ensures
        exists|r: int| #[trigger] root_of(s.memories, r, i),
    decreases i,
{
    let ms = s.memories;
    lemma_parent_idx(ms, i);
    if ms[i].parent_memory_id is None {
        assert(root_of(ms, i, i));
    } else {
        let p = parent_idx(ms, i);
        law_ancestors_reach_root(s, p);
        let r = choose|r: int| #[trigger] root_of(ms, r, p);
        assert(is_ancestor(ms, r, i));
        assert(root_of(ms, r, i));
    }
}

/// What a query returns, read row by row: each row is a selected row, in
/// key order, no row twice, and (without a limit) every selected row.
proof fn lemma_selection_rows(ms: Seq<MemoryView>, keys: Seq<RowKey>, limit: Option<usize>)
    requires
        keys.len() == ms.len(),
        ms.len() <= usize::MAX,
    ensures
        ({
            let sel = ordered_selection(keys, limit);
            let r = rows(ms, sel);
            &&& r.len() == sel.len()
            &&& forall|k: int| 0 <= k < r.len() ==> #[trigger] sel[k] < ms.len() && keys[sel[k] as int].selected && r[k] == ms[sel[k] as int]
            &&& forall|k: int, l: int| 0 <= k < l < r.len() ==> precedes(keys, #[trigger] sel[k] as int, #[trigger] sel[l] as int)
            &&& limit is None ==> forall|j: int| 0 <= j < ms.len() && keys[j].selected ==> #[trigger] r.contains(ms[j])
        }),
{
    lemma_selection_exists(keys, limit);
    let sel = ordered_selection(keys, limit);
    let r = rows(ms, sel);
    if limit is None {
        assert forall|j: int| 0 <= j < ms.len() && keys[j].selected implies #[trigger] r.contains(ms[j]) by {
            assert(sel.contains(j as usize));
            let k = choose|k: int| 0 <= k < sel.len() && sel[k] == j as usize;
            assert(r[k] == ms[j]);
        }
    }
}

/// The memories an ungrouped listing returns: each passes the filter, they
/// come newest first, no memory comes twice, and without a limit every
/// memory that passes comes.
proof fn lemma_newest_first(ms: Seq<MemoryView>, f: spec_fn(MemoryView) -> bool, limit: Option<usize>)
    requires
        distinct_ids(ms),
        ms.len() <= usize::MAX,
    ensures
        ({
            let r = newest_first(ms, f, limit);
            &&& forall|k: int| 0 <= k < r.len() ==> f(#[trigger] r[k]) && ms.contains(r[k])
            &&& forall|k: int, l: int| 0 <= k < l < r.len() ==> (#[trigger] r[k]).created_at >= (#[trigger] r[l]).created_at
            &&& forall|k: int, l: int| 0 <= k < l < r.len() ==> (#[trigger] r[k]).id != (#[trigger] r[l]).id
            &&& limit is None ==> forall|j: int| 0 <= j < ms.len() && f(ms[j]) ==> #[trigger] r.contains(ms[j])
        }),
{
    let keys = flat_keys(ms, f);
    lemma_selection_rows(ms, keys, limit);
    lemma_selection_exists(keys, limit);
    lemma_distinct_index(ms);
    let sel = ordered_selection(keys, limit);
    let r = rows(ms, sel);
    assert forall|k: int| 0 <= k < r.len() implies f(#[trigger] r[k]) && ms.contains(r[k]) by {
        assert(sel[k] < ms.len() && keys[sel[k] as int].selected);
        assert(r[k] == ms[sel[k] as int]);
    }
    assert forall|k: int, l: int| 0 <= k < l < r.len() implies (#[trigger] r[k]).created_at >= (#[trigger] r[l]).created_at
        && r[k].id != r[l].id by {
        assert(precedes(keys, sel[k] as int, sel[l] as int));
        assert(r[k] == ms[sel[k] as int] && r[l] == ms[sel[l] as int]);
        assert(sel[k] != sel[l]);
    }
}

/// A listing returns, each once, exactly the memories that pass its
/// repository, directory and agent filters, newest first; with a limit, the
/// first so many of them.
pub proof fn law_list(
    s: StoreView,
    repo: Option<Seq<char>>,
    cwd: Option<Seq<char>>,
    agent: Option<Seq<char>>,
    limit: Option<usize>,
)
    requires
        store_wf(s),
        s.memories.len() <= usize::MAX,
    ensures
        ({
            let r = list_result(s, repo, cwd, agent, limit);
            let all = list_result(s, repo, cwd, agent, None);
            &&& forall|k: int| 0 <= k < r.len() ==> list_match(#[trigger] r[k], repo, cwd, agent) && s.memories.contains(r[k])
            &&& forall|k: int, l: int| 0 <= k < l < r.len() ==> (#[trigger] r[k]).created_at >= (#[trigger] r[l]).created_at
            &&& forall|k: int, l: int| 0 <= k < l < r.len() ==> (#[trigger] r[k]).id != (#[trigger] r[l]).id
            &&& forall|j: int| 0 <= j < s.memories.len() && list_match(s.memories[j], repo, cwd, agent)
                ==> #[trigger] all.contains(s.memories[j])
            &&& limit matches Some(l) ==> r == all.take(if all.len() <= l { all.len() as int } else { l as int })
        }),
{
    let f = |m: MemoryView| list_match(m, repo, cwd, agent);
    lemma_newest_first(s.memories, f, limit);
    lemma_newest_first(s.memories, f, None);
    if let Some(l) = limit {
        lemma_selection_prefix(flat_keys(s.memories, f), l);
        let sel = ordered_selection(flat_keys(s.memories, f), None);
        let m = if sel.len() <= l { sel.len() as int } else { l as int };
        assert(rows(s.memories, sel.take(m)) =~= rows(s.memories, sel).take(m));
    }
}

/// The children of a memory are, each once, exactly the memories that name
/// it as parent, newest first.
pub proof fn law_children(s: StoreView, pid: Seq<char>)
    requires
        store_wf(s),
        s.memories.len() <= usize::MAX,
    ensures
        ({
            let r = children_result(s, pid);
            &&& forall|k: int| 0 <= k < r.len() ==> (#[trigger] r[k]).parent_memory_id == Some(pid) && s.memories.contains(r[k])
            &&& forall|k: int, l: int| 0 <= k < l < r.len() ==> (#[trigger] r[k]).created_at >= (#[trigger] r[l]).created_at
            &&& forall|k: int, l: int| 0 <= k < l < r.len() ==> (#[trigger] r[k]).id != (#[trigger] r[l]).id
            &&& forall|j: int| 0 <= j < s.memories.len() && s.memories[j].parent_memory_id == Some(pid)
                ==> #[trigger] r.contains(s.memories[j])
        }),
{
    lemma_newest_first(s.memories, |m: MemoryView| m.parent_memory_id == Some(pid), None);
}

/// The roots are, each once, exactly the memories without a parent, newest
/// first; with a limit, the first so many of them.
pub proof fn law_roots(s: StoreView, limit: Option<usize>)
    requires
        store_wf(s),
        s.memories.len() <= usize::MAX,
    ensures
        ({
            let r = roots_result(s, limit);
            let all = roots_result(s, None);
            &&& forall|k: int| 0 <= k < r.len() ==> (#[trigger] r[k]).parent_memory_id is None && s.memories.contains(r[k])
            &&& forall|k: int, l: int| 0 <= k < l < r.len() ==> (#[trigger] r[k]).created_at >= (#[trigger] r[l]).created_at
            &&& forall|k: int, l: int| 0 <= k < l < r.len() ==> (#[trigger] r[k]).id != (#[trigger] r[l]).id
            &&& forall|j: int| 0 <= j < s.memories.len() && s.memories[j].parent_memory_id is None
                ==> #[trigger] all.contains(s.memories[j])
            &&& limit matches Some(l) ==> r == all.take(if all.len() <= l { all.len() as int } else { l as int })
        }),
{
    let f = |m: MemoryView| m.parent_memory_id is None;
    lemma_newest_first(s.memories, f, limit);
    lemma_newest_first(s.memories, f, None);
    if let Some(l) = limit {
        lemma_selection_prefix(flat_keys(s.memories, f), l);
        let sel = ordered_selection(flat_keys(s.memories, f), None);
        let m = if sel.len() <= l { sel.len() as int } else { l as int };
        assert(rows(s.memories, sel.take(m)) =~= rows(s.memories, sel).take(m));
    }
}

/// Memory `m` is one of the memories and an ancestor of memory `i`.
pub open spec fn is_ancestor_memory(ms: Seq<MemoryView>, m: MemoryView, i: int) -> bool {
    exists|a: int| 0 <= a < ms.len() && ms[a] == m && #[trigger] is_ancestor(ms, a, i)
}

/// The ancestors of a memory are, each once, exactly its parent, its
/// parent's parent and so on up to a root (the memory itself excluded),
/// newest first; a memory that does not exist has none.
pub proof fn law_ancestors(s: StoreView, id: Seq<char>)
    requires
        store_wf(s),
        s.memories.len() <= usize::MAX,
    ensures
        !ids(s.memories).contains(id) ==> ancestors_result(s, id).len() == 0,
        ids(s.memories).contains(id) ==> ({
            let ms = s.memories;
            let i = index_of(ms, id);
            let r = ancestors_result(s, id);
            &&& 0 <= i < ms.len() && ms[i].id == id
            &&& forall|k: int| 0 <= k < r.len() ==> is_ancestor_memory(ms, #[trigger] r[k], i) && r[k].id != id
            &&& forall|a: int| 0 <= a < ms.len() && #[trigger] is_ancestor(ms, a, i) ==> r.contains(ms[a])
            &&& forall|k: int, l: int| 0 <= k < l < r.len() ==> (#[trigger] r[k]).created_at >= (#[trigger] r[l]).created_at
            &&& forall|k: int, l: int| 0 <= k < l < r.len() ==> (#[trigger] r[k]).id != (#[trigger] r[l]).id
        }),
{
    let ms = s.memories;
    if ids(ms).contains(id) {
        lemma_ids_index(ms, id);
        lemma_distinct_index(ms);
        let i = index_of(ms, id);
        let keys = indexed_keys(ms, |a: int| is_ancestor(ms, a, i), |a: int| 0u64);
        lemma_selection_rows(ms, keys, None);
        let sel = ordered_selection(keys, None);
        let r = rows(ms, sel);
        assert(r == ancestors_result(s, id));
        assert forall|k: int| 0 <= k < r.len() implies is_ancestor_memory(ms, #[trigger] r[k], i) && r[k].id != id by {
            let a = sel[k] as int;
            assert(keys[a].selected);
            assert(is_ancestor(ms, a, i));
            lemma_ancestor_earlier(ms, a, i);
            assert(r[k] == ms[a]);
        }
        assert forall|a: int| 0 <= a < ms.len() && #[trigger] is_ancestor(ms, a, i) implies r.contains(ms[a]) by {
            assert(keys[a].selected);
        }
        assert forall|k: int, l: int| 0 <= k < l < r.len() implies (#[trigger] r[k]).created_at >= (#[trigger] r[l]).created_at
            && r[k].id != r[l].id by {
            assert(precedes(keys, sel[k] as int, sel[l] as int));
            assert(sel[k] != sel[l]);
        }
    }
}

/// Tree depths can only grow deeper with a larger limit: a memory listed
/// with limit `d1` is listed at the same depth with a larger limit `d2`.
proof fn lemma_tree_depth_monotone(ms: Seq<MemoryView>, root: Option<Seq<char>>, d1: usize, d2: usize, i: int)
    requires
        d1 <= d2 <= i64::MAX,
    ensures
        tree_depth(ms, root, d1, i) matches Some(x) ==> tree_depth(ms, root, d2, i) == Some(x),
    decreases i,
{
    if 0 <= i < ms.len() && !tree_start(ms[i], root) {
        let p = parent_idx(ms, i);
        if 0 <= p < i {
            lemma_tree_depth_monotone(ms, root, d1, d2, p);
        }
    }
}

/// A listed depth is at most the depth limit.
proof fn lemma_tree_depth_limit(ms: Seq<MemoryView>, root: Option<Seq<char>>, d: usize, i: int)
    ensures
        tree_depth(ms, root, d, i) matches Some(x) ==> x <= d,
    decreases i,
{
    if 0 <= i < ms.len() && !tree_start(ms[i], root) {
        let p = parent_idx(ms, i);
        if 0 <= p < i {
            lemma_tree_depth_limit(ms, root, d, p);
        }
    }
}

/// The depth at which memory `m` is listed, by its identifier.
pub open spec fn listed_depth(ms: Seq<MemoryView>, root: Option<Seq<char>>, d: usize, m: MemoryView) -> Option<nat> {
    tree_depth(ms, root, d, index_of(ms, m.id))
}

/// A tree listing holds, each once, exactly the memories within `d` levels
/// below a start (memory `root`, or every memory without a parent), by
/// depth and then newest first; a listing from an existing memory starts
/// with that memory.
pub proof fn law_tree(s: StoreView, root: Option<Seq<char>>, d: usize)
    requires
        store_wf(s),
        s.memories.len() <= usize::MAX,
    ensures
        ({
            let ms = s.memories;
            let r = tree_result(s, root, d);
            &&& forall|k: int| 0 <= k < r.len() ==> ms.contains(#[trigger] r[k]) && (listed_depth(ms, root, d, r[k]) matches Some(x) && x <= d)
            &&& forall|i: int| 0 <= i < ms.len() && (#[trigger] tree_depth(ms, root, d, i)) is Some ==> r.contains(ms[i])
            &&& forall|k: int, l: int| 0 <= k < l < r.len() ==> (#[trigger] r[k]).id != (#[trigger] r[l]).id
            &&& forall|k: int, l: int| 0 <= k < l < r.len() ==> ({
                let dk = listed_depth(ms, root, d, #[trigger] r[k]).unwrap();
                let dl = listed_depth(ms, root, d, #[trigger] r[l]).unwrap();
                dk < dl || (dk == dl && r[k].created_at >= r[l].created_at)
            })
            &&& (root matches Some(rid) && ids(ms).contains(rid)) ==> r.len() >= 1 && r[0].id == root->0
        }),
{
    let ms = s.memories;
    let keys = indexed_keys(
        ms,
        |i: int| tree_depth(ms, root, d, i) is Some,
        |i: int| match tree_depth(ms, root, d, i) {
            Some(x) => x as u64,
            None => 0u64,
        },
    );
    lemma_selection_rows(ms, keys, None);
    lemma_distinct_index(ms);
    let sel = ordered_selection(keys, None);
    let r = rows(ms, sel);
    assert(r == tree_result(s, root, d));
    assert forall|i: int| 0 <= i < ms.len() implies index_of(ms, #[trigger] ms[i].id) == i by {
        assert(ms[i].id == ms[i].id);
    }
    assert forall|k: int| 0 <= k < r.len() implies ms.contains(#[trigger] r[k]) && (listed_depth(ms, root, d, r[k]) matches Some(x) && x <= d) by {
        let a = sel[k] as int;
        assert(keys[a].selected);
        assert(r[k] == ms[a]);
        assert(index_of(ms, ms[a].id) == a);
        lemma_tree_depth_limit(ms, root, d, a);
    }
    assert forall|i: int| 0 <= i < ms.len() && (#[trigger] tree_depth(ms, root, d, i)) is Some implies r.contains(ms[i]) by {
        assert(keys[i].selected);
    }
    assert forall|k: int, l: int| 0 <= k < l < r.len() implies (#[trigger] r[k]).id != (#[trigger] r[l]).id && ({
        let dk = listed_depth(ms, root, d, r[k]).unwrap();
        let dl = listed_depth(ms, root, d, r[l]).unwrap();
        dk < dl || (dk == dl && r[k].created_at >= r[l].created_at)
    }) by {
        let a = sel[k] as int;
        let b = sel[l] as int;
        assert(precedes(keys, a, b));
        assert(a != b);
        assert(r[k] == ms[a] && r[l] == ms[b]);
        assert(index_of(ms, ms[a].id) == a && index_of(ms, ms[b].id) == b);
        assert(keys[a].selected && keys[b].selected);
        lemma_tree_depth_bound(ms, root, d, a);
        lemma_tree_depth_bound(ms, root, d, b);
    }
    if let Some(rid) = root {
        if ids(ms).contains(rid) {
            lemma_ids_index(ms, rid);
            let ri = index_of(ms, rid);
            assert(tree_start(ms[ri], root));
            assert(tree_depth(ms, root, d, ri) == Some(0nat));
            assert(r.contains(ms[ri]));
            let q = choose|q: int| 0 <= q < r.len() && r[q] == ms[ri];
            if q != 0 {
                let a = sel[0] as int;
                assert(precedes(keys, a, sel[q] as int));
                assert(sel[q] as int == ri) by {
                    assert(ms[sel[q] as int] == ms[ri]);
                }
                assert(keys[a].selected);
                assert(a != ri);
                assert(!tree_start(ms[a], root));
            }
        }
    }
}

/// A deeper limit lists more: every memory listed with depth limit `d1` is
/// listed with a larger limit `d2` (up to the range of `i64`).
pub proof fn law_tree_deeper(s: StoreView, root: Option<Seq<char>>, d1: usize, d2: usize)
    requires
        store_wf(s),
        s.memories.len() <= usize::MAX,
        d1 <= d2 <= i64::MAX,
    ensures
        forall|k: int| 0 <= k < tree_result(s, root, d1).len() ==> tree_result(s, root, d2).contains(
            #[trigger] tree_result(s, root, d1)[k],
        ),
{
    let ms = s.memories;
    law_tree(s, root, d1);
    law_tree(s, root, d2);
    lemma_distinct_index(ms);
    let r1 = tree_result(s, root, d1);
    assert forall|k: int| 0 <= k < r1.len() implies tree_result(s, root, d2).contains(#[trigger] r1[k]) by {
        assert(ms.contains(r1[k]));
        let i = choose|i: int| 0 <= i < ms.len() && ms[i] == r1[k];
        assert(ms[i].id == ms[i].id);
        assert(index_of(ms, ms[i].id) == i);
        lemma_tree_depth_monotone(ms, root, d1, d2, i);
        assert(tree_depth(ms, root, d2, i) is Some);
    }
}

/// A search returns, in the order of the full-text ranking, the ranked
/// memories that exist and belong to the repository asked for, and no
/// others (a deleted memory is never returned); a ranking that names no
/// memory twice gives no memory twice.
pub proof fn law_search(s: StoreView, ranked: Seq<Seq<char>>, repo: Option<Seq<char>>)
    requires
        store_wf(s),
    ensures
        ({
            let r = search_result(s.memories, ranked, repo);
            &&& forall|k: int| 0 <= k < r.len() ==> s.memories.contains(#[trigger] r[k]) && passes(r[k].repo_root, repo)
                && ranked.contains(r[k].id)
            &&& forall|q: int, i: int| 0 <= q < ranked.len() && 0 <= i < s.memories.len() && s.memories[i].id
                == #[trigger] ranked[q] && passes(s.memories[i].repo_root, repo) ==> r.contains(#[trigger] s.memories[i])
            &&& ranked.no_duplicates() ==> forall|k: int, l: int| 0 <= k < l < r.len() ==> (#[trigger] r[k]).id != (#[trigger] r[l]).id
        }),
    decreases ranked.len(),
{
    let ms = s.memories;
    let r = search_result(ms, ranked, repo);
    if ranked.len() > 0 {
        let d = ranked.drop_last();
        law_search(s, d, repo);
        let rd = search_result(ms, d, repo);
        let id = ranked.last();
        lemma_lookup_index(ms, id);
        let tail = match lookup(ms, id) {
            Some(m) => if passes(m.repo_root, repo) { seq![m] } else { Seq::empty() },
            None => Seq::empty(),
        };
        assert(r == rd + tail);
        assert forall|k: int| 0 <= k < r.len() implies ms.contains(#[trigger] r[k]) && passes(r[k].repo_root, repo)
            && ranked.contains(r[k].id) by {
            if k < rd.len() {
                assert(r[k] == rd[k]);
                let q = choose|q: int| 0 <= q < d.len() && d[q] == rd[k].id;
                assert(ranked[q] == d[q]);
            } else {
                assert(ranked[ranked.len() - 1] == id);
            }
        }
        assert forall|q: int, i: int| 0 <= q < ranked.len() && 0 <= i < ms.len() && ms[i].id == #[trigger] ranked[q]
            && passes(ms[i].repo_root, repo) implies r.contains(#[trigger] ms[i]) by {
            if q < d.len() {
                assert(d[q] == ranked[q]);
                assert(rd.contains(ms[i]));
                let k = choose|k: int| 0 <= k < rd.len() && rd[k] == ms[i];
                assert(r[k] == ms[i]);
            } else {
                assert(lookup(ms, id) == Some(ms[i]));
                assert(r[rd.len() as int] == ms[i]);
            }
        }
        if ranked.no_duplicates() {
            assert(d.no_duplicates());
            assert forall|k: int, l: int| 0 <= k < l < r.len() implies (#[trigger] r[k]).id != (#[trigger] r[l]).id by {
                if l >= rd.len() {
                    assert(r[l].id == id);
                    if k < rd.len() {
                        assert(r[k] == rd[k]);
                        if rd[k].id == id {
                            let q = choose|q: int| 0 <= q < d.len() && d[q] == rd[k].id;
                            assert(ranked[q] == id && ranked[ranked.len() - 1] == id);
                        }
                    }
                } else {
                    assert(r[k] == rd[k] && r[l] == rd[l]);
                }
            }
        }
    }
}

/// A search by command returns, each once and newest first, exactly the
/// memories of the repository asked for that have a linked history entry
/// whose command holds the pattern.
pub proof fn law_command_search(
    s: StoreView,
    commands: Seq<(Seq<char>, Seq<char>)>,
    pattern: Seq<char>,
    repo: Option<Seq<char>>,
)
    requires
        store_wf(s),
        s.memories.len() <= usize::MAX,
    ensures
        ({
            let r = command_search_result(s, commands, pattern, repo);
            let hit = |m: MemoryView| passes(m.repo_root, repo) && has_matching_link(s.links, commands, m.id, contains_pattern(pattern));
            &&& forall|k: int| 0 <= k < r.len() ==> hit(#[trigger] r[k]) && s.memories.contains(r[k])
            &&& forall|k: int, l: int| 0 <= k < l < r.len() ==> (#[trigger] r[k]).created_at >= (#[trigger] r[l]).created_at
            &&& forall|k: int, l: int| 0 <= k < l < r.len() ==> (#[trigger] r[k]).id != (#[trigger] r[l]).id
            &&& forall|j: int| 0 <= j < s.memories.len() && hit(s.memories[j]) ==> #[trigger] r.contains(s.memories[j])
        }),
{
    lemma_newest_first(
        s.memories,
        |m: MemoryView| passes(m.repo_root, repo) && has_matching_link(s.links, commands, m.id, contains_pattern(pattern)),
        None,
    );
}

/// A memory listed in a tree started at memory `rid` comes at or after it.
proof fn lemma_tree_below_start(ms: Seq<MemoryView>, rid: Seq<char>, d: usize, j: int)
    requires
        distinct_ids(ms),
        ids(ms).contains(rid),
        tree_depth(ms, Some(rid), d, j) is Some,
    ensures
        index_of(ms, rid) <= j,
    decreases j,
{
    lemma_ids_index(ms, rid);
    lemma_distinct_index(ms);
    if tree_start(ms[j], Some(rid)) {
        assert(ms[j].id == rid);
    } else {
        let p = parent_idx(ms, j);
        lemma_tree_below_start(ms, rid, d, p);
    }
}

/// A tree started at an existing memory has that memory, and only it, at
/// the top: every other memory listed is listed under its parent.
pub proof fn law_tree_from_memory_has_one_top(s: StoreView, rid: Seq<char>, d: usize)
    requires
        store_wf(s),
        s.memories.len() <= usize::MAX,
        ids(s.memories).contains(rid),
    ensures
        top_positions(tree_result(s, Some(rid), d)) == seq![0int],
        tree_result(s, Some(rid), d)[0].id == rid,
{
    let ms = s.memories;
    let r = tree_result(s, Some(rid), d);
    law_tree(s, Some(rid), d);
    lemma_ids_index(ms, rid);
    lemma_distinct_index(ms);
    let ri = index_of(ms, rid);
    assert forall|i: int| 0 <= i < ms.len() implies index_of(ms, #[trigger] ms[i].id) == i by {
        assert(ms[i].id == ms[i].id);
    }
    // the start is at the top
    assert(r[0] == ms[ri]) by {
        assert(ms.contains(r[0]));
        let a = choose|a: int| 0 <= a < ms.len() && ms[a] == r[0];
        assert(index_of(ms, ms[a].id) == a);
    }
    assert(is_top(r, 0)) by {
        lemma_parent_idx(ms, ri);
        if let Some(p) = ms[ri].parent_memory_id {
            if names_one_of(r, p) {
                let k = choose|k: int| 0 <= k < r.len() && (#[trigger] r[k]).id == p;
                let pi = parent_idx(ms, ri);
                assert(ms.contains(r[k]));
                let a = choose|a: int| 0 <= a < ms.len() && ms[a] == r[k];
                assert(a == pi);
                assert(index_of(ms, ms[a].id) == a);
                lemma_tree_below_start(ms, rid, d, a);
            }
        }
    }
    // every other listed memory has its parent listed
    assert forall|k: int| 1 <= k < r.len() implies !is_top(r, k) by {
        assert(ms.contains(r[k]));
        let j = choose|j: int| 0 <= j < ms.len() && ms[j] == r[k];
        assert(index_of(ms, ms[j].id) == j);
        assert(r[k].id != r[0].id);
        assert(j != ri);
        assert(!tree_start(ms[j], Some(rid)));
        let p = parent_idx(ms, j);
        assert(0 <= p < j);
        assert(tree_depth(ms, Some(rid), d, p) is Some);
        assert(r.contains(ms[p]));
        lemma_parent_idx(ms, j);
        let q = choose|q: int| 0 <= q < r.len() && r[q] == ms[p];
        assert(r[q].id == ms[p].id);
        assert(names_one_of(r, ms[p].id));
    }
    assert forall|k: int| 1 <= k <= r.len() implies #[trigger] top_positions_upto(r, k) == seq![0int] by {
        lemma_top_upto_single(r, k);
    }
}

proof fn lemma_top_upto_single(r: Seq<MemoryView>, k: int)
    requires
        1 <= k <= r.len(),
        is_top(r, 0),
        forall|q: int| 1 <= q < r.len() ==> !is_top(r, q),
    ensures
        top_positions_upto(r, k) == seq![0int],
    decreases k,
{
    if k == 1 {
        assert(top_positions_upto(r, 0) == Seq::<int>::empty());
        assert(top_positions_upto(r, 1) =~= seq![0int]);
    } else {
        lemma_top_upto_single(r, k - 1);
        assert(!is_top(r, k - 1));
        assert(top_positions_upto(r, k) =~= seq![0int]);
    }
}

/// A search by command finds a memory of the repository asked for (or any,
/// without one) when one of its linked history entries has a command that
/// holds the pattern (free of `%` and `_`) anywhere.
pub proof fn law_command_search_finds_word(
    s: StoreView,
    commands: Seq<(Seq<char>, Seq<char>)>,
    pattern: Seq<char>,
    repo: Option<Seq<char>>,
    i: int,
    k: int,
    j: int,
    before: Seq<char>,
    after: Seq<char>,
)
    requires
        store_wf(s),
        s.memories.len() <= usize::MAX,
        forall|q: int| 0 <= q < pattern.len() ==> crate::like::is_literal(#[trigger] pattern[q]),
        0 <= i < s.memories.len(),
        passes(s.memories[i].repo_root, repo),
        0 <= k < s.links.len(),
        s.links[k].0 == s.memories[i].id,
        0 <= j < commands.len(),
        commands[j].0 == s.links[k].1,
        commands[j].1 == before + pattern + after,
    ensures
        command_search_result(s, commands, pattern, repo).contains(s.memories[i]),
{
    crate::like::law_like_finds_substring(pattern, before, after);
    assert(contains_pattern(pattern) == seq!['%'] + pattern + seq!['%']);
    assert(crate::database::command_matches(commands, s.links[k].1, contains_pattern(pattern)));
    assert(has_matching_link(s.links, commands, s.memories[i].id, contains_pattern(pattern)));
    law_command_search(s, commands, pattern, repo);
}

} // verus!
