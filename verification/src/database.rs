//! The memory store: memories, the links between memories and history
//! entries, and the queries over them.
//!
//! The store keeps its rows in the order they were inserted. Its rules are
//! those of its relational schema: a memory's identifier is its primary
//! key; a memory may name a parent that must exist when the memory is
//! created, and deleting the parent clears that reference; links are unique
//! pairs of a memory and a history entry, the memory must exist, and
//! deleting the memory deletes its links.
use vstd::prelude::*;
use crate::memory::{Memory, MemoryView, MemoryCommand, copy_opt};
use crate::order::{RowKey, select_rows, ordered_selection, is_ordered_selection};
use crate::text::{str_eq, chars_of};
use crate::like::{like, like_match};

verus! {

/// Errors of the memory store.
#[derive(Debug)]
pub enum MemoryError {
    /// The parent named by a new memory does not exist.
    ParentNotFound(String),
    /// A memory with this identifier exists already: the database refuses
    /// a second row with the same primary key.
    AlreadyExists(String),
    /// No memory has this identifier.
    MemoryNotFound(String),
    /// A history entry was to be linked to a memory that does not exist:
    /// the database refuses the link by its foreign key.
    LinkRefused(String),
}

/// An error as a mathematical value.
pub enum MemoryErrorView {
    ParentNotFound(Seq<char>),
    AlreadyExists(Seq<char>),
    MemoryNotFound(Seq<char>),
    LinkRefused(Seq<char>),
}

impl View for MemoryError {
    type V = MemoryErrorView;

    open spec fn view(&self) -> MemoryErrorView {
        match self {
            MemoryError::ParentNotFound(s) => MemoryErrorView::ParentNotFound(s@),
            MemoryError::AlreadyExists(s) => MemoryErrorView::AlreadyExists(s@),
            MemoryError::MemoryNotFound(s) => MemoryErrorView::MemoryNotFound(s@),
            MemoryError::LinkRefused(s) => MemoryErrorView::LinkRefused(s@),
        }
    }
}

/// The text of an error. The refusals of the database read as the SQLite
/// database reports them through sqlx: the extended result code (1555 for a
/// primary key, 787 for a foreign key) and SQLite's message.
pub open spec fn error_message(e: MemoryErrorView) -> Seq<char> {
    match e {
        MemoryErrorView::ParentNotFound(id) => "Parent memory not found: "@ + id,
        MemoryErrorView::AlreadyExists(_) => "error returned from database: (code: 1555) UNIQUE constraint failed: memories.id"@,
        MemoryErrorView::MemoryNotFound(id) => "Memory not found: "@ + id,
        MemoryErrorView::LinkRefused(_) => "error returned from database: (code: 787) FOREIGN KEY constraint failed"@,
    }
}

impl MemoryError {
    /// The text of the error.
    pub fn message(&self) -> (res: String)
        ensures
            res@ == error_message(self@),
    {
        match self {
            MemoryError::ParentNotFound(id) => {
                let mut s = String::from_str("Parent memory not found: ");
                s.append(id.as_str());
                s
            },
            MemoryError::AlreadyExists(_) => String::from_str(
                "error returned from database: (code: 1555) UNIQUE constraint failed: memories.id",
            ),
            MemoryError::MemoryNotFound(id) => {
                let mut s = String::from_str("Memory not found: ");
                s.append(id.as_str());
                s
            },
            MemoryError::LinkRefused(_) => String::from_str(
                "error returned from database: (code: 787) FOREIGN KEY constraint failed",
            ),
        }
    }
}

/// The store as a mathematical value: its memories and its links, each in
/// the order of insertion.
pub struct StoreView {
    pub memories: Seq<MemoryView>,
    pub links: Seq<(Seq<char>, Seq<char>)>,
}

/// The identifiers of a sequence of memories.
pub open spec fn ids(ms: Seq<MemoryView>) -> Set<Seq<char>>
    decreases ms.len(),
{
    if ms.len() == 0 {
        Set::empty()
    } else {
        ids(ms.drop_last()).insert(ms.last().id)
    }
}

/// No two memories share an identifier.
pub open spec fn distinct_ids(ms: Seq<MemoryView>) -> bool
    decreases ms.len(),
{
    if ms.len() == 0 {
        true
    } else {
        distinct_ids(ms.drop_last()) && !ids(ms.drop_last()).contains(ms.last().id)
    }
}

/// Every parent a memory names comes before it.
pub open spec fn parents_earlier(ms: Seq<MemoryView>) -> bool
    decreases ms.len(),
{
    if ms.len() == 0 {
        true
    } else {
        parents_earlier(ms.drop_last()) && match ms.last().parent_memory_id {
            Some(p) => ids(ms.drop_last()).contains(p),
            None => true,
        }
    }
}

/// No link occurs twice.
pub open spec fn links_distinct(ls: Seq<(Seq<char>, Seq<char>)>) -> bool
    decreases ls.len(),
{
    if ls.len() == 0 {
        true
    } else {
        links_distinct(ls.drop_last()) && !ls.drop_last().contains(ls.last())
    }
}

/// Every link belongs to an existing memory.
pub open spec fn links_valid(ms: Seq<MemoryView>, ls: Seq<(Seq<char>, Seq<char>)>) -> bool {
    forall|k: int| 0 <= k < ls.len() ==> ids(ms).contains(#[trigger] ls[k].0)
}

/// The well-formedness of a store.
pub open spec fn store_wf(s: StoreView) -> bool {
    &&& distinct_ids(s.memories)
    &&& parents_earlier(s.memories)
    &&& links_distinct(s.links)
    &&& links_valid(s.memories, s.links)
}

/// The memory with identifier `id`, if any.
pub open spec fn lookup(ms: Seq<MemoryView>, id: Seq<char>) -> Option<MemoryView>
    decreases ms.len(),
{
    if ms.len() == 0 {
        None
    } else if ms.last().id == id {
        Some(ms.last())
    } else {
        lookup(ms.drop_last(), id)
    }
}

/// Why creating memory `m` fails, if it does.
pub open spec fn create_check(s: StoreView, m: MemoryView) -> Option<MemoryErrorView> {
    match m.parent_memory_id {
        Some(p) => if !ids(s.memories).contains(p) {
            Some(MemoryErrorView::ParentNotFound(p))
        } else if ids(s.memories).contains(m.id) {
            Some(MemoryErrorView::AlreadyExists(m.id))
        } else {
            None
        },
        None => if ids(s.memories).contains(m.id) {
            Some(MemoryErrorView::AlreadyExists(m.id))
        } else {
            None
        },
    }
}

/// The store after memory `m` is inserted.
pub open spec fn inserted(s: StoreView, m: MemoryView) -> StoreView {
    StoreView { memories: s.memories.push(m), links: s.links }
}

/// The history entries linked to memory `mid`, in the order they were linked.
pub open spec fn linked(ls: Seq<(Seq<char>, Seq<char>)>, mid: Seq<char>) -> Seq<Seq<char>>
    decreases ls.len(),
{
    if ls.len() == 0 {
        Seq::empty()
    } else {
        linked(ls.drop_last(), mid) + if ls.last().0 == mid {
            seq![ls.last().1]
        } else {
            Seq::empty()
        }
    }
}

/// The store after linking history entry `hid` to memory `mid`; a link that
/// exists already is left as it is.
pub open spec fn with_link(s: StoreView, mid: Seq<char>, hid: Seq<char>) -> StoreView {
    if s.links.contains((mid, hid)) {
        s
    } else {
        StoreView { memories: s.memories, links: s.links.push((mid, hid)) }
    }
}

/// A memory whose parent was `id`, after `id` is deleted.
pub open spec fn orphaned(m: MemoryView, id: Seq<char>) -> MemoryView {
    if m.parent_memory_id == Some(id) {
        MemoryView { parent_memory_id: None, ..m }
    } else {
        m
    }
}

/// The memories left after deleting `id`: the others, with references to
/// `id` as parent cleared.
pub open spec fn memories_without(ms: Seq<MemoryView>, id: Seq<char>) -> Seq<MemoryView>
    decreases ms.len(),
{
    if ms.len() == 0 {
        Seq::empty()
    } else {
        memories_without(ms.drop_last(), id) + if ms.last().id == id {
            Seq::empty()
        } else {
            seq![orphaned(ms.last(), id)]
        }
    }
}

/// The links left after deleting memory `id`.
pub open spec fn links_without(ls: Seq<(Seq<char>, Seq<char>)>, id: Seq<char>) -> Seq<(Seq<char>, Seq<char>)>
    decreases ls.len(),
{
    if ls.len() == 0 {
        Seq::empty()
    } else {
        links_without(ls.drop_last(), id) + if ls.last().0 == id {
            Seq::empty()
        } else {
            seq![ls.last()]
        }
    }
}

/// The store after deleting memory `id`.
pub open spec fn deleted(s: StoreView, id: Seq<char>) -> StoreView {
    StoreView { memories: memories_without(s.memories, id), links: links_without(s.links, id) }
}

// ---------------------------------------------------------------------------
// Facts about the sequence definitions, stated by index.

pub proof fn lemma_ids_index(ms: Seq<MemoryView>, x: Seq<char>)
    ensures
        ids(ms).contains(x) <==> exists|i: int| 0 <= i < ms.len() && (#[trigger] ms[i]).id == x,
    decreases ms.len(),
{
    if ms.len() > 0 {
        lemma_ids_index(ms.drop_last(), x);
        if ids(ms.drop_last()).contains(x) {
            let i = choose|i: int| 0 <= i < ms.drop_last().len() && (#[trigger] ms.drop_last()[i]).id == x;
            assert(ms[i] == ms.drop_last()[i]);
        }
        if exists|i: int| 0 <= i < ms.len() && (#[trigger] ms[i]).id == x {
            let i = choose|i: int| 0 <= i < ms.len() && (#[trigger] ms[i]).id == x;
            if i < ms.len() - 1 {
                assert(ms.drop_last()[i] == ms[i]);
            }
        }
    }
}

pub proof fn lemma_distinct_index(ms: Seq<MemoryView>)
    requires
        distinct_ids(ms),
    ensures
        forall|i: int, j: int| 0 <= i < ms.len() && 0 <= j < ms.len() && i != j ==> (#[trigger] ms[i]).id != (#[trigger] ms[j]).id,
    decreases ms.len(),
{
    if ms.len() > 0 {
        let d = ms.drop_last();
        lemma_distinct_index(d);
        lemma_ids_index(d, ms.last().id);
        assert forall|i: int, j: int| 0 <= i < ms.len() && 0 <= j < ms.len() && i != j implies (#[trigger] ms[i]).id != (#[trigger] ms[j]).id by {
            if i < ms.len() - 1 && j < ms.len() - 1 {
                assert(ms[i] == d[i] && ms[j] == d[j]);
            } else if i < ms.len() - 1 {
                assert(ms[i] == d[i]);
            } else {
                assert(ms[j] == d[j]);
            }
        }
    }
}

pub proof fn lemma_parents_index(ms: Seq<MemoryView>)
    requires
        parents_earlier(ms),
    ensures
        forall|i: int| 0 <= i < ms.len() && (#[trigger] ms[i]).parent_memory_id is Some ==>
            exists|j: int| 0 <= j < i && ms[j].id == ms[i].parent_memory_id.unwrap(),
    decreases ms.len(),
{
    if ms.len() > 0 {
        let d = ms.drop_last();
        lemma_parents_index(d);
        assert forall|i: int| 0 <= i < ms.len() && (#[trigger] ms[i]).parent_memory_id is Some implies
            exists|j: int| 0 <= j < i && ms[j].id == ms[i].parent_memory_id.unwrap() by {
            if i < ms.len() - 1 {
                assert(ms[i] == d[i]);
                let j = choose|j: int| 0 <= j < i && d[j].id == d[i].parent_memory_id.unwrap();
                assert(ms[j] == d[j]);
            } else {
                lemma_ids_index(d, ms.last().parent_memory_id.unwrap());
                let j = choose|j: int| 0 <= j < d.len() && (#[trigger] d[j]).id == ms.last().parent_memory_id.unwrap();
                assert(ms[j] == d[j]);
            }
        }
    }
}

pub proof fn lemma_lookup_index(ms: Seq<MemoryView>, id: Seq<char>)
    requires
        distinct_ids(ms),
    ensures
        match lookup(ms, id) {
            Some(m) => exists|i: int| 0 <= i < ms.len() && ms[i] == m && m.id == id,
            None => !ids(ms).contains(id),
        },
        forall|i: int| 0 <= i < ms.len() && (#[trigger] ms[i]).id == id ==> lookup(ms, id) == Some(ms[i]),
    decreases ms.len(),
{
    if ms.len() > 0 {
        let d = ms.drop_last();
        lemma_lookup_index(d, id);
        lemma_distinct_index(ms);
        lemma_ids_index(d, id);
        if ms.last().id != id {
            match lookup(d, id) {
                Some(m) => {
                    let i = choose|i: int| 0 <= i < d.len() && d[i] == m && m.id == id;
                    assert(ms[i] == d[i]);
                },
                None => {},
            }
            assert forall|i: int| 0 <= i < ms.len() && (#[trigger] ms[i]).id == id implies lookup(ms, id) == Some(ms[i]) by {
                assert(i != ms.len() - 1);
                assert(ms[i] == d[i]);
            }
        } else {
            assert(ms[ms.len() - 1] == ms.last());
        }
    }
}


pub proof fn lemma_memories_without(ms: Seq<MemoryView>, id: Seq<char>)
    ensures
        ids(memories_without(ms, id)) == ids(ms).remove(id),
        distinct_ids(ms) ==> distinct_ids(memories_without(ms, id)),
        parents_earlier(ms) ==> parents_earlier(memories_without(ms, id)),
    decreases ms.len(),
{
    if ms.len() == 0 {
        assert(ids(memories_without(ms, id)) =~= ids(ms).remove(id));
    } else {
        let d = ms.drop_last();
        lemma_memories_without(d, id);
        let w = memories_without(ms, id);
        let wd = memories_without(d, id);
        if ms.last().id == id {
            assert(w =~= wd);
            assert(ids(w) =~= ids(ms).remove(id));
        } else {
            let o = orphaned(ms.last(), id);
            assert(w =~= wd.push(o));
            assert(w.drop_last() =~= wd);
            assert(ids(w) =~= ids(ms).remove(id));
        }
    }
}

pub proof fn lemma_links_without(ls: Seq<(Seq<char>, Seq<char>)>, id: Seq<char>)
    ensures
        forall|l: (Seq<char>, Seq<char>)|
            #![trigger links_without(ls, id).contains(l)]
            #![trigger ls.contains(l)]
            links_without(ls, id).contains(l) <==> ls.contains(l) && l.0 != id,
        links_distinct(ls) ==> links_distinct(links_without(ls, id)),
    decreases ls.len(),
{
    if ls.len() > 0 {
        let d = ls.drop_last();
        lemma_links_without(d, id);
        let w = links_without(ls, id);
        let wd = links_without(d, id);
        if ls.last().0 == id {
            assert(w =~= wd);
        } else {
            assert(w =~= wd.push(ls.last()));
            assert(w.drop_last() =~= wd);
        }
        assert forall|l: (Seq<char>, Seq<char>)| w.contains(l) <==> ls.contains(l) && l.0 != id by {
            if w.contains(l) {
                let k = choose|k: int| 0 <= k < w.len() && w[k] == l;
                if k < wd.len() {
                    assert(wd[k] == l);
                    assert(wd.contains(l));
                    let j = choose|j: int| 0 <= j < d.len() && d[j] == l;
                    assert(ls[j] == l);
                } else {
                    assert(ls[ls.len() - 1] == l);
                }
            }
            if ls.contains(l) && l.0 != id {
                let k = choose|k: int| 0 <= k < ls.len() && ls[k] == l;
                if k < d.len() {
                    assert(d[k] == l);
                    assert(wd.contains(l));
                    let j = choose|j: int| 0 <= j < wd.len() && wd[j] == l;
                    assert(w[j] == l);
                } else {
                    assert(w[w.len() - 1] == l);
                }
            }
        }
    }
}

/// Deleting a memory keeps the store well formed.
pub proof fn lemma_deleted_wf(s: StoreView, id: Seq<char>)
    requires
        store_wf(s),
    ensures
        store_wf(deleted(s, id)),
{
    lemma_memories_without(s.memories, id);
    lemma_links_without(s.links, id);
    let t = deleted(s, id);
    assert forall|k: int| 0 <= k < t.links.len() implies ids(t.memories).contains(#[trigger] t.links[k].0) by {
        assert(t.links.contains(t.links[k]));
        let j = choose|j: int| 0 <= j < s.links.len() && s.links[j] == t.links[k];
        assert(ids(s.memories).contains(s.links[j].0));
    }
}

// ---------------------------------------------------------------------------

/// An optional string slice as an optional character sequence.
pub open spec fn opt_str(o: Option<&str>) -> Option<Seq<char>> {
    match o {
        Some(s) => Some(s@),
        None => None,
    }
}

/// A column passes an equality filter: no filter, or the column holds the
/// filter's value.
pub open spec fn passes(field: Option<Seq<char>>, filter: Option<Seq<char>>) -> bool {
    match filter {
        None => true,
        Some(f) => field == Some(f),
    }
}

/// A memory passes the filters of a listing.
pub open spec fn list_match(m: MemoryView, repo: Option<Seq<char>>, cwd: Option<Seq<char>>, agent: Option<Seq<char>>) -> bool {
    &&& passes(m.repo_root, repo)
    &&& passes(Some(m.cwd), cwd)
    &&& passes(m.agent_id, agent)
}

/// The sort keys of the memories for an ungrouped listing of those that
/// satisfy `sel`.
pub open spec fn flat_keys(ms: Seq<MemoryView>, sel: spec_fn(MemoryView) -> bool) -> Seq<RowKey> {
    Seq::new(ms.len(), |i: int| RowKey { selected: sel(ms[i]), group: 0, created_at: ms[i].created_at })
}

/// The memories at the given positions.
pub open spec fn rows(ms: Seq<MemoryView>, idx: Seq<usize>) -> Seq<MemoryView> {
    idx.map_values(|i: usize| ms[i as int])
}

/// The memories that pass `sel`, newest first, at most `limit` of them.
pub open spec fn newest_first(ms: Seq<MemoryView>, sel: spec_fn(MemoryView) -> bool, limit: Option<usize>) -> Seq<MemoryView> {
    rows(ms, ordered_selection(flat_keys(ms, sel), limit))
}

/// The result of a listing with the given filters.
pub open spec fn list_result(
    s: StoreView,
    repo: Option<Seq<char>>,
    cwd: Option<Seq<char>>,
    agent: Option<Seq<char>>,
    limit: Option<usize>,
) -> Seq<MemoryView> {
    newest_first(s.memories, |m: MemoryView| list_match(m, repo, cwd, agent), limit)
}

/// The children of memory `pid`, newest first.
pub open spec fn children_result(s: StoreView, pid: Seq<char>) -> Seq<MemoryView> {
    newest_first(s.memories, |m: MemoryView| m.parent_memory_id == Some(pid), None)
}

/// The memories without a parent, newest first, at most `limit` of them.
pub open spec fn roots_result(s: StoreView, limit: Option<usize>) -> Seq<MemoryView> {
    newest_first(s.memories, |m: MemoryView| m.parent_memory_id is None, limit)
}

/// The memories named by a full-text ranking (identifiers, best match
/// first) that exist and pass the repository filter, in ranking order.
pub open spec fn search_result(ms: Seq<MemoryView>, ranked: Seq<Seq<char>>, repo: Option<Seq<char>>) -> Seq<MemoryView>
    decreases ranked.len(),
{
    if ranked.len() == 0 {
        Seq::empty()
    } else {
        search_result(ms, ranked.drop_last(), repo) + match lookup(ms, ranked.last()) {
            Some(m) => if passes(m.repo_root, repo) {
                seq![m]
            } else {
                Seq::empty()
            },
            None => Seq::empty(),
        }
    }
}

/// The `LIKE` pattern that finds `p` anywhere in a text.
pub open spec fn contains_pattern(p: Seq<char>) -> Seq<char> {
    seq!['%'] + p + seq!['%']
}

/// The command of history entry `hid`, as `commands` gives it (pairs of a
/// history id and the command text), matches pattern `pat`.
pub open spec fn command_matches(commands: Seq<(Seq<char>, Seq<char>)>, hid: Seq<char>, pat: Seq<char>) -> bool {
    exists|j: int| 0 <= j < commands.len() && (#[trigger] commands[j]).0 == hid && like_match(pat, commands[j].1)
}

/// Memory `mid` has a linked history entry whose command matches `pat`.
pub open spec fn has_matching_link(
    ls: Seq<(Seq<char>, Seq<char>)>,
    commands: Seq<(Seq<char>, Seq<char>)>,
    mid: Seq<char>,
    pat: Seq<char>,
) -> bool {
    exists|k: int| 0 <= k < ls.len() && (#[trigger] ls[k]).0 == mid && command_matches(commands, ls[k].1, pat)
}

/// The memories, newest first, that pass the repository filter and have a
/// linked history entry whose command holds `pattern` anywhere in it.
pub open spec fn command_search_result(
    s: StoreView,
    commands: Seq<(Seq<char>, Seq<char>)>,
    pattern: Seq<char>,
    repo: Option<Seq<char>>,
) -> Seq<MemoryView> {
    newest_first(
        s.memories,
        |m: MemoryView| passes(m.repo_root, repo) && has_matching_link(s.links, commands, m.id, contains_pattern(pattern)),
        None,
    )
}

/// Pairs of a history id and its command text, as mathematical values.
pub open spec fn commands_view(commands: Seq<(String, String)>) -> Seq<(Seq<char>, Seq<char>)> {
    commands.map_values(|c: (String, String)| (c.0@, c.1@))
}

// ---------------------------------------------------------------------------

/// The position of the memory with identifier `id` (there is at most one
/// in a well-formed store).
pub open spec fn index_of(ms: Seq<MemoryView>, id: Seq<char>) -> int {
    choose|i: int| 0 <= i < ms.len() && ms[i].id == id
}

/// The position of the parent of memory `i`, or -1 when it has none.
pub open spec fn parent_idx(ms: Seq<MemoryView>, i: int) -> int {
    match ms[i].parent_memory_id {
        Some(p) => if exists|j: int| 0 <= j < i && ms[j].id == p {
            choose|j: int| 0 <= j < i && ms[j].id == p
        } else {
            -1
        },
        None => -1,
    }
}

/// Memory `a` is an ancestor of memory `i`: its parent, or an ancestor of
/// its parent.
pub open spec fn is_ancestor(ms: Seq<MemoryView>, a: int, i: int) -> bool
    decreases i,
{
    if 0 <= i < ms.len() {
        let p = parent_idx(ms, i);
        if 0 <= p < i {
            a == p || is_ancestor(ms, a, p)
        } else {
            false
        }
    } else {
        false
    }
}

/// Sort keys for the memories, with a filter and a group given by position.
pub open spec fn indexed_keys(ms: Seq<MemoryView>, sel: spec_fn(int) -> bool, group: spec_fn(int) -> u64) -> Seq<RowKey> {
    Seq::new(ms.len(), |i: int| RowKey { selected: sel(i), group: group(i), created_at: ms[i].created_at })
}

/// The ancestors of memory `id`, newest first; none when it does not exist.
pub open spec fn ancestors_result(s: StoreView, id: Seq<char>) -> Seq<MemoryView> {
    if ids(s.memories).contains(id) {
        let i = index_of(s.memories, id);
        rows(s.memories, ordered_selection(indexed_keys(s.memories, |a: int| is_ancestor(s.memories, a, i), |a: int| 0u64), None))
    } else {
        Seq::empty()
    }
}

/// Where a tree listing starts: at memory `root`, or at every memory
/// without a parent.
pub open spec fn tree_start(m: MemoryView, root: Option<Seq<char>>) -> bool {
    match root {
        Some(r) => m.id == r,
        None => m.parent_memory_id is None,
    }
}

/// The children of a node at depth `d` are listed when `d` is below the
/// maximum depth (a maximum beyond the range of `i64` admits none).
pub open spec fn descends_below(d: nat, max_depth: usize) -> bool {
    max_depth <= i64::MAX && d < max_depth
}

/// The depth of memory `i` in a tree listing, if it is listed.
pub open spec fn tree_depth(ms: Seq<MemoryView>, root: Option<Seq<char>>, max_depth: usize, i: int) -> Option<nat>
    decreases i,
{
    if !(0 <= i < ms.len()) {
        None
    } else if tree_start(ms[i], root) {
        Some(0)
    } else {
        let p = parent_idx(ms, i);
        if 0 <= p < i {
            match tree_depth(ms, root, max_depth, p) {
                Some(d) => if descends_below(d, max_depth) {
                    Some(d + 1)
                } else {
                    None
                },
                None => None,
            }
        } else {
            None
        }
    }
}

/// The tree listing: the memories listed, by depth, then newest first.
pub open spec fn tree_result(s: StoreView, root: Option<Seq<char>>, max_depth: usize) -> Seq<MemoryView> {
    rows(
        s.memories,
        ordered_selection(
            indexed_keys(
                s.memories,
                |i: int| tree_depth(s.memories, root, max_depth, i) is Some,
                |i: int| match tree_depth(s.memories, root, max_depth, i) {
                    Some(d) => d as u64,
                    None => 0u64,
                },
            ),
            None,
        ),
    )
}

/// In a well-formed store the parent of a memory is the one memory that
/// carries the identifier it names, and it comes earlier.
pub proof fn lemma_parent_idx(ms: Seq<MemoryView>, i: int)
    requires
        distinct_ids(ms),
        parents_earlier(ms),
        0 <= i < ms.len(),
    ensures
        match ms[i].parent_memory_id {
            Some(p) => {
                &&& 0 <= parent_idx(ms, i) < i
                &&& ms[parent_idx(ms, i)].id == p
                &&& forall|j: int| 0 <= j < ms.len() && (#[trigger] ms[j]).id == p ==> j == parent_idx(ms, i)
            },
            None => parent_idx(ms, i) == -1,
        },
{
    lemma_parents_index(ms);
    lemma_distinct_index(ms);
    if ms[i].parent_memory_id is Some {
        assert(ms[i].parent_memory_id is Some);
    }
}

/// An ancestor comes before its descendant.
pub proof fn lemma_ancestor_earlier(ms: Seq<MemoryView>, a: int, i: int)
    requires
        is_ancestor(ms, a, i),
    ensures
        0 <= a < i,
    decreases i,
{
    let p = parent_idx(ms, i);
    if a != p {
        lemma_ancestor_earlier(ms, a, p);
    }
}

/// A listed memory's depth is at most its position.
pub proof fn lemma_tree_depth_bound(ms: Seq<MemoryView>, root: Option<Seq<char>>, max_depth: usize, i: int)
    ensures
        tree_depth(ms, root, max_depth, i) matches Some(d) ==> d <= i,
    decreases i,
{
    if 0 <= i < ms.len() && !tree_start(ms[i], root) {
        let p = parent_idx(ms, i);
        if 0 <= p < i {
            lemma_tree_depth_bound(ms, root, max_depth, p);
        }
    }
}

// ---------------------------------------------------------------------------

/// Whether an optional column passes an equality filter.
fn field_passes(field: &Option<String>, filter: Option<&str>) -> (res: bool)
    ensures
        res == passes(field.deep_view(), opt_str(filter)),
{
    match filter {
        None => true,
        Some(f) => match field {
            Some(v) => str_eq(v.as_str(), f),
            None => false,
        },
    }
}

/// The memory store.
pub struct MemoryStore {
    memories: Vec<Memory>,
    links: Vec<MemoryCommand>,
}

impl View for MemoryStore {
    type V = StoreView;

    closed spec fn view(&self) -> StoreView {
        StoreView {
            memories: self.memories@.map_values(|m: Memory| m@),
            links: self.links@.map_values(|l: MemoryCommand| l@),
        }
    }
}

impl MemoryStore {
    /// The well-formedness of the store (see [`store_wf`]).
    pub open spec fn wf(&self) -> bool {
        store_wf(self@)
    }

    /// An empty store.
    pub fn new() -> (res: MemoryStore)
        ensures
            res.wf(),
            res@.memories.len() == 0,
            res@.links.len() == 0,
    {
        let res = MemoryStore { memories: Vec::new(), links: Vec::new() };
        assert(res@.memories =~= Seq::<MemoryView>::empty());
        assert(res@.links =~= Seq::<(Seq<char>, Seq<char>)>::empty());
        res
    }

    /// The number of memories.
    pub fn len(&self) -> (res: usize)
        ensures
            res == self@.memories.len(),
    {
        self.memories.len()
    }

    /// The position of the memory with identifier `id`, if any.
    fn find_index(&self, id: &str) -> (res: Option<usize>)
        requires
            self.wf(),
        ensures
            match res {
                Some(i) => i < self@.memories.len() && self@.memories[i as int].id == id@
                    && lookup(self@.memories, id@) == Some(self@.memories[i as int]),
                None => !ids(self@.memories).contains(id@) && lookup(self@.memories, id@) is None,
            },
    {
        let ghost ms = self@.memories;
        let mut i: usize = 0;
        while i < self.memories.len()
            invariant
                ms == self@.memories,
                distinct_ids(ms),
                ms.len() == self.memories.len(),
                i <= ms.len(),
                forall|j: int| 0 <= j < i ==> (#[trigger] ms[j]).id != id@,
            decreases self.memories.len() - i,
        {
            assert(ms[i as int] == self.memories@[i as int]@);
            if str_eq(self.memories[i].id.as_str(), id) {
                proof {
                    lemma_lookup_index(ms, id@);
                }
                return Some(i);
            }
            i = i + 1;
        }
        proof {
            lemma_ids_index(ms, id@);
            lemma_lookup_index(ms, id@);
        }
        None
    }

    /// The memory with identifier `id`, if any.
    pub fn get(&self, id: &str) -> (res: Option<Memory>)
        requires
            self.wf(),
        ensures
            match res {
                Some(m) => lookup(self@.memories, id@) == Some(m@),
                None => lookup(self@.memories, id@) is None,
            },
    {
        match self.find_index(id) {
            Some(i) => {
                assert(self@.memories[i as int] == self.memories@[i as int]@);
                Some(self.memories[i].copy())
            },
            None => None,
        }
    }

    /// Whether a memory with identifier `id` exists.
    pub fn memory_exists(&self, id: &str) -> (res: bool)
        requires
            self.wf(),
        ensures
            res == ids(self@.memories).contains(id@),
    {
        match self.find_index(id) {
            Some(i) => {
                proof {
                    lemma_ids_index(self@.memories, id@);
                }
                true
            },
            None => false,
        }
    }

    /// Creates a memory. Its parent, if it names one, must exist, and its
    /// identifier must be new.
    pub fn create(&mut self, memory: &Memory) -> (res: Result<(), MemoryError>)
        requires
            old(self).wf(),
        ensures
            final(self).wf(),
            match create_check(old(self)@, memory@) {
                None => res is Ok && final(self)@ == inserted(old(self)@, memory@),
                Some(e) => res matches Err(err) && err@ == e && final(self)@ == old(self)@,
            },
    {
        if let Some(p) = &memory.parent_memory_id {
            if !self.memory_exists(p.as_str()) {
                return Err(MemoryError::ParentNotFound(p.clone()));
            }
        }
        if self.memory_exists(memory.id.as_str()) {
            return Err(MemoryError::AlreadyExists(memory.id.clone()));
        }
        let ghost before = self@;
        self.memories.push(memory.copy());
        proof {
            assert(self@.memories =~= before.memories.push(memory@));
            assert(self@.links =~= before.links);
            assert(self@.memories.drop_last() =~= before.memories);
            assert forall|k: int| 0 <= k < self@.links.len() implies ids(self@.memories).contains(#[trigger] self@.links[k].0) by {
                assert(ids(before.memories).contains(before.links[k].0));
            }
        }
        Ok(())
    }

    /// Whether the link of `history_id` to `memory_id` exists.
    fn has_link(&self, memory_id: &str, history_id: &str) -> (res: bool)
        ensures
            res == self@.links.contains((memory_id@, history_id@)),
    {
        let ghost ls = self@.links;
        let mut i: usize = 0;
        while i < self.links.len()
            invariant
                ls == self@.links,
                ls.len() == self.links.len(),
                i <= ls.len(),
                forall|j: int| 0 <= j < i ==> ls[j] != (memory_id@, history_id@),
            decreases self.links.len() - i,
        {
            assert(ls[i as int] == self.links@[i as int]@);
            if str_eq(self.links[i].memory_id.as_str(), memory_id) && str_eq(self.links[i].history_id.as_str(), history_id) {
                assert(ls[i as int] == (memory_id@, history_id@));
                return true;
            }
            i = i + 1;
        }
        false
    }

    /// Links history entry `history_id` to memory `memory_id`. Linking a pair
    /// that is linked already changes nothing; the memory must exist.
    pub fn link_command(&mut self, memory_id: &str, history_id: &str) -> (res: Result<(), MemoryError>)
        requires
            old(self).wf(),
        ensures
            final(self).wf(),
            ids(old(self)@.memories).contains(memory_id@) ==> res is Ok
                && final(self)@ == with_link(old(self)@, memory_id@, history_id@),
            !ids(old(self)@.memories).contains(memory_id@) ==> (res matches Err(e)
                && e@ == MemoryErrorView::LinkRefused(memory_id@)) && final(self)@ == old(self)@,
    {
        if !self.memory_exists(memory_id) {
            return Err(MemoryError::LinkRefused(String::from_str(memory_id)));
        }
        if self.has_link(memory_id, history_id) {
            return Ok(());
        }
        let ghost before = self@;
        self.links.push(MemoryCommand { memory_id: String::from_str(memory_id), history_id: String::from_str(history_id) });
        proof {
            assert(self@.links =~= before.links.push((memory_id@, history_id@)));
            assert(self@.memories =~= before.memories);
            assert(self@.links.drop_last() =~= before.links);
            assert forall|k: int| 0 <= k < self@.links.len() implies ids(self@.memories).contains(#[trigger] self@.links[k].0) by {
                if k < before.links.len() {
                    assert(self@.links[k] == before.links[k]);
                }
            }
        }
        Ok(())
    }

    /// Deletes memory `id` and its links; memories that named it as parent
    /// lose their parent. Deleting a memory that does not exist changes nothing.
    pub fn delete(&mut self, id: &str)
        requires
            old(self).wf(),
        ensures
            final(self).wf(),
            final(self)@ == deleted(old(self)@, id@),
    {
        let ghost before = self@;
        let ghost ms = before.memories;
        let ghost ls = before.links;
        let mut kept: Vec<Memory> = Vec::new();
        let mut i: usize = 0;
        while i < self.memories.len()
            invariant
                ms == self@.memories,
                ms.len() == self.memories.len(),
                i <= ms.len(),
                kept@.map_values(|m: Memory| m@) == memories_without(ms.take(i as int), id@),
            decreases self.memories.len() - i,
        {
            assert(ms[i as int] == self.memories@[i as int]@);
            assert(ms.take(i + 1).drop_last() =~= ms.take(i as int));
            let ghost prev = kept@.map_values(|m: Memory| m@);
            if !str_eq(self.memories[i].id.as_str(), id) {
                let mut m = self.memories[i].copy();
                let clear = match &m.parent_memory_id {
                    Some(p) => str_eq(p.as_str(), id),
                    None => false,
                };
                if clear {
                    m.parent_memory_id = None;
                }
                assert(m@ == orphaned(ms[i as int], id@));
                kept.push(m);
                assert(kept@.map_values(|m: Memory| m@) =~= prev + seq![orphaned(ms[i as int], id@)]);
            } else {
                assert(kept@.map_values(|m: Memory| m@) =~= prev + Seq::<MemoryView>::empty());
            }
            i = i + 1;
        }
        assert(ms.take(ms.len() as int) =~= ms);
        let mut kept_links: Vec<MemoryCommand> = Vec::new();
        let mut k: usize = 0;
        while k < self.links.len()
            invariant
                ls == self@.links,
                ls.len() == self.links.len(),
                k <= ls.len(),
                kept_links@.map_values(|l: MemoryCommand| l@) == links_without(ls.take(k as int), id@),
            decreases self.links.len() - k,
        {
            assert(ls[k as int] == self.links@[k as int]@);
            assert(ls.take(k + 1).drop_last() =~= ls.take(k as int));
            let ghost prev = kept_links@.map_values(|l: MemoryCommand| l@);
            if !str_eq(self.links[k].memory_id.as_str(), id) {
                kept_links.push(MemoryCommand {
                    memory_id: self.links[k].memory_id.clone(),
                    history_id: self.links[k].history_id.clone(),
                });
                assert(kept_links@.map_values(|l: MemoryCommand| l@) =~= prev + seq![ls[k as int]]);
            } else {
                assert(kept_links@.map_values(|l: MemoryCommand| l@) =~= prev + Seq::<(Seq<char>, Seq<char>)>::empty());
            }
            k = k + 1;
        }
        assert(ls.take(ls.len() as int) =~= ls);
        self.memories = kept;
        self.links = kept_links;
        proof {
            lemma_deleted_wf(before, id@);
        }
    }

    /// Copies of the memories at the given positions.
    fn rows_at(&self, idx: &Vec<usize>) -> (res: Vec<Memory>)
        requires
            forall|k: int| 0 <= k < idx.len() ==> #[trigger] idx[k] < self@.memories.len(),
        ensures
            res@.map_values(|m: Memory| m@) == rows(self@.memories, idx@),
    {
        let ghost ms = self@.memories;
        let mut res: Vec<Memory> = Vec::new();
        let mut k: usize = 0;
        while k < idx.len()
            invariant
                ms == self@.memories,
                ms.len() == self.memories.len(),
                k <= idx.len(),
                forall|j: int| 0 <= j < idx.len() ==> #[trigger] idx[j] < ms.len(),
                res@.map_values(|m: Memory| m@) == rows(ms, idx@.take(k as int)),
            decreases idx.len() - k,
        {
            let i = idx[k];
            assert(ms[i as int] == self.memories@[i as int]@);
            let ghost prev = res@;
            res.push(self.memories[i].copy());
            assert(idx@.take(k + 1) =~= idx@.take(k as int).push(i));
            assert(res@ =~= prev.push(res@.last()));
            assert(res@.map_values(|m: Memory| m@) =~= prev.map_values(|m: Memory| m@).push(ms[i as int]));
            assert(res@.map_values(|m: Memory| m@) =~= rows(ms, idx@.take(k + 1)));
            k = k + 1;
        }
        assert(idx@.take(idx.len() as int) =~= idx@);
        res
    }

    /// The memories that pass a filter, newest first (later insertions first
    /// among equal times), at most `limit` of them. `sel[i]` says whether
    /// memory `i` passes.
    fn newest_first_of(&self, sel: &Vec<bool>, limit: Option<usize>, Ghost(f): Ghost<spec_fn(MemoryView) -> bool>) -> (res: Vec<Memory>)
        requires
            sel.len() == self@.memories.len(),
            forall|i: int| 0 <= i < sel.len() ==> sel[i] == f(self@.memories[i]),
        ensures
            res@.map_values(|m: Memory| m@) == newest_first(self@.memories, f, limit),
            is_ordered_selection(flat_keys(self@.memories, f), limit, ordered_selection(flat_keys(self@.memories, f), limit)),
    {
        let ghost ms = self@.memories;
        let mut keys: Vec<RowKey> = Vec::new();
        let mut i: usize = 0;
        while i < self.memories.len()
            invariant
                ms == self@.memories,
                ms.len() == self.memories.len(),
                sel.len() == ms.len(),
                forall|j: int| 0 <= j < sel.len() ==> sel[j] == f(ms[j]),
                i <= ms.len(),
                keys@ == flat_keys(ms, f).take(i as int),
            decreases self.memories.len() - i,
        {
            assert(ms[i as int] == self.memories@[i as int]@);
            keys.push(RowKey { selected: sel[i], group: 0, created_at: self.memories[i].created_at });
            assert(keys@ =~= flat_keys(ms, f).take(i + 1));
            i = i + 1;
        }
        assert(keys@ =~= flat_keys(ms, f));
        self.ordered_rows(&keys, limit)
    }

    /// Memories, newest first, that pass the filters given: the repository
    /// root, the working directory and the agent, each compared for equality
    /// when present; at most `limit` of them.
    pub fn list(
        &self,
        repo_root: Option<&str>,
        cwd: Option<&str>,
        agent_id: Option<&str>,
        limit: Option<usize>,
    ) -> (res: Vec<Memory>)
        ensures
            res@.map_values(|m: Memory| m@) == list_result(self@, opt_str(repo_root), opt_str(cwd), opt_str(agent_id), limit),
            forall|k: int| 0 <= k < res.len() ==> list_match(#[trigger] res@[k]@, opt_str(repo_root), opt_str(cwd), opt_str(agent_id)),
            forall|k: int, l: int| 0 <= k < l < res.len() ==> (#[trigger] res@[k]).created_at >= (#[trigger] res@[l]).created_at,
            limit is None ==> forall|i: int| 0 <= i < self@.memories.len()
                && list_match(self@.memories[i], opt_str(repo_root), opt_str(cwd), opt_str(agent_id))
                ==> res@.map_values(|m: Memory| m@).contains(#[trigger] self@.memories[i]),
    {
        let ghost ms = self@.memories;
        let ghost f = |m: MemoryView| list_match(m, opt_str(repo_root), opt_str(cwd), opt_str(agent_id));
        let mut sel: Vec<bool> = Vec::new();
        let mut i: usize = 0;
        while i < self.memories.len()
            invariant
                ms == self@.memories,
                ms.len() == self.memories.len(),
                i <= ms.len(),
                sel.len() == i,
                forall|j: int| 0 <= j < i ==> sel[j] == list_match(ms[j], opt_str(repo_root), opt_str(cwd), opt_str(agent_id)),
            decreases self.memories.len() - i,
        {
            assert(ms[i as int] == self.memories@[i as int]@);
            let m = &self.memories[i];
            let ok = field_passes(&m.repo_root, repo_root) && match cwd {
                None => true,
                Some(c) => str_eq(m.cwd.as_str(), c),
            } && field_passes(&m.agent_id, agent_id);
            sel.push(ok);
            i = i + 1;
        }
        assert forall|j: int| 0 <= j < sel.len() implies sel[j] == f(ms[j]) by {}
        let res = self.newest_first_of(&sel, limit, Ghost(f));
        proof {
            let keys = flat_keys(ms, f);
            let chosen = ordered_selection(keys, limit);
            let r = res@.map_values(|m: Memory| m@);
            assert(is_ordered_selection(keys, limit, chosen));
            assert(r == rows(ms, chosen));
            assert(r.len() == chosen.len());
            assert forall|k: int| 0 <= k < res.len() implies list_match(#[trigger] res@[k]@, opt_str(repo_root), opt_str(cwd), opt_str(agent_id)) by {
                assert(r[k] == res@[k]@);
                assert(chosen[k] < keys.len());
                assert(r[k] == ms[chosen[k] as int]);
                assert(keys[chosen[k] as int].selected);
            }
            assert forall|k: int, l: int| 0 <= k < l < res.len() implies (#[trigger] res@[k]).created_at >= (#[trigger] res@[l]).created_at by {
                assert(r[k] == res@[k]@ && r[l] == res@[l]@);
                assert(chosen[k] < keys.len() && chosen[l] < keys.len());
                assert(r[k] == ms[chosen[k] as int] && r[l] == ms[chosen[l] as int]);
                assert(crate::order::precedes(keys, chosen[k] as int, chosen[l] as int));
            }
            if limit is None {
                assert forall|i: int| 0 <= i < ms.len() && list_match(ms[i], opt_str(repo_root), opt_str(cwd), opt_str(agent_id))
                    implies r.contains(#[trigger] ms[i]) by {
                    assert(keys[i].selected);
                    assert(chosen.contains(i as usize));
                    let k = choose|k: int| 0 <= k < chosen.len() && chosen[k] == i as usize;
                    assert(r[k] == ms[i]);
                }
            }
        }
        res
    }

    /// The children of memory `parent_id`, newest first.
    pub fn get_children(&self, parent_id: &str) -> (res: Vec<Memory>)
        ensures
            res@.map_values(|m: Memory| m@) == children_result(self@, parent_id@),
    {
        let ghost ms = self@.memories;
        let ghost f = |m: MemoryView| m.parent_memory_id == Some(parent_id@);
        let mut sel: Vec<bool> = Vec::new();
        let mut i: usize = 0;
        while i < self.memories.len()
            invariant
                ms == self@.memories,
                ms.len() == self.memories.len(),
                i <= ms.len(),
                sel.len() == i,
                forall|j: int| 0 <= j < i ==> sel[j] == (ms[j].parent_memory_id == Some(parent_id@)),
            decreases self.memories.len() - i,
        {
            assert(ms[i as int] == self.memories@[i as int]@);
            sel.push(field_passes(&self.memories[i].parent_memory_id, Some(parent_id)));
            i = i + 1;
        }
        assert forall|j: int| 0 <= j < sel.len() implies sel[j] == f(ms[j]) by {}
        self.newest_first_of(&sel, None, Ghost(f))
    }

    /// The memories without a parent, newest first, at most `limit` of them.
    pub fn get_roots(&self, limit: Option<usize>) -> (res: Vec<Memory>)
        ensures
            res@.map_values(|m: Memory| m@) == roots_result(self@, limit),
    {
        let ghost ms = self@.memories;
        let ghost f = |m: MemoryView| m.parent_memory_id is None;
        let mut sel: Vec<bool> = Vec::new();
        let mut i: usize = 0;
        while i < self.memories.len()
            invariant
                ms == self@.memories,
                ms.len() == self.memories.len(),
                i <= ms.len(),
                sel.len() == i,
                forall|j: int| 0 <= j < i ==> sel[j] == (ms[j].parent_memory_id is None),
            decreases self.memories.len() - i,
        {
            assert(ms[i as int] == self.memories@[i as int]@);
            sel.push(self.memories[i].parent_memory_id.is_none());
            i = i + 1;
        }
        assert forall|j: int| 0 <= j < sel.len() implies sel[j] == f(ms[j]) by {}
        self.newest_first_of(&sel, limit, Ghost(f))
    }

    /// The memories named by a full-text ranking of descriptions
    /// (`ranked_ids`, best match first) that exist and, when `repo_root` is
    /// given, belong to that repository; in ranking order.
    pub fn search(&self, ranked_ids: &Vec<String>, repo_root: Option<&str>) -> (res: Vec<Memory>)
        requires
            self.wf(),
        ensures
            res@.map_values(|m: Memory| m@)
                == search_result(self@.memories, ranked_ids@.map_values(|r: String| r@), opt_str(repo_root)),
    {
        let ghost ms = self@.memories;
        let ghost ranked = ranked_ids@.map_values(|r: String| r@);
        let mut res: Vec<Memory> = Vec::new();
        let mut k: usize = 0;
        while k < ranked_ids.len()
            invariant
                self.wf(),
                ms == self@.memories,
                ms.len() == self.memories.len(),
                ranked == ranked_ids@.map_values(|r: String| r@),
                k <= ranked_ids.len(),
                res@.map_values(|m: Memory| m@) == search_result(ms, ranked.take(k as int), opt_str(repo_root)),
            decreases ranked_ids.len() - k,
        {
            assert(ranked.take(k + 1).drop_last() =~= ranked.take(k as int));
            assert(ranked.take(k + 1).last() == ranked_ids@[k as int]@);
            let ghost prev = res@.map_values(|m: Memory| m@);
            match self.find_index(ranked_ids[k].as_str()) {
                Some(i) => {
                    assert(ms[i as int] == self.memories@[i as int]@);
                    if field_passes(&self.memories[i].repo_root, repo_root) {
                        res.push(self.memories[i].copy());
                        assert(res@.map_values(|m: Memory| m@) =~= prev + seq![ms[i as int]]);
                    } else {
                        assert(res@.map_values(|m: Memory| m@) =~= prev + Seq::<MemoryView>::empty());
                    }
                },
                None => {
                    assert(res@.map_values(|m: Memory| m@) =~= prev + Seq::<MemoryView>::empty());
                },
            }
            k = k + 1;
        }
        assert(ranked.take(ranked.len() as int) =~= ranked);
        res
    }

    /// The memories, newest first, that have a linked history entry whose
    /// command holds `command_pattern` (as a `LIKE` pattern, between `%` and
    /// `%`) and that, when `repo_root` is given, belong to that repository.
    /// The command text of each history entry comes from `commands`, pairs
    /// of a history id and its command.
    pub fn search_by_command(
        &self,
        commands: &Vec<(String, String)>,
        command_pattern: &str,
        repo_root: Option<&str>,
    ) -> (res: Vec<Memory>)
        ensures
            res@.map_values(|m: Memory| m@) == command_search_result(
                self@,
                commands_view(commands@),
                command_pattern@,
                opt_str(repo_root),
            ),
    {
        let ghost cv = commands_view(commands@);
        let ghost ms = self@.memories;
        let ghost ls = self@.links;
        let ghost pat = contains_pattern(command_pattern@);
        let mut pv: Vec<char> = Vec::new();
        pv.push('%');
        let inner = chars_of(command_pattern);
        let mut t: usize = 0;
        while t < inner.len()
            invariant
                t <= inner.len(),
                pv@ == seq!['%'] + inner@.take(t as int),
            decreases inner.len() - t,
        {
            pv.push(inner[t]);
            t = t + 1;
            assert(pv@ =~= seq!['%'] + inner@.take(t as int));
        }
        pv.push('%');
        assert(inner@.take(inner.len() as int) =~= command_pattern@);
        assert(pv@ =~= pat);
        // which commands match the pattern
        let mut cmd_hit: Vec<bool> = Vec::new();
        let mut j: usize = 0;
        while j < commands.len()
            invariant
                cv == commands_view(commands@),
                pv@ == pat,
                j <= commands.len(),
                cmd_hit.len() == j,
                forall|q: int| 0 <= q < j ==> cmd_hit[q] == like_match(pat, cv[q].1),
            decreases commands.len() - j,
        {
            let cc = chars_of(commands[j].1.as_str());
            cmd_hit.push(like(&pv, &cc));
            j = j + 1;
        }
        // which links lead to a matching command
        let mut hit: Vec<bool> = Vec::new();
        let mut k: usize = 0;
        while k < self.links.len()
            invariant
                ls == self@.links,
                ls.len() == self.links.len(),
                cv == commands_view(commands@),
                cmd_hit.len() == cv.len(),
                forall|q: int| 0 <= q < cv.len() ==> cmd_hit[q] == like_match(pat, cv[q].1),
                k <= ls.len(),
                hit.len() == k,
                forall|q: int| 0 <= q < k ==> hit[q] == command_matches(cv, ls[q].1, pat),
            decreases self.links.len() - k,
        {
            assert(ls[k as int] == self.links@[k as int]@);
            let mut found = false;
            let mut q: usize = 0;
            while q < commands.len() && !found
                invariant
                    cv == commands_view(commands@),
                    cmd_hit.len() == cv.len(),
                    forall|r: int| 0 <= r < cv.len() ==> cmd_hit[r] == like_match(pat, cv[r].1),
                    ls == self@.links,
                    k < ls.len(),
                    ls[k as int] == self.links@[k as int]@,
                    q <= cv.len(),
                    found ==> command_matches(cv, ls[k as int].1, pat),
                    !found ==> forall|r: int| 0 <= r < q ==> !((#[trigger] cv[r]).0 == ls[k as int].1 && like_match(pat, cv[r].1)),
                decreases commands.len() - q,
            {
                if cmd_hit[q] && str_eq(commands[q].0.as_str(), self.links[k].history_id.as_str()) {
                    found = true;
                }
                q = q + 1;
            }
            hit.push(found);
            k = k + 1;
        }
        let ghost f = |m: MemoryView| passes(m.repo_root, opt_str(repo_root)) && has_matching_link(ls, cv, m.id, pat);
        let mut sel: Vec<bool> = Vec::new();
        let mut i: usize = 0;
        while i < self.memories.len()
            invariant
                ms == self@.memories,
                ls == self@.links,
                ms.len() == self.memories.len(),
                ls.len() == self.links.len(),
                hit.len() == ls.len(),
                forall|j: int| 0 <= j < ls.len() ==> hit[j] == command_matches(cv, ls[j].1, pat),
                i <= ms.len(),
                sel.len() == i,
                forall|j: int| 0 <= j < i ==> sel[j] == (passes(ms[j].repo_root, opt_str(repo_root)) && has_matching_link(ls, cv, ms[j].id, pat)),
            decreases self.memories.len() - i,
        {
            assert(ms[i as int] == self.memories@[i as int]@);
            let mut found = false;
            if field_passes(&self.memories[i].repo_root, repo_root) {
                let mut k: usize = 0;
                while k < self.links.len() && !found
                    invariant
                        ms == self@.memories,
                        ls == self@.links,
                        ls.len() == self.links.len(),
                        i < ms.len(),
                        ms[i as int] == self.memories@[i as int]@,
                        hit.len() == ls.len(),
                        forall|j: int| 0 <= j < ls.len() ==> hit[j] == command_matches(cv, ls[j].1, pat),
                        k <= ls.len(),
                        found ==> has_matching_link(ls, cv, ms[i as int].id, pat),
                        !found ==> forall|j: int| 0 <= j < k ==> !((#[trigger] ls[j]).0 == ms[i as int].id && command_matches(cv, ls[j].1, pat)),
                    decreases self.links.len() - k,
                {
                    assert(ls[k as int] == self.links@[k as int]@);
                    if hit[k] && str_eq(self.links[k].memory_id.as_str(), self.memories[i].id.as_str()) {
                        found = true;
                    }
                    k = k + 1;
                }
                assert(found == has_matching_link(ls, cv, ms[i as int].id, pat));
            }
            sel.push(found);
            i = i + 1;
        }
        assert forall|j: int| 0 <= j < sel.len() implies sel[j] == f(ms[j]) by {}
        let res = self.newest_first_of(&sel, None, Ghost(f));
        assert(f =~= |m: MemoryView| passes(m.repo_root, opt_str(repo_root)) && has_matching_link(self@.links, commands_view(commands@), m.id, contains_pattern(command_pattern@)));
        res
    }

    /// The memories at the positions a query selects, in its order.
    fn ordered_rows(&self, keys: &Vec<RowKey>, limit: Option<usize>) -> (res: Vec<Memory>)
        requires
            keys.len() == self@.memories.len(),
        ensures
            res@.map_values(|m: Memory| m@) == rows(self@.memories, ordered_selection(keys@, limit)),
            is_ordered_selection(keys@, limit, ordered_selection(keys@, limit)),
    {
        let idx = select_rows(keys, limit);
        self.rows_at(&idx)
    }

    /// The position of the parent of memory `i`, if it has one.
    fn parent_position(&self, i: usize) -> (res: Option<usize>)
        requires
            self.wf(),
            i < self@.memories.len(),
        ensures
            match res {
                Some(j) => j as int == parent_idx(self@.memories, i as int),
                None => parent_idx(self@.memories, i as int) == -1,
            },
    {
        proof {
            lemma_parent_idx(self@.memories, i as int);
        }
        assert(self@.memories[i as int] == self.memories@[i as int]@);
        match &self.memories[i].parent_memory_id {
            Some(p) => {
                match self.find_index(p.as_str()) {
                    Some(j) => Some(j),
                    None => {
                        proof {
                            lemma_ids_index(self@.memories, p@);
                        }
                        None
                    },
                }
            },
            None => None,
        }
    }

    /// The ancestors of memory `id` (its parent, its parent's parent, and
    /// so on), newest first; none when `id` does not exist.
    pub fn get_ancestors(&self, id: &str) -> (res: Vec<Memory>)
        requires
            self.wf(),
        ensures
            res@.map_values(|m: Memory| m@) == ancestors_result(self@, id@),
    {
        let ghost ms = self@.memories;
        let start = match self.find_index(id) {
            Some(i) => i,
            None => {
                return Vec::new();
            },
        };
        proof {
            lemma_distinct_index(ms);
            lemma_ids_index(ms, id@);
            assert(index_of(ms, id@) == start as int);
        }
        let n = self.memories.len();
        let mut mark: Vec<bool> = Vec::new();
        let mut t: usize = 0;
        while t < n
            invariant
                n == ms.len(),
                t <= n,
                mark.len() == t,
                forall|a: int| 0 <= a < t ==> !mark[a],
            decreases n - t,
        {
            mark.push(false);
            t = t + 1;
        }
        proof {
            assert forall|a: int| is_ancestor(ms, a, start as int) implies a < start by {
                lemma_ancestor_earlier(ms, a, start as int);
            }
        }
        let mut cur = start;
        let mut going = true;
        while going
            invariant
                self.wf(),
                ms == self@.memories,
                n == ms.len(),
                start < n,
                cur < n,
                mark.len() == n,
                cur == start || is_ancestor(ms, cur as int, start as int),
                forall|a: int| 0 <= a < n ==> (mark[a] <==> (is_ancestor(ms, a, start as int) && a >= cur)),
                forall|a: int| 0 <= a < cur ==> (is_ancestor(ms, a, start as int) <==> (cur == start || is_ancestor(ms, a, cur as int)) && (cur != start || is_ancestor(ms, a, start as int))),
                !going ==> forall|a: int| !is_ancestor(ms, a, cur as int),
            decreases cur + (if going { 1int } else { 0int }),
        {
            match self.parent_position(cur) {
                Some(j) => {
                    proof {
                        lemma_parent_idx(ms, cur as int);
                        assert forall|a: int| 0 <= a < n implies (mark[a] || a == j) <==> (is_ancestor(ms, a, start as int) && a >= j) by {
                            if a >= cur {
                            } else if a >= j {
                                if a != j && is_ancestor(ms, a, j as int) {
                                    lemma_ancestor_earlier(ms, a, j as int);
                                }
                            }
                        }
                        assert forall|a: int| 0 <= a < j implies (is_ancestor(ms, a, start as int) <==> is_ancestor(ms, a, j as int)) by {}
                    }
                    mark.set(j, true);
                    cur = j;
                },
                None => {
                    going = false;
                },
            }
        }
        proof {
            assert forall|a: int| 0 <= a < n implies (mark[a] <==> is_ancestor(ms, a, start as int)) by {
                if a < cur && is_ancestor(ms, a, start as int) {
                    if cur != start {
                        assert(is_ancestor(ms, a, cur as int));
                    }
                }
                if is_ancestor(ms, a, start as int) {
                    lemma_ancestor_earlier(ms, a, start as int);
                }
            }
        }
        let mut keys: Vec<RowKey> = Vec::new();
        let mut i: usize = 0;
        while i < n
            invariant
                ms == self@.memories,
                n == ms.len(),
                n == self.memories.len(),
                mark.len() == n,
                forall|a: int| 0 <= a < n ==> (mark[a] <==> is_ancestor(ms, a, start as int)),
                i <= n,
                keys@ == indexed_keys(ms, |a: int| is_ancestor(ms, a, start as int), |a: int| 0u64).take(i as int),
            decreases n - i,
        {
            assert(ms[i as int] == self.memories@[i as int]@);
            keys.push(RowKey { selected: mark[i], group: 0, created_at: self.memories[i].created_at });
            assert(keys@ =~= indexed_keys(ms, |a: int| is_ancestor(ms, a, start as int), |a: int| 0u64).take(i + 1));
            i = i + 1;
        }
        assert(keys@ =~= indexed_keys(ms, |a: int| is_ancestor(ms, a, start as int), |a: int| 0u64));
        self.ordered_rows(&keys, None)
    }

    /// The memories of a tree listing: from memory `root_id`, or from every
    /// memory without a parent, down to `max_depth` levels below (ten when
    /// not given); by depth, then newest first.
    pub fn get_tree(&self, root_id: Option<&str>, max_depth: Option<usize>) -> (res: Vec<Memory>)
        requires
            self.wf(),
        ensures
            res@.map_values(|m: Memory| m@) == tree_result(self@, opt_str(root_id), match max_depth {
                Some(d) => d,
                None => 10usize,
            }),
    {
        let ghost ms = self@.memories;
        let max: usize = match max_depth {
            Some(d) => d,
            None => 10,
        };
        let ghost root = opt_str(root_id);
        let n = self.memories.len();
        let mut depth: Vec<Option<u64>> = Vec::new();
        let mut i: usize = 0;
        while i < n
            invariant
                self.wf(),
                ms == self@.memories,
                n == ms.len(),
                n == self.memories.len(),
                root == opt_str(root_id),
                i <= n,
                depth.len() == i,
                forall|k: int| 0 <= k < i ==> (match #[trigger] depth[k] {
                    Some(d) => tree_depth(ms, root, max, k) == Some(d as nat),
                    None => tree_depth(ms, root, max, k) is None,
                }),
            decreases n - i,
        {
            assert(ms[i as int] == self.memories@[i as int]@);
            let start = match root_id {
                Some(r) => str_eq(self.memories[i].id.as_str(), r),
                None => self.memories[i].parent_memory_id.is_none(),
            };
            let d: Option<u64> = if start {
                Some(0)
            } else {
                match self.parent_position(i) {
                    Some(j) => {
                        proof {
                            lemma_parent_idx(ms, i as int);
                            lemma_tree_depth_bound(ms, root, max, j as int);
                        }
                        match depth[j] {
                            Some(pd) => {
                                if (max as u64) <= 9223372036854775807u64 && (pd as usize) < max {
                                    Some(pd + 1)
                                } else {
                                    None
                                }
                            },
                            None => None,
                        }
                    },
                    None => None,
                }
            };
            proof {
                assert(tree_start(ms[i as int], root) == start);
                if !start {
                    lemma_parent_idx(ms, i as int);
                }
            }
            depth.push(d);
            assert(match depth[i as int] {
                Some(dd) => tree_depth(ms, root, max, i as int) == Some(dd as nat),
                None => tree_depth(ms, root, max, i as int) is None,
            });
            i = i + 1;
        }
        let mut keys: Vec<RowKey> = Vec::new();
        let mut k: usize = 0;
        while k < n
            invariant
                ms == self@.memories,
                n == ms.len(),
                n == self.memories.len(),
                depth.len() == n,
                forall|q: int| 0 <= q < n ==> (match #[trigger] depth[q] {
                    Some(d) => tree_depth(ms, root, max, q) == Some(d as nat),
                    None => tree_depth(ms, root, max, q) is None,
                }),
                k <= n,
                keys@ == indexed_keys(ms, |i: int| tree_depth(ms, root, max, i) is Some, |i: int| match tree_depth(ms, root, max, i) {
                    Some(d) => d as u64,
                    None => 0u64,
                }).take(k as int),
            decreases n - k,
        {
            assert(ms[k as int] == self.memories@[k as int]@);
            let key = match depth[k] {
                Some(d) => RowKey { selected: true, group: d, created_at: self.memories[k].created_at },
                None => RowKey { selected: false, group: 0, created_at: self.memories[k].created_at },
            };
            keys.push(key);
            proof {
                lemma_tree_depth_bound(ms, root, max, k as int);
            }
            assert(keys@ =~= indexed_keys(ms, |i: int| tree_depth(ms, root, max, i) is Some, |i: int| match tree_depth(ms, root, max, i) {
                    Some(d) => d as u64,
                    None => 0u64,
                }).take(k + 1));
            k = k + 1;
        }
        assert(keys@ =~= indexed_keys(ms, |i: int| tree_depth(ms, root, max, i) is Some, |i: int| match tree_depth(ms, root, max, i) {
                    Some(d) => d as u64,
                    None => 0u64,
                }));
        self.ordered_rows(&keys, None)
    }

    /// The history entries linked to memory `memory_id`, in the order they
    /// were linked.
    pub fn get_linked_commands(&self, memory_id: &str) -> (res: Vec<String>)
        ensures
            res@.map_values(|h: String| h@) == linked(self@.links, memory_id@),
    {
        let ghost ls = self@.links;
        let mut res: Vec<String> = Vec::new();
        let mut i: usize = 0;
        while i < self.links.len()
            invariant
                ls == self@.links,
                ls.len() == self.links.len(),
                i <= ls.len(),
                res@.map_values(|h: String| h@) == linked(ls.take(i as int), memory_id@),
            decreases self.links.len() - i,
        {
            assert(ls[i as int] == self.links@[i as int]@);
            assert(ls.take(i + 1).drop_last() =~= ls.take(i as int));
            let ghost prev = res@;
            if str_eq(self.links[i].memory_id.as_str(), memory_id) {
                res.push(self.links[i].history_id.clone());
                assert(res@.map_values(|h: String| h@) =~= prev.map_values(|h: String| h@) + seq![ls[i as int].1]);
            } else {
                assert(res@.map_values(|h: String| h@) =~= prev.map_values(|h: String| h@) + Seq::<Seq<char>>::empty());
            }
            i = i + 1;
        }
        assert(ls.take(ls.len() as int) =~= ls);
        res
    }

    /// The number of history entries linked to memory `memory_id`.
    pub fn get_linked_command_count(&self, memory_id: &str) -> (res: usize)
        ensures
            res == linked(self@.links, memory_id@).len(),
    {
        let ghost ls = self@.links;
        let mut count: usize = 0;
        let mut i: usize = 0;
        while i < self.links.len()
            invariant
                ls == self@.links,
                ls.len() == self.links.len(),
                i <= ls.len(),
                count == linked(ls.take(i as int), memory_id@).len(),
                count <= i,
            decreases self.links.len() - i,
        {
            assert(ls[i as int] == self.links@[i as int]@);
            assert(ls.take(i + 1).drop_last() =~= ls.take(i as int));
            if str_eq(self.links[i].memory_id.as_str(), memory_id) {
                count = count + 1;
            }
            i = i + 1;
        }
        assert(ls.take(ls.len() as int) =~= ls);
        count
    }
}

} // verus!
