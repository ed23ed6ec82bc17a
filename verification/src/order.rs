//! Selecting the rows a query returns, in the order the query asks for.
//!
//! Every listing of the memory store is "the rows that pass a filter,
//! ordered by a key, cut to a limit". The key is a group (ascending; the
//! depth in a tree listing, zero elsewhere), then the creation time
//! (descending), then the position of the row in the table (descending,
//! so that of two rows created at the same instant the later one comes
//! first). The key is a strict total order on rows, so the result is
//! fully determined by the filter, the keys and the limit.
use vstd::prelude::*;

verus! {

/// The sort key of one row, and whether the row passes the filter.
#[derive(Clone, Copy)]
pub struct RowKey {
    pub selected: bool,
    pub group: u64,
    pub created_at: i64,
}

/// Row `i` comes before row `j` in a result.
pub open spec fn precedes(keys: Seq<RowKey>, i: int, j: int) -> bool {
    ||| keys[i].group < keys[j].group
    ||| keys[i].group == keys[j].group && keys[i].created_at > keys[j].created_at
    ||| keys[i].group == keys[j].group && keys[i].created_at == keys[j].created_at && i > j
}

/// `sel` lists row indices: rows that pass the filter, in key order, every
/// row left out coming after every row listed, and as many rows as the
/// limit allows.
pub open spec fn is_ordered_selection(keys: Seq<RowKey>, limit: Option<usize>, sel: Seq<usize>) -> bool {
    &&& forall|k: int| 0 <= k < sel.len() ==> #[trigger] sel[k] < keys.len() && keys[sel[k] as int].selected
    &&& forall|k: int, l: int|
        0 <= k < l < sel.len() ==> precedes(keys, #[trigger] sel[k] as int, #[trigger] sel[l] as int)
    &&& forall|j: int, k: int|
        #![trigger keys[j], sel[k]]
        0 <= j < keys.len() && keys[j].selected && !sel.contains(j as usize) && 0 <= k < sel.len()
            ==> precedes(keys, sel[k] as int, j)
    &&& match limit {
        None => forall|j: int| 0 <= j < keys.len() && keys[j].selected ==> sel.contains(j as usize),
        Some(l) => sel.len() <= l && (sel.len() < l ==> forall|j: int|
            0 <= j < keys.len() && keys[j].selected ==> sel.contains(j as usize)),
    }
}

/// The rows a query returns (see [`is_ordered_selection`]; there is exactly
/// one such list, by [`lemma_selection_unique`]).
pub open spec fn ordered_selection(keys: Seq<RowKey>, limit: Option<usize>) -> Seq<usize> {
    choose|sel: Seq<usize>| is_ordered_selection(keys, limit, sel)
}

proof fn lemma_selection_distinct(keys: Seq<RowKey>, limit: Option<usize>, a: Seq<usize>)
    requires
        is_ordered_selection(keys, limit, a),
    ensures
        a.no_duplicates(),
{
    assert forall|k: int, l: int| 0 <= k < a.len() && 0 <= l < a.len() && k != l implies a[k] != a[l] by {
        if k < l {
            assert(precedes(keys, a[k] as int, a[l] as int));
        } else {
            assert(precedes(keys, a[l] as int, a[k] as int));
        }
    }
}

/// Every row of `a` is a row of `b`.
proof fn lemma_selection_subset(keys: Seq<RowKey>, limit: Option<usize>, a: Seq<usize>, b: Seq<usize>)
    requires
        is_ordered_selection(keys, limit, a),
        is_ordered_selection(keys, limit, b),
    ensures
        forall|x: usize| a.contains(x) ==> b.contains(x),
{
    assert forall|x: usize| a.contains(x) implies b.contains(x) by {
        if !b.contains(x) {
            let ka = choose|k: int| 0 <= k < a.len() && a[k] == x;
            assert(keys[x as int].selected);
            let lim = limit.unwrap();
            assert(b.len() == lim);
            // every row of b is a row of a
            assert forall|y: usize| b.contains(y) implies a.contains(y) by {
                if !a.contains(y) {
                    let kb = choose|k: int| 0 <= k < b.len() && b[k] == y;
                    assert(keys[y as int].selected);
                    assert(precedes(keys, a[ka] as int, y as int));
                    assert(precedes(keys, b[kb] as int, x as int));
                }
            }
            lemma_selection_distinct(keys, limit, a);
            lemma_selection_distinct(keys, limit, b);
            a.unique_seq_to_set();
            b.unique_seq_to_set();
            assert(b.to_set().insert(x).subset_of(a.to_set()));
            vstd::set_lib::lemma_len_subset(b.to_set().insert(x), a.to_set());
            assert(!b.to_set().contains(x));
        }
    }
}

proof fn lemma_sorted_prefix_equal(keys: Seq<RowKey>, limit: Option<usize>, a: Seq<usize>, b: Seq<usize>, k: int)
    requires
        is_ordered_selection(keys, limit, a),
        is_ordered_selection(keys, limit, b),
        a.len() == b.len(),
        forall|x: usize| a.contains(x) <==> b.contains(x),
        0 <= k <= a.len(),
    ensures
        forall|i: int| 0 <= i < k ==> a[i] == b[i],
    decreases k,
{
    if k > 0 {
        lemma_sorted_prefix_equal(keys, limit, a, b, k - 1);
        let i = k - 1;
        lemma_selection_distinct(keys, limit, a);
        lemma_selection_distinct(keys, limit, b);
        assert(a.contains(a[i]));
        assert(b.contains(b[i]));
        let p = choose|p: int| 0 <= p < b.len() && b[p] == a[i];
        let q = choose|q: int| 0 <= q < a.len() && a[q] == b[i];
        if p < i {
            assert(a[p] == b[p]);
        }
        if q < i {
            assert(a[q] == b[q]);
        }
        if a[i] != b[i] {
            assert(p != i);
            assert(q != i);
            assert(precedes(keys, b[i] as int, b[p] as int));
            assert(precedes(keys, a[i] as int, a[q] as int));
        }
    }
}

/// A query's result is determined: two lists that both meet
/// [`is_ordered_selection`] for the same rows and limit are equal.
pub proof fn lemma_selection_unique(keys: Seq<RowKey>, limit: Option<usize>, a: Seq<usize>, b: Seq<usize>)
    requires
        is_ordered_selection(keys, limit, a),
        is_ordered_selection(keys, limit, b),
    ensures
        a == b,
{
    lemma_selection_subset(keys, limit, a, b);
    lemma_selection_subset(keys, limit, b, a);
    lemma_selection_distinct(keys, limit, a);
    lemma_selection_distinct(keys, limit, b);
    a.unique_seq_to_set();
    b.unique_seq_to_set();
    assert(a.to_set() =~= b.to_set());
    lemma_sorted_prefix_equal(keys, limit, a, b, a.len() as int);
    assert(a =~= b);
}

/// `n` distinct indices below `bound` number at most `bound`.
pub proof fn lemma_distinct_below(s: Seq<usize>, bound: int)
    requires
        s.no_duplicates(),
        bound >= 0,
        forall|k: int| 0 <= k < s.len() ==> #[trigger] s[k] < bound,
    ensures
        s.len() <= bound,
{
    let m = s.map_values(|x: usize| x as int);
    assert(m.no_duplicates()) by {
        assert forall|i: int, j: int| 0 <= i < m.len() && 0 <= j < m.len() && i != j implies m[i] != m[j] by {
            assert(s[i] != s[j]);
        }
    }
    m.unique_seq_to_set();
    {
        vstd::set_lib::lemma_int_range(0, bound);
        assert(m.to_set().subset_of(vstd::set_lib::set_int_range(0, bound))) by {
            assert forall|x: int| m.to_set().contains(x) implies 0 <= x < bound by {
                let k = choose|k: int| 0 <= k < m.len() && m[k] == x;
                assert(s[k] < bound);
            }
        }
        vstd::set_lib::lemma_len_subset(m.to_set(), vstd::set_lib::set_int_range(0, bound));
    }
}

/// Row `c` may come next after the rows listed so far (`last` is the last
/// of them, when there is one).
spec fn next_candidate(keys: Seq<RowKey>, has_last: bool, last: usize, c: int) -> bool {
    keys[c].selected && (!has_last || precedes(keys, last as int, c))
}

/// Distinct indices below `n` that include every index below `n` number `n`.
pub proof fn lemma_covering_len(s: Seq<usize>, n: int)
    requires
        s.no_duplicates(),
        0 <= n <= usize::MAX,
        forall|k: int| 0 <= k < s.len() ==> #[trigger] s[k] < n,
        forall|j: usize| j < n ==> s.contains(j),
    ensures
        s.len() == n,
{
    lemma_distinct_below(s, n);
    let m = s.map_values(|x: usize| x as int);
    assert(m.no_duplicates()) by {
        assert forall|i: int, j: int| 0 <= i < m.len() && 0 <= j < m.len() && i != j implies m[i] != m[j] by {
            assert(s[i] != s[j]);
        }
    }
    m.unique_seq_to_set();
    vstd::set_lib::lemma_int_range(0, n);
    assert(vstd::set_lib::set_int_range(0, n).subset_of(m.to_set())) by {
        assert forall|x: int| vstd::set_lib::set_int_range(0, n).contains(x) implies m.to_set().contains(x) by {
            assert(s.contains(x as usize));
            let k = choose|k: int| 0 <= k < s.len() && s[k] == x as usize;
            assert(m[k] == x);
        }
    }
    vstd::set_lib::lemma_len_subset(vstd::set_lib::set_int_range(0, n), m.to_set());
}

/// Rows listed in key order.
pub open spec fn in_key_order(keys: Seq<RowKey>, s: Seq<usize>) -> bool {
    forall|a: int, b: int| 0 <= a < b < s.len() ==> precedes(keys, #[trigger] s[a] as int, #[trigger] s[b] as int)
}

/// The key order is a strict total order on rows.
proof fn lemma_precedes_order(keys: Seq<RowKey>, i: int, j: int, k: int)
    ensures
        i != j ==> (precedes(keys, i, j) || precedes(keys, j, i)),
        !(precedes(keys, i, j) && precedes(keys, j, i)),
        !precedes(keys, i, i),
        precedes(keys, i, j) && precedes(keys, j, k) ==> precedes(keys, i, k),
{
}

/// `s` with row `j` put in its place in key order.
pub open spec fn insert_row(keys: Seq<RowKey>, s: Seq<usize>, j: usize) -> Seq<usize>
    decreases s.len(),
{
    if s.len() == 0 {
        seq![j]
    } else if precedes(keys, j as int, s[0] as int) {
        seq![j] + s
    } else {
        seq![s[0]] + insert_row(keys, s.drop_first(), j)
    }
}

proof fn lemma_insert_row(keys: Seq<RowKey>, s: Seq<usize>, j: usize)
    requires
        in_key_order(keys, s),
        !s.contains(j),
    ensures
        in_key_order(keys, insert_row(keys, s, j)),
        insert_row(keys, s, j).len() == s.len() + 1,
        forall|x: usize| #[trigger] insert_row(keys, s, j).contains(x) <==> (s.contains(x) || x == j),
    decreases s.len(),
{
    let r = insert_row(keys, s, j);
    if s.len() == 0 {
        assert forall|x: usize| #[trigger] r.contains(x) <==> (s.contains(x) || x == j) by {
            if r.contains(x) {
                let k = choose|k: int| 0 <= k < r.len() && r[k] == x;
                assert(k == 0);
            }
            if x == j {
                assert(r[0] == j);
            }
        }
    } else if precedes(keys, j as int, s[0] as int) {
        assert forall|a: int, b: int| 0 <= a < b < r.len() implies precedes(keys, #[trigger] r[a] as int, #[trigger] r[b] as int) by {
            if a == 0 {
                assert(r[b] == s[b - 1]);
                if b > 1 {
                    assert(precedes(keys, s[0] as int, s[b - 1] as int));
                    lemma_precedes_order(keys, j as int, s[0] as int, s[b - 1] as int);
                }
            } else {
                assert(r[a] == s[a - 1] && r[b] == s[b - 1]);
            }
        }
        assert forall|x: usize| #[trigger] r.contains(x) <==> (s.contains(x) || x == j) by {
            if r.contains(x) {
                let k = choose|k: int| 0 <= k < r.len() && r[k] == x;
                if k > 0 {
                    assert(s[k - 1] == x);
                }
            }
            if s.contains(x) {
                let k = choose|k: int| 0 <= k < s.len() && s[k] == x;
                assert(r[k + 1] == x);
            }
            if x == j {
                assert(r[0] == j);
            }
        }
    } else {
        let t = s.drop_first();
        assert(in_key_order(keys, t)) by {
            assert forall|a: int, b: int| 0 <= a < b < t.len() implies precedes(keys, #[trigger] t[a] as int, #[trigger] t[b] as int) by {
                assert(t[a] == s[a + 1] && t[b] == s[b + 1]);
            }
        }
        assert(!t.contains(j)) by {
            if t.contains(j) {
                let k = choose|k: int| 0 <= k < t.len() && t[k] == j;
                assert(s[k + 1] == j);
            }
        }
        lemma_insert_row(keys, t, j);
        let rt = insert_row(keys, t, j);
        assert(r == seq![s[0]] + rt);
        assert(s[0] != j) by {
            assert(s[0] == s[0]);
        }
        lemma_precedes_order(keys, j as int, s[0] as int, 0);
        assert(precedes(keys, s[0] as int, j as int));
        assert forall|a: int, b: int| 0 <= a < b < r.len() implies precedes(keys, #[trigger] r[a] as int, #[trigger] r[b] as int) by {
            if a == 0 {
                assert(r[b] == rt[b - 1]);
                assert(rt.contains(rt[b - 1]));
                if rt[b - 1] != j {
                    assert(t.contains(rt[b - 1]));
                    let k = choose|k: int| 0 <= k < t.len() && t[k] == rt[b - 1];
                    assert(s[k + 1] == rt[b - 1]);
                    assert(precedes(keys, s[0] as int, s[k + 1] as int));
                }
            } else {
                assert(r[a] == rt[a - 1] && r[b] == rt[b - 1]);
            }
        }
        assert forall|x: usize| #[trigger] r.contains(x) <==> (s.contains(x) || x == j) by {
            if r.contains(x) {
                let k = choose|k: int| 0 <= k < r.len() && r[k] == x;
                if k > 0 {
                    assert(rt[k - 1] == x);
                    assert(rt.contains(x));
                    if x != j {
                        assert(t.contains(x));
                        let q = choose|q: int| 0 <= q < t.len() && t[q] == x;
                        assert(s[q + 1] == x);
                    }
                } else {
                    assert(s[0] == x);
                }
            }
            if s.contains(x) {
                let k = choose|k: int| 0 <= k < s.len() && s[k] == x;
                if k == 0 {
                    assert(r[0] == x);
                } else {
                    assert(t[k - 1] == x);
                    assert(rt.contains(x));
                    let q = choose|q: int| 0 <= q < rt.len() && rt[q] == x;
                    assert(r[q + 1] == x);
                }
            }
            if x == j {
                assert(rt.contains(j));
                let q = choose|q: int| 0 <= q < rt.len() && rt[q] == j;
                assert(r[q + 1] == j);
            }
        }
    }
}

/// The selected rows among the first `n`, in key order.
pub open spec fn sorted_rows(keys: Seq<RowKey>, n: int) -> Seq<usize>
    decreases n,
{
    if n <= 0 {
        Seq::empty()
    } else if keys[n - 1].selected {
        insert_row(keys, sorted_rows(keys, n - 1), (n - 1) as usize)
    } else {
        sorted_rows(keys, n - 1)
    }
}

proof fn lemma_sorted_rows(keys: Seq<RowKey>, n: int)
    requires
        0 <= n <= keys.len(),
        n <= usize::MAX + 1,
    ensures
        in_key_order(keys, sorted_rows(keys, n)),
        forall|x: usize| #[trigger] sorted_rows(keys, n).contains(x) <==> (x < n && keys[x as int].selected),
    decreases n,
{
    if n > 0 {
        lemma_sorted_rows(keys, n - 1);
        let prev = sorted_rows(keys, n - 1);
        if keys[n - 1].selected {
            assert(!prev.contains((n - 1) as usize));
            lemma_insert_row(keys, prev, (n - 1) as usize);
        }
    }
}

/// For every filter, key and limit there is a list of rows that a query
/// returns: the selected rows in key order, cut to the limit.
pub proof fn lemma_selection_exists(keys: Seq<RowKey>, limit: Option<usize>)
    requires
        keys.len() <= usize::MAX + 1,
    ensures
        is_ordered_selection(keys, limit, ordered_selection(keys, limit)),
{
    let n = keys.len() as int;
    lemma_sorted_rows(keys, n);
    let all = sorted_rows(keys, n);
    let cut = match limit {
        None => all,
        Some(l) => if all.len() <= l { all } else { all.take(l as int) },
    };
    assert forall|k: int| 0 <= k < cut.len() implies #[trigger] cut[k] < keys.len() && keys[cut[k] as int].selected by {
        assert(cut[k] == all[k]);
        assert(all.contains(all[k]));
    }
    assert forall|k: int, l: int| 0 <= k < l < cut.len() implies precedes(keys, #[trigger] cut[k] as int, #[trigger] cut[l] as int) by {
        assert(cut[k] == all[k] && cut[l] == all[l]);
    }
    assert forall|j: int, k: int|
        #![trigger keys[j], cut[k]]
        0 <= j < keys.len() && keys[j].selected && !cut.contains(j as usize) && 0 <= k < cut.len()
            implies precedes(keys, cut[k] as int, j) by {
        assert(all.contains(j as usize));
        let q = choose|q: int| 0 <= q < all.len() && all[q] == j as usize;
        if q < cut.len() {
            assert(cut[q] == j as usize);
        }
        assert(cut[k] == all[k]);
    }
    match limit {
        None => {},
        Some(l) => {
            if cut.len() < l {
                assert(cut == all);
            }
        },
    }
    assert(is_ordered_selection(keys, limit, cut));
}

/// A query with a limit returns the first rows of the same query without
/// one.
pub proof fn lemma_selection_prefix(keys: Seq<RowKey>, l: usize)
    requires
        keys.len() <= usize::MAX + 1,
    ensures
        ordered_selection(keys, Some(l)) == ordered_selection(keys, None).take(
            if ordered_selection(keys, None).len() <= l { ordered_selection(keys, None).len() as int } else { l as int },
        ),
{
    lemma_selection_exists(keys, None);
    lemma_selection_exists(keys, Some(l));
    let all = ordered_selection(keys, None);
    let m = if all.len() <= l { all.len() as int } else { l as int };
    let cut = all.take(m);
    assert forall|k: int| 0 <= k < cut.len() implies #[trigger] cut[k] < keys.len() && keys[cut[k] as int].selected by {
        assert(cut[k] == all[k]);
    }
    assert forall|k: int, q: int| 0 <= k < q < cut.len() implies precedes(keys, #[trigger] cut[k] as int, #[trigger] cut[q] as int) by {
        assert(cut[k] == all[k] && cut[q] == all[q]);
    }
    assert forall|j: int, k: int|
        #![trigger keys[j], cut[k]]
        0 <= j < keys.len() && keys[j].selected && !cut.contains(j as usize) && 0 <= k < cut.len()
            implies precedes(keys, cut[k] as int, j) by {
        assert(all.contains(j as usize));
        let q = choose|q: int| 0 <= q < all.len() && all[q] == j as usize;
        if q < cut.len() {
            assert(cut[q] == j as usize);
        }
        assert(cut[k] == all[k]);
    }
    if cut.len() < l {
        assert(cut =~= all);
    }
    assert(is_ordered_selection(keys, Some(l), cut));
    lemma_selection_unique(keys, Some(l), ordered_selection(keys, Some(l)), cut);
}

fn below_limit(len: usize, limit: Option<usize>) -> (res: bool)
    ensures
        res == match limit {
            None => true,
            Some(l) => len < l,
        },
{
    match limit {
        None => true,
        Some(l) => len < l,
    }
}

fn row_precedes(keys: &Vec<RowKey>, i: usize, j: usize) -> (res: bool)
    requires
        i < keys.len(),
        j < keys.len(),
    ensures
        res == precedes(keys@, i as int, j as int),
{
    let a = keys[i];
    let b = keys[j];
    a.group < b.group || (a.group == b.group && (a.created_at > b.created_at || (
    a.created_at == b.created_at && i > j)))
}

/// The row indices a query returns: the selected rows in key order, at
/// most `limit` of them.
pub fn select_rows(keys: &Vec<RowKey>, limit: Option<usize>) -> (res: Vec<usize>)
    ensures
        is_ordered_selection(keys@, limit, res@),
        res@ == ordered_selection(keys@, limit),
{
    let n = keys.len();
    let mut res: Vec<usize> = Vec::new();
    let mut done = false;
    while !done && below_limit(res.len(), limit)
        invariant
            n == keys@.len(),
            res.len() <= n,
            forall|k: int| 0 <= k < res.len() ==> #[trigger] res[k] < n && keys@[res[k] as int].selected,
            forall|k: int, l: int|
                0 <= k < l < res.len() ==> precedes(keys@, #[trigger] res[k] as int, #[trigger] res[l] as int),
            res.len() > 0 ==> forall|j: int|
                0 <= j < n && keys@[j].selected && !precedes(keys@, res@.last() as int, j)
                    ==> res@.contains(j as usize),
            done ==> forall|j: int| 0 <= j < n && keys@[j].selected ==> res@.contains(j as usize),
            match limit {
                None => true,
                Some(l) => res.len() <= l,
            },
        decreases (n - res.len()) + (if done { 0int } else { 1int }),
    {
        let has_last = res.len() > 0;
        let last: usize = if has_last { res[res.len() - 1] } else { 0 };
        let mut best: Option<usize> = None;
        let mut j: usize = 0;
        while j < n
            invariant
                n == keys@.len(),
                j <= n,
                has_last == (res.len() > 0),
                has_last ==> last == res@.last() && last < n,
                best.is_none() ==> forall|c: int| 0 <= c < j ==> !next_candidate(keys@, has_last, last, c),
                best.is_some() ==> best.unwrap() < j && next_candidate(keys@, has_last, last, best.unwrap() as int),
                best.is_some() ==> forall|c: int| 0 <= c < j && c != best.unwrap() && next_candidate(keys@, has_last, last, c)
                    ==> precedes(keys@, best.unwrap() as int, c),
            decreases n - j,
        {
            let cand = keys[j].selected && (!has_last || row_precedes(keys, last, j));
            assert(cand == next_candidate(keys@, has_last, last, j as int));
            if cand {
                match best {
                    None => {
                        best = Some(j);
                    },
                    Some(b) => {
                        if row_precedes(keys, j, b) {
                            best = Some(j);
                        }
                    },
                }
            }
            j = j + 1;
        }
        match best {
            None => {
                assert forall|j: int| 0 <= j < n && keys@[j].selected implies res@.contains(j as usize) by {
                    assert(!next_candidate(keys@, has_last, last, j));
                }
                done = true;
            },
            Some(b) => {
                let ghost old_res = res@;
                assert forall|k: int| 0 <= k < old_res.len() implies #[trigger] old_res[k] != b by {
                    if k < old_res.len() - 1 {
                        assert(precedes(keys@, old_res[k] as int, old_res.last() as int));
                    }
                }
                proof {
                    let s = old_res.push(b);
                    assert(s.no_duplicates()) by {
                        assert forall|x: int, y: int| 0 <= x < s.len() && 0 <= y < s.len() && x != y implies s[x] != s[y] by {
                            if x < old_res.len() && y < old_res.len() {
                                if x < y {
                                    assert(precedes(keys@, old_res[x] as int, old_res[y] as int));
                                } else {
                                    assert(precedes(keys@, old_res[y] as int, old_res[x] as int));
                                }
                            } else if x < old_res.len() {
                                assert(s[x] == old_res[x]);
                            } else if y < old_res.len() {
                                assert(s[y] == old_res[y]);
                            }
                        }
                    }
                    assert forall|k: int| 0 <= k < s.len() implies #[trigger] s[k] < n by {
                        if k < old_res.len() {
                            assert(s[k] == old_res[k]);
                        }
                    }
                    lemma_distinct_below(s, n as int);
                }
                res.push(b);
                assert forall|k: int, l: int| 0 <= k < l < res.len() implies precedes(keys@, #[trigger] res[k] as int, #[trigger] res[l] as int) by {
                    if l == res.len() - 1 {
                        if k < old_res.len() - 1 {
                            assert(precedes(keys@, old_res[k] as int, old_res.last() as int));
                        }
                        assert(res[k] == old_res[k]);
                    } else {
                        assert(res[k] == old_res[k]);
                        assert(res[l] == old_res[l]);
                    }
                }
                assert forall|j: int| 0 <= j < n && keys@[j].selected && !precedes(keys@, res@.last() as int, j)
                    implies res@.contains(j as usize) by {
                    if j == b as int {
                        assert(res@[res.len() - 1] == b);
                    } else if has_last && !precedes(keys@, last as int, j) {
                        assert(old_res.contains(j as usize));
                        let k = choose|k: int| 0 <= k < old_res.len() && old_res[k] == j as usize;
                        assert(res@[k] == old_res[k]);
                    } else {
                        assert(precedes(keys@, b as int, j));
                    }
                }
            },
        }
    }
    proof {
        if !done {
            match limit {
                None => {},
                Some(l) => { assert(res.len() == l); },
            }
        }
        assert forall|j: int, k: int|
            #![trigger keys@[j], res@[k]]
            0 <= j < keys@.len() && keys@[j].selected && !res@.contains(j as usize) && 0 <= k < res@.len()
                implies precedes(keys@, res@[k] as int, j) by {
            assert(precedes(keys@, res@.last() as int, j));
            if k < res.len() - 1 {
                assert(precedes(keys@, res@[k] as int, res@.last() as int));
            }
        }
        assert(is_ordered_selection(keys@, limit, res@));
        lemma_selection_unique(keys@, limit, res@, ordered_selection(keys@, limit));
    }
    res
}

} // verus!
