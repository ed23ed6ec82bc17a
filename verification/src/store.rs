//! The status report of the record store.
use vstd::prelude::*;
use itertools::Itertools;
use crate::memory::rfc3339_utc;
use crate::memory::format_rfc3339_nanos;
use crate::text::push_char;

verus! {

/// JSON output format for store status
pub struct StoreStatusJson {
    pub hosts: Vec<StoreHostJson>,
}

/// One host of the record store.
pub struct StoreHostJson {
    pub id: String,
    pub is_current: bool,
    pub tags: Vec<StoreTagJson>,
}

/// One tag (sub-store) of a host.
pub struct StoreTagJson {
    pub name: String,
    pub idx: u64,
    pub first: Option<StoreRecordJson>,
    pub last: Option<StoreRecordJson>,
}

/// One record, by id and creation time.
pub struct StoreRecordJson {
    pub id: String,
    pub created: String,
}

/// The `store` family of commands.
pub enum Cmd {
    /// Print the current status of the record store
    Status {
        /// Output in JSON format
        json: bool,
    },
    /// Rebuild a store (eg atuin store rebuild history)
    Rebuild,
    /// Re-encrypt the store with a new key (potential for data loss!)
    Rekey,
    /// Delete all records in the store that cannot be decrypted with the current key
    Purge,
    /// Verify that all records in the store can be decrypted with the current key
    Verify,
    /// Push all records to the remote sync server (one way sync)
    Push,
    /// Pull records from the remote sync server (one way sync)
    Pull,
}

pub struct StoreRecordJsonView {
    pub id: Seq<char>,
    pub created: Seq<char>,
}

pub struct StoreTagJsonView {
    pub name: Seq<char>,
    pub idx: u64,
    pub first: Option<StoreRecordJsonView>,
    pub last: Option<StoreRecordJsonView>,
}

pub struct StoreHostJsonView {
    pub id: Seq<char>,
    pub is_current: bool,
    pub tags: Seq<StoreTagJsonView>,
}

pub open spec fn record_view(r: Option<StoreRecordJson>) -> Option<StoreRecordJsonView> {
    match r {
        Some(x) => Some(x@),
        None => None,
    }
}

impl View for StoreRecordJson {
    type V = StoreRecordJsonView;

    open spec fn view(&self) -> StoreRecordJsonView {
        StoreRecordJsonView { id: self.id@, created: self.created@ }
    }
}

impl View for StoreTagJson {
    type V = StoreTagJsonView;

    open spec fn view(&self) -> StoreTagJsonView {
        StoreTagJsonView {
            name: self.name@,
            idx: self.idx,
            first: record_view(self.first),
            last: record_view(self.last),
        }
    }
}

impl View for StoreHostJson {
    type V = StoreHostJsonView;

    open spec fn view(&self) -> StoreHostJsonView {
        StoreHostJsonView {
            id: self.id@,
            is_current: self.is_current,
            tags: self.tags@.map_values(|t: StoreTagJson| t@),
        }
    }
}

impl View for StoreStatusJson {
    type V = Seq<StoreHostJsonView>;

    open spec fn view(&self) -> Seq<StoreHostJsonView> {
        self.hosts@.map_values(|h: StoreHostJson| h@)
    }
}

/// A record of the store as the status reads it: its id (a UUID as a
/// big-endian `u128`) and its timestamp in nanoseconds since the Unix epoch.
#[derive(Clone, Copy)]
pub struct RecordRef {
    pub id: u128,
    pub timestamp: u64,
}

/// A tag of a host: its name, its last index, and its first and last records.
pub struct TagStatus {
    pub name: String,
    pub idx: u64,
    pub first: Option<RecordRef>,
    pub last: Option<RecordRef>,
}

pub struct TagStatusView {
    pub name: Seq<char>,
    pub idx: u64,
    pub first: Option<RecordRef>,
    pub last: Option<RecordRef>,
}

impl View for TagStatus {
    type V = TagStatusView;

    open spec fn view(&self) -> TagStatusView {
        TagStatusView { name: self.name@, idx: self.idx, first: self.first, last: self.last }
    }
}

/// A host of the store (a UUID as a big-endian `u128`) with its tags.
pub struct HostStatus {
    pub id: u128,
    pub tags: Vec<TagStatus>,
}

pub struct HostStatusView {
    pub id: u128,
    pub tags: Seq<TagStatusView>,
}

impl View for HostStatus {
    type V = HostStatusView;

    open spec fn view(&self) -> HostStatusView {
        HostStatusView { id: self.id, tags: self.tags@.map_values(|t: TagStatus| t@) }
    }
}

// ---------------------------------------------------------------------
// UUID text
// ---------------------------------------------------------------------

/// The lower-case hexadecimal digit of a value below 16.
pub open spec fn hex_char(d: int) -> char {
    if d < 10 {
        (d + 48) as char
    } else {
        (d + 87) as char
    }
}

/// The `k`-th hexadecimal digit of `id`, from the most significant.
pub open spec fn nibble(id: u128, k: int) -> u128 {
    (id >> ((124 - 4 * k) as u32)) & 0xfu128
}

/// The 32 hexadecimal digits of `id`, most significant first.
pub open spec fn hex_digits(id: u128) -> Seq<char> {
    Seq::new(32, |k: int| hex_char(nibble(id, k) as int))
}

/// The hyphenated text of a UUID (`Uuid::as_hyphenated`): its digits in
/// groups of 8, 4, 4, 4 and 12, joined by `-`.
pub open spec fn hyphenated(id: u128) -> Seq<char> {
    let d = hex_digits(id);
    d.subrange(0, 8) + seq!['-'] + d.subrange(8, 12) + seq!['-'] + d.subrange(12, 16) + seq!['-']
        + d.subrange(16, 20) + seq!['-'] + d.subrange(20, 32)
}

fn hex_digit_char(d: u128) -> (c: char)
    requires
        d < 16,
    ensures
        c == hex_char(d as int),
{
    let b = d as u8;
    if b < 10 {
        (48u8 + b) as char
    } else {
        (87u8 + b) as char
    }
}

fn push_chars(s: &mut String, cs: &Vec<char>, lo: usize, hi: usize)
    requires
        lo <= hi <= cs.len(),
    ensures
        final(s)@ == old(s)@ + cs@.subrange(lo as int, hi as int),
{
    let ghost start = s@;
    let mut k = lo;
    while k < hi
        invariant
            lo <= k <= hi <= cs.len(),
            s@ == start + cs@.subrange(lo as int, k as int),
        decreases hi - k,
    {
        push_char(s, cs[k]);
        k = k + 1;
        assert(s@ =~= start + cs@.subrange(lo as int, k as int));
    }
}

/// The hyphenated text of a UUID given as a big-endian `u128`.
pub fn uuid_hyphenated(id: u128) -> (res: String)
    ensures
        res@ == hyphenated(id),
{
    let mut digits: Vec<char> = Vec::new();
    let mut k: u32 = 0;
    while k < 32
        invariant
            k <= 32,
            digits@ == hex_digits(id).take(k as int),
        decreases 32 - k,
    {
        let sh: u32 = 124 - 4 * k;
        let x = id >> sh;
        let d = x & 0xfu128;
        assert(d < 16) by (bit_vector)
            requires
                d == x & 0xfu128,
        ;
        assert(d == nibble(id, k as int));
        digits.push(hex_digit_char(d));
        k = k + 1;
        assert(digits@ =~= hex_digits(id).take(k as int));
    }
    assert(digits@ =~= hex_digits(id));
    let mut s = String::new();
    push_chars(&mut s, &digits, 0, 8);
    push_char(&mut s, '-');
    push_chars(&mut s, &digits, 8, 12);
    push_char(&mut s, '-');
    push_chars(&mut s, &digits, 12, 16);
    push_char(&mut s, '-');
    push_chars(&mut s, &digits, 16, 20);
    push_char(&mut s, '-');
    push_chars(&mut s, &digits, 20, 32);
    assert(s@ =~= hyphenated(id));
    s
}

// ---------------------------------------------------------------------
// Order
// ---------------------------------------------------------------------

/// `p` lists each position below `n` exactly once.
pub open spec fn is_permutation(p: Seq<usize>, n: int) -> bool {
    &&& p.len() == n
    &&& forall|i: int| 0 <= i < n ==> (#[trigger] p[i]) < n
    &&& forall|i: int, j: int| 0 <= i < j < n ==> #[trigger] p[i] != #[trigger] p[j]
}

/// `p` lists the positions of `ids` by increasing id, equal ids in the order
/// of their positions (a stable sort).
pub open spec fn id_sorted(ids: Seq<u128>, p: Seq<usize>) -> bool {
    &&& is_permutation(p, ids.len() as int)
    &&& forall|i: int, j: int|
        #![trigger p[i], p[j]]
        0 <= i < j < p.len() ==> ids[p[i] as int] < ids[p[j] as int] || (ids[p[i] as int]
            == ids[p[j] as int] && p[i] < p[j])
}

/// The order of `String`'s `Ord`: lexicographic by bytes, which for UTF-8
/// is lexicographic by character code.
pub open spec fn text_lt(a: Seq<char>, b: Seq<char>) -> bool
    decreases a.len(),
{
    if a.len() == 0 {
        b.len() > 0
    } else if b.len() == 0 {
        false
    } else if a[0] != b[0] {
        (a[0] as int) < (b[0] as int)
    } else {
        text_lt(a.drop_first(), b.drop_first())
    }
}

/// `p` lists the positions of `names` in increasing text order, equal names
/// in the order of their positions (a stable sort).
pub open spec fn name_sorted(names: Seq<Seq<char>>, p: Seq<usize>) -> bool {
    &&& is_permutation(p, names.len() as int)
    &&& forall|i: int, j: int|
        #![trigger p[i], p[j]]
        0 <= i < j < p.len() ==> text_lt(names[p[i] as int], names[p[j] as int]) || (names[p[i] as int]
            == names[p[j] as int] && p[i] < p[j])
}

pub open spec fn host_ids(hosts: Seq<HostStatusView>) -> Seq<u128> {
    hosts.map_values(|h: HostStatusView| h.id)
}

pub open spec fn tag_names(tags: Seq<TagStatusView>) -> Seq<Seq<char>> {
    tags.map_values(|t: TagStatusView| t.name)
}

/// `Itertools::sorted_by_key` over the positions of `hosts`, keyed by the
/// host id: the source sorts with `slice::sort_by_key`, which is stable.
#[verifier::external_body]
fn sort_host_positions(hosts: &Vec<HostStatus>) -> (res: Vec<usize>)
    ensures
        id_sorted(host_ids(hosts@.map_values(|h: HostStatus| h@)), res@),
{
    (0..hosts.len()).sorted_by_key(|i| hosts[*i].id).collect()
}

/// `Itertools::sorted_by_key` over the positions of `tags`, keyed by the tag
/// name (a `String`, ordered by `Ord`); the sort is stable.
#[verifier::external_body]
fn sort_tag_positions(tags: &Vec<TagStatus>) -> (res: Vec<usize>)
    ensures
        name_sorted(tag_names(tags@.map_values(|t: TagStatus| t@)), res@),
{
    (0..tags.len()).sorted_by_key(|i| &tags[*i].name).collect()
}

/// The positions of the hosts in the order the status lists them.
pub fn hosts_in_order(hosts: &Vec<HostStatus>) -> (res: Vec<usize>)
    ensures
        id_sorted(host_ids(hosts@.map_values(|h: HostStatus| h@)), res@),
{
    sort_host_positions(hosts)
}

/// The positions of a host's tags in the order the status lists them.
pub fn tags_in_order(tags: &Vec<TagStatus>) -> (res: Vec<usize>)
    ensures
        name_sorted(tag_names(tags@.map_values(|t: TagStatus| t@)), res@),
{
    sort_tag_positions(tags)
}

/// `before` orders any two distinct positions below `n` one way and not
/// the other.
pub open spec fn one_way(before: spec_fn(usize, usize) -> bool, n: int) -> bool {
    forall|a: usize, b: usize| a < n && b < n && a != b ==> #[trigger] before(a, b) != #[trigger] before(b, a)
}

/// `p` lists positions in `before` order.
pub open spec fn sorted_by(before: spec_fn(usize, usize) -> bool, p: Seq<usize>) -> bool {
    forall|i: int, j: int| #![trigger p[i], p[j]] 0 <= i < j < p.len() ==> before(p[i], p[j])
}

/// A permutation of the positions below `n` lists each of them.
proof fn lemma_permutation_covers(p: Seq<usize>, n: int, j: usize)
    requires
        is_permutation(p, n),
        j < n,
    ensures
        p.contains(j),
{
    if !p.contains(j) {
        let q = p.map_values(|x: usize| if x < j { x } else { (x - 1) as usize });
        assert forall|k: int| 0 <= k < q.len() implies #[trigger] q[k] < n - 1 by {
            assert(p[k] != j);
            assert(p[k] < n);
        }
        assert(q.no_duplicates()) by {
            assert forall|a: int, b: int| 0 <= a < q.len() && 0 <= b < q.len() && a != b implies q[a] != q[b] by {
                assert(p[a] != j && p[b] != j);
                if a < b {
                    assert(p[a] != p[b]);
                } else {
                    assert(p[b] != p[a]);
                }
            }
        }
        crate::order::lemma_distinct_below(q, n - 1);
    }
}

/// Two permutations of the same positions, both in the same one-way order,
/// are the same list.
proof fn lemma_sorted_permutation_unique(before: spec_fn(usize, usize) -> bool, n: int, p: Seq<usize>, q: Seq<usize>, k: int)
    requires
        one_way(before, n),
        is_permutation(p, n),
        is_permutation(q, n),
        sorted_by(before, p),
        sorted_by(before, q),
        0 <= k <= n,
    ensures
        forall|i: int| 0 <= i < k ==> p[i] == q[i],
    decreases k,
{
    if k > 0 {
        lemma_sorted_permutation_unique(before, n, p, q, k - 1);
        let i = k - 1;
        if p[i] != q[i] {
            lemma_permutation_covers(q, n, p[i]);
            lemma_permutation_covers(p, n, q[i]);
            let a = choose|a: int| 0 <= a < q.len() && q[a] == p[i];
            let b = choose|b: int| 0 <= b < p.len() && p[b] == q[i];
            if a < i {
                assert(p[a] == q[a]);
                assert(p[a] != p[i]);
            }
            if b < i {
                assert(p[b] == q[b]);
                assert(q[b] != q[i]);
            }
            assert(a > i && b > i);
            assert(before(q[i], q[a]));
            assert(before(p[i], p[b]));
            assert(p[i] < n && q[i] < n);
        }
    }
}

/// The order of the hosts is determined: every two stable sorts of the
/// same host ids list the positions the same way.
pub proof fn law_host_order_unique(ids: Seq<u128>, p: Seq<usize>, q: Seq<usize>)
    requires
        id_sorted(ids, p),
        id_sorted(ids, q),
    ensures
        p == q,
{
    let n = ids.len() as int;
    let before = |a: usize, b: usize| ids[a as int] < ids[b as int] || (ids[a as int] == ids[b as int] && a < b);
    assert(sorted_by(before, p));
    assert(sorted_by(before, q));
    lemma_sorted_permutation_unique(before, n, p, q, n);
    assert(p =~= q);
}

/// `text_lt` never holds both ways, nor of a text and itself.
proof fn lemma_text_lt_asymmetric(a: Seq<char>, b: Seq<char>)
    ensures
        !(text_lt(a, b) && text_lt(b, a)),
        !text_lt(a, a),
    decreases a.len(),
{
    if a.len() > 0 && b.len() > 0 && a[0] == b[0] {
        lemma_text_lt_asymmetric(a.drop_first(), b.drop_first());
    }
    if a.len() > 0 {
        lemma_text_lt_asymmetric(a.drop_first(), a.drop_first());
    }
}

/// Two different texts are ordered one way by `text_lt`.
proof fn lemma_text_lt_total(a: Seq<char>, b: Seq<char>)
    requires
        a != b,
    ensures
        text_lt(a, b) || text_lt(b, a),
    decreases a.len(),
{
    if a.len() > 0 && b.len() > 0 && a[0] == b[0] {
        if a.drop_first() == b.drop_first() {
            assert(a =~= seq![a[0]] + a.drop_first());
            assert(b =~= seq![b[0]] + b.drop_first());
        }
        lemma_text_lt_total(a.drop_first(), b.drop_first());
    } else if a.len() == 0 && b.len() == 0 {
        assert(a =~= b);
    } else if a.len() > 0 && b.len() > 0 {
        assert(a[0] != b[0]);
        assert((a[0] as int) != (b[0] as int));
    }
}

/// The order of the tags is determined: every two stable sorts of the same
/// tag names list the positions the same way.
pub proof fn law_tag_order_unique(names: Seq<Seq<char>>, p: Seq<usize>, q: Seq<usize>)
    requires
        name_sorted(names, p),
        name_sorted(names, q),
    ensures
        p == q,
{
    let n = names.len() as int;
    let before = |a: usize, b: usize| text_lt(names[a as int], names[b as int]) || (names[a as int]
        == names[b as int] && a < b);
    assert forall|a: usize, b: usize| a < n && b < n && a != b implies #[trigger] before(a, b) != #[trigger] before(b, a) by {
        lemma_text_lt_asymmetric(names[a as int], names[b as int]);
        if names[a as int] != names[b as int] {
            lemma_text_lt_total(names[a as int], names[b as int]);
        } else {
            lemma_text_lt_asymmetric(names[a as int], names[a as int]);
        }
    }
    assert(sorted_by(before, p));
    assert(sorted_by(before, q));
    lemma_sorted_permutation_unique(before, n, p, q, n);
    assert(p =~= q);
}

// ---------------------------------------------------------------------
// The report
// ---------------------------------------------------------------------

/// A record in the report: its hyphenated id and its RFC 3339 creation time.
pub open spec fn record_json(r: RecordRef) -> StoreRecordJsonView {
    StoreRecordJsonView { id: hyphenated(r.id), created: rfc3339_utc(r.timestamp as int) }
}

pub open spec fn opt_record_json(r: Option<RecordRef>) -> Option<StoreRecordJsonView> {
    match r {
        Some(x) => Some(record_json(x)),
        None => None,
    }
}

/// A tag in the report.
pub open spec fn tag_json(t: TagStatusView) -> StoreTagJsonView {
    StoreTagJsonView {
        name: t.name,
        idx: t.idx,
        first: opt_record_json(t.first),
        last: opt_record_json(t.last),
    }
}

/// The tags of a host reported in the order `p`.
pub open spec fn tags_json(tags: Seq<TagStatusView>, p: Seq<usize>) -> Seq<StoreTagJsonView> {
    Seq::new(p.len(), |i: int| tag_json(tags[p[i] as int]))
}

/// `hj` reports host `h`: its hyphenated id, whether it is the current
/// host, and its tags sorted by name.
pub open spec fn host_report(hj: StoreHostJsonView, h: HostStatusView, current: u128) -> bool {
    &&& hj.id == hyphenated(h.id)
    &&& hj.is_current == (h.id == current)
    &&& exists|p: Seq<usize>| #[trigger] name_sorted(tag_names(h.tags), p) && hj.tags == tags_json(h.tags, p)
}

/// `r` reports `hosts`, sorted by host id, with `current` marked.
pub open spec fn status_report(r: Seq<StoreHostJsonView>, hosts: Seq<HostStatusView>, current: u128) -> bool {
    exists|p: Seq<usize>|
        #[trigger] id_sorted(host_ids(hosts), p) && r.len() == p.len() && forall|i: int|
            0 <= i < p.len() ==> host_report(#[trigger] r[i], hosts[p[i] as int], current)
}

fn record_json_of(r: &RecordRef) -> (res: StoreRecordJson)
    ensures
        res@ == record_json(*r),
{
    let created = match format_rfc3339_nanos(r.timestamp as i128) {
        Some(s) => s,
        None => String::new(),
    };
    StoreRecordJson { id: uuid_hyphenated(r.id), created }
}

fn opt_record_json_of(r: &Option<RecordRef>) -> (res: Option<StoreRecordJson>)
    ensures
        record_view(res) == opt_record_json(*r),
{
    match r {
        Some(x) => Some(record_json_of(x)),
        None => None,
    }
}

fn tag_json_of(t: &TagStatus) -> (res: StoreTagJson)
    ensures
        res@ == tag_json(t@),
{
    StoreTagJson {
        name: t.name.clone(),
        idx: t.idx,
        first: opt_record_json_of(&t.first),
        last: opt_record_json_of(&t.last),
    }
}

/// The report of one host, its tags sorted by name.
pub fn host_json(h: &HostStatus, current: u128) -> (res: StoreHostJson)
    ensures
        host_report(res@, h@, current),
{
    let order = tags_in_order(&h.tags);
    let ghost tv = h.tags@.map_values(|t: TagStatus| t@);
    let mut tags: Vec<StoreTagJson> = Vec::new();
    let mut k: usize = 0;
    while k < order.len()
        invariant
            tv == h.tags@.map_values(|t: TagStatus| t@),
            name_sorted(tag_names(tv), order@),
            k <= order.len(),
            tags@.map_values(|t: StoreTagJson| t@) == tags_json(tv, order@).take(k as int),
        decreases order.len() - k,
    {
        let pos = order[k];
        assert(pos < h.tags.len());
        let tj = tag_json_of(&h.tags[pos]);
        assert(tv[pos as int] == h.tags@[pos as int]@);
        assert(tj@ == tags_json(tv, order@)[k as int]);
        let ghost before = tags@.map_values(|t: StoreTagJson| t@);
        tags.push(tj);
        assert(tags@.map_values(|t: StoreTagJson| t@) =~= before.push(tj@));
        k = k + 1;
        assert(tags@.map_values(|t: StoreTagJson| t@) =~= tags_json(tv, order@).take(k as int));
    }
    let res = StoreHostJson { id: uuid_hyphenated(h.id), is_current: h.id == current, tags };
    assert(res@.tags =~= tags_json(tv, order@));
    assert(name_sorted(tag_names(h@.tags), order@) && res@.tags == tags_json(h@.tags, order@));
    res
}

impl Cmd {
    /// The status report of the record store: every host sorted by id, the
    /// current one marked, each with its tags sorted by name and the first
    /// and last record of each tag.
    pub fn status(&self, hosts: &Vec<HostStatus>, current: u128) -> (res: StoreStatusJson)
        ensures
            status_report(res@, hosts@.map_values(|h: HostStatus| h@), current),
    {
        let order = hosts_in_order(hosts);
        let ghost hv = hosts@.map_values(|h: HostStatus| h@);
        let mut out: Vec<StoreHostJson> = Vec::new();
        let mut k: usize = 0;
        while k < order.len()
            invariant
                hv == hosts@.map_values(|h: HostStatus| h@),
                id_sorted(host_ids(hv), order@),
                k <= order.len(),
                out.len() == k,
                forall|i: int| 0 <= i < k ==> host_report(#[trigger] out@[i]@, hv[order@[i] as int], current),
            decreases order.len() - k,
        {
            let pos = order[k];
            assert(pos < hosts.len());
            let hj = host_json(&hosts[pos], current);
            out.push(hj);
            k = k + 1;
        }
        let res = StoreStatusJson { hosts: out };
        assert(res@.len() == order@.len());
        assert(forall|i: int| 0 <= i < order@.len() ==> #[trigger] res@[i] == out@[i]@);
        assert(id_sorted(host_ids(hv), order@) && res@.len() == order@.len() && forall|i: int|
            0 <= i < order@.len() ==> host_report(#[trigger] res@[i], hv[order@[i] as int], current));
        res
    }
}

} // verus!
