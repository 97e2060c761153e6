//! The due-time cache: channels ordered by the time at which they fall due.

use vstd::prelude::*;
use crate::assoc::{assoc, lemma_assoc_at, lemma_assoc_insert, lemma_assoc_remove};
use crate::registry::{row_ids, Channel, Registry};
use crate::ident::{
    bytes_eq, id_lt, id_rank, lemma_bytes_lt_irreflexive, lemma_bytes_lt_transitive,
    lemma_id_lt_total, ChannelId, Rank,
};

verus! {

/// A channel and the time at which it falls due.
#[derive(Clone, Copy, Debug, PartialEq, Eq)]
pub struct DueEntry {
    pub due_at: u64,
    pub id: ChannelId,
}

/// The order in which entries leave the cache: by due time, and among equal
/// due times by identifier.
pub open spec fn entry_before(a: DueEntry, b: DueEntry) -> bool {
    a.due_at < b.due_at || (a.due_at == b.due_at && id_lt(a.id, b.id))
}

/// Every entry stands before all that follow it.
pub open spec fn sorted(s: Seq<DueEntry>) -> bool {
    forall|i: int, j: int| 0 <= i < j < s.len() ==> entry_before(s[i], s[j])
}

/// The channels of the entries, in their order.
pub open spec fn entry_ids(s: Seq<DueEntry>) -> Seq<ChannelId> {
    s.map_values(|e: DueEntry| e.id)
}

/// The due times of the entries, in their order.
pub open spec fn entry_dues(s: Seq<DueEntry>) -> Seq<u64> {
    s.map_values(|e: DueEntry| e.due_at)
}

/// The entry that the map `m` holds for `id`.
pub open spec fn entry_of(m: Map<ChannelId, u64>, id: ChannelId) -> DueEntry {
    DueEntry { due_at: m[id], id }
}

/// `s` lists exactly the channels of `m` that are due at `now`, each once,
/// in ascending order of due time, equal due times in order of identifier.
pub open spec fn is_due_order(m: Map<ChannelId, u64>, now: u64, s: Seq<ChannelId>) -> bool {
    &&& forall|id: ChannelId| s.contains(id) <==> m.contains_key(id) && m[id] <= now
    &&& forall|i: int, j: int|
        0 <= i < j < s.len() ==> entry_before(entry_of(m, s[i]), entry_of(m, s[j]))
}

/// What is left of `m` once the channels due at `now` are taken out.
pub open spec fn not_yet_due(m: Map<ChannelId, u64>, now: u64) -> Map<ChannelId, u64> {
    Map::new(|id: ChannelId| m.contains_key(id) && m[id] > now, |id: ChannelId| m[id])
}

/// No entry stands before itself.
pub proof fn lemma_entry_before_irreflexive(a: DueEntry)
    ensures
        !entry_before(a, a),
{
    lemma_bytes_lt_irreflexive(a.id@);
}

/// What stands before an entry stands before all that the entry stands before.
pub proof fn lemma_entry_before_transitive(a: DueEntry, b: DueEntry, c: DueEntry)
    requires
        entry_before(a, b),
        entry_before(b, c),
    ensures
        entry_before(a, c),
{
    if a.due_at == b.due_at && b.due_at == c.due_at {
        lemma_bytes_lt_transitive(a.id@, b.id@, c.id@);
    }
}

/// Of two entries only one can stand before the other.
pub proof fn lemma_entry_before_asymmetric(a: DueEntry, b: DueEntry)
    requires
        entry_before(a, b),
    ensures
        !entry_before(b, a),
{
    if entry_before(b, a) {
        lemma_entry_before_transitive(a, b, a);
        lemma_entry_before_irreflexive(a);
    }
}

/// Two sorted sequences that hold the same entries are the same sequence.
pub proof fn lemma_sorted_unique(a: Seq<DueEntry>, b: Seq<DueEntry>)
    requires
        sorted(a),
        sorted(b),
        forall|e: DueEntry| a.contains(e) <==> b.contains(e),
    ensures
        a == b,
    decreases a.len(),
{
    if a.len() == 0 {
        if b.len() > 0 {
            assert(b.contains(b[0]));
        }
        assert(a =~= b);
    } else {
        assert(a.contains(a[0]));
        let j = b.index_of(a[0]);
        assert(b.contains(b[0]));
        let i = a.index_of(b[0]);
        if a[0] != b[0] {
            lemma_entry_before_asymmetric(a[0], b[0]);
        }
        let a1 = a.skip(1);
        let b1 = b.skip(1);
        assert forall|e: DueEntry| a1.contains(e) <==> b1.contains(e) by {
            if a1.contains(e) {
                let p = a1.index_of(e);
                assert(a[p + 1] == e);
                lemma_entry_before_irreflexive(e);
                assert(a.contains(e));
                let q = b.index_of(e);
                assert(b1[q - 1] == e);
            }
            if b1.contains(e) {
                let p = b1.index_of(e);
                assert(b[p + 1] == e);
                lemma_entry_before_irreflexive(e);
                assert(b.contains(e));
                let q = a.index_of(e);
                assert(a1[q - 1] == e);
            }
        }
        assert(sorted(a1)) by {
            assert forall|p: int, q: int| 0 <= p < q < a1.len() implies entry_before(
                a1[p],
                a1[q],
            ) by {
                assert(entry_before(a[p + 1], a[q + 1]));
            }
        }
        assert(sorted(b1)) by {
            assert forall|p: int, q: int| 0 <= p < q < b1.len() implies entry_before(
                b1[p],
                b1[q],
            ) by {
                assert(entry_before(b[p + 1], b[q + 1]));
            }
        }
        lemma_sorted_unique(a1, b1);
        assert(a =~= seq![a[0]] + a1);
        assert(b =~= seq![b[0]] + b1);
    }
}

/// The order in which the due channels of a map leave it is fixed by the map.
pub proof fn lemma_due_order_unique(
    m: Map<ChannelId, u64>,
    now: u64,
    s1: Seq<ChannelId>,
    s2: Seq<ChannelId>,
)
    requires
        is_due_order(m, now, s1),
        is_due_order(m, now, s2),
    ensures
        s1 == s2,
{
    let a = s1.map_values(|id: ChannelId| entry_of(m, id));
    let b = s2.map_values(|id: ChannelId| entry_of(m, id));
    assert forall|e: DueEntry| a.contains(e) <==> b.contains(e) by {
        if a.contains(e) {
            let p = a.index_of(e);
            assert(0 <= p < s1.len() && a[p] == e);
            assert(s1.contains(s1[p]));
            assert(s2.contains(s1[p]));
            let q = s2.index_of(s1[p]);
            assert(0 <= q < s2.len() && s2[q] == s1[p]);
            assert(b[q] == e);
        }
        if b.contains(e) {
            let p = b.index_of(e);
            assert(0 <= p < s2.len() && b[p] == e);
            assert(s2.contains(s2[p]));
            assert(s1.contains(s2[p]));
            let q = s1.index_of(s2[p]);
            assert(0 <= q < s1.len() && s1[q] == s2[p]);
            assert(a[q] == e);
        }
    }
    lemma_sorted_unique(a, b);
    assert(a.len() == s1.len() && b.len() == s2.len());
    assert forall|i: int| 0 <= i < s1.len() implies s1[i] == s2[i] by {
        assert(a[i].id == s1[i]);
        assert(b[i].id == s2[i]);
    }
    assert(s1 =~= s2);
}

/// The channels of `m` that are due at `now`, in the order in which they
/// leave the cache.
pub open spec fn due_order(m: Map<ChannelId, u64>, now: u64) -> Seq<ChannelId> {
    choose|s: Seq<ChannelId>| is_due_order(m, now, s)
}

/// Of two channels that are both due, the one with the earlier due time
/// leaves the cache first.
pub proof fn lemma_earlier_due_pops_first(
    m: Map<ChannelId, u64>,
    now: u64,
    s: Seq<ChannelId>,
    a: ChannelId,
    b: ChannelId,
)
    requires
        is_due_order(m, now, s),
        m.contains_key(a),
        m.contains_key(b),
        m[a] < m[b],
        m[b] <= now,
    ensures
        s.contains(a),
        s.contains(b),
        s.index_of(a) < s.index_of(b),
{
    assert(s.contains(a));
    assert(s.contains(b));
    let i = s.index_of(a);
    let j = s.index_of(b);
    if j < i {
        assert(entry_before(entry_of(m, s[j]), entry_of(m, s[i])));
    }
}

/// A channel is listed at most once among the due channels.
pub proof fn lemma_due_order_lists_once(m: Map<ChannelId, u64>, now: u64, s: Seq<ChannelId>)
    requires
        is_due_order(m, now, s),
    ensures
        s.no_duplicates(),
{
    assert forall|i: int, j: int| 0 <= i < s.len() && 0 <= j < s.len() && i != j implies s[i]
        != s[j] by {
        if s[i] == s[j] {
            lemma_entry_before_irreflexive(entry_of(m, s[i]));
            if i < j {
                assert(entry_before(entry_of(m, s[i]), entry_of(m, s[j])));
            } else {
                assert(entry_before(entry_of(m, s[j]), entry_of(m, s[i])));
            }
        }
    }
}

/// Of two entries for different channels one stands before the other.
pub proof fn lemma_entry_before_total(a: DueEntry, b: DueEntry)
    requires
        a.id != b.id,
    ensures
        entry_before(a, b) || entry_before(b, a),
{
    lemma_id_lt_total(a.id, b.id);
}

proof fn lemma_ids_of_insert(s: Seq<DueEntry>, i: int, e: DueEntry)
    requires
        0 <= i <= s.len(),
    ensures
        entry_ids(s.insert(i, e)) == entry_ids(s).insert(i, e.id),
        entry_dues(s.insert(i, e)) == entry_dues(s).insert(i, e.due_at),
{
    assert(entry_ids(s.insert(i, e)) =~= entry_ids(s).insert(i, e.id));
    assert(entry_dues(s.insert(i, e)) =~= entry_dues(s).insert(i, e.due_at));
}

proof fn lemma_ids_of_remove(s: Seq<DueEntry>, i: int)
    requires
        0 <= i < s.len(),
    ensures
        entry_ids(s.remove(i)) == entry_ids(s).remove(i),
        entry_dues(s.remove(i)) == entry_dues(s).remove(i),
{
    assert(entry_ids(s.remove(i)) =~= entry_ids(s).remove(i));
    assert(entry_dues(s.remove(i)) =~= entry_dues(s).remove(i));
}

proof fn lemma_sorted_remove(s: Seq<DueEntry>, i: int)
    requires
        sorted(s),
        0 <= i < s.len(),
    ensures
        sorted(s.remove(i)),
{
    let t = s.remove(i);
    assert forall|p: int, q: int| 0 <= p < q < t.len() implies entry_before(t[p], t[q]) by {
        let p0 = if p < i { p } else { p + 1 };
        let q0 = if q < i { q } else { q + 1 };
        assert(t[p] == s[p0]);
        assert(t[q] == s[q0]);
    }
}

proof fn lemma_sorted_insert(s: Seq<DueEntry>, i: int, e: DueEntry)
    requires
        sorted(s),
        0 <= i <= s.len(),
        forall|p: int| 0 <= p < i ==> entry_before(#[trigger] s[p], e),
        forall|p: int| i <= p < s.len() ==> entry_before(e, #[trigger] s[p]),
    ensures
        sorted(s.insert(i, e)),
{
    let t = s.insert(i, e);
    assert forall|p: int, q: int| 0 <= p < q < t.len() implies entry_before(t[p], t[q]) by {
        let p0 = if p < i { p } else { p - 1 };
        let q0 = if q < i { q } else { q - 1 };
        if p == i {
            assert(t[q] == s[q0]);
        } else if q == i {
            assert(t[p] == s[p0]);
        } else {
            assert(t[p] == s[p0]);
            assert(t[q] == s[q0]);
        }
    }
}

/// Cutting a sorted sequence where the due entries end leaves the due
/// channels in order on one side and the rest of the map on the other.
proof fn lemma_split_at_now(all: Seq<DueEntry>, k: int, now: u64)
    requires
        sorted(all),
        entry_ids(all).no_duplicates(),
        0 <= k <= all.len(),
        forall|i: int| 0 <= i < k ==> (#[trigger] all[i]).due_at <= now,
        forall|i: int| k <= i < all.len() ==> (#[trigger] all[i]).due_at > now,
    ensures
        sorted(all.subrange(k, all.len() as int)),
        entry_ids(all.subrange(k, all.len() as int)).no_duplicates(),
        is_due_order(
            assoc(entry_ids(all), entry_dues(all)),
            now,
            entry_ids(all).subrange(0, k),
        ),
        assoc(
            entry_ids(all.subrange(k, all.len() as int)),
            entry_dues(all.subrange(k, all.len() as int)),
        ) == not_yet_due(assoc(entry_ids(all), entry_dues(all)), now),
{
    let ids = entry_ids(all);
    let dues = entry_dues(all);
    let m = assoc(ids, dues);
    let tail = all.subrange(k, all.len() as int);
    let tids = entry_ids(tail);
    let tdues = entry_dues(tail);
    let s = ids.subrange(0, k);
    assert forall|p: int, q: int| 0 <= p < q < tail.len() implies entry_before(
        tail[p],
        tail[q],
    ) by {
        assert(entry_before(all[k + p], all[k + q]));
    }
    assert forall|p: int, q: int| 0 <= p < tids.len() && 0 <= q < tids.len() && p != q implies tids[p]
        != tids[q] by {
        assert(tids[p] == ids[k + p]);
        assert(tids[q] == ids[k + q]);
    }
    assert forall|id: ChannelId| s.contains(id) <==> m.contains_key(id) && m[id] <= now by {
        if s.contains(id) {
            let p = s.index_of(id);
            assert(ids[p] == id);
            lemma_assoc_at(ids, dues, p);
            assert(dues[p] == all[p].due_at);
        }
        if m.contains_key(id) && m[id] <= now {
            let p = ids.index_of(id);
            lemma_assoc_at(ids, dues, p);
            assert(dues[p] == all[p].due_at);
            assert(p < k);
            assert(s[p] == id);
        }
    }
    assert forall|i: int, j: int| 0 <= i < j < s.len() implies entry_before(
        entry_of(m, s[i]),
        entry_of(m, s[j]),
    ) by {
        lemma_assoc_at(ids, dues, i);
        lemma_assoc_at(ids, dues, j);
        assert(entry_of(m, s[i]) == all[i]);
        assert(entry_of(m, s[j]) == all[j]);
    }
    let m2 = assoc(tids, tdues);
    let rest = not_yet_due(m, now);
    assert forall|id: ChannelId| m2.contains_key(id) <==> rest.contains_key(id) by {
        if tids.contains(id) {
            let p = tids.index_of(id);
            assert(ids[k + p] == id);
            lemma_assoc_at(ids, dues, k + p);
            assert(dues[k + p] == all[k + p].due_at);
        }
        if m.contains_key(id) && m[id] > now {
            let p = ids.index_of(id);
            lemma_assoc_at(ids, dues, p);
            assert(dues[p] == all[p].due_at);
            assert(p >= k);
            assert(tids[p - k] == id);
        }
    }
    assert forall|id: ChannelId| m2.contains_key(id) implies m2[id] == rest[id] by {
        let p = tids.index_of(id);
        lemma_assoc_at(tids, tdues, p);
        assert(ids[k + p] == id);
        lemma_assoc_at(ids, dues, k + p);
        assert(tdues[p] == dues[k + p]);
    }
    assert(m2 =~= rest);
}

/// What the registry says of the cache: every channel that takes part in
/// scheduling, at its due time.
pub open spec fn projection(channels: Map<ChannelId, Channel>) -> Map<ChannelId, u64> {
    Map::new(
        |id: ChannelId| channels.contains_key(id) && channels[id].status is Active,
        |id: ChannelId| channels[id].due_at,
    )
}

/// Two caches that were built from one registry hand out their due channels
/// in one and the same order.
pub proof fn lemma_rebuild_is_repeatable(
    channels: Map<ChannelId, Channel>,
    first: Map<ChannelId, u64>,
    second: Map<ChannelId, u64>,
    now: u64,
    popped_first: Seq<ChannelId>,
    popped_second: Seq<ChannelId>,
)
    requires
        first == projection(channels),
        second == projection(channels),
        is_due_order(first, now, popped_first),
        is_due_order(second, now, popped_second),
    ensures
        first == second,
        popped_first == popped_second,
{
    lemma_due_order_unique(first, now, popped_first, popped_second);
}

/// The projection of the first `n` rows.
spec fn projection_upto(rows: Seq<Channel>, n: int) -> Map<ChannelId, u64>
    decreases n,
{
    if n <= 0 {
        Map::empty()
    } else if rows[n - 1].status is Active {
        projection_upto(rows, n - 1).insert(rows[n - 1].id, rows[n - 1].due_at)
    } else {
        projection_upto(rows, n - 1)
    }
}

proof fn lemma_projection_upto(rows: Seq<Channel>, n: int)
    requires
        row_ids(rows).no_duplicates(),
        0 <= n <= rows.len(),
    ensures
        projection_upto(rows, n) == projection(
            assoc(row_ids(rows.take(n)), rows.take(n)),
        ),
    decreases n,
{
    let head = rows.take(n);
    let m = assoc(row_ids(head), head);
    if n == 0 {
        assert(projection_upto(rows, n) =~= projection(m));
    } else {
        lemma_projection_upto(rows, n - 1);
        let before = rows.take(n - 1);
        let m0 = assoc(row_ids(before), before);
        let c = rows[n - 1];
        assert(row_ids(before) =~= row_ids(rows).take(n - 1));
        assert(row_ids(head) =~= row_ids(rows).take(n));
        assert(row_ids(before).no_duplicates());
        if row_ids(before).contains(c.id) {
            let p = row_ids(before).index_of(c.id);
            assert(row_ids(rows)[p] == row_ids(rows)[n - 1]);
        }
        assert(head =~= before.insert(n - 1, c));
        assert(row_ids(head) =~= row_ids(before).insert(n - 1, c.id));
        lemma_assoc_insert(row_ids(before), before, n - 1, c.id, c);
        assert(m == m0.insert(c.id, c));
        assert(projection_upto(rows, n) =~= projection(m));
    }
}

/// How many entries at the head of `s` are due at `now`.
spec fn due_count(s: Seq<DueEntry>, now: u64) -> int
    decreases s.len(),
{
    if s.len() == 0 || s[0].due_at > now {
        0
    } else {
        1 + due_count(s.skip(1), now)
    }
}

proof fn lemma_due_count(s: Seq<DueEntry>, now: u64)
    requires
        sorted(s),
    ensures
        0 <= due_count(s, now) <= s.len(),
        forall|i: int| 0 <= i < due_count(s, now) ==> (#[trigger] s[i]).due_at <= now,
        forall|i: int| due_count(s, now) <= i < s.len() ==> (#[trigger] s[i]).due_at > now,
    decreases s.len(),
{
    if s.len() == 0 {
    } else if s[0].due_at > now {
        assert forall|i: int| 0 <= i < s.len() implies (#[trigger] s[i]).due_at > now by {
            if 0 < i {
                assert(entry_before(s[0], s[i]));
            }
        }
    } else {
        let rest = s.skip(1);
        assert forall|p: int, q: int| 0 <= p < q < rest.len() implies entry_before(
            rest[p],
            rest[q],
        ) by {
            assert(entry_before(s[p + 1], s[q + 1]));
        }
        lemma_due_count(rest, now);
        let k = due_count(s, now);
        assert forall|i: int| 0 <= i < k implies (#[trigger] s[i]).due_at <= now by {
            if 0 < i {
                assert(rest[i - 1] == s[i]);
            }
        }
        assert forall|i: int| k <= i < s.len() implies (#[trigger] s[i]).due_at > now by {
            assert(rest[i - 1] == s[i]);
        }
    }
}

/// Whether `a` leaves the cache before `b`.
fn precedes(a: &DueEntry, b: &DueEntry) -> (before: bool)
    ensures
        before == entry_before(*a, *b),
{
    if a.due_at < b.due_at {
        true
    } else if a.due_at > b.due_at {
        false
    } else {
        match id_rank(&a.id, &b.id) {
            Rank::Before => true,
            _ => false,
        }
    }
}

/// Channels and their due times, each channel at most once, kept in the order
/// in which they fall due.
pub struct DueCache {
    entries: Vec<DueEntry>,
}

impl View for DueCache {
    type V = Map<ChannelId, u64>;

    /// The due time of every channel that the cache holds.
    closed spec fn view(&self) -> Map<ChannelId, u64> {
        assoc(entry_ids(self.entries@), entry_dues(self.entries@))
    }
}

impl DueCache {
    /// The entries are in order and no channel has two of them.
    pub closed spec fn wf(&self) -> bool {
        &&& sorted(self.entries@)
        &&& entry_ids(self.entries@).no_duplicates()
    }

    /// A cache that holds no channel.
    pub fn new() -> (cache: Self)
        ensures
            cache.wf(),
            cache@ == Map::<ChannelId, u64>::empty(),
    {
        let cache = DueCache { entries: Vec::new() };
        assert(cache@ =~= Map::<ChannelId, u64>::empty());
        cache
    }

    proof fn lemma_entry(&self, i: int)
        requires
            self.wf(),
            0 <= i < self.entries@.len(),
        ensures
            self@.contains_key(self.entries@[i].id),
            self@[self.entries@[i].id] == self.entries@[i].due_at,
    {
        lemma_assoc_at(entry_ids(self.entries@), entry_dues(self.entries@), i);
    }

    /// The due channels of a cache can be put in order, whatever the time.
    pub proof fn lemma_has_due_order(&self, now: u64)
        requires
            self.wf(),
        ensures
            is_due_order(self@, now, due_order(self@, now)),
    {
        let all = self.entries@;
        lemma_due_count(all, now);
        let k = due_count(all, now);
        lemma_split_at_now(all, k, now);
        lemma_due_order_unique(
            self@,
            now,
            entry_ids(all).subrange(0, k),
            due_order(self@, now),
        );
    }

    /// Where the entry of `id` stands, if it has one.
    fn find(&self, id: &ChannelId) -> (at: Option<usize>)
        ensures
            match at {
                Some(i) => i < self.entries@.len() && self.entries@[i as int].id == *id,
                None => !entry_ids(self.entries@).contains(*id),
            },
    {
        let mut i: usize = 0;
        while i < self.entries.len()
            invariant
                i <= self.entries@.len(),
                forall|j: int| 0 <= j < i ==> self.entries@[j].id != *id,
            decreases self.entries@.len() - i,
        {
            if bytes_eq(&self.entries[i].id, id) {
                return Some(i);
            }
            i = i + 1;
        }
        None
    }

    /// The number of channels in the cache.
    pub fn len(&self) -> (n: usize)
        requires
            self.wf(),
        ensures
            self@.dom().finite(),
            n == self@.len(),
    {
        proof {
            let ids = entry_ids(self.entries@);
            assert(self@.dom() =~= ids.to_set());
            ids.unique_seq_to_set();
            vstd::seq_lib::seq_to_set_is_finite(ids);
        }
        self.entries.len()
    }

    /// The due time that the cache holds for `id`.
    pub fn due_of(&self, id: &ChannelId) -> (due: Option<u64>)
        requires
            self.wf(),
        ensures
            due == (if self@.contains_key(*id) {
                Some(self@[*id])
            } else {
                None
            }),
    {
        match self.find(id) {
            Some(i) => {
                proof {
                    self.lemma_entry(i as int);
                }
                Some(self.entries[i].due_at)
            },
            None => None,
        }
    }

    /// Takes `id` out of the cache and returns the due time it had there.
    pub fn remove(&mut self, id: &ChannelId) -> (due: Option<u64>)
        requires
            old(self).wf(),
        ensures
            final(self).wf(),
            final(self)@ == old(self)@.remove(*id),
            due == (if old(self)@.contains_key(*id) {
                Some(old(self)@[*id])
            } else {
                None
            }),
    {
        match self.find(id) {
            Some(i) => {
                proof {
                    self.lemma_entry(i as int);
                    lemma_ids_of_remove(self.entries@, i as int);
                    lemma_sorted_remove(self.entries@, i as int);
                    lemma_assoc_remove(
                        entry_ids(self.entries@),
                        entry_dues(self.entries@),
                        i as int,
                    );
                }
                let entry = self.entries.remove(i);
                Some(entry.due_at)
            },
            None => {
                assert(self@ =~= self@.remove(*id));
                None
            },
        }
    }

    /// Puts in an entry for a channel that has none.
    fn place(&mut self, entry: DueEntry)
        requires
            old(self).wf(),
            !old(self)@.contains_key(entry.id),
        ensures
            final(self).wf(),
            final(self)@ == old(self)@.insert(entry.id, entry.due_at),
    {
        let mut p: usize = 0;
        while p < self.entries.len() && precedes(&self.entries[p], &entry)
            invariant
                *self == *old(self),
                p <= self.entries@.len(),
                forall|i: int| 0 <= i < p ==> entry_before(#[trigger] self.entries@[i], entry),
            decreases self.entries@.len() - p,
        {
            p = p + 1;
        }
        proof {
            let s = self.entries@;
            assert forall|i: int| p <= i < s.len() implies entry_before(entry, #[trigger] s[i]) by {
                assert(entry_ids(s)[p as int] == s[p as int].id);
                assert(entry_ids(s).contains(s[p as int].id));
                lemma_entry_before_total(entry, s[p as int]);
                if p < i {
                    lemma_entry_before_transitive(entry, s[p as int], s[i]);
                }
            }
            lemma_sorted_insert(s, p as int, entry);
            lemma_ids_of_insert(s, p as int, entry);
            lemma_assoc_insert(entry_ids(s), entry_dues(s), p as int, entry.id, entry.due_at);
        }
        self.entries.insert(p, entry);
    }

    /// Sets the due time of `id`, whether or not the cache held the channel.
    pub fn upsert(&mut self, id: ChannelId, due_at: u64)
        requires
            old(self).wf(),
        ensures
            final(self).wf(),
            final(self)@ == old(self)@.insert(id, due_at),
    {
        let _ = self.remove(&id);
        self.place(DueEntry { due_at, id });
        assert(final(self)@ =~= old(self)@.insert(id, due_at));
    }

    /// Moves `id` to the earlier due time `due_at`. A channel that the cache
    /// does not hold, or one that is already due no later, is left as it is.
    /// Tells whether the due time changed.
    pub fn promote(&mut self, id: ChannelId, due_at: u64) -> (moved: bool)
        requires
            old(self).wf(),
        ensures
            final(self).wf(),
            moved == (old(self)@.contains_key(id) && due_at < old(self)@[id]),
            final(self)@ == (if moved {
                old(self)@.insert(id, due_at)
            } else {
                old(self)@
            }),
    {
        match self.due_of(&id) {
            Some(current) => {
                if due_at < current {
                    self.upsert(id, due_at);
                    true
                } else {
                    false
                }
            },
            None => false,
        }
    }

    /// Takes out the channels that are due at `now` and returns them in the
    /// order in which they fell due, equal due times in order of identifier.
    pub fn pop_due(&mut self, now: u64) -> (due: Vec<ChannelId>)
        requires
            old(self).wf(),
        ensures
            final(self).wf(),
            is_due_order(old(self)@, now, due@),
            due@ == due_order(old(self)@, now),
            final(self)@ == not_yet_due(old(self)@, now),
    {
        let mut k: usize = 0;
        while k < self.entries.len() && self.entries[k].due_at <= now
            invariant
                *self == *old(self),
                k <= self.entries@.len(),
                forall|i: int| 0 <= i < k ==> (#[trigger] self.entries@[i]).due_at <= now,
            decreases self.entries@.len() - k,
        {
            k = k + 1;
        }
        let ghost all = self.entries@;
        proof {
            assert forall|i: int| k <= i < all.len() implies (#[trigger] all[i]).due_at > now by {
                if k < i {
                    assert(entry_before(all[k as int], all[i]));
                }
            }
            lemma_split_at_now(all, k as int, now);
            lemma_due_order_unique(
                self@,
                now,
                entry_ids(all).subrange(0, k as int),
                due_order(self@, now),
            );
        }
        let rest = self.entries.split_off(k);
        let mut due: Vec<ChannelId> = Vec::new();
        let mut i: usize = 0;
        while i < k
            invariant
                i <= k,
                k <= all.len(),
                self.entries@ == all.subrange(0, k as int),
                due@ == entry_ids(all).subrange(0, i as int),
            decreases k - i,
        {
            due.push(self.entries[i].id);
            assert(due@ =~= entry_ids(all).subrange(0, i + 1));
            i = i + 1;
        }
        self.entries = rest;
        due
    }

    /// Builds the cache anew from the registry. Nothing else goes into it, so
    /// the same registry always gives the same cache.
    pub fn rebuild(registry: &Registry) -> (cache: Self)
        requires
            registry.wf(),
        ensures
            cache.wf(),
            cache@ == projection(registry@),
    {
        let rows = registry.channels();
        let mut cache = DueCache::new();
        let mut i: usize = 0;
        while i < rows.len()
            invariant
                i <= rows@.len(),
                cache.wf(),
                cache@ == projection_upto(rows@, i as int),
            decreases rows@.len() - i,
        {
            if rows[i].is_active() {
                cache.upsert(rows[i].id, rows[i].due_at);
            }
            i = i + 1;
        }
        proof {
            lemma_projection_upto(rows@, rows@.len() as int);
            assert(rows@.take(rows@.len() as int) =~= rows@);
        }
        cache
    }
}

} // verus!
