//! Bounded selection of the largest items by a `u64` key.
//!
//! A ranking holds at most `limit` entries in strictly descending order of
//! key. Of several items with one key it keeps the one offered last.

use crate::split::Split;
use rayon::iter::{IndexedParallelIterator, IntoParallelRefIterator, ParallelIterator};
use vstd::prelude::*;

verus! {

/// A key together with the position of the item it was taken from.
#[derive(Debug, Clone, Copy, PartialEq, Eq, Structural)]
pub struct Entry {
    pub key: u64,
    pub item: usize,
}

/// Keys fall strictly from each entry to the next.
pub open spec fn descending(s: Seq<Entry>) -> bool {
    forall|i: int, j: int| 0 <= i < j < s.len() ==> s[i].key > s[j].key
}

/// Some entry of `s` has the key `key`.
pub open spec fn has_key(s: Seq<Entry>, key: u64) -> bool {
    exists|i: int| 0 <= i < s.len() && s[i].key == key
}

/// The number of leading entries of `s` whose key is greater than `key`: the
/// place of `key` in a descending sequence.
pub open spec fn rank_of(s: Seq<Entry>, key: u64) -> int
    decreases s.len(),
{
    if s.len() == 0 {
        0
    } else if s.last().key > key {
        s.len() as int
    } else {
        rank_of(s.drop_last(), key)
    }
}

/// The ranking `s` after `e` was offered to it: `e` takes the place of the
/// entry with its key if there is one, and else its place in the order; the
/// result is cut to `limit` entries.
pub open spec fn insert_entry(s: Seq<Entry>, limit: nat, e: Entry) -> Seq<Entry> {
    let p = rank_of(s, e.key);
    let placed = if p < s.len() && s[p].key == e.key {
        s.update(p, e)
    } else {
        s.insert(p, e)
    };
    if placed.len() > limit {
        placed.take(limit as int)
    } else {
        placed
    }
}

/// The ranking `s` after each entry of `items` was offered to it in turn.
pub open spec fn insert_all(s: Seq<Entry>, items: Seq<Entry>, limit: nat) -> Seq<Entry>
    decreases items.len(),
{
    if items.len() == 0 {
        s
    } else {
        insert_entry(insert_all(s, items.drop_last(), limit), limit, items.last())
    }
}

/// The ranking of `items`: what is left after each was offered in turn to an
/// empty ranking.
pub open spec fn rank_all(items: Seq<Entry>, limit: nat) -> Seq<Entry> {
    insert_all(Seq::empty(), items, limit)
}

/// What `rank_of` returns on a descending sequence: every entry before that
/// place has a greater key, and no entry from it on has.
proof fn lemma_rank_of(s: Seq<Entry>, key: u64)
    requires
        descending(s),
    ensures
        0 <= rank_of(s, key) <= s.len(),
        forall|i: int| 0 <= i < rank_of(s, key) ==> s[i].key > key,
        forall|i: int| rank_of(s, key) <= i < s.len() ==> s[i].key <= key,
    decreases s.len(),
{
    if s.len() > 0 {
        if s.last().key <= key {
            let front = s.drop_last();
            assert forall|i: int, j: int| 0 <= i < j < front.len() implies front[i].key
                > front[j].key by {
                assert(front[i] == s[i] && front[j] == s[j]);
            }
            lemma_rank_of(front, key);
            assert forall|i: int| 0 <= i < rank_of(s, key) implies s[i].key > key by {
                assert(front[i] == s[i]);
            }
            assert forall|i: int| rank_of(s, key) <= i < s.len() implies s[i].key <= key by {
                if i < front.len() {
                    assert(front[i] == s[i]);
                }
            }
        } else {
            assert forall|i: int| 0 <= i < s.len() implies s[i].key > key by {
                if i < s.len() - 1 {
                    assert(s[i].key > s[s.len() - 1].key);
                }
            }
        }
    }
}

/// The place of `key` in a descending sequence is the only index that splits
/// it into greater keys and the rest.
proof fn lemma_rank_of_unique(s: Seq<Entry>, key: u64, p: int)
    requires
        descending(s),
        0 <= p <= s.len(),
        forall|i: int| 0 <= i < p ==> s[i].key > key,
        forall|i: int| p <= i < s.len() ==> s[i].key <= key,
    ensures
        rank_of(s, key) == p,
{
    lemma_rank_of(s, key);
    let r = rank_of(s, key);
    if r < p {
        assert(s[r].key > key);
    } else if p < r {
        assert(s[p].key > key);
    }
}

/// A bounded ranking of items by key.
pub struct TopK {
    entries: Vec<Entry>,
    limit: usize,
}

impl TopK {
    #[verifier::type_invariant]
    spec fn well_formed(&self) -> bool {
        self.entries@.len() <= self.limit && descending(self.entries@)
    }

    /// The entries held, largest key first.
    pub closed spec fn entries(&self) -> Seq<Entry> {
        self.entries@
    }

    /// The number of entries that the ranking holds at most.
    pub closed spec fn limit(&self) -> nat {
        self.limit as nat
    }

    /// An empty ranking that will hold at most `limit` entries.
    pub fn new(limit: usize) -> (top: TopK)
        ensures
            top.entries() == Seq::<Entry>::empty(),
            top.limit() == limit,
    {
        TopK { entries: Vec::new(), limit }
    }

    /// Offers one item to the ranking.
    pub fn insert(self, key: u64, item: usize) -> (top: TopK)
        ensures
            top.limit() == self.limit(),
            top.entries() == insert_entry(self.entries(), self.limit(), Entry { key, item }),
    {
        proof {
            use_type_invariant(&self);
        }
        let limit = self.limit;
        let mut entries = self.entries;
        let ghost before = entries@;
        let e = Entry { key, item };
        let mut p: usize = entries.len();
        while p > 0 && entries[p - 1].key <= key
            invariant
                entries@ == before,
                p <= before.len(),
                forall|i: int| p <= i < before.len() ==> before[i].key <= key,
            decreases p,
        {
            p -= 1;
        }
        proof {
            assert forall|i: int| 0 <= i < p implies before[i].key > key by {
                assert(before[p - 1].key > key);
            }
            lemma_rank_of_unique(before, key, p as int);
        }
        if p < entries.len() && entries[p].key == key {
            entries.set(p, e);
            proof {
                lemma_insert_entry_ranks(before, limit as nat, e);
            }
            TopK { entries, limit }
        } else {
            entries.insert(p, e);
            if entries.len() > limit {
                entries.pop();
                assert(entries@ =~= before.insert(p as int, e).take(limit as int));
            }
            proof {
                lemma_insert_entry_ranks(before, limit as nat, e);
            }
            TopK { entries, limit }
        }
    }

    /// Offers every entry of `other` to the ranking.
    pub fn merge(self, other: TopK) -> (top: TopK)
        ensures
            top.limit() == self.limit(),
            top.entries() == merge_entries(self.entries(), other.entries(), self.limit()),
    {
        let ghost first = self.entries();
        let ghost limit = self.limit();
        let ghost second = other.entries();
        let mut top = self;
        let mut i: usize = 0;
        assert(second.take(0) =~= Seq::<Entry>::empty());
        while i < other.entries.len()
            invariant
                i <= second.len(),
                second == other.entries(),
                top.limit() == limit,
                top.entries() == insert_all(first, second.take(i as int), limit),
            decreases second.len() - i,
        {
            let e = other.entries[i];
            assert(second.take(i + 1).drop_last() =~= second.take(i as int));
            assert(second.take(i + 1).last() == e);
            top = top.insert(e.key, e.item);
            i += 1;
        }
        assert(second.take(i as int) =~= second);
        top
    }

    /// The entries held, largest key first.
    pub fn into_entries(self) -> (entries: Vec<Entry>)
        ensures
            entries@ == self.entries(),
            entries@.len() <= self.limit(),
            descending(entries@),
    {
        proof {
            use_type_invariant(&self);
        }
        self.entries
    }
}

/// Offering an entry to a ranking leaves a ranking.
pub proof fn lemma_insert_entry_ranks(s: Seq<Entry>, limit: nat, e: Entry)
    requires
        descending(s),
        s.len() <= limit,
    ensures
        descending(insert_entry(s, limit, e)),
        insert_entry(s, limit, e).len() <= limit,
{
    lemma_rank_of(s, e.key);
    let p = rank_of(s, e.key);
    if p < s.len() && s[p].key == e.key {
        let placed = s.update(p, e);
        assert(descending(placed)) by {
            assert forall|i: int, j: int| 0 <= i < j < placed.len() implies placed[i].key
                > placed[j].key by {
                assert(placed[i].key == s[i].key);
                assert(placed[j].key == s[j].key);
            }
        }
    } else {
        let placed = s.insert(p, e);
        assert(descending(placed)) by {
            assert forall|i: int, j: int| 0 <= i < j < placed.len() implies placed[i].key
                > placed[j].key by {
                if j < p {
                    assert(placed[i] == s[i] && placed[j] == s[j]);
                } else if j == p {
                    assert(placed[i] == s[i]);
                } else if i < p {
                    assert(placed[i] == s[i] && placed[j] == s[j - 1]);
                } else if i == p {
                    assert(placed[j] == s[j - 1]);
                    assert(s[j - 1].key <= e.key);
                    if j - 1 == p {
                        assert(s[p].key != e.key);
                    } else {
                        assert(s[p].key > s[j - 1].key);
                    }
                } else {
                    assert(placed[i] == s[i - 1] && placed[j] == s[j - 1]);
                }
            }
        }
    }
}

/// Offering items to a ranking leaves a ranking, with at most one entry more
/// for each item offered.
pub proof fn lemma_insert_all_len(s: Seq<Entry>, items: Seq<Entry>, limit: nat)
    requires
        descending(s),
        s.len() <= limit,
    ensures
        descending(insert_all(s, items, limit)),
        insert_all(s, items, limit).len() <= limit,
        insert_all(s, items, limit).len() <= s.len() + items.len(),
    decreases items.len(),
{
    if items.len() > 0 {
        let before = insert_all(s, items.drop_last(), limit);
        lemma_insert_all_len(s, items.drop_last(), limit);
        lemma_insert_entry_ranks(before, limit, items.last());
        lemma_rank_of(before, items.last().key);
    }
}

/// A ranking holds no more entries than its limit and no more than there were
/// items.
pub proof fn lemma_rank_all_len(items: Seq<Entry>, limit: nat)
    ensures
        rank_all(items, limit).len() <= limit,
        rank_all(items, limit).len() <= items.len(),
{
    lemma_insert_all_len(Seq::empty(), items, limit);
}

/// `items[j]` is the last of `items` with its key.
pub open spec fn is_last_with_key(items: Seq<Entry>, j: int) -> bool {
    &&& 0 <= j < items.len()
    &&& forall|k: int| j < k < items.len() ==> items[k].key != items[j].key
}

/// `e` is one of `items`, and the last of them with its key.
pub open spec fn chosen_from(items: Seq<Entry>, e: Entry) -> bool {
    exists|j: int| #[trigger] is_last_with_key(items, j) && items[j] == e
}

/// The ranking `s` accounts for `key`: it holds the key, or it is full and
/// all its keys are greater.
pub open spec fn covers(s: Seq<Entry>, limit: nat, key: u64) -> bool {
    has_key(s, key) || (s.len() == limit && (limit == 0 || key < s[limit - 1].key))
}

/// `s` is the selection of the largest `limit` keys of `items`: a ranking whose
/// entries are each the last of `items` with its key, and which leaves out a
/// key of `items` only where it is full of greater ones.
pub open spec fn selects(s: Seq<Entry>, items: Seq<Entry>, limit: nat) -> bool {
    &&& s.len() <= limit
    &&& descending(s)
    &&& forall|i: int| 0 <= i < s.len() ==> chosen_from(items, #[trigger] s[i])
    &&& forall|j: int| 0 <= j < items.len() ==> covers(s, limit, #[trigger] items[j].key)
}

/// How the entries after an offer relate to those before it.
proof fn lemma_insert_entry_shape(s: Seq<Entry>, limit: nat, e: Entry)
    requires
        descending(s),
        s.len() <= limit,
    ensures
        forall|i: int|
            0 <= i < insert_entry(s, limit, e).len() ==> (#[trigger] insert_entry(s, limit, e)[i])
                == e || (s.contains(insert_entry(s, limit, e)[i]) && insert_entry(
                s,
                limit,
                e,
            )[i].key != e.key),
        forall|i: int|
            0 <= i < s.len() && s[i].key != e.key ==> covers(
                insert_entry(s, limit, e),
                limit,
                #[trigger] s[i].key,
            ),
        covers(insert_entry(s, limit, e), limit, e.key),
        s.len() == limit && limit > 0 ==> insert_entry(s, limit, e).len() == limit
            && insert_entry(s, limit, e)[limit - 1].key >= s[limit - 1].key,
{
    lemma_rank_of(s, e.key);
    let p = rank_of(s, e.key);
    let r = insert_entry(s, limit, e);
    if p < s.len() && s[p].key == e.key {
        assert(r == s.update(p, e));
        assert forall|i: int| 0 <= i < r.len() implies (#[trigger] r[i]) == e || (s.contains(r[i])
            && r[i].key != e.key) by {
            if i != p {
                assert(r[i] == s[i]);
                if i < p {
                    assert(s[i].key > s[p].key);
                } else {
                    assert(s[p].key > s[i].key);
                }
            }
        }
        assert forall|i: int| 0 <= i < s.len() && s[i].key != e.key implies covers(
            r,
            limit,
            #[trigger] s[i].key,
        ) by {
            assert(r[i] == s[i]);
        }
        assert(r[p].key == e.key);
        if s.len() == limit && limit > 0 {
            assert(r[limit - 1].key == s[limit - 1].key);
        }
    } else {
        let placed = s.insert(p, e);
        assert(placed[p] == e);
        assert forall|i: int| 0 <= i < s.len() implies s[i].key != e.key by {
            if i >= p && i > p {
                assert(s[p].key > s[i].key);
            }
        }
        assert forall|i: int| 0 <= i < r.len() implies (#[trigger] r[i]) == e || (s.contains(r[i])
            && r[i].key != e.key) by {
            assert(r[i] == placed[i]);
            if i < p {
                assert(placed[i] == s[i]);
            } else if i > p {
                assert(placed[i] == s[i - 1]);
            }
        }
        if placed.len() <= limit {
            assert(r == placed);
            assert forall|i: int| 0 <= i < s.len() && s[i].key != e.key implies covers(
                r,
                limit,
                #[trigger] s[i].key,
            ) by {
                if i < p {
                    assert(r[i] == s[i]);
                } else {
                    assert(r[i + 1] == s[i]);
                }
            }
            assert(r[p].key == e.key);
        } else {
            assert(s.len() == limit);
            assert(r == placed.take(limit as int));
            if limit > 0 {
                let last = limit - 1;
                assert(r[last] == placed[last]);
                if p == limit {
                    assert(r[last] == s[last]);
                    assert(s[last].key > e.key);
                } else if p == last {
                    assert(r[last] == e);
                    assert(s[last].key < e.key);
                    assert(r[p].key == e.key);
                } else {
                    assert(r[last] == s[last - 1]);
                    assert(s[last - 1].key > s[last].key);
                    assert(r[p] == placed[p]);
                    assert(r[p].key == e.key);
                }
                assert forall|i: int| 0 <= i < s.len() && s[i].key != e.key implies covers(
                    r,
                    limit,
                    #[trigger] s[i].key,
                ) by {
                    if i < p {
                        assert(r[i] == placed[i]);
                        assert(r[i] == s[i]);
                    } else if i + 1 < limit {
                        assert(r[i + 1] == placed[i + 1]);
                        assert(r[i + 1] == s[i]);
                    } else {
                        assert(i == last);
                        assert(s[i].key < r[last].key);
                    }
                }
            }
        }
    }
}

/// Offering one more item to the selection of some items gives the selection
/// of those items with the new one behind them.
pub proof fn lemma_insert_selects(s: Seq<Entry>, items: Seq<Entry>, limit: nat, e: Entry)
    requires
        selects(s, items, limit),
    ensures
        selects(insert_entry(s, limit, e), items.push(e), limit),
{
    lemma_insert_entry_ranks(s, limit, e);
    lemma_insert_entry_shape(s, limit, e);
    let r = insert_entry(s, limit, e);
    let all = items.push(e);
    let n = items.len() as int;
    assert(all[n] == e);
    assert(is_last_with_key(all, n));
    assert forall|i: int| 0 <= i < r.len() implies chosen_from(all, #[trigger] r[i]) by {
        if r[i] != e {
            let k = choose|k: int| 0 <= k < s.len() && s[k] == r[i];
            assert(chosen_from(items, s[k]));
            let j = choose|j: int| #[trigger] is_last_with_key(items, j) && items[j] == s[k];
            assert(all[j] == items[j]);
            assert forall|m: int| j < m < all.len() implies all[m].key != all[j].key by {
                if m < n {
                    assert(all[m] == items[m]);
                }
            }
            assert(is_last_with_key(all, j));
        }
    }
    assert forall|j: int| 0 <= j < all.len() implies covers(r, limit, #[trigger] all[j].key) by {
        if j < n {
            assert(all[j] == items[j]);
            assert(covers(s, limit, items[j].key));
            if all[j].key != e.key {
                if has_key(s, items[j].key) {
                    let k = choose|k: int| 0 <= k < s.len() && s[k].key == items[j].key;
                    assert(covers(r, limit, s[k].key));
                }
            }
        }
    }
}

/// Offering further items in turn to the selection of some items gives the
/// selection of all of them.
pub proof fn lemma_insert_all_selects(
    s: Seq<Entry>,
    base: Seq<Entry>,
    items: Seq<Entry>,
    limit: nat,
)
    requires
        selects(s, base, limit),
    ensures
        selects(insert_all(s, items, limit), base + items, limit),
    decreases items.len(),
{
    if items.len() == 0 {
        assert(base + items =~= base);
    } else {
        let front = items.drop_last();
        lemma_insert_all_selects(s, base, front, limit);
        lemma_insert_selects(insert_all(s, front, limit), base + front, limit, items.last());
        assert((base + front).push(items.last()) =~= base + items);
    }
}

/// The ranking of some items is the selection of their largest keys.
pub proof fn lemma_rank_all_selects(items: Seq<Entry>, limit: nat)
    ensures
        selects(rank_all(items, limit), items, limit),
{
    let none = Seq::<Entry>::empty();
    assert(selects(none, none, limit));
    lemma_insert_all_selects(none, none, items, limit);
    assert(none + items =~= items);
}

/// Where each of the first `t + 1` keys of one descending sequence occurs in
/// another, the key at `t` occurs there at `t` or later.
proof fn lemma_key_position(a: Seq<Entry>, b: Seq<Entry>, t: int) -> (p: int)
    requires
        descending(a),
        descending(b),
        0 <= t < a.len(),
        forall|i: int| 0 <= i <= t ==> has_key(b, #[trigger] a[i].key),
    ensures
        t <= p < b.len(),
        b[p].key == a[t].key,
    decreases t,
{
    assert(has_key(b, a[t].key));
    let p = choose|p: int| 0 <= p < b.len() && b[p].key == a[t].key;
    if t > 0 {
        let q = lemma_key_position(a, b, t - 1);
        assert(a[t - 1].key > a[t].key);
        if p <= q {
            if p < q {
                assert(b[p].key > b[q].key);
            }
        }
    }
    p
}

/// A ranking with room for `limit` keys cannot hold one key below all the keys
/// of a full ranking and those keys too: one of them is missing from it.
proof fn lemma_no_room(s: Seq<Entry>, b: Seq<Entry>, limit: nat, i: int)
    requires
        descending(s),
        descending(b),
        s.len() <= limit,
        b.len() == limit,
        limit > 0,
        0 <= i < s.len(),
        forall|t: int| 0 <= t < b.len() ==> (#[trigger] b[t]).key > s[i].key,
    ensures
        exists|t: int| 0 <= t < b.len() && !has_key(s, #[trigger] b[t].key),
{
    if forall|t: int| 0 <= t < b.len() ==> has_key(s, #[trigger] b[t].key) {
        let last = limit - 1;
        let p = lemma_key_position(b, s, last);
        assert(b[last].key > s[i].key);
        if p < i {
            assert(s[p].key > s[i].key);
        } else if p > i {
            assert(s[i].key > s[p].key);
        }
    }
}

/// The items have one selection only.
pub proof fn lemma_selects_unique(a: Seq<Entry>, b: Seq<Entry>, items: Seq<Entry>, limit: nat)
    requires
        selects(a, items, limit),
        selects(b, items, limit),
    ensures
        a == b,
{
    lemma_selects_keys_within(a, b, items, limit);
    lemma_selects_keys_within(b, a, items, limit);
    if a.len() > 0 {
        let p = lemma_key_position(a, b, a.len() - 1);
    }
    if b.len() > 0 {
        let p = lemma_key_position(b, a, b.len() - 1);
    }
    assert(a.len() == b.len());
    assert forall|i: int| 0 <= i < a.len() implies a[i] == b[i] by {
        let p = lemma_key_position(a, b, i);
        let q = lemma_key_position(b, a, p);
        if q != i {
            if q < i {
                assert(a[q].key > a[i].key);
            } else {
                assert(a[i].key > a[q].key);
            }
        }
        assert(p == i);
        assert(chosen_from(items, a[i]));
        assert(chosen_from(items, b[i]));
        let j = choose|j: int| #[trigger] is_last_with_key(items, j) && items[j] == a[i];
        let k = choose|k: int| #[trigger] is_last_with_key(items, k) && items[k] == b[i];
        if j < k {
            assert(items[k].key != items[j].key);
        } else if k < j {
            assert(items[j].key != items[k].key);
        }
    }
    assert(a =~= b);
}

/// Every key of one selection of the items is a key of any other.
proof fn lemma_selects_keys_within(a: Seq<Entry>, b: Seq<Entry>, items: Seq<Entry>, limit: nat)
    requires
        selects(a, items, limit),
        selects(b, items, limit),
    ensures
        forall|i: int| 0 <= i < a.len() ==> has_key(b, #[trigger] a[i].key),
{
    assert forall|i: int| 0 <= i < a.len() implies has_key(b, #[trigger] a[i].key) by {
        assert(chosen_from(items, a[i]));
        let j = choose|j: int| #[trigger] is_last_with_key(items, j) && items[j] == a[i];
        assert(covers(b, limit, items[j].key));
        if !has_key(b, a[i].key) {
            assert(b.len() == limit && limit > 0);
            assert forall|t: int| 0 <= t < b.len() implies (#[trigger] b[t]).key > a[i].key by {
                if t < limit - 1 {
                    assert(b[t].key > b[limit - 1].key);
                }
            }
            lemma_no_room(a, b, limit, i);
            let t = choose|t: int| 0 <= t < b.len() && !has_key(a, #[trigger] b[t].key);
            assert(chosen_from(items, b[t]));
            let k = choose|k: int| #[trigger] is_last_with_key(items, k) && items[k] == b[t];
            assert(covers(a, limit, items[k].key));
            assert(a[limit - 1].key > b[t].key);
            if i < limit - 1 {
                assert(a[i].key > a[limit - 1].key);
            }
        }
    }
}

/// A selection made from items that end in a ranking is also the selection
/// made from the same items ending in what that ranking was selected from.
pub proof fn lemma_selects_through(
    s: Seq<Entry>,
    x: Seq<Entry>,
    b: Seq<Entry>,
    y: Seq<Entry>,
    limit: nat,
)
    requires
        selects(s, x + b, limit),
        selects(b, y, limit),
    ensures
        selects(s, x + y, limit),
{
    let xb = x + b;
    let xy = x + y;
    let n = x.len() as int;
    assert forall|t: int| 0 <= t < b.len() implies covers(s, limit, #[trigger] b[t].key) by {
        assert(xb[n + t] == b[t]);
        assert(covers(s, limit, xb[n + t].key));
    }
    assert forall|i: int| 0 <= i < s.len() implies chosen_from(xy, #[trigger] s[i]) by {
        assert(chosen_from(xb, s[i]));
        let j = choose|j: int| #[trigger] is_last_with_key(xb, j) && xb[j] == s[i];
        if j >= n {
            let t = j - n;
            assert(xb[j] == b[t]);
            assert(chosen_from(y, b[t]));
            let m = choose|m: int| #[trigger] is_last_with_key(y, m) && y[m] == b[t];
            assert(xy[n + m] == y[m]);
            let at = n + m;
            assert forall|k: int| at < k < xy.len() implies (#[trigger] xy[k]).key
                != xy[at].key by {
                assert(xy[k] == y[k - n]);
            }
            assert(is_last_with_key(xy, at));
        } else {
            assert(xb[j] == x[j]);
            assert(xy[j] == x[j]);
            assert forall|k: int| j < k < xy.len() implies (#[trigger] xy[k]).key
                != xy[j].key by {
                if k < n {
                    assert(xy[k] == x[k]);
                    assert(xb[k] == x[k]);
                } else {
                    assert(xy[k] == y[k - n]);
                    if y[k - n].key == s[i].key {
                        assert(covers(b, limit, y[k - n].key));
                        if has_key(b, y[k - n].key) {
                            let t = choose|t: int| 0 <= t < b.len() && b[t].key == y[k - n].key;
                            assert(xb[n + t] == b[t]);
                        } else {
                            assert forall|t: int| 0 <= t < b.len() implies (#[trigger] b[t]).key
                                > s[i].key by {
                                if t < limit - 1 {
                                    assert(b[t].key > b[limit - 1].key);
                                }
                            }
                            lemma_no_room(s, b, limit, i);
                            let t = choose|t: int|
                                0 <= t < b.len() && !has_key(s, #[trigger] b[t].key);
                            assert(covers(s, limit, b[t].key));
                            if i < limit - 1 {
                                assert(s[i].key > s[limit - 1].key);
                            }
                        }
                    }
                }
            }
            assert(is_last_with_key(xy, j));
        }
    }
    assert forall|j: int| 0 <= j < xy.len() implies covers(s, limit, #[trigger] xy[j].key) by {
        if j < n {
            assert(xy[j] == x[j]);
            assert(xb[j] == x[j]);
            assert(covers(s, limit, xb[j].key));
        } else {
            let key = y[j - n].key;
            assert(xy[j] == y[j - n]);
            assert(covers(b, limit, y[j - n].key));
            if has_key(b, key) {
                let t = choose|t: int| 0 <= t < b.len() && b[t].key == key;
                assert(covers(s, limit, b[t].key));
            } else if limit > 0 {
                let last = limit - 1;
                if forall|t: int| 0 <= t < b.len() ==> has_key(s, #[trigger] b[t].key) {
                    let p = lemma_key_position(b, s, last);
                } else {
                    let t = choose|t: int| 0 <= t < b.len() && !has_key(s, #[trigger] b[t].key);
                    assert(covers(s, limit, b[t].key));
                    if t < last {
                        assert(b[t].key > b[last].key);
                    }
                }
            }
        }
    }
}

/// A ranking is the selection of its own entries.
pub proof fn lemma_ranking_selects_itself(s: Seq<Entry>, limit: nat)
    requires
        descending(s),
        s.len() <= limit,
    ensures
        selects(s, s, limit),
{
    assert forall|i: int| 0 <= i < s.len() implies chosen_from(s, #[trigger] s[i]) by {
        assert forall|k: int| i < k < s.len() implies s[k].key != s[i].key by {
            assert(s[i].key > s[k].key);
        }
        assert(is_last_with_key(s, i));
    }
}

/// Ranking the entries of a ranking gives it back.
pub proof fn lemma_rank_all_of_ranking(s: Seq<Entry>, limit: nat)
    requires
        descending(s),
        s.len() <= limit,
    ensures
        rank_all(s, limit) == s,
{
    lemma_ranking_selects_itself(s, limit);
    lemma_rank_all_selects(s, limit);
    lemma_selects_unique(rank_all(s, limit), s, s, limit);
}

/// The merge of two rankings: the first after each entry of the second was
/// offered to it.
pub open spec fn merge_entries(a: Seq<Entry>, b: Seq<Entry>, limit: nat) -> Seq<Entry> {
    insert_all(a, b, limit)
}

/// Splitting the items in two, ranking each part and merging the two rankings
/// gives the ranking of all the items.
pub proof fn lemma_merge_of_parts(x: Seq<Entry>, y: Seq<Entry>, limit: nat)
    ensures
        merge_entries(rank_all(x, limit), rank_all(y, limit), limit) == rank_all(x + y, limit),
{
    let a = rank_all(x, limit);
    let b = rank_all(y, limit);
    lemma_rank_all_selects(x, limit);
    lemma_rank_all_selects(y, limit);
    lemma_insert_all_selects(a, x, b, limit);
    lemma_selects_through(insert_all(a, b, limit), x, b, y, limit);
    lemma_rank_all_selects(x + y, limit);
    lemma_selects_unique(insert_all(a, b, limit), rank_all(x + y, limit), x + y, limit);
}

/// Merging rankings is associative.
pub proof fn lemma_merge_associative(a: Seq<Entry>, b: Seq<Entry>, c: Seq<Entry>, limit: nat)
    requires
        descending(a) && a.len() <= limit,
        descending(b) && b.len() <= limit,
        descending(c) && c.len() <= limit,
    ensures
        merge_entries(merge_entries(a, b, limit), c, limit) == merge_entries(
            a,
            merge_entries(b, c, limit),
            limit,
        ),
{
    lemma_rank_all_of_ranking(a, limit);
    lemma_rank_all_of_ranking(b, limit);
    lemma_rank_all_of_ranking(c, limit);
    lemma_merge_of_parts(a, b, limit);
    lemma_merge_of_parts(a + b, c, limit);
    lemma_merge_of_parts(b, c, limit);
    lemma_merge_of_parts(a, b + c, limit);
    assert((a + b) + c =~= a + (b + c));
}

/// No two of the items have the same key.
pub open spec fn distinct_keys(items: Seq<Entry>) -> bool {
    forall|i: int, j: int| 0 <= i < j < items.len() ==> items[i].key != items[j].key
}

/// Where no key occurs twice, the ranking depends on which items there are and
/// not on their order.
pub proof fn lemma_rank_all_any_order(x: Seq<Entry>, y: Seq<Entry>, limit: nat)
    requires
        distinct_keys(x),
        distinct_keys(y),
        forall|e: Entry| x.contains(e) <==> y.contains(e),
    ensures
        rank_all(x, limit) == rank_all(y, limit),
{
    let s = rank_all(x, limit);
    lemma_rank_all_selects(x, limit);
    lemma_rank_all_selects(y, limit);
    assert forall|i: int| 0 <= i < s.len() implies chosen_from(y, #[trigger] s[i]) by {
        assert(chosen_from(x, s[i]));
        let j = choose|j: int| #[trigger] is_last_with_key(x, j) && x[j] == s[i];
        assert(x.contains(s[i]));
        assert(y.contains(s[i]));
        let k = choose|k: int| 0 <= k < y.len() && y[k] == s[i];
        assert(is_last_with_key(y, k));
    }
    assert forall|j: int| 0 <= j < y.len() implies covers(s, limit, #[trigger] y[j].key) by {
        assert(y.contains(y[j]));
        assert(x.contains(y[j]));
        let k = choose|k: int| 0 <= k < x.len() && x[k] == y[j];
        assert(covers(s, limit, x[k].key));
    }
    lemma_selects_unique(s, rank_all(y, limit), y, limit);
}

/// Merging two rankings that share no key gives the same in either order.
pub proof fn lemma_merge_commutative(a: Seq<Entry>, b: Seq<Entry>, limit: nat)
    requires
        descending(a) && a.len() <= limit,
        descending(b) && b.len() <= limit,
        distinct_keys(a + b),
    ensures
        merge_entries(a, b, limit) == merge_entries(b, a, limit),
{
    lemma_rank_all_of_ranking(a, limit);
    lemma_rank_all_of_ranking(b, limit);
    lemma_merge_of_parts(a, b, limit);
    lemma_merge_of_parts(b, a, limit);
    let ab = a + b;
    let ba = b + a;
    assert forall|i: int, j: int| 0 <= i < j < ba.len() implies ba[i].key != ba[j].key by {
        let n = b.len() as int;
        let m = a.len() as int;
        if j < n {
            assert(ab[m + i] == ba[i] && ab[m + j] == ba[j]);
        } else if i < n {
            assert(ab[m + i] == ba[i] && ab[j - n] == ba[j]);
        } else {
            assert(ab[i - n] == ba[i] && ab[j - n] == ba[j]);
        }
    }
    assert forall|e: Entry| ab.contains(e) <==> ba.contains(e) by {
        if ab.contains(e) {
            let i = choose|i: int| 0 <= i < ab.len() && ab[i] == e;
            if i < a.len() {
                assert(ba[b.len() + i] == e);
            } else {
                assert(ba[i - a.len()] == e);
            }
        }
        if ba.contains(e) {
            let i = choose|i: int| 0 <= i < ba.len() && ba[i] == e;
            if i < b.len() {
                assert(ab[a.len() + i] == e);
            } else {
                assert(ab[i - b.len()] == e);
            }
        }
    }
    lemma_rank_all_any_order(ab, ba, limit);
}

/// The parts of a partition laid end to end.
pub open spec fn concat_all(parts: Seq<Seq<Entry>>) -> Seq<Entry>
    decreases parts.len(),
{
    if parts.len() == 0 {
        Seq::empty()
    } else {
        concat_all(parts.drop_last()) + parts.last()
    }
}

/// What parallel workers produce together: each part ranked by itself, and the
/// rankings merged one after the other.
pub open spec fn merge_all(parts: Seq<Seq<Entry>>, limit: nat) -> Seq<Entry>
    decreases parts.len(),
{
    if parts.len() == 0 {
        Seq::empty()
    } else {
        merge_entries(merge_all(parts.drop_last(), limit), rank_all(parts.last(), limit), limit)
    }
}

/// Ranking the parts of a partition one by one and merging the rankings gives
/// the ranking of the parts laid end to end.
pub proof fn lemma_merge_all_of_parts(parts: Seq<Seq<Entry>>, limit: nat)
    ensures
        merge_all(parts, limit) == rank_all(concat_all(parts), limit),
    decreases parts.len(),
{
    if parts.len() > 0 {
        lemma_merge_all_of_parts(parts.drop_last(), limit);
        lemma_merge_of_parts(concat_all(parts.drop_last()), parts.last(), limit);
    }
}

/// Where no two items have the same key, the selection does not depend on how
/// the items are dealt out to workers: however `parts` divides and orders the
/// items, the merged rankings of the parts are the ranking of the items.
pub proof fn lemma_partition_independent(
    items: Seq<Entry>,
    parts: Seq<Seq<Entry>>,
    limit: nat,
)
    requires
        distinct_keys(items),
        distinct_keys(concat_all(parts)),
        forall|e: Entry| items.contains(e) <==> concat_all(parts).contains(e),
    ensures
        merge_all(parts, limit) == rank_all(items, limit),
{
    lemma_merge_all_of_parts(parts, limit);
    lemma_rank_all_any_order(concat_all(parts), items, limit);
}

/// The keys as entries, each with its position.
pub open spec fn keyed(keys: Seq<u64>) -> Seq<Entry> {
    Seq::new(keys.len(), |i: int| Entry { key: keys[i], item: i as usize })
}

/// What a parallel fold leaves where it divides the items as `split` does:
/// each run ranked by itself, and the rankings of neighbours merged.
pub open spec fn split_ranking(split: Split<Entry>, limit: nat) -> Seq<Entry>
    decreases split,
{
    match split {
        Split::Run(items) => rank_all(items, limit),
        Split::Join(left, right) => merge_entries(
            split_ranking(*left, limit),
            split_ranking(*right, limit),
            limit,
        ),
    }
}

/// However a parallel fold divides the items, it leaves their ranking.
pub proof fn lemma_split_ranking(split: Split<Entry>, limit: nat)
    ensures
        split_ranking(split, limit) == rank_all(split.items(), limit),
    decreases split,
{
    match split {
        Split::Run(items) => {},
        Split::Join(left, right) => {
            lemma_split_ranking(*left, limit);
            lemma_split_ranking(*right, limit);
            lemma_merge_of_parts(left.items(), right.items(), limit);
        },
    }
}

/// `ranking` is what some parallel fold of `items` leaves.
pub open spec fn is_folded_ranking(items: Seq<Entry>, limit: nat, ranking: Seq<Entry>) -> bool {
    exists|split: Split<Entry>| split.items() == items && ranking == split_ranking(split, limit)
}

/// Ranks the keys with rayon's `par_iter`, `enumerate`, `fold` and `reduce`.
/// Trusted: rayon folds runs of neighbouring keys in order, each from an empty
/// ranking by `TopK::insert`, and joins the results of neighbouring runs, the
/// left one first, by `TopK::merge`; how it divides the keys is not known.
#[verifier::external_body]
fn fold_ranking(keys: &Vec<u64>, limit: usize) -> (top: TopK)
    ensures
        top.limit() == limit,
        is_folded_ranking(keyed(keys@), limit as nat, top.entries()),
{
    keys.par_iter().enumerate().fold(
        || TopK::new(limit),
        |top, (item, key)| top.insert(*key, item),
    ).reduce(|| TopK::new(limit), |left, right| left.merge(right))
}

/// Each entry of the ranking of some keys holds a position among the keys and
/// the key at that position.
pub proof fn lemma_ranked_positions(keys: Seq<u64>, limit: nat)
    requires
        keys.len() <= usize::MAX,
    ensures
        forall|i: int|
            0 <= i < rank_all(keyed(keys), limit).len() ==> (#[trigger] rank_all(
                keyed(keys),
                limit,
            )[i]).item < keys.len() && keys[rank_all(keyed(keys), limit)[i].item as int]
                == rank_all(keyed(keys), limit)[i].key,
{
    let items = keyed(keys);
    let top = rank_all(items, limit);
    lemma_rank_all_selects(items, limit);
    assert forall|i: int| 0 <= i < top.len() implies (#[trigger] top[i]).item < keys.len()
        && keys[top[i].item as int] == top[i].key by {
        assert(chosen_from(items, top[i]));
        let j = choose|j: int| #[trigger] is_last_with_key(items, j) && items[j] == top[i];
        assert(items[j].item == j);
    }
}

/// Selects the `n` largest of `keys`: at most `n` entries, each a key with its
/// position in `keys`, in strictly descending order of key. Of equal keys the
/// last position is kept.
pub fn select_top_k(keys: &Vec<u64>, n: usize) -> (top: Vec<Entry>)
    ensures
        top@ == rank_all(keyed(keys@), n as nat),
        selects(top@, keyed(keys@), n as nat),
        top@.len() <= n,
        top@.len() <= keys@.len(),
        descending(top@),
        forall|i: int|
            0 <= i < top@.len() ==> (#[trigger] top@[i]).item < keys@.len()
                && keys@[top@[i].item as int] == top@[i].key,
{
    let top = fold_ranking(keys, n);
    proof {
        assert(keys@.len() == keys.len());
        lemma_ranked_positions(keys@, n as nat);
        lemma_rank_all_selects(keyed(keys@), n as nat);
        lemma_rank_all_len(keyed(keys@), n as nat);
        let split = choose|split: Split<Entry>|
            split.items() == keyed(keys@) && top.entries() == split_ranking(split, n as nat);
        lemma_split_ranking(split, n as nat);
    }
    top.into_entries()
}

} // verus!
