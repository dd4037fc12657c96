//! The table of the largest entries seen during a scan.
use vstd::prelude::*;
use vstd::multiset::Multiset;
use crate::config::EntryKind;
use crate::text::chars_of;

verus! {

broadcast use {vstd::seq_lib::group_to_multiset_ensures, vstd::multiset::group_multiset_axioms};

/// What an entry of the table is, as the contracts see it: size, kind, path.
pub type EntryKey = (u64, EntryKind, Seq<char>);

/// One candidate for the largest-entries table.
#[derive(Debug, Clone, PartialEq, Eq, PartialOrd, Ord)]
pub struct TopEntry {
    pub size_bytes: u64,
    pub kind: EntryKind,
    pub path: String,
}

impl View for TopEntry {
    type V = EntryKey;

    open spec fn view(&self) -> EntryKey {
        (self.size_bytes, self.kind, self.path@)
    }
}

pub open spec fn kind_rank(k: EntryKind) -> nat {
    match k {
        EntryKind::File => 0,
        EntryKind::Directory => 1,
    }
}

/// Strict lexicographic order on texts, character by character (the order
/// of their UTF-8 bytes).
pub open spec fn text_lt(a: Seq<char>, b: Seq<char>) -> bool
    decreases a.len(),
{
    if a.len() == 0 {
        b.len() > 0
    } else if b.len() == 0 {
        false
    } else if a[0] != b[0] {
        a[0] < b[0]
    } else {
        text_lt(a.drop_first(), b.drop_first())
    }
}

/// The order of `TopEntry` values: by size, then kind, then path.
pub open spec fn key_lt(a: EntryKey, b: EntryKey) -> bool {
    ||| a.0 < b.0
    ||| (a.0 == b.0 && kind_rank(a.1) < kind_rank(b.1))
    ||| (a.0 == b.0 && a.1 == b.1 && text_lt(a.2, b.2))
}

/// The order of the summary table: larger first, then by path, then by kind.
pub open spec fn listed_before(a: EntryKey, b: EntryKey) -> bool {
    ||| a.0 > b.0
    ||| (a.0 == b.0 && text_lt(a.2, b.2))
    ||| (a.0 == b.0 && a.2 == b.2 && kind_rank(a.1) <= kind_rank(b.1))
}

pub proof fn lemma_text_lt_irreflexive(a: Seq<char>)
    ensures
        !text_lt(a, a),
    decreases a.len(),
{
    if a.len() > 0 {
        lemma_text_lt_irreflexive(a.drop_first());
    }
}

pub proof fn lemma_text_lt_transitive(a: Seq<char>, b: Seq<char>, c: Seq<char>)
    requires
        text_lt(a, b),
        text_lt(b, c),
    ensures
        text_lt(a, c),
    decreases a.len(),
{
    if a.len() > 0 && b.len() > 0 && c.len() > 0 {
        if a[0] == b[0] && b[0] == c[0] {
            lemma_text_lt_transitive(a.drop_first(), b.drop_first(), c.drop_first());
        }
    }
}

pub proof fn lemma_text_lt_total(a: Seq<char>, b: Seq<char>)
    ensures
        a == b || text_lt(a, b) || text_lt(b, a),
    decreases a.len(),
{
    if a.len() > 0 && b.len() > 0 && a[0] == b[0] {
        lemma_text_lt_total(a.drop_first(), b.drop_first());
        if a.drop_first() == b.drop_first() {
            assert(a =~= seq![a[0]] + a.drop_first());
            assert(b =~= seq![b[0]] + b.drop_first());
        }
    } else if a.len() == 0 && b.len() == 0 {
        assert(a =~= b);
    } else if a.len() > 0 && b.len() > 0 {
    }
}

pub proof fn lemma_text_lt_asymmetric(a: Seq<char>, b: Seq<char>)
    requires
        text_lt(a, b),
    ensures
        !text_lt(b, a),
{
    if text_lt(b, a) {
        lemma_text_lt_transitive(a, b, a);
        lemma_text_lt_irreflexive(a);
    }
}

/// Whether `a` comes before `b`, character by character.
pub fn text_less(a: &str, b: &str) -> (r: bool)
    ensures
        r == text_lt(a@, b@),
{
    let x = chars_of(a);
    let y = chars_of(b);
    let mut i: usize = 0;
    proof {
        assert(x@.skip(0) =~= x@);
        assert(y@.skip(0) =~= y@);
    }
    while i < x.len() && i < y.len() && x[i] == y[i]
        invariant
            0 <= i <= x@.len(),
            i <= y@.len(),
            text_lt(a@, b@) == text_lt(x@.skip(i as int), y@.skip(i as int)),
            x@ == a@,
            y@ == b@,
        decreases x.len() - i,
    {
        assert(x@.skip(i as int).drop_first() =~= x@.skip(i + 1));
        assert(y@.skip(i as int).drop_first() =~= y@.skip(i + 1));
        i = i + 1;
    }
    if i == x.len() {
        i < y.len()
    } else if i == y.len() {
        false
    } else {
        x[i] < y[i]
    }
}

} // verus!

verus! {

pub proof fn lemma_key_lt_total(a: EntryKey, b: EntryKey)
    ensures
        a == b || key_lt(a, b) || key_lt(b, a),
{
    lemma_text_lt_total(a.2, b.2);
}

pub proof fn lemma_key_lt_irreflexive(a: EntryKey)
    ensures
        !key_lt(a, a),
{
    lemma_text_lt_irreflexive(a.2);
}

pub proof fn lemma_key_lt_asymmetric(a: EntryKey, b: EntryKey)
    requires
        key_lt(a, b),
    ensures
        !key_lt(b, a),
{
    if a.0 == b.0 && a.1 == b.1 && text_lt(a.2, b.2) {
        lemma_text_lt_asymmetric(a.2, b.2);
    }
}

pub proof fn lemma_key_lt_transitive(a: EntryKey, b: EntryKey, c: EntryKey)
    requires
        key_lt(a, b),
        key_lt(b, c),
    ensures
        key_lt(a, c),
{
    if a.0 == b.0 && b.0 == c.0 && a.1 == b.1 && b.1 == c.1 {
        lemma_text_lt_transitive(a.2, b.2, c.2);
    }
}

pub proof fn lemma_listed_before_total(a: EntryKey, b: EntryKey)
    ensures
        listed_before(a, b) || listed_before(b, a),
{
    lemma_text_lt_total(a.2, b.2);
}

pub proof fn lemma_listed_before_transitive(a: EntryKey, b: EntryKey, c: EntryKey)
    requires
        listed_before(a, b),
        listed_before(b, c),
    ensures
        listed_before(a, c),
{
    if a.0 == b.0 && b.0 == c.0 {
        if text_lt(a.2, b.2) && text_lt(b.2, c.2) {
            lemma_text_lt_transitive(a.2, b.2, c.2);
        }
    }
}

pub proof fn lemma_listed_before_antisymmetric(a: EntryKey, b: EntryKey)
    requires
        listed_before(a, b),
        listed_before(b, a),
    ensures
        a == b,
{
    assert(a.0 == b.0);
    if text_lt(a.2, b.2) {
        lemma_text_lt_asymmetric(a.2, b.2);
        lemma_text_lt_irreflexive(a.2);
    } else if text_lt(b.2, a.2) {
        lemma_text_lt_asymmetric(b.2, a.2);
        lemma_text_lt_irreflexive(a.2);
    }
    assert(a.2 == b.2);
    assert(kind_rank(a.1) == kind_rank(b.1));
    assert(a.1 == b.1) by {
        match a.1 {
            EntryKind::File => {},
            EntryKind::Directory => {},
        }
    }
}

/// `x` is a smallest element of `m` in the entry order.
pub open spec fn is_least(m: Multiset<EntryKey>, x: EntryKey) -> bool {
    m.contains(x) && forall|y: EntryKey| m.contains(y) ==> !key_lt(y, x)
}

/// The smallest element of `m` (unique, the order being total).
pub open spec fn least(m: Multiset<EntryKey>) -> EntryKey {
    choose|x: EntryKey| is_least(m, x)
}

/// The table after offering `e`: with room for `limit` entries, `e` joins
/// and, when that overfills the table, the smallest entry leaves.
pub open spec fn push_model(kept: Multiset<EntryKey>, limit: nat, e: EntryKey) -> Multiset<
    EntryKey,
> {
    if limit == 0 {
        kept
    } else {
        let all = kept.insert(e);
        if all.len() > limit {
            all.remove(least(all))
        } else {
            all
        }
    }
}

pub open spec fn keys_of(s: Seq<TopEntry>) -> Seq<EntryKey> {
    s.map_values(|e: TopEntry| e@)
}

/// A copy of `e` with the same view.
pub fn copy_entry(e: &TopEntry) -> (r: TopEntry)
    ensures
        r@ == e@,
{
    TopEntry { size_bytes: e.size_bytes, kind: e.kind, path: e.path.clone() }
}

fn kind_rank_exec(k: EntryKind) -> (r: u8)
    ensures
        r == kind_rank(k),
{
    match k {
        EntryKind::File => 0,
        EntryKind::Directory => 1,
    }
}

/// `key_lt` on two entries.
pub fn entry_less(a: &TopEntry, b: &TopEntry) -> (r: bool)
    ensures
        r == key_lt(a@, b@),
{
    if a.size_bytes != b.size_bytes {
        return a.size_bytes < b.size_bytes;
    }
    let ra = kind_rank_exec(a.kind);
    let rb = kind_rank_exec(b.kind);
    if ra != rb {
        return ra < rb;
    }
    assert(a.kind == b.kind) by {
        match a.kind {
            EntryKind::File => {},
            EntryKind::Directory => {},
        }
    }
    text_less(a.path.as_str(), b.path.as_str())
}

/// `listed_before` on two entries.
pub fn listed_first(a: &TopEntry, b: &TopEntry) -> (r: bool)
    ensures
        r == listed_before(a@, b@),
{
    if a.size_bytes != b.size_bytes {
        return a.size_bytes > b.size_bytes;
    }
    if text_less(a.path.as_str(), b.path.as_str()) {
        return true;
    }
    if text_less(b.path.as_str(), a.path.as_str()) {
        proof {
            lemma_text_lt_asymmetric(b.path@, a.path@);
        }
        return false;
    }
    proof {
        lemma_text_lt_total(a.path@, b.path@);
    }
    kind_rank_exec(a.kind) <= kind_rank_exec(b.kind)
}

/// The `limit` largest entries offered so far.
pub struct TopN {
    limit: usize,
    heap: Vec<TopEntry>,
    /// Every entry offered so far, in order.
    pushed: Ghost<Seq<EntryKey>>,
}

impl TopN {
    /// The entries held, by their views.
    pub closed spec fn kept(&self) -> Multiset<EntryKey> {
        keys_of(self.heap@).to_multiset()
    }

    /// How many entries the table holds at most.
    pub closed spec fn max_len(&self) -> nat {
        self.limit as nat
    }

    /// The entries offered so far, in order.
    pub closed spec fn offers(&self) -> Seq<EntryKey> {
        self.pushed@
    }

    /// The table holds what offering its entries in order leaves.
    pub open spec fn wf(&self) -> bool {
        &&& self.kept().len() <= self.max_len()
        &&& self.kept() == offered(self.max_len(), self.offers())
    }

    /// An empty table with room for `limit` entries.
    pub fn new(limit: usize) -> (t: TopN)
        ensures
            t.wf(),
            t.max_len() == limit,
            t.kept() == Multiset::<EntryKey>::empty(),
            t.offers().len() == 0,
    {
        let t = TopN { limit, heap: Vec::new(), pushed: Ghost(Seq::empty()) };
        assert(keys_of(t.heap@) =~= Seq::<EntryKey>::empty());
        assert(offered(limit as nat, Seq::<EntryKey>::empty()) == Multiset::<EntryKey>::empty());
        assert(t.offers() == Seq::<EntryKey>::empty());
        assert(keys_of(t.heap@).to_multiset() =~= Multiset::<EntryKey>::empty()) by {
            broadcast use vstd::seq_lib::group_to_multiset_ensures;
            keys_of(t.heap@).to_multiset_ensures();
        }
        assert(t.kept() == offered(t.max_len(), t.offers()));
        t
    }

    /// Offers `entry`: the table keeps the `limit` largest entries it has
    /// been offered (the smallest leaves when it overfills).
    pub fn push(&mut self, entry: TopEntry)
        requires
            old(self).wf(),
        ensures
            final(self).wf(),
            final(self).max_len() == old(self).max_len(),
            final(self).kept() == push_model(old(self).kept(), old(self).max_len(), entry@),
            final(self).offers() == old(self).offers().push(entry@),
    {
        let ghost e = entry@;
        proof {
            self.pushed@ = self.pushed@.push(e);
            assert(self.pushed@.drop_last() =~= old(self).pushed@);
        }
        if self.limit == 0 {
            return;
        }
        let ghost old_heap = self.heap@;
        self.heap.push(entry);
        assert(keys_of(self.heap@) =~= keys_of(old_heap).push(e));
        let ghost all = keys_of(self.heap@).to_multiset();
        assert(all == keys_of(old_heap).to_multiset().insert(e));
        if self.heap.len() > self.limit {
            let mut i: usize = 0;
            let mut k: usize = 1;
            proof {
                lemma_key_lt_irreflexive(self.heap@[0]@);
            }
            while k < self.heap.len()
                invariant
                    1 <= k <= self.heap@.len(),
                    0 <= i < k,
                    forall|j: int| 0 <= j < k ==> !key_lt(#[trigger] self.heap@[j]@, self.heap@[i as int]@),
                decreases self.heap.len() - k,
            {
                if entry_less(&self.heap[k], &self.heap[i]) {
                    proof {
                        assert forall|j: int| 0 <= j < k + 1 implies !key_lt(#[trigger] self.heap@[j]@, self.heap@[k as int]@) by {
                            if j < k {
                                if key_lt(self.heap@[j]@, self.heap@[k as int]@) {
                                    lemma_key_lt_transitive(self.heap@[j]@, self.heap@[k as int]@, self.heap@[i as int]@);
                                }
                            } else {
                                lemma_key_lt_irreflexive(self.heap@[k as int]@);
                            }
                        }
                    }
                    i = k;
                }
                k = k + 1;
            }
            let ghost keys = keys_of(self.heap@);
            let ghost m = self.heap@[i as int]@;
            proof {
                assert(keys[i as int] == m);
                assert(all.contains(m));
                assert forall|y: EntryKey| all.contains(y) implies !key_lt(y, m) by {
                    assert(keys.contains(y));
                    let j = choose|j: int| 0 <= j < keys.len() && keys[j] == y;
                    assert(self.heap@[j]@ == y);
                }
                assert(is_least(all, m));
                let l = least(all);
                assert(is_least(all, l));
                lemma_key_lt_total(l, m);
                assert(l == m);
            }
            self.heap.remove(i);
            assert(keys_of(self.heap@) =~= keys.remove(i as int));
        }
    }

    /// The held entries, largest first; equal sizes by path, then kind: the
    /// largest of all the entries offered, as many as the table has room for.
    pub fn sorted_desc(&self) -> (r: Vec<TopEntry>)
        requires
            self.wf(),
        ensures
            keys_of(r@).to_multiset() == self.kept(),
            holds_largest(self.offers().to_multiset(), keys_of(r@).to_multiset(), self.max_len()),
            forall|i: int, j: int| 0 <= i < j < r@.len() ==> listed_before(#[trigger] r@[i]@, #[trigger] r@[j]@),
    {
        let mut res: Vec<TopEntry> = Vec::new();
        let mut n: usize = 0;
        assert(keys_of(self.heap@).take(0) =~= Seq::<EntryKey>::empty());
        assert(keys_of(res@) =~= Seq::<EntryKey>::empty());
        while n < self.heap.len()
            invariant
                0 <= n <= self.heap@.len(),
                keys_of(res@).to_multiset() == keys_of(self.heap@).take(n as int).to_multiset(),
                forall|i: int, j: int| 0 <= i < j < res@.len() ==> listed_before(#[trigger] res@[i]@, #[trigger] res@[j]@),
            decreases self.heap.len() - n,
        {
            let x = copy_entry(&self.heap[n]);
            let mut k: usize = 0;
            while k < res.len() && listed_first(&res[k], &x)
                invariant
                    0 <= k <= res@.len(),
                    forall|j: int| 0 <= j < k ==> listed_before(#[trigger] res@[j]@, x@),
                decreases res.len() - k,
            {
                k = k + 1;
            }
            let ghost before = res@;
            proof {
                if k < before.len() {
                    lemma_listed_before_total(before[k as int]@, x@);
                }
            }
            res.insert(k, x);
            proof {
                assert(keys_of(res@) =~= keys_of(before).insert(k as int, x@));
                assert(keys_of(self.heap@).take(n + 1) =~= keys_of(self.heap@).take(n as int).push(x@));
                assert forall|i: int, j: int| 0 <= i < j < res@.len() implies listed_before(#[trigger] res@[i]@, #[trigger] res@[j]@) by {
                    if j < k {
                    } else if j == k {
                    } else if i < k {
                        lemma_listed_before_transitive(res@[i]@, x@, before[k as int]@);
                        if j - 1 > k {
                            lemma_listed_before_transitive(res@[i]@, before[k as int]@, before[j - 1]@);
                        }
                    } else if i == k {
                        if j - 1 > k {
                            lemma_listed_before_transitive(x@, before[k as int]@, before[j - 1]@);
                        }
                    } else {
                        assert(res@[i] == before[i - 1]);
                        assert(res@[j] == before[j - 1]);
                    }
                }
            }
            n = n + 1;
        }
        assert(keys_of(self.heap@).take(self.heap@.len() as int) =~= keys_of(self.heap@));
        proof {
            lemma_table_holds_largest(self.max_len(), self.offers());
        }
        res
    }
}

} // verus!

verus! {

/// `kept` holds the largest entries of `seen`: as many as `limit` allows, and
/// none of those left out is larger than one kept.
pub open spec fn holds_largest(seen: Multiset<EntryKey>, kept: Multiset<EntryKey>, limit: nat) -> bool {
    &&& kept.subset_of(seen)
    &&& kept.len() == (if seen.len() < limit {
        seen.len()
    } else {
        limit
    })
    &&& forall|x: EntryKey, y: EntryKey|
        kept.count(x) > 0 && seen.count(y) > kept.count(y) ==> !key_lt(x, y)
}

/// The table after offering `es` in order, starting empty.
pub open spec fn offered(limit: nat, es: Seq<EntryKey>) -> Multiset<EntryKey>
    decreases es.len(),
{
    if es.len() == 0 {
        Multiset::empty()
    } else {
        push_model(offered(limit, es.drop_last()), limit, es.last())
    }
}

/// A non-empty multiset has a least element.
pub proof fn lemma_least_exists(m: Multiset<EntryKey>)
    requires
        m.len() > 0,
    ensures
        is_least(m, least(m)),
    decreases m.len(),
{
    let c = m.choose();
    let rest = m.remove(c);
    assert(m.count(c) > 0);
    assert(rest.len() == m.len() - 1);
    if rest.len() == 0 {
        assert forall|y: EntryKey| m.contains(y) implies !key_lt(y, c) by {
            if y != c {
                assert(rest.count(y) == m.count(y));
                assert(rest.count(y) <= rest.len());
            } else {
                lemma_key_lt_irreflexive(c);
            }
        }
        assert(is_least(m, c));
    } else {
        lemma_least_exists(rest);
        let r = least(rest);
        if key_lt(c, r) {
            assert forall|y: EntryKey| m.contains(y) implies !key_lt(y, c) by {
                if y == c {
                    lemma_key_lt_irreflexive(c);
                } else {
                    assert(rest.contains(y));
                    if key_lt(y, c) {
                        lemma_key_lt_transitive(y, c, r);
                    }
                }
            }
            assert(is_least(m, c));
        } else {
            assert forall|y: EntryKey| m.contains(y) implies !key_lt(y, r) by {
                if y != c {
                    assert(rest.contains(y));
                }
            }
            assert(is_least(m, r));
        }
    }
}

/// Two least elements are the same.
pub proof fn lemma_least_unique(m: Multiset<EntryKey>, a: EntryKey, b: EntryKey)
    requires
        is_least(m, a),
        is_least(m, b),
    ensures
        a == b,
{
    lemma_key_lt_total(a, b);
}

proof fn lemma_subset_same_len(a: Multiset<EntryKey>, b: Multiset<EntryKey>)
    requires
        a.subset_of(b),
        a.len() == b.len(),
    ensures
        a == b,
{
    let d = b.sub(a);
    assert(d.len() == 0);
    assert forall|v: EntryKey| a.count(v) == b.count(v) by {
        assert(d.count(v) <= d.len());
    }
    assert(a =~= b);
}

proof fn lemma_subset_len(a: Multiset<EntryKey>, b: Multiset<EntryKey>)
    requires
        a.subset_of(b),
    ensures
        a.len() <= b.len(),
{
    assert(b.sub(a).len() == b.len() - a.len());
}

/// Offering one more entry keeps the table holding the largest entries.
pub proof fn lemma_push_holds_largest(
    seen: Multiset<EntryKey>,
    kept: Multiset<EntryKey>,
    limit: nat,
    e: EntryKey,
)
    requires
        holds_largest(seen, kept, limit),
    ensures
        holds_largest(seen.insert(e), push_model(kept, limit, e), limit),
{
    let s2 = seen.insert(e);
    let a = kept.insert(e);
    lemma_subset_len(kept, seen);
    if limit == 0 {
        assert forall|x: EntryKey| kept.count(x) == 0 by {
            assert(kept.count(x) <= kept.len());
        }
    } else if a.len() <= limit {
        lemma_subset_same_len(kept, seen);
        assert forall|y: EntryKey| s2.count(y) == a.count(y) by {}
    } else {
        lemma_least_exists(a);
        let m = least(a);
        let k2 = a.remove(m);
        assert(push_model(kept, limit, e) == k2);
        assert(a.subset_of(s2));
        lemma_subset_len(a, s2);
        assert(k2.len() == limit);
        assert forall|x: EntryKey, y: EntryKey|
            k2.count(x) > 0 && s2.count(y) > k2.count(y) implies !key_lt(x, y) by {
            if y == m {
            } else {
                assert(seen.count(y) > kept.count(y));
                if kept.count(x) == 0 {
                    assert(x == e);
                    if key_lt(e, y) {
                        assert forall|z: EntryKey| a.contains(z) implies !key_lt(z, e) by {
                            if z == e {
                                lemma_key_lt_irreflexive(e);
                            } else {
                                assert(kept.count(z) > 0);
                                assert(!key_lt(z, y));
                                lemma_key_lt_total(z, y);
                                if z != y {
                                    lemma_key_lt_transitive(e, y, z);
                                    lemma_key_lt_asymmetric(e, z);
                                } else {
                                    lemma_key_lt_asymmetric(e, y);
                                }
                            }
                        }
                        assert(is_least(a, e));
                        lemma_least_unique(a, e, m);
                        assert(k2.count(e) == kept.count(e));
                    }
                }
            }
        }
    }
}

/// The table keeps the largest entries offered: after offering `es` in
/// order, it holds `min(limit, |es|)` of them, and none left out is larger
/// than one kept.
pub proof fn lemma_table_holds_largest(limit: nat, es: Seq<EntryKey>)
    ensures
        holds_largest(es.to_multiset(), offered(limit, es), limit),
    decreases es.len(),
{
    if es.len() == 0 {
        assert(es.to_multiset() =~= Multiset::<EntryKey>::empty());
    } else {
        let init = es.drop_last();
        lemma_table_holds_largest(limit, init);
        assert(es =~= init.push(es.last()));
        lemma_push_holds_largest(init.to_multiset(), offered(limit, init), limit, es.last());
    }
}


/// Two tables that both hold the largest entries of the same offers, with
/// the same room, hold the same entries.
pub proof fn lemma_holds_largest_unique(
    seen: Multiset<EntryKey>,
    k1: Multiset<EntryKey>,
    k2: Multiset<EntryKey>,
    limit: nat,
)
    requires
        holds_largest(seen, k1, limit),
        holds_largest(seen, k2, limit),
    ensures
        k1 == k2,
{
    if k1 != k2 {
        if k2.subset_of(k1) {
            lemma_subset_same_len(k2, k1);
        } else if k1.subset_of(k2) {
            lemma_subset_same_len(k1, k2);
        } else {
            let w = choose|w: EntryKey| k2.count(w) > k1.count(w);
            let v = choose|v: EntryKey| k1.count(v) > k2.count(v);
            assert(k2.count(w) > k1.count(w));
            assert(k1.count(v) > k2.count(v));
            assert(seen.count(v) >= k1.count(v));
            assert(seen.count(w) >= k2.count(w));
            assert(!key_lt(w, v));
            assert(!key_lt(v, w));
            lemma_key_lt_total(v, w);
        }
    }
}

/// The order in which entries are offered does not matter: offering the
/// same entries in any order leaves the same table.
pub proof fn lemma_offered_ignores_order(limit: nat, es1: Seq<EntryKey>, es2: Seq<EntryKey>)
    requires
        es1.to_multiset() == es2.to_multiset(),
    ensures
        offered(limit, es1) == offered(limit, es2),
{
    lemma_table_holds_largest(limit, es1);
    lemma_table_holds_largest(limit, es2);
    lemma_holds_largest_unique(es1.to_multiset(), offered(limit, es1), offered(limit, es2), limit);
}

/// A table has one listing only: two orderings of the same entries that both
/// follow the summary order are the same sequence.
pub proof fn lemma_listing_unique(a: Seq<EntryKey>, b: Seq<EntryKey>)
    requires
        a.to_multiset() == b.to_multiset(),
        forall|i: int, j: int| 0 <= i < j < a.len() ==> listed_before(#[trigger] a[i], #[trigger] a[j]),
        forall|i: int, j: int| 0 <= i < j < b.len() ==> listed_before(#[trigger] b[i], #[trigger] b[j]),
    ensures
        a == b,
    decreases a.len(),
{
    broadcast use vstd::seq_lib::group_to_multiset_ensures;
    assert(a.len() == b.len()) by {
        a.to_multiset_ensures();
        b.to_multiset_ensures();
    }
    if a.len() > 0 {
        a.to_multiset_ensures();
        b.to_multiset_ensures();
        let x = a[0];
        let y = b[0];
        assert(a.to_multiset().count(x) > 0) by {
            assert(a.contains(x));
        }
        assert(b.contains(x));
        let jb = choose|j: int| 0 <= j < b.len() && b[j] == x;
        assert(b.to_multiset().count(y) > 0) by {
            assert(b.contains(y));
        }
        assert(a.contains(y));
        let ja = choose|j: int| 0 <= j < a.len() && a[j] == y;
        assert(listed_before(y, x)) by {
            if jb > 0 {
                assert(listed_before(b[0], b[jb]));
            } else {
                lemma_listed_before_total(x, x);
            }
        }
        assert(listed_before(x, y)) by {
            if ja > 0 {
                assert(listed_before(a[0], a[ja]));
            } else {
                lemma_listed_before_total(y, y);
            }
        }
        lemma_listed_before_antisymmetric(x, y);
        assert(a.remove(0) =~= a.drop_first());
        assert(b.remove(0) =~= b.drop_first());
        assert(a.drop_first().to_multiset() == b.drop_first().to_multiset());
        assert forall|i: int, j: int| 0 <= i < j < a.drop_first().len() implies listed_before(
            #[trigger] a.drop_first()[i],
            #[trigger] a.drop_first()[j],
        ) by {
            assert(listed_before(a[i + 1], a[j + 1]));
        }
        assert forall|i: int, j: int| 0 <= i < j < b.drop_first().len() implies listed_before(
            #[trigger] b.drop_first()[i],
            #[trigger] b.drop_first()[j],
        ) by {
            assert(listed_before(b[i + 1], b[j + 1]));
        }
        lemma_listing_unique(a.drop_first(), b.drop_first());
        assert(a =~= seq![x] + a.drop_first());
        assert(b =~= seq![y] + b.drop_first());
    } else {
        assert(a =~= b);
    }
}

} // verus!
