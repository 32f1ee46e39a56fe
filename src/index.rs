//! The in-memory index: for each key, the sequence number of its latest
//! mutation and where its value is.
use vstd::prelude::*;

verus! {

/// Where a key's latest value is.
#[derive(Debug)]
pub enum Value {
    /// In the command log, at this offset.
    Location(u64),
    /// Here, as it was written inline in the index log.
    Content(String),
    /// Nowhere: the key was removed. Only recovery keeps such entries.
    Deleted,
}

/// A location as a mathematical value.
pub enum ValueView {
    Location(u64),
    Content(Seq<char>),
    Deleted,
}

impl View for Value {
    type V = ValueView;

    open spec fn view(&self) -> ValueView {
        match self {
            Value::Location(o) => ValueView::Location(*o),
            Value::Content(s) => ValueView::Content(s@),
            Value::Deleted => ValueView::Deleted,
        }
    }
}

/// A key's sequence number and location, as an index maps it.
pub type Slot = (u64, ValueView);

/// A mutation as the index sees it: key, sequence number, location.
pub type Update = (Seq<char>, u64, ValueView);

/// Whether the index already holds `u` or something newer for its key.
pub open spec fn dominated(m: Map<Seq<char>, Slot>, u: Update) -> bool {
    m.contains_key(u.0) && m[u.0].0 >= u.1
}

/// Last writer wins: `u` replaces what the index holds for its key unless
/// that is as new or newer.
pub open spec fn lww(m: Map<Seq<char>, Slot>, u: Update) -> Map<Seq<char>, Slot> {
    if dominated(m, u) {
        m
    } else {
        m.insert(u.0, (u.1, u.2))
    }
}

/// The index after applying a run of mutations in order.
pub open spec fn fold_lww(m: Map<Seq<char>, Slot>, us: Seq<Update>) -> Map<Seq<char>, Slot>
    decreases us.len(),
{
    if us.len() == 0 {
        m
    } else {
        lww(fold_lww(m, us.drop_last()), us.last())
    }
}

/// The entries of an index that are not tombstones.
pub open spec fn live(m: Map<Seq<char>, Slot>) -> Map<Seq<char>, Slot> {
    Map::new(|k: Seq<char>| m.contains_key(k) && !(m[k].1 is Deleted), |k: Seq<char>| m[k])
}

/// Every sequence number in `m` and in `us` is at most `b`.
pub open spec fn seqs_bounded(m: Map<Seq<char>, Slot>, us: Seq<Update>, b: int) -> bool {
    &&& forall|k: Seq<char>| #[trigger] m.contains_key(k) ==> m[k].0 <= b
    &&& forall|j: int| 0 <= j < us.len() ==> #[trigger] us[j].1 <= b
}

/// Applying one more mutation is one more step of last writer wins.
pub proof fn lemma_fold_push(m: Map<Seq<char>, Slot>, us: Seq<Update>, u: Update)
    ensures
        fold_lww(m, us.push(u)) == lww(fold_lww(m, us), u),
{
    assert(us.push(u).drop_last() =~= us);
}

/// Applying two runs of mutations is applying the first, then the second.
pub proof fn lemma_fold_concat(m: Map<Seq<char>, Slot>, xs: Seq<Update>, ys: Seq<Update>)
    ensures
        fold_lww(m, xs + ys) == fold_lww(fold_lww(m, xs), ys),
    decreases ys.len(),
{
    if ys.len() == 0 {
        assert(xs + ys =~= xs);
    } else {
        assert((xs + ys).drop_last() =~= xs + ys.drop_last());
        lemma_fold_concat(m, xs, ys.drop_last());
    }
}

/// What an index holds for a key only grows newer.
pub proof fn lemma_fold_keeps_dominated(m: Map<Seq<char>, Slot>, us: Seq<Update>, u: Update)
    requires
        dominated(m, u),
    ensures
        dominated(fold_lww(m, us), u),
    decreases us.len(),
{
    if us.len() > 0 {
        lemma_fold_keeps_dominated(m, us.drop_last(), u);
    }
}

/// After a run of mutations, the index holds each of them or something newer.
pub proof fn lemma_fold_dominates(m: Map<Seq<char>, Slot>, us: Seq<Update>, j: int)
    requires
        0 <= j < us.len(),
    ensures
        dominated(fold_lww(m, us), us[j]),
    decreases us.len(),
{
    let init = us.drop_last();
    if j == us.len() - 1 {
        assert(dominated(lww(fold_lww(m, init), us[j]), us[j]));
    } else {
        lemma_fold_dominates(m, init, j);
        assert(init[j] == us[j]);
        lemma_fold_keeps_dominated(fold_lww(m, init), seq![us.last()], us[j]);
        assert(seq![us.last()].drop_last() =~= Seq::<Update>::empty());
    }
}

/// Mutations that the index already holds, or something newer, change nothing.
pub proof fn lemma_fold_absorbed(m: Map<Seq<char>, Slot>, us: Seq<Update>)
    requires
        forall|j: int| 0 <= j < us.len() ==> dominated(m, #[trigger] us[j]),
    ensures
        fold_lww(m, us) == m,
    decreases us.len(),
{
    if us.len() > 0 {
        let init = us.drop_last();
        assert forall|j: int| 0 <= j < init.len() implies dominated(m, #[trigger] init[j]) by {
            assert(init[j] == us[j]);
        }
        lemma_fold_absorbed(m, init);
        assert(dominated(m, us[us.len() - 1]));
    }
}

/// Folding keeps every sequence number within a bound that holds of all inputs.
pub proof fn lemma_fold_bounded(m: Map<Seq<char>, Slot>, us: Seq<Update>, b: int)
    requires
        seqs_bounded(m, us, b),
    ensures
        forall|k: Seq<char>| #[trigger] fold_lww(m, us).contains_key(k) ==> fold_lww(m, us)[k].0
            <= b,
    decreases us.len(),
{
    if us.len() > 0 {
        let init = us.drop_last();
        assert forall|j: int| 0 <= j < init.len() implies #[trigger] init[j].1 <= b by {
            assert(init[j] == us[j]);
        }
        lemma_fold_bounded(m, init, b);
        assert(us.last().1 <= b);
        let f = fold_lww(m, init);
        assert(fold_lww(m, us) == lww(f, us.last()));
        assert forall|k: Seq<char>| #[trigger] fold_lww(m, us).contains_key(k) implies fold_lww(
            m,
            us,
        )[k].0 <= b by {
            if k != us.last().0 {
                assert(f.contains_key(k));
            }
        }
    }
}

/// Each entry's slot is what the map holds for its key.
pub open spec fn slots_agree(m: Map<Seq<char>, Slot>, es: Seq<Entry>) -> bool {
    forall|j: int|
        0 <= j < es.len() ==> #[trigger] m.contains_key(es[j].key@) && m[es[j].key@] == (
            es[j].seq,
            es[j].value@,
        )
}

/// One entry of the index.
pub struct Entry {
    pub key: String,
    pub seq: u64,
    pub value: Value,
}

/// The index: entries with distinct keys, and the map they stand for.
pub struct Index {
    pub entries: Vec<Entry>,
    pub map: Ghost<Map<Seq<char>, Slot>>,
}

impl View for Index {
    type V = Map<Seq<char>, Slot>;

    open spec fn view(&self) -> Map<Seq<char>, Slot> {
        self.map@
    }
}

impl Index {
    /// Keys are distinct, and the entries and the map hold the same slots.
    pub open spec fn wf(&self) -> bool {
        &&& forall|i: int|
            0 <= i < self.entries@.len() ==> #[trigger] self.map@.contains_key(
                self.entries@[i].key@,
            ) && self.map@[self.entries@[i].key@] == (
                self.entries@[i].seq,
                self.entries@[i].value@,
            )
        &&& forall|i: int, j: int|
            0 <= i < self.entries@.len() && 0 <= j < self.entries@.len() && i != j
                ==> #[trigger] self.entries@[i].key@ != #[trigger] self.entries@[j].key@
        &&& forall|k: Seq<char>| #[trigger]
            self.map@.contains_key(k) ==> exists|i: int|
                0 <= i < self.entries@.len() && #[trigger] self.entries@[i].key@ == k
    }

    /// An empty index.
    pub fn new() -> (r: Self)
        ensures
            r.wf(),
            r@ == Map::<Seq<char>, Slot>::empty(),
    {
        Index { entries: Vec::new(), map: Ghost(Map::empty()) }
    }

    /// The position of `key`'s entry.
    pub fn find(&self, key: &String) -> (r: Option<usize>)
        requires
            self.wf(),
        ensures
            match r {
                Some(i) => i < self.entries@.len() && self.entries@[i as int].key@ == key@,
                None => !self@.contains_key(key@),
            },
    {
        let mut i: usize = 0;
        while i < self.entries.len()
            invariant
                self.wf(),
                i <= self.entries@.len(),
                forall|j: int| 0 <= j < i ==> #[trigger] self.entries@[j].key@ != key@,
            decreases self.entries@.len() - i,
        {
            if self.entries[i].key == *key {
                return Some(i);
            }
            i = i + 1;
        }
        None
    }

    /// The slot of `key`.
    pub fn lookup(&self, key: &String) -> (r: Option<&Value>)
        requires
            self.wf(),
        ensures
            match r {
                Some(v) => self@.contains_key(key@) && self@[key@].1 == v@,
                None => !self@.contains_key(key@),
            },
    {
        match self.find(key) {
            Some(i) => {
                assert(self.map@.contains_key(self.entries@[i as int].key@));
                Some(&self.entries[i].value)
            },
            None => None,
        }
    }

    /// Sets `key`'s slot, whatever it held.
    pub fn put(&mut self, key: String, seq: u64, value: Value)
        requires
            old(self).wf(),
        ensures
            final(self).wf(),
            final(self)@ == old(self)@.insert(key@, (seq, value@)),
    {
        let ghost k = key@;
        let ghost slot = (seq, value@);
        match self.find(&key) {
            Some(i) => {
                self.entries.set(i, Entry { key, seq, value });
                self.map = Ghost(self.map@.insert(k, slot));
                assert forall|j: int| 0 <= j < self.entries@.len() implies #[trigger] self.entries@[j].key@
                    == old(self).entries@[j].key@ by {}
                assert forall|j: int| 0 <= j < self.entries@.len() implies #[trigger] self.map@.contains_key(
                    self.entries@[j].key@,
                ) && self.map@[self.entries@[j].key@] == (
                    self.entries@[j].seq,
                    self.entries@[j].value@,
                ) by {
                    if j != i {
                        assert(old(self).map@.contains_key(old(self).entries@[j].key@));
                        assert(old(self).entries@[j].key@ != old(self).entries@[i as int].key@);
                    }
                }
                assert forall|k2: Seq<char>| #[trigger]
                    self.map@.contains_key(k2) implies exists|j: int|
                    0 <= j < self.entries@.len() && #[trigger] self.entries@[j].key@ == k2 by {
                    if k2 != k {
                        let j = choose|j: int|
                            0 <= j < old(self).entries@.len() && #[trigger] old(
                                self,
                            ).entries@[j].key@ == k2;
                        assert(self.entries@[j].key@ == k2);
                    } else {
                        assert(self.entries@[i as int].key@ == k2);
                    }
                }
            },
            None => {
                self.entries.push(Entry { key, seq, value });
                self.map = Ghost(self.map@.insert(k, slot));
                let ghost n = old(self).entries@.len() as int;
                assert forall|j: int| 0 <= j < n implies #[trigger] self.entries@[j].key@ != k by {
                    assert(old(self).map@.contains_key(old(self).entries@[j].key@));
                }
                assert forall|j: int| 0 <= j < self.entries@.len() implies #[trigger] self.map@.contains_key(
                    self.entries@[j].key@,
                ) && self.map@[self.entries@[j].key@] == (
                    self.entries@[j].seq,
                    self.entries@[j].value@,
                ) by {
                    if j < n {
                        assert(old(self).map@.contains_key(old(self).entries@[j].key@));
                    }
                }
                assert forall|k2: Seq<char>| #[trigger]
                    self.map@.contains_key(k2) implies exists|j: int|
                    0 <= j < self.entries@.len() && #[trigger] self.entries@[j].key@ == k2 by {
                    if k2 != k {
                        let j = choose|j: int|
                            0 <= j < old(self).entries@.len() && #[trigger] old(
                                self,
                            ).entries@[j].key@ == k2;
                        assert(self.entries@[j].key@ == k2);
                    } else {
                        assert(self.entries@[self.entries@.len() - 1].key@ == k2);
                    }
                }
            },
        }
    }

    /// Sets `key`'s slot unless it holds a mutation as new or newer.
    pub fn put_newer(&mut self, key: String, seq: u64, value: Value)
        requires
            old(self).wf(),
        ensures
            final(self).wf(),
            final(self)@ == lww(old(self)@, (key@, seq, value@)),
    {
        match self.find(&key) {
            Some(i) => {
                if self.entries[i].seq < seq {
                    self.put(key, seq, value);
                }
            },
            None => {
                self.put(key, seq, value);
            },
        }
    }

    /// Drops `key`'s slot.
    pub fn remove(&mut self, key: &String)
        requires
            old(self).wf(),
        ensures
            final(self).wf(),
            final(self)@ == old(self)@.remove(key@),
    {
        let ghost k = key@;
        match self.find(key) {
            None => {
                assert(self.map@.remove(k) =~= self.map@);
            },
            Some(i) => {
                let ghost before = self.entries@;
                self.entries.swap_remove(i);
                self.map = Ghost(self.map@.remove(k));
                let ghost after = self.entries@;
                let ghost last = before.len() - 1;
                assert forall|j: int| 0 <= j < after.len() implies #[trigger] after[j] == if j
                    == i {
                    before[last]
                } else {
                    before[j]
                } by {}
                assert forall|k2: Seq<char>| #[trigger]
                    self.map@.contains_key(k2) implies exists|j: int|
                    0 <= j < self.entries@.len() && #[trigger] self.entries@[j].key@ == k2 by {
                    let j = choose|j: int|
                        0 <= j < before.len() && #[trigger] before[j].key@ == k2;
                    if j == last {
                        assert(after[i as int].key@ == k2);
                    } else {
                        assert(after[j].key@ == k2);
                    }
                }
                assert forall|a: int, b: int|
                    0 <= a < after.len() && 0 <= b < after.len() && a != b implies #[trigger] after[a].key@
                    != #[trigger] after[b].key@ by {
                    let a0 = if a == i {
                        last
                    } else {
                        a
                    };
                    let b0 = if b == i {
                        last
                    } else {
                        b
                    };
                    assert(before[a0].key@ != before[b0].key@);
                }
                assert forall|j: int| 0 <= j < after.len() implies #[trigger] self.map@.contains_key(
                    after[j].key@,
                ) && self.map@[after[j].key@] == (after[j].seq, after[j].value@) by {
                    let j0 = if j == i {
                        last
                    } else {
                        j
                    };
                    assert(before[j0].key@ != before[i as int].key@);
                }
            },
        }
    }

    /// The index without its tombstones.
    pub fn into_live(self) -> (r: Index)
        requires
            self.wf(),
        ensures
            r.wf(),
            r@ == live(self@),
    {
        let mut out = Index::new();
        let ghost all = self.entries@;
        let ghost m = self.map@;
        assert(slots_agree(m, all)) by {
            assert forall|j: int| 0 <= j < all.len() implies #[trigger] m.contains_key(all[j].key@)
                && m[all[j].key@] == (all[j].seq, all[j].value@) by {
                assert(self.map@.contains_key(self.entries@[j].key@));
            }
        }
        let mut rest = self.entries;
        assert(rest@ =~= all.take(rest@.len() as int));
        // Entries are taken from the back so that none needs copying.
        while rest.len() > 0
            invariant
                rest@.len() <= all.len(),
                rest@ == all.take(rest@.len() as int),
                out.wf(),
                forall|k: Seq<char>| #[trigger]
                    out@.contains_key(k) <==> (exists|j: int|
                        rest@.len() <= j < all.len() && #[trigger] all[j].key@ == k && !(
                        all[j].value@ is Deleted)),
                forall|k: Seq<char>| #[trigger] out@.contains_key(k) ==> m.contains_key(k) && out@[k] == m[k],
                slots_agree(m, all),
                forall|a: int, b: int|
                    0 <= a < all.len() && 0 <= b < all.len() && a != b ==> #[trigger] all[a].key@
                        != #[trigger] all[b].key@,
            decreases rest@.len(),
        {
            let e = rest.pop().unwrap();
            let ghost j = rest@.len() as int;
            assert(all[j] == e);
            match e.value {
                Value::Deleted => {},
                _ => {
                    assert(!out@.contains_key(e.key@)) by {
                        if out@.contains_key(e.key@) {
                            let j2 = choose|j2: int|
                                rest@.len() + 1 <= j2 < all.len() && #[trigger] all[j2].key@ == e.key@ && !(
                                all[j2].value@ is Deleted);
                            assert(all[j2].key@ != all[j].key@);
                        }
                    }
                    out.put(e.key, e.seq, e.value);
                },
            }
            assert(rest@ =~= all.take(rest@.len() as int));
        }
        assert(out@ =~= live(m)) by {
            assert forall|k: Seq<char>| out@.contains_key(k) <==> live(m).contains_key(k) by {
                if live(m).contains_key(k) {
                    let j = choose|j: int| 0 <= j < all.len() && #[trigger] all[j].key@ == k;
                }
            }
        }
        out
    }
}

} // verus!
