//! The convergent store: a register per key, every mutation decided by the
//! conflict-resolution order, so that replicas exchanging full snapshots
//! agree regardless of delivery order, duplication or interleaving.

use crate::order::{greater, spec_ge, spec_greater, Register};
use vstd::prelude::*;

verus! {

/// One `(key, timestamp, writerId, value)` tuple: the unit of a snapshot
/// message, and the record the store keeps per key.
#[derive(Clone, Debug, PartialEq)]
pub struct Entry {
    pub key: String,
    pub ts: i64,
    pub node_id: u16,
    pub value: u64,
}

impl Entry {
    /// The register this entry carries.
    pub open spec fn reg(self) -> Register {
        Register { ts: self.ts, node_id: self.node_id, value: self.value }
    }
}

/// Some entry of `s` has key `k`.
pub open spec fn seq_has_key(s: Seq<Entry>, k: Seq<char>) -> bool {
    exists|i: int| 0 <= i < s.len() && s[i].key@ == k
}

/// Some entry of `s` records register `r` for key `k`.
pub open spec fn seq_has(s: Seq<Entry>, k: Seq<char>, r: Register) -> bool {
    exists|i: int| 0 <= i < s.len() && s[i].key@ == k && s[i].reg() == r
}

/// No two entries of `s` share a key.
pub open spec fn distinct_keys(s: Seq<Entry>) -> bool {
    forall|i: int, j: int| 0 <= i < j < s.len() ==> s[i].key@ != s[j].key@
}

/// An index of `s` that holds key `k` (the index, once keys are distinct).
pub open spec fn index_of_key(s: Seq<Entry>, k: Seq<char>) -> int {
    choose|i: int| 0 <= i < s.len() && s[i].key@ == k
}

/// The key-to-register map that a sequence of entries denotes.
pub open spec fn as_map(s: Seq<Entry>) -> Map<Seq<char>, Register> {
    Map::new(|k: Seq<char>| seq_has_key(s, k), |k: Seq<char>| s[index_of_key(s, k)].reg())
}

/// Applying one incoming register to a map: install it when the key is
/// absent or when it wins the comparison against the stored register;
/// otherwise leave the map unchanged.
pub open spec fn upd(m: Map<Seq<char>, Register>, k: Seq<char>, r: Register) -> Map<
    Seq<char>,
    Register,
> {
    if !m.contains_key(k) || spec_greater(r, m[k]) {
        m.insert(k, r)
    } else {
        m
    }
}

/// Folding a batch of entries into a map, first entry first; each entry is
/// applied independently under the same comparison as a local write.
pub open spec fn merge_seq(m: Map<Seq<char>, Register>, s: Seq<Entry>) -> Map<Seq<char>, Register>
    decreases s.len(),
{
    if s.len() == 0 {
        m
    } else {
        upd(merge_seq(m, s.drop_last()), s.last().key@, s.last().reg())
    }
}

/// With distinct keys, an entry holding key `k` fixes what `as_map` says
/// about `k`.
pub proof fn lemma_index_unique(s: Seq<Entry>, k: Seq<char>, i: int)
    requires
        distinct_keys(s),
        0 <= i < s.len(),
        s[i].key@ == k,
    ensures
        seq_has_key(s, k),
        index_of_key(s, k) == i,
        as_map(s).contains_key(k),
        as_map(s)[k] == s[i].reg(),
{
    assert(seq_has_key(s, k));
    let j = index_of_key(s, k);
    assert(0 <= j < s.len() && s[j].key@ == k);
    if i != j {
        assert(false);
    }
}

/// The convergent store: one register per key.  All mutation goes through
/// `put` and `merge_many`, whose effect on the abstract map is stated over
/// `upd` and `merge_seq`; a caller that serializes those calls (one lock
/// around each whole call) gets exactly this sequential semantics.
pub struct Store {
    entries: Vec<Entry>,
}

impl View for Store {
    type V = Map<Seq<char>, Register>;

    closed spec fn view(&self) -> Map<Seq<char>, Register> {
        as_map(self.entries@)
    }
}

impl Store {
    /// The store's representation keeps one record per key.
    pub closed spec fn wf(self) -> bool {
        distinct_keys(self.entries@)
    }

    /// A store that knows no keys.
    pub fn new() -> (s: Store)
        ensures
            s.wf(),
            s@ == Map::<Seq<char>, Register>::empty(),
    {
        let s = Store { entries: Vec::new() };
        proof {
            assert(s@ =~= Map::<Seq<char>, Register>::empty());
        }
        s
    }

    /// A local write: install the register built from `ts`, `node_id` and
    /// `value` under `key` when the key is new or the register wins the
    /// comparison; otherwise the call is a silent no-op.  It never fails.
    pub fn put(&mut self, key: String, ts: i64, node_id: u16, value: u64)
        requires
            old(self).wf(),
        ensures
            final(self).wf(),
            final(self)@ == upd(old(self)@, key@, Register { ts, node_id, value }),
    {
        let n = self.entries.len();
        let mut i: usize = 0;
        while i < n
            invariant
                n == self.entries.len(),
                self.entries@ == old(self).entries@,
                distinct_keys(self.entries@),
                forall|j: int| 0 <= j < i ==> self.entries@[j].key@ != key@,
            decreases n - i,
        {
            if self.entries[i].key == key {
                proof {
                    lemma_index_unique(self.entries@, key@, i as int);
                }
                if greater(ts, node_id, self.entries[i].ts, self.entries[i].node_id) {
                    let ghost s0 = self.entries@;
                    self.entries[i] = Entry { key, ts, node_id, value };
                    proof {
                        lemma_as_map_update(s0, i as int, self.entries@[i as int]);
                        assert(self@ =~= upd(old(self)@, key@, Register { ts, node_id, value }));
                    }
                } else {
                    proof {
                        assert(self@ =~= upd(old(self)@, key@, Register { ts, node_id, value }));
                    }
                }
                return ;
            }
            i += 1;
        }
        let ghost s0 = self.entries@;
        self.entries.push(Entry { key, ts, node_id, value });
        proof {
            assert(!seq_has_key(s0, key@));
            lemma_as_map_push(s0, self.entries@[s0.len() as int]);
            assert(self@ =~= upd(old(self)@, key@, Register { ts, node_id, value }));
        }
    }

    /// A remote merge: fold a received batch into the store, first entry
    /// first, each entry under the same comparison as a local write.  An
    /// entry for an absent key is always installed; one that loses the
    /// comparison is dropped without effect or error.  An empty batch
    /// leaves the store unchanged.
    pub fn merge_many(&mut self, entries: Vec<Entry>)
        requires
            old(self).wf(),
        ensures
            final(self).wf(),
            final(self)@ == merge_seq(old(self)@, entries@),
    {
        let n = entries.len();
        let mut i: usize = 0;
        while i < n
            invariant
                n == entries.len(),
                i <= n,
                self.wf(),
                self@ == merge_seq(old(self)@, entries@.take(i as int)),
            decreases n - i,
        {
            let e = &entries[i];
            self.put(e.key.clone(), e.ts, e.node_id, e.value);
            proof {
                lemma_merge_seq_take_step(old(self)@, entries@, i as int);
            }
            i += 1;
        }
        proof {
            assert(entries@.take(n as int) =~= entries@);
        }
    }

    /// A point-in-time copy of every current register, one entry per key:
    /// the snapshot that a dissemination tick sends to each peer, and
    /// exactly the map the store holds.
    pub fn snapshot(&self) -> (r: Vec<Entry>)
        requires
            self.wf(),
        ensures
            snapshot_of(r@, self@),
    {
        let mut r: Vec<Entry> = Vec::new();
        let n = self.entries.len();
        let mut i: usize = 0;
        while i < n
            invariant
                n == self.entries.len(),
                self.wf(),
                i <= n,
                r@.len() == i,
                forall|j: int| 0 <= j < i ==> r@[j] == self.entries@[j],
            decreases n - i,
        {
            let e = &self.entries[i];
            r.push(Entry { key: e.key.clone(), ts: e.ts, node_id: e.node_id, value: e.value });
            i += 1;
        }
        proof {
            assert(r@ =~= self.entries@);
        }
        r
    }
}

/// Folding one more entry of a batch extends the merged map by one
/// application of `upd`.
pub proof fn lemma_merge_seq_take_step(m: Map<Seq<char>, Register>, s: Seq<Entry>, i: int)
    requires
        0 <= i < s.len(),
    ensures
        merge_seq(m, s.take(i + 1)) == upd(merge_seq(m, s.take(i)), s[i].key@, s[i].reg()),
{
    assert(s.take(i + 1).drop_last() =~= s.take(i));
    assert(s.take(i + 1).last() == s[i]);
}

/// Replacing an entry by one with the same key replaces exactly that key's
/// register in the denoted map.
pub proof fn lemma_as_map_update(s: Seq<Entry>, i: int, e: Entry)
    requires
        distinct_keys(s),
        0 <= i < s.len(),
        e.key@ == s[i].key@,
    ensures
        distinct_keys(s.update(i, e)),
        as_map(s.update(i, e)) == as_map(s).insert(e.key@, e.reg()),
{
    let t = s.update(i, e);
    assert(forall|j: int| 0 <= j < t.len() ==> t[j].key@ == s[j].key@);
    assert forall|k: Seq<char>| seq_has_key(t, k) == seq_has_key(s, k) by {
        if seq_has_key(t, k) {
            let j = choose|j: int| 0 <= j < t.len() && t[j].key@ == k;
            assert(s[j].key@ == k);
        }
        if seq_has_key(s, k) {
            let j = choose|j: int| 0 <= j < s.len() && s[j].key@ == k;
            assert(t[j].key@ == k);
        }
    }
    assert forall|k: Seq<char>| #[trigger] as_map(t).contains_key(k) implies as_map(t)[k]
        == as_map(s).insert(e.key@, e.reg())[k] by {
        if k == e.key@ {
            lemma_index_unique(t, k, i);
        } else {
            let j = choose|j: int| 0 <= j < s.len() && s[j].key@ == k;
            assert(j != i);
            lemma_index_unique(t, k, j);
            lemma_index_unique(s, k, j);
        }
    }
    assert(as_map(t) =~= as_map(s).insert(e.key@, e.reg()));
}

/// Appending an entry with a fresh key adds exactly that key's register to
/// the denoted map.
pub proof fn lemma_as_map_push(s: Seq<Entry>, e: Entry)
    requires
        distinct_keys(s),
        !seq_has_key(s, e.key@),
    ensures
        distinct_keys(s.push(e)),
        as_map(s.push(e)) == as_map(s).insert(e.key@, e.reg()),
{
    let t = s.push(e);
    assert(forall|j: int| 0 <= j < s.len() ==> t[j] == s[j]);
    assert(t[s.len() as int] == e);
    assert forall|k: Seq<char>| seq_has_key(t, k) == (seq_has_key(s, k) || k == e.key@) by {
        if seq_has_key(t, k) {
            let j = choose|j: int| 0 <= j < t.len() && t[j].key@ == k;
            if j < s.len() {
                assert(s[j].key@ == k);
            }
        }
        if seq_has_key(s, k) {
            let j = choose|j: int| 0 <= j < s.len() && s[j].key@ == k;
            assert(t[j].key@ == k);
        }
        if k == e.key@ {
            assert(t[s.len() as int].key@ == k);
        }
    }
    assert forall|k: Seq<char>| #[trigger] as_map(t).contains_key(k) implies as_map(t)[k]
        == as_map(s).insert(e.key@, e.reg())[k] by {
        if k == e.key@ {
            lemma_index_unique(t, k, s.len() as int);
        } else {
            let j = choose|j: int| 0 <= j < s.len() && s[j].key@ == k;
            lemma_index_unique(t, k, j);
            lemma_index_unique(s, k, j);
        }
    }
    assert(as_map(t) =~= as_map(s).insert(e.key@, e.reg()));
}

/// What one merge does to one key, whatever the batch: the key is known
/// afterwards exactly when the map knew it or the batch carries it; the
/// register kept either was already stored or sits in the batch; it never
/// regresses below the stored one; and it wins or ties against the stored
/// register and every batch entry for that key.
pub proof fn lemma_merge_props(m: Map<Seq<char>, Register>, s: Seq<Entry>, k: Seq<char>)
    ensures
        merge_seq(m, s).contains_key(k) <==> (m.contains_key(k) || seq_has_key(s, k)),
        m.contains_key(k) ==> merge_seq(m, s)[k] == m[k] || spec_greater(merge_seq(m, s)[k], m[k]),
        merge_seq(m, s).contains_key(k) ==> ((m.contains_key(k) && merge_seq(m, s)[k] == m[k])
            || seq_has(s, k, merge_seq(m, s)[k])),
        merge_seq(m, s).contains_key(k) && m.contains_key(k) ==> spec_ge(merge_seq(m, s)[k], m[k]),
        forall|i: int|
            0 <= i < s.len() && s[i].key@ == k ==> spec_ge(
                merge_seq(m, s)[k],
                #[trigger] s[i].reg(),
            ),
    decreases s.len(),
{
    if s.len() == 0 {
    } else {
        let s0 = s.drop_last();
        let e = s.last();
        let m0 = merge_seq(m, s0);
        let r = merge_seq(m, s);
        lemma_merge_props(m, s0, k);
        assert(forall|i: int| 0 <= i < s0.len() ==> s0[i] == s[i]);
        assert(e == s[s.len() - 1]);
        if seq_has_key(s, k) {
            let i = choose|i: int| 0 <= i < s.len() && s[i].key@ == k;
            if i < s.len() - 1 {
                assert(s0[i].key@ == k);
            }
        }
        if seq_has_key(s0, k) {
            let i = choose|i: int| 0 <= i < s0.len() && s0[i].key@ == k;
            assert(s[i].key@ == k);
        }
        if m0.contains_key(k) && seq_has(s0, k, m0[k]) {
            let i = choose|i: int| 0 <= i < s0.len() && s0[i].key@ == k && s0[i].reg() == m0[k];
            assert(s[i].key@ == k && s[i].reg() == m0[k]);
        }
        assert forall|i: int| 0 <= i < s.len() && s[i].key@ == k implies spec_ge(
            r[k],
            #[trigger] s[i].reg(),
        ) by {
            if e.key@ == k {
                if !m0.contains_key(k) || spec_greater(e.reg(), m0[k]) {
                    assert(r[k] == e.reg());
                } else {
                    assert(r[k] == m0[k]);
                    assert(spec_ge(m0[k], e.reg()));
                }
            } else {
                assert(r[k] == m0[k]);
            }
            if i < s.len() - 1 {
                assert(s0[i].key@ == k);
                assert(m0.contains_key(k));
                assert(spec_ge(m0[k], s0[i].reg()));
                assert(s0[i].reg() == s[i].reg());
            } else {
                assert(s[i] == e);
            }
        }
    }
}

/// Monotonicity: whatever register a key currently holds — after any
/// sequence of writes and merges — a further merge either leaves it in
/// place or replaces it with one that wins the conflict-resolution order;
/// it never regresses.
pub proof fn lemma_merge_monotonic(m: Map<Seq<char>, Register>, s: Seq<Entry>, k: Seq<char>)
    requires
        m.contains_key(k),
    ensures
        merge_seq(m, s).contains_key(k),
        merge_seq(m, s)[k] == m[k] || spec_greater(merge_seq(m, s)[k], m[k]),
{
    lemma_merge_props(m, s, k);
}

/// Idempotence of merge: folding the same batch in twice yields exactly
/// the store that folding it in once yields.
pub proof fn lemma_merge_idempotent(m: Map<Seq<char>, Register>, s: Seq<Entry>)
    ensures
        merge_seq(merge_seq(m, s), s) == merge_seq(m, s),
{
    let m1 = merge_seq(m, s);
    let m2 = merge_seq(m1, s);
    assert forall|k: Seq<char>|
        (#[trigger] m2.contains_key(k) <==> m1.contains_key(k)) && (m1.contains_key(k) ==> m2[k]
            == m1[k]) by {
        lemma_merge_props(m, s, k);
        lemma_merge_props(m1, s, k);
        if m2.contains_key(k) && !(m1.contains_key(k) && m2[k] == m1[k]) {
            let i = choose|i: int| 0 <= i < s.len() && s[i].key@ == k && s[i].reg() == m2[k];
            assert(seq_has_key(s, k));
            assert(spec_ge(m1[k], s[i].reg()));
            assert(false);
        }
    }
    assert(m2 =~= m1);
}

/// Register `r` is recorded for key `k` in the store `m` or in one of the
/// two batches `a` and `b`.
pub open spec fn appears(
    m: Map<Seq<char>, Register>,
    a: Seq<Entry>,
    b: Seq<Entry>,
    k: Seq<char>,
    r: Register,
) -> bool {
    (m.contains_key(k) && m[k] == r) || seq_has(a, k, r) || seq_has(b, k, r)
}

/// No two sources record different payloads for the same key under the
/// same timestamp and writer id.  Writers that use their own id and never
/// reuse a timestamp for a different value satisfy this; without it two
/// registers could tie and each replica keep its own.
pub open spec fn tie_consistent(m: Map<Seq<char>, Register>, a: Seq<Entry>, b: Seq<Entry>) -> bool {
    forall|k: Seq<char>, r1: Register, r2: Register|
        #[trigger] appears(m, a, b, k, r1) && #[trigger] appears(m, a, b, k, r2) && r1.ts == r2.ts
            && r1.node_id == r2.node_id ==> r1 == r2
}

/// Commutativity of merge: folding batch `a` and then batch `b` into a
/// store yields the same store as folding `b` and then `a`, provided no
/// two sources record different payloads under the same key, timestamp
/// and writer id.
pub proof fn lemma_merge_commutes(m: Map<Seq<char>, Register>, a: Seq<Entry>, b: Seq<Entry>)
    requires
        tie_consistent(m, a, b),
    ensures
        merge_seq(merge_seq(m, a), b) == merge_seq(merge_seq(m, b), a),
{
    let ma = merge_seq(m, a);
    let mb = merge_seq(m, b);
    let mab = merge_seq(ma, b);
    let mba = merge_seq(mb, a);
    assert forall|k: Seq<char>|
        (#[trigger] mab.contains_key(k) <==> mba.contains_key(k)) && (mab.contains_key(k)
            ==> mab[k] == mba[k]) by {
        lemma_merge_props(m, a, k);
        lemma_merge_props(ma, b, k);
        lemma_merge_props(m, b, k);
        lemma_merge_props(mb, a, k);
        if mab.contains_key(k) {
            let r1 = mab[k];
            let r2 = mba[k];
            assert(appears(m, a, b, k, r1));
            assert(appears(m, a, b, k, r2));
            assert forall|r: Register| appears(m, a, b, k, r) implies spec_ge(r1, r) && spec_ge(
                r2,
                r,
            ) by {
                if m.contains_key(k) && m[k] == r {
                    assert(spec_ge(ma[k], r));
                    assert(spec_ge(mb[k], r));
                    assert(spec_ge(r1, ma[k]));
                    assert(spec_ge(r2, mb[k]));
                }
                if seq_has(a, k, r) {
                    let i = choose|i: int| 0 <= i < a.len() && a[i].key@ == k && a[i].reg() == r;
                    assert(seq_has_key(a, k));
                    assert(spec_ge(ma[k], a[i].reg()));
                    assert(spec_ge(r1, ma[k]));
                    assert(spec_ge(r2, a[i].reg()));
                }
                if seq_has(b, k, r) {
                    let i = choose|i: int| 0 <= i < b.len() && b[i].key@ == k && b[i].reg() == r;
                    assert(seq_has_key(b, k));
                    assert(spec_ge(r1, b[i].reg()));
                    assert(spec_ge(mb[k], b[i].reg()));
                    assert(spec_ge(r2, mb[k]));
                }
            }
            assert(spec_ge(r1, r2) && spec_ge(r2, r1));
            assert(r1 == r2);
        }
    }
    assert(mab =~= mba);
}

/// A batch is a faithful snapshot of a store: one entry per key, and the
/// entries denote exactly that store's map (what `snapshot` returns).
pub open spec fn snapshot_of(s: Seq<Entry>, m: Map<Seq<char>, Register>) -> bool {
    distinct_keys(s) && as_map(s) == m
}

/// Two stores never record different payloads for the same key under the
/// same timestamp and writer id.
pub open spec fn tie_consistent_maps(m1: Map<Seq<char>, Register>, m2: Map<Seq<char>, Register>) -> bool {
    forall|k: Seq<char>|
        #![trigger m1.contains_key(k), m2.contains_key(k)]
        m1.contains_key(k) && m2.contains_key(k) && m1[k].ts == m2[k].ts && m1[k].node_id
            == m2[k].node_id ==> m1[k] == m2[k]
}

/// A faithful snapshot records, per key, exactly the register of the store
/// it was taken from.
pub proof fn lemma_snapshot_entries(s: Seq<Entry>, m: Map<Seq<char>, Register>, k: Seq<char>)
    requires
        snapshot_of(s, m),
    ensures
        seq_has_key(s, k) == m.contains_key(k),
        m.contains_key(k) ==> seq_has(s, k, m[k]),
        forall|r: Register| seq_has(s, k, r) ==> r == m[k],
{
    if m.contains_key(k) {
        let i = choose|i: int| 0 <= i < s.len() && s[i].key@ == k;
        lemma_index_unique(s, k, i);
        assert(seq_has(s, k, m[k]));
    }
    assert forall|r: Register| seq_has(s, k, r) implies r == m[k] by {
        let i = choose|i: int| 0 <= i < s.len() && s[i].key@ == k && s[i].reg() == r;
        lemma_index_unique(s, k, i);
    }
}

/// Convergence, one exchange at a time: when each of two replicas folds in
/// a full snapshot of the other, the two reach the same map — whichever
/// replica one asks, every key ends at the same register.  Exchanges among
/// more replicas reduce to this: merging is commutative and idempotent, so
/// once every replica has folded in every other's full snapshot, directly
/// or through an intermediary, all hold this common map.
pub proof fn lemma_exchange_converges(
    m1: Map<Seq<char>, Register>,
    m2: Map<Seq<char>, Register>,
    s1: Seq<Entry>,
    s2: Seq<Entry>,
)
    requires
        snapshot_of(s1, m1),
        snapshot_of(s2, m2),
        tie_consistent_maps(m1, m2),
    ensures
        merge_seq(m1, s2) == merge_seq(m2, s1),
{
    let c1 = merge_seq(m1, s2);
    let c2 = merge_seq(m2, s1);
    assert forall|k: Seq<char>|
        (#[trigger] c1.contains_key(k) <==> c2.contains_key(k)) && (c1.contains_key(k) ==> c1[k]
            == c2[k]) by {
        lemma_merge_props(m1, s2, k);
        lemma_merge_props(m2, s1, k);
        lemma_snapshot_entries(s1, m1, k);
        lemma_snapshot_entries(s2, m2, k);
        if c1.contains_key(k) {
            let r1 = c1[k];
            let r2 = c2[k];
            if m1.contains_key(k) && m2.contains_key(k) {
                assert(r1 == m1[k] || r1 == m2[k]);
                assert(r2 == m1[k] || r2 == m2[k]);
                assert(spec_ge(r1, m1[k]));
                assert(spec_ge(r1, m2[k]));
                assert(spec_ge(r2, m1[k]));
                assert(spec_ge(r2, m2[k]));
                if r1 != r2 {
                    assert(spec_ge(r1, r2) && spec_ge(r2, r1));
                    assert(r1.ts == r2.ts && r1.node_id == r2.node_id);
                    assert(false);
                }
            } else if m1.contains_key(k) {
                assert(r1 == m1[k]);
                assert(r2 == m1[k]);
            } else {
                assert(r1 == m2[k]);
                assert(r2 == m2[k]);
            }
        }
    }
    assert(c1 =~= c2);
}

} // verus!
