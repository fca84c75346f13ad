//! Batched persistence: encoded records gather per destination table and
//! leave in write batches of a fixed capacity.
use vstd::prelude::*;
use crate::error::PipelineError;

verus! {

/// The store's largest number of items in one batch write request.
pub const MAX_BATCH_WRITE_ITEMS: usize = 25;

/// Records bound for one table in one write request.
pub struct WriteBatch<T> {
    pub table: String,
    pub records: Vec<T>,
}

/// The records waiting for one table.
pub struct Slot<T> {
    pub table: String,
    pub records: Vec<T>,
}

pub type Pending<T> = Seq<(Seq<char>, Seq<T>)>;

/// The records waiting for `table`: those of its first slot, none without one.
pub open spec fn waiting<T>(s: Pending<T>, table: Seq<char>) -> Seq<T>
    decreases s.len(),
{
    if s.len() == 0 {
        Seq::empty()
    } else if s[0].0 == table {
        s[0].1
    } else {
        waiting(s.drop_first(), table)
    }
}

/// What the accumulator holds, as a total map from table name to records.
pub open spec fn waiting_map<T>(s: Pending<T>) -> Map<Seq<char>, Seq<T>> {
    Map::new(|t: Seq<char>| true, |t: Seq<char>| waiting(s, t))
}

/// One submission on the model: the table's records after `x` is added, and
/// the batch that leaves, if the table reached `cap`.
pub open spec fn step<T>(m: Map<Seq<char>, Seq<T>>, cap: nat, t: Seq<char>, x: T) -> (Map<Seq<char>, Seq<T>>, Option<Seq<T>>) {
    let q = m[t].push(x);
    if q.len() == cap {
        (m.insert(t, Seq::empty()), Some(q))
    } else {
        (m.insert(t, q), None)
    }
}

/// Submissions of `xs[i]` to `ts[i]` in order: the final accumulator and
/// the batches that left, with their tables, in order.
pub open spec fn run<T>(
    m: Map<Seq<char>, Seq<T>>,
    cap: nat,
    ts: Seq<Seq<char>>,
    xs: Seq<T>,
) -> (Map<Seq<char>, Seq<T>>, Seq<(Seq<char>, Seq<T>)>)
    recommends
        ts.len() == xs.len(),
    decreases xs.len(),
{
    if xs.len() == 0 || ts.len() != xs.len() {
        (m, Seq::empty())
    } else {
        let prev = run(m, cap, ts.drop_last(), xs.drop_last());
        let next = step(prev.0, cap, ts.last(), xs.last());
        match next.1 {
            Some(q) => (next.0, prev.1.push((ts.last(), q))),
            None => (next.0, prev.1),
        }
    }
}

/// How many times `t` occurs in `ts`.
pub open spec fn count_of(ts: Seq<Seq<char>>, t: Seq<char>) -> nat
    decreases ts.len(),
{
    if ts.len() == 0 {
        0
    } else {
        count_of(ts.drop_last(), t) + if ts.last() == t {
            1nat
        } else {
            0nat
        }
    }
}

proof fn lemma_same_table_prefix<T>(m: Map<Seq<char>, Seq<T>>, cap: nat, t: Seq<char>, xs: Seq<T>, k: nat)
    requires
        m.dom().contains(t),
        m[t] == Seq::<T>::empty(),
        k < cap,
        k <= xs.len(),
    ensures
        run(m, cap, Seq::new(k, |i: int| t), xs.take(k as int)) == (m.insert(t, xs.take(k as int)), Seq::<(Seq<char>, Seq<T>)>::empty()),
    decreases k,
{
    if k == 0 {
        assert(xs.take(0) =~= Seq::<T>::empty());
        assert(m.insert(t, xs.take(0)) =~= m);
    } else {
        lemma_same_table_prefix(m, cap, t, xs, (k - 1) as nat);
        assert(Seq::new(k, |i: int| t).drop_last() =~= Seq::new((k - 1) as nat, |i: int| t));
        assert(xs.take(k as int).drop_last() =~= xs.take(k - 1));
        assert(xs.take(k - 1).push(xs[k - 1]) =~= xs.take(k as int));
        assert(m.insert(t, xs.take(k - 1)).insert(t, xs.take(k as int)) =~= m.insert(t, xs.take(k as int)));
    }
}

/// Submitting `cap` records to a table with none waiting hands out exactly
/// one batch: that table's, holding those records in the order they came.
/// Afterwards none wait for the table and the other tables are as before.
pub proof fn law_full_batch_flushes_once<T>(m: Map<Seq<char>, Seq<T>>, cap: nat, t: Seq<char>, xs: Seq<T>)
    requires
        cap >= 1,
        xs.len() == cap,
        m.dom().contains(t),
        m[t] == Seq::<T>::empty(),
    ensures
        run(m, cap, Seq::new(cap, |i: int| t), xs) == (m, seq![(t, xs)]),
{
    lemma_same_table_prefix(m, cap, t, xs, (cap - 1) as nat);
    assert(Seq::new(cap, |i: int| t).drop_last() =~= Seq::new((cap - 1) as nat, |i: int| t));
    assert(xs.drop_last() =~= xs.take(cap - 1));
    assert(xs.take(cap - 1).push(xs.last()) =~= xs);
    assert(m.insert(t, xs.take(cap - 1)).insert(t, Seq::<T>::empty()) =~= m);
}

/// A table submitted to fewer than `cap` times, starting with none waiting,
/// has no batch handed out: its records all still wait, in any interleaving
/// with other tables.
pub proof fn law_no_flush_below_capacity<T>(
    m: Map<Seq<char>, Seq<T>>,
    cap: nat,
    ts: Seq<Seq<char>>,
    xs: Seq<T>,
    t: Seq<char>,
)
    requires
        ts.len() == xs.len(),
        m.dom().contains(t),
        m[t] == Seq::<T>::empty(),
        count_of(ts, t) < cap,
    ensures
        forall|i: int| 0 <= i < run(m, cap, ts, xs).1.len() ==> (#[trigger] run(m, cap, ts, xs).1[i]).0 != t,
        run(m, cap, ts, xs).0.dom().contains(t),
        run(m, cap, ts, xs).0[t].len() == count_of(ts, t),
    decreases xs.len(),
{
    if xs.len() > 0 {
        law_no_flush_below_capacity(m, cap, ts.drop_last(), xs.drop_last(), t);
    }
}

/// No table occurs twice.
pub open spec fn distinct_tables<T>(s: Pending<T>) -> bool {
    forall|i: int, j: int| 0 <= i < j < s.len() ==> s[i].0 != s[j].0
}

/// The entries of `s` with records, in order.
pub open spec fn nonempty<T>(s: Pending<T>) -> Pending<T>
    decreases s.len(),
{
    if s.len() == 0 {
        s
    } else if s.last().1.len() > 0 {
        nonempty(s.drop_last()).push(s.last())
    } else {
        nonempty(s.drop_last())
    }
}

pub open spec fn batches_view<T>(b: Seq<WriteBatch<T>>) -> Pending<T> {
    b.map_values(|w: WriteBatch<T>| (w.table@, w.records@))
}

pub open spec fn texts_view(ts: Seq<String>) -> Seq<Seq<char>> {
    ts.map_values(|t: String| t@)
}

proof fn lemma_waiting_at<T>(s: Pending<T>, i: int)
    requires
        distinct_tables(s),
        0 <= i < s.len(),
    ensures
        waiting(s, s[i].0) == s[i].1,
    decreases s.len(),
{
    if i > 0 {
        lemma_waiting_at(s.drop_first(), i - 1);
        assert(s.drop_first()[i - 1] == s[i]);
    }
}

/// Accumulates records per table and hands out a batch for a table as soon
/// as it holds `capacity` records.
pub struct BatchPersister<T> {
    capacity: usize,
    slots: Vec<Slot<T>>,
}

pub open spec fn slots_view<T>(s: Seq<Slot<T>>) -> Pending<T> {
    s.map_values(|x: Slot<T>| (x.table@, x.records@))
}

proof fn lemma_waiting_update<T>(s: Pending<T>, i: int, t: Seq<char>, q: Seq<T>, u: Seq<char>)
    requires
        0 <= i < s.len(),
        s[i].0 == t,
        forall|j: int| 0 <= j < i ==> s[j].0 != t,
    ensures
        waiting(s.update(i, (t, q)), u) == if u == t {
            q
        } else {
            waiting(s, u)
        },
    decreases s.len(),
{
    let v = s.update(i, (t, q));
    if i > 0 {
        lemma_waiting_update(s.drop_first(), i - 1, t, q, u);
        assert(v.drop_first() =~= s.drop_first().update(i - 1, (t, q)));
    } else {
        assert(v.drop_first() =~= s.drop_first());
    }
}

proof fn lemma_waiting_absent<T>(s: Pending<T>, t: Seq<char>)
    requires
        forall|j: int| 0 <= j < s.len() ==> s[j].0 != t,
    ensures
        waiting(s, t) == Seq::<T>::empty(),
    decreases s.len(),
{
    if s.len() > 0 {
        lemma_waiting_absent(s.drop_first(), t);
    }
}

proof fn lemma_waiting_push<T>(s: Pending<T>, t: Seq<char>, q: Seq<T>, u: Seq<char>)
    requires
        forall|j: int| 0 <= j < s.len() ==> s[j].0 != t,
    ensures
        waiting(s.push((t, q)), u) == if u == t {
            q
        } else {
            waiting(s, u)
        },
    decreases s.len(),
{
    let v = s.push((t, q));
    if s.len() > 0 {
        lemma_waiting_push(s.drop_first(), t, q, u);
        assert(v.drop_first() =~= s.drop_first().push((t, q)));
    } else {
        assert(v.drop_first() =~= s);
    }
}

impl<T> BatchPersister<T> {
    pub closed spec fn cap(&self) -> nat {
        self.capacity as nat
    }

    /// Each table seen so far with its waiting records, in the order the
    /// tables were first seen.
    pub closed spec fn queue(&self) -> Pending<T> {
        slots_view(self.slots@)
    }

    /// The tables seen so far, in the order they were first seen.
    pub open spec fn tables(&self) -> Seq<Seq<char>> {
        self.queue().map_values(|p: (Seq<char>, Seq<T>)| p.0)
    }

    /// The records waiting, per table.
    pub open spec fn pending(&self) -> Map<Seq<char>, Seq<T>> {
        waiting_map(self.queue())
    }

    pub closed spec fn wf(&self) -> bool {
        &&& 1 <= self.capacity <= MAX_BATCH_WRITE_ITEMS
        &&& forall|t: Seq<char>| #[trigger] self.pending()[t].len() < self.capacity
        &&& distinct_tables(self.queue())
    }

    /// An empty accumulator that hands out batches of `capacity` records;
    /// the capacity is at most what the store takes in one request.
    pub fn new(capacity: usize) -> (r: BatchPersister<T>)
        requires
            1 <= capacity <= MAX_BATCH_WRITE_ITEMS,
        ensures
            r.wf(),
            r.cap() == capacity,
            r.tables() == Seq::<Seq<char>>::empty(),
            forall|t: Seq<char>| #[trigger] r.pending()[t] == Seq::<T>::empty(),
    {
        let r = BatchPersister { capacity, slots: Vec::new() };
        assert(r.tables() =~= Seq::<Seq<char>>::empty());
        r
    }

    pub fn capacity(&self) -> (r: usize)
        ensures
            r == self.cap(),
    {
        self.capacity
    }

    /// Index of the first slot of `table`, if any.
    fn position(&self, table: &str) -> (r: Option<usize>)
        ensures
            match r {
                Some(i) => i < self.slots@.len() && self.slots@[i as int].table@ == table@ && forall|j: int|
                    0 <= j < i ==> self.slots@[j].table@ != table@,
                None => forall|j: int| 0 <= j < self.slots@.len() ==> self.slots@[j].table@ != table@,
            },
    {
        let n = self.slots.len();
        let mut i: usize = 0;
        while i < n
            invariant
                n == self.slots@.len(),
                i <= n,
                forall|j: int| 0 <= j < i ==> self.slots@[j].table@ != table@,
            decreases n - i,
        {
            if crate::text::same_text(self.slots[i].table.as_str(), table) {
                return Some(i);
            }
            i = i + 1;
        }
        None
    }

    /// Adds `record` to the records waiting for `table`. When they reach the
    /// capacity they leave together as the returned batch, in the order they
    /// came, and none wait for that table any more. Other tables are untouched.
    pub fn submit(&mut self, table: &str, record: T) -> (r: Option<WriteBatch<T>>)
        requires
            old(self).wf(),
        ensures
            final(self).wf(),
            final(self).cap() == old(self).cap(),
            final(self).pending() == step(old(self).pending(), old(self).cap(), table@, record).0,
            match r {
                Some(batch) => step(old(self).pending(), old(self).cap(), table@, record).1 == Some(
                    batch.records@,
                ) && batch.table@ == table@,
                None => step(old(self).pending(), old(self).cap(), table@, record).1 is None,
            },
            final(self).tables() == if old(self).tables().contains(table@) {
                old(self).tables()
            } else {
                old(self).tables().push(table@)
            },
    {
        let ghost old_view = slots_view(self.slots@);
        let ghost old_map = self.pending();
        let ghost q = old_map[table@].push(record);
        let ghost old_tables = self.tables();
        let pos = self.position(table);
        let i: usize = match pos {
            Some(i) => {
                assert(old_tables[i as int] == table@);
                i
            },
            None => {
                self.slots.push(Slot { table: String::from_str(table), records: Vec::new() });
                proof {
                    assert forall|j: int| 0 <= j < old_view.len() implies old_view[j].0 != table@ by {
                        assert(old_view[j].0 == self.slots@[j].table@);
                    }
                    lemma_waiting_absent(old_view, table@);
                    assert forall|u: Seq<char>| waiting(slots_view(self.slots@), u) == waiting(old_view, u) by {
                        assert(slots_view(self.slots@) =~= old_view.push((table@, Seq::empty())));
                        lemma_waiting_push(old_view, table@, Seq::empty(), u);
                    }
                    assert(self.pending() =~= old_map);
                    assert(!old_tables.contains(table@)) by {
                        if old_tables.contains(table@) {
                            let j = choose|j: int| 0 <= j < old_tables.len() && old_tables[j] == table@;
                            assert(old_view[j].0 == old_tables[j]);
                        }
                    }
                    assert(self.tables() =~= old_tables.push(table@));
                    let nv = slots_view(self.slots@);
                    assert(nv =~= old_view.push((table@, Seq::empty())));
                    assert(distinct_tables(old_view));
                    assert forall|a: int, b: int| 0 <= a < b < nv.len() implies nv[a].0 != nv[b].0 by {
                        assert(nv[a] == old_view[a]);
                        if b < old_view.len() {
                            assert(nv[b] == old_view[b]);
                        }
                    }
                }
                self.slots.len() - 1
            },
        };
        let ghost mid_view = slots_view(self.slots@);
        let ghost mid_tables = self.tables();
        assert(mid_tables == if old_tables.contains(table@) { old_tables } else { old_tables.push(table@) });
        assert(mid_view[i as int] == (self.slots@[i as int].table@, self.slots@[i as int].records@));
        assert(forall|j: int| 0 <= j < i ==> mid_view[j].0 != table@);
        proof {
            lemma_waiting_update(mid_view, i as int, table@, mid_view[i as int].1, table@);
            assert(mid_view.update(i as int, (table@, mid_view[i as int].1)) =~= mid_view);
        }
        let mut slot = self.slots.remove(i);
        slot.records.push(record);
        assert(slot.records@ == q);
        let result = if slot.records.len() == self.capacity {
            let batch = WriteBatch { table: String::from_str(table), records: slot.records };
            slot = Slot { table: batch.table.clone(), records: Vec::new() };
            Some(batch)
        } else {
            None
        };
        let ghost kept = slot.records@;
        self.slots.insert(i, slot);
        proof {
            assert(slots_view(self.slots@) =~= mid_view.update(i as int, (table@, kept)));
            assert forall|u: Seq<char>| waiting(slots_view(self.slots@), u) == (if u == table@ { kept } else { waiting(mid_view, u) }) by {
                lemma_waiting_update(mid_view, i as int, table@, kept, u);
            }
            assert(self.pending() =~= step(old_map, old(self).cap(), table@, record).0);
            assert(self.tables() =~= mid_tables);
            assert(distinct_tables(slots_view(self.slots@))) by {
                assert forall|a: int, b: int| 0 <= a < b < slots_view(self.slots@).len() implies slots_view(self.slots@)[a].0 != slots_view(self.slots@)[b].0 by {
                    assert(slots_view(self.slots@)[a].0 == mid_tables[a]);
                    assert(slots_view(self.slots@)[b].0 == mid_tables[b]);
                    assert(mid_view[a].0 == mid_tables[a]);
                    assert(mid_view[b].0 == mid_tables[b]);
                }
            }
        }
        result
    }

    /// Submits `records[i]` to `tables[i]` in order, in any interleaving of
    /// tables, and returns the batches handed out on the way, in order.
    pub fn submit_all(&mut self, tables: &Vec<String>, records: Vec<T>) -> (r: Vec<WriteBatch<T>>)
        requires
            old(self).wf(),
            tables@.len() == records@.len(),
        ensures
            final(self).wf(),
            final(self).cap() == old(self).cap(),
            (final(self).pending(), batches_view(r@)) == run(
                old(self).pending(),
                old(self).cap(),
                texts_view(tables@),
                records@,
            ),
    {
        let ghost start = self.pending();
        let ghost ts = texts_view(tables@);
        let ghost xs = records@;
        let mut out: Vec<WriteBatch<T>> = Vec::new();
        let mut rest = records;
        let mut i: usize = 0;
        assert(ts.take(0) =~= Seq::<Seq<char>>::empty());
        assert(xs.take(0) =~= Seq::<T>::empty());
        while i < tables.len()
            invariant
                self.wf(),
                self.cap() == old(self).cap(),
                ts == texts_view(tables@),
                ts.len() == xs.len(),
                i <= tables@.len(),
                rest@ == xs.skip(i as int),
                (self.pending(), batches_view(out@)) == run(start, self.cap(), ts.take(i as int), xs.take(i as int)),
            decreases tables@.len() - i,
        {
            let record = rest.remove(0);
            assert(record == xs[i as int]);
            assert(rest@ =~= xs.skip(i + 1));
            assert(ts.take(i + 1).drop_last() =~= ts.take(i as int));
            assert(xs.take(i + 1).drop_last() =~= xs.take(i as int));
            assert(ts.take(i + 1).last() == tables@[i as int]@);
            let ghost before = out@;
            match self.submit(tables[i].as_str(), record) {
                Some(batch) => {
                    out.push(batch);
                    assert(batches_view(out@) =~= batches_view(before).push((ts[i as int], out@.last().records@)));
                },
                None => {},
            }
            i = i + 1;
        }
        assert(ts.take(i as int) =~= ts);
        assert(xs.take(i as int) =~= xs);
        out
    }

    /// Ends the stream: one batch for each table with records waiting,
    /// holding those records, in the order the tables were first seen.
    pub fn drain(self) -> (r: Vec<WriteBatch<T>>)
        requires
            self.wf(),
        ensures
            batches_view(r@) == nonempty(self.queue()),
            forall|i: int|
                0 <= i < self.queue().len() ==> #[trigger] self.queue()[i] == (
                    self.tables()[i],
                    self.pending()[self.tables()[i]],
                ),
    {
        let ghost view = slots_view(self.slots@);
        proof {
            assert forall|i: int| 0 <= i < view.len() implies #[trigger] view[i] == (
                self.tables()[i],
                self.pending()[self.tables()[i]],
            ) by {
                lemma_waiting_at(view, i);
            }
        }
        let mut out: Vec<WriteBatch<T>> = Vec::new();
        let mut slots = self.slots;
        let ghost all = slots@;
        let ghost mut taken: int = 0;
        while slots.len() > 0
            invariant
                0 <= taken <= all.len(),
                slots@ == all.subrange(taken, all.len() as int),
                view == slots_view(all),
                batches_view(out@) == nonempty(view.take(taken)),
            decreases slots@.len(),
        {
            let slot = slots.remove(0);
            assert(view.take(taken + 1).drop_last() =~= view.take(taken));
            assert(view.take(taken + 1).last() == (slot.table@, slot.records@));
            let ghost before = out@;
            if slot.records.len() > 0 {
                out.push(WriteBatch { table: slot.table, records: slot.records });
                assert(batches_view(out@) =~= batches_view(before).push(view.take(taken + 1).last()));
            }
            proof {
                taken = taken + 1;
            }
            assert(slots@ =~= all.subrange(taken, all.len() as int));
        }
        assert(view.take(taken) =~= view);
        out
    }
}

/// What the store's answer to a batch write means: items that it returned
/// unprocessed give `StoreRejection` with their number.
pub fn check_unprocessed(unprocessed: usize) -> (r: Result<(), PipelineError>)
    ensures
        unprocessed == 0 <==> r is Ok,
        r matches Err(e) ==> (e matches PipelineError::StoreRejection { unprocessed: n } && n
            == unprocessed),
{
    if unprocessed == 0 {
        Ok(())
    } else {
        Err(PipelineError::StoreRejection { unprocessed })
    }
}

} // verus!
