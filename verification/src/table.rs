//! Tables with a primary key, kept as lists of records.

use vstd::prelude::*;

verus! {

/// A record of a table: its key, and what it holds.
pub trait Record: Sized {
    type Key;

    type Row;

    type Probe;

    spec fn key(&self) -> Self::Key;

    spec fn row(&self) -> Self::Row;

    spec fn probe_key(probe: Self::Probe) -> Self::Key;

    /// Whether the record has a given key.
    fn has_key(&self, probe: &Self::Probe) -> (r: bool)
        ensures
            r == (self.key() == Self::probe_key(*probe)),
    ;

    /// The key of the record.
    fn probe(&self) -> (r: Self::Probe)
        ensures
            Self::probe_key(r) == self.key(),
    ;
}

/// The table that a list of records stands for: for each key its last record.
pub open spec fn table<R: Record>(records: Seq<R>) -> Map<R::Key, R::Row>
    decreases records.len(),
{
    if records.len() == 0 {
        Map::empty()
    } else {
        table(records.drop_last()).insert(records.last().key(), records.last().row())
    }
}

/// No two records have the same key.
pub open spec fn distinct<R: Record>(records: Seq<R>) -> bool {
    forall|i: int, j: int|
        0 <= i < j < records.len() ==> (#[trigger] records[i]).key() != (
        #[trigger] records[j]).key()
}

/// Some record has the key.
pub open spec fn has<R: Record>(records: Seq<R>, key: R::Key) -> bool {
    exists|i: int| 0 <= i < records.len() && (#[trigger] records[i]).key() == key
}

/// A table knows the keys of its records and no others.
pub proof fn lemma_table_keys<R: Record>(records: Seq<R>, key: R::Key)
    ensures
        table(records).contains_key(key) == has(records, key),
    decreases records.len(),
{
    if records.len() > 0 {
        let front = records.drop_last();
        lemma_table_keys(front, key);
        if has(front, key) {
            let i = choose|i: int| 0 <= i < front.len() && (#[trigger] front[i]).key() == key;
            assert(records[i].key() == key);
        }
        if has(records, key) && records.last().key() != key {
            let i = choose|i: int| 0 <= i < records.len() && (#[trigger] records[i]).key() == key;
            assert(front[i].key() == key);
        }
    }
}

/// Where keys are distinct, a table holds each record under its key.
pub proof fn lemma_table_row<R: Record>(records: Seq<R>, i: int)
    requires
        distinct(records),
        0 <= i < records.len(),
    ensures
        table(records).contains_key(records[i].key()),
        table(records)[records[i].key()] == records[i].row(),
    decreases records.len(),
{
    let front = records.drop_last();
    if i < records.len() - 1 {
        assert(distinct(front));
        lemma_table_row(front, i);
        assert(front[i] == records[i]);
        assert(records[i].key() != records[records.len() - 1].key());
    }
}

/// Two lists with distinct keys stand for the same table if each key of one leads to the same row
/// in the other.
proof fn lemma_table_same<R: Record>(records: Seq<R>, target: Map<R::Key, R::Row>)
    requires
        distinct(records),
        forall|i: int|
            0 <= i < records.len() ==> target.contains_key((#[trigger] records[i]).key())
                && target[records[i].key()] == records[i].row(),
        forall|k: R::Key| #[trigger] target.contains_key(k) ==> has(records, k),
    ensures
        table(records) == target,
{
    assert forall|k: R::Key| table(records).contains_key(k) == #[trigger] target.contains_key(
        k,
    ) by {
        lemma_table_keys(records, k);
        if has(records, k) {
            let i = choose|i: int| 0 <= i < records.len() && (#[trigger] records[i]).key() == k;
            assert(target.contains_key(records[i].key()));
        }
    }
    assert forall|k: R::Key| #[trigger] table(records).contains_key(k) implies table(records)[k]
        == target[k] by {
        lemma_table_keys(records, k);
        let i = choose|i: int| 0 <= i < records.len() && (#[trigger] records[i]).key() == k;
        lemma_table_row(records, i);
    }
    assert(table(records) =~= target);
}

/// The position of the record with a key.
pub fn find<R: Record>(records: &Vec<R>, probe: &R::Probe) -> (r: Option<usize>)
    requires
        distinct(records@),
    ensures
        r is Some == table(records@).contains_key(R::probe_key(*probe)),
        r matches Some(i) ==> {
            &&& i < records@.len()
            &&& records@[i as int].key() == R::probe_key(*probe)
            &&& table(records@)[R::probe_key(*probe)] == records@[i as int].row()
        },
{
    let n: usize = records.len();
    let ghost key = R::probe_key(*probe);
    let mut i: usize = 0;
    while i < n
        invariant
            i <= n,
            n == records@.len(),
            distinct(records@),
            key == R::probe_key(*probe),
            forall|j: int| 0 <= j < i ==> (#[trigger] records@[j]).key() != key,
        decreases n - i,
    {
        if records[i].has_key(probe) {
            proof {
                lemma_table_row(records@, i as int);
            }
            return Some(i);
        }
        i = i + 1;
    }
    proof {
        lemma_table_keys(records@, key);
    }
    None
}

/// Sets the record of its key, in place where there is one.
pub fn put<R: Record>(records: &mut Vec<R>, record: R)
    requires
        distinct(old(records)@),
    ensures
        distinct(final(records)@),
        table(final(records)@) == table(old(records)@).insert(record.key(), record.row()),
{
    let ghost before = records@;
    let ghost target = table(before).insert(record.key(), record.row());
    let probe = record.probe();
    match find(records, &probe) {
        Some(i) => {
            records.set(i, record);
            let ghost after = records@;
            proof {
                assert(after =~= before.update(i as int, record));
                assert forall|a: int, b: int| 0 <= a < b < after.len() implies (
                #[trigger] after[a]).key() != (#[trigger] after[b]).key() by {
                    assert(before[a].key() != before[b].key());
                }
                assert forall|j: int| 0 <= j < after.len() implies target.contains_key(
                    (#[trigger] after[j]).key(),
                ) && target[after[j].key()] == after[j].row() by {
                    lemma_table_row(before, j);
                    if j != i {
                        assert(before[j] == after[j]);
                        if j < i {
                            assert(before[j].key() != before[i as int].key());
                        } else {
                            assert(before[i as int].key() != before[j].key());
                        }
                    }
                }
                assert forall|k: R::Key| #[trigger] target.contains_key(k) implies has(after, k) by {
                    lemma_table_keys(before, k);
                    if k == record.key() {
                        assert(after[i as int].key() == k);
                    } else {
                        let j = choose|j: int|
                            0 <= j < before.len() && (#[trigger] before[j]).key() == k;
                        assert(after[j].key() == k);
                    }
                }
                lemma_table_same(after, target);
            }
        },
        None => {
            records.push(record);
            let ghost after = records@;
            proof {
                lemma_table_keys(before, record.key());
                assert forall|a: int, b: int| 0 <= a < b < after.len() implies (
                #[trigger] after[a]).key() != (#[trigger] after[b]).key() by {
                    if b < before.len() {
                        assert(before[a].key() != before[b].key());
                    } else {
                        assert(before[a] == after[a]);
                    }
                }
                assert(after.drop_last() =~= before);
            }
        },
    }
}

/// Removes the record with a key, if there is one.
pub fn erase<R: Record>(records: &mut Vec<R>, probe: &R::Probe)
    requires
        distinct(old(records)@),
    ensures
        distinct(final(records)@),
        table(final(records)@) == table(old(records)@).remove(R::probe_key(*probe)),
{
    let ghost before = records@;
    let ghost key = R::probe_key(*probe);
    let ghost target = table(before).remove(key);
    match find(records, probe) {
        Some(i) => {
            let _ = records.remove(i);
            let ghost after = records@;
            proof {
                assert(after =~= before.remove(i as int));
                assert forall|a: int, b: int| 0 <= a < b < after.len() implies (
                #[trigger] after[a]).key() != (#[trigger] after[b]).key() by {
                    let x = if a < i {
                        a
                    } else {
                        a + 1
                    };
                    let y = if b < i {
                        b
                    } else {
                        b + 1
                    };
                    assert(before[x].key() != before[y].key());
                }
                assert forall|j: int| 0 <= j < after.len() implies target.contains_key(
                    (#[trigger] after[j]).key(),
                ) && target[after[j].key()] == after[j].row() by {
                    let x = if j < i {
                        j
                    } else {
                        j + 1
                    };
                    assert(after[j] == before[x]);
                    lemma_table_row(before, x);
                    if x < i {
                        assert(before[x].key() != before[i as int].key());
                    } else {
                        assert(before[i as int].key() != before[x].key());
                    }
                }
                assert forall|k: R::Key| #[trigger] target.contains_key(k) implies has(after, k) by {
                    lemma_table_keys(before, k);
                    let x = choose|x: int| 0 <= x < before.len() && (#[trigger] before[x]).key() == k;
                    let j = if x < i {
                        x
                    } else {
                        x - 1
                    };
                    assert(after[j].key() == k);
                }
                lemma_table_same(after, target);
            }
        },
        None => {
            assert(target =~= table(before));
        },
    }
}

/// The table of a list of stored records, with one record for each key.
pub fn load<R: Record>(stored: Vec<R>) -> (r: Vec<R>)
    ensures
        distinct(r@),
        table(r@) == table(stored@),
{
    let mut records: Vec<R> = Vec::new();
    for record in it: stored
        invariant
            distinct(records@),
            it.seq() == stored@,
            table(records@) == table(it.seq().take(it.index())),
    {
        proof {
            assert(it.seq().take(it.index() + 1).drop_last() =~= it.seq().take(it.index()));
        }
        put(&mut records, record);
    }
    assert(stored@.take(stored@.len() as int) =~= stored@);
    records
}

/// The last record of a key is the one that counts, and a record of another key has no influence.
pub proof fn law_last_record_counts<R: Record>(records: Seq<R>, record: R, key: R::Key)
    ensures
        table(records.push(record)).contains_key(record.key()),
        table(records.push(record))[record.key()] == record.row(),
        key != record.key() ==> table(records.push(record)).contains_key(key) == table(
            records,
        ).contains_key(key) && table(records.push(record))[key] == table(records)[key],
        !table(Seq::<R>::empty()).contains_key(key),
{
    assert(records.push(record).drop_last() =~= records);
}

} // verus!
