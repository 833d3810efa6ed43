//! The in-memory write buffer: a run of records kept in strictly ascending key
//! order, so that a flush can stream them straight into a segment file.
//!
//! An ordered run rather than a hash table, because the segment writer must
//! emit records in ascending key order and the sparse index consumes that
//! order directly. A tombstone entry is a valid, masking record for lookups.

use vstd::prelude::*;

use crate::lex::{lex_cmp, lex_lt, lemma_lex_irreflexive, lemma_lex_total, KeyOrder};
use crate::record::{
    copy_range, line_ok, lines_ok, models, opt_bytes_view, seq_find, sorted_strict, lemma_find_at,
    lemma_find_none, RecModel, Record,
};

verus! {

/// Insertion into a strictly sorted run: the new record replaces an equal key
/// or lands just before the first greater one.
pub open spec fn sorted_insert(rs: Seq<RecModel>, k: Seq<u8>, v: Option<Seq<u8>>) -> Seq<RecModel>
    decreases rs.len(),
{
    let rec = RecModel { key: k, value: v };
    if rs.len() == 0 {
        seq![rec]
    } else if lex_lt(k, rs[0].key) {
        seq![rec] + rs
    } else if k == rs[0].key {
        seq![rec] + rs.drop_first()
    } else {
        seq![rs[0]] + sorted_insert(rs.drop_first(), k, v)
    }
}

/// What an insertion does to every lookup: the inserted key now maps to the
/// new record, every other key is untouched.
pub proof fn lemma_sorted_insert_find(rs: Seq<RecModel>, k: Seq<u8>, v: Option<Seq<u8>>, q: Seq<u8>)
    ensures
        seq_find(sorted_insert(rs, k, v), q) == if q == k {
            Some(v)
        } else {
            seq_find(rs, q)
        },
    decreases rs.len(),
{
    let rec = RecModel { key: k, value: v };
    let out = sorted_insert(rs, k, v);
    if rs.len() == 0 {
        assert(out[0] == rec);
        assert(out.drop_first() =~= Seq::<RecModel>::empty());
    } else if lex_lt(k, rs[0].key) {
        lemma_lex_irreflexive(k);
        assert(out[0] == rec);
        assert(out.drop_first() =~= rs);
    } else if k == rs[0].key {
        assert(out[0] == rec);
        assert(out.drop_first() =~= rs.drop_first());
    } else {
        lemma_sorted_insert_find(rs.drop_first(), k, v, q);
        assert(out[0] == rs[0]);
        assert(out.drop_first() =~= sorted_insert(rs.drop_first(), k, v));
    }
}

/// Every key of the inserted run is the new key or one of the old keys.
pub proof fn lemma_sorted_insert_keys(rs: Seq<RecModel>, k: Seq<u8>, v: Option<Seq<u8>>)
    ensures
        forall|i: int|
            0 <= i < sorted_insert(rs, k, v).len() ==> (#[trigger] sorted_insert(rs, k, v)[i]).key
                == k || exists|j: int| 0 <= j < rs.len() && sorted_insert(rs, k, v)[i].key == (
            #[trigger] rs[j]).key,
    decreases rs.len(),
{
    let out = sorted_insert(rs, k, v);
    if rs.len() == 0 {
    } else if lex_lt(k, rs[0].key) {
    } else if k == rs[0].key {
        assert forall|i: int| 0 <= i < out.len() implies (#[trigger] out[i]).key == k || exists|
            j: int,
        | 0 <= j < rs.len() && out[i].key == (#[trigger] rs[j]).key by {
            if i > 0 {
                assert(out[i] == rs[i]);
            }
        }
    } else {
        lemma_sorted_insert_keys(rs.drop_first(), k, v);
        let sub = sorted_insert(rs.drop_first(), k, v);
        assert forall|i: int| 0 <= i < out.len() implies (#[trigger] out[i]).key == k || exists|
            j: int,
        | 0 <= j < rs.len() && out[i].key == (#[trigger] rs[j]).key by {
            if i == 0 {
                assert(out[0] == rs[0]);
                assert(out[0].key == rs[0].key);
            } else {
                assert(out[i] == sub[i - 1]);
                if sub[i - 1].key != k {
                    let j = choose|j: int|
                        0 <= j < rs.drop_first().len() && sub[i - 1].key == (#[trigger] rs.drop_first()[j]).key;
                    assert(rs.drop_first()[j] == rs[j + 1]);
                    assert(out[i].key == rs[j + 1].key);
                }
            }
        }
    }
}

/// Insertion keeps the run strictly sorted.
pub proof fn lemma_sorted_insert_sorted(rs: Seq<RecModel>, k: Seq<u8>, v: Option<Seq<u8>>)
    requires
        sorted_strict(rs),
    ensures
        sorted_strict(sorted_insert(rs, k, v)),
    decreases rs.len(),
{
    let rec = RecModel { key: k, value: v };
    let out = sorted_insert(rs, k, v);
    if rs.len() == 0 {
    } else if lex_lt(k, rs[0].key) {
        assert forall|i: int, j: int| 0 <= i < j < out.len() implies lex_lt(
            (#[trigger] out[i]).key,
            (#[trigger] out[j]).key,
        ) by {
            if i == 0 {
                if j == 1 {
                    assert(out[j] == rs[0]);
                } else {
                    assert(out[j] == rs[j - 1]);
                    crate::lex::lemma_lex_transitive(k, rs[0].key, rs[j - 1].key);
                }
            } else {
                assert(out[i] == rs[i - 1]);
                assert(out[j] == rs[j - 1]);
            }
        }
    } else if k == rs[0].key {
        assert forall|i: int, j: int| 0 <= i < j < out.len() implies lex_lt(
            (#[trigger] out[i]).key,
            (#[trigger] out[j]).key,
        ) by {
            if i == 0 {
                assert(out[j] == rs.drop_first()[j - 1]);
                assert(rs.drop_first()[j - 1] == rs[j]);
            } else {
                assert(out[i] == rs[i]);
                assert(out[j] == rs[j]);
            }
        }
    } else {
        lemma_lex_total(k, rs[0].key);
        assert(lex_lt(rs[0].key, k));
        assert(sorted_strict(rs.drop_first())) by {
            assert(forall|i: int|
                0 <= i < rs.drop_first().len() ==> rs.drop_first()[i] == rs[i + 1]);
        }
        lemma_sorted_insert_sorted(rs.drop_first(), k, v);
        lemma_sorted_insert_keys(rs.drop_first(), k, v);
        let sub = sorted_insert(rs.drop_first(), k, v);
        assert forall|i: int, j: int| 0 <= i < j < out.len() implies lex_lt(
            (#[trigger] out[i]).key,
            (#[trigger] out[j]).key,
        ) by {
            if i == 0 {
                assert(out[0] == rs[0]);
                assert(out[j] == sub[j - 1]);
                if sub[j - 1].key == k {
                } else {
                    let m = choose|m: int|
                        0 <= m < rs.drop_first().len() && sub[j - 1].key == (#[trigger] rs.drop_first()[m]).key;
                    assert(rs.drop_first()[m] == rs[m + 1]);
                    assert(lex_lt(rs[0].key, rs[m + 1].key));
                }
            } else {
                assert(out[i] == sub[i - 1]);
                assert(out[j] == sub[j - 1]);
            }
        }
    }
}

/// Insertion keeps every line well framed, when the new record is.
pub proof fn lemma_sorted_insert_lines_ok(rs: Seq<RecModel>, k: Seq<u8>, v: Option<Seq<u8>>)
    requires
        lines_ok(rs),
        line_ok(RecModel { key: k, value: v }),
    ensures
        lines_ok(sorted_insert(rs, k, v)),
    decreases rs.len(),
{
    let out = sorted_insert(rs, k, v);
    if rs.len() == 0 {
    } else if lex_lt(k, rs[0].key) {
        assert forall|i: int| 0 <= i < out.len() implies line_ok(#[trigger] out[i]) by {
            if i > 0 {
                assert(out[i] == rs[i - 1]);
            }
        }
    } else if k == rs[0].key {
        assert forall|i: int| 0 <= i < out.len() implies line_ok(#[trigger] out[i]) by {
            if i > 0 {
                assert(out[i] == rs[i]);
            }
        }
    } else {
        assert(lines_ok(rs.drop_first())) by {
            assert(forall|i: int|
                0 <= i < rs.drop_first().len() ==> rs.drop_first()[i] == rs[i + 1]);
        }
        lemma_sorted_insert_lines_ok(rs.drop_first(), k, v);
        let sub = sorted_insert(rs.drop_first(), k, v);
        assert forall|i: int| 0 <= i < out.len() implies line_ok(#[trigger] out[i]) by {
            if i == 0 {
                assert(out[0] == rs[0]);
            } else {
                assert(out[i] == sub[i - 1]);
            }
        }
    }
}

/// Insertion keeps every record engine-valid, when the new record is.
pub proof fn lemma_sorted_insert_valid(rs: Seq<RecModel>, k: Seq<u8>, v: Option<Seq<u8>>)
    requires
        crate::record::recs_valid(rs),
        crate::record::rec_valid(RecModel { key: k, value: v }),
    ensures
        crate::record::recs_valid(sorted_insert(rs, k, v)),
    decreases rs.len(),
{
    let out = sorted_insert(rs, k, v);
    if rs.len() == 0 {
    } else if lex_lt(k, rs[0].key) {
        assert forall|i: int| 0 <= i < out.len() implies crate::record::rec_valid(
            #[trigger] out[i],
        ) by {
            if i > 0 {
                assert(out[i] == rs[i - 1]);
            }
        }
    } else if k == rs[0].key {
        assert forall|i: int| 0 <= i < out.len() implies crate::record::rec_valid(
            #[trigger] out[i],
        ) by {
            if i > 0 {
                assert(out[i] == rs[i]);
            }
        }
    } else {
        assert(crate::record::recs_valid(rs.drop_first())) by {
            assert(forall|i: int|
                0 <= i < rs.drop_first().len() ==> rs.drop_first()[i] == rs[i + 1]);
        }
        lemma_sorted_insert_valid(rs.drop_first(), k, v);
        let sub = sorted_insert(rs.drop_first(), k, v);
        assert forall|i: int| 0 <= i < out.len() implies crate::record::rec_valid(
            #[trigger] out[i],
        ) by {
            if i == 0 {
                assert(out[0] == rs[0]);
            } else {
                assert(out[i] == sub[i - 1]);
            }
        }
    }
}

/// A prefix of keys below the new key passes through an insertion unchanged.
pub proof fn lemma_sorted_insert_skip(rs: Seq<RecModel>, k: Seq<u8>, v: Option<Seq<u8>>, j: int)
    requires
        0 <= j <= rs.len(),
        forall|i: int| 0 <= i < j ==> lex_lt((#[trigger] rs[i]).key, k),
    ensures
        sorted_insert(rs, k, v) == rs.take(j) + sorted_insert(rs.skip(j), k, v),
    decreases j,
{
    if j == 0 {
        assert(rs.take(0) =~= Seq::<RecModel>::empty());
        assert(rs.skip(0) =~= rs);
        assert(sorted_insert(rs, k, v) =~= rs.take(0) + sorted_insert(rs.skip(0), k, v));
    } else {
        assert(lex_lt(rs[0].key, k));
        crate::lex::lemma_lex_asymmetric(rs[0].key, k);
        lemma_lex_irreflexive(k);
        assert(!lex_lt(k, rs[0].key));
        assert(k != rs[0].key);
        assert(forall|i: int|
            0 <= i < rs.drop_first().len() ==> rs.drop_first()[i] == rs[i + 1]);
        lemma_sorted_insert_skip(rs.drop_first(), k, v, j - 1);
        assert(rs.drop_first().take(j - 1) =~= rs.take(j).drop_first());
        assert(rs.drop_first().skip(j - 1) =~= rs.skip(j));
        assert(sorted_insert(rs, k, v) =~= rs.take(j) + sorted_insert(rs.skip(j), k, v));
    }
}

/// The in-memory write buffer.
pub struct MemTable {
    pub entries: Vec<Record>,
}

impl MemTable {
    /// The run of records, in key order.
    pub open spec fn recs(self) -> Seq<RecModel> {
        models(self.entries@)
    }

    pub open spec fn wf(self) -> bool {
        sorted_strict(self.recs())
    }

    pub fn new() -> (r: MemTable)
        ensures
            r.wf(),
            r.recs() == Seq::<RecModel>::empty(),
    {
        let r = MemTable { entries: Vec::new() };
        proof {
            assert(r.recs() =~= Seq::<RecModel>::empty());
        }
        r
    }

    pub fn len(&self) -> (r: usize)
        ensures
            r == self.recs().len(),
    {
        self.entries.len()
    }

    pub fn clear(&mut self)
        ensures
            final(self).wf(),
            final(self).recs() == Seq::<RecModel>::empty(),
    {
        self.entries.clear();
        proof {
            assert(self.recs() =~= Seq::<RecModel>::empty());
        }
    }

    /// Insert a record, replacing any record the key already has.
    pub fn insert(&mut self, key: Vec<u8>, value: Option<Vec<u8>>)
        ensures
            final(self).recs() == sorted_insert(old(self).recs(), key@, opt_bytes_view(value)),
    {
        let ghost rs = self.recs();
        let ghost kv = key@;
        let ghost vv = opt_bytes_view(value);
        let mut i: usize = 0;
        let n = self.entries.len();
        while i < n
            invariant
                i <= n,
                n == self.entries@.len(),
                self.entries@ == old(self).entries@,
                self.recs() == rs,
                kv == key@,
                vv == opt_bytes_view(value),
                forall|j: int| 0 <= j < i ==> lex_lt((#[trigger] rs[j]).key, kv),
            decreases n - i,
        {
            match lex_cmp(&key, &self.entries[i].key) {
                KeyOrder::Less => {
                    proof {
                        lemma_sorted_insert_skip(rs, kv, vv, i as int);
                        assert(rs[i as int] == self.entries@[i as int]@);
                        assert(rs.skip(i as int)[0] == rs[i as int]);
                        assert(lex_lt(kv, rs.skip(i as int)[0].key));
                        assert(sorted_insert(rs.skip(i as int), kv, vv) == seq![
                            RecModel { key: kv, value: vv },
                        ] + rs.skip(i as int));
                    }
                    self.entries.insert(i, Record { key, value });
                    proof {
                        let target = rs.take(i as int) + (seq![RecModel { key: kv, value: vv }]
                            + rs.skip(i as int));
                        assert forall|m: int| 0 <= m < self.recs().len() implies self.recs()[m]
                            == target[m] by {
                            if m < i {
                                assert(self.entries@[m] == old(self).entries@[m]);
                            } else if m > i {
                                assert(self.entries@[m] == old(self).entries@[m - 1]);
                            }
                        }
                        assert(self.recs() =~= target);
                    }
                    return ;
                },
                KeyOrder::Equal => {
                    proof {
                        lemma_sorted_insert_skip(rs, kv, vv, i as int);
                        assert(rs[i as int] == self.entries@[i as int]@);
                        assert(rs.skip(i as int)[0] == rs[i as int]);
                        assert(kv == rs.skip(i as int)[0].key);
                        assert(!lex_lt(kv, rs.skip(i as int)[0].key)) by {
                            lemma_lex_irreflexive(kv);
                        }
                        assert(rs.skip(i as int).drop_first() =~= rs.skip(i as int + 1));
                        assert(sorted_insert(rs.skip(i as int), kv, vv) == seq![
                            RecModel { key: kv, value: vv },
                        ] + rs.skip(i as int + 1));
                    }
                    self.entries.remove(i);
                    self.entries.insert(i, Record { key, value });
                    proof {
                        let target = rs.take(i as int) + (seq![RecModel { key: kv, value: vv }]
                            + rs.skip(i as int + 1));
                        assert forall|m: int| 0 <= m < self.recs().len() implies self.recs()[m]
                            == target[m] by {
                            if m < i {
                                assert(self.entries@[m] == old(self).entries@[m]);
                            } else if m > i {
                                assert(self.entries@[m] == old(self).entries@[m]);
                            }
                        }
                        assert(self.recs() =~= target);
                    }
                    return ;
                },
                KeyOrder::Greater => {
                    proof {
                        assert(rs[i as int].key == self.entries@[i as int]@.key);
                    }
                    i += 1;
                },
            }
        }
        proof {
            lemma_sorted_insert_skip(rs, kv, vv, n as int);
            assert(rs.skip(n as int) =~= Seq::<RecModel>::empty());
        }
        self.entries.push(Record { key, value });
        proof {
            assert(self.recs() =~= rs.take(n as int) + sorted_insert(
                Seq::<RecModel>::empty(),
                kv,
                vv,
            ));
        }
    }

    /// The record held for a key, if any: a copy of the value, or the tombstone.
    pub fn find(&self, key: &Vec<u8>) -> (r: Option<Option<Vec<u8>>>)
        ensures
            match r {
                None => seq_find(self.recs(), key@) == None::<Option<Seq<u8>>>,
                Some(v) => seq_find(self.recs(), key@) == Some(opt_bytes_view(v)),
            },
    {
        let mut i: usize = 0;
        let n = self.entries.len();
        while i < n
            invariant
                i <= n,
                n == self.entries@.len(),
                forall|j: int| 0 <= j < i ==> (#[trigger] self.recs()[j]).key != key@,
            decreases n - i,
        {
            match lex_cmp(&self.entries[i].key, key) {
                KeyOrder::Equal => {
                    proof {
                        lemma_find_at(self.recs(), key@, i as int);
                    }
                    match &self.entries[i].value {
                        Some(v) => {
                            let c = copy_range(v, 0, v.len());
                            proof {
                                assert(c@ =~= v@);
                            }
                            return Some(Some(c));
                        },
                        None => {
                            return Some(None);
                        },
                    }
                },
                _ => {
                    proof {
                        assert(self.recs()[i as int].key == self.entries@[i as int]@.key);
                    }
                    i += 1;
                },
            }
        }
        proof {
            lemma_find_none(self.recs(), key@);
        }
        None
    }
}

} // verus!
