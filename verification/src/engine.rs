//! The storage engine: a write buffer backed by a write-ahead log, in front of
//! a registry of immutable segments ordered oldest to newest.
//!
//! The engine performs no I/O itself. A mutation returns the exact bytes to
//! append to the log and, when it triggered a flush, the new segment image to
//! write; recovery takes back the bytes read from those files. The invariant
//! carries durability: replaying the engine's own log always rebuilds its
//! write buffer.

use vstd::prelude::*;

use crate::lex::{lex_lt, lemma_lex_irreflexive, lemma_lex_transitive};
use crate::memtable::{
    lemma_sorted_insert_find, lemma_sorted_insert_lines_ok, lemma_sorted_insert_sorted,
    lemma_sorted_insert_valid, sorted_insert, MemTable,
};
use crate::record::{
    check_key, check_value, copy_range, line_ok, lines_ok, models, lemma_valid_lines_ok,
    opt_bytes_view, rec_valid, recs_valid, seq_find, sorted_strict, valid_key, valid_value,
    RecModel, Record, NEWLINE,
};
use crate::sstable::{build_table, table_bytes, SsTable};
use crate::wal::{
    apply_recs, delete_line, last_mut, lemma_apply_concat, lemma_apply_find, lemma_apply_push,
    lemma_apply_sorted, lemma_apply_valid, lemma_last_mut_concat, lemma_last_mut_sorted,
    lemma_parse_delete_line, lemma_parse_set_line, lemma_wal_normalize, lemma_wal_recs_concat,
    lemma_wal_recs_valid, make_delete_line, make_set_line, replay, replay_wal, set_line, wal_recs,
    wal_terminated,
};

verus! {

/// Why a mutation was rejected. The engine's state is unchanged on rejection.
#[derive(Clone, Copy, Debug, PartialEq, Eq)]
pub enum EngineError {
    /// The key or the value violates the storage constraints: a key must be
    /// non-empty and free of whitespace, comma and newline; a value must be
    /// free of comma and newline and must not spell the reserved tombstone
    /// literal.
    InvalidInput,
}

/// What a caller must persist, in order, before acknowledging a mutation:
/// append `wal_append` to the log and flush it; then, if `flushed` is set,
/// write it as a new segment file and truncate the log to empty.
pub struct MutationEffect {
    pub wal_append: Vec<u8>,
    pub flushed: Option<Vec<u8>>,
}

/// What a caller must persist after a compaction: on `Merged`, write the
/// output as a new segment file (none when every surviving record was a
/// tombstone), then delete the old segment files.
pub enum CompactEffect {
    Skipped,
    Merged { output: Option<Vec<u8>> },
}

/// Whether bytes are a well-formed segment image.
pub open spec fn is_table_image(b: Seq<u8>) -> bool {
    exists|rs: Seq<RecModel>|
        sorted_strict(rs) && lines_ok(rs) && rs.len() > 0 && b == table_bytes(rs)
}

pub open spec fn bytes_views(s: Seq<Vec<u8>>) -> Seq<Seq<u8>> {
    s.map_values(|v: Vec<u8>| v@)
}

pub open spec fn table_images_of(ts: Seq<SsTable>) -> Seq<Seq<u8>> {
    ts.map_values(|t: SsTable| t.bytes@)
}

/// The well-formed images among a sequence, in order: exactly what recovery
/// registers; corrupt images contribute nothing.
pub open spec fn sound_images(imgs: Seq<Seq<u8>>) -> Seq<Seq<u8>>
    decreases imgs.len(),
{
    if imgs.len() == 0 {
        Seq::empty()
    } else if is_table_image(imgs[0]) {
        seq![imgs[0]] + sound_images(imgs.drop_first())
    } else {
        sound_images(imgs.drop_first())
    }
}

pub proof fn lemma_sound_images_push(s: Seq<Seq<u8>>, x: Seq<u8>)
    ensures
        sound_images(s.push(x)) == sound_images(s) + (if is_table_image(x) {
            seq![x]
        } else {
            Seq::<Seq<u8>>::empty()
        }),
    decreases s.len(),
{
    if s.len() == 0 {
        assert(s.push(x)[0] == x);
        assert(s.push(x).drop_first() =~= Seq::<Seq<u8>>::empty());
        assert(sound_images(Seq::<Seq<u8>>::empty()) =~= Seq::<Seq<u8>>::empty());
        if is_table_image(x) {
            assert(sound_images(s.push(x)) =~= sound_images(s) + seq![x]);
        } else {
            assert(sound_images(s.push(x)) =~= sound_images(s) + Seq::<Seq<u8>>::empty());
        }
    } else {
        assert(s.push(x)[0] == s[0]);
        assert(s.push(x).drop_first() =~= s.drop_first().push(x));
        lemma_sound_images_push(s.drop_first(), x);
        if is_table_image(x) {
            assert(sound_images(s.push(x)) =~= sound_images(s) + seq![x]);
        } else {
            assert(sound_images(s.push(x)) =~= sound_images(s) + Seq::<Seq<u8>>::empty());
        }
    }
}

/// The segments' runs laid end to end, oldest first: the mutation stream that
/// a merge reads.
pub open spec fn runs_concat(ts: Seq<Seq<RecModel>>) -> Seq<RecModel>
    decreases ts.len(),
{
    if ts.len() == 0 {
        Seq::empty()
    } else {
        ts[0] + runs_concat(ts.drop_first())
    }
}

pub proof fn lemma_runs_concat_push(ts: Seq<Seq<RecModel>>, x: Seq<RecModel>)
    ensures
        runs_concat(ts.push(x)) == runs_concat(ts) + x,
    decreases ts.len(),
{
    if ts.len() == 0 {
        assert(ts.push(x)[0] == x);
        assert(ts.push(x).drop_first() =~= Seq::<Seq<RecModel>>::empty());
        assert(runs_concat(Seq::<Seq<RecModel>>::empty()) =~= Seq::<RecModel>::empty());
        assert(runs_concat(ts.push(x)) =~= runs_concat(ts) + x);
    } else {
        assert(ts.push(x)[0] == ts[0]);
        assert(ts.push(x).drop_first() =~= ts.drop_first().push(x));
        lemma_runs_concat_push(ts.drop_first(), x);
        assert(runs_concat(ts.push(x)) =~= runs_concat(ts) + x);
    }
}

/// The newest mutation in the merge stream is exactly what the newest-first
/// segment probe finds.
pub proof fn lemma_concat_last_mut(ts: Seq<Seq<RecModel>>, q: Seq<u8>)
    requires
        forall|i: int| 0 <= i < ts.len() ==> sorted_strict(#[trigger] ts[i]),
    ensures
        last_mut(runs_concat(ts), q) == StorageEngine::tables_find(ts, q),
    decreases ts.len(),
{
    if ts.len() > 0 {
        let d = ts.drop_last();
        let x = ts.last();
        assert(ts =~= d.push(x));
        lemma_runs_concat_push(d, x);
        lemma_last_mut_concat(runs_concat(d), x, q);
        lemma_last_mut_sorted(x, q);
        assert(forall|i: int| 0 <= i < d.len() ==> d[i] == ts[i]);
        lemma_concat_last_mut(d, q);
    }
}

/// The records compaction keeps: the run with its tombstones dropped.
pub open spec fn live_recs(rs: Seq<RecModel>) -> Seq<RecModel>
    decreases rs.len(),
{
    if rs.len() == 0 {
        Seq::empty()
    } else if rs[0].value is Some {
        seq![rs[0]] + live_recs(rs.drop_first())
    } else {
        live_recs(rs.drop_first())
    }
}

pub proof fn lemma_live_push(s: Seq<RecModel>, x: RecModel)
    ensures
        live_recs(s.push(x)) == live_recs(s) + (if x.value is Some {
            seq![x]
        } else {
            Seq::<RecModel>::empty()
        }),
    decreases s.len(),
{
    if s.len() == 0 {
        assert(s.push(x)[0] == x);
        assert(s.push(x).drop_first() =~= Seq::<RecModel>::empty());
        assert(live_recs(Seq::<RecModel>::empty()) =~= Seq::<RecModel>::empty());
        if x.value is Some {
            assert(live_recs(s.push(x)) =~= live_recs(s) + seq![x]);
        } else {
            assert(live_recs(s.push(x)) =~= live_recs(s) + Seq::<RecModel>::empty());
        }
    } else {
        assert(s.push(x)[0] == s[0]);
        assert(s.push(x).drop_first() =~= s.drop_first().push(x));
        lemma_live_push(s.drop_first(), x);
        if x.value is Some {
            assert(live_recs(s.push(x)) =~= live_recs(s) + seq![x]);
        } else {
            assert(live_recs(s.push(x)) =~= live_recs(s) + Seq::<RecModel>::empty());
        }
    }
}

/// Every kept record is one of the run's records.
pub proof fn lemma_live_members(rs: Seq<RecModel>)
    ensures
        forall|i: int|
            0 <= i < live_recs(rs).len() ==> exists|j: int|
                0 <= j < rs.len() && #[trigger] live_recs(rs)[i] == rs[j],
    decreases rs.len(),
{
    if rs.len() > 0 {
        lemma_live_members(rs.drop_first());
        let lv = live_recs(rs);
        let lt = live_recs(rs.drop_first());
        assert forall|i: int| 0 <= i < lv.len() implies exists|j: int|
            0 <= j < rs.len() && #[trigger] lv[i] == rs[j] by {
            if rs[0].value is Some {
                if i == 0 {
                    assert(lv[0] == rs[0]);
                } else {
                    assert(lv[i] == lt[i - 1]);
                    let j = choose|j: int|
                        0 <= j < rs.drop_first().len() && lt[i - 1] == rs.drop_first()[j];
                    assert(rs.drop_first()[j] == rs[j + 1]);
                    assert(lv[i] == rs[j + 1]);
                }
            } else {
                assert(lv[i] == lt[i]);
                let j = choose|j: int|
                    0 <= j < rs.drop_first().len() && lt[i] == rs.drop_first()[j];
                assert(rs.drop_first()[j] == rs[j + 1]);
                assert(lv[i] == rs[j + 1]);
            }
        }
    }
}

/// Dropping tombstones keeps the run sorted and well framed.
pub proof fn lemma_live_sorted(rs: Seq<RecModel>)
    requires
        sorted_strict(rs),
        lines_ok(rs),
    ensures
        sorted_strict(live_recs(rs)),
        lines_ok(live_recs(rs)),
    decreases rs.len(),
{
    if rs.len() > 0 {
        assert(sorted_strict(rs.drop_first()) && lines_ok(rs.drop_first())) by {
            assert(forall|i: int|
                0 <= i < rs.drop_first().len() ==> rs.drop_first()[i] == rs[i + 1]);
        }
        lemma_live_sorted(rs.drop_first());
        lemma_live_members(rs.drop_first());
        let lv = live_recs(rs);
        let lt = live_recs(rs.drop_first());
        if rs[0].value is Some {
            assert forall|i: int, j: int| 0 <= i < j < lv.len() implies lex_lt(
                (#[trigger] lv[i]).key,
                (#[trigger] lv[j]).key,
            ) by {
                if i == 0 {
                    assert(lv[j] == lt[j - 1]);
                    let m = choose|m: int|
                        0 <= m < rs.drop_first().len() && lt[j - 1] == rs.drop_first()[m];
                    assert(rs.drop_first()[m] == rs[m + 1]);
                    assert(lex_lt(rs[0].key, rs[m + 1].key));
                } else {
                    assert(lv[i] == lt[i - 1]);
                    assert(lv[j] == lt[j - 1]);
                }
            }
            assert forall|i: int| 0 <= i < lv.len() implies line_ok(#[trigger] lv[i]) by {
                if i == 0 {
                    assert(lv[0] == rs[0]);
                } else {
                    assert(lv[i] == lt[i - 1]);
                }
            }
        }
    }
}

/// Every kept record is live: compaction writes no tombstone.
pub proof fn lemma_live_values(rs: Seq<RecModel>)
    ensures
        forall|i: int|
            0 <= i < live_recs(rs).len() ==> (#[trigger] live_recs(rs)[i]).value is Some,
    decreases rs.len(),
{
    if rs.len() > 0 {
        lemma_live_values(rs.drop_first());
        let lv = live_recs(rs);
        let lt = live_recs(rs.drop_first());
        assert forall|i: int| 0 <= i < lv.len() implies (#[trigger] lv[i]).value is Some by {
            if rs[0].value is Some {
                if i == 0 {
                    assert(lv[0] == rs[0]);
                } else {
                    assert(lv[i] == lt[i - 1]);
                }
            } else {
                assert(lv[i] == lt[i]);
            }
        }
    }
}

/// The run a full compaction writes: for every key the newest record across
/// the segments, oldest to newest, with tombstones dropped.
pub open spec fn compacted_run(ts: Seq<Seq<RecModel>>) -> Seq<RecModel> {
    live_recs(apply_recs(Seq::empty(), runs_concat(ts)))
}

/// Dropping tombstones changes no observable lookup: a live record reads the
/// same, a tombstone and an absent key both read as absent.
pub proof fn lemma_live_find(rs: Seq<RecModel>, q: Seq<u8>)
    requires
        sorted_strict(rs),
    ensures
        seq_find(live_recs(rs), q) == match seq_find(rs, q) {
            Some(v) => if v is Some {
                Some(v)
            } else {
                None::<Option<Seq<u8>>>
            },
            None => None::<Option<Seq<u8>>>,
        },
    decreases rs.len(),
{
    if rs.len() > 0 {
        assert(sorted_strict(rs.drop_first())) by {
            assert(forall|i: int|
                0 <= i < rs.drop_first().len() ==> rs.drop_first()[i] == rs[i + 1]);
        }
        lemma_live_find(rs.drop_first(), q);
        let lv = live_recs(rs);
        let lt = live_recs(rs.drop_first());
        if rs[0].key == q {
            if rs[0].value is Some {
                assert(lv[0] == rs[0]);
                assert(lv.drop_first() =~= lt);
            } else {
                assert forall|i: int|
                    0 <= i < rs.drop_first().len() implies (#[trigger] rs.drop_first()[i]).key
                    != q by {
                    assert(rs.drop_first()[i] == rs[i + 1]);
                    assert(lex_lt(rs[0].key, rs[i + 1].key));
                    if rs[i + 1].key == q {
                        lemma_lex_irreflexive(q);
                    }
                }
                crate::record::lemma_find_none(rs.drop_first(), q);
            }
        } else {
            if rs[0].value is Some {
                assert(lv[0] == rs[0]);
                assert(lv.drop_first() =~= lt);
            }
        }
    }
}

pub struct StorageEngine {
    pub memtable: MemTable,
    pub tables: Vec<SsTable>,
    pub wal: Vec<u8>,
    pub flush_threshold: usize,
}

impl StorageEngine {
    /// The registered segments' runs, oldest first.
    pub open spec fn table_runs(self) -> Seq<Seq<RecModel>> {
        self.tables@.map_values(|t: SsTable| t.recs@)
    }

    /// The freshest record the segments hold for a key: newest segment first.
    pub open spec fn tables_find(ts: Seq<Seq<RecModel>>, k: Seq<u8>) -> Option<Option<Seq<u8>>>
        decreases ts.len(),
    {
        if ts.len() == 0 {
            None
        } else {
            match seq_find(ts.last(), k) {
                Some(r) => Some(r),
                None => Self::tables_find(ts.drop_last(), k),
            }
        }
    }

    /// What `get` returns for a key: the write buffer's record wins, even a
    /// tombstone; otherwise the freshest segment record; a tombstone and an
    /// absent key both read as `None`.
    pub open spec fn visible(self, k: Seq<u8>) -> Option<Seq<u8>> {
        match seq_find(self.memtable.recs(), k) {
            Some(r) => r,
            None => match Self::tables_find(self.table_runs(), k) {
                Some(r) => r,
                None => None,
            },
        }
    }

    pub open spec fn wf(self) -> bool {
        &&& self.memtable.wf()
        &&& recs_valid(self.memtable.recs())
        &&& forall|i: int| 0 <= i < self.tables@.len() ==> (#[trigger] self.tables@[i]).wf()
        &&& wal_terminated(self.wal@)
        &&& self.memtable.recs() == replay(self.wal@)
        &&& self.flush_threshold >= 1
    }

    /// Open the engine from what is on disk: the log's bytes and the segment
    /// images, oldest first. The write buffer is rebuilt by replaying the log;
    /// images that are not well-formed segments are skipped, as corrupt. The
    /// returned flag asks the caller to append one newline byte to the log
    /// file: it is set when the log ended in a partial line.
    pub fn new(wal_bytes: Vec<u8>, table_images: Vec<Vec<u8>>, flush_threshold: usize) -> (r: (
        StorageEngine,
        bool,
    ))
        requires
            flush_threshold >= 1,
        ensures
            r.0.wf(),
            r.0.flush_threshold == flush_threshold,
            r.0.memtable.recs() == replay(wal_bytes@),
            r.1 == !wal_terminated(wal_bytes@),
            table_images_of(r.0.tables@) == sound_images(bytes_views(table_images@)),
            (forall|i: int|
                0 <= i < table_images@.len() ==> is_table_image(#[trigger] table_images@[i]@))
                ==> r.0.tables@.len() == table_images@.len() && (forall|i: int|
                0 <= i < table_images@.len() ==> (#[trigger] r.0.tables@[i]).bytes@
                    == table_images@[i]@),
    {
        let mut wal = wal_bytes;
        let ragged = wal.len() > 0 && wal[wal.len() - 1] != NEWLINE;
        if ragged {
            proof {
                lemma_wal_normalize(wal@);
            }
            wal.push(NEWLINE);
        }
        let memtable = replay_wal(&wal);
        proof {
            lemma_wal_recs_valid(wal@);
            lemma_apply_valid(Seq::<RecModel>::empty(), wal_recs(wal@));
        }
        let mut tables: Vec<SsTable> = Vec::new();
        let n = table_images.len();
        let ghost imgs = bytes_views(table_images@);
        let mut i: usize = 0;
        proof {
            assert(imgs.take(0) =~= Seq::<Seq<u8>>::empty());
            assert(sound_images(Seq::<Seq<u8>>::empty()) =~= Seq::<Seq<u8>>::empty());
            assert(table_images_of(tables@) =~= sound_images(imgs.take(0)));
        }
        while i < n
            invariant
                i <= n,
                n == table_images@.len(),
                imgs == bytes_views(table_images@),
                forall|m: int| 0 <= m < tables@.len() ==> (#[trigger] tables@[m]).wf(),
                table_images_of(tables@) == sound_images(imgs.take(i as int)),
                (forall|m: int|
                    0 <= m < i ==> is_table_image(#[trigger] table_images@[m]@)) ==> tables@.len()
                    == i && (forall|m: int|
                    0 <= m < i ==> (#[trigger] tables@[m]).bytes@ == table_images@[m]@),
            decreases n - i,
        {
            let img = copy_range(&table_images[i], 0, table_images[i].len());
            proof {
                assert(img@ =~= table_images@[i as int]@);
                assert(imgs[i as int] == table_images@[i as int]@);
                assert(imgs.take(i as int + 1) =~= imgs.take(i as int).push(imgs[i as int]));
                lemma_sound_images_push(imgs.take(i as int), imgs[i as int]);
            }
            let ghost pre_tables = tables@;
            match SsTable::from_bytes(img) {
                Some(t) => {
                    proof {
                        assert(is_table_image(imgs[i as int])) by {
                            assert(sorted_strict(t.recs@) && lines_ok(t.recs@) && t.recs@.len() > 0
                                && imgs[i as int] == table_bytes(t.recs@));
                        }
                    }
                    tables.push(t);
                    proof {
                        assert(table_images_of(tables@) =~= table_images_of(pre_tables).push(
                            imgs[i as int],
                        ));
                        assert(table_images_of(tables@) =~= sound_images(imgs.take(i as int + 1)));
                    }
                },
                None => {
                    proof {
                        assert(!is_table_image(table_images@[i as int]@));
                        assert(table_images_of(tables@) =~= sound_images(imgs.take(i as int + 1)));
                    }
                },
            }
            i += 1;
        }
        proof {
            assert(imgs.take(n as int) =~= imgs);
        }
        let engine = StorageEngine { memtable, tables, wal, flush_threshold };
        (engine, ragged)
    }

    /// Durably record `key -> value` and make it visible to every later read.
    /// Rejected, with the engine unchanged, exactly when the key or the value
    /// violates the storage constraints. May flush the write buffer into a new
    /// segment once it reaches the flush threshold.
    #[verifier::rlimit(100)]
    pub fn set(&mut self, key: Vec<u8>, value: Vec<u8>) -> (r: Result<MutationEffect, EngineError>)
        requires
            old(self).wf(),
        ensures
            final(self).wf(),
            final(self).flush_threshold == old(self).flush_threshold,
            !(valid_key(key@) && valid_value(value@)) ==> r is Err && *final(self) == *old(self),
            valid_key(key@) && valid_value(value@) ==> r is Ok && (forall|q: Seq<u8>|
                final(self).visible(q) == if q == key@ {
                    Some(value@)
                } else {
                    old(self).visible(q)
                }),
            valid_key(key@) && valid_value(value@) ==> {
                let eff = r.unwrap();
                let inserted = sorted_insert(old(self).memtable.recs(), key@, Some(value@));
                &&& eff.wal_append@ == set_line(key@, value@)
                &&& if inserted.len() >= old(self).flush_threshold {
                    &&& eff.flushed matches Some(img) && img@ == table_bytes(inserted)
                    &&& final(self).table_runs() == old(self).table_runs().push(inserted)
                    &&& final(self).memtable.recs() == Seq::<RecModel>::empty()
                    &&& final(self).wal@ == Seq::<u8>::empty()
                } else {
                    &&& eff.flushed is None
                    &&& final(self).table_runs() == old(self).table_runs()
                    &&& final(self).memtable.recs() == inserted
                    &&& final(self).wal@ == old(self).wal@ + set_line(key@, value@)
                }
            },
    {
        if !check_key(&key) || !check_value(&value) {
            return Err(EngineError::InvalidInput);
        }
        let ghost pre = *self;
        let ghost km = key@;
        let ghost vm = value@;
        let line = make_set_line(&key, &value);
        let wal_append = copy_range(&line, 0, line.len());
        let mut lcopy = line;
        self.wal.append(&mut lcopy);
        self.memtable.insert(key, Some(value));
        proof {
            lemma_parse_set_line(km, vm);
            lemma_wal_recs_concat(pre.wal@, set_line(km, vm));
            lemma_apply_concat(
                Seq::<RecModel>::empty(),
                wal_recs(pre.wal@),
                wal_recs(set_line(km, vm)),
            );
            assert(wal_recs(set_line(km, vm))[0] == RecModel { key: km, value: Some(vm) });
            assert(wal_recs(set_line(km, vm)).drop_first() =~= Seq::<RecModel>::empty());
            assert(self.wal@ =~= pre.wal@ + set_line(km, vm));
            assert(apply_recs(
                sorted_insert(replay(pre.wal@), km, Some(vm)),
                Seq::<RecModel>::empty(),
            ) == sorted_insert(replay(pre.wal@), km, Some(vm)));
            assert(replay(self.wal@) == sorted_insert(pre.memtable.recs(), km, Some(vm)));
            lemma_sorted_insert_sorted(pre.memtable.recs(), km, Some(vm));
            lemma_sorted_insert_valid(pre.memtable.recs(), km, Some(vm));
            assert(wal_terminated(self.wal@)) by {
                assert(self.wal@[self.wal@.len() - 1] == set_line(km, vm)[set_line(
                    km,
                    vm,
                ).len() - 1]);
            }
            assert forall|q: Seq<u8>|
                self.visible(q) == if q == km {
                    Some(vm)
                } else {
                    pre.visible(q)
                } by {
                lemma_sorted_insert_find(pre.memtable.recs(), km, Some(vm), q);
            }
        }
        let ghost mid = *self;
        let flushed = self.flush_if_full();
        proof {
            assert forall|q: Seq<u8>|
                self.visible(q) == (if q == km {
                    Some(vm)
                } else {
                    pre.visible(q)
                }) by {
                assert(self.visible(q) == mid.visible(q));
                assert(mid.visible(q) == (if q == km {
                    Some(vm)
                } else {
                    pre.visible(q)
                }));
            }
        }
        Ok(MutationEffect { wal_append, flushed })
    }

    /// Flush the write buffer into a new segment when a mutation has brought
    /// it to the flush threshold: the segment is registered and the log and
    /// the buffer are cleared, in that order, so no lookup changes its answer.
    fn flush_if_full(&mut self) -> (r: Option<Vec<u8>>)
        requires
            old(self).wf(),
        ensures
            final(self).wf(),
            final(self).flush_threshold == old(self).flush_threshold,
            forall|q: Seq<u8>| final(self).visible(q) == old(self).visible(q),
            if old(self).memtable.recs().len() >= old(self).flush_threshold {
                &&& r matches Some(img) && img@ == table_bytes(old(self).memtable.recs())
                &&& final(self).table_runs() == old(self).table_runs().push(
                    old(self).memtable.recs(),
                )
                &&& final(self).memtable.recs() == Seq::<RecModel>::empty()
                &&& final(self).wal@ == Seq::<u8>::empty()
            } else {
                r is None && *final(self) == *old(self)
            },
    {
        if self.memtable.len() >= self.flush_threshold {
            let ghost mid = *self;
            proof {
                lemma_valid_lines_ok(self.memtable.recs());
            }
            let t = build_table(&self.memtable.entries);
            let out = copy_range(&t.bytes, 0, t.bytes.len());
            self.tables.push(t);
            self.memtable.clear();
            self.wal.clear();
            proof {
                assert(wal_recs(Seq::<u8>::empty()) =~= Seq::<RecModel>::empty());
                assert(replay(Seq::<u8>::empty()) == Seq::<RecModel>::empty());
                assert(self.table_runs() =~= mid.table_runs().push(mid.memtable.recs()));
                assert forall|q: Seq<u8>|
                    self.visible(q) == mid.visible(q) by {
                    assert(seq_find(Seq::<RecModel>::empty(), q) == None::<Option<Seq<u8>>>);
                    assert(self.table_runs().last() == mid.memtable.recs());
                    assert(self.table_runs().drop_last() =~= mid.table_runs());
                }
                assert(forall|i: int|
                    0 <= i < self.tables@.len() ==> (#[trigger] self.tables@[i]).wf());
            }
            Some(out)
        } else {
            None
        }
    }

    /// Durably record a tombstone for the key: later reads return `None` until
    /// a later set. Succeeds whether or not the key was ever written; rejected,
    /// with the engine unchanged, exactly when the key violates the storage
    /// constraints. A tombstone is a mutation like any other: it may bring the
    /// write buffer to the flush threshold and trigger the flush.
    #[verifier::rlimit(100)]
    pub fn delete(&mut self, key: Vec<u8>) -> (r: Result<MutationEffect, EngineError>)
        requires
            old(self).wf(),
        ensures
            final(self).wf(),
            final(self).flush_threshold == old(self).flush_threshold,
            !valid_key(key@) ==> r is Err && *final(self) == *old(self),
            valid_key(key@) ==> r is Ok && (forall|q: Seq<u8>|
                final(self).visible(q) == if q == key@ {
                    None::<Seq<u8>>
                } else {
                    old(self).visible(q)
                }),
            valid_key(key@) ==> {
                let eff = r.unwrap();
                let inserted = sorted_insert(old(self).memtable.recs(), key@, None);
                &&& eff.wal_append@ == delete_line(key@)
                &&& if inserted.len() >= old(self).flush_threshold {
                    &&& eff.flushed matches Some(img) && img@ == table_bytes(inserted)
                    &&& final(self).table_runs() == old(self).table_runs().push(inserted)
                    &&& final(self).memtable.recs() == Seq::<RecModel>::empty()
                    &&& final(self).wal@ == Seq::<u8>::empty()
                } else {
                    &&& eff.flushed is None
                    &&& final(self).table_runs() == old(self).table_runs()
                    &&& final(self).memtable.recs() == inserted
                    &&& final(self).wal@ == old(self).wal@ + delete_line(key@)
                }
            },
    {
        if !check_key(&key) {
            return Err(EngineError::InvalidInput);
        }
        let ghost pre = *self;
        let ghost km = key@;
        let line = make_delete_line(&key);
        let wal_append = copy_range(&line, 0, line.len());
        let mut lcopy = line;
        self.wal.append(&mut lcopy);
        self.memtable.insert(key, None);
        proof {
            lemma_parse_delete_line(km);
            lemma_wal_recs_concat(pre.wal@, delete_line(km));
            lemma_apply_concat(
                Seq::<RecModel>::empty(),
                wal_recs(pre.wal@),
                wal_recs(delete_line(km)),
            );
            assert(wal_recs(delete_line(km))[0] == RecModel { key: km, value: None });
            assert(wal_recs(delete_line(km)).drop_first() =~= Seq::<RecModel>::empty());
            assert(self.wal@ =~= pre.wal@ + delete_line(km));
            assert(apply_recs(
                sorted_insert(replay(pre.wal@), km, None),
                Seq::<RecModel>::empty(),
            ) == sorted_insert(replay(pre.wal@), km, None));
            assert(replay(self.wal@) == sorted_insert(pre.memtable.recs(), km, None));
            lemma_sorted_insert_sorted(pre.memtable.recs(), km, None);
            lemma_sorted_insert_valid(pre.memtable.recs(), km, None);
            assert(wal_terminated(self.wal@)) by {
                assert(self.wal@[self.wal@.len() - 1] == delete_line(km)[delete_line(
                    km,
                ).len() - 1]);
            }
            assert forall|q: Seq<u8>|
                self.visible(q) == if q == km {
                    None::<Seq<u8>>
                } else {
                    pre.visible(q)
                } by {
                lemma_sorted_insert_find(pre.memtable.recs(), km, None, q);
            }
        }
        let ghost mid = *self;
        let flushed = self.flush_if_full();
        proof {
            assert forall|q: Seq<u8>|
                self.visible(q) == (if q == km {
                    None::<Seq<u8>>
                } else {
                    pre.visible(q)
                }) by {
                assert(self.visible(q) == mid.visible(q));
                assert(mid.visible(q) == (if q == km {
                    None::<Seq<u8>>
                } else {
                    pre.visible(q)
                }));
            }
        }
        Ok(MutationEffect { wal_append, flushed })
    }

    /// The value of the freshest live record for the key: `None` when the
    /// freshest record is a tombstone or the key was never written. Probes the
    /// write buffer, then each segment from newest to oldest, taking the first
    /// hit.
    pub fn get(&self, key: &Vec<u8>) -> (r: Option<Vec<u8>>)
        requires
            self.wf(),
        ensures
            opt_bytes_view(r) == self.visible(key@),
    {
        match self.memtable.find(key) {
            Some(v) => v,
            None => {
                let mut i = self.tables.len();
                proof {
                    assert(self.table_runs().take(i as int) =~= self.table_runs());
                }
                while i > 0
                    invariant
                        self.wf(),
                        i <= self.tables@.len(),
                        seq_find(self.memtable.recs(), key@) == None::<Option<Seq<u8>>>,
                        Self::tables_find(self.table_runs(), key@) == Self::tables_find(
                            self.table_runs().take(i as int),
                            key@,
                        ),
                    decreases i,
                {
                    i -= 1;
                    proof {
                        assert(self.table_runs().take(i + 1).last() == self.table_runs()[i as int]);
                        assert(self.table_runs().take(i + 1).drop_last() =~= self.table_runs().take(
                            i as int,
                        ));
                        assert(self.table_runs()[i as int] == self.tables@[i as int].recs@);
                    }
                    match self.tables[i].search(key) {
                        Some(v) => {
                            proof {
                                assert(Self::tables_find(self.table_runs().take(i + 1), key@)
                                    == Some(opt_bytes_view(v)));
                            }
                            return v;
                        },
                        None => {
                        },
                    }
                }
                proof {
                    assert(self.table_runs().take(0) =~= Seq::<Seq<RecModel>>::empty());
                }
                None
            },
        }
    }
}


impl StorageEngine {
    /// Merge every registered segment into one, the newest record per key
    /// winning, and drop tombstones. A no-op when fewer than two segments are
    /// registered. The write buffer and the log are untouched, and no lookup
    /// changes its answer. Ties between equally aged segments are decided by
    /// registry order, which the shell keeps as the filename order.
    #[verifier::rlimit(100)]
    pub fn compact(&mut self) -> (r: CompactEffect)
        requires
            old(self).wf(),
        ensures
            final(self).wf(),
            final(self).memtable == old(self).memtable,
            final(self).wal@ == old(self).wal@,
            final(self).flush_threshold == old(self).flush_threshold,
            forall|q: Seq<u8>| final(self).visible(q) == old(self).visible(q),
            old(self).tables@.len() < 2 ==> r is Skipped && *final(self) == *old(self),
            old(self).tables@.len() >= 2 ==> match r {
                CompactEffect::Skipped => false,
                CompactEffect::Merged { output } => match output {
                    Some(img) => final(self).tables@.len() == 1 && final(self).tables@[0].bytes@
                        == img@ && final(self).tables@[0].recs@ == compacted_run(
                        old(self).table_runs(),
                    ) && (forall|i: int|
                        0 <= i < final(self).tables@[0].recs@.len()
                            ==> (#[trigger] final(self).tables@[0].recs@[i]).value is Some),
                    None => final(self).tables@.len() == 0 && compacted_run(
                        old(self).table_runs(),
                    ).len() == 0,
                },
            },
    {
        if self.tables.len() < 2 {
            return CompactEffect::Skipped;
        }
        let ghost pre = *self;
        let ghost runs = self.table_runs();
        let mut merged = MemTable::new();
        let nt = self.tables.len();
        let mut i: usize = 0;
        proof {
            assert(runs.take(0) =~= Seq::<Seq<RecModel>>::empty());
            assert(runs_concat(Seq::<Seq<RecModel>>::empty()) =~= Seq::<RecModel>::empty());
            assert(apply_recs(Seq::<RecModel>::empty(), Seq::<RecModel>::empty())
                == Seq::<RecModel>::empty());
        }
        while i < nt
            invariant
                i <= nt,
                nt == self.tables@.len(),
                *self == pre,
                pre.wf(),
                runs == pre.table_runs(),
                merged.wf(),
                lines_ok(merged.recs()),
                merged.recs() == apply_recs(
                    Seq::<RecModel>::empty(),
                    runs_concat(runs.take(i as int)),
                ),
            decreases nt - i,
        {
            proof {
                assert(self.tables@[i as int].wf());
                assert(runs[i as int] == self.tables@[i as int].recs@);
            }
            let recs = self.tables[i].read_records();
            let ghost run = runs[i as int];
            let m = recs.len();
            let ghost base = merged.recs();
            let mut j: usize = 0;
            proof {
                assert(models(recs@) == run);
                assert(run.take(0) =~= Seq::<RecModel>::empty());
                assert(apply_recs(base, Seq::<RecModel>::empty()) == base);
            }
            while j < m
                invariant
                    j <= m,
                    m == recs@.len(),
                    models(recs@) == run,
                    lines_ok(run),
                    merged.wf(),
                    lines_ok(merged.recs()),
                    merged.recs() == apply_recs(base, run.take(j as int)),
                decreases m - j,
            {
                proof {
                    assert(recs@[j as int]@ == run[j as int]);
                    assert(line_ok(run[j as int]));
                }
                let kb = copy_range(&recs[j].key, 0, recs[j].key.len());
                let vb: Option<Vec<u8>> = match &recs[j].value {
                    Some(v) => Some(copy_range(v, 0, v.len())),
                    None => None,
                };
                let ghost kv = kb@;
                let ghost vv = opt_bytes_view(vb);
                let ghost mpre = merged.recs();
                proof {
                    assert(kv =~= run[j as int].key);
                    assert(vv == run[j as int].value) by {
                        match run[j as int].value {
                            Some(x) => {
                                assert(vv =~= Some(x));
                            },
                            None => {},
                        }
                    }
                }
                merged.insert(kb, vb);
                proof {
                    assert(run.take(j as int + 1) =~= run.take(j as int).push(run[j as int]));
                    lemma_apply_push(base, run.take(j as int), run[j as int]);
                    assert(RecModel { key: kv, value: vv } == run[j as int]);
                    lemma_sorted_insert_sorted(mpre, kv, vv);
                    lemma_sorted_insert_lines_ok(mpre, kv, vv);
                }
                j += 1;
            }
            proof {
                assert(run.take(m as int) =~= run);
                assert(runs.take(i as int + 1) =~= runs.take(i as int).push(run));
                lemma_runs_concat_push(runs.take(i as int), run);
                lemma_apply_concat(
                    Seq::<RecModel>::empty(),
                    runs_concat(runs.take(i as int)),
                    run,
                );
            }
            i += 1;
        }
        proof {
            assert(runs.take(nt as int) =~= runs);
        }
        let ghost mg = merged.recs();
        let mut live: Vec<Record> = Vec::new();
        let lm = merged.entries.len();
        let mut p: usize = 0;
        proof {
            assert(mg.take(0) =~= Seq::<RecModel>::empty());
            assert(live_recs(Seq::<RecModel>::empty()) =~= Seq::<RecModel>::empty());
            assert(models(live@) =~= live_recs(mg.take(0)));
        }
        while p < lm
            invariant
                p <= lm,
                lm == merged.entries@.len(),
                merged.recs() == mg,
                models(live@) == live_recs(mg.take(p as int)),
            decreases lm - p,
        {
            proof {
                assert(merged.entries@[p as int]@ == mg[p as int]);
                assert(mg.take(p as int + 1) =~= mg.take(p as int).push(mg[p as int]));
                lemma_live_push(mg.take(p as int), mg[p as int]);
            }
            match &merged.entries[p].value {
                Some(v) => {
                    let kb = copy_range(
                        &merged.entries[p].key,
                        0,
                        merged.entries[p].key.len(),
                    );
                    let vb = copy_range(v, 0, v.len());
                    live.push(Record { key: kb, value: Some(vb) });
                    proof {
                        assert(live@[live@.len() - 1]@ =~= mg[p as int]);
                        assert(models(live@) =~= live_recs(mg.take(p as int + 1)));
                    }
                },
                None => {
                    proof {
                        assert(models(live@) =~= live_recs(mg.take(p as int + 1)));
                    }
                },
            }
            p += 1;
        }
        proof {
            assert(mg.take(lm as int) =~= mg);
            lemma_live_sorted(mg);
        }
        // the facts every exit needs: what the merge stream decides, per key
        proof {
            assert forall|q: Seq<u8>| seq_find(mg, q) == StorageEngine::tables_find(
                runs,
                q,
            ) by {
                assert(forall|x: int|
                    0 <= x < runs.len() ==> sorted_strict(#[trigger] runs[x])) by {
                    assert(forall|x: int|
                        0 <= x < runs.len() ==> runs[x] == pre.tables@[x].recs@);
                }
                lemma_concat_last_mut(runs, q);
                lemma_apply_find(Seq::<RecModel>::empty(), runs_concat(runs), q);
                assert(seq_find(Seq::<RecModel>::empty(), q) == None::<Option<Seq<u8>>>);
            }
        }
        if live.len() == 0 {
            self.tables.clear();
            proof {
                assert(compacted_run(runs).len() == 0) by {
                    assert(models(live@).len() == 0);
                    assert(compacted_run(runs) == live_recs(mg));
                }
                assert(self.table_runs() =~= Seq::<Seq<RecModel>>::empty());
                assert forall|q: Seq<u8>| self.visible(q) == pre.visible(q) by {
                    lemma_live_find(mg, q);
                    assert(seq_find(mg, q) == StorageEngine::tables_find(runs, q));
                    assert(models(live@).len() == 0);
                    assert(seq_find(live_recs(mg), q) == None::<Option<Seq<u8>>>) by {
                        assert(live_recs(mg).len() == 0);
                    }
                    assert(StorageEngine::tables_find(Seq::<Seq<RecModel>>::empty(), q)
                        == None::<Option<Seq<u8>>>);
                    assert(self.memtable == pre.memtable);
                }
            }
            return CompactEffect::Merged { output: None };
        }
        let t = build_table(&live);
        let out = copy_range(&t.bytes, 0, t.bytes.len());
        self.tables.clear();
        self.tables.push(t);
        proof {
            assert(self.tables@[0].recs@ == compacted_run(runs)) by {
                assert(self.tables@[0].recs@ == models(live@));
                assert(compacted_run(runs) == live_recs(mg));
            }
            lemma_live_values(mg);
            assert(self.table_runs() =~= seq![live_recs(mg)]);
            assert forall|q: Seq<u8>| self.visible(q) == pre.visible(q) by {
                lemma_live_find(mg, q);
                assert(seq_find(mg, q) == StorageEngine::tables_find(runs, q));
                assert(self.table_runs().last() == live_recs(mg));
                assert(self.table_runs().drop_last() =~= Seq::<Seq<RecModel>>::empty());
                assert(StorageEngine::tables_find(Seq::<Seq<RecModel>>::empty(), q)
                    == None::<Option<Seq<u8>>>);
                assert(self.memtable == pre.memtable);
            }
            assert(forall|x: int|
                0 <= x < self.tables@.len() ==> (#[trigger] self.tables@[x]).wf());
        }
        CompactEffect::Merged { output: Some(out) }
    }
}

/// Durability: an engine reopened from its own log and segments answers every
/// lookup as it did before the crash. The invariant makes the log's replay the
/// write buffer, so a state rebuilt from what was durable is observably the
/// state that was lost. A segment image is bounded by its 64-bit footer
/// offsets, the one machine limit this rests on.
pub proof fn lemma_durability(e: StorageEngine, r: StorageEngine)
    requires
        e.wf(),
        r.wf(),
        r.memtable.recs() == replay(e.wal@),
        r.table_runs() == e.table_runs(),
    ensures
        forall|q: Seq<u8>| r.visible(q) == e.visible(q),
{
}

/// Flush round trip: a segment whose run is the flushed write buffer holds
/// the buffer's records, in the buffer's ascending key order, and answers
/// every lookup exactly as the buffer did.
pub proof fn lemma_flush_round_trip(m: MemTable, t: SsTable)
    requires
        m.wf(),
        t.wf(),
        t.recs@ == m.recs(),
    ensures
        forall|q: Seq<u8>| seq_find(t.recs@, q) == seq_find(m.recs(), q),
        t.recs@.len() == m.recs().len(),
{
}

} // verus!
