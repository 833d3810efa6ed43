//! The write-ahead log: an append-only text log, one line per mutation,
//! `SET key,value` or `DELETE key,`. Replay on startup rebuilds the write
//! buffer; malformed lines are skipped silently so a partial trailing write
//! cannot prevent recovery.

use vstd::prelude::*;

use crate::lex::{
    lex_cmp, lex_lt, lemma_lex_irreflexive, lemma_lex_total, lemma_lex_transitive, KeyOrder,
};
use crate::memtable::{
    lemma_sorted_insert_find, lemma_sorted_insert_sorted, sorted_insert, MemTable,
};
use crate::record::{
    check_key, check_value, copy_range, find_byte, lemma_find_at, lemma_find_none, opt_bytes_view,
    seq_find, sorted_strict, valid_key, valid_value, RecModel, Record, COMMA, NEWLINE, SPACE,
};

verus! {

/// The log line acknowledging `set(key, value)`.
pub open spec fn set_line(k: Seq<u8>, v: Seq<u8>) -> Seq<u8> {
    op_set() + seq![SPACE] + k + seq![COMMA] + v + seq![NEWLINE]
}

/// The log line acknowledging `delete(key)`.
pub open spec fn delete_line(k: Seq<u8>) -> Seq<u8> {
    op_delete() + seq![SPACE] + k + seq![COMMA, NEWLINE]
}

/// The operation words, in ASCII.
pub open spec fn op_set() -> Seq<u8> {
    seq![83u8, 69u8, 84u8]
}

pub open spec fn op_delete() -> Seq<u8> {
    seq![68u8, 69u8, 76u8, 69u8, 84u8, 69u8]
}

/// Index of the first occurrence of `c`, or the length when absent.
pub open spec fn first_index(s: Seq<u8>, c: u8) -> int
    decreases s.len(),
{
    if s.len() == 0 {
        0
    } else if s[0] == c {
        0
    } else {
        1 + first_index(s.drop_first(), c)
    }
}

pub proof fn lemma_first_index(s: Seq<u8>, c: u8)
    ensures
        0 <= first_index(s, c) <= s.len(),
        first_index(s, c) < s.len() ==> s[first_index(s, c)] == c,
        forall|j: int| 0 <= j < first_index(s, c) ==> s[j] != c,
    decreases s.len(),
{
    if s.len() > 0 && s[0] != c {
        lemma_first_index(s.drop_first(), c);
        let fi = first_index(s, c);
        assert(fi == 1 + first_index(s.drop_first(), c));
        if fi < s.len() {
            assert(s[fi] == s.drop_first()[fi - 1]);
        }
        assert forall|j: int| 0 <= j < fi implies s[j] != c by {
            if j > 0 {
                assert(s[j] == s.drop_first()[j - 1]);
            }
        }
    }
}

/// Where the first occurrence is known, `first_index` returns it.
pub proof fn lemma_first_index_is(s: Seq<u8>, c: u8, i: int)
    requires
        0 <= i <= s.len(),
        forall|j: int| 0 <= j < i ==> s[j] != c,
        i < s.len() ==> s[i] == c,
    ensures
        first_index(s, c) == i,
    decreases i,
{
    if s.len() == 0 {
    } else if i == 0 {
        if s.len() > 0 && s[0] != c {
            lemma_first_index(s.drop_first(), c);
        }
    } else {
        assert(s[0] != c);
        assert(forall|j: int| 0 <= j < s.drop_first().len() ==> s.drop_first()[j] == s[j + 1]);
        lemma_first_index_is(s.drop_first(), c, i - 1);
    }
}

/// What one log line means: `None` for a malformed line, otherwise the
/// mutation it records. A line is well formed when it is the operation word,
/// a space, a valid key, a comma, and (for a set) a valid value.
pub open spec fn parse_wal_line(l: Seq<u8>) -> Option<RecModel> {
    let sp = first_index(l, SPACE);
    if sp == l.len() {
        None
    } else {
        let op = l.take(sp);
        let rest = l.skip(sp + 1);
        let cm = first_index(rest, COMMA);
        if cm == rest.len() {
            None
        } else {
            let key = rest.take(cm);
            let val = rest.skip(cm + 1);
            if op == op_set() && valid_key(key) && valid_value(val) {
                Some(RecModel { key, value: Some(val) })
            } else if op == op_delete() && valid_key(key) && val.len() == 0 {
                Some(RecModel { key, value: None })
            } else {
                None
            }
        }
    }
}

pub open spec fn opt_rec_seq(o: Option<RecModel>) -> Seq<RecModel> {
    match o {
        Some(r) => seq![r],
        None => Seq::empty(),
    }
}

/// The mutations a log records, in arrival order: the parse of each line,
/// including a trailing unterminated fragment, with malformed lines skipped.
pub open spec fn wal_recs(b: Seq<u8>) -> Seq<RecModel>
    decreases b.len(),
{
    if b.len() == 0 {
        Seq::empty()
    } else {
        let nl = first_index(b, NEWLINE);
        if 0 <= nl < b.len() {
            opt_rec_seq(parse_wal_line(b.take(nl))) + wal_recs(b.skip(nl + 1))
        } else {
            opt_rec_seq(parse_wal_line(b))
        }
    }
}

/// Mutations applied, oldest first, to a sorted run.
pub open spec fn apply_recs(m: Seq<RecModel>, muts: Seq<RecModel>) -> Seq<RecModel>
    decreases muts.len(),
{
    if muts.len() == 0 {
        m
    } else {
        apply_recs(sorted_insert(m, muts[0].key, muts[0].value), muts.drop_first())
    }
}

/// The write buffer a log rebuilds.
pub open spec fn replay(b: Seq<u8>) -> Seq<RecModel> {
    apply_recs(Seq::empty(), wal_recs(b))
}

/// A log that ends cleanly: empty, or newline-terminated.
pub open spec fn wal_terminated(b: Seq<u8>) -> bool {
    b.len() == 0 || b[b.len() - 1] == NEWLINE
}

pub proof fn lemma_apply_push(m: Seq<RecModel>, muts: Seq<RecModel>, x: RecModel)
    ensures
        apply_recs(m, muts.push(x)) == sorted_insert(apply_recs(m, muts), x.key, x.value),
    decreases muts.len(),
{
    if muts.len() == 0 {
        assert(muts.push(x)[0] == x);
        assert(muts.push(x).drop_first() =~= Seq::<RecModel>::empty());
        assert(apply_recs(sorted_insert(m, x.key, x.value), Seq::<RecModel>::empty())
            == sorted_insert(m, x.key, x.value));
    } else {
        assert(muts.push(x)[0] == muts[0]);
        assert(muts.push(x).drop_first() =~= muts.drop_first().push(x));
        lemma_apply_push(sorted_insert(m, muts[0].key, muts[0].value), muts.drop_first(), x);
    }
}

pub proof fn lemma_apply_concat(m: Seq<RecModel>, a: Seq<RecModel>, b: Seq<RecModel>)
    ensures
        apply_recs(m, a + b) == apply_recs(apply_recs(m, a), b),
    decreases a.len(),
{
    if a.len() == 0 {
        assert(a + b =~= b);
    } else {
        assert((a + b)[0] == a[0]);
        assert((a + b).drop_first() =~= a.drop_first() + b);
        lemma_apply_concat(sorted_insert(m, a[0].key, a[0].value), a.drop_first(), b);
    }
}

pub proof fn lemma_apply_sorted(m: Seq<RecModel>, muts: Seq<RecModel>)
    requires
        sorted_strict(m),
    ensures
        sorted_strict(apply_recs(m, muts)),
    decreases muts.len(),
{
    if muts.len() > 0 {
        lemma_sorted_insert_sorted(m, muts[0].key, muts[0].value);
        lemma_apply_sorted(sorted_insert(m, muts[0].key, muts[0].value), muts.drop_first());
    }
}

/// Every mutation a log records is engine-valid: malformed lines are skipped.
pub proof fn lemma_wal_recs_valid(b: Seq<u8>)
    ensures
        crate::record::recs_valid(wal_recs(b)),
    decreases b.len(),
{
    if b.len() > 0 {
        let nl = first_index(b, NEWLINE);
        lemma_first_index(b, NEWLINE);
        if 0 <= nl < b.len() {
            lemma_wal_recs_valid(b.skip(nl + 1));
            let head = opt_rec_seq(parse_wal_line(b.take(nl)));
            let rest = wal_recs(b.skip(nl + 1));
            assert forall|i: int| 0 <= i < wal_recs(b).len() implies crate::record::rec_valid(
                #[trigger] wal_recs(b)[i],
            ) by {
                if i < head.len() {
                    assert(wal_recs(b)[i] == head[i]);
                } else {
                    assert(wal_recs(b)[i] == rest[i - head.len()]);
                }
            }
        }
    }
}

/// Applying engine-valid mutations keeps the run engine-valid.
pub proof fn lemma_apply_valid(m: Seq<RecModel>, muts: Seq<RecModel>)
    requires
        crate::record::recs_valid(m),
        crate::record::recs_valid(muts),
    ensures
        crate::record::recs_valid(apply_recs(m, muts)),
    decreases muts.len(),
{
    if muts.len() > 0 {
        crate::memtable::lemma_sorted_insert_valid(m, muts[0].key, muts[0].value);
        assert(crate::record::recs_valid(muts.drop_first())) by {
            assert(forall|i: int|
                0 <= i < muts.drop_first().len() ==> muts.drop_first()[i] == muts[i + 1]);
        }
        lemma_apply_valid(sorted_insert(m, muts[0].key, muts[0].value), muts.drop_first());
    }
}

/// Appending to a cleanly terminated log appends its mutations.
pub proof fn lemma_wal_recs_concat(w: Seq<u8>, t: Seq<u8>)
    requires
        wal_terminated(w),
    ensures
        wal_recs(w + t) == wal_recs(w) + wal_recs(t),
    decreases w.len(),
{
    if w.len() == 0 {
        assert(w + t =~= t);
        assert(wal_recs(w) + wal_recs(t) =~= wal_recs(t));
    } else {
        lemma_first_index(w, NEWLINE);
        let nl = first_index(w, NEWLINE);
        assert(nl < w.len()) by {
            if nl == w.len() {
                assert(w[w.len() - 1] != NEWLINE);
            }
        }
        assert(forall|j: int| 0 <= j < nl ==> (w + t)[j] == w[j]);
        assert((w + t)[nl] == w[nl]);
        lemma_first_index_is(w + t, NEWLINE, nl);
        if t.len() == 0 {
            assert(w + t =~= w);
            assert(wal_recs(w) + wal_recs(t) =~= wal_recs(w));
        } else {
            assert((w + t).len() > nl);
            assert((w + t).take(nl) =~= w.take(nl));
            assert((w + t).skip(nl + 1) =~= w.skip(nl + 1) + t);
            assert(wal_terminated(w.skip(nl + 1))) by {
                if w.skip(nl + 1).len() > 0 {
                    assert(w.skip(nl + 1)[w.skip(nl + 1).len() - 1] == w[w.len() - 1]);
                }
            }
            lemma_wal_recs_concat(w.skip(nl + 1), t);
            assert(wal_recs(w + t) =~= wal_recs(w) + wal_recs(t));
        }
    }
}

/// A log is read the same after terminating a ragged final line.
pub proof fn lemma_wal_normalize(w: Seq<u8>)
    requires
        w.len() > 0,
        w[w.len() - 1] != NEWLINE,
    ensures
        wal_recs(w.push(NEWLINE)) == wal_recs(w),
    decreases w.len(),
{
    lemma_first_index(w, NEWLINE);
    let nl = first_index(w, NEWLINE);
    let wp = w.push(NEWLINE);
    if nl == w.len() {
        lemma_first_index_is(wp, NEWLINE, w.len() as int);
        assert(wp.take(w.len() as int) =~= w);
        assert(wp.skip(w.len() as int + 1) =~= Seq::<u8>::empty());
        assert(wal_recs(Seq::<u8>::empty()) =~= Seq::<RecModel>::empty());
        assert(wal_recs(wp) == opt_rec_seq(parse_wal_line(wp.take(w.len() as int))) + wal_recs(
            wp.skip(w.len() as int + 1),
        ));
        assert(opt_rec_seq(parse_wal_line(w)) + Seq::<RecModel>::empty() =~= opt_rec_seq(
            parse_wal_line(w),
        ));
        assert(wal_recs(wp) =~= opt_rec_seq(parse_wal_line(w)));
    } else {
        assert(forall|j: int| 0 <= j < nl ==> wp[j] == w[j]);
        assert(wp[nl] == w[nl]);
        lemma_first_index_is(wp, NEWLINE, nl);
        assert(wp.take(nl) =~= w.take(nl));
        assert(wp.skip(nl + 1) =~= w.skip(nl + 1).push(NEWLINE));
        assert(w.skip(nl + 1).len() > 0) by {
            if nl + 1 == w.len() {
                assert(w[w.len() - 1] == NEWLINE);
            }
        }
        assert(w.skip(nl + 1)[w.skip(nl + 1).len() - 1] == w[w.len() - 1]);
        lemma_wal_normalize(w.skip(nl + 1));
        assert(wal_recs(wp) =~= wal_recs(w));
    }
}

/// A set line records exactly its mutation.
pub proof fn lemma_parse_set_line(k: Seq<u8>, v: Seq<u8>)
    requires
        valid_key(k),
        valid_value(v),
    ensures
        wal_recs(set_line(k, v)) == seq![RecModel { key: k, value: Some(v) }],
        wal_terminated(set_line(k, v)),
{
    let l = set_line(k, v);
    let a = op_set() + seq![SPACE];
    let b = a + k;
    let c = b + seq![COMMA];
    let d = c + v;
    assert(l == d + seq![NEWLINE]);
    assert(l[l.len() - 1] == NEWLINE);
    assert forall|j: int| 0 <= j < l.len() - 1 implies l[j] != NEWLINE && (j < 3 ==> l[j]
        != SPACE) by {
        assert(l[j] == d[j]);
        if j < 3 {
            assert(d[j] == a[j]);
            assert(a[j] == op_set()[j]);
            assert(op_set()[0] == 83u8 && op_set()[1] == 69u8 && op_set()[2] == 84u8);
        } else if j == 3 {
            assert(d[j] == a[j]);
            assert(a[3] == SPACE);
        } else if j < 4 + k.len() {
            assert(d[j] == b[j]);
            assert(b[j] == k[j - 4]);
        } else if j == 4 + k.len() {
            assert(d[j] == c[j]);
            assert(c[j] == COMMA);
        } else {
            assert(d[j] == v[j - 5 - k.len()]);
        }
    }
    lemma_first_index_is(l, NEWLINE, l.len() - 1);
    let content = l.take(l.len() - 1);
    assert(content =~= d);
    assert(content[3] == a[3]);
    lemma_first_index_is(content, SPACE, 3);
    assert(content.take(3) =~= op_set());
    let rest = content.skip(4);
    assert(rest =~= k + seq![COMMA] + v);
    assert forall|j: int| 0 <= j < k.len() implies rest[j] != COMMA by {
        assert(rest[j] == (k + seq![COMMA])[j]);
        assert((k + seq![COMMA])[j] == k[j]);
    }
    assert(rest[k.len() as int] == (k + seq![COMMA])[k.len() as int]);
    assert(rest[k.len() as int] == COMMA);
    lemma_first_index_is(rest, COMMA, k.len() as int);
    assert(rest.take(k.len() as int) =~= k);
    assert(rest.skip(k.len() as int + 1) =~= v);
    assert(parse_wal_line(content) == Some(RecModel { key: k, value: Some(v) }));
    lemma_first_index(l, NEWLINE);
    assert(l.skip(l.len() as int) =~= Seq::<u8>::empty());
    assert(wal_recs(l.skip(l.len() as int)) =~= Seq::<RecModel>::empty());
    assert(wal_recs(l) =~= seq![RecModel { key: k, value: Some(v) }]);
}

/// A delete line records exactly its tombstone.
pub proof fn lemma_parse_delete_line(k: Seq<u8>)
    requires
        valid_key(k),
    ensures
        wal_recs(delete_line(k)) == seq![RecModel { key: k, value: None }],
        wal_terminated(delete_line(k)),
{
    let l = delete_line(k);
    let a = op_delete() + seq![SPACE];
    let b = a + k;
    assert(l == b + seq![COMMA, NEWLINE]);
    assert(l[l.len() - 1] == NEWLINE);
    assert forall|j: int| 0 <= j < l.len() - 1 implies l[j] != NEWLINE && (j < 6 ==> l[j]
        != SPACE) by {
        if j < 6 {
            assert(l[j] == a[j]);
            assert(a[j] == op_delete()[j]);
            assert(op_delete()[0] == 68u8 && op_delete()[1] == 69u8 && op_delete()[2] == 76u8
                && op_delete()[3] == 69u8 && op_delete()[4] == 84u8 && op_delete()[5] == 69u8);
        } else if j == 6 {
            assert(l[j] == a[j]);
            assert(a[6] == SPACE);
        } else if j < 7 + k.len() {
            assert(l[j] == b[j]);
            assert(b[j] == k[j - 7]);
        } else {
            assert(l[j] == COMMA);
        }
    }
    lemma_first_index_is(l, NEWLINE, l.len() - 1);
    let content = l.take(l.len() - 1);
    assert(content =~= b + seq![COMMA]);
    assert(content[6] == a[6]);
    lemma_first_index_is(content, SPACE, 6);
    assert(content.take(6) =~= op_delete());
    assert(op_delete() != op_set()) by {
        assert(op_delete().len() != op_set().len());
    }
    let rest = content.skip(7);
    assert(rest =~= k + seq![COMMA]);
    assert forall|j: int| 0 <= j < k.len() implies rest[j] != COMMA by {
        assert(rest[j] == k[j]);
    }
    assert(rest[k.len() as int] == COMMA);
    lemma_first_index_is(rest, COMMA, k.len() as int);
    assert(rest.take(k.len() as int) =~= k);
    assert(rest.skip(k.len() as int + 1) =~= Seq::<u8>::empty());
    assert(parse_wal_line(content) == Some(RecModel { key: k, value: None }));
    lemma_first_index(l, NEWLINE);
    assert(l.skip(l.len() as int) =~= Seq::<u8>::empty());
    assert(wal_recs(l.skip(l.len() as int)) =~= Seq::<RecModel>::empty());
    assert(wal_recs(l) =~= seq![RecModel { key: k, value: None }]);
}


/// The last mutation a sequence holds for a key, newest first.
pub open spec fn last_mut(muts: Seq<RecModel>, q: Seq<u8>) -> Option<Option<Seq<u8>>>
    decreases muts.len(),
{
    if muts.len() == 0 {
        None
    } else if muts.last().key == q {
        Some(muts.last().value)
    } else {
        last_mut(muts.drop_last(), q)
    }
}

/// What appending one record does to a lookup.
pub proof fn lemma_find_push(s: Seq<RecModel>, x: RecModel, q: Seq<u8>)
    ensures
        seq_find(s.push(x), q) == if seq_find(s, q) is Some {
            seq_find(s, q)
        } else if x.key == q {
            Some(x.value)
        } else {
            None::<Option<Seq<u8>>>
        },
    decreases s.len(),
{
    if s.len() == 0 {
        assert(s.push(x)[0] == x);
        assert(s.push(x).drop_first() =~= Seq::<RecModel>::empty());
        assert(seq_find(s, q) == None::<Option<Seq<u8>>>);
        assert(seq_find(Seq::<RecModel>::empty(), q) == None::<Option<Seq<u8>>>);
    } else {
        assert(s.push(x)[0] == s[0]);
        assert(s.push(x).drop_first() =~= s.drop_first().push(x));
        lemma_find_push(s.drop_first(), x, q);
    }
}

/// Last-writer-wins: after applying a mutation sequence, a lookup returns the
/// newest mutation for the key, or falls back to the starting run.
pub proof fn lemma_apply_find(m: Seq<RecModel>, muts: Seq<RecModel>, q: Seq<u8>)
    ensures
        seq_find(apply_recs(m, muts), q) == match last_mut(muts, q) {
            Some(v) => Some(v),
            None => seq_find(m, q),
        },
    decreases muts.len(),
{
    if muts.len() > 0 {
        let d = muts.drop_last();
        let x = muts.last();
        assert(muts =~= d.push(x));
        lemma_apply_find(m, d, q);
        lemma_apply_push(m, d, x);
        lemma_sorted_insert_find(apply_recs(m, d), x.key, x.value, q);
    }
}

/// The newest mutation over a concatenation: the right part wins when it has
/// one.
pub proof fn lemma_last_mut_concat(a: Seq<RecModel>, b: Seq<RecModel>, q: Seq<u8>)
    ensures
        last_mut(a + b, q) == if last_mut(b, q) is Some {
            last_mut(b, q)
        } else {
            last_mut(a, q)
        },
    decreases b.len(),
{
    if b.len() == 0 {
        assert(a + b =~= a);
    } else {
        assert((a + b).last() == b.last());
        assert((a + b).drop_last() =~= a + b.drop_last());
        lemma_last_mut_concat(a, b.drop_last(), q);
    }
}

/// In a strictly sorted run, newest-first and oldest-first lookups agree:
/// each key appears at most once.
pub proof fn lemma_last_mut_sorted(run: Seq<RecModel>, q: Seq<u8>)
    requires
        sorted_strict(run),
    ensures
        last_mut(run, q) == seq_find(run, q),
    decreases run.len(),
{
    if run.len() > 0 {
        let d = run.drop_last();
        let x = run.last();
        assert(run =~= d.push(x));
        assert(sorted_strict(d)) by {
            assert(forall|i: int| 0 <= i < d.len() ==> d[i] == run[i]);
        }
        if x.key == q {
            assert forall|i: int| 0 <= i < run.len() - 1 implies (#[trigger] run[i]).key != q by {
                assert(lex_lt(run[i].key, x.key));
                if run[i].key == q {
                    lemma_lex_irreflexive(q);
                }
            }
            lemma_find_at(run, q, run.len() - 1);
        } else {
            lemma_last_mut_sorted(d, q);
            lemma_find_push(d, x, q);
        }
    }
}

/// Strictly sorted runs that answer every lookup alike are the same run.
pub proof fn lemma_sorted_canonical(a: Seq<RecModel>, b: Seq<RecModel>)
    requires
        sorted_strict(a),
        sorted_strict(b),
        forall|q: Seq<u8>| seq_find(a, q) == seq_find(b, q),
    ensures
        a == b,
    decreases a.len(),
{
    if a.len() == 0 {
        if b.len() > 0 {
            assert(seq_find(b, b[0].key) == Some(b[0].value));
            assert(seq_find(a, b[0].key) == None::<Option<Seq<u8>>>);
        }
        assert(a =~= b);
    } else if b.len() == 0 {
        assert(seq_find(a, a[0].key) == Some(a[0].value));
        assert(seq_find(b, a[0].key) == None::<Option<Seq<u8>>>);
        assert(false);
    } else {
        let ka = a[0].key;
        let kb = b[0].key;
        if lex_lt(ka, kb) {
            assert(seq_find(a, ka) == Some(a[0].value));
            assert forall|i: int| 0 <= i < b.len() implies (#[trigger] b[i]).key != ka by {
                if i == 0 {
                    if kb == ka {
                        lemma_lex_irreflexive(ka);
                    }
                } else {
                    assert(lex_lt(kb, b[i].key));
                    lemma_lex_transitive(ka, kb, b[i].key);
                    if b[i].key == ka {
                        lemma_lex_irreflexive(ka);
                    }
                }
            }
            lemma_find_none(b, ka);
            assert(false);
        }
        if lex_lt(kb, ka) {
            assert(seq_find(b, kb) == Some(b[0].value));
            assert forall|i: int| 0 <= i < a.len() implies (#[trigger] a[i]).key != kb by {
                if i == 0 {
                    if ka == kb {
                        lemma_lex_irreflexive(kb);
                    }
                } else {
                    assert(lex_lt(ka, a[i].key));
                    lemma_lex_transitive(kb, ka, a[i].key);
                    if a[i].key == kb {
                        lemma_lex_irreflexive(kb);
                    }
                }
            }
            lemma_find_none(a, kb);
            assert(false);
        }
        lemma_lex_total(ka, kb);
        assert(ka == kb);
        assert(seq_find(a, ka) == Some(a[0].value));
        assert(seq_find(b, ka) == Some(b[0].value));
        assert(Some(a[0].value) == Some(b[0].value));
        assert(a[0].value == b[0].value);
        assert(a[0].key == b[0].key);
        assert(a[0] =~= b[0]);
        assert(sorted_strict(a.drop_first())) by {
            assert(forall|i: int|
                0 <= i < a.drop_first().len() ==> a.drop_first()[i] == a[i + 1]);
        }
        assert(sorted_strict(b.drop_first())) by {
            assert(forall|i: int|
                0 <= i < b.drop_first().len() ==> b.drop_first()[i] == b[i + 1]);
        }
        assert forall|q: Seq<u8>|
            seq_find(a.drop_first(), q) == seq_find(b.drop_first(), q) by {
            if q == ka {
                assert forall|i: int|
                    0 <= i < a.drop_first().len() implies (#[trigger] a.drop_first()[i]).key
                    != q by {
                    assert(a.drop_first()[i] == a[i + 1]);
                    assert(lex_lt(ka, a[i + 1].key));
                    if a[i + 1].key == ka {
                        lemma_lex_irreflexive(ka);
                    }
                }
                assert forall|i: int|
                    0 <= i < b.drop_first().len() implies (#[trigger] b.drop_first()[i]).key
                    != q by {
                    assert(b.drop_first()[i] == b[i + 1]);
                    assert(lex_lt(kb, b[i + 1].key));
                    if b[i + 1].key == kb {
                        lemma_lex_irreflexive(kb);
                    }
                }
                lemma_find_none(a.drop_first(), q);
                lemma_find_none(b.drop_first(), q);
            } else {
                assert(seq_find(a, q) == seq_find(a.drop_first(), q));
                assert(seq_find(b, q) == seq_find(b.drop_first(), q));
                assert(seq_find(a, q) == seq_find(b, q));
            }
        }
        lemma_sorted_canonical(a.drop_first(), b.drop_first());
        assert(a =~= b) by {
            assert(forall|i: int|
                1 <= i < a.len() ==> a[i] == a.drop_first()[i - 1] && b[i] == b.drop_first()[i
                    - 1]);
        }
    }
}

/// Idempotent replay: applying a log's mutations to the run its replay built
/// leaves that run unchanged, so replaying a log twice equals replaying it
/// once.
pub proof fn lemma_replay_idempotent(b: Seq<u8>)
    ensures
        apply_recs(replay(b), wal_recs(b)) == replay(b),
{
    let muts = wal_recs(b);
    let r = replay(b);
    lemma_apply_sorted(Seq::<RecModel>::empty(), muts);
    lemma_apply_sorted(r, muts);
    assert forall|q: Seq<u8>| seq_find(apply_recs(r, muts), q) == seq_find(r, q) by {
        lemma_apply_find(r, muts, q);
        lemma_apply_find(Seq::<RecModel>::empty(), muts, q);
        assert(seq_find(Seq::<RecModel>::empty(), q) == None::<Option<Seq<u8>>>);
    }
    lemma_sorted_canonical(apply_recs(r, muts), r);
}

/// The exact bytes to append for a set.
pub fn make_set_line(key: &Vec<u8>, value: &Vec<u8>) -> (r: Vec<u8>)
    ensures
        r@ == set_line(key@, value@),
{
    let mut r: Vec<u8> = Vec::new();
    r.push(83u8);
    r.push(69u8);
    r.push(84u8);
    r.push(SPACE);
    let mut kb = copy_range(key, 0, key.len());
    r.append(&mut kb);
    r.push(COMMA);
    let mut vb = copy_range(value, 0, value.len());
    r.append(&mut vb);
    r.push(NEWLINE);
    proof {
        assert(r@ =~= set_line(key@, value@));
    }
    r
}

/// The exact bytes to append for a delete.
pub fn make_delete_line(key: &Vec<u8>) -> (r: Vec<u8>)
    ensures
        r@ == delete_line(key@),
{
    let mut r: Vec<u8> = Vec::new();
    r.push(68u8);
    r.push(69u8);
    r.push(76u8);
    r.push(69u8);
    r.push(84u8);
    r.push(69u8);
    r.push(SPACE);
    let mut kb = copy_range(key, 0, key.len());
    r.append(&mut kb);
    r.push(COMMA);
    r.push(NEWLINE);
    proof {
        assert(r@ =~= delete_line(key@));
    }
    r
}

/// Parse one log line (without its newline) into the mutation it records.
fn parse_line_exec(line: &Vec<u8>) -> (r: Option<Record>)
    ensures
        match r {
            Some(rec) => parse_wal_line(line@) == Some(rec@),
            None => parse_wal_line(line@) == None::<RecModel>,
        },
{
    proof {
        lemma_first_index(line@, SPACE);
    }
    let n = line.len();
    let sp = match find_byte(line, 0, n, SPACE) {
        Some(i) => i,
        None => {
            proof {
                lemma_first_index_is(line@, SPACE, n as int);
            }
            return None;
        },
    };
    proof {
        lemma_first_index_is(line@, SPACE, sp as int);
    }
    let cm = match find_byte(line, sp + 1, n, COMMA) {
        Some(i) => i,
        None => {
            proof {
                let rest = line@.skip(sp as int + 1);
                assert(forall|j: int| 0 <= j < rest.len() ==> rest[j] == line@[sp + 1 + j]);
                lemma_first_index_is(rest, COMMA, rest.len() as int);
            }
            return None;
        },
    };
    proof {
        let rest = line@.skip(sp as int + 1);
        assert(forall|j: int| 0 <= j < rest.len() ==> rest[j] == line@[sp + 1 + j]);
        lemma_first_index_is(rest, COMMA, cm - sp - 1);
    }
    let op = copy_range(line, 0, sp);
    let key = copy_range(line, sp + 1, cm);
    let val = copy_range(line, cm + 1, n);
    proof {
        assert(op@ =~= line@.take(sp as int));
        assert(key@ =~= line@.skip(sp as int + 1).take(cm - sp - 1));
        assert(val@ =~= line@.skip(sp as int + 1).skip(cm - sp - 1 + 1)) by {
            assert(line@.skip(sp as int + 1).skip(cm - sp - 1 + 1) =~= line@.subrange(
                cm + 1,
                n as int,
            ));
        }
    }
    let mut opset: Vec<u8> = Vec::new();
    opset.push(83u8);
    opset.push(69u8);
    opset.push(84u8);
    let mut opdel: Vec<u8> = Vec::new();
    opdel.push(68u8);
    opdel.push(69u8);
    opdel.push(76u8);
    opdel.push(69u8);
    opdel.push(84u8);
    opdel.push(69u8);
    proof {
        assert(opset@ =~= op_set());
        assert(opdel@ =~= op_delete());
    }
    if matches!(lex_cmp(&op, &opset), KeyOrder::Equal) {
        if check_key(&key) && check_value(&val) {
            Some(Record { key, value: Some(val) })
        } else {
            None
        }
    } else if matches!(lex_cmp(&op, &opdel), KeyOrder::Equal) {
        if check_key(&key) && val.len() == 0 {
            proof {
                assert(val@.len() == 0);
            }
            Some(Record { key, value: None })
        } else {
            None
        }
    } else {
        None
    }
}

/// Rebuild the write buffer from the log's bytes, skipping malformed lines.
pub fn replay_wal(bytes: &Vec<u8>) -> (r: MemTable)
    ensures
        r.wf(),
        r.recs() == replay(bytes@),
{
    let mut mem = MemTable::new();
    let n = bytes.len();
    let mut pos: usize = 0;
    proof {
        assert(bytes@.skip(0) =~= bytes@);
    }
    while pos < n
        invariant
            pos <= n,
            n == bytes@.len(),
            mem.wf(),
            replay(bytes@) == apply_recs(mem.recs(), wal_recs(bytes@.skip(pos as int))),
        decreases n - pos,
    {
        let ghost tail = bytes@.skip(pos as int);
        proof {
            lemma_first_index(tail, NEWLINE);
        }
        let (lend, nextpos): (usize, usize) = match find_byte(bytes, pos, n, NEWLINE) {
            Some(nl) => (nl, nl + 1),
            None => (n, n),
        };
        proof {
            assert(forall|j: int| 0 <= j < tail.len() ==> tail[j] == bytes@[pos + j]);
            if lend < n {
                lemma_first_index_is(tail, NEWLINE, lend - pos);
            } else {
                lemma_first_index_is(tail, NEWLINE, tail.len() as int);
            }
        }
        let line = copy_range(bytes, pos, lend);
        proof {
            if lend < n {
                assert(line@ =~= tail.take(lend - pos));
            } else {
                assert(line@ =~= tail);
            }
        }
        let parsed = parse_line_exec(&line);
        let ghost m0 = mem.recs();
        let ghost muts = opt_rec_seq(parse_wal_line(line@));
        match parsed {
            Some(rec) => {
                let ghost recm = rec@;
                let Record { key, value } = rec;
                let ghost km = key@;
                let ghost vm = opt_bytes_view(value);
                proof {
                    assert(recm == RecModel { key: km, value: vm });
                }
                mem.insert(key, value);
                proof {
                    lemma_sorted_insert_sorted(m0, km, vm);
                    assert(muts =~= seq![RecModel { key: km, value: vm }]);
                    assert(apply_recs(m0, muts) == mem.recs()) by {
                        assert(muts[0] == RecModel { key: km, value: vm });
                        assert(muts.drop_first() =~= Seq::<RecModel>::empty());
                        assert(apply_recs(sorted_insert(m0, km, vm), Seq::<RecModel>::empty())
                            == sorted_insert(m0, km, vm));
                    }
                }
            },
            None => {
                proof {
                    assert(muts =~= Seq::<RecModel>::empty());
                    assert(apply_recs(m0, muts) == mem.recs());
                }
            },
        }
        proof {
            if lend < n {
                assert(tail.take(lend - pos) == line@);
                assert(tail.skip(lend - pos + 1) =~= bytes@.skip(nextpos as int));
                assert(wal_recs(tail) == muts + wal_recs(bytes@.skip(nextpos as int)));
                lemma_apply_concat(m0, muts, wal_recs(bytes@.skip(nextpos as int)));
            } else {
                assert(wal_recs(tail) == muts);
                assert(bytes@.skip(nextpos as int) =~= Seq::<u8>::empty());
                assert(wal_recs(bytes@.skip(nextpos as int)) =~= Seq::<RecModel>::empty());
                lemma_apply_concat(m0, muts, Seq::<RecModel>::empty());
                assert(muts + Seq::<RecModel>::empty() =~= muts);
            }
        }
        pos = nextpos;
    }
    proof {
        assert(bytes@.skip(n as int) =~= Seq::<u8>::empty());
        assert(wal_recs(bytes@.skip(n as int)) =~= Seq::<RecModel>::empty());
        assert(apply_recs(mem.recs(), Seq::<RecModel>::empty()) == mem.recs());
    }
    mem
}

} // verus!
