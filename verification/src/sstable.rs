//! Immutable sorted segments. One segment is a single byte image:
//!
//! ```text
//! [ data block   : sorted record lines, "key,value\n" or the tombstone mark ]
//! [ bloom blob   : hash count, then the filter's bitmap                     ]
//! [ sparse index : lines "key,offset\n", one for every stride-th record     ]
//! [ footer, 16 B : bloom offset, then index offset, both 8-byte little end. ]
//! ```
//!
//! The writer streams records in ascending key order; the reader seeks the
//! footer, consults the Bloom filter, finds the greatest indexed key at or
//! below the target, and scans record lines from that offset.

use vstd::prelude::*;

use crate::bloom::{
    add_probes, bloom_fold, bloom_has, lemma_add_probes_len, lemma_bloom_fold_has,
    lemma_bloom_fold_len, lemma_bloom_fold_push, zero_bitmap, BloomFilter,
};
use crate::lex::{lex_cmp, lex_le, lex_lt, lemma_lex_irreflexive, lemma_lex_transitive, KeyOrder};
use crate::numeral::{dec_bytes, lemma_dec_inj, lemma_dec_props, parse_dec, u64_to_dec, DIGIT_NINE};
use crate::record::{
    copy_range, data_bytes, data_offset, find_byte, lemma_data_bytes_concat, lemma_data_bytes_push,
    lemma_data_inj, lemma_data_nonempty, lemma_data_offset_bounds, lemma_data_offset_step,
    lemma_find_at, lemma_find_index, lemma_find_none, lemma_line_frame, lemma_line_len_min,
    lemma_tombstone_clean, line_bytes, line_len, line_ok, lines_ok, models, opt_bytes_view,
    parse_records, seq_find, sorted_strict, tombstone_bytes, tombstone_mark, value_text, RecModel,
    Record, COMMA, NEWLINE,
};
use vstd::bytes::{
    lemma_auto_spec_u32_to_from_le_bytes, lemma_auto_spec_u64_to_from_le_bytes,
    spec_u32_to_le_bytes, spec_u64_to_le_bytes, u32_from_le_bytes, u32_to_le_bytes,
    u64_from_le_bytes, u64_to_le_bytes,
};
use vstd::slice::slice_subrange;

verus! {

/// Every stride-th record gets a sparse-index entry.
pub const SPARSE_INDEX_STRIDE: usize = 10;

/// Bloom filter sizing, fixed for every segment: bits and hash count chosen
/// for ten thousand expected keys at a one-percent false-positive target.
pub const BLOOM_NUM_BITS: usize = 95851;

pub const BLOOM_NUM_HASHES: u32 = 7;

pub open spec fn bitmap_len() -> nat {
    ((BLOOM_NUM_BITS + 7) / 8) as nat
}

pub open spec fn keys_of(rs: Seq<RecModel>) -> Seq<Seq<u8>> {
    rs.map_values(|r: RecModel| r.key)
}

/// The serialized Bloom filter: its hash count, then its bitmap with every
/// key of the run added.
pub open spec fn bloom_blob(rs: Seq<RecModel>) -> Seq<u8> {
    spec_u32_to_le_bytes(BLOOM_NUM_HASHES) + bloom_fold(
        zero_bitmap(bitmap_len()),
        keys_of(rs),
        BLOOM_NUM_HASHES,
    )
}

/// How many records of a run of length `n` are indexed.
pub open spec fn index_count(n: nat) -> nat {
    (n + SPARSE_INDEX_STRIDE - 1) as nat / SPARSE_INDEX_STRIDE as nat
}

/// The sparse index as records: the stride-th keys, each valued with the
/// decimal numeral of its record's byte offset in the data block.
pub open spec fn index_recs(rs: Seq<RecModel>) -> Seq<RecModel> {
    Seq::new(
        index_count(rs.len()),
        |i: int|
            RecModel {
                key: rs[i * SPARSE_INDEX_STRIDE as int].key,
                value: Some(
                    dec_bytes(data_offset(rs, i * SPARSE_INDEX_STRIDE as int) as nat),
                ),
            },
    )
}

/// The whole segment image for a run of records.
pub open spec fn table_bytes(rs: Seq<RecModel>) -> Seq<u8> {
    let data = data_bytes(rs);
    let blob = bloom_blob(rs);
    let index = data_bytes(index_recs(rs));
    data + blob + index + spec_u64_to_le_bytes(data.len() as u64) + spec_u64_to_le_bytes(
        (data.len() + blob.len()) as u64,
    )
}

/// Indexed positions stay inside the run.
pub proof fn lemma_index_position(n: nat, i: int)
    requires
        0 <= i < index_count(n),
    ensures
        i * (SPARSE_INDEX_STRIDE as int) < n,
{
    assert(i <= index_count(n) - 1);
    assert(i * 10 <= (index_count(n) - 1) * 10) by (nonlinear_arith)
        requires
            i <= index_count(n) - 1;
    assert((index_count(n) - 1) * 10 < n) by (nonlinear_arith)
        requires
            index_count(n) == (n + 9) / 10;
}

/// How the index grows as the run grows by one record.
pub proof fn lemma_index_count_step(n: nat)
    ensures
        n % SPARSE_INDEX_STRIDE as nat == 0 ==> index_count(n + 1) == index_count(n) + 1
            && index_count(n) == n / SPARSE_INDEX_STRIDE as nat,
        n % SPARSE_INDEX_STRIDE as nat != 0 ==> index_count(n + 1) == index_count(n),
{
    assert(n % 10 == 0 ==> (n + 10) / 10 == n / 10 + 1 && (n + 9) / 10 == n / 10)
        by (nonlinear_arith);
    assert(n % 10 != 0 ==> (n + 10) / 10 == (n + 9) / 10) by (nonlinear_arith);
}

/// The index of a well-framed sorted run is itself well framed and sorted.
pub proof fn lemma_index_recs_ok(rs: Seq<RecModel>)
    requires
        lines_ok(rs),
        sorted_strict(rs),
    ensures
        lines_ok(index_recs(rs)),
        sorted_strict(index_recs(rs)),
{
    let ix = index_recs(rs);
    lemma_tombstone_clean();
    assert forall|i: int| 0 <= i < ix.len() implies line_ok(#[trigger] ix[i]) by {
        lemma_index_position(rs.len(), i);
        let j = i * (SPARSE_INDEX_STRIDE as int);
        assert(line_ok(rs[j]));
        let d = dec_bytes(data_offset(rs, j) as nat);
        lemma_dec_props(data_offset(rs, j) as nat);
        assert(d != tombstone_mark()) by {
            if d == tombstone_mark() {
                assert(d[0] <= DIGIT_NINE);
                assert(tombstone_mark()[0] > DIGIT_NINE);
            }
        }
    }
    assert forall|i: int, j: int| 0 <= i < j < ix.len() implies lex_lt(
        (#[trigger] ix[i]).key,
        (#[trigger] ix[j]).key,
    ) by {
        lemma_index_position(rs.len(), i);
        lemma_index_position(rs.len(), j);
        let a = i * (SPARSE_INDEX_STRIDE as int);
        let b = j * (SPARSE_INDEX_STRIDE as int);
        assert(i * 10 < j * 10) by (nonlinear_arith)
            requires
                i < j;
        assert(lex_lt(rs[a].key, rs[b].key));
    }
}

/// Append one record's line to a byte buffer.
fn append_record_line(out: &mut Vec<u8>, rec: &Record)
    ensures
        final(out)@ == old(out)@ + line_bytes(rec@),
{
    let mut kb = copy_range(&rec.key, 0, rec.key.len());
    out.append(&mut kb);
    out.push(COMMA);
    match &rec.value {
        Some(v) => {
            let mut vb = copy_range(v, 0, v.len());
            out.append(&mut vb);
        },
        None => {
            let mut tb = tombstone_bytes();
            out.append(&mut tb);
        },
    }
    out.push(NEWLINE);
    proof {
        assert(out@ =~= old(out)@ + line_bytes(rec@));
    }
}

/// One immutable segment: its byte image, and (as a ghost) the run it encodes.
pub struct SsTable {
    pub bytes: Vec<u8>,
    pub recs: Ghost<Seq<RecModel>>,
}

impl SsTable {
    pub open spec fn wf(self) -> bool {
        &&& sorted_strict(self.recs@)
        &&& lines_ok(self.recs@)
        &&& self.recs@.len() > 0
        &&& self.bytes@ == table_bytes(self.recs@)
    }
}

/// Where each block of a segment image sits.
pub proof fn lemma_table_layout(rs: Seq<RecModel>, bytes: Seq<u8>)
    requires
        bytes == table_bytes(rs),
        rs.len() > 0,
    ensures
        data_bytes(rs).len() >= 2,
        bloom_blob(rs).len() == 4 + bitmap_len(),
        bytes.len() == data_bytes(rs).len() + bloom_blob(rs).len() + data_bytes(index_recs(rs)).len()
            + 16,
        bytes.subrange(0, data_bytes(rs).len() as int) == data_bytes(rs),
        bytes.subrange(
            data_bytes(rs).len() as int,
            data_bytes(rs).len() as int + 4,
        ) == spec_u32_to_le_bytes(BLOOM_NUM_HASHES),
        bytes.subrange(
            data_bytes(rs).len() as int + 4,
            data_bytes(rs).len() as int + bloom_blob(rs).len() as int,
        ) == bloom_fold(zero_bitmap(bitmap_len()), keys_of(rs), BLOOM_NUM_HASHES),
        bytes.subrange(
            data_bytes(rs).len() as int + bloom_blob(rs).len() as int,
            bytes.len() - 16,
        ) == data_bytes(index_recs(rs)),
        bytes.subrange(bytes.len() - 16, bytes.len() - 8) == spec_u64_to_le_bytes(
            data_bytes(rs).len() as u64,
        ),
        bytes.subrange(bytes.len() - 8, bytes.len() as int) == spec_u64_to_le_bytes(
            (data_bytes(rs).len() + bloom_blob(rs).len()) as u64,
        ),
{
    lemma_auto_spec_u64_to_from_le_bytes();
    lemma_auto_spec_u32_to_from_le_bytes();
    lemma_bloom_fold_len(zero_bitmap(bitmap_len()), keys_of(rs), BLOOM_NUM_HASHES);
    lemma_data_nonempty(rs);
    let data = data_bytes(rs);
    let blob = bloom_blob(rs);
    let index = data_bytes(index_recs(rs));
    let f1 = spec_u64_to_le_bytes(data.len() as u64);
    let f2 = spec_u64_to_le_bytes((data.len() + blob.len()) as u64);
    assert(blob.len() == 4 + bitmap_len());
    assert(bytes.len() == data.len() + blob.len() + index.len() + 16);
    assert(bytes.subrange(0, data.len() as int) =~= data);
    assert(bytes.subrange(data.len() as int, data.len() as int + 4) =~= spec_u32_to_le_bytes(
        BLOOM_NUM_HASHES,
    ));
    assert(bytes.subrange(data.len() as int + 4, data.len() as int + blob.len() as int)
        =~= bloom_fold(zero_bitmap(bitmap_len()), keys_of(rs), BLOOM_NUM_HASHES));
    assert(bytes.subrange(data.len() as int + blob.len() as int, bytes.len() - 16) =~= index);
    assert(bytes.subrange(bytes.len() - 16, bytes.len() - 8) =~= f1);
    assert(bytes.subrange(bytes.len() - 8, bytes.len() as int) =~= f2);
}

impl SsTable {
    /// Whether the segment's Bloom filter reports the key as possibly present.
    /// A negative answer is exact: the key is not in the segment, and the
    /// reader never scans the data block.
    pub fn may_contain(&self, key: &Vec<u8>) -> (r: bool)
        requires
            self.wf(),
        ensures
            r == bloom_has(
                bloom_fold(zero_bitmap(bitmap_len()), keys_of(self.recs@), BLOOM_NUM_HASHES),
                BLOOM_NUM_HASHES,
                key@,
            ),
            !r ==> seq_find(self.recs@, key@) == None::<Option<Seq<u8>>>,
    {
        let ghost rs = self.recs@;
        proof {
            lemma_table_layout(rs, self.bytes@);
            lemma_auto_spec_u64_to_from_le_bytes();
            lemma_auto_spec_u32_to_from_le_bytes();
        }
        let n = self.bytes.len();
        let f1 = slice_subrange(self.bytes.as_slice(), n - 16, n - 8);
        let bo64 = u64_from_le_bytes(f1);
        let f2 = slice_subrange(self.bytes.as_slice(), n - 8, n);
        let io64 = u64_from_le_bytes(f2);
        proof {
            assert(bo64 == data_bytes(rs).len());
            assert(io64 == data_bytes(rs).len() + bloom_blob(rs).len());
        }
        let bo = bo64 as usize;
        let io = io64 as usize;
        let nh_sl = slice_subrange(self.bytes.as_slice(), bo, bo + 4);
        let nh = u32_from_le_bytes(nh_sl);
        let bitmap = copy_range(&self.bytes, bo + 4, io);
        proof {
            assert(nh == BLOOM_NUM_HASHES);
            assert(bitmap@ == bloom_fold(zero_bitmap(bitmap_len()), keys_of(rs), BLOOM_NUM_HASHES));
            lemma_bloom_fold_len(zero_bitmap(bitmap_len()), keys_of(rs), BLOOM_NUM_HASHES);
        }
        let bloom = BloomFilter { bitmap, num_hashes: nh };
        let r = bloom.contains(key);
        proof {
            if !r && seq_find(rs, key@) is Some {
                lemma_find_index(rs, key@);
                let i = choose|i: int| 0 <= i < rs.len() && (#[trigger] rs[i]).key == key@;
                lemma_bloom_fold_has(zero_bitmap(bitmap_len()), keys_of(rs), BLOOM_NUM_HASHES, i);
                assert(keys_of(rs)[i] == rs[i].key);
                assert(false);
            }
        }
        r
    }

    /// Every record of the segment, in ascending key order.
    pub fn read_records(&self) -> (r: Vec<Record>)
        requires
            self.wf(),
        ensures
            models(r@) == self.recs@,
    {
        let ghost rs = self.recs@;
        proof {
            lemma_table_layout(rs, self.bytes@);
            lemma_auto_spec_u64_to_from_le_bytes();
        }
        let n = self.bytes.len();
        let f1 = slice_subrange(self.bytes.as_slice(), n - 16, n - 8);
        let bo64 = u64_from_le_bytes(f1);
        let bo = bo64 as usize;
        match parse_records(&self.bytes, 0, bo) {
            Some(v) => {
                proof {
                    lemma_data_inj(models(v@), rs);
                }
                v
            },
            None => {
                proof {
                    assert(self.bytes@.subrange(0, bo as int) == data_bytes(rs));
                    assert(false);
                }
                Vec::new()
            },
        }
    }

    /// Point lookup: consult the Bloom filter, find the greatest indexed key
    /// at or below the target, and scan record lines from that offset until
    /// the target or a greater key. `Some(None)` is a tombstone; `None` means
    /// the segment holds no record for the key.
    #[verifier::rlimit(100)]
    pub fn search(&self, key: &Vec<u8>) -> (r: Option<Option<Vec<u8>>>)
        requires
            self.wf(),
        ensures
            match r {
                None => seq_find(self.recs@, key@) == None::<Option<Seq<u8>>>,
                Some(v) => seq_find(self.recs@, key@) == Some(opt_bytes_view(v)),
            },
    {
        let ghost rs = self.recs@;
        proof {
            lemma_table_layout(rs, self.bytes@);
            lemma_auto_spec_u64_to_from_le_bytes();
        }
        if !self.may_contain(key) {
            return None;
        }
        let n = self.bytes.len();
        let f1 = slice_subrange(self.bytes.as_slice(), n - 16, n - 8);
        let bo64 = u64_from_le_bytes(f1);
        let f2 = slice_subrange(self.bytes.as_slice(), n - 8, n);
        let io64 = u64_from_le_bytes(f2);
        let bo = bo64 as usize;
        let io = io64 as usize;
        let pairs = match parse_records(&self.bytes, io, n - 16) {
            Some(p) => p,
            None => {
                proof {
                    lemma_index_recs_ok(rs);
                    assert(self.bytes@.subrange(io as int, n - 16) == data_bytes(index_recs(rs)));
                    assert(false);
                }
                return None;
            },
        };
        proof {
            lemma_index_recs_ok(rs);
            assert(self.bytes@.subrange(io as int, n - 16) == data_bytes(index_recs(rs)));
            lemma_data_inj(models(pairs@), index_recs(rs));
        }
        let mut start: usize = 0;
        let ghost mut j0: int = 0;
        proof {
            assert(rs.take(0) =~= Seq::<RecModel>::empty());
        }
        let np = pairs.len();
        let mut m: usize = 0;
        while m < np
            invariant
                self.wf(),
                rs == self.recs@,
                models(pairs@) == index_recs(rs),
                np == pairs@.len(),
                m <= np,
                bo as int == data_bytes(rs).len(),
                0 <= j0 < rs.len() || (j0 == 0 && rs.len() > 0),
                start as int == data_offset(rs, j0),
                j0 == 0 || (j0 < rs.len() && lex_le(rs[j0].key, key@)),
            decreases np - m,
        {
            let is_gt = matches!(lex_cmp(&pairs[m].key, key), KeyOrder::Greater);
            if is_gt {
                break ;
            }
            proof {
                assert(index_recs(rs)[m as int] == pairs@[m as int]@);
                lemma_index_position(rs.len(), m as int);
                lemma_data_offset_bounds(rs, (m as int) * (SPARSE_INDEX_STRIDE as int));
            }
            let ghost joff = (m as int) * (SPARSE_INDEX_STRIDE as int);
            let off64 = match &pairs[m].value {
                Some(v) => {
                    match parse_dec(v) {
                        Some(o) => o,
                        None => {
                            proof {
                                assert(v@ == dec_bytes(data_offset(rs, joff) as nat));
                                assert(data_offset(rs, joff) <= bo as int);
                                let ou: u64 = (data_offset(rs, joff) as nat) as u64;
                                assert(ou as nat == data_offset(rs, joff) as nat);
                                assert(v@ == dec_bytes(ou as nat));
                                assert(false);
                            }
                            return None;
                        },
                    }
                },
                None => {
                    proof {
                        assert(pairs@[m as int]@.value == index_recs(rs)[m as int].value);
                        assert(false);
                    }
                    return None;
                },
            };
            proof {
                assert(pairs@[m as int]@.value == Some(dec_bytes(data_offset(rs, joff) as nat)));
                lemma_dec_inj(off64 as nat, data_offset(rs, joff) as nat);
                assert(off64 as int == data_offset(rs, joff));
                assert(off64 <= bo as u64);
            }
            start = off64 as usize;
            proof {
                j0 = joff;
            }
            m += 1;
        }
        proof {
            assert forall|i: int| 0 <= i < j0 implies (#[trigger] rs[i]).key != key@ by {
                if rs[i].key == key@ {
                    assert(lex_lt(rs[i].key, rs[j0].key));
                    if rs[j0].key == key@ {
                        lemma_lex_irreflexive(key@);
                    } else {
                        lemma_lex_transitive(key@, rs[j0].key, key@);
                        lemma_lex_irreflexive(key@);
                    }
                }
            }
            lemma_data_offset_bounds(rs, j0);
        }
        let mut cur = start;
        let ghost mut j: int = j0;
        while cur < bo
            invariant
                self.wf(),
                rs == self.recs@,
                n == self.bytes@.len(),
                bo as int == data_bytes(rs).len(),
                bo <= n,
                0 <= j <= rs.len(),
                cur as int == data_offset(rs, j),
                cur <= bo,
                forall|i: int| 0 <= i < j ==> (#[trigger] rs[i]).key != key@,
            decreases bo - cur,
        {
            proof {
                lemma_table_layout(rs, self.bytes@);
                lemma_data_offset_bounds(rs, j);
                if j == rs.len() {
                    assert(rs.take(j) =~= rs);
                    assert(cur == bo);
                    assert(false);
                }
                lemma_data_bytes_concat(rs, j);
                assert(lines_ok(rs.skip(j))) by {
                    assert(forall|x: int| 0 <= x < rs.skip(j).len() ==> rs.skip(j)[x] == rs[j + x]);
                }
                lemma_line_frame(rs.skip(j));
                lemma_data_offset_step(rs, j);
                assert(rs.skip(j)[0] == rs[j]);
                assert forall|x: int| 0 <= x < bo - cur implies self.bytes@[cur + x]
                    == data_bytes(rs.skip(j))[x] by {
                    assert(self.bytes@[cur + x] == data_bytes(rs)[cur + x]);
                    assert(data_bytes(rs)[cur + x] == data_bytes(rs.skip(j))[x]);
                }
            }
            let ghost ll = line_len(rs[j]);
            let ghost kl = rs[j].key.len() as int;
            let nl = match find_byte(&self.bytes, cur, bo, NEWLINE) {
                Some(x) => x,
                None => {
                    proof {
                        assert(self.bytes@[cur + ll - 1] == NEWLINE);
                        assert(false);
                    }
                    return None;
                },
            };
            proof {
                assert(nl as int == cur + ll - 1) by {
                    if (nl as int) < cur + ll - 1 {
                        assert(data_bytes(rs.skip(j))[nl - cur] != NEWLINE);
                        assert(self.bytes@[nl as int] != NEWLINE);
                    } else if (nl as int) > cur + ll - 1 {
                        assert(self.bytes@[cur + ll - 1] == NEWLINE);
                    }
                }
            }
            let comma = match find_byte(&self.bytes, cur, nl, COMMA) {
                Some(x) => x,
                None => {
                    proof {
                        lemma_line_len_min(rs[j]);
                        assert(self.bytes@[cur + kl] == COMMA);
                        assert(false);
                    }
                    return None;
                },
            };
            proof {
                assert(comma as int == cur + kl) by {
                    if (comma as int) < cur + kl {
                        assert(data_bytes(rs.skip(j))[comma - cur] != COMMA);
                        assert(self.bytes@[comma as int] != COMMA);
                    } else if (comma as int) > cur + kl {
                        lemma_line_len_min(rs[j]);
                        assert(self.bytes@[cur + kl] == COMMA);
                    }
                }
            }
            let k = copy_range(&self.bytes, cur, comma);
            proof {
                assert(k@ =~= rs[j].key) by {
                    assert(forall|x: int|
                        0 <= x < kl ==> self.bytes@[cur + x] == data_bytes(rs.skip(j))[x]
                            && data_bytes(rs.skip(j))[x] == rs[j].key[x]);
                }
            }
            match lex_cmp(&k, key) {
                KeyOrder::Greater => {
                    proof {
                        assert forall|i: int| 0 <= i < rs.len() implies (#[trigger] rs[i]).key
                            != key@ by {
                            if i >= j && rs[i].key == key@ {
                                if i == j {
                                    lemma_lex_irreflexive(key@);
                                } else {
                                    assert(lex_lt(rs[j].key, rs[i].key));
                                    lemma_lex_transitive(key@, rs[j].key, rs[i].key);
                                    lemma_lex_irreflexive(key@);
                                }
                            }
                        }
                        lemma_find_none(rs, key@);
                    }
                    return None;
                },
                KeyOrder::Equal => {
                    let raw = copy_range(&self.bytes, comma + 1, nl);
                    proof {
                        assert(raw@ =~= value_text(rs[j].value)) by {
                            assert(forall|x: int|
                                0 <= x < ll - kl - 2 ==> self.bytes@[cur + kl + 1 + x]
                                    == data_bytes(rs.skip(j))[kl + 1 + x] && data_bytes(
                                    rs.skip(j),
                                )[kl + 1 + x] == value_text(rs[j].value)[x]);
                            lemma_line_len_min(rs[j]);
                        }
                        lemma_find_at(rs, key@, j);
                    }
                    let tomb = tombstone_bytes();
                    if matches!(lex_cmp(&raw, &tomb), KeyOrder::Equal) {
                        proof {
                            match rs[j].value {
                                Some(v) => {
                                    assert(v == tombstone_mark());
                                    assert(false);
                                },
                                None => {},
                            }
                        }
                        return Some(None);
                    } else {
                        proof {
                            match rs[j].value {
                                Some(_) => {},
                                None => {
                                    assert(value_text(rs[j].value) == tombstone_mark());
                                    assert(false);
                                },
                            }
                        }
                        return Some(Some(raw));
                    }
                },
                KeyOrder::Less => {
                    cur = nl + 1;
                    proof {
                        let jp = j;
                        j = j + 1;
                        assert(cur as int == data_offset(rs, j));
                        assert forall|i: int| 0 <= i < j implies (#[trigger] rs[i]).key != key@ by {
                            if i == jp && rs[i].key == key@ {
                                lemma_lex_irreflexive(key@);
                            }
                        }
                    }
                },
            }
        }
        proof {
            lemma_data_offset_bounds(rs, j);
            if j < rs.len() {
                assert(false);
            }
            lemma_find_none(rs, key@);
        }
        None
    }

    /// Open a segment from its byte image. Succeeds exactly when the bytes are
    /// the image of some non-empty, sorted, well-framed run: the data block is
    /// parsed, the segment is rebuilt from it, and the rebuild must reproduce
    /// the input byte for byte.
    #[verifier::rlimit(100)]
    pub fn from_bytes(bytes: Vec<u8>) -> (r: Option<SsTable>)
        ensures
            r is Some ==> r.unwrap().wf() && r.unwrap().bytes@ == bytes@,
            (exists|rs: Seq<RecModel>|
                sorted_strict(rs) && lines_ok(rs) && rs.len() > 0 && bytes@ == table_bytes(rs))
                ==> r is Some,
    {
        let ghost has_wit = exists|rs: Seq<RecModel>|
            sorted_strict(rs) && lines_ok(rs) && rs.len() > 0 && bytes@ == table_bytes(rs);
        let ghost wit = choose|rs: Seq<RecModel>|
            sorted_strict(rs) && lines_ok(rs) && rs.len() > 0 && bytes@ == table_bytes(rs);
        proof {
            if has_wit {
                lemma_table_layout(wit, bytes@);
                lemma_auto_spec_u64_to_from_le_bytes();
            }
        }
        let n = bytes.len();
        if n < 16 {
            proof {
                if has_wit {
                    assert(false);
                }
            }
            return None;
        }
        let f1 = slice_subrange(bytes.as_slice(), n - 16, n - 8);
        let bo64 = u64_from_le_bytes(f1);
        if bo64 > (n - 16) as u64 {
            proof {
                if has_wit {
                    assert(bo64 == data_bytes(wit).len());
                    assert(false);
                }
            }
            return None;
        }
        let bo = bo64 as usize;
        let parsed = match parse_records(&bytes, 0, bo) {
            Some(p) => p,
            None => {
                proof {
                    if has_wit {
                        assert(bytes@.subrange(0, bo as int) == data_bytes(wit));
                        assert(false);
                    }
                }
                return None;
            },
        };
        if parsed.is_empty() {
            proof {
                if has_wit {
                    assert(bytes@.subrange(0, bo as int) == data_bytes(wit));
                    lemma_data_inj(models(parsed@), wit);
                    assert(false);
                }
            }
            return None;
        }
        let rebuilt = build_table(&parsed);
        if matches!(lex_cmp(&rebuilt.bytes, &bytes), KeyOrder::Equal) {
            let t = SsTable { bytes, recs: Ghost(models(parsed@)) };
            proof {
                assert(t.bytes@ == table_bytes(models(parsed@)));
            }
            Some(t)
        } else {
            proof {
                if has_wit {
                    assert(bytes@.subrange(0, bo as int) == data_bytes(wit));
                    lemma_data_inj(models(parsed@), wit);
                    assert(rebuilt.bytes@ == bytes@);
                    assert(false);
                }
            }
            None
        }
    }
}

/// Write a segment for a non-empty sorted run: stream the records in key
/// order, adding each key to the Bloom filter and indexing every stride-th
/// record, then append the filter, the sparse index, and the footer.
#[verifier::rlimit(80)]
pub fn build_table(entries: &Vec<Record>) -> (t: SsTable)
    requires
        sorted_strict(models(entries@)),
        lines_ok(models(entries@)),
        entries@.len() > 0,
    ensures
        t.wf(),
        t.recs@ == models(entries@),
        t.bytes@ == table_bytes(models(entries@)),
{
    let ghost rs = models(entries@);
    let ghost zeros = zero_bitmap(bitmap_len());
    let mut data: Vec<u8> = Vec::new();
    let mut bloom = BloomFilter::with_params(BLOOM_NUM_BITS, BLOOM_NUM_HASHES);
    let mut index_entries: Vec<Record> = Vec::new();
    let n = entries.len();
    let mut i: usize = 0;
    proof {
        assert(rs.take(0) =~= Seq::<RecModel>::empty());
        assert(data@ =~= data_bytes(rs.take(0)));
        assert(keys_of(rs.take(0)) =~= Seq::<Seq<u8>>::empty());
        assert(bloom.bitmap@ == bloom_fold(zeros, keys_of(rs.take(0)), BLOOM_NUM_HASHES));
        assert(index_count(0) == 0);
        assert(models(index_entries@) =~= index_recs(rs).take(index_count(0) as int));
    }
    while i < n
        invariant
            i <= n,
            n == entries@.len(),
            rs == models(entries@),
            rs.len() == n,
            sorted_strict(rs),
            lines_ok(rs),
            data@ == data_bytes(rs.take(i as int)),
            bloom.wf(),
            bloom.num_hashes == BLOOM_NUM_HASHES,
            bloom.bitmap@.len() == bitmap_len(),
            bloom.bitmap@ == bloom_fold(zeros, keys_of(rs.take(i as int)), BLOOM_NUM_HASHES),
            models(index_entries@) == index_recs(rs).take(index_count(i as nat) as int),
            index_count(i as nat) <= index_recs(rs).len(),
        decreases n - i,
    {
        let ghost pre_keys = keys_of(rs.take(i as int));
        bloom.add(&entries[i].key);
        proof {
            assert(rs[i as int] == entries@[i as int]@);
            assert(keys_of(rs.take(i as int + 1)) =~= pre_keys.push(rs[i as int].key));
            lemma_bloom_fold_push(zeros, pre_keys, rs[i as int].key, BLOOM_NUM_HASHES);
            lemma_add_probes_len(bloom_fold(zeros, pre_keys, BLOOM_NUM_HASHES), rs[i as int].key, BLOOM_NUM_HASHES);
            lemma_index_count_step(i as nat);
        }
        if i % SPARSE_INDEX_STRIDE == 0 {
            let off = data.len() as u64;
            let kb = copy_range(&entries[i].key, 0, entries[i].key.len());
            let ov = u64_to_dec(off);
            let ghost c = index_count(i as nat) as int;
            proof {
                assert(index_count(i as nat + 1) == index_count(i as nat) + 1);
                assert(c * SPARSE_INDEX_STRIDE as int == i as int) by (nonlinear_arith)
                    requires
                        c == i as int / 10,
                        i as int % 10 == 0;
                assert(c < index_recs(rs).len()) by {
                    lemma_index_count_step(rs.len());
                    assert(index_count(i as nat) < index_count(i as nat + 1));
                    assert(index_count(i as nat + 1) <= index_count(rs.len())) by (nonlinear_arith)
                        requires
                            i as nat + 1 <= rs.len();
                };
                lemma_index_position(rs.len(), c);
                assert(data@.len() == data_offset(rs, i as int));
                assert(index_recs(rs)[c] == RecModel {
                    key: rs[i as int].key,
                    value: Some(dec_bytes(data_offset(rs, i as int) as nat)),
                });
            }
            index_entries.push(Record { key: kb, value: Some(ov) });
            proof {
                assert(kb@ =~= entries@[i as int].key@);
                assert(index_entries@[index_entries@.len() - 1]@ =~= index_recs(rs)[c]);
                assert(models(index_entries@) =~= index_recs(rs).take(c).push(index_recs(rs)[c]));
                assert(index_recs(rs).take(c + 1) =~= index_recs(rs).take(c).push(
                    index_recs(rs)[c],
                ));
            }
        } else {
            proof {
                assert(index_count(i as nat + 1) == index_count(i as nat));
            }
        }
        append_record_line(&mut data, &entries[i]);
        i += 1;
        proof {
            assert(rs.take(i as int) =~= rs.take(i as int - 1).push(rs[i as int - 1]));
            lemma_data_bytes_push(rs.take(i as int - 1), rs[i as int - 1]);
            assert(index_count(i as nat) <= index_recs(rs).len()) by {
                assert(index_count(i as nat) <= index_count(rs.len())) by (nonlinear_arith)
                    requires
                        i as nat <= rs.len();
            }
        }
    }
    proof {
        assert(rs.take(n as int) =~= rs);
        assert(index_count(n as nat) == index_recs(rs).len());
        assert(index_recs(rs).take(index_recs(rs).len() as int) =~= index_recs(rs));
    }
    let ghost datav = data@;
    let data_len = data.len();
    let mut out = data;
    let mut nhb = u32_to_le_bytes(BLOOM_NUM_HASHES);
    proof {
        lemma_auto_spec_u32_to_from_le_bytes();
    }
    out.append(&mut nhb);
    let mut bm = bloom.bitmap;
    out.append(&mut bm);
    let index_offset = out.len();
    let ghost blobv = bloom_blob(rs);
    proof {
        assert(out@ =~= datav + blobv);
    }
    let mut m: usize = 0;
    let im = index_entries.len();
    while m < im
        invariant
            m <= im,
            im == index_entries@.len(),
            models(index_entries@) == index_recs(rs),
            out@ == datav + blobv + data_bytes(index_recs(rs).take(m as int)),
        decreases im - m,
    {
        proof {
            assert(index_recs(rs)[m as int] == index_entries@[m as int]@);
        }
        append_record_line(&mut out, &index_entries[m]);
        m += 1;
        proof {
            assert(index_recs(rs).take(m as int) =~= index_recs(rs).take(m as int - 1).push(
                index_recs(rs)[m as int - 1],
            ));
            lemma_data_bytes_push(index_recs(rs).take(m as int - 1), index_recs(rs)[m as int - 1]);
            assert(out@ =~= datav + blobv + data_bytes(index_recs(rs).take(m as int)));
        }
    }
    proof {
        assert(index_recs(rs).take(im as int) =~= index_recs(rs));
        lemma_auto_spec_u64_to_from_le_bytes();
    }
    let mut f1 = u64_to_le_bytes(data_len as u64);
    out.append(&mut f1);
    let mut f2 = u64_to_le_bytes(index_offset as u64);
    out.append(&mut f2);
    let t = SsTable { bytes: out, recs: Ghost(rs) };
    proof {
        assert(datav.len() == data_len);
        assert(index_offset == data_len + blobv.len());
        assert(t.bytes@ =~= table_bytes(rs));
    }
    t
}

} // verus!
