//! Records and the line-oriented byte framing shared by the write-ahead log
//! and the data and index blocks of a segment file.
//!
//! One record is one line, `key`, a comma, the value text, and a newline. A
//! tombstone is written as the reserved value literal. The framing lemmas here
//! show that a concatenation of such lines determines the records uniquely,
//! which is what the segment reader's correctness rests on.

use vstd::prelude::*;

use crate::lex::{lex_cmp, lex_lt, KeyOrder};

verus! {

/// ASCII bytes the framing cares about.
pub const COMMA: u8 = 44;

pub const NEWLINE: u8 = 10;

pub const SPACE: u8 = 32;

pub const TAB: u8 = 9;

pub const CARRIAGE_RETURN: u8 = 13;

/// One logical mutation: a key bound to a value, or to a tombstone (`None`)
/// that masks every older record for the same key.
pub struct Record {
    pub key: Vec<u8>,
    pub value: Option<Vec<u8>>,
}

/// The mathematical shadow of a `Record`.
#[verifier::ext_equal]
pub struct RecModel {
    pub key: Seq<u8>,
    pub value: Option<Seq<u8>>,
}

impl View for Record {
    type V = RecModel;

    open spec fn view(&self) -> RecModel {
        RecModel {
            key: self.key@,
            value: match self.value {
                Some(v) => Some(v@),
                None => None,
            },
        }
    }
}

pub open spec fn models(s: Seq<Record>) -> Seq<RecModel> {
    s.map_values(|r: Record| r@)
}

/// The reserved value literal that marks a deletion on disk.
pub open spec fn tombstone_mark() -> Seq<u8> {
    seq![84u8, 79u8, 77u8, 66u8, 83u8, 84u8, 79u8, 78u8, 69u8]
}

pub proof fn lemma_tombstone_clean()
    ensures
        tombstone_mark().len() == 9,
        forall|i: int|
            0 <= i < tombstone_mark().len() ==> tombstone_mark()[i] != COMMA
                && tombstone_mark()[i] != NEWLINE && tombstone_mark()[i] > 57,
{
    assert forall|i: int|
        0 <= i < tombstone_mark().len() implies tombstone_mark()[i] != COMMA
        && tombstone_mark()[i] != NEWLINE && tombstone_mark()[i] > 57 by {
        if i == 0 {
            assert(tombstone_mark()[0] == 84);
        } else if i == 1 {
            assert(tombstone_mark()[1] == 79);
        } else if i == 2 {
            assert(tombstone_mark()[2] == 77);
        } else if i == 3 {
            assert(tombstone_mark()[3] == 66);
        } else if i == 4 {
            assert(tombstone_mark()[4] == 83);
        } else if i == 5 {
            assert(tombstone_mark()[5] == 84);
        } else if i == 6 {
            assert(tombstone_mark()[6] == 79);
        } else if i == 7 {
            assert(tombstone_mark()[7] == 78);
        } else {
            assert(tombstone_mark()[8] == 69);
        }
    }
}

/// The exact bytes of the reserved tombstone literal.
pub fn tombstone_bytes() -> (r: Vec<u8>)
    ensures
        r@ == tombstone_mark(),
{
    let mut r: Vec<u8> = Vec::new();
    r.push(84);
    r.push(79);
    r.push(77);
    r.push(66);
    r.push(83);
    r.push(84);
    r.push(79);
    r.push(78);
    r.push(69);
    proof {
        assert(r@ =~= tombstone_mark());
    }
    r
}

/// A key accepted at the engine boundary: non-empty, and free of whitespace,
/// comma and newline, so that both log and segment lines frame it exactly.
pub open spec fn valid_key(k: Seq<u8>) -> bool {
    k.len() > 0 && forall|i: int|
        0 <= i < k.len() ==> #[trigger] k[i] != SPACE && k[i] != TAB && k[i] != NEWLINE && k[i]
            != CARRIAGE_RETURN && k[i] != COMMA
}

/// A value accepted at the engine boundary: free of comma and newline, and not
/// the reserved tombstone literal.
pub open spec fn valid_value(v: Seq<u8>) -> bool {
    v != tombstone_mark() && forall|i: int|
        0 <= i < v.len() ==> #[trigger] v[i] != COMMA && v[i] != NEWLINE
}

/// What the line framing itself needs of a record: no comma or newline in the
/// key, no newline in the value, and a value never spelled like the tombstone
/// literal. Weaker than `valid_key`/`valid_value`, so segment files written by
/// other tools still parse as long as their lines are framed this way.
pub open spec fn line_ok(r: RecModel) -> bool {
    &&& forall|i: int| 0 <= i < r.key.len() ==> #[trigger] r.key[i] != COMMA && r.key[i] != NEWLINE
    &&& match r.value {
        Some(v) => v != tombstone_mark() && forall|i: int|
            0 <= i < v.len() ==> #[trigger] v[i] != NEWLINE,
        None => true,
    }
}

pub open spec fn lines_ok(rs: Seq<RecModel>) -> bool {
    forall|i: int| 0 <= i < rs.len() ==> line_ok(#[trigger] rs[i])
}

/// Keys strictly ascending: each key appears exactly once, in order.
pub open spec fn sorted_strict(rs: Seq<RecModel>) -> bool {
    forall|i: int, j: int|
        0 <= i < j < rs.len() ==> lex_lt(#[trigger] rs[i].key, #[trigger] rs[j].key)
}

/// The text a value occupies on its line.
pub open spec fn value_text(v: Option<Seq<u8>>) -> Seq<u8> {
    match v {
        Some(b) => b,
        None => tombstone_mark(),
    }
}

/// One record line: `key ',' value-text '\n'`.
pub open spec fn line_bytes(r: RecModel) -> Seq<u8> {
    r.key + seq![COMMA] + value_text(r.value) + seq![NEWLINE]
}

pub open spec fn line_len(r: RecModel) -> int {
    line_bytes(r).len() as int
}

/// The data block: the records' lines, one after the other.
pub open spec fn data_bytes(rs: Seq<RecModel>) -> Seq<u8>
    decreases rs.len(),
{
    if rs.len() == 0 {
        Seq::empty()
    } else {
        line_bytes(rs[0]) + data_bytes(rs.drop_first())
    }
}

/// Byte offset of record `j` within the data block.
pub open spec fn data_offset(rs: Seq<RecModel>, j: int) -> int {
    data_bytes(rs.take(j)).len() as int
}

pub proof fn lemma_line_len_min(r: RecModel)
    ensures
        line_len(r) == r.key.len() + value_text(r.value).len() + 2,
        line_len(r) >= 2,
{
}

pub proof fn lemma_data_bytes_push(rs: Seq<RecModel>, x: RecModel)
    ensures
        data_bytes(rs.push(x)) == data_bytes(rs) + line_bytes(x),
    decreases rs.len(),
{
    if rs.len() == 0 {
        assert(rs.push(x).drop_first() =~= Seq::<RecModel>::empty());
        assert(rs.push(x)[0] == x);
        assert(data_bytes(Seq::<RecModel>::empty()) =~= Seq::<u8>::empty());
        assert(data_bytes(rs.push(x).drop_first()) == Seq::<u8>::empty());
        assert(data_bytes(rs.push(x)) =~= data_bytes(rs) + line_bytes(x));
    } else {
        lemma_data_bytes_push(rs.drop_first(), x);
        assert(rs.push(x).drop_first() =~= rs.drop_first().push(x));
        assert(rs.push(x)[0] == rs[0]);
        assert(data_bytes(rs.push(x)) =~= data_bytes(rs) + line_bytes(x));
    }
}

pub proof fn lemma_data_bytes_concat(rs: Seq<RecModel>, j: int)
    requires
        0 <= j <= rs.len(),
    ensures
        data_bytes(rs) == data_bytes(rs.take(j)) + data_bytes(rs.skip(j)),
    decreases j,
{
    if j == 0 {
        assert(rs.take(0) =~= Seq::<RecModel>::empty());
        assert(rs.skip(0) =~= rs);
        assert(data_bytes(rs) =~= data_bytes(rs.take(0)) + data_bytes(rs.skip(0)));
    } else {
        lemma_data_bytes_concat(rs.drop_first(), j - 1);
        assert(rs.take(j).drop_first() =~= rs.drop_first().take(j - 1));
        assert(rs.skip(j) =~= rs.drop_first().skip(j - 1));
        assert(rs.take(j)[0] == rs[0]);
        assert(rs.take(j).len() == j);
        assert(data_bytes(rs.take(j)) == line_bytes(rs[0]) + data_bytes(rs.drop_first().take(j - 1)));
        assert(data_bytes(rs) =~= data_bytes(rs.take(j)) + data_bytes(rs.skip(j)));
    }
}

pub proof fn lemma_data_offset_step(rs: Seq<RecModel>, j: int)
    requires
        0 <= j < rs.len(),
    ensures
        data_offset(rs, j + 1) == data_offset(rs, j) + line_len(rs[j]),
{
    assert(rs.take(j + 1) =~= rs.take(j).push(rs[j]));
    lemma_data_bytes_push(rs.take(j), rs[j]);
}

/// Where each piece of a record sits on its line.
pub proof fn lemma_line_index(r: RecModel)
    ensures
        forall|i: int| 0 <= i < r.key.len() ==> #[trigger] line_bytes(r)[i] == r.key[i],
        line_bytes(r)[r.key.len() as int] == COMMA,
        forall|i: int|
            0 <= i < value_text(r.value).len() ==> #[trigger] line_bytes(r)[r.key.len() + 1 + i]
                == value_text(r.value)[i],
        line_bytes(r)[line_len(r) - 1] == NEWLINE,
{
    let ab = r.key + seq![COMMA];
    let abc = ab + value_text(r.value);
    let abcd = abc + seq![NEWLINE];
    assert(line_bytes(r) == abcd);
    assert forall|i: int| 0 <= i < r.key.len() implies #[trigger] line_bytes(r)[i] == r.key[i] by {
        assert(abcd[i] == abc[i]);
        assert(abc[i] == ab[i]);
        assert(ab[i] == r.key[i]);
    }
    assert(abcd[r.key.len() as int] == abc[r.key.len() as int]);
    assert(abc[r.key.len() as int] == ab[r.key.len() as int]);
    assert(ab[r.key.len() as int] == COMMA);
    assert forall|i: int|
        0 <= i < value_text(r.value).len() implies #[trigger] line_bytes(r)[r.key.len() + 1 + i]
        == value_text(r.value)[i] by {
        assert(abcd[r.key.len() + 1 + i] == abc[r.key.len() + 1 + i]);
        assert(abc[r.key.len() + 1 + i] == value_text(r.value)[i]);
    }
    assert(abcd[line_len(r) - 1] == NEWLINE);
}

pub proof fn lemma_value_text_clean(r: RecModel)
    requires
        line_ok(r),
    ensures
        forall|i: int| 0 <= i < value_text(r.value).len() ==> #[trigger] value_text(r.value)[i] != NEWLINE,
{
    match r.value {
        Some(_) => {
        },
        None => {
            lemma_tombstone_clean();
        },
    }
}

/// Framing of the first line of a non-empty data block: where its newline and
/// comma sit, and which subranges hold the key and the value text.
pub proof fn lemma_line_frame(rs: Seq<RecModel>)
    requires
        rs.len() > 0,
        line_ok(rs[0]),
    ensures
        data_bytes(rs).len() == line_len(rs[0]) + data_bytes(rs.drop_first()).len(),
        forall|i: int| 0 <= i < line_len(rs[0]) - 1 ==> #[trigger] data_bytes(rs)[i] != NEWLINE,
        data_bytes(rs)[line_len(rs[0]) - 1] == NEWLINE,
        forall|i: int| 0 <= i < rs[0].key.len() ==> #[trigger] data_bytes(rs)[i] != COMMA,
        data_bytes(rs)[rs[0].key.len() as int] == COMMA,
        data_bytes(rs).subrange(0, rs[0].key.len() as int) == rs[0].key,
        data_bytes(rs).subrange(rs[0].key.len() as int + 1, line_len(rs[0]) - 1) == value_text(
            rs[0].value,
        ),
        data_bytes(rs).skip(line_len(rs[0])) == data_bytes(rs.drop_first()),
        data_bytes(rs).subrange(0, line_len(rs[0])) == line_bytes(rs[0]),
{
    let r = rs[0];
    let s = data_bytes(rs);
    let kl = r.key.len() as int;
    let ll = line_len(r);
    lemma_value_text_clean(r);
    lemma_line_len_min(r);
    assert(s == line_bytes(r) + data_bytes(rs.drop_first()));
    assert forall|i: int| 0 <= i < ll - 1 implies #[trigger] s[i] != NEWLINE by {
        if i < kl {
            assert(s[i] == r.key[i]);
        } else if i == kl {
            assert(s[i] == COMMA);
        } else {
            assert(s[i] == value_text(r.value)[i - kl - 1]);
        }
    }
    assert(s[ll - 1] == NEWLINE);
    assert forall|i: int| 0 <= i < kl implies #[trigger] s[i] != COMMA by {
        assert(s[i] == r.key[i]);
    }
    assert(s[kl] == COMMA);
    assert(s.subrange(0, kl) =~= r.key);
    assert(s.subrange(kl + 1, ll - 1) =~= value_text(r.value));
    assert(s.skip(ll) =~= data_bytes(rs.drop_first()));
    assert(s.subrange(0, ll) =~= line_bytes(r));
}

/// A line determines its record and its remainder: the framing is injective.
pub proof fn lemma_line_inj(x: RecModel, y: RecModel, u: Seq<u8>, w: Seq<u8>)
    requires
        line_ok(x),
        line_ok(y),
        line_bytes(x) + u == line_bytes(y) + w,
    ensures
        x == y,
        u == w,
{
    let s = line_bytes(x) + u;
    let lx = line_len(x);
    let ly = line_len(y);
    lemma_line_frame(seq![x]);
    lemma_line_frame(seq![y]);
    assert(seq![x][0] == x);
    assert(seq![y][0] == y);
    assert(seq![x].drop_first() =~= Seq::<RecModel>::empty());
    assert(seq![y].drop_first() =~= Seq::<RecModel>::empty());
    assert(data_bytes(seq![x]) =~= line_bytes(x));
    assert(data_bytes(seq![y]) =~= line_bytes(y));
    // the first newline pins the line length on both readings
    assert forall|i: int| 0 <= i < lx - 1 implies #[trigger] s[i] != NEWLINE by {
        assert(s[i] == line_bytes(x)[i]);
        assert(line_bytes(x)[i] == data_bytes(seq![x])[i]);
    }
    assert(s[lx - 1] == line_bytes(x)[lx - 1]);
    assert(s[lx - 1] == NEWLINE);
    assert forall|i: int| 0 <= i < ly - 1 implies #[trigger] s[i] != NEWLINE by {
        assert(s[i] == (line_bytes(y) + w)[i]);
        assert(s[i] == line_bytes(y)[i]);
        assert(line_bytes(y)[i] == data_bytes(seq![y])[i]);
    }
    assert(s[ly - 1] == (line_bytes(y) + w)[ly - 1]);
    assert(s[ly - 1] == NEWLINE);
    if lx < ly {
        assert(s[lx - 1] != NEWLINE);
        assert(false);
    }
    if ly < lx {
        assert(s[ly - 1] != NEWLINE);
        assert(false);
    }
    // the first comma pins the key length on both readings
    let kx = x.key.len() as int;
    let ky = y.key.len() as int;
    assert forall|i: int| 0 <= i < kx implies #[trigger] s[i] != COMMA by {
        assert(s[i] == line_bytes(x)[i]);
        assert(line_bytes(x)[i] == data_bytes(seq![x])[i]);
    }
    assert(s[kx] == line_bytes(x)[kx]);
    assert(s[kx] == COMMA);
    assert forall|i: int| 0 <= i < ky implies #[trigger] s[i] != COMMA by {
        assert(s[i] == line_bytes(y)[i]);
        assert(line_bytes(y)[i] == data_bytes(seq![y])[i]);
    }
    assert(s[ky] == line_bytes(y)[ky]);
    assert(s[ky] == COMMA);
    if kx < ky {
        assert(s[kx] != COMMA);
        assert(false);
    }
    if ky < kx {
        assert(s[ky] != COMMA);
        assert(false);
    }
    lemma_line_index(x);
    lemma_line_index(y);
    assert forall|i: int| 0 <= i < kx implies x.key[i] == y.key[i] by {
        assert(line_bytes(x)[i] == x.key[i]);
        assert(line_bytes(y)[i] == y.key[i]);
        assert(s[i] == line_bytes(x)[i]);
        assert((line_bytes(y) + w)[i] == line_bytes(y)[i]);
    }
    assert(x.key =~= y.key);
    let vx = value_text(x.value);
    let vy = value_text(y.value);
    assert(vx.len() == vy.len()) by {
        lemma_line_len_min(x);
        lemma_line_len_min(y);
    }
    assert forall|i: int| 0 <= i < vx.len() implies vx[i] == vy[i] by {
        assert(line_bytes(x)[kx + 1 + i] == vx[i]);
        assert(line_bytes(y)[kx + 1 + i] == vy[i]);
        assert(s[kx + 1 + i] == line_bytes(x)[kx + 1 + i]);
        assert((line_bytes(y) + w)[kx + 1 + i] == line_bytes(y)[kx + 1 + i]);
    }
    assert(vx =~= vy);
    match (x.value, y.value) {
        (Some(_), Some(_)) => {
        },
        (Some(v), None) => {
            assert(v == tombstone_mark());
            assert(false);
        },
        (None, Some(v)) => {
            assert(v == tombstone_mark());
            assert(false);
        },
        (None, None) => {
        },
    }
    assert(x == y);
    assert(u =~= w) by {
        assert(s.len() == (line_bytes(y) + w).len());
        assert(forall|i: int|
            0 <= i < u.len() ==> u[i] == s[lx + i] && w[i] == (line_bytes(y) + w)[lx + i]);
    }
}

/// A parse of a line concatenation is unique: whoever encodes a prefix of the
/// same bytes encodes the same records, and the remainder is what follows.
pub proof fn lemma_data_prefix(a: Seq<RecModel>, b: Seq<RecModel>, t: Seq<u8>)
    requires
        lines_ok(a),
        lines_ok(b),
        data_bytes(a) + t == data_bytes(b),
    ensures
        a.len() <= b.len(),
        a == b.take(a.len() as int),
        t == data_bytes(b.skip(a.len() as int)),
    decreases a.len(),
{
    if a.len() == 0 {
        assert(data_bytes(a) + t =~= t);
        assert(a =~= b.take(0));
        assert(b.skip(0) =~= b);
    } else {
        assert(line_ok(a[0]));
        lemma_line_len_min(a[0]);
        if b.len() == 0 {
            assert(data_bytes(b).len() == 0);
            assert(data_bytes(a).len() >= 2) by {
                assert(data_bytes(a) == line_bytes(a[0]) + data_bytes(a.drop_first()));
            }
            assert((data_bytes(a) + t).len() >= 2);
            assert(false);
        }
        assert(line_ok(b[0]));
        assert(data_bytes(a) == line_bytes(a[0]) + data_bytes(a.drop_first()));
        assert(data_bytes(b) == line_bytes(b[0]) + data_bytes(b.drop_first()));
        assert(line_bytes(a[0]) + (data_bytes(a.drop_first()) + t) =~= line_bytes(b[0])
            + data_bytes(b.drop_first()));
        lemma_line_inj(
            a[0],
            b[0],
            data_bytes(a.drop_first()) + t,
            data_bytes(b.drop_first()),
        );
        assert(lines_ok(a.drop_first())) by {
            assert(forall|i: int| 0 <= i < a.drop_first().len() ==> a.drop_first()[i] == a[i + 1]);
        }
        assert(lines_ok(b.drop_first())) by {
            assert(forall|i: int| 0 <= i < b.drop_first().len() ==> b.drop_first()[i] == b[i + 1]);
        }
        lemma_data_prefix(a.drop_first(), b.drop_first(), t);
        assert(a =~= b.take(a.len() as int)) by {
            assert(a[0] == b[0]);
            assert(a.drop_first() == b.drop_first().take(a.len() - 1));
            assert(forall|i: int|
                1 <= i < a.len() ==> a[i] == a.drop_first()[i - 1] && b.take(a.len() as int)[i]
                    == b.drop_first().take(a.len() - 1)[i - 1]);
        }
        assert(b.skip(a.len() as int) =~= b.drop_first().skip(a.len() - 1));
    }
}

pub proof fn lemma_data_nonempty(rs: Seq<RecModel>)
    requires
        rs.len() > 0,
    ensures
        data_bytes(rs).len() >= 2,
{
    lemma_line_len_min(rs[0]);
    assert(data_bytes(rs) == line_bytes(rs[0]) + data_bytes(rs.drop_first()));
}

/// Equal data blocks hold equal records.
pub proof fn lemma_data_inj(a: Seq<RecModel>, b: Seq<RecModel>)
    requires
        lines_ok(a),
        lines_ok(b),
        data_bytes(a) == data_bytes(b),
    ensures
        a == b,
{
    assert(data_bytes(a) + Seq::<u8>::empty() =~= data_bytes(b));
    lemma_data_prefix(a, b, Seq::<u8>::empty());
    if a.len() < b.len() {
        assert(b.skip(a.len() as int).len() > 0);
        lemma_data_nonempty(b.skip(a.len() as int));
        assert(false);
    }
    assert(b.take(a.len() as int) =~= b);
}

/// Record offsets stay within the data block; interior records start strictly
/// inside it.
pub proof fn lemma_data_offset_bounds(rs: Seq<RecModel>, j: int)
    requires
        0 <= j <= rs.len(),
    ensures
        0 <= data_offset(rs, j) <= data_bytes(rs).len(),
        j < rs.len() ==> data_offset(rs, j) + line_len(rs[j]) <= data_bytes(rs).len()
            && data_offset(rs, j) < data_bytes(rs).len(),
{
    lemma_data_bytes_concat(rs, j);
    if j < rs.len() {
        lemma_data_offset_step(rs, j);
        lemma_data_bytes_concat(rs, j + 1);
        lemma_line_len_min(rs[j]);
    }
}

/// A record the engine accepts: a valid key bound to a valid value or to a
/// tombstone.
pub open spec fn rec_valid(r: RecModel) -> bool {
    valid_key(r.key) && match r.value {
        Some(v) => valid_value(v),
        None => true,
    }
}

pub open spec fn recs_valid(rs: Seq<RecModel>) -> bool {
    forall|i: int| 0 <= i < rs.len() ==> rec_valid(#[trigger] rs[i])
}

/// Engine-accepted records are well framed.
pub proof fn lemma_valid_lines_ok(rs: Seq<RecModel>)
    requires
        recs_valid(rs),
    ensures
        lines_ok(rs),
{
    lemma_tombstone_clean();
    assert forall|i: int| 0 <= i < rs.len() implies line_ok(#[trigger] rs[i]) by {
        assert(rec_valid(rs[i]));
    }
}

/// The view of an optional byte string.
pub open spec fn opt_bytes_view(v: Option<Vec<u8>>) -> Option<Seq<u8>> {
    match v {
        Some(b) => Some(b@),
        None => None,
    }
}

/// The record a sequence holds for a key: `None` when the key is absent,
/// `Some(None)` for a tombstone, `Some(Some(v))` for a live value.
pub open spec fn seq_find(rs: Seq<RecModel>, k: Seq<u8>) -> Option<Option<Seq<u8>>>
    decreases rs.len(),
{
    if rs.len() == 0 {
        None
    } else if rs[0].key == k {
        Some(rs[0].value)
    } else {
        seq_find(rs.drop_first(), k)
    }
}

pub proof fn lemma_find_none(rs: Seq<RecModel>, k: Seq<u8>)
    requires
        forall|i: int| 0 <= i < rs.len() ==> (#[trigger] rs[i].key) != k,
    ensures
        seq_find(rs, k) == None::<Option<Seq<u8>>>,
    decreases rs.len(),
{
    if rs.len() > 0 {
        assert(forall|i: int| 0 <= i < rs.drop_first().len() ==> rs.drop_first()[i] == rs[i + 1]);
        lemma_find_none(rs.drop_first(), k);
    }
}

/// Scanning past entries whose keys differ from `k` does not change the find.
pub proof fn lemma_find_skip(rs: Seq<RecModel>, k: Seq<u8>, j: int)
    requires
        0 <= j <= rs.len(),
        forall|i: int| 0 <= i < j ==> (#[trigger] rs[i].key) != k,
    ensures
        seq_find(rs, k) == seq_find(rs.skip(j), k),
    decreases j,
{
    if j > 0 {
        assert(rs.len() > 0);
        assert(rs[0].key != k);
        assert(forall|i: int|
            0 <= i < rs.drop_first().len() ==> rs.drop_first()[i] == rs[i + 1]);
        lemma_find_skip(rs.drop_first(), k, j - 1);
        assert(rs.drop_first().skip(j - 1) =~= rs.skip(j));
    } else {
        assert(rs.skip(0) =~= rs);
    }
}

/// In a run scanned up to a hit, the find is that hit.
pub proof fn lemma_find_at(rs: Seq<RecModel>, k: Seq<u8>, j: int)
    requires
        0 <= j < rs.len(),
        forall|i: int| 0 <= i < j ==> (#[trigger] rs[i].key) != k,
        rs[j].key == k,
    ensures
        seq_find(rs, k) == Some(rs[j].value),
{
    lemma_find_skip(rs, k, j);
    assert(rs.skip(j)[0] == rs[j]);
}

/// A hit means some entry carries the key.
pub proof fn lemma_find_index(rs: Seq<RecModel>, k: Seq<u8>)
    requires
        seq_find(rs, k) is Some,
    ensures
        exists|i: int| 0 <= i < rs.len() && (#[trigger] rs[i]).key == k,
    decreases rs.len(),
{
    if rs.len() > 0 && rs[0].key != k {
        lemma_find_index(rs.drop_first(), k);
        let i = choose|i: int| 0 <= i < rs.drop_first().len() && (#[trigger] rs.drop_first()[i]).key == k;
        assert(rs[i + 1].key == k);
    }
}

/// First occurrence of a byte within `[from, to)` of a buffer.
pub fn find_byte(buf: &Vec<u8>, from: usize, to: usize, target: u8) -> (r: Option<usize>)
    requires
        from <= to <= buf@.len(),
    ensures
        match r {
            Some(i) => from <= i < to && buf@[i as int] == target && forall|j: int|
                from <= j < i ==> buf@[j] != target,
            None => forall|j: int| from <= j < to ==> buf@[j] != target,
        },
{
    let mut i = from;
    while i < to
        invariant
            from <= i <= to <= buf@.len(),
            forall|j: int| from <= j < i ==> buf@[j] != target,
        decreases to - i,
    {
        if buf[i] == target {
            return Some(i);
        }
        i += 1;
    }
    None
}

/// A copy of the bytes in `[from, to)`.
pub fn copy_range(buf: &Vec<u8>, from: usize, to: usize) -> (r: Vec<u8>)
    requires
        from <= to <= buf@.len(),
    ensures
        r@ == buf@.subrange(from as int, to as int),
{
    let mut r: Vec<u8> = Vec::new();
    let mut i = from;
    while i < to
        invariant
            from <= i <= to <= buf@.len(),
            r@ =~= buf@.subrange(from as int, i as int),
        decreases to - i,
    {
        r.push(buf[i]);
        i += 1;
        proof {
            assert(r@ =~= buf@.subrange(from as int, i as int));
        }
    }
    r
}

/// Parse a block of record lines in `[lo, hi)`. Succeeds exactly when the
/// bytes are the data block of some well-framed, strictly sorted run — and
/// then returns that run, since the framing is injective.
#[verifier::rlimit(60)]
pub fn parse_records(buf: &Vec<u8>, lo: usize, hi: usize) -> (r: Option<Vec<Record>>)
    requires
        lo <= hi <= buf@.len(),
    ensures
        match r {
            Some(v) => lines_ok(models(v@)) && sorted_strict(models(v@)) && buf@.subrange(
                lo as int,
                hi as int,
            ) == data_bytes(models(v@)),
            None => forall|rs: Seq<RecModel>|
                !(lines_ok(rs) && sorted_strict(rs) && buf@.subrange(lo as int, hi as int)
                    == data_bytes(rs)),
        },
{
    let ghost region = buf@.subrange(lo as int, hi as int);
    let mut out: Vec<Record> = Vec::new();
    let mut cur: usize = lo;
    proof {
        assert(models(out@).len() == 0);
        assert(buf@.subrange(lo as int, lo as int) =~= data_bytes(models(out@)));
    }
    while cur < hi
        invariant
            lo <= cur <= hi <= buf@.len(),
            region == buf@.subrange(lo as int, hi as int),
            buf@.subrange(lo as int, cur as int) == data_bytes(models(out@)),
            lines_ok(models(out@)),
            sorted_strict(models(out@)),
        decreases hi - cur,
    {
        let ghost pre = models(out@);
        let ghost rest = buf@.subrange(cur as int, hi as int);
        proof {
            assert(region =~= data_bytes(pre) + rest);
            assert(forall|i: int| 0 <= i < rest.len() ==> rest[i] == buf@[cur + i]);
        }
        let nl = match find_byte(buf, cur, hi, NEWLINE) {
            Some(nl) => nl,
            None => {
                proof {
                    if exists|rs: Seq<RecModel>|
                        lines_ok(rs) && sorted_strict(rs) && region == data_bytes(rs) {
                        let rs = choose|rs: Seq<RecModel>|
                            lines_ok(rs) && sorted_strict(rs) && region == data_bytes(rs);
                        lemma_data_prefix(pre, rs, rest);
                        let k = pre.len() as int;
                        let tail = rs.skip(k);
                        if tail.len() == 0 {
                            assert(rest.len() == 0);
                            assert(false);
                        } else {
                            assert(lines_ok(tail)) by {
                                assert(forall|i: int| 0 <= i < tail.len() ==> tail[i] == rs[k + i]);
                            }
                            lemma_line_frame(tail);
                            let ll = line_len(tail[0]);
                            assert(rest[ll - 1] == NEWLINE);
                            assert(buf@[cur + ll - 1] == NEWLINE);
                            assert(false);
                        }
                    }
                }
                return None;
            },
        };
        let comma = match find_byte(buf, cur, nl, COMMA) {
            Some(c) => c,
            None => {
                proof {
                    if exists|rs: Seq<RecModel>|
                        lines_ok(rs) && sorted_strict(rs) && region == data_bytes(rs) {
                        let rs = choose|rs: Seq<RecModel>|
                            lines_ok(rs) && sorted_strict(rs) && region == data_bytes(rs);
                        lemma_data_prefix(pre, rs, rest);
                        let k = pre.len() as int;
                        let tail = rs.skip(k);
                        if tail.len() == 0 {
                            assert(rest.len() == 0);
                            assert(false);
                        } else {
                            assert(lines_ok(tail)) by {
                                assert(forall|i: int| 0 <= i < tail.len() ==> tail[i] == rs[k + i]);
                            }
                            lemma_line_frame(tail);
                            let ll = line_len(tail[0]);
                            let kl = tail[0].key.len() as int;
                            lemma_line_len_min(tail[0]);
                            assert(nl - cur == ll - 1) by {
                                if nl - cur < ll - 1 {
                                    assert(rest[nl - cur] != NEWLINE);
                                    assert(buf@[nl as int] != NEWLINE);
                                } else if nl - cur > ll - 1 {
                                    assert(rest[ll - 1] == NEWLINE);
                                    assert(buf@[cur + ll - 1] == NEWLINE);
                                }
                            }
                            assert(rest[kl] == COMMA);
                            assert(buf@[cur + kl] == COMMA);
                            assert(false);
                        }
                    }
                }
                return None;
            },
        };
        let key = copy_range(buf, cur, comma);
        let raw = copy_range(buf, comma + 1, nl);
        let tomb = tombstone_bytes();
        let is_tomb = matches!(lex_cmp(&raw, &tomb), KeyOrder::Equal);
        let rec = if is_tomb {
            Record { key, value: None }
        } else {
            Record { key, value: Some(raw) }
        };
        let ghost recm = rec@;
        proof {
            assert(value_text(recm.value) == buf@.subrange(comma + 1, nl as int));
            assert(line_ok(recm)) by {
                assert(forall|i: int|
                    0 <= i < recm.key.len() ==> recm.key[i] == buf@[cur + i]);
                assert(forall|i: int|
                    0 <= i < value_text(recm.value).len() ==> value_text(recm.value)[i] == buf@[
                        comma + 1 + i
                    ]);
            }
            assert(buf@.subrange(cur as int, nl + 1) =~= line_bytes(recm)) by {
                assert(buf@[comma as int] == COMMA);
                assert(buf@[nl as int] == NEWLINE);
                lemma_line_index(recm);
                lemma_line_len_min(recm);
            }
        }
        if out.len() > 0 {
            let last_idx = out.len() - 1;
            let ascending = matches!(lex_cmp(&out[last_idx].key, &rec.key), KeyOrder::Less);
            if !ascending {
                proof {
                    if exists|rs: Seq<RecModel>|
                        lines_ok(rs) && sorted_strict(rs) && region == data_bytes(rs) {
                        let rs = choose|rs: Seq<RecModel>|
                            lines_ok(rs) && sorted_strict(rs) && region == data_bytes(rs);
                        let k = pre.len() as int;
                        assert(lines_ok(pre.push(recm))) by {
                            assert(forall|i: int|
                                0 <= i < k ==> pre.push(recm)[i] == pre[i]);
                            assert(pre.push(recm)[k] == recm);
                        }
                        lemma_data_bytes_push(pre, recm);
                        assert(region =~= data_bytes(pre.push(recm)) + buf@.subrange(
                            nl + 1,
                            hi as int,
                        ));
                        lemma_data_prefix(pre.push(recm), rs, buf@.subrange(nl + 1, hi as int));
                        assert(rs.take(k + 1)[k - 1] == rs[k - 1]);
                        assert(rs.take(k + 1)[k] == rs[k]);
                        assert(pre.push(recm)[k - 1] == pre[k - 1]);
                        assert(pre.push(recm)[k] == recm);
                        assert(rs[k - 1] == pre[k - 1]);
                        assert(rs[k] == recm);
                        assert(lex_lt(rs[k - 1].key, rs[k].key));
                        assert(pre[k - 1] == out@[k - 1]@);
                        assert(false);
                    }
                }
                return None;
            }
        }
        let ghost lastm = if out.len() > 0 {
            pre[pre.len() - 1]
        } else {
            recm
        };
        out.push(rec);
        cur = nl + 1;
        proof {
            assert(models(out@) =~= pre.push(recm));
            lemma_data_bytes_push(pre, recm);
            assert(buf@.subrange(lo as int, cur as int) =~= data_bytes(pre) + line_bytes(recm));
            assert(lines_ok(pre.push(recm))) by {
                assert(forall|i: int| 0 <= i < pre.len() ==> pre.push(recm)[i] == pre[i]);
                assert(pre.push(recm)[pre.len() as int] == recm);
            }
            assert(sorted_strict(pre.push(recm))) by {
                assert forall|i: int, j: int| 0 <= i < j < pre.push(recm).len() implies lex_lt(
                    (#[trigger] pre.push(recm)[i]).key,
                    (#[trigger] pre.push(recm)[j]).key,
                ) by {
                    if j < pre.len() {
                        assert(pre.push(recm)[i] == pre[i]);
                        assert(pre.push(recm)[j] == pre[j]);
                    } else {
                        assert(pre.push(recm)[j] == recm);
                        assert(pre.push(recm)[i] == pre[i]);
                        assert(lex_lt(lastm.key, recm.key));
                        if i < pre.len() - 1 {
                            assert(lex_lt(pre[i].key, lastm.key));
                            crate::lex::lemma_lex_transitive(pre[i].key, lastm.key, recm.key);
                        }
                    }
                }
            }
        }
    }
    Some(out)
}

/// Whether a key satisfies the engine's key constraints.
pub fn check_key(k: &Vec<u8>) -> (r: bool)
    ensures
        r == valid_key(k@),
{
    if k.len() == 0 {
        return false;
    }
    let mut i: usize = 0;
    while i < k.len()
        invariant
            i <= k@.len(),
            forall|j: int|
                0 <= j < i ==> #[trigger] k@[j] != SPACE && k@[j] != TAB && k@[j] != NEWLINE && k@[j]
                    != CARRIAGE_RETURN && k@[j] != COMMA,
        decreases k@.len() - i,
    {
        let c = k[i];
        if c == SPACE || c == TAB || c == NEWLINE || c == CARRIAGE_RETURN || c == COMMA {
            return false;
        }
        i += 1;
    }
    true
}

/// Whether a value satisfies the engine's value constraints.
pub fn check_value(v: &Vec<u8>) -> (r: bool)
    ensures
        r == valid_value(v@),
{
    let tomb = tombstone_bytes();
    if matches!(lex_cmp(v, &tomb), KeyOrder::Equal) {
        return false;
    }
    let mut i: usize = 0;
    while i < v.len()
        invariant
            i <= v@.len(),
            v@ != tombstone_mark(),
            forall|j: int| 0 <= j < i ==> #[trigger] v@[j] != COMMA && v@[j] != NEWLINE,
        decreases v@.len() - i,
    {
        let c = v[i];
        if c == COMMA || c == NEWLINE {
            return false;
        }
        i += 1;
    }
    true
}

} // verus!
