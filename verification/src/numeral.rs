//! Decimal numerals: the byte offsets in a segment's sparse index are written
//! as ordinary base-ten ASCII, one numeral per index line.

use vstd::prelude::*;

verus! {

pub const DIGIT_ZERO: u8 = 48;

pub const DIGIT_NINE: u8 = 57;

/// The canonical decimal numeral of `n`: no leading zero, most significant
/// digit first.
pub open spec fn dec_bytes(n: nat) -> Seq<u8>
    decreases n,
{
    if n < 10 {
        seq![(DIGIT_ZERO + n) as u8]
    } else {
        dec_bytes(n / 10).push((DIGIT_ZERO + n % 10) as u8)
    }
}

/// The value of a digit string, most significant digit first.
pub open spec fn dec_val(s: Seq<u8>) -> nat
    decreases s.len(),
{
    if s.len() == 0 {
        0
    } else {
        dec_val(s.drop_last()) * 10 + (s.last() - DIGIT_ZERO) as nat
    }
}

pub open spec fn all_digits(s: Seq<u8>) -> bool {
    forall|i: int| 0 <= i < s.len() ==> DIGIT_ZERO <= #[trigger] s[i] <= DIGIT_NINE
}

pub proof fn lemma_dec_props(n: nat)
    ensures
        dec_bytes(n).len() >= 1,
        all_digits(dec_bytes(n)),
        n > 0 ==> dec_bytes(n)[0] != DIGIT_ZERO,
        n >= 10 ==> dec_bytes(n).len() >= 2,
    decreases n,
{
    if n < 10 {
    } else {
        lemma_dec_props(n / 10);
        assert(dec_bytes(n)[0] == dec_bytes(n / 10)[0]);
        assert forall|i: int| 0 <= i < dec_bytes(n).len() implies DIGIT_ZERO <= #[trigger] dec_bytes(
            n,
        )[i] <= DIGIT_NINE by {
            if i < dec_bytes(n / 10).len() {
                assert(dec_bytes(n)[i] == dec_bytes(n / 10)[i]);
            }
        }
    }
}

/// Reading back a numeral gives the number.
pub proof fn lemma_dec_val_of_dec(n: nat)
    ensures
        dec_val(dec_bytes(n)) == n,
    decreases n,
{
    if n < 10 {
        assert(dec_bytes(n).drop_last() =~= Seq::<u8>::empty());
        assert(dec_val(Seq::<u8>::empty()) == 0);
        assert(dec_bytes(n).last() == (DIGIT_ZERO + n) as u8);
        assert(dec_val(dec_bytes(n)) == (dec_bytes(n).last() - DIGIT_ZERO) as nat);
    } else {
        lemma_dec_val_of_dec(n / 10);
        assert(dec_bytes(n).drop_last() =~= dec_bytes(n / 10));
        assert(dec_bytes(n).last() == (DIGIT_ZERO + n % 10) as u8);
        assert(n / 10 * 10 + n % 10 == n) by (nonlinear_arith);
    }
}

/// Numerals are unique: equal numerals mean equal numbers.
pub proof fn lemma_dec_inj(a: nat, b: nat)
    requires
        dec_bytes(a) == dec_bytes(b),
    ensures
        a == b,
{
    lemma_dec_val_of_dec(a);
    lemma_dec_val_of_dec(b);
}

/// A canonical digit string is the numeral of its own value.
pub proof fn lemma_dec_canonical(s: Seq<u8>)
    requires
        s.len() >= 1,
        all_digits(s),
        s[0] != DIGIT_ZERO || s.len() == 1,
    ensures
        dec_bytes(dec_val(s)) == s,
    decreases s.len(),
{
    if s.len() == 1 {
        assert(s.drop_last() =~= Seq::<u8>::empty());
        assert(dec_val(Seq::<u8>::empty()) == 0);
        assert(s.last() == s[0]);
        assert(dec_val(s) == (s[0] - DIGIT_ZERO) as nat);
        assert(dec_bytes(dec_val(s)) =~= s);
    } else {
        let d = s.drop_last();
        assert(d[0] == s[0]);
        assert(all_digits(d)) by {
            assert(forall|i: int| 0 <= i < d.len() ==> d[i] == s[i]);
        }
        lemma_dec_canonical(d);
        lemma_dec_val_pos(d);
        let v = dec_val(s);
        assert(v == dec_val(d) * 10 + (s.last() - DIGIT_ZERO) as nat);
        assert(dec_val(d) >= 1);
        assert(v >= 10) by (nonlinear_arith)
            requires
                v == dec_val(d) * 10 + (s.last() - DIGIT_ZERO) as nat,
                dec_val(d) >= 1;
        assert(v / 10 == dec_val(d) && v % 10 == (s.last() - DIGIT_ZERO) as nat)
            by (nonlinear_arith)
            requires
                v == dec_val(d) * 10 + (s.last() - DIGIT_ZERO) as nat,
                ((s.last() - DIGIT_ZERO) as nat) < 10;
        assert(dec_bytes(v) == dec_bytes(dec_val(d)).push((DIGIT_ZERO + v % 10) as u8));
        assert(dec_bytes(v) =~= s);
    }
}

/// A non-zero-headed digit string has a positive value.
pub proof fn lemma_dec_val_pos(s: Seq<u8>)
    requires
        s.len() >= 1,
        all_digits(s),
        s[0] != DIGIT_ZERO,
    ensures
        dec_val(s) >= 1,
    decreases s.len(),
{
    if s.len() == 1 {
    } else {
        let d = s.drop_last();
        assert(d[0] == s[0]);
        assert(all_digits(d)) by {
            assert(forall|i: int| 0 <= i < d.len() ==> d[i] == s[i]);
        }
        lemma_dec_val_pos(d);
        assert(dec_val(s) >= dec_val(d) * 10) by (nonlinear_arith)
            requires
                dec_val(s) == dec_val(d) * 10 + (s.last() - DIGIT_ZERO) as nat;
        assert(dec_val(d) * 10 >= 10) by (nonlinear_arith)
            requires
                dec_val(d) >= 1;
    }
}

/// A longer digit string is worth at least as much as its prefix.
pub proof fn lemma_dec_val_prefix(s: Seq<u8>, j: int)
    requires
        all_digits(s),
        0 <= j <= s.len(),
    ensures
        dec_val(s.take(j)) <= dec_val(s),
    decreases s.len() - j,
{
    if j < s.len() {
        lemma_dec_val_prefix(s, j + 1);
        let t = s.take(j + 1);
        assert(t.drop_last() =~= s.take(j));
        assert(t.last() == s[j]);
        assert(dec_val(t) == dec_val(s.take(j)) * 10 + (s[j] - DIGIT_ZERO) as nat);
        assert(dec_val(s.take(j)) <= dec_val(s.take(j)) * 10) by (nonlinear_arith);
    } else {
        assert(s.take(j) =~= s);
    }
}

/// The decimal numeral of a number, as bytes.
pub fn u64_to_dec(n: u64) -> (r: Vec<u8>)
    ensures
        r@ == dec_bytes(n as nat),
{
    let mut digits: Vec<u8> = Vec::new();
    let mut m: u64 = n;
    digits.push(DIGIT_ZERO + (m % 10) as u8);
    m = m / 10;
    proof {
        if n >= 10 {
            assert(dec_bytes(n as nat) == dec_bytes(n as nat / 10).push(
                (DIGIT_ZERO + n as nat % 10) as u8,
            ));
            assert(dec_bytes(n as nat) =~= dec_bytes(m as nat) + digits@.reverse());
        } else {
            assert(dec_bytes(n as nat) =~= digits@.reverse());
        }
    }
    while m > 0
        invariant
            digits@.len() >= 1,
            m > 0 ==> dec_bytes(n as nat) == dec_bytes(m as nat) + digits@.reverse(),
            m == 0 ==> dec_bytes(n as nat) == digits@.reverse(),
        decreases m,
    {
        let ghost pre = digits@;
        let ghost mpre = m as nat;
        let d = DIGIT_ZERO + (m % 10) as u8;
        digits.push(d);
        m = m / 10;
        proof {
            assert(digits@.reverse() =~= seq![d] + pre.reverse());
            if m > 0 {
                assert(dec_bytes(mpre) == dec_bytes(mpre / 10).push(d));
                assert(dec_bytes(mpre) =~= dec_bytes(m as nat) + seq![d]);
                assert(dec_bytes(n as nat) =~= dec_bytes(m as nat) + digits@.reverse());
            } else {
                assert(mpre < 10);
                assert(dec_bytes(mpre) =~= seq![d]);
                assert(dec_bytes(n as nat) =~= digits@.reverse());
            }
        }
    }
    let mut r: Vec<u8> = Vec::new();
    let mut i: usize = digits.len();
    while i > 0
        invariant
            i <= digits@.len(),
            r@ =~= digits@.subrange(i as int, digits@.len() as int).reverse(),
        decreases i,
    {
        i -= 1;
        r.push(digits[i]);
        proof {
            assert(r@ =~= digits@.subrange(i as int, digits@.len() as int).reverse());
        }
    }
    proof {
        assert(digits@.subrange(0, digits@.len() as int) =~= digits@);
        assert(r@ =~= digits@.reverse());
    }
    r
}

/// Parse a canonical decimal numeral. `None` exactly when no number has these
/// bytes as its numeral: empty, a stray character, a leading zero, or a value
/// past the largest representable number.
pub fn parse_dec(v: &Vec<u8>) -> (r: Option<u64>)
    ensures
        match r {
            Some(m) => v@ == dec_bytes(m as nat),
            None => forall|m: u64| v@ != dec_bytes(m as nat),
        },
{
    if v.len() == 0 {
        proof {
            assert forall|m: u64| v@ != dec_bytes(m as nat) by {
                lemma_dec_props(m as nat);
            }
        }
        return None;
    }
    if v.len() > 1 && v[0] == DIGIT_ZERO {
        proof {
            assert forall|m: u64| v@ != dec_bytes(m as nat) by {
                lemma_dec_props(m as nat);
                if m == 0 {
                    assert(dec_bytes(0).len() == 1);
                }
            }
        }
        return None;
    }
    let mut i: usize = 0;
    let mut acc: u64 = 0;
    while i < v.len()
        invariant
            i <= v@.len(),
            v@.len() >= 1,
            v@.len() > 1 ==> v@[0] != DIGIT_ZERO,
            forall|j: int| 0 <= j < i ==> DIGIT_ZERO <= #[trigger] v@[j] <= DIGIT_NINE,
            acc as nat == dec_val(v@.take(i as int)),
        decreases v@.len() - i,
    {
        let c = v[i];
        if c < DIGIT_ZERO || c > DIGIT_NINE {
            proof {
                assert forall|m: u64| v@ != dec_bytes(m as nat) by {
                    lemma_dec_props(m as nat);
                }
            }
            return None;
        }
        let d = (c - DIGIT_ZERO) as u64;
        proof {
            assert(v@.take(i + 1).drop_last() =~= v@.take(i as int));
            assert(v@.take(i + 1).last() == v@[i as int]);
        }
        if acc > (u64::MAX - d) / 10 {
            proof {
                assert(acc as nat * 10 + d as nat > u64::MAX as nat) by (nonlinear_arith)
                    requires
                        acc as nat > ((u64::MAX - d) as nat) / 10,
                        d < 10;
                assert forall|m: u64| v@ != dec_bytes(m as nat) by {
                    if v@ == dec_bytes(m as nat) {
                        lemma_dec_props(m as nat);
                        lemma_dec_val_of_dec(m as nat);
                        lemma_dec_val_prefix(v@, i + 1);
                        assert(dec_val(v@.take(i + 1)) == acc as nat * 10 + d as nat);
                        assert(m as nat >= dec_val(v@.take(i + 1)));
                    }
                }
            }
            return None;
        }
        proof {
            assert(acc as nat * 10 + d as nat <= u64::MAX as nat) by (nonlinear_arith)
                requires
                    acc as nat <= ((u64::MAX - d) as nat) / 10,
                    d < 10;
        }
        acc = acc * 10 + d;
        i += 1;
    }
    proof {
        assert(v@.take(v@.len() as int) =~= v@);
        lemma_dec_canonical(v@);
    }
    Some(acc)
}

} // verus!
