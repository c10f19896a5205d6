//! Textual serialization of export bundles.
//!
//! The schema is deterministic and self-delimiting: every integer is written
//! as exactly twenty decimal digits (zero padded), and every byte string is
//! written as its length followed by its raw bytes. A bundle is the
//! comparator name, the file count, and the files in order. The decoder
//! accepts exactly the strings the encoder produces and recovers the bundle
//! field for field.

use vstd::prelude::*;

use crate::bytes::copy_bytes;
use crate::meta::{files_view, ExportImportFilesMetaData, FileMetadata, FileMetadataView, MetaDataView};
use crate::Error;
use vstd::arithmetic::div_mod::{
    lemma_div_denominator, lemma_fundamental_div_mod, lemma_fundamental_div_mod_converse_div,
    lemma_fundamental_div_mod_converse_mod, lemma_small_mod,
};

verus! {

/// Ten to the power `n`.
pub open spec fn pow10(n: nat) -> nat
    decreases n,
{
    if n == 0 {
        1
    } else {
        10 * pow10((n - 1) as nat)
    }
}

/// The decimal digit of `v` at position `p`, counted from the least
/// significant digit, as an ASCII byte.
pub open spec fn digit_at(v: nat, p: nat) -> u8 {
    (48 + ((v / pow10(p)) % 10)) as u8
}

/// A natural number written with exactly `n` decimal digits, most significant
/// digit first.
pub open spec fn enc_pos(v: nat, n: nat) -> Seq<u8> {
    Seq::new(n, |i: int| digit_at(v, (n - 1 - i) as nat))
}

/// The fixed-width form of a machine integer: twenty decimal digits.
pub open spec fn enc_u64(v: u64) -> Seq<u8> {
    enc_pos(v as nat, 20)
}

/// Whether `b` is an ASCII decimal digit.
pub open spec fn is_digit(b: u8) -> bool {
    48 <= b <= 57
}

/// The value of a string of decimal digits, most significant first.
pub open spec fn dec_digits(s: Seq<u8>) -> nat
    decreases s.len(),
{
    if s.len() == 0 {
        0
    } else {
        dec_digits(s.drop_last()) * 10 + (s.last() - 48) as nat
    }
}

/// Whether the bytes of `e` stand in `s` beginning at position `i`.
pub open spec fn starts_at(s: Seq<u8>, i: int, e: Seq<u8>) -> bool {
    &&& 0 <= i
    &&& i + e.len() <= s.len()
    &&& s.subrange(i, i + e.len() as int) == e
}

/// Multiplying both sides of an inequality by ten keeps it.
proof fn lemma_mul10_le(a: nat, b: nat)
    requires
        a <= b,
    ensures
        a * 10 <= b * 10,
{
    assert(a * 10 <= b * 10) by (nonlinear_arith)
        requires a <= b;
}

/// Powers of ten are positive.
pub proof fn lemma_pow10_pos(n: nat)
    ensures
        pow10(n) >= 1,
    decreases n,
{
    if n > 0 {
        lemma_pow10_pos((n - 1) as nat);
    }
}

/// Every digit position of every number holds an ASCII decimal digit.
pub proof fn lemma_digit_is_digit(v: nat, p: nat)
    ensures
        is_digit(digit_at(v, p)),
{
    lemma_pow10_pos(p);
}

/// Shifting out the least significant digit moves every digit position down
/// by one.
pub proof fn lemma_digit_shift(v: nat, p: nat)
    ensures
        digit_at(v / 10, p) == digit_at(v, p + 1),
{
    lemma_pow10_pos(p);
    lemma_div_denominator(v as int, 10, pow10(p) as int);
    assert(pow10(p + 1) == 10 * pow10(p));
}

/// Reading the fixed-width digits of `v` back gives `v` modulo the width's
/// power of ten.
pub proof fn lemma_dec_enc_pos(v: nat, n: nat)
    ensures
        dec_digits(enc_pos(v, n)) == v % pow10(n),
    decreases n,
{
    lemma_pow10_pos(n);
    if n == 0 {
        lemma_small_mod(0, 1);
        assert(v % 1 == 0) by {
            lemma_fundamental_div_mod_converse_mod(v as int, 1, v as int, 0);
        }
    } else {
        let s = enc_pos(v, n);
        let p = pow10((n - 1) as nat);
        lemma_pow10_pos((n - 1) as nat);
        assert(s.drop_last() =~= enc_pos(v / 10, (n - 1) as nat)) by {
            assert forall|i: int| 0 <= i < n - 1 implies s.drop_last()[i] == enc_pos(
                v / 10,
                (n - 1) as nat,
            )[i] by {
                lemma_digit_shift(v, (n - 1 - 1 - i) as nat);
            }
        }
        lemma_dec_enc_pos(v / 10, (n - 1) as nat);
        // s.last() is digit_at(v, 0) == 48 + v % 10
        assert(v / pow10(0) == v && v % 10 == v % pow10(1)) by {
            lemma_fundamental_div_mod_converse_div(v as int, 1, v as int, 0);
        }
        let q = v / 10;
        let r = v % 10;
        lemma_fundamental_div_mod(v as int, 10);
        lemma_fundamental_div_mod(q as int, p as int);
        // value of the digit string: (q % p) * 10 + r
        let w = (q % p) * 10 + r;
        assert(dec_digits(s) == w) by {
            assert((s.last() - 48) as nat == r);
        }
        // w == v - (10 * p) * (q / p)
        assert(q % p == q - p * (q / p));
        assert(w == v - 10 * (p * (q / p)));
        assert(10 * (p * (q / p)) == (10 * p) * (q / p)) by (nonlinear_arith);
        assert(0 <= w < 10 * p) by {
            assert(q % p <= p - 1);
            lemma_mul10_le(q % p, (p - 1) as nat);
        }
        lemma_div_denominator(v as int, 10, p as int);
        assert(v == (10 * p) * (v / (10 * p)) + w);
        lemma_fundamental_div_mod_converse_mod(v as int, 10 * p as int, (q / p) as int, w as int);
        assert(pow10(n) == 10 * p);
    }
}

/// `pow10(20)` written out.
pub proof fn lemma_pow10_20()
    ensures
        pow10(20) == 0x56bc75e2d63100000,
        pow10(19) == 0x8ac7230489e80000,
{
    reveal_with_fuel(pow10, 21);
    assert(pow10(20) == 0x56bc75e2d63100000 && pow10(19) == 0x8ac7230489e80000);
}

/// Reading the twenty digits of a machine integer back gives the integer.
pub proof fn lemma_dec_enc_u64(v: u64)
    ensures
        dec_digits(enc_u64(v)) == v,
{
    lemma_dec_enc_pos(v as nat, 20);
    lemma_pow10_20();
    lemma_small_mod(v as nat, pow10(20));
}

/// A string of `n` digits is exactly the fixed-width form of its value, and
/// that value is below the width's power of ten.
pub proof fn lemma_enc_dec(s: Seq<u8>)
    requires
        forall|i: int| 0 <= i < s.len() ==> is_digit(#[trigger] s[i]),
    ensures
        dec_digits(s) < pow10(s.len()),
        enc_pos(dec_digits(s), s.len()) == s,
    decreases s.len(),
{
    let n = s.len();
    lemma_pow10_pos(n);
    if n == 0 {
        assert(enc_pos(0, 0) =~= s);
    } else {
        let dl = s.drop_last();
        lemma_enc_dec(dl);
        let p = pow10((n - 1) as nat);
        let r = (s.last() - 48) as nat;
        let d = dec_digits(s);
        assert(d == dec_digits(dl) * 10 + r);
        assert(d < pow10(n)) by {
            lemma_mul10_le(dec_digits(dl), (p - 1) as nat);
            assert(pow10(n) == 10 * p);
        }
        assert(d / 10 == dec_digits(dl)) by {
            lemma_fundamental_div_mod_converse_div(d as int, 10, dec_digits(dl) as int, r as int);
        }
        assert(d % 10 == r) by {
            lemma_fundamental_div_mod_converse_mod(d as int, 10, dec_digits(dl) as int, r as int);
        }
        assert(enc_pos(d, n) =~= s) by {
            assert forall|i: int| 0 <= i < n implies enc_pos(d, n)[i] == s[i] by {
                if i < n - 1 {
                    lemma_digit_shift(d, (n - 1 - 1 - i) as nat);
                    assert(enc_pos(d / 10, (n - 1) as nat)[i] == dl[i]);
                } else {
                    lemma_fundamental_div_mod_converse_div(d as int, 1, d as int, 0);
                    assert(d / pow10(0) == d);
                }
            }
        }
    }
}

/// Concatenations stand in `s` exactly when both halves do, one after the
/// other.
pub proof fn lemma_starts_at_concat(s: Seq<u8>, i: int, x: Seq<u8>, y: Seq<u8>)
    ensures
        starts_at(s, i, x + y) <==> (starts_at(s, i, x) && starts_at(s, i + x.len(), y)),
{
    if starts_at(s, i, x + y) {
        assert(s.subrange(i, i + x.len() as int) =~= x);
        assert forall|k: int| 0 <= k < y.len() implies s.subrange(
            i + x.len(),
            i + x.len() + y.len(),
        )[k] == y[k] by {
            assert((x + y)[x.len() + k] == y[k]);
            assert(s.subrange(i, i + (x + y).len() as int)[x.len() + k] == s[i + x.len() + k]);
        }
        assert(s.subrange(i + x.len(), i + x.len() + y.len()) =~= y);
    }
    if starts_at(s, i, x) && starts_at(s, i + x.len(), y) {
        assert(s.subrange(i, i + (x + y).len() as int) =~= x + y);
    }
}

/// Writes the twenty decimal digits of `v`.
pub fn emit_u64(out: &mut Vec<u8>, v: u64)
    ensures
        final(out)@ == old(out)@ + enc_u64(v),
{
    let ghost start = out@;
    let mut p: u64 = 10_000_000_000_000_000_000;
    proof {
        lemma_pow10_20();
    }
    let mut k: usize = 0;
    while k < 20
        invariant
            k <= 20,
            k < 20 ==> p as nat == pow10((19 - k) as nat) && p >= 1,
            out@ == start + enc_u64(v).subrange(0, k as int),
        decreases 20 - k,
    {
        let d = (((v / p) % 10) as u8) + 48;
        proof {
            assert(d == digit_at(v as nat, (19 - k) as nat));
            assert(d == enc_u64(v)[k as int]);
        }
        out.push(d);
        proof {
            assert(out@ =~= start + enc_u64(v).subrange(0, k + 1));
        }
        if k < 19 {
            proof {
                lemma_pow10_pos((18 - k) as nat);
                assert(pow10((19 - k) as nat) == 10 * pow10((18 - k) as nat));
                assert((10 * pow10((18 - k) as nat)) as int / 10 == pow10((18 - k) as nat)) by {
                    vstd::arithmetic::div_mod::lemma_div_multiples_vanish(
                        pow10((18 - k) as nat) as int,
                        10,
                    );
                }
            }
            p = p / 10;
        }
        k = k + 1;
    }
    proof {
        assert(enc_u64(v).subrange(0, 20) =~= enc_u64(v));
    }
}

/// Reads twenty decimal digits beginning at `i`; fails when fewer than twenty
/// bytes remain, a byte is not a digit, or the value does not fit the
/// machine integer.
pub fn parse_u64(s: &Vec<u8>, i: usize) -> (r: Option<(u64, usize)>)
    requires
        i <= s.len(),
    ensures
        match r {
            Some(p) => {
                &&& p.1 == i + 20
                &&& starts_at(s@, i as int, enc_u64(p.0))
                &&& forall|v: u64| starts_at(s@, i as int, enc_u64(v)) ==> v == p.0
            },
            None => forall|v: u64| !starts_at(s@, i as int, enc_u64(v)),
        },
{
    if s.len() - i < 20 {
        return None;
    }
    let ghost whole = s@.subrange(i as int, i + 20);
    let mut acc: u64 = 0;
    let mut k: usize = 0;
    while k < 20
        invariant
            i + 20 <= s.len(),
            k <= 20,
            whole == s@.subrange(i as int, i + 20),
            forall|j: int| 0 <= j < k ==> is_digit(#[trigger] whole[j]),
            acc as nat == dec_digits(whole.subrange(0, k as int)),
        decreases 20 - k,
    {
        let b = s[i + k];
        proof {
            assert(whole[k as int] == s@[i + k]);
        }
        if b < 48 || b > 57 {
            proof {
                assert forall|v: u64| !starts_at(s@, i as int, enc_u64(v)) by {
                    if starts_at(s@, i as int, enc_u64(v)) {
                        lemma_digit_is_digit(v as nat, (19 - k) as nat);
                        assert(whole[k as int] == enc_u64(v)[k as int]);
                    }
                }
            }
            return None;
        }
        let d = (b - 48) as u64;
        let ghost prefix = whole.subrange(0, k as int);
        let ghost prefix1 = whole.subrange(0, k + 1);
        proof {
            assert(prefix1.drop_last() =~= prefix);
            assert(dec_digits(prefix1) == acc as nat * 10 + d as nat);
        }
        if acc > (u64::MAX - d) / 10 {
            proof {
                lemma_fundamental_div_mod((u64::MAX - d) as int, 10);
                assert(acc as nat * 10 + d as nat > u64::MAX);
                assert forall|v: u64| !starts_at(s@, i as int, enc_u64(v)) by {
                    if starts_at(s@, i as int, enc_u64(v)) {
                        assert(whole == enc_u64(v));
                        lemma_dec_enc_u64(v);
                        lemma_dec_prefix_le(whole, (k + 1) as nat);
                        assert forall|j: int| 0 <= j < whole.len() implies is_digit(
                            #[trigger] whole[j],
                        ) by {
                            lemma_digit_is_digit(v as nat, (19 - j) as nat);
                        }
                        assert(dec_digits(whole.subrange(0, k + 1)) <= dec_digits(whole));
                    }
                }
            }
            return None;
        }
        proof {
            lemma_fundamental_div_mod((u64::MAX - d) as int, 10);
            assert(acc as nat * 10 + d as nat <= u64::MAX);
        }
        acc = acc * 10 + d;
        k = k + 1;
    }
    proof {
        assert(whole.subrange(0, 20) =~= whole);
        lemma_enc_dec(whole);
        lemma_pow10_20();
        assert(enc_pos(acc as nat, 20) == whole);
        assert(starts_at(s@, i as int, enc_u64(acc)));
        assert forall|v: u64| starts_at(s@, i as int, enc_u64(v)) implies v == acc by {
            assert(enc_u64(v) == whole);
            lemma_dec_enc_u64(v);
        }
    }
    Some((acc, i + 20))
}

/// The value of a digit string never falls when more digits follow.
pub proof fn lemma_dec_prefix_le(s: Seq<u8>, m: nat)
    requires
        m <= s.len(),
        forall|i: int| 0 <= i < s.len() ==> is_digit(#[trigger] s[i]),
    ensures
        dec_digits(s.subrange(0, m as int)) <= dec_digits(s),
    decreases s.len() - m,
{
    if m == s.len() {
        assert(s.subrange(0, m as int) =~= s);
    } else {
        lemma_dec_prefix_le(s, (m + 1) as nat);
        let p = s.subrange(0, m as int);
        let p1 = s.subrange(0, m as int + 1);
        assert(p1.drop_last() =~= p);
        assert(dec_digits(p1) == dec_digits(p) * 10 + (s[m as int] - 48) as nat);
    }
}

/// A byte string's textual form: its length, then its raw bytes.
pub open spec fn enc_bytes(b: Seq<u8>) -> Seq<u8> {
    enc_u64(b.len() as u64) + b
}

/// Writes the length of `b` and then its bytes.
pub fn emit_bytes(out: &mut Vec<u8>, b: &Vec<u8>)
    ensures
        final(out)@ == old(out)@ + enc_bytes(b@),
{
    let ghost start = out@;
    emit_u64(out, b.len() as u64);
    let mut k: usize = 0;
    while k < b.len()
        invariant
            k <= b.len(),
            out@ == start + enc_u64(b@.len() as u64) + b@.subrange(0, k as int),
        decreases b.len() - k,
    {
        out.push(b[k]);
        proof {
            assert(out@ =~= start + enc_u64(b@.len() as u64) + b@.subrange(0, k + 1));
        }
        k = k + 1;
    }
    proof {
        assert(b@.subrange(0, b@.len() as int) =~= b@);
        assert(out@ =~= start + enc_bytes(b@));
    }
}

/// Reads a length-prefixed byte string beginning at `i`.
pub fn parse_bytes(s: &Vec<u8>, i: usize) -> (r: Option<(Vec<u8>, usize)>)
    requires
        i <= s.len(),
    ensures
        match r {
            Some(p) => {
                &&& starts_at(s@, i as int, enc_bytes(p.0@))
                &&& p.1 == i + 20 + p.0@.len()
                &&& p.1 <= s.len()
                &&& forall|b2: Seq<u8>| starts_at(s@, i as int, enc_bytes(b2)) ==> b2 == p.0@
            },
            None => forall|b2: Seq<u8>| !starts_at(s@, i as int, enc_bytes(b2)),
        },
{
    let parsed = parse_u64(s, i);
    match parsed {
        None => {
            proof {
                assert forall|b2: Seq<u8>| !starts_at(s@, i as int, enc_bytes(b2)) by {
                    if starts_at(s@, i as int, enc_bytes(b2)) {
                        lemma_starts_at_concat(s@, i as int, enc_u64(b2.len() as u64), b2);
                    }
                }
            }
            None
        },
        Some((n, j)) => {
            let rem = s.len() - j;
            if n > rem as u64 {
                proof {
                    assert forall|b2: Seq<u8>| !starts_at(s@, i as int, enc_bytes(b2)) by {
                        if starts_at(s@, i as int, enc_bytes(b2)) {
                            lemma_starts_at_concat(s@, i as int, enc_u64(b2.len() as u64), b2);
                            assert(n == b2.len() as u64);
                            assert(b2.len() <= rem);
                        }
                    }
                }
                None
            } else {
                let m = n as usize;
                let mut b: Vec<u8> = Vec::new();
                let mut k: usize = 0;
                while k < m
                    invariant
                        j + m <= s.len(),
                        k <= m,
                        b@ == s@.subrange(j as int, j + k),
                    decreases m - k,
                {
                    b.push(s[j + k]);
                    proof {
                        assert(b@ =~= s@.subrange(j as int, j + k + 1));
                    }
                    k = k + 1;
                }
                proof {
                    assert(b@.len() == m);
                    assert(starts_at(s@, j as int, b@));
                    lemma_starts_at_concat(s@, i as int, enc_u64(n), b@);
                    assert(enc_bytes(b@) == enc_u64(n) + b@);
                    assert forall|b2: Seq<u8>| starts_at(s@, i as int, enc_bytes(b2)) implies b2
                        == b@ by {
                        lemma_starts_at_concat(s@, i as int, enc_u64(b2.len() as u64), b2);
                        assert(n == b2.len() as u64);
                        assert(b2.len() <= s@.len());
                        assert(b2.len() == m);
                        assert(b2 =~= b@);
                    }
                }
                Some((b, j + m))
            }
        },
    }
}

/// A block of machine integers, each in fixed-width form, in order.
pub open spec fn enc_u64s(vs: Seq<u64>) -> Seq<u8>
    decreases vs.len(),
{
    if vs.len() == 0 {
        Seq::empty()
    } else {
        enc_u64(vs[0]) + enc_u64s(vs.drop_first())
    }
}

/// A block of byte strings, each length-prefixed, in order.
pub open spec fn enc_bytess(bs: Seq<Seq<u8>>) -> Seq<u8>
    decreases bs.len(),
{
    if bs.len() == 0 {
        Seq::empty()
    } else {
        enc_bytes(bs[0]) + enc_bytess(bs.drop_first())
    }
}

/// The views of a sequence of byte strings.
pub open spec fn bss_view(bs: Seq<Vec<u8>>) -> Seq<Seq<u8>> {
    bs.map_values(|b: Vec<u8>| b@)
}

/// An integer block's textual form is twenty bytes per integer.
pub proof fn lemma_enc_u64s_len(vs: Seq<u64>)
    ensures
        enc_u64s(vs).len() == 20 * vs.len(),
    decreases vs.len(),
{
    if vs.len() > 0 {
        lemma_enc_u64s_len(vs.drop_first());
    }
}

/// Appending one integer to a block appends its digits to the block's text.
pub proof fn lemma_enc_u64s_snoc(vs: Seq<u64>, x: u64)
    ensures
        enc_u64s(vs.push(x)) == enc_u64s(vs) + enc_u64(x),
    decreases vs.len(),
{
    if vs.len() == 0 {
        assert(vs.push(x)[0] == x);
        assert(vs.push(x).drop_first() =~= Seq::<u64>::empty());
        assert(enc_u64s(vs.push(x)) == enc_u64(x) + enc_u64s(Seq::<u64>::empty()));
        assert(enc_u64s(vs.push(x)) =~= enc_u64s(vs) + enc_u64(x));
    } else {
        assert(vs.push(x)[0] == vs[0]);
        assert(vs.push(x).drop_first() =~= vs.drop_first().push(x));
        lemma_enc_u64s_snoc(vs.drop_first(), x);
        assert(enc_u64s(vs.push(x)) == enc_u64(vs[0]) + (enc_u64s(vs.drop_first()) + enc_u64(x)));
        assert(enc_u64s(vs.push(x)) =~= enc_u64s(vs) + enc_u64(x));
    }
}

/// Appending one byte string to a block appends its text to the block's text.
pub proof fn lemma_enc_bytess_snoc(bs: Seq<Seq<u8>>, x: Seq<u8>)
    ensures
        enc_bytess(bs.push(x)) == enc_bytess(bs) + enc_bytes(x),
    decreases bs.len(),
{
    if bs.len() == 0 {
        assert(bs.push(x)[0] == x);
        assert(bs.push(x).drop_first() =~= Seq::<Seq<u8>>::empty());
        assert(enc_bytess(bs.push(x)) == enc_bytes(x) + enc_bytess(Seq::<Seq<u8>>::empty()));
        assert(enc_bytess(bs.push(x)) =~= enc_bytess(bs) + enc_bytes(x));
    } else {
        assert(bs.push(x)[0] == bs[0]);
        assert(bs.push(x).drop_first() =~= bs.drop_first().push(x));
        lemma_enc_bytess_snoc(bs.drop_first(), x);
        assert(enc_bytess(bs.push(x)) == enc_bytes(bs[0]) + (enc_bytess(bs.drop_first())
            + enc_bytes(x)));
        assert(enc_bytess(bs.push(x)) =~= enc_bytess(bs) + enc_bytes(x));
    }
}

/// Writes a block of machine integers.
pub fn emit_u64s(out: &mut Vec<u8>, vs: &Vec<u64>)
    ensures
        final(out)@ == old(out)@ + enc_u64s(vs@),
{
    let ghost start = out@;
    let mut k: usize = 0;
    proof {
        assert(vs@.subrange(0, 0) =~= Seq::<u64>::empty());
        assert(start + enc_u64s(vs@.subrange(0, 0)) =~= start);
    }
    while k < vs.len()
        invariant
            k <= vs.len(),
            out@ == start + enc_u64s(vs@.subrange(0, k as int)),
        decreases vs.len() - k,
    {
        emit_u64(out, vs[k]);
        proof {
            assert(vs@.subrange(0, k + 1) =~= vs@.subrange(0, k as int).push(vs@[k as int]));
            lemma_enc_u64s_snoc(vs@.subrange(0, k as int), vs@[k as int]);
            assert(out@ =~= start + enc_u64s(vs@.subrange(0, k + 1)));
        }
        k = k + 1;
    }
    proof {
        assert(vs@.subrange(0, vs@.len() as int) =~= vs@);
    }
}

/// Writes a block of byte strings.
pub fn emit_bytess(out: &mut Vec<u8>, bs: &Vec<Vec<u8>>)
    ensures
        final(out)@ == old(out)@ + enc_bytess(bss_view(bs@)),
{
    let ghost start = out@;
    let mut k: usize = 0;
    proof {
        assert(bss_view(bs@.subrange(0, 0)) =~= Seq::<Seq<u8>>::empty());
        assert(start + enc_bytess(bss_view(bs@.subrange(0, 0))) =~= start);
    }
    while k < bs.len()
        invariant
            k <= bs.len(),
            out@ == start + enc_bytess(bss_view(bs@.subrange(0, k as int))),
        decreases bs.len() - k,
    {
        emit_bytes(out, &bs[k]);
        proof {
            assert(bss_view(bs@.subrange(0, k + 1)) =~= bss_view(bs@.subrange(0, k as int)).push(
                bs@[k as int]@,
            ));
            lemma_enc_bytess_snoc(bss_view(bs@.subrange(0, k as int)), bs@[k as int]@);
            assert(out@ =~= start + enc_bytess(bss_view(bs@.subrange(0, k + 1))));
        }
        k = k + 1;
    }
    proof {
        assert(bs@.subrange(0, bs@.len() as int) =~= bs@);
    }
}

/// Reads a block of exactly `n` fixed-width integers beginning at `i`.
pub fn parse_u64s(s: &Vec<u8>, i: usize, n: usize) -> (r: Option<(Vec<u64>, usize)>)
    requires
        i <= s.len(),
        n <= 100,
    ensures
        match r {
            Some(p) => {
                &&& p.0@.len() == n
                &&& p.1 == i + 20 * n
                &&& p.1 <= s.len()
                &&& starts_at(s@, i as int, enc_u64s(p.0@))
                &&& forall|vs2: Seq<u64>|
                    vs2.len() == n && starts_at(s@, i as int, enc_u64s(vs2)) ==> vs2 == p.0@
            },
            None => forall|vs2: Seq<u64>| vs2.len() == n ==> !starts_at(s@, i as int, enc_u64s(vs2)),
        },
    decreases n,
{
    if n == 0 {
        let out: Vec<u64> = Vec::new();
        proof {
            assert(enc_u64s(out@) =~= Seq::<u8>::empty());
            assert(s@.subrange(i as int, i as int) =~= Seq::<u8>::empty());
            assert forall|vs2: Seq<u64>|
                vs2.len() == 0 && starts_at(s@, i as int, enc_u64s(vs2)) implies vs2 == out@ by {
                assert(vs2 =~= out@);
            }
        }
        return Some((out, i));
    }
    let first = parse_u64(s, i);
    match first {
        None => {
            proof {
                assert forall|vs2: Seq<u64>| vs2.len() == n implies !starts_at(
                    s@,
                    i as int,
                    enc_u64s(vs2),
                ) by {
                    if starts_at(s@, i as int, enc_u64s(vs2)) {
                        lemma_starts_at_concat(s@, i as int, enc_u64(vs2[0]), enc_u64s(vs2.drop_first()));
                    }
                }
            }
            None
        },
        Some((v, j)) => {
            let rest = parse_u64s(s, j, n - 1);
            match rest {
                None => {
                    proof {
                        assert forall|vs2: Seq<u64>| vs2.len() == n implies !starts_at(
                            s@,
                            i as int,
                            enc_u64s(vs2),
                        ) by {
                            if starts_at(s@, i as int, enc_u64s(vs2)) {
                                lemma_starts_at_concat(
                                    s@,
                                    i as int,
                                    enc_u64(vs2[0]),
                                    enc_u64s(vs2.drop_first()),
                                );
                            }
                        }
                    }
                    None
                },
                Some((mut out, e)) => {
                    let ghost prior = out@;
                    out.insert(0, v);
                    proof {
                        assert(out@[0] == v);
                        assert(out@.drop_first() =~= prior);
                        assert(enc_u64s(out@) == enc_u64(v) + enc_u64s(out@.drop_first()));
                        lemma_starts_at_concat(s@, i as int, enc_u64(v), enc_u64s(out@.drop_first()));
                        assert forall|vs2: Seq<u64>|
                            vs2.len() == n && starts_at(s@, i as int, enc_u64s(vs2)) implies vs2
                            == out@ by {
                            lemma_starts_at_concat(
                                s@,
                                i as int,
                                enc_u64(vs2[0]),
                                enc_u64s(vs2.drop_first()),
                            );
                            assert(vs2[0] == v);
                            assert(vs2.drop_first() == out@.drop_first());
                            assert(vs2 =~= out@);
                        }
                    }
                    Some((out, e))
                },
            }
        },
    }
}

/// Reads a block of exactly `n` length-prefixed byte strings beginning at `i`.
pub fn parse_bytess(s: &Vec<u8>, i: usize, n: usize) -> (r: Option<(Vec<Vec<u8>>, usize)>)
    requires
        i <= s.len(),
    ensures
        match r {
            Some(p) => {
                &&& p.0@.len() == n
                &&& p.1 == i + enc_bytess(bss_view(p.0@)).len()
                &&& p.1 <= s.len()
                &&& starts_at(s@, i as int, enc_bytess(bss_view(p.0@)))
                &&& forall|bs2: Seq<Seq<u8>>|
                    bs2.len() == n && starts_at(s@, i as int, enc_bytess(bs2)) ==> bs2 == bss_view(
                        p.0@,
                    )
            },
            None => forall|bs2: Seq<Seq<u8>>|
                bs2.len() == n ==> !starts_at(s@, i as int, enc_bytess(bs2)),
        },
    decreases n,
{
    if n == 0 {
        let out: Vec<Vec<u8>> = Vec::new();
        proof {
            assert(bss_view(out@) =~= Seq::<Seq<u8>>::empty());
            assert(enc_bytess(bss_view(out@)) =~= Seq::<u8>::empty());
            assert(s@.subrange(i as int, i as int) =~= Seq::<u8>::empty());
            assert forall|bs2: Seq<Seq<u8>>|
                bs2.len() == 0 && starts_at(s@, i as int, enc_bytess(bs2)) implies bs2 == bss_view(
                out@,
            ) by {
                assert(bs2 =~= bss_view(out@));
            }
        }
        return Some((out, i));
    }
    let first = parse_bytes(s, i);
    match first {
        None => {
            proof {
                assert forall|bs2: Seq<Seq<u8>>| bs2.len() == n implies !starts_at(
                    s@,
                    i as int,
                    enc_bytess(bs2),
                ) by {
                    if starts_at(s@, i as int, enc_bytess(bs2)) {
                        lemma_starts_at_concat(
                            s@,
                            i as int,
                            enc_bytes(bs2[0]),
                            enc_bytess(bs2.drop_first()),
                        );
                    }
                }
            }
            None
        },
        Some((b, j)) => {
            let rest = parse_bytess(s, j, n - 1);
            match rest {
                None => {
                    proof {
                        assert forall|bs2: Seq<Seq<u8>>| bs2.len() == n implies !starts_at(
                            s@,
                            i as int,
                            enc_bytess(bs2),
                        ) by {
                            if starts_at(s@, i as int, enc_bytess(bs2)) {
                                lemma_starts_at_concat(
                                    s@,
                                    i as int,
                                    enc_bytes(bs2[0]),
                                    enc_bytess(bs2.drop_first()),
                                );
                                assert(bs2[0] == b@);
                            }
                        }
                    }
                    None
                },
                Some((mut out, e)) => {
                    let ghost bv = b@;
                    let ghost prior = bss_view(out@);
                    out.insert(0, b);
                    proof {
                        assert(bss_view(out@).drop_first() =~= prior);
                        assert(bss_view(out@)[0] == bv);
                        assert(enc_bytess(bss_view(out@)) == enc_bytes(bv) + enc_bytess(
                            bss_view(out@).drop_first(),
                        ));
                        lemma_starts_at_concat(
                            s@,
                            i as int,
                            enc_bytes(bv),
                            enc_bytess(bss_view(out@).drop_first()),
                        );
                        assert forall|bs2: Seq<Seq<u8>>|
                            bs2.len() == n && starts_at(s@, i as int, enc_bytess(bs2)) implies bs2
                            == bss_view(out@) by {
                            lemma_starts_at_concat(
                                s@,
                                i as int,
                                enc_bytes(bs2[0]),
                                enc_bytess(bs2.drop_first()),
                            );
                            assert(bs2[0] == bv);
                            assert(bs2.drop_first() == bss_view(out@).drop_first());
                            assert forall|t: int| 0 <= t < bs2.len() implies bs2[t] == bss_view(
                                out@,
                            )[t] by {
                                if t > 0 {
                                    assert(bs2.drop_first()[t - 1] == bs2[t]);
                                    assert(bss_view(out@).drop_first()[t - 1] == bss_view(out@)[t]);
                                }
                            }
                            assert(bs2 =~= bss_view(out@));
                        }
                    }
                    Some((out, e))
                },
            }
        },
    }
}

/// A level shifted into the non-negative range, so that it can be written as
/// an unsigned fixed-width number.
pub open spec fn off32(v: i32) -> u64 {
    ((v as int) + 0x8000_0000) as u64
}

/// Zero or one, for a flag.
pub open spec fn bool64(b: bool) -> u64 {
    if b {
        1
    } else {
        0
    }
}

/// The scalar fields of one file record, in schema order.
pub open spec fn scalars_of(m: FileMetadataView) -> Seq<u64> {
    seq![
        off32(m.level),
        m.file_number,
        m.temperature as u64,
        m.smallest_seqno,
        m.largest_seqno,
        m.num_entries,
        m.num_deletions,
        m.num_reads_sampled,
        bool64(m.being_compacted),
        m.file_creation_time,
        m.oldest_ancester_time,
    ]
}

/// The byte-string fields of one file record, in schema order.
pub open spec fn strs_of(m: FileMetadataView) -> Seq<Seq<u8>> {
    seq![
        m.column_family_name,
        m.relative_filename,
        m.name,
        m.directory,
        m.smallestkey,
        m.largestkey,
        m.file_checksum,
        m.file_checksum_func_name,
    ]
}

/// One file record's textual form: its scalar block, then its byte-string
/// block.
pub open spec fn enc_file(m: FileMetadataView) -> Seq<u8> {
    enc_u64s(scalars_of(m)) + enc_bytess(strs_of(m))
}

/// A file record's textual form is never shorter than its scalar block.
pub proof fn lemma_enc_file_len(m: FileMetadataView)
    ensures
        enc_file(m).len() >= 220,
{
    lemma_enc_u64s_len(scalars_of(m));
}

/// Writes one file record.
pub fn emit_file(out: &mut Vec<u8>, f: &FileMetadata)
    ensures
        final(out)@ == old(out)@ + enc_file(f@),
{
    let ghost start = out@;
    let level_off: u64 = ((f.level as i64) + 0x8000_0000i64) as u64;
    let compacted: u64 = if f.being_compacted {
        1
    } else {
        0
    };
    let scalars: Vec<u64> = vec![
        level_off,
        f.file_number,
        f.temperature as u64,
        f.smallest_seqno,
        f.largest_seqno,
        f.num_entries,
        f.num_deletions,
        f.num_reads_sampled,
        compacted,
        f.file_creation_time,
        f.oldest_ancester_time,
    ];
    proof {
        assert(scalars@ =~= scalars_of(f@));
    }
    emit_u64s(out, &scalars);
    let strs: Vec<Vec<u8>> = vec![
        copy_bytes(&f.column_family_name),
        copy_bytes(&f.relative_filename),
        copy_bytes(&f.name),
        copy_bytes(&f.directory),
        copy_bytes(&f.smallestkey),
        copy_bytes(&f.largestkey),
        copy_bytes(&f.file_checksum),
        copy_bytes(&f.file_checksum_func_name),
    ];
    proof {
        assert(bss_view(strs@) =~= strs_of(f@));
    }
    emit_bytess(out, &strs);
    proof {
        assert(out@ =~= start + enc_file(f@));
    }
}

/// Reads one file record beginning at `i`.
#[verifier::rlimit(50)]
pub fn parse_file(s: &Vec<u8>, i: usize) -> (r: Option<(FileMetadata, usize)>)
    requires
        i <= s.len(),
    ensures
        match r {
            Some(p) => {
                &&& starts_at(s@, i as int, enc_file(p.0@))
                &&& p.1 == i + enc_file(p.0@).len()
                &&& p.1 <= s.len()
                &&& forall|m2: FileMetadataView|
                    starts_at(s@, i as int, enc_file(m2)) ==> m2 == p.0@
            },
            None => forall|m2: FileMetadataView| !starts_at(s@, i as int, enc_file(m2)),
        },
{
    let scal = parse_u64s(s, i, 11);
    let (vs, j) = match scal {
        None => {
            proof {
                assert forall|m2: FileMetadataView| !starts_at(s@, i as int, enc_file(m2)) by {
                    if starts_at(s@, i as int, enc_file(m2)) {
                        lemma_starts_at_concat(
                            s@,
                            i as int,
                            enc_u64s(scalars_of(m2)),
                            enc_bytess(strs_of(m2)),
                        );
                    }
                }
            }
            return None;
        },
        Some(p) => p,
    };
    let strb = parse_bytess(s, j, 8);
    let (bs, e) = match strb {
        None => {
            proof {
                assert forall|m2: FileMetadataView| !starts_at(s@, i as int, enc_file(m2)) by {
                    if starts_at(s@, i as int, enc_file(m2)) {
                        lemma_starts_at_concat(
                            s@,
                            i as int,
                            enc_u64s(scalars_of(m2)),
                            enc_bytess(strs_of(m2)),
                        );
                        lemma_enc_u64s_len(scalars_of(m2));
                        assert(scalars_of(m2) == vs@);
                    }
                }
            }
            return None;
        },
        Some(p) => p,
    };
    proof {
        lemma_enc_u64s_len(vs@);
    }
    let v0 = vs[0];
    let v2 = vs[2];
    let v8 = vs[8];
    if v0 >= 0x1_0000_0000 || v2 >= 256 || v8 >= 2 {
        proof {
            assert forall|m2: FileMetadataView| !starts_at(s@, i as int, enc_file(m2)) by {
                if starts_at(s@, i as int, enc_file(m2)) {
                    lemma_starts_at_concat(
                        s@,
                        i as int,
                        enc_u64s(scalars_of(m2)),
                        enc_bytess(strs_of(m2)),
                    );
                    assert(scalars_of(m2) == vs@);
                    assert(vs@[0] == off32(m2.level) && vs@[2] == m2.temperature as u64 && vs@[8]
                        == bool64(m2.being_compacted));
                }
            }
        }
        return None;
    }
    let fm = FileMetadata {
        column_family_name: copy_bytes(&bs[0]),
        level: (((v0 as i64) - 0x8000_0000i64) as i32),
        file_number: vs[1],
        relative_filename: copy_bytes(&bs[1]),
        name: copy_bytes(&bs[2]),
        directory: copy_bytes(&bs[3]),
        temperature: v2 as u8,
        smallest_seqno: vs[3],
        largest_seqno: vs[4],
        smallestkey: copy_bytes(&bs[4]),
        largestkey: copy_bytes(&bs[5]),
        num_entries: vs[5],
        num_deletions: vs[6],
        num_reads_sampled: vs[7],
        being_compacted: v8 == 1,
        file_creation_time: vs[9],
        oldest_ancester_time: vs[10],
        file_checksum: copy_bytes(&bs[6]),
        file_checksum_func_name: copy_bytes(&bs[7]),
    };
    proof {
        assert(scalars_of(fm@) =~= vs@);
        assert(strs_of(fm@) =~= bss_view(bs@));
        assert(enc_file(fm@) == enc_u64s(vs@) + enc_bytess(bss_view(bs@)));
        lemma_starts_at_concat(s@, i as int, enc_u64s(vs@), enc_bytess(bss_view(bs@)));
        assert(starts_at(s@, i as int, enc_file(fm@)));
        assert forall|m2: FileMetadataView| starts_at(s@, i as int, enc_file(m2)) implies m2
            == fm@ by {
            lemma_starts_at_concat(
                s@,
                i as int,
                enc_u64s(scalars_of(m2)),
                enc_bytess(strs_of(m2)),
            );
            lemma_enc_u64s_len(scalars_of(m2));
            assert(scalars_of(m2) == vs@);
            assert(strs_of(m2) == bss_view(bs@));
            assert(off32(m2.level) == vs@[0] && off32(fm@.level) == vs@[0]);
            assert(m2.temperature as u64 == vs@[2] && fm@.temperature as u64 == vs@[2]);
            assert(bool64(m2.being_compacted) == vs@[8] && bool64(fm@.being_compacted) == vs@[8]);
            assert(m2.column_family_name == strs_of(m2)[0]);
            assert(m2 =~= fm@);
        }
    }
    Some((fm, e))
}

/// A list of file records, one after the other.
pub open spec fn enc_files(fs: Seq<FileMetadataView>) -> Seq<u8>
    decreases fs.len(),
{
    if fs.len() == 0 {
        Seq::empty()
    } else {
        enc_file(fs[0]) + enc_files(fs.drop_first())
    }
}

/// A file list's textual form is at least as long as the list.
pub proof fn lemma_enc_files_len_ge(fs: Seq<FileMetadataView>)
    ensures
        enc_files(fs).len() >= fs.len(),
    decreases fs.len(),
{
    if fs.len() > 0 {
        lemma_enc_file_len(fs[0]);
        lemma_enc_files_len_ge(fs.drop_first());
    }
}

/// Appending one record to a file list appends its text to the list's text.
pub proof fn lemma_enc_files_snoc(fs: Seq<FileMetadataView>, x: FileMetadataView)
    ensures
        enc_files(fs.push(x)) == enc_files(fs) + enc_file(x),
    decreases fs.len(),
{
    if fs.len() == 0 {
        assert(fs.push(x)[0] == x);
        assert(fs.push(x).drop_first() =~= Seq::<FileMetadataView>::empty());
        assert(enc_files(fs.push(x)) == enc_file(x) + enc_files(Seq::<FileMetadataView>::empty()));
        assert(enc_files(fs.push(x)) =~= enc_files(fs) + enc_file(x));
    } else {
        assert(fs.push(x)[0] == fs[0]);
        assert(fs.push(x).drop_first() =~= fs.drop_first().push(x));
        lemma_enc_files_snoc(fs.drop_first(), x);
        assert(enc_files(fs.push(x)) == enc_file(fs[0]) + (enc_files(fs.drop_first()) + enc_file(
            x,
        )));
        assert(enc_files(fs.push(x)) =~= enc_files(fs) + enc_file(x));
    }
}

/// Reads a list of exactly `n` file records beginning at `i`.
pub fn parse_files(s: &Vec<u8>, i: usize, n: u64) -> (r: Option<(Vec<FileMetadata>, usize)>)
    requires
        i <= s.len(),
    ensures
        match r {
            Some(p) => {
                &&& files_view(p.0@).len() == n
                &&& p.1 == i + enc_files(files_view(p.0@)).len()
                &&& p.1 <= s.len()
                &&& starts_at(s@, i as int, enc_files(files_view(p.0@)))
                &&& forall|fs2: Seq<FileMetadataView>|
                    fs2.len() == n && starts_at(s@, i as int, enc_files(fs2)) ==> fs2 == files_view(
                        p.0@,
                    )
            },
            None => forall|fs2: Seq<FileMetadataView>|
                fs2.len() == n ==> !starts_at(s@, i as int, enc_files(fs2)),
        },
    decreases n,
{
    if n == 0 {
        let out: Vec<FileMetadata> = Vec::new();
        proof {
            assert(files_view(out@) =~= Seq::<FileMetadataView>::empty());
            assert(enc_files(files_view(out@)) =~= Seq::<u8>::empty());
            assert(s@.subrange(i as int, i as int) =~= Seq::<u8>::empty());
            assert forall|fs2: Seq<FileMetadataView>|
                fs2.len() == 0 && starts_at(s@, i as int, enc_files(fs2)) implies fs2 == files_view(
                out@,
            ) by {
                assert(fs2 =~= files_view(out@));
            }
        }
        return Some((out, i));
    }
    let first = parse_file(s, i);
    match first {
        None => {
            proof {
                assert forall|fs2: Seq<FileMetadataView>| fs2.len() == n implies !starts_at(
                    s@,
                    i as int,
                    enc_files(fs2),
                ) by {
                    if starts_at(s@, i as int, enc_files(fs2)) {
                        lemma_starts_at_concat(
                            s@,
                            i as int,
                            enc_file(fs2[0]),
                            enc_files(fs2.drop_first()),
                        );
                    }
                }
            }
            None
        },
        Some((fm, j)) => {
            let rest = parse_files(s, j, n - 1);
            match rest {
                None => {
                    proof {
                        assert forall|fs2: Seq<FileMetadataView>| fs2.len() == n implies !starts_at(
                            s@,
                            i as int,
                            enc_files(fs2),
                        ) by {
                            if starts_at(s@, i as int, enc_files(fs2)) {
                                lemma_starts_at_concat(
                                    s@,
                                    i as int,
                                    enc_file(fs2[0]),
                                    enc_files(fs2.drop_first()),
                                );
                                assert(fs2[0] == fm@);
                            }
                        }
                    }
                    None
                },
                Some((mut out, e)) => {
                    let ghost fv = fm@;
                    let ghost prior = files_view(out@);
                    out.insert(0, fm);
                    proof {
                        assert(files_view(out@).drop_first() =~= prior);
                        assert(files_view(out@)[0] == fv);
                        assert(enc_files(files_view(out@)) == enc_file(fv) + enc_files(
                            files_view(out@).drop_first(),
                        ));
                        lemma_starts_at_concat(
                            s@,
                            i as int,
                            enc_file(fv),
                            enc_files(files_view(out@).drop_first()),
                        );
                        assert forall|fs2: Seq<FileMetadataView>|
                            fs2.len() == n && starts_at(s@, i as int, enc_files(fs2)) implies fs2
                            == files_view(out@) by {
                            lemma_starts_at_concat(
                                s@,
                                i as int,
                                enc_file(fs2[0]),
                                enc_files(fs2.drop_first()),
                            );
                            assert(fs2[0] == fv);
                            assert(fs2.drop_first() == files_view(out@).drop_first());
                            assert forall|t: int| 0 <= t < fs2.len() implies fs2[t] == files_view(
                                out@,
                            )[t] by {
                                if t > 0 {
                                    assert(fs2.drop_first()[t - 1] == fs2[t]);
                                    assert(files_view(out@).drop_first()[t - 1] == files_view(
                                        out@,
                                    )[t]);
                                }
                            }
                            assert(fs2 =~= files_view(out@));
                        }
                    }
                    Some((out, e))
                },
            }
        },
    }
}

/// A bundle's textual form: the comparator name, the file count, and the file
/// records in order.
pub open spec fn enc_bundle(m: MetaDataView) -> Seq<u8> {
    enc_bytes(m.db_comparator_name) + (enc_u64(m.files.len() as u64) + enc_files(m.files))
}

impl ExportImportFilesMetaData {
    /// Serializes the bundle to its deterministic textual form.
    pub fn encode(&self) -> (out: Vec<u8>)
        ensures
            out@ == enc_bundle(self@),
    {
        let mut out: Vec<u8> = Vec::new();
        emit_bytes(&mut out, &self.db_comparator_name);
        emit_u64(&mut out, self.files.len() as u64);
        let ghost prefix = enc_bytes(self@.db_comparator_name) + enc_u64(
            self@.files.len() as u64,
        );
        proof {
            assert(out@ =~= prefix + enc_files(files_view(self.files@.subrange(0, 0))));
        }
        let mut k: usize = 0;
        while k < self.files.len()
            invariant
                k <= self.files.len(),
                out@ == prefix + enc_files(files_view(self.files@.subrange(0, k as int))),
            decreases self.files.len() - k,
        {
            emit_file(&mut out, &self.files[k]);
            proof {
                assert(files_view(self.files@.subrange(0, k + 1)) =~= files_view(
                    self.files@.subrange(0, k as int),
                ).push(self.files@[k as int]@));
                lemma_enc_files_snoc(
                    files_view(self.files@.subrange(0, k as int)),
                    self.files@[k as int]@,
                );
                assert(out@ =~= prefix + enc_files(files_view(self.files@.subrange(0, k + 1))));
            }
            k = k + 1;
        }
        proof {
            assert(self.files@.subrange(0, self.files@.len() as int) =~= self.files@);
            assert(out@ =~= enc_bundle(self@));
        }
        out
    }

    /// Parses a bundle from its textual form.
    ///
    /// Exactly the strings produced by [`Self::encode`] are accepted, and the
    /// bundle is recovered field for field: together with `encode`'s
    /// postcondition this is the round-trip law for the codec.
    #[verifier::rlimit(50)]
    pub fn decode(s: &Vec<u8>) -> (r: Result<ExportImportFilesMetaData, Error>)
        ensures
            match r {
                Ok(md) => {
                    &&& s@ == enc_bundle(md@)
                    &&& forall|m2: MetaDataView| s@ == enc_bundle(m2) ==> m2 == md@
                },
                Err(e) => {
                    &&& e == Error::Malformed
                    &&& forall|m2: MetaDataView| s@ != enc_bundle(m2)
                },
            },
    {
        let total = s.len();
        proof {
            assert(s@.subrange(0, s@.len() as int) =~= s@);
        }
        let comp = parse_bytes(s, 0);
        let (comparator, j1) = match comp {
            None => {
                proof {
                    assert forall|m2: MetaDataView| s@ != enc_bundle(m2) by {
                        if s@ == enc_bundle(m2) {
                            assert(starts_at(s@, 0, enc_bundle(m2)));
                            lemma_starts_at_concat(
                                s@,
                                0,
                                enc_bytes(m2.db_comparator_name),
                                enc_u64(m2.files.len() as u64) + enc_files(m2.files),
                            );
                        }
                    }
                }
                return Err(Error::Malformed);
            },
            Some(p) => p,
        };
        let cnt = parse_u64(s, j1);
        let (n, j2) = match cnt {
            None => {
                proof {
                    assert forall|m2: MetaDataView| s@ != enc_bundle(m2) by {
                        if s@ == enc_bundle(m2) {
                            assert(starts_at(s@, 0, enc_bundle(m2)));
                            lemma_starts_at_concat(
                                s@,
                                0,
                                enc_bytes(m2.db_comparator_name),
                                enc_u64(m2.files.len() as u64) + enc_files(m2.files),
                            );
                            lemma_starts_at_concat(
                                s@,
                                enc_bytes(m2.db_comparator_name).len() as int,
                                enc_u64(m2.files.len() as u64),
                                enc_files(m2.files),
                            );
                            assert(m2.db_comparator_name == comparator@);
                        }
                    }
                }
                return Err(Error::Malformed);
            },
            Some(p) => p,
        };
        let parsed = parse_files(s, j2, n);
        let (files, j3) = match parsed {
            None => {
                proof {
                    assert forall|m2: MetaDataView| s@ != enc_bundle(m2) by {
                        if s@ == enc_bundle(m2) {
                            assert(starts_at(s@, 0, enc_bundle(m2)));
                            lemma_starts_at_concat(
                                s@,
                                0,
                                enc_bytes(m2.db_comparator_name),
                                enc_u64(m2.files.len() as u64) + enc_files(m2.files),
                            );
                            lemma_starts_at_concat(
                                s@,
                                enc_bytes(m2.db_comparator_name).len() as int,
                                enc_u64(m2.files.len() as u64),
                                enc_files(m2.files),
                            );
                            assert(m2.db_comparator_name == comparator@);
                            assert(n == m2.files.len() as u64);
                            lemma_enc_files_len_ge(m2.files);
                            assert(m2.files.len() <= s@.len());
                            assert(s@.len() == total as nat);
                            assert(m2.files.len() == n as nat);
                        }
                    }
                }
                return Err(Error::Malformed);
            },
            Some(p) => p,
        };
        if j3 != total {
            proof {
                assert forall|m2: MetaDataView| s@ != enc_bundle(m2) by {
                    if s@ == enc_bundle(m2) {
                        assert(starts_at(s@, 0, enc_bundle(m2)));
                        lemma_starts_at_concat(
                            s@,
                            0,
                            enc_bytes(m2.db_comparator_name),
                            enc_u64(m2.files.len() as u64) + enc_files(m2.files),
                        );
                        lemma_starts_at_concat(
                            s@,
                            enc_bytes(m2.db_comparator_name).len() as int,
                            enc_u64(m2.files.len() as u64),
                            enc_files(m2.files),
                        );
                        assert(m2.db_comparator_name == comparator@);
                        assert(n == m2.files.len() as u64);
                        lemma_enc_files_len_ge(m2.files);
                        assert(m2.files.len() == n as nat);
                        assert(m2.files == files_view(files@));
                        assert(s@.len() == enc_bundle(m2).len());
                        assert(j3 == total);
                    }
                }
            }
            return Err(Error::Malformed);
        }
        let md = ExportImportFilesMetaData { db_comparator_name: comparator, files };
        proof {
            assert(md@.files == files_view(files@));
            assert(enc_bundle(md@) == enc_bytes(comparator@) + (enc_u64(n) + enc_files(
                files_view(files@),
            ))) by {
                assert(md@.files.len() == files_view(files@).len());
            }
            lemma_starts_at_concat(
                s@,
                enc_bytes(comparator@).len() as int,
                enc_u64(n),
                enc_files(files_view(files@)),
            );
            lemma_starts_at_concat(
                s@,
                0,
                enc_bytes(comparator@),
                enc_u64(n) + enc_files(files_view(files@)),
            );
            assert(starts_at(s@, 0, enc_bundle(md@)));
            assert(s@ == enc_bundle(md@)) by {
                assert(s@.subrange(0, enc_bundle(md@).len() as int) =~= s@);
            }
            assert forall|m2: MetaDataView| s@ == enc_bundle(m2) implies m2 == md@ by {
                assert(starts_at(s@, 0, enc_bundle(m2)));
                lemma_starts_at_concat(
                    s@,
                    0,
                    enc_bytes(m2.db_comparator_name),
                    enc_u64(m2.files.len() as u64) + enc_files(m2.files),
                );
                lemma_starts_at_concat(
                    s@,
                    enc_bytes(m2.db_comparator_name).len() as int,
                    enc_u64(m2.files.len() as u64),
                    enc_files(m2.files),
                );
                assert(m2.db_comparator_name == comparator@);
                assert(n == m2.files.len() as u64);
                lemma_enc_files_len_ge(m2.files);
                assert(m2.files.len() == n as nat);
                assert(m2.files == files_view(files@));
                assert(m2 =~= md@);
            }
        }
        Ok(md)
    }
}

} // verus!
