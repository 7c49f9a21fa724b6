//! Byte-level primitives of the wire codec: canonical decimal numbers and
//! escaped strings, with exact characterizations of what the parsers accept.
//!
//! Every payload on the bus is a JSON text produced by this module's
//! encoders; the parsers accept exactly those canonical texts, so decoding
//! is a partial inverse of encoding.
use vstd::prelude::*;

verus! {

/// Largest value (exclusive) a number on the wire may hold: fifteen decimal
/// digits.
pub const NUM_LIMIT: u64 = 1_000_000_000_000_000;

pub open spec fn is_digit(b: u8) -> bool {
    48 <= b <= 57
}

/// Canonical decimal digit bytes of `n`, most significant first, no leading
/// zeros (`0` encodes as the single byte `"0"`).
pub open spec fn dec_digits(n: nat) -> Seq<u8>
    decreases n,
{
    if n < 10 {
        seq![(48 + n) as u8]
    } else {
        dec_digits(n / 10).push((48 + n % 10) as u8)
    }
}

/// Canonical signed decimal: a minus sign for negative values, then the
/// digits of the magnitude.
pub open spec fn enc_int(v: int) -> Seq<u8> {
    if v < 0 {
        seq![45u8] + dec_digits((-v) as nat)
    } else {
        dec_digits(v as nat)
    }
}

pub open spec fn pow10(k: nat) -> nat
    decreases k,
{
    if k == 0 {
        1
    } else {
        10 * pow10((k - 1) as nat)
    }
}

pub proof fn lemma_pow10_15()
    ensures
        pow10(15) == NUM_LIMIT,
        pow10(15) == 10 * pow10(14),
{
    reveal_with_fuel(pow10, 16);
}

pub proof fn lemma_pow10_mono(a: nat, b: nat)
    requires
        a <= b,
    ensures
        pow10(a) <= pow10(b),
    decreases b,
{
    if a < b {
        lemma_pow10_mono(a, (b - 1) as nat);
    }
}

/// Basic shape of the canonical digit string: non-empty, all digits, no
/// leading zero for positive values, and the value is bounded by a power of
/// ten at its length.
pub proof fn lemma_dec_digits_props(n: nat)
    ensures
        1 <= dec_digits(n).len(),
        forall|i: int|
            0 <= i < dec_digits(n).len() ==> is_digit(#[trigger] dec_digits(n)[i]),
        n > 0 ==> dec_digits(n)[0] != 48,
        n == 0 ==> dec_digits(n) == seq![48u8],
        n < pow10(dec_digits(n).len()),
    decreases n,
{
    if n < 10 {
        assert(pow10(1) == 10) by {
            reveal_with_fuel(pow10, 2);
        }
    } else {
        lemma_dec_digits_props(n / 10);
        let d = dec_digits(n / 10);
        assert(dec_digits(n) == d.push((48 + n % 10) as u8));
        assert(n / 10 >= 1);
        assert(dec_digits(n)[0] == d[0]);
        assert(n < 10 * pow10(d.len())) by {
            assert(n / 10 < pow10(d.len()));
            assert(n == 10 * (n / 10) + n % 10) by (nonlinear_arith);
            assert(10 * (n / 10) < 10 * pow10(d.len())) by (nonlinear_arith)
                requires
                    n / 10 < pow10(d.len()),
            ;
            assert(n % 10 < 10) by (nonlinear_arith);
            assert(10 * (n / 10) + 10 <= 10 * pow10(d.len())) by (nonlinear_arith)
                requires
                    n / 10 < pow10(d.len()),
            ;
        }
        assert(pow10(dec_digits(n).len()) == 10 * pow10(d.len()));
    }
}

/// A value under `pow10(k)` needs at most `k` digits.
pub proof fn lemma_dec_digits_len_bound(n: nat, k: nat)
    requires
        n < pow10(k),
        k >= 1,
    ensures
        dec_digits(n).len() <= k,
    decreases n,
{
    if n < 10 {
    } else {
        assert(k >= 2) by {
            if k == 1 {
                assert(pow10(1) == 10) by {
                    reveal_with_fuel(pow10, 2);
                }
            }
        }
        assert(n / 10 < pow10((k - 1) as nat)) by (nonlinear_arith)
            requires
                n < pow10(k),
                pow10(k) == 10 * pow10((k - 1) as nat),
        ;
        lemma_dec_digits_len_bound(n / 10, (k - 1) as nat);
    }
}

/// The canonical digit string determines the value.
pub proof fn lemma_dec_digits_inj(a: nat, b: nat)
    requires
        dec_digits(a) == dec_digits(b),
    ensures
        a == b,
    decreases a,
{
    lemma_dec_digits_props(a);
    lemma_dec_digits_props(b);
    if a < 10 && b < 10 {
        assert(dec_digits(a)[0] == (48 + a) as u8);
        assert(dec_digits(b)[0] == (48 + b) as u8);
    } else if a >= 10 && b >= 10 {
        let da = dec_digits(a / 10);
        let db = dec_digits(b / 10);
        assert(da.push((48 + a % 10) as u8) == db.push((48 + b % 10) as u8));
        assert(da.len() == db.len());
        assert(da == db) by {
            assert forall|i: int| 0 <= i < da.len() implies da[i] == db[i] by {
                assert(da.push((48 + a % 10) as u8)[i] == db.push((48 + b % 10) as u8)[i]);
            }
            assert(da =~= db);
        }
        lemma_dec_digits_inj(a / 10, b / 10);
        assert(da.push((48 + a % 10) as u8).last() == db.push((48 + b % 10) as u8).last());
        assert(a % 10 == b % 10);
        assert(a == 10 * (a / 10) + a % 10) by (nonlinear_arith);
        assert(b == 10 * (b / 10) + b % 10) by (nonlinear_arith);
    } else if a < 10 {
        assert(dec_digits(b).len() >= 2) by {
            lemma_dec_digits_props(b / 10);
        }
    } else {
        assert(dec_digits(a).len() >= 2) by {
            lemma_dec_digits_props(a / 10);
        }
    }
}

/// Maximal-munch determinism: two canonical digit strings followed by
/// non-digit (or empty) remainders can only split one way.
pub proof fn lemma_digits_prefix(a: nat, b: nat, r1: Seq<u8>, r2: Seq<u8>)
    requires
        dec_digits(a) + r1 == dec_digits(b) + r2,
        r1.len() == 0 || !is_digit(r1[0]),
        r2.len() == 0 || !is_digit(r2[0]),
    ensures
        a == b,
        r1 == r2,
{
    lemma_dec_digits_props(a);
    lemma_dec_digits_props(b);
    let da = dec_digits(a);
    let db = dec_digits(b);
    let s = da + r1;
    if da.len() < db.len() {
        assert(r1.len() > 0);
        assert(r1[0] == s[da.len() as int]);
        assert(s[da.len() as int] == db[da.len() as int]);
        assert(false);
    } else if db.len() < da.len() {
        assert(r2.len() > 0);
        assert(r2[0] == (db + r2)[db.len() as int]);
        assert((db + r2)[db.len() as int] == da[db.len() as int]);
        assert(false);
    } else {
        assert(da =~= db) by {
            assert forall|i: int| 0 <= i < da.len() implies da[i] == db[i] by {
                assert(s[i] == da[i]);
                assert((db + r2)[i] == db[i]);
            }
        }
        lemma_dec_digits_inj(a, b);
        assert(r1.len() == r2.len()) by {
            assert((da + r1).len() == (db + r2).len());
        }
        assert(r1 =~= r2) by {
            assert forall|i: int| 0 <= i < r1.len() implies r1[i] == r2[i] by {
                assert(s[da.len() + i] == r1[i]);
                assert((db + r2)[db.len() + i] == r2[i]);
            }
        }
    }
}

/// What it means for the canonical digits of `v` to sit in `s` at
/// `pos..end`, maximally (no digit follows).
pub open spec fn num_at(s: Seq<u8>, pos: int, v: u64, end: int) -> bool {
    &&& v < NUM_LIMIT
    &&& 0 <= pos
    &&& end == pos + dec_digits(v as nat).len()
    &&& end <= s.len()
    &&& s.subrange(pos, end) == dec_digits(v as nat)
    &&& (end == s.len() || !is_digit(s[end]))
}

/// There is at most one way to read a maximal canonical number at `pos`.
pub proof fn lemma_num_at_unique(s: Seq<u8>, pos: int, v1: u64, e1: int, v2: u64, e2: int)
    requires
        num_at(s, pos, v1, e1),
        num_at(s, pos, v2, e2),
    ensures
        v1 == v2,
        e1 == e2,
{
    let tail1 = s.subrange(e1, s.len() as int);
    let tail2 = s.subrange(e2, s.len() as int);
    assert(dec_digits(v1 as nat) + tail1 =~= s.subrange(pos, s.len() as int));
    assert(dec_digits(v2 as nat) + tail2 =~= s.subrange(pos, s.len() as int));
    lemma_digits_prefix(v1 as nat, v2 as nat, tail1, tail2);
}

/// Reads a canonical decimal number at `pos`: digits without a leading
/// zero, at most fourteen of them after the first, not followed by another
/// digit. Returns exactly the one reading that exists, if any.
pub fn parse_num(b: &[u8], pos: usize) -> (r: Option<(u64, usize)>)
    requires
        pos <= b@.len(),
    ensures
        match r {
            Some(p) => num_at(b@, pos as int, p.0, p.1 as int) && pos < p.1 <= b@.len(),
            None => forall|v: u64, end: int| !num_at(b@, pos as int, v, end),
        },
{
    let n = b.len();
    if pos == n || !(48 <= b[pos] && b[pos] <= 57) {
        proof {
            assert forall|v: u64, end: int| !num_at(b@, pos as int, v, end) by {
                if num_at(b@, pos as int, v, end) {
                    lemma_dec_digits_props(v as nat);
                    assert(b@.subrange(pos as int, end)[0] == b@[pos as int]);
                }
            }
        }
        return None;
    }
    if b[pos] == 48 {
        if pos + 1 < n && 48 <= b[pos + 1] && b[pos + 1] <= 57 {
            proof {
                assert forall|v: u64, end: int| !num_at(b@, pos as int, v, end) by {
                    if num_at(b@, pos as int, v, end) {
                        lemma_dec_digits_props(v as nat);
                        assert(b@.subrange(pos as int, end)[0] == b@[pos as int]);
                        assert(dec_digits(v as nat)[0] == 48);
                        assert(v == 0);
                        assert(end == pos + 1);
                        assert(is_digit(b@[end]));
                    }
                }
            }
            return None;
        }
        proof {
            assert(b@.subrange(pos as int, pos + 1) =~= dec_digits(0));
        }
        return Some((0, pos + 1));
    }
    let mut acc: u64 = (b[pos] - 48) as u64;
    let mut i: usize = pos + 1;
    proof {
        assert(b@.subrange(pos as int, pos + 1) =~= dec_digits(acc as nat));
        assert(pow10(1) == 10) by {
            reveal_with_fuel(pow10, 2);
        }
    }
    while i < n && 48 <= b[i] && b[i] <= 57
        invariant
            pos < i <= n,
            n == b@.len(),
            i - pos <= 15,
            1 <= acc,
            (acc as nat) < pow10((i - pos) as nat),
            dec_digits(acc as nat).len() == i - pos,
            b@.subrange(pos as int, i as int) == dec_digits(acc as nat),
        decreases n - i,
    {
        if i - pos == 15 {
            proof {
                assert forall|v: u64, end: int| !num_at(b@, pos as int, v, end) by {
                    if num_at(b@, pos as int, v, end) {
                        lemma_pow10_15();
                        lemma_dec_digits_len_bound(v as nat, 15);
                        assert(end <= pos + 15);
                        lemma_dec_digits_props(acc as nat);
                        if end < pos + 15 {
                            assert(b@[end] == b@.subrange(pos as int, i as int)[end - pos]);
                            assert(is_digit(b@[end]));
                        } else {
                            assert(is_digit(b@[end]));
                        }
                    }
                }
            }
            return None;
        }
        let d = (b[i] - 48) as u64;
        proof {
            lemma_pow10_15();
            lemma_pow10_mono((i - pos) as nat, 14);
            assert((acc as nat) < pow10(14));
            assert(acc * 10 + d < NUM_LIMIT) by (nonlinear_arith)
                requires
                    (acc as nat) < pow10(14),
                    pow10(15) == 10 * pow10(14),
                    pow10(15) == NUM_LIMIT,
                    d < 10,
            ;
        }
        let new_acc = acc * 10 + d;
        proof {
            assert(new_acc >= 10) by (nonlinear_arith)
                requires
                    new_acc == acc * 10 + d,
                    acc >= 1,
            ;
            assert(new_acc as nat / 10 == acc as nat && new_acc as nat % 10 == d as nat)
                by (nonlinear_arith)
                requires
                    new_acc == acc * 10 + d,
                    d < 10,
            ;
            assert(dec_digits(new_acc as nat) == dec_digits(acc as nat).push((48 + d) as u8));
            assert(b@.subrange(pos as int, i + 1) =~= dec_digits(acc as nat).push(b@[i as int]));
            assert((new_acc as nat) < pow10((i + 1 - pos) as nat)) by {
                assert(pow10((i + 1 - pos) as nat) == 10 * pow10((i - pos) as nat));
                assert(new_acc < 10 * pow10((i - pos) as nat)) by (nonlinear_arith)
                    requires
                        new_acc == acc * 10 + d,
                        d < 10,
                        (acc as nat) < pow10((i - pos) as nat),
                ;
            }
        }
        acc = new_acc;
        i += 1;
    }
    proof {
        lemma_pow10_15();
        lemma_pow10_mono((i - pos) as nat, 15);
    }
    Some((acc, i))
}


/// What it means for the canonical signed decimal of `v` to sit in `s` at
/// `pos..end`, maximally.
pub open spec fn int_at(s: Seq<u8>, pos: int, v: i64, end: int) -> bool {
    &&& -(NUM_LIMIT as int) < v < NUM_LIMIT as int
    &&& 0 <= pos
    &&& end == pos + enc_int(v as int).len()
    &&& end <= s.len()
    &&& s.subrange(pos, end) == enc_int(v as int)
    &&& (end == s.len() || !is_digit(s[end]))
}

/// There is at most one way to read a maximal canonical signed decimal at
/// `pos`.
pub proof fn lemma_int_at_unique(s: Seq<u8>, pos: int, v1: i64, e1: int, v2: i64, e2: int)
    requires
        int_at(s, pos, v1, e1),
        int_at(s, pos, v2, e2),
    ensures
        v1 == v2,
        e1 == e2,
{
    lemma_dec_digits_props(if v1 < 0 { (-v1) as nat } else { v1 as nat });
    lemma_dec_digits_props(if v2 < 0 { (-v2) as nat } else { v2 as nat });
    assert(s[pos] == enc_int(v1 as int)[0]);
    assert(s[pos] == enc_int(v2 as int)[0]);
    if v1 < 0 && v2 >= 0 {
        assert(enc_int(v1 as int)[0] == 45);
        assert(is_digit(enc_int(v2 as int)[0]));
        assert(false);
    } else if v1 >= 0 && v2 < 0 {
        assert(enc_int(v2 as int)[0] == 45);
        assert(is_digit(enc_int(v1 as int)[0]));
        assert(false);
    } else if v1 >= 0 && v2 >= 0 {
        let tail1 = s.subrange(e1, s.len() as int);
        let tail2 = s.subrange(e2, s.len() as int);
        assert(dec_digits(v1 as nat) + tail1 =~= s.subrange(pos, s.len() as int));
        assert(dec_digits(v2 as nat) + tail2 =~= s.subrange(pos, s.len() as int));
        lemma_digits_prefix(v1 as nat, v2 as nat, tail1, tail2);
    } else {
        let tail1 = s.subrange(e1, s.len() as int);
        let tail2 = s.subrange(e2, s.len() as int);
        assert(s.subrange(pos, e1) == seq![45u8] + dec_digits((-v1) as nat));
        assert(s.subrange(pos, e2) == seq![45u8] + dec_digits((-v2) as nat));
        assert(dec_digits((-v1) as nat) + tail1 =~= s.subrange(pos + 1, s.len() as int)) by {
            assert forall|i: int| 0 <= i < s.len() - pos - 1 implies
                #[trigger] (dec_digits((-v1) as nat) + tail1)[i] == s[pos + 1 + i] by {
                let d1 = dec_digits((-v1) as nat);
                if i < d1.len() {
                    assert((seq![45u8] + d1)[i + 1] == d1[i]);
                    assert(s.subrange(pos, e1)[i + 1] == s[pos + 1 + i]);
                } else {
                    assert(tail1[i - d1.len()] == s[e1 + (i - d1.len())]);
                }
            }
        }
        assert(dec_digits((-v2) as nat) + tail2 =~= s.subrange(pos + 1, s.len() as int)) by {
            assert forall|i: int| 0 <= i < s.len() - pos - 1 implies
                #[trigger] (dec_digits((-v2) as nat) + tail2)[i] == s[pos + 1 + i] by {
                let d2 = dec_digits((-v2) as nat);
                if i < d2.len() {
                    assert((seq![45u8] + d2)[i + 1] == d2[i]);
                    assert(s.subrange(pos, e2)[i + 1] == s[pos + 1 + i]);
                } else {
                    assert(tail2[i - d2.len()] == s[e2 + (i - d2.len())]);
                }
            }
        }
        lemma_digits_prefix((-v1) as nat, (-v2) as nat, tail1, tail2);
    }
}

/// Reads a canonical signed decimal at `pos`: an optional minus sign (never
/// on zero), then canonical digits, not followed by another digit.
pub fn parse_int(b: &[u8], pos: usize) -> (r: Option<(i64, usize)>)
    requires
        pos <= b@.len(),
    ensures
        match r {
            Some(p) => int_at(b@, pos as int, p.0, p.1 as int) && pos < p.1 <= b@.len(),
            None => forall|v: i64, end: int| !int_at(b@, pos as int, v, end),
        },
{
    let n = b.len();
    if pos < n && b[pos] == 45 {
        match parse_num(b, pos + 1) {
            Some((mag, end)) => {
                if mag == 0 {
                    proof {
                        assert forall|v: i64, end2: int| !int_at(b@, pos as int, v, end2) by {
                            if int_at(b@, pos as int, v, end2) {
                                lemma_dec_digits_props(if v < 0 { (-v) as nat } else { v as nat });
                                assert(b@[pos as int] == enc_int(v as int)[0]);
                                assert(v < 0);
                                int_at_gives_num_at(b@, pos as int, v, end2);
                                lemma_num_at_unique(b@, pos + 1, mag, end as int, ((-v) as u64), end2);
                                lemma_dec_digits_props(0nat);
                            }
                        }
                    }
                    None
                } else {
                    let v: i64 = -(mag as i64);
                    proof {
                        assert(b@.subrange(pos as int, end as int) =~= seq![45u8] + dec_digits(
                            mag as nat)) by {
                            assert(b@.subrange(pos + 1, end as int) == dec_digits(mag as nat));
                            assert forall|i: int| 0 <= i < end - pos implies
                                b@.subrange(pos as int, end as int)[i] == (seq![45u8]
                                + dec_digits(mag as nat))[i] by {
                                if i > 0 {
                                    assert(b@.subrange(pos + 1, end as int)[i - 1] == b@[pos + i]);
                                }
                            }
                        }
                    }
                    Some((v, end))
                }
            },
            None => {
                proof {
                    assert forall|v: i64, end: int| !int_at(b@, pos as int, v, end) by {
                        if int_at(b@, pos as int, v, end) {
                            lemma_dec_digits_props(if v < 0 { (-v) as nat } else { v as nat });
                            assert(b@[pos as int] == enc_int(v as int)[0]);
                            assert(v < 0);
                            int_at_gives_num_at(b@, pos as int, v, end);
                        }
                    }
                }
                None
            },
        }
    } else {
        match parse_num(b, pos) {
            Some((mag, end)) => Some((mag as i64, end)),
            None => {
                proof {
                    assert forall|v: i64, end: int| !int_at(b@, pos as int, v, end) by {
                        if int_at(b@, pos as int, v, end) {
                            lemma_dec_digits_props(if v < 0 { (-v) as nat } else { v as nat });
                            let e = enc_int(v as int);
                            assert(e.len() >= 1);
                            assert(end > pos);
                            assert(b@.subrange(pos as int, end)[0] == b@[pos as int]);
                            assert(b@[pos as int] == e[0]);
                            assert(v >= 0);
                            assert(num_at(b@, pos as int, (v as u64), end));
                        }
                    }
                }
                None
            },
        }
    }
}

/// A negative reading at `pos` yields a magnitude reading at `pos + 1`.
proof fn int_at_gives_num_at(s: Seq<u8>, pos: int, v: i64, end: int)
    requires
        int_at(s, pos, v, end),
        v < 0,
    ensures
        num_at(s, pos + 1, ((-v) as u64), end),
{
    let d = dec_digits((-v) as nat);
    assert(s.subrange(pos, end) == seq![45u8] + d);
    assert(s.subrange(pos + 1, end) =~= d) by {
        assert forall|i: int| 0 <= i < d.len() implies s.subrange(pos + 1, end)[i] == d[i] by {
            assert(s.subrange(pos, end)[i + 1] == (seq![45u8] + d)[i + 1]);
        }
    }
}

/// Appends the canonical digits of `n`.
pub fn push_digits(out: &mut Vec<u8>, n: u64)
    ensures
        final(out)@ == old(out)@ + dec_digits(n as nat),
    decreases n,
{
    if n < 10 {
        out.push(48 + n as u8);
        assert(out@ =~= old(out)@ + dec_digits(n as nat));
    } else {
        push_digits(out, n / 10);
        out.push(48 + (n % 10) as u8);
        proof {
            assert((n as nat) / 10 == (n / 10) as nat);
            assert((n as nat) % 10 == (n % 10) as nat);
            assert(out@ =~= old(out)@ + dec_digits(n as nat));
        }
    }
}

/// Appends the canonical signed decimal of `v`.
pub fn push_int(out: &mut Vec<u8>, v: i64)
    requires
        -(NUM_LIMIT as int) < v < NUM_LIMIT as int,
    ensures
        final(out)@ == old(out)@ + enc_int(v as int),
{
    if v < 0 {
        out.push(45);
        push_digits(out, (-v) as u64);
        assert(out@ =~= old(out)@ + enc_int(v as int));
    } else {
        push_digits(out, v as u64);
    }
}


/// Lowercase hex digit byte for a nibble.
pub open spec fn hexd(d: nat) -> u8 {
    if d < 10 {
        (48 + d) as u8
    } else {
        (87 + d) as u8
    }
}

fn hex_digit(d: u8) -> (r: u8)
    requires
        d < 16,
    ensures
        r == hexd(d as nat),
{
    if d < 10 {
        48 + d
    } else {
        87 + d
    }
}

/// How one byte of string content appears on the wire: quote and backslash
/// are backslash-escaped, control bytes become `\u00XX` with lowercase hex,
/// every other byte stands for itself.
pub open spec fn esc_byte(x: u8) -> Seq<u8> {
    if x == 34 {
        seq![92u8, 34u8]
    } else if x == 92 {
        seq![92u8, 92u8]
    } else if x < 32 {
        seq![92u8, 117u8, 48u8, 48u8, hexd((x / 16) as nat), hexd((x % 16) as nat)]
    } else {
        seq![x]
    }
}

/// String content escaped byte by byte.
pub open spec fn esc_bytes(s: Seq<u8>) -> Seq<u8>
    decreases s.len(),
{
    if s.len() == 0 {
        Seq::empty()
    } else {
        esc_byte(s[0]) + esc_bytes(s.drop_first())
    }
}

/// What it means for the escaped content `c` plus a closing quote to sit in
/// `s` at `pos..end`. The opening quote is the caller's business.
pub open spec fn str_body_at(s: Seq<u8>, pos: int, c: Seq<u8>, end: int) -> bool {
    &&& 0 <= pos
    &&& end == pos + esc_bytes(c).len() + 1
    &&& end <= s.len()
    &&& s.subrange(pos, end) == esc_bytes(c) + seq![34u8]
}

proof fn lemma_esc_byte_props(x: u8)
    ensures
        1 <= esc_byte(x).len() <= 6,
        esc_byte(x)[0] != 34,
        esc_byte(x)[0] == 92 <==> (x == 34 || x == 92 || x < 32),
        x != 34 && x != 92 && x >= 32 ==> esc_byte(x) == seq![x],
{
}

/// Peeling the first content byte off a string-body reading.
proof fn lemma_str_body_step(s: Seq<u8>, pos: int, c: Seq<u8>, end: int)
    requires
        str_body_at(s, pos, c, end),
        c.len() > 0,
    ensures
        pos + esc_byte(c[0]).len() <= s.len(),
        s.subrange(pos, pos + esc_byte(c[0]).len()) == esc_byte(c[0]),
        str_body_at(s, pos + esc_byte(c[0]).len(), c.drop_first(), end),
{
    let u = esc_byte(c[0]);
    let rest = esc_bytes(c.drop_first());
    assert(esc_bytes(c) == u + rest);
    assert(s.subrange(pos, end) == (u + rest) + seq![34u8]);
    lemma_esc_byte_props(c[0]);
    assert(s.subrange(pos, pos + u.len()) =~= u) by {
        assert forall|i: int| 0 <= i < u.len() implies s.subrange(pos, pos + u.len())[i] == u[i]
        by {
            assert(s.subrange(pos, end)[i] == ((u + rest) + seq![34u8])[i]);
            assert(s.subrange(pos, pos + u.len())[i] == s[pos + i]);
            assert(s.subrange(pos, end)[i] == s[pos + i]);
        }
    }
    assert(s.subrange(pos + u.len(), end) =~= rest + seq![34u8]) by {
        assert forall|i: int| 0 <= i < end - pos - u.len() implies #[trigger] s.subrange(
            pos + u.len(),
            end,
        )[i] == (rest + seq![34u8])[i] by {
            assert(s.subrange(pos, end)[u.len() + i] == ((u + rest) + seq![34u8])[u.len() + i]);
            assert(s.subrange(pos + u.len(), end)[i] == s[pos + u.len() + i]);
            assert(s.subrange(pos, end)[u.len() + i] == s[pos + u.len() + i]);
            assert(((u + rest) + seq![34u8])[u.len() + i] == (rest + seq![34u8])[i]);
        }
    }
}

/// A nonempty string-body reading starts with some escape unit whose first
/// byte is the byte at `pos`.
proof fn lemma_str_body_first(s: Seq<u8>, pos: int, c: Seq<u8>, end: int)
    requires
        str_body_at(s, pos, c, end),
    ensures
        pos < s.len(),
        c.len() == 0 ==> s[pos] == 34 && end == pos + 1,
        c.len() > 0 ==> s[pos] == esc_byte(c[0])[0] && s[pos] != 34,
{
    if c.len() == 0 {
        assert(s.subrange(pos, end) == seq![34u8]);
        assert(s[pos] == s.subrange(pos, end)[0]);
    } else {
        lemma_esc_byte_props(c[0]);
        lemma_str_body_step(s, pos, c, end);
        assert(s[pos] == s.subrange(pos, pos + esc_byte(c[0]).len())[0]);
    }
}

/// Reads escaped string content terminated by an unescaped quote, starting
/// right after the opening quote. Returns exactly the one reading that
/// exists, if any.
#[verifier::rlimit(100)]
pub fn parse_str_body(b: &[u8], pos: usize) -> (r: Option<(Vec<u8>, usize)>)
    requires
        pos <= b@.len(),
    ensures
        match r {
            Some(p) => {
                &&& str_body_at(b@, pos as int, p.0@, p.1 as int)
                &&& pos < p.1 <= b@.len()
                &&& forall|c2: Seq<u8>, e2: int|
                    str_body_at(b@, pos as int, c2, e2) ==> c2 == p.0@ && e2 == p.1 as int
            },
            None => forall|c2: Seq<u8>, e2: int| !str_body_at(b@, pos as int, c2, e2),
        },
    decreases b@.len() - pos,
{
    let n = b.len();
    if pos == n {
        proof {
            assert forall|c2: Seq<u8>, e2: int| !str_body_at(b@, pos as int, c2, e2) by {
                if str_body_at(b@, pos as int, c2, e2) {
                    lemma_str_body_first(b@, pos as int, c2, e2);
                }
            }
        }
        return None;
    }
    let x = b[pos];
    if x == 34 {
        proof {
            assert(b@.subrange(pos as int, pos + 1) =~= esc_bytes(Seq::<u8>::empty()) + seq![34u8]);
            assert forall|c2: Seq<u8>, e2: int|
                str_body_at(b@, pos as int, c2, e2) implies c2 == Seq::<u8>::empty() && e2 == pos + 1
            by {
                lemma_str_body_first(b@, pos as int, c2, e2);
                if c2.len() > 0 {
                    assert(false);
                }
                assert(c2 =~= Seq::<u8>::empty());
            }
        }
        return Some((Vec::new(), pos + 1));
    }
    // determine the escape unit at pos: its content byte and its width
    let (val, width): (u8, usize) = if x == 92 {
        if pos + 1 == n {
            proof {
                assert forall|c2: Seq<u8>, e2: int| !str_body_at(b@, pos as int, c2, e2) by {
                    if str_body_at(b@, pos as int, c2, e2) {
                        lemma_str_body_first(b@, pos as int, c2, e2);
                        lemma_str_body_step(b@, pos as int, c2, e2);
                        lemma_esc_byte_props(c2[0]);
                        assert(esc_byte(c2[0]).len() >= 2);
                        assert(e2 > pos + 1);
                    }
                }
            }
            return None;
        }
        let y = b[pos + 1];
        if y == 34 || y == 92 {
            (y, 2)
        } else if y == 117 {
            if n - pos < 6 {
                proof {
                    assert forall|c2: Seq<u8>, e2: int| !str_body_at(b@, pos as int, c2, e2) by {
                        if str_body_at(b@, pos as int, c2, e2) {
                            lemma_str_body_first(b@, pos as int, c2, e2);
                            lemma_str_body_step(b@, pos as int, c2, e2);
                            lemma_esc_byte_props(c2[0]);
                            let u = esc_byte(c2[0]);
                            assert(u[1] == b@.subrange(pos as int, pos + u.len())[1]);
                            assert(u[1] == 117);
                            assert(c2[0] < 32);
                            assert(u.len() == 6);
                            assert(e2 > pos + 6);
                        }
                    }
                }
                return None;
            }
            let h2 = b[pos + 2];
            let h3 = b[pos + 3];
            let h4 = b[pos + 4];
            let h5 = b[pos + 5];
            let hex_ok = h2 == 48 && h3 == 48 && (h4 == 48 || h4 == 49) && ((48 <= h5 && h5 <= 57)
                || (97 <= h5 && h5 <= 102));
            if !hex_ok {
                proof {
                    assert forall|c2: Seq<u8>, e2: int| !str_body_at(b@, pos as int, c2, e2) by {
                        if str_body_at(b@, pos as int, c2, e2) {
                            lemma_str_body_first(b@, pos as int, c2, e2);
                            lemma_str_body_step(b@, pos as int, c2, e2);
                            lemma_esc_byte_props(c2[0]);
                            let u = esc_byte(c2[0]);
                            assert(u[1] == b@.subrange(pos as int, pos + u.len())[1]);
                            assert(u[1] == 117);
                            assert(c2[0] < 32);
                            assert(u.len() == 6);
                            assert(b@[pos + 2] == u[2]);
                            assert(b@[pos + 3] == u[3]);
                            assert(b@[pos + 4] == u[4]);
                            assert(b@[pos + 5] == u[5]);
                            assert(u[4] == hexd((c2[0] / 16) as nat));
                            assert(u[5] == hexd((c2[0] % 16) as nat));
                            assert(c2[0] / 16 <= 1);
                            assert(c2[0] % 16 < 16);
                        }
                    }
                }
                return None;
            }
            let d_hi = h4 - 48;
            let d_lo = if h5 <= 57 {
                h5 - 48
            } else {
                h5 - 87
            };
            (16 * d_hi + d_lo, 6)
        } else {
            proof {
                assert forall|c2: Seq<u8>, e2: int| !str_body_at(b@, pos as int, c2, e2) by {
                    if str_body_at(b@, pos as int, c2, e2) {
                        lemma_str_body_first(b@, pos as int, c2, e2);
                        lemma_str_body_step(b@, pos as int, c2, e2);
                        lemma_esc_byte_props(c2[0]);
                        let u = esc_byte(c2[0]);
                        assert(u[1] == b@.subrange(pos as int, pos + u.len())[1]);
                    }
                }
            }
            return None;
        }
    } else if x < 32 {
        proof {
            assert forall|c2: Seq<u8>, e2: int| !str_body_at(b@, pos as int, c2, e2) by {
                if str_body_at(b@, pos as int, c2, e2) {
                    lemma_str_body_first(b@, pos as int, c2, e2);
                    lemma_esc_byte_props(c2[0]);
                }
            }
        }
        return None;
    } else {
        (x, 1)
    };
    proof {
        lemma_esc_byte_props(val);
        assert(b@.subrange(pos as int, pos + width) =~= esc_byte(val)) by {
            if x == 92 {
                if b@[pos + 1] == 117 {
                    assert(val < 32);
                    assert((16 * (val / 16) + val % 16) == val) by (nonlinear_arith);
                    assert(val / 16 == (b@[pos + 4] - 48) as u8 && val % 16 == (if b@[pos + 5]
                        <= 57 {
                        (b@[pos + 5] - 48) as u8
                    } else {
                        (b@[pos + 5] - 87) as u8
                    })) by (nonlinear_arith)
                        requires
                            val == 16 * ((b@[pos + 4] - 48) as u8) + (if b@[pos + 5] <= 57 {
                                (b@[pos + 5] - 48) as u8
                            } else {
                                (b@[pos + 5] - 87) as u8
                            }),
                            (b@[pos + 4] - 48) as u8 <= 1,
                            (if b@[pos + 5] <= 57 {
                                (b@[pos + 5] - 48) as u8
                            } else {
                                (b@[pos + 5] - 87) as u8
                            }) < 16,
                    ;
                }
            }
        }
    }
    match parse_str_body(b, pos + width) {
        Some((mut v, end)) => {
            proof {
                assert(str_body_at(b@, pos + width, v@, end as int));
            }
            let ghost old_v = v@;
            v.insert(0, val);
            proof {
                assert(v@ == seq![val] + old_v);
                assert(v@.drop_first() =~= old_v);
                assert(v@[0] == val);
                assert(esc_bytes(v@) == esc_byte(val) + esc_bytes(old_v));
                assert(b@.subrange(pos as int, end as int) =~= esc_bytes(v@) + seq![34u8]) by {
                    let u = esc_byte(val);
                    assert forall|i: int| 0 <= i < end - pos implies b@.subrange(
                        pos as int,
                        end as int,
                    )[i] == (esc_bytes(v@) + seq![34u8])[i] by {
                        if i < u.len() {
                            assert(b@.subrange(pos as int, pos + width)[i] == b@[pos + i]);
                        } else {
                            assert(b@.subrange(pos + width, end as int)[i - u.len()] == b@[pos
                                + i]);
                            assert((esc_bytes(old_v) + seq![34u8])[i - u.len()] == (esc_bytes(v@)
                                + seq![34u8])[i]);
                        }
                    }
                }
                assert forall|c2: Seq<u8>, e2: int|
                    str_body_at(b@, pos as int, c2, e2) implies c2 == v@ && e2 == end as int by {
                    lemma_str_body_first(b@, pos as int, c2, e2);
                    assert(c2.len() > 0);
                    lemma_str_body_step(b@, pos as int, c2, e2);
                    lemma_esc_byte_props(c2[0]);
                    let u2 = esc_byte(c2[0]);
                    assert(c2[0] == val && u2.len() == width) by {
                        if x == 92 {
                            assert(u2[1] == b@.subrange(pos as int, pos + u2.len())[1]);
                            assert(u2[1] == b@[pos + 1]);
                            if b@[pos + 1] == 117 {
                                assert(c2[0] < 32);
                                assert(u2[4] == b@.subrange(pos as int, pos + u2.len())[4]);
                                assert(u2[5] == b@.subrange(pos as int, pos + u2.len())[5]);
                                assert(hexd((c2[0] / 16) as nat) == b@[pos + 4]);
                                assert(hexd((c2[0] % 16) as nat) == b@[pos + 5]);
                                assert(hexd((val / 16) as nat) == b@[pos + 4]);
                                assert(hexd((val % 16) as nat) == b@[pos + 5]);
                                assert(c2[0] / 16 == val / 16 && c2[0] % 16 == val % 16);
                                assert(c2[0] == 16 * (c2[0] / 16) + c2[0] % 16) by (nonlinear_arith);
                                assert(val == 16 * (val / 16) + val % 16) by (nonlinear_arith);
                            } else {
                                assert(c2[0] == b@[pos + 1]);
                            }
                        } else {
                            assert(u2[0] != 92);
                            assert(u2 == seq![c2[0]]);
                        }
                    }
                    assert(str_body_at(b@, pos + width, c2.drop_first(), e2));
                    assert(c2.drop_first() == old_v && e2 == end as int);
                    assert(c2 =~= v@) by {
                        assert(c2.len() == v@.len());
                        assert forall|i: int| 0 <= i < c2.len() implies c2[i] == v@[i] by {
                            if i > 0 {
                                assert(c2.drop_first()[i - 1] == c2[i]);
                                assert(v@.drop_first()[i - 1] == v@[i]);
                            }
                        }
                    }
                }
            }
            Some((v, end))
        },
        None => {
            proof {
                assert forall|c2: Seq<u8>, e2: int| !str_body_at(b@, pos as int, c2, e2) by {
                    if str_body_at(b@, pos as int, c2, e2) {
                        lemma_str_body_first(b@, pos as int, c2, e2);
                        assert(c2.len() > 0);
                        lemma_str_body_step(b@, pos as int, c2, e2);
                        lemma_esc_byte_props(c2[0]);
                        let u2 = esc_byte(c2[0]);
                        assert(u2.len() == width) by {
                            if x == 92 {
                                assert(u2[1] == b@.subrange(pos as int, pos + u2.len())[1]);
                                assert(u2[1] == b@[pos + 1]);
                            } else {
                                assert(u2[0] != 92);
                            }
                        }
                        assert(str_body_at(b@, pos + width, c2.drop_first(), e2));
                    }
                }
            }
            None
        },
    }
}

/// Appends the escaped form of `s[i..]`.
pub fn push_esc_body(out: &mut Vec<u8>, s: &[u8], i: usize)
    requires
        i <= s@.len(),
    ensures
        final(out)@ == old(out)@ + esc_bytes(s@.skip(i as int)),
    decreases s@.len() - i,
{
    if i == s.len() {
        assert(s@.skip(i as int) =~= Seq::<u8>::empty());
        assert(out@ =~= out@ + esc_bytes(s@.skip(i as int)));
        return ;
    }
    let x = s[i];
    if x == 34 {
        out.push(92);
        out.push(34);
    } else if x == 92 {
        out.push(92);
        out.push(92);
    } else if x < 32 {
        out.push(92);
        out.push(117);
        out.push(48);
        out.push(48);
        out.push(hex_digit(x / 16));
        out.push(hex_digit(x % 16));
    } else {
        out.push(x);
    }
    proof {
        lemma_esc_byte_props(x);
        assert(out@ =~= old(out)@ + esc_byte(x));
    }
    push_esc_body(out, s, i + 1);
    proof {
        let t = s@.skip(i as int);
        assert(t[0] == s@[i as int]);
        assert(t.drop_first() =~= s@.skip(i + 1));
        assert(esc_bytes(t) == esc_byte(s@[i as int]) + esc_bytes(s@.skip(i + 1)));
        assert(final(out)@ =~= old(out)@ + esc_bytes(t));
    }
}

/// True exactly when `lit` occurs in `b` at `pos`.
pub fn match_lit(b: &[u8], pos: usize, lit: &[u8]) -> (r: bool)
    requires
        pos <= b@.len(),
    ensures
        r == (pos + lit@.len() <= b@.len() && b@.subrange(pos as int, pos + lit@.len()) == lit@),
{
    let m = lit.len();
    let n = b.len();
    if n - pos < m {
        return false;
    }
    let mut i: usize = 0;
    while i < m
        invariant
            0 <= i <= m,
            m == lit@.len(),
            n == b@.len(),
            pos + m <= n,
            forall|j: int| 0 <= j < i ==> b@[pos + j] == lit@[j],
        decreases m - i,
    {
        if b[pos + i] != lit[i] {
            proof {
                assert(b@.subrange(pos as int, pos + m)[i as int] == b@[pos + i]);
            }
            return false;
        }
        i += 1;
    }
    proof {
        assert(b@.subrange(pos as int, pos + m) =~= lit@);
    }
    true
}


/// Largest two-decimal value (exclusive) on the wire, in hundredths:
/// fifteen integer digits and two fraction digits.
pub const DEC_LIMIT: i64 = 100_000_000_000_000_000;

pub open spec fn dec_mag(h: int) -> int {
    if h < 0 {
        -h
    } else {
        h
    }
}

pub open spec fn dec_sb(h: int) -> int {
    if h < 0 {
        1
    } else {
        0
    }
}

/// Canonical two-decimal number for a count of hundredths: optional minus
/// sign (never on zero), integer digits, a dot, exactly two fraction
/// digits.
pub open spec fn enc_dec(h: int) -> Seq<u8> {
    (if h < 0 {
        seq![45u8]
    } else {
        Seq::<u8>::empty()
    }) + dec_digits((dec_mag(h) / 100) as nat) + seq![
        46u8,
        (48 + (dec_mag(h) % 100) / 10) as u8,
        (48 + (dec_mag(h) % 100) % 10) as u8,
    ]
}

/// What it means for the canonical two-decimal form of `h` to sit in `s` at
/// `pos..end`, maximally.
pub open spec fn dec_at(s: Seq<u8>, pos: int, h: i64, end: int) -> bool {
    &&& -(DEC_LIMIT as int) < (h as int) < (DEC_LIMIT as int)
    &&& 0 <= pos
    &&& end == pos + enc_dec(h as int).len()
    &&& end <= s.len()
    &&& s.subrange(pos, end) == enc_dec(h as int)
    &&& (end == s.len() || !is_digit(s[end]))
}

/// Decomposes a two-decimal reading into its sign byte, integer digits and
/// fraction digits.
pub proof fn lemma_dec_at_parts(s: Seq<u8>, pos: int, h: i64, end: int)
    requires
        dec_at(s, pos, h, end),
    ensures
        num_at(s, pos + dec_sb(h as int), ((dec_mag(h as int) / 100) as u64), end - 3),
        h < 0 ==> s[pos] == 45,
        h >= 0 ==> is_digit(s[pos]),
        s[end - 3] == 46,
        s[end - 2] == (48 + (dec_mag(h as int) % 100) / 10) as u8,
        s[end - 1] == (48 + (dec_mag(h as int) % 100) % 10) as u8,
        pos + dec_sb(h as int) < end,
{
    let mag = dec_mag(h as int);
    let sb = dec_sb(h as int);
    let units = (mag / 100) as nat;
    let d = dec_digits(units);
    let e = enc_dec(h as int);
    lemma_dec_digits_props(units);
    assert(e.len() == sb + d.len() + 3);
    assert(units < NUM_LIMIT) by {
        assert(mag < DEC_LIMIT);
        assert(mag / 100 < NUM_LIMIT) by (nonlinear_arith)
            requires
                0 <= mag < DEC_LIMIT,
                DEC_LIMIT == 100 * (NUM_LIMIT as i64),
        ;
    }
    assert forall|i: int| 0 <= i < e.len() implies s[pos + i] == e[i] by {
        assert(s.subrange(pos, end)[i] == e[i]);
    }
    if h < 0 {
        assert(e[0] == 45);
        assert(s[pos] == 45);
    } else {
        assert(e[0] == d[0]);
        assert(is_digit(d[0]));
    }
    assert(s.subrange(pos + sb, pos + sb + d.len()) =~= d) by {
        assert forall|i: int| 0 <= i < d.len() implies s.subrange(pos + sb, pos + sb + d.len())[i]
            == d[i] by {
            assert(s[pos + (sb + i)] == e[sb + i]);
            assert(e[sb + i] == d[i]);
        }
    }
    assert(s[end - 3] == e[sb + d.len()]);
    assert(s[end - 2] == e[sb + d.len() + 1]);
    assert(s[end - 1] == e[sb + d.len() + 2]);
    assert(!is_digit(46u8));
    assert(num_at(s, pos + sb, ((mag / 100) as u64), end - 3));
}

/// There is at most one way to read a maximal two-decimal number at `pos`.
pub proof fn lemma_dec_at_unique(s: Seq<u8>, pos: int, h1: i64, e1: int, h2: i64, e2: int)
    requires
        dec_at(s, pos, h1, e1),
        dec_at(s, pos, h2, e2),
    ensures
        h1 == h2,
        e1 == e2,
{
    lemma_dec_at_parts(s, pos, h1, e1);
    lemma_dec_at_parts(s, pos, h2, e2);
    let m1 = dec_mag(h1 as int);
    let m2 = dec_mag(h2 as int);
    assert(dec_sb(h1 as int) == dec_sb(h2 as int)) by {
        if h1 < 0 && h2 >= 0 {
            assert(s[pos] == 45);
            assert(is_digit(s[pos]));
        } else if h1 >= 0 && h2 < 0 {
            assert(s[pos] == 45);
            assert(is_digit(s[pos]));
        }
    }
    lemma_num_at_unique(
        s,
        pos + dec_sb(h1 as int),
        ((m1 / 100) as u64),
        e1 - 3,
        ((m2 / 100) as u64),
        e2 - 3,
    );
    assert(m1 / 100 == m2 / 100);
    assert((m1 % 100) / 10 == (m2 % 100) / 10);
    assert((m1 % 100) % 10 == (m2 % 100) % 10);
    assert(m1 % 100 == m2 % 100) by (nonlinear_arith)
        requires
            (m1 % 100) / 10 == (m2 % 100) / 10,
            (m1 % 100) % 10 == (m2 % 100) % 10,
            0 <= m1,
            0 <= m2,
    ;
    assert(m1 == m2) by (nonlinear_arith)
        requires
            m1 / 100 == m2 / 100,
            m1 % 100 == m2 % 100,
            0 <= m1,
            0 <= m2,
    ;
    assert(h1 == h2) by {
        if h1 < 0 {
            assert(h2 < 0);
        } else {
            assert(h2 >= 0);
        }
    }
}

/// Reads a canonical two-decimal number at `pos`. Returns exactly the one
/// reading that exists, if any.
pub fn parse_dec(b: &[u8], pos: usize) -> (r: Option<(i64, usize)>)
    requires
        pos <= b@.len(),
    ensures
        match r {
            Some(p) => dec_at(b@, pos as int, p.0, p.1 as int) && pos < p.1 <= b@.len(),
            None => forall|h: i64, end: int| !dec_at(b@, pos as int, h, end),
        },
{
    let n = b.len();
    let neg = pos < n && b[pos] == 45;
    let p0 = if neg {
        pos + 1
    } else {
        pos
    };
    match parse_num(b, p0) {
        Some((units, e1)) => {
            if n - e1 < 3 || !(b[e1] == 46) {
                proof {
                    assert forall|h: i64, end: int| !dec_at(b@, pos as int, h, end) by {
                        if dec_at(b@, pos as int, h, end) {
                            lemma_dec_at_parts(b@, pos as int, h, end);
                            lemma_sign_consistent(b@, pos as int, h, end, neg, n as int);
                            lemma_num_at_unique(
                                b@,
                                p0 as int,
                                units,
                                e1 as int,
                                ((dec_mag(h as int) / 100) as u64),
                                end - 3,
                            );
                        }
                    }
                }
                return None;
            }
            let d1 = b[e1 + 1];
            let d2 = b[e1 + 2];
            if !(48 <= d1 && d1 <= 57) || !(48 <= d2 && d2 <= 57) {
                proof {
                    assert forall|h: i64, end: int| !dec_at(b@, pos as int, h, end) by {
                        if dec_at(b@, pos as int, h, end) {
                            lemma_dec_at_parts(b@, pos as int, h, end);
                            lemma_sign_consistent(b@, pos as int, h, end, neg, n as int);
                            lemma_num_at_unique(
                                b@,
                                p0 as int,
                                units,
                                e1 as int,
                                ((dec_mag(h as int) / 100) as u64),
                                end - 3,
                            );
                            assert((dec_mag(h as int) % 100) / 10 < 10) by (nonlinear_arith)
                                requires
                                    0 <= dec_mag(h as int),
                            ;
                            assert((dec_mag(h as int) % 100) % 10 < 10) by (nonlinear_arith)
                                requires
                                    0 <= dec_mag(h as int),
                            ;
                        }
                    }
                }
                return None;
            }
            let end = e1 + 3;
            if end < n && 48 <= b[end] && b[end] <= 57 {
                proof {
                    assert forall|h: i64, end2: int| !dec_at(b@, pos as int, h, end2) by {
                        if dec_at(b@, pos as int, h, end2) {
                            lemma_dec_at_parts(b@, pos as int, h, end2);
                            lemma_sign_consistent(b@, pos as int, h, end2, neg, n as int);
                            lemma_num_at_unique(
                                b@,
                                p0 as int,
                                units,
                                e1 as int,
                                ((dec_mag(h as int) / 100) as u64),
                                end2 - 3,
                            );
                        }
                    }
                }
                return None;
            }
            let frac: u64 = (10 * (d1 - 48) as u64) + (d2 - 48) as u64;
            let val: u64 = units * 100 + frac;
            if neg && val == 0 {
                proof {
                    assert forall|h: i64, end2: int| !dec_at(b@, pos as int, h, end2) by {
                        if dec_at(b@, pos as int, h, end2) {
                            lemma_dec_at_parts(b@, pos as int, h, end2);
                            lemma_sign_consistent(b@, pos as int, h, end2, neg, n as int);
                            assert(h < 0);
                            assert(dec_mag(h as int) > 0);
                            lemma_num_at_unique(
                                b@,
                                p0 as int,
                                units,
                                e1 as int,
                                ((dec_mag(h as int) / 100) as u64),
                                end2 - 3,
                            );
                            let m = dec_mag(h as int);
                            assert(m == 100 * (m / 100) + m % 100) by (nonlinear_arith);
                            assert(m % 100 == 10 * ((m % 100) / 10) + (m % 100) % 10)
                                by (nonlinear_arith);
                            assert(b@[end2 - 2] == d1 && b@[end2 - 1] == d2);
                        }
                    }
                }
                return None;
            }
            let h: i64 = if neg {
                -(val as i64)
            } else {
                val as i64
            };
            proof {
                let m = dec_mag(h as int);
                let sb = dec_sb(h as int);
                assert(m == val);
                assert(m / 100 == units && m % 100 == frac) by (nonlinear_arith)
                    requires
                        m == units * 100 + frac,
                        0 <= frac < 100,
                ;
                assert((m % 100) / 10 == (d1 - 48) as int && (m % 100) % 10 == (d2 - 48) as int)
                    by (nonlinear_arith)
                    requires
                        m % 100 == 10 * ((d1 - 48) as int) + (d2 - 48) as int,
                        0 <= ((d1 - 48) as int) < 10,
                        0 <= ((d2 - 48) as int) < 10,
                ;
                let e = enc_dec(h as int);
                let d = dec_digits(units as nat);
                assert(b@.subrange(p0 as int, e1 as int) == d);
                assert(b@.subrange(pos as int, end as int) =~= e) by {
                    assert forall|i: int| 0 <= i < e.len() implies b@.subrange(
                        pos as int,
                        end as int,
                    )[i] == e[i] by {
                        if i < sb {
                            assert(e[i] == 45);
                        } else if i < sb + d.len() {
                            assert(e[i] == d[i - sb]);
                            assert(b@.subrange(p0 as int, e1 as int)[i - sb] == b@[p0 + (i - sb)]);
                        } else {
                            assert(i - sb - d.len() < 3);
                        }
                    }
                }
            }
            Some((h, end))
        },
        None => {
            proof {
                assert forall|h: i64, end: int| !dec_at(b@, pos as int, h, end) by {
                    if dec_at(b@, pos as int, h, end) {
                        lemma_dec_at_parts(b@, pos as int, h, end);
                        lemma_sign_consistent(b@, pos as int, h, end, neg, n as int);
                    }
                }
            }
            None
        },
    }
}

/// In `parse_dec`, the parsed sign flag agrees with any candidate reading.
proof fn lemma_sign_consistent(s: Seq<u8>, pos: int, h: i64, end: int, neg: bool, n: int)
    requires
        dec_at(s, pos, h, end),
        n == s.len(),
        neg == (pos < n && s[pos] == 45),
    ensures
        neg == (h < 0),
        num_at(s, pos + (if neg { 1int } else { 0int }), ((dec_mag(h as int) / 100) as u64), end - 3),
{
    lemma_dec_at_parts(s, pos, h, end);
    assert(pos < s.len()) by {
        assert(end <= s.len());
        assert(pos + dec_sb(h as int) < end);
    }
    if h < 0 {
        assert(s[pos] == 45);
    } else {
        assert(is_digit(s[pos]));
    }
}

/// Appends the canonical two-decimal form of `h` hundredths.
pub fn push_dec(out: &mut Vec<u8>, h: i64)
    requires
        -DEC_LIMIT < h < DEC_LIMIT,
    ensures
        final(out)@ == old(out)@ + enc_dec(h as int),
{
    let mag: i64 = if h < 0 {
        -h
    } else {
        h
    };
    if h < 0 {
        out.push(45);
    }
    push_digits(out, (mag / 100) as u64);
    out.push(46);
    let f: i64 = mag % 100;
    proof {
        assert(0 <= f < 100) by (nonlinear_arith)
            requires
                f == mag % 100,
                mag >= 0,
        ;
        assert(f / 10 < 10 && f % 10 < 10) by (nonlinear_arith)
            requires
                0 <= f < 100,
        ;
    }
    out.push(48 + (f / 10) as u8);
    out.push(48 + (f % 10) as u8);
    proof {
        assert(mag == dec_mag(h as int));
        assert((mag as nat) / 100 == (dec_mag(h as int) / 100) as nat);
        assert((f / 10) as int == (dec_mag(h as int) % 100) / 10 && (f % 10) as int == (dec_mag(
            h as int,
        ) % 100) % 10) by (nonlinear_arith)
            requires
                f == mag % 100,
                mag == dec_mag(h as int),
                mag >= 0,
        ;
        assert(out@ =~= old(out)@ + enc_dec(h as int));
    }
}


/// Elementwise view of a matched subrange.
pub proof fn lemma_subrange_elems(s: Seq<u8>, pos: int, part: Seq<u8>)
    requires
        0 <= pos,
        pos + part.len() <= s.len(),
        s.subrange(pos, pos + part.len() as int) == part,
    ensures
        forall|i: int| 0 <= i < part.len() ==> s[pos + i] == #[trigger] part[i],
{
    assert forall|i: int| 0 <= i < part.len() implies s[pos + i] == #[trigger] part[i] by {
        assert(s.subrange(pos, pos + part.len() as int)[i] == part[i]);
    }
}


/// A JSON string on the wire: quote, escaped content, quote.
pub open spec fn enc_str(content: Seq<u8>) -> Seq<u8> {
    seq![34u8] + esc_bytes(content) + seq![34u8]
}

/// Appends the JSON string whose content bytes are `s`.
pub fn push_str_bytes(out: &mut Vec<u8>, s: &[u8])
    ensures
        final(out)@ == old(out)@ + enc_str(s@),
{
    out.push(34);
    push_esc_body(out, s, 0);
    out.push(34);
    proof {
        assert(s@.skip(0) =~= s@);
        assert(out@ =~= old(out)@ + enc_str(s@));
    }
}


/// Maximal-munch determinism for signed decimals: two canonical signed
/// decimals followed by non-digit (or empty) remainders can only split one
/// way.
pub proof fn lemma_int_prefix(x: int, y: int, r1: Seq<u8>, r2: Seq<u8>)
    requires
        enc_int(x) + r1 == enc_int(y) + r2,
        r1.len() == 0 || !is_digit(r1[0]),
        r2.len() == 0 || !is_digit(r2[0]),
    ensures
        x == y,
        r1 == r2,
{
    let s = enc_int(x) + r1;
    lemma_dec_digits_props(if x < 0 { (-x) as nat } else { x as nat });
    lemma_dec_digits_props(if y < 0 { (-y) as nat } else { y as nat });
    assert(s[0] == enc_int(x)[0]);
    assert(s[0] == enc_int(y)[0]);
    if x < 0 && y >= 0 {
        assert(enc_int(x)[0] == 45);
        assert(is_digit(enc_int(y)[0]));
        assert(false);
    } else if x >= 0 && y < 0 {
        assert(enc_int(y)[0] == 45);
        assert(is_digit(enc_int(x)[0]));
        assert(false);
    } else if x >= 0 && y >= 0 {
        lemma_digits_prefix(x as nat, y as nat, r1, r2);
    } else {
        let dx = dec_digits((-x) as nat);
        let dy = dec_digits((-y) as nat);
        assert(dx + r1 =~= s.drop_first()) by {
            assert forall|i: int| 0 <= i < s.len() - 1 implies (dx + r1)[i] == s[i + 1] by {
                assert(s[i + 1] == (enc_int(x) + r1)[i + 1]);
                if i < dx.len() {
                    assert((enc_int(x) + r1)[i + 1] == enc_int(x)[i + 1]);
                    assert(enc_int(x)[i + 1] == (seq![45u8] + dx)[i + 1]);
                } else {
                    assert((enc_int(x) + r1)[i + 1] == r1[i + 1 - enc_int(x).len()]);
                }
            }
        }
        assert(dy + r2 =~= s.drop_first()) by {
            assert forall|i: int| 0 <= i < s.len() - 1 implies (dy + r2)[i] == s[i + 1] by {
                assert(s[i + 1] == (enc_int(y) + r2)[i + 1]);
                if i < dy.len() {
                    assert((enc_int(y) + r2)[i + 1] == enc_int(y)[i + 1]);
                    assert(enc_int(y)[i + 1] == (seq![45u8] + dy)[i + 1]);
                } else {
                    assert((enc_int(y) + r2)[i + 1] == r2[i + 1 - enc_int(y).len()]);
                }
            }
        }
        lemma_digits_prefix((-x) as nat, (-y) as nat, r1, r2);
    }
}

/// There is at most one way to read a quote-terminated escaped string
/// body at a position.
pub proof fn lemma_str_body_unique(s: Seq<u8>, pos: int, c1: Seq<u8>, e1: int, c2: Seq<u8>, e2: int)
    requires
        str_body_at(s, pos, c1, e1),
        str_body_at(s, pos, c2, e2),
    ensures
        c1 == c2,
        e1 == e2,
    decreases c1.len(),
{
    lemma_str_body_first(s, pos, c1, e1);
    lemma_str_body_first(s, pos, c2, e2);
    if c1.len() == 0 {
        if c2.len() > 0 {
            assert(false);
        }
        assert(c1 =~= c2);
    } else {
        assert(c2.len() > 0);
        lemma_str_body_step(s, pos, c1, e1);
        lemma_str_body_step(s, pos, c2, e2);
        lemma_esc_byte_props(c1[0]);
        lemma_esc_byte_props(c2[0]);
        let u1 = esc_byte(c1[0]);
        let u2 = esc_byte(c2[0]);
        assert(c1[0] == c2[0]) by {
            if s[pos] != 92 {
                assert(u1 == seq![c1[0]]);
                assert(u2 == seq![c2[0]]);
                assert(s[pos] == u1[0] && s[pos] == u2[0]);
            } else {
                assert(u1[1] == s.subrange(pos, pos + u1.len())[1]);
                assert(u2[1] == s.subrange(pos, pos + u2.len())[1]);
                assert(u1[1] == s[pos + 1] && u2[1] == s[pos + 1]);
                if s[pos + 1] == 117 {
                    assert(c1[0] < 32 && c2[0] < 32);
                    assert(u1[4] == s[pos + 4] && u2[4] == s[pos + 4]);
                    assert(u1[5] == s[pos + 5] && u2[5] == s[pos + 5]);
                    assert(hexd((c1[0] / 16) as nat) == hexd((c2[0] / 16) as nat));
                    assert(hexd((c1[0] % 16) as nat) == hexd((c2[0] % 16) as nat));
                    assert(c1[0] / 16 == c2[0] / 16 && c1[0] % 16 == c2[0] % 16);
                    assert(c1[0] == 16 * (c1[0] / 16) + c1[0] % 16) by (nonlinear_arith);
                    assert(c2[0] == 16 * (c2[0] / 16) + c2[0] % 16) by (nonlinear_arith);
                }
            }
        }
        lemma_str_body_unique(s, pos + u1.len(), c1.drop_first(), e1, c2.drop_first(), e2);
        assert(c1 =~= c2) by {
            assert(c1.len() == c2.len());
            assert forall|i: int| 0 <= i < c1.len() implies c1[i] == c2[i] by {
                if i > 0 {
                    assert(c1.drop_first()[i - 1] == c1[i]);
                    assert(c2.drop_first()[i - 1] == c2[i]);
                }
            }
        }
    }
}

/// Prefix determinism for whole JSON strings: quote, escaped content,
/// quote.
pub proof fn lemma_enc_str_prefix(c1: Seq<u8>, c2: Seq<u8>, r1: Seq<u8>, r2: Seq<u8>)
    requires
        enc_str(c1) + r1 == enc_str(c2) + r2,
    ensures
        c1 == c2,
        r1 == r2,
{
    let s = enc_str(c1) + r1;
    let e1 = 1 + esc_bytes(c1).len() + 1;
    let e2 = 1 + esc_bytes(c2).len() + 1;
    assert(s.subrange(1, e1 as int) =~= esc_bytes(c1) + seq![34u8]) by {
        assert forall|i: int| 0 <= i < e1 - 1 implies s.subrange(1, e1 as int)[i] == (esc_bytes(c1)
            + seq![34u8])[i] by {
            assert(s[1 + i] == (enc_str(c1) + r1)[1 + i]);
            assert((enc_str(c1) + r1)[1 + i] == enc_str(c1)[1 + i]);
            assert(enc_str(c1)[1 + i] == ((seq![34u8] + esc_bytes(c1)) + seq![34u8])[1 + i]);
        }
    }
    assert(s.subrange(1, e2 as int) =~= esc_bytes(c2) + seq![34u8]) by {
        assert forall|i: int| 0 <= i < e2 - 1 implies s.subrange(1, e2 as int)[i] == (esc_bytes(c2)
            + seq![34u8])[i] by {
            assert(s[1 + i] == (enc_str(c2) + r2)[1 + i]);
            assert((enc_str(c2) + r2)[1 + i] == enc_str(c2)[1 + i]);
            assert(enc_str(c2)[1 + i] == ((seq![34u8] + esc_bytes(c2)) + seq![34u8])[1 + i]);
        }
    }
    assert(str_body_at(s, 1, c1, e1 as int));
    assert(str_body_at(s, 1, c2, e2 as int));
    lemma_str_body_unique(s, 1, c1, e1 as int, c2, e2 as int);
    assert(r1 =~= r2) by {
        assert(r1.len() == r2.len());
        assert forall|i: int| 0 <= i < r1.len() implies r1[i] == r2[i] by {
            assert((enc_str(c1) + r1)[e1 + i] == r1[i]);
            assert((enc_str(c2) + r2)[e2 + i] == r2[i]);
        }
    }
}


/// Whether every byte of `s` is a decimal digit.
pub open spec fn all_digits(s: Seq<u8>) -> bool {
    forall|i: int| 0 <= i < s.len() ==> is_digit(#[trigger] s[i])
}

/// The value a digit string spells, most significant digit first.
pub open spec fn digits_val(s: Seq<u8>) -> nat
    decreases s.len(),
{
    if s.len() == 0 {
        0
    } else {
        digits_val(s.drop_last()) * 10 + (if is_digit(s.last()) {
            (s.last() - 48) as nat
        } else {
            0
        })
    }
}

/// The canonical digit string spells its own value back.
pub proof fn lemma_digits_val_dec_digits(n: nat)
    ensures
        digits_val(dec_digits(n)) == n,
    decreases n,
{
    lemma_dec_digits_props(n);
    assert(digits_val(Seq::<u8>::empty()) == 0);
    if n < 10 {
        assert(dec_digits(n).drop_last() =~= Seq::<u8>::empty());
        assert(dec_digits(n).last() == (48 + n) as u8);
        assert(digits_val(dec_digits(n)) == digits_val(Seq::<u8>::empty()) * 10 + n);
    } else {
        lemma_digits_val_dec_digits(n / 10);
        let d = dec_digits(n / 10);
        assert(dec_digits(n) == d.push((48 + n % 10) as u8));
        assert(dec_digits(n).drop_last() =~= d);
        assert(dec_digits(n).last() == (48 + n % 10) as u8);
        lemma_dec_digits_props(n / 10);
        assert(n == (n / 10) * 10 + n % 10) by (nonlinear_arith);
    }
}

/// A digit string's value is bounded by a power of ten at its length.
pub proof fn lemma_digits_val_bound(s: Seq<u8>)
    ensures
        digits_val(s) < pow10(s.len()),
    decreases s.len(),
{
    if s.len() == 0 {
    } else {
        lemma_digits_val_bound(s.drop_last());
        assert(pow10(s.len()) == 10 * pow10((s.len() - 1) as nat));
        assert(digits_val(s.drop_last()) * 10 + 10 <= pow10(s.len())) by (nonlinear_arith)
            requires
                digits_val(s.drop_last()) < pow10((s.len() - 1) as nat),
                pow10(s.len()) == 10 * pow10((s.len() - 1) as nat),
        ;
    }
}

/// Reads the maximal digit run starting at `from`: its end, and its value
/// when the run is short enough to carry one.
pub fn parse_digit_run(b: &[u8], from: usize) -> (r: (usize, Option<u64>))
    requires
        from <= b@.len(),
    ensures
        from <= r.0 <= b@.len(),
        all_digits(b@.subrange(from as int, r.0 as int)),
        r.0 == b@.len() || !is_digit(b@[r.0 as int]),
        match r.1 {
            Some(v) => r.0 - from <= 15 && v == digits_val(b@.subrange(from as int, r.0 as int))
                && v < NUM_LIMIT,
            None => r.0 - from > 15,
        },
{
    let n = b.len();
    let mut i = from;
    let mut acc: u64 = 0;
    proof {
        assert(b@.subrange(from as int, from as int) =~= Seq::<u8>::empty());
        reveal_with_fuel(pow10, 2);
    }
    while i < n && 48 <= b[i] && b[i] <= 57
        invariant
            from <= i <= n,
            n == b@.len(),
            all_digits(b@.subrange(from as int, i as int)),
            i - from <= 15 ==> ((acc as nat) == digits_val(b@.subrange(from as int, i as int))
                && (acc as nat) < pow10((i - from) as nat)),
        decreases n - i,
    {
        proof {
            lemma_pow10_15();
        }
        if i - from < 15 {
            let d = (b[i] - 48) as u64;
            proof {
                lemma_pow10_mono((i - from) as nat, 14);
                assert(pow10(15) == 10 * pow10(14));
                assert(acc * 10 + d < NUM_LIMIT) by (nonlinear_arith)
                    requires
                        (acc as nat) < pow10(14),
                        pow10(15) == 10 * pow10(14),
                        pow10(15) == NUM_LIMIT,
                        d < 10,
                ;
                let t = b@.subrange(from as int, i + 1);
                assert(t.drop_last() =~= b@.subrange(from as int, i as int));
                assert(t.last() == b@[i as int]);
                assert(all_digits(t)) by {
                    assert forall|x: int| 0 <= x < t.len() implies is_digit(t[x]) by {
                        if x < t.len() - 1 {
                            assert(b@.subrange(from as int, i as int)[x] == t[x]);
                        }
                    }
                }
                assert(pow10((i + 1 - from) as nat) == 10 * pow10((i - from) as nat));
                assert(acc * 10 + d < 10 * pow10((i - from) as nat)) by (nonlinear_arith)
                    requires
                        (acc as nat) < pow10((i - from) as nat),
                        d < 10,
                ;
            }
            acc = acc * 10 + (b[i] - 48) as u64;
        } else {
            proof {
                let t = b@.subrange(from as int, i + 1);
                assert(all_digits(t)) by {
                    assert forall|x: int| 0 <= x < t.len() implies is_digit(t[x]) by {
                        if x < t.len() - 1 {
                            assert(b@.subrange(from as int, i as int)[x] == t[x]);
                        }
                    }
                }
            }
        }
        i += 1;
    }
    if i - from <= 15 {
        proof {
            lemma_pow10_15();
            lemma_pow10_mono((i - from) as nat, 15);
        }
        (i, Some(acc))
    } else {
        (i, None)
    }
}

} // verus!
