//! Wire codecs of the domain types: each payload encodes to one canonical
//! JSON text. Payloads this system alone produces decode nothing but that
//! canonical text; the bare measurement payloads, which an external
//! producer spells, decode any JSON number text.
use vstd::prelude::*;

use crate::dto::{Consumption, Decimal, PriceInformation, PriceLevel};
use crate::json::{
    all_digits, dec_at, dec_digits, digits_val, enc_dec, enc_int, int_at, is_digit,
    lemma_dec_at_unique, lemma_dec_digits_props, lemma_int_at_unique, lemma_subrange_elems,
    match_lit, parse_dec, parse_digit_run, parse_int, push_dec, push_int, NUM_LIMIT,
};
use crate::topic::{spec_decode, Decode, DecodeError, Encode};

verus! {

/// The bytes of `{"consumption":`.
pub open spec fn consumption_open() -> Seq<u8> {
    seq![123u8, 34u8, 99u8, 111u8, 110u8, 115u8, 117u8, 109u8, 112u8, 116u8, 105u8, 111u8, 110u8, 34u8, 58u8]
}

fn consumption_open_v() -> (r: Vec<u8>)
    ensures
        r@ == consumption_open(),
{
    let r: Vec<u8> = vec![123u8, 34u8, 99u8, 111u8, 110u8, 115u8, 117u8, 109u8, 112u8, 116u8, 105u8, 111u8, 110u8, 34u8, 58u8];
    proof {
        assert(r@ =~= consumption_open());
    }
    r
}

impl Encode for Consumption {
    /// Every watt count is representable.
    open spec fn wf(&self) -> bool {
        true
    }

    /// `{"consumption":<watts>}`
    open spec fn spec_encode(&self) -> Seq<u8> {
        consumption_open() + enc_int(self.consumption as int) + seq![125u8]
    }

    fn encode(message: &Self) -> (r: Vec<u8>) {
        let mut out = consumption_open_v();
        push_int(&mut out, message.consumption as i64);
        out.push(125u8);
        proof {
            assert(out@ =~= message.spec_encode());
        }
        out
    }
}

impl Decode for Consumption {
    /// This system alone produces consumption payloads: only the
    /// canonical encoding is accepted.
    open spec fn spec_read(b: Seq<u8>) -> Option<Consumption> {
        spec_decode::<Consumption>(b)
    }

    proof fn lemma_read_round_trip(x: Consumption) {
        lemma_consumption_round_trip(x);
    }

    fn decode(payload: &[u8]) -> (r: Result<Self, DecodeError>) {
        let open = consumption_open_v();
        if !match_lit(payload, 0, open.as_slice()) {
            proof {
                lemma_consumption_no_witness_without_open(payload@);
            }
            return Err(DecodeError::Malformed);
        }
        match parse_int(payload, 15) {
            Some((v, end)) => {
                if end < payload.len() && payload[end] == 125u8 && end + 1 == payload.len()
                    && -2147483648i64 <= v && v <= 2147483647i64 {
                    let x = Consumption { consumption: v as i32 };
                    proof {
                        assert(payload@ =~= x.spec_encode()) by {
                            assert(payload@.subrange(0, 15) == consumption_open());
                            assert(payload@.subrange(15, end as int) == enc_int(v as int));
                            assert forall|i: int| 0 <= i < payload@.len() implies payload@[i]
                                == x.spec_encode()[i] by {
                                if i < 15 {
                                    assert(payload@.subrange(0, 15)[i] == payload@[i]);
                                } else if i < end {
                                    assert(payload@.subrange(15, end as int)[i - 15]
                                        == payload@[i]);
                                }
                            }
                        }
                        lemma_consumption_inj_all();
                        lemma_consumption_decode_some(payload@, x);
                    }
                    Ok(x)
                } else {
                    proof {
                        assert forall|y: Consumption| !(y.wf() && y.spec_encode() == payload@)
                        by {
                            if y.wf() && y.spec_encode() == payload@ {
                                lemma_consumption_int_at(payload@, y);
                                lemma_int_at_unique(
                                    payload@,
                                    15,
                                    v,
                                    end as int,
                                    y.consumption as i64,
                                    15 + enc_int(y.consumption as int).len() as int,
                                );
                            }
                        }
                    }
                    Err(DecodeError::Malformed)
                }
            },
            None => {
                proof {
                    assert forall|y: Consumption| !(y.wf() && y.spec_encode() == payload@) by {
                        if y.wf() && y.spec_encode() == payload@ {
                            lemma_consumption_int_at(payload@, y);
                        }
                    }
                }
                Err(DecodeError::Malformed)
            },
        }
    }
}

/// If `b` is the encoding of some `Consumption`, its number reads back at
/// offset 15 with the closing brace as terminator.
proof fn lemma_consumption_int_at(b: Seq<u8>, y: Consumption)
    requires
        y.spec_encode() == b,
    ensures
        int_at(b, 15, y.consumption as i64, 15 + enc_int(y.consumption as int).len() as int),
        b.len() == 16 + enc_int(y.consumption as int).len() as int,
        b[b.len() as int - 1] == 125,
{
    let e = enc_int(y.consumption as int);
    let v = y.consumption as int;
    lemma_dec_digits_props(if v < 0 { (-v) as nat } else { v as nat });
    assert(b.len() == 16 + e.len() as int);
    assert(b.subrange(15, 15 + e.len() as int) =~= e) by {
        assert forall|i: int| 0 <= i < e.len() implies b.subrange(15, 15 + e.len() as int)[i] == e[i]
        by {
            assert(b[15 + i] == (consumption_open() + e + seq![125u8])[15 + i]);
        }
    }
    assert(b[15 + e.len() as int] == (consumption_open() + e + seq![125u8])[15 + e.len() as int]);
    assert(b[15 + e.len() as int] == 125);
    assert(-(NUM_LIMIT as int) < (y.consumption as i64) < (NUM_LIMIT as int));
}

/// The literal `{"consumption":` opens every encoding.
proof fn lemma_consumption_no_witness_without_open(b: Seq<u8>)
    requires
        !(15 <= b.len() && b.subrange(0, 15) == consumption_open()),
    ensures
        forall|y: Consumption| !(y.wf() && y.spec_encode() == b),
{
    assert forall|y: Consumption| !(y.wf() && y.spec_encode() == b) by {
        if y.wf() && y.spec_encode() == b {
            let e = enc_int(y.consumption as int);
            assert(b.len() == 16 + e.len() as int);
            lemma_dec_digits_props(
                if y.consumption < 0 {
                    (-(y.consumption as int)) as nat
                } else {
                    y.consumption as nat
                },
            );
            assert(b.subrange(0, 15) =~= consumption_open()) by {
                assert forall|i: int| 0 <= i < 15 implies b.subrange(0, 15)[i]
                    == consumption_open()[i] by {
                    assert(b[i] == (consumption_open() + e + seq![125u8])[i]);
                }
            }
        }
    }
}

/// The consumption encoding is injective on well-formed values.
pub proof fn lemma_consumption_inj_all()
    ensures
        forall|a: Consumption, b: Consumption|
            a.wf() && b.wf() && a.spec_encode() == b.spec_encode() ==> a == b,
{
    assert forall|a: Consumption, b: Consumption|
        a.wf() && b.wf() && a.spec_encode() == b.spec_encode() implies a == b by {
        let s = a.spec_encode();
        lemma_consumption_int_at(s, a);
        lemma_consumption_int_at(s, b);
        lemma_int_at_unique(
            s,
            15,
            a.consumption as i64,
            15 + enc_int(a.consumption as int).len() as int,
            b.consumption as i64,
            15 + enc_int(b.consumption as int).len() as int,
        );
    }
}

/// With injectivity, a found witness is the decoded value.
proof fn lemma_consumption_decode_some(b: Seq<u8>, x: Consumption)
    requires
        x.wf(),
        x.spec_encode() == b,
        forall|a: Consumption, y: Consumption|
            a.wf() && y.wf() && a.spec_encode() == y.spec_encode() ==> a == y,
    ensures
        spec_decode::<Consumption>(b) == Some(x),
{
    assert(exists|y: Consumption| y.wf() && y.spec_encode() == b);
    let w = choose|y: Consumption| y.wf() && y.spec_encode() == b;
    assert(w == x);
}

/// Round trip for the consumption payload: decoding an encoding gives the
/// value back.
pub proof fn lemma_consumption_round_trip(x: Consumption)
    requires
        x.wf(),
    ensures
        spec_decode::<Consumption>(x.spec_encode()) == Some(x),
{
    lemma_consumption_inj_all();
    crate::topic::lemma_round_trip::<Consumption>(x);
}


impl Encode for Decimal {
    /// Representable as fifteen integer digits and two fraction digits.
    open spec fn wf(&self) -> bool {
        -(crate::json::DEC_LIMIT as int) < (self.hundredths as int) < (crate::json::DEC_LIMIT
            as int)
    }

    /// The bare canonical two-decimal number, e.g. `451.20`.
    open spec fn spec_encode(&self) -> Seq<u8> {
        enc_dec(self.hundredths as int)
    }

    fn encode(message: &Self) -> (r: Vec<u8>) {
        let mut out: Vec<u8> = Vec::new();
        push_dec(&mut out, message.hundredths);
        proof {
            assert(out@ =~= message.spec_encode());
        }
        out
    }
}

/// A JSON number text as an external producer spells it: an optional
/// minus sign, up to fifteen integer digits, optionally a dot and any
/// number of fraction digits.
pub open spec fn json_number_shape(b: Seq<u8>, sb: bool, ip: Seq<u8>, fp: Option<Seq<u8>>) -> bool {
    &&& b == (if sb {
        seq![45u8]
    } else {
        Seq::<u8>::empty()
    }) + ip + (match fp {
        Some(f) => seq![46u8] + f,
        Option::None => Seq::<u8>::empty(),
    })
    &&& 1 <= ip.len() <= 15
    &&& all_digits(ip)
    &&& (fp matches Some(f) ==> f.len() >= 1 && all_digits(f))
}

/// The hundredths a fraction part contributes, rounded to the nearest
/// hundredth with ties away from zero: its first two digits, plus one
/// when the third digit is five or more.
pub open spec fn frac_hundredths(f: Seq<u8>) -> int {
    (if f.len() >= 1 && is_digit(f[0]) {
        10 * ((f[0] - 48) as int)
    } else {
        0
    }) + (if f.len() >= 2 && is_digit(f[1]) {
        (f[1] - 48) as int
    } else {
        0
    }) + (if f.len() >= 3 && f[2] >= 53 {
        1int
    } else {
        0
    })
}

/// The hundredths a JSON number text denotes.
pub open spec fn shape_hundredths(sb: bool, ip: Seq<u8>, fp: Option<Seq<u8>>) -> int {
    if sb {
        -(digits_val(ip) * 100 + (match fp {
            Some(f) => frac_hundredths(f),
            Option::None => 0,
        }))
    } else {
        digits_val(ip) * 100 + (match fp {
            Some(f) => frac_hundredths(f),
            Option::None => 0,
        })
    }
}

pub open spec fn json_number_exists(b: Seq<u8>) -> bool {
    exists|t: (bool, Seq<u8>, Option<Seq<u8>>)| json_number_shape(b, t.0, t.1, t.2)
}

pub open spec fn json_number_hundredths(b: Seq<u8>) -> int {
    let t = choose|t: (bool, Seq<u8>, Option<Seq<u8>>)| json_number_shape(b, t.0, t.1, t.2);
    shape_hundredths(t.0, t.1, t.2)
}

/// A byte string spells at most one JSON number.
proof fn lemma_shape_unique(
    b: Seq<u8>,
    sb1: bool,
    ip1: Seq<u8>,
    fp1: Option<Seq<u8>>,
    sb2: bool,
    ip2: Seq<u8>,
    fp2: Option<Seq<u8>>,
)
    requires
        json_number_shape(b, sb1, ip1, fp1),
        json_number_shape(b, sb2, ip2, fp2),
    ensures
        sb1 == sb2,
        ip1 == ip2,
        fp1 == fp2,
{
    let s1 = if sb1 {
        1int
    } else {
        0int
    };
    assert(b.len() >= s1 + 1);
    assert(sb1 == sb2) by {
        if sb1 && !sb2 {
            assert(b[0] == 45);
            assert(b[0] == ip2[0]);
            assert(is_digit(ip2[0]));
        } else if !sb1 && sb2 {
            assert(b[0] == 45);
            assert(b[0] == ip1[0]);
            assert(is_digit(ip1[0]));
        }
    }
    assert forall|x: int| 0 <= x < ip1.len() implies b[s1 + x] == ip1[x] by {}
    assert forall|x: int| 0 <= x < ip2.len() implies b[s1 + x] == ip2[x] by {}
    assert(ip1.len() == ip2.len()) by {
        if ip1.len() < ip2.len() {
            assert(is_digit(ip2[ip1.len() as int]));
            assert(b[s1 + ip1.len()] == ip2[ip1.len() as int]);
            match fp1 {
                Some(f) => {
                    assert(b[s1 + ip1.len()] == 46);
                },
                Option::None => {
                    assert(b.len() == s1 + ip1.len());
                },
            }
        } else if ip2.len() < ip1.len() {
            assert(is_digit(ip1[ip2.len() as int]));
            assert(b[s1 + ip2.len()] == ip1[ip2.len() as int]);
            match fp2 {
                Some(f) => {
                    assert(b[s1 + ip2.len()] == 46);
                },
                Option::None => {
                    assert(b.len() == s1 + ip2.len());
                },
            }
        }
    }
    assert(ip1 =~= ip2);
    let e = s1 + ip1.len();
    match (fp1, fp2) {
        (Option::None, Option::None) => {},
        (Some(f1), Some(f2)) => {
            assert(f1.len() == f2.len()) by {
                assert(b.len() == e + 1 + f1.len());
                assert(b.len() == e + 1 + f2.len());
            }
            assert(f1 =~= f2) by {
                assert forall|x: int| 0 <= x < f1.len() implies f1[x] == f2[x] by {
                    assert(b[e + 1 + x] == f1[x]);
                    assert(b[e + 1 + x] == f2[x]);
                }
            }
        },
        (Some(f1), Option::None) => {
            assert(b.len() == e + 1 + f1.len());
            assert(b.len() == e);
            assert(false);
        },
        (Option::None, Some(f2)) => {
            assert(b.len() == e + 1 + f2.len());
            assert(b.len() == e);
            assert(false);
        },
    }
}

impl Decode for Decimal {
    /// An external producer spells these payloads, so any JSON number
    /// text is accepted — optional sign, integer digits, optional
    /// fraction of any length — normalized to hundredths, rounding to
    /// the nearest with ties away from zero. A magnitude beyond the
    /// representable range is refused.
    open spec fn spec_read(b: Seq<u8>) -> Option<Decimal> {
        if json_number_exists(b) && -(crate::json::DEC_LIMIT as int) < json_number_hundredths(b)
            < (crate::json::DEC_LIMIT as int) {
            Some(Decimal { hundredths: json_number_hundredths(b) as i64 })
        } else {
            Option::None
        }
    }

    proof fn lemma_read_round_trip(x: Decimal) {
        let h = x.hundredths as int;
        let mag = crate::json::dec_mag(h);
        let sb = h < 0;
        let ip = dec_digits((mag / 100) as nat);
        let f = seq![(48 + (mag % 100) / 10) as u8, (48 + (mag % 100) % 10) as u8];
        let b = x.spec_encode();
        crate::json::lemma_dec_digits_props((mag / 100) as nat);
        crate::json::lemma_pow10_15();
        assert(mag / 100 < crate::json::NUM_LIMIT) by (nonlinear_arith)
            requires
                0 <= mag < crate::json::DEC_LIMIT,
                (crate::json::DEC_LIMIT as int) == 100 * (crate::json::NUM_LIMIT as int),
        ;
        crate::json::lemma_dec_digits_len_bound((mag / 100) as nat, 15);
        assert((mag % 100) / 10 < 10 && (mag % 100) % 10 < 10) by (nonlinear_arith)
            requires
                mag >= 0,
        ;
        assert(json_number_shape(b, sb, ip, Some(f))) by {
            assert(b =~= (if sb {
                seq![45u8]
            } else {
                Seq::<u8>::empty()
            }) + ip + (seq![46u8] + f));
        }
        assert(json_number_exists(b)) by {
            let t = (sb, ip, Some(f));
            assert(json_number_shape(b, t.0, t.1, t.2));
        }
        crate::json::lemma_digits_val_dec_digits((mag / 100) as nat);
        assert(frac_hundredths(f) == mag % 100) by {
            assert(is_digit(f[0]) && is_digit(f[1]));
            assert(mag % 100 == 10 * ((mag % 100) / 10) + (mag % 100) % 10) by (nonlinear_arith)
                requires
                    mag >= 0,
            ;
        }
        assert(mag == 100 * (mag / 100) + mag % 100) by (nonlinear_arith)
            requires
                mag >= 0,
        ;
        assert(shape_hundredths(sb, ip, Some(f)) == h);
        let t2 = choose|t: (bool, Seq<u8>, Option<Seq<u8>>)| json_number_shape(b, t.0, t.1, t.2);
        lemma_shape_unique(b, t2.0, t2.1, t2.2, sb, ip, Some(f));
        assert(json_number_hundredths(b) == h);
    }

    fn decode(payload: &[u8]) -> (r: Result<Self, DecodeError>) {
        let n = payload.len();
        let neg = n > 0 && payload[0] == 45;
        let p0: usize = if neg {
            1
        } else {
            0
        };
        let (e1, vi) = parse_digit_run(payload, p0);
        if e1 == p0 {
            proof {
                assert forall|t: (bool, Seq<u8>, Option<Seq<u8>>)| !json_number_shape(
                    payload@,
                    t.0,
                    t.1,
                    t.2,
                ) by {
                    if json_number_shape(payload@, t.0, t.1, t.2) {
                        lemma_number_parts(payload@, t.0, t.1, t.2, neg, p0 as int);
                        assert(is_digit(payload@[p0 as int]));
                    }
                }
            }
            return Err(DecodeError::Malformed);
        }
        let v = match vi {
            Some(v) => v,
            Option::None => {
                proof {
                    assert forall|t: (bool, Seq<u8>, Option<Seq<u8>>)| !json_number_shape(
                        payload@,
                        t.0,
                        t.1,
                        t.2,
                    ) by {
                        if json_number_shape(payload@, t.0, t.1, t.2) {
                            lemma_number_parts(payload@, t.0, t.1, t.2, neg, p0 as int);
                            assert(p0 + t.1.len() < e1);
                            assert(is_digit(payload@.subrange(p0 as int, e1 as int)[t.1.len() as int]));
                        }
                    }
                }
                return Err(DecodeError::Malformed);
            },
        };
        let mag: u64;
        if e1 == n {
            mag = v * 100;
            proof {
                lemma_decode_sound(payload@, neg, p0 as int, e1 as int, n as int, v);
            }
        } else if payload[e1] != 46 {
            proof {
                assert forall|t: (bool, Seq<u8>, Option<Seq<u8>>)| !json_number_shape(
                    payload@,
                    t.0,
                    t.1,
                    t.2,
                ) by {
                    if json_number_shape(payload@, t.0, t.1, t.2) {
                        lemma_number_parts(payload@, t.0, t.1, t.2, neg, p0 as int);
                        lemma_run_match(payload@, t.1, p0 as int, e1 as int);
                    }
                }
            }
            return Err(DecodeError::Malformed);
        } else {
            let (e2, _) = parse_digit_run(payload, e1 + 1);
            if e1 + 1 == n || e2 != n {
                proof {
                    assert forall|t: (bool, Seq<u8>, Option<Seq<u8>>)| !json_number_shape(
                        payload@,
                        t.0,
                        t.1,
                        t.2,
                    ) by {
                        if json_number_shape(payload@, t.0, t.1, t.2) {
                            lemma_number_parts(payload@, t.0, t.1, t.2, neg, p0 as int);
                            lemma_run_match(payload@, t.1, p0 as int, e1 as int);
                            let f = t.2->Some_0;
                            assert(f =~= payload@.subrange(e1 + 1, n as int)) by {
                                assert forall|x: int| 0 <= x < f.len() implies f[x] == payload@[e1
                                    + 1 + x] by {
                                    lemma_shape_index(payload@, t.0, t.1, t.2, e1 + 1 + x);
                                }
                            }
                            if e2 < n {
                                assert(is_digit(payload@[e2 as int]));
                            }
                        }
                    }
                }
                return Err(DecodeError::Malformed);
            }
            proof {
                assert(is_digit(payload@[e1 + 1])) by {
                    assert(payload@.subrange(e1 + 1, n as int)[0] == payload@[e1 + 1]);
                }
                if n - e1 > 2 {
                    assert(is_digit(payload@[e1 + 2])) by {
                        assert(payload@.subrange(e1 + 1, n as int)[1] == payload@[e1 + 2]);
                    }
                }
            }
            let d1 = (payload[e1 + 1] - 48) as u64;
            let d2: u64 = if n - e1 > 2 {
                (payload[e1 + 2] - 48) as u64
            } else {
                0
            };
            let up: u64 = if n - e1 > 3 && payload[e1 + 3] >= 53 {
                1
            } else {
                0
            };
            mag = v * 100 + (10 * d1 + d2 + up);
            proof {
                lemma_decode_sound_frac(
                    payload@,
                    neg,
                    p0 as int,
                    e1 as int,
                    n as int,
                    v,
                    (10 * d1 + d2 + up) as int,
                );
            }
        }
        if mag >= 100_000_000_000_000_000u64 {
            proof {
                let t = choose|t: (bool, Seq<u8>, Option<Seq<u8>>)| json_number_shape(
                    payload@,
                    t.0,
                    t.1,
                    t.2,
                );
                assert(json_number_hundredths(payload@) == (if neg {
                    -(mag as int)
                } else {
                    mag as int
                }));
            }
            return Err(DecodeError::Malformed);
        }
        let h: i64 = if neg {
            -(mag as i64)
        } else {
            mag as i64
        };
        proof {
            let t = choose|t: (bool, Seq<u8>, Option<Seq<u8>>)| json_number_shape(
                payload@,
                t.0,
                t.1,
                t.2,
            );
            assert(json_number_hundredths(payload@) == h as int);
        }
        Ok(Decimal { hundredths: h })
    }
}

/// Any spelling's sign flag and integer start agree with the parsed ones.
proof fn lemma_number_parts(
    b: Seq<u8>,
    sb: bool,
    ip: Seq<u8>,
    fp: Option<Seq<u8>>,
    neg: bool,
    p0: int,
)
    requires
        json_number_shape(b, sb, ip, fp),
        neg == (b.len() > 0 && b[0] == 45),
        p0 == (if neg {
            1int
        } else {
            0int
        }),
    ensures
        sb == neg,
        p0 + ip.len() <= b.len(),
        forall|x: int| 0 <= x < ip.len() ==> b[p0 + x] == #[trigger] ip[x],
        p0 + ip.len() == b.len() || b[p0 + ip.len()] == 46,
        is_digit(b[p0]),
{
    assert(b.len() >= (if sb {
        1int
    } else {
        0int
    }) + 1);
    assert(sb == neg) by {
        if sb {
            assert(b[0] == 45);
        } else {
            assert(b[0] == ip[0]);
            assert(is_digit(ip[0]));
        }
    }
    assert forall|x: int| 0 <= x < ip.len() implies b[p0 + x] == #[trigger] ip[x] by {}
    assert(b[p0] == ip[0]);
    match fp {
        Some(f) => {
            assert(b[p0 + ip.len()] == 46);
        },
        Option::None => {
            assert(b.len() == p0 + ip.len());
        },
    }
}

/// One byte of a spelled number, read through its concatenation.
proof fn lemma_shape_index(b: Seq<u8>, sb: bool, ip: Seq<u8>, fp: Option<Seq<u8>>, x: int)
    requires
        json_number_shape(b, sb, ip, fp),
        fp is Some,
        (if sb {
            1int
        } else {
            0int
        }) + ip.len() + 1 <= x < b.len(),
    ensures
        b[x] == fp->Some_0[x - (if sb {
            1int
        } else {
            0int
        }) - ip.len() - 1],
{
}

/// A spelling's integer digits are exactly the maximal digit run.
proof fn lemma_run_match(b: Seq<u8>, ip: Seq<u8>, p0: int, e1: int)
    requires
        1 <= ip.len(),
        0 <= p0,
        p0 + ip.len() <= b.len(),
        all_digits(ip),
        forall|x: int| 0 <= x < ip.len() ==> b[p0 + x] == #[trigger] ip[x],
        p0 + ip.len() == b.len() || b[p0 + ip.len()] == 46,
        0 <= p0 <= e1 <= b.len(),
        all_digits(b.subrange(p0, e1)),
        e1 == b.len() || !is_digit(b[e1]),
    ensures
        p0 + ip.len() == e1,
        ip == b.subrange(p0, e1),
{
    if p0 + ip.len() < e1 {
        assert(is_digit(b.subrange(p0, e1)[ip.len() as int]));
        assert(b[p0 + ip.len()] == 46);
    } else if p0 + ip.len() > e1 {
        assert(e1 < b.len());
        assert(is_digit(ip[e1 - p0]));
        assert(b[e1] == ip[e1 - p0]);
    }
    assert(ip =~= b.subrange(p0, e1)) by {
        assert forall|x: int| 0 <= x < ip.len() implies ip[x] == b.subrange(p0, e1)[x] by {
            assert(b.subrange(p0, e1)[x] == b[p0 + x]);
        }
    }
}

/// The whole payload is an integer spelling: it denotes the run's value.
proof fn lemma_decode_sound(b: Seq<u8>, neg: bool, p0: int, e1: int, n: int, v: u64)
    requires
        n == b.len(),
        e1 == n,
        neg == (b.len() > 0 && b[0] == 45),
        p0 == (if neg {
            1int
        } else {
            0int
        }),
        p0 < e1,
        e1 - p0 <= 15,
        all_digits(b.subrange(p0, e1)),
        v == digits_val(b.subrange(p0, e1)),
    ensures
        json_number_exists(b),
        json_number_hundredths(b) == (if neg {
            -(v * 100) as int
        } else {
            (v * 100) as int
        }),
{
    let ip = b.subrange(p0, e1);
    assert(json_number_shape(b, neg, ip, Option::None)) by {
        assert(b =~= (if neg {
            seq![45u8]
        } else {
            Seq::<u8>::empty()
        }) + ip + Seq::<u8>::empty());
    }
    let w = (neg, ip, Option::<Seq<u8>>::None);
    assert(json_number_shape(b, w.0, w.1, w.2));
    let t = choose|t: (bool, Seq<u8>, Option<Seq<u8>>)| json_number_shape(b, t.0, t.1, t.2);
    lemma_shape_unique(b, t.0, t.1, t.2, neg, ip, Option::None);
}

/// The whole payload is a fractional spelling: it denotes the run's value
/// in hundredths plus the rounded fraction.
proof fn lemma_decode_sound_frac(b: Seq<u8>, neg: bool, p0: int, e1: int, n: int, v: u64, fh: int)
    requires
        n == b.len(),
        0 <= e1,
        e1 + 1 < n,
        b[e1] == 46,
        neg == (b.len() > 0 && b[0] == 45),
        p0 == (if neg {
            1int
        } else {
            0int
        }),
        p0 < e1,
        e1 - p0 <= 15,
        all_digits(b.subrange(p0, e1)),
        e1 == n || !is_digit(b[e1]),
        v == digits_val(b.subrange(p0, e1)),
        all_digits(b.subrange(e1 + 1, n)),
        fh == frac_hundredths(b.subrange(e1 + 1, n)),
    ensures
        json_number_exists(b),
        json_number_hundredths(b) == (if neg {
            -(v * 100 + fh)
        } else {
            v * 100 + fh
        }),
{
    let ip = b.subrange(p0, e1);
    let f = b.subrange(e1 + 1, n);
    assert(json_number_shape(b, neg, ip, Some(f))) by {
        assert(b =~= (if neg {
            seq![45u8]
        } else {
            Seq::<u8>::empty()
        }) + ip + (seq![46u8] + f));
    }
    let w = (neg, ip, Some(f));
    assert(json_number_shape(b, w.0, w.1, w.2));
    let t = choose|t: (bool, Seq<u8>, Option<Seq<u8>>)| json_number_shape(b, t.0, t.1, t.2);
    lemma_shape_unique(b, t.0, t.1, t.2, neg, ip, Some(f));
}

/// The wire tag of each price level, as carried inside the JSON string.
pub open spec fn level_tag(level: PriceLevel) -> Seq<u8> {
    match level {
        PriceLevel::Cheap => seq![67u8, 104u8, 101u8, 97u8, 112u8],
        PriceLevel::Expensive => seq![69u8, 120u8, 112u8, 101u8, 110u8, 115u8, 105u8, 118u8, 101u8],
        PriceLevel::Normal => seq![78u8, 111u8, 114u8, 109u8, 97u8, 108u8],
        PriceLevel::VeryCheap => seq![86u8, 101u8, 114u8, 121u8, 67u8, 104u8, 101u8, 97u8, 112u8],
        PriceLevel::VeryExpensive => seq![
            86u8, 101u8, 114u8, 121u8, 69u8, 120u8, 112u8, 101u8, 110u8, 115u8, 105u8, 118u8,
            101u8,
        ],
        PriceLevel::NoneLevel => seq![78u8, 111u8, 110u8, 101u8],
    }
}

fn level_tag_v(level: PriceLevel) -> (r: Vec<u8>)
    ensures
        r@ == level_tag(level),
{
    let r: Vec<u8> = match level {
        PriceLevel::Cheap => vec![67u8, 104u8, 101u8, 97u8, 112u8],
        PriceLevel::Expensive => vec![69u8, 120u8, 112u8, 101u8, 110u8, 115u8, 105u8, 118u8, 101u8],
        PriceLevel::Normal => vec![78u8, 111u8, 114u8, 109u8, 97u8, 108u8],
        PriceLevel::VeryCheap => vec![86u8, 101u8, 114u8, 121u8, 67u8, 104u8, 101u8, 97u8, 112u8],
        PriceLevel::VeryExpensive => vec![
            86u8, 101u8, 114u8, 121u8, 69u8, 120u8, 112u8, 101u8, 110u8, 115u8, 105u8, 118u8,
            101u8,
        ],
        PriceLevel::NoneLevel => vec![78u8, 111u8, 110u8, 101u8],
    };
    proof {
        assert(r@ =~= level_tag(level));
    }
    r
}

/// Distinct levels have distinct wire tags.
pub proof fn lemma_level_tag_inj(a: PriceLevel, b: PriceLevel)
    requires
        level_tag(a) == level_tag(b),
    ensures
        a == b,
{
    if a != b {
        assert(level_tag(PriceLevel::Expensive)[0] != level_tag(PriceLevel::VeryCheap)[0]);
        assert(level_tag(a).len() == level_tag(b).len());
        assert(level_tag(a)[0] == level_tag(b)[0]);
        assert(false);
    }
}

/// The bytes of `{"total":`.
pub open spec fn price_open() -> Seq<u8> {
    seq![123u8, 34u8, 116u8, 111u8, 116u8, 97u8, 108u8, 34u8, 58u8]
}

fn price_open_v() -> (r: Vec<u8>)
    ensures
        r@ == price_open(),
{
    let r: Vec<u8> = vec![123u8, 34u8, 116u8, 111u8, 116u8, 97u8, 108u8, 34u8, 58u8];
    proof {
        assert(r@ =~= price_open());
    }
    r
}

/// The bytes of `,"level":"`.
pub open spec fn price_mid() -> Seq<u8> {
    seq![44u8, 34u8, 108u8, 101u8, 118u8, 101u8, 108u8, 34u8, 58u8, 34u8]
}

fn price_mid_v() -> (r: Vec<u8>)
    ensures
        r@ == price_mid(),
{
    let r: Vec<u8> = vec![44u8, 34u8, 108u8, 101u8, 118u8, 101u8, 108u8, 34u8, 58u8, 34u8];
    proof {
        assert(r@ =~= price_mid());
    }
    r
}

impl Encode for PriceInformation {
    /// Representable when the total amount is.
    open spec fn wf(&self) -> bool {
        self.total.wf()
    }

    /// `{"total":<amount>,"level":"<tag>"}`
    open spec fn spec_encode(&self) -> Seq<u8> {
        price_open() + enc_dec(self.total.hundredths as int) + price_mid() + level_tag(self.level)
            + seq![34u8, 125u8]
    }

    fn encode(message: &Self) -> (r: Vec<u8>) {
        let mut out = price_open_v();
        push_dec(&mut out, message.total.hundredths);
        let mid = price_mid_v();
        let mut i: usize = 0;
        let ghost before_mid = out@;
        while i < mid.len()
            invariant
                0 <= i <= mid@.len(),
                out@ == before_mid + mid@.subrange(0, i as int),
            decreases mid@.len() - i,
        {
            out.push(mid[i]);
            proof {
                assert(out@ =~= before_mid + mid@.subrange(0, i + 1));
            }
            i += 1;
        }
        let tag = level_tag_v(message.level);
        let ghost before_tag = out@;
        let mut j: usize = 0;
        while j < tag.len()
            invariant
                0 <= j <= tag@.len(),
                out@ == before_tag + tag@.subrange(0, j as int),
            decreases tag@.len() - j,
        {
            out.push(tag[j]);
            proof {
                assert(out@ =~= before_tag + tag@.subrange(0, j + 1));
            }
            j += 1;
        }
        out.push(34u8);
        out.push(125u8);
        proof {
            assert(mid@.subrange(0, mid@.len() as int) =~= mid@);
            assert(tag@.subrange(0, tag@.len() as int) =~= tag@);
            assert(out@ =~= message.spec_encode());
        }
        out
    }
}

/// Where each piece of a price encoding sits, given a witness value.
proof fn lemma_price_parts(b: Seq<u8>, y: PriceInformation)
    requires
        y.spec_encode() == b,
        y.wf(),
    ensures
        b.len() == 9 + enc_dec(y.total.hundredths as int).len() + 10 + level_tag(y.level).len()
            + 2,
        b.subrange(0, 9) == price_open(),
        dec_at(b, 9, y.total.hundredths, 9 + enc_dec(y.total.hundredths as int).len() as int),
        b.subrange(
            9 + enc_dec(y.total.hundredths as int).len() as int,
            19 + enc_dec(y.total.hundredths as int).len() as int,
        ) == price_mid(),
        b.subrange(
            19 + enc_dec(y.total.hundredths as int).len() as int,
            b.len() - 2,
        ) == level_tag(y.level),
        b[b.len() - 2] == 34,
        b[b.len() - 1] == 125,
{
    let ed = enc_dec(y.total.hundredths as int);
    let tag = level_tag(y.level);
    let e1 = 9 + ed.len() as int;
    assert(b.len() == 9 + ed.len() + 10 + tag.len() + 2);
    assert forall|i: int| 0 <= i < b.len() implies b[i] == (price_open() + ed + price_mid() + tag
        + seq![34u8, 125u8])[i] by {}
    assert(b.subrange(0, 9) =~= price_open());
    assert(b.subrange(9, e1) =~= ed) by {
        assert forall|i: int| 0 <= i < ed.len() implies b.subrange(9, e1)[i] == ed[i] by {
            assert(b[9 + i] == (price_open() + ed + price_mid() + tag + seq![34u8, 125u8])[9 + i]);
            assert((price_open() + ed + price_mid() + tag + seq![34u8, 125u8])[9 + i] == ed[i]);
        }
    }
    assert(b.subrange(e1, e1 + 10) =~= price_mid()) by {
        assert forall|i: int| 0 <= i < 10 implies b.subrange(e1, e1 + 10)[i] == price_mid()[i] by {
            assert(b[e1 + i] == (price_open() + ed + price_mid() + tag + seq![34u8, 125u8])[e1
                + i]);
        }
    }
    assert(b.subrange(e1 + 10, b.len() - 2) =~= tag) by {
        assert forall|i: int| 0 <= i < tag.len() implies b.subrange(e1 + 10, b.len() - 2)[i]
            == tag[i] by {
            assert(b[e1 + 10 + i] == (price_open() + ed + price_mid() + tag + seq![34u8, 125u8])[e1
                + 10 + i]);
        }
    }
    assert(b[b.len() - 2] == (price_open() + ed + price_mid() + tag + seq![34u8, 125u8])[b.len()
        - 2]);
    assert(b[b.len() - 1] == (price_open() + ed + price_mid() + tag + seq![34u8, 125u8])[b.len()
        - 1]);
    assert(dec_at(b, 9, y.total.hundredths, e1)) by {
        assert(b[e1] == price_mid()[0]);
        assert(!crate::json::is_digit(44u8));
    }
}

/// The price encoding is injective on well-formed values.
pub proof fn lemma_price_inj_all()
    ensures
        forall|a: PriceInformation, b: PriceInformation|
            a.wf() && b.wf() && a.spec_encode() == b.spec_encode() ==> a == b,
{
    assert forall|a: PriceInformation, b: PriceInformation|
        a.wf() && b.wf() && a.spec_encode() == b.spec_encode() implies a == b by {
        let s = a.spec_encode();
        lemma_price_parts(s, a);
        lemma_price_parts(s, b);
        lemma_dec_at_unique(
            s,
            9,
            a.total.hundredths,
            9 + enc_dec(a.total.hundredths as int).len() as int,
            b.total.hundredths,
            9 + enc_dec(b.total.hundredths as int).len() as int,
        );
        assert(level_tag(a.level) == level_tag(b.level));
        lemma_level_tag_inj(a.level, b.level);
    }
}

impl Decode for PriceInformation {
    /// This system alone produces price payloads: only the canonical
    /// encoding is accepted.
    open spec fn spec_read(b: Seq<u8>) -> Option<PriceInformation> {
        spec_decode::<PriceInformation>(b)
    }

    proof fn lemma_read_round_trip(x: PriceInformation) {
        lemma_price_round_trip(x);
    }

    #[verifier::rlimit(100)]
    fn decode(payload: &[u8]) -> (r: Result<Self, DecodeError>) {
        let n = payload.len();
        let open = price_open_v();
        if !match_lit(payload, 0, open.as_slice()) {
            proof {
                assert forall|y: PriceInformation| !(y.wf() && y.spec_encode() == payload@) by {
                    if y.wf() && y.spec_encode() == payload@ {
                        lemma_price_parts(payload@, y);
                    }
                }
            }
            return Err(DecodeError::Malformed);
        }
        let (h, e1) = match parse_dec(payload, 9) {
            Some(p) => p,
            None => {
                proof {
                    assert forall|y: PriceInformation| !(y.wf() && y.spec_encode() == payload@)
                    by {
                        if y.wf() && y.spec_encode() == payload@ {
                            lemma_price_parts(payload@, y);
                        }
                    }
                }
                return Err(DecodeError::Malformed);
            },
        };
        let mid = price_mid_v();
        if !match_lit(payload, e1, mid.as_slice()) {
            proof {
                assert forall|y: PriceInformation| !(y.wf() && y.spec_encode() == payload@) by {
                    if y.wf() && y.spec_encode() == payload@ {
                        lemma_price_parts(payload@, y);
                        lemma_dec_at_unique(
                            payload@,
                            9,
                            h,
                            e1 as int,
                            y.total.hundredths,
                            9 + enc_dec(y.total.hundredths as int).len() as int,
                        );
                    }
                }
            }
            return Err(DecodeError::Malformed);
        }
        let p = e1 + 10;
        if let Some(x) = try_level(payload, h, e1, PriceLevel::Cheap) {
            return Ok(x);
        }
        if let Some(x) = try_level(payload, h, e1, PriceLevel::Expensive) {
            return Ok(x);
        }
        if let Some(x) = try_level(payload, h, e1, PriceLevel::Normal) {
            return Ok(x);
        }
        if let Some(x) = try_level(payload, h, e1, PriceLevel::VeryCheap) {
            return Ok(x);
        }
        if let Some(x) = try_level(payload, h, e1, PriceLevel::VeryExpensive) {
            return Ok(x);
        }
        if let Some(x) = try_level(payload, h, e1, PriceLevel::NoneLevel) {
            return Ok(x);
        }
        proof {
            assert forall|y: PriceInformation| !(y.wf() && y.spec_encode() == payload@) by {
                if y.wf() && y.spec_encode() == payload@ {
                    lemma_price_parts(payload@, y);
                    lemma_dec_at_unique(
                        payload@,
                        9,
                        h,
                        e1 as int,
                        y.total.hundredths,
                        9 + enc_dec(y.total.hundredths as int).len() as int,
                    );
                    assert(level_cond(payload@, p as int, y.level));
                }
            }
        }
        Err(DecodeError::Malformed)
    }
}

/// The level tag of `level`, the closing quote and the closing brace sit
/// at `p` and end the buffer.
pub open spec fn level_cond(s: Seq<u8>, p: int, level: PriceLevel) -> bool {
    &&& p + level_tag(level).len() + 2 == s.len()
    &&& s.subrange(p, p + level_tag(level).len() as int) == level_tag(level)
    &&& s[s.len() - 2] == 34
    &&& s[s.len() - 1] == 125
}

/// Tries to read one level's tag and the closing bytes at the end of a
/// price payload whose amount has already been read.
fn try_level(payload: &[u8], h: i64, e1: usize, level: PriceLevel) -> (r: Option<
    PriceInformation,
>)
    requires
        9 <= e1,
        e1 + 10 <= payload@.len(),
        payload@.subrange(0, 9) == price_open(),
        dec_at(payload@, 9, h, e1 as int),
        payload@.subrange(e1 as int, e1 + 10) == price_mid(),
    ensures
        match r {
            Some(x) => {
                &&& x == (PriceInformation { total: Decimal { hundredths: h }, level })
                &&& x.wf()
                &&& x.spec_encode() == payload@
                &&& spec_decode::<PriceInformation>(payload@) == Some(x)
            },
            Option::None => !level_cond(payload@, e1 + 10, level),
        },
{
    let n = payload.len();
    let p = e1 + 10;
    let tag = level_tag_v(level);
    if match_lit(payload, p, tag.as_slice()) {
        let after = p + tag.len();
        if n >= 2 && after == n - 2 && payload[n - 2] == 34 && payload[n - 1] == 125 {
            let x = PriceInformation { total: Decimal { hundredths: h }, level };
            proof {
                assert(payload@ =~= x.spec_encode()) by {
                    let ed = enc_dec(h as int);
                    assert(payload@.subrange(9, e1 as int) == ed);
                    lemma_subrange_elems(payload@, 0, price_open());
                    lemma_subrange_elems(payload@, 9, ed);
                    lemma_subrange_elems(payload@, e1 as int, price_mid());
                    lemma_subrange_elems(payload@, p as int, level_tag(level));
                    assert forall|i: int| 0 <= i < payload@.len() implies payload@[i]
                        == x.spec_encode()[i] by {}
                }
                lemma_price_inj_all();
                assert(exists|y: PriceInformation| y.wf() && y.spec_encode() == payload@);
                let w = choose|y: PriceInformation| y.wf() && y.spec_encode() == payload@;
                assert(w == x);
            }
            return Some(x);
        }
    }
    Option::None
}

/// Round trip for the price payload.
pub proof fn lemma_price_round_trip(x: PriceInformation)
    requires
        x.wf(),
    ensures
        spec_decode::<PriceInformation>(x.spec_encode()) == Some(x),
{
    lemma_price_inj_all();
    crate::topic::lemma_round_trip::<PriceInformation>(x);
}

} // verus!
