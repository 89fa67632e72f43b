//! MessagePack binary codec: canonical encoder and tolerant decoder,
//! with a proof that decoding inverts encoding on well-formed values.
//!
//! The encoder always uses the widest fixed formats (`int 64`,
//! `str 32`, `array 32`, `map 32`), which every MessagePack reader
//! accepts. The decoder additionally reads the compact formats a
//! peer is likely to send, and rejects what the model cannot hold:
//! floats, bin and ext values, text that is not UTF-8, unsigned
//! values above `i64::MAX`, and nesting beyond
//! [`MAX_DEPTH`](crate::value::MAX_DEPTH).

use vstd::prelude::*;
use vstd::utf8::{
    decode_utf8, encode_utf8, encode_utf8_decode_utf8, encode_utf8_valid_utf8,
    valid_utf8,
};

use crate::value::{
    string_from_utf8_checked,
    jdepth, jdepth_items, jdepth_members, jmembers_of, jval_of, jval_wf, jval_wf_items,
    jval_wf_members, jvals_of, lemma_jmembers_of, lemma_jmembers_of_push,
    lemma_jval_wf_items_index, lemma_jval_wf_members_index, lemma_jvals_of, lemma_jvals_of_push,
    lemma_wf_items_push, lemma_wf_members_push, JVal, JsonValue, MAX_DEPTH, MAX_LEN,
};

verus! {

// ---------- byte-order helpers ----------

pub open spec fn be32(n: u32) -> Seq<u8> {
    seq![
        (n >> 24) as u8,
        ((n >> 16) & 0xff) as u8,
        ((n >> 8) & 0xff) as u8,
        (n & 0xff) as u8,
    ]
}

pub open spec fn be64(n: u64) -> Seq<u8> {
    seq![
        (n >> 56) as u8,
        ((n >> 48) & 0xff) as u8,
        ((n >> 40) & 0xff) as u8,
        ((n >> 32) & 0xff) as u8,
        ((n >> 24) & 0xff) as u8,
        ((n >> 16) & 0xff) as u8,
        ((n >> 8) & 0xff) as u8,
        (n & 0xff) as u8,
    ]
}

pub open spec fn rd16(s: Seq<u8>, off: int) -> u16 {
    (((s[off] as u16) << 8) | (s[off + 1] as u16)) as u16
}

pub open spec fn rd32(s: Seq<u8>, off: int) -> u32 {
    (((s[off] as u32) << 24) | ((s[off + 1] as u32) << 16) | ((s[off + 2] as u32) << 8) | (s[off
        + 3] as u32)) as u32
}

pub open spec fn rd64(s: Seq<u8>, off: int) -> u64 {
    (((s[off] as u64) << 56) | ((s[off + 1] as u64) << 48) | ((s[off + 2] as u64) << 40) | ((s[off
        + 3] as u64) << 32) | ((s[off + 4] as u64) << 24) | ((s[off + 5] as u64) << 16) | ((s[off
        + 6] as u64) << 8) | (s[off + 7] as u64)) as u64
}

// ---------- encoder specification ----------

/// The `str 32` encoding of a string: its UTF-8 bytes under a
/// 32-bit byte-length header.
pub open spec fn mp_enc_str(k: Seq<char>) -> Seq<u8> {
    seq![0xdbu8] + be32(encode_utf8(k).len() as u32) + encode_utf8(k)
}

pub open spec fn mp_enc(x: JVal) -> Seq<u8>
    decreases x,
{
    match x {
        JVal::Null => seq![0xc0u8],
        JVal::Bool(b) => if b {
            seq![0xc3u8]
        } else {
            seq![0xc2u8]
        },
        JVal::Int(i) => seq![0xd3u8] + be64(i as u64),
        JVal::Str(s) => mp_enc_str(s),
        JVal::Arr(l) => seq![0xddu8] + be32(l.len() as u32) + mp_enc_items(l),
        JVal::Obj(m) => seq![0xdfu8] + be32(m.len() as u32) + mp_enc_members(m),
    }
}

pub open spec fn mp_enc_items(l: Seq<JVal>) -> Seq<u8>
    decreases l,
{
    if l.len() == 0 {
        Seq::empty()
    } else {
        mp_enc(l[0]) + mp_enc_items(l.drop_first())
    }
}

pub open spec fn mp_enc_members(m: Seq<(Seq<char>, JVal)>) -> Seq<u8>
    decreases m,
{
    if m.len() == 0 {
        Seq::empty()
    } else {
        mp_enc_str(m[0].0) + mp_enc(m[0].1) + mp_enc_members(m.drop_first())
    }
}

// ---------- decoder specification ----------

/// A string body of `len` bytes at `off`, if in range and valid
/// UTF-8.
pub open spec fn mp_str_at(s: Seq<u8>, off: int, len: int) -> Option<Seq<char>> {
    if off + len <= s.len() && valid_utf8(s.subrange(off, off + len)) {
        Some(decode_utf8(s.subrange(off, off + len)))
    } else {
        None
    }
}

/// Decodes one value at the head of `s`; `d` bounds the nesting that
/// may still be opened. Returns the value and the bytes consumed.
pub open spec fn mp_value(s: Seq<u8>, d: nat) -> Option<(JVal, int)>
    decreases d, s.len(), 1int,
{
    if s.len() == 0 {
        None
    } else {
        let b0 = s[0];
        if b0 == 0xc0 {
            Some((JVal::Null, 1))
        } else if b0 == 0xc2 {
            Some((JVal::Bool(false), 1))
        } else if b0 == 0xc3 {
            Some((JVal::Bool(true), 1))
        } else if b0 <= 0x7f {
            Some((JVal::Int(b0 as int), 1))
        } else if b0 >= 0xe0 {
            Some((JVal::Int(b0 - 256), 1))
        } else if b0 == 0xcc {
            if s.len() >= 2 {
                Some((JVal::Int(s[1] as int), 2))
            } else {
                None
            }
        } else if b0 == 0xcd {
            if s.len() >= 3 {
                Some((JVal::Int(rd16(s, 1) as int), 3))
            } else {
                None
            }
        } else if b0 == 0xce {
            if s.len() >= 5 {
                Some((JVal::Int(rd32(s, 1) as int), 5))
            } else {
                None
            }
        } else if b0 == 0xcf {
            if s.len() >= 9 {
                if rd64(s, 1) <= i64::MAX as u64 {
                    Some((JVal::Int(rd64(s, 1) as int), 9))
                } else {
                    None
                }
            } else {
                None
            }
        } else if b0 == 0xd0 {
            if s.len() >= 2 {
                Some((JVal::Int((s[1] as i8) as int), 2))
            } else {
                None
            }
        } else if b0 == 0xd1 {
            if s.len() >= 3 {
                Some((JVal::Int((rd16(s, 1) as i16) as int), 3))
            } else {
                None
            }
        } else if b0 == 0xd2 {
            if s.len() >= 5 {
                Some((JVal::Int((rd32(s, 1) as i32) as int), 5))
            } else {
                None
            }
        } else if b0 == 0xd3 {
            if s.len() >= 9 {
                Some((JVal::Int((rd64(s, 1) as i64) as int), 9))
            } else {
                None
            }
        } else if 0xa0 <= b0 && b0 <= 0xbf {
            match mp_str_at(s, 1, b0 - 0xa0) {
                Some(cs) => Some((JVal::Str(cs), 1 + (b0 - 0xa0))),
                None => None,
            }
        } else if b0 == 0xd9 {
            if s.len() >= 2 {
                match mp_str_at(s, 2, s[1] as int) {
                    Some(cs) => Some((JVal::Str(cs), 2 + s[1] as int)),
                    None => None,
                }
            } else {
                None
            }
        } else if b0 == 0xda {
            if s.len() >= 3 {
                match mp_str_at(s, 3, rd16(s, 1) as int) {
                    Some(cs) => Some((JVal::Str(cs), 3 + rd16(s, 1) as int)),
                    None => None,
                }
            } else {
                None
            }
        } else if b0 == 0xdb {
            if s.len() >= 5 {
                match mp_str_at(s, 5, rd32(s, 1) as int) {
                    Some(cs) => Some((JVal::Str(cs), 5 + rd32(s, 1) as int)),
                    None => None,
                }
            } else {
                None
            }
        } else if 0x90 <= b0 && b0 <= 0x9f {
            mp_arr_tail(s, 1, (b0 - 0x90) as nat, d)
        } else if b0 == 0xdc {
            if s.len() >= 3 {
                mp_arr_tail(s, 3, rd16(s, 1) as nat, d)
            } else {
                None
            }
        } else if b0 == 0xdd {
            if s.len() >= 5 {
                mp_arr_tail(s, 5, rd32(s, 1) as nat, d)
            } else {
                None
            }
        } else if 0x80 <= b0 && b0 <= 0x8f {
            mp_map_tail(s, 1, (b0 - 0x80) as nat, d)
        } else if b0 == 0xde {
            if s.len() >= 3 {
                mp_map_tail(s, 3, rd16(s, 1) as nat, d)
            } else {
                None
            }
        } else if b0 == 0xdf {
            if s.len() >= 5 {
                mp_map_tail(s, 5, rd32(s, 1) as nat, d)
            } else {
                None
            }
        } else {
            None
        }
    }
}

/// The elements of an array whose header ended at `off`.
pub open spec fn mp_arr_tail(s: Seq<u8>, off: int, n: nat, d: nat) -> Option<(JVal, int)>
    decreases d, s.len(), 0int,
{
    if n == 0 {
        Some((JVal::Arr(Seq::empty()), off))
    } else if d == 0 || off > s.len() {
        None
    } else {
        match mp_items(s.skip(off), n, (d - 1) as nat) {
            Some((l, c)) => Some((JVal::Arr(l), off + c)),
            None => None,
        }
    }
}

/// The members of a map whose header ended at `off`.
pub open spec fn mp_map_tail(s: Seq<u8>, off: int, n: nat, d: nat) -> Option<(JVal, int)>
    decreases d, s.len(), 0int,
{
    if n == 0 {
        Some((JVal::Obj(Seq::empty()), off))
    } else if d == 0 || off > s.len() {
        None
    } else {
        match mp_pairs(s.skip(off), n, (d - 1) as nat) {
            Some((m, c)) => Some((JVal::Obj(m), off + c)),
            None => None,
        }
    }
}

/// Decodes `n` consecutive values.
pub open spec fn mp_items(s: Seq<u8>, n: nat, d: nat) -> Option<(Seq<JVal>, int)>
    decreases d, s.len(), 2int,
{
    if n == 0 {
        Some((Seq::empty(), 0))
    } else {
        match mp_value(s, d) {
            None => None,
            Some((v, c)) => if !(1 <= c <= s.len()) {
                None
            } else {
                match mp_items(s.skip(c), (n - 1) as nat, d) {
                    Some((rest, rc)) => Some((seq![v] + rest, c + rc)),
                    None => None,
                }
            },
        }
    }
}

/// Decodes `n` consecutive key-value pairs; every key must be a
/// string.
pub open spec fn mp_pairs(s: Seq<u8>, n: nat, d: nat) -> Option<(Seq<(Seq<char>, JVal)>, int)>
    decreases d, s.len(), 2int,
{
    if n == 0 {
        Some((Seq::empty(), 0))
    } else {
        match mp_value(s, d) {
            None => None,
            Some((kv, kc)) => match kv {
                JVal::Str(k) => if !(1 <= kc <= s.len()) {
                    None
                } else {
                    match mp_value(s.skip(kc), d) {
                        None => None,
                        Some((v, vc)) => if !(1 <= vc && kc + vc <= s.len()) {
                            None
                        } else {
                            match mp_pairs(s.skip(kc + vc), (n - 1) as nat, d) {
                                Some((rest, rc)) => Some((seq![(k, v)] + rest, kc + vc + rc)),
                                None => None,
                            }
                        },
                    }
                },
                _ => None,
            },
        }
    }
}

/// Whole-buffer decode: exactly one value and nothing after it.
pub open spec fn mp_dec(b: Seq<u8>) -> Option<JVal> {
    match mp_value(b, (MAX_DEPTH - 1) as nat) {
        None => None,
        Some((x, n)) => if n == b.len() {
            Some(x)
        } else {
            None
        },
    }
}


// ---------- round trip: decoding inverts encoding ----------

proof fn lemma_rd32_of_be32(n: u32, s: Seq<u8>, off: int)
    requires
        0 <= off,
        off + 4 <= s.len(),
        s[off] == be32(n)[0],
        s[off + 1] == be32(n)[1],
        s[off + 2] == be32(n)[2],
        s[off + 3] == be32(n)[3],
    ensures
        rd32(s, off) == n,
{
    let b0 = s[off];
    let b1 = s[off + 1];
    let b2 = s[off + 2];
    let b3 = s[off + 3];
    assert((((b0 as u32) << 24) | ((b1 as u32) << 16) | ((b2 as u32) << 8) | (b3 as u32)) as u32
        == n) by (bit_vector)
        requires
            b0 == (n >> 24) as u8,
            b1 == ((n >> 16) & 0xff) as u8,
            b2 == ((n >> 8) & 0xff) as u8,
            b3 == (n & 0xff) as u8,
    ;
}

proof fn lemma_rd64_of_be64(n: u64, s: Seq<u8>, off: int)
    requires
        0 <= off,
        off + 8 <= s.len(),
        forall|i: int| 0 <= i < 8 ==> s[off + i] == be64(n)[i],
    ensures
        rd64(s, off) == n,
{
    let b0 = s[off];
    let b1 = s[off + 1];
    let b2 = s[off + 2];
    let b3 = s[off + 3];
    let b4 = s[off + 4];
    let b5 = s[off + 5];
    let b6 = s[off + 6];
    let b7 = s[off + 7];
    assert(s[off + 0] == be64(n)[0]);
    assert(s[off + 1] == be64(n)[1]);
    assert(s[off + 2] == be64(n)[2]);
    assert(s[off + 3] == be64(n)[3]);
    assert(s[off + 4] == be64(n)[4]);
    assert(s[off + 5] == be64(n)[5]);
    assert(s[off + 6] == be64(n)[6]);
    assert(s[off + 7] == be64(n)[7]);
    assert((((b0 as u64) << 56) | ((b1 as u64) << 48) | ((b2 as u64) << 40) | ((b3 as u64) << 32)
        | ((b4 as u64) << 24) | ((b5 as u64) << 16) | ((b6 as u64) << 8) | (b7 as u64)) as u64
        == n) by (bit_vector)
        requires
            b0 == (n >> 56) as u8,
            b1 == ((n >> 48) & 0xff) as u8,
            b2 == ((n >> 40) & 0xff) as u8,
            b3 == ((n >> 32) & 0xff) as u8,
            b4 == ((n >> 24) & 0xff) as u8,
            b5 == ((n >> 16) & 0xff) as u8,
            b6 == ((n >> 8) & 0xff) as u8,
            b7 == (n & 0xff) as u8,
    ;
}

/// Decoding inverts the `str 32` encoding of a string.
#[verifier::rlimit(100)]
proof fn lemma_mp_rt_str(k: Seq<char>, rest: Seq<u8>, d: nat)
    requires
        encode_utf8(k).len() <= MAX_LEN,
    ensures
        mp_value(mp_enc_str(k) + rest, d) == Some(
            (JVal::Str(k), mp_enc_str(k).len() as int),
        ),
        mp_enc_str(k).len() == 5 + encode_utf8(k).len(),
{
    let s = mp_enc_str(k) + rest;
    let kb = encode_utf8(k);
    let lw = kb.len() as u32;
    assert(s[0] == 0xdb);
    assert(s.len() >= 5);
    assert forall|i: int| 0 <= i < 4 implies s[1 + i] == be32(lw)[i] by {}
    lemma_rd32_of_be32(lw, s, 1);
    assert(lw as int == kb.len() as int);
    assert(s.subrange(5, 5 + kb.len() as int) =~= kb);
    encode_utf8_valid_utf8(k);
    encode_utf8_decode_utf8(k);
    assert(mp_str_at(s, 5, kb.len() as int) == Some(k));
}

/// Length of any encoded value is at least one byte.
proof fn lemma_mp_enc_head(x: JVal)
    ensures
        mp_enc(x).len() >= 1,
{
}

/// Decoding inverts encoding for one value, given a depth budget
/// covering its nesting.
#[verifier::rlimit(100)]
proof fn lemma_mp_rt_value(x: JVal, rest: Seq<u8>, d: nat)
    requires
        jval_wf(x),
        jdepth(x) <= d + 1,
    ensures
        mp_value(mp_enc(x) + rest, d) == Some((x, mp_enc(x).len() as int)),
    decreases x, 2int,
{
    let s = mp_enc(x) + rest;
    match x {
        JVal::Null => {
            assert(s[0] == 0xc0);
        },
        JVal::Bool(b) => {
            assert(s[0] == if b {
                0xc3u8
            } else {
                0xc2u8
            });
        },
        JVal::Int(i) => {
            let u = i as u64;
            assert(s[0] == 0xd3);
            assert(s.len() >= 9);
            assert forall|j: int| 0 <= j < 8 implies s[1 + j] == be64(u)[j] by {
                assert(s[1 + j] == (seq![0xd3u8] + be64(u))[1 + j]);
            }
            lemma_rd64_of_be64(u, s, 1);
            let ii = i as i64;
            assert((ii as u64) as i64 == ii) by (bit_vector);
            assert((rd64(s, 1) as i64) as int == i);
        },
        JVal::Str(cs) => {
            lemma_mp_rt_str(cs, rest, d);
        },
        JVal::Arr(l) => {
            let n = l.len() as u32;
            assert(s[0] == 0xdd);
            assert(s.len() >= 5);
            assert forall|j: int| 0 <= j < 4 implies s[1 + j] == be32(n)[j] by {}
            lemma_rd32_of_be32(n, s, 1);
            assert(n as int == l.len() as int);
            if l.len() == 0 {
                assert(l =~= Seq::<JVal>::empty());
                assert(mp_enc_items(l) =~= Seq::<u8>::empty());
                assert(mp_value(s, d) == Some((x, 5int)));
                assert(mp_enc(x).len() == 5);
            } else {
                assert(jdepth_items(l) >= jdepth(l[0]) >= 1) by {
                    lemma_jval_wf_items_index(l, 0);
                }
                assert(d >= 1);
                assert(s.skip(5) =~= mp_enc_items(l) + rest);
                lemma_mp_rt_items(l, rest, (d - 1) as nat);
                assert(mp_items(s.skip(5), l.len(), (d - 1) as nat) == Some(
                    (l, mp_enc_items(l).len() as int),
                ));
                assert(mp_value(s, d) == Some((x, 5 + mp_enc_items(l).len() as int)));
            }
        },
        JVal::Obj(m) => {
            let n = m.len() as u32;
            assert(s[0] == 0xdf);
            assert(s.len() >= 5);
            assert forall|j: int| 0 <= j < 4 implies s[1 + j] == be32(n)[j] by {}
            lemma_rd32_of_be32(n, s, 1);
            assert(n as int == m.len() as int);
            if m.len() == 0 {
                assert(m =~= Seq::<(Seq<char>, JVal)>::empty());
                assert(mp_enc_members(m) =~= Seq::<u8>::empty());
                assert(mp_value(s, d) == Some((x, 5int)));
                assert(mp_enc(x).len() == 5);
            } else {
                assert(jdepth_members(m) >= jdepth(m[0].1) >= 1) by {
                    lemma_jval_wf_members_index(m, 0);
                }
                assert(d >= 1);
                assert(s.skip(5) =~= mp_enc_members(m) + rest);
                lemma_mp_rt_pairs(m, rest, (d - 1) as nat);
                assert(mp_pairs(s.skip(5), m.len(), (d - 1) as nat) == Some(
                    (m, mp_enc_members(m).len() as int),
                ));
                assert(mp_value(s, d) == Some((x, 5 + mp_enc_members(m).len() as int)));
            }
        },
    }
}

/// Decoding inverts encoding for a list of values.
#[verifier::rlimit(100)]
proof fn lemma_mp_rt_items(l: Seq<JVal>, rest: Seq<u8>, d: nat)
    requires
        jval_wf_items(l),
        jdepth_items(l) <= d + 1,
    ensures
        mp_items(mp_enc_items(l) + rest, l.len(), d) == Some(
            (l, mp_enc_items(l).len() as int),
        ),
    decreases l, 3int,
{
    let s = mp_enc_items(l) + rest;
    if l.len() == 0 {
        assert(l =~= Seq::<JVal>::empty());
        assert(mp_enc_items(l) =~= Seq::<u8>::empty());
    } else {
        let e0 = mp_enc(l[0]);
        let dr = l.drop_first();
        lemma_jval_wf_items_index(l, 0);
        lemma_mp_enc_head(l[0]);
        let tail = mp_enc_items(dr) + rest;
        assert(s =~= e0 + tail);
        lemma_mp_rt_value(l[0], tail, d);
        assert(mp_value(s, d) == Some((l[0], e0.len() as int)));
        assert(s.skip(e0.len() as int) =~= tail);
        lemma_mp_rt_items(dr, rest, d);
        assert(mp_items(tail, dr.len(), d) == Some((dr, mp_enc_items(dr).len() as int)));
        assert(seq![l[0]] + dr =~= l);
        assert(mp_items(s, l.len(), d) == Some((l, e0.len() + mp_enc_items(dr).len() as int)));
        assert(mp_enc_items(l).len() == e0.len() + mp_enc_items(dr).len());
    }
}

/// Decoding inverts encoding for a list of key-value pairs.
#[verifier::rlimit(100)]
proof fn lemma_mp_rt_pairs(m: Seq<(Seq<char>, JVal)>, rest: Seq<u8>, d: nat)
    requires
        jval_wf_members(m),
        jdepth_members(m) <= d + 1,
    ensures
        mp_pairs(mp_enc_members(m) + rest, m.len(), d) == Some(
            (m, mp_enc_members(m).len() as int),
        ),
    decreases m, 3int,
{
    let s = mp_enc_members(m) + rest;
    if m.len() == 0 {
        assert(m =~= Seq::<(Seq<char>, JVal)>::empty());
        assert(mp_enc_members(m) =~= Seq::<u8>::empty());
    } else {
        let k = m[0].0;
        let v = m[0].1;
        let ek = mp_enc_str(k);
        let ev = mp_enc(v);
        let dr = m.drop_first();
        lemma_jval_wf_members_index(m, 0);
        lemma_mp_enc_head(v);
        let tail1 = ev + mp_enc_members(dr) + rest;
        assert(s =~= ek + tail1);
        lemma_mp_rt_str(k, tail1, d);
        assert(mp_value(s, d) == Some((JVal::Str(k), ek.len() as int)));
        assert(s.skip(ek.len() as int) =~= tail1);
        let tail2 = mp_enc_members(dr) + rest;
        assert(tail1 =~= ev + tail2);
        lemma_mp_rt_value(v, tail2, d);
        assert(mp_value(tail1, d) == Some((v, ev.len() as int)));
        assert(s.skip(ek.len() + ev.len() as int) =~= tail2);
        lemma_mp_rt_pairs(dr, rest, d);
        assert(mp_pairs(tail2, dr.len(), d) == Some((dr, mp_enc_members(dr).len() as int)));
        assert(seq![(k, v)] + dr =~= m);
        assert(mp_pairs(s, m.len(), d) == Some(
            (m, ek.len() + ev.len() + mp_enc_members(dr).len() as int),
        ));
        assert(mp_enc_members(m).len() == ek.len() + ev.len() + mp_enc_members(dr).len());
    }
}

/// Decoding inverts encoding: the round trip through the binary
/// format returns the value unchanged.
pub proof fn lemma_mp_round_trip(x: JVal)
    requires
        jval_wf(x),
        jdepth(x) <= MAX_DEPTH,
    ensures
        mp_dec(mp_enc(x)) == Some(x),
{
    let b = mp_enc(x);
    assert(b =~= mp_enc(x) + Seq::<u8>::empty());
    lemma_mp_rt_value(x, Seq::empty(), (MAX_DEPTH - 1) as nat);
}


// ---------- executable encoder ----------

fn write_be32(n: u32, out: &mut Vec<u8>)
    ensures
        final(out)@ == old(out)@ + be32(n),
{
    out.push((n >> 24) as u8);
    out.push(((n >> 16) & 0xff) as u8);
    out.push(((n >> 8) & 0xff) as u8);
    out.push((n & 0xff) as u8);
    proof {
        assert(out@ =~= old(out)@ + be32(n));
    }
}

fn write_be64(n: u64, out: &mut Vec<u8>)
    ensures
        final(out)@ == old(out)@ + be64(n),
{
    out.push((n >> 56) as u8);
    out.push(((n >> 48) & 0xff) as u8);
    out.push(((n >> 40) & 0xff) as u8);
    out.push(((n >> 32) & 0xff) as u8);
    out.push(((n >> 24) & 0xff) as u8);
    out.push(((n >> 16) & 0xff) as u8);
    out.push(((n >> 8) & 0xff) as u8);
    out.push((n & 0xff) as u8);
    proof {
        assert(out@ =~= old(out)@ + be64(n));
    }
}

/// Appends the `str 32` encoding of a string.
#[verifier::loop_isolation(false)]
fn write_mp_str(s: &String, out: &mut Vec<u8>)
    requires
        encode_utf8(s@).len() <= MAX_LEN,
    ensures
        final(out)@ == old(out)@ + mp_enc_str(s@),
{
    let bs = s.as_str().as_bytes_vec();
    let n = bs.len();
    out.push(0xdb);
    write_be32(n as u32, out);
    let ghost base = out@;
    let mut i: usize = 0;
    while i < n
        invariant
            n == bs@.len(),
            bs@ == encode_utf8(s@),
            i <= n,
            out@ == base + bs@.take(i as int),
        decreases n - i,
    {
        out.push(bs[i]);
        proof {
            assert(out@ =~= base + bs@.take(i + 1 as int));
        }
        i = i + 1;
    }
    proof {
        assert(bs@.take(n as int) =~= bs@);
        assert(out@ =~= old(out)@ + mp_enc_str(s@));
    }
}

/// Appends the canonical binary encoding of one value.
pub fn write_mp_value(v: &JsonValue, out: &mut Vec<u8>)
    requires
        jval_wf(v@),
    ensures
        final(out)@ == old(out)@ + mp_enc(v@),
    decreases *v, 0nat,
{
    match v {
        JsonValue::Null => {
            out.push(0xc0);
            proof {
                assert(out@ =~= old(out)@ + mp_enc(v@));
            }
        },
        JsonValue::Bool(b) => {
            if *b {
                out.push(0xc3);
            } else {
                out.push(0xc2);
            }
            proof {
                assert(out@ =~= old(out)@ + mp_enc(v@));
            }
        },
        JsonValue::Int(i) => {
            out.push(0xd3);
            write_be64(*i as u64, out);
            proof {
                assert(out@ =~= old(out)@ + mp_enc(v@));
            }
        },
        JsonValue::Str(s) => {
            write_mp_str(s, out);
        },
        JsonValue::Arr(a) => {
            proof {
                lemma_jvals_of(a@);
            }
            out.push(0xdd);
            write_be32(a.len() as u32, out);
            proof {
                assert(a@.skip(0) =~= a@);
            }
            write_mp_items(a, 0, out);
            proof {
                assert(jvals_of(a@).skip(0) =~= jvals_of(a@));
                assert(out@ =~= old(out)@ + mp_enc(v@));
            }
        },
        JsonValue::Obj(m) => {
            proof {
                lemma_jmembers_of(m@);
            }
            out.push(0xdf);
            write_be32(m.len() as u32, out);
            proof {
                assert(m@.skip(0) =~= m@);
            }
            write_mp_members(m, 0, out);
            proof {
                assert(jmembers_of(m@).skip(0) =~= jmembers_of(m@));
                assert(out@ =~= old(out)@ + mp_enc(v@));
            }
        },
    }
}

fn write_mp_items(a: &Vec<JsonValue>, i: usize, out: &mut Vec<u8>)
    requires
        i <= a@.len(),
        jval_wf_items(jvals_of(a@)),
    ensures
        final(out)@ == old(out)@ + mp_enc_items(jvals_of(a@).skip(i as int)),
    decreases a@.skip(i as int), 1nat,
{
    proof {
        lemma_jvals_of(a@);
    }
    let ghost ll = jvals_of(a@).skip(i as int);
    if i < a.len() {
        proof {
            lemma_jval_wf_items_index(jvals_of(a@), i as int);
            assert(a@.skip(i as int)[0] == a@[i as int]);
        }
        write_mp_value(&a[i], out);
        proof {
            assert(a@.skip(i + 1 as int) =~= a@.skip(i as int).drop_first());
        }
        write_mp_items(a, i + 1, out);
        proof {
            assert(ll.drop_first() =~= jvals_of(a@).skip(i + 1 as int));
            assert(ll[0] == jval_of(a@[i as int]));
            assert(out@ =~= old(out)@ + mp_enc_items(ll));
        }
    } else {
        proof {
            assert(ll.len() == 0);
            assert(out@ =~= old(out)@ + mp_enc_items(ll));
        }
    }
}

fn write_mp_members(m: &Vec<(String, JsonValue)>, i: usize, out: &mut Vec<u8>)
    requires
        i <= m@.len(),
        jval_wf_members(jmembers_of(m@)),
    ensures
        final(out)@ == old(out)@ + mp_enc_members(jmembers_of(m@).skip(i as int)),
    decreases m@.skip(i as int), 1nat,
{
    proof {
        lemma_jmembers_of(m@);
    }
    let ghost mm = jmembers_of(m@).skip(i as int);
    if i < m.len() {
        proof {
            lemma_jval_wf_members_index(jmembers_of(m@), i as int);
            assert(m@.skip(i as int)[0] == m@[i as int]);
        }
        let pair = &m[i];
        write_mp_str(&pair.0, out);
        write_mp_value(&pair.1, out);
        proof {
            assert(m@.skip(i + 1 as int) =~= m@.skip(i as int).drop_first());
        }
        write_mp_members(m, i + 1, out);
        proof {
            assert(mm.drop_first() =~= jmembers_of(m@).skip(i + 1 as int));
            assert(mm[0] == (m@[i as int].0@, jval_of(m@[i as int].1)));
            assert(out@ =~= old(out)@ + mp_enc_members(mm));
        }
    } else {
        proof {
            assert(mm.len() == 0);
            assert(out@ =~= old(out)@ + mp_enc_members(mm));
        }
    }
}

/// Canonical binary encoding of a well-formed value.
pub fn mp_encode(v: &JsonValue) -> (r: Vec<u8>)
    requires
        jval_wf(v@),
    ensures
        r@ == mp_enc(v@),
{
    let mut out: Vec<u8> = Vec::new();
    write_mp_value(v, &mut out);
    proof {
        assert(out@ =~= mp_enc(v@));
    }
    out
}


// ---------- executable decoder ----------

fn read_u16(b: &[u8], at: usize) -> (r: u16)
    requires
        at + 2 <= b@.len(),
    ensures
        r == rd16(b@, at as int),
{
    ((b[at] as u16) << 8) | (b[at + 1] as u16)
}

fn read_u32(b: &[u8], at: usize) -> (r: u32)
    requires
        at + 4 <= b@.len(),
    ensures
        r == rd32(b@, at as int),
{
    ((b[at] as u32) << 24) | ((b[at + 1] as u32) << 16) | ((b[at + 2] as u32) << 8) | (b[at
        + 3] as u32)
}

fn read_u64(b: &[u8], at: usize) -> (r: u64)
    requires
        at + 8 <= b@.len(),
    ensures
        r == rd64(b@, at as int),
{
    ((b[at] as u64) << 56) | ((b[at + 1] as u64) << 48) | ((b[at + 2] as u64) << 40) | ((b[at
        + 3] as u64) << 32) | ((b[at + 4] as u64) << 24) | ((b[at + 5] as u64) << 16) | ((b[at
        + 6] as u64) << 8) | (b[at + 7] as u64)
}

/// Reads a string body of `len` bytes that starts `hdr` bytes past
/// `pos`, as [`mp_str_at`] describes.
#[verifier::loop_isolation(false)]
fn read_mp_str(b: &[u8], pos: usize, hdr: usize, len: usize) -> (r: Option<(String, usize)>)
    requires
        pos + hdr <= b@.len(),
    ensures
        match r {
            Some(p) => mp_str_at(b@.skip(pos as int), hdr as int, len as int) == Some(p.0@) && p.1
                == pos + hdr + len && p.1 <= b@.len() && encode_utf8(p.0@).len() == len,
            None => mp_str_at(b@.skip(pos as int), hdr as int, len as int) is None,
        },
{
    let ghost s0 = b@.skip(pos as int);
    if b.len() - (pos + hdr) < len {
        return None;
    }
    let mut acc: Vec<u8> = Vec::new();
    let mut i: usize = 0;
    while i < len
        invariant
            i <= len,
            pos + hdr + len <= b@.len(),
            acc@ =~= b@.subrange(pos + hdr as int, pos + hdr + i as int),
        decreases len - i,
    {
        acc.push(b[pos + hdr + i]);
        proof {
            assert(acc@ =~= b@.subrange(pos + hdr as int, pos + hdr + (i + 1) as int));
        }
        i = i + 1;
    }
    proof {
        assert(s0.subrange(hdr as int, hdr + len as int) =~= b@.subrange(
            pos + hdr as int,
            pos + hdr + len as int,
        ));
    }
    match string_from_utf8_checked(acc) {
        Some(cs) => {
            proof {
                vstd::utf8::decode_utf8_encode_utf8(s0.subrange(hdr as int, hdr + len as int));
            }
            Some((cs, pos + hdr + len))
        },
        None => None,
    }
}

/// Decodes one value at `pos`, as [`mp_value`] describes.
#[verifier::loop_isolation(false)]
#[verifier::rlimit(100)]
pub fn parse_mp_value(b: &[u8], pos: usize, d: u32) -> (r: Option<(JsonValue, usize)>)
    requires
        pos <= b@.len(),
    ensures
        match r {
            Some(p) => mp_value(b@.skip(pos as int), d as nat) == Some((p.0@, p.1 - pos as int))
                && pos < p.1 <= b@.len() && jval_wf(p.0@) && jdepth(p.0@) <= d + 1,
            None => mp_value(b@.skip(pos as int), d as nat) is None,
        },
    decreases d, b@.len() - pos, 1nat,
{
    let ghost s0 = b@.skip(pos as int);
    if pos >= b.len() {
        return None;
    }
    let b0 = b[pos];
    proof {
        assert(s0[0] == b0);
        assert forall|k: int| 0 <= k < s0.len() implies s0[k] == b@[pos + k] by {}
    }
    if b0 == 0xc0 {
        Some((JsonValue::Null, pos + 1))
    } else if b0 == 0xc2 {
        Some((JsonValue::Bool(false), pos + 1))
    } else if b0 == 0xc3 {
        Some((JsonValue::Bool(true), pos + 1))
    } else if b0 <= 0x7f {
        Some((JsonValue::Int(b0 as i64), pos + 1))
    } else if b0 >= 0xe0 {
        let v = (b0 as i8) as i64;
        proof {
            assert((b0 as i8) as int == b0 - 256) by (bit_vector)
                requires
                    b0 >= 0xe0u8,
            ;
        }
        Some((JsonValue::Int(v), pos + 1))
    } else if b0 == 0xcc {
        if b.len() - pos >= 2 {
            Some((JsonValue::Int(b[pos + 1] as i64), pos + 2))
        } else {
            None
        }
    } else if b0 == 0xcd {
        if b.len() - pos >= 3 {
            let w = read_u16(b, pos + 1);
            proof {
                assert(rd16(s0, 1) == rd16(b@, pos + 1 as int));
            }
            Some((JsonValue::Int(w as i64), pos + 3))
        } else {
            None
        }
    } else if b0 == 0xce {
        if b.len() - pos >= 5 {
            let w = read_u32(b, pos + 1);
            proof {
                assert(rd32(s0, 1) == rd32(b@, pos + 1 as int));
            }
            Some((JsonValue::Int(w as i64), pos + 5))
        } else {
            None
        }
    } else if b0 == 0xcf {
        if b.len() - pos >= 9 {
            let w = read_u64(b, pos + 1);
            proof {
                assert(rd64(s0, 1) == rd64(b@, pos + 1 as int));
            }
            if w <= i64::MAX as u64 {
                Some((JsonValue::Int(w as i64), pos + 9))
            } else {
                None
            }
        } else {
            None
        }
    } else if b0 == 0xd0 {
        if b.len() - pos >= 2 {
            Some((JsonValue::Int((b[pos + 1] as i8) as i64, ), pos + 2))
        } else {
            None
        }
    } else if b0 == 0xd1 {
        if b.len() - pos >= 3 {
            let w = read_u16(b, pos + 1);
            proof {
                assert(rd16(s0, 1) == rd16(b@, pos + 1 as int));
            }
            Some((JsonValue::Int((w as i16) as i64), pos + 3))
        } else {
            None
        }
    } else if b0 == 0xd2 {
        if b.len() - pos >= 5 {
            let w = read_u32(b, pos + 1);
            proof {
                assert(rd32(s0, 1) == rd32(b@, pos + 1 as int));
            }
            Some((JsonValue::Int((w as i32) as i64), pos + 5))
        } else {
            None
        }
    } else if b0 == 0xd3 {
        if b.len() - pos >= 9 {
            let w = read_u64(b, pos + 1);
            proof {
                assert(rd64(s0, 1) == rd64(b@, pos + 1 as int));
            }
            Some((JsonValue::Int(w as i64), pos + 9))
        } else {
            None
        }
    } else if 0xa0 <= b0 && b0 <= 0xbf {
        match read_mp_str(b, pos, 1, (b0 - 0xa0) as usize) {
            Some((cs, end)) => Some((JsonValue::Str(cs), end)),
            None => None,
        }
    } else if b0 == 0xd9 {
        if b.len() - pos >= 2 {
            let l = b[pos + 1] as usize;
            proof {
                assert(s0[1] == b@[pos + 1]);
            }
            match read_mp_str(b, pos, 2, l) {
                Some((cs, end)) => Some((JsonValue::Str(cs), end)),
                None => None,
            }
        } else {
            None
        }
    } else if b0 == 0xda {
        if b.len() - pos >= 3 {
            let w = read_u16(b, pos + 1);
            proof {
                assert(rd16(s0, 1) == rd16(b@, pos + 1 as int));
            }
            match read_mp_str(b, pos, 3, w as usize) {
                Some((cs, end)) => Some((JsonValue::Str(cs), end)),
                None => None,
            }
        } else {
            None
        }
    } else if b0 == 0xdb {
        if b.len() - pos >= 5 {
            let w = read_u32(b, pos + 1);
            proof {
                assert(rd32(s0, 1) == rd32(b@, pos + 1 as int));
            }
            match read_mp_str(b, pos, 5, w as usize) {
                Some((cs, end)) => Some((JsonValue::Str(cs), end)),
                None => None,
            }
        } else {
            None
        }
    } else if 0x90 <= b0 && b0 <= 0x9f {
        parse_mp_array(b, pos, 1, (b0 - 0x90) as usize, d)
    } else if b0 == 0xdc {
        if b.len() - pos >= 3 {
            let w = read_u16(b, pos + 1);
            proof {
                assert(rd16(s0, 1) == rd16(b@, pos + 1 as int));
            }
            parse_mp_array(b, pos, 3, w as usize, d)
        } else {
            None
        }
    } else if b0 == 0xdd {
        if b.len() - pos >= 5 {
            let w = read_u32(b, pos + 1);
            proof {
                assert(rd32(s0, 1) == rd32(b@, pos + 1 as int));
            }
            parse_mp_array(b, pos, 5, w as usize, d)
        } else {
            None
        }
    } else if 0x80 <= b0 && b0 <= 0x8f {
        parse_mp_map(b, pos, 1, (b0 - 0x80) as usize, d)
    } else if b0 == 0xde {
        if b.len() - pos >= 3 {
            let w = read_u16(b, pos + 1);
            proof {
                assert(rd16(s0, 1) == rd16(b@, pos + 1 as int));
            }
            parse_mp_map(b, pos, 3, w as usize, d)
        } else {
            None
        }
    } else if b0 == 0xdf {
        if b.len() - pos >= 5 {
            let w = read_u32(b, pos + 1);
            proof {
                assert(rd32(s0, 1) == rd32(b@, pos + 1 as int));
            }
            parse_mp_map(b, pos, 5, w as usize, d)
        } else {
            None
        }
    } else {
        None
    }
}


/// Decodes the elements of an array whose header of `hdr` bytes
/// announced `n` elements, as [`mp_arr_tail`] describes.
#[verifier::loop_isolation(false)]
fn parse_mp_array(b: &[u8], pos: usize, hdr: usize, n: usize, d: u32) -> (r: Option<
    (JsonValue, usize),
>)
    requires
        pos <= b@.len(),
        1 <= hdr,
        pos + hdr <= b@.len(),
        n <= MAX_LEN,
    ensures
        match r {
            Some(p) => mp_arr_tail(b@.skip(pos as int), hdr as int, n as nat, d as nat) == Some(
                (p.0@, p.1 - pos as int),
            ) && pos < p.1 <= b@.len() && jval_wf(p.0@) && jdepth(p.0@) <= d + 1,
            None => mp_arr_tail(b@.skip(pos as int), hdr as int, n as nat, d as nat) is None,
        },
    decreases d, b@.len() - pos, 0nat,
{
    let ghost s0 = b@.skip(pos as int);
    let bl = b.len();
    if n == 0 {
        let vv: Vec<JsonValue> = Vec::new();
        proof {
            assert(jvals_of(vv@) =~= Seq::<JVal>::empty());
        }
        return Some((JsonValue::Arr(vv), pos + hdr));
    }
    if d == 0 {
        return None;
    }
    proof {
        assert(s0.skip(hdr as int) =~= b@.skip(pos + hdr as int));
    }
    match parse_mp_items(b, pos + hdr, n, d - 1) {
        None => None,
        Some((vec, end)) => {
            proof {
                lemma_jvals_of(vec@);
            }
            Some((JsonValue::Arr(vec), end))
        },
    }
}

/// Decodes the members of a map whose header of `hdr` bytes
/// announced `n` pairs, as [`mp_map_tail`] describes.
#[verifier::loop_isolation(false)]
fn parse_mp_map(b: &[u8], pos: usize, hdr: usize, n: usize, d: u32) -> (r: Option<
    (JsonValue, usize),
>)
    requires
        pos <= b@.len(),
        1 <= hdr,
        pos + hdr <= b@.len(),
        n <= MAX_LEN,
    ensures
        match r {
            Some(p) => mp_map_tail(b@.skip(pos as int), hdr as int, n as nat, d as nat) == Some(
                (p.0@, p.1 - pos as int),
            ) && pos < p.1 <= b@.len() && jval_wf(p.0@) && jdepth(p.0@) <= d + 1,
            None => mp_map_tail(b@.skip(pos as int), hdr as int, n as nat, d as nat) is None,
        },
    decreases d, b@.len() - pos, 0nat,
{
    let ghost s0 = b@.skip(pos as int);
    let bl = b.len();
    if n == 0 {
        let vv: Vec<(String, JsonValue)> = Vec::new();
        proof {
            assert(jmembers_of(vv@) =~= Seq::<(Seq<char>, JVal)>::empty());
        }
        return Some((JsonValue::Obj(vv), pos + hdr));
    }
    if d == 0 {
        return None;
    }
    proof {
        assert(s0.skip(hdr as int) =~= b@.skip(pos + hdr as int));
    }
    match parse_mp_pairs(b, pos + hdr, n, d - 1) {
        None => None,
        Some((vec, end)) => {
            proof {
                lemma_jmembers_of(vec@);
            }
            Some((JsonValue::Obj(vec), end))
        },
    }
}

/// Decodes `n` consecutive values, as [`mp_items`] describes.
#[verifier::loop_isolation(false)]
fn parse_mp_items(b: &[u8], pos: usize, n: usize, d: u32) -> (r: Option<(Vec<JsonValue>, usize)>)
    requires
        pos <= b@.len(),
        n >= 1,
    ensures
        match r {
            Some(p) => mp_items(b@.skip(pos as int), n as nat, d as nat) == Some(
                (jvals_of(p.0@), p.1 - pos as int),
            ) && pos < p.1 <= b@.len() && jval_wf_items(jvals_of(p.0@)) && jdepth_items(
                jvals_of(p.0@),
            ) <= d + 1 && p.0@.len() == n,
            None => mp_items(b@.skip(pos as int), n as nat, d as nat) is None,
        },
    decreases d, b@.len() - pos, 2nat,
{
    let ghost s0 = b@.skip(pos as int);
    let mut acc: Vec<JsonValue> = Vec::new();
    let mut p = pos;
    let mut k: usize = 0;
    proof {
        assert(jvals_of(acc@) =~= Seq::<JVal>::empty());
    }
    while k < n
        invariant
            pos <= p <= b@.len(),
            k <= n,
            jval_wf_items(jvals_of(acc@)),
            jdepth_items(jvals_of(acc@)) <= d + 1,
            acc@.len() == jvals_of(acc@).len() == k as int,
            k > 0 ==> p > pos,
            match mp_items(b@.skip(p as int), (n - k) as nat, d as nat) {
                Some(t) => mp_items(s0, n as nat, d as nat) == Some(
                    (jvals_of(acc@) + t.0, (p - pos) + t.1),
                ),
                None => mp_items(s0, n as nat, d as nat) is None,
            },
        decreases n - k,
    {
        let ghost sp = b@.skip(p as int);
        match parse_mp_value(b, p, d) {
            None => {
                return None;
            },
            Some((v, e)) => {
                let ghost prevacc = acc@;
                acc.push(v);
                proof {
                    lemma_jvals_of(prevacc);
                    lemma_jvals_of_push(prevacc, v);
                    lemma_wf_items_push(jvals_of(prevacc), jval_of(v));
                    assert(sp.skip(e - p) =~= b@.skip(e as int));
                    assert forall|t0: Seq<JVal>|
                        true implies jvals_of(prevacc) + (seq![jval_of(v)] + t0) == jvals_of(acc@)
                        + t0 by {
                        assert(jvals_of(prevacc) + (seq![jval_of(v)] + t0) =~= jvals_of(acc@)
                            + t0);
                    }
                }
                p = e;
                k = k + 1;
            },
        }
    }
    proof {
        assert(mp_items(b@.skip(p as int), 0, d as nat) == Some((Seq::<JVal>::empty(), 0int)));
        assert(jvals_of(acc@) + Seq::<JVal>::empty() =~= jvals_of(acc@));
    }
    Some((acc, p))
}

/// Decodes `n` consecutive key-value pairs, as [`mp_pairs`]
/// describes.
#[verifier::loop_isolation(false)]
#[verifier::rlimit(60)]
fn parse_mp_pairs(b: &[u8], pos: usize, n: usize, d: u32) -> (r: Option<
    (Vec<(String, JsonValue)>, usize),
>)
    requires
        pos <= b@.len(),
        n >= 1,
    ensures
        match r {
            Some(p) => mp_pairs(b@.skip(pos as int), n as nat, d as nat) == Some(
                (jmembers_of(p.0@), p.1 - pos as int),
            ) && pos < p.1 <= b@.len() && jval_wf_members(jmembers_of(p.0@)) && jdepth_members(
                jmembers_of(p.0@),
            ) <= d + 1 && p.0@.len() == n,
            None => mp_pairs(b@.skip(pos as int), n as nat, d as nat) is None,
        },
    decreases d, b@.len() - pos, 2nat,
{
    let ghost s0 = b@.skip(pos as int);
    let mut acc: Vec<(String, JsonValue)> = Vec::new();
    let mut p = pos;
    let mut k: usize = 0;
    proof {
        assert(jmembers_of(acc@) =~= Seq::<(Seq<char>, JVal)>::empty());
    }
    while k < n
        invariant
            pos <= p <= b@.len(),
            k <= n,
            jval_wf_members(jmembers_of(acc@)),
            jdepth_members(jmembers_of(acc@)) <= d + 1,
            acc@.len() == jmembers_of(acc@).len() == k as int,
            k > 0 ==> p > pos,
            match mp_pairs(b@.skip(p as int), (n - k) as nat, d as nat) {
                Some(t) => mp_pairs(s0, n as nat, d as nat) == Some(
                    (jmembers_of(acc@) + t.0, (p - pos) + t.1),
                ),
                None => mp_pairs(s0, n as nat, d as nat) is None,
            },
        decreases n - k,
    {
        let ghost sp = b@.skip(p as int);
        match parse_mp_value(b, p, d) {
            None => {
                return None;
            },
            Some((kv, ke)) => {
                match kv {
                    JsonValue::Str(key) => {
                        proof {
                            assert(sp.skip(ke - p) =~= b@.skip(ke as int));
                        }
                        match parse_mp_value(b, ke, d) {
                            None => {
                                return None;
                            },
                            Some((v, ve)) => {
                                let ghost prevacc = acc@;
                                let ghost keyview = key@;
                                acc.push((key, v));
                                proof {
                                    lemma_jmembers_of(prevacc);
                                    lemma_jmembers_of_push(prevacc, acc@[prevacc.len() as int].0, v);
                                    assert(acc@[prevacc.len() as int].0@ == keyview);
                                    lemma_wf_members_push(
                                        jmembers_of(prevacc),
                                        keyview,
                                        jval_of(v),
                                    );
                                    assert(sp.skip(ve - p) =~= b@.skip(ve as int));
                                    assert forall|t0: Seq<(Seq<char>, JVal)>|
                                        true implies jmembers_of(prevacc) + (seq![
                                        (keyview, jval_of(v)),
                                    ] + t0) == jmembers_of(acc@) + t0 by {
                                        assert(jmembers_of(prevacc) + (seq![
                                            (keyview, jval_of(v)),
                                        ] + t0) =~= jmembers_of(acc@) + t0);
                                    }
                                }
                                p = ve;
                                k = k + 1;
                            },
                        }
                    },
                    _ => {
                        return None;
                    },
                }
            },
        }
    }
    proof {
        assert(mp_pairs(b@.skip(p as int), 0, d as nat) == Some(
            (Seq::<(Seq<char>, JVal)>::empty(), 0int),
        ));
        assert(jmembers_of(acc@) + Seq::<(Seq<char>, JVal)>::empty() =~= jmembers_of(acc@));
    }
    Some((acc, p))
}

/// Whole-buffer binary decode, as [`mp_dec`] describes.
pub fn mp_decode(b: &[u8]) -> (r: Option<JsonValue>)
    ensures
        match r {
            Some(v) => mp_dec(b@) == Some(v@) && jval_wf(v@) && jdepth(v@) <= MAX_DEPTH,
            None => mp_dec(b@) is None,
        },
{
    proof {
        assert(b@.skip(0) =~= b@);
    }
    match parse_mp_value(b, 0, MAX_DEPTH - 1) {
        None => None,
        Some((v, end)) => {
            if end == b.len() {
                Some(v)
            } else {
                None
            }
        },
    }
}

} // verus!
