//! JSON text codec: canonical encoder and tolerant parser, with a
//! proof that parsing inverts encoding on well-formed values.
//!
//! The encoder emits compact JSON (no whitespace) and escapes only
//! what must be escaped. The parser also accepts surrounding
//! whitespace and the standard escape forms, and rejects what the
//! model cannot hold: floats, text that is not UTF-8, and nesting
//! beyond [`MAX_DEPTH`](crate::value::MAX_DEPTH).

use vstd::prelude::*;
use vstd::utf8::{
    decode_utf8, encode_utf8, encode_utf8_decode_utf8, encode_utf8_valid_utf8,
    valid_utf8,
};

use crate::value::{
    string_from_utf8_checked, jdepth, jdepth_items, jdepth_members, jmembers_of,
    jval_of, jval_wf, jval_wf_items,
    jval_wf_members, jvals_of, lemma_jmembers_of, lemma_jval_wf_items_index,
    lemma_jval_wf_members_index, lemma_jvals_of, lemma_jvals_of_push, lemma_jmembers_of_push,
    lemma_wf_items_push, lemma_wf_members_push, JVal, JsonValue, MAX_DEPTH, MAX_LEN,
};

verus! {

// ---------- encoder specification ----------

/// Lower-case hexadecimal digit for `n < 16`.
pub open spec fn hex_digit(n: int) -> u8 {
    if n < 10 {
        (48 + n) as u8
    } else {
        (87 + n) as u8
    }
}

/// Bytes the encoder emits for one byte of a string's UTF-8 form.
/// Bytes above 0x7f belong to multi-byte characters and pass
/// through unchanged.
pub open spec fn esc_byte(b: u8) -> Seq<u8> {
    if b == 34 {
        seq![92u8, 34u8]
    } else if b == 92 {
        seq![92u8, 92u8]
    } else if b < 32 {
        seq![92u8, 117u8, 48u8, 48u8, hex_digit(b as int / 16), hex_digit(b as int % 16)]
    } else {
        seq![b]
    }
}

pub open spec fn esc_bytes(bs: Seq<u8>) -> Seq<u8>
    decreases bs,
{
    if bs.len() == 0 {
        Seq::empty()
    } else {
        esc_byte(bs[0]) + esc_bytes(bs.drop_first())
    }
}

/// A string literal: quote, the escaped UTF-8 bytes, quote.
pub open spec fn enc_str(cs: Seq<char>) -> Seq<u8> {
    seq![34u8] + esc_bytes(encode_utf8(cs)) + seq![34u8]
}

/// Decimal digits of `n`, most significant first.
pub open spec fn dec_digits(n: nat) -> Seq<u8>
    decreases n,
{
    if n < 10 {
        seq![(48 + n) as u8]
    } else {
        dec_digits(n / 10) + seq![(48 + n % 10) as u8]
    }
}

/// Decimal form of a signed integer.
pub open spec fn int_bytes(i: int) -> Seq<u8> {
    if i < 0 {
        seq![45u8] + dec_digits((-i) as nat)
    } else {
        dec_digits(i as nat)
    }
}

pub open spec fn json_enc(x: JVal) -> Seq<u8>
    decreases x,
{
    match x {
        JVal::Null => seq![110u8, 117u8, 108u8, 108u8],
        JVal::Bool(b) => if b {
            seq![116u8, 114u8, 117u8, 101u8]
        } else {
            seq![102u8, 97u8, 108u8, 115u8, 101u8]
        },
        JVal::Int(i) => int_bytes(i),
        JVal::Str(s) => enc_str(s),
        JVal::Arr(l) => seq![91u8] + enc_items(l) + seq![93u8],
        JVal::Obj(m) => seq![123u8] + enc_members(m) + seq![125u8],
    }
}

pub open spec fn enc_items(l: Seq<JVal>) -> Seq<u8>
    decreases l,
{
    if l.len() == 0 {
        Seq::empty()
    } else if l.len() == 1 {
        json_enc(l[0])
    } else {
        json_enc(l[0]) + seq![44u8] + enc_items(l.drop_first())
    }
}

pub open spec fn enc_members(m: Seq<(Seq<char>, JVal)>) -> Seq<u8>
    decreases m,
{
    if m.len() == 0 {
        Seq::empty()
    } else if m.len() == 1 {
        enc_str(m[0].0) + seq![58u8] + json_enc(m[0].1)
    } else {
        enc_str(m[0].0) + seq![58u8] + json_enc(m[0].1) + seq![44u8] + enc_members(m.drop_first())
    }
}

// ---------- parser specification ----------

pub open spec fn is_ws(b: u8) -> bool {
    b == 32 || b == 9 || b == 10 || b == 13
}

/// Length of the run of whitespace at the head of `s`.
pub open spec fn ws_len(s: Seq<u8>) -> nat
    decreases s,
{
    if s.len() > 0 && is_ws(s[0]) {
        1 + ws_len(s.drop_first())
    } else {
        0
    }
}

pub open spec fn is_digit(b: u8) -> bool {
    48 <= b <= 57
}

/// Length of the run of decimal digits at the head of `s`.
pub open spec fn digits_len(s: Seq<u8>) -> nat
    decreases s,
{
    if s.len() > 0 && is_digit(s[0]) {
        1 + digits_len(s.drop_first())
    } else {
        0
    }
}

/// Numeric value of a digit run, most significant first.
pub open spec fn digits_val(s: Seq<u8>) -> int
    decreases s.len(),
{
    if s.len() == 0 {
        0
    } else {
        digits_val(s.drop_last()) * 10 + (s.last() - 48)
    }
}

pub open spec fn is_hex(b: u8) -> bool {
    is_digit(b) || (97 <= b <= 102) || (65 <= b <= 70)
}

pub open spec fn hex_val(b: u8) -> int {
    if is_digit(b) {
        b - 48
    } else if 97 <= b <= 102 {
        b - 87
    } else {
        b - 55
    }
}

/// Byte named by a single-letter escape, if any.
pub open spec fn esc_byte_of(e: u8) -> Option<u8> {
    if e == 34 {
        Some(34u8)
    } else if e == 92 {
        Some(92u8)
    } else if e == 47 {
        Some(47u8)
    } else if e == 98 {
        Some(8u8)
    } else if e == 102 {
        Some(12u8)
    } else if e == 110 {
        Some(10u8)
    } else if e == 114 {
        Some(13u8)
    } else if e == 116 {
        Some(9u8)
    } else {
        None
    }
}

/// Parses the body of a string literal (after the opening quote),
/// returning the unescaped UTF-8 bytes and the count of input bytes
/// consumed, closing quote included. `\u` escapes above 0x7f are
/// not read.
pub open spec fn sp_str_bytes(s: Seq<u8>) -> Option<(Seq<u8>, int)>
    decreases s.len(),
{
    if s.len() == 0 {
        None
    } else if s[0] == 34 {
        Some((Seq::empty(), 1))
    } else if s[0] == 92 {
        if s.len() < 2 {
            None
        } else if s[1] == 117 {
            if s.len() < 6 {
                None
            } else if is_hex(s[2]) && is_hex(s[3]) && is_hex(s[4]) && is_hex(s[5]) {
                let code = hex_val(s[2]) * 4096 + hex_val(s[3]) * 256 + hex_val(s[4]) * 16
                    + hex_val(s[5]);
                if code < 128 {
                    match sp_str_bytes(s.skip(6)) {
                        Some((bs, n)) => Some((seq![code as u8] + bs, 6 + n)),
                        None => None,
                    }
                } else {
                    None
                }
            } else {
                None
            }
        } else {
            match esc_byte_of(s[1]) {
                Some(b) => match sp_str_bytes(s.skip(2)) {
                    Some((bs, n)) => Some((seq![b] + bs, 2 + n)),
                    None => None,
                },
                None => None,
            }
        }
    } else if 32 <= s[0] {
        match sp_str_bytes(s.skip(1)) {
            Some((bs, n)) => Some((seq![s[0]] + bs, 1 + n)),
            None => None,
        }
    } else {
        None
    }
}

/// Parses an integer literal; rejects leading zeros, floats and
/// values outside `i64`.
pub open spec fn sp_int(s: Seq<u8>) -> Option<(int, int)> {
    let neg = s.len() > 0 && s[0] == 45;
    let off: int = if neg {
        1
    } else {
        0
    };
    let t = s.skip(off);
    let dl = digits_len(t) as int;
    if dl == 0 {
        None
    } else if dl > 1 && t[0] == 48 {
        None
    } else if dl < t.len() && (t[dl] == 46 || t[dl] == 101 || t[dl] == 69) {
        None
    } else {
        let m = digits_val(t.take(dl));
        let v: int = if neg {
            -m
        } else {
            m
        };
        if i64::MIN <= v <= i64::MAX {
            Some((v, off + dl))
        } else {
            None
        }
    }
}

/// Parses one value at the head of `s`; `d` bounds the nesting that
/// may still be opened. Returns the value and the bytes consumed.
pub open spec fn sp_value(s: Seq<u8>, d: nat) -> Option<(JVal, int)>
    decreases d, s.len(), 0int,
{
    if s.len() == 0 {
        None
    } else if s[0] == 110 {
        if s.len() >= 4 && s[1] == 117 && s[2] == 108 && s[3] == 108 {
            Some((JVal::Null, 4))
        } else {
            None
        }
    } else if s[0] == 116 {
        if s.len() >= 4 && s[1] == 114 && s[2] == 117 && s[3] == 101 {
            Some((JVal::Bool(true), 4))
        } else {
            None
        }
    } else if s[0] == 102 {
        if s.len() >= 5 && s[1] == 97 && s[2] == 108 && s[3] == 115 && s[4] == 101 {
            Some((JVal::Bool(false), 5))
        } else {
            None
        }
    } else if s[0] == 34 {
        match sp_str_bytes(s.skip(1)) {
            Some((bs, n)) => if bs.len() <= MAX_LEN && valid_utf8(bs) {
                Some((JVal::Str(decode_utf8(bs)), 1 + n))
            } else {
                None
            },
            None => None,
        }
    } else if s[0] == 45 || is_digit(s[0]) {
        match sp_int(s) {
            Some((v, n)) => Some((JVal::Int(v), n)),
            None => None,
        }
    } else if s[0] == 91 {
        let w = ws_len(s.skip(1)) as int;
        let p = 1 + w;
        if p > s.len() {
            None
        } else if p < s.len() && s[p] == 93 {
            Some((JVal::Arr(Seq::empty()), p + 1))
        } else if d == 0 {
            None
        } else {
            match sp_elems(s.skip(p), (d - 1) as nat) {
                Some((items, n)) => if items.len() <= MAX_LEN {
                    Some((JVal::Arr(items), p + n))
                } else {
                    None
                },
                None => None,
            }
        }
    } else if s[0] == 123 {
        let w = ws_len(s.skip(1)) as int;
        let p = 1 + w;
        if p > s.len() {
            None
        } else if p < s.len() && s[p] == 125 {
            Some((JVal::Obj(Seq::empty()), p + 1))
        } else if d == 0 {
            None
        } else {
            match sp_members(s.skip(p), (d - 1) as nat) {
                Some((mem, n)) => if mem.len() <= MAX_LEN {
                    Some((JVal::Obj(mem), p + n))
                } else {
                    None
                },
                None => None,
            }
        }
    } else {
        None
    }
}

/// Parses `value (ws ',' ws value)* ws ']'` and consumes the closing
/// bracket.
pub open spec fn sp_elems(s: Seq<u8>, d: nat) -> Option<(Seq<JVal>, int)>
    decreases d, s.len(), 1int,
{
    match sp_value(s, d) {
        None => None,
        Some((v, n)) => if !(1 <= n <= s.len()) {
            None
        } else {
            let w = ws_len(s.skip(n)) as int;
            let p = n + w;
            if p >= s.len() {
                None
            } else if s[p] == 93 {
                Some((seq![v], p + 1))
            } else if s[p] == 44 {
                let w2 = ws_len(s.skip(p + 1)) as int;
                let q = p + 1 + w2;
                if q > s.len() {
                    None
                } else {
                    match sp_elems(s.skip(q), d) {
                        Some((rest, rn)) => Some((seq![v] + rest, q + rn)),
                        None => None,
                    }
                }
            } else {
                None
            }
        },
    }
}

/// Parses `string ws ':' ws value (ws ',' ws member)* ws '}'` and
/// consumes the closing brace.
pub open spec fn sp_members(s: Seq<u8>, d: nat) -> Option<(Seq<(Seq<char>, JVal)>, int)>
    decreases d, s.len(), 1int,
{
    if s.len() == 0 || s[0] != 34 {
        None
    } else {
        match sp_str_bytes(s.skip(1)) {
            None => None,
            Some((kb, kn)) => if !(1 <= kn && 1 + kn <= s.len()) || kb.len() > MAX_LEN
                || !valid_utf8(kb) {
                None
            } else {
                let k = decode_utf8(kb);
                let w1 = ws_len(s.skip(1 + kn)) as int;
                let p2 = 1 + kn + w1;
                if p2 >= s.len() || s[p2] != 58 {
                    None
                } else {
                    let w2 = ws_len(s.skip(p2 + 1)) as int;
                    let p3 = p2 + 1 + w2;
                    if p3 > s.len() {
                        None
                    } else {
                        match sp_value(s.skip(p3), d) {
                            None => None,
                            Some((v, vn)) => if !(1 <= vn && p3 + vn <= s.len()) {
                                None
                            } else {
                                let p4 = p3 + vn;
                                let w3 = ws_len(s.skip(p4)) as int;
                                let p5 = p4 + w3;
                                if p5 >= s.len() {
                                    None
                                } else if s[p5] == 125 {
                                    Some((seq![(k, v)], p5 + 1))
                                } else if s[p5] == 44 {
                                    let w4 = ws_len(s.skip(p5 + 1)) as int;
                                    let q = p5 + 1 + w4;
                                    if q > s.len() {
                                        None
                                    } else {
                                        match sp_members(s.skip(q), d) {
                                            Some((rest, rn)) => Some(
                                                (seq![(k, v)] + rest, q + rn),
                                            ),
                                            None => None,
                                        }
                                    }
                                } else {
                                    None
                                }
                            },
                        }
                    }
                }
            },
        }
    }
}

/// Whole-document parse: optional whitespace, one value, optional
/// whitespace, end of input.
pub open spec fn json_dec(b: Seq<u8>) -> Option<JVal> {
    let w = ws_len(b) as int;
    if w > b.len() {
        None
    } else {
        match sp_value(b.skip(w), (MAX_DEPTH - 1) as nat) {
            None => None,
            Some((x, n)) => if !(1 <= n && w + n <= b.len()) {
                None
            } else {
                let w2 = ws_len(b.skip(w + n)) as int;
                if w + n + w2 == b.len() {
                    Some(x)
                } else {
                    None
                }
            },
        }
    }
}


// ---------- executable encoder ----------

proof fn lemma_esc_bytes_snoc(bs: Seq<u8>, b: u8)
    ensures
        esc_bytes(bs.push(b)) == esc_bytes(bs) + esc_byte(b),
    decreases bs,
{
    if bs.len() == 0 {
        assert(bs.push(b)[0] == b);
        assert(bs.push(b).drop_first() =~= Seq::<u8>::empty());
        assert(esc_bytes(Seq::<u8>::empty()) == Seq::<u8>::empty());
        assert(esc_bytes(bs.push(b)) == esc_byte(b) + Seq::<u8>::empty());
        assert(esc_bytes(bs) == Seq::<u8>::empty());
        assert(esc_bytes(bs.push(b)) =~= esc_bytes(bs) + esc_byte(b));
    } else {
        assert(bs.push(b)[0] == bs[0]);
        assert(bs.push(b).drop_first() =~= bs.drop_first().push(b));
        lemma_esc_bytes_snoc(bs.drop_first(), b);
        assert(esc_bytes(bs) == esc_byte(bs[0]) + esc_bytes(bs.drop_first()));
        assert(esc_bytes(bs.push(b)) == esc_byte(bs[0]) + esc_bytes(bs.drop_first().push(b)));
        assert(esc_bytes(bs.push(b)) =~= esc_bytes(bs) + esc_byte(b));
    }
}

fn hex_digit_x(n: u8) -> (r: u8)
    requires
        n < 16,
    ensures
        r == hex_digit(n as int),
{
    if n < 10 {
        48 + n
    } else {
        87 + n
    }
}

/// Appends the escaped UTF-8 form of a string (without quotes).
#[verifier::loop_isolation(false)]
fn write_escaped(s: &String, out: &mut Vec<u8>)
    ensures
        final(out)@ == old(out)@ + esc_bytes(encode_utf8(s@)),
{
    let bs = s.as_str().as_bytes_vec();
    let n = bs.len();
    let mut i: usize = 0;
    while i < n
        invariant
            n == bs@.len(),
            i <= n,
            out@ == old(out)@ + esc_bytes(bs@.take(i as int)),
        decreases n - i,
    {
        let b = bs[i];
        if b == 34 {
            out.push(92);
            out.push(34);
        } else if b == 92 {
            out.push(92);
            out.push(92);
        } else if b < 32 {
            out.push(92);
            out.push(117);
            out.push(48);
            out.push(48);
            let hi = hex_digit_x(b / 16);
            let lo = hex_digit_x(b % 16);
            out.push(hi);
            out.push(lo);
        } else {
            out.push(b);
        }
        proof {
            lemma_esc_bytes_snoc(bs@.take(i as int), b);
            assert(bs@.take(i as int).push(b) =~= bs@.take(i + 1 as int));
            assert(out@ =~= old(out)@ + esc_bytes(bs@.take(i + 1 as int)));
        }
        i = i + 1;
    }
    proof {
        assert(bs@.take(n as int) =~= bs@);
        assert(bs@ == encode_utf8(s@));
    }
}

/// Appends a quoted, escaped string literal.
fn write_str_lit(s: &String, out: &mut Vec<u8>)
    ensures
        final(out)@ == old(out)@ + enc_str(s@),
{
    out.push(34);
    write_escaped(s, out);
    out.push(34);
    proof {
        assert(out@ =~= old(out)@ + enc_str(s@));
    }
}

/// Appends the decimal form of `i`.
fn write_int(i: i64, out: &mut Vec<u8>)
    ensures
        final(out)@ == old(out)@ + int_bytes(i as int),
{
    let mut mag: u64 = if i >= 0 {
        i as u64
    } else {
        ((-(i + 1)) as u64) + 1
    };
    if i < 0 {
        out.push(45);
    }
    let ghost base = out@;
    let ghost m0 = mag as nat;
    let mut tmp: Vec<u8> = Vec::new();
    tmp.push(48 + (mag % 10) as u8);
    mag = mag / 10;
    while mag > 0
        invariant
            tmp@.len() >= 1,
            dec_digits(m0) =~= (if mag > 0 {
                dec_digits(mag as nat)
            } else {
                Seq::<u8>::empty()
            }) + tmp@.reverse(),
        decreases mag,
    {
        let d: u8 = 48 + (mag % 10) as u8;
        tmp.push(d);
        proof {
            assert(tmp@.reverse() =~= seq![d] + tmp@.drop_last().reverse());
            assert(dec_digits(mag as nat) == dec_digits((mag as nat) / 10) + seq![
                (48 + (mag as nat) % 10) as u8,
            ] || mag < 10);
        }
        mag = mag / 10;
        proof {
            assert(dec_digits(m0) =~= (if mag > 0 {
                dec_digits(mag as nat)
            } else {
                Seq::<u8>::empty()
            }) + tmp@.reverse());
        }
    }
    let mut j = tmp.len();
    while j > 0
        invariant
            j <= tmp@.len(),
            out@ == base + tmp@.reverse().take(tmp@.len() - j),
        decreases j,
    {
        let d = tmp[j - 1];
        out.push(d);
        proof {
            assert(tmp@.reverse()[tmp@.len() - j] == d);
            assert(out@ =~= base + tmp@.reverse().take(tmp@.len() - (j - 1)));
        }
        j = j - 1;
    }
    proof {
        assert(tmp@.reverse().take(tmp@.len() - 0) =~= tmp@.reverse());
        assert(dec_digits(m0) =~= tmp@.reverse());
        if i < 0 {
            assert(m0 == -(i as int));
            assert(base =~= old(out)@ + seq![45u8]);
            assert(out@ =~= old(out)@ + int_bytes(i as int));
        } else {
            assert(m0 == i as int);
            assert(out@ =~= old(out)@ + int_bytes(i as int));
        }
    }
}

/// Appends the canonical encoding of one value.
pub fn write_json_value(v: &JsonValue, out: &mut Vec<u8>)
    requires
        jval_wf(v@),
    ensures
        final(out)@ == old(out)@ + json_enc(v@),
    decreases *v, 0nat,
{
    match v {
        JsonValue::Null => {
            out.push(110);
            out.push(117);
            out.push(108);
            out.push(108);
            proof {
                assert(out@ =~= old(out)@ + json_enc(v@));
            }
        },
        JsonValue::Bool(b) => {
            if *b {
                out.push(116);
                out.push(114);
                out.push(117);
                out.push(101);
            } else {
                out.push(102);
                out.push(97);
                out.push(108);
                out.push(115);
                out.push(101);
            }
            proof {
                assert(out@ =~= old(out)@ + json_enc(v@));
            }
        },
        JsonValue::Int(i) => {
            write_int(*i, out);
        },
        JsonValue::Str(s) => {
            write_str_lit(s, out);
        },
        JsonValue::Arr(a) => {
            proof {
                lemma_jvals_of(a@);
            }
            out.push(91);
            proof {
                assert(a@.skip(0) =~= a@);
            }
            write_json_items(a, 0, out);
            out.push(93);
            proof {
                assert(jvals_of(a@).skip(0) =~= jvals_of(a@));
                assert(out@ =~= old(out)@ + json_enc(v@));
            }
        },
        JsonValue::Obj(m) => {
            proof {
                lemma_jmembers_of(m@);
            }
            out.push(123);
            proof {
                assert(m@.skip(0) =~= m@);
            }
            write_json_members(m, 0, out);
            out.push(125);
            proof {
                assert(jmembers_of(m@).skip(0) =~= jmembers_of(m@));
                assert(out@ =~= old(out)@ + json_enc(v@));
            }
        },
    }
}

fn write_json_items(a: &Vec<JsonValue>, i: usize, out: &mut Vec<u8>)
    requires
        i <= a@.len(),
        jval_wf_items(jvals_of(a@)),
    ensures
        final(out)@ == old(out)@ + enc_items(jvals_of(a@).skip(i as int)),
    decreases a@.skip(i as int), 1nat,
{
    proof {
        lemma_jvals_of(a@);
    }
    let ghost ll = jvals_of(a@).skip(i as int);
    if i < a.len() {
        proof {
            lemma_jval_wf_items_index(jvals_of(a@), i as int);
            assert(a@.skip(i as int)[0] == a@[i as int]);
        }
        write_json_value(&a[i], out);
        if i + 1 < a.len() {
            out.push(44);
            proof {
                assert(a@.skip(i + 1 as int) =~= a@.skip(i as int).drop_first());
            }
            write_json_items(a, i + 1, out);
            proof {
                assert(ll.drop_first() =~= jvals_of(a@).skip(i + 1 as int));
                assert(ll[0] == jval_of(a@[i as int]));
                assert(ll.len() >= 2);
                assert(out@ =~= old(out)@ + enc_items(ll));
            }
        } else {
            proof {
                assert(ll.len() == 1);
                assert(ll[0] == jval_of(a@[i as int]));
                assert(enc_items(ll) == json_enc(ll[0]));
            }
        }
    } else {
        proof {
            assert(ll.len() == 0);
            assert(out@ =~= old(out)@ + enc_items(ll));
        }
    }
}

fn write_json_members(m: &Vec<(String, JsonValue)>, i: usize, out: &mut Vec<u8>)
    requires
        i <= m@.len(),
        jval_wf_members(jmembers_of(m@)),
    ensures
        final(out)@ == old(out)@ + enc_members(jmembers_of(m@).skip(i as int)),
    decreases m@.skip(i as int), 1nat,
{
    proof {
        lemma_jmembers_of(m@);
    }
    let ghost mm = jmembers_of(m@).skip(i as int);
    if i < m.len() {
        proof {
            lemma_jval_wf_members_index(jmembers_of(m@), i as int);
            assert(m@.skip(i as int)[0] == m@[i as int]);
        }
        let pair = &m[i];
        write_str_lit(&pair.0, out);
        out.push(58);
        write_json_value(&pair.1, out);
        if i + 1 < m.len() {
            out.push(44);
            proof {
                assert(m@.skip(i + 1 as int) =~= m@.skip(i as int).drop_first());
            }
            write_json_members(m, i + 1, out);
            proof {
                assert(mm.drop_first() =~= jmembers_of(m@).skip(i + 1 as int));
                assert(mm[0] == (m@[i as int].0@, jval_of(m@[i as int].1)));
                assert(mm.len() >= 2);
                assert(out@ =~= old(out)@ + enc_members(mm));
            }
        } else {
            proof {
                assert(mm.len() == 1);
                assert(mm[0] == (m@[i as int].0@, jval_of(m@[i as int].1)));
                assert(out@ =~= old(out)@ + enc_members(mm));
            }
        }
    } else {
        proof {
            assert(mm.len() == 0);
            assert(out@ =~= old(out)@ + enc_members(mm));
        }
    }
}

/// Canonical JSON encoding of a well-formed value.
pub fn json_encode(v: &JsonValue) -> (r: Vec<u8>)
    requires
        jval_wf(v@),
    ensures
        r@ == json_enc(v@),
{
    let mut out: Vec<u8> = Vec::new();
    write_json_value(v, &mut out);
    proof {
        assert(out@ =~= json_enc(v@));
    }
    out
}


// ---------- executable parser ----------

/// Index just past the run of whitespace starting at `pos`.
fn skip_ws(b: &[u8], pos: usize) -> (r: usize)
    requires
        pos <= b@.len(),
    ensures
        pos <= r <= b@.len(),
        r - pos == ws_len(b@.skip(pos as int)),
    decreases b@.len() - pos,
{
    let mut p = pos;
    while p < b.len() && (b[p] == 32 || b[p] == 9 || b[p] == 10 || b[p] == 13)
        invariant
            pos <= p <= b@.len(),
            ws_len(b@.skip(pos as int)) == (p - pos) + ws_len(b@.skip(p as int)),
        decreases b@.len() - p,
    {
        proof {
            assert(b@.skip(p as int)[0] == b@[p as int]);
            assert(b@.skip(p as int).drop_first() =~= b@.skip(p + 1 as int));
        }
        p = p + 1;
    }
    proof {
        if p < b@.len() {
            assert(!is_ws(b@.skip(p as int)[0]));
        }
        assert(ws_len(b@.skip(p as int)) == 0);
    }
    p
}

proof fn lemma_digits_val_step(t: Seq<u8>, k: int)
    requires
        0 <= k < t.len(),
    ensures
        digits_val(t.take(k + 1)) == digits_val(t.take(k)) * 10 + (t[k] - 48),
{
    assert(t.take(k + 1).drop_last() =~= t.take(k));
    assert(t.take(k + 1).last() == t[k]);
}

proof fn lemma_digits_val_bounds(t: Seq<u8>, k1: int, k2: int)
    requires
        0 <= k1 <= k2 <= t.len(),
        forall|i: int| 0 <= i < k2 ==> is_digit(#[trigger] t[i]),
    ensures
        0 <= digits_val(t.take(k1)) <= digits_val(t.take(k2)),
    decreases k2 - k1, k1,
{
    if k1 == k2 {
        if k1 == 0 {
            assert(t.take(0).len() == 0);
        } else {
            lemma_digits_val_bounds(t, k1 - 1, k1 - 1);
            lemma_digits_val_step(t, k1 - 1);
        }
    } else {
        lemma_digits_val_bounds(t, k1, k2 - 1);
        lemma_digits_val_bounds(t, k2 - 1, k2 - 1);
        lemma_digits_val_step(t, k2 - 1);
    }
}

/// Parses an integer literal at `pos`, as [`sp_int`] describes.
#[verifier::loop_isolation(false)]
fn parse_int(b: &[u8], pos: usize) -> (r: Option<(i64, usize)>)
    requires
        pos <= b@.len(),
    ensures
        match r {
            Some(p) => sp_int(b@.skip(pos as int)) == Some((p.0 as int, p.1 - pos as int)) && pos
                < p.1 <= b@.len(),
            None => sp_int(b@.skip(pos as int)) is None,
        },
{
    let ghost s0 = b@.skip(pos as int);
    let mut p = pos;
    let neg = p < b.len() && b[p] == 45;
    if neg {
        p = p + 1;
    }
    let start = p;
    let ghost t = b@.skip(start as int);
    proof {
        if s0.len() > 0 {
            assert(s0[0] == b@[pos as int]);
        }
        assert(t =~= s0.skip(if neg { 1int } else { 0int }));
        assert(t.skip(0) =~= t);
    }
    if p >= b.len() || !(48 <= b[p] && b[p] <= 57) {
        proof {
            if t.len() > 0 {
                assert(t[0] == b@[start as int]);
            }
            assert(digits_len(t) == 0);
        }
        return None;
    }
    if b[p] == 48 && p + 1 < b.len() && 48 <= b[p + 1] && b[p + 1] <= 57 {
        proof {
            assert(t[0] == b@[start as int]);
            assert(t.drop_first()[0] == b@[start + 1]);
            assert(digits_len(t) == 1 + digits_len(t.drop_first()));
            assert(digits_len(t.drop_first()) >= 1);
        }
        return None;
    }
    let mut acc: u64 = 0;
    while p < b.len() && 48 <= b[p] && b[p] <= 57
        invariant
            start <= p <= b@.len(),
            pos <= start <= pos + 1,
            t == b@.skip(start as int),
            forall|i: int| 0 <= i < p - start ==> is_digit(#[trigger] t[i]),
            digits_len(t) == (p - start) + digits_len(t.skip(p - start)),
            acc == digits_val(t.take(p - start)),
        decreases b@.len() - p,
    {
        let d: u8 = b[p] - 48;
        proof {
            assert(t.skip(p - start)[0] == b@[p as int]);
            assert(t[p - start] == b@[p as int]);
            assert(t.skip(p - start).drop_first() =~= t.skip(p - start + 1));
            assert(digits_len(t.skip(p - start)) == 1 + digits_len(t.skip(p - start + 1)));
        }
        if acc > (u64::MAX - d as u64) / 10 {
            proof {
                vstd::arithmetic::div_mod::lemma_fundamental_div_mod(
                    (u64::MAX - d as u64) as int,
                    10,
                );
                assert(acc * 10 + d > u64::MAX);
                lemma_digits_val_step(t, p - start);
                lemma_digits_len_all(t);
                let dl = digits_len(t) as int;
                assert(p - start + 1 <= dl);
                lemma_digits_val_bounds(t, p - start + 1, dl);
                assert(digits_val(t.take(dl)) > u64::MAX);
                assert(t.take(dl) =~= t.take(digits_len(t) as int));
                assert(sp_int(s0) is None);
            }
            return None;
        }
        proof {
            vstd::arithmetic::div_mod::lemma_fundamental_div_mod((u64::MAX - d as u64) as int, 10);
            assert(acc * 10 + d <= u64::MAX);
            lemma_digits_val_step(t, p - start);
        }
        acc = acc * 10 + d as u64;
        p = p + 1;
    }
    let ghost dl = digits_len(t) as int;
    proof {
        if p < b@.len() {
            assert(t.skip(p - start)[0] == b@[p as int]);
        }
        assert(digits_len(t.skip(p - start)) == 0);
        assert(dl == p - start);
        assert(dl >= 1);
        assert(t.take(dl) =~= t.take(p - start));
    }
    if p < b.len() && (b[p] == 46 || b[p] == 101 || b[p] == 69) {
        proof {
            assert(t[dl] == b@[p as int]);
        }
        return None;
    }
    proof {
        if dl < t.len() {
            assert(t[dl] == b@[p as int]);
        }
        if dl > 1 {
            lemma_digits_len_all(t);
            assert(t[0] == b@[start as int]);
            assert(t.drop_first()[0] == t[1]);
            assert(is_digit(t[1]));
            assert(!(t[0] == 48));
        }
    }
    if neg {
        if acc > 9223372036854775808u64 {
            return None;
        }
        let v: i64 = if acc == 9223372036854775808u64 {
            i64::MIN
        } else {
            -(acc as i64)
        };
        Some((v, p))
    } else {
        if acc > 9223372036854775807u64 {
            return None;
        }
        Some((acc as i64, p))
    }
}

proof fn lemma_digits_len_all(t: Seq<u8>)
    ensures
        digits_len(t) <= t.len(),
        forall|i: int| 0 <= i < digits_len(t) ==> is_digit(#[trigger] t[i]),
    decreases t.len(),
{
    if t.len() > 0 && is_digit(t[0]) {
        lemma_digits_len_all(t.drop_first());
        assert forall|i: int| 0 <= i < digits_len(t) implies is_digit(#[trigger] t[i]) by {
            if i > 0 {
                assert(t.drop_first()[i - 1] == t[i]);
            }
        }
    }
}


fn is_hex_x(b: u8) -> (r: bool)
    ensures
        r == is_hex(b),
{
    (48 <= b && b <= 57) || (97 <= b && b <= 102) || (65 <= b && b <= 70)
}

fn hex_val_x(b: u8) -> (r: u8)
    requires
        is_hex(b),
    ensures
        r as int == hex_val(b),
        r < 16,
{
    if 48 <= b && b <= 57 {
        b - 48
    } else if 97 <= b && b <= 102 {
        b - 87
    } else {
        b - 55
    }
}

/// Parses a string-literal body starting at `pos` (just after the
/// opening quote), as [`sp_str_bytes`] describes: it collects the
/// unescaped UTF-8 bytes.
#[verifier::loop_isolation(false)]
fn parse_str_body(b: &[u8], pos: usize) -> (r: Option<(Vec<u8>, usize)>)
    requires
        pos <= b@.len(),
    ensures
        match r {
            Some(p) => sp_str_bytes(b@.skip(pos as int)) == Some((p.0@, p.1 - pos as int)) && pos
                < p.1 <= b@.len() && p.0@.len() <= p.1 - pos,
            None => sp_str_bytes(b@.skip(pos as int)) is None,
        },
{
    let ghost s0 = b@.skip(pos as int);
    let mut acc: Vec<u8> = Vec::new();
    let mut p = pos;
    loop
        invariant
            pos <= p <= b@.len(),
            acc@.len() <= p - pos,
            match sp_str_bytes(b@.skip(p as int)) {
                Some(t) => sp_str_bytes(s0) == Some((acc@ + t.0, (p - pos) + t.1)),
                None => sp_str_bytes(s0) is None,
            },
        decreases b@.len() - p,
    {
        if p >= b.len() {
            return None;
        }
        let c = b[p];
        proof {
            assert(b@.skip(p as int)[0] == c);
        }
        if c == 34 {
            proof {
                assert(sp_str_bytes(b@.skip(p as int)) == Some((Seq::<u8>::empty(), 1int)));
                assert(acc@ + Seq::<u8>::empty() =~= acc@);
            }
            return Some((acc, p + 1));
        } else if c == 92 {
            if p + 1 >= b.len() {
                proof {
                    assert(b@.skip(p as int).len() < 2);
                }
                return None;
            }
            let e = b[p + 1];
            proof {
                assert(b@.skip(p as int)[1] == e);
            }
            if e == 117 {
                if b.len() - p <= 5 {
                    proof {
                        assert(b@.skip(p as int).len() < 6);
                    }
                    return None;
                }
                let h2 = b[p + 2];
                let h3 = b[p + 3];
                let h4 = b[p + 4];
                let h5 = b[p + 5];
                proof {
                    assert(b@.skip(p as int)[2] == h2);
                    assert(b@.skip(p as int)[3] == h3);
                    assert(b@.skip(p as int)[4] == h4);
                    assert(b@.skip(p as int)[5] == h5);
                }
                if !(is_hex_x(h2) && is_hex_x(h3) && is_hex_x(h4) && is_hex_x(h5)) {
                    return None;
                }
                let code: u32 = (hex_val_x(h2) as u32) * 4096 + (hex_val_x(h3) as u32) * 256 + (
                hex_val_x(h4) as u32) * 16 + (hex_val_x(h5) as u32);
                if code >= 128 {
                    return None;
                }
                let ghost prev = acc@;
                acc.push(code as u8);
                proof {
                    assert(b@.skip(p as int).skip(6) =~= b@.skip(p + 6 as int));
                    assert forall|x: Seq<u8>, y: Seq<u8>, w: u8|
                        true implies #[trigger] (x.push(w) + y) == x + (seq![w] + y) by {
                        assert(x.push(w) + y =~= x + (seq![w] + y));
                    }
                }
                p = p + 6;
            } else {
                let rc: u8;
                if e == 34 {
                    rc = 34;
                } else if e == 92 {
                    rc = 92;
                } else if e == 47 {
                    rc = 47;
                } else if e == 98 {
                    rc = 8;
                } else if e == 102 {
                    rc = 12;
                } else if e == 110 {
                    rc = 10;
                } else if e == 114 {
                    rc = 13;
                } else if e == 116 {
                    rc = 9;
                } else {
                    return None;
                }
                let ghost prev = acc@;
                acc.push(rc);
                proof {
                    assert(esc_byte_of(e) == Some(rc));
                    assert(b@.skip(p as int).skip(2) =~= b@.skip(p + 2 as int));
                    assert forall|x: Seq<u8>, y: Seq<u8>, w: u8|
                        true implies #[trigger] (x.push(w) + y) == x + (seq![w] + y) by {
                        assert(x.push(w) + y =~= x + (seq![w] + y));
                    }
                }
                p = p + 2;
            }
        } else if 32 <= c {
            let ghost prev = acc@;
            acc.push(c);
            proof {
                assert(b@.skip(p as int).skip(1) =~= b@.skip(p + 1 as int));
                assert forall|x: Seq<u8>, y: Seq<u8>, w: u8|
                    true implies #[trigger] (x.push(w) + y) == x + (seq![w] + y) by {
                    assert(x.push(w) + y =~= x + (seq![w] + y));
                }
            }
            p = p + 1;
        } else {
            return None;
        }
    }
}


/// Parses a string value whose opening quote sits at `pos`.
#[verifier::loop_isolation(false)]
#[verifier::rlimit(60)]
fn parse_str_value(b: &[u8], pos: usize) -> (r: Option<(JsonValue, usize)>)
    requires
        pos < b@.len(),
        b@[pos as int] == 34,
    ensures
        ({
            let sb = sp_str_bytes(b@.skip(pos + 1 as int));
            match r {
                Some(p) => sb matches Some(t) && (t.0.len() <= MAX_LEN && valid_utf8(t.0)
                    && p.0@ == JVal::Str(decode_utf8(t.0)) && p.1 - pos == 1 + t.1 && pos < p.1
                    <= b@.len() && jval_wf(p.0@) && jdepth(p.0@) == 1),
                None => !(sb matches Some(t) && t.0.len() <= MAX_LEN && valid_utf8(t.0)),
            }
        }),
{
    let bl = b.len();
    match parse_str_body(b, pos + 1) {
        None => None,
        Some((bs, end)) => {
            if (bs.len() as u64) > MAX_LEN {
                None
            } else {
                match string_from_utf8_checked(bs) {
                    Some(cs) => {
                        proof {
                            vstd::utf8::decode_utf8_encode_utf8(
                                sp_str_bytes(b@.skip(pos + 1 as int))->Some_0.0,
                            );
                        }
                        Some((JsonValue::Str(cs), end))
                    },
                    None => None,
                }
            }
        },
    }
}

/// Parses one value at `pos`, as [`sp_value`] describes.
#[verifier::loop_isolation(false)]
#[verifier::rlimit(60)]
pub fn parse_json_value(b: &[u8], pos: usize, d: u32) -> (r: Option<(JsonValue, usize)>)
    requires
        pos <= b@.len(),
    ensures
        match r {
            Some(p) => sp_value(b@.skip(pos as int), d as nat) == Some((p.0@, p.1 - pos as int))
                && pos < p.1 <= b@.len() && jval_wf(p.0@) && jdepth(p.0@) <= d + 1,
            None => sp_value(b@.skip(pos as int), d as nat) is None,
        },
    decreases d, b@.len() - pos, 0nat,
{
    let ghost s0 = b@.skip(pos as int);
    if pos >= b.len() {
        return None;
    }
    let c = b[pos];
    proof {
        assert(s0[0] == c);
    }
    if c == 110 {
        if b.len() - pos >= 4 && b[pos + 1] == 117 && b[pos + 2] == 108 && b[pos + 3] == 108 {
            proof {
                assert(s0[1] == b@[pos + 1]);
                assert(s0[2] == b@[pos + 2]);
                assert(s0[3] == b@[pos + 3]);
            }
            Some((JsonValue::Null, pos + 4))
        } else {
            proof {
                if s0.len() >= 4 {
                    assert(s0[1] == b@[pos + 1]);
                    assert(s0[2] == b@[pos + 2]);
                    assert(s0[3] == b@[pos + 3]);
                }
            }
            None
        }
    } else if c == 116 {
        if b.len() - pos >= 4 && b[pos + 1] == 114 && b[pos + 2] == 117 && b[pos + 3] == 101 {
            proof {
                assert(s0[1] == b@[pos + 1]);
                assert(s0[2] == b@[pos + 2]);
                assert(s0[3] == b@[pos + 3]);
            }
            Some((JsonValue::Bool(true), pos + 4))
        } else {
            proof {
                if s0.len() >= 4 {
                    assert(s0[1] == b@[pos + 1]);
                    assert(s0[2] == b@[pos + 2]);
                    assert(s0[3] == b@[pos + 3]);
                }
            }
            None
        }
    } else if c == 102 {
        if b.len() - pos >= 5 && b[pos + 1] == 97 && b[pos + 2] == 108 && b[pos + 3] == 115 && b[pos
            + 4] == 101 {
            proof {
                assert(s0[1] == b@[pos + 1]);
                assert(s0[2] == b@[pos + 2]);
                assert(s0[3] == b@[pos + 3]);
                assert(s0[4] == b@[pos + 4]);
            }
            Some((JsonValue::Bool(false), pos + 5))
        } else {
            proof {
                if s0.len() >= 5 {
                    assert(s0[1] == b@[pos + 1]);
                    assert(s0[2] == b@[pos + 2]);
                    assert(s0[3] == b@[pos + 3]);
                    assert(s0[4] == b@[pos + 4]);
                }
            }
            None
        }
    } else if c == 34 {
        proof {
            assert(s0.skip(1) =~= b@.skip(pos + 1 as int));
        }
        parse_str_value(b, pos)
    } else if c == 45 || (48 <= c && c <= 57) {
        match parse_int(b, pos) {
            None => None,
            Some((v, end)) => Some((JsonValue::Int(v), end)),
        }
    } else if c == 91 {
        proof {
            assert(s0.skip(1) =~= b@.skip(pos + 1 as int));
        }
        let q = skip_ws(b, pos + 1);
        if q < b.len() {
            proof {
                assert(s0[q - pos] == b@[q as int]);
            }
        }
        if q < b.len() && b[q] == 93 {
            let vv: Vec<JsonValue> = Vec::new();
            proof {
                assert(jvals_of(vv@) =~= Seq::<JVal>::empty());
                assert(jval_wf(JVal::Arr(Seq::empty())));
            }
            return Some((JsonValue::Arr(vv), q + 1));
        }
        if d == 0 {
            return None;
        }
        proof {
            assert(s0.skip(q - pos) =~= b@.skip(q as int));
        }
        match parse_elems(b, q, d - 1) {
            None => None,
            Some((vec, end)) => {
                proof {
                    lemma_jvals_of(vec@);
                }
                if (vec.len() as u64) > MAX_LEN {
                    None
                } else {
                    Some((JsonValue::Arr(vec), end))
                }
            },
        }
    } else if c == 123 {
        proof {
            assert(s0.skip(1) =~= b@.skip(pos + 1 as int));
        }
        let q = skip_ws(b, pos + 1);
        if q < b.len() {
            proof {
                assert(s0[q - pos] == b@[q as int]);
            }
        }
        if q < b.len() && b[q] == 125 {
            let vv: Vec<(String, JsonValue)> = Vec::new();
            proof {
                assert(jmembers_of(vv@) =~= Seq::<(Seq<char>, JVal)>::empty());
                assert(jval_wf(JVal::Obj(Seq::empty())));
            }
            return Some((JsonValue::Obj(vv), q + 1));
        }
        if d == 0 {
            return None;
        }
        proof {
            assert(s0.skip(q - pos) =~= b@.skip(q as int));
        }
        match parse_members(b, q, d - 1) {
            None => None,
            Some((vec, end)) => {
                proof {
                    lemma_jmembers_of(vec@);
                }
                if (vec.len() as u64) > MAX_LEN {
                    None
                } else {
                    Some((JsonValue::Obj(vec), end))
                }
            },
        }
    } else {
        None
    }
}

/// Parses the element list and closing bracket of a non-empty array,
/// as [`sp_elems`] describes.
#[verifier::loop_isolation(false)]
fn parse_elems(b: &[u8], pos: usize, d: u32) -> (r: Option<(Vec<JsonValue>, usize)>)
    requires
        pos <= b@.len(),
    ensures
        match r {
            Some(p) => sp_elems(b@.skip(pos as int), d as nat) == Some(
                (jvals_of(p.0@), p.1 - pos as int),
            ) && pos < p.1 <= b@.len() && jval_wf_items(jvals_of(p.0@)) && jdepth_items(
                jvals_of(p.0@),
            ) <= d + 1 && p.0@.len() == jvals_of(p.0@).len(),
            None => sp_elems(b@.skip(pos as int), d as nat) is None,
        },
    decreases d, b@.len() - pos, 1nat,
{
    let ghost s0 = b@.skip(pos as int);
    let mut acc: Vec<JsonValue> = Vec::new();
    let mut p = pos;
    proof {
        assert(jvals_of(acc@) =~= Seq::<JVal>::empty());
    }
    loop
        invariant
            pos <= p <= b@.len(),
            jval_wf_items(jvals_of(acc@)),
            jdepth_items(jvals_of(acc@)) <= d + 1,
            acc@.len() == jvals_of(acc@).len(),
            match sp_elems(b@.skip(p as int), d as nat) {
                Some(t) => sp_elems(s0, d as nat) == Some(
                    (jvals_of(acc@) + t.0, (p - pos) + t.1),
                ),
                None => sp_elems(s0, d as nat) is None,
            },
        decreases b@.len() - p,
    {
        let ghost sp = b@.skip(p as int);
        let rv = parse_json_value(b, p, d);
        match rv {
            None => {
                return None;
            },
            Some((v, e)) => {
                let ghost prevacc = acc@;
                acc.push(v);
                proof {
                    lemma_jvals_of(prevacc);
                    lemma_jvals_of_push(prevacc, v);
                    lemma_wf_items_push(jvals_of(prevacc), jval_of(v));
                }
                let q = skip_ws(b, e);
                proof {
                    assert(sp.skip(e - p) =~= b@.skip(e as int));
                }
                if q >= b.len() {
                    return None;
                }
                let ch = b[q];
                proof {
                    assert(sp[q - p] == ch);
                }
                if ch == 93 {
                    proof {
                        assert(sp_elems(sp, d as nat) == Some((seq![jval_of(v)], (q - p) + 1int)));
                        assert(jvals_of(prevacc) + seq![jval_of(v)] =~= jvals_of(acc@));
                    }
                    return Some((acc, q + 1));
                } else if ch == 44 {
                    proof {
                        assert(sp.skip(q + 1 - p) =~= b@.skip(q + 1 as int));
                    }
                    let p2 = skip_ws(b, q + 1);
                    proof {
                        assert(sp.skip(p2 - p) =~= b@.skip(p2 as int));
                        assert(sp_elems(sp, d as nat) == (match sp_elems(
                            b@.skip(p2 as int),
                            d as nat,
                        ) {
                            Some((rest, rn)) => Some((seq![jval_of(v)] + rest, (p2 - p) + rn)),
                            None => None::<(Seq<JVal>, int)>,
                        }));
                        assert forall|t0: Seq<JVal>|
                            true implies jvals_of(prevacc) + (seq![jval_of(v)] + t0) == jvals_of(
                            acc@,
                        ) + t0 by {
                            assert(jvals_of(prevacc) + (seq![jval_of(v)] + t0) =~= jvals_of(acc@)
                                + t0);
                        }
                    }
                    p = p2;
                } else {
                    return None;
                }
            },
        }
    }
}

/// Parses the member list and closing brace of a non-empty object,
/// as [`sp_members`] describes.
#[verifier::loop_isolation(false)]
#[verifier::rlimit(60)]
fn parse_members(b: &[u8], pos: usize, d: u32) -> (r: Option<(Vec<(String, JsonValue)>, usize)>)
    requires
        pos <= b@.len(),
    ensures
        match r {
            Some(p) => sp_members(b@.skip(pos as int), d as nat) == Some(
                (jmembers_of(p.0@), p.1 - pos as int),
            ) && pos < p.1 <= b@.len() && jval_wf_members(jmembers_of(p.0@)) && jdepth_members(
                jmembers_of(p.0@),
            ) <= d + 1 && p.0@.len() == jmembers_of(p.0@).len(),
            None => sp_members(b@.skip(pos as int), d as nat) is None,
        },
    decreases d, b@.len() - pos, 1nat,
{
    let ghost s0 = b@.skip(pos as int);
    let mut acc: Vec<(String, JsonValue)> = Vec::new();
    let mut p = pos;
    proof {
        assert(jmembers_of(acc@) =~= Seq::<(Seq<char>, JVal)>::empty());
    }
    loop
        invariant
            pos <= p <= b@.len(),
            jval_wf_members(jmembers_of(acc@)),
            jdepth_members(jmembers_of(acc@)) <= d + 1,
            acc@.len() == jmembers_of(acc@).len(),
            match sp_members(b@.skip(p as int), d as nat) {
                Some(t) => sp_members(s0, d as nat) == Some(
                    (jmembers_of(acc@) + t.0, (p - pos) + t.1),
                ),
                None => sp_members(s0, d as nat) is None,
            },
        decreases b@.len() - p,
    {
        let ghost sp = b@.skip(p as int);
        if p >= b.len() {
            return None;
        }
        proof {
            assert(sp[0] == b@[p as int]);
        }
        if b[p] != 34 {
            return None;
        }
        proof {
            assert(sp.skip(1) =~= b@.skip(p + 1 as int));
        }
        let rk = parse_str_body(b, p + 1);
        match rk {
            None => {
                return None;
            },
            Some((kb, ke)) => {
                if (kb.len() as u64) > MAX_LEN {
                    return None;
                }
                let k = match string_from_utf8_checked(kb) {
                    Some(k) => k,
                    None => {
                        return None;
                    },
                };
                proof {
                    vstd::utf8::decode_utf8_encode_utf8(sp_str_bytes(sp.skip(1))->Some_0.0);
                }
                let q1 = skip_ws(b, ke);
                proof {
                    assert(sp.skip(ke - p) =~= b@.skip(ke as int));
                }
                if q1 >= b.len() {
                    return None;
                }
                proof {
                    assert(sp[q1 - p] == b@[q1 as int]);
                }
                if b[q1] != 58 {
                    return None;
                }
                proof {
                    assert(sp.skip(q1 + 1 - p) =~= b@.skip(q1 + 1 as int));
                }
                let q2 = skip_ws(b, q1 + 1);
                proof {
                    assert(sp.skip(q2 - p) =~= b@.skip(q2 as int));
                }
                let rv = parse_json_value(b, q2, d);
                match rv {
                    None => {
                        return None;
                    },
                    Some((v, ve)) => {
                        let ghost prevacc = acc@;
                        acc.push((k, v));
                        proof {
                            lemma_jmembers_of(prevacc);
                            lemma_jmembers_of_push(prevacc, k, v);
                            lemma_wf_members_push(jmembers_of(prevacc), k@, jval_of(v));
                        }
                        let q3 = skip_ws(b, ve);
                        proof {
                            assert(sp.skip(ve - p) =~= b@.skip(ve as int));
                        }
                        if q3 >= b.len() {
                            return None;
                        }
                        let ch = b[q3];
                        proof {
                            assert(sp[q3 - p] == ch);
                        }
                        if ch == 125 {
                            proof {
                                assert(sp_members(sp, d as nat) == Some(
                                    (seq![(k@, jval_of(v))], (q3 - p) + 1int),
                                ));
                                assert(jmembers_of(prevacc) + seq![(k@, jval_of(v))]
                                    =~= jmembers_of(acc@));
                            }
                            return Some((acc, q3 + 1));
                        } else if ch == 44 {
                            proof {
                                assert(sp.skip(q3 + 1 - p) =~= b@.skip(q3 + 1 as int));
                            }
                            let p2 = skip_ws(b, q3 + 1);
                            proof {
                                assert(sp.skip(p2 - p) =~= b@.skip(p2 as int));
                                assert(sp_members(sp, d as nat) == (match sp_members(
                                    b@.skip(p2 as int),
                                    d as nat,
                                ) {
                                    Some((rest, rn)) => Some(
                                        (seq![(k@, jval_of(v))] + rest, (p2 - p) + rn),
                                    ),
                                    None => None::<(Seq<(Seq<char>, JVal)>, int)>,
                                }));
                                assert forall|t0: Seq<(Seq<char>, JVal)>|
                                    true implies jmembers_of(prevacc) + (seq![(k@, jval_of(v))]
                                    + t0) == jmembers_of(acc@) + t0 by {
                                    assert(jmembers_of(prevacc) + (seq![(k@, jval_of(v))] + t0)
                                        =~= jmembers_of(acc@) + t0);
                                }
                            }
                            p = p2;
                        } else {
                            return None;
                        }
                    },
                }
            },
        }
    }
}

/// Whole-document JSON parse, as [`json_dec`] describes.
pub fn json_decode(b: &[u8]) -> (r: Option<JsonValue>)
    ensures
        match r {
            Some(v) => json_dec(b@) == Some(v@) && jval_wf(v@) && jdepth(v@) <= MAX_DEPTH,
            None => json_dec(b@) is None,
        },
{
    let w = skip_ws(b, 0);
    proof {
        assert(b@.skip(0) =~= b@);
    }
    match parse_json_value(b, w, MAX_DEPTH - 1) {
        None => None,
        Some((v, end)) => {
            let w2 = skip_ws(b, end);
            if w2 == b.len() {
                Some(v)
            } else {
                None
            }
        },
    }
}


// ---------- round trip: parsing inverts encoding ----------

/// First byte of any encoded value: never whitespace nor one of the
/// separators `,` `:` `]` `}`, and never a float continuation.
proof fn lemma_enc_head(x: JVal)
    ensures
        json_enc(x).len() >= 1,
        !is_ws(json_enc(x)[0]),
        json_enc(x)[0] != 44 && json_enc(x)[0] != 58 && json_enc(x)[0] != 93 && json_enc(x)[0]
            != 125,
{
    match x {
        JVal::Null => {},
        JVal::Bool(b) => {},
        JVal::Int(i) => {
            if i < 0 {
                assert(json_enc(x)[0] == 45);
            } else {
                lemma_dec_digits(i as nat);
                assert(json_enc(x)[0] == dec_digits(i as nat)[0]);
            }
        },
        JVal::Str(s) => {
            assert(json_enc(x)[0] == 34);
        },
        JVal::Arr(l) => {
            assert(json_enc(x)[0] == 91);
        },
        JVal::Obj(m) => {
            assert(json_enc(x)[0] == 123);
        },
    }
}

/// The decimal digits of `n` are digits, start nonzero unless `n`
/// itself is zero, and evaluate back to `n`.
proof fn lemma_dec_digits(n: nat)
    ensures
        dec_digits(n).len() >= 1,
        forall|i: int| 0 <= i < dec_digits(n).len() ==> is_digit(#[trigger] dec_digits(n)[i]),
        n >= 1 ==> dec_digits(n)[0] != 48,
        n < 10 ==> dec_digits(n).len() == 1,
        digits_val(dec_digits(n)) == n,
    decreases n,
{
    if n < 10 {
        assert(dec_digits(n).drop_last() =~= Seq::<u8>::empty());
        assert(dec_digits(n).last() == (48 + n) as u8);
        assert(digits_val(Seq::<u8>::empty()) == 0);
        assert(digits_val(dec_digits(n)) == n);
    } else {
        lemma_dec_digits(n / 10);
        let d = dec_digits(n);
        let h = dec_digits(n / 10);
        assert(d == h + seq![(48 + n % 10) as u8]);
        assert forall|i: int| 0 <= i < d.len() implies is_digit(#[trigger] d[i]) by {
            if i < h.len() {
                assert(d[i] == h[i]);
            } else {
                assert(d[i] == (48 + n % 10) as u8);
            }
        }
        assert(d[0] == h[0]);
        assert(d.drop_last() =~= h);
        assert(d.last() == (48 + n % 10) as u8);
        assert(digits_val(d) == digits_val(h) * 10 + (n % 10));
        vstd::arithmetic::div_mod::lemma_fundamental_div_mod(n as int, 10);
    }
}

/// A run of `k` digits followed by a non-digit scans as exactly `k`.
proof fn lemma_digits_len_exact(t: Seq<u8>, k: int)
    requires
        0 <= k <= t.len(),
        forall|i: int| 0 <= i < k ==> is_digit(#[trigger] t[i]),
        k == t.len() || !is_digit(t[k]),
    ensures
        digits_len(t) == k,
    decreases k,
{
    if k == 0 {
        if t.len() > 0 {
            assert(!is_digit(t[0]));
        }
    } else {
        assert(is_digit(t[0]));
        assert forall|i: int| 0 <= i < k - 1 implies is_digit(#[trigger] t.drop_first()[i]) by {
            assert(t.drop_first()[i] == t[i + 1]);
        }
        assert(k - 1 == t.drop_first().len() || !is_digit(t.drop_first()[k - 1]));
        lemma_digits_len_exact(t.drop_first(), k - 1);
    }
}

/// Parsing inverts the decimal encoding of an `i64`, provided the
/// following byte cannot extend the literal.
proof fn lemma_rt_int(i: int, rest: Seq<u8>)
    requires
        i64::MIN <= i <= i64::MAX,
        rest.len() == 0 || !(is_digit(rest[0]) || rest[0] == 46 || rest[0] == 101 || rest[0]
            == 69),
    ensures
        sp_int(int_bytes(i) + rest) == Some((i, int_bytes(i).len() as int)),
{
    let s = int_bytes(i) + rest;
    if i < 0 {
        let n = (-i) as nat;
        lemma_dec_digits(n);
        let h = dec_digits(n);
        assert(s[0] == 45);
        let t = s.skip(1);
        assert(t =~= h + rest);
        assert forall|j: int| 0 <= j < h.len() implies is_digit(#[trigger] t[j]) by {
            assert(t[j] == h[j]);
        }
        if h.len() < t.len() {
            assert(t[h.len() as int] == rest[0]);
        }
        lemma_digits_len_exact(t, h.len() as int);
        assert(t.take(h.len() as int) =~= h);
        assert(digits_val(t.take(digits_len(t) as int)) == n);
        if digits_len(t) > 1 {
            assert(t[0] == h[0]);
            assert(t[0] != 48);
        }
        assert(sp_int(s) == Some((i, 1 + h.len() as int)));
        assert(int_bytes(i).len() == 1 + h.len());
    } else {
        let n = i as nat;
        lemma_dec_digits(n);
        let h = dec_digits(n);
        assert(s[0] == h[0]);
        assert(is_digit(s[0]));
        assert(s[0] != 45);
        let t = s.skip(0);
        assert(t =~= h + rest);
        assert forall|j: int| 0 <= j < h.len() implies is_digit(#[trigger] t[j]) by {
            assert(t[j] == h[j]);
        }
        if h.len() < t.len() {
            assert(t[h.len() as int] == rest[0]);
        }
        lemma_digits_len_exact(t, h.len() as int);
        assert(t.take(h.len() as int) =~= h);
        assert(digits_val(t.take(digits_len(t) as int)) == n);
        if digits_len(t) > 1 {
            assert(n >= 1) by {
                if n == 0 {
                    assert(h.len() == 1);
                }
            }
            assert(t[0] == h[0]);
            assert(t[0] != 48);
        }
        assert(sp_int(s) == Some((i, h.len() as int)));
    }
}

/// Parsing inverts the escaping of a string body's UTF-8 bytes.
proof fn lemma_rt_str(bs: Seq<u8>, rest: Seq<u8>)
    ensures
        sp_str_bytes(esc_bytes(bs) + seq![34u8] + rest) == Some(
            (bs, esc_bytes(bs).len() + 1int),
        ),
    decreases bs,
{
    let s = esc_bytes(bs) + seq![34u8] + rest;
    if bs.len() == 0 {
        assert(s[0] == 34);
        assert(bs =~= Seq::<u8>::empty());
    } else {
        let b = bs[0];
        let e = esc_byte(b);
        let tail = esc_bytes(bs.drop_first()) + seq![34u8] + rest;
        assert(s =~= e + tail);
        lemma_rt_str(bs.drop_first(), rest);
        assert(sp_str_bytes(tail) == Some((bs.drop_first(), esc_bytes(bs.drop_first()).len()
            + 1int)));
        if b == 34 {
            assert(s[0] == 92);
            assert(s[1] == 34);
            assert(esc_byte_of(34) == Some(34u8));
            assert(s.skip(2) =~= tail);
            assert(seq![34u8] + bs.drop_first() =~= bs);
            assert(sp_str_bytes(s) == Some((bs, esc_bytes(bs).len() + 1int)));
        } else if b == 92 {
            assert(s[0] == 92);
            assert(s[1] == 92);
            assert(esc_byte_of(92) == Some(92u8));
            assert(s.skip(2) =~= tail);
            assert(seq![92u8] + bs.drop_first() =~= bs);
            assert(sp_str_bytes(s) == Some((bs, esc_bytes(bs).len() + 1int)));
        } else if b < 32 {
            assert(s[0] == 92);
            assert(s[1] == 117);
            assert(s[2] == 48);
            assert(s[3] == 48);
            assert(s[4] == hex_digit(b as int / 16));
            assert(s[5] == hex_digit(b as int % 16));
            assert(is_hex(s[2]) && is_hex(s[3]));
            assert(hex_val(48) == 0);
            assert(b as int / 16 < 16);
            assert(is_hex(hex_digit(b as int / 16)) && hex_val(hex_digit(b as int / 16)) == b as int
                / 16);
            assert(is_hex(hex_digit(b as int % 16)) && hex_val(hex_digit(b as int % 16)) == b as int
                % 16);
            let code = hex_val(s[2]) * 4096 + hex_val(s[3]) * 256 + hex_val(s[4]) * 16 + hex_val(
                s[5],
            );
            assert(code == (b as int / 16) * 16 + (b as int % 16));
            vstd::arithmetic::div_mod::lemma_fundamental_div_mod(b as int, 16);
            assert(code == b as int);
            assert(code < 128);
            assert(s.skip(6) =~= tail);
            assert(seq![b] + bs.drop_first() =~= bs);
            assert(sp_str_bytes(s) == Some((bs, esc_bytes(bs).len() + 1int)));
        } else {
            assert(e =~= seq![b]);
            assert(s[0] == b);
            assert(32 <= b);
            assert(b != 34 && b != 92);
            assert(s.skip(1) =~= tail);
            assert(seq![b] + bs.drop_first() =~= bs);
            assert(sp_str_bytes(s) == Some((bs, esc_bytes(bs).len() + 1int)));
        }
    }
}



proof fn lemma_enc_items_head(l: Seq<JVal>)
    requires
        l.len() >= 1,
    ensures
        enc_items(l).len() >= 1,
        enc_items(l)[0] == json_enc(l[0])[0],
        !is_ws(enc_items(l)[0]),
        enc_items(l)[0] != 93,
{
    lemma_enc_head(l[0]);
    if l.len() == 1 {
    } else {
        assert(enc_items(l)[0] == (json_enc(l[0]) + seq![44u8] + enc_items(l.drop_first()))[0]);
    }
}

proof fn lemma_enc_members_head(m: Seq<(Seq<char>, JVal)>)
    requires
        m.len() >= 1,
    ensures
        enc_members(m).len() >= 1,
        enc_members(m)[0] == 34,
        !is_ws(enc_members(m)[0]),
        enc_members(m)[0] != 125,
{
    assert(enc_str(m[0].0)[0] == 34);
    if m.len() == 1 {
        assert(enc_members(m)[0] == (enc_str(m[0].0) + seq![58u8] + json_enc(m[0].1))[0]);
    } else {
        assert(enc_members(m)[0] == (enc_str(m[0].0) + seq![58u8] + json_enc(m[0].1) + seq![44u8]
            + enc_members(m.drop_first()))[0]);
    }
}

/// Parsing inverts encoding for one value, provided the following
/// byte cannot extend it and the depth budget covers its nesting.
#[verifier::rlimit(100)]
proof fn lemma_rt_value(x: JVal, rest: Seq<u8>, d: nat)
    requires
        jval_wf(x),
        jdepth(x) <= d + 1,
        rest.len() == 0 || !(is_digit(rest[0]) || rest[0] == 46 || rest[0] == 101 || rest[0]
            == 69),
    ensures
        sp_value(json_enc(x) + rest, d) == Some((x, json_enc(x).len() as int)),
    decreases x, 0int,
{
    let s = json_enc(x) + rest;
    match x {
        JVal::Null => {
            assert(s[0] == 110 && s[1] == 117 && s[2] == 108 && s[3] == 108);
            assert(sp_value(s, d) == Some((x, 4int)));
        },
        JVal::Bool(b) => {
            if b {
                assert(s[0] == 116 && s[1] == 114 && s[2] == 117 && s[3] == 101);
                assert(sp_value(s, d) == Some((x, 4int)));
            } else {
                assert(s[0] == 102 && s[1] == 97 && s[2] == 108 && s[3] == 115 && s[4] == 101);
                assert(sp_value(s, d) == Some((x, 5int)));
            }
        },
        JVal::Int(i) => {
            lemma_rt_int(i, rest);
            lemma_dec_digits(if i < 0 {
                (-i) as nat
            } else {
                i as nat
            });
            if i < 0 {
                assert(s[0] == 45);
            } else {
                assert(s[0] == dec_digits(i as nat)[0]);
                assert(is_digit(s[0]));
                assert(s[0] != 110 && s[0] != 116 && s[0] != 102 && s[0] != 34);
            }
            assert(sp_value(s, d) == Some((x, json_enc(x).len() as int)));
        },
        JVal::Str(cs) => {
            assert(s[0] == 34);
            let bs = encode_utf8(cs);
            assert(s.skip(1) =~= esc_bytes(bs) + seq![34u8] + rest);
            lemma_rt_str(bs, rest);
            encode_utf8_valid_utf8(cs);
            encode_utf8_decode_utf8(cs);
            assert(sp_value(s, d) == Some((x, json_enc(x).len() as int)));
        },
        JVal::Arr(l) => {
            lemma_rt_value_arr(l, rest, d);
        },
        JVal::Obj(m) => {
            lemma_rt_value_obj(m, rest, d);
        },
    }
}

#[verifier::rlimit(100)]
proof fn lemma_rt_value_arr(l: Seq<JVal>, rest: Seq<u8>, d: nat)
    requires
        jval_wf(JVal::Arr(l)),
        jdepth(JVal::Arr(l)) <= d + 1,
        rest.len() == 0 || !(is_digit(rest[0]) || rest[0] == 46 || rest[0] == 101 || rest[0]
            == 69),
    ensures
        sp_value(json_enc(JVal::Arr(l)) + rest, d) == Some(
            (JVal::Arr(l), json_enc(JVal::Arr(l)).len() as int),
        ),
    decreases l, 2int,
{
    let x = JVal::Arr(l);
    let s = json_enc(x) + rest;
    assert(s[0] == 91);
    if l.len() == 0 {
        assert(s[1] == 93);
        assert(s.skip(1) =~= seq![93u8] + rest);
        assert(ws_len(s.skip(1)) == 0);
        assert(l =~= Seq::<JVal>::empty());
        assert(sp_value(s, d) == Some((x, 2int)));
    } else {
        assert(jdepth_items(l) >= jdepth(l[0]) >= 1) by {
            lemma_jval_wf_items_index(l, 0);
        }
        assert(d >= 1);
        let inner = enc_items(l) + seq![93u8] + rest;
        assert(s.skip(1) =~= inner);
        lemma_enc_items_head(l);
        assert(inner[0] == enc_items(l)[0]);
        assert(ws_len(s.skip(1)) == 0);
        lemma_rt_items(l, rest, (d - 1) as nat);
        assert(sp_elems(inner, (d - 1) as nat) == Some((l, enc_items(l).len() + 1int)));
        assert(sp_value(s, d) == Some((x, json_enc(x).len() as int)));
    }
}

#[verifier::rlimit(100)]
proof fn lemma_rt_value_obj(m: Seq<(Seq<char>, JVal)>, rest: Seq<u8>, d: nat)
    requires
        jval_wf(JVal::Obj(m)),
        jdepth(JVal::Obj(m)) <= d + 1,
        rest.len() == 0 || !(is_digit(rest[0]) || rest[0] == 46 || rest[0] == 101 || rest[0]
            == 69),
    ensures
        sp_value(json_enc(JVal::Obj(m)) + rest, d) == Some(
            (JVal::Obj(m), json_enc(JVal::Obj(m)).len() as int),
        ),
    decreases m, 2int,
{
    let x = JVal::Obj(m);
    let s = json_enc(x) + rest;
    assert(s[0] == 123);
    if m.len() == 0 {
        assert(s[1] == 125);
        assert(s.skip(1) =~= seq![125u8] + rest);
        assert(ws_len(s.skip(1)) == 0);
        assert(m =~= Seq::<(Seq<char>, JVal)>::empty());
        assert(sp_value(s, d) == Some((x, 2int)));
    } else {
        assert(jdepth_members(m) >= jdepth(m[0].1) >= 1) by {
            lemma_jval_wf_members_index(m, 0);
        }
        assert(d >= 1);
        let inner = enc_members(m) + seq![125u8] + rest;
        assert(s.skip(1) =~= inner);
        lemma_enc_members_head(m);
        assert(inner[0] == 34);
        assert(ws_len(s.skip(1)) == 0);
        lemma_rt_members(m, rest, (d - 1) as nat);
        assert(sp_members(inner, (d - 1) as nat) == Some((m, enc_members(m).len() + 1int)));
        assert(sp_value(s, d) == Some((x, json_enc(x).len() as int)));
    }
}

/// One encoded element at the head of an array body: what
/// [`sp_elems`] yields, for either continuation byte.
#[verifier::rlimit(100)]
proof fn lemma_rt_elems_step(v0: JVal, cont: Seq<u8>, d: nat)
    requires
        jval_wf(v0),
        jdepth(v0) <= d + 1,
        cont.len() >= 1,
        cont[0] == 93 || cont[0] == 44,
        cont[0] == 44 ==> ws_len(cont.skip(1)) == 0,
    ensures
        ({
            let s = json_enc(v0) + cont;
            let n = json_enc(v0).len() as int;
            sp_elems(s, d) == if cont[0] == 93 {
                Some((seq![v0], n + 1))
            } else {
                match sp_elems(cont.skip(1), d) {
                    Some(t) => Some((seq![v0] + t.0, n + 1 + t.1)),
                    None => None::<(Seq<JVal>, int)>,
                }
            }
        }),
    decreases v0, 3int,
{
    let s = json_enc(v0) + cont;
    let n = json_enc(v0).len() as int;
    lemma_enc_head(v0);
    lemma_rt_value(v0, cont, d);
    assert(sp_value(s, d) == Some((v0, n)));
    assert(s.skip(n) =~= cont);
    assert(ws_len(cont) == 0);
    if cont[0] == 93 {
        assert(sp_elems(s, d) == Some((seq![v0], n + 1)));
    } else {
        assert(s.skip(n + 1) =~= cont.skip(1));
        assert(ws_len(s.skip(n + 1)) == 0);
        assert(sp_elems(s, d) == (match sp_elems(cont.skip(1), d) {
            Some(t) => Some((seq![v0] + t.0, n + 1 + t.1)),
            None => None::<(Seq<JVal>, int)>,
        }));
    }
}

/// Parsing inverts encoding for a non-empty element list followed by
/// its closing bracket.
#[verifier::rlimit(100)]
proof fn lemma_rt_items(l: Seq<JVal>, rest: Seq<u8>, d: nat)
    requires
        l.len() >= 1,
        jval_wf_items(l),
        jdepth_items(l) <= d + 1,
        rest.len() == 0 || !(is_digit(rest[0]) || rest[0] == 46 || rest[0] == 101 || rest[0]
            == 69),
    ensures
        sp_elems(enc_items(l) + seq![93u8] + rest, d) == Some((l, enc_items(l).len() + 1int)),
    decreases l, 1int,
{
    let s = enc_items(l) + seq![93u8] + rest;
    let e0 = json_enc(l[0]);
    lemma_jval_wf_items_index(l, 0);
    if l.len() == 1 {
        let cont = seq![93u8] + rest;
        assert(s =~= e0 + cont);
        lemma_rt_elems_step(l[0], cont, d);
        assert(seq![l[0]] =~= l);
    } else {
        let dr = l.drop_first();
        let after = enc_items(dr) + seq![93u8] + rest;
        let cont = seq![44u8] + after;
        assert(cont.skip(1) =~= after);
        lemma_jval_wf_items_index(dr, 0);
        lemma_enc_items_head(dr);
        assert(after[0] == enc_items(dr)[0]);
        assert(ws_len(cont.skip(1)) == 0);
        assert(s =~= e0 + cont);
        lemma_rt_items(dr, rest, d);
        lemma_rt_elems_step(l[0], cont, d);
        assert(sp_elems(after, d) == Some((dr, enc_items(dr).len() + 1int)));
        assert(seq![l[0]] + dr =~= l);
        assert(sp_elems(s, d) == Some((l, e0.len() + 1 + enc_items(dr).len() + 1int)));
        assert(enc_items(l).len() == e0.len() + 1 + enc_items(dr).len());
    }
}

/// Facts about parsing one encoded object member at the head of the
/// input: its key string, colon, and value, with no whitespace runs.
#[verifier::rlimit(100)]
proof fn lemma_rt_member_head(k: Seq<char>, v: JVal, tail2: Seq<u8>, d: nat)
    requires
        jval_wf(v),
        jdepth(v) <= d + 1,
        tail2.len() >= 1,
        tail2[0] == 125 || tail2[0] == 44,
    ensures
        ({
            let s = enc_str(k) + seq![58u8] + json_enc(v) + tail2;
            let kn = esc_bytes(encode_utf8(k)).len() + 1int;
            let p4 = 1 + kn + 1 + json_enc(v).len() as int;
            s[0] == 34 && sp_str_bytes(s.skip(1)) == Some((encode_utf8(k), kn)) && valid_utf8(
                encode_utf8(k),
            ) && decode_utf8(encode_utf8(k)) == k && ws_len(s.skip(1 + kn)) == 0 && s[1 + kn]
                == 58 && ws_len(s.skip(1 + kn + 1)) == 0 && sp_value(s.skip(1 + kn + 1), d)
                == Some((v, json_enc(v).len() as int)) && s.len() == p4 + tail2.len() && s.skip(
                p4,
            ) == tail2 && ws_len(s.skip(p4)) == 0 && s[p4] == tail2[0] && json_enc(v).len() >= 1
                && 1 <= kn
        }),
    decreases v, 3int,
{
    let s = enc_str(k) + seq![58u8] + json_enc(v) + tail2;
    let ek = enc_str(k);
    let ev = json_enc(v);
    lemma_enc_head(v);
    assert(s[0] == 34);
    let strtail = seq![58u8] + ev + tail2;
    assert(s.skip(1) =~= esc_bytes(encode_utf8(k)) + seq![34u8] + strtail);
    lemma_rt_str(encode_utf8(k), strtail);
    encode_utf8_valid_utf8(k);
    encode_utf8_decode_utf8(k);
    let kn = esc_bytes(encode_utf8(k)).len() + 1int;
    assert(ek.len() == kn + 1);
    assert(s.skip(1 + kn) =~= strtail);
    assert(ws_len(s.skip(1 + kn)) == 0);
    assert(s[1 + kn] == 58);
    assert(s.skip(1 + kn + 1) =~= ev + tail2);
    assert((ev + tail2)[0] == ev[0]);
    assert(ws_len(s.skip(1 + kn + 1)) == 0);
    lemma_rt_value(v, tail2, d);
    let p4 = 1 + kn + 1 + ev.len() as int;
    assert(s.skip(p4) =~= tail2);
}

/// One encoded member at the head of an object body: what
/// [`sp_members`] yields, for either continuation byte.
#[verifier::rlimit(100)]
proof fn lemma_rt_members_step(k: Seq<char>, v: JVal, cont: Seq<u8>, d: nat)
    requires
        encode_utf8(k).len() <= MAX_LEN,
        jval_wf(v),
        jdepth(v) <= d + 1,
        cont.len() >= 1,
        cont[0] == 125 || cont[0] == 44,
        cont[0] == 44 ==> ws_len(cont.skip(1)) == 0,
    ensures
        ({
            let s = enc_str(k) + seq![58u8] + json_enc(v) + cont;
            let p4 = enc_str(k).len() + 1 + json_enc(v).len() as int;
            sp_members(s, d) == if cont[0] == 125 {
                Some((seq![(k, v)], p4 + 1))
            } else {
                match sp_members(cont.skip(1), d) {
                    Some(t) => Some((seq![(k, v)] + t.0, p4 + 1 + t.1)),
                    None => None::<(Seq<(Seq<char>, JVal)>, int)>,
                }
            }
        }),
    decreases v, 4int,
{
    let s = enc_str(k) + seq![58u8] + json_enc(v) + cont;
    let ev = json_enc(v);
    let kn = esc_bytes(encode_utf8(k)).len() + 1int;
    let p4 = 1 + kn + 1 + ev.len() as int;
    lemma_rt_member_head(k, v, cont, d);
    assert(enc_str(k).len() == kn + 1);
    if cont[0] == 125 {
        assert(sp_members(s, d) == Some((seq![(k, v)], p4 + 1)));
    } else {
        assert(s.skip(p4 + 1) =~= cont.skip(1));
        assert(ws_len(s.skip(p4 + 1)) == 0);
        assert(sp_members(s, d) == (match sp_members(cont.skip(1), d) {
            Some(t) => Some((seq![(k, v)] + t.0, p4 + 1 + t.1)),
            None => None::<(Seq<(Seq<char>, JVal)>, int)>,
        }));
    }
}

/// Parsing inverts encoding for a non-empty member list followed by
/// its closing brace.
#[verifier::rlimit(100)]
proof fn lemma_rt_members(m: Seq<(Seq<char>, JVal)>, rest: Seq<u8>, d: nat)
    requires
        m.len() >= 1,
        jval_wf_members(m),
        jdepth_members(m) <= d + 1,
        rest.len() == 0 || !(is_digit(rest[0]) || rest[0] == 46 || rest[0] == 101 || rest[0]
            == 69),
    ensures
        sp_members(enc_members(m) + seq![125u8] + rest, d) == Some(
            (m, enc_members(m).len() + 1int),
        ),
    decreases m, 1int,
{
    let s = enc_members(m) + seq![125u8] + rest;
    let k = m[0].0;
    let v = m[0].1;
    let ek = enc_str(k);
    let ev = json_enc(v);
    lemma_jval_wf_members_index(m, 0);
    let p4 = ek.len() + 1 + ev.len() as int;
    if m.len() == 1 {
        let cont = seq![125u8] + rest;
        assert(s =~= ek + seq![58u8] + ev + cont);
        lemma_rt_members_step(k, v, cont, d);
        assert(seq![(k, v)] =~= m);
        assert(enc_members(m).len() == p4);
    } else {
        let dr = m.drop_first();
        let after = enc_members(dr) + seq![125u8] + rest;
        let cont = seq![44u8] + after;
        assert(cont.skip(1) =~= after);
        lemma_enc_members_head(dr);
        assert(after[0] == 34);
        assert(ws_len(cont.skip(1)) == 0);
        assert(s =~= ek + seq![58u8] + ev + cont);
        lemma_rt_members(dr, rest, d);
        lemma_rt_members_step(k, v, cont, d);
        assert(sp_members(after, d) == Some((dr, enc_members(dr).len() + 1int)));
        assert(seq![(k, v)] + dr =~= m);
        assert(sp_members(s, d) == Some((m, p4 + 1 + enc_members(dr).len() + 1int)));
        assert(enc_members(m).len() == p4 + 1 + enc_members(dr).len());
    }
}

/// Parsing inverts encoding: the round trip through JSON text
/// returns the value unchanged.
pub proof fn lemma_json_round_trip(x: JVal)
    requires
        jval_wf(x),
        jdepth(x) <= MAX_DEPTH,
    ensures
        json_dec(json_enc(x)) == Some(x),
{
    let b = json_enc(x);
    lemma_enc_head(x);
    assert(ws_len(b) == 0);
    assert(b.skip(0) =~= b);
    assert(b =~= json_enc(x) + Seq::<u8>::empty());
    lemma_rt_value(x, Seq::empty(), (MAX_DEPTH - 1) as nat);
    assert(sp_value(b.skip(0), (MAX_DEPTH - 1) as nat) == Some((x, b.len() as int)));
    assert(b.skip(b.len() as int).len() == 0);
    assert(ws_len(b.skip(b.len() as int)) == 0);
}

} // verus!
