//! Base64 (standard alphabet, `=`-padded, canonical) over byte sequences.
//!
//! `b64_encode` is the mathematical encoder; `encode` computes it. `decode`
//! accepts exactly the canonical encodings (`b64_valid`) and inverts
//! `b64_encode`, which `lemma_decode_encode` states.

use vstd::prelude::*;
use vstd::arithmetic::div_mod::{
    lemma_fundamental_div_mod,
    lemma_fundamental_div_mod_converse,
    lemma_mod_pos_bound,
};

verus! {

/// The alphabet character for a 6-bit value.
pub open spec fn b64_code(v: int) -> u8
    recommends
        0 <= v < 64,
{
    if v < 26 {
        (65 + v) as u8  // 'A'..='Z'
    } else if v < 52 {
        (71 + v) as u8  // 'a'..='z'
    } else if v < 62 {
        (v - 4) as u8  // '0'..='9'
    } else if v == 62 {
        43u8  // '+'
    } else {
        47u8  // '/'
    }
}

/// Whether `c` is an alphabet character (never the pad `=`).
pub open spec fn is_b64_code(c: u8) -> bool {
    (65 <= c && c <= 90) || (97 <= c && c <= 122) || (48 <= c && c <= 57) || c == 43 || c == 47
}

/// The 6-bit value of an alphabet character.
pub open spec fn b64_val(c: u8) -> int
    recommends
        is_b64_code(c),
{
    if 65 <= c && c <= 90 {
        c - 65
    } else if 97 <= c && c <= 122 {
        c - 71
    } else if 48 <= c && c <= 57 {
        c + 4
    } else if c == 43 {
        62
    } else {
        63
    }
}

/// Alphabet characters are distinct from the pad and invert to their value.
pub proof fn lemma_code_val(v: int)
    requires
        0 <= v < 64,
    ensures
        is_b64_code(b64_code(v)),
        b64_val(b64_code(v)) == v,
        b64_code(v) != 61,
{
}

/// The four alphabet characters of one full three-byte group.
pub open spec fn enc3(b0: u8, b1: u8, b2: u8) -> Seq<u8> {
    seq![
        b64_code(b0 as int / 4),
        b64_code((b0 as int % 4) * 16 + b1 as int / 16),
        b64_code((b1 as int % 16) * 4 + b2 as int / 64),
        b64_code(b2 as int % 64),
    ]
}

/// The canonical base64 encoding of `s`.
pub open spec fn b64_encode(s: Seq<u8>) -> Seq<u8>
    decreases s.len(),
{
    if s.len() == 0 {
        Seq::<u8>::empty()
    } else if s.len() == 1 {
        seq![
            b64_code(s[0] as int / 4),
            b64_code((s[0] as int % 4) * 16),
            61u8,
            61u8,
        ]
    } else if s.len() == 2 {
        seq![
            b64_code(s[0] as int / 4),
            b64_code((s[0] as int % 4) * 16 + s[1] as int / 16),
            b64_code((s[1] as int % 16) * 4),
            61u8,
        ]
    } else {
        enc3(s[0], s[1], s[2]) + b64_encode(s.skip(3))
    }
}

/// Whether a final four-character group is canonically padded.
pub open spec fn valid_last_group(g: Seq<u8>) -> bool
    recommends
        g.len() == 4,
{
    is_b64_code(g[0]) && is_b64_code(g[1]) && ((is_b64_code(g[2]) && is_b64_code(g[3])) || (g[2]
        == 61 && g[3] == 61 && b64_val(g[1]) % 16 == 0) || (is_b64_code(g[2]) && g[3] == 61
        && b64_val(g[2]) % 4 == 0))
}

/// Whether `s` is a canonical base64 text.
pub open spec fn b64_valid(s: Seq<u8>) -> bool
    decreases s.len(),
{
    if s.len() == 0 {
        true
    } else if s.len() == 4 {
        valid_last_group(s)
    } else if s.len() > 4 {
        is_b64_code(s[0]) && is_b64_code(s[1]) && is_b64_code(s[2]) && is_b64_code(s[3])
            && b64_valid(s.skip(4))
    } else {
        false
    }
}

/// The three bytes of one full four-character group.
pub open spec fn dec3(g: Seq<u8>) -> Seq<u8>
    recommends
        g.len() == 4,
{
    seq![
        (b64_val(g[0]) * 4 + b64_val(g[1]) / 16) as u8,
        ((b64_val(g[1]) % 16) * 16 + b64_val(g[2]) / 4) as u8,
        ((b64_val(g[2]) % 4) * 64 + b64_val(g[3])) as u8,
    ]
}

/// The bytes encoded by a canonical base64 text.
pub open spec fn b64_decode(s: Seq<u8>) -> Seq<u8>
    decreases s.len(),
{
    if s.len() == 4 {
        if s[2] == 61 {
            seq![(b64_val(s[0]) * 4 + b64_val(s[1]) / 16) as u8]
        } else if s[3] == 61 {
            seq![
                (b64_val(s[0]) * 4 + b64_val(s[1]) / 16) as u8,
                ((b64_val(s[1]) % 16) * 16 + b64_val(s[2]) / 4) as u8,
            ]
        } else {
            dec3(s)
        }
    } else if s.len() > 4 {
        dec3(s.take(4)) + b64_decode(s.skip(4))
    } else {
        Seq::<u8>::empty()
    }
}

/// A canonical base64 text has a multiple of four characters.
pub proof fn lemma_valid_len(s: Seq<u8>)
    requires
        b64_valid(s),
    ensures
        s.len() % 4 == 0,
    decreases s.len(),
{
    if s.len() > 4 {
        lemma_valid_len(s.skip(4));
    }
}

/// A non-empty sequence encodes to at least one full group.
pub proof fn lemma_encode_len(s: Seq<u8>)
    ensures
        s.len() > 0 ==> b64_encode(s).len() >= 4,
        s.len() == 0 ==> b64_encode(s).len() == 0,
{
}

/// For `0 <= b < c`: the digit decomposition `a*c + b` has quotient `a`
/// and remainder `b`.
proof fn lemma_place(a: int, b: int, c: int)
    requires
        c > 0,
        0 <= b < c,
    ensures
        (a * c + b) / c == a,
        (a * c + b) % c == b,
{
    lemma_fundamental_div_mod_converse(a * c + b, c, a, b);
}

/// One full group round-trips: its four characters are alphabet characters
/// and decode back to the three bytes.
proof fn lemma_group_round(b0: u8, b1: u8, b2: u8)
    ensures
        is_b64_code(enc3(b0, b1, b2)[0]),
        is_b64_code(enc3(b0, b1, b2)[1]),
        is_b64_code(enc3(b0, b1, b2)[2]),
        is_b64_code(enc3(b0, b1, b2)[3]),
        dec3(enc3(b0, b1, b2)) == seq![b0, b1, b2],
{
    let x0 = b0 as int;
    let x1 = b1 as int;
    let x2 = b2 as int;
    lemma_fundamental_div_mod(x0, 4);
    lemma_mod_pos_bound(x0, 4);
    lemma_fundamental_div_mod(x1, 16);
    lemma_mod_pos_bound(x1, 16);
    lemma_fundamental_div_mod(x2, 64);
    lemma_mod_pos_bound(x2, 64);
    lemma_code_val(x0 / 4);
    lemma_code_val((x0 % 4) * 16 + x1 / 16);
    lemma_code_val((x1 % 16) * 4 + x2 / 64);
    lemma_code_val(x2 % 64);
    lemma_place(x0 % 4, x1 / 16, 16);
    lemma_place(x1 % 16, x2 / 64, 4);
    assert(dec3(enc3(b0, b1, b2)) =~= seq![b0, b1, b2]);
}

/// Decoding inverts encoding: every encoder output is canonical, and
/// decodes back to the original bytes.
pub proof fn lemma_decode_encode(x: Seq<u8>)
    ensures
        b64_valid(b64_encode(x)),
        b64_decode(b64_encode(x)) == x,
    decreases x.len(),
{
    let e = b64_encode(x);
    if x.len() == 0 {
        assert(b64_decode(e) =~= x);
    } else if x.len() == 1 {
        let x0 = x[0] as int;
        lemma_fundamental_div_mod(x0, 4);
        lemma_mod_pos_bound(x0, 4);
        lemma_code_val(x0 / 4);
        lemma_code_val((x0 % 4) * 16);
        lemma_place(x0 % 4, 0, 16);
        assert(b64_decode(e) =~= x);
    } else if x.len() == 2 {
        let x0 = x[0] as int;
        let x1 = x[1] as int;
        lemma_fundamental_div_mod(x0, 4);
        lemma_mod_pos_bound(x0, 4);
        lemma_fundamental_div_mod(x1, 16);
        lemma_mod_pos_bound(x1, 16);
        lemma_code_val(x0 / 4);
        lemma_code_val((x0 % 4) * 16 + x1 / 16);
        lemma_code_val((x1 % 16) * 4);
        lemma_place(x0 % 4, x1 / 16, 16);
        lemma_place(x1 % 16, 0, 4);
        assert(b64_decode(e) =~= x);
    } else if x.len() == 3 {
        lemma_group_round(x[0], x[1], x[2]);
        assert(x.skip(3) =~= Seq::<u8>::empty());
        lemma_encode_len(x.skip(3));
        assert(b64_encode(x.skip(3)) =~= Seq::<u8>::empty());
        assert(e =~= enc3(x[0], x[1], x[2]));
        assert(b64_decode(e) =~= x);
    } else {
        lemma_group_round(x[0], x[1], x[2]);
        lemma_decode_encode(x.skip(3));
        lemma_encode_len(x.skip(3));
        let rest = b64_encode(x.skip(3));
        assert(e == enc3(x[0], x[1], x[2]) + rest);
        assert(e.len() > 4);
        assert(e.skip(4) =~= rest);
        assert(e.take(4) =~= enc3(x[0], x[1], x[2]));
        assert(b64_decode(e) == dec3(e.take(4)) + b64_decode(e.skip(4)));
        assert(b64_decode(e) =~= x);
    }
}

/// A character that can appear in an encoding: an alphabet character or
/// the pad `=`.
pub open spec fn is_text_char(c: u8) -> bool {
    is_b64_code(c) || c == 61
}

/// Every character of an encoding is an alphabet character or the pad.
pub proof fn lemma_encode_chars(x: Seq<u8>)
    ensures
        forall|i: int|
            0 <= i < b64_encode(x).len() ==> is_text_char(#[trigger] b64_encode(x)[i]),
    decreases x.len(),
{
    let e = b64_encode(x);
    if x.len() == 0 {
    } else if x.len() == 1 {
        let x0 = x[0] as int;
        lemma_fundamental_div_mod(x0, 4);
        lemma_mod_pos_bound(x0, 4);
        lemma_code_val(x0 / 4);
        lemma_code_val((x0 % 4) * 16);
        assert forall|i: int| 0 <= i < e.len() implies is_text_char(#[trigger] e[i]) by {
            assert(i == 0 || i == 1 || i == 2 || i == 3);
        }
    } else if x.len() == 2 {
        let x0 = x[0] as int;
        let x1 = x[1] as int;
        lemma_fundamental_div_mod(x0, 4);
        lemma_mod_pos_bound(x0, 4);
        lemma_fundamental_div_mod(x1, 16);
        lemma_mod_pos_bound(x1, 16);
        lemma_code_val(x0 / 4);
        lemma_code_val((x0 % 4) * 16 + x1 / 16);
        lemma_code_val((x1 % 16) * 4);
        assert forall|i: int| 0 <= i < e.len() implies is_text_char(#[trigger] e[i]) by {
            assert(i == 0 || i == 1 || i == 2 || i == 3);
        }
    } else {
        lemma_group_round(x[0], x[1], x[2]);
        lemma_encode_chars(x.skip(3));
        let g = enc3(x[0], x[1], x[2]);
        let rest = b64_encode(x.skip(3));
        assert(e == g + rest);
        assert forall|i: int| 0 <= i < e.len() implies is_text_char(#[trigger] e[i]) by {
            if i < 4 {
                assert(i == 0 || i == 1 || i == 2 || i == 3);
                assert(e[i] == g[i]);
            } else {
                assert(e[i] == rest[i - 4]);
            }
        }
    }
}

/// The alphabet character for `v`.
fn enc_code(v: u8) -> (c: u8)
    requires
        v < 64,
    ensures
        c == b64_code(v as int),
{
    if v < 26 {
        65 + v
    } else if v < 52 {
        71 + v
    } else if v < 62 {
        v - 4
    } else if v == 62 {
        43
    } else {
        47
    }
}

/// Whether `c` is an alphabet character.
fn is_code(c: u8) -> (r: bool)
    ensures
        r == is_b64_code(c),
{
    (65 <= c && c <= 90) || (97 <= c && c <= 122) || (48 <= c && c <= 57) || c == 43 || c == 47
}

/// The 6-bit value of an alphabet character.
fn dec_val(c: u8) -> (v: u8)
    requires
        is_b64_code(c),
    ensures
        v as int == b64_val(c),
        v < 64,
{
    if 65 <= c && c <= 90 {
        c - 65
    } else if 97 <= c && c <= 122 {
        c - 71
    } else if 48 <= c && c <= 57 {
        c + 4
    } else if c == 43 {
        62
    } else {
        63
    }
}

/// The canonical base64 text for `data`.
pub fn encode(data: &[u8]) -> (r: Vec<u8>)
    ensures
        r@ == b64_encode(data@),
{
    let n = data.len();
    let mut out: Vec<u8> = Vec::new();
    let mut i: usize = 0;
    proof {
        assert(data@.skip(0) =~= data@);
        assert(out@ + b64_encode(data@) =~= b64_encode(data@));
    }
    while n - i >= 3
        invariant
            0 <= i as int <= n as int,
            n as int == data@.len(),
            b64_encode(data@) == out@ + b64_encode(data@.skip(i as int)),
        decreases n - i,
    {
        let b0 = data[i];
        let b1 = data[i + 1];
        let b2 = data[i + 2];
        let ghost old_out = out@;
        out.push(enc_code(b0 / 4));
        out.push(enc_code((b0 % 4) * 16 + b1 / 16));
        out.push(enc_code((b1 % 16) * 4 + b2 / 64));
        out.push(enc_code(b2 % 64));
        proof {
            let s = data@.skip(i as int);
            assert(s.len() >= 3);
            assert(s[0] == data@[i as int] && s[1] == data@[i as int + 1] && s[2] == data@[i as int
                + 2]);
            assert(b64_encode(s) == enc3(s[0], s[1], s[2]) + b64_encode(s.skip(3)));
            assert(s.skip(3) =~= data@.skip(i as int + 3));
            assert(out@ =~= old_out + enc3(s[0], s[1], s[2]));
            assert(old_out + (enc3(s[0], s[1], s[2]) + b64_encode(data@.skip(i as int + 3))) =~= (
            old_out + enc3(s[0], s[1], s[2])) + b64_encode(data@.skip(i as int + 3)));
        }
        i = i + 3;
    }
    let ghost tail = data@.skip(i as int);
    if n - i == 1 {
        let b0 = data[i];
        let ghost old_out = out@;
        out.push(enc_code(b0 / 4));
        out.push(enc_code((b0 % 4) * 16));
        out.push(61);
        out.push(61);
        proof {
            assert(tail.len() == 1 && tail[0] == data@[i as int]);
            assert(out@ =~= old_out + b64_encode(tail));
            assert(out@ =~= b64_encode(data@));
        }
    } else if n - i == 2 {
        let b0 = data[i];
        let b1 = data[i + 1];
        let ghost old_out = out@;
        out.push(enc_code(b0 / 4));
        out.push(enc_code((b0 % 4) * 16 + b1 / 16));
        out.push(enc_code((b1 % 16) * 4));
        out.push(61);
        proof {
            assert(tail.len() == 2 && tail[0] == data@[i as int] && tail[1] == data@[i as int
                + 1]);
            assert(out@ =~= old_out + b64_encode(tail));
            assert(out@ =~= b64_encode(data@));
        }
    } else {
        proof {
            assert(tail.len() == 0);
            assert(out@ + b64_encode(tail) =~= out@);
        }
    }
    out
}

/// The bytes of a canonical base64 text, or `None` if `data` is not one.
pub fn decode(data: &[u8]) -> (r: Option<Vec<u8>>)
    ensures
        match r {
            Some(out) => b64_valid(data@) && out@ == b64_decode(data@),
            None => !b64_valid(data@),
        },
{
    let n = data.len();
    if n % 4 != 0 {
        proof {
            if b64_valid(data@) {
                lemma_valid_len(data@);
            }
        }
        return None;
    }
    if n == 0 {
        let out: Vec<u8> = Vec::new();
        proof {
            assert(out@ =~= b64_decode(data@));
        }
        return Some(out);
    }
    let mut out: Vec<u8> = Vec::new();
    let mut i: usize = 0;
    proof {
        assert(data@.skip(0) =~= data@);
        assert(out@ + b64_decode(data@) =~= b64_decode(data@));
    }
    while n - i > 4
        invariant
            0 <= i as int <= n as int,
            n as int == data@.len(),
            n % 4 == 0,
            i % 4 == 0,
            n as int - i as int >= 4,
            b64_valid(data@) <==> b64_valid(data@.skip(i as int)),
            b64_decode(data@) == out@ + b64_decode(data@.skip(i as int)),
        decreases n - i,
    {
        let ghost s = data@.skip(i as int);
        proof {
            assert(s.len() > 4);
            assert(s[0] == data@[i as int] && s[1] == data@[i as int + 1] && s[2] == data@[i as int
                + 2] && s[3] == data@[i as int + 3]);
        }
        let c0 = data[i];
        let c1 = data[i + 1];
        let c2 = data[i + 2];
        let c3 = data[i + 3];
        if !(is_code(c0) && is_code(c1) && is_code(c2) && is_code(c3)) {
            return None;
        }
        let v0 = dec_val(c0);
        let v1 = dec_val(c1);
        let v2 = dec_val(c2);
        let v3 = dec_val(c3);
        let ghost old_out = out@;
        out.push(v0 * 4 + v1 / 16);
        out.push((v1 % 16) * 16 + v2 / 4);
        out.push((v2 % 4) * 64 + v3);
        proof {
            assert(s.take(4) =~= seq![c0, c1, c2, c3]);
            assert(s.skip(4) =~= data@.skip(i as int + 4));
            assert(b64_decode(s) == dec3(s.take(4)) + b64_decode(s.skip(4)));
            assert(out@ =~= old_out + dec3(s.take(4)));
            assert(old_out + (dec3(s.take(4)) + b64_decode(data@.skip(i as int + 4))) =~= (old_out
                + dec3(s.take(4))) + b64_decode(data@.skip(i as int + 4)));
        }
        i = i + 4;
    }
    // exactly one group remains
    let ghost s = data@.skip(i as int);
    proof {
        assert(s.len() == 4);
        assert(s[0] == data@[i as int] && s[1] == data@[i as int + 1] && s[2] == data@[i as int + 2]
            && s[3] == data@[i as int + 3]);
        assert(b64_valid(s) == valid_last_group(s));
    }
    let c0 = data[i];
    let c1 = data[i + 1];
    let c2 = data[i + 2];
    let c3 = data[i + 3];
    if !(is_code(c0) && is_code(c1)) {
        return None;
    }
    let v0 = dec_val(c0);
    let v1 = dec_val(c1);
    let ghost old_out = out@;
    if c2 == 61 {
        if c3 != 61 {
            return None;
        }
        if v1 % 16 != 0 {
            return None;
        }
        out.push(v0 * 4 + v1 / 16);
        proof {
            assert(out@ =~= old_out + b64_decode(s));
            assert(out@ =~= b64_decode(data@));
        }
        Some(out)
    } else if c3 == 61 {
        if !is_code(c2) {
            return None;
        }
        let v2 = dec_val(c2);
        if v2 % 4 != 0 {
            return None;
        }
        out.push(v0 * 4 + v1 / 16);
        out.push((v1 % 16) * 16 + v2 / 4);
        proof {
            assert(out@ =~= old_out + b64_decode(s));
            assert(out@ =~= b64_decode(data@));
        }
        Some(out)
    } else {
        if !(is_code(c2) && is_code(c3)) {
            return None;
        }
        let v2 = dec_val(c2);
        let v3 = dec_val(c3);
        out.push(v0 * 4 + v1 / 16);
        out.push((v1 % 16) * 16 + v2 / 4);
        out.push((v2 % 4) * 64 + v3);
        proof {
            assert(s.take(4) =~= s);
            assert(out@ =~= old_out + b64_decode(s));
            assert(out@ =~= b64_decode(data@));
        }
        Some(out)
    }
}

} // verus!
