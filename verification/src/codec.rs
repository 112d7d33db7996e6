//! Byte codec for proposal records.
//!
//! Each record is serialized into a self-describing byte string:
//! a one-byte activity flag, the three counters as offset-mapped 32-bit
//! little-endian words, then the owner, the description and the voter
//! list, each length-prefixed. Decoding rejects malformed bytes instead
//! of guessing; [`lemma_decode_encode`] and [`lemma_encode_decode`]
//! prove that encoding and decoding are mutually inverse.

use vstd::prelude::*;
use crate::proposal::{Proposal, ProposalView};
use crate::principal::{Principal, MAX_PRINCIPAL_BYTES};

verus! {

/// The store's fixed cap on a serialized record, in bytes.
pub const MAX_RECORD_BYTES: usize = 5000;

// ---------------------------------------------------------------------
// 32-bit words
// ---------------------------------------------------------------------

/// A `u32` as four little-endian bytes.
pub open spec fn enc_u32(x: u32) -> Seq<u8> {
    seq![
        (x % 256) as u8,
        ((x / 256) % 256) as u8,
        ((x / 65536) % 256) as u8,
        ((x / 16777216) % 256) as u8,
    ]
}

/// The `u32` held by the four bytes at `pos`.
pub open spec fn dec_u32_at(b: Seq<u8>, pos: int) -> u32 {
    (b[pos] + b[pos + 1] * 256 + b[pos + 2] * 65536 + b[pos + 3] * 16777216) as u32
}

/// The word written by `enc_u32` reads back as itself.
pub proof fn lemma_u32_round(b: Seq<u8>, pos: int, x: u32)
    requires
        0 <= pos,
        pos + 4 <= b.len(),
        b.subrange(pos, pos + 4) == enc_u32(x),
    ensures
        dec_u32_at(b, pos) == x,
{
    let e = enc_u32(x);
    assert(b[pos] == e[0] && b[pos + 1] == e[1] && b[pos + 2] == e[2] && b[pos + 3] == e[3]);
    let y0 = b[pos] as u32;
    let y1 = b[pos + 1] as u32;
    let y2 = b[pos + 2] as u32;
    let y3 = b[pos + 3] as u32;
    assert(y0 + y1 * 256 + y2 * 65536 + y3 * 16777216 == x) by (bit_vector)
        requires
            y0 == x % 256,
            y1 == (x / 256) % 256,
            y2 == (x / 65536) % 256,
            y3 == (x / 16777216) % 256,
    ;
}

/// Any four bytes are the encoding of the word they decode to.
pub proof fn lemma_u32_unround(b: Seq<u8>, pos: int)
    requires
        0 <= pos,
        pos + 4 <= b.len(),
    ensures
        enc_u32(dec_u32_at(b, pos)) == b.subrange(pos, pos + 4),
{
    let y0 = b[pos] as u32;
    let y1 = b[pos + 1] as u32;
    let y2 = b[pos + 2] as u32;
    let y3 = b[pos + 3] as u32;
    let x = dec_u32_at(b, pos);
    assert(x % 256 == y0 && (x / 256) % 256 == y1 && (x / 65536) % 256 == y2 && (x / 16777216)
        % 256 == y3) by (bit_vector)
        requires
            x == y0 + y1 * 256 + y2 * 65536 + y3 * 16777216,
            y0 < 256,
            y1 < 256,
            y2 < 256,
            y3 < 256,
    ;
    assert(enc_u32(x) =~= b.subrange(pos, pos + 4));
}

/// A signed counter mapped onto an unsigned word: non-negative values
/// keep their value, negative ones are shifted up by 2^32.
pub open spec fn bits_of_i32(x: i32) -> u32 {
    if x >= 0 {
        x as u32
    } else {
        (x + 0x1_0000_0000) as u32
    }
}

/// The inverse of [`bits_of_i32`].
pub open spec fn i32_of_bits(w: u32) -> i32 {
    if w < 0x8000_0000 {
        w as i32
    } else {
        (w - 0x1_0000_0000) as i32
    }
}

/// The counter mapping is inverted exactly by [`i32_of_bits`].
pub proof fn lemma_i32_round(x: i32)
    ensures
        i32_of_bits(bits_of_i32(x)) == x,
{
}

/// Any word is the image of the counter it maps back to.
pub proof fn lemma_i32_unround(w: u32)
    ensures
        bits_of_i32(i32_of_bits(w)) == w,
{
}

// ---------------------------------------------------------------------
// Encoding
// ---------------------------------------------------------------------

/// A byte string, length-prefixed.
pub open spec fn enc_bytes(a: Seq<u8>) -> Seq<u8> {
    enc_u32(a.len() as u32) + a
}

/// Characters flattened to 32-bit scalar words, without a prefix.
pub open spec fn enc_chars(s: Seq<char>) -> Seq<u8>
    decreases s.len(),
{
    if s.len() == 0 {
        Seq::empty()
    } else {
        enc_u32(s[0] as u32) + enc_chars(s.drop_first())
    }
}

/// Length-prefixed identities, concatenated, without a count.
pub open spec fn enc_voted(vs: Seq<Seq<u8>>) -> Seq<u8>
    decreases vs.len(),
{
    if vs.len() == 0 {
        Seq::empty()
    } else {
        enc_bytes(vs[0]) + enc_voted(vs.drop_first())
    }
}

/// The serialized form of a record.
pub open spec fn encode(v: ProposalView) -> Seq<u8> {
    seq![if v.is_active { 1u8 } else { 0u8 }] + enc_u32(bits_of_i32(v.approve)) + enc_u32(
        bits_of_i32(v.reject),
    ) + enc_u32(bits_of_i32(v.pass)) + enc_bytes(v.owner) + enc_u32(v.description.len() as u32)
        + enc_chars(v.description) + enc_u32(v.voted.len() as u32) + enc_voted(v.voted)
}

/// What the identity entries of a record contribute to its size.
pub open spec fn voted_len(vs: Seq<Seq<u8>>) -> int
    decreases vs.len(),
{
    if vs.len() == 0 {
        0
    } else {
        4 + vs[0].len() + voted_len(vs.drop_first())
    }
}

/// The size of a record's serialized form, field by field.
pub open spec fn encoded_len(v: ProposalView) -> int {
    13 + 4 + v.owner.len() + 4 + 4 * v.description.len() + 4 + voted_len(v.voted)
}

/// A record the wire format can carry faithfully: identities within
/// the length bound and field counts below the 32-bit prefix range.
pub open spec fn fits(v: ProposalView) -> bool {
    &&& v.owner.len() <= MAX_PRINCIPAL_BYTES
    &&& forall|i: int| 0 <= i < v.voted.len() ==> (#[trigger] v.voted[i]).len()
        <= MAX_PRINCIPAL_BYTES
    &&& v.description.len() < 0x1_0000_0000
    &&& v.voted.len() < 0x1_0000_0000
}

pub proof fn lemma_enc_chars_len(s: Seq<char>)
    ensures
        enc_chars(s).len() == 4 * s.len(),
    decreases s.len(),
{
    if s.len() > 0 {
        lemma_enc_chars_len(s.drop_first());
    }
}

pub proof fn lemma_enc_voted_len(vs: Seq<Seq<u8>>)
    ensures
        enc_voted(vs).len() == voted_len(vs),
        voted_len(vs) >= 4 * vs.len(),
    decreases vs.len(),
{
    if vs.len() > 0 {
        lemma_enc_voted_len(vs.drop_first());
    }
}

/// The serialized form has exactly the size [`encoded_len`] gives.
pub proof fn lemma_encode_len(v: ProposalView)
    ensures
        encode(v).len() == encoded_len(v),
{
    lemma_enc_chars_len(v.description);
    lemma_enc_voted_len(v.voted);
}

/// Every identity entry contributes at least its own length plus its
/// prefix to [`voted_len`].
pub proof fn lemma_voted_len_entry(vs: Seq<Seq<u8>>, i: int)
    requires
        0 <= i < vs.len(),
    ensures
        voted_len(vs) >= 4 + vs[i].len() + 4 * (vs.len() - 1),
    decreases vs.len(),
{
    lemma_enc_voted_len(vs.drop_first());
    if i > 0 {
        lemma_voted_len_entry(vs.drop_first(), i - 1);
    }
}

/// Appending a character extends the flattened characters at the end.
pub proof fn lemma_enc_chars_push(s: Seq<char>, c: char)
    ensures
        enc_chars(s.push(c)) == enc_chars(s) + enc_u32(c as u32),
    decreases s.len(),
{
    if s.len() == 0 {
        assert(s.push(c)[0] == c);
        assert(s.push(c).drop_first() =~= Seq::<char>::empty());
        assert(enc_chars(s.push(c)) == enc_u32(c as u32) + enc_chars(Seq::<char>::empty()));
        assert(enc_chars(s.push(c)) =~= enc_chars(s) + enc_u32(c as u32));
    } else {
        lemma_enc_chars_push(s.drop_first(), c);
        assert(s.push(c).drop_first() =~= s.drop_first().push(c));
        assert(s.push(c)[0] == s[0]);
        assert(enc_chars(s.push(c)) == enc_u32(s[0] as u32) + enc_chars(s.drop_first().push(c)));
        assert(enc_chars(s.push(c)) =~= enc_chars(s) + enc_u32(c as u32));
    }
}

/// Appending an identity extends the encoded voter list at the end.
pub proof fn lemma_enc_voted_push(vs: Seq<Seq<u8>>, a: Seq<u8>)
    ensures
        enc_voted(vs.push(a)) == enc_voted(vs) + enc_bytes(a),
        voted_len(vs.push(a)) == voted_len(vs) + 4 + a.len(),
    decreases vs.len(),
{
    if vs.len() == 0 {
        assert(vs.push(a)[0] == a);
        assert(vs.push(a).drop_first() =~= Seq::<Seq<u8>>::empty());
        assert(enc_voted(vs.push(a)) == enc_bytes(a) + enc_voted(Seq::<Seq<u8>>::empty()));
        assert(voted_len(vs.push(a)) == 4 + a.len() + voted_len(Seq::<Seq<u8>>::empty()));
        assert(enc_voted(vs.push(a)) =~= enc_voted(vs) + enc_bytes(a));
    } else {
        lemma_enc_voted_push(vs.drop_first(), a);
        assert(vs.push(a).drop_first() =~= vs.drop_first().push(a));
        assert(vs.push(a)[0] == vs[0]);
        assert(enc_voted(vs.push(a)) == enc_bytes(vs[0]) + enc_voted(vs.drop_first().push(a)));
        assert(voted_len(vs.push(a)) == 4 + vs[0].len() + voted_len(vs.drop_first().push(a)));
        assert(enc_voted(vs.push(a)) =~= enc_voted(vs) + enc_bytes(a));
    }
}

// ---------------------------------------------------------------------
// Decoding
// ---------------------------------------------------------------------

/// A unicode scalar value: what a `char` may hold.
pub open spec fn is_scalar(w: u32) -> bool {
    vstd::utf8::is_scalar(w)
}

/// Reads a 32-bit word at `pos`, yielding it and the next position.
pub open spec fn d_u32(b: Seq<u8>, pos: int) -> Option<(u32, int)> {
    if 0 <= pos && pos + 4 <= b.len() {
        Some((dec_u32_at(b, pos), pos + 4))
    } else {
        None
    }
}

/// Reads a length-prefixed byte string at `pos`.
pub open spec fn d_bytes(b: Seq<u8>, pos: int) -> Option<(Seq<u8>, int)> {
    match d_u32(b, pos) {
        None => None,
        Some((n, p)) => if p + n <= b.len() {
            Some((b.subrange(p, p + n), p + n))
        } else {
            None
        },
    }
}

/// Reads an identity: a length-prefixed byte string within the
/// identity length bound.
pub open spec fn d_ident(b: Seq<u8>, pos: int) -> Option<(Seq<u8>, int)> {
    match d_bytes(b, pos) {
        None => None,
        Some((a, p)) => if a.len() <= MAX_PRINCIPAL_BYTES {
            Some((a, p))
        } else {
            None
        },
    }
}

/// Reads `n` scalar words as characters.
pub open spec fn d_chars(b: Seq<u8>, pos: int, n: nat) -> Option<(Seq<char>, int)>
    decreases n,
{
    if n == 0 {
        Some((Seq::empty(), pos))
    } else {
        match d_u32(b, pos) {
            None => None,
            Some((w, p)) => if is_scalar(w) {
                match d_chars(b, p, (n - 1) as nat) {
                    None => None,
                    Some((s, p2)) => Some((seq![w as char] + s, p2)),
                }
            } else {
                None
            },
        }
    }
}

/// Reads `n` identities.
pub open spec fn d_voted(b: Seq<u8>, pos: int, n: nat) -> Option<(Seq<Seq<u8>>, int)>
    decreases n,
{
    if n == 0 {
        Some((Seq::empty(), pos))
    } else {
        match d_ident(b, pos) {
            None => None,
            Some((a, p)) => match d_voted(b, p, (n - 1) as nat) {
                None => None,
                Some((vs, p2)) => Some((seq![a] + vs, p2)),
            },
        }
    }
}

/// The record held by a byte string, if it is a well-formed encoding
/// consumed exactly to its end; `None` on any malformed input.
pub open spec fn decode(b: Seq<u8>) -> Option<ProposalView> {
    if b.len() < 1 || (b[0] != 0 && b[0] != 1) {
        None
    } else {
        match d_u32(b, 1) {
            None => None,
            Some((wa, p1)) => match d_u32(b, p1) {
                None => None,
                Some((wr, p2)) => match d_u32(b, p2) {
                    None => None,
                    Some((wp, p3)) => match d_ident(b, p3) {
                        None => None,
                        Some((owner, p4)) => match d_u32(b, p4) {
                            None => None,
                            Some((dn, p5)) => match d_chars(b, p5, dn as nat) {
                                None => None,
                                Some((desc, p6)) => match d_u32(b, p6) {
                                    None => None,
                                    Some((vn, p7)) => match d_voted(b, p7, vn as nat) {
                                        None => None,
                                        Some((vt, p8)) => if p8 == b.len() {
                                            Some(
                                                ProposalView {
                                                    description: desc,
                                                    approve: i32_of_bits(wa),
                                                    reject: i32_of_bits(wr),
                                                    pass: i32_of_bits(wp),
                                                    is_active: b[0] == 1,
                                                    voted: vt,
                                                    owner: owner,
                                                },
                                            )
                                        } else {
                                            None
                                        },
                                    },
                                },
                            },
                        },
                    },
                },
            },
        }
    }
}

// ---------------------------------------------------------------------
// Round trip: decoding an encoding gives the record back
// ---------------------------------------------------------------------

pub proof fn lemma_d_u32_round(b: Seq<u8>, pos: int, x: u32)
    requires
        0 <= pos,
        pos + 4 <= b.len(),
        b.subrange(pos, pos + 4) == enc_u32(x),
    ensures
        d_u32(b, pos) == Some((x, pos + 4)),
{
    lemma_u32_round(b, pos, x);
}

pub proof fn lemma_d_chars_round(b: Seq<u8>, pos: int, s: Seq<char>)
    requires
        0 <= pos,
        pos + 4 * s.len() <= b.len(),
        b.subrange(pos, pos + 4 * s.len()) == enc_chars(s),
    ensures
        d_chars(b, pos, s.len() as nat) == Some((s, pos + 4 * s.len())),
    decreases s.len(),
{
    lemma_enc_chars_len(s);
    if s.len() == 0 {
        assert(s =~= Seq::<char>::empty());
    } else {
        let st = s.drop_first();
        lemma_enc_chars_len(st);
        let w = s[0] as u32;
        vstd::utf8::char_is_scalar(s[0]);
        vstd::utf8::char_u32_cast(s[0], w);
        assert forall|j: int| 0 <= j < 4 implies b[pos + j] == #[trigger] enc_u32(w)[j] by {
            assert(b[pos + j] == b.subrange(pos, pos + 4 * s.len())[j]);
        }
        assert(b.subrange(pos, pos + 4) =~= enc_u32(w));
        lemma_d_u32_round(b, pos, w);
        assert forall|j: int| 0 <= j < 4 * st.len() implies b[pos + 4 + j] == #[trigger] enc_chars(
            st,
        )[j] by {
            assert(enc_chars(s)[4 + j] == enc_chars(st)[j]);
            assert(b[pos + 4 + j] == b.subrange(pos, pos + 4 * s.len())[4 + j]);
        }
        assert(b.subrange(pos + 4, pos + 4 + 4 * st.len()) =~= enc_chars(st));
        lemma_d_chars_round(b, pos + 4, st);
        assert(seq![s[0]] + st =~= s);
    }
}

pub proof fn lemma_d_ident_round(b: Seq<u8>, pos: int, a: Seq<u8>)
    requires
        0 <= pos,
        a.len() <= MAX_PRINCIPAL_BYTES,
        pos + 4 + a.len() <= b.len(),
        b.subrange(pos, pos + 4 + a.len()) == enc_bytes(a),
    ensures
        d_ident(b, pos) == Some((a, pos + 4 + a.len())),
{
    let n = a.len() as u32;
    assert forall|j: int| 0 <= j < 4 implies b[pos + j] == #[trigger] enc_u32(n)[j] by {
        assert(b[pos + j] == b.subrange(pos, pos + 4 + a.len())[j]);
        assert(enc_bytes(a)[j] == enc_u32(n)[j]);
    }
    assert(b.subrange(pos, pos + 4) =~= enc_u32(n));
    lemma_d_u32_round(b, pos, n);
    assert forall|j: int| 0 <= j < a.len() implies b[pos + 4 + j] == #[trigger] a[j] by {
        assert(b[pos + 4 + j] == b.subrange(pos, pos + 4 + a.len())[4 + j]);
        assert(enc_bytes(a)[4 + j] == a[j]);
    }
    assert(b.subrange(pos + 4, pos + 4 + a.len()) =~= a);
}

pub proof fn lemma_d_voted_round(b: Seq<u8>, pos: int, vs: Seq<Seq<u8>>)
    requires
        0 <= pos,
        forall|i: int| 0 <= i < vs.len() ==> (#[trigger] vs[i]).len() <= MAX_PRINCIPAL_BYTES,
        pos + voted_len(vs) <= b.len(),
        b.subrange(pos, pos + voted_len(vs)) == enc_voted(vs),
    ensures
        d_voted(b, pos, vs.len() as nat) == Some((vs, pos + voted_len(vs))),
    decreases vs.len(),
{
    lemma_enc_voted_len(vs);
    if vs.len() == 0 {
        assert(vs =~= Seq::<Seq<u8>>::empty());
    } else {
        let vt = vs.drop_first();
        lemma_enc_voted_len(vt);
        let a = vs[0];
        let head = 4 + a.len() as int;
        assert forall|j: int| 0 <= j < head implies b[pos + j] == #[trigger] enc_bytes(a)[j] by {
            assert(b[pos + j] == b.subrange(pos, pos + voted_len(vs))[j]);
            assert(enc_voted(vs)[j] == enc_bytes(a)[j]);
        }
        assert(b.subrange(pos, pos + head) =~= enc_bytes(a));
        lemma_d_ident_round(b, pos, a);
        assert forall|j: int| 0 <= j < voted_len(vt) implies b[pos + head + j] == #[trigger] enc_voted(
            vt,
        )[j] by {
            assert(b[pos + head + j] == b.subrange(pos, pos + voted_len(vs))[head + j]);
            assert(enc_voted(vs)[head + j] == enc_voted(vt)[j]);
        }
        assert(b.subrange(pos + head, pos + head + voted_len(vt)) =~= enc_voted(vt));
        lemma_d_voted_round(b, pos + head, vt);
        assert(seq![a] + vt =~= vs);
    }
}

/// A subrange equal to a concatenation splits into subranges equal to
/// the two parts.
proof fn lemma_concat_part(x: Seq<u8>, y: Seq<u8>, b: Seq<u8>, off: int)
    requires
        0 <= off,
        off + x.len() + y.len() <= b.len(),
        b.subrange(off, off + x.len() + y.len()) == x + y,
    ensures
        b.subrange(off, off + x.len()) == x,
        b.subrange(off + x.len(), off + x.len() + y.len()) == y,
{
    assert forall|j: int| 0 <= j < x.len() implies b[off + j] == #[trigger] x[j] by {
        assert(b[off + j] == b.subrange(off, off + x.len() + y.len())[j]);
        assert((x + y)[j] == x[j]);
    }
    assert(b.subrange(off, off + x.len()) =~= x);
    assert forall|j: int| 0 <= j < y.len() implies b[off + x.len() + j] == #[trigger] y[j] by {
        assert(b[off + x.len() + j] == b.subrange(off, off + x.len() + y.len())[x.len() + j]);
        assert((x + y)[x.len() + j] == y[j]);
    }
    assert(b.subrange(off + x.len(), off + x.len() + y.len()) =~= y);
}

/// Decoding inverts encoding: every record the wire format can carry
/// is read back unchanged from its serialized form.
#[verifier::rlimit(100)]
pub proof fn lemma_decode_encode(v: ProposalView)
    requires
        fits(v),
    ensures
        decode(encode(v)) == Some(v),
{
    let b = encode(v);
    lemma_encode_len(v);
    lemma_enc_chars_len(v.description);
    lemma_enc_voted_len(v.voted);
    let flag = seq![if v.is_active { 1u8 } else { 0u8 }];
    let wa = enc_u32(bits_of_i32(v.approve));
    let wr = enc_u32(bits_of_i32(v.reject));
    let wp = enc_u32(bits_of_i32(v.pass));
    let ob = enc_bytes(v.owner);
    let dw = enc_u32(v.description.len() as u32);
    let dc = enc_chars(v.description);
    let vw = enc_u32(v.voted.len() as u32);
    let vb = enc_voted(v.voted);
    let p1 = flag + wa;
    let p2 = p1 + wr;
    let p3 = p2 + wp;
    let p4 = p3 + ob;
    let p5 = p4 + dw;
    let p6 = p5 + dc;
    let p7 = p6 + vw;
    assert(b == p7 + vb);
    assert(b.subrange(0, b.len() as int) =~= b);
    lemma_concat_part(p7, vb, b, 0);
    lemma_concat_part(p6, vw, b, 0);
    lemma_concat_part(p5, dc, b, 0);
    lemma_concat_part(p4, dw, b, 0);
    lemma_concat_part(p3, ob, b, 0);
    lemma_concat_part(p2, wp, b, 0);
    lemma_concat_part(p1, wr, b, 0);
    lemma_concat_part(flag, wa, b, 0);
    let ow = v.owner.len() as int;
    let dn = v.description.len() as int;
    let o4 = 13 + 4 + ow;
    let o5 = o4 + 4;
    let o6 = o5 + 4 * dn;
    let o7 = o6 + 4;
    let o8 = o7 + voted_len(v.voted);
    assert(b[0] == b.subrange(0, 1)[0]);
    assert(b[0] == (if v.is_active { 1u8 } else { 0u8 }));
    assert(b.subrange(1, 5) == wa && b.subrange(5, 9) == wr && b.subrange(9, 13) == wp);
    assert(b.subrange(13, o4) == ob && b.subrange(o4, o5) == dw && b.subrange(o5, o6) == dc);
    assert(b.subrange(o6, o7) == vw && b.subrange(o7, o8) == vb);
    lemma_d_u32_round(b, 1, bits_of_i32(v.approve));
    lemma_d_u32_round(b, 5, bits_of_i32(v.reject));
    lemma_d_u32_round(b, 9, bits_of_i32(v.pass));
    lemma_d_ident_round(b, 13, v.owner);
    lemma_d_u32_round(b, o4, v.description.len() as u32);
    lemma_d_chars_round(b, o5, v.description);
    lemma_d_u32_round(b, o6, v.voted.len() as u32);
    lemma_d_voted_round(b, o7, v.voted);
    lemma_i32_round(v.approve);
    lemma_i32_round(v.reject);
    lemma_i32_round(v.pass);
    assert(o8 == b.len());
    assert(decode(b) == Some(v));
}

// ---------------------------------------------------------------------
// Round trip: re-encoding a decoded byte string gives the bytes back
// ---------------------------------------------------------------------

/// A subrange splits at any interior point into two adjacent subranges.
proof fn lemma_subrange_split(b: Seq<u8>, x: int, y: int, z: int)
    requires
        0 <= x <= y <= z <= b.len(),
    ensures
        b.subrange(x, z) == b.subrange(x, y) + b.subrange(y, z),
{
    assert(b.subrange(x, z) =~= b.subrange(x, y) + b.subrange(y, z));
}

pub proof fn lemma_d_chars_unround(b: Seq<u8>, pos: int, n: nat)
    requires
        0 <= pos <= b.len(),
        d_chars(b, pos, n) is Some,
    ensures
        ({
            let (s, p) = d_chars(b, pos, n).unwrap();
            &&& s.len() == n
            &&& p == pos + 4 * n
            &&& p <= b.len()
            &&& b.subrange(pos, p) == enc_chars(s)
        }),
    decreases n,
{
    let (s, p) = d_chars(b, pos, n).unwrap();
    if n == 0 {
        assert(b.subrange(pos, pos) =~= enc_chars(s));
    } else {
        let w = dec_u32_at(b, pos);
        lemma_u32_unround(b, pos);
        lemma_d_chars_unround(b, pos + 4, (n - 1) as nat);
        let (st, p2) = d_chars(b, pos + 4, (n - 1) as nat).unwrap();
        assert(s == seq![w as char] + st);
        assert(s[0] == w as char);
        assert(s[0] as u32 == w);
        assert(s.drop_first() =~= st);
        lemma_subrange_split(b, pos, pos + 4, p);
        assert(b.subrange(pos, p) == enc_u32(w) + enc_chars(st));
        assert(enc_chars(s) == enc_u32(s[0] as u32) + enc_chars(s.drop_first()));
    }
}

pub proof fn lemma_d_ident_unround(b: Seq<u8>, pos: int)
    requires
        0 <= pos <= b.len(),
        d_ident(b, pos) is Some,
    ensures
        ({
            let (a, p) = d_ident(b, pos).unwrap();
            &&& a.len() <= MAX_PRINCIPAL_BYTES
            &&& p == pos + 4 + a.len()
            &&& p <= b.len()
            &&& b.subrange(pos, p) == enc_bytes(a)
        }),
{
    let (a, p) = d_ident(b, pos).unwrap();
    let w = dec_u32_at(b, pos);
    lemma_u32_unround(b, pos);
    assert(a.len() as u32 == w);
    lemma_subrange_split(b, pos, pos + 4, p);
    assert(b.subrange(pos + 4, p) == a);
    assert(b.subrange(pos, p) == enc_u32(w) + a);
}

pub proof fn lemma_d_voted_unround(b: Seq<u8>, pos: int, n: nat)
    requires
        0 <= pos <= b.len(),
        d_voted(b, pos, n) is Some,
    ensures
        ({
            let (vs, p) = d_voted(b, pos, n).unwrap();
            &&& vs.len() == n
            &&& forall|i: int| 0 <= i < vs.len() ==> (#[trigger] vs[i]).len()
                <= MAX_PRINCIPAL_BYTES
            &&& p == pos + voted_len(vs)
            &&& p <= b.len()
            &&& b.subrange(pos, p) == enc_voted(vs)
        }),
    decreases n,
{
    let (vs, p) = d_voted(b, pos, n).unwrap();
    if n == 0 {
        assert(b.subrange(pos, pos) =~= enc_voted(vs));
    } else {
        lemma_d_ident_unround(b, pos);
        let (a, p1) = d_ident(b, pos).unwrap();
        lemma_d_voted_unround(b, p1, (n - 1) as nat);
        let (vt, p2) = d_voted(b, p1, (n - 1) as nat).unwrap();
        lemma_enc_voted_len(vt);
        assert(vs == seq![a] + vt);
        assert(vs[0] == a);
        assert(vs.drop_first() =~= vt);
        lemma_subrange_split(b, pos, p1, p);
        assert(b.subrange(pos, p) == enc_bytes(a) + enc_voted(vt));
        assert(enc_voted(vs) == enc_bytes(vs[0]) + enc_voted(vs.drop_first()));
        assert(voted_len(vs) == 4 + a.len() + voted_len(vt));
    }
}

/// Encoding inverts decoding: a byte string that decodes at all is
/// exactly the serialized form of the record it decodes to.
#[verifier::rlimit(100)]
pub proof fn lemma_encode_decode(b: Seq<u8>)
    requires
        decode(b) is Some,
    ensures
        fits(decode(b).unwrap()),
        encode(decode(b).unwrap()) == b,
{
    let v = decode(b).unwrap();
    let (wa, p1) = d_u32(b, 1).unwrap();
    let (wr, p2) = d_u32(b, p1).unwrap();
    let (wp, p3) = d_u32(b, p2).unwrap();
    let (owner, p4) = d_ident(b, p3).unwrap();
    let (dn, p5) = d_u32(b, p4).unwrap();
    let (desc, p6) = d_chars(b, p5, dn as nat).unwrap();
    let (vn, p7) = d_u32(b, p6).unwrap();
    let (vt, p8) = d_voted(b, p7, vn as nat).unwrap();
    lemma_u32_unround(b, 1);
    lemma_u32_unround(b, 5);
    lemma_u32_unround(b, 9);
    lemma_d_ident_unround(b, 13);
    lemma_u32_unround(b, p4);
    lemma_d_chars_unround(b, p5, dn as nat);
    lemma_u32_unround(b, p6);
    lemma_d_voted_unround(b, p7, vn as nat);
    lemma_i32_unround(wa);
    lemma_i32_unround(wr);
    lemma_i32_unround(wp);
    assert(v.description.len() as u32 == dn);
    assert(v.voted.len() as u32 == vn);
    assert(b.subrange(0, 1) =~= seq![if v.is_active { 1u8 } else { 0u8 }]);
    lemma_subrange_split(b, 0, 1, 5);
    lemma_subrange_split(b, 0, 5, 9);
    lemma_subrange_split(b, 0, 9, 13);
    lemma_subrange_split(b, 0, 13, p4);
    lemma_subrange_split(b, 0, p4, p5);
    lemma_subrange_split(b, 0, p5, p6);
    lemma_subrange_split(b, 0, p6, p7);
    lemma_subrange_split(b, 0, p7, p8);
    assert(b.subrange(0, p8 as int) =~= b);
    assert(encode(v) == b);
}

// ---------------------------------------------------------------------
// Executable encoding
// ---------------------------------------------------------------------

/// Appends the four little-endian bytes of `x`.
fn push_u32(out: &mut Vec<u8>, x: u32)
    ensures
        final(out)@ == old(out)@ + enc_u32(x),
{
    out.push((x % 256) as u8);
    out.push(((x / 256) % 256) as u8);
    out.push(((x / 65536) % 256) as u8);
    out.push(((x / 16777216) % 256) as u8);
    proof {
        assert(out@ =~= old(out)@ + enc_u32(x));
    }
}

/// Appends a copy of `v`.
fn push_bytes(out: &mut Vec<u8>, v: &Vec<u8>)
    ensures
        final(out)@ == old(out)@ + v@,
{
    let mut i: usize = 0;
    while i < v.len()
        invariant
            i <= v@.len(),
            out@ == old(out)@ + v@.take(i as int),
        decreases v@.len() - i,
    {
        out.push(v[i]);
        i = i + 1;
        proof {
            assert(old(out)@ + v@.take(i - 1) + seq![v@[i - 1]] =~= old(out)@ + v@.take(i as int));
        }
    }
    proof {
        assert(v@.take(v@.len() as int) =~= v@);
    }
}

/// The counter-to-word mapping, executably.
fn i32_bits(x: i32) -> (r: u32)
    ensures
        r == bits_of_i32(x),
{
    if x >= 0 {
        x as u32
    } else {
        ((x as i64) + 0x1_0000_0000i64) as u32
    }
}

/// The word-to-counter mapping, executably.
fn bits_i32(w: u32) -> (r: i32)
    ensures
        r == i32_of_bits(w),
{
    if w < 0x8000_0000 {
        w as i32
    } else {
        ((w as i64) - 0x1_0000_0000i64) as i32
    }
}

/// The serialized size of the record, where it is within the store's
/// cap; `None` where it would exceed it.
pub fn encoded_size(p: &Proposal) -> (r: Option<u64>)
    ensures
        r matches Some(n) ==> n == encoded_len(p@) && encoded_len(p@) <= MAX_RECORD_BYTES,
        r is None ==> encoded_len(p@) > MAX_RECORD_BYTES,
{
    proof {
        lemma_enc_voted_len(p@.voted);
    }
    if p.description.len() >= 1244 {
        return None;
    }
    if p.owner.byte_len() >= 4976 {
        return None;
    }
    if p.voted.len() >= 1244 {
        return None;
    }
    let mut total: u64 = 25 + (p.owner.byte_len() as u64) + 4 * (p.description.len() as u64);
    let mut i: usize = 0;
    while i < p.voted.len()
        invariant
            i <= p@.voted.len(),
            p@.voted.len() < 1244,
            total == 25 + p@.owner.len() + 4 * p@.description.len() + voted_len(
                p@.voted.take(i as int),
            ),
            total <= 25 + 4976 + 4 * 1244 + 5005 * i,
        decreases p@.voted.len() - i,
    {
        let el = p.voted[i].byte_len();
        if el > 5000 {
            proof {
                lemma_voted_len_entry(p@.voted, i as int);
            }
            return None;
        }
        proof {
            assert(p@.voted.take(i + 1) =~= p@.voted.take(i as int).push(p@.voted[i as int]));
            lemma_enc_voted_push(p@.voted.take(i as int), p@.voted[i as int]);
            assert(p@.voted[i as int].len() == el);
        }
        total = total + 4 + (el as u64);
        i = i + 1;
    }
    proof {
        assert(p@.voted.take(p@.voted.len() as int) =~= p@.voted);
    }
    if total <= 5000 {
        Some(total)
    } else {
        None
    }
}

/// Serializes the record, or reports that it would exceed the store's
/// byte cap.
pub fn encode_proposal(p: &Proposal) -> (r: Option<Vec<u8>>)
    ensures
        r matches Some(bytes) ==> bytes@ == encode(p@) && encoded_len(p@) <= MAX_RECORD_BYTES,
        r is None ==> encoded_len(p@) > MAX_RECORD_BYTES,
{
    let size = encoded_size(p);
    if size.is_none() {
        return None;
    }
    proof {
        lemma_enc_voted_len(p@.voted);
    }
    let ghost v = p@;
    let mut out: Vec<u8> = Vec::new();
    out.push(if p.is_active {
        1
    } else {
        0
    });
    push_u32(&mut out, i32_bits(p.approve));
    push_u32(&mut out, i32_bits(p.reject));
    push_u32(&mut out, i32_bits(p.pass));
    proof {
        assert(out@ =~= seq![if v.is_active { 1u8 } else { 0u8 }] + enc_u32(bits_of_i32(v.approve))
            + enc_u32(bits_of_i32(v.reject)) + enc_u32(bits_of_i32(v.pass)));
    }
    let ob = p.owner.to_bytes();
    push_u32(&mut out, ob.len() as u32);
    push_bytes(&mut out, &ob);
    let ghost head = seq![if v.is_active { 1u8 } else { 0u8 }] + enc_u32(bits_of_i32(v.approve))
        + enc_u32(bits_of_i32(v.reject)) + enc_u32(bits_of_i32(v.pass)) + enc_bytes(v.owner);
    proof {
        assert(out@ =~= head);
    }
    push_u32(&mut out, p.description.len() as u32);
    let ghost head2 = head + enc_u32(v.description.len() as u32);
    let mut i: usize = 0;
    while i < p.description.len()
        invariant
            i <= v.description.len(),
            out@ == head2 + enc_chars(v.description.take(i as int)),
            v == p@,
        decreases v.description.len() - i,
    {
        let c = p.description[i];
        push_u32(&mut out, c as u32);
        proof {
            lemma_enc_chars_push(v.description.take(i as int), v.description[i as int]);
            assert(v.description.take(i + 1) =~= v.description.take(i as int).push(
                v.description[i as int],
            ));
            assert(out@ =~= head2 + enc_chars(v.description.take(i + 1)));
        }
        i = i + 1;
    }
    proof {
        assert(v.description.take(v.description.len() as int) =~= v.description);
    }
    let ghost head3 = head2 + enc_chars(v.description);
    push_u32(&mut out, p.voted.len() as u32);
    let ghost head4 = head3 + enc_u32(v.voted.len() as u32);
    let mut j: usize = 0;
    while j < p.voted.len()
        invariant
            j <= v.voted.len(),
            out@ == head4 + enc_voted(v.voted.take(j as int)),
            v == p@,
            encoded_len(v) <= MAX_RECORD_BYTES,
        decreases v.voted.len() - j,
    {
        proof {
            lemma_voted_len_entry(v.voted, j as int);
            lemma_enc_voted_len(v.voted);
            assert(v.voted[j as int].len() < 0x1_0000_0000);
        }
        let eb = p.voted[j].to_bytes();
        push_u32(&mut out, eb.len() as u32);
        push_bytes(&mut out, &eb);
        proof {
            lemma_enc_voted_push(v.voted.take(j as int), v.voted[j as int]);
            assert(v.voted.take(j + 1) =~= v.voted.take(j as int).push(v.voted[j as int]));
            assert(out@ =~= head4 + enc_voted(v.voted.take(j + 1)));
        }
        j = j + 1;
    }
    proof {
        assert(v.voted.take(v.voted.len() as int) =~= v.voted);
        assert(out@ =~= encode(v));
    }
    Some(out)
}

// ---------------------------------------------------------------------
// Executable decoding
// ---------------------------------------------------------------------

/// Relies on char::from_u32: defined exactly on unicode scalar values,
/// where it returns the character with that value.
#[verifier::external_body]
fn char_from_u32(w: u32) -> (r: Option<char>)
    ensures
        r matches Some(c) ==> c as u32 == w,
        r is None ==> !is_scalar(w),
{
    char::from_u32(w)
}

/// Reads the 32-bit word at `pos`.
fn read_u32(b: &Vec<u8>, pos: usize) -> (r: u32)
    requires
        pos + 4 <= b.len(),
    ensures
        r == dec_u32_at(b@, pos as int),
{
    (b[pos] as u32) + (b[pos + 1] as u32) * 256 + (b[pos + 2] as u32) * 65536 + (b[pos + 3] as u32)
        * 16777216
}

/// Copies `n` bytes starting at `pos`.
fn read_vec(b: &Vec<u8>, pos: usize, n: usize) -> (r: Vec<u8>)
    requires
        pos + n <= b.len(),
    ensures
        r@ == b@.subrange(pos as int, pos as int + n as int),
{
    let mut out: Vec<u8> = Vec::new();
    let mut i: usize = 0;
    while i < n
        invariant
            i <= n,
            pos + n <= b.len(),
            out@ == b@.subrange(pos as int, pos as int + i as int),
        decreases n - i,
    {
        out.push(b[pos + i]);
        i = i + 1;
        proof {
            assert(out@ =~= b@.subrange(pos as int, pos as int + i as int));
        }
    }
    out
}

/// Deserializes a record: yields exactly the record [`decode`] gives,
/// and `None` on every byte string no record encodes to.
#[verifier::rlimit(100)]
#[verifier::loop_isolation(false)]
pub fn decode_proposal(b: &Vec<u8>) -> (r: Option<Proposal>)
    ensures
        r matches Some(p) ==> decode(b@) == Some(p@),
        r is None ==> decode(b@) is None,
{
    if b.len() < 1 {
        return None;
    }
    let flag = b[0];
    if flag != 0 && flag != 1 {
        return None;
    }
    if b.len() < 13 {
        return None;
    }
    let wa = read_u32(b, 1);
    let wr = read_u32(b, 5);
    let wp = read_u32(b, 9);
    proof {
        assert(d_u32(b@, 1) == Some((wa, 5int)));
        assert(d_u32(b@, 5) == Some((wr, 9int)));
        assert(d_u32(b@, 9) == Some((wp, 13int)));
    }
    // owner
    if b.len() - 13 < 4 {
        return None;
    }
    let on = read_u32(b, 13);
    if (on as u64) > (b.len() as u64) - 17 {
        proof {
            assert(d_bytes(b@, 13) is None);
        }
        return None;
    }
    let on_us = on as usize;
    let owner_bytes = read_vec(b, 17, on_us);
    proof {
        assert(d_bytes(b@, 13) == Some((b@.subrange(17, 17 + on as int), 17 + on as int)));
    }
    if owner_bytes.len() > MAX_PRINCIPAL_BYTES {
        proof {
            assert(d_ident(b@, 13) is None);
        }
        return None;
    }
    let owner = match Principal::from_bytes(owner_bytes) {
        Some(o) => o,
        None => {
            proof {
                assert(false);
            }
            return None;
        },
    };
    let mut pos: usize = 17 + on_us;
    let ghost p5 = pos as int + 4;
    // description
    if b.len() - pos < 4 {
        return None;
    }
    let dn = read_u32(b, pos);
    pos = pos + 4;
    let mut desc: Vec<char> = Vec::new();
    let mut k: u32 = 0;
    while k < dn
        invariant
            k <= dn,
            0 <= pos as int <= b@.len(),
            desc@.len() == k,
            d_chars(b@, p5, dn as nat) == (match d_chars(b@, pos as int, (dn - k) as nat) {
                None => None::<(Seq<char>, int)>,
                Some((s, q)) => Some((desc@ + s, q)),
            }),
        decreases dn - k,
    {
        if b.len() - pos < 4 {
            proof {
                assert(d_chars(b@, pos as int, (dn - k) as nat) is None);
            }
            return None;
        }
        let w = read_u32(b, pos);
        let c = match char_from_u32(w) {
            Some(c) => c,
            None => {
                proof {
                    assert(d_chars(b@, pos as int, (dn - k) as nat) is None);
                }
                return None;
            },
        };
        proof {
            vstd::utf8::char_is_scalar(c);
            vstd::utf8::char_u32_cast(c, w);
            assert(d_u32(b@, pos as int) == Some((w, pos as int + 4)));
            assert(match d_chars(b@, pos as int + 4, (dn - k - 1) as nat) {
                None => d_chars(b@, pos as int, (dn - k) as nat) is None,
                Some((s, q)) => d_chars(b@, pos as int, (dn - k) as nat) == Some(
                    (seq![c] + s, q),
                ),
            });
        }
        desc.push(c);
        pos = pos + 4;
        k = k + 1;
        proof {
            assert forall|s: Seq<char>| true implies desc@.drop_last() + (seq![c] + s) == desc@
                + s by {
                assert(desc@.drop_last() + (seq![c] + s) =~= desc@ + s);
            }
        }
    }
    proof {
        assert(d_chars(b@, pos as int, 0) == Some((Seq::<char>::empty(), pos as int)));
        assert(desc@ + Seq::<char>::empty() =~= desc@);
        assert(d_chars(b@, p5, dn as nat) == Some((desc@, pos as int)));
    }
    let ghost p6 = pos as int;
    // voter identities
    if b.len() - pos < 4 {
        return None;
    }
    let vn = read_u32(b, pos);
    pos = pos + 4;
    let ghost p7 = pos as int;
    let mut voted: Vec<Principal> = Vec::new();
    let mut t: u32 = 0;
    while t < vn
        invariant
            t <= vn,
            0 <= pos as int <= b@.len(),
            voted@.len() == t,
            d_voted(b@, p7, vn as nat) == (match d_voted(b@, pos as int, (vn - t) as nat) {
                None => None::<(Seq<Seq<u8>>, int)>,
                Some((vs, q)) => Some((voted@.map_values(|pr: Principal| pr@) + vs, q)),
            }),
        decreases vn - t,
    {
        if b.len() - pos < 4 {
            proof {
                assert(d_voted(b@, pos as int, (vn - t) as nat) is None);
            }
            return None;
        }
        let en = read_u32(b, pos);
        if (en as u64) > (b.len() as u64) - (pos as u64) - 4 {
            proof {
                assert(d_bytes(b@, pos as int) is None);
                assert(d_voted(b@, pos as int, (vn - t) as nat) is None);
            }
            return None;
        }
        let eb = read_vec(b, pos + 4, en as usize);
        proof {
            assert(d_bytes(b@, pos as int) == Some(
                (b@.subrange(pos as int + 4, pos as int + 4 + en as int), pos as int + 4
                    + en as int),
            ));
        }
        if eb.len() > MAX_PRINCIPAL_BYTES {
            proof {
                assert(d_ident(b@, pos as int) is None);
                assert(d_voted(b@, pos as int, (vn - t) as nat) is None);
            }
            return None;
        }
        let ghost ebv = eb@;
        let entry = match Principal::from_bytes(eb) {
            Some(o) => o,
            None => {
                proof {
                    assert(false);
                }
                return None;
            },
        };
        proof {
            assert(d_ident(b@, pos as int) == Some((ebv, pos as int + 4 + en as int)));
            assert(match d_voted(b@, pos as int + 4 + en as int, (vn - t - 1) as nat) {
                None => d_voted(b@, pos as int, (vn - t) as nat) is None,
                Some((vs, q)) => d_voted(b@, pos as int, (vn - t) as nat) == Some(
                    (seq![ebv] + vs, q),
                ),
            });
        }
        let ghost voted_before = voted@;
        voted.push(entry);
        pos = pos + 4 + (en as usize);
        t = t + 1;
        proof {
            assert(voted@.map_values(|pr: Principal| pr@) =~= voted_before.map_values(
                |pr: Principal| pr@,
            ).push(ebv));
            assert forall|vs: Seq<Seq<u8>>| true implies voted_before.map_values(
                |pr: Principal| pr@,
            ) + (seq![ebv] + vs) == voted@.map_values(|pr: Principal| pr@) + vs by {
                assert(voted_before.map_values(|pr: Principal| pr@) + (seq![ebv] + vs)
                    =~= voted@.map_values(|pr: Principal| pr@) + vs);
            }
        }
    }
    proof {
        assert(d_voted(b@, pos as int, 0) == Some((Seq::<Seq<u8>>::empty(), pos as int)));
        assert(voted@.map_values(|pr: Principal| pr@) + Seq::<Seq<u8>>::empty() =~= voted@.map_values(
            |pr: Principal| pr@,
        ));
        assert(d_voted(b@, p7, vn as nat) == Some(
            (voted@.map_values(|pr: Principal| pr@), pos as int),
        ));
    }
    if pos != b.len() {
        return None;
    }
    let result = Proposal {
        description: desc,
        approve: bits_i32(wa),
        reject: bits_i32(wr),
        pass: bits_i32(wp),
        is_active: flag == 1,
        voted: voted,
        owner: owner,
    };
    proof {
        assert(decode(b@) == Some(result@));
    }
    Some(result)
}

} // verus!
