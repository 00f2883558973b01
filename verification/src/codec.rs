//! The binary encoding from which identifiers are derived.
//!
//! Integers and lengths are eight bytes, little-endian. A byte string is its
//! length followed by its bytes. An optional byte string is a tag byte (0 for
//! none, 1 for some) followed, if present, by the byte string. A tuple is the
//! concatenation of its fields. There is no padding.

use vstd::prelude::*;
use crate::error::LedgerError;

verus! {

/// Encoding of an integer: eight bytes, least significant first.
pub open spec fn enc_u64(x: u64) -> Seq<u8> {
    seq![
        (x % 0x100) as u8,
        (x / 0x100 % 0x100) as u8,
        (x / 0x1_0000 % 0x100) as u8,
        (x / 0x100_0000 % 0x100) as u8,
        (x / 0x1_0000_0000 % 0x100) as u8,
        (x / 0x100_0000_0000 % 0x100) as u8,
        (x / 0x1_0000_0000_0000 % 0x100) as u8,
        (x / 0x100_0000_0000_0000 % 0x100) as u8,
    ]
}

/// The integer that the first eight bytes of `s` encode.
pub open spec fn le_value(s: Seq<u8>) -> int {
    s[0] + 0x100 * s[1] + 0x1_0000 * s[2] + 0x100_0000 * s[3] + 0x1_0000_0000 * s[4]
        + 0x100_0000_0000 * s[5] + 0x1_0000_0000_0000 * s[6] + 0x100_0000_0000_0000 * s[7]
}

/// Encoding of a byte string: its length, then its bytes.
pub open spec fn enc_bytes(b: Seq<u8>) -> Seq<u8> {
    enc_u64(b.len() as u64) + b
}

/// Encoding of an optional byte string: a tag byte, then the byte string if
/// there is one.
pub open spec fn enc_opt(o: Option<Seq<u8>>) -> Seq<u8> {
    match o {
        None => seq![0u8],
        Some(b) => seq![1u8] + enc_bytes(b),
    }
}

/// Reads an integer from the front of `s`; gives the integer and what
/// follows it, or `None` if `s` is too short.
pub open spec fn dec_u64(s: Seq<u8>) -> Option<(u64, Seq<u8>)> {
    if s.len() >= 8 {
        Some((le_value(s) as u64, s.skip(8)))
    } else {
        None
    }
}

/// Reads a byte string from the front of `s`.
pub open spec fn dec_bytes(s: Seq<u8>) -> Option<(Seq<u8>, Seq<u8>)> {
    match dec_u64(s) {
        Some((n, rest)) => if n <= rest.len() {
            Some((rest.take(n as int), rest.skip(n as int)))
        } else {
            None
        },
        None => None,
    }
}

/// Reads an optional byte string from the front of `s`.
pub open spec fn dec_opt(s: Seq<u8>) -> Option<(Option<Seq<u8>>, Seq<u8>)> {
    if s.len() == 0 {
        None
    } else if s[0] == 0 {
        Some((None, s.skip(1)))
    } else if s[0] == 1 {
        match dec_bytes(s.skip(1)) {
            Some((b, rest)) => Some((Some(b), rest)),
            None => None,
        }
    } else {
        None
    }
}

/// Concatenation of byte strings is associative.
pub proof fn lemma_concat_assoc(a: Seq<u8>, b: Seq<u8>, c: Seq<u8>)
    ensures
        (a + b) + c == a + (b + c),
{
    assert((a + b) + c =~= a + (b + c));
}

/// The bytes of an encoded integer add up to the integer.
pub proof fn lemma_le_value_enc(x: u64)
    ensures
        enc_u64(x).len() == 8,
        le_value(enc_u64(x)) == x,
{
    let q1 = x / 0x100;
    let q2 = x / 0x1_0000;
    let q3 = x / 0x100_0000;
    let q4 = x / 0x1_0000_0000;
    let q5 = x / 0x100_0000_0000;
    let q6 = x / 0x1_0000_0000_0000;
    let q7 = x / 0x100_0000_0000_0000;
    assert(q2 == q1 / 0x100 && q3 == q2 / 0x100 && q4 == q3 / 0x100 && q5 == q4 / 0x100 && q6 == q5
        / 0x100 && q7 == q6 / 0x100 && q7 < 0x100) by (bit_vector)
        requires
            q1 == x / 0x100,
            q2 == x / 0x1_0000,
            q3 == x / 0x100_0000,
            q4 == x / 0x1_0000_0000,
            q5 == x / 0x100_0000_0000,
            q6 == x / 0x1_0000_0000_0000,
            q7 == x / 0x100_0000_0000_0000,
    ;
}

/// Eight bytes are the encoding of the integer they add up to.
pub proof fn lemma_enc_le_value(s: Seq<u8>)
    requires
        s.len() == 8,
    ensures
        0 <= le_value(s) <= u64::MAX,
        enc_u64(le_value(s) as u64) == s,
{
    let v7 = s[7] as int;
    let v6 = s[6] + 0x100 * v7;
    let v5 = s[5] + 0x100 * v6;
    let v4 = s[4] + 0x100 * v5;
    let v3 = s[3] + 0x100 * v4;
    let v2 = s[2] + 0x100 * v3;
    let v1 = s[1] + 0x100 * v2;
    let v = s[0] + 0x100 * v1;
    assert(v == le_value(s));
    assert(v / 0x100 == v1);
    assert(v / 0x1_0000 == v2);
    assert(v / 0x100_0000 == v3);
    assert(v / 0x1_0000_0000 == v4);
    assert(v / 0x100_0000_0000 == v5);
    assert(v / 0x1_0000_0000_0000 == v6);
    assert(v / 0x100_0000_0000_0000 == v7);
}

/// Reading an encoded integer gives the integer back and leaves what
/// followed it.
pub proof fn lemma_dec_enc_u64(x: u64, rest: Seq<u8>)
    ensures
        dec_u64(enc_u64(x) + rest) == Some((x, rest)),
{
    lemma_le_value_enc(x);
}

/// Whatever an integer was read from is that integer's encoding followed by
/// the rest.
pub proof fn lemma_enc_dec_u64(s: Seq<u8>)
    requires
        dec_u64(s) is Some,
    ensures
        s == enc_u64(dec_u64(s).unwrap().0) + dec_u64(s).unwrap().1,
{
    lemma_enc_le_value(s.take(8));
}

/// Reading an encoded byte string gives the byte string back.
pub proof fn lemma_dec_enc_bytes(b: Seq<u8>, rest: Seq<u8>)
    requires
        b.len() <= u64::MAX,
    ensures
        dec_bytes(enc_bytes(b) + rest) == Some((b, rest)),
{
    lemma_dec_enc_u64(b.len() as u64, b + rest);
}

/// Whatever a byte string was read from is that byte string's encoding
/// followed by the rest.
pub proof fn lemma_enc_dec_bytes(s: Seq<u8>)
    requires
        dec_bytes(s) is Some,
    ensures
        dec_bytes(s).unwrap().0.len() <= u64::MAX,
        s == enc_bytes(dec_bytes(s).unwrap().0) + dec_bytes(s).unwrap().1,
{
    lemma_enc_dec_u64(s);
    let (n, rest) = dec_u64(s).unwrap();
    assert(rest =~= rest.take(n as int) + rest.skip(n as int));
}

/// Reading an encoded optional byte string gives it back.
pub proof fn lemma_dec_enc_opt(o: Option<Seq<u8>>, rest: Seq<u8>)
    requires
        o matches Some(b) ==> b.len() <= u64::MAX,
    ensures
        dec_opt(enc_opt(o) + rest) == Some((o, rest)),
{
    if let Some(b) = o {
        lemma_dec_enc_bytes(b, rest);
    }
}

/// Whatever an optional byte string was read from is its encoding followed
/// by the rest.
pub proof fn lemma_enc_dec_opt(s: Seq<u8>)
    requires
        dec_opt(s) is Some,
    ensures
        dec_opt(s).unwrap().0 matches Some(b) ==> b.len() <= u64::MAX,
        s == enc_opt(dec_opt(s).unwrap().0) + dec_opt(s).unwrap().1,
{
    if s[0] != 0 {
        lemma_enc_dec_bytes(s.skip(1));
    }
}

/// Appends the encoding of `x` to `out`.
pub(crate) fn put_u64(out: &mut Vec<u8>, x: u64)
    ensures
        final(out)@ == old(out)@ + enc_u64(x),
{
    out.push((x % 0x100) as u8);
    out.push((x / 0x100 % 0x100) as u8);
    out.push((x / 0x1_0000 % 0x100) as u8);
    out.push((x / 0x100_0000 % 0x100) as u8);
    out.push((x / 0x1_0000_0000 % 0x100) as u8);
    out.push((x / 0x100_0000_0000 % 0x100) as u8);
    out.push((x / 0x1_0000_0000_0000 % 0x100) as u8);
    out.push((x / 0x100_0000_0000_0000 % 0x100) as u8);
}

/// Appends the encoding of the byte string `b` to `out`.
pub(crate) fn put_bytes(out: &mut Vec<u8>, b: &Vec<u8>)
    ensures
        final(out)@ == old(out)@ + enc_bytes(b@),
{
    put_u64(out, b.len() as u64);
    let ghost mid = out@;
    let mut i: usize = 0;
    while i < b.len()
        invariant
            i <= b.len(),
            out@ == mid + b@.take(i as int),
        decreases b.len() - i,
    {
        out.push(b[i]);
        i += 1;
    }
}

/// The optional byte string that an optional reference stands for.
pub open spec fn opt_bytes(o: Option<&Vec<u8>>) -> Option<Seq<u8>> {
    match o {
        None => None,
        Some(b) => Some(b@),
    }
}

/// The optional byte string that an optional vector stands for.
pub open spec fn opt_seq(o: Option<Vec<u8>>) -> Option<Seq<u8>> {
    match o {
        None => None,
        Some(b) => Some(b@),
    }
}

/// Appends the encoding of the optional byte string `o` to `out`.
pub(crate) fn put_opt(out: &mut Vec<u8>, o: Option<&Vec<u8>>)
    ensures
        final(out)@ == old(out)@ + enc_opt(opt_bytes(o)),
{
    match o {
        None => {
            out.push(0u8);
        },
        Some(b) => {
            out.push(1u8);
            put_bytes(out, b);
        },
    }
}

/// Reads an integer at `pos`; gives the integer and the position after it.
pub(crate) fn take_u64(data: &Vec<u8>, pos: usize) -> (r: Option<(u64, usize)>)
    requires
        pos <= data.len(),
    ensures
        match r {
            Some((x, next)) => pos <= next <= data.len() && dec_u64(data@.skip(pos as int))
                == Some((x, data@.skip(next as int))),
            None => dec_u64(data@.skip(pos as int)) is None,
        },
{
    if data.len() - pos < 8 {
        return None;
    }
    let x: u64 = data[pos] as u64 + 0x100 * (data[pos + 1] as u64) + 0x1_0000 * (data[pos
        + 2] as u64) + 0x100_0000 * (data[pos + 3] as u64) + 0x1_0000_0000 * (data[pos + 4] as u64)
        + 0x100_0000_0000 * (data[pos + 5] as u64) + 0x1_0000_0000_0000 * (data[pos + 6] as u64)
        + 0x100_0000_0000_0000 * (data[pos + 7] as u64);
    Some((x, pos + 8))
}

/// Reads a byte string at `pos`; gives it and the position after it.
pub(crate) fn take_bytes(data: &Vec<u8>, pos: usize) -> (r: Option<(Vec<u8>, usize)>)
    requires
        pos <= data.len(),
    ensures
        match r {
            Some((b, next)) => pos <= next <= data.len() && dec_bytes(data@.skip(pos as int))
                == Some((b@, data@.skip(next as int))),
            None => dec_bytes(data@.skip(pos as int)) is None,
        },
{
    let (n, start) = match take_u64(data, pos) {
        Some(p) => p,
        None => { return None; },
    };
    if n > (data.len() - start) as u64 {
        return None;
    }
    let len = n as usize;
    let mut b: Vec<u8> = Vec::new();
    let mut i: usize = 0;
    while i < len
        invariant
            i <= len,
            start + len <= data.len(),
            b@ == data@.subrange(start as int, start + i),
        decreases len - i,
    {
        b.push(data[start + i]);
        assert(data@.subrange(start as int, start + i + 1) =~= data@.subrange(
            start as int,
            start + i,
        ).push(data@[start + i]));
        i += 1;
    }
    Some((b, start + len))
}

/// Reads an optional byte string at `pos`; gives it and the position after
/// it.
pub(crate) fn take_opt(data: &Vec<u8>, pos: usize) -> (r: Option<(Option<Vec<u8>>, usize)>)
    requires
        pos <= data.len(),
    ensures
        match r {
            Some((o, next)) => pos <= next <= data.len() && dec_opt(data@.skip(pos as int))
                == Some((opt_seq(o), data@.skip(next as int))),
            None => dec_opt(data@.skip(pos as int)) is None,
        },
{
    if pos == data.len() {
        return None;
    }
    let tag = data[pos];
    if tag == 0 {
        Some((None, pos + 1))
    } else if tag == 1 {
        match take_bytes(data, pos + 1) {
            Some((b, next)) => Some((Some(b), next)),
            None => None,
        }
    } else {
        None
    }
}

/// What decoding an integer from exactly `data` gives.
pub open spec fn u64_decoding(data: Seq<u8>) -> Result<u64, LedgerError> {
    match dec_u64(data) {
        Some((x, rest)) => if rest.len() == 0 {
            Ok(x)
        } else {
            Err(LedgerError::DecodeError)
        },
        None => Err(LedgerError::DecodeError),
    }
}

/// What decoding a byte string from exactly `data` gives.
pub open spec fn bytes_decoding(data: Seq<u8>) -> Result<Seq<u8>, LedgerError> {
    match dec_bytes(data) {
        Some((b, rest)) => if rest.len() == 0 {
            Ok(b)
        } else {
            Err(LedgerError::DecodeError)
        },
        None => Err(LedgerError::DecodeError),
    }
}

/// What decoding an optional byte string from exactly `data` gives.
pub open spec fn optional_decoding(data: Seq<u8>) -> Result<Option<Seq<u8>>, LedgerError> {
    match dec_opt(data) {
        Some((o, rest)) => if rest.len() == 0 {
            Ok(o)
        } else {
            Err(LedgerError::DecodeError)
        },
        None => Err(LedgerError::DecodeError),
    }
}

/// Bytes decode to an integer exactly when they are its encoding; so
/// decoding the encoding of an integer gives it back.
pub proof fn lemma_u64_decoding_exact(data: Seq<u8>, x: u64)
    ensures
        u64_decoding(data) == Ok::<u64, LedgerError>(x) <==> data == enc_u64(x),
        u64_decoding(enc_u64(x)) == Ok::<u64, LedgerError>(x),
{
    lemma_dec_enc_u64(x, Seq::empty());
    if dec_u64(data) is Some {
        lemma_enc_dec_u64(data);
    }
}

/// Bytes decode to a byte string exactly when they are its encoding; so
/// decoding the encoding of a byte string gives it back.
pub proof fn lemma_bytes_decoding_exact(data: Seq<u8>, b: Seq<u8>)
    ensures
        bytes_decoding(data) == Ok::<Seq<u8>, LedgerError>(b) <==> (b.len() <= u64::MAX && data
            == enc_bytes(b)),
        b.len() <= u64::MAX ==> bytes_decoding(enc_bytes(b)) == Ok::<Seq<u8>, LedgerError>(b),
{
    if b.len() <= u64::MAX {
        lemma_dec_enc_bytes(b, Seq::empty());
    }
    if dec_bytes(data) is Some {
        lemma_enc_dec_bytes(data);
    }
}

/// Bytes decode to an optional byte string exactly when they are its
/// encoding; so decoding the encoding of an optional byte string gives it
/// back.
pub proof fn lemma_optional_decoding_exact(data: Seq<u8>, o: Option<Seq<u8>>)
    ensures
        optional_decoding(data) == Ok::<Option<Seq<u8>>, LedgerError>(o) <==> ((o matches Some(b)
            ==> b.len() <= u64::MAX) && data == enc_opt(o)),
        (o matches Some(b) ==> b.len() <= u64::MAX) ==> optional_decoding(enc_opt(o)) == Ok::<
            Option<Seq<u8>>,
            LedgerError,
        >(o),
{
    if o matches Some(b) ==> b.len() <= u64::MAX {
        lemma_dec_enc_opt(o, Seq::empty());
    }
    if dec_opt(data) is Some {
        lemma_enc_dec_opt(data);
    }
}

/// Encodes an integer.
pub fn encode_u64(x: u64) -> (bytes: Vec<u8>)
    ensures
        bytes@ == enc_u64(x),
{
    let mut bytes: Vec<u8> = Vec::new();
    put_u64(&mut bytes, x);
    bytes
}

/// Decodes an integer; nothing may follow it.
pub fn decode_u64(data: &Vec<u8>) -> (r: Result<u64, LedgerError>)
    ensures
        r == u64_decoding(data@),
        r matches Ok(x) ==> data@ == enc_u64(x),
        forall|x: u64| data@ == #[trigger] enc_u64(x) ==> r == Ok::<u64, LedgerError>(x),
{
    proof {
        assert forall|x: u64| data@ == #[trigger] enc_u64(x) implies u64_decoding(data@) == Ok::<
            u64,
            LedgerError,
        >(x) by {
            lemma_u64_decoding_exact(data@, x);
        }
    }
    proof {
        assert(data@.skip(0) =~= data@);
    }
    match take_u64(data, 0) {
        Some((x, end)) => {
            if end == data.len() {
                proof {
                    lemma_u64_decoding_exact(data@, x);
                }
                Ok(x)
            } else {
                Err(LedgerError::DecodeError)
            }
        },
        None => Err(LedgerError::DecodeError),
    }
}

/// Encodes a byte string.
pub fn encode_bytes(b: &Vec<u8>) -> (bytes: Vec<u8>)
    ensures
        bytes@ == enc_bytes(b@),
        b@.len() <= u64::MAX,
{
    let mut bytes: Vec<u8> = Vec::new();
    put_bytes(&mut bytes, b);
    assert(b@.len() == b.len());
    bytes
}

/// Decodes a byte string; nothing may follow it.
pub fn decode_bytes(data: &Vec<u8>) -> (r: Result<Vec<u8>, LedgerError>)
    ensures
        match r {
            Ok(b) => bytes_decoding(data@) == Ok::<Seq<u8>, LedgerError>(b@) && data@ == enc_bytes(
                b@,
            ),
            Err(e) => bytes_decoding(data@) == Err::<Seq<u8>, LedgerError>(e),
        },
        forall|b: Seq<u8>|
            b.len() <= u64::MAX && data@ == #[trigger] enc_bytes(b) ==> (r matches Ok(bytes)
                && bytes@ == b),
{
    proof {
        assert forall|b: Seq<u8>|
            b.len() <= u64::MAX && data@ == #[trigger] enc_bytes(b) implies bytes_decoding(data@)
            == Ok::<Seq<u8>, LedgerError>(b) by {
            lemma_bytes_decoding_exact(data@, b);
        }
    }
    proof {
        assert(data@.skip(0) =~= data@);
    }
    match take_bytes(data, 0) {
        Some((b, end)) => {
            if end == data.len() {
                proof {
                    lemma_bytes_decoding_exact(data@, b@);
                }
                Ok(b)
            } else {
                Err(LedgerError::DecodeError)
            }
        },
        None => Err(LedgerError::DecodeError),
    }
}

/// Encodes an optional byte string, such as the identifier of a
/// predecessor.
pub fn encode_optional(o: Option<&Vec<u8>>) -> (bytes: Vec<u8>)
    ensures
        bytes@ == enc_opt(opt_bytes(o)),
        opt_bytes(o) matches Some(b) ==> b.len() <= u64::MAX,
{
    let mut bytes: Vec<u8> = Vec::new();
    put_opt(&mut bytes, o);
    if let Some(b) = o {
        assert(b@.len() == b.len());
    }
    bytes
}

/// Decodes an optional byte string; nothing may follow it.
pub fn decode_optional(data: &Vec<u8>) -> (r: Result<Option<Vec<u8>>, LedgerError>)
    ensures
        match r {
            Ok(o) => optional_decoding(data@) == Ok::<Option<Seq<u8>>, LedgerError>(opt_seq(o))
                && data@ == enc_opt(opt_seq(o)),
            Err(e) => optional_decoding(data@) == Err::<Option<Seq<u8>>, LedgerError>(e),
        },
        forall|o: Option<Seq<u8>>|
            (o matches Some(b) ==> b.len() <= u64::MAX) && data@ == #[trigger] enc_opt(o) ==> (
            r matches Ok(decoded) && opt_seq(decoded) == o),
{
    proof {
        assert forall|o: Option<Seq<u8>>|
            (o matches Some(b) ==> b.len() <= u64::MAX) && data@ == #[trigger] enc_opt(
                o,
            ) implies optional_decoding(data@) == Ok::<Option<Seq<u8>>, LedgerError>(o) by {
            lemma_optional_decoding_exact(data@, o);
        }
    }
    proof {
        assert(data@.skip(0) =~= data@);
    }
    match take_opt(data, 0) {
        Some((o, end)) => {
            if end == data.len() {
                proof {
                    lemma_optional_decoding_exact(data@, opt_seq(o));
                }
                Ok(o)
            } else {
                Err(LedgerError::DecodeError)
            }
        },
        None => Err(LedgerError::DecodeError),
    }
}

} // verus!
