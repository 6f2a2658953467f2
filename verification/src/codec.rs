//! Wire-format primitives: big-endian integers and length-prefixed byte
//! strings, with spec-level encoders and decoders used by the contracts of
//! the persisted-state encoding.

use vstd::prelude::*;

verus! {

/// Errors of the persisted-state codec.
#[derive(Debug, PartialEq)]
pub enum CodecError {
    /// The input bytes do not hold a well-formed encoding.
    DecodingError,
    /// A field is too large for its length prefix.
    EncodingError,
}

/// Big-endian encoding of a `u32`, four bytes.
pub open spec fn be32(x: u32) -> Seq<u8> {
    seq![
        ((x as int) / 0x1000000) as u8,
        (((x as int) / 0x10000) % 0x100) as u8,
        (((x as int) / 0x100) % 0x100) as u8,
        ((x as int) % 0x100) as u8,
    ]
}

/// Big-endian encoding of a `u16`, two bytes.
pub open spec fn be16(x: u16) -> Seq<u8> {
    seq![((x as int) / 0x100) as u8, ((x as int) % 0x100) as u8]
}

/// A byte string with a one-byte length prefix. Canonical only when
/// `s.len() <= 255`.
pub open spec fn enc_secret(s: Seq<u8>) -> Seq<u8> {
    seq![s.len() as u8] + s
}

/// Decodes one byte at `pos`; returns the byte and the next position.
pub open spec fn dec_u8(b: Seq<u8>, pos: int) -> Option<(u8, int)> {
    if 0 <= pos && pos + 1 <= b.len() {
        Some((b[pos], pos + 1))
    } else {
        None
    }
}

/// Decodes a big-endian `u16` at `pos`.
pub open spec fn dec_u16(b: Seq<u8>, pos: int) -> Option<(u16, int)> {
    if 0 <= pos && pos + 2 <= b.len() {
        Some((((b[pos] as int) * 0x100 + (b[pos + 1] as int)) as u16, pos + 2))
    } else {
        None
    }
}

/// Decodes a big-endian `u32` at `pos`.
pub open spec fn dec_u32(b: Seq<u8>, pos: int) -> Option<(u32, int)> {
    if 0 <= pos && pos + 4 <= b.len() {
        Some(
            ((
            (b[pos] as int) * 0x1000000 + (b[pos + 1] as int) * 0x10000 + (b[pos + 2] as int)
                * 0x100 + (b[pos + 3] as int)) as u32, pos + 4),
        )
    } else {
        None
    }
}

/// Decodes a byte string with a one-byte length prefix at `pos`.
pub open spec fn dec_secret(b: Seq<u8>, pos: int) -> Option<(Seq<u8>, int)> {
    match dec_u8(b, pos) {
        Some((n, p1)) => if p1 + (n as int) <= b.len() {
            Some((b.subrange(p1, p1 + (n as int)), p1 + (n as int)))
        } else {
            None
        },
        None => None,
    }
}

/// Appends the big-endian bytes of `x`.
pub fn encode_u32(x: u32, buffer: &mut Vec<u8>)
    ensures
        final(buffer)@ == old(buffer)@ + be32(x),
{
    buffer.push((x / 0x1000000) as u8);
    buffer.push(((x / 0x10000) % 0x100) as u8);
    buffer.push(((x / 0x100) % 0x100) as u8);
    buffer.push((x % 0x100) as u8);
    assert(buffer@ =~= old(buffer)@ + be32(x));
}

/// Appends the big-endian bytes of `x`.
pub fn encode_u16(x: u16, buffer: &mut Vec<u8>)
    ensures
        final(buffer)@ == old(buffer)@ + be16(x),
{
    buffer.push((x / 0x100) as u8);
    buffer.push((x % 0x100) as u8);
    assert(buffer@ =~= old(buffer)@ + be16(x));
}

/// Appends one byte.
pub fn encode_u8(x: u8, buffer: &mut Vec<u8>)
    ensures
        final(buffer)@ == old(buffer)@ + seq![x],
{
    buffer.push(x);
    assert(buffer@ =~= old(buffer)@ + seq![x]);
}

/// Appends `s` with a one-byte length prefix; rejects strings the prefix
/// cannot describe.
pub fn encode_secret(s: &Vec<u8>, buffer: &mut Vec<u8>) -> (r: Result<(), CodecError>)
    ensures
        match r {
            Ok(()) => s@.len() <= 255 && final(buffer)@ == old(buffer)@ + enc_secret(s@),
            Err(e) => s@.len() > 255 && e == CodecError::EncodingError && final(buffer)@ == old(
                buffer,
            )@,
        },
{
    if s.len() > 255 {
        return Err(CodecError::EncodingError);
    }
    buffer.push(s.len() as u8);
    let mut i: usize = 0;
    while i < s.len()
        invariant
            i <= s@.len() <= 255,
            buffer@ == old(buffer)@ + seq![s@.len() as u8] + s@.subrange(0, i as int),
        decreases s@.len() - i,
    {
        buffer.push(s[i]);
        assert(buffer@ =~= old(buffer)@ + seq![s@.len() as u8] + s@.subrange(0, i + 1 as int));
        i += 1;
    }
    assert(buffer@ =~= old(buffer)@ + enc_secret(s@));
    Ok(())
}

/// Reads one byte at `pos`.
pub fn decode_u8(bytes: &[u8], pos: usize) -> (r: Result<(u8, usize), CodecError>)
    ensures
        match r {
            Ok((x, p2)) => dec_u8(bytes@, pos as int) == Some((x, p2 as int)) && p2 <= bytes@.len(),
            Err(e) => dec_u8(bytes@, pos as int) is None && e == CodecError::DecodingError,
        },
{
    if pos >= bytes.len() {
        return Err(CodecError::DecodingError);
    }
    Ok((bytes[pos], pos + 1))
}

/// Reads a big-endian `u16` at `pos`.
pub fn decode_u16(bytes: &[u8], pos: usize) -> (r: Result<(u16, usize), CodecError>)
    ensures
        match r {
            Ok((x, p2)) => dec_u16(bytes@, pos as int) == Some((x, p2 as int)) && p2
                <= bytes@.len(),
            Err(e) => dec_u16(bytes@, pos as int) is None && e == CodecError::DecodingError,
        },
{
    if bytes.len() < 2 || pos > bytes.len() - 2 {
        return Err(CodecError::DecodingError);
    }
    let x: u16 = (bytes[pos] as u16) * 0x100 + (bytes[pos + 1] as u16);
    Ok((x, pos + 2))
}

/// Reads a big-endian `u32` at `pos`.
pub fn decode_u32(bytes: &[u8], pos: usize) -> (r: Result<(u32, usize), CodecError>)
    ensures
        match r {
            Ok((x, p2)) => dec_u32(bytes@, pos as int) == Some((x, p2 as int)) && p2
                <= bytes@.len(),
            Err(e) => dec_u32(bytes@, pos as int) is None && e == CodecError::DecodingError,
        },
{
    if bytes.len() < 4 || pos > bytes.len() - 4 {
        return Err(CodecError::DecodingError);
    }
    let x: u32 = (bytes[pos] as u32) * 0x1000000 + (bytes[pos + 1] as u32) * 0x10000 + (bytes[pos
        + 2] as u32) * 0x100 + (bytes[pos + 3] as u32);
    Ok((x, pos + 4))
}

/// Reads a byte string with a one-byte length prefix at `pos`.
pub fn decode_secret(bytes: &[u8], pos: usize) -> (r: Result<(Vec<u8>, usize), CodecError>)
    ensures
        match r {
            Ok((s, p2)) => dec_secret(bytes@, pos as int) == Some((s@, p2 as int)) && p2
                <= bytes@.len(),
            Err(e) => dec_secret(bytes@, pos as int) is None && e == CodecError::DecodingError,
        },
{
    let (n, p1) = match decode_u8(bytes, pos) {
        Ok(v) => v,
        Err(e) => {
            return Err(e);
        },
    };
    let n = n as usize;
    if n > bytes.len() - p1 {
        return Err(CodecError::DecodingError);
    }
    let mut s: Vec<u8> = Vec::new();
    let mut i: usize = 0;
    while i < n
        invariant
            i <= n,
            p1 + n <= bytes@.len() <= usize::MAX,
            s@ == bytes@.subrange(p1 as int, p1 + i as int),
        decreases n - i,
    {
        s.push(bytes[p1 + i]);
        assert(s@ =~= bytes@.subrange(p1 as int, p1 + (i + 1) as int));
        i += 1;
    }
    Ok((s, p1 + n))
}

/// Concatenation of a list of byte strings.
pub open spec fn concat_bytes(items: Seq<Seq<u8>>) -> Seq<u8>
    decreases items.len(),
{
    if items.len() == 0 {
        Seq::empty()
    } else {
        items[0] + concat_bytes(items.drop_first())
    }
}

/// Concatenating one more item extends the bytes by that item.
pub proof fn lemma_concat_bytes_snoc(items: Seq<Seq<u8>>, i: int)
    requires
        0 <= i < items.len(),
    ensures
        concat_bytes(items.take(i + 1)) == concat_bytes(items.take(i)) + items[i],
    decreases i,
{
    if i == 0 {
        assert(items.take(0) =~= Seq::<Seq<u8>>::empty());
        assert(items.take(1).len() == 1);
        assert(items.take(1)[0] == items[0]);
        assert(items.take(1).drop_first() =~= Seq::<Seq<u8>>::empty());
        assert(concat_bytes(Seq::<Seq<u8>>::empty()) == Seq::<u8>::empty());
        assert(concat_bytes(items.take(1)) == items[0] + Seq::<u8>::empty());
        assert(items[0] + Seq::<u8>::empty() =~= items[0]);
        assert(Seq::<u8>::empty() + items[0] =~= items[0]);
    } else {
        lemma_concat_bytes_snoc(items.drop_first(), i - 1);
        assert(items.take(i + 1).drop_first() =~= items.drop_first().take(i));
        assert(items.take(i).drop_first() =~= items.drop_first().take(i - 1));
        assert(items.drop_first()[i - 1] == items[i]);
        assert(items.take(i + 1)[0] == items[0]);
        assert(items.take(i)[0] == items[0]);
        assert(concat_bytes(items.take(i + 1)) == items[0] + concat_bytes(
            items.drop_first().take(i),
        ));
        assert(items[0] + (concat_bytes(items.drop_first().take(i - 1)) + items[i]) =~= (items[0]
            + concat_bytes(items.drop_first().take(i - 1))) + items[i]);
        assert(concat_bytes(items.take(i)) == items[0] + concat_bytes(
            items.drop_first().take(i - 1),
        ));
    }
}

/// A slice known to hold `x + y` splits into a slice holding `x` and one
/// holding `y`.
pub proof fn lemma_split_concat(b: Seq<u8>, pos: int, x: Seq<u8>, y: Seq<u8>)
    requires
        0 <= pos,
        pos + x.len() + y.len() <= b.len(),
        b.subrange(pos, pos + x.len() + y.len()) == x + y,
    ensures
        b.subrange(pos, pos + x.len()) == x,
        b.subrange(pos + x.len(), pos + x.len() + y.len()) == y,
{
    let whole = b.subrange(pos, pos + x.len() + y.len());
    assert(b.subrange(pos, pos + x.len()) =~= x) by {
        assert forall|i: int| 0 <= i < x.len() implies b.subrange(pos, pos + x.len())[i]
            == x[i] by {
            assert(whole[i] == b[pos + i]);
            assert((x + y)[i] == x[i]);
        }
    }
    assert(b.subrange(pos + x.len(), pos + x.len() + y.len()) =~= y) by {
        assert forall|i: int| 0 <= i < y.len() implies b.subrange(
            pos + x.len(),
            pos + x.len() + y.len(),
        )[i] == y[i] by {
            assert(whole[x.len() + i] == b[pos + x.len() + i]);
            assert((x + y)[x.len() + i] == y[i]);
        }
    }
}

/// Decoding inverts encoding for a big-endian `u32` embedded at `pos`.
pub proof fn lemma_dec_be32(b: Seq<u8>, pos: int, x: u32)
    requires
        0 <= pos,
        pos + 4 <= b.len(),
        b.subrange(pos, pos + 4) == be32(x),
    ensures
        dec_u32(b, pos) == Some((x, pos + 4)),
{
    assert(b[pos] == be32(x)[0] && b[pos + 1] == be32(x)[1] && b[pos + 2] == be32(x)[2] && b[pos
        + 3] == be32(x)[3]) by {
        assert(b.subrange(pos, pos + 4)[0] == b[pos]);
        assert(b.subrange(pos, pos + 4)[1] == b[pos + 1]);
        assert(b.subrange(pos, pos + 4)[2] == b[pos + 2]);
        assert(b.subrange(pos, pos + 4)[3] == b[pos + 3]);
    }
    assert(((x / 0x1000000) as u8 as int) * 0x1000000 + (((x / 0x10000) % 0x100) as u8 as int)
        * 0x10000 + (((x / 0x100) % 0x100) as u8 as int) * 0x100 + ((x % 0x100) as u8 as int)
        == x) by (bit_vector);
}

/// Decoding inverts encoding for a big-endian `u16` embedded at `pos`.
pub proof fn lemma_dec_be16(b: Seq<u8>, pos: int, x: u16)
    requires
        0 <= pos,
        pos + 2 <= b.len(),
        b.subrange(pos, pos + 2) == be16(x),
    ensures
        dec_u16(b, pos) == Some((x, pos + 2)),
{
    assert(b[pos] == be16(x)[0] && b[pos + 1] == be16(x)[1]) by {
        assert(b.subrange(pos, pos + 2)[0] == b[pos]);
        assert(b.subrange(pos, pos + 2)[1] == b[pos + 1]);
    }
    assert(((x / 0x100) as u8 as int) * 0x100 + ((x % 0x100) as u8 as int) == x) by (bit_vector);
}

/// Decoding inverts encoding for a length-prefixed byte string embedded at
/// `pos`.
pub proof fn lemma_dec_secret(b: Seq<u8>, pos: int, s: Seq<u8>)
    requires
        0 <= pos,
        s.len() <= 255,
        pos + 1 + s.len() <= b.len(),
        b.subrange(pos, pos + 1 + s.len()) == enc_secret(s),
    ensures
        dec_secret(b, pos) == Some((s, pos + 1 + s.len())),
{
    assert(b[pos] == enc_secret(s)[0]) by {
        assert(b.subrange(pos, pos + 1 + s.len())[0] == b[pos]);
    }
    assert(b[pos] == s.len() as u8);
    assert(b[pos] as int == s.len());
    assert(b.subrange(pos + 1, pos + 1 + s.len()) =~= s) by {
        assert forall|i: int| 0 <= i < s.len() implies b.subrange(pos + 1, pos + 1 + s.len())[i]
            == s[i] by {
            assert(b.subrange(pos, pos + 1 + s.len())[i + 1] == b[pos + 1 + i]);
            assert(enc_secret(s)[i + 1] == s[i]);
        }
    }
}

} // verus!
