use vstd::prelude::*;

verus! {

/// The four big-endian bytes of a 32-bit word.
pub open spec fn be32(x: u32) -> Seq<u8> {
    seq![
        ((x >> 24) & 0xff) as u8,
        ((x >> 16) & 0xff) as u8,
        ((x >> 8) & 0xff) as u8,
        (x & 0xff) as u8,
    ]
}

/// The word spelled by four big-endian bytes starting at `i`.
pub open spec fn read_be32(b: Seq<u8>, i: int) -> u32 {
    ((b[i] as u32) << 24) | ((b[i + 1] as u32) << 16) | ((b[i + 2] as u32) << 8) | (b[i + 3] as u32)
}

/// The two big-endian bytes of a 16-bit value.
pub open spec fn be16(x: u16) -> Seq<u8> {
    seq![((x >> 8) & 0xff) as u8, (x & 0xff) as u8]
}

/// The 16-bit value spelled by two big-endian bytes starting at `i`.
pub open spec fn read_be16(b: Seq<u8>, i: int) -> u16 {
    ((b[i] as u16) << 8) | (b[i + 1] as u16)
}

/// Reading back the four bytes of a word yields the word.
pub proof fn lemma_read_of_be32(b: Seq<u8>, i: int, x: u32)
    requires
        0 <= i,
        i + 4 <= b.len(),
        b[i] == be32(x)[0],
        b[i + 1] == be32(x)[1],
        b[i + 2] == be32(x)[2],
        b[i + 3] == be32(x)[3],
    ensures
        read_be32(b, i) == x,
{
    assert(((((x >> 24) & 0xff) as u8 as u32) << 24) | ((((x >> 16) & 0xff) as u8 as u32) << 16)
        | ((((x >> 8) & 0xff) as u8 as u32) << 8) | ((x & 0xff) as u8 as u32) == x) by (bit_vector);
}

/// Any four bytes are exactly the encoding of the word they spell.
pub proof fn lemma_be32_of_read(b: Seq<u8>, i: int)
    requires
        0 <= i,
        i + 4 <= b.len(),
    ensures
        be32(read_be32(b, i)) =~= b.subrange(i, i + 4),
{
    let b0 = b[i];
    let b1 = b[i + 1];
    let b2 = b[i + 2];
    let b3 = b[i + 3];
    let x = read_be32(b, i);
    assert(((x >> 24) & 0xff) as u8 == b0 && ((x >> 16) & 0xff) as u8 == b1 && ((x >> 8) & 0xff)
        as u8 == b2 && (x & 0xff) as u8 == b3) by (bit_vector)
        requires
            x == ((b0 as u32) << 24) | ((b1 as u32) << 16) | ((b2 as u32) << 8) | (b3 as u32),
    ;
}

/// Reading back the two bytes of a 16-bit value yields the value.
pub proof fn lemma_read_of_be16(b: Seq<u8>, i: int, x: u16)
    requires
        0 <= i,
        i + 2 <= b.len(),
        b[i] == be16(x)[0],
        b[i + 1] == be16(x)[1],
    ensures
        read_be16(b, i) == x,
{
    assert(((((x >> 8) & 0xff) as u8 as u16) << 8) | ((x & 0xff) as u8 as u16) == x)
        by (bit_vector);
}

/// Any two bytes are exactly the encoding of the 16-bit value they spell.
pub proof fn lemma_be16_of_read(b: Seq<u8>, i: int)
    requires
        0 <= i,
        i + 2 <= b.len(),
    ensures
        be16(read_be16(b, i)) =~= b.subrange(i, i + 2),
{
    let b0 = b[i];
    let b1 = b[i + 1];
    let x = read_be16(b, i);
    assert(((x >> 8) & 0xff) as u8 == b0 && (x & 0xff) as u8 == b1) by (bit_vector)
        requires
            x == ((b0 as u16) << 8) | (b1 as u16),
    ;
}

/// Appends a word in big-endian order.
pub fn push_be32(out: &mut Vec<u8>, x: u32)
    ensures
        final(out)@ == old(out)@ + be32(x),
{
    out.push(((x >> 24) & 0xff) as u8);
    out.push(((x >> 16) & 0xff) as u8);
    out.push(((x >> 8) & 0xff) as u8);
    out.push((x & 0xff) as u8);
    proof {
        assert(out@ =~= old(out)@ + be32(x));
    }
}

/// Appends a 16-bit value in big-endian order.
pub fn push_be16(out: &mut Vec<u8>, x: u16)
    ensures
        final(out)@ == old(out)@ + be16(x),
{
    out.push(((x >> 8) & 0xff) as u8);
    out.push((x & 0xff) as u8);
    proof {
        assert(out@ =~= old(out)@ + be16(x));
    }
}

/// Appends a whole byte run.
pub fn push_bytes(out: &mut Vec<u8>, src: &Vec<u8>)
    ensures
        final(out)@ == old(out)@ + src@,
{
    let mut j: usize = 0;
    while j < src.len()
        invariant
            j <= src@.len(),
            out@ =~= old(out)@ + src@.take(j as int),
        decreases src@.len() - j,
    {
        out.push(src[j]);
        j = j + 1;
        proof {
            assert(out@ =~= old(out)@ + src@.take(j as int));
        }
    }
    proof {
        assert(src@.take(src@.len() as int) =~= src@);
        assert(out@ =~= old(out)@ + src@);
    }
}

/// Reads the word at `i` of a buffer known to be long enough.
pub fn get_be32(b: &Vec<u8>, i: usize) -> (x: u32)
    requires
        i + 4 <= b@.len(),
    ensures
        x == read_be32(b@, i as int),
{
    let n = b.len();
    assert(i + 4 <= n);
    ((b[i] as u32) << 24) | ((b[i + 1] as u32) << 16) | ((b[i + 2] as u32) << 8) | (b[i + 3] as u32)
}

/// True exactly when two byte runs hold the same bytes.
pub fn bytes_eq(a: &Vec<u8>, b: &Vec<u8>) -> (r: bool)
    ensures
        r <==> a@ == b@,
{
    if a.len() != b.len() {
        return false;
    }
    let n = a.len();
    let mut j: usize = 0;
    while j < n
        invariant
            n == a@.len() == b@.len(),
            j <= n,
            forall|k: int| 0 <= k < j ==> a@[k] == b@[k],
        decreases n - j,
    {
        if a[j] != b[j] {
            return false;
        }
        j = j + 1;
    }
    proof {
        assert(a@ =~= b@);
    }
    true
}

/// Why a buffer was rejected as malformed input; decode aborts on the first
/// such finding and never partially populates a module.
#[derive(Clone, Copy, PartialEq, Eq, Structural, Debug)]
pub enum DecodeError {
    /// Fewer bytes remain than the field at `offset` needs.
    Truncated { offset: usize },
    /// The leading magic word was `found`, not the format's own.
    BadMagic { found: u32 },
    /// The field at `offset` holds `found`, not a value the format admits.
    BadValue { offset: usize, found: u32 },
    /// The field at `offset` names entry `index` of a table holding `limit` entries.
    BadIndex { offset: usize, index: u32, limit: u32 },
    /// The entity whose field sits at `offset` reaches outside its owning
    /// section's bytes.
    OutOfBounds { offset: usize },
    /// Bytes continue past the end of the encoded module.
    Trailing { offset: usize },
}

/// Reads the word at `pos`, or reports exactly where the buffer ran short.
pub fn take_be32(b: &Vec<u8>, pos: usize) -> (res: Result<(u32, usize), DecodeError>)
    requires
        pos <= b@.len(),
    ensures
        match res {
            Result::Ok(r) => {
                &&& pos + 4 <= b@.len()
                &&& r.1 == pos + 4
                &&& r.0 == read_be32(b@, pos as int)
                &&& be32(r.0) =~= b@.subrange(pos as int, pos + 4)
            },
            Result::Err(e) => pos + 4 > b@.len() && e == (DecodeError::Truncated { offset: pos }),
        },
{
    if b.len() - pos < 4 {
        return Err(DecodeError::Truncated { offset: pos });
    }
    let x = ((b[pos] as u32) << 24) | ((b[pos + 1] as u32) << 16) | ((b[pos + 2] as u32) << 8) | (
    b[pos + 3] as u32);
    proof {
        lemma_be32_of_read(b@, pos as int);
    }
    Ok((x, pos + 4))
}

/// Reads the 16-bit value at `pos`, or reports where the buffer ran short.
pub fn take_be16(b: &Vec<u8>, pos: usize) -> (res: Result<(u16, usize), DecodeError>)
    requires
        pos <= b@.len(),
    ensures
        match res {
            Result::Ok(r) => {
                &&& pos + 2 <= b@.len()
                &&& r.1 == pos + 2
                &&& r.0 == read_be16(b@, pos as int)
                &&& be16(r.0) =~= b@.subrange(pos as int, pos + 2)
            },
            Result::Err(e) => pos + 2 > b@.len() && e == (DecodeError::Truncated { offset: pos }),
        },
{
    if b.len() - pos < 2 {
        return Err(DecodeError::Truncated { offset: pos });
    }
    let x = ((b[pos] as u16) << 8) | (b[pos + 1] as u16);
    proof {
        lemma_be16_of_read(b@, pos as int);
    }
    Ok((x, pos + 2))
}

/// Copies `n` bytes starting at `pos`, or reports where the buffer ran short.
pub fn take_bytes(b: &Vec<u8>, pos: usize, n: usize) -> (res: Result<
    (Vec<u8>, usize),
    DecodeError,
>)
    requires
        pos <= b@.len(),
    ensures
        match res {
            Result::Ok(r) => {
                &&& pos + n <= b@.len()
                &&& r.1 == pos + n
                &&& r.0@ == b@.subrange(pos as int, pos + n)
            },
            Result::Err(e) => pos + n > b@.len() && e == (DecodeError::Truncated { offset: pos }),
        },
{
    if b.len() - pos < n {
        return Err(DecodeError::Truncated { offset: pos });
    }
    let mut v: Vec<u8> = Vec::new();
    let mut j: usize = 0;
    while j < n
        invariant
            j <= n,
            pos + n <= b@.len(),
            b@.len() <= usize::MAX,
            v@ =~= b@.subrange(pos as int, pos + j),
        decreases n - j,
    {
        v.push(b[pos + j]);
        j = j + 1;
        proof {
            assert(v@ =~= b@.subrange(pos as int, pos + j));
        }
    }
    proof {
        assert(v@ =~= b@.subrange(pos as int, pos + n));
    }
    Ok((v, pos + n))
}

} // verus!
