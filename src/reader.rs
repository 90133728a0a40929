//! Big-endian primitive reads from an in-memory byte stream.
use vstd::prelude::*;
use vstd::string::{StrSliceExecFns, StringExecFns};
use vstd::utf8::{decode_utf8, valid_utf8};

verus! {

/// Why a stream could not be decoded.
#[derive(Debug, Clone, Copy, PartialEq, Eq, Structural)]
pub enum DecodeError {
    /// The stream ended before a read could be satisfied (a count that no
    /// stream can satisfy, such as a negative one, ends here too).
    Truncated,
    /// The leading magic number names no supported format variant.
    UnsupportedFormat,
}

/// A cursor over the bytes of one input stream.
pub struct Reader<'a> {
    pub data: &'a [u8],
    pub pos: usize,
}

impl<'a> Reader<'a> {
    pub open spec fn wf(&self) -> bool {
        self.pos <= self.data@.len() <= usize::MAX
    }

    /// Bytes not read yet.
    pub open spec fn remaining(&self) -> int {
        self.data@.len() - self.pos
    }

    pub fn new(data: &'a [u8]) -> (r: Reader<'a>)
        ensures
            r.wf(),
            r.pos == 0,
            r.data@ == data@,
    {
        let _ = data.len();
        Reader { data, pos: 0 }
    }
}

/// The 32-bit word stored big-endian at `s[i..i + 4]`.
pub open spec fn be_u32(s: Seq<u8>, i: int) -> u32 {
    ((s[i] as u32) << 24u32) | ((s[i + 1] as u32) << 16u32) | ((s[i + 2] as u32) << 8u32) | (s[i
        + 3] as u32)
}

/// The 16-bit word stored big-endian at `s[i..i + 2]`.
pub open spec fn be_u16(s: Seq<u8>, i: int) -> u16 {
    ((s[i] as u16) << 8u16) | (s[i + 1] as u16)
}

pub open spec fn be_i32(s: Seq<u8>, i: int) -> i32 {
    be_u32(s, i) as i32
}

/// `s` without its trailing NUL bytes.
pub open spec fn trim_nuls(s: Seq<u8>) -> Seq<u8>
    decreases s.len(),
{
    if s.len() > 0 && s.last() == 0u8 {
        trim_nuls(s.drop_last())
    } else {
        s
    }
}

/// What `String::from_utf8_lossy` makes of a byte sequence.
pub uninterp spec fn lossy_utf8(b: Seq<u8>) -> Seq<char>;

/// Relies on `String::from_utf8_lossy`: each invalid sequence becomes a
/// replacement character, and valid UTF-8 is decoded unchanged.
#[verifier::external_body]
fn text_from_bytes(b: &[u8]) -> (r: String)
    ensures
        r@ == lossy_utf8(b@),
        valid_utf8(b@) ==> r@ == decode_utf8(b@),
{
    String::from_utf8_lossy(b).into_owned()
}

fn be_word(data: &[u8], i: usize) -> (r: u32)
    requires
        i + 4 <= data@.len(),
    ensures
        r == be_u32(data@, i as int),
{
    ((data[i] as u32) << 24u32) | ((data[i + 1] as u32) << 16u32) | ((data[i + 2] as u32) << 8u32)
        | (data[i + 3] as u32)
}

/// Reads one big-endian `i32`.
pub fn read_i32(reader: &mut Reader) -> (r: Result<i32, DecodeError>)
    requires
        old(reader).wf(),
    ensures
        final(reader).wf(),
        final(reader).data == old(reader).data,
        r.is_ok() <==> old(reader).remaining() >= 4,
        r matches Ok(v) ==> v == be_i32(old(reader).data@, old(reader).pos as int)
            && final(reader).pos == old(reader).pos + 4,
        r.is_err() ==> final(reader).pos == old(reader).pos,
        r matches Err(e) ==> e == DecodeError::Truncated,
{
    if reader.data.len() - reader.pos < 4 {
        return Err(DecodeError::Truncated);
    }
    let v = be_word(reader.data, reader.pos) as i32;
    reader.pos = reader.pos + 4;
    Ok(v)
}

/// Reads the bit pattern of one big-endian IEEE-754 single.
pub fn read_f32_bits(reader: &mut Reader) -> (r: Result<u32, DecodeError>)
    requires
        old(reader).wf(),
    ensures
        final(reader).wf(),
        final(reader).data == old(reader).data,
        r.is_ok() <==> old(reader).remaining() >= 4,
        r matches Ok(v) ==> v == be_u32(old(reader).data@, old(reader).pos as int)
            && final(reader).pos == old(reader).pos + 4,
        r.is_err() ==> final(reader).pos == old(reader).pos,
        r matches Err(e) ==> e == DecodeError::Truncated,
{
    if reader.data.len() - reader.pos < 4 {
        return Err(DecodeError::Truncated);
    }
    let v = be_word(reader.data, reader.pos);
    reader.pos = reader.pos + 4;
    Ok(v)
}

/// Reads `count` big-endian `i32` values.
pub fn read_i32_vec(reader: &mut Reader, count: usize) -> (r: Result<Vec<i32>, DecodeError>)
    requires
        old(reader).wf(),
    ensures
        final(reader).wf(),
        final(reader).data == old(reader).data,
        r.is_ok() <==> old(reader).remaining() >= 4 * count,
        r matches Ok(v) ==> v@.len() == count && final(reader).pos == old(reader).pos + 4 * count
            && forall|k: int|
            0 <= k < count ==> #[trigger] v@[k] == be_i32(old(reader).data@, old(reader).pos + 4 * k),
        r.is_err() ==> final(reader).pos == old(reader).pos,
        r matches Err(e) ==> e == DecodeError::Truncated,
{
    if (reader.data.len() - reader.pos) / 4 < count {
        return Err(DecodeError::Truncated);
    }
    let start = reader.pos;
    let dlen = reader.data.len();
    let mut v: Vec<i32> = Vec::new();
    let mut k: usize = 0;
    while k < count
        invariant
            reader.wf(),
            reader.pos == start,
            reader.data == old(reader).data,
            start == old(reader).pos,
            dlen == reader.data@.len(),
            4 * count <= reader.remaining(),
            k <= count,
            v@.len() == k,
            forall|j: int| 0 <= j < k ==> #[trigger] v@[j] == be_i32(reader.data@, start + 4 * j),
        decreases count - k,
    {
        assert(4 * k + 4 <= 4 * count) by (nonlinear_arith)
            requires
                k < count,
        ;
        v.push(be_word(reader.data, start + 4 * k) as i32);
        k += 1;
    }
    reader.pos = start + 4 * count;
    Ok(v)
}

/// Reads the bit patterns of `count` big-endian IEEE-754 singles.
pub fn read_f32_bits_vec(reader: &mut Reader, count: usize) -> (r: Result<Vec<u32>, DecodeError>)
    requires
        old(reader).wf(),
    ensures
        final(reader).wf(),
        final(reader).data == old(reader).data,
        r.is_ok() <==> old(reader).remaining() >= 4 * count,
        r matches Ok(v) ==> v@.len() == count && final(reader).pos == old(reader).pos + 4 * count
            && forall|k: int|
            0 <= k < count ==> #[trigger] v@[k] == be_u32(old(reader).data@, old(reader).pos + 4 * k),
        r.is_err() ==> final(reader).pos == old(reader).pos,
        r matches Err(e) ==> e == DecodeError::Truncated,
{
    if (reader.data.len() - reader.pos) / 4 < count {
        return Err(DecodeError::Truncated);
    }
    let start = reader.pos;
    let dlen = reader.data.len();
    let mut v: Vec<u32> = Vec::new();
    let mut k: usize = 0;
    while k < count
        invariant
            reader.wf(),
            reader.pos == start,
            reader.data == old(reader).data,
            start == old(reader).pos,
            dlen == reader.data@.len(),
            4 * count <= reader.remaining(),
            k <= count,
            v@.len() == k,
            forall|j: int| 0 <= j < k ==> #[trigger] v@[j] == be_u32(reader.data@, start + 4 * j),
        decreases count - k,
    {
        assert(4 * k + 4 <= 4 * count) by (nonlinear_arith)
            requires
                k < count,
        ;
        v.push(be_word(reader.data, start + 4 * k));
        k += 1;
    }
    reader.pos = start + 4 * count;
    Ok(v)
}

/// Reads `count` big-endian `u16` values.
pub fn read_u16_vec(reader: &mut Reader, count: usize) -> (r: Result<Vec<u16>, DecodeError>)
    requires
        old(reader).wf(),
    ensures
        final(reader).wf(),
        final(reader).data == old(reader).data,
        r.is_ok() <==> old(reader).remaining() >= 2 * count,
        r matches Ok(v) ==> v@.len() == count && final(reader).pos == old(reader).pos + 2 * count
            && forall|k: int|
            0 <= k < count ==> #[trigger] v@[k] == be_u16(old(reader).data@, old(reader).pos + 2 * k),
        r.is_err() ==> final(reader).pos == old(reader).pos,
        r matches Err(e) ==> e == DecodeError::Truncated,
{
    if (reader.data.len() - reader.pos) / 2 < count {
        return Err(DecodeError::Truncated);
    }
    let start = reader.pos;
    let dlen = reader.data.len();
    let mut v: Vec<u16> = Vec::new();
    let mut k: usize = 0;
    while k < count
        invariant
            reader.wf(),
            reader.pos == start,
            reader.data == old(reader).data,
            start == old(reader).pos,
            dlen == reader.data@.len(),
            2 * count <= reader.remaining(),
            k <= count,
            v@.len() == k,
            forall|j: int| 0 <= j < k ==> #[trigger] v@[j] == be_u16(reader.data@, start + 2 * j),
        decreases count - k,
    {
        assert(2 * k + 2 <= 2 * count) by (nonlinear_arith)
            requires
                k < count,
        ;
        let i = start + 2 * k;
        v.push(((reader.data[i] as u16) << 8u16) | (reader.data[i + 1] as u16));
        k += 1;
    }
    reader.pos = start + 2 * count;
    Ok(v)
}

/// Reads `count` raw bytes.
pub fn read_bytes(reader: &mut Reader, count: usize) -> (r: Result<Vec<u8>, DecodeError>)
    requires
        old(reader).wf(),
    ensures
        final(reader).wf(),
        final(reader).data == old(reader).data,
        r.is_ok() <==> old(reader).remaining() >= count,
        r matches Ok(v) ==> v@ == old(reader).data@.subrange(
            old(reader).pos as int,
            old(reader).pos + count,
        ) && final(reader).pos == old(reader).pos + count,
        r.is_err() ==> final(reader).pos == old(reader).pos,
        r matches Err(e) ==> e == DecodeError::Truncated,
{
    if reader.data.len() - reader.pos < count {
        return Err(DecodeError::Truncated);
    }
    let start = reader.pos;
    let dlen = reader.data.len();
    let mut v: Vec<u8> = Vec::new();
    let mut k: usize = 0;
    while k < count
        invariant
            reader.wf(),
            reader.pos == start,
            reader.data == old(reader).data,
            start == old(reader).pos,
            dlen == reader.data@.len(),
            count <= reader.remaining(),
            k <= count,
            v@ == reader.data@.subrange(start as int, start + k),
        decreases count - k,
    {
        v.push(reader.data[start + k]);
        k += 1;
        assert(v@ =~= reader.data@.subrange(start as int, start + k));
    }
    reader.pos = start + count;
    Ok(v)
}

/// Reads a fixed-width text field of `count` bytes: trailing NUL padding is
/// dropped and the rest decoded permissively.
pub fn read_text(reader: &mut Reader, count: usize) -> (r: Result<String, DecodeError>)
    requires
        old(reader).wf(),
    ensures
        final(reader).wf(),
        final(reader).data == old(reader).data,
        r.is_ok() <==> old(reader).remaining() >= count,
        r matches Ok(t) ==> t@ == lossy_utf8(
            trim_nuls(old(reader).data@.subrange(old(reader).pos as int, old(reader).pos + count)),
        ) && final(reader).pos == old(reader).pos + count,
        r.is_err() ==> final(reader).pos == old(reader).pos,
        r matches Err(e) ==> e == DecodeError::Truncated,
{
    let mut buf = read_bytes(reader, count)?;
    while buf.len() > 0 && buf[buf.len() - 1] == 0u8
        invariant
            trim_nuls(buf@) == trim_nuls(
                old(reader).data@.subrange(old(reader).pos as int, old(reader).pos + count),
            ),
        decreases buf@.len(),
    {
        buf.pop();
    }
    Ok(text_from_bytes(buf.as_slice()))
}

/// The characters of `s` with each space turned into an underscore.
pub open spec fn underscored(s: Seq<char>) -> Seq<char> {
    s.map_values(|c: char| if c == ' ' { '_' } else { c })
}

/// Replaces every space of a field name with an underscore (the output
/// format allows no whitespace in a name).
pub fn replace_underscore(s: &str) -> (r: String)
    ensures
        r@ == underscored(s@),
{
    let n = s.unicode_len();
    let mut r = String::new();
    let mut i: usize = 0;
    while i < n
        invariant
            n == s@.len(),
            i <= n,
            r@ == underscored(s@.subrange(0, i as int)),
        decreases n - i,
    {
        proof {
            reveal_strlit("_");
        }
        let c = s.get_char(i);
        if c == ' ' {
            r.append("_");
        } else {
            let one = s.substring_char(i, i + 1);
            r.append(one);
        }
        i += 1;
        assert(r@ =~= underscored(s@.subrange(0, i as int)));
    }
    assert(s@.subrange(0, n as int) =~= s@);
    r
}

} // verus!
