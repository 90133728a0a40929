//! Buffered writer for the legacy unstructured-grid format, in binary or
//! ASCII form.  Batched writes collect in a scratch buffer that is moved to
//! the output once it passes a threshold, or on `flush_scratch`.
//!
//! The writer keeps its output in memory; the caller takes it out with
//! `take_output` and hands it to the sink.  Floating-point text is formatted
//! by the caller and written as bytes.
use vstd::prelude::*;
use vstd::string::StringSliceAdditionalSpecFns;
use crate::numfmt::{
    dec_digits, dec_signed, lemma_decimal_round_trip, lemma_dec_digits_shape, parse_signed,
    push_u64_text, write_i32_fast,
};
use crate::reader::be_i32;

verus! {

/// Size at which batched bytes are moved from the scratch buffer to the
/// output.
pub const FLUSH_THRESHOLD: usize = 65536;

/// The four bytes of `w`, most significant first.
pub open spec fn be_bytes(w: u32) -> Seq<u8> {
    seq![(w >> 24u32) as u8, (w >> 16u32) as u8, (w >> 8u32) as u8, w as u8]
}

/// The eight bytes of `w`, most significant first.
pub open spec fn be_bytes64(w: u64) -> Seq<u8> {
    be_bytes((w >> 32u64) as u32) + be_bytes(w as u32)
}

/// The concatenation of the big-endian bytes of each word.
pub open spec fn be_words(s: Seq<u32>) -> Seq<u8>
    decreases s.len(),
{
    if s.len() == 0 {
        Seq::empty()
    } else {
        be_words(s.drop_last()) + be_bytes(s.last())
    }
}

/// How one `i32` is written: four big-endian bytes in binary mode, decimal
/// text and a newline in ASCII mode.
pub open spec fn i32_item(binary: bool, v: i32) -> Seq<u8> {
    if binary {
        be_bytes(v as u32)
    } else {
        dec_signed(v as int).push(10u8)
    }
}

/// How a sequence of `i32` is written: each value as `i32_item`.
pub open spec fn i32_items(binary: bool, s: Seq<i32>) -> Seq<u8>
    decreases s.len(),
{
    if s.len() == 0 {
        Seq::empty()
    } else {
        i32_items(binary, s.drop_last()) + i32_item(binary, s.last())
    }
}

/// The values of `s` as decimal text separated by single spaces.
pub open spec fn spaced_i32(s: Seq<i32>) -> Seq<u8>
    decreases s.len(),
{
    if s.len() == 0 {
        Seq::empty()
    } else if s.len() == 1 {
        dec_signed(s[0] as int)
    } else {
        spaced_i32(s.drop_last()).push(32u8) + dec_signed(s.last() as int)
    }
}

/// `s` repeated `n` times.
pub open spec fn repeat(s: Seq<u8>, n: nat) -> Seq<u8>
    decreases n,
{
    if n == 0 {
        Seq::empty()
    } else {
        repeat(s, (n - 1) as nat) + s
    }
}

/// The concatenated UTF-8 bytes of a sequence of text fragments.
pub open spec fn concat_bytes(parts: Seq<&str>) -> Seq<u8>
    decreases parts.len(),
{
    if parts.len() == 0 {
        Seq::empty()
    } else {
        concat_bytes(parts.drop_last()) + parts.last().spec_bytes()
    }
}

pub open spec fn zero_line() -> Seq<u8> {
    seq![48u8, 10u8]
}

pub open spec fn zero_row() -> Seq<u8> {
    seq![48u8, 32u8, 48u8, 32u8, 48u8, 10u8]
}

/// How `count` zero floats are written: zero bytes in binary mode (0.0 is
/// all zero bits), a line `0` each in ASCII mode.
pub open spec fn zeros_f32(binary: bool, count: nat) -> Seq<u8> {
    if binary {
        Seq::new(4 * count, |i: int| 0u8)
    } else {
        repeat(zero_line(), count)
    }
}

/// How a zero 3x3 tensor is written: nine zero floats, in three rows of
/// three in ASCII mode.
pub open spec fn zero_tensor(binary: bool) -> Seq<u8> {
    if binary {
        Seq::new(36, |i: int| 0u8)
    } else {
        repeat(zero_row(), 3)
    }
}

/// Appends the decimal text of `val`.
fn push_i32_text(v: &mut Vec<u8>, val: i32)
    ensures
        final(v)@ == old(v)@ + dec_signed(val as int),
{
    let mut buf: Vec<u8> = vec![0u8; 11];
    let n = {
        let s = buf.as_mut_slice();
        write_i32_fast(s, val)
    };
    let mut i: usize = 0;
    while i < n
        invariant
            n == dec_signed(val as int).len(),
            buf@.len() == 11,
            n <= 11,
            buf@.subrange(0, n as int) == dec_signed(val as int),
            i <= n,
            v@ == old(v)@ + dec_signed(val as int).subrange(0, i as int),
        decreases n - i,
    {
        assert(buf@[i as int] == buf@.subrange(0, n as int)[i as int]);
        v.push(buf[i]);
        i += 1;
        assert(v@ =~= old(v)@ + dec_signed(val as int).subrange(0, i as int));
    }
    assert(dec_signed(val as int).subrange(0, n as int) =~= dec_signed(val as int));
}

/// Appends the four big-endian bytes of `w`.
fn push_be(v: &mut Vec<u8>, w: u32)
    ensures
        final(v)@ == old(v)@ + be_bytes(w),
{
    v.push((w >> 24u32) as u8);
    v.push((w >> 16u32) as u8);
    v.push((w >> 8u32) as u8);
    v.push(w as u8);
    assert(v@ =~= old(v)@ + be_bytes(w));
}

/// Appends the UTF-8 bytes of `s`.
fn push_str(v: &mut Vec<u8>, s: &str)
    ensures
        final(v)@ == old(v)@ + s.spec_bytes(),
{
    v.extend_from_slice(s.as_bytes());
}

/// Appends how `val` is written in the given mode.
fn push_i32_item(v: &mut Vec<u8>, binary: bool, val: i32)
    ensures
        final(v)@ == old(v)@ + i32_item(binary, val),
{
    if binary {
        push_be(v, val as u32);
    } else {
        push_i32_text(v, val);
        v.push(10u8);
        assert(v@ =~= old(v)@ + i32_item(binary, val));
    }
}

pub struct VtkWriter {
    out: Vec<u8>,
    scratch: Vec<u8>,
    binary: bool,
    legacy: bool,
}

impl VtkWriter {
    /// Everything written since the writer was made or last emptied, in
    /// order.
    pub closed spec fn emitted(&self) -> Seq<u8> {
        self.out@ + self.scratch@
    }

    pub closed spec fn binary_mode(&self) -> bool {
        self.binary
    }

    /// ASCII floats in C's `%.6g` form rather than the shortest
    /// round-trip form.
    pub closed spec fn legacy_mode(&self) -> bool {
        self.legacy
    }

    pub closed spec fn wf(&self) -> bool {
        self.scratch@.len() < FLUSH_THRESHOLD
    }

    pub fn new(binary: bool, legacy: bool) -> (w: VtkWriter)
        ensures
            w.wf(),
            w.emitted() == Seq::<u8>::empty(),
            w.binary_mode() == binary,
            w.legacy_mode() == legacy,
    {
        VtkWriter { out: Vec::new(), scratch: Vec::new(), binary, legacy }
    }

    pub fn is_binary(&self) -> (b: bool)
        ensures
            b == self.binary_mode(),
    {
        self.binary
    }

    pub fn is_legacy(&self) -> (b: bool)
        ensures
            b == self.legacy_mode(),
    {
        self.legacy
    }

    /// Hands out everything written so far and starts afresh.
    pub fn take_output(&mut self) -> (r: Vec<u8>)
        requires
            old(self).wf(),
        ensures
            final(self).wf(),
            r@ == old(self).emitted(),
            final(self).emitted() == Seq::<u8>::empty(),
            final(self).binary_mode() == old(self).binary_mode(),
            final(self).legacy_mode() == old(self).legacy_mode(),
    {
        self.out.append(&mut self.scratch);
        let mut r: Vec<u8> = Vec::new();
        std::mem::swap(&mut r, &mut self.out);
        r
    }

    /// Moves the batched bytes to the output.
    pub fn flush_scratch(&mut self)
        requires
            old(self).wf(),
        ensures
            final(self).wf(),
            final(self).emitted() == old(self).emitted(),
            final(self).binary_mode() == old(self).binary_mode(),
            final(self).legacy_mode() == old(self).legacy_mode(),
    {
        if self.scratch.len() > 0 {
            self.out.append(&mut self.scratch);
        }
        assert(self.out@ + self.scratch@ =~= old(self).out@ + old(self).scratch@);
    }

    /// Makes everything written so far part of the output.
    pub fn flush(&mut self)
        requires
            old(self).wf(),
        ensures
            final(self).wf(),
            final(self).emitted() == old(self).emitted(),
            final(self).binary_mode() == old(self).binary_mode(),
            final(self).legacy_mode() == old(self).legacy_mode(),
    {
        self.flush_scratch();
    }

    /// Writes `data` directly to the output, after any batched bytes.
    fn put(&mut self, data: &[u8])
        requires
            old(self).wf(),
        ensures
            final(self).wf(),
            final(self).emitted() == old(self).emitted() + data@,
            final(self).scratch@.len() == 0,
            final(self).binary == old(self).binary,
            final(self).legacy == old(self).legacy,
    {
        if self.scratch.len() > 0 {
            self.out.append(&mut self.scratch);
        }
        self.out.extend_from_slice(data);
        assert(self.out@ + self.scratch@ =~= old(self).out@ + old(self).scratch@ + data@);
    }

    /// Appends `data` to the scratch buffer, moving it to the output once
    /// it reaches the threshold.
    pub fn write_raw(&mut self, data: &[u8])
        requires
            old(self).wf(),
        ensures
            final(self).wf(),
            final(self).emitted() == old(self).emitted() + data@,
            final(self).binary_mode() == old(self).binary_mode(),
            final(self).legacy_mode() == old(self).legacy_mode(),
    {
        self.scratch.extend_from_slice(data);
        assert(self.out@ + self.scratch@ =~= old(self).out@ + old(self).scratch@ + data@);
        if self.scratch.len() >= FLUSH_THRESHOLD {
            self.out.append(&mut self.scratch);
            assert(self.out@ + self.scratch@ =~= old(self).out@ + old(self).scratch@ + data@);
        }
    }

    /// Writes `line` `count` times through the scratch buffer.
    pub fn write_repeated_line(&mut self, line: &[u8], count: usize)
        requires
            old(self).wf(),
        ensures
            final(self).wf(),
            final(self).emitted() == old(self).emitted() + repeat(line@, count as nat),
            final(self).binary_mode() == old(self).binary_mode(),
            final(self).legacy_mode() == old(self).legacy_mode(),
    {
        let mut k: usize = 0;
        while k < count
            invariant
                self.wf(),
                k <= count,
                self.emitted() == old(self).emitted() + repeat(line@, k as nat),
                self.binary == old(self).binary,
                self.legacy == old(self).legacy,
            decreases count - k,
        {
            self.write_raw(line);
            k += 1;
            assert(self.emitted() =~= old(self).emitted() + repeat(line@, k as nat));
        }
    }

    /// Writes one `i32`: four big-endian bytes, or decimal text and a
    /// newline.
    pub fn write_i32(&mut self, val: i32)
        requires
            old(self).wf(),
        ensures
            final(self).wf(),
            final(self).emitted() == old(self).emitted() + i32_item(old(self).binary_mode(), val),
            final(self).binary_mode() == old(self).binary_mode(),
            final(self).legacy_mode() == old(self).legacy_mode(),
    {
        let mut buf: Vec<u8> = Vec::new();
        push_i32_item(&mut buf, self.binary, val);
        assert(buf@ =~= i32_item(self.binary, val));
        self.put(buf.as_slice());
    }

    /// Writes a slice of `i32`, each as `write_i32` would, batched in
    /// blocks of about the flush threshold.
    pub fn write_i32_slice(&mut self, values: &[i32])
        requires
            old(self).wf(),
        ensures
            final(self).wf(),
            final(self).emitted() == old(self).emitted() + i32_items(old(self).binary_mode(), values@),
            final(self).binary_mode() == old(self).binary_mode(),
            final(self).legacy_mode() == old(self).legacy_mode(),
    {
        let binary = self.binary;
        let mut buf: Vec<u8> = Vec::new();
        let mut k: usize = 0;
        while k < values.len()
            invariant
                self.wf(),
                binary == self.binary,
                self.binary == old(self).binary,
                self.legacy == old(self).legacy,
                k <= values@.len(),
                self.emitted() + buf@ == old(self).emitted() + i32_items(binary, values@.subrange(0, k as int)),
            decreases values@.len() - k,
        {
            let ghost prev = buf@;
            push_i32_item(&mut buf, binary, values[k]);
            proof {
                assert(values@.subrange(0, k + 1).drop_last() =~= values@.subrange(0, k as int));
                assert(values@.subrange(0, k + 1).last() == values@[k as int]);
                assert(i32_items(binary, values@.subrange(0, k + 1)) == i32_items(binary, values@.subrange(0, k as int)) + i32_item(binary, values@[k as int]));
            }
            proof {
                let e = self.emitted();
                assert(buf@ == prev + i32_item(binary, values@[k as int]));
                assert(e + prev == old(self).emitted() + i32_items(binary, values@.subrange(0, k as int)));
                assert(e + buf@ =~= (e + prev) + i32_item(binary, values@[k as int]));
            }
            k += 1;
            assert(self.emitted() + buf@ =~= old(self).emitted() + i32_items(binary, values@.subrange(0, k as int)));
            if buf.len() >= FLUSH_THRESHOLD {
                self.put(buf.as_slice());
                buf.clear();
                assert(self.emitted() + buf@ =~= old(self).emitted() + i32_items(binary, values@.subrange(0, k as int)));
            }
        }
        self.put(buf.as_slice());
        assert(values@.subrange(0, values@.len() as int) =~= values@);
    }

    /// Writes the values on one line, separated by spaces, in ASCII mode
    /// (through the scratch buffer); in binary mode as `write_i32_slice`.
    pub fn write_i32_line(&mut self, values: &[i32])
        requires
            old(self).wf(),
        ensures
            final(self).wf(),
            final(self).emitted() == old(self).emitted() + if old(self).binary_mode() {
                i32_items(true, values@)
            } else {
                spaced_i32(values@).push(10u8)
            },
            final(self).binary_mode() == old(self).binary_mode(),
            final(self).legacy_mode() == old(self).legacy_mode(),
    {
        if self.binary {
            self.write_i32_slice(values);
        } else {
            let mut line: Vec<u8> = Vec::new();
            let mut k: usize = 0;
            while k < values.len()
                invariant
                    k <= values@.len(),
                    line@ == spaced_i32(values@.subrange(0, k as int)),
                decreases values@.len() - k,
            {
                proof {
                    assert(values@.subrange(0, k + 1).drop_last() =~= values@.subrange(0, k as int));
                    assert(values@.subrange(0, k + 1).last() == values@[k as int]);
                }
                if k > 0 {
                    line.push(32u8);
                }
                push_i32_text(&mut line, values[k]);
                k += 1;
                proof {
                    if k == 1 {
                        assert(values@.subrange(0, 0) =~= Seq::<i32>::empty());
                        assert(line@ =~= dec_signed(values@[0] as int));
                    }
                }
            }
            line.push(10u8);
            assert(values@.subrange(0, values@.len() as int) =~= values@);
            self.write_raw(line.as_slice());
        }
    }

    /// Writes big-endian 32-bit words, whatever the mode (the binary form
    /// of single-precision values given by their bit patterns).
    pub fn write_be_words(&mut self, words: &[u32])
        requires
            old(self).wf(),
        ensures
            final(self).wf(),
            final(self).emitted() == old(self).emitted() + be_words(words@),
            final(self).binary_mode() == old(self).binary_mode(),
            final(self).legacy_mode() == old(self).legacy_mode(),
    {
        let mut buf: Vec<u8> = Vec::new();
        let mut k: usize = 0;
        while k < words.len()
            invariant
                self.wf(),
                self.binary == old(self).binary,
                self.legacy == old(self).legacy,
                k <= words@.len(),
                self.emitted() + buf@ == old(self).emitted() + be_words(words@.subrange(0, k as int)),
            decreases words@.len() - k,
        {
            let ghost prev = buf@;
            push_be(&mut buf, words[k]);
            proof {
                assert(words@.subrange(0, k + 1).drop_last() =~= words@.subrange(0, k as int));
                assert(words@.subrange(0, k + 1).last() == words@[k as int]);
                assert(be_words(words@.subrange(0, k + 1)) == be_words(words@.subrange(0, k as int)) + be_bytes(words@[k as int]));
            }
            proof {
                let e = self.emitted();
                assert(e + buf@ =~= (e + prev) + be_bytes(words@[k as int]));
            }
            k += 1;
            assert(self.emitted() + buf@ =~= old(self).emitted() + be_words(words@.subrange(0, k as int)));
            if buf.len() >= FLUSH_THRESHOLD {
                self.put(buf.as_slice());
                buf.clear();
                assert(self.emitted() + buf@ =~= old(self).emitted() + be_words(words@.subrange(0, k as int)));
            }
        }
        self.put(buf.as_slice());
        assert(words@.subrange(0, words@.len() as int) =~= words@);
    }

    /// Writes a big-endian 64-bit word, whatever the mode (the binary form
    /// of a double given by its bit pattern).
    pub fn write_be_u64(&mut self, w: u64)
        requires
            old(self).wf(),
        ensures
            final(self).wf(),
            final(self).emitted() == old(self).emitted() + be_bytes64(w),
            final(self).binary_mode() == old(self).binary_mode(),
            final(self).legacy_mode() == old(self).legacy_mode(),
    {
        let mut buf: Vec<u8> = Vec::new();
        push_be(&mut buf, (w >> 32u64) as u32);
        push_be(&mut buf, w as u32);
        assert(buf@ =~= be_bytes64(w));
        self.put(buf.as_slice());
    }

    /// Writes `count` zero floats: zero bytes in binary mode, a line `0`
    /// each in ASCII mode.
    pub fn write_zeros_f32(&mut self, count: usize)
        requires
            old(self).wf(),
        ensures
            final(self).wf(),
            final(self).emitted() == old(self).emitted() + zeros_f32(old(self).binary_mode(), count as nat),
            final(self).binary_mode() == old(self).binary_mode(),
            final(self).legacy_mode() == old(self).legacy_mode(),
    {
        if self.binary {
            let mut k: usize = 0;
            let ghost e0 = self.emitted();
            let zero: [u8; 4] = [0u8; 4];
            while k < count
                invariant
                    self.wf(),
                    self.binary == old(self).binary,
                    self.legacy == old(self).legacy,
                    k <= count,
                    zero@ == seq![0u8, 0u8, 0u8, 0u8],
                    self.emitted() == old(self).emitted() + Seq::new(4 * k as nat, |i: int| 0u8),
                decreases count - k,
            {
                self.write_raw(&zero);
                k += 1;
                assert(self.emitted() =~= old(self).emitted() + Seq::new(4 * k as nat, |i: int| 0u8));
            }
        } else {
            let line: [u8; 2] = [48u8, 10u8];
            assert(line@ =~= zero_line());
            self.write_repeated_line(&line, count);
        }
    }

    /// Writes a zero 3x3 tensor: nine zero floats, as three rows `0 0 0`
    /// in ASCII mode (the `%.6g` text of zero is `0` too).
    pub fn write_zero_tensor(&mut self)
        requires
            old(self).wf(),
        ensures
            final(self).wf(),
            final(self).emitted() == old(self).emitted() + zero_tensor(old(self).binary_mode()),
            final(self).binary_mode() == old(self).binary_mode(),
            final(self).legacy_mode() == old(self).legacy_mode(),
    {
        if self.binary {
            self.write_zeros_f32(9);
            assert(Seq::new(4 * 9nat, |i: int| 0u8) =~= Seq::new(36, |i: int| 0u8));
        } else {
            let row: [u8; 6] = [48u8, 32u8, 48u8, 32u8, 48u8, 10u8];
            assert(row@ =~= zero_row());
            self.write_repeated_line(&row, 3);
        }
    }

    /// Writes a text line.
    pub fn write_header(&mut self, text: &str)
        requires
            old(self).wf(),
        ensures
            final(self).wf(),
            final(self).emitted() == old(self).emitted() + text.spec_bytes().push(10u8),
            final(self).binary_mode() == old(self).binary_mode(),
            final(self).legacy_mode() == old(self).legacy_mode(),
    {
        let mut buf: Vec<u8> = Vec::new();
        push_str(&mut buf, text);
        buf.push(10u8);
        assert(buf@ =~= text.spec_bytes().push(10u8));
        self.put(buf.as_slice());
    }

    /// Writes a text line made of several fragments.
    pub fn write_header_parts(&mut self, parts: &[&str])
        requires
            old(self).wf(),
        ensures
            final(self).wf(),
            final(self).emitted() == old(self).emitted() + concat_bytes(parts@).push(10u8),
            final(self).binary_mode() == old(self).binary_mode(),
            final(self).legacy_mode() == old(self).legacy_mode(),
    {
        let mut buf: Vec<u8> = Vec::new();
        let mut k: usize = 0;
        while k < parts.len()
            invariant
                k <= parts@.len(),
                buf@ == concat_bytes(parts@.subrange(0, k as int)),
            decreases parts@.len() - k,
        {
            push_str(&mut buf, parts[k]);
            proof {
                assert(parts@.subrange(0, k + 1).drop_last() =~= parts@.subrange(0, k as int));
                assert(parts@.subrange(0, k + 1).last() == parts@[k as int]);
            }
            k += 1;
        }
        assert(parts@.subrange(0, parts@.len() as int) =~= parts@);
        buf.push(10u8);
        self.put(buf.as_slice());
    }

    /// Writes a text line `prefix name suffix`, e.g. `SCALARS name float 1`.
    pub fn write_header_name_suffix(&mut self, prefix: &str, name: &str, suffix: &str)
        requires
            old(self).wf(),
        ensures
            final(self).wf(),
            final(self).emitted() == old(self).emitted() + (prefix.spec_bytes() + name.spec_bytes()
                + suffix.spec_bytes()).push(10u8),
            final(self).binary_mode() == old(self).binary_mode(),
            final(self).legacy_mode() == old(self).legacy_mode(),
    {
        let mut buf: Vec<u8> = Vec::new();
        push_str(&mut buf, prefix);
        push_str(&mut buf, name);
        push_str(&mut buf, suffix);
        buf.push(10u8);
        assert(buf@ =~= (prefix.spec_bytes() + name.spec_bytes() + suffix.spec_bytes()).push(10u8));
        self.put(buf.as_slice());
    }

    /// Writes a text line with one embedded count, e.g. `POINTS 12 float`.
    pub fn write_header_usize(&mut self, prefix: &str, value: usize, suffix: &str)
        requires
            old(self).wf(),
        ensures
            final(self).wf(),
            final(self).emitted() == old(self).emitted() + (prefix.spec_bytes() + dec_digits(
                value as nat,
            ) + suffix.spec_bytes()).push(10u8),
            final(self).binary_mode() == old(self).binary_mode(),
            final(self).legacy_mode() == old(self).legacy_mode(),
    {
        let mut buf: Vec<u8> = Vec::new();
        push_str(&mut buf, prefix);
        push_u64_text(&mut buf, value as u64);
        push_str(&mut buf, suffix);
        buf.push(10u8);
        assert(buf@ =~= (prefix.spec_bytes() + dec_digits(value as nat) + suffix.spec_bytes()).push(
            10u8,
        ));
        self.put(buf.as_slice());
    }

    /// Writes a text line with two embedded counts, e.g. `CELLS 100 500`.
    pub fn write_header_two_usize(
        &mut self,
        prefix: &str,
        value_a: usize,
        middle: &str,
        value_b: usize,
        suffix: &str,
    )
        requires
            old(self).wf(),
        ensures
            final(self).wf(),
            final(self).emitted() == old(self).emitted() + (prefix.spec_bytes() + dec_digits(
                value_a as nat,
            ) + middle.spec_bytes() + dec_digits(value_b as nat) + suffix.spec_bytes()).push(10u8),
            final(self).binary_mode() == old(self).binary_mode(),
            final(self).legacy_mode() == old(self).legacy_mode(),
    {
        let mut buf: Vec<u8> = Vec::new();
        push_str(&mut buf, prefix);
        push_u64_text(&mut buf, value_a as u64);
        push_str(&mut buf, middle);
        push_u64_text(&mut buf, value_b as u64);
        push_str(&mut buf, suffix);
        buf.push(10u8);
        assert(buf@ =~= (prefix.spec_bytes() + dec_digits(value_a as nat) + middle.spec_bytes()
            + dec_digits(value_b as nat) + suffix.spec_bytes()).push(10u8));
        self.put(buf.as_slice());
    }

    /// Writes a bare newline, the section separator.
    pub fn newline(&mut self)
        requires
            old(self).wf(),
        ensures
            final(self).wf(),
            final(self).emitted() == old(self).emitted().push(10u8),
            final(self).binary_mode() == old(self).binary_mode(),
            final(self).legacy_mode() == old(self).legacy_mode(),
    {
        let nl: [u8; 1] = [10u8];
        assert(old(self).emitted() + nl@ =~= old(self).emitted().push(10u8));
        self.put(&nl);
    }
}

/// The values of a sequence of big-endian 32-bit words.
pub open spec fn words_of(b: Seq<u8>) -> Seq<i32>
    decreases b.len(),
{
    if b.len() < 4 {
        Seq::empty()
    } else {
        words_of(b.subrange(0, b.len() - 4)).push(be_i32(b, b.len() - 4))
    }
}

/// Index of the last newline of `b`, or -1.
pub open spec fn last_newline(b: Seq<u8>) -> int
    decreases b.len(),
{
    if b.len() == 0 {
        -1
    } else if b.last() == 10u8 {
        b.len() - 1
    } else {
        last_newline(b.drop_last())
    }
}

/// The values of newline-terminated lines of decimal text.
pub open spec fn lines_of(b: Seq<u8>) -> Seq<int>
    decreases b.len(),
{
    if b.len() == 0 {
        Seq::empty()
    } else {
        let body = b.drop_last();
        let k = last_newline(body);
        if -1 <= k < body.len() {
            lines_of(body.subrange(0, k + 1)).push(parse_signed(body.subrange(k + 1, body.len() as int)))
        } else {
            Seq::empty()
        }
    }
}

pub(crate) proof fn lemma_last_newline_skip(x: Seq<u8>, y: Seq<u8>)
    requires
        forall|i: int| 0 <= i < y.len() ==> y[i] != 10u8,
    ensures
        last_newline(x + y) == last_newline(x),
    decreases y.len(),
{
    if y.len() > 0 {
        assert((x + y).drop_last() =~= x + y.drop_last());
        assert((x + y).last() == y[y.len() - 1]);
        lemma_last_newline_skip(x, y.drop_last());
    } else {
        assert(x + y =~= x);
    }
}

pub(crate) proof fn lemma_i32_items_len(s: Seq<i32>)
    ensures
        i32_items(true, s).len() == 4 * s.len(),
    decreases s.len(),
{
    if s.len() > 0 {
        lemma_i32_items_len(s.drop_last());
    }
}

pub(crate) proof fn lemma_ascii_items_shape(s: Seq<i32>)
    ensures
        s.len() == 0 ==> i32_items(false, s).len() == 0,
        s.len() > 0 ==> i32_items(false, s).len() > 0 && i32_items(false, s).last() == 10u8,
{
    if s.len() > 0 {
        let t = i32_items(false, s.drop_last());
        assert(i32_items(false, s) == t + dec_signed(s.last() as int).push(10u8));
    }
}

pub(crate) proof fn lemma_be_round(v: i32)
    ensures
        be_i32(be_bytes(v as u32), 0) == v,
{
    let w = v as u32;
    let b = be_bytes(w);
    assert(b[0] == (w >> 24u32) as u8 && b[1] == (w >> 16u32) as u8 && b[2] == (w >> 8u32) as u8
        && b[3] == w as u8);
    assert(((((w >> 24u32) as u8) as u32) << 24u32) | ((((w >> 16u32) as u8) as u32) << 16u32) | ((((w
        >> 8u32) as u8) as u32) << 8u32) | (((w as u8) as u32)) == w) by (bit_vector);
    assert(((v as u32) as i32) == v) by (bit_vector);
}

/// Decimal text holds neither a newline nor a space.
pub(crate) proof fn lemma_dec_signed_plain(v: int)
    ensures
        forall|i: int|
            0 <= i < dec_signed(v).len() ==> #[trigger] dec_signed(v)[i] != 10u8 && dec_signed(v)[i]
                != 32u8,
        dec_signed(v).len() >= 1,
{
    let d = dec_signed(v);
    if v < 0 {
        lemma_dec_digits_shape((-v) as nat);
        assert forall|i: int| 0 <= i < d.len() implies #[trigger] d[i] != 10u8 && d[i] != 32u8 by {
            if i > 0 {
                assert(d[i] == dec_digits((-v) as nat)[i - 1]);
            }
        }
    } else {
        lemma_dec_digits_shape(v as nat);
    }
}

/// Index of the last space of `b`, or -1.
pub open spec fn last_space(b: Seq<u8>) -> int
    decreases b.len(),
{
    if b.len() == 0 {
        -1
    } else if b.last() == 32u8 {
        b.len() - 1
    } else {
        last_space(b.drop_last())
    }
}

/// The values of a line of space-separated decimal text.
pub open spec fn fields_of(b: Seq<u8>) -> Seq<int>
    decreases b.len(),
{
    if b.len() == 0 {
        Seq::empty()
    } else {
        let k = last_space(b);
        if k < 0 {
            seq![parse_signed(b)]
        } else if k < b.len() {
            fields_of(b.subrange(0, k)).push(parse_signed(b.subrange(k + 1, b.len() as int)))
        } else {
            Seq::empty()
        }
    }
}

proof fn lemma_last_space_skip(x: Seq<u8>, y: Seq<u8>)
    requires
        forall|i: int| 0 <= i < y.len() ==> y[i] != 32u8,
    ensures
        last_space(x + y) == last_space(x),
    decreases y.len(),
{
    if y.len() > 0 {
        assert((x + y).drop_last() =~= x + y.drop_last());
        assert((x + y).last() == y[y.len() - 1]);
        lemma_last_space_skip(x, y.drop_last());
    } else {
        assert(x + y =~= x);
    }
}

/// A line written by `spaced_i32` reads back to its values.
pub(crate) proof fn lemma_fields_of_spaced(s: Seq<i32>)
    ensures
        fields_of(spaced_i32(s)) == s.map_values(|v: i32| v as int),
        forall|i: int| 0 <= i < spaced_i32(s).len() ==> #[trigger] spaced_i32(s)[i] != 10u8,
    decreases s.len(),
{
    if s.len() == 0 {
        assert(s.map_values(|v: i32| v as int) =~= Seq::<int>::empty());
    } else if s.len() == 1 {
        let d = dec_signed(s[0] as int);
        lemma_dec_signed_plain(s[0] as int);
        lemma_last_space_skip(Seq::<u8>::empty(), d);
        assert(Seq::<u8>::empty() + d =~= d);
        lemma_decimal_round_trip(s[0], 0);
        assert(s.map_values(|v: i32| v as int) =~= seq![s[0] as int]);
    } else {
        let p = s.drop_last();
        let v = s.last();
        lemma_fields_of_spaced(p);
        let t = spaced_i32(p).push(32u8);
        let d = dec_signed(v as int);
        lemma_dec_signed_plain(v as int);
        lemma_last_space_skip(t, d);
        assert(spaced_i32(s) == t + d);
        assert((t + d).subrange(0, spaced_i32(p).len() as int) =~= spaced_i32(p));
        assert((t + d).subrange(spaced_i32(p).len() as int + 1, (t + d).len() as int) =~= d);
        lemma_decimal_round_trip(v, 0);
        assert(s.map_values(|v: i32| v as int) =~= p.map_values(|v: i32| v as int).push(v as int));
        assert forall|i: int| 0 <= i < spaced_i32(s).len() implies #[trigger] spaced_i32(s)[i]
            != 10u8 by {
            if i >= t.len() {
                assert(spaced_i32(s)[i] == d[i - t.len()]);
            } else if i < spaced_i32(p).len() {
                assert(spaced_i32(s)[i] == spaced_i32(p)[i]);
            }
        }
    }
}

/// Words appended after a whole number of words read back after them.
pub(crate) proof fn lemma_words_of_append(pre: Seq<u8>, s: Seq<i32>)
    requires
        pre.len() % 4 == 0,
    ensures
        words_of(pre + i32_items(true, s)) == words_of(pre) + s,
    decreases s.len(),
{
    if s.len() == 0 {
        assert(pre + i32_items(true, s) =~= pre);
        assert(words_of(pre) + s =~= words_of(pre));
    } else {
        let p = s.drop_last();
        let v = s.last();
        lemma_words_of_append(pre, p);
        lemma_i32_items_len(p);
        let b = pre + i32_items(true, s);
        assert(b =~= (pre + i32_items(true, p)) + be_bytes(v as u32));
        assert(b.subrange(0, b.len() - 4) =~= pre + i32_items(true, p));
        lemma_be_round(v);
        assert(be_i32(b, b.len() - 4) == be_i32(be_bytes(v as u32), 0));
        assert(words_of(b) =~= words_of(pre) + s);
    }
}

/// Integer fields describe the same values in both output modes: the
/// big-endian words written in binary mode, and the decimal lines written
/// in ASCII mode, each read back to the values that were written.
pub proof fn lemma_int_forms_agree(s: Seq<i32>)
    ensures
        words_of(i32_items(true, s)) == s,
        lines_of(i32_items(false, s)) == s.map_values(|v: i32| v as int),
    decreases s.len(),
{
    if s.len() > 0 {
        let p = s.drop_last();
        let v = s.last();
        lemma_int_forms_agree(p);
        // binary
        let tb = i32_items(true, p);
        let b = i32_items(true, s);
        lemma_i32_items_len(p);
        assert(b == tb + be_bytes(v as u32));
        assert(b.subrange(0, b.len() - 4) =~= tb);
        lemma_be_round(v);
        assert(be_i32(b, b.len() - 4) == be_i32(be_bytes(v as u32), 0));
        assert(words_of(b) =~= s);
        // ASCII
        let ta = i32_items(false, p);
        let d = dec_signed(v as int);
        let a = i32_items(false, s);
        assert(a == ta + d.push(10u8));
        assert(a.drop_last() =~= ta + d);
        assert forall|i: int| 0 <= i < d.len() implies d[i] != 10u8 by {
            if v < 0 {
                lemma_dec_digits_shape((-(v as int)) as nat);
                if i > 0 {
                    assert(d[i] == dec_digits((-(v as int)) as nat)[i - 1]);
                }
            } else {
                lemma_dec_digits_shape(v as nat);
            }
        }
        lemma_last_newline_skip(ta, d);
        lemma_ascii_items_shape(p);
        if p.len() > 0 {
            assert(last_newline(ta) == ta.len() - 1);
        } else {
            assert(last_newline(ta) == -1);
        }
        assert((ta + d).subrange(0, ta.len() as int) =~= ta);
        assert((ta + d).subrange(ta.len() as int, (ta + d).len() as int) =~= d);
        lemma_decimal_round_trip(v, 0);
        assert(s.map_values(|v: i32| v as int) =~= p.map_values(|v: i32| v as int).push(v as int));
    } else {
        assert(s.map_values(|v: i32| v as int) =~= Seq::<int>::empty());
    }
}

} // verus!
