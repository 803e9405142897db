//! Bit streams: a writer that appends bit fields and a reader that pulls them back, last
//! written first.
//!
//! A stream of `P` bits is kept in `ceil(P / 8)` bytes: bit `j` is bit `j % 8` of byte `j / 8`,
//! and the bits of the last byte above `P` are zero.

use vstd::prelude::*;

use crate::error::Error;

verus! {

/// Bit `i` of `b`.
pub open spec fn bit_of(b: u8, i: int) -> bool {
    (b >> (i as u8)) & 1 == 1
}

/// Bit `j` of the byte stream `src`; bits outside of it read as zero.
pub open spec fn stream_bit(src: Seq<u8>, j: int) -> bool {
    0 <= j < 8 * src.len() && bit_of(src[j / 8], j % 8)
}

/// The first `p` bits of `src`.
pub open spec fn stream_view(src: Seq<u8>, p: int) -> Seq<bool> {
    Seq::new(p as nat, |j: int| stream_bit(src, j))
}

/// The `n` low bits of `b`, least significant first.
pub open spec fn bits_of(b: u64, n: u32) -> Seq<bool> {
    Seq::new(n as nat, |i: int| (b >> (i as u64)) & 1 == 1)
}

/// The number whose binary digits, least significant first, are `s`.
pub open spec fn seq_val(s: Seq<bool>) -> nat
    decreases s.len(),
{
    if s.len() == 0 {
        0
    } else {
        2 * seq_val(s.drop_first()) + if s[0] {
            1nat
        } else {
            0nat
        }
    }
}

/// `b` fits in `n` bits.
pub open spec fn fits(b: u64, n: u32) -> bool {
    n <= 32 && b >> (n as u64) == 0
}

/// Zero the bits of `lhs` at `n_bits` and above.
pub fn mask(lhs: u64, n_bits: u32) -> (r: u64)
    requires
        n_bits < 64,
    ensures
        r == lhs & (((1u64 << n_bits) - 1) as u64),
        fits(r, n_bits) || n_bits > 32,
{
    assert(1u64 << n_bits >= 1) by (bit_vector)
        requires
            n_bits < 64,
    ;
    let r = lhs & ((1u64 << n_bits) - 1);
    assert(n_bits <= 32 ==> r >> n_bits == 0) by (bit_vector)
        requires
            r == lhs & (((1u64 << n_bits) - 1) as u64),
            n_bits < 64,
            1u64 << n_bits >= 1,
    ;
    r
}

pub proof fn lemma_bits_of_val(b: u64, n: u32)
    requires
        fits(b, n),
    ensures
        seq_val(bits_of(b, n)) == b,
    decreases n,
{
    if n == 0 {
        assert(b == 0) by (bit_vector)
            requires
                b >> 0u64 == 0,
        ;
    } else {
        let c = b >> 1u64;
        let nn = (n - 1) as u32;
        assert(c >> (nn as u64) == 0) by (bit_vector)
            requires
                b >> (n as u64) == 0,
                c == b >> 1u64,
                nn as u64 + 1 == n as u64,
        ;
        lemma_bits_of_val(c, nn);
        assert forall|i: int| 0 <= i < nn implies bits_of(b, n).drop_first()[i] == bits_of(c, nn)[i] by {
            let k = i as u64;
            assert((b >> (k + 1)) == (c >> k)) by (bit_vector)
                requires
                    c == b >> 1u64,
                    k < 32,
            ;
        }
        assert(bits_of(b, n).drop_first() =~= bits_of(c, nn));
        assert(b == 2 * c + (b & 1)) by (bit_vector)
            requires
                c == b >> 1u64,
        ;
        assert((b >> 0u64) & 1 == b & 1) by (bit_vector);
        assert(b & 1 == 0 || b & 1 == 1) by (bit_vector);
    }
}

/// The stream of bits that writing the fields `ws` in order produces.
pub open spec fn stream_of(ws: Seq<(u64, u32)>) -> Seq<bool>
    decreases ws.len(),
{
    if ws.len() == 0 {
        Seq::empty()
    } else {
        stream_of(ws.drop_last()) + bits_of(ws.last().0, ws.last().1)
    }
}

/// Reading the fields that `ws` describes back from `s`, last first; the values come out in
/// the order of `ws`.
pub open spec fn read_back(s: Seq<bool>, ws: Seq<(u64, u32)>) -> Seq<u64>
    decreases ws.len(),
{
    if ws.len() == 0 {
        Seq::empty()
    } else {
        let n = ws.last().1 as int;
        read_back(s.take(s.len() - n), ws.drop_last()).push(
            seq_val(s.subrange(s.len() - n, s.len() as int)) as u64,
        )
    }
}

/// Pulling `n` bits from a stream whose last field was `(b, n)` gives `b` back and leaves the
/// stream as it was before that field was written.
pub proof fn lemma_pull_after_push(s: Seq<bool>, b: u64, n: u32)
    requires
        fits(b, n),
    ensures
        seq_val((s + bits_of(b, n)).subrange(s.len() as int, s.len() + n)) == b,
        (s + bits_of(b, n)).take(s.len() as int) == s,
{
    lemma_bits_of_val(b, n);
    assert((s + bits_of(b, n)).subrange(s.len() as int, s.len() + n) =~= bits_of(b, n));
    assert((s + bits_of(b, n)).take(s.len() as int) =~= s);
}

/// Writing fields that fit their widths and reading them back, last first, returns every
/// value that was written.
pub proof fn law_write_read(ws: Seq<(u64, u32)>)
    requires
        forall|i: int| 0 <= i < ws.len() ==> fits(#[trigger] ws[i].0, ws[i].1),
    ensures
        read_back(stream_of(ws), ws) == ws.map_values(|w: (u64, u32)| w.0),
    decreases ws.len(),
{
    if ws.len() > 0 {
        let pre = ws.drop_last();
        let (b, n) = ws.last();
        assert(fits(ws[ws.len() - 1].0, ws[ws.len() - 1].1));
        law_write_read(pre);
        let s = stream_of(pre);
        lemma_pull_after_push(s, b, n);
        assert(stream_of(ws) == s + bits_of(b, n));
        assert(read_back(stream_of(ws), ws) =~= ws.map_values(|w: (u64, u32)| w.0));
    }
}

/// Accumulates bit fields and packs them into bytes, low bits first.
pub struct BitWriter {
    bytes: Vec<u8>,
    acc: u8,
    n_acc: u32,
    bits: Ghost<Seq<bool>>,
}

impl BitWriter {
    /// The bits written so far.
    pub closed spec fn view(&self) -> Seq<bool> {
        self.bits@
    }

    pub closed spec fn wf(&self) -> bool {
        &&& self.n_acc < 8
        &&& self.bits@.len() == 8 * self.bytes@.len() + self.n_acc
        &&& forall|j: int| 0 <= j < 8 * self.bytes@.len() ==> #[trigger] self.bits@[j] == stream_bit(self.bytes@, j)
        &&& forall|i: int| 0 <= i < self.n_acc ==> #[trigger] self.bits@[8 * self.bytes@.len() + i] == bit_of(self.acc, i)
        &&& (self.acc >> (self.n_acc as u8)) == 0
    }

    pub fn new() -> (r: BitWriter)
        ensures
            r.wf(),
            r@ == Seq::<bool>::empty(),
    {
        let r = BitWriter { bytes: Vec::new(), acc: 0, n_acc: 0, bits: Ghost(Seq::empty()) };
        assert(0u8 >> 0u8 == 0) by (bit_vector);
        r
    }

    /// The number of bits written so far.
    pub fn len(&self) -> (r: usize)
        requires
            self.wf(),
            self@.len() <= usize::MAX,
        ensures
            r == self@.len(),
    {
        self.bytes.len() * 8 + self.n_acc as usize
    }

    fn push_bit(&mut self, bit: bool)
        requires
            old(self).wf(),
            old(self)@.len() < usize::MAX - 64,
        ensures
            final(self).wf(),
            final(self)@ == old(self)@.push(bit),
    {
        let n = self.n_acc as u8;
        let acc = self.acc;
        let acc2: u8 = if bit {
            acc | (1u8 << n)
        } else {
            acc
        };
        assert(forall|i: u8| i < n ==> (acc2 >> i) & 1 == (acc >> i) & 1) by (bit_vector)
            requires
                n < 8,
                acc2 == acc | (1u8 << n) || acc2 == acc,
        ;
        assert(((acc2 >> n) & 1 == 1) == bit) by (bit_vector)
            requires
                n < 8,
                acc >> n == 0,
                bit ==> acc2 == acc | (1u8 << n),
                !bit ==> acc2 == acc,
        ;
        assert(acc2 >> (n + 1) == 0) by (bit_vector)
            requires
                n < 8,
                acc >> n == 0,
                acc2 == acc | (1u8 << n) || acc2 == acc,
        ;
        let ghost len = self.bytes@.len();
        self.bits = Ghost(self.bits@.push(bit));
        if n == 7 {
            self.bytes.push(acc2);
            self.acc = 0;
            self.n_acc = 0;
            assert forall|j: int| 0 <= j < 8 * self.bytes@.len() implies #[trigger] self.bits@[j] == stream_bit(self.bytes@, j) by {
                if j < 8 * len {
                    assert(j / 8 < len) by (nonlinear_arith) requires 0 <= j < 8 * len;
                    assert(self.bytes@[j / 8] == old(self).bytes@[j / 8]);
                    assert(old(self).bits@[j] == stream_bit(old(self).bytes@, j));
                } else {
                    let i = j - 8 * len;
                    assert(j / 8 == len && j % 8 == i) by (nonlinear_arith) requires j == 8 * len + i, 0 <= i < 8;
                    if i < 7 {
                        assert(old(self).bits@[8 * len + i] == bit_of(acc, i));
                        assert((acc2 >> (i as u8)) & 1 == (acc >> (i as u8)) & 1);
                    }
                }
            }
            assert(0u8 >> 0u8 == 0) by (bit_vector);
        } else {
            self.acc = acc2;
            self.n_acc = self.n_acc + 1;
            assert forall|i: int| 0 <= i < self.n_acc implies #[trigger] self.bits@[8 * self.bytes@.len() + i] == bit_of(self.acc, i) by {
                if i < n {
                    assert(old(self).bits@[8 * len + i] == bit_of(acc, i));
                    assert((acc2 >> (i as u8)) & 1 == (acc >> (i as u8)) & 1);
                }
            }
            assert forall|j: int| 0 <= j < 8 * self.bytes@.len() implies #[trigger] self.bits@[j] == stream_bit(self.bytes@, j) by {
                assert(old(self).bits@[j] == stream_bit(old(self).bytes@, j));
            }
        }
    }

    /// Appends the `n_bits` low bits of `bits`, least significant first.
    pub fn push(&mut self, bits: u64, n_bits: u32)
        requires
            old(self).wf(),
            fits(bits, n_bits),
            old(self)@.len() < usize::MAX - 128,
        ensures
            final(self).wf(),
            final(self)@ == old(self)@ + bits_of(bits, n_bits),
    {
        let mut i: u32 = 0;
        while i < n_bits
            invariant
                self.wf(),
                i <= n_bits <= 32,
                self@ == old(self)@ + bits_of(bits, n_bits).take(i as int),
                old(self)@.len() < usize::MAX - 128,
            decreases n_bits - i,
        {
            let bit = (bits >> i) & 1 == 1;
            self.push_bit(bit);
            assert(bits_of(bits, n_bits).take(i + 1) =~= bits_of(bits, n_bits).take(i as int).push(bit));
            i += 1;
        }
        assert(bits_of(bits, n_bits).take(n_bits as int) =~= bits_of(bits, n_bits));
    }

    /// Packs what was written into bytes; returns them with the number of unused high bits of
    /// the last byte.
    pub fn finalize(self) -> (r: (Vec<u8>, u32))
        requires
            self.wf(),
        ensures
            r.1 <= 7,
            8 * r.0@.len() == self@.len() + r.1,
            stream_view(r.0@, self@.len() as int) == self@,
            r.1 == 0 || r.0@.last() >> ((8 - r.1) as u8) == 0,
    {
        let ghost len = self.bytes@.len();
        let ghost bits = self.bits@;
        let mut bytes = self.bytes;
        let n = self.n_acc;
        let acc = self.acc;
        if n == 0 {
            assert(stream_view(bytes@, bits.len() as int) =~= bits);
            (bytes, 0)
        } else {
            bytes.push(acc);
            assert forall|j: int| 0 <= j < bits.len() implies #[trigger] stream_view(bytes@, bits.len() as int)[j] == bits[j] by {
                if j < 8 * len {
                    assert(j / 8 < len) by (nonlinear_arith) requires 0 <= j < 8 * len;
                    assert(bytes@[j / 8] == self.bytes@[j / 8]);
                    assert(bits[j] == stream_bit(self.bytes@, j));
                } else {
                    let i = j - 8 * len;
                    assert(j / 8 == len && j % 8 == i) by (nonlinear_arith) requires j == 8 * len + i, 0 <= i < 8;
                    assert(bits[8 * len + i] == bit_of(acc, i));
                }
            }
            assert(stream_view(bytes@, bits.len() as int) =~= bits);
            let n8 = n as u8;
            assert(acc >> (8 - (8 - n8)) as u8 == 0) by (bit_vector)
                requires
                    acc >> n8 == 0,
                    n8 < 8,
            ;
            (bytes, 8 - n)
        }
    }
}

/// Pulls bit fields from the end of a byte stream towards its start. The stream is padded on
/// the left by `PAD_BYTES` bytes that are not data: a read is complete when every bit above
/// the pad has been pulled.
pub struct BitReader<'a> {
    src: &'a [u8],
    pos: i128,
}

/// The bytes that pad a bit stream on the left.
pub const PAD_BYTES: usize = 8;

/// The `n` bits below position `pos` of `src`, least significant first; bits below the start
/// read as zero.
pub open spec fn window(src: Seq<u8>, pos: int, n: int) -> Seq<bool> {
    Seq::new(n as nat, |i: int| stream_bit(src, pos - n + i))
}

/// The data bits of a padded stream below position `pos`: those above the pad.
pub open spec fn data_view(src: Seq<u8>, pos: int) -> Seq<bool> {
    stream_view(src, pos).skip(8 * PAD_BYTES as int)
}

impl<'a> BitReader<'a> {
    /// The data bits not yet pulled.
    pub open spec fn view(&self) -> Seq<bool> {
        data_view(self.source(), self.position())
    }

    /// The position below which bits remain; the data bits are those at `8 * PAD_BYTES` and
    /// above.
    pub closed spec fn position(&self) -> int {
        self.pos as int
    }

    pub closed spec fn source(&self) -> Seq<u8> {
        self.src@
    }

    /// A reader over `src`, padded on the left by `PAD_BYTES` bytes, whose last byte has `off`
    /// unused high bits. Fails with `BadBitStream` where those bits are not zero.
    pub fn new(src: &'a [u8], off: u32) -> (r: Result<BitReader<'a>, Error>)
        requires
            off <= 7,
            PAD_BYTES <= src@.len(),
        ensures
            r.is_ok() <==> (off == 0 || src@.last() >> ((8 - off) as u8) == 0),
            r.is_err() ==> r == Err::<BitReader<'a>, Error>(Error::BadBitStream),
            r matches Ok(rd) ==> rd.source() == src@ && rd.position() == 8 * src@.len() - off,
    {
        let len = src.len();
        if off != 0 && src[len - 1] >> ((8 - off) as u8) != 0 {
            Err(Error::BadBitStream)
        } else {
            Ok(BitReader { src, pos: (len as i128) * 8 - off as i128 })
        }
    }

    fn bit(&self, j: i128) -> (r: bool)
        ensures
            r == stream_bit(self.src@, j as int),
    {
        let len = self.src.len();
        if j < 0 || j >= (len as i128) * 8 {
            false
        } else {
            let b = self.src[(j / 8) as usize];
            (b >> ((j % 8) as u8)) & 1 == 1
        }
    }

    /// Pulls `n_bits` bits from the top of the stream; bits below its start read as zero.
    pub fn pull(&mut self, n_bits: u32) -> (r: u64)
        requires
            n_bits <= 32,
            old(self).position() >= -0x1_0000_0000_0000_0000,
        ensures
            final(self).source() == old(self).source(),
            final(self).position() == old(self).position() - n_bits,
            r == seq_val(window(old(self).source(), old(self).position(), n_bits as int)),
            fits(r, n_bits),
    {
        let ghost w = window(self.src@, self.pos as int, n_bits as int);
        let mut v: u64 = 0;
        let mut k: u32 = n_bits;
        let base = self.pos - n_bits as i128;
        assert(0u64 >> 0u64 == 0) by (bit_vector);
        while k > 0
            invariant
                k <= n_bits <= 32,
                base == old(self).pos - n_bits,
                *self == *old(self),
                w == window(self.src@, old(self).pos as int, n_bits as int),
                v == seq_val(w.subrange(k as int, n_bits as int)),
                v >> ((n_bits - k) as u64) == 0,
            decreases k,
        {
            let bit = self.bit(base + (k - 1) as i128);
            let ghost s = w.subrange(k - 1, n_bits as int);
            assert(s.drop_first() =~= w.subrange(k as int, n_bits as int));
            assert(s[0] == bit);
            let m = (n_bits - k) as u64;
            assert(v < 0x1_0000_0000) by (bit_vector)
                requires
                    v >> m == 0,
                    m < 32,
            ;
            let v2 = 2 * v + if bit { 1u64 } else { 0u64 };
            assert(v2 >> (m + 1) == 0 && v2 == (v << 1u64) | (if bit { 1u64 } else { 0u64 })) by (bit_vector)
                requires
                    v >> m == 0,
                    m < 32,
                    v2 == 2 * v + if bit { 1u64 } else { 0u64 },
            ;
            v = v2;
            k -= 1;
        }
        assert(w.subrange(0, n_bits as int) =~= w);
        self.pos = base;
        v
    }

    /// Ends the read: succeeds exactly when every data bit was pulled, no more and no fewer,
    /// leaving the pad.
    pub fn finalize(self) -> (r: Result<(), Error>)
        ensures
            r.is_ok() <==> self.position() == 8 * PAD_BYTES,
            r.is_err() ==> r == Err::<(), Error>(Error::PayloadUnderflow),
    {
        if self.pos == 64 {
            Ok(())
        } else {
            Err(Error::PayloadUnderflow)
        }
    }

    /// The byte stream.
    pub fn into_inner(self) -> (r: &'a [u8])
        ensures
            r@ == self.source(),
    {
        self.src
    }
}

/// Behind a pad, the bits of a written stream read as written: the data bits of
/// `pad + bytes` are the bits of `bytes`.
pub proof fn lemma_padded_view(pad: Seq<u8>, bytes: Seq<u8>, p: int)
    requires
        pad.len() == PAD_BYTES,
        0 <= p <= 8 * bytes.len(),
    ensures
        data_view(pad + bytes, 8 * PAD_BYTES + p) == stream_view(bytes, p),
        forall|j: int| 0 <= j < p ==> stream_bit(pad + bytes, 8 * PAD_BYTES + j) == stream_bit(bytes, j),
{
    assert forall|j: int| 0 <= j < p implies stream_bit(pad + bytes, 8 * PAD_BYTES + j) == stream_bit(bytes, j) by {
        assert((64 + j) / 8 == 8 + j / 8 && (64 + j) % 8 == j % 8) by (nonlinear_arith)
            requires
                0 <= j,
        ;
        assert(j / 8 < bytes.len()) by (nonlinear_arith)
            requires
                0 <= j < p,
                p <= 8 * bytes.len(),
        ;
    }
    assert(data_view(pad + bytes, 8 * PAD_BYTES + p) =~= stream_view(bytes, p));
}

/// A reader over a pad and the bytes of a stream of written fields, at the stream's top, pulls
/// the last field's value and is left at the top of the fields before it.
pub proof fn law_read_written(pad: Seq<u8>, bytes: Seq<u8>, ws: Seq<(u64, u32)>)
    requires
        pad.len() == PAD_BYTES,
        ws.len() > 0,
        forall|i: int| 0 <= i < ws.len() ==> fits(#[trigger] ws[i].0, ws[i].1),
        stream_of(ws).len() <= 8 * bytes.len(),
        stream_view(bytes, stream_of(ws).len() as int) == stream_of(ws),
    ensures
        ({
            let p = 8 * PAD_BYTES + stream_of(ws).len();
            let n = ws.last().1 as int;
            &&& seq_val(window(pad + bytes, p, n)) == ws.last().0
            &&& data_view(pad + bytes, p - n) == stream_of(ws.drop_last())
        }),
{
    let s = stream_of(ws.drop_last());
    let (b, n) = ws.last();
    assert(fits(ws[ws.len() - 1].0, ws[ws.len() - 1].1));
    lemma_pull_after_push(s, b, n);
    let total = stream_of(ws).len() as int;
    lemma_padded_view(pad, bytes, total);
    let w = window(pad + bytes, 8 * PAD_BYTES + total, n as int);
    assert forall|i: int| 0 <= i < n implies w[i] == (s + bits_of(b, n))[s.len() + i] by {
        assert(stream_bit(pad + bytes, 8 * PAD_BYTES + (s.len() + i)) == stream_bit(bytes, s.len() + i));
        assert(stream_view(bytes, total)[s.len() + i] == stream_of(ws)[s.len() + i]);
    }
    assert(w =~= (s + bits_of(b, n)).subrange(s.len() as int, s.len() + n));
    lemma_padded_view(pad, bytes, s.len() as int);
    assert(stream_view(bytes, s.len() as int) =~= stream_view(bytes, total).take(s.len() as int));
}

/// Pulling the window below the top of a stream of at least that many bits reads the top of
/// the stream.
pub proof fn lemma_window_top(src: Seq<u8>, pos: int, n: int)
    requires
        0 <= n <= pos,
    ensures
        window(src, pos, n) == stream_view(src, pos).subrange(pos - n, pos),
        stream_view(src, pos - n) == stream_view(src, pos).take(pos - n),
{
    assert(window(src, pos, n) =~= stream_view(src, pos).subrange(pos - n, pos));
    assert(stream_view(src, pos - n) =~= stream_view(src, pos).take(pos - n));
}

/// A value that fits in 16 bits or fewer is below 2^16.
pub proof fn lemma_fits_small(b: u64, n: u32)
    requires
        fits(b, n),
        n <= 16,
    ensures
        b < 0x1_0000,
{
    let nn = n as u64;
    assert(b < 0x1_0000) by (bit_vector)
        requires
            b >> nn == 0,
            nn <= 16,
    ;
}

} // verus!
