//! Reading and writing single bits, most significant bit of each byte first.

use vstd::prelude::*;
use crate::blc::string_from_chars;

verus! {

/// Bit `j` (0 is the most significant) of byte `b`.
pub open spec fn bit_of(b: u8, j: int) -> bool {
    (b >> ((7 - j) as u8)) & 1u8 == 1u8
}

/// The bit stream that a byte sequence holds, most significant bit first.
pub open spec fn bits_of(data: Seq<u8>) -> Seq<bool> {
    Seq::new(8 * data.len(), |k: int| bit_of(data[k / 8], k % 8))
}

/// `bytes` is the shortest byte sequence that starts with `bits`,
/// padded with zero bits up to the next byte boundary.
pub open spec fn packs(bytes: Seq<u8>, bits: Seq<bool>) -> bool {
    &&& bytes.len() == (bits.len() + 7) / 8
    &&& forall|k: int|
        0 <= k < 8 * bytes.len() ==> #[trigger] bits_of(bytes)[k] == (k < bits.len() && bits[k])
}

/// Bytes that pack `n` bits are `ceil(n / 8)` long, and reading their bits
/// back gives those `n` bits followed by fewer than eight zero bits.
pub proof fn lemma_packed_reads_back(bytes: Seq<u8>, bits: Seq<bool>)
    requires
        packs(bytes, bits),
    ensures
        bytes.len() == (bits.len() + 7) / 8,
        0 <= 8 * bytes.len() - bits.len() < 8,
        bits_of(bytes) == bits + Seq::new((8 * bytes.len() - bits.len()) as nat, |i: int| false),
{
    let n = bits.len() as int;
    assert(n <= 8 * bytes.len() < n + 8) by (nonlinear_arith)
        requires bytes.len() == (n + 7) / 8, 0 <= n;
    let pad = Seq::new((8 * bytes.len() - n) as nat, |i: int| false);
    assert forall|k: int| 0 <= k < 8 * bytes.len() implies #[trigger] bits_of(bytes)[k] == (bits
        + pad)[k] by {
        assert(bits_of(bytes)[k] == (k < n && bits[k]));
    }
    assert(bits_of(bytes) =~= bits + pad);
}

proof fn lemma_byte_from_bits(x: u8, y: u8)
    requires
        forall|j: int| 0 <= j < 8 ==> bit_of(x, j) == bit_of(y, j),
    ensures
        x == y,
{
    assert(bit_of(x, 0) == bit_of(y, 0));
    assert(bit_of(x, 1) == bit_of(y, 1));
    assert(bit_of(x, 2) == bit_of(y, 2));
    assert(bit_of(x, 3) == bit_of(y, 3));
    assert(bit_of(x, 4) == bit_of(y, 4));
    assert(bit_of(x, 5) == bit_of(y, 5));
    assert(bit_of(x, 6) == bit_of(y, 6));
    assert(bit_of(x, 7) == bit_of(y, 7));
    assert(x == y) by (bit_vector)
        requires
            ((x >> 7u8) & 1u8 == 1u8) == ((y >> 7u8) & 1u8 == 1u8),
            ((x >> 6u8) & 1u8 == 1u8) == ((y >> 6u8) & 1u8 == 1u8),
            ((x >> 5u8) & 1u8 == 1u8) == ((y >> 5u8) & 1u8 == 1u8),
            ((x >> 4u8) & 1u8 == 1u8) == ((y >> 4u8) & 1u8 == 1u8),
            ((x >> 3u8) & 1u8 == 1u8) == ((y >> 3u8) & 1u8 == 1u8),
            ((x >> 2u8) & 1u8 == 1u8) == ((y >> 2u8) & 1u8 == 1u8),
            ((x >> 1u8) & 1u8 == 1u8) == ((y >> 1u8) & 1u8 == 1u8),
            ((x >> 0u8) & 1u8 == 1u8) == ((y >> 0u8) & 1u8 == 1u8),
    ;
}

/// A bit sequence has one packing: two byte sequences that both pack it
/// are equal.
pub proof fn lemma_packs_unique(a: Seq<u8>, b: Seq<u8>, bits: Seq<bool>)
    requires
        packs(a, bits),
        packs(b, bits),
    ensures
        a == b,
{
    assert forall|i: int| 0 <= i < a.len() implies a[i] == b[i] by {
        assert forall|j: int| 0 <= j < 8 implies bit_of(a[i], j) == bit_of(b[i], j) by {
            let k = 8 * i + j;
            assert(0 <= k < 8 * a.len()) by (nonlinear_arith)
                requires 0 <= i < a.len(), 0 <= j < 8, k == 8 * i + j;
            lemma_pos_split(i, j);
            assert(k == i * 8 + j);
            assert(bits_of(a)[k] == bits_of(b)[k]);
        }
        lemma_byte_from_bits(a[i], b[i]);
    }
    assert(a =~= b);
}

proof fn lemma_pos_split(b: int, p: int)
    requires
        0 <= b,
        0 <= p < 8,
    ensures
        (b * 8 + p) / 8 == b,
        (b * 8 + p) % 8 == p,
{
    assert((b * 8 + p) / 8 == b) by (nonlinear_arith)
        requires 0 <= b, 0 <= p < 8;
    assert((b * 8 + p) % 8 == p) by (nonlinear_arith)
        requires 0 <= b, 0 <= p < 8;
}

proof fn lemma_set_bit(b: u8, p: u8, j: u8)
    requires
        p < 8,
        j < 8,
    ensures
        bit_of(b | (1u8 << (7 - p) as u8), j as int) == (j == p || bit_of(b, j as int)),
{
    assert(((b | (1u8 << (7 - p) as u8)) >> (7 - j) as u8) & 1u8 == 1u8 <==> (j == p || (b >> (
    7 - j) as u8) & 1u8 == 1u8)) by (bit_vector)
        requires
            p < 8,
            j < 8,
    ;
}

proof fn lemma_zero_byte(j: int)
    requires
        0 <= j < 8,
    ensures
        !bit_of(0u8, j),
{
    let sh = (7 - j) as u8;
    assert((0u8 >> sh) & 1u8 == 0u8) by (bit_vector);
}

/// A cursor over a byte buffer that hands out its bits one at a time.
pub struct BitReader<'a> {
    pub data: &'a [u8],
    pub byte_pos: usize,
    pub bit_pos: u8,
}

impl<'a> BitReader<'a> {
    /// The bits of the whole buffer.
    pub open spec fn stream(&self) -> Seq<bool> {
        bits_of(self.data@)
    }

    /// How many bits have been read so far.
    pub open spec fn pos(&self) -> int {
        self.byte_pos * 8 + self.bit_pos
    }

    pub open spec fn wf(&self) -> bool {
        &&& self.bit_pos < 8
        &&& self.byte_pos <= self.data@.len()
        &&& self.byte_pos == self.data@.len() ==> self.bit_pos == 0
    }

    pub fn new(data: &'a [u8]) -> (r: Self)
        ensures
            r.wf(),
            r.pos() == 0,
            r.stream() == bits_of(data@),
    {
        BitReader { data, byte_pos: 0, bit_pos: 0 }
    }

    /// The next bit, or `None` once every bit of the buffer has been read.
    pub fn read_bit(&mut self) -> (r: Option<bool>)
        requires
            old(self).wf(),
        ensures
            final(self).wf(),
            final(self).stream() == old(self).stream(),
            0 <= old(self).pos() <= old(self).stream().len(),
            old(self).pos() < old(self).stream().len() ==> r == Some(old(self).stream()[old(
                self,
            ).pos()]) && final(self).pos() == old(self).pos() + 1,
            old(self).pos() == old(self).stream().len() ==> r is None && final(self).pos() == old(
                self,
            ).pos(),
    {
        proof {
            lemma_pos_split(self.byte_pos as int, self.bit_pos as int);
            assert(self.pos() <= 8 * self.data@.len()) by (nonlinear_arith)
                requires
                    self.byte_pos <= self.data@.len(),
                    self.byte_pos == self.data@.len() ==> self.bit_pos == 0,
                    self.bit_pos < 8,
            ;
        }
        if self.byte_pos >= self.data.len() {
            return None;
        }
        let byte = self.data[self.byte_pos];
        let bit = (byte >> (7 - self.bit_pos)) & 1;
        self.bit_pos = self.bit_pos + 1;
        if self.bit_pos == 8 {
            self.bit_pos = 0;
            self.byte_pos = self.byte_pos + 1;
        }
        Some(bit == 1)
    }

    /// How many bits have been read so far.
    pub fn bits_read(&self) -> (r: usize)
        requires
            self.wf(),
            self.data@.len() * 8 <= usize::MAX,
        ensures
            r == self.pos(),
    {
        proof {
            assert(self.byte_pos * 8 + 8 <= self.data@.len() * 8 + 8) by (nonlinear_arith)
                requires self.byte_pos <= self.data@.len();
            assert(self.byte_pos * 8 + self.bit_pos <= usize::MAX) by (nonlinear_arith)
                requires
                    self.byte_pos <= self.data@.len(),
                    self.byte_pos == self.data@.len() ==> self.bit_pos == 0,
                    self.bit_pos < 8,
                    self.data@.len() * 8 <= usize::MAX,
            ;
        }
        self.byte_pos * 8 + self.bit_pos as usize
    }
}

/// An output buffer that takes bits one at a time.
///
/// The last byte of `data` is always the one that receives the next bit; it
/// is dropped by `finish` when no bit went into it.
pub struct BitWriter {
    pub data: Vec<u8>,
    pub bit_pos: u8,
}

impl BitWriter {
    pub open spec fn wf(&self) -> bool {
        &&& self.data@.len() >= 1
        &&& self.bit_pos < 8
        &&& forall|j: int|
            self.bit_pos <= j < 8 ==> !#[trigger] bit_of(self.data@[self.data@.len() - 1], j)
    }

    /// The bits written so far.
    pub open spec fn written(&self) -> Seq<bool> {
        bits_of(self.data@).take(8 * (self.data@.len() - 1) + self.bit_pos)
    }

    pub fn new() -> (r: Self)
        ensures
            r.wf(),
            r.written() == Seq::<bool>::empty(),
    {
        let r = BitWriter { data: vec![0u8], bit_pos: 0 };
        proof {
            assert forall|j: int| 0 <= j < 8 implies !#[trigger] bit_of(r.data@[0], j) by {
                lemma_zero_byte(j);
            }
        }
        assert(r.written() =~= Seq::<bool>::empty());
        r
    }

    /// Appends one bit.
    pub fn write_bit(&mut self, bit: bool)
        requires
            old(self).wf(),
        ensures
            final(self).wf(),
            final(self).written() == old(self).written().push(bit),
    {
        let ghost before = self.written();
        let ghost old_data = self.data@;
        let ghost p = self.bit_pos;
        let last = self.data.len() - 1;
        let ghost n = 8 * last + p;
        if bit {
            let b = self.data[last];
            self.data.set(last, b | (1u8 << (7 - self.bit_pos)));
            proof {
                assert forall|j: u8| j < 8 implies bit_of(self.data@[last as int], j as int) == (j
                    == p || bit_of(b, j as int)) by {
                    lemma_set_bit(b, p, j);
                }
            }
        }
        proof {
            // every bit but the one at position n is unchanged
            assert forall|k: int| 0 <= k < 8 * old_data.len() implies #[trigger] bits_of(
                self.data@,
            )[k] == if k == n {
                bit
            } else {
                bits_of(old_data)[k]
            } by {
                let bq = k / 8;
                let br = k % 8;
                assert(0 <= bq < old_data.len()) by (nonlinear_arith)
                    requires 0 <= k < 8 * old_data.len(), bq == k / 8;
                lemma_pos_split(last as int, p as int);
                if bq == last {
                    if bit {
                        let jj = br as u8;
                        lemma_set_bit(old_data[last as int], p, jj);
                        assert(bit_of(self.data@[last as int], jj as int) == (jj == p || bit_of(
                            old_data[last as int],
                            jj as int,
                        )));
                        if k != n {
                            assert(br != p) by (nonlinear_arith)
                                requires
                                    k != n,
                                    n == last * 8 + p,
                                    bq == last,
                                    bq == k / 8,
                                    br == k % 8,
                            ;
                        }
                    } else {
                        assert(self.data@ == old_data);
                        if k == n {
                            assert(!bit_of(old_data[last as int], p as int));
                        }
                    }
                } else {
                    assert(self.data@[bq] == old_data[bq]);
                    assert(k != n) by (nonlinear_arith)
                        requires bq != last, n == last * 8 + p, bq == k / 8, 0 <= p < 8;
                }
            }
        }
        self.bit_pos = self.bit_pos + 1;
        if self.bit_pos == 8 {
            self.bit_pos = 0;
            self.data.push(0u8);
            proof {
                assert forall|j: int| 0 <= j < 8 implies !#[trigger] bit_of(
                    self.data@[self.data@.len() - 1],
                    j,
                ) by {
                    lemma_zero_byte(j);
                }
                assert forall|k: int| 0 <= k < 8 * old_data.len() implies #[trigger] bits_of(
                    self.data@,
                )[k] == bits_of(old_data.update(last as int, self.data@[last as int]))[k] by {
                    assert(0 <= k / 8 < old_data.len()) by (nonlinear_arith)
                        requires 0 <= k < 8 * old_data.len();
                }
            }
        } else {
            proof {
                assert forall|j: int| self.bit_pos <= j < 8 implies !#[trigger] bit_of(
                    self.data@[self.data@.len() - 1],
                    j,
                ) by {
                    if bit {
                        lemma_set_bit(old_data[last as int], p, j as u8);
                    }
                }
            }
        }
        assert(self.written() =~= before.push(bit));
    }

    /// The bytes written, padded with zero bits to a byte boundary.
    pub fn finish(self) -> (r: Vec<u8>)
        requires
            self.wf(),
        ensures
            packs(r@, self.written()),
    {
        let mut data = self.data;
        if self.bit_pos == 0 && data.len() > 0 {
            data.pop();
        }
        data
    }
}

/// The bits of one byte as eight `0` and `1` characters.
pub open spec fn byte_text(b: u8) -> Seq<char> {
    Seq::new(8, |j: int| if bit_of(b, j) { '1' } else { '0' })
}

/// Each byte as `byte_text`, separated by single spaces.
pub open spec fn bits_text(data: Seq<u8>) -> Seq<char>
    decreases data.len(),
{
    if data.len() == 0 {
        Seq::empty()
    } else if data.len() == 1 {
        byte_text(data[0])
    } else {
        bits_text(data.drop_last()) + seq![' '] + byte_text(data.last())
    }
}

/// The bytes as groups of eight binary digits, most significant first,
/// separated by spaces.
pub fn format_bits(data: &[u8]) -> (r: String)
    ensures
        r@ == bits_text(data@),
{
    let mut out: Vec<char> = Vec::new();
    let mut i: usize = 0;
    while i < data.len()
        invariant
            i <= data@.len(),
            out@ == bits_text(data@.subrange(0, i as int)),
        decreases data@.len() - i,
    {
        let ghost before = out@;
        if i > 0 {
            out.push(' ');
        }
        let b = data[i];
        let mut j: u8 = 0;
        while j < 8
            invariant
                j <= 8,
                b == data@[i as int],
                out@ == (if i > 0 { before + seq![' '] } else { before }) + byte_text(b).take(
                    j as int,
                ),
            decreases 8 - j,
        {
            let bit = (b >> (7 - j)) & 1;
            out.push(if bit == 1 { '1' } else { '0' });
            j = j + 1;
            assert(out@ =~= (if i > 0 { before + seq![' '] } else { before }) + byte_text(b).take(
                j as int,
            ));
        }
        assert(data@.subrange(0, i + 1).drop_last() =~= data@.subrange(0, i as int));
        assert(byte_text(b).take(8) =~= byte_text(b));
        if i == 0 {
            assert(before =~= Seq::<char>::empty());
            assert(out@ =~= bits_text(data@.subrange(0, 1)));
        }
        i = i + 1;
        assert(out@ =~= bits_text(data@.subrange(0, i as int)));
    }
    assert(data@.subrange(0, i as int) =~= data@);
    string_from_chars(&out)
}

} // verus!
