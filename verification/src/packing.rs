//! Packed rows of codes: one code per byte, or two.

use vstd::prelude::*;

use crate::math;
use crate::quant;
use crate::scalar;
use crate::scalar::Scalar;

verus! {

/// Whether codes of `bits` bits can be packed into rows of `d`.
pub open spec fn packable(d: nat, bits: u32) -> bool {
    bits == 8 || (bits == 4 && d % 2 == 0)
}

/// What packing keeps of a code.
pub open spec fn stored(code: u8, bits: u32) -> u8 {
    if bits == 4 {
        code & 0x0F
    } else {
        code
    }
}

/// The byte that holds the codes `2 * i` and `2 * i + 1`, the even one in the
/// low nibble.
pub open spec fn nibbles(codes: Seq<u8>, i: int) -> u8 {
    let high = if 2 * i + 1 < codes.len() {
        codes[2 * i + 1] & 0x0F
    } else {
        0
    };
    (codes[2 * i] & 0x0F) | (high << 4)
}

/// The bytes that hold the codes.
pub open spec fn packed(codes: Seq<u8>, bits: u32) -> Seq<u8> {
    if bits == 4 {
        Seq::new(math::ceil_div(codes.len(), 2), |i: int| nibbles(codes, i))
    } else {
        codes
    }
}

/// The code in column `c` of a packed row.
pub open spec fn code_at(row: Seq<u8>, bits: u32, c: int) -> u8 {
    if bits == 4 {
        if c % 2 == 0 {
            row[c / 2] & 0x0F
        } else {
            row[c / 2] >> 4
        }
    } else {
        row[c]
    }
}

/// Packing loses nothing but the bits above the width: each code of a packed
/// row reads back as what was stored of it.
pub proof fn law_packed_codes_read_back(codes: Seq<u8>, bits: u32, c: int)
    requires
        bits == 4 || bits == 8,
        0 <= c < codes.len(),
    ensures
        code_at(packed(codes, bits), bits, c) == stored(codes[c], bits),
        codes[c] <= quant::max_code(bits) ==> code_at(packed(codes, bits), bits, c) == codes[c],
{
    quant::lemma_max_code(bits);
    let x = codes[c];
    assert(x <= 15 ==> x & 0x0F == x) by (bit_vector);
    if bits == 4 {
        math::lemma_div_below_ceil(c as nat, codes.len(), 2);
        let i = c / 2;
        let low = codes[2 * i];
        let high = if 2 * i + 1 < codes.len() {
            codes[2 * i + 1] & 0x0F
        } else {
            0
        };
        assert(packed(codes, bits)[i] == (low & 0x0F) | (high << 4));
        assert(((low & 0x0F) | (high << 4)) & 0x0F == low & 0x0F) by (bit_vector);
        assert(high <= 15 ==> ((low & 0x0F) | (high << 4)) >> 4 == high) by (bit_vector);
        if 2 * i + 1 < codes.len() {
            let y = codes[2 * i + 1];
            assert(y & 0x0F <= 15) by (bit_vector);
        }
    }
}

/// A packed row takes one byte per code, or one for two.
pub proof fn lemma_row_len(d: nat, bits: u32)
    requires
        bits == 4 || bits == 8,
    ensures
        quant::row_len(d, bits) == if bits == 4 {
            math::ceil_div(d, 2)
        } else {
            d
        },
{
    assert(d * bits as nat == d * 4 || bits == 8) by (nonlinear_arith)
        requires
            bits == 4 || bits == 8,
    ;
    assert(d * bits as nat == d * 8 || bits == 4) by (nonlinear_arith)
        requires
            bits == 4 || bits == 8,
    ;
}

/// A packed row has as many bytes as [`quant::row_bytes`] says.
pub proof fn law_packed_len(codes: Seq<u8>, bits: u32)
    requires
        bits == 4 || bits == 8,
    ensures
        packed(codes, bits).len() == quant::row_len(codes.len(), bits),
{
    lemma_row_len(codes.len(), bits);
}

/// Appends the packed codes to `out`.
pub fn pack_codes(codes: &[u8], bits: u32, out: &mut Vec<u8>)
    requires
        bits == 4 || bits == 8,
    ensures
        final(out)@ == old(out)@ + packed(codes@, bits),
{
    let n: usize = codes.len();
    if bits == 8 {
        let mut i: usize = 0;
        while i < n
            invariant
                n == codes@.len(),
                i <= n,
                out@ == old(out)@ + codes@.take(i as int),
            decreases n - i,
        {
            out.push(codes[i]);
            i += 1;
            assert(codes@.take(i as int) =~= codes@.take(i - 1).push(codes@[i - 1]));
        }
        assert(codes@.take(n as int) =~= codes@);
    } else {
        let count: usize = math::div_ceil(n, 2);
        let mut i: usize = 0;
        while i < count
            invariant
                n == codes@.len(),
                count == math::ceil_div(n as nat, 2),
                i <= count,
                bits == 4,
                out@ == old(out)@ + packed(codes@, bits).take(i as int),
            decreases count - i,
        {
            proof {
                math::lemma_ceil_div(n as nat, 2);
                assert(2 * i < n);
            }
            let low: u8 = codes[2 * i] & 0x0F;
            let high: u8 = if 2 * i < n - 1 { codes[2 * i + 1] & 0x0F } else { 0 };
            out.push(low | (high << 4));
            i += 1;
            assert(packed(codes@, bits).take(i as int) =~= packed(codes@, bits).take(i - 1).push(
                packed(codes@, bits)[i - 1],
            ));
        }
        assert(packed(codes@, bits).take(count as int) =~= packed(codes@, bits));
    }
}

/// The code in column `c` of a packed row of `d`.
pub fn unpack_code(row: &[u8], bits: u32, c: usize) -> (r: u8)
    requires
        bits == 4 || bits == 8,
        if bits == 4 {
            c / 2 < row@.len()
        } else {
            c < row@.len()
        },
    ensures
        r == code_at(row@, bits, c as int),
{
    if bits == 4 {
        let byte: u8 = row[c / 2];
        if c % 2 == 0 {
            byte & 0x0F
        } else {
            byte >> 4
        }
    } else {
        row[c]
    }
}

/// Whether column `c` of a row of `d` nibbles falls to the vector body: all but
/// the last `d % 16` do.
pub open spec fn in_vector_body(d: int, c: int) -> bool {
    c < d - d % 16
}

/// What a code reads back as, with one rounding or with two.
pub open spec fn affine<T: Scalar>(code: u8, lo: T, scale: T, once: bool) -> T {
    if once {
        T::of_count_spec(code as usize).fused_spec(scale, lo)
    } else {
        quant::decoded(code, lo, scale)
    }
}

/// What the code in column `c` of a row of `d` reads back as.
pub open spec fn read_back<T: Scalar>(code: u8, d: int, bits: u32, c: int, lo: T, scale: T) -> T {
    affine(code, lo, scale, bits == 4 && T::vectorized_spec() && in_vector_body(d, c))
}

/// Unpacks a row of `d` nibbles whose codes share offset and step. Columns in
/// groups of sixteen are computed with fused arithmetic, the rest without.
pub fn dequant_int4_pertoken<T: Scalar>(src: &[u8], d: usize, lo: T, scale: T, dst: &mut [T])
    requires
        scalar::lawful::<T>(),
        math::ceil_div(d as nat, 2) <= src@.len(),
        d <= old(dst)@.len(),
    ensures
        final(dst)@.len() == old(dst)@.len(),
        forall|c: int|
            0 <= c < d ==> #[trigger] final(dst)@[c] == affine(
                code_at(src@, 4, c),
                lo,
                scale,
                in_vector_body(d as int, c),
            ),
        forall|c: int| d <= c < old(dst)@.len() ==> #[trigger] final(dst)@[c] == old(dst)@[c],
{
    let body: usize = d - d % 16;
    let mut c: usize = 0;
    while c < d
        invariant
            scalar::lawful::<T>(),
            math::ceil_div(d as nat, 2) <= src@.len(),
            body == d - d % 16,
            c <= d,
            d <= dst@.len(),
            dst@.len() == old(dst)@.len(),
            forall|k: int|
                0 <= k < c ==> #[trigger] dst@[k] == affine(
                    code_at(src@, 4, k),
                    lo,
                    scale,
                    in_vector_body(d as int, k),
                ),
            forall|k: int| c <= k < old(dst)@.len() ==> #[trigger] dst@[k] == old(dst)@[k],
        decreases d - c,
    {
        proof {
            math::lemma_div_below_ceil(c as nat, d as nat, 2);
        }
        let code: u8 = unpack_code(src, 4, c);
        if c < body {
            dst[c] = scalar::fused(scalar::of_count(code as usize), scale, lo);
        } else {
            dst[c] = quant::decode(code, lo, scale);
        }
        c += 1;
    }
}

/// Unpacks a row of `d` nibbles, each column with its own offset and step.
/// Columns in groups of sixteen are computed with fused arithmetic, the rest
/// without.
pub fn dequant_int4_perchannel<T: Scalar>(
    src: &[u8],
    d: usize,
    ch_lo: &[T],
    ch_scale: &[T],
    dst: &mut [T],
)
    requires
        scalar::lawful::<T>(),
        math::ceil_div(d as nat, 2) <= src@.len(),
        d <= ch_lo@.len(),
        d <= ch_scale@.len(),
        d <= old(dst)@.len(),
    ensures
        final(dst)@.len() == old(dst)@.len(),
        forall|c: int|
            0 <= c < d ==> #[trigger] final(dst)@[c] == affine(
                code_at(src@, 4, c),
                ch_lo@[c],
                ch_scale@[c],
                in_vector_body(d as int, c),
            ),
        forall|c: int| d <= c < old(dst)@.len() ==> #[trigger] final(dst)@[c] == old(dst)@[c],
{
    let body: usize = d - d % 16;
    let mut c: usize = 0;
    while c < d
        invariant
            scalar::lawful::<T>(),
            math::ceil_div(d as nat, 2) <= src@.len(),
            d <= ch_lo@.len(),
            d <= ch_scale@.len(),
            body == d - d % 16,
            c <= d,
            d <= dst@.len(),
            dst@.len() == old(dst)@.len(),
            forall|k: int|
                0 <= k < c ==> #[trigger] dst@[k] == affine(
                    code_at(src@, 4, k),
                    ch_lo@[k],
                    ch_scale@[k],
                    in_vector_body(d as int, k),
                ),
            forall|k: int| c <= k < old(dst)@.len() ==> #[trigger] dst@[k] == old(dst)@[k],
        decreases d - c,
    {
        proof {
            math::lemma_div_below_ceil(c as nat, d as nat, 2);
        }
        let code: u8 = unpack_code(src, 4, c);
        if c < body {
            dst[c] = scalar::fused(scalar::of_count(code as usize), ch_scale[c], ch_lo[c]);
        } else {
            dst[c] = quant::decode(code, ch_lo[c], ch_scale[c]);
        }
        c += 1;
    }
}

/// Unpacks a row of `d` codes that share offset and step.
pub fn dequant_row_pertoken<T: Scalar>(
    src: &[u8],
    d: usize,
    bits: u32,
    lo: T,
    scale: T,
    dst: &mut [T],
)
    requires
        scalar::lawful::<T>(),
        bits == 4 || bits == 8,
        quant::row_len(d as nat, bits) <= src@.len(),
        d <= old(dst)@.len(),
    ensures
        final(dst)@.len() == old(dst)@.len(),
        forall|c: int|
            0 <= c < d ==> #[trigger] final(dst)@[c] == read_back(
                code_at(src@, bits, c),
                d as int,
                bits,
                c,
                lo,
                scale,
            ),
        forall|c: int| d <= c < old(dst)@.len() ==> #[trigger] final(dst)@[c] == old(dst)@[c],
{
    if bits == 4 && scalar::vectorized::<T>() {
        proof {
            lemma_row_len(d as nat, bits);
        }
        dequant_int4_pertoken(src, d, lo, scale, dst);
        return;
    }
    let mut c: usize = 0;
    while c < d
        invariant
            scalar::lawful::<T>(),
            bits == 4 || bits == 8,
            !(bits == 4 && T::vectorized_spec()),
            quant::row_len(d as nat, bits) <= src@.len(),
            c <= d,
            d <= dst@.len(),
            dst@.len() == old(dst)@.len(),
            forall|k: int|
                0 <= k < c ==> #[trigger] dst@[k] == read_back(
                    code_at(src@, bits, k),
                    d as int,
                    bits,
                    k,
                    lo,
                    scale,
                ),
            forall|k: int| c <= k < old(dst)@.len() ==> #[trigger] dst@[k] == old(dst)@[k],
        decreases d - c,
    {
        proof {
            math::lemma_div_below_ceil(c as nat, d as nat, 2);
            lemma_row_len(d as nat, bits);
        }
        dst[c] = quant::decode(unpack_code(src, bits, c), lo, scale);
        c += 1;
    }
}

/// Unpacks a row of `d` codes, each column with its own offset and step.
pub fn dequant_row_perchannel<T: Scalar>(
    src: &[u8],
    d: usize,
    bits: u32,
    ch_lo: &[T],
    ch_scale: &[T],
    dst: &mut [T],
)
    requires
        scalar::lawful::<T>(),
        bits == 4 || bits == 8,
        quant::row_len(d as nat, bits) <= src@.len(),
        d <= ch_lo@.len(),
        d <= ch_scale@.len(),
        d <= old(dst)@.len(),
    ensures
        final(dst)@.len() == old(dst)@.len(),
        forall|c: int|
            0 <= c < d ==> #[trigger] final(dst)@[c] == read_back(
                code_at(src@, bits, c),
                d as int,
                bits,
                c,
                ch_lo@[c],
                ch_scale@[c],
            ),
        forall|c: int| d <= c < old(dst)@.len() ==> #[trigger] final(dst)@[c] == old(dst)@[c],
{
    if bits == 4 && scalar::vectorized::<T>() {
        proof {
            lemma_row_len(d as nat, bits);
        }
        dequant_int4_perchannel(src, d, ch_lo, ch_scale, dst);
        return;
    }
    let mut c: usize = 0;
    while c < d
        invariant
            scalar::lawful::<T>(),
            bits == 4 || bits == 8,
            !(bits == 4 && T::vectorized_spec()),
            quant::row_len(d as nat, bits) <= src@.len(),
            d <= ch_lo@.len(),
            d <= ch_scale@.len(),
            c <= d,
            d <= dst@.len(),
            dst@.len() == old(dst)@.len(),
            forall|k: int|
                0 <= k < c ==> #[trigger] dst@[k] == read_back(
                    code_at(src@, bits, k),
                    d as int,
                    bits,
                    k,
                    ch_lo@[k],
                    ch_scale@[k],
                ),
            forall|k: int| c <= k < old(dst)@.len() ==> #[trigger] dst@[k] == old(dst)@[k],
        decreases d - c,
    {
        proof {
            math::lemma_div_below_ceil(c as nat, d as nat, 2);
            lemma_row_len(d as nat, bits);
        }
        dst[c] = quant::decode(unpack_code(src, bits, c), ch_lo[c], ch_scale[c]);
        c += 1;
    }
}

/// Packed rows of codes, one after the other.
#[derive(Clone, Debug)]
pub struct CodeRows {
    width: usize,
    bits: u32,
    row_bytes: usize,
    packed: Vec<u8>,
    len: usize,
}

impl View for CodeRows {
    type V = Seq<Seq<u8>>;

    closed spec fn view(&self) -> Seq<Seq<u8>> {
        Seq::new(self.len as nat, |t: int| self.codes(t))
    }
}

impl CodeRows {
    /// The bytes of row `t`.
    spec fn bytes(&self, t: int) -> Seq<u8> {
        self.packed@.subrange(t * self.row_bytes, t * self.row_bytes + self.row_bytes)
    }

    /// The codes of row `t`.
    spec fn codes(&self, t: int) -> Seq<u8> {
        Seq::new(self.width as nat, |c: int| code_at(self.bytes(t), self.bits, c))
    }

    /// The number of codes per row.
    pub closed spec fn width(&self) -> usize {
        self.width
    }

    /// The number of bits per code.
    pub closed spec fn bits(&self) -> u32 {
        self.bits
    }

    /// Whether the rows are packed without gaps.
    pub closed spec fn wf(&self) -> bool {
        &&& packable(self.width as nat, self.bits)
        &&& self.row_bytes == quant::row_len(self.width as nat, self.bits)
        &&& self.packed@.len() == self.len * self.row_bytes
    }

    /// No rows yet.
    pub fn new(width: usize, bits: u32) -> (r: Self)
        requires
            packable(width as nat, bits),
            width * bits <= usize::MAX,
        ensures
            r.wf(),
            r.width() == width,
            r.bits() == bits,
            r@ == Seq::<Seq<u8>>::empty(),
    {
        let row_bytes: usize = quant::row_bytes(width, bits);
        let r = CodeRows { width, bits, row_bytes, packed: Vec::new(), len: 0 };
        assert(0 * row_bytes == 0);
        assert(r@ =~= Seq::<Seq<u8>>::empty());
        r
    }

    /// The number of rows.
    pub fn len(&self) -> (r: usize)
        ensures
            r == self@.len(),
    {
        self.len
    }

    /// The number of bytes that the rows take.
    pub fn byte_len(&self) -> (r: usize)
        requires
            self.wf(),
        ensures
            r == self@.len() * quant::row_len(self.width() as nat, self.bits()),
    {
        self.packed.len()
    }

    /// The packed bytes of row `t`.
    pub fn row(&self, t: usize) -> (r: &[u8])
        requires
            self.wf(),
            t < self@.len(),
        ensures
            r@.len() == quant::row_len(self.width() as nat, self.bits()),
            forall|c: int| 0 <= c < self.width() ==> #[trigger] code_at(r@, self.bits(), c) == self@[t as int][c],
    {
        let rb: usize = self.row_bytes;
        proof {
            assert((t + 1) * rb <= self.len * rb) by (nonlinear_arith)
                requires
                    t + 1 <= self.len,
            ;
            assert((t + 1) * rb == t * rb + rb) by (nonlinear_arith);
            assert(self.packed.len() == self.packed@.len());
            assert(0 <= t * rb) by (nonlinear_arith);
        }
        let r = vstd::slice::slice_subrange(self.packed.as_slice(), t * rb, t * rb + rb);
        assert(r@ == self.bytes(t as int));
        assert(self@[t as int] == self.codes(t as int));
        r
    }

    /// Appends a row.
    pub fn push(&mut self, codes: &[u8])
        requires
            old(self).wf(),
            codes@.len() == old(self).width(),
            old(self)@.len() < usize::MAX,
        ensures
            final(self).wf(),
            final(self).width() == old(self).width(),
            final(self).bits() == old(self).bits(),
            final(self)@ == old(self)@.push(
                codes@.map_values(|x: u8| stored(x, old(self).bits())),
            ),
    {
        let ghost before = *self;
        pack_codes(codes, self.bits, &mut self.packed);
        self.len = self.len + 1;
        proof {
            let n = before.len as int;
            let (width, bits) = (self.width, self.bits);
            let rb = self.row_bytes as int;
            law_packed_len(codes@, bits);
            assert((n + 1) * rb == n * rb + rb) by (nonlinear_arith);
            assert(self.wf());
            assert forall|t: int| 0 <= t < n implies self.codes(t) == before.codes(t) by {
                assert((t + 1) * rb <= n * rb) by (nonlinear_arith)
                    requires
                        t + 1 <= n,
                        rb >= 0,
                ;
                assert((t + 1) * rb == t * rb + rb) by (nonlinear_arith);
                assert(0 <= t * rb) by (nonlinear_arith)
                    requires
                        0 <= t,
                        0 <= rb,
                ;
                assert(self.bytes(t) =~= before.bytes(t));
                assert(self.codes(t) =~= before.codes(t));
            }
            assert(self.bytes(n) =~= packed(codes@, bits));
            let last = codes@.map_values(|x: u8| stored(x, bits));
            assert forall|c: int| 0 <= c < width implies self.codes(n)[c] == last[c] by {
                law_packed_codes_read_back(codes@, bits, c);
            }
            assert(self.codes(n) =~= last);
            assert(self@ =~= before@.push(last));
        }
    }

    /// A copy.
    pub fn duplicate(&self) -> (r: Self)
        ensures
            r@ == self@,
            r.width() == self.width(),
            r.bits() == self.bits(),
            r.wf() == self.wf(),
    {
        let r = CodeRows {
            width: self.width,
            bits: self.bits,
            row_bytes: self.row_bytes,
            packed: vstd::slice::slice_to_vec(self.packed.as_slice()),
            len: self.len,
        };
        assert(forall|t: int| r.bytes(t) == self.bytes(t));
        assert(forall|t: int| #[trigger] r.codes(t) =~= self.codes(t));
        assert(r@ =~= self@);
        r
    }
}

/// Of two codes that share a byte, the first is in the low nibble; codes of eight bits are
/// bytes.
pub proof fn law_first_code_is_in_the_low_nibble(codes: Seq<u8>, i: int)
    requires
        0 <= i < codes.len(),
    ensures
        packed(codes, 8)[i] == codes[i],
        i % 2 == 0 ==> packed(codes, 4)[i / 2] & 0x0F == codes[i] & 0x0F,
        i % 2 == 1 ==> packed(codes, 4)[i / 2] >> 4 == codes[i] & 0x0F,
{
    let j = i / 2;
    math::lemma_ceil_div(codes.len(), 2);
    let (a, h) = (codes[2 * j], if 2 * j + 1 < codes.len() {
        codes[2 * j + 1] & 0x0F
    } else {
        0u8
    });
    assert(packed(codes, 4)[j] == (a & 0x0F) | (h << 4));
    assert(((a & 0x0F) | (h << 4)) & 0x0F == a & 0x0F) by (bit_vector);
    assert(h == h & 0x0F) by {
        let c = codes[2 * j + 1];
        assert((c & 0x0F) & 0x0F == c & 0x0F) by (bit_vector);
        assert(0u8 & 0x0F == 0u8) by (bit_vector);
    }
    assert(h == h & 0x0F ==> ((a & 0x0F) | (h << 4)) >> 4 == h) by (bit_vector);
}

} // verus!
