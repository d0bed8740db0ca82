//! A small QR-code encoder for the Share dialog: byte mode, error-correction
//! level L, versions 1 to 5, a single error-correction block.
//!
//! The encoder is pure: it turns bytes into a square grid of dark/light
//! modules. The construction follows ISO/IEC 18004: finder, timing and
//! alignment patterns, the mode/count/data bit stream, Reed-Solomon error
//! correction over GF(256), the zig-zag data placement, the eight data masks
//! scored by the four penalty rules, and the BCH-coded format information.
use vstd::prelude::*;

verus! {

// ---------------------------------------------------------------------------
// GF(256)
// ---------------------------------------------------------------------------

/// Multiplication by the generator 2 in GF(256) over the QR primitive
/// polynomial `0x11d`, on a value below 256.
pub open spec fn gf_double(x: u16) -> u16 {
    if (x << 1u16) & 0x100u16 != 0 {
        (x << 1u16) ^ 0x11du16
    } else {
        x << 1u16
    }
}

/// `2^i` in GF(256).
pub open spec fn gf_exp(i: nat) -> u16
    decreases i,
{
    if i == 0 {
        1
    } else {
        gf_double(gf_exp((i - 1) as nat))
    }
}

/// The logarithm table after its first `k` entries are written: entry
/// `2^i` holds `i`, for `i < k` (a later `i` overwrites an earlier one).
pub open spec fn log_table(k: nat) -> Seq<u8>
    decreases k,
{
    if k == 0 {
        Seq::new(256, |v: int| 0u8)
    } else {
        log_table((k - 1) as nat).update(gf_exp((k - 1) as nat) as int, (k - 1) as u8)
    }
}

/// The discrete logarithm (base 2) of `v` in GF(256); 0 for `v == 0`.
pub open spec fn gf_log(v: u8) -> u8 {
    log_table(255)[v as int]
}

/// The product of `a` and `b` in GF(256): `2^(log a + log b)`, or 0 if either
/// factor is 0.
pub open spec fn gf_mul(a: u8, b: u8) -> u8 {
    if a == 0 || b == 0 {
        0
    } else {
        gf_exp(((gf_log(a) + gf_log(b)) % 255) as nat) as u8
    }
}

proof fn lemma_gf_exp_nonzero_byte(i: nat)
    ensures
        1 <= gf_exp(i) < 256,
    decreases i,
{
    if i > 0 {
        lemma_gf_exp_nonzero_byte((i - 1) as nat);
        let x = gf_exp((i - 1) as nat);
        assert(1 <= x < 256 ==> 1 <= gf_double(x) < 256) by (bit_vector);
    }
}

proof fn lemma_log_table_len(k: nat)
    ensures
        log_table(k).len() == 256,
    decreases k,
{
    if k > 0 {
        lemma_log_table_len((k - 1) as nat);
        lemma_gf_exp_nonzero_byte((k - 1) as nat);
    }
}

/// The polynomial `p` (coefficients high-degree first) times `(x - f)`, which
/// in GF(256) is `(x + f)`.
pub open spec fn times_factor(p: Seq<u8>, f: u8) -> Seq<u8> {
    Seq::new(
        p.len() + 1,
        |j: int|
            (if j < p.len() {
                p[j]
            } else {
                0u8
            }) ^ (if j >= 1 {
                gf_mul(p[j - 1], f)
            } else {
                0u8
            }),
    )
}

/// The Reed-Solomon generator polynomial for `k` codewords: the product of
/// `(x - 2^i)` for `i` in `0..k`, high-degree first, leading coefficient 1.
pub open spec fn gen_poly(k: nat) -> Seq<u8>
    decreases k,
{
    if k == 0 {
        seq![1u8]
    } else {
        times_factor(gen_poly((k - 1) as nat), gf_exp(((k - 1) % 255) as nat) as u8)
    }
}

/// One step of the Reed-Solomon division: feed data byte `d` into the
/// remainder register `rem` against the generator `g`.
pub open spec fn rs_step(rem: Seq<u8>, d: u8, g: Seq<u8>) -> Seq<u8> {
    let factor = d ^ rem[0];
    Seq::new(
        rem.len(),
        |j: int|
            (if j + 1 < rem.len() {
                rem[j + 1]
            } else {
                0u8
            }) ^ gf_mul(g[j + 1], factor),
    )
}

/// The remainder register after feeding `data` through the division by
/// `gen_poly(ec_len)`: the `ec_len` error-correction codewords of `data`.
pub open spec fn rs_remainder(data: Seq<u8>, ec_len: nat) -> Seq<u8>
    decreases data.len(),
{
    if data.len() == 0 {
        Seq::new(ec_len, |j: int| 0u8)
    } else {
        rs_step(rs_remainder(data.drop_last(), ec_len), data.last(), gen_poly(ec_len))
    }
}

proof fn lemma_gen_poly_len(k: nat)
    ensures
        gen_poly(k).len() == k + 1,
    decreases k,
{
    if k > 0 {
        lemma_gen_poly_len((k - 1) as nat);
    }
}

proof fn lemma_rs_remainder_len(data: Seq<u8>, ec_len: nat)
    ensures
        rs_remainder(data, ec_len).len() == ec_len,
    decreases data.len(),
{
    if data.len() > 0 {
        lemma_rs_remainder_len(data.drop_last(), ec_len);
    }
}

/// GF(256) exponent and logarithm tables for the Reed-Solomon arithmetic, over
/// the QR primitive polynomial `0x11d` with generator 2.
pub struct Gf256 {
    /// `exp[i]` is `2^i`, for `i` in `0..255`; `exp[255]` repeats `exp[0]`.
    pub exp: Vec<u8>,
    /// `log[v]` is the exponent `i < 255` with `2^i == v` (0 for `v == 0`).
    pub log: Vec<u8>,
}

impl Gf256 {
    /// Whether both tables hold what their fields document.
    pub open spec fn wf(&self) -> bool {
        &&& self.exp@.len() == 256
        &&& forall|i: int| 0 <= i < 255 ==> #[trigger] self.exp@[i] == gf_exp(i as nat) as u8
        &&& self.exp@[255] == 1
        &&& self.log@ == log_table(255)
    }

    /// Builds both tables.
    pub fn new() -> (r: Gf256)
        ensures
            r.wf(),
    {
        let mut exp: Vec<u8> = Vec::new();
        let mut log: Vec<u8> = Vec::new();
        let mut v: usize = 0;
        while v < 256
            invariant
                v <= 256,
                log@ == Seq::new(v as nat, |k: int| 0u8),
            decreases 256 - v,
        {
            log.push(0);
            v = v + 1;
        }
        assert(log@ =~= log_table(0));
        let mut x: u16 = 1;
        let mut i: usize = 0;
        while i < 255
            invariant
                i <= 255,
                x == gf_exp(i as nat),
                exp@.len() == i,
                forall|k: int| 0 <= k < i ==> #[trigger] exp@[k] == gf_exp(k as nat) as u8,
                log@ == log_table(i as nat),
            decreases 255 - i,
        {
            proof {
                lemma_gf_exp_nonzero_byte(i as nat);
                lemma_log_table_len(i as nat);
            }
            exp.push(x as u8);
            log.set(x as usize, i as u8);
            assert(x < 256 ==> gf_double(x) == (if (x << 1u16) & 0x100u16 != 0 {
                (x << 1u16) ^ 0x11du16
            } else {
                x << 1u16
            })) by (bit_vector);
            x = x << 1;
            if x & 0x100 != 0 {
                x = x ^ 0x11d;
            }
            i = i + 1;
        }
        exp.push(exp[0]);
        Gf256 { exp, log }
    }

    /// The product of `a` and `b` in GF(256).
    pub fn mul(&self, a: u8, b: u8) -> (r: u8)
        requires
            self.wf(),
        ensures
            r == gf_mul(a, b),
    {
        if a == 0 || b == 0 {
            0
        } else {
            proof {
                lemma_log_table_len(255);
            }
            let l = self.log[a as usize] as usize + self.log[b as usize] as usize;
            self.exp[l % 255]
        }
    }

    /// The Reed-Solomon generator polynomial for `ec_len` codewords: the
    /// product of `(x - 2^i)` for `i` in `0..ec_len`, coefficients high-degree
    /// first with a leading 1.
    pub fn generator(&self, ec_len: usize) -> (r: Vec<u8>)
        requires
            self.wf(),
            ec_len < usize::MAX,
        ensures
            r@ == gen_poly(ec_len as nat),
    {
        let mut poly: Vec<u8> = Vec::new();
        poly.push(1);
        let mut i: usize = 0;
        while i < ec_len
            invariant
                self.wf(),
                i <= ec_len,
                ec_len < usize::MAX,
                poly@ == gen_poly(i as nat),
            decreases ec_len - i,
        {
            proof {
                lemma_gen_poly_len(i as nat);
            }
            let factor = self.exp[i % 255];
            let len = poly.len();
            let mut next: Vec<u8> = Vec::new();
            let mut j: usize = 0;
            while j <= len
                invariant
                    self.wf(),
                    len == poly.len(),
                    len == i + 1,
                    i < ec_len,
                    ec_len < usize::MAX,
                    j <= len + 1,
                    factor == gf_exp((i % 255) as nat) as u8,
                    next@ =~= times_factor(poly@, factor).subrange(0, j as int),
                decreases len + 1 - j,
            {
                let a = if j < len {
                    poly[j]
                } else {
                    0
                };
                let b = if j >= 1 {
                    self.mul(poly[j - 1], factor)
                } else {
                    0
                };
                next.push(a ^ b);
                j = j + 1;
            }
            poly = next;
            i = i + 1;
        }
        poly
    }

    /// The `ec_len` Reed-Solomon error-correction codewords for `data`.
    pub fn reed_solomon(&self, data: &[u8], ec_len: usize) -> (r: Vec<u8>)
        requires
            self.wf(),
            ec_len >= 1,
            ec_len < usize::MAX,
        ensures
            r@ == rs_remainder(data@, ec_len as nat),
    {
        let gpoly = self.generator(ec_len);
        proof {
            lemma_gen_poly_len(ec_len as nat);
        }
        let mut rem: Vec<u8> = Vec::new();
        let mut j: usize = 0;
        while j < ec_len
            invariant
                j <= ec_len,
                rem@ == Seq::new(j as nat, |k: int| 0u8),
            decreases ec_len - j,
        {
            rem.push(0);
            j = j + 1;
        }
        assert(rem@ =~= rs_remainder(data@.subrange(0, 0), ec_len as nat));
        let mut i: usize = 0;
        while i < data.len()
            invariant
                self.wf(),
                ec_len >= 1,
                i <= data.len(),
                gpoly@ == gen_poly(ec_len as nat),
                gpoly@.len() == ec_len + 1,
                rem@ == rs_remainder(data@.subrange(0, i as int), ec_len as nat),
            decreases data.len() - i,
        {
            proof {
                lemma_rs_remainder_len(data@.subrange(0, i as int), ec_len as nat);
                assert(data@.subrange(0, i + 1).drop_last() =~= data@.subrange(0, i as int));
            }
            let factor = data[i] ^ rem[0];
            let mut next: Vec<u8> = Vec::new();
            let mut k: usize = 0;
            while k < ec_len
                invariant
                    self.wf(),
                    k <= ec_len,
                    rem@.len() == ec_len,
                    gpoly@.len() == ec_len + 1,
                    factor == data@[i as int] ^ rem@[0],
                    next@ =~= rs_step(rem@, data@[i as int], gpoly@).subrange(0, k as int),
                decreases ec_len - k,
            {
                let a = if k + 1 < ec_len {
                    rem[k + 1]
                } else {
                    0
                };
                let b = self.mul(gpoly[k + 1], factor);
                next.push(a ^ b);
                k = k + 1;
            }
            rem = next;
            i = i + 1;
        }
        assert(data@.subrange(0, data.len() as int) =~= data@);
        rem
    }
}

// ---------------------------------------------------------------------------
// The data bit stream
// ---------------------------------------------------------------------------

/// The low `len` bits of `value`, most significant first.
pub open spec fn bits_of(value: u32, len: nat) -> Seq<bool> {
    Seq::new(len, |k: int| (value >> ((len - 1 - k) as u32)) & 1u32 == 1u32)
}

/// `n` light (zero) bits.
pub open spec fn zero_bits(n: nat) -> Seq<bool> {
    Seq::new(n, |k: int| false)
}

/// `2^n`.
pub open spec fn two_pow(n: nat) -> nat
    decreases n,
{
    if n == 0 {
        1
    } else {
        2 * two_pow((n - 1) as nat)
    }
}

/// The number whose binary digits, most significant first, are `bits`.
pub open spec fn bits_value(bits: Seq<bool>) -> nat
    decreases bits.len(),
{
    if bits.len() == 0 {
        0
    } else {
        bits_value(bits.drop_last()) * 2 + if bits.last() {
            1nat
        } else {
            0nat
        }
    }
}

/// `bits` packed into bytes, eight per byte, most significant bit first; a
/// short final chunk is packed as it stands.
pub open spec fn pack_bits(bits: Seq<bool>) -> Seq<u8> {
    Seq::new(
        ((bits.len() + 7) / 8) as nat,
        |k: int|
            bits_value(
                bits.subrange(
                    8 * k,
                    if 8 * k + 8 <= bits.len() {
                        8 * k + 8
                    } else {
                        bits.len() as int
                    },
                ),
            ) as u8,
    )
}

proof fn lemma_bits_value_bound(bits: Seq<bool>)
    ensures
        bits_value(bits) < two_pow(bits.len()),
    decreases bits.len(),
{
    if bits.len() > 0 {
        lemma_bits_value_bound(bits.drop_last());
    }
}

/// A most-significant-bit-first bit accumulator.
pub struct BitBuffer {
    bits: Vec<bool>,
}

impl View for BitBuffer {
    type V = Seq<bool>;

    closed spec fn view(&self) -> Seq<bool> {
        self.bits@
    }
}

impl BitBuffer {
    /// An empty buffer.
    pub fn new() -> (r: BitBuffer)
        ensures
            r@ == Seq::<bool>::empty(),
    {
        BitBuffer { bits: Vec::new() }
    }

    /// Appends the low `len` bits of `value`, most significant first.
    pub fn push(&mut self, value: u32, len: usize)
        requires
            len <= 32,
        ensures
            final(self)@ == old(self)@ + bits_of(value, len as nat),
    {
        let mut i: usize = len;
        while i > 0
            invariant
                i <= len,
                len <= 32,
                self@ == old(self)@ + bits_of(value, len as nat).subrange(0, (len - i) as int),
            decreases i,
        {
            i = i - 1;
            let bit = (value >> (i as u32)) & 1 == 1;
            self.bits.push(bit);
            assert(self@ =~= old(self)@ + bits_of(value, len as nat).subrange(0, (len - i) as int));
        }
        assert(bits_of(value, len as nat).subrange(0, len as int) =~= bits_of(value, len as nat));
    }

    /// The number of bits held.
    pub fn len(&self) -> (r: usize)
        ensures
            r == self@.len(),
    {
        self.bits.len()
    }

    /// The bits packed into bytes, eight per byte, most significant first.
    pub fn into_bytes(self) -> (r: Vec<u8>)
        ensures
            r@ == pack_bits(self@),
    {
        let bits = self.bits;
        let len = bits.len();
        let mut out: Vec<u8> = Vec::new();
        let chunks = len / 8 + if len % 8 != 0 {
            1
        } else {
            0
        };
        let mut c: usize = 0;
        while c < chunks
            invariant
                len == bits@.len(),
                chunks == (len + 7) / 8,
                c <= chunks,
                out.len() == c,
                forall|k: int| 0 <= k < out.len() ==> #[trigger] out@[k] == pack_bits(bits@)[k],
            decreases chunks - c,
        {
            let start = 8 * c;
            let end = if len - start >= 8 {
                start + 8
            } else {
                len
            };
            let mut acc: u32 = 0;
            let mut j: usize = start;
            while j < end
                invariant
                    start <= j <= end,
                    end <= len,
                    end - start <= 8,
                    len == bits@.len(),
                    acc == bits_value(bits@.subrange(start as int, j as int)),
                    acc < two_pow((j - start) as nat),
                decreases end - j,
            {
                let b: u32 = if bits[j] {
                    1
                } else {
                    0
                };
                proof {
                    assert(bits@.subrange(start as int, j + 1).drop_last() =~= bits@.subrange(
                        start as int,
                        j as int,
                    ));
                    assert(two_pow((j - start) as nat) <= 128) by {
                        assert(two_pow(0) == 1);
                        assert(two_pow(1) == 2);
                        assert(two_pow(2) == 4);
                        assert(two_pow(3) == 8);
                        assert(two_pow(4) == 16);
                        assert(two_pow(5) == 32);
                        assert(two_pow(6) == 64);
                        assert(two_pow(7) == 128);
                    }
                    assert(acc < 256 && b <= 1 ==> (acc << 1u32) | b == acc * 2 + b) by (bit_vector);
                }
                acc = (acc << 1) | b;
                j = j + 1;
            }
            proof {
                assert(bits_value(bits@.subrange(start as int, end as int)) < 256) by {
                    lemma_bits_value_bound(bits@.subrange(start as int, end as int));
                    assert(two_pow(0) == 1);
                    assert(two_pow(1) == 2);
                    assert(two_pow(2) == 4);
                    assert(two_pow(3) == 8);
                    assert(two_pow(4) == 16);
                    assert(two_pow(5) == 32);
                    assert(two_pow(6) == 64);
                    assert(two_pow(7) == 128);
                    assert(two_pow(8) == 256);
                }
            }
            out.push(acc as u8);
            c = c + 1;
        }
        assert(out@ =~= pack_bits(bits@));
        out
    }
}

// ---------------------------------------------------------------------------
// Versions and codewords
// ---------------------------------------------------------------------------

/// The number of error-correction codewords of version `v` at level L.
pub open spec fn ec_len_of(v: nat) -> nat {
    if v == 1 {
        7
    } else if v == 2 {
        10
    } else if v == 3 {
        15
    } else if v == 4 {
        20
    } else {
        26
    }
}

/// The total number of codewords of version `v`.
pub open spec fn total_of(v: nat) -> nat {
    if v == 1 {
        26
    } else if v == 2 {
        44
    } else if v == 3 {
        70
    } else if v == 4 {
        100
    } else {
        134
    }
}

/// The centre coordinate of version `v`'s one interior alignment pattern, or
/// 0 for version 1, which has none.
pub open spec fn align_of(v: nat) -> nat {
    if v == 1 {
        0
    } else if v == 2 {
        18
    } else if v == 3 {
        22
    } else if v == 4 {
        26
    } else {
        30
    }
}

/// The number of data codewords of version `v`.
pub open spec fn data_len_of(v: nat) -> nat {
    (total_of(v) - ec_len_of(v)) as nat
}

/// The side length in modules of version `v`.
pub open spec fn side_of(v: nat) -> nat {
    4 * v + 17
}

/// The smallest version (1 to 5) whose data capacity holds `len` bytes plus
/// the two bytes of mode indicator and character count, if any.
pub open spec fn fitting_version(len: nat) -> Option<nat> {
    if len + 2 <= data_len_of(1) {
        Some(1)
    } else if len + 2 <= data_len_of(2) {
        Some(2)
    } else if len + 2 <= data_len_of(3) {
        Some(3)
    } else if len + 2 <= data_len_of(4) {
        Some(4)
    } else if len + 2 <= data_len_of(5) {
        Some(5)
    } else {
        None
    }
}

/// The bits of the bytes of `data`, in order.
pub open spec fn data_bits(data: Seq<u8>) -> Seq<bool>
    decreases data.len(),
{
    if data.len() == 0 {
        Seq::empty()
    } else {
        data_bits(data.drop_last()) + bits_of(data.last() as u32, 8)
    }
}

/// The byte-mode segment for `data`: mode indicator `0100`, the 8-bit count,
/// then the data bits.
pub open spec fn segment_bits(data: Seq<u8>) -> Seq<bool> {
    bits_of(4, 4) + bits_of(data.len() as u32, 8) + data_bits(data)
}

/// `bits` followed by the terminator: up to four zero bits, as many as the
/// capacity `cap` (in bits) leaves room for.
pub open spec fn terminated(bits: Seq<bool>, cap: nat) -> Seq<bool> {
    let room = if cap >= bits.len() {
        (cap - bits.len()) as nat
    } else {
        0
    };
    bits + zero_bits(if room < 4 {
        room
    } else {
        4
    })
}

/// `bits` zero-padded to a whole number of bytes.
pub open spec fn byte_aligned(bits: Seq<bool>) -> Seq<bool> {
    bits + zero_bits(((8 - bits.len() % 8) % 8) as nat)
}

/// The pad codewords `0xEC, 0x11, 0xEC, ...`, `n` of them.
pub open spec fn pad_bytes(n: nat) -> Seq<u8> {
    Seq::new(n, |i: int| if i % 2 == 0 { 0xECu8 } else { 0x11u8 })
}

/// The data codewords of version `v` for `data`: the packed, terminated and
/// byte-aligned segment, filled to capacity with pad codewords.
pub open spec fn data_codewords(v: nat, data: Seq<u8>) -> Seq<u8> {
    let packed = pack_bits(byte_aligned(terminated(segment_bits(data), 8 * data_len_of(v))));
    packed + pad_bytes((data_len_of(v) - packed.len()) as nat)
}

/// All codewords of version `v` for `data`: the data codewords followed by
/// their Reed-Solomon error-correction codewords.
pub open spec fn codewords_of(v: nat, data: Seq<u8>) -> Seq<u8> {
    let d = data_codewords(v, data);
    d + rs_remainder(d, ec_len_of(v))
}

proof fn lemma_zero_bits(n: nat)
    ensures
        bits_of(0, n) =~= zero_bits(n),
{
    assert forall|k: int| 0 <= k < n implies #[trigger] bits_of(0, n)[k] == false by {
        let sh = (n - 1 - k) as u32;
        assert((0u32 >> sh) & 1u32 != 1u32) by (bit_vector);
    }
}

proof fn lemma_data_bits_len(data: Seq<u8>)
    ensures
        data_bits(data).len() == 8 * data.len(),
    decreases data.len(),
{
    if data.len() > 0 {
        lemma_data_bits_len(data.drop_last());
    }
}

proof fn lemma_two_pow_pos(n: nat)
    ensures
        two_pow(n) > 0,
    decreases n,
{
    if n > 0 {
        lemma_two_pow_pos((n - 1) as nat);
    }
}

/// The bits `bits_of` lays out read back, most significant first, as the
/// value's low `len` bits.
proof fn lemma_bits_of_value(x: u32, len: nat)
    requires
        len <= 32,
    ensures
        bits_value(bits_of(x, len)) == x as nat % two_pow(len),
    decreases len,
{
    if len == 0 {
        assert(bits_of(x, 0) =~= Seq::<bool>::empty());
        assert(x as nat % 1 == 0) by (nonlinear_arith);
    } else {
        let b = bits_of(x, len);
        let y = x >> 1u32;
        let m = (len - 1) as nat;
        lemma_bits_of_value(y, m);
        assert forall|k: int| 0 <= k < m implies #[trigger] b.drop_last()[k] == bits_of(y, m)[k] by {
            let s = (m - 1 - k) as u32;
            assert(s < 31);
            assert((len - 1 - k) as u32 == (s + 1) as u32);
            assert((x >> 1u32) >> s == x >> ((s + 1) as u32)) by (bit_vector)
                requires
                    s < 31,
            ;
        }
        assert(b.drop_last() =~= bits_of(y, m));
        assert(b.last() == ((x >> 0u32) & 1u32 == 1u32));
        assert(((x >> 0u32) & 1u32 == 1u32) == (x % 2 == 1)) by (bit_vector);
        assert((x >> 1u32) == x / 2) by (bit_vector);
        lemma_two_pow_pos(m);
        vstd::arithmetic::div_mod::lemma_mod_breakdown(x as int, 2, two_pow(m) as int);
    }
}

/// The value of two bit strings laid end to end.
proof fn lemma_bits_value_concat(a: Seq<bool>, b: Seq<bool>)
    ensures
        bits_value(a + b) == bits_value(a) * two_pow(b.len()) + bits_value(b),
    decreases b.len(),
{
    if b.len() == 0 {
        assert(a + b =~= a);
        assert(two_pow(0) == 1);
        assert(bits_value(b) == 0);
    } else {
        let bd = b.drop_last();
        assert(two_pow(b.len()) == 2 * two_pow(bd.len()));
        assert(bits_value(b) == bits_value(bd) * 2 + if b.last() { 1nat } else { 0nat });
        lemma_bits_value_concat(a, bd);
        assert((a + b).drop_last() =~= a + bd);
        assert((a + b).last() == b.last());
        let va = bits_value(a);
        let p = two_pow(bd.len());
        let vb = bits_value(bd);
        let c: nat = if b.last() { 1 } else { 0 };
        assert((va * p + vb) * 2 + c == va * (2 * p) + (vb * 2 + c)) by (nonlinear_arith);
        assert(bits_value(a + b) == bits_value(a + bd) * 2 + c);
    }
}

/// The high and low nibbles of a byte's eight bits.
proof fn lemma_byte_nibbles(x: u32)
    requires
        x < 256,
    ensures
        bits_value(bits_of(x, 8).subrange(0, 4)) == x / 16,
        bits_value(bits_of(x, 8).subrange(4, 8)) == x % 16,
        bits_value(bits_of(x, 8)) == x,
{
    let b = bits_of(x, 8);
    let h = x >> 4u32;
    assert forall|k: int| 0 <= k < 4 implies #[trigger] b.subrange(0, 4)[k] == bits_of(h, 4)[k] by {
        let s = (3 - k) as u32;
        assert((7 - k) as u32 == (s + 4) as u32);
        assert((x >> 4u32) >> s == x >> ((s + 4) as u32)) by (bit_vector)
            requires
                s < 4,
        ;
    }
    assert(b.subrange(0, 4) =~= bits_of(h, 4));
    assert forall|k: int| 0 <= k < 4 implies #[trigger] b.subrange(4, 8)[k] == bits_of(x, 4)[k] by {}
    assert(b.subrange(4, 8) =~= bits_of(x, 4));
    lemma_bits_of_value(h, 4);
    lemma_bits_of_value(x, 4);
    lemma_bits_of_value(x, 8);
    assert(two_pow(4) == 16) by {
        reveal_with_fuel(two_pow, 5);
    }
    assert(two_pow(8) == 256) by {
        reveal_with_fuel(two_pow, 9);
    }
    assert(x < 256 ==> (x >> 4u32) % 16 == x / 16) by (bit_vector);
}

/// What a reader recovers from data codewords that hold one byte-mode
/// segment: the first four bits must be the byte-mode indicator `0100`, the
/// next eight the byte count, and then come that many bytes, each straddling
/// two codewords; `None` when the mode is not byte mode or the codewords end
/// too soon.
pub open spec fn read_byte_segment(d: Seq<u8>) -> Option<Seq<u8>> {
    if d.len() < 2 || d[0] / 16 != 4 {
        None
    } else {
        let n = (d[0] % 16) * 16 + d[1] / 16;
        if d.len() < n + 2 {
            None
        } else {
            Some(Seq::new(n as nat, |i: int| ((d[i + 1] % 16) * 16 + d[i + 2] / 16) as u8))
        }
    }
}

/// The `j`-th byte-wide field of the segment after its mode indicator: the
/// count, then the data bytes.
spec fn segment_field(data: Seq<u8>, j: int) -> u32 {
    if j == 0 {
        data.len() as u32
    } else {
        data[j - 1] as u32
    }
}

proof fn lemma_data_bits_chunk(data: Seq<u8>, i: int)
    requires
        0 <= i < data.len(),
    ensures
        data_bits(data).subrange(8 * i, 8 * i + 8) == bits_of(data[i] as u32, 8),
    decreases data.len(),
{
    let d = data.drop_last();
    lemma_data_bits_len(d);
    assert(data_bits(data) == data_bits(d) + bits_of(data.last() as u32, 8));
    if i < data.len() - 1 {
        lemma_data_bits_chunk(d, i);
        assert(data_bits(data).subrange(8 * i, 8 * i + 8) =~= data_bits(d).subrange(8 * i, 8 * i + 8));
        assert(d[i] == data[i]);
    } else {
        assert(data_bits(data).subrange(8 * i, 8 * i + 8) =~= bits_of(data.last() as u32, 8));
    }
}

proof fn lemma_segment_fields(data: Seq<u8>, j: int)
    requires
        0 <= j <= data.len(),
    ensures
        (bits_of(data.len() as u32, 8) + data_bits(data)).subrange(8 * j, 8 * j + 8) == bits_of(
            segment_field(data, j),
            8,
        ),
{
    let c = bits_of(data.len() as u32, 8);
    let g = c + data_bits(data);
    lemma_data_bits_len(data);
    if j == 0 {
        assert(g.subrange(0, 8) =~= c);
    } else {
        lemma_data_bits_chunk(data, j - 1);
        assert(g.subrange(8 * j, 8 * j + 8) =~= data_bits(data).subrange(8 * (j - 1), 8 * (j - 1) + 8));
    }
}

/// The nibbles of data codeword `j`: its high nibble ends the previous field
/// (the mode indicator for the first), its low nibble starts field `j`.
proof fn lemma_codeword_nibbles(v: nat, data: Seq<u8>, j: int)
    requires
        data.len() + 2 <= data_len_of(v),
        0 <= j <= data.len() + 1,
    ensures
        data_codewords(v, data).len() >= data.len() + 2,
        data_codewords(v, data)[j] / 16 == if j == 0 {
            4
        } else {
            segment_field(data, j - 1) % 16
        },
        j <= data.len() ==> data_codewords(v, data)[j] % 16 == segment_field(data, j) / 16,
{
    let n = data.len();
    let m4 = bits_of(4, 4);
    let g = bits_of(n as u32, 8) + data_bits(data);
    let sg = segment_bits(data);
    lemma_data_bits_len(data);
    assert(sg =~= m4 + g);
    let cap = 8 * data_len_of(v);
    let te = terminated(sg, cap);
    assert(te =~= sg + zero_bits(4));
    let t = byte_aligned(te);
    assert(te.len() % 8 == 0);
    assert(t =~= te + zero_bits(0));
    assert(t.len() == 8 * n + 16);
    let packed = pack_bits(t);
    assert(packed.len() == n + 2);
    let d = data_codewords(v, data);
    assert(d[j] == packed[j]);
    let c = t.subrange(8 * j, 8 * j + 8);
    assert(packed[j] == bits_value(c) as u8);
    let hi = c.subrange(0, 4);
    let lo = c.subrange(4, 8);
    assert(c =~= hi + lo);
    lemma_bits_value_concat(hi, lo);
    lemma_bits_value_bound(hi);
    lemma_bits_value_bound(lo);
    assert(two_pow(4) == 16) by {
        reveal_with_fuel(two_pow, 5);
    }
    let vh = bits_value(hi);
    let vl = bits_value(lo);
    assert(vh < 16 && vl < 16);
    assert(vh * 16 + vl < 256 && (vh * 16 + vl) / 16 == vh && (vh * 16 + vl) % 16 == vl) by (nonlinear_arith)
        requires
            vh < 16,
            vl < 16,
    ;
    assert(bits_value(c) == vh * 16 + vl);
    assert(d[j] as nat == vh * 16 + vl);
    if j == 0 {
        assert(hi =~= m4);
        lemma_bits_of_value(4, 4);
    } else {
        lemma_segment_fields(data, j - 1);
        let f = bits_of(segment_field(data, j - 1), 8);
        assert(hi =~= f.subrange(4, 8));
        assert(segment_field(data, j - 1) < 256);
        lemma_byte_nibbles(segment_field(data, j - 1));
    }
    if j <= n {
        lemma_segment_fields(data, j);
        let f = bits_of(segment_field(data, j), 8);
        assert(lo =~= f.subrange(0, 4));
        assert(segment_field(data, j) < 256);
        lemma_byte_nibbles(segment_field(data, j));
    }
}

/// The data codewords of every encoded code read back as one byte-mode
/// segment holding exactly the encoded bytes: they start with the byte-mode
/// indicator and the byte count, and a reader recovers `data`. The same holds
/// of the full codeword sequence, whose data codewords come first.
pub proof fn lemma_data_codewords_read_back(v: nat, data: Seq<u8>)
    requires
        data.len() + 2 <= data_len_of(v),
    ensures
        data_codewords(v, data)[0] / 16 == 4,
        read_byte_segment(data_codewords(v, data)) == Some(data),
        read_byte_segment(codewords_of(v, data)) == Some(data),
{
    let n = data.len();
    let d = data_codewords(v, data);
    lemma_codeword_nibbles(v, data, 0);
    lemma_codeword_nibbles(v, data, 1);
    assert(n < 256);
    assert((n as u32) as nat == n);
    assert((n as u32) / 16 * 16 + (n as u32) % 16 == n as u32) by (nonlinear_arith);
    assert((d[0] % 16) * 16 + d[1] / 16 == n);
    assert forall|i: int| 0 <= i < n implies ((d[i + 1] % 16) * 16 + d[i + 2] / 16) as u8 == #[trigger] data[i] by {
        lemma_codeword_nibbles(v, data, i + 1);
        lemma_codeword_nibbles(v, data, i + 2);
        let x = data[i] as u32;
        assert(x / 16 * 16 + x % 16 == x) by (nonlinear_arith);
    }
    assert(read_byte_segment(d) =~= Some(data));
    let all = codewords_of(v, data);
    assert forall|k: int| 0 <= k < d.len() implies #[trigger] all[k] == d[k] by {}
    assert(all.len() >= d.len());
    assert forall|i: int| 0 <= i < n implies ((all[i + 1] % 16) * 16 + all[i + 2] / 16) as u8 == #[trigger] data[i] by {
        assert(all[i + 1] == d[i + 1] && all[i + 2] == d[i + 2]);
    }
    assert(all[0] == d[0] && all[1] == d[1]);
    assert(read_byte_segment(all) =~= Some(data));
}

/// A version's fixed parameters for error-correction level L, single block.
#[derive(Clone, Copy)]
struct Version {
    number: usize,
    ec_len: usize,
    total: usize,
    align: usize,
}

impl Version {
    spec fn valid(self) -> bool {
        &&& 1 <= self.number <= 5
        &&& self.ec_len == ec_len_of(self.number as nat)
        &&& self.total == total_of(self.number as nat)
        &&& self.align == align_of(self.number as nat)
    }

    fn table(number: usize) -> (r: Version)
        requires
            1 <= number <= 5,
        ensures
            r.valid(),
            r.number == number,
    {
        if number == 1 {
            Version { number: 1, ec_len: 7, total: 26, align: 0 }
        } else if number == 2 {
            Version { number: 2, ec_len: 10, total: 44, align: 18 }
        } else if number == 3 {
            Version { number: 3, ec_len: 15, total: 70, align: 22 }
        } else if number == 4 {
            Version { number: 4, ec_len: 20, total: 100, align: 26 }
        } else {
            Version { number: 5, ec_len: 26, total: 134, align: 30 }
        }
    }

    fn data_len(self) -> (r: usize)
        requires
            self.valid(),
        ensures
            r == data_len_of(self.number as nat),
    {
        self.total - self.ec_len
    }

    fn size(self) -> (r: usize)
        requires
            self.valid(),
        ensures
            r == side_of(self.number as nat),
    {
        self.number * 4 + 17
    }

    fn smallest_fitting(len: usize) -> (r: Option<Version>)
        ensures
            match fitting_version(len as nat) {
                Some(v) => r matches Some(ver) && ver.valid() && ver.number == v,
                None => r is None,
            },
    {
        let mut number: usize = 1;
        while number <= 5
            invariant
                1 <= number <= 6,
                forall|k: nat| 1 <= k < number ==> len + 2 > #[trigger] data_len_of(k),
            decreases 6 - number,
        {
            let v = Version::table(number);
            if len <= v.data_len() - 2 {
                return Some(v);
            }
            number = number + 1;
        }
        None
    }

    fn codewords(self, data: &[u8], gf: &Gf256) -> (r: Vec<u8>)
        requires
            self.valid(),
            gf.wf(),
            data.len() + 2 <= data_len_of(self.number as nat),
        ensures
            r@ == codewords_of(self.number as nat, data@),
            r.len() == total_of(self.number as nat),
    {
        let ghost v = self.number as nat;
        let data_len = self.data_len();
        let mut bits = BitBuffer::new();
        bits.push(4, 4);
        bits.push(data.len() as u32, 8);
        let mut i: usize = 0;
        while i < data.len()
            invariant
                i <= data.len(),
                data.len() <= 106,
                bits@ == bits_of(4, 4) + bits_of(data.len() as u32, 8) + data_bits(
                    data@.subrange(0, i as int),
                ),
            decreases data.len() - i,
        {
            assert(data@.subrange(0, i + 1).drop_last() =~= data@.subrange(0, i as int));
            bits.push(data[i] as u32, 8);
            i = i + 1;
            assert(bits@ =~= bits_of(4, 4) + bits_of(data.len() as u32, 8) + data_bits(
                data@.subrange(0, i as int),
            ));
        }
        assert(data@.subrange(0, data.len() as int) =~= data@);
        proof {
            lemma_data_bits_len(data@);
        }
        let ghost seg = segment_bits(data@);
        assert(bits@ =~= seg);
        let capacity_bits = data_len * 8;
        let room = if capacity_bits >= bits.len() {
            capacity_bits - bits.len()
        } else {
            0
        };
        let terminator = if room < 4 {
            room
        } else {
            4
        };
        bits.push(0, terminator);
        proof {
            lemma_zero_bits(terminator as nat);
        }
        let ghost term = terminated(seg, 8 * data_len_of(v));
        assert(bits@ =~= term);
        while bits.len() % 8 != 0
            invariant
                bits@ == term,
                bits@.len() % 8 == 0,
            decreases 0nat,
        {
            bits.push(0, 1);
        }
        assert(byte_aligned(term) =~= term);
        let mut bytes = bits.into_bytes();
        let ghost packed = pack_bits(byte_aligned(term));
        assert(bytes@ == packed);
        let mut k: usize = 0;
        while bytes.len() < data_len
            invariant
                bytes@ == packed + pad_bytes(k as nat),
                packed.len() == data.len() + 2,
                bytes.len() <= data_len,
                data_len == data_len_of(v),
            decreases data_len - bytes.len(),
        {
            let p: u8 = if k % 2 == 0 {
                0xEC
            } else {
                0x11
            };
            bytes.push(p);
            k = k + 1;
            assert(bytes@ =~= packed + pad_bytes(k as nat));
        }
        assert(bytes@ =~= data_codewords(v, data@));
        let ec = gf.reed_solomon(bytes.as_slice(), self.ec_len);
        let ghost d = bytes@;
        let mut j: usize = 0;
        while j < ec.len()
            invariant
                j <= ec.len(),
                bytes@ == d + ec@.subrange(0, j as int),
            decreases ec.len() - j,
        {
            bytes.push(ec[j]);
            j = j + 1;
            assert(bytes@ =~= d + ec@.subrange(0, j as int));
        }
        assert(ec@.subrange(0, ec.len() as int) =~= ec@);
        proof {
            lemma_rs_remainder_len(d, self.ec_len as nat);
        }
        bytes
    }
}

// ---------------------------------------------------------------------------
// The module grid
// ---------------------------------------------------------------------------

/// A module grid under construction, row-major: `dark` holds each module's
/// colour, `func` marks the function modules that data placement and masking
/// skip.
pub struct Grid {
    /// The side length.
    pub n: nat,
    /// Whether each module is dark.
    pub dark: Seq<bool>,
    /// Whether each module belongs to a function pattern.
    pub func: Seq<bool>,
}

/// `g` with every module `(x, y)` for which `cell(x, y)` is `Some(d)` made a
/// function module of colour `d`; the others unchanged.
pub open spec fn paint(g: Grid, cell: spec_fn(int, int) -> Option<bool>) -> Grid {
    Grid {
        n: g.n,
        dark: Seq::new(
            g.dark.len(),
            |i: int|
                match cell(i % g.n as int, i / g.n as int) {
                    Some(d) => d,
                    None => g.dark[i],
                },
        ),
        func: Seq::new(
            g.func.len(),
            |i: int| cell(i % g.n as int, i / g.n as int) is Some || g.func[i],
        ),
    }
}

/// The timing patterns along row 6 and column 6: alternating, dark on even
/// coordinates.
pub open spec fn timing_cell(x: int, y: int) -> Option<bool> {
    if y == 6 {
        Some(x % 2 == 0)
    } else if x == 6 {
        Some(y % 2 == 0)
    } else {
        None
    }
}

/// `v` clamped into `0..=6`.
pub open spec fn clamp6(v: int) -> int {
    if v < 0 {
        0
    } else if v > 6 {
        6
    } else {
        v
    }
}

/// `|v|`.
pub open spec fn abs(v: int) -> int {
    if v < 0 {
        -v
    } else {
        v
    }
}

/// A 7x7 finder pattern with its one-module light separator, top-left corner
/// at `(ox, oy)`: a dark 3x3 core inside a light ring inside a dark ring.
pub open spec fn finder_cell(ox: int, oy: int, x: int, y: int) -> Option<bool> {
    let dx = x - ox;
    let dy = y - oy;
    if -1 <= dx <= 7 && -1 <= dy <= 7 {
        let rx = abs(clamp6(dx) - 3);
        let ry = abs(clamp6(dy) - 3);
        let ring = if rx >= ry {
            rx
        } else {
            ry
        };
        Some(0 <= dx <= 6 && 0 <= dy <= 6 && ring != 2)
    } else {
        None
    }
}

/// A 5x5 alignment pattern centred at `(c, c)`: dark centre and outer ring.
pub open spec fn alignment_cell(c: int, x: int, y: int) -> Option<bool> {
    let dx = abs(x - c);
    let dy = abs(y - c);
    if dx <= 2 && dy <= 2 {
        Some((if dx >= dy {
            dx
        } else {
            dy
        }) != 1)
    } else {
        None
    }
}

/// The always-dark module beside the bottom-left finder.
pub open spec fn dark_module_cell(n: int, x: int, y: int) -> Option<bool> {
    if x == 8 && y == n - 8 {
        Some(true)
    } else {
        None
    }
}

/// The two format-information strips, reserved light before data placement.
pub open spec fn reserve_cell(n: int, x: int, y: int) -> Option<bool> {
    if (x == 8 && y <= 8 && y != 6) || (y == 8 && x <= 8 && x != 6) || (y == 8 && x >= n - 8) || (
    x == 8 && y >= n - 7) {
        Some(false)
    } else {
        None
    }
}

/// An empty `n` x `n` grid.
pub open spec fn empty_grid(n: nat) -> Grid {
    Grid { n, dark: Seq::new(n * n, |i: int| false), func: Seq::new(n * n, |i: int| false) }
}

/// The function patterns of version `v`: timing, the three finders, the
/// alignment pattern (versions 2 to 5) and the dark module, drawn in that
/// order.
pub open spec fn function_patterns(v: nat, g: Grid) -> Grid {
    let n = g.n as int;
    let t = paint(g, |x: int, y: int| timing_cell(x, y));
    let f1 = paint(t, |x: int, y: int| finder_cell(0, 0, x, y));
    let f2 = paint(f1, |x: int, y: int| finder_cell(n - 7, 0, x, y));
    let f3 = paint(f2, |x: int, y: int| finder_cell(0, n - 7, x, y));
    let c = align_of(v) as int;
    let a = if c != 0 {
        paint(f3, |x: int, y: int| alignment_cell(c, x, y))
    } else {
        f3
    };
    paint(a, |x: int, y: int| dark_module_cell(n, x, y))
}

/// The grid with the format strips reserved.
pub open spec fn reserved(g: Grid) -> Grid {
    paint(g, |x: int, y: int| reserve_cell(g.n as int, x, y))
}

/// The module column of zig-zag column pair `p` (counted from the right),
/// skipping the vertical timing column 6.
pub open spec fn zig_column(n: int, p: int) -> int {
    let c = n - 1 - 2 * p;
    if c > 6 {
        c
    } else {
        c - 1
    }
}

/// The x coordinate of the `q`-th module in zig-zag order.
pub open spec fn zig_x(n: int, q: int) -> int {
    zig_column(n, q / (2 * n)) - (q % (2 * n)) % 2
}

/// The y coordinate of the `q`-th module in zig-zag order: column pairs
/// alternate upward and downward, starting upward at the right edge.
pub open spec fn zig_y(n: int, q: int) -> int {
    let right = zig_column(n, q / (2 * n));
    let vert = (q % (2 * n)) / 2;
    if (right + 1) % 4 < 2 {
        n - 1 - vert
    } else {
        vert
    }
}

/// The number of modules in the zig-zag order of an `n` x `n` grid.
pub open spec fn zig_len(n: int) -> int {
    (n - 1) / 2 * (2 * n)
}

/// Bit `b` of `codewords`, most significant bit of each byte first.
pub open spec fn codeword_bit(codewords: Seq<u8>, b: int) -> bool {
    (codewords[b / 8] >> ((7 - b % 8) as u8)) & 1u8 == 1u8
}

/// The module colours and the count of bits placed after walking the first
/// `q` modules of the zig-zag order, writing the next codeword bit into each
/// non-function module until the bits run out.
pub open spec fn placed(g: Grid, codewords: Seq<u8>, q: nat) -> (Seq<bool>, nat)
    decreases q,
{
    if q == 0 {
        (g.dark, 0)
    } else {
        let (d, b) = placed(g, codewords, (q - 1) as nat);
        let n = g.n as int;
        let i = zig_y(n, q - 1) * n + zig_x(n, q - 1);
        if !g.func[i] && b < 8 * codewords.len() {
            (d.update(i, codeword_bit(codewords, b as int)), b + 1)
        } else {
            (d, b)
        }
    }
}

/// `g` with `codewords` placed in zig-zag order over its non-function
/// modules.
pub open spec fn with_codewords(g: Grid, codewords: Seq<u8>) -> Grid {
    Grid {
        n: g.n,
        dark: placed(g, codewords, zig_len(g.n as int) as nat).0,
        func: g.func,
    }
}

/// Whether data mask `mask` flips the module at `(x, y)`.
pub open spec fn mask_flip(mask: u8, x: int, y: int) -> bool {
    if mask == 0 {
        (x + y) % 2 == 0
    } else if mask == 1 {
        y % 2 == 0
    } else if mask == 2 {
        x % 3 == 0
    } else if mask == 3 {
        (x + y) % 3 == 0
    } else if mask == 4 {
        (y / 2 + x / 3) % 2 == 0
    } else if mask == 5 {
        (x * y) % 2 + (x * y) % 3 == 0
    } else if mask == 6 {
        ((x * y) % 2 + (x * y) % 3) % 2 == 0
    } else {
        ((x + y) % 2 + (x * y) % 3) % 2 == 0
    }
}

/// `g` with data mask `mask` applied to every non-function module.
pub open spec fn masked(g: Grid, mask: u8) -> Grid {
    Grid {
        n: g.n,
        dark: Seq::new(
            g.dark.len(),
            |i: int|
                if g.func[i] {
                    g.dark[i]
                } else {
                    g.dark[i] != mask_flip(mask, i % g.n as int, i / g.n as int)
                },
        ),
        func: g.func,
    }
}

/// The colour of module `(x, y)`.
pub open spec fn at(g: Grid, x: int, y: int) -> bool {
    g.dark[y * g.n + x]
}

/// Row `y` of `g`, left to right.
pub open spec fn row_line(g: Grid, y: int) -> Seq<bool> {
    Seq::new(g.n, |x: int| at(g, x, y))
}

/// Column `x` of `g`, top to bottom.
pub open spec fn col_line(g: Grid, x: int) -> Seq<bool> {
    Seq::new(g.n, |y: int| at(g, x, y))
}

/// Scanning the first `k` modules of `line`: the length of the current run
/// of one colour, and the penalty of the runs already closed (a run of
/// `r >= 5` modules costs `3 + (r - 5)`).
pub open spec fn line_scan(line: Seq<bool>, k: nat) -> (nat, nat)
    decreases k,
{
    if k <= 1 {
        (1, 0)
    } else {
        let (r, s) = line_scan(line, (k - 1) as nat);
        if line[k - 1] == line[k - 2] {
            (r + 1, s)
        } else {
            (1, if r >= 5 {
                (s + r - 2) as nat
            } else {
                s
            })
        }
    }
}

/// The run penalty of one line (rule 1).
pub open spec fn line_penalty(line: Seq<bool>) -> nat {
    let (r, s) = line_scan(line, line.len());
    if r >= 5 {
        (s + r - 2) as nat
    } else {
        s
    }
}

/// Rule 1 summed over the first `k` rows and the first `k` columns.
pub open spec fn runs_penalty(g: Grid, k: nat) -> nat
    decreases k,
{
    if k == 0 {
        0
    } else {
        runs_penalty(g, (k - 1) as nat) + line_penalty(row_line(g, k - 1)) + line_penalty(
            col_line(g, k - 1),
        )
    }
}

/// Whether the 2x2 block with top-left `(x, y)` is of one colour.
pub open spec fn block_at(g: Grid, x: int, y: int) -> bool {
    at(g, x + 1, y) == at(g, x, y) && at(g, x, y + 1) == at(g, x, y) && at(g, x + 1, y + 1)
        == at(g, x, y)
}

/// The one-colour 2x2 blocks with top-left in row `y`, columns `0..k`.
pub open spec fn blocks_in_row(g: Grid, y: int, k: nat) -> nat
    decreases k,
{
    if k == 0 {
        0
    } else {
        blocks_in_row(g, y, (k - 1) as nat) + if block_at(g, k - 1, y) {
            1nat
        } else {
            0nat
        }
    }
}

/// The one-colour 2x2 blocks with top-left in rows `0..k` (rule 2).
pub open spec fn blocks(g: Grid, k: nat) -> nat
    decreases k,
{
    if k == 0 {
        0
    } else {
        blocks(g, (k - 1) as nat) + blocks_in_row(g, k - 1, (g.n - 1) as nat)
    }
}

/// Module `k` of the finder-like pattern `1011101 0000` (`first`) or its
/// mirror `0000 1011101`.
pub open spec fn finder_run(first: bool, k: int) -> bool {
    if first {
        k == 0 || k == 2 || k == 3 || k == 4 || k == 6
    } else {
        k == 4 || k == 6 || k == 7 || k == 8 || k == 10
    }
}

/// Whether the 11 modules of row `y` from column `x` spell a finder-like
/// pattern.
pub open spec fn finder_like_row(g: Grid, x: int, y: int) -> bool {
    (forall|k: int| 0 <= k < 11 ==> #[trigger] at(g, x + k, y) == finder_run(true, k)) || (
    forall|k: int| 0 <= k < 11 ==> #[trigger] at(g, x + k, y) == finder_run(false, k))
}

/// Whether the 11 modules of column `x` from row `y` spell a finder-like
/// pattern.
pub open spec fn finder_like_col(g: Grid, x: int, y: int) -> bool {
    (forall|k: int| 0 <= k < 11 ==> #[trigger] at(g, x, y + k) == finder_run(true, k)) || (
    forall|k: int| 0 <= k < 11 ==> #[trigger] at(g, x, y + k) == finder_run(false, k))
}

/// The finder-like patterns starting at offsets `0..k` of row `y` and of
/// column `y`.
pub open spec fn finders_in_line(g: Grid, y: int, k: nat) -> nat
    decreases k,
{
    if k == 0 {
        0
    } else {
        finders_in_line(g, y, (k - 1) as nat) + (if finder_like_row(g, k - 1, y) {
            1nat
        } else {
            0nat
        }) + (if finder_like_col(g, y, k - 1) {
            1nat
        } else {
            0nat
        })
    }
}

/// The finder-like patterns in rows and columns `0..k` (rule 3).
pub open spec fn finders(g: Grid, k: nat) -> nat
    decreases k,
{
    if k == 0 {
        0
    } else {
        finders(g, (k - 1) as nat) + finders_in_line(g, k - 1, (g.n - 10) as nat)
    }
}

/// The number of dark modules in `s`.
pub open spec fn dark_count(s: Seq<bool>) -> nat
    decreases s.len(),
{
    if s.len() == 0 {
        0
    } else {
        dark_count(s.drop_last()) + if s.last() {
            1nat
        } else {
            0nat
        }
    }
}

/// The dark/light balance penalty (rule 4): ten points per five percent the
/// dark share lies away from half.
pub open spec fn balance_penalty(dark: nat, total: nat) -> nat {
    let percent = dark * 100 / total;
    let five = percent / 5 * 5;
    let a = abs(five - 50) / 5;
    let b = abs(five + 5 - 50) / 5;
    ((if a <= b {
        a
    } else {
        b
    }) * 10) as nat
}

/// The QR penalty score of `g`: the four rules summed; lower is better.
pub open spec fn penalty_of(g: Grid) -> nat {
    runs_penalty(g, g.n) + 3 * blocks(g, (g.n - 1) as nat) + 40 * finders(g, g.n)
        + balance_penalty(dark_count(g.dark), g.n * g.n)
}

/// The mask among `0..k` of least penalty on `g`, the first one on a tie,
/// and its penalty.
pub open spec fn best_mask_below(g: Grid, k: nat) -> (u8, nat)
    decreases k,
{
    if k <= 1 {
        (0, penalty_of(masked(g, 0)))
    } else {
        let (m, p) = best_mask_below(g, (k - 1) as nat);
        let q = penalty_of(masked(g, (k - 1) as u8));
        if q < p {
            ((k - 1) as u8, q)
        } else {
            (m, p)
        }
    }
}

/// The mask the encoder applies to `g`: the least-penalty one of the eight.
pub open spec fn best_mask(g: Grid) -> u8 {
    best_mask_below(g, 8).0
}

proof fn lemma_line_scan_bound(line: Seq<bool>, k: nat)
    requires
        k <= line.len(),
    ensures
        line_scan(line, k).1 + line_scan(line, k).0 <= (if k == 0 { 1 } else { k }),
        line_scan(line, k).0 >= 1,
    decreases k,
{
    if k > 1 {
        lemma_line_scan_bound(line, (k - 1) as nat);
    }
}

/// A data mask undoes itself: masking twice with the same pattern restores
/// the grid.
pub proof fn lemma_masked_twice(g: Grid, mask: u8)
    requires
        g.dark.len() == g.func.len(),
    ensures
        masked(masked(g, mask), mask) == g,
{
    assert(masked(masked(g, mask), mask).dark =~= g.dark);
}

/// The BCH(15,5) remainder register after `k` steps of the division by
/// `0x537`, starting from `rem`.
pub open spec fn bch_rem(rem: u32, k: nat) -> u32
    decreases k,
{
    if k == 0 {
        rem
    } else {
        let r = bch_rem(rem, (k - 1) as nat);
        (r << 1u32) ^ (((r >> 9u32) * 0x537u32) as u32)
    }
}

/// The 15 format-information bits for error-correction level L and `mask`:
/// the five data bits `01` + mask, their BCH remainder, XOR `0x5412`.
pub open spec fn format_bits(mask: u8) -> u32 {
    let data = (1u32 << 3u32) | (mask as u32);
    ((data << 10u32) | bch_rem(data, 10)) ^ 0x5412u32
}

/// Where the format bits go: the first copy around the top-left finder, the
/// second split between the top-right and bottom-left finders.
pub open spec fn format_cell(n: int, bits: u32, x: int, y: int) -> Option<bool> {
    let index: int = if x == 8 && 0 <= y < 6 {
        y
    } else if x == 8 && y == 7 {
        6
    } else if x == 8 && y == 8 {
        7
    } else if x == 7 && y == 8 {
        8
    } else if y == 8 && 0 <= x <= 5 {
        14 - x
    } else if y == 8 && n - 8 <= x < n {
        n - 1 - x
    } else if x == 8 && n - 7 <= y < n {
        y - (n - 15)
    } else {
        -1
    };
    if index >= 0 {
        Some((bits >> (index as u32)) & 1u32 == 1u32)
    } else {
        None
    }
}

/// The grid with the format information for `mask` written, then the dark
/// module restored.
pub open spec fn with_format(g: Grid, mask: u8) -> Grid {
    let n = g.n as int;
    let f = paint(g, |x: int, y: int| format_cell(n, format_bits(mask), x, y));
    paint(f, |x: int, y: int| dark_module_cell(n, x, y))
}

/// The finished module grid of version `v` for `data`: function patterns,
/// reserved format strips, the codewords in zig-zag order, the least-penalty
/// mask, and the format information.
pub open spec fn encoded_grid(v: nat, data: Seq<u8>) -> Grid {
    let g0 = reserved(function_patterns(v, empty_grid(side_of(v))));
    let g1 = with_codewords(g0, codewords_of(v, data));
    let m = best_mask(g1);
    with_format(masked(g1, m), m)
}

/// One per-module drawing step.
#[derive(Clone, Copy)]
enum Stage {
    Timing,
    Finder(usize, usize),
    Alignment(usize),
    DarkModule,
    Reserve,
    Format(u32),
}

impl Stage {
    spec fn cell(self, n: int) -> spec_fn(int, int) -> Option<bool> {
        match self {
            Stage::Timing => |x: int, y: int| timing_cell(x, y),
            Stage::Finder(ox, oy) => |x: int, y: int| finder_cell(ox as int, oy as int, x, y),
            Stage::Alignment(c) => |x: int, y: int| alignment_cell(c as int, x, y),
            Stage::DarkModule => |x: int, y: int| dark_module_cell(n, x, y),
            Stage::Reserve => |x: int, y: int| reserve_cell(n, x, y),
            Stage::Format(bits) => |x: int, y: int| format_cell(n, bits, x, y),
        }
    }

    fn cell_at(self, n: usize, x: usize, y: usize) -> (r: Option<bool>)
        requires
            x < n,
            y < n,
            n <= 37,
        ensures
            r == (self.cell(n as int))(x as int, y as int),
    {
        let (xi, yi, ni) = (x as i64, y as i64, n as i64);
        match self {
            Stage::Timing => {
                if y == 6 {
                    Some(x % 2 == 0)
                } else if x == 6 {
                    Some(y % 2 == 0)
                } else {
                    None
                }
            },
            Stage::Finder(ox, oy) => {
                if ox > 100 || oy > 100 {
                    return None;
                }
                let dx = xi - ox as i64;
                let dy = yi - oy as i64;
                if -1 <= dx && dx <= 7 && -1 <= dy && dy <= 7 {
                    let cx = if dx < 0 {
                        0
                    } else if dx > 6 {
                        6
                    } else {
                        dx
                    };
                    let cy = if dy < 0 {
                        0
                    } else if dy > 6 {
                        6
                    } else {
                        dy
                    };
                    let rx = if cx >= 3 {
                        cx - 3
                    } else {
                        3 - cx
                    };
                    let ry = if cy >= 3 {
                        cy - 3
                    } else {
                        3 - cy
                    };
                    let ring = if rx >= ry {
                        rx
                    } else {
                        ry
                    };
                    Some(0 <= dx && dx <= 6 && 0 <= dy && dy <= 6 && ring != 2)
                } else {
                    None
                }
            },
            Stage::Alignment(c) => {
                if c > 100 {
                    return None;
                }
                let ci = c as i64;
                let dx = if xi >= ci {
                    xi - ci
                } else {
                    ci - xi
                };
                let dy = if yi >= ci {
                    yi - ci
                } else {
                    ci - yi
                };
                if dx <= 2 && dy <= 2 {
                    Some((if dx >= dy {
                        dx
                    } else {
                        dy
                    }) != 1)
                } else {
                    None
                }
            },
            Stage::DarkModule => {
                if xi == 8 && yi == ni - 8 {
                    Some(true)
                } else {
                    None
                }
            },
            Stage::Reserve => {
                if (xi == 8 && yi <= 8 && yi != 6) || (yi == 8 && xi <= 8 && xi != 6) || (yi == 8
                    && xi >= ni - 8) || (xi == 8 && yi >= ni - 7) {
                    Some(false)
                } else {
                    None
                }
            },
            Stage::Format(bits) => {
                let index: i64 = if xi == 8 && 0 <= yi && yi < 6 {
                    yi
                } else if xi == 8 && yi == 7 {
                    6
                } else if xi == 8 && yi == 8 {
                    7
                } else if xi == 7 && yi == 8 {
                    8
                } else if yi == 8 && 0 <= xi && xi <= 5 {
                    14 - xi
                } else if yi == 8 && ni - 8 <= xi && xi < ni {
                    ni - 1 - xi
                } else if xi == 8 && ni - 7 <= yi && yi < ni {
                    yi - (ni - 15)
                } else {
                    -1
                };
                if index >= 0 {
                    Some((bits >> (index as u32)) & 1 == 1)
                } else {
                    None
                }
            },
        }
    }
}

/// A copy of `bits`.
fn copy_bools(bits: &Vec<bool>) -> (r: Vec<bool>)
    ensures
        r@ == bits@,
{
    let mut out: Vec<bool> = Vec::new();
    let mut i: usize = 0;
    while i < bits.len()
        invariant
            i <= bits.len(),
            out@ == bits@.subrange(0, i as int),
        decreases bits.len() - i,
    {
        out.push(bits[i]);
        i = i + 1;
    }
    out
}

/// The module grid under construction.
struct Matrix {
    version: Version,
    size: usize,
    dark: Vec<bool>,
    func: Vec<bool>,
}

impl Matrix {
    spec fn grid(&self) -> Grid {
        Grid { n: self.size as nat, dark: self.dark@, func: self.func@ }
    }

    spec fn wf(&self) -> bool {
        &&& self.version.valid()
        &&& self.size == side_of(self.version.number as nat)
        &&& self.dark@.len() == self.size * self.size
        &&& self.func@.len() == self.size * self.size
    }

    fn new(version: Version) -> (r: Matrix)
        requires
            version.valid(),
        ensures
            r.wf(),
            r.version == version,
            r.grid() == empty_grid(side_of(version.number as nat)),
    {
        let size = version.size();
        assert(size * size <= 1369) by (nonlinear_arith)
            requires
                size <= 37,
        ;
        let mut dark: Vec<bool> = Vec::new();
        let mut func: Vec<bool> = Vec::new();
        let mut i: usize = 0;
        while i < size * size
            invariant
                size <= 37,
                size * size <= 1369,
                i <= size * size,
                dark@ == Seq::new(i as nat, |k: int| false),
                func@ == Seq::new(i as nat, |k: int| false),
            decreases size * size - i,
        {
            dark.push(false);
            func.push(false);
            i = i + 1;
        }
        let r = Matrix { version, size, dark, func };
        assert(r.grid().dark =~= empty_grid(size as nat).dark);
        assert(r.grid().func =~= empty_grid(size as nat).func);
        r
    }

    fn paint(&mut self, stage: Stage)
        requires
            old(self).wf(),
        ensures
            final(self).wf(),
            final(self).version == old(self).version,
            final(self).grid() == paint(old(self).grid(), stage.cell(old(self).size as int)),
    {
        let n = self.size;
        let ghost g0 = self.grid();
        let ghost cell = stage.cell(n as int);
        assert(21 <= n <= 37);
        assert(n * n <= 1369) by (nonlinear_arith)
            requires
                n <= 37,
        ;
        let mut i: usize = 0;
        while i < n * n
            invariant
                self.wf(),
                self.version == old(self).version,
                n == self.size,
                21 <= n <= 37,
                n * n <= 1369,
                g0 == old(self).grid(),
                cell == stage.cell(n as int),
                i <= n * n,
                g0.n == n,
                g0.dark.len() == n * n,
                g0.func.len() == n * n,
                forall|k: int| 0 <= k < i ==> #[trigger] self.dark@[k] == paint(g0, cell).dark[k],
                forall|k: int| 0 <= k < i ==> #[trigger] self.func@[k] == paint(g0, cell).func[k],
                forall|k: int| i <= k < n * n ==> #[trigger] self.dark@[k] == g0.dark[k],
                forall|k: int| i <= k < n * n ==> #[trigger] self.func@[k] == g0.func[k],
            decreases n * n - i,
        {
            let x = i % n;
            let y = i / n;
            assert(y < n) by (nonlinear_arith)
                requires
                    i < n * n,
                    y == i / n,
                    n > 0,
            ;
            match stage.cell_at(n, x, y) {
                Some(d) => {
                    self.dark.set(i, d);
                    self.func.set(i, true);
                },
                None => {},
            }
            i = i + 1;
        }
        assert(self.grid().dark =~= paint(g0, cell).dark);
        assert(self.grid().func =~= paint(g0, cell).func);
    }

    fn draw_finder(&mut self, ox: usize, oy: usize)
        requires
            old(self).wf(),
        ensures
            final(self).wf(),
            final(self).version == old(self).version,
            final(self).grid() == paint(
                old(self).grid(),
                |x: int, y: int| finder_cell(ox as int, oy as int, x, y),
            ),
    {
        self.paint(Stage::Finder(ox, oy));
        assert(Stage::Finder(ox, oy).cell(self.size as int) =~= (|x: int, y: int|
            finder_cell(ox as int, oy as int, x, y)));
    }

    fn draw_alignment(&mut self, c: usize)
        requires
            old(self).wf(),
        ensures
            final(self).wf(),
            final(self).version == old(self).version,
            final(self).grid() == paint(old(self).grid(), |x: int, y: int| alignment_cell(c as int, x, y)),
    {
        self.paint(Stage::Alignment(c));
        assert(Stage::Alignment(c).cell(self.size as int) =~= (|x: int, y: int|
            alignment_cell(c as int, x, y)));
    }

    fn draw_function_patterns(&mut self)
        requires
            old(self).wf(),
        ensures
            final(self).wf(),
            final(self).version == old(self).version,
            final(self).grid() == function_patterns(old(self).version.number as nat, old(self).grid()),
    {
        let n = self.size;
        let ghost g = self.grid();
        self.paint(Stage::Timing);
        assert(Stage::Timing.cell(n as int) =~= (|x: int, y: int| timing_cell(x, y)));
        self.draw_finder(0, 0);
        self.draw_finder(n - 7, 0);
        self.draw_finder(0, n - 7);
        if self.version.align != 0 {
            let c = self.version.align;
            self.draw_alignment(c);
        }
        self.paint(Stage::DarkModule);
        assert(Stage::DarkModule.cell(n as int) =~= (|x: int, y: int| dark_module_cell(n as int, x, y)));
    }

    fn reserve_format(&mut self)
        requires
            old(self).wf(),
        ensures
            final(self).wf(),
            final(self).version == old(self).version,
            final(self).grid() == reserved(old(self).grid()),
    {
        let n = self.size;
        self.paint(Stage::Reserve);
        assert(Stage::Reserve.cell(n as int) =~= (|x: int, y: int| reserve_cell(n as int, x, y)));
    }

    fn draw_codewords(&mut self, codewords: &[u8])
        requires
            old(self).wf(),
            codewords.len() <= 1000,
        ensures
            final(self).wf(),
            final(self).version == old(self).version,
            final(self).grid() == with_codewords(old(self).grid(), codewords@),
    {
        let n = self.size;
        let ghost g = self.grid();
        assert(21 <= n <= 37);
        assert(n * n <= 1369) by (nonlinear_arith)
            requires
                n <= 37,
        ;
        let total_bits = codewords.len() * 8;
        let pairs = (n - 1) / 2;
        let mut bit: usize = 0;
        let mut p: usize = 0;
        while p < pairs
            invariant
                self.wf(),
                self.version == old(self).version,
                g == old(self).grid(),
                n == self.size,
                21 <= n <= 37,
                n * n <= 1369,
                g.n == n,
                g.dark.len() == n * n,
                g.func.len() == n * n,
                self.func@ == g.func,
                pairs == (n - 1) / 2,
                total_bits == codewords.len() * 8,
                p <= pairs,
                (self.dark@, bit as nat) == placed(g, codewords@, (p * (2 * n)) as nat),
            decreases pairs - p,
        {
            let c = n - 1 - 2 * p;
            let right = if c > 6 {
                c
            } else {
                c - 1
            };
            let upward = (right + 1) % 4 < 2;
            let mut vert: usize = 0;
            while vert < n
                invariant
                    self.wf(),
                    self.version == old(self).version,
                    n == self.size,
                    21 <= n <= 37,
                    n * n <= 1369,
                    g.n == n,
                    g.dark.len() == n * n,
                    g.func.len() == n * n,
                    self.func@ == g.func,
                    total_bits == codewords.len() * 8,
                    p < pairs,
                    pairs == (n - 1) / 2,
                    right == zig_column(n as int, p as int),
                    1 <= right <= n - 1,
                    upward == ((right + 1) % 4 < 2),
                    vert <= n,
                    (self.dark@, bit as nat) == placed(
                        g,
                        codewords@,
                        (p * (2 * n) + 2 * vert) as nat,
                    ),
                decreases n - vert,
            {
                let mut j: usize = 0;
                while j < 2
                    invariant
                        self.wf(),
                        self.version == old(self).version,
                        n == self.size,
                        21 <= n <= 37,
                        n * n <= 1369,
                        g.n == n,
                        g.dark.len() == n * n,
                        g.func.len() == n * n,
                        self.func@ == g.func,
                        total_bits == codewords.len() * 8,
                        p < pairs,
                        pairs == (n - 1) / 2,
                        right == zig_column(n as int, p as int),
                        1 <= right <= n - 1,
                        upward == ((right + 1) % 4 < 2),
                        vert < n,
                        j <= 2,
                        (self.dark@, bit as nat) == placed(
                            g,
                            codewords@,
                            (p * (2 * n) + 2 * vert + j) as nat,
                        ),
                    decreases 2 - j,
                {
                    let ghost q = p * (2 * n) + 2 * vert + j;
                    proof {
                        vstd::arithmetic::div_mod::lemma_fundamental_div_mod_converse(
                            q,
                            2 * n,
                            p as int,
                            2 * vert + j,
                        );
                        vstd::arithmetic::div_mod::lemma_fundamental_div_mod_converse(
                            2 * vert + j,
                            2,
                            vert as int,
                            j as int,
                        );
                    }
                    let x = right - j;
                    let y = if upward {
                        n - 1 - vert
                    } else {
                        vert
                    };
                    assert(x == zig_x(n as int, q) && y == zig_y(n as int, q));
                    assert(y * n + x < n * n) by (nonlinear_arith)
                        requires
                            x < n,
                            y < n,
                    ;
                    let i = y * n + x;
                    if !self.func[i] && bit < total_bits {
                        let byte = codewords[bit / 8];
                        let b = (byte >> ((7 - (bit % 8)) as u8)) & 1 == 1;
                        self.dark.set(i, b);
                        bit = bit + 1;
                    }
                    j = j + 1;
                }
                vert = vert + 1;
            }
            assert((p + 1) * (2 * n) == p * (2 * n) + 2 * n) by (nonlinear_arith);
            p = p + 1;
        }
    }

    fn apply_mask(&mut self, mask: u8)
        requires
            old(self).wf(),
        ensures
            final(self).wf(),
            final(self).version == old(self).version,
            final(self).grid() == masked(old(self).grid(), mask),
    {
        let n = self.size;
        let ghost g0 = self.grid();
        assert(21 <= n <= 37);
        assert(n * n <= 1369) by (nonlinear_arith)
            requires
                n <= 37,
        ;
        let mut i: usize = 0;
        while i < n * n
            invariant
                self.wf(),
                self.version == old(self).version,
                n == self.size,
                21 <= n <= 37,
                n * n <= 1369,
                g0 == old(self).grid(),
                g0.n == n,
                g0.dark.len() == n * n,
                g0.func.len() == n * n,
                self.func@ == g0.func,
                i <= n * n,
                forall|k: int| 0 <= k < i ==> #[trigger] self.dark@[k] == masked(g0, mask).dark[k],
                forall|k: int| i <= k < n * n ==> #[trigger] self.dark@[k] == g0.dark[k],
            decreases n * n - i,
        {
            if !self.func[i] {
                let x = (i % n) as u32;
                let y = (i / n) as u32;
                assert(y < n) by (nonlinear_arith)
                    requires
                        i < n * n,
                        y == i / n,
                        n > 0,
                ;
                assert(x * y <= 1369) by (nonlinear_arith)
                    requires
                        x < 37,
                        y < 37,
                ;
                let flip = if mask == 0 {
                    (x + y) % 2 == 0
                } else if mask == 1 {
                    y % 2 == 0
                } else if mask == 2 {
                    x % 3 == 0
                } else if mask == 3 {
                    (x + y) % 3 == 0
                } else if mask == 4 {
                    (y / 2 + x / 3) % 2 == 0
                } else if mask == 5 {
                    (x * y) % 2 + (x * y) % 3 == 0
                } else if mask == 6 {
                    ((x * y) % 2 + (x * y) % 3) % 2 == 0
                } else {
                    ((x + y) % 2 + (x * y) % 3) % 2 == 0
                };
                if flip {
                    let d = self.dark[i];
                    self.dark.set(i, !d);
                }
            }
            i = i + 1;
        }
        assert(self.grid().dark =~= masked(g0, mask).dark);
    }

    fn line_penalties(&self, y: usize) -> (r: u32)
        requires
            self.wf(),
            y < self.size,
        ensures
            r == line_penalty(row_line(self.grid(), y as int)) + line_penalty(
                col_line(self.grid(), y as int),
            ),
            r <= 2 * self.size,
    {
        let n = self.size;
        let ghost g = self.grid();
        let ghost row = row_line(g, y as int);
        let ghost col = col_line(g, y as int);
        assert(21 <= n <= 37);
        assert(n * n <= 1369) by (nonlinear_arith)
            requires
                n <= 37,
        ;
        let mut run_r: u32 = 1;
        let mut run_c: u32 = 1;
        let mut score_r: u32 = 0;
        let mut score_c: u32 = 0;
        let mut x: usize = 1;
        while x < n
            invariant
                self.wf(),
                g == self.grid(),
                n == self.size,
                21 <= n <= 37,
                n * n <= 1369,
                y < n,
                row == row_line(g, y as int),
                col == col_line(g, y as int),
                1 <= x <= n,
                (run_r as nat, score_r as nat) == line_scan(row, x as nat),
                (run_c as nat, score_c as nat) == line_scan(col, x as nat),
            decreases n - x,
        {
            proof {
                lemma_line_scan_bound(row, x as nat);
                lemma_line_scan_bound(col, x as nat);
            }
            assert(y * n + x < n * n && y * n + x - 1 >= 0) by (nonlinear_arith)
                requires
                    x < n,
                    y < n,
                    x >= 1,
            ;
            assert(x * n + y < n * n && (x - 1) * n + y >= 0 && (x - 1) * n + y == x * n + y - n)
                by (nonlinear_arith)
                requires
                    x < n,
                    y < n,
                    x >= 1,
            ;
            let a = self.dark[y * n + x];
            let b = self.dark[y * n + x - 1];
            if a == b {
                run_r = run_r + 1;
            } else {
                if run_r >= 5 {
                    score_r = score_r + (run_r - 2);
                }
                run_r = 1;
            }
            let c = self.dark[x * n + y];
            let d = self.dark[x * n + y - n];
            if c == d {
                run_c = run_c + 1;
            } else {
                if run_c >= 5 {
                    score_c = score_c + (run_c - 2);
                }
                run_c = 1;
            }
            x = x + 1;
        }
        proof {
            lemma_line_scan_bound(row, n as nat);
            lemma_line_scan_bound(col, n as nat);
        }
        if run_r >= 5 {
            score_r = score_r + (run_r - 2);
        }
        if run_c >= 5 {
            score_c = score_c + (run_c - 2);
        }
        score_r + score_c
    }

    fn blocks_row(&self, y: usize) -> (r: u32)
        requires
            self.wf(),
            y + 1 < self.size,
        ensures
            r == blocks_in_row(self.grid(), y as int, (self.size - 1) as nat),
            r <= self.size,
    {
        let n = self.size;
        let ghost g = self.grid();
        assert(21 <= n <= 37);
        assert(n * n <= 1369) by (nonlinear_arith)
            requires
                n <= 37,
        ;
        let mut count: u32 = 0;
        let mut x: usize = 0;
        while x + 1 < n
            invariant
                self.wf(),
                g == self.grid(),
                n == self.size,
                21 <= n <= 37,
                n * n <= 1369,
                y + 1 < n,
                x + 1 <= n,
                count == blocks_in_row(g, y as int, x as nat),
                count <= x,
            decreases n - x,
        {
            assert((y + 1) * n + x + 1 < n * n && (y + 1) * n == y * n + n) by (nonlinear_arith)
                requires
                    x + 1 < n,
                    y + 1 < n,
            ;
            let c = self.dark[y * n + x];
            if self.dark[y * n + x + 1] == c && self.dark[(y + 1) * n + x] == c && self.dark[(y
                + 1) * n + x + 1] == c {
                count = count + 1;
            }
            x = x + 1;
        }
        count
    }

    fn finder_row(&self, x: usize, y: usize) -> (r: bool)
        requires
            self.wf(),
            x + 10 < self.size,
            y < self.size,
        ensures
            r == finder_like_row(self.grid(), x as int, y as int),
    {
        let n = self.size;
        let ghost g = self.grid();
        assert(21 <= n <= 37);
        assert(n * n <= 1369) by (nonlinear_arith)
            requires
                n <= 37,
        ;
        let mut first = true;
        let mut second = true;
        let mut k: usize = 0;
        while k < 11
            invariant
                self.wf(),
                g == self.grid(),
                n == self.size,
                21 <= n <= 37,
                n * n <= 1369,
                x + 10 < n,
                y < n,
                k <= 11,
                first == (forall|j: int| 0 <= j < k ==> #[trigger] at(g, x + j, y as int) == finder_run(true, j)),
                second == (forall|j: int| 0 <= j < k ==> #[trigger] at(g, x + j, y as int) == finder_run(false, j)),
            decreases 11 - k,
        {
            assert(y * n + x + k < n * n) by (nonlinear_arith)
                requires
                    x + k < n,
                    y < n,
            ;
            let m = self.dark[y * n + x + k];
            let p1 = k == 0 || k == 2 || k == 3 || k == 4 || k == 6;
            let p2 = k == 4 || k == 6 || k == 7 || k == 8 || k == 10;
            proof {
                assert(at(g, x + k, y as int) == m);
            }
            first = first && m == p1;
            second = second && m == p2;
            k = k + 1;
        }
        first || second
    }

    fn finder_col(&self, x: usize, y: usize) -> (r: bool)
        requires
            self.wf(),
            x < self.size,
            y + 10 < self.size,
        ensures
            r == finder_like_col(self.grid(), x as int, y as int),
    {
        let n = self.size;
        let ghost g = self.grid();
        assert(21 <= n <= 37);
        assert(n * n <= 1369) by (nonlinear_arith)
            requires
                n <= 37,
        ;
        let mut first = true;
        let mut second = true;
        let mut k: usize = 0;
        while k < 11
            invariant
                self.wf(),
                g == self.grid(),
                n == self.size,
                21 <= n <= 37,
                n * n <= 1369,
                x < n,
                y + 10 < n,
                k <= 11,
                first == (forall|j: int| 0 <= j < k ==> #[trigger] at(g, x as int, y + j) == finder_run(true, j)),
                second == (forall|j: int| 0 <= j < k ==> #[trigger] at(g, x as int, y + j) == finder_run(false, j)),
            decreases 11 - k,
        {
            assert((y + k) * n + x < n * n) by (nonlinear_arith)
                requires
                    x < n,
                    y + k < n,
            ;
            let m = self.dark[(y + k) * n + x];
            let p1 = k == 0 || k == 2 || k == 3 || k == 4 || k == 6;
            let p2 = k == 4 || k == 6 || k == 7 || k == 8 || k == 10;
            proof {
                assert(at(g, x as int, y + k) == m);
            }
            first = first && m == p1;
            second = second && m == p2;
            k = k + 1;
        }
        first || second
    }

    fn finders_line(&self, y: usize) -> (r: u32)
        requires
            self.wf(),
            y < self.size,
        ensures
            r == finders_in_line(self.grid(), y as int, (self.size - 10) as nat),
            r <= 2 * self.size,
    {
        let n = self.size;
        let ghost g = self.grid();
        assert(21 <= n <= 37);
        assert(n * n <= 1369) by (nonlinear_arith)
            requires
                n <= 37,
        ;
        let mut count: u32 = 0;
        let mut x: usize = 0;
        while x < n - 10
            invariant
                self.wf(),
                g == self.grid(),
                n == self.size,
                21 <= n <= 37,
                n * n <= 1369,
                y < n,
                x <= n - 10,
                count == finders_in_line(g, y as int, x as nat),
                count <= 2 * x,
            decreases n - 10 - x,
        {
            if self.finder_row(x, y) {
                count = count + 1;
            }
            if self.finder_col(y, x) {
                count = count + 1;
            }
            x = x + 1;
        }
        count
    }

    fn dark_modules(&self) -> (r: usize)
        requires
            self.wf(),
        ensures
            r == dark_count(self.dark@),
            r <= self.dark@.len(),
    {
        let mut count: usize = 0;
        let mut i: usize = 0;
        while i < self.dark.len()
            invariant
                i <= self.dark@.len(),
                count == dark_count(self.dark@.subrange(0, i as int)),
                count <= i,
            decreases self.dark@.len() - i,
        {
            assert(self.dark@.subrange(0, i + 1).drop_last() =~= self.dark@.subrange(0, i as int));
            if self.dark[i] {
                count = count + 1;
            }
            i = i + 1;
        }
        assert(self.dark@.subrange(0, self.dark@.len() as int) =~= self.dark@);
        count
    }

    fn penalty(&self) -> (r: u32)
        requires
            self.wf(),
        ensures
            r == penalty_of(self.grid()),
            r <= 120_000,
    {
        let n = self.size;
        let ghost g = self.grid();
        assert(21 <= n <= 37);
        assert(n * n <= 1369) by (nonlinear_arith)
            requires
                n <= 37,
        ;
        let mut runs: u32 = 0;
        let mut y: usize = 0;
        while y < n
            invariant
                self.wf(),
                g == self.grid(),
                n == self.size,
                21 <= n <= 37,
                n * n <= 1369,
                y <= n,
                runs == runs_penalty(g, y as nat),
                runs <= 2 * (n * y),
            decreases n - y,
        {
            let r = self.line_penalties(y);
            assert(n * y + n == n * (y + 1) && n * (y + 1) <= n * n) by (nonlinear_arith)
                requires
                    y < n,
            ;
            runs = runs + r;
            y = y + 1;
        }
        assert(2 * n * n <= 2738) by (nonlinear_arith)
            requires
                n <= 37,
        ;
        let mut block_count: u32 = 0;
        let mut y: usize = 0;
        while y + 1 < n
            invariant
                self.wf(),
                g == self.grid(),
                n == self.size,
                21 <= n <= 37,
                n * n <= 1369,
                y + 1 <= n,
                block_count == blocks(g, y as nat),
                block_count <= n * y,
            decreases n - y,
        {
            let b = self.blocks_row(y);
            assert(n * y + n == n * (y + 1) && n * (y + 1) <= n * n) by (nonlinear_arith)
                requires
                    y < n,
            ;
            block_count = block_count + b;
            y = y + 1;
        }
        assert(n * y <= n * n) by (nonlinear_arith)
            requires
                y <= n,
        ;
        let mut finder_count: u32 = 0;
        let mut y: usize = 0;
        while y < n
            invariant
                self.wf(),
                g == self.grid(),
                n == self.size,
                21 <= n <= 37,
                n * n <= 1369,
                y <= n,
                finder_count == finders(g, y as nat),
                finder_count <= 2 * (n * y),
            decreases n - y,
        {
            let f = self.finders_line(y);
            assert(n * y + n == n * (y + 1) && n * (y + 1) <= n * n) by (nonlinear_arith)
                requires
                    y < n,
            ;
            finder_count = finder_count + f;
            y = y + 1;
        }
        let dark = self.dark_modules();
        let total = n * n;
        assert(total >= 441) by (nonlinear_arith)
            requires
                n >= 21,
                total == n * n,
        ;
        let percent = dark * 100 / total;
        assert(percent <= 100) by (nonlinear_arith)
            requires
                dark <= total,
                total > 0,
                percent == (dark * 100) as int / total as int,
        ;
        let five = (percent / 5 * 5) as i64;
        let a = if five >= 50 {
            (five - 50) / 5
        } else {
            (50 - five) / 5
        };
        let b = if five + 5 >= 50 {
            (five + 5 - 50) / 5
        } else {
            (50 - five - 5) / 5
        };
        let balance = (if a <= b {
            a
        } else {
            b
        }) * 10;
        assert(0 <= balance <= 100);
        runs + 3 * block_count + 40 * finder_count + balance as u32
    }

    fn apply_best_mask(&mut self) -> (r: u8)
        requires
            old(self).wf(),
        ensures
            final(self).wf(),
            final(self).version == old(self).version,
            r == best_mask(old(self).grid()),
            final(self).grid() == masked(old(self).grid(), r),
    {
        let ghost g0 = self.grid();
        let mut best: u8 = 0;
        let mut best_penalty: u32 = u32::MAX;
        let mut best_dark = crate::qr::copy_bools(&self.dark);
        let mut mask: u8 = 0;
        while mask < 8
            invariant
                self.wf(),
                self.version == old(self).version,
                g0 == old(self).grid(),
                self.grid() == g0,
                mask <= 8,
                mask == 0 ==> best_penalty == u32::MAX && best == 0,
                mask >= 1 ==> (best, best_penalty as nat) == best_mask_below(g0, mask as nat),
                mask >= 1 ==> best_dark@ == masked(g0, best).dark,
            decreases 8 - mask,
        {
            self.apply_mask(mask);
            let p = self.penalty();
            if p < best_penalty {
                best_penalty = p;
                best = mask;
                best_dark = crate::qr::copy_bools(&self.dark);
            }
            self.apply_mask(mask);
            proof {
                lemma_masked_twice(g0, mask);
            }
            mask = mask + 1;
        }
        self.dark = best_dark;
        assert(self.grid() =~= masked(g0, best));
        best
    }

    fn draw_format(&mut self, mask: u8)
        requires
            old(self).wf(),
        ensures
            final(self).wf(),
            final(self).version == old(self).version,
            final(self).grid() == with_format(old(self).grid(), mask),
    {
        let n = self.size;
        let data: u32 = (1u32 << 3u32) | (mask as u32);
        assert(data < 1024) by (bit_vector)
            requires
                data == (1u32 << 3u32) | (mask as u32),
                mask < 256,
        ;
        let mut rem = data;
        let mut k: usize = 0;
        while k < 10
            invariant
                k <= 10,
                rem == bch_rem(data, k as nat),
                rem < 1024,
            decreases 10 - k,
        {
            assert(rem < 1024 ==> ((rem << 1u32) ^ (((rem >> 9u32) * 0x537u32) as u32)) < 1024
                && (rem >> 9u32) <= 1) by (bit_vector);
            rem = (rem << 1) ^ ((rem >> 9) * 0x537);
            k = k + 1;
        }
        let bits = ((data << 10) | rem) ^ 0x5412;
        self.paint(Stage::Format(bits));
        assert(Stage::Format(bits).cell(n as int) =~= (|x: int, y: int|
            format_cell(n as int, format_bits(mask), x, y)));
        self.paint(Stage::DarkModule);
        assert(Stage::DarkModule.cell(n as int) =~= (|x: int, y: int| dark_module_cell(n as int, x, y)));
    }
}

// ---------------------------------------------------------------------------
// The finished code
// ---------------------------------------------------------------------------

/// A rendered QR code: a `size` x `size` grid of dark (`true`) / light
/// (`false`) modules, without the quiet zone.
#[derive(Debug, PartialEq, Eq)]
pub struct QrCode {
    size: usize,
    dark: Vec<bool>,
}

/// A QR code as its side length and row-major module colours.
pub struct QrModel {
    /// The side length in modules.
    pub size: nat,
    /// Whether each module is dark, row-major.
    pub dark: Seq<bool>,
}

impl View for QrCode {
    type V = QrModel;

    closed spec fn view(&self) -> QrModel {
        QrModel { size: self.size as nat, dark: self.dark@ }
    }
}

impl QrCode {
    #[verifier::type_invariant]
    spec fn well_formed(self) -> bool {
        self.size <= 37 && self.dark@.len() == self.size * self.size
    }

    /// The side length of the code in modules (21 for version 1, +4 per
    /// version).
    pub fn size(&self) -> (r: usize)
        ensures
            r == self@.size,
    {
        self.size
    }

    /// Whether the module at `(x, y)` is dark; out-of-range coordinates read
    /// light.
    pub fn module(&self, x: usize, y: usize) -> (r: bool)
        ensures
            r == (x < self@.size && y < self@.size && self@.dark[y * self@.size + x]),
    {
        proof {
            use_type_invariant(self);
        }
        if x < self.size && y < self.size {
            assert(y * self.size + x < self.size * self.size) by (nonlinear_arith)
                requires
                    x < self.size,
                    y < self.size,
            ;
            assert(self.size * self.size <= 1369) by (nonlinear_arith)
                requires
                    self.size <= 37,
            ;
            self.dark[y * self.size + x]
        } else {
            false
        }
    }

    /// Encodes `data` as a byte-mode QR code at the smallest fitting version
    /// (1 to 5, error-correction level L), or `None` when it does not fit in
    /// version 5 (more than 106 bytes).
    pub fn encode(data: &[u8]) -> (r: Option<QrCode>)
        ensures
            match fitting_version(data.len() as nat) {
                None => r is None,
                Some(v) => r matches Some(q) && q@.size == side_of(v) && q@.dark == encoded_grid(
                    v,
                    data@,
                ).dark && q@.dark.len() == q@.size * q@.size,
            },
    {
        let ver = match Version::smallest_fitting(data.len()) {
            Some(v) => v,
            None => return None,
        };
        let ghost v = ver.number as nat;
        let gf = Gf256::new();
        let codewords = ver.codewords(data, &gf);
        let mut m = Matrix::new(ver);
        m.draw_function_patterns();
        m.reserve_format();
        m.draw_codewords(&codewords);
        let mask = m.apply_best_mask();
        m.draw_format(mask);
        assert(m.size <= 37 && m.dark@.len() == m.size * m.size);
        Some(QrCode { size: m.size, dark: m.dark })
    }
}

// ---------------------------------------------------------------------------
// What every encoded grid keeps
// ---------------------------------------------------------------------------

/// Whether `g` is a non-empty `n` x `n` grid with both layers of that size.
pub open spec fn grid_wf(g: Grid) -> bool {
    g.n > 0 && g.dark.len() == g.n * g.n && g.func.len() == g.n * g.n
}

proof fn lemma_cell_index(n: int, x: int, y: int)
    requires
        0 < n,
        0 <= x < n,
        0 <= y < n,
    ensures
        0 <= y * n + x < n * n,
        (y * n + x) % n == x,
        (y * n + x) / n == y,
{
    assert(0 <= y * n + x < n * n) by (nonlinear_arith)
        requires
            0 < n,
            0 <= x < n,
            0 <= y < n,
    ;
    vstd::arithmetic::div_mod::lemma_fundamental_div_mod_converse(y * n + x, n, y, x);
}

proof fn lemma_paint_wf(g: Grid, cell: spec_fn(int, int) -> Option<bool>)
    requires
        grid_wf(g),
    ensures
        grid_wf(paint(g, cell)),
        paint(g, cell).n == g.n,
{
}

proof fn lemma_paint_at(g: Grid, cell: spec_fn(int, int) -> Option<bool>, x: int, y: int)
    requires
        grid_wf(g),
        0 <= x < g.n,
        0 <= y < g.n,
    ensures
        at(paint(g, cell), x, y) == (match cell(x, y) {
            Some(d) => d,
            None => at(g, x, y),
        }),
        paint(g, cell).func[y * g.n + x] == (cell(x, y) is Some || g.func[y * g.n + x]),
{
    lemma_cell_index(g.n as int, x, y);
}

proof fn lemma_zig_in_range(n: int, q: int)
    requires
        n >= 9,
        0 <= q < zig_len(n),
    ensures
        0 <= zig_x(n, q) < n,
        0 <= zig_y(n, q) < n,
{
    let m = 2 * n;
    let h = (n - 1) / 2;
    let p = q / m;
    let r = q % m;
    vstd::arithmetic::div_mod::lemma_fundamental_div_mod(q, m);
    vstd::arithmetic::div_mod::lemma_mod_pos_bound(q, m);
    assert(0 <= p < h) by (nonlinear_arith)
        requires
            q == m * p + r,
            0 <= r < m,
            0 <= q < h * m,
            m > 0,
    ;
    assert(1 <= zig_column(n, p) <= n - 1);
}

proof fn lemma_placed_keeps_function(g: Grid, codewords: Seq<u8>, q: nat)
    requires
        grid_wf(g),
        g.n >= 9,
        q <= zig_len(g.n as int),
    ensures
        placed(g, codewords, q).0.len() == g.dark.len(),
        forall|j: int|
            0 <= j < g.dark.len() && g.func[j] ==> #[trigger] placed(g, codewords, q).0[j]
                == g.dark[j],
    decreases q,
{
    if q > 0 {
        lemma_placed_keeps_function(g, codewords, (q - 1) as nat);
        let n = g.n as int;
        lemma_zig_in_range(n, q - 1);
        lemma_cell_index(n, zig_x(n, q - 1), zig_y(n, q - 1));
    }
}

proof fn lemma_codewords_keep_function(g: Grid, codewords: Seq<u8>, x: int, y: int)
    requires
        grid_wf(g),
        g.n >= 9,
        0 <= x < g.n,
        0 <= y < g.n,
        g.func[y * g.n + x],
    ensures
        grid_wf(with_codewords(g, codewords)),
        with_codewords(g, codewords).n == g.n,
        with_codewords(g, codewords).func == g.func,
        at(with_codewords(g, codewords), x, y) == at(g, x, y),
{
    lemma_cell_index(g.n as int, x, y);
    lemma_placed_keeps_function(g, codewords, zig_len(g.n as int) as nat);
}

proof fn lemma_codewords_wf(g: Grid, codewords: Seq<u8>)
    requires
        grid_wf(g),
        g.n >= 9,
    ensures
        grid_wf(with_codewords(g, codewords)),
        with_codewords(g, codewords).n == g.n,
        with_codewords(g, codewords).func == g.func,
{
    lemma_placed_keeps_function(g, codewords, zig_len(g.n as int) as nat);
}

proof fn lemma_mask_keeps_function(g: Grid, mask: u8, x: int, y: int)
    requires
        grid_wf(g),
        0 <= x < g.n,
        0 <= y < g.n,
        g.func[y * g.n + x],
    ensures
        grid_wf(masked(g, mask)),
        masked(g, mask).n == g.n,
        at(masked(g, mask), x, y) == at(g, x, y),
{
    lemma_cell_index(g.n as int, x, y);
}

/// Whether every module of the finder pattern with top-left corner
/// `(ox, oy)`, separator included, that lies inside `g` has the pattern's
/// colour.
pub open spec fn finder_intact(g: Grid, ox: int, oy: int) -> bool {
    forall|x: int, y: int|
        0 <= x < g.n && 0 <= y < g.n && #[trigger] finder_cell(ox, oy, x, y) is Some ==> at(g, x, y)
            == finder_cell(ox, oy, x, y)->0
}

proof fn lemma_function_patterns_cell(v: nat, x: int, y: int)
    requires
        1 <= v <= 5,
        0 <= x < side_of(v),
        0 <= y < side_of(v),
    ensures
        grid_wf(function_patterns(v, empty_grid(side_of(v)))),
        function_patterns(v, empty_grid(side_of(v))).n == side_of(v),
        finder_cell(0, 0, x, y) is Some ==> at(function_patterns(v, empty_grid(side_of(v))), x, y)
            == finder_cell(0, 0, x, y)->0 && function_patterns(
            v,
            empty_grid(side_of(v)),
        ).func[y * side_of(v) + x],
        finder_cell(side_of(v) - 7, 0, x, y) is Some ==> at(
            function_patterns(v, empty_grid(side_of(v))),
            x,
            y,
        ) == finder_cell(side_of(v) - 7, 0, x, y)->0 && function_patterns(
            v,
            empty_grid(side_of(v)),
        ).func[y * side_of(v) + x],
        finder_cell(0, side_of(v) - 7, x, y) is Some ==> at(
            function_patterns(v, empty_grid(side_of(v))),
            x,
            y,
        ) == finder_cell(0, side_of(v) - 7, x, y)->0 && function_patterns(
            v,
            empty_grid(side_of(v)),
        ).func[y * side_of(v) + x],
{
    let g = empty_grid(side_of(v));
    let n = g.n as int;
    assert(grid_wf(g));
    let t = paint(g, |x: int, y: int| timing_cell(x, y));
    let f1 = paint(t, |x: int, y: int| finder_cell(0, 0, x, y));
    let f2 = paint(f1, |x: int, y: int| finder_cell(n - 7, 0, x, y));
    let f3 = paint(f2, |x: int, y: int| finder_cell(0, n - 7, x, y));
    let c = align_of(v) as int;
    let al = |x: int, y: int| alignment_cell(c, x, y);
    let a = if c != 0 {
        paint(f3, al)
    } else {
        f3
    };
    let dm = |x: int, y: int| dark_module_cell(n, x, y);
    assert(function_patterns(v, g) == paint(a, dm));
    lemma_paint_wf(g, |x: int, y: int| timing_cell(x, y));
    lemma_paint_wf(t, |x: int, y: int| finder_cell(0, 0, x, y));
    lemma_paint_wf(f1, |x: int, y: int| finder_cell(n - 7, 0, x, y));
    lemma_paint_wf(f2, |x: int, y: int| finder_cell(0, n - 7, x, y));
    lemma_paint_wf(f3, al);
    lemma_paint_wf(a, dm);
    lemma_paint_at(g, |x: int, y: int| timing_cell(x, y), x, y);
    lemma_paint_at(t, |x: int, y: int| finder_cell(0, 0, x, y), x, y);
    lemma_paint_at(f1, |x: int, y: int| finder_cell(n - 7, 0, x, y), x, y);
    lemma_paint_at(f2, |x: int, y: int| finder_cell(0, n - 7, x, y), x, y);
    lemma_paint_at(f3, al, x, y);
    lemma_paint_at(a, dm, x, y);
}

/// A module that the function patterns fix, and that neither the format
/// strips nor the dark module cover, keeps its colour to the end.
proof fn lemma_function_module_survives(v: nat, data: Seq<u8>, x: int, y: int)
    requires
        1 <= v <= 5,
        0 <= x < side_of(v),
        0 <= y < side_of(v),
        function_patterns(v, empty_grid(side_of(v))).func[y * side_of(v) + x],
        grid_wf(function_patterns(v, empty_grid(side_of(v)))),
        function_patterns(v, empty_grid(side_of(v))).n == side_of(v),
        reserve_cell(side_of(v) as int, x, y) is None,
        format_cell(side_of(v) as int, 0, x, y) is None,
        dark_module_cell(side_of(v) as int, x, y) is None,
    ensures
        at(encoded_grid(v, data), x, y) == at(function_patterns(v, empty_grid(side_of(v))), x, y),
{
    let fp = function_patterns(v, empty_grid(side_of(v)));
    let n = fp.n as int;
    let rc = |x: int, y: int| reserve_cell(fp.n as int, x, y);
    let r = paint(fp, rc);
    assert(reserved(fp) == r);
    lemma_paint_wf(fp, rc);
    lemma_paint_at(fp, rc, x, y);
    let cw = codewords_of(v, data);
    let g1 = with_codewords(r, cw);
    lemma_codewords_keep_function(r, cw, x, y);
    let m = best_mask(g1);
    let mk = masked(g1, m);
    lemma_mask_keeps_function(g1, m, x, y);
    let fc = |x: int, y: int| format_cell(n, format_bits(m), x, y);
    let fm = paint(mk, fc);
    let dm = |x: int, y: int| dark_module_cell(n, x, y);
    assert(with_format(mk, m) == paint(fm, dm));
    assert(encoded_grid(v, data) == paint(fm, dm));
    lemma_paint_wf(mk, fc);
    lemma_paint_at(mk, fc, x, y);
    lemma_paint_at(fm, dm, x, y);
}

/// Every encoded grid is a full `n` x `n` grid of the version's side, has its
/// three finder patterns intact (separators included), and has the dark
/// module beside the bottom-left finder set.
pub proof fn lemma_encoded_grid_landmarks(v: nat, data: Seq<u8>)
    requires
        1 <= v <= 5,
    ensures
        encoded_grid(v, data).n == side_of(v),
        grid_wf(encoded_grid(v, data)),
        at(encoded_grid(v, data), 8, side_of(v) - 8),
        finder_intact(encoded_grid(v, data), 0, 0),
        finder_intact(encoded_grid(v, data), side_of(v) - 7, 0),
        finder_intact(encoded_grid(v, data), 0, side_of(v) - 7),
{
    let n = side_of(v) as int;
    lemma_function_patterns_cell(v, 0, 0);
    let fp = function_patterns(v, empty_grid(side_of(v)));
    let rc = |x: int, y: int| reserve_cell(fp.n as int, x, y);
    let r = paint(fp, rc);
    assert(reserved(fp) == r);
    lemma_paint_wf(fp, rc);
    let cw = codewords_of(v, data);
    let g1 = with_codewords(r, cw);
    lemma_codewords_wf(r, cw);
    let m = best_mask(g1);
    let mk = masked(g1, m);
    assert(grid_wf(mk));
    let fc = |x: int, y: int| format_cell(n, format_bits(m), x, y);
    let fm = paint(mk, fc);
    let dm = |x: int, y: int| dark_module_cell(n, x, y);
    assert(with_format(mk, m) == paint(fm, dm));
    assert(encoded_grid(v, data) == paint(fm, dm));
    lemma_paint_wf(mk, fc);
    lemma_paint_wf(fm, dm);
    lemma_paint_at(fm, dm, 8, n - 8);
    let e = encoded_grid(v, data);
    assert forall|x: int, y: int|
        0 <= x < e.n && 0 <= y < e.n && #[trigger] finder_cell(0, 0, x, y) is Some implies at(e, x, y)
            == finder_cell(0, 0, x, y)->0 by {
        lemma_function_patterns_cell(v, x, y);
        lemma_function_module_survives(v, data, x, y);
    }
    assert forall|x: int, y: int|
        0 <= x < e.n && 0 <= y < e.n && #[trigger] finder_cell(n - 7, 0, x, y) is Some implies at(
            e,
            x,
            y,
        ) == finder_cell(n - 7, 0, x, y)->0 by {
        lemma_function_patterns_cell(v, x, y);
        lemma_function_module_survives(v, data, x, y);
    }
    assert forall|x: int, y: int|
        0 <= x < e.n && 0 <= y < e.n && #[trigger] finder_cell(0, n - 7, x, y) is Some implies at(
            e,
            x,
            y,
        ) == finder_cell(0, n - 7, x, y)->0 by {
        lemma_function_patterns_cell(v, x, y);
        lemma_function_module_survives(v, data, x, y);
    }
}

} // verus!
