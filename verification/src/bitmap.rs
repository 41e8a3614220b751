//! A variable-length bitmap.
//!
//! Logically a sequence of bits indexed from 0; physically a sequence of
//! bytes, least-significant bit first within each byte. Posting lists are
//! stored and combined in this representation, so the bitwise operations
//! carry exact contracts over the byte view.

use vstd::prelude::*;

verus! {

/// True when bit `k` (least-significant first) of the byte `b` is set.
pub open spec fn byte_bit(b: u8, k: int) -> bool {
    b & (1u8 << (k as u8)) != 0
}

/// True when bit `i` of the bitmap whose bytes are `bytes` is set:
/// bit `i % 8` of byte `i / 8`.
pub open spec fn bit_at(bytes: Seq<u8>, i: int) -> bool {
    byte_bit(bytes[i / 8], i % 8)
}

/// The byte at position `i`, with positions past the end reading as zero.
/// Bitwise operations treat a shorter operand as zero-extended this way.
pub open spec fn byte_ext(bytes: Seq<u8>, i: int) -> u8 {
    if 0 <= i < bytes.len() {
        bytes[i]
    } else {
        0
    }
}

/// The larger of the two byte lengths.
pub open spec fn ext_len(a: Seq<u8>, b: Seq<u8>) -> nat {
    if a.len() >= b.len() {
        a.len()
    } else {
        b.len()
    }
}

/// Bytewise AND of two bitmaps, the shorter zero-extended.
pub open spec fn and_bytes(a: Seq<u8>, b: Seq<u8>) -> Seq<u8> {
    Seq::new(ext_len(a, b), |i: int| byte_ext(a, i) & byte_ext(b, i))
}

/// Bytewise OR of two bitmaps, the shorter zero-extended.
pub open spec fn or_bytes(a: Seq<u8>, b: Seq<u8>) -> Seq<u8> {
    Seq::new(ext_len(a, b), |i: int| byte_ext(a, i) | byte_ext(b, i))
}

/// Bytewise XOR of two bitmaps, the shorter zero-extended.
pub open spec fn xor_bytes(a: Seq<u8>, b: Seq<u8>) -> Seq<u8> {
    Seq::new(ext_len(a, b), |i: int| byte_ext(a, i) ^ byte_ext(b, i))
}

/// The bytes of a bitmap after setting bit `i` to `v`: only the byte
/// `i / 8` changes, by a mask on bit `i % 8`.
pub open spec fn set_bit(bytes: Seq<u8>, i: int, v: bool) -> Seq<u8> {
    bytes.update(
        i / 8,
        if v {
            bytes[i / 8] | (1u8 << ((i % 8) as u8))
        } else {
            bytes[i / 8] & !(1u8 << ((i % 8) as u8))
        },
    )
}

/// Reading any bit after setting bit `i` to `v` gives `v` at `i` and the
/// old value everywhere else.
pub proof fn lemma_get_set(a: Seq<u8>, i: int, v: bool)
    requires
        0 <= i < a.len() * 8,
    ensures
        set_bit(a, i, v).len() == a.len(),
        bit_at(set_bit(a, i, v), i) == v,
        forall|j: int| 0 <= j < a.len() * 8 && j != i ==> bit_at(set_bit(a, i, v), j) == bit_at(a, j),
{
    let r = set_bit(a, i, v);
    let imu = (i % 8) as u8;
    let old_b = a[i / 8];
    assert forall|j: int| 0 <= j < a.len() * 8 implies (if j == i {
        bit_at(r, j) == v
    } else {
        bit_at(r, j) == bit_at(a, j)
    }) by {
        if j / 8 == i / 8 {
            let jmu = (j % 8) as u8;
            if v {
                assert((old_b | (1u8 << imu)) & (1u8 << imu) != 0) by (bit_vector)
                    requires
                        imu < 8,
                ;
                assert(jmu != imu ==> ((old_b | (1u8 << imu)) & (1u8 << jmu) != 0) == (old_b & (
                1u8 << jmu) != 0)) by (bit_vector);
            } else {
                assert((old_b & !(1u8 << imu)) & (1u8 << imu) == 0) by (bit_vector);
                assert(jmu != imu ==> ((old_b & !(1u8 << imu)) & (1u8 << jmu) != 0) == (old_b & (
                1u8 << jmu) != 0)) by (bit_vector);
            }
        }
    }
}

/// The binary rendering of a bitmap: each byte's 8 binary digits,
/// most-significant bit first within a byte.
pub open spec fn binary_of(bytes: Seq<u8>) -> Seq<char> {
    Seq::new(
        bytes.len() * 8,
        |i: int|
            if byte_bit(bytes[i / 8], 7 - (i % 8)) {
                '1'
            } else {
                '0'
            },
    )
}

/// A variable-length bitmap supporting bitwise AND, OR, XOR and
/// byte-length-preserving shifts.
#[derive(Debug)]
pub struct BitMap {
    bytes: Vec<u8>,
}

/// An iterator over the bits of a bitmap, yielding one boolean per bit in
/// order of increasing bit index.
#[derive(Debug)]
pub struct BitMapIterator {
    byte: usize,
    bit: u8,
    vec: Vec<u8>,
}

impl View for BitMap {
    type V = Seq<u8>;

    closed spec fn view(&self) -> Seq<u8> {
        self.bytes@
    }
}

impl Clone for BitMap {
    /// Cloning preserves the bytes.
    fn clone(&self) -> (r: Self)
        ensures
            r@ == self@,
    {
        let mut bytes: Vec<u8> = Vec::new();
        let mut k: usize = 0;
        while k < self.bytes.len()
            invariant
                0 <= k <= self.bytes@.len(),
                bytes@ == self.bytes@.subrange(0, k as int),
            decreases self.bytes@.len() - k,
        {
            bytes.push(self.bytes[k]);
            k = k + 1;
        }
        proof {
            assert(bytes@ =~= self.bytes@);
        }
        BitMap { bytes }
    }
}

impl BitMap {
    /// Create a new bitmap with the given length in bits. It occupies
    /// the least number of whole bytes that holds `len` bits, all zero.
    pub fn new(len: usize) -> (r: Self)
        ensures
            r@.len() == (len + 7) / 8,
            forall|i: int| 0 <= i < r@.len() ==> r@[i] == 0u8,
    {
        let n = len / 8 + if len % 8 != 0 {
            1
        } else {
            0
        };
        proof {
            assert(n == (len + 7) / 8);
        }
        let mut bytes: Vec<u8> = Vec::new();
        let mut k: usize = 0;
        while k < n
            invariant
                0 <= k <= n,
                bytes@.len() == k,
                forall|i: int| 0 <= i < k ==> bytes@[i] == 0u8,
            decreases n - k,
        {
            bytes.push(0);
            k = k + 1;
        }
        BitMap { bytes }
    }

    /// Wrap an existing byte vector as a bitmap.
    pub fn from_bytes(bytes: Vec<u8>) -> (r: Self)
        ensures
            r@ == bytes@,
    {
        BitMap { bytes }
    }

    /// Returns this bitmap as a byte slice.
    pub fn as_bytes(&self) -> (r: &[u8])
        ensures
            r@ == self@,
    {
        self.bytes.as_slice()
    }

    /// The number of bits the bitmap holds.
    pub fn bit_len(&self) -> (r: usize)
        requires
            self@.len() * 8 <= usize::MAX,
        ensures
            r == self@.len() * 8,
    {
        self.bytes.len() * 8
    }

    /// Gets the value of bit `i`.
    pub fn get(&self, i: usize) -> (r: bool)
        requires
            i < self@.len() * 8,
        ensures
            r == bit_at(self@, i as int),
    {
        let byte = i / 8;
        let bit = (i % 8) as u8;
        let mask = 1u8 << bit;
        self.bytes[byte] & mask != 0
    }

    /// Sets bit `i` to `v`, leaving every other bit unchanged.
    pub fn set(&mut self, i: usize, v: bool)
        requires
            i < old(self)@.len() * 8,
        ensures
            final(self)@ == set_bit(old(self)@, i as int, v),
            final(self)@.len() == old(self)@.len(),
            bit_at(final(self)@, i as int) == v,
            forall|j: int|
                0 <= j < old(self)@.len() * 8 && j != i ==> bit_at(final(self)@, j) == bit_at(
                    old(self)@,
                    j,
                ),
            forall|k: int|
                0 <= k < old(self)@.len() && k != i / 8 ==> final(self)@[k] == old(self)@[k],
    {
        let byte = i / 8;
        let bit = (i % 8) as u8;
        let mask = 1u8 << bit;
        let old_b = self.bytes[byte];
        let new_b = if v {
            old_b | mask
        } else {
            old_b & !mask
        };
        self.bytes.set(byte, new_b);
        proof {
            assert(self@ =~= set_bit(old(self)@, i as int, v));
            lemma_get_set(old(self)@, i as int, v);
        }
    }

    /// Bitwise AND. The shorter operand is treated as zero-extended; the
    /// result's length is the larger of the two.
    pub fn and(&self, rhs: &BitMap) -> (r: BitMap)
        ensures
            r@ == and_bytes(self@, rhs@),
    {
        let len = if self.bytes.len() >= rhs.bytes.len() {
            self.bytes.len()
        } else {
            rhs.bytes.len()
        };
        let mut bytes: Vec<u8> = Vec::new();
        let mut k: usize = 0;
        while k < len
            invariant
                0 <= k <= len,
                len == ext_len(self@, rhs@),
                bytes@.len() == k,
                forall|i: int| 0 <= i < k ==> bytes@[i] == byte_ext(self@, i) & byte_ext(rhs@, i),
            decreases len - k,
        {
            let a = if k < self.bytes.len() {
                self.bytes[k]
            } else {
                0
            };
            let b = if k < rhs.bytes.len() {
                rhs.bytes[k]
            } else {
                0
            };
            bytes.push(a & b);
            k = k + 1;
        }
        proof {
            assert(bytes@ =~= and_bytes(self@, rhs@));
        }
        BitMap { bytes }
    }

    /// Bitwise OR, the shorter operand zero-extended.
    pub fn or(&self, rhs: &BitMap) -> (r: BitMap)
        ensures
            r@ == or_bytes(self@, rhs@),
    {
        let len = if self.bytes.len() >= rhs.bytes.len() {
            self.bytes.len()
        } else {
            rhs.bytes.len()
        };
        let mut bytes: Vec<u8> = Vec::new();
        let mut k: usize = 0;
        while k < len
            invariant
                0 <= k <= len,
                len == ext_len(self@, rhs@),
                bytes@.len() == k,
                forall|i: int| 0 <= i < k ==> bytes@[i] == (byte_ext(self@, i) | byte_ext(rhs@, i)),
            decreases len - k,
        {
            let a = if k < self.bytes.len() {
                self.bytes[k]
            } else {
                0
            };
            let b = if k < rhs.bytes.len() {
                rhs.bytes[k]
            } else {
                0
            };
            bytes.push(a | b);
            k = k + 1;
        }
        proof {
            assert(bytes@ =~= or_bytes(self@, rhs@));
        }
        BitMap { bytes }
    }

    /// Bitwise XOR, the shorter operand zero-extended.
    pub fn xor(&self, rhs: &BitMap) -> (r: BitMap)
        ensures
            r@ == xor_bytes(self@, rhs@),
    {
        let len = if self.bytes.len() >= rhs.bytes.len() {
            self.bytes.len()
        } else {
            rhs.bytes.len()
        };
        let mut bytes: Vec<u8> = Vec::new();
        let mut k: usize = 0;
        while k < len
            invariant
                0 <= k <= len,
                len == ext_len(self@, rhs@),
                bytes@.len() == k,
                forall|i: int| 0 <= i < k ==> bytes@[i] == (byte_ext(self@, i) ^ byte_ext(rhs@, i)),
            decreases len - k,
        {
            let a = if k < self.bytes.len() {
                self.bytes[k]
            } else {
                0
            };
            let b = if k < rhs.bytes.len() {
                rhs.bytes[k]
            } else {
                0
            };
            bytes.push(a ^ b);
            k = k + 1;
        }
        proof {
            assert(bytes@ =~= xor_bytes(self@, rhs@));
        }
        BitMap { bytes }
    }

    /// In-place bitwise AND; grows the receiver to the larger length.
    pub fn and_assign(&mut self, rhs: &BitMap)
        ensures
            final(self)@ == and_bytes(old(self)@, rhs@),
    {
        let r = self.and(rhs);
        self.bytes = r.bytes;
    }

    /// In-place bitwise OR; grows the receiver to the larger length.
    pub fn or_assign(&mut self, rhs: &BitMap)
        ensures
            final(self)@ == or_bytes(old(self)@, rhs@),
    {
        let r = self.or(rhs);
        self.bytes = r.bytes;
    }

    /// In-place bitwise XOR; grows the receiver to the larger length.
    pub fn xor_assign(&mut self, rhs: &BitMap)
        ensures
            final(self)@ == xor_bytes(old(self)@, rhs@),
    {
        let r = self.xor(rhs);
        self.bytes = r.bytes;
    }

    /// Logical shift toward higher bit indices: bit `j` of the result is
    /// bit `j - n` of the input. The byte length is preserved; bits shifted
    /// past the end are discarded and vacated bits are zero.
    pub fn shl(&self, n: usize) -> (r: BitMap)
        requires
            self@.len() * 8 <= usize::MAX,
        ensures
            r@.len() == self@.len(),
            forall|j: int|
                0 <= j < self@.len() * 8 ==> bit_at(r@, j) == (j >= n && bit_at(
                    self@,
                    j - n,
                )),
    {
        let total = self.bytes.len() * 8;
        let mut res = Self::zero_bytes(self.bytes.len());
        let mut j: usize = 0;
        while j < total
            invariant
                0 <= j <= total,
                total == self@.len() * 8,
                res@.len() == self@.len(),
                forall|jj: int| 0 <= jj < j ==> bit_at(res@, jj) == (jj >= n && bit_at(self@, jj - n)),
                forall|jj: int| j <= jj < total ==> !bit_at(res@, jj),
            decreases total - j,
        {
            if j >= n {
                let v = self.get(j - n);
                res.set(j, v);
            }
            j = j + 1;
        }
        res
    }

    /// Logical shift toward lower bit indices: bit `j` of the result is
    /// bit `j + n` of the input. The byte length is preserved; bits shifted
    /// past bit 0 are discarded and vacated bits are zero.
    pub fn shr(&self, n: usize) -> (r: BitMap)
        requires
            self@.len() * 8 <= usize::MAX,
        ensures
            r@.len() == self@.len(),
            forall|j: int|
                0 <= j < self@.len() * 8 ==> bit_at(r@, j) == (j + n < self@.len() * 8
                    && bit_at(self@, j + n)),
    {
        let total = self.bytes.len() * 8;
        let mut res = Self::zero_bytes(self.bytes.len());
        let mut j: usize = 0;
        while j < total
            invariant
                0 <= j <= total,
                total == self@.len() * 8,
                res@.len() == self@.len(),
                forall|jj: int|
                    0 <= jj < j ==> bit_at(res@, jj) == (jj + n < total && bit_at(self@, jj + n)),
                forall|jj: int| j <= jj < total ==> !bit_at(res@, jj),
            decreases total - j,
        {
            if n < total && j < total - n {
                let v = self.get(j + n);
                res.set(j, v);
            }
            j = j + 1;
        }
        res
    }

    /// In-place shift toward higher bit indices.
    pub fn shl_assign(&mut self, n: usize)
        requires
            old(self)@.len() * 8 <= usize::MAX,
        ensures
            final(self)@.len() == old(self)@.len(),
            forall|j: int|
                0 <= j < old(self)@.len() * 8 ==> bit_at(final(self)@, j) == (j >= n && bit_at(
                    old(self)@,
                    j - n,
                )),
    {
        let r = self.shl(n);
        self.bytes = r.bytes;
    }

    /// In-place shift toward lower bit indices.
    pub fn shr_assign(&mut self, n: usize)
        requires
            old(self)@.len() * 8 <= usize::MAX,
        ensures
            final(self)@.len() == old(self)@.len(),
            forall|j: int|
                0 <= j < old(self)@.len() * 8 ==> bit_at(final(self)@, j) == (j + n < old(
                    self,
                )@.len() * 8 && bit_at(old(self)@, j + n)),
    {
        let r = self.shr(n);
        self.bytes = r.bytes;
    }

    /// The debugging form: each byte as its 8-character binary
    /// expansion, most-significant bit first within a byte.
    pub fn binary_string(&self) -> (r: String)
        ensures
            r@ == binary_of(self@),
    {
        let ghost target = binary_of(self@);
        let mut buf = String::new();
        proof {
            reveal_strlit("0");
            reveal_strlit("1");
            assert(buf@ =~= target.take(0));
        }
        let mut k: usize = 0;
        while k < self.bytes.len()
            invariant
                0 <= k <= self.bytes@.len(),
                target == binary_of(self@),
                target.len() == self.bytes@.len() * 8,
                buf@ == target.take(8 * k),
            decreases self.bytes@.len() - k,
        {
            let b = self.bytes[k];
            let mut j: usize = 0;
            while j < 8
                invariant
                    0 <= j <= 8,
                    0 <= k < self.bytes@.len(),
                    b == self.bytes@[k as int],
                    target == binary_of(self@),
                    target.len() == self.bytes@.len() * 8,
                    buf@ == target.take(8 * k + j),
                decreases 8 - j,
            {
                let bit = (7 - j) as u8;
                let mask = 1u8 << bit;
                let c = if b & mask != 0 {
                    "1"
                } else {
                    "0"
                };
                proof {
                    reveal_strlit("0");
                    reveal_strlit("1");
                    let i = 8 * k + j;
                    assert(target[i as int] == (if byte_bit(self@[i as int / 8], 7 - (i as int % 8)) {
                        '1'
                    } else {
                        '0'
                    }));
                    assert(i as int / 8 == k as int && i as int % 8 == j as int);
                    assert(c@ =~= seq![target[i as int]]);
                }
                buf.append(c);
                proof {
                    assert(buf@ =~= target.take(8 * k + j + 1));
                }
                j = j + 1;
            }
            k = k + 1;
        }
        proof {
            assert(buf@ =~= target);
        }
        buf
    }

    /// Turn this bitmap into an iterator over its bits.
    pub fn into_iter(self) -> (r: BitMapIterator)
        ensures
            r@ == (0int, self@),
    {
        BitMapIterator { byte: 0, bit: 0, vec: self.bytes }
    }

    /// A zero bitmap of exactly `n` bytes.
    fn zero_bytes(n: usize) -> (r: BitMap)
        ensures
            r@.len() == n,
            forall|j: int| 0 <= j < n * 8 ==> !bit_at(r@, j),
    {
        let mut bytes: Vec<u8> = Vec::new();
        let mut k: usize = 0;
        while k < n
            invariant
                0 <= k <= n,
                bytes@.len() == k,
                forall|i: int| 0 <= i < k ==> bytes@[i] == 0u8,
            decreases n - k,
        {
            bytes.push(0);
            k = k + 1;
        }
        proof {
            assert forall|j: int| 0 <= j < n * 8 implies !bit_at(bytes@, j) by {
                let jmu = (j % 8) as u8;
                assert(0u8 & (1u8 << jmu) == 0) by (bit_vector);
            }
        }
        BitMap { bytes }
    }
}

impl View for BitMapIterator {
    type V = (int, Seq<u8>);

    closed spec fn view(&self) -> (int, Seq<u8>) {
        (self.byte * 8 + self.bit, self.vec@)
    }
}

impl BitMapIterator {
    #[verifier::type_invariant]
    spec fn wf(self) -> bool {
        self.bit < 8
    }

    /// Yields the next bit, one boolean per bit in order of increasing
    /// index, and `None` once every bit of every byte has been yielded.
    pub fn next(&mut self) -> (r: Option<bool>)
        ensures
            final(self)@.1 == old(self)@.1,
            old(self)@.0 / 8 >= old(self)@.1.len() ==> r is None && final(self)@.0 == old(
                self,
            )@.0,
            old(self)@.0 / 8 < old(self)@.1.len() ==> r == Some(
                bit_at(old(self)@.1, old(self)@.0),
            ) && final(self)@.0 == old(self)@.0 + 1,
    {
        proof {
            use_type_invariant(&*self);
        }
        if self.byte >= self.vec.len() {
            return None;
        }
        let b = self.vec[self.byte];
        let mask = 1u8 << self.bit;
        let r = b & mask != 0;
        proof {
            let p = old(self)@.0;
            assert(p / 8 == self.byte as int && p % 8 == self.bit as int);
        }
        if self.bit == 7 {
            self.bit = 0;
            self.byte = self.byte + 1;
        } else {
            self.bit = self.bit + 1;
        }
        Some(r)
    }
}

/// A bitmap of zero bytes has no bit set.
pub proof fn lemma_zero_bytes_no_bits(bytes: Seq<u8>)
    requires
        forall|i: int| 0 <= i < bytes.len() ==> bytes[i] == 0u8,
    ensures
        forall|j: int| 0 <= j < bytes.len() * 8 ==> !bit_at(bytes, j),
{
    assert forall|j: int| 0 <= j < bytes.len() * 8 implies !bit_at(bytes, j) by {
        let jmu = (j % 8) as u8;
        assert(0u8 & (1u8 << jmu) == 0) by (bit_vector);
    }
}

/// ANDing a bitmap with itself gives the bitmap back.
pub proof fn lemma_and_idempotent(a: Seq<u8>)
    ensures
        and_bytes(a, a) == a,
{
    assert forall|i: int| 0 <= i < a.len() implies and_bytes(a, a)[i] == a[i] by {
        let x = a[i];
        assert(x & x == x) by (bit_vector);
    }
    assert(and_bytes(a, a) =~= a);
}

/// ORing a bitmap with itself gives the bitmap back.
pub proof fn lemma_or_idempotent(a: Seq<u8>)
    ensures
        or_bytes(a, a) == a,
{
    assert forall|i: int| 0 <= i < a.len() implies or_bytes(a, a)[i] == a[i] by {
        let x = a[i];
        assert((x | x) == x) by (bit_vector);
    }
    assert(or_bytes(a, a) =~= a);
}

/// XORing a bitmap with itself gives the all-zero bitmap of the same length.
pub proof fn lemma_xor_self_zero(a: Seq<u8>)
    ensures
        xor_bytes(a, a) == Seq::new(a.len(), |i: int| 0u8),
{
    assert forall|i: int| 0 <= i < a.len() implies xor_bytes(a, a)[i] == 0u8 by {
        let x = a[i];
        assert(x ^ x == 0) by (bit_vector);
    }
    assert(xor_bytes(a, a) =~= Seq::new(a.len(), |i: int| 0u8));
}

/// Bitwise AND is commutative.
pub proof fn lemma_and_commutative(a: Seq<u8>, b: Seq<u8>)
    ensures
        and_bytes(a, b) == and_bytes(b, a),
{
    assert forall|i: int| 0 <= i < ext_len(a, b) implies and_bytes(a, b)[i] == and_bytes(b, a)[i] by {
        let x = byte_ext(a, i);
        let y = byte_ext(b, i);
        assert(x & y == y & x) by (bit_vector);
    }
    assert(and_bytes(a, b) =~= and_bytes(b, a));
}

/// Bitwise OR is commutative.
pub proof fn lemma_or_commutative(a: Seq<u8>, b: Seq<u8>)
    ensures
        or_bytes(a, b) == or_bytes(b, a),
{
    assert forall|i: int| 0 <= i < ext_len(a, b) implies or_bytes(a, b)[i] == or_bytes(b, a)[i] by {
        let x = byte_ext(a, i);
        let y = byte_ext(b, i);
        assert((x | y) == (y | x)) by (bit_vector);
    }
    assert(or_bytes(a, b) =~= or_bytes(b, a));
}

/// Bitwise XOR is commutative.
pub proof fn lemma_xor_commutative(a: Seq<u8>, b: Seq<u8>)
    ensures
        xor_bytes(a, b) == xor_bytes(b, a),
{
    assert forall|i: int| 0 <= i < ext_len(a, b) implies xor_bytes(a, b)[i] == xor_bytes(b, a)[i] by {
        let x = byte_ext(a, i);
        let y = byte_ext(b, i);
        assert(x ^ y == y ^ x) by (bit_vector);
    }
    assert(xor_bytes(a, b) =~= xor_bytes(b, a));
}

/// Shift round-trip on aligned bit positions: when bit `i` is set in `a`
/// and `i + n` is still within the bitmap, bit `i + n` is set in the
/// result of shifting `a` up by `n`; the vacated low bits are zero.
/// `r` stands for that result, as `shl` describes it.
pub proof fn lemma_shl_aligned_round_trip(a: Seq<u8>, r: Seq<u8>, i: int, n: int)
    requires
        r.len() == a.len(),
        forall|j: int| 0 <= j < a.len() * 8 ==> bit_at(r, j) == (j >= n && bit_at(a, j - n)),
        0 <= n,
        0 <= i,
        bit_at(a, i),
        i + n < a.len() * 8,
    ensures
        bit_at(r, i + n),
        forall|j: int| 0 <= j < n && j < a.len() * 8 ==> !bit_at(r, j),
{
}

} // verus!
