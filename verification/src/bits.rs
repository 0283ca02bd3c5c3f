//! The bit buffer: an ordered, appendable sequence of single bits, packed
//! most-significant bit first.

use bitvec::order::Msb0;
use bitvec::vec::BitVec;
use vstd::arithmetic::power2::{
    lemma2_to64, lemma_pow2_strictly_increases, lemma_pow2_unfold, pow2,
};
use vstd::prelude::*;

verus! {

/// An owned, growable sequence of bits, kept in a `bitvec` vector whose
/// storage is read from the most significant bit of each byte down.
#[verifier::external_body]
#[derive(Debug)]
pub struct BitBuffer {
    bits: BitVec<Msb0, u8>,
}

/// The bits that a buffer holds, first bit first.
pub uninterp spec fn bits_of(buf: BitBuffer) -> Seq<bool>;

impl View for BitBuffer {
    type V = Seq<bool>;

    open spec fn view(&self) -> Seq<bool> {
        bits_of(*self)
    }
}

/// The largest number of bits that one buffer can hold.
pub open spec fn max_bits() -> nat {
    (usize::MAX / 8) as nat
}

/// Bit `k` of `value`, counted from the least significant bit.
pub open spec fn bit_at(value: nat, k: nat) -> bool {
    (value / pow2(k)) % 2 == 1
}

/// The low `width` bits of `value`, most significant first.
pub open spec fn value_bits(value: nat, width: nat) -> Seq<bool> {
    Seq::new(width, |i: int| bit_at(value, (width - 1 - i) as nat))
}

/// The number that a run of bits spells, most significant bit first.
pub open spec fn bits_value(bits: Seq<bool>) -> nat
    decreases bits.len(),
{
    if bits.len() == 0 {
        0
    } else {
        2 * bits_value(bits.drop_last()) + if bits.last() {
            1nat
        } else {
            0nat
        }
    }
}

/// How many codewords `n` bits fill, a last partial one included.
pub open spec fn codeword_count(n: nat) -> nat {
    (n + 7) / 8
}

/// The bits of codeword `j`: eight of them, or what is left at the end.
pub open spec fn codeword_group(bits: Seq<bool>, j: int) -> Seq<bool> {
    bits.subrange(8 * j, if 8 * j + 8 <= bits.len() {
        8 * j + 8
    } else {
        bits.len() as int
    })
}

/// The codewords that a bit sequence groups into. Each takes eight bits; a
/// last group of fewer bits is read as the low bits of its codeword.
pub open spec fn codewords_of(bits: Seq<bool>) -> Seq<u8> {
    Seq::new(codeword_count(bits.len()), |j: int| bits_value(codeword_group(bits, j)) as u8)
}

/// The bits of a codeword sequence, eight for each, most significant first.
pub open spec fn codeword_bits(codewords: Seq<u8>) -> Seq<bool> {
    Seq::new(8 * codewords.len(), |i: int| bit_at(codewords[i / 8] as nat, (7 - i % 8) as nat))
}

/// `BitVec::new`: a buffer that holds no bit.
#[verifier::external_body]
fn buffer_new() -> (buf: BitBuffer)
    ensures
        bits_of(buf) == Seq::<bool>::empty(),
{
    BitBuffer { bits: BitVec::new() }
}

/// `BitSlice::len`: the number of bits held.
#[verifier::external_body]
fn buffer_len(buf: &BitBuffer) -> (n: usize)
    ensures
        n == bits_of(*buf).len(),
{
    buf.bits.len()
}

/// `BitSlice::get` with a position: the bit there, or nothing past the end.
#[verifier::external_body]
fn buffer_get(buf: &BitBuffer, index: usize) -> (bit: Option<bool>)
    ensures
        bit == if index < bits_of(*buf).len() {
            Some(bits_of(*buf)[index as int])
        } else {
            None
        },
{
    buf.bits.get(index).copied()
}

/// `BitVec::push`: one more bit at the end. The vector refuses to grow past
/// its length limit, so the buffer must be below it.
#[verifier::external_body]
fn buffer_push(buf: &mut BitBuffer, bit: bool)
    requires
        bits_of(*old(buf)).len() < max_bits(),
    ensures
        bits_of(*final(buf)) == bits_of(*old(buf)).push(bit),
{
    buf.bits.push(bit)
}

/// `BitVec::resize`: cut down to `new_len` bits, or filled up to it with
/// copies of `bit`.
#[verifier::external_body]
fn buffer_resize(buf: &mut BitBuffer, new_len: usize, bit: bool)
    requires
        new_len <= max_bits(),
    ensures
        bits_of(*final(buf)) == if new_len <= bits_of(*old(buf)).len() {
            bits_of(*old(buf)).take(new_len as int)
        } else {
            bits_of(*old(buf)) + Seq::new(
                (new_len - bits_of(*old(buf)).len()) as nat,
                |i: int| bit,
            )
        },
{
    buf.bits.resize(new_len, bit)
}

/// `BitVec::extend_from_slice`: the bits of `other`, in order, after those
/// already held.
#[verifier::external_body]
fn buffer_extend(buf: &mut BitBuffer, other: &BitBuffer)
    requires
        bits_of(*old(buf)).len() + bits_of(*other).len() <= max_bits(),
    ensures
        bits_of(*final(buf)) == bits_of(*old(buf)) + bits_of(*other),
{
    buf.bits.extend_from_slice(&other.bits)
}

/// A run of `k` bits spells a number below `2^k`.
pub proof fn lemma_bits_value_bound(bits: Seq<bool>)
    ensures
        bits_value(bits) < pow2(bits.len()),
    decreases bits.len(),
{
    if bits.len() == 0 {
        lemma2_to64();
    } else {
        lemma_bits_value_bound(bits.drop_last());
        lemma_pow2_unfold(bits.len());
    }
}

/// Shifting right and masking reads the same bit as dividing by a power of two.
proof fn lemma_shift_reads_bit(value: u64, k: u64)
    requires
        k < 64,
    ensures
        ((value >> k) & 1 == 1) == bit_at(value as nat, k as nat),
{
    vstd::bits::lemma_u64_shr_is_div(value, k);
    let shifted = value >> k;
    assert(shifted & 1 == shifted % 2) by (bit_vector);
}

/// A 64-bit value has no bit set at position 64 or above.
proof fn lemma_high_bit_clear(value: u64, k: nat)
    requires
        k >= 64,
    ensures
        !bit_at(value as nat, k),
{
    lemma2_to64();
    if k > 64 {
        lemma_pow2_strictly_increases(64, k);
    }
    vstd::arithmetic::div_mod::lemma_basic_div(value as int, pow2(k) as int);
}

impl BitBuffer {
    /// The largest number of bits that a buffer can hold.
    pub fn max_len() -> (n: usize)
        ensures
            n == max_bits(),
    {
        usize::MAX / 8
    }

    /// A buffer that holds no bit.
    pub fn new() -> (buf: Self)
        ensures
            buf@ == Seq::<bool>::empty(),
    {
        buffer_new()
    }

    /// The exact number of bits held.
    pub fn len(&self) -> (n: usize)
        ensures
            n == self@.len(),
    {
        buffer_len(self)
    }

    /// The bit at `index`, or `None` past the end.
    pub fn get(&self, index: usize) -> (bit: Option<bool>)
        ensures
            bit == if index < self@.len() {
                Some(self@[index as int])
            } else {
                None
            },
    {
        buffer_get(self, index)
    }

    /// The bits as a vector of booleans, first bit first.
    pub fn to_vec(&self) -> (bits: Vec<bool>)
        ensures
            bits@ == self@,
    {
        let n = buffer_len(self);
        let mut bits: Vec<bool> = Vec::new();
        let mut i: usize = 0;
        while i < n
            invariant
                i <= n,
                n == self@.len(),
                bits@ == self@.take(i as int),
            decreases n - i,
        {
            match buffer_get(self, i) {
                Some(bit) => bits.push(bit),
                None => {},
            }
            i += 1;
        }
        bits
    }

    /// Appends the low `width` bits of `value`, most significant bit first.
    /// Bits of `value` above `width` are not written; positions above the
    /// 64th are written as zero.
    pub fn append_value(&mut self, value: u64, width: usize)
        requires
            old(self)@.len() + width <= max_bits(),
        ensures
            final(self)@ == old(self)@ + value_bits(value as nat, width as nat),
    {
        let mut i: usize = 0;
        while i < width
            invariant
                i <= width,
                old(self)@.len() + width <= max_bits(),
                self@ == old(self)@ + value_bits(value as nat, width as nat).take(i as int),
            decreases width - i,
        {
            let k: usize = width - 1 - i;
            let bit = if k < 64 {
                proof {
                    lemma_shift_reads_bit(value, k as u64);
                }
                (value >> (k as u64)) & 1 == 1
            } else {
                proof {
                    lemma_high_bit_clear(value, k as nat);
                }
                false
            };
            buffer_push(self, bit);
            i += 1;
        }
    }

    /// Appends the given bits, in order.
    pub fn append_bits(&mut self, bits: &[bool])
        requires
            old(self)@.len() + bits@.len() <= max_bits(),
        ensures
            final(self)@ == old(self)@ + bits@,
    {
        let mut i: usize = 0;
        while i < bits.len()
            invariant
                i <= bits@.len(),
                old(self)@.len() + bits@.len() <= max_bits(),
                self@ == old(self)@ + bits@.take(i as int),
            decreases bits@.len() - i,
        {
            buffer_push(self, bits[i]);
            i += 1;
        }
        proof {
            assert(bits@.take(i as int) =~= bits@);
        }
    }

    /// Appends the bits of `other`, in order.
    pub fn append_buffer(&mut self, other: &BitBuffer)
        requires
            old(self)@.len() + other@.len() <= max_bits(),
        ensures
            final(self)@ == old(self)@ + other@,
    {
        buffer_extend(self, other)
    }

    /// Extends the buffer with zero bits up to `new_len` bits.
    pub fn zero_fill(&mut self, new_len: usize)
        requires
            old(self)@.len() <= new_len <= max_bits(),
        ensures
            final(self)@ == old(self)@ + Seq::new(
                (new_len - old(self)@.len()) as nat,
                |i: int| false,
            ),
    {
        let ghost before = self@;
        buffer_resize(self, new_len, false);
        proof {
            if new_len == before.len() {
                assert(self@ =~= before + Seq::new(0, |i: int| false));
            }
        }
    }

    /// Appends each codeword as eight bits, most significant bit first.
    pub fn append_codewords(&mut self, codewords: &[u8])
        requires
            old(self)@.len() + 8 * codewords@.len() <= max_bits(),
        ensures
            final(self)@ == old(self)@ + codeword_bits(codewords@),
    {
        let mut i: usize = 0;
        while i < codewords.len()
            invariant
                i <= codewords@.len(),
                old(self)@.len() + 8 * codewords@.len() <= max_bits(),
                self@ == old(self)@ + codeword_bits(codewords@.take(i as int)),
            decreases codewords@.len() - i,
        {
            let ghost before = self@;
            self.append_value(codewords[i] as u64, 8);
            proof {
                let done = codewords@.take(i as int);
                let next = codewords@.take(i + 1);
                assert(codeword_bits(next) =~= codeword_bits(done) + value_bits(
                    codewords@[i as int] as nat,
                    8,
                ));
            }
            i += 1;
        }
        proof {
            assert(codewords@.take(i as int) =~= codewords@);
        }
    }

    /// Groups the bits into 8-bit codewords. Where the length is no multiple
    /// of 8, the last group is padded with zero bits on the left.
    pub fn to_codewords(&self) -> (codewords: Vec<u8>)
        ensures
            codewords@ == codewords_of(self@),
    {
        let n = buffer_len(self);
        let mut codewords: Vec<u8> = Vec::new();
        let mut start: usize = 0;
        while start < n
            invariant
                n == self@.len(),
                start <= n,
                start < n ==> start == 8 * codewords@.len(),
                start == n ==> codewords@.len() == codeword_count(n as nat),
                codewords@ == codewords_of(self@).take(codewords@.len() as int),
            decreases n - start,
        {
            let end: usize = if n - start >= 8 {
                start + 8
            } else {
                n
            };
            let mut acc: u8 = 0;
            let mut pos: usize = start;
            while pos < end
                invariant
                    n == self@.len(),
                    start <= pos <= end <= n,
                    end - start <= 8,
                    acc == bits_value(self@.subrange(start as int, pos as int)),
                decreases end - pos,
            {
                let ghost run = self@.subrange(start as int, pos as int);
                let ghost longer = self@.subrange(start as int, pos + 1);
                proof {
                    lemma_bits_value_bound(run);
                    lemma_bits_value_bound(longer);
                    lemma2_to64();
                    assert(longer.drop_last() =~= run);
                    lemma_pow2_strictly_increases(
                        run.len(),
                        longer.len(),
                    );
                    if longer.len() < 8 {
                        lemma_pow2_strictly_increases(longer.len(), 8);
                    }
                }
                let bit = match buffer_get(self, pos) {
                    Some(bit) => bit,
                    None => false,
                };
                acc = acc * 2 + if bit {
                    1
                } else {
                    0
                };
                pos += 1;
            }
            proof {
                let j = codewords@.len() as int;
                assert(codeword_group(self@, j) =~= self@.subrange(start as int, end as int));
            }
            codewords.push(acc);
            start = end;
        }
        codewords
    }
}

} // verus!
