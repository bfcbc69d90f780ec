//! The packing half of the bit register: fields are appended to a 64-bit
//! accumulator, earliest field most significant, and the result is cut into
//! at most eight bytes.
use crate::bits::{
    bits_of, lemma_append, lemma_bits_concat, lemma_bits_of_len, lemma_bits_value, lemma_value_bound,
    lemma_value_concat, lemma_window_shift, lemma_window_top, lemma_zeros_value, value_of, zeros,
};
use crate::error::Error;
use vstd::arithmetic::power2::{lemma2_to64, lemma2_to64_rest, lemma_pow2_adds, pow2};
use vstd::bits::lemma_u64_shl_is_mul;
use vstd::prelude::*;

verus! {

#[verifier::external_type_specification]
#[verifier::external_body]
#[verifier::reject_recursive_types(T)]
pub struct ExHeaplessVec<T, const N: usize>(heapless::Vec<T, N>);

/// The bytes that a bounded vector of capacity 8 holds, in order.
pub uninterp spec fn frame_bytes(v: heapless::Vec<u8, 8>) -> Seq<u8>;

/// Relies on heapless::Vec::new: the new vector holds nothing.
#[verifier::external_body]
fn frame_bytes_new() -> (r: heapless::Vec<u8, 8>)
    ensures
        frame_bytes(r) == Seq::<u8>::empty(),
{
    heapless::Vec::new()
}

/// Relies on heapless::Vec::push: below capacity the byte is appended and
/// `Ok` returned; at capacity the vector is left as it was and `Err` returned.
#[verifier::external_body]
fn frame_bytes_push(v: &mut heapless::Vec<u8, 8>, b: u8) -> (r: bool)
    ensures
        frame_bytes(*old(v)).len() < 8 ==> r && frame_bytes(*final(v)) == frame_bytes(*old(v)).push(b),
        frame_bytes(*old(v)).len() >= 8 ==> !r && frame_bytes(*final(v)) == frame_bytes(*old(v)),
{
    v.push(b).is_ok()
}

/// Each byte as eight bits, most significant first, one after the other.
pub open spec fn bytes_bits(s: Seq<u8>) -> Seq<bool>
    decreases s.len(),
{
    if s.len() == 0 {
        Seq::empty()
    } else {
        bytes_bits(s.drop_last()) + bits_of(s.last() as nat, 8)
    }
}

/// The bytes sent for a bit sequence of at most 64 bits: the bits, padded
/// with zeros on the right to a whole number of bytes, eight to a byte.
pub open spec fn pack(s: Seq<bool>) -> Seq<u8> {
    let w = s + zeros((64 - s.len()) as nat);
    Seq::new(((s.len() + 7) / 8) as nat, |i: int| value_of(w.subrange(8 * i, 8 * i + 8)) as u8)
}

pub broadcast proof fn lemma_bytes_bits_len(s: Seq<u8>)
    ensures
        #[trigger] bytes_bits(s).len() == 8 * s.len(),
    decreases s.len(),
{
    if s.len() > 0 {
        lemma_bytes_bits_len(s.drop_last());
        lemma_bits_of_len(s.last() as nat, 8);
    }
}

/// Packing state: the bits appended so far, at most 64.
pub struct Serializer {
    output: u64,
    len: usize,
}

impl View for Serializer {
    type V = Seq<bool>;

    closed spec fn view(&self) -> Seq<bool> {
        bits_of(self.output as nat, self.len as nat)
    }
}

impl Serializer {
    pub closed spec fn wf(&self) -> bool {
        self.len <= 64 && self.output < pow2(self.len as nat)
    }

    pub proof fn lemma_wf_len(&self)
        requires
            self.wf(),
        ensures
            self@.len() <= 64,
    {
        lemma_bits_of_len(self.output as nat, self.len as nat);
    }

    /// An empty register.
    pub fn new() -> (r: Self)
        ensures
            r.wf(),
            r@ == Seq::<bool>::empty(),
    {
        proof {
            lemma2_to64();
        }
        Serializer { output: 0, len: 0 }
    }

    /// The number of bits appended so far.
    pub fn bit_len(&self) -> (r: usize)
        requires
            self.wf(),
        ensures
            r == self@.len(),
    {
        proof {
            lemma_bits_of_len(self.output as nat, self.len as nat);
        }
        self.len
    }

    /// Appends the low `n` bits of `v`, or fails when they would not fit.
    fn push_bits(&mut self, v: u64, n: u64) -> (r: Result<(), Error>)
        requires
            old(self).wf(),
            1 <= n <= 64,
            v < pow2(n as nat),
        ensures
            final(self).wf(),
            old(self)@.len() + n <= 64 ==> r is Ok && final(self)@ == old(self)@ + bits_of(
                v as nat,
                n as nat,
            ),
            old(self)@.len() + n > 64 ==> r == Err::<(), Error>(Error::SerMsgTooLong) && final(self)@ == old(self)@,
    {
        proof {
            lemma_bits_of_len(self.output as nat, self.len as nat);
        }
        if self.len as u64 + n > 64 {
            return Err(Error::SerMsgTooLong);
        }
        proof {
            lemma_bits_concat(self.output as nat, self.len as nat, v as nat, n as nat);
        }
        if n == 64 {
            proof {
                lemma2_to64();
                assert(self.output == 0);
                assert(self.output as nat * pow2(64) + v as nat == v as nat);
            }
            self.output = v;
        } else {
            proof {
                lemma_append(self.output, self.len as nat, v, n);
            }
            self.output = (self.output << n) | v;
        }
        self.len = self.len + n as usize;
        Ok(())
    }

    /// Appends one bit: 1 for `true`.
    pub fn enc_bool(&mut self, v: bool) -> (r: Result<(), Error>)
        requires
            old(self).wf(),
        ensures
            final(self).wf(),
            old(self)@.len() + 1 <= 64 ==> r is Ok && final(self)@ == old(self)@.push(v),
            old(self)@.len() + 1 > 64 ==> r == Err::<(), Error>(Error::SerMsgTooLong) && final(self)@ == old(self)@,
    {
        proof {
            lemma2_to64();
        }
        let r = self.push_bits(if v { 1 } else { 0 }, 1);
        proof {
            reveal_with_fuel(bits_of, 2);
            let b = bits_of((if v { 1nat } else { 0nat }), 1);
            assert(b =~= seq![v]);
            assert(old(self)@ + seq![v] =~= old(self)@.push(v));
        }
        r
    }

    /// Appends a 4-bit length or tag; `err` when `n` does not fit in 4 bits.
    pub fn enc_4bit(&mut self, n: usize, err: Error) -> (r: Result<(), Error>)
        requires
            old(self).wf(),
        ensures
            final(self).wf(),
            n >= 16 ==> r == Err::<(), Error>(err) && final(self)@ == old(self)@,
            n < 16 && old(self)@.len() + 4 <= 64 ==> r is Ok && final(self)@ == old(self)@
                + bits_of(n as nat, 4),
            n < 16 && old(self)@.len() + 4 > 64 ==> r == Err::<(), Error>(Error::SerMsgTooLong)
                && final(self)@ == old(self)@,
    {
        if n >= 16 {
            return Err(err);
        }
        proof {
            lemma2_to64();
        }
        self.push_bits(n as u64, 4)
    }

    /// Appends 8 bits.
    pub fn enc_u8(&mut self, v: u8) -> (r: Result<(), Error>)
        requires
            old(self).wf(),
        ensures
            final(self).wf(),
            old(self)@.len() + 8 <= 64 ==> r is Ok && final(self)@ == old(self)@ + bits_of(
                v as nat,
                8,
            ),
            old(self)@.len() + 8 > 64 ==> r == Err::<(), Error>(Error::SerMsgTooLong) && final(self)@ == old(self)@,
    {
        proof {
            lemma2_to64();
        }
        self.push_bits(v as u64, 8)
    }

    /// Appends 16 bits, most significant first.
    pub fn enc_u16(&mut self, v: u16) -> (r: Result<(), Error>)
        requires
            old(self).wf(),
        ensures
            final(self).wf(),
            old(self)@.len() + 16 <= 64 ==> r is Ok && final(self)@ == old(self)@ + bits_of(
                v as nat,
                16,
            ),
            old(self)@.len() + 16 > 64 ==> r == Err::<(), Error>(Error::SerMsgTooLong) && final(self)@ == old(self)@,
    {
        proof {
            lemma2_to64();
        }
        self.push_bits(v as u64, 16)
    }

    /// Appends 32 bits, most significant first.
    pub fn enc_u32(&mut self, v: u32) -> (r: Result<(), Error>)
        requires
            old(self).wf(),
        ensures
            final(self).wf(),
            old(self)@.len() + 32 <= 64 ==> r is Ok && final(self)@ == old(self)@ + bits_of(
                v as nat,
                32,
            ),
            old(self)@.len() + 32 > 64 ==> r == Err::<(), Error>(Error::SerMsgTooLong) && final(self)@ == old(self)@,
    {
        proof {
            lemma2_to64();
        }
        self.push_bits(v as u64, 32)
    }

    /// Appends 64 bits, most significant first; only an empty register has room.
    pub fn enc_u64(&mut self, v: u64) -> (r: Result<(), Error>)
        requires
            old(self).wf(),
        ensures
            final(self).wf(),
            old(self)@.len() == 0 ==> r is Ok && final(self)@ == old(self)@ + bits_of(
                v as nat,
                64,
            ),
            old(self)@.len() > 0 ==> r == Err::<(), Error>(Error::SerMsgTooLong) && final(self)@ == old(self)@,
    {
        proof {
            lemma2_to64();
            lemma2_to64_rest();
        }
        self.push_bits(v, 64)
    }

    /// Appends a 4-bit length, then each byte; `err` when there are 16 or more.
    pub fn enc_bytes(&mut self, v: &[u8], err: Error) -> (r: Result<(), Error>)
        requires
            old(self).wf(),
        ensures
            final(self).wf(),
            v@.len() >= 16 ==> r == Err::<(), Error>(err) && final(self)@ == old(self)@,
            v@.len() < 16 && old(self)@.len() + 4 + 8 * v@.len() <= 64 ==> r is Ok && final(self)@ == old(self)@ + bits_of(v@.len() as nat, 4) + bytes_bits(v@),
            v@.len() < 16 && old(self)@.len() + 4 + 8 * v@.len() > 64 ==> r == Err::<(), Error>(
                Error::SerMsgTooLong,
            ),
    {
        let n = v.len();
        let r = self.enc_4bit(n, err);
        if r.is_err() {
            return r;
        }
        let ghost start = self@;
        let mut i: usize = 0;
        proof {
            self.lemma_wf_len();
            assert(v@.take(0) =~= Seq::<u8>::empty());
            assert(start + bytes_bits(v@.take(0)) =~= start);
        }
        while i < n
            invariant
                self.wf(),
                n == v@.len(),
                n < 16,
                i <= n,
                start == old(self)@ + bits_of(n as nat, 4),
                self@ == start + bytes_bits(v@.take(i as int)),
                start.len() + 8 * i <= 64,
            decreases n - i,
        {
            proof {
                lemma_bytes_bits_len(v@.take(i as int));
                lemma_bits_of_len(n as nat, 4);
            }
            let b = v[i];
            let r = self.enc_u8(b);
            if r.is_err() {
                return r;
            }
            proof {
                assert(v@.take(i + 1).drop_last() =~= v@.take(i as int));
                assert(start + bytes_bits(v@.take(i + 1)) =~= start + bytes_bits(v@.take(i as int))
                    + bits_of(b as nat, 8));
            }
            i = i + 1;
        }
        proof {
            assert(v@.take(n as int) =~= v@);
            lemma_bits_of_len(n as nat, 4);
            lemma_bytes_bits_len(v@);
        }
        Ok(())
    }

    /// Cuts the appended bits into bytes, most significant first, the last
    /// byte padded with zeros.
    pub fn finish(self) -> (r: heapless::Vec<u8, 8>)
        requires
            self.wf(),
        ensures
            frame_bytes(r) == pack(self@),
            frame_bytes(r).len() <= 8,
    {
        proof {
            lemma_bits_of_len(self.output as nat, self.len as nat);
            lemma_bits_value(self.output as nat, self.len as nat);
            lemma2_to64();
            lemma2_to64_rest();
        }
        let ghost s = self@;
        let ghost w = s + zeros((64 - s.len()) as nat);
        let mut out = self.output;
        if self.len > 0 {
            let k = (64 - self.len) as u64;
            proof {
                lemma_pow2_adds(self.len as nat, k as nat);
                vstd::arithmetic::mul::lemma_mul_strict_inequality(
                    self.output as int,
                    pow2(self.len as nat) as int,
                    pow2(k as nat) as int,
                );
                lemma_u64_shl_is_mul(self.output, k);
                lemma_value_concat(s, zeros(k as nat));
                lemma_zeros_value(k as nat);
            }
            out = out << k;
        } else {
            proof {
                assert(w =~= zeros(64));
                lemma_zeros_value(64);
            }
        }
        let mut res = frame_bytes_new();
        let n = (self.len + 7) / 8;
        let mut i: usize = 0;
        proof {
            assert(w.skip(0) + zeros(0) =~= w);
            assert(pack(s).take(0) =~= Seq::<u8>::empty());
        }
        while i < n
            invariant
                n == (s.len() + 7) / 8,
                s.len() <= 64,
                i <= n,
                w == s + zeros((64 - s.len()) as nat),
                w.len() == 64,
                value_of(w.skip(8 * i) + zeros(8 * i as nat)) == out,
                frame_bytes(res) == pack(s).take(i as int),
            decreases n - i,
        {
            let ghost x = w.skip(8 * i) + zeros(8 * i as nat);
            proof {
                lemma_window_top(out, x, 8);
                lemma_value_bound(x.take(8));
                assert(x.take(8) =~= w.subrange(8 * i, 8 * i + 8));
                lemma_window_shift(out, x, 8);
                assert(x.skip(8) + zeros(8) =~= w.skip(8 * (i + 1)) + zeros(8 * (i + 1) as nat));
            }
            let b = (out >> 56) as u8;
            let pushed = frame_bytes_push(&mut res, b);
            out = out << 8;
            proof {
                assert(pack(s).take(i + 1) =~= pack(s).take(i as int).push(b));
            }
            i = i + 1;
        }
        proof {
            assert(pack(s).take(n as int) =~= pack(s));
        }
        res
    }
}

} // verus!
