//! The unpacking half of the bit register: up to eight input bytes are
//! loaded left-aligned into a 64-bit accumulator and fields are taken from
//! the top. Reading past the end yields zero bits and drives the remaining
//! count below zero, which the structured layer reports.
use crate::bits::{
    bits_of, lemma_bits_value, lemma_value_concat, lemma_window_shift,
    lemma_window_top, lemma_zeros_value, value_of, zeros, lemma_append, lemma_value_bound,
};
use crate::error::Error;
use crate::ser::{bytes_bits, lemma_bytes_bits_len};
use vstd::arithmetic::power2::{lemma2_to64, lemma2_to64_rest, lemma_pow2_adds, pow2};
use vstd::bits::lemma_u64_shl_is_mul;
use vstd::prelude::*;
use vstd::utf8::{decode_utf8, valid_utf8};

verus! {

/// The number spelled by the first `n` bits of `s`, zeros standing in for
/// bits past its end.
pub open spec fn read_bits(s: Seq<bool>, n: nat) -> nat {
    value_of((s + zeros(n)).take(n as int))
}

/// What is left of `s` once `n` bits are taken.
pub open spec fn drop_bits(s: Seq<bool>, n: nat) -> Seq<bool> {
    if n <= s.len() {
        s.skip(n as int)
    } else {
        Seq::empty()
    }
}

/// The bits that an input of bytes provides: its first eight bytes at most.
pub open spec fn unpack(b: Seq<u8>) -> Seq<bool> {
    bytes_bits(
        if b.len() <= 8 {
            b
        } else {
            b.take(8)
        },
    )
}

/// A 4-bit length `L`, then `L` bytes, as read from `s`.
pub open spec fn read_bytes(s: Seq<bool>) -> Seq<u8> {
    Seq::new(read_bits(s, 4), |i: int| read_bits(drop_bits(s, (4 + 8 * i) as nat), 8) as u8)
}

/// Relies on core::str::from_utf8: it succeeds exactly on well-formed UTF-8,
/// and the string then holds the characters that the bytes encode.
#[verifier::external_body]
fn string_from_utf8(b: &[u8]) -> (r: Option<String>)
    ensures
        r is Some <==> valid_utf8(b@),
        r matches Some(s) ==> s@ == decode_utf8(b@),
{
    match core::str::from_utf8(b) {
        Ok(s) => Some(String::from(s)),
        Err(_) => None,
    }
}

pub proof fn lemma_read_bits_bound(s: Seq<bool>, n: nat)
    ensures
        read_bits(s, n) < pow2(n),
{
    lemma_value_bound((s + zeros(n)).take(n as int));
}

pub proof fn lemma_drop_drop(s: Seq<bool>, a: nat, b: nat)
    ensures
        drop_bits(drop_bits(s, a), b) == drop_bits(s, a + b),
{
    if a + b <= s.len() {
        assert(drop_bits(drop_bits(s, a), b) =~= drop_bits(s, a + b));
    } else {
        assert(drop_bits(drop_bits(s, a), b) =~= Seq::<bool>::empty());
    }
}

/// Unpacking state: the bits still available and the signed count of bits
/// left, which goes below zero once a read runs past the input.
pub struct Deserializer {
    input: u64,
    len: i64,
    stream: Ghost<Seq<bool>>,
}

impl Deserializer {
    /// The bits not yet read.
    pub closed spec fn avail(&self) -> Seq<bool> {
        self.stream@
    }

    /// The signed count of bits left.
    pub closed spec fn rem(&self) -> int {
        self.len as int
    }

    pub closed spec fn wf(&self) -> bool {
        &&& self.stream@.len() <= 64
        &&& value_of(self.stream@ + zeros((64 - self.stream@.len()) as nat)) == self.input
        &&& self.len >= 0 ==> self.stream@.len() == self.len
        &&& self.len < 0 ==> self.stream@.len() == 0
    }

    pub proof fn lemma_wf(&self)
        requires
            self.wf(),
        ensures
            self.rem() >= 0 ==> self.avail().len() == self.rem(),
            self.rem() < 0 ==> self.avail().len() == 0,
            self.rem() <= 64,
    {
    }

    /// Loads the first eight bytes of `bytes` at most.
    pub fn from_bytes(bytes: &[u8]) -> (r: Self)
        ensures
            r.wf(),
            r.avail() == unpack(bytes@),
            r.rem() == unpack(bytes@).len(),
    {
        proof {
            lemma2_to64();
            lemma2_to64_rest();
        }
        let n: usize = if bytes.len() <= 8 {
            bytes.len()
        } else {
            8
        };
        let ghost src = if bytes@.len() <= 8 {
            bytes@
        } else {
            bytes@.take(8)
        };
        let mut input: u64 = 0;
        let mut len: i64 = 0;
        let mut i: usize = 0;
        proof {
            assert(bytes@.take(0) =~= Seq::<u8>::empty());
        }
        while i < n
            invariant
                n <= 8,
                n <= bytes@.len(),
                src =~= bytes@.take(n as int),
                i <= n,
                len == 8 * i,
                input == value_of(bytes_bits(bytes@.take(i as int))),
                bytes_bits(bytes@.take(i as int)).len() == 8 * i,
            decreases n - i,
        {
            let b = bytes[i];
            proof {
                lemma2_to64();
                lemma_value_bound(bytes_bits(bytes@.take(i as int)));
                lemma_append(input, (8 * i) as nat, b as u64, 8);
                lemma_bits_value(b as nat, 8);
                assert(bytes@.take(i + 1).drop_last() =~= bytes@.take(i as int));
                lemma_value_concat(bytes_bits(bytes@.take(i as int)), bits_of(b as nat, 8));
                lemma_bytes_bits_len(bytes@.take(i + 1));
            }
            input = (input << 8) | b as u64;
            len = len + 8;
            i = i + 1;
        }
        let ghost s = bytes_bits(src);
        if len > 0 {
            let k = (64 - len) as u64;
            proof {
                lemma_value_bound(s);
                lemma_pow2_adds(len as nat, k as nat);
                vstd::arithmetic::mul::lemma_mul_strict_inequality(
                    input as int,
                    pow2(len as nat) as int,
                    pow2(k as nat) as int,
                );
                lemma_u64_shl_is_mul(input, k);
                lemma_value_concat(s, zeros(k as nat));
                lemma_zeros_value(k as nat);
            }
            input = input << k;
        } else {
            proof {
                assert(s + zeros(64) =~= zeros(64));
                lemma_zeros_value(64);
            }
        }
        Deserializer { input, len, stream: Ghost(s) }
    }

    /// Takes the top `n` bits.
    fn read(&mut self, n: u64) -> (r: u64)
        requires
            old(self).wf(),
            1 <= n <= 64,
            old(self).rem() >= i64::MIN + 64,
        ensures
            final(self).wf(),
            r == read_bits(old(self).avail(), n as nat),
            final(self).avail() == drop_bits(old(self).avail(), n as nat),
            final(self).rem() == old(self).rem() - n,
    {
        let ghost s = self.stream@;
        let ghost w = s + zeros((64 - s.len()) as nat);
        proof {
            lemma_window_top(self.input, w, n as nat);
            assert(w.take(n as int) =~= (s + zeros(n as nat)).take(n as int));
        }
        let r = if n == 64 {
            self.input
        } else {
            self.input >> (64 - n)
        };
        let ghost s2 = drop_bits(s, n as nat);
        if n == 64 {
            proof {
                assert(s2 + zeros((64 - s2.len()) as nat) =~= zeros(64));
                lemma_zeros_value(64);
            }
            self.input = 0;
        } else {
            proof {
                lemma_window_shift(self.input, w, n);
                assert(w.skip(n as int) + zeros(n as nat) =~= s2 + zeros((64 - s2.len()) as nat));
            }
            self.input = self.input << n;
        }
        self.len = self.len - n as i64;
        self.stream = Ghost(s2);
        r
    }

    /// `Ok` while no read has run past the input.
    pub fn check_len(&self) -> (r: Result<(), Error>)
        ensures
            self.rem() >= 0 ==> r is Ok,
            self.rem() < 0 ==> r == Err::<(), Error>(Error::DeMsgTooLong),
    {
        if self.len < 0 {
            return Err(Error::DeMsgTooLong);
        }
        Ok(())
    }

    /// Takes one bit.
    pub fn dec_bool(&mut self) -> (r: Result<bool, Error>)
        requires
            old(self).wf(),
            old(self).rem() >= i64::MIN + 64,
        ensures
            final(self).wf(),
            r == Ok::<bool, Error>(read_bits(old(self).avail(), 1) == 1),
            final(self).avail() == drop_bits(old(self).avail(), 1),
            final(self).rem() == old(self).rem() - 1,
    {
        proof {
            lemma_value_bound((old(self).avail() + zeros(1)).take(1));
            lemma2_to64();
        }
        let v = self.read(1);
        Ok(v != 0)
    }

    /// Takes a 4-bit length or tag.
    pub fn dec_4bit(&mut self) -> (r: Result<usize, Error>)
        requires
            old(self).wf(),
            old(self).rem() >= i64::MIN + 64,
        ensures
            final(self).wf(),
            r == Ok::<usize, Error>(read_bits(old(self).avail(), 4) as usize),
            read_bits(old(self).avail(), 4) < 16,
            final(self).avail() == drop_bits(old(self).avail(), 4),
            final(self).rem() == old(self).rem() - 4,
    {
        proof {
            lemma_value_bound((old(self).avail() + zeros(4)).take(4));
            lemma2_to64();
        }
        let v = self.read(4);
        Ok(v as usize)
    }

    /// Takes 8 bits.
    pub fn dec_u8(&mut self) -> (r: Result<u8, Error>)
        requires
            old(self).wf(),
            old(self).rem() >= i64::MIN + 64,
        ensures
            final(self).wf(),
            r == Ok::<u8, Error>(read_bits(old(self).avail(), 8) as u8),
            read_bits(old(self).avail(), 8) < 256,
            final(self).avail() == drop_bits(old(self).avail(), 8),
            final(self).rem() == old(self).rem() - 8,
    {
        proof {
            lemma_value_bound((old(self).avail() + zeros(8)).take(8));
            lemma2_to64();
        }
        let v = self.read(8);
        Ok(v as u8)
    }

    /// Takes 16 bits, most significant first.
    pub fn dec_u16(&mut self) -> (r: Result<u16, Error>)
        requires
            old(self).wf(),
            old(self).rem() >= i64::MIN + 64,
        ensures
            final(self).wf(),
            r == Ok::<u16, Error>(read_bits(old(self).avail(), 16) as u16),
            final(self).avail() == drop_bits(old(self).avail(), 16),
            final(self).rem() == old(self).rem() - 16,
    {
        let v = self.read(16);
        Ok(v as u16)
    }

    /// Takes 32 bits, most significant first.
    pub fn dec_u32(&mut self) -> (r: Result<u32, Error>)
        requires
            old(self).wf(),
            old(self).rem() >= i64::MIN + 64,
        ensures
            final(self).wf(),
            r == Ok::<u32, Error>(read_bits(old(self).avail(), 32) as u32),
            final(self).avail() == drop_bits(old(self).avail(), 32),
            final(self).rem() == old(self).rem() - 32,
    {
        let v = self.read(32);
        Ok(v as u32)
    }

    /// Takes 64 bits, most significant first.
    pub fn dec_u64(&mut self) -> (r: Result<u64, Error>)
        requires
            old(self).wf(),
            old(self).rem() >= i64::MIN + 64,
        ensures
            final(self).wf(),
            r == Ok::<u64, Error>(read_bits(old(self).avail(), 64) as u64),
            final(self).avail() == drop_bits(old(self).avail(), 64),
            final(self).rem() == old(self).rem() - 64,
    {
        let v = self.read(64);
        Ok(v)
    }

    /// Takes a 4-bit length `L`, then `L` bytes.
    pub fn dec_bytes(&mut self) -> (r: Result<Vec<u8>, Error>)
        requires
            old(self).wf(),
            old(self).rem() >= i64::MIN + 256,
        ensures
            final(self).wf(),
            (r matches Ok(b) && b@ == read_bytes(old(self).avail())),
            final(self).avail() == drop_bits(
                old(self).avail(),
                (4 + 8 * read_bits(old(self).avail(), 4)) as nat,
            ),
            final(self).rem() == old(self).rem() - 4 - 8 * read_bits(old(self).avail(), 4),
    {
        let ghost s = self.avail();
        let n = self.dec_4bit()?;
        let mut out: Vec<u8> = Vec::new();
        let mut i: usize = 0;
        while i < n
            invariant
                self.wf(),
                n == read_bits(s, 4),
                n < 16,
                i <= n,
                self.avail() == drop_bits(s, (4 + 8 * i) as nat),
                self.rem() == old(self).rem() - 4 - 8 * i,
                old(self).rem() >= i64::MIN + 256,
                out@ == read_bytes(s).take(i as int),
            decreases n - i,
        {
            let ghost before = self.avail();
            let b = self.dec_u8()?;
            proof {
                lemma_drop_drop(s, (4 + 8 * i) as nat, 8);
            }
            out.push(b);
            proof {
                assert(out@ =~= read_bytes(s).take(i + 1));
            }
            i = i + 1;
        }
        proof {
            assert(read_bytes(s).take(n as int) =~= read_bytes(s));
        }
        Ok(out)
    }

    /// Takes a length-prefixed run of bytes and reads it as UTF-8.
    pub fn dec_str(&mut self) -> (r: Result<String, Error>)
        requires
            old(self).wf(),
            old(self).rem() >= i64::MIN + 256,
        ensures
            final(self).wf(),
            valid_utf8(read_bytes(old(self).avail())) ==> (r matches Ok(s) && s@ == decode_utf8(
                read_bytes(old(self).avail()),
            )),
            !valid_utf8(read_bytes(old(self).avail())) ==> r == Err::<String, Error>(
                Error::DeUtf8DecodeFail,
            ),
            final(self).avail() == drop_bits(
                old(self).avail(),
                (4 + 8 * read_bits(old(self).avail(), 4)) as nat,
            ),
            final(self).rem() == old(self).rem() - 4 - 8 * read_bits(old(self).avail(), 4),
    {
        let bytes = self.dec_bytes()?;
        match string_from_utf8(bytes.as_slice()) {
            Some(s) => Ok(s),
            None => Err(Error::DeUtf8DecodeFail),
        }
    }
}

} // verus!
