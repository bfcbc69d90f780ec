//! What packing and unpacking promise together: a value that packs comes
//! back from its bytes, whatever follows them.
use crate::bits::{
    bits_of, lemma_bits_of_len, lemma_bits_value, lemma_value_bits, lemma_value_bound, value_of,
    zeros,
};
use crate::de::{drop_bits, read_bits, read_bytes, unpack};
use crate::error::Error;
use crate::ser::{bytes_bits, lemma_bytes_bits_len, pack};
use crate::value::{
    after_blob, conforms, conforms_all, conforms_each, dec, dec_all, dec_rep, decoding, enc,
    enc_all, encoding, Model, Shape,
};
use vstd::arithmetic::power2::lemma2_to64;
use vstd::prelude::*;
use vstd::utf8::{encode_utf8, encode_utf8_decode_utf8, encode_utf8_valid_utf8};

verus! {

broadcast use lemma_bits_of_len, lemma_bytes_bits_len;

proof fn lemma_read_prefix(x: Seq<bool>, y: Seq<bool>)
    ensures
        read_bits(x + y, x.len()) == value_of(x),
        drop_bits(x + y, x.len()) == y,
{
    assert((x + y + zeros(x.len())).take(x.len() as int) =~= x);
    assert((x + y).skip(x.len() as int) =~= y);
}

proof fn lemma_bytes_bits_concat(a: Seq<u8>, b: Seq<u8>)
    ensures
        bytes_bits(a + b) == bytes_bits(a) + bytes_bits(b),
    decreases b.len(),
{
    if b.len() == 0 {
        assert(a + b =~= a);
        assert(bytes_bits(a) + bytes_bits(b) =~= bytes_bits(a));
    } else {
        assert((a + b).drop_last() =~= a + b.drop_last());
        assert((a + b).last() == b.last());
        lemma_bytes_bits_concat(a, b.drop_last());
        assert(bytes_bits(a) + bytes_bits(b) =~= bytes_bits(a) + bytes_bits(b.drop_last())
            + bits_of(b.last() as nat, 8));
    }
}

proof fn lemma_bytes_bits_index(b: Seq<u8>, i: int)
    requires
        0 <= i < b.len(),
    ensures
        bytes_bits(b).subrange(8 * i, 8 * i + 8) == bits_of(b[i] as nat, 8),
    decreases b.len(),
{
    let d = b.drop_last();
    lemma_bytes_bits_len(d);
    assert(bytes_bits(b) == bytes_bits(d) + bits_of(b.last() as nat, 8));
    if i == b.len() - 1 {
        assert(bytes_bits(b).subrange(8 * i, 8 * i + 8) =~= bits_of(b.last() as nat, 8));
    } else {
        lemma_bytes_bits_index(d, i);
        assert(bytes_bits(b).subrange(8 * i, 8 * i + 8) =~= bytes_bits(d).subrange(
            8 * i,
            8 * i + 8,
        ));
    }
}

/// A 4-bit length and the bytes it counts read back as those bytes.
proof fn lemma_read_blob(b: Seq<u8>, rest: Seq<bool>)
    requires
        b.len() < 16,
    ensures
        ({
            let s = bits_of(b.len(), 4) + bytes_bits(b) + rest;
            &&& read_bits(s, 4) == b.len()
            &&& read_bytes(s) == b
            &&& after_blob(s) == rest
        }),
{
    lemma2_to64();
    let h = bits_of(b.len(), 4);
    let bb = bytes_bits(b);
    let s = h + bb + rest;
    lemma_bits_value(b.len(), 4);
    assert(s =~= h + (bb + rest));
    lemma_read_prefix(h, bb + rest);
    assert forall|i: int| 0 <= i < b.len() implies read_bytes(s)[i] == b[i] by {
        let x = bb.subrange(8 * i, 8 * i + 8);
        let y = bb.skip(8 * i + 8) + rest;
        assert(drop_bits(s, (4 + 8 * i) as nat) =~= x + y);
        lemma_read_prefix(x, y);
        lemma_bytes_bits_index(b, i);
        lemma_bits_value(b[i] as nat, 8);
    }
    assert(read_bytes(s) =~= b);
    assert(drop_bits(s, (4 + 8 * b.len()) as nat) =~= rest);
}

proof fn lemma_pack_prefix(s: Seq<bool>, k: int)
    requires
        s.len() <= 64,
        0 <= k <= (s.len() + 7) / 8,
    ensures
        bytes_bits(pack(s).take(k)) == (s + zeros((64 - s.len()) as nat)).take(8 * k),
    decreases k,
{
    let w = s + zeros((64 - s.len()) as nat);
    let p = pack(s);
    if k == 0 {
        assert(p.take(0) =~= Seq::<u8>::empty());
        assert(w.take(0) =~= Seq::<bool>::empty());
    } else {
        lemma_pack_prefix(s, k - 1);
        assert(p.take(k).drop_last() =~= p.take(k - 1));
        let x = w.subrange(8 * (k - 1), 8 * k);
        lemma_value_bound(x);
        lemma2_to64();
        lemma_value_bits(x);
        assert(p.take(k).last() as nat == value_of(x));
        assert(w.take(8 * k) =~= w.take(8 * (k - 1)) + x);
    }
}

/// The bits of the bytes that a bit sequence packs into begin with that sequence.
proof fn lemma_pack_bits(s: Seq<bool>)
    requires
        s.len() <= 64,
    ensures
        pack(s).len() <= 8,
        bytes_bits(pack(s)).len() >= s.len(),
        bytes_bits(pack(s)).take(s.len() as int) == s,
{
    let n = ((s.len() + 7) / 8) as int;
    lemma_pack_prefix(s, n);
    assert(pack(s).take(n) =~= pack(s));
    let w = s + zeros((64 - s.len()) as nat);
    assert(w.take(8 * n).take(s.len() as int) =~= s);
}

/// The bits read from packed bytes, whatever bytes follow, begin with the packed bits.
proof fn lemma_unpack_pack(s: Seq<bool>, extra: Seq<u8>)
    requires
        s.len() <= 64,
    ensures
        unpack(pack(s) + extra).len() >= s.len(),
        unpack(pack(s) + extra).take(s.len() as int) == s,
{
    lemma_pack_bits(s);
    let p = pack(s);
    let bytes = p + extra;
    let k = if bytes.len() <= 8 {
        extra.len() as int
    } else {
        8 - p.len()
    };
    assert((if bytes.len() <= 8 {
        bytes
    } else {
        bytes.take(8)
    }) =~= p + extra.take(k));
    lemma_bytes_bits_concat(p, extra.take(k));
    assert(unpack(bytes).take(s.len() as int) =~= bytes_bits(p).take(s.len() as int));
}

proof fn lemma_put(pre: Seq<bool>, b: Seq<bool>, rest: Seq<bool>)
    ensures
        (pre + b).skip(pre.len() as int) + rest == b + rest,
        (pre + b).take(pre.len() as int) == pre,
        read_bits(b + rest, b.len()) == value_of(b),
        drop_bits(b + rest, b.len()) == rest,
{
    assert((pre + b).skip(pre.len() as int) =~= b);
    assert((pre + b).take(pre.len() as int) =~= pre);
    lemma_read_prefix(b, rest);
}

/// Encoding `m` after `pre` and decoding it as `sh` ahead of `rest` gives `m`
/// back, leaves `rest`, and keeps `pre` as it was.
spec fn round_trips(m: Model, sh: Shape, pre: Seq<bool>, rest: Seq<bool>) -> bool {
    let out = enc(m, pre)->Ok_0;
    &&& out.len() <= 64
    &&& out.len() >= pre.len()
    &&& out.take(pre.len() as int) == pre
    &&& dec(sh, out.skip(pre.len() as int) + rest, out.len() - pre.len() + rest.len()) == (
        Ok::<Model, Error>(m),
        rest,
        rest.len() as int,
    )
}

proof fn lemma_dec_enc_scalar(m: Model, sh: Shape, pre: Seq<bool>, rest: Seq<bool>)
    requires
        conforms(m, sh),
        pre.len() <= 64,
        enc(m, pre) is Ok,
        !(m is Sequence || m is Tuple || m is Opt || m is Variant || m is Char || m is Str
            || m is Bytes),
    ensures
        round_trips(m, sh, pre, rest),
{
    lemma2_to64();
    match m {
        Model::Unit => {
            assert(pre.take(pre.len() as int) =~= pre);
            assert(pre.skip(pre.len() as int) + rest =~= rest);
        },
        Model::Bool(b) => {
            lemma_put(pre, seq![b], rest);
            assert(value_of(seq![b]) == (if b { 1nat } else { 0nat })) by {
                reveal_with_fuel(value_of, 2);
                assert(seq![b].drop_last() =~= Seq::<bool>::empty());
            }
        },
        Model::U8(x) => {
            lemma_put(pre, bits_of(x as nat, 8), rest);
            lemma_bits_value(x as nat, 8);
        },
        Model::I8(x) => {
            lemma_put(pre, bits_of(x as u8 as nat, 8), rest);
            lemma_bits_value(x as u8 as nat, 8);
            assert((x as u8) as i8 == x) by (bit_vector);
        },
        Model::U16(x) => {
            lemma_put(pre, bits_of(x as nat, 16), rest);
            lemma_bits_value(x as nat, 16);
        },
        Model::I16(x) => {
            lemma_put(pre, bits_of(x as u16 as nat, 16), rest);
            lemma_bits_value(x as u16 as nat, 16);
            assert((x as u16) as i16 == x) by (bit_vector);
        },
        Model::U32(x) => {
            lemma_put(pre, bits_of(x as nat, 32), rest);
            lemma_bits_value(x as nat, 32);
        },
        Model::I32(x) => {
            lemma_put(pre, bits_of(x as u32 as nat, 32), rest);
            lemma_bits_value(x as u32 as nat, 32);
            assert((x as u32) as i32 == x) by (bit_vector);
        },
        Model::U64(x) => {
            vstd::arithmetic::power2::lemma2_to64_rest();
            lemma_put(pre, bits_of(x as nat, 64), rest);
            lemma_bits_value(x as nat, 64);
        },
        Model::I64(x) => {
            vstd::arithmetic::power2::lemma2_to64_rest();
            lemma_put(pre, bits_of(x as u64 as nat, 64), rest);
            lemma_bits_value(x as u64 as nat, 64);
            assert((x as u64) as i64 == x) by (bit_vector);
        },
        _ => {},
    }
}

proof fn lemma_dec_enc_blob(m: Model, sh: Shape, pre: Seq<bool>, rest: Seq<bool>)
    requires
        conforms(m, sh),
        pre.len() <= 64,
        enc(m, pre) is Ok,
        m is Char || m is Str || m is Bytes,
    ensures
        round_trips(m, sh, pre, rest),
{
    match m {
        Model::Char(c) => {
            let b = encode_utf8(seq![c]);
            let blob = bits_of(b.len(), 4) + bytes_bits(b);
            lemma_put(pre, blob, rest);
            lemma_read_blob(b, rest);
            assert(blob + rest =~= bits_of(b.len(), 4) + bytes_bits(b) + rest);
            encode_utf8_valid_utf8(seq![c]);
            encode_utf8_decode_utf8(seq![c]);
        },
        Model::Str(cs) => {
            let b = encode_utf8(cs);
            let blob = bits_of(b.len(), 4) + bytes_bits(b);
            lemma_put(pre, blob, rest);
            lemma_read_blob(b, rest);
            assert(blob + rest =~= bits_of(b.len(), 4) + bytes_bits(b) + rest);
            encode_utf8_valid_utf8(cs);
            encode_utf8_decode_utf8(cs);
        },
        Model::Bytes(b) => {
            let blob = bits_of(b.len(), 4) + bytes_bits(b);
            lemma_put(pre, blob, rest);
            lemma_read_blob(b, rest);
            assert(blob + rest =~= bits_of(b.len(), 4) + bytes_bits(b) + rest);
        },
        _ => {},
    }
}

proof fn lemma_dec_enc_sequence(m: Model, sh: Shape, pre: Seq<bool>, rest: Seq<bool>)
    requires
        conforms(m, sh),
        pre.len() <= 64,
        enc(m, pre) is Ok,
        m is Sequence,
    ensures
        round_trips(m, sh, pre, rest),
    decreases m, 0nat,
{
    lemma2_to64();
    let out = enc(m, pre)->Ok_0;
    match m {
        Model::Sequence(ms) => {
            if let Shape::Sequence(e) = sh {
                let h = bits_of(ms.len(), 4);
                let p = pre + h;
                lemma_bits_value(ms.len(), 4);
                lemma_dec_enc_rep(ms, *e, p, rest);
                let tail = out.skip(p.len() as int) + rest;
                assert(out =~= p + out.skip(p.len() as int));
                assert(out.skip(pre.len() as int) + rest =~= h + tail);
                lemma_read_prefix(h, tail);
                assert(out.take(pre.len() as int) =~= pre);
                assert(read_bits(h + tail, 4) == ms.len());
            }
        },
        _ => {},
    }
}

proof fn lemma_dec_enc_opt(m: Model, sh: Shape, pre: Seq<bool>, rest: Seq<bool>)
    requires
        conforms(m, sh),
        pre.len() <= 64,
        enc(m, pre) is Ok,
        m is Opt,
    ensures
        round_trips(m, sh, pre, rest),
    decreases m, 0nat,
{
    lemma2_to64();
    let out = enc(m, pre)->Ok_0;
    match m {
        Model::Opt(o) => {
            if let Shape::Opt(e) = sh {
                match o {
                    Option::None => {
                        lemma_put(pre, seq![false], rest);
                        assert(value_of(seq![false]) == 0) by {
                            reveal_with_fuel(value_of, 2);
                            assert(seq![false].drop_last() =~= Seq::<bool>::empty());
                        }
                    },
                    Option::Some(b) => {
                        let p = pre + seq![true];
                        assert(value_of(seq![true]) == 1) by {
                            reveal_with_fuel(value_of, 2);
                            assert(seq![true].drop_last() =~= Seq::<bool>::empty());
                        }
                        lemma_dec_enc(*b, *e, p, rest);
                        let tail = out.skip(p.len() as int) + rest;
                        assert(out =~= p + out.skip(p.len() as int));
                        assert(out.skip(pre.len() as int) + rest =~= seq![true] + tail);
                        lemma_read_prefix(seq![true], tail);
                        assert(out.take(pre.len() as int) =~= pre);
                    },
                }
            }
        },
        _ => {},
    }
}

proof fn lemma_dec_enc_variant(m: Model, sh: Shape, pre: Seq<bool>, rest: Seq<bool>)
    requires
        conforms(m, sh),
        pre.len() <= 64,
        enc(m, pre) is Ok,
        m is Variant,
    ensures
        round_trips(m, sh, pre, rest),
    decreases m, 0nat,
{
    lemma2_to64();
    let out = enc(m, pre)->Ok_0;
    match m {
        Model::Variant { name, variant, index, payload } => {
            if let Shape::Enum { name: n, variants, payloads } = sh {
                let h = bits_of(index as nat, 4);
                let p = pre + h;
                lemma_bits_value(index as nat, 4);
                lemma_dec_enc(*payload, payloads@[index as int], p, rest);
                let tail = out.skip(p.len() as int) + rest;
                assert(out =~= p + out.skip(p.len() as int));
                assert(out.skip(pre.len() as int) + rest =~= h + tail);
                lemma_read_prefix(h, tail);
                assert(out.take(pre.len() as int) =~= pre);
            }
        },
        _ => {},
    }
}

proof fn lemma_dec_enc(m: Model, sh: Shape, pre: Seq<bool>, rest: Seq<bool>)
    requires
        conforms(m, sh),
        pre.len() <= 64,
        enc(m, pre) is Ok,
    ensures
        round_trips(m, sh, pre, rest),
    decreases m, 1nat,
{
    match m {
        Model::Sequence(_) => lemma_dec_enc_sequence(m, sh, pre, rest),
        Model::Tuple(ms) => {
            if let Shape::Tuple(shs) = sh {
                lemma_dec_enc_all(ms, shs@, pre, rest);
            }
        },
        Model::Opt(_) => lemma_dec_enc_opt(m, sh, pre, rest),
        Model::Variant { .. } => lemma_dec_enc_variant(m, sh, pre, rest),
        Model::Char(_) | Model::Str(_) | Model::Bytes(_) => lemma_dec_enc_blob(m, sh, pre, rest),
        _ => lemma_dec_enc_scalar(m, sh, pre, rest),
    }
}

proof fn lemma_dec_enc_all(ms: Seq<Model>, shs: Seq<Shape>, pre: Seq<bool>, rest: Seq<bool>)
    requires
        conforms_all(ms, shs),
        pre.len() <= 64,
        enc_all(ms, pre) is Ok,
    ensures
        ({
            let out = enc_all(ms, pre)->Ok_0;
            &&& out.len() <= 64
            &&& out.len() >= pre.len()
            &&& out.take(pre.len() as int) == pre
            &&& dec_all(shs, out.skip(pre.len() as int) + rest, out.len() - pre.len() + rest.len())
                == (Ok::<Seq<Model>, Error>(ms), rest, rest.len() as int)
        }),
    decreases ms, 0nat,
{
    if ms.len() == 0 {
        assert(pre.take(pre.len() as int) =~= pre);
        assert(pre.skip(pre.len() as int) + rest =~= rest);
        assert(ms =~= Seq::<Model>::empty());
    } else {
        let p = enc_all(ms.drop_last(), pre)->Ok_0;
        let out = enc(ms.last(), p)->Ok_0;
        lemma_dec_enc_all(ms.drop_last(), shs.drop_last(), pre, out.skip(p.len() as int) + rest);
        lemma_dec_enc(ms.last(), shs.last(), p, rest);
        assert(out =~= p + out.skip(p.len() as int));
        assert(p =~= pre + p.skip(pre.len() as int));
        assert(p.skip(pre.len() as int) + (out.skip(p.len() as int) + rest) =~= out.skip(
            pre.len() as int,
        ) + rest);
        assert(out.take(pre.len() as int) =~= pre);
        assert(ms.drop_last().push(ms.last()) =~= ms);
    }
}

proof fn lemma_dec_enc_rep(ms: Seq<Model>, e: Shape, pre: Seq<bool>, rest: Seq<bool>)
    requires
        conforms_each(ms, e),
        pre.len() <= 64,
        enc_all(ms, pre) is Ok,
    ensures
        ({
            let out = enc_all(ms, pre)->Ok_0;
            &&& out.len() <= 64
            &&& out.len() >= pre.len()
            &&& out.take(pre.len() as int) == pre
            &&& dec_rep(e, ms.len(), out.skip(pre.len() as int) + rest, out.len() - pre.len()
                + rest.len()) == (Ok::<Seq<Model>, Error>(ms), rest, rest.len() as int)
        }),
    decreases ms, 0nat,
{
    if ms.len() == 0 {
        assert(pre.take(pre.len() as int) =~= pre);
        assert(pre.skip(pre.len() as int) + rest =~= rest);
        assert(ms =~= Seq::<Model>::empty());
    } else {
        let p = enc_all(ms.drop_last(), pre)->Ok_0;
        let out = enc(ms.last(), p)->Ok_0;
        lemma_dec_enc_rep(ms.drop_last(), e, pre, out.skip(p.len() as int) + rest);
        lemma_dec_enc(ms.last(), e, p, rest);
        assert(out =~= p + out.skip(p.len() as int));
        assert(p =~= pre + p.skip(pre.len() as int));
        assert(p.skip(pre.len() as int) + (out.skip(p.len() as int) + rest) =~= out.skip(
            pre.len() as int,
        ) + rest);
        assert(out.take(pre.len() as int) =~= pre);
        assert(ms.drop_last().push(ms.last()) =~= ms);
    }
}

/// Round trip: a value of shape `sh` that packs comes back when its bytes are
/// unpacked as `sh`, also when further bytes follow them (they are ignored);
/// the packed bytes number at most eight.
pub proof fn lemma_round_trip(m: Model, sh: Shape, extra: Seq<u8>)
    requires
        conforms(m, sh),
        encoding(m) is Ok,
    ensures
        encoding(m)->Ok_0.len() <= 8,
        decoding(sh, encoding(m)->Ok_0 + extra) == Ok::<Model, Error>(m),
{
    let pre = Seq::<bool>::empty();
    let out = enc(m, pre)->Ok_0;
    let s = unpack(pack(out) + extra);
    lemma_dec_enc(m, sh, pre, s.skip(out.len() as int));
    lemma_unpack_pack(out, extra);
    lemma_pack_bits(out);
    assert(out.skip(0) =~= out);
    assert(out + s.skip(out.len() as int) =~= s);
}

} // verus!

verus! {

/// Reading a value only lowers the count of bits left.
pub proof fn lemma_dec_mono(sh: Shape, s: Seq<bool>, rem: int)
    ensures
        dec(sh, s, rem).2 <= rem,
    decreases sh, 0nat,
{
    match sh {
        Shape::Sequence(e) => {
            if rem >= 0 {
                lemma_dec_rep_mono(*e, read_bits(s, 4), drop_bits(s, 4), rem - 4);
            }
        },
        Shape::Tuple(shs) => {
            lemma_dec_all_mono(shs@, s, rem);
        },
        Shape::Opt(e) => {
            if rem >= 0 && read_bits(s, 1) == 1 {
                lemma_dec_mono(*e, drop_bits(s, 1), rem - 1);
            }
        },
        Shape::Enum { name, variants, payloads } => {
            let t = read_bits(s, 4);
            if rem >= 0 && t < payloads.len() && t < variants.len() {
                assert(decreases_to!(payloads => payloads@[t as int]));
                lemma_dec_mono(payloads@[t as int], drop_bits(s, 4), rem - 4);
            }
        },
        _ => {},
    }
}

proof fn lemma_dec_rep_mono(e: Shape, k: nat, s: Seq<bool>, rem: int)
    ensures
        dec_rep(e, k, s, rem).2 <= rem,
    decreases e, k,
{
    if k > 0 {
        lemma_dec_rep_mono(e, (k - 1) as nat, s, rem);
        let (r, s1, rem1) = dec_rep(e, (k - 1) as nat, s, rem);
        lemma_dec_mono(e, s1, rem1);
    }
}

proof fn lemma_dec_all_mono(shs: Seq<Shape>, s: Seq<bool>, rem: int)
    ensures
        dec_all(shs, s, rem).2 <= rem,
    decreases shs, 0nat,
{
    if shs.len() > 0 {
        lemma_dec_all_mono(shs.drop_last(), s, rem);
        let (r, s1, rem1) = dec_all(shs.drop_last(), s, rem);
        lemma_dec_mono(shs.last(), s1, rem1);
    }
}

/// Bit accounting: a decode that succeeds ends with a count of bits left at
/// or above zero, and, since the count only falls, it was at or above zero at
/// every field; what is left over (padding, bytes past the value) is ignored.
pub proof fn lemma_bit_accounting(sh: Shape, bytes: Seq<u8>)
    requires
        decoding(sh, bytes) is Ok,
    ensures
        0 <= dec(sh, unpack(bytes), unpack(bytes).len() as int).2 <= unpack(bytes).len(),
{
    lemma_dec_mono(sh, unpack(bytes), unpack(bytes).len() as int);
}

} // verus!
