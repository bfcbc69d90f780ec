//! The structured codec: values handed over by a reflection layer, the
//! shapes that say how to rebuild them, and the wire layout of each shape.
use crate::bits::{bits_of, lemma_bits_of_len};
use crate::de::{drop_bits, lemma_read_bits_bound, read_bits, read_bytes, unpack, Deserializer};
use vstd::arithmetic::power2::lemma2_to64;
use crate::error::Error;
use crate::ser::{bytes_bits, frame_bytes, lemma_bytes_bits_len, pack, Serializer};
use vstd::prelude::*;
use vstd::string::StrSliceExecFns;
use vstd::utf8::{decode_utf8, encode_utf8, valid_utf8};

verus! {

broadcast use vstd::seq::group_seq_axioms, vstd::std_specs::vec::group_vec_axioms, lemma_bits_of_len,
    lemma_bytes_bits_len;

/// A value as the reflection layer hands it to the codec. Floats travel as
/// the integer of their bit pattern.
#[derive(Debug, PartialEq)]
pub enum Value {
    Unit,
    Bool(bool),
    U8(u8),
    I8(i8),
    U16(u16),
    I16(i16),
    U32(u32),
    I32(i32),
    U64(u64),
    I64(i64),
    Char(char),
    Str(String),
    Bytes(Vec<u8>),
    /// A sequence of known length: 4-bit length, then the elements.
    Sequence(Vec<Value>),
    /// Tuples and structs: the fields one after the other, no header.
    Tuple(Vec<Value>),
    Opt(Option<Box<Value>>),
    /// A variant of a tagged union: 4-bit index, then the payload.
    Variant { name: &'static str, variant: &'static str, index: u32, payload: Box<Value> },
}

/// The mathematical form of a `Value`.
pub enum Model {
    Unit,
    Bool(bool),
    U8(u8),
    I8(i8),
    U16(u16),
    I16(i16),
    U32(u32),
    I32(i32),
    U64(u64),
    I64(i64),
    Char(char),
    Str(Seq<char>),
    Bytes(Seq<u8>),
    Sequence(Seq<Model>),
    Tuple(Seq<Model>),
    Opt(Option<Box<Model>>),
    Variant { name: &'static str, variant: &'static str, index: u32, payload: Box<Model> },
}

/// What the decoder is to rebuild.
#[derive(Debug)]
pub enum Shape {
    Unit,
    Bool,
    U8,
    I8,
    U16,
    I16,
    U32,
    I32,
    U64,
    I64,
    Char,
    Str,
    Bytes,
    /// A sequence whose elements all have the given shape.
    Sequence(Box<Shape>),
    /// Fields of the given shapes, in order.
    Tuple(Vec<Shape>),
    Opt(Box<Shape>),
    /// A tagged union: its name, and for each index the variant's name and payload shape.
    Enum { name: &'static str, variants: Vec<&'static str>, payloads: Vec<Shape> },
}

pub open spec fn model_of(v: Value) -> Model
    decreases v,
{
    match v {
        Value::Unit => Model::Unit,
        Value::Bool(b) => Model::Bool(b),
        Value::U8(x) => Model::U8(x),
        Value::I8(x) => Model::I8(x),
        Value::U16(x) => Model::U16(x),
        Value::I16(x) => Model::I16(x),
        Value::U32(x) => Model::U32(x),
        Value::I32(x) => Model::I32(x),
        Value::U64(x) => Model::U64(x),
        Value::I64(x) => Model::I64(x),
        Value::Char(c) => Model::Char(c),
        Value::Str(s) => Model::Str(s@),
        Value::Bytes(b) => Model::Bytes(b@),
        Value::Sequence(vs) => Model::Sequence(models_of(vs@)),
        Value::Tuple(vs) => Model::Tuple(models_of(vs@)),
        Value::Opt(o) => match o {
            Option::None => Model::Opt(None),
            Option::Some(b) => Model::Opt(Some(Box::new(model_of(*b)))),
        },
        Value::Variant { name, variant, index, payload } => Model::Variant {
            name,
            variant,
            index,
            payload: Box::new(model_of(*payload)),
        },
    }
}

pub open spec fn models_of(vs: Seq<Value>) -> Seq<Model>
    decreases vs,
{
    if vs.len() == 0 {
        Seq::empty()
    } else {
        models_of(vs.drop_last()).push(model_of(vs.last()))
    }
}

impl View for Value {
    type V = Model;

    open spec fn view(&self) -> Model {
        model_of(*self)
    }
}

// ------------------------------------------------------------------ encoding

/// Appends `b` to `pre`, or fails when the result would pass 64 bits.
pub open spec fn put(pre: Seq<bool>, b: Seq<bool>) -> Result<Seq<bool>, Error> {
    if pre.len() + b.len() <= 64 {
        Ok(pre + b)
    } else {
        Err(Error::SerMsgTooLong)
    }
}

/// A 4-bit length, then the bytes; `kind` names the blob in the error.
pub open spec fn put_blob(pre: Seq<bool>, b: Seq<u8>, kind: &'static str) -> Result<
    Seq<bool>,
    Error,
> {
    if b.len() >= 16 {
        Err(Error::SerLengthTooLarge(kind, b.len() as usize))
    } else {
        put(pre, bits_of(b.len(), 4) + bytes_bits(b))
    }
}

/// The bits after appending the encoding of `m` to `pre`, or the first error met.
pub open spec fn enc(m: Model, pre: Seq<bool>) -> Result<Seq<bool>, Error>
    decreases m,
{
    match m {
        Model::Unit => Ok(pre),
        Model::Bool(b) => put(pre, seq![b]),
        Model::U8(x) => put(pre, bits_of(x as nat, 8)),
        Model::I8(x) => put(pre, bits_of(x as u8 as nat, 8)),
        Model::U16(x) => put(pre, bits_of(x as nat, 16)),
        Model::I16(x) => put(pre, bits_of(x as u16 as nat, 16)),
        Model::U32(x) => put(pre, bits_of(x as nat, 32)),
        Model::I32(x) => put(pre, bits_of(x as u32 as nat, 32)),
        Model::U64(x) => put(pre, bits_of(x as nat, 64)),
        Model::I64(x) => put(pre, bits_of(x as u64 as nat, 64)),
        Model::Char(c) => put_blob(pre, encode_utf8(seq![c]), "char"),
        Model::Str(s) => put_blob(pre, encode_utf8(s), "string"),
        Model::Bytes(b) => put_blob(pre, b, "bytes"),
        Model::Sequence(ms) => if ms.len() >= 16 {
            Err(Error::SerLengthTooLarge("seq", ms.len() as usize))
        } else {
            match put(pre, bits_of(ms.len(), 4)) {
                Ok(p) => enc_all(ms, p),
                Err(e) => Err(e),
            }
        },
        Model::Tuple(ms) => enc_all(ms, pre),
        Model::Opt(o) => match o {
            Option::None => put(pre, seq![false]),
            Option::Some(b) => match put(pre, seq![true]) {
                Ok(p) => enc(*b, p),
                Err(e) => Err(e),
            },
        },
        Model::Variant { name, variant, index, payload } => if index >= 16 {
            Err(Error::SerFieldIndexTooLarge(name, variant))
        } else {
            match put(pre, bits_of(index as nat, 4)) {
                Ok(p) => enc(*payload, p),
                Err(e) => Err(e),
            }
        },
    }
}

/// The encodings of `ms`, one after the other, appended to `pre`.
pub open spec fn enc_all(ms: Seq<Model>, pre: Seq<bool>) -> Result<Seq<bool>, Error>
    decreases ms,
{
    if ms.len() == 0 {
        Ok(pre)
    } else {
        match enc_all(ms.drop_last(), pre) {
            Ok(p) => enc(ms.last(), p),
            Err(e) => Err(e),
        }
    }
}

/// What packing `m` gives: its bits cut into bytes, or the error met.
pub open spec fn encoding(m: Model) -> Result<Seq<u8>, Error> {
    match enc(m, Seq::empty()) {
        Ok(b) => Ok(pack(b)),
        Err(e) => Err(e),
    }
}

proof fn lemma_enc_all_prefix_err(ms: Seq<Model>, k: int, pre: Seq<bool>)
    requires
        0 <= k <= ms.len(),
        enc_all(ms.take(k), pre) is Err,
    ensures
        enc_all(ms, pre) == enc_all(ms.take(k), pre),
    decreases ms.len(),
{
    if k == ms.len() {
        assert(ms.take(k) =~= ms);
    } else {
        assert(ms.drop_last().take(k) =~= ms.take(k));
        lemma_enc_all_prefix_err(ms.drop_last(), k, pre);
    }
}

proof fn lemma_models_take(vs: Seq<Value>, i: int)
    requires
        0 <= i < vs.len(),
    ensures
        models_of(vs.take(i + 1)) == models_of(vs.take(i)).push(model_of(vs[i])),
{
    assert(vs.take(i + 1).drop_last() =~= vs.take(i));
}

proof fn lemma_models_len(vs: Seq<Value>)
    ensures
        models_of(vs).len() == vs.len(),
    decreases vs.len(),
{
    if vs.len() > 0 {
        lemma_models_len(vs.drop_last());
    }
}

/// Relies on char::encode_utf8: the bytes are the UTF-8 encoding of `c`.
#[verifier::external_body]
fn char_utf8(c: char) -> (r: Vec<u8>)
    ensures
        r@ == encode_utf8(seq![c]),
{
    let mut buf = [0u8; 4];
    c.encode_utf8(&mut buf).as_bytes().to_vec()
}

fn enc_value(ser: &mut Serializer, v: &Value) -> (r: Result<(), Error>)
    requires
        old(ser).wf(),
    ensures
        final(ser).wf(),
        match enc(v@, old(ser)@) {
            Ok(b) => r is Ok && final(ser)@ == b,
            Err(e) => r == Err::<(), Error>(e),
        },
    decreases v,
{
    proof {
        ser.lemma_wf_len();
    }
    match v {
        Value::Unit => Ok(()),
        Value::Bool(b) => {
            proof {
                assert(old(ser)@.push(*b) =~= old(ser)@ + seq![*b]);
            }
            ser.enc_bool(*b)
        },
        Value::U8(x) => ser.enc_u8(*x),
        Value::I8(x) => ser.enc_u8(*x as u8),
        Value::U16(x) => ser.enc_u16(*x),
        Value::I16(x) => ser.enc_u16(*x as u16),
        Value::U32(x) => ser.enc_u32(*x),
        Value::I32(x) => ser.enc_u32(*x as u32),
        Value::U64(x) => ser.enc_u64(*x),
        Value::I64(x) => ser.enc_u64(*x as u64),
        Value::Char(c) => {
            let b = char_utf8(*c);
            let n = b.len();
            let ghost bb: Seq<u8> = b@;
            proof {
                assert(old(ser)@ + bits_of(bb.len(), 4) + bytes_bits(bb) =~= old(ser)@ + (bits_of(
                    bb.len(),
                    4,
                ) + bytes_bits(bb)));
            }
            ser.enc_bytes(b.as_slice(), Error::SerLengthTooLarge("char", n))
        },
        Value::Str(s) => {
            let b = s.as_str().as_bytes();
            let n = b.len();
            let ghost bb: Seq<u8> = b@;
            proof {
                assert(old(ser)@ + bits_of(bb.len(), 4) + bytes_bits(bb) =~= old(ser)@ + (bits_of(
                    bb.len(),
                    4,
                ) + bytes_bits(bb)));
            }
            ser.enc_bytes(b, Error::SerLengthTooLarge("string", n))
        },
        Value::Bytes(b) => {
            let n = b.len();
            let ghost bb: Seq<u8> = b@;
            proof {
                assert(old(ser)@ + bits_of(bb.len(), 4) + bytes_bits(bb) =~= old(ser)@ + (bits_of(
                    bb.len(),
                    4,
                ) + bytes_bits(bb)));
            }
            ser.enc_bytes(b.as_slice(), Error::SerLengthTooLarge("bytes", n))
        },
        Value::Sequence(vs) => {
            proof {
                lemma_models_len(vs@);
            }
            let n = vs.len();
            let r = ser.enc_4bit(n, Error::SerLengthTooLarge("seq", n));
            if r.is_err() {
                return r;
            }
            enc_list(ser, vs)
        },
        Value::Tuple(vs) => enc_list(ser, vs),
        Value::Opt(o) => match o {
            None => {
                proof {
                    assert(old(ser)@.push(false) =~= old(ser)@ + seq![false]);
                }
                ser.enc_bool(false)
            },
            Some(b) => {
                let r = ser.enc_bool(true);
                if r.is_err() {
                    return r;
                }
                proof {
                    assert(old(ser)@.push(true) =~= old(ser)@ + seq![true]);
                }
                enc_value(ser, b)
            },
        },
        Value::Variant { name, variant, index, payload } => {
            let r = ser.enc_4bit(*index as usize, Error::SerFieldIndexTooLarge(*name, *variant));
            if r.is_err() {
                return r;
            }
            enc_value(ser, payload)
        },
    }
}

fn enc_list(ser: &mut Serializer, vs: &Vec<Value>) -> (r: Result<(), Error>)
    requires
        old(ser).wf(),
    ensures
        final(ser).wf(),
        match enc_all(models_of(vs@), old(ser)@) {
            Ok(b) => r is Ok && final(ser)@ == b,
            Err(e) => r == Err::<(), Error>(e),
        },
    decreases vs,
{
    let ghost start = ser@;
    let n = vs.len();
    let mut i: usize = 0;
    proof {
        assert(vs@.take(0) =~= Seq::<Value>::empty());
    }
    while i < n
        invariant
            ser.wf(),
            n == vs@.len(),
            i <= n,
            start == old(ser)@,
            enc_all(models_of(vs@.take(i as int)), start) == Ok::<Seq<bool>, Error>(ser@),
        decreases n - i,
    {
        proof {
            lemma_models_take(vs@, i as int);
            assert(models_of(vs@.take(i + 1)).drop_last() =~= models_of(vs@.take(i as int)));
            assert(decreases_to!(vs => vs@[i as int]));
        }
        let r = enc_value(ser, &vs[i]);
        if r.is_err() {
            proof {
                lemma_models_len(vs@);
                assert(models_of(vs@).take(i + 1) =~= models_of(vs@.take(i + 1))) by {
                    lemma_models_prefix(vs@, i + 1);
                }
                lemma_enc_all_prefix_err(models_of(vs@), i + 1, start);
            }
            return r;
        }
        i = i + 1;
    }
    proof {
        assert(vs@.take(n as int) =~= vs@);
    }
    Ok(())
}

proof fn lemma_models_prefix(vs: Seq<Value>, k: int)
    requires
        0 <= k <= vs.len(),
    ensures
        models_of(vs).take(k) == models_of(vs.take(k)),
    decreases vs.len(),
{
    lemma_models_len(vs);
    lemma_models_len(vs.take(k));
    if k == vs.len() {
        assert(vs.take(k) =~= vs);
        assert(models_of(vs).take(k) =~= models_of(vs));
    } else {
        lemma_models_prefix(vs.drop_last(), k);
        assert(vs.drop_last().take(k) =~= vs.take(k));
        lemma_models_len(vs.drop_last());
        assert(models_of(vs).take(k) =~= models_of(vs.drop_last()).take(k));
    }
}

/// Packs a value into at most eight bytes.
pub fn to_bytes(v: &Value) -> (r: Result<heapless::Vec<u8, 8>, Error>)
    ensures
        match encoding(v@) {
            Ok(b) => r matches Ok(out) && frame_bytes(out) == b,
            Err(e) => r == Err::<heapless::Vec<u8, 8>, Error>(e),
        },
        r matches Ok(out) ==> frame_bytes(out).len() <= 8,
{
    let mut ser = Serializer::new();
    let r = enc_value(&mut ser, v);
    match r {
        Ok(()) => Ok(ser.finish()),
        Err(e) => Err(e),
    }
}

} // verus!

verus! {

// ------------------------------------------------------------------ decoding

/// A decoding step: the value or error, the bits left, the signed count left.
pub type Step<T> = (Result<T, Error>, Seq<bool>, int);

/// `then`, unless a read has already run past the input.
pub open spec fn checked<T>(s: Seq<bool>, rem: int, then: Step<T>) -> Step<T> {
    if rem < 0 {
        (Err(Error::DeMsgTooLong), s, rem)
    } else {
        then
    }
}

/// A fixed-width field of `n` bits that reads as `m`.
pub open spec fn prim(s: Seq<bool>, rem: int, n: nat, m: Model) -> Step<Model> {
    checked(s, rem, (Ok(m), drop_bits(s, n), rem - n))
}

/// Bits left after a 4-bit length and the bytes it counts.
pub open spec fn after_blob(s: Seq<bool>) -> Seq<bool> {
    drop_bits(s, (4 + 8 * read_bits(s, 4)) as nat)
}

/// Count left after a 4-bit length and the bytes it counts.
pub open spec fn rem_after_blob(s: Seq<bool>, rem: int) -> int {
    rem - 4 - 8 * read_bits(s, 4)
}

/// Decoding `sh` from the bits `s` with `rem` bits counted as left.
pub open spec fn dec(sh: Shape, s: Seq<bool>, rem: int) -> Step<Model>
    decreases sh, 0nat,
{
    match sh {
        Shape::Unit => (Ok(Model::Unit), s, rem),
        Shape::Bool => prim(s, rem, 1, Model::Bool(read_bits(s, 1) == 1)),
        Shape::U8 => prim(s, rem, 8, Model::U8(read_bits(s, 8) as u8)),
        Shape::I8 => prim(s, rem, 8, Model::I8(read_bits(s, 8) as u8 as i8)),
        Shape::U16 => prim(s, rem, 16, Model::U16(read_bits(s, 16) as u16)),
        Shape::I16 => prim(s, rem, 16, Model::I16(read_bits(s, 16) as u16 as i16)),
        Shape::U32 => prim(s, rem, 32, Model::U32(read_bits(s, 32) as u32)),
        Shape::I32 => prim(s, rem, 32, Model::I32(read_bits(s, 32) as u32 as i32)),
        Shape::U64 => prim(s, rem, 64, Model::U64(read_bits(s, 64) as u64)),
        Shape::I64 => prim(s, rem, 64, Model::I64(read_bits(s, 64) as u64 as i64)),
        Shape::Char => checked(
            s,
            rem,
            if !valid_utf8(read_bytes(s)) {
                (Err(Error::DeUtf8DecodeFail), after_blob(s), rem_after_blob(s, rem))
            } else if decode_utf8(read_bytes(s)).len() == 0 {
                (Err(Error::DeCharFail), after_blob(s), rem_after_blob(s, rem))
            } else {
                (
                    Ok(Model::Char(decode_utf8(read_bytes(s))[0])),
                    after_blob(s),
                    rem_after_blob(s, rem),
                )
            },
        ),
        Shape::Str => checked(
            s,
            rem,
            if !valid_utf8(read_bytes(s)) {
                (Err(Error::DeUtf8DecodeFail), after_blob(s), rem_after_blob(s, rem))
            } else {
                (Ok(Model::Str(decode_utf8(read_bytes(s)))), after_blob(s), rem_after_blob(s, rem))
            },
        ),
        Shape::Bytes => checked(
            s,
            rem,
            (Ok(Model::Bytes(read_bytes(s))), after_blob(s), rem_after_blob(s, rem)),
        ),
        Shape::Sequence(e) => if rem < 0 {
            (Err(Error::DeMsgTooLong), s, rem)
        } else {
            let (r, s2, rem2) = dec_rep(*e, read_bits(s, 4), drop_bits(s, 4), rem - 4);
            (
                match r {
                    Ok(ms) => Ok(Model::Sequence(ms)),
                    Err(x) => Err(x),
                },
                s2,
                rem2,
            )
        },
        Shape::Tuple(shs) => {
            let (r, s2, rem2) = dec_all(shs@, s, rem);
            (
                match r {
                    Ok(ms) => Ok(Model::Tuple(ms)),
                    Err(x) => Err(x),
                },
                s2,
                rem2,
            )
        },
        Shape::Opt(e) => checked(
            s,
            rem,
            if read_bits(s, 1) == 1 {
                let (r, s2, rem2) = dec(*e, drop_bits(s, 1), rem - 1);
                (
                    match r {
                        Ok(m) => Ok(Model::Opt(Some(Box::new(m)))),
                        Err(x) => Err(x),
                    },
                    s2,
                    rem2,
                )
            } else {
                (Ok(Model::Opt(None)), drop_bits(s, 1), rem - 1)
            },
        ),
        Shape::Enum { name, variants, payloads } => checked(
            s,
            rem,
            if read_bits(s, 4) < payloads.len() && read_bits(s, 4) < variants.len() {
                let t = read_bits(s, 4) as int;
                let (r, s2, rem2) = dec(payloads@[t], drop_bits(s, 4), rem - 4);
                (
                    match r {
                        Ok(m) => Ok(
                            Model::Variant {
                                name,
                                variant: variants@[t],
                                index: t as u32,
                                payload: Box::new(m),
                            },
                        ),
                        Err(x) => Err(x),
                    },
                    s2,
                    rem2,
                )
            } else {
                (Err(Error::DeCustom), drop_bits(s, 4), rem - 4)
            },
        ),
    }
}

/// Decoding `k` values of shape `e`, one after the other.
pub open spec fn dec_rep(e: Shape, k: nat, s: Seq<bool>, rem: int) -> Step<Seq<Model>>
    decreases e, k,
{
    if k == 0 {
        (Ok(Seq::empty()), s, rem)
    } else {
        let (r, s1, rem1) = dec_rep(e, (k - 1) as nat, s, rem);
        match r {
            Ok(ms) => {
                let (r2, s2, rem2) = dec(e, s1, rem1);
                match r2 {
                    Ok(m) => (Ok(ms.push(m)), s2, rem2),
                    Err(x) => (Err(x), s2, rem2),
                }
            },
            Err(x) => (Err(x), s1, rem1),
        }
    }
}

/// Decoding values of the shapes `shs`, one after the other.
pub open spec fn dec_all(shs: Seq<Shape>, s: Seq<bool>, rem: int) -> Step<Seq<Model>>
    decreases shs, 0nat,
{
    if shs.len() == 0 {
        (Ok(Seq::empty()), s, rem)
    } else {
        let (r, s1, rem1) = dec_all(shs.drop_last(), s, rem);
        match r {
            Ok(ms) => {
                let (r2, s2, rem2) = dec(shs.last(), s1, rem1);
                match r2 {
                    Ok(m) => (Ok(ms.push(m)), s2, rem2),
                    Err(x) => (Err(x), s2, rem2),
                }
            },
            Err(x) => (Err(x), s1, rem1),
        }
    }
}

/// What unpacking `bytes` as `sh` gives: the value, or the error met. A walk
/// that read past the input fails with `DeMsgTooLong` whatever else it met.
pub open spec fn decoding(sh: Shape, bytes: Seq<u8>) -> Result<Model, Error> {
    let s = unpack(bytes);
    let (r, s2, rem2) = dec(sh, s, s.len() as int);
    if rem2 < 0 {
        Err(Error::DeMsgTooLong)
    } else {
        r
    }
}

} // verus!

verus! {

proof fn lemma_dec_rep_err(e: Shape, k: nat, j: nat, s: Seq<bool>, rem: int)
    requires
        k <= j,
        dec_rep(e, k, s, rem).0 is Err,
    ensures
        dec_rep(e, j, s, rem) == dec_rep(e, k, s, rem),
    decreases j,
{
    if j > k {
        lemma_dec_rep_err(e, k, (j - 1) as nat, s, rem);
    }
}

proof fn lemma_dec_all_err(shs: Seq<Shape>, k: int, s: Seq<bool>, rem: int)
    requires
        0 <= k <= shs.len(),
        dec_all(shs.take(k), s, rem).0 is Err,
    ensures
        dec_all(shs, s, rem) == dec_all(shs.take(k), s, rem),
    decreases shs.len(),
{
    if k == shs.len() {
        assert(shs.take(k) =~= shs);
    } else {
        assert(shs.drop_last().take(k) =~= shs.take(k));
        lemma_dec_all_err(shs.drop_last(), k, s, rem);
    }
}

proof fn lemma_models_push(vs: Seq<Value>, v: Value)
    ensures
        models_of(vs.push(v)) == models_of(vs).push(model_of(v)),
{
    assert(vs.push(v).drop_last() =~= vs);
}

fn dec_value(de: &mut Deserializer, sh: &Shape) -> (r: Result<Value, Error>)
    requires
        old(de).wf(),
        old(de).rem() >= -128,
    ensures
        final(de).wf(),
        final(de).rem() >= -128,
        final(de).avail() == dec(*sh, old(de).avail(), old(de).rem()).1,
        final(de).rem() == dec(*sh, old(de).avail(), old(de).rem()).2,
        match dec(*sh, old(de).avail(), old(de).rem()).0 {
            Ok(m) => r matches Ok(v) && v@ == m,
            Err(e) => r == Err::<Value, Error>(e),
        },
    decreases sh,
{
    let ghost s = de.avail();
    let ghost rem = de.rem();
    proof {
        de.lemma_wf();
    }
    match sh {
        Shape::Unit => {
            return Ok(Value::Unit);
        },
        Shape::Tuple(shs) => {
            let n = shs.len();
            let mut out: Vec<Value> = Vec::new();
            let mut i: usize = 0;
            proof {
                assert(shs@.take(0) =~= Seq::<Shape>::empty());
                assert(models_of(out@) =~= Seq::<Model>::empty());
            }
            while i < n
                invariant
                    de.wf(),
                    de.rem() >= -128,
                    n == shs@.len(),
                    i <= n,
                    *sh == Shape::Tuple(*shs),
                    s == old(de).avail(),
                    rem == old(de).rem(),
                    dec_all(shs@.take(i as int), s, rem) == (
                        Ok::<Seq<Model>, Error>(models_of(out@)),
                        de.avail(),
                        de.rem(),
                    ),
                decreases n - i,
            {
                proof {
                    assert(shs@.take(i + 1).drop_last() =~= shs@.take(i as int));
                    assert(decreases_to!(shs => shs@[i as int]));
                }
                let ghost a0 = de.avail();
                let ghost r0 = de.rem();
                let x = dec_value(de, &shs[i]);
                match x {
                    Ok(v) => {
                        proof {
                            lemma_models_push(out@, v);
                        }
                        out.push(v);
                    },
                    Err(e) => {
                        proof {
                            assert(shs@.take(i + 1).last() == shs@[i as int]);
                            assert(dec(shs@[i as int], a0, r0).0 is Err);
                            assert(dec_all(shs@.take(i + 1), s, rem) == (
                                Err::<Seq<Model>, Error>(e),
                                de.avail(),
                                de.rem(),
                            ));
                            lemma_dec_all_err(shs@, i + 1, s, rem);
                        }
                        return Err(e);
                    },
                }
                i = i + 1;
            }
            proof {
                assert(shs@.take(n as int) =~= shs@);
            }
            return Ok(Value::Tuple(out));
        },
        _ => {},
    }
    if de.check_len().is_err() {
        return Err(Error::DeMsgTooLong);
    }
    proof {
        lemma_read_bits_bound(s, 4);
        lemma2_to64();
    }
    match sh {
        Shape::Bool => Ok(Value::Bool(de.dec_bool()?)),
        Shape::U8 => Ok(Value::U8(de.dec_u8()?)),
        Shape::I8 => {
            let b = de.dec_u8()?;
            Ok(Value::I8(#[verifier::truncate] (b as i8)))
        },
        Shape::U16 => Ok(Value::U16(de.dec_u16()?)),
        Shape::I16 => {
            let b = de.dec_u16()?;
            Ok(Value::I16(#[verifier::truncate] (b as i16)))
        },
        Shape::U32 => Ok(Value::U32(de.dec_u32()?)),
        Shape::I32 => {
            let b = de.dec_u32()?;
            Ok(Value::I32(#[verifier::truncate] (b as i32)))
        },
        Shape::U64 => Ok(Value::U64(de.dec_u64()?)),
        Shape::I64 => {
            let b = de.dec_u64()?;
            Ok(Value::I64(#[verifier::truncate] (b as i64)))
        },
        Shape::Char => {
            let st = de.dec_str()?;
            if st.as_str().unicode_len() == 0 {
                Err(Error::DeCharFail)
            } else {
                Ok(Value::Char(st.as_str().get_char(0)))
            }
        },
        Shape::Str => Ok(Value::Str(de.dec_str()?)),
        Shape::Bytes => Ok(Value::Bytes(de.dec_bytes()?)),
        Shape::Sequence(e) => {
            let n = de.dec_4bit()?;
            let ghost s1 = de.avail();
            let ghost rem1 = de.rem();
            let mut out: Vec<Value> = Vec::new();
            let mut i: usize = 0;
            proof {
                assert(models_of(out@) =~= Seq::<Model>::empty());
            }
            while i < n
                invariant
                    de.wf(),
                    de.rem() >= -128,
                    n == read_bits(s, 4),
                    i <= n,
                    *sh == Shape::Sequence(*e),
                    s == old(de).avail(),
                    rem == old(de).rem(),
                    rem >= 0,
                    s1 == drop_bits(s, 4),
                    rem1 == rem - 4,
                    dec_rep(**e, i as nat, s1, rem1) == (
                        Ok::<Seq<Model>, Error>(models_of(out@)),
                        de.avail(),
                        de.rem(),
                    ),
                decreases n - i,
            {
                let ghost a0 = de.avail();
                let ghost r0 = de.rem();
                let x = dec_value(de, e);
                match x {
                    Ok(v) => {
                        proof {
                            lemma_models_push(out@, v);
                        }
                        out.push(v);
                    },
                    Err(er) => {
                        proof {
                            assert(dec(**e, a0, r0).0 is Err);
                            assert(dec_rep(**e, (i + 1) as nat, s1, rem1) == (
                                Err::<Seq<Model>, Error>(er),
                                de.avail(),
                                de.rem(),
                            ));
                            lemma_dec_rep_err(**e, (i + 1) as nat, n as nat, s1, rem1);
                        }
                        return Err(er);
                    },
                }
                i = i + 1;
            }
            Ok(Value::Sequence(out))
        },
        Shape::Opt(e) => {
            let b = de.dec_bool()?;
            if b {
                let v = dec_value(de, e)?;
                Ok(Value::Opt(Some(Box::new(v))))
            } else {
                Ok(Value::Opt(None))
            }
        },
        Shape::Enum { name, variants, payloads } => {
            let t = de.dec_4bit()?;
            if t < payloads.len() && t < variants.len() {
                proof {
                    assert(decreases_to!(payloads => payloads@[t as int]));
                }
                let v = dec_value(de, &payloads[t])?;
                Ok(
                    Value::Variant {
                        name: *name,
                        variant: variants[t],
                        index: t as u32,
                        payload: Box::new(v),
                    },
                )
            } else {
                Err(Error::DeCustom)
            }
        },
        _ => Ok(Value::Unit),
    }
}

/// Unpacks a value of shape `sh` from the first eight bytes of `bytes` at most.
pub fn from_bytes(sh: &Shape, bytes: &[u8]) -> (r: Result<Value, Error>)
    ensures
        match decoding(*sh, bytes@) {
            Ok(m) => r matches Ok(v) && v@ == m,
            Err(e) => r == Err::<Value, Error>(e),
        },
{
    let mut de = Deserializer::from_bytes(bytes);
    let r = dec_value(&mut de, sh);
    if de.check_len().is_err() {
        return Err(Error::DeMsgTooLong);
    }
    r
}

} // verus!

verus! {

// ------------------------------------------------------------------ shapes of values

/// `m` is a value of shape `sh`.
pub open spec fn conforms(m: Model, sh: Shape) -> bool
    decreases m,
{
    match m {
        Model::Unit => sh is Unit,
        Model::Bool(_) => sh is Bool,
        Model::U8(_) => sh is U8,
        Model::I8(_) => sh is I8,
        Model::U16(_) => sh is U16,
        Model::I16(_) => sh is I16,
        Model::U32(_) => sh is U32,
        Model::I32(_) => sh is I32,
        Model::U64(_) => sh is U64,
        Model::I64(_) => sh is I64,
        Model::Char(_) => sh is Char,
        Model::Str(_) => sh is Str,
        Model::Bytes(_) => sh is Bytes,
        Model::Sequence(ms) => match sh {
            Shape::Sequence(e) => conforms_each(ms, *e),
            _ => false,
        },
        Model::Tuple(ms) => match sh {
            Shape::Tuple(shs) => conforms_all(ms, shs@),
            _ => false,
        },
        Model::Opt(o) => match sh {
            Shape::Opt(e) => match o {
                Option::None => true,
                Option::Some(b) => conforms(*b, *e),
            },
            _ => false,
        },
        Model::Variant { name, variant, index, payload } => match sh {
            Shape::Enum { name: n, variants, payloads } => {
                &&& name == n
                &&& index < payloads.len()
                &&& index < variants.len()
                &&& variants@[index as int] == variant
                &&& conforms(*payload, payloads@[index as int])
            },
            _ => false,
        },
    }
}

/// Every model in `ms` is of shape `e`.
pub open spec fn conforms_each(ms: Seq<Model>, e: Shape) -> bool
    decreases ms,
{
    if ms.len() == 0 {
        true
    } else {
        conforms_each(ms.drop_last(), e) && conforms(ms.last(), e)
    }
}

/// The models in `ms` are of the shapes in `shs`, one for one.
pub open spec fn conforms_all(ms: Seq<Model>, shs: Seq<Shape>) -> bool
    decreases ms,
{
    if ms.len() == 0 {
        shs.len() == 0
    } else {
        shs.len() == ms.len() && conforms_all(ms.drop_last(), shs.drop_last()) && conforms(
            ms.last(),
            shs.last(),
        )
    }
}

} // verus!
