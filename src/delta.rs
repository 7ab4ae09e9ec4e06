//! Delta transform: each byte is replaced by its difference from the byte
//! before it (the first from zero), modulo 256, as a signed value.
use vstd::prelude::*;

verus! {

/// The two's-complement reading of a byte.
pub open spec fn signed_of(b: u8) -> i8 {
    if b < 128 {
        b as i8
    } else {
        (b - 256) as i8
    }
}

/// The byte that holds a signed value in two's complement.
pub open spec fn byte_of(v: i8) -> u8 {
    if v >= 0 {
        v as u8
    } else {
        (v + 256) as u8
    }
}

/// `a - b` modulo 256.
pub open spec fn sub_mod(a: u8, b: u8) -> u8 {
    ((a - b) % 256) as u8
}

/// `a + b` modulo 256.
pub open spec fn add_mod(a: u8, b: u8) -> u8 {
    ((a + b) % 256) as u8
}

/// The predictor of position `i`: the byte before it, or zero at the start.
pub open spec fn predictor(x: Seq<u8>, i: int) -> u8 {
    if i == 0 {
        0
    } else {
        x[i - 1]
    }
}

/// The delta stream of `x`.
pub open spec fn delta_spec(x: Seq<u8>) -> Seq<i8> {
    Seq::new(x.len(), |i: int| signed_of(sub_mod(x[i], predictor(x, i))))
}

/// The bytes rebuilt from a delta stream, each from the one rebuilt before it.
pub open spec fn undelta_spec(d: Seq<i8>) -> Seq<u8>
    decreases d.len(),
{
    if d.len() == 0 {
        Seq::empty()
    } else {
        let prefix = undelta_spec(d.drop_last());
        prefix.push(add_mod(predictor(prefix, prefix.len() as int), byte_of(d.last())))
    }
}

/// Reading a byte as signed and writing it back gives the byte.
pub proof fn lemma_signed_byte(b: u8)
    ensures
        byte_of(signed_of(b)) == b,
{
}

/// Writing a signed value as a byte and reading it back gives the value.
pub proof fn lemma_byte_signed(v: i8)
    ensures
        signed_of(byte_of(v)) == v,
{
}

/// Converts a byte to the signed value with the same bits.
pub fn to_signed(b: u8) -> (r: i8)
    ensures
        r == signed_of(b),
{
    if b < 128 {
        b as i8
    } else {
        (b as i16 - 256) as i8
    }
}

/// Converts a signed value to the byte with the same bits.
pub fn to_byte(v: i8) -> (r: u8)
    ensures
        r == byte_of(v),
{
    if v >= 0 {
        v as u8
    } else {
        (v as i16 + 256) as u8
    }
}

/// Encodes `data` as its delta stream.
pub fn delta_encode(data: &[u8]) -> (r: Vec<i8>)
    ensures
        r@ == delta_spec(data@),
{
    let mut result: Vec<i8> = Vec::with_capacity(data.len());
    let mut prev: u8 = 0;
    let mut i: usize = 0;
    while i < data.len()
        invariant
            i <= data.len(),
            result@ == delta_spec(data@).subrange(0, i as int),
            prev == predictor(data@, i as int),
        decreases data.len() - i,
    {
        let byte = data[i];
        let diff = byte.wrapping_sub(prev);
        assert(diff == sub_mod(byte, prev));
        result.push(to_signed(diff));
        prev = byte;
        i += 1;
        assert(result@ =~= delta_spec(data@).subrange(0, i as int));
    }
    assert(result@ =~= delta_spec(data@));
    result
}

/// Rebuilds the bytes of a delta stream.
pub fn delta_decode(data: &[i8]) -> (r: Vec<u8>)
    ensures
        r@ == undelta_spec(data@),
{
    let mut result: Vec<u8> = Vec::with_capacity(data.len());
    let mut prev: u8 = 0;
    let mut i: usize = 0;
    while i < data.len()
        invariant
            i <= data.len(),
            result@ == undelta_spec(data@.subrange(0, i as int)),
            prev == predictor(result@, result@.len() as int),
        decreases data.len() - i,
    {
        let byte = prev.wrapping_add(to_byte(data[i]));
        assert(byte == add_mod(prev, byte_of(data@[i as int])));
        proof {
            let next = data@.subrange(0, i + 1);
            assert(next.drop_last() =~= data@.subrange(0, i as int));
        }
        result.push(byte);
        prev = byte;
        i += 1;
    }
    assert(data@.subrange(0, data.len() as int) =~= data@);
    result
}

/// The delta stream has one value per input byte.
pub proof fn lemma_delta_length(x: Seq<u8>)
    ensures
        delta_spec(x).len() == x.len(),
        undelta_spec(delta_spec(x)).len() == x.len(),
{
    lemma_delta_round_trip(x);
}

/// Rebuilding the delta stream of any byte sequence gives that sequence back.
pub proof fn lemma_delta_round_trip(x: Seq<u8>)
    ensures
        undelta_spec(delta_spec(x)) == x,
    decreases x.len(),
{
    if x.len() > 0 {
        let p = x.drop_last();
        lemma_delta_round_trip(p);
        assert(delta_spec(x).drop_last() =~= delta_spec(p));
        let n = x.len() - 1;
        let pred = predictor(x, n);
        assert(predictor(p, p.len() as int) == pred);
        let d = sub_mod(x[n], pred);
        lemma_signed_byte(d);
        assert(add_mod(pred, d) == x[n]);
        assert(undelta_spec(delta_spec(x)) =~= x);
    }
}

} // verus!
