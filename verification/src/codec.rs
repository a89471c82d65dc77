//! Pipeline orchestration: `compress` runs the run-length stage, appends the
//! end-of-stream sentinel and bit-packs the result; `decompress` unpacks
//! symbol by symbol until the sentinel and then run-length decodes.  The
//! round-trip law at the bottom ties the two together.
use crate::bits::{bytes_bits, lemma_unpack_stream, pack, padded, sym_stream, unpack, unpack_from};
use crate::rle::{
    is_tryte, lemma_rle_from_elems, lemma_rle_round_trip, lemma_rle_symbol_codes, rld_spec,
    rle_spec, run_length_decode, run_length_encode,
};
use crate::tables::{has_code, END_OF_DATA, MARKER1, MARKER2, MARKER3};
use crate::CompressError;
use vstd::prelude::*;

verus! {

/// Compresses a tryte sequence: run-length encode, append the sentinel, bit
/// pack.  Fails with `EmptyInput` on an empty sequence and with
/// `UnknownSymbol` when a byte outside the extended alphabet sneaks in.
pub fn compress(trytes: &Vec<u8>) -> (r: Result<Vec<u8>, CompressError>)
    ensures
        trytes@.len() == 0 ==> r == Err::<Vec<u8>, CompressError>(CompressError::EmptyInput),
        trytes@.len() > 0 && (forall|i: int|
            0 <= i < trytes@.len() ==> has_code(#[trigger] trytes@[i])) ==> r is Ok && bytes_bits(
            r->Ok_0@,
        ) == padded(sym_stream(rle_spec(trytes@).push(END_OF_DATA))),
        trytes@.len() > 0 && !(forall|i: int|
            0 <= i < trytes@.len() ==> has_code(#[trigger] trytes@[i])) ==> r == Err::<
            Vec<u8>,
            CompressError,
        >(CompressError::UnknownSymbol),
{
    let mut symbols = match run_length_encode(trytes) {
        Err(e) => {
            return Err(e);
        },
        Ok(v) => v,
    };
    symbols.push(END_OF_DATA);
    proof {
        let s = trytes@;
        let out = rle_spec(s);
        assert(symbols@ == out.push(END_OF_DATA));
        lemma_rle_symbol_codes();
        lemma_rle_from_elems(s, 0);
        assert(s.skip(0) =~= s);
        if forall|i: int| 0 <= i < s.len() ==> has_code(#[trigger] s[i]) {
            assert forall|k: int| 0 <= k < symbols@.len() implies has_code(
                #[trigger] symbols@[k],
            ) by {
                if k < out.len() {
                    assert(symbols@[k] == out[k]);
                    let x = out[k];
                    if s.contains(x) {
                        let w = choose|w: int| 0 <= w < s.len() && s[w] == x;
                        assert(has_code(s[w]));
                    }
                } else {
                    assert(symbols@[k] == END_OF_DATA);
                }
            }
        } else {
            let w = choose|w: int| 0 <= w < s.len() && !has_code(s[w]);
            assert(out.contains(s[w]));
            let k = choose|k: int| 0 <= k < out.len() && out[k] == s[w];
            assert(symbols@[k] == out[k]);
            assert(!has_code(symbols@[k]));
        }
    }
    pack(&symbols)
}

/// Decompresses a byte buffer: bit-unpack until the sentinel, then
/// run-length decode.  Fails with `TruncatedInput` when the bit stream ends
/// before a code or the sentinel resolves, and with `MalformedRunRecord`
/// when a run marker lacks the digits or literal it announces.
pub fn decompress(bytes: &Vec<u8>) -> (r: Result<Vec<u8>, CompressError>)
    ensures
        match unpack_from(bytes_bits(bytes@), 0) {
            None => r == Err::<Vec<u8>, CompressError>(CompressError::TruncatedInput),
            Some(syms) => match rld_spec(syms) {
                None => r == Err::<Vec<u8>, CompressError>(CompressError::MalformedRunRecord),
                Some(out) => r is Ok && r->Ok_0@ == out,
            },
        },
{
    let symbols = match unpack(bytes) {
        Err(e) => {
            return Err(e);
        },
        Ok(v) => v,
    };
    run_length_decode(&symbols)
}

/// Round trip: any compressed form of a non-empty tryte sequence (a byte
/// buffer whose bits are the packed run-length encoding plus sentinel, as
/// `compress` ensures) unpacks to that encoding, and the encoding decodes
/// back to the original sequence.  Together with the contracts of
/// `compress` and `decompress` this says `decompress(compress(x)) == Ok(x)`
/// for every non-empty `x` holding no reserved control value.
pub proof fn lemma_round_trip(trytes: Seq<u8>, compressed: Seq<u8>)
    requires
        trytes.len() > 0,
        forall|i: int| 0 <= i < trytes.len() ==> is_tryte(#[trigger] trytes[i]),
        bytes_bits(compressed) == padded(sym_stream(rle_spec(trytes).push(END_OF_DATA))),
    ensures
        unpack_from(bytes_bits(compressed), 0) == Some(rle_spec(trytes)),
        rld_spec(rle_spec(trytes)) == Some(trytes),
{
    let syms = rle_spec(trytes);
    lemma_rle_symbol_codes();
    lemma_rle_from_elems(trytes, 0);
    assert(trytes.skip(0) =~= trytes);
    assert forall|k: int| 0 <= k < syms.len() implies has_code(#[trigger] syms[k]) && syms[k]
        != END_OF_DATA by {
        let x = syms[k];
        if trytes.contains(x) {
            let w = choose|w: int| 0 <= w < trytes.len() && trytes[w] == x;
            assert(is_tryte(trytes[w]));
        }
    }
    assert forall|k: int| 0 <= k < trytes.len() implies #[trigger] trytes[k] != MARKER1 && trytes[k]
        != MARKER2 && trytes[k] != MARKER3 by {
        assert(is_tryte(trytes[k]));
    }
    lemma_rle_round_trip(trytes);
    let full = sym_stream(syms.push(END_OF_DATA));
    let bits = bytes_bits(compressed);
    assert(bits.subrange(0, full.len() as int) =~= full);
    lemma_unpack_stream(bits, 0, syms);
}

} // verus!
