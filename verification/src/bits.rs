//! The bit packer and unpacker: serializes Huffman codes into bytes, most
//! significant bit first within every code and every byte, and decodes them
//! back one stream bit at a time by probing the decode table with a growing
//! key until it matches.  The code is prefix-free, so the first match is the
//! only one and no lookahead is needed.
use crate::tables::{
    bit_at, bits_of, code_bits, code_len, code_seq, decode_attempt, decode_key, encode_of,
    has_code, key_val, lemma_key_val_inj, lemma_key_val_of_bits, lemma_key_val_of_code,
    lemma_table_facts, END_OF_DATA,
};
use crate::CompressError;
use vstd::arithmetic::div_mod::{lemma_fundamental_div_mod, lemma_mod_multiples_basic};
use vstd::arithmetic::power2::{lemma2_to64, lemma_pow2_unfold, pow2};
use vstd::prelude::*;

verus! {

/// The bits of one byte, most significant first: the order in which the
/// packer fills bytes and the unpacker reads them.
pub open spec fn byte_bits(b: u8) -> Seq<bool> {
    Seq::new(8, |i: int| bit_at(b, (7 - i) as nat))
}

/// The bit stream held by a byte buffer.
pub open spec fn bytes_bits(bs: Seq<u8>) -> Seq<bool>
    decreases bs.len(),
{
    if bs.len() == 0 {
        Seq::empty()
    } else {
        byte_bits(bs[0]) + bytes_bits(bs.skip(1))
    }
}

/// The concatenated Huffman codes of a symbol sequence.
pub open spec fn sym_stream(syms: Seq<u8>) -> Seq<bool>
    decreases syms.len(),
{
    if syms.len() == 0 {
        Seq::empty()
    } else {
        code_seq(syms[0]) + sym_stream(syms.skip(1))
    }
}

/// How many zero bits the packer appends to fill the last byte.
pub open spec fn pad_len(n: int) -> int {
    (8 - n % 8) % 8
}

/// A bit stream padded with zero bits to a whole number of bytes.
pub open spec fn padded(bits: Seq<bool>) -> Seq<bool> {
    bits + Seq::new(pad_len(bits.len() as int) as nat, |i: int| false)
}

/// The unpacker's probe loop: the first length `l` or more at which the bits
/// at `p` form a decodable key, with the decoded symbol.  `None` when the
/// stream runs out, or when eight bits match nothing.
pub open spec fn scan(bits: Seq<bool>, p: int, l: int) -> Option<(u8, int)>
    decreases 9 - l,
{
    if l > 8 || l < 1 || p < 0 || p + l > bits.len() {
        None
    } else {
        match decode_key(l as u8, key_val(bits, p, l) as u8) {
            Some(s) => Some((s, l)),
            None => scan(bits, p, l + 1),
        }
    }
}

/// Streaming decode of a bit stream from position `p`: symbols are decoded
/// one at a time until the end-of-stream sentinel, whose code and everything
/// after it (the padding) is discarded.  `None` means the stream ran out
/// before a code or the sentinel was found.
pub open spec fn unpack_from(bits: Seq<bool>, p: int) -> Option<Seq<u8>>
    decreases bits.len() - p,
{
    if p < 0 || p > bits.len() {
        None
    } else {
        match scan(bits, p, 1) {
            None => None,
            Some((s, l)) => if s == END_OF_DATA {
                Some(Seq::empty())
            } else if 1 <= l && p + l <= bits.len() {
                match unpack_from(bits, p + l) {
                    None => None,
                    Some(t) => Some(seq![s] + t),
                }
            } else {
                None
            },
        }
    }
}

/// Appending a byte appends its eight bits.
proof fn lemma_bytes_bits_push(bs: Seq<u8>, b: u8)
    ensures
        bytes_bits(bs.push(b)) == bytes_bits(bs) + byte_bits(b),
    decreases bs.len(),
{
    if bs.len() == 0 {
        assert(bs.push(b)[0] == b);
        assert(bs.push(b).skip(1) =~= Seq::<u8>::empty());
        assert(bytes_bits(Seq::<u8>::empty()) =~= Seq::<bool>::empty());
        assert(bytes_bits(bs.push(b)) == byte_bits(b) + bytes_bits(Seq::<u8>::empty()));
        assert(byte_bits(b) + Seq::<bool>::empty() =~= byte_bits(b));
        assert(bytes_bits(bs) + byte_bits(b) =~= byte_bits(b));
    } else {
        assert(bs.push(b).skip(1) =~= bs.skip(1).push(b));
        lemma_bytes_bits_push(bs.skip(1), b);
        assert(bs.push(b)[0] == bs[0]);
        assert(byte_bits(bs[0]) + (bytes_bits(bs.skip(1)) + byte_bits(b)) =~= (byte_bits(bs[0])
            + bytes_bits(bs.skip(1))) + byte_bits(b));
    }
}

/// Appending a symbol appends its code bits.
proof fn lemma_sym_stream_push(syms: Seq<u8>, x: u8)
    ensures
        sym_stream(syms.push(x)) == sym_stream(syms) + code_seq(x),
    decreases syms.len(),
{
    if syms.len() == 0 {
        assert(syms.push(x)[0] == x);
        assert(syms.push(x).skip(1) =~= Seq::<u8>::empty());
        assert(sym_stream(Seq::<u8>::empty()) =~= Seq::<bool>::empty());
        assert(sym_stream(syms.push(x)) == code_seq(x) + sym_stream(Seq::<u8>::empty()));
        assert(code_seq(x) + Seq::<bool>::empty() =~= code_seq(x));
        assert(sym_stream(syms) + code_seq(x) =~= code_seq(x));
    } else {
        assert(syms.push(x).skip(1) =~= syms.skip(1).push(x));
        lemma_sym_stream_push(syms.skip(1), x);
        assert(syms.push(x)[0] == syms[0]);
        assert(code_seq(syms[0]) + (sym_stream(syms.skip(1)) + code_seq(x)) =~= (code_seq(syms[0])
            + sym_stream(syms.skip(1))) + code_seq(x));
    }
}

/// An accumulated key stays below `pow2` of its bit count.
proof fn lemma_key_val_bound(bits: Seq<bool>, p: int, l: int)
    requires
        0 <= l,
    ensures
        key_val(bits, p, l) < pow2(l as nat),
    decreases l,
{
    lemma2_to64();
    if l == 0 {
    } else {
        lemma_key_val_bound(bits, p, l - 1);
        lemma_pow2_unfold(l as nat);
    }
}

/// Testing one extracted bit agrees with the spec-level `bit_at`.
proof fn lemma_shr_and1(b: u8, k: u8)
    requires
        k < 8,
    ensures
        ((b >> k) & 1 == 1) == bit_at(b, k as nat),
{
    vstd::bits::lemma_u8_shr_is_div(b, k);
    vstd::bits::lemma_u8_low_bits_mask_is_mod(b >> k, 1);
    vstd::bits::lemma_low_bits_mask_values();
    lemma2_to64();
}

/// Unrolls a byte buffer into its bit stream, most significant bit of each
/// byte first.
fn bytes_to_bits(bytes: &Vec<u8>) -> (r: Vec<bool>)
    ensures
        r@ == bytes_bits(bytes@),
{
    let mut r: Vec<bool> = Vec::new();
    let mut i: usize = 0;
    proof {
        assert(bytes@.take(0) =~= Seq::<u8>::empty());
    }
    while i < bytes.len()
        invariant
            i <= bytes@.len(),
            r@ == bytes_bits(bytes@.take(i as int)),
        decreases bytes@.len() - i,
    {
        let b = bytes[i];
        let ghost pre = r@;
        let mut k: u8 = 0;
        proof {
            assert(pre + byte_bits(b).take(0) =~= pre);
        }
        while k < 8
            invariant
                k <= 8,
                b == bytes@[i as int],
                i < bytes@.len(),
                pre == bytes_bits(bytes@.take(i as int)),
                r@ == pre + byte_bits(b).take(k as int),
            decreases 8 - k,
        {
            let bit = ((b >> (7 - k)) & 1) == 1;
            proof {
                lemma_shr_and1(b, (7 - k) as u8);
                assert(byte_bits(b)[k as int] == bit_at(b, (7 - k) as nat));
                assert(pre + byte_bits(b).take(k + 1) =~= (pre + byte_bits(b).take(k as int)).push(
                    byte_bits(b)[k as int],
                ));
            }
            r.push(bit);
            k = k + 1;
        }
        proof {
            assert(byte_bits(b).take(8) =~= byte_bits(b));
            lemma_bytes_bits_push(bytes@.take(i as int), b);
            assert(bytes@.take(i + 1) =~= bytes@.take(i as int).push(b));
        }
        i = i + 1;
    }
    proof {
        assert(bytes@.take(bytes@.len() as int) =~= bytes@);
    }
    r
}

/// Folds a bit stream of whole bytes back into a byte buffer.
fn bits_to_bytes(bits: &Vec<bool>) -> (r: Vec<u8>)
    requires
        bits@.len() % 8 == 0,
    ensures
        bytes_bits(r@) == bits@,
{
    let n = bits.len();
    let nb = n / 8;
    let mut r: Vec<u8> = Vec::new();
    let mut i: usize = 0;
    proof {
        assert(bits@.take(0) =~= Seq::<bool>::empty());
        lemma_fundamental_div_mod(bits@.len() as int, 8);
    }
    while i < nb
        invariant
            i <= nb,
            n == bits@.len(),
            nb == bits@.len() / 8,
            8 * nb == bits@.len(),
            bytes_bits(r@) == bits@.take(8 * i),
        decreases nb - i,
    {
        let mut acc: u8 = 0;
        let mut k: usize = 0;
        while k < 8
            invariant
                k <= 8,
                i < nb,
                n == bits@.len(),
                nb == bits@.len() / 8,
                8 * nb == bits@.len(),
                acc as nat == key_val(bits@, 8 * i, k as int),
            decreases 8 - k,
        {
            let bitv = bits[8 * i + k];
            proof {
                lemma_key_val_bound(bits@, 8 * i, k as int);
                lemma2_to64();
                if (k as nat) < 7 {
                    vstd::arithmetic::power2::lemma_pow2_strictly_increases(k as nat, 7);
                }
                assert(acc < 128);
            }
            acc = if bitv {
                2 * acc + 1
            } else {
                2 * acc
            };
            k = k + 1;
        }
        proof {
            lemma2_to64();
            lemma_key_val_bound(bits@, 8 * i, 8);
            assert(byte_bits(acc).subrange(0, 8) =~= bits_of(acc, 8));
            lemma_key_val_of_bits(acc, 8, byte_bits(acc), 0, 8);
            assert(acc as nat / pow2(0) == acc as nat);
            lemma_key_val_inj(byte_bits(acc), 0, bits@, 8 * i, 8);
            assert(byte_bits(acc) =~= byte_bits(acc).subrange(0, 8));
            assert(byte_bits(acc) == bits@.subrange(8 * i, 8 * i + 8));
            lemma_bytes_bits_push(r@, acc);
            assert(bits@.take(8 * i) + bits@.subrange(8 * i, 8 * i + 8) =~= bits@.take(
                8 * (i + 1),
            ));
        }
        r.push(acc);
        i = i + 1;
    }
    proof {
        assert(bits@.take(8 * (nb as int)) =~= bits@);
    }
    r
}

/// Packs a symbol sequence: each symbol's code is appended most significant
/// bit first, and the last byte is padded with zero bits.  Fails with
/// `UnknownSymbol` when a symbol has no Huffman code.
pub fn pack(symbols: &Vec<u8>) -> (r: Result<Vec<u8>, CompressError>)
    ensures
        (forall|i: int| 0 <= i < symbols@.len() ==> has_code(#[trigger] symbols@[i])) ==> (r is Ok
            && bytes_bits(r->Ok_0@) == padded(sym_stream(symbols@))),
        !(forall|i: int| 0 <= i < symbols@.len() ==> has_code(#[trigger] symbols@[i])) ==> r
            == Err::<Vec<u8>, CompressError>(CompressError::UnknownSymbol),
{
    let mut bits: Vec<bool> = Vec::new();
    let mut i: usize = 0;
    proof {
        assert(symbols@.take(0) =~= Seq::<u8>::empty());
    }
    while i < symbols.len()
        invariant
            i <= symbols@.len(),
            forall|j: int| 0 <= j < i ==> has_code(#[trigger] symbols@[j]),
            bits@ == sym_stream(symbols@.take(i as int)),
        decreases symbols@.len() - i,
    {
        let sym = symbols[i];
        match encode_of(sym) {
            Err(_) => {
                proof {
                    assert(!has_code(symbols@[i as int]));
                }
                return Err(CompressError::UnknownSymbol);
            },
            Ok((cb, cl)) => {
                proof {
                    lemma_table_facts();
                }
                let ghost pre = bits@;
                let mut k: u8 = 0;
                proof {
                    assert(pre + code_seq(sym).take(0) =~= pre);
                }
                while k < cl
                    invariant
                        has_code(sym),
                        cb == crate::tables::code_bits(sym),
                        cl == code_len(sym),
                        cl <= 8,
                        k <= cl,
                        bits@ == pre + code_seq(sym).take(k as int),
                    decreases cl - k,
                {
                    let bit = ((cb >> (cl - 1 - k)) & 1) == 1;
                    proof {
                        lemma_shr_and1(cb, (cl - 1 - k) as u8);
                        assert(code_seq(sym)[k as int] == bit_at(cb, (cl - 1 - k) as nat));
                        assert(pre + code_seq(sym).take(k + 1) =~= (pre + code_seq(sym).take(
                            k as int,
                        )).push(code_seq(sym)[k as int]));
                    }
                    bits.push(bit);
                    k = k + 1;
                }
                proof {
                    assert(code_seq(sym).take(code_len(sym) as int) =~= code_seq(sym));
                    lemma_sym_stream_push(symbols@.take(i as int), sym);
                    assert(symbols@.take(i + 1) =~= symbols@.take(i as int).push(sym));
                }
            },
        }
        i = i + 1;
    }
    proof {
        assert(symbols@.take(symbols@.len() as int) =~= symbols@);
    }
    let ghost stream = sym_stream(symbols@);
    let pad = (8 - (bits.len() % 8)) % 8;
    let mut p: usize = 0;
    proof {
        assert(bits@ + Seq::new(0, |j: int| false) =~= bits@);
    }
    while p < pad
        invariant
            p <= pad,
            pad == pad_len(stream.len() as int),
            bits@ == stream + Seq::new(p as nat, |j: int| false),
        decreases pad - p,
    {
        proof {
            assert(stream + Seq::new((p + 1) as nat, |j: int| false) =~= (stream + Seq::new(
                p as nat,
                |j: int| false,
            )).push(false));
        }
        bits.push(false);
        p = p + 1;
    }
    proof {
        assert(bits@ == padded(stream));
        lemma_fundamental_div_mod(stream.len() as int, 8);
        lemma_mod_multiples_basic(stream.len() as int / 8 + 1, 8);
        lemma_mod_multiples_basic(stream.len() as int / 8, 8);
        assert(bits@.len() % 8 == 0);
    }
    let out = bits_to_bytes(&bits);
    Ok(out)
}

/// Reads one symbol from the bit stream at `p` by growing a key bit by bit
/// and probing the decode table at each length, exactly as `scan` describes.
fn scan_one(bits: &Vec<bool>, p: usize) -> (r: Option<(u8, usize)>)
    requires
        p <= bits@.len(),
    ensures
        r is None ==> scan(bits@, p as int, 1) is None,
        r is Some ==> {
            &&& scan(bits@, p as int, 1) == Some((r->Some_0.0, r->Some_0.1 as int))
            &&& p + r->Some_0.1 <= bits@.len()
            &&& 1 <= r->Some_0.1 <= 8
        },
{
    let n = bits.len();
    let mut key: u8 = 0;
    let mut klen: usize = 0;
    while klen < 8
        invariant
            n == bits@.len(),
            klen <= 8,
            p + klen <= bits@.len(),
            key as nat == key_val(bits@, p as int, klen as int),
            scan(bits@, p as int, 1) == scan(bits@, p as int, klen as int + 1),
        decreases 8 - klen,
    {
        if p + klen >= n {
            return None;
        }
        let bitv = bits[p + klen];
        proof {
            lemma_key_val_bound(bits@, p as int, klen as int);
            lemma2_to64();
            if (klen as nat) < 7 {
                vstd::arithmetic::power2::lemma_pow2_strictly_increases(klen as nat, 7);
            }
            assert(key < 128);
        }
        key = if bitv {
            2 * key + 1
        } else {
            2 * key
        };
        klen = klen + 1;
        match decode_attempt(key, klen as u8) {
            Some(s) => {
                return Some((s, klen));
            },
            None => {
            },
        }
    }
    None
}

/// When the bits at `p` start with the code of `s`, the probe loop finds no
/// match while the code is incomplete (no code is a prefix of another), and
/// resolves to `s` exactly at the code's length.
proof fn lemma_scan_from(bits: Seq<bool>, p: int, s: u8, l: int)
    requires
        has_code(s),
        0 <= p,
        p + code_len(s) <= bits.len(),
        bits.subrange(p, p + code_len(s)) == code_seq(s),
        1 <= l <= code_len(s),
    ensures
        scan(bits, p, l) == Some((s, code_len(s) as int)),
    decreases code_len(s) - l,
{
    lemma_table_facts();
    lemma2_to64();
    let n = code_len(s) as int;
    lemma_key_val_of_code(s, bits, p, l);
    lemma_key_val_bound(bits, p, l);
    if (l as nat) < 8 {
        vstd::arithmetic::power2::lemma_pow2_strictly_increases(l as nat, 8);
    }
    assert(key_val(bits, p, l) < 256);
    if l == n {
        assert(key_val(bits, p, l) == code_bits(s) as nat / pow2(0));
        assert(key_val(bits, p, l) as u8 == code_bits(s));
        assert(decode_key(l as u8, key_val(bits, p, l) as u8) == Some(s));
    } else {
        assert(key_val(bits, p, l) as u8 == crate::tables::key_prefix(s, l));
        assert(decode_key(l as u8, crate::tables::key_prefix(s, l)) is None);
        lemma_scan_from(bits, p, s, l + 1);
    }
}

/// Streaming decode inverts packing: a bit stream that starts at `p` with
/// the codes of `syms` followed by the sentinel's code decodes to exactly
/// `syms`, whatever bits (padding or anything else) follow the sentinel.
pub proof fn lemma_unpack_stream(bits: Seq<bool>, p: int, syms: Seq<u8>)
    requires
        0 <= p <= bits.len(),
        forall|i: int|
            0 <= i < syms.len() ==> has_code(#[trigger] syms[i]) && syms[i] != END_OF_DATA,
        p + sym_stream(syms.push(END_OF_DATA)).len() <= bits.len(),
        bits.subrange(p, p + sym_stream(syms.push(END_OF_DATA)).len() as int) == sym_stream(
            syms.push(END_OF_DATA),
        ),
    ensures
        unpack_from(bits, p) == Some(syms),
    decreases syms.len(),
{
    lemma_table_facts();
    let full = sym_stream(syms.push(END_OF_DATA));
    if syms.len() == 0 {
        assert(syms.push(END_OF_DATA)[0] == END_OF_DATA);
        assert(syms.push(END_OF_DATA).skip(1) =~= Seq::<u8>::empty());
        assert(sym_stream(Seq::<u8>::empty()) =~= Seq::<bool>::empty());
        assert(full == code_seq(END_OF_DATA) + sym_stream(Seq::<u8>::empty()));
        assert(full =~= code_seq(END_OF_DATA));
        lemma_scan_from(bits, p, END_OF_DATA, 1);
        assert(syms =~= Seq::<u8>::empty());
    } else {
        let s0 = syms[0];
        let rest = syms.skip(1);
        assert(has_code(s0) && s0 != END_OF_DATA);
        assert(syms.push(END_OF_DATA)[0] == s0);
        assert(syms.push(END_OF_DATA).skip(1) =~= rest.push(END_OF_DATA));
        let tailstream = sym_stream(rest.push(END_OF_DATA));
        assert(full == code_seq(s0) + tailstream);
        let n = code_len(s0) as int;
        assert(code_seq(s0).len() == n);
        assert(bits.subrange(p, p + n) =~= code_seq(s0));
        assert(bits.subrange(p, p + full.len() as int).subrange(n, full.len() as int)
            =~= bits.subrange(p + n, p + full.len() as int));
        assert(full.subrange(n, full.len() as int) =~= tailstream);
        assert(bits.subrange(p + n, p + full.len()) == tailstream);
        lemma_scan_from(bits, p, s0, 1);
        assert forall|i: int| 0 <= i < rest.len() implies has_code(#[trigger] rest[i]) && rest[i]
            != END_OF_DATA by {
            assert(rest[i] == syms[i + 1]);
        }
        lemma_unpack_stream(bits, p + n, rest);
        assert(seq![s0] + rest =~= syms);
    }
}

/// Unpacks a byte buffer: symbols are decoded bit by bit until the
/// end-of-stream sentinel, which is consumed and dropped.  Fails with
/// `TruncatedInput` when the stream ends before a code or the sentinel
/// resolves.
pub fn unpack(bytes: &Vec<u8>) -> (r: Result<Vec<u8>, CompressError>)
    ensures
        match unpack_from(bytes_bits(bytes@), 0) {
            Some(syms) => r is Ok && r->Ok_0@ == syms,
            None => r == Err::<Vec<u8>, CompressError>(CompressError::TruncatedInput),
        },
{
    let bits = bytes_to_bits(bytes);
    let ghost b = bits@;
    let n = bits.len();
    let mut out: Vec<u8> = Vec::new();
    let mut p: usize = 0;
    proof {
        if unpack_from(b, 0) is Some {
            assert(Seq::<u8>::empty() + unpack_from(b, 0)->Some_0 =~= unpack_from(b, 0)->Some_0);
        }
    }
    loop
        invariant
            b == bits@,
            b == bytes_bits(bytes@),
            n == b.len(),
            p <= b.len(),
            match unpack_from(b, p as int) {
                Some(t) => unpack_from(b, 0) == Some(out@ + t),
                None => unpack_from(b, 0) is None,
            },
        decreases b.len() - p,
    {
        match scan_one(&bits, p) {
            None => {
                return Err(CompressError::TruncatedInput);
            },
            Some((s, l)) => {
                if s == END_OF_DATA {
                    proof {
                        assert(out@ + Seq::<u8>::empty() =~= out@);
                    }
                    return Ok(out);
                }
                let ghost pre = out@;
                out.push(s);
                proof {
                    if unpack_from(b, p + l) is Some {
                        let t = unpack_from(b, p + l)->Some_0;
                        assert(pre + (seq![s] + t) =~= pre.push(s) + t);
                    }
                }
                p = p + l;
            },
        }
    }
}

} // verus!
