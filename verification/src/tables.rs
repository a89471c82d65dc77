//! Static codec tables: the Huffman code over the extended alphabet and the
//! proofs that the decode table inverts the encode table and that the code is
//! prefix-free.
//!
//! The extended alphabet holds 31 symbols, all disjoint byte values: the 27
//! trytes ('9' = 57 and 'A'..'Z' = 65..90), the three run markers ('1' = 49,
//! '2' = 50, '3' = 51) and the end-of-stream sentinel ('_' = 95).
use crate::CompressError;
use vstd::arithmetic::div_mod::{lemma_div_denominator, lemma_multiply_divide_lt};
use vstd::arithmetic::power2::{lemma2_to64, lemma_pow2_pos, lemma_pow2_unfold, pow2};
use vstd::prelude::*;

verus! {

/// Marker declaring that one base-27 digit follows in a run record.
pub const MARKER1: u8 = 49;

/// Marker declaring that two base-27 digits follow in a run record.
pub const MARKER2: u8 = 50;

/// Marker declaring that three base-27 digits follow in a run record.
pub const MARKER3: u8 = 51;

/// End-of-stream sentinel appended before bit packing.
pub const END_OF_DATA: u8 = 95;

/// Length in bits of the Huffman code for `s`, or 0 when `s` is outside the
/// extended alphabet.  All real codes are 4 to 8 bits long.
pub open spec fn code_len(s: u8) -> u8 {
    match s {
        65u8 => 4,
        66u8 => 5,
        67u8 => 4,
        68u8 => 5,
        69u8 => 5,
        70u8 => 5,
        71u8 => 5,
        72u8 => 5,
        73u8 => 5,
        74u8 => 5,
        75u8 => 5,
        76u8 => 5,
        77u8 => 5,
        78u8 => 5,
        79u8 => 5,
        80u8 => 5,
        81u8 => 5,
        82u8 => 5,
        83u8 => 4,
        84u8 => 5,
        85u8 => 5,
        86u8 => 5,
        87u8 => 5,
        88u8 => 5,
        89u8 => 5,
        90u8 => 5,
        57u8 => 4,
        49u8 => 6,
        50u8 => 7,
        51u8 => 8,
        95u8 => 8,
        _ => 0,
    }
}

/// The Huffman code for `s`, held in the low `code_len(s)` bits, most
/// significant code bit first.
pub open spec fn code_bits(s: u8) -> u8 {
    match s {
        65u8 => 0b0100,
        66u8 => 0b11110,
        67u8 => 0b0001,
        68u8 => 0b11111,
        69u8 => 0b11101,
        70u8 => 0b11100,
        71u8 => 0b10010,
        72u8 => 0b11000,
        73u8 => 0b10111,
        74u8 => 0b10000,
        75u8 => 0b10001,
        76u8 => 0b10011,
        77u8 => 0b00001,
        78u8 => 0b11001,
        79u8 => 0b10101,
        80u8 => 0b11011,
        81u8 => 0b01010,
        82u8 => 0b11010,
        83u8 => 0b0010,
        84u8 => 0b10100,
        85u8 => 0b01011,
        86u8 => 0b01111,
        87u8 => 0b10110,
        88u8 => 0b01101,
        89u8 => 0b01100,
        90u8 => 0b01110,
        57u8 => 0b0011,
        49u8 => 0b000001,
        50u8 => 0b0000001,
        51u8 => 0b00000001,
        95u8 => 0b00000000,
        _ => 0,
    }
}

/// True when `s` belongs to the extended alphabet and so has a Huffman code.
pub open spec fn has_code(s: u8) -> bool {
    code_len(s) != 0
}

/// The decode table: the symbol whose `len`-bit code equals `key`, if any.
pub open spec fn decode_key(len: u8, key: u8) -> Option<u8> {
    match len {
        4u8 => match key {
            0b0100u8 => Some(65u8),
            0b0001u8 => Some(67u8),
            0b0010u8 => Some(83u8),
            0b0011u8 => Some(57u8),
            _ => None,
        },
        5u8 => match key {
            0b11110u8 => Some(66u8),
            0b11111u8 => Some(68u8),
            0b11101u8 => Some(69u8),
            0b11100u8 => Some(70u8),
            0b10010u8 => Some(71u8),
            0b11000u8 => Some(72u8),
            0b10111u8 => Some(73u8),
            0b10000u8 => Some(74u8),
            0b10001u8 => Some(75u8),
            0b10011u8 => Some(76u8),
            0b00001u8 => Some(77u8),
            0b11001u8 => Some(78u8),
            0b10101u8 => Some(79u8),
            0b11011u8 => Some(80u8),
            0b01010u8 => Some(81u8),
            0b11010u8 => Some(82u8),
            0b10100u8 => Some(84u8),
            0b01011u8 => Some(85u8),
            0b01111u8 => Some(86u8),
            0b10110u8 => Some(87u8),
            0b01101u8 => Some(88u8),
            0b01100u8 => Some(89u8),
            0b01110u8 => Some(90u8),
            _ => None,
        },
        6u8 => if key == 0b000001u8 {
            Some(49u8)
        } else {
            None
        },
        7u8 => if key == 0b0000001u8 {
            Some(50u8)
        } else {
            None
        },
        8u8 => match key {
            0b00000001u8 => Some(51u8),
            0b00000000u8 => Some(95u8),
            _ => None,
        },
        _ => None,
    }
}

/// Bit `pos` of `bits`, counting from the least significant end.
pub open spec fn bit_at(bits: u8, pos: nat) -> bool {
    (bits as nat / pow2(pos)) % 2 == 1
}

/// The low `n` bits of `x` as a sequence, most significant first.
pub open spec fn bits_of(x: u8, n: int) -> Seq<bool> {
    Seq::new(n as nat, |i: int| bit_at(x, (n - 1 - i) as nat))
}

/// The code of `s` as a bit sequence, most significant code bit first: the
/// order in which the packer emits it.
pub open spec fn code_seq(s: u8) -> Seq<bool> {
    bits_of(code_bits(s), code_len(s) as int)
}

/// The value of the first `l` code bits of `s`, read as an integer key.
pub open spec fn key_prefix(s: u8, l: int) -> u8 {
    (code_bits(s) as nat / pow2((code_len(s) - l) as nat)) as u8
}

/// The integer key built from `l` bits of `bits` starting at `p`, first bit
/// most significant: exactly the key the unpacker accumulates while probing.
pub open spec fn key_val(bits: Seq<bool>, p: int, l: int) -> nat
    decreases l,
{
    if l <= 0 {
        0
    } else {
        2 * key_val(bits, p, l - 1) + (if bits[p + l - 1] {
            1nat
        } else {
            0nat
        })
    }
}

/// Looks up the Huffman code of one extended-alphabet symbol.
/// Fails with `UnknownSymbol` outside the alphabet; that never happens for a
/// well-formed extended symbol sequence.
pub fn encode_of(symbol: u8) -> (r: Result<(u8, u8), CompressError>)
    ensures
        has_code(symbol) ==> r == Ok::<(u8, u8), CompressError>(
            (code_bits(symbol), code_len(symbol)),
        ),
        !has_code(symbol) ==> r == Err::<(u8, u8), CompressError>(CompressError::UnknownSymbol),
{
    match symbol {
        65u8 => Ok((0b0100, 4)),
        66u8 => Ok((0b11110, 5)),
        67u8 => Ok((0b0001, 4)),
        68u8 => Ok((0b11111, 5)),
        69u8 => Ok((0b11101, 5)),
        70u8 => Ok((0b11100, 5)),
        71u8 => Ok((0b10010, 5)),
        72u8 => Ok((0b11000, 5)),
        73u8 => Ok((0b10111, 5)),
        74u8 => Ok((0b10000, 5)),
        75u8 => Ok((0b10001, 5)),
        76u8 => Ok((0b10011, 5)),
        77u8 => Ok((0b00001, 5)),
        78u8 => Ok((0b11001, 5)),
        79u8 => Ok((0b10101, 5)),
        80u8 => Ok((0b11011, 5)),
        81u8 => Ok((0b01010, 5)),
        82u8 => Ok((0b11010, 5)),
        83u8 => Ok((0b0010, 4)),
        84u8 => Ok((0b10100, 5)),
        85u8 => Ok((0b01011, 5)),
        86u8 => Ok((0b01111, 5)),
        87u8 => Ok((0b10110, 5)),
        88u8 => Ok((0b01101, 5)),
        89u8 => Ok((0b01100, 5)),
        90u8 => Ok((0b01110, 5)),
        57u8 => Ok((0b0011, 4)),
        49u8 => Ok((0b000001, 6)),
        50u8 => Ok((0b0000001, 7)),
        51u8 => Ok((0b00000001, 8)),
        95u8 => Ok((0b00000000, 8)),
        _ => Err(CompressError::UnknownSymbol),
    }
}

/// True when every `l'`-bit prefix of the code of `s`, for `1 <= l' <= l`,
/// matches nothing in the decode table: probing while a code is still
/// incomplete cannot return a symbol.
pub open spec fn prefix_keys_free(s: u8, l: int) -> bool
    decreases l,
{
    if l <= 0 {
        true
    } else {
        decode_key(l as u8, key_prefix(s, l)) is None && prefix_keys_free(s, l - 1)
    }
}

/// One symbol's table entry is well formed: its length is 4 to 8 bits, its
/// code fits in that many bits, the decode table maps the full code back to
/// the symbol, and no proper prefix of the code decodes to anything.
pub open spec fn sym_ok(s: u8) -> bool {
    has_code(s) ==> {
        &&& 4 <= code_len(s) <= 8
        &&& (code_bits(s) as nat) < pow2(code_len(s) as nat)
        &&& decode_key(code_len(s), code_bits(s)) == Some(s)
        &&& prefix_keys_free(s, code_len(s) - 1)
    }
}

proof fn lemma_prefix_keys_free_unfold(s: u8, hi: int, l: int)
    requires
        prefix_keys_free(s, hi),
        1 <= l <= hi,
    ensures
        decode_key(l as u8, key_prefix(s, l)) is None,
    decreases hi,
{
    if l < hi {
        lemma_prefix_keys_free_unfold(s, hi - 1, l);
    }
}

/// The facts that make streaming decode work, checked by computation over
/// every byte value: every code is 4 to 8 bits, fits its length, is found in
/// the decode table, and none of its proper prefixes decodes to anything.
#[verifier::rlimit(100)]
#[verifier::spinoff_prover]
pub proof fn lemma_table_facts()
    ensures
        forall|s: u8| #[trigger] has_code(s) ==> 4 <= code_len(s) <= 8,
        forall|s: u8| #[trigger] has_code(s) ==> (code_bits(s) as nat) < pow2(code_len(s) as nat),
        forall|s: u8| #[trigger] has_code(s) ==> decode_key(code_len(s), code_bits(s)) == Some(s),
        forall|s: u8, l: int|
            has_code(s) && 1 <= l < code_len(s) ==> #[trigger] decode_key(
                l as u8,
                key_prefix(s, l),
            ) is None,
{
    lemma2_to64();
    reveal_with_fuel(prefix_keys_free, 9);
    assert(sym_ok(65u8));
    assert(sym_ok(66u8));
    assert(sym_ok(67u8));
    assert(sym_ok(68u8));
    assert(sym_ok(69u8));
    assert(sym_ok(70u8));
    assert(sym_ok(71u8));
    assert(sym_ok(72u8));
    assert(sym_ok(73u8));
    assert(sym_ok(74u8));
    assert(sym_ok(75u8));
    assert(sym_ok(76u8));
    assert(sym_ok(77u8));
    assert(sym_ok(78u8));
    assert(sym_ok(79u8));
    assert(sym_ok(80u8));
    assert(sym_ok(81u8));
    assert(sym_ok(82u8));
    assert(sym_ok(83u8));
    assert(sym_ok(84u8));
    assert(sym_ok(85u8));
    assert(sym_ok(86u8));
    assert(sym_ok(87u8));
    assert(sym_ok(88u8));
    assert(sym_ok(89u8));
    assert(sym_ok(90u8));
    assert(sym_ok(57u8));
    assert(sym_ok(49u8));
    assert(sym_ok(50u8));
    assert(sym_ok(51u8));
    assert(sym_ok(95u8));
    assert forall|s: u8| #[trigger] has_code(s) implies sym_ok(s) by {}
    assert forall|s: u8, l: int| has_code(s) && 1 <= l < code_len(s) implies #[trigger] decode_key(
        l as u8,
        key_prefix(s, l),
    ) is None by {
        assert(sym_ok(s));
        lemma_prefix_keys_free_unfold(s, code_len(s) - 1, l);
    }
}

/// The key built from a window of bits depends only on the bits in the
/// window.
pub proof fn lemma_key_val_congruence(b1: Seq<bool>, p1: int, b2: Seq<bool>, p2: int, l: int)
    requires
        0 <= p1,
        0 <= p2,
        0 <= l,
        p1 + l <= b1.len(),
        p2 + l <= b2.len(),
        b1.subrange(p1, p1 + l) == b2.subrange(p2, p2 + l),
    ensures
        key_val(b1, p1, l) == key_val(b2, p2, l),
    decreases l,
{
    if l > 0 {
        assert(b1.subrange(p1, p1 + l - 1) =~= b1.subrange(p1, p1 + l).take(l - 1));
        assert(b2.subrange(p2, p2 + l - 1) =~= b2.subrange(p2, p2 + l).take(l - 1));
        lemma_key_val_congruence(b1, p1, b2, p2, l - 1);
        assert(b1[p1 + l - 1] == b1.subrange(p1, p1 + l)[l - 1]);
        assert(b2[p2 + l - 1] == b2.subrange(p2, p2 + l)[l - 1]);
    }
}

/// Accumulating the first `l` of `n` laid-out bits of `x` yields exactly
/// `x` shifted down past its remaining `n - l` bits.
pub proof fn lemma_key_val_of_bits(x: u8, n: int, bits: Seq<bool>, p: int, l: int)
    requires
        1 <= n <= 8,
        (x as nat) < pow2(n as nat),
        0 <= p,
        p + n <= bits.len(),
        bits.subrange(p, p + n) == bits_of(x, n),
        1 <= l <= n,
    ensures
        key_val(bits, p, l) == x as nat / pow2((n - l) as nat),
    decreases l,
{
    let c = x as nat;
    let k = (n - l) as nat;
    lemma_pow2_pos(k);
    assert(bits[p + l - 1] == bits.subrange(p, p + n)[l - 1]);
    assert(bits[p + l - 1] == bits_of(x, n)[l - 1]);
    assert(bits_of(x, n)[l - 1] == bit_at(x, k));
    if l == 1 {
        // The whole value fits below pow2(n), so its first bit, c / pow2(n-1),
        // is 0 or 1 and hence equals its own parity.
        lemma_pow2_unfold(n as nat);
        lemma_multiply_divide_lt(c as int, pow2(k) as int, 2);
        assert(key_val(bits, p, 0) == 0);
        assert(key_val(bits, p, 1) == (if bits[p] {
            1nat
        } else {
            0nat
        }));
    } else {
        lemma_key_val_of_bits(x, n, bits, p, l - 1);
        // Peeling one more bit: c / pow2(k) == 2 * (c / pow2(k + 1)) + parity.
        lemma_pow2_unfold((k + 1) as nat);
        lemma_div_denominator(c as int, pow2(k) as int, 2);
        assert(c / pow2(k) / 2 == c / (pow2(k) * 2));
        assert(pow2((n - (l - 1)) as nat) == pow2(k) * 2);
    }
}

/// Accumulating the first `l` bits of the code of `s` yields exactly the
/// first `l` code bits read as an integer key.
pub proof fn lemma_key_val_of_code(s: u8, bits: Seq<bool>, p: int, l: int)
    requires
        has_code(s),
        0 <= p,
        p + code_len(s) <= bits.len(),
        bits.subrange(p, p + code_len(s)) == code_seq(s),
        1 <= l <= code_len(s),
    ensures
        key_val(bits, p, l) == code_bits(s) as nat / pow2((code_len(s) - l) as nat),
{
    lemma_table_facts();
    lemma_key_val_of_bits(code_bits(s), code_len(s) as int, bits, p, l);
}

/// Two bit windows that accumulate to the same key hold the same bits.
pub proof fn lemma_key_val_inj(b1: Seq<bool>, p1: int, b2: Seq<bool>, p2: int, l: int)
    requires
        0 <= p1,
        0 <= p2,
        0 <= l,
        p1 + l <= b1.len(),
        p2 + l <= b2.len(),
        key_val(b1, p1, l) == key_val(b2, p2, l),
    ensures
        b1.subrange(p1, p1 + l) == b2.subrange(p2, p2 + l),
    decreases l,
{
    if l == 0 {
        assert(b1.subrange(p1, p1) =~= b2.subrange(p2, p2));
    } else {
        // 2a + x == 2c + y with x, y in {0, 1} forces a == c and x == y.
        lemma_key_val_inj(b1, p1, b2, p2, l - 1);
        assert(b1.subrange(p1, p1 + l) =~= b1.subrange(p1, p1 + l - 1).push(b1[p1 + l - 1]));
        assert(b2.subrange(p2, p2 + l) =~= b2.subrange(p2, p2 + l - 1).push(b2[p2 + l - 1]));
    }
}

/// The prefix relation on bit sequences.
pub open spec fn is_prefix_of(x: Seq<bool>, y: Seq<bool>) -> bool {
    x.len() <= y.len() && y.take(x.len() as int) == x
}

/// The Huffman code is prefix-free: for two distinct symbols of the extended
/// alphabet, neither code is a prefix of the other, so streaming decode never
/// needs lookahead or backtracking.
pub proof fn lemma_prefix_free(a: u8, b: u8)
    requires
        has_code(a),
        has_code(b),
        a != b,
    ensures
        !is_prefix_of(code_seq(a), code_seq(b)),
{
    lemma_table_facts();
    lemma2_to64();
    if is_prefix_of(code_seq(a), code_seq(b)) {
        let la = code_len(a) as int;
        let lb = code_len(b) as int;
        assert(code_seq(a).len() == la);
        assert(code_seq(b).len() == lb);
        assert(code_seq(a).subrange(0, la) =~= code_seq(a));
        assert(code_seq(b).subrange(0, lb) =~= code_seq(b));
        assert(code_seq(b).subrange(0, la) =~= code_seq(b).take(la));
        lemma_key_val_of_code(a, code_seq(a), 0, la);
        lemma_key_val_of_code(b, code_seq(b), 0, la);
        lemma_key_val_congruence(code_seq(a), 0, code_seq(b), 0, la);
        assert(code_bits(a) as nat / pow2(0) == code_bits(a) as nat);
        if la == lb {
            // Equal lengths force equal code bits, and the decode table then
            // maps one key to both symbols.
            assert(code_bits(b) as nat / pow2(0) == code_bits(b) as nat);
            assert(decode_key(code_len(a), code_bits(a)) == Some(a));
            assert(decode_key(code_len(b), code_bits(b)) == Some(b));
        } else {
            // A shorter code equal to a prefix of a longer one would make a
            // prefix key of b decodable.
            assert(key_prefix(b, la) == code_bits(a));
            assert(decode_key(la as u8, key_prefix(b, la)) is None);
            assert(decode_key(code_len(a), code_bits(a)) == Some(a));
        }
        assert(false);
    }
}

/// What `encode_of` must return for `symbol`: the table entry, or the
/// `UnknownSymbol` failure outside the alphabet.
pub open spec fn encode_of_post(symbol: u8, r: Result<(u8, u8), CompressError>) -> bool {
    if has_code(symbol) {
        r == Ok::<(u8, u8), CompressError>((code_bits(symbol), code_len(symbol)))
    } else {
        r == Err::<(u8, u8), CompressError>(CompressError::UnknownSymbol)
    }
}

/// Building the tables twice changes nothing: any two results that meet the
/// lookup contracts for the same symbol, and any two decode probes of the
/// same key, are identical.
pub proof fn lemma_tables_idempotent(
    symbol: u8,
    r1: Result<(u8, u8), CompressError>,
    r2: Result<(u8, u8), CompressError>,
    bits: u8,
    length: u8,
    d1: Option<u8>,
    d2: Option<u8>,
)
    requires
        encode_of_post(symbol, r1),
        encode_of_post(symbol, r2),
        d1 == decode_key(length, bits),
        d2 == decode_key(length, bits),
    ensures
        r1 == r2,
        d1 == d2,
{
}

/// Probes the decode table with a partially built `length`-bit key.
/// Returns the matching symbol, or `None` when no code of that length equals
/// the key.
pub fn decode_attempt(bits: u8, length: u8) -> (r: Option<u8>)
    ensures
        r == decode_key(length, bits),
{
    match length {
        4u8 => match bits {
            0b0100u8 => Some(65),
            0b0001u8 => Some(67),
            0b0010u8 => Some(83),
            0b0011u8 => Some(57),
            _ => None,
        },
        5u8 => match bits {
            0b11110u8 => Some(66),
            0b11111u8 => Some(68),
            0b11101u8 => Some(69),
            0b11100u8 => Some(70),
            0b10010u8 => Some(71),
            0b11000u8 => Some(72),
            0b10111u8 => Some(73),
            0b10000u8 => Some(74),
            0b10001u8 => Some(75),
            0b10011u8 => Some(76),
            0b00001u8 => Some(77),
            0b11001u8 => Some(78),
            0b10101u8 => Some(79),
            0b11011u8 => Some(80),
            0b01010u8 => Some(81),
            0b11010u8 => Some(82),
            0b10100u8 => Some(84),
            0b01011u8 => Some(85),
            0b01111u8 => Some(86),
            0b10110u8 => Some(87),
            0b01101u8 => Some(88),
            0b01100u8 => Some(89),
            0b01110u8 => Some(90),
            _ => None,
        },
        6u8 => if bits == 0b000001u8 {
            Some(49)
        } else {
            None
        },
        7u8 => if bits == 0b0000001u8 {
            Some(50)
        } else {
            None
        },
        8u8 => match bits {
            0b00000001u8 => Some(51),
            0b00000000u8 => Some(95),
            _ => None,
        },
        _ => None,
    }
}

} // verus!
