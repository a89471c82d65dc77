//! The run-length stage: maximal runs of one tryte become self-describing
//! records `marker, digit(s), literal`, where the digits reuse the tryte
//! alphabet as little-endian base-27 numerals.  Runs shorter than three
//! symbols stay literal; a record never holds more than three digits, so one
//! record covers at most 19682 repetitions and longer runs split.
use crate::tables::{has_code, END_OF_DATA, MARKER1, MARKER2, MARKER3};
use crate::CompressError;
use vstd::arithmetic::div_mod::{
    lemma_div_denominator, lemma_div_is_ordered, lemma_fundamental_div_mod,
};
use vstd::prelude::*;

verus! {

/// A run must reach this length before a record is emitted.
pub const RUN_MIN_LENGTH: u16 = 3;

/// Largest repeat count a one-digit record can carry.
pub const ONE_TRYTE_MAX: u16 = 26;

/// Largest repeat count a two-digit record can carry.
pub const TWO_TRYTE_MAX: u16 = 728;

/// Largest repeat count any record can carry (three digits).
pub const THREE_TRYTE_MAX: u16 = 19682;

/// True for the 27 tryte symbols: '9' (57) and 'A'..'Z' (65..90).
pub open spec fn is_tryte(s: u8) -> bool {
    s == 57 || (65 <= s && s <= 90)
}

/// The tryte that stands for digit value `v` in the base-27 digit alphabet:
/// 0 is '9', 1..26 are 'A'..'Z'.
pub open spec fn digit_char(v: int) -> u8 {
    if v == 0 {
        57
    } else {
        (64 + v) as u8
    }
}

/// The digit value a tryte stands for: the inverse of `digit_char`.
pub open spec fn digit_val(c: u8) -> int {
    if c == 57 {
        0
    } else {
        c - 64
    }
}

/// `digit_val`, extended so that the byte 0 marks an absent digit of value 0.
pub open spec fn digit_val0(c: u8) -> int {
    if c == 0 {
        0
    } else {
        digit_val(c)
    }
}

/// One run record for `chunk` repetitions of `c`: a marker declaring the
/// digit count, the fewest little-endian base-27 digits that hold `chunk`,
/// then the literal.
pub open spec fn record_spec(chunk: int, c: u8) -> Seq<u8> {
    if chunk <= 26 {
        seq![MARKER1, digit_char(chunk), c]
    } else if chunk <= 728 {
        seq![MARKER2, digit_char(chunk % 27), digit_char(chunk / 27), c]
    } else {
        seq![MARKER3, digit_char(chunk % 27), digit_char((chunk / 27) % 27), digit_char(chunk / 729), c]
    }
}

/// What the encoder emits for a maximal run of `count` copies of `c`: records
/// of at most 19682 repetitions while at least 3 remain, then the leftover
/// 0, 1 or 2 copies literally.
pub open spec fn append_run_spec(count: int, c: u8) -> Seq<u8>
    decreases count,
{
    if count < 3 {
        if count <= 0 {
            Seq::empty()
        } else {
            Seq::new(count as nat, |i: int| c)
        }
    } else {
        let chunk: int = if count > 19682 {
            19682
        } else {
            count
        };
        record_spec(chunk, c) + append_run_spec(count - chunk, c)
    }
}

/// The index just past the maximal run that starts at `j`.
pub open spec fn run_end(s: Seq<u8>, j: int) -> int
    decreases s.len() - j,
{
    if j < 0 || j + 1 >= s.len() {
        j + 1
    } else if s[j + 1] != s[j] {
        j + 1
    } else {
        run_end(s, j + 1)
    }
}

/// The run-length encoding of the suffix of `s` that starts at run
/// boundary `j`.
pub open spec fn rle_from(s: Seq<u8>, j: int) -> Seq<u8>
    decreases s.len() - j,
{
    if j < 0 || j >= s.len() {
        Seq::empty()
    } else {
        let e = run_end(s, j);
        if j < e && e <= s.len() {
            append_run_spec(e - j, s[j]) + rle_from(s, e)
        } else {
            Seq::empty()
        }
    }
}

/// The run-length encoding of a whole sequence.
pub open spec fn rle_spec(s: Seq<u8>) -> Seq<u8> {
    rle_from(s, 0)
}

/// Run-length decoding.  A bare symbol passes through; a marker consumes the
/// digits it declares (which must be trytes) and one literal, and expands the
/// literal.  `None` means a malformed record: a marker not followed by the
/// digit and literal symbols it announces.
pub open spec fn rld_spec(s: Seq<u8>) -> Option<Seq<u8>>
    decreases s.len(),
{
    if s.len() == 0 {
        Some(Seq::empty())
    } else if s[0] == MARKER1 {
        if s.len() >= 3 && is_tryte(s[1]) {
            match rld_spec(s.skip(3)) {
                None => None,
                Some(t) => Some(Seq::new(digit_val(s[1]) as nat, |i: int| s[2]) + t),
            }
        } else {
            None
        }
    } else if s[0] == MARKER2 {
        if s.len() >= 4 && is_tryte(s[1]) && is_tryte(s[2]) {
            match rld_spec(s.skip(4)) {
                None => None,
                Some(t) => Some(
                    Seq::new((digit_val(s[1]) + 27 * digit_val(s[2])) as nat, |i: int| s[3]) + t,
                ),
            }
        } else {
            None
        }
    } else if s[0] == MARKER3 {
        if s.len() >= 5 && is_tryte(s[1]) && is_tryte(s[2]) && is_tryte(s[3]) {
            match rld_spec(s.skip(5)) {
                None => None,
                Some(t) => Some(
                    Seq::new(
                        (digit_val(s[1]) + 27 * digit_val(s[2]) + 729 * digit_val(s[3])) as nat,
                        |i: int| s[4],
                    ) + t,
                ),
            }
        } else {
            None
        }
    } else {
        match rld_spec(s.skip(1)) {
            None => None,
            Some(t) => Some(seq![s[0]] + t),
        }
    }
}

/// The tryte standing for digit value `v`.
fn digit_symbol(v: u16) -> (r: u8)
    requires
        v <= 26,
    ensures
        r == digit_char(v as int),
{
    if v == 0 {
        57
    } else {
        (v as u8) + 64
    }
}

/// The digit value of tryte `c`.
fn digit_value(c: u8) -> (r: u16)
    requires
        is_tryte(c),
    ensures
        r as int == digit_val(c),
{
    if c == 57 {
        0
    } else {
        (c - 64) as u16
    }
}

/// Appends one run record for `val` repetitions of `prev`: a marker, the
/// fewest base-27 digits holding `val` (little-endian), then the literal.
pub fn number_to_rle(encoded: &mut Vec<u8>, prev: u8, val: u16)
    requires
        1 <= val <= 19682,
    ensures
        final(encoded)@ == old(encoded)@ + record_spec(val as int, prev),
{
    if val <= ONE_TRYTE_MAX {
        encoded.push(MARKER1);
        let d = digit_symbol(val);
        encoded.push(d);
        encoded.push(prev);
    } else if val <= TWO_TRYTE_MAX {
        let val1 = val % 27;
        let val2 = val / 27;
        proof {
            lemma_div_is_ordered(val as int, 728, 27);
        }
        encoded.push(MARKER2);
        let d1 = digit_symbol(val1);
        encoded.push(d1);
        let d2 = digit_symbol(val2);
        encoded.push(d2);
        encoded.push(prev);
    } else {
        let val1 = val % 27;
        let val2 = (val / 27) % 27;
        let val3 = val / 729;
        proof {
            lemma_div_is_ordered(val as int, 19682, 729);
        }
        encoded.push(MARKER3);
        let d1 = digit_symbol(val1);
        encoded.push(d1);
        let d2 = digit_symbol(val2);
        encoded.push(d2);
        let d3 = digit_symbol(val3);
        encoded.push(d3);
        encoded.push(prev);
    }
    proof {
        assert(encoded@ =~= old(encoded)@ + record_spec(val as int, prev));
    }
}

/// Appends the encoding of a maximal run: records while at least
/// `RUN_MIN_LENGTH` repetitions remain, then the leftover copies literally.
pub fn append_run(encoded: &mut Vec<u8>, count: usize, prev: u8)
    ensures
        final(encoded)@ == old(encoded)@ + append_run_spec(count as int, prev),
{
    let mut remaining: usize = count;
    while remaining >= RUN_MIN_LENGTH as usize
        invariant
            old(encoded)@ + append_run_spec(count as int, prev) == encoded@ + append_run_spec(
                remaining as int,
                prev,
            ),
        decreases remaining,
    {
        let chunk: usize = if remaining > THREE_TRYTE_MAX as usize {
            THREE_TRYTE_MAX as usize
        } else {
            remaining
        };
        proof {
            assert(append_run_spec(remaining as int, prev) == record_spec(chunk as int, prev)
                + append_run_spec(remaining as int - chunk as int, prev));
        }
        let ghost pre = encoded@;
        number_to_rle(encoded, prev, chunk as u16);
        proof {
            assert((pre + record_spec(chunk as int, prev)) + append_run_spec(
                remaining as int - chunk as int,
                prev,
            ) =~= pre + (record_spec(chunk as int, prev) + append_run_spec(
                remaining as int - chunk as int,
                prev,
            )));
        }
        remaining -= chunk;
    }
    let ghost mid = encoded@;
    let ghost rem = remaining as int;
    let mut i: usize = 0;
    while i < remaining
        invariant
            i <= remaining,
            rem == remaining as int,
            mid + append_run_spec(rem, prev) == old(encoded)@ + append_run_spec(count as int, prev),
            encoded@ == mid + Seq::new(i as nat, |k: int| prev),
        decreases remaining - i,
    {
        encoded.push(prev);
        proof {
            assert(mid + Seq::new((i + 1) as nat, |k: int| prev) =~= (mid + Seq::new(
                i as nat,
                |k: int| prev,
            )).push(prev));
        }
        i += 1;
    }
    proof {
        assert(append_run_spec(rem, prev) =~= Seq::new(rem as nat, |k: int| prev));
        assert(encoded@ =~= old(encoded)@ + append_run_spec(count as int, prev));
    }
}

/// `run_end` is the first index past `j` where the symbol changes or the
/// sequence ends, and everything before it equals `s[j]`.
proof fn lemma_run_end(s: Seq<u8>, j: int)
    requires
        0 <= j < s.len(),
    ensures
        j < run_end(s, j) <= s.len(),
        forall|k: int| j <= k < run_end(s, j) ==> s[k] == s[j],
        run_end(s, j) == s.len() || s[run_end(s, j)] != s[j],
    decreases s.len() - j,
{
    if j + 1 >= s.len() || s[j + 1] != s[j] {
    } else {
        lemma_run_end(s, j + 1);
    }
}

/// A stretch of equal symbols that ends at the sequence end or at a
/// different symbol is exactly the maximal run.
proof fn lemma_run_end_determined(s: Seq<u8>, j: int, e: int)
    requires
        0 <= j < e <= s.len(),
        forall|k: int| j <= k < e ==> s[k] == s[j],
        e == s.len() || s[e] != s[j],
    ensures
        run_end(s, j) == e,
    decreases e - j,
{
    if j + 1 == e {
    } else {
        assert(s[j + 1] == s[j]);
        lemma_run_end_determined(s, j + 1, e);
    }
}

/// Groups maximal runs of identical symbols left to right and encodes each.
/// Fails with `EmptyInput` on an empty sequence: there is no first symbol to
/// seed a run.
pub fn run_length_encode(trytes: &Vec<u8>) -> (r: Result<Vec<u8>, CompressError>)
    ensures
        trytes@.len() == 0 ==> r == Err::<Vec<u8>, CompressError>(CompressError::EmptyInput),
        trytes@.len() > 0 ==> r is Ok && r->Ok_0@ == rle_spec(trytes@),
{
    if trytes.len() == 0 {
        return Err(CompressError::EmptyInput);
    }
    let ghost s = trytes@;
    let mut encoded: Vec<u8> = Vec::new();
    let mut prev: u8 = trytes[0];
    let mut count: usize = 1;
    let mut i: usize = 1;
    while i < trytes.len()
        invariant
            s == trytes@,
            1 <= i <= s.len(),
            1 <= count <= i,
            prev == s[i - count],
            forall|k: int| i - count <= k < i ==> s[k] == prev,
            i - count == 0 || s[i - count - 1] != prev,
            rle_spec(s) == encoded@ + rle_from(s, i - count),
        decreases s.len() - i,
    {
        let c = trytes[i];
        if c != prev {
            proof {
                lemma_run_end_determined(s, i - count, i as int);
                assert(rle_from(s, i - count) == append_run_spec(count as int, prev) + rle_from(
                    s,
                    i as int,
                ));
            }
            let ghost pre = encoded@;
            append_run(&mut encoded, count, prev);
            proof {
                assert((pre + append_run_spec(count as int, prev)) + rle_from(s, i as int) =~= pre
                    + (append_run_spec(count as int, prev) + rle_from(s, i as int)));
            }
            count = 1;
            prev = c;
        } else {
            count = count + 1;
        }
        i = i + 1;
    }
    proof {
        lemma_run_end_determined(s, i - count, s.len() as int);
        assert(rle_from(s, s.len() as int) =~= Seq::empty());
        assert(rle_from(s, i - count) == append_run_spec(count as int, prev) + rle_from(
            s,
            s.len() as int,
        ));
    }
    let ghost pre = encoded@;
    append_run(&mut encoded, count, prev);
    proof {
        assert(rle_from(s, i - count) =~= append_run_spec(count as int, prev));
        assert(encoded@ =~= rle_spec(s));
    }
    Ok(encoded)
}

/// Rebuilds a repeat count from up to three little-endian base-27 digit
/// trytes; the byte 0 marks an absent digit.
pub fn rle_to_number(t1: u8, t2: u8, t3: u8) -> (r: u16)
    requires
        is_tryte(t1),
        t2 == 0 || is_tryte(t2),
        t3 == 0 || is_tryte(t3),
    ensures
        r as int == digit_val(t1) + 27 * digit_val0(t2) + 729 * digit_val0(t3),
{
    let mut val: u16 = digit_value(t1);
    if t2 != 0 {
        val = val + 27 * digit_value(t2);
    }
    if t3 != 0 {
        val = val + 729 * digit_value(t3);
    }
    val
}

/// Decodes a run-length encoded sequence: bare symbols pass through, records
/// expand.  Fails with `MalformedRunRecord` when a marker is not followed by
/// the digit and literal symbols it announces.
pub fn run_length_decode(encoded: &Vec<u8>) -> (r: Result<Vec<u8>, CompressError>)
    ensures
        match rld_spec(encoded@) {
            Some(t) => r is Ok && r->Ok_0@ == t,
            None => r == Err::<Vec<u8>, CompressError>(CompressError::MalformedRunRecord),
        },
{
    let ghost s = encoded@;
    let mut out: Vec<u8> = Vec::new();
    let mut i: usize = 0;
    proof {
        assert(s.skip(0) =~= s);
        if rld_spec(s) is Some {
            assert(Seq::<u8>::empty() + rld_spec(s)->Some_0 =~= rld_spec(s)->Some_0);
        }
    }
    while i < encoded.len()
        invariant
            s == encoded@,
            i <= s.len(),
            match rld_spec(s.skip(i as int)) {
                Some(t) => rld_spec(s) == Some(out@ + t),
                None => rld_spec(s) is None,
            },
        decreases s.len() - i,
    {
        let c = encoded[i];
        let left = encoded.len() - i;
        if c == MARKER1 {
            if left < 3 {
                return Err(CompressError::MalformedRunRecord);
            }
            let d1 = encoded[i + 1];
            let lit = encoded[i + 2];
            if !(d1 == 57 || (65 <= d1 && d1 <= 90)) {
                return Err(CompressError::MalformedRunRecord);
            }
            let n = rle_to_number(d1, 0, 0);
            proof {
                let tail = s.skip(i as int);
                assert(tail[0] == s[i as int] && tail[1] == s[i + 1] && tail[2] == s[i + 2]);
                assert(tail.skip(3) =~= s.skip(i + 3));
            }
            let ghost pre = out@;
            push_repeated(&mut out, lit, n);
            proof {
                let tail = s.skip(i as int);
                assert(Seq::new(n as nat, |k: int| lit) =~= Seq::new(
                    digit_val(tail[1]) as nat,
                    |k: int| tail[2],
                ));
                if rld_spec(s.skip(i + 3)) is Some {
                    let t = rld_spec(s.skip(i + 3))->Some_0;
                    assert((pre + (Seq::new(n as nat, |k: int| lit) + t)) =~= ((pre + Seq::new(
                        n as nat,
                        |k: int| lit,
                    )) + t));
                }
            }
            i = i + 3;
        } else if c == MARKER2 {
            if left < 4 {
                return Err(CompressError::MalformedRunRecord);
            }
            let d1 = encoded[i + 1];
            let d2 = encoded[i + 2];
            let lit = encoded[i + 3];
            if !(d1 == 57 || (65 <= d1 && d1 <= 90)) || !(d2 == 57 || (65 <= d2 && d2 <= 90)) {
                return Err(CompressError::MalformedRunRecord);
            }
            let n = rle_to_number(d1, d2, 0);
            proof {
                let tail = s.skip(i as int);
                assert(tail[0] == s[i as int] && tail[1] == s[i + 1] && tail[2] == s[i + 2]
                    && tail[3] == s[i + 3]);
                assert(tail.skip(4) =~= s.skip(i + 4));
            }
            let ghost pre = out@;
            push_repeated(&mut out, lit, n);
            proof {
                let tail = s.skip(i as int);
                assert(Seq::new(n as nat, |k: int| lit) =~= Seq::new(
                    (digit_val(tail[1]) + 27 * digit_val(tail[2])) as nat,
                    |k: int| tail[3],
                ));
                if rld_spec(s.skip(i + 4)) is Some {
                    let t = rld_spec(s.skip(i + 4))->Some_0;
                    assert((pre + (Seq::new(n as nat, |k: int| lit) + t)) =~= ((pre + Seq::new(
                        n as nat,
                        |k: int| lit,
                    )) + t));
                }
            }
            i = i + 4;
        } else if c == MARKER3 {
            if left < 5 {
                return Err(CompressError::MalformedRunRecord);
            }
            let d1 = encoded[i + 1];
            let d2 = encoded[i + 2];
            let d3 = encoded[i + 3];
            let lit = encoded[i + 4];
            if !(d1 == 57 || (65 <= d1 && d1 <= 90)) || !(d2 == 57 || (65 <= d2 && d2 <= 90)) || !(
            d3 == 57 || (65 <= d3 && d3 <= 90)) {
                return Err(CompressError::MalformedRunRecord);
            }
            let n = rle_to_number(d1, d2, d3);
            proof {
                let tail = s.skip(i as int);
                assert(tail[0] == s[i as int] && tail[1] == s[i + 1] && tail[2] == s[i + 2]
                    && tail[3] == s[i + 3] && tail[4] == s[i + 4]);
                assert(tail.skip(5) =~= s.skip(i + 5));
            }
            let ghost pre = out@;
            push_repeated(&mut out, lit, n);
            proof {
                let tail = s.skip(i as int);
                assert(Seq::new(n as nat, |k: int| lit) =~= Seq::new(
                    (digit_val(tail[1]) + 27 * digit_val(tail[2]) + 729 * digit_val(tail[3])) as nat,
                    |k: int| tail[4],
                ));
                if rld_spec(s.skip(i + 5)) is Some {
                    let t = rld_spec(s.skip(i + 5))->Some_0;
                    assert((pre + (Seq::new(n as nat, |k: int| lit) + t)) =~= ((pre + Seq::new(
                        n as nat,
                        |k: int| lit,
                    )) + t));
                }
            }
            i = i + 5;
        } else {
            let ghost pre = out@;
            out.push(c);
            proof {
                let tail = s.skip(i as int);
                assert(tail[0] == s[i as int]);
                assert(tail.skip(1) =~= s.skip(i + 1));
                if rld_spec(s.skip(i + 1)) is Some {
                    let t = rld_spec(s.skip(i + 1))->Some_0;
                    assert((pre + (seq![tail[0]] + t)) =~= ((pre.push(c)) + t));
                }
            }
            i = i + 1;
        }
    }
    proof {
        assert(s.skip(s.len() as int) =~= Seq::empty());
        assert(out@ + Seq::empty() =~= out@);
    }
    Ok(out)
}

/// Decoding a bare (non-marker) symbol prepends it to whatever the rest
/// decodes to.
proof fn lemma_rld_literal(c: u8, rest: Seq<u8>)
    requires
        c != MARKER1,
        c != MARKER2,
        c != MARKER3,
    ensures
        rld_spec(seq![c] + rest) == (match rld_spec(rest) {
            None => None::<Seq<u8>>,
            Some(t) => Some(seq![c] + t),
        }),
{
    let s = seq![c] + rest;
    assert(s[0] == c);
    assert(s.skip(1) =~= rest);
}

/// Decoding one run record prepends `chunk` copies of its literal to
/// whatever the rest decodes to.
proof fn lemma_rld_record(chunk: int, c: u8, rest: Seq<u8>)
    requires
        1 <= chunk <= 19682,
    ensures
        rld_spec(record_spec(chunk, c) + rest) == (match rld_spec(rest) {
            None => None::<Seq<u8>>,
            Some(t) => Some(Seq::new(chunk as nat, |i: int| c) + t),
        }),
{
    let s = record_spec(chunk, c) + rest;
    if chunk <= 26 {
        assert(s[0] == MARKER1 && s[1] == digit_char(chunk) && s[2] == c);
        assert(is_tryte(digit_char(chunk)));
        assert(s.skip(3) =~= rest);
        assert(digit_val(digit_char(chunk)) == chunk);
        if rld_spec(rest) is Some {
            assert(Seq::new(digit_val(s[1]) as nat, |i: int| s[2]) =~= Seq::new(
                chunk as nat,
                |i: int| c,
            ));
        }
    } else if chunk <= 728 {
        let v1 = chunk % 27;
        let v2 = chunk / 27;
        lemma_div_is_ordered(chunk, 728, 27);
        lemma_fundamental_div_mod(chunk, 27);
        assert(s[0] == MARKER2 && s[1] == digit_char(v1) && s[2] == digit_char(v2) && s[3] == c);
        assert(is_tryte(digit_char(v1)) && is_tryte(digit_char(v2)));
        assert(s.skip(4) =~= rest);
        assert(digit_val(s[1]) + 27 * digit_val(s[2]) == chunk);
        if rld_spec(rest) is Some {
            assert(Seq::new((digit_val(s[1]) + 27 * digit_val(s[2])) as nat, |i: int| s[3])
                =~= Seq::new(chunk as nat, |i: int| c));
        }
    } else {
        let v1 = chunk % 27;
        let q = chunk / 27;
        let v2 = q % 27;
        let v3 = chunk / 729;
        lemma_div_is_ordered(chunk, 19682, 729);
        lemma_div_denominator(chunk, 27, 27);
        assert(q / 27 == v3);
        lemma_fundamental_div_mod(chunk, 27);
        lemma_fundamental_div_mod(q, 27);
        assert(chunk == 27 * (27 * (q / 27) + q % 27) + v1);
        assert(s[0] == MARKER3 && s[1] == digit_char(v1) && s[2] == digit_char(v2) && s[3]
            == digit_char(v3) && s[4] == c);
        assert(is_tryte(digit_char(v1)) && is_tryte(digit_char(v2)) && is_tryte(digit_char(v3)));
        assert(s.skip(5) =~= rest);
        assert(digit_val(s[1]) + 27 * digit_val(s[2]) + 729 * digit_val(s[3]) == chunk);
        if rld_spec(rest) is Some {
            assert(Seq::new(
                (digit_val(s[1]) + 27 * digit_val(s[2]) + 729 * digit_val(s[3])) as nat,
                |i: int| s[4],
            ) =~= Seq::new(chunk as nat, |i: int| c));
        }
    }
}

/// Decoding what the encoder emits for a run of `count` copies of a
/// non-marker symbol yields exactly those copies back.
proof fn lemma_rld_append_run(count: int, c: u8, rest: Seq<u8>)
    requires
        0 <= count,
        c != MARKER1,
        c != MARKER2,
        c != MARKER3,
    ensures
        rld_spec(append_run_spec(count, c) + rest) == (match rld_spec(rest) {
            None => None::<Seq<u8>>,
            Some(t) => Some(Seq::new(count as nat, |i: int| c) + t),
        }),
    decreases count,
{
    if count <= 0 {
        assert(append_run_spec(count, c) + rest =~= rest);
        if rld_spec(rest) is Some {
            let t = rld_spec(rest)->Some_0;
            assert(Seq::new(0, |i: int| c) + t =~= t);
        }
    } else if count < 3 {
        lemma_rld_append_run(count - 1, c, rest);
        let s1 = append_run_spec(count - 1, c) + rest;
        assert(append_run_spec(count, c) + rest =~= seq![c] + s1);
        lemma_rld_literal(c, s1);
        if rld_spec(rest) is Some {
            let t = rld_spec(rest)->Some_0;
            assert(seq![c] + (Seq::new((count - 1) as nat, |i: int| c) + t) =~= Seq::new(
                count as nat,
                |i: int| c,
            ) + t);
        }
    } else {
        let chunk: int = if count > 19682 {
            19682
        } else {
            count
        };
        lemma_rld_append_run(count - chunk, c, rest);
        let s1 = append_run_spec(count - chunk, c) + rest;
        assert(append_run_spec(count, c) + rest =~= record_spec(chunk, c) + s1);
        lemma_rld_record(chunk, c, s1);
        if rld_spec(rest) is Some {
            let t = rld_spec(rest)->Some_0;
            assert(Seq::new(chunk as nat, |i: int| c) + (Seq::new(
                (count - chunk) as nat,
                |i: int| c,
            ) + t) =~= Seq::new(count as nat, |i: int| c) + t);
        }
    }
}

/// Run-length decode inverts the encoding of any suffix whose symbols are
/// not markers.
proof fn lemma_rle_from_decodes(s: Seq<u8>, j: int)
    requires
        0 <= j <= s.len(),
        forall|k: int|
            j <= k < s.len() ==> (#[trigger] s[k] != MARKER1 && s[k] != MARKER2 && s[k] != MARKER3),
    ensures
        rld_spec(rle_from(s, j)) == Some(s.skip(j)),
    decreases s.len() - j,
{
    if j >= s.len() {
        assert(s.skip(j) =~= Seq::<u8>::empty());
    } else {
        lemma_run_end(s, j);
        let e = run_end(s, j);
        lemma_rle_from_decodes(s, e);
        lemma_rld_append_run(e - j, s[j], rle_from(s, e));
        assert(Seq::new((e - j) as nat, |i: int| s[j]) + s.skip(e) =~= s.skip(j));
    }
}

/// Round trip of the run-length stage: decoding the encoding of any sequence
/// that holds no marker symbol gives the sequence back.  Tryte input never
/// holds a marker, so this covers every legal raw input.
pub proof fn lemma_rle_round_trip(s: Seq<u8>)
    requires
        forall|k: int|
            0 <= k < s.len() ==> (#[trigger] s[k] != MARKER1 && s[k] != MARKER2 && s[k] != MARKER3),
    ensures
        rld_spec(rle_spec(s)) == Some(s),
{
    lemma_rle_from_decodes(s, 0);
    assert(s.skip(0) =~= s);
}

/// Every symbol the encoder emits for one run is a marker, a digit tryte or
/// the run's own literal, and the literal itself is always emitted.
proof fn lemma_append_run_elems(count: int, c: u8)
    requires
        1 <= count,
    ensures
        forall|k: int|
            0 <= k < append_run_spec(count, c).len() ==> (#[trigger] append_run_spec(count, c)[k]
                == MARKER1 || append_run_spec(count, c)[k] == MARKER2 || append_run_spec(count, c)[k]
                == MARKER3 || is_tryte(append_run_spec(count, c)[k]) || append_run_spec(count, c)[k]
                == c),
        append_run_spec(count, c).contains(c),
    decreases count,
{
    let out = append_run_spec(count, c);
    if count < 3 {
        assert(out[0] == c);
    } else {
        let chunk: int = if count > 19682 {
            19682
        } else {
            count
        };
        let rec = record_spec(chunk, c);
        if chunk <= 26 {
            assert(rec[0] == MARKER1 && rec[1] == digit_char(chunk) && rec[2] == c);
            assert(is_tryte(digit_char(chunk)));
        } else if chunk <= 728 {
            lemma_div_is_ordered(chunk, 728, 27);
            assert(rec[0] == MARKER2 && rec[1] == digit_char(chunk % 27) && rec[2] == digit_char(
                chunk / 27,
            ) && rec[3] == c);
            assert(is_tryte(digit_char(chunk % 27)) && is_tryte(digit_char(chunk / 27)));
        } else {
            lemma_div_is_ordered(chunk, 19682, 729);
            assert(rec[0] == MARKER3 && rec[1] == digit_char(chunk % 27) && rec[2] == digit_char(
                (chunk / 27) % 27,
            ) && rec[3] == digit_char(chunk / 729) && rec[4] == c);
            assert(is_tryte(digit_char(chunk % 27)) && is_tryte(digit_char((chunk / 27) % 27))
                && is_tryte(digit_char(chunk / 729)));
        }
        assert(out[rec.len() - 1] == c);
        if count - chunk >= 1 {
            lemma_append_run_elems(count - chunk, c);
            assert forall|k: int| 0 <= k < out.len() implies (#[trigger] out[k] == MARKER1 || out[k]
                == MARKER2 || out[k] == MARKER3 || is_tryte(out[k]) || out[k] == c) by {
                if k >= rec.len() {
                    assert(out[k] == append_run_spec(count - chunk, c)[k - rec.len()]);
                }
            }
        } else {
            assert(append_run_spec(count - chunk, c) =~= Seq::<u8>::empty());
        }
    }
}

/// Every symbol of a run-length encoding is a marker, a digit tryte, or a
/// symbol of the encoded suffix; and every symbol of the suffix shows up in
/// its encoding.
pub proof fn lemma_rle_from_elems(s: Seq<u8>, j: int)
    requires
        0 <= j <= s.len(),
    ensures
        forall|k: int|
            0 <= k < rle_from(s, j).len() ==> (#[trigger] rle_from(s, j)[k] == MARKER1 || rle_from(
                s,
                j,
            )[k] == MARKER2 || rle_from(s, j)[k] == MARKER3 || is_tryte(rle_from(s, j)[k])
                || s.skip(j).contains(rle_from(s, j)[k])),
        forall|i: int| j <= i < s.len() ==> rle_from(s, j).contains(#[trigger] s[i]),
    decreases s.len() - j,
{
    if j >= s.len() {
    } else {
        lemma_run_end(s, j);
        let e = run_end(s, j);
        let head = append_run_spec(e - j, s[j]);
        let tail = rle_from(s, e);
        let out = rle_from(s, j);
        assert(out == head + tail);
        lemma_append_run_elems(e - j, s[j]);
        lemma_rle_from_elems(s, e);
        assert(s.skip(j).contains(s[j])) by {
            assert(s.skip(j)[0] == s[j]);
        }
        assert forall|k: int| 0 <= k < out.len() implies (#[trigger] out[k] == MARKER1 || out[k]
            == MARKER2 || out[k] == MARKER3 || is_tryte(out[k]) || s.skip(j).contains(out[k])) by {
            if k < head.len() {
                assert(out[k] == head[k]);
            } else {
                assert(out[k] == tail[k - head.len()]);
                if s.skip(e).contains(out[k]) {
                    let w = choose|w: int| 0 <= w < s.skip(e).len() && s.skip(e)[w] == out[k];
                    assert(s.skip(j)[w + e - j] == out[k]);
                }
            }
        }
        assert forall|i: int| j <= i < s.len() implies out.contains(#[trigger] s[i]) by {
            if i < e {
                assert(s[i] == s[j]);
                let w = choose|w: int| 0 <= w < head.len() && head[w] == s[j];
                assert(out[w] == s[i]);
            } else {
                assert(tail.contains(s[i]));
                let w = choose|w: int| 0 <= w < tail.len() && tail[w] == s[i];
                assert(out[w + head.len()] == s[i]);
            }
        }
    }
}

/// Every tryte and every control symbol has a Huffman code, and the trytes
/// are disjoint from the four control symbols.
pub proof fn lemma_rle_symbol_codes()
    ensures
        has_code(MARKER1),
        has_code(MARKER2),
        has_code(MARKER3),
        has_code(END_OF_DATA),
        forall|c: u8|
            #[trigger] is_tryte(c) ==> has_code(c) && c != END_OF_DATA && c != MARKER1 && c
                != MARKER2 && c != MARKER3,
{
}

/// Run threshold: a run of two identical symbols stays literal, while a run
/// of three becomes a single one-digit run record.
pub proof fn lemma_run_threshold(c: u8)
    ensures
        append_run_spec(2, c) == seq![c, c],
        append_run_spec(3, c) == record_spec(3, c),
        record_spec(3, c) == seq![MARKER1, 67u8, c],
{
    assert(append_run_spec(2, c) =~= seq![c, c]);
    assert(append_run_spec(0, c) =~= Seq::<u8>::empty());
    assert(append_run_spec(3, c) =~= record_spec(3, c) + append_run_spec(0, c));
    assert(record_spec(3, c) + Seq::<u8>::empty() =~= record_spec(3, c));
    assert(record_spec(3, c) =~= seq![MARKER1, digit_char(3), c]);
}

/// Digit boundaries: one digit carries counts up to 26, two up to 728, three
/// up to 19682, and a run one past the three-digit limit splits into a full
/// record plus a bare literal.
pub proof fn lemma_digit_boundary(c: u8)
    ensures
        append_run_spec(26, c) == record_spec(26, c),
        record_spec(26, c) == seq![MARKER1, 90u8, c],
        append_run_spec(27, c) == record_spec(27, c),
        record_spec(27, c).len() == 4 && record_spec(27, c)[0] == MARKER2,
        append_run_spec(728, c) == record_spec(728, c),
        record_spec(728, c).len() == 4 && record_spec(728, c)[0] == MARKER2,
        append_run_spec(729, c) == record_spec(729, c),
        record_spec(729, c).len() == 5 && record_spec(729, c)[0] == MARKER3,
        append_run_spec(19682, c) == record_spec(19682, c),
        record_spec(19682, c).len() == 5 && record_spec(19682, c)[0] == MARKER3,
        append_run_spec(19683, c) == record_spec(19682, c) + seq![c],
{
    assert(append_run_spec(0, c) =~= Seq::<u8>::empty());
    assert(record_spec(26, c) =~= seq![MARKER1, digit_char(26), c]);
    assert(append_run_spec(26, c) =~= record_spec(26, c));
    assert(append_run_spec(27, c) =~= record_spec(27, c));
    assert(append_run_spec(728, c) =~= record_spec(728, c));
    assert(append_run_spec(729, c) =~= record_spec(729, c));
    assert(append_run_spec(19682, c) =~= record_spec(19682, c));
    assert(append_run_spec(1, c) =~= seq![c]);
    assert(append_run_spec(19683, c) =~= record_spec(19682, c) + seq![c]);
}

/// Pushes `n` copies of `lit`.
fn push_repeated(out: &mut Vec<u8>, lit: u8, n: u16)
    ensures
        final(out)@ == old(out)@ + Seq::new(n as nat, |k: int| lit),
{
    let mut k: u16 = 0;
    while k < n
        invariant
            k <= n,
            out@ == old(out)@ + Seq::new(k as nat, |j: int| lit),
        decreases n - k,
    {
        out.push(lit);
        proof {
            assert(old(out)@ + Seq::new((k + 1) as nat, |j: int| lit) =~= (old(out)@ + Seq::new(
                k as nat,
                |j: int| lit,
            )).push(lit));
        }
        k = k + 1;
    }
}

} // verus!
