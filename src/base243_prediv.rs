use vstd::prelude::*;

use crate::engine::{
    chunk_count, digits, is_chunk, is_trit_seq, lemma_chunk_count_covers, lemma_digits_is_chunk,
    lemma_unpack_pack, padded_chunk, padded_from, pack, trit_or_zero, unpack, values, Engine,
};
use crate::trit::Trit;

verus! {

/// Base 3 rescaled: the base-3 value of five trits, first trit most
/// significant, spread over the whole byte range by a fixed-point rescaling.
#[derive(Clone, Copy, Debug)]
pub struct Base243PreDiv {}

/// Trits per byte.
pub const CHUNK_SIZE: usize = 5;

/// `81 t0 + 27 t1 + 9 t2 + 3 t3 + t4`: the base-3 value, first trit most
/// significant.
pub open spec fn prediv_value(t0: u8, t1: u8, t2: u8, t3: u8, t4: u8) -> u8 {
    (81 * t0 + 27 * t1 + 9 * t2 + 3 * t3 + t4) as u8
}

/// `floor((v * 256 + 242) / 243)`: the value rescaled onto 0 to 255.
pub open spec fn prediv_scale(v: u8) -> u8 {
    ((v * 256 + 242) / 243) as u8
}

/// The byte for a chunk of five trit values.
pub open spec fn prediv_chunk_byte(c: Seq<nat>) -> u8 {
    prediv_scale(prediv_value(c[0] as u8, c[1] as u8, c[2] as u8, c[3] as u8, c[4] as u8))
}

/// The next trit read from the fraction `r / 256`: the top bits of `3 r`.
pub open spec fn prediv_digit(r: u8) -> u8 {
    (3 * r / 256) as u8
}

/// The fraction left after reading one trit: the low byte of `3 r`.
pub open spec fn prediv_rest(r: u8) -> u8 {
    (3 * r % 256) as u8
}

/// The five trits read in turn from the byte `b`. Every byte decodes.
pub open spec fn prediv_chunk(b: u8) -> Option<Seq<nat>> {
    let r1 = prediv_rest(b);
    let r2 = prediv_rest(r1);
    let r3 = prediv_rest(r2);
    let r4 = prediv_rest(r3);
    Some(
        seq![
            prediv_digit(b) as nat,
            prediv_digit(r1) as nat,
            prediv_digit(r2) as nat,
            prediv_digit(r3) as nat,
            prediv_digit(r4) as nat,
        ],
    )
}

impl Base243PreDiv {
    pub fn new() -> Base243PreDiv {
        Base243PreDiv {  }
    }

    /// Encodes up to five trits into one byte; missing trits count as zero.
    pub fn encode_chunk(&self, chunk: &[Trit]) -> (r: u8)
        requires
            chunk@.len() <= CHUNK_SIZE,
        ensures
            r == prediv_chunk_byte(padded_from(values(chunk@), CHUNK_SIZE as nat, 0)),
    {
        self.chunk_at(chunk, 0)
    }

    /// Encodes the five trits of `trits` from `start` on, padded with zeros.
    fn chunk_at(&self, trits: &[Trit], start: usize) -> (r: u8)
        requires
            start <= trits@.len(),
        ensures
            r == prediv_chunk_byte(padded_from(values(trits@), CHUNK_SIZE as nat, start as int)),
    {
        let t0 = trit_or_zero(trits, start, 0).value();
        let t1 = trit_or_zero(trits, start, 1).value();
        let t2 = trit_or_zero(trits, start, 2).value();
        let t3 = trit_or_zero(trits, start, 3).value();
        let t4 = trit_or_zero(trits, start, 4).value();
        let ghost c = padded_from(values(trits@), CHUNK_SIZE as nat, start as int);
        assert(c[0] == t0 && c[1] == t1 && c[2] == t2 && c[3] == t3 && c[4] == t4);
        let value: u8 = t0 * 81 + t1 * 27 + t2 * 9 + t3 * 3 + t4;
        ((value as u16 * 256 + 242) / 243) as u8
    }

    /// Reads the next trit off the fraction `byte / 256`; returns it with the
    /// fraction left.
    fn split_top(&self, byte: u8) -> (r: (u8, u8))
        ensures
            r.0 == prediv_digit(byte),
            r.1 == prediv_rest(byte),
            r.0 < 3,
    {
        let extended = byte as u16 * 3;
        assert(((extended >> 8u16) as u8) == prediv_digit(byte) && (extended as u8) == prediv_rest(
            byte,
        ) && prediv_digit(byte) < 3) by (bit_vector)
            requires
                extended == byte as u16 * 3,
        ;
        ((extended >> 8u16) as u8, extended as u8)
    }

    /// Decodes one byte into five trits. Every byte value decodes.
    pub fn decode_chunk(&self, encoded_byte: u8) -> (r: Option<[Trit; CHUNK_SIZE]>)
        ensures
            r is Some,
            prediv_chunk(encoded_byte) == Some(values(r->Some_0@)),
    {
        let (d0, b1) = self.split_top(encoded_byte);
        let (d1, b2) = self.split_top(b1);
        let (d2, b3) = self.split_top(b2);
        let (d3, b4) = self.split_top(b3);
        let (d4, _) = self.split_top(b4);
        let r = [
            Trit::from_value(d0),
            Trit::from_value(d1),
            Trit::from_value(d2),
            Trit::from_value(d3),
            Trit::from_value(d4),
        ];
        assert(values(r@) =~= prediv_chunk(encoded_byte)->Some_0);
        Some(r)
    }
}

/// Bit-level round trip of one chunk.
proof fn lemma_prediv_bits(t0: u8, t1: u8, t2: u8, t3: u8, t4: u8)
    by (bit_vector)
    requires
        t0 < 3,
        t1 < 3,
        t2 < 3,
        t3 < 3,
        t4 < 3,
    ensures
        ({
            let b = prediv_scale(prediv_value(t0, t1, t2, t3, t4));
            let r1 = prediv_rest(b);
            let r2 = prediv_rest(r1);
            let r3 = prediv_rest(r2);
            let r4 = prediv_rest(r3);
            prediv_digit(b) == t0 && prediv_digit(r1) == t1 && prediv_digit(r2) == t2
                && prediv_digit(r3) == t3 && prediv_digit(r4) == t4
        }),
{
}

/// Decoding the byte for any chunk of five trits gives back that chunk.
pub proof fn lemma_prediv_chunk_round_trip(c: Seq<nat>)
    requires
        is_chunk(c, CHUNK_SIZE as nat),
    ensures
        prediv_chunk(prediv_chunk_byte(c)) == Some(c),
{
    assert(c[0] < 3 && c[1] < 3 && c[2] < 3 && c[3] < 3 && c[4] < 3);
    lemma_prediv_bits(c[0] as u8, c[1] as u8, c[2] as u8, c[3] as u8, c[4] as u8);
    assert(prediv_chunk(prediv_chunk_byte(c))->Some_0 =~= c);
}

impl Engine for Base243PreDiv {
    open spec fn chunk_len(&self) -> nat {
        CHUNK_SIZE as nat
    }

    open spec fn chunk_byte(&self, c: Seq<nat>) -> u8 {
        prediv_chunk_byte(c)
    }

    open spec fn byte_chunk(&self, b: u8) -> Option<Seq<nat>> {
        prediv_chunk(b)
    }

    fn encoded_size(&self, trits: &[Trit]) -> (r: usize) {
        // CHUNK_SIZE trits -> 1 byte
        let len = trits.len();
        let r = len / CHUNK_SIZE + if len % CHUNK_SIZE != 0 {
            1
        } else {
            0
        };
        r
    }

    fn encode_slice(&self, encoded: &mut [u8], trits: &[Trit]) -> (r: Option<usize>) {
        let size = self.encoded_size(trits);
        if size > encoded.len() {
            return None;
        }
        let len = trits.len();
        let ghost t = values(trits@);
        proof {
            lemma_chunk_count_covers(trits@.len(), CHUNK_SIZE as nat);
        }
        let mut k: usize = 0;
        while k < size
            invariant
                t == values(trits@),
                len == trits@.len(),
                size as nat == chunk_count(trits@.len(), CHUNK_SIZE as nat),
                size * CHUNK_SIZE < trits@.len() + CHUNK_SIZE,
                size <= encoded@.len(),
                k <= size,
                encoded@.len() == old(encoded)@.len(),
                forall|i: int| 0 <= i < k ==> encoded@[i] == prediv_chunk_byte(
                    #[trigger] padded_chunk(t, CHUNK_SIZE as nat, i),
                ),
                forall|i: int| size <= i < encoded@.len() ==> encoded@[i] == old(encoded)@[i],
            decreases size - k,
        {
            assert(k * CHUNK_SIZE < trits@.len()) by (nonlinear_arith)
                requires
                    k < size,
                    size * CHUNK_SIZE < trits@.len() + CHUNK_SIZE,
            ;
            assert(k * CHUNK_SIZE < len);
            encoded[k] = self.chunk_at(trits, k * CHUNK_SIZE);
            assert(padded_chunk(t, CHUNK_SIZE as nat, k as int) == padded_from(
                t,
                CHUNK_SIZE as nat,
                (k * CHUNK_SIZE) as int,
            ));
            k += 1;
        }
        assert(encoded@ =~= pack(t, CHUNK_SIZE as nat, |c: Seq<nat>| self.chunk_byte(c)) + old(
            encoded,
        )@.skip(size as int));
        Some(size)
    }

    fn decoded_size(&self, encoded: &[u8]) -> (r: usize) {
        encoded.len() * CHUNK_SIZE
    }

    fn decode_slice(&self, trits: &mut [Trit], encoded: &[u8]) -> (r: Option<()>) {
        let len = trits.len();
        let count = len / CHUNK_SIZE + if len % CHUNK_SIZE != 0 {
            1
        } else {
            0
        };
        proof {
            lemma_chunk_count_covers(len as nat, CHUNK_SIZE as nat);
        }
        if count > encoded.len() {
            return None;
        }
        let mut k: usize = 0;
        while k < count
            invariant
                len == trits@.len(),
                len == old(trits)@.len(),
                count as nat == chunk_count(len as nat, CHUNK_SIZE as nat),
                count * CHUNK_SIZE < len + CHUNK_SIZE,
                count * CHUNK_SIZE >= len,
                count <= encoded@.len(),
                k <= count,
                forall|kk: int| 0 <= kk < k ==> (#[trigger] prediv_chunk(encoded@[kk])) is Some,
                forall|i: int|
                    0 <= i < k * CHUNK_SIZE && i < len ==> (#[trigger] trits@[i])@ == prediv_chunk(
                        encoded@[i / CHUNK_SIZE as int],
                    )->Some_0[i % CHUNK_SIZE as int],
            decreases count - k,
        {
            let chunk = match self.decode_chunk(encoded[k]) {
                Some(chunk) => chunk,
                None => {
                    assert((|b: u8| self.byte_chunk(b))(encoded@[k as int]) is None);
                    return None;
                },
            };
            let start = k * CHUNK_SIZE;
            let mut j: usize = 0;
            while j < CHUNK_SIZE && j < len - start
                invariant
                    len == trits@.len(),
                    start == k * CHUNK_SIZE,
                    k < count,
                    count * CHUNK_SIZE < len + CHUNK_SIZE,
                    start < len,
                    j <= CHUNK_SIZE,
                    prediv_chunk(encoded@[k as int]) == Some(values(chunk@)),
                    forall|i: int|
                        0 <= i < start + j && i < len ==> (#[trigger] trits@[i])@ == prediv_chunk(
                            encoded@[i / CHUNK_SIZE as int],
                        )->Some_0[i % CHUNK_SIZE as int],
                decreases CHUNK_SIZE - j,
            {
                trits[start + j] = chunk[j];
                proof {
                    vstd::arithmetic::div_mod::lemma_fundamental_div_mod_converse(
                        (start + j) as int,
                        CHUNK_SIZE as int,
                        k as int,
                        j as int,
                    );
                    assert(chunk@[j as int]@ == values(chunk@)[j as int]);
                }
                j += 1;
            }
            k += 1;
        }
        let ghost u = unpack(encoded@, CHUNK_SIZE as nat, len as nat, |b: u8| self.byte_chunk(b));
        assert(values(trits@) =~= u->Some_0);
        Some(())
    }
}

/// Every byte decodes, into five trit values.
pub proof fn lemma_prediv_total(b: u8)
    ensures
        prediv_chunk(b) is Some,
        is_chunk(prediv_chunk(b)->Some_0, CHUNK_SIZE as nat),
{
    let r1 = prediv_rest(b);
    let r2 = prediv_rest(r1);
    let r3 = prediv_rest(r2);
    let r4 = prediv_rest(r3);
    assert(forall|r: u8| #[trigger] prediv_digit(r) < 3) by {
        assert forall|r: u8| #[trigger] prediv_digit(r) < 3 by {
            assert(prediv_digit(r) < 3) by (bit_vector);
        }
    }
    assert(prediv_digit(b) < 3 && prediv_digit(r1) < 3 && prediv_digit(r2) < 3 && prediv_digit(r3)
        < 3 && prediv_digit(r4) < 3);
}

/// Decoding what was encoded gives back every trit, for any length.
pub proof fn lemma_prediv_slice_round_trip(e: Base243PreDiv, t: Seq<Trit>)
    requires
        is_trit_seq(values(t)),
    ensures
        unpack(
            pack(values(t), e.chunk_len(), |c: Seq<nat>| e.chunk_byte(c)),
            e.chunk_len(),
            t.len(),
            |b: u8| e.byte_chunk(b),
        ) == Some(values(t)),
{
    let f = |c: Seq<nat>| e.chunk_byte(c);
    let g = |b: u8| e.byte_chunk(b);
    assert forall|c: Seq<nat>| is_chunk(c, CHUNK_SIZE as nat) implies #[trigger] g(f(c)) == Some(
        c,
    ) by {
        lemma_prediv_chunk_round_trip(c);
    }
    lemma_unpack_pack(values(t), CHUNK_SIZE as nat, f, g);
}

/// For every `v` below 3^5, decoding the byte for the base-3 digits of `v`
/// gives back those digits.
pub proof fn lemma_prediv_round_trip(v: nat)
    requires
        v < 243,
    ensures
        prediv_chunk(prediv_chunk_byte(digits(v, CHUNK_SIZE as nat))) == Some(digits(v, CHUNK_SIZE as nat)),
{
    lemma_digits_is_chunk(v, CHUNK_SIZE as nat);
    lemma_prediv_chunk_round_trip(digits(v, CHUNK_SIZE as nat));
}

/// Distinct chunks never share a byte.
pub proof fn lemma_prediv_injective(c1: Seq<nat>, c2: Seq<nat>)
    requires
        is_chunk(c1, CHUNK_SIZE as nat),
        is_chunk(c2, CHUNK_SIZE as nat),
        prediv_chunk_byte(c1) == prediv_chunk_byte(c2),
    ensures
        c1 == c2,
{
    lemma_prediv_chunk_round_trip(c1);
    lemma_prediv_chunk_round_trip(c2);
}

} // verus!
