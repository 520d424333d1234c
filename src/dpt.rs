use vstd::prelude::*;

use crate::engine::{
    chunk_count, digits, is_chunk, is_trit_seq, lemma_chunk_count_covers, lemma_digits_is_chunk,
    lemma_unpack_pack, padded_chunk, padded_from, pack, trit_or_zero, unpack, values, Engine,
};
use crate::trit::Trit;

verus! {

/// Densely packed ternary: five trits per byte, as two trit pairs and a single
/// trailing trit.
#[derive(Clone, Copy, Debug)]
pub struct DPT {}

/// Trits per byte.
pub const CHUNK_SIZE: usize = 5;

/// A trit pair, or a single trit, classified by whether its joint value fits
/// its small field.
enum EncodedSL {
    Small(u8),
    Large,
}

/// Joint value of a trit pair.
pub open spec fn pair_value(t0: u8, t1: u8) -> u8 {
    (t0 + 3 * t1) as u8
}

/// The byte for the trits `t0` to `t4`.
pub open spec fn dpt_byte(t0: u8, t1: u8, t2: u8, t3: u8, t4: u8) -> u8 {
    let p = pair_value(t0, t1);
    let q = pair_value(t2, t3);
    if p < 8 {
        if q < 8 {
            if t4 < 2 {
                (p | (q << 4u8)) | (t4 << 3u8)
            } else {
                (p | (q << 4u8)) | 0x80u8
            }
        } else {
            (0x8cu8 | (p << 4u8)) | t4
        }
    } else if q < 8 {
        (0x88u8 | (q << 4u8)) | t4
    } else {
        0x8bu8 | (t4 << 4u8)
    }
}

/// Both indicator bits, 3 and 7, are set in `b`.
pub open spec fn dpt_flagged(b: u8) -> bool {
    (b >> 3u8) & 1 != 0 && (b >> 7u8) & 1 != 0
}

/// A flagged byte whose bits 0 and 1 are set holds two large pairs.
pub open spec fn dpt_both_large(b: u8) -> bool {
    b & 1 != 0 && (b >> 1u8) & 1 != 0
}

/// The joint value of the first pair held in `b`.
pub open spec fn dpt_first(b: u8) -> u8 {
    if !dpt_flagged(b) {
        b & 7
    } else if dpt_both_large(b) || (b >> 2u8) & 1 == 0 {
        8
    } else {
        (b >> 4u8) & 7
    }
}

/// The joint value of the second pair held in `b`.
pub open spec fn dpt_second(b: u8) -> u8 {
    if !dpt_flagged(b) {
        (b >> 4u8) & 7
    } else if dpt_both_large(b) || (b >> 2u8) & 1 != 0 {
        8
    } else {
        (b >> 4u8) & 7
    }
}

/// The single trailing trit held in `b`.
pub open spec fn dpt_last(b: u8) -> u8 {
    if !dpt_flagged(b) {
        if (b >> 7u8) & 1 != 0 {
            2
        } else {
            (b >> 3u8) & 1
        }
    } else if dpt_both_large(b) {
        if (b >> 5u8) & 1 != 0 {
            2
        } else {
            (b >> 4u8) & 1
        }
    } else if (b >> 1u8) & 1 != 0 {
        2
    } else {
        b & 1
    }
}

/// The five trits that the byte `b` stands for.
pub open spec fn dpt_chunk(b: u8) -> Seq<nat> {
    seq![
        (dpt_first(b) % 3) as nat,
        (dpt_first(b) / 3) as nat,
        (dpt_second(b) % 3) as nat,
        (dpt_second(b) / 3) as nat,
        dpt_last(b) as nat,
    ]
}

/// The byte for a chunk of five trit values.
pub open spec fn dpt_chunk_byte(c: Seq<nat>) -> u8 {
    dpt_byte(c[0] as u8, c[1] as u8, c[2] as u8, c[3] as u8, c[4] as u8)
}

impl DPT {
    pub fn new() -> DPT {
        DPT {  }
    }

    /// Joint value of the pair (`t0`, `t1`).
    fn encode_2t_raw(&self, t0: Trit, t1: Trit) -> (r: u8)
        ensures
            r == pair_value(t0@ as u8, t1@ as u8),
            r < 9,
    {
        t0.value() + t1.value() * 3
    }

    fn encode_2t(&self, t0: Trit, t1: Trit) -> (r: EncodedSL)
        ensures
            pair_value(t0@ as u8, t1@ as u8) < 8 ==> r == EncodedSL::Small(
                pair_value(t0@ as u8, t1@ as u8),
            ),
            pair_value(t0@ as u8, t1@ as u8) >= 8 ==> r is Large,
    {
        let raw = self.encode_2t_raw(t0, t1);
        if raw < 8 {
            EncodedSL::Small(raw)
        } else {
            EncodedSL::Large
        }
    }

    fn encode_1t(&self, t: Trit) -> (r: EncodedSL)
        ensures
            t@ < 2 ==> r == EncodedSL::Small(t@ as u8),
            t@ >= 2 ==> r is Large,
    {
        let raw = t.value();
        if raw < 2 {
            EncodedSL::Small(raw)
        } else {
            EncodedSL::Large
        }
    }

    /// The pair whose joint value is the small value held, or 8 for a large pair.
    fn decode_2t(&self, encoded: EncodedSL) -> (r: (Trit, Trit))
        requires
            encoded matches EncodedSL::Small(v) ==> v < 8,
        ensures
            ({
                let raw: u8 = match encoded {
                    EncodedSL::Small(v) => v,
                    EncodedSL::Large => 8,
                };
                r.0@ == (raw % 3) as nat && r.1@ == (raw / 3) as nat
            }),
    {
        let raw = if let EncodedSL::Small(small) = encoded {
            small
        } else {
            8
        };
        let raw0 = raw % 3;
        let raw1 = raw / 3;
        (Trit::from_value(raw0), Trit::from_value(raw1))
    }

    /// The single trit whose value is the small value held, or 2 when large.
    fn decode_1t(&self, encoded: EncodedSL) -> (r: Trit)
        requires
            encoded matches EncodedSL::Small(v) ==> v < 2,
        ensures
            r@ == match encoded {
                EncodedSL::Small(v) => v as nat,
                EncodedSL::Large => 2,
            },
    {
        let raw = if let EncodedSL::Small(small) = encoded {
            small
        } else {
            2
        };
        Trit::from_value(raw)
    }

    /// Encodes up to five trits into one byte; missing trits count as zero.
    pub fn encode_chunk(&self, chunk: &[Trit]) -> (r: u8)
        requires
            chunk@.len() <= CHUNK_SIZE,
        ensures
            r == dpt_chunk_byte(padded_from(values(chunk@), CHUNK_SIZE as nat, 0)),
    {
        self.chunk_at(chunk, 0)
    }

    /// Encodes the five trits of `trits` from `start` on, padded with zeros.
    fn chunk_at(&self, trits: &[Trit], start: usize) -> (r: u8)
        requires
            start <= trits@.len(),
        ensures
            r == dpt_chunk_byte(padded_from(values(trits@), CHUNK_SIZE as nat, start as int)),
    {
        let chunk_filled = [
            trit_or_zero(trits, start, 0),
            trit_or_zero(trits, start, 1),
            trit_or_zero(trits, start, 2),
            trit_or_zero(trits, start, 3),
            trit_or_zero(trits, start, 4),
        ];
        let t4 = chunk_filled[4].value();
        let first_2t = self.encode_2t(chunk_filled[0], chunk_filled[1]);
        let second_2t = self.encode_2t(chunk_filled[2], chunk_filled[3]);
        let last_1t = self.encode_1t(chunk_filled[4]);
        let ghost c = padded_from(values(trits@), CHUNK_SIZE as nat, start as int);
        proof {
            assert(c[0] == chunk_filled[0]@);
            assert(c[1] == chunk_filled[1]@);
            assert(c[2] == chunk_filled[2]@);
            assert(c[3] == chunk_filled[3]@);
            assert(c[4] == chunk_filled[4]@);
        }
        if let EncodedSL::Small(first) = first_2t {
            if let EncodedSL::Small(second) = second_2t {
                // first: small, second: small
                let lower_4t = first | (second << 4u8);
                if let EncodedSL::Small(last) = last_1t {
                    lower_4t | (last << 3u8)
                } else {
                    lower_4t | 0b1000_0000u8
                }
            } else {
                // first: small, second: large
                let indicator: u8 = 0b1000_1100;
                indicator | (first << 4u8) | t4
            }
        } else if let EncodedSL::Small(second) = second_2t {
            // first: large, second: small
            let indicator: u8 = 0b1000_1000;
            indicator | (second << 4u8) | t4
        } else {
            // first: large, second: large
            let indicator: u8 = 0b1000_1011;
            indicator | (t4 << 4u8)
        }
    }

    /// Decodes one byte into five trits. Every byte value decodes.
    pub fn decode_chunk(&self, encoded_byte: u8) -> (r: [Trit; CHUNK_SIZE])
        ensures
            values(r@) == dpt_chunk(encoded_byte),
    {
        assert(encoded_byte & 7 < 8 && (encoded_byte >> 4u8) & 7 < 8 && encoded_byte & 1 < 2
            && (encoded_byte >> 3u8) & 1 < 2 && (encoded_byte >> 4u8) & 1 < 2) by (bit_vector);
        let indicator_3 = (encoded_byte >> 3u8) & 1;
        let indicator_7 = (encoded_byte >> 7u8) & 1;
        let (first_2t, second_2t, last_1t) = if indicator_3 != 0 && indicator_7 != 0 {
            let indicator_0 = encoded_byte & 1;
            let indicator_1 = (encoded_byte >> 1u8) & 1;
            if indicator_0 != 0 && indicator_1 != 0 {
                let indicator_5 = (encoded_byte >> 5u8) & 1;
                // first: large, second: large
                if indicator_5 != 0 {
                    (EncodedSL::Large, EncodedSL::Large, EncodedSL::Large)
                } else {
                    let last_small = (encoded_byte >> 4u8) & 1;
                    (EncodedSL::Large, EncodedSL::Large, EncodedSL::Small(last_small))
                }
            } else {
                let indicator_2 = (encoded_byte >> 2u8) & 1;
                let last_1t = if indicator_1 != 0 {
                    EncodedSL::Large
                } else {
                    EncodedSL::Small(indicator_0)
                };
                let small_bits = (encoded_byte >> 4u8) & 0b111;
                if indicator_2 != 0 {
                    // first: small, second: large
                    (EncodedSL::Small(small_bits), EncodedSL::Large, last_1t)
                } else {
                    // first: large, second: small
                    (EncodedSL::Large, EncodedSL::Small(small_bits), last_1t)
                }
            }
        } else {
            // first: small, second: small
            let first_2t = EncodedSL::Small(encoded_byte & 0b111);
            let second_2t = EncodedSL::Small((encoded_byte >> 4u8) & 0b111);
            let last_1t = if indicator_7 != 0 {
                EncodedSL::Large
            } else {
                EncodedSL::Small(indicator_3)
            };
            (first_2t, second_2t, last_1t)
        };
        let (t0, t1) = self.decode_2t(first_2t);
        let (t2, t3) = self.decode_2t(second_2t);
        let t4 = self.decode_1t(last_1t);
        let r = [t0, t1, t2, t3, t4];
        assert(values(r@) =~= dpt_chunk(encoded_byte));
        r
    }
}

impl Engine for DPT {
    open spec fn chunk_len(&self) -> nat {
        CHUNK_SIZE as nat
    }

    open spec fn chunk_byte(&self, c: Seq<nat>) -> u8 {
        dpt_chunk_byte(c)
    }

    open spec fn byte_chunk(&self, b: u8) -> Option<Seq<nat>> {
        Some(dpt_chunk(b))
    }

    fn encoded_size(&self, trits: &[Trit]) -> (r: usize) {
        // CHUNK_SIZE trits -> 1 byte
        let len = trits.len();
        let r = len / CHUNK_SIZE + if len % CHUNK_SIZE != 0 {
            1
        } else {
            0
        };
        r
    }

    fn encode_slice(&self, encoded: &mut [u8], trits: &[Trit]) -> (r: Option<usize>) {
        let size = self.encoded_size(trits);
        if size > encoded.len() {
            return None;
        }
        let len = trits.len();
        let ghost t = values(trits@);
        proof {
            lemma_chunk_count_covers(trits@.len(), CHUNK_SIZE as nat);
        }
        let mut k: usize = 0;
        while k < size
            invariant
                t == values(trits@),
                len == trits@.len(),
                size as nat == chunk_count(trits@.len(), CHUNK_SIZE as nat),
                size * CHUNK_SIZE < trits@.len() + CHUNK_SIZE,
                size <= encoded@.len(),
                k <= size,
                encoded@.len() == old(encoded)@.len(),
                forall|i: int| 0 <= i < k ==> encoded@[i] == dpt_chunk_byte(
                    #[trigger] padded_chunk(t, CHUNK_SIZE as nat, i),
                ),
                forall|i: int| size <= i < encoded@.len() ==> encoded@[i] == old(encoded)@[i],
            decreases size - k,
        {
            assert(k * CHUNK_SIZE < trits@.len()) by (nonlinear_arith)
                requires
                    k < size,
                    size * CHUNK_SIZE < trits@.len() + CHUNK_SIZE,
            ;
            assert(k * CHUNK_SIZE < len);
            encoded[k] = self.chunk_at(trits, k * CHUNK_SIZE);
            assert(padded_chunk(t, CHUNK_SIZE as nat, k as int) == padded_from(
                t,
                CHUNK_SIZE as nat,
                (k * CHUNK_SIZE) as int,
            ));
            k += 1;
        }
        assert(encoded@ =~= pack(t, CHUNK_SIZE as nat, |c: Seq<nat>| self.chunk_byte(c)) + old(
            encoded,
        )@.skip(size as int));
        Some(size)
    }

    fn decoded_size(&self, encoded: &[u8]) -> (r: usize) {
        encoded.len() * CHUNK_SIZE
    }

    fn decode_slice(&self, trits: &mut [Trit], encoded: &[u8]) -> (r: Option<()>) {
        let len = trits.len();
        let count = len / CHUNK_SIZE + if len % CHUNK_SIZE != 0 {
            1
        } else {
            0
        };
        proof {
            lemma_chunk_count_covers(len as nat, CHUNK_SIZE as nat);
        }
        if count > encoded.len() {
            return None;
        }
        let mut k: usize = 0;
        while k < count
            invariant
                len == trits@.len(),
                len == old(trits)@.len(),
                count as nat == chunk_count(len as nat, CHUNK_SIZE as nat),
                count * CHUNK_SIZE < len + CHUNK_SIZE,
                count * CHUNK_SIZE >= len,
                count <= encoded@.len(),
                k <= count,
                forall|i: int|
                    0 <= i < k * CHUNK_SIZE && i < len ==> (#[trigger] trits@[i])@ == dpt_chunk(
                        encoded@[i / CHUNK_SIZE as int],
                    )[i % CHUNK_SIZE as int],
            decreases count - k,
        {
            let chunk = self.decode_chunk(encoded[k]);
            let start = k * CHUNK_SIZE;
            let mut j: usize = 0;
            while j < CHUNK_SIZE && j < len - start
                invariant
                    len == trits@.len(),
                    start == k * CHUNK_SIZE,
                    k < count,
                    count * CHUNK_SIZE < len + CHUNK_SIZE,
                    start < len,
                    j <= CHUNK_SIZE,
                    values(chunk@) == dpt_chunk(encoded@[k as int]),
                    forall|i: int|
                        0 <= i < start + j && i < len ==> (#[trigger] trits@[i])@ == dpt_chunk(
                            encoded@[i / CHUNK_SIZE as int],
                        )[i % CHUNK_SIZE as int],
                decreases CHUNK_SIZE - j,
            {
                trits[start + j] = chunk[j];
                proof {
                    vstd::arithmetic::div_mod::lemma_fundamental_div_mod_converse(
                        (start + j) as int,
                        CHUNK_SIZE as int,
                        k as int,
                        j as int,
                    );
                    assert(chunk@[j as int]@ == values(chunk@)[j as int]);
                }
                j += 1;
            }
            k += 1;
        }
        let ghost u = unpack(encoded@, CHUNK_SIZE as nat, len as nat, |b: u8| self.byte_chunk(b));
        assert(values(trits@) =~= u->Some_0);
        Some(())
    }
}

/// Every byte decodes, into five trit values.
pub proof fn lemma_dpt_total(b: u8)
    ensures
        is_chunk(dpt_chunk(b), CHUNK_SIZE as nat),
{
    assert(dpt_first(b) < 9 && dpt_second(b) < 9 && dpt_last(b) < 3) by (bit_vector);
}

/// Bit-level round trip of one chunk: the fields read back from the byte for
/// five trits are those trits.
proof fn lemma_dpt_bits(t0: u8, t1: u8, t2: u8, t3: u8, t4: u8)
    by (bit_vector)
    requires
        t0 < 3,
        t1 < 3,
        t2 < 3,
        t3 < 3,
        t4 < 3,
    ensures
        dpt_first(dpt_byte(t0, t1, t2, t3, t4)) % 3 == t0,
        dpt_first(dpt_byte(t0, t1, t2, t3, t4)) / 3 == t1,
        dpt_second(dpt_byte(t0, t1, t2, t3, t4)) % 3 == t2,
        dpt_second(dpt_byte(t0, t1, t2, t3, t4)) / 3 == t3,
        dpt_last(dpt_byte(t0, t1, t2, t3, t4)) == t4,
{
}

/// Decoding the byte for any chunk of five trits gives back that chunk.
pub proof fn lemma_dpt_chunk_round_trip(c: Seq<nat>)
    requires
        is_chunk(c, CHUNK_SIZE as nat),
    ensures
        dpt_chunk(dpt_chunk_byte(c)) == c,
{
    assert(c[0] < 3 && c[1] < 3 && c[2] < 3 && c[3] < 3 && c[4] < 3);
    lemma_dpt_bits(c[0] as u8, c[1] as u8, c[2] as u8, c[3] as u8, c[4] as u8);
    assert(dpt_chunk(dpt_chunk_byte(c)) =~= c);
}

/// For every `v` below 3^5, decoding the byte for the base-3 digits of `v`
/// gives back those digits.
pub proof fn lemma_dpt_round_trip(v: nat)
    requires
        v < 243,
    ensures
        dpt_chunk(dpt_chunk_byte(digits(v, CHUNK_SIZE as nat))) == digits(v, CHUNK_SIZE as nat),
{
    lemma_digits_is_chunk(v, CHUNK_SIZE as nat);
    lemma_dpt_chunk_round_trip(digits(v, CHUNK_SIZE as nat));
}

/// Distinct chunks of five trits never share a byte.
pub proof fn lemma_dpt_injective(c1: Seq<nat>, c2: Seq<nat>)
    requires
        is_chunk(c1, CHUNK_SIZE as nat),
        is_chunk(c2, CHUNK_SIZE as nat),
        dpt_chunk_byte(c1) == dpt_chunk_byte(c2),
    ensures
        c1 == c2,
{
    lemma_dpt_chunk_round_trip(c1);
    lemma_dpt_chunk_round_trip(c2);
}

/// Decoding what was encoded gives back every trit, for any length.
pub proof fn lemma_dpt_slice_round_trip(e: DPT, t: Seq<Trit>)
    requires
        is_trit_seq(values(t)),
    ensures
        unpack(
            pack(values(t), e.chunk_len(), |c: Seq<nat>| e.chunk_byte(c)),
            e.chunk_len(),
            t.len(),
            |b: u8| e.byte_chunk(b),
        ) == Some(values(t)),
{
    let f = |c: Seq<nat>| e.chunk_byte(c);
    let g = |b: u8| e.byte_chunk(b);
    assert forall|c: Seq<nat>| is_chunk(c, CHUNK_SIZE as nat) implies #[trigger] g(f(c)) == Some(
        c,
    ) by {
        lemma_dpt_chunk_round_trip(c);
    }
    lemma_unpack_pack(values(t), CHUNK_SIZE as nat, f, g);
}

} // verus!
