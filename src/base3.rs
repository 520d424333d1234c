use vstd::prelude::*;

use crate::engine::{
    chunk_count, digits, is_chunk, is_trit_seq, lemma_chunk_count_covers, lemma_digits_is_chunk,
    lemma_unpack_pack, padded_chunk, padded_from, pack, trit_or_zero, unpack, values, Engine,
};
use crate::trit::Trit;

verus! {

/// Naive base 3: five trits per byte as a little-endian base-3 number, 0 to 242.
#[derive(Clone, Copy, Debug)]
pub struct Base3 {}

/// Trits per byte.
pub const CHUNK_SIZE: usize = 5;

/// `t0 + 3 t1 + 9 t2 + 27 t3 + 81 t4`, as a byte.
pub open spec fn base3_value(t0: u8, t1: u8, t2: u8, t3: u8, t4: u8) -> u8 {
    (t0 + 3 * t1 + 9 * t2 + 27 * t3 + 81 * t4) as u8
}

/// The byte for a chunk of five trit values.
pub open spec fn base3_chunk_byte(c: Seq<nat>) -> u8 {
    base3_value(c[0] as u8, c[1] as u8, c[2] as u8, c[3] as u8, c[4] as u8)
}

/// The five base-3 digits of `b`, or `None` for a byte of 243 or more.
pub open spec fn base3_chunk(b: u8) -> Option<Seq<nat>> {
    if b < 243 {
        Some(
            seq![
                (b % 3) as nat,
                (b / 3 % 3) as nat,
                (b / 9 % 3) as nat,
                (b / 27 % 3) as nat,
                (b / 81 % 3) as nat,
            ],
        )
    } else {
        None
    }
}

impl Base3 {
    pub fn new() -> Base3 {
        Base3 {  }
    }

    /// Encodes up to five trits into one byte; missing trits count as zero.
    pub fn encode_chunk(&self, chunk: &[Trit]) -> (r: u8)
        requires
            chunk@.len() <= CHUNK_SIZE,
        ensures
            r == base3_chunk_byte(padded_from(values(chunk@), CHUNK_SIZE as nat, 0)),
    {
        self.chunk_at(chunk, 0)
    }

    /// Encodes the five trits of `trits` from `start` on, padded with zeros.
    fn chunk_at(&self, trits: &[Trit], start: usize) -> (r: u8)
        requires
            start <= trits@.len(),
        ensures
            r == base3_chunk_byte(padded_from(values(trits@), CHUNK_SIZE as nat, start as int)),
    {
        let t0 = trit_or_zero(trits, start, 0).value();
        let t1 = trit_or_zero(trits, start, 1).value();
        let t2 = trit_or_zero(trits, start, 2).value();
        let t3 = trit_or_zero(trits, start, 3).value();
        let t4 = trit_or_zero(trits, start, 4).value();
        let ghost c = padded_from(values(trits@), CHUNK_SIZE as nat, start as int);
        assert(c[0] == t0 && c[1] == t1 && c[2] == t2 && c[3] == t3 && c[4] == t4);
        t0 + t1 * 3 + t2 * 9 + t3 * 27 + t4 * 81
    }

    /// Decodes one byte into five trits; `None` for a byte of 243 or more.
    pub fn decode_chunk(&self, encoded_byte: u8) -> (r: Option<[Trit; CHUNK_SIZE]>)
        ensures
            r is Some <==> base3_chunk(encoded_byte) is Some,
            r is Some ==> base3_chunk(encoded_byte) == Some(values(r->Some_0@)),
    {
        let b = encoded_byte;
        let t0 = Trit::from_value(b % 3);
        let t1 = Trit::from_value(b / 3 % 3);
        let t2 = Trit::from_value(b / 9 % 3);
        let t3 = Trit::from_value(b / 27 % 3);
        let t4 = Trit::from_value(b / 81 % 3);
        if b / 243 == 0 {
            let r = [t0, t1, t2, t3, t4];
            assert(values(r@) =~= base3_chunk(b)->Some_0);
            Some(r)
        } else {
            None
        }
    }
}

/// Bit-level round trip of one chunk.
proof fn lemma_base3_bits(t0: u8, t1: u8, t2: u8, t3: u8, t4: u8)
    by (bit_vector)
    requires
        t0 < 3,
        t1 < 3,
        t2 < 3,
        t3 < 3,
        t4 < 3,
    ensures
        base3_value(t0, t1, t2, t3, t4) < 243,
        base3_value(t0, t1, t2, t3, t4) % 3 == t0,
        base3_value(t0, t1, t2, t3, t4) / 3 % 3 == t1,
        base3_value(t0, t1, t2, t3, t4) / 9 % 3 == t2,
        base3_value(t0, t1, t2, t3, t4) / 27 % 3 == t3,
        base3_value(t0, t1, t2, t3, t4) / 81 % 3 == t4,
{
}

/// Decoding the byte for any chunk of five trits gives back that chunk.
pub proof fn lemma_base3_chunk_round_trip(c: Seq<nat>)
    requires
        is_chunk(c, CHUNK_SIZE as nat),
    ensures
        base3_chunk(base3_chunk_byte(c)) == Some(c),
{
    assert(c[0] < 3 && c[1] < 3 && c[2] < 3 && c[3] < 3 && c[4] < 3);
    lemma_base3_bits(c[0] as u8, c[1] as u8, c[2] as u8, c[3] as u8, c[4] as u8);
    assert(base3_chunk(base3_chunk_byte(c))->Some_0 =~= c);
}

/// Every byte of 243 or more is an invalid codepoint.
pub proof fn lemma_base3_rejects_high(b: u8)
    requires
        b >= 243,
    ensures
        base3_chunk(b) is None,
{
}

impl Engine for Base3 {
    open spec fn chunk_len(&self) -> nat {
        CHUNK_SIZE as nat
    }

    open spec fn chunk_byte(&self, c: Seq<nat>) -> u8 {
        base3_chunk_byte(c)
    }

    open spec fn byte_chunk(&self, b: u8) -> Option<Seq<nat>> {
        base3_chunk(b)
    }

    fn encoded_size(&self, trits: &[Trit]) -> (r: usize) {
        // CHUNK_SIZE trits -> 1 byte
        let len = trits.len();
        let r = len / CHUNK_SIZE + if len % CHUNK_SIZE != 0 {
            1
        } else {
            0
        };
        r
    }

    fn encode_slice(&self, encoded: &mut [u8], trits: &[Trit]) -> (r: Option<usize>) {
        let size = self.encoded_size(trits);
        if size > encoded.len() {
            return None;
        }
        let len = trits.len();
        let ghost t = values(trits@);
        proof {
            lemma_chunk_count_covers(trits@.len(), CHUNK_SIZE as nat);
        }
        let mut k: usize = 0;
        while k < size
            invariant
                t == values(trits@),
                len == trits@.len(),
                size as nat == chunk_count(trits@.len(), CHUNK_SIZE as nat),
                size * CHUNK_SIZE < trits@.len() + CHUNK_SIZE,
                size <= encoded@.len(),
                k <= size,
                encoded@.len() == old(encoded)@.len(),
                forall|i: int| 0 <= i < k ==> encoded@[i] == base3_chunk_byte(
                    #[trigger] padded_chunk(t, CHUNK_SIZE as nat, i),
                ),
                forall|i: int| size <= i < encoded@.len() ==> encoded@[i] == old(encoded)@[i],
            decreases size - k,
        {
            assert(k * CHUNK_SIZE < trits@.len()) by (nonlinear_arith)
                requires
                    k < size,
                    size * CHUNK_SIZE < trits@.len() + CHUNK_SIZE,
            ;
            assert(k * CHUNK_SIZE < len);
            encoded[k] = self.chunk_at(trits, k * CHUNK_SIZE);
            assert(padded_chunk(t, CHUNK_SIZE as nat, k as int) == padded_from(
                t,
                CHUNK_SIZE as nat,
                (k * CHUNK_SIZE) as int,
            ));
            k += 1;
        }
        assert(encoded@ =~= pack(t, CHUNK_SIZE as nat, |c: Seq<nat>| self.chunk_byte(c)) + old(
            encoded,
        )@.skip(size as int));
        Some(size)
    }

    fn decoded_size(&self, encoded: &[u8]) -> (r: usize) {
        encoded.len() * CHUNK_SIZE
    }

    fn decode_slice(&self, trits: &mut [Trit], encoded: &[u8]) -> (r: Option<()>) {
        let len = trits.len();
        let count = len / CHUNK_SIZE + if len % CHUNK_SIZE != 0 {
            1
        } else {
            0
        };
        proof {
            lemma_chunk_count_covers(len as nat, CHUNK_SIZE as nat);
        }
        if count > encoded.len() {
            return None;
        }
        let mut k: usize = 0;
        while k < count
            invariant
                len == trits@.len(),
                len == old(trits)@.len(),
                count as nat == chunk_count(len as nat, CHUNK_SIZE as nat),
                count * CHUNK_SIZE < len + CHUNK_SIZE,
                count * CHUNK_SIZE >= len,
                count <= encoded@.len(),
                k <= count,
                forall|kk: int| 0 <= kk < k ==> (#[trigger] base3_chunk(encoded@[kk])) is Some,
                forall|i: int|
                    0 <= i < k * CHUNK_SIZE && i < len ==> (#[trigger] trits@[i])@ == base3_chunk(
                        encoded@[i / CHUNK_SIZE as int],
                    )->Some_0[i % CHUNK_SIZE as int],
            decreases count - k,
        {
            let chunk = match self.decode_chunk(encoded[k]) {
                Some(chunk) => chunk,
                None => {
                    assert((|b: u8| self.byte_chunk(b))(encoded@[k as int]) is None);
                    return None;
                },
            };
            let start = k * CHUNK_SIZE;
            let mut j: usize = 0;
            while j < CHUNK_SIZE && j < len - start
                invariant
                    len == trits@.len(),
                    start == k * CHUNK_SIZE,
                    k < count,
                    count * CHUNK_SIZE < len + CHUNK_SIZE,
                    start < len,
                    j <= CHUNK_SIZE,
                    base3_chunk(encoded@[k as int]) == Some(values(chunk@)),
                    forall|i: int|
                        0 <= i < start + j && i < len ==> (#[trigger] trits@[i])@ == base3_chunk(
                            encoded@[i / CHUNK_SIZE as int],
                        )->Some_0[i % CHUNK_SIZE as int],
                decreases CHUNK_SIZE - j,
            {
                trits[start + j] = chunk[j];
                proof {
                    vstd::arithmetic::div_mod::lemma_fundamental_div_mod_converse(
                        (start + j) as int,
                        CHUNK_SIZE as int,
                        k as int,
                        j as int,
                    );
                    assert(chunk@[j as int]@ == values(chunk@)[j as int]);
                }
                j += 1;
            }
            k += 1;
        }
        let ghost u = unpack(encoded@, CHUNK_SIZE as nat, len as nat, |b: u8| self.byte_chunk(b));
        assert(values(trits@) =~= u->Some_0);
        Some(())
    }
}

/// Decoding what was encoded gives back every trit, for any length.
pub proof fn lemma_base3_slice_round_trip(e: Base3, t: Seq<Trit>)
    requires
        is_trit_seq(values(t)),
    ensures
        unpack(
            pack(values(t), e.chunk_len(), |c: Seq<nat>| e.chunk_byte(c)),
            e.chunk_len(),
            t.len(),
            |b: u8| e.byte_chunk(b),
        ) == Some(values(t)),
{
    let f = |c: Seq<nat>| e.chunk_byte(c);
    let g = |b: u8| e.byte_chunk(b);
    assert forall|c: Seq<nat>| is_chunk(c, CHUNK_SIZE as nat) implies #[trigger] g(f(c)) == Some(
        c,
    ) by {
        lemma_base3_chunk_round_trip(c);
    }
    lemma_unpack_pack(values(t), CHUNK_SIZE as nat, f, g);
}

/// For every `v` below 3^5, decoding the byte for the base-3 digits of `v`
/// gives back those digits.
pub proof fn lemma_base3_round_trip(v: nat)
    requires
        v < 243,
    ensures
        base3_chunk(base3_chunk_byte(digits(v, CHUNK_SIZE as nat))) == Some(digits(v, CHUNK_SIZE as nat)),
{
    lemma_digits_is_chunk(v, CHUNK_SIZE as nat);
    lemma_base3_chunk_round_trip(digits(v, CHUNK_SIZE as nat));
}

/// Distinct chunks never share a byte.
pub proof fn lemma_base3_injective(c1: Seq<nat>, c2: Seq<nat>)
    requires
        is_chunk(c1, CHUNK_SIZE as nat),
        is_chunk(c2, CHUNK_SIZE as nat),
        base3_chunk_byte(c1) == base3_chunk_byte(c2),
    ensures
        c1 == c2,
{
    lemma_base3_chunk_round_trip(c1);
    lemma_base3_chunk_round_trip(c2);
}

} // verus!
