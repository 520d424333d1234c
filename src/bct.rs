use vstd::prelude::*;

use crate::engine::{
    chunk_count, digits, is_chunk, is_trit_seq, lemma_chunk_count_covers, lemma_digits_is_chunk,
    lemma_unpack_pack, padded_chunk, padded_from, pack, trit_or_zero, unpack, values, Engine,
};
use crate::trit::Trit;

verus! {

/// Binary coded ternary: each trit in a two-bit field, four trits per byte.
#[derive(Clone, Copy, Debug)]
pub struct BCT {}

/// Trits per byte.
pub const CHUNK_SIZE: usize = 4;

/// Trit `i` in bits `2 i` and `2 i + 1`.
pub open spec fn bct_value(t0: u8, t1: u8, t2: u8, t3: u8) -> u8 {
    t0 | (t1 << 2u8) | (t2 << 4u8) | (t3 << 6u8)
}

/// The byte for a chunk of four trit values.
pub open spec fn bct_chunk_byte(c: Seq<nat>) -> u8 {
    bct_value(c[0] as u8, c[1] as u8, c[2] as u8, c[3] as u8)
}

/// The two-bit field `i` of `b`.
pub open spec fn bct_field(b: u8, i: u8) -> u8 {
    (b >> (2 * i) as u8) & 3
}

/// The four fields of `b`, or `None` where one of them is 3.
pub open spec fn bct_chunk(b: u8) -> Option<Seq<nat>> {
    if bct_field(b, 0) < 3 && bct_field(b, 1) < 3 && bct_field(b, 2) < 3 && bct_field(b, 3) < 3 {
        Some(
            seq![
                bct_field(b, 0) as nat,
                bct_field(b, 1) as nat,
                bct_field(b, 2) as nat,
                bct_field(b, 3) as nat,
            ],
        )
    } else {
        None
    }
}

impl BCT {
    pub fn new() -> BCT {
        BCT {  }
    }

    /// Encodes up to four trits into one byte; missing trits count as zero.
    pub fn encode_chunk(&self, chunk: &[Trit]) -> (r: u8)
        requires
            chunk@.len() <= CHUNK_SIZE,
        ensures
            r == bct_chunk_byte(padded_from(values(chunk@), CHUNK_SIZE as nat, 0)),
    {
        self.chunk_at(chunk, 0)
    }

    /// Encodes the four trits of `trits` from `start` on, padded with zeros.
    fn chunk_at(&self, trits: &[Trit], start: usize) -> (r: u8)
        requires
            start <= trits@.len(),
        ensures
            r == bct_chunk_byte(padded_from(values(trits@), CHUNK_SIZE as nat, start as int)),
    {
        let t0 = trit_or_zero(trits, start, 0).value();
        let t1 = trit_or_zero(trits, start, 1).value();
        let t2 = trit_or_zero(trits, start, 2).value();
        let t3 = trit_or_zero(trits, start, 3).value();
        let ghost c = padded_from(values(trits@), CHUNK_SIZE as nat, start as int);
        assert(c[0] == t0 && c[1] == t1 && c[2] == t2 && c[3] == t3);
        t0 | (t1 << 2u8) | (t2 << 4u8) | (t3 << 6u8)
    }

    /// Decodes one byte into four trits; `None` where a field holds 3.
    pub fn decode_chunk(&self, encoded_byte: u8) -> (r: Option<[Trit; CHUNK_SIZE]>)
        ensures
            r is Some <==> bct_chunk(encoded_byte) is Some,
            r is Some ==> bct_chunk(encoded_byte) == Some(values(r->Some_0@)),
    {
        let b = encoded_byte;
        let f0 = b & 0b11;
        let f1 = (b >> 2u8) & 0b11;
        let f2 = (b >> 4u8) & 0b11;
        let f3 = (b >> 6u8) & 0b11;
        assert(f0 == bct_field(b, 0) && f1 == bct_field(b, 1) && f2 == bct_field(b, 2) && f3
            == bct_field(b, 3)) by (bit_vector)
            requires
                f0 == b & 0b11,
                f1 == (b >> 2u8) & 0b11,
                f2 == (b >> 4u8) & 0b11,
                f3 == (b >> 6u8) & 0b11,
        ;
        if f0 == 3 || f1 == 3 || f2 == 3 || f3 == 3 {
            return None;
        }
        assert(f0 < 4 && f1 < 4 && f2 < 4 && f3 < 4) by (bit_vector)
            requires
                f0 == b & 0b11,
                f1 == (b >> 2u8) & 0b11,
                f2 == (b >> 4u8) & 0b11,
                f3 == (b >> 6u8) & 0b11,
        ;
        let r = [
            Trit::from_value(f0),
            Trit::from_value(f1),
            Trit::from_value(f2),
            Trit::from_value(f3),
        ];
        assert(values(r@) =~= bct_chunk(b)->Some_0);
        Some(r)
    }
}

/// Bit-level round trip of one chunk.
proof fn lemma_bct_bits(t0: u8, t1: u8, t2: u8, t3: u8)
    by (bit_vector)
    requires
        t0 < 3,
        t1 < 3,
        t2 < 3,
        t3 < 3,
    ensures
        bct_field(bct_value(t0, t1, t2, t3), 0) == t0,
        bct_field(bct_value(t0, t1, t2, t3), 1) == t1,
        bct_field(bct_value(t0, t1, t2, t3), 2) == t2,
        bct_field(bct_value(t0, t1, t2, t3), 3) == t3,
{
}

/// Decoding the byte for any chunk of four trits gives back that chunk.
pub proof fn lemma_bct_chunk_round_trip(c: Seq<nat>)
    requires
        is_chunk(c, CHUNK_SIZE as nat),
    ensures
        bct_chunk(bct_chunk_byte(c)) == Some(c),
{
    assert(c[0] < 3 && c[1] < 3 && c[2] < 3 && c[3] < 3);
    lemma_bct_bits(c[0] as u8, c[1] as u8, c[2] as u8, c[3] as u8);
    assert(bct_chunk(bct_chunk_byte(c))->Some_0 =~= c);
}

impl Engine for BCT {
    open spec fn chunk_len(&self) -> nat {
        CHUNK_SIZE as nat
    }

    open spec fn chunk_byte(&self, c: Seq<nat>) -> u8 {
        bct_chunk_byte(c)
    }

    open spec fn byte_chunk(&self, b: u8) -> Option<Seq<nat>> {
        bct_chunk(b)
    }

    fn encoded_size(&self, trits: &[Trit]) -> (r: usize) {
        // CHUNK_SIZE trits -> 1 byte
        let len = trits.len();
        let r = len / CHUNK_SIZE + if len % CHUNK_SIZE != 0 {
            1
        } else {
            0
        };
        r
    }

    fn encode_slice(&self, encoded: &mut [u8], trits: &[Trit]) -> (r: Option<usize>) {
        let size = self.encoded_size(trits);
        if size > encoded.len() {
            return None;
        }
        let len = trits.len();
        let ghost t = values(trits@);
        proof {
            lemma_chunk_count_covers(trits@.len(), CHUNK_SIZE as nat);
        }
        let mut k: usize = 0;
        while k < size
            invariant
                t == values(trits@),
                len == trits@.len(),
                size as nat == chunk_count(trits@.len(), CHUNK_SIZE as nat),
                size * CHUNK_SIZE < trits@.len() + CHUNK_SIZE,
                size <= encoded@.len(),
                k <= size,
                encoded@.len() == old(encoded)@.len(),
                forall|i: int| 0 <= i < k ==> encoded@[i] == bct_chunk_byte(
                    #[trigger] padded_chunk(t, CHUNK_SIZE as nat, i),
                ),
                forall|i: int| size <= i < encoded@.len() ==> encoded@[i] == old(encoded)@[i],
            decreases size - k,
        {
            assert(k * CHUNK_SIZE < trits@.len()) by (nonlinear_arith)
                requires
                    k < size,
                    size * CHUNK_SIZE < trits@.len() + CHUNK_SIZE,
            ;
            assert(k * CHUNK_SIZE < len);
            encoded[k] = self.chunk_at(trits, k * CHUNK_SIZE);
            assert(padded_chunk(t, CHUNK_SIZE as nat, k as int) == padded_from(
                t,
                CHUNK_SIZE as nat,
                (k * CHUNK_SIZE) as int,
            ));
            k += 1;
        }
        assert(encoded@ =~= pack(t, CHUNK_SIZE as nat, |c: Seq<nat>| self.chunk_byte(c)) + old(
            encoded,
        )@.skip(size as int));
        Some(size)
    }

    fn decoded_size(&self, encoded: &[u8]) -> (r: usize) {
        encoded.len() * CHUNK_SIZE
    }

    fn decode_slice(&self, trits: &mut [Trit], encoded: &[u8]) -> (r: Option<()>) {
        let len = trits.len();
        let count = len / CHUNK_SIZE + if len % CHUNK_SIZE != 0 {
            1
        } else {
            0
        };
        proof {
            lemma_chunk_count_covers(len as nat, CHUNK_SIZE as nat);
        }
        if count > encoded.len() {
            return None;
        }
        let mut k: usize = 0;
        while k < count
            invariant
                len == trits@.len(),
                len == old(trits)@.len(),
                count as nat == chunk_count(len as nat, CHUNK_SIZE as nat),
                count * CHUNK_SIZE < len + CHUNK_SIZE,
                count * CHUNK_SIZE >= len,
                count <= encoded@.len(),
                k <= count,
                forall|kk: int| 0 <= kk < k ==> (#[trigger] bct_chunk(encoded@[kk])) is Some,
                forall|i: int|
                    0 <= i < k * CHUNK_SIZE && i < len ==> (#[trigger] trits@[i])@ == bct_chunk(
                        encoded@[i / CHUNK_SIZE as int],
                    )->Some_0[i % CHUNK_SIZE as int],
            decreases count - k,
        {
            let chunk = match self.decode_chunk(encoded[k]) {
                Some(chunk) => chunk,
                None => {
                    assert((|b: u8| self.byte_chunk(b))(encoded@[k as int]) is None);
                    return None;
                },
            };
            let start = k * CHUNK_SIZE;
            let mut j: usize = 0;
            while j < CHUNK_SIZE && j < len - start
                invariant
                    len == trits@.len(),
                    start == k * CHUNK_SIZE,
                    k < count,
                    count * CHUNK_SIZE < len + CHUNK_SIZE,
                    start < len,
                    j <= CHUNK_SIZE,
                    bct_chunk(encoded@[k as int]) == Some(values(chunk@)),
                    forall|i: int|
                        0 <= i < start + j && i < len ==> (#[trigger] trits@[i])@ == bct_chunk(
                            encoded@[i / CHUNK_SIZE as int],
                        )->Some_0[i % CHUNK_SIZE as int],
                decreases CHUNK_SIZE - j,
            {
                trits[start + j] = chunk[j];
                proof {
                    vstd::arithmetic::div_mod::lemma_fundamental_div_mod_converse(
                        (start + j) as int,
                        CHUNK_SIZE as int,
                        k as int,
                        j as int,
                    );
                    assert(chunk@[j as int]@ == values(chunk@)[j as int]);
                }
                j += 1;
            }
            k += 1;
        }
        let ghost u = unpack(encoded@, CHUNK_SIZE as nat, len as nat, |b: u8| self.byte_chunk(b));
        assert(values(trits@) =~= u->Some_0);
        Some(())
    }
}

/// Decoding what was encoded gives back every trit, for any length.
pub proof fn lemma_bct_slice_round_trip(e: BCT, t: Seq<Trit>)
    requires
        is_trit_seq(values(t)),
    ensures
        unpack(
            pack(values(t), e.chunk_len(), |c: Seq<nat>| e.chunk_byte(c)),
            e.chunk_len(),
            t.len(),
            |b: u8| e.byte_chunk(b),
        ) == Some(values(t)),
{
    let f = |c: Seq<nat>| e.chunk_byte(c);
    let g = |b: u8| e.byte_chunk(b);
    assert forall|c: Seq<nat>| is_chunk(c, CHUNK_SIZE as nat) implies #[trigger] g(f(c)) == Some(
        c,
    ) by {
        lemma_bct_chunk_round_trip(c);
    }
    lemma_unpack_pack(values(t), CHUNK_SIZE as nat, f, g);
}

/// For every `v` below 3^4, decoding the byte for the base-3 digits of `v`
/// gives back those digits.
pub proof fn lemma_bct_round_trip(v: nat)
    requires
        v < 81,
    ensures
        bct_chunk(bct_chunk_byte(digits(v, CHUNK_SIZE as nat))) == Some(digits(v, CHUNK_SIZE as nat)),
{
    lemma_digits_is_chunk(v, CHUNK_SIZE as nat);
    lemma_bct_chunk_round_trip(digits(v, CHUNK_SIZE as nat));
}

/// Distinct chunks never share a byte.
pub proof fn lemma_bct_injective(c1: Seq<nat>, c2: Seq<nat>)
    requires
        is_chunk(c1, CHUNK_SIZE as nat),
        is_chunk(c2, CHUNK_SIZE as nat),
        bct_chunk_byte(c1) == bct_chunk_byte(c2),
    ensures
        c1 == c2,
{
    lemma_bct_chunk_round_trip(c1);
    lemma_bct_chunk_round_trip(c2);
}

} // verus!
