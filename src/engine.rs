use vstd::prelude::*;

use vstd::arithmetic::power::pow;

use crate::trit::Trit;

verus! {

/// Number of `n`-trit chunks needed to hold `len` trits, i.e. `ceil(len / n)`.
pub open spec fn chunk_count(len: nat, n: nat) -> nat {
    if n == 0 {
        0
    } else {
        ((len + n - 1) / n as int) as nat
    }
}

/// The values of a sequence of trits.
pub open spec fn values(s: Seq<Trit>) -> Seq<nat> {
    s.map_values(|t: Trit| t@)
}

/// Every element is a trit value (0, 1 or 2).
pub open spec fn is_trit_seq(s: Seq<nat>) -> bool {
    forall|i: int| 0 <= i < s.len() ==> #[trigger] s[i] < 3
}

/// A chunk of exactly `n` trit values.
pub open spec fn is_chunk(c: Seq<nat>, n: nat) -> bool {
    c.len() == n && is_trit_seq(c)
}

/// The `n` base-3 digits of `v`, least significant first.
pub open spec fn digits(v: nat, n: nat) -> Seq<nat> {
    Seq::new(n, |i: int| ((v as int / pow(3, i as nat)) % 3) as nat)
}

/// The base-3 digits of any number form a chunk.
pub proof fn lemma_digits_is_chunk(v: nat, n: nat)
    ensures
        is_chunk(digits(v, n), n),
{
}

/// The `n` trits of `t` from `start` on, with zeros past the end of `t`.
pub open spec fn padded_from(t: Seq<nat>, n: nat, start: int) -> Seq<nat> {
    Seq::new(n, |j: int| if start + j < t.len() { t[start + j] } else { 0 })
}

/// Chunk `k` of `t`, padded with zeros.
pub open spec fn padded_chunk(t: Seq<nat>, n: nat, k: int) -> Seq<nat> {
    padded_from(t, n, k * n)
}

/// The bytes for `t`: one per chunk of `n` trits, each given by `f`.
pub open spec fn pack(t: Seq<nat>, n: nat, f: spec_fn(Seq<nat>) -> u8) -> Seq<u8> {
    Seq::new(chunk_count(t.len(), n), |k: int| f(padded_chunk(t, n, k)))
}

/// The first `len` trits that the bytes `b` stand for, where `g` reads one byte
/// as a chunk of `n` trits. `None` when `b` holds fewer than `len` trits, or when
/// a byte that one of them comes from is no valid chunk.
pub open spec fn unpack(b: Seq<u8>, n: nat, len: nat, g: spec_fn(u8) -> Option<Seq<nat>>) -> Option<
    Seq<nat>,
> {
    if len > b.len() * n {
        None
    } else if exists|k: int| 0 <= k < chunk_count(len, n) && (#[trigger] g(b[k])) is None {
        None
    } else {
        Some(Seq::new(len, |i: int| g(b[i / n as int])->Some_0[i % n as int]))
    }
}

/// `n` trits per byte hold at least the `len` trits that `ceil(len / n)`
/// bytes are counted for.
pub proof fn lemma_chunk_count_covers(len: nat, n: nat)
    requires
        n > 0,
    ensures
        chunk_count(len, n) * n >= len,
        chunk_count(len, n) * n < len + n,
{
    let c = chunk_count(len, n) as int;
    vstd::arithmetic::div_mod::lemma_fundamental_div_mod((len + n - 1) as int, n as int);
    vstd::arithmetic::div_mod::lemma_mod_bound((len + n - 1) as int, n as int);
    assert(c * n == n * c) by (nonlinear_arith);
}

/// Chunk `k` of `t`, for `k` below the chunk count, holds trits of `t` and
/// zeros only.
proof fn lemma_padded_chunk_is_chunk(t: Seq<nat>, n: nat, k: int)
    requires
        is_trit_seq(t),
        0 <= k,
    ensures
        is_chunk(padded_chunk(t, n, k), n),
{
    let c = padded_chunk(t, n, k);
    assert forall|j: int| 0 <= j < c.len() implies #[trigger] c[j] < 3 by {
        assert(0 <= k * n) by (nonlinear_arith)
            requires
                0 <= k,
        ;
        if k * n + j < t.len() {
            assert(t[k * n + j] < 3);
        }
    }
}

/// Where each byte that `f` writes for a chunk reads back under `g` as that
/// chunk, unpacking what `pack` wrote gives back every trit.
pub proof fn lemma_unpack_pack(
    t: Seq<nat>,
    n: nat,
    f: spec_fn(Seq<nat>) -> u8,
    g: spec_fn(u8) -> Option<Seq<nat>>,
)
    requires
        n > 0,
        is_trit_seq(t),
        forall|c: Seq<nat>| is_chunk(c, n) ==> #[trigger] g(f(c)) == Some(c),
    ensures
        unpack(pack(t, n, f), n, t.len(), g) == Some(t),
{
    let b = pack(t, n, f);
    lemma_chunk_count_covers(t.len(), n);
    assert forall|k: int| 0 <= k < chunk_count(t.len(), n) implies #[trigger] g(b[k]) == Some(
        padded_chunk(t, n, k),
    ) by {
        lemma_padded_chunk_is_chunk(t, n, k);
    }
    let r = Seq::new(t.len(), |i: int| g(b[i / n as int])->Some_0[i % n as int]);
    assert forall|i: int| 0 <= i < t.len() implies #[trigger] r[i] == t[i] by {
        let k = i / n as int;
        let j = i % n as int;
        vstd::arithmetic::div_mod::lemma_fundamental_div_mod(i, n as int);
        vstd::arithmetic::div_mod::lemma_mod_bound(i, n as int);
        vstd::arithmetic::div_mod::lemma_div_pos_is_pos(i, n as int);
        assert(k * n == n * k) by (nonlinear_arith);
        assert(k * n <= i);
        assert(k < chunk_count(t.len(), n)) by {
            if k >= chunk_count(t.len(), n) {
                assert(k * n >= chunk_count(t.len(), n) * n) by (nonlinear_arith)
                    requires
                        k >= chunk_count(t.len(), n),
                        n > 0,
                ;
            }
        }
        assert(g(b[k]) == Some(padded_chunk(t, n, k)));
    }
    assert(r =~= t);
}

/// The bytes written for `t` can hold at least as many trits as `t` has.
pub proof fn lemma_pack_holds_all(t: Seq<nat>, n: nat, f: spec_fn(Seq<nat>) -> u8)
    requires
        n > 0,
    ensures
        pack(t, n, f).len() * n >= t.len(),
{
    lemma_chunk_count_covers(t.len(), n);
}

/// Asking for more trits than the bytes hold fails.
pub proof fn lemma_unpack_too_many(
    b: Seq<u8>,
    n: nat,
    len: nat,
    g: spec_fn(u8) -> Option<Seq<nat>>,
)
    requires
        len > b.len() * n,
    ensures
        unpack(b, n, len, g) is None,
{
}

/// A packing scheme from trits to bytes: each byte holds one chunk of
/// `chunk_len()` trits.
pub trait Engine {
    /// Trits per byte.
    spec fn chunk_len(&self) -> nat;

    /// The byte for a chunk of exactly `chunk_len()` trit values.
    spec fn chunk_byte(&self, c: Seq<nat>) -> u8;

    /// The chunk a byte stands for, or `None` for an invalid codepoint.
    spec fn byte_chunk(&self, b: u8) -> Option<Seq<nat>>;

    /// Bytes needed to encode `trits`.
    fn encoded_size(&self, trits: &[Trit]) -> (r: usize)
        ensures
            r as nat == chunk_count(trits@.len(), self.chunk_len()),
    ;

    /// Encodes `input_trits` into the front of `encoded_binary`, and returns the
    /// number of bytes written; `None`, with nothing written, where the buffer is
    /// too small.
    fn encode_slice(&self, encoded_binary: &mut [u8], input_trits: &[Trit]) -> (r: Option<usize>)
        ensures
            r is None <==> old(encoded_binary)@.len() < chunk_count(
                input_trits@.len(),
                self.chunk_len(),
            ),
            r is None ==> final(encoded_binary)@ == old(encoded_binary)@,
            r is Some ==> r->Some_0 as nat == chunk_count(input_trits@.len(), self.chunk_len()),
            r is Some ==> final(encoded_binary)@ == pack(
                values(input_trits@),
                self.chunk_len(),
                |c: Seq<nat>| self.chunk_byte(c),
            ) + old(encoded_binary)@.skip(r->Some_0 as int),
    ;

    /// Trits that `encoded_binary` can hold.
    fn decoded_size(&self, encoded_binary: &[u8]) -> (r: usize)
        requires
            encoded_binary@.len() * self.chunk_len() <= usize::MAX,
        ensures
            r as nat == encoded_binary@.len() * self.chunk_len(),
    ;

    /// Decodes `encoded_binary` into all of `output_trits`, dropping the trits
    /// of the last chunk that do not fit. `None` where the bytes hold fewer
    /// trits than asked for, or where a byte needed is an invalid codepoint;
    /// what was written is then unspecified.
    fn decode_slice(&self, output_trits: &mut [Trit], encoded_binary: &[u8]) -> (r: Option<()>)
        ensures
            final(output_trits)@.len() == old(output_trits)@.len(),
            r is Some <==> unpack(
                encoded_binary@,
                self.chunk_len(),
                old(output_trits)@.len(),
                |b: u8| self.byte_chunk(b),
            ) is Some,
            r is Some ==> values(final(output_trits)@) == unpack(
                encoded_binary@,
                self.chunk_len(),
                old(output_trits)@.len(),
                |b: u8| self.byte_chunk(b),
            )->Some_0,
    ;
}

} // verus!

verus! {

/// The trit at `start + j` of `trits`, or zero past its end.
pub(crate) fn trit_or_zero(trits: &[Trit], start: usize, j: usize) -> (r: Trit)
    requires
        start <= trits@.len(),
    ensures
        r@ == (if start + j < trits@.len() {
            trits@[start + j]@
        } else {
            0
        }),
{
    if j < trits.len() - start {
        trits[start + j]
    } else {
        Trit::zero()
    }
}

} // verus!
