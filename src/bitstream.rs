//! Bit streams: a byte sequence read most-significant-bit first, and the
//! packing of a stream of bits back into bytes.
use vstd::arithmetic::div_mod::{lemma_div_denominator, lemma_fundamental_div_mod};
use vstd::arithmetic::power2::{lemma_pow2_pos, lemma_pow2_unfold, pow2};
use vstd::bits::lemma_u32_shr_is_div;
use vstd::prelude::*;

verus! {

/// Bit `j` of `v`, counting from the least significant bit.
pub open spec fn bit_of(v: nat, j: nat) -> bool {
    (v / pow2(j)) % 2 == 1
}

/// The bits of a byte sequence as one stream, most significant bit of each byte first.
pub open spec fn byte_bits(s: Seq<u8>) -> Seq<bool> {
    Seq::new(8 * s.len(), |k: int| bit_of(s[k / 8] as nat, (7 - k % 8) as nat))
}

/// Bit `k` of a stream, where positions outside the stream read as zero.
pub open spec fn bit_at(b: Seq<bool>, k: int) -> bool {
    0 <= k < b.len() && b[k]
}

/// The `n` bits of `b` from position `start`, read as an unsigned big-endian number
/// (positions past the end count as zero).
pub open spec fn bits_value(b: Seq<bool>, start: int, n: nat) -> nat
    decreases n,
{
    if n == 0 {
        0
    } else {
        2 * bits_value(b, start, (n - 1) as nat) + if bit_at(b, start + n - 1) {
            1nat
        } else {
            0nat
        }
    }
}

/// The `n` low bits of `v`, most significant first.
pub open spec fn value_bits(v: nat, n: nat) -> Seq<bool> {
    Seq::new(n, |t: int| bit_of(v, (n - 1 - t) as nat))
}

/// A stream packed into bytes, eight bits per byte, most significant first; a final
/// partial byte is padded with zero bits on its low end.
pub open spec fn pack_bits(b: Seq<bool>) -> Seq<u8> {
    Seq::new((b.len() + 7) / 8, |j: int| bits_value(b, 8 * j, 8) as u8)
}

pub proof fn lemma_bit_of_zero(v: nat)
    ensures
        bit_of(v, 0) == (v % 2 == 1),
{
    vstd::arithmetic::power2::lemma2_to64();
}

pub proof fn lemma_bit_of_succ(v: nat, j: nat)
    ensures
        bit_of(v, j + 1) == bit_of(v / 2, j),
{
    lemma_pow2_unfold(j + 1);
    lemma_pow2_pos(j);
    lemma_div_denominator(v as int, 2, pow2(j) as int);
}

/// The bits of `2 * a + c` are `c` followed by the bits of `a`.
pub proof fn lemma_bit_of_shifted(a: nat, c: nat, j: nat)
    requires
        c < 2,
    ensures
        j == 0 ==> bit_of(2 * a + c, j) == (c == 1),
        j > 0 ==> bit_of(2 * a + c, j) == bit_of(a, (j - 1) as nat),
{
    if j == 0 {
        lemma_bit_of_zero(2 * a + c);
    } else {
        lemma_bit_of_succ(2 * a + c, (j - 1) as nat);
        assert((2 * a + c) / 2 == a);
    }
}

pub proof fn lemma_bits_value_bound(b: Seq<bool>, start: int, n: nat)
    ensures
        bits_value(b, start, n) < pow2(n),
    decreases n,
{
    if n == 0 {
        vstd::arithmetic::power2::lemma2_to64();
    } else {
        lemma_bits_value_bound(b, start, (n - 1) as nat);
        lemma_pow2_unfold(n);
    }
}

/// Bit `j` of a stream's value is the stream bit `n - 1 - j` places after `start`.
pub proof fn lemma_bits_value_bit(b: Seq<bool>, start: int, n: nat, j: nat)
    requires
        j < n,
    ensures
        bit_of(bits_value(b, start, n), j) == bit_at(b, start + n - 1 - j),
    decreases n,
{
    let c: nat = if bit_at(b, start + n - 1) {
        1
    } else {
        0
    };
    lemma_bit_of_shifted(bits_value(b, start, (n - 1) as nat), c, j);
    if j > 0 {
        lemma_bits_value_bit(b, start, (n - 1) as nat, (j - 1) as nat);
    }
}

/// Streams that agree on `[start, start + n)` give the same value there.
pub proof fn lemma_bits_value_agree(b1: Seq<bool>, b2: Seq<bool>, start: int, n: nat)
    requires
        forall|k: int| start <= k < start + n ==> bit_at(b1, k) == bit_at(b2, k),
    ensures
        bits_value(b1, start, n) == bits_value(b2, start, n),
    decreases n,
{
    if n > 0 {
        lemma_bits_value_agree(b1, b2, start, (n - 1) as nat);
    }
}

/// Two numbers below `2^n` with the same `n` low bits are equal.
pub proof fn lemma_bits_determine_value(a: nat, b: nat, n: nat)
    requires
        a < pow2(n),
        b < pow2(n),
        forall|t: nat| t < n ==> #[trigger] bit_of(a, t) == bit_of(b, t),
    ensures
        a == b,
    decreases n,
{
    if n == 0 {
        vstd::arithmetic::power2::lemma2_to64();
    } else {
        lemma_pow2_unfold(n);
        assert forall|t: nat| t < (n - 1) as nat implies #[trigger] bit_of(a / 2, t) == bit_of(b / 2, t) by {
            lemma_bit_of_succ(a, t);
            lemma_bit_of_succ(b, t);
            assert(bit_of(a, t + 1) == bit_of(b, t + 1));
        }
        lemma_bits_determine_value(a / 2, b / 2, (n - 1) as nat);
        lemma_bit_of_zero(a);
        lemma_bit_of_zero(b);
        assert(bit_of(a, 0) == bit_of(b, 0));
        lemma_fundamental_div_mod(a as int, 2);
        lemma_fundamental_div_mod(b as int, 2);
    }
}

/// The eight stream bits of a byte give back that byte.
pub proof fn lemma_byte_bits_value(s: Seq<u8>, j: int)
    requires
        0 <= j < s.len(),
    ensures
        bits_value(byte_bits(s), 8 * j, 8) == s[j] as nat,
{
    let b = byte_bits(s);
    let v = bits_value(b, 8 * j, 8);
    lemma_bits_value_bound(b, 8 * j, 8);
    assert(pow2(8) == 256) by {
        vstd::arithmetic::power2::lemma2_to64();
    }
    assert forall|t: nat| t < 8 implies #[trigger] bit_of(v, t) == bit_of(s[j] as nat, t) by {
        lemma_bits_value_bit(b, 8 * j, 8, t);
        let k = 8 * j + 7 - t;
        assert(k / 8 == j);
        assert(k % 8 == 7 - t);
    }
    lemma_bits_determine_value(v, s[j] as nat, 8);
}

/// A stream that starts with the bits of `s` packs into bytes that start with `s`.
pub proof fn lemma_pack_prefix(b: Seq<bool>, s: Seq<u8>)
    requires
        b.len() >= 8 * s.len(),
        forall|k: int| 0 <= k < 8 * s.len() ==> b[k] == byte_bits(s)[k],
    ensures
        pack_bits(b).len() >= s.len(),
        pack_bits(b).subrange(0, s.len() as int) == s,
{
    let p = pack_bits(b);
    assert forall|j: int| 0 <= j < s.len() implies p[j] == s[j] by {
        lemma_bits_value_agree(b, byte_bits(s), 8 * j, 8);
        lemma_byte_bits_value(s, j);
    }
    assert(p.subrange(0, s.len() as int) =~= s);
}

/// Powers of two up to a byte.
pub proof fn lemma_pow2_small(e: nat)
    requires
        e <= 8,
    ensures
        1 <= pow2(e) <= 256,
        e <= 7 ==> pow2(e) <= 128,
        pow2(0) == 1,
        pow2(8) == 256,
{
    vstd::arithmetic::power2::lemma2_to64();
    if e < 8 {
        vstd::arithmetic::power2::lemma_pow2_strictly_increases(e, 8);
    }
    if e < 7 {
        vstd::arithmetic::power2::lemma_pow2_strictly_increases(e, 7);
    }
    lemma_pow2_pos(e);
}

/// The low bit of `v >> t` is bit `t` of `v`.
pub proof fn lemma_shr_bit(v: u32, t: u32)
    requires
        t < 32,
    ensures
        ((v >> t) & 1 == 1) == bit_of(v as nat, t as nat),
        (v >> t) & 1 < 2,
{
    lemma_u32_shr_is_div(v, t);
    let y = v >> t;
    assert(y & 1 == y % 2) by (bit_vector);
}

/// Bit `pos` of the stream of `s` as 0 or 1, where positions past the end give 0.
pub(crate) fn read_bit(s: &[u8], pos: usize) -> (r: u8)
    ensures
        r == (if bit_at(byte_bits(s@), pos as int) {
            1u8
        } else {
            0u8
        }),
{
    if pos / 8 >= s.len() {
        return 0;
    }
    let byte = s[pos / 8] as u32;
    let sh = (7 - pos % 8) as u32;
    proof {
        lemma_shr_bit(byte, sh);
    }
    ((byte >> sh) & 1) as u8
}

/// A byte under construction from a stream of bits: the completed bytes, the bits of
/// the byte not yet complete, and the stream pushed so far.
pub(crate) struct BitWriter {
    bytes: Vec<u8>,
    current: u8,
    filled: u8,
    bits: Ghost<Seq<bool>>,
}

impl BitWriter {
    /// The bits pushed so far.
    pub(crate) closed spec fn stream(&self) -> Seq<bool> {
        self.bits@
    }

    pub(crate) closed spec fn wf(&self) -> bool {
        &&& self.filled < 8
        &&& 8 * self.bytes@.len() + self.filled == self.bits@.len()
        &&& forall|j: int|
            0 <= j < self.bytes@.len() ==> #[trigger] self.bytes@[j] == bits_value(
                self.bits@,
                8 * j,
                8,
            )
        &&& self.current == bits_value(self.bits@, 8 * self.bytes@.len() as int, self.filled as nat)
    }

    pub(crate) fn new() -> (w: BitWriter)
        ensures
            w.wf(),
            w.stream() == Seq::<bool>::empty(),
    {
        BitWriter { bytes: Vec::new(), current: 0, filled: 0, bits: Ghost(Seq::empty()) }
    }

    pub(crate) fn push(&mut self, bit: bool)
        requires
            old(self).wf(),
            old(self).stream().len() + 1 <= usize::MAX,
        ensures
            final(self).wf(),
            final(self).stream() == old(self).stream().push(bit),
    {
        let ghost b0 = self.bits@;
        let ghost b1 = b0.push(bit);
        let ghost base: int = 8 * self.bytes@.len() as int;
        proof {
            lemma_bits_value_agree(b0, b1, base, self.filled as nat);
            assert forall|j: int| 0 <= j < self.bytes@.len() implies #[trigger] bits_value(b0, 8 * j, 8)
                == bits_value(b1, 8 * j, 8) by {
                lemma_bits_value_agree(b0, b1, 8 * j, 8);
            }
            lemma_bits_value_bound(b0, base, self.filled as nat);
            lemma_pow2_small(self.filled as nat);
        }
        let c: u8 = if bit {
            1
        } else {
            0
        };
        self.current = self.current * 2 + c;
        self.filled = self.filled + 1;
        self.bits = Ghost(b1);
        if self.filled == 8 {
            self.bytes.push(self.current);
            self.current = 0;
            self.filled = 0;
        }
    }

    pub(crate) fn finish(self) -> (r: Vec<u8>)
        requires
            self.wf(),
        ensures
            r@ == pack_bits(self.stream()),
    {
        let ghost b = self.bits@;
        let ghost base: int = 8 * self.bytes@.len() as int;
        let mut bytes = self.bytes;
        if self.filled > 0 {
            let mut current = self.current;
            let mut f = self.filled;
            while f < 8
                invariant
                    0 < f <= 8,
                    b.len() <= base + f,
                    current == bits_value(b, base, f as nat),
                decreases 8 - f,
            {
                proof {
                    lemma_bits_value_bound(b, base, f as nat);
                    lemma_pow2_small(f as nat);
                }
                current = current * 2;
                f = f + 1;
            }
            bytes.push(current);
        }
        proof {
            let p = pack_bits(b);
            assert(bytes@.len() == p.len());
            assert forall|j: int| 0 <= j < p.len() implies bytes@[j] == p[j] by {
                if j < self.bytes@.len() {
                    assert(self.bytes@[j] == bits_value(b, 8 * j, 8));
                }
            }
            assert(bytes@ =~= p);
        }
        bytes
    }
}

} // verus!
