//! Bit-plane substitution: a fixed number of payload bits replaces bits of every
//! carrier byte, through a swappable per-byte transform.
use crate::bitstream::{
    bit_of, bits_value, byte_bits, lemma_bits_value_bit, lemma_bits_value_bound,
    lemma_pack_prefix, lemma_pow2_small, lemma_shr_bit, pack_bits, read_bit, BitWriter,
};
use crate::message::{bytes_view, decimal, err_view, push_decimal};
use vstd::arithmetic::div_mod::lemma_fundamental_div_mod;
use vstd::arithmetic::power2::pow2;
use vstd::bits::{lemma_u8_low_bits_mask_is_mod, lemma_u8_shl_is_mul, lemma_u8_shr_is_div};
use vstd::prelude::*;

verus! {

/// A per-byte transform pair: `embed` writes payload bits into a carrier byte and
/// `extract` reads them back, right-aligned.
pub trait BitTransform {
    /// The byte that `embed` makes of `host_byte` and the low `bits` bits of `secret_bits`.
    spec fn spec_embed(&self, host_byte: u8, secret_bits: u8, bits: u8) -> u8;

    /// The payload bits that `extract` reads from `host_byte`.
    spec fn spec_extract(&self, host_byte: u8, bits: u8) -> u8;

    fn embed(&self, host_byte: u8, secret_bits: u8, bits: u8) -> (r: u8)
        requires
            1 <= bits <= 8,
        ensures
            r == self.spec_embed(host_byte, secret_bits, bits),
    ;

    fn extract(&self, host_byte: u8, bits: u8) -> (r: u8)
        requires
            1 <= bits <= 8,
        ensures
            r == self.spec_extract(host_byte, bits),
    ;
}

/// Whether `extract` reads back from `embed`'s result every value of `bits` bits.
pub open spec fn complementary<S: BitTransform>(e: S, x: S, bits: u8) -> bool {
    forall|h: u8, b: u8|
        b < pow2(bits as nat) ==> #[trigger] x.spec_extract(e.spec_embed(h, b, bits), bits) == b
}

/// The built-in transforms: the low bits or the high bits of each byte.
#[derive(Debug, Clone, Copy, PartialEq, Eq)]
pub enum BitStrategy {
    Lsb,
    Msb,
}

/// `host_byte` with its low `bits` bits replaced by the low `bits` bits of `secret_bits`.
pub open spec fn lsb_embedded(host_byte: u8, secret_bits: u8, bits: nat) -> nat {
    (host_byte as nat / pow2(bits)) * pow2(bits) + secret_bits as nat % pow2(bits)
}

/// `host_byte` with its high `bits` bits replaced by the low `bits` bits of `secret_bits`.
pub open spec fn msb_embedded(host_byte: u8, secret_bits: u8, bits: nat) -> nat {
    (secret_bits as nat % pow2(bits)) * pow2((8 - bits) as nat) + host_byte as nat % pow2(
        (8 - bits) as nat,
    )
}

/// The low `bits` bits of `host_byte`.
pub open spec fn lsb_extracted(host_byte: u8, bits: nat) -> nat {
    host_byte as nat % pow2(bits)
}

/// The high `bits` bits of `host_byte`, shifted down.
pub open spec fn msb_extracted(host_byte: u8, bits: nat) -> nat {
    host_byte as nat / pow2((8 - bits) as nat)
}

impl BitTransform for BitStrategy {
    open spec fn spec_embed(&self, host_byte: u8, secret_bits: u8, bits: u8) -> u8 {
        match self {
            BitStrategy::Lsb => lsb_embedded(host_byte, secret_bits, bits as nat) as u8,
            BitStrategy::Msb => msb_embedded(host_byte, secret_bits, bits as nat) as u8,
        }
    }

    open spec fn spec_extract(&self, host_byte: u8, bits: u8) -> u8 {
        match self {
            BitStrategy::Lsb => lsb_extracted(host_byte, bits as nat) as u8,
            BitStrategy::Msb => msb_extracted(host_byte, bits as nat) as u8,
        }
    }

    fn embed(&self, host_byte: u8, secret_bits: u8, bits: u8) -> (r: u8) {
        match self {
            BitStrategy::Lsb => embed_lsb(host_byte, secret_bits, bits),
            BitStrategy::Msb => embed_msb(host_byte, secret_bits, bits),
        }
    }

    fn extract(&self, host_byte: u8, bits: u8) -> (r: u8) {
        match self {
            BitStrategy::Lsb => extract_lsb(host_byte, bits),
            BitStrategy::Msb => extract_msb(host_byte, bits),
        }
    }
}

/// `(1 << bits) - 1` is the mask of the `bits` low bits.
proof fn lemma_low_mask(x: u8, bits: u8)
    requires
        bits < 8,
    ensures
        (1u8 << bits) as nat == pow2(bits as nat),
        x & vstd::prelude::sub(1u8 << bits, 1) == x as nat % pow2(bits as nat),
        x >> bits == x as nat / pow2(bits as nat),
{
    lemma_pow2_small(bits as nat);
    lemma_u8_shl_is_mul(1, bits);
    lemma_u8_low_bits_mask_is_mod(x, bits as nat);
    lemma_u8_shr_is_div(x, bits);
}

/// Embed secret bits in the least significant bits of the host byte: the low `bits`
/// bits of `secret_bits` replace the low `bits` bits of `host_byte`.
pub fn embed_lsb(host_byte: u8, secret_bits: u8, bits: u8) -> (r: u8)
    requires
        1 <= bits <= 8,
    ensures
        r as nat == lsb_embedded(host_byte, secret_bits, bits as nat),
{
    proof {
        lemma_pow2_small(bits as nat);
    }
    let mask: u8 = if bits == 8 {
        0xFF
    } else {
        proof {
            lemma_low_mask(0, bits);
        }
        (1u8 << bits) - 1
    };
    let r = (host_byte & !mask) | (secret_bits & mask);
    proof {
        let p = pow2(bits as nat);
        lemma_pow2_small(bits as nat);
        if bits == 8 {
            assert(r == secret_bits) by (bit_vector)
                requires
                    mask == 0xFF,
                    r == (host_byte & !mask) | (secret_bits & mask),
            ;
        } else {
            lemma_low_mask(r, bits);
            lemma_low_mask(host_byte, bits);
            lemma_low_mask(secret_bits, bits);
            assert(r & mask == secret_bits & mask && r >> bits == host_byte >> bits)
                by (bit_vector)
                requires
                    bits < 8,
                    mask == vstd::prelude::sub(1u8 << bits, 1),
                    r == (host_byte & !mask) | (secret_bits & mask),
            ;
            lemma_fundamental_div_mod(r as int, p as int);
            vstd::arithmetic::mul::lemma_mul_is_commutative(p as int, (r as nat / p) as int);
        }
    }
    r
}

/// Embed secret bits in the most significant bits of the host byte: the low `bits`
/// bits of `secret_bits` replace the high `bits` bits of `host_byte`.
pub fn embed_msb(host_byte: u8, secret_bits: u8, bits: u8) -> (r: u8)
    requires
        1 <= bits <= 8,
    ensures
        r as nat == msb_embedded(host_byte, secret_bits, bits as nat),
{
    proof {
        lemma_pow2_small(bits as nat);
        lemma_pow2_small((8 - bits) as nat);
    }
    if bits == 8 {
        proof {
            lemma_low_mask(secret_bits, 0);
        }
        let r = secret_bits;
        return r;
    }
    proof {
        lemma_low_mask(0, bits);
    }
    let mask: u8 = ((1u8 << bits) - 1) << (8 - bits);
    let r = (host_byte & !mask) | (secret_bits << (8 - bits));
    proof {
        let s: u8 = (8 - bits) as u8;
        lemma_low_mask(r, s);
        lemma_low_mask(host_byte, s);
        lemma_low_mask(secret_bits, bits);
        assert(r >> s == secret_bits & vstd::prelude::sub(1u8 << bits, 1) && r & vstd::prelude::sub(1u8 << s, 1) == host_byte
            & vstd::prelude::sub(1u8 << s, 1)) by (bit_vector)
            requires
                1 <= bits < 8,
                s == 8 - bits,
                mask == vstd::prelude::sub(1u8 << bits, 1) << s,
                r == (host_byte & !mask) | (secret_bits << s),
        ;
        lemma_fundamental_div_mod(r as int, pow2(s as nat) as int);
        vstd::arithmetic::mul::lemma_mul_is_commutative(
            pow2(s as nat) as int,
            (r as nat / pow2(s as nat)) as int,
        );
    }
    r
}

/// Extract the bits embedded in the least significant bits of the host byte.
pub fn extract_lsb(host_byte: u8, bits: u8) -> (r: u8)
    requires
        1 <= bits <= 8,
    ensures
        r as nat == lsb_extracted(host_byte, bits as nat),
{
    proof {
        lemma_pow2_small(bits as nat);
    }
    if bits == 8 {
        return host_byte;
    }
    proof {
        lemma_low_mask(host_byte, bits);
    }
    let mask: u8 = (1u8 << bits) - 1;
    host_byte & mask
}

/// Extract the bits embedded in the most significant bits of the host byte, shifted
/// down to the least significant bits.
pub fn extract_msb(host_byte: u8, bits: u8) -> (r: u8)
    requires
        1 <= bits <= 8,
    ensures
        r as nat == msb_extracted(host_byte, bits as nat),
{
    proof {
        lemma_pow2_small(bits as nat);
    }
    if bits == 8 {
        assert(host_byte as nat / pow2(0) == host_byte);
        host_byte
    } else {
        let s: u8 = 8 - bits;
        proof {
            lemma_low_mask(host_byte, s);
        }
        assert(host_byte >> s == host_byte as nat / pow2(s as nat));
        host_byte >> s
    }
}

/// The built-in pairs, `Lsb` with `Lsb` and `Msb` with `Msb`, read back what they write.
pub proof fn lemma_builtin_complementary(s: BitStrategy, bits: u8)
    requires
        1 <= bits <= 8,
    ensures
        complementary(s, s, bits),
{
    lemma_pow2_small(bits as nat);
    lemma_pow2_small((8 - bits) as nat);
    assert forall|h: u8, b: u8| b < pow2(bits as nat) implies #[trigger] s.spec_extract(
        s.spec_embed(h, b, bits),
        bits,
    ) == b by {
        let p = pow2(bits as nat);
        let q = pow2((8 - bits) as nat);
        vstd::arithmetic::div_mod::lemma_small_mod(b as nat, p);
        match s {
            BitStrategy::Lsb => {
                let e = lsb_embedded(h, b, bits as nat);
                let d = h as nat / p;
                let m = h as nat % p;
                vstd::arithmetic::power2::lemma_pow2_adds(bits as nat, (8 - bits) as nat);
                vstd::arithmetic::div_mod::lemma_fundamental_div_mod(h as int, p as int);
                vstd::arithmetic::div_mod::lemma_mod_bound(h as int, p as int);
                assert(d < q) by (nonlinear_arith)
                    requires
                        h == p * d + m,
                        0 <= m < p,
                        h < p * q,
                ;
                assert(e < 256) by {
                    assert(d * p + b < p * q) by (nonlinear_arith)
                        requires
                            d < q,
                            b < p,
                    ;
                }
                vstd::arithmetic::div_mod::lemma_mod_multiples_vanish(
                    (h as nat / p) as int,
                    b as int,
                    p as int,
                );
                vstd::arithmetic::mul::lemma_mul_is_commutative((h as nat / p) as int, p as int);
            },
            BitStrategy::Msb => {
                let e = msb_embedded(h, b, bits as nat);
                let hq = h as nat % q;
                vstd::arithmetic::power2::lemma_pow2_adds(bits as nat, (8 - bits) as nat);
                vstd::arithmetic::div_mod::lemma_mod_bound(h as int, q as int);
                assert(e < 256) by {
                    assert(b * q + hq < p * q) by (nonlinear_arith)
                        requires
                            b < p,
                            hq < q,
                    ;
                }
                vstd::arithmetic::div_mod::lemma_fundamental_div_mod_converse(
                    e as int,
                    q as int,
                    b as int,
                    hq as int,
                );
            },
        }
    }
}

/// Options of the bit-plane engine: how many bits each carrier byte holds, and the
/// transforms that write and read them.
#[derive(Debug, Clone, Copy)]
pub struct BitplaneOptions<S> {
    /// The number of bits to operate per host byte (must be between 1 and 8).
    pub bits_to_operate: u8,
    /// The transform that embeds; required by `bitplane_embed`.
    pub embed_strategy: Option<S>,
    /// The transform that extracts, right-aligned; required by `bitplane_extract`.
    pub extract_strategy: Option<S>,
}

impl Default for BitplaneOptions<BitStrategy> {
    /// One bit per byte, least significant bit both ways.
    fn default() -> (r: Self)
        ensures
            r.bits_to_operate == 1,
            r.embed_strategy == Some(BitStrategy::Lsb),
            r.extract_strategy == Some(BitStrategy::Lsb),
    {
        BitplaneOptions {
            bits_to_operate: 1,
            embed_strategy: Some(BitStrategy::Lsb),
            extract_strategy: Some(BitStrategy::Lsb),
        }
    }
}

} // verus!

verus! {

pub open spec fn width_text() -> Seq<char> {
    "options.bits_to_operate must be between 1 and 8"@
}

pub open spec fn no_embed_text() -> Seq<char> {
    "options.embed_strategy function must be provided"@
}

pub open spec fn no_extract_text() -> Seq<char> {
    "No extract strategy provided"@
}

pub open spec fn space_text(capacity: nat, needed: nat) -> Seq<char> {
    "Not enough space in host to hide the secret message: capacity="@ + decimal(capacity)
        + " bits, message="@ + decimal(needed) + " bits"@
}

fn space_message(capacity: usize, needed: usize) -> (r: String)
    ensures
        r@ == space_text(capacity as nat, needed as nat),
{
    let mut s = String::from_str("Not enough space in host to hide the secret message: capacity=");
    push_decimal(&mut s, capacity as u64);
    s.append(" bits, message=");
    push_decimal(&mut s, needed as u64);
    s.append(" bits");
    s
}

/// The carrier after embedding: byte `i` takes the `bits` payload bits from stream
/// position `i * bits` (positions past the payload read as zero) while that position
/// lies inside the payload, and is left as it was after.
pub open spec fn bitplane_embedded<S: BitTransform>(
    host: Seq<u8>,
    secret: Seq<u8>,
    bits: u8,
    t: S,
) -> Seq<u8> {
    Seq::new(
        host.len(),
        |i: int|
            if i * bits < 8 * secret.len() {
                t.spec_embed(host[i], bits_value(byte_bits(secret), i * bits, bits as nat) as u8, bits)
            } else {
                host[i]
            },
    )
}

/// What `bitplane_embed` answers for a carrier of `host_len` bytes and a payload of
/// `secret_len` bytes.
pub open spec fn bitplane_embed_outcome<S>(
    host_len: nat,
    secret_len: nat,
    options: BitplaneOptions<S>,
) -> Result<(), Seq<char>> {
    let bits = options.bits_to_operate;
    if !(1 <= bits <= 8) {
        Err(width_text())
    } else if options.embed_strategy is None {
        Err(no_embed_text())
    } else if host_len * bits < 8 * secret_len {
        Err(space_text(host_len * bits as nat, 8 * secret_len))
    } else {
        Ok(())
    }
}

/// The stream read from a carrier: the `bits` bits that `t` extracts from each byte,
/// most significant first.
pub open spec fn bitplane_stream<S: BitTransform>(host: Seq<u8>, bits: u8, t: S) -> Seq<bool> {
    let w = bits as int;
    Seq::new(
        host.len() * bits as nat,
        |k: int| bit_of(t.spec_extract(host[k / w], bits) as nat, (w - 1 - k % w) as nat),
    )
}

/// What `bitplane_extract` answers for a carrier.
pub open spec fn bitplane_extract_outcome<S: BitTransform>(
    host: Seq<u8>,
    options: BitplaneOptions<S>,
) -> Result<Seq<u8>, Seq<char>> {
    let bits = options.bits_to_operate;
    if !(1 <= bits <= 8) {
        Err(width_text())
    } else if options.extract_strategy is None {
        Err(no_extract_text())
    } else {
        Ok(pack_bits(bitplane_stream(host, bits, options.extract_strategy->0)))
    }
}

/// Embeds `secret` into `host`, `bits_to_operate` bits per host byte in host order,
/// reading the secret as one stream, most significant bit of each byte first.
/// Fails, leaving `host` as it was, on a width outside `[1, 8]`, on a missing embed
/// transform, or when the host holds fewer bits than the secret.
pub fn bitplane_embed<S: BitTransform>(
    host: &mut [u8],
    secret: &[u8],
    options: &BitplaneOptions<S>,
) -> (r: Result<(), String>)
    requires
        old(host)@.len() * 8 <= usize::MAX,
        secret@.len() * 8 <= usize::MAX,
    ensures
        err_view(r) == bitplane_embed_outcome(old(host)@.len(), secret@.len(), *options),
        final(host)@ == (if r is Ok {
            bitplane_embedded(
                old(host)@,
                secret@,
                options.bits_to_operate,
                options.embed_strategy->0,
            )
        } else {
            old(host)@
        }),
{
    if options.bits_to_operate == 0 || options.bits_to_operate > 8 {
        return Err(String::from_str("options.bits_to_operate must be between 1 and 8"));
    }
    let embed_fn = match &options.embed_strategy {
        Some(f) => f,
        None => {
            return Err(String::from_str("options.embed_strategy function must be provided"));
        },
    };
    let bits = options.bits_to_operate;
    let w = bits as usize;
    let total_bits = secret.len() * 8;
    proof {
        vstd::arithmetic::mul::lemma_mul_inequality(w as int, 8, host@.len() as int);
    }
    let capacity = host.len() * w;
    if capacity < total_bits {
        return Err(space_message(capacity, total_bits));
    }
    let ghost h0 = host@;
    let ghost stream = byte_bits(secret@);
    let ghost target = bitplane_embedded(h0, secret@, bits, *embed_fn);
    let mut bit_index: usize = 0;
    let mut i: usize = 0;
    while i < host.len() && bit_index < total_bits
        invariant
            host@.len() == h0.len(),
            h0.len() * 8 <= usize::MAX,
            1 <= w <= 8,
            w == bits,
            total_bits == 8 * secret@.len(),
            i <= host@.len(),
            bit_index == i * w,
            stream == byte_bits(secret@),
            target == bitplane_embedded(h0, secret@, bits, *embed_fn),
            forall|k: int| 0 <= k < i ==> host@[k] == target[k],
            forall|k: int| i <= k < host@.len() ==> host@[k] == h0[k],
        decreases host@.len() - i,
    {
        proof {
            vstd::arithmetic::mul::lemma_mul_inequality(i as int + 1, h0.len() as int, w as int);
            vstd::arithmetic::mul::lemma_mul_inequality(w as int, 8, h0.len() as int);
        }
        let mut secret_bits: u8 = 0;
        let mut t: usize = 0;
        while t < w
            invariant
                1 <= w <= 8,
                t <= w,
                bit_index + w <= usize::MAX,
                secret_bits == bits_value(stream, bit_index as int, t as nat),
                stream == byte_bits(secret@),
            decreases w - t,
        {
            let bit = read_bit(secret, bit_index + t);
            proof {
                lemma_bits_value_bound(stream, bit_index as int, t as nat);
                lemma_pow2_small(t as nat);
            }
            secret_bits = secret_bits * 2 + bit;
            t = t + 1;
        }
        host[i] = embed_fn.embed(host[i], secret_bits, bits);
        proof {
            assert((i + 1) * w == i * w + w) by (nonlinear_arith);
        }
        bit_index = bit_index + w;
        i = i + 1;
    }
    proof {
        assert forall|k: int| i <= k < host@.len() implies host@[k] == target[k] by {
            vstd::arithmetic::mul::lemma_mul_inequality(i as int, k, w as int);
        }
        assert(host@ =~= target);
    }
    Ok(())
}

/// Reads `bits_to_operate` bits from every host byte through the extract transform
/// and packs them most significant bit first; the last byte is padded with zero bits.
/// The whole host is read: the result holds `ceil(host.len() * bits / 8)` bytes.
pub fn bitplane_extract<S: BitTransform>(host: &[u8], options: &BitplaneOptions<S>) -> (r: Result<
    Vec<u8>,
    String,
>)
    requires
        host@.len() * 8 <= usize::MAX,
    ensures
        bytes_view(r) == bitplane_extract_outcome(host@, *options),
{
    if options.bits_to_operate == 0 || options.bits_to_operate > 8 {
        return Err(String::from_str("options.bits_to_operate must be between 1 and 8"));
    }
    let extract_fn = match &options.extract_strategy {
        Some(f) => f,
        None => {
            return Err(String::from_str("No extract strategy provided"));
        },
    };
    let bits = options.bits_to_operate;
    let ghost stream = bitplane_stream(host@, bits, *extract_fn);
    let mut writer = BitWriter::new();
    let mut i: usize = 0;
    while i < host.len()
        invariant
            1 <= bits <= 8,
            host@.len() * 8 <= usize::MAX,
            i <= host@.len(),
            writer.wf(),
            stream == bitplane_stream(host@, bits, *extract_fn),
            writer.stream() == stream.take(i * bits),
        decreases host@.len() - i,
    {
        let x = extract_fn.extract(host[i], bits) as u32;
        let mut t: u8 = 0;
        while t < bits
            invariant
                1 <= bits <= 8,
                host@.len() * 8 <= usize::MAX,
                i < host@.len(),
                t <= bits,
                x == extract_fn.spec_extract(host@[i as int], bits),
                writer.wf(),
                stream == bitplane_stream(host@, bits, *extract_fn),
                writer.stream() == stream.take(i * bits + t),
            decreases bits - t,
        {
            proof {
                vstd::arithmetic::mul::lemma_mul_inequality(i as int + 1, host@.len() as int, bits as int);
                vstd::arithmetic::mul::lemma_mul_inequality(bits as int, 8, host@.len() as int);
                assert((i + 1) * bits == i * bits + bits) by (nonlinear_arith);
                lemma_shr_bit(x, (bits - 1 - t) as u32);
                let k = i * bits + t;
                assert(host@.len() * bits == stream.len());
                vstd::arithmetic::div_mod::lemma_fundamental_div_mod_converse(
                    k,
                    bits as int,
                    i as int,
                    t as int,
                );
            }
            let bit = (x >> ((bits - 1 - t) as u32)) & 1 == 1;
            writer.push(bit);
            proof {
                let k = i * bits + t;
                assert(k / (bits as int) == i && k % (bits as int) == t);
                assert(stream[k] == bit);
                assert(writer.stream() =~= stream.take(i * bits + t + 1));
            }
            t = t + 1;
        }
        proof {
            assert((i + 1) * bits == i * bits + bits) by (nonlinear_arith);
        }
        i = i + 1;
    }
    proof {
        assert(writer.stream() =~= stream);
    }
    Ok(writer.finish())
}

/// Round trip: when the host has room for the secret, extracting with a transform
/// complementary to the one that embedded gives back a buffer that starts with the
/// secret (the rest is whatever the remaining host bytes hold).
pub proof fn lemma_bitplane_round_trip<S: BitTransform>(
    host: Seq<u8>,
    secret: Seq<u8>,
    options: BitplaneOptions<S>,
)
    requires
        1 <= options.bits_to_operate <= 8,
        options.embed_strategy is Some,
        options.extract_strategy is Some,
        complementary(
            options.embed_strategy->0,
            options.extract_strategy->0,
            options.bits_to_operate,
        ),
        host.len() * options.bits_to_operate >= 8 * secret.len(),
    ensures
        bitplane_embed_outcome(host.len(), secret.len(), options) is Ok,
        ({
            let embedded = bitplane_embedded(
                host,
                secret,
                options.bits_to_operate,
                options.embed_strategy->0,
            );
            match bitplane_extract_outcome(embedded, options) {
                Ok(out) => out.len() >= secret.len() && out.subrange(0, secret.len() as int)
                    == secret,
                Err(_) => false,
            }
        }),
{
    let bits = options.bits_to_operate;
    let w = bits as int;
    let e = options.embed_strategy->0;
    let x = options.extract_strategy->0;
    let b = byte_bits(secret);
    let embedded = bitplane_embedded(host, secret, bits, e);
    let stream = bitplane_stream(embedded, bits, x);
    assert forall|k: int| 0 <= k < 8 * secret.len() implies stream[k] == b[k] by {
        let i = k / w;
        let j = k % w;
        vstd::arithmetic::div_mod::lemma_fundamental_div_mod(k, w);
        vstd::arithmetic::div_mod::lemma_mod_bound(k, w);
        assert(0 <= i < host.len()) by {
            vstd::arithmetic::div_mod::lemma_div_pos_is_pos(k, w);
            assert(i < host.len()) by (nonlinear_arith)
                requires
                    k == w * i + j,
                    0 <= j,
                    k < 8 * secret.len(),
                    host.len() * w >= 8 * secret.len(),
                    w > 0,
            ;
        }
        assert(i * w <= k) by (nonlinear_arith)
            requires
                k == w * i + j,
                0 <= j,
        ;
        let g = bits_value(b, i * w, bits as nat);
        lemma_bits_value_bound(b, i * w, bits as nat);
        lemma_pow2_small(bits as nat);
        assert(embedded[i] == e.spec_embed(host[i], g as u8, bits));
        assert(x.spec_extract(embedded[i], bits) == g as u8);
        lemma_bits_value_bit(b, i * w, bits as nat, (w - 1 - j) as nat);
        assert(i * w + w - 1 - (w - 1 - j) == k) by (nonlinear_arith)
            requires
                k == w * i + j,
        ;
    }
    assert(stream.len() >= 8 * secret.len()) by {
        assert(embedded.len() == host.len());
    }
    lemma_pack_prefix(stream, secret);
}

} // verus!
