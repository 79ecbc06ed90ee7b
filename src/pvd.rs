//! Pixel-value differencing: each pair of carrier bytes holds a number of payload bits
//! chosen by the bin that their difference falls in; embedding rewrites the pair so
//! that its difference encodes the bits while its average is kept.
use crate::bitstream::{
    bits_value, byte_bits, lemma_bits_value_bit, lemma_bits_value_bound, lemma_pack_prefix,
    lemma_pow2_small, lemma_shr_bit, pack_bits, read_bit, value_bits, BitWriter,
};
use crate::message::{bytes_view, decimal, err_view, push_decimal};
use vstd::arithmetic::power2::{lemma_pow2_unfold, pow2};
use vstd::prelude::*;

verus! {

/// Options of the PVD engine: the table of difference bins, each an inclusive range
/// `(min, max)`; the first bin that holds a difference decides its capacity.
pub struct PvdOptions {
    pub bins: Vec<(i32, i32)>,
}

/// The default bin table.
pub open spec fn default_bins() -> Seq<(i32, i32)> {
    seq![(0, 1), (2, 3), (4, 7), (8, 15), (16, 31), (32, 63), (64, 127), (128, 255)]
}

impl Default for PvdOptions {
    /// Bins `(0,1) (2,3) (4,7) (8,15) (16,31) (32,63) (64,127) (128,255)`, which hold
    /// 1, 1, 2, 3, 4, 5, 6 and 7 bits.
    fn default() -> (r: Self)
        ensures
            r.bins@ == default_bins(),
    {
        let bins = vec![(0, 1), (2, 3), (4, 7), (8, 15), (16, 31), (32, 63), (64, 127), (128, 255)];
        assert(bins@ =~= default_bins());
        PvdOptions { bins }
    }
}

/// Every bin lies within the byte differences `[0, 255]`.
pub open spec fn bins_in_range(bins: Seq<(i32, i32)>) -> bool {
    forall|k: int| 0 <= k < bins.len() ==> 0 <= #[trigger] bins[k].0 && bins[k].1 <= 255
}

pub open spec fn in_bin(bin: (i32, i32), d: int) -> bool {
    bin.0 <= d <= bin.1
}

/// The index of the first bin from `from` on that holds `d`.
pub open spec fn first_bin_from(bins: Seq<(i32, i32)>, d: int, from: nat) -> Option<nat>
    decreases bins.len() - from,
{
    if from >= bins.len() {
        None
    } else if in_bin(bins[from as int], d) {
        Some(from)
    } else {
        first_bin_from(bins, d, from + 1)
    }
}

/// The index of the first bin that holds `d`.
pub open spec fn first_bin(bins: Seq<(i32, i32)>, d: int) -> Option<nat> {
    first_bin_from(bins, d, 0)
}

/// `floor(log2(n))`, and 0 for `n` below 2.
pub open spec fn floor_log2(n: nat) -> nat
    decreases n,
{
    if n < 2 {
        0
    } else {
        1 + floor_log2(n / 2)
    }
}

/// How many bits a pair whose difference falls in `bin` holds.
pub open spec fn bin_capacity(bin: (i32, i32)) -> nat {
    floor_log2((bin.1 - bin.0 + 1) as nat)
}

pub open spec fn abs_diff(p1: u8, p2: u8) -> nat {
    if p1 >= p2 {
        (p1 - p2) as nat
    } else {
        (p2 - p1) as nat
    }
}

pub open spec fn empty_bins_text() -> Seq<char> {
    "options.bins cannot be empty"@
}

pub open spec fn uncovered_text(idx1: usize, idx2: usize, p1: u8, p2: u8) -> Seq<char> {
    "Difference "@ + decimal(abs_diff(p1, p2)) + " at positions idx1="@ + decimal(idx1 as nat)
        + " (pixel: "@ + decimal(p1 as nat) + ") and idx2="@ + decimal(idx2 as nat)
        + " (pixel: "@ + decimal(p2 as nat) + ") does not fit any bin"@
}

pub open spec fn short_text(embedded: nat, needed: nat) -> Seq<char> {
    "Not enough capacity to embed the full secret: embedded "@ + decimal(embedded) + "/"@
        + decimal(needed) + " bits"@
}

fn empty_bins_message() -> (r: String)
    ensures
        r@ == empty_bins_text(),
{
    String::from_str("options.bins cannot be empty")
}

fn uncovered_message(idx1: usize, idx2: usize, p1: u8, p2: u8) -> (r: String)
    ensures
        r@ == uncovered_text(idx1, idx2, p1, p2),
{
    let d: u8 = if p1 >= p2 {
        p1 - p2
    } else {
        p2 - p1
    };
    let mut s = String::from_str("Difference ");
    push_decimal(&mut s, d as u64);
    s.append(" at positions idx1=");
    push_decimal(&mut s, idx1 as u64);
    s.append(" (pixel: ");
    push_decimal(&mut s, p1 as u64);
    s.append(") and idx2=");
    push_decimal(&mut s, idx2 as u64);
    s.append(" (pixel: ");
    push_decimal(&mut s, p2 as u64);
    s.append(") does not fit any bin");
    s
}

fn short_message(embedded: usize, needed: usize) -> (r: String)
    ensures
        r@ == short_text(embedded as nat, needed as nat),
{
    let mut s = String::from_str("Not enough capacity to embed the full secret: embedded ");
    push_decimal(&mut s, embedded as u64);
    s.append("/");
    push_decimal(&mut s, needed as u64);
    s.append(" bits");
    s
}

/// `2^floor(log2(n)) <= n < 2^(floor(log2(n)) + 1)`.
pub proof fn lemma_floor_log2(n: nat)
    requires
        n >= 1,
    ensures
        pow2(floor_log2(n)) <= n < pow2(floor_log2(n) + 1),
    decreases n,
{
    if n < 2 {
        lemma_pow2_small(1);
        lemma_pow2_unfold(1);
    } else {
        lemma_floor_log2(n / 2);
        lemma_pow2_unfold(floor_log2(n));
        lemma_pow2_unfold(floor_log2(n) + 1);
    }
}

proof fn lemma_floor_log2_small(n: nat)
    requires
        1 <= n <= 256,
    ensures
        floor_log2(n) <= 8,
        pow2(floor_log2(n)) <= n,
{
    lemma_floor_log2(n);
    if floor_log2(n) > 8 {
        vstd::arithmetic::power2::lemma_pow2_strictly_increases(8, floor_log2(n));
        lemma_pow2_small(8);
    }
}

/// A bin within `[0, 255]` holds at most 8 bits, and `2^capacity` fits in it.
proof fn lemma_capacity_bound(bin: (i32, i32))
    requires
        0 <= bin.0 <= bin.1 <= 255,
    ensures
        bin_capacity(bin) <= 8,
        pow2(bin_capacity(bin)) <= bin.1 - bin.0 + 1,
{
    lemma_floor_log2_small((bin.1 - bin.0 + 1) as nat);
}

proof fn lemma_first_bin_from(bins: Seq<(i32, i32)>, d: int, from: nat)
    ensures
        match first_bin_from(bins, d, from) {
            Some(k) => from <= k < bins.len() && in_bin(bins[k as int], d) && forall|i: int|
                from <= i < k ==> !in_bin(#[trigger] bins[i], d),
            None => forall|i: int| from <= i < bins.len() ==> !in_bin(#[trigger] bins[i], d),
        },
    decreases bins.len() - from,
{
    if from < bins.len() {
        lemma_first_bin_from(bins, d, from + 1);
    }
}

/// The index of the first bin that holds `d`.
fn find_bin(bins: &Vec<(i32, i32)>, d: i32) -> (r: Option<usize>)
    ensures
        match r {
            Some(k) => first_bin(bins@, d as int) == Some(k as nat),
            None => first_bin(bins@, d as int) is None,
        },
{
    let mut k: usize = 0;
    while k < bins.len()
        invariant
            k <= bins@.len(),
            first_bin(bins@, d as int) == first_bin_from(bins@, d as int, k as nat),
        decreases bins@.len() - k,
    {
        let (lo, hi) = bins[k];
        if lo <= d && d <= hi {
            return Some(k);
        }
        k = k + 1;
    }
    None
}

/// `floor(log2(n))`.
fn log2_floor(n: u32) -> (r: u32)
    requires
        1 <= n <= 256,
    ensures
        r == floor_log2(n as nat),
{
    proof {
        lemma_floor_log2_small(n as nat);
    }
    let mut m = n;
    let mut r: u32 = 0;
    while m >= 2
        invariant
            1 <= m <= 256,
            r <= 8,
            r + floor_log2(m as nat) == floor_log2(n as nat),
            floor_log2(n as nat) <= 8,
        decreases m,
    {
        m = m / 2;
        r = r + 1;
    }
    r
}

/// The bits that extraction reads from the pairs from pair `j` on, or the first pair
/// whose difference no bin holds: `(idx1, idx2, p1, p2)`.
pub open spec fn extract_run(
    host: Seq<u8>,
    bins: Seq<(i32, i32)>,
    idx: Seq<usize>,
    j: nat,
) -> Result<Seq<bool>, (usize, usize, u8, u8)>
    decreases idx.len() - 2 * j,
{
    if 2 * j + 1 >= idx.len() {
        Ok(Seq::empty())
    } else {
        let i1 = idx[2 * j as int];
        let i2 = idx[2 * j as int + 1];
        if i1 >= host.len() || i2 >= host.len() {
            extract_run(host, bins, idx, j + 1)
        } else {
            let p1 = host[i1 as int];
            let p2 = host[i2 as int];
            let d = abs_diff(p1, p2);
            match first_bin(bins, d as int) {
                None => Err((i1, i2, p1, p2)),
                Some(b) => {
                    let bin = bins[b as int];
                    match extract_run(host, bins, idx, j + 1) {
                        Ok(rest) => Ok(value_bits((d - bin.0) as nat, bin_capacity(bin)) + rest),
                        Err(e) => Err(e),
                    }
                },
            }
        }
    }
}

/// What `pvd_extract` answers.
pub open spec fn pvd_extract_outcome(
    host: Seq<u8>,
    bins: Seq<(i32, i32)>,
    idx: Seq<usize>,
) -> Result<Seq<u8>, Seq<char>> {
    if bins.len() == 0 {
        Err(empty_bins_text())
    } else {
        match extract_run(host, bins, idx, 0) {
            Ok(b) => Ok(pack_bits(b)),
            Err((i1, i2, p1, p2)) => Err(uncovered_text(i1, i2, p1, p2)),
        }
    }
}

/// Reads the bits hidden in the pairs `(indices[0], indices[1])`, `(indices[2],
/// indices[3])`, ...: a pair whose difference `d` falls first in bin `(min, max)` gives
/// `d - min` as `floor(log2(max - min + 1))` bits, most significant first. A trailing
/// unpaired index and pairs with an index outside the host are skipped. The bits are
/// packed into bytes, the last one padded with zero bits. Fails on an empty bin table
/// and on the first pair whose difference no bin holds.
pub fn pvd_extract(host: &[u8], options: &PvdOptions, extraction_indices: &[usize]) -> (r: Result<
    Vec<u8>,
    String,
>)
    requires
        bins_in_range(options.bins@),
        extraction_indices@.len() * 4 <= usize::MAX,
    ensures
        bytes_view(r) == pvd_extract_outcome(host@, options.bins@, extraction_indices@),
{
    if options.bins.len() == 0 {
        return Err(empty_bins_message());
    }
    let ghost bins = options.bins@;
    let ghost idx = extraction_indices@;
    let mut writer = BitWriter::new();
    let npairs = extraction_indices.len() / 2;
    let mut j: usize = 0;
    while j < npairs
        invariant
            bins == options.bins@,
            bins.len() > 0,
            idx == extraction_indices@,
            bins_in_range(bins),
            idx.len() * 4 <= usize::MAX,
            npairs == idx.len() / 2,
            j <= npairs,
            writer.wf(),
            writer.stream().len() <= 8 * j,
            extract_run(host@, bins, idx, 0) == match extract_run(host@, bins, idx, j as nat) {
                Ok(rest) => Ok(writer.stream() + rest),
                Err(e) => Err(e),
            },
        decreases npairs - j,
    {
        let idx1 = extraction_indices[2 * j];
        let idx2 = extraction_indices[2 * j + 1];
        if idx1 >= host.len() || idx2 >= host.len() {
            j = j + 1;
            continue;
        }
        let p1 = host[idx1];
        let p2 = host[idx2];
        let diff_abs: i32 = if p1 >= p2 {
            (p1 - p2) as i32
        } else {
            (p2 - p1) as i32
        };
        proof {
            assert(2 * j + 1 < idx.len());
            assert(diff_abs as int == abs_diff(p1, p2));
            lemma_first_bin_from(bins, diff_abs as int, 0);
        }
        let k = match find_bin(&options.bins, diff_abs) {
            Some(k) => k,
            None => {
                return Err(uncovered_message(idx1, idx2, p1, p2));
            },
        };
        let (min_bin, max_bin) = options.bins[k];
        proof {
            assert(0 <= bins[k as int].0 && bins[k as int].1 <= 255);
            lemma_capacity_bound(bins[k as int]);
        }
        let bits_to_extract = log2_floor((max_bin - min_bin + 1) as u32);
        let hidden_value = (diff_abs - min_bin) as u32;
        let ghost before = writer.stream();
        let ghost chunk = value_bits(hidden_value as nat, bits_to_extract as nat);
        let mut t = bits_to_extract;
        while t > 0
            invariant
                t <= bits_to_extract <= 8,
                writer.wf(),
                before.len() <= 8 * j,
                j < npairs,
                npairs == idx.len() / 2,
                idx.len() * 4 <= usize::MAX,
                chunk == value_bits(hidden_value as nat, bits_to_extract as nat),
                writer.stream() == before + chunk.take(bits_to_extract - t),
            decreases t,
        {
            t = t - 1;
            proof {
                lemma_shr_bit(hidden_value, t);
            }
            let bit = (hidden_value >> t) & 1 == 1;
            writer.push(bit);
            proof {
                assert(chunk[bits_to_extract - t - 1] == bit);
                assert(writer.stream() =~= before + chunk.take(bits_to_extract - t));
            }
        }
        proof {
            assert(chunk.take(bits_to_extract as int) =~= chunk);
            let rest = extract_run(host@, bins, idx, j as nat + 1);
            if rest is Ok {
                assert(before + (chunk + rest->Ok_0) =~= writer.stream() + rest->Ok_0);
            }
        }
        j = j + 1;
    }
    Ok(writer.finish())
}

/// The pair written for a new difference `new_diff`: from the old pair's average
/// (rounded down), the first value moves `ceil(new_diff / 2)` and the second
/// `floor(new_diff / 2)` apart, so that the difference keeps its sign (a tie counts as
/// positive). `None` where a value would leave `[0, 255]`.
pub open spec fn rebuilt_pair(p1: u8, p2: u8, new_diff: int) -> Option<(u8, u8)> {
    let avg = (p1 + p2) / 2;
    let up = (new_diff + 1) / 2;
    let down = new_diff / 2;
    let q1 = if p1 >= p2 {
        avg + up
    } else {
        avg - up
    };
    let q2 = if p1 >= p2 {
        avg - down
    } else {
        avg + down
    };
    if 0 <= q1 <= 255 && 0 <= q2 <= 255 {
        Some((q1 as u8, q2 as u8))
    } else {
        None
    }
}

/// Where embedding stops: with the host as it then is and the number of secret bits
/// placed, or at a pair whose difference no bin holds.
pub enum EmbedRun {
    Finished { host: Seq<u8>, cursor: nat },
    Uncovered { host: Seq<u8>, idx1: usize, idx2: usize, p1: u8, p2: u8 },
}

/// Embedding from pair `j` on, with `cursor` secret bits placed so far. It stops once
/// the secret is placed, at the end of the pairs, or at a bin that holds no bits. A pair
/// with an index outside the host is skipped. A pair whose difference falls first in bin
/// `(min, max)` takes the next `floor(log2(max - min + 1))` secret bits (fewer at the end
/// of the secret) as the number `v`, and gets difference `min + v`; where a rebuilt value
/// would leave `[0, 255]` the pair is left alone and the same bits go to the next pair.
pub open spec fn embed_run(
    host: Seq<u8>,
    secret: Seq<u8>,
    bins: Seq<(i32, i32)>,
    idx: Seq<usize>,
    j: nat,
    cursor: nat,
) -> EmbedRun
    decreases idx.len() - 2 * j,
{
    let total = 8 * secret.len();
    if 2 * j + 1 >= idx.len() || cursor >= total {
        EmbedRun::Finished { host, cursor }
    } else {
        let i1 = idx[2 * j as int];
        let i2 = idx[2 * j as int + 1];
        if i1 >= host.len() || i2 >= host.len() {
            embed_run(host, secret, bins, idx, j + 1, cursor)
        } else {
            let p1 = host[i1 as int];
            let p2 = host[i2 as int];
            match first_bin(bins, abs_diff(p1, p2) as int) {
                None => EmbedRun::Uncovered { host, idx1: i1, idx2: i2, p1, p2 },
                Some(b) => {
                    let bin = bins[b as int];
                    let cap = bin_capacity(bin);
                    let take: nat = if cap <= total - cursor {
                        cap
                    } else {
                        (total - cursor) as nat
                    };
                    if take == 0 {
                        EmbedRun::Finished { host, cursor }
                    } else {
                        let v = bits_value(byte_bits(secret), cursor as int, take);
                        match rebuilt_pair(p1, p2, bin.0 + v) {
                            None => embed_run(host, secret, bins, idx, j + 1, cursor),
                            Some((q1, q2)) => embed_run(
                                host.update(i1 as int, q1).update(i2 as int, q2),
                                secret,
                                bins,
                                idx,
                                j + 1,
                                cursor + take,
                            ),
                        }
                    }
                },
            }
        }
    }
}

/// The host after `pvd_embed`.
pub open spec fn pvd_embedded(
    host: Seq<u8>,
    secret: Seq<u8>,
    bins: Seq<(i32, i32)>,
    idx: Seq<usize>,
) -> Seq<u8> {
    if bins.len() == 0 {
        host
    } else {
        match embed_run(host, secret, bins, idx, 0, 0) {
            EmbedRun::Finished { host: h, .. } => h,
            EmbedRun::Uncovered { host: h, .. } => h,
        }
    }
}

/// What `pvd_embed` answers.
pub open spec fn pvd_embed_outcome(
    host: Seq<u8>,
    secret: Seq<u8>,
    bins: Seq<(i32, i32)>,
    idx: Seq<usize>,
) -> Result<usize, Seq<char>> {
    if bins.len() == 0 {
        Err(empty_bins_text())
    } else {
        match embed_run(host, secret, bins, idx, 0, 0) {
            EmbedRun::Finished { cursor, .. } => if cursor < 8 * secret.len() {
                Err(short_text(cursor, 8 * secret.len()))
            } else {
                Ok(cursor as usize)
            },
            EmbedRun::Uncovered { idx1, idx2, p1, p2, .. } => Err(
                uncovered_text(idx1, idx2, p1, p2),
            ),
        }
    }
}

/// Hides `secret` in the pairs `(indices[0], indices[1])`, `(indices[2], indices[3])`,
/// ... of `host`, as `embed_run` describes, and returns the number of bits placed,
/// `8 * secret.len()`. Fails on an empty bin table (host untouched), on a pair whose
/// difference no bin holds, and when the pairs run out before the secret is placed;
/// the last two leave the host as embedding had changed it by then.
pub fn pvd_embed(
    host: &mut [u8],
    secret: &[u8],
    options: &PvdOptions,
    embedding_indices: &[usize],
) -> (r: Result<usize, String>)
    requires
        bins_in_range(options.bins@),
        secret@.len() * 8 <= usize::MAX,
    ensures
        err_view(r) == pvd_embed_outcome(
            old(host)@,
            secret@,
            options.bins@,
            embedding_indices@,
        ),
        final(host)@ == pvd_embedded(old(host)@, secret@, options.bins@, embedding_indices@),
        r is Ok ==> r->Ok_0 == 8 * secret@.len(),
{
    if options.bins.len() == 0 {
        return Err(empty_bins_message());
    }
    let ghost bins = options.bins@;
    let ghost idx = embedding_indices@;
    let ghost run = embed_run(host@, secret@, bins, idx, 0, 0);
    let ghost stream = byte_bits(secret@);
    let total_secret_bits = secret.len() * 8;
    let mut bit_index: usize = 0;
    let npairs = embedding_indices.len() / 2;
    let mut j: usize = 0;
    while j < npairs
        invariant
            bins == options.bins@,
            bins.len() > 0,
            idx == embedding_indices@,
            stream == byte_bits(secret@),
            bins_in_range(bins),
            total_secret_bits == 8 * secret@.len(),
            npairs == idx.len() / 2,
            idx.len() <= usize::MAX,
            j <= npairs,
            bit_index <= total_secret_bits,
            run == embed_run(host@, secret@, bins, idx, j as nat, bit_index as nat),
            run == embed_run(old(host)@, secret@, bins, idx, 0, 0),
        ensures
            run == (EmbedRun::Finished { host: host@, cursor: bit_index as nat }),
            bit_index <= total_secret_bits,
        decreases npairs - j,
    {
        if bit_index >= total_secret_bits {
            break;
        }
        let idx1 = embedding_indices[2 * j];
        let idx2 = embedding_indices[2 * j + 1];
        proof {
            assert(2 * j + 1 < idx.len());
        }
        if idx1 >= host.len() || idx2 >= host.len() {
            j = j + 1;
            continue;
        }
        let p1 = host[idx1];
        let p2 = host[idx2];
        let diff_abs: i32 = if p1 >= p2 {
            (p1 - p2) as i32
        } else {
            (p2 - p1) as i32
        };
        proof {
            lemma_first_bin_from(bins, diff_abs as int, 0);
        }
        let k = match find_bin(&options.bins, diff_abs) {
            Some(k) => k,
            None => {
                return Err(uncovered_message(idx1, idx2, p1, p2));
            },
        };
        let (min_bin, max_bin) = options.bins[k];
        proof {
            assert(0 <= bins[k as int].0 && bins[k as int].1 <= 255);
            lemma_capacity_bound(bins[k as int]);
        }
        let bits_to_embed = log2_floor((max_bin - min_bin + 1) as u32) as usize;
        let mut secret_bits: u32 = 0;
        let mut actual_bits: usize = 0;
        while actual_bits < bits_to_embed && bit_index + actual_bits < total_secret_bits
            invariant
                bits_to_embed <= 8,
                actual_bits <= bits_to_embed,
                bit_index + actual_bits <= total_secret_bits,
                total_secret_bits == 8 * secret@.len(),
                stream == byte_bits(secret@),
                secret_bits == bits_value(stream, bit_index as int, actual_bits as nat),
            decreases bits_to_embed - actual_bits,
        {
            let bit = read_bit(secret, bit_index + actual_bits);
            proof {
                lemma_bits_value_bound(stream, bit_index as int, actual_bits as nat);
                lemma_pow2_small(actual_bits as nat);
            }
            secret_bits = secret_bits * 2 + bit as u32;
            actual_bits = actual_bits + 1;
        }
        if actual_bits == 0 {
            break;
        }
        proof {
            lemma_bits_value_bound(stream, bit_index as int, actual_bits as nat);
            lemma_pow2_small(actual_bits as nat);
        }
        let new_diff = min_bin as u32 + secret_bits;
        let avg = (p1 as u32 + p2 as u32) / 2;
        let up = (new_diff + 1) / 2;
        let down = new_diff / 2;
        let (new_p1, new_p2) = if p1 >= p2 {
            (avg as i32 + up as i32, avg as i32 - down as i32)
        } else {
            (avg as i32 - up as i32, avg as i32 + down as i32)
        };
        proof {
            let cap = bin_capacity(bins[k as int]);
            let rest = (total_secret_bits - bit_index) as nat;
            assert(actual_bits == if cap <= rest {
                cap
            } else {
                rest
            });
            assert(idx[2 * j as int] == idx1 && idx[2 * j as int + 1] == idx2);
        }
        if new_p1 < 0 || new_p1 > 255 || new_p2 < 0 || new_p2 > 255 {
            proof {
                assert(rebuilt_pair(p1, p2, min_bin + secret_bits) is None);
            }
            j = j + 1;
            continue;
        }
        proof {
            assert(rebuilt_pair(p1, p2, min_bin + secret_bits) == Some(
                (new_p1 as u8, new_p2 as u8),
            ));
        }
        host[idx1] = new_p1 as u8;
        host[idx2] = new_p2 as u8;
        bit_index = bit_index + actual_bits;
        j = j + 1;
    }
    if bit_index < total_secret_bits {
        return Err(short_message(bit_index, total_secret_bits));
    }
    Ok(bit_index)
}

/// Whether embedding from pair `j` on rebuilds every pair it reaches without leaving
/// `[0, 255]`, and gives every rebuilt pair the full capacity of its bin (so that no
/// short group of bits is left for the last pair).
pub open spec fn embed_run_clean(
    host: Seq<u8>,
    secret: Seq<u8>,
    bins: Seq<(i32, i32)>,
    idx: Seq<usize>,
    j: nat,
    cursor: nat,
) -> bool
    decreases idx.len() - 2 * j,
{
    let total = 8 * secret.len();
    if 2 * j + 1 >= idx.len() || cursor >= total {
        true
    } else {
        let i1 = idx[2 * j as int];
        let i2 = idx[2 * j as int + 1];
        if i1 >= host.len() || i2 >= host.len() {
            embed_run_clean(host, secret, bins, idx, j + 1, cursor)
        } else {
            let p1 = host[i1 as int];
            let p2 = host[i2 as int];
            match first_bin(bins, abs_diff(p1, p2) as int) {
                None => true,
                Some(b) => {
                    let bin = bins[b as int];
                    let cap = bin_capacity(bin);
                    let take: nat = if cap <= total - cursor {
                        cap
                    } else {
                        (total - cursor) as nat
                    };
                    if take == 0 {
                        true
                    } else {
                        let v = bits_value(byte_bits(secret), cursor as int, take);
                        match rebuilt_pair(p1, p2, bin.0 + v) {
                            None => false,
                            Some((q1, q2)) => take == cap && embed_run_clean(
                                host.update(i1 as int, q1).update(i2 as int, q2),
                                secret,
                                bins,
                                idx,
                                j + 1,
                                cursor + take,
                            ),
                        }
                    }
                },
            }
        }
    }
}

/// The host left by `embed_run`.
pub open spec fn run_host(r: EmbedRun) -> Seq<u8> {
    match r {
        EmbedRun::Finished { host, .. } => host,
        EmbedRun::Uncovered { host, .. } => host,
    }
}

/// Every difference of two bytes falls in some bin.
pub open spec fn bins_cover(bins: Seq<(i32, i32)>) -> bool {
    forall|d: int| 0 <= d <= 255 ==> #[trigger] first_bin(bins, d) is Some
}

/// No difference falls in two bins.
pub open spec fn bins_disjoint(bins: Seq<(i32, i32)>) -> bool {
    forall|a: int, b: int, d: int|
        0 <= a < bins.len() && 0 <= b < bins.len() && #[trigger] in_bin(bins[a], d)
            && #[trigger] in_bin(bins[b], d) ==> a == b
}

/// Embedding from pair `j` on writes only at the indices of those pairs.
proof fn lemma_embed_run_frame(
    host: Seq<u8>,
    secret: Seq<u8>,
    bins: Seq<(i32, i32)>,
    idx: Seq<usize>,
    j: nat,
    cursor: nat,
    p: int,
)
    requires
        0 <= p < host.len(),
        forall|m: int| 2 * j <= m < idx.len() ==> idx[m] != p,
    ensures
        run_host(embed_run(host, secret, bins, idx, j, cursor)).len() == host.len(),
        run_host(embed_run(host, secret, bins, idx, j, cursor))[p] == host[p],
    decreases idx.len() - 2 * j,
{
    let total = 8 * secret.len();
    if 2 * j + 1 >= idx.len() || cursor >= total {
    } else {
        let i1 = idx[2 * j as int];
        let i2 = idx[2 * j as int + 1];
        if i1 >= host.len() || i2 >= host.len() {
            lemma_embed_run_frame(host, secret, bins, idx, j + 1, cursor, p);
        } else {
            let p1 = host[i1 as int];
            let p2 = host[i2 as int];
            match first_bin(bins, abs_diff(p1, p2) as int) {
                None => {},
                Some(b) => {
                    let bin = bins[b as int];
                    let cap = bin_capacity(bin);
                    let take: nat = if cap <= total - cursor {
                        cap
                    } else {
                        (total - cursor) as nat
                    };
                    if take != 0 {
                        let v = bits_value(byte_bits(secret), cursor as int, take);
                        match rebuilt_pair(p1, p2, bin.0 + v) {
                            None => {
                                lemma_embed_run_frame(host, secret, bins, idx, j + 1, cursor, p);
                            },
                            Some((q1, q2)) => {
                                let h = host.update(i1 as int, q1).update(i2 as int, q2);
                                lemma_embed_run_frame(
                                    h,
                                    secret,
                                    bins,
                                    idx,
                                    j + 1,
                                    cursor + take,
                                    p,
                                );
                            },
                        }
                    }
                },
            }
        }
    }
}

/// Embedding keeps the host's length.
proof fn lemma_embed_run_frame_len(
    host: Seq<u8>,
    secret: Seq<u8>,
    bins: Seq<(i32, i32)>,
    idx: Seq<usize>,
    j: nat,
    cursor: nat,
)
    ensures
        run_host(embed_run(host, secret, bins, idx, j, cursor)).len() == host.len(),
    decreases idx.len() - 2 * j,
{
    let total = 8 * secret.len();
    if 2 * j + 1 < idx.len() && cursor < total {
        let i1 = idx[2 * j as int];
        let i2 = idx[2 * j as int + 1];
        if i1 >= host.len() || i2 >= host.len() {
            lemma_embed_run_frame_len(host, secret, bins, idx, j + 1, cursor);
        } else {
            let p1 = host[i1 as int];
            let p2 = host[i2 as int];
            match first_bin(bins, abs_diff(p1, p2) as int) {
                None => {},
                Some(b) => {
                    let bin = bins[b as int];
                    let cap = bin_capacity(bin);
                    let take: nat = if cap <= total - cursor {
                        cap
                    } else {
                        (total - cursor) as nat
                    };
                    if take != 0 {
                        let v = bits_value(byte_bits(secret), cursor as int, take);
                        match rebuilt_pair(p1, p2, bin.0 + v) {
                            None => {
                                lemma_embed_run_frame_len(host, secret, bins, idx, j + 1, cursor);
                            },
                            Some((q1, q2)) => {
                                let h = host.update(i1 as int, q1).update(i2 as int, q2);
                                lemma_embed_run_frame_len(h, secret, bins, idx, j + 1, cursor + take);
                            },
                        }
                    }
                },
            }
        }
    }
}

/// A rebuilt pair has the difference it was rebuilt for.
proof fn lemma_rebuilt_pair_diff(p1: u8, p2: u8, new_diff: int)
    requires
        new_diff >= 0,
        rebuilt_pair(p1, p2, new_diff) is Some,
    ensures
        ({
            let (q1, q2) = rebuilt_pair(p1, p2, new_diff)->0;
            abs_diff(q1, q2) == new_diff
        }),
{
}

/// With disjoint bins, the bin that holds `d` is the first that does.
proof fn lemma_first_bin_disjoint(bins: Seq<(i32, i32)>, b: int, d: int)
    requires
        bins_disjoint(bins),
        0 <= b < bins.len(),
        in_bin(bins[b], d),
    ensures
        first_bin(bins, d) == Some(b as nat),
{
    lemma_first_bin_from(bins, d, 0);
}

/// With covering bins, extraction never fails.
proof fn lemma_extract_run_ok(host: Seq<u8>, bins: Seq<(i32, i32)>, idx: Seq<usize>, j: nat)
    requires
        bins_cover(bins),
    ensures
        extract_run(host, bins, idx, j) is Ok,
    decreases idx.len() - 2 * j,
{
    if 2 * j + 1 < idx.len() {
        lemma_extract_run_ok(host, bins, idx, j + 1);
        let i1 = idx[2 * j as int];
        let i2 = idx[2 * j as int + 1];
        if i1 < host.len() && i2 < host.len() {
            assert(first_bin(bins, abs_diff(host[i1 as int], host[i2 as int]) as int) is Some);
        }
    }
}

/// The bits that extraction reads from pairs `j` on match the secret from `cursor` on.
pub open spec fn reads_back(
    host: Seq<u8>,
    secret: Seq<u8>,
    bins: Seq<(i32, i32)>,
    idx: Seq<usize>,
    j: nat,
    cursor: nat,
) -> bool {
    let total = 8 * secret.len();
    match extract_run(host, bins, idx, j) {
        Ok(bits) => bits.len() >= total - cursor && forall|k: int|
            0 <= k < total - cursor ==> bits[k] == byte_bits(secret)[cursor + k],
        Err(_) => false,
    }
}

/// A pair reached by a clean, complete embedding is rebuilt with its bin's full
/// capacity; the result is the host after that pair and that capacity.
proof fn lemma_embed_pair(
    host: Seq<u8>,
    secret: Seq<u8>,
    bins: Seq<(i32, i32)>,
    idx: Seq<usize>,
    j: nat,
    cursor: nat,
) -> (r: (Seq<u8>, nat))
    requires
        2 * j + 1 < idx.len(),
        cursor < 8 * secret.len(),
        idx[2 * j as int] < host.len(),
        idx[2 * j as int + 1] < host.len(),
        idx[2 * j as int] != idx[2 * j as int + 1],
        embed_run_clean(host, secret, bins, idx, j, cursor),
        embed_run(host, secret, bins, idx, j, cursor) is Finished,
        embed_run(host, secret, bins, idx, j, cursor)->Finished_cursor >= 8 * secret.len(),
    ensures
        ({
            let i1 = idx[2 * j as int] as int;
            let i2 = idx[2 * j as int + 1] as int;
            let (h, cap) = r;
            let b = first_bin(bins, abs_diff(host[i1], host[i2]) as int);
            &&& b is Some
            &&& cap == bin_capacity(bins[b->0 as int])
            &&& 0 < cap <= 8 * secret.len() - cursor
            &&& rebuilt_pair(
                host[i1],
                host[i2],
                bins[b->0 as int].0 + bits_value(byte_bits(secret), cursor as int, cap),
            ) == Some((h[i1], h[i2]))
            &&& h == host.update(i1, h[i1]).update(i2, h[i2])
            &&& embed_run(host, secret, bins, idx, j, cursor) == embed_run(
                h,
                secret,
                bins,
                idx,
                j + 1,
                cursor + cap,
            )
            &&& embed_run_clean(h, secret, bins, idx, j + 1, cursor + cap)
        }),
{
    let i1 = idx[2 * j as int] as int;
    let i2 = idx[2 * j as int + 1] as int;
    let p1 = host[i1];
    let p2 = host[i2];
    let b = first_bin(bins, abs_diff(p1, p2) as int)->0;
    let bin = bins[b as int];
    let cap = bin_capacity(bin);
    let v = bits_value(byte_bits(secret), cursor as int, cap);
    let (q1, q2) = rebuilt_pair(p1, p2, bin.0 + v)->0;
    let h = host.update(i1, q1).update(i2, q2);
    assert(h.update(i1, h[i1]).update(i2, h[i2]) =~= h);
    (h, cap)
}

/// Extraction at pair `j` of the final host reads the bits that embedding gave it.
proof fn lemma_extract_pair(
    final_host: Seq<u8>,
    host: Seq<u8>,
    secret: Seq<u8>,
    bins: Seq<(i32, i32)>,
    idx: Seq<usize>,
    j: nat,
    cursor: nat,
    cap: nat,
)
    requires
        bins_in_range(bins),
        bins_disjoint(bins),
        2 * j + 1 < idx.len(),
        final_host.len() == host.len(),
        idx[2 * j as int] < host.len(),
        idx[2 * j as int + 1] < host.len(),
        ({
            let i1 = idx[2 * j as int] as int;
            let i2 = idx[2 * j as int + 1] as int;
            let b = first_bin(bins, abs_diff(host[i1], host[i2]) as int);
            &&& b is Some
            &&& cap == bin_capacity(bins[b->0 as int])
            &&& 0 < cap <= 8 * secret.len() - cursor
            &&& rebuilt_pair(
                host[i1],
                host[i2],
                bins[b->0 as int].0 + bits_value(byte_bits(secret), cursor as int, cap),
            ) == Some((final_host[i1], final_host[i2]))
        }),
        reads_back(final_host, secret, bins, idx, j + 1, cursor + cap),
    ensures
        reads_back(final_host, secret, bins, idx, j, cursor),
{
    let i1 = idx[2 * j as int] as int;
    let i2 = idx[2 * j as int + 1] as int;
    let b = first_bin(bins, abs_diff(host[i1], host[i2]) as int)->0;
    lemma_first_bin_from(bins, abs_diff(host[i1], host[i2]) as int, 0);
    let bin = bins[b as int];
    let stream = byte_bits(secret);
    let total = 8 * secret.len();
    let v = bits_value(stream, cursor as int, cap);
    assert(0 <= bin.0 && bin.1 <= 255);
    lemma_capacity_bound(bin);
    lemma_bits_value_bound(stream, cursor as int, cap);
    lemma_rebuilt_pair_diff(host[i1], host[i2], bin.0 + v);
    lemma_first_bin_disjoint(bins, b as int, bin.0 + v);
    let chunk = value_bits(v, cap);
    let rest = extract_run(final_host, bins, idx, j + 1)->Ok_0;
    assert(extract_run(final_host, bins, idx, j) == Ok::<Seq<bool>, (usize, usize, u8, u8)>(
        chunk + rest,
    ));
    assert forall|k: int| 0 <= k < total - cursor implies (chunk + rest)[k] == stream[cursor
        + k] by {
        if k < cap {
            lemma_bits_value_bit(stream, cursor as int, cap, (cap - 1 - k) as nat);
        } else {
            assert((chunk + rest)[k] == rest[k - cap]);
        }
    }
}

/// Embedding from pair `j` on, when clean and complete, leaves pairs from which
/// extraction reads back the secret bits from `cursor` on.
proof fn lemma_round_trip_from(
    host: Seq<u8>,
    secret: Seq<u8>,
    bins: Seq<(i32, i32)>,
    idx: Seq<usize>,
    j: nat,
    cursor: nat,
)
    requires
        bins_in_range(bins),
        bins_cover(bins),
        bins_disjoint(bins),
        idx.no_duplicates(),
        cursor <= 8 * secret.len(),
        embed_run_clean(host, secret, bins, idx, j, cursor),
        embed_run(host, secret, bins, idx, j, cursor) is Finished,
        embed_run(host, secret, bins, idx, j, cursor)->Finished_cursor >= 8 * secret.len(),
    ensures
        reads_back(
            run_host(embed_run(host, secret, bins, idx, j, cursor)),
            secret,
            bins,
            idx,
            j,
            cursor,
        ),
    decreases idx.len() - 2 * j,
{
    let total = 8 * secret.len();
    let final_host = run_host(embed_run(host, secret, bins, idx, j, cursor));
    lemma_extract_run_ok(final_host, bins, idx, j);
    if 2 * j + 1 >= idx.len() || cursor >= total {
    } else {
        let i1 = idx[2 * j as int];
        let i2 = idx[2 * j as int + 1];
        if i1 >= host.len() || i2 >= host.len() {
            assert(embed_run(host, secret, bins, idx, j, cursor) == embed_run(
                host,
                secret,
                bins,
                idx,
                j + 1,
                cursor,
            ));
            lemma_round_trip_from(host, secret, bins, idx, j + 1, cursor);
            assert(final_host.len() == host.len()) by {
                lemma_embed_run_frame_len(host, secret, bins, idx, j, cursor);
            }
            assert(extract_run(final_host, bins, idx, j) == extract_run(
                final_host,
                bins,
                idx,
                j + 1,
            ));
        } else {
            assert(i1 != i2);
            let (h, cap) = lemma_embed_pair(host, secret, bins, idx, j, cursor);
            lemma_round_trip_from(h, secret, bins, idx, j + 1, cursor + cap);
            assert forall|m: int| 2 * (j + 1) <= m < idx.len() implies idx[m] != i1 && idx[m]
                != i2 by {
                assert(idx[m] != idx[2 * j as int]);
                assert(idx[m] != idx[2 * j as int + 1]);
            }
            lemma_embed_run_frame(h, secret, bins, idx, j + 1, cursor + cap, i1 as int);
            lemma_embed_run_frame(h, secret, bins, idx, j + 1, cursor + cap, i2 as int);
            lemma_extract_pair(final_host, host, secret, bins, idx, j, cursor, cap);
        }
    }
}

/// The default bins lie in `[0, 255]`, cover every byte difference and do not overlap.
pub proof fn lemma_default_bins()
    ensures
        default_bins().len() == 8,
        bins_in_range(default_bins()),
        bins_cover(default_bins()),
        bins_disjoint(default_bins()),
{
    let bins = default_bins();
    assert(bins[0] == (0i32, 1i32));
    assert(bins[1] == (2i32, 3i32));
    assert(bins[2] == (4i32, 7i32));
    assert(bins[3] == (8i32, 15i32));
    assert(bins[4] == (16i32, 31i32));
    assert(bins[5] == (32i32, 63i32));
    assert(bins[6] == (64i32, 127i32));
    assert(bins[7] == (128i32, 255i32));
    assert forall|k: int| 0 <= k < bins.len() implies 0 <= #[trigger] bins[k].0 && bins[k].1
        <= 255 by {
        assert(k == 0 || k == 1 || k == 2 || k == 3 || k == 4 || k == 5 || k == 6 || k == 7);
    }
    assert forall|d: int| 0 <= d <= 255 implies #[trigger] first_bin(bins, d) is Some by {
        lemma_first_bin_from(bins, d, 0);
        let b: int = if d < 2 {
            0
        } else if d < 4 {
            1
        } else if d < 8 {
            2
        } else if d < 16 {
            3
        } else if d < 32 {
            4
        } else if d < 64 {
            5
        } else if d < 128 {
            6
        } else {
            7
        };
        assert(in_bin(bins[b], d));
    }
    assert forall|a: int, b: int, d: int|
        0 <= a < bins.len() && 0 <= b < bins.len() && #[trigger] in_bin(bins[a], d)
            && #[trigger] in_bin(bins[b], d) implies a == b by {
        assert(a == 0 || a == 1 || a == 2 || a == 3 || a == 4 || a == 5 || a == 6 || a == 7);
        assert(b == 0 || b == 1 || b == 2 || b == 3 || b == 4 || b == 5 || b == 6 || b == 7);
    }
}

/// Round trip with the default bins: when the index sequence names each host position
/// at most once, and embedding succeeds while rebuilding every pair it reaches within
/// `[0, 255]` and filling every rebuilt pair to its bin's capacity, extracting with the
/// same indices from the embedded host gives bytes that start with the secret.
pub proof fn lemma_pvd_round_trip(host: Seq<u8>, secret: Seq<u8>, indices: Seq<usize>)
    requires
        indices.no_duplicates(),
        embed_run_clean(host, secret, default_bins(), indices, 0, 0),
        pvd_embed_outcome(host, secret, default_bins(), indices) is Ok,
    ensures
        match pvd_extract_outcome(
            pvd_embedded(host, secret, default_bins(), indices),
            default_bins(),
            indices,
        ) {
            Ok(out) => out.len() >= secret.len() && out.subrange(0, secret.len() as int)
                == secret,
            Err(_) => false,
        },
{
    let bins = default_bins();
    lemma_default_bins();
    lemma_round_trip_from(host, secret, bins, indices, 0, 0);
    let h = pvd_embedded(host, secret, bins, indices);
    assert(reads_back(h, secret, bins, indices, 0, 0));
    let bits = extract_run(h, bins, indices, 0)->Ok_0;
    lemma_pack_prefix(bits, secret);
}

} // verus!
