//! The sample codec: packed little-endian bytes to interleaved samples and
//! back, for 8, 16, 24 and 32 bits per sample.
//!
//! Samples of 16, 24 and 32 bits are two's complement. An 8-bit sample is an
//! unsigned magnitude: the byte `0xFF` is the sample 255, not -1.

use vstd::prelude::*;

use crate::error::Error;

verus! {

/// The bit depths the codec converts.
pub open spec fn supported_depth(bits: int) -> bool {
    bits == 8 || bits == 16 || bits == 24 || bits == 32
}

/// The number of bytes one sample takes at `bits` bits.
pub open spec fn sample_width(bits: int) -> int {
    bits / 8
}

/// The weight of byte `k` of a little-endian group.
pub open spec fn place(k: int) -> int {
    if k == 0 {
        1
    } else if k == 1 {
        0x100
    } else if k == 2 {
        0x1_0000
    } else {
        0x100_0000
    }
}

/// Half the number of values that `bits` bits distinguish: the magnitude at
/// which a two's complement group turns negative.
pub open spec fn half_range(bits: int) -> int {
    if bits == 8 {
        0x80
    } else if bits == 16 {
        0x8000
    } else if bits == 24 {
        0x80_0000
    } else {
        0x8000_0000
    }
}

/// The values a sample may take at `bits` bits without loss: 0 to 255 at 8
/// bits, the two's complement range at the other depths.
pub open spec fn sample_in_range(v: int, bits: int) -> bool {
    if bits == 8 {
        0 <= v < 0x100
    } else {
        -half_range(bits) <= v < half_range(bits)
    }
}

/// The unsigned value of the `width` bytes of `bytes` that start at `at`,
/// least significant byte first.
pub open spec fn le_magnitude(bytes: Seq<u8>, at: int, width: int) -> int {
    bytes[at] as int + (if width > 1 {
        0x100 * bytes[at + 1] as int
    } else {
        0
    }) + (if width > 2 {
        0x1_0000 * bytes[at + 2] as int
    } else {
        0
    }) + (if width > 3 {
        0x100_0000 * bytes[at + 3] as int
    } else {
        0
    })
}

/// The sample that the group starting at `at` stands for.
pub open spec fn decode_at(bytes: Seq<u8>, at: int, bits: int) -> int {
    let m = le_magnitude(bytes, at, sample_width(bits));
    if bits != 8 && m >= half_range(bits) {
        m - 2 * half_range(bits)
    } else {
        m
    }
}

/// Byte `k` of the little-endian two's complement image of `v`.
pub open spec fn sample_byte(v: int, k: int) -> u8 {
    ((v / place(k)) % 0x100) as u8
}

/// The group of bytes that stands for the sample `v`: its low `bits` bits,
/// least significant byte first.
pub open spec fn encode_sample(v: int, bits: int) -> Seq<u8> {
    Seq::new(sample_width(bits) as nat, |k: int| sample_byte(v, k))
}

/// What `unpack_pcm` makes of `bytes`: one sample for every whole group. Bytes
/// after the last whole group stand for no sample.
pub open spec fn unpack_spec(bytes: Seq<u8>, bits: int) -> Seq<i32> {
    Seq::new(
        (bytes.len() as int / sample_width(bits)) as nat,
        |i: int| decode_at(bytes, i * sample_width(bits), bits) as i32,
    )
}

/// What `pack_pcm` makes of `samples`: the groups of the samples, in order.
pub open spec fn pack_spec(samples: Seq<i32>, bits: int) -> Seq<u8>
    decreases samples.len(),
{
    if samples.len() == 0 {
        Seq::empty()
    } else {
        pack_spec(samples.drop_last(), bits) + encode_sample(samples.last() as int, bits)
    }
}

/// Whether `bits_per_sample` is one of the depths the codec converts.
pub fn is_supported_depth(bits_per_sample: usize) -> (ok: bool)
    ensures
        ok == supported_depth(bits_per_sample as int),
{
    bits_per_sample == 8 || bits_per_sample == 16 || bits_per_sample == 24 || bits_per_sample == 32
}

/// Decodes the group of `data` that starts at `at`.
fn read_sample(data: &[u8], at: usize, bits_per_sample: usize) -> (v: i32)
    requires
        supported_depth(bits_per_sample as int),
        at + sample_width(bits_per_sample as int) <= data@.len(),
    ensures
        v as int == decode_at(data@, at as int, bits_per_sample as int),
{
    assert(data@.len() == data.len());
    let b0: i64 = data[at] as i64;
    if bits_per_sample == 8 {
        b0 as i32
    } else if bits_per_sample == 16 {
        let m: i64 = b0 + 0x100 * (data[at + 1] as i64);
        if m >= 0x8000 {
            (m - 0x1_0000) as i32
        } else {
            m as i32
        }
    } else if bits_per_sample == 24 {
        let m: i64 = b0 + 0x100 * (data[at + 1] as i64) + 0x1_0000 * (data[at + 2] as i64);
        if m >= 0x80_0000 {
            (m - 0x100_0000) as i32
        } else {
            m as i32
        }
    } else {
        let m: i64 = b0 + 0x100 * (data[at + 1] as i64) + 0x1_0000 * (data[at + 2] as i64)
            + 0x100_0000 * (data[at + 3] as i64);
        if m >= 0x8000_0000 {
            (m - 0x1_0000_0000) as i32
        } else {
            m as i32
        }
    }
}

/// Appends the group of the sample `v` to `out`.
fn write_sample(out: &mut Vec<u8>, v: i32, bits_per_sample: usize)
    requires
        supported_depth(bits_per_sample as int),
    ensures
        final(out)@ == old(out)@ + encode_sample(v as int, bits_per_sample as int),
{
    // The two's complement image of `v` as a 32-bit magnitude.
    let u: u64 = if v < 0 {
        (v as i64 + 0x1_0000_0000) as u64
    } else {
        v as u64
    };
    out.push((u % 0x100) as u8);
    if bits_per_sample >= 16 {
        out.push(((u / 0x100) % 0x100) as u8);
    }
    if bits_per_sample >= 24 {
        out.push(((u / 0x1_0000) % 0x100) as u8);
    }
    if bits_per_sample >= 32 {
        out.push(((u / 0x100_0000) % 0x100) as u8);
    }
    proof {
        lemma_image_bytes(v as int, u as int);
        assert(out@ =~= old(out)@ + encode_sample(v as int, bits_per_sample as int));
    }
}

/// Adding 2^32 to a value changes none of its four low bytes.
proof fn lemma_image_bytes(v: int, u: int)
    requires
        u == v || u == v + 0x1_0000_0000,
    ensures
        (u % 0x100) == (v / place(0)) % 0x100,
        (u / 0x100) % 0x100 == (v / place(1)) % 0x100,
        (u / 0x1_0000) % 0x100 == (v / place(2)) % 0x100,
        (u / 0x100_0000) % 0x100 == (v / place(3)) % 0x100,
{
    if u != v {
        assert(u / 0x100 == v / 0x100 + 0x100_0000);
        assert(u / 0x1_0000 == v / 0x1_0000 + 0x1_0000);
        assert(u / 0x100_0000 == v / 0x100_0000 + 0x100);
    }
}

/// Converts packed bytes into samples.
///
/// Every `bits_per_sample / 8` consecutive bytes make one sample, least
/// significant byte first. Bytes left over after the last whole group are
/// dropped. A depth other than 8, 16, 24 or 32 is refused.
pub fn unpack_pcm(data: Vec<u8>, bits_per_sample: usize) -> (r: Result<Vec<i32>, Error>)
    ensures
        match r {
            Ok(pcm) => supported_depth(bits_per_sample as int) && pcm@ == unpack_spec(
                data@,
                bits_per_sample as int,
            ),
            Err(e) => !supported_depth(bits_per_sample as int) && e == Error::UnsupportedBitDepth,
        },
{
    unpack_slice(data.as_slice(), bits_per_sample)
}

/// `unpack_pcm` on borrowed bytes.
pub fn unpack_slice(data: &[u8], bits_per_sample: usize) -> (r: Result<Vec<i32>, Error>)
    ensures
        match r {
            Ok(pcm) => supported_depth(bits_per_sample as int) && pcm@ == unpack_spec(
                data@,
                bits_per_sample as int,
            ),
            Err(e) => !supported_depth(bits_per_sample as int) && e == Error::UnsupportedBitDepth,
        },
{
    if !is_supported_depth(bits_per_sample) {
        return Err(Error::UnsupportedBitDepth);
    }
    let width: usize = bits_per_sample / 8;
    let count: usize = data.len() / width;
    let mut pcm: Vec<i32> = Vec::with_capacity(count);
    let mut i: usize = 0;
    let mut at: usize = 0;
    while i < count
        invariant
            supported_depth(bits_per_sample as int),
            width as int == sample_width(bits_per_sample as int),
            count as int == data@.len() as int / width as int,
            i <= count,
            at as int == i * width,
            at <= data@.len(),
            pcm@.len() == i,
            forall|j: int|
                0 <= j < i ==> pcm@[j] == decode_at(
                    data@,
                    j * sample_width(bits_per_sample as int),
                    bits_per_sample as int,
                ) as i32,
        decreases count - i,
    {
        proof {
            lemma_group_fits(data@.len() as int, width as int, i as int);
            assert(data@.len() == data.len());
        }
        let v = read_sample(data, at, bits_per_sample);
        pcm.push(v);
        i += 1;
        at += width;
    }
    proof {
        assert(pcm@ =~= unpack_spec(data@, bits_per_sample as int));
    }
    Ok(pcm)
}

/// Converts samples into packed bytes.
///
/// Each sample gives its low `bits_per_sample` bits, least significant byte
/// first; higher bits are cut off. A depth other than 8, 16, 24 or 32 is
/// refused.
pub fn pack_pcm(pcm: Vec<i32>, bits_per_sample: usize) -> (r: Result<Vec<u8>, Error>)
    ensures
        match r {
            Ok(data) => supported_depth(bits_per_sample as int) && data@ == pack_spec(
                pcm@,
                bits_per_sample as int,
            ),
            Err(e) => !supported_depth(bits_per_sample as int) && e == Error::UnsupportedBitDepth,
        },
{
    pack_slice(pcm.as_slice(), bits_per_sample)
}

/// `pack_pcm` on borrowed samples.
pub fn pack_slice(pcm: &[i32], bits_per_sample: usize) -> (r: Result<Vec<u8>, Error>)
    ensures
        match r {
            Ok(data) => supported_depth(bits_per_sample as int) && data@ == pack_spec(
                pcm@,
                bits_per_sample as int,
            ),
            Err(e) => !supported_depth(bits_per_sample as int) && e == Error::UnsupportedBitDepth,
        },
{
    if !is_supported_depth(bits_per_sample) {
        return Err(Error::UnsupportedBitDepth);
    }
    let mut data: Vec<u8> = Vec::new();
    let mut i: usize = 0;
    while i < pcm.len()
        invariant
            supported_depth(bits_per_sample as int),
            i <= pcm@.len(),
            data@ == pack_spec(pcm@.take(i as int), bits_per_sample as int),
        decreases pcm@.len() - i,
    {
        proof {
            assert(pcm@.take(i as int + 1).drop_last() =~= pcm@.take(i as int));
        }
        write_sample(&mut data, pcm[i], bits_per_sample);
        i += 1;
    }
    proof {
        assert(pcm@.take(i as int) =~= pcm@);
    }
    Ok(data)
}

/// Group `i` of `count = len / width` whole groups lies inside the data.
proof fn lemma_group_fits(len: int, width: int, i: int)
    requires
        0 < width,
        0 <= i < len / width,
    ensures
        (i + 1) * width == i * width + width,
        0 <= i * width,
        i * width + width <= len,
{
    assert((i + 1) * width == i * width + width) by (nonlinear_arith);
    assert(0 <= i * width) by (nonlinear_arith)
        requires
            0 <= i,
            0 < width,
    ;
    assert((i + 1) * width <= (len / width) * width) by (nonlinear_arith)
        requires
            i + 1 <= len / width,
            0 < width,
    ;
    assert((len / width) * width <= len) by (nonlinear_arith)
        requires
            0 < width,
    ;
}

/// Packing gives every sample exactly one group: byte `k` of the group of
/// sample `i` is byte `k` of that sample's two's complement image.
pub proof fn lemma_pack_layout(samples: Seq<i32>, bits: int)
    requires
        supported_depth(bits),
    ensures
        pack_spec(samples, bits).len() == samples.len() * sample_width(bits),
        forall|i: int, k: int|
            0 <= i < samples.len() && 0 <= k < sample_width(bits) ==> #[trigger] pack_spec(
                samples,
                bits,
            )[i * sample_width(bits) + k] == sample_byte(samples[i] as int, k),
    decreases samples.len(),
{
    let w = sample_width(bits);
    if samples.len() > 0 {
        let front = samples.drop_last();
        lemma_pack_layout(front, bits);
        assert(front.len() * w + w == samples.len() * w) by (nonlinear_arith)
            requires
                front.len() + 1 == samples.len(),
        ;
        assert forall|i: int, k: int| 0 <= i < samples.len() && 0 <= k < w implies #[trigger] pack_spec(
            samples,
            bits,
        )[i * w + k] == sample_byte(samples[i] as int, k) by {
            if i < front.len() {
                assert(i * w + k < front.len() * w) by (nonlinear_arith)
                    requires
                        0 <= i < front.len(),
                        0 <= k < w,
                ;
                assert(0 <= i * w + k) by (nonlinear_arith)
                    requires
                        0 <= i,
                        0 <= k < w,
                ;
                assert(front[i] == samples[i]);
            } else {
                assert(i * w + k == front.len() * w + k);
            }
        }
    }
}

/// Packing a stream piece by piece gives the same bytes as packing it whole.
pub proof fn lemma_pack_concat(a: Seq<i32>, b: Seq<i32>, bits: int)
    ensures
        pack_spec(a + b, bits) == pack_spec(a, bits) + pack_spec(b, bits),
    decreases b.len(),
{
    if b.len() == 0 {
        assert(a + b =~= a);
        assert(pack_spec(a, bits) + pack_spec(b, bits) =~= pack_spec(a, bits));
    } else {
        lemma_pack_concat(a, b.drop_last(), bits);
        assert((a + b).drop_last() =~= a + b.drop_last());
        assert((a + b).last() == b.last());
        assert(pack_spec(a, bits) + (pack_spec(b.drop_last(), bits) + encode_sample(
            b.last() as int,
            bits,
        )) =~= (pack_spec(a, bits) + pack_spec(b.drop_last(), bits)) + encode_sample(
            b.last() as int,
            bits,
        ));
    }
}

/// Every sample that unpacking yields lies in the range of its depth.
pub proof fn lemma_unpack_in_range(bytes: Seq<u8>, bits: int)
    requires
        supported_depth(bits),
    ensures
        unpack_spec(bytes, bits).len() == bytes.len() as int / sample_width(bits),
        forall|i: int|
            0 <= i < unpack_spec(bytes, bits).len() ==> sample_in_range(
                #[trigger] unpack_spec(bytes, bits)[i] as int,
                bits,
            ),
{
}

/// Unpacking undoes packing: samples that lie in the range of the depth come
/// back unchanged.
pub proof fn lemma_unpack_pack(samples: Seq<i32>, bits: int)
    requires
        supported_depth(bits),
        forall|i: int| 0 <= i < samples.len() ==> sample_in_range(#[trigger] samples[i] as int, bits),
    ensures
        unpack_spec(pack_spec(samples, bits), bits) == samples,
{
    let w = sample_width(bits);
    let bytes = pack_spec(samples, bits);
    lemma_pack_layout(samples, bits);
    assert((samples.len() * w) / w == samples.len()) by (nonlinear_arith)
        requires
            w > 0,
    ;
    assert forall|i: int| 0 <= i < samples.len() implies unpack_spec(bytes, bits)[i]
        == samples[i] by {
        let v = samples[i] as int;
        assert(bytes[i * w + 0] == sample_byte(v, 0));
        if w > 1 {
            assert(bytes[i * w + 1] == sample_byte(v, 1));
        }
        if w > 2 {
            assert(bytes[i * w + 2] == sample_byte(v, 2));
        }
        if w > 3 {
            assert(bytes[i * w + 3] == sample_byte(v, 3));
        }
        lemma_decode_image(v, bits, bytes, i * w);
    }
    assert(unpack_spec(bytes, bits) =~= samples);
}

/// Packing undoes unpacking: a buffer of whole groups comes back unchanged.
pub proof fn lemma_pack_unpack(bytes: Seq<u8>, bits: int)
    requires
        supported_depth(bits),
        bytes.len() as int % sample_width(bits) == 0,
    ensures
        pack_spec(unpack_spec(bytes, bits), bits) == bytes,
{
    let w = sample_width(bits);
    let samples = unpack_spec(bytes, bits);
    lemma_pack_layout(samples, bits);
    let packed = pack_spec(samples, bits);
    assert(samples.len() * w == bytes.len()) by (nonlinear_arith)
        requires
            w > 0,
            samples.len() == bytes.len() as int / w,
            bytes.len() as int % w == 0,
    ;
    assert forall|j: int| 0 <= j < bytes.len() implies packed[j] == bytes[j] by {
        let i = j / w;
        let k = j % w;
        assert(j == i * w + k && 0 <= i < samples.len()) by (nonlinear_arith)
            requires
                w > 0,
                0 <= j < samples.len() * w,
                i == j / w,
                k == j % w,
        ;
        assert(packed[i * w + k] == sample_byte(samples[i] as int, k));
        lemma_image_decode(bytes, i * w, bits, k);
    }
    assert(packed =~= bytes);
}

/// A group that holds the image of an in-range sample decodes to that sample.
proof fn lemma_decode_image(v: int, bits: int, bytes: Seq<u8>, at: int)
    requires
        supported_depth(bits),
        sample_in_range(v, bits),
        forall|k: int| 0 <= k < sample_width(bits) ==> bytes[at + k] == sample_byte(v, k),
    ensures
        decode_at(bytes, at, bits) == v,
{
    assert(bytes[at + 0] == sample_byte(v, 0));
    if bits >= 16 {
        assert(bytes[at + 1] == sample_byte(v, 1));
    }
    if bits >= 24 {
        assert(bytes[at + 2] == sample_byte(v, 2));
    }
    if bits >= 32 {
        assert(bytes[at + 3] == sample_byte(v, 3));
    }
    lemma_bytes_of(v);
}

/// A value is the sum of its bytes at their places, up to a multiple of 2^32.
proof fn lemma_bytes_of(v: int)
    ensures
        v == (v / 0x100) * 0x100 + v % 0x100,
        v / 0x100 == (v / 0x1_0000) * 0x100 + (v / 0x100) % 0x100,
        v / 0x1_0000 == (v / 0x100_0000) * 0x100 + (v / 0x1_0000) % 0x100,
        v / 0x100_0000 == (v / 0x1_0000_0000) * 0x100 + (v / 0x100_0000) % 0x100,
{
    let a = v / 0x100;
    assert(a / 0x100 == v / 0x1_0000);
    let b = v / 0x1_0000;
    assert(b / 0x100 == v / 0x100_0000);
    let c = v / 0x100_0000;
    assert(c / 0x100 == v / 0x1_0000_0000);
}

/// Byte `k` of the image of a decoded sample is byte `k` of its group.
proof fn lemma_image_decode(bytes: Seq<u8>, at: int, bits: int, k: int)
    requires
        supported_depth(bits),
        0 <= k < sample_width(bits),
    ensures
        sample_byte(decode_at(bytes, at, bits) as i32 as int, k) == bytes[at + k],
{
    let v = decode_at(bytes, at, bits);
    let b0 = bytes[at] as int;
    let b1 = bytes[at + 1] as int;
    let b2 = bytes[at + 2] as int;
    let b3 = bytes[at + 3] as int;
    let negative = v < 0;
    if bits == 8 {
        lemma_digits(v, b0, 0, 0, 0, 0);
    } else if bits == 16 {
        if negative {
            lemma_digits(v, b0, b1, 0xff, 0xff, -1);
        } else {
            lemma_digits(v, b0, b1, 0, 0, 0);
        }
    } else if bits == 24 {
        if negative {
            lemma_digits(v, b0, b1, b2, 0xff, -1);
        } else {
            lemma_digits(v, b0, b1, b2, 0, 0);
        }
    } else {
        if negative {
            lemma_digits(v, b0, b1, b2, b3, -1);
        } else {
            lemma_digits(v, b0, b1, b2, b3, 0);
        }
    }
}

/// The four low bytes of a value written out in base 256.
proof fn lemma_digits(v: int, b0: int, b1: int, b2: int, b3: int, c: int)
    requires
        0 <= b0 < 0x100,
        0 <= b1 < 0x100,
        0 <= b2 < 0x100,
        0 <= b3 < 0x100,
        v == b0 + 0x100 * b1 + 0x1_0000 * b2 + 0x100_0000 * b3 + 0x1_0000_0000 * c,
    ensures
        (v / place(0)) % 0x100 == b0,
        (v / place(1)) % 0x100 == b1,
        (v / place(2)) % 0x100 == b2,
        (v / place(3)) % 0x100 == b3,
{
    assert(v / 0x100 == b1 + 0x100 * b2 + 0x1_0000 * b3 + 0x100_0000 * c);
    assert(v / 0x1_0000 == b2 + 0x100 * b3 + 0x1_0000 * c);
    assert(v / 0x100_0000 == b3 + 0x100 * c);
}

} // verus!
