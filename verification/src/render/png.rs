//! A minimal PNG encoder, so a rendered frame can be written to a file
//! without pulling in an image library.

use std::io::Write;

use flate2::write::ZlibEncoder;
use flate2::Compression;
use vstd::prelude::*;

verus! {

/// One bit of the reflected CRC-32 (polynomial `0xEDB88320`).
pub open spec fn crc_step(c: u32) -> u32 {
    if c & 1u32 != 0 {
        0xEDB8_8320u32 ^ (c >> 1u32)
    } else {
        c >> 1u32
    }
}

/// Eight bits of the CRC: one byte's worth.
pub open spec fn crc_step8(c: u32) -> u32 {
    crc_step(crc_step(crc_step(crc_step(crc_step(crc_step(crc_step(crc_step(c))))))))
}

/// The CRC register after the first `j` bytes, fed one bit at a time.
pub open spec fn crc_fold(bytes: Seq<u8>, j: nat) -> u32
    decreases j,
{
    if j == 0 {
        0xFFFF_FFFFu32
    } else {
        crc_step8(crc_fold(bytes, (j - 1) as nat) ^ (bytes[j - 1] as u32))
    }
}

/// The CRC-32 of a byte string, as PNG and zlib define it.
pub open spec fn crc32_spec(bytes: Seq<u8>) -> u32 {
    crc_fold(bytes, bytes.len()) ^ 0xFFFF_FFFFu32
}

/// A byte's eight steps depend on the low byte of the register alone, with
/// the rest shifted through: what makes a 256-entry table enough.
proof fn lemma_step8_split(x: u32)
    ensures
        crc_step8(x) == crc_step8(x & 0xFFu32) ^ (x >> 8u32),
{
    assert(crc_step8(x) == crc_step8(x & 0xFFu32) ^ (x >> 8u32)) by (bit_vector);
}

/// The table of every byte's eight steps.
fn crc_table() -> (t: Vec<u32>)
    ensures
        t@.len() == 256,
        forall|n: int| 0 <= n < 256 ==> #[trigger] t@[n] == crc_step8(n as u32),
{
    let mut t: Vec<u32> = Vec::new();
    let mut n: u32 = 0;
    while n < 256
        invariant
            n <= 256,
            t@.len() == n,
            forall|m: int| 0 <= m < n ==> #[trigger] t@[m] == crc_step8(m as u32),
        decreases 256 - n,
    {
        let mut c = n;
        let mut k: u32 = 0;
        let ghost c0 = n;
        while k < 8
            invariant
                k <= 8,
                c0 == n,
                k == 0 ==> c == c0,
                k == 1 ==> c == crc_step(c0),
                k == 2 ==> c == crc_step(crc_step(c0)),
                k == 3 ==> c == crc_step(crc_step(crc_step(c0))),
                k == 4 ==> c == crc_step(crc_step(crc_step(crc_step(c0)))),
                k == 5 ==> c == crc_step(crc_step(crc_step(crc_step(crc_step(c0))))),
                k == 6 ==> c == crc_step(crc_step(crc_step(crc_step(crc_step(crc_step(c0)))))),
                k == 7 ==> c == crc_step(crc_step(crc_step(crc_step(crc_step(crc_step(crc_step(c0))))))),
                k == 8 ==> c == crc_step8(c0),
            decreases 8 - k,
        {
            c = if c & 1 != 0 {
                0xEDB8_8320 ^ (c >> 1)
            } else {
                c >> 1
            };
            k = k + 1;
        }
        t.push(c);
        n = n + 1;
    }
    t
}

/// The CRC-32 of `bytes`, a byte at a time through the table.
pub fn crc32(bytes: &[u8]) -> (r: u32)
    ensures
        r == crc32_spec(bytes@),
{
    let table = crc_table();
    let mut c: u32 = 0xFFFF_FFFF;
    let mut i: usize = 0;
    while i < bytes.len()
        invariant
            i <= bytes@.len(),
            table@.len() == 256,
            forall|n: int| 0 <= n < 256 ==> #[trigger] table@[n] == crc_step8(n as u32),
            c == crc_fold(bytes@, i as nat),
        decreases bytes.len() - i,
    {
        let b = bytes[i];
        let x = c ^ (b as u32);
        let idx = (x & 0xFF) as usize;
        proof {
            lemma_step8_split(x);
            assert(x & 0xFFu32 < 256) by (bit_vector);
            assert(x >> 8u32 == c >> 8u32) by (bit_vector)
                requires
                    x == c ^ (b as u32),
            ;
        }
        c = table[idx] ^ (c >> 8);
        i = i + 1;
    }
    c ^ 0xFFFF_FFFF
}

/// A 32-bit value as four bytes, most significant first.
pub open spec fn be32(v: u32) -> Seq<u8> {
    seq![(v >> 24u32) as u8, (v >> 16u32) as u8, (v >> 8u32) as u8, v as u8]
}

fn push_be32(out: &mut Vec<u8>, v: u32)
    ensures
        final(out)@ == old(out)@ + be32(v),
{
    out.push((v >> 24) as u8);
    out.push((v >> 16) as u8);
    out.push((v >> 8) as u8);
    out.push(v as u8);
    assert(out@ =~= old(out)@ + be32(v));
}

/// One PNG chunk: the body's length, the kind, the body, and the CRC of
/// kind and body. The length field holds the length modulo `2^32`.
pub open spec fn chunk_bytes(kind: Seq<u8>, body: Seq<u8>) -> Seq<u8> {
    be32(body.len() as u32) + kind + body + be32(crc32_spec(kind + body))
}

fn extend(out: &mut Vec<u8>, bytes: &[u8])
    ensures
        final(out)@ == old(out)@ + bytes@,
{
    let mut i: usize = 0;
    while i < bytes.len()
        invariant
            i <= bytes@.len(),
            out@ == old(out)@ + bytes@.take(i as int),
        decreases bytes.len() - i,
    {
        out.push(bytes[i]);
        i = i + 1;
        assert(out@ =~= old(out)@ + bytes@.take(i as int));
    }
    assert(bytes@.take(bytes@.len() as int) =~= bytes@);
}

/// Append one chunk to `out`.
fn chunk(out: &mut Vec<u8>, kind: [u8; 4], body: &[u8])
    ensures
        final(out)@ == old(out)@ + chunk_bytes(kind@, body@),
{
    push_be32(out, body.len() as u32);
    let mut kb: Vec<u8> = Vec::new();
    extend(&mut kb, &kind);
    extend(&mut kb, body);
    let crc = crc32(kb.as_slice());
    extend(out, kb.as_slice());
    push_be32(out, crc);
    assert(out@ =~= old(out)@ + chunk_bytes(kind@, body@));
}

/// The eight bytes every PNG file starts with.
pub open spec fn png_signature() -> Seq<u8> {
    seq![0x89u8, 0x50u8, 0x4Eu8, 0x47u8, 0x0Du8, 0x0Au8, 0x1Au8, 0x0Au8]
}

/// The image header of an RGBA8 image: 8 bits per channel, truecolor with
/// alpha, default compression, filtering and no interlacing.
pub open spec fn ihdr_body(width: u32, height: u32) -> Seq<u8> {
    be32(width) + be32(height) + seq![8u8, 6u8, 0u8, 0u8, 0u8]
}

/// `IHDR`, `IDAT` and `IEND` as bytes.
pub open spec fn kind_ihdr() -> Seq<u8> {
    seq![0x49u8, 0x48u8, 0x44u8, 0x52u8]
}

pub open spec fn kind_idat() -> Seq<u8> {
    seq![0x49u8, 0x44u8, 0x41u8, 0x54u8]
}

pub open spec fn kind_iend() -> Seq<u8> {
    seq![0x49u8, 0x45u8, 0x4Eu8, 0x44u8]
}

/// A whole PNG file around already compressed image data.
pub open spec fn png_file(width: u32, height: u32, compressed: Seq<u8>) -> Seq<u8> {
    png_signature() + chunk_bytes(kind_ihdr(), ihdr_body(width, height)) + chunk_bytes(
        kind_idat(),
        compressed,
    ) + chunk_bytes(kind_iend(), seq![])
}

/// A PNG file around image data that is already filtered and compressed.
pub fn assemble_png(width: u32, height: u32, compressed: &[u8]) -> (out: Vec<u8>)
    ensures
        out@ == png_file(width, height, compressed@),
{
    let mut out: Vec<u8> = Vec::new();
    let sig: [u8; 8] = [0x89, 0x50, 0x4E, 0x47, 0x0D, 0x0A, 0x1A, 0x0A];
    extend(&mut out, &sig);
    assert(sig@ =~= png_signature());
    let mut ihdr: Vec<u8> = Vec::new();
    push_be32(&mut ihdr, width);
    push_be32(&mut ihdr, height);
    let rest: [u8; 5] = [8, 6, 0, 0, 0];
    extend(&mut ihdr, &rest);
    assert(ihdr@ =~= ihdr_body(width, height));
    let k1: [u8; 4] = [0x49, 0x48, 0x44, 0x52];
    assert(k1@ =~= kind_ihdr());
    chunk(&mut out, k1, ihdr.as_slice());
    let k2: [u8; 4] = [0x49, 0x44, 0x41, 0x54];
    assert(k2@ =~= kind_idat());
    chunk(&mut out, k2, compressed);
    let k3: [u8; 4] = [0x49, 0x45, 0x4E, 0x44];
    assert(k3@ =~= kind_iend());
    let empty: [u8; 0] = [];
    assert(empty@ =~= Seq::<u8>::empty());
    chunk(&mut out, k3, &empty);
    out
}

/// Byte `x` of row `y` after the Sub filter: the byte less the one four
/// places (one pixel) to its left, wrapping.
pub open spec fn sub_filtered(data: Seq<u8>, stride: int, y: int, x: int) -> u8 {
    let left: u8 = if x >= 4 {
        data[y * stride + x - 4]
    } else {
        0u8
    };
    vstd::wrapping::u8_specs::wrapping_sub(data[y * stride + x], left)
}

/// The scanlines of an RGBA8 image with the Sub filter: each row is the
/// filter type `1` followed by its filtered bytes.
pub open spec fn filtered_rows(data: Seq<u8>, width: nat, height: nat) -> Seq<u8> {
    Seq::new(
        height,
        |y: int|
            seq![1u8] + Seq::new(width * 4, |x: int| sub_filtered(data, (width * 4) as int, y, x)),
    ).flatten_alt()
}

/// `r * s + x` stays inside `h * s` for a row below `h` and an offset
/// below `s`.
proof fn lemma_row_index(r: int, x: int, h: int, s: int)
    requires
        0 <= r < h,
        0 <= x < s,
    ensures
        0 <= r * s + x < h * s,
        r * s + s <= h * s,
{
    assert(0 <= r * s + x < h * s && r * s + s <= h * s) by (nonlinear_arith)
        requires
            0 <= r < h,
            0 <= x < s,
    ;
}

/// Filter an RGBA8 image's rows for compression.
pub fn filter_rows(width: u32, height: u32, data: &[u8]) -> (raw: Vec<u8>)
    requires
        data@.len() >= width * 4 * height,
        width * 4 <= usize::MAX,
        (width * 4 + 1) * height <= usize::MAX,
    ensures
        raw@ == filtered_rows(data@, width as nat, height as nat),
{
    let stride: usize = width as usize * 4;
    let h: usize = height as usize;
    let ghost rows = Seq::new(
        height as nat,
        |y: int|
            seq![1u8] + Seq::new(
                (width * 4) as nat,
                |x: int| sub_filtered(data@, (width * 4) as int, y, x),
            ),
    );
    let mut raw: Vec<u8> = Vec::new();
    let mut y: usize = 0;
    proof {
        assert(h * stride <= (width * 4 + 1) * height && h * stride == width * 4 * height)
            by (nonlinear_arith)
            requires
                h == height,
                stride == width * 4,
        ;
    }
    while y < h
        invariant
            y <= h == height,
            stride == width * 4,
            data@.len() >= h * stride,
            h * stride <= usize::MAX,
            rows == Seq::new(
                height as nat,
                |y: int|
                    seq![1u8] + Seq::new(
                        (width * 4) as nat,
                        |x: int| sub_filtered(data@, (width * 4) as int, y, x),
                    ),
            ),
            raw@ == rows.take(y as int).flatten_alt(),
        decreases h - y,
    {
        let mut line: Vec<u8> = Vec::new();
        line.push(1);
        let mut x: usize = 0;
        while x < stride
            invariant
                x <= stride == width * 4,
                y < h,
                data@.len() >= h * stride,
                h * stride <= usize::MAX,
                line@.len() == x + 1,
                line@[0] == 1u8,
                forall|t: int|
                    1 <= t <= x ==> #[trigger] line@[t] == sub_filtered(data@, stride as int, y as int, t - 1),
            decreases stride - x,
        {
            proof {
                lemma_row_index(y as int, x as int, h as int, stride as int);
            }
            let at = y * stride + x;
            let left: u8 = if x >= 4 {
                data[at - 4]
            } else {
                0
            };
            line.push(data[at].wrapping_sub(left));
            x = x + 1;
        }
        proof {
            assert(line@ =~= rows[y as int]);
            lemma_flatten_push(rows, y as int);
        }
        raw.append(&mut line);
        y = y + 1;
    }
    assert(rows.take(h as int) =~= rows);
    raw
}

/// Flattening one more row appends it.
proof fn lemma_flatten_push<A>(rows: Seq<Seq<A>>, r: int)
    requires
        0 <= r < rows.len(),
    ensures
        rows.take(r + 1).flatten_alt() == rows.take(r).flatten_alt() + rows[r],
{
    assert(rows.take(r + 1).drop_last() =~= rows.take(r));
}

/// The zlib stream that `flate2` writes for `data` at compression level 6.
pub uninterp spec fn zlib_level6(data: Seq<u8>) -> Seq<u8>;

/// Compress with `flate2::write::ZlibEncoder` at level 6 into memory.
///
/// Trusted: the result is named `zlib_level6` of the input, which claims
/// that the encoder is deterministic; writing into a `Vec` does not fail.
#[verifier::external_body]
fn zlib_compress(data: &[u8]) -> (r: Vec<u8>)
    ensures
        r@ == zlib_level6(data@),
{
    let mut enc = ZlibEncoder::new(Vec::new(), Compression::new(6));
    enc.write_all(data).expect("in-memory write cannot fail");
    enc.finish().expect("in-memory write cannot fail")
}

/// Encode tightly packed RGBA8 pixels as a PNG.
pub fn encode_rgba(width: u32, height: u32, data: &[u8]) -> (out: Vec<u8>)
    requires
        data@.len() >= width * 4 * height,
        width * 4 <= usize::MAX,
        (width * 4 + 1) * height <= usize::MAX,
    ensures
        out@ == png_file(
            width,
            height,
            zlib_level6(filtered_rows(data@, width as nat, height as nat)),
        ),
{
    let raw = filter_rows(width, height, data);
    let compressed = zlib_compress(raw.as_slice());
    assemble_png(width, height, compressed.as_slice())
}

} // verus!
