//! Minimal PNG: 8-bit RGB, no interlace, filter-0 rows, zlib compression
//! by miniz_oxide. The chunk layout and the CRC are this module's own;
//! only the deflate stream comes from the outside crate.

use crate::raster::Image;
use crate::text::text;
use vstd::prelude::*;

verus! {

// ------------------------------------------------------------------ CRC-32

/// One shift of the reflected CRC-32 (polynomial 0xedb88320).
pub open spec fn crc_step(c: u32) -> u32 {
    if c & 1 != 0 {
        0xedb8_8320u32 ^ (c >> 1u32)
    } else {
        c >> 1u32
    }
}

/// `k` shifts of the CRC register.
pub open spec fn crc_shifts(c: u32, k: nat) -> u32
    decreases k,
{
    if k == 0 {
        c
    } else {
        crc_shifts(crc_step(c), (k - 1) as nat)
    }
}

/// The CRC table entry for byte value `n`: eight shifts of `n`.
pub open spec fn crc_entry(n: u32) -> u32 {
    crc_shifts(n, 8)
}

/// The CRC register after feeding `bytes` to a register holding `c0`.
pub open spec fn crc_register(c0: u32, bytes: Seq<u8>) -> u32
    decreases bytes.len(),
{
    if bytes.len() == 0 {
        c0
    } else {
        let c = crc_register(c0, bytes.drop_last());
        crc_entry((c ^ (bytes.last() as u32)) & 0xffu32) ^ (c >> 8u32)
    }
}

/// The CRC-32 of `bytes`, as PNG chunks carry it.
#[verifier::opaque]
pub open spec fn crc32_of(bytes: Seq<u8>) -> u32 {
    crc_register(0xffff_ffffu32, bytes) ^ 0xffff_ffffu32
}

/// A table that holds the CRC entry of every byte value.
pub open spec fn is_crc_table(table: Seq<u32>) -> bool {
    &&& table.len() == 256
    &&& forall|n: int| 0 <= n < 256 ==> #[trigger] table[n] == crc_entry(n as u32)
}

/// The CRC entries of all 256 byte values.
pub fn crc_table() -> (table: [u32; 256])
    ensures
        is_crc_table(table@),
{
    let mut table = [0u32; 256];
    let mut n: usize = 0;
    while n < 256
        invariant
            n <= 256,
            forall|m: int| 0 <= m < n ==> #[trigger] table@[m] == crc_entry(m as u32),
        decreases 256 - n,
    {
        let mut c = n as u32;
        let mut k: usize = 0;
        while k < 8
            invariant
                k <= 8,
                n < 256,
                crc_shifts(n as u32, 8) == crc_shifts(c, (8 - k) as nat),
            decreases 8 - k,
        {
            c = if c & 1 != 0 {
                0xedb8_8320 ^ (c >> 1)
            } else {
                c >> 1
            };
            k = k + 1;
        }
        table[n] = c;
        n = n + 1;
    }
    table
}

/// The CRC-32 of `bytes`, computed with a table of the byte entries.
pub fn crc32(table: &[u32; 256], bytes: &[u8]) -> (crc: u32)
    requires
        is_crc_table(table@),
    ensures
        crc == crc32_of(bytes@),
{
    let mut c: u32 = 0xffff_ffff;
    let mut i: usize = 0;
    while i < bytes.len()
        invariant
            i <= bytes@.len(),
            is_crc_table(table@),
            c == crc_register(0xffff_ffffu32, bytes@.take(i as int)),
        decreases bytes@.len() - i,
    {
        let b = bytes[i];
        let x = c ^ (b as u32);
        assert(x & 0xffu32 < 256) by (bit_vector);
        let idx = (x & 0xff) as usize;
        proof {
            assert(bytes@.take(i + 1).drop_last() =~= bytes@.take(i as int));
        }
        c = table[idx] ^ (c >> 8);
        i = i + 1;
    }
    assert(bytes@.take(i as int) =~= bytes@);
    proof {
        reveal(crc32_of);
    }
    c ^ 0xffff_ffff
}


// ------------------------------------------------------ bytes and chunks

/// The eight bytes every PNG file starts with.
pub open spec fn png_signature() -> Seq<u8> {
    seq![0x89u8, 0x50u8, 0x4eu8, 0x47u8, 0x0du8, 0x0au8, 0x1au8, 0x0au8]
}

/// Chunk type `IHDR`.
pub open spec fn kind_ihdr() -> Seq<u8> {
    seq![0x49u8, 0x48u8, 0x44u8, 0x52u8]
}

/// Chunk type `IDAT`.
pub open spec fn kind_idat() -> Seq<u8> {
    seq![0x49u8, 0x44u8, 0x41u8, 0x54u8]
}

/// Chunk type `IEND`.
pub open spec fn kind_iend() -> Seq<u8> {
    seq![0x49u8, 0x45u8, 0x4eu8, 0x44u8]
}

/// A 32-bit number, most significant byte first.
pub open spec fn be32(x: u32) -> Seq<u8> {
    seq![
        (x >> 24u32) as u8,
        ((x >> 16u32) & 0xffu32) as u8,
        ((x >> 8u32) & 0xffu32) as u8,
        (x & 0xffu32) as u8,
    ]
}

/// The 32-bit number stored most significant byte first at `s[i..i + 4]`.
pub open spec fn be32_at(s: Seq<u8>, i: int) -> u32 {
    ((s[i] as u32) << 24u32) | ((s[i + 1] as u32) << 16u32) | ((s[i + 2] as u32) << 8u32) | (
    s[i + 3] as u32)
}

/// A chunk: the data's length, the type, the data, and the CRC of type and data.
pub open spec fn chunk_bytes(kind: Seq<u8>, data: Seq<u8>) -> Seq<u8> {
    be32(data.len() as u32) + kind + data + be32(crc32_of(kind + data))
}

/// The IHDR data of an 8-bit RGB image without interlace.
pub open spec fn ihdr_data(width: u32, height: u32) -> Seq<u8> {
    be32(width) + be32(height) + seq![8u8, 2u8, 0u8, 0u8, 0u8]
}

/// The first `rows` rows of `data`, `row` bytes each, each preceded by
/// the filter byte 0.
pub open spec fn scanlines(data: Seq<u8>, row: nat, rows: nat) -> Seq<u8>
    decreases rows,
{
    if rows == 0 {
        Seq::empty()
    } else {
        scanlines(data, row, (rows - 1) as nat) + seq![0u8] + data.subrange(
            ((rows - 1) * row) as int,
            (rows * row) as int,
        )
    }
}

/// The filtered rows an image compresses: every whole row of its bytes.
pub open spec fn raw_rows(img: Image) -> Seq<u8> {
    let row = (img.width * 3) as nat;
    scanlines(img.data@, row, img.data@.len() / row)
}

/// A whole file: signature, header, one data chunk, end chunk.
pub open spec fn png_file(width: u32, height: u32, stream: Seq<u8>) -> Seq<u8> {
    png_signature() + chunk_bytes(kind_ihdr(), ihdr_data(width, height)) + chunk_bytes(
        kind_idat(),
        stream,
    ) + chunk_bytes(kind_iend(), Seq::empty())
}

proof fn lemma_be32_round_trip(x: u32)
    ensures
        be32_at(be32(x), 0) == x,
{
    let s = be32(x);
    let b0 = s[0];
    let b1 = s[1];
    let b2 = s[2];
    let b3 = s[3];
    assert(b0 == (x >> 24u32) as u8);
    assert(b1 == ((x >> 16u32) & 0xffu32) as u8);
    assert(b2 == ((x >> 8u32) & 0xffu32) as u8);
    assert(b3 == (x & 0xffu32) as u8);
    assert(((b0 as u32) << 24u32) | ((b1 as u32) << 16u32) | ((b2 as u32) << 8u32) | (b3 as u32)
        == x) by (bit_vector)
        requires
            b0 == (x >> 24u32) as u8,
            b1 == ((x >> 16u32) & 0xffu32) as u8,
            b2 == ((x >> 8u32) & 0xffu32) as u8,
            b3 == (x & 0xffu32) as u8,
    ;
}

// ------------------------------------------------------------ deflate

/// The zlib stream that miniz_oxide's `compress_to_vec_zlib` makes of
/// `data` at compression `level`.
pub uninterp spec fn zlib_deflate(data: Seq<u8>, level: u8) -> Seq<u8>;

/// What miniz_oxide's `decompress_to_vec_zlib` makes of `stream`:
/// the inflated bytes, or `None` when it reports an error.
pub uninterp spec fn zlib_inflate(stream: Seq<u8>) -> Option<Seq<u8>>;

/// Calls `miniz_oxide::deflate::compress_to_vec_zlib`. Trusted: the
/// stream is the crate's deterministic output for `data` and `level`, and
/// inflating it gives `data` back (the crate's documented round trip).
#[verifier::external_body]
fn compress_zlib(data: &[u8], level: u8) -> (stream: Vec<u8>)
    ensures
        stream@ == zlib_deflate(data@, level),
        zlib_inflate(stream@) == Some(data@),
{
    miniz_oxide::deflate::compress_to_vec_zlib(data, level)
}

// ------------------------------------------------------------ encoding

/// Appends `x` most significant byte first.
fn push_be32(out: &mut Vec<u8>, x: u32)
    ensures
        final(out)@ == old(out)@ + be32(x),
{
    out.push((x >> 24) as u8);
    out.push(((x >> 16) & 0xff) as u8);
    out.push(((x >> 8) & 0xff) as u8);
    out.push((x & 0xff) as u8);
    assert(final(out)@ =~= old(out)@ + be32(x));
}

/// Appends one chunk of type `kind` holding `data`.
pub fn chunk(out: &mut Vec<u8>, table: &[u32; 256], kind: &[u8; 4], data: &[u8])
    requires
        is_crc_table(table@),
    ensures
        final(out)@ == old(out)@ + chunk_bytes(kind@, data@),
{
    push_be32(out, #[verifier::truncate] (data.len() as u32));
    let start = out.len();
    out.extend_from_slice(kind.as_slice());
    out.extend_from_slice(data);
    let end = out.len();
    let crc = crc32(table, &out.as_slice()[start..end]);
    assert(out@.subrange(start as int, end as int) =~= kind@ + data@);
    push_be32(out, crc);
    assert(final(out)@ =~= old(out)@ + chunk_bytes(kind@, data@));
}

proof fn lemma_row_bounds(r: int, row: int, len: int)
    requires
        0 <= r < len / row,
        row > 0,
        len >= 0,
    ensures
        0 <= r * row,
        (r + 1) * row <= len,
        r * row + row == (r + 1) * row,
{
    assert((r + 1) * row <= (len / row) * row) by (nonlinear_arith)
        requires
            0 <= r < len / row,
            row > 0,
    ;
    assert((len / row) * row <= len) by (nonlinear_arith)
        requires
            row > 0,
            len >= 0,
    ;
    assert(0 <= r * row) by (nonlinear_arith)
        requires
            0 <= r,
            row > 0,
    ;
    assert(r * row + row == (r + 1) * row) by (nonlinear_arith);
}

/// Encodes `image` as a PNG file: every whole row of its bytes behind a
/// filter byte 0, deflated at level 6, between an 8-bit RGB header and
/// the end chunk. Width and height are written as 32-bit numbers.
pub fn encode(image: &Image) -> (out: Vec<u8>)
    requires
        image.width > 0,
        image.width * 3 <= usize::MAX,
        image.height * (image.width * 3 + 1) <= usize::MAX,
    ensures
        out@ == png_file(
            #[verifier::truncate] (image.width as u32),
            #[verifier::truncate] (image.height as u32),
            zlib_deflate(raw_rows(*image), 6),
        ),
        round_trips(*image) ==> png_read(out@) == PngRead::Decoded(
            image.width as nat,
            image.height as nat,
            image.data@,
        ),
{
    let table = crc_table();
    let row = image.width * 3;
    let n = image.data.len();
    let rows = n / row;
    let mut raw: Vec<u8> = Vec::new();
    let mut r: usize = 0;
    while r < rows
        invariant
            r <= rows,
            row == image.width * 3,
            row > 0,
            n == image.data@.len(),
            rows == image.data@.len() / (row as nat),
            raw@ == scanlines(image.data@, row as nat, r as nat),
        decreases rows - r,
    {
        proof {
            lemma_row_bounds(r as int, row as int, image.data@.len() as int);
        }
        raw.push(0);
        let start = r * row;
        raw.extend_from_slice(&image.data.as_slice()[start..start + row]);
        r = r + 1;
        assert(raw@ =~= scanlines(image.data@, row as nat, r as nat));
    }
    let compressed = compress_zlib(raw.as_slice(), 6);
    let mut out: Vec<u8> = Vec::new();
    out.push(0x89);
    out.push(0x50);
    out.push(0x4e);
    out.push(0x47);
    out.push(0x0d);
    out.push(0x0a);
    out.push(0x1a);
    out.push(0x0a);
    assert(out@ =~= png_signature());
    let mut ihdr: Vec<u8> = Vec::new();
    push_be32(&mut ihdr, #[verifier::truncate] (image.width as u32));
    push_be32(&mut ihdr, #[verifier::truncate] (image.height as u32));
    ihdr.push(8);
    ihdr.push(2);
    ihdr.push(0);
    ihdr.push(0);
    ihdr.push(0);
    assert(ihdr@ =~= ihdr_data(image.width as u32, image.height as u32));
    let kind_h: [u8; 4] = [0x49, 0x48, 0x44, 0x52];
    let kind_d: [u8; 4] = [0x49, 0x44, 0x41, 0x54];
    let kind_e: [u8; 4] = [0x49, 0x45, 0x4e, 0x44];
    assert(kind_h@ =~= kind_ihdr());
    assert(kind_d@ =~= kind_idat());
    assert(kind_e@ =~= kind_iend());
    let empty: Vec<u8> = Vec::new();
    chunk(&mut out, &table, &kind_h, ihdr.as_slice());
    chunk(&mut out, &table, &kind_d, compressed.as_slice());
    chunk(&mut out, &table, &kind_e, empty.as_slice());
    assert(empty@ =~= Seq::<u8>::empty());
    proof {
        if round_trips(*image) {
            lemma_rows_of_wf(*image);
            lemma_png_round_trip(
                image.width as u32,
                image.height as u32,
                image.data@,
                compressed@,
            );
        }
    }
    out
}

/// The image is one that reading its PNG gives back: well formed, at
/// least one pixel wide, sides that fit 32 bits, and a compressed stream
/// short enough for a chunk length.
pub open spec fn round_trips(image: Image) -> bool {
    &&& image.wf()
    &&& image.width > 0
    &&& image.width <= 0xffff_ffff
    &&& image.height <= 0xffff_ffff
    &&& zlib_deflate(raw_rows(image), 6).len() <= 0xffff_ffff
}

proof fn lemma_rows_of_wf(image: Image)
    requires
        image.wf(),
        image.width > 0,
    ensures
        raw_rows(image) == scanlines(image.data@, (image.width * 3) as nat, image.height as nat),
{
    let row = (image.width * 3) as nat;
    assert(image.data@.len() / row == image.height) by (nonlinear_arith)
        requires
            image.data@.len() == image.width * image.height * 3,
            row == image.width * 3,
            image.width > 0,
    ;
}


// ------------------------------------------------------------ decoding

/// What reading a byte string as a PNG of this subset gives.
pub enum PngRead {
    /// Width, height and the pixel bytes.
    Decoded(nat, nat, Seq<u8>),
    /// Refused with this message.
    Refused(Seq<char>),
    /// The data chunks did not inflate.
    InflateFailed,
}

/// The bytes start with the PNG signature.
pub open spec fn starts_with_signature(b: Seq<u8>) -> bool {
    b.len() >= 8 && b.take(8) == png_signature()
}

/// Walks the chunks from byte `at`, given the header size seen so far
/// and the data gathered so far: the header size and all `IDAT` data up
/// to `IEND` or the last whole chunk, or the message of the first
/// broken chunk.
#[verifier::opaque]
pub open spec fn scan_chunks(b: Seq<u8>, at: int, size: Option<(u32, u32)>, idat: Seq<u8>) -> Result<
    (Option<(u32, u32)>, Seq<u8>),
    Seq<char>,
>
    decreases b.len() - at,
{
    if 0 <= at && at + 12 <= b.len() {
        let end = at + 8 + be32_at(b, at) as int;
        if end + 4 > b.len() {
            Err("truncated chunk"@)
        } else {
            let kind = b.subrange(at + 4, at + 8);
            let data = b.subrange(at + 8, end);
            if be32_at(b, end) != crc32_of(b.subrange(at + 4, end)) {
                Err("bad chunk crc"@)
            } else if kind == kind_ihdr() {
                if data.len() != 13 || data[8] != 8 || data[9] != 2 || data[12] != 0 {
                    Err("only 8-bit RGB without interlace is read"@)
                } else {
                    scan_chunks(b, end + 4, Some((be32_at(data, 0), be32_at(data, 4))), idat)
                }
            } else if kind == kind_idat() {
                scan_chunks(b, end + 4, size, idat + data)
            } else if kind == kind_iend() {
                Ok((size, idat))
            } else {
                scan_chunks(b, end + 4, size, idat)
            }
        }
    } else {
        Ok((size, idat))
    }
}

/// The filter byte of row `r` of `raw`.
pub open spec fn filter_byte(raw: Seq<u8>, stride: nat, r: int) -> u8 {
    raw[r * stride]
}

/// Every one of the first `rows` rows starts with filter byte 0.
pub open spec fn filters_zero(raw: Seq<u8>, stride: nat, rows: nat) -> bool {
    forall|r: int| 0 <= r < rows ==> #[trigger] filter_byte(raw, stride, r) == 0
}

/// The first `rows` rows of `raw`, `stride` bytes each, without their
/// filter bytes.
pub open spec fn unfiltered(raw: Seq<u8>, stride: nat, rows: nat) -> Seq<u8>
    decreases rows,
{
    if rows == 0 {
        Seq::empty()
    } else {
        unfiltered(raw, stride, (rows - 1) as nat) + raw.subrange(
            (rows - 1) * stride + 1,
            (rows * stride) as int,
        )
    }
}

/// Reading `b` as an 8-bit RGB PNG without interlace.
pub open spec fn png_read(b: Seq<u8>) -> PngRead {
    if !starts_with_signature(b) {
        PngRead::Refused("not a PNG"@)
    } else {
        match scan_chunks(b, 8, None, Seq::empty()) {
            Err(m) => PngRead::Refused(m),
            Ok((None, _)) => PngRead::Refused("no IHDR"@),
            Ok((Some((w, h)), idat)) => match zlib_inflate(idat) {
                None => PngRead::InflateFailed,
                Some(raw) => {
                    let stride = (w * 3 + 1) as nat;
                    if raw.len() != stride * h {
                        PngRead::Refused("image data has the wrong length"@)
                    } else if !filters_zero(raw, stride, h as nat) {
                        PngRead::Refused("only filter 0 rows are read"@)
                    } else {
                        PngRead::Decoded(w as nat, h as nat, unfiltered(raw, stride, h as nat))
                    }
                },
            },
        }
    }
}

/// What a decode result says of `b`.
pub open spec fn decoded_as(b: Seq<u8>, res: Result<Image, String>) -> bool {
    match png_read(b) {
        PngRead::Decoded(w, h, d) => res matches Ok(img) && img.width == w && img.height == h
            && img.data@ == d,
        PngRead::Refused(m) => res matches Err(e) && e@ == m,
        PngRead::InflateFailed => res matches Err(e) && "inflate failed: "@.is_prefix_of(e@),
    }
}

#[verifier::external_type_specification]
#[verifier::external_body]
pub struct ExDecompressError(miniz_oxide::inflate::DecompressError);

/// Calls `miniz_oxide::inflate::decompress_to_vec_zlib`. Trusted: the
/// call succeeds exactly when `zlib_inflate` has a value for the stream,
/// and then returns that value.
#[verifier::external_body]
fn decompress_zlib(stream: &[u8]) -> (res: Result<Vec<u8>, miniz_oxide::inflate::DecompressError>)
    ensures
        match res {
            Ok(v) => zlib_inflate(stream@) == Some(v@),
            Err(_) => zlib_inflate(stream@) is None,
        },
{
    miniz_oxide::inflate::decompress_to_vec_zlib(stream)
}

/// The `Debug` text of a miniz_oxide `DecompressError`; nothing is
/// claimed of it.
#[verifier::external_body]
fn describe_inflate_error(e: &miniz_oxide::inflate::DecompressError) -> String {
    format!("{e:?}")
}

/// The 32-bit number stored most significant byte first at `b[i..i + 4]`.
fn read_be32(b: &[u8], i: usize) -> (x: u32)
    requires
        i + 4 <= b@.len(),
    ensures
        x == be32_at(b@, i as int),
{
    ((b[i] as u32) << 24) | ((b[i + 1] as u32) << 16) | ((b[i + 2] as u32) << 8) | (b[i + 3] as u32)
}

/// Whether the four bytes at `b[i..i + 4]` are `k`.
fn kind_at(b: &[u8], i: usize, k: &[u8; 4]) -> (same: bool)
    requires
        i + 4 <= b@.len(),
    ensures
        same == (b@.subrange(i as int, i + 4) == k@),
{
    let same = b[i] == k[0] && b[i + 1] == k[1] && b[i + 2] == k[2] && b[i + 3] == k[3];
    if same {
        assert(b@.subrange(i as int, i + 4) =~= k@);
    } else {
        assert(b@.subrange(i as int, i + 4) != k@) by {
            if b@.subrange(i as int, i + 4) == k@ {
                assert(b@.subrange(i as int, i + 4)[0] == k@[0]);
                assert(b@.subrange(i as int, i + 4)[1] == k@[1]);
                assert(b@.subrange(i as int, i + 4)[2] == k@[2]);
                assert(b@.subrange(i as int, i + 4)[3] == k@[3]);
            }
        }
    }
    same
}

/// Decodes a PNG of the subset `encode` writes: 8-bit RGB, no
/// interlace, filter-0 rows, any number of data chunks.
pub fn decode(bytes: &[u8]) -> (res: Result<Image, String>)
    ensures
        decoded_as(bytes@, res),
        res matches Ok(img) ==> img.wf(),
{
    let n = bytes.len();
    let sig: [u8; 8] = [0x89, 0x50, 0x4e, 0x47, 0x0d, 0x0a, 0x1a, 0x0a];
    let mut k: usize = 0;
    let mut sig_ok = n >= 8;
    while sig_ok && k < 8
        invariant
            k <= 8,
            n == bytes@.len(),
            sig_ok ==> n >= 8,
            sig@ == png_signature(),
            sig_ok ==> forall|j: int| 0 <= j < k ==> bytes@[j] == sig@[j],
            !sig_ok ==> !starts_with_signature(bytes@),
        decreases 8 - k,
    {
        if bytes[k] != sig[k] {
            sig_ok = false;
            assert(bytes@.take(8)[k as int] != png_signature()[k as int]);
        }
        k = k + 1;
    }
    if !sig_ok {
        return Err(text("not a PNG"));
    }
    assert(bytes@.take(8) =~= png_signature());
    let table = crc_table();
    let kind_h: [u8; 4] = [0x49, 0x48, 0x44, 0x52];
    let kind_d: [u8; 4] = [0x49, 0x44, 0x41, 0x54];
    let kind_e: [u8; 4] = [0x49, 0x45, 0x4e, 0x44];
    assert(kind_h@ =~= kind_ihdr());
    assert(kind_d@ =~= kind_idat());
    assert(kind_e@ =~= kind_iend());
    let ghost total = scan_chunks(bytes@, 8, None, Seq::empty());
    proof {
        reveal(scan_chunks);
    }
    let mut at: usize = 8;
    let mut size: Option<(u32, u32)> = None;
    let mut idat: Vec<u8> = Vec::new();
    loop
        invariant_except_break
            8 <= at <= n,
            is_crc_table(table@),
            kind_h@ == kind_ihdr(),
            kind_d@ == kind_idat(),
            kind_e@ == kind_iend(),
            total == scan_chunks(bytes@, at as int, size, idat@),
        invariant
            n == bytes@.len(),
            starts_with_signature(bytes@),
            total == scan_chunks(bytes@, 8, None, Seq::empty()),
        ensures
            total == Ok::<(Option<(u32, u32)>, Seq<u8>), Seq<char>>((size, idat@)),
        decreases n - at,
    {
        proof {
            reveal(scan_chunks);
        }
        if n - at < 12 {
            break;
        }
        let len = read_be32(bytes, at) as usize;
        assert(len as int == be32_at(bytes@, at as int) as int);
        if len > n - at - 12 {
            assert(scan_chunks(bytes@, at as int, size, idat@) == Err::<
                (Option<(u32, u32)>, Seq<u8>),
                Seq<char>,
            >("truncated chunk"@));
            assert(total == scan_chunks(bytes@, 8, None, Seq::empty()));
            assert(starts_with_signature(bytes@));
            assert(png_read(bytes@) == PngRead::Refused("truncated chunk"@));
            return Err(text("truncated chunk"));
        }
        let end = at + 8 + len;
        let crc = read_be32(bytes, end);
        if crc != crc32(&table, &bytes[at + 4..end]) {
            assert(scan_chunks(bytes@, at as int, size, idat@) == Err::<
                (Option<(u32, u32)>, Seq<u8>),
                Seq<char>,
            >("bad chunk crc"@));
            assert(png_read(bytes@) == PngRead::Refused("bad chunk crc"@));
            return Err(text("bad chunk crc"));
        }
        let ghost data = bytes@.subrange(at + 8, end as int);
        let ghost old_size = size;
        let ghost old_idat = idat@;
        let ghost old_at = at as int;
        if kind_at(bytes, at + 4, &kind_h) {
            if len != 13 || bytes[at + 16] != 8 || bytes[at + 17] != 2 || bytes[at + 20] != 0 {
                assert(scan_chunks(bytes@, at as int, size, idat@) == Err::<
                    (Option<(u32, u32)>, Seq<u8>),
                    Seq<char>,
                >("only 8-bit RGB without interlace is read"@));
                assert(png_read(bytes@) == PngRead::Refused("only 8-bit RGB without interlace is read"@));
                return Err(text("only 8-bit RGB without interlace is read"));
            }
            let w = read_be32(bytes, at + 8);
            let h = read_be32(bytes, at + 12);
            assert(be32_at(data, 0) == w);
            assert(be32_at(data, 4) == h);
            size = Some((w, h));
            assert(scan_chunks(bytes@, old_at, old_size, old_idat) == scan_chunks(
                bytes@,
                end + 4,
                size,
                idat@,
            ));
        } else if kind_at(bytes, at + 4, &kind_d) {
            idat.extend_from_slice(&bytes[at + 8..end]);
            assert(idat@ == old_idat + data);
            assert(scan_chunks(bytes@, old_at, old_size, old_idat) == scan_chunks(
                bytes@,
                end + 4,
                size,
                idat@,
            ));
        } else if kind_at(bytes, at + 4, &kind_e) {
            assert(scan_chunks(bytes@, old_at, old_size, old_idat) == Ok::<
                (Option<(u32, u32)>, Seq<u8>),
                Seq<char>,
            >((size, idat@)));
            break;
        } else {
            assert(scan_chunks(bytes@, old_at, old_size, old_idat) == scan_chunks(
                bytes@,
                end + 4,
                size,
                idat@,
            ));
        }
        at = end + 4;
    }
    let (w, h) = match size {
        None => {
            assert(png_read(bytes@) == PngRead::Refused("no IHDR"@));
            return Err(text("no IHDR"));
        },
        Some(wh) => wh,
    };
    let raw = match decompress_zlib(idat.as_slice()) {
        Ok(raw) => raw,
        Err(e) => {
            assert(png_read(bytes@) == PngRead::InflateFailed);
            let prefix = text("inflate failed: ");
            let msg = prefix.concat(describe_inflate_error(&e).as_str());
            assert("inflate failed: "@.is_prefix_of(msg@)) by {
                assert(msg@.take(prefix@.len() as int) =~= prefix@);
            }
            return Err(msg);
        },
    };
    assert(total == Ok::<(Option<(u32, u32)>, Seq<u8>), Seq<char>>((Some((w, h)), idat@)));
    assert(zlib_inflate(idat@) == Some(raw@));
    let width = w as usize;
    let height = h as usize;
    let rlen = raw.len();
    let ghost wrong = png_read(bytes@) == PngRead::Refused("image data has the wrong length"@);
    assert((w * 3 + 1) * h <= (3 * 0xffff_ffffnat + 1) * 0xffff_ffffnat) by (nonlinear_arith)
        requires
            w <= 0xffff_ffffnat,
            h <= 0xffff_ffffnat,
    ;
    let wide: u128 = (w as u128 * 3 + 1) * (h as u128);
    if (rlen as u128) != wide {
        assert(wrong);
        return Err(text("image data has the wrong length"));
    }
    if height == 0 {
        assert(width * height * 3 == 0) by (nonlinear_arith)
            requires
                height == 0,
        ;
        assert(unfiltered(raw@, (w * 3 + 1) as nat, 0) =~= Seq::<u8>::empty());
        return Ok(Image { width, height, data: Vec::new() });
    }
    assert((w * 3 + 1) <= (w * 3 + 1) * h) by (nonlinear_arith)
        requires
            h >= 1,
    ;
    let stride = width * 3 + 1;
    let mut data: Vec<u8> = Vec::new();
    let mut r: usize = 0;
    while r < height
        invariant
            r <= height,
            rlen == raw@.len(),
            rlen == stride * height,
            stride == width * 3 + 1,
            width == w,
            height == h,
            starts_with_signature(bytes@),
            total == scan_chunks(bytes@, 8, None, Seq::empty()),
            total == Ok::<(Option<(u32, u32)>, Seq<u8>), Seq<char>>((Some((w, h)), idat@)),
            zlib_inflate(idat@) == Some(raw@),
            filters_zero(raw@, stride as nat, r as nat),
            data@ == unfiltered(raw@, stride as nat, r as nat),
        decreases height - r,
    {
        proof {
            lemma_div_exact(stride as int, height as int);
            lemma_row_bounds(r as int, stride as int, rlen as int);
        }
        let start = r * stride;
        if raw[start] != 0 {
            assert(filter_byte(raw@, stride as nat, r as int) != 0);
            assert(!filters_zero(raw@, stride as nat, height as nat));
            assert(stride as nat == (w * 3 + 1) as nat);
            assert(height as nat == h as nat);
            assert(raw@.len() == ((w * 3 + 1) as nat) * h);
            assert(!filters_zero(raw@, (w * 3 + 1) as nat, h as nat));
            assert(png_read(bytes@) == PngRead::Refused("only filter 0 rows are read"@));
            return Err(text("only filter 0 rows are read"));
        }
        data.extend_from_slice(&raw.as_slice()[start + 1..start + stride]);
        r = r + 1;
        assert(data@ =~= unfiltered(raw@, stride as nat, r as nat));
    }
    proof {
        lemma_unfiltered_len(raw@, stride as nat, height as nat);
        assert((stride - 1) * height == width * height * 3) by (nonlinear_arith)
            requires
                stride == width * 3 + 1,
        ;
    }
    Ok(Image { width, height, data })
}

proof fn lemma_div_exact(stride: int, height: int)
    requires
        stride > 0,
        height >= 0,
    ensures
        (stride * height) / stride == height,
{
    assert((stride * height) / stride == height) by (nonlinear_arith)
        requires
            stride > 0,
            height >= 0,
    ;
}

proof fn lemma_unfiltered_len(raw: Seq<u8>, stride: nat, rows: nat)
    requires
        stride >= 1,
        raw.len() >= stride * rows,
    ensures
        unfiltered(raw, stride, rows).len() == (stride - 1) * rows,
    decreases rows,
{
    if rows > 0 {
        let r1 = (rows - 1) as nat;
        let a = (rows - 1) * stride + 1;
        let b = (rows * stride) as int;
        assert((rows - 1) * stride + stride == rows * stride) by (nonlinear_arith)
            requires
                rows >= 1,
        ;
        assert(rows * stride == stride * rows) by (nonlinear_arith);
        assert(0 <= (rows - 1) * stride) by (nonlinear_arith)
            requires
                rows >= 1,
        ;
        assert(stride * r1 <= stride * rows) by (nonlinear_arith)
            requires
                r1 <= rows,
        ;
        lemma_unfiltered_len(raw, stride, r1);
        assert(unfiltered(raw, stride, rows) == unfiltered(raw, stride, r1) + raw.subrange(a, b));
        assert(raw.subrange(a, b).len() == stride - 1);
        assert((stride - 1) * r1 + (stride - 1) == (stride - 1) * rows) by (nonlinear_arith)
            requires
                r1 == rows - 1,
        ;
    } else {
        assert((stride - 1) * rows == 0) by (nonlinear_arith)
            requires
                rows == 0,
        ;
    }
}


// ---------------------------------------------------------- round trip

proof fn lemma_be32_in(f: Seq<u8>, i: int, x: u32)
    requires
        0 <= i,
        i + 4 <= f.len(),
        f.subrange(i, i + 4) == be32(x),
    ensures
        be32_at(f, i) == x,
{
    lemma_be32_round_trip(x);
    assert(f[i] == be32(x)[0]);
    assert(f[i + 1] == be32(x)[1]);
    assert(f[i + 2] == be32(x)[2]);
    assert(f[i + 3] == be32(x)[3]);
}

/// What a reader finds at a chunk that starts after `pre`.
proof fn lemma_chunk_at(pre: Seq<u8>, kind: Seq<u8>, d: Seq<u8>, post: Seq<u8>)
    requires
        kind.len() == 4,
        d.len() <= 0xffff_ffff,
    ensures
        ({
            let f = pre + chunk_bytes(kind, d) + post;
            let at = pre.len() as int;
            let end = at + 8 + d.len();
            &&& f.len() == pre.len() + d.len() + 12 + post.len()
            &&& be32_at(f, at) as int == d.len()
            &&& f.subrange(at + 4, at + 8) == kind
            &&& f.subrange(at + 8, end) == d
            &&& f.subrange(at + 4, end) == kind + d
            &&& be32_at(f, end) == crc32_of(f.subrange(at + 4, end))
            &&& f.subrange(end + 4, f.len() as int) == post
        }),
{
    let f = pre + chunk_bytes(kind, d) + post;
    let at = pre.len() as int;
    let end = at + 8 + d.len();
    assert(f.subrange(at, at + 4) =~= be32(d.len() as u32));
    lemma_be32_in(f, at, d.len() as u32);
    assert(f.subrange(at + 4, at + 8) =~= kind);
    assert(f.subrange(at + 8, end) =~= d);
    assert(f.subrange(at + 4, end) =~= kind + d);
    assert(f.subrange(end, end + 4) =~= be32(crc32_of(kind + d)));
    lemma_be32_in(f, end, crc32_of(kind + d));
    assert(f.subrange(end + 4, f.len() as int) =~= post);
}

proof fn lemma_unfiltered_prefix(s: Seq<u8>, t: Seq<u8>, stride: nat, rows: nat)
    requires
        stride >= 1,
        s.len() >= stride * rows,
    ensures
        unfiltered(s + t, stride, rows) == unfiltered(s, stride, rows),
        forall|r: int| 0 <= r < rows ==> filter_byte(s + t, stride, r) == filter_byte(s, stride, r),
    decreases rows,
{
    if rows > 0 {
        let r1 = (rows - 1) as nat;
        assert(stride * r1 <= stride * rows) by (nonlinear_arith)
            requires
                r1 <= rows,
        ;
        lemma_unfiltered_prefix(s, t, stride, r1);
        assert((rows - 1) * stride + stride == rows * stride) by (nonlinear_arith)
            requires
                rows >= 1,
        ;
        assert(rows * stride == stride * rows) by (nonlinear_arith);
        assert(0 <= (rows - 1) * stride) by (nonlinear_arith)
            requires
                rows >= 1,
        ;
        let a = (rows - 1) * stride + 1;
        let b = (rows * stride) as int;
        assert((s + t).subrange(a, b) =~= s.subrange(a, b));
        assert forall|r: int| 0 <= r < rows implies filter_byte(s + t, stride, r) == filter_byte(
            s,
            stride,
            r,
        ) by {
            assert(0 <= r * stride < stride * rows) by (nonlinear_arith)
                requires
                    0 <= r < rows,
                    stride >= 1,
            ;
        }
    }
}

/// Filtered rows unfilter to the rows they were made from.
proof fn lemma_scanlines(data: Seq<u8>, row: nat, rows: nat)
    requires
        row >= 1,
        data.len() >= row * rows,
    ensures
        scanlines(data, row, rows).len() == (row + 1) * rows,
        filters_zero(scanlines(data, row, rows), row + 1, rows),
        unfiltered(scanlines(data, row, rows), row + 1, rows) == data.take((row * rows) as int),
    decreases rows,
{
    let stride = row + 1;
    if rows == 0 {
        assert(row * rows == 0) by (nonlinear_arith)
            requires
                rows == 0,
        ;
        assert((row + 1) * rows == 0) by (nonlinear_arith)
            requires
                rows == 0,
        ;
        assert(data.take(0) =~= Seq::<u8>::empty());
    } else {
        let r1 = (rows - 1) as nat;
        assert(row * r1 <= row * rows) by (nonlinear_arith)
            requires
                r1 <= rows,
        ;
        lemma_scanlines(data, row, r1);
        let prev = scanlines(data, row, r1);
        let piece = seq![0u8] + data.subrange((r1 * row) as int, (rows * row) as int);
        assert(r1 * row + row == rows * row) by (nonlinear_arith)
            requires
                r1 == rows - 1,
        ;
        assert(0 <= r1 * row) by (nonlinear_arith);
        assert(rows * row == row * rows) by (nonlinear_arith);
        assert(scanlines(data, row, rows) =~= prev + piece);
        assert(stride * r1 + stride == stride * rows) by (nonlinear_arith)
            requires
                r1 == rows - 1,
        ;
        assert(stride * r1 == (row + 1) * r1) by (nonlinear_arith)
            requires
                stride == row + 1,
        ;
        assert(stride * rows == (row + 1) * rows) by (nonlinear_arith)
            requires
                stride == row + 1,
        ;
        lemma_unfiltered_prefix(prev, piece, stride, r1);
        let all = prev + piece;
        assert(r1 * stride == stride * r1) by (nonlinear_arith);
        assert(rows * stride == stride * rows) by (nonlinear_arith);
        assert(all.subrange((r1 * stride + 1) as int, (rows * stride) as int) =~= data.subrange(
            (r1 * row) as int,
            (rows * row) as int,
        ));
        assert(unfiltered(all, stride, rows) == unfiltered(all, stride, r1) + all.subrange(
            (rows - 1) * stride + 1,
            (rows * stride) as int,
        ));
        assert((rows - 1) * stride + 1 == r1 * stride + 1);
        assert(unfiltered(all, stride, r1) == data.take((row * r1) as int));
        assert(row * r1 == r1 * row) by (nonlinear_arith);
        assert(data.take((row * rows) as int) =~= data.take((row * r1) as int) + data.subrange(
            (r1 * row) as int,
            (rows * row) as int,
        ));
        assert forall|r: int| 0 <= r < rows implies #[trigger] filter_byte(all, stride, r) == 0 by {
            if r < r1 {
                assert(filter_byte(prev, stride, r) == 0);
            } else {
                assert(r * stride == stride * r1) by (nonlinear_arith)
                    requires
                        r == r1,
                ;
            }
        }
    }
}

/// The outcome of the chunk walk at one well-formed chunk.
pub open spec fn scan_after(
    f: Seq<u8>,
    next: int,
    kind: Seq<u8>,
    d: Seq<u8>,
    size: Option<(u32, u32)>,
    idat: Seq<u8>,
) -> Result<(Option<(u32, u32)>, Seq<u8>), Seq<char>> {
    if kind == kind_ihdr() {
        if d.len() != 13 || d[8] != 8 || d[9] != 2 || d[12] != 0 {
            Err("only 8-bit RGB without interlace is read"@)
        } else {
            scan_chunks(f, next, Some((be32_at(d, 0), be32_at(d, 4))), idat)
        }
    } else if kind == kind_idat() {
        scan_chunks(f, next, size, idat + d)
    } else if kind == kind_iend() {
        Ok((size, idat))
    } else {
        scan_chunks(f, next, size, idat)
    }
}

proof fn lemma_scan_unfold(
    f: Seq<u8>,
    at: int,
    kind: Seq<u8>,
    d: Seq<u8>,
    size: Option<(u32, u32)>,
    idat: Seq<u8>,
)
    requires
        0 <= at,
        at + 12 + d.len() <= f.len(),
        be32_at(f, at) as int == d.len(),
        f.subrange(at + 4, at + 8) == kind,
        f.subrange(at + 8, at + 8 + d.len()) == d,
        be32_at(f, at + 8 + d.len()) == crc32_of(f.subrange(at + 4, at + 8 + d.len())),
    ensures
        scan_chunks(f, at, size, idat) == scan_after(f, at + 12 + d.len(), kind, d, size, idat),
{
    reveal(scan_chunks);
}

/// One step of the chunk walk over a chunk that starts after `pre`.
proof fn lemma_scan_step(
    pre: Seq<u8>,
    kind: Seq<u8>,
    d: Seq<u8>,
    post: Seq<u8>,
    size: Option<(u32, u32)>,
    idat: Seq<u8>,
)
    requires
        kind.len() == 4,
        d.len() <= 0xffff_ffff,
    ensures
        scan_chunks(pre + chunk_bytes(kind, d) + post, pre.len() as int, size, idat) == scan_after(
            pre + chunk_bytes(kind, d) + post,
            (pre.len() + 12 + d.len()) as int,
            kind,
            d,
            size,
            idat,
        ),
{
    lemma_chunk_at(pre, kind, d, post);
    let f = pre + chunk_bytes(kind, d) + post;
    lemma_scan_unfold(f, pre.len() as int, kind, d, size, idat);
}

proof fn lemma_ihdr_fields(width: u32, height: u32)
    ensures
        ihdr_data(width, height).len() == 13,
        ihdr_data(width, height)[8] == 8,
        ihdr_data(width, height)[9] == 2,
        ihdr_data(width, height)[12] == 0,
        be32_at(ihdr_data(width, height), 0) == width,
        be32_at(ihdr_data(width, height), 4) == height,
{
    let hd = ihdr_data(width, height);
    assert(hd.subrange(0, 4) =~= be32(width));
    assert(hd.subrange(4, 8) =~= be32(height));
    lemma_be32_in(hd, 0, width);
    lemma_be32_in(hd, 4, height);
}

proof fn lemma_kinds_differ()
    ensures
        kind_idat() != kind_ihdr(),
        kind_iend() != kind_ihdr(),
        kind_iend() != kind_idat(),
{
    assert(kind_idat()[1] != kind_ihdr()[1]);
    assert(kind_iend()[1] != kind_ihdr()[1]);
    assert(kind_iend()[1] != kind_idat()[1]);
}

proof fn lemma_scan_header(pre: Seq<u8>, width: u32, height: u32, post: Seq<u8>)
    ensures
        ({
            let f = pre + chunk_bytes(kind_ihdr(), ihdr_data(width, height)) + post;
            scan_chunks(f, pre.len() as int, None, Seq::empty()) == scan_chunks(
                f,
                (pre.len() + 25) as int,
                Some((width, height)),
                Seq::empty(),
            )
        }),
{
    lemma_ihdr_fields(width, height);
    lemma_scan_step(pre, kind_ihdr(), ihdr_data(width, height), post, None, Seq::empty());
}

proof fn lemma_scan_data(pre: Seq<u8>, stream: Seq<u8>, post: Seq<u8>, size: Option<(u32, u32)>)
    requires
        stream.len() <= 0xffff_ffff,
    ensures
        ({
            let f = pre + chunk_bytes(kind_idat(), stream) + post;
            scan_chunks(f, pre.len() as int, size, Seq::empty()) == scan_chunks(
                f,
                (pre.len() + 12 + stream.len()) as int,
                size,
                stream,
            )
        }),
{
    lemma_kinds_differ();
    lemma_scan_step(pre, kind_idat(), stream, post, size, Seq::empty());
    assert(Seq::<u8>::empty() + stream =~= stream);
}

proof fn lemma_scan_end(pre: Seq<u8>, size: Option<(u32, u32)>, idat: Seq<u8>)
    ensures
        ({
            let f = pre + chunk_bytes(kind_iend(), Seq::empty()) + Seq::empty();
            scan_chunks(f, pre.len() as int, size, idat) == Ok::<
                (Option<(u32, u32)>, Seq<u8>),
                Seq<char>,
            >((size, idat))
        }),
{
    lemma_kinds_differ();
    lemma_scan_step(pre, kind_iend(), Seq::empty(), Seq::empty(), size, idat);
}

proof fn lemma_scan_file(width: u32, height: u32, stream: Seq<u8>)
    requires
        stream.len() <= 0xffff_ffff,
    ensures
        starts_with_signature(png_file(width, height, stream)),
        scan_chunks(png_file(width, height, stream), 8, None, Seq::empty()) == Ok::<
            (Option<(u32, u32)>, Seq<u8>),
            Seq<char>,
        >((Some((width, height)), stream)),
{
    let empty = Seq::<u8>::empty();
    let sig = png_signature();
    let c1 = chunk_bytes(kind_ihdr(), ihdr_data(width, height));
    let c2 = chunk_bytes(kind_idat(), stream);
    let c3 = chunk_bytes(kind_iend(), empty);
    let f = png_file(width, height, stream);
    let sz = Some((width, height));
    assert(f.take(8) =~= sig);
    assert(f =~= sig + c1 + (c2 + c3));
    lemma_scan_header(sig, width, height, c2 + c3);
    assert(f =~= (sig + c1) + c2 + c3);
    lemma_scan_data(sig + c1, stream, c3, sz);
    assert(f =~= (sig + c1 + c2) + c3 + empty);
    lemma_scan_end(sig + c1 + c2, sz, stream);
}

/// Reading the file `png_file` writes gives back the image whose rows
/// the stream inflates to.
pub proof fn lemma_png_round_trip(width: u32, height: u32, data: Seq<u8>, stream: Seq<u8>)
    requires
        width > 0,
        data.len() == width * height * 3,
        stream.len() <= 0xffff_ffff,
        zlib_inflate(stream) == Some(scanlines(data, (width * 3) as nat, height as nat)),
    ensures
        png_read(png_file(width, height, stream)) == PngRead::Decoded(
            width as nat,
            height as nat,
            data,
        ),
{
    lemma_scan_file(width, height, stream);
    let row = (width * 3) as nat;
    assert(row * height == data.len()) by (nonlinear_arith)
        requires
            data.len() == width * height * 3,
            row == width * 3,
    ;
    lemma_scanlines(data, row, height as nat);
    assert((width * 3 + 1) as nat == row + 1);
    assert(data.take((row * height) as int) =~= data);
}


/// The pieces `ps` one after another.
pub open spec fn joined(ps: Seq<Seq<u8>>) -> Seq<u8>
    decreases ps.len(),
{
    if ps.len() == 0 {
        Seq::empty()
    } else {
        ps[0] + joined(ps.drop_first())
    }
}

/// One `IDAT` chunk for each piece, in order.
pub open spec fn idat_chunks(ps: Seq<Seq<u8>>) -> Seq<u8>
    decreases ps.len(),
{
    if ps.len() == 0 {
        Seq::empty()
    } else {
        chunk_bytes(kind_idat(), ps[0]) + idat_chunks(ps.drop_first())
    }
}

/// A file like `png_file`, with its compressed stream cut into the
/// pieces `ps`, each in an `IDAT` chunk of its own.
pub open spec fn png_file_in_pieces(width: u32, height: u32, ps: Seq<Seq<u8>>) -> Seq<u8> {
    png_signature() + chunk_bytes(kind_ihdr(), ihdr_data(width, height)) + idat_chunks(ps)
        + chunk_bytes(kind_iend(), Seq::empty())
}

proof fn lemma_scan_pieces(
    pre: Seq<u8>,
    ps: Seq<Seq<u8>>,
    post: Seq<u8>,
    size: Option<(u32, u32)>,
    acc: Seq<u8>,
)
    requires
        forall|i: int| 0 <= i < ps.len() ==> (#[trigger] ps[i]).len() <= 0xffff_ffff,
    ensures
        ({
            let f = pre + idat_chunks(ps) + post;
            scan_chunks(f, pre.len() as int, size, acc) == scan_chunks(
                f,
                (pre.len() + idat_chunks(ps).len()) as int,
                size,
                acc + joined(ps),
            )
        }),
    decreases ps.len(),
{
    if ps.len() == 0 {
        assert(acc + joined(ps) =~= acc);
        assert(pre + idat_chunks(ps) + post =~= pre + post);
    } else {
        let p0 = ps[0];
        let rest = ps.drop_first();
        let c0 = chunk_bytes(kind_idat(), p0);
        let f = pre + idat_chunks(ps) + post;
        assert(f =~= pre + c0 + (idat_chunks(rest) + post));
        lemma_kinds_differ();
        lemma_scan_step(pre, kind_idat(), p0, idat_chunks(rest) + post, size, acc);
        assert(c0.len() == 12 + p0.len());
        assert forall|i: int| 0 <= i < rest.len() implies (#[trigger] rest[i]).len() <= 0xffff_ffff by {
            assert(rest[i] == ps[i + 1]);
        }
        lemma_scan_pieces(pre + c0, rest, post, size, acc + p0);
        assert(f =~= (pre + c0) + idat_chunks(rest) + post);
        assert(acc + p0 + joined(rest) =~= acc + joined(ps));
    }
}

/// Cutting the compressed stream into several `IDAT` chunks, as most
/// writers do for larger images, changes nothing: a file reads as the
/// one-chunk file of the pieces joined in order.
pub proof fn law_split_image_data_reads_as_joined(width: u32, height: u32, ps: Seq<Seq<u8>>)
    requires
        forall|i: int| 0 <= i < ps.len() ==> (#[trigger] ps[i]).len() <= 0xffff_ffff,
        joined(ps).len() <= 0xffff_ffff,
    ensures
        png_read(png_file_in_pieces(width, height, ps)) == png_read(png_file(width, height, joined(ps))),
{
    let empty = Seq::<u8>::empty();
    let sig = png_signature();
    let c1 = chunk_bytes(kind_ihdr(), ihdr_data(width, height));
    let cs = idat_chunks(ps);
    let c3 = chunk_bytes(kind_iend(), empty);
    let f = png_file_in_pieces(width, height, ps);
    let sz = Some((width, height));
    assert(f.take(8) =~= sig);
    assert(f =~= sig + c1 + (cs + c3));
    lemma_scan_header(sig, width, height, cs + c3);
    assert(f =~= (sig + c1) + cs + c3);
    lemma_scan_pieces(sig + c1, ps, c3, sz, empty);
    assert(empty + joined(ps) =~= joined(ps));
    assert(f =~= (sig + c1 + cs) + c3 + empty);
    lemma_scan_end(sig + c1 + cs, sz, joined(ps));
    lemma_scan_file(width, height, joined(ps));
}

// ------------------------------------------------------------ the API

/// Encodes an image as PNG.
pub fn to_png(image: &Image) -> (bytes: Vec<u8>)
    requires
        image.width > 0,
        image.width * 3 <= usize::MAX,
        image.height * (image.width * 3 + 1) <= usize::MAX,
    ensures
        bytes@ == png_file(
            #[verifier::truncate] (image.width as u32),
            #[verifier::truncate] (image.height as u32),
            zlib_deflate(raw_rows(*image), 6),
        ),
        round_trips(*image) ==> png_read(bytes@) == PngRead::Decoded(
            image.width as nat,
            image.height as nat,
            image.data@,
        ),
{
    encode(image)
}

/// Decodes a PNG produced by `to_png` (only that subset: 8-bit RGB, no
/// interlace), for tests and round trips.
pub fn from_png(bytes: &[u8]) -> (res: Result<Image, String>)
    ensures
        decoded_as(bytes@, res),
        res matches Ok(img) ==> img.wf(),
{
    decode(bytes)
}

/// Decoding what `to_png` wrote gives the image back.
pub proof fn lemma_to_png_from_png(image: Image, bytes: Seq<u8>, res: Result<Image, String>)
    requires
        round_trips(image),
        png_read(bytes) == PngRead::Decoded(image.width as nat, image.height as nat, image.data@),
        decoded_as(bytes, res),
    ensures
        res matches Ok(back) && back.width == image.width && back.height == image.height
            && back.data@ == image.data@,
{
}

} // verus!
