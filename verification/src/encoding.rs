//! The binary container codec: a versioned header, a per-row length table
//! that makes rows independently addressable, and one record per block whose
//! pixels are compressed by an external lossless codec.

use vstd::prelude::*;
use crate::block::{BlockView, PixlzrBlock, PixlzrBlockRaw, RawImage};
use crate::bytes::{Bytes, spec_u32_of_be, spec_u32_to_be, lemma_u32_be_roundtrip};
use crate::filter::{FilterType, spec_filter_byte, filter_to_u8, u8_to_filter};
use crate::pixlzr::{ceil_div, lemma_ceil_div, ContainerView, Pixlzr};
use crate::semver::Semver;

verus! {

/// The container's six magic bytes, `"PIXLZR"`.
pub open spec fn spec_pixlzr_magic() -> Seq<u8> {
    seq![80u8, 73u8, 88u8, 76u8, 90u8, 82u8]
}

/// The three version bytes this encoder writes.
pub open spec fn spec_version_bytes() -> Seq<u8> {
    seq![0u8, 0u8, 2u8]
}

/// The five magic bytes of one block record, `"block"`.
pub open spec fn spec_block_magic() -> Seq<u8> {
    seq![98u8, 108u8, 111u8, 99u8, 107u8]
}

/// The four magic bytes of the external pixel codec's stream, `"qoif"`;
/// stripped from each record and put back before decoding.
pub open spec fn spec_qoi_magic() -> Seq<u8> {
    seq![113u8, 111u8, 105u8, 102u8]
}

/// Why an encode or decode failed.  Decoding is all-or-nothing: the first
/// mismatch fails the whole container.
#[derive(Debug, Clone, Copy, PartialEq, Eq, Structural)]
pub enum PixlzrError {
    /// The container does not start with the container magic bytes.
    BadMagic,
    /// A block record does not start with the block magic bytes.
    BadBlockMagic,
    /// The buffer ended before a field or payload was complete.
    Truncated,
    /// The per-row length table does not account for the buffer exactly.
    RowTableMismatch,
    /// The header declares a block width or height of zero.
    ZeroBlockDimension,
    /// A row's encoded blocks exceed what its length field can hold.
    RowTooLong,
    /// The external pixel codec rejected a block.
    PixelCodec,
}

/// A version-gated optional part of the container format.
#[derive(Debug, Clone, Copy, PartialEq, Eq, Structural)]
pub enum Resource {
    /// The one-byte filter tag in the header.
    Filter,
    /// The per-row length table after the fixed header fields.
    LineSizes,
}

/// The least container version that carries the given optional part.
pub open spec fn spec_resource_version(resource: Resource) -> Semver {
    match resource {
        Resource::Filter => Semver { major: 0, minor: 0, patch: 1 },
        Resource::LineSizes => Semver { major: 0, minor: 0, patch: 2 },
    }
}

/// Whether a container of the given version carries the given optional part.
pub fn has_resource(version: &Semver, resource: Resource) -> (r: bool)
    ensures
        r == (version.key() >= spec_resource_version(resource).key()),
{
    match resource {
        Resource::Filter => version.ge(&Semver::new(0, 0, 1)),
        Resource::LineSizes => version.ge(&Semver::new(0, 0, 2)),
    }
}

/// What the external pixel codec produces for an image of the given
/// dimensions and interleaved bytes (the channel count follows from the
/// buffer length): a pure function of these arguments.
pub uninterp spec fn qoi_encoding_of(width: int, height: int, data: Seq<u8>) -> Seq<u8>;

/// The inputs the external pixel codec accepts: at least one pixel, at most
/// its documented pixel limit, and exactly three or four bytes per pixel.
pub open spec fn qoi_ok_input(width: int, height: int, data: Seq<u8>) -> bool {
    &&& 1 <= width * height <= 400_000_000
    &&& (data.len() == width * height * 3 || data.len() == width * height * 4)
}

/// Relies on `qoi::encode_to_vec`: it encodes an RGB or RGBA buffer
/// losslessly, returning a stream that begins with the codec's four magic
/// bytes, at least 22 bytes long (header and end marker) and at most
/// `22 + 5 * pixels` long; it accepts exactly the inputs with one to
/// 400 million pixels whose length is three or four bytes per pixel, and the
/// stream depends on the arguments alone.
#[verifier::external_body]
fn qoi_encode(data: &Vec<u8>, width: u32, height: u32) -> (r: Result<Vec<u8>, PixlzrError>)
    ensures
        r is Ok <==> qoi_ok_input(width as int, height as int, data@),
        r is Ok ==> r.unwrap()@ == qoi_encoding_of(width as int, height as int, data@),
        r is Ok ==> r.unwrap()@.len() >= 22,
        r is Ok ==> r.unwrap()@.len() <= 22 + (width as int) * (height as int) * 5,
        r is Ok ==> r.unwrap()@.subrange(0, 4) == spec_qoi_magic(),
        r is Err ==> r.unwrap_err() == PixlzrError::PixelCodec,
{
    match qoi::encode_to_vec(data, width, height) {
        Ok(v) => Ok(v),
        Err(_) => Err(PixlzrError::PixelCodec),
    }
}

/// Relies on `qoi::decode_to_vec`: it rejects anything but a well-formed
/// stream, returns the dimensions and channel count from the stream's header
/// with one byte per channel per pixel, and, being the codec's lossless
/// inverse, maps the stream for any accepted image (its magic bytes restored)
/// back to exactly that image.
#[verifier::external_body]
fn qoi_decode(bytes: &Vec<u8>) -> (r: Result<(u32, u32, u8, Vec<u8>), PixlzrError>)
    ensures
        r is Ok ==> {
            let (w, h, ch, pix) = r.unwrap();
            &&& (ch == 3 || ch == 4)
            &&& 1 <= (w as int) * (h as int) <= 400_000_000
            &&& pix@.len() == (w as int) * (h as int) * (ch as int)
        },
        forall|w: int, h: int, pix: Seq<u8>|
            qoi_ok_input(w, h, pix) && bytes@ == spec_qoi_magic() + #[trigger] qoi_encoding_of(
                w,
                h,
                pix,
            ).skip(4) ==> {
                &&& r is Ok
                &&& r.unwrap().0 as int == w
                &&& r.unwrap().1 as int == h
                &&& r.unwrap().2 as int == (if pix.len() == w * h * 4 {
                    4int
                } else {
                    3int
                })
                &&& r.unwrap().3@ == pix
            },
        r is Err ==> r.unwrap_err() == PixlzrError::PixelCodec,
{
    match qoi::decode_to_vec(bytes) {
        Ok((header, pix)) => Ok(
            (header.width, header.height, if header.channels.is_rgba() { 4 } else { 3 }, pix),
        ),
        Err(_) => Err(PixlzrError::PixelCodec),
    }
}

/// The detail value bits a block record stores: zero when the block has none.
pub open spec fn spec_value_bits(b: BlockView) -> u32 {
    match b.block_value {
        Some(v) => v,
        None => 0,
    }
}

/// A block record's payload: the external codec's stream for the block, with
/// the codec's four magic bytes stripped.
pub open spec fn spec_block_payload(b: BlockView) -> Seq<u8> {
    qoi_encoding_of(b.width as int, b.height as int, b.data).skip(4)
}

/// One block record: the block magic, the stored detail value, the payload
/// length, and the payload.
pub open spec fn spec_encoded_block(b: BlockView) -> Seq<u8> {
    spec_block_magic() + spec_u32_to_be(spec_value_bits(b)) + spec_u32_to_be(
        spec_block_payload(b).len() as u32,
    ) + spec_block_payload(b)
}

/// The records of blocks `from ..= to - 1`, concatenated.
pub open spec fn spec_blocks_bytes(blocks: Seq<BlockView>, from: int, to: int) -> Seq<u8>
    decreases to - from,
{
    if from >= to {
        Seq::empty()
    } else {
        spec_encoded_block(blocks[from]) + spec_blocks_bytes(blocks, from + 1, to)
    }
}

/// Concatenating the records of two adjacent ranges concatenates their bytes.
pub proof fn lemma_blocks_bytes_concat(blocks: Seq<BlockView>, a: int, b: int, c: int)
    requires
        a <= b <= c,
    ensures
        spec_blocks_bytes(blocks, a, c) == spec_blocks_bytes(blocks, a, b) + spec_blocks_bytes(
            blocks,
            b,
            c,
        ),
    decreases b - a,
{
    if a >= b {
        assert(spec_blocks_bytes(blocks, a, b) + spec_blocks_bytes(blocks, b, c)
            =~= spec_blocks_bytes(blocks, a, c));
    } else {
        lemma_blocks_bytes_concat(blocks, a + 1, b, c);
        assert(spec_blocks_bytes(blocks, a, b) + spec_blocks_bytes(blocks, b, c)
            =~= spec_blocks_bytes(blocks, a, c));
    }
}

/// The byte length of one row of the grid: its blocks' records end to end.
pub open spec fn spec_row_len(v: ContainerView, r: int) -> int {
    spec_blocks_bytes(v.blocks, r * v.grid_width(), (r + 1) * v.grid_width()).len() as int
}

/// The per-row length table for rows `from ..= nrows - 1`.
pub open spec fn spec_row_table_from(v: ContainerView, from: int, nrows: int) -> Seq<u8>
    decreases nrows - from,
{
    if from >= nrows {
        Seq::empty()
    } else {
        spec_u32_to_be(spec_row_len(v, from) as u32) + spec_row_table_from(v, from + 1, nrows)
    }
}

/// The table grows one four-byte entry per row.
pub proof fn lemma_row_table_snoc(v: ContainerView, from: int, nrows: int)
    requires
        from <= nrows,
    ensures
        spec_row_table_from(v, from, nrows + 1) == spec_row_table_from(v, from, nrows)
            + spec_u32_to_be(spec_row_len(v, nrows) as u32),
    decreases nrows - from,
{
    if from >= nrows {
        assert(spec_row_table_from(v, from + 1, nrows + 1) =~= Seq::<u8>::empty());
        assert(spec_row_table_from(v, from, nrows) =~= Seq::<u8>::empty());
        assert(spec_row_table_from(v, from, nrows + 1) =~= spec_row_table_from(v, from, nrows)
            + spec_u32_to_be(spec_row_len(v, nrows) as u32));
    } else {
        lemma_row_table_snoc(v, from + 1, nrows);
        assert(spec_row_table_from(v, from, nrows + 1) =~= spec_row_table_from(v, from, nrows)
            + spec_u32_to_be(spec_row_len(v, nrows) as u32));
    }
}

/// The table holds four bytes per row.
pub proof fn lemma_row_table_len(v: ContainerView, from: int, nrows: int)
    requires
        from <= nrows,
    ensures
        spec_row_table_from(v, from, nrows).len() == 4 * (nrows - from),
    decreases nrows - from,
{
    if from < nrows {
        lemma_row_table_len(v, from + 1, nrows);
    }
}

/// The fixed header: magic, version, filter tag, image dimensions, block
/// dimensions — 26 bytes.
pub open spec fn spec_header(v: ContainerView) -> Seq<u8> {
    spec_pixlzr_magic() + spec_version_bytes() + seq![spec_filter_byte(v.filter)] + spec_u32_to_be(
        v.width,
    ) + spec_u32_to_be(v.height) + spec_u32_to_be(v.block_width) + spec_u32_to_be(v.block_height)
}

/// The whole container: header, per-row length table, then every block
/// record in row-major order.
pub open spec fn spec_encode(v: ContainerView) -> Seq<u8> {
    spec_header(v) + spec_row_table_from(v, 0, v.grid_height()) + spec_blocks_bytes(
        v.blocks,
        0,
        v.blocks.len() as int,
    )
}

/// The containers the encoder accepts: every block within the pixel codec's
/// limits, and every row short enough for its length field.
pub open spec fn spec_encodable(v: ContainerView) -> bool {
    &&& forall|i: int|
        0 <= i < v.blocks.len() ==> qoi_ok_input(
            (#[trigger] v.blocks[i]).width as int,
            v.blocks[i].height as int,
            v.blocks[i].data,
        )
    &&& forall|r: int| 0 <= r < v.grid_height() ==> #[trigger] spec_row_len(v, r) < 0x100000000
}

/// Compares two byte vectors for equality.
fn bytes_eq(a: &Vec<u8>, b: &Vec<u8>) -> (r: bool)
    ensures
        r == (a@ == b@),
{
    if a.len() != b.len() {
        proof {
            assert(a@.len() != b@.len());
        }
        return false;
    }
    let n = a.len();
    let mut i: usize = 0;
    while i < n
        invariant
            n == a@.len(),
            n == b@.len(),
            i <= n,
            forall|k: int| 0 <= k < i ==> a@[k] == b@[k],
        decreases n - i,
    {
        if a[i] != b[i] {
            return false;
        }
        i = i + 1;
    }
    proof {
        assert(a@ =~= b@);
    }
    true
}

/// The container magic bytes, `"PIXLZR"`.
fn pixlzr_magic_bytes() -> (r: Vec<u8>)
    ensures
        r@ == spec_pixlzr_magic(),
{
    let r: Vec<u8> = vec![80u8, 73u8, 88u8, 76u8, 90u8, 82u8];
    proof {
        assert(r@ =~= spec_pixlzr_magic());
    }
    r
}

/// The block record magic bytes, `"block"`.
fn block_magic_bytes() -> (r: Vec<u8>)
    ensures
        r@ == spec_block_magic(),
{
    let r: Vec<u8> = vec![98u8, 108u8, 111u8, 99u8, 107u8];
    proof {
        assert(r@ =~= spec_block_magic());
    }
    r
}

/// The pixel codec's magic bytes, `"qoif"`.
fn qoi_magic_bytes() -> (r: Vec<u8>)
    ensures
        r@ == spec_qoi_magic(),
{
    let r: Vec<u8> = vec![113u8, 111u8, 105u8, 102u8];
    proof {
        assert(r@ =~= spec_qoi_magic());
    }
    r
}

/// A copy of `v` from position `from` on.
fn vec_suffix(v: &Vec<u8>, from: usize) -> (r: Vec<u8>)
    requires
        from <= v.len(),
    ensures
        r@ == v@.skip(from as int),
{
    let mut out: Vec<u8> = Vec::new();
    let n = v.len();
    let mut i: usize = from;
    while i < n
        invariant
            from <= i <= n,
            n == v@.len(),
            out@ == v@.subrange(from as int, i as int),
        decreases n - i,
    {
        out.push(v[i]);
        proof {
            assert(out@ =~= v@.subrange(from as int, i + 1));
        }
        i = i + 1;
    }
    proof {
        assert(v@.subrange(from as int, n as int) =~= v@.skip(from as int));
    }
    out
}

/// Encodes one block into a record: magic, stored value (zero when none),
/// payload length, then the pixel codec's stream without its magic bytes.
fn encode_block(block: &PixlzrBlock) -> (r: Result<Bytes, PixlzrError>)
    requires
        block@.wf(),
    ensures
        r is Ok <==> qoi_ok_input(block@.width as int, block@.height as int, block@.data),
        r is Ok ==> r.unwrap().data@ == spec_encoded_block(block@),
        r is Err ==> r.unwrap_err() == PixlzrError::PixelCodec,
{
    let encoded = match qoi_encode(block.as_slice(), block.width(), block.height()) {
        Ok(v) => v,
        Err(e) => {
            return Err(e);
        },
    };
    let mut out = Bytes::reserve(13 + encoded.len());
    out.write_slice(&block_magic_bytes());
    out.write_u32(
        match block.block_value() {
            Some(value) => value,
            None => 0,
        },
    );
    let payload = vec_suffix(&encoded, 4);
    proof {
        assert(payload@ == spec_block_payload(block@));
        assert(payload@.len() < 0x100000000);
    }
    out.write_u32(payload.len() as u32);
    out.write_slice(&payload);
    proof {
        assert(out.data@ =~= spec_encoded_block(block@));
    }
    Ok(out)
}

impl Pixlzr {
    /// Encodes every block, row by row, into one body buffer, and returns the
    /// byte length of each row's records.  Succeeds exactly when every block
    /// is within the pixel codec's limits and every row fits its length
    /// field.
    #[verifier::rlimit(100)]
    fn encode_rows(&self) -> (r: Result<(Bytes, Vec<u32>), PixlzrError>)
        requires
            self@.wf(),
        ensures
            r is Ok <==> spec_encodable(self@),
            r is Ok ==> {
                let (body, row_lens) = r.unwrap();
                &&& body.data@ == spec_blocks_bytes(self@.blocks, 0, self@.blocks.len() as int)
                &&& body.index == body.data@.len()
                &&& row_lens@.len() == self@.grid_height()
                &&& forall|k: int|
                    0 <= k < row_lens@.len() ==> #[trigger] row_lens@[k] == spec_row_len(self@, k)
            },
            r is Err ==> (r.unwrap_err() == PixlzrError::PixelCodec || r.unwrap_err()
                == PixlzrError::RowTooLong),
            r is Err && r.unwrap_err() == PixlzrError::PixelCodec ==> exists|i: int|
                0 <= i < self@.blocks.len() && !qoi_ok_input(
                    (#[trigger] self@.blocks[i]).width as int,
                    self@.blocks[i].height as int,
                    self@.blocks[i].data,
                ),
            r is Err && r.unwrap_err() == PixlzrError::RowTooLong ==> exists|row: int|
                0 <= row < self@.grid_height() && #[trigger] spec_row_len(self@, row)
                    >= 0x100000000,
    {
        let ghost v = self@;
        let cols: u32 = self.block_grid_width();
        let rows: u32 = self.block_grid_height();
        let n = self.blocks.len();
        proof {
            assert(n == v.grid_width() * v.grid_height());
            vstd::arithmetic::mul::lemma_mul_is_commutative(cols as int, rows as int);
        }
        let mut body = Bytes::reserve(0);
        let mut row_lens: Vec<u32> = Vec::new();
        let mut i: usize = 0;
        let mut row: u32 = 0;
        while row < rows
            invariant
                v == self@,
                v.wf(),
                cols == v.grid_width(),
                rows == v.grid_height(),
                n == self.blocks@.len(),
                n as int == cols * rows,
                row <= rows,
                i == row * cols,
                i <= n,
                body.data@ == spec_blocks_bytes(v.blocks, 0, i as int),
                body.index == body.data@.len(),
                row_lens@.len() == row,
                forall|k: int|
                    0 <= k < row ==> #[trigger] row_lens@[k] == spec_row_len(v, k)
                        && spec_row_len(v, k) < 0x100000000,
                forall|k: int|
                    0 <= k < i ==> qoi_ok_input(
                        (#[trigger] v.blocks[k]).width as int,
                        v.blocks[k].height as int,
                        v.blocks[k].data,
                    ),
            decreases rows - row,
        {
            let row_start = body.data.len();
            let ghost row_start_i = i as int;
            let mut col: u32 = 0;
            while col < cols
                invariant
                    v == self@,
                    v.wf(),
                    cols == v.grid_width(),
                    rows == v.grid_height(),
                    n == self.blocks@.len(),
                    n as int == cols * rows,
                    row < rows,
                    col <= cols,
                    i == row * cols + col,
                    row_start_i == row * cols,
                    row_start <= body.data@.len(),
                    body.data@ == spec_blocks_bytes(v.blocks, 0, i as int),
                    body.index == body.data@.len(),
                    row_start == spec_blocks_bytes(v.blocks, 0, row_start_i).len(),
                    forall|k: int|
                        0 <= k < i ==> qoi_ok_input(
                            (#[trigger] v.blocks[k]).width as int,
                            v.blocks[k].height as int,
                            v.blocks[k].data,
                        ),
                decreases cols - col,
            {
                proof {
                    assert((row + 1) * cols <= rows * cols) by {
                        vstd::arithmetic::mul::lemma_mul_inequality(
                            row + 1,
                            rows as int,
                            cols as int,
                        );
                    }
                    assert((row + 1) * cols == row * cols + cols) by {
                        vstd::arithmetic::mul::lemma_mul_is_distributive_add_other_way(
                            cols as int,
                            row as int,
                            1,
                        );
                    }
                    vstd::arithmetic::mul::lemma_mul_is_commutative(cols as int, rows as int);
                    assert(i < n);
                    assert(v.blocks[i as int].wf());
                    assert(v.blocks[i as int] == self.blocks@[i as int]@);
                }
                let record = match encode_block(&self.blocks[i]) {
                    Ok(b) => b,
                    Err(e) => {
                        proof {
                            assert(!qoi_ok_input(
                                v.blocks[i as int].width as int,
                                v.blocks[i as int].height as int,
                                v.blocks[i as int].data,
                            ));
                        }
                        return Err(e);
                    },
                };
                body.write_slice(&record.data);
                proof {
                    lemma_blocks_bytes_concat(v.blocks, 0, i as int, i + 1);
                    assert(spec_blocks_bytes(v.blocks, i + 1, i + 1) =~= Seq::<u8>::empty());
                    assert(spec_blocks_bytes(v.blocks, i as int, i + 1) =~= spec_encoded_block(
                        v.blocks[i as int],
                    ));
                    assert(body.data@ == spec_blocks_bytes(v.blocks, 0, i + 1));
                }
                i = i + 1;
                col = col + 1;
            }
            let row_bytes = body.data.len() - row_start;
            proof {
                assert((row + 1) * cols <= rows * cols) by {
                    vstd::arithmetic::mul::lemma_mul_inequality(row + 1, rows as int, cols as int);
                }
                vstd::arithmetic::mul::lemma_mul_is_commutative(cols as int, rows as int);
                assert((row + 1) * cols == row * cols + cols) by {
                    vstd::arithmetic::mul::lemma_mul_is_distributive_add_other_way(
                        cols as int,
                        row as int,
                        1,
                    );
                }
                lemma_blocks_bytes_concat(v.blocks, 0, row_start_i, i as int);
                assert(row_bytes == spec_blocks_bytes(v.blocks, row_start_i, i as int).len());
                assert(spec_row_len(v, row as int) == spec_blocks_bytes(
                    v.blocks,
                    row_start_i,
                    i as int,
                ).len());
            }
            if row_bytes > 0xFFFFFFFFusize {
                return Err(PixlzrError::RowTooLong);
            }
            row_lens.push(row_bytes as u32);
            row = row + 1;
        }
        proof {
            vstd::arithmetic::mul::lemma_mul_is_commutative(cols as int, rows as int);
            assert(i == n);
            assert forall|r: int| 0 <= r < v.grid_height() implies #[trigger] spec_row_len(v, r)
                < 0x100000000 by {
                assert(row_lens@[r] == spec_row_len(v, r));
            }
            assert(spec_encodable(v));
        }
        Ok((body, row_lens))
    }

    /// Serializes the container: the fixed header, one length per grid row,
    /// then each row's block records in order.  Succeeds exactly when every
    /// block is within the pixel codec's limits and every row fits its
    /// length field.
    pub fn encode_to_vec(&self) -> (r: Result<Vec<u8>, PixlzrError>)
        requires
            self@.wf(),
        ensures
            r is Ok <==> spec_encodable(self@),
            r is Ok ==> r.unwrap()@ == spec_encode(self@),
            r is Err ==> (r.unwrap_err() == PixlzrError::PixelCodec || r.unwrap_err()
                == PixlzrError::RowTooLong),
            r is Err && r.unwrap_err() == PixlzrError::PixelCodec ==> exists|i: int|
                0 <= i < self@.blocks.len() && !qoi_ok_input(
                    (#[trigger] self@.blocks[i]).width as int,
                    self@.blocks[i].height as int,
                    self@.blocks[i].data,
                ),
            r is Err && r.unwrap_err() == PixlzrError::RowTooLong ==> exists|row: int|
                0 <= row < self@.grid_height() && #[trigger] spec_row_len(self@, row)
                    >= 0x100000000,
    {
        let ghost v = self@;
        let (body, row_lens) = match self.encode_rows() {
            Ok(pair) => pair,
            Err(e) => {
                return Err(e);
            },
        };
        let rows = row_lens.len();
        let mut out = Bytes::reserve(body.data.len());
        out.write_slice(&pixlzr_magic_bytes());
        let version: Vec<u8> = vec![0u8, 0u8, 2u8];
        proof {
            assert(version@ =~= spec_version_bytes());
        }
        out.write_slice(&version);
        out.write_u8(
            match self.filter {
                None => 0,
                Some(f) => filter_to_u8(f),
            },
        );
        out.write_u32(self.width);
        out.write_u32(self.height);
        out.write_u32(self.block_width);
        out.write_u32(self.block_height);
        proof {
            assert(out.data@ =~= spec_header(v));
        }
        let mut k: usize = 0;
        while k < rows
            invariant
                v == self@,
                rows == v.grid_height(),
                row_lens@.len() == rows,
                forall|m: int| 0 <= m < rows ==> #[trigger] row_lens@[m] == spec_row_len(v, m),
                k <= rows,
                out.data@ == spec_header(v) + spec_row_table_from(v, 0, k as int),
                out.index == out.data@.len(),
            decreases rows - k,
        {
            out.write_u32(row_lens[k]);
            proof {
                lemma_row_table_snoc(v, 0, k as int);
                assert(spec_u32_to_be(row_lens@[k as int]) == spec_u32_to_be(
                    spec_row_len(v, k as int) as u32,
                ));
                assert(out.data@ =~= spec_header(v) + spec_row_table_from(v, 0, k + 1));
            }
            k = k + 1;
        }
        out.write_slice(&body.data);
        proof {
            assert(out.data@ =~= spec_encode(v));
        }
        Ok(out.data)
    }
}


/// Reads one big-endian `u32`, or fails when fewer than four bytes remain.
fn try_read_u32(b: &mut Bytes) -> (r: Result<u32, PixlzrError>)
    requires
        old(b).index <= old(b).data.len(),
    ensures
        final(b).data@ == old(b).data@,
        final(b).index <= final(b).data@.len(),
        r is Ok <==> old(b).index + 4 <= old(b).data@.len(),
        r is Ok ==> final(b).index == old(b).index + 4 && r.unwrap() == spec_u32_of_be(
            old(b).data@.subrange(old(b).index as int, old(b).index + 4),
        ),
        r is Err ==> final(b).index == old(b).index && r.unwrap_err() == PixlzrError::Truncated,
{
    if b.data.len() - b.index < 4 {
        return Err(PixlzrError::Truncated);
    }
    Ok(b.read_u32())
}

/// The concatenation of `a` and `b`.
fn vec_concat(a: Vec<u8>, b: &Vec<u8>) -> (r: Vec<u8>)
    ensures
        r@ == a@ + b@,
{
    let ghost av = a@;
    let mut out = a;
    let n = b.len();
    let mut i: usize = 0;
    while i < n
        invariant
            n == b@.len(),
            i <= n,
            out@ == av + b@.subrange(0, i as int),
        decreases n - i,
    {
        out.push(b[i]);
        proof {
            assert(out@ =~= av + b@.subrange(0, i + 1));
        }
        i = i + 1;
    }
    proof {
        assert(av + b@.subrange(0, n as int) =~= av + b@);
    }
    out
}

/// The conditions under which one block record parses back to exactly the
/// block it was made from: a well-formed block within the pixel codec's
/// limits, carrying a stored detail value, whose payload fits its length
/// field.
pub open spec fn spec_block_roundtrip_input(b: BlockView) -> bool {
    &&& b.wf()
    &&& b.block_value is Some
    &&& qoi_ok_input(b.width as int, b.height as int, b.data)
    &&& spec_block_payload(b).len() < 0x100000000
}

/// Parses one block record at the cursor: the block magic, the stored detail
/// value, the payload length, then the payload handed (with the pixel codec's
/// magic restored) to the external codec.  Any record that encode_block made
/// from a block within the codec's limits parses back to exactly that block.
#[verifier::rlimit(100)]
fn decode_block(reader: &mut Bytes) -> (r: Result<PixlzrBlock, PixlzrError>)
    requires
        old(reader).index <= old(reader).data.len(),
    ensures
        final(reader).data@ == old(reader).data@,
        final(reader).index <= final(reader).data@.len(),
        r is Ok ==> final(reader).index > old(reader).index,
        r is Ok ==> r.unwrap()@.wf() && r.unwrap()@.block_value is Some,
        forall|b: BlockView|
            {
                &&& spec_block_roundtrip_input(b)
                &&& old(reader).index + #[trigger] spec_encoded_block(b).len() <= old(
                    reader,
                ).data@.len()
                &&& old(reader).data@.subrange(
                    old(reader).index as int,
                    old(reader).index + spec_encoded_block(b).len(),
                ) == spec_encoded_block(b)
            } ==> {
                &&& r is Ok
                &&& r.unwrap()@ == b
                &&& final(reader).index == old(reader).index + spec_encoded_block(b).len()
            },
{
    let ghost start = old(reader).index as int;
    let ghost data = old(reader).data@;
    let magic = match reader.read_slice(5) {
        Some(m) => m,
        None => {
            proof {
                assert forall|b: BlockView|
                    {
                        &&& spec_block_roundtrip_input(b)
                        &&& start + #[trigger] spec_encoded_block(b).len() <= data.len()
                        &&& data.subrange(start, start + spec_encoded_block(b).len())
                            == spec_encoded_block(b)
                    } implies false by {
                    assert(spec_encoded_block(b).len() >= 13);
                }
            }
            return Err(PixlzrError::Truncated);
        },
    };
    if !bytes_eq(&magic, &block_magic_bytes()) {
        proof {
            assert forall|b: BlockView|
                {
                    &&& spec_block_roundtrip_input(b)
                    &&& start + #[trigger] spec_encoded_block(b).len() <= data.len()
                    &&& data.subrange(start, start + spec_encoded_block(b).len())
                        == spec_encoded_block(b)
                } implies false by {
                assert(magic@ =~= spec_block_magic()) by {
                    let eb = spec_encoded_block(b);
                    assert(data.subrange(start, start + eb.len()) == eb);
                    assert forall|k: int| 0 <= k < 5 implies magic@[k] == spec_block_magic()[k] by {
                        assert(eb[k] == spec_block_magic()[k]);
                        assert(magic@[k] == data[start + k]);
                        assert(data[start + k] == eb[k]);
                    }
                }
            }
        }
        return Err(PixlzrError::BadBlockMagic);
    }
    let value_bits = match try_read_u32(reader) {
        Ok(n) => n,
        Err(e) => {
            proof {
                assert forall|b: BlockView|
                    {
                        &&& spec_block_roundtrip_input(b)
                        &&& start + #[trigger] spec_encoded_block(b).len() <= data.len()
                        &&& data.subrange(start, start + spec_encoded_block(b).len())
                            == spec_encoded_block(b)
                    } implies false by {
                    assert(spec_encoded_block(b).len() >= 13);
                }
            }
            return Err(e);
        },
    };
    let payload_len = match try_read_u32(reader) {
        Ok(n) => n,
        Err(e) => {
            proof {
                assert forall|b: BlockView|
                    {
                        &&& spec_block_roundtrip_input(b)
                        &&& start + #[trigger] spec_encoded_block(b).len() <= data.len()
                        &&& data.subrange(start, start + spec_encoded_block(b).len())
                            == spec_encoded_block(b)
                    } implies false by {
                    assert(spec_encoded_block(b).len() >= 13);
                }
            }
            return Err(e);
        },
    };
    let ghost mid = reader.index as int;
    proof {
        assert(mid == start + 13);
    }
    let payload = match reader.read_slice(payload_len as usize) {
        Some(p) => p,
        None => {
            proof {
                assert forall|b: BlockView|
                    {
                        &&& spec_block_roundtrip_input(b)
                        &&& start + #[trigger] spec_encoded_block(b).len() <= data.len()
                        &&& data.subrange(start, start + spec_encoded_block(b).len())
                            == spec_encoded_block(b)
                    } implies false by {
                    lemma_record_parts(data, start, b);
                    lemma_u32_be_roundtrip(spec_block_payload(b).len() as u32);
                    assert(payload_len == spec_block_payload(b).len());
                }
            }
            return Err(PixlzrError::Truncated);
        },
    };
    let stream = vec_concat(qoi_magic_bytes(), &payload);
    let (w, h, ch, pix) = match qoi_decode(&stream) {
        Ok(t) => t,
        Err(e) => {
            proof {
                assert forall|b: BlockView|
                    {
                        &&& spec_block_roundtrip_input(b)
                        &&& start + #[trigger] spec_encoded_block(b).len() <= data.len()
                        &&& data.subrange(start, start + spec_encoded_block(b).len())
                            == spec_encoded_block(b)
                    } implies false by {
                    lemma_record_parts(data, start, b);
                    lemma_u32_be_roundtrip(spec_block_payload(b).len() as u32);
                    assert(payload_len == spec_block_payload(b).len());
                    assert(payload@ == spec_block_payload(b));
                    assert(stream@ == spec_qoi_magic() + qoi_encoding_of(
                        b.width as int,
                        b.height as int,
                        b.data,
                    ).skip(4));
                }
            }
            return Err(e);
        },
    };
    let alpha = ch == 4;
    let block = PixlzrBlock::Raw(
        PixlzrBlockRaw {
            width: w,
            height: h,
            block_value: Some(value_bits),
            data: RawImage { alpha, data: pix },
        },
    );
    proof {
        assert(w as int * h as int >= 1);
        assert(w >= 1 && h >= 1) by (nonlinear_arith)
            requires (w as int) * (h as int) >= 1;
        assert(block@.wf());
        assert forall|b: BlockView|
            {
                &&& spec_block_roundtrip_input(b)
                &&& start + #[trigger] spec_encoded_block(b).len() <= data.len()
                &&& data.subrange(start, start + spec_encoded_block(b).len())
                    == spec_encoded_block(b)
            } implies block@ == b && value_bits == spec_value_bits(b) && reader.index == start
            + spec_encoded_block(b).len() by {
            lemma_record_parts(data, start, b);
            lemma_u32_be_roundtrip(spec_value_bits(b));
            lemma_u32_be_roundtrip(spec_block_payload(b).len() as u32);
            assert(value_bits == spec_value_bits(b));
            assert(payload_len == spec_block_payload(b).len());
            assert(payload@ == spec_block_payload(b));
            assert(stream@ == spec_qoi_magic() + qoi_encoding_of(
                b.width as int,
                b.height as int,
                b.data,
            ).skip(4));
            assert(w as int == b.width && h as int == b.height && pix@ == b.data);
            assert(b.data.len() == b.width * b.height * b.channels());
            if b.alpha {
                assert(ch == 4);
            } else {
                assert(b.data.len() == b.width as int * b.height as int * 3);
                assert(b.width as int * b.height as int * 3 < b.width as int * b.height as int
                    * 4) by (nonlinear_arith)
                    requires (b.width as int) * (b.height as int) >= 1;
                assert(ch == 3);
            }
            assert(block@ =~= b);
        }
    }
    Ok(block)
}

/// How the pieces of one block record sit inside a buffer that holds the
/// record at `start`.
proof fn lemma_record_parts(data: Seq<u8>, start: int, b: BlockView)
    requires
        0 <= start,
        start + spec_encoded_block(b).len() <= data.len(),
        data.subrange(start, start + spec_encoded_block(b).len()) == spec_encoded_block(b),
    ensures
        spec_encoded_block(b).len() == 13 + spec_block_payload(b).len(),
        data.subrange(start, start + 5) == spec_block_magic(),
        data.subrange(start + 5, start + 9) == spec_u32_to_be(spec_value_bits(b)),
        data.subrange(start + 9, start + 13) == spec_u32_to_be(spec_block_payload(b).len() as u32),
        data.subrange(start + 13, start + 13 + spec_block_payload(b).len() as int)
            == spec_block_payload(b),
{
    let eb = spec_encoded_block(b);
    let p = spec_block_payload(b);
    assert(eb.len() == 13 + p.len());
    assert forall|k: int| 0 <= k < eb.len() implies data[start + k] == #[trigger] eb[k] by {
        assert(data.subrange(start, start + eb.len())[k] == eb[k]);
    }
    assert(data.subrange(start, start + 5) =~= spec_block_magic()) by {
        assert forall|k: int| 0 <= k < 5 implies data[start + k] == #[trigger] spec_block_magic()[k]
            by {
            assert(eb[k] == spec_block_magic()[k]);
        }
    }
    assert(data.subrange(start + 5, start + 9) =~= spec_u32_to_be(spec_value_bits(b))) by {
        assert forall|k: int| 0 <= k < 4 implies data[start + 5 + k] == #[trigger] spec_u32_to_be(
            spec_value_bits(b),
        )[k] by {
            assert(eb[5 + k] == spec_u32_to_be(spec_value_bits(b))[k]);
            assert(data[start + (5 + k)] == eb[5 + k]);
        }
    }
    assert(data.subrange(start + 9, start + 13) =~= spec_u32_to_be(p.len() as u32)) by {
        assert forall|k: int| 0 <= k < 4 implies data[start + 9 + k] == #[trigger] spec_u32_to_be(
            p.len() as u32,
        )[k] by {
            assert(eb[9 + k] == spec_u32_to_be(p.len() as u32)[k]);
            assert(data[start + (9 + k)] == eb[9 + k]);
        }
    }
    assert(data.subrange(start + 13, start + 13 + p.len() as int) =~= p) by {
        assert forall|k: int| 0 <= k < p.len() implies data[start + 13 + k] == #[trigger] p[k] by {
            assert(eb[13 + k] == p[k]);
            assert(data[start + (13 + k)] == eb[13 + k]);
        }
    }
}


/// The containers whose encoding decodes back to exactly themselves: well
/// formed, within the encoder's limits, and every block already carrying a
/// stored detail value.
pub open spec fn spec_roundtrip_input(v: ContainerView) -> bool {
    &&& v.wf()
    &&& spec_encodable(v)
    &&& forall|i: int| 0 <= i < v.blocks.len() ==> (#[trigger] v.blocks[i]).block_value is Some
}

/// `bytes` is the encoding of the round-trippable container `v`.
pub open spec fn spec_matches(v: ContainerView, bytes: Seq<u8>) -> bool {
    spec_roundtrip_input(v) && bytes == spec_encode(v)
}

/// Where each header field sits in an encoded container, and that the block
/// records make up everything after the row table.
proof fn lemma_encode_layout(v: ContainerView)
    requires
        v.block_width >= 1,
        v.block_height >= 1,
    ensures
        v.grid_height() >= 0,
        v.grid_width() >= 0,
        spec_encode(v).len() == 26 + 4 * v.grid_height() + spec_blocks_bytes(
            v.blocks,
            0,
            v.blocks.len() as int,
        ).len(),
        spec_encode(v).subrange(0, 6) == spec_pixlzr_magic(),
        spec_encode(v).subrange(6, 9) == spec_version_bytes(),
        spec_encode(v)[9] == spec_filter_byte(v.filter),
        spec_encode(v).subrange(10, 14) == spec_u32_to_be(v.width),
        spec_encode(v).subrange(14, 18) == spec_u32_to_be(v.height),
        spec_encode(v).subrange(18, 22) == spec_u32_to_be(v.block_width),
        spec_encode(v).subrange(22, 26) == spec_u32_to_be(v.block_height),
        spec_encode(v).skip(26 + 4 * v.grid_height()) == spec_blocks_bytes(
            v.blocks,
            0,
            v.blocks.len() as int,
        ),
{
    lemma_ceil_div(v.width as int, v.block_width as int);
    lemma_ceil_div(v.height as int, v.block_height as int);
    let hd = spec_header(v);
    let tb = spec_row_table_from(v, 0, v.grid_height());
    let body = spec_blocks_bytes(v.blocks, 0, v.blocks.len() as int);
    lemma_row_table_len(v, 0, v.grid_height());
    assert(hd.len() == 26);
    assert(spec_encode(v).subrange(0, 6) =~= spec_pixlzr_magic());
    assert(spec_encode(v).subrange(6, 9) =~= spec_version_bytes());
    assert(spec_encode(v)[9] == spec_filter_byte(v.filter));
    assert(spec_encode(v).subrange(10, 14) =~= spec_u32_to_be(v.width));
    assert(spec_encode(v).subrange(14, 18) =~= spec_u32_to_be(v.height));
    assert(spec_encode(v).subrange(18, 22) =~= spec_u32_to_be(v.block_width));
    assert(spec_encode(v).subrange(22, 26) =~= spec_u32_to_be(v.block_height));
    assert(spec_encode(v).skip(26 + 4 * v.grid_height()) =~= body);
}

/// Each row-table entry holds its row's byte length, big-endian, four bytes
/// per entry from the start of the table.
proof fn lemma_table_index(v: ContainerView, from: int, nrows: int, rr: int)
    requires
        from <= rr < nrows,
    ensures
        spec_row_table_from(v, from, nrows).subrange(4 * (rr - from), 4 * (rr - from) + 4)
            == spec_u32_to_be(spec_row_len(v, rr) as u32),
    decreases rr - from,
{
    lemma_row_table_len(v, from, nrows);
    lemma_row_table_len(v, from + 1, nrows);
    if rr == from {
        assert(spec_row_table_from(v, from, nrows).subrange(0, 4) =~= spec_u32_to_be(
            spec_row_len(v, rr) as u32,
        ));
    } else {
        lemma_table_index(v, from + 1, nrows, rr);
        let rest = spec_row_table_from(v, from + 1, nrows);
        let d = rr - from;
        assert(spec_row_table_from(v, from, nrows).subrange(4 * d, 4 * d + 4) =~= spec_u32_to_be(
            spec_row_len(v, rr) as u32,
        )) by {
            assert forall|k: int| 0 <= k < 4 implies spec_row_table_from(v, from, nrows)[4 * d + k]
                == #[trigger] spec_u32_to_be(spec_row_len(v, rr) as u32)[k] by {
                assert(spec_row_table_from(v, from, nrows)[4 * d + k] == rest[4 * d + k - 4]);
                assert(4 * d + k - 4 == 4 * (rr - (from + 1)) + k);
                assert(rest.subrange(4 * (rr - (from + 1)), 4 * (rr - (from + 1)) + 4)[k]
                    == rest[4 * (rr - (from + 1)) + k]);
            }
        }
    }
}

/// The four table-entry bytes for row `rr` sit at offset `26 + 4 * rr` of an
/// encoded container.
proof fn lemma_table_entry(v: ContainerView, rr: int)
    requires
        v.block_width >= 1,
        v.block_height >= 1,
        0 <= rr < v.grid_height(),
    ensures
        spec_encode(v).subrange(26 + 4 * rr, 26 + 4 * rr + 4) == spec_u32_to_be(
            spec_row_len(v, rr) as u32,
        ),
{
    lemma_encode_layout(v);
    lemma_table_index(v, 0, v.grid_height(), rr);
    lemma_row_table_len(v, 0, v.grid_height());
    let tb = spec_row_table_from(v, 0, v.grid_height());
    assert(spec_encode(v).subrange(26 + 4 * rr, 26 + 4 * rr + 4) =~= spec_u32_to_be(
        spec_row_len(v, rr) as u32,
    )) by {
        assert forall|k: int| 0 <= k < 4 implies spec_encode(v)[26 + 4 * rr + k]
            == #[trigger] spec_u32_to_be(spec_row_len(v, rr) as u32)[k] by {
            assert(spec_encode(v)[26 + 4 * rr + k] == tb[4 * rr + k]);
            assert(tb.subrange(4 * rr, 4 * rr + 4)[k] == tb[4 * rr + k]);
        }
    }
}


/// In an encoded container, the bytes of grid row `rr` sit right after the
/// rows before it, and everything fits inside the buffer.
proof fn lemma_decode_row_window(v: ContainerView, rr: int, rs: int)
    requires
        spec_roundtrip_input(v),
        0 <= rr < v.grid_height(),
        rs == rr * v.grid_width(),
    ensures
        0 <= rs,
        rs + v.grid_width() <= v.blocks.len(),
        spec_row_len(v, rr) == spec_blocks_bytes(v.blocks, rs, rs + v.grid_width()).len(),
        spec_encode(v).len() == 26 + 4 * v.grid_height() + spec_blocks_bytes(
            v.blocks,
            0,
            v.blocks.len() as int,
        ).len(),
        26 + 4 * v.grid_height() + spec_blocks_bytes(v.blocks, 0, rs).len() + spec_row_len(v, rr)
            <= spec_encode(v).len(),
        spec_encode(v).subrange(
            26 + 4 * v.grid_height() + spec_blocks_bytes(v.blocks, 0, rs).len(),
            26 + 4 * v.grid_height() + spec_blocks_bytes(v.blocks, 0, rs).len() + spec_row_len(
                v,
                rr,
            ),
        ) == spec_blocks_bytes(v.blocks, rs, rs + v.grid_width()),
{
    let gw = v.grid_width();
    let gh = v.grid_height();
    let n = v.blocks.len() as int;
    lemma_encode_layout(v);
    assert(0 <= rs) by {
        vstd::arithmetic::mul::lemma_mul_inequality(0, rr, gw);
    }
    assert(rs + gw <= n) by {
        assert((rr + 1) * gw <= gh * gw) by {
            vstd::arithmetic::mul::lemma_mul_inequality(rr + 1, gh, gw);
        }
        assert((rr + 1) * gw == rr * gw + gw) by {
            vstd::arithmetic::mul::lemma_mul_is_distributive_add_other_way(gw, rr, 1);
        }
        vstd::arithmetic::mul::lemma_mul_is_commutative(gh, gw);
    }
    assert((rr + 1) * gw == rs + gw) by {
        vstd::arithmetic::mul::lemma_mul_is_distributive_add_other_way(gw, rr, 1);
    }
    lemma_blocks_bytes_concat(v.blocks, 0, rs, n);
    lemma_blocks_bytes_concat(v.blocks, rs, rs + gw, n);
    let pre = spec_blocks_bytes(v.blocks, 0, rs);
    let rowb = spec_blocks_bytes(v.blocks, rs, rs + gw);
    let post = spec_blocks_bytes(v.blocks, rs + gw, n);
    assert(spec_blocks_bytes(v.blocks, 0, n) == pre + (rowb + post));
    let base = 26 + 4 * gh;
    assert(spec_encode(v).subrange(base + pre.len(), base + pre.len() + rowb.len()) =~= rowb) by {
        assert forall|k: int| 0 <= k < rowb.len() implies spec_encode(v)[base + pre.len() + k]
            == #[trigger] rowb[k] by {
            assert(spec_encode(v).skip(base) == spec_blocks_bytes(v.blocks, 0, n));
            assert(spec_encode(v).skip(base)[pre.len() + k] == spec_encode(v)[base + pre.len()
                + k]);
            assert(spec_blocks_bytes(v.blocks, 0, n)[pre.len() + k] == (pre + (rowb + post))[
                pre.len() + k]);
            assert((pre + (rowb + post))[pre.len() + k] == (rowb + post)[k]);
        }
    }
}

/// Inside one row's bytes, the record of the block in column `c` sits right
/// after the records before it, within the pixel codec's limits.
proof fn lemma_decode_block_window(
    v: ContainerView,
    rs: int,
    c: int,
    gw: int,
    rr: int,
    rowdata: Seq<u8>,
    idx: int,
)
    requires
        spec_roundtrip_input(v),
        gw == v.grid_width(),
        0 <= rr < v.grid_height(),
        rs == rr * gw,
        0 <= c < gw,
        rowdata == spec_blocks_bytes(v.blocks, rs, rs + gw),
        idx == spec_blocks_bytes(v.blocks, rs, rs + c).len(),
    ensures
        0 <= rs + c < v.blocks.len(),
        spec_block_roundtrip_input(v.blocks[rs + c]),
        idx + spec_encoded_block(v.blocks[rs + c]).len() <= rowdata.len(),
        rowdata.subrange(idx, idx + spec_encoded_block(v.blocks[rs + c]).len())
            == spec_encoded_block(v.blocks[rs + c]),
{
    let gh = v.grid_height();
    let n = v.blocks.len() as int;
    lemma_ceil_div(v.width as int, v.block_width as int);
    lemma_ceil_div(v.height as int, v.block_height as int);
    assert(0 <= rs) by {
        vstd::arithmetic::mul::lemma_mul_inequality(0, rr, gw);
    }
    assert(rs + gw <= n) by {
        assert((rr + 1) * gw <= gh * gw) by {
            vstd::arithmetic::mul::lemma_mul_inequality(rr + 1, gh, gw);
        }
        assert((rr + 1) * gw == rr * gw + gw) by {
            vstd::arithmetic::mul::lemma_mul_is_distributive_add_other_way(gw, rr, 1);
        }
        vstd::arithmetic::mul::lemma_mul_is_commutative(gh, gw);
    }
    assert((rr + 1) * gw == rs + gw) by {
        vstd::arithmetic::mul::lemma_mul_is_distributive_add_other_way(gw, rr, 1);
    }
    let i = rs + c;
    assert(v.blocks[i].wf());
    assert(v.blocks[i].block_value is Some);
    assert(qoi_ok_input(v.blocks[i].width as int, v.blocks[i].height as int, v.blocks[i].data));
    lemma_blocks_bytes_concat(v.blocks, rs, i, rs + gw);
    lemma_blocks_bytes_concat(v.blocks, i, i + 1, rs + gw);
    assert(spec_blocks_bytes(v.blocks, i + 1, i + 1) =~= Seq::<u8>::empty());
    assert(spec_blocks_bytes(v.blocks, i, i + 1) =~= spec_encoded_block(v.blocks[i]));
    let pre = spec_blocks_bytes(v.blocks, rs, i);
    let eb = spec_encoded_block(v.blocks[i]);
    let post = spec_blocks_bytes(v.blocks, i + 1, rs + gw);
    assert(rowdata == pre + (eb + post));
    assert(eb.len() == 13 + spec_block_payload(v.blocks[i]).len());
    assert(spec_row_len(v, rr) < 0x100000000);
    assert(rowdata.len() == spec_row_len(v, rr));
    assert(spec_block_payload(v.blocks[i]).len() < 0x100000000);
    assert(rowdata.subrange(idx, idx + eb.len()) =~= eb) by {
        assert forall|k: int| 0 <= k < eb.len() implies rowdata[idx + k] == #[trigger] eb[k] by {
            assert(rowdata[idx + k] == (pre + (eb + post))[pre.len() + k]);
            assert((pre + (eb + post))[pre.len() + k] == (eb + post)[k]);
        }
    }
}


/// Inside a buffer holding the records of blocks `rs ..= rs + count - 1` at
/// `base`, the record of block `rs + c` sits right after the records before
/// it.
proof fn lemma_blocks_window(
    bs: Seq<BlockView>,
    rs: int,
    c: int,
    count: int,
    base: int,
    data: Seq<u8>,
)
    requires
        0 <= rs,
        0 <= c < count,
        rs + count <= bs.len(),
        0 <= base,
        base + spec_blocks_bytes(bs, rs, rs + count).len() <= data.len(),
        data.subrange(base, base + spec_blocks_bytes(bs, rs, rs + count).len())
            == spec_blocks_bytes(bs, rs, rs + count),
    ensures
        spec_blocks_bytes(bs, rs, rs + c).len() + spec_encoded_block(bs[rs + c]).len()
            <= spec_blocks_bytes(bs, rs, rs + count).len(),
        data.subrange(
            base + spec_blocks_bytes(bs, rs, rs + c).len(),
            base + spec_blocks_bytes(bs, rs, rs + c).len() + spec_encoded_block(bs[rs + c]).len(),
        ) == spec_encoded_block(bs[rs + c]),
        spec_blocks_bytes(bs, rs, rs + c + 1).len() == spec_blocks_bytes(bs, rs, rs + c).len()
            + spec_encoded_block(bs[rs + c]).len(),
{
    let i = rs + c;
    lemma_blocks_bytes_concat(bs, rs, i, rs + count);
    lemma_blocks_bytes_concat(bs, i, i + 1, rs + count);
    lemma_blocks_bytes_concat(bs, rs, i, i + 1);
    assert(spec_blocks_bytes(bs, i + 1, i + 1) =~= Seq::<u8>::empty());
    assert(spec_blocks_bytes(bs, i, i + 1) =~= spec_encoded_block(bs[i]));
    let pre = spec_blocks_bytes(bs, rs, i);
    let eb = spec_encoded_block(bs[i]);
    let post = spec_blocks_bytes(bs, i + 1, rs + count);
    assert(spec_blocks_bytes(bs, rs, rs + count) == pre + (eb + post));
    assert(data.subrange(base + pre.len(), base + pre.len() + eb.len()) =~= eb) by {
        assert forall|k: int| 0 <= k < eb.len() implies data[base + pre.len() + k]
            == #[trigger] eb[k] by {
            assert(data.subrange(base, base + spec_blocks_bytes(bs, rs, rs + count).len())[pre.len()
                + k] == data[base + pre.len() + k]);
            assert((pre + (eb + post))[pre.len() + k] == (eb + post)[k]);
        }
    }
}

/// Reads `rows` four-byte big-endian table entries.
fn decode_table(reader: &mut Bytes, rows: u32) -> (r: Result<Vec<u32>, PixlzrError>)
    requires
        old(reader).index <= old(reader).data.len(),
    ensures
        final(reader).data@ == old(reader).data@,
        final(reader).index <= final(reader).data@.len(),
        r is Ok <==> old(reader).index + 4 * (rows as int) <= old(reader).data@.len(),
        r is Ok ==> {
            &&& final(reader).index == old(reader).index + 4 * (rows as int)
            &&& r.unwrap()@.len() == rows
            &&& forall|k: int|
                0 <= k < rows ==> #[trigger] r.unwrap()@[k] == spec_u32_of_be(
                    old(reader).data@.subrange(
                        old(reader).index + 4 * k,
                        old(reader).index + 4 * k + 4,
                    ),
                )
        },
        r is Err ==> r.unwrap_err() == PixlzrError::Truncated,
{
    let mut out: Vec<u32> = Vec::new();
    let mut t: u32 = 0;
    while t < rows
        invariant
            reader.data@ == old(reader).data@,
            reader.index <= reader.data.len(),
            t <= rows,
            out@.len() == t,
            reader.index == old(reader).index + 4 * t,
            forall|k: int|
                0 <= k < t ==> #[trigger] out@[k] == spec_u32_of_be(
                    old(reader).data@.subrange(
                        old(reader).index + 4 * k,
                        old(reader).index + 4 * k + 4,
                    ),
                ),
        decreases rows - t,
    {
        let entry = match try_read_u32(reader) {
            Ok(n) => n,
            Err(e) => {
                return Err(e);
            },
        };
        out.push(entry);
        t = t + 1;
    }
    Ok(out)
}

/// Reads `count` block records in sequence.  The records of any run of
/// round-trippable blocks parse back to exactly those blocks.
fn decode_row_blocks(reader: &mut Bytes, count: u32) -> (r: Result<Vec<PixlzrBlock>, PixlzrError>)
    requires
        old(reader).index <= old(reader).data.len(),
    ensures
        final(reader).data@ == old(reader).data@,
        final(reader).index <= final(reader).data@.len(),
        r is Ok ==> r.unwrap()@.len() == count && (forall|k: int|
            0 <= k < count ==> (#[trigger] r.unwrap()@[k])@.wf()
                && r.unwrap()@[k]@.block_value is Some),
        forall|bs: Seq<BlockView>, rs: int|
            {
                &&& 0 <= rs
                &&& rs + count <= bs.len()
                &&& (forall|j: int|
                    rs <= j < rs + count ==> spec_block_roundtrip_input(#[trigger] bs[j]))
                &&& old(reader).index + #[trigger] spec_blocks_bytes(
                    bs,
                    rs,
                    rs + count as int,
                ).len() <= old(reader).data@.len()
                &&& old(reader).data@.subrange(
                    old(reader).index as int,
                    old(reader).index + spec_blocks_bytes(bs, rs, rs + count as int).len(),
                ) == spec_blocks_bytes(bs, rs, rs + count as int)
            } ==> {
                &&& r is Ok
                &&& (forall|j: int| 0 <= j < count ==> (#[trigger] r.unwrap()@[j])@ == bs[rs + j])
                &&& final(reader).index == old(reader).index + spec_blocks_bytes(
                    bs,
                    rs,
                    rs + count as int,
                ).len()
            },
{
    let mut out: Vec<PixlzrBlock> = Vec::new();
    let mut c: u32 = 0;
    while c < count
        invariant
            reader.data@ == old(reader).data@,
            reader.index <= reader.data.len(),
            c <= count,
            out@.len() == c,
            reader.index >= old(reader).index,
            forall|k: int|
                0 <= k < c ==> (#[trigger] out@[k])@.wf() && out@[k]@.block_value is Some,
            forall|bs: Seq<BlockView>, rs: int|
                {
                    &&& 0 <= rs
                    &&& rs + count <= bs.len()
                    &&& (forall|j: int|
                        rs <= j < rs + count ==> spec_block_roundtrip_input(#[trigger] bs[j]))
                    &&& old(reader).index + #[trigger] spec_blocks_bytes(
                        bs,
                        rs,
                        rs + count as int,
                    ).len() <= old(reader).data@.len()
                    &&& old(reader).data@.subrange(
                        old(reader).index as int,
                        old(reader).index + spec_blocks_bytes(bs, rs, rs + count as int).len(),
                    ) == spec_blocks_bytes(bs, rs, rs + count as int)
                } ==> {
                    &&& (forall|j: int| 0 <= j < c ==> (#[trigger] out@[j])@ == bs[rs + j])
                    &&& reader.index == old(reader).index + spec_blocks_bytes(
                        bs,
                        rs,
                        rs + c as int,
                    ).len()
                },
        decreases count - c,
    {
        let block = match decode_block(reader) {
            Ok(b) => b,
            Err(e) => {
                proof {
                    assert forall|bs: Seq<BlockView>, rs: int|
                        {
                            &&& 0 <= rs
                            &&& rs + count <= bs.len()
                            &&& (forall|j: int|
                                rs <= j < rs + count ==> spec_block_roundtrip_input(
                                    #[trigger] bs[j],
                                ))
                            &&& old(reader).index + #[trigger] spec_blocks_bytes(
                                bs,
                                rs,
                                rs + count as int,
                            ).len() <= old(reader).data@.len()
                            &&& old(reader).data@.subrange(
                                old(reader).index as int,
                                old(reader).index + spec_blocks_bytes(
                                    bs,
                                    rs,
                                    rs + count as int,
                                ).len(),
                            ) == spec_blocks_bytes(bs, rs, rs + count as int)
                        } implies false by {
                        lemma_blocks_window(
                            bs,
                            rs,
                            c as int,
                            count as int,
                            old(reader).index as int,
                            old(reader).data@,
                        );
                        assert(spec_block_roundtrip_input(bs[rs + c]));
                    }
                }
                return Err(e);
            },
        };
        out.push(block);
        proof {
            assert forall|bs: Seq<BlockView>, rs: int|
                {
                    &&& 0 <= rs
                    &&& rs + count <= bs.len()
                    &&& (forall|j: int|
                        rs <= j < rs + count ==> spec_block_roundtrip_input(#[trigger] bs[j]))
                    &&& old(reader).index + #[trigger] spec_blocks_bytes(
                        bs,
                        rs,
                        rs + count as int,
                    ).len() <= old(reader).data@.len()
                    &&& old(reader).data@.subrange(
                        old(reader).index as int,
                        old(reader).index + spec_blocks_bytes(bs, rs, rs + count as int).len(),
                    ) == spec_blocks_bytes(bs, rs, rs + count as int)
                } implies (forall|j: int| 0 <= j < c + 1 ==> (#[trigger] out@[j])@ == bs[rs + j])
                && reader.index == old(reader).index + spec_blocks_bytes(
                bs,
                rs,
                rs + c + 1,
            ).len() by {
                lemma_blocks_window(
                    bs,
                    rs,
                    c as int,
                    count as int,
                    old(reader).index as int,
                    old(reader).data@,
                );
                assert(spec_block_roundtrip_input(bs[rs + c]));
                assert(block@ == bs[rs + c]);
            }
        }
        c = c + 1;
    }
    Ok(out)
}

/// Parses the fixed header: magic, version, the version-gated filter tag,
/// image dimensions and block dimensions, rejecting a zero block size.  Also
/// answers whether this container version carries the per-row length table.
fn decode_header(reader: &mut Bytes) -> (r: Result<
    (u32, u32, u32, u32, Option<FilterType>, bool),
    PixlzrError,
>)
    requires
        old(reader).index == 0,
        old(reader).index <= old(reader).data.len(),
    ensures
        final(reader).data@ == old(reader).data@,
        final(reader).index <= final(reader).data@.len(),
        r is Ok ==> r.unwrap().2 >= 1 && r.unwrap().3 >= 1,
        forall|v: ContainerView| #[trigger] spec_matches(v, old(reader).data@) ==> {
            &&& r is Ok
            &&& r.unwrap().0 == v.width
            &&& r.unwrap().1 == v.height
            &&& r.unwrap().2 == v.block_width
            &&& r.unwrap().3 == v.block_height
            &&& r.unwrap().4 == v.filter
            &&& r.unwrap().5 == true
            &&& final(reader).index == 26
        },
{
    let ghost data0 = old(reader).data@;
    let magic = match reader.read_slice(6) {
        Some(m) => m,
        None => {
            proof {
                assert forall|v: ContainerView| #[trigger] spec_matches(v, data0) implies false by {
                    lemma_encode_layout(v);
                }
            }
            return Err(PixlzrError::Truncated);
        },
    };
    if !bytes_eq(&magic, &pixlzr_magic_bytes()) {
        proof {
            assert forall|v: ContainerView| #[trigger] spec_matches(v, data0) implies false by {
                lemma_encode_layout(v);
                assert(magic@ == data0.subrange(0, 6));
            }
        }
        return Err(PixlzrError::BadMagic);
    }
    let vbytes = match reader.read_slice(3) {
        Some(m) => m,
        None => {
            proof {
                assert forall|v: ContainerView| #[trigger] spec_matches(v, data0) implies false by {
                    lemma_encode_layout(v);
                }
            }
            return Err(PixlzrError::Truncated);
        },
    };
    let version = Semver::from_bytes(&vbytes);
    proof {
        assert forall|v: ContainerView| #[trigger] spec_matches(v, data0) implies version == (
        Semver { major: 0, minor: 0, patch: 2 }) by {
            lemma_encode_layout(v);
            assert(vbytes@ == data0.subrange(6, 9));
            assert(vbytes@[0] == spec_version_bytes()[0]);
            assert(vbytes@[1] == spec_version_bytes()[1]);
            assert(vbytes@[2] == spec_version_bytes()[2]);
        }
    }
    let has_f = has_resource(&version, Resource::Filter);
    let mut filter: Option<FilterType> = None;
    if has_f {
        if reader.data.len() - reader.index < 1 {
            proof {
                assert forall|v: ContainerView| #[trigger] spec_matches(v, data0) implies false by {
                    lemma_encode_layout(v);
                }
            }
            return Err(PixlzrError::Truncated);
        }
        let fb = reader.read_u8();
        if fb != 0 {
            filter = Some(u8_to_filter(fb));
        }
    }
    proof {
        assert forall|v: ContainerView| #[trigger] spec_matches(v, data0) implies filter == v.filter
            && reader.index == 10 by {
            lemma_encode_layout(v);
            assert(data0[9] == spec_filter_byte(v.filter));
            match v.filter {
                None => {},
                Some(f) => {
                    crate::filter::lemma_filter_tag_roundtrip(f);
                },
            }
        }
    }
    let width = match try_read_u32(reader) {
        Ok(n) => n,
        Err(e) => {
            proof {
                assert forall|v: ContainerView| #[trigger] spec_matches(v, data0) implies false by {
                    lemma_encode_layout(v);
                }
            }
            return Err(e);
        },
    };
    let height = match try_read_u32(reader) {
        Ok(n) => n,
        Err(e) => {
            proof {
                assert forall|v: ContainerView| #[trigger] spec_matches(v, data0) implies false by {
                    lemma_encode_layout(v);
                }
            }
            return Err(e);
        },
    };
    let block_width = match try_read_u32(reader) {
        Ok(n) => n,
        Err(e) => {
            proof {
                assert forall|v: ContainerView| #[trigger] spec_matches(v, data0) implies false by {
                    lemma_encode_layout(v);
                }
            }
            return Err(e);
        },
    };
    let block_height = match try_read_u32(reader) {
        Ok(n) => n,
        Err(e) => {
            proof {
                assert forall|v: ContainerView| #[trigger] spec_matches(v, data0) implies false by {
                    lemma_encode_layout(v);
                }
            }
            return Err(e);
        },
    };
    proof {
        assert forall|v: ContainerView| #[trigger] spec_matches(v, data0) implies width == v.width
            && height == v.height && block_width == v.block_width && block_height
            == v.block_height && reader.index == 26 by {
            lemma_encode_layout(v);
            lemma_u32_be_roundtrip(v.width);
            lemma_u32_be_roundtrip(v.height);
            lemma_u32_be_roundtrip(v.block_width);
            lemma_u32_be_roundtrip(v.block_height);
        }
    }
    if block_width == 0 || block_height == 0 {
        return Err(PixlzrError::ZeroBlockDimension);
    }
    let has_ls = has_resource(&version, Resource::LineSizes);
    Ok((width, height, block_width, block_height, filter, has_ls))
}

/// Everything one decode step needs to know about grid row `rr` of a
/// round-trippable container: its blocks are round-trippable and its bytes
/// follow the rows before it.
proof fn lemma_row_step(v: ContainerView, rr: int, rs: int, rowdata: Seq<u8>)
    requires
        spec_roundtrip_input(v),
        0 <= rr < v.grid_height(),
        rs == rr * v.grid_width(),
        rowdata == spec_blocks_bytes(v.blocks, rs, rs + v.grid_width()),
    ensures
        0 <= rs,
        rs + v.grid_width() <= v.blocks.len(),
        forall|j: int|
            rs <= j < rs + v.grid_width() ==> spec_block_roundtrip_input(#[trigger] v.blocks[j]),
        spec_blocks_bytes(v.blocks, 0, rs + v.grid_width()).len() == spec_blocks_bytes(
            v.blocks,
            0,
            rs,
        ).len() + rowdata.len(),
        rowdata.len() == spec_row_len(v, rr),
        rowdata.subrange(0, rowdata.len() as int) == rowdata,
{
    lemma_decode_row_window(v, rr, rs);
    assert forall|j: int| rs <= j < rs + v.grid_width() implies spec_block_roundtrip_input(
        #[trigger] v.blocks[j],
    ) by {
        lemma_decode_block_window(
            v,
            rs,
            j - rs,
            v.grid_width(),
            rr,
            rowdata,
            spec_blocks_bytes(v.blocks, rs, j).len() as int,
        );
    }
    lemma_blocks_bytes_concat(v.blocks, 0, rs, rs + v.grid_width());
    assert(rowdata.subrange(0, rowdata.len() as int) =~= rowdata);
}

/// Parses a container from the start of the buffer.  See `decode_from_vec`.
#[verifier::rlimit(100)]
fn decode_container(reader: &mut Bytes) -> (r: Result<Pixlzr, PixlzrError>)
    requires
        old(reader).index == 0,
        old(reader).index <= old(reader).data.len(),
    ensures
        r is Ok ==> (forall|i: int|
            0 <= i < r.unwrap()@.blocks.len() ==> (#[trigger] r.unwrap()@.blocks[i]).wf()
                && r.unwrap()@.blocks[i].block_value is Some),
        forall|v: ContainerView| #[trigger] spec_matches(v, old(reader).data@) ==> r is Ok
            && r.unwrap()@ == v,
{
    let ghost data0 = old(reader).data@;
    let header = match decode_header(reader) {
        Ok(t) => t,
        Err(e) => {
            return Err(e);
        },
    };
    let (width, height, block_width, block_height, filter, has_ls) = header;
    proof {
        lemma_ceil_div(width as int, block_width as int);
        lemma_ceil_div(height as int, block_height as int);
    }
    let cols: u32 = (((width as u64) + (block_width as u64) - 1) / (block_width as u64)) as u32;
    let rows: u32 = (((height as u64) + (block_height as u64) - 1) / (block_height as u64)) as u32;
    if has_ls {
        let row_lens = match decode_table(reader, rows) {
            Ok(t) => t,
            Err(e) => {
                proof {
                    assert forall|v: ContainerView| #[trigger] spec_matches(v, data0)
                        implies false by {
                        lemma_encode_layout(v);
                    }
                }
                return Err(e);
            },
        };
        proof {
            assert forall|v: ContainerView| #[trigger] spec_matches(v, data0) implies (forall|
                k: int,
            |
                0 <= k < rows ==> row_lens@[k] as int == #[trigger] spec_row_len(v, k)) by {
                lemma_encode_layout(v);
                assert forall|k: int| 0 <= k < rows implies row_lens@[k] as int
                    == #[trigger] spec_row_len(v, k) by {
                    lemma_table_entry(v, k);
                    lemma_u32_be_roundtrip(spec_row_len(v, k) as u32);
                    assert(row_lens@[k] == spec_u32_of_be(
                        data0.subrange(26 + 4 * k, 26 + 4 * k + 4),
                    ));
                    assert(spec_row_len(v, k) < 0x100000000);
                }
            }
        }
        let mut blocks: Vec<PixlzrBlock> = Vec::new();
        let mut rr2: u32 = 0;
        while rr2 < rows
            invariant
                reader.data@ == data0,
                data0 == old(reader).data@,
                reader.index <= reader.data.len(),
                rr2 <= rows,
                blocks@.len() == rr2 * cols,
                row_lens@.len() == rows,
                forall|k: int|
                    0 <= k < blocks@.len() ==> (#[trigger] blocks@[k])@.wf()
                        && blocks@[k]@.block_value is Some,
                forall|v: ContainerView| #[trigger] spec_matches(v, data0) ==> {
                    &&& cols as int == v.grid_width()
                    &&& rows as int == v.grid_height()
                    &&& width == v.width
                    &&& height == v.height
                    &&& block_width == v.block_width
                    &&& block_height == v.block_height
                    &&& filter == v.filter
                    &&& (forall|k: int|
                        0 <= k < rows ==> row_lens@[k] as int == #[trigger] spec_row_len(v, k))
                    &&& (forall|j: int|
                        0 <= j < blocks@.len() ==> (#[trigger] blocks@[j])@ == v.blocks[j])
                    &&& reader.index == 26 + 4 * (rows as int) + spec_blocks_bytes(
                        v.blocks,
                        0,
                        blocks@.len() as int,
                    ).len()
                },
            decreases rows - rr2,
        {
            let ghost rs = blocks@.len() as int;
            let rl = row_lens[rr2 as usize] as usize;
            let row_bytes = match reader.read_slice(rl) {
                Some(b) => b,
                None => {
                    proof {
                        assert forall|v: ContainerView| #[trigger] spec_matches(v, data0)
                            implies false by {
                            lemma_decode_row_window(v, rr2 as int, rs);
                        }
                    }
                    return Err(PixlzrError::Truncated);
                },
            };
            let mut rowreader = Bytes::new(row_bytes);
            let ghost rowdata = rowreader.data@;
            let row_blocks = match decode_row_blocks(&mut rowreader, cols) {
                Ok(b) => b,
                Err(e) => {
                    proof {
                        assert forall|v: ContainerView| #[trigger] spec_matches(v, data0)
                            implies false by {
                            lemma_decode_row_window(v, rr2 as int, rs);
                            lemma_row_step(v, rr2 as int, rs, rowdata);
                        }
                    }
                    return Err(e);
                },
            };
            let mut row_blocks_mut = row_blocks;
            let ghost prev_blocks = blocks@;
            let ghost rowvec = row_blocks_mut@;
            blocks.append(&mut row_blocks_mut);
            proof {
                assert((rr2 + 1) * cols == rr2 * cols + cols) by {
                    vstd::arithmetic::mul::lemma_mul_is_distributive_add_other_way(
                        cols as int,
                        rr2 as int,
                        1,
                    );
                }
                assert(blocks@ == prev_blocks + rowvec);
                assert forall|v: ContainerView| #[trigger] spec_matches(v, data0) implies (forall|
                    j: int,
                |
                    0 <= j < blocks@.len() ==> (#[trigger] blocks@[j])@ == v.blocks[j])
                    && reader.index == 26 + 4 * (rows as int) + spec_blocks_bytes(
                    v.blocks,
                    0,
                    blocks@.len() as int,
                ).len() by {
                    lemma_decode_row_window(v, rr2 as int, rs);
                    lemma_row_step(v, rr2 as int, rs, rowdata);
                    assert(forall|j: int|
                        0 <= j < cols ==> (#[trigger] rowvec[j])@ == v.blocks[rs + j]);
                    assert forall|j: int| 0 <= j < blocks@.len()
                        implies (#[trigger] blocks@[j])@ == v.blocks[j] by {
                        if j < rs {
                            assert(blocks@[j] == prev_blocks[j]);
                        } else {
                            assert(blocks@[j] == rowvec[j - rs]);
                            assert(rowvec[j - rs]@ == v.blocks[j]);
                        }
                    }
                }
            }
            rr2 = rr2 + 1;
        }
        if reader.yet_readding() {
            proof {
                assert forall|v: ContainerView| #[trigger] spec_matches(v, data0) implies false by {
                    lemma_encode_layout(v);
                    vstd::arithmetic::mul::lemma_mul_is_commutative(rows as int, cols as int);
                    assert(blocks@.len() == v.blocks.len());
                }
            }
            return Err(PixlzrError::RowTableMismatch);
        }
        let result = Pixlzr { width, height, block_width, block_height, filter, blocks };
        proof {
            assert forall|v: ContainerView| #[trigger] spec_matches(v, data0) implies result@
                == v by {
                vstd::arithmetic::mul::lemma_mul_is_commutative(rows as int, cols as int);
                assert(result@.blocks.len() == v.blocks.len());
                assert forall|j: int| 0 <= j < result@.blocks.len() implies result@.blocks[j]
                    == v.blocks[j] by {
                    assert(result@.blocks[j] == result.blocks@[j]@);
                }
                assert(result@.blocks =~= v.blocks);
                assert(result@ =~= v);
            }
            assert forall|i: int| 0 <= i < result@.blocks.len()
                implies (#[trigger] result@.blocks[i]).wf()
                && result@.blocks[i].block_value is Some by {
                assert(result@.blocks[i] == result.blocks@[i]@);
            }
        }
        Ok(result)
    } else {
        proof {
            assert forall|v: ContainerView| #[trigger] spec_matches(v, data0) implies false by {}
        }
        let mut blocks: Vec<PixlzrBlock> = Vec::new();
        while reader.yet_readding()
            invariant
                reader.data@ == data0,
                data0 == old(reader).data@,
                reader.index <= reader.data.len(),
                forall|v: ContainerView| #[trigger] spec_matches(v, data0) ==> false,
                forall|k: int|
                    0 <= k < blocks@.len() ==> (#[trigger] blocks@[k])@.wf()
                        && blocks@[k]@.block_value is Some,
            decreases reader.data@.len() - reader.index,
        {
            let block = match decode_block(reader) {
                Ok(b) => b,
                Err(e) => {
                    return Err(e);
                },
            };
            blocks.push(block);
        }
        let result = Pixlzr { width, height, block_width, block_height, filter, blocks };
        proof {
            assert forall|i: int| 0 <= i < result@.blocks.len()
                implies (#[trigger] result@.blocks[i]).wf()
                && result@.blocks[i].block_value is Some by {
                assert(result@.blocks[i] == result.blocks@[i]@);
            }
        }
        Ok(result)
    }
}

impl Pixlzr {
    /// Parses a container: the fixed header, then (for container versions
    /// that carry it) the per-row length table followed by each row's block
    /// records; older containers are scanned sequentially instead.  Parsing
    /// is all-or-nothing and never reads outside the buffer; decoding the
    /// encoding of any round-trippable container gives back exactly that
    /// container, so decoding inverts encoding.
    pub fn decode_from_vec(inp: Vec<u8>) -> (r: Result<Pixlzr, PixlzrError>)
        ensures
            r is Ok ==> (forall|i: int|
                0 <= i < r.unwrap()@.blocks.len() ==> (#[trigger] r.unwrap()@.blocks[i]).wf()
                    && r.unwrap()@.blocks[i].block_value is Some),
            forall|v: ContainerView| #[trigger] spec_matches(v, inp@) ==> r is Ok && r.unwrap()@
                == v,
    {
        let mut reader = Bytes::new(inp);
        decode_container(&mut reader)
    }
}

} // verus!
