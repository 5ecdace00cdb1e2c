//! Binary-view arrays: every row is a 16-byte view that either holds the
//! row's bytes inline (up to 12 of them) or points into a data buffer.

pub mod bitmap;
pub mod buffer_map;
pub mod builder;

use vstd::prelude::*;
use vstd::utf8::valid_utf8;

verus! {

/// The size of a new data buffer before growth.
pub const DEFAULT_BLOCK_SIZE: usize = 8 * 1024;

/// The largest size to which data buffers grow by doubling.
pub const MAX_EXP_BLOCK_SIZE: usize = 16 * 1024 * 1024;

/// The largest row, and the largest `offset + length`, that a shared data
/// buffer holds; longer rows get a buffer of their own.
pub const MAX_BUFFER_LEN: usize = 2147483647;

/// The longest row a view can describe.
pub const MAX_ROW_BYTE_LEN: usize = 4294967294;

/// Rows of at most this many bytes are stored inline in their view.
pub const MAX_INLINE_SIZE: u32 = 12;

/// The logical type of a binary-view array.
#[derive(Clone, Copy, Debug, PartialEq, Eq)]
pub enum ViewDataType {
    BinaryView,
    Utf8View,
}

/// A row of a binary-view array: its length, its first four bytes, and
/// either the rest of the bytes inline or the buffer and offset that hold
/// them.
#[derive(Clone, Copy, Debug, PartialEq, Eq, Structural)]
pub struct ByteView {
    pub length: u32,
    pub prefix: u32,
    pub buffer_idx: u32,
    pub offset: u32,
}

impl Default for ByteView {
    fn default() -> (v: Self)
        ensures
            v == (ByteView { length: 0, prefix: 0, buffer_idx: 0, offset: 0 }),
    {
        ByteView { length: 0, prefix: 0, buffer_idx: 0, offset: 0 }
    }
}

/// Byte `j` (0 to 3) of the little-endian word `w`.
pub open spec fn word_byte(w: u32, j: int) -> u8 {
    if j == 0 {
        (w & 0xff) as u8
    } else if j == 1 {
        ((w >> 8u32) & 0xff) as u8
    } else if j == 2 {
        ((w >> 16u32) & 0xff) as u8
    } else {
        ((w >> 24u32) & 0xff) as u8
    }
}

/// Word `k` (0 to 2) of the twelve inline bytes of a view.
pub open spec fn inline_word(v: ByteView, k: int) -> u32 {
    if k == 0 {
        v.prefix
    } else if k == 1 {
        v.buffer_idx
    } else {
        v.offset
    }
}

/// The bytes that an inline view holds.
pub open spec fn inline_bytes(v: ByteView) -> Seq<u8> {
    Seq::new(v.length as nat, |i: int| word_byte(inline_word(v, i / 4), i % 4))
}

/// The inline bytes past a view's length are zero.
pub open spec fn inline_padding_zero(v: ByteView) -> bool {
    forall|i: int| v.length <= i < 12 ==> #[trigger] word_byte(inline_word(v, i / 4), i % 4) == 0
}

/// The view stores its bytes inline.
pub open spec fn is_inline(v: ByteView) -> bool {
    v.length <= MAX_INLINE_SIZE
}

/// A non-inline view points at bytes that lie inside its buffer.
pub open spec fn view_in_bounds(v: ByteView, buffers: Seq<Seq<u8>>) -> bool {
    is_inline(v) || (v.buffer_idx < buffers.len() && v.offset + v.length
        <= buffers[v.buffer_idx as int].len())
}

/// The bytes that a view denotes, given the data buffers.
pub open spec fn view_bytes(v: ByteView, buffers: Seq<Seq<u8>>) -> Seq<u8> {
    if is_inline(v) {
        inline_bytes(v)
    } else {
        buffers[v.buffer_idx as int].subrange(v.offset as int, v.offset + v.length)
    }
}

/// Every row is valid UTF-8.
pub open spec fn rows_utf8(rows: Seq<Seq<u8>>) -> bool {
    forall|k: int| 0 <= k < rows.len() ==> #[trigger] valid_utf8(rows[k])
}

/// `bytes` may be a row of an array of type `dtype`: any bytes for
/// `BinaryView`, valid UTF-8 for `Utf8View`.
pub open spec fn fits_dtype(dtype: ViewDataType, bytes: Seq<u8>) -> bool {
    dtype == ViewDataType::Utf8View ==> valid_utf8(bytes)
}

/// The sum of the lengths of some views.
pub open spec fn sum_view_lens(views: Seq<ByteView>) -> nat
    decreases views.len(),
{
    if views.len() == 0 {
        0
    } else {
        sum_view_lens(views.drop_last()) + views.last().length as nat
    }
}

/// The sum of the lengths of some byte strings.
pub open spec fn sum_lens(bufs: Seq<Seq<u8>>) -> nat
    decreases bufs.len(),
{
    if bufs.len() == 0 {
        0
    } else {
        sum_lens(bufs.drop_last()) + bufs.last().len()
    }
}

/// The bytes a row takes in the data buffers: none when it is inline.
pub open spec fn noninline_len(row: Seq<u8>) -> nat {
    if row.len() <= MAX_INLINE_SIZE {
        0
    } else {
        row.len()
    }
}

/// The bytes some rows take in the data buffers.
pub open spec fn sum_noninline_lens(rows: Seq<Seq<u8>>) -> nat
    decreases rows.len(),
{
    if rows.len() == 0 {
        0
    } else {
        sum_noninline_lens(rows.drop_last()) + noninline_len(rows.last())
    }
}

/// Appending a byte string adds its length to the sum.
pub proof fn lemma_sum_lens_push(bufs: Seq<Seq<u8>>, b: Seq<u8>)
    ensures
        sum_lens(bufs.push(b)) == sum_lens(bufs) + b.len(),
{
    assert(bufs.push(b).drop_last() =~= bufs);
}

/// Replacing one byte string changes the sum by the difference of lengths.
pub proof fn lemma_sum_lens_update(bufs: Seq<Seq<u8>>, i: int, b: Seq<u8>)
    requires
        0 <= i < bufs.len(),
    ensures
        sum_lens(bufs.update(i, b)) + bufs[i].len() == sum_lens(bufs) + b.len(),
    decreases bufs.len(),
{
    if i == bufs.len() - 1 {
        assert(bufs.update(i, b).drop_last() =~= bufs.drop_last());
    } else {
        lemma_sum_lens_update(bufs.drop_last(), i, b);
        assert(bufs.update(i, b).drop_last() =~= bufs.drop_last().update(i, b));
    }
}

/// Appending a view adds its length to the sum.
pub proof fn lemma_sum_view_lens_push(views: Seq<ByteView>, v: ByteView)
    ensures
        sum_view_lens(views.push(v)) == sum_view_lens(views) + v.length,
{
    assert(views.push(v).drop_last() =~= views);
}

/// Byte `j` of a word, computed.
pub fn get_word_byte(w: u32, j: usize) -> (r: u8)
    requires
        j < 4,
    ensures
        r == word_byte(w, j as int),
{
    if j == 0 {
        (w & 0xff) as u8
    } else if j == 1 {
        ((w >> 8u32) & 0xff) as u8
    } else if j == 2 {
        ((w >> 16u32) & 0xff) as u8
    } else {
        ((w >> 24u32) & 0xff) as u8
    }
}

/// The little-endian word of four bytes.
fn pack_word(b0: u8, b1: u8, b2: u8, b3: u8) -> (w: u32)
    ensures
        word_byte(w, 0) == b0,
        word_byte(w, 1) == b1,
        word_byte(w, 2) == b2,
        word_byte(w, 3) == b3,
{
    let x0 = b0 as u32;
    let x1 = b1 as u32;
    let x2 = b2 as u32;
    let x3 = b3 as u32;
    let w = x0 | (x1 << 8u32) | (x2 << 16u32) | (x3 << 24u32);
    assert((w & 0xff) == x0 && ((w >> 8u32) & 0xff) == x1 && ((w >> 16u32) & 0xff) == x2 && ((w
        >> 24u32) & 0xff) == x3) by (bit_vector)
        requires
            x0 < 256 && x1 < 256 && x2 < 256 && x3 < 256,
            w == x0 | (x1 << 8u32) | (x2 << 16u32) | (x3 << 24u32),
    ;
    w
}

/// Byte `i` of `bytes`, or zero past its end.
fn byte_or_zero(bytes: &[u8], i: usize) -> (b: u8)
    ensures
        b == (if i < bytes@.len() { bytes@[i as int] } else { 0u8 }),
{
    if i < bytes.len() {
        bytes[i]
    } else {
        0
    }
}

/// The little-endian word of bytes `4k..4k+4` of `bytes`, zero-padded.
fn pack_word_at(bytes: &[u8], k: usize) -> (w: u32)
    requires
        k < 3,
    ensures
        forall|j: int|
            0 <= j < 4 ==> #[trigger] word_byte(w, j) == (if 4 * k + j < bytes@.len() {
                bytes@[4 * k + j]
            } else {
                0u8
            }),
{
    let base = 4 * k;
    pack_word(
        byte_or_zero(bytes, base),
        byte_or_zero(bytes, base + 1),
        byte_or_zero(bytes, base + 2),
        byte_or_zero(bytes, base + 3),
    )
}

impl ByteView {
    /// A view that holds `bytes` inline.
    pub fn new_inline(bytes: &[u8]) -> (v: ByteView)
        requires
            bytes@.len() <= MAX_INLINE_SIZE,
        ensures
            is_inline(v),
            v.length == bytes@.len(),
            inline_bytes(v) == bytes@,
            inline_padding_zero(v),
    {
        let prefix = pack_word_at(bytes, 0);
        let buffer_idx = pack_word_at(bytes, 1);
        let offset = pack_word_at(bytes, 2);
        let v = ByteView { length: bytes.len() as u32, prefix, buffer_idx, offset };
        proof {
            assert forall|i: int| 0 <= i < bytes@.len() implies #[trigger] inline_bytes(v)[i]
                == bytes@[i] by {
                let k = i / 4;
                let j = i % 4;
                assert(word_byte(inline_word(v, k), j) == bytes@[4 * k + j]);
            }
            assert(inline_bytes(v) =~= bytes@);
            assert forall|i: int| v.length <= i < 12 implies #[trigger] word_byte(
                inline_word(v, i / 4),
                i % 4,
            ) == 0 by {
                let k = i / 4;
                let j = i % 4;
                assert(word_byte(inline_word(v, k), j) == 0u8);
            }
        }
        v
    }

    /// A view of the non-inline row `bytes` stored in buffer `buffer_idx`
    /// at `offset`.
    pub fn new_noninline(bytes: &[u8], buffer_idx: u32, offset: u32) -> (v: ByteView)
        requires
            MAX_INLINE_SIZE < bytes@.len() <= u32::MAX,
        ensures
            !is_inline(v),
            v.length == bytes@.len(),
            v.buffer_idx == buffer_idx,
            v.offset == offset,
            forall|j: int| 0 <= j < 4 ==> #[trigger] word_byte(v.prefix, j) == bytes@[j],
    {
        let prefix = pack_word_at(bytes, 0);
        ByteView { length: bytes.len() as u32, prefix, buffer_idx, offset }
    }

    /// Whether the view stores its bytes inline.
    pub fn is_inline(&self) -> (r: bool)
        ensures
            r == is_inline(*self),
    {
        self.length <= MAX_INLINE_SIZE
    }
}

/// A binary-view array: the views of its rows, the data buffers they point
/// into, and an optional validity mask.
pub struct BinaryViewArray {
    dtype: ViewDataType,
    views: Vec<ByteView>,
    buffers: Vec<Vec<u8>>,
    validity: Option<Vec<bool>>,
    total_bytes_len: usize,
    total_buffer_len: usize,
}

/// The contents of some byte buffers.
pub open spec fn buffers_view(buffers: Seq<Vec<u8>>) -> Seq<Seq<u8>> {
    Seq::new(buffers.len(), |i: int| buffers[i]@)
}

impl BinaryViewArray {
    /// The views of the rows.
    pub closed spec fn views_view(&self) -> Seq<ByteView> {
        self.views@
    }

    /// The contents of the data buffers.
    pub closed spec fn data_buffers_view(&self) -> Seq<Seq<u8>> {
        buffers_view(self.buffers@)
    }

    /// The validity mask, if there is one.
    pub closed spec fn validity_view(&self) -> Option<Seq<bool>> {
        match self.validity {
            Some(v) => Some(v@),
            None => None,
        }
    }

    /// The logical type.
    pub closed spec fn dtype_view(&self) -> ViewDataType {
        self.dtype
    }

    /// The recorded total length of all rows.
    pub closed spec fn total_bytes_len_view(&self) -> nat {
        self.total_bytes_len as nat
    }

    /// The recorded total length of the data buffers.
    pub closed spec fn total_buffer_len_view(&self) -> nat {
        self.total_buffer_len as nat
    }

    /// The bytes of every row.
    pub open spec fn values_view(&self) -> Seq<Seq<u8>> {
        Seq::new(
            self.views_view().len(),
            |i: int| view_bytes(self.views_view()[i], self.data_buffers_view()),
        )
    }

    /// Every view points inside the data buffers, and the rows of a
    /// `Utf8View` array are valid UTF-8.
    pub open spec fn wf(&self) -> bool {
        &&& forall|i: int|
            0 <= i < self.views_view().len() ==> #[trigger] view_in_bounds(
                self.views_view()[i],
                self.data_buffers_view(),
            )
        &&& self.dtype_view() == ViewDataType::Utf8View ==> rows_utf8(self.values_view())
    }

    /// Assembles an array from its parts.
    pub fn new_unchecked(
        dtype: ViewDataType,
        views: Vec<ByteView>,
        buffers: Vec<Vec<u8>>,
        validity: Option<Vec<bool>>,
        total_bytes_len: usize,
        total_buffer_len: usize,
    ) -> (a: Self)
        ensures
            a.dtype_view() == dtype,
            a.views_view() == views@,
            a.data_buffers_view() == buffers_view(buffers@),
            a.validity_view() == (match validity {
                Some(v) => Some(v@),
                None => None,
            }),
            a.total_bytes_len_view() == total_bytes_len,
            a.total_buffer_len_view() == total_buffer_len,
    {
        BinaryViewArray { dtype, views, buffers, validity, total_bytes_len, total_buffer_len }
    }

    /// The logical type.
    pub fn dtype(&self) -> (r: ViewDataType)
        ensures
            r == self.dtype_view(),
    {
        self.dtype
    }

    /// The number of rows.
    pub fn len(&self) -> (r: usize)
        ensures
            r == self.views_view().len(),
    {
        self.views.len()
    }

    /// The views of the rows.
    pub fn views(&self) -> (r: &Vec<ByteView>)
        ensures
            r@ == self.views_view(),
    {
        &self.views
    }

    /// The data buffers.
    pub fn data_buffers(&self) -> (r: &Vec<Vec<u8>>)
        ensures
            buffers_view(r@) == self.data_buffers_view(),
    {
        &self.buffers
    }

    /// The validity mask, if there is one.
    pub fn validity(&self) -> (r: Option<&Vec<bool>>)
        ensures
            r matches Some(v) ==> self.validity_view() == Some(v@),
            r is None ==> self.validity_view() is None,
    {
        match &self.validity {
            Some(v) => Some(v),
            None => None,
        }
    }

    /// The recorded total length of all rows.
    pub fn total_bytes_len(&self) -> (r: usize)
        ensures
            r == self.total_bytes_len_view(),
    {
        self.total_bytes_len
    }

    /// The recorded total length of the data buffers.
    pub fn total_buffer_len(&self) -> (r: usize)
        ensures
            r == self.total_buffer_len_view(),
    {
        self.total_buffer_len
    }

    /// The bytes of row `i`.
    pub fn value(&self, i: usize) -> (r: Vec<u8>)
        requires
            self.wf(),
            i < self.views_view().len(),
        ensures
            r@ == self.values_view()[i as int],
    {
        let v = self.views[i];
        let mut out: Vec<u8> = Vec::new();
        if v.length <= MAX_INLINE_SIZE {
            let mut j: usize = 0;
            while j < v.length as usize
                invariant
                    v == self.views_view()[i as int],
                    is_inline(v),
                    j <= v.length,
                    out@ == inline_bytes(v).take(j as int),
                decreases v.length - j,
            {
                let word = if j < 4 {
                    v.prefix
                } else if j < 8 {
                    v.buffer_idx
                } else {
                    v.offset
                };
                let b = get_word_byte(word, j % 4);
                proof {
                    assert(word == inline_word(v, j as int / 4));
                }
                out.push(b);
                j = j + 1;
                proof {
                    assert(out@ =~= inline_bytes(v).take(j as int));
                }
            }
            proof {
                assert(out@ =~= inline_bytes(v));
            }
        } else {
            proof {
                assert(view_in_bounds(v, self.data_buffers_view()));
            }
            let buf = &self.buffers[v.buffer_idx as usize];
            let buf_len = buf.len();
            let start = v.offset as usize;
            let end = start + v.length as usize;
            let mut j = start;
            while j < end
                invariant
                    v == self.views_view()[i as int],
                    !is_inline(v),
                    buf@ == self.data_buffers_view()[v.buffer_idx as int],
                    start == v.offset,
                    end == v.offset + v.length,
                    end <= buf@.len(),
                    start <= j <= end,
                    out@ == buf@.subrange(start as int, j as int),
                decreases end - j,
            {
                out.push(buf[j]);
                j = j + 1;
                proof {
                    assert(out@ =~= buf@.subrange(start as int, j as int));
                }
            }
        }
        out
    }

    /// Whether row `i` is valid: no mask, or the mask sets it.
    pub fn is_valid(&self, i: usize) -> (r: bool)
        requires
            self.validity_view() matches Some(v) ==> i < v.len(),
        ensures
            r == (match self.validity_view() {
                Some(v) => v[i as int],
                None => true,
            }),
    {
        match &self.validity {
            Some(v) => v[i],
            None => true,
        }
    }
}

} // verus!
