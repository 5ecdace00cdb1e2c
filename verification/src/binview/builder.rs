//! A builder for binary-view arrays that packs non-inline rows into growing
//! data buffers.

use vstd::prelude::*;
use vstd::utf8::valid_utf8;

use super::bitmap::{bit_of, opt_view, OptBitmapBuilder};
use super::buffer_map::{
    slot_entries, slot_map_clear, slot_map_get, slot_map_insert, slot_map_new, SlotMap,
};
use super::{
    buffers_view, inline_bytes, is_inline, lemma_sum_lens_push, lemma_sum_lens_update,
    fits_dtype, noninline_len, rows_utf8, sum_noninline_lens,
    lemma_sum_view_lens_push, sum_lens, sum_view_lens, view_bytes, view_in_bounds,
    BinaryViewArray, ByteView, ViewDataType, DEFAULT_BLOCK_SIZE, MAX_BUFFER_LEN,
    MAX_EXP_BLOCK_SIZE, MAX_INLINE_SIZE, MAX_ROW_BYTE_LEN,
};
use crate::rolling::IdxSize;

verus! {

/// The capacity of the buffer that replaces a full active buffer of
/// capacity `cap` when a row of `additional` bytes arrives: double the old
/// capacity, kept between the default and the largest block size, and at
/// least the row.
pub open spec fn grown_capacity(cap: int, additional: int) -> int {
    let doubled = 2 * cap;
    let clamped = if doubled < DEFAULT_BLOCK_SIZE {
        DEFAULT_BLOCK_SIZE as int
    } else if doubled > MAX_EXP_BLOCK_SIZE {
        MAX_EXP_BLOCK_SIZE as int
    } else {
        doubled
    };
    if clamped >= additional {
        clamped
    } else {
        additional
    }
}

/// A row of `additional` bytes fits behind the `len` bytes of an active
/// buffer of capacity `cap`.
pub open spec fn fits_active(len: int, cap: int, additional: int) -> bool {
    additional <= cap - len && len + additional <= MAX_BUFFER_LEN
}

/// A view stays in bounds, and denotes the same bytes, when every buffer
/// only grows at its end and buffers are only added.
proof fn lemma_view_stable(v: ByteView, old_bufs: Seq<Seq<u8>>, new_bufs: Seq<Seq<u8>>)
    requires
        view_in_bounds(v, old_bufs),
        old_bufs.len() <= new_bufs.len(),
        forall|j: int|
            0 <= j < old_bufs.len() ==> old_bufs[j].len() <= new_bufs[j].len() && (
            #[trigger] new_bufs[j]).take(old_bufs[j].len() as int) == old_bufs[j],
    ensures
        view_in_bounds(v, new_bufs),
        view_bytes(v, new_bufs) == view_bytes(v, old_bufs),
{
    if !is_inline(v) {
        let j = v.buffer_idx as int;
        let nb = new_bufs[j];
        let ob = old_bufs[j];
        assert(nb.take(ob.len() as int) == ob);
        assert forall|i: int| 0 <= i < ob.len() implies nb[i] == ob[i] by {
            assert(nb.take(ob.len() as int)[i] == nb[i]);
        }
        assert(view_bytes(v, new_bufs) =~= view_bytes(v, old_bufs));
    }
}

/// A sequence of byte strings is a prefix-wise extension of itself.
proof fn lemma_bufs_extend_self(bufs: Seq<Seq<u8>>)
    ensures
        forall|j: int|
            0 <= j < bufs.len() ==> bufs[j].len() <= bufs[j].len() && (#[trigger] bufs[j]).take(
                bufs[j].len() as int,
            ) == bufs[j],
{
    assert forall|j: int| 0 <= j < bufs.len() implies (#[trigger] bufs[j]).take(
        bufs[j].len() as int,
    ) == bufs[j] by {
        assert(bufs[j].take(bufs[j].len() as int) =~= bufs[j]);
    }
}

/// The byte strings of a prefix sum to at most the whole.
pub proof fn lemma_sum_lens_take(bufs: Seq<Seq<u8>>, k: int)
    requires
        0 <= k <= bufs.len(),
    ensures
        sum_lens(bufs.take(k)) <= sum_lens(bufs),
        k < bufs.len() ==> sum_lens(bufs.take(k + 1)) == sum_lens(bufs.take(k)) + bufs[k].len(),
    decreases bufs.len() - k,
{
    if k < bufs.len() {
        assert(bufs.take(k + 1) =~= bufs.take(k).push(bufs[k]));
        lemma_sum_lens_push(bufs.take(k), bufs[k]);
        lemma_sum_lens_take(bufs, k + 1);
    } else {
        assert(bufs.take(k) =~= bufs);
    }
}

/// The buffer bytes of a prefix of rows sum to at most those of all rows.
pub proof fn lemma_sum_noninline_take(rows: Seq<Seq<u8>>, k: int)
    requires
        0 <= k <= rows.len(),
    ensures
        sum_noninline_lens(rows.take(k)) <= sum_noninline_lens(rows),
        k < rows.len() ==> sum_noninline_lens(rows.take(k + 1)) == sum_noninline_lens(
            rows.take(k),
        ) + noninline_len(rows[k]),
    decreases rows.len() - k,
{
    if k < rows.len() {
        assert(rows.take(k + 1) =~= rows.take(k).push(rows[k]));
        assert(rows.take(k).push(rows[k]).drop_last() =~= rows.take(k));
        lemma_sum_noninline_take(rows, k + 1);
    } else {
        assert(rows.take(k) =~= rows);
    }
}

/// The length of a view is the length of the bytes it denotes.
proof fn lemma_view_bytes_len(v: ByteView, bufs: Seq<Seq<u8>>)
    requires
        view_in_bounds(v, bufs),
    ensures
        view_bytes(v, bufs).len() == v.length,
{
}

/// The view lengths sum to the total length of the rows they denote.
proof fn lemma_sum_view_lens_rows(views: Seq<ByteView>, bufs: Seq<Seq<u8>>)
    requires
        forall|k: int| 0 <= k < views.len() ==> #[trigger] view_in_bounds(views[k], bufs),
    ensures
        sum_view_lens(views) == sum_lens(
            Seq::new(views.len(), |k: int| view_bytes(views[k], bufs)),
        ),
    decreases views.len(),
{
    if views.len() > 0 {
        let rows = Seq::new(views.len(), |k: int| view_bytes(views[k], bufs));
        let prev = views.drop_last();
        assert forall|k: int| 0 <= k < prev.len() implies #[trigger] view_in_bounds(prev[k], bufs) by {
            assert(view_in_bounds(views[k], bufs));
        }
        lemma_sum_view_lens_rows(prev, bufs);
        assert(rows.drop_last() =~= Seq::new(prev.len(), |k: int| view_bytes(prev[k], bufs)));
        assert(view_in_bounds(views[views.len() - 1], bufs));
        lemma_view_bytes_len(views[views.len() - 1], bufs);
    }
}

/// The slots of taken-over buffers stay valid when every non-empty buffer
/// of the old buffer set keeps its slot and bytes.
proof fn lemma_stolen_slots_kept(map: Map<u64, u32>, a: Seq<Vec<u8>>, b: Seq<Vec<u8>>)
    requires
        forall|id: u64| #[trigger]
            map.dom().contains(id) ==> map[id] < a.len() && a[map[id] as int]@.len() > 0,
        forall|j: int| 0 <= j < a.len() && a[j]@.len() > 0 ==> j < b.len() && #[trigger] b[j]@ == a[j]@,
    ensures
        forall|id: u64| #[trigger]
            map.dom().contains(id) ==> map[id] < b.len() && b[map[id] as int]@.len() > 0,
{
    assert forall|id: u64| #[trigger] map.dom().contains(id) implies map[id] < b.len() && b[map[id] as int]@.len() > 0 by {
        let j = map[id] as int;
        assert(a[j]@.len() > 0);
        assert(b[j]@ == a[j]@);
    }
}

/// Row `i` of `other` if `valid`, else the empty row.
pub open spec fn row_or_empty(other: &BinaryViewArray, i: int, valid: bool) -> Seq<u8> {
    if valid {
        other.values_view()[i]
    } else {
        Seq::empty()
    }
}

/// The mask of `other`, if any, covers its rows.
pub open spec fn validity_matches(other: &BinaryViewArray) -> bool {
    other.validity_view() matches Some(v) ==> v.len() == other.views_view().len()
}

/// Every row of `other` is short enough for a view.
pub open spec fn rows_fit(other: &BinaryViewArray) -> bool {
    forall|i: int|
        0 <= i < other.views_view().len() ==> #[trigger] other.values_view()[i].len()
            <= MAX_ROW_BYTE_LEN
}

/// The rows that copying rows `start..start + length` of `other` appends.
pub open spec fn subslice_rows(other: &BinaryViewArray, start: int, length: int) -> Seq<Seq<u8>> {
    Seq::new(
        length as nat,
        |k: int| row_or_empty(other, start + k, bit_of(other.validity_view(), start + k)),
    )
}

/// The rows that copying rows `start..start + length` of `other`, each
/// repeated `repeats` times, appends.
pub open spec fn repeated_rows(
    other: &BinaryViewArray,
    start: int,
    length: int,
    repeats: int,
) -> Seq<Seq<u8>> {
    Seq::new(
        (length * repeats) as nat,
        |j: int|
            row_or_empty(
                other,
                start + j / repeats,
                bit_of(other.validity_view(), start + j / repeats),
            ),
    )
}

/// The rows that gathering rows `idxs` of `other` appends.
pub open spec fn gathered_rows(other: &BinaryViewArray, idxs: Seq<IdxSize>) -> Seq<Seq<u8>> {
    Seq::new(
        idxs.len(),
        |k: int|
            row_or_empty(other, idxs[k] as int, bit_of(other.validity_view(), idxs[k] as int)),
    )
}

/// The rows that gathering rows `idxs` of `other`, with out-of-range
/// indices giving null rows, appends.
pub open spec fn opt_gathered_rows(other: &BinaryViewArray, idxs: Seq<IdxSize>) -> Seq<Seq<u8>> {
    Seq::new(
        idxs.len(),
        |k: int|
            if idxs[k] < other.views_view().len() {
                row_or_empty(other, idxs[k] as int, bit_of(other.validity_view(), idxs[k] as int))
            } else {
                Seq::empty()
            },
    )
}

/// Whether extending a builder from another array copies the rows' bytes
/// into the builder's own buffers or takes over the array's data buffers.
#[derive(Clone, Copy, Debug, PartialEq, Eq)]
pub enum ShareStrategy {
    Never,
    Always,
}

/// `ids` gives the id of the storage of every data buffer of `other`, and
/// buffers of one storage hold the same bytes.
pub open spec fn ids_name_storage(other: &BinaryViewArray, ids: Seq<u64>) -> bool {
    &&& ids.len() == other.data_buffers_view().len()
    &&& forall|j: int, k: int|
        #![trigger ids[j], ids[k]]
        0 <= j < ids.len() && 0 <= k < ids.len() && ids[j] == ids[k]
            ==> other.data_buffers_view()[j] == other.data_buffers_view()[k]
}

/// The rows that appending `views` (into buffers `bufs`), each repeated
/// `repeats` times, adds.
pub open spec fn dedup_rows(views: Seq<ByteView>, repeats: int, bufs: Seq<Seq<u8>>) -> Seq<
    Seq<u8>,
> {
    Seq::new((views.len() * repeats) as nat, |k: int| view_bytes(views[k / repeats], bufs))
}

/// The storage ids of the buffers that the non-inline `views` point into.
pub open spec fn taken_ids(views: Seq<ByteView>, ids: Seq<u64>) -> Set<u64> {
    Set::new(
        |id: u64|
            exists|k: int|
                0 <= k < views.len() && !is_inline(#[trigger] views[k]) && ids[views[k].buffer_idx as int]
                    == id,
    )
}

/// The views of rows `start..start + length` of `other`.
pub open spec fn subslice_views(other: &BinaryViewArray, start: int, length: int) -> Seq<ByteView> {
    other.views_view().subrange(start, start + length)
}

/// The views of rows `idxs` of `other`.
pub open spec fn gathered_views(other: &BinaryViewArray, idxs: Seq<IdxSize>) -> Seq<ByteView> {
    Seq::new(idxs.len(), |k: int| other.views_view()[idxs[k] as int])
}

/// The views of rows `idxs` of `other`, the empty view for an index past
/// the end.
pub open spec fn opt_gathered_views(other: &BinaryViewArray, idxs: Seq<IdxSize>) -> Seq<ByteView> {
    Seq::new(
        idxs.len(),
        |k: int|
            if idxs[k] < other.views_view().len() {
                other.views_view()[idxs[k] as int]
            } else {
                ByteView { length: 0, prefix: 0, buffer_idx: 0, offset: 0 }
            },
    )
}

/// The buffers (by index) that appending `views` takes over, in the order
/// in which they are first pointed into, skipping storages among `known`
/// and storages already taken.
pub open spec fn taken_order(known: Set<u64>, views: Seq<ByteView>, ids: Seq<u64>) -> Seq<int>
    decreases views.len(),
{
    if views.len() == 0 {
        Seq::empty()
    } else {
        let prev = taken_order(known, views.drop_last(), ids);
        let v = views.last();
        if !is_inline(v) && !known.union(taken_ids(views.drop_last(), ids)).contains(
            ids[v.buffer_idx as int],
        ) {
            prev.push(v.buffer_idx as int)
        } else {
            prev
        }
    }
}

/// The buffers taken over for a prefix of `views` are a prefix of those
/// taken over for all of them.
proof fn lemma_taken_order_prefix(known: Set<u64>, views: Seq<ByteView>, ids: Seq<u64>, i: int)
    requires
        0 <= i <= views.len(),
    ensures
        taken_order(known, views.take(i), ids).len() <= taken_order(known, views, ids).len(),
        taken_order(known, views.take(i), ids) == taken_order(known, views, ids).take(
            taken_order(known, views.take(i), ids).len() as int,
        ),
    decreases views.len(),
{
    if i == views.len() {
        assert(views.take(i) =~= views);
        let o = taken_order(known, views, ids);
        assert(o.take(o.len() as int) =~= o);
    } else {
        let d = views.drop_last();
        lemma_taken_order_prefix(known, d, ids, i);
        assert(d.take(i) =~= views.take(i));
        let od = taken_order(known, d, ids);
        let o = taken_order(known, views, ids);
        let oi = taken_order(known, views.take(i), ids);
        if o.len() == od.len() + 1 {
            assert(oi =~= o.take(oi.len() as int));
        }
    }
}

/// The buffers of `bufs` at the indices `order`.
pub open spec fn buffers_at(bufs: Seq<Seq<u8>>, order: Seq<int>) -> Seq<Seq<u8>> {
    Seq::new(order.len(), |k: int| bufs[order[k]])
}

/// Each of `sel` is a view of a row of `other` or the empty view.
pub open spec fn views_of(other: &BinaryViewArray, sel: Seq<ByteView>) -> bool {
    forall|k: int|
        0 <= k < sel.len() ==> (#[trigger] sel[k] == (ByteView {
            length: 0,
            prefix: 0,
            buffer_idx: 0,
            offset: 0,
        }) || exists|i: int| 0 <= i < other.views_view().len() && sel[k] == other.views_view()[i])
}

/// Views of rows of a well-formed array point inside its buffers and, for
/// a `Utf8View` array, denote text.
proof fn lemma_views_of(other: &BinaryViewArray, sel: Seq<ByteView>)
    requires
        other.wf(),
        views_of(other, sel),
    ensures
        forall|k: int|
            0 <= k < sel.len() ==> #[trigger] view_in_bounds(sel[k], other.data_buffers_view()),
        other.dtype_view() == ViewDataType::Utf8View ==> forall|k: int|
            0 <= k < sel.len() ==> #[trigger] valid_utf8(
                view_bytes(sel[k], other.data_buffers_view()),
            ),
{
    assert forall|k: int| 0 <= k < sel.len() implies #[trigger] view_in_bounds(
        sel[k],
        other.data_buffers_view(),
    ) && (other.dtype_view() == ViewDataType::Utf8View ==> valid_utf8(
        view_bytes(sel[k], other.data_buffers_view()),
    )) by {
        lemma_view_of_row(other, sel, k);
    }
    assert forall|k: int|
        0 <= k < sel.len() && other.dtype_view() == ViewDataType::Utf8View implies #[trigger] valid_utf8(
        view_bytes(sel[k], other.data_buffers_view()),
    ) by {
        lemma_view_of_row(other, sel, k);
    }
}

/// One view of a row of a well-formed array, or the empty view.
proof fn lemma_view_of_row(other: &BinaryViewArray, sel: Seq<ByteView>, k: int)
    requires
        other.wf(),
        views_of(other, sel),
        0 <= k < sel.len(),
    ensures
        view_in_bounds(sel[k], other.data_buffers_view()),
        other.dtype_view() == ViewDataType::Utf8View ==> valid_utf8(
            view_bytes(sel[k], other.data_buffers_view()),
        ),
{
    {
        if sel[k] == (ByteView { length: 0, prefix: 0, buffer_idx: 0, offset: 0 }) {
            assert(view_bytes(sel[k], other.data_buffers_view()) =~= Seq::<u8>::empty());
        } else {
            let i = choose|i: int| 0 <= i < other.views_view().len() && sel[k] == other.views_view()[i];
            assert(view_in_bounds(other.views_view()[i], other.data_buffers_view()));
            if other.dtype_view() == ViewDataType::Utf8View {
                assert(valid_utf8(other.values_view()[i]));
                assert(other.values_view()[i] == view_bytes(sel[k], other.data_buffers_view()));
            }
        }
    }
}

/// Builds a binary-view array row by row.
///
/// Rows of at most `MAX_INLINE_SIZE` bytes go inline into their view. Longer
/// rows are appended to the active buffer; when a row does not fit there,
/// the active buffer is sealed and a larger one started. Rows longer than
/// `MAX_BUFFER_LEN` get a data buffer of their own. While the active buffer
/// holds bytes, its slot in `buffer_set` is an empty placeholder that
/// freezing fills.
///
/// `active_capacity` is the capacity the active buffer was allocated with;
/// growth decisions are taken against it.
pub struct BinaryViewArrayGenericBuilder {
    dtype: ViewDataType,
    views: Vec<ByteView>,
    active_buffer: Vec<u8>,
    active_capacity: usize,
    active_buffer_idx: u32,
    buffer_set: Vec<Vec<u8>>,
    /// The slot of every data buffer taken over from another array, by the
    /// id of the storage it lives in.
    stolen_buffers: SlotMap,
    validity: OptBitmapBuilder,
    /// Total bytes length if we would concatenate them all.
    total_bytes_len: usize,
    /// Total bytes in the buffer set (excluding remaining capacity).
    total_buffer_len: usize,
}

/// The result of sealing the active buffer into its slot.
pub open spec fn sealed_buffers(buffer_set: Seq<Vec<u8>>, active: Seq<u8>, idx: int) -> Seq<
    Seq<u8>,
> {
    if active.len() > 0 {
        buffers_view(buffer_set).update(idx, active)
    } else {
        buffers_view(buffer_set)
    }
}

impl BinaryViewArrayGenericBuilder {
    /// The views of the rows pushed so far.
    pub closed spec fn views_view(&self) -> Seq<ByteView> {
        self.views@
    }

    /// The data buffers as freezing would leave them.
    pub closed spec fn frozen_buffers(&self) -> Seq<Seq<u8>> {
        sealed_buffers(self.buffer_set@, self.active_buffer@, self.active_buffer_idx as int)
    }

    /// The bytes of every row pushed so far.
    pub open spec fn rows(&self) -> Seq<Seq<u8>> {
        Seq::new(
            self.views_view().len(),
            |k: int| view_bytes(self.views_view()[k], self.frozen_buffers()),
        )
    }

    /// The number of bytes in the active buffer.
    pub closed spec fn active_len(&self) -> nat {
        self.active_buffer@.len()
    }

    /// The capacity of the active buffer.
    pub closed spec fn active_capacity_view(&self) -> nat {
        self.active_capacity as nat
    }

    /// The validity bits added so far.
    pub closed spec fn validity_bits(&self) -> Seq<bool> {
        self.validity.bits_view()
    }

    /// The recorded total length of all rows.
    pub closed spec fn total_bytes_view(&self) -> nat {
        self.total_bytes_len as nat
    }

    /// The recorded total length of the data buffers.
    pub closed spec fn total_buffer_view(&self) -> nat {
        self.total_buffer_len as nat
    }

    /// The number of buffer slots in use.
    pub closed spec fn buffer_count(&self) -> nat {
        self.buffer_set@.len()
    }

    /// The logical type.
    pub closed spec fn dtype_view(&self) -> ViewDataType {
        self.dtype
    }

    /// The slot of every data buffer taken over from another array, by the
    /// id of its storage.
    pub closed spec fn stolen_view(&self) -> Map<u64, u32> {
        slot_entries(&self.stolen_buffers)
    }

    /// Every storage of `other` (with ids `ids`) that the builder already
    /// took a buffer from is held at its slot with the same bytes.
    pub open spec fn stolen_agree(&self, other: &BinaryViewArray, ids: Seq<u64>) -> bool {
        forall|j: int|
            0 <= j < ids.len() && #[trigger] self.stolen_view().dom().contains(ids[j]) ==> {
                &&& self.stolen_view()[ids[j]] < self.frozen_buffers().len()
                &&& self.frozen_buffers()[self.stolen_view()[ids[j]] as int]
                    == other.data_buffers_view()[j]
            }
    }

    /// Slot `slot` holds a buffer of `other` (with ids `ids`) whose storage
    /// `before` had not taken a buffer from, and the slot is remembered for
    /// that storage.
    pub open spec fn slot_taken_from(
        &self,
        before: &Self,
        other: &BinaryViewArray,
        ids: Seq<u64>,
        slot: int,
    ) -> bool {
        exists|j: int|
            #![trigger ids[j]]
            0 <= j < ids.len() && !before.stolen_view().dom().contains(ids[j])
                && self.stolen_view().dom().contains(ids[j]) && self.stolen_view()[ids[j]] == slot
                && self.frozen_buffers()[slot] == other.data_buffers_view()[j]
    }

    /// `self` is `before` with `views` of `other` appended, each `repeats`
    /// times, pointing into buffers taken over from `other` once per storage
    /// (ids `ids`): the rows are the views' bytes, the old buffers stay in
    /// front, every new buffer is one of `other`'s, remembered for a storage
    /// that `before` had not taken from, and exactly the storages of the
    /// non-inline views are added.
    pub open spec fn shared_from(
        &self,
        before: &Self,
        views: Seq<ByteView>,
        repeats: int,
        other: &BinaryViewArray,
        ids: Seq<u64>,
    ) -> bool {
        let added = dedup_rows(views, repeats, other.data_buffers_view());
        let old_len = before.frozen_buffers().len() as int;
        &&& self.rows() == before.rows() + added
        &&& self.total_bytes_view() == before.total_bytes_view() + sum_lens(added)
        &&& self.frozen_buffers() == before.frozen_buffers() + buffers_at(
            other.data_buffers_view(),
            taken_order(before.stolen_view().dom(), views, ids),
        )
        &&& self.total_buffer_view() == before.total_buffer_view() + sum_lens(
            self.frozen_buffers().subrange(old_len, self.frozen_buffers().len() as int),
        )
        &&& forall|id: u64| #[trigger]
            before.stolen_view().dom().contains(id) ==> self.stolen_view()[id]
                == before.stolen_view()[id]
        &&& self.stolen_view().dom() == before.stolen_view().dom().union(taken_ids(views, ids))
        &&& forall|slot: int|
            old_len <= slot < self.frozen_buffers().len() ==> #[trigger] self.slot_taken_from(
                before,
                other,
                ids,
                slot,
            )
        &&& self.stolen_agree(other, ids)
    }

    /// `shared_from` speaks only of the rows, buffers, taken-over storages
    /// and totals, so a builder that agrees on those with one that meets it
    /// meets it too.
    proof fn lemma_shared_from_same(
        a: &Self,
        b: &Self,
        before: &Self,
        views: Seq<ByteView>,
        repeats: int,
        other: &BinaryViewArray,
        ids: Seq<u64>,
    )
        requires
            a.shared_from(before, views, repeats, other, ids),
            b.views_view() == a.views_view(),
            b.frozen_buffers() == a.frozen_buffers(),
            b.stolen_view() == a.stolen_view(),
            b.total_bytes_view() == a.total_bytes_view(),
            b.total_buffer_view() == a.total_buffer_view(),
        ensures
            b.shared_from(before, views, repeats, other, ids),
    {
        assert(b.rows() == a.rows());
        assert forall|slot: int|
            before.frozen_buffers().len() <= slot < b.frozen_buffers().len() implies #[trigger] b.slot_taken_from(
            before,
            other,
            ids,
            slot,
        ) by {
            assert(a.slot_taken_from(before, other, ids, slot));
        }
    }

    /// `self` remembers the same storages as `before` and still holds, at
    /// the slot of each, the bytes that `before` held there.
    pub open spec fn keeps_stolen(&self, before: &Self) -> bool {
        &&& self.stolen_view() == before.stolen_view()
        &&& forall|id: u64| #[trigger]
            before.stolen_view().dom().contains(id) ==> {
                &&& before.stolen_view()[id] < before.frozen_buffers().len()
                &&& before.stolen_view()[id] < self.frozen_buffers().len()
                &&& self.frozen_buffers()[before.stolen_view()[id] as int]
                    == before.frozen_buffers()[before.stolen_view()[id] as int]
            }
    }

    /// A builder that keeps what `before` took over agrees with `other`
    /// wherever `before` did.
    pub proof fn lemma_keeps_stolen_agree(
        &self,
        before: &Self,
        other: &BinaryViewArray,
        ids: Seq<u64>,
    )
        requires
            self.keeps_stolen(before),
            before.stolen_agree(other, ids),
        ensures
            self.stolen_agree(other, ids),
    {
        assert forall|j: int|
            0 <= j < ids.len() && #[trigger] self.stolen_view().dom().contains(ids[j]) implies {
            &&& self.stolen_view()[ids[j]] < self.frozen_buffers().len()
            &&& self.frozen_buffers()[self.stolen_view()[ids[j]] as int]
                == other.data_buffers_view()[j]
        } by {
            assert(before.stolen_view().dom().contains(ids[j]));
        }
    }

    /// The slot of the active buffer among the data buffers.
    pub closed spec fn active_slot(&self) -> int {
        self.active_buffer_idx as int
    }

    /// Everything but where the active buffer stands.
    closed spec fn wf_core(&self) -> bool {
        &&& self.validity.wf()
        &&& self.buffer_set@.len() <= u32::MAX
        &&& self.active_buffer@.len() <= self.active_capacity <= MAX_ROW_BYTE_LEN
        &&& self.active_buffer@.len() <= MAX_BUFFER_LEN
        &&& self.active_buffer_idx <= self.buffer_set@.len()
        &&& (self.active_buffer@.len() > 0 ==> self.buffer_set@[self.active_buffer_idx as int]@.len()
            == 0)
        &&& forall|id: u64| #[trigger]
            self.stolen_view().dom().contains(id) ==> {
                &&& self.stolen_view()[id] < self.buffer_set@.len()
                &&& self.buffer_set@[self.stolen_view()[id] as int]@.len() > 0
            }
        &&& (self.active_buffer@.len() > 0 ==> self.active_buffer_idx < self.buffer_set@.len())
        &&& forall|j: int|
            0 <= j < self.buffer_set@.len() && j != self.active_buffer_idx ==> (
            #[trigger] self.buffer_set@[j])@.len() > 0
        &&& forall|k: int|
            0 <= k < self.views@.len() ==> #[trigger] view_in_bounds(
                self.views@[k],
                self.frozen_buffers(),
            )
        &&& self.total_bytes_len == sum_view_lens(self.views@)
        &&& self.total_buffer_len == sum_lens(self.frozen_buffers())
    }

    /// The builder's invariant.
    pub closed spec fn wf(&self) -> bool {
        &&& self.wf_core()
        &&& (self.dtype == ViewDataType::Utf8View ==> rows_utf8(self.rows()))
        &&& self.active_capacity <= MAX_BUFFER_LEN
        &&& (self.active_buffer@.len() == 0 ==> {
            &&& self.active_capacity == 0
            &&& (self.active_buffer_idx == self.buffer_set@.len() || self.buffer_set@[
                self.active_buffer_idx as int]@.len() > 0)
        })
    }

    /// Every data buffer of a well-formed builder, as freezing would leave
    /// them, holds at least one byte.
    pub proof fn lemma_frozen_buffers_nonempty(&self)
        requires
            self.wf(),
        ensures
            forall|j: int|
                0 <= j < self.frozen_buffers().len() ==> #[trigger] self.frozen_buffers()[j].len()
                    > 0,
    {
        assert forall|j: int| 0 <= j < self.frozen_buffers().len() implies #[trigger] self.frozen_buffers()[j].len()
            > 0 by {
            if j != self.active_buffer_idx {
                assert(self.buffer_set@[j]@.len() > 0);
            }
        }
    }

    /// A well-formed builder has one buffer slot per data buffer that
    /// freezing would leave.
    pub proof fn lemma_buffer_count(&self)
        requires
            self.wf(),
        ensures
            self.buffer_count() == self.frozen_buffers().len(),
    {
    }

    /// An empty builder for arrays of type `dtype`.
    pub fn new(dtype: ViewDataType) -> (r: Self)
        ensures
            r.wf(),
            r.dtype_view() == dtype,
            r.views_view() == Seq::<ByteView>::empty(),
            r.frozen_buffers() == Seq::<Seq<u8>>::empty(),
            r.validity_bits() == Seq::<bool>::empty(),
            r.total_bytes_view() == 0,
            r.total_buffer_view() == 0,
            r.active_capacity_view() == 0,
            r.buffer_count() == 0,
            r.stolen_view().dom().is_empty(),
    {
        let r = BinaryViewArrayGenericBuilder {
            dtype,
            views: Vec::new(),
            active_buffer: Vec::new(),
            active_capacity: 0,
            active_buffer_idx: 0,
            buffer_set: Vec::new(),
            validity: OptBitmapBuilder::new(),
            total_bytes_len: 0,
            stolen_buffers: slot_map_new(),
            total_buffer_len: 0,
        };
        proof {
            assert(r.frozen_buffers() =~= Seq::<Seq<u8>>::empty());
        }
        r
    }

    /// Makes sure the active buffer can take `additional` more bytes while
    /// keeping the next view's `offset + length` within `MAX_BUFFER_LEN`.
    fn reserve_active_buffer(&mut self, additional: usize)
        requires
            old(self).wf(),
            additional <= MAX_BUFFER_LEN,
            old(self).buffer_count() + 1 < u32::MAX,
        ensures
            final(self).wf_core(),
            final(self).active_capacity <= MAX_BUFFER_LEN,
            final(self).dtype == old(self).dtype,
            final(self).views == old(self).views,
            final(self).stolen_view() == old(self).stolen_view(),
            final(self).keeps_stolen(old(self)),
            final(self).validity == old(self).validity,
            final(self).total_bytes_len == old(self).total_bytes_len,
            final(self).total_buffer_len == old(self).total_buffer_len,
            final(self).active_buffer@.len() + additional <= final(self).active_capacity,
            final(self).active_buffer@.len() + additional <= MAX_BUFFER_LEN,
            additional > 0 ==> final(self).active_buffer_idx < final(self).buffer_set@.len(),
            final(self).buffer_set@.len() <= old(self).buffer_set@.len() + 1,
            fits_active(old(self).active_len() as int, old(self).active_capacity as int, additional as int)
                ==> *final(self) == *old(self),
            !fits_active(old(self).active_len() as int, old(self).active_capacity as int, additional as int)
                ==> {
                &&& final(self).active_buffer@.len() == 0
                &&& final(self).active_capacity == grown_capacity(
                    old(self).active_capacity as int,
                    additional as int,
                )
                &&& final(self).frozen_buffers() == old(self).frozen_buffers().push(Seq::empty())
            },
    {
        let len = self.active_buffer.len();
        let cap = self.active_capacity;
        let does_not_fit_in_buffer = additional > cap - len;
        let offset_will_not_fit = len + additional > MAX_BUFFER_LEN;
        if does_not_fit_in_buffer || offset_will_not_fit {
            self.reserve_active_buffer_slow(additional);
        }
    }

    /// Seals the active buffer into its slot and starts a new, larger one
    /// whose slot is a placeholder at the end of the buffer set.
    fn reserve_active_buffer_slow(&mut self, additional: usize)
        requires
            old(self).wf(),
            additional <= MAX_ROW_BYTE_LEN,
            old(self).buffer_count() + 1 < u32::MAX,
        ensures
            final(self).wf_core(),
            final(self).dtype == old(self).dtype,
            final(self).views == old(self).views,
            final(self).stolen_view() == old(self).stolen_view(),
            final(self).keeps_stolen(old(self)),
            final(self).validity == old(self).validity,
            final(self).total_bytes_len == old(self).total_bytes_len,
            final(self).total_buffer_len == old(self).total_buffer_len,
            final(self).active_buffer@.len() == 0,
            final(self).active_capacity == grown_capacity(
                old(self).active_capacity as int,
                additional as int,
            ),
            final(self).active_buffer_idx == old(self).buffer_set@.len(),
            final(self).buffer_set@.len() == old(self).buffer_set@.len() + 1,
            old(self).active_buffer@.len() > 0 ==> final(self).buffer_set@[old(
                self,
            ).active_buffer_idx as int]@ == old(self).active_buffer@,
            final(self).frozen_buffers() == old(self).frozen_buffers().push(Seq::empty()),
    {
        let ghost old_frozen = self.frozen_buffers();
        let doubled = self.active_capacity * 2;
        let clamped = if doubled < DEFAULT_BLOCK_SIZE {
            DEFAULT_BLOCK_SIZE
        } else if doubled > MAX_EXP_BLOCK_SIZE {
            MAX_EXP_BLOCK_SIZE
        } else {
            doubled
        };
        let new_capacity = if clamped >= additional {
            clamped
        } else {
            additional
        };

        // Allocate a new buffer and flush the old buffer.
        let mut old_buffer: Vec<u8> = Vec::with_capacity(new_capacity);
        std::mem::swap(&mut old_buffer, &mut self.active_buffer);
        self.active_capacity = new_capacity;
        if old_buffer.len() > 0 {
            // Replace the placeholder with the real buffer.
            self.buffer_set.set(self.active_buffer_idx as usize, old_buffer);
        }
        self.active_buffer_idx = self.buffer_set.len() as u32;
        // Push a placeholder so that active_buffer_idx stays valid.
        self.buffer_set.push(Vec::new());
        proof {
            assert(buffers_view(self.buffer_set@) =~= old_frozen.push(Seq::empty()));
            assert(self.frozen_buffers() =~= old_frozen.push(Seq::empty()));
            lemma_sum_lens_push(old_frozen, Seq::empty());
            lemma_bufs_extend_self(old_frozen);
            assert forall|j: int|
                0 <= j < old(self).buffer_set@.len() && old(self).buffer_set@[j]@.len() > 0 implies j
                < self.buffer_set@.len() && #[trigger] self.buffer_set@[j]@ == old(
                self,
            ).buffer_set@[j]@ by {
                if j == old(self).active_buffer_idx && old(self).active_buffer@.len() > 0 {
                    assert(old(self).buffer_set@[j]@.len() == 0);
                }
            }
            lemma_stolen_slots_kept(old(self).stolen_view(), old(self).buffer_set@, self.buffer_set@);
            assert(self.stolen_view() == old(self).stolen_view());
            assert forall|k: int| 0 <= k < self.views@.len() implies #[trigger] view_in_bounds(
                self.views@[k],
                self.frozen_buffers(),
            ) by {
                lemma_view_stable(self.views@[k], old_frozen, self.frozen_buffers());
            }
            assert forall|j: int|
                0 <= j < self.buffer_set@.len() && j != self.active_buffer_idx implies (
            #[trigger] self.buffer_set@[j])@.len() > 0 by {
                assert(buffers_view(self.buffer_set@)[j] == old_frozen[j]);
                if j != old(self).active_buffer_idx {
                    assert(old(self).buffer_set@[j] == self.buffer_set@[j]);
                }
            }
        }
    }

    /// Stores the non-inline row `bytes` in a data buffer of its own, at
    /// offset 0, and returns its view (which the caller pushes).
    ///
    /// A non-empty active buffer is sealed into its slot first. The slot of
    /// the next active buffer is left one past the end of the buffer set.
    pub fn push_oversize_row_buffer(&mut self, bytes: &[u8]) -> (view: ByteView)
        requires
            old(self).wf(),
            MAX_INLINE_SIZE < bytes@.len() <= MAX_ROW_BYTE_LEN,
            old(self).buffer_count() + 1 < u32::MAX,
            old(self).total_buffer_view() + bytes@.len() <= usize::MAX,
        ensures
            final(self).wf(),
            final(self).dtype_view() == old(self).dtype_view(),
            final(self).views_view() == old(self).views_view(),
            final(self).validity_bits() == old(self).validity_bits(),
            final(self).total_bytes_view() == old(self).total_bytes_view(),
            final(self).total_buffer_view() == old(self).total_buffer_view() + bytes@.len(),
            final(self).frozen_buffers() == old(self).frozen_buffers().push(bytes@),
            final(self).rows() == old(self).rows(),
            final(self).stolen_view() == old(self).stolen_view(),
            final(self).keeps_stolen(old(self)),
            final(self).active_capacity_view() == 0,
            final(self).buffer_count() <= old(self).buffer_count() + 1,
            view_in_bounds(view, final(self).frozen_buffers()),
            view_bytes(view, final(self).frozen_buffers()) == bytes@,
            !is_inline(view),
            view.buffer_idx + 1 == final(self).frozen_buffers().len(),
            view.offset == 0,
    {
        let ghost old_frozen = self.frozen_buffers();
        if self.active_buffer.len() > 0 {
            let mut old_buffer: Vec<u8> = Vec::new();
            std::mem::swap(&mut old_buffer, &mut self.active_buffer);
            self.active_capacity = 0;
            self.buffer_set.set(self.active_buffer_idx as usize, old_buffer);
        } else if (self.active_buffer_idx as usize) < self.buffer_set.len()
            && self.buffer_set[self.active_buffer_idx as usize].len() == 0 {
            // The active slot still holds the empty placeholder; drop it so
            // that the dedicated buffer takes that slot. A slot that names a
            // buffer taken over from another array is no placeholder and
            // stays.
            self.buffer_set.pop();
        }
        proof {
            assert(buffers_view(self.buffer_set@) =~= old_frozen);
        }
        let oversize_idx = self.buffer_set.len() as u32;
        let mut owned: Vec<u8> = Vec::new();
        owned.extend_from_slice(bytes);
        proof {
            assert(owned@ =~= bytes@);
        }
        self.buffer_set.push(owned);
        self.total_buffer_len = self.total_buffer_len + bytes.len();
        self.active_buffer_idx = self.buffer_set.len() as u32;
        let view = ByteView::new_noninline(bytes, oversize_idx, 0);
        proof {
            assert(self.frozen_buffers() =~= old_frozen.push(bytes@));
            lemma_sum_lens_push(old_frozen, bytes@);
            lemma_bufs_extend_self(old_frozen);
            assert forall|j: int|
                0 <= j < old(self).buffer_set@.len() && old(self).buffer_set@[j]@.len() > 0 implies j
                < self.buffer_set@.len() && #[trigger] self.buffer_set@[j]@ == old(
                self,
            ).buffer_set@[j]@ by {
                if j == old(self).active_buffer_idx && old(self).active_buffer@.len() > 0 {
                    assert(old(self).buffer_set@[j]@.len() == 0);
                }
            }
            lemma_stolen_slots_kept(old(self).stolen_view(), old(self).buffer_set@, self.buffer_set@);
            assert(self.stolen_view() == old(self).stolen_view());
            assert forall|k: int| 0 <= k < self.views@.len() implies #[trigger] view_in_bounds(
                self.views@[k],
                self.frozen_buffers(),
            ) by {
                lemma_view_stable(self.views@[k], old_frozen, self.frozen_buffers());
            }
            assert forall|j: int|
                0 <= j < self.buffer_set@.len() && j != self.active_buffer_idx implies (
            #[trigger] self.buffer_set@[j])@.len() > 0 by {
                if j + 1 < self.buffer_set@.len() {
                    assert(buffers_view(self.buffer_set@)[j] == old_frozen[j]);
                    if j != old(self).active_buffer_idx {
                        assert(old(self).buffer_set@[j]@.len() > 0);
                    }
                }
            }
            assert(self.rows() =~= old(self).rows()) by {
                assert forall|k: int| 0 <= k < self.views@.len() implies #[trigger] self.rows()[k]
                    == old(self).rows()[k] by {
                    lemma_view_stable(self.views@[k], old_frozen, self.frozen_buffers());
                }
            }
            assert(view_bytes(view, self.frozen_buffers()) =~= bytes@);
        }
        view
    }

    /// Appends the row `bytes`, without touching the validity mask.
    pub fn push_value_ignore_validity(&mut self, bytes: &[u8])
        requires
            old(self).wf(),
            fits_dtype(old(self).dtype_view(), bytes@),
            bytes@.len() <= MAX_ROW_BYTE_LEN,
            old(self).total_bytes_view() + bytes@.len() <= usize::MAX,
            old(self).total_buffer_view() + noninline_len(bytes@) <= usize::MAX,
            old(self).buffer_count() + 1 < u32::MAX,
        ensures
            final(self).stolen_view() == old(self).stolen_view(),
            final(self).keeps_stolen(old(self)),
            final(self).wf(),
            final(self).rows() == old(self).rows().push(bytes@),
            final(self).dtype_view() == old(self).dtype_view(),
            final(self).validity_bits() == old(self).validity_bits(),
            final(self).total_bytes_view() == old(self).total_bytes_view() + bytes@.len(),
            final(self).total_buffer_view() == old(self).total_buffer_view() + (if bytes@.len()
                <= MAX_INLINE_SIZE {
                0
            } else {
                bytes@.len()
            }),
            final(self).buffer_count() <= old(self).buffer_count() + 1,
            bytes@.len() <= MAX_INLINE_SIZE ==> {
                &&& final(self).frozen_buffers() == old(self).frozen_buffers()
                &&& final(self).active_capacity_view() == old(self).active_capacity_view()
            },
            bytes@.len() > MAX_BUFFER_LEN ==> {
                &&& final(self).frozen_buffers() == old(self).frozen_buffers().push(bytes@)
                &&& final(self).active_capacity_view() == 0
            },
            MAX_INLINE_SIZE < bytes@.len() <= MAX_BUFFER_LEN && fits_active(
                old(self).active_len() as int,
                old(self).active_capacity_view() as int,
                bytes@.len() as int,
            ) ==> {
                let fb = old(self).frozen_buffers();
                let slot = old(self).active_slot();
                &&& 0 <= slot < fb.len()
                &&& final(self).frozen_buffers() == fb.update(slot, fb[slot] + bytes@)
                &&& final(self).active_capacity_view() == old(self).active_capacity_view()
            },
            MAX_INLINE_SIZE < bytes@.len() <= MAX_BUFFER_LEN && !fits_active(
                old(self).active_len() as int,
                old(self).active_capacity_view() as int,
                bytes@.len() as int,
            ) ==> {
                &&& final(self).frozen_buffers() == old(self).frozen_buffers().push(bytes@)
                &&& final(self).active_capacity_view() == grown_capacity(
                    old(self).active_capacity_view() as int,
                    bytes@.len() as int,
                )
            },
    {
        let ghost old_rows = self.rows();
        let ghost old_frozen = self.frozen_buffers();
        let view = if bytes.len() <= MAX_INLINE_SIZE as usize {
            ByteView::new_inline(bytes)
        } else if bytes.len() > MAX_BUFFER_LEN {
            self.push_oversize_row_buffer(bytes)
        } else {
            self.reserve_active_buffer(bytes.len());
            let ghost mid_frozen = self.frozen_buffers();
            let ghost mid_active = self.active_buffer@;
            // No overflow: ensured by reserve_active_buffer.
            let offset = self.active_buffer.len() as u32;
            self.active_buffer.extend_from_slice(bytes);
            self.total_buffer_len = self.total_buffer_len + bytes.len();
            let v = ByteView::new_noninline(bytes, self.active_buffer_idx, offset);
            proof {
                assert(self.active_buffer@ =~= mid_active + bytes@);
                let idx = self.active_buffer_idx as int;
                assert(buffers_view(self.buffer_set@)[idx].len() == 0);
                assert(self.frozen_buffers() =~= mid_frozen.update(idx, mid_active + bytes@));
                assert(mid_frozen[idx] == mid_active) by {
                    if mid_active.len() == 0 {
                        assert(mid_frozen[idx] =~= mid_active);
                    }
                }
                lemma_sum_lens_update(mid_frozen, idx, mid_active + bytes@);
                assert forall|j: int| 0 <= j < mid_frozen.len() implies mid_frozen[j].len()
                    <= self.frozen_buffers()[j].len() && (#[trigger] self.frozen_buffers()[j]).take(
                    mid_frozen[j].len() as int,
                ) == mid_frozen[j] by {
                    if j == idx {
                        assert((mid_active + bytes@).take(mid_active.len() as int) =~= mid_active);
                    } else {
                        assert(mid_frozen[j].take(mid_frozen[j].len() as int) =~= mid_frozen[j]);
                    }
                }
                assert forall|k: int| 0 <= k < self.views@.len() implies #[trigger] view_in_bounds(
                    self.views@[k],
                    self.frozen_buffers(),
                ) by {
                    lemma_view_stable(self.views@[k], mid_frozen, self.frozen_buffers());
                }
                assert forall|k: int| 0 <= k < self.views@.len() implies view_bytes(
                    self.views@[k],
                    self.frozen_buffers(),
                ) == #[trigger] old_rows[k] by {
                    lemma_view_stable(self.views@[k], mid_frozen, self.frozen_buffers());
                    if !fits_active(
                        old(self).active_len() as int,
                        old(self).active_capacity as int,
                        bytes@.len() as int,
                    ) {
                        lemma_bufs_extend_self(old_frozen);
                        lemma_view_stable(self.views@[k], old_frozen, mid_frozen);
                    }
                }
                assert(view_bytes(v, self.frozen_buffers()) =~= bytes@);
                if fits_active(
                    old(self).active_len() as int,
                    old(self).active_capacity as int,
                    bytes@.len() as int,
                ) {
                    assert(idx == old(self).active_buffer_idx);
                    assert(self.frozen_buffers() =~= old_frozen.update(
                        idx,
                        old_frozen[idx] + bytes@,
                    ));
                } else {
                    assert(self.frozen_buffers() =~= old_frozen.push(bytes@));
                }
            }
            v
        };
        let ghost pre_push_frozen = self.frozen_buffers();
        proof {
            if bytes@.len() <= MAX_INLINE_SIZE {
                assert(view_bytes(view, self.frozen_buffers()) =~= bytes@);
            }
            assert forall|k: int| 0 <= k < self.views@.len() implies view_bytes(
                self.views@[k],
                self.frozen_buffers(),
            ) == #[trigger] old_rows[k] by {
                if bytes@.len() > MAX_BUFFER_LEN {
                    assert(self.rows()[k] == old_rows[k]);
                }
            }
        }
        self.total_bytes_len = self.total_bytes_len + bytes.len();
        self.views.push(view);
        proof {
            lemma_sum_view_lens_push(old(self).views@, view);
            assert(self.views@.drop_last() =~= old(self).views@);
            assert(self.stolen_view() == old(self).stolen_view());
            assert(self.rows() =~= old_rows.push(bytes@));
            assert forall|k: int| 0 <= k < self.views@.len() implies #[trigger] view_in_bounds(
                self.views@[k],
                self.frozen_buffers(),
            ) by {
                if k < old(self).views@.len() {
                    assert(self.views@[k] == old(self).views@[k]);
                }
            }
        }
    }

    /// Appends an inline view as it is, without touching the validity mask.
    pub fn push_inline_view_ignore_validity(&mut self, view: ByteView)
        requires
            old(self).wf(),
            fits_dtype(old(self).dtype_view(), inline_bytes(view)),
            is_inline(view),
            old(self).total_bytes_view() + view.length <= usize::MAX,
        ensures
            final(self).stolen_view() == old(self).stolen_view(),
            final(self).keeps_stolen(old(self)),
            final(self).wf(),
            final(self).rows() == old(self).rows().push(inline_bytes(view)),
            final(self).frozen_buffers() == old(self).frozen_buffers(),
            final(self).dtype_view() == old(self).dtype_view(),
            final(self).validity_bits() == old(self).validity_bits(),
            final(self).total_bytes_view() == old(self).total_bytes_view() + view.length,
            final(self).total_buffer_view() == old(self).total_buffer_view(),
            final(self).active_capacity_view() == old(self).active_capacity_view(),
            final(self).buffer_count() == old(self).buffer_count(),
    {
        proof {
            lemma_sum_view_lens_push(self.views@, view);
        }
        self.total_bytes_len = self.total_bytes_len + view.length as usize;
        self.views.push(view);
        proof {
            assert(self.rows() =~= old(self).rows().push(inline_bytes(view)));
            assert(self.stolen_view() == old(self).stolen_view());
            assert forall|k: int| 0 <= k < self.views@.len() implies #[trigger] view_in_bounds(
                self.views@[k],
                self.frozen_buffers(),
            ) by {
                if k < old(self).views@.len() {
                    assert(self.views@[k] == old(self).views@[k]);
                }
            }
        }
    }

    /// Stores the non-inline row `bytes` in a data buffer of its own, the
    /// way rows longer than `MAX_BUFFER_LEN` are stored, and marks it valid.
    pub fn push_row_in_own_buffer(&mut self, bytes: &[u8])
        requires
            old(self).wf(),
            fits_dtype(old(self).dtype_view(), bytes@),
            MAX_INLINE_SIZE < bytes@.len() <= MAX_ROW_BYTE_LEN,
            old(self).buffer_count() + 1 < u32::MAX,
            old(self).total_bytes_view() + bytes@.len() <= usize::MAX,
            old(self).total_buffer_view() + bytes@.len() <= usize::MAX,
            old(self).validity_bits().len() + 1 <= usize::MAX,
        ensures
            final(self).stolen_view() == old(self).stolen_view(),
            final(self).keeps_stolen(old(self)),
            final(self).wf(),
            final(self).rows() == old(self).rows().push(bytes@),
            final(self).frozen_buffers() == old(self).frozen_buffers().push(bytes@),
            final(self).validity_bits() == old(self).validity_bits().push(true),
            final(self).dtype_view() == old(self).dtype_view(),
            final(self).total_bytes_view() == old(self).total_bytes_view() + bytes@.len(),
            final(self).total_buffer_view() == old(self).total_buffer_view() + bytes@.len(),
            final(self).active_capacity_view() == 0,
            final(self).buffer_count() <= old(self).buffer_count() + 1,
    {
        let ghost old_rows = self.rows();
        let view = self.push_oversize_row_buffer(bytes);
        self.total_bytes_len = self.total_bytes_len + bytes.len();
        self.views.push(view);
        self.validity.extend_constant(1, true);
        proof {
            lemma_sum_view_lens_push(old(self).views@, view);
            assert(self.rows() =~= old_rows.push(bytes@)) by {
                assert forall|k: int| 0 <= k < old_rows.len() implies #[trigger] self.rows()[k]
                    == old_rows[k] by {
                    assert(self.views@[k] == old(self).views@[k]);
                }
            }
            assert(self.validity_bits() =~= old(self).validity_bits().push(true));
            assert forall|k: int| 0 <= k < self.views@.len() implies #[trigger] view_in_bounds(
                self.views@[k],
                self.frozen_buffers(),
            ) by {
                if k < old(self).views@.len() {
                    assert(self.views@[k] == old(self).views@[k]);
                }
            }
        }
    }

    /// Points the non-inline `view` of `other` at the builder's copy of its
    /// data buffer: a storage seen before keeps the slot it was given, a new
    /// one has its buffer appended and remembered.
    fn translate_view(&mut self, view: ByteView, other: &BinaryViewArray, ids: &[u64]) -> (r:
        ByteView)
        requires
            old(self).wf(),
            other.wf(),
            ids_name_storage(other, ids@),
            old(self).stolen_agree(other, ids@),
            !is_inline(view),
            view_in_bounds(view, other.data_buffers_view()),
            !old(self).stolen_view().dom().contains(ids@[view.buffer_idx as int]) ==> {
                &&& old(self).buffer_count() + 1 < u32::MAX
                &&& old(self).total_buffer_view() + other.data_buffers_view()[
                    view.buffer_idx as int].len() <= usize::MAX
            },
        ensures
            final(self).wf(),
            final(self).stolen_agree(other, ids@),
            final(self).views_view() == old(self).views_view(),
            final(self).rows() == old(self).rows(),
            final(self).dtype_view() == old(self).dtype_view(),
            final(self).validity_bits() == old(self).validity_bits(),
            final(self).total_bytes_view() == old(self).total_bytes_view(),
            final(self).active_capacity_view() == old(self).active_capacity_view(),
            r.length == view.length,
            r.prefix == view.prefix,
            r.offset == view.offset,
            view_in_bounds(r, final(self).frozen_buffers()),
            view_bytes(r, final(self).frozen_buffers()) == view_bytes(
                view,
                other.data_buffers_view(),
            ),
            old(self).stolen_view().dom().contains(ids@[view.buffer_idx as int]) ==> {
                &&& final(self).stolen_view() == old(self).stolen_view()
                &&& final(self).keeps_stolen(old(self))
                &&& final(self).frozen_buffers() == old(self).frozen_buffers()
                &&& final(self).total_buffer_view() == old(self).total_buffer_view()
                &&& final(self).buffer_count() == old(self).buffer_count()
                &&& r.buffer_idx == old(self).stolen_view()[ids@[view.buffer_idx as int]]
            },
            !old(self).stolen_view().dom().contains(ids@[view.buffer_idx as int]) ==> {
                &&& final(self).stolen_view() == old(self).stolen_view().insert(
                    ids@[view.buffer_idx as int],
                    old(self).buffer_count() as u32,
                )
                &&& final(self).frozen_buffers() == old(self).frozen_buffers().push(
                    other.data_buffers_view()[view.buffer_idx as int],
                )
                &&& final(self).total_buffer_view() == old(self).total_buffer_view()
                    + other.data_buffers_view()[view.buffer_idx as int].len()
                &&& final(self).buffer_count() == old(self).buffer_count() + 1
                &&& r.buffer_idx == old(self).buffer_count()
            },
    {
        let bi = view.buffer_idx as usize;
        let id = ids[bi];
        let ghost old_frozen = self.frozen_buffers();
        let ghost src = other.data_buffers_view()[bi as int];
        proof {
            self.lemma_buffer_count();
            if self.stolen_view().dom().contains(id) {
                assert(self.stolen_view().dom().contains(ids@[bi as int]));
            }
        }
        let new_idx = match slot_map_get(&self.stolen_buffers, id) {
            Some(idx) => idx,
            None => {
                let idx = self.buffer_set.len() as u32;
                let bufs = other.data_buffers();
                let mut buffer: Vec<u8> = Vec::new();
                buffer.extend_from_slice(bufs[bi].as_slice());
                proof {
                    assert(buffers_view(bufs@)[bi as int] == bufs@[bi as int]@);
                    assert(buffer@ =~= src);
                }
                self.total_buffer_len = self.total_buffer_len + buffer.len();
                self.buffer_set.push(buffer);
                slot_map_insert(&mut self.stolen_buffers, id, idx);
                proof {
                    assert(self.frozen_buffers() =~= old_frozen.push(src));
                    lemma_sum_lens_push(old_frozen, src);
                    lemma_bufs_extend_self(old_frozen);
                    assert forall|k: int| 0 <= k < self.views@.len() implies #[trigger] view_in_bounds(
                        self.views@[k],
                        self.frozen_buffers(),
                    ) by {
                        lemma_view_stable(self.views@[k], old_frozen, self.frozen_buffers());
                    }
                    assert(self.rows() =~= old(self).rows()) by {
                        assert forall|k: int| 0 <= k < self.views@.len() implies #[trigger] self.rows()[k]
                            == old(self).rows()[k] by {
                            lemma_view_stable(self.views@[k], old_frozen, self.frozen_buffers());
                        }
                    }
                    assert(src.len() > 0);
                    assert forall|j: int|
                        0 <= j < self.buffer_set@.len() && j != self.active_buffer_idx implies (
                    #[trigger] self.buffer_set@[j])@.len() > 0 by {
                        if j + 1 < self.buffer_set@.len() {
                            assert(self.buffer_set@[j] == old(self).buffer_set@[j]);
                        }
                    }
                    assert forall|sid: u64| #[trigger]
                        self.stolen_view().dom().contains(sid) implies self.stolen_view()[sid]
                        < self.buffer_set@.len() && self.buffer_set@[self.stolen_view()[sid] as int]@.len()
                        > 0 by {
                        if sid != id {
                            assert(old(self).stolen_view().dom().contains(sid));
                            assert(self.buffer_set@[old(self).stolen_view()[sid] as int]
                                == old(self).buffer_set@[old(self).stolen_view()[sid] as int]);
                        }
                    }
                    assert forall|j: int|
                        0 <= j < ids@.len() && #[trigger] self.stolen_view().dom().contains(ids@[j])
                        implies self.stolen_view()[ids@[j]] < self.frozen_buffers().len()
                        && self.frozen_buffers()[self.stolen_view()[ids@[j]] as int]
                        == other.data_buffers_view()[j] by {
                        if ids@[j] == id {
                            assert(ids@[j] == ids@[bi as int]);
                        } else {
                            assert(old(self).stolen_view().dom().contains(ids@[j]));
                        }
                    }
                }
                idx
            },
        };
        let r = ByteView {
            length: view.length,
            prefix: view.prefix,
            buffer_idx: new_idx,
            offset: view.offset,
        };
        proof {
            assert(view_bytes(r, self.frozen_buffers()) =~= view_bytes(
                view,
                other.data_buffers_view(),
            ));
        }
        r
    }

    /// Appends a view that already points inside the builder's buffers,
    /// without touching the validity mask.
    fn push_view_in_bounds(&mut self, view: ByteView)
        requires
            old(self).wf(),
            view_in_bounds(view, old(self).frozen_buffers()),
            fits_dtype(old(self).dtype_view(), view_bytes(view, old(self).frozen_buffers())),
            old(self).total_bytes_view() + view.length <= usize::MAX,
        ensures
            final(self).wf(),
            final(self).rows() == old(self).rows().push(view_bytes(view, old(self).frozen_buffers())),
            final(self).frozen_buffers() == old(self).frozen_buffers(),
            final(self).stolen_view() == old(self).stolen_view(),
            final(self).keeps_stolen(old(self)),
            final(self).dtype_view() == old(self).dtype_view(),
            final(self).validity_bits() == old(self).validity_bits(),
            final(self).total_bytes_view() == old(self).total_bytes_view() + view.length,
            final(self).total_buffer_view() == old(self).total_buffer_view(),
            final(self).active_capacity_view() == old(self).active_capacity_view(),
            final(self).buffer_count() == old(self).buffer_count(),
    {
        proof {
            lemma_sum_view_lens_push(self.views@, view);
        }
        self.total_bytes_len = self.total_bytes_len + view.length as usize;
        self.views.push(view);
        proof {
            assert(self.rows() =~= old(self).rows().push(view_bytes(view, old(self).frozen_buffers())));
            assert(self.stolen_view() == old(self).stolen_view());
            assert forall|k: int| 0 <= k < self.views@.len() implies #[trigger] view_in_bounds(
                self.views@[k],
                self.frozen_buffers(),
            ) by {
                if k < old(self).views@.len() {
                    assert(self.views@[k] == old(self).views@[k]);
                }
            }
        }
    }

    /// Appends `views` of `other`, each `repeats` times, pointing every
    /// non-inline one at the builder's copy of its data buffer, which is
    /// taken over once per storage; the validity mask is left alone.
    fn extend_views_dedup_ignore_validity(
        &mut self,
        views: &Vec<ByteView>,
        repeats: usize,
        other: &BinaryViewArray,
        ids: &[u64],
    )
        requires
            old(self).wf(),
            other.wf(),
            ids_name_storage(other, ids@),
            old(self).stolen_agree(other, ids@),
            forall|k: int|
                0 <= k < views@.len() ==> #[trigger] view_in_bounds(
                    views@[k],
                    other.data_buffers_view(),
                ),
            old(self).dtype_view() == ViewDataType::Utf8View ==> forall|k: int|
                0 <= k < views@.len() ==> #[trigger] valid_utf8(
                    view_bytes(views@[k], other.data_buffers_view()),
                ),
            views@.len() * repeats <= usize::MAX,
            old(self).total_bytes_view() + sum_lens(
                dedup_rows(views@, repeats as int, other.data_buffers_view()),
            ) <= usize::MAX,
            old(self).total_buffer_view() + sum_lens(
                buffers_at(
                    other.data_buffers_view(),
                    taken_order(old(self).stolen_view().dom(), views@, ids@),
                ),
            ) <= usize::MAX,
            old(self).buffer_count() + taken_order(old(self).stolen_view().dom(), views@, ids@).len()
                < u32::MAX,
        ensures
            final(self).wf(),
            final(self).stolen_agree(other, ids@),
            final(self).rows() == old(self).rows() + dedup_rows(
                views@,
                repeats as int,
                other.data_buffers_view(),
            ),
            final(self).dtype_view() == old(self).dtype_view(),
            final(self).validity_bits() == old(self).validity_bits(),
            final(self).total_bytes_view() == old(self).total_bytes_view() + sum_lens(
                dedup_rows(views@, repeats as int, other.data_buffers_view()),
            ),
            final(self).buffer_count() <= old(self).buffer_count() + views@.len(),
            final(self).frozen_buffers() == old(self).frozen_buffers() + buffers_at(
                other.data_buffers_view(),
                taken_order(old(self).stolen_view().dom(), views@, ids@),
            ),
            final(self).total_buffer_view() == old(self).total_buffer_view() + sum_lens(
                final(self).frozen_buffers().subrange(
                    old(self).frozen_buffers().len() as int,
                    final(self).frozen_buffers().len() as int,
                ),
            ),
            forall|id: u64| #[trigger]
                old(self).stolen_view().dom().contains(id) ==> final(self).stolen_view()[id]
                    == old(self).stolen_view()[id],
            final(self).stolen_view().dom() == old(self).stolen_view().dom().union(
                taken_ids(views@, ids@),
            ),
            forall|slot: int|
                old(self).frozen_buffers().len() <= slot < final(self).frozen_buffers().len()
                    ==> #[trigger] final(self).slot_taken_from(old(self), other, ids@, slot),
    {
        let ghost obufs = other.data_buffers_view();
        let ghost expected = dedup_rows(views@, repeats as int, obufs);
        let ghost old_rows = self.rows();
        let ghost old_frozen = self.frozen_buffers();
        let ghost old_len = old_frozen.len() as int;
        proof {
            self.lemma_buffer_count();
            assert(expected.take(0) =~= Seq::<Seq<u8>>::empty());
            assert(old_rows + expected.take(0) =~= old_rows);
            assert(old_frozen.take(old_len) =~= old_frozen);
            assert(old_frozen.subrange(old_len, old_len) =~= Seq::<Seq<u8>>::empty());
            assert(taken_ids(views@.take(0), ids@) =~= Set::<u64>::empty());
            assert(old(self).stolen_view().dom().union(Set::<u64>::empty()) =~= old(
                self,
            ).stolen_view().dom());
        }
        let n = views.len();
        let mut i: usize = 0;
        while i < n
            invariant
                self.wf(),
                other.wf(),
                obufs == other.data_buffers_view(),
                ids_name_storage(other, ids@),
                self.stolen_agree(other, ids@),
                n == views@.len(),
                i <= n,
                forall|k: int|
                    0 <= k < views@.len() ==> #[trigger] view_in_bounds(views@[k], obufs),
                old(self).dtype_view() == ViewDataType::Utf8View ==> forall|k: int|
                    0 <= k < views@.len() ==> #[trigger] valid_utf8(view_bytes(views@[k], obufs)),
                n * repeats <= usize::MAX,
                expected == dedup_rows(views@, repeats as int, obufs),
                expected.len() == n * repeats,
                self.rows() == old_rows + expected.take(i * repeats),
                self.dtype_view() == old(self).dtype_view(),
                self.validity_bits() == old(self).validity_bits(),
                self.total_bytes_view() == old(self).total_bytes_view() + sum_lens(
                    expected.take(i * repeats),
                ),
                old(self).total_bytes_view() + sum_lens(expected) <= usize::MAX,
                old_frozen == old(self).frozen_buffers(),
                old_len == old_frozen.len(),
                old(self).total_buffer_view() + sum_lens(
                    buffers_at(obufs, taken_order(old(self).stolen_view().dom(), views@, ids@)),
                ) <= usize::MAX,
                old(self).buffer_count() + taken_order(old(self).stolen_view().dom(), views@, ids@).len()
                    < u32::MAX,
                self.buffer_count() == self.frozen_buffers().len(),
                old(self).buffer_count() == old_len,
                old_len <= self.frozen_buffers().len() <= old_len + i,
                self.frozen_buffers().take(old_len) == old_frozen,
                self.frozen_buffers() == old_frozen + buffers_at(
                    obufs,
                    taken_order(old(self).stolen_view().dom(), views@.take(i as int), ids@),
                ),
                self.total_buffer_view() == old(self).total_buffer_view() + sum_lens(
                    self.frozen_buffers().subrange(old_len, self.frozen_buffers().len() as int),
                ),
                forall|id: u64| #[trigger]
                    old(self).stolen_view().dom().contains(id) ==> self.stolen_view()[id]
                        == old(self).stolen_view()[id],
                self.stolen_view().dom() == old(self).stolen_view().dom().union(
                    taken_ids(views@.take(i as int), ids@),
                ),
                forall|slot: int|
                    old_len <= slot < self.frozen_buffers().len()
                        ==> #[trigger] self.slot_taken_from(old(self), other, ids@, slot),
            decreases n - i,
        {
            let v = views[i];
            let ghost before = *self;
            proof {
                assert(0 <= i * repeats) by (nonlinear_arith)
                    requires
                        0 <= i,
                        0 <= repeats,
                ;
                assert(i * repeats + repeats == (i + 1) * repeats) by (nonlinear_arith);
                assert((i + 1) * repeats <= n * repeats) by (nonlinear_arith)
                    requires
                        i + 1 <= n,
                        0 <= repeats,
                ;
                assert(views@.take(i + 1) =~= views@.take(i as int).push(v));
            }
            let w = if v.is_inline() {
                proof {
                    assert(taken_ids(views@.take(i + 1), ids@) =~= taken_ids(
                        views@.take(i as int),
                        ids@,
                    )) by {
                        assert forall|id: u64|
                            taken_ids(views@.take(i + 1), ids@).contains(id) implies taken_ids(
                            views@.take(i as int),
                            ids@,
                        ).contains(id) by {
                            let k = choose|k: int|
                                0 <= k < views@.take(i + 1).len() && !is_inline(
                                    #[trigger] views@.take(i + 1)[k],
                                ) && ids@[views@.take(i + 1)[k].buffer_idx as int] == id;
                            assert(k != i);
                            assert(views@.take(i + 1)[k] == views@.take(i as int)[k]);
                        }
                        assert forall|id: u64|
                            taken_ids(views@.take(i as int), ids@).contains(id) implies taken_ids(
                            views@.take(i + 1),
                            ids@,
                        ).contains(id) by {
                            let k = choose|k: int|
                                0 <= k < views@.take(i as int).len() && !is_inline(
                                    #[trigger] views@.take(i as int)[k],
                                ) && ids@[views@.take(i as int)[k].buffer_idx as int] == id;
                            assert(views@.take(i + 1)[k] == views@.take(i as int)[k]);
                        }
                    }
                }
                v
            } else {
                proof {
                    assert(view_in_bounds(views@[i as int], obufs));
                    let kn = old(self).stolen_view().dom();
                    let bo = taken_order(kn, views@.take(i as int), ids@);
                    let o1 = taken_order(kn, views@.take(i + 1), ids@);
                    let o = taken_order(kn, views@, ids@);
                    lemma_taken_order_prefix(kn, views@, ids@, i + 1);
                    assert(views@.take(i + 1).drop_last() =~= views@.take(i as int));
                    assert(views@.take(i + 1).last() == v);
                    assert(kn.union(taken_ids(views@.take(i as int), ids@))
                        == before.stolen_view().dom());
                    if !before.stolen_view().dom().contains(ids@[v.buffer_idx as int]) {
                        assert(o1 == bo.push(v.buffer_idx as int));
                        assert(buffers_at(obufs, o1) =~= buffers_at(obufs, bo).push(
                            obufs[v.buffer_idx as int],
                        ));
                        lemma_sum_lens_push(buffers_at(obufs, bo), obufs[v.buffer_idx as int]);
                        assert(buffers_at(obufs, o1) =~= buffers_at(obufs, o).take(o1.len() as int));
                        lemma_sum_lens_take(buffers_at(obufs, o), o1.len() as int);
                        assert(self.frozen_buffers().subrange(
                            old_len,
                            self.frozen_buffers().len() as int,
                        ) =~= buffers_at(obufs, bo));
                    }
                }
                let t = self.translate_view(v, other, ids);
                proof {
                    let id = ids@[v.buffer_idx as int];
                    let nf = self.frozen_buffers();
                    let bf = before.frozen_buffers();
                    assert(taken_ids(views@.take(i + 1), ids@) =~= taken_ids(
                        views@.take(i as int),
                        ids@,
                    ).insert(id)) by {
                        assert(views@.take(i + 1)[i as int] == v);
                        assert forall|x: u64|
                            taken_ids(views@.take(i + 1), ids@).contains(x) implies taken_ids(
                            views@.take(i as int),
                            ids@,
                        ).insert(id).contains(x) by {
                            let k = choose|k: int|
                                0 <= k < views@.take(i + 1).len() && !is_inline(
                                    #[trigger] views@.take(i + 1)[k],
                                ) && ids@[views@.take(i + 1)[k].buffer_idx as int] == x;
                            if k != i {
                                assert(views@.take(i + 1)[k] == views@.take(i as int)[k]);
                            }
                        }
                        assert forall|x: u64|
                            taken_ids(views@.take(i as int), ids@).insert(id).contains(
                                x,
                            ) implies taken_ids(views@.take(i + 1), ids@).contains(x) by {
                            if x == id {
                                assert(!is_inline(views@.take(i + 1)[i as int]));
                            } else {
                                let k = choose|k: int|
                                    0 <= k < views@.take(i as int).len() && !is_inline(
                                        #[trigger] views@.take(i as int)[k],
                                    ) && ids@[views@.take(i as int)[k].buffer_idx as int] == x;
                                assert(views@.take(i + 1)[k] == views@.take(i as int)[k]);
                            }
                        }
                    }
                    if !before.stolen_view().dom().contains(id) {
                        assert(nf.take(old_len) =~= bf.take(old_len));
                        assert(nf.subrange(old_len, nf.len() as int) =~= bf.subrange(
                            old_len,
                            bf.len() as int,
                        ).push(obufs[v.buffer_idx as int]));
                        lemma_sum_lens_push(
                            bf.subrange(old_len, bf.len() as int),
                            obufs[v.buffer_idx as int],
                        );
                        assert(!old(self).stolen_view().dom().contains(id));
                        assert forall|slot: int|
                            old_len <= slot < nf.len() implies #[trigger] self.slot_taken_from(
                            old(self),
                            other,
                            ids@,
                            slot,
                        ) by {
                            if slot + 1 == nf.len() {
                                let j = v.buffer_idx as int;
                                assert(ids@[j] == id);
                            } else {
                                assert(before.slot_taken_from(old(self), other, ids@, slot));
                                let j = choose|j: int|
                                    #![trigger ids@[j]]
                                    0 <= j < ids@.len() && !old(self).stolen_view().dom().contains(
                                        ids@[j],
                                    ) && before.stolen_view().dom().contains(ids@[j])
                                        && before.stolen_view()[ids@[j]] == slot
                                        && bf[slot] == obufs[j];
                                assert(ids@[j] != id);
                            }
                        }
                    } else {
                        assert forall|slot: int|
                            old_len <= slot < nf.len() implies #[trigger] self.slot_taken_from(
                            old(self),
                            other,
                            ids@,
                            slot,
                        ) by {
                            assert(before.slot_taken_from(old(self), other, ids@, slot));
                        }
                    }
                }
                t
            };
            proof {
                let f = self.frozen_buffers();
                assert(view_bytes(w, f) == view_bytes(v, obufs)) by {
                    if is_inline(v) {
                    }
                }
                if old(self).dtype_view() == ViewDataType::Utf8View {
                    assert(valid_utf8(view_bytes(views@[i as int], obufs)));
                }
            }
            proof {
                let tv = views@.take(i + 1);
                assert(tv.drop_last() =~= views@.take(i as int));
                assert(tv.last() == v);
                let bo = taken_order(old(self).stolen_view().dom(), views@.take(i as int), ids@);
                let no = taken_order(old(self).stolen_view().dom(), tv, ids@);
                assert(old(self).stolen_view().dom().union(taken_ids(views@.take(i as int), ids@))
                    == before.stolen_view().dom());
                if !is_inline(v) && !before.stolen_view().dom().contains(ids@[v.buffer_idx as int]) {
                    assert(no == bo.push(v.buffer_idx as int));
                    assert(buffers_at(obufs, no) =~= buffers_at(obufs, bo).push(
                        obufs[v.buffer_idx as int],
                    ));
                    assert(self.frozen_buffers() =~= old_frozen + buffers_at(obufs, no));
                } else {
                    assert(no == bo);
                    assert(self.frozen_buffers() == old_frozen + buffers_at(obufs, no));
                }
            }
            let ghost mid_frozen = self.frozen_buffers();
            let ghost mid_stolen = *self;
            let mut r: usize = 0;
            while r < repeats
                invariant
                    self.wf(),
                    other.wf(),
                    obufs == other.data_buffers_view(),
                    i < n,
                    n == views@.len(),
                    r <= repeats,
                    view_in_bounds(w, mid_frozen),
                    view_bytes(w, mid_frozen) == view_bytes(views@[i as int], obufs),
                    fits_dtype(self.dtype_view(), view_bytes(w, mid_frozen)),
                    w.length == views@[i as int].length,
                    self.frozen_buffers() == mid_frozen,
                    self.stolen_view() == mid_stolen.stolen_view(),
                    mid_stolen.frozen_buffers() == mid_frozen,
                    self.buffer_count() == mid_stolen.buffer_count(),
                    self.total_buffer_view() == mid_stolen.total_buffer_view(),
                    n * repeats <= usize::MAX,
                    (i + 1) * repeats <= n * repeats,
                    0 <= i * repeats,
                    i * repeats + repeats == (i + 1) * repeats,
                    expected == dedup_rows(views@, repeats as int, obufs),
                    expected.len() == n * repeats,
                    self.rows() == old_rows + expected.take(i * repeats + r),
                    self.dtype_view() == old(self).dtype_view(),
                    self.validity_bits() == old(self).validity_bits(),
                    self.total_bytes_view() == old(self).total_bytes_view() + sum_lens(
                        expected.take(i * repeats + r),
                    ),
                    old(self).total_bytes_view() + sum_lens(expected) <= usize::MAX,
                decreases repeats - r,
            {
                proof {
                    let j = i * repeats + r;
                    assert(j / repeats as int == i) by (nonlinear_arith)
                        requires
                            j == i * repeats + r,
                            0 <= r < repeats,
                    ;
                    lemma_sum_lens_take(expected, j);
                    lemma_sum_lens_take(expected, j + 1);
                    assert(expected[j] == view_bytes(views@[i as int], obufs));
                    lemma_view_bytes_len(w, mid_frozen);
                }
                self.push_view_in_bounds(w);
                r = r + 1;
                proof {
                    assert(self.rows() =~= old_rows + expected.take(i * repeats + r));
                }
            }
            i = i + 1;
            proof {
                assert(self.stolen_agree(other, ids@));
                assert forall|slot: int|
                    old_len <= slot < self.frozen_buffers().len() implies #[trigger] self.slot_taken_from(
                    old(self),
                    other,
                    ids@,
                    slot,
                ) by {
                    assert(mid_stolen.slot_taken_from(old(self), other, ids@, slot));
                }
            }
        }
        proof {
            assert(views@.take(n as int) =~= views@);
            assert(expected.take(n * repeats) =~= expected);
        }
    }

    /// The views of rows `start..start + length` of `other`.
    fn collect_subslice_views(other: &BinaryViewArray, start: usize, length: usize) -> (r: Vec<
        ByteView,
    >)
        requires
            start + length <= other.views_view().len(),
        ensures
            r@ == subslice_views(other, start as int, length as int),
    {
        let src = other.views();
        let _n = other.len();
        let end = start + length;
        let mut r: Vec<ByteView> = Vec::new();
        let mut i = start;
        while i < end
            invariant
                end == start + length,
                start <= i <= start + length,
                start + length <= other.views_view().len(),
                src@ == other.views_view(),
                r@ == other.views_view().subrange(start as int, i as int),
            decreases end - i,
        {
            r.push(src[i]);
            i = i + 1;
            proof {
                assert(r@ =~= other.views_view().subrange(start as int, i as int));
            }
        }
        r
    }

    /// The views of rows `idxs` of `other`, the empty view for an index past
    /// the end.
    fn collect_opt_gathered_views(other: &BinaryViewArray, idxs: &[IdxSize]) -> (r: Vec<ByteView>)
        ensures
            r@ == opt_gathered_views(other, idxs@),
    {
        let src = other.views();
        let mut r: Vec<ByteView> = Vec::new();
        let mut k: usize = 0;
        while k < idxs.len()
            invariant
                k <= idxs@.len(),
                src@ == other.views_view(),
                r@ == opt_gathered_views(other, idxs@).take(k as int),
            decreases idxs@.len() - k,
        {
            let idx = idxs[k] as usize;
            let v = if idx < src.len() {
                src[idx]
            } else {
                ByteView { length: 0, prefix: 0, buffer_idx: 0, offset: 0 }
            };
            r.push(v);
            k = k + 1;
            proof {
                assert(r@ =~= opt_gathered_views(other, idxs@).take(k as int));
            }
        }
        proof {
            assert(opt_gathered_views(other, idxs@).take(idxs@.len() as int) =~= opt_gathered_views(
                other,
                idxs@,
            ));
        }
        r
    }

    /// Appends rows `start..start + length` of `other`: with
    /// `ShareStrategy::Never` their bytes are copied and null rows become
    /// empty null rows; with `ShareStrategy::Always` their views are kept and
    /// `other`'s data buffers (whose storages have ids `other_buffer_ids`)
    /// are taken over, once per storage.
    pub fn subslice_extend(
        &mut self,
        other: &BinaryViewArray,
        start: usize,
        length: usize,
        share: ShareStrategy,
        other_buffer_ids: &[u64],
    )
        requires
            old(self).wf(),
            other.wf(),
            old(self).dtype_view() == ViewDataType::Utf8View ==> other.dtype_view()
                == ViewDataType::Utf8View,
            start + length <= other.views_view().len(),
            validity_matches(other),
            old(self).validity_bits().len() + length <= usize::MAX,
            share == ShareStrategy::Never ==> {
                &&& rows_fit(other)
                &&& old(self).buffer_count() + length < u32::MAX
                &&& old(self).total_bytes_view() + sum_lens(
                    subslice_rows(other, start as int, length as int),
                ) <= usize::MAX
                &&& old(self).total_buffer_view() + sum_noninline_lens(
                    subslice_rows(other, start as int, length as int),
                ) <= usize::MAX
            },
            share == ShareStrategy::Always ==> {
                &&& ids_name_storage(other, other_buffer_ids@)
                &&& old(self).stolen_agree(other, other_buffer_ids@)
                &&& old(self).total_bytes_view() + sum_lens(
                    dedup_rows(
                        subslice_views(other, start as int, length as int),
                        1,
                        other.data_buffers_view(),
                    ),
                ) <= usize::MAX
                &&& old(self).total_buffer_view() + sum_lens(
                    buffers_at(
                        other.data_buffers_view(),
                        taken_order(old(self).stolen_view().dom(), subslice_views(other, start as int, length as int), other_buffer_ids@),
                    ),
                ) <= usize::MAX
                &&& old(self).buffer_count() + taken_order(
                    old(self).stolen_view().dom(),
                    subslice_views(other, start as int, length as int),
                    other_buffer_ids@,
                ).len() < u32::MAX
            },
        ensures
            final(self).wf(),
            final(self).dtype_view() == old(self).dtype_view(),
            final(self).buffer_count() <= old(self).buffer_count() + length,
            final(self).validity_bits() == old(self).validity_bits() + Seq::new(
                length as nat,
                |k: int| bit_of(other.validity_view(), start + k),
            ),
            share == ShareStrategy::Never ==> {
                &&& final(self).stolen_view() == old(self).stolen_view()
                &&& final(self).keeps_stolen(old(self))
                &&& final(self).rows() == old(self).rows() + subslice_rows(
                    other,
                    start as int,
                    length as int,
                )
                &&& final(self).total_bytes_view() == old(self).total_bytes_view() + sum_lens(
                    subslice_rows(other, start as int, length as int),
                )
                &&& final(self).total_buffer_view() == old(self).total_buffer_view()
                    + sum_noninline_lens(subslice_rows(other, start as int, length as int))
            },
            share == ShareStrategy::Always ==> final(self).shared_from(
                old(self),
                subslice_views(other, start as int, length as int),
                1,
                other,
                other_buffer_ids@,
            ),
    {
        match share {
            ShareStrategy::Never => {
                self.subslice_extend_copied(other, start, length);
            },
            ShareStrategy::Always => {
                let views = Self::collect_subslice_views(other, start, length);
                proof {
                    assert forall|k: int| 0 <= k < views@.len() implies #[trigger] views@[k]
                        == (ByteView { length: 0, prefix: 0, buffer_idx: 0, offset: 0 })
                        || exists|i: int|
                        0 <= i < other.views_view().len() && views@[k] == other.views_view()[i] by {
                        assert(views@[k] == other.views_view()[start + k]);
                    }
                    lemma_views_of(other, views@);
                    assert(length * 1 == length);
                }
                self.extend_views_dedup_ignore_validity(&views, 1, other, other_buffer_ids);
                let ghost mid = *self;
                self.validity.subslice_extend_from_opt_validity(other.validity(), start, length);
                proof {
                    assert(self.views_view() == mid.views_view());
                    assert(self.frozen_buffers() == mid.frozen_buffers());
                    assert(self.stolen_view() == mid.stolen_view());
                    Self::lemma_shared_from_same(
                        &mid,
                        self,
                        old(self),
                        subslice_views(other, start as int, length as int),
                        1,
                        other,
                        other_buffer_ids@,
                    );
                    assert(self.validity_bits() =~= old(self).validity_bits() + Seq::new(
                        length as nat,
                        |k: int| bit_of(other.validity_view(), start + k),
                    ));
                }
            },
        }
    }

    /// Appends rows `start..start + length` of `other`, each repeated
    /// `repeats` times: with `ShareStrategy::Never` their bytes are copied and
    /// null rows become empty null rows; with `ShareStrategy::Always` their
    /// views are kept and `other`'s data buffers (whose storages have ids
    /// `other_buffer_ids`) are taken over, once per storage.
    pub fn subslice_extend_each_repeated(
        &mut self,
        other: &BinaryViewArray,
        start: usize,
        length: usize,
        repeats: usize,
        share: ShareStrategy,
        other_buffer_ids: &[u64],
    )
        requires
            old(self).wf(),
            other.wf(),
            old(self).dtype_view() == ViewDataType::Utf8View ==> other.dtype_view()
                == ViewDataType::Utf8View,
            start + length <= other.views_view().len(),
            length * repeats <= usize::MAX,
            validity_matches(other),
            old(self).validity_bits().len() + length * repeats <= usize::MAX,
            share == ShareStrategy::Never ==> {
                &&& rows_fit(other)
                &&& old(self).total_bytes_view() + sum_lens(
                    repeated_rows(other, start as int, length as int, repeats as int),
                ) <= usize::MAX
                &&& old(self).total_buffer_view() + sum_noninline_lens(
                    repeated_rows(other, start as int, length as int, repeats as int),
                ) <= usize::MAX
                &&& old(self).buffer_count() + length * repeats < u32::MAX
            },
            share == ShareStrategy::Always ==> {
                &&& ids_name_storage(other, other_buffer_ids@)
                &&& old(self).stolen_agree(other, other_buffer_ids@)
                &&& old(self).total_bytes_view() + sum_lens(
                    dedup_rows(
                        subslice_views(other, start as int, length as int),
                        repeats as int,
                        other.data_buffers_view(),
                    ),
                ) <= usize::MAX
                &&& old(self).total_buffer_view() + sum_lens(
                    buffers_at(
                        other.data_buffers_view(),
                        taken_order(old(self).stolen_view().dom(), subslice_views(other, start as int, length as int), other_buffer_ids@),
                    ),
                ) <= usize::MAX
                &&& old(self).buffer_count() + taken_order(
                    old(self).stolen_view().dom(),
                    subslice_views(other, start as int, length as int),
                    other_buffer_ids@,
                ).len() < u32::MAX
            },
        ensures
            final(self).wf(),
            final(self).dtype_view() == old(self).dtype_view(),
            final(self).validity_bits() == old(self).validity_bits() + Seq::new(
                (length * repeats) as nat,
                |k: int| bit_of(other.validity_view(), start + k / repeats as int),
            ),
            share == ShareStrategy::Never ==> {
                &&& final(self).stolen_view() == old(self).stolen_view()
                &&& final(self).keeps_stolen(old(self))
                &&& final(self).buffer_count() <= old(self).buffer_count() + length * repeats
                &&& final(self).rows() == old(self).rows() + repeated_rows(
                    other,
                    start as int,
                    length as int,
                    repeats as int,
                )
                &&& final(self).total_bytes_view() == old(self).total_bytes_view() + sum_lens(
                    repeated_rows(other, start as int, length as int, repeats as int),
                )
                &&& final(self).total_buffer_view() == old(self).total_buffer_view()
                    + sum_noninline_lens(
                    repeated_rows(other, start as int, length as int, repeats as int),
                )
            },
            share == ShareStrategy::Always ==> {
                &&& final(self).buffer_count() <= old(self).buffer_count() + length
                &&& final(self).shared_from(
                    old(self),
                    subslice_views(other, start as int, length as int),
                    repeats as int,
                    other,
                    other_buffer_ids@,
                )
            },
    {
        match share {
            ShareStrategy::Never => {
                self.subslice_extend_each_repeated_copied(other, start, length, repeats);
            },
            ShareStrategy::Always => {
                let views = Self::collect_subslice_views(other, start, length);
                proof {
                    assert forall|k: int| 0 <= k < views@.len() implies #[trigger] views@[k]
                        == (ByteView { length: 0, prefix: 0, buffer_idx: 0, offset: 0 })
                        || exists|i: int|
                        0 <= i < other.views_view().len() && views@[k] == other.views_view()[i] by {
                        assert(views@[k] == other.views_view()[start + k]);
                    }
                    lemma_views_of(other, views@);
                }
                self.extend_views_dedup_ignore_validity(&views, repeats, other, other_buffer_ids);
                let ghost mid = *self;
                let other_validity = other.validity();
                proof {
                    assert(opt_view(other_validity) == other.validity_view());
                }
                self.validity.subslice_extend_each_repeated_from_opt_validity(
                    other_validity,
                    start,
                    length,
                    repeats,
                );
                proof {
                    assert(self.views_view() == mid.views_view());
                    assert(self.frozen_buffers() == mid.frozen_buffers());
                    assert(self.stolen_view() == mid.stolen_view());
                    Self::lemma_shared_from_same(
                        &mid,
                        self,
                        old(self),
                        subslice_views(other, start as int, length as int),
                        repeats as int,
                        other,
                        other_buffer_ids@,
                    );
                    
                }
            },
        }
    }

    /// Appends rows `idxs` of `other`: with `ShareStrategy::Never` their bytes
    /// are copied and null rows become empty null rows; with
    /// `ShareStrategy::Always` their views are kept and `other`'s data
    /// buffers (whose storages have ids `other_buffer_ids`) are taken over,
    /// once per storage.
    pub fn gather_extend(
        &mut self,
        other: &BinaryViewArray,
        idxs: &[IdxSize],
        share: ShareStrategy,
        other_buffer_ids: &[u64],
    )
        requires
            old(self).wf(),
            other.wf(),
            old(self).dtype_view() == ViewDataType::Utf8View ==> other.dtype_view()
                == ViewDataType::Utf8View,
            forall|k: int| 0 <= k < idxs@.len() ==> #[trigger] idxs@[k] < other.views_view().len(),
            validity_matches(other),
            old(self).validity_bits().len() + idxs@.len() <= usize::MAX,
            share == ShareStrategy::Never ==> {
                &&& rows_fit(other)
                &&& old(self).buffer_count() + idxs@.len() < u32::MAX
                &&& old(self).total_bytes_view() + sum_lens(gathered_rows(other, idxs@)) <= usize::MAX
                &&& old(self).total_buffer_view() + sum_noninline_lens(gathered_rows(other, idxs@))
                    <= usize::MAX
            },
            share == ShareStrategy::Always ==> {
                &&& ids_name_storage(other, other_buffer_ids@)
                &&& old(self).stolen_agree(other, other_buffer_ids@)
                &&& old(self).total_bytes_view() + sum_lens(
                    dedup_rows(gathered_views(other, idxs@), 1, other.data_buffers_view()),
                ) <= usize::MAX
                &&& old(self).total_buffer_view() + sum_lens(
                    buffers_at(
                        other.data_buffers_view(),
                        taken_order(old(self).stolen_view().dom(), gathered_views(other, idxs@), other_buffer_ids@),
                    ),
                ) <= usize::MAX
                &&& old(self).buffer_count() + taken_order(
                    old(self).stolen_view().dom(),
                    gathered_views(other, idxs@),
                    other_buffer_ids@,
                ).len() < u32::MAX
            },
        ensures
            final(self).wf(),
            final(self).dtype_view() == old(self).dtype_view(),
            final(self).buffer_count() <= old(self).buffer_count() + idxs@.len(),
            final(self).validity_bits() == old(self).validity_bits() + Seq::new(
                idxs@.len(),
                |k: int| bit_of(other.validity_view(), idxs@[k] as int),
            ),
            share == ShareStrategy::Never ==> {
                &&& final(self).stolen_view() == old(self).stolen_view()
                &&& final(self).keeps_stolen(old(self))
                &&& final(self).rows() == old(self).rows() + gathered_rows(other, idxs@)
                &&& final(self).total_bytes_view() == old(self).total_bytes_view() + sum_lens(
                    gathered_rows(other, idxs@),
                )
                &&& final(self).total_buffer_view() == old(self).total_buffer_view()
                    + sum_noninline_lens(gathered_rows(other, idxs@))
            },
            share == ShareStrategy::Always ==> final(self).shared_from(
                old(self),
                gathered_views(other, idxs@),
                1,
                other,
                other_buffer_ids@,
            ),
    {
        match share {
            ShareStrategy::Never => {
                self.gather_extend_copied(other, idxs);
            },
            ShareStrategy::Always => {
                let views = Self::collect_opt_gathered_views(other, idxs);
                proof {
                    assert(views@ =~= gathered_views(other, idxs@));
                    assert forall|k: int| 0 <= k < views@.len() implies #[trigger] views@[k]
                        == (ByteView { length: 0, prefix: 0, buffer_idx: 0, offset: 0 })
                        || exists|i: int|
                        0 <= i < other.views_view().len() && views@[k] == other.views_view()[i] by {
                        assert(views@[k] == other.views_view()[idxs@[k] as int]);
                    }
                    lemma_views_of(other, views@);
                    assert(idxs@.len() * 1 == idxs@.len());
                }
                self.extend_views_dedup_ignore_validity(&views, 1, other, other_buffer_ids);
                let ghost mid = *self;
                let other_validity = other.validity();
                proof {
                    assert(opt_view(other_validity) == other.validity_view());
                }
                self.validity.gather_extend_from_opt_validity(other_validity, idxs);
                proof {
                    assert(self.views_view() == mid.views_view());
                    assert(self.frozen_buffers() == mid.frozen_buffers());
                    assert(self.stolen_view() == mid.stolen_view());
                    Self::lemma_shared_from_same(
                        &mid,
                        self,
                        old(self),
                        gathered_views(other, idxs@),
                        1,
                        other,
                        other_buffer_ids@,
                    );
                    
                }
            },
        }
    }

    /// Appends rows `idxs` of `other`, an index past the end giving an empty
    /// null row: with `ShareStrategy::Never` their bytes are copied and null
    /// rows become empty null rows; with `ShareStrategy::Always` their views
    /// are kept and `other`'s data buffers (whose storages have ids
    /// `other_buffer_ids`) are taken over, once per storage.
    pub fn opt_gather_extend(
        &mut self,
        other: &BinaryViewArray,
        idxs: &[IdxSize],
        share: ShareStrategy,
        other_buffer_ids: &[u64],
    )
        requires
            old(self).wf(),
            other.wf(),
            old(self).dtype_view() == ViewDataType::Utf8View ==> other.dtype_view()
                == ViewDataType::Utf8View,
            validity_matches(other),
            old(self).validity_bits().len() + idxs@.len() <= usize::MAX,
            share == ShareStrategy::Never ==> {
                &&& rows_fit(other)
                &&& old(self).buffer_count() + idxs@.len() < u32::MAX
                &&& old(self).total_bytes_view() + sum_lens(opt_gathered_rows(other, idxs@))
                    <= usize::MAX
                &&& old(self).total_buffer_view() + sum_noninline_lens(
                    opt_gathered_rows(other, idxs@),
                ) <= usize::MAX
            },
            share == ShareStrategy::Always ==> {
                &&& ids_name_storage(other, other_buffer_ids@)
                &&& old(self).stolen_agree(other, other_buffer_ids@)
                &&& old(self).total_bytes_view() + sum_lens(
                    dedup_rows(opt_gathered_views(other, idxs@), 1, other.data_buffers_view()),
                ) <= usize::MAX
                &&& old(self).total_buffer_view() + sum_lens(
                    buffers_at(
                        other.data_buffers_view(),
                        taken_order(old(self).stolen_view().dom(), opt_gathered_views(other, idxs@), other_buffer_ids@),
                    ),
                ) <= usize::MAX
                &&& old(self).buffer_count() + taken_order(
                    old(self).stolen_view().dom(),
                    opt_gathered_views(other, idxs@),
                    other_buffer_ids@,
                ).len() < u32::MAX
            },
        ensures
            final(self).wf(),
            final(self).dtype_view() == old(self).dtype_view(),
            final(self).buffer_count() <= old(self).buffer_count() + idxs@.len(),
            final(self).validity_bits() == old(self).validity_bits() + Seq::new(
                idxs@.len(),
                |k: int|
                    idxs@[k] < other.views_view().len() && bit_of(
                        other.validity_view(),
                        idxs@[k] as int,
                    ),
            ),
            share == ShareStrategy::Never ==> {
                &&& final(self).stolen_view() == old(self).stolen_view()
                &&& final(self).keeps_stolen(old(self))
                &&& final(self).rows() == old(self).rows() + opt_gathered_rows(other, idxs@)
                &&& final(self).total_bytes_view() == old(self).total_bytes_view() + sum_lens(
                    opt_gathered_rows(other, idxs@),
                )
                &&& final(self).total_buffer_view() == old(self).total_buffer_view()
                    + sum_noninline_lens(opt_gathered_rows(other, idxs@))
            },
            share == ShareStrategy::Always ==> final(self).shared_from(
                old(self),
                opt_gathered_views(other, idxs@),
                1,
                other,
                other_buffer_ids@,
            ),
    {
        match share {
            ShareStrategy::Never => {
                self.opt_gather_extend_copied(other, idxs);
            },
            ShareStrategy::Always => {
                let views = Self::collect_opt_gathered_views(other, idxs);
                proof {
                    assert forall|k: int| 0 <= k < views@.len() implies #[trigger] views@[k]
                        == (ByteView { length: 0, prefix: 0, buffer_idx: 0, offset: 0 })
                        || exists|i: int|
                        0 <= i < other.views_view().len() && views@[k] == other.views_view()[i] by {
                        if idxs@[k] < other.views_view().len() {
                            assert(views@[k] == other.views_view()[idxs@[k] as int]);
                        }
                    }
                    lemma_views_of(other, views@);
                    assert(idxs@.len() * 1 == idxs@.len());
                }
                self.extend_views_dedup_ignore_validity(&views, 1, other, other_buffer_ids);
                let ghost mid = *self;
                let other_validity = other.validity();
                let other_len = other.len();
                proof {
                    assert(opt_view(other_validity) == other.validity_view());
                }
                self.validity.opt_gather_extend_from_opt_validity(other_validity, idxs, other_len);
                proof {
                    assert(self.views_view() == mid.views_view());
                    assert(self.frozen_buffers() == mid.frozen_buffers());
                    assert(self.stolen_view() == mid.stolen_view());
                    Self::lemma_shared_from_same(
                        &mid,
                        self,
                        old(self),
                        opt_gathered_views(other, idxs@),
                        1,
                        other,
                        other_buffer_ids@,
                    );
                    
                }
            },
        }
    }

    /// Appends an empty, null view, without touching the validity mask.
    fn push_null_view_ignore_validity(&mut self)
        requires
            old(self).wf(),
        ensures
            final(self).stolen_view() == old(self).stolen_view(),
            final(self).keeps_stolen(old(self)),
            final(self).wf(),
            final(self).rows() == old(self).rows().push(Seq::empty()),
            final(self).frozen_buffers() == old(self).frozen_buffers(),
            final(self).dtype_view() == old(self).dtype_view(),
            final(self).validity_bits() == old(self).validity_bits(),
            final(self).total_bytes_view() == old(self).total_bytes_view(),
            final(self).total_buffer_view() == old(self).total_buffer_view(),
            final(self).active_capacity_view() == old(self).active_capacity_view(),
            final(self).buffer_count() == old(self).buffer_count(),
    {
        let view = ByteView::default();
        proof {
            lemma_sum_view_lens_push(self.views@, view);
        }
        self.views.push(view);
        proof {
            assert(inline_bytes(view) =~= Seq::<u8>::empty());
            assert(self.rows() =~= old(self).rows().push(Seq::empty()));
            assert(self.stolen_view() == old(self).stolen_view());
            assert forall|k: int| 0 <= k < self.views@.len() implies #[trigger] view_in_bounds(
                self.views@[k],
                self.frozen_buffers(),
            ) by {
                if k < old(self).views@.len() {
                    assert(self.views@[k] == old(self).views@[k]);
                }
            }
        }
    }

    /// Appends row `i` of `other` when `valid`, else an empty, null view;
    /// the validity mask is left alone.
    fn push_row_of(&mut self, other: &BinaryViewArray, i: usize, valid: bool)
        requires
            old(self).wf(),
            other.wf(),
            old(self).dtype_view() == ViewDataType::Utf8View ==> other.dtype_view()
                == ViewDataType::Utf8View,
            i < other.views_view().len(),
            rows_fit(other),
            old(self).total_bytes_view() + row_or_empty(other, i as int, valid).len() <= usize::MAX,
            old(self).total_buffer_view() + noninline_len(row_or_empty(other, i as int, valid))
                <= usize::MAX,
            old(self).buffer_count() + 1 < u32::MAX,
        ensures
            final(self).stolen_view() == old(self).stolen_view(),
            final(self).keeps_stolen(old(self)),
            final(self).wf(),
            final(self).rows() == old(self).rows().push(row_or_empty(other, i as int, valid)),
            final(self).dtype_view() == old(self).dtype_view(),
            final(self).validity_bits() == old(self).validity_bits(),
            final(self).total_bytes_view() == old(self).total_bytes_view() + row_or_empty(
                other,
                i as int,
                valid,
            ).len(),
            final(self).total_buffer_view() == old(self).total_buffer_view() + noninline_len(
                row_or_empty(other, i as int, valid),
            ),
            final(self).buffer_count() <= old(self).buffer_count() + 1,
    {
        if valid {
            let value = other.value(i);
            self.push_value_ignore_validity(value.as_slice());
        } else {
            self.push_null_view_ignore_validity();
        }
    }

    /// The logical type of the array being built.
    pub fn dtype(&self) -> (r: ViewDataType)
        ensures
            r == self.dtype_view(),
    {
        self.dtype
    }

    /// Prepares room for `additional` more rows.
    pub fn reserve(&mut self, additional: usize)
        requires
            old(self).wf(),
        ensures
            final(self).stolen_view() == old(self).stolen_view(),
            final(self).keeps_stolen(old(self)),
            final(self).wf(),
            final(self).views_view() == old(self).views_view(),
            final(self).rows() == old(self).rows(),
            final(self).frozen_buffers() == old(self).frozen_buffers(),
            final(self).dtype_view() == old(self).dtype_view(),
            final(self).validity_bits() == old(self).validity_bits(),
            final(self).total_bytes_view() == old(self).total_bytes_view(),
            final(self).total_buffer_view() == old(self).total_buffer_view(),
            final(self).active_capacity_view() == old(self).active_capacity_view(),
            final(self).buffer_count() == old(self).buffer_count(),
    {
        self.views.reserve(additional);
        self.validity.reserve(additional);
        proof {
            assert(self.stolen_view() == old(self).stolen_view());
        }
    }

    /// The number of buffer slots in use.
    pub fn buffer_slots(&self) -> (r: usize)
        ensures
            r == self.buffer_count(),
    {
        self.buffer_set.len()
    }

    /// The recorded total length of all rows.
    pub fn total_bytes_len(&self) -> (r: usize)
        ensures
            r == self.total_bytes_view(),
    {
        self.total_bytes_len
    }

    /// The recorded total length of the data buffers.
    pub fn total_buffer_len(&self) -> (r: usize)
        ensures
            r == self.total_buffer_view(),
    {
        self.total_buffer_len
    }

    /// The number of rows pushed so far.
    pub fn len(&self) -> (r: usize)
        ensures
            r == self.rows().len(),
    {
        self.views.len()
    }

    /// Appends `length` null rows.
    pub fn extend_nulls(&mut self, length: usize)
        requires
            old(self).wf(),
            old(self).validity_bits().len() + length <= usize::MAX,
        ensures
            final(self).stolen_view() == old(self).stolen_view(),
            final(self).keeps_stolen(old(self)),
            final(self).wf(),
            final(self).rows() == old(self).rows() + Seq::new(
                length as nat,
                |i: int| Seq::<u8>::empty(),
            ),
            final(self).validity_bits() == old(self).validity_bits() + Seq::new(
                length as nat,
                |i: int| false,
            ),
            final(self).frozen_buffers() == old(self).frozen_buffers(),
            final(self).dtype_view() == old(self).dtype_view(),
            final(self).total_bytes_view() == old(self).total_bytes_view(),
            final(self).total_buffer_view() == old(self).total_buffer_view(),
            final(self).active_capacity_view() == old(self).active_capacity_view(),
            final(self).buffer_count() == old(self).buffer_count(),
    {
        let ghost old_rows = self.rows();
        let mut k: usize = 0;
        while k < length
            invariant
                self.wf(),
                k <= length,
                self.rows() == old_rows + Seq::new(k as nat, |i: int| Seq::<u8>::empty()),
                self.frozen_buffers() == old(self).frozen_buffers(),
                self.dtype_view() == old(self).dtype_view(),
                self.stolen_view() == old(self).stolen_view(),
                self.keeps_stolen(old(self)),
                self.validity_bits() == old(self).validity_bits(),
                self.total_bytes_view() == old(self).total_bytes_view(),
                self.total_buffer_view() == old(self).total_buffer_view(),
                self.active_capacity_view() == old(self).active_capacity_view(),
                self.buffer_count() == old(self).buffer_count(),
                old(self).validity_bits().len() + length <= usize::MAX,
            decreases length - k,
        {
            self.push_null_view_ignore_validity();
            k = k + 1;
            proof {
                assert(self.rows() =~= old_rows + Seq::new(k as nat, |i: int| Seq::<u8>::empty()));
            }
        }
        self.validity.extend_constant(length, false);
    }

    /// Finishes the array: the active buffer takes its slot (or an unused
    /// placeholder at the end is dropped).
    pub fn freeze(self) -> (a: BinaryViewArray)
        requires
            self.wf(),
        ensures
            a.wf(),
            a.values_view() == self.rows(),
            a.data_buffers_view() == self.frozen_buffers(),
            forall|j: int|
                0 <= j < a.data_buffers_view().len() ==> #[trigger] a.data_buffers_view()[j].len()
                    > 0,
            a.dtype_view() == self.dtype_view(),
            (forall|i: int| 0 <= i < self.validity_bits().len() ==> self.validity_bits()[i])
                ==> a.validity_view() is None,
            !(forall|i: int| 0 <= i < self.validity_bits().len() ==> self.validity_bits()[i])
                ==> a.validity_view() == Some(self.validity_bits()),
            a.total_bytes_len_view() == sum_lens(a.values_view()),
            a.total_buffer_len_view() == sum_lens(a.data_buffers_view()),
    {
        proof {
            self.lemma_frozen_buffers_nonempty();
            lemma_sum_view_lens_rows(self.views@, self.frozen_buffers());
        }
        let ghost frozen = self.frozen_buffers();
        let ghost bits = self.validity_bits();
        let BinaryViewArrayGenericBuilder {
            dtype,
            views,
            active_buffer,
            active_capacity: _,
            active_buffer_idx,
            mut buffer_set,
            stolen_buffers: _,
            validity,
            total_bytes_len,
            total_buffer_len,
        } = self;
        // Flush the active buffer and/or remove an extra placeholder buffer.
        if active_buffer.len() > 0 {
            buffer_set.set(active_buffer_idx as usize, active_buffer);
        } else {
            let n = buffer_set.len();
            if n > 0 && buffer_set[n - 1].len() == 0 {
                buffer_set.pop();
            }
        }
        proof {
            assert(buffers_view(buffer_set@) =~= frozen);
            assert(validity.bits_view() == bits);
        }
        let opt_validity = validity.into_opt_validity();
        BinaryViewArray::new_unchecked(
            dtype,
            views,
            buffer_set,
            opt_validity,
            total_bytes_len,
            total_buffer_len,
        )
    }

    /// Finishes the array and leaves the builder empty, ready for the next.
    pub fn freeze_reset(&mut self) -> (a: BinaryViewArray)
        requires
            old(self).wf(),
        ensures
            a.wf(),
            a.values_view() == old(self).rows(),
            a.data_buffers_view() == old(self).frozen_buffers(),
            forall|j: int|
                0 <= j < a.data_buffers_view().len() ==> #[trigger] a.data_buffers_view()[j].len()
                    > 0,
            a.dtype_view() == old(self).dtype_view(),
            (forall|i: int|
                0 <= i < old(self).validity_bits().len() ==> old(self).validity_bits()[i])
                ==> a.validity_view() is None,
            !(forall|i: int|
                0 <= i < old(self).validity_bits().len() ==> old(self).validity_bits()[i])
                ==> a.validity_view() == Some(old(self).validity_bits()),
            a.total_bytes_len_view() == sum_lens(a.values_view()),
            a.total_buffer_len_view() == sum_lens(a.data_buffers_view()),
            final(self).wf(),
            final(self).dtype_view() == old(self).dtype_view(),
            final(self).views_view() == Seq::<ByteView>::empty(),
            final(self).frozen_buffers() == Seq::<Seq<u8>>::empty(),
            final(self).validity_bits() == Seq::<bool>::empty(),
            final(self).total_bytes_view() == 0,
            final(self).total_buffer_view() == 0,
            final(self).active_capacity_view() == 0,
            final(self).buffer_count() == 0,
            final(self).stolen_view().dom().is_empty(),
    {
        proof {
            self.lemma_frozen_buffers_nonempty();
            lemma_sum_view_lens_rows(self.views@, self.frozen_buffers());
        }
        let ghost frozen = self.frozen_buffers();
        // Flush the active buffer and/or remove an extra placeholder buffer.
        if self.active_buffer.len() > 0 {
            let mut old_buffer: Vec<u8> = Vec::new();
            std::mem::swap(&mut old_buffer, &mut self.active_buffer);
            self.active_capacity = 0;
            self.buffer_set.set(self.active_buffer_idx as usize, old_buffer);
        } else {
            let n = self.buffer_set.len();
            if n > 0 && self.buffer_set[n - 1].len() == 0 {
                self.buffer_set.pop();
            }
        }
        proof {
            assert(buffers_view(self.buffer_set@) =~= frozen);
        }
        let mut views: Vec<ByteView> = Vec::new();
        std::mem::swap(&mut views, &mut self.views);
        let mut buffer_set: Vec<Vec<u8>> = Vec::new();
        std::mem::swap(&mut buffer_set, &mut self.buffer_set);
        let ghost bits = self.validity_bits();
        let mut validity = OptBitmapBuilder::new();
        std::mem::swap(&mut validity, &mut self.validity);
        proof {
            assert(bits == old(self).validity_bits());
            assert(validity.bits_view() == bits);
        }
        let opt_validity = validity.into_opt_validity();
        let out = BinaryViewArray::new_unchecked(
            self.dtype,
            views,
            buffer_set,
            opt_validity,
            self.total_bytes_len,
            self.total_buffer_len,
        );
        self.total_buffer_len = 0;
        self.total_bytes_len = 0;
        self.active_buffer_idx = 0;
        slot_map_clear(&mut self.stolen_buffers);
        proof {
            assert(self.frozen_buffers() =~= Seq::<Seq<u8>>::empty());
            assert(self.views@ =~= Seq::<ByteView>::empty());
        }
        out
    }

    /// Appends rows `start..start + length` of `other`, copying their bytes;
    /// null rows of `other` become empty null rows.
    fn subslice_extend_copied(&mut self, other: &BinaryViewArray, start: usize, length: usize)
        requires
            old(self).wf(),
            other.wf(),
            old(self).dtype_view() == ViewDataType::Utf8View ==> other.dtype_view()
                == ViewDataType::Utf8View,
            start + length <= other.views_view().len(),
            validity_matches(other),
            rows_fit(other),
            old(self).total_bytes_view() + sum_lens(subslice_rows(other, start as int, length as int))
                <= usize::MAX,
            old(self).total_buffer_view() + sum_noninline_lens(
                subslice_rows(other, start as int, length as int),
            ) <= usize::MAX,
            old(self).buffer_count() + length < u32::MAX,
            old(self).validity_bits().len() + length <= usize::MAX,
        ensures
            final(self).stolen_view() == old(self).stolen_view(),
            final(self).keeps_stolen(old(self)),
            final(self).buffer_count() <= old(self).buffer_count() + length,
            final(self).wf(),
            final(self).rows() == old(self).rows() + subslice_rows(
                other,
                start as int,
                length as int,
            ),
            final(self).validity_bits() == old(self).validity_bits() + Seq::new(
                length as nat,
                |k: int| bit_of(other.validity_view(), start + k),
            ),
            final(self).dtype_view() == old(self).dtype_view(),
            final(self).total_bytes_view() == old(self).total_bytes_view() + sum_lens(
                subslice_rows(other, start as int, length as int),
            ),
            final(self).total_buffer_view() == old(self).total_buffer_view() + sum_noninline_lens(
                subslice_rows(other, start as int, length as int),
            ),
    {
        let ghost expected = subslice_rows(other, start as int, length as int);
        let ghost old_rows = self.rows();
        self.views.reserve(length);
        proof {
            assert(self.stolen_view() == old(self).stolen_view());
        }
        let _other_len = other.len();
        let end = start + length;
        match other.validity() {
            Some(v) => {
                let mut i = start;
                while i < end
                    invariant
                        self.wf(),
                        other.wf(),
                        rows_fit(other),
                        other.validity_view() == Some(v@),
                        v@.len() == other.views_view().len(),
                        start <= i <= end,
                        end == start + length,
                        end <= other.views_view().len(),
                        expected == subslice_rows(other, start as int, length as int),
                        self.rows() == old_rows + expected.take(i - start),
                        self.dtype_view() == old(self).dtype_view(),
                        self.stolen_view() == old(self).stolen_view(),
                        self.keeps_stolen(old(self)),
                        self.dtype_view() == ViewDataType::Utf8View ==> other.dtype_view()
                            == ViewDataType::Utf8View,
                        self.validity_bits() == old(self).validity_bits(),
                        self.total_bytes_view() == old(self).total_bytes_view() + sum_lens(
                            expected.take(i - start),
                        ),
                        self.total_buffer_view() == old(self).total_buffer_view() + sum_noninline_lens(
                            expected.take(i - start),
                        ),
                        self.buffer_count() <= old(self).buffer_count() + (i - start),
                        old(self).total_bytes_view() + sum_lens(expected) <= usize::MAX,
                        old(self).total_buffer_view() + sum_noninline_lens(expected) <= usize::MAX,
                        old(self).buffer_count() + length < u32::MAX,
                    decreases end - i,
                {
                    proof {
                        lemma_sum_lens_take(expected, i - start);
                        lemma_sum_noninline_take(expected, i - start);
                        lemma_sum_lens_take(expected, i - start + 1);
                        lemma_sum_noninline_take(expected, i - start + 1);
                        assert(expected[i - start] == row_or_empty(other, i as int, v@[i as int]));
                    }
                    self.push_row_of(other, i, v[i]);
                    i = i + 1;
                    proof {
                        assert(self.rows() =~= old_rows + expected.take(i - start));
                    }
                }
            },
            None => {
                let mut i = start;
                while i < end
                    invariant
                        self.wf(),
                        other.wf(),
                        rows_fit(other),
                        other.validity_view() is None,
                        start <= i <= end,
                        end == start + length,
                        end <= other.views_view().len(),
                        expected == subslice_rows(other, start as int, length as int),
                        self.rows() == old_rows + expected.take(i - start),
                        self.dtype_view() == old(self).dtype_view(),
                        self.stolen_view() == old(self).stolen_view(),
                        self.keeps_stolen(old(self)),
                        self.dtype_view() == ViewDataType::Utf8View ==> other.dtype_view()
                            == ViewDataType::Utf8View,
                        self.validity_bits() == old(self).validity_bits(),
                        self.total_bytes_view() == old(self).total_bytes_view() + sum_lens(
                            expected.take(i - start),
                        ),
                        self.total_buffer_view() == old(self).total_buffer_view() + sum_noninline_lens(
                            expected.take(i - start),
                        ),
                        self.buffer_count() <= old(self).buffer_count() + (i - start),
                        old(self).total_bytes_view() + sum_lens(expected) <= usize::MAX,
                        old(self).total_buffer_view() + sum_noninline_lens(expected) <= usize::MAX,
                        old(self).buffer_count() + length < u32::MAX,
                    decreases end - i,
                {
                    proof {
                        lemma_sum_lens_take(expected, i - start);
                        lemma_sum_noninline_take(expected, i - start);
                        lemma_sum_lens_take(expected, i - start + 1);
                        lemma_sum_noninline_take(expected, i - start + 1);
                        assert(expected[i - start] == row_or_empty(other, i as int, true));
                    }
                    self.push_row_of(other, i, true);
                    i = i + 1;
                    proof {
                        assert(self.rows() =~= old_rows + expected.take(i - start));
                    }
                }
            },
        }
        proof {
            assert(expected.take(length as int) =~= expected);
        }
        let other_validity = other.validity();
        proof {
            assert(opt_view(other_validity) == other.validity_view());
        }
        self.validity.subslice_extend_from_opt_validity(other_validity, start, length);
    }

    /// Appends rows `start..start + length` of `other`, each repeated
    /// `repeats` times, copying their bytes; null rows of `other` become
    /// empty null rows.
    fn subslice_extend_each_repeated_copied(
        &mut self,
        other: &BinaryViewArray,
        start: usize,
        length: usize,
        repeats: usize,
    )
        requires
            old(self).wf(),
            other.wf(),
            old(self).dtype_view() == ViewDataType::Utf8View ==> other.dtype_view()
                == ViewDataType::Utf8View,
            start + length <= other.views_view().len(),
            length * repeats <= usize::MAX,
            validity_matches(other),
            rows_fit(other),
            old(self).total_bytes_view() + sum_lens(
                repeated_rows(other, start as int, length as int, repeats as int),
            ) <= usize::MAX,
            old(self).total_buffer_view() + sum_noninline_lens(
                repeated_rows(other, start as int, length as int, repeats as int),
            ) <= usize::MAX,
            old(self).buffer_count() + length * repeats < u32::MAX,
            old(self).validity_bits().len() + length * repeats <= usize::MAX,
        ensures
            final(self).stolen_view() == old(self).stolen_view(),
            final(self).keeps_stolen(old(self)),
            final(self).buffer_count() <= old(self).buffer_count() + length * repeats,
            final(self).wf(),
            final(self).rows() == old(self).rows() + repeated_rows(
                other,
                start as int,
                length as int,
                repeats as int,
            ),
            final(self).validity_bits() == old(self).validity_bits() + Seq::new(
                (length * repeats) as nat,
                |k: int| bit_of(other.validity_view(), start + k / repeats as int),
            ),
            final(self).dtype_view() == old(self).dtype_view(),
            final(self).total_bytes_view() == old(self).total_bytes_view() + sum_lens(
                repeated_rows(other, start as int, length as int, repeats as int),
            ),
            final(self).total_buffer_view() == old(self).total_buffer_view() + sum_noninline_lens(
                repeated_rows(other, start as int, length as int, repeats as int),
            ),
    {
        let ghost expected = repeated_rows(other, start as int, length as int, repeats as int);
        let ghost old_rows = self.rows();
        self.views.reserve(length * repeats);
        proof {
            assert(self.stolen_view() == old(self).stolen_view());
        }
        let _other_len = other.len();
        let end = start + length;
        let other_validity = other.validity();
        proof {
            assert(expected.take(0) =~= Seq::<Seq<u8>>::empty());
            assert(old_rows + expected.take(0) =~= old_rows);
        }
        let mut i = start;
        while i < end
            invariant
                self.wf(),
                other.wf(),
                rows_fit(other),
                validity_matches(other),
                opt_view(other_validity) == other.validity_view(),
                start <= i <= end,
                end == start + length,
                end <= other.views_view().len(),
                length * repeats <= usize::MAX,
                expected == repeated_rows(other, start as int, length as int, repeats as int),
                expected.len() == length * repeats,
                self.rows() == old_rows + expected.take((i - start) * repeats),
                self.dtype_view() == old(self).dtype_view(),
                self.stolen_view() == old(self).stolen_view(),
                self.keeps_stolen(old(self)),
                self.dtype_view() == ViewDataType::Utf8View ==> other.dtype_view()
                    == ViewDataType::Utf8View,
                self.validity_bits() == old(self).validity_bits(),
                self.total_bytes_view() == old(self).total_bytes_view() + sum_lens(
                    expected.take((i - start) * repeats),
                ),
                self.total_buffer_view() == old(self).total_buffer_view() + sum_noninline_lens(
                    expected.take((i - start) * repeats),
                ),
                self.buffer_count() <= old(self).buffer_count() + (i - start) * repeats,
                old(self).total_bytes_view() + sum_lens(expected) <= usize::MAX,
                old(self).total_buffer_view() + sum_noninline_lens(expected) <= usize::MAX,
                old(self).buffer_count() + length * repeats < u32::MAX,
            decreases end - i,
        {
            let valid = match other_validity {
                Some(v) => v[i],
                None => true,
            };
            let ghost base = (i - start) * repeats;
            proof {
                assert(0 <= base) by (nonlinear_arith)
                    requires
                        base == (i - start) * repeats,
                        start <= i,
                ;
                assert(base + repeats == (i - start + 1) * repeats) by (nonlinear_arith)
                    requires
                        base == (i - start) * repeats,
                ;
                assert((i - start + 1) * repeats <= length * repeats) by (nonlinear_arith)
                    requires
                        i - start + 1 <= length,
                ;
            }
            let mut r: usize = 0;
            while r < repeats
                invariant
                    self.wf(),
                    other.wf(),
                    rows_fit(other),
                    i < end,
                    end == start + length,
                    end <= other.views_view().len(),
                    r <= repeats,
                    valid == bit_of(other.validity_view(), i as int),
                    base == (i - start) * repeats,
                    0 <= base,
                    base + repeats <= length * repeats,
                    expected == repeated_rows(other, start as int, length as int, repeats as int),
                    expected.len() == length * repeats,
                    self.rows() == old_rows + expected.take(base + r),
                    self.dtype_view() == old(self).dtype_view(),
                    self.stolen_view() == old(self).stolen_view(),
                    self.keeps_stolen(old(self)),
                    self.dtype_view() == ViewDataType::Utf8View ==> other.dtype_view()
                        == ViewDataType::Utf8View,
                    self.validity_bits() == old(self).validity_bits(),
                    self.total_bytes_view() == old(self).total_bytes_view() + sum_lens(
                        expected.take(base + r),
                    ),
                    self.total_buffer_view() == old(self).total_buffer_view() + sum_noninline_lens(
                        expected.take(base + r),
                    ),
                    self.buffer_count() <= old(self).buffer_count() + base + r,
                    old(self).total_bytes_view() + sum_lens(expected) <= usize::MAX,
                    old(self).total_buffer_view() + sum_noninline_lens(expected) <= usize::MAX,
                    old(self).buffer_count() + length * repeats < u32::MAX,
                decreases repeats - r,
            {
                proof {
                    let j = base + r;
                    assert(j / repeats as int == i - start) by (nonlinear_arith)
                        requires
                            j == base + r,
                            base == (i - start) * repeats,
                            0 <= r < repeats,
                    ;
                    lemma_sum_lens_take(expected, j);
                    lemma_sum_noninline_take(expected, j);
                    lemma_sum_lens_take(expected, j + 1);
                    lemma_sum_noninline_take(expected, j + 1);
                    assert(expected[j] == row_or_empty(other, i as int, valid));
                }
                self.push_row_of(other, i, valid);
                r = r + 1;
                proof {
                    assert(self.rows() =~= old_rows + expected.take(base + r));
                }
            }
            i = i + 1;
        }
        proof {
            assert(expected.take(length * repeats) =~= expected);
        }
        self.validity.subslice_extend_each_repeated_from_opt_validity(
            other_validity,
            start,
            length,
            repeats,
        );
    }

    /// Appends rows `idxs` of `other`, copying their bytes; null rows of
    /// `other` become empty null rows.
    fn gather_extend_copied(&mut self, other: &BinaryViewArray, idxs: &[IdxSize])
        requires
            old(self).wf(),
            other.wf(),
            old(self).dtype_view() == ViewDataType::Utf8View ==> other.dtype_view()
                == ViewDataType::Utf8View,
            forall|k: int| 0 <= k < idxs@.len() ==> #[trigger] idxs@[k] < other.views_view().len(),
            validity_matches(other),
            rows_fit(other),
            old(self).total_bytes_view() + sum_lens(gathered_rows(other, idxs@)) <= usize::MAX,
            old(self).total_buffer_view() + sum_noninline_lens(gathered_rows(other, idxs@))
                <= usize::MAX,
            old(self).buffer_count() + idxs@.len() < u32::MAX,
            old(self).validity_bits().len() + idxs@.len() <= usize::MAX,
        ensures
            final(self).stolen_view() == old(self).stolen_view(),
            final(self).keeps_stolen(old(self)),
            final(self).buffer_count() <= old(self).buffer_count() + idxs@.len(),
            final(self).wf(),
            final(self).rows() == old(self).rows() + gathered_rows(other, idxs@),
            final(self).validity_bits() == old(self).validity_bits() + Seq::new(
                idxs@.len(),
                |k: int| bit_of(other.validity_view(), idxs@[k] as int),
            ),
            final(self).dtype_view() == old(self).dtype_view(),
            final(self).total_bytes_view() == old(self).total_bytes_view() + sum_lens(
                gathered_rows(other, idxs@),
            ),
            final(self).total_buffer_view() == old(self).total_buffer_view() + sum_noninline_lens(
                gathered_rows(other, idxs@),
            ),
    {
        let ghost expected = gathered_rows(other, idxs@);
        let ghost old_rows = self.rows();
        self.views.reserve(idxs.len());
        proof {
            assert(self.stolen_view() == old(self).stolen_view());
        }
        let other_validity = other.validity();
        let mut k: usize = 0;
        while k < idxs.len()
            invariant
                self.wf(),
                other.wf(),
                rows_fit(other),
                validity_matches(other),
                opt_view(other_validity) == other.validity_view(),
                forall|j: int| 0 <= j < idxs@.len() ==> #[trigger] idxs@[j] < other.views_view().len(),
                k <= idxs@.len(),
                expected == gathered_rows(other, idxs@),
                self.rows() == old_rows + expected.take(k as int),
                self.dtype_view() == old(self).dtype_view(),
                self.stolen_view() == old(self).stolen_view(),
                self.keeps_stolen(old(self)),
                self.dtype_view() == ViewDataType::Utf8View ==> other.dtype_view()
                    == ViewDataType::Utf8View,
                self.validity_bits() == old(self).validity_bits(),
                self.total_bytes_view() == old(self).total_bytes_view() + sum_lens(
                    expected.take(k as int),
                ),
                self.total_buffer_view() == old(self).total_buffer_view() + sum_noninline_lens(
                    expected.take(k as int),
                ),
                self.buffer_count() <= old(self).buffer_count() + k,
                old(self).total_bytes_view() + sum_lens(expected) <= usize::MAX,
                old(self).total_buffer_view() + sum_noninline_lens(expected) <= usize::MAX,
                old(self).buffer_count() + idxs@.len() < u32::MAX,
            decreases idxs@.len() - k,
        {
            let idx = idxs[k] as usize;
            let valid = match other_validity {
                Some(v) => v[idx],
                None => true,
            };
            proof {
                lemma_sum_lens_take(expected, k as int);
                lemma_sum_noninline_take(expected, k as int);
                lemma_sum_lens_take(expected, k + 1);
                lemma_sum_noninline_take(expected, k + 1);
                assert(expected[k as int] == row_or_empty(other, idx as int, valid));
            }
            self.push_row_of(other, idx, valid);
            k = k + 1;
            proof {
                assert(self.rows() =~= old_rows + expected.take(k as int));
            }
        }
        proof {
            assert(expected.take(idxs@.len() as int) =~= expected);
        }
        self.validity.gather_extend_from_opt_validity(other_validity, idxs);
    }

    /// Appends rows `idxs` of `other`, copying their bytes; an index past
    /// the end of `other`, or a null row of it, gives an empty null row.
    fn opt_gather_extend_copied(&mut self, other: &BinaryViewArray, idxs: &[IdxSize])
        requires
            old(self).wf(),
            other.wf(),
            old(self).dtype_view() == ViewDataType::Utf8View ==> other.dtype_view()
                == ViewDataType::Utf8View,
            validity_matches(other),
            rows_fit(other),
            old(self).total_bytes_view() + sum_lens(opt_gathered_rows(other, idxs@)) <= usize::MAX,
            old(self).total_buffer_view() + sum_noninline_lens(opt_gathered_rows(other, idxs@))
                <= usize::MAX,
            old(self).buffer_count() + idxs@.len() < u32::MAX,
            old(self).validity_bits().len() + idxs@.len() <= usize::MAX,
        ensures
            final(self).stolen_view() == old(self).stolen_view(),
            final(self).keeps_stolen(old(self)),
            final(self).buffer_count() <= old(self).buffer_count() + idxs@.len(),
            final(self).wf(),
            final(self).rows() == old(self).rows() + opt_gathered_rows(other, idxs@),
            final(self).validity_bits() == old(self).validity_bits() + Seq::new(
                idxs@.len(),
                |k: int|
                    idxs@[k] < other.views_view().len() && bit_of(
                        other.validity_view(),
                        idxs@[k] as int,
                    ),
            ),
            final(self).dtype_view() == old(self).dtype_view(),
            final(self).total_bytes_view() == old(self).total_bytes_view() + sum_lens(
                opt_gathered_rows(other, idxs@),
            ),
            final(self).total_buffer_view() == old(self).total_buffer_view() + sum_noninline_lens(
                opt_gathered_rows(other, idxs@),
            ),
    {
        let ghost expected = opt_gathered_rows(other, idxs@);
        let ghost old_rows = self.rows();
        self.views.reserve(idxs.len());
        proof {
            assert(self.stolen_view() == old(self).stolen_view());
        }
        let other_len = other.len();
        let other_validity = other.validity();
        let mut k: usize = 0;
        while k < idxs.len()
            invariant
                self.wf(),
                other.wf(),
                rows_fit(other),
                validity_matches(other),
                other_len == other.views_view().len(),
                opt_view(other_validity) == other.validity_view(),
                k <= idxs@.len(),
                expected == opt_gathered_rows(other, idxs@),
                self.rows() == old_rows + expected.take(k as int),
                self.dtype_view() == old(self).dtype_view(),
                self.stolen_view() == old(self).stolen_view(),
                self.keeps_stolen(old(self)),
                self.dtype_view() == ViewDataType::Utf8View ==> other.dtype_view()
                    == ViewDataType::Utf8View,
                self.validity_bits() == old(self).validity_bits(),
                self.total_bytes_view() == old(self).total_bytes_view() + sum_lens(
                    expected.take(k as int),
                ),
                self.total_buffer_view() == old(self).total_buffer_view() + sum_noninline_lens(
                    expected.take(k as int),
                ),
                self.buffer_count() <= old(self).buffer_count() + k,
                old(self).total_bytes_view() + sum_lens(expected) <= usize::MAX,
                old(self).total_buffer_view() + sum_noninline_lens(expected) <= usize::MAX,
                old(self).buffer_count() + idxs@.len() < u32::MAX,
            decreases idxs@.len() - k,
        {
            let idx = idxs[k] as usize;
            proof {
                lemma_sum_lens_take(expected, k as int);
                lemma_sum_noninline_take(expected, k as int);
                lemma_sum_lens_take(expected, k + 1);
                lemma_sum_noninline_take(expected, k + 1);
            }
            if idx < other_len {
                let valid = match other_validity {
                    Some(v) => v[idx],
                    None => true,
                };
                proof {
                    assert(expected[k as int] == row_or_empty(other, idx as int, valid));
                }
                self.push_row_of(other, idx, valid);
            } else {
                self.push_null_view_ignore_validity();
            }
            k = k + 1;
            proof {
                assert(self.rows() =~= old_rows + expected.take(k as int));
            }
        }
        proof {
            assert(expected.take(idxs@.len() as int) =~= expected);
        }
        self.validity.opt_gather_extend_from_opt_validity(other_validity, idxs, other_len);
    }
}

} // verus!
