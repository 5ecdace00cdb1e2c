use polars_kernels::binview::builder::{BinaryViewArrayGenericBuilder, ShareStrategy};
use polars_kernels::binview::{BinaryViewArray, ByteView, ViewDataType};

/// An array whose rows are the given byte strings (non-inline ones share one
/// buffer), with an optional mask.
fn array_of(rows: &[&[u8]], validity: Option<Vec<bool>>) -> BinaryViewArray {
    let mut views = Vec::new();
    let mut buffer: Vec<u8> = Vec::new();
    let mut total = 0;
    for r in rows {
        total += r.len();
        if r.len() <= 12 {
            views.push(ByteView::new_inline(r));
        } else {
            let offset = buffer.len() as u32;
            buffer.extend_from_slice(r);
            views.push(ByteView::new_noninline(r, 0, offset));
        }
    }
    let buffers = if buffer.is_empty() { vec![] } else { vec![buffer.clone()] };
    BinaryViewArray::new_unchecked(
        ViewDataType::BinaryView,
        views,
        buffers,
        validity,
        total,
        buffer.len(),
    )
}

fn values(arr: &BinaryViewArray) -> Vec<Vec<u8>> {
    (0..arr.len()).map(|i| arr.value(i)).collect()
}

#[test]
fn oversize_then_small_no_obsolete_buffer() {
    let mut b = BinaryViewArrayGenericBuilder::new(ViewDataType::BinaryView);
    b.push_row_in_own_buffer(&vec![b'x'; 100]);
    b.push_value_ignore_validity(b"a long enough string to be non-inline");
    let arr = b.freeze();
    for (i, buf) in arr.data_buffers().iter().enumerate() {
        assert!(
            !buf.is_empty(),
            "data buffer {i} is empty (obsolete buffer left behind)"
        );
    }
    assert_eq!(arr.value(0).len(), 100);
    assert_eq!(arr.value(1), b"a long enough string to be non-inline".to_vec());
    assert_eq!(arr.data_buffers().len(), 2);
}

#[test]
fn small_oversize_small_no_obsolete_buffer() {
    let mut b = BinaryViewArrayGenericBuilder::new(ViewDataType::BinaryView);
    b.push_value_ignore_validity(b"first non-inline string here");
    b.push_row_in_own_buffer(&vec![b'y'; 100]);
    b.push_value_ignore_validity(b"trailing non-inline string here");
    let arr = b.freeze();
    for (i, buf) in arr.data_buffers().iter().enumerate() {
        assert!(
            !buf.is_empty(),
            "data buffer {i} is empty (obsolete buffer left behind)"
        );
    }
    assert_eq!(arr.value(0), b"first non-inline string here".to_vec());
    assert_eq!(arr.value(1).len(), 100);
    assert_eq!(arr.value(2), b"trailing non-inline string here".to_vec());
    assert_eq!(arr.data_buffers().len(), 3);
}

#[test]
fn two_oversize_in_a_row_no_obsolete_buffer() {
    let mut b = BinaryViewArrayGenericBuilder::new(ViewDataType::BinaryView);
    b.push_row_in_own_buffer(&vec![b'a'; 100]);
    b.push_row_in_own_buffer(&vec![b'b'; 100]);
    let arr = b.freeze();
    for (i, buf) in arr.data_buffers().iter().enumerate() {
        assert!(
            !buf.is_empty(),
            "data buffer {i} is empty (obsolete buffer left behind)"
        );
    }
    assert_eq!(arr.data_buffers().len(), 2);
}

#[test]
fn inline_and_buffered_values_read_back() {
    let mut b = BinaryViewArrayGenericBuilder::new(ViewDataType::Utf8View);
    let rows: Vec<&[u8]> = vec![b"", b"abc", b"exactly12byt", b"thirteen byte", b"a much longer row"];
    for r in &rows {
        b.push_value_ignore_validity(r);
    }
    assert_eq!(b.len(), 5);
    assert_eq!(b.dtype(), ViewDataType::Utf8View);
    let arr = b.freeze();
    assert_eq!(values(&arr), rows.iter().map(|r| r.to_vec()).collect::<Vec<_>>());
    // The two long rows share one buffer.
    assert_eq!(arr.data_buffers().len(), 1);
    assert_eq!(arr.data_buffers()[0], b"thirteen bytea much longer row".to_vec());
    assert!(arr.views()[1].is_inline());
    assert!(arr.views()[2].is_inline());
    assert!(!arr.views()[3].is_inline());
    assert_eq!(arr.views()[4].offset, 13);
    assert_eq!(arr.total_bytes_len(), 0 + 3 + 12 + 13 + 17);
    assert_eq!(arr.total_buffer_len(), 30);
    assert!(arr.validity().is_none());
}

#[test]
fn inline_view_packs_bytes_little_endian() {
    let v = ByteView::new_inline(b"abcdefghij");
    assert_eq!(v.length, 10);
    assert_eq!(v.prefix, u32::from_le_bytes(*b"abcd"));
    assert_eq!(v.buffer_idx, u32::from_le_bytes(*b"efgh"));
    assert_eq!(v.offset, u32::from_le_bytes([b'i', b'j', 0, 0]));
    let w = ByteView::new_noninline(b"0123456789abcdef", 3, 7);
    assert_eq!(w.prefix, u32::from_le_bytes(*b"0123"));
    assert_eq!((w.length, w.buffer_idx, w.offset), (16, 3, 7));
}

#[test]
fn inline_view_pushed_as_is() {
    let mut b = BinaryViewArrayGenericBuilder::new(ViewDataType::BinaryView);
    b.push_inline_view_ignore_validity(ByteView::new_inline(b"hi"));
    let arr = b.freeze();
    assert_eq!(arr.value(0), b"hi".to_vec());
    assert_eq!(arr.total_bytes_len(), 2);
    assert_eq!(arr.data_buffers().len(), 0);
}

#[test]
fn extend_nulls_gives_empty_null_rows() {
    let mut b = BinaryViewArrayGenericBuilder::new(ViewDataType::BinaryView);
    b.push_value_ignore_validity(b"x");
    b.extend_nulls(2);
    let arr = b.freeze();
    assert_eq!(values(&arr), vec![b"x".to_vec(), vec![], vec![]]);
    // Only the two null rows went through the mask.
    assert_eq!(arr.validity(), Some(&vec![false, false]));
}

#[test]
fn freeze_reset_leaves_an_empty_builder() {
    let mut b = BinaryViewArrayGenericBuilder::new(ViewDataType::BinaryView);
    b.push_value_ignore_validity(b"a row longer than twelve");
    let first = b.freeze_reset();
    assert_eq!(first.value(0), b"a row longer than twelve".to_vec());
    assert_eq!(first.data_buffers().len(), 1);
    assert_eq!(b.len(), 0);
    b.push_value_ignore_validity(b"another long row here");
    let second = b.freeze();
    assert_eq!(values(&second), vec![b"another long row here".to_vec()]);
    assert_eq!(second.data_buffers().len(), 1);
    assert_eq!(second.total_bytes_len(), 21);
}

#[test]
fn full_active_buffer_is_sealed() {
    let mut b = BinaryViewArrayGenericBuilder::new(ViewDataType::BinaryView);
    let big = vec![b'z'; 8000];
    b.push_value_ignore_validity(&big);
    // 8000 + 300 bytes exceed the 8 KiB first buffer.
    let next = vec![b'q'; 300];
    b.push_value_ignore_validity(&next);
    b.push_value_ignore_validity(b"fits in second buffer");
    let arr = b.freeze();
    assert_eq!(arr.data_buffers().len(), 2);
    assert_eq!(arr.data_buffers()[0].len(), 8000);
    assert_eq!(arr.data_buffers()[1].len(), 300 + 21);
    assert_eq!(arr.value(1), next);
    assert_eq!(arr.views()[2].buffer_idx, 1);
    assert_eq!(arr.views()[2].offset, 300);
}

#[test]
fn subslice_extend_copies_rows_and_validity() {
    let other = array_of(
        &[b"first long value!", b"x", b"skipped long value", b"last long value!!"],
        Some(vec![true, true, false, true]),
    );
    let mut b = BinaryViewArrayGenericBuilder::new(ViewDataType::BinaryView);
    b.subslice_extend(&other, 1, 3, ShareStrategy::Never, &[]);
    let arr = b.freeze();
    assert_eq!(
        values(&arr),
        vec![b"x".to_vec(), vec![], b"last long value!!".to_vec()]
    );
    assert_eq!(arr.validity(), Some(&vec![true, false, true]));
    assert_eq!(arr.total_bytes_len(), 1 + 17);
}

#[test]
fn subslice_extend_each_repeated_repeats_rows() {
    let other = array_of(&[b"ab", b"a fairly long row"], None);
    let mut b = BinaryViewArrayGenericBuilder::new(ViewDataType::BinaryView);
    b.subslice_extend_each_repeated(&other, 0, 2, 2, ShareStrategy::Never, &[]);
    let arr = b.freeze();
    assert_eq!(
        values(&arr),
        vec![
            b"ab".to_vec(),
            b"ab".to_vec(),
            b"a fairly long row".to_vec(),
            b"a fairly long row".to_vec()
        ]
    );
    assert!(arr.validity().is_none());
    assert_eq!(arr.data_buffers()[0].len(), 34);
}

#[test]
fn gather_extend_picks_rows() {
    let other = array_of(&[b"zero", b"one is long enough", b"two"], Some(vec![true, true, false]));
    let mut b = BinaryViewArrayGenericBuilder::new(ViewDataType::BinaryView);
    b.gather_extend(&other, &[1, 0, 2, 1], ShareStrategy::Never, &[]);
    let arr = b.freeze();
    assert_eq!(
        values(&arr),
        vec![
            b"one is long enough".to_vec(),
            b"zero".to_vec(),
            vec![],
            b"one is long enough".to_vec()
        ]
    );
    assert_eq!(arr.validity(), Some(&vec![true, true, false, true]));
}

#[test]
fn opt_gather_extend_nulls_out_of_range() {
    let other = array_of(&[b"zero", b"one is long enough"], None);
    let mut b = BinaryViewArrayGenericBuilder::new(ViewDataType::BinaryView);
    b.opt_gather_extend(&other, &[1, 7, 0], ShareStrategy::Never, &[]);
    let arr = b.freeze();
    assert_eq!(
        values(&arr),
        vec![b"one is long enough".to_vec(), vec![], b"zero".to_vec()]
    );
    assert_eq!(arr.validity(), Some(&vec![true, false, true]));
}

#[test]
fn reserve_changes_nothing_visible() {
    let mut b = BinaryViewArrayGenericBuilder::new(ViewDataType::BinaryView);
    b.reserve(100);
    b.push_value_ignore_validity(b"v");
    assert_eq!(b.len(), 1);
    let arr = b.freeze();
    assert_eq!(values(&arr), vec![b"v".to_vec()]);
}

#[test]
fn utf8_builder_keeps_text_rows() {
    let mut b = BinaryViewArrayGenericBuilder::new(ViewDataType::Utf8View);
    let rows = ["h\u{e9}", "a string with \u{fc}mlauts, long enough", ""];
    for r in rows.iter() {
        b.push_value_ignore_validity(r.as_bytes());
    }
    let arr = b.freeze();
    assert_eq!(arr.dtype(), ViewDataType::Utf8View);
    assert_eq!(arr.len(), 3);
    for (i, r) in rows.iter().enumerate() {
        let v = arr.value(i);
        assert_eq!(std::str::from_utf8(&v).unwrap(), *r);
    }
}

#[test]
fn builder_counters_track_pushed_rows() {
    let mut b = BinaryViewArrayGenericBuilder::new(ViewDataType::BinaryView);
    assert_eq!(b.buffer_slots(), 0);
    b.push_value_ignore_validity(b"short");
    assert_eq!(b.total_bytes_len(), 5);
    assert_eq!(b.total_buffer_len(), 0);
    assert_eq!(b.buffer_slots(), 0);
    b.push_value_ignore_validity(b"a row that does not fit inline");
    assert_eq!(b.total_bytes_len(), 35);
    assert_eq!(b.total_buffer_len(), 30);
    assert_eq!(b.buffer_slots(), 1);
}

#[test]
fn shared_subslice_takes_over_the_buffer() {
    let other = array_of(
        &[b"first long value!", b"x", b"skipped long value", b"last long value!!"],
        Some(vec![true, true, false, true]),
    );
    let mut b = BinaryViewArrayGenericBuilder::new(ViewDataType::BinaryView);
    b.subslice_extend(&other, 1, 3, ShareStrategy::Always, &[7]);
    let arr = b.freeze();
    // The views are kept, so the null row still denotes its bytes.
    assert_eq!(
        values(&arr),
        vec![b"x".to_vec(), b"skipped long value".to_vec(), b"last long value!!".to_vec()]
    );
    assert_eq!(arr.validity(), Some(&vec![true, false, true]));
    assert_eq!(arr.data_buffers().len(), 1);
    assert_eq!(arr.data_buffers()[0], other.data_buffers()[0]);
    assert_eq!(arr.total_buffer_len(), other.data_buffers()[0].len());
    assert_eq!(arr.total_bytes_len(), 1 + 18 + 17);
}

#[test]
fn shared_storage_is_taken_over_once() {
    let other = array_of(&[b"a fairly long row", b"another long row!"], None);
    let mut b = BinaryViewArrayGenericBuilder::new(ViewDataType::BinaryView);
    b.subslice_extend(&other, 0, 1, ShareStrategy::Always, &[3]);
    b.gather_extend(&other, &[1, 0], ShareStrategy::Always, &[3]);
    let arr = b.freeze();
    assert_eq!(arr.data_buffers().len(), 1);
    assert_eq!(
        values(&arr),
        vec![
            b"a fairly long row".to_vec(),
            b"another long row!".to_vec(),
            b"a fairly long row".to_vec()
        ]
    );
    assert_eq!(arr.total_buffer_len(), 34);
}

#[test]
fn shared_buffers_follow_own_buffers() {
    let other = array_of(&[b"a fairly long row"], None);
    let mut b = BinaryViewArrayGenericBuilder::new(ViewDataType::BinaryView);
    b.push_value_ignore_validity(b"an own row that is long");
    b.subslice_extend_each_repeated(&other, 0, 1, 3, ShareStrategy::Always, &[9]);
    b.push_value_ignore_validity(b"another own long row");
    let arr = b.freeze();
    assert_eq!(arr.data_buffers().len(), 2);
    assert_eq!(arr.data_buffers()[1], other.data_buffers()[0]);
    assert_eq!(arr.views()[1].buffer_idx, 1);
    assert_eq!(arr.views()[3].buffer_idx, 1);
    assert_eq!(
        values(&arr),
        vec![
            b"an own row that is long".to_vec(),
            b"a fairly long row".to_vec(),
            b"a fairly long row".to_vec(),
            b"a fairly long row".to_vec(),
            b"another own long row".to_vec()
        ]
    );
}

#[test]
fn shared_opt_gather_gives_empty_rows_past_the_end() {
    let other = array_of(&[b"zero", b"one is long enough"], None);
    let mut b = BinaryViewArrayGenericBuilder::new(ViewDataType::BinaryView);
    b.opt_gather_extend(&other, &[1, 7, 0], ShareStrategy::Always, &[1]);
    let arr = b.freeze();
    assert_eq!(
        values(&arr),
        vec![b"one is long enough".to_vec(), vec![], b"zero".to_vec()]
    );
    assert_eq!(arr.validity(), Some(&vec![true, false, true]));
    assert_eq!(arr.data_buffers().len(), 1);
}

#[test]
fn own_buffer_row_after_sharing_keeps_the_shared_buffer() {
    let other = array_of(&[b"a fairly long row"], None);
    let mut b = BinaryViewArrayGenericBuilder::new(ViewDataType::BinaryView);
    b.subslice_extend(&other, 0, 1, ShareStrategy::Always, &[5]);
    b.push_row_in_own_buffer(&vec![b'z'; 100]);
    let arr = b.freeze();
    assert_eq!(arr.data_buffers().len(), 2);
    assert_eq!(arr.value(0), b"a fairly long row".to_vec());
    assert_eq!(arr.value(1).len(), 100);
}

#[test]
fn freeze_reset_forgets_shared_storages() {
    let other = array_of(&[b"a fairly long row"], None);
    let mut b = BinaryViewArrayGenericBuilder::new(ViewDataType::BinaryView);
    b.subslice_extend(&other, 0, 1, ShareStrategy::Always, &[4]);
    let first = b.freeze_reset();
    assert_eq!(first.data_buffers().len(), 1);
    b.subslice_extend(&other, 0, 1, ShareStrategy::Always, &[4]);
    let second = b.freeze();
    assert_eq!(second.data_buffers().len(), 1);
    assert_eq!(second.value(0), b"a fairly long row".to_vec());
    assert_eq!(second.views()[0].buffer_idx, 0);
}
