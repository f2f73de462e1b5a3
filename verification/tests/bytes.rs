use vmem::VMem;

#[test]
fn read_at() {
    let mut vmem = VMem::<4>::new(0x0f);

    let data = [
        0x01, 0x02, 0x03, 0x04,
        0x01, 0x02, 0x03, 0x04,
        0x05
    ];

    vmem.write_at(&data, 0x0d);
    let mut buf = [0x00; 8];
    vmem.read_at(&mut buf, 0x0d).unwrap();

    let expected_buf = [
        0x01, 0x02, 0x03, 0x04,
        0x01, 0x02, 0x03, 0x04
    ];

    assert_eq!(buf, expected_buf);
}

#[test]
fn write_at() {
    let mut vmem = VMem::<4>::new(0x0f);

    let data = [
        0x01, 0x02, 0x03, 0x04,
        0x01, 0x02, 0x03, 0x04,
        0x05
    ];

    vmem.write_at(&data, 0x0d);
    vmem.write_at(&data, 0x02);
    let mut buf = [0x00u8; 9];
    vmem.read_at(&mut buf, 0x2).unwrap();

    let expected_buf = [
        0x01, 0x02, 0x03, 0x04,
        0x01, 0x02, 0x03, 0x04,
        0x05
    ];

    assert_eq!(buf, expected_buf);
    let mut buf = [0x00u8; 9];
    vmem.read_at(&mut buf, 0x0d).unwrap();

    let expected_buf = [
        0x01, 0x02, 0x03, 0x04,
        0x01, 0x02, 0x03, 0x04,
        0x00
    ];
    assert_eq!(buf, expected_buf);
}

#[test]
fn read_at_fills_from_stored_and_zero_words() {
    let mut vmem = VMem::<4>::new(0x0f);
    vmem.write_word([0x01, 0x02, 0x04, 0x08], 0x0d).unwrap();

    let mut buf = [0xaa; 8];
    vmem.read_at(&mut buf, 0x0d).unwrap();

    assert_eq!(buf, [0x01, 0x02, 0x04, 0x08, 0x00, 0x00, 0x00, 0x00]);
}

#[test]
fn read_at_leaves_words_beyond_the_length_untouched() {
    let mut vmem = VMem::<2>::new(3);
    vmem.write_word([1, 2], 2).unwrap();
    let mut buf = [0xee; 7];
    vmem.read_at(&mut buf, 1).unwrap();
    assert_eq!(buf, [0, 0, 1, 2, 0xee, 0xee, 0xee]);
}

#[test]
fn read_at_fills_a_partial_last_word_from_the_leading_bytes() {
    let mut vmem = VMem::<4>::new(3);
    vmem.write_word([1, 2, 3, 4], 1).unwrap();
    let mut buf = [0xee; 6];
    vmem.read_at(&mut buf, 0).unwrap();
    assert_eq!(buf, [0, 0, 0, 0, 1, 2]);
    let mut buf = [0xee; 3];
    vmem.read_at(&mut buf, 1).unwrap();
    assert_eq!(buf, [1, 2, 3]);
}

#[test]
fn read_at_outside_the_memory_changes_nothing() {
    let vmem = VMem::<4>::new(3);
    let mut buf = [0xee; 5];
    vmem.read_at(&mut buf, 3).unwrap();
    assert_eq!(buf, [0xee; 5]);
}

#[test]
fn read_at_counts_from_the_cursor() {
    let vmem = VMem::<4>::new(0x0f);
    let mut buf = [0u8; 8];
    assert_eq!(vmem.read_at(&mut buf, 0x0d).unwrap(), (0x0d + 2) * 4);
    let mut buf = [0u8; 9];
    assert_eq!(vmem.read_at(&mut buf, 2).unwrap(), (2 + 2) * 4 + 1);
    let mut buf = [0u8; 3];
    assert_eq!(vmem.read_at(&mut buf, 0).unwrap(), 3);
    let mut buf = [0u8; 0];
    assert_eq!(vmem.read_at(&mut buf, 5).unwrap(), 20);
}

#[test]
fn read_at_changes_no_entry() {
    let vmem = VMem::<4>::new(4);
    let mut buf = [0u8; 16];
    vmem.read_at(&mut buf, 0).unwrap();
    assert_eq!(vmem.iter_content().count(), 0);
}

#[test]
fn byte_view_round_trip() {
    let mut vmem = VMem::<3>::new(4);
    let data = [1, 2, 3, 4, 5, 6, 7, 8, 9, 10, 11];
    vmem.write_at(&data, 1);
    let mut buf = [0xee; 11];
    vmem.read_at(&mut buf, 1).unwrap();
    assert_eq!(buf, [1, 2, 3, 4, 5, 6, 7, 8, 9, 0xee, 0xee]);
    assert_eq!(vmem.read_word(0), Some([0, 0, 0]));
    assert_eq!(vmem.read_word(3), Some([7, 8, 9]));
}

#[test]
fn write_at_keeps_the_tail_of_a_stored_word() {
    let mut vmem = VMem::<4>::new(4);
    vmem.write_word([0x0a, 0x0b, 0x0c, 0x0d], 2).unwrap();
    vmem.write_at(&[1, 2], 2);
    assert_eq!(vmem.read_word(2), Some([1, 2, 0x0c, 0x0d]));
    vmem.write_at(&[9, 9, 9, 9, 7], 1);
    assert_eq!(vmem.read_word(1), Some([9, 9, 9, 9]));
    assert_eq!(vmem.read_word(2), Some([7, 2, 0x0c, 0x0d]));
}

#[test]
fn write_at_pads_a_partial_word_with_zeros_where_nothing_was_stored() {
    let mut vmem = VMem::<4>::new(4);
    vmem.write_at(&[1, 2, 3], 1);
    assert_eq!(vmem.read_word(1), Some([1, 2, 3, 0]));
    assert_eq!(vmem.iter_content().count(), 1);
}

#[test]
fn write_at_replaces_whole_words() {
    let mut vmem = VMem::<2>::new(4);
    vmem.write_word([7, 7], 0).unwrap();
    vmem.write_word([8, 8], 1).unwrap();
    vmem.write_at(&[1, 2, 3, 4], 0);
    assert_eq!(vmem.read_word(0), Some([1, 2]));
    assert_eq!(vmem.read_word(1), Some([3, 4]));
    assert_eq!(vmem.read_word(2), Some([0, 0]));
    assert_eq!(vmem.iter_content().count(), 2);
}

#[test]
fn write_at_stores_zero_words_too() {
    let mut vmem = VMem::<2>::new(4);
    vmem.write_at(&[0, 0, 0, 0], 1);
    assert_eq!(vmem.iter_content().count(), 2);
}

#[test]
fn write_at_skips_words_outside_the_memory() {
    let mut vmem = VMem::<2>::new(3);
    vmem.write_at(&[1, 2, 3, 4, 5, 6, 7], 1);
    assert_eq!(vmem.read_word(1), Some([1, 2]));
    assert_eq!(vmem.read_word(2), Some([3, 4]));
    assert_eq!(vmem.iter_content().count(), 2);
    vmem.write_at(&[9, 9], 3);
    vmem.write_at(&[9, 9, 9], usize::MAX);
    assert_eq!(vmem.iter_content().count(), 2);
}

#[test]
fn write_at_of_nothing_changes_nothing() {
    let mut vmem = VMem::<2>::new(3);
    vmem.write_at(&[], 1);
    assert_eq!(vmem.iter_content().count(), 0);
}

#[test]
fn from_bytes_skips_zero_words_and_pads_the_last() {
    let bytes = [0, 0, 0, 0, 1, 2, 3, 4, 0, 0, 0, 0, 5];
    let vmem = VMem::<4>::from_bytes(&bytes);
    assert_eq!(vmem.len(), 4);
    assert_eq!(vmem.read_word(0), Some([0, 0, 0, 0]));
    assert_eq!(vmem.read_word(1), Some([1, 2, 3, 4]));
    assert_eq!(vmem.read_word(2), Some([0, 0, 0, 0]));
    assert_eq!(vmem.read_word(3), Some([5, 0, 0, 0]));
    assert_eq!(vmem.read_word(4), None);
    let stored: Vec<usize> = vmem.iter_content().map(|(a, _)| *a).collect();
    assert_eq!(stored, vec![1, 3]);
}

#[test]
fn from_bytes_of_whole_words_has_no_extra_word() {
    let vmem = VMem::<2>::from_bytes(&[1, 2, 3, 4]);
    assert_eq!(vmem.len(), 2);
    assert_eq!(vmem.read_word(1), Some([3, 4]));
    assert_eq!(VMem::<2>::from_bytes(&[]).len(), 0);
    assert_eq!(VMem::<2>::from_bytes(&[1]).len(), 1);
}

#[test]
fn from_bytes_skips_a_zero_last_word() {
    let vmem = VMem::<2>::from_bytes(&[1, 2, 0]);
    assert_eq!(vmem.len(), 2);
    assert_eq!(vmem.iter_content().count(), 1);
    assert_eq!(vmem.read_word(1), Some([0, 0]));
}

#[test]
fn from_slice_builds_the_same_memory() {
    let bytes = [0u8, 0, 7, 8, 9];
    let vmem = VMem::<2>::from(&bytes[..]);
    assert_eq!(vmem, VMem::<2>::from_bytes(&bytes));
    assert_eq!(vmem.len(), 3);
    assert_eq!(vmem.read_word(2), Some([9, 0]));
}

#[test]
fn from_slice_with_width_zero_is_empty() {
    let vmem = VMem::<0>::from(&[1u8, 2, 3][..]);
    assert_eq!(vmem.len(), 0);
    assert_eq!(vmem.read_word(0), None);
}
