use std::io::ErrorKind;
use vmem::VMem;

#[test]
fn read_word() {
    let mut vmem = VMem::<4>::new(0x0f);
    let word = [0x0a, 0x0b, 0x0c, 0x0d];
    vmem.write_word(word, 0x03).unwrap();
    let read = vmem.read_word(0x03).unwrap();
    assert_eq!(word, read);
    let read = vmem.read_word(0x0f);
    assert_eq!(read, None);
}

#[test]
fn write_word() {
    let mut vmem = VMem::<4>::new(0x0f);
    let word = [0x0a, 0x0b, 0x0c, 0x0d];
    let result = vmem.write_word(word, 0x03);
    assert_eq!(result, Ok(()));
    let result = vmem.write_word(word, 0x0e);
    assert_eq!(result, Ok(()));
    let result = vmem.write_word(word, 0x0f);
    assert_eq!(result, Err(ErrorKind::AddrNotAvailable));
}

#[test]
fn new_memory_has_its_length_and_width_and_no_entries() {
    let vmem = VMem::<4>::new(0x100);
    assert_eq!(vmem.len(), 0x100);
    assert_eq!(vmem.width(), 4);
    assert_eq!(vmem.iter_content().count(), 0);
}

#[test]
fn round_trip_at_every_address() {
    let mut vmem = VMem::<2>::new(5);
    for addr in 0..5usize {
        let word = [addr as u8, 0xf0 | addr as u8];
        assert_eq!(vmem.write_word(word, addr), Ok(()));
        assert_eq!(vmem.read_word(addr), Some(word));
    }
    for addr in 0..5usize {
        assert_eq!(vmem.read_word(addr), Some([addr as u8, 0xf0 | addr as u8]));
    }
}

#[test]
fn overwrite_replaces_the_word_and_adds_no_entry() {
    let mut vmem = VMem::<2>::new(5);
    vmem.write_word([1, 2], 3).unwrap();
    vmem.write_word([3, 4], 3).unwrap();
    assert_eq!(vmem.read_word(3), Some([3, 4]));
    assert_eq!(vmem.iter_content().count(), 1);
}

#[test]
fn untouched_addresses_read_as_zero() {
    let mut vmem = VMem::<3>::new(4);
    assert_eq!(vmem.read_word(0), Some([0, 0, 0]));
    assert_eq!(vmem.read_word(3), Some([0, 0, 0]));
    vmem.write_word([1, 2, 3], 1).unwrap();
    assert_eq!(vmem.read_word(0), Some([0, 0, 0]));
    assert_eq!(vmem.read_word(2), Some([0, 0, 0]));
    assert_eq!(vmem.iter_content().count(), 1);
}

#[test]
fn reading_allocates_nothing() {
    let vmem = VMem::<3>::new(4);
    assert_eq!(vmem.read_word(2), Some([0, 0, 0]));
    assert_eq!(vmem.iter_content().count(), 0);
}

#[test]
fn read_at_the_length_is_empty_and_write_at_the_length_fails() {
    let mut vmem = VMem::<1>::new(7);
    assert_eq!(vmem.read_word(7), None);
    assert_eq!(vmem.read_word(usize::MAX), None);
    assert_eq!(vmem.write_word([1], 7), Err(ErrorKind::AddrNotAvailable));
    assert_eq!(vmem.write_word([1], usize::MAX), Err(ErrorKind::AddrNotAvailable));
    assert_eq!(vmem.iter_content().count(), 0);
    assert_eq!(vmem.read_word(6), Some([0]));
    assert_eq!(vmem.write_word([1], 6), Ok(()));
}

#[test]
fn memory_of_length_zero_has_no_address() {
    let mut vmem = VMem::<4>::new(0);
    assert_eq!(vmem.len(), 0);
    assert_eq!(vmem.read_word(0), None);
    assert_eq!(vmem.write_word([1, 2, 3, 4], 0), Err(ErrorKind::AddrNotAvailable));
    assert_eq!(vmem.iter().next(), None);
}

#[test]
fn iter_content_lists_entries_in_ascending_order() {
    let mut vmem = VMem::<1>::new(100);
    vmem.write_word([3], 30).unwrap();
    vmem.write_word([1], 10).unwrap();
    vmem.write_word([2], 20).unwrap();
    let entries: Vec<(usize, [u8; 1])> = vmem.iter_content().map(|(a, w)| (*a, *w)).collect();
    assert_eq!(entries, vec![(10, [1]), (20, [2]), (30, [3])]);
}

#[test]
fn equal_content_compares_equal() {
    let mut a = VMem::<2>::new(4);
    let mut b = VMem::<2>::new(4);
    a.write_word([1, 2], 1).unwrap();
    b.write_word([1, 2], 1).unwrap();
    assert_eq!(a, b);
    b.write_word([0, 0], 2).unwrap();
    assert_ne!(a, b);
    assert_ne!(a, VMem::<2>::new(5));
}
