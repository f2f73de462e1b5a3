use std::collections::BTreeMap;
use std::io::ErrorKind;
use vmem::VMem;

#[test]
fn diff() {
    let mut vmem_old = VMem::<4>::new(8);

    let data = [
        0x01, 0x02, 0x03, 0x04,
        0x01, 0x02, 0x03, 0x04,
        0x05
    ];

    vmem_old.write_at(&data, 0x02);
    let mut vmem_new = VMem::<4>::new(8);
    vmem_new.write_at(&data, 0x02);
    vmem_new.write_at(&data, 0x06);

    let patch = VMem::diff(&vmem_old, &vmem_new);
    let mut expected_patch = BTreeMap::new();
    expected_patch.insert(0x06, [0x01, 0x02, 0x03, 0x04]);
    expected_patch.insert(0x07, [0x01, 0x02, 0x03, 0x04]);
    assert_eq!(patch, expected_patch);
}

#[test]
fn diff_of_equal_content_is_empty() {
    let mut a = VMem::<2>::new(4);
    let mut b = VMem::<2>::new(4);
    a.write_word([1, 2], 1).unwrap();
    b.write_word([1, 2], 1).unwrap();
    assert_eq!(VMem::diff(&a, &b), BTreeMap::new());
    assert_eq!(VMem::diff(&a, &a), BTreeMap::new());
}

#[test]
fn diff_takes_a_stored_zero_word_for_no_entry() {
    let a = VMem::<2>::new(4);
    let mut b = VMem::<2>::new(4);
    b.write_word([0, 0], 1).unwrap();
    assert_eq!(VMem::diff(&a, &b), BTreeMap::new());
    assert_eq!(VMem::diff(&b, &a), BTreeMap::new());
}

#[test]
fn diff_records_the_new_word_also_where_it_is_zero() {
    let mut a = VMem::<2>::new(4);
    let mut b = VMem::<2>::new(4);
    a.write_word([1, 2], 1).unwrap();
    a.write_word([3, 4], 2).unwrap();
    b.write_word([3, 5], 2).unwrap();
    b.write_word([6, 7], 3).unwrap();
    let mut expected = BTreeMap::new();
    expected.insert(1, [0, 0]);
    expected.insert(2, [3, 5]);
    expected.insert(3, [6, 7]);
    assert_eq!(VMem::diff(&a, &b), expected);
}

#[test]
fn diff_reaches_as_far_as_the_shorter_memory() {
    let mut short = VMem::<1>::new(2);
    let mut long = VMem::<1>::new(5);
    short.write_word([1], 1).unwrap();
    long.write_word([2], 1).unwrap();
    long.write_word([3], 4).unwrap();
    let mut expected = BTreeMap::new();
    expected.insert(1, [2]);
    assert_eq!(VMem::diff(&short, &long), expected);
    let mut expected = BTreeMap::new();
    expected.insert(1, [1]);
    assert_eq!(VMem::diff(&long, &short), expected);
}

#[test]
fn patch_writes_every_entry() {
    let mut vmem = VMem::<2>::new(4);
    vmem.write_word([9, 9], 0).unwrap();
    vmem.write_word([9, 9], 1).unwrap();
    let mut changes = BTreeMap::new();
    changes.insert(3, [5, 6]);
    changes.insert(1, [1, 2]);
    assert_eq!(vmem.patch(changes), Ok(()));
    assert_eq!(vmem.read_word(0), Some([9, 9]));
    assert_eq!(vmem.read_word(1), Some([1, 2]));
    assert_eq!(vmem.read_word(2), Some([0, 0]));
    assert_eq!(vmem.read_word(3), Some([5, 6]));
    assert_eq!(vmem.iter_content().count(), 3);
}

#[test]
fn patch_of_nothing_is_accepted() {
    let mut vmem = VMem::<2>::new(4);
    assert_eq!(vmem.patch(BTreeMap::new()), Ok(()));
    assert_eq!(vmem.iter_content().count(), 0);
}

#[test]
fn patch_stops_at_the_first_address_out_of_bounds_and_keeps_what_it_wrote() {
    let mut vmem = VMem::<1>::new(4);
    let mut changes = BTreeMap::new();
    changes.insert(9, [9]);
    changes.insert(1, [1]);
    changes.insert(4, [4]);
    changes.insert(3, [3]);
    assert_eq!(vmem.patch(changes), Err(ErrorKind::AddrNotAvailable));
    assert_eq!(vmem.read_word(1), Some([1]));
    assert_eq!(vmem.read_word(3), Some([3]));
    let stored: Vec<usize> = vmem.iter_content().map(|(a, _)| *a).collect();
    assert_eq!(stored, vec![1, 3]);
}

#[test]
fn patching_with_the_diff_gives_the_new_content() {
    let mut old = VMem::<4>::new(8);
    let mut new = VMem::<4>::new(8);
    old.write_at(&[1, 2, 3, 4, 5, 6, 7, 8, 9], 1);
    old.write_word([7, 7, 7, 7], 6).unwrap();
    new.write_at(&[1, 2, 3, 4, 5, 6, 0, 8, 9, 9], 1);
    new.write_word([1, 1, 1, 1], 7).unwrap();

    let changes = VMem::diff(&old, &new);
    let changed: Vec<usize> = changes.keys().copied().collect();
    assert_eq!(changed, vec![2, 3, 6, 7]);

    let mut patched = VMem::<4>::new(8);
    old.iter_content().for_each(|(a, w)| patched.write_word(*w, *a).unwrap());
    assert_eq!(patched, old);
    assert_eq!(patched.patch(changes), Ok(()));
    for addr in 0..8 {
        assert_eq!(patched.read_word(addr), new.read_word(addr));
    }
    assert_eq!(VMem::diff(&patched, &new), BTreeMap::new());
}
