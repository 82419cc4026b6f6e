use ml_dsa::module_lattice::util;
use ml_dsa::module_lattice::util::Truncate;

#[test]
fn flatten() {
    let flat: Vec<u8> = vec![1, 2, 3, 4, 5, 6, 7, 8, 9, 10];
    let unflat2: Vec<Vec<u8>> = vec![vec![1, 2], vec![3, 4], vec![5, 6], vec![7, 8], vec![9, 10]];
    let unflat5: Vec<Vec<u8>> = vec![vec![1, 2, 3, 4, 5], vec![6, 7, 8, 9, 10]];

    let actual = util::flatten(&unflat2, 2);
    assert_eq!(flat, actual);

    let actual = util::flatten(&unflat5, 5);
    assert_eq!(flat, actual);

    let actual = util::unflatten(&flat, 2);
    assert_eq!(unflat2, actual);

    let actual = util::unflatten(&flat, 5);
    assert_eq!(unflat5, actual);

    let actual = util::unflatten(&flat[..], 2);
    for (i, part) in actual.iter().enumerate() {
        assert_eq!(&unflat2[i], part);
    }

    let actual = util::unflatten(&flat[..], 5);
    for (i, part) in actual.iter().enumerate() {
        assert_eq!(&unflat5[i], part);
    }
}

#[test]
fn truncate() {
    assert_eq!(u32::truncate(0x1_2345_6789_u128), 0x2345_6789_u32);
    assert_eq!(u32::truncate(u128::MAX), u32::MAX);

    assert_eq!(u32::truncate(0x1234_5678_9abc_def0_u64), 0x9abc_def0_u32);
    assert_eq!(u32::truncate(u64::MAX), u32::MAX);

    assert_eq!(u8::truncate(0x1234_usize), 0x34_u8);
    assert_eq!(u8::truncate(usize::MAX), u8::MAX);

    assert_eq!(u16::truncate(0x1234_5678_usize), 0x5678_u16);
    assert_eq!(u16::truncate(usize::MAX), u16::MAX);
}

#[test]
fn flatten_empty_and_single() {
    let none: Vec<Vec<u32>> = Vec::new();
    assert!(util::flatten(&none, 3).is_empty());
    assert!(util::unflatten::<u32>(&[], 4).is_empty());
    let one = vec![vec![7u32, 8, 9]];
    assert_eq!(util::flatten(&one, 3), vec![7, 8, 9]);
    assert_eq!(util::unflatten(&[7u32, 8, 9], 3), one);
}
