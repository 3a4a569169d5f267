use multidim::DimError;
use multidim::MultiDim;

#[test]
fn set_and_get() {
    let mut md = MultiDim::<u32>::new(&[10, 10, 10], 0);
    for i in 0..10 {
        for j in 0..10 {
            for k in 0..10 {
                md.set(&[i, j, k], (i + (j * 11) + (k * 121)) as u32).unwrap();
            }
        }
    }

    for i in 0..10 {
        for j in 0..10 {
            for k in 0..10 {
                match md.get(&[i, j, k]) {
                    Ok(n) => assert_eq!(*n, (i + (j * 11) + (k * 121)) as u32),
                    Err(e) => panic!("Got error: {:?}", e),
                }
            }
        }
    }
}

#[test]
fn string_value() {
    let mut md = MultiDim::<String>::new(&[2, 2], String::from(""));
    md.set(&[0, 1], String::from("hello world")).unwrap();
    assert_eq!("", *md.get(&[0, 0]).unwrap());
    assert_eq!("hello world", *md.get(&[0, 1]).unwrap());
}

#[test]
fn index_errors() {
    let mut md = MultiDim::<u32>::new(&[2, 2], 0);
    match md.set(&[5, 5], 0) {
        Ok(_) => assert!(false),
        Err(e) => assert_eq!(e, DimError::IndexOutOfRange),
    }

    match md.set(&[0, 0, 2], 0) {
        Ok(_) => assert!(false),
        Err(e) => assert_eq!(e, DimError::IndexMismatch),
    }

    match md.get(&[5, 5]) {
        Ok(_) => assert!(false),
        Err(e) => assert_eq!(e, DimError::IndexOutOfRange),
    }

    match md.get(&[0, 0, 2]) {
        Ok(_) => assert!(false),
        Err(e) => assert_eq!(e, DimError::IndexMismatch),
    }
}

#[test]
fn scenario_extent_nine() {
    let mut md = MultiDim::<u32>::new(&[9, 9, 9], 0);
    for i in 0..=9usize {
        for j in 0..=9usize {
            for k in 0..=9usize {
                md.set(&[i, j, k], (i + 11 * j + 121 * k) as u32).unwrap();
            }
        }
    }
    for i in 0..=9usize {
        for j in 0..=9usize {
            for k in 0..=9usize {
                assert_eq!(*md.get(&[i, j, k]).unwrap(), (i + 11 * j + 121 * k) as u32);
            }
        }
    }
}

#[test]
fn scenario_unit_extents_strings() {
    let mut md = MultiDim::<String>::new(&[1, 1], String::from(""));
    md.set(&[0, 1], String::from("hello world")).unwrap();
    assert_eq!("", *md.get(&[0, 0]).unwrap());
    assert_eq!("hello world", *md.get(&[0, 1]).unwrap());
}

#[test]
fn scenario_unit_extents_errors() {
    let mut md = MultiDim::<u32>::new(&[1, 1], 0);
    assert_eq!(md.set(&[5, 5], 0), Err(DimError::IndexOutOfRange));
    assert_eq!(md.set(&[0, 0, 2], 0), Err(DimError::IndexMismatch));
    assert_eq!(md.get(&[5, 5]), Err(DimError::IndexOutOfRange));
    assert_eq!(md.get(&[0, 0, 2]), Err(DimError::IndexMismatch));
}

#[test]
fn round_trip_every_tuple() {
    let mut md = MultiDim::<u32>::new(&[2, 3], 0);
    for i in 0..=2usize {
        for j in 0..=3usize {
            let v = (100 + 10 * i + j) as u32;
            md.set(&[i, j], v).unwrap();
            assert_eq!(*md.get(&[i, j]).unwrap(), v);
        }
    }
}

#[test]
fn isolation_single_write() {
    let mut md = MultiDim::<u32>::new(&[2, 2], 0);
    md.set(&[1, 2], 5).unwrap();
    for i in 0..=2usize {
        for j in 0..=2usize {
            let expected = if (i, j) == (1, 2) { 5 } else { 0 };
            assert_eq!(*md.get(&[i, j]).unwrap(), expected);
        }
    }
}

#[test]
fn arity_beats_range() {
    let md = MultiDim::<u32>::new(&[2, 2], 0);
    assert_eq!(md.get(&[99, 99, 99]), Err(DimError::IndexMismatch));
    assert_eq!(md.get(&[99]), Err(DimError::IndexMismatch));
}

#[test]
fn range_boundary() {
    let mut md = MultiDim::<u32>::new(&[4], 0);
    // The extent itself is a valid coordinate value.
    md.set(&[4], 7).unwrap();
    assert_eq!(*md.get(&[4]).unwrap(), 7);
    // One past the stored size is rejected.
    assert_eq!(md.get(&[6]), Err(DimError::IndexOutOfRange));
    assert_eq!(md.set(&[6], 1), Err(DimError::IndexOutOfRange));
}

#[test]
fn stored_size_coordinate_aliases() {
    // Validation admits a component equal to the stored size (extent + 1);
    // such a tuple maps to the same flat offset as a smaller tuple.
    let mut md = MultiDim::<u32>::new(&[4, 4], 0);
    md.set(&[5, 0], 9).unwrap();
    assert_eq!(*md.get(&[0, 1]).unwrap(), 9);
}

#[test]
fn empty_shape() {
    let mut md = MultiDim::<u32>::new(&[], 42);
    assert_eq!(*md.get(&[]).unwrap(), 42);
    md.set(&[], 7).unwrap();
    assert_eq!(*md.get(&[]).unwrap(), 7);
    assert_eq!(md.get(&[0]), Err(DimError::IndexMismatch));
}

#[test]
fn failed_set_changes_nothing() {
    let mut md = MultiDim::<u32>::new(&[1, 1], 3);
    assert_eq!(md.set(&[9, 9], 5), Err(DimError::IndexOutOfRange));
    assert_eq!(md.set(&[0], 5), Err(DimError::IndexMismatch));
    for i in 0..=1usize {
        for j in 0..=1usize {
            assert_eq!(*md.get(&[i, j]).unwrap(), 3);
        }
    }
}

#[test]
fn clone_fills_store() {
    let md = MultiDim::<String>::new(&[1], String::from("x"));
    assert_eq!("x", *md.get(&[0]).unwrap());
    assert_eq!("x", *md.get(&[1]).unwrap());
}
