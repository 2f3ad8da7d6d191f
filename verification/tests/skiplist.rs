use cssl::skiplist::SkipList;

#[test]
fn find_single() {
    let sorted = [0, 1, 2, 3, 10, 20, 23, 24, 25, 26, 40, 400, 421, 422, 423];
    let slist = SkipList::new(3, 2, &sorted);

    for idx in 0..sorted.len() {
        assert_eq!(Some(idx), slist.find(sorted[idx]));
    }
}

#[test]
fn find_single_not_included() {
    let sorted = [0, 1, 2, 3, 10, 20, 23, 24, 25, 26, 40, 400, 421, 422, 423];
    let slist = SkipList::new(3, 2, &sorted);

    assert_eq!(None, slist.find(22));
    assert_eq!(None, slist.find(4));
    assert_eq!(None, slist.find(500));
}

#[test]
fn find_range1() {
    let sorted = [0, 1, 2, 3, 10, 20, 23, 24, 25, 26, 40, 400, 421, 422, 423];
    let slist = SkipList::new(3, 2, &sorted[0..sorted.len()]);

    for start in 0..sorted.len() {
        for end in start..sorted.len() {
            println!(
                "Running find_range1 test with start: {}, end: {}",
                sorted[start], sorted[end]
            );
            let found = slist.find_range(sorted[start], sorted[end]);

            assert_eq!(true, found.is_some());
            let v = found.unwrap();
            assert_eq!(start, v.start);
            assert_eq!(end, v.end - 1);
        }
    }
}

#[test]
fn find_range_not_included() {
    let sorted = [0, 1, 2, 3, 10, 20, 23, 24, 25, 26, 40, 400, 421, 422, 423];
    let slist = SkipList::new(3, 2, &sorted[0..sorted.len()]);

    assert_eq!(None, slist.find_range(500, 600));
}

#[test]
fn whole_range_and_absent_ranges() {
    let sorted = [0, 1, 2, 3, 10, 20, 23, 24, 25, 26, 40, 400, 421, 422, 423];
    let slist = SkipList::new(3, 2, &sorted);

    let whole = slist.find_range(0, 423).unwrap();
    assert_eq!(0, whole.start);
    assert_eq!(15, whole.end);

    let middle = slist.find_range(20, 26).unwrap();
    assert_eq!(5, middle.start);
    assert_eq!(10, middle.end);

    // entirely above and entirely below the data set
    assert_eq!(None, slist.find_range(500, 600));
    assert!(slist.find_range(4, 9).is_none());
}

#[test]
fn builder_sorts_input() {
    let slist = SkipList::new(9, 5, &[2, 1, 3, 10, 0]);
    assert_eq!(*slist.sorted_keys(), vec![0u32, 1, 2, 3, 10]);
}

#[test]
fn empty_input() {
    let keys: [u32; 0] = [];
    let slist = SkipList::new(4, 2, &keys);
    assert!(slist.sorted_keys().is_empty());
    assert_eq!(None, slist.find(0));
    assert_eq!(None, slist.find(17));
    assert_eq!(None, slist.find(u32::MAX));
    assert_eq!(None, slist.find_range(0, 100));
    assert_eq!(None, slist.find_range(0, u32::MAX));
}

#[test]
fn single_key() {
    let slist = SkipList::new(3, 2, &[7]);
    assert_eq!(*slist.sorted_keys(), vec![7u32]);
    assert_eq!(Some(0), slist.find(7));
    assert_eq!(None, slist.find(6));
    assert_eq!(None, slist.find(8));
    let r = slist.find_range(7, 7).unwrap();
    assert_eq!((0, 1), (r.start, r.end));
}

#[test]
fn two_keys() {
    let slist = SkipList::new(2, 2, &[9, 4]);
    assert_eq!(*slist.sorted_keys(), vec![4u32, 9]);
    assert_eq!(Some(0), slist.find(4));
    assert_eq!(Some(1), slist.find(9));
    assert_eq!(None, slist.find(5));
    let r = slist.find_range(4, 9).unwrap();
    assert_eq!((0, 2), (r.start, r.end));
    let r = slist.find_range(9, 100).unwrap();
    assert_eq!((1, 2), (r.start, r.end));
}

#[test]
fn exactly_skip_keys() {
    // three keys with skip 3: one full proxy block
    let slist = SkipList::new(4, 3, &[30, 10, 20]);
    assert_eq!(*slist.sorted_keys(), vec![10u32, 20, 30]);
    for (i, k) in [10u32, 20, 30].iter().enumerate() {
        assert_eq!(Some(i), slist.find(*k));
    }
    let r = slist.find_range(10, 30).unwrap();
    assert_eq!((0, 3), (r.start, r.end));
}

#[test]
fn saturated_top_lane() {
    // exactly skip^max_level keys: 2^3 = 8 keys saturate the top lane
    let keys: Vec<u32> = (0..8).map(|i| 10 * i + 1).collect();
    let slist = SkipList::new(3, 2, &keys);
    for (i, k) in keys.iter().enumerate() {
        assert_eq!(Some(i), slist.find(*k));
    }
    assert_eq!(None, slist.find(0));
    assert_eq!(None, slist.find(2));
    let r = slist.find_range(1, 71).unwrap();
    assert_eq!((0, 8), (r.start, r.end));
}

#[test]
fn lookup_extremes() {
    let sorted = [5, 8, 13, 21, 34, 55, 89];
    let slist = SkipList::new(3, 2, &sorted);
    assert_eq!(Some(0), slist.find(5));
    assert_eq!(Some(6), slist.find(89));
    assert_eq!(None, slist.find(4));
    assert_eq!(None, slist.find(90));
    // a range of length 1 in the middle
    let r = slist.find_range(21, 21).unwrap();
    assert_eq!((3, 4), (r.start, r.end));
}

#[test]
fn duplicates() {
    let slist = SkipList::new(5, 3, &[10, 10, 10, 10, 10]);
    let found = slist.find(10).expect("a duplicate key must be found");
    assert!(found < 5);
    assert_eq!(10, slist.sorted_keys()[found]);
    let r = slist.find_range(10, 10).unwrap();
    assert_eq!(5, r.end);
    assert_eq!(10, slist.sorted_keys()[r.start]);
    assert!(r.start < r.end);
}

#[test]
fn duplicates_among_other_keys() {
    let slist = SkipList::new(3, 2, &[1, 3, 3, 3, 7, 9]);
    let found = slist.find(3).expect("3 is present");
    assert_eq!(3, slist.sorted_keys()[found]);
    let r = slist.find_range(3, 3).unwrap();
    // the run of 3s ends right before the 7 at index 4
    assert_eq!(4, r.end);
    assert_eq!(3, slist.sorted_keys()[r.start]);
}

#[test]
fn sentinel_valued_keys() {
    // u32::MAX is also the padding sentinel; lookups must still be exact
    let slist = SkipList::new(3, 2, &[1, u32::MAX, 5, u32::MAX]);
    assert_eq!(*slist.sorted_keys(), vec![1u32, 5, u32::MAX, u32::MAX]);
    let found = slist.find(u32::MAX).expect("the sentinel value is stored");
    assert_eq!(u32::MAX, slist.sorted_keys()[found]);
    let without = SkipList::new(3, 2, &[1, 5]);
    assert_eq!(None, without.find(u32::MAX));
    let r = slist.find_range(5, u32::MAX).unwrap();
    assert_eq!((1, 4), (r.start, r.end));
}

#[test]
fn skip_is_clamped() {
    // skip of 0 clamps to 2, skip of 99 clamps to 5; behaviour is unchanged
    let keys = [4, 16, 25, 36, 49, 64, 81, 100];
    for skip in [0usize, 1, 2, 5, 99] {
        let slist = SkipList::new(4, skip, &keys);
        for (i, k) in keys.iter().enumerate() {
            assert_eq!(Some(i), slist.find(*k));
        }
        assert_eq!(None, slist.find(5));
        let r = slist.find_range(16, 81).unwrap();
        assert_eq!((1, 7), (r.start, r.end));
    }
}

#[test]
fn build_ignores_input_order() {
    let shuffled = [423, 2, 400, 0, 25, 10, 23, 1, 40, 26, 422, 3, 20, 421, 24];
    let sorted = [0, 1, 2, 3, 10, 20, 23, 24, 25, 26, 40, 400, 421, 422, 423];
    let a = SkipList::new(3, 2, &shuffled);
    let b = SkipList::new(3, 2, &sorted);
    assert_eq!(a.sorted_keys(), b.sorted_keys());
    for k in 0..500u32 {
        assert_eq!(a.find(k), b.find(k));
    }
    for start in 0..sorted.len() {
        for end in start..sorted.len() {
            assert_eq!(
                a.find_range(sorted[start], sorted[end]),
                b.find_range(sorted[start], sorted[end])
            );
        }
    }
}

#[test]
fn single_level_descent() {
    // max_level of 1: the binary search lane is the bottom lane
    let keys = [2, 3, 5, 7, 11, 13, 17, 19, 23, 29, 31, 37, 41, 43, 47, 53, 59];
    let slist = SkipList::new(1, 5, &keys);
    for (i, k) in keys.iter().enumerate() {
        assert_eq!(Some(i), slist.find(*k));
    }
    assert_eq!(None, slist.find(4));
    assert_eq!(None, slist.find(60));
    let r = slist.find_range(2, 59).unwrap();
    assert_eq!((0, keys.len()), (r.start, r.end));
}

#[test]
fn range_with_high_bound_beyond_maximum() {
    let keys = [1, 2, 3, 4, 5, 6, 7, 8, 9, 10, 11, 12, 13, 14, 15, 16];
    let slist = SkipList::new(2, 2, &keys);
    // the whole data set lies within the interval: the scan finds no
    // crossing and must still report the full tail
    let r = slist.find_range(1, 1000).unwrap();
    assert_eq!((0, 16), (r.start, r.end));
    let r = slist.find_range(9, u32::MAX).unwrap();
    assert_eq!((8, 16), (r.start, r.end));
}
