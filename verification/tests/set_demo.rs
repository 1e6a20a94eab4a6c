use range_set_blaze::RangeSetBlaze;

#[test]
fn demo_f1() {
    // before_or_equal_exists	0
    //     INSERT, etc

    let mut range_set_blaze = RangeSetBlaze::from_iter(vec![(11, 14), (22, 26)]);
    range_set_blaze.internal_add((10, 10));
    assert_eq!(range_set_blaze.to_string(), "10..=14, 22..=26");
    println!(
        "demo_1 range_set_blaze = {:?}, len_slow = {:?}, len = {:?}",
        range_set_blaze.to_string(),
        range_set_blaze.len_slow(),
        range_set_blaze.len()
    );

    assert!(range_set_blaze.len_slow() == range_set_blaze.len());
}

#[test]
fn demo_d1() {
    // before_or_equal_exists	1
    // equal?	1
    // is_included	n/a
    // fits?	1
    //     DONE

    let mut range_set_blaze = RangeSetBlaze::from_iter(vec![(10, 14)]);
    range_set_blaze.internal_add((10, 10));
    assert_eq!(range_set_blaze.to_string(), "10..=14");
    assert_eq!(range_set_blaze.len_slow(), range_set_blaze.len());
}

#[test]
fn demo_e1() {
    // before_or_equal_exists	1
    // equal?	1
    // is_included	n/a
    // fits?	0
    // next?    0
    //     DONE

    let mut range_set_blaze = RangeSetBlaze::from_iter(vec![(10, 14), (16, 16)]);
    range_set_blaze.internal_add((10, 19));
    assert_eq!(range_set_blaze.to_string(), "10..=19");
    assert_eq!(range_set_blaze.len_slow(), range_set_blaze.len());
}

#[test]
fn demo_b1() {
    // before_or_equal_exists	1
    // equal?	0
    // is_included	1
    // fits?	0
    // next?    0
    //     DONE

    let mut range_set_blaze = RangeSetBlaze::from_iter(vec![(10, 14)]);
    range_set_blaze.internal_add((12, 17));
    assert_eq!(range_set_blaze.to_string(), "10..=17");
    assert_eq!(range_set_blaze.len_slow(), range_set_blaze.len());
}

#[test]
fn demo_b2() {
    // before_or_equal_exists	1
    // equal?	0
    // is_included	1
    // fits?	0
    // next?    1
    // delete how many? 1
    //     DONE

    let mut range_set_blaze = RangeSetBlaze::from_iter(vec![(10, 14), (16, 16)]);
    range_set_blaze.internal_add((12, 17));
    assert_eq!(range_set_blaze.to_string(), "10..=17");
    assert_eq!(range_set_blaze.len_slow(), range_set_blaze.len());
}

#[test]
fn optimize() {
    let end = 8u8;
    for a in 0..=end {
        for b in 0..=end {
            for c in 0..=end {
                for d in 0..=end {
                    let restart = (a >= 2 && a - 2 >= d) || (c >= 2 && c - 2 >= b);
                    let row = format!("{a}\t{b}\t{c}\t{d}\t");
                    if a > b {
                        println!("{}{}", row, "impossible");
                    } else if c > d {
                        println!("{}{}", row, "error");
                    } else {
                        let mut range_set_blaze = RangeSetBlaze::new();
                        range_set_blaze.internal_add((a, b));
                        range_set_blaze.internal_add((c, d));
                        if range_set_blaze.ranges_len() == 1 {
                            let (first, last) = range_set_blaze.first_and_last().unwrap();
                            println!("{}{}", row, format!("combine\t{}\t{}", first, last));
                            assert!(!restart);
                        } else {
                            println!("{}{}", row, "restart");
                            assert!(restart);
                        }
                    }
                }
            }
        }
    }
}

#[test]
fn lib_coverage_5() {
    let mut v = RangeSetBlaze::<u128>::new();
    v.internal_add((0, u128::MAX));
}
