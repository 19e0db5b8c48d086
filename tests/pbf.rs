use page_bloom_filter::pbf::{
    new_pbf, new_sized_pbf, recover_pbf, BloomFilter, PageBloomFilter, PbfError,
};

fn key(i: u64) -> [u8; 8] {
    i.to_le_bytes()
}

#[test]
fn test_operate() {
    let doit = |way: u8| {
        let mut bf = new_pbf(way, 7, 3).unwrap();
        for i in 0..200 {
            assert!(bf.set(&(i as u64).to_le_bytes()));
        }
        for i in 0..200 {
            assert!(bf.test(&(i as u64).to_le_bytes()));
        }
        for i in 200..400 {
            assert!(!bf.test(&(i as u64).to_le_bytes()));
        }
    };
    for i in 4..9 {
        doit(i as u8);
    }
}

#[test]
fn sized_geometry_for_500_items_at_one_percent() {
    // The float front end: bits of selectivity, bytes per item, probe count.
    let rate: f32 = 0.01;
    let w = -f32::log2(rate);
    let ln2 = f32::ln(2.0_f32);
    let mut bpi = (w / (ln2 * 8.0)) as f64;
    if w > 8.0 {
        bpi *= 1.025;
    } else if w > 4.0 {
        bpi *= 1.01;
    }
    let way_hint = f32::round(w) as u8;
    let budget = bpi * 500.0;
    let total = budget as usize;
    assert_eq!(way_hint, 7);
    assert_eq!(total, 605);
    assert!(budget > total as f64);

    let bf = new_sized_pbf(way_hint, total, true).unwrap();
    assert!(bf.valid());
    assert_eq!(bf.get_way(), 7);
    assert_eq!(bf.get_page_level(), 8);
    assert_eq!(bf.get_page_num(), 3);
    assert_eq!(bf.get_data().len(), 768);
}

#[test]
fn sized_clamps_way_and_raises_level_to_floor() {
    let bf = new_sized_pbf(2, 100, false).unwrap();
    assert_eq!(bf.get_way(), 4);
    assert_eq!(bf.get_page_level(), 6);
    assert_eq!(bf.get_page_num(), 2);

    let bf = new_sized_pbf(8, 10, false).unwrap();
    assert_eq!(bf.get_way(), 8);
    assert_eq!(bf.get_page_level(), 7);
    assert_eq!(bf.get_page_num(), 1);

    let bf = new_sized_pbf(12, 100_000, false).unwrap();
    assert_eq!(bf.get_way(), 8);
    assert_eq!(bf.get_page_level(), 12);
    assert_eq!(bf.get_page_num(), 25);
}

#[test]
fn sized_errors() {
    assert_eq!(new_sized_pbf(7, usize::MAX, false).err(), Some(PbfError::TooLarge));
    assert_eq!(new_sized_pbf(7, usize::MAX, true).err(), Some(PbfError::TooLarge));
    // A budget under one byte still gets a page.
    let bf = new_sized_pbf(7, 0, false).unwrap();
    assert_eq!(bf.get_page_level(), 7);
    assert_eq!(bf.get_page_num(), 1);
}

#[test]
fn sized_one_item_at_ten_percent() {
    let rate: f32 = 0.1;
    let w = -f32::log2(rate);
    let bpi = (w / (f32::ln(2.0_f32) * 8.0)) as f64;
    let budget = bpi * 1.0;
    let total = budget as usize;
    assert_eq!(total, 0);
    assert!(budget > 0.0);
    let bf = new_sized_pbf(f32::round(w) as u8, total, budget > total as f64).unwrap();
    assert_eq!(bf.get_way(), 4);
    assert_eq!(bf.get_page_level(), 6);
    assert_eq!(bf.get_page_num(), 1);
    assert_eq!(bf.get_data().len(), 64);
}

#[test]
fn sized_fraction_adds_a_page_past_a_page_boundary() {
    // 212 items at 1% is a budget of about 256.5 bytes: three pages of 128, not two.
    let rate: f32 = 0.01;
    let w = -f32::log2(rate);
    let bpi = (w / (f32::ln(2.0_f32) * 8.0)) as f64 * 1.01;
    let budget = bpi * 212.0;
    let total = budget as usize;
    assert_eq!(total, 256);
    let bf = new_sized_pbf(f32::round(w) as u8, total, budget > total as f64).unwrap();
    assert_eq!(bf.get_page_level(), 7);
    assert_eq!(bf.get_page_num(), 3);
    assert!(bf.get_data().len() as f64 >= budget);

    let exact = new_sized_pbf(7, 256, false).unwrap();
    assert_eq!(exact.get_page_num(), 2);
}

#[test]
fn set_on_cleared_filter_counts() {
    let mut bf = new_pbf(5, 7, 2).unwrap();
    assert!(bf.set(b"first"));
    bf.clear();
    assert!(bf.set(b"second"));
    assert_eq!(bf.get_unique_cnt(), 2);
    let mut again = recover_pbf(5, 7, &vec![0u8; 256], 9).unwrap();
    assert!(again.set(b"third"));
    assert_eq!(again.get_unique_cnt(), 10);
}

#[test]
fn new_rejects_bad_geometry() {
    assert_eq!(new_pbf(3, 8, 1).err(), Some(PbfError::Config));
    assert_eq!(new_pbf(9, 8, 1).err(), Some(PbfError::Config));
    assert_eq!(new_pbf(8, 6, 1).err(), Some(PbfError::Config));
    assert_eq!(new_pbf(5, 6, 1).err(), Some(PbfError::Config));
    assert_eq!(new_pbf(4, 5, 1).err(), Some(PbfError::Config));
    assert_eq!(new_pbf(4, 14, 1).err(), Some(PbfError::Config));
    assert_eq!(new_pbf(4, 8, 0).err(), Some(PbfError::Config));
    assert_eq!(PageBloomFilter::new(9, 8, 1).err(), Some(PbfError::Config));
}

#[test]
fn new_accepts_floor_levels() {
    let bf = new_pbf(4, 6, 2).unwrap();
    assert_eq!(bf.get_data().len(), 128);
    assert!(bf.get_data().iter().all(|&b| b == 0));
    assert_eq!(bf.get_unique_cnt(), 0);
    let bf = new_pbf(8, 13, 1).unwrap();
    assert_eq!(bf.get_data().len(), 8192);
}

#[test]
fn set_twice_accounting() {
    let mut bf = new_pbf(6, 8, 4).unwrap();
    assert!(bf.set(b"alpha"));
    assert_eq!(bf.get_unique_cnt(), 1);
    let before = bf.get_data().clone();
    assert!(!bf.set(b"alpha"));
    assert_eq!(bf.get_unique_cnt(), 1);
    assert_eq!(bf.get_data(), &before);
}

#[test]
fn one_key_touches_one_page() {
    let mut bf = new_pbf(8, 7, 16).unwrap();
    bf.set(b"a single key");
    let data = bf.get_data();
    let ones: u32 = data.iter().map(|b| b.count_ones()).sum();
    assert!(ones >= 1 && ones <= 8);
    let pages: Vec<usize> = (0..16).filter(|p| data[p * 128..(p + 1) * 128].iter().any(|&b| b != 0)).collect();
    assert_eq!(pages.len(), 1);
}

#[test]
fn no_false_negatives() {
    let mut bf = new_pbf(5, 7, 8).unwrap();
    for i in 0..2000u64 {
        bf.set(&key(i * 3));
        assert!(bf.test(&key(i * 3)));
    }
    for i in 0..2000u64 {
        assert!(bf.test(&key(i * 3)));
    }
}

#[test]
fn false_positive_rate_near_target() {
    let n: usize = 10_000;
    let rate: f32 = 0.01;
    let w = -f32::log2(rate);
    let bpi = (w / (f32::ln(2.0_f32) * 8.0)) as f64 * 1.01;
    let budget = bpi * n as f64;
    let total = budget as usize;
    let mut bf = new_sized_pbf(f32::round(w) as u8, total, budget > total as f64).unwrap();
    for i in 0..n as u64 {
        bf.set(&key(i));
    }
    let m: u64 = 100_000;
    let mut positives: u64 = 0;
    for i in 0..m {
        if bf.test(&key(1_000_000 + i)) {
            positives += 1;
        }
    }
    let observed = positives as f64 / m as f64;
    assert!(observed < 0.02, "observed rate {}", observed);
}

#[test]
fn recover_round_trip() {
    let mut bf = new_pbf(7, 8, 5).unwrap();
    for i in 0..300u64 {
        bf.set(&key(i));
    }
    let copy = recover_pbf(7, 8, bf.get_data(), bf.get_unique_cnt()).unwrap();
    assert_eq!(copy.get_way(), 7);
    assert_eq!(copy.get_page_level(), 8);
    assert_eq!(copy.get_page_num(), 5);
    assert_eq!(copy.get_unique_cnt(), bf.get_unique_cnt());
    assert_eq!(copy.get_data(), bf.get_data());
    for i in 0..2000u64 {
        assert_eq!(copy.test(&key(i)), bf.test(&key(i)));
    }
    let again = PageBloomFilter::recover(7, 8, bf.get_data(), 42).unwrap();
    assert_eq!(again.get_unique_cnt(), 42);
}

#[test]
fn recover_rejects_bad_input() {
    let data = vec![0u8; 512];
    assert_eq!(recover_pbf(3, 8, &data, 0).err(), Some(PbfError::Config));
    assert_eq!(recover_pbf(8, 6, &data, 0).err(), Some(PbfError::Config));
    assert_eq!(recover_pbf(4, 8, &Vec::new(), 0).err(), Some(PbfError::BadData));
    assert_eq!(recover_pbf(4, 8, &vec![0u8; 300], 0).err(), Some(PbfError::BadData));
    let ok = recover_pbf(4, 7, &data, 0).unwrap();
    assert_eq!(ok.get_page_num(), 4);
}

#[test]
fn clear_zeroes_buffer_and_keeps_count() {
    let mut bf = new_pbf(4, 7, 2).unwrap();
    for i in 0..20u64 {
        bf.set(&key(i));
    }
    let cnt = bf.get_unique_cnt();
    assert!(cnt > 0);
    bf.clear();
    assert!(bf.get_data().iter().all(|&b| b == 0));
    assert_eq!(bf.get_unique_cnt(), cnt);
    assert!(!bf.test(&key(0)));
    assert!(bf.valid());
}
