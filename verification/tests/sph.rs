use hydrocode::sph::{
    sort_spatial_lookup, spatial_from_bytes, spatial_from_words, spatial_to_bytes,
    spatial_to_words, start_indices_from_bytes, start_indices_to_bytes, SpatialLookup,
};

fn entry(index: u32, key: u32) -> SpatialLookup {
    SpatialLookup { index, key }
}

#[test]
fn sort_orders_by_key_and_keeps_equal_keys_in_order() {
    let mut spatial = vec![entry(0, 3), entry(1, 1), entry(2, 3), entry(3, 0), entry(4, 1)];
    let mut start = vec![9, 9, 9, 9, 9];
    sort_spatial_lookup(&mut spatial, &mut start);
    assert_eq!(
        spatial,
        vec![entry(3, 0), entry(1, 1), entry(4, 1), entry(0, 3), entry(2, 3)]
    );
    // Keys 0, 1, 3 start at 0, 1, 3; key 2 and 4 do not occur and keep 9.
    assert_eq!(start, vec![0, 1, 9, 3, 9]);
}

#[test]
fn sort_of_sorted_hash_changes_nothing() {
    let sorted = vec![entry(5, 0), entry(2, 0), entry(7, 2), entry(1, 4)];
    let mut spatial = sorted.clone();
    let mut start = vec![100; 5];
    sort_spatial_lookup(&mut spatial, &mut start);
    assert_eq!(spatial, sorted);
    assert_eq!(start, vec![0, 100, 2, 100, 3]);
}

#[test]
fn sort_single_entry() {
    let mut spatial = vec![entry(0, 2)];
    let mut start = vec![5, 5, 5];
    sort_spatial_lookup(&mut spatial, &mut start);
    assert_eq!(spatial, vec![entry(0, 2)]);
    assert_eq!(start, vec![5, 5, 0]);
}

#[test]
fn every_entry_is_found_from_its_start_index() {
    let n = 200u32;
    let mut spatial: Vec<SpatialLookup> = (0..n).map(|i| entry(i, (i * 37 + 11) % 50)).collect();
    let input = spatial.clone();
    let mut start = vec![u32::MAX; n as usize];
    sort_spatial_lookup(&mut spatial, &mut start);
    for e in &input {
        let mut p = start[e.key as usize] as usize;
        let mut found = false;
        while p < spatial.len() && spatial[p].key == e.key {
            if spatial[p] == *e {
                found = true;
            }
            p += 1;
        }
        assert!(found);
    }
    for w in spatial.windows(2) {
        assert!(w[0].key <= w[1].key);
        if w[0].key == w[1].key {
            assert!(w[0].index < w[1].index);
        }
    }
}

#[test]
fn spatial_words_layout_and_roundtrip() {
    let spatial = vec![entry(4, 9), entry(1, 2)];
    let words = spatial_to_words(&spatial);
    assert_eq!(words, vec![4, 9, 1, 2]);
    assert_eq!(spatial_from_words(&words), spatial);
    assert_eq!(spatial_from_words(&vec![]), vec![]);
}

#[test]
fn spatial_bytes_roundtrip() {
    let spatial = vec![entry(4, 9), entry(70000, 2), entry(u32::MAX, 0)];
    let bytes = spatial_to_bytes(&spatial);
    assert_eq!(bytes.len(), 24);
    assert_eq!(&bytes[0..4], &4u32.to_ne_bytes());
    assert_eq!(&bytes[4..8], &9u32.to_ne_bytes());
    let back = spatial_from_bytes(&bytes).expect("aligned buffer");
    assert_eq!(back, spatial);
}

#[test]
fn start_indices_bytes_roundtrip() {
    let start = vec![0u32, 17, 3, 65536];
    let bytes = start_indices_to_bytes(&start);
    assert_eq!(bytes.len(), 16);
    assert_eq!(&bytes[4..8], &17u32.to_ne_bytes());
    assert_eq!(start_indices_from_bytes(&bytes), Some(start));
}
