use kate::data_lookup::DataLookup;

#[test]
fn construct_indexes_application_starts() {
    let xts = vec![(0u32, 10u32), (1, 5), (1, 3), (2, 7), (5, 1)];
    let lookup = DataLookup::construct(&xts);
    assert_eq!(lookup.size, 26);
    assert_eq!(lookup.index, vec![(1, 10), (2, 18), (5, 25)]);
}

#[test]
fn construct_empty_and_system_only() {
    assert_eq!(DataLookup::construct(&vec![]), DataLookup::default());
    let lookup = DataLookup::construct(&vec![(0, 4), (0, 6)]);
    assert_eq!(lookup.size, 10);
    assert!(lookup.index.is_empty());
}

#[test]
fn construct_sorted_input_gives_increasing_keys() {
    let xts = vec![(1u32, 1u32), (1, 1), (2, 2), (3, 3), (3, 0), (7, 4)];
    let lookup = DataLookup::construct(&xts);
    for w in lookup.index.windows(2) {
        assert!(w[0].0 < w[1].0);
    }
    assert_eq!(lookup.index, vec![(1, 0), (2, 2), (3, 4), (7, 7)]);
}

#[test]
fn construct_unsorted_input_repeats_keys() {
    let lookup = DataLookup::construct(&vec![(1, 2), (2, 3), (1, 4)]);
    assert_eq!(lookup.index, vec![(1, 0), (2, 2), (1, 5)]);
    assert_eq!(lookup.size, 9);
}
