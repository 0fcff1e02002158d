use keyvi::dictionary::{normalize_phrase_bytes, Dictionary};
use keyvi::distance::distance;
use keyvi::index::{build_index, BuildError, OpenError};
use keyvi::order::bytes_eq;
use keyvi::results::{Match, MatchIterator};
use keyvi::strategy::{LoadingStrategyTypes, RegionLoad};

#[test]
fn build_index_writes_the_documented_layout() {
    let keys: Vec<Vec<u8>> = vec![b"ab".to_vec()];
    let values: Vec<Vec<u8>> = vec![b"xyz".to_vec()];
    let image = build_index(&keys, &values).unwrap();
    let expected: Vec<u8> = vec![
        107, 118, 100, 105, // magic "kvdi"
        1, // format version
        1, 0, 0, 0, // entry count
        2, 0, 0, 0, // key length
        97, 98, // "ab"
        3, 0, 0, 0, // value length
        120, 121, 122, // "xyz"
    ];
    assert_eq!(image, expected);
}

#[test]
fn build_index_rejects_mismatched_counts() {
    let keys: Vec<Vec<u8>> = vec![b"a".to_vec()];
    let values: Vec<Vec<u8>> = Vec::new();
    assert_eq!(build_index(&keys, &values).unwrap_err(), BuildError::MismatchedCounts);
}

#[test]
fn build_index_rejects_unsorted_keys() {
    let keys: Vec<Vec<u8>> = vec![b"cat".to_vec(), b"car".to_vec()];
    let values: Vec<Vec<u8>> = vec![b"1".to_vec(), b"2".to_vec()];
    assert_eq!(build_index(&keys, &values).unwrap_err(), BuildError::KeysOutOfOrder);
}

#[test]
fn build_index_rejects_duplicate_keys() {
    let keys: Vec<Vec<u8>> = vec![b"cat".to_vec(), b"cat".to_vec()];
    let values: Vec<Vec<u8>> = vec![b"1".to_vec(), b"2".to_vec()];
    assert_eq!(build_index(&keys, &values).unwrap_err(), BuildError::KeysOutOfOrder);
}

#[test]
fn build_index_accepts_empty_index() {
    let image = build_index(&Vec::new(), &Vec::new()).unwrap();
    let d = Dictionary::new(image).unwrap();
    assert_eq!(d.size(), 0);
    assert!(d.get(&b"a".to_vec()).is_empty());
    assert!(d.get_all_items().is_exhausted());
}

#[test]
fn open_rejects_short_image() {
    assert_eq!(Dictionary::new(Vec::new()).unwrap_err(), OpenError::CorruptFormat);
    assert_eq!(Dictionary::new(vec![107, 118]).unwrap_err(), OpenError::CorruptFormat);
}

#[test]
fn open_rejects_bad_magic() {
    let mut image = build_index(&Vec::new(), &Vec::new()).unwrap();
    image[0] = 75;
    assert_eq!(Dictionary::new(image).unwrap_err(), OpenError::CorruptFormat);
}

#[test]
fn open_rejects_unknown_version() {
    let mut image = build_index(&Vec::new(), &Vec::new()).unwrap();
    image[4] = 2;
    assert_eq!(Dictionary::new(image).unwrap_err(), OpenError::VersionMismatch);
}

#[test]
fn open_rejects_unsorted_image() {
    // A hand-built image whose two entries are out of order.
    let mut image: Vec<u8> = vec![107, 118, 100, 105, 1, 2, 0, 0, 0];
    for key in [b"b", b"a"] {
        image.extend_from_slice(&[1, 0, 0, 0]);
        image.extend_from_slice(key);
        image.extend_from_slice(&[0, 0, 0, 0]);
    }
    assert_eq!(Dictionary::new(image).unwrap_err(), OpenError::CorruptFormat);
}

#[test]
fn open_rejects_overlong_length_field() {
    // One entry whose key length field runs past the end of the image.
    let image: Vec<u8> = vec![107, 118, 100, 105, 1, 1, 0, 0, 0, 255, 0, 0, 0, 97];
    assert_eq!(Dictionary::new(image).unwrap_err(), OpenError::CorruptFormat);
}

#[test]
fn distance_matches_known_values() {
    assert_eq!(distance(&b"cot".to_vec(), &b"cat".to_vec()), 1);
    assert_eq!(distance(&b"cot".to_vec(), &b"car".to_vec()), 2);
    assert_eq!(distance(&b"cot".to_vec(), &b"dog".to_vec()), 2);
    assert_eq!(distance(&b"kitten".to_vec(), &b"sitting".to_vec()), 3);
    assert_eq!(distance(&Vec::new(), &b"abc".to_vec()), 3);
    assert_eq!(distance(&b"abc".to_vec(), &Vec::new()), 3);
    assert_eq!(distance(&Vec::new(), &Vec::new()), 0);
    assert_eq!(distance(&b"same".to_vec(), &b"same".to_vec()), 0);
}

#[test]
fn normalize_phrase_collapses_and_trims() {
    assert_eq!(normalize_phrase_bytes(&b"  a  b ".to_vec()), b"a b ".to_vec());
    assert_eq!(normalize_phrase_bytes(&b"\t\na\r\nb".to_vec()), b"a b".to_vec());
    assert_eq!(normalize_phrase_bytes(&b"plain".to_vec()), b"plain".to_vec());
    assert_eq!(normalize_phrase_bytes(&Vec::new()), Vec::<u8>::new());
    assert_eq!(normalize_phrase_bytes(&b"   ".to_vec()), Vec::<u8>::new());
}

#[test]
fn strategies_map_to_documented_region_behaviour() {
    let table = [
        (LoadingStrategyTypes::DEFAULT_OS, RegionLoad::OsDefault, RegionLoad::OsDefault),
        (LoadingStrategyTypes::LAZY, RegionLoad::OnDemandReadahead, RegionLoad::OnDemandReadahead),
        (LoadingStrategyTypes::POPULATE, RegionLoad::Eager, RegionLoad::Eager),
        (LoadingStrategyTypes::POPULATE_KEY_PART, RegionLoad::Eager, RegionLoad::OnDemandReadahead),
        (
            LoadingStrategyTypes::POPULATE_LAZY,
            RegionLoad::OnDemandHinted,
            RegionLoad::OnDemandHinted,
        ),
        (
            LoadingStrategyTypes::LAZY_NO_READAHEAD,
            RegionLoad::OnDemandNoReadahead,
            RegionLoad::OnDemandNoReadahead,
        ),
        (
            LoadingStrategyTypes::LAZY_NO_READAHEAD_VALUE_PART,
            RegionLoad::OnDemandReadahead,
            RegionLoad::OnDemandNoReadahead,
        ),
        (
            LoadingStrategyTypes::POPULATE_KEY_PART_NO_READAHEAD_VALUE_PART,
            RegionLoad::Eager,
            RegionLoad::OnDemandNoReadahead,
        ),
    ];
    for (strategy, key_region, value_region) in table {
        assert_eq!(strategy.key_region(), key_region);
        assert_eq!(strategy.value_region(), value_region);
    }
}

#[test]
fn byte_equality_compares_contents() {
    assert!(bytes_eq(&b"cat".to_vec(), &b"cat".to_vec()));
    assert!(!bytes_eq(&b"cat".to_vec(), &b"car".to_vec()));
    assert!(!bytes_eq(&b"cat".to_vec(), &b"cats".to_vec()));
    assert!(bytes_eq(&Vec::new(), &Vec::new()));
}

#[test]
fn empty_match_is_the_sentinel() {
    let m = Match::empty();
    assert!(m.is_empty());
    assert_eq!(m.matched_key().len(), 0);
    assert_eq!(m.value_bytes().len(), 0);
    assert_eq!(m.get_score(), 0);
}

#[test]
fn fresh_iterator_over_no_items_is_exhausted() {
    let it = MatchIterator::over(Vec::new());
    assert!(it.is_exhausted());
    assert_eq!(it.remaining(), 0);
}
