use eyros::branch::Data;
use eyros::fields::{decode, locations_ascending, read_words, write_words, DecodeError, Fields};

fn sample() -> Fields {
    Fields {
        max_data_size: 9,
        branching_factor: 3,
        order: vec![1, 0, 2],
        bbox_cache_size: 10_000,
        data_list_cache_size: 16_000,
        levels: vec![(0x0102_0304_0506_0708, 7), (64, 0)],
        tombstones: vec![(0, 0x1_0000_0005), (2, 1), (2, 2)],
    }
}

fn sample_record() -> Vec<u8> {
    let mut bytes: Vec<u8> = vec![];
    bytes.extend([9, 0, 0, 0]);
    bytes.extend([3, 0, 0, 0]);
    bytes.extend([1, 0, 0, 0, 0, 0, 0, 0, 2, 0, 0, 0]);
    bytes.extend([0x10, 0x27, 0, 0]);
    bytes.extend([0x80, 0x3e, 0, 0]);
    bytes.extend([2, 0, 0, 0]);
    bytes.extend([8, 7, 6, 5, 4, 3, 2, 1, 7, 0, 0, 0]);
    bytes.extend([64, 0, 0, 0, 0, 0, 0, 0, 0, 0, 0, 0]);
    bytes.extend([3, 0, 0, 0]);
    bytes.extend([0, 0, 0, 0, 5, 0, 0, 0, 1, 0, 0, 0]);
    bytes.extend([2, 0, 0, 0, 1, 0, 0, 0, 0, 0, 0, 0]);
    bytes.extend([2, 0, 0, 0, 2, 0, 0, 0, 0, 0, 0, 0]);
    bytes
}

fn same(a: &Fields, b: &Fields) -> bool {
    a.max_data_size == b.max_data_size
        && a.branching_factor == b.branching_factor
        && a.order == b.order
        && a.bbox_cache_size == b.bbox_cache_size
        && a.data_list_cache_size == b.data_list_cache_size
        && a.levels == b.levels
        && a.tombstones == b.tombstones
}

#[test]
fn fields_record_lists_the_fields_in_words() {
    let fields = sample();
    assert!(fields.is_valid());
    assert_eq!(fields.encode(), sample_record());
}

#[test]
fn fields_are_read_back_from_their_record() {
    let fields = sample();
    let read = decode(&fields.encode()).unwrap();
    assert!(same(&read, &fields));
    assert!(read.is_valid());
    let again = decode(&read.encode()).unwrap();
    assert!(same(&again, &fields));
    assert_eq!(again.encode(), sample_record());
}

#[test]
fn the_least_fields_have_six_words() {
    let fields = Fields {
        max_data_size: 0,
        branching_factor: 0,
        order: vec![],
        bbox_cache_size: 0,
        data_list_cache_size: 0,
        levels: vec![],
        tombstones: vec![],
    };
    assert!(fields.is_valid());
    assert_eq!(fields.encode(), vec![0u8; 24]);
    assert!(same(&decode(&vec![0u8; 24]).unwrap(), &fields));
}

#[test]
fn decode_refuses_what_is_no_record() {
    let whole = sample_record();
    assert!(decode(&whole).is_ok());
    for cut in 0..whole.len() {
        let part: Vec<u8> = whole[..cut].to_vec();
        assert_eq!(decode(&part).err(), Some(DecodeError::Corruption));
    }
    let mut longer = whole.clone();
    longer.extend([0, 0, 0, 0]);
    assert_eq!(decode(&longer).err(), Some(DecodeError::Corruption));
    let mut odd = whole.clone();
    odd.push(0);
    assert_eq!(decode(&odd).err(), Some(DecodeError::Corruption));
    let mut repeated = whole.clone();
    repeated[8] = 0;
    assert_eq!(decode(&repeated).err(), Some(DecodeError::Corruption));
    let mut beyond = whole.clone();
    beyond[16] = 3;
    assert_eq!(decode(&beyond).err(), Some(DecodeError::Corruption));
    let mut unsorted = whole.clone();
    unsorted[whole.len() - 8] = 1;
    assert_eq!(decode(&unsorted).err(), Some(DecodeError::Corruption));
    let mut many_levels = whole.clone();
    many_levels[28] = 200;
    assert_eq!(decode(&many_levels).err(), Some(DecodeError::Corruption));
    let mut wide = whole.clone();
    wide[7] = 0xff;
    assert_eq!(decode(&wide).err(), Some(DecodeError::Corruption));
}

#[test]
fn is_valid_tells_what_can_be_written() {
    let mut fields = sample();
    fields.branching_factor = 4;
    assert!(!fields.is_valid());
    let mut fields = sample();
    fields.order = vec![0, 0, 2];
    assert!(!fields.is_valid());
    let mut fields = sample();
    fields.tombstones = vec![(2, 1), (2, 1)];
    assert!(!fields.is_valid());
    let mut fields = sample();
    fields.tombstones = vec![(3, 0), (2, 9)];
    assert!(!fields.is_valid());
    let mut fields = sample();
    fields.tombstones = vec![];
    fields.levels = vec![];
    assert!(fields.is_valid());
}

#[test]
fn locations_ascend_by_store_then_offset() {
    assert!(locations_ascending(&vec![]));
    assert!(locations_ascending(&vec![(5, 5)]));
    assert!(locations_ascending(&vec![(0, 9), (1, 0), (1, 1)]));
    assert!(!locations_ascending(&vec![(0, 9), (0, 9)]));
    assert!(!locations_ascending(&vec![(1, 0), (0, 9)]));
    assert!(!locations_ascending(&vec![(0, 1), (0, 2), (0, 2)]));
}

#[test]
fn words_are_four_bytes_each() {
    let words: Vec<u32> = vec![1, 0x0a0b_0c0d, u32::MAX];
    let bytes = write_words(&words);
    assert_eq!(
        bytes,
        vec![1, 0, 0, 0, 0x0d, 0x0c, 0x0b, 0x0a, 0xff, 0xff, 0xff, 0xff]
    );
    assert_eq!(read_words(&bytes), Some(words));
    assert_eq!(read_words(&vec![]), Some(vec![]));
    assert_eq!(read_words(&vec![1, 2, 3]), None);
    assert_eq!(read_words(&vec![1, 2, 3, 4, 5]), None);
}

#[test]
fn a_payload_of_bytes_is_written_behind_its_length() {
    let owned: Vec<((u8, u8), Vec<u8>)> = vec![((1, 2), vec![0xaa, 0xbb, 0xcc]), ((3, 4), vec![])];
    let rows: Vec<&((u8, u8), Vec<u8>)> = owned.iter().collect();
    let leaf = Data::new(vec![0, 1], &rows);
    let mut expected: Vec<u8> = vec![1, 2, 0, 0, 0];
    expected.extend([1, 2, 3, 0, 0, 0, 0, 0, 0, 0, 0xaa, 0xbb, 0xcc]);
    expected.extend([3, 4, 0, 0, 0, 0, 0, 0, 0, 0]);
    assert_eq!(leaf.data(), expected);
}

#[test]
fn delete_keeps_the_deleted_locations_in_order() {
    let mut fields = sample();
    assert!(fields.delete((1, 7)));
    assert!(fields.delete((0, 0)));
    assert!(fields.delete((9, 9)));
    assert!(fields.delete((2, 1)));
    assert!(fields.delete((2, 0x1_0000_0000)));
    assert_eq!(
        fields.tombstones,
        vec![
            (0, 0),
            (0, 0x1_0000_0005),
            (1, 7),
            (2, 1),
            (2, 2),
            (2, 0x1_0000_0000),
            (9, 9)
        ]
    );
    assert!(fields.is_valid());
    assert_eq!(fields.max_data_size, 9);
    assert_eq!(fields.order, vec![1, 0, 2]);
    assert_eq!(fields.levels.len(), 2);
    let read = decode(&fields.encode()).unwrap();
    assert_eq!(read.tombstones, fields.tombstones);
}

#[test]
fn deleted_rows_leave_the_results() {
    let mut fields = sample();
    fields.tombstones = vec![];
    let found: Vec<eyros::query::Location> = vec![(0, 10), (0, 20), (1, 10), (0, 30)];
    assert_eq!(
        eyros::query::drop_deleted(&found, &fields.tombstones),
        vec![0, 1, 2, 3]
    );
    assert!(fields.delete((1, 10)));
    assert!(fields.delete((0, 10)));
    assert!(fields.delete((5, 5)));
    assert!(fields.delete((1, 10)));
    assert_eq!(fields.tombstones, vec![(0, 10), (1, 10), (5, 5)]);
    assert_eq!(
        eyros::query::drop_deleted(&found, &fields.tombstones),
        vec![1, 3]
    );
}
