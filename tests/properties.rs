use post_compile_include::{
    generate_included_data, get_all_data_sections, get_data_section_by_key,
    get_data_write_required_len, get_weird_indices, iter_data_section, write_to_included_section,
    DataToWrite, Error,
};

fn blob(key: &str, data: &[u8]) -> DataToWrite {
    DataToWrite { key: key.to_string(), data: data.to_vec() }
}

fn embedded(prefix: &[u8], num_kb: usize, suffix: &[u8]) -> Vec<u8> {
    let mut data = prefix.to_vec();
    generate_included_data(&mut data, num_kb).expect("generate");
    data.extend_from_slice(suffix);
    data
}

#[test]
fn generate_appends_sentinel_chunks() {
    let mut out: Vec<u8> = vec![7];
    assert_eq!(generate_included_data(&mut out, 3), Ok(()));
    assert_eq!(out.len(), 1 + 3 * 1024);
    assert_eq!(out[0], 7);
    assert!(out[1..].iter().all(|b| *b == b'q'));
}

#[test]
fn generate_zero_is_invalid() {
    let mut out: Vec<u8> = vec![1, 2];
    assert_eq!(generate_included_data(&mut out, 0), Err(Error::InvalidSize));
    assert_eq!(out, vec![1, 2]);
}

#[test]
fn single_chunk_placeholder_is_found() {
    let data = embedded(&[9, 8], 1, &[5, 6, 7]);
    assert_eq!(get_weird_indices(&data), Some((2, 1024)));
}

#[test]
fn generated_placeholder_found_for_several_sizes() {
    for n in 1..5usize {
        let data = embedded(&[0, 1, 2, 3, 4], n, &[200]);
        assert_eq!(get_weird_indices(&data), Some((5, n * 1024)));
    }
}

#[test]
fn short_run_is_not_a_placeholder() {
    let mut data = vec![1u8];
    data.extend(std::iter::repeat(b'q').take(1023));
    data.push(2);
    data.extend(std::iter::repeat(b'q').take(1023));
    assert_eq!(get_weird_indices(&data), None);
    assert_eq!(get_weird_indices(&[]), None);
}

#[test]
fn run_of_exactly_minimum_length_is_found() {
    let mut data: Vec<u8> = std::iter::repeat(b'q').take(1024).collect();
    assert_eq!(get_weird_indices(&data), Some((0, 1024)));
    data.push(0);
    assert_eq!(get_weird_indices(&data), Some((0, 1024)));
}

#[test]
fn first_of_two_runs_is_found() {
    let mut data = embedded(&[1], 1, &[2, 3]);
    generate_included_data(&mut data, 3).expect("generate");
    assert_eq!(get_weird_indices(&data), Some((1, 1024)));
}

#[test]
fn required_len_counts_headers() {
    let blobs = vec![blob("hello", &[1, 2, 3]), blob("", &[]), blob("é", &[0; 10])];
    assert_eq!(get_data_write_required_len(&blobs), (6 + 5 + 3) + 6 + (6 + 2 + 10));
    assert_eq!(get_data_write_required_len(&vec![]), 0);
}

#[test]
fn write_lays_out_big_endian_headers() {
    let mut data = embedded(&[1, 2, 3], 2, &[4]);
    write_to_included_section(&mut data, vec![blob("ab", &[9, 8, 7])]).expect("write");
    assert_eq!(&data[0..3], &[1, 2, 3]);
    assert_eq!(&data[3..7], &[0, 0, 0, 1]);
    assert_eq!(&data[7..9], &[0, 2]);
    assert_eq!(&data[9..11], b"ab");
    assert_eq!(&data[11..15], &[0, 0, 0, 3]);
    assert_eq!(&data[15..18], &[9, 8, 7]);
    assert!(data[18..2051].iter().all(|b| *b == b'q'));
    assert_eq!(data[2051], 4);
}

#[test]
fn write_large_lengths_use_all_header_bytes() {
    let key = "k".repeat(300);
    let payload = vec![5u8; 70000];
    let mut data = embedded(&[], 80, &[]);
    write_to_included_section(&mut data, vec![blob(&key, &payload)]).expect("write");
    assert_eq!(&data[0..4], &[0, 0, 0, 1]);
    assert_eq!(&data[4..6], &[1, 44]);
    assert_eq!(&data[306..310], &[0, 1, 17, 112]);
    assert_eq!(get_data_section_by_key(&key, &data), Some(payload));
}

#[test]
fn write_without_placeholder_fails() {
    let mut data = vec![1, 2, 3];
    assert_eq!(
        write_to_included_section(&mut data, vec![blob("a", &[1])]),
        Err(Error::PlaceholderNotFound)
    );
    assert_eq!(data, vec![1, 2, 3]);
}

#[test]
fn write_over_capacity_fails_and_leaves_buffer() {
    let data0 = embedded(&[1], 1, &[2]);
    let mut data = data0.clone();
    let blobs = vec![blob("key", &[0u8; 1012])];
    assert_eq!(
        write_to_included_section(&mut data, blobs),
        Err(Error::CapacityExceeded { required: 1025, available: 1024 })
    );
    assert_eq!(data, data0);
    let fits = vec![blob("key", &[0u8; 1011])];
    assert_eq!(write_to_included_section(&mut data, fits), Ok(()));
}

#[test]
fn round_trip_all_sections() {
    let blobs = vec![blob("one", &[1]), blob("two", &[2, 2]), blob("", &[]), blob("ü", &[3, 3, 3])];
    let mut data = embedded(&[7, 7], 1, &[]);
    write_to_included_section(&mut data, blobs).expect("write");
    let map = get_all_data_sections(&data[2..]).expect("decode");
    assert_eq!(map.len(), 4);
    assert_eq!(map.get("one"), Some(&vec![1]));
    assert_eq!(map.get("two"), Some(&vec![2, 2]));
    assert_eq!(map.get(""), Some(&vec![]));
    assert_eq!(map.get("ü"), Some(&vec![3, 3, 3]));
    assert_eq!(map.get("three"), None);
}

#[test]
fn round_trip_find_by_key() {
    let blobs = vec![blob("a", &[1]), blob("b", &[2]), blob("c", &[3, 4])];
    let mut data = embedded(&[], 1, &[]);
    write_to_included_section(&mut data, blobs).expect("write");
    assert_eq!(get_data_section_by_key("b", &data), Some(vec![2]));
    assert_eq!(get_data_section_by_key("c", &data), Some(vec![3, 4]));
    assert_eq!(get_data_section_by_key("d", &data), None);
}

#[test]
fn duplicate_keys_first_found_last_kept() {
    let blobs = vec![blob("k", &[1]), blob("x", &[0]), blob("k", &[2])];
    let mut data = embedded(&[], 1, &[]);
    write_to_included_section(&mut data, blobs).expect("write");
    assert_eq!(get_data_section_by_key("k", &data), Some(vec![1]));
    let map = get_all_data_sections(&data).expect("decode");
    assert_eq!(map.len(), 2);
    assert_eq!(map.get("k"), Some(&vec![2]));
}

#[test]
fn iter_lists_records_in_order() {
    let data = vec![0, 0, 0, 2, 0, 1, b'a', 0, 0, 0, 1, 9, 0, 1, b'b', 0, 0, 0, 0];
    let records = iter_data_section(&data).expect("decode");
    assert_eq!(records, vec![(0, "a".to_string(), vec![9]), (1, "b".to_string(), vec![])]);
}

#[test]
fn truncated_header_is_an_error() {
    assert_eq!(iter_data_section(&[0, 0, 1]), Err(Error::HeaderReadFailure));
    assert_eq!(get_all_data_sections(&[0, 0, 0, 1, 0]).map(|m| m.len()), Err(Error::HeaderReadFailure));
    assert_eq!(iter_data_section(&[0, 0, 0, 1, 0, 5, b'a']), Err(Error::HeaderReadFailure));
    assert_eq!(iter_data_section(&[0, 0, 0, 1, 0, 1, b'a', 0, 0]), Err(Error::HeaderReadFailure));
    assert_eq!(get_data_section_by_key("a", &[0, 0]), None);
}

#[test]
fn invalid_key_is_an_error() {
    let data = vec![0, 0, 0, 1, 0, 1, 0xff, 0, 0, 0, 0];
    assert_eq!(iter_data_section(&data), Err(Error::InvalidKeyEncoding));
    assert_eq!(get_all_data_sections(&data).map(|m| m.len()), Err(Error::InvalidKeyEncoding));
}

#[test]
fn lookup_stops_before_a_bad_record() {
    let data = vec![0, 0, 0, 2, 0, 1, b'a', 0, 0, 0, 1, 9, 0, 1, 0xff, 0, 0, 0, 0];
    assert_eq!(get_data_section_by_key("a", &data), Some(vec![9]));
    assert_eq!(iter_data_section(&data), Err(Error::InvalidKeyEncoding));
}

#[test]
fn overrunning_payload_is_skipped() {
    let last = vec![0, 0, 0, 1, 0, 1, b'a', 0, 0, 0, 9, 1, 2];
    assert_eq!(iter_data_section(&last), Ok(vec![]));
    assert_eq!(get_data_section_by_key("a", &last), None);
    let more = vec![0, 0, 0, 2, 0, 1, b'a', 0, 0, 0, 9, 1, 2];
    assert_eq!(iter_data_section(&more), Err(Error::HeaderReadFailure));
}

#[test]
fn empty_section_decodes_to_nothing() {
    let map = get_all_data_sections(&[0, 0, 0, 0, 1, 2]).expect("decode");
    assert_eq!(map.len(), 0);
    assert_eq!(get_data_section_by_key("", &[0, 0, 0, 0]), None);
}
