use post_compile_include::{
    generate_included_data, get_all_data_sections, get_data_section_by_key, get_weird_indices,
    write_to_included_section, DataToWrite,
};

#[test]
fn weird_indices_work1() {
    let mut out: Vec<u8> = vec![];
    generate_included_data(&mut out, 2).expect("Failed to generate included data?");
    let mut data = vec![1, 2, 3];
    data.extend(out);
    data.push(4);
    assert_eq!(data.len(), 2048 + 3 + 1);
    let (weird_start, weird_len) = get_weird_indices(&data).expect("Failed to find weird indices");
    assert_eq!(weird_start, 3);
    assert_eq!(weird_len, 2048);
}

#[test]
fn weird_indices_work2() {
    let mut out: Vec<u8> = vec![];
    generate_included_data(&mut out, 2).expect("Failed to generate included data?");
    let mut data = vec![1, 2, 3];
    data.extend(out);
    assert_eq!(data.len(), 2048 + 3);
    let (weird_start, weird_len) = get_weird_indices(&data).expect("Failed to find weird indices");
    assert_eq!(weird_start, 3);
    assert_eq!(weird_len, 2048);
}

#[test]
fn read_write_works() {
    let mut out: Vec<u8> = vec![];
    generate_included_data(&mut out, 2).expect("Failed to generate included data?");
    let mut data = vec![1, 2, 3];
    data.extend(out);
    data.push(4);
    let expected_data = vec![100, 101, 102, 103, 104, 105];
    let write_items = vec![
        DataToWrite { key: "hello".to_string(), data: expected_data.clone() }
    ];
    write_to_included_section(&mut data, write_items).expect("Failed to write to included section");
    let actual_data = data.get(3..2048 + 3).expect("Failed to get actual data section");
    let got_data = get_data_section_by_key("hello", &actual_data[..]).expect("Failed to get hello key from included data");
    assert_eq!(got_data, expected_data);
}

#[test]
fn read_write_works2() {
    let mut out: Vec<u8> = vec![];
    generate_included_data(&mut out, 2).expect("Failed to generate included data?");
    let mut data = vec![1, 2, 3];
    data.extend(out);
    data.push(4);
    let expected_data1 = vec![100, 101, 102, 103, 104, 105];
    let expected_data2 = vec![200, 201, 202, 203, 204, 205];
    let expected_data3 = vec![33, 34, 35];
    let write_items = vec![
        DataToWrite { key: "hello".to_string(), data: expected_data1.clone() },
        DataToWrite { key: "xyz".to_string(), data: expected_data2.clone() },
        DataToWrite { key: "abc".to_string(), data: expected_data3.clone() },
    ];
    write_to_included_section(&mut data, write_items).expect("Failed to write to included section");
    let actual_data = data.get(3..2048 + 3).expect("Failed to get actual data section");
    let all_data_map = get_all_data_sections(&actual_data[..]).expect("Failed to get all data map");
    let data1 = all_data_map.get("hello").expect("Failed to get hello data section");
    assert_eq!(*data1, expected_data1);
    let data2 = all_data_map.get("xyz").expect("Failed to get xyz data section");
    assert_eq!(*data2, expected_data2);
    let data3 = all_data_map.get("abc").expect("Failed to get abc data section");
    assert_eq!(*data3, expected_data3);
    assert_eq!(all_data_map.len(), 3);
}
