use dmw3_randomizer::lang::Language;
use dmw3_randomizer::pack::Packed;
use dmw3_randomizer::structs::{Pointer, EXECUTABLE_BASE};
use dmw3_randomizer::text::{content_length, frame_with_name, pad};

#[test]
fn packed_to_bytes_layout() {
    let packed = Packed { files: vec![vec![1, 2, 3], vec![4, 5]] };
    let bytes = packed.to_bytes();
    assert_eq!(bytes, vec![2, 0, 0, 0, 12, 0, 0, 0, 15, 0, 0, 0, 1, 2, 3, 4, 5]);
}

#[test]
fn packed_roundtrip_through_counted_archive() {
    let files = vec![vec![9, 8, 7], vec![], vec![6], vec![5, 4, 3, 2, 1]];
    let packed = Packed { files: files.clone() };
    let back = Packed::from_text(packed.to_bytes());
    assert_eq!(back.files, files);
}

#[test]
fn packed_empty_archive() {
    let packed = Packed { files: vec![] };
    let bytes = packed.to_bytes();
    assert_eq!(bytes, vec![0, 0, 0, 0]);
    assert!(Packed::from_text(bytes).files.is_empty());
    assert_eq!(packed.file_size(), 4);
}

#[test]
fn packed_file_size_counts_header_and_files() {
    let packed = Packed { files: vec![vec![1, 2, 3], vec![4, 5]] };
    assert_eq!(packed.file_size(), 17);
    assert_eq!(packed.file_size(), packed.to_bytes().len());
}

#[test]
fn packed_from_text_decreasing_offsets_give_empty_file() {
    // two offsets, the second below the first: the first file is empty
    let bytes = vec![2, 0, 0, 0, 13, 0, 0, 0, 12, 0, 0, 0, 0xaa, 0xbb];
    let packed = Packed::from_text(bytes);
    assert_eq!(packed.files, vec![vec![], vec![0xaa, 0xbb]]);
}

#[test]
fn packed_from_offset_table() {
    let bytes = vec![8, 0, 0, 0, 12, 0, 0, 0, 14, 0, 0, 0, 1, 2, 3, 4];
    let packed = Packed::from_offset_table(bytes);
    assert_eq!(packed.files, vec![vec![1, 2], vec![3, 4]]);
}

#[test]
fn packed_from_offset_table_zero_first_word() {
    let packed = Packed::from_offset_table(vec![0, 0, 0, 0, 7, 7]);
    assert!(packed.files.is_empty());
}

#[test]
fn content_length_cuts_trailing_zeros() {
    assert_eq!(content_length(&[1, 2, 0, 0]), 2);
    assert_eq!(content_length(&[0, 0, 0]), 0);
    assert_eq!(content_length(&[0, 5]), 2);
    assert_eq!(content_length(&[]), 0);
}

#[test]
fn pad_to_multiple_of_four() {
    assert_eq!(pad(vec![1, 2, 3]), vec![1, 2, 3, 0]);
    assert_eq!(pad(vec![1, 2, 3, 4]), vec![1, 2, 3, 4, 0, 0, 0, 0]);
    assert_eq!(pad(vec![]), vec![0, 0, 0, 0]);
    assert_eq!(pad(vec![7]), vec![7, 0, 0, 0]);
}

#[test]
fn frame_with_name_trims_and_pads() {
    let r = frame_with_name(&[10, 11], &[20, 21, 0, 0], &[30]);
    assert_eq!(r, vec![10, 11, 20, 21, 30, 0, 0, 0]);
    assert_eq!(r.len() % 4, 0);
}

#[test]
fn language_folders_and_paths() {
    assert_eq!(Language::Japanese.to_folder(), "JPN");
    assert_eq!(Language::US.to_folder(), "USA");
    assert_eq!(Language::Spanish.to_folder(), "SPN");
    assert_eq!(Language::German.to_file_name("STAGE.BIN"), "DSTAGE.BIN");
    assert_eq!(Language::Japanese.to_file_name("X"), "MX");
    assert_eq!(Language::French.to_path("MSG.BIN"), "AAA/DAT/COUNTRY/FRA/FMSG.BIN");
    assert_eq!(Language::English.to_path("A"), "AAA/DAT/COUNTRY/ENG/EA");
}

#[test]
fn language_received_item_texts() {
    let (prefix, suffix) = Language::US.received_item_text();
    assert_eq!(prefix, "[name][player_name][name]Yeah! I got\na ");
    assert_eq!(suffix, "![pause]");
    let (_, spanish_suffix) = Language::Spanish.received_item_text();
    assert_eq!(spanish_suffix, "[pause]");
}

#[test]
fn language_to_received_item_frames_name() {
    let r = Language::US.to_received_item(vec![5, 6, 0], &[1], &[2, 3]);
    assert_eq!(r, vec![1, 5, 6, 2, 3, 0, 0, 0]);
}

#[test]
fn pointer_indices() {
    let p = Pointer { value: 0x8001_0000 };
    assert_eq!(p.to_index(), 0x8001_0000 - EXECUTABLE_BASE);
    assert_eq!(p.to_index(), 0x800);
    assert_eq!(p.to_index_overlay(0x8000_0000), 0x1_0000);
    assert_eq!(Pointer::from_slice(&[0x78, 0x56, 0x34, 0x12, 0xff]).value, 0x1234_5678);
}
