use devondb_storage::checksum::crc32c_append;
use devondb_storage::error::ErrorKind;
use devondb_storage::pack::{
    assemble, pack_pages, PackFile, DIRECTORY_CRC_LEN, DIRECTORY_ENTRY_LEN, HEADER_LEN,
};

const PAGE_SIZE: u32 = 4096;

fn image(pages: usize) -> Vec<u8> {
    (0..pages * PAGE_SIZE as usize)
        .map(|at| (at / 97 % 251) as u8)
        .collect()
}

#[test]
fn packed_pages_read_back() {
    let image = image(5);
    let packed = pack_pages(&image, PAGE_SIZE, 2).unwrap();
    assert!(packed.len() < image.len());
    assert_eq!(&packed[..9], b"DEVONPACK");
    let pack = PackFile::open(packed).unwrap();
    assert_eq!(pack.page_size(), PAGE_SIZE);
    assert_eq!(pack.page_count(), 5);
    assert_eq!(pack.frame_pages(), 2);
    assert_eq!(pack.frame_count(), 3);
    assert_eq!(pack.frame_bytes(), 2 * u64::from(PAGE_SIZE));
    assert_eq!(pack.byte_len(), Some(image.len() as u64));
    let mut read = Vec::new();
    for frame in 0..3 {
        read.extend(pack.read_frame(frame).unwrap());
    }
    assert_eq!(read, image);
    assert_eq!(pack.read_frame(3).unwrap_err().kind(), ErrorKind::Corrupt);
}

#[test]
fn an_empty_image_packs_to_no_frames() {
    let packed = pack_pages(&Vec::new(), PAGE_SIZE, 256).unwrap();
    assert_eq!(packed.len(), HEADER_LEN + DIRECTORY_CRC_LEN);
    let pack = PackFile::open(packed).unwrap();
    assert_eq!(pack.frame_count(), 0);
    assert_eq!(pack.byte_len(), Some(0));
}

#[test]
fn packing_refuses_what_is_not_whole_pages() {
    let part = vec![0_u8; PAGE_SIZE as usize + 1];
    assert_eq!(
        pack_pages(&part, PAGE_SIZE, 4).unwrap_err().kind(),
        ErrorKind::Corrupt
    );
    let whole = vec![0_u8; PAGE_SIZE as usize];
    assert_eq!(
        pack_pages(&whole, PAGE_SIZE, 0).unwrap_err().kind(),
        ErrorKind::InvalidArgument
    );
}

#[test]
fn damaged_containers_are_refused() {
    let packed = pack_pages(&image(4), PAGE_SIZE, 2).unwrap();
    for at in [0, 9, 10, 12, 16, 24, 28, 36, HEADER_LEN, HEADER_LEN + 2 * DIRECTORY_ENTRY_LEN] {
        let mut damaged = packed.clone();
        damaged[at] ^= 0xff;
        assert_eq!(
            PackFile::open(damaged).err().unwrap().kind(),
            ErrorKind::Corrupt,
            "byte {at}"
        );
    }
    for len in [0, HEADER_LEN - 1, HEADER_LEN, packed.len() - 1] {
        let cut = packed[..len].to_vec();
        assert_eq!(
            PackFile::open(cut).err().unwrap().kind(),
            ErrorKind::Corrupt,
            "{len} bytes"
        );
    }
}

#[test]
fn a_damaged_frame_is_refused_when_it_is_read() {
    let mut packed = pack_pages(&image(4), PAGE_SIZE, 2).unwrap();
    let last = packed.len() - 1;
    packed[last] ^= 0xff;
    let pack = PackFile::open(packed).unwrap();
    assert!(pack.read_frame(0).is_ok());
    assert_eq!(pack.read_frame(1).unwrap_err().kind(), ErrorKind::Corrupt);
}

#[test]
fn a_frame_that_is_no_compressed_data_is_refused() {
    let packed = assemble(PAGE_SIZE, 1, 1, &vec![vec![1, 2, 3]]).unwrap();
    let pack = PackFile::open(packed).unwrap();
    assert_eq!(pack.read_frame(0).unwrap_err().kind(), ErrorKind::Corrupt);
}

#[test]
fn checksums_continue_where_they_stopped() {
    let text = b"123456789";
    assert_eq!(crc32c_append(0, text), 0xe306_9283);
    assert_eq!(
        crc32c_append(crc32c_append(0, &text[..4]), &text[4..]),
        crc32c_append(0, text)
    );
    assert_eq!(crc32c_append(0, b""), 0);
    assert_eq!(crc32c_append(0, text), crc32c::crc32c(text));
}

#[test]
fn a_frame_that_is_cut_off_is_named() {
    let packed = pack_pages(&image(4), PAGE_SIZE, 2).unwrap();
    let entry = |at: usize| {
        let from = HEADER_LEN + at * DIRECTORY_ENTRY_LEN;
        let offset = u64::from_le_bytes(packed[from..from + 8].try_into().unwrap());
        let len = u32::from_le_bytes(packed[from + 8..from + 12].try_into().unwrap());
        (offset, len)
    };
    let (offset, len) = entry(1);
    let cut = packed[..packed.len() - 1].to_vec();
    let size = cut.len();
    assert_eq!(
        PackFile::open(cut).err().unwrap().text(),
        format!(
            "pack frame 1 truncated: directory names {len} bytes at offset {offset}, file has {size}"
        )
    );
}

#[test]
fn checksums_that_differ_are_spelled_in_hexadecimal() {
    let packed = pack_pages(&image(4), PAGE_SIZE, 2).unwrap();
    let stored = u32::from_le_bytes(packed[36..40].try_into().unwrap());
    let mut damaged = packed.clone();
    damaged[36] ^= 0xff;
    let read = u32::from_le_bytes(damaged[36..40].try_into().unwrap());
    assert_eq!(
        PackFile::open(damaged).err().unwrap().text(),
        format!("pack header crc32c mismatch: stored {read:#010x}, computed {stored:#010x}")
    );
}

#[test]
fn a_frame_count_that_is_wrong_is_held_against_the_right_one() {
    let mut packed = pack_pages(&image(4), PAGE_SIZE, 2).unwrap();
    packed[16] = 9;
    let checksum = crc32c::crc32c(&packed[..36]);
    packed[36..40].copy_from_slice(&checksum.to_le_bytes());
    assert_eq!(
        PackFile::open(packed).err().unwrap().text(),
        "pack page_count mismatch: 9 pages at 2 pages per frame require 5 frames, the header declares 2"
    );
}

#[test]
fn a_cut_off_directory_says_how_long_it_is() {
    let packed = pack_pages(&image(4), PAGE_SIZE, 2).unwrap();
    assert_eq!(
        PackFile::open(packed[..HEADER_LEN].to_vec())
            .err()
            .unwrap()
            .text(),
        "pack directory truncated: 32 bytes plus crc at offset 40, file has 40"
    );
}
