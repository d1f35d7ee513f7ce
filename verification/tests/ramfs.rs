use lilith::ramfs::{ImageBuilder, ImageError, RamFs};

fn sample() -> Vec<u8> {
    let mut b = ImageBuilder::new();
    b.add_file("hello.txt", b"hello world".to_vec()).unwrap();
    b.add_file("empty", Vec::new()).unwrap();
    b.add_file("big", vec![7u8; 5000]).unwrap();
    b.build()
}

#[test]
fn image_layout() {
    let img = sample();
    assert_eq!(&img[0..8], b"LILITH!!");
    assert_eq!(u64::from_le_bytes(img[8..16].try_into().unwrap()), 3);
    // first entry: name, then offset and size
    assert_eq!(&img[16..25], b"hello.txt");
    assert!(img[25..48].iter().all(|&b| b == 0));
    assert_eq!(u64::from_le_bytes(img[48..56].try_into().unwrap()), 4096);
    assert_eq!(u64::from_le_bytes(img[56..64].try_into().unwrap()), 11);
    // the contents start on pages: 4096, then 8192 (empty), then 8192 again
    assert_eq!(u64::from_le_bytes(img[16 + 64 + 32..16 + 64 + 40].try_into().unwrap()), 8192);
    assert_eq!(u64::from_le_bytes(img[16 + 128 + 32..16 + 128 + 40].try_into().unwrap()), 8192);
    assert_eq!(img.len(), 8192 + 8192);
    assert_eq!(&img[4096..4107], b"hello world");
}

#[test]
fn files_read_back() {
    let img = sample();
    let fs = RamFs::new(&img);
    assert_eq!(fs.get("hello.txt"), Some(&b"hello world"[..]));
    assert_eq!(fs.get("empty"), Some(&b""[..]));
    assert_eq!(fs.get("big").map(|d| d.len()), Some(5000));
    assert!(fs.get("big").unwrap().iter().all(|&b| b == 7));
    assert_eq!(fs.get("missing"), None);
}

#[test]
fn iter_lists_names_in_order() {
    let img = sample();
    let fs = RamFs::new(&img);
    assert_eq!(fs.iter(), vec!["hello.txt", "empty", "big"]);
}

#[test]
fn name_of_exactly_thirty_two_bytes_reads_back() {
    let name = "abcdefghijklmnopqrstuvwxyz012345";
    assert_eq!(name.len(), 32);
    let mut b = ImageBuilder::new();
    b.add_file(name, vec![1, 2, 3]).unwrap();
    let img = b.build();
    let fs = RamFs::new(&img);
    assert_eq!(fs.iter(), vec![name]);
    assert_eq!(fs.get(name), Some(&[1u8, 2, 3][..]));
}

#[test]
fn too_long_names_are_refused() {
    let mut b = ImageBuilder::new();
    assert_eq!(b.add_file("abcdefghijklmnopqrstuvwxyz0123456", Vec::new()), Err(ImageError::NameTooLong));
    let img = b.build();
    assert_eq!(RamFs::new(&img).iter().len(), 0);
}

#[test]
fn duplicate_names_are_refused() {
    let mut b = ImageBuilder::new();
    b.add_file("a", vec![1]).unwrap();
    assert_eq!(b.add_file("a", vec![2]), Err(ImageError::DuplicateName));
    let img = b.build();
    let fs = RamFs::new(&img);
    assert_eq!(fs.get("a"), Some(&[1u8][..]));
}

#[test]
fn empty_image_has_only_a_header_page() {
    let img = ImageBuilder::new().build();
    assert_eq!(img.len(), 4096);
    assert_eq!(RamFs::new(&img).get("x"), None);
}

#[test]
fn image_size_matches_the_built_image() {
    let mut b = ImageBuilder::new();
    assert_eq!(b.image_size(), Some(4096));
    b.add_file("a", vec![1; 4097]).unwrap();
    assert_eq!(b.image_size(), Some(4096 + 8192));
    assert_eq!(b.build().len() as u64, b.image_size().unwrap());
}
