//! Scenario and boundary tests: the concrete layout numbers, the error
//! cases, idempotent saving, and the full round trip from staged bytes
//! back out of a re-opened container.

use micro_fs::create;
use micro_fs::utils::bytes_to_str;
use micro_fs::FsError;
use micro_fs::MicroFS;
use micro_fs::MAGIC;

/// Creating a 100000-byte image with one-sector blocks gives capacity 195
/// and root-directory block 2; a 2890-byte file takes 6 blocks starting at
/// block 3; deleting it frees blocks 3 through 8 again.
#[test]
fn concrete_scenario() {
    let mut fs = MicroFS::new("scenario.img");
    let mut image = fs.create("test", 1, 100000).expect("creation was rejected");
    assert_eq!(fs.sb.fat_size, 195);
    assert_eq!(fs.sb.root_entry, 2);

    let data = vec![7u8; 2890];
    fs.add("dir/file.bin", data).expect("add was rejected");
    let entry = fs.new_entries[0];
    assert_eq!(entry.start, 3);
    let chain = fs.get_blocks(&entry).expect("chain does not walk");
    assert_eq!(chain, vec![3, 4, 5, 6, 7, 8]);

    fs.save(&mut image).expect("save failed");
    fs.del("file.bin").expect("delete failed");
    for b in 3..9 {
        assert_eq!(fs.fat[b], 0xff);
    }
}

/// A file of exactly one sector still takes two blocks: the format always
/// reserves one extra trailing block.
#[test]
fn exact_multiple_takes_extra_block() {
    let mut fs = MicroFS::new("extra.img");
    fs.create("test", 1, 100000).expect("creation was rejected");
    fs.add("one_sector.bin", vec![1u8; 512]).expect("add was rejected");
    let chain = fs.get_blocks(&fs.new_entries[0].clone()).expect("chain does not walk");
    assert_eq!(chain.len(), 2);
}

/// The region helpers give the documented offsets for the concrete layout.
#[test]
fn region_formulas() {
    let mut fs = MicroFS::new("regions.img");
    fs.create("test", 1, 100000).expect("creation was rejected");
    assert_eq!(fs.fat_size(), 195);
    assert_eq!(fs.root_entry(), 1024);
    assert_eq!(fs.entries_size(), 512);
}

/// Adding a file larger than the free range leaves the table and the
/// directory completely unchanged and reports `ImageFull`.
#[test]
fn boundary_image_full() {
    let mut fs = MicroFS::new("full.img");
    fs.create("test", 1, 100000).expect("creation was rejected");
    let fat_before = fs.fat.clone();
    let r = fs.add("big.bin", vec![0u8; 99000]);
    assert_eq!(r, Err(FsError::ImageFull));
    assert_eq!(fs.fat, fat_before);
    assert_eq!(fs.entries.len(), 0);
    assert_eq!(fs.new_entries.len(), 0);
}

/// A capacity outside 1..=254 rejects the creation.
#[test]
fn capacity_exceeded() {
    let mut fs = MicroFS::new("cap.img");
    assert_eq!(fs.create("test", 1, 512 * 300), Err(FsError::CapacityExceeded));
    assert_eq!(fs.create("test", 1, 100), Err(FsError::CapacityExceeded));
    assert_eq!(fs.create("test", 0, 100000), Err(FsError::CapacityExceeded));
    assert!(!fs.valid);
}

/// Bytes without the signature are not an image.
#[test]
fn invalid_image() {
    let mut fs = MicroFS::new("bad.img");
    assert_eq!(fs.open(&[0u8; 4096]), Err(FsError::InvalidImage));
    assert_eq!(fs.open(&[]), Err(FsError::InvalidImage));
    assert!(!fs.valid);
}

/// Deleting an unknown name reports `NotFound`; staged entries are never
/// matched.
#[test]
fn delete_not_found() {
    let mut fs = MicroFS::new("nf.img");
    fs.create("test", 1, 100000).expect("creation was rejected");
    assert_eq!(fs.del("ghost.txt"), Err(FsError::NotFound));
    fs.add("staged.txt", vec![1]).expect("add was rejected");
    assert_eq!(fs.del("staged.txt"), Err(FsError::NotFound));
}

/// A link pointing outside the table surfaces as `CorruptChain`.
#[test]
fn corrupt_chain() {
    let mut fs = MicroFS::new("corrupt.img");
    let mut image = fs.create("test", 1, 100000).expect("creation was rejected");
    fs.add("x.bin", vec![9u8; 10]).expect("add was rejected");
    fs.save(&mut image).expect("save failed");
    fs.fat[3] = 200;
    assert_eq!(fs.del("x.bin"), Err(FsError::CorruptChain));
}

/// With every directory slot taken, another add reports `DirectoryFull`.
#[test]
fn directory_full() {
    let mut fs = MicroFS::new("slots.img");
    fs.create("test", 1, 100000).expect("creation was rejected");
    for i in 0..16 {
        let name = format!("f{}.bin", i);
        fs.add(&name, vec![0u8; 1]).expect("add was rejected");
    }
    assert_eq!(fs.add("extra.bin", vec![0u8; 1]), Err(FsError::DirectoryFull));
}

/// Adding and then deleting (after a save) restores the allocation table
/// and removes the name from the listing.
#[test]
fn add_delete_round_trip() {
    let mut fs = MicroFS::new("roundtrip.img");
    let mut image = fs.create("test", 1, 100000).expect("creation was rejected");
    let fat_before = fs.fat.clone();
    fs.add("doc.txt", vec![3u8; 1000]).expect("add was rejected");
    fs.save(&mut image).expect("save failed");
    assert!(fs.list().iter().any(|e| bytes_to_str(&e.name) == Some("doc.txt")));
    fs.del("doc.txt").expect("delete failed");
    assert_eq!(fs.fat, fat_before);
    assert!(!fs.list().iter().any(|e| bytes_to_str(&e.name) == Some("doc.txt")));
}

/// Saving twice without a change in between produces byte-identical
/// containers.
#[test]
fn save_idempotent() {
    let mut fs = MicroFS::new("idem.img");
    let mut image = fs.create("test", 1, 100000).expect("creation was rejected");
    fs.add("a.bin", vec![5u8; 700]).expect("add was rejected");
    fs.add("b.bin", vec![6u8; 100]).expect("add was rejected");
    fs.save(&mut image).expect("save failed");
    let first = image.clone();
    fs.save(&mut image).expect("save failed");
    assert_eq!(image, first);
}

/// Staging a file, saving, and re-opening the container yields an entry
/// whose name is the final path component and whose start, size and bytes
/// match the source exactly.
#[test]
fn save_open_round_trip() {
    let mut fs = MicroFS::new("rt.img");
    let mut image = fs.create("mylabel", 1, 100000).expect("creation was rejected");
    let data: Vec<u8> = (0..2890u32).map(|i| (i % 251) as u8).collect();
    fs.add("some/dir/data.bin", data.clone()).expect("add was rejected");
    fs.save(&mut image).expect("save failed");

    let mut reopened = MicroFS::new("rt.img");
    reopened.open(&image).expect("image did not open");
    assert_eq!(reopened.sb.block_size, fs.sb.block_size);
    assert_eq!(reopened.sb.fat_size, fs.sb.fat_size);
    assert_eq!(reopened.sb.signature, MAGIC);
    assert_eq!(bytes_to_str(&reopened.sb.label).unwrap(), "mylabel");
    assert_eq!(reopened.fat, fs.fat);

    assert_eq!(reopened.entries.len(), 1);
    let entry = reopened.entries[0];
    assert_eq!(bytes_to_str(&entry.name).unwrap(), "data.bin");
    assert_eq!(entry.start, 3);
    assert_eq!(entry.size, data.len() as u32);

    let chain = reopened.get_blocks(&entry).expect("chain does not walk");
    let mut read_back = Vec::new();
    for (i, b) in chain.iter().enumerate() {
        let offset = b * 512;
        let lo = i * 512;
        let hi = if lo + 512 < data.len() { lo + 512 } else { data.len() };
        if lo < data.len() {
            read_back.extend_from_slice(&image[offset..offset + (hi - lo)]);
        }
    }
    assert_eq!(read_back, data);
}

/// `create` (the free function) builds the session and the container in
/// one step, and `open` accepts the result.
#[test]
fn create_then_open() {
    let (fs, image) = create("fresh.img", "label", 2, 200000).expect("creation was rejected");
    assert_eq!(fs.image, "fresh.img");
    let mut reopened = MicroFS::new("fresh.img");
    reopened.open(&image).expect("image did not open");
    assert_eq!(reopened.sb.block_size, fs.sb.block_size);
    assert_eq!(reopened.sb.fat_size, fs.sb.fat_size);
    assert_eq!(reopened.sb.root_entry, fs.sb.root_entry);
    assert_eq!(reopened.sb.label, fs.sb.label);
    assert_eq!(reopened.entries.len(), 0);
    assert!(reopened.fat.iter().all(|&b| b == 0xff));
}

/// `info` reports the header the session holds.
#[test]
fn info_reports_header() {
    let mut fs = MicroFS::new("info.img");
    fs.create("test", 1, 100000).expect("creation was rejected");
    let sb = fs.info();
    assert_eq!(sb.fat_size, 195);
    assert_eq!(sb.root_entry, 2);
    assert_eq!(sb.version, 1);
}

/// The name reader stops at the zero padding and rejects bytes that are
/// not text.
#[test]
fn name_reader() {
    assert_eq!(bytes_to_str(b"test\0\0\0\0"), Some("test"));
    assert_eq!(bytes_to_str(b"plain"), Some("plain"));
    assert_eq!(bytes_to_str(&[0xff, 0xfe, 0x00]), None);
    assert_eq!(bytes_to_str(&[0u8; 4]), Some(""));
}

/// Lookup by name sees persisted entries only, and the table serializes
/// verbatim.
#[test]
fn find_contains_serialize() {
    let mut fs = MicroFS::new("lookup.img");
    let mut image = fs.create("test", 1, 100000).expect("creation was rejected");
    fs.add("notes.txt", vec![1u8; 10]).expect("add was rejected");
    assert!(!fs.contains("notes.txt"));
    fs.save(&mut image).expect("save failed");
    assert!(fs.contains("notes.txt"));
    let found = fs.find("notes.txt").expect("entry not found");
    assert_eq!(found.start, 3);
    assert_eq!(found.size, 10);
    assert!(fs.find("other.txt").is_none());
    assert_eq!(fs.serialize(), fs.fat);
}
