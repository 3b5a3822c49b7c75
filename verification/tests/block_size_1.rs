//! Tests over one-sector blocks: creating an image, staging files,
//! saving, re-loading, and deleting, all over in-memory container bytes.

use micro_fs::utils::bytes_to_str;
use micro_fs::Entry;
use micro_fs::MicroFS;
use micro_fs::SuperBlock;
use micro_fs::MAGIC;
use micro_fs::SECTOR_SIZE;

fn trimmed(data: &[u8]) -> Vec<u8> {
    let mut end = data.len();
    while end > 0 && data[end - 1] == 0 {
        end -= 1;
    }
    data[..end].to_vec()
}

#[test]
fn constructors() {
    let mut test_fs = MicroFS::new("fs1_test.img");
    test_fs.sb = SuperBlock::new("test", 1, 100000);
    assert_eq!(test_fs.image, "fs1_test.img");
    assert_eq!(test_fs.sb.sector_size, SECTOR_SIZE as u16);
    assert_eq!(test_fs.sb.block_size, 1);
    assert_eq!(test_fs.sb.fat_size, 195);
    assert_eq!(test_fs.sb.version, 1);
    assert_eq!(test_fs.sb.root_entry, 2);
    assert_eq!(test_fs.sb.label, [b't', b'e', b's', b't', b'\0', b'\0', b'\0', b'\0']);
    assert_eq!(test_fs.sb.signature, MAGIC);
}

#[test]
fn create() {
    let mut test_fs = MicroFS::new("fs1_test.img");
    let image = test_fs.create("test", 1, 100000).expect("creation was rejected");
    let raw_sb = &image[..SECTOR_SIZE];

    let signature = raw_sb[510] as u16 + 256 * raw_sb[511] as u16;
    assert_eq!(signature, MAGIC);
    let bs = raw_sb[13];
    assert_eq!(bs, 1);
    let raw_label = &raw_sb[82..90];
    let label = bytes_to_str(raw_label).expect("label is not text");
    assert_eq!(label, "test");
    let size = image.len();
    assert_eq!(size, 99840);

    let raw_fat = &image[512..512 + 195];
    assert_eq!(raw_fat, &[0xff; 195][..]);

    let raw_entries = &image[1024..1024 + 512];
    assert_eq!(raw_entries, &[0; 512][..]);
}

#[test]
fn add() {
    let mut test_fs = MicroFS::new("fs1_test.img");
    test_fs.create("test", 1, 100000).expect("creation was rejected");
    let data = trimmed(&TEST1);
    let len = data.len();
    test_fs.add("tests/test1.txt", data).expect("add was rejected");

    assert_eq!(bytes_to_str(&test_fs.new_entries[0].name).unwrap(), "tests/test1.txt");
    assert_eq!(test_fs.new_entries[0].start, 3);
    assert_eq!(test_fs.new_entries[0].size, len as u32);
}

#[test]
fn save() {
    let mut cmp_fs = MicroFS {
        image: "fs1_test.img".to_string(),
        sb: SuperBlock::new("test", 1, 100000),
        fat: Vec::new(),
        entries: Vec::new(),
        new_entries: Vec::new(),
        new_data: Vec::new(),
        valid: true,
    };

    let mut test_fs = MicroFS::new("fs1_test.img");
    let mut image = test_fs.create("test", 1, 100000).expect("creation was rejected");
    test_fs.add("tests/test1.txt", trimmed(&TEST1)).expect("add was rejected");
    test_fs.save(&mut image).expect("save failed");

    cmp_fs.set_fat(&image);
    assert_eq!(test_fs.fat, cmp_fs.fat);

    cmp_fs.set_entries(&image);
    assert_eq!(&test_fs.entries[0].name[..], &cmp_fs.entries[0].name[..]);
    assert_eq!(test_fs.entries[0].start, cmp_fs.entries[0].start);
    assert_eq!(test_fs.entries[0].size, cmp_fs.entries[0].size);

    let raw_data = &image[1536..1536 + SECTOR_SIZE];
    for i in 0..SECTOR_SIZE {
        assert_eq!(raw_data[i], TEST1[i]);
    }
}

#[test]
fn remove() {
    let mut cmp_fs = MicroFS {
        image: "fs1_test.img".to_string(),
        sb: SuperBlock::new("test", 1, 100000),
        fat: Vec::new(),
        entries: Vec::new(),
        new_entries: Vec::new(),
        new_data: Vec::new(),
        valid: true,
    };

    let mut test_fs = MicroFS::new("fs1_test.img");
    let mut image = test_fs.create("test", 1, 100000).expect("creation was rejected");
    test_fs.add("tests/test1.txt", trimmed(&TEST1)).expect("add was rejected");
    test_fs.save(&mut image).expect("save failed");
    test_fs.del("test1.txt").expect("delete failed");
    test_fs.save(&mut image).expect("save failed");

    cmp_fs.set_fat(&image);
    assert_eq!(&cmp_fs.fat[..], &[0xff; 195][..]);

    cmp_fs.set_entries(&image);
    assert_eq!(cmp_fs.entries.len(), 0);
}

#[test]
fn multiple_blocks() {
    let mut test_fs = MicroFS::new("fs1_test.img");
    let mut image = test_fs.create("test", 1, 100000).expect("creation was rejected");
    test_fs.add("tests/test1.txt", trimmed(&TEST1)).expect("add was rejected");
    test_fs.add("tests/test2.txt", trimmed(&TEST2)).expect("add was rejected");
    test_fs.save(&mut image).expect("save failed");

    let raw_data = &image[2048..2048 + SECTOR_SIZE * 5];
    assert_eq!(raw_data, &TEST2[..]);
}

#[test]
fn list_names_both_sets() {
    let mut test_fs = MicroFS::new("fs1_test.img");
    let mut image = test_fs.create("test", 1, 100000).expect("creation was rejected");
    test_fs.add("a.txt", vec![1, 2, 3]).expect("add was rejected");
    test_fs.save(&mut image).expect("save failed");
    test_fs.add("b.txt", vec![4, 5]).expect("add was rejected");
    let listed: Vec<Entry> = test_fs.list();
    assert_eq!(listed.len(), 2);
    assert_eq!(bytes_to_str(&listed[0].name).unwrap(), "a.txt");
    assert_eq!(bytes_to_str(&listed[1].name).unwrap(), "b.txt");
    assert_eq!(listed[0].size, 3);
    assert_eq!(listed[1].size, 2);
}

const TEST1: [u8; SECTOR_SIZE] = [
    0x4c, 0x6f, 0x72, 0x65, 0x6d, 0x20, 0x69, 0x70, 
    0x73, 0x75, 0x6d, 0x20, 0x64, 0x6f, 0x6c, 0x6f, 
    0x72, 0x20, 0x73, 0x69, 0x74, 0x20, 0x61, 0x6d, 
    0x65, 0x74, 0x2c, 0x20, 0x63, 0x6f, 0x6e, 0x73, 
    0x65, 0x63, 0x74, 0x65, 0x74, 0x75, 0x72, 0x20, 
    0x61, 0x64, 0x69, 0x70, 0x69, 0x73, 0x69, 0x63, 
    0x69, 0x6e, 0x67, 0x20, 0x65, 0x6c, 0x69, 0x74, 
    0x2c, 0x20, 0x73, 0x65, 0x64, 0x20, 0x64, 0x6f, 
    0x20, 0x65, 0x69, 0x75, 0x73, 0x6d, 0x6f, 0x64, 
    0x20, 0x74, 0x65, 0x6d, 0x70, 0x6f, 0x72, 0x20, 
    0x69, 0x6e, 0x63, 0x69, 0x64, 0x69, 0x64, 0x75, 
    0x6e, 0x74, 0x20, 0x75, 0x74, 0x20, 0x6c, 0x61, 
    0x62, 0x6f, 0x72, 0x65, 0x20, 0x65, 0x74, 0x20, 
    0x64, 0x6f, 0x6c, 0x6f, 0x72, 0x65, 0x20, 0x6d, 
    0x61, 0x67, 0x6e, 0x61, 0x20, 0x61, 0x6c, 0x69, 
    0x71, 0x75, 0x61, 0x2e, 0x20, 0x55, 0x74, 0x20, 
    0x65, 0x6e, 0x69, 0x6d, 0x20, 0x61, 0x64, 0x20, 
    0x6d, 0x69, 0x6e, 0x69, 0x6d, 0x20, 0x76, 0x65, 
    0x6e, 0x69, 0x61, 0x6d, 0x2c, 0x20, 0x71, 0x75, 
    0x69, 0x73, 0x20, 0x6e, 0x6f, 0x73, 0x74, 0x72, 
    0x75, 0x64, 0x20, 0x65, 0x78, 0x65, 0x72, 0x63, 
    0x69, 0x74, 0x61, 0x74, 0x69, 0x6f, 0x6e, 0x20, 
    0x75, 0x6c, 0x6c, 0x61, 0x6d, 0x63, 0x6f, 0x20, 
    0x6c, 0x61, 0x62, 0x6f, 0x72, 0x69, 0x73, 0x20, 
    0x6e, 0x69, 0x73, 0x69, 0x20, 0x75, 0x74, 0x20, 
    0x61, 0x6c, 0x69, 0x71, 0x75, 0x69, 0x70, 0x20, 
    0x65, 0x78, 0x20, 0x65, 0x61, 0x20, 0x63, 0x6f, 
    0x6d, 0x6d, 0x6f, 0x64, 0x6f, 0x20, 0x63, 0x6f, 
    0x6e, 0x73, 0x65, 0x71, 0x75, 0x61, 0x74, 0x2e, 
    0x20, 0x44, 0x75, 0x69, 0x73, 0x20, 0x61, 0x75, 
    0x74, 0x65, 0x20, 0x69, 0x72, 0x75, 0x72, 0x65, 
    0x20, 0x64, 0x6f, 0x6c, 0x6f, 0x72, 0x20, 0x69, 
    0x6e, 0x20, 0x72, 0x65, 0x70, 0x72, 0x65, 0x68, 
    0x65, 0x6e, 0x64, 0x65, 0x72, 0x69, 0x74, 0x20, 
    0x69, 0x6e, 0x20, 0x76, 0x6f, 0x6c, 0x75, 0x70, 
    0x74, 0x61, 0x74, 0x65, 0x20, 0x76, 0x65, 0x6c, 
    0x69, 0x74, 0x20, 0x65, 0x73, 0x73, 0x65, 0x20, 
    0x63, 0x69, 0x6c, 0x6c, 0x75, 0x6d, 0x20, 0x64, 
    0x6f, 0x6c, 0x6f, 0x72, 0x65, 0x20, 0x65, 0x75, 
    0x20, 0x66, 0x75, 0x67, 0x69, 0x61, 0x74, 0x20, 
    0x6e, 0x75, 0x6c, 0x6c, 0x61, 0x20, 0x70, 0x61, 
    0x72, 0x69, 0x61, 0x74, 0x75, 0x72, 0x2e, 0x20, 
    0x45, 0x78, 0x63, 0x65, 0x70, 0x74, 0x65, 0x75, 
    0x72, 0x20, 0x73, 0x69, 0x6e, 0x74, 0x20, 0x6f, 
    0x63, 0x63, 0x61, 0x65, 0x63, 0x61, 0x74, 0x20, 
    0x63, 0x75, 0x70, 0x69, 0x64, 0x61, 0x74, 0x61, 
    0x74, 0x20, 0x6e, 0x6f, 0x6e, 0x20, 0x70, 0x72, 
    0x6f, 0x69, 0x64, 0x65, 0x6e, 0x74, 0x2c, 0x20, 
    0x73, 0x75, 0x6e, 0x74, 0x20, 0x69, 0x6e, 0x20, 
    0x63, 0x75, 0x6c, 0x70, 0x61, 0x20, 0x71, 0x75, 
    0x69, 0x20, 0x6f, 0x66, 0x66, 0x69, 0x63, 0x69, 
    0x61, 0x20, 0x64, 0x65, 0x73, 0x65, 0x72, 0x75, 
    0x6e, 0x74, 0x20, 0x6d, 0x6f, 0x6c, 0x6c, 0x69, 
    0x74, 0x20, 0x61, 0x6e, 0x69, 0x6d, 0x20, 0x69, 
    0x64, 0x20, 0x65, 0x73, 0x74, 0x20, 0x6c, 0x61, 
    0x62, 0x6f, 0x72, 0x75, 0x6d, 0x2e, 0x0, 0x0, 
    0x0, 0x0, 0x0, 0x0, 0x0, 0x0, 0x0, 0x0, 
    0x0, 0x0, 0x0, 0x0, 0x0, 0x0, 0x0, 0x0, 
    0x0, 0x0, 0x0, 0x0, 0x0, 0x0, 0x0, 0x0, 
    0x0, 0x0, 0x0, 0x0, 0x0, 0x0, 0x0, 0x0, 
    0x0, 0x0, 0x0, 0x0, 0x0, 0x0, 0x0, 0x0, 
    0x0, 0x0, 0x0, 0x0, 0x0, 0x0, 0x0, 0x0, 
    0x0, 0x0, 0x0, 0x0, 0x0, 0x0, 0x0, 0x0, 
    0x0, 0x0, 0x0, 0x0, 0x0, 0x0, 0x0, 0x0, 
];

const TEST2: [u8; SECTOR_SIZE * 5] = [
    0x4c, 0x6f, 0x72, 0x65, 0x6d, 0x20, 0x69, 0x70, 
    0x73, 0x75, 0x6d, 0x20, 0x64, 0x6f, 0x6c, 0x6f, 
    0x72, 0x20, 0x73, 0x69, 0x74, 0x20, 0x61, 0x6d, 
    0x65, 0x74, 0x2c, 0x20, 0x63, 0x6f, 0x6e, 0x73, 
    0x65, 0x63, 0x74, 0x65, 0x74, 0x75, 0x72, 0x20, 
    0x61, 0x64, 0x69, 0x70, 0x69, 0x73, 0x69, 0x63, 
    0x69, 0x6e, 0x67, 0x20, 0x65, 0x6c, 0x69, 0x74, 
    0x2c, 0x20, 0x73, 0x65, 0x64, 0x20, 0x64, 0x6f, 
    0x20, 0x65, 0x69, 0x75, 0x73, 0x6d, 0x6f, 0x64, 
    0x20, 0x74, 0x65, 0x6d, 0x70, 0x6f, 0x72, 0x20, 
    0x69, 0x6e, 0x63, 0x69, 0x64, 0x69, 0x64, 0x75, 
    0x6e, 0x74, 0x20, 0x75, 0x74, 0x20, 0x6c, 0x61, 
    0x62, 0x6f, 0x72, 0x65, 0x20, 0x65, 0x74, 0x20, 
    0x64, 0x6f, 0x6c, 0x6f, 0x72, 0x65, 0x20, 0x6d, 
    0x61, 0x67, 0x6e, 0x61, 0x20, 0x61, 0x6c, 0x69, 
    0x71, 0x75, 0x61, 0x2e, 0x20, 0x55, 0x74, 0x20, 
    0x65, 0x6e, 0x69, 0x6d, 0x20, 0x61, 0x64, 0x20, 
    0x6d, 0x69, 0x6e, 0x69, 0x6d, 0x20, 0x76, 0x65, 
    0x6e, 0x69, 0x61, 0x6d, 0x2c, 0x20, 0x71, 0x75, 
    0x69, 0x73, 0x20, 0x6e, 0x6f, 0x73, 0x74, 0x72, 
    0x75, 0x64, 0x20, 0x65, 0x78, 0x65, 0x72, 0x63, 
    0x69, 0x74, 0x61, 0x74, 0x69, 0x6f, 0x6e, 0x20, 
    0x75, 0x6c, 0x6c, 0x61, 0x6d, 0x63, 0x6f, 0x20, 
    0x6c, 0x61, 0x62, 0x6f, 0x72, 0x69, 0x73, 0x20, 
    0x6e, 0x69, 0x73, 0x69, 0x20, 0x75, 0x74, 0x20, 
    0x61, 0x6c, 0x69, 0x71, 0x75, 0x69, 0x70, 0x20, 
    0x65, 0x78, 0x20, 0x65, 0x61, 0x20, 0x63, 0x6f, 
    0x6d, 0x6d, 0x6f, 0x64, 0x6f, 0x20, 0x63, 0x6f, 
    0x6e, 0x73, 0x65, 0x71, 0x75, 0x61, 0x74, 0x2e, 
    0x20, 0x44, 0x75, 0x69, 0x73, 0x20, 0x61, 0x75, 
    0x74, 0x65, 0x20, 0x69, 0x72, 0x75, 0x72, 0x65, 
    0x20, 0x64, 0x6f, 0x6c, 0x6f, 0x72, 0x20, 0x69, 
    0x6e, 0x20, 0x72, 0x65, 0x70, 0x72, 0x65, 0x68, 
    0x65, 0x6e, 0x64, 0x65, 0x72, 0x69, 0x74, 0x20, 
    0x69, 0x6e, 0x20, 0x76, 0x6f, 0x6c, 0x75, 0x70, 
    0x74, 0x61, 0x74, 0x65, 0x20, 0x76, 0x65, 0x6c, 
    0x69, 0x74, 0x20, 0x65, 0x73, 0x73, 0x65, 0x20, 
    0x63, 0x69, 0x6c, 0x6c, 0x75, 0x6d, 0x20, 0x64, 
    0x6f, 0x6c, 0x6f, 0x72, 0x65, 0x20, 0x65, 0x75, 
    0x20, 0x66, 0x75, 0x67, 0x69, 0x61, 0x74, 0x20, 
    0x6e, 0x75, 0x6c, 0x6c, 0x61, 0x20, 0x70, 0x61, 
    0x72, 0x69, 0x61, 0x74, 0x75, 0x72, 0x2e, 0x20, 
    0x45, 0x78, 0x63, 0x65, 0x70, 0x74, 0x65, 0x75, 
    0x72, 0x20, 0x73, 0x69, 0x6e, 0x74, 0x20, 0x6f, 
    0x63, 0x63, 0x61, 0x65, 0x63, 0x61, 0x74, 0x20, 
    0x63, 0x75, 0x70, 0x69, 0x64, 0x61, 0x74, 0x61, 
    0x74, 0x20, 0x6e, 0x6f, 0x6e, 0x20, 0x70, 0x72, 
    0x6f, 0x69, 0x64, 0x65, 0x6e, 0x74, 0x2c, 0x20, 
    0x73, 0x75, 0x6e, 0x74, 0x20, 0x69, 0x6e, 0x20, 
    0x63, 0x75, 0x6c, 0x70, 0x61, 0x20, 0x71, 0x75, 
    0x69, 0x20, 0x6f, 0x66, 0x66, 0x69, 0x63, 0x69, 
    0x61, 0x20, 0x64, 0x65, 0x73, 0x65, 0x72, 0x75, 
    0x6e, 0x74, 0x20, 0x6d, 0x6f, 0x6c, 0x6c, 0x69, 
    0x74, 0x20, 0x61, 0x6e, 0x69, 0x6d, 0x20, 0x69, 
    0x64, 0x20, 0x65, 0x73, 0x74, 0x20, 0x6c, 0x61, 
    0x62, 0x6f, 0x72, 0x75, 0x6d, 0x2e, 0xa, 0x4c, 
    0x6f, 0x72, 0x65, 0x6d, 0x20, 0x69, 0x70, 0x73, 
    0x75, 0x6d, 0x20, 0x64, 0x6f, 0x6c, 0x6f, 0x72, 
    0x20, 0x73, 0x69, 0x74, 0x20, 0x61, 0x6d, 0x65, 
    0x74, 0x2c, 0x20, 0x63, 0x6f, 0x6e, 0x73, 0x65, 
    0x63, 0x74, 0x65, 0x74, 0x75, 0x72, 0x20, 0x61, 
    0x64, 0x69, 0x70, 0x69, 0x73, 0x69, 0x63, 0x69, 
    0x6e, 0x67, 0x20, 0x65, 0x6c, 0x69, 0x74, 0x2c, 
    0x20, 0x73, 0x65, 0x64, 0x20, 0x64, 0x6f, 0x20, 
    0x65, 0x69, 0x75, 0x73, 0x6d, 0x6f, 0x64, 0x20, 
    0x74, 0x65, 0x6d, 0x70, 0x6f, 0x72, 0x20, 0x69, 
    0x6e, 0x63, 0x69, 0x64, 0x69, 0x64, 0x75, 0x6e, 
    0x74, 0x20, 0x75, 0x74, 0x20, 0x6c, 0x61, 0x62, 
    0x6f, 0x72, 0x65, 0x20, 0x65, 0x74, 0x20, 0x64, 
    0x6f, 0x6c, 0x6f, 0x72, 0x65, 0x20, 0x6d, 0x61, 
    0x67, 0x6e, 0x61, 0x20, 0x61, 0x6c, 0x69, 0x71, 
    0x75, 0x61, 0x2e, 0x20, 0x55, 0x74, 0x20, 0x65, 
    0x6e, 0x69, 0x6d, 0x20, 0x61, 0x64, 0x20, 0x6d, 
    0x69, 0x6e, 0x69, 0x6d, 0x20, 0x76, 0x65, 0x6e, 
    0x69, 0x61, 0x6d, 0x2c, 0x20, 0x71, 0x75, 0x69, 
    0x73, 0x20, 0x6e, 0x6f, 0x73, 0x74, 0x72, 0x75, 
    0x64, 0x20, 0x65, 0x78, 0x65, 0x72, 0x63, 0x69, 
    0x74, 0x61, 0x74, 0x69, 0x6f, 0x6e, 0x20, 0x75, 
    0x6c, 0x6c, 0x61, 0x6d, 0x63, 0x6f, 0x20, 0x6c, 
    0x61, 0x62, 0x6f, 0x72, 0x69, 0x73, 0x20, 0x6e, 
    0x69, 0x73, 0x69, 0x20, 0x75, 0x74, 0x20, 0x61, 
    0x6c, 0x69, 0x71, 0x75, 0x69, 0x70, 0x20, 0x65, 
    0x78, 0x20, 0x65, 0x61, 0x20, 0x63, 0x6f, 0x6d, 
    0x6d, 0x6f, 0x64, 0x6f, 0x20, 0x63, 0x6f, 0x6e, 
    0x73, 0x65, 0x71, 0x75, 0x61, 0x74, 0x2e, 0x20, 
    0x44, 0x75, 0x69, 0x73, 0x20, 0x61, 0x75, 0x74, 
    0x65, 0x20, 0x69, 0x72, 0x75, 0x72, 0x65, 0x20, 
    0x64, 0x6f, 0x6c, 0x6f, 0x72, 0x20, 0x69, 0x6e, 
    0x20, 0x72, 0x65, 0x70, 0x72, 0x65, 0x68, 0x65, 
    0x6e, 0x64, 0x65, 0x72, 0x69, 0x74, 0x20, 0x69, 
    0x6e, 0x20, 0x76, 0x6f, 0x6c, 0x75, 0x70, 0x74, 
    0x61, 0x74, 0x65, 0x20, 0x76, 0x65, 0x6c, 0x69, 
    0x74, 0x20, 0x65, 0x73, 0x73, 0x65, 0x20, 0x63, 
    0x69, 0x6c, 0x6c, 0x75, 0x6d, 0x20, 0x64, 0x6f, 
    0x6c, 0x6f, 0x72, 0x65, 0x20, 0x65, 0x75, 0x20, 
    0x66, 0x75, 0x67, 0x69, 0x61, 0x74, 0x20, 0x6e, 
    0x75, 0x6c, 0x6c, 0x61, 0x20, 0x70, 0x61, 0x72, 
    0x69, 0x61, 0x74, 0x75, 0x72, 0x2e, 0x20, 0x45, 
    0x78, 0x63, 0x65, 0x70, 0x74, 0x65, 0x75, 0x72, 
    0x20, 0x73, 0x69, 0x6e, 0x74, 0x20, 0x6f, 0x63, 
    0x63, 0x61, 0x65, 0x63, 0x61, 0x74, 0x20, 0x63, 
    0x75, 0x70, 0x69, 0x64, 0x61, 0x74, 0x61, 0x74, 
    0x20, 0x6e, 0x6f, 0x6e, 0x20, 0x70, 0x72, 0x6f, 
    0x69, 0x64, 0x65, 0x6e, 0x74, 0x2c, 0x20, 0x73, 
    0x75, 0x6e, 0x74, 0x20, 0x69, 0x6e, 0x20, 0x63, 
    0x75, 0x6c, 0x70, 0x61, 0x20, 0x71, 0x75, 0x69, 
    0x20, 0x6f, 0x66, 0x66, 0x69, 0x63, 0x69, 0x61, 
    0x20, 0x64, 0x65, 0x73, 0x65, 0x72, 0x75, 0x6e, 
    0x74, 0x20, 0x6d, 0x6f, 0x6c, 0x6c, 0x69, 0x74, 
    0x20, 0x61, 0x6e, 0x69, 0x6d, 0x20, 0x69, 0x64, 
    0x20, 0x65, 0x73, 0x74, 0x20, 0x6c, 0x61, 0x62, 
    0x6f, 0x72, 0x75, 0x6d, 0x2e, 0xa, 0x4c, 0x6f, 
    0x72, 0x65, 0x6d, 0x20, 0x69, 0x70, 0x73, 0x75, 
    0x6d, 0x20, 0x64, 0x6f, 0x6c, 0x6f, 0x72, 0x20, 
    0x73, 0x69, 0x74, 0x20, 0x61, 0x6d, 0x65, 0x74, 
    0x2c, 0x20, 0x63, 0x6f, 0x6e, 0x73, 0x65, 0x63, 
    0x74, 0x65, 0x74, 0x75, 0x72, 0x20, 0x61, 0x64, 
    0x69, 0x70, 0x69, 0x73, 0x69, 0x63, 0x69, 0x6e, 
    0x67, 0x20, 0x65, 0x6c, 0x69, 0x74, 0x2c, 0x20, 
    0x73, 0x65, 0x64, 0x20, 0x64, 0x6f, 0x20, 0x65, 
    0x69, 0x75, 0x73, 0x6d, 0x6f, 0x64, 0x20, 0x74, 
    0x65, 0x6d, 0x70, 0x6f, 0x72, 0x20, 0x69, 0x6e, 
    0x63, 0x69, 0x64, 0x69, 0x64, 0x75, 0x6e, 0x74, 
    0x20, 0x75, 0x74, 0x20, 0x6c, 0x61, 0x62, 0x6f, 
    0x72, 0x65, 0x20, 0x65, 0x74, 0x20, 0x64, 0x6f, 
    0x6c, 0x6f, 0x72, 0x65, 0x20, 0x6d, 0x61, 0x67, 
    0x6e, 0x61, 0x20, 0x61, 0x6c, 0x69, 0x71, 0x75, 
    0x61, 0x2e, 0x20, 0x55, 0x74, 0x20, 0x65, 0x6e, 
    0x69, 0x6d, 0x20, 0x61, 0x64, 0x20, 0x6d, 0x69, 
    0x6e, 0x69, 0x6d, 0x20, 0x76, 0x65, 0x6e, 0x69, 
    0x61, 0x6d, 0x2c, 0x20, 0x71, 0x75, 0x69, 0x73, 
    0x20, 0x6e, 0x6f, 0x73, 0x74, 0x72, 0x75, 0x64, 
    0x20, 0x65, 0x78, 0x65, 0x72, 0x63, 0x69, 0x74, 
    0x61, 0x74, 0x69, 0x6f, 0x6e, 0x20, 0x75, 0x6c, 
    0x6c, 0x61, 0x6d, 0x63, 0x6f, 0x20, 0x6c, 0x61, 
    0x62, 0x6f, 0x72, 0x69, 0x73, 0x20, 0x6e, 0x69, 
    0x73, 0x69, 0x20, 0x75, 0x74, 0x20, 0x61, 0x6c, 
    0x69, 0x71, 0x75, 0x69, 0x70, 0x20, 0x65, 0x78, 
    0x20, 0x65, 0x61, 0x20, 0x63, 0x6f, 0x6d, 0x6d, 
    0x6f, 0x64, 0x6f, 0x20, 0x63, 0x6f, 0x6e, 0x73, 
    0x65, 0x71, 0x75, 0x61, 0x74, 0x2e, 0x20, 0x44, 
    0x75, 0x69, 0x73, 0x20, 0x61, 0x75, 0x74, 0x65, 
    0x20, 0x69, 0x72, 0x75, 0x72, 0x65, 0x20, 0x64, 
    0x6f, 0x6c, 0x6f, 0x72, 0x20, 0x69, 0x6e, 0x20, 
    0x72, 0x65, 0x70, 0x72, 0x65, 0x68, 0x65, 0x6e, 
    0x64, 0x65, 0x72, 0x69, 0x74, 0x20, 0x69, 0x6e, 
    0x20, 0x76, 0x6f, 0x6c, 0x75, 0x70, 0x74, 0x61, 
    0x74, 0x65, 0x20, 0x76, 0x65, 0x6c, 0x69, 0x74, 
    0x20, 0x65, 0x73, 0x73, 0x65, 0x20, 0x63, 0x69, 
    0x6c, 0x6c, 0x75, 0x6d, 0x20, 0x64, 0x6f, 0x6c, 
    0x6f, 0x72, 0x65, 0x20, 0x65, 0x75, 0x20, 0x66, 
    0x75, 0x67, 0x69, 0x61, 0x74, 0x20, 0x6e, 0x75, 
    0x6c, 0x6c, 0x61, 0x20, 0x70, 0x61, 0x72, 0x69, 
    0x61, 0x74, 0x75, 0x72, 0x2e, 0x20, 0x45, 0x78, 
    0x63, 0x65, 0x70, 0x74, 0x65, 0x75, 0x72, 0x20, 
    0x73, 0x69, 0x6e, 0x74, 0x20, 0x6f, 0x63, 0x63, 
    0x61, 0x65, 0x63, 0x61, 0x74, 0x20, 0x63, 0x75, 
    0x70, 0x69, 0x64, 0x61, 0x74, 0x61, 0x74, 0x20, 
    0x6e, 0x6f, 0x6e, 0x20, 0x70, 0x72, 0x6f, 0x69, 
    0x64, 0x65, 0x6e, 0x74, 0x2c, 0x20, 0x73, 0x75, 
    0x6e, 0x74, 0x20, 0x69, 0x6e, 0x20, 0x63, 0x75, 
    0x6c, 0x70, 0x61, 0x20, 0x71, 0x75, 0x69, 0x20, 
    0x6f, 0x66, 0x66, 0x69, 0x63, 0x69, 0x61, 0x20, 
    0x64, 0x65, 0x73, 0x65, 0x72, 0x75, 0x6e, 0x74, 
    0x20, 0x6d, 0x6f, 0x6c, 0x6c, 0x69, 0x74, 0x20, 
    0x61, 0x6e, 0x69, 0x6d, 0x20, 0x69, 0x64, 0x20, 
    0x65, 0x73, 0x74, 0x20, 0x6c, 0x61, 0x62, 0x6f, 
    0x72, 0x75, 0x6d, 0x2e, 0xa, 0x4c, 0x6f, 0x72, 
    0x65, 0x6d, 0x20, 0x69, 0x70, 0x73, 0x75, 0x6d, 
    0x20, 0x64, 0x6f, 0x6c, 0x6f, 0x72, 0x20, 0x73, 
    0x69, 0x74, 0x20, 0x61, 0x6d, 0x65, 0x74, 0x2c, 
    0x20, 0x63, 0x6f, 0x6e, 0x73, 0x65, 0x63, 0x74, 
    0x65, 0x74, 0x75, 0x72, 0x20, 0x61, 0x64, 0x69, 
    0x70, 0x69, 0x73, 0x69, 0x63, 0x69, 0x6e, 0x67, 
    0x20, 0x65, 0x6c, 0x69, 0x74, 0x2c, 0x20, 0x73, 
    0x65, 0x64, 0x20, 0x64, 0x6f, 0x20, 0x65, 0x69, 
    0x75, 0x73, 0x6d, 0x6f, 0x64, 0x20, 0x74, 0x65, 
    0x6d, 0x70, 0x6f, 0x72, 0x20, 0x69, 0x6e, 0x63, 
    0x69, 0x64, 0x69, 0x64, 0x75, 0x6e, 0x74, 0x20, 
    0x75, 0x74, 0x20, 0x6c, 0x61, 0x62, 0x6f, 0x72, 
    0x65, 0x20, 0x65, 0x74, 0x20, 0x64, 0x6f, 0x6c, 
    0x6f, 0x72, 0x65, 0x20, 0x6d, 0x61, 0x67, 0x6e, 
    0x61, 0x20, 0x61, 0x6c, 0x69, 0x71, 0x75, 0x61, 
    0x2e, 0x20, 0x55, 0x74, 0x20, 0x65, 0x6e, 0x69, 
    0x6d, 0x20, 0x61, 0x64, 0x20, 0x6d, 0x69, 0x6e, 
    0x69, 0x6d, 0x20, 0x76, 0x65, 0x6e, 0x69, 0x61, 
    0x6d, 0x2c, 0x20, 0x71, 0x75, 0x69, 0x73, 0x20, 
    0x6e, 0x6f, 0x73, 0x74, 0x72, 0x75, 0x64, 0x20, 
    0x65, 0x78, 0x65, 0x72, 0x63, 0x69, 0x74, 0x61, 
    0x74, 0x69, 0x6f, 0x6e, 0x20, 0x75, 0x6c, 0x6c, 
    0x61, 0x6d, 0x63, 0x6f, 0x20, 0x6c, 0x61, 0x62, 
    0x6f, 0x72, 0x69, 0x73, 0x20, 0x6e, 0x69, 0x73, 
    0x69, 0x20, 0x75, 0x74, 0x20, 0x61, 0x6c, 0x69, 
    0x71, 0x75, 0x69, 0x70, 0x20, 0x65, 0x78, 0x20, 
    0x65, 0x61, 0x20, 0x63, 0x6f, 0x6d, 0x6d, 0x6f, 
    0x64, 0x6f, 0x20, 0x63, 0x6f, 0x6e, 0x73, 0x65, 
    0x71, 0x75, 0x61, 0x74, 0x2e, 0x20, 0x44, 0x75, 
    0x69, 0x73, 0x20, 0x61, 0x75, 0x74, 0x65, 0x20, 
    0x69, 0x72, 0x75, 0x72, 0x65, 0x20, 0x64, 0x6f, 
    0x6c, 0x6f, 0x72, 0x20, 0x69, 0x6e, 0x20, 0x72, 
    0x65, 0x70, 0x72, 0x65, 0x68, 0x65, 0x6e, 0x64, 
    0x65, 0x72, 0x69, 0x74, 0x20, 0x69, 0x6e, 0x20, 
    0x76, 0x6f, 0x6c, 0x75, 0x70, 0x74, 0x61, 0x74, 
    0x65, 0x20, 0x76, 0x65, 0x6c, 0x69, 0x74, 0x20, 
    0x65, 0x73, 0x73, 0x65, 0x20, 0x63, 0x69, 0x6c, 
    0x6c, 0x75, 0x6d, 0x20, 0x64, 0x6f, 0x6c, 0x6f, 
    0x72, 0x65, 0x20, 0x65, 0x75, 0x20, 0x66, 0x75, 
    0x67, 0x69, 0x61, 0x74, 0x20, 0x6e, 0x75, 0x6c, 
    0x6c, 0x61, 0x20, 0x70, 0x61, 0x72, 0x69, 0x61, 
    0x74, 0x75, 0x72, 0x2e, 0x20, 0x45, 0x78, 0x63, 
    0x65, 0x70, 0x74, 0x65, 0x75, 0x72, 0x20, 0x73, 
    0x69, 0x6e, 0x74, 0x20, 0x6f, 0x63, 0x63, 0x61, 
    0x65, 0x63, 0x61, 0x74, 0x20, 0x63, 0x75, 0x70, 
    0x69, 0x64, 0x61, 0x74, 0x61, 0x74, 0x20, 0x6e, 
    0x6f, 0x6e, 0x20, 0x70, 0x72, 0x6f, 0x69, 0x64, 
    0x65, 0x6e, 0x74, 0x2c, 0x20, 0x73, 0x75, 0x6e, 
    0x74, 0x20, 0x69, 0x6e, 0x20, 0x63, 0x75, 0x6c, 
    0x70, 0x61, 0x20, 0x71, 0x75, 0x69, 0x20, 0x6f, 
    0x66, 0x66, 0x69, 0x63, 0x69, 0x61, 0x20, 0x64, 
    0x65, 0x73, 0x65, 0x72, 0x75, 0x6e, 0x74, 0x20, 
    0x6d, 0x6f, 0x6c, 0x6c, 0x69, 0x74, 0x20, 0x61, 
    0x6e, 0x69, 0x6d, 0x20, 0x69, 0x64, 0x20, 0x65, 
    0x73, 0x74, 0x20, 0x6c, 0x61, 0x62, 0x6f, 0x72, 
    0x75, 0x6d, 0x2e, 0xa, 0x4c, 0x6f, 0x72, 0x65, 
    0x6d, 0x20, 0x69, 0x70, 0x73, 0x75, 0x6d, 0x20, 
    0x64, 0x6f, 0x6c, 0x6f, 0x72, 0x20, 0x73, 0x69, 
    0x74, 0x20, 0x61, 0x6d, 0x65, 0x74, 0x2c, 0x20, 
    0x63, 0x6f, 0x6e, 0x73, 0x65, 0x63, 0x74, 0x65, 
    0x74, 0x75, 0x72, 0x20, 0x61, 0x64, 0x69, 0x70, 
    0x69, 0x73, 0x69, 0x63, 0x69, 0x6e, 0x67, 0x20, 
    0x65, 0x6c, 0x69, 0x74, 0x2c, 0x20, 0x73, 0x65, 
    0x64, 0x20, 0x64, 0x6f, 0x20, 0x65, 0x69, 0x75, 
    0x73, 0x6d, 0x6f, 0x64, 0x20, 0x74, 0x65, 0x6d, 
    0x70, 0x6f, 0x72, 0x20, 0x69, 0x6e, 0x63, 0x69, 
    0x64, 0x69, 0x64, 0x75, 0x6e, 0x74, 0x20, 0x75, 
    0x74, 0x20, 0x6c, 0x61, 0x62, 0x6f, 0x72, 0x65, 
    0x20, 0x65, 0x74, 0x20, 0x64, 0x6f, 0x6c, 0x6f, 
    0x72, 0x65, 0x20, 0x6d, 0x61, 0x67, 0x6e, 0x61, 
    0x20, 0x61, 0x6c, 0x69, 0x71, 0x75, 0x61, 0x2e, 
    0x20, 0x55, 0x74, 0x20, 0x65, 0x6e, 0x69, 0x6d, 
    0x20, 0x61, 0x64, 0x20, 0x6d, 0x69, 0x6e, 0x69, 
    0x6d, 0x20, 0x76, 0x65, 0x6e, 0x69, 0x61, 0x6d, 
    0x2c, 0x20, 0x71, 0x75, 0x69, 0x73, 0x20, 0x6e, 
    0x6f, 0x73, 0x74, 0x72, 0x75, 0x64, 0x20, 0x65, 
    0x78, 0x65, 0x72, 0x63, 0x69, 0x74, 0x61, 0x74, 
    0x69, 0x6f, 0x6e, 0x20, 0x75, 0x6c, 0x6c, 0x61, 
    0x6d, 0x63, 0x6f, 0x20, 0x6c, 0x61, 0x62, 0x6f, 
    0x72, 0x69, 0x73, 0x20, 0x6e, 0x69, 0x73, 0x69, 
    0x20, 0x75, 0x74, 0x20, 0x61, 0x6c, 0x69, 0x71, 
    0x75, 0x69, 0x70, 0x20, 0x65, 0x78, 0x20, 0x65, 
    0x61, 0x20, 0x63, 0x6f, 0x6d, 0x6d, 0x6f, 0x64, 
    0x6f, 0x20, 0x63, 0x6f, 0x6e, 0x73, 0x65, 0x71, 
    0x75, 0x61, 0x74, 0x2e, 0x20, 0x44, 0x75, 0x69, 
    0x73, 0x20, 0x61, 0x75, 0x74, 0x65, 0x20, 0x69, 
    0x72, 0x75, 0x72, 0x65, 0x20, 0x64, 0x6f, 0x6c, 
    0x6f, 0x72, 0x20, 0x69, 0x6e, 0x20, 0x72, 0x65, 
    0x70, 0x72, 0x65, 0x68, 0x65, 0x6e, 0x64, 0x65, 
    0x72, 0x69, 0x74, 0x20, 0x69, 0x6e, 0x20, 0x76, 
    0x6f, 0x6c, 0x75, 0x70, 0x74, 0x61, 0x74, 0x65, 
    0x20, 0x76, 0x65, 0x6c, 0x69, 0x74, 0x20, 0x65, 
    0x73, 0x73, 0x65, 0x20, 0x63, 0x69, 0x6c, 0x6c, 
    0x75, 0x6d, 0x20, 0x64, 0x6f, 0x6c, 0x6f, 0x72, 
    0x65, 0x20, 0x65, 0x75, 0x20, 0x66, 0x75, 0x67, 
    0x69, 0x61, 0x74, 0x20, 0x6e, 0x75, 0x6c, 0x6c, 
    0x61, 0x20, 0x70, 0x61, 0x72, 0x69, 0x61, 0x74, 
    0x75, 0x72, 0x2e, 0x20, 0x45, 0x78, 0x63, 0x65, 
    0x70, 0x74, 0x65, 0x75, 0x72, 0x20, 0x73, 0x69, 
    0x6e, 0x74, 0x20, 0x6f, 0x63, 0x63, 0x61, 0x65, 
    0x63, 0x61, 0x74, 0x20, 0x63, 0x75, 0x70, 0x69, 
    0x64, 0x61, 0x74, 0x61, 0x74, 0x20, 0x6e, 0x6f, 
    0x6e, 0x20, 0x70, 0x72, 0x6f, 0x69, 0x64, 0x65, 
    0x6e, 0x74, 0x2c, 0x20, 0x73, 0x75, 0x6e, 0x74, 
    0x20, 0x69, 0x6e, 0x20, 0x63, 0x75, 0x6c, 0x70, 
    0x61, 0x20, 0x71, 0x75, 0x69, 0x20, 0x6f, 0x66, 
    0x66, 0x69, 0x63, 0x69, 0x61, 0x20, 0x64, 0x65, 
    0x73, 0x65, 0x72, 0x75, 0x6e, 0x74, 0x20, 0x6d, 
    0x6f, 0x6c, 0x6c, 0x69, 0x74, 0x20, 0x61, 0x6e, 
    0x69, 0x6d, 0x20, 0x69, 0x64, 0x20, 0x65, 0x73, 
    0x74, 0x20, 0x6c, 0x61, 0x62, 0x6f, 0x72, 0x75, 
    0x6d, 0x2e, 0x0, 0x0, 0x0, 0x0, 0x0, 0x0, 
    0x0, 0x0, 0x0, 0x0, 0x0, 0x0, 0x0, 0x0, 
    0x0, 0x0, 0x0, 0x0, 0x0, 0x0, 0x0, 0x0, 
    0x0, 0x0, 0x0, 0x0, 0x0, 0x0, 0x0, 0x0, 
    0x0, 0x0, 0x0, 0x0, 0x0, 0x0, 0x0, 0x0, 
    0x0, 0x0, 0x0, 0x0, 0x0, 0x0, 0x0, 0x0, 
    0x0, 0x0, 0x0, 0x0, 0x0, 0x0, 0x0, 0x0, 
    0x0, 0x0, 0x0, 0x0, 0x0, 0x0, 0x0, 0x0, 
    0x0, 0x0, 0x0, 0x0, 0x0, 0x0, 0x0, 0x0, 
    0x0, 0x0, 0x0, 0x0, 0x0, 0x0, 0x0, 0x0, 
    0x0, 0x0, 0x0, 0x0, 0x0, 0x0, 0x0, 0x0, 
    0x0, 0x0, 0x0, 0x0, 0x0, 0x0, 0x0, 0x0, 
    0x0, 0x0, 0x0, 0x0, 0x0, 0x0, 0x0, 0x0, 
    0x0, 0x0, 0x0, 0x0, 0x0, 0x0, 0x0, 0x0, 
    0x0, 0x0, 0x0, 0x0, 0x0, 0x0, 0x0, 0x0, 
    0x0, 0x0, 0x0, 0x0, 0x0, 0x0, 0x0, 0x0, 
    0x0, 0x0, 0x0, 0x0, 0x0, 0x0, 0x0, 0x0, 
    0x0, 0x0, 0x0, 0x0, 0x0, 0x0, 0x0, 0x0, 
    0x0, 0x0, 0x0, 0x0, 0x0, 0x0, 0x0, 0x0, 
    0x0, 0x0, 0x0, 0x0, 0x0, 0x0, 0x0, 0x0, 
    0x0, 0x0, 0x0, 0x0, 0x0, 0x0, 0x0, 0x0, 
    0x0, 0x0, 0x0, 0x0, 0x0, 0x0, 0x0, 0x0, 
    0x0, 0x0, 0x0, 0x0, 0x0, 0x0, 0x0, 0x0, 
    0x0, 0x0, 0x0, 0x0, 0x0, 0x0, 0x0, 0x0, 
    0x0, 0x0, 0x0, 0x0, 0x0, 0x0, 0x0, 0x0, 
    0x0, 0x0, 0x0, 0x0, 0x0, 0x0, 0x0, 0x0, 
    0x0, 0x0, 0x0, 0x0, 0x0, 0x0, 0x0, 0x0, 
    0x0, 0x0, 0x0, 0x0, 0x0, 0x0, 0x0, 0x0, 
    0x0, 0x0, 0x0, 0x0, 0x0, 0x0, 0x0, 0x0, 
    0x0, 0x0, 0x0, 0x0, 0x0, 0x0, 0x0, 0x0, 
    0x0, 0x0, 0x0, 0x0, 0x0, 0x0, 0x0, 0x0, 
    0x0, 0x0, 0x0, 0x0, 0x0, 0x0, 0x0, 0x0, 
    0x0, 0x0, 0x0, 0x0, 0x0, 0x0, 0x0, 0x0, 
    0x0, 0x0, 0x0, 0x0, 0x0, 0x0, 0x0, 0x0, 
    0x0, 0x0, 0x0, 0x0, 0x0, 0x0, 0x0, 0x0, 
    0x0, 0x0, 0x0, 0x0, 0x0, 0x0, 0x0, 0x0, 
    0x0, 0x0, 0x0, 0x0, 0x0, 0x0, 0x0, 0x0, 
    0x0, 0x0, 0x0, 0x0, 0x0, 0x0, 0x0, 0x0, 
    0x0, 0x0, 0x0, 0x0, 0x0, 0x0, 0x0, 0x0, 
    0x0, 0x0, 0x0, 0x0, 0x0, 0x0, 0x0, 0x0, 
    0x0, 0x0, 0x0, 0x0, 0x0, 0x0, 0x0, 0x0, 
];
