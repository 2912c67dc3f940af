use regenkfs::arith::div_rem;
use regenkfs::bytes::{append_bytes, push_le16, push_le24, reversed, write_bytes};
use regenkfs::context::Context;
use regenkfs::entry::{build_dir_entry, build_file_entry, build_symlink_entry};
use regenkfs::error::KfsError;
use regenkfs::layout::{
    fat_start_for, index_of, page_of, BLOCK_SIZE, DAT_START, KFS_DIR_ID, KFS_FILE_ID, KFS_SYM_ID,
    KFS_VERSION, LAST_INDEX, NO_SECTION, PAGE_LENGTH,
};
use regenkfs::model::Node;
use regenkfs::order::{name_le_exec, sort_children};

const PAGE: usize = 0x4000;

fn blank(pages: usize) -> Vec<u8> {
    vec![0x11u8; pages * PAGE]
}

#[test]
fn div_rem_divides() {
    assert_eq!(div_rem(0u32, 0x4000u32), (0, 0));
    assert_eq!(div_rem(0x4000u32, 0x4000u32), (1, 0));
    assert_eq!(div_rem(0x4001u32, 0x4000u32), (1, 1));
    assert_eq!(div_rem(100u64, 7u64), (14, 2));
    assert_eq!(div_rem(-7i32, 2i32), (-3, -1));
}

#[test]
fn constants_of_the_format() {
    assert_eq!(PAGE_LENGTH, 0x4000);
    assert_eq!(BLOCK_SIZE, 0x100);
    assert_eq!(KFS_FILE_ID, 0x7F);
    assert_eq!(KFS_DIR_ID, 0xBF);
    assert_eq!(KFS_SYM_ID, 0xDF);
    assert_eq!(KFS_VERSION, 0);
    assert_eq!(DAT_START, 4);
    assert_eq!(LAST_INDEX, 0x3F);
    assert_eq!(NO_SECTION, 0xFFFF);
}

#[test]
fn fat_start_from_length() {
    assert_eq!(fat_start_for(0), Err(KfsError::InvalidLayout));
    assert_eq!(fat_start_for(13 * 16384 - 1), Err(KfsError::InvalidLayout));
    assert_eq!(fat_start_for(13 * 16384), Ok(4));
    assert_eq!(fat_start_for(14 * 16384 - 1), Ok(4));
    assert_eq!(fat_start_for(0x80000), Ok(23));
    assert_eq!(fat_start_for(264 * 16384), Ok(255));
    assert_eq!(fat_start_for(265 * 16384 - 1), Ok(255));
    assert_eq!(fat_start_for(265 * 16384), Err(KfsError::InvalidLayout));
    assert_eq!(fat_start_for(u64::MAX), Err(KfsError::InvalidLayout));
}

#[test]
fn section_identifier_parts() {
    assert_eq!(page_of(0x0401), 4);
    assert_eq!(index_of(0x0401), 1);
    assert_eq!(page_of(0xFF3F), 0xFF);
    assert_eq!(index_of(0xFF3F), 0x3F);
    assert_eq!(page_of(0), 0);
    assert_eq!(index_of(0xFFFF), 0xFF);
}

#[test]
fn bytes_are_copied_in_place() {
    let mut dst = vec![0u8; 8];
    write_bytes(&mut dst, 2, &vec![1, 2, 3, 4, 5], 1, 3);
    assert_eq!(dst, vec![0, 0, 2, 3, 4, 0, 0, 0]);
    write_bytes(&mut dst, 7, &vec![9], 0, 1);
    assert_eq!(dst, vec![0, 0, 2, 3, 4, 0, 0, 9]);
    write_bytes(&mut dst, 0, &vec![9], 1, 0);
    assert_eq!(dst, vec![0, 0, 2, 3, 4, 0, 0, 9]);
}

#[test]
fn bytes_are_appended() {
    let mut dst = vec![1u8];
    append_bytes(&mut dst, &vec![2, 3]);
    push_le16(&mut dst, 0x1234);
    push_le24(&mut dst, 0x56789A);
    push_le24(&mut dst, 0xFF00_0001);
    assert_eq!(dst, vec![1, 2, 3, 0x34, 0x12, 0x9A, 0x78, 0x56, 0x01, 0x00, 0x00]);
    assert_eq!(reversed(&dst), vec![0x00, 0x00, 0x01, 0x56, 0x78, 0x9A, 0x12, 0x34, 3, 2, 1]);
    assert_eq!(reversed(&Vec::new()), Vec::<u8>::new());
}

#[test]
fn entries_are_built() {
    assert_eq!(
        build_file_entry(0x0102, 0x030405, 0x0607, &b"ab".to_vec()),
        vec![0x7F, 11, 0, 0x02, 0x01, 0xFF, 0x05, 0x04, 0x03, 0x07, 0x06, b'a', b'b', 0]
    );
    assert_eq!(
        build_dir_entry(0x0102, 0x0304, &b"abc".to_vec()),
        vec![0xBF, 9, 0, 0x02, 0x01, 0x04, 0x03, 0xFF, b'a', b'b', b'c', 0]
    );
    assert_eq!(
        build_symlink_entry(0x0102, &b"ab".to_vec(), &b"xyz".to_vec()),
        vec![0xDF, 10, 0, 0x02, 0x01, 3, b'a', b'b', b'x', b'y', b'z', 0, 0]
    );
    assert_eq!(build_dir_entry(0, 1, &Vec::new()), vec![0xBF, 6, 0, 0, 0, 1, 0, 0xFF, 0]);
    let long = build_file_entry(0, 0, 0x0401, &vec![b'n'; 300]);
    assert_eq!(long.len(), 312);
    assert_eq!(&long[1..3], &[0x35, 0x01]);
}

#[test]
fn names_are_compared_byte_by_byte() {
    let le = |a: &str, b: &str| name_le_exec(&a.as_bytes().to_vec(), &b.as_bytes().to_vec());
    assert!(le("", ""));
    assert!(le("", "a"));
    assert!(!le("a", ""));
    assert!(le("a", "a"));
    assert!(le("a", "ab"));
    assert!(!le("ab", "a"));
    assert!(le("ab", "b"));
    assert!(!le("b", "ab"));
    assert!(le("B", "a"));
    assert!(!le("a", "B"));
    assert!(name_le_exec(&vec![0x7F], &vec![0x80]));
    assert!(!name_le_exec(&vec![0xFF], &vec![0x00, 0x01]));
}

#[test]
fn children_are_sorted_by_name() {
    let file = |n: &str| Node::File { name: n.as_bytes().to_vec(), data: Vec::new() };
    assert_eq!(sort_children(&Vec::new()), Vec::<usize>::new());
    assert_eq!(sort_children(&vec![file("x")]), vec![0]);
    let nodes = vec![file("pear"), file("apple"), file("fig"), file("apple"), file("app"), file("")];
    assert_eq!(sort_children(&nodes), vec![5, 4, 1, 3, 2, 0]);
    assert_eq!(nodes[2].name(), &b"fig".to_vec());
    let dir = Node::Dir { name: b"d".to_vec(), children: Vec::new() };
    assert_eq!(dir.name(), &b"d".to_vec());
    let link = Node::Symlink { name: b"l".to_vec(), target: b"t".to_vec() };
    assert_eq!(link.name(), &b"l".to_vec());
}

#[test]
fn fat_writer_packs_downward() {
    let mut ctx = Context::new(blank(16)).unwrap();
    assert_eq!(ctx.fat_start(), 7);
    assert_eq!(ctx.fatptr(), 8 * 0x4000);
    assert_eq!(ctx.write_fat(&vec![1, 2, 3]), Ok(()));
    assert_eq!(ctx.fatptr(), 8 * 0x4000 - 3);
    assert_eq!(ctx.write_fat(&vec![4, 5]), Ok(()));
    assert_eq!(ctx.fatptr(), 8 * 0x4000 - 5);
    assert_eq!(ctx.write_fat(&Vec::new()), Ok(()));
    assert_eq!(ctx.fatptr(), 8 * 0x4000 - 5);
    assert_eq!(ctx.section_id(), 0x0401);
    assert_eq!(ctx.parent_id(), 0);
    assert_eq!(&ctx.rom()[8 * PAGE - 6..8 * PAGE], &[0x11, 4, 5, 1, 2, 3]);

    // down to the end of the page of the next free section, and no further
    let room = 8 * PAGE - 5 - 5 * PAGE;
    assert_eq!(ctx.write_fat(&vec![9u8; room + 1]), Err(KfsError::OutOfSpace));
    assert_eq!(ctx.fatptr(), 8 * 0x4000 - 5);
    assert_eq!(ctx.rom()[8 * PAGE - 6], 0x11);
    assert_eq!(ctx.write_fat(&vec![9u8; room]), Ok(()));
    assert_eq!(ctx.fatptr(), 5 * 0x4000);
    assert_eq!(ctx.rom()[5 * PAGE], 9);
    assert_eq!(ctx.rom()[5 * PAGE - 1], 0x11);
    assert_eq!(ctx.write_fat(&vec![1]), Err(KfsError::OutOfSpace));
}

#[test]
fn block_writer_copies_one_block() {
    let mut data: Vec<u8> = Vec::new();
    for i in 0..600usize {
        data.push((i % 200) as u8 + 20);
    }
    let mut ctx = Context::new(blank(16)).unwrap();
    ctx.write_block(&data, 0, 0x0502);
    assert_eq!(&ctx.rom()[5 * PAGE + 0x200..5 * PAGE + 0x300], &data[..256]);
    assert_eq!(ctx.rom()[5 * PAGE + 0x300], 0x11);
    assert_eq!(ctx.rom()[5 * PAGE + 0x1FF], 0x11);
    ctx.write_block(&data, 512, 0x043F);
    assert_eq!(&ctx.rom()[4 * PAGE + 0x3F00..4 * PAGE + 0x3F00 + 88], &data[512..]);
    assert_eq!(ctx.rom()[4 * PAGE + 0x3F00 + 88], 0x11);
    ctx.write_block(&data, 600, 0x0401);
    assert_eq!(ctx.rom()[4 * PAGE + 0x100], 0x11);
    assert_eq!(ctx.section_id(), 0x0401);
    assert_eq!(ctx.fatptr(), 8 * 0x4000);
}

#[test]
fn dat_writer_chains_sections() {
    let mut data: Vec<u8> = Vec::new();
    for i in 0..(0x3F * 256 + 300usize) {
        data.push((i % 199) as u8 + 30);
    }
    let mut ctx = Context::new(blank(16)).unwrap();
    assert_eq!(ctx.write_dat(&data), Ok(()));
    assert_eq!(ctx.section_id(), 0x0503);
    assert_eq!(ctx.fatptr(), 8 * 0x4000);
    let rom = ctx.rom();
    assert_eq!(&rom[4 * PAGE + 4..4 * PAGE + 8], &[0xFF, 0x7F, 0x02, 0x04]);
    assert_eq!(&rom[4 * PAGE + 8..4 * PAGE + 12], &[0x01, 0x04, 0x03, 0x04]);
    assert_eq!(&rom[4 * PAGE + 0xFC..4 * PAGE + 0x100], &[0x3E, 0x04, 0x01, 0x05]);
    assert_eq!(&rom[5 * PAGE..5 * PAGE + 4], b"KFS\xFF");
    assert_eq!(&rom[5 * PAGE + 4..5 * PAGE + 8], &[0x3F, 0x04, 0x02, 0x05]);
    assert_eq!(&rom[5 * PAGE + 8..5 * PAGE + 12], &[0x01, 0x05, 0xFF, 0xFF]);
    assert_eq!(&rom[4 * PAGE + 0x100..5 * PAGE], &data[..0x3F * 256]);
    assert_eq!(&rom[5 * PAGE + 0x100..5 * PAGE + 0x200], &data[0x3F * 256..0x3F * 256 + 256]);
    assert_eq!(&rom[5 * PAGE + 0x200..5 * PAGE + 0x200 + 44], &data[0x3F * 256 + 256..]);
    assert_eq!(rom[5 * PAGE + 0x200 + 44], 0x11);
    // page 4 was not given a magic by the DAT writer
    assert_eq!(&rom[4 * PAGE..4 * PAGE + 4], &[0x11; 4]);

    // an empty file moves nothing
    assert_eq!(ctx.write_dat(&Vec::new()), Ok(()));
    assert_eq!(ctx.section_id(), 0x0503);
}

#[test]
fn dat_writer_marks_high_pages_as_used() {
    // the section before is stored with its high bit cleared
    let mut ctx = Context::new(vec![0u8; 200 * PAGE]).unwrap();
    let data = vec![5u8; (0x80 - 4) * 0x3F * 256 + 2 * 256];
    assert_eq!(ctx.write_dat(&data), Ok(()));
    assert_eq!(ctx.section_id(), 0x8003);
    let rom = ctx.rom();
    assert_eq!(&rom[0x80 * PAGE + 4..0x80 * PAGE + 8], &[0x3F, 0x7F, 0x02, 0x80]);
    assert_eq!(&rom[0x80 * PAGE + 8..0x80 * PAGE + 12], &[0x01, 0x00, 0xFF, 0xFF]);
}

#[test]
fn dat_writer_stops_at_the_fat() {
    let mut ctx = Context::new(blank(16)).unwrap();
    assert_eq!(ctx.write_fat(&vec![3u8; 2 * PAGE]), Ok(()));
    // pages 4 and 5 are left to the DAT
    assert_eq!(ctx.write_dat(&vec![1u8; 0x3F * 256]), Ok(()));
    assert_eq!(ctx.section_id(), 0x0501);
    assert_eq!(ctx.write_dat(&vec![2u8; 0x3E * 256]), Ok(()));
    assert_eq!(ctx.section_id(), 0x053F);
    assert_eq!(ctx.write_dat(&vec![4u8; 1]), Err(KfsError::OutOfSpace));
    assert_eq!(ctx.section_id(), 0x053F);
    assert_eq!(ctx.rom()[5 * PAGE + 0x3F00], 0x11);
    assert_eq!(ctx.rom()[6 * PAGE - 1], 0x11);
    assert_eq!(ctx.rom()[6 * PAGE], 3);
    assert_eq!(&ctx.rom()[5 * PAGE..5 * PAGE + 4], b"KFS\xFF");

    // one byte more of FAT, and the second page cannot be opened
    let mut ctx = Context::new(blank(16)).unwrap();
    assert_eq!(ctx.write_fat(&vec![3u8; 2 * PAGE + 1]), Ok(()));
    assert_eq!(ctx.write_dat(&vec![1u8; 0x3E * 256]), Ok(()));
    assert_eq!(ctx.write_dat(&vec![1u8; 1]), Err(KfsError::OutOfSpace));
    assert_eq!(ctx.section_id(), 0x043F);
}

#[test]
fn single_items_are_written() {
    let mut ctx = Context::new(blank(16)).unwrap();
    assert_eq!(ctx.write_dir_entry(0, &b"d".to_vec()), Ok(()));
    assert_eq!(ctx.parent_id(), 1);
    assert_eq!(ctx.write_symlink(1, &b"l".to_vec(), &b"t".to_vec()), Ok(()));
    assert_eq!(ctx.parent_id(), 1);
    assert_eq!(ctx.write_file(1, &b"f".to_vec(), &vec![8, 9]), Ok(()));
    assert_eq!(ctx.section_id(), 0x0402);
    assert_eq!(ctx.fatptr(), 8 * 0x4000 - 10 - 10 - 13);
    let rom = ctx.rom();
    let mut all: Vec<u8> = rom[8 * PAGE - 33..8 * PAGE].to_vec();
    all.reverse();
    assert_eq!(
        all,
        vec![
            0xBF, 7, 0, 0, 0, 1, 0, 0xFF, b'd', 0, 0xDF, 7, 0, 1, 0, 2, b'l', b't', 0, 0, 0x7F, 10,
            0, 1, 0, 0xFF, 2, 0, 0, 0x01, 0x04, b'f', 0,
        ]
    );
    assert_eq!(&rom[4 * PAGE + 0x100..4 * PAGE + 0x102], &[8, 9]);
}

#[test]
fn nodes_are_written_with_what_they_hold() {
    let tree = Node::Dir {
        name: b"d".to_vec(),
        children: vec![
            Node::File { name: b"z".to_vec(), data: vec![1] },
            Node::Dir { name: b"a".to_vec(), children: Vec::new() },
        ],
    };
    let mut ctx = Context::new(blank(16)).unwrap();
    assert_eq!(ctx.write_node(&tree, 0), Ok(()));
    assert_eq!(ctx.parent_id(), 2);
    assert_eq!(ctx.section_id(), 0x0402);
    let mut all: Vec<u8> = ctx.rom()[8 * PAGE - 33..8 * PAGE].to_vec();
    all.reverse();
    assert_eq!(
        all,
        vec![
            0xBF, 7, 0, 0, 0, 1, 0, 0xFF, b'd', 0, 0xBF, 7, 0, 1, 0, 2, 0, 0xFF, b'a', 0, 0x7F, 10,
            0, 1, 0, 0xFF, 1, 0, 0, 0x01, 0x04, b'z', 0,
        ]
    );

    // the children of a directory are held by the last number given out
    let mut ctx = Context::new(blank(16)).unwrap();
    assert_eq!(ctx.write_dir_entry(0, &b"p".to_vec()), Ok(()));
    assert_eq!(ctx.write_recursive(&vec![Node::Symlink { name: b"s".to_vec(), target: Vec::new() }]), Ok(()));
    let mut link: Vec<u8> = ctx.rom()[8 * PAGE - 20..8 * PAGE - 10].to_vec();
    link.reverse();
    assert_eq!(link, vec![0xDF, 6, 0, 1, 0, 2, b's', 0, 0, 0x11]);
}

#[test]
fn pages_are_swept() {
    let mut ctx = Context::new(blank(20)).unwrap();
    ctx.init_pages();
    assert_eq!(ctx.fat_start(), 11);
    let rom = ctx.rom();
    for p in 0..20usize {
        for i in [0usize, 1, 2, 3, 4, 255, 256, PAGE - 1] {
            let want = if p < 4 || p > 11 {
                0x11
            } else if i == 0 && p <= 7 {
                b'K'
            } else {
                0xFF
            };
            assert_eq!(rom[p * PAGE + i], want, "page {} offset {}", p, i);
        }
    }
}

#[test]
fn filesystem_writer_resets_the_cursors() {
    let mut ctx = Context::new(blank(20)).unwrap();
    assert_eq!(ctx.write_fat(&vec![1, 2, 3]), Ok(()));
    assert_eq!(ctx.write_dat(&vec![1, 2, 3]), Ok(()));
    assert_eq!(ctx.write_dir_entry(0, &b"d".to_vec()), Ok(()));
    let model = vec![Node::File { name: b"f".to_vec(), data: vec![0x42] }];
    assert_eq!(ctx.write_filesystem(&model), Ok(0x0101));
    assert_eq!(ctx.parent_id(), 0);
    assert_eq!(ctx.section_id(), 0x0402);
    assert_eq!(ctx.fatptr(), 12 * 0x4000 - 13);
    let rom = ctx.rom();
    // no sweep: only the magic, the header, the block and the entry are new
    assert_eq!(&rom[4 * PAGE..4 * PAGE + 4], &[b'K', b'F', b'S', 0x11]);
    assert_eq!(&rom[4 * PAGE + 4..4 * PAGE + 8], &[0xFF, 0x7F, 0xFF, 0xFF]);
    assert_eq!(&rom[4 * PAGE + 0x100..4 * PAGE + 0x102], &[0x42, 2]);
    assert_eq!(rom[12 * PAGE - 1], 0x7F);
}
