use regenkfs::context::Context;
use regenkfs::error::KfsError;
use regenkfs::model::Node;

const PAGE: usize = 0x4000;

fn rom_of(pages: usize) -> Vec<u8> {
    let mut rom: Vec<u8> = Vec::with_capacity(pages * PAGE);
    for i in 0..pages * PAGE {
        rom.push((i % 251) as u8);
    }
    rom
}

fn file(name: &str, data: Vec<u8>) -> Node {
    Node::File { name: name.as_bytes().to_vec(), data }
}

fn dir(name: &str, children: Vec<Node>) -> Node {
    Node::Dir { name: name.as_bytes().to_vec(), children }
}

fn link(name: &str, target: &str) -> Node {
    Node::Symlink { name: name.as_bytes().to_vec(), target: target.as_bytes().to_vec() }
}

fn pattern(len: usize, seed: u8) -> Vec<u8> {
    let mut v: Vec<u8> = Vec::with_capacity(len);
    for i in 0..len {
        v.push(((i * 7 + seed as usize) % 253) as u8);
    }
    v
}

/// The entry that ends just below `top`, read in its natural order.
fn entry_below(rom: &[u8], top: usize, len: usize) -> Vec<u8> {
    let mut e: Vec<u8> = Vec::new();
    for i in 0..len {
        e.push(rom[top - 1 - i]);
    }
    e
}

fn run(pages: usize, model: Vec<Node>) -> (Vec<u8>, Result<u16, KfsError>, u8) {
    let mut ctx = match Context::new(rom_of(pages)) {
        Ok(c) => c,
        Err(e) => panic!("layout refused: {:?}", e),
    };
    let res = ctx.run(&model);
    let fat_start = ctx.fat_start();
    (ctx.into_rom(), res, fat_start)
}

#[test]
fn empty_model_blanks_the_region() {
    let before = rom_of(32);
    let (rom, res, fat_start) = run(32, Vec::new());
    assert_eq!(fat_start, 23);
    assert_eq!(res, Ok(0x0001));
    assert_eq!(&rom[4 * PAGE..4 * PAGE + 3], b"KFS");
    assert_eq!(rom[4 * PAGE + 3], 0xFF);
    for p in 4..=23usize {
        let first = if p == 4 {
            b'K'
        } else if p <= 23 - 4 {
            b'K'
        } else {
            0xFF
        };
        assert_eq!(rom[p * PAGE], first, "page {}", p);
        let from = if p == 4 { 3 } else { 1 };
        for i in from..PAGE {
            assert_eq!(rom[p * PAGE + i], 0xFF, "page {} offset {}", p, i);
        }
    }
    assert_eq!(&rom[..4 * PAGE], &before[..4 * PAGE]);
    assert_eq!(&rom[24 * PAGE..], &before[24 * PAGE..]);
}

#[test]
fn single_small_file() {
    let data = pattern(100, 3);
    let (rom, res, fat_start) = run(32, vec![file("a.txt", data.clone())]);
    assert_eq!(res, Ok(0x0101));
    let top = (fat_start as usize + 1) * PAGE;
    let entry = entry_below(&rom, top, 17);
    let mut expected: Vec<u8> = vec![0x7F, 0x0E, 0x00, 0x00, 0x00, 0xFF, 0x64, 0x00, 0x00, 0x01, 0x04];
    expected.extend_from_slice(b"a.txt");
    expected.push(0x00);
    assert_eq!(entry, expected);
    assert_eq!(rom[top - 18], 0xFF);
    assert_eq!(&rom[0x10004..0x10008], &[0xFF, 0x7F, 0xFF, 0xFF]);
    assert_eq!(&rom[0x10100..0x10164], &data[..]);
    assert_eq!(rom[0x10164], 0xFF);
}

#[test]
fn rollover_to_the_next_dat_page() {
    let big = pattern(0x3F * 256, 1);
    let one = vec![0xA5u8];
    let (rom, res, fat_start) = run(32, vec![file("b", one.clone()), file("a", big.clone())]);
    assert_eq!(res, Ok(0x0102));
    let top = (fat_start as usize + 1) * PAGE;
    let first = entry_below(&rom, top, 13);
    assert_eq!(first, vec![0x7F, 0x0A, 0x00, 0x00, 0x00, 0xFF, 0x00, 0x3F, 0x00, 0x01, 0x04, b'a', 0x00]);
    let second = entry_below(&rom, top - 13, 13);
    assert_eq!(second, vec![0x7F, 0x0A, 0x00, 0x00, 0x00, 0xFF, 0x01, 0x00, 0x00, 0x01, 0x05, b'b', 0x00]);
    assert_eq!(&rom[0x14000..0x14004], &[b'K', b'F', b'S', 0xFF]);
    assert_eq!(&rom[0x14004..0x14008], &[0xFF, 0x7F, 0xFF, 0xFF]);
    assert_eq!(rom[0x14100], 0xA5);
    assert_eq!(rom[0x14101], 0xFF);
    // the last section of the first page closes the first chain
    assert_eq!(&rom[0x10000 + 0x3F * 4..0x10000 + 0x3F * 4 + 4], &[0x3E, 0x04, 0xFF, 0xFF]);
    assert_eq!(&rom[0x10000 + 0x3F * 256..0x14000], &big[0x3E * 256..]);
}

#[test]
fn nested_directories() {
    let model = vec![dir("d", vec![dir("e", vec![file("f.bin", vec![1, 2, 3])])])];
    let (rom, res, fat_start) = run(32, model);
    assert_eq!(res, Ok(0x0101));
    let top = (fat_start as usize + 1) * PAGE;
    let d = entry_below(&rom, top, 10);
    assert_eq!(d, vec![0xBF, 0x07, 0x00, 0x00, 0x00, 0x01, 0x00, 0xFF, b'd', 0x00]);
    let e = entry_below(&rom, top - 10, 10);
    assert_eq!(e, vec![0xBF, 0x07, 0x00, 0x01, 0x00, 0x02, 0x00, 0xFF, b'e', 0x00]);
    let f = entry_below(&rom, top - 20, 17);
    let mut expected: Vec<u8> = vec![0x7F, 0x0E, 0x00, 0x02, 0x00, 0xFF, 0x03, 0x00, 0x00, 0x01, 0x04];
    expected.extend_from_slice(b"f.bin");
    expected.push(0x00);
    assert_eq!(f, expected);
    assert_eq!(rom[top - 38], 0xFF);
}

#[test]
fn symlink_entry() {
    let (rom, res, fat_start) = run(32, vec![link("link", "../target")]);
    assert_eq!(res, Ok(0x0101));
    let top = (fat_start as usize + 1) * PAGE;
    let entry = entry_below(&rom, top, 21);
    assert_eq!(entry[0], 0xDF);
    assert_eq!(&entry[1..3], &[18, 0]);
    assert_eq!(&entry[3..5], &[0, 0]);
    assert_eq!(entry[5], 5);
    assert_eq!(&entry[6..19], b"link../target");
    assert_eq!(&entry[19..21], &[0, 0]);
    assert_eq!(rom[top - 22], 0xFF);
}

#[test]
fn file_of_exactly_one_block() {
    let data = pattern(256, 9);
    let mut ctx = Context::new(rom_of(32)).unwrap();
    let res = ctx.run(&vec![file("x", data.clone())]);
    assert_eq!(res, Ok(0x0101));
    assert_eq!(ctx.section_id(), 0x0402);
    let rom = ctx.into_rom();
    assert_eq!(&rom[0x10004..0x10008], &[0xFF, 0x7F, 0xFF, 0xFF]);
    assert_eq!(&rom[0x10100..0x10200], &data[..]);
    assert_eq!(&rom[0x10008..0x1000C], &[0xFF, 0xFF, 0xFF, 0xFF]);
}

#[test]
fn two_blocks_are_chained() {
    let data = pattern(300, 5);
    let (rom, res, _) = run(32, vec![file("x", data.clone())]);
    assert_eq!(res, Ok(0x0101));
    assert_eq!(&rom[0x10004..0x10008], &[0xFF, 0x7F, 0x02, 0x04]);
    assert_eq!(&rom[0x10008..0x1000C], &[0x01, 0x04, 0xFF, 0xFF]);
    assert_eq!(&rom[0x10100..0x10200], &data[..256]);
    assert_eq!(&rom[0x10200..0x1022C], &data[256..]);
    assert_eq!(rom[0x1022C], 0xFF);
}

#[test]
fn empty_file_takes_no_section() {
    let mut ctx = Context::new(rom_of(32)).unwrap();
    let res = ctx.run(&vec![file("e", Vec::new()), file("f", vec![7])]);
    assert_eq!(res, Ok(0x0101));
    assert_eq!(ctx.section_id(), 0x0402);
    let top = (ctx.fat_start() as usize + 1) * PAGE;
    let rom = ctx.into_rom();
    let e = entry_below(&rom, top, 13);
    assert_eq!(e, vec![0x7F, 0x0A, 0x00, 0x00, 0x00, 0xFF, 0x00, 0x00, 0x00, 0x01, 0x04, b'e', 0x00]);
    let f = entry_below(&rom, top - 13, 13);
    assert_eq!(f, vec![0x7F, 0x0A, 0x00, 0x00, 0x00, 0xFF, 0x01, 0x00, 0x00, 0x01, 0x04, b'f', 0x00]);
    assert_eq!(rom[0x10100], 7);
}

#[test]
fn children_are_visited_by_name() {
    let model = vec![
        file("b", vec![2]),
        dir("a", vec![file("z", vec![3]), file("ab", vec![4]), file("a", vec![5])]),
        file("B", vec![1]),
    ];
    let (rom, res, fat_start) = run(32, model);
    assert_eq!(res, Ok(0x0101));
    let mut top = (fat_start as usize + 1) * PAGE;
    let mut names: Vec<Vec<u8>> = Vec::new();
    let mut parents: Vec<u8> = Vec::new();
    for _ in 0..6 {
        let elen = rom[top - 2] as usize + 256 * rom[top - 3] as usize;
        let entry = entry_below(&rom, top, elen + 3);
        let name_at = if entry[0] == 0x7F { 11 } else { 8 };
        names.push(entry[name_at..entry.len() - 1].to_vec());
        parents.push(entry[3]);
        top -= elen + 3;
    }
    let expected: Vec<Vec<u8>> = vec![
        b"B".to_vec(),
        b"a".to_vec(),
        b"a".to_vec(),
        b"ab".to_vec(),
        b"z".to_vec(),
        b"b".to_vec(),
    ];
    assert_eq!(names, expected);
    assert_eq!(parents, vec![0, 0, 1, 1, 1, 0]);
    // contents follow the same order
    assert_eq!(rom[0x10100], 1);
    assert_eq!(rom[0x10200], 5);
    assert_eq!(rom[0x10300], 4);
    assert_eq!(rom[0x10400], 3);
    assert_eq!(rom[0x10500], 2);
}

#[test]
fn layout_is_planned_from_the_length() {
    assert!(matches!(Context::new(rom_of(12)), Err(KfsError::InvalidLayout)));
    assert!(matches!(Context::new(vec![0u8; 13 * PAGE - 1]), Err(KfsError::InvalidLayout)));
    let small = Context::new(vec![0u8; 13 * PAGE]).unwrap();
    assert_eq!(small.fat_start(), 4);
    assert_eq!(small.dat_start(), 4);
    assert_eq!(small.fatptr(), 5 * 0x4000);
    assert_eq!(small.section_id(), 0x0401);
    assert_eq!(small.parent_id(), 0);
    let large = Context::new(vec![0u8; 264 * PAGE + 5]).unwrap();
    assert_eq!(large.fat_start(), 255);
    assert!(matches!(Context::new(vec![0u8; 265 * PAGE]), Err(KfsError::InvalidLayout)));
}

#[test]
fn file_too_large_is_refused() {
    let mut ctx = Context::new(rom_of(32)).unwrap();
    let res = ctx.run(&vec![file("big", vec![0u8; 0x100_0000])]);
    assert_eq!(res, Err(KfsError::FileTooLarge));
    // nothing of the file was written
    let rom = ctx.into_rom();
    assert_eq!(rom[24 * PAGE - 1], 0xFF);
}

#[test]
fn name_too_long_is_refused() {
    let long = vec![b'n'; 0xFFFF - 5];
    let mut ctx = Context::new(rom_of(32)).unwrap();
    let res = ctx.run(&vec![Node::Dir { name: long, children: Vec::new() }]);
    assert_eq!(res, Err(KfsError::NameTooLong));

    let fits = vec![b'n'; 0xFFFF - 6];
    let mut ctx = Context::new(rom_of(32)).unwrap();
    let res = ctx.run(&vec![Node::Dir { name: fits, children: Vec::new() }]);
    assert_eq!(res, Ok(0x0501));

    let mut ctx = Context::new(rom_of(32)).unwrap();
    let res = ctx.run(&vec![Node::File { name: vec![b'n'; 0xFFFF - 8], data: Vec::new() }]);
    assert_eq!(res, Err(KfsError::NameTooLong));

    let mut ctx = Context::new(rom_of(32)).unwrap();
    let res = ctx.run(&vec![Node::Symlink { name: vec![b'n'; 255], target: Vec::new() }]);
    assert_eq!(res, Err(KfsError::NameTooLong));

    let mut ctx = Context::new(rom_of(32)).unwrap();
    let res = ctx.run(&vec![Node::Symlink { name: vec![b'n'; 254], target: vec![b't'; 0xFFFF - 258] }]);
    assert_eq!(res, Err(KfsError::NameTooLong));

    let mut ctx = Context::new(rom_of(32)).unwrap();
    let res = ctx.run(&vec![Node::Symlink { name: vec![b'n'; 254], target: vec![b't'; 0xFFFF - 259] }]);
    assert_eq!(res, Ok(0x0501));
}

#[test]
fn regions_must_not_meet() {
    // thirteen pages: the only FAT page is the first DAT page
    let mut ctx = Context::new(rom_of(13)).unwrap();
    assert_eq!(ctx.run(&Vec::new()), Ok(0x0001));
    let mut ctx = Context::new(rom_of(13)).unwrap();
    assert_eq!(ctx.run(&vec![file("a", vec![1])]), Err(KfsError::OutOfSpace));

    // fourteen pages: one DAT page, one FAT page
    let mut ctx = Context::new(rom_of(14)).unwrap();
    assert_eq!(ctx.run(&vec![file("a", pattern(0x3E * 256, 0))]), Ok(0x0101));
    let mut ctx = Context::new(rom_of(14)).unwrap();
    assert_eq!(ctx.run(&vec![file("a", pattern(0x3E * 256 + 1, 0))]), Err(KfsError::OutOfSpace));
}

#[test]
fn directory_numbers_run_out() {
    let mut model: Vec<Node> = Vec::new();
    for _ in 0..0xFFFF {
        model.push(dir("d", Vec::new()));
    }
    let mut ctx = Context::new(rom_of(128)).unwrap();
    assert_eq!(ctx.run(&model), Ok(0x2801));
    assert_eq!(ctx.parent_id(), 0xFFFF);

    model.push(dir("d", Vec::new()));
    let mut ctx = Context::new(rom_of(128)).unwrap();
    assert_eq!(ctx.run(&model), Err(KfsError::TooManyDirectories));
}

#[test]
fn runs_are_deterministic() {
    let model = || {
        vec![
            dir("src", vec![file("main.c", pattern(1000, 2)), link("l", "main.c")]),
            file("README", pattern(20000, 4)),
        ]
    };
    let (first, r1, _) = run(40, model());
    let (second, r2, _) = run(40, model());
    assert_eq!(r1, r2);
    assert!(first == second);
    // a second run over the written image gives the same image again
    let mut ctx = Context::new(first.clone()).unwrap();
    assert_eq!(ctx.run(&model()), r1);
    assert!(ctx.into_rom() == first);
}
