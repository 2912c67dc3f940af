use regenkfs::context::Context;
use regenkfs::error::KfsError;
use regenkfs::model::Node;

const PAGE: usize = 0x4000;

/// A small generator of numbers, the same on every run.
struct Gen(u64);

impl Gen {
    fn next(&mut self) -> u64 {
        self.0 = self.0.wrapping_mul(6364136223846793005).wrapping_add(1442695040888963407);
        self.0 >> 33
    }

    fn below(&mut self, n: u64) -> u64 {
        self.next() % n
    }

    fn bytes(&mut self, len: usize) -> Vec<u8> {
        let mut v: Vec<u8> = Vec::with_capacity(len);
        for _ in 0..len {
            v.push(self.below(256) as u8);
        }
        v
    }

    fn name(&mut self, taken: &mut Vec<Vec<u8>>) -> Vec<u8> {
        loop {
            let len = 1 + self.below(6) as usize;
            let mut n: Vec<u8> = Vec::new();
            for _ in 0..len {
                n.push(b'a' + self.below(4) as u8);
            }
            if !taken.contains(&n) {
                taken.push(n.clone());
                return n;
            }
        }
    }

    fn tree(&mut self, depth: u32) -> Vec<Node> {
        let count = self.below(5) as usize;
        let mut taken: Vec<Vec<u8>> = Vec::new();
        let mut nodes: Vec<Node> = Vec::new();
        for _ in 0..count {
            let name = self.name(&mut taken);
            let kind = self.below(4);
            if kind == 0 && depth > 0 {
                nodes.push(Node::Dir { name, children: self.tree(depth - 1) });
            } else if kind == 1 {
                let len = self.below(12) as usize;
                nodes.push(Node::Symlink { name, target: self.bytes(len) });
            } else {
                let len = match self.below(6) {
                    0 => 0,
                    1 => 256,
                    2 => 512,
                    3 => self.below(300) as usize,
                    4 => self.below(3000) as usize,
                    _ => self.below(40000) as usize,
                };
                nodes.push(Node::File { name, data: self.bytes(len) });
            }
        }
        nodes
    }
}

fn noise(pages: usize) -> Vec<u8> {
    let mut g = Gen(pages as u64);
    g.bytes(pages * PAGE)
}

/// What a reader finds in one FAT entry.
#[derive(Debug, PartialEq, Clone)]
enum Found {
    File { parent: u16, name: Vec<u8>, content: Vec<u8> },
    Dir { parent: u16, id: u16, name: Vec<u8> },
    Link { parent: u16, name: Vec<u8>, target: Vec<u8> },
}

/// The traversal sequence that a model should give.
fn expected(nodes: &Vec<Node>, parent: u16, counter: &mut u16, out: &mut Vec<Found>) {
    let mut order: Vec<usize> = (0..nodes.len()).collect();
    order.sort_by_key(|&i| match &nodes[i] {
        Node::File { name, .. } => name.clone(),
        Node::Dir { name, .. } => name.clone(),
        Node::Symlink { name, .. } => name.clone(),
    });
    for i in order {
        match &nodes[i] {
            Node::File { name, data } => {
                out.push(Found::File { parent, name: name.clone(), content: data.clone() })
            }
            Node::Symlink { name, target } => {
                out.push(Found::Link { parent, name: name.clone(), target: target.clone() })
            }
            Node::Dir { name, children } => {
                *counter += 1;
                let id = *counter;
                out.push(Found::Dir { parent, id, name: name.clone() });
                expected(children, id, counter, out);
            }
        }
    }
}

fn le16(rom: &[u8], at: usize) -> u16 {
    rom[at] as u16 | (rom[at + 1] as u16) << 8
}

/// Walks the chain of a file as a reader would.
fn read_chain(rom: &[u8], first: u16, len: usize) -> Vec<u8> {
    let mut out: Vec<u8> = Vec::new();
    let mut sid = first;
    let mut left = len;
    let mut prev: u16 = 0xFFFF;
    while left > 0 {
        let page = (sid >> 8) as usize;
        let index = (sid & 0xFF) as usize;
        assert!(index >= 1 && index <= 0x3F);
        let header = page * PAGE + index * 4;
        assert_eq!(le16(rom, header), prev & 0x7FFF);
        let take = if left > 256 { 256 } else { left };
        out.extend_from_slice(&rom[page * PAGE + index * 256..page * PAGE + index * 256 + take]);
        let next = le16(rom, header + 2);
        left -= take;
        if left == 0 {
            assert_eq!(next, 0xFFFF);
        } else {
            assert!(next > sid);
        }
        prev = sid;
        sid = next;
    }
    out
}

/// Reads the FAT from `top` down to `fatptr`, and each file through its chain.
fn read_fat(rom: &[u8], top: usize, fatptr: usize) -> Vec<Found> {
    let mut found: Vec<Found> = Vec::new();
    let mut at = top;
    while at > fatptr {
        let tag = rom[at - 1];
        let elen = rom[at - 2] as usize | (rom[at - 3] as usize) << 8;
        let low = at - (elen + 3);
        assert!(low >= fatptr);
        let mut e: Vec<u8> = rom[low..at].to_vec();
        e.reverse();
        let parent = le16(&e, 3);
        match tag {
            0x7F => {
                assert_eq!(e[5], 0xFF);
                let len = e[6] as usize | (e[7] as usize) << 8 | (e[8] as usize) << 16;
                let sid = le16(&e, 9);
                assert_eq!(e[e.len() - 1], 0);
                let name = e[11..e.len() - 1].to_vec();
                found.push(Found::File { parent, name, content: read_chain(rom, sid, len) });
            }
            0xBF => {
                assert_eq!(e[7], 0xFF);
                assert_eq!(e[e.len() - 1], 0);
                found.push(Found::Dir { parent, id: le16(&e, 5), name: e[8..e.len() - 1].to_vec() });
            }
            0xDF => {
                let n = e[5] as usize - 1;
                assert_eq!(&e[e.len() - 2..], &[0, 0]);
                found.push(Found::Link {
                    parent,
                    name: e[6..6 + n].to_vec(),
                    target: e[6 + n..e.len() - 2].to_vec(),
                });
            }
            other => panic!("unknown tag {:#x}", other),
        }
        at = low;
    }
    assert_eq!(at, fatptr);
    found
}

fn check_model(pages: usize, model: &Vec<Node>) {
    let before = noise(pages);
    let mut ctx = Context::new(before.clone()).unwrap();
    let res = ctx.run(model);
    let fat_start = ctx.fat_start() as usize;
    assert_eq!(fat_start, pages - 9);
    let fatptr = ctx.fatptr() as usize;
    let sid = ctx.section_id();
    let top = (fat_start + 1) * PAGE;
    let rom = ctx.into_rom();

    // what lies outside the written region stays
    assert_eq!(rom.len(), before.len());
    assert!(rom[..4 * PAGE] == before[..4 * PAGE]);
    assert!(rom[top..] == before[top..]);

    // page magic
    for p in 4..=fat_start.saturating_sub(4) {
        if p >= 4 && p + 4 <= fat_start && p * PAGE < fatptr {
            assert_eq!(rom[p * PAGE], b'K', "page {}", p);
        }
    }
    assert_eq!(&rom[4 * PAGE..4 * PAGE + 3], b"KFS");

    let summary = match res {
        Ok(s) => s,
        Err(e) => panic!("run failed: {:?}", e),
    };
    assert_eq!((summary >> 8) as usize, (top - fatptr + PAGE - 1) / PAGE);
    assert_eq!((summary & 0xFF) as usize, (sid >> 8) as usize - 4 + 1);

    // the FAT reads as the traversal sequence, every file as its content
    let mut want: Vec<Found> = Vec::new();
    let mut counter: u16 = 0;
    expected(model, 0, &mut counter, &mut want);
    let found = read_fat(&rom, top, fatptr);
    assert_eq!(found, want);

    // every directory is held by the root or by a directory before it
    let mut ids: Vec<u16> = vec![0];
    for f in &found {
        let parent = match f {
            Found::File { parent, .. } => *parent,
            Found::Dir { parent, .. } => *parent,
            Found::Link { parent, .. } => *parent,
        };
        assert!(ids.contains(&parent));
        if let Found::Dir { id, parent, .. } = f {
            assert_eq!(*id as usize, ids.len());
            assert!(parent < id);
            ids.push(*id);
        }
    }

    // the regions have not met, and pages above the cursor's are untouched
    assert!(fatptr >= ((sid >> 8) as usize + 1) * PAGE);
    for a in ((sid >> 8) as usize + 1) * PAGE..fatptr {
        let want = if a % PAGE == 0 && a / PAGE + 4 <= fat_start { b'K' } else { 0xFF };
        assert_eq!(rom[a], want);
    }

    // a second run gives the same image
    let mut again = Context::new(before).unwrap();
    assert_eq!(again.run(model), Ok(summary));
    assert!(again.into_rom() == rom);
}

#[test]
fn generated_trees_read_back() {
    for seed in 0..40u64 {
        let mut g = Gen(seed * 7919 + 3);
        let model = g.tree(3);
        check_model(64, &model);
    }
}

/// The same trees with every listing turned round.
fn turned(nodes: &Vec<Node>) -> Vec<Node> {
    let mut out: Vec<Node> = Vec::new();
    for node in nodes.iter().rev() {
        out.push(match node {
            Node::File { name, data } => Node::File { name: name.clone(), data: data.clone() },
            Node::Symlink { name, target } => {
                Node::Symlink { name: name.clone(), target: target.clone() }
            }
            Node::Dir { name, children } => {
                Node::Dir { name: name.clone(), children: turned(children) }
            }
        });
    }
    out
}

#[test]
fn listing_order_does_not_matter() {
    for seed in 90..110u64 {
        let mut g = Gen(seed);
        let model = g.tree(3);
        let mut first = Context::new(noise(48)).unwrap();
        let r1 = first.run(&model);
        let mut second = Context::new(noise(48)).unwrap();
        let r2 = second.run(&turned(&model));
        assert!(r1.is_ok());
        assert_eq!(r1, r2);
        assert!(first.into_rom() == second.into_rom());
    }
}

#[test]
fn second_run_changes_nothing() {
    let mut g = Gen(17);
    let model = g.tree(3);
    let mut ctx = Context::new(noise(48)).unwrap();
    let r1 = ctx.run(&model);
    let once = ctx.rom().clone();
    let r2 = ctx.run(&model);
    assert_eq!(r1, r2);
    assert!(ctx.into_rom() == once);
}

#[test]
fn equal_names_keep_their_order() {
    let model = vec![
        Node::File { name: b"n".to_vec(), data: vec![1] },
        Node::File { name: b"m".to_vec(), data: vec![2] },
        Node::File { name: b"n".to_vec(), data: vec![3] },
    ];
    let mut ctx = Context::new(noise(32)).unwrap();
    assert_eq!(ctx.run(&model), Ok(0x0101));
    let rom = ctx.into_rom();
    assert_eq!(rom[0x10100], 2);
    assert_eq!(rom[0x10200], 1);
    assert_eq!(rom[0x10300], 3);
}

#[test]
fn many_pages_of_data() {
    let mut g = Gen(5);
    let model = vec![
        Node::File { name: b"big".to_vec(), data: g.bytes(200_000) },
        Node::File { name: b"small".to_vec(), data: g.bytes(10) },
    ];
    check_model(64, &model);
}

#[test]
fn fat_may_grow_over_a_tagged_page() {
    // two entries of more than four pages each take the FAT down over the
    // start of the page four below the first FAT page
    let model = vec![
        Node::Dir { name: vec![b'a'; 0xFFFF - 6], children: Vec::new() },
        Node::Dir { name: vec![b'b'; 0xFFFF - 6], children: Vec::new() },
    ];
    let mut ctx = Context::new(noise(32)).unwrap();
    assert_eq!(ctx.run(&model), Ok(0x0901));
    let fat_start = ctx.fat_start() as usize;
    assert!((ctx.fatptr() as usize) < (fat_start - 4) * PAGE);
    let rom = ctx.into_rom();
    assert_eq!(rom[(fat_start - 3) * PAGE], b'a');
    assert_eq!(rom[(fat_start - 4) * PAGE], b'b');
    assert_eq!(rom[(fat_start - 7) * PAGE], b'b');
    assert_eq!(rom[(fat_start - 8) * PAGE], b'K');
}

#[test]
fn error_leaves_the_outside_untouched() {
    let before = noise(20);
    let model = vec![Node::File { name: b"f".to_vec(), data: vec![7u8; 12 * PAGE] }];
    let mut ctx = Context::new(before.clone()).unwrap();
    assert_eq!(ctx.run(&model), Err(KfsError::OutOfSpace));
    let rom = ctx.into_rom();
    assert!(rom[..4 * PAGE] == before[..4 * PAGE]);
    assert!(rom[12 * PAGE..] == before[12 * PAGE..]);
}

/// Bytes of entries and blocks of files that a model asks for.
fn demand(nodes: &Vec<Node>, fat_bytes: &mut usize, blocks: &mut usize) {
    for node in nodes {
        match node {
            Node::File { name, data } => {
                *fat_bytes += name.len() + 12;
                *blocks += (data.len() + 255) / 256;
            }
            Node::Symlink { name, target } => *fat_bytes += name.len() + target.len() + 8,
            Node::Dir { name, children } => {
                *fat_bytes += name.len() + 9;
                demand(children, fat_bytes, blocks);
            }
        }
    }
}

#[test]
fn room_decides_whether_a_run_ends_well() {
    let mut well = 0;
    let mut badly = 0;
    for seed in 0..200u64 {
        let mut g = Gen(seed * 31 + 7);
        let pages = 13 + g.below(4) as usize;
        let model = g.tree(2);
        let mut fat_bytes = 0usize;
        let mut blocks = 0usize;
        demand(&model, &mut fat_bytes, &mut blocks);
        let fits = fat_bytes + (5 + blocks / 63) * PAGE <= (pages - 8) * PAGE;
        let mut ctx = Context::new(noise(pages)).unwrap();
        match ctx.run(&model) {
            Ok(summary) => {
                assert!(fits, "seed {}", seed);
                assert_eq!((summary >> 8) as usize, (fat_bytes + PAGE - 1) / PAGE);
                assert_eq!((summary & 0xFF) as usize, blocks / 63 + 1);
                well += 1;
            }
            Err(e) => {
                assert!(!fits, "seed {}", seed);
                assert_eq!(e, KfsError::OutOfSpace);
                badly += 1;
            }
        }
    }
    assert!(well > 20 && badly > 20, "{} well, {} badly", well, badly);
}
