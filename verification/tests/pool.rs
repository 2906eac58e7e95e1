use jmap_dumper::mem::{Ctx, Error, Member};
use jmap_dumper::names::resolve_fname;
use jmap_dumper::pool::{extract_fnames, parse_block};
use jmap_dumper::task::run;
use std::collections::BTreeMap;

/// A memory made of regions that can be read.
struct Image {
    regions: Vec<(u64, Vec<u8>)>,
}

impl Image {
    fn new() -> Self {
        Image { regions: Vec::new() }
    }

    fn put(mut self, address: u64, bytes: &[u8]) -> Self {
        self.regions.push((address, bytes.to_vec()));
        self
    }

    fn read(&self, address: u64, len: u64) -> Option<Vec<u8>> {
        for (start, bytes) in &self.regions {
            if address < *start {
                continue;
            }
            let from = (address - *start) as usize;
            let to = from.checked_add(len as usize)?;
            if to <= bytes.len() {
                return Some(bytes[from..to].to_vec());
            }
        }
        None
    }
}

fn member(name: &str, offset: usize) -> Member {
    Member { owner: "FNameEntryAllocator".to_string(), name: name.to_string(), offset }
}

fn ctx(version: (u16, u16), case_preserving: bool) -> Ctx {
    Ctx {
        fnamepool: 0x1000,
        case_preserving,
        version,
        members: vec![
            member("CurrentBlock", 0),
            member("CurrentByteCursor", 4),
            member("Blocks", 0x10),
        ],
    }
}

fn extract(image: &Image, ctx: &Ctx) -> Result<BTreeMap<u32, String>, Error> {
    run(extract_fnames(ctx), |address, len| image.read(address, len))
}

fn names(expected: &[(u32, &str)]) -> BTreeMap<u32, String> {
    expected.iter().map(|(index, name)| (*index, name.to_string())).collect()
}

/// Appends a narrow entry of a block, padded to its alignment.
fn narrow(block: &mut Vec<u8>, text: &[u8], case_preserving: bool) {
    if case_preserving {
        block.extend_from_slice(&[1, 2, 3, 4]);
    }
    let shift = if case_preserving { 1 } else { 6 };
    block.extend_from_slice(&((text.len() as u16) << shift).to_le_bytes());
    block.extend_from_slice(text);
    let stride = if case_preserving { 4 } else { 2 };
    while block.len() % stride != 0 {
        block.push(0);
    }
}

/// Appends a wide entry of a block.
fn wide(block: &mut Vec<u8>, units: &[u16], case_preserving: bool) {
    if case_preserving {
        block.extend_from_slice(&[1, 2, 3, 4]);
    }
    let shift = if case_preserving { 1 } else { 6 };
    block.extend_from_slice(&(((units.len() as u16) << shift) | 1).to_le_bytes());
    for unit in units {
        block.extend_from_slice(&unit.to_le_bytes());
    }
    let stride = if case_preserving { 4 } else { 2 };
    while block.len() % stride != 0 {
        block.push(0);
    }
}

/// A pool with some blocks; the last is filled up to `cursor`.
fn pool(cursor: u32, blocks: &[u64]) -> Image {
    let mut bytes = (blocks.len() as u32 - 1).to_le_bytes().to_vec();
    bytes.extend_from_slice(&cursor.to_le_bytes());
    bytes.resize(0x10, 0);
    for block in blocks {
        bytes.extend_from_slice(&block.to_le_bytes());
    }
    Image::new().put(0x1000, &bytes)
}

#[test]
fn names_of_a_pool_in_blocks() {
    let ctx = ctx((4, 22), false);
    let mut first = Vec::new();
    narrow(&mut first, b"None", false);
    narrow(&mut first, b"Odd", false);
    wide(&mut first, &[0xe9, 0x41], false);
    first.resize(0x2_0000, 0);
    let mut last = Vec::new();
    narrow(&mut last, b"Last", false);
    let cursor = last.len() as u32;
    narrow(&mut last, b"Beyond", false);
    let image =
        pool(cursor, &[0x10_0000, 0x20_0000]).put(0x10_0000, &first).put(0x20_0000, &last);
    assert_eq!(
        extract(&image, &ctx),
        Ok(names(&[(0, "None"), (3, "Odd"), (6, "\u{e9}A"), (0x1_0000, "Last")]))
    );
}

#[test]
fn names_of_a_case_preserving_pool() {
    let ctx = ctx((5, 2), true);
    let mut block = Vec::new();
    narrow(&mut block, b"None", true);
    wide(&mut block, &[0xd83d, 0xde00], true);
    narrow(&mut block, b"x", true);
    let image = pool(block.len() as u32, &[0x10_0000]).put(0x10_0000, &block);
    assert_eq!(
        extract(&image, &ctx),
        Ok(names(&[(0, "None"), (3, "\u{1F600}"), (6, "x")]))
    );
}

#[test]
fn extracted_names_are_those_that_a_lookup_gives() {
    for case_preserving in [false, true] {
        let ctx = ctx((5, 2), case_preserving);
        let mut block = Vec::new();
        narrow(&mut block, b"Alpha", case_preserving);
        wide(&mut block, &[0x42, 0x43, 0x44], case_preserving);
        narrow(&mut block, &[0xff], case_preserving);
        narrow(&mut block, b"Omega", case_preserving);
        let image = pool(block.len() as u32, &[0, 0x10_0000]).put(0x10_0000, &block);
        let found = extract(&image, &ctx).unwrap();
        assert_eq!(found.len(), 3);
        for (index, name) in &found {
            let looked_up =
                run(resolve_fname(&ctx, *index, 0), |address, len| image.read(address, len));
            assert_eq!(looked_up, Ok(name.clone()));
        }
    }
}

#[test]
fn invalid_entries_are_left_out() {
    let ctx = ctx((4, 25), false);
    let mut block = Vec::new();
    narrow(&mut block, &[0xc3, 0x28], false);
    wide(&mut block, &[0xdc00], false);
    narrow(&mut block, b"ok", false);
    let image = pool(block.len() as u32, &[0x10_0000]).put(0x10_0000, &block);
    assert_eq!(extract(&image, &ctx), Ok(names(&[(4, "ok")])));
}

#[test]
fn missing_and_unreadable_blocks_are_passed_over() {
    let ctx = ctx((5, 0), false);
    let mut block = Vec::new();
    narrow(&mut block, b"here", false);
    let image = pool(block.len() as u32, &[0, 0x50_0000, 0x10_0000]).put(0x10_0000, &block);
    assert_eq!(extract(&image, &ctx), Ok(names(&[(0x2_0000, "here")])));
}

#[test]
fn empty_block_has_no_names() {
    let ctx = ctx((5, 0), false);
    let image = pool(0, &[0x10_0000]);
    assert_eq!(extract(&image, &ctx), Ok(BTreeMap::new()));
}

#[test]
fn pool_that_cannot_be_read_fails() {
    let ctx = ctx((5, 0), false);
    assert_eq!(extract(&Image::new(), &ctx), Err(Error::ReadFailed));
    let no_cursor = Image::new().put(0x1000, &0u32.to_le_bytes());
    assert_eq!(extract(&no_cursor, &ctx), Err(Error::ReadFailed));
    let no_blocks = Image::new().put(0x1000, &[0; 8]);
    assert_eq!(extract(&no_blocks, &ctx), Err(Error::ReadFailed));
}

#[test]
fn pool_outside_the_address_space_fails() {
    let mut ctx = ctx((5, 0), false);
    ctx.fnamepool = u64::MAX - 8;
    let image = Image::new().put(u64::MAX - 8, &[0; 8]);
    assert_eq!(extract(&image, &ctx), Err(Error::AddressOverflow));
}

#[test]
fn block_ends_where_an_entry_has_no_text_or_does_not_fit() {
    let mut block = Vec::new();
    narrow(&mut block, b"ab", false);
    let short = block.clone();
    block.extend_from_slice(&[0, 0]);
    narrow(&mut block, b"never", false);
    let mut found = BTreeMap::new();
    parse_block(&block, 7, false, &mut found);
    assert_eq!(found, names(&[(0x7_0000, "ab")]));

    let mut cut = short.clone();
    narrow(&mut cut, b"long", false);
    cut.truncate(cut.len() - 1);
    let mut found = names(&[(1, "kept")]);
    parse_block(&cut, 0, false, &mut found);
    assert_eq!(found, names(&[(0, "ab"), (1, "kept")]));

    let mut stub = short;
    stub.push(0xff);
    let mut found = BTreeMap::new();
    parse_block(&stub, 0, false, &mut found);
    assert_eq!(found, names(&[(0, "ab")]));

    let mut found = BTreeMap::new();
    parse_block(&Vec::new(), 0, true, &mut found);
    assert_eq!(found, BTreeMap::new());
}

/// A pool in chunks: the table, and chunks with some slots filled.
fn chunked(chunks: &[(u64, &[(usize, u64)])]) -> Image {
    let mut table = Vec::new();
    let mut image = Image::new().put(0x1000, &0x2000u64.to_le_bytes());
    for (chunk, slots) in chunks {
        table.extend_from_slice(&chunk.to_le_bytes());
        if slots.is_empty() {
            continue;
        }
        let mut bytes = vec![0u8; 0x2_0000];
        for (slot, entry) in slots.iter() {
            bytes[8 * slot..8 * slot + 8].copy_from_slice(&entry.to_le_bytes());
        }
        image = image.put(*chunk, &bytes);
    }
    table.extend_from_slice(&0u64.to_le_bytes());
    image.put(0x2000, &table)
}

fn entry(index: u32, text: &[u8]) -> Vec<u8> {
    let mut bytes = index.to_le_bytes().to_vec();
    bytes.resize(0x10, 0);
    bytes.extend_from_slice(text);
    bytes
}

#[test]
fn names_of_a_pool_in_chunks() {
    let ctx = ctx((4, 21), false);
    let image = chunked(&[
        (0x10_0000, &[(0, 0x4000), (5, 0x4100), (6, 0x4200)]),
        (0x20_0000, &[(0x3fff, 0x4300)]),
    ])
    .put(0x4000, &entry(0, b"None\0"))
    .put(0x4100, &entry(1, &[0x41, 0, 0x42, 0, 0, 0]))
    .put(0x4200, &entry(0, &[0xff, 0]))
    .put(0x4300, &entry(2, b"End\0"));
    let found = extract(&image, &ctx).unwrap();
    assert_eq!(found, names(&[(0, "None"), (5, "AB"), (0x7fff, "End")]));
    for (index, name) in &found {
        let looked_up =
            run(resolve_fname(&ctx, *index, 0), |address, len| image.read(address, len));
        assert_eq!(looked_up, Ok(name.clone()));
    }
}

#[test]
fn chunks_end_at_the_first_that_is_missing_or_unreadable() {
    let ctx = ctx((4, 10), false);
    let missing = chunked(&[
        (0x10_0000, &[(1, 0x4000)]),
        (0, &[]),
        (0x20_0000, &[(1, 0x4000)]),
    ])
    .put(0x4000, &entry(0, b"One\0"));
    assert_eq!(extract(&missing, &ctx), Ok(names(&[(1, "One")])));
    let unreadable = chunked(&[
        (0x10_0000, &[(1, 0x4000)]),
        (0x66_0000, &[]),
        (0x20_0000, &[(1, 0x4000)]),
    ])
    .put(0x4000, &entry(0, b"One\0"));
    assert_eq!(extract(&unreadable, &ctx), Ok(names(&[(1, "One")])));
}

#[test]
fn entry_at_the_end_of_the_address_space_ends_the_extraction() {
    let ctx = ctx((4, 10), false);
    let last = u64::MAX - 7;
    let image = chunked(&[(0x10_0000, &[(1, last)])]).put(last, &[0; 4]);
    assert_eq!(extract(&image, &ctx), Err(Error::AddressOverflow));
}

#[test]
fn chunk_table_that_cannot_be_read_fails() {
    let ctx = ctx((4, 10), false);
    assert_eq!(extract(&Image::new(), &ctx), Err(Error::ReadFailed));
    let image = Image::new().put(0x1000, &0x2000u64.to_le_bytes());
    assert_eq!(extract(&image, &ctx), Err(Error::ReadFailed));
}
