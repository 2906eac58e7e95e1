use jmap_dumper::mem::{Ctx, Error, Member, Ptr};
use jmap_dumper::names::{resolve_fname, FName, FNameEntryAllocator};
use jmap_dumper::task::run;

/// A memory made of regions that can be read.
struct Image {
    regions: Vec<(u64, Vec<u8>)>,
}

impl Image {
    fn new() -> Self {
        Image { regions: Vec::new() }
    }

    fn put(mut self, address: u64, bytes: &[u8]) -> Self {
        self.regions.push((address, bytes.to_vec()));
        self
    }

    fn read(&self, address: u64, len: u64) -> Option<Vec<u8>> {
        for (start, bytes) in &self.regions {
            if address < *start {
                continue;
            }
            let from = (address - *start) as usize;
            let to = from.checked_add(len as usize)?;
            if to <= bytes.len() {
                return Some(bytes[from..to].to_vec());
            }
        }
        None
    }
}

fn member(owner: &str, name: &str, offset: usize) -> Member {
    Member { owner: owner.to_string(), name: name.to_string(), offset }
}

fn ctx(version: (u16, u16), case_preserving: bool) -> Ctx {
    Ctx {
        fnamepool: 0x1000,
        case_preserving,
        version,
        members: vec![
            member("FName", "ComparisonIndex", 0),
            member("FName", "Number", 4),
            member("FNameEntryAllocator", "Blocks", 0x10),
        ],
    }
}

fn resolve(image: &Image, ctx: &Ctx, index: u32, number: u32) -> Result<String, Error> {
    run(resolve_fname(ctx, index, number), |address, len| image.read(address, len))
}

/// A pool in blocks whose block number two starts at 0x8000.
fn pool(block: &[u8]) -> Image {
    let mut blocks = vec![0u8; 16];
    blocks.extend_from_slice(&0x8000u64.to_le_bytes());
    Image::new().put(0x1010, &blocks).put(0x8000, block)
}

/// A pool in chunks with one entry, number three of chunk one.
fn chunks(entry: &[u8]) -> Image {
    let mut table = vec![0u8; 8];
    table.extend_from_slice(&0x3000u64.to_le_bytes());
    let mut slots = vec![0u8; 24];
    slots.extend_from_slice(&0x4000u64.to_le_bytes());
    Image::new()
        .put(0x1000, &0x2000u64.to_le_bytes())
        .put(0x2000, &table)
        .put(0x3000, &slots)
        .put(0x4000, entry)
}

fn entry(index: u32, text: &[u8]) -> Vec<u8> {
    let mut bytes = index.to_le_bytes().to_vec();
    bytes.resize(0x10, 0xaa);
    bytes.extend_from_slice(text);
    bytes
}

#[test]
fn narrow_name_in_a_block() {
    let mut block = vec![0u8; 6];
    block.extend_from_slice(&(4u16 << 6).to_le_bytes());
    block.extend_from_slice(b"None");
    let ctx = ctx((4, 22), false);
    assert_eq!(resolve(&pool(&block), &ctx, 0x2_0003, 0), Ok("None".to_string()));
}

#[test]
fn wide_name_in_a_block() {
    let mut block = ((2u16 << 6) | 1).to_le_bytes().to_vec();
    block.extend_from_slice(&[0x41, 0, 0xe9, 0]);
    let ctx = ctx((5, 3), false);
    assert_eq!(resolve(&pool(&block), &ctx, 0x2_0000, 0), Ok("A\u{e9}".to_string()));
}

#[test]
fn case_preserving_entries_have_another_header() {
    let mut block = vec![0u8; 8];
    block.extend_from_slice(&[9, 9, 9, 9]);
    block.extend_from_slice(&(3u16 << 1).to_le_bytes());
    block.extend_from_slice(b"Foo");
    let ctx = ctx((5, 1), true);
    assert_eq!(resolve(&pool(&block), &ctx, 0x2_0002, 0), Ok("Foo".to_string()));
}

#[test]
fn number_becomes_a_suffix() {
    let mut block = (3u16 << 6).to_le_bytes().to_vec();
    block.extend_from_slice(b"Bar");
    let ctx = ctx((4, 27), false);
    let image = pool(&block);
    assert_eq!(resolve(&image, &ctx, 0x2_0000, 0), Ok("Bar".to_string()));
    assert_eq!(resolve(&image, &ctx, 0x2_0000, 1), Ok("Bar_0".to_string()));
    assert_eq!(resolve(&image, &ctx, 0x2_0000, 124), Ok("Bar_123".to_string()));
    assert_eq!(resolve(&image, &ctx, 0x2_0000, u32::MAX), Ok("Bar_4294967294".to_string()));
}

#[test]
fn different_numbers_give_different_names() {
    let mut block = (3u16 << 6).to_le_bytes().to_vec();
    block.extend_from_slice(b"Bar");
    let ctx = ctx((4, 27), false);
    let image = pool(&block);
    let names: Vec<String> =
        (0..120).map(|number| resolve(&image, &ctx, 0x2_0000, number).unwrap()).collect();
    for (i, name) in names.iter().enumerate() {
        assert!(!names[..i].contains(name));
    }
}

#[test]
fn name_in_a_missing_block_is_an_error() {
    let ctx = ctx((5, 0), false);
    let image = pool(&[0; 8]);
    assert_eq!(resolve(&image, &ctx, 0x1_0000, 0), Err(Error::NullPointer));
    assert_eq!(resolve(&image, &ctx, 0x3_0000, 0), Err(Error::ReadFailed));
    assert_eq!(resolve(&image, &ctx, 0x2_1000, 0), Err(Error::ReadFailed));
}

#[test]
fn name_without_a_pool_is_an_error() {
    let mut ctx = ctx((5, 0), false);
    ctx.fnamepool = 0;
    assert_eq!(resolve(&Image::new(), &ctx, 0, 0), Err(Error::NullPointer));
    ctx.version = (4, 0);
    assert_eq!(resolve(&Image::new(), &ctx, 0, 0), Err(Error::NullPointer));
}

#[test]
fn pool_at_the_end_of_the_address_space_is_an_error() {
    let mut ctx = ctx((5, 0), false);
    ctx.fnamepool = u64::MAX - 4;
    assert_eq!(resolve(&Image::new(), &ctx, 0, 0), Err(Error::AddressOverflow));
}

#[test]
fn invalid_text_in_a_block_is_an_error() {
    let ctx = ctx((5, 0), false);
    let mut block = (2u16 << 6).to_le_bytes().to_vec();
    block.extend_from_slice(&[0xff, 0xfe]);
    assert_eq!(resolve(&pool(&block), &ctx, 0x2_0000, 0), Err(Error::InvalidUtf8));
    let mut block = ((1u16 << 6) | 1).to_le_bytes().to_vec();
    block.extend_from_slice(&[0x00, 0xdc]);
    assert_eq!(resolve(&pool(&block), &ctx, 0x2_0000, 0), Err(Error::InvalidUtf16));
}

#[test]
fn narrow_name_in_a_chunk_ends_at_zero() {
    let ctx = ctx((4, 21), false);
    let image = chunks(&entry(6, b"Actor\0rest"));
    assert_eq!(resolve(&image, &ctx, 0x4003, 0), Ok("Actor".to_string()));
    assert_eq!(resolve(&image, &ctx, 0x4003, 3), Ok("Actor_2".to_string()));
}

#[test]
fn wide_name_in_a_chunk_ends_at_zero() {
    let ctx = ctx((4, 13), false);
    let image = chunks(&entry(7, &[0x3d, 0xd8, 0x00, 0xde, 0x41, 0, 0, 0, 0x42, 0]));
    assert_eq!(resolve(&image, &ctx, 0x4003, 0), Ok("\u{1F600}A".to_string()));
}

#[test]
fn name_in_a_chunk_fails_where_memory_ends() {
    let ctx = ctx((4, 21), false);
    assert_eq!(resolve(&chunks(&entry(6, b"Act")), &ctx, 0x4003, 0), Err(Error::ReadFailed));
    assert_eq!(resolve(&chunks(&entry(6, b"")), &ctx, 0x4002, 0), Err(Error::NullPointer));
    assert_eq!(resolve(&chunks(&entry(6, b"")), &ctx, 0x0003, 0), Err(Error::NullPointer));
    let invalid = chunks(&entry(6, &[0x80, 0]));
    assert_eq!(resolve(&invalid, &ctx, 0x4003, 0), Err(Error::InvalidUtf8));
    let invalid = chunks(&entry(7, &[0x00, 0xd8, 0, 0]));
    assert_eq!(resolve(&invalid, &ctx, 0x4003, 0), Err(Error::InvalidUtf16));
}

#[test]
fn name_is_read_by_its_index_and_number() {
    let mut block = (3u16 << 6).to_le_bytes().to_vec();
    block.extend_from_slice(b"Bar");
    let ctx = ctx((5, 4), false);
    let mut fname = 0x2_0000u32.to_le_bytes().to_vec();
    fname.extend_from_slice(&8u32.to_le_bytes());
    let image = pool(&block).put(0x7000, &fname);
    let pointer: Ptr<FName> = Ptr::new(0x7000, &ctx).unwrap();
    assert_eq!(pointer.comparison_index().value().address(), 0x7000);
    assert_eq!(pointer.number().address(), 0x7004);
    let name = run(pointer.read(), |address, len| image.read(address, len));
    assert_eq!(name, Ok("Bar_7".to_string()));
    let nowhere: Ptr<FName> = Ptr::new(0x7004, &ctx).unwrap();
    let name = run(nowhere.read(), |address, len| image.read(address, len));
    assert_eq!(name, Err(Error::ReadFailed));
}

#[test]
fn blocks_lie_where_the_layout_says() {
    let ctx = ctx((5, 4), false);
    let pool: Ptr<FNameEntryAllocator> = Ptr::new(0x1000, &ctx).unwrap();
    assert_eq!(pool.blocks().address(), 0x1010);
}
