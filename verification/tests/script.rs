use jmap_dumper::mem::{Ctx, Error, Member, Ptr};
use jmap_dumper::script::{FScriptArray, FScriptBitArray, FScriptMap, FScriptSparseArray};
use jmap_dumper::task::run;

/// A memory made of regions that can be read.
struct Image {
    regions: Vec<(u64, Vec<u8>)>,
}

impl Image {
    fn new() -> Self {
        Image { regions: Vec::new() }
    }

    fn put(mut self, address: u64, bytes: &[u8]) -> Self {
        self.regions.push((address, bytes.to_vec()));
        self
    }

    fn read(&self, address: u64, len: u64) -> Option<Vec<u8>> {
        for (start, bytes) in &self.regions {
            if address < *start {
                continue;
            }
            let from = (address - *start) as usize;
            let to = from.checked_add(len as usize)?;
            if to <= bytes.len() {
                return Some(bytes[from..to].to_vec());
            }
        }
        None
    }
}

fn member(owner: &str, name: &str, offset: usize) -> Member {
    Member { owner: owner.to_string(), name: name.to_string(), offset }
}

fn ctx() -> Ctx {
    Ctx {
        fnamepool: 0,
        case_preserving: false,
        version: (5, 0),
        members: vec![
            member("FScriptArray", "Data", 0),
            member("FScriptArray", "ArrayNum", 8),
            member("FScriptBitArray", "AllocatorInstance", 0),
            member("FDefaultBitArrayAllocator", "InlineData", 0),
            member("FDefaultBitArrayAllocator", "SecondaryData", 0x10),
            member("FScriptBitArray", "NumBits", 0x18),
            member("FScriptSparseArray", "Data", 0),
            member("FScriptSparseArray", "AllocationFlags", 0x10),
            member("FScriptSet", "Elements", 4),
            member("FScriptMap", "Pairs", 2),
        ],
    }
}

/// The bytes of a bit array.
fn bits(inline: [u32; 4], secondary: u64, num: i32) -> Vec<u8> {
    let mut bytes = Vec::new();
    for word in inline {
        bytes.extend_from_slice(&word.to_le_bytes());
    }
    bytes.extend_from_slice(&secondary.to_le_bytes());
    bytes.extend_from_slice(&num.to_le_bytes());
    bytes
}

fn bit(image: &Image, index: usize) -> Result<bool, Error> {
    let ctx = ctx();
    let bits: Ptr<FScriptBitArray> = Ptr::new(0x1000, &ctx).unwrap();
    run(bits.is_allocated(index), |address, len| image.read(address, len))
}

#[test]
fn members_lie_where_the_layout_says() {
    let ctx = ctx();
    let map: Ptr<FScriptMap> = Ptr::new(0x1000, &ctx).unwrap();
    let set = map.pairs();
    assert_eq!(set.address(), 0x1002);
    let sparse = set.elements();
    assert_eq!(sparse.address(), 0x1006);
    assert_eq!(sparse.data().address(), 0x1006);
    assert_eq!(sparse.allocation_flags().address(), 0x1016);
    let array: Ptr<FScriptArray> = sparse.data();
    assert_eq!(array.data().address(), 0x1006);
    assert_eq!(array.num().address(), 0x100e);
    let flags = sparse.allocation_flags();
    assert_eq!(flags.inline_data().address(), 0x1016);
    assert_eq!(flags.secondary_data().address(), 0x1026);
    assert_eq!(flags.num_bits().address(), 0x102e);
}

#[test]
fn bits_within_the_array() {
    let image = Image::new().put(0x1000, &bits([0b101, 0, 0x8000_0000, 1], 0, 97));
    let set: Vec<usize> = (0..130).filter(|index| bit(&image, *index).unwrap()).collect();
    assert_eq!(set, vec![0, 2, 95, 96]);
}

#[test]
fn bits_on_the_heap_replace_all_of_those_within() {
    let mut heap = vec![0u8; 24];
    heap[20] = 2;
    let image = Image::new()
        .put(0x1000, &bits([0xffff_ffff; 4], 0x5000, 190))
        .put(0x5000, &heap);
    assert_eq!(bit(&image, 0), Ok(false));
    assert_eq!(bit(&image, 161), Ok(true));
    assert_eq!(bit(&image, 162), Ok(false));
}

#[test]
fn bits_that_the_array_does_not_have_are_not_set() {
    let image = Image::new().put(0x1000, &bits([0xffff_ffff; 4], 0, 3));
    assert_eq!(bit(&image, 2), Ok(true));
    assert_eq!(bit(&image, 3), Ok(false));
    assert_eq!(bit(&image, usize::MAX), Ok(false));
    let empty = Image::new().put(0x1000, &bits([0xffff_ffff; 4], 0, 0));
    assert_eq!(bit(&empty, 0), Ok(false));
    let negative = Image::new().put(0x1000, &bits([0xffff_ffff; 4], 0, -1));
    assert_eq!(bit(&negative, 0), Ok(false));
}

#[test]
fn bits_that_cannot_be_read_are_an_error() {
    assert_eq!(bit(&Image::new(), 0), Err(Error::ReadFailed));
    let image = Image::new().put(0x1000, &bits([0; 4], 0x5000, 8));
    assert_eq!(bit(&image, 0), Err(Error::ReadFailed));
    let image = Image::new().put(0x1000, &bits([0; 4], u64::MAX - 2, 64));
    assert_eq!(bit(&image, 32), Err(Error::AddressOverflow));
    let image = Image::new().put(0x1018, &8i32.to_le_bytes());
    assert_eq!(bit(&image, 0), Err(Error::ReadFailed));
}

/// The bytes of a sparse array.
fn sparse(data: u64, num: i32, flags: &[u8]) -> Vec<u8> {
    let mut bytes = data.to_le_bytes().to_vec();
    bytes.extend_from_slice(&num.to_le_bytes());
    bytes.extend_from_slice(&[0; 4]);
    bytes.extend_from_slice(flags);
    bytes
}

#[test]
fn sparse_array_knows_its_slots() {
    let ctx = ctx();
    let array: Ptr<FScriptSparseArray> = Ptr::new(0x1000, &ctx).unwrap();
    let image = Image::new().put(0x1000, &sparse(0x9000, 5, &bits([0b1_0011, 0, 0, 0], 0, 5)));
    assert_eq!(run(array.get_max_index(), |address, len| image.read(address, len)), Ok(5));
    let used: Vec<usize> = (0..6)
        .filter(|index| {
            run(array.is_valid_index(*index), |address, len| image.read(address, len)).unwrap()
        })
        .collect();
    assert_eq!(used, vec![0, 1, 4]);
    let slot = run(array.get_data(4, 24), |address, len| image.read(address, len));
    assert_eq!(slot.map(|slot| slot.address()), Ok(0x9060));
}

#[test]
fn negative_number_of_slots_wraps_around() {
    let ctx = ctx();
    let array: Ptr<FScriptSparseArray> = Ptr::new(0x1000, &ctx).unwrap();
    let image = Image::new().put(0x1000, &sparse(0, -1, &[]));
    assert_eq!(
        run(array.get_max_index(), |address, len| image.read(address, len)),
        Ok(usize::MAX)
    );
    let image = Image::new().put(0x1000, &sparse(0, i32::MIN, &[]));
    assert_eq!(
        run(array.get_max_index(), |address, len| image.read(address, len)),
        Ok(i32::MIN as usize)
    );
}

#[test]
fn slot_of_a_sparse_array_without_elements_is_an_error() {
    let ctx = ctx();
    let array: Ptr<FScriptSparseArray> = Ptr::new(0x1000, &ctx).unwrap();
    let image = Image::new().put(0x1000, &sparse(0, 0, &[]));
    let slot = run(array.get_data(0, 8), |address, len| image.read(address, len));
    assert_eq!(slot.map(|slot| slot.address()), Err(Error::MissingElements));
    let image = Image::new().put(0x1000, &sparse(u64::MAX, 1, &[]));
    let slot = run(array.get_data(1, 8), |address, len| image.read(address, len));
    assert_eq!(slot.map(|slot| slot.address()), Err(Error::AddressOverflow));
    let slot = run(array.get_data(0, 8), |_, _| None);
    assert_eq!(slot.map(|slot| slot.address()), Err(Error::ReadFailed));
}
