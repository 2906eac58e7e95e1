use jmap_dumper::arrays::{FString, FUtf8String, TArray, TSizedHeapAllocator};
use jmap_dumper::mem::{Ctx, Error, Ptr};
use jmap_dumper::task::run;

/// A memory made of regions that can be read.
struct Image {
    regions: Vec<(u64, Vec<u8>)>,
}

impl Image {
    fn new() -> Self {
        Image { regions: Vec::new() }
    }

    fn put(mut self, address: u64, bytes: &[u8]) -> Self {
        self.regions.push((address, bytes.to_vec()));
        self
    }

    fn read(&self, address: u64, len: u64) -> Option<Vec<u8>> {
        for (start, bytes) in &self.regions {
            if address < *start {
                continue;
            }
            let from = (address - *start) as usize;
            let to = from.checked_add(len as usize)?;
            if to <= bytes.len() {
                return Some(bytes[from..to].to_vec());
            }
        }
        None
    }
}

fn ctx() -> Ctx {
    Ctx { fnamepool: 0, case_preserving: false, version: (5, 0), members: Vec::new() }
}

/// The bytes of an array header.
fn header(data: u64, num: u32, max: u32) -> Vec<u8> {
    let mut bytes = data.to_le_bytes().to_vec();
    bytes.extend_from_slice(&num.to_le_bytes());
    bytes.extend_from_slice(&max.to_le_bytes());
    bytes
}

fn units(text: &[u16]) -> Vec<u8> {
    text.iter().flat_map(|unit| unit.to_le_bytes()).collect()
}

fn read_wide(image: &Image) -> Result<String, Error> {
    let ctx = ctx();
    let string: Ptr<FString> = Ptr::new(0x1000, &ctx).unwrap();
    run(string.read(), |address, len| image.read(address, len))
}

fn read_narrow(image: &Image) -> Result<String, Error> {
    let ctx = ctx();
    let string: Ptr<FUtf8String> = Ptr::new(0x1000, &ctx).unwrap();
    run(string.read(), |address, len| image.read(address, len))
}

#[test]
fn wide_string_stops_at_the_first_zero() {
    let image = Image::new()
        .put(0x1000, &header(0x2000, 5, 8))
        .put(0x2000, &units(&[0x48, 0x69, 0, 0x21, 0]));
    assert_eq!(read_wide(&image), Ok("Hi".to_string()));
}

#[test]
fn wide_string_without_zero_ends_with_the_array() {
    let image = Image::new()
        .put(0x1000, &header(0x2000, 3, 3))
        .put(0x2000, &units(&[0x41, 0xd83d, 0xde00]));
    assert_eq!(read_wide(&image), Ok("A\u{1F600}".to_string()));
}

#[test]
fn wide_string_that_starts_with_zero_is_empty() {
    let image =
        Image::new().put(0x1000, &header(0x2000, 2, 2)).put(0x2000, &units(&[0, 0x41]));
    assert_eq!(read_wide(&image), Ok(String::new()));
}

#[test]
fn wide_string_without_data_is_empty() {
    let image = Image::new().put(0x1000, &header(0, 7, 7));
    assert_eq!(read_wide(&image), Ok(String::new()));
}

#[test]
fn wide_string_with_a_lone_surrogate_is_invalid() {
    let image = Image::new()
        .put(0x1000, &header(0x2000, 2, 2))
        .put(0x2000, &units(&[0xd800, 0x41]));
    assert_eq!(read_wide(&image), Err(Error::InvalidUtf16));
}

#[test]
fn what_stands_behind_the_zero_need_not_be_valid() {
    let image = Image::new()
        .put(0x1000, &header(0x2000, 3, 3))
        .put(0x2000, &units(&[0x41, 0, 0xd800]));
    assert_eq!(read_wide(&image), Ok("A".to_string()));
}

#[test]
fn wide_string_that_cannot_be_read_fails() {
    let image = Image::new().put(0x1000, &header(0x2000, 2, 2));
    assert_eq!(read_wide(&image), Err(Error::ReadFailed));
    assert_eq!(read_wide(&Image::new()), Err(Error::ReadFailed));
    let image = Image::new().put(0x1000, &0x2000u64.to_le_bytes());
    assert_eq!(read_wide(&image), Err(Error::ReadFailed));
}

#[test]
fn narrow_string_is_the_whole_array() {
    let image = Image::new()
        .put(0x1000, &header(0x2000, 4, 4))
        .put(0x2000, &[b'a', 0xc3, 0xa9, 0]);
    assert_eq!(read_narrow(&image), Ok("a\u{e9}\0".to_string()));
}

#[test]
fn narrow_string_that_is_not_utf8_is_invalid() {
    let image = Image::new().put(0x1000, &header(0x2000, 2, 2)).put(0x2000, &[0xc3, 0x28]);
    assert_eq!(read_narrow(&image), Err(Error::InvalidUtf8));
}

#[test]
fn narrow_string_without_data_is_empty() {
    let image = Image::new().put(0x1000, &header(0, 1, 1));
    assert_eq!(read_narrow(&image), Ok(String::new()));
}

#[test]
fn array_gives_its_elements_at_once_and_one_by_one() {
    let ctx = ctx();
    let mut bytes = Vec::new();
    for value in [7u32, 0xdead_beef, 0] {
        bytes.extend_from_slice(&value.to_le_bytes());
    }
    let image = Image::new().put(0x1000, &header(0x2000, 3, 4)).put(0x2000, &bytes);
    let array: Ptr<TArray<u32>> = Ptr::new(0x1000, &ctx).unwrap();

    let values = run(array.read_vec(), |address, len| image.read(address, len));
    assert_eq!(values, Ok(vec![7, 0xdead_beef, 0]));
    assert_eq!(run(array.len(), |address, len| image.read(address, len)), Ok(3));
    let data = run(array.data(), |address, len| image.read(address, len)).unwrap();
    assert_eq!(data.unwrap().address(), 0x2000);

    let elements = match run(array.iter(), |address, len| image.read(address, len)) {
        Ok(elements) => elements,
        Err(error) => panic!("{error:?}"),
    };
    assert_eq!(elements.len(), 3);
    assert!(!elements.is_empty());
    let mut found = Vec::new();
    for index in 0..elements.len() {
        let element = elements.get(index);
        assert_eq!(element.address(), 0x2000 + 4 * index as u64);
        found.push(run(element.read(), |address, len| image.read(address, len)).unwrap());
    }
    assert_eq!(found, vec![7, 0xdead_beef, 0]);
}

#[test]
fn array_without_data_has_no_elements() {
    let ctx = ctx();
    let image = Image::new().put(0x1000, &header(0, 0, 0));
    let array: Ptr<TArray<u64, TSizedHeapAllocator<64>>> = Ptr::new(0x1000, &ctx).unwrap();
    assert_eq!(run(array.read_vec(), |address, len| image.read(address, len)), Ok(vec![]));
    assert!(run(array.data(), |address, len| image.read(address, len)).unwrap().is_none());
    let elements = run(array.iter(), |address, len| image.read(address, len));
    assert!(elements.is_ok_and(|elements| elements.is_empty() && elements.data.is_none()));
}

#[test]
fn array_of_pointers_has_no_null_pointer() {
    let ctx = ctx();
    let mut bytes = 0x3000u64.to_le_bytes().to_vec();
    bytes.extend_from_slice(&0u64.to_le_bytes());
    let image = Image::new().put(0x1000, &header(0x2000, 2, 2)).put(0x2000, &bytes);

    let array: Ptr<TArray<Ptr<u8>>> = Ptr::new(0x1000, &ctx).unwrap();
    let strict = run(array.read_vec(), |address, len| image.read(address, len));
    assert!(matches!(strict, Err(Error::NullPointer)));

    let array: Ptr<TArray<Option<Ptr<u8>>>> = array.cast();
    let lenient = run(array.read_vec(), |address, len| image.read(address, len)).unwrap();
    let addresses: Vec<Option<u64>> =
        lenient.iter().map(|pointer| pointer.map(|pointer| pointer.address())).collect();
    assert_eq!(addresses, vec![Some(0x3000), None]);
}
