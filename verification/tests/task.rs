use jmap_dumper::bytes::{read_le_u16, read_le_u32, read_le_u64, to_signed};
use jmap_dumper::mem::{advance, Ctx, Error, Member, Ptr};
use jmap_dumper::task::{run, Progress, Request, Task};
use jmap_dumper::text::{append_decimal, decode_narrow, decode_text, decode_wide};
use jmap_dumper::vtable::{walk_vtable, VtableEntry};

fn ctx() -> Ctx {
    Ctx {
        fnamepool: 0,
        case_preserving: false,
        version: (4, 22),
        members: vec![
            Member { owner: "A".to_string(), name: "X".to_string(), offset: 8 },
            Member { owner: "B".to_string(), name: "X".to_string(), offset: 16 },
            Member { owner: "A".to_string(), name: "X".to_string(), offset: 24 },
        ],
    }
}

#[test]
fn bytes_are_little_endian() {
    let bytes = vec![0xff, 1, 2, 3, 4, 5, 6, 7, 8];
    assert_eq!(read_le_u16(&bytes, 1), 0x0201);
    assert_eq!(read_le_u32(&bytes, 1), 0x0403_0201);
    assert_eq!(read_le_u64(&bytes, 1), 0x0807_0605_0403_0201);
    assert_eq!(to_signed(0x7fff_ffff), i32::MAX);
    assert_eq!(to_signed(0x8000_0000), i32::MIN);
    assert_eq!(to_signed(u32::MAX), -1);
}

#[test]
fn members_are_found_by_owner_and_name() {
    let ctx = ctx();
    assert_eq!(ctx.find_member("A", "X"), Some(8));
    assert_eq!(ctx.find_member("B", "X"), Some(16));
    assert_eq!(ctx.find_member("B", "Y"), None);
    assert_eq!(ctx.struct_member("B", "X"), 16);
}

#[test]
fn blocks_came_with_4_22() {
    let mut ctx = ctx();
    assert_eq!(ctx.ue_version(), (4, 22));
    assert!(!ctx.legacy());
    for (version, legacy) in [((4, 21), true), ((3, 99), true), ((5, 0), false), ((4, 23), false)] {
        ctx.version = version;
        assert_eq!(ctx.legacy(), legacy);
    }
}

#[test]
fn addresses_stay_in_the_address_space() {
    assert_eq!(advance(1, 2), Ok(3));
    assert_eq!(advance(u64::MAX - 1, 1), Ok(u64::MAX));
    assert_eq!(advance(u64::MAX, 1), Err(Error::AddressOverflow));
}

#[test]
fn pointers_are_not_null() {
    let ctx = ctx();
    assert!(matches!(Ptr::<u8>::new(0, &ctx), Err(Error::NullPointer)));
    let pointer: Ptr<u32> = Ptr::new(0x10, &ctx).unwrap();
    assert_eq!(pointer.byte_offset(3).address(), 0x13);
    assert_eq!(pointer.offset(3).address(), 0x1c);
    assert_eq!(pointer.cast::<u16>().offset(3).address(), 0x16);
    assert_eq!(pointer.ctx().ue_version(), (4, 22));
}

#[test]
fn task_asks_for_the_bytes_it_needs() {
    let ctx = ctx();
    let pointer: Ptr<u16> = Ptr::new(0x40, &ctx).unwrap();
    match pointer.read_vec(3) {
        Progress::Waiting(task) => {
            assert_eq!(task.request(), Request { address: 0x40, len: 6 });
            match task.resume(Some(vec![1, 0, 2, 0, 3, 0])) {
                Progress::Done(values) => assert_eq!(values, Ok(vec![1, 2, 3])),
                Progress::Waiting(_) => panic!("the values are there"),
            }
        }
        Progress::Done(_) => panic!("the values must be read"),
    }
}

#[test]
fn task_goes_on_from_reply_to_reply() {
    let mut progress = walk_vtable(VtableEntry { vtable: 0x10, bound: Some(0x18) });
    let mut requests = Vec::new();
    let functions = loop {
        match progress {
            Progress::Done(functions) => break functions,
            Progress::Waiting(task) => {
                let request = task.request();
                requests.push(request);
                let reply = if request.len == 8 { vec![9, 0, 0, 0, 0, 0, 0, 0] } else { vec![0] };
                progress = task.resume(Some(reply));
            }
        }
    };
    assert_eq!(functions, vec![9]);
    assert_eq!(
        requests,
        vec![Request { address: 0x10, len: 8 }, Request { address: 9, len: 1 }]
    );
}

#[test]
fn values_of_each_kind_are_read() {
    let ctx = ctx();
    let reply = |_: u64, len: u64| Some(vec![0xfe; len as usize]);
    let pointer: Ptr<u8> = Ptr::new(1, &ctx).unwrap();
    assert_eq!(run(pointer.read(), reply), Ok(0xfe));
    assert_eq!(run(pointer.cast::<u16>().read(), reply), Ok(0xfefe));
    assert_eq!(run(pointer.cast::<u32>().read(), reply), Ok(0xfefe_fefe));
    assert_eq!(run(pointer.cast::<i32>().read(), reply), Ok(-0x0101_0102));
    assert_eq!(run(pointer.cast::<u64>().read(), reply), Ok(0xfefe_fefe_fefe_fefe));
    let target = run(pointer.cast::<Ptr<u8>>().read(), reply);
    assert_eq!(target.map(|target| target.address()), Ok(0xfefe_fefe_fefe_fefe));
    let null = |_: u64, len: u64| Some(vec![0; len as usize]);
    let target = run(pointer.cast::<Ptr<u8>>().read(), null);
    assert_eq!(target.map(|target| target.address()), Err(Error::NullPointer));
    let target = run(pointer.cast::<Option<Ptr<u8>>>().read(), null);
    assert!(matches!(target, Ok(None)));
    assert_eq!(run(pointer.read(), |_, _| None), Err(Error::ReadFailed));
}

#[test]
fn text_is_decoded() {
    assert_eq!(decode_wide(&vec![0x20ac, 0xd834, 0xdd1e]), Ok("\u{20ac}\u{1d11e}".to_string()));
    assert_eq!(decode_wide(&vec![0xdd1e, 0xd834]), Err(Error::InvalidUtf16));
    assert_eq!(decode_wide(&vec![0xd834]), Err(Error::InvalidUtf16));
    assert_eq!(decode_narrow(vec![0xe2, 0x82, 0xac]), Ok("\u{20ac}".to_string()));
    assert_eq!(decode_narrow(vec![0xe2, 0x82]), Err(Error::InvalidUtf8));
    let bytes = vec![9, b'h', 0, b'i', 0, 9];
    assert_eq!(decode_text(&bytes, 1, 2, true), Ok("hi".to_string()));
    assert_eq!(decode_text(&bytes, 1, 3, false), Ok("h\0i".to_string()));
}

#[test]
fn decimals_are_written() {
    for value in [0u32, 7, 10, 99, 100, 1234567890, u32::MAX] {
        let mut text = "n".to_string();
        append_decimal(&mut text, value);
        assert_eq!(text, format!("n{value}"));
    }
}
