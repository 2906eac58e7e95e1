//! What looking names up gives, by what was written into the pool.
use vstd::prelude::*;
use vstd::utf8::encode_utf8;
use crate::encoding::{
    le_bytes, text_bytes, text_reads_back, text_takes_its_bytes, utf16_reads_back, utf16_units,
    utf8_reads_back,
};
use crate::mem::{Ctx, Error, Ptr};
use crate::mem_laws::{
    address_after_adds, legacy_is_before_4_22, refuses, stores, u16_is_read, u32_is_read,
    u64_is_read,
};
use crate::names::{
    fname_at, legacy_entry_name, name_of, narrow_until_nul, pooled_entry_name, wide_until_nul, FName,
};
use crate::task::Memory;
use crate::text::{decimal, text_at};

verus! {

/// A name: a text, and for a number above zero an underscore and the number less one.
pub open spec fn written_name(text: Seq<char>, number: u32) -> Seq<char> {
    if number == 0 {
        text
    } else {
        text + seq!['_'] + decimal((number - 1) as nat)
    }
}

/// Whether the target is as old as 4.22 or newer.
pub open spec fn has_blocks(ctx: Ctx) -> bool {
    0x1_0000 * ctx.version.0 + ctx.version.1 >= 0x4_0016
}

/// Where the pool keeps the pointer to the block of a name; `offset` is where the pointers start.
pub open spec fn pointer_place(ctx: Ctx, offset: usize, index: u32) -> int {
    ctx.fnamepool + offset + 8 * (index / 0x1_0000)
}

/// Where the header of a name lies, in a block at an address.
pub open spec fn header_place(ctx: Ctx, block: u64, index: u32) -> int {
    if ctx.case_preserving {
        block + 4 * (index % 0x1_0000) + 4
    } else {
        block + 2 * (index % 0x1_0000)
    }
}

/// The header of a text of some units: the lowest bit tells UTF-16, and the number of units
/// stands above that bit where names keep their case, and else above five more bits.
pub open spec fn written_header(case_preserving: bool, units: int, hash: int, wide: bool) -> int {
    (if case_preserving {
        2 * units
    } else {
        64 * units + 2 * hash
    }) + (if wide {
        1int
    } else {
        0int
    })
}

/// Whether a header can say that a text has so many units.
pub open spec fn is_header(case_preserving: bool, units: int, hash: int) -> bool {
    if case_preserving {
        0 <= units <= 32767
    } else {
        0 <= units <= 1023 && 0 <= hash < 32
    }
}

/// Whether the pointer to the block of a name says `block`.
pub open spec fn has_block(mem: Memory, ctx: Ctx, offset: usize, index: u32, block: u64) -> bool {
    &&& has_blocks(ctx)
    &&& ctx.fnamepool != 0
    &&& ctx.offset_of("FNameEntryAllocator"@, "Blocks"@) == Some(offset)
    &&& stores(mem, pointer_place(ctx, offset, index), le_bytes(block as int, 8))
}

/// An entry of a block is what the bytes behind its header are.
proof fn lemma_entry_name(
    mem: Memory,
    header: u64,
    case_preserving: bool,
    units: nat,
    hash: int,
    wide: bool,
    bytes: Seq<u8>,
)
    requires
        is_header(case_preserving, units as int, hash),
        bytes.len() == if wide { 2 * units } else { units },
        stores(
            mem,
            header as int,
            le_bytes(written_header(case_preserving, units as int, hash, wide), 2),
        ),
    ensures
        stores(mem, header + 2, bytes) ==> pooled_entry_name(mem, header, case_preserving)
            == text_at(bytes, 0, units, wide),
        refuses(mem, header + 2, bytes.len() as int) ==> pooled_entry_name(
            mem,
            header,
            case_preserving,
        ) == Err::<Seq<char>, Error>(Error::ReadFailed),
{
    let bits = written_header(case_preserving, units as int, hash, wide) as u16;
    u16_is_read(mem, header, bits);
    address_after_adds(header, 2);
    text_takes_its_bytes(units);
}

/// Looking up a name in a block leads to the entry at the name's place.
proof fn lemma_leads_to_entry(
    mem: Memory,
    ctx: Ctx,
    offset: usize,
    index: u32,
    block: u64,
    header: u64,
)
    requires
        has_block(mem, ctx, offset, index, block),
        block != 0,
        header == header_place(ctx, block, index),
    ensures
        name_of(mem, ctx, index, 0) == pooled_entry_name(mem, header, ctx.case_preserving),
{
    legacy_is_before_4_22(ctx);
    address_after_adds(ctx.fnamepool, offset as nat);
    address_after_adds(
        (ctx.fnamepool + offset) as u64,
        8 * (index / 0x1_0000) as nat,
    );
    u64_is_read(mem, pointer_place(ctx, offset, index) as u64, block);
    address_after_adds(block, (header - block) as nat);
}

/// A number adds its suffix to whatever name there is without it, and leaves errors as they are.
pub proof fn number_adds_its_suffix(mem: Memory, ctx: Ctx, index: u32, number: u32)
    ensures
        match name_of(mem, ctx, index, 0) {
            Ok(text) => name_of(mem, ctx, index, number) == Ok::<Seq<char>, Error>(
                written_name(text, number),
            ),
            Err(error) => name_of(mem, ctx, index, number) == Err::<Seq<char>, Error>(error),
        },
{
    reveal_strlit("_");
    assert("_"@ =~= seq!['_']);
}

/// A text that was written into a block behind its header is the whole name that a lookup gives.
pub proof fn pooled_name_reads_back(
    mem: Memory,
    ctx: Ctx,
    offset: usize,
    index: u32,
    number: u32,
    block: u64,
    units: nat,
    hash: int,
    wide: bool,
    text: Seq<char>,
)
    requires
        has_block(mem, ctx, offset, index, block),
        block != 0,
        is_header(ctx.case_preserving, units as int, hash),
        text_bytes(text, wide).len() == if wide { 2 * units } else { units },
        stores(
            mem,
            header_place(ctx, block, index),
            le_bytes(written_header(ctx.case_preserving, units as int, hash, wide), 2),
        ),
        stores(mem, header_place(ctx, block, index) + 2, text_bytes(text, wide)),
    ensures
        name_of(mem, ctx, index, number) == Ok::<Seq<char>, Error>(written_name(text, number)),
{
    let bytes = text_bytes(text, wide);
    let header = header_place(ctx, block, index) as u64;
    lemma_leads_to_entry(mem, ctx, offset, index, block, header);
    lemma_entry_name(mem, header, ctx.case_preserving, units, hash, wide, bytes);
    text_reads_back(bytes, 0, units, wide, text);
    assert(bytes.subrange(0, bytes.len() as int) =~= bytes);
    number_adds_its_suffix(mem, ctx, index, number);
}

/// Bytes in a block that are no text are an error, and so is every read on the way that is
/// refused, and every pointer that is null.
pub proof fn pooled_name_fails(
    mem: Memory,
    ctx: Ctx,
    offset: usize,
    index: u32,
    number: u32,
    block: u64,
    units: nat,
    hash: int,
    wide: bool,
    bytes: Seq<u8>,
)
    requires
        has_blocks(ctx),
        ctx.offset_of("FNameEntryAllocator"@, "Blocks"@) == Some(offset),
    ensures
        ctx.fnamepool == 0 ==> name_of(mem, ctx, index, number) == Err::<Seq<char>, Error>(
            Error::NullPointer,
        ),
        ctx.fnamepool != 0 && pointer_place(ctx, offset, index) > 0xffff_ffff_ffff_ffff ==> name_of(
            mem,
            ctx,
            index,
            number,
        ) == Err::<Seq<char>, Error>(Error::AddressOverflow),
        ctx.fnamepool != 0 && refuses(mem, pointer_place(ctx, offset, index), 8) ==> name_of(
            mem,
            ctx,
            index,
            number,
        ) == Err::<Seq<char>, Error>(Error::ReadFailed),
        has_block(mem, ctx, offset, index, 0) ==> name_of(mem, ctx, index, number) == Err::<
            Seq<char>,
            Error,
        >(Error::NullPointer),
        has_block(mem, ctx, offset, index, block) && block != 0 ==> {
            let place = header_place(ctx, block, index);
            let header = written_header(ctx.case_preserving, units as int, hash, wide);
            &&& place > 0xffff_ffff_ffff_ffff ==> name_of(mem, ctx, index, number) == Err::<
                Seq<char>,
                Error,
            >(Error::AddressOverflow)
            &&& refuses(mem, place, 2) ==> name_of(mem, ctx, index, number) == Err::<
                Seq<char>,
                Error,
            >(Error::ReadFailed)
            &&& is_header(ctx.case_preserving, units as int, hash) && bytes.len() == (if wide {
                2 * units
            } else {
                units
            }) && stores(mem, place, le_bytes(header, 2)) ==> {
                &&& refuses(mem, place + 2, bytes.len() as int) ==> name_of(
                    mem,
                    ctx,
                    index,
                    number,
                ) == Err::<Seq<char>, Error>(Error::ReadFailed)
                &&& stores(mem, place + 2, bytes) && (forall|text: Seq<char>|
                    bytes != #[trigger] text_bytes(text, wide)) ==> name_of(
                    mem,
                    ctx,
                    index,
                    number,
                ) == Err::<Seq<char>, Error>(if wide {
                    Error::InvalidUtf16
                } else {
                    Error::InvalidUtf8
                })
            }
        },
{
    number_adds_its_suffix(mem, ctx, index, number);
    legacy_is_before_4_22(ctx);
    address_after_adds(ctx.fnamepool, offset as nat);
    if ctx.fnamepool + offset <= 0xffff_ffff_ffff_ffff {
        address_after_adds(
            (ctx.fnamepool + offset) as u64,
            8 * (index / 0x1_0000) as nat,
        );
    }
    u64_is_read(mem, pointer_place(ctx, offset, index) as u64, block);
    u64_is_read(mem, pointer_place(ctx, offset, index) as u64, 0);
    let place = header_place(ctx, block, index);
    address_after_adds(block, (place - block) as nat);
    if has_block(mem, ctx, offset, index, block) && block != 0 && place <= 0xffff_ffff_ffff_ffff {
        lemma_leads_to_entry(mem, ctx, offset, index, block, place as u64);
        u16_is_read(mem, place as u64, 0);
        if is_header(ctx.case_preserving, units as int, hash) && bytes.len() == (if wide {
            2 * units
        } else {
            units
        }) && stores(
            mem,
            place,
            le_bytes(written_header(ctx.case_preserving, units as int, hash, wide), 2),
        ) {
            lemma_entry_name(
                mem,
                place as u64,
                ctx.case_preserving,
                units,
                hash,
                wide,
                bytes,
            );
            if let Ok(text) = text_at(bytes, 0, units, wide) {
                text_reads_back(bytes, 0, units, wide, text);
                assert(bytes.subrange(0, bytes.len() as int) =~= bytes);
            } else {
                text_reads_back(bytes, 0, units, wide, Seq::empty());
            }
        }
    }
}

/// Whether units that are not zero stand one behind the other from `address` on.
pub open spec fn stores_units(mem: Memory, address: int, units: Seq<u16>) -> bool {
    forall|i: int|
        0 <= i < units.len() ==> (#[trigger] units[i]) != 0 && stores(
            mem,
            address + 2 * i,
            le_bytes(units[i] as int, 2),
        )
}

/// Whether bytes that are not zero stand one behind the other from `address` on.
pub open spec fn stores_each(mem: Memory, address: int, bytes: Seq<u8>) -> bool {
    forall|i: int|
        0 <= i < bytes.len() ==> (#[trigger] bytes[i]) != 0 && stores(
            mem,
            address + i,
            seq![bytes[i]],
        )
}

/// Units are taken up to the first zero.
proof fn lemma_wide_until_nul(mem: Memory, address: int, units: Seq<u16>)
    requires
        0 <= address,
        stores_units(mem, address, units),
    ensures
        stores(mem, address + 2 * units.len(), le_bytes(0, 2)) ==> wide_until_nul(mem, address)
            == Ok::<Seq<u16>, Error>(units),
        refuses(mem, address + 2 * units.len(), 2) ==> wide_until_nul(mem, address) == Err::<
            Seq<u16>,
            Error,
        >(Error::ReadFailed),
        address + 2 * units.len() > 0xffff_ffff_ffff_ffff ==> wide_until_nul(mem, address) == Err::<
            Seq<u16>,
            Error,
        >(Error::AddressOverflow),
    decreases units.len(),
{
    if units.len() == 0 {
        assert(units =~= Seq::<u16>::empty());
        if address <= 0xffff_ffff_ffff_ffff {
            u16_is_read(mem, address as u64, 0);
        }
    } else {
        let rest = units.drop_first();
        assert(units[0] != 0 && stores(mem, address + 2 * 0, le_bytes(units[0] as int, 2)));
        u16_is_read(mem, address as u64, units[0]);
        assert forall|i: int| 0 <= i < rest.len() implies (#[trigger] rest[i]) != 0 && stores(
            mem,
            address + 2 + 2 * i,
            le_bytes(rest[i] as int, 2),
        ) by {
            assert(units[i + 1] != 0);
            assert(address + 2 + 2 * i == address + 2 * (i + 1));
        }
        lemma_wide_until_nul(mem, address + 2, rest);
        assert(address + 2 + 2 * rest.len() == address + 2 * units.len());
        assert(seq![units[0]] + rest =~= units);
    }
}

/// Bytes are taken up to the first zero.
proof fn lemma_narrow_until_nul(mem: Memory, address: int, bytes: Seq<u8>)
    requires
        0 <= address,
        stores_each(mem, address, bytes),
    ensures
        stores(mem, address + bytes.len(), seq![0u8]) ==> narrow_until_nul(mem, address) == Ok::<
            Seq<u8>,
            Error,
        >(bytes),
        refuses(mem, address + bytes.len(), 1) ==> narrow_until_nul(mem, address) == Err::<
            Seq<u8>,
            Error,
        >(Error::ReadFailed),
        address + bytes.len() > 0xffff_ffff_ffff_ffff ==> narrow_until_nul(mem, address) == Err::<
            Seq<u8>,
            Error,
        >(Error::AddressOverflow),
    decreases bytes.len(),
{
    if bytes.len() == 0 {
        assert(bytes =~= Seq::<u8>::empty());
    } else {
        let rest = bytes.drop_first();
        assert(bytes[0] != 0 && stores(mem, address + 0, seq![bytes[0]]));
        assert forall|i: int| 0 <= i < rest.len() implies (#[trigger] rest[i]) != 0 && stores(
            mem,
            address + 1 + i,
            seq![rest[i]],
        ) by {
            assert(bytes[i + 1] != 0);
        }
        lemma_narrow_until_nul(mem, address + 1, rest);
        assert(seq![bytes[0]] + rest =~= bytes);
    }
}

/// Whether the table, the chunk and the slot of a name lead to `entry`.
pub open spec fn leads_to_entry(
    mem: Memory,
    ctx: Ctx,
    index: u32,
    table: u64,
    chunk: u64,
    entry: u64,
) -> bool {
    &&& !has_blocks(ctx)
    &&& ctx.fnamepool != 0 && table != 0 && chunk != 0
    &&& stores(mem, ctx.fnamepool as int, le_bytes(table as int, 8))
    &&& stores(mem, table + 8 * (index / 0x4000), le_bytes(chunk as int, 8))
    &&& stores(mem, chunk + 8 * (index % 0x4000), le_bytes(entry as int, 8))
}

/// Before 4.22 a lookup follows the table, the chunk and the slot to the entry.
proof fn lemma_leads_to_legacy_entry(
    mem: Memory,
    ctx: Ctx,
    index: u32,
    table: u64,
    chunk: u64,
    entry: u64,
)
    requires
        leads_to_entry(mem, ctx, index, table, chunk, entry),
    ensures
        name_of(mem, ctx, index, 0) == if entry == 0 {
            Err::<Seq<char>, Error>(Error::NullPointer)
        } else {
            legacy_entry_name(mem, entry)
        },
{
    legacy_is_before_4_22(ctx);
    u64_is_read(mem, ctx.fnamepool, table);
    address_after_adds(table, 8 * (index / 0x4000) as nat);
    u64_is_read(mem, (table + 8 * (index / 0x4000)) as u64, chunk);
    address_after_adds(chunk, 8 * (index % 0x4000) as nat);
    u64_is_read(mem, (chunk + 8 * (index % 0x4000)) as u64, entry);
}

/// A text that was written into an entry before 4.22, up to a zero, is the whole name that a
/// lookup gives. An odd tag tells UTF-16.
pub proof fn legacy_name_reads_back(
    mem: Memory,
    ctx: Ctx,
    index: u32,
    number: u32,
    table: u64,
    chunk: u64,
    entry: u64,
    tag: u32,
    text: Seq<char>,
)
    requires
        leads_to_entry(mem, ctx, index, table, chunk, entry),
        entry != 0,
        stores(mem, entry as int, le_bytes(tag as int, 4)),
        tag % 2 == 1 ==> {
            &&& stores_units(mem, entry + 16, utf16_units(text))
            &&& stores(mem, entry + 16 + 2 * utf16_units(text).len(), le_bytes(0, 2))
        },
        tag % 2 == 0 ==> {
            &&& stores_each(mem, entry + 16, encode_utf8(text))
            &&& stores(mem, entry + 16 + encode_utf8(text).len(), seq![0u8])
        },
    ensures
        name_of(mem, ctx, index, number) == Ok::<Seq<char>, Error>(written_name(text, number)),
{
    number_adds_its_suffix(mem, ctx, index, number);
    lemma_leads_to_legacy_entry(mem, ctx, index, table, chunk, entry);
    u32_is_read(mem, entry, tag);
    address_after_adds(entry, 16);
    if tag % 2 == 1 {
        lemma_wide_until_nul(mem, entry + 16, utf16_units(text));
        assert(Seq::<u16>::empty() + utf16_units(text) =~= utf16_units(text));
        utf16_reads_back(utf16_units(text), text);
    } else {
        lemma_narrow_until_nul(mem, entry + 16, encode_utf8(text));
        assert(Seq::<u8>::empty() + encode_utf8(text) =~= encode_utf8(text));
        utf8_reads_back(encode_utf8(text), text);
    }
}

/// Before 4.22 a null pointer on the way to an entry is an error, and so is a read that is
/// refused.
pub proof fn legacy_lookup_fails(
    mem: Memory,
    ctx: Ctx,
    index: u32,
    number: u32,
    table: u64,
    chunk: u64,
    entry: u64,
)
    requires
        !has_blocks(ctx),
    ensures
        ({
            let name = name_of(mem, ctx, index, number);
            let slot = table + 8 * (index / 0x4000);
            let place = chunk + 8 * (index % 0x4000);
            &&& ctx.fnamepool == 0 ==> name == Err::<Seq<char>, Error>(Error::NullPointer)
            &&& ctx.fnamepool != 0 && refuses(mem, ctx.fnamepool as int, 8) ==> name == Err::<
                Seq<char>,
                Error,
            >(Error::ReadFailed)
            &&& ctx.fnamepool != 0 && stores(
                mem,
                ctx.fnamepool as int,
                le_bytes(table as int, 8),
            ) ==> {
                &&& table == 0 ==> name == Err::<Seq<char>, Error>(Error::NullPointer)
                &&& table != 0 && slot > 0xffff_ffff_ffff_ffff ==> name == Err::<Seq<char>, Error>(
                    Error::AddressOverflow,
                )
                &&& table != 0 && refuses(mem, slot, 8) ==> name == Err::<Seq<char>, Error>(
                    Error::ReadFailed,
                )
                &&& table != 0 && stores(mem, slot, le_bytes(chunk as int, 8)) ==> {
                    &&& chunk == 0 ==> name == Err::<Seq<char>, Error>(Error::NullPointer)
                    &&& chunk != 0 && place > 0xffff_ffff_ffff_ffff ==> name == Err::<
                        Seq<char>,
                        Error,
                    >(Error::AddressOverflow)
                    &&& chunk != 0 && refuses(mem, place, 8) ==> name == Err::<Seq<char>, Error>(
                        Error::ReadFailed,
                    )
                    &&& chunk != 0 && stores(mem, place, le_bytes(0, 8)) ==> name == Err::<
                        Seq<char>,
                        Error,
                    >(Error::NullPointer)
                    &&& chunk != 0 && entry != 0 && stores(mem, place, le_bytes(entry as int, 8))
                        && refuses(mem, entry as int, 4) ==> name == Err::<Seq<char>, Error>(
                        Error::ReadFailed,
                    )
                }
            }
        }),
{
    number_adds_its_suffix(mem, ctx, index, number);
    legacy_is_before_4_22(ctx);
    let slot = table + 8 * (index / 0x4000);
    let place = chunk + 8 * (index % 0x4000);
    u64_is_read(mem, ctx.fnamepool, table);
    address_after_adds(table, 8 * (index / 0x4000) as nat);
    u64_is_read(mem, slot as u64, chunk);
    address_after_adds(chunk, 8 * (index % 0x4000) as nat);
    u64_is_read(mem, place as u64, entry);
    u64_is_read(mem, place as u64, 0);
    u32_is_read(mem, entry, 0);
}

/// Before 4.22 the text of an entry is an error where memory or the address space ends before the
/// zero, and where it is not valid.
pub proof fn legacy_text_fails(
    mem: Memory,
    ctx: Ctx,
    index: u32,
    number: u32,
    table: u64,
    chunk: u64,
    entry: u64,
    tag: u32,
    units: Seq<u16>,
    bytes: Seq<u8>,
)
    requires
        leads_to_entry(mem, ctx, index, table, chunk, entry),
        entry != 0,
        stores(mem, entry as int, le_bytes(tag as int, 4)),
        tag % 2 == 1 ==> stores_units(mem, entry + 16, units),
        tag % 2 == 0 ==> stores_each(mem, entry + 16, bytes),
    ensures
        ({
            let name = name_of(mem, ctx, index, number);
            let end = entry + 16 + if tag % 2 == 1 {
                2 * units.len()
            } else {
                bytes.len()
            };
            &&& end > 0xffff_ffff_ffff_ffff ==> name == Err::<Seq<char>, Error>(
                Error::AddressOverflow,
            )
            &&& tag % 2 == 1 && refuses(mem, end, 2) ==> name == Err::<Seq<char>, Error>(
                Error::ReadFailed,
            )
            &&& tag % 2 == 0 && refuses(mem, end, 1) ==> name == Err::<Seq<char>, Error>(
                Error::ReadFailed,
            )
            &&& tag % 2 == 1 && stores(mem, end, le_bytes(0, 2)) && (forall|text: Seq<char>|
                units != #[trigger] utf16_units(text)) ==> name == Err::<Seq<char>, Error>(
                Error::InvalidUtf16,
            )
            &&& tag % 2 == 0 && stores(mem, end, seq![0u8]) && (forall|text: Seq<char>|
                bytes != #[trigger] encode_utf8(text)) ==> name == Err::<Seq<char>, Error>(
                Error::InvalidUtf8,
            )
        }),
{
    number_adds_its_suffix(mem, ctx, index, number);
    lemma_leads_to_legacy_entry(mem, ctx, index, table, chunk, entry);
    u32_is_read(mem, entry, tag);
    address_after_adds(entry, 16);
    if tag % 2 == 1 {
        if units.len() > 0 {
            assert(units[0] != 0 && stores(mem, entry + 16 + 2 * 0, le_bytes(units[0] as int, 2)));
        }
        lemma_wide_until_nul(mem, entry + 16, units);
        assert(Seq::<u16>::empty() + units =~= units);
        let decoded = crate::text::utf16_text(units);
        utf16_reads_back(units, if decoded is Ok { decoded->Ok_0 } else { Seq::empty() });
    } else {
        if bytes.len() > 0 {
            assert(bytes[0] != 0 && stores(mem, entry + 16 + 0, seq![bytes[0]]));
        }
        lemma_narrow_until_nul(mem, entry + 16, bytes);
        assert(Seq::<u8>::empty() + bytes =~= bytes);
        let decoded = crate::text::utf8_text(bytes);
        utf8_reads_back(bytes, if decoded is Ok { decoded->Ok_0 } else { Seq::empty() });
    }
}

/// A name in memory is the name in the pool with the index and the number that were written at
/// the offsets of these members.
pub proof fn fname_is_looked_up<'a>(
    mem: Memory,
    fname: Ptr<'a, FName>,
    index_offset: usize,
    number_offset: usize,
    index: u32,
    number: u32,
)
    requires
        fname.ctx.offset_of("FName"@, "ComparisonIndex"@) == Some(index_offset),
        fname.ctx.offset_of("FName"@, "Number"@) == Some(number_offset),
        fname.address + index_offset <= 0xffff_ffff_ffff_ffff,
        fname.address + number_offset <= 0xffff_ffff_ffff_ffff,
    ensures
        stores(mem, fname.address + number_offset, le_bytes(number as int, 4)) && stores(
            mem,
            fname.address + index_offset,
            le_bytes(index as int, 4),
        ) ==> fname_at(mem, fname) == name_of(mem, *fname.ctx, index, number),
        refuses(mem, fname.address + number_offset, 4) ==> fname_at(mem, fname) == Err::<
            Seq<char>,
            Error,
        >(Error::ReadFailed),
        stores(mem, fname.address + number_offset, le_bytes(number as int, 4)) && refuses(
            mem,
            fname.address + index_offset,
            4,
        ) ==> fname_at(mem, fname) == Err::<Seq<char>, Error>(Error::ReadFailed),
{
    u32_is_read(mem, (fname.address + number_offset) as u64, number);
    u32_is_read(mem, (fname.address + index_offset) as u64, index);
}

} // verus!
