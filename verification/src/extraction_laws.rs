//! What extracting the name pool gives, by the bytes of the pool.
use std::collections::BTreeMap;
use vstd::prelude::*;
use crate::bytes::{le_u16, le_u64};
use crate::encoding::{
    le_bytes, text_bytes, text_reads_back, text_takes_its_bytes, u16_reads_back, u64_reads_back,
};
use crate::mem::{address_after, read_u64, Ctx, Error};
use crate::mem_laws::{
    address_after_adds, le_bytes_len, legacy_is_before_4_22, refuses, stores, u32_is_read,
    u64_is_read,
};
use crate::name_laws::{has_blocks, is_header, written_header};
use crate::names::{header_len, header_wide, name_of};
use crate::pool::{
    block_len, block_place, blocks_from, byte_cursor, chunks_from, current_block, data_off,
    entries_from, entry_index, header_off, kept, names_of, pool_model, rounded_up, slot_index,
    slots_from, stride, with_block,
};
use crate::pool_laws::{
    extracted_names_resolve, has_entry, lemma_entry_index, no_entry_is_missed, no_slot_is_missed,
    slots_of,
};
use crate::task::Memory;
use crate::text::{text_at, text_size};

verus! {

/// Whether a memory answers every read with as many bytes as were asked for, or refuses it.
pub open spec fn is_honest(mem: Memory) -> bool {
    forall|address: u64, len: u64| #[trigger]
        mem(address, len) matches Some(bytes) ==> bytes.len() == len
}

/// An entry of a block.
pub ghost struct Entry {
    /// Where it starts.
    pub start: int,
    /// How many units its text has.
    pub units: int,
    /// The bits of the header that are not for the text.
    pub hash: int,
    /// Whether the text is in UTF-16.
    pub wide: bool,
    /// The bytes of the text.
    pub text: Seq<u8>,
}

/// What entries are aligned to.
pub open spec fn alignment(case_preserving: bool) -> int {
    if case_preserving {
        4
    } else {
        2
    }
}

impl Entry {
    /// Where its text starts: behind two bytes of header, and where names keep their case behind
    /// four more.
    pub open spec fn text_start(self, case_preserving: bool) -> int {
        self.start + if case_preserving {
            6int
        } else {
            2int
        }
    }

    /// Where its text ends.
    pub open spec fn text_end(self, case_preserving: bool) -> int {
        self.text_start(case_preserving) + self.text.len()
    }

    /// Whether it is written in a block.
    pub open spec fn is_in(self, block: Seq<u8>, case_preserving: bool) -> bool {
        let text_start = self.text_start(case_preserving);
        &&& self.start >= 0
        &&& self.units > 0
        &&& is_header(case_preserving, self.units, self.hash)
        &&& self.text.len() == if self.wide {
            2 * self.units
        } else {
            self.units
        }
        &&& self.text_end(case_preserving) <= block.len()
        &&& block.subrange(text_start - 2, text_start) == le_bytes(
            written_header(case_preserving, self.units, self.hash, self.wide),
            2,
        )
        &&& block.subrange(text_start, self.text_end(case_preserving)) == self.text
    }

    /// Whether the entry behind it starts at `next`: at the first aligned place behind its text.
    pub open spec fn is_before(self, next: int, case_preserving: bool) -> bool {
        &&& next % alignment(case_preserving) == 0
        &&& self.text_end(case_preserving) <= next < self.text_end(case_preserving) + alignment(
            case_preserving,
        )
    }
}

/// Whether an entry starts right behind the one before it.
pub open spec fn is_joined(entries: Seq<Entry>, k: int, case_preserving: bool) -> bool {
    entries[k - 1].is_before(entries[k].start, case_preserving)
}

/// Whether entries stand in a block one behind the other from its start on.
pub open spec fn are_in(entries: Seq<Entry>, block: Seq<u8>, case_preserving: bool) -> bool {
    &&& entries.len() > 0 ==> entries[0].start == 0
    &&& forall|k: int|
        0 <= k < entries.len() ==> (#[trigger] entries[k]).is_in(block, case_preserving)
    &&& forall|k: int|
        0 < k < entries.len() ==> #[trigger] is_joined(entries, k, case_preserving)
}

/// The index of the name of an entry: the number of the block above the lowest 16 bits, put
/// together with the aligned place, and of that the lowest 32 bits.
pub open spec fn index_in(block: u32, start: int, case_preserving: bool) -> u32 {
    let above = (block * 0x1_0000) as u64;
    let place = (start / alignment(case_preserving)) as u64;
    ((above | place) % 0x1_0000_0000) as u32
}

/// The index of the name of an entry is that of its block times 0x10000 plus its aligned place,
/// where both take 16 bits.
pub proof fn index_is_block_and_place(block: u32, start: int, case_preserving: bool)
    requires
        block <= 0xffff,
        0 <= start < alignment(case_preserving) * 0x1_0000,
    ensures
        index_in(block, start, case_preserving) == block * 0x1_0000 + start / alignment(
            case_preserving,
        ),
{
    lemma_index(block, start, case_preserving);
    lemma_entry_index(block, start, case_preserving);
}

/// The index that the extraction enters an entry under.
proof fn lemma_index(block: u32, start: int, case_preserving: bool)
    ensures
        index_in(block, start, case_preserving) == entry_index(block, start, case_preserving),
{
    let wide = block as u64;
    let place = (start / alignment(case_preserving)) as u64;
    let above = (block * 0x1_0000) as u64;
    assert(wide * 0x1_0000 == wide << 16u64) by (bit_vector)
        requires
            wide <= 0xffff_ffff,
    ;
    assert(((above | place) % 0x1_0000_0000) as u32 == (above | place) as u32) by (bit_vector);
}

/// The pool from 4.22 on: where its members lie, which block is being filled, and how far.
pub ghost struct Pool {
    /// Where the number of the block that is being filled lies.
    pub block_offset: usize,
    /// Where it lies how far that block is filled.
    pub cursor_offset: usize,
    /// Where the pointers to blocks start.
    pub blocks_offset: usize,
    /// The block that is being filled.
    pub last: u32,
    /// How far it is filled.
    pub filled: u32,
}

impl Pool {
    /// Whether the target's pool is this one.
    pub open spec fn is_in(self, mem: Memory, ctx: Ctx) -> bool {
        &&& has_blocks(ctx)
        &&& ctx.offset_of("FNameEntryAllocator"@, "CurrentBlock"@) == Some(self.block_offset)
        &&& ctx.offset_of("FNameEntryAllocator"@, "CurrentByteCursor"@) == Some(self.cursor_offset)
        &&& ctx.offset_of("FNameEntryAllocator"@, "Blocks"@) == Some(self.blocks_offset)
        &&& stores(mem, ctx.fnamepool + self.block_offset, le_bytes(self.last as int, 4))
        &&& stores(mem, ctx.fnamepool + self.cursor_offset, le_bytes(self.filled as int, 4))
    }

    /// Whether the indices of all names in it take 32 bits: the number of a block takes 16, and
    /// the block that is being filled is no longer than the others.
    pub open spec fn is_indexed(self, case_preserving: bool) -> bool {
        self.last <= 0xffff && self.filled <= alignment(case_preserving) * 0x1_0000
    }

    /// How many bytes of a block are in use.
    pub open spec fn used(self, block: u32, case_preserving: bool) -> int {
        if block == self.last {
            self.filled as int
        } else if case_preserving {
            0x4_0000
        } else {
            0x2_0000
        }
    }

    /// Whether `pointer` leads to a block.
    pub open spec fn has_pointer(self, mem: Memory, ctx: Ctx, block: u32, pointer: u64) -> bool {
        stores(mem, ctx.fnamepool + self.blocks_offset + 8 * block, le_bytes(pointer as int, 8))
    }

    /// Whether `bytes` are the bytes in use of the block that `pointer` leads to.
    pub open spec fn has_bytes(
        self,
        mem: Memory,
        ctx: Ctx,
        block: u32,
        pointer: u64,
        bytes: Seq<u8>,
    ) -> bool {
        &&& self.has_pointer(mem, ctx, block, pointer)
        &&& pointer != 0
        &&& bytes.len() > 0
        &&& bytes.len() == self.used(block, ctx.case_preserving)
        &&& stores(mem, pointer as int, bytes)
    }

    /// Whether an entry with some text stands in a block, behind other entries, under an index.
    pub open spec fn has_entry(
        self,
        mem: Memory,
        ctx: Ctx,
        block: u32,
        pointer: u64,
        bytes: Seq<u8>,
        entries: Seq<Entry>,
        index: u32,
        text: Seq<char>,
    ) -> bool {
        &&& block <= self.last
        &&& self.has_bytes(mem, ctx, block, pointer, bytes)
        &&& entries.len() > 0
        &&& are_in(entries, bytes, ctx.case_preserving)
        &&& entries.last().text == text_bytes(text, entries.last().wide)
        &&& index == index_in(block, entries.last().start, ctx.case_preserving)
    }
}

/// What the extraction reads of an entry is what was written.
proof fn lemma_entry(entry: Entry, block: Seq<u8>, case_preserving: bool)
    requires
        entry.is_in(block, case_preserving),
    ensures
        ({
            let header = le_u16(block, entry.start + header_off(case_preserving));
            &&& entry.start + data_off(case_preserving) == entry.text_start(case_preserving)
            &&& header_len(header, case_preserving) == entry.units
            &&& header_wide(header) == entry.wide
            &&& text_size(entry.units as nat, entry.wide) == entry.text.len()
        }),
{
    let at = entry.text_start(case_preserving) - 2;
    let header = written_header(case_preserving, entry.units, entry.hash, entry.wide);
    u16_reads_back(block, at, header as u16);
    text_takes_its_bytes(entry.units as nat);
}

/// The first aligned place behind an entry is where the extraction goes on.
proof fn lemma_next(entry: Entry, next: int, block: Seq<u8>, case_preserving: bool)
    requires
        entry.is_in(block, case_preserving),
        entry.start % alignment(case_preserving) == 0,
    ensures
        entry.is_before(next, case_preserving) <==> next == entry.start + rounded_up(
            data_off(case_preserving) + text_size(entry.units as nat, entry.wide),
            stride(case_preserving),
        ),
{
    lemma_entry(entry, block, case_preserving);
}

/// Where the names in `names` stay as they are while entries of a block are read: their index is
/// of another block, or of a place before.
spec fn is_behind(index: u32, block: u32, cursor: int, case_preserving: bool) -> bool {
    index / 0x1_0000 != block || index % 0x1_0000 < cursor / alignment(case_preserving)
}

/// Reading further entries leaves a name with an index behind them as it is.
proof fn lemma_entries_leave(
    bytes: Seq<u8>,
    cursor: int,
    block: u32,
    case_preserving: bool,
    names: Map<u32, Seq<char>>,
    index: u32,
)
    requires
        0 <= cursor,
        cursor % alignment(case_preserving) == 0,
        bytes.len() <= alignment(case_preserving) * 0x1_0000,
        block <= 0xffff,
        is_behind(index, block, cursor, case_preserving),
    ensures
        ({
            let found = entries_from(bytes, cursor, block, case_preserving, names);
            found.contains_key(index) == names.contains_key(index) && found[index] == names[index]
        }),
    decreases bytes.len() + 4 - cursor,
{
    let header = le_u16(bytes, cursor + header_off(case_preserving));
    let len = header_len(header, case_preserving);
    let size = text_size(len, header_wide(header));
    let start = cursor + data_off(case_preserving);
    if !(start > bytes.len() || len == 0 || start + size > bytes.len()) {
        let own = entry_index(block, cursor, case_preserving);
        let next = cursor + rounded_up(data_off(case_preserving) + size, stride(case_preserving));
        let grown = match text_at(bytes, start, len, header_wide(header)) {
            Ok(name) => names.insert(own, name),
            Err(_) => names,
        };
        lemma_entry_index(block, cursor, case_preserving);
        assert(next % alignment(case_preserving) == 0 && next > cursor);
        lemma_entries_leave(bytes, next, block, case_preserving, grown, index);
    }
}

/// Reading the entries of a block finds the last of a chain.
proof fn lemma_entries_give(
    bytes: Seq<u8>,
    entries: Seq<Entry>,
    k: int,
    block: u32,
    case_preserving: bool,
    names: Map<u32, Seq<char>>,
    text: Seq<char>,
)
    requires
        are_in(entries, bytes, case_preserving),
        0 <= k < entries.len(),
        entries[k].start % alignment(case_preserving) == 0,
        bytes.len() <= alignment(case_preserving) * 0x1_0000,
        block <= 0xffff,
        entries.last().text == text_bytes(text, entries.last().wide),
    ensures
        ({
            let found = entries_from(bytes, entries[k].start, block, case_preserving, names);
            let index = index_in(block, entries.last().start, case_preserving);
            found.contains_key(index) && found[index] == text
        }),
    decreases entries.len() - k,
{
    let entry = entries[k];
    lemma_entry(entry, bytes, case_preserving);
    let start = entry.text_start(case_preserving);
    let next = entry.start + rounded_up(
        data_off(case_preserving) + entry.text.len(),
        stride(case_preserving),
    );
    lemma_next(entry, next, bytes, case_preserving);
    let own = entry_index(block, entry.start, case_preserving);
    let grown = match text_at(bytes, start, entry.units as nat, entry.wide) {
        Ok(name) => names.insert(own, name),
        Err(_) => names,
    };
    lemma_entry_index(block, entry.start, case_preserving);
    if k == entries.len() - 1 {
        text_reads_back(bytes, start, entry.units as nat, entry.wide, text);
        lemma_index(block, entry.start, case_preserving);
        lemma_entries_leave(bytes, next, block, case_preserving, grown, own);
    } else {
        assert(is_joined(entries, k + 1, case_preserving));
        lemma_next(entry, entries[k + 1].start, bytes, case_preserving);
        lemma_entries_give(bytes, entries, k + 1, block, case_preserving, grown, text);
    }
}

/// How many bytes of a block the extraction reads.
proof fn lemma_used(pool: Pool, block: u32, case_preserving: bool)
    ensures
        block_len(pool.last, pool.filled, block as int, case_preserving) == pool.used(
            block,
            case_preserving,
        ),
{
}

/// What the extraction finds of the pool is what was written.
proof fn lemma_pool(mem: Memory, ctx: Ctx, pool: Pool)
    requires
        pool.is_in(mem, ctx),
    ensures
        current_block(mem, ctx) == Ok::<u32, Error>(pool.last),
        byte_cursor(mem, ctx) == Ok::<u32, Error>(pool.filled),
        names_of(mem, ctx) == blocks_from(mem, ctx, pool.last, pool.filled, 0, Map::empty()),
{
    legacy_is_before_4_22(ctx);
    address_after_adds(ctx.fnamepool, pool.block_offset as nat);
    address_after_adds(ctx.fnamepool, pool.cursor_offset as nat);
    u32_is_read(mem, (ctx.fnamepool + pool.block_offset) as u64, pool.last);
    u32_is_read(mem, (ctx.fnamepool + pool.cursor_offset) as u64, pool.filled);
}

/// Where the pointer to a block lies.
proof fn lemma_block_place(mem: Memory, ctx: Ctx, pool: Pool, block: int)
    requires
        pool.is_in(mem, ctx),
        0 <= block,
    ensures
        ({
            let place = ctx.fnamepool + pool.blocks_offset + 8 * block;
            block_place(ctx, block) == if place <= 0xffff_ffff_ffff_ffff {
                Ok::<u64, Error>(place as u64)
            } else {
                Err(Error::AddressOverflow)
            }
        }),
{
    address_after_adds(ctx.fnamepool, pool.blocks_offset as nat);
    if ctx.fnamepool + pool.blocks_offset <= 0xffff_ffff_ffff_ffff {
        address_after_adds((ctx.fnamepool + pool.blocks_offset) as u64, (8 * block) as nat);
    }
}

/// Reading further blocks leaves a name of an earlier block as it is.
proof fn lemma_blocks_leave(
    mem: Memory,
    ctx: Ctx,
    pool: Pool,
    block: int,
    names: Map<u32, Seq<char>>,
    index: u32,
)
    requires
        is_honest(mem),
        pool.is_indexed(ctx.case_preserving),
        index / 0x1_0000 < block,
    ensures
        blocks_from(mem, ctx, pool.last, pool.filled, block, names) matches Ok(found) ==> {
            &&& found.contains_key(index) == names.contains_key(index)
            &&& found[index] == names[index]
        },
    decreases pool.last + 1 - block,
{
    if block <= pool.last {
        lemma_used(pool, block as u32, ctx.case_preserving);
        if let Ok(place) = block_place(ctx, block) {
            if let Ok(pointer) = read_u64(mem, place) {
                let len = block_len(pool.last, pool.filled, block, ctx.case_preserving);
                let grown = with_block(mem, ctx, pointer, len, block, names);
                if pointer != 0 && len != 0 {
                    if let Some(bytes) = mem(pointer, len) {
                        lemma_entries_leave(
                            bytes,
                            0,
                            block as u32,
                            ctx.case_preserving,
                            names,
                            index,
                        );
                    }
                }
                lemma_blocks_leave(mem, ctx, pool, block + 1, grown, index);
            }
        }
    }
}

/// Reading blocks finds the last of a chain of entries in each.
proof fn lemma_blocks_give(
    mem: Memory,
    ctx: Ctx,
    pool: Pool,
    from: int,
    names: Map<u32, Seq<char>>,
    block: u32,
    pointer: u64,
    bytes: Seq<u8>,
    entries: Seq<Entry>,
    index: u32,
    text: Seq<char>,
)
    requires
        is_honest(mem),
        pool.is_in(mem, ctx),
        pool.is_indexed(ctx.case_preserving),
        0 <= from <= block,
        pool.has_entry(mem, ctx, block, pointer, bytes, entries, index, text),
    ensures
        blocks_from(mem, ctx, pool.last, pool.filled, from, names) matches Ok(found)
            ==> found.contains_key(index) && found[index] == text,
    decreases block - from,
{
    lemma_used(pool, from as u32, ctx.case_preserving);
    lemma_block_place(mem, ctx, pool, from);
    if let Ok(place) = block_place(ctx, from) {
        if let Ok(found) = read_u64(mem, place) {
            let len = block_len(pool.last, pool.filled, from, ctx.case_preserving);
            let grown = with_block(mem, ctx, found, len, from, names);
            if from == block {
                u64_is_read(mem, place, pointer);
                assert(entries[0].is_in(bytes, ctx.case_preserving));
                assert(entries[entries.len() - 1].is_in(bytes, ctx.case_preserving));
                lemma_entries_give(bytes, entries, 0, block, ctx.case_preserving, names, text);
                lemma_index(block, entries.last().start, ctx.case_preserving);
                lemma_entry_index(block, entries.last().start, ctx.case_preserving);
                lemma_blocks_leave(mem, ctx, pool, from + 1, grown, index);
            } else {
                lemma_blocks_give(
                    mem,
                    ctx,
                    pool,
                    from + 1,
                    grown,
                    block,
                    pointer,
                    bytes,
                    entries,
                    index,
                    text,
                );
            }
        }
    }
}

/// From 4.22 on the extraction gives every entry with a valid text, in the chain over all bytes in
/// use of every block that can be read, under its index.
pub proof fn every_entry_is_found(
    mem: Memory,
    ctx: Ctx,
    pool: Pool,
    names: Map<u32, Seq<char>>,
    block: u32,
    pointer: u64,
    bytes: Seq<u8>,
    entries: Seq<Entry>,
    index: u32,
    text: Seq<char>,
)
    requires
        is_honest(mem),
        pool.is_in(mem, ctx),
        pool.is_indexed(ctx.case_preserving),
        names_of(mem, ctx) == Ok::<Map<u32, Seq<char>>, Error>(names),
        pool.has_entry(mem, ctx, block, pointer, bytes, entries, index, text),
    ensures
        names.contains_key(index),
        names[index] == text,
{
    lemma_pool(mem, ctx, pool);
    lemma_blocks_give(
        mem,
        ctx,
        pool,
        0,
        Map::empty(),
        block,
        pointer,
        bytes,
        entries,
        index,
        text,
    );
}

/// A block that is not the one being filled is found whole: every entry with a valid text in the
/// chain over its 0x20000 bytes, or 0x40000 where names keep their case.
pub proof fn full_block_is_found_whole(
    mem: Memory,
    ctx: Ctx,
    pool: Pool,
    names: Map<u32, Seq<char>>,
    block: u32,
    pointer: u64,
    bytes: Seq<u8>,
    entries: Seq<Entry>,
    text: Seq<char>,
)
    requires
        is_honest(mem),
        pool.is_in(mem, ctx),
        pool.is_indexed(ctx.case_preserving),
        names_of(mem, ctx) == Ok::<Map<u32, Seq<char>>, Error>(names),
        block < pool.last,
        pool.has_pointer(mem, ctx, block, pointer),
        pointer != 0,
        bytes.len() == if ctx.case_preserving { 0x4_0000int } else { 0x2_0000int },
        stores(mem, pointer as int, bytes),
        entries.len() > 0,
        are_in(entries, bytes, ctx.case_preserving),
        entries.last().text == text_bytes(text, entries.last().wide),
    ensures
        ({
            let index = (block * 0x1_0000 + entries.last().start / (if ctx.case_preserving {
                4int
            } else {
                2int
            })) as u32;
            names.contains_key(index) && names[index] == text
        }),
{
    let last = entries[entries.len() - 1];
    assert(last.is_in(bytes, ctx.case_preserving));
    index_is_block_and_place(block, last.start, ctx.case_preserving);
    let index = index_in(block, last.start, ctx.case_preserving);
    every_entry_is_found(mem, ctx, pool, names, block, pointer, bytes, entries, index, text);
}

/// Whether some entry of the pool has a text and an index.
pub open spec fn is_entry_of(mem: Memory, ctx: Ctx, pool: Pool, index: u32, text: Seq<char>) -> bool {
    exists|block: u32, pointer: u64, bytes: Seq<u8>, entries: Seq<Entry>| #[trigger]
        pool.has_entry(mem, ctx, block, pointer, bytes, entries, index, text)
}

/// Whether all names are of entries of the pool.
spec fn all_are_entries(mem: Memory, ctx: Ctx, pool: Pool, names: Map<u32, Seq<char>>) -> bool {
    forall|index: u32| #[trigger]
        names.contains_key(index) ==> is_entry_of(mem, ctx, pool, index, names[index])
}

/// Reading the entries of a block adds only names of entries.
proof fn lemma_entries_are_entries(
    mem: Memory,
    ctx: Ctx,
    pool: Pool,
    block: u32,
    pointer: u64,
    bytes: Seq<u8>,
    entries: Seq<Entry>,
    cursor: int,
    names: Map<u32, Seq<char>>,
)
    requires
        block <= pool.last,
        pool.has_bytes(mem, ctx, block, pointer, bytes),
        are_in(entries, bytes, ctx.case_preserving),
        0 <= cursor,
        cursor % alignment(ctx.case_preserving) == 0,
        entries.len() == 0 ==> cursor == 0,
        entries.len() > 0 ==> entries.last().is_before(cursor, ctx.case_preserving),
        all_are_entries(mem, ctx, pool, names),
    ensures
        all_are_entries(
            mem,
            ctx,
            pool,
            entries_from(bytes, cursor, block, ctx.case_preserving, names),
        ),
    decreases bytes.len() + 4 - cursor,
{
    let case_preserving = ctx.case_preserving;
    let header = le_u16(bytes, cursor + header_off(case_preserving));
    let len = header_len(header, case_preserving);
    let wide = header_wide(header);
    let size = text_size(len, wide);
    let start = cursor + data_off(case_preserving);
    if !(start > bytes.len() || len == 0 || start + size > bytes.len()) {
        let entry = lemma_read_entry(bytes, cursor, case_preserving);
        let longer = entries.push(entry);
        lemma_chain_grows(entries, entry, bytes, case_preserving);
        let next = cursor + rounded_up(data_off(case_preserving) + size, stride(case_preserving));
        lemma_next(entry, next, bytes, case_preserving);
        assert(longer.last() == entry);
        let own = entry_index(block, cursor, case_preserving);
        lemma_index(block, cursor, case_preserving);
        let read = text_at(bytes, start, len, wide);
        if let Ok(name) = read {
            text_reads_back(bytes, start, len, wide, name);
            assert(pool.has_entry(mem, ctx, block, pointer, bytes, longer, own, name));
            lemma_one_more_entry(mem, ctx, pool, names, own, name);
            lemma_entries_are_entries(
                mem,
                ctx,
                pool,
                block,
                pointer,
                bytes,
                longer,
                next,
                names.insert(own, name),
            );
        } else {
            lemma_entries_are_entries(
                mem,
                ctx,
                pool,
                block,
                pointer,
                bytes,
                longer,
                next,
                names,
            );
        }
    }
}

/// What is read as an entry was written as one.
proof fn lemma_read_entry(bytes: Seq<u8>, cursor: int, case_preserving: bool) -> (entry: Entry)
    requires
        0 <= cursor,
        ({
            let header = le_u16(bytes, cursor + header_off(case_preserving));
            let len = header_len(header, case_preserving);
            let start = cursor + data_off(case_preserving);
            len > 0 && start + text_size(len, header_wide(header)) <= bytes.len()
        }),
    ensures
        ({
            let header = le_u16(bytes, cursor + header_off(case_preserving));
            let len = header_len(header, case_preserving);
            let wide = header_wide(header);
            let start = cursor + data_off(case_preserving);
            &&& entry.is_in(bytes, case_preserving)
            &&& entry.start == cursor
            &&& entry.units == len
            &&& entry.wide == wide
            &&& entry.text == bytes.subrange(start, start + text_size(len, wide))
        }),
{
    let header = le_u16(bytes, cursor + header_off(case_preserving));
    let len = header_len(header, case_preserving);
    let wide = header_wide(header);
    let start = cursor + data_off(case_preserving);
    let hash: int = if case_preserving {
        0
    } else {
        (header / 2 % 32) as int
    };
    text_takes_its_bytes(len);
    u16_reads_back(bytes, start - 2, header);
    assert(written_header(case_preserving, len as int, hash, wide) == header);
    Entry {
        start: cursor,
        units: len as int,
        hash,
        wide,
        text: bytes.subrange(start, start + text_size(len, wide)),
    }
}

/// A chain of entries goes on with an entry where the last ends.
proof fn lemma_chain_grows(
    entries: Seq<Entry>,
    entry: Entry,
    bytes: Seq<u8>,
    case_preserving: bool,
)
    requires
        are_in(entries, bytes, case_preserving),
        entry.is_in(bytes, case_preserving),
        entries.len() == 0 ==> entry.start == 0,
        entries.len() > 0 ==> entries.last().is_before(entry.start, case_preserving),
    ensures
        are_in(entries.push(entry), bytes, case_preserving),
{
    let longer = entries.push(entry);
    assert forall|k: int| 0 <= k < longer.len() implies (#[trigger] longer[k]).is_in(
        bytes,
        case_preserving,
    ) by {
        if k < entries.len() {
            assert(entries[k] == longer[k]);
        }
    }
    assert forall|k: int| 0 < k < longer.len() implies #[trigger] is_joined(
        longer,
        k,
        case_preserving,
    ) by {
        if k < entries.len() {
            assert(is_joined(entries, k, case_preserving));
        }
    }
}

/// The name of an entry can be added to others.
proof fn lemma_one_more_entry(
    mem: Memory,
    ctx: Ctx,
    pool: Pool,
    names: Map<u32, Seq<char>>,
    index: u32,
    name: Seq<char>,
)
    requires
        all_are_entries(mem, ctx, pool, names),
        is_entry_of(mem, ctx, pool, index, name),
    ensures
        all_are_entries(mem, ctx, pool, names.insert(index, name)),
{
}

/// Reading blocks adds only names of entries.
proof fn lemma_blocks_are_entries(
    mem: Memory,
    ctx: Ctx,
    pool: Pool,
    block: int,
    names: Map<u32, Seq<char>>,
)
    requires
        is_honest(mem),
        pool.is_in(mem, ctx),
        0 <= block,
        all_are_entries(mem, ctx, pool, names),
    ensures
        blocks_from(mem, ctx, pool.last, pool.filled, block, names) matches Ok(found)
            ==> all_are_entries(mem, ctx, pool, found),
    decreases pool.last + 1 - block,
{
    if block <= pool.last {
        lemma_used(pool, block as u32, ctx.case_preserving);
        lemma_block_place(mem, ctx, pool, block);
        if let Ok(place) = block_place(ctx, block) {
            if let Ok(pointer) = read_u64(mem, place) {
                let len = block_len(pool.last, pool.filled, block, ctx.case_preserving);
                let grown = with_block(mem, ctx, pointer, len, block, names);
                lemma_stores_pointer(mem, place, pointer);
                if pointer != 0 && len != 0 {
                    if let Some(bytes) = mem(pointer, len) {
                        lemma_entries_are_entries(
                            mem,
                            ctx,
                            pool,
                            block as u32,
                            pointer,
                            bytes,
                            Seq::empty(),
                            0,
                            names,
                        );
                    }
                }
                lemma_blocks_are_entries(mem, ctx, pool, block + 1, grown);
            }
        }
    }
}

/// What is read as 64 bits was written as such.
proof fn lemma_stores_pointer(mem: Memory, place: u64, value: u64)
    requires
        is_honest(mem),
        read_u64(mem, place) == Ok::<u64, Error>(value),
    ensures
        stores(mem, place as int, le_bytes(value as int, 8)),
{
    if let Some(bytes) = mem(place, 8) {
        u64_reads_back(bytes, 0, value);
        assert(bytes.subrange(0, 8) =~= bytes);
    }
}

/// From 4.22 on the extraction gives nothing but the texts of entries under their indices.
pub proof fn only_entries_are_found(
    mem: Memory,
    ctx: Ctx,
    pool: Pool,
    names: Map<u32, Seq<char>>,
    index: u32,
)
    requires
        is_honest(mem),
        pool.is_in(mem, ctx),
        names_of(mem, ctx) == Ok::<Map<u32, Seq<char>>, Error>(names),
        names.contains_key(index),
    ensures
        is_entry_of(mem, ctx, pool, index, names[index]),
{
    lemma_pool(mem, ctx, pool);
    lemma_blocks_are_entries(mem, ctx, pool, 0, Map::empty());
}

/// Reading the first blocks passes on to the next where their pointers can be read.
proof fn lemma_blocks_pass(
    mem: Memory,
    ctx: Ctx,
    pool: Pool,
    pointers: Seq<u64>,
    block: int,
    names: Map<u32, Seq<char>>,
) -> (found: Map<u32, Seq<char>>)
    requires
        pool.is_in(mem, ctx),
        0 <= block <= pointers.len() <= pool.last + 1,
        forall|k: int|
            0 <= k < pointers.len() ==> pool.has_pointer(
                mem,
                ctx,
                k as u32,
                #[trigger] pointers[k],
            ),
    ensures
        blocks_from(mem, ctx, pool.last, pool.filled, block, names) == blocks_from(
            mem,
            ctx,
            pool.last,
            pool.filled,
            pointers.len() as int,
            found,
        ),
    decreases pointers.len() - block,
{
    if block < pointers.len() {
        let pointer = pointers[block];
        assert(pool.has_pointer(mem, ctx, block as u32, pointer));
        lemma_block_place(mem, ctx, pool, block);
        u64_is_read(mem, (ctx.fnamepool + pool.blocks_offset + 8 * block) as u64, pointer);
        let len = block_len(pool.last, pool.filled, block, ctx.case_preserving);
        let grown = with_block(mem, ctx, pointer, len, block, names);
        lemma_blocks_pass(mem, ctx, pool, pointers, block + 1, grown)
    } else {
        names
    }
}

/// From 4.22 on the extraction succeeds where the pointers to all blocks can be read, and fails
/// at the first that cannot.
pub proof fn extraction_needs_the_pointers(mem: Memory, ctx: Ctx, pool: Pool, pointers: Seq<u64>)
    requires
        pool.is_in(mem, ctx),
        pointers.len() <= pool.last + 1,
        forall|k: int|
            0 <= k < pointers.len() ==> pool.has_pointer(
                mem,
                ctx,
                k as u32,
                #[trigger] pointers[k],
            ),
    ensures
        ({
            let place = ctx.fnamepool + pool.blocks_offset + 8 * pointers.len();
            &&& pointers.len() == pool.last + 1 ==> names_of(mem, ctx) is Ok
            &&& pointers.len() <= pool.last && refuses(mem, place, 8) ==> names_of(mem, ctx)
                == Err::<Map<u32, Seq<char>>, Error>(Error::ReadFailed)
            &&& pointers.len() <= pool.last && place > 0xffff_ffff_ffff_ffff ==> names_of(mem, ctx)
                == Err::<Map<u32, Seq<char>>, Error>(Error::AddressOverflow)
        }),
{
    lemma_pool(mem, ctx, pool);
    let found = lemma_blocks_pass(mem, ctx, pool, pointers, 0, Map::empty());
    lemma_block_place(mem, ctx, pool, pointers.len() as int);
    u64_is_read(mem, (ctx.fnamepool + pool.blocks_offset + 8 * pointers.len()) as u64, 0);
}

/// From 4.22 on the extraction fails where it cannot be read which block is being filled, or how
/// far.
pub proof fn extraction_needs_the_cursor(
    mem: Memory,
    ctx: Ctx,
    block_offset: usize,
    cursor_offset: usize,
    last: u32,
)
    requires
        has_blocks(ctx),
        ctx.offset_of("FNameEntryAllocator"@, "CurrentBlock"@) == Some(block_offset),
        ctx.offset_of("FNameEntryAllocator"@, "CurrentByteCursor"@) == Some(cursor_offset),
    ensures
        ctx.fnamepool + block_offset > 0xffff_ffff_ffff_ffff ==> names_of(mem, ctx) == Err::<
            Map<u32, Seq<char>>,
            Error,
        >(Error::AddressOverflow),
        refuses(mem, ctx.fnamepool + block_offset, 4) ==> names_of(mem, ctx) == Err::<
            Map<u32, Seq<char>>,
            Error,
        >(Error::ReadFailed),
        stores(mem, ctx.fnamepool + block_offset, le_bytes(last as int, 4)) ==> {
            &&& ctx.fnamepool + cursor_offset > 0xffff_ffff_ffff_ffff ==> names_of(mem, ctx)
                == Err::<Map<u32, Seq<char>>, Error>(Error::AddressOverflow)
            &&& refuses(mem, ctx.fnamepool + cursor_offset, 4) ==> names_of(mem, ctx) == Err::<
                Map<u32, Seq<char>>,
                Error,
            >(Error::ReadFailed)
        },
{
    legacy_is_before_4_22(ctx);
    address_after_adds(ctx.fnamepool, block_offset as nat);
    address_after_adds(ctx.fnamepool, cursor_offset as nat);
    u32_is_read(mem, (ctx.fnamepool + block_offset) as u64, last);
    u32_is_read(mem, (ctx.fnamepool + cursor_offset) as u64, 0);
}

/// The last of a chain of entries is on the way of the extraction.
proof fn lemma_on_the_way(bytes: Seq<u8>, entries: Seq<Entry>, k: int, case_preserving: bool)
    requires
        are_in(entries, bytes, case_preserving),
        0 <= k < entries.len(),
        entries[k].start % alignment(case_preserving) == 0,
    ensures
        has_entry(bytes, entries[k].start, entries.last().start, case_preserving),
    decreases entries.len() - k,
{
    let entry = entries[k];
    lemma_entry(entry, bytes, case_preserving);
    if k < entries.len() - 1 {
        assert(is_joined(entries, k + 1, case_preserving));
        lemma_next(entry, entries[k + 1].start, bytes, case_preserving);
        lemma_on_the_way(bytes, entries, k + 1, case_preserving);
    }
}

/// From 4.22 on there is a name under the index of every entry with a valid text, whichever block
/// it is in and however long that is.
pub proof fn every_entry_has_its_index(
    mem: Memory,
    ctx: Ctx,
    pool: Pool,
    names: Map<u32, Seq<char>>,
    block: u32,
    pointer: u64,
    bytes: Seq<u8>,
    entries: Seq<Entry>,
    text: Seq<char>,
)
    requires
        pool.is_in(mem, ctx),
        names_of(mem, ctx) == Ok::<Map<u32, Seq<char>>, Error>(names),
        block <= pool.last,
        pool.has_bytes(mem, ctx, block, pointer, bytes),
        entries.len() > 0,
        are_in(entries, bytes, ctx.case_preserving),
        entries.last().text == text_bytes(text, entries.last().wide),
    ensures
        names.contains_key(index_in(block, entries.last().start, ctx.case_preserving)),
{
    let last = entries[entries.len() - 1];
    assert(entries[0].is_in(bytes, ctx.case_preserving));
    assert(last.is_in(bytes, ctx.case_preserving));
    lemma_entry(last, bytes, ctx.case_preserving);
    text_reads_back(
        bytes,
        last.text_start(ctx.case_preserving),
        last.units as nat,
        last.wide,
        text,
    );
    lemma_on_the_way(bytes, entries, 0, ctx.case_preserving);
    lemma_pool(mem, ctx, pool);
    lemma_used(pool, block, ctx.case_preserving);
    lemma_block_place(mem, ctx, pool, block as int);
    u64_is_read(mem, (ctx.fnamepool + pool.blocks_offset + 8 * block) as u64, pointer);
    legacy_is_before_4_22(ctx);
    no_entry_is_missed(
        mem,
        ctx,
        names,
        pool.last,
        pool.filled,
        block,
        bytes,
        last.start,
    );
    lemma_index(block, last.start, ctx.case_preserving);
}

/// Whether a chunk of the pool before 4.22 can be read: the table leads to it, and its slots are
/// `slots`.
pub open spec fn has_slots(mem: Memory, table: u64, chunk: int, pointer: u64, slots: Seq<u8>) -> bool {
    &&& stores(mem, table + 8 * chunk, le_bytes(pointer as int, 8))
    &&& pointer != 0
    &&& slots.len() == 0x2_0000
    &&& stores(mem, pointer as int, slots)
}

/// Whether a slot is in use: it is not zero.
pub open spec fn is_used(slots: Seq<u8>, slot: int) -> bool {
    slots.subrange(8 * slot, 8 * slot + 8) != le_bytes(0, 8)
}

/// Whether the table of the pool before 4.22 leads to these chunks, from the first on.
pub open spec fn has_chunks(
    mem: Memory,
    ctx: Ctx,
    table: u64,
    pointers: Seq<u64>,
    chunks: Seq<Seq<u8>>,
) -> bool {
    &&& !has_blocks(ctx)
    &&& stores(mem, ctx.fnamepool as int, le_bytes(table as int, 8))
    &&& pointers.len() == chunks.len()
    &&& chunks.len() <= 0x400
    &&& forall|k: int|
        0 <= k < chunks.len() ==> has_slots(mem, table, k, pointers[k], #[trigger] chunks[k])
}

/// What the extraction reads of a chunk is what is there.
proof fn lemma_slots(mem: Memory, table: u64, chunk: int, pointer: u64, slots: Seq<u8>)
    requires
        has_slots(mem, table, chunk, pointer, slots),
        0 <= chunk,
    ensures
        slots_of(mem, table, chunk) == Some(slots),
        address_after(table, (8 * chunk) as nat) == Ok::<u64, Error>((table + 8 * chunk) as u64),
        read_u64(mem, (table + 8 * chunk) as u64) == Ok::<u64, Error>(pointer),
        mem(pointer, 0x2_0000) == Some(slots),
{
    address_after_adds(table, (8 * chunk) as nat);
    u64_is_read(mem, (table + 8 * chunk) as u64, pointer);
    le_bytes_len(pointer as int, 8);
}

/// Whether the extraction takes a slot to be used.
proof fn lemma_is_used(slots: Seq<u8>, slot: int)
    requires
        slots.len() == 0x2_0000,
        0 <= slot < 0x4000,
    ensures
        is_used(slots, slot) <==> le_u64(slots, 8 * slot) != 0,
{
    u64_reads_back(slots, 8 * slot, 0);
}

/// Before 4.22 the extraction gives the name of every used slot that can be looked up, in all
/// chunks up to the first that is missing; the index counts 0x4000 slots to a chunk.
pub proof fn every_slot_is_found(
    mem: Memory,
    ctx: Ctx,
    table: u64,
    pointers: Seq<u64>,
    chunks: Seq<Seq<u8>>,
    names: Map<u32, Seq<char>>,
    slot: int,
    name: Seq<char>,
)
    requires
        has_chunks(mem, ctx, table, pointers, chunks),
        names_of(mem, ctx) == Ok::<Map<u32, Seq<char>>, Error>(names),
        chunks.len() > 0,
        0 <= slot < 0x4000,
        is_used(chunks.last(), slot),
        name_of(mem, ctx, (0x4000 * (chunks.len() - 1) + slot) as u32, 0) == Ok::<
            Seq<char>,
            Error,
        >(name),
    ensures
        ({
            let index = (0x4000 * (chunks.len() - 1) + slot) as u32;
            names.contains_key(index) && names[index] == name
        }),
{
    let last = chunks.len() - 1;
    let slots = chunks[last];
    legacy_is_before_4_22(ctx);
    u64_is_read(mem, ctx.fnamepool, table);
    assert forall|k: int| 0 <= k < last implies #[trigger] slots_of(mem, table, k) is Some by {
        assert(has_slots(mem, table, k, pointers[k], chunks[k]));
        lemma_slots(mem, table, k, pointers[k], chunks[k]);
    }
    assert(has_slots(mem, table, last, pointers[last], slots));
    lemma_slots(mem, table, last, pointers[last], slots);
    lemma_is_used(slots, slot);
    no_slot_is_missed(mem, ctx, names, table, last, slots, slot);
    let index = (0x4000 * (chunks.len() - 1) + slot) as u32;
    assert(slot_index(last, slot) == index);
    extracted_names_resolve(mem, ctx, names, index);
}

/// Whether a name is that of a used slot of a chunk that is reached.
pub open spec fn is_slot_of(
    mem: Memory,
    ctx: Ctx,
    table: u64,
    pointers: Seq<u64>,
    chunks: Seq<Seq<u8>>,
    index: u32,
    name: Seq<char>,
) -> bool {
    let chunk = index / 0x4000;
    &&& has_chunks(mem, ctx, table, pointers, chunks)
    &&& chunk < chunks.len()
    &&& is_used(chunks[chunk as int], (index % 0x4000) as int)
    &&& name_of(mem, ctx, index, 0) == Ok::<Seq<char>, Error>(name)
}

/// Whether all names are those of used slots of the chunks.
spec fn all_are_slots(
    mem: Memory,
    ctx: Ctx,
    table: u64,
    pointers: Seq<u64>,
    chunks: Seq<Seq<u8>>,
    names: Map<u32, Seq<char>>,
) -> bool {
    forall|index: u32| #[trigger]
        names.contains_key(index) ==> is_slot_of(
            mem,
            ctx,
            table,
            pointers,
            chunks,
            index,
            names[index],
        )
}

/// Looking up the slots of a chunk adds only names of used slots.
proof fn lemma_slots_are_slots(
    mem: Memory,
    ctx: Ctx,
    table: u64,
    pointers: Seq<u64>,
    chunks: Seq<Seq<u8>>,
    slot: int,
    names: Map<u32, Seq<char>>,
)
    requires
        has_chunks(mem, ctx, table, pointers, chunks),
        chunks.len() > 0,
        chunks.last().len() == 0x2_0000,
        0 <= slot,
        all_are_slots(mem, ctx, table, pointers, chunks, names),
    ensures
        slots_from(mem, ctx, chunks.last(), chunks.len() - 1, slot, names) matches Ok(found)
            ==> all_are_slots(mem, ctx, table, pointers, chunks, found),
    decreases 0x4000 - slot,
{
    if slot < 0x4000 {
        let chunk = chunks.len() - 1;
        let slots = chunks.last();
        lemma_is_used(slots, slot);
        if le_u64(slots, 8 * slot) == 0 {
            lemma_slots_are_slots(mem, ctx, table, pointers, chunks, slot + 1, names);
        } else {
            let index = slot_index(chunk, slot);
            assert(index / 0x4000 == chunk && index % 0x4000 == slot);
            let name = name_of(mem, ctx, index, 0);
            if let Ok(grown) = kept(names, index, name) {
                assert(all_are_slots(mem, ctx, table, pointers, chunks, grown));
                lemma_slots_are_slots(mem, ctx, table, pointers, chunks, slot + 1, grown);
            }
        }
    }
}

/// With one more chunk, names of used slots stay names of used slots.
proof fn lemma_one_more_chunk(
    mem: Memory,
    ctx: Ctx,
    table: u64,
    pointers: Seq<u64>,
    chunks: Seq<Seq<u8>>,
    pointer: u64,
    slots: Seq<u8>,
    names: Map<u32, Seq<char>>,
)
    requires
        has_chunks(mem, ctx, table, pointers, chunks),
        chunks.len() < 0x400,
        has_slots(mem, table, chunks.len() as int, pointer, slots),
        all_are_slots(mem, ctx, table, pointers, chunks, names),
    ensures
        has_chunks(mem, ctx, table, pointers.push(pointer), chunks.push(slots)),
        all_are_slots(mem, ctx, table, pointers.push(pointer), chunks.push(slots), names),
{
    let more = chunks.push(slots);
    let leads = pointers.push(pointer);
    assert forall|k: int| 0 <= k < more.len() implies has_slots(
        mem,
        table,
        k,
        leads[k],
        #[trigger] more[k],
    ) by {
        if k < chunks.len() {
            assert(has_slots(mem, table, k, pointers[k], chunks[k]));
        }
    }
    assert forall|index: u32| #[trigger] names.contains_key(index) implies is_slot_of(
        mem,
        ctx,
        table,
        leads,
        more,
        index,
        names[index],
    ) by {
        assert(is_slot_of(mem, ctx, table, pointers, chunks, index, names[index]));
        assert(more[(index / 0x4000) as int] == chunks[(index / 0x4000) as int]);
    }
}

/// Reading further chunks adds only names of used slots. What comes back are the chunks reached.
proof fn lemma_chunks_are_slots(
    mem: Memory,
    ctx: Ctx,
    table: u64,
    pointers: Seq<u64>,
    chunks: Seq<Seq<u8>>,
    names: Map<u32, Seq<char>>,
) -> (reached: (Seq<u64>, Seq<Seq<u8>>))
    requires
        is_honest(mem),
        has_chunks(mem, ctx, table, pointers, chunks),
        all_are_slots(mem, ctx, table, pointers, chunks, names),
    ensures
        chunks_from(mem, ctx, table, chunks.len() as int, names) matches Ok(found)
            ==> all_are_slots(mem, ctx, table, reached.0, reached.1, found),
    decreases 0x400 - chunks.len(),
{
    let chunk = chunks.len() as int;
    address_after_adds(table, (8 * chunk) as nat);
    match address_after(table, (8 * chunk) as nat) {
        Ok(place) if chunk < 0x400 => match read_u64(mem, place) {
            Ok(pointer) => {
                lemma_stores_pointer(mem, place, pointer);
                match mem(pointer, 0x2_0000) {
                    Some(slots) if pointer != 0 => {
                        lemma_one_more_chunk(
                            mem,
                            ctx,
                            table,
                            pointers,
                            chunks,
                            pointer,
                            slots,
                            names,
                        );
                        let leads = pointers.push(pointer);
                        let more = chunks.push(slots);
                        assert(more.last() == slots);
                        lemma_slots_are_slots(mem, ctx, table, leads, more, 0, names);
                        match slots_from(mem, ctx, slots, chunk, 0, names) {
                            Ok(grown) => lemma_chunks_are_slots(
                                mem,
                                ctx,
                                table,
                                leads,
                                more,
                                grown,
                            ),
                            Err(_) => (leads, more),
                        }
                    },
                    _ => (pointers, chunks),
                }
            },
            Err(_) => (pointers, chunks),
        },
        _ => (pointers, chunks),
    }
}

/// Before 4.22 the extraction gives nothing but names of used slots, of chunks that are reached.
pub proof fn only_slots_are_found(
    mem: Memory,
    ctx: Ctx,
    table: u64,
    names: Map<u32, Seq<char>>,
    index: u32,
)
    requires
        is_honest(mem),
        !has_blocks(ctx),
        stores(mem, ctx.fnamepool as int, le_bytes(table as int, 8)),
        names_of(mem, ctx) == Ok::<Map<u32, Seq<char>>, Error>(names),
        names.contains_key(index),
    ensures
        exists|pointers: Seq<u64>, chunks: Seq<Seq<u8>>| #[trigger]
            is_slot_of(mem, ctx, table, pointers, chunks, index, names[index]),
{
    legacy_is_before_4_22(ctx);
    u64_is_read(mem, ctx.fnamepool, table);
    let none = Map::<u32, Seq<char>>::empty();
    let reached = lemma_chunks_are_slots(mem, ctx, table, Seq::empty(), Seq::empty(), none);
    assert(is_slot_of(mem, ctx, table, reached.0, reached.1, index, names[index]));
}

/// Whether no lookup of a used slot of the chunks leaves the address space.
pub open spec fn all_in_space(mem: Memory, ctx: Ctx, chunks: Seq<Seq<u8>>) -> bool {
    forall|chunk: int, slot: int|
        #![trigger is_used(chunks[chunk], slot)]
        0 <= chunk < chunks.len() && 0 <= slot < 0x4000 && is_used(chunks[chunk], slot) ==> name_of(
            mem,
            ctx,
            (0x4000 * chunk + slot) as u32,
            0,
        ) != Err::<Seq<char>, Error>(Error::AddressOverflow)
}

/// Looking up the slots of a chunk succeeds.
proof fn lemma_slots_pass(
    mem: Memory,
    ctx: Ctx,
    chunks: Seq<Seq<u8>>,
    chunk: int,
    slot: int,
    names: Map<u32, Seq<char>>,
)
    requires
        all_in_space(mem, ctx, chunks),
        0 <= chunk < chunks.len(),
        chunks[chunk].len() == 0x2_0000,
        0 <= slot,
    ensures
        slots_from(mem, ctx, chunks[chunk], chunk, slot, names) is Ok,
    decreases 0x4000 - slot,
{
    if slot < 0x4000 {
        lemma_is_used(chunks[chunk], slot);
        if le_u64(chunks[chunk], 8 * slot) == 0 {
            lemma_slots_pass(mem, ctx, chunks, chunk, slot + 1, names);
        } else {
            let index = slot_index(chunk, slot);
            assert(is_used(chunks[chunk], slot));
            assert(index == (0x4000 * chunk + slot) as u32);
            if let Ok(grown) = kept(names, index, name_of(mem, ctx, index, 0)) {
                lemma_slots_pass(mem, ctx, chunks, chunk, slot + 1, grown);
            }
        }
    }
}

/// Reading the first chunks passes on to the next.
proof fn lemma_chunks_pass(
    mem: Memory,
    ctx: Ctx,
    table: u64,
    pointers: Seq<u64>,
    chunks: Seq<Seq<u8>>,
    chunk: int,
    names: Map<u32, Seq<char>>,
) -> (found: Map<u32, Seq<char>>)
    requires
        has_chunks(mem, ctx, table, pointers, chunks),
        all_in_space(mem, ctx, chunks),
        0 <= chunk <= chunks.len(),
    ensures
        chunks_from(mem, ctx, table, chunk, names) == chunks_from(
            mem,
            ctx,
            table,
            chunks.len() as int,
            found,
        ),
    decreases chunks.len() - chunk,
{
    if chunk < chunks.len() {
        assert(has_slots(mem, table, chunk, pointers[chunk], chunks[chunk]));
        lemma_slots(mem, table, chunk, pointers[chunk], chunks[chunk]);
        lemma_slots_pass(mem, ctx, chunks, chunk, 0, names);
        let grown = slots_from(mem, ctx, chunks[chunk], chunk, 0, names)->Ok_0;
        lemma_chunks_pass(mem, ctx, table, pointers, chunks, chunk + 1, grown)
    } else {
        names
    }
}

/// Before 4.22 the extraction ends well at the first chunk that is null or cannot be read, or
/// behind 0x400 chunks, and it fails where the table cannot be read.
pub proof fn extraction_needs_the_table(
    mem: Memory,
    ctx: Ctx,
    table: u64,
    pointers: Seq<u64>,
    chunks: Seq<Seq<u8>>,
    pointer: u64,
)
    requires
        has_chunks(mem, ctx, table, pointers, chunks),
        all_in_space(mem, ctx, chunks),
    ensures
        ({
            let place = table + 8 * chunks.len();
            &&& chunks.len() == 0x400 ==> names_of(mem, ctx) is Ok
            &&& stores(mem, place, le_bytes(0, 8)) ==> names_of(mem, ctx) is Ok
            &&& pointer != 0 && stores(mem, place, le_bytes(pointer as int, 8)) && refuses(
                mem,
                pointer as int,
                0x2_0000,
            ) ==> names_of(mem, ctx) is Ok
            &&& chunks.len() < 0x400 && refuses(mem, place, 8) ==> names_of(mem, ctx) == Err::<
                Map<u32, Seq<char>>,
                Error,
            >(Error::ReadFailed)
            &&& chunks.len() < 0x400 && place > 0xffff_ffff_ffff_ffff ==> names_of(mem, ctx)
                == Err::<Map<u32, Seq<char>>, Error>(Error::AddressOverflow)
        }),
{
    legacy_is_before_4_22(ctx);
    u64_is_read(mem, ctx.fnamepool, table);
    let found = lemma_chunks_pass(mem, ctx, table, pointers, chunks, 0, Map::empty());
    let place = table + 8 * chunks.len();
    address_after_adds(table, (8 * chunks.len()) as nat);
    u64_is_read(mem, place as u64, 0);
    u64_is_read(mem, place as u64, pointer);
}

/// Looking up the slots of a chunk fails where one of them leads out of the address space.
proof fn lemma_slots_fail(
    mem: Memory,
    ctx: Ctx,
    slots: Seq<u8>,
    chunk: int,
    from: int,
    names: Map<u32, Seq<char>>,
    slot: int,
)
    requires
        slots.len() == 0x2_0000,
        0 <= from <= slot < 0x4000,
        is_used(slots, slot),
        name_of(mem, ctx, (0x4000 * chunk + slot) as u32, 0) == Err::<Seq<char>, Error>(
            Error::AddressOverflow,
        ),
    ensures
        slots_from(mem, ctx, slots, chunk, from, names) == Err::<Map<u32, Seq<char>>, Error>(
            Error::AddressOverflow,
        ),
    decreases slot - from,
{
    lemma_is_used(slots, slot);
    let own = slot_index(chunk, from);
    if from == slot {
        assert(own == (0x4000 * chunk + slot) as u32);
    } else if le_u64(slots, 8 * from) == 0 {
        lemma_slots_fail(mem, ctx, slots, chunk, from + 1, names, slot);
    } else if let Ok(grown) = kept(names, own, name_of(mem, ctx, own, 0)) {
        lemma_slots_fail(mem, ctx, slots, chunk, from + 1, grown, slot);
    }
}

/// Reading chunks fails where a slot of one of them leads out of the address space.
proof fn lemma_chunks_fail(
    mem: Memory,
    ctx: Ctx,
    table: u64,
    pointers: Seq<u64>,
    chunks: Seq<Seq<u8>>,
    from: int,
    names: Map<u32, Seq<char>>,
    chunk: int,
    slot: int,
)
    requires
        has_chunks(mem, ctx, table, pointers, chunks),
        0 <= from <= chunk < chunks.len(),
        0 <= slot < 0x4000,
        is_used(chunks[chunk], slot),
        name_of(mem, ctx, (0x4000 * chunk + slot) as u32, 0) == Err::<Seq<char>, Error>(
            Error::AddressOverflow,
        ),
    ensures
        chunks_from(mem, ctx, table, from, names) == Err::<Map<u32, Seq<char>>, Error>(
            Error::AddressOverflow,
        ),
    decreases chunk - from,
{
    assert(has_slots(mem, table, from, pointers[from], chunks[from]));
    lemma_slots(mem, table, from, pointers[from], chunks[from]);
    if from == chunk {
        lemma_slots_fail(mem, ctx, chunks[chunk], chunk, 0, names, slot);
    } else {
        match slots_from(mem, ctx, chunks[from], from, 0, names) {
            Ok(grown) => {
                lemma_chunks_fail(
                    mem,
                    ctx,
                    table,
                    pointers,
                    chunks,
                    from + 1,
                    grown,
                    chunk,
                    slot,
                );
            },
            Err(error) => {
                lemma_only_overflow_fails(mem, ctx, chunks[from], from, 0, names);
            },
        }
    }
}

/// Looking up slots fails only where one leads out of the address space.
proof fn lemma_only_overflow_fails(
    mem: Memory,
    ctx: Ctx,
    slots: Seq<u8>,
    chunk: int,
    slot: int,
    names: Map<u32, Seq<char>>,
)
    ensures
        slots_from(mem, ctx, slots, chunk, slot, names) matches Err(error) ==> error
            == Error::AddressOverflow,
    decreases 0x4000 - slot,
{
    if slot < 0x4000 {
        let own = slot_index(chunk, slot);
        if le_u64(slots, 8 * slot) == 0 {
            lemma_only_overflow_fails(mem, ctx, slots, chunk, slot + 1, names);
        } else if let Ok(grown) = kept(names, own, name_of(mem, ctx, own, 0)) {
            lemma_only_overflow_fails(mem, ctx, slots, chunk, slot + 1, grown);
        }
    }
}

/// Before 4.22 the extraction fails where a used slot of a chunk that is reached leads out of the
/// address space.
pub proof fn extraction_stays_in_space(
    mem: Memory,
    ctx: Ctx,
    table: u64,
    pointers: Seq<u64>,
    chunks: Seq<Seq<u8>>,
    chunk: int,
    slot: int,
)
    requires
        has_chunks(mem, ctx, table, pointers, chunks),
        0 <= chunk < chunks.len(),
        0 <= slot < 0x4000,
        is_used(chunks[chunk], slot),
        name_of(mem, ctx, (0x4000 * chunk + slot) as u32, 0) == Err::<Seq<char>, Error>(
            Error::AddressOverflow,
        ),
    ensures
        names_of(mem, ctx) == Err::<Map<u32, Seq<char>>, Error>(Error::AddressOverflow),
{
    legacy_is_before_4_22(ctx);
    u64_is_read(mem, ctx.fnamepool, table);
    lemma_chunks_fail(mem, ctx, table, pointers, chunks, 0, Map::empty(), chunk, slot);
}

/// Before 4.22 the extraction fails where the pointer to the table cannot be read.
pub proof fn extraction_needs_the_pool(mem: Memory, ctx: Ctx)
    requires
        !has_blocks(ctx),
        refuses(mem, ctx.fnamepool as int, 8),
    ensures
        names_of(mem, ctx) == Err::<Map<u32, Seq<char>>, Error>(Error::ReadFailed),
{
    legacy_is_before_4_22(ctx);
    u64_is_read(mem, ctx.fnamepool, 0);
}

/// Names that are there stand for their characters under the same indices, and an error for
/// itself.
pub proof fn pool_model_is_faithful(output: Result<BTreeMap<u32, String>, Error>, index: u32)
    ensures
        match output {
            Ok(names) => pool_model(output) matches Ok(model) && {
                &&& model.contains_key(index) <==> names@.contains_key(index)
                &&& names@.contains_key(index) ==> model[index] == names@[index]@
            },
            Err(error) => pool_model(output) == Err::<Map<u32, Seq<char>>, Error>(error),
        },
{
}

} // verus!
