//! What extracting the name pool gives: names that a lookup gives too, and none is missed.
use vstd::prelude::*;
use crate::bytes::{le_u16, le_u64};
use crate::mem::{address_after, read_u64, Ctx, Error};
use crate::names::{block_slot, header_distance, header_len, header_wide, name_of, PER_CHUNK};
use crate::pool::{
    block_len, block_place, blocks_from, byte_cursor, chunks_from, current_block, data_off,
    entries_from, entry_index, header_off, kept, names_of, rounded_up, slot_index, slots_from,
    stride, with_block, CHUNKS, CHUNK_BYTES, PER_BLOCK,
};
use crate::task::{agrees, coherent, Memory};
use crate::text::{text_at, text_size, units_at};

verus! {

/// Whether every name stands under the index that it is looked up by.
pub open spec fn all_resolve(mem: Memory, ctx: Ctx, names: Map<u32, Seq<char>>) -> bool {
    forall|index: u32| #[trigger]
        names.contains_key(index) ==> name_of(mem, ctx, index, 0) == Ok::<Seq<char>, Error>(
            names[index],
        )
}

/// The index of an entry gives back its block and its place in it.
pub(crate) proof fn lemma_entry_index(block: u32, cursor: int, case_preserving: bool)
    requires
        block <= 0xffff,
        0 <= cursor < stride(case_preserving) * PER_BLOCK,
    ensures
        entry_index(block, cursor, case_preserving) / 0x1_0000 == block,
        entry_index(block, cursor, case_preserving) % 0x1_0000 == cursor / stride(case_preserving),
{
    let place = (cursor / stride(case_preserving)) as u64;
    let wide = block as u64;
    assert(((wide << 16u64) | place) as u32 / 0x1_0000 == wide && ((wide << 16u64) | place) as u32
        % 0x1_0000 == place) by (bit_vector)
        requires
            wide <= 0xffff,
            place <= 0xffff,
    ;
}

/// The text in a part of some bytes is the text in that part of the whole.
proof fn lemma_text_of_part(bytes: Seq<u8>, start: int, len: nat, wide: bool)
    requires
        0 <= start,
        start + text_size(len, wide) <= bytes.len(),
    ensures
        text_at(bytes.subrange(start, start + text_size(len, wide)), 0, len, wide) == text_at(
            bytes,
            start,
            len,
            wide,
        ),
{
    let part = bytes.subrange(start, start + text_size(len, wide));
    if wide {
        assert(units_at(part, 0, len) =~= units_at(bytes, start, len));
    } else {
        assert(part.subrange(0, len as int) =~= bytes.subrange(start, start + len));
    }
}

/// What is known of a block whose entries are read.
#[verifier::opaque]
spec fn is_block(mem: Memory, ctx: Ctx, block: u32, pointer: u64, len: u64, bytes: Seq<u8>) -> bool {
    &&& coherent(mem)
    &&& ctx.fnamepool != 0
    &&& !ctx.is_legacy()
    &&& block <= 0xffff
    &&& pointer != 0
    &&& block_place(ctx, block as int) matches Ok(place) && read_u64(mem, place) == Ok::<
        u64,
        Error,
    >(pointer)
    &&& len <= stride(ctx.case_preserving) * PER_BLOCK
    &&& mem(pointer, len) == Some(bytes)
}

/// The lookup of an entry's index gives the entry's text.
proof fn lemma_entry_resolves(
    mem: Memory,
    ctx: Ctx,
    block: u32,
    pointer: u64,
    len: u64,
    bytes: Seq<u8>,
    cursor: int,
)
    requires
        is_block(mem, ctx, block, pointer, len, bytes),
        0 <= cursor,
        cursor % stride(ctx.case_preserving) == 0,
        ({
            let header = le_u16(bytes, cursor + header_off(ctx.case_preserving));
            let units = header_len(header, ctx.case_preserving);
            &&& units > 0
            &&& cursor + data_off(ctx.case_preserving) + text_size(units, header_wide(header))
                <= bytes.len()
        }),
    ensures
        ({
            let header = le_u16(bytes, cursor + header_off(ctx.case_preserving));
            name_of(mem, ctx, entry_index(block, cursor, ctx.case_preserving), 0) == text_at(
                bytes,
                cursor + data_off(ctx.case_preserving),
                header_len(header, ctx.case_preserving),
                header_wide(header),
            )
        }),
{
    reveal(is_block);
    let case_preserving = ctx.case_preserving;
    let at = cursor + header_off(case_preserving);
    let header = le_u16(bytes, at);
    let units = header_len(header, case_preserving);
    let wide = header_wide(header);
    let size = text_size(units, wide) as u64;
    let index = entry_index(block, cursor, case_preserving);
    assert(agrees(mem, pointer, len, at, 2));
    assert(agrees(mem, pointer, len, at + 2, size));
    lemma_entry_index(block, cursor, case_preserving);
    lemma_text_of_part(bytes, at + 2, units, wide);
    assert(header_distance(index, case_preserving) == at);
    assert(le_u16(bytes.subrange(at, at + 2), 0) == header);
    assert(block_slot(ctx, index) == block_place(ctx, block as int));
}

/// A name under its index can be added.
proof fn lemma_insert_resolves(
    mem: Memory,
    ctx: Ctx,
    names: Map<u32, Seq<char>>,
    index: u32,
    name: Seq<char>,
)
    requires
        all_resolve(mem, ctx, names),
        name_of(mem, ctx, index, 0) == Ok::<Seq<char>, Error>(name),
    ensures
        all_resolve(mem, ctx, names.insert(index, name)),
{
}

/// An entry that is not the last ends where the next can start.
proof fn lemma_next_entry(cursor: int, size: nat, len: int, case_preserving: bool)
    requires
        0 <= cursor,
        cursor % stride(case_preserving) == 0,
        cursor + data_off(case_preserving) + size <= len,
    ensures
        ({
            let next = cursor + rounded_up(
                data_off(case_preserving) + size,
                stride(case_preserving),
            );
            cursor < next < len + 4 && next % stride(case_preserving) == 0
        }),
{
}

/// Reading the entries of a block adds only names that stand under their index.
proof fn lemma_entries_resolve(
    mem: Memory,
    ctx: Ctx,
    block: u32,
    pointer: u64,
    len: u64,
    bytes: Seq<u8>,
    cursor: int,
    names: Map<u32, Seq<char>>,
)
    requires
        is_block(mem, ctx, block, pointer, len, bytes),
        0 <= cursor,
        cursor % stride(ctx.case_preserving) == 0,
        all_resolve(mem, ctx, names),
    ensures
        all_resolve(
            mem,
            ctx,
            entries_from(bytes, cursor, block, ctx.case_preserving, names),
        ),
    decreases bytes.len() + 4 - cursor,
{
    let case_preserving = ctx.case_preserving;
    let header = le_u16(bytes, cursor + header_off(case_preserving));
    let units = header_len(header, case_preserving);
    let size = text_size(units, header_wide(header));
    let start = cursor + data_off(case_preserving);
    if start > bytes.len() || units == 0 || start + size > bytes.len() {
    } else {
        lemma_entry_resolves(mem, ctx, block, pointer, len, bytes, cursor);
        lemma_next_entry(cursor, size, bytes.len() as int, case_preserving);
        let index = entry_index(block, cursor, case_preserving);
        let grown = match text_at(bytes, start, units, header_wide(header)) {
            Ok(name) => {
                lemma_insert_resolves(mem, ctx, names, index, name);
                names.insert(index, name)
            },
            Err(_) => names,
        };
        let next = cursor + rounded_up(data_off(case_preserving) + size, stride(case_preserving));
        lemma_entries_resolve(mem, ctx, block, pointer, len, bytes, next, grown);
    }
}

/// Reading blocks adds only names that stand under their index.
proof fn lemma_blocks_resolve(
    mem: Memory,
    ctx: Ctx,
    current_block: u32,
    byte_cursor: u32,
    block: int,
    names: Map<u32, Seq<char>>,
)
    requires
        coherent(mem),
        ctx.fnamepool != 0,
        !ctx.is_legacy(),
        current_block <= 0xffff,
        byte_cursor <= stride(ctx.case_preserving) * PER_BLOCK,
        0 <= block,
        all_resolve(mem, ctx, names),
    ensures
        blocks_from(mem, ctx, current_block, byte_cursor, block, names) matches Ok(found)
            ==> all_resolve(mem, ctx, found),
    decreases current_block + 1 - block,
{
    if block <= current_block {
        if let Ok(place) = block_place(ctx, block) {
            if let Ok(pointer) = read_u64(mem, place) {
                let len = block_len(current_block, byte_cursor, block, ctx.case_preserving);
                let grown = with_block(mem, ctx, pointer, len, block, names);
                if pointer != 0 && len != 0 {
                    if let Some(bytes) = mem(pointer, len) {
                        reveal(is_block);
                        lemma_entries_resolve(
                            mem,
                            ctx,
                            block as u32,
                            pointer,
                            len,
                            bytes,
                            0,
                            names,
                        );
                    }
                }
                lemma_blocks_resolve(mem, ctx, current_block, byte_cursor, block + 1, grown);
            }
        }
    }
}

/// Looking up the slots of a chunk adds only names that stand under their index.
proof fn lemma_slots_resolve(
    mem: Memory,
    ctx: Ctx,
    slots: Seq<u8>,
    chunk: int,
    slot: int,
    names: Map<u32, Seq<char>>,
)
    requires
        all_resolve(mem, ctx, names),
    ensures
        slots_from(mem, ctx, slots, chunk, slot, names) matches Ok(found) ==> all_resolve(
            mem,
            ctx,
            found,
        ),
    decreases PER_CHUNK - slot,
{
    if slot < PER_CHUNK {
        if le_u64(slots, 8 * slot) == 0 {
            lemma_slots_resolve(mem, ctx, slots, chunk, slot + 1, names);
        } else {
            let index = slot_index(chunk, slot);
            if let Ok(grown) = kept(names, index, name_of(mem, ctx, index, 0)) {
                if let Ok(name) = name_of(mem, ctx, index, 0) {
                    lemma_insert_resolves(mem, ctx, names, index, name);
                }
                lemma_slots_resolve(mem, ctx, slots, chunk, slot + 1, grown);
            }
        }
    }
}

/// Reading chunks adds only names that stand under their index.
proof fn lemma_chunks_resolve(
    mem: Memory,
    ctx: Ctx,
    table: u64,
    chunk: int,
    names: Map<u32, Seq<char>>,
)
    requires
        all_resolve(mem, ctx, names),
    ensures
        chunks_from(mem, ctx, table, chunk, names) matches Ok(found) ==> all_resolve(
            mem,
            ctx,
            found,
        ),
    decreases CHUNKS - chunk,
{
    if chunk < CHUNKS {
        if let Ok(place) = address_after(table, (8 * chunk) as nat) {
            if let Ok(pointer) = read_u64(mem, place) {
                if let Some(slots) = mem(pointer, CHUNK_BYTES) {
                    lemma_slots_resolve(mem, ctx, slots, chunk, 0, names);
                    if let Ok(grown) = slots_from(mem, ctx, slots, chunk, 0, names) {
                        lemma_chunks_resolve(mem, ctx, table, chunk + 1, grown);
                    }
                }
            }
        }
    }
}

/// Whether every index that the pool's blocks can hold names a block and a place in it: the
/// number of the block takes 16 bits, and the block that is being filled is no longer than the
/// others.
pub open spec fn indices_fit(mem: Memory, ctx: Ctx) -> bool {
    &&& current_block(mem, ctx) matches Ok(block) && block <= 0xffff
    &&& byte_cursor(mem, ctx) matches Ok(cursor) && cursor <= stride(ctx.case_preserving)
        * PER_BLOCK
}

/// Every name that the extraction gives under an index is the name that looking up this index
/// without a number gives.
pub proof fn extracted_names_resolve(mem: Memory, ctx: Ctx, names: Map<u32, Seq<char>>, index: u32)
    requires
        names_of(mem, ctx) == Ok::<Map<u32, Seq<char>>, Error>(names),
        names.contains_key(index),
        !ctx.is_legacy() ==> coherent(mem) && ctx.fnamepool != 0 && indices_fit(mem, ctx),
    ensures
        name_of(mem, ctx, index, 0) == Ok::<Seq<char>, Error>(names[index]),
{
    if ctx.is_legacy() {
        if let Ok(table) = read_u64(mem, ctx.fnamepool) {
            lemma_chunks_resolve(mem, ctx, table, 0, Map::empty());
        }
    } else {
        if let Ok(block) = current_block(mem, ctx) {
            if let Ok(cursor) = byte_cursor(mem, ctx) {
                lemma_blocks_resolve(mem, ctx, block, cursor, 0, Map::empty());
            }
        }
    }
}

/// Where the entry that starts at `cursor` ends, if there is one: it has a text, and the text lies
/// in the block.
pub open spec fn entry_end(bytes: Seq<u8>, cursor: int, case_preserving: bool) -> Option<int> {
    let header = le_u16(bytes, cursor + header_off(case_preserving));
    let len = header_len(header, case_preserving);
    let size = text_size(len, header_wide(header));
    let start = cursor + data_off(case_preserving);
    if start > bytes.len() || len == 0 || start + size > bytes.len() {
        None
    } else {
        Some(cursor + rounded_up(data_off(case_preserving) + size, stride(case_preserving)))
    }
}

/// The text of the entry that starts at `cursor`.
pub open spec fn entry_text(bytes: Seq<u8>, cursor: int, case_preserving: bool) -> Result<
    Seq<char>,
    Error,
> {
    let header = le_u16(bytes, cursor + header_off(case_preserving));
    text_at(
        bytes,
        cursor + data_off(case_preserving),
        header_len(header, case_preserving),
        header_wide(header),
    )
}

/// Whether one of the entries that follow each other from `from` on starts at `cursor`.
pub open spec fn has_entry(bytes: Seq<u8>, from: int, cursor: int, case_preserving: bool) -> bool
    decreases bytes.len() + 4 - from,
{
    match entry_end(bytes, from, case_preserving) {
        Some(end) => cursor == from || has_entry(bytes, end, cursor, case_preserving),
        None => false,
    }
}

/// Reading entries drops no name.
proof fn lemma_entries_keep(
    bytes: Seq<u8>,
    cursor: int,
    block: u32,
    case_preserving: bool,
    names: Map<u32, Seq<char>>,
    index: u32,
)
    requires
        names.contains_key(index),
    ensures
        entries_from(bytes, cursor, block, case_preserving, names).contains_key(index),
    decreases bytes.len() + 4 - cursor,
{
    if let Some(end) = entry_end(bytes, cursor, case_preserving) {
        let grown = match entry_text(bytes, cursor, case_preserving) {
            Ok(name) => names.insert(entry_index(block, cursor, case_preserving), name),
            Err(_) => names,
        };
        lemma_entries_keep(bytes, end, block, case_preserving, grown, index);
    }
}

/// Reading the entries of a block finds each that has a valid text.
proof fn lemma_entries_found(
    bytes: Seq<u8>,
    from: int,
    block: u32,
    case_preserving: bool,
    names: Map<u32, Seq<char>>,
    cursor: int,
)
    requires
        has_entry(bytes, from, cursor, case_preserving),
        entry_text(bytes, cursor, case_preserving) is Ok,
    ensures
        entries_from(bytes, from, block, case_preserving, names).contains_key(
            entry_index(block, cursor, case_preserving),
        ),
    decreases bytes.len() + 4 - from,
{
    if let Some(end) = entry_end(bytes, from, case_preserving) {
        let index = entry_index(block, from, case_preserving);
        let grown = match entry_text(bytes, from, case_preserving) {
            Ok(name) => names.insert(index, name),
            Err(_) => names,
        };
        if cursor == from {
            lemma_entries_keep(bytes, end, block, case_preserving, grown, index);
        } else {
            lemma_entries_found(bytes, end, block, case_preserving, grown, cursor);
        }
    }
}

/// Reading blocks drops no name.
proof fn lemma_blocks_keep(
    mem: Memory,
    ctx: Ctx,
    current_block: u32,
    byte_cursor: u32,
    block: int,
    names: Map<u32, Seq<char>>,
    index: u32,
)
    requires
        names.contains_key(index),
    ensures
        blocks_from(mem, ctx, current_block, byte_cursor, block, names) matches Ok(found)
            ==> found.contains_key(index),
    decreases current_block + 1 - block,
{
    if block <= current_block {
        if let Ok(place) = block_place(ctx, block) {
            if let Ok(pointer) = read_u64(mem, place) {
                let len = block_len(current_block, byte_cursor, block, ctx.case_preserving);
                if pointer != 0 && len != 0 {
                    if let Some(bytes) = mem(pointer, len) {
                        lemma_entries_keep(
                            bytes,
                            0,
                            block as u32,
                            ctx.case_preserving,
                            names,
                            index,
                        );
                    }
                }
                let grown = with_block(mem, ctx, pointer, len, block, names);
                lemma_blocks_keep(
                    mem,
                    ctx,
                    current_block,
                    byte_cursor,
                    block + 1,
                    grown,
                    index,
                );
            }
        }
    }
}

/// Reading blocks finds each entry with a valid text in each of them.
proof fn lemma_blocks_found(
    mem: Memory,
    ctx: Ctx,
    current_block: u32,
    byte_cursor: u32,
    from: int,
    names: Map<u32, Seq<char>>,
    block: u32,
    bytes: Seq<u8>,
    cursor: int,
)
    requires
        from <= block <= current_block,
        is_filled(mem, ctx, current_block, byte_cursor, block, bytes),
        has_entry(bytes, 0, cursor, ctx.case_preserving),
        entry_text(bytes, cursor, ctx.case_preserving) is Ok,
    ensures
        blocks_from(mem, ctx, current_block, byte_cursor, from, names) matches Ok(found)
            ==> found.contains_key(entry_index(block, cursor, ctx.case_preserving)),
    decreases current_block + 1 - from,
{
    if let Ok(place) = block_place(ctx, from) {
        if let Ok(pointer) = read_u64(mem, place) {
            let len = block_len(current_block, byte_cursor, from, ctx.case_preserving);
            let grown = with_block(mem, ctx, pointer, len, from, names);
            if from == block {
                lemma_entries_found(bytes, 0, block, ctx.case_preserving, names, cursor);
                lemma_blocks_keep(
                    mem,
                    ctx,
                    current_block,
                    byte_cursor,
                    from + 1,
                    grown,
                    entry_index(block, cursor, ctx.case_preserving),
                );
            } else {
                lemma_blocks_found(
                    mem,
                    ctx,
                    current_block,
                    byte_cursor,
                    from + 1,
                    grown,
                    block,
                    bytes,
                    cursor,
                );
            }
        }
    }
}

/// Whether `bytes` are the bytes of a block that hold entries.
pub open spec fn is_filled(
    mem: Memory,
    ctx: Ctx,
    current_block: u32,
    byte_cursor: u32,
    block: u32,
    bytes: Seq<u8>,
) -> bool {
    let len = block_len(current_block, byte_cursor, block as int, ctx.case_preserving);
    &&& len != 0
    &&& block_place(ctx, block as int) matches Ok(place) && read_u64(mem, place) matches Ok(pointer)
        && pointer != 0 && mem(pointer, len) == Some(bytes)
}

/// From 4.22 on the extraction misses no entry with a valid text in a block that can be read.
pub proof fn no_entry_is_missed(
    mem: Memory,
    ctx: Ctx,
    names: Map<u32, Seq<char>>,
    last: u32,
    filled: u32,
    block: u32,
    bytes: Seq<u8>,
    cursor: int,
)
    requires
        !ctx.is_legacy(),
        names_of(mem, ctx) == Ok::<Map<u32, Seq<char>>, Error>(names),
        current_block(mem, ctx) == Ok::<u32, Error>(last),
        byte_cursor(mem, ctx) == Ok::<u32, Error>(filled),
        block <= last,
        is_filled(mem, ctx, last, filled, block, bytes),
        has_entry(bytes, 0, cursor, ctx.case_preserving),
        entry_text(bytes, cursor, ctx.case_preserving) is Ok,
    ensures
        names.contains_key(entry_index(block, cursor, ctx.case_preserving)),
{
    lemma_blocks_found(mem, ctx, last, filled, 0, Map::empty(), block, bytes, cursor);
}

/// The slots of a chunk of the table before 4.22.
pub open spec fn slots_of(mem: Memory, table: u64, chunk: int) -> Option<Seq<u8>> {
    match address_after(table, (8 * chunk) as nat) {
        Ok(place) => match read_u64(mem, place) {
            Ok(0) => None,
            Ok(pointer) => mem(pointer, CHUNK_BYTES),
            Err(_) => None,
        },
        Err(_) => None,
    }
}

/// Looking up the slots of a chunk drops no name.
proof fn lemma_slots_keep(
    mem: Memory,
    ctx: Ctx,
    slots: Seq<u8>,
    chunk: int,
    slot: int,
    names: Map<u32, Seq<char>>,
    index: u32,
)
    requires
        names.contains_key(index),
    ensures
        slots_from(mem, ctx, slots, chunk, slot, names) matches Ok(found) ==> found.contains_key(
            index,
        ),
    decreases PER_CHUNK - slot,
{
    if slot < PER_CHUNK {
        let own = slot_index(chunk, slot);
        if le_u64(slots, 8 * slot) == 0 {
            lemma_slots_keep(mem, ctx, slots, chunk, slot + 1, names, index);
        } else if let Ok(grown) = kept(names, own, name_of(mem, ctx, own, 0)) {
            lemma_slots_keep(mem, ctx, slots, chunk, slot + 1, grown, index);
        }
    }
}

/// Looking up the slots of a chunk finds each that has a name.
proof fn lemma_slots_found(
    mem: Memory,
    ctx: Ctx,
    slots: Seq<u8>,
    chunk: int,
    from: int,
    names: Map<u32, Seq<char>>,
    slot: int,
)
    requires
        from <= slot < PER_CHUNK,
        le_u64(slots, 8 * slot) != 0,
        name_of(mem, ctx, slot_index(chunk, slot), 0) is Ok,
    ensures
        slots_from(mem, ctx, slots, chunk, from, names) matches Ok(found) ==> found.contains_key(
            slot_index(chunk, slot),
        ),
    decreases PER_CHUNK - from,
{
    let own = slot_index(chunk, from);
    let grown = if le_u64(slots, 8 * from) == 0 {
        Ok(names)
    } else {
        kept(names, own, name_of(mem, ctx, own, 0))
    };
    if let Ok(grown) = grown {
        if from == slot {
            lemma_slots_keep(mem, ctx, slots, chunk, from + 1, grown, own);
        } else {
            lemma_slots_found(mem, ctx, slots, chunk, from + 1, grown, slot);
        }
    }
}

/// Reading chunks drops no name.
proof fn lemma_chunks_keep(
    mem: Memory,
    ctx: Ctx,
    table: u64,
    chunk: int,
    names: Map<u32, Seq<char>>,
    index: u32,
)
    requires
        names.contains_key(index),
    ensures
        chunks_from(mem, ctx, table, chunk, names) matches Ok(found) ==> found.contains_key(index),
    decreases CHUNKS - chunk,
{
    if chunk < CHUNKS {
        if let Some(slots) = slots_of(mem, table, chunk) {
            lemma_slots_keep(mem, ctx, slots, chunk, 0, names, index);
            if let Ok(grown) = slots_from(mem, ctx, slots, chunk, 0, names) {
                lemma_chunks_keep(mem, ctx, table, chunk + 1, grown, index);
            }
        }
    }
}

/// Reading chunks finds each slot that has a name, as long as no chunk before it is missing.
proof fn lemma_chunks_found(
    mem: Memory,
    ctx: Ctx,
    table: u64,
    from: int,
    names: Map<u32, Seq<char>>,
    chunk: int,
    slots: Seq<u8>,
    slot: int,
)
    requires
        from <= chunk < CHUNKS,
        forall|k: int| from <= k < chunk ==> #[trigger] slots_of(mem, table, k) is Some,
        slots_of(mem, table, chunk) == Some(slots),
        0 <= slot < PER_CHUNK,
        le_u64(slots, 8 * slot) != 0,
        name_of(mem, ctx, slot_index(chunk, slot), 0) is Ok,
    ensures
        chunks_from(mem, ctx, table, from, names) matches Ok(found) ==> found.contains_key(
            slot_index(chunk, slot),
        ),
    decreases CHUNKS - from,
{
    assert(slots_of(mem, table, from) is Some);
    if let Some(own) = slots_of(mem, table, from) {
        if from == chunk {
            lemma_slots_found(mem, ctx, slots, chunk, 0, names, slot);
        }
        if let Ok(grown) = slots_from(mem, ctx, own, from, 0, names) {
            if from == chunk {
                lemma_chunks_keep(
                    mem,
                    ctx,
                    table,
                    from + 1,
                    grown,
                    slot_index(chunk, slot),
                );
            } else {
                lemma_chunks_found(mem, ctx, table, from + 1, grown, chunk, slots, slot);
            }
        }
    }
}

/// Before 4.22 the extraction misses no slot whose index can be looked up, in every chunk up to
/// the first that is null or cannot be read.
pub proof fn no_slot_is_missed(
    mem: Memory,
    ctx: Ctx,
    names: Map<u32, Seq<char>>,
    table: u64,
    chunk: int,
    slots: Seq<u8>,
    slot: int,
)
    requires
        ctx.is_legacy(),
        names_of(mem, ctx) == Ok::<Map<u32, Seq<char>>, Error>(names),
        read_u64(mem, ctx.fnamepool) == Ok::<u64, Error>(table),
        0 <= chunk < CHUNKS,
        forall|k: int| 0 <= k < chunk ==> #[trigger] slots_of(mem, table, k) is Some,
        slots_of(mem, table, chunk) == Some(slots),
        0 <= slot < PER_CHUNK,
        le_u64(slots, 8 * slot) != 0,
        name_of(mem, ctx, slot_index(chunk, slot), 0) is Ok,
    ensures
        names.contains_key(slot_index(chunk, slot)),
{
    lemma_chunks_found(mem, ctx, table, 0, Map::empty(), chunk, slots, slot);
}

} // verus!
