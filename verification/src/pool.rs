//! The name pool as a whole.
use std::collections::BTreeMap;
use vstd::prelude::*;
use crate::bytes::{le_u16, le_u64, read_le_u16, read_le_u32, read_le_u64};
use crate::mem::{address_after, advance, read_u32, read_u64, Ctx, Error};
use crate::names::{
    header_len, header_wide, name_budget, name_of, resolve_fname, ResolveFName, PER_CHUNK,
};
use crate::task::{delivers, fits, ready, reply_view, Memory, Progress, Request, Task};
use crate::text::{decode_text, text_at, text_model, text_size};

verus! {

/// How many chunks the pool has at most before 4.22.
pub const CHUNKS: u32 = 0x400;

/// How many bytes the slots of a chunk take.
pub const CHUNK_BYTES: u64 = 0x2_0000;

/// How many entries a block of the pool has room for.
pub const PER_BLOCK: u64 = 0x1_0000;

/// The names found so far.
pub open spec fn names_model(names: Map<u32, String>) -> Map<u32, Seq<char>> {
    names.map_values(|name: String| name@)
}

/// The view of a pool that may be missing.
pub open spec fn pool_model(output: Result<BTreeMap<u32, String>, Error>) -> Result<
    Map<u32, Seq<char>>,
    Error,
> {
    match output {
        Ok(names) => Ok(names_model(names@)),
        Err(error) => Err(error),
    }
}

/// The alignment of the entries of a block; an index counts in units of it.
pub open spec fn stride(case_preserving: bool) -> int {
    if case_preserving {
        4
    } else {
        2
    }
}

/// How far the header lies behind the start of an entry.
pub open spec fn header_off(case_preserving: bool) -> int {
    if case_preserving {
        4
    } else {
        0
    }
}

/// How far the text lies behind the start of an entry.
pub open spec fn data_off(case_preserving: bool) -> int {
    header_off(case_preserving) + 2
}

/// The least multiple of `unit` that is not below `value`.
pub open spec fn rounded_up(value: int, unit: int) -> int {
    (value + unit - 1) / unit * unit
}

/// The index of the name whose entry starts at `cursor` in a block.
pub open spec fn entry_index(block: u32, cursor: int, case_preserving: bool) -> u32 {
    (((block as u64) << 16u64) | ((cursor / stride(case_preserving)) as u64)) as u32
}

/// The names of the entries from `cursor` to the end of a block, put over `names`. The end is
/// where no entry fits any more or one has no text; an entry whose text is invalid is left out.
pub open spec fn entries_from(
    bytes: Seq<u8>,
    cursor: int,
    block: u32,
    case_preserving: bool,
    names: Map<u32, Seq<char>>,
) -> Map<u32, Seq<char>>
    decreases bytes.len() + 4 - cursor,
{
    let header = le_u16(bytes, cursor + header_off(case_preserving));
    let len = header_len(header, case_preserving);
    let size = text_size(len, header_wide(header));
    let start = cursor + data_off(case_preserving);
    if start > bytes.len() || len == 0 || start + size > bytes.len() {
        names
    } else {
        entries_from(
            bytes,
            cursor + rounded_up(data_off(case_preserving) + size, stride(case_preserving)),
            block,
            case_preserving,
            match text_at(bytes, start, len, header_wide(header)) {
                Ok(name) => names.insert(entry_index(block, cursor, case_preserving), name),
                Err(_) => names,
            },
        )
    }
}

/// Takes the names of the entries of a block over into `names`.
pub fn parse_block(bytes: &Vec<u8>, block: u32, case_preserving: bool, names: &mut BTreeMap<
    u32,
    String,
>)
    requires
        bytes.len() <= u32::MAX,
    ensures
        names_model(final(names)@) == entries_from(
            bytes@,
            0,
            block,
            case_preserving,
            names_model(old(names)@),
        ),
{
    let stride: u64 = if case_preserving {
        4
    } else {
        2
    };
    let header_off: u64 = if case_preserving {
        4
    } else {
        0
    };
    let data_off: u64 = header_off + 2;
    let mut cursor: u64 = 0;
    while cursor + data_off <= bytes.len() as u64
        invariant
            bytes.len() <= u32::MAX,
            cursor <= bytes@.len() + 4,
            stride == self::stride(case_preserving),
            header_off == self::header_off(case_preserving),
            data_off == self::data_off(case_preserving),
            entries_from(bytes@, 0, block, case_preserving, names_model(old(names)@))
                == entries_from(
                bytes@,
                cursor as int,
                block,
                case_preserving,
                names_model(names@),
            ),
        decreases bytes@.len() + 4 - cursor,
    {
        let header: u16 = read_le_u16(bytes, (cursor + header_off) as usize);
        let len: u16 = if case_preserving {
            header / 2
        } else {
            header / 64
        };
        let wide = header % 2 == 1;
        if len == 0 {
            return;
        }
        let size: u64 = if wide {
            2 * len as u64
        } else {
            len as u64
        };
        let start: u64 = cursor + data_off;
        if start + size > bytes.len() as u64 {
            return;
        }
        match decode_text(bytes, start as usize, len as usize, wide) {
            Ok(name) => {
                let index: u32 = (((block as u64) << 16u64) | (cursor / stride)) as u32;
                let ghost held = names@;
                names.insert(index, name);
                assert(names_model(names@) =~= names_model(held).insert(index, name@));
            },
            Err(_) => {},
        }
        let step: u64 = (data_off + size + stride - 1) / stride * stride;
        cursor = cursor + step;
    }
}

/// The index of the name in a slot of a chunk.
pub open spec fn slot_index(chunk: int, slot: int) -> u32 {
    (chunk * PER_CHUNK + slot) as u32
}

/// `names` with a name that was looked up. A name that cannot be resolved is left out, but for an
/// address outside the address space, which ends the extraction.
pub open spec fn kept(
    names: Map<u32, Seq<char>>,
    index: u32,
    name: Result<Seq<char>, Error>,
) -> Result<Map<u32, Seq<char>>, Error> {
    match name {
        Ok(name) => Ok(names.insert(index, name)),
        Err(Error::AddressOverflow) => Err(Error::AddressOverflow),
        Err(_) => Ok(names),
    }
}

/// The names of the slots of a chunk from `slot` on, put over `names`.
pub open spec fn slots_from(
    mem: Memory,
    ctx: Ctx,
    slots: Seq<u8>,
    chunk: int,
    slot: int,
    names: Map<u32, Seq<char>>,
) -> Result<Map<u32, Seq<char>>, Error>
    decreases PER_CHUNK - slot,
{
    if slot >= PER_CHUNK {
        Ok(names)
    } else if le_u64(slots, 8 * slot) == 0 {
        slots_from(mem, ctx, slots, chunk, slot + 1, names)
    } else {
        match kept(
            names,
            slot_index(chunk, slot),
            name_of(mem, ctx, slot_index(chunk, slot), 0),
        ) {
            Ok(names) => slots_from(mem, ctx, slots, chunk, slot + 1, names),
            Err(error) => Err(error),
        }
    }
}

/// The names of the chunks from `chunk` on, put over `names`. The first chunk that is null or
/// cannot be read is the end.
pub open spec fn chunks_from(
    mem: Memory,
    ctx: Ctx,
    table: u64,
    chunk: int,
    names: Map<u32, Seq<char>>,
) -> Result<Map<u32, Seq<char>>, Error>
    decreases CHUNKS - chunk,
{
    if chunk >= CHUNKS {
        Ok(names)
    } else {
        match address_after(table, (8 * chunk) as nat) {
            Ok(place) => match read_u64(mem, place) {
                Ok(0) => Ok(names),
                Ok(pointer) => match mem(pointer, CHUNK_BYTES) {
                    Some(slots) => match slots_from(mem, ctx, slots, chunk, 0, names) {
                        Ok(names) => chunks_from(mem, ctx, table, chunk + 1, names),
                        Err(error) => Err(error),
                    },
                    None => Ok(names),
                },
                Err(error) => Err(error),
            },
            Err(error) => Err(error),
        }
    }
}

/// The names of the slots of a chunk from `slot` on and of the chunks behind it, put over `names`.
pub open spec fn slots_and_chunks_from(
    mem: Memory,
    ctx: Ctx,
    table: u64,
    slots: Seq<u8>,
    chunk: int,
    slot: int,
    names: Map<u32, Seq<char>>,
) -> Result<Map<u32, Seq<char>>, Error> {
    match slots_from(mem, ctx, slots, chunk, slot, names) {
        Ok(names) => chunks_from(mem, ctx, table, chunk + 1, names),
        Err(error) => Err(error),
    }
}

/// The address of a member of the pool.
pub open spec fn pool_member(ctx: Ctx, name: Seq<char>) -> Result<u64, Error> {
    address_after(ctx.fnamepool, ctx.at("FNameEntryAllocator"@, name) as nat)
}

/// The address of the pointer to a block.
pub open spec fn block_place(ctx: Ctx, block: int) -> Result<u64, Error> {
    match pool_member(ctx, "Blocks"@) {
        Ok(blocks) => address_after(blocks, (8 * block) as nat),
        Err(error) => Err(error),
    }
}

/// How many bytes of a block hold entries: all, but for the block that is being filled.
pub open spec fn block_len(
    current_block: u32,
    byte_cursor: u32,
    block: int,
    case_preserving: bool,
) -> u64 {
    if block == current_block {
        byte_cursor as u64
    } else {
        (stride(case_preserving) * PER_BLOCK) as u64
    }
}

/// `names` with the names of a block. A block that is null, empty or cannot be read has none.
pub open spec fn with_block(
    mem: Memory,
    ctx: Ctx,
    pointer: u64,
    len: u64,
    block: int,
    names: Map<u32, Seq<char>>,
) -> Map<u32, Seq<char>> {
    if pointer == 0 || len == 0 {
        names
    } else {
        match mem(pointer, len) {
            Some(bytes) => entries_from(bytes, 0, block as u32, ctx.case_preserving, names),
            None => names,
        }
    }
}

/// The names of the blocks from `block` on, put over `names`.
pub open spec fn blocks_from(
    mem: Memory,
    ctx: Ctx,
    current_block: u32,
    byte_cursor: u32,
    block: int,
    names: Map<u32, Seq<char>>,
) -> Result<Map<u32, Seq<char>>, Error>
    decreases current_block + 1 - block,
{
    if block > current_block {
        Ok(names)
    } else {
        match block_place(ctx, block) {
            Ok(place) => match read_u64(mem, place) {
                Ok(pointer) => blocks_from(
                    mem,
                    ctx,
                    current_block,
                    byte_cursor,
                    block + 1,
                    with_block(
                        mem,
                        ctx,
                        pointer,
                        block_len(current_block, byte_cursor, block, ctx.case_preserving),
                        block,
                        names,
                    ),
                ),
                Err(error) => Err(error),
            },
            Err(error) => Err(error),
        }
    }
}

/// The number of the block that is being filled.
pub open spec fn current_block(mem: Memory, ctx: Ctx) -> Result<u32, Error> {
    match pool_member(ctx, "CurrentBlock"@) {
        Ok(place) => read_u32(mem, place),
        Err(error) => Err(error),
    }
}

/// How far the block that is being filled is filled.
pub open spec fn byte_cursor(mem: Memory, ctx: Ctx) -> Result<u32, Error> {
    match pool_member(ctx, "CurrentByteCursor"@) {
        Ok(place) => read_u32(mem, place),
        Err(error) => Err(error),
    }
}

/// All names of the pool by their index.
pub open spec fn names_of(mem: Memory, ctx: Ctx) -> Result<Map<u32, Seq<char>>, Error> {
    if ctx.is_legacy() {
        match read_u64(mem, ctx.fnamepool) {
            Ok(table) => chunks_from(mem, ctx, table, 0, Map::empty()),
            Err(error) => Err(error),
        }
    } else {
        match current_block(mem, ctx) {
            Ok(current_block) => match byte_cursor(mem, ctx) {
                Ok(byte_cursor) => blocks_from(
                    mem,
                    ctx,
                    current_block,
                    byte_cursor,
                    0,
                    Map::empty(),
                ),
                Err(error) => Err(error),
            },
            Err(error) => Err(error),
        }
    }
}

/// Whether the layout has what reading the pool needs.
pub open spec fn can_extract(ctx: Ctx) -> bool {
    ctx.is_legacy() || {
        &&& ctx.has("FNameEntryAllocator"@, "CurrentBlock"@)
        &&& ctx.has("FNameEntryAllocator"@, "CurrentByteCursor"@)
        &&& ctx.has("FNameEntryAllocator"@, "Blocks"@)
    }
}

/// What reading the pool waits for.
pub enum PoolStage<'a> {
    /// The table of chunks.
    Table,
    /// The pointer to a chunk.
    Chunk { table: u64, chunk: u32, place: u64 },
    /// The slots of a chunk.
    Slots { table: u64, chunk: u32, pointer: u64 },
    /// A name of a chunk.
    Name { table: u64, chunk: u32, slots: Vec<u8>, slot: u32, lookup: ResolveFName<'a> },
    /// The number of the block that is being filled.
    CurrentBlock { place: u64 },
    /// How far that block is filled.
    ByteCursor { place: u64, current_block: u32 },
    /// The pointer to a block.
    Block { current_block: u32, byte_cursor: u32, block: u32, place: u64 },
    /// The bytes of a block.
    Entries { current_block: u32, byte_cursor: u32, block: u32, pointer: u64, len: u64 },
}

/// The extraction of all names.
pub struct ExtractFNames<'a> {
    /// What is known of the target.
    pub ctx: &'a Ctx,
    /// The names found so far.
    pub names: BTreeMap<u32, String>,
    /// What it waits for.
    pub stage: PoolStage<'a>,
}

/// A bound on the number of reads for `chunks` chunks.
pub open spec fn chunk_reads(chunks: int) -> int {
    chunks * 0x1_0000_0000_0000_0000_0000int
}

/// A bound on the number of reads for `slots` slots.
pub open spec fn slot_reads(slots: int) -> int {
    slots * 0x2_0000_0000_0000_0000int
}

/// What an extraction goes on as.
pub type Extraction<'a> = Progress<ExtractFNames<'a>, Result<BTreeMap<u32, String>, Error>>;

impl<'a> ExtractFNames<'a> {
    /// The invariant of an extraction that waits.
    pub open spec fn is_wf(&self) -> bool {
        &&& can_extract(*self.ctx)
        &&& match self.stage {
            PoolStage::Table => self.ctx.is_legacy(),
            PoolStage::Chunk { table, chunk, place } => chunk < CHUNKS && address_after(
                table,
                (8 * chunk) as nat,
            ) == Ok::<u64, Error>(place),
            PoolStage::Slots { chunk, pointer, .. } => chunk < CHUNKS && pointer != 0,
            PoolStage::Name { chunk, slots, slot, lookup, .. } => {
                &&& chunk < CHUNKS
                &&& slot < PER_CHUNK
                &&& slots@.len() == CHUNK_BYTES
                &&& lookup.wf()
                &&& lookup.budget() <= name_budget()
            },
            PoolStage::CurrentBlock { place } => !self.ctx.is_legacy() && pool_member(
                *self.ctx,
                "CurrentBlock"@,
            ) == Ok::<u64, Error>(place),
            PoolStage::ByteCursor { place, .. } => !self.ctx.is_legacy() && pool_member(
                *self.ctx,
                "CurrentByteCursor"@,
            ) == Ok::<u64, Error>(place),
            PoolStage::Block { current_block, block, place, .. } => {
                &&& !self.ctx.is_legacy()
                &&& block <= current_block
                &&& block_place(*self.ctx, block as int) == Ok::<u64, Error>(place)
            },
            PoolStage::Entries { current_block, byte_cursor, block, pointer, len } => {
                &&& !self.ctx.is_legacy()
                &&& block <= current_block
                &&& pointer != 0
                &&& len != 0
                &&& len == block_len(
                    current_block,
                    byte_cursor,
                    block as int,
                    self.ctx.case_preserving,
                )
            },
        }
    }

    /// The names that the extraction ends with.
    pub open spec fn names_with(&self, mem: Memory) -> Result<Map<u32, Seq<char>>, Error> {
        let names = names_model(self.names@);
        match self.stage {
            PoolStage::Table => match read_u64(mem, self.ctx.fnamepool) {
                Ok(table) => chunks_from(mem, *self.ctx, table, 0, names),
                Err(error) => Err(error),
            },
            PoolStage::Chunk { table, chunk, .. } => chunks_from(
                mem,
                *self.ctx,
                table,
                chunk as int,
                names,
            ),
            PoolStage::Slots { table, chunk, pointer } => match mem(pointer, CHUNK_BYTES) {
                Some(slots) => slots_and_chunks_from(
                    mem,
                    *self.ctx,
                    table,
                    slots,
                    chunk as int,
                    0,
                    names,
                ),
                None => Ok(names),
            },
            PoolStage::Name { table, chunk, slots, slot, lookup } => match kept(
                names,
                slot_index(chunk as int, slot as int),
                lookup.outcome(mem),
            ) {
                Ok(names) => slots_and_chunks_from(
                    mem,
                    *self.ctx,
                    table,
                    slots@,
                    chunk as int,
                    slot + 1,
                    names,
                ),
                Err(error) => Err(error),
            },
            PoolStage::CurrentBlock { place } => match read_u32(mem, place) {
                Ok(current_block) => match byte_cursor(mem, *self.ctx) {
                    Ok(byte_cursor) => blocks_from(
                        mem,
                        *self.ctx,
                        current_block,
                        byte_cursor,
                        0,
                        names,
                    ),
                    Err(error) => Err(error),
                },
                Err(error) => Err(error),
            },
            PoolStage::ByteCursor { place, current_block } => match read_u32(mem, place) {
                Ok(byte_cursor) => blocks_from(
                    mem,
                    *self.ctx,
                    current_block,
                    byte_cursor,
                    0,
                    names,
                ),
                Err(error) => Err(error),
            },
            PoolStage::Block { current_block, byte_cursor, block, .. } => blocks_from(
                mem,
                *self.ctx,
                current_block,
                byte_cursor,
                block as int,
                names,
            ),
            PoolStage::Entries { current_block, byte_cursor, block, pointer, len } => blocks_from(
                mem,
                *self.ctx,
                current_block,
                byte_cursor,
                block + 1,
                with_block(mem, *self.ctx, pointer, len, block as int, names),
            ),
        }
    }

    /// A bound on the number of reads that are left.
    pub open spec fn reads_left(&self) -> nat {
        match self.stage {
            PoolStage::Table => (chunk_reads(CHUNKS as int) + 1) as nat,
            PoolStage::Chunk { chunk, .. } => chunk_reads(CHUNKS - chunk) as nat,
            PoolStage::Slots { chunk, .. } => (chunk_reads(CHUNKS - chunk) - 1) as nat,
            PoolStage::Name { chunk, slot, lookup, .. } => (chunk_reads(CHUNKS - chunk - 1)
                + slot_reads(PER_CHUNK - slot - 1) + lookup.budget() + 1) as nat,
            PoolStage::CurrentBlock { .. } => 0x2_0000_0002,
            PoolStage::ByteCursor { .. } => 0x2_0000_0001,
            PoolStage::Block { current_block, block, .. } => (2 * (current_block + 1
                - block)) as nat,
            PoolStage::Entries { current_block, block, .. } => (2 * (current_block + 1 - block)
                - 1) as nat,
        }
    }

    /// The read that the extraction waits for.
    pub open spec fn awaits(&self) -> Request {
        match self.stage {
            PoolStage::Table => Request { address: self.ctx.fnamepool, len: 8 },
            PoolStage::Chunk { place, .. } => Request { address: place, len: 8 },
            PoolStage::Slots { pointer, .. } => Request { address: pointer, len: CHUNK_BYTES },
            PoolStage::Name { lookup, .. } => lookup.asks(),
            PoolStage::CurrentBlock { place } => Request { address: place, len: 4 },
            PoolStage::ByteCursor { place, .. } => Request { address: place, len: 4 },
            PoolStage::Block { place, .. } => Request { address: place, len: 8 },
            PoolStage::Entries { pointer, len, .. } => Request { address: pointer, len },
        }
    }
}

/// Whether an extraction that waits satisfies its invariant with `reads` reads left at most.
pub open spec fn goes_on<'a>(progress: Extraction<'a>, reads: int) -> bool {
    progress matches Progress::Waiting(waiting) ==> waiting.is_wf() && waiting.reads_left() <= reads
}

/// The names that an extraction ends with.
pub open spec fn ends_with<'a>(progress: Extraction<'a>, mem: Memory) -> Result<
    Map<u32, Seq<char>>,
    Error,
> {
    match progress {
        Progress::Waiting(waiting) => waiting.names_with(mem),
        Progress::Done(output) => pool_model(output),
    }
}

impl<'a> Task for ExtractFNames<'a> {
    type Output = Result<BTreeMap<u32, String>, Error>;

    type Model = Result<Map<u32, Seq<char>>, Error>;

    open spec fn wf(&self) -> bool {
        self.is_wf()
    }

    open spec fn asks(&self) -> Request {
        self.awaits()
    }

    open spec fn model(output: Result<BTreeMap<u32, String>, Error>) -> Result<
        Map<u32, Seq<char>>,
        Error,
    > {
        pool_model(output)
    }

    open spec fn outcome(&self, mem: Memory) -> Result<Map<u32, Seq<char>>, Error> {
        self.names_with(mem)
    }

    open spec fn budget(&self) -> nat {
        self.reads_left()
    }

    fn request(&self) -> (request: Request) {
        match &self.stage {
            PoolStage::Table => Request { address: self.ctx.fnamepool, len: 8 },
            PoolStage::Chunk { place, .. } => Request { address: *place, len: 8 },
            PoolStage::Slots { pointer, .. } => Request { address: *pointer, len: CHUNK_BYTES },
            PoolStage::Name { lookup, .. } => lookup.request(),
            PoolStage::CurrentBlock { place } => Request { address: *place, len: 4 },
            PoolStage::ByteCursor { place, .. } => Request { address: *place, len: 4 },
            PoolStage::Block { place, .. } => Request { address: *place, len: 8 },
            PoolStage::Entries { pointer, len, .. } => Request { address: *pointer, len: *len },
        }
    }

    fn resume(self, reply: Option<Vec<u8>>) -> (next: Progress<
        Self,
        Result<BTreeMap<u32, String>, Error>,
    >) {
        let ExtractFNames { ctx, names, stage } = self;
        let next = match stage {
            PoolStage::Table => after_table(ctx, names, reply),
            PoolStage::Chunk { table, chunk, place } => after_chunk(
                ctx,
                names,
                table,
                chunk,
                place,
                reply,
            ),
            PoolStage::Slots { table, chunk, pointer } => after_slots(
                ctx,
                names,
                table,
                chunk,
                pointer,
                reply,
            ),
            PoolStage::Name { table, chunk, slots, slot, lookup } => after_name(
                ctx,
                names,
                table,
                chunk,
                slots,
                slot,
                lookup,
                reply,
            ),
            PoolStage::CurrentBlock { place } => after_current_block(ctx, names, place, reply),
            PoolStage::ByteCursor { place, current_block } => after_byte_cursor(
                ctx,
                names,
                place,
                current_block,
                reply,
            ),
            PoolStage::Block { current_block, byte_cursor, block, place } => after_block(
                ctx,
                names,
                current_block,
                byte_cursor,
                block,
                place,
                reply,
            ),
            PoolStage::Entries { current_block, byte_cursor, block, pointer, len } => after_entries(
                ctx,
                names,
                current_block,
                byte_cursor,
                block,
                pointer,
                len,
                reply,
            ),
        };
        assert(follows(next, self, reply_view(reply)));
        next
    }
}

/// Whether `next` is where a reply leads from `from`.
spec fn follows<'a>(next: Extraction<'a>, from: ExtractFNames<'a>, reply: Option<Seq<u8>>) -> bool {
    &&& goes_on(next, from.reads_left() - 1)
    &&& forall|mem: Memory|
        mem(from.awaits().address, from.awaits().len) == reply ==> #[trigger] from.names_with(mem)
            == ends_with(next, mem)
}

/// Puts a name that was looked up among `names`.
fn keep(names: &mut BTreeMap<u32, String>, index: u32, name: Result<String, Error>) -> (result:
    Result<(), Error>)
    ensures
        kept(names_model(old(names)@), index, text_model(name)) == match result {
            Ok(_) => Ok::<Map<u32, Seq<char>>, Error>(names_model(final(names)@)),
            Err(error) => Err(error),
        },
{
    match name {
        Ok(name) => {
            names.insert(index, name);
            assert(names_model(names@) =~= names_model(old(names)@).insert(index, name@));
            Ok(())
        },
        Err(Error::AddressOverflow) => Err(Error::AddressOverflow),
        Err(_) => Ok(()),
    }
}

/// Goes on at a chunk.
fn at_chunk<'a>(ctx: &'a Ctx, names: BTreeMap<u32, String>, table: u64, chunk: u32) -> (progress:
    Extraction<'a>)
    requires
        can_extract(*ctx),
        chunk <= CHUNKS,
    ensures
        goes_on(progress, chunk_reads(CHUNKS - chunk)),
        forall|mem: Memory| #[trigger]
            ends_with(progress, mem) == chunks_from(
                mem,
                *ctx,
                table,
                chunk as int,
                names_model(names@),
            ),
{
    if chunk == CHUNKS {
        return Progress::Done(Ok(names));
    }
    match advance(table, 8 * chunk as u64) {
        Ok(place) => Progress::Waiting(
            ExtractFNames { ctx, names, stage: PoolStage::Chunk { table, chunk, place } },
        ),
        Err(error) => Progress::Done(Err(error)),
    }
}

/// Passes a slot of a chunk, or starts the lookup of the name in it.
fn pass_slot<'a>(
    ctx: &'a Ctx,
    names: &mut BTreeMap<u32, String>,
    chunk: u32,
    slots: &Vec<u8>,
    slot: u32,
) -> (lookup: Result<Option<ResolveFName<'a>>, Error>)
    requires
        can_extract(*ctx),
        chunk < CHUNKS,
        slot < PER_CHUNK,
        slots@.len() == CHUNK_BYTES,
    ensures
        lookup matches Ok(Some(lookup)) ==> {
            &&& final(names)@ == old(names)@
            &&& lookup.wf()
            &&& lookup.budget() <= name_budget()
        },
        forall|mem: Memory| #[trigger]
            slots_from(
                mem,
                *ctx,
                slots@,
                chunk as int,
                slot as int,
                names_model(old(names)@),
            ) == match lookup {
                Ok(Some(lookup)) => match kept(
                    names_model(old(names)@),
                    slot_index(chunk as int, slot as int),
                    lookup.outcome(mem),
                ) {
                    Ok(names) => slots_from(
                        mem,
                        *ctx,
                        slots@,
                        chunk as int,
                        slot + 1,
                        names,
                    ),
                    Err(error) => Err(error),
                },
                Ok(None) => slots_from(
                    mem,
                    *ctx,
                    slots@,
                    chunk as int,
                    slot + 1,
                    names_model(final(names)@),
                ),
                Err(error) => Err(error),
            },
{
    if read_le_u64(slots, 8 * slot as usize) == 0 {
        return Ok(None);
    }
    let index: u32 = chunk * PER_CHUNK + slot;
    let progress = resolve_fname(ctx, index, 0);
    assert(forall|mem: Memory| #[trigger]
        name_of(mem, *ctx, index, 0) == delivers(progress, mem));
    match progress {
        Progress::Waiting(lookup) => Ok(Some(lookup)),
        Progress::Done(name) => match keep(names, index, name) {
            Ok(_) => Ok(None),
            Err(error) => Err(error),
        },
    }
}

/// Passes slots of a chunk up to the first with a name to look up, and starts that lookup.
fn pass_slots<'a>(
    ctx: &'a Ctx,
    names: &mut BTreeMap<u32, String>,
    chunk: u32,
    slots: &Vec<u8>,
    from: u32,
) -> (lookup: Result<Option<(u32, ResolveFName<'a>)>, Error>)
    requires
        can_extract(*ctx),
        chunk < CHUNKS,
        from <= PER_CHUNK,
        slots@.len() == CHUNK_BYTES,
    ensures
        lookup matches Ok(Some((slot, lookup))) ==> {
            &&& from <= slot < PER_CHUNK
            &&& lookup.wf()
            &&& lookup.budget() <= name_budget()
        },
        forall|mem: Memory| #[trigger]
            slots_from(
                mem,
                *ctx,
                slots@,
                chunk as int,
                from as int,
                names_model(old(names)@),
            ) == match lookup {
                Ok(Some((slot, lookup))) => match kept(
                    names_model(final(names)@),
                    slot_index(chunk as int, slot as int),
                    lookup.outcome(mem),
                ) {
                    Ok(names) => slots_from(
                        mem,
                        *ctx,
                        slots@,
                        chunk as int,
                        slot + 1,
                        names,
                    ),
                    Err(error) => Err(error),
                },
                Ok(None) => Ok(names_model(final(names)@)),
                Err(error) => Err(error),
            },
{
    let ghost given = names_model(names@);
    let mut slot: u32 = from;
    while slot < PER_CHUNK
        invariant
            can_extract(*ctx),
            chunk < CHUNKS,
            from <= slot <= PER_CHUNK,
            slots@.len() == CHUNK_BYTES,
            given == names_model(old(names)@),
            forall|mem: Memory| #[trigger]
                slots_from(mem, *ctx, slots@, chunk as int, from as int, given) == slots_from(
                    mem,
                    *ctx,
                    slots@,
                    chunk as int,
                    slot as int,
                    names_model(names@),
                ),
        decreases PER_CHUNK - slot,
    {
        match pass_slot(ctx, names, chunk, slots, slot) {
            Ok(Some(lookup)) => {
                return Ok(Some((slot, lookup)));
            },
            Ok(None) => {},
            Err(error) => {
                return Err(error);
            },
        }
        slot += 1;
    }
    Ok(None)
}

/// Goes on at a slot of a chunk.
fn at_slot<'a>(
    ctx: &'a Ctx,
    names: BTreeMap<u32, String>,
    table: u64,
    chunk: u32,
    slots: Vec<u8>,
    slot: u32,
) -> (progress: Extraction<'a>)
    requires
        can_extract(*ctx),
        chunk < CHUNKS,
        slot <= PER_CHUNK,
        slots@.len() == CHUNK_BYTES,
    ensures
        goes_on(progress, chunk_reads(CHUNKS - chunk - 1) + slot_reads(PER_CHUNK - slot)),
        forall|mem: Memory| #[trigger]
            ends_with(progress, mem) == slots_and_chunks_from(
                mem,
                *ctx,
                table,
                slots@,
                chunk as int,
                slot as int,
                names_model(names@),
            ),
{
    let mut names = names;
    match pass_slots(ctx, &mut names, chunk, &slots, slot) {
        Ok(Some((slot, lookup))) => Progress::Waiting(
            ExtractFNames {
                ctx,
                names,
                stage: PoolStage::Name { table, chunk, slots, slot, lookup },
            },
        ),
        Ok(None) => at_chunk(ctx, names, table, chunk + 1),
        Err(error) => Progress::Done(Err(error)),
    }
}

/// Goes on at a block.
fn at_block<'a>(
    ctx: &'a Ctx,
    names: BTreeMap<u32, String>,
    current_block: u32,
    byte_cursor: u32,
    block: u64,
) -> (progress: Extraction<'a>)
    requires
        can_extract(*ctx),
        !ctx.is_legacy(),
        block <= current_block + 1,
    ensures
        goes_on(progress, 2 * (current_block + 1 - block)),
        forall|mem: Memory| #[trigger]
            ends_with(progress, mem) == blocks_from(
                mem,
                *ctx,
                current_block,
                byte_cursor,
                block as int,
                names_model(names@),
            ),
{
    if block > current_block as u64 {
        return Progress::Done(Ok(names));
    }
    let blocks = match advance(
        ctx.fnamepool,
        ctx.struct_member("FNameEntryAllocator", "Blocks") as u64,
    ) {
        Ok(blocks) => blocks,
        Err(error) => {
            return Progress::Done(Err(error));
        },
    };
    match advance(blocks, 8 * block) {
        Ok(place) => Progress::Waiting(
            ExtractFNames {
                ctx,
                names,
                stage: PoolStage::Block { current_block, byte_cursor, block: block as u32, place },
            },
        ),
        Err(error) => Progress::Done(Err(error)),
    }
}

/// The step from the table of chunks to the first chunk.
fn after_table<'a>(
    ctx: &'a Ctx,
    names: BTreeMap<u32, String>,
    reply: Option<Vec<u8>>,
) -> (next: Extraction<'a>)
    requires
        (ExtractFNames { ctx, names, stage: PoolStage::Table }).is_wf(),
        fits(reply, (ExtractFNames { ctx, names, stage: PoolStage::Table }).awaits()),
    ensures
        follows(
            next,
            (ExtractFNames { ctx, names, stage: PoolStage::Table }),
            reply_view(reply),
        ),
{
    match reply {
        Some(bytes) => at_chunk(ctx, names, read_le_u64(&bytes, 0), 0),
        None => Progress::Done(Err(Error::ReadFailed)),
    }
}

/// The step from the pointer to a chunk to its slots.
fn after_chunk<'a>(
    ctx: &'a Ctx,
    names: BTreeMap<u32, String>,
    table: u64,
    chunk: u32,
    place: u64,
    reply: Option<Vec<u8>>,
) -> (next: Extraction<'a>)
    requires
        (ExtractFNames { ctx, names, stage: PoolStage::Chunk { table, chunk, place } }).is_wf(),
        fits(reply, (ExtractFNames { ctx, names, stage: PoolStage::Chunk { table, chunk, place } }).awaits()),
    ensures
        follows(
            next,
            (ExtractFNames { ctx, names, stage: PoolStage::Chunk { table, chunk, place } }),
            reply_view(reply),
        ),
{
    let bytes = match reply {
        Some(bytes) => bytes,
        None => {
            return Progress::Done(Err(Error::ReadFailed));
        },
    };
    let pointer: u64 = read_le_u64(&bytes, 0);
    if pointer == 0 {
        Progress::Done(Ok(names))
    } else {
        Progress::Waiting(
            ExtractFNames { ctx, names, stage: PoolStage::Slots { table, chunk, pointer } },
        )
    }
}

/// The step from the slots of a chunk to its names.
fn after_slots<'a>(
    ctx: &'a Ctx,
    names: BTreeMap<u32, String>,
    table: u64,
    chunk: u32,
    pointer: u64,
    reply: Option<Vec<u8>>,
) -> (next: Extraction<'a>)
    requires
        (ExtractFNames { ctx, names, stage: PoolStage::Slots { table, chunk, pointer } }).is_wf(),
        fits(reply, (ExtractFNames { ctx, names, stage: PoolStage::Slots { table, chunk, pointer } }).awaits()),
    ensures
        follows(
            next,
            (ExtractFNames { ctx, names, stage: PoolStage::Slots { table, chunk, pointer } }),
            reply_view(reply),
        ),
{
    match reply {
        Some(slots) => at_slot(ctx, names, table, chunk, slots, 0),
        None => Progress::Done(Ok(names)),
    }
}

/// A step of the lookup of a name.
fn after_name<'a>(
    ctx: &'a Ctx,
    names: BTreeMap<u32, String>,
    table: u64,
    chunk: u32,
    slots: Vec<u8>,
    slot: u32,
    lookup: ResolveFName<'a>,
    reply: Option<Vec<u8>>,
) -> (next: Extraction<'a>)
    requires
        (ExtractFNames { ctx, names, stage: PoolStage::Name { table, chunk, slots, slot, lookup } }).is_wf(),
        fits(reply, (ExtractFNames { ctx, names, stage: PoolStage::Name { table, chunk, slots, slot, lookup } }).awaits()),
    ensures
        follows(
            next,
            (ExtractFNames { ctx, names, stage: PoolStage::Name { table, chunk, slots, slot, lookup } }),
            reply_view(reply),
        ),
{
    match lookup.resume(reply) {
        Progress::Waiting(lookup) => Progress::Waiting(
            ExtractFNames {
                ctx,
                names,
                stage: PoolStage::Name { table, chunk, slots, slot, lookup },
            },
        ),
        Progress::Done(name) => {
            let mut names = names;
            match keep(&mut names, chunk * PER_CHUNK + slot, name) {
                Ok(_) => at_slot(ctx, names, table, chunk, slots, slot + 1),
                Err(error) => Progress::Done(Err(error)),
            }
        },
    }
}

/// The step from the number of the block that is being filled to how far it is.
fn after_current_block<'a>(
    ctx: &'a Ctx,
    names: BTreeMap<u32, String>,
    place: u64,
    reply: Option<Vec<u8>>,
) -> (next: Extraction<'a>)
    requires
        (ExtractFNames { ctx, names, stage: PoolStage::CurrentBlock { place } }).is_wf(),
        fits(reply, (ExtractFNames { ctx, names, stage: PoolStage::CurrentBlock { place } }).awaits()),
    ensures
        follows(
            next,
            (ExtractFNames { ctx, names, stage: PoolStage::CurrentBlock { place } }),
            reply_view(reply),
        ),
{
    let bytes = match reply {
        Some(bytes) => bytes,
        None => {
            return Progress::Done(Err(Error::ReadFailed));
        },
    };
    let current_block: u32 = read_le_u32(&bytes, 0);
    match advance(
        ctx.fnamepool,
        ctx.struct_member("FNameEntryAllocator", "CurrentByteCursor") as u64,
    ) {
        Ok(place) => Progress::Waiting(
            ExtractFNames { ctx, names, stage: PoolStage::ByteCursor { place, current_block } },
        ),
        Err(error) => Progress::Done(Err(error)),
    }
}

/// The step to the first block.
fn after_byte_cursor<'a>(
    ctx: &'a Ctx,
    names: BTreeMap<u32, String>,
    place: u64,
    current_block: u32,
    reply: Option<Vec<u8>>,
) -> (next: Extraction<'a>)
    requires
        (ExtractFNames { ctx, names, stage: PoolStage::ByteCursor { place, current_block } }).is_wf(),
        fits(reply, (ExtractFNames { ctx, names, stage: PoolStage::ByteCursor { place, current_block } }).awaits()),
    ensures
        follows(
            next,
            (ExtractFNames { ctx, names, stage: PoolStage::ByteCursor { place, current_block } }),
            reply_view(reply),
        ),
{
    match reply {
        Some(bytes) => at_block(ctx, names, current_block, read_le_u32(&bytes, 0), 0),
        None => Progress::Done(Err(Error::ReadFailed)),
    }
}

/// The step from the pointer to a block to its bytes, or past a block without any.
fn after_block<'a>(
    ctx: &'a Ctx,
    names: BTreeMap<u32, String>,
    current_block: u32,
    byte_cursor: u32,
    block: u32,
    place: u64,
    reply: Option<Vec<u8>>,
) -> (next: Extraction<'a>)
    requires
        (ExtractFNames { ctx, names, stage: PoolStage::Block { current_block, byte_cursor, block, place } }).is_wf(),
        fits(reply, (ExtractFNames { ctx, names, stage: PoolStage::Block { current_block, byte_cursor, block, place } }).awaits()),
    ensures
        follows(
            next,
            (ExtractFNames { ctx, names, stage: PoolStage::Block { current_block, byte_cursor, block, place } }),
            reply_view(reply),
        ),
{
    let bytes = match reply {
        Some(bytes) => bytes,
        None => {
            return Progress::Done(Err(Error::ReadFailed));
        },
    };
    let pointer: u64 = read_le_u64(&bytes, 0);
    let len: u64 = if block == current_block {
        byte_cursor as u64
    } else if ctx.case_preserving {
        4 * PER_BLOCK
    } else {
        2 * PER_BLOCK
    };
    if pointer == 0 || len == 0 {
        return at_block(ctx, names, current_block, byte_cursor, block as u64 + 1);
    }
    Progress::Waiting(
        ExtractFNames {
            ctx,
            names,
            stage: PoolStage::Entries { current_block, byte_cursor, block, pointer, len },
        },
    )
}

/// The step over a block.
fn after_entries<'a>(
    ctx: &'a Ctx,
    names: BTreeMap<u32, String>,
    current_block: u32,
    byte_cursor: u32,
    block: u32,
    pointer: u64,
    len: u64,
    reply: Option<Vec<u8>>,
) -> (next: Extraction<'a>)
    requires
        (ExtractFNames { ctx, names, stage: PoolStage::Entries { current_block, byte_cursor, block, pointer, len } }).is_wf(),
        fits(reply, (ExtractFNames { ctx, names, stage: PoolStage::Entries { current_block, byte_cursor, block, pointer, len } }).awaits()),
    ensures
        follows(
            next,
            (ExtractFNames { ctx, names, stage: PoolStage::Entries { current_block, byte_cursor, block, pointer, len } }),
            reply_view(reply),
        ),
{
    let mut names = names;
    match reply {
        Some(bytes) => {
            parse_block(&bytes, block, ctx.case_preserving, &mut names);
        },
        None => {},
    }
    at_block(ctx, names, current_block, byte_cursor, block as u64 + 1)
}

/// Reads all names of the pool, each under its index.
pub fn extract_fnames<'a>(ctx: &'a Ctx) -> (progress: Extraction<'a>)
    requires
        can_extract(*ctx),
    ensures
        ready(progress),
        forall|mem: Memory| #[trigger] delivers(progress, mem) == names_of(mem, *ctx),
{
    let names: BTreeMap<u32, String> = BTreeMap::new();
    assert(names_model(names@) =~= Map::<u32, Seq<char>>::empty());
    if ctx.legacy() {
        return Progress::Waiting(ExtractFNames { ctx, names, stage: PoolStage::Table });
    }
    match advance(
        ctx.fnamepool,
        ctx.struct_member("FNameEntryAllocator", "CurrentBlock") as u64,
    ) {
        Ok(place) => Progress::Waiting(
            ExtractFNames { ctx, names, stage: PoolStage::CurrentBlock { place } },
        ),
        Err(error) => Progress::Done(Err(error)),
    }
}

} // verus!
