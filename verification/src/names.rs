//! Names: an index into the name pool and a number.
use vstd::prelude::*;
use vstd::string::StringExecFns;
use crate::bytes::{le_u32, read_le_u16, read_le_u32, read_le_u64};
use crate::mem::{
    address_after, advance, read_bytes, read_pointer, read_u16, read_u32, Ctx, Error, Ptr,
};
use crate::task::{delivers, ready, Memory, Progress, Request, Task};
use crate::text::{
    append_decimal, decimal, decimal_is_injective, decode_narrow, decode_text, decode_wide, text_at,
    text_model, text_size, utf16_text, utf8_text,
};

verus! {

/// How many names a chunk of the pool holds before 4.22.
pub const PER_CHUNK: u32 = 0x4000;

/// How far the text of an entry lies behind its start before 4.22.
pub const LEGACY_TEXT: u64 = 0x10;

/// The name that a base name and a number make up: number `n` stands for the suffix `_(n - 1)`,
/// and zero for none.
pub open spec fn numbered(base: Result<Seq<char>, Error>, number: u32) -> Result<
    Seq<char>,
    Error,
> {
    match base {
        Ok(base) => if number == 0 {
            Ok(base)
        } else {
            Ok(base + "_"@ + decimal((number - 1) as nat))
        },
        Err(error) => Err(error),
    }
}

/// One base name with two numbers gives two names.
pub proof fn numbers_tell_names_apart(base: Seq<char>, a: u32, b: u32)
    requires
        numbered(Ok(base), a) == numbered(Ok(base), b),
    ensures
        a == b,
{
    reveal_strlit("_");
    let stem = base + "_"@;
    if a != 0 && b != 0 {
        let first = decimal((a - 1) as nat);
        let second = decimal((b - 1) as nat);
        assert((stem + first).skip(stem.len() as int) =~= first);
        assert((stem + second).skip(stem.len() as int) =~= second);
        decimal_is_injective((a - 1) as nat, (b - 1) as nat);
    } else if a != 0 || b != 0 {
        let number = if a != 0 {
            a
        } else {
            b
        };
        assert(base.len() < (stem + decimal((number - 1) as nat)).len());
    }
}

/// The units from `address` on, up to the first that is zero.
pub open spec fn wide_until_nul(mem: Memory, address: int) -> Result<Seq<u16>, Error>
    decreases 0x1_0000_0000_0000_0002 - address,
{
    if address > u64::MAX {
        Err(Error::AddressOverflow)
    } else {
        match read_u16(mem, address as u64) {
            Ok(0) => Ok(Seq::empty()),
            Ok(unit) => match wide_until_nul(mem, address + 2) {
                Ok(rest) => Ok(seq![unit] + rest),
                Err(error) => Err(error),
            },
            Err(error) => Err(error),
        }
    }
}

/// The bytes from `address` on, up to the first that is zero.
pub open spec fn narrow_until_nul(mem: Memory, address: int) -> Result<Seq<u8>, Error>
    decreases 0x1_0000_0000_0000_0002 - address,
{
    if address > u64::MAX {
        Err(Error::AddressOverflow)
    } else {
        match read_bytes(mem, address as u64, 1) {
            Ok(bytes) => if bytes[0] == 0 {
                Ok(Seq::empty())
            } else {
                match narrow_until_nul(mem, address + 1) {
                    Ok(rest) => Ok(seq![bytes[0]] + rest),
                    Err(error) => Err(error),
                }
            },
            Err(error) => Err(error),
        }
    }
}

/// The text that ends at the first zero unit behind `address`, with the units of `seen` in front.
pub open spec fn wide_text_after(mem: Memory, address: int, seen: Seq<u16>) -> Result<
    Seq<char>,
    Error,
> {
    match wide_until_nul(mem, address) {
        Ok(rest) => utf16_text(seen + rest),
        Err(error) => Err(error),
    }
}

/// The text that ends at the first zero byte behind `address`, with the bytes of `seen` in front.
pub open spec fn narrow_text_after(mem: Memory, address: int, seen: Seq<u8>) -> Result<
    Seq<char>,
    Error,
> {
    match narrow_until_nul(mem, address) {
        Ok(rest) => utf8_text(seen + rest),
        Err(error) => Err(error),
    }
}

/// The name in an entry before 4.22: the lowest bit of the entry's index tells wide text from
/// narrow.
pub open spec fn legacy_entry_name(mem: Memory, entry: u64) -> Result<Seq<char>, Error> {
    match read_u32(mem, entry) {
        Ok(index) => match address_after(entry, LEGACY_TEXT as nat) {
            Ok(text) => if index % 2 == 1 {
                wide_text_after(mem, text as int, Seq::empty())
            } else {
                narrow_text_after(mem, text as int, Seq::empty())
            },
            Err(error) => Err(error),
        },
        Err(error) => Err(error),
    }
}

/// The name in the entry that the pointer at `slot` leads to.
pub open spec fn legacy_slot_name(mem: Memory, slot: u64) -> Result<Seq<char>, Error> {
    match read_pointer(mem, slot) {
        Ok(entry) => legacy_entry_name(mem, entry),
        Err(error) => Err(error),
    }
}

/// The name with an index, in the chunk that the pointer at `slot` leads to.
pub open spec fn legacy_chunk_name(mem: Memory, slot: u64, comparison_index: u32) -> Result<
    Seq<char>,
    Error,
> {
    match read_pointer(mem, slot) {
        Ok(chunk) => match address_after(chunk, 8 * (comparison_index % PER_CHUNK) as nat) {
            Ok(entry) => legacy_slot_name(mem, entry),
            Err(error) => Err(error),
        },
        Err(error) => Err(error),
    }
}

/// The name with an index, in the table of chunks that the pointer at `pool` leads to.
pub open spec fn legacy_base_name(mem: Memory, pool: u64, comparison_index: u32) -> Result<
    Seq<char>,
    Error,
> {
    match read_pointer(mem, pool) {
        Ok(chunks) => match address_after(chunks, 8 * (comparison_index / PER_CHUNK) as nat) {
            Ok(slot) => legacy_chunk_name(mem, slot, comparison_index),
            Err(error) => Err(error),
        },
        Err(error) => Err(error),
    }
}

/// How many units the name behind a header has.
pub open spec fn header_len(header: u16, case_preserving: bool) -> nat {
    if case_preserving {
        (header / 2) as nat
    } else {
        (header / 64) as nat
    }
}

/// Whether the name behind a header is in UTF-16.
pub open spec fn header_wide(header: u16) -> bool {
    header % 2 == 1
}

/// How far the header of a name lies behind the start of its block.
pub open spec fn header_distance(comparison_index: u32, case_preserving: bool) -> nat {
    if case_preserving {
        ((comparison_index % 0x1_0000) * 4 + 4) as nat
    } else {
        ((comparison_index % 0x1_0000) * 2) as nat
    }
}

/// The text of `len` units at an address.
pub open spec fn pooled_text(mem: Memory, address: u64, len: nat, wide: bool) -> Result<
    Seq<char>,
    Error,
> {
    match read_bytes(mem, address, text_size(len, wide) as u64) {
        Ok(bytes) => text_at(bytes, 0, len, wide),
        Err(error) => Err(error),
    }
}

/// The name whose header lies at `header`.
pub open spec fn pooled_entry_name(mem: Memory, header: u64, case_preserving: bool) -> Result<
    Seq<char>,
    Error,
> {
    match read_u16(mem, header) {
        Ok(bits) => match address_after(header, 2) {
            Ok(text) => pooled_text(
                mem,
                text,
                header_len(bits, case_preserving),
                header_wide(bits),
            ),
            Err(error) => Err(error),
        },
        Err(error) => Err(error),
    }
}

/// The name with an index, in the block that the pointer at `slot` leads to.
pub open spec fn pooled_block_name(
    mem: Memory,
    slot: u64,
    comparison_index: u32,
    case_preserving: bool,
) -> Result<Seq<char>, Error> {
    match read_pointer(mem, slot) {
        Ok(block) => match address_after(
            block,
            header_distance(comparison_index, case_preserving),
        ) {
            Ok(header) => pooled_entry_name(mem, header, case_preserving),
            Err(error) => Err(error),
        },
        Err(error) => Err(error),
    }
}

/// The address of the pointer to the block that holds a name.
pub open spec fn block_slot(ctx: Ctx, comparison_index: u32) -> Result<u64, Error> {
    match address_after(ctx.fnamepool, ctx.at("FNameEntryAllocator"@, "Blocks"@) as nat) {
        Ok(blocks) => address_after(blocks, 8 * (comparison_index / 0x1_0000) as nat),
        Err(error) => Err(error),
    }
}

/// The name with an index, without a number.
pub open spec fn base_name(mem: Memory, ctx: Ctx, comparison_index: u32) -> Result<
    Seq<char>,
    Error,
> {
    if ctx.fnamepool == 0 {
        Err(Error::NullPointer)
    } else if ctx.is_legacy() {
        legacy_base_name(mem, ctx.fnamepool, comparison_index)
    } else {
        match block_slot(ctx, comparison_index) {
            Ok(slot) => pooled_block_name(mem, slot, comparison_index, ctx.case_preserving),
            Err(error) => Err(error),
        }
    }
}

/// The name with an index and a number.
pub open spec fn name_of(mem: Memory, ctx: Ctx, comparison_index: u32, number: u32) -> Result<
    Seq<char>,
    Error,
> {
    numbered(base_name(mem, ctx, comparison_index), number)
}

/// Whether the layout has what resolving a name needs.
pub open spec fn can_resolve(ctx: Ctx) -> bool {
    ctx.is_legacy() || ctx.has("FNameEntryAllocator"@, "Blocks"@)
}

/// Adds the suffix of a number to a base name.
fn with_number(base: Result<String, Error>, number: u32) -> (name: Result<String, Error>)
    ensures
        text_model(name) == numbered(text_model(base), number),
{
    match base {
        Ok(base) => {
            let mut name: String = base;
            if number != 0 {
                name.append("_");
                append_decimal(&mut name, number - 1);
            }
            Ok(name)
        },
        Err(error) => Err(error),
    }
}

/// The address that 8 bytes hold, which must not be null.
fn pointer_in(bytes: &Vec<u8>) -> (target: Result<u64, Error>)
    requires
        bytes@.len() == 8,
    ensures
        forall|mem: Memory, address: u64|
            mem(address, 8) == Some(bytes@) ==> target == #[trigger] read_pointer(mem, address),
{
    let target: u64 = read_le_u64(bytes, 0);
    if target == 0 {
        Err(Error::NullPointer)
    } else {
        Ok(target)
    }
}

/// What resolving a name waits for.
pub enum NameStage {
    /// The table of chunks.
    Chunks,
    /// The chunk that the pointer at `slot` leads to.
    Chunk { slot: u64 },
    /// The entry that the pointer at `slot` leads to.
    Entry { slot: u64 },
    /// The index at the start of an entry.
    Index { entry: u64 },
    /// A unit of wide text.
    Wide { at: u64, units: Vec<u16> },
    /// A byte of narrow text.
    Narrow { at: u64, bytes: Vec<u8> },
    /// The block that the pointer at `slot` leads to.
    Block { slot: u64 },
    /// The header of a name.
    Header { at: u64 },
    /// The text of a name.
    Text { at: u64, len: usize, wide: bool },
}

/// The lookup of a name.
pub struct ResolveFName<'a> {
    /// What is known of the target.
    pub ctx: &'a Ctx,
    /// The index of the name.
    pub comparison_index: u32,
    /// Its number.
    pub number: u32,
    /// What it waits for.
    pub stage: NameStage,
}

/// A bound on the number of reads of any lookup.
pub open spec fn name_budget() -> nat {
    0x1_0000_0000_0000_0004
}

/// The base name that a lookup ends with from a stage on.
pub open spec fn stage_name(stage: NameStage, ctx: Ctx, comparison_index: u32, mem: Memory) -> Result<
    Seq<char>,
    Error,
> {
    match stage {
        NameStage::Chunks => legacy_base_name(mem, ctx.fnamepool, comparison_index),
        NameStage::Chunk { slot } => legacy_chunk_name(mem, slot, comparison_index),
        NameStage::Entry { slot } => legacy_slot_name(mem, slot),
        NameStage::Index { entry } => legacy_entry_name(mem, entry),
        NameStage::Wide { at, units } => wide_text_after(mem, at as int, units@),
        NameStage::Narrow { at, bytes } => narrow_text_after(mem, at as int, bytes@),
        NameStage::Block { slot } => pooled_block_name(
            mem,
            slot,
            comparison_index,
            ctx.case_preserving,
        ),
        NameStage::Header { at } => pooled_entry_name(mem, at, ctx.case_preserving),
        NameStage::Text { at, len, wide } => pooled_text(mem, at, len as nat, wide),
    }
}

/// The read that a stage waits for.
pub open spec fn stage_asks(stage: NameStage, ctx: Ctx) -> Request {
    match stage {
        NameStage::Chunks => Request { address: ctx.fnamepool, len: 8 },
        NameStage::Chunk { slot } => Request { address: slot, len: 8 },
        NameStage::Entry { slot } => Request { address: slot, len: 8 },
        NameStage::Index { entry } => Request { address: entry, len: 4 },
        NameStage::Wide { at, .. } => Request { address: at, len: 2 },
        NameStage::Narrow { at, .. } => Request { address: at, len: 1 },
        NameStage::Block { slot } => Request { address: slot, len: 8 },
        NameStage::Header { at } => Request { address: at, len: 2 },
        NameStage::Text { at, len, wide } => Request {
            address: at,
            len: text_size(len as nat, wide) as u64,
        },
    }
}

/// A bound on the number of reads from a stage on.
pub open spec fn stage_budget(stage: NameStage) -> nat {
    match stage {
        NameStage::Chunks => name_budget(),
        NameStage::Chunk { .. } => 0x1_0000_0000_0000_0003,
        NameStage::Entry { .. } => 0x1_0000_0000_0000_0002,
        NameStage::Index { .. } => 0x1_0000_0000_0000_0001,
        NameStage::Wide { at, .. } => (0x1_0000_0000_0000_0000 - at) as nat,
        NameStage::Narrow { at, .. } => (0x1_0000_0000_0000_0000 - at) as nat,
        NameStage::Block { .. } => 3,
        NameStage::Header { .. } => 2,
        NameStage::Text { .. } => 1,
    }
}

/// The invariant of a stage: a length that a header can hold.
pub open spec fn stage_wf(stage: NameStage) -> bool {
    stage matches NameStage::Text { len, .. } ==> len <= 0x7fff
}

/// What a reply leads to.
enum Found {
    /// The next stage.
    Stage(NameStage),
    /// The base name.
    Name(Result<String, Error>),
}

impl Found {
    /// Whether the step from `stage` on a reply keeps the base name and comes closer to the end.
    spec fn follows(self, stage: NameStage, ctx: Ctx, comparison_index: u32, reply: Seq<u8>) -> bool {
        &&& self matches Found::Stage(next) ==> stage_wf(next) && stage_budget(next)
            < stage_budget(stage)
        &&& forall|mem: Memory|
            mem(stage_asks(stage, ctx).address, stage_asks(stage, ctx).len) == Some(reply)
                ==> #[trigger] stage_name(stage, ctx, comparison_index, mem) == match self {
                Found::Stage(next) => stage_name(next, ctx, comparison_index, mem),
                Found::Name(name) => text_model(name),
            }
    }
}

/// The step from the table of chunks to a chunk.
fn after_chunks(ctx: &Ctx, comparison_index: u32, reply: &Vec<u8>) -> (found: Found)
    requires
        reply@.len() == 8,
    ensures
        found.follows(NameStage::Chunks, *ctx, comparison_index, reply@),
{
    match pointer_in(reply) {
        Ok(chunks) => match advance(chunks, 8 * (comparison_index / PER_CHUNK) as u64) {
            Ok(slot) => Found::Stage(NameStage::Chunk { slot }),
            Err(error) => Found::Name(Err(error)),
        },
        Err(error) => Found::Name(Err(error)),
    }
}

/// The step from a chunk to an entry's slot.
fn after_chunk(ctx: &Ctx, comparison_index: u32, slot: u64, reply: &Vec<u8>) -> (found: Found)
    requires
        reply@.len() == 8,
    ensures
        found.follows(NameStage::Chunk { slot }, *ctx, comparison_index, reply@),
{
    match pointer_in(reply) {
        Ok(chunk) => match advance(chunk, 8 * (comparison_index % PER_CHUNK) as u64) {
            Ok(slot) => Found::Stage(NameStage::Entry { slot }),
            Err(error) => Found::Name(Err(error)),
        },
        Err(error) => Found::Name(Err(error)),
    }
}

/// The step from an entry's slot to the entry.
fn after_slot(ctx: &Ctx, comparison_index: u32, slot: u64, reply: &Vec<u8>) -> (found: Found)
    requires
        reply@.len() == 8,
    ensures
        found.follows(NameStage::Entry { slot }, *ctx, comparison_index, reply@),
{
    match pointer_in(reply) {
        Ok(entry) => Found::Stage(NameStage::Index { entry }),
        Err(error) => Found::Name(Err(error)),
    }
}

/// The step from an entry's index to its text.
fn after_index(ctx: &Ctx, comparison_index: u32, entry: u64, reply: &Vec<u8>) -> (found: Found)
    requires
        reply@.len() == 4,
    ensures
        found.follows(NameStage::Index { entry }, *ctx, comparison_index, reply@),
{
    let index: u32 = read_le_u32(reply, 0);
    match advance(entry, LEGACY_TEXT) {
        Ok(at) => if index % 2 == 1 {
            Found::Stage(NameStage::Wide { at, units: Vec::new() })
        } else {
            Found::Stage(NameStage::Narrow { at, bytes: Vec::new() })
        },
        Err(error) => Found::Name(Err(error)),
    }
}

/// A unit that is not zero can be taken off the memory and put behind those already seen.
proof fn lemma_wide_step(mem: Memory, at: u64, seen: Seq<u16>, unit: u16)
    requires
        read_u16(mem, at) == Ok::<u16, Error>(unit),
        unit != 0,
    ensures
        wide_text_after(mem, at as int, seen) == wide_text_after(mem, at + 2, seen.push(unit)),
        at + 2 > u64::MAX ==> wide_text_after(mem, at as int, seen) == Err::<Seq<char>, Error>(
            Error::AddressOverflow,
        ),
{
    if let Ok(rest) = wide_until_nul(mem, at + 2) {
        assert(seen + (seq![unit] + rest) =~= seen.push(unit) + rest);
    }
}

/// A byte that is not zero can be taken off the memory and put behind those already seen.
proof fn lemma_narrow_step(mem: Memory, at: u64, seen: Seq<u8>, byte: u8)
    requires
        mem(at, 1) matches Some(bytes) && bytes[0] == byte,
        byte != 0,
    ensures
        narrow_text_after(mem, at as int, seen) == narrow_text_after(
            mem,
            at + 1,
            seen.push(byte),
        ),
        at + 1 > u64::MAX ==> narrow_text_after(mem, at as int, seen) == Err::<Seq<char>, Error>(
            Error::AddressOverflow,
        ),
{
    if let Ok(rest) = narrow_until_nul(mem, at + 1) {
        assert(seen + (seq![byte] + rest) =~= seen.push(byte) + rest);
    }
}

/// The step over a unit of wide text.
fn after_unit(ctx: &Ctx, comparison_index: u32, at: u64, units: Vec<u16>, reply: &Vec<u8>) -> (found:
    Found)
    requires
        reply@.len() == 2,
    ensures
        found.follows(NameStage::Wide { at, units }, *ctx, comparison_index, reply@),
{
    let unit: u16 = read_le_u16(reply, 0);
    if unit == 0 {
        assert(units@ + Seq::<u16>::empty() =~= units@);
        return Found::Name(decode_wide(&units));
    }
    let mut longer = units;
    longer.push(unit);
    let found = match advance(at, 2) {
        Ok(next) => Found::Stage(NameStage::Wide { at: next, units: longer }),
        Err(error) => Found::Name(Err(error)),
    };
    assert forall|mem: Memory| mem(at, 2) == Some(reply@) implies #[trigger] stage_name(
        NameStage::Wide { at, units },
        *ctx,
        comparison_index,
        mem,
    ) == match found {
        Found::Stage(next) => stage_name(next, *ctx, comparison_index, mem),
        Found::Name(name) => text_model(name),
    } by {
        lemma_wide_step(mem, at, units@, unit);
    }
    found
}

/// The step over a byte of narrow text.
fn after_byte(ctx: &Ctx, comparison_index: u32, at: u64, bytes: Vec<u8>, reply: &Vec<u8>) -> (found:
    Found)
    requires
        reply@.len() == 1,
    ensures
        found.follows(NameStage::Narrow { at, bytes }, *ctx, comparison_index, reply@),
{
    let byte: u8 = reply[0];
    if byte == 0 {
        assert(bytes@ + Seq::<u8>::empty() =~= bytes@);
        return Found::Name(decode_narrow(bytes));
    }
    let mut longer = bytes;
    longer.push(byte);
    let found = match advance(at, 1) {
        Ok(next) => Found::Stage(NameStage::Narrow { at: next, bytes: longer }),
        Err(error) => Found::Name(Err(error)),
    };
    assert forall|mem: Memory| mem(at, 1) == Some(reply@) implies #[trigger] stage_name(
        NameStage::Narrow { at, bytes },
        *ctx,
        comparison_index,
        mem,
    ) == match found {
        Found::Stage(next) => stage_name(next, *ctx, comparison_index, mem),
        Found::Name(name) => text_model(name),
    } by {
        lemma_narrow_step(mem, at, bytes@, byte);
    }
    found
}

/// The step from a block to a header.
fn after_block(ctx: &Ctx, comparison_index: u32, slot: u64, reply: &Vec<u8>) -> (found: Found)
    requires
        reply@.len() == 8,
    ensures
        found.follows(NameStage::Block { slot }, *ctx, comparison_index, reply@),
{
    let distance: u64 = if ctx.case_preserving {
        (comparison_index % 0x1_0000) as u64 * 4 + 4
    } else {
        (comparison_index % 0x1_0000) as u64 * 2
    };
    match pointer_in(reply) {
        Ok(block) => match advance(block, distance) {
            Ok(at) => Found::Stage(NameStage::Header { at }),
            Err(error) => Found::Name(Err(error)),
        },
        Err(error) => Found::Name(Err(error)),
    }
}

/// The step from a header to the text behind it.
fn after_header(ctx: &Ctx, comparison_index: u32, at: u64, reply: &Vec<u8>) -> (found: Found)
    requires
        reply@.len() == 2,
    ensures
        found.follows(NameStage::Header { at }, *ctx, comparison_index, reply@),
{
    let header: u16 = read_le_u16(reply, 0);
    let len: u16 = if ctx.case_preserving {
        header / 2
    } else {
        header / 64
    };
    match advance(at, 2) {
        Ok(text) => Found::Stage(
            NameStage::Text { at: text, len: len as usize, wide: header % 2 == 1 },
        ),
        Err(error) => Found::Name(Err(error)),
    }
}

impl<'a> Task for ResolveFName<'a> {
    type Output = Result<String, Error>;

    type Model = Result<Seq<char>, Error>;

    open spec fn wf(&self) -> bool {
        stage_wf(self.stage)
    }

    open spec fn asks(&self) -> Request {
        stage_asks(self.stage, *self.ctx)
    }

    open spec fn model(output: Result<String, Error>) -> Result<Seq<char>, Error> {
        text_model(output)
    }

    open spec fn outcome(&self, mem: Memory) -> Result<Seq<char>, Error> {
        numbered(
            stage_name(self.stage, *self.ctx, self.comparison_index, mem),
            self.number,
        )
    }

    open spec fn budget(&self) -> nat {
        stage_budget(self.stage)
    }

    fn request(&self) -> (request: Request) {
        match &self.stage {
            NameStage::Chunks => Request { address: self.ctx.fnamepool, len: 8 },
            NameStage::Chunk { slot } => Request { address: *slot, len: 8 },
            NameStage::Entry { slot } => Request { address: *slot, len: 8 },
            NameStage::Index { entry } => Request { address: *entry, len: 4 },
            NameStage::Wide { at, .. } => Request { address: *at, len: 2 },
            NameStage::Narrow { at, .. } => Request { address: *at, len: 1 },
            NameStage::Block { slot } => Request { address: *slot, len: 8 },
            NameStage::Header { at } => Request { address: *at, len: 2 },
            NameStage::Text { at, len, wide } => Request {
                address: *at,
                len: if *wide {
                    2 * *len as u64
                } else {
                    *len as u64
                },
            },
        }
    }

    fn resume(self, reply: Option<Vec<u8>>) -> (next: Progress<Self, Result<String, Error>>) {
        let bytes = match reply {
            Some(bytes) => bytes,
            None => {
                return Progress::Done(Err(Error::ReadFailed));
            },
        };
        let ResolveFName { ctx, comparison_index, number, stage } = self;
        let found = match stage {
            NameStage::Chunks => after_chunks(ctx, comparison_index, &bytes),
            NameStage::Chunk { slot } => after_chunk(ctx, comparison_index, slot, &bytes),
            NameStage::Entry { slot } => after_slot(ctx, comparison_index, slot, &bytes),
            NameStage::Index { entry } => after_index(ctx, comparison_index, entry, &bytes),
            NameStage::Wide { at, units } => after_unit(ctx, comparison_index, at, units, &bytes),
            NameStage::Narrow { at, bytes: narrow } => after_byte(
                ctx,
                comparison_index,
                at,
                narrow,
                &bytes,
            ),
            NameStage::Block { slot } => after_block(ctx, comparison_index, slot, &bytes),
            NameStage::Header { at } => after_header(ctx, comparison_index, at, &bytes),
            NameStage::Text { len, wide, .. } => Found::Name(decode_text(&bytes, 0, len, wide)),
        };
        assert(found.follows(stage, *ctx, comparison_index, bytes@));
        match found {
            Found::Stage(stage) => Progress::Waiting(
                ResolveFName { ctx, comparison_index, number, stage },
            ),
            Found::Name(base) => Progress::Done(with_number(base, number)),
        }
    }
}

/// Looks up the name with an index and a number.
pub fn resolve_fname<'a>(ctx: &'a Ctx, comparison_index: u32, number: u32) -> (progress: Progress<
    ResolveFName<'a>,
    Result<String, Error>,
>)
    requires
        can_resolve(*ctx),
    ensures
        ready(progress),
        progress matches Progress::Waiting(waiting) ==> waiting.budget() <= name_budget(),
        forall|mem: Memory| #[trigger]
            delivers(progress, mem) == name_of(mem, *ctx, comparison_index, number),
{
    if ctx.fnamepool == 0 {
        return Progress::Done(Err(Error::NullPointer));
    }
    if ctx.legacy() {
        return Progress::Waiting(
            ResolveFName { ctx, comparison_index, number, stage: NameStage::Chunks },
        );
    }
    let blocks = match advance(
        ctx.fnamepool,
        ctx.struct_member("FNameEntryAllocator", "Blocks") as u64,
    ) {
        Ok(blocks) => blocks,
        Err(error) => {
            return Progress::Done(Err(error));
        },
    };
    match advance(blocks, 8 * (comparison_index / 0x1_0000) as u64) {
        Ok(slot) => Progress::Waiting(
            ResolveFName { ctx, comparison_index, number, stage: NameStage::Block { slot } },
        ),
        Err(error) => Progress::Done(Err(error)),
    }
}

/// The index of a name in the pool.
#[derive(Debug, Clone, Copy)]
pub struct FNameEntryId {}

impl<'a> Ptr<'a, FNameEntryId> {
    /// The index itself.
    pub fn value(&self) -> (pointer: Ptr<'a, u32>)
        ensures
            pointer == Ptr::<'a, u32>::to(self.address, self.ctx),
    {
        self.byte_offset(0).cast()
    }
}

/// A name: an index into the pool and a number.
#[derive(Debug, Clone, Copy)]
pub struct FName;

/// The name at an address.
pub open spec fn fname_at<'a>(mem: Memory, fname: Ptr<'a, FName>) -> Result<Seq<char>, Error> {
    match read_u32(mem, fname.member("FName"@, "Number"@)) {
        Ok(number) => match read_u32(mem, fname.member("FName"@, "ComparisonIndex"@)) {
            Ok(comparison_index) => name_of(mem, *fname.ctx, comparison_index, number),
            Err(error) => Err(error),
        },
        Err(error) => Err(error),
    }
}

impl<'a> Ptr<'a, FName> {
    /// The index into the pool.
    pub fn comparison_index(&self) -> (pointer: Ptr<'a, FNameEntryId>)
        requires
            self.has_member("FName"@, "ComparisonIndex"@),
        ensures
            pointer == Ptr::<'a, FNameEntryId>::to(
                self.member("FName"@, "ComparisonIndex"@),
                self.ctx,
            ),
    {
        let offset: usize = self.ctx().struct_member("FName", "ComparisonIndex");
        self.byte_offset(offset).cast()
    }

    /// The number.
    pub fn number(&self) -> (pointer: Ptr<'a, u32>)
        requires
            self.has_member("FName"@, "Number"@),
        ensures
            pointer == Ptr::<'a, u32>::to(self.member("FName"@, "Number"@), self.ctx),
    {
        let offset: usize = self.ctx().struct_member("FName", "Number");
        self.byte_offset(offset).cast()
    }

    /// Reads the name.
    pub fn read(&self) -> (progress: Progress<ReadFName<'a>, Result<String, Error>>)
        requires
            self.has_member("FName"@, "ComparisonIndex"@),
            self.has_member("FName"@, "Number"@),
            can_resolve(*self.ctx),
        ensures
            ready(progress),
            forall|mem: Memory| #[trigger] delivers(progress, mem) == fname_at(mem, *self),
    {
        Progress::Waiting(
            ReadFName { fname: *self, stage: FNameStage::Number { from: self.number() } },
        )
    }
}

/// What reading a name waits for.
pub enum FNameStage<'a> {
    /// Its number.
    Number { from: Ptr<'a, u32> },
    /// Its index.
    Index { from: Ptr<'a, u32>, number: u32 },
    /// The name in the pool.
    Name { lookup: ResolveFName<'a> },
}

/// The read of a name.
pub struct ReadFName<'a> {
    /// Where the name lies.
    pub fname: Ptr<'a, FName>,
    /// What it waits for.
    pub stage: FNameStage<'a>,
}

impl<'a> Task for ReadFName<'a> {
    type Output = Result<String, Error>;

    type Model = Result<Seq<char>, Error>;

    open spec fn wf(&self) -> bool {
        match self.stage {
            FNameStage::Number { from } => {
                &&& can_resolve(*self.fname.ctx)
                &&& self.fname.has_member("FName"@, "ComparisonIndex"@)
                &&& from.address == self.fname.member("FName"@, "Number"@)
            },
            FNameStage::Index { from, .. } => {
                &&& can_resolve(*self.fname.ctx)
                &&& from.address == self.fname.member("FName"@, "ComparisonIndex"@)
            },
            FNameStage::Name { lookup } => lookup.wf() && lookup.budget() <= name_budget(),
        }
    }

    open spec fn asks(&self) -> Request {
        match self.stage {
            FNameStage::Number { from } => Request { address: from.address, len: 4 },
            FNameStage::Index { from, .. } => Request { address: from.address, len: 4 },
            FNameStage::Name { lookup } => lookup.asks(),
        }
    }

    open spec fn model(output: Result<String, Error>) -> Result<Seq<char>, Error> {
        text_model(output)
    }

    open spec fn outcome(&self, mem: Memory) -> Result<Seq<char>, Error> {
        match self.stage {
            FNameStage::Number { .. } => fname_at(mem, self.fname),
            FNameStage::Index { from, number } => match read_u32(mem, from.address) {
                Ok(comparison_index) => name_of(mem, *self.fname.ctx, comparison_index, number),
                Err(error) => Err(error),
            },
            FNameStage::Name { lookup } => lookup.outcome(mem),
        }
    }

    open spec fn budget(&self) -> nat {
        match self.stage {
            FNameStage::Number { .. } => name_budget() + 2,
            FNameStage::Index { .. } => name_budget() + 1,
            FNameStage::Name { lookup } => lookup.budget(),
        }
    }

    fn request(&self) -> (request: Request) {
        match &self.stage {
            FNameStage::Number { from } => Request { address: from.address, len: 4 },
            FNameStage::Index { from, .. } => Request { address: from.address, len: 4 },
            FNameStage::Name { lookup } => lookup.request(),
        }
    }

    fn resume(self, reply: Option<Vec<u8>>) -> (next: Progress<Self, Result<String, Error>>) {
        let ReadFName { fname, stage } = self;
        match stage {
            FNameStage::Number { .. } => match reply {
                Some(bytes) => {
                    let number: u32 = read_le_u32(&bytes, 0);
                    let from = fname.comparison_index().value();
                    Progress::Waiting(ReadFName { fname, stage: FNameStage::Index { from, number } })
                },
                None => Progress::Done(Err(Error::ReadFailed)),
            },
            FNameStage::Index { number, .. } => match reply {
                Some(bytes) => {
                    let progress = resolve_fname(fname.ctx, read_le_u32(&bytes, 0), number);
                    assert(forall|mem: Memory| #[trigger]
                        name_of(mem, *fname.ctx, le_u32(bytes@, 0), number) == delivers(
                            progress,
                            mem,
                        ));
                    match progress {
                        Progress::Waiting(lookup) => Progress::Waiting(
                            ReadFName { fname, stage: FNameStage::Name { lookup } },
                        ),
                        Progress::Done(name) => Progress::Done(name),
                    }
                },
                None => Progress::Done(Err(Error::ReadFailed)),
            },
            FNameStage::Name { lookup } => match lookup.resume(reply) {
                Progress::Waiting(lookup) => Progress::Waiting(
                    ReadFName { fname, stage: FNameStage::Name { lookup } },
                ),
                Progress::Done(name) => Progress::Done(name),
            },
        }
    }
}

/// The pool of names, as the engine has it from 4.22 on.
#[derive(Debug, Clone, Copy)]
pub struct FNameEntryAllocator;

impl<'a> Ptr<'a, FNameEntryAllocator> {
    /// The pointers to the blocks.
    pub fn blocks(&self) -> (pointer: Ptr<'a, Ptr<'a, u8>>)
        requires
            self.has_member("FNameEntryAllocator"@, "Blocks"@),
        ensures
            pointer == Ptr::<'a, Ptr<'a, u8>>::to(
                self.member("FNameEntryAllocator"@, "Blocks"@),
                self.ctx,
            ),
    {
        let offset: usize = self.ctx().struct_member("FNameEntryAllocator", "Blocks");
        self.byte_offset(offset).cast()
    }
}

} // verus!
