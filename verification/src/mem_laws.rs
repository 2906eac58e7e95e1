//! What reading values out of memory gives, by the bytes that lie there.
use vstd::prelude::*;

use crate::encoding::{
    le_bytes, signed_differs_by_a_turn, u16_reads_back, u32_reads_back, u64_reads_back,
};
use crate::mem::{
    address_after, read_pointer, read_u16, read_u32, read_u64, value_at, values_at, values_in,
    vec_model, Ctx, Error, Pod, Ptr,
};
use crate::task::Memory;

verus! {

/// Whether a read of as many bytes at `address` gives `bytes`.
pub open spec fn stores(mem: Memory, address: int, bytes: Seq<u8>) -> bool {
    &&& 0 <= address <= 0xffff_ffff_ffff_ffff
    &&& bytes.len() <= 0xffff_ffff_ffff_ffff
    &&& mem(address as u64, bytes.len() as u64) == Some(bytes)
}

/// Whether a read of `len` bytes at `address` is refused.
pub open spec fn refuses(mem: Memory, address: int, len: int) -> bool {
    &&& 0 <= address <= 0xffff_ffff_ffff_ffff
    &&& 0 <= len <= 0xffff_ffff_ffff_ffff
    &&& mem(address as u64, len as u64) is None
}

/// Written integers have as many bytes as were asked for.
pub proof fn le_bytes_len(value: int, count: nat)
    ensures
        le_bytes(value, count).len() == count,
    decreases count,
{
    if count > 0 {
        le_bytes_len(value / 256, (count - 1) as nat);
    }
}

/// Bytes taken from start to end are all of them.
proof fn lemma_whole(bytes: Seq<u8>)
    ensures
        bytes.subrange(0, bytes.len() as int) == bytes,
{
    assert(bytes.subrange(0, bytes.len() as int) =~= bytes);
}

/// A 16-bit integer in memory is read as it was written; a refused read is an error.
pub proof fn u16_is_read(mem: Memory, address: u64, value: u16)
    ensures
        stores(mem, address as int, le_bytes(value as int, 2)) ==> read_u16(mem, address) == Ok::<
            u16,
            Error,
        >(value),
        refuses(mem, address as int, 2) ==> read_u16(mem, address) == Err::<u16, Error>(
            Error::ReadFailed,
        ),
{
    let bytes = le_bytes(value as int, 2);
    le_bytes_len(value as int, 2);
    lemma_whole(bytes);
    u16_reads_back(bytes, 0, value);
}

/// A 32-bit integer in memory is read as it was written; a refused read is an error.
pub proof fn u32_is_read(mem: Memory, address: u64, value: u32)
    ensures
        stores(mem, address as int, le_bytes(value as int, 4)) ==> read_u32(mem, address) == Ok::<
            u32,
            Error,
        >(value),
        refuses(mem, address as int, 4) ==> read_u32(mem, address) == Err::<u32, Error>(
            Error::ReadFailed,
        ),
{
    let bytes = le_bytes(value as int, 4);
    le_bytes_len(value as int, 4);
    lemma_whole(bytes);
    u32_reads_back(bytes, 0, value);
}

/// A 64-bit integer in memory is read as it was written; a refused read is an error. Where it has
/// to be a pointer, zero is an error.
pub proof fn u64_is_read(mem: Memory, address: u64, value: u64)
    ensures
        stores(mem, address as int, le_bytes(value as int, 8)) ==> {
            &&& read_u64(mem, address) == Ok::<u64, Error>(value)
            &&& value != 0 ==> read_pointer(mem, address) == Ok::<u64, Error>(value)
            &&& value == 0 ==> read_pointer(mem, address) == Err::<u64, Error>(Error::NullPointer)
        },
        refuses(mem, address as int, 8) ==> {
            &&& read_u64(mem, address) == Err::<u64, Error>(Error::ReadFailed)
            &&& read_pointer(mem, address) == Err::<u64, Error>(Error::ReadFailed)
        },
{
    let bytes = le_bytes(value as int, 8);
    le_bytes_len(value as int, 8);
    lemma_whole(bytes);
    u64_reads_back(bytes, 0, value);
}

/// A byte in memory is the value that is read there.
pub proof fn u8_value_is_read<'a>(mem: Memory, address: u64, ctx: &'a Ctx, value: u8)
    ensures
        stores(mem, address as int, seq![value]) ==> value_at::<u8>(mem, address, ctx) == Ok::<
            u8,
            Error,
        >(value),
        refuses(mem, address as int, 1) ==> value_at::<u8>(mem, address, ctx) == Err::<u8, Error>(
            Error::ReadFailed,
        ),
{
}

/// A 16-bit value is read as it was written.
pub proof fn u16_value_is_read<'a>(mem: Memory, address: u64, ctx: &'a Ctx, value: u16)
    ensures
        stores(mem, address as int, le_bytes(value as int, 2)) ==> value_at::<u16>(
            mem,
            address,
            ctx,
        ) == Ok::<u16, Error>(value),
        refuses(mem, address as int, 2) ==> value_at::<u16>(mem, address, ctx) == Err::<
            u16,
            Error,
        >(Error::ReadFailed),
{
    u16_is_read(mem, address, value);
    le_bytes_len(value as int, 2);
}

/// A 32-bit value is read as it was written.
pub proof fn u32_value_is_read<'a>(mem: Memory, address: u64, ctx: &'a Ctx, value: u32)
    ensures
        stores(mem, address as int, le_bytes(value as int, 4)) ==> value_at::<u32>(
            mem,
            address,
            ctx,
        ) == Ok::<u32, Error>(value),
        refuses(mem, address as int, 4) ==> value_at::<u32>(mem, address, ctx) == Err::<
            u32,
            Error,
        >(Error::ReadFailed),
{
    u32_is_read(mem, address, value);
    le_bytes_len(value as int, 4);
}

/// A signed 32-bit value is read as it was written: what is negative was written with 2^32 added.
pub proof fn i32_value_is_read<'a>(mem: Memory, address: u64, ctx: &'a Ctx, value: i32)
    ensures
        stores(
            mem,
            address as int,
            le_bytes(
                if value < 0 {
                    value + 0x1_0000_0000
                } else {
                    value as int
                },
                4,
            ),
        ) ==> value_at::<i32>(mem, address, ctx) == Ok::<i32, Error>(value),
        refuses(mem, address as int, 4) ==> value_at::<i32>(mem, address, ctx) == Err::<
            i32,
            Error,
        >(Error::ReadFailed),
{
    let raw = (if value < 0 {
        value + 0x1_0000_0000
    } else {
        value as int
    }) as u32;
    u32_is_read(mem, address, raw);
    le_bytes_len(raw as int, 4);
    signed_differs_by_a_turn(raw);
}

/// A 64-bit value is read as it was written.
pub proof fn u64_value_is_read<'a>(mem: Memory, address: u64, ctx: &'a Ctx, value: u64)
    ensures
        stores(mem, address as int, le_bytes(value as int, 8)) ==> value_at::<u64>(
            mem,
            address,
            ctx,
        ) == Ok::<u64, Error>(value),
        refuses(mem, address as int, 8) ==> value_at::<u64>(mem, address, ctx) == Err::<
            u64,
            Error,
        >(Error::ReadFailed),
{
    u64_is_read(mem, address, value);
    le_bytes_len(value as int, 8);
}

/// A pointer is read as the address that was written. A null one is an error, or none where it
/// may be null.
pub proof fn pointer_value_is_read<'a, T>(mem: Memory, address: u64, ctx: &'a Ctx, target: u64)
    ensures
        stores(mem, address as int, le_bytes(target as int, 8)) ==> {
            let strict = value_at::<Ptr<'a, T>>(mem, address, ctx);
            let lenient = value_at::<Option<Ptr<'a, T>>>(mem, address, ctx);
            &&& target != 0 ==> {
                &&& strict matches Ok(pointer)
                &&& pointer.address == target
                &&& pointer.ctx == ctx
                &&& lenient == Ok::<Option<Ptr<'a, T>>, Error>(Some(pointer))
            }
            &&& target == 0 ==> strict == Err::<Ptr<'a, T>, Error>(Error::NullPointer) && lenient
                == Ok::<Option<Ptr<'a, T>>, Error>(None)
        },
        refuses(mem, address as int, 8) ==> {
            &&& value_at::<Ptr<'a, T>>(mem, address, ctx) == Err::<Ptr<'a, T>, Error>(
                Error::ReadFailed,
            )
            &&& value_at::<Option<Ptr<'a, T>>>(mem, address, ctx) == Err::<
                Option<Ptr<'a, T>>,
                Error,
            >(Error::ReadFailed)
        },
{
    u64_is_read(mem, address, target);
    le_bytes_len(target as int, 8);
}

/// How many bytes each kind of value takes.
pub proof fn values_take_their_bytes<'a, T>()
    ensures
        <u8 as Pod<'a>>::size() == 1,
        <u16 as Pod<'a>>::size() == 2,
        <u32 as Pod<'a>>::size() == 4,
        <i32 as Pod<'a>>::size() == 4,
        <u64 as Pod<'a>>::size() == 8,
        <Ptr<'a, T> as Pod<'a>>::size() == 8,
        <Option<Ptr<'a, T>> as Pod<'a>>::size() == 8,
{
}

/// Whether the value with an index, of those that stand one behind the other in `bytes`, is what
/// a memory with nothing but its bytes holds.
pub open spec fn holds_value<'a, T: Pod<'a>>(
    bytes: Seq<u8>,
    index: int,
    ctx: &'a Ctx,
    value: Result<T, Error>,
) -> bool {
    let size = T::size() as int;
    let own = bytes.subrange(index * size, index * size + size);
    value_at::<T>(|address: u64, len: u64| Some(own), 0, ctx) == value
}

/// Values that stand one behind the other are all read, each as if it stood alone.
pub proof fn all_values_are_read<'a, T: Pod<'a>>(
    mem: Memory,
    address: u64,
    ctx: &'a Ctx,
    bytes: Seq<u8>,
    values: Seq<T>,
)
    requires
        stores(mem, address as int, bytes),
        bytes.len() == values.len() * T::size(),
        forall|i: int|
            0 <= i < values.len() ==> holds_value(bytes, i, ctx, Ok(#[trigger] values[i])),
    ensures
        values_at::<T>(mem, address, values.len(), ctx) == Ok::<Seq<T>, Error>(values),
{
    lemma_values_read(bytes, ctx, values, values.len());
    assert(values.take(values.len() as int) =~= values);
}

/// The first values are read, each as if it stood alone.
proof fn lemma_values_read<'a, T: Pod<'a>>(bytes: Seq<u8>, ctx: &'a Ctx, values: Seq<T>, n: nat)
    requires
        n <= values.len(),
        values.len() * T::size() <= bytes.len(),
        forall|i: int|
            0 <= i < n ==> holds_value(bytes, i, ctx, Ok(#[trigger] values[i])),
    ensures
        values_in::<T>(bytes, n, ctx) == Ok::<Seq<T>, Error>(values.take(n as int)),
    decreases n,
{
    if n > 0 {
        lemma_values_read(bytes, ctx, values, (n - 1) as nat);
        let last = n - 1;
        assert(holds_value(bytes, last, ctx, Ok(values[last])));
        lemma_place::<T>(last, values.len() as int, bytes.len() as int);
        T::parsed_locally(bytes, last * T::size(), ctx);
        assert(values.take(n as int) =~= values.take(last).push(values[last]));
    } else {
        assert(values.take(0) =~= Seq::<T>::empty());
    }
}

/// A value with an index lies within the bytes of all.
proof fn lemma_place<'a, T: Pod<'a>>(index: int, count: int, len: int)
    requires
        0 <= index < count,
        count * T::size() <= len,
    ensures
        0 <= index * T::size(),
        index * T::size() + T::size() <= len,
{
    let size = T::size() as int;
    assert(0 <= index * size && index * size + size <= count * size) by (nonlinear_arith)
        requires
            0 <= index < count,
            0 <= size,
    ;
}

/// The first value with an error is the error of all.
pub proof fn first_error_is_read<'a, T: Pod<'a>>(
    mem: Memory,
    address: u64,
    ctx: &'a Ctx,
    bytes: Seq<u8>,
    values: Seq<T>,
    count: nat,
    error: Error,
)
    requires
        stores(mem, address as int, bytes),
        bytes.len() == count * T::size(),
        values.len() < count,
        forall|i: int|
            0 <= i < values.len() ==> holds_value(bytes, i, ctx, Ok(#[trigger] values[i])),
        holds_value::<T>(bytes, values.len() as int, ctx, Err(error)),
    ensures
        values_at::<T>(mem, address, count, ctx) == Err::<Seq<T>, Error>(error),
{
    let bad = values.len();
    assert(bad * T::size() <= count * T::size()) by (nonlinear_arith)
        requires
            bad < count,
            T::size() >= 0,
    ;
    lemma_values_read(bytes, ctx, values, bad);
    lemma_place::<T>(bad as int, count as int, bytes.len() as int);
    T::parsed_locally(bytes, bad * T::size(), ctx);
    lemma_error_stays::<T>(bytes, ctx, bad + 1, count, error);
}

/// An error among the first values is the error of more values.
proof fn lemma_error_stays<'a, T: Pod<'a>>(
    bytes: Seq<u8>,
    ctx: &'a Ctx,
    n: nat,
    count: nat,
    error: Error,
)
    requires
        n <= count,
        values_in::<T>(bytes, n, ctx) == Err::<Seq<T>, Error>(error),
    ensures
        values_in::<T>(bytes, count, ctx) == Err::<Seq<T>, Error>(error),
    decreases count,
{
    if n < count {
        lemma_error_stays::<T>(bytes, ctx, n, (count - 1) as nat, error);
    }
}

/// Values whose read is refused are an error.
pub proof fn refused_values_are_an_error<'a, T: Pod<'a>>(
    mem: Memory,
    address: u64,
    ctx: &'a Ctx,
    count: nat,
)
    requires
        refuses(mem, address as int, count * T::size()),
    ensures
        values_at::<T>(mem, address, count, ctx) == Err::<Seq<T>, Error>(Error::ReadFailed),
{
}

/// A vector that is there stands for its elements, and an error for itself.
pub proof fn vec_model_is_faithful<T>(output: Result<Vec<T>, Error>)
    ensures
        match output {
            Ok(values) => vec_model(output) == Ok::<Seq<T>, Error>(values@),
            Err(error) => vec_model(output) == Err::<Seq<T>, Error>(error),
        },
{
}

/// Whether a member of the layout is the one with an owner and a name.
pub open spec fn names_member(ctx: Ctx, i: int, owner: Seq<char>, name: Seq<char>) -> bool {
    ctx.members@[i].owner@ == owner && ctx.members@[i].name@ == name
}

/// The offset of a member is that of the first member of the layout with that owner and name.
pub proof fn first_member_counts(ctx: Ctx, owner: Seq<char>, name: Seq<char>, i: int)
    requires
        0 <= i < ctx.members@.len(),
        names_member(ctx, i, owner, name),
        forall|j: int| 0 <= j < i ==> !#[trigger] names_member(ctx, j, owner, name),
    ensures
        ctx.offset_of(owner, name) == Some(ctx.members@[i].offset),
        ctx.has(owner, name),
        ctx.at(owner, name) == ctx.members@[i].offset,
{
    lemma_first_member(ctx, owner, name, 0, i);
    assert(ctx.members@.skip(0) =~= ctx.members@);
}

/// The first member from some member on.
proof fn lemma_first_member(ctx: Ctx, owner: Seq<char>, name: Seq<char>, from: int, i: int)
    requires
        0 <= from <= i < ctx.members@.len(),
        names_member(ctx, i, owner, name),
        forall|j: int| from <= j < i ==> !#[trigger] names_member(ctx, j, owner, name),
    ensures
        crate::mem::offset_among(ctx.members@.skip(from), owner, name) == Some(
            ctx.members@[i].offset,
        ),
    decreases i - from,
{
    let rest = ctx.members@.skip(from);
    assert(rest[0] == ctx.members@[from]);
    if from < i {
        assert(!names_member(ctx, from, owner, name));
        lemma_first_member(ctx, owner, name, from + 1, i);
        assert(rest.drop_first() =~= ctx.members@.skip(from + 1));
    }
}

/// A member that the layout does not name is not found.
pub proof fn missing_member_is_not_found(ctx: Ctx, owner: Seq<char>, name: Seq<char>)
    requires
        forall|j: int|
            0 <= j < ctx.members@.len() ==> !#[trigger] names_member(ctx, j, owner, name),
    ensures
        ctx.offset_of(owner, name) is None,
        !ctx.has(owner, name),
{
    lemma_missing_member(ctx, owner, name, 0);
    assert(ctx.members@.skip(0) =~= ctx.members@);
}

/// A member that the layout does not name is not found from some member on.
proof fn lemma_missing_member(ctx: Ctx, owner: Seq<char>, name: Seq<char>, from: int)
    requires
        0 <= from <= ctx.members@.len(),
        forall|j: int|
            0 <= j < ctx.members@.len() ==> !#[trigger] names_member(ctx, j, owner, name),
    ensures
        crate::mem::offset_among(ctx.members@.skip(from), owner, name) is None,
    decreases ctx.members@.len() - from,
{
    let rest = ctx.members@.skip(from);
    if from < ctx.members@.len() {
        assert(rest[0] == ctx.members@[from]);
        assert(!names_member(ctx, from, owner, name));
        lemma_missing_member(ctx, owner, name, from + 1);
        assert(rest.drop_first() =~= ctx.members@.skip(from + 1));
    }
}

/// Versions are ordered by their major number, and then by their minor number; those before 4.22
/// are legacy.
pub proof fn legacy_is_before_4_22(ctx: Ctx)
    ensures
        ctx.is_legacy() <==> 0x1_0000 * ctx.version.0 + ctx.version.1 < 0x1_0000 * 4 + 22,
{
}

/// Moving on by a distance adds it, and fails if and only if the sum takes more than 64 bits.
pub proof fn address_after_adds(address: u64, distance: nat)
    ensures
        match address_after(address, distance) {
            Ok(next) => next == address + distance,
            Err(error) => error == Error::AddressOverflow && address + distance
                > 0xffff_ffff_ffff_ffff,
        },
{
}

/// A pointer has the address and the context it was made of, and its members lie at their offsets
/// behind it.
pub proof fn pointer_keeps_its_address<'a, T>(
    address: u64,
    ctx: &'a Ctx,
    owner: Seq<char>,
    name: Seq<char>,
    offset: usize,
)
    ensures
        ({
            let pointer = Ptr::<'a, T>::to(address, ctx);
            &&& pointer.address == address
            &&& pointer.ctx == ctx
            &&& ctx.offset_of(owner, name) == Some(offset) ==> (pointer.has_member(owner, name)
                <==> address + offset <= 0xffff_ffff_ffff_ffff)
            &&& ctx.offset_of(owner, name) is None ==> !pointer.has_member(owner, name)
            &&& ctx.offset_of(owner, name) == Some(offset) && address + offset
                <= 0xffff_ffff_ffff_ffff ==> pointer.member(owner, name) == address + offset
        }),
{
}

} // verus!
