//! What reading containers gives, by the bytes that lie there.
use vstd::arithmetic::power2::{lemma_pow2_pos, pow2};
use vstd::bits::lemma_u32_shr_is_div;
use vstd::prelude::*;
use vstd::utf8::encode_utf8;
use crate::arrays::{
    array_data, array_elements, array_len, array_values, narrow_string, until_nul, wide_string,
    Elements, FString, FUtf8String, TAlloc, TAllocImpl, TArray, THeapAlloc_ForElementType,
};
use crate::encoding::{
    le_bytes, units_bytes, utf16_reads_back, utf16_units, utf8_reads_back,
};
use crate::mem::{values_at, Ctx, Error, Pod, Ptr};
use crate::mem_laws::{
    address_after_adds, all_values_are_read, holds_value, i32_value_is_read, pointer_value_is_read,
    refuses, stores, u16_value_is_read, u32_is_read, u32_value_is_read, u64_is_read,
    u8_value_is_read, values_take_their_bytes,
};
use crate::script::{
    bit_at, bit_set, max_index_at, slot_at, FScriptBitArray, FScriptSparseArray,
};
use crate::task::Memory;
use crate::text::utf16_text;

verus! {

/// An array on the heap starts with the 8 bytes of a pointer.
pub proof fn heap_pointer_takes_8_bytes<const N: usize, T>()
    ensures
        <THeapAlloc_ForElementType<N, T> as TAllocImpl<T>>::size() == 8,
{
}

/// The number of elements of an array lies behind what leads to them.
pub proof fn number_lies_behind_the_pointer<'a, T, A: TAlloc<T>>(array: Ptr<'a, TArray<T, A>>)
    ensures
        array.is_array() <==> array.address + A::ForElementType::size() <= 0xffff_ffff_ffff_ffff,
        array.is_array() ==> array.num() == array.address + A::ForElementType::size(),
{
}

/// The pointer to an array's elements is what was written at its start, and their number what was
/// written behind it; where reading one of them is refused, so is reading the array.
pub proof fn array_is_read<'a, T, A: TAlloc<T>>(
    mem: Memory,
    array: Ptr<'a, TArray<T, A>>,
    target: u64,
    count: u32,
)
    requires
        array.address + A::ForElementType::size() <= 0xffff_ffff_ffff_ffff,
    ensures
        stores(mem, array.address as int, le_bytes(target as int, 8)) ==> {
            &&& target == 0 ==> array_data(mem, array) == Ok::<Option<Ptr<'a, T>>, Error>(None)
            &&& target != 0 ==> (array_data(mem, array) matches Ok(Some(data)) && data.address
                == target && data.ctx == array.ctx)
        },
        stores(
            mem,
            array.address + A::ForElementType::size(),
            le_bytes(count as int, 4),
        ) ==> array_len(mem, array) == Ok::<usize, Error>(count as usize),
        stores(mem, array.address as int, le_bytes(target as int, 8)) && stores(
            mem,
            array.address + A::ForElementType::size(),
            le_bytes(count as int, 4),
        ) ==> {
            &&& array_elements(mem, array) matches Ok(elements)
            &&& elements.len == count as usize
            &&& target == 0 ==> elements.data is None
            &&& target != 0 ==> (elements.data matches Some(data) && data.address == target
                && data.ctx == array.ctx)
        },
        refuses(mem, array.address as int, 8) ==> {
            &&& array_data(mem, array) == Err::<Option<Ptr<'a, T>>, Error>(Error::ReadFailed)
            &&& array_elements(mem, array) == Err::<Elements<'a, T>, Error>(Error::ReadFailed)
        },
        refuses(mem, array.address + A::ForElementType::size(), 4) ==> {
            &&& array_len(mem, array) == Err::<usize, Error>(Error::ReadFailed)
            &&& stores(mem, array.address as int, le_bytes(target as int, 8)) ==> array_elements(
                mem,
                array,
            ) == Err::<Elements<'a, T>, Error>(Error::ReadFailed)
        },
{
    pointer_value_is_read::<T>(mem, array.address, array.ctx, target);
    u32_value_is_read(
        mem,
        (array.address + A::ForElementType::size()) as u64,
        array.ctx,
        count,
    );
}

/// The elements of an array are the values from its pointer on, as many as it says. An array that
/// leads nowhere has none, whatever it says.
pub proof fn array_values_are_read<'a, T: Pod<'a>, A: TAlloc<T>>(
    mem: Memory,
    array: Ptr<'a, TArray<T, A>>,
    target: u64,
    count: u32,
)
    requires
        array.address + A::ForElementType::size() <= 0xffff_ffff_ffff_ffff,
    ensures
        stores(mem, array.address as int, le_bytes(0, 8)) ==> array_values(mem, array) == Ok::<
            Seq<T>,
            Error,
        >(Seq::empty()),
        target != 0 && stores(mem, array.address as int, le_bytes(target as int, 8)) && stores(
            mem,
            array.address + A::ForElementType::size(),
            le_bytes(count as int, 4),
        ) ==> array_values(mem, array) == values_at::<T>(mem, target, count as nat, array.ctx),
        refuses(mem, array.address as int, 8) ==> array_values(mem, array) == Err::<Seq<T>, Error>(
            Error::ReadFailed,
        ),
        target != 0 && stores(mem, array.address as int, le_bytes(target as int, 8)) && refuses(
            mem,
            array.address + A::ForElementType::size(),
            4,
        ) ==> array_values(mem, array) == Err::<Seq<T>, Error>(Error::ReadFailed),
{
    pointer_value_is_read::<T>(mem, array.address, array.ctx, target);
    pointer_value_is_read::<T>(mem, array.address, array.ctx, 0);
    u32_value_is_read(
        mem,
        (array.address + A::ForElementType::size()) as u64,
        array.ctx,
        count,
    );
}

/// The units that make up a string are a first part of the array's units: none of them is zero,
/// and it ends with the array or in front of a zero.
pub proof fn string_ends_at_the_first_zero(units: Seq<u16>, len: int)
    requires
        0 <= len <= units.len(),
        forall|i: int| 0 <= i < len ==> units[i] != 0,
        len < units.len() ==> units[len] == 0,
    ensures
        wide_string(Ok(units)) == utf16_text(units.take(len)),
{
    lemma_until(units, len);
}

/// What comes before the first zero.
proof fn lemma_until(units: Seq<u16>, len: int)
    requires
        0 <= len <= units.len(),
        forall|i: int| 0 <= i < len ==> units[i] != 0,
        len < units.len() ==> units[len] == 0,
    ensures
        until_nul(units) == units.take(len),
    decreases len,
{
    if len > 0 {
        let rest = units.skip(1);
        assert forall|i: int| 0 <= i < len - 1 implies rest[i] != 0 by {
            assert(rest[i] == units[i + 1]);
        }
        lemma_until(rest, len - 1);
        assert(units.take(len) =~= seq![units[0]] + rest.take(len - 1));
    } else {
        assert(units.take(0) =~= Seq::<u16>::empty());
    }
}

/// Errors of the array are errors of the string.
pub proof fn string_keeps_errors(error: Error)
    ensures
        wide_string(Err(error)) == Err::<Seq<char>, Error>(error),
        narrow_string(Err(error)) == Err::<Seq<char>, Error>(error),
{
}

/// A string in UTF-16 that was written to memory, with or without a zero behind it, is the string
/// that is read.
pub proof fn wide_string_reads_back<'a>(
    mem: Memory,
    string: Ptr<'a, FString>,
    target: u64,
    text: Seq<char>,
    behind: Seq<u16>,
)
    requires
        string.address + 8 <= 0xffff_ffff_ffff_ffff,
        target != 0,
        !text.contains('\0'),
        behind.len() > 0 ==> behind[0] == 0,
        utf16_units(text).len() + behind.len() <= 0xffff_ffff,
        stores(mem, string.address as int, le_bytes(target as int, 8)),
        stores(
            mem,
            string.address + 8,
            le_bytes((utf16_units(text).len() + behind.len()) as int, 4),
        ),
        stores(mem, target as int, units_bytes(utf16_units(text) + behind)),
    ensures
        wide_string(array_values(mem, string.array())) == Ok::<Seq<char>, Error>(text),
{
    let units = utf16_units(text) + behind;
    let len = utf16_units(text).len() as int;
    heap_pointer_takes_8_bytes::<32, u16>();
    array_values_are_read::<u16, crate::arrays::TSizedHeapAllocator<32>>(
        mem,
        string.array(),
        target,
        units.len() as u32,
    );
    lemma_units_are_read(mem, target, string.ctx, units);
    lemma_no_zero_unit(text);
    assert forall|i: int| 0 <= i < len implies units[i] != 0 by {
        assert(units[i] == utf16_units(text)[i]);
    }
    string_ends_at_the_first_zero(units, len);
    assert(units.take(len) =~= utf16_units(text));
    utf16_reads_back(utf16_units(text), text);
}

/// Units in memory are read as they were written.
proof fn lemma_units_are_read<'a>(mem: Memory, target: u64, ctx: &'a Ctx, units: Seq<u16>)
    requires
        units.len() <= 0xffff_ffff,
        stores(mem, target as int, units_bytes(units)),
    ensures
        values_at::<u16>(mem, target, units.len(), ctx) == Ok::<Seq<u16>, Error>(units),
{
    let bytes = units_bytes(units);
    values_take_their_bytes::<u8>();
    assert forall|i: int| 0 <= i < units.len() implies holds_value(
        bytes,
        i,
        ctx,
        Ok(#[trigger] units[i]),
    ) by {
        let own = bytes.subrange(i * 2, i * 2 + 2);
        let alone: Memory = |address: u64, len: u64| Some(own);
        reveal_with_fuel(le_bytes, 3);
        assert(2 * i / 2 == i && (2 * i + 1) / 2 == i);
        assert(own =~= le_bytes(units[i] as int, 2));
        u16_value_is_read(alone, 0, ctx, units[i]);
    }
    all_values_are_read::<u16>(mem, target, ctx, bytes, units);
}

/// Text without the zero character has no zero unit in UTF-16.
proof fn lemma_no_zero_unit(text: Seq<char>)
    requires
        !text.contains('\0'),
    ensures
        forall|i: int| 0 <= i < utf16_units(text).len() ==> utf16_units(text)[i] != 0,
    decreases text.len(),
{
    if text.len() > 0 {
        let rest = text.drop_first();
        assert(text.contains(text[0]));
        assert(!rest.contains('\0')) by {
            if rest.contains('\0') {
                let i = choose|i: int| 0 <= i < rest.len() && rest[i] == '\0';
                assert(text[i + 1] == '\0');
            }
        }
        lemma_no_zero_unit(rest);
        vstd::utf8::char_is_scalar(text[0]);
        vstd::utf8::char_u32_cast('\0', 0);
        vstd::utf8::char_u32_cast(text[0], text[0] as u32);
        assert(text[0] as u32 != 0);
        let first = crate::encoding::char_units(text[0]);
        assert forall|i: int| 0 <= i < utf16_units(text).len() implies utf16_units(text)[i]
            != 0 by {
            if i >= first.len() {
                assert(utf16_units(text)[i] == utf16_units(rest)[i - first.len()]);
            } else {
                assert(utf16_units(text)[i] == first[i]);
            }
        }
    }
}

/// A string in UTF-8 that was written to memory is the string that is read, all of it.
pub proof fn narrow_string_reads_back<'a>(
    mem: Memory,
    string: Ptr<'a, FUtf8String>,
    target: u64,
    text: Seq<char>,
)
    requires
        string.address + 8 <= 0xffff_ffff_ffff_ffff,
        target != 0,
        encode_utf8(text).len() <= 0xffff_ffff,
        stores(mem, string.address as int, le_bytes(target as int, 8)),
        stores(mem, string.address + 8, le_bytes(encode_utf8(text).len() as int, 4)),
        stores(mem, target as int, encode_utf8(text)),
    ensures
        narrow_string(array_values(mem, string.array())) == Ok::<Seq<char>, Error>(text),
{
    let bytes = encode_utf8(text);
    heap_pointer_takes_8_bytes::<32, u8>();
    array_values_are_read::<u8, crate::arrays::TSizedHeapAllocator<32>>(
        mem,
        string.array(),
        target,
        bytes.len() as u32,
    );
    lemma_bytes_are_read(mem, target, string.ctx, bytes);
    utf8_reads_back(bytes, text);
}

/// Bytes in memory are read as they were written.
proof fn lemma_bytes_are_read<'a>(mem: Memory, target: u64, ctx: &'a Ctx, bytes: Seq<u8>)
    requires
        bytes.len() <= 0xffff_ffff,
        stores(mem, target as int, bytes),
    ensures
        values_at::<u8>(mem, target, bytes.len(), ctx) == Ok::<Seq<u8>, Error>(bytes),
{
    values_take_their_bytes::<u8>();
    assert forall|i: int| 0 <= i < bytes.len() implies holds_value(
        bytes,
        i,
        ctx,
        Ok(#[trigger] bytes[i]),
    ) by {
        let own = bytes.subrange(i * 1, i * 1 + 1);
        let alone: Memory = |address: u64, len: u64| Some(own);
        assert(own =~= seq![bytes[i]]);
        u8_value_is_read(alone, 0, ctx, bytes[i]);
    }
    all_values_are_read::<u8>(mem, target, ctx, bytes, bytes);
}

/// A string reads the array at its own address.
pub proof fn string_is_an_array<'a>(wide: Ptr<'a, FString>, narrow: Ptr<'a, FUtf8String>)
    ensures
        wide.array().address == wide.address && wide.array().ctx == wide.ctx,
        narrow.array().address == narrow.address && narrow.array().ctx == narrow.ctx,
{
}

/// A bit of a word counts a power of two.
pub proof fn bit_counts_a_power_of_two(word: u32, bit: u32)
    requires
        bit < 32,
    ensures
        bit_set(word, bit) <==> (word as int / pow2(bit as nat) as int) % 2 == 1,
{
    lemma_pow2_pos(bit as nat);
    lemma_u32_shr_is_div(word, bit);
    assert((word & (1u32 << bit) != 0) == ((word >> bit) % 2 == 1)) by (bit_vector)
        requires
            bit < 32,
    ;
}

/// Where the members of a bit array lie.
pub ghost struct Bits {
    /// The storage.
    pub allocator: usize,
    /// The words in the storage.
    pub inline: usize,
    /// The pointer to the words on the heap, in the storage.
    pub secondary: usize,
    /// The number of bits.
    pub number: usize,
}

impl Bits {
    /// Whether the layout of an array is this one.
    pub open spec fn is_of<'a>(self, array: Ptr<'a, FScriptBitArray>) -> bool {
        &&& array.ctx.offset_of("FScriptBitArray"@, "AllocatorInstance"@) == Some(self.allocator)
        &&& array.ctx.offset_of("FDefaultBitArrayAllocator"@, "InlineData"@) == Some(self.inline)
        &&& array.ctx.offset_of("FDefaultBitArrayAllocator"@, "SecondaryData"@) == Some(
            self.secondary,
        )
        &&& array.ctx.offset_of("FScriptBitArray"@, "NumBits"@) == Some(self.number)
        &&& array.address + self.number <= 0xffff_ffff_ffff_ffff
        &&& array.address + self.allocator + self.inline <= 0xffff_ffff_ffff_ffff
        &&& array.address + self.allocator + self.secondary <= 0xffff_ffff_ffff_ffff
    }

    /// Whether an array says that it has so many bits.
    pub open spec fn says<'a>(
        self,
        mem: Memory,
        array: Ptr<'a, FScriptBitArray>,
        number: i32,
    ) -> bool {
        stores(
            mem,
            array.address + self.number,
            le_bytes(
                if number < 0 {
                    number + 0x1_0000_0000
                } else {
                    number as int
                },
                4,
            ),
        )
    }

    /// Where the words of an array start: on the heap if there is a pointer to there, and else
    /// within it.
    pub open spec fn words<'a>(self, array: Ptr<'a, FScriptBitArray>, heap: u64) -> int {
        if heap != 0 {
            heap as int
        } else {
            array.address + self.allocator + self.inline
        }
    }
}

/// Bits that an array does not have are not set.
pub proof fn missing_bits_are_not_set<'a>(
    mem: Memory,
    array: Ptr<'a, FScriptBitArray>,
    layout: Bits,
    number: i32,
    index: usize,
)
    requires
        layout.is_of(array),
    ensures
        layout.says(mem, array, number) && index >= number ==> bit_at(mem, array, index) == Ok::<
            bool,
            Error,
        >(false),
        refuses(mem, array.address + layout.number, 4) ==> bit_at(mem, array, index) == Err::<
            bool,
            Error,
        >(Error::ReadFailed),
{
    i32_value_is_read(mem, (array.address + layout.number) as u64, array.ctx, number);
}

/// A bit that an array has is the digit to the base of two, at the place of its index, of the
/// 32-bit word that holds it; what cannot be read is an error.
pub proof fn bit_is_a_binary_digit<'a>(
    mem: Memory,
    array: Ptr<'a, FScriptBitArray>,
    layout: Bits,
    number: i32,
    heap: u64,
    index: usize,
    word: u32,
)
    requires
        layout.is_of(array),
        layout.says(mem, array, number),
        index < number,
    ensures
        ({
            let bit = bit_at(mem, array, index);
            let pointer = array.address + layout.allocator + layout.secondary;
            let place = layout.words(array, heap) + 4 * (index / 32);
            &&& refuses(mem, pointer, 8) ==> bit == Err::<bool, Error>(Error::ReadFailed)
            &&& stores(mem, pointer, le_bytes(heap as int, 8)) ==> {
                &&& stores(mem, place, le_bytes(word as int, 4)) ==> bit == Ok::<bool, Error>(
                    (word as int / pow2((index % 32) as nat) as int) % 2 == 1,
                )
                &&& refuses(mem, place, 4) ==> bit == Err::<bool, Error>(Error::ReadFailed)
                &&& place > 0xffff_ffff_ffff_ffff ==> bit == Err::<bool, Error>(
                    Error::AddressOverflow,
                )
            }
        }),
{
    let pointer = array.address + layout.allocator + layout.secondary;
    let words = layout.words(array, heap);
    let place = words + 4 * (index / 32);
    i32_value_is_read(mem, (array.address + layout.number) as u64, array.ctx, number);
    u64_is_read(mem, pointer as u64, heap);
    address_after_adds(words as u64, (4 * (index / 32)) as nat);
    if place <= 0xffff_ffff_ffff_ffff {
        u32_is_read(mem, place as u64, word);
    }
    bit_counts_a_power_of_two(word, (index % 32) as u32);
}

/// The parts of a sparse array lie at their offsets behind it.
pub proof fn sparse_array_has_its_parts<'a>(
    array: Ptr<'a, FScriptSparseArray>,
    data: usize,
    flags: usize,
)
    requires
        array.ctx.offset_of("FScriptSparseArray"@, "Data"@) == Some(data),
        array.ctx.offset_of("FScriptSparseArray"@, "AllocationFlags"@) == Some(flags),
        array.address + data <= 0xffff_ffff_ffff_ffff,
        array.address + flags <= 0xffff_ffff_ffff_ffff,
    ensures
        array.slots().address == array.address + data,
        array.slots().ctx == array.ctx,
        array.flags().address == array.address + flags,
        array.flags().ctx == array.ctx,
{
}

/// The number of slots of a sparse array is the number that was written, and what is negative
/// counts down from the end of the index type.
pub proof fn max_index_is_read<'a>(
    mem: Memory,
    array: Ptr<'a, FScriptSparseArray>,
    data: usize,
    number_offset: usize,
    number: i32,
)
    requires
        array.ctx.offset_of("FScriptSparseArray"@, "Data"@) == Some(data),
        array.ctx.offset_of("FScriptArray"@, "ArrayNum"@) == Some(number_offset),
        array.address + data + number_offset <= 0xffff_ffff_ffff_ffff,
    ensures
        ({
            let place = array.address + data + number_offset;
            let read = max_index_at(mem, array);
            &&& number >= 0 && stores(mem, place, le_bytes(number as int, 4)) ==> read == Ok::<
                usize,
                Error,
            >(number as usize)
            &&& number < 0 && stores(mem, place, le_bytes(number + 0x1_0000_0000, 4)) ==> (
            read matches Ok(index) && index as int - number == usize::MAX + 1)
            &&& refuses(mem, place, 4) ==> read == Err::<usize, Error>(Error::ReadFailed)
        }),
{
    i32_value_is_read(
        mem,
        (array.address + data + number_offset) as u64,
        array.ctx,
        number,
    );
}

/// A slot of a sparse array lies as many elements behind the pointer that was written as its
/// index says. Where there is no pointer there is no slot.
pub proof fn slot_is_found<'a>(
    mem: Memory,
    array: Ptr<'a, FScriptSparseArray>,
    data: usize,
    pointer_offset: usize,
    target: u64,
    index: usize,
    element_size: usize,
)
    requires
        array.ctx.offset_of("FScriptSparseArray"@, "Data"@) == Some(data),
        array.ctx.offset_of("FScriptArray"@, "Data"@) == Some(pointer_offset),
        array.address + data + pointer_offset <= 0xffff_ffff_ffff_ffff,
        index * element_size <= usize::MAX,
    ensures
        ({
            let place = array.address + data + pointer_offset;
            let slot = slot_at(mem, array, index, element_size);
            &&& stores(mem, place, le_bytes(0, 8)) ==> slot == Err::<Ptr<'a, u8>, Error>(
                Error::MissingElements,
            )
            &&& target != 0 && stores(mem, place, le_bytes(target as int, 8)) ==> {
                &&& target + index * element_size <= 0xffff_ffff_ffff_ffff ==> (
                slot matches Ok(pointer) && pointer.address == target + index * element_size
                    && pointer.ctx == array.ctx)
                &&& target + index * element_size > 0xffff_ffff_ffff_ffff ==> slot == Err::<
                    Ptr<'a, u8>,
                    Error,
                >(Error::AddressOverflow)
            }
            &&& refuses(mem, place, 8) ==> slot == Err::<Ptr<'a, u8>, Error>(Error::ReadFailed)
        }),
{
    let place = (array.address + data + pointer_offset) as u64;
    pointer_value_is_read::<u8>(mem, place, array.ctx, target);
    pointer_value_is_read::<u8>(mem, place, array.ctx, 0);
    assert(0 <= index * element_size) by (nonlinear_arith)
        requires
            0 <= index,
            0 <= element_size,
    ;
    address_after_adds(target, (index * element_size) as nat);
}

} // verus!
