//! The containers that the engine's reflection works on without knowing their element type.
use vstd::prelude::*;
use crate::bytes::{read_le_u32, read_le_u64, to_signed};
use crate::mem::{address_after, advance, read_u32, read_u64, value_at, Error, Fetch, Ptr};
use crate::task::{delivers, mapped, ready, Conversion, Mapped, Memory, Progress, Request, Task};

verus! {

/// An array without an element type.
#[derive(Debug, Clone, Copy)]
pub struct FScriptArray;

impl<'a> Ptr<'a, FScriptArray> {
    /// The pointer to the elements.
    pub fn data(&self) -> (pointer: Ptr<'a, Option<Ptr<'a, u8>>>)
        requires
            self.has_member("FScriptArray"@, "Data"@),
        ensures
            pointer == Ptr::<'a, Option<Ptr<'a, u8>>>::to(
                self.member("FScriptArray"@, "Data"@),
                self.ctx,
            ),
    {
        let offset: usize = self.ctx().struct_member("FScriptArray", "Data");
        self.byte_offset(offset).cast()
    }

    /// The number of elements.
    pub fn num(&self) -> (pointer: Ptr<'a, i32>)
        requires
            self.has_member("FScriptArray"@, "ArrayNum"@),
        ensures
            pointer == Ptr::<'a, i32>::to(
                self.member("FScriptArray"@, "ArrayNum"@),
                self.ctx,
            ),
    {
        let offset: usize = self.ctx().struct_member("FScriptArray", "ArrayNum");
        self.byte_offset(offset).cast()
    }
}

/// An array of bits, which tells the used slots of a sparse array from the free ones. Its words
/// lie within it, or all of them on the heap where it holds a pointer to there.
#[derive(Debug, Clone, Copy)]
pub struct FScriptBitArray;

impl<'a> Ptr<'a, FScriptBitArray> {
    /// Whether the layout has a member of the storage of the bits, at an address in the address
    /// space.
    pub open spec fn has_storage(self, name: Seq<char>) -> bool {
        let allocator = self.ctx.at("FScriptBitArray"@, "AllocatorInstance"@);
        let member = self.ctx.at("FDefaultBitArrayAllocator"@, name);
        &&& self.ctx.has("FScriptBitArray"@, "AllocatorInstance"@)
        &&& self.ctx.has("FDefaultBitArrayAllocator"@, name)
        &&& allocator + member <= usize::MAX
        &&& self.address + allocator + member <= u64::MAX
    }

    /// The address of a member of the storage of the bits.
    pub open spec fn storage(self, name: Seq<char>) -> u64 {
        (self.address + self.ctx.at("FScriptBitArray"@, "AllocatorInstance"@) + self.ctx.at(
            "FDefaultBitArrayAllocator"@,
            name,
        )) as u64
    }

    /// Whether the layout has what looking at a bit needs.
    pub open spec fn is_bit_array(self) -> bool {
        &&& self.has_member("FScriptBitArray"@, "NumBits"@)
        &&& self.has_storage("InlineData"@)
        &&& self.has_storage("SecondaryData"@)
    }

    /// The words that lie within the array.
    pub fn inline_data(&self) -> (pointer: Ptr<'a, u32>)
        requires
            self.has_storage("InlineData"@),
        ensures
            pointer == Ptr::<'a, u32>::to(self.storage("InlineData"@), self.ctx),
    {
        let alloc_offset: usize = self.ctx().struct_member("FScriptBitArray", "AllocatorInstance");
        let inline_offset: usize = self.ctx().struct_member(
            "FDefaultBitArrayAllocator",
            "InlineData",
        );
        self.byte_offset(alloc_offset + inline_offset).cast()
    }

    /// The pointer to the words on the heap.
    pub fn secondary_data(&self) -> (pointer: Ptr<'a, Option<Ptr<'a, u32>>>)
        requires
            self.has_storage("SecondaryData"@),
        ensures
            pointer == Ptr::<'a, Option<Ptr<'a, u32>>>::to(self.storage("SecondaryData"@), self.ctx),
    {
        let alloc_offset: usize = self.ctx().struct_member("FScriptBitArray", "AllocatorInstance");
        let secondary_offset: usize = self.ctx().struct_member(
            "FDefaultBitArrayAllocator",
            "SecondaryData",
        );
        self.byte_offset(alloc_offset + secondary_offset).cast()
    }

    /// The number of bits.
    pub fn num_bits(&self) -> (pointer: Ptr<'a, i32>)
        requires
            self.has_member("FScriptBitArray"@, "NumBits"@),
        ensures
            pointer == Ptr::<'a, i32>::to(
                self.member("FScriptBitArray"@, "NumBits"@),
                self.ctx,
            ),
    {
        let offset: usize = self.ctx().struct_member("FScriptBitArray", "NumBits");
        self.byte_offset(offset).cast()
    }

    /// Looks at a bit.
    pub fn is_allocated(&self, index: usize) -> (progress: Progress<
        ReadBit<'a>,
        Result<bool, Error>,
    >)
        requires
            self.is_bit_array(),
        ensures
            ready(progress),
            forall|mem: Memory| #[trigger]
                delivers(progress, mem) == bit_at(mem, *self, index),
    {
        Progress::Waiting(
            ReadBit { bits: *self, index, stage: BitStage::NumBits { num_bits: self.num_bits() } },
        )
    }
}

/// Whether a bit of a word is set.
pub open spec fn bit_set(word: u32, bit: u32) -> bool {
    word & (1u32 << bit) != 0
}

/// The bit with an index, in the words from `words` on.
pub open spec fn bit_in_words(mem: Memory, words: u64, index: usize) -> Result<bool, Error> {
    match address_after(words, (4 * (index / 32)) as nat) {
        Ok(place) => bit_in_word(mem, place, index),
        Err(error) => Err(error),
    }
}

/// The bit with an index, in the word that holds it.
pub open spec fn bit_in_word(mem: Memory, place: u64, index: usize) -> Result<bool, Error> {
    match read_u32(mem, place) {
        Ok(word) => Ok(bit_set(word, (index % 32) as u32)),
        Err(error) => Err(error),
    }
}

/// The bit with an index, where the words are on the heap if there is a pointer to there, and
/// else within the array.
pub open spec fn bit_in_storage<'a>(
    mem: Memory,
    bits: Ptr<'a, FScriptBitArray>,
    index: usize,
) -> Result<bool, Error> {
    match read_u64(mem, bits.storage("SecondaryData"@)) {
        Ok(0) => bit_in_words(mem, bits.storage("InlineData"@), index),
        Ok(secondary) => bit_in_words(mem, secondary, index),
        Err(error) => Err(error),
    }
}

/// The bit with an index; one that the array does not have is not set.
pub open spec fn bit_at<'a>(mem: Memory, bits: Ptr<'a, FScriptBitArray>, index: usize) -> Result<
    bool,
    Error,
> {
    match value_at::<i32>(mem, bits.member("FScriptBitArray"@, "NumBits"@), bits.ctx) {
        Ok(num_bits) => if index >= num_bits {
            Ok(false)
        } else {
            bit_in_storage(mem, bits, index)
        },
        Err(error) => Err(error),
    }
}

/// What looking at a bit waits for.
pub enum BitStage<'a> {
    /// The number of bits.
    NumBits { num_bits: Ptr<'a, i32> },
    /// The pointer to the words on the heap.
    Secondary { secondary: Ptr<'a, Option<Ptr<'a, u32>>> },
    /// The word with the bit.
    Word { place: u64 },
}

/// A look at a bit.
pub struct ReadBit<'a> {
    /// The array.
    pub bits: Ptr<'a, FScriptBitArray>,
    /// The index of the bit.
    pub index: usize,
    /// What it waits for.
    pub stage: BitStage<'a>,
}

impl<'a> Task for ReadBit<'a> {
    type Output = Result<bool, Error>;

    type Model = Result<bool, Error>;

    open spec fn wf(&self) -> bool {
        match self.stage {
            BitStage::NumBits { num_bits } => {
                &&& self.bits.is_bit_array()
                &&& num_bits.address == self.bits.member("FScriptBitArray"@, "NumBits"@)
            },
            BitStage::Secondary { secondary } => {
                &&& self.bits.is_bit_array()
                &&& secondary.address == self.bits.storage("SecondaryData"@)
            },
            BitStage::Word { .. } => true,
        }
    }

    open spec fn asks(&self) -> Request {
        match self.stage {
            BitStage::NumBits { num_bits } => Request { address: num_bits.address, len: 4 },
            BitStage::Secondary { secondary } => Request { address: secondary.address, len: 8 },
            BitStage::Word { place } => Request { address: place, len: 4 },
        }
    }

    open spec fn model(output: Result<bool, Error>) -> Result<bool, Error> {
        output
    }

    open spec fn outcome(&self, mem: Memory) -> Result<bool, Error> {
        match self.stage {
            BitStage::NumBits { .. } => bit_at(mem, self.bits, self.index),
            BitStage::Secondary { .. } => bit_in_storage(mem, self.bits, self.index),
            BitStage::Word { place } => bit_in_word(mem, place, self.index),
        }
    }

    open spec fn budget(&self) -> nat {
        match self.stage {
            BitStage::NumBits { .. } => 3,
            BitStage::Secondary { .. } => 2,
            BitStage::Word { .. } => 1,
        }
    }

    fn request(&self) -> (request: Request) {
        match &self.stage {
            BitStage::NumBits { num_bits } => Request { address: num_bits.address, len: 4 },
            BitStage::Secondary { secondary } => Request { address: secondary.address, len: 8 },
            BitStage::Word { place } => Request { address: *place, len: 4 },
        }
    }

    fn resume(self, reply: Option<Vec<u8>>) -> (next: Progress<Self, Result<bool, Error>>) {
        let bytes = match reply {
            Some(bytes) => bytes,
            None => {
                return Progress::Done(Err(Error::ReadFailed));
            },
        };
        let ReadBit { bits, index, stage } = self;
        match stage {
            BitStage::NumBits { .. } => {
                let num_bits: i32 = to_signed(read_le_u32(&bytes, 0));
                if num_bits <= 0 || index >= num_bits as usize {
                    return Progress::Done(Ok(false));
                }
                let secondary = bits.secondary_data();
                Progress::Waiting(ReadBit { bits, index, stage: BitStage::Secondary { secondary } })
            },
            BitStage::Secondary { .. } => {
                let secondary: u64 = read_le_u64(&bytes, 0);
                let words: u64 = if secondary != 0 {
                    secondary
                } else {
                    bits.inline_data().address()
                };
                match advance(words, 4 * (index / 32) as u64) {
                    Ok(place) => Progress::Waiting(
                        ReadBit { bits, index, stage: BitStage::Word { place } },
                    ),
                    Err(error) => Progress::Done(Err(error)),
                }
            },
            BitStage::Word { .. } => {
                let word: u32 = read_le_u32(&bytes, 0);
                let bit: u32 = (index % 32) as u32;
                Progress::Done(Ok(word & (1u32 << bit) != 0))
            },
        }
    }
}

/// An array with free slots between the used ones.
#[derive(Debug, Clone, Copy)]
pub struct FScriptSparseArray;

/// A signed count as an index: what is negative counts down from the end of the index type.
pub open spec fn as_index(count: Result<i32, Error>) -> Result<usize, Error> {
    match count {
        Ok(count) => if count >= 0 {
            Ok(count as usize)
        } else {
            Ok((usize::MAX + 1 + count) as usize)
        },
        Err(error) => Err(error),
    }
}

/// Turns a signed count into an index.
pub struct ToIndex;

impl<'a> Conversion<Fetch<'a, i32>> for ToIndex {
    type Output = Result<usize, Error>;

    type Model = Result<usize, Error>;

    open spec fn model(output: Result<usize, Error>) -> Result<usize, Error> {
        output
    }

    open spec fn converted(&self, value: Result<i32, Error>) -> Result<usize, Error> {
        as_index(value)
    }

    fn convert(self, value: Result<i32, Error>) -> (output: Result<usize, Error>) {
        match value {
            Ok(count) => if count >= 0 {
                Ok(count as usize)
            } else {
                Ok(usize::MAX - (-1 - count) as usize)
            },
            Err(error) => Err(error),
        }
    }
}

/// The pointer `distance` bytes behind the first element of an array that has elements.
pub open spec fn element_at<'a>(data: Result<Option<Ptr<'a, u8>>, Error>, distance: usize) -> Result<
    Ptr<'a, u8>,
    Error,
> {
    match data {
        Ok(Some(data)) => match address_after(data.address, distance as nat) {
            Ok(address) => Ok(Ptr::to(address, data.ctx)),
            Err(error) => Err(error),
        },
        Ok(None) => Err(Error::MissingElements),
        Err(error) => Err(error),
    }
}

/// Moves from the first element of an array on.
pub struct ElementAt {
    /// By how many bytes.
    pub distance: usize,
}

impl<'a> Conversion<Fetch<'a, Option<Ptr<'a, u8>>>> for ElementAt {
    type Output = Result<Ptr<'a, u8>, Error>;

    type Model = Result<Ptr<'a, u8>, Error>;

    open spec fn model(output: Result<Ptr<'a, u8>, Error>) -> Result<Ptr<'a, u8>, Error> {
        output
    }

    open spec fn converted(&self, value: Result<Option<Ptr<'a, u8>>, Error>) -> Result<
        Ptr<'a, u8>,
        Error,
    > {
        element_at(value, self.distance)
    }

    fn convert(self, value: Result<Option<Ptr<'a, u8>>, Error>) -> (output: Result<
        Ptr<'a, u8>,
        Error,
    >) {
        match value {
            Ok(Some(data)) => match advance(data.address, self.distance as u64) {
                Ok(_) => Ok(data.byte_offset(self.distance)),
                Err(error) => Err(error),
            },
            Ok(None) => Err(Error::MissingElements),
            Err(error) => Err(error),
        }
    }
}

impl<'a> Ptr<'a, FScriptSparseArray> {
    /// The slots.
    pub open spec fn slots(self) -> Ptr<'a, FScriptArray> {
        Ptr::to(self.member("FScriptSparseArray"@, "Data"@), self.ctx)
    }

    /// The bits that tell used slots from free ones.
    pub open spec fn flags(self) -> Ptr<'a, FScriptBitArray> {
        Ptr::to(self.member("FScriptSparseArray"@, "AllocationFlags"@), self.ctx)
    }

    /// The array of the slots.
    pub fn data(&self) -> (pointer: Ptr<'a, FScriptArray>)
        requires
            self.has_member("FScriptSparseArray"@, "Data"@),
        ensures
            pointer == Ptr::<'a, FScriptArray>::to(
                self.member("FScriptSparseArray"@, "Data"@),
                self.ctx,
            ),
    {
        let offset: usize = self.ctx().struct_member("FScriptSparseArray", "Data");
        self.byte_offset(offset).cast()
    }

    /// The bits that tell used slots from free ones.
    pub fn allocation_flags(&self) -> (pointer: Ptr<'a, FScriptBitArray>)
        requires
            self.has_member("FScriptSparseArray"@, "AllocationFlags"@),
        ensures
            pointer == Ptr::<'a, FScriptBitArray>::to(
                self.member("FScriptSparseArray"@, "AllocationFlags"@),
                self.ctx,
            ),
    {
        let offset: usize = self.ctx().struct_member("FScriptSparseArray", "AllocationFlags");
        self.byte_offset(offset).cast()
    }

    /// Reads the number of slots.
    pub fn get_max_index(&self) -> (progress: Progress<
        Mapped<Fetch<'a, i32>, ToIndex>,
        Result<usize, Error>,
    >)
        requires
            self.has_member("FScriptSparseArray"@, "Data"@),
            self.slots().has_member("FScriptArray"@, "ArrayNum"@),
        ensures
            ready(progress),
            forall|mem: Memory| #[trigger]
                delivers(progress, mem) == max_index_at(mem, *self),
    {
        mapped(self.data().num().read(), ToIndex)
    }

    /// Looks whether a slot is used.
    pub fn is_valid_index(&self, index: usize) -> (progress: Progress<
        ReadBit<'a>,
        Result<bool, Error>,
    >)
        requires
            self.has_member("FScriptSparseArray"@, "AllocationFlags"@),
            self.flags().is_bit_array(),
        ensures
            ready(progress),
            forall|mem: Memory| #[trigger]
                delivers(progress, mem) == bit_at(mem, self.flags(), index),
    {
        self.allocation_flags().is_allocated(index)
    }

    /// Finds a slot; `element_size` is the number of bytes that each takes.
    pub fn get_data(&self, index: usize, element_size: usize) -> (progress: Progress<
        Mapped<Fetch<'a, Option<Ptr<'a, u8>>>, ElementAt>,
        Result<Ptr<'a, u8>, Error>,
    >)
        requires
            self.has_member("FScriptSparseArray"@, "Data"@),
            self.slots().has_member("FScriptArray"@, "Data"@),
            index * element_size <= usize::MAX,
        ensures
            ready(progress),
            forall|mem: Memory| #[trigger]
                delivers(progress, mem) == slot_at(mem, *self, index, element_size),
    {
        let distance: usize = index * element_size;
        mapped(self.data().data().read(), ElementAt { distance })
    }
}

/// The number of slots of a sparse array.
pub open spec fn max_index_at<'a>(mem: Memory, array: Ptr<'a, FScriptSparseArray>) -> Result<
    usize,
    Error,
> {
    as_index(value_at(mem, array.slots().member("FScriptArray"@, "ArrayNum"@), array.ctx))
}

/// The slot of a sparse array with an index, where each takes `element_size` bytes.
pub open spec fn slot_at<'a>(
    mem: Memory,
    array: Ptr<'a, FScriptSparseArray>,
    index: usize,
    element_size: usize,
) -> Result<Ptr<'a, u8>, Error> {
    element_at(
        value_at(mem, array.slots().member("FScriptArray"@, "Data"@), array.ctx),
        (index * element_size) as usize,
    )
}

/// A set; its elements stand in a sparse array.
#[derive(Debug, Clone, Copy)]
pub struct FScriptSet;

impl<'a> Ptr<'a, FScriptSet> {
    /// The elements.
    pub fn elements(&self) -> (pointer: Ptr<'a, FScriptSparseArray>)
        requires
            self.has_member("FScriptSet"@, "Elements"@),
        ensures
            pointer == Ptr::<'a, FScriptSparseArray>::to(
                self.member("FScriptSet"@, "Elements"@),
                self.ctx,
            ),
    {
        let offset: usize = self.ctx().struct_member("FScriptSet", "Elements");
        self.byte_offset(offset).cast()
    }
}

/// A map; its pairs stand in a set.
#[derive(Debug, Clone, Copy)]
pub struct FScriptMap;

impl<'a> Ptr<'a, FScriptMap> {
    /// The pairs.
    pub fn pairs(&self) -> (pointer: Ptr<'a, FScriptSet>)
        requires
            self.has_member("FScriptMap"@, "Pairs"@),
        ensures
            pointer == Ptr::<'a, FScriptSet>::to(
                self.member("FScriptMap"@, "Pairs"@),
                self.ctx,
            ),
    {
        let offset: usize = self.ctx().struct_member("FScriptMap", "Pairs");
        self.byte_offset(offset).cast()
    }
}

} // verus!
