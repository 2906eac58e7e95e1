//! Arrays and the strings made of them.
use std::marker::PhantomData;
use vstd::prelude::*;
use crate::bytes::read_le_u32;
use crate::mem::{lemma_values_in, value_at, values_at, vec_model, Error, Fetch, FetchVec, Pod, Ptr};
use crate::task::{
    agrees, coherent, delivers, mapped, ready, Conversion, Mapped, Memory, Progress, Request, Task,
};
use crate::text::{
    decode_narrow, decode_wide, text_model, utf16_keeps_nul_out, utf16_text, utf8_text,
};

verus! {

/// How an array of `T` stores its elements.
pub trait TAlloc<T> {
    /// The part of the array that leads to the elements.
    type ForElementType: TAllocImpl<T>;
}

/// The part of an array that leads to its elements. It starts with the pointer to the first.
pub trait TAllocImpl<T>: Sized {
    /// How many bytes it takes in the target.
    spec fn size() -> u64;

    /// How many bytes it takes in the target.
    fn size_of() -> (size: u64)
        ensures
            size == Self::size(),
            size % 4 == 0,
    ;

    /// Reads the pointer to the first element.
    fn data<'a>(this: &Ptr<'a, Self>) -> (progress: Progress<
        Fetch<'a, Option<Ptr<'a, T>>>,
        Result<Option<Ptr<'a, T>>, Error>,
    >)
        ensures
            progress == Progress::<
                Fetch<'a, Option<Ptr<'a, T>>>,
                Result<Option<Ptr<'a, T>>, Error>,
            >::Waiting(Fetch { from: Ptr::to(this.address, this.ctx) }),
    ;
}

/// Stores elements on the heap, indexed by integers of `N` bits.
#[derive(Debug, Clone, Copy)]
pub struct TSizedHeapAllocator<const N: usize>;

impl<const N: usize, T> TAlloc<T> for TSizedHeapAllocator<N> {
    type ForElementType = THeapAlloc_ForElementType<N, T>;
}

/// A pointer to elements on the heap.
#[allow(non_camel_case_types)]
#[derive(Debug)]
pub struct THeapAlloc_ForElementType<const N: usize, T> {
    /// The address of the first element, or zero.
    pub data: u64,
    /// The type of the elements.
    pub element: PhantomData<T>,
}

impl<const N: usize, T> Clone for THeapAlloc_ForElementType<N, T> {
    fn clone(&self) -> (copy: Self)
        ensures
            copy == *self,
    {
        *self
    }
}

impl<const N: usize, T> Copy for THeapAlloc_ForElementType<N, T> {

}

impl<const N: usize, T> TAllocImpl<T> for THeapAlloc_ForElementType<N, T> {
    open spec fn size() -> u64 {
        8
    }

    fn size_of() -> (size: u64) {
        8
    }

    fn data<'a>(this: &Ptr<'a, Self>) -> (progress: Progress<
        Fetch<'a, Option<Ptr<'a, T>>>,
        Result<Option<Ptr<'a, T>>, Error>,
    >) {
        this.cast::<Option<Ptr<'a, T>>>().read()
    }
}

/// An array: what leads to the elements, how many there are, and how many there is room for.
#[derive(Debug)]
pub struct TArray<T, A: TAlloc<T> = TSizedHeapAllocator<32>> {
    /// What leads to the elements.
    pub data: A::ForElementType,
    /// How many elements there are.
    pub num: u32,
    /// How many there is room for.
    pub max: u32,
}

impl<T, A: TAlloc<T>> Clone for TArray<T, A> where A::ForElementType: Copy {
    fn clone(&self) -> (copy: Self)
        ensures
            copy == *self,
    {
        *self
    }
}

impl<T, A: TAlloc<T>> Copy for TArray<T, A> where A::ForElementType: Copy {

}

/// A string in UTF-16 that ends at the first zero unit, or at the end of the array.
#[derive(Debug, Clone, Copy)]
pub struct FString(pub TArray<u16>);

/// A string in UTF-8.
#[derive(Debug, Clone, Copy)]
pub struct FUtf8String(pub TArray<u16>);

impl<'a, T, A: TAlloc<T>> Ptr<'a, TArray<T, A>> {
    /// Whether the array lies in the address space.
    pub open spec fn is_array(self) -> bool {
        self.address + A::ForElementType::size() <= u64::MAX
    }

    /// The address of the number of elements.
    pub open spec fn num(self) -> u64 {
        (self.address + A::ForElementType::size()) as u64
    }
}

/// The pointer to the elements of an array.
pub open spec fn array_data<'a, T, A: TAlloc<T>>(mem: Memory, array: Ptr<'a, TArray<T, A>>) -> Result<
    Option<Ptr<'a, T>>,
    Error,
> {
    value_at(mem, array.address, array.ctx)
}

/// A 32-bit count as a size.
pub open spec fn as_len(count: Result<u32, Error>) -> Result<usize, Error> {
    match count {
        Ok(count) => Ok(count as usize),
        Err(error) => Err(error),
    }
}

/// The number of elements of an array.
pub open spec fn array_len<'a, T, A: TAlloc<T>>(mem: Memory, array: Ptr<'a, TArray<T, A>>) -> Result<
    usize,
    Error,
> {
    as_len(value_at(mem, array.num(), array.ctx))
}

/// Turns a 32-bit count into a size.
pub struct ToLen;

impl<'a> Conversion<Fetch<'a, u32>> for ToLen {
    type Output = Result<usize, Error>;

    type Model = Result<usize, Error>;

    open spec fn model(output: Result<usize, Error>) -> Result<usize, Error> {
        output
    }

    open spec fn converted(&self, value: Result<u32, Error>) -> Result<usize, Error> {
        as_len(value)
    }

    fn convert(self, value: Result<u32, Error>) -> (output: Result<usize, Error>) {
        match value {
            Ok(count) => Ok(count as usize),
            Err(error) => Err(error),
        }
    }
}

impl<'a, T, A: TAlloc<T>> Ptr<'a, TArray<T, A>> {
    /// Reads the pointer to the elements.
    pub fn data(&self) -> (progress: Progress<
        Fetch<'a, Option<Ptr<'a, T>>>,
        Result<Option<Ptr<'a, T>>, Error>,
    >)
        ensures
            progress == Progress::<
                Fetch<'a, Option<Ptr<'a, T>>>,
                Result<Option<Ptr<'a, T>>, Error>,
            >::Waiting(Fetch { from: Ptr::to(self.address, self.ctx) }),
            ready(progress),
            forall|mem: Memory| #[trigger] delivers(progress, mem) == array_data(mem, *self),
    {
        let alloc = self.byte_offset(0).cast::<A::ForElementType>();
        A::ForElementType::data(&alloc)
    }

    /// Reads the number of elements.
    pub fn len(&self) -> (progress: Progress<
        Mapped<Fetch<'a, u32>, ToLen>,
        Result<usize, Error>,
    >)
        requires
            self.is_array(),
        ensures
            ready(progress),
            forall|mem: Memory| #[trigger] delivers(progress, mem) == array_len(mem, *self),
    {
        let num: Ptr<'a, u32> = Ptr {
            address: self.address + A::ForElementType::size_of(),
            ctx: self.ctx,
            target: PhantomData,
        };
        mapped(num.read(), ToLen)
    }
}

/// The elements of an array, by their addresses.
pub struct Elements<'a, T> {
    /// The pointer to the first, unless there is none.
    pub data: Option<Ptr<'a, T>>,
    /// How many there are.
    pub len: usize,
}

impl<'a, T: Pod<'a>> Elements<'a, T> {
    /// How many elements there are.
    pub fn len(&self) -> (len: usize)
        ensures
            len == self.len,
    {
        self.len
    }

    /// Whether there are no elements.
    pub fn is_empty(&self) -> (empty: bool)
        ensures
            empty == (self.len == 0),
    {
        self.len == 0
    }

    /// The pointer to an element.
    pub fn get(&self, index: usize) -> (pointer: Ptr<'a, T>)
        requires
            index < self.len,
            self.data matches Some(data) && data.address + index * T::size() <= u64::MAX,
        ensures
            pointer == Ptr::<'a, T>::to(
                (self.data->0.address + index * T::size()) as u64,
                self.data->0.ctx,
            ),
    {
        self.data.unwrap().offset(index)
    }
}

/// The elements of an array, as `data` leads to them and `num` counts them.
pub open spec fn values_behind<'a, T: Pod<'a>>(
    mem: Memory,
    data: Ptr<'a, T>,
    num: Ptr<'a, u32>,
) -> Result<Seq<T>, Error> {
    match value_at::<u32>(mem, num.address, num.ctx) {
        Ok(count) => values_at(mem, data.address, count as nat, data.ctx),
        Err(error) => Err(error),
    }
}

/// The elements of an array; there are none where it leads nowhere.
pub open spec fn array_values<'a, T: Pod<'a>, A: TAlloc<T>>(
    mem: Memory,
    array: Ptr<'a, TArray<T, A>>,
) -> Result<Seq<T>, Error> {
    match array_data(mem, array) {
        Ok(Some(data)) => values_behind(mem, data, Ptr::to(array.num(), array.ctx)),
        Ok(None) => Ok(Seq::empty()),
        Err(error) => Err(error),
    }
}

/// What the elements of an array are, by their addresses.
pub open spec fn array_elements<'a, T, A: TAlloc<T>>(
    mem: Memory,
    array: Ptr<'a, TArray<T, A>>,
) -> Result<Elements<'a, T>, Error> {
    match array_data(mem, array) {
        Ok(data) => match array_len(mem, array) {
            Ok(len) => Ok(Elements { data, len }),
            Err(error) => Err(error),
        },
        Err(error) => Err(error),
    }
}

/// Whether reading the element with an index, where `data` leads to the first, gives `value`.
pub open spec fn is_element<'a, T: Pod<'a>>(
    mem: Memory,
    data: Ptr<'a, T>,
    index: int,
    value: T,
) -> bool {
    &&& data.address + index * T::size() <= u64::MAX
    &&& value_at::<T>(mem, (data.address + index * T::size()) as u64, data.ctx) == Ok::<T, Error>(value)
}

/// In a memory that holds still, an array's elements read one by one are the elements read at
/// once, and as many.
pub proof fn elements_are_values<'a, T: Pod<'a>, A: TAlloc<T>>(
    mem: Memory,
    array: Ptr<'a, TArray<T, A>>,
    elements: Elements<'a, T>,
    values: Seq<T>,
    data: Ptr<'a, T>,
)
    requires
        coherent(mem),
        array_elements(mem, array) == Ok::<Elements<'a, T>, Error>(elements),
        array_values(mem, array) == Ok::<Seq<T>, Error>(values),
        elements.data == Some(data),
    ensures
        values.len() == elements.len,
        forall|i: int|
            0 <= i < values.len() ==> is_element(mem, data, i, #[trigger] values[i]),
{
    let size = T::size();
    T::size_is_small();
    if let Ok(found) = value_at::<u32>(mem, array.num(), array.ctx) {
        let whole = (found as nat * size) as u64;
        assert(found as nat * size <= 0xffff_ffff * 8) by (nonlinear_arith)
            requires
                found <= 0xffff_ffff,
                size <= 8,
        ;
        if let Some(bytes) = mem(data.address, whole) {
            lemma_values_in::<T>(bytes, found as nat, data.ctx);
            assert forall|i: int| 0 <= i < values.len() implies is_element(
                mem,
                data,
                i,
                #[trigger] values[i],
            ) by {
                assert(0 <= i * size && i * size + size <= whole) by (nonlinear_arith)
                    requires
                        0 <= i < found,
                        0 < size,
                        whole == found * size,
                ;
                assert(agrees(mem, data.address, whole, i * size, size));
                T::parsed_locally(bytes, i * size, data.ctx);
            }
        }
    }
}

/// What reading the elements of an array waits for.
pub enum ArrayStage<'a, T> {
    /// The pointer to the elements.
    Data { from: Ptr<'a, Option<Ptr<'a, T>>> },
    /// Their number.
    Len { data: Ptr<'a, T> },
    /// The elements.
    Values { fetch: FetchVec<'a, T> },
}

/// The read of the elements of an array.
pub struct ReadArray<'a, T> {
    /// Where the number of elements lies.
    pub num: Ptr<'a, u32>,
    /// What it waits for.
    pub stage: ArrayStage<'a, T>,
}

impl<'a, T: Pod<'a>> Task for ReadArray<'a, T> {
    type Output = Result<Vec<T>, Error>;

    type Model = Result<Seq<T>, Error>;

    open spec fn wf(&self) -> bool {
        self.stage matches ArrayStage::Values { fetch } ==> fetch.wf()
    }

    open spec fn asks(&self) -> Request {
        match self.stage {
            ArrayStage::Data { from } => Request { address: from.address, len: 8 },
            ArrayStage::Len { .. } => Request { address: self.num.address, len: 4 },
            ArrayStage::Values { fetch } => fetch.asks(),
        }
    }

    open spec fn model(output: Result<Vec<T>, Error>) -> Result<Seq<T>, Error> {
        vec_model(output)
    }

    open spec fn outcome(&self, mem: Memory) -> Result<Seq<T>, Error> {
        match self.stage {
            ArrayStage::Data { from } => match value_at::<Option<Ptr<'a, T>>>(
                mem,
                from.address,
                from.ctx,
            ) {
                Ok(Some(data)) => values_behind(mem, data, self.num),
                Ok(None) => Ok(Seq::empty()),
                Err(error) => Err(error),
            },
            ArrayStage::Len { data } => values_behind(mem, data, self.num),
            ArrayStage::Values { fetch } => fetch.outcome(mem),
        }
    }

    open spec fn budget(&self) -> nat {
        match self.stage {
            ArrayStage::Data { .. } => 3,
            ArrayStage::Len { .. } => 2,
            ArrayStage::Values { .. } => 1,
        }
    }

    fn request(&self) -> (request: Request) {
        match &self.stage {
            ArrayStage::Data { from } => Request { address: from.address, len: 8 },
            ArrayStage::Len { .. } => Request { address: self.num.address, len: 4 },
            ArrayStage::Values { fetch } => fetch.request(),
        }
    }

    fn resume(self, reply: Option<Vec<u8>>) -> (next: Progress<Self, Result<Vec<T>, Error>>) {
        let ReadArray { num, stage } = self;
        match stage {
            ArrayStage::Data { from } => {
                let bytes = match reply {
                    Some(bytes) => bytes,
                    None => {
                        return Progress::Done(Err(Error::ReadFailed));
                    },
                };
                match <Option<Ptr<'a, T>> as Pod<'a>>::parse(&bytes, 0, from.ctx) {
                    Ok(Some(data)) => Progress::Waiting(
                        ReadArray { num, stage: ArrayStage::Len { data } },
                    ),
                    Ok(None) => Progress::Done(Ok(Vec::new())),
                    Err(error) => Progress::Done(Err(error)),
                }
            },
            ArrayStage::Len { data } => {
                let bytes = match reply {
                    Some(bytes) => bytes,
                    None => {
                        return Progress::Done(Err(Error::ReadFailed));
                    },
                };
                let count: u32 = read_le_u32(&bytes, 0);
                let size: u64 = T::size_of();
                assert(count * size <= u64::MAX) by (nonlinear_arith)
                    requires
                        0 < size <= 8,
                ;
                Progress::Waiting(
                    ReadArray {
                        num,
                        stage: ArrayStage::Values {
                            fetch: FetchVec { from: data, count: count as usize },
                        },
                    },
                )
            },
            ArrayStage::Values { fetch } => match fetch.resume(reply) {
                Progress::Waiting(fetch) => Progress::Waiting(
                    ReadArray { num, stage: ArrayStage::Values { fetch } },
                ),
                Progress::Done(values) => Progress::Done(values),
            },
        }
    }
}

/// What finding the elements of an array waits for.
pub enum IterStage<'a, T> {
    /// The pointer to the elements.
    Data { from: Ptr<'a, Option<Ptr<'a, T>>> },
    /// Their number.
    Len { data: Option<Ptr<'a, T>> },
}

/// The search for the elements of an array.
pub struct IterArray<'a, T> {
    /// Where the number of elements lies.
    pub num: Ptr<'a, u32>,
    /// What it waits for.
    pub stage: IterStage<'a, T>,
}

impl<'a, T> IterArray<'a, T> {
    /// The elements, as `data` leads to them.
    pub open spec fn counted(&self, mem: Memory, data: Option<Ptr<'a, T>>) -> Result<
        Elements<'a, T>,
        Error,
    > {
        match as_len(value_at::<u32>(mem, self.num.address, self.num.ctx)) {
            Ok(len) => Ok(Elements { data, len }),
            Err(error) => Err(error),
        }
    }
}

impl<'a, T> Task for IterArray<'a, T> {
    type Output = Result<Elements<'a, T>, Error>;

    type Model = Result<Elements<'a, T>, Error>;

    open spec fn wf(&self) -> bool {
        true
    }

    open spec fn asks(&self) -> Request {
        match self.stage {
            IterStage::Data { from } => Request { address: from.address, len: 8 },
            IterStage::Len { .. } => Request { address: self.num.address, len: 4 },
        }
    }

    open spec fn model(output: Result<Elements<'a, T>, Error>) -> Result<Elements<'a, T>, Error> {
        output
    }

    open spec fn outcome(&self, mem: Memory) -> Result<Elements<'a, T>, Error> {
        match self.stage {
            IterStage::Data { from } => match value_at::<Option<Ptr<'a, T>>>(
                mem,
                from.address,
                from.ctx,
            ) {
                Ok(data) => self.counted(mem, data),
                Err(error) => Err(error),
            },
            IterStage::Len { data } => self.counted(mem, data),
        }
    }

    open spec fn budget(&self) -> nat {
        match self.stage {
            IterStage::Data { .. } => 2,
            IterStage::Len { .. } => 1,
        }
    }

    fn request(&self) -> (request: Request) {
        match &self.stage {
            IterStage::Data { from } => Request { address: from.address, len: 8 },
            IterStage::Len { .. } => Request { address: self.num.address, len: 4 },
        }
    }

    fn resume(self, reply: Option<Vec<u8>>) -> (next: Progress<Self, Result<Elements<'a, T>, Error>>) {
        let bytes = match reply {
            Some(bytes) => bytes,
            None => {
                return Progress::Done(Err(Error::ReadFailed));
            },
        };
        let IterArray { num, stage } = self;
        match stage {
            IterStage::Data { from } => match <Option<Ptr<'a, T>> as Pod<'a>>::parse(
                &bytes,
                0,
                from.ctx,
            ) {
                Ok(data) => Progress::Waiting(IterArray { num, stage: IterStage::Len { data } }),
                Err(error) => Progress::Done(Err(error)),
            },
            IterStage::Len { data } => Progress::Done(
                Ok(Elements { data, len: read_le_u32(&bytes, 0) as usize }),
            ),
        }
    }
}

impl<'a, T: Pod<'a>, A: TAlloc<T>> Ptr<'a, TArray<T, A>> {
    /// Reads the pointer to the elements and their number, which give the elements' addresses
    /// without a further read.
    pub fn iter(&self) -> (progress: Progress<IterArray<'a, T>, Result<Elements<'a, T>, Error>>)
        requires
            self.is_array(),
        ensures
            ready(progress),
            forall|mem: Memory| #[trigger] delivers(progress, mem) == array_elements(mem, *self),
    {
        let num: Ptr<'a, u32> = Ptr {
            address: self.address + A::ForElementType::size_of(),
            ctx: self.ctx,
            target: PhantomData,
        };
        match self.data() {
            Progress::Waiting(fetch) => Progress::Waiting(
                IterArray { num, stage: IterStage::Data { from: fetch.from } },
            ),
            Progress::Done(Ok(data)) => Progress::Waiting(
                IterArray { num, stage: IterStage::Len { data } },
            ),
            Progress::Done(Err(error)) => Progress::Done(Err(error)),
        }
    }

    /// Reads the elements.
    pub fn read_vec(&self) -> (progress: Progress<ReadArray<'a, T>, Result<Vec<T>, Error>>)
        requires
            self.is_array(),
        ensures
            ready(progress),
            forall|mem: Memory| #[trigger] delivers(progress, mem) == array_values(mem, *self),
    {
        let num: Ptr<'a, u32> = Ptr {
            address: self.address + A::ForElementType::size_of(),
            ctx: self.ctx,
            target: PhantomData,
        };
        match self.data() {
            Progress::Waiting(fetch) => Progress::Waiting(
                ReadArray { num, stage: ArrayStage::Data { from: fetch.from } },
            ),
            Progress::Done(Ok(Some(data))) => Progress::Waiting(
                ReadArray { num, stage: ArrayStage::Len { data } },
            ),
            Progress::Done(Ok(None)) => Progress::Done(Ok(Vec::new())),
            Progress::Done(Err(error)) => Progress::Done(Err(error)),
        }
    }
}

/// The units up to the first that is zero.
pub open spec fn until_nul(units: Seq<u16>) -> Seq<u16>
    decreases units.len(),
{
    if units.len() == 0 || units[0] == 0 {
        Seq::empty()
    } else {
        seq![units[0]] + until_nul(units.skip(1))
    }
}

/// The string that an array of units stands for.
pub open spec fn wide_string(units: Result<Seq<u16>, Error>) -> Result<Seq<char>, Error> {
    match units {
        Ok(units) => utf16_text(until_nul(units)),
        Err(error) => Err(error),
    }
}

/// The string that an array of bytes stands for.
pub open spec fn narrow_string(bytes: Result<Seq<u8>, Error>) -> Result<Seq<char>, Error> {
    match bytes {
        Ok(bytes) => utf8_text(bytes),
        Err(error) => Err(error),
    }
}

/// The string that an array of units stands for holds no zero character.
pub proof fn wide_string_ends_at_nul(units: Seq<u16>)
    ensures
        wide_string(Ok(units)) matches Ok(text) ==> !text.contains('\0'),
{
    lemma_until_nul(units);
    utf16_keeps_nul_out(until_nul(units));
}

/// No unit before the first zero is zero.
proof fn lemma_until_nul(units: Seq<u16>)
    ensures
        forall|i: int| 0 <= i < until_nul(units).len() ==> until_nul(units)[i] != 0,
    decreases units.len(),
{
    if units.len() > 0 && units[0] != 0 {
        lemma_until_nul(units.skip(1));
        assert forall|i: int| 0 <= i < until_nul(units).len() implies until_nul(units)[i] != 0 by {
            if i > 0 {
                assert(until_nul(units)[i] == until_nul(units.skip(1))[i - 1]);
            }
        }
    }
}

/// Turns units of UTF-16, up to the first that is zero, into a string.
pub struct FromWide;

impl<'a> Conversion<ReadArray<'a, u16>> for FromWide {
    type Output = Result<String, Error>;

    type Model = Result<Seq<char>, Error>;

    open spec fn model(output: Result<String, Error>) -> Result<Seq<char>, Error> {
        text_model(output)
    }

    open spec fn converted(&self, value: Result<Seq<u16>, Error>) -> Result<Seq<char>, Error> {
        wide_string(value)
    }

    fn convert(self, value: Result<Vec<u16>, Error>) -> (output: Result<String, Error>) {
        let units = match value {
            Ok(units) => units,
            Err(error) => {
                return Err(error);
            },
        };
        let mut text: Vec<u16> = Vec::new();
        assert(units@.skip(0) =~= units@);
        while text.len() < units.len() && units[text.len()] != 0
            invariant
                text@.len() <= units@.len(),
                until_nul(units@) == text@ + until_nul(units@.skip(text@.len() as int)),
            decreases units@.len() - text@.len(),
        {
            let ghost seen = text@;
            let unit: u16 = units[text.len()];
            text.push(unit);
            assert(units@.skip(seen.len() as int).skip(1) =~= units@.skip(text@.len() as int));
            assert(text@ + until_nul(units@.skip(text@.len() as int)) =~= seen + (seq![unit]
                + until_nul(units@.skip(text@.len() as int))));
        }
        assert(text@ + Seq::<u16>::empty() =~= text@);
        decode_wide(&text)
    }
}

/// Turns bytes of UTF-8 into a string.
pub struct FromNarrow;

impl<'a> Conversion<ReadArray<'a, u8>> for FromNarrow {
    type Output = Result<String, Error>;

    type Model = Result<Seq<char>, Error>;

    open spec fn model(output: Result<String, Error>) -> Result<Seq<char>, Error> {
        text_model(output)
    }

    open spec fn converted(&self, value: Result<Seq<u8>, Error>) -> Result<Seq<char>, Error> {
        narrow_string(value)
    }

    fn convert(self, value: Result<Vec<u8>, Error>) -> (output: Result<String, Error>) {
        match value {
            Ok(bytes) => decode_narrow(bytes),
            Err(error) => Err(error),
        }
    }
}

impl<'a> Ptr<'a, FString> {
    /// The array of units that the string is.
    pub open spec fn array(self) -> Ptr<'a, TArray<u16>> {
        Ptr::to(self.address, self.ctx)
    }

    /// Reads the string.
    pub fn read(&self) -> (progress: Progress<
        Mapped<ReadArray<'a, u16>, FromWide>,
        Result<String, Error>,
    >)
        requires
            self.array().is_array(),
        ensures
            ready(progress),
            forall|mem: Memory| #[trigger]
                delivers(progress, mem) == wide_string(array_values(mem, self.array())),
    {
        let array = self.cast::<TArray<u16>>();
        mapped(array.read_vec(), FromWide)
    }
}

impl<'a> Ptr<'a, FUtf8String> {
    /// The array of bytes that the string is.
    pub open spec fn array(self) -> Ptr<'a, TArray<u8>> {
        Ptr::to(self.address, self.ctx)
    }

    /// Reads the string.
    pub fn read(&self) -> (progress: Progress<
        Mapped<ReadArray<'a, u8>, FromNarrow>,
        Result<String, Error>,
    >)
        requires
            self.array().is_array(),
        ensures
            ready(progress),
            forall|mem: Memory| #[trigger]
                delivers(progress, mem) == narrow_string(array_values(mem, self.array())),
    {
        let array = self.cast::<TArray<u8>>();
        mapped(array.read_vec(), FromNarrow)
    }
}

} // verus!
