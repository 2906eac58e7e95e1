//! Typed pointers into the target and the values they lead to.
use std::marker::PhantomData;
use vstd::prelude::*;
use crate::bytes::{
    as_signed, le_u16, le_u32, le_u64, read_le_u16, read_le_u32, read_le_u64, to_signed,
};
use crate::task::{delivers, ready, Memory, Progress, Request, Task};

verus! {

/// Why a computation on the target's memory failed.
#[derive(Clone, Copy, Debug, PartialEq, Eq, Structural)]
pub enum Error {
    /// The target refused a read.
    ReadFailed,
    /// A pointer that has to lead somewhere is null.
    NullPointer,
    /// Text is not UTF-8.
    InvalidUtf8,
    /// Text is not UTF-16.
    InvalidUtf16,
    /// An address computation leaves the 64-bit address space.
    AddressOverflow,
    /// A sparse array whose elements are asked for has none.
    MissingElements,
}

/// Where a member lies within an engine structure.
#[derive(Debug)]
pub struct Member {
    /// The structure's name.
    pub owner: String,
    /// The member's name.
    pub name: String,
    /// Its distance in bytes from the start of the structure.
    pub offset: usize,
}

/// What is known of the target before any of its memory is read.
#[derive(Debug)]
pub struct Ctx {
    /// The address of the name pool.
    pub fnamepool: u64,
    /// Whether names keep the case they were written in.
    pub case_preserving: bool,
    /// The engine's major and minor version.
    pub version: (u16, u16),
    /// The layout of the engine's structures.
    pub members: Vec<Member>,
}

/// The offset of the first member of that name among `members`.
pub open spec fn offset_among(members: Seq<Member>, owner: Seq<char>, name: Seq<char>) -> Option<
    usize,
>
    decreases members.len(),
{
    if members.len() == 0 {
        None
    } else if members[0].owner@ == owner && members[0].name@ == name {
        Some(members[0].offset)
    } else {
        offset_among(members.drop_first(), owner, name)
    }
}

impl Ctx {
    /// The offset of a member, where the layout has it.
    pub open spec fn offset_of(self, owner: Seq<char>, name: Seq<char>) -> Option<usize> {
        offset_among(self.members@, owner, name)
    }

    /// Whether the layout has a member.
    pub open spec fn has(self, owner: Seq<char>, name: Seq<char>) -> bool {
        self.offset_of(owner, name) is Some
    }

    /// The offset of a member that the layout has.
    pub open spec fn at(self, owner: Seq<char>, name: Seq<char>) -> usize {
        self.offset_of(owner, name)->0
    }

    /// Whether the engine is older than 4.22, which brought the name pool in blocks.
    pub open spec fn is_legacy(self) -> bool {
        self.version.0 < 4 || (self.version.0 == 4 && self.version.1 < 22)
    }

    /// The engine's major and minor version.
    pub fn ue_version(&self) -> (version: (u16, u16))
        ensures
            version == self.version,
    {
        self.version
    }

    /// Whether the engine is older than 4.22.
    pub fn legacy(&self) -> (legacy: bool)
        ensures
            legacy == self.is_legacy(),
    {
        let (major, minor): (u16, u16) = self.ue_version();
        major < 4 || (major == 4 && minor < 22)
    }

    /// Looks a member up in the layout.
    pub fn find_member(&self, owner: &str, name: &str) -> (offset: Option<usize>)
        ensures
            offset == self.offset_of(owner@, name@),
    {
        let wanted_owner: String = owner.to_owned();
        let wanted_name: String = name.to_owned();
        let mut i: usize = 0;
        assert(self.members@.skip(0) =~= self.members@);
        while i < self.members.len()
            invariant
                i <= self.members@.len(),
                wanted_owner@ == owner@,
                wanted_name@ == name@,
                self.offset_of(owner@, name@) == offset_among(
                    self.members@.skip(i as int),
                    owner@,
                    name@,
                ),
            decreases self.members@.len() - i,
        {
            let member = &self.members[i];
            if member.owner == wanted_owner && member.name == wanted_name {
                return Some(member.offset);
            }
            assert(self.members@.skip(i as int).drop_first() =~= self.members@.skip(i + 1));
            i += 1;
        }
        None
    }

    /// The offset of a member of an engine structure.
    pub fn struct_member(&self, owner: &str, name: &str) -> (offset: usize)
        requires
            self.has(owner@, name@),
        ensures
            offset == self.at(owner@, name@),
    {
        self.find_member(owner, name).unwrap()
    }
}

/// The address `distance` bytes behind `address`.
pub open spec fn address_after(address: u64, distance: nat) -> Result<u64, Error> {
    if address + distance <= u64::MAX {
        Ok((address + distance) as u64)
    } else {
        Err(Error::AddressOverflow)
    }
}

/// Adds a distance in bytes to an address.
pub fn advance(address: u64, distance: u64) -> (next: Result<u64, Error>)
    ensures
        next == address_after(address, distance as nat),
{
    if address <= u64::MAX - distance {
        Ok(address + distance)
    } else {
        Err(Error::AddressOverflow)
    }
}

/// The answer of `mem` to a read, with a refusal as an error.
pub open spec fn read_bytes(mem: Memory, address: u64, len: u64) -> Result<Seq<u8>, Error> {
    match mem(address, len) {
        Some(bytes) => Ok(bytes),
        None => Err(Error::ReadFailed),
    }
}

/// The 16-bit integer at an address.
pub open spec fn read_u16(mem: Memory, address: u64) -> Result<u16, Error> {
    match read_bytes(mem, address, 2) {
        Ok(bytes) => Ok(le_u16(bytes, 0)),
        Err(error) => Err(error),
    }
}

/// The 32-bit integer at an address.
pub open spec fn read_u32(mem: Memory, address: u64) -> Result<u32, Error> {
    match read_bytes(mem, address, 4) {
        Ok(bytes) => Ok(le_u32(bytes, 0)),
        Err(error) => Err(error),
    }
}

/// The 64-bit integer at an address.
pub open spec fn read_u64(mem: Memory, address: u64) -> Result<u64, Error> {
    match read_bytes(mem, address, 8) {
        Ok(bytes) => Ok(le_u64(bytes, 0)),
        Err(error) => Err(error),
    }
}

/// The address held at an address, which must not be null.
pub open spec fn read_pointer(mem: Memory, address: u64) -> Result<u64, Error> {
    match read_u64(mem, address) {
        Ok(0) => Err(Error::NullPointer),
        Ok(target) => Ok(target),
        Err(error) => Err(error),
    }
}

/// The address of a `T` in the target.
pub struct Ptr<'a, T> {
    /// The address itself.
    pub address: u64,
    /// What is known of the target.
    pub ctx: &'a Ctx,
    /// The type of what lies there.
    pub target: PhantomData<T>,
}

impl<'a, T> Clone for Ptr<'a, T> {
    fn clone(&self) -> (copy: Self)
        ensures
            copy == *self,
    {
        *self
    }
}

impl<'a, T> Copy for Ptr<'a, T> {

}

impl<'a, T> Ptr<'a, T> {
    /// A pointer to `address`.
    pub open spec fn to(address: u64, ctx: &'a Ctx) -> Self {
        Ptr { address, ctx, target: PhantomData }
    }

    /// Whether the layout has a member of the structure here, at an address in the address space.
    pub open spec fn has_member(self, owner: Seq<char>, name: Seq<char>) -> bool {
        self.ctx.has(owner, name) && self.address + self.ctx.at(owner, name) <= u64::MAX
    }

    /// The address of a member of the structure here.
    pub open spec fn member(self, owner: Seq<char>, name: Seq<char>) -> u64 {
        (self.address + self.ctx.at(owner, name)) as u64
    }

    /// A pointer to `address`, unless that is null.
    pub fn new(address: u64, ctx: &'a Ctx) -> (pointer: Result<Self, Error>)
        ensures
            pointer == if address == 0 {
                Err::<Self, Error>(Error::NullPointer)
            } else {
                Ok(Self::to(address, ctx))
            },
    {
        if address == 0 {
            Err(Error::NullPointer)
        } else {
            Ok(Ptr { address, ctx, target: PhantomData })
        }
    }

    /// The address.
    pub fn address(&self) -> (address: u64)
        ensures
            address == self.address,
    {
        self.address
    }

    /// What is known of the target.
    pub fn ctx(&self) -> (ctx: &'a Ctx)
        ensures
            ctx == self.ctx,
    {
        self.ctx
    }

    /// The pointer to the same place as a pointer to another type.
    pub fn cast<U>(&self) -> (pointer: Ptr<'a, U>)
        ensures
            pointer == Ptr::<'a, U>::to(self.address, self.ctx),
    {
        Ptr { address: self.address, ctx: self.ctx, target: PhantomData }
    }

    /// The pointer `n` bytes further.
    pub fn byte_offset(&self, n: usize) -> (pointer: Self)
        requires
            self.address + n <= u64::MAX,
        ensures
            pointer == Self::to((self.address + n) as u64, self.ctx),
    {
        Ptr { address: self.address + n as u64, ctx: self.ctx, target: PhantomData }
    }
}

/// A value that can be read out of the target's memory.
pub trait Pod<'a>: Sized {
    /// How many bytes it takes.
    spec fn size() -> u64;

    /// The value that the bytes from `at` on stand for.
    spec fn parsed(bytes: Seq<u8>, at: int, ctx: &'a Ctx) -> Result<Self, Error>;

    /// It takes some bytes, and not many.
    proof fn size_is_small()
        ensures
            0 < Self::size() <= 8,
    ;

    /// Only the bytes that it takes matter to the value.
    proof fn parsed_locally(bytes: Seq<u8>, at: int, ctx: &'a Ctx)
        requires
            0 <= at,
            at + Self::size() <= bytes.len(),
        ensures
            Self::parsed(bytes, at, ctx) == Self::parsed(
                bytes.subrange(at, at + Self::size()),
                0,
                ctx,
            ),
    ;

    /// How many bytes it takes.
    fn size_of() -> (size: u64)
        ensures
            size == Self::size(),
            0 < size <= 8,
    ;

    /// Reads the value that starts at `at`.
    fn parse(bytes: &Vec<u8>, at: usize, ctx: &'a Ctx) -> (value: Result<Self, Error>)
        requires
            at + Self::size() <= bytes.len(),
        ensures
            value == Self::parsed(bytes@, at as int, ctx),
    ;
}

impl<'a> Pod<'a> for u8 {
    open spec fn size() -> u64 {
        1
    }

    open spec fn parsed(bytes: Seq<u8>, at: int, ctx: &'a Ctx) -> Result<u8, Error> {
        Ok(bytes[at])
    }

    proof fn size_is_small() {
    }

    proof fn parsed_locally(bytes: Seq<u8>, at: int, ctx: &'a Ctx) {
    }

    fn size_of() -> (size: u64) {
        1
    }

    fn parse(bytes: &Vec<u8>, at: usize, ctx: &'a Ctx) -> (value: Result<u8, Error>) {
        Ok(bytes[at])
    }
}

impl<'a> Pod<'a> for u16 {
    open spec fn size() -> u64 {
        2
    }

    open spec fn parsed(bytes: Seq<u8>, at: int, ctx: &'a Ctx) -> Result<u16, Error> {
        Ok(le_u16(bytes, at))
    }

    proof fn size_is_small() {
    }

    proof fn parsed_locally(bytes: Seq<u8>, at: int, ctx: &'a Ctx) {
    }

    fn size_of() -> (size: u64) {
        2
    }

    fn parse(bytes: &Vec<u8>, at: usize, ctx: &'a Ctx) -> (value: Result<u16, Error>) {
        Ok(read_le_u16(bytes, at))
    }
}

impl<'a> Pod<'a> for u32 {
    open spec fn size() -> u64 {
        4
    }

    open spec fn parsed(bytes: Seq<u8>, at: int, ctx: &'a Ctx) -> Result<u32, Error> {
        Ok(le_u32(bytes, at))
    }

    proof fn size_is_small() {
    }

    proof fn parsed_locally(bytes: Seq<u8>, at: int, ctx: &'a Ctx) {
    }

    fn size_of() -> (size: u64) {
        4
    }

    fn parse(bytes: &Vec<u8>, at: usize, ctx: &'a Ctx) -> (value: Result<u32, Error>) {
        Ok(read_le_u32(bytes, at))
    }
}

impl<'a> Pod<'a> for i32 {
    open spec fn size() -> u64 {
        4
    }

    open spec fn parsed(bytes: Seq<u8>, at: int, ctx: &'a Ctx) -> Result<i32, Error> {
        Ok(as_signed(le_u32(bytes, at)))
    }

    proof fn size_is_small() {
    }

    proof fn parsed_locally(bytes: Seq<u8>, at: int, ctx: &'a Ctx) {
    }

    fn size_of() -> (size: u64) {
        4
    }

    fn parse(bytes: &Vec<u8>, at: usize, ctx: &'a Ctx) -> (value: Result<i32, Error>) {
        Ok(to_signed(read_le_u32(bytes, at)))
    }
}

impl<'a> Pod<'a> for u64 {
    open spec fn size() -> u64 {
        8
    }

    open spec fn parsed(bytes: Seq<u8>, at: int, ctx: &'a Ctx) -> Result<u64, Error> {
        Ok(le_u64(bytes, at))
    }

    proof fn size_is_small() {
    }

    proof fn parsed_locally(bytes: Seq<u8>, at: int, ctx: &'a Ctx) {
    }

    fn size_of() -> (size: u64) {
        8
    }

    fn parse(bytes: &Vec<u8>, at: usize, ctx: &'a Ctx) -> (value: Result<u64, Error>) {
        Ok(read_le_u64(bytes, at))
    }
}

/// A pointer in memory; a null one is an error.
impl<'a, T> Pod<'a> for Ptr<'a, T> {
    open spec fn size() -> u64 {
        8
    }

    open spec fn parsed(bytes: Seq<u8>, at: int, ctx: &'a Ctx) -> Result<Ptr<'a, T>, Error> {
        if le_u64(bytes, at) == 0 {
            Err(Error::NullPointer)
        } else {
            Ok(Ptr::to(le_u64(bytes, at), ctx))
        }
    }

    proof fn size_is_small() {
    }

    proof fn parsed_locally(bytes: Seq<u8>, at: int, ctx: &'a Ctx) {
    }

    fn size_of() -> (size: u64) {
        8
    }

    fn parse(bytes: &Vec<u8>, at: usize, ctx: &'a Ctx) -> (value: Result<Ptr<'a, T>, Error>) {
        Ptr::new(read_le_u64(bytes, at), ctx)
    }
}

/// A pointer in memory that may be null.
impl<'a, T> Pod<'a> for Option<Ptr<'a, T>> {
    open spec fn size() -> u64 {
        8
    }

    open spec fn parsed(bytes: Seq<u8>, at: int, ctx: &'a Ctx) -> Result<
        Option<Ptr<'a, T>>,
        Error,
    > {
        if le_u64(bytes, at) == 0 {
            Ok(None)
        } else {
            Ok(Some(Ptr::to(le_u64(bytes, at), ctx)))
        }
    }

    proof fn size_is_small() {
    }

    proof fn parsed_locally(bytes: Seq<u8>, at: int, ctx: &'a Ctx) {
    }

    fn size_of() -> (size: u64) {
        8
    }

    fn parse(bytes: &Vec<u8>, at: usize, ctx: &'a Ctx) -> (value: Result<
        Option<Ptr<'a, T>>,
        Error,
    >) {
        match Ptr::new(read_le_u64(bytes, at), ctx) {
            Ok(pointer) => Ok(Some(pointer)),
            Err(_) => Ok(None),
        }
    }
}

/// The value at an address.
pub open spec fn value_at<'a, T: Pod<'a>>(mem: Memory, address: u64, ctx: &'a Ctx) -> Result<
    T,
    Error,
> {
    match read_bytes(mem, address, T::size()) {
        Ok(bytes) => T::parsed(bytes, 0, ctx),
        Err(error) => Err(error),
    }
}

/// The first `n` of the values that stand one behind the other in `bytes`, or the error of the
/// first that has one.
pub open spec fn values_in<'a, T: Pod<'a>>(bytes: Seq<u8>, n: nat, ctx: &'a Ctx) -> Result<
    Seq<T>,
    Error,
>
    decreases n,
{
    if n == 0 {
        Ok(Seq::empty())
    } else {
        match values_in::<T>(bytes, (n - 1) as nat, ctx) {
            Ok(values) => match T::parsed(bytes, (n - 1) * T::size(), ctx) {
                Ok(value) => Ok(values.push(value)),
                Err(error) => Err(error),
            },
            Err(error) => Err(error),
        }
    }
}

/// Each of the values that stand in `bytes` is what the bytes at its place stand for.
pub(crate) proof fn lemma_values_in<'a, T: Pod<'a>>(bytes: Seq<u8>, n: nat, ctx: &'a Ctx)
    ensures
        values_in::<T>(bytes, n, ctx) matches Ok(values) ==> {
            &&& values.len() == n
            &&& forall|i: int|
                0 <= i < n ==> T::parsed(bytes, i * T::size(), ctx) == Ok::<T, Error>(
                    #[trigger] values[i],
                )
        },
    decreases n,
{
    if n > 0 {
        lemma_values_in::<T>(bytes, (n - 1) as nat, ctx);
    }
}

/// The `n` values from an address on.
pub open spec fn values_at<'a, T: Pod<'a>>(
    mem: Memory,
    address: u64,
    n: nat,
    ctx: &'a Ctx,
) -> Result<Seq<T>, Error> {
    match read_bytes(mem, address, (n * T::size()) as u64) {
        Ok(bytes) => values_in(bytes, n, ctx),
        Err(error) => Err(error),
    }
}

/// The view of a vector that may be missing.
pub open spec fn vec_model<T>(output: Result<Vec<T>, Error>) -> Result<Seq<T>, Error> {
    match output {
        Ok(values) => Ok(values@),
        Err(error) => Err(error),
    }
}

/// The read of one value.
pub struct Fetch<'a, T> {
    /// Where the value lies.
    pub from: Ptr<'a, T>,
}

impl<'a, T: Pod<'a>> Task for Fetch<'a, T> {
    type Output = Result<T, Error>;

    type Model = Result<T, Error>;

    open spec fn wf(&self) -> bool {
        true
    }

    open spec fn asks(&self) -> Request {
        Request { address: self.from.address, len: T::size() }
    }

    open spec fn model(output: Result<T, Error>) -> Result<T, Error> {
        output
    }

    open spec fn outcome(&self, mem: Memory) -> Result<T, Error> {
        value_at(mem, self.from.address, self.from.ctx)
    }

    open spec fn budget(&self) -> nat {
        1
    }

    fn request(&self) -> (request: Request) {
        Request { address: self.from.address, len: T::size_of() }
    }

    fn resume(self, reply: Option<Vec<u8>>) -> (next: Progress<Self, Result<T, Error>>) {
        match reply {
            Some(bytes) => Progress::Done(T::parse(&bytes, 0, self.from.ctx)),
            None => Progress::Done(Err(Error::ReadFailed)),
        }
    }
}

/// The read of values that stand one behind the other.
pub struct FetchVec<'a, T> {
    /// Where the first value lies.
    pub from: Ptr<'a, T>,
    /// How many there are.
    pub count: usize,
}

impl<'a, T: Pod<'a>> Task for FetchVec<'a, T> {
    type Output = Result<Vec<T>, Error>;

    type Model = Result<Seq<T>, Error>;

    open spec fn wf(&self) -> bool {
        self.count * T::size() <= u64::MAX
    }

    open spec fn asks(&self) -> Request {
        Request { address: self.from.address, len: (self.count * T::size()) as u64 }
    }

    open spec fn model(output: Result<Vec<T>, Error>) -> Result<Seq<T>, Error> {
        vec_model(output)
    }

    open spec fn outcome(&self, mem: Memory) -> Result<Seq<T>, Error> {
        values_at(mem, self.from.address, self.count as nat, self.from.ctx)
    }

    open spec fn budget(&self) -> nat {
        1
    }

    fn request(&self) -> (request: Request) {
        Request { address: self.from.address, len: self.count as u64 * T::size_of() }
    }

    fn resume(self, reply: Option<Vec<u8>>) -> (next: Progress<Self, Result<Vec<T>, Error>>) {
        let bytes = match reply {
            Some(bytes) => bytes,
            None => {
                return Progress::Done(Err(Error::ReadFailed));
            },
        };
        let size = T::size_of();
        let mut values: Vec<T> = Vec::new();
        let mut at: usize = 0;
        let mut i: usize = 0;
        while i < self.count
            invariant
                i <= self.count,
                size == T::size(),
                0 < size <= 8,
                at == i * size,
                bytes@.len() == self.count * size,
                values_in::<T>(bytes@, i as nat, self.from.ctx) == Ok::<Seq<T>, Error>(values@),
                self.wf(),
                reply == Some(bytes),
            decreases self.count - i,
        {
            assert((i + 1) * size == at + size && (i + 1) * size <= self.count * size)
                by (nonlinear_arith)
                requires
                    at == i * size,
                    i < self.count,
            ;
            assert(at + size <= bytes.len());
            match T::parse(&bytes, at, self.from.ctx) {
                Ok(value) => {
                    values.push(value);
                },
                Err(error) => {
                    proof {
                        lemma_first_error::<T>(bytes@, (i + 1) as nat, self.count as nat, self.from.ctx);
                    }
                    return Progress::Done(Err(error));
                },
            }
            at += size as usize;
            i += 1;
        }
        Progress::Done(Ok(values))
    }
}

/// An error among the first `n` values is the error of any longer run.
proof fn lemma_first_error<'a, T: Pod<'a>>(bytes: Seq<u8>, n: nat, m: nat, ctx: &'a Ctx)
    requires
        n <= m,
        values_in::<T>(bytes, n, ctx) is Err,
    ensures
        values_in::<T>(bytes, m, ctx) == values_in::<T>(bytes, n, ctx),
    decreases m,
{
    if n < m {
        lemma_first_error::<T>(bytes, n, (m - 1) as nat, ctx);
    }
}

impl<'a, T: Pod<'a>> Ptr<'a, T> {
    /// The pointer `n` values further.
    pub fn offset(&self, n: usize) -> (pointer: Self)
        requires
            self.address + n * T::size() <= u64::MAX,
        ensures
            pointer == Self::to((self.address + n * T::size()) as u64, self.ctx),
    {
        let distance = n as u64 * T::size_of();
        Ptr { address: self.address + distance, ctx: self.ctx, target: PhantomData }
    }

    /// Reads the value.
    pub fn read(&self) -> (progress: Progress<Fetch<'a, T>, Result<T, Error>>)
        ensures
            progress == Progress::<Fetch<'a, T>, Result<T, Error>>::Waiting(
                Fetch { from: *self },
            ),
            ready(progress),
            forall|mem: Memory| #[trigger]
                delivers(progress, mem) == value_at::<T>(mem, self.address, self.ctx),
    {
        Progress::Waiting(Fetch { from: *self })
    }

    /// Reads `count` values that stand one behind the other.
    pub fn read_vec(&self, count: usize) -> (progress: Progress<
        FetchVec<'a, T>,
        Result<Vec<T>, Error>,
    >)
        requires
            count * T::size() <= u64::MAX,
        ensures
            ready(progress),
            forall|mem: Memory| #[trigger]
                delivers(progress, mem) == values_at::<T>(
                    mem,
                    self.address,
                    count as nat,
                    self.ctx,
                ),
    {
        Progress::Waiting(FetchVec { from: *self, count })
    }
}

} // verus!
