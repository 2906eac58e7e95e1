//! Computations that need the memory of a target and leave the reading to their caller.
use vstd::prelude::*;

verus! {

/// A target's memory, as the answers it gives: the bytes of a read of some length at some
/// address, or nothing where it refuses the read.
pub type Memory = spec_fn(u64, u64) -> Option<Seq<u8>>;

/// A read that a task waits for.
#[derive(Clone, Copy, Debug, PartialEq, Eq, Structural)]
pub struct Request {
    /// Where the bytes start.
    pub address: u64,
    /// How many bytes are wanted.
    pub len: u64,
}

/// Where a task stands.
pub enum Progress<S, O> {
    /// It waits for the read that `S` asks for.
    Waiting(S),
    /// It is over.
    Done(O),
}

/// The bytes of a reply.
pub open spec fn reply_view(reply: Option<Vec<u8>>) -> Option<Seq<u8>> {
    match reply {
        Some(bytes) => Some(bytes@),
        None => None,
    }
}

/// A reply answers a request with as many bytes as were asked for, or refuses it.
pub open spec fn fits(reply: Option<Vec<u8>>, request: Request) -> bool {
    reply matches Some(bytes) ==> bytes@.len() == request.len
}

/// A computation that waits for a read.
pub trait Task: Sized {
    /// What the computation ends with.
    type Output;

    /// The mathematical counterpart of the output.
    type Model;

    /// The invariant of a waiting task.
    spec fn wf(&self) -> bool;

    /// The read it waits for.
    spec fn asks(&self) -> Request;

    /// What an output stands for.
    spec fn model(output: Self::Output) -> Self::Model;

    /// What it ends with when `mem` answers every read from here on.
    spec fn outcome(&self, mem: Memory) -> Self::Model;

    /// A bound on the number of reads that are left.
    spec fn budget(&self) -> nat;

    /// The read it waits for.
    fn request(&self) -> (request: Request)
        requires
            self.wf(),
        ensures
            request == self.asks(),
    ;

    /// Goes on with the reply to the read it waited for; `None` is a refused read.
    fn resume(self, reply: Option<Vec<u8>>) -> (next: Progress<Self, Self::Output>)
        requires
            self.wf(),
            fits(reply, self.asks()),
        ensures
            next matches Progress::Waiting(waiting) ==> waiting.wf() && waiting.budget()
                < self.budget(),
            forall|mem: Memory|
                mem(self.asks().address, self.asks().len) == reply_view(reply)
                    ==> #[trigger] self.outcome(mem) == match next {
                    Progress::Waiting(waiting) => waiting.outcome(mem),
                    Progress::Done(output) => Self::model(output),
                },
    ;
}

/// Whether a task that waits satisfies its invariant.
pub open spec fn ready<T: Task>(progress: Progress<T, T::Output>) -> bool {
    progress matches Progress::Waiting(waiting) ==> waiting.wf()
}

/// What a task ends with when `mem` answers every read from here on.
pub open spec fn delivers<T: Task>(progress: Progress<T, T::Output>, mem: Memory) -> T::Model {
    match progress {
        Progress::Waiting(waiting) => waiting.outcome(mem),
        Progress::Done(output) => T::model(output),
    }
}

/// Whether `read` can be called on every request and replies with as many bytes as asked for.
pub open spec fn serves<F: Fn(u64, u64) -> Option<Vec<u8>>>(read: F) -> bool {
    &&& forall|address: u64, len: u64| #[trigger] read.requires((address, len))
    &&& forall|address: u64, len: u64, reply: Option<Vec<u8>>|
        #[trigger] read.ensures((address, len), reply) ==> fits(reply, Request { address, len })
}

/// Whether every reply that `read` can give is the answer of `mem`.
pub open spec fn reads_from<F: Fn(u64, u64) -> Option<Vec<u8>>>(read: F, mem: Memory) -> bool {
    forall|address: u64, len: u64, reply: Option<Vec<u8>>| #[trigger]
        read.ensures((address, len), reply) ==> mem(address, len) == reply_view(reply)
}

/// Carries a task to its end, fetching each read with `read`.
pub fn run<T: Task, F: Fn(u64, u64) -> Option<Vec<u8>>>(
    start: Progress<T, T::Output>,
    read: F,
) -> (output: T::Output)
    requires
        ready(start),
        serves(read),
    ensures
        forall|mem: Memory|
            reads_from(read, mem) ==> T::model(output) == #[trigger] delivers(start, mem),
{
    let mut progress = start;
    loop
        invariant
            ready(progress),
            serves(read),
            forall|mem: Memory|
                reads_from(read, mem) ==> delivers(progress, mem) == #[trigger] delivers(
                    start,
                    mem,
                ),
        decreases
                match progress {
                    Progress::Waiting(waiting) => waiting.budget() + 1,
                    Progress::Done(_) => 0,
                },
    {
        match progress {
            Progress::Done(output) => {
                return output;
            },
            Progress::Waiting(waiting) => {
                let request = waiting.request();
                let reply = read(request.address, request.len);
                progress = waiting.resume(reply);
            },
        }
    }
}

/// What is done to the output of a task `T`.
pub trait Conversion<T: Task>: Sized {
    /// What comes out.
    type Output;

    /// The mathematical counterpart of what comes out.
    type Model;

    /// What an output stands for.
    spec fn model(output: Self::Output) -> Self::Model;

    /// What becomes of a value.
    spec fn converted(&self, value: T::Model) -> Self::Model;

    /// Converts an output of the task.
    fn convert(self, value: T::Output) -> (output: Self::Output)
        ensures
            Self::model(output) == self.converted(T::model(value)),
    ;
}

/// A task whose output is converted.
pub struct Mapped<T, C> {
    /// The task.
    pub task: T,
    /// The conversion.
    pub conversion: C,
}

impl<T: Task, C: Conversion<T>> Task for Mapped<T, C> {
    type Output = C::Output;

    type Model = C::Model;

    open spec fn wf(&self) -> bool {
        self.task.wf()
    }

    open spec fn asks(&self) -> Request {
        self.task.asks()
    }

    open spec fn model(output: C::Output) -> C::Model {
        C::model(output)
    }

    open spec fn outcome(&self, mem: Memory) -> C::Model {
        self.conversion.converted(self.task.outcome(mem))
    }

    open spec fn budget(&self) -> nat {
        self.task.budget()
    }

    fn request(&self) -> (request: Request) {
        self.task.request()
    }

    fn resume(self, reply: Option<Vec<u8>>) -> (next: Progress<Self, C::Output>) {
        match self.task.resume(reply) {
            Progress::Waiting(task) => Progress::Waiting(
                Mapped { task, conversion: self.conversion },
            ),
            Progress::Done(output) => Progress::Done(self.conversion.convert(output)),
        }
    }
}

/// Converts the output of a task once it is there.
pub fn mapped<T: Task, C: Conversion<T>>(progress: Progress<T, T::Output>, conversion: C) -> (result:
    Progress<Mapped<T, C>, C::Output>)
    requires
        ready(progress),
    ensures
        ready(result),
        forall|mem: Memory| #[trigger]
            delivers(result, mem) == conversion.converted(delivers(progress, mem)),
{
    match progress {
        Progress::Waiting(task) => Progress::Waiting(Mapped { task, conversion }),
        Progress::Done(output) => Progress::Done(conversion.convert(output)),
    }
}

/// Whether a read of part of a range agrees with the read of the whole: where the whole can be
/// read, it lies in the address space, has the length that was asked for, and the `part` bytes
/// from `at` on read back as that part of it.
pub open spec fn agrees(mem: Memory, address: u64, len: u64, at: int, part: u64) -> bool {
    mem(address, len) matches Some(bytes) ==> {
        &&& bytes.len() == len
        &&& address + len <= 0x1_0000_0000_0000_0000
        &&& 0 <= at && at + part <= len && address + at <= u64::MAX ==> mem(
            (address + at) as u64,
            part,
        ) == Some(bytes.subrange(at, at + part))
    }
}

/// Whether a memory holds bytes that stay the same from one read to the next.
pub open spec fn coherent(mem: Memory) -> bool {
    forall|address: u64, len: u64, at: int, part: u64| #[trigger]
        agrees(mem, address, len, at, part)
}

} // verus!
