//! What it means that a task ends with something.
use std::collections::BTreeMap;
use vstd::prelude::*;
use crate::arrays::{Elements, FromNarrow, FromWide, IterArray, ReadArray, ToLen};
use crate::mem::{Error, Fetch, FetchVec, Pod, Ptr};
use crate::names::{ReadFName, ResolveFName};
use crate::pool::ExtractFNames;
use crate::script::{ElementAt, ReadBit, ToIndex};
use crate::task::{
    delivers, fits, reads_from, ready, reply_view, serves, Mapped, Memory, Progress, Request, Task,
};
use crate::vtable::{AnalyzeVtables, AnalyzedVtables, VtableWalk};

verus! {

/// A task that is over delivers its output, whatever the memory; one that waits delivers what it
/// ends with.
pub proof fn task_delivers_its_outcome<T: Task>(waiting: T, output: T::Output, mem: Memory)
    ensures
        delivers(Progress::<T, T::Output>::Done(output), mem) == T::model(output),
        delivers(Progress::<T, T::Output>::Waiting(waiting), mem) == waiting.outcome(mem),
        ready(Progress::<T, T::Output>::Done(output)),
        ready(Progress::<T, T::Output>::Waiting(waiting)) <==> waiting.wf(),
{
}

/// A reply stands for its bytes, and answers a request if it has as many as were asked for; a
/// refusal answers every request.
pub proof fn reply_stands_for_its_bytes(bytes: Vec<u8>, request: Request)
    ensures
        reply_view(Some(bytes)) == Some(bytes@),
        reply_view(None) is None,
        fits(Some(bytes), request) <==> bytes@.len() == request.len,
        fits(None, request),
{
}

/// A function reads from a memory if each of its replies is what the memory holds there, and it
/// serves if it takes every request and replies with as many bytes as asked for.
pub proof fn replies_are_what_memory_holds<F: Fn(u64, u64) -> Option<Vec<u8>>>(
    read: F,
    mem: Memory,
)
    ensures
        (forall|address: u64, len: u64, reply: Option<Vec<u8>>| #[trigger]
            read.ensures((address, len), reply) ==> match reply {
                Some(bytes) => mem(address, len) == Some(bytes@),
                None => mem(address, len) is None,
            }) ==> reads_from(read, mem),
        (forall|address: u64, len: u64| #[trigger] read.requires((address, len))) && (forall|
            address: u64,
            len: u64,
            bytes: Vec<u8>,
        | #[trigger]
            read.ensures((address, len), Some(bytes)) ==> bytes@.len() == len) ==> serves(read),
{
}

/// Whether the model of an output that is a string or an error is its characters or the error.
pub open spec fn is_text_of(model: Result<Seq<char>, Error>, output: Result<String, Error>) -> bool {
    match output {
        Ok(text) => model == Ok::<Seq<char>, Error>(text@),
        Err(error) => model == Err::<Seq<char>, Error>(error),
    }
}

/// A string that a task ends with stands for its characters, and an error for itself.
pub proof fn texts_stand_for_themselves<'a>(output: Result<String, Error>)
    ensures
        is_text_of(<ResolveFName<'a> as Task>::model(output), output),
        is_text_of(<ReadFName<'a> as Task>::model(output), output),
        is_text_of(<Mapped<ReadArray<'a, u16>, FromWide> as Task>::model(output), output),
        is_text_of(<Mapped<ReadArray<'a, u8>, FromNarrow> as Task>::model(output), output),
{
}

/// Numbers, bits, pointers and other single values stand for themselves.
pub proof fn values_stand_for_themselves<'a, T: Pod<'a>>(
    value: Result<T, Error>,
    count: Result<usize, Error>,
    bit: Result<bool, Error>,
    pointer: Result<Ptr<'a, u8>, Error>,
    elements: Result<Elements<'a, T>, Error>,
)
    ensures
        <Fetch<'a, T> as Task>::model(value) == value,
        <Mapped<Fetch<'a, u32>, ToLen> as Task>::model(count) == count,
        <Mapped<Fetch<'a, i32>, ToIndex> as Task>::model(count) == count,
        <ReadBit<'a> as Task>::model(bit) == bit,
        <Mapped<Fetch<'a, Option<Ptr<'a, u8>>>, ElementAt> as Task>::model(pointer) == pointer,
        <IterArray<'a, T> as Task>::model(elements) == elements,
{
}

/// Values that a task ends with stand for themselves one by one, and an error for itself.
pub proof fn all_values_stand_for_themselves<'a, T: Pod<'a>>(
    output: Result<Vec<T>, Error>,
    functions: Vec<u64>,
)
    ensures
        match output {
            Ok(values) => {
                &&& <FetchVec<'a, T> as Task>::model(output) == Ok::<Seq<T>, Error>(values@)
                &&& <ReadArray<'a, T> as Task>::model(output) == Ok::<Seq<T>, Error>(values@)
            },
            Err(error) => {
                &&& <FetchVec<'a, T> as Task>::model(output) == Err::<Seq<T>, Error>(error)
                &&& <ReadArray<'a, T> as Task>::model(output) == Err::<Seq<T>, Error>(error)
            },
        },
        <VtableWalk as Task>::model(functions) == functions@,
{
}

/// Names stand for their characters under their indices, and an error for itself.
pub proof fn names_stand_for_themselves<'a>(
    output: Result<BTreeMap<u32, String>, Error>,
    index: u32,
)
    ensures
        match output {
            Ok(names) => <ExtractFNames<'a> as Task>::model(output) matches Ok(model) && {
                &&& model.contains_key(index) <==> names@.contains_key(index)
                &&& names@.contains_key(index) ==> model[index] == names@[index]@
            },
            Err(error) => <ExtractFNames<'a> as Task>::model(output) == Err::<
                Map<u32, Seq<char>>,
                Error,
            >(error),
        },
{
}

/// What the analysis ends with stands for its parts.
pub proof fn analysis_stands_for_its_parts(output: AnalyzedVtables, vtable: u64)
    ensures
        ({
            let model = <AnalyzeVtables as Task>::model(output);
            &&& model.objects == output.objects@
            &&& model.conflicts == output.conflicts@
            &&& model.vtables.contains_key(vtable) <==> output.vtables@.contains_key(vtable)
            &&& output.vtables@.contains_key(vtable) ==> model.vtables[vtable]
                == output.vtables@[vtable]@
        }),
{
}

} // verus!
