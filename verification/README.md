# jmap_dumper

Reads the containers, the name pool and the virtual tables of an Unreal Engine process out of its
memory. The library is verified with Verus.

No function of the library performs a read. Each that needs the target's memory returns a task: it
says which bytes it needs next and is resumed with them. Its contract says what it ends with for
every memory that gives the replies it was resumed with.

- `src/task.rs`: tasks, and a driver for them
- `src/bytes.rs`, `src/text.rs`: integers and text as the target stores them
- `src/mem.rs`: typed pointers, and what is known of the target's layout
- `src/arrays.rs`: `TArray`, `FString`, `FUtf8String`
- `src/names.rs`: `FName` and the lookup of a name
- `src/pool.rs`, `src/pool_laws.rs`: the extraction of all names; that each is the name a lookup
  gives, and that none is missed
- `src/script.rs`: the containers without an element type
- `src/vtable.rs`, `src/trimming.rs`: the virtual tables of classes; what trimming does to them
- `app/`: asynchronous reads of a live target
