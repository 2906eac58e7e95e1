//! The virtual tables of the target's classes.
use std::collections::BTreeMap;
use vstd::hash_map::StringHashMap;
use vstd::prelude::*;
use crate::bytes::{le_u64, read_le_u64};
use crate::task::{delivers, ready, reply_view, Memory, Progress, Request, Task};

verus! {

/// What kind of object an object is.
#[derive(Debug)]
pub enum ObjectKind {
    /// Neither a structure nor a class.
    Plain,
    /// A structure.
    Struct {
        /// The path of the structure that it extends.
        super_struct: Option<String>,
    },
    /// A class.
    Class {
        /// The path of the class that it extends.
        super_struct: Option<String>,
        /// The virtual table of its instances.
        instance_vtable: Option<u64>,
    },
}

/// An object of the target.
#[derive(Debug)]
pub struct Object {
    /// Its path.
    pub path: String,
    /// The path of its class.
    pub class: String,
    /// The address of its virtual table.
    pub vtable: u64,
    /// What kind of object it is.
    pub kind: ObjectKind,
}

/// An object whose virtual table is not the one that is known for its class.
#[derive(Clone, Copy, Debug, PartialEq, Eq, Structural)]
pub struct Conflict {
    /// The place of the object among the objects.
    pub object: usize,
    /// The virtual table that is known for its class.
    pub existing: u64,
}

/// A virtual table to walk.
#[derive(Clone, Copy, Debug, PartialEq, Eq, Structural)]
pub struct VtableEntry {
    /// Where it starts.
    pub vtable: u64,
    /// Where the next one starts.
    pub bound: Option<u64>,
}

/// What the analysis of virtual tables ends with.
pub struct AnalyzedVtables {
    /// The objects, each class with the virtual table of its instances.
    pub objects: Vec<Object>,
    /// The functions of each virtual table.
    pub vtables: BTreeMap<u64, Vec<u64>>,
    /// The objects whose virtual table differs from that of an earlier object of their class.
    pub conflicts: Vec<Conflict>,
}

/// The mathematical counterpart of [`AnalyzedVtables`].
pub ghost struct Analyzed {
    /// The objects.
    pub objects: Seq<Object>,
    /// The functions of each virtual table.
    pub vtables: Map<u64, Seq<u64>>,
    /// The conflicting objects.
    pub conflicts: Seq<Conflict>,
}

impl View for AnalyzedVtables {
    type V = Analyzed;

    open spec fn view(&self) -> Analyzed {
        Analyzed {
            objects: self.objects@,
            vtables: tables_model(self.vtables@),
            conflicts: self.conflicts@,
        }
    }
}

/// The virtual table of each class: that of the first object that belongs to it.
pub open spec fn class_vtables_of(objects: Seq<Object>) -> Map<Seq<char>, u64>
    decreases objects.len(),
{
    if objects.len() == 0 {
        Map::empty()
    } else {
        let known = class_vtables_of(objects.drop_last());
        if known.contains_key(objects.last().class@) {
            known
        } else {
            known.insert(objects.last().class@, objects.last().vtable)
        }
    }
}

/// The objects whose virtual table differs from that of an earlier object of their class.
pub open spec fn conflicts_of(objects: Seq<Object>) -> Seq<Conflict>
    decreases objects.len(),
{
    if objects.len() == 0 {
        Seq::empty()
    } else {
        let known = class_vtables_of(objects.drop_last());
        let earlier = conflicts_of(objects.drop_last());
        let class = objects.last().class@;
        if known.contains_key(class) && known[class] != objects.last().vtable {
            earlier.push(
                Conflict { object: (objects.len() - 1) as usize, existing: known[class] },
            )
        } else {
            earlier
        }
    }
}

/// Whether some object has the virtual table.
pub open spec fn is_vtable(objects: Seq<Object>, vtable: u64) -> bool {
    exists|i: int| 0 <= i < objects.len() && (#[trigger] objects[i]).vtable == vtable
}

/// Whether `entries` are the virtual tables of the objects, each once, by their addresses, and
/// each with the next as its bound.
pub open spec fn entries_of(objects: Seq<Object>, entries: Seq<VtableEntry>) -> bool {
    &&& forall|i: int, j: int|
        0 <= i < j < entries.len() ==> (#[trigger] entries[i]).vtable < (
        #[trigger] entries[j]).vtable
    &&& forall|vtable: u64|
        #![trigger is_vtable(objects, vtable)]
        #![trigger has_entry(entries, vtable)]
        is_vtable(objects, vtable) <==> has_entry(entries, vtable)
    &&& forall|i: int|
        0 <= i < entries.len() ==> #[trigger] entries[i].bound == if i + 1 < entries.len() {
            Some(entries[i + 1].vtable)
        } else {
            None
        }
}

/// Whether a virtual table is among the entries.
pub open spec fn has_entry(entries: Seq<VtableEntry>, vtable: u64) -> bool {
    exists|i: int| 0 <= i < entries.len() && (#[trigger] entries[i]).vtable == vtable
}

/// The functions of a virtual table from `address` on. It ends at its bound, at the first slot
/// that cannot be read, at the first pointer that leads to no readable memory, and with the
/// address space.
pub open spec fn functions_from(mem: Memory, address: int, bound: Option<u64>) -> Seq<u64>
    decreases 0x1_0000_0000_0000_0008 - address,
{
    if address > u64::MAX || (bound matches Some(bound) && address >= bound) {
        Seq::empty()
    } else {
        match mem(address as u64, 8) {
            Some(slot) => match mem(le_u64(slot, 0), 1) {
                Some(_) => seq![le_u64(slot, 0)] + functions_from(mem, address + 8, bound),
                None => Seq::empty(),
            },
            None => Seq::empty(),
        }
    }
}

/// What walking a virtual table waits for.
pub enum WalkStage {
    /// The next slot.
    Slot,
    /// A byte of the function that the slot leads to.
    Function { function: u64 },
}

/// The walk of a virtual table.
pub struct VtableWalk {
    /// The address of the next slot.
    pub address: u64,
    /// Where the next table starts.
    pub bound: Option<u64>,
    /// The functions found so far.
    pub functions: Vec<u64>,
    /// What it waits for.
    pub stage: WalkStage,
}

impl VtableWalk {
    /// The functions that the walk ends with.
    pub open spec fn functions_with(&self, mem: Memory) -> Seq<u64> {
        match self.stage {
            WalkStage::Slot => self.functions@ + functions_from(
                mem,
                self.address as int,
                self.bound,
            ),
            WalkStage::Function { function } => match mem(function, 1) {
                Some(_) => self.functions@.push(function) + functions_from(
                    mem,
                    self.address + 8,
                    self.bound,
                ),
                None => self.functions@,
            },
        }
    }
}

impl Task for VtableWalk {
    type Output = Vec<u64>;

    type Model = Seq<u64>;

    open spec fn wf(&self) -> bool {
        self.bound matches Some(bound) ==> self.address < bound
    }

    open spec fn asks(&self) -> Request {
        match self.stage {
            WalkStage::Slot => Request { address: self.address, len: 8 },
            WalkStage::Function { function } => Request { address: function, len: 1 },
        }
    }

    open spec fn model(output: Vec<u64>) -> Seq<u64> {
        output@
    }

    open spec fn outcome(&self, mem: Memory) -> Seq<u64> {
        self.functions_with(mem)
    }

    open spec fn budget(&self) -> nat {
        match self.stage {
            WalkStage::Slot => (2 * (0x1_0000_0000_0000_0000 - self.address)) as nat,
            WalkStage::Function { .. } => (2 * (0x1_0000_0000_0000_0000 - self.address)
                - 1) as nat,
        }
    }

    fn request(&self) -> (request: Request) {
        match &self.stage {
            WalkStage::Slot => Request { address: self.address, len: 8 },
            WalkStage::Function { function } => Request { address: *function, len: 1 },
        }
    }

    fn resume(self, reply: Option<Vec<u8>>) -> (next: Progress<Self, Vec<u64>>) {
        let VtableWalk { address, bound, functions, stage } = self;
        match (stage, reply) {
            (_, None) => {
                assert(functions@ + Seq::<u64>::empty() =~= functions@);
                Progress::Done(functions)
            },
            (WalkStage::Slot, Some(bytes)) => {
                let function: u64 = read_le_u64(&bytes, 0);
                let ghost seen = functions@;
                assert(seen + Seq::<u64>::empty() =~= seen);
                assert forall|rest: Seq<u64>| seen + (seq![function] + rest)
                    == #[trigger] (seen.push(function) + rest) by {
                    assert(seen + (seq![function] + rest) =~= seen.push(function) + rest);
                }
                Progress::Waiting(
                    VtableWalk { address, bound, functions, stage: WalkStage::Function { function } },
                )
            },
            (WalkStage::Function { function }, Some(_)) => {
                let mut functions = functions;
                functions.push(function);
                assert(functions@ + Seq::<u64>::empty() =~= functions@);
                if address > u64::MAX - 8 {
                    return Progress::Done(functions);
                }
                walk_from(address + 8, bound, functions)
            },
        }
    }
}

/// Goes on at a slot, unless that is where the next table starts.
fn walk_from(address: u64, bound: Option<u64>, functions: Vec<u64>) -> (progress: Progress<
    VtableWalk,
    Vec<u64>,
>)
    ensures
        progress matches Progress::Waiting(walk) ==> {
            &&& walk.address == address
            &&& walk.stage == WalkStage::Slot
            &&& walk.bound matches Some(bound) ==> address < bound
        },
        forall|mem: Memory|
            functions@ + #[trigger] functions_from(mem, address as int, bound) == match progress {
                Progress::Waiting(walk) => walk.functions_with(mem),
                Progress::Done(output) => output@,
            },
{
    let ended = match bound {
        Some(bound) => address >= bound,
        None => false,
    };
    if ended {
        assert(functions@ + Seq::<u64>::empty() =~= functions@);
        Progress::Done(functions)
    } else {
        Progress::Waiting(VtableWalk { address, bound, functions, stage: WalkStage::Slot })
    }
}

/// Walks a virtual table.
pub fn walk_vtable(entry: VtableEntry) -> (progress: Progress<VtableWalk, Vec<u64>>)
    ensures
        ready(progress),
        forall|mem: Memory| #[trigger]
            delivers(progress, mem) == functions_from(mem, entry.vtable as int, entry.bound),
{
    let progress = walk_from(entry.vtable, entry.bound, Vec::new());
    assert forall|mem: Memory| #[trigger]
        delivers(progress, mem) == functions_from(mem, entry.vtable as int, entry.bound) by {
        let functions = functions_from(mem, entry.vtable as int, entry.bound);
        assert(Seq::<u64>::empty() + functions =~= functions);
    }
    progress
}

/// Whether the slot at `address`, before the bound, holds `function`, and that leads to readable
/// memory.
pub open spec fn is_slot(mem: Memory, address: int, bound: Option<u64>, function: u64) -> bool {
    &&& address <= u64::MAX
    &&& bound matches Some(bound) ==> address < bound
    &&& mem(address as u64, 8) matches Some(slot) && le_u64(slot, 0) == function
    &&& mem(function, 1) is Some
}

/// The functions of a virtual table are what its slots hold, one after the other, and no function
/// is in the slot behind the last.
pub proof fn functions_fill_slots(mem: Memory, address: int, bound: Option<u64>)
    requires
        0 <= address,
    ensures
        ({
            let functions = functions_from(mem, address, bound);
            &&& forall|i: int|
                0 <= i < functions.len() ==> is_slot(
                    mem,
                    address + 8 * i,
                    bound,
                    #[trigger] functions[i],
                )
            &&& forall|function: u64| !#[trigger]
                is_slot(mem, address + 8 * functions.len(), bound, function)
        }),
    decreases 0x1_0000_0000_0000_0008 - address,
{
    let functions = functions_from(mem, address, bound);
    if functions.len() > 0 {
        let rest = functions_from(mem, address + 8, bound);
        functions_fill_slots(mem, address + 8, bound);
        assert(address + 8 * functions.len() == address + 8 + 8 * rest.len());
        assert forall|i: int| 0 <= i < functions.len() implies is_slot(
            mem,
            address + 8 * i,
            bound,
            #[trigger] functions[i],
        ) by {
            if i > 0 {
                assert(functions[i] == rest[i - 1]);
                assert(address + 8 * i == address + 8 + 8 * (i - 1));
            }
        }
    }
}

/// Whether no two objects have the same path.
pub open spec fn unique_paths(objects: Seq<Object>) -> bool {
    forall|i: int, j: int|
        0 <= i < j < objects.len() ==> (#[trigger] objects[i]).path@ != (#[trigger] objects[j]).path@
}

/// Whether some object has the path.
pub open spec fn has_path(objects: Seq<Object>, path: Seq<char>) -> bool {
    exists|i: int| 0 <= i < objects.len() && (#[trigger] objects[i]).path@ == path
}

/// The object with a path.
pub open spec fn object_at(objects: Seq<Object>, path: Seq<char>) -> Object {
    objects[choose|i: int| 0 <= i < objects.len() && (#[trigger] objects[i]).path@ == path]
}

impl ObjectKind {
    /// Whether it is a structure; a class is one.
    pub open spec fn is_struct(self) -> bool {
        !(self is Plain)
    }

    /// The path of the structure that it extends.
    pub open spec fn parent(self) -> Option<Seq<char>> {
        match self {
            ObjectKind::Struct { super_struct: Some(parent) } => Some(parent@),
            ObjectKind::Class { super_struct: Some(parent), .. } => Some(parent@),
            _ => None,
        }
    }
}

/// Whether, from the structure at `path` on, each structure extends an object that is there and
/// is a structure, up to one that extends none, in at most `steps` steps.
pub open spec fn is_chain(objects: Seq<Object>, path: Seq<char>, steps: nat) -> bool
    decreases steps,
{
    &&& has_path(objects, path)
    &&& object_at(objects, path).kind.is_struct()
    &&& object_at(objects, path).kind.parent() matches Some(parent) ==> steps > 0 && is_chain(
        objects,
        parent,
        (steps - 1) as nat,
    )
}

/// Whether the object is a class with a known virtual table.
pub open spec fn is_known_class(object: Object, class_vtables: Map<Seq<char>, u64>) -> bool {
    object.kind is Class && class_vtables.contains_key(object.path@)
}

/// Whether every class with a known virtual table descends from something that extends nothing.
/// A chain that does not go in circles passes each object once at most.
pub open spec fn is_hierarchy(objects: Seq<Object>) -> bool {
    forall|i: int|
        0 <= i < objects.len() && is_known_class(
            #[trigger] objects[i],
            class_vtables_of(objects),
        ) ==> is_chain(objects, objects[i].path@, objects.len())
}

/// What is worked out of the objects before any virtual table is walked.
pub struct VtableAnalysis {
    /// The objects.
    pub objects: Vec<Object>,
    /// The place of each object by its path.
    pub places: StringHashMap<usize>,
    /// The virtual table of each class.
    pub class_vtables: StringHashMap<u64>,
    /// The objects whose virtual table differs from that of an earlier object of their class.
    pub conflicts: Vec<Conflict>,
    /// The virtual tables to walk.
    pub entries: Vec<VtableEntry>,
}

/// Whether `places` gives each object's place by its path.
pub open spec fn places_of(objects: Seq<Object>, places: Map<Seq<char>, usize>) -> bool {
    &&& forall|i: int|
        0 <= i < objects.len() ==> places.contains_key((#[trigger] objects[i]).path@)
            && places[objects[i].path@] == i
    &&& forall|path: Seq<char>| #[trigger]
        places.contains_key(path) ==> places[path] < objects.len()
            && objects[places[path] as int].path@ == path
}

impl VtableAnalysis {
    /// The invariant: all that is worked out of the objects agrees with them.
    pub open spec fn wf(self) -> bool {
        &&& unique_paths(self.objects@)
        &&& places_of(self.objects@, self.places@)
        &&& self.class_vtables@ == class_vtables_of(self.objects@)
        &&& self.conflicts@ == conflicts_of(self.objects@)
        &&& entries_of(self.objects@, self.entries@)
    }
}

/// Whether addresses ascend, so that none occurs twice.
spec fn ascending(addresses: Seq<u64>) -> bool {
    forall|i: int, j: int| 0 <= i < j < addresses.len() ==> addresses[i] < addresses[j]
}

/// Puts an address among others in ascending order, unless it is there already.
fn insert_address(addresses: &mut Vec<u64>, address: u64)
    requires
        ascending(old(addresses)@),
    ensures
        ascending(final(addresses)@),
        forall|other: u64| #[trigger]
            final(addresses)@.contains(other) <==> old(addresses)@.contains(other) || other
                == address,
{
    let mut low: usize = 0;
    let mut high: usize = addresses.len();
    while low < high
        invariant
            addresses@ == old(addresses)@,
            ascending(addresses@),
            low <= high <= addresses@.len(),
            forall|i: int| 0 <= i < low ==> addresses@[i] < address,
            forall|i: int| high <= i < addresses@.len() ==> address <= addresses@[i],
        decreases high - low,
    {
        let middle: usize = low + (high - low) / 2;
        if addresses[middle] < address {
            low = middle + 1;
        } else {
            high = middle;
        }
    }
    if low < addresses.len() && addresses[low] == address {
        return;
    }
    let ghost before = addresses@;
    addresses.insert(low, address);
    proof {
        assert(addresses@[low as int] == address);
        assert forall|other: u64| #[trigger] addresses@.contains(other) <==> before.contains(other)
            || other == address by {
            if before.contains(other) {
                let i = choose|i: int| 0 <= i < before.len() && before[i] == other;
                assert(addresses@[if i < low { i } else { i + 1 }] == other);
            }
            if addresses@.contains(other) && other != address {
                let i = choose|i: int| 0 <= i < addresses@.len() && addresses@[i] == other;
                assert(before[if i < low { i } else { i - 1 }] == other);
            }
        }
    }
}

/// The virtual tables of the objects, each once, by their addresses.
fn sorted_vtables(objects: &Vec<Object>) -> (entries: Vec<VtableEntry>)
    ensures
        entries_of(objects@, entries@),
{
    let mut vtables: Vec<u64> = Vec::new();
    let mut i: usize = 0;
    while i < objects.len()
        invariant
            i <= objects@.len(),
            ascending(vtables@),
            forall|k: int| 0 <= k < i ==> vtables@.contains((#[trigger] objects@[k]).vtable),
            forall|vtable: u64| #[trigger]
                vtables@.contains(vtable) ==> is_vtable(objects@, vtable),
        decreases objects@.len() - i,
    {
        insert_address(&mut vtables, objects[i].vtable);
        i += 1;
    }
    let mut entries: Vec<VtableEntry> = Vec::new();
    while entries.len() < vtables.len()
        invariant
            entries@.len() <= vtables@.len(),
            forall|k: int|
                0 <= k < entries@.len() ==> (#[trigger] entries@[k]) == (VtableEntry {
                    vtable: vtables@[k],
                    bound: if k + 1 < vtables@.len() {
                        Some(vtables@[k + 1])
                    } else {
                        None
                    },
                }),
        decreases vtables@.len() - entries@.len(),
    {
        let k: usize = entries.len();
        let bound: Option<u64> = if k + 1 < vtables.len() {
            Some(vtables[k + 1])
        } else {
            None
        };
        entries.push(VtableEntry { vtable: vtables[k], bound });
    }
    assert forall|vtable: u64|
        #![trigger is_vtable(objects@, vtable)]
        #![trigger has_entry(entries@, vtable)]
        is_vtable(objects@, vtable) <==> has_entry(entries@, vtable) by {
        if is_vtable(objects@, vtable) {
            let k = choose|k: int|
                0 <= k < objects@.len() && (#[trigger] objects@[k]).vtable == vtable;
            assert(vtables@.contains(objects@[k].vtable));
            let j = choose|j: int| 0 <= j < vtables@.len() && vtables@[j] == vtable;
            assert(entries@[j].vtable == vtable);
        }
        if has_entry(entries@, vtable) {
            let k = choose|k: int|
                0 <= k < entries@.len() && (#[trigger] entries@[k]).vtable == vtable;
            assert(vtables@.contains(vtables@[k]));
        }
    }
    entries
}

/// Works out what is needed of the objects before their virtual tables are walked: which table
/// each class has, and where each table starts and must end. The objects stand in the order of
/// their paths.
pub fn plan_vtables(objects: Vec<Object>) -> (analysis: VtableAnalysis)
    requires
        unique_paths(objects@),
    ensures
        analysis.wf(),
        analysis.objects@ == objects@,
{
    let mut places: StringHashMap<usize> = StringHashMap::new();
    let mut class_vtables: StringHashMap<u64> = StringHashMap::new();
    let mut conflicts: Vec<Conflict> = Vec::new();
    let mut i: usize = 0;
    while i < objects.len()
        invariant
            i <= objects@.len(),
            unique_paths(objects@),
            places_of(objects@.take(i as int), places@),
            class_vtables@ == class_vtables_of(objects@.take(i as int)),
            conflicts@ == conflicts_of(objects@.take(i as int)),
        decreases objects@.len() - i,
    {
        let object = &objects[i];
        assert(objects@.take(i + 1).drop_last() =~= objects@.take(i as int));
        match class_vtables.get(object.class.as_str()) {
            Some(existing) => {
                if *existing != object.vtable {
                    conflicts.push(Conflict { object: i, existing: *existing });
                }
            },
            None => {
                class_vtables.insert(object.class.clone(), object.vtable);
            },
        }
        places.insert(object.path.clone(), i);
        i += 1;
    }
    assert(objects@.take(objects@.len() as int) =~= objects@);
    let entries: Vec<VtableEntry> = sorted_vtables(&objects);
    VtableAnalysis { objects, places, class_vtables, conflicts, entries }
}

/// Virtual tables by their addresses.
pub open spec fn tables_model(tables: Map<u64, Vec<u64>>) -> Map<u64, Seq<u64>> {
    tables.map_values(|functions: Vec<u64>| functions@)
}

/// The first `len` functions of a table, or all where there are fewer.
pub open spec fn cut(functions: Seq<u64>, len: nat) -> Seq<u64> {
    if functions.len() > len {
        functions.take(len as int)
    } else {
        functions
    }
}

/// The tables after those of everything that the class at `path` extends were cut: none may be
/// longer than that of the nearest descendant on the way, which starts out with `len`.
pub open spec fn trim_ancestors(
    objects: Seq<Object>,
    class_vtables: Map<Seq<char>, u64>,
    path: Seq<char>,
    len: nat,
    tables: Map<u64, Seq<u64>>,
    steps: nat,
) -> Map<u64, Seq<u64>>
    decreases steps,
{
    match object_at(objects, path).kind.parent() {
        Some(parent) => if steps == 0 {
            tables
        } else if class_vtables.contains_key(parent) {
            let vtable = class_vtables[parent];
            let functions = cut(tables[vtable], len);
            trim_ancestors(
                objects,
                class_vtables,
                parent,
                functions.len(),
                tables.insert(vtable, functions),
                (steps - 1) as nat,
            )
        } else {
            trim_ancestors(objects, class_vtables, parent, len, tables, (steps - 1) as nat)
        },
        None => tables,
    }
}

/// The tables after the ancestors of the first `count` objects were trimmed, one object after the
/// other.
pub open spec fn trim_for(
    objects: Seq<Object>,
    class_vtables: Map<Seq<char>, u64>,
    tables: Map<u64, Seq<u64>>,
    count: nat,
) -> Map<u64, Seq<u64>>
    decreases count,
{
    if count == 0 {
        tables
    } else {
        let trimmed = trim_for(objects, class_vtables, tables, (count - 1) as nat);
        let object = objects[count - 1];
        if is_known_class(object, class_vtables) {
            trim_ancestors(
                objects,
                class_vtables,
                object.path@,
                trimmed[class_vtables[object.path@]].len(),
                trimmed,
                objects.len(),
            )
        } else {
            trimmed
        }
    }
}

/// The tables of `objects`, cut out of the walked ones.
pub open spec fn trimmed(objects: Seq<Object>, tables: Map<u64, Seq<u64>>) -> Map<u64, Seq<u64>> {
    trim_for(objects, class_vtables_of(objects), tables, objects.len())
}

/// Whether `tables` holds each of the tables to walk, and no other.
pub open spec fn covers(tables: Map<u64, Vec<u64>>, entries: Seq<VtableEntry>) -> bool {
    forall|vtable: u64|
        #![trigger tables.contains_key(vtable)]
        #![trigger has_entry(entries, vtable)]
        tables.contains_key(vtable) <==> has_entry(entries, vtable)
}

/// An object once the virtual tables of classes are known: a class has that of its instances.
pub open spec fn completed(object: Object, class_vtables: Map<Seq<char>, u64>) -> Object {
    match object.kind {
        ObjectKind::Class { super_struct, .. } if class_vtables.contains_key(object.path@) => Object {
            path: object.path,
            class: object.class,
            vtable: object.vtable,
            kind: ObjectKind::Class {
                super_struct,
                instance_vtable: Some(class_vtables[object.path@]),
            },
        },
        _ => object,
    }
}

/// Whether every class's table is there.
spec fn tables_there(class_vtables: Map<Seq<char>, u64>, tables: Map<u64, Seq<u64>>) -> bool {
    forall|class: Seq<char>| #[trigger]
        class_vtables.contains_key(class) ==> tables.contains_key(class_vtables[class])
}

/// The virtual table of a class is that of an object.
pub(crate) proof fn lemma_class_vtable(objects: Seq<Object>, class: Seq<char>)
    requires
        class_vtables_of(objects).contains_key(class),
    ensures
        is_vtable(objects, class_vtables_of(objects)[class]),
    decreases objects.len(),
{
    if objects.len() > 0 {
        let shorter = objects.drop_last();
        if class_vtables_of(shorter).contains_key(class) {
            lemma_class_vtable(shorter, class);
            let vtable = class_vtables_of(shorter)[class];
            let i = choose|i: int| 0 <= i < shorter.len() && (#[trigger] shorter[i]).vtable == vtable;
            assert(objects[i].vtable == vtable);
        } else {
            assert(objects[objects.len() - 1].vtable == objects.last().vtable);
        }
    }
}

impl VtableAnalysis {
    /// Whether the places are those of the objects.
    spec fn is_indexed(self) -> bool {
        unique_paths(self.objects@) && places_of(self.objects@, self.places@)
    }

    /// The place of the structure that the one at `place` extends, or an error where there is no
    /// such structure.
    fn parent_place(&self, place: usize) -> (parent: Result<Option<usize>, ()>)
        requires
            self.is_indexed(),
            place < self.objects@.len(),
        ensures
            match self.objects@[place as int].kind.parent() {
                None => parent == Ok::<Option<usize>, ()>(None),
                Some(path) => match parent {
                    Ok(Some(parent)) => parent < self.objects@.len()
                        && self.objects@[parent as int].path@ == path,
                    Ok(None) => false,
                    Err(_) => !has_path(self.objects@, path),
                },
            },
    {
        let parent = match &self.objects[place].kind {
            ObjectKind::Struct { super_struct: Some(parent) } => parent,
            ObjectKind::Class { super_struct: Some(parent), .. } => parent,
            _ => {
                return Ok(None);
            },
        };
        match self.places.get(parent.as_str()) {
            Some(place) => Ok(Some(*place)),
            None => Err(()),
        }
    }

    /// Whether the chain from the object at `place` on ends.
    fn chain_ends(&self, place: usize) -> (ends: bool)
        requires
            self.is_indexed(),
            place < self.objects@.len(),
        ensures
            ends == is_chain(
                self.objects@,
                self.objects@[place as int].path@,
                self.objects@.len(),
            ),
    {
        let mut current: usize = place;
        let mut steps: usize = self.objects.len();
        loop
            invariant
                self.is_indexed(),
                place < self.objects@.len(),
                current < self.objects@.len(),
                is_chain(
                    self.objects@,
                    self.objects@[place as int].path@,
                    self.objects@.len(),
                ) == is_chain(self.objects@, self.objects@[current as int].path@, steps as nat),
            decreases steps,
        {
            proof {
                lemma_chain_step(self.objects@, current as int, steps as nat);
            }
            if let ObjectKind::Plain = &self.objects[current].kind {
                return false;
            }
            match self.parent_place(current) {
                Ok(Some(parent)) => {
                    if steps == 0 {
                        return false;
                    }
                    current = parent;
                    steps -= 1;
                },
                Ok(None) => {
                    return true;
                },
                Err(_) => {
                    return false;
                },
            }
        }
    }

    /// Whether every class with a known virtual table descends from something that extends
    /// nothing. Else trimming the tables would look for an object that is not there or is no
    /// structure, or go on forever.
    pub fn has_hierarchy(&self) -> (result: bool)
        requires
            self.wf(),
        ensures
            result == is_hierarchy(self.objects@),
    {
        let mut i: usize = 0;
        while i < self.objects.len()
            invariant
                self.wf(),
                i <= self.objects@.len(),
                forall|k: int|
                    0 <= k < i && is_known_class(
                        #[trigger] self.objects@[k],
                        class_vtables_of(self.objects@),
                    ) ==> is_chain(
                        self.objects@,
                        self.objects@[k].path@,
                        self.objects@.len(),
                    ),
            decreases self.objects@.len() - i,
        {
            if let ObjectKind::Class { .. } = &self.objects[i].kind {
                if self.class_vtables.contains_key(self.objects[i].path.as_str())
                    && !self.chain_ends(i) {
                    assert(is_known_class(
                        self.objects@[i as int],
                        class_vtables_of(self.objects@),
                    ));
                    return false;
                }
            }
            i += 1;
        }
        true
    }

    /// Cuts the tables of everything that the class at `place` extends.
    fn trim_class(&self, place: usize, len: usize, tables: &mut BTreeMap<u64, Vec<u64>>)
        requires
            self.is_indexed(),
            place < self.objects@.len(),
            is_chain(
                self.objects@,
                self.objects@[place as int].path@,
                self.objects@.len(),
            ),
            tables_there(self.class_vtables@, tables_model(old(tables)@)),
        ensures
            tables_there(self.class_vtables@, tables_model(final(tables)@)),
            tables_model(final(tables)@) == trim_ancestors(
                self.objects@,
                self.class_vtables@,
                self.objects@[place as int].path@,
                len as nat,
                tables_model(old(tables)@),
                self.objects@.len(),
            ),
    {
        let mut current: usize = place;
        let mut bound: usize = len;
        let ghost mut steps: nat = self.objects@.len();
        loop
            invariant
                self.is_indexed(),
                current < self.objects@.len(),
                is_chain(self.objects@, self.objects@[current as int].path@, steps),
                tables_there(self.class_vtables@, tables_model(tables@)),
                trim_ancestors(
                    self.objects@,
                    self.class_vtables@,
                    self.objects@[place as int].path@,
                    len as nat,
                    tables_model(old(tables)@),
                    self.objects@.len(),
                ) == trim_ancestors(
                    self.objects@,
                    self.class_vtables@,
                    self.objects@[current as int].path@,
                    bound as nat,
                    tables_model(tables@),
                    steps,
                ),
            decreases steps,
        {
            proof {
                lemma_chain_step(self.objects@, current as int, steps);
                lemma_trim_step(
                    self.objects@,
                    self.class_vtables@,
                    current as int,
                    bound as nat,
                    tables_model(tables@),
                    steps,
                );
            }
            let parent = match self.parent_place(current) {
                Ok(Some(parent)) => parent,
                _ => {
                    return;
                },
            };
            let ghost before = tables_model(tables@);
            if let Some(vtable) = self.class_vtables.get(self.objects[parent].path.as_str()) {
                assert(before.contains_key(*vtable));
                let mut functions = tables.remove(vtable).unwrap();
                functions.truncate(bound);
                assert(functions@ =~= cut(before[*vtable], bound as nat));
                bound = functions.len();
                tables.insert(*vtable, functions);
                assert(tables_model(tables@) =~= before.insert(*vtable, functions@));
            }
            current = parent;
            proof {
                steps = (steps - 1) as nat;
            }
        }
    }

    /// Trims the tables, and enters the table of each class's instances. `tables` holds the
    /// functions that the walk of each table found.
    pub fn finish(self, tables: BTreeMap<u64, Vec<u64>>) -> (result: AnalyzedVtables)
        requires
            self.wf(),
            is_hierarchy(self.objects@),
            covers(tables@, self.entries@),
        ensures
            result@ == conclusion(self.objects@, tables_model(tables@)),
    {
        let mut trimmed = tables;
        proof {
            assert forall|class: Seq<char>| #[trigger]
                self.class_vtables@.contains_key(class) implies tables_model(
                trimmed@,
            ).contains_key(self.class_vtables@[class]) by {
                lemma_class_vtable(self.objects@, class);
            }
        }
        let mut i: usize = 0;
        while i < self.objects.len()
            invariant
                self.wf(),
                is_hierarchy(self.objects@),
                i <= self.objects@.len(),
                tables_there(self.class_vtables@, tables_model(trimmed@)),
                tables_model(trimmed@) == trim_for(
                    self.objects@,
                    self.class_vtables@,
                    tables_model(tables@),
                    i as nat,
                ),
            decreases self.objects@.len() - i,
        {
            self.trim_object(i, &mut trimmed);
            i += 1;
        }
        let VtableAnalysis { objects, class_vtables, conflicts, .. } = self;
        AnalyzedVtables {
            objects: complete_classes(objects, &class_vtables),
            vtables: trimmed,
            conflicts,
        }
    }

    /// Cuts the tables of everything that the object at `place` extends, if it is a class.
    fn trim_object(&self, place: usize, tables: &mut BTreeMap<u64, Vec<u64>>)
        requires
            self.wf(),
            is_hierarchy(self.objects@),
            place < self.objects@.len(),
            tables_there(self.class_vtables@, tables_model(old(tables)@)),
        ensures
            tables_there(self.class_vtables@, tables_model(final(tables)@)),
            tables_model(final(tables)@) == if is_known_class(
                self.objects@[place as int],
                self.class_vtables@,
            ) {
                let path = self.objects@[place as int].path@;
                trim_ancestors(
                    self.objects@,
                    self.class_vtables@,
                    path,
                    tables_model(old(tables)@)[self.class_vtables@[path]].len(),
                    tables_model(old(tables)@),
                    self.objects@.len(),
                )
            } else {
                tables_model(old(tables)@)
            },
    {
        let object = &self.objects[place];
        if let ObjectKind::Class { .. } = &object.kind {
            if let Some(vtable) = self.class_vtables.get(object.path.as_str()) {
                assert(is_known_class(self.objects@[place as int], self.class_vtables@));
                assert(tables_model(tables@).contains_key(*vtable));
                let len: usize = tables.get(vtable).unwrap().len();
                self.trim_class(place, len, tables);
            }
        }
    }
}

/// Enters the virtual table of each class's instances.
fn complete_classes(objects: Vec<Object>, class_vtables: &StringHashMap<u64>) -> (result: Vec<Object>)
    ensures
        result@ == objects@.map_values(|object: Object| completed(object, class_vtables@)),
{
    let mut result = objects;
    let mut i: usize = 0;
    while i < result.len()
        invariant
            i <= result@.len(),
            result@.len() == objects@.len(),
            forall|k: int|
                0 <= k < i ==> (#[trigger] result@[k]) == completed(objects@[k], class_vtables@),
            forall|k: int| i <= k < result@.len() ==> (#[trigger] result@[k]) == objects@[k],
        decreases result@.len() - i,
    {
        let known: Option<u64> = match class_vtables.get(result[i].path.as_str()) {
            Some(vtable) => Some(*vtable),
            None => None,
        };
        if let Some(vtable) = known {
            match &mut result[i].kind {
                ObjectKind::Class { instance_vtable, .. } => {
                    *instance_vtable = Some(vtable);
                },
                _ => {},
            }
        }
        i += 1;
    }
    result
}

/// The object with an object's path is that object.
pub(crate) proof fn lemma_object_at(objects: Seq<Object>, i: int)
    requires
        unique_paths(objects),
        0 <= i < objects.len(),
    ensures
        has_path(objects, objects[i].path@),
        object_at(objects, objects[i].path@) == objects[i],
{
    let path = objects[i].path@;
    let j = choose|j: int| 0 <= j < objects.len() && (#[trigger] objects[j]).path@ == path;
    assert(objects[j].path@ == path);
    assert(i == j) by {
        if i < j {
            assert(objects[i].path@ != objects[j].path@);
        } else if j < i {
            assert(objects[j].path@ != objects[i].path@);
        }
    }
}

/// A chain from an object on, one step further.
proof fn lemma_chain_step(objects: Seq<Object>, i: int, steps: nat)
    requires
        unique_paths(objects),
        0 <= i < objects.len(),
    ensures
        is_chain(objects, objects[i].path@, steps) == (objects[i].kind.is_struct() && (
        objects[i].kind.parent() matches Some(parent) ==> steps > 0 && is_chain(
            objects,
            parent,
            (steps - 1) as nat,
        ))),
        forall|path: Seq<char>| #[trigger] is_chain(objects, path, (steps - 1) as nat) ==> has_path(
            objects,
            path,
        ),
{
    lemma_object_at(objects, i);
}

/// Trimming from an object on, one step further.
proof fn lemma_trim_step(
    objects: Seq<Object>,
    class_vtables: Map<Seq<char>, u64>,
    i: int,
    len: nat,
    tables: Map<u64, Seq<u64>>,
    steps: nat,
)
    requires
        unique_paths(objects),
        0 <= i < objects.len(),
    ensures
        trim_ancestors(objects, class_vtables, objects[i].path@, len, tables, steps)
            == match objects[i].kind.parent() {
            Some(parent) => if steps == 0 {
                tables
            } else if class_vtables.contains_key(parent) {
                let vtable = class_vtables[parent];
                let functions = cut(tables[vtable], len);
                trim_ancestors(
                    objects,
                    class_vtables,
                    parent,
                    functions.len(),
                    tables.insert(vtable, functions),
                    (steps - 1) as nat,
                )
            } else {
                trim_ancestors(objects, class_vtables, parent, len, tables, (steps - 1) as nat)
            },
            None => tables,
        },
{
    lemma_object_at(objects, i);
}

/// The objects, each class with the virtual table of its instances.
pub open spec fn completed_objects(objects: Seq<Object>) -> Seq<Object> {
    objects.map_values(|object: Object| completed(object, class_vtables_of(objects)))
}

/// Whether `next` is where the first virtual table behind `vtable` starts.
pub open spec fn is_next_vtable(objects: Seq<Object>, vtable: u64, next: u64) -> bool {
    &&& vtable < next
    &&& is_vtable(objects, next)
    &&& forall|other: u64| #[trigger] is_vtable(objects, other) && vtable < other ==> next <= other
}

/// Where the first virtual table behind `vtable` starts.
pub open spec fn next_vtable(objects: Seq<Object>, vtable: u64) -> Option<u64> {
    if exists|next: u64| is_next_vtable(objects, vtable, next) {
        Some(choose|next: u64| is_next_vtable(objects, vtable, next))
    } else {
        None
    }
}

/// The virtual tables of the objects, as they are found by walking each up to the next.
pub open spec fn walked_tables(mem: Memory, objects: Seq<Object>) -> Map<u64, Seq<u64>> {
    Map::new(
        |vtable: u64| is_vtable(objects, vtable),
        |vtable: u64| functions_from(mem, vtable as int, next_vtable(objects, vtable)),
    )
}

/// The virtual table of a class is that of the first object that belongs to it.
pub proof fn class_vtable_is_first(objects: Seq<Object>, i: int)
    requires
        0 <= i < objects.len(),
        forall|j: int| 0 <= j < i ==> (#[trigger] objects[j]).class@ != objects[i].class@,
    ensures
        class_vtables_of(objects).contains_key(objects[i].class@),
        class_vtables_of(objects)[objects[i].class@] == objects[i].vtable,
    decreases objects.len(),
{
    let shorter = objects.drop_last();
    if i < shorter.len() {
        class_vtable_is_first(shorter, i);
    } else if class_vtables_of(shorter).contains_key(objects[i].class@) {
        lemma_class_has_object(shorter, objects[i].class@);
    }
}

/// A class with a virtual table is the class of some object.
pub(crate) proof fn lemma_class_has_object(objects: Seq<Object>, class: Seq<char>)
    requires
        class_vtables_of(objects).contains_key(class),
    ensures
        exists|j: int| 0 <= j < objects.len() && (#[trigger] objects[j]).class@ == class,
    decreases objects.len(),
{
    if objects.len() > 0 {
        let shorter = objects.drop_last();
        if class_vtables_of(shorter).contains_key(class) {
            lemma_class_has_object(shorter, class);
            let j = choose|j: int|
                0 <= j < shorter.len() && (#[trigger] shorter[j]).class@ == class;
            assert(objects[j].class@ == class);
        } else {
            assert(objects[objects.len() - 1].class@ == class);
        }
    }
}

/// An object is reported as conflicting if and only if its virtual table is not the one that is
/// known for its class.
pub proof fn conflicts_are_exact(objects: Seq<Object>, i: int)
    requires
        0 <= i < objects.len() <= usize::MAX,
    ensures
        ({
            let known = class_vtables_of(objects)[objects[i].class@];
            conflicts_of(objects).contains(Conflict { object: i as usize, existing: known })
                <==> objects[i].vtable != known
        }),
        forall|conflict: Conflict| #[trigger]
            conflicts_of(objects).contains(conflict) ==> conflict.object < objects.len()
                && conflict.existing == class_vtables_of(
                objects,
            )[objects[conflict.object as int].class@],
    decreases objects.len(),
{
    let shorter = objects.drop_last();
    let known = class_vtables_of(objects)[objects[i].class@];
    let own = Conflict { object: i as usize, existing: known };
    let earlier = conflicts_of(shorter);
    let all = conflicts_of(objects);
    if shorter.len() > 0 {
        conflicts_are_exact(shorter, if i < shorter.len() { i } else { 0 });
    }
    assert forall|conflict: Conflict| #[trigger] all.contains(conflict) implies conflict.object
        < objects.len() && conflict.existing == class_vtables_of(
        objects,
    )[objects[conflict.object as int].class@] by {
        let k = choose|k: int| 0 <= k < all.len() && all[k] == conflict;
        if k < earlier.len() {
            assert(earlier[k] == conflict);
            assert(earlier.contains(conflict));
            lemma_object_has_vtable(shorter, conflict.object as int);
        }
    }
    lemma_object_has_vtable(objects, i);
    if i < shorter.len() {
        lemma_object_has_vtable(shorter, i);
        if all.contains(own) {
            let k = choose|k: int| 0 <= k < all.len() && all[k] == own;
            assert(earlier[k] == own);
        }
        if earlier.contains(own) {
            let k = choose|k: int| 0 <= k < earlier.len() && earlier[k] == own;
            assert(all[k] == own);
        }
    } else {
        if all.contains(own) {
            let k = choose|k: int| 0 <= k < all.len() && all[k] == own;
            if k < earlier.len() {
                assert(earlier[k] == own);
                assert(earlier.contains(own));
            }
        }
        if objects[i].vtable != known {
            assert(all[all.len() - 1] == own);
        }
    }
}

/// The class of every object has a virtual table.
proof fn lemma_object_has_vtable(objects: Seq<Object>, i: int)
    requires
        0 <= i < objects.len(),
    ensures
        class_vtables_of(objects).contains_key(objects[i].class@),
    decreases objects.len(),
{
    let shorter = objects.drop_last();
    if i < shorter.len() {
        lemma_object_has_vtable(shorter, i);
    }
}

/// What the analysis of the objects ends with where `tables` are the walked tables.
pub open spec fn conclusion(objects: Seq<Object>, tables: Map<u64, Seq<u64>>) -> Analyzed {
    Analyzed {
        objects: completed_objects(objects),
        vtables: trimmed(objects, tables),
        conflicts: conflicts_of(objects),
    }
}

/// The tables together with those of the entries from `from` on, each walked.
pub open spec fn walked_from(
    mem: Memory,
    entries: Seq<VtableEntry>,
    from: nat,
    tables: Map<u64, Seq<u64>>,
) -> Map<u64, Seq<u64>>
    decreases entries.len() - from,
{
    if from >= entries.len() {
        tables
    } else {
        let entry = entries[from as int];
        walked_from(
            mem,
            entries,
            from + 1,
            tables.insert(entry.vtable, functions_from(mem, entry.vtable as int, entry.bound)),
        )
    }
}

impl VtableAnalysis {
    /// What the analysis ends with where `tables` were walked, and the entries from `from` on are
    /// still to be walked.
    pub open spec fn concludes(self, mem: Memory, from: nat, tables: Map<u64, Seq<u64>>) -> Analyzed {
        conclusion(self.objects@, walked_from(mem, self.entries@, from, tables))
    }
}

/// The analysis of virtual tables.
pub struct AnalyzeVtables {
    /// What was worked out of the objects.
    pub analysis: VtableAnalysis,
    /// The tables walked so far.
    pub tables: BTreeMap<u64, Vec<u64>>,
    /// The entry that is walked.
    pub current: usize,
    /// Its walk.
    pub walk: VtableWalk,
}

impl AnalyzeVtables {
    /// The invariant of a waiting analysis.
    pub open spec fn is_wf(&self) -> bool {
        &&& self.analysis.wf()
        &&& is_hierarchy(self.analysis.objects@)
        &&& self.current < self.analysis.entries@.len()
        &&& covers(self.tables@, self.analysis.entries@.take(self.current as int))
        &&& self.walk.wf()
    }

    /// What the analysis ends with.
    pub open spec fn ends_with(&self, mem: Memory) -> Analyzed {
        self.analysis.concludes(
            mem,
            self.current as nat + 1,
            tables_model(self.tables@).insert(
                self.analysis.entries@[self.current as int].vtable,
                self.walk.outcome(mem),
            ),
        )
    }
}

impl Task for AnalyzeVtables {
    type Output = AnalyzedVtables;

    type Model = Analyzed;

    open spec fn wf(&self) -> bool {
        self.is_wf()
    }

    open spec fn asks(&self) -> Request {
        self.walk.asks()
    }

    open spec fn model(output: AnalyzedVtables) -> Analyzed {
        output@
    }

    open spec fn outcome(&self, mem: Memory) -> Analyzed {
        self.ends_with(mem)
    }

    open spec fn budget(&self) -> nat {
        ((self.analysis.entries@.len() - self.current) * 0x2_0000_0000_0000_0001
            + self.walk.budget()) as nat
    }

    fn request(&self) -> (request: Request) {
        self.walk.request()
    }

    fn resume(self, reply: Option<Vec<u8>>) -> (next: Progress<Self, AnalyzedVtables>) {
        let ghost start = self;
        let AnalyzeVtables { analysis, tables, current, walk } = self;
        match walk.resume(reply) {
            Progress::Waiting(walk) => {
                let next = AnalyzeVtables { analysis, tables, current, walk };
                assert forall|mem: Memory|
                    mem(start.asks().address, start.asks().len) == reply_view(
                        reply,
                    ) implies #[trigger] start.outcome(mem) == next.outcome(mem) by {
                    assert(start.walk.outcome(mem) == walk.outcome(mem));
                }
                Progress::Waiting(next)
            },
            Progress::Done(functions) => {
                let next = end_walk(analysis, tables, current, functions);
                assert forall|mem: Memory|
                    mem(start.asks().address, start.asks().len) == reply_view(
                        reply,
                    ) implies #[trigger] start.outcome(mem) == match next {
                    Progress::Waiting(waiting) => waiting.outcome(mem),
                    Progress::Done(output) => output@,
                } by {
                    assert(start.walk.outcome(mem) == functions@);
                }
                next
            },
        }
    }
}

/// Goes on when the walk of the current entry has found its functions.
fn end_walk(
    analysis: VtableAnalysis,
    tables: BTreeMap<u64, Vec<u64>>,
    current: usize,
    functions: Vec<u64>,
) -> (progress: Progress<AnalyzeVtables, AnalyzedVtables>)
    requires
        analysis.wf(),
        is_hierarchy(analysis.objects@),
        current < analysis.entries@.len(),
        covers(tables@, analysis.entries@.take(current as int)),
    ensures
        progress matches Progress::Waiting(waiting) ==> {
            &&& waiting.is_wf()
            &&& waiting.analysis == analysis
            &&& waiting.current > current
        },
        forall|mem: Memory|
            #[trigger] analysis.concludes(
                mem,
                current as nat + 1,
                tables_model(tables@).insert(
                    analysis.entries@[current as int].vtable,
                    functions@,
                ),
            ) == match progress {
                Progress::Waiting(waiting) => waiting.ends_with(mem),
                Progress::Done(output) => output@,
            },
{
    let vtable: u64 = analysis.entries[current].vtable;
    let mut walked = tables;
    walked.insert(vtable, functions);
    proof {
        assert(tables_model(walked@) =~= tables_model(tables@).insert(vtable, functions@));
        lemma_covers_step(tables@, analysis.entries@, current as int, functions);
    }
    assert(current < analysis.entries.len());
    walk_next(analysis, walked, current + 1)
}

/// With one more table walked, one more entry is covered.
proof fn lemma_covers_step(
    tables: Map<u64, Vec<u64>>,
    entries: Seq<VtableEntry>,
    current: int,
    functions: Vec<u64>,
)
    requires
        0 <= current < entries.len(),
        covers(tables, entries.take(current)),
    ensures
        covers(tables.insert(entries[current].vtable, functions), entries.take(current + 1)),
{
    let walked = tables.insert(entries[current].vtable, functions);
    let before = entries.take(current);
    let after = entries.take(current + 1);
    assert forall|vtable: u64|
        #![trigger walked.contains_key(vtable)]
        #![trigger has_entry(after, vtable)]
        walked.contains_key(vtable) <==> has_entry(after, vtable) by {
        assert(tables.contains_key(vtable) <==> has_entry(before, vtable));
        if has_entry(before, vtable) {
            let i = choose|i: int| 0 <= i < before.len() && (#[trigger] before[i]).vtable == vtable;
            assert(after[i].vtable == vtable);
        }
        if vtable == entries[current].vtable {
            assert(after[current].vtable == vtable);
        }
        if has_entry(after, vtable) {
            let i = choose|i: int| 0 <= i < after.len() && (#[trigger] after[i]).vtable == vtable;
            if i < current {
                assert(before[i].vtable == vtable);
            }
        }
    }
}

/// Walks the entries from `from` on, and concludes the analysis once there is none left.
fn walk_next(analysis: VtableAnalysis, tables: BTreeMap<u64, Vec<u64>>, from: usize) -> (progress:
    Progress<AnalyzeVtables, AnalyzedVtables>)
    requires
        analysis.wf(),
        is_hierarchy(analysis.objects@),
        from <= analysis.entries@.len(),
        covers(tables@, analysis.entries@.take(from as int)),
    ensures
        progress matches Progress::Waiting(waiting) ==> {
            &&& waiting.is_wf()
            &&& waiting.analysis == analysis
            &&& waiting.current >= from
        },
        forall|mem: Memory|
            #[trigger] analysis.concludes(mem, from as nat, tables_model(tables@))
                == match progress {
                Progress::Waiting(waiting) => waiting.ends_with(mem),
                Progress::Done(output) => output@,
            },
{
    let mut walked = tables;
    let mut current: usize = from;
    while current < analysis.entries.len()
        invariant
            analysis.wf(),
            is_hierarchy(analysis.objects@),
            from <= current <= analysis.entries@.len(),
            covers(walked@, analysis.entries@.take(current as int)),
            forall|mem: Memory|
                #[trigger] analysis.concludes(mem, from as nat, tables_model(tables@))
                    == analysis.concludes(mem, current as nat, tables_model(walked@)),
        decreases analysis.entries@.len() - current,
    {
        let entry = analysis.entries[current];
        let start = walk_vtable(entry);
        match start {
            Progress::Waiting(walk) => {
                let ghost model = tables_model(walked@);
                let waiting = AnalyzeVtables { analysis, tables: walked, current, walk };
                assert forall|mem: Memory| #[trigger]
                    analysis.concludes(mem, from as nat, tables_model(tables@))
                        == waiting.ends_with(mem) by {
                    assert(delivers(start, mem) == walk.outcome(mem));
                    assert(analysis.concludes(mem, current as nat, model) == waiting.ends_with(mem));
                }
                return Progress::Waiting(waiting);
            },
            Progress::Done(functions) => {
                let ghost before = walked@;
                walked.insert(entry.vtable, functions);
                proof {
                    assert(tables_model(walked@) =~= tables_model(before).insert(
                        entry.vtable,
                        functions@,
                    ));
                    lemma_covers_step(before, analysis.entries@, current as int, functions);
                    assert forall|mem: Memory| #[trigger]
                        analysis.concludes(mem, from as nat, tables_model(tables@))
                            == analysis.concludes(
                            mem,
                            current as nat + 1,
                            tables_model(walked@),
                        ) by {
                        assert(delivers(start, mem) == functions@);
                        assert(analysis.concludes(mem, current as nat, tables_model(before))
                            == analysis.concludes(
                            mem,
                            current as nat + 1,
                            tables_model(walked@),
                        ));
                    }
                }
                current += 1;
            },
        }
    }
    assert(analysis.entries@.take(current as int) =~= analysis.entries@);
    Progress::Done(analysis.finish(walked))
}

/// The tables found by walking all entries are the virtual tables of the objects.
proof fn lemma_walked_from(
    mem: Memory,
    objects: Seq<Object>,
    entries: Seq<VtableEntry>,
    from: nat,
    tables: Map<u64, Seq<u64>>,
)
    requires
        entries_of(objects, entries),
        from <= entries.len(),
        forall|vtable: u64| #[trigger]
            tables.contains_key(vtable) ==> walked_tables(mem, objects).contains_key(vtable)
                && tables[vtable] == walked_tables(mem, objects)[vtable],
        forall|i: int| 0 <= i < from ==> tables.contains_key((#[trigger] entries[i]).vtable),
    ensures
        walked_from(mem, entries, from, tables) == walked_tables(mem, objects),
    decreases entries.len() - from,
{
    let walked = walked_tables(mem, objects);
    if from < entries.len() {
        let entry = entries[from as int];
        bound_is_next_vtable(objects, entries, from as int);
        assert(has_entry(entries, entry.vtable));
        lemma_walked_from(
            mem,
            objects,
            entries,
            from + 1,
            tables.insert(entry.vtable, functions_from(mem, entry.vtable as int, entry.bound)),
        );
    } else {
        assert forall|vtable: u64| walked.contains_key(vtable) implies #[trigger]
            tables.contains_key(vtable) by {
            assert(has_entry(entries, vtable));
            let i = choose|i: int|
                0 <= i < entries.len() && (#[trigger] entries[i]).vtable == vtable;
            assert(tables.contains_key(entries[i].vtable));
        }
        assert(tables =~= walked);
    }
}

/// Finds the functions of the objects' virtual tables, and enters the virtual table of each
/// class's instances. The objects stand in the order of their paths.
pub fn analyze_vtables(objects: Vec<Object>) -> (progress: Progress<
    AnalyzeVtables,
    AnalyzedVtables,
>)
    requires
        unique_paths(objects@),
        is_hierarchy(objects@),
    ensures
        ready(progress),
        forall|mem: Memory| #[trigger]
            delivers(progress, mem) == conclusion(objects@, walked_tables(mem, objects@)),
{
    let analysis = plan_vtables(objects);
    let tables: BTreeMap<u64, Vec<u64>> = BTreeMap::new();
    let ghost none = tables_model(tables@);
    let ghost plan = analysis;
    let progress = walk_next(analysis, tables, 0);
    assert forall|mem: Memory| #[trigger]
        delivers(progress, mem) == conclusion(objects@, walked_tables(mem, objects@)) by {
        lemma_walked_from(mem, objects@, plan.entries@, 0, none);
        assert(delivers(progress, mem) == plan.concludes(mem, 0, none));
    }
    progress
}

/// The bound of a table to walk is where the next table starts.
pub proof fn bound_is_next_vtable(objects: Seq<Object>, entries: Seq<VtableEntry>, i: int)
    requires
        entries_of(objects, entries),
        0 <= i < entries.len(),
    ensures
        entries[i].bound == next_vtable(objects, entries[i].vtable),
{
    let vtable = entries[i].vtable;
    if i + 1 < entries.len() {
        let next = entries[i + 1].vtable;
        assert(has_entry(entries, next));
        assert forall|other: u64| #[trigger]
            is_vtable(objects, other) && vtable < other implies next <= other by {
            let k = choose|k: int|
                0 <= k < entries.len() && (#[trigger] entries[k]).vtable == other;
            assert(entries[k].vtable == other);
            if k < i {
                assert(entries[k].vtable < entries[i].vtable);
            } else if k > i + 1 {
                assert(entries[i + 1].vtable < entries[k].vtable);
            }
        }
        assert(is_next_vtable(objects, vtable, next));
        let chosen = choose|next: u64| is_next_vtable(objects, vtable, next);
        assert(is_next_vtable(objects, vtable, chosen));
    } else {
        assert forall|next: u64| !is_next_vtable(objects, vtable, next) by {
            if is_next_vtable(objects, vtable, next) {
                assert(has_entry(entries, next));
                let k = choose|k: int|
                    0 <= k < entries.len() && (#[trigger] entries[k]).vtable == next;
                assert(k < i ==> entries[k].vtable < entries[i].vtable);
            }
        }
    }
}

/// Walks of all tables to walk, in whichever order they were made, are the virtual tables of the
/// objects.
pub proof fn walks_give_tables(
    mem: Memory,
    objects: Seq<Object>,
    entries: Seq<VtableEntry>,
    tables: Map<u64, Vec<u64>>,
)
    requires
        entries_of(objects, entries),
        covers(tables, entries),
        forall|i: int|
            0 <= i < entries.len() ==> tables[(#[trigger] entries[i]).vtable]@ == functions_from(
                mem,
                entries[i].vtable as int,
                entries[i].bound,
            ),
    ensures
        tables_model(tables) == walked_tables(mem, objects),
{
    let found = tables_model(tables);
    let walked = walked_tables(mem, objects);
    assert forall|vtable: u64| #[trigger]
        found.contains_key(vtable) == walked.contains_key(vtable) && (found.contains_key(vtable)
            ==> found[vtable] == walked[vtable]) by {
        assert(found.contains_key(vtable) == tables.contains_key(vtable));
        assert(has_entry(entries, vtable) == is_vtable(objects, vtable));
        if has_entry(entries, vtable) {
            let i = choose|i: int|
                0 <= i < entries.len() && (#[trigger] entries[i]).vtable == vtable;
            bound_is_next_vtable(objects, entries, i);
        }
    }
    assert(found =~= walked);
}

} // verus!
