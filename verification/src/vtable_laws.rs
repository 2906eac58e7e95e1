//! What the analysis of virtual tables gives, by the objects and the bytes of the tables.
use vstd::prelude::*;
use crate::encoding::le_bytes;
use crate::mem_laws::{le_bytes_len, refuses, stores, u64_is_read};
use crate::task::Memory;
use crate::trimming::trimming_cuts;
use crate::vtable::{
    class_vtable_is_first, class_vtables_of, conclusion, conflicts_of, cut, entries_of,
    functions_from, has_entry, has_path, is_chain, is_hierarchy, is_known_class, is_next_vtable,
    is_vtable, lemma_class_has_object, lemma_object_at, next_vtable, object_at, tables_model,
    trimmed, unique_paths, walked_tables, AnalyzedVtables, Object, ObjectKind, VtableEntry,
};

verus! {

/// Whether an object is the first that belongs to a class.
pub open spec fn is_first_of(objects: Seq<Object>, first: int, class: Seq<char>) -> bool {
    &&& 0 <= first < objects.len()
    &&& objects[first].class@ == class
    &&& forall|j: int| 0 <= j < first ==> (#[trigger] objects[j]).class@ != class
}

/// A class has the virtual table of the first object that belongs to it, and none where no object
/// belongs to it.
pub proof fn class_has_the_table_of_its_first(objects: Seq<Object>, class: Seq<char>, first: int)
    ensures
        is_first_of(objects, first, class) ==> class_vtables_of(objects).contains_key(class)
            && class_vtables_of(objects)[class] == objects[first].vtable,
        (forall|j: int| 0 <= j < objects.len() ==> (#[trigger] objects[j]).class@ != class)
            ==> !class_vtables_of(objects).contains_key(class),
{
    if is_first_of(objects, first, class) {
        class_vtable_is_first(objects, first);
    }
    if class_vtables_of(objects).contains_key(class) {
        lemma_class_has_object(objects, class);
    }
}

/// The analysis enters the virtual table of a class's first instance with the class, and leaves
/// everything else about the class as it is.
pub proof fn class_gets_the_table_of_its_instances(
    objects: Seq<Object>,
    tables: Map<u64, Seq<u64>>,
    i: int,
    first: int,
)
    requires
        0 <= i < objects.len(),
        objects[i].kind is Class,
        is_first_of(objects, first, objects[i].path@),
    ensures
        ({
            let after = conclusion(objects, tables).objects;
            &&& after.len() == objects.len()
            &&& after[i].path == objects[i].path
            &&& after[i].class == objects[i].class
            &&& after[i].vtable == objects[i].vtable
            &&& after[i].kind matches ObjectKind::Class { super_struct, instance_vtable }
            &&& instance_vtable == Some(objects[first].vtable)
            &&& super_struct == objects[i].kind->Class_super_struct
        }),
{
    class_has_the_table_of_its_first(objects, objects[i].path@, first);
}

/// The analysis leaves objects that are no classes, and classes without instances, as they are.
pub proof fn other_objects_stay(objects: Seq<Object>, tables: Map<u64, Seq<u64>>, i: int)
    requires
        0 <= i < objects.len(),
        !(objects[i].kind is Class) || forall|j: int|
            0 <= j < objects.len() ==> (#[trigger] objects[j]).class@ != objects[i].path@,
    ensures
        conclusion(objects, tables).objects.len() == objects.len(),
        conclusion(objects, tables).objects[i] == objects[i],
{
    class_has_the_table_of_its_first(objects, objects[i].path@, 0);
}

/// The analysis gives a table for the virtual table of every object, and no other. So the virtual
/// table that is entered with a class is among them.
pub proof fn every_vtable_has_a_table(mem: Memory, objects: Seq<Object>, vtable: u64)
    ensures
        conclusion(objects, walked_tables(mem, objects)).vtables.contains_key(vtable) <==> (exists|
            i: int,
        | 0 <= i < objects.len() && (#[trigger] objects[i]).vtable == vtable),
{
    let walked = walked_tables(mem, objects);
    assert forall|other: u64| #[trigger] is_vtable(objects, other) implies walked.contains_key(
        other,
    ) by {}
    trimming_cuts(objects, walked);
    assert(walked.dom().contains(vtable) <==> is_vtable(objects, vtable));
    assert(trimmed(objects, walked).dom().contains(vtable) <==> walked.dom().contains(vtable));
}

/// Conflicts are reported in the order of the objects, and each object once at most.
pub proof fn conflicts_are_in_order(objects: Seq<Object>, a: int, b: int)
    requires
        objects.len() <= usize::MAX,
        0 <= a < b < conflicts_of(objects).len(),
    ensures
        conflicts_of(objects)[a].object < conflicts_of(objects)[b].object < objects.len(),
    decreases objects.len(),
{
    let shorter = objects.drop_last();
    let earlier = conflicts_of(shorter);
    if b < earlier.len() {
        conflicts_are_in_order(shorter, a, b);
    } else {
        lemma_conflict_place(shorter, a);
    }
}

/// A conflict is at the place of an object.
proof fn lemma_conflict_place(objects: Seq<Object>, a: int)
    requires
        objects.len() <= usize::MAX,
        0 <= a < conflicts_of(objects).len(),
    ensures
        conflicts_of(objects)[a].object < objects.len(),
    decreases objects.len(),
{
    let shorter = objects.drop_last();
    if a < conflicts_of(shorter).len() {
        lemma_conflict_place(shorter, a);
    }
}

/// Whether `bound` is where the next virtual table behind `vtable` starts: that of an object, with
/// none between; or there is none behind.
pub open spec fn is_bound(objects: Seq<Object>, vtable: u64, bound: Option<u64>) -> bool {
    match bound {
        Some(next) => {
            &&& vtable < next
            &&& exists|i: int| 0 <= i < objects.len() && (#[trigger] objects[i]).vtable == next
            &&& forall|j: int|
                0 <= j < objects.len() ==> (#[trigger] objects[j]).vtable <= vtable
                    || objects[j].vtable >= next
        },
        None => forall|j: int| 0 <= j < objects.len() ==> (#[trigger] objects[j]).vtable <= vtable,
    }
}

/// The bound of a virtual table is where the next one starts.
proof fn lemma_bound(objects: Seq<Object>, vtable: u64, bound: Option<u64>)
    requires
        is_bound(objects, vtable, bound),
    ensures
        next_vtable(objects, vtable) == bound,
{
    match bound {
        Some(next) => {
            assert(is_vtable(objects, next));
            assert forall|other: u64| #[trigger]
                is_vtable(objects, other) && vtable < other implies next <= other by {
                let j = choose|j: int|
                    0 <= j < objects.len() && (#[trigger] objects[j]).vtable == other;
                assert(objects[j].vtable == other);
            }
            assert(is_next_vtable(objects, vtable, next));
            let chosen = choose|next: u64| is_next_vtable(objects, vtable, next);
            assert(is_next_vtable(objects, vtable, chosen));
        },
        None => {
            assert forall|next: u64| !is_next_vtable(objects, vtable, next) by {
                if is_next_vtable(objects, vtable, next) {
                    let j = choose|j: int|
                        0 <= j < objects.len() && (#[trigger] objects[j]).vtable == next;
                    assert(objects[j].vtable <= vtable);
                }
            }
        },
    }
}

/// Whether there is a slot of a table at an address: in the address space, and before the bound.
pub open spec fn is_place(address: int, bound: Option<u64>) -> bool {
    &&& address <= 0xffff_ffff_ffff_ffff
    &&& bound matches Some(next) ==> address < next
}

/// Whether the slot at an address holds a function, which leads to memory that can be read.
pub open spec fn holds_function(
    mem: Memory,
    address: int,
    bound: Option<u64>,
    function: u64,
) -> bool {
    &&& is_place(address, bound)
    &&& stores(mem, address, le_bytes(function as int, 8))
    &&& !refuses(mem, function as int, 1)
}

/// Whether functions stand in the slots of a table one behind the other.
pub open spec fn has_functions(
    mem: Memory,
    vtable: int,
    bound: Option<u64>,
    functions: Seq<u64>,
) -> bool {
    forall|k: int|
        0 <= k < functions.len() ==> holds_function(
            mem,
            vtable + 8 * k,
            bound,
            #[trigger] functions[k],
        )
}

/// Whether a table ends at an address: there is no slot, or it cannot be read, or it holds
/// `pointer`, which leads to no memory that can be read.
pub open spec fn ends_at(mem: Memory, address: int, bound: Option<u64>, pointer: u64) -> bool {
    ||| !is_place(address, bound)
    ||| refuses(mem, address, 8)
    ||| stores(mem, address, le_bytes(pointer as int, 8)) && refuses(mem, pointer as int, 1)
}

/// Walking a table gives the functions in its slots, all of them up to its end.
pub proof fn walk_gives_the_functions(
    mem: Memory,
    vtable: int,
    bound: Option<u64>,
    functions: Seq<u64>,
    pointer: u64,
)
    requires
        0 <= vtable,
        has_functions(mem, vtable, bound, functions),
        ends_at(mem, vtable + 8 * functions.len(), bound, pointer),
    ensures
        functions_from(mem, vtable, bound) == functions,
    decreases functions.len(),
{
    if functions.len() == 0 {
        if is_place(vtable, bound) {
            u64_is_read(mem, vtable as u64, pointer);
            le_bytes_len(pointer as int, 8);
        }
        assert(functions =~= Seq::<u64>::empty());
    } else {
        let first = functions[0];
        let rest = functions.drop_first();
        assert(holds_function(mem, vtable + 8 * 0, bound, functions[0]));
        u64_is_read(mem, vtable as u64, first);
        le_bytes_len(first as int, 8);
        assert forall|k: int| 0 <= k < rest.len() implies holds_function(
            mem,
            vtable + 8 + 8 * k,
            bound,
            #[trigger] rest[k],
        ) by {
            assert(rest[k] == functions[k + 1]);
            assert(vtable + 8 + 8 * k == vtable + 8 * (k + 1));
        }
        assert(vtable + 8 + 8 * rest.len() == vtable + 8 * functions.len());
        walk_gives_the_functions(mem, vtable + 8, bound, rest, pointer);
        assert(seq![first] + rest =~= functions);
    }
}

/// The analysis walks the virtual table of every object up to where the next one starts.
pub proof fn tables_are_walked_to_the_next(
    mem: Memory,
    objects: Seq<Object>,
    i: int,
    bound: Option<u64>,
    functions: Seq<u64>,
    pointer: u64,
)
    requires
        0 <= i < objects.len(),
        is_bound(objects, objects[i].vtable, bound),
        has_functions(mem, objects[i].vtable as int, bound, functions),
        ends_at(mem, objects[i].vtable + 8 * functions.len(), bound, pointer),
    ensures
        walked_tables(mem, objects).contains_key(objects[i].vtable),
        walked_tables(mem, objects)[objects[i].vtable] == functions,
        conclusion(objects, walked_tables(mem, objects)).vtables == trimmed(
            objects,
            walked_tables(mem, objects),
        ),
{
    lemma_bound(objects, objects[i].vtable, bound);
    walk_gives_the_functions(mem, objects[i].vtable as int, bound, functions, pointer);
    assert(is_vtable(objects, objects[i].vtable));
}

/// The tables to walk are those of all objects, each once and in order, and each is bounded by the
/// next.
pub proof fn entries_are_the_tables(
    objects: Seq<Object>,
    entries: Seq<VtableEntry>,
    i: int,
    j: int,
)
    requires
        entries_of(objects, entries),
        0 <= i < objects.len(),
        0 <= j < entries.len(),
    ensures
        exists|k: int| 0 <= k < entries.len() && (#[trigger] entries[k]).vtable == objects[i].vtable,
        exists|k: int| 0 <= k < objects.len() && (#[trigger] objects[k]).vtable == entries[j].vtable,
        is_bound(objects, entries[j].vtable, entries[j].bound),
        j + 1 < entries.len() ==> entries[j].vtable < entries[j + 1].vtable,
{
    assert(is_vtable(objects, objects[i].vtable));
    assert(has_entry(entries, entries[j].vtable));
    let vtable = entries[j].vtable;
    let bound = entries[j].bound;
    assert forall|k: int| 0 <= k < objects.len() implies (#[trigger] objects[k]).vtable <= vtable
        || (bound matches Some(next) && objects[k].vtable >= next) by {
        assert(is_vtable(objects, objects[k].vtable));
        assert(has_entry(entries, objects[k].vtable));
        let e = choose|e: int|
            0 <= e < entries.len() && (#[trigger] entries[e]).vtable == objects[k].vtable;
        assert(entries[e].vtable == objects[k].vtable);
        if e < j {
            assert(entries[e].vtable < entries[j].vtable);
        } else if e > j + 1 {
            assert(entries[j + 1].vtable < entries[e].vtable);
        }
    }
    if j + 1 < entries.len() {
        assert(entries[j].vtable < entries[j + 1].vtable);
        assert(has_entry(entries, entries[j + 1].vtable));
        assert(is_vtable(objects, entries[j + 1].vtable));
    }
}

/// The object with an object's path is that object, and there is none with a path that no object
/// has.
pub proof fn objects_are_found_by_path(objects: Seq<Object>, i: int, path: Seq<char>)
    requires
        unique_paths(objects),
        0 <= i < objects.len(),
    ensures
        has_path(objects, objects[i].path@),
        object_at(objects, objects[i].path@) == objects[i],
        (forall|j: int| 0 <= j < objects.len() ==> (#[trigger] objects[j]).path@ != path)
            ==> !has_path(objects, path),
{
    lemma_object_at(objects, i);
}

/// What structures and classes extend is what they name, and nothing else extends anything.
pub proof fn parents_are_named(kind: ObjectKind)
    ensures
        match kind {
            ObjectKind::Plain => kind.parent() is None && !kind.is_struct(),
            ObjectKind::Struct { super_struct } => kind.is_struct() && match super_struct {
                Some(parent) => kind.parent() == Some(parent@),
                None => kind.parent() is None,
            },
            ObjectKind::Class { super_struct, .. } => kind.is_struct() && match super_struct {
                Some(parent) => kind.parent() == Some(parent@),
                None => kind.parent() is None,
            },
        },
{
}

/// The classes that tables are trimmed for are those that some object belongs to.
pub proof fn known_classes_have_instances(objects: Seq<Object>, i: int)
    requires
        0 <= i < objects.len(),
    ensures
        is_known_class(objects[i], class_vtables_of(objects)) <==> objects[i].kind is Class
            && exists|j: int| 0 <= j < objects.len() && (#[trigger] objects[j]).class@
            == objects[i].path@,
{
    let class = objects[i].path@;
    if exists|j: int| 0 <= j < objects.len() && (#[trigger] objects[j]).class@ == class {
        let j = choose|j: int| 0 <= j < objects.len() && (#[trigger] objects[j]).class@ == class;
        let first = lemma_first_of(objects, class, j);
        class_has_the_table_of_its_first(objects, class, first);
    } else {
        class_has_the_table_of_its_first(objects, class, 0);
    }
}

/// Where an object belongs to a class there is a first.
proof fn lemma_first_of(objects: Seq<Object>, class: Seq<char>, j: int) -> (first: int)
    requires
        0 <= j < objects.len(),
        objects[j].class@ == class,
    ensures
        is_first_of(objects, first, class),
    decreases j,
{
    if exists|k: int| 0 <= k < j && (#[trigger] objects[k]).class@ == class {
        let k = choose|k: int| 0 <= k < j && (#[trigger] objects[k]).class@ == class;
        lemma_first_of(objects, class, k)
    } else {
        j
    }
}

/// Whether `ranks` falls from every structure to what it extends, which is there and a structure.
pub open spec fn is_ranked(objects: Seq<Object>, ranks: spec_fn(Seq<char>) -> nat) -> bool {
    forall|i: int|
        0 <= i < objects.len() ==> match (#[trigger] objects[i]).kind.parent() {
            Some(parent) => exists|j: int|
                {
                    &&& 0 <= j < objects.len()
                    &&& (#[trigger] objects[j]).path@ == parent
                    &&& !(objects[j].kind is Plain)
                    &&& ranks(parent) < ranks(objects[i].path@) <= objects.len()
                },
            None => true,
        }
}

/// Objects of which each structure extends a structure that is there, and none goes in a circle,
/// are a hierarchy.
pub proof fn ranked_objects_are_a_hierarchy(
    objects: Seq<Object>,
    ranks: spec_fn(Seq<char>) -> nat,
)
    requires
        unique_paths(objects),
        is_ranked(objects, ranks),
    ensures
        is_hierarchy(objects),
{
    assert forall|i: int|
        0 <= i < objects.len() && is_known_class(
            #[trigger] objects[i],
            class_vtables_of(objects),
        ) implies is_chain(objects, objects[i].path@, objects.len()) by {
        lemma_ranked_chain(objects, ranks, i, objects.len());
    }
}

/// From a structure on the chain ends within as many steps as its rank.
proof fn lemma_ranked_chain(
    objects: Seq<Object>,
    ranks: spec_fn(Seq<char>) -> nat,
    i: int,
    steps: nat,
)
    requires
        unique_paths(objects),
        is_ranked(objects, ranks),
        0 <= i < objects.len(),
        !(objects[i].kind is Plain),
        objects[i].kind.parent() is Some ==> ranks(objects[i].path@) <= steps,
    ensures
        is_chain(objects, objects[i].path@, steps),
    decreases steps,
{
    lemma_object_at(objects, i);
    if let Some(parent) = objects[i].kind.parent() {
        let j = choose|j: int|
            {
                &&& 0 <= j < objects.len()
                &&& (#[trigger] objects[j]).path@ == parent
                &&& !(objects[j].kind is Plain)
                &&& ranks(parent) < ranks(objects[i].path@) <= objects.len()
            };
        lemma_ranked_chain(objects, ranks, j, (steps - 1) as nat);
    }
}

/// In a hierarchy everything that a known class extends is there and a structure.
pub proof fn hierarchy_is_complete(objects: Seq<Object>, i: int, parent: Seq<char>)
    requires
        unique_paths(objects),
        is_hierarchy(objects),
        0 <= i < objects.len(),
        is_known_class(objects[i], class_vtables_of(objects)),
        objects[i].kind.parent() == Some(parent),
    ensures
        exists|j: int| 0 <= j < objects.len() && (#[trigger] objects[j]).path@ == parent,
        !(object_at(objects, parent).kind is Plain),
{
    reveal_with_fuel(is_chain, 3);
    lemma_object_at(objects, i);
    assert(is_chain(objects, objects[i].path@, objects.len()));
    assert(is_chain(objects, parent, (objects.len() - 1) as nat));
    assert(has_path(objects, parent));
}

/// Cutting a table keeps as many of its first functions as it may.
pub proof fn cutting_keeps_the_first(functions: Seq<u64>, len: nat)
    ensures
        cut(functions, len).is_prefix_of(functions),
        cut(functions, len).len() == if functions.len() < len {
            functions.len()
        } else {
            len
        },
{
}

/// Tables stand for their functions under the same addresses, and what the analysis ends with for
/// its parts.
pub proof fn analysis_model_is_faithful(output: AnalyzedVtables, vtable: u64)
    ensures
        output@.objects == output.objects@,
        output@.conflicts == output.conflicts@,
        output@.vtables.contains_key(vtable) <==> output.vtables@.contains_key(vtable),
        output.vtables@.contains_key(vtable) ==> output@.vtables[vtable] == output.vtables@[vtable]@,
{
}

/// Tables that are handed over stand for their functions under the same addresses.
pub proof fn tables_model_is_faithful(tables: Map<u64, Vec<u64>>, vtable: u64)
    ensures
        tables_model(tables).contains_key(vtable) <==> tables.contains_key(vtable),
        tables.contains_key(vtable) ==> tables_model(tables)[vtable] == tables[vtable]@,
{
}

/// What the analysis reports as conflicts are those of the objects.
pub proof fn conclusion_reports_the_conflicts(objects: Seq<Object>, tables: Map<u64, Seq<u64>>)
    ensures
        conclusion(objects, tables).conflicts == conflicts_of(objects),
        conclusion(objects, tables).vtables == trimmed(objects, tables),
{
}

} // verus!
