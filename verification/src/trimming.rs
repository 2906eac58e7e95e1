//! What trimming does to the virtual tables of a hierarchy of classes.
use vstd::prelude::*;
use crate::vtable::{
    class_vtables_of, cut, is_chain, is_hierarchy, is_known_class, is_vtable, lemma_class_vtable,
    object_at, trim_ancestors, trim_for, trimmed, Object,
};

verus! {

/// The virtual tables of everything that the structure at `path` extends, up to `steps` steps
/// away.
pub open spec fn tables_above(
    objects: Seq<Object>,
    class_vtables: Map<Seq<char>, u64>,
    path: Seq<char>,
    steps: nat,
) -> Set<u64>
    decreases steps,
{
    match object_at(objects, path).kind.parent() {
        Some(parent) if steps > 0 => {
            let above = tables_above(objects, class_vtables, parent, (steps - 1) as nat);
            if class_vtables.contains_key(parent) {
                above.insert(class_vtables[parent])
            } else {
                above
            }
        },
        _ => Set::empty(),
    }
}

/// The virtual tables of everything that the structure at `path` extends.
pub open spec fn inherited_tables(objects: Seq<Object>, path: Seq<char>) -> Set<u64> {
    tables_above(objects, class_vtables_of(objects), path, objects.len())
}

/// Whether structures that share a virtual table also share those of all they extend, the shared
/// one aside. So it is where no two structures share one, and where those that share one stand
/// one right above the other.
pub open spec fn shares_inherited(objects: Seq<Object>) -> bool {
    forall|a: Seq<char>, b: Seq<char>, vtable: u64|
        #![trigger inherited_tables(objects, a).contains(vtable), class_vtables_of(objects)[b]]
        ({
            let class_vtables = class_vtables_of(objects);
            &&& class_vtables.contains_key(a)
            &&& class_vtables.contains_key(b)
            &&& class_vtables[a] == class_vtables[b]
            &&& is_chain(objects, a, objects.len())
            &&& is_chain(objects, b, objects.len())
            &&& inherited_tables(objects, a).contains(vtable)
        }) ==> vtable == class_vtables_of(objects)[a] || inherited_tables(objects, b).contains(
            vtable,
        )
}

/// Whether each of the tables `after` is the first part of the table `before`.
pub open spec fn cuts(before: Map<u64, Seq<u64>>, after: Map<u64, Seq<u64>>) -> bool {
    &&& before.dom() == after.dom()
    &&& forall|vtable: u64| (#[trigger] after[vtable]).is_prefix_of(before[vtable])
}

/// A chain stays one, with the same tables, where more steps are allowed.
proof fn lemma_steps(
    objects: Seq<Object>,
    class_vtables: Map<Seq<char>, u64>,
    path: Seq<char>,
    steps: nat,
    more: nat,
)
    requires
        is_chain(objects, path, steps),
        steps <= more,
    ensures
        is_chain(objects, path, more),
        tables_above(objects, class_vtables, path, steps) == tables_above(
            objects,
            class_vtables,
            path,
            more,
        ),
    decreases steps,
{
    match object_at(objects, path).kind.parent() {
        Some(parent) => {
            lemma_steps(
                objects,
                class_vtables,
                parent,
                (steps - 1) as nat,
                (more - 1) as nat,
            );
        },
        None => {},
    }
}

/// Trimming what a structure extends cuts tables.
proof fn lemma_cuts_ancestors(
    objects: Seq<Object>,
    class_vtables: Map<Seq<char>, u64>,
    path: Seq<char>,
    len: nat,
    tables: Map<u64, Seq<u64>>,
    steps: nat,
)
    requires
        forall|class: Seq<char>| #[trigger]
            class_vtables.contains_key(class) ==> tables.contains_key(class_vtables[class]),
    ensures
        cuts(tables, trim_ancestors(objects, class_vtables, path, len, tables, steps)),
    decreases steps,
{
    match object_at(objects, path).kind.parent() {
        Some(parent) if steps > 0 => {
            let fewer = (steps - 1) as nat;
            if class_vtables.contains_key(parent) {
                let vtable = class_vtables[parent];
                let functions = cut(tables[vtable], len);
                let next = tables.insert(vtable, functions);
                lemma_cuts_ancestors(
                    objects,
                    class_vtables,
                    parent,
                    functions.len(),
                    next,
                    fewer,
                );
                assert(next.dom() =~= tables.dom());
                let after = trim_ancestors(
                    objects,
                    class_vtables,
                    path,
                    len,
                    tables,
                    steps,
                );
                assert forall|other: u64| (#[trigger] after[other]).is_prefix_of(
                    tables[other],
                ) by {
                    assert(after[other].is_prefix_of(next[other]));
                }
            } else {
                lemma_cuts_ancestors(objects, class_vtables, parent, len, tables, fewer);
            }
        },
        _ => {},
    }
}

/// Trimming what a structure extends leaves all other tables as they are.
proof fn lemma_leaves_others(
    objects: Seq<Object>,
    class_vtables: Map<Seq<char>, u64>,
    path: Seq<char>,
    len: nat,
    tables: Map<u64, Seq<u64>>,
    steps: nat,
    vtable: u64,
)
    requires
        !tables_above(objects, class_vtables, path, steps).contains(vtable),
    ensures
        trim_ancestors(objects, class_vtables, path, len, tables, steps)[vtable] == tables[vtable],
    decreases steps,
{
    match object_at(objects, path).kind.parent() {
        Some(parent) if steps > 0 => {
            let fewer = (steps - 1) as nat;
            if class_vtables.contains_key(parent) {
                let functions = cut(tables[class_vtables[parent]], len);
                lemma_leaves_others(
                    objects,
                    class_vtables,
                    parent,
                    functions.len(),
                    tables.insert(class_vtables[parent], functions),
                    fewer,
                    vtable,
                );
            } else {
                lemma_leaves_others(objects, class_vtables, parent, len, tables, fewer, vtable);
            }
        },
        _ => {},
    }
}

/// Trimming what a structure extends leaves no table of it longer than the structure's own.
proof fn lemma_bounds_ancestors(
    objects: Seq<Object>,
    class_vtables: Map<Seq<char>, u64>,
    path: Seq<char>,
    len: nat,
    tables: Map<u64, Seq<u64>>,
    steps: nat,
    vtable: u64,
)
    requires
        tables_above(objects, class_vtables, path, steps).contains(vtable),
    ensures
        trim_ancestors(objects, class_vtables, path, len, tables, steps)[vtable].len() <= len,
    decreases steps,
{
    match object_at(objects, path).kind.parent() {
        Some(parent) if steps > 0 => {
            let fewer = (steps - 1) as nat;
            if class_vtables.contains_key(parent) {
                let functions = cut(tables[class_vtables[parent]], len);
                let next = tables.insert(class_vtables[parent], functions);
                if tables_above(objects, class_vtables, parent, fewer).contains(vtable) {
                    lemma_bounds_ancestors(
                        objects,
                        class_vtables,
                        parent,
                        functions.len(),
                        next,
                        fewer,
                        vtable,
                    );
                } else {
                    lemma_leaves_others(
                        objects,
                        class_vtables,
                        parent,
                        functions.len(),
                        next,
                        fewer,
                        vtable,
                    );
                }
            } else {
                lemma_bounds_ancestors(objects, class_vtables, parent, len, tables, fewer, vtable);
            }
        },
        _ => {},
    }
}

/// Trimming what a structure extends orders its tables: none is longer than that of a structure
/// below it.
proof fn lemma_orders_ancestors(
    objects: Seq<Object>,
    path: Seq<char>,
    len: nat,
    tables: Map<u64, Seq<u64>>,
    steps: nat,
    below: Seq<char>,
    vtable: u64,
)
    requires
        shares_inherited(objects),
        steps <= objects.len(),
        is_chain(objects, path, steps),
        is_chain(objects, below, objects.len()),
        class_vtables_of(objects).contains_key(below),
        tables_above(objects, class_vtables_of(objects), path, steps).contains(
            class_vtables_of(objects)[below],
        ),
        inherited_tables(objects, below).contains(vtable),
    ensures
        ({
            let after = trim_ancestors(
                objects,
                class_vtables_of(objects),
                path,
                len,
                tables,
                steps,
            );
            after[vtable].len() <= after[class_vtables_of(objects)[below]].len()
        }),
    decreases steps,
{
    let class_vtables = class_vtables_of(objects);
    match object_at(objects, path).kind.parent() {
        Some(parent) if steps > 0 => {
            let fewer = (steps - 1) as nat;
            let above = tables_above(objects, class_vtables, parent, fewer);
            let (bound, next) = if class_vtables.contains_key(parent) {
                let functions = cut(tables[class_vtables[parent]], len);
                (functions.len(), tables.insert(class_vtables[parent], functions))
            } else {
                (len, tables)
            };
            if above.contains(class_vtables[below]) {
                lemma_orders_ancestors(objects, parent, bound, next, fewer, below, vtable);
            } else {
                lemma_leaves_others(
                    objects,
                    class_vtables,
                    parent,
                    bound,
                    next,
                    fewer,
                    class_vtables[below],
                );
                lemma_steps(objects, class_vtables, parent, fewer, objects.len());
                if vtable != class_vtables[below] {
                    assert(class_vtables[parent] == class_vtables[below]);
                    assert(inherited_tables(objects, parent).contains(vtable));
                    lemma_bounds_ancestors(
                        objects,
                        class_vtables,
                        parent,
                        bound,
                        next,
                        fewer,
                        vtable,
                    );
                }
            }
        },
        _ => {},
    }
}

/// Trimming for some of the objects cuts tables.
proof fn lemma_cuts_for(objects: Seq<Object>, tables: Map<u64, Seq<u64>>, count: nat)
    requires
        forall|vtable: u64| #[trigger]
            is_vtable(objects, vtable) ==> tables.contains_key(vtable),
    ensures
        cuts(tables, trim_for(objects, class_vtables_of(objects), tables, count)),
    decreases count,
{
    if count > 0 {
        let class_vtables = class_vtables_of(objects);
        let before = trim_for(objects, class_vtables, tables, (count - 1) as nat);
        let after = trim_for(objects, class_vtables, tables, count);
        let object = objects[count - 1];
        lemma_cuts_for(objects, tables, (count - 1) as nat);
        if is_known_class(object, class_vtables) {
            assert forall|class: Seq<char>| #[trigger]
                class_vtables.contains_key(class) implies before.contains_key(
                class_vtables[class],
            ) by {
                lemma_class_vtable(objects, class);
            }
            lemma_cuts_ancestors(
                objects,
                class_vtables,
                object.path@,
                before[class_vtables[object.path@]].len(),
                before,
                objects.len(),
            );
            assert forall|vtable: u64| (#[trigger] after[vtable]).is_prefix_of(tables[vtable]) by {
                assert(after[vtable].is_prefix_of(before[vtable]));
                assert(before[vtable].is_prefix_of(tables[vtable]));
            }
        }
    }
}

/// Trimming keeps every table, and of each table a first part.
pub proof fn trimming_cuts(objects: Seq<Object>, tables: Map<u64, Seq<u64>>)
    requires
        forall|vtable: u64| #[trigger]
            is_vtable(objects, vtable) ==> tables.contains_key(vtable),
    ensures
        cuts(tables, trimmed(objects, tables)),
{
    lemma_cuts_for(objects, tables, objects.len());
}

/// A table that no class with a known table inherits is not trimmed.
pub proof fn trimming_spares_leaves(
    objects: Seq<Object>,
    tables: Map<u64, Seq<u64>>,
    vtable: u64,
)
    requires
        forall|i: int|
            0 <= i < objects.len() && is_known_class(
                #[trigger] objects[i],
                class_vtables_of(objects),
            ) ==> !inherited_tables(objects, objects[i].path@).contains(vtable),
    ensures
        trimmed(objects, tables)[vtable] == tables[vtable],
{
    lemma_spares_leaves(objects, tables, vtable, objects.len());
}

/// A table that no class with a known table inherits is not trimmed for some of the objects.
proof fn lemma_spares_leaves(
    objects: Seq<Object>,
    tables: Map<u64, Seq<u64>>,
    vtable: u64,
    count: nat,
)
    requires
        count <= objects.len(),
        forall|i: int|
            0 <= i < objects.len() && is_known_class(
                #[trigger] objects[i],
                class_vtables_of(objects),
            ) ==> !inherited_tables(objects, objects[i].path@).contains(vtable),
    ensures
        trim_for(objects, class_vtables_of(objects), tables, count)[vtable] == tables[vtable],
    decreases count,
{
    if count > 0 {
        let class_vtables = class_vtables_of(objects);
        let before = trim_for(objects, class_vtables, tables, (count - 1) as nat);
        let object = objects[count - 1];
        lemma_spares_leaves(objects, tables, vtable, (count - 1) as nat);
        if is_known_class(object, class_vtables) {
            lemma_leaves_others(
                objects,
                class_vtables,
                object.path@,
                before[class_vtables[object.path@]].len(),
                before,
                objects.len(),
                vtable,
            );
        }
    }
}

/// A table that a class inherits ends up no longer than the class's own table was found to be.
pub proof fn inherited_tables_fit_walks(
    objects: Seq<Object>,
    tables: Map<u64, Seq<u64>>,
    i: int,
    vtable: u64,
)
    requires
        forall|vtable: u64| #[trigger]
            is_vtable(objects, vtable) ==> tables.contains_key(vtable),
        0 <= i < objects.len(),
        is_known_class(objects[i], class_vtables_of(objects)),
        inherited_tables(objects, objects[i].path@).contains(vtable),
    ensures
        trimmed(objects, tables)[vtable].len() <= tables[class_vtables_of(
            objects,
        )[objects[i].path@]].len(),
{
    lemma_fits_walks(objects, tables, i, vtable, objects.len());
}

/// A table that a class inherits is no longer than the class's own table was found to be, once it
/// was trimmed for that class.
proof fn lemma_fits_walks(
    objects: Seq<Object>,
    tables: Map<u64, Seq<u64>>,
    i: int,
    vtable: u64,
    count: nat,
)
    requires
        forall|vtable: u64| #[trigger]
            is_vtable(objects, vtable) ==> tables.contains_key(vtable),
        0 <= i < count <= objects.len(),
        is_known_class(objects[i], class_vtables_of(objects)),
        inherited_tables(objects, objects[i].path@).contains(vtable),
    ensures
        trim_for(objects, class_vtables_of(objects), tables, count)[vtable].len()
            <= tables[class_vtables_of(objects)[objects[i].path@]].len(),
    decreases count,
{
    let class_vtables = class_vtables_of(objects);
    let own = class_vtables[objects[i].path@];
    let before = trim_for(objects, class_vtables, tables, (count - 1) as nat);
    let object = objects[count - 1];
    lemma_cuts_for(objects, tables, (count - 1) as nat);
    if i == count - 1 {
        assert(before[own].is_prefix_of(tables[own]));
        lemma_bounds_ancestors(
            objects,
            class_vtables,
            object.path@,
            before[own].len(),
            before,
            objects.len(),
            vtable,
        );
    } else {
        lemma_fits_walks(objects, tables, i, vtable, (count - 1) as nat);
        lemma_shrinks(objects, tables, count, vtable);
    }
}

/// Trimming for one more object makes no table longer.
proof fn lemma_shrinks(
    objects: Seq<Object>,
    tables: Map<u64, Seq<u64>>,
    count: nat,
    vtable: u64,
)
    requires
        forall|vtable: u64| #[trigger]
            is_vtable(objects, vtable) ==> tables.contains_key(vtable),
        0 < count <= objects.len(),
    ensures
        trim_for(objects, class_vtables_of(objects), tables, count)[vtable].len() <= trim_for(
            objects,
            class_vtables_of(objects),
            tables,
            (count - 1) as nat,
        )[vtable].len(),
{
    let class_vtables = class_vtables_of(objects);
    let before = trim_for(objects, class_vtables, tables, (count - 1) as nat);
    let after = trim_for(objects, class_vtables, tables, count);
    let object = objects[count - 1];
    if is_known_class(object, class_vtables) {
        lemma_cuts_for(objects, tables, (count - 1) as nat);
        assert forall|class: Seq<char>| #[trigger]
            class_vtables.contains_key(class) implies before.contains_key(
            class_vtables[class],
        ) by {
            lemma_class_vtable(objects, class);
        }
        lemma_cuts_ancestors(
            objects,
            class_vtables,
            object.path@,
            before[class_vtables[object.path@]].len(),
            before,
            objects.len(),
        );
        assert(after[vtable].is_prefix_of(before[vtable]));
    }
}

/// In the end no table that a class inherits is longer than the class's own, where structures
/// that share a virtual table also share those of all they extend.
pub proof fn inherited_tables_are_bounded(
    objects: Seq<Object>,
    tables: Map<u64, Seq<u64>>,
    i: int,
    vtable: u64,
)
    requires
        is_hierarchy(objects),
        shares_inherited(objects),
        forall|vtable: u64| #[trigger]
            is_vtable(objects, vtable) ==> tables.contains_key(vtable),
        0 <= i < objects.len(),
        is_known_class(objects[i], class_vtables_of(objects)),
        inherited_tables(objects, objects[i].path@).contains(vtable),
    ensures
        ({
            let after = trimmed(objects, tables);
            after[vtable].len() <= after[class_vtables_of(objects)[objects[i].path@]].len()
        }),
{
    lemma_is_bounded(objects, tables, i, vtable, objects.len());
}

/// No table that a class inherits is longer than the class's own, once it was trimmed for that
/// class.
proof fn lemma_is_bounded(
    objects: Seq<Object>,
    tables: Map<u64, Seq<u64>>,
    i: int,
    vtable: u64,
    count: nat,
)
    requires
        is_hierarchy(objects),
        shares_inherited(objects),
        forall|vtable: u64| #[trigger]
            is_vtable(objects, vtable) ==> tables.contains_key(vtable),
        0 <= i < count <= objects.len(),
        is_known_class(objects[i], class_vtables_of(objects)),
        inherited_tables(objects, objects[i].path@).contains(vtable),
    ensures
        ({
            let after = trim_for(objects, class_vtables_of(objects), tables, count);
            after[vtable].len() <= after[class_vtables_of(objects)[objects[i].path@]].len()
        }),
    decreases count,
{
    let class_vtables = class_vtables_of(objects);
    let own = class_vtables[objects[i].path@];
    let before = trim_for(objects, class_vtables, tables, (count - 1) as nat);
    let object = objects[count - 1];
    if i < count - 1 {
        lemma_is_bounded(objects, tables, i, vtable, (count - 1) as nat);
    }
    if is_known_class(object, class_vtables) {
        let len = before[class_vtables[object.path@]].len();
        if inherited_tables(objects, object.path@).contains(own) {
            lemma_orders_ancestors(
                objects,
                object.path@,
                len,
                before,
                objects.len(),
                objects[i].path@,
                vtable,
            );
        } else {
            lemma_leaves_others(
                objects,
                class_vtables,
                object.path@,
                len,
                before,
                objects.len(),
                own,
            );
            if i < count - 1 {
                lemma_shrinks(objects, tables, count, vtable);
            } else {
                lemma_bounds_ancestors(
                    objects,
                    class_vtables,
                    object.path@,
                    len,
                    before,
                    objects.len(),
                    vtable,
                );
            }
        }
    }
}

/// Whether, from the structure at `path` on, the one at `ancestor` is reached in at most `steps`
/// steps up.
pub open spec fn extends(
    objects: Seq<Object>,
    path: Seq<char>,
    ancestor: Seq<char>,
    steps: nat,
) -> bool
    decreases steps,
{
    match object_at(objects, path).kind.parent() {
        Some(parent) if steps > 0 => parent == ancestor || extends(
            objects,
            parent,
            ancestor,
            (steps - 1) as nat,
        ),
        _ => false,
    }
}

/// Trimming what a structure extends leaves no table of it longer than that of what is between.
proof fn lemma_bounds_between(
    objects: Seq<Object>,
    path: Seq<char>,
    len: nat,
    tables: Map<u64, Seq<u64>>,
    steps: nat,
    below: Seq<char>,
    vtable: u64,
)
    requires
        steps <= objects.len(),
        is_chain(objects, path, steps),
        extends(objects, path, below, steps),
        class_vtables_of(objects).contains_key(below),
        inherited_tables(objects, below).contains(vtable),
    ensures
        trim_ancestors(
            objects,
            class_vtables_of(objects),
            path,
            len,
            tables,
            steps,
        )[vtable].len() <= tables[class_vtables_of(objects)[below]].len(),
    decreases steps,
{
    let class_vtables = class_vtables_of(objects);
    match object_at(objects, path).kind.parent() {
        Some(parent) if steps > 0 => {
            let fewer = (steps - 1) as nat;
            let (bound, next) = if class_vtables.contains_key(parent) {
                let functions = cut(tables[class_vtables[parent]], len);
                (functions.len(), tables.insert(class_vtables[parent], functions))
            } else {
                (len, tables)
            };
            if parent == below {
                lemma_steps(objects, class_vtables, parent, fewer, objects.len());
                lemma_bounds_ancestors(
                    objects,
                    class_vtables,
                    parent,
                    bound,
                    next,
                    fewer,
                    vtable,
                );
            } else {
                lemma_bounds_between(objects, parent, bound, next, fewer, below, vtable);
            }
        },
        _ => {},
    }
}

/// A table ends up no longer than the table of anything that inherits it was found to be, as far
/// as that is a class with a known table or extended by one.
pub proof fn tables_between_bound_too(
    objects: Seq<Object>,
    tables: Map<u64, Seq<u64>>,
    i: int,
    below: Seq<char>,
    vtable: u64,
)
    requires
        is_hierarchy(objects),
        forall|vtable: u64| #[trigger]
            is_vtable(objects, vtable) ==> tables.contains_key(vtable),
        0 <= i < objects.len(),
        is_known_class(objects[i], class_vtables_of(objects)),
        extends(objects, objects[i].path@, below, objects.len()),
        class_vtables_of(objects).contains_key(below),
        inherited_tables(objects, below).contains(vtable),
    ensures
        trimmed(objects, tables)[vtable].len() <= tables[class_vtables_of(objects)[below]].len(),
{
    lemma_between(objects, tables, i, below, vtable, objects.len());
}

/// A table is no longer than that of what is between, once it was trimmed for the class.
proof fn lemma_between(
    objects: Seq<Object>,
    tables: Map<u64, Seq<u64>>,
    i: int,
    below: Seq<char>,
    vtable: u64,
    count: nat,
)
    requires
        is_hierarchy(objects),
        forall|vtable: u64| #[trigger]
            is_vtable(objects, vtable) ==> tables.contains_key(vtable),
        0 <= i < count <= objects.len(),
        is_known_class(objects[i], class_vtables_of(objects)),
        extends(objects, objects[i].path@, below, objects.len()),
        class_vtables_of(objects).contains_key(below),
        inherited_tables(objects, below).contains(vtable),
    ensures
        trim_for(objects, class_vtables_of(objects), tables, count)[vtable].len()
            <= tables[class_vtables_of(objects)[below]].len(),
    decreases count,
{
    let class_vtables = class_vtables_of(objects);
    let before = trim_for(objects, class_vtables, tables, (count - 1) as nat);
    if i == count - 1 {
        lemma_cuts_for(objects, tables, (count - 1) as nat);
        assert(before[class_vtables[below]].is_prefix_of(tables[class_vtables[below]]));
        lemma_bounds_between(
            objects,
            objects[i].path@,
            before[class_vtables[objects[i].path@]].len(),
            before,
            objects.len(),
            below,
            vtable,
        );
    } else {
        lemma_between(objects, tables, i, below, vtable, (count - 1) as nat);
        lemma_shrinks(objects, tables, count, vtable);
    }
}

/// Whether a set of tables holds, with each table in it, the tables of all that inherit it.
pub open spec fn holds_heirs(objects: Seq<Object>, set: Set<u64>) -> bool {
    forall|path: Seq<char>, vtable: u64|
        #![trigger inherited_tables(objects, path).contains(vtable)]
        class_vtables_of(objects).contains_key(path) && is_chain(objects, path, objects.len())
            && inherited_tables(objects, path).contains(vtable) && set.contains(vtable)
            ==> set.contains(class_vtables_of(objects)[path])
}

/// Whether all tables of a set have at least `len` functions.
pub open spec fn all_reach(set: Set<u64>, tables: Map<u64, Seq<u64>>, len: nat) -> bool {
    forall|vtable: u64| set.contains(vtable) ==> (#[trigger] tables[vtable]).len() >= len
}

/// Trimming what a structure extends keeps a length that all heirs have.
proof fn lemma_keeps_length(
    objects: Seq<Object>,
    path: Seq<char>,
    bound: nat,
    tables: Map<u64, Seq<u64>>,
    steps: nat,
    set: Set<u64>,
    len: nat,
)
    requires
        steps <= objects.len(),
        is_chain(objects, path, steps),
        holds_heirs(objects, set),
        all_reach(set, tables, len),
        bound >= len || forall|vtable: u64|
            set.contains(vtable) ==> !#[trigger] tables_above(
                objects,
                class_vtables_of(objects),
                path,
                steps,
            ).contains(vtable),
    ensures
        all_reach(
            set,
            trim_ancestors(objects, class_vtables_of(objects), path, bound, tables, steps),
            len,
        ),
    decreases steps,
{
    let class_vtables = class_vtables_of(objects);
    match object_at(objects, path).kind.parent() {
        Some(parent) if steps > 0 => {
            let fewer = (steps - 1) as nat;
            let above = tables_above(objects, class_vtables, path, steps);
            let rest = tables_above(objects, class_vtables, parent, fewer);
            lemma_steps(objects, class_vtables, parent, fewer, objects.len());
            assert(rest == inherited_tables(objects, parent));
            if class_vtables.contains_key(parent) {
                let own = class_vtables[parent];
                let functions = cut(tables[own], bound);
                let next = tables.insert(own, functions);
                assert(above.contains(own));
                if set.contains(own) {
                    assert(functions.len() >= len);
                } else {
                    assert forall|vtable: u64| set.contains(vtable) implies !#[trigger]
                        rest.contains(vtable) by {
                        if rest.contains(vtable) {
                            assert(inherited_tables(objects, parent).contains(vtable));
                        }
                    }
                }
                assert(all_reach(set, next, len));
                lemma_keeps_length(objects, parent, functions.len(), next, fewer, set, len);
            } else {
                lemma_keeps_length(objects, parent, bound, tables, fewer, set, len);
            }
        },
        _ => {},
    }
}

/// Trimming cuts no deeper than it must: a length that a table and the tables of all its heirs
/// were found to have is kept.
pub proof fn trimming_keeps_what_it_can(
    objects: Seq<Object>,
    tables: Map<u64, Seq<u64>>,
    set: Set<u64>,
    len: nat,
    vtable: u64,
)
    requires
        is_hierarchy(objects),
        holds_heirs(objects, set),
        all_reach(set, tables, len),
        set.contains(vtable),
    ensures
        trimmed(objects, tables)[vtable].len() >= len,
{
    lemma_keeps_length_for(objects, tables, set, len, objects.len());
    assert(trimmed(objects, tables)[vtable].len() >= len);
}

/// Trimming for some of the objects keeps a length that all heirs have.
proof fn lemma_keeps_length_for(
    objects: Seq<Object>,
    tables: Map<u64, Seq<u64>>,
    set: Set<u64>,
    len: nat,
    count: nat,
)
    requires
        is_hierarchy(objects),
        holds_heirs(objects, set),
        all_reach(set, tables, len),
        count <= objects.len(),
    ensures
        all_reach(set, trim_for(objects, class_vtables_of(objects), tables, count), len),
    decreases count,
{
    if count > 0 {
        let class_vtables = class_vtables_of(objects);
        let before = trim_for(objects, class_vtables, tables, (count - 1) as nat);
        let object = objects[count - 1];
        lemma_keeps_length_for(objects, tables, set, len, (count - 1) as nat);
        if is_known_class(object, class_vtables) {
            let own = class_vtables[object.path@];
            let above = inherited_tables(objects, object.path@);
            assert(is_chain(objects, object.path@, objects.len()));
            if !set.contains(own) {
                assert forall|vtable: u64| set.contains(vtable) implies !#[trigger] above.contains(
                    vtable,
                ) by {
                    if above.contains(vtable) {
                        assert(inherited_tables(objects, object.path@).contains(vtable));
                    }
                }
            } else {
                assert(before[own].len() >= len);
            }
            lemma_keeps_length(
                objects,
                object.path@,
                before[own].len(),
                before,
                objects.len(),
                set,
                len,
            );
        }
    }
}

/// Classes are trimmed for in the order of the objects: a table that a class inherits ends up no
/// longer than the class's own, where no later class inherits that one.
pub proof fn later_classes_trim_later(
    objects: Seq<Object>,
    tables: Map<u64, Seq<u64>>,
    i: int,
    vtable: u64,
)
    requires
        forall|vtable: u64| #[trigger]
            is_vtable(objects, vtable) ==> tables.contains_key(vtable),
        0 <= i < objects.len(),
        is_known_class(objects[i], class_vtables_of(objects)),
        inherited_tables(objects, objects[i].path@).contains(vtable),
        forall|j: int|
            i <= j < objects.len() && is_known_class(
                #[trigger] objects[j],
                class_vtables_of(objects),
            ) ==> !inherited_tables(objects, objects[j].path@).contains(
                class_vtables_of(objects)[objects[i].path@],
            ),
    ensures
        ({
            let after = trimmed(objects, tables);
            after[vtable].len() <= after[class_vtables_of(objects)[objects[i].path@]].len()
        }),
{
    lemma_trims_later(objects, tables, i, vtable, objects.len());
}

/// A table that a class inherits is no longer than the class's own, once it was trimmed for that
/// class and while no later class inherits that one.
proof fn lemma_trims_later(
    objects: Seq<Object>,
    tables: Map<u64, Seq<u64>>,
    i: int,
    vtable: u64,
    count: nat,
)
    requires
        forall|vtable: u64| #[trigger]
            is_vtable(objects, vtable) ==> tables.contains_key(vtable),
        0 <= i < count <= objects.len(),
        is_known_class(objects[i], class_vtables_of(objects)),
        inherited_tables(objects, objects[i].path@).contains(vtable),
        forall|j: int|
            i <= j < objects.len() && is_known_class(
                #[trigger] objects[j],
                class_vtables_of(objects),
            ) ==> !inherited_tables(objects, objects[j].path@).contains(
                class_vtables_of(objects)[objects[i].path@],
            ),
    ensures
        ({
            let after = trim_for(objects, class_vtables_of(objects), tables, count);
            after[vtable].len() <= after[class_vtables_of(objects)[objects[i].path@]].len()
        }),
    decreases count,
{
    let class_vtables = class_vtables_of(objects);
    let own = class_vtables[objects[i].path@];
    let before = trim_for(objects, class_vtables, tables, (count - 1) as nat);
    let object = objects[count - 1];
    if i < count - 1 {
        lemma_trims_later(objects, tables, i, vtable, (count - 1) as nat);
        lemma_shrinks(objects, tables, count, vtable);
    }
    if is_known_class(object, class_vtables) {
        let len = before[class_vtables[object.path@]].len();
        lemma_leaves_others(
            objects,
            class_vtables,
            object.path@,
            len,
            before,
            objects.len(),
            own,
        );
        if i == count - 1 {
            lemma_bounds_ancestors(
                objects,
                class_vtables,
                object.path@,
                len,
                before,
                objects.len(),
                vtable,
            );
        }
    }
}

} // verus!
