use jmap_dumper::task::run;
use jmap_dumper::vtable::{
    analyze_vtables, plan_vtables, walk_vtable, AnalyzedVtables, Conflict, Object, ObjectKind,
    VtableEntry,
};
use std::collections::BTreeMap;

/// A memory made of regions that can be read.
struct Image {
    regions: Vec<(u64, Vec<u8>)>,
}

impl Image {
    fn new() -> Self {
        Image { regions: Vec::new() }
    }

    fn put(mut self, address: u64, bytes: &[u8]) -> Self {
        self.regions.push((address, bytes.to_vec()));
        self
    }

    fn read(&self, address: u64, len: u64) -> Option<Vec<u8>> {
        for (start, bytes) in &self.regions {
            if address < *start {
                continue;
            }
            let from = (address - *start) as usize;
            let to = from.checked_add(len as usize)?;
            if to <= bytes.len() {
                return Some(bytes[from..to].to_vec());
            }
        }
        None
    }
}

fn plain(path: &str, class: &str, vtable: u64) -> Object {
    Object { path: path.to_string(), class: class.to_string(), vtable, kind: ObjectKind::Plain }
}

fn class(path: &str, parent: Option<&str>, vtable: u64) -> Object {
    Object {
        path: path.to_string(),
        class: "Class".to_string(),
        vtable,
        kind: ObjectKind::Class {
            super_struct: parent.map(|parent| parent.to_string()),
            instance_vtable: None,
        },
    }
}

fn slots(functions: &[u64]) -> Vec<u8> {
    functions.iter().flat_map(|function| function.to_le_bytes()).collect()
}

/// Functions can be anywhere between these addresses.
const CODE: u64 = 0x9_0000;

fn image() -> Image {
    Image::new().put(CODE, &[0xcc; 0x100])
}

fn code(numbers: &[u64]) -> Vec<u64> {
    numbers.iter().map(|number| CODE + number).collect()
}

fn walk(image: &Image, vtable: u64, bound: Option<u64>) -> Vec<u64> {
    run(walk_vtable(VtableEntry { vtable, bound }), |address, len| image.read(address, len))
}

fn analyze(image: &Image, objects: Vec<Object>) -> AnalyzedVtables {
    run(analyze_vtables(objects), |address, len| image.read(address, len))
}

fn instance_vtables(objects: &[Object]) -> Vec<(String, Option<u64>)> {
    let mut found = Vec::new();
    for object in objects {
        if let ObjectKind::Class { instance_vtable, .. } = &object.kind {
            found.push((object.path.clone(), *instance_vtable));
        }
    }
    found
}

#[test]
fn walk_ends_at_the_bound() {
    let image = image().put(0x1000, &slots(&code(&[1, 2, 3, 4])));
    assert_eq!(walk(&image, 0x1000, Some(0x1010)), code(&[1, 2]));
    assert_eq!(walk(&image, 0x1000, Some(0x1011)), code(&[1, 2, 3]));
    assert_eq!(walk(&image, 0x1000, Some(0x1000)), vec![]);
}

#[test]
fn walk_ends_where_memory_ends() {
    let image = image().put(0x1000, &slots(&code(&[1, 2, 3])));
    assert_eq!(walk(&image, 0x1000, None), code(&[1, 2, 3]));
    assert_eq!(walk(&image, 0x1000, Some(0x2000)), code(&[1, 2, 3]));
    assert_eq!(walk(&image, 0x5000, None), vec![]);
}

#[test]
fn walk_ends_at_a_pointer_to_nowhere() {
    let mut functions = code(&[1, 2]);
    functions.push(0x66);
    functions.push(CODE);
    let image = image().put(0x1000, &slots(&functions));
    assert_eq!(walk(&image, 0x1000, None), code(&[1, 2]));
}

#[test]
fn walk_ends_with_the_address_space() {
    let start = u64::MAX - 15;
    let image = image().put(start, &slots(&code(&[5, 6])));
    assert_eq!(walk(&image, start, None), code(&[5, 6]));
}

#[test]
fn entries_are_the_tables_in_order_and_each_ends_at_the_next() {
    let analysis = plan_vtables(vec![
        plain("a", "A", 0x3000),
        plain("b", "B", 0x1000),
        plain("c", "C", 0x3000),
        plain("d", "D", 0x2000),
    ]);
    assert_eq!(
        analysis.entries,
        vec![
            VtableEntry { vtable: 0x1000, bound: Some(0x2000) },
            VtableEntry { vtable: 0x2000, bound: Some(0x3000) },
            VtableEntry { vtable: 0x3000, bound: None },
        ]
    );
}

#[test]
fn conflicting_objects_are_reported_and_the_first_counts() {
    let objects = vec![
        plain("a", "A", 0x1000),
        plain("b", "A", 0x2000),
        plain("c", "B", 0x2000),
        plain("d", "A", 0x1000),
        plain("e", "A", 0x3000),
    ];
    let expected = vec![
        Conflict { object: 1, existing: 0x1000 },
        Conflict { object: 4, existing: 0x1000 },
    ];
    assert_eq!(plan_vtables(objects).conflicts, expected);
    let objects = vec![class("A", None, 0x900), plain("x", "A", 0x1000), plain("y", "A", 0x2000)];
    let analyzed = analyze(&image(), objects);
    assert_eq!(analyzed.conflicts, vec![Conflict { object: 2, existing: 0x1000 }]);
    assert_eq!(instance_vtables(&analyzed.objects), vec![("A".to_string(), Some(0x1000))]);
}

/// A base class, a class that extends it, and an instance of each.
fn family() -> Vec<Object> {
    vec![
        class("Base", None, 0x4000),
        class("Derived", Some("Base"), 0x4000),
        plain("x", "Base", 0x1000),
        plain("y", "Derived", 0x2000),
    ]
}

#[test]
fn tables_of_ancestors_are_trimmed() {
    let image = image()
        .put(0x1000, &slots(&code(&[1, 2, 3, 4])))
        .put(0x2000, &slots(&code(&[1, 9])))
        .put(0x4000, &slots(&code(&[7])));
    let analyzed = analyze(&image, family());
    let mut expected = BTreeMap::new();
    expected.insert(0x1000, code(&[1, 2]));
    expected.insert(0x2000, code(&[1, 9]));
    expected.insert(0x4000, code(&[7]));
    assert_eq!(analyzed.vtables, expected);
    assert_eq!(
        instance_vtables(&analyzed.objects),
        vec![("Base".to_string(), Some(0x1000)), ("Derived".to_string(), Some(0x2000))]
    );
    let paths: Vec<&str> = analyzed.objects.iter().map(|object| object.path.as_str()).collect();
    assert_eq!(paths, vec!["Base", "Derived", "x", "y"]);
    assert_eq!(analyzed.conflicts, vec![]);
}

#[test]
fn tables_of_descendants_are_not_trimmed() {
    let image = image()
        .put(0x1000, &slots(&code(&[1])))
        .put(0x2000, &slots(&code(&[1, 2, 3])));
    let analyzed = analyze(&image, family());
    assert_eq!(analyzed.vtables[&0x1000], code(&[1]));
    assert_eq!(analyzed.vtables[&0x2000], code(&[1, 2, 3]));
    assert_eq!(analyzed.vtables[&0x4000], vec![]);
}

#[test]
fn bounds_pass_over_classes_without_a_table() {
    let image = image()
        .put(0x1000, &slots(&code(&[1, 2, 3, 4])))
        .put(0x2000, &slots(&code(&[1, 2])));
    let objects = vec![
        class("A", None, 0x4000),
        class("B", Some("A"), 0x4000),
        class("C", Some("B"), 0x4000),
        plain("x", "A", 0x1000),
        plain("y", "C", 0x2000),
    ];
    let analyzed = analyze(&image, objects);
    assert_eq!(analyzed.vtables[&0x1000], code(&[1, 2]));
    assert_eq!(
        instance_vtables(&analyzed.objects),
        vec![
            ("A".to_string(), Some(0x1000)),
            ("B".to_string(), None),
            ("C".to_string(), Some(0x2000))
        ]
    );
}

#[test]
fn trimming_goes_through_structures() {
    let image = image()
        .put(0x1000, &slots(&code(&[1, 2, 3])))
        .put(0x2000, &slots(&code(&[1])));
    let base = Object {
        path: "Base".to_string(),
        class: "Struct".to_string(),
        vtable: 0x4000,
        kind: ObjectKind::Struct { super_struct: None },
    };
    let objects = vec![
        base,
        class("Derived", Some("Base"), 0x5000),
        plain("x", "Base", 0x1000),
        plain("y", "Derived", 0x2000),
    ];
    let analyzed = analyze(&image, objects);
    assert_eq!(analyzed.vtables[&0x1000], code(&[1]));
    assert!(matches!(analyzed.objects[0].kind, ObjectKind::Struct { super_struct: None }));
}

#[test]
fn later_classes_can_trim_a_table_that_bounded_another() {
    // "A" and "B" share a table, and only "A" extends "Base": once "B"'s subclass has cut the
    // shared table, that of "Base" stays longer.
    let image = image()
        .put(0x1000, &slots(&code(&[1, 2, 3])))
        .put(0x2000, &slots(&code(&[4, 5, 6])))
        .put(0x3000, &slots(&code(&[7])));
    let objects = vec![
        class("A", Some("Base"), 0x8000),
        class("B", None, 0x8000),
        class("Base", None, 0x8000),
        class("Sub", Some("B"), 0x8000),
        plain("a", "A", 0x2000),
        plain("b", "B", 0x2000),
        plain("base", "Base", 0x1000),
        plain("sub", "Sub", 0x3000),
    ];
    let analyzed = analyze(&image, objects);
    assert_eq!(analyzed.vtables[&0x1000].len(), 3);
    assert_eq!(analyzed.vtables[&0x2000].len(), 1);
    assert_eq!(analyzed.vtables[&0x3000].len(), 1);
}

#[test]
fn classes_that_share_the_table_of_what_they_extend_stay_bounded() {
    let image = image()
        .put(0x1000, &slots(&code(&[1, 2, 3, 4])))
        .put(0x2000, &slots(&code(&[1, 2, 3])))
        .put(0x3000, &slots(&code(&[1, 2])));
    let objects = vec![
        class("Blueprint", Some("Native"), 0x8000),
        class("Native", Some("Root"), 0x8000),
        class("Other", Some("Blueprint"), 0x8000),
        class("Root", None, 0x8000),
        plain("a", "Blueprint", 0x2000),
        plain("b", "Native", 0x2000),
        plain("c", "Other", 0x3000),
        plain("d", "Root", 0x1000),
    ];
    let analyzed = analyze(&image, objects);
    assert_eq!(analyzed.vtables[&0x1000], code(&[1, 2]));
    assert_eq!(analyzed.vtables[&0x2000], code(&[1, 2]));
    assert_eq!(analyzed.vtables[&0x3000], code(&[1, 2]));
}

#[test]
fn walks_in_another_order_give_the_same_tables() {
    let image = image()
        .put(0x1000, &slots(&code(&[1, 2, 3, 4])))
        .put(0x2000, &slots(&code(&[1, 9])));
    let analysis = plan_vtables(family());
    assert!(analysis.has_hierarchy());
    let mut tables = BTreeMap::new();
    for entry in analysis.entries.iter().rev() {
        tables.insert(entry.vtable, walk(&image, entry.vtable, entry.bound));
    }
    let finished = analysis.finish(tables);
    let analyzed = analyze(&image, family());
    assert_eq!(finished.vtables, analyzed.vtables);
    assert_eq!(instance_vtables(&finished.objects), instance_vtables(&analyzed.objects));
}

#[test]
fn hierarchy_has_to_be_complete() {
    let missing = vec![class("A", Some("Gone"), 1), plain("x", "A", 2)];
    assert!(!plan_vtables(missing).has_hierarchy());
    let no_structure =
        vec![class("A", Some("x"), 1), plain("x", "A", 2)];
    assert!(!plan_vtables(no_structure).has_hierarchy());
    let circle = vec![class("A", Some("B"), 1), class("B", Some("A"), 1), plain("x", "A", 2)];
    assert!(!plan_vtables(circle).has_hierarchy());
    let unknown = vec![class("A", Some("Gone"), 1)];
    assert!(plan_vtables(unknown).has_hierarchy());
    assert!(plan_vtables(family()).has_hierarchy());
    assert!(plan_vtables(Vec::new()).has_hierarchy());
}

#[test]
fn no_objects_have_no_tables() {
    let analyzed = analyze(&image(), Vec::new());
    assert!(analyzed.objects.is_empty());
    assert!(analyzed.vtables.is_empty());
    assert!(analyzed.conflicts.is_empty());
}
