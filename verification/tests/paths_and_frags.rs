use dm2doxy::bytesutil::{join_scope, replace_bytes};
use dm2doxy::collect::{Param, ProcEntry, TypeEntry, VarEntry, collect};
use dm2doxy::loc::Location;
use dm2doxy::paths::{path, tempfile};

fn b(s: &str) -> Vec<u8> {
    s.as_bytes().to_vec()
}

fn loc(file: u32, line: u32) -> Location {
    Location { file, line }
}

#[test]
fn tempfile_replaces_separators_and_extension() {
    assert_eq!(tempfile(&b("code/area.dm")), b("dm2doxy/code$area.."));
    assert_eq!(tempfile(&b("a/b/c.dm")), b("dm2doxy/a$b$c.."));
}

#[test]
fn tempfile_is_deterministic() {
    let p = b("maps/station.dm");
    assert_eq!(tempfile(&p), tempfile(&p));
}

#[test]
fn tempfile_rewrites_every_dm_occurrence() {
    // Replacement is textual, leftmost first: every `.dm` goes, not only a
    // final extension.
    assert_eq!(tempfile(&b("x.dmb")), b("dm2doxy/x..b"));
}

#[test]
fn replace_is_leftmost_nonoverlapping() {
    assert_eq!(replace_bytes(&b("aaa"), &b("aa"), &b("b")), b("ba"));
    assert_eq!(replace_bytes(&b("abc"), &b("zz"), &b("y")), b("abc"));
}

#[test]
fn qualified_class_names() {
    assert_eq!(path(&b("/obj/item")), b("obj::item"));
    assert_eq!(path(&b("/mob")), b("mob"));
    assert_eq!(path(&b("")), b("globals"));
}

#[test]
fn join_scope_separates_segments() {
    assert_eq!(join_scope(&vec![b("obj"), b("item")]), b("obj::item"));
    assert_eq!(join_scope(&vec![b("num")]), b("num"));
    assert_eq!(join_scope(&vec![]), b(""));
}

#[test]
fn var_without_declaration_has_no_type_prefix() {
    let types = vec![TypeEntry {
        location: loc(1, 1),
        path: b("/obj/a"),
        parent_path: None,
        vars: vec![VarEntry { location: loc(1, 2), name: b("x"), declaration: None }],
        procs: vec![],
    }];
    let (defs, _) = collect(&types, &vec![]);
    let e = defs.map.entries.iter().find(|e| e.loc == loc(1, 2)).unwrap();
    assert_eq!(e.items[0].bit, b(" x;"));
}

#[test]
fn verb_and_undeclared_proc_qualifiers() {
    let types = vec![TypeEntry {
        location: loc(1, 1),
        path: b("/obj/a"),
        parent_path: None,
        vars: vec![],
        procs: vec![
            ProcEntry {
                location: loc(1, 2),
                name: b("poke"),
                declaration: Some(true),
                parameters: vec![],
            },
            ProcEntry {
                location: loc(1, 3),
                name: b("tick"),
                declaration: None,
                parameters: vec![],
            },
        ],
    }];
    let (defs, _) = collect(&types, &vec![]);
    let poke = defs.map.entries.iter().find(|e| e.loc == loc(1, 2)).unwrap();
    assert_eq!(poke.items[0].bit, b("verb poke("));
    assert_eq!(poke.items[1].bit, b("){}"));
    let tick = defs.map.entries.iter().find(|e| e.loc == loc(1, 3)).unwrap();
    assert_eq!(tick.items[0].bit, b(" tick("));
}

#[test]
fn parameters_after_the_first_are_comma_separated() {
    let types = vec![TypeEntry {
        location: loc(1, 1),
        path: b("/obj/a"),
        parent_path: None,
        vars: vec![],
        procs: vec![ProcEntry {
            location: loc(1, 2),
            name: b("give"),
            declaration: Some(false),
            parameters: vec![
                Param { path: vec![b("mob")], name: b("who") },
                Param { path: vec![], name: b("count") },
            ],
        }],
    }];
    let (defs, _) = collect(&types, &vec![]);
    let e = defs.map.entries.iter().find(|e| e.loc == loc(1, 2)).unwrap();
    let bits: Vec<&Vec<u8>> = e.items.iter().map(|d| &d.bit).collect();
    assert_eq!(bits, vec![&b("proc give("), &b("mob::who"), &b(", count"), &b("){}")]);
}

#[test]
fn extends_recorded_only_for_named_nonroot_parents() {
    let types = vec![
        TypeEntry {
            location: loc(1, 1),
            path: b("/obj"),
            parent_path: Some(b("")),
            vars: vec![],
            procs: vec![],
        },
        TypeEntry {
            location: loc(1, 3),
            path: b("/obj/item"),
            parent_path: Some(b("/obj")),
            vars: vec![],
            procs: vec![],
        },
    ];
    let (_, extends) = collect(&types, &vec![]);
    assert_eq!(extends.entries.len(), 1);
    assert_eq!(extends.entries[0].0, b("obj::item"));
    assert_eq!(extends.entries[0].1, b("obj"));
}
