use dm2doxy::collect::{Comment, Param, ProcEntry, TypeEntry, VarEntry, collect};
use dm2doxy::collate::collate;
use dm2doxy::defs::{Definition, Definitions};
use dm2doxy::emit::{file_ids, render_file};
use dm2doxy::loc::Location;
use dm2doxy::pipeline::produce;

fn b(s: &str) -> Vec<u8> {
    s.as_bytes().to_vec()
}

fn loc(file: u32, line: u32) -> Location {
    Location { file, line }
}

fn root_with_global_var(file: u32, line: u32) -> TypeEntry {
    TypeEntry {
        location: loc(file, line),
        path: b(""),
        parent_path: None,
        vars: vec![VarEntry { location: loc(file, line), name: b("world"), declaration: None }],
        procs: vec![],
    }
}

fn count_occurrences(haystack: &[u8], needle: &[u8]) -> usize {
    if needle.is_empty() || haystack.len() < needle.len() {
        return 0;
    }
    let mut n: usize = 0;
    for i in 0..=(haystack.len() - needle.len()) {
        if &haystack[i..i + needle.len()] == needle {
            n += 1;
        }
    }
    n
}

#[test]
fn class_with_variable_and_comment() {
    // A class `obj::item` with one `num amount` variable and a preceding doc
    // comment; a global definition opens the run so the class transition
    // fires (the very first definition of a run sets the tracker silently).
    let types = vec![
        root_with_global_var(1, 1),
        TypeEntry {
            location: loc(1, 10),
            path: b("/obj/item"),
            parent_path: None,
            vars: vec![VarEntry {
                location: loc(1, 11),
                name: b("amount"),
                declaration: Some(vec![b("num")]),
            }],
            procs: vec![],
        },
    ];
    let comments = vec![Comment { location: loc(1, 9), text: b("/// held amount") }];
    let outputs = produce(&types, &comments);
    assert_eq!(outputs.len(), 1);
    assert_eq!(outputs[0].file, 1);
    // Populated lines: the global var, the comment, the class open, the var.
    assert_eq!(outputs[0].lines, 4);
    let text = String::from_utf8(outputs[0].bytes.clone()).unwrap();
    let lines: Vec<&str> = text.split('\n').collect();
    // Line 1 holds the global var; lines 2..=8 are blank padding.
    assert_eq!(lines[0], " world;");
    for k in 1..8 {
        assert_eq!(lines[k], "");
    }
    assert_eq!(lines[8], "/// held amount");
    assert_eq!(lines[9], "class obj::item{");
    assert_eq!(lines[10], "num amount;}");
}

#[test]
fn proc_fragments_in_order() {
    // Procedure `obj::item::use(mob user)`: its declaration line carries, in
    // order, `proc use(`, `mob::user`, `){}`.
    let types = vec![TypeEntry {
        location: loc(1, 5),
        path: b("/obj/item"),
        parent_path: None,
        vars: vec![],
        procs: vec![ProcEntry {
            location: loc(1, 6),
            name: b("use"),
            declaration: Some(false),
            parameters: vec![Param { path: vec![b("mob")], name: b("user") }],
        }],
    }];
    let comments = vec![];
    let (defs, _extends) = collect(&types, &comments);
    let group: Vec<&Definition> = defs
        .map
        .entries
        .iter()
        .find(|e| e.loc == loc(1, 6))
        .unwrap()
        .items
        .iter()
        .collect();
    assert_eq!(group.len(), 3);
    assert_eq!(group[0].bit, b("proc use("));
    assert_eq!(group[1].bit, b("mob::user"));
    assert_eq!(group[2].bit, b("){}"));
}

#[test]
fn close_lands_on_previous_class_last_line() {
    // Two unrelated classes in sequence: the first class's close lands on
    // the first class's last contributing line, not the second's opening.
    let types = vec![
        root_with_global_var(1, 1),
        TypeEntry {
            location: loc(1, 10),
            path: b("/obj/a"),
            parent_path: None,
            vars: vec![VarEntry { location: loc(1, 11), name: b("x"), declaration: None }],
            procs: vec![],
        },
        TypeEntry {
            location: loc(1, 20),
            path: b("/obj/b"),
            parent_path: None,
            vars: vec![VarEntry { location: loc(1, 21), name: b("y"), declaration: None }],
            procs: vec![],
        },
    ];
    let outputs = produce(&types, &vec![]);
    let text = String::from_utf8(outputs[0].bytes.clone()).unwrap();
    let lines: Vec<&str> = text.split('\n').collect();
    assert_eq!(lines[10], " x;}");
    assert_eq!(lines[19], "class obj::b{");
    assert_eq!(lines[20], " y;}");
}

#[test]
fn blank_line_padding_is_exact() {
    // Fragments at lines 3 and 7 with nothing between: exactly 3 blank
    // lines separate them.
    let types = vec![TypeEntry {
        location: loc(1, 1),
        path: b(""),
        parent_path: None,
        vars: vec![
            VarEntry { location: loc(1, 3), name: b("a"), declaration: None },
            VarEntry { location: loc(1, 7), name: b("c"), declaration: None },
        ],
        procs: vec![],
    }];
    let outputs = produce(&types, &vec![]);
    let text = String::from_utf8(outputs[0].bytes.clone()).unwrap();
    assert_eq!(text, "\n\n a;\n\n\n\n c;\n");
}

#[test]
fn extends_emitted_once_even_when_class_recurs() {
    // The same class is reported twice, each time with its parent: the
    // extends annotation still appears exactly once over the whole run.
    let mk = |open_line: u32, var_line: u32, var: &str| TypeEntry {
        location: loc(1, open_line),
        path: b("/obj/item/food"),
        parent_path: Some(b("/obj/item")),
        vars: vec![VarEntry { location: loc(1, var_line), name: b(var), declaration: None }],
        procs: vec![],
    };
    let types = vec![root_with_global_var(1, 1), mk(5, 6, "p"), root_with_global_var(1, 8), mk(10, 11, "q")];
    let outputs = produce(&types, &vec![]);
    let text = outputs[0].bytes.clone();
    assert_eq!(count_occurrences(&text, b" extends obj::item"), 1);
    assert_eq!(count_occurrences(&text, b"class obj::item::food"), 2);
}

#[test]
fn opens_and_closes_balance() {
    // Starting from the global scope, every class-open has exactly one
    // close, the final one synthetic at end-of-stream.
    let types = vec![
        root_with_global_var(1, 1),
        TypeEntry {
            location: loc(1, 4),
            path: b("/obj/a"),
            parent_path: None,
            vars: vec![VarEntry { location: loc(1, 5), name: b("x"), declaration: None }],
            procs: vec![],
        },
        TypeEntry {
            location: loc(1, 8),
            path: b("/obj/b"),
            parent_path: None,
            vars: vec![],
            procs: vec![ProcEntry {
                location: loc(1, 9),
                name: b("f"),
                declaration: None,
                parameters: vec![],
            }],
        },
    ];
    let outputs = produce(&types, &vec![]);
    let text = outputs[0].bytes.clone();
    // The proc body braces `{}` belong to `){}`; strip them before counting
    // scaffolding braces.
    let opens = count_occurrences(&text, b"{") - count_occurrences(&text, b"){}");
    let closes = count_occurrences(&text, b"}") - 2 * count_occurrences(&text, b"){}")
        + count_occurrences(&text, b"){}");
    assert_eq!(opens, 2);
    assert_eq!(closes, 2);
}

#[test]
fn production_order_kept_within_location() {
    let mut defs = Definitions::new();
    let l = loc(2, 7);
    defs.push(loc(2, 9), Definition::new(&b(""), b("later")));
    defs.push(l, Definition::new(&b(""), b("first")));
    defs.push(loc(1, 30), Definition::new(&b(""), b("other file")));
    defs.push(l, Definition::new(&b(""), b("second")));
    defs.push(l, Definition::new(&b(""), b("third")));
    // Groups ordered by (file, line); items within a group in push order.
    assert_eq!(defs.map.entries.len(), 3);
    assert_eq!(defs.map.entries[0].loc, loc(1, 30));
    assert_eq!(defs.map.entries[1].loc, l);
    assert_eq!(defs.map.entries[2].loc, loc(2, 9));
    let bits: Vec<&Vec<u8>> = defs.map.entries[1].items.iter().map(|d| &d.bit).collect();
    assert_eq!(bits, vec![&b("first"), &b("second"), &b("third")]);
}

#[test]
fn comments_do_not_trigger_boundaries() {
    // A comment between two definitions of one class neither closes nor
    // reopens the class.
    let types = vec![
        root_with_global_var(1, 1),
        TypeEntry {
            location: loc(1, 10),
            path: b("/obj/a"),
            parent_path: None,
            vars: vec![
                VarEntry { location: loc(1, 11), name: b("x"), declaration: None },
                VarEntry { location: loc(1, 13), name: b("y"), declaration: None },
            ],
            procs: vec![],
        },
    ];
    let comments = vec![Comment { location: loc(1, 12), text: b("/// note") }];
    let outputs = produce(&types, &comments);
    let text = String::from_utf8(outputs[0].bytes.clone()).unwrap();
    assert_eq!(count_occurrences(text.as_bytes(), b"class obj::a"), 1);
    let lines: Vec<&str> = text.split('\n').collect();
    assert_eq!(lines[11], "/// note");
    assert_eq!(lines[12], " y;}");
}

#[test]
fn one_output_per_contributing_file() {
    let types = vec![
        TypeEntry {
            location: loc(3, 2),
            path: b(""),
            parent_path: None,
            vars: vec![VarEntry { location: loc(3, 2), name: b("g"), declaration: None }],
            procs: vec![],
        },
        TypeEntry {
            location: loc(7, 1),
            path: b("/obj/c"),
            parent_path: None,
            vars: vec![VarEntry { location: loc(7, 2), name: b("z"), declaration: None }],
            procs: vec![],
        },
    ];
    let outputs = produce(&types, &vec![]);
    assert_eq!(outputs.len(), 2);
    assert_eq!(outputs[0].file, 3);
    assert_eq!(outputs[1].file, 7);
    // Crossing into file 7 closes nothing (the global scope was open) and
    // opens the class there.
    let t7 = String::from_utf8(outputs[1].bytes.clone()).unwrap();
    assert_eq!(t7, "class obj::c{\n z;}\n");
    let t3 = String::from_utf8(outputs[0].bytes.clone()).unwrap();
    assert_eq!(t3, "\n g;\n");
}

#[test]
fn collate_and_render_directly() {
    // The pieces compose the same way `produce` does.
    let types = vec![root_with_global_var(1, 1)];
    let comments = vec![];
    let (defs, extends) = collect(&types, &comments);
    let out = collate(&defs, extends);
    let ids = file_ids(&out);
    assert_eq!(ids, vec![1]);
    let bytes = render_file(&out, 1);
    assert_eq!(bytes, b(" world;\n"));
}
