use odocgen::docstring::format_doc_string;
use odocgen::fragment::{extract_class, LocalData, MethodData};
use odocgen::index::{Member, XrefEntry};
use odocgen::keyed::sorted_key_order;
use odocgen::position::{find_line_col, parse_line_data};
use odocgen::state::{build_state, SourceFile, State};
use odocgen::syntax::{
    decorator_suppresses, AssignStmt, AssignTarget, AssignValue, BodyStmt, ClassDef, Decorator,
    FunctionDef,
};

fn s(x: &str) -> String {
    x.to_string()
}

fn assign(name: &str, value: AssignValue, start: usize, text: &str) -> BodyStmt {
    BodyStmt::Assign(AssignStmt {
        targets: vec![AssignTarget::Name(s(name))],
        value,
        start,
        text: s(text),
    })
}

fn model_marker(marker: &str, model: &str) -> BodyStmt {
    let text = format!("{marker} = {model:?}");
    assign(marker, AssignValue::Str(s(model)), 0, &text)
}

fn field(name: &str) -> BodyStmt {
    let text = format!("{name} = 1");
    assign(name, AssignValue::Other, 0, &text)
}

fn method(name: &str, decorators: Vec<Decorator>) -> BodyStmt {
    BodyStmt::FunctionDef(FunctionDef {
        name: s(name),
        decorators,
        args: vec![s("self")],
        vararg: None,
        kwonlyargs: vec![],
        kwarg: None,
        doc: None,
        start: 0,
    })
}

fn file(name: &str, classes: Vec<ClassDef>) -> SourceFile {
    SourceFile { filename: s(name), code: s(""), classes }
}

fn model<'a>(st: &'a State, name: &str) -> Option<&'a odocgen::state::ClassData> {
    st.classes.iter().find(|(n, _)| n == name).map(|(_, c)| c)
}

fn field_names(f: &LocalData) -> Vec<String> {
    let mut v: Vec<String> = f.fields.iter().map(|(n, _)| n.clone()).collect();
    v.sort();
    v
}

fn method_names(f: &LocalData) -> Vec<String> {
    let mut v: Vec<String> = f.methods.iter().map(|(n, _)| n.clone()).collect();
    v.sort();
    v
}

fn has(xs: &[XrefEntry], name: &str, model: &str, is_original: bool) -> bool {
    xs.iter().any(|e| e.name == name && e.model == model && e.is_original == is_original)
}

#[test]
fn line_data_lists_newline_offsets() {
    assert_eq!(parse_line_data("a\nbc\n\nd"), vec![1, 4, 5]);
    assert_eq!(parse_line_data(""), Vec::<usize>::new());
    assert_eq!(parse_line_data("é\n"), vec![2]);
}

#[test]
fn line_col_on_first_middle_and_last_line() {
    let nl = parse_line_data("ab\ncd\nef");
    assert_eq!(find_line_col(&nl, 0), (1, 1));
    assert_eq!(find_line_col(&nl, 1), (1, 2));
    assert_eq!(find_line_col(&nl, 4), (2, 2));
    assert_eq!(find_line_col(&nl, 7), (2, 2));
    assert_eq!(find_line_col(&[], 5), (1, 6));
}

#[test]
fn doc_string_is_trimmed_line_by_line() {
    assert_eq!(format_doc_string("  Doc.\n    more  \n   "), "Doc.\nmore");
    assert_eq!(format_doc_string("doc"), "doc");
    assert_eq!(format_doc_string("\n\n"), "");
    assert_eq!(format_doc_string(" a \n\n b "), "a\n\nb");
}

#[test]
fn signature_lists_every_kind_of_parameter() {
    let m = MethodData {
        line_col: (1, 1),
        args: vec![s("self"), s("a")],
        var_arg: Some(s("args")),
        kw_only_args: vec![s("k")],
        kw_arg: Some(s("kw")),
        doc_string: None,
    };
    assert_eq!(m.to_string(), "self, a, *args, k, **kw");
    let bare = MethodData {
        line_col: (1, 1),
        args: vec![],
        var_arg: None,
        kw_only_args: vec![],
        kw_arg: Some(s("kw")),
        doc_string: None,
    };
    assert_eq!(bare.to_string(), "**kw");
}

#[test]
fn decorator_shapes_that_suppress() {
    assert!(decorator_suppresses(&Decorator::Attribute { base: Some(s("api")), attr: s("depends") }));
    assert!(decorator_suppresses(&Decorator::Attribute { base: Some(s("x")), attr: s("model") }));
    assert!(decorator_suppresses(&Decorator::CallOfAttribute { base: Some(s("api")) }));
    assert!(!decorator_suppresses(&Decorator::CallOfAttribute { base: Some(s("tools")) }));
    assert!(!decorator_suppresses(&Decorator::Attribute { base: None, attr: s("depends") }));
    assert!(!decorator_suppresses(&Decorator::Other));
}

#[test]
fn single_file_round_trip() {
    let code = "class A:\n    _name = \"x.y\"\n    a = 1\n    def m(self, a, b=2):\n        \"doc\"\n";
    let name_at = code.find("_name").unwrap();
    let a_at = code.find("a = 1").unwrap();
    let def_at = code.find("def m").unwrap();
    let class = ClassDef {
        body: vec![
            assign("_name", AssignValue::Str(s("x.y")), name_at, "_name = \"x.y\""),
            assign("a", AssignValue::Other, a_at, "a = 1"),
            BodyStmt::FunctionDef(FunctionDef {
                name: s("m"),
                decorators: vec![],
                args: vec![s("self"), s("a"), s("b")],
                vararg: None,
                kwonlyargs: vec![],
                kwarg: None,
                doc: Some(s("doc")),
                start: def_at,
            }),
        ],
    };
    let st = build_state(vec![SourceFile { filename: s("f.py"), code: s(code), classes: vec![class] }]);
    let cd = model(&st, "x.y").unwrap();
    let orig = &st.fragments[cd.original.unwrap()];
    assert!(cd.inherits.is_empty());
    assert_eq!(orig.filename, "f.py");
    assert_eq!(orig.fields.len(), 1);
    assert_eq!(orig.fields[0].0, "a");
    assert_eq!(orig.fields[0].1.declaration, "a = 1");
    assert_eq!(orig.fields[0].1.line_col, (3, 5));
    assert_eq!(orig.methods.len(), 1);
    let m = &orig.methods[0].1;
    assert_eq!(orig.methods[0].0, "m");
    assert_eq!(m.args, vec![s("self"), s("a"), s("b")]);
    assert_eq!(m.doc_string, Some(s("doc")));
    assert_eq!(m.line_col, (4, 5));
    assert_eq!(m.to_string(), "self, a, b");
}

#[test]
fn two_extensions_list_both_fields() {
    let st = build_state(vec![
        file("b.py", vec![ClassDef { body: vec![model_marker("_inherit", "x.y"), field("p")] }]),
        file("a.py", vec![ClassDef { body: vec![model_marker("_inherit", "x.y"), field("q")] }]),
    ]);
    let xs = st.cross_reference(Member::Field);
    assert_eq!(xs.len(), 2);
    assert!(has(&xs, "p", "x.y", false));
    assert!(has(&xs, "q", "x.y", false));
}

#[test]
fn extension_without_original_keeps_model() {
    let st = build_state(vec![file(
        "a.py",
        vec![ClassDef { body: vec![model_marker("_inherit", "only.ext"), field("f")] }],
    )]);
    let cd = model(&st, "only.ext").unwrap();
    assert!(cd.original.is_none());
    assert_eq!(cd.inherits.len(), 1);
}

#[test]
fn extensions_are_stored_in_file_name_order() {
    let ext = || ClassDef { body: vec![model_marker("_inherit", "m")] };
    let st = build_state(vec![
        file("c.py", vec![ext()]),
        file("a.py", vec![ext()]),
        file("b.py", vec![ext()]),
        file("o.py", vec![ClassDef { body: vec![model_marker("_name", "m")] }]),
    ]);
    let cd = model(&st, "m").unwrap();
    let stored: Vec<&str> = cd.inherits.iter().map(|&i| st.fragments[i].filename.as_str()).collect();
    assert_eq!(stored, vec!["a.py", "b.py", "c.py"]);
    let shown: Vec<&str> = cd.inherits.iter().rev().map(|&i| st.fragments[i].filename.as_str()).collect();
    assert_eq!(shown, vec!["c.py", "b.py", "a.py"]);
    assert_eq!(st.fragments[cd.original.unwrap()].filename, "o.py");
}

#[test]
fn original_member_wins_over_extension() {
    let st = build_state(vec![
        file("o.py", vec![ClassDef { body: vec![model_marker("_name", "m"), field("f"), method("g", vec![])] }]),
        file("e.py", vec![ClassDef { body: vec![model_marker("_inherit", "m"), field("f"), method("g", vec![]), method("h", vec![])] }]),
    ]);
    let fields = st.cross_reference(Member::Field);
    assert!(has(&fields, "f", "m", true));
    assert!(!has(&fields, "f", "m", false));
    let methods = st.cross_reference(Member::Method);
    assert!(has(&methods, "g", "m", true));
    assert!(!has(&methods, "g", "m", false));
    assert!(has(&methods, "h", "m", false));
    assert_eq!(methods.len(), 2);
}

#[test]
fn suppressed_method_is_left_out() {
    let api_model = Decorator::Attribute { base: Some(s("api")), attr: s("model") };
    let api_call = Decorator::CallOfAttribute { base: Some(s("api")) };
    let class = ClassDef {
        body: vec![
            model_marker("_name", "m"),
            method("hidden", vec![api_model]),
            method("shown", vec![Decorator::Other]),
            method("called", vec![api_call]),
        ],
    };
    let facts = extract_class(&s("f.py"), &vec![], class);
    assert_eq!(method_names(&facts.data), vec![s("shown")]);
    let st = build_state(vec![file(
        "f.py",
        vec![ClassDef {
            body: vec![
                model_marker("_name", "m"),
                method("hidden", vec![Decorator::Attribute { base: None, attr: s("model") }]),
                method("shown", vec![]),
            ],
        }],
    )]);
    let methods = st.cross_reference(Member::Method);
    assert!(has(&methods, "shown", "m", true));
    assert!(!methods.iter().any(|e| e.name == "hidden"));
}

#[test]
fn same_input_gives_same_state() {
    let input = || {
        vec![
            file("b.py", vec![ClassDef { body: vec![model_marker("_inherit", "x"), field("p")] }]),
            file("a.py", vec![ClassDef { body: vec![model_marker("_name", "x"), field("q")] }]),
        ]
    };
    let one = build_state(input());
    let two = build_state(input());
    let summary = |st: &State| -> Vec<(String, Option<usize>, Vec<usize>)> {
        st.classes.iter().map(|(n, c)| (n.clone(), c.original, c.inherits.clone())).collect()
    };
    assert_eq!(summary(&one), summary(&two));
    let names = |st: &State| -> Vec<(String, Vec<String>)> {
        st.fragments.iter().map(|f| (f.filename.clone(), field_names(f))).collect()
    };
    assert_eq!(names(&one), names(&two));
}

#[test]
fn markers_and_private_names() {
    let class = ClassDef {
        body: vec![
            model_marker("_name", "a"),
            model_marker("_inherits", "b"),
            assign("_inherit", AssignValue::List, 0, "_inherit = ['c']"),
            assign("_order", AssignValue::Str(s("id")), 0, "_order = 'id'"),
            field("x"),
            field("x"),
            BodyStmt::Other,
        ],
    };
    let facts = extract_class(&s("f.py"), &vec![], class);
    assert_eq!(facts.names, vec![s("a"), s("b")]);
    assert!(facts.extends);
    assert_eq!(field_names(&facts.data), vec![s("x")]);
}

#[test]
fn later_original_replaces_earlier() {
    let st = build_state(vec![
        file("a.py", vec![ClassDef { body: vec![model_marker("_name", "m")] }]),
        file("b.py", vec![ClassDef { body: vec![model_marker("_name", "m")] }]),
    ]);
    let cd = model(&st, "m").unwrap();
    assert_eq!(st.fragments[cd.original.unwrap()].filename, "b.py");
}

#[test]
fn key_order_sorts_by_name() {
    let entries = vec![(s("b"), 1u8), (s("a"), 2u8), (s("c"), 3u8), (s("B"), 4u8)];
    assert_eq!(sorted_key_order(&entries), vec![3, 1, 0, 2]);
    assert_eq!(sorted_key_order::<u8>(&vec![]), Vec::<usize>::new());
}

#[test]
fn models_are_kept_in_name_order() {
    let st = build_state(vec![
        file("a.py", vec![ClassDef { body: vec![model_marker("_name", "sale.order")] }]),
        file("b.py", vec![ClassDef { body: vec![model_marker("_inherit", "account.move"), model_marker("_inherit", "res.partner")] }]),
        file("c.py", vec![ClassDef { body: vec![model_marker("_name", "base")] }]),
    ]);
    let names: Vec<&str> = st.classes.iter().map(|(n, _)| n.as_str()).collect();
    assert_eq!(names, vec!["account.move", "base", "res.partner", "sale.order"]);
    let cd = model(&st, "res.partner").unwrap();
    assert_eq!(cd.inherits, vec![1]);
    assert_eq!(model(&st, "account.move").unwrap().inherits, vec![1]);
}
