use vstd::prelude::*;
use vstd::string::StrSliceExecFns;
use crate::docstring::{format_doc_string, normalized_doc, push_char, push_str};
use crate::keyed::{insert_keyed, keyed_map, keys_unique};
use crate::position::{find_line_col, line_col};
use crate::syntax::{
    is_suppressed, is_word, method_suppressed, AssignStmt, AssignTarget, AssignValue, BodyStmt,
    ClassDef, FunctionDef,
};

verus! {

/// A documented field: where its assignment stands and its source text.
pub struct FieldData {
    pub line_col: (usize, usize),
    pub declaration: String,
}

pub struct FieldView {
    pub line_col: (usize, usize),
    pub declaration: Seq<char>,
}

impl View for FieldData {
    type V = FieldView;

    open spec fn view(&self) -> FieldView {
        FieldView { line_col: self.line_col, declaration: self.declaration@ }
    }
}

/// A documented method: where it stands, its parameters and its
/// documentation string.
pub struct MethodData {
    pub line_col: (usize, usize),
    pub args: Vec<String>,
    pub var_arg: Option<String>,
    pub kw_only_args: Vec<String>,
    pub kw_arg: Option<String>,
    pub doc_string: Option<String>,
}

pub struct MethodView {
    pub line_col: (usize, usize),
    pub args: Seq<String>,
    pub var_arg: Option<String>,
    pub kw_only_args: Seq<String>,
    pub kw_arg: Option<String>,
    pub doc_string: Option<Seq<char>>,
}

impl View for MethodData {
    type V = MethodView;

    open spec fn view(&self) -> MethodView {
        MethodView {
            line_col: self.line_col,
            args: self.args@,
            var_arg: self.var_arg,
            kw_only_args: self.kw_only_args@,
            kw_arg: self.kw_arg,
            doc_string: match self.doc_string {
                Some(d) => Some(d@),
                None => None,
            },
        }
    }
}

/// What one class block of one file contributes to a model: its fields and
/// methods, each name once.
pub struct LocalData {
    pub filename: String,
    pub methods: Vec<(String, MethodData)>,
    pub fields: Vec<(String, FieldData)>,
}

pub struct FragView {
    pub filename: Seq<char>,
    pub fields: Map<Seq<char>, FieldView>,
    pub methods: Map<Seq<char>, MethodView>,
}

impl View for LocalData {
    type V = FragView;

    open spec fn view(&self) -> FragView {
        FragView {
            filename: self.filename@,
            fields: keyed_map(self.fields@),
            methods: keyed_map(self.methods@),
        }
    }
}

impl LocalData {
    pub open spec fn wf(&self) -> bool {
        keys_unique(self.methods@) && keys_unique(self.fields@)
    }
}

/// What a class block says of itself: its fields and methods, the model
/// names it declares and whether it extends those models.
pub struct BlockView {
    pub fields: Map<Seq<char>, FieldView>,
    pub methods: Map<Seq<char>, MethodView>,
    pub names: Seq<Seq<char>>,
    pub extends: bool,
}

pub open spec fn empty_block() -> BlockView {
    BlockView { fields: Map::empty(), methods: Map::empty(), names: Seq::empty(), extends: false }
}

pub open spec fn lc(nl: Seq<usize>, pos: usize) -> (usize, usize) {
    (line_col(nl, pos as int).0 as usize, line_col(nl, pos as int).1 as usize)
}

pub open spec fn is_private(n: Seq<char>) -> bool {
    n.len() > 0 && n[0] == '_'
}

pub open spec fn is_extension_marker(n: Seq<char>) -> bool {
    n == "_inherit"@ || n == "_inherits"@
}

pub open spec fn is_model_marker(n: Seq<char>) -> bool {
    n == "_name"@ || is_extension_marker(n)
}

/// The model name that the value of a marker assignment gives.
pub open spec fn marker_names(v: AssignValue) -> Seq<Seq<char>> {
    match v {
        AssignValue::Str(s) => seq![s@],
        _ => Seq::empty(),
    }
}

/// The effect of one assignment target on the record of its block.
pub open spec fn target_step(b: BlockView, t: AssignTarget, a: AssignStmt, nl: Seq<usize>) -> BlockView {
    match t {
        AssignTarget::Name(n) => if !is_private(n@) {
            BlockView {
                fields: b.fields.insert(
                    n@,
                    FieldView { line_col: lc(nl, a.start), declaration: a.text@ },
                ),
                ..b
            }
        } else if is_model_marker(n@) {
            BlockView {
                names: b.names + marker_names(a.value),
                extends: b.extends || is_extension_marker(n@),
                ..b
            }
        } else {
            b
        },
        AssignTarget::Other => b,
    }
}

pub open spec fn targets_fold(b: BlockView, ts: Seq<AssignTarget>, a: AssignStmt, nl: Seq<usize>) -> BlockView
    decreases ts.len(),
{
    if ts.len() == 0 {
        b
    } else {
        target_step(targets_fold(b, ts.drop_last(), a, nl), ts.last(), a, nl)
    }
}

pub open spec fn method_view_of(f: FunctionDef, nl: Seq<usize>) -> MethodView {
    MethodView {
        line_col: lc(nl, f.start),
        args: f.args@,
        var_arg: f.vararg,
        kw_only_args: f.kwonlyargs@,
        kw_arg: f.kwarg,
        doc_string: match f.doc {
            Some(d) => Some(normalized_doc(d@)),
            None => None,
        },
    }
}

/// The effect of one statement of a class body on the record of its block.
pub open spec fn stmt_step(b: BlockView, s: BodyStmt, nl: Seq<usize>) -> BlockView {
    match s {
        BodyStmt::Assign(a) => targets_fold(b, a.targets@, a, nl),
        BodyStmt::FunctionDef(f) => if is_suppressed(f) {
            b
        } else {
            BlockView { methods: b.methods.insert(f.name@, method_view_of(f, nl)), ..b }
        },
        BodyStmt::Other => b,
    }
}

/// The record of a class body, statement by statement; a later field or
/// method of the same name replaces an earlier one.
pub open spec fn block_fold(body: Seq<BodyStmt>, nl: Seq<usize>) -> BlockView
    decreases body.len(),
{
    if body.len() == 0 {
        empty_block()
    } else {
        stmt_step(block_fold(body.drop_last(), nl), body.last(), nl)
    }
}

/// Every offset in the class fits the line lookup.
pub open spec fn positions_fit(c: ClassDef) -> bool {
    forall|i: int|
        0 <= i < c.body@.len() ==> match #[trigger] c.body@[i] {
            BodyStmt::Assign(a) => a.start < usize::MAX,
            BodyStmt::FunctionDef(f) => f.start < usize::MAX,
            BodyStmt::Other => true,
        }
}

/// The facts extracted from one class block.
pub struct ClassFacts {
    pub names: Vec<String>,
    pub extends: bool,
    pub data: LocalData,
}

impl ClassFacts {
    pub open spec fn names_view(&self) -> Seq<Seq<char>> {
        self.names@.map_values(|n: String| n@)
    }

    /// The facts agree with the record `b` of a block of `filename`.
    pub open spec fn agrees(&self, b: BlockView, filename: Seq<char>) -> bool {
        &&& self.data.wf()
        &&& self.data.filename@ == filename
        &&& keyed_map(self.data.fields@) == b.fields
        &&& keyed_map(self.data.methods@) == b.methods
        &&& self.names_view() == b.names
        &&& self.extends == b.extends
    }
}

fn record_target(
    facts: &mut ClassFacts,
    t: &AssignTarget,
    a: &AssignStmt,
    line_data: &Vec<usize>,
    Ghost(b): Ghost<BlockView>,
    Ghost(filename): Ghost<Seq<char>>,
)
    requires
        old(facts).agrees(b, filename),
        a.start < usize::MAX,
    ensures
        final(facts).agrees(target_step(b, *t, *a, line_data@), filename),
{
    if let AssignTarget::Name(n) = t {
        let ns = n.as_str();
        let private = ns.unicode_len() > 0 && ns.get_char(0) == '_';
        if !private {
            let pos = find_line_col(line_data.as_slice(), a.start);
            assert(pos == lc(line_data@, a.start));
            let field = FieldData { line_col: pos, declaration: a.text.clone() };
            insert_keyed(&mut facts.data.fields, n.clone(), field);
        } else {
            let is_ext = is_word(n, "_inherit") || is_word(n, "_inherits");
            if is_ext || is_word(n, "_name") {
                if is_ext {
                    facts.extends = true;
                }
                let ghost before = facts.names@;
                if let AssignValue::Str(s) = &a.value {
                    facts.names.push(s.clone());
                    assert(facts.names@.map_values(|n: String| n@) =~= before.map_values(
                        |n: String| n@,
                    ) + marker_names(a.value));
                } else {
                    assert(marker_names(a.value) =~= Seq::<Seq<char>>::empty());
                    assert(facts.names@.map_values(|n: String| n@) =~= before.map_values(
                        |n: String| n@,
                    ) + marker_names(a.value));
                }
            }
        }
    }
}

/// The documented form of a method definition. The `**name` parameter is
/// taken from the definition's own keyword-variadic slot.
fn method_of(f: FunctionDef, line_data: &Vec<usize>) -> (r: (String, MethodData))
    requires
        f.start < usize::MAX,
    ensures
        r.0@ == f.name@,
        r.1@ == method_view_of(f, line_data@),
{
    let line_col = find_line_col(line_data.as_slice(), f.start);
    assert(line_col == lc(line_data@, f.start));
    let doc_string = match &f.doc {
        Some(d) => Some(format_doc_string(d.as_str())),
        None => None,
    };
    let m = MethodData {
        line_col,
        args: f.args,
        var_arg: f.vararg,
        kw_only_args: f.kwonlyargs,
        kw_arg: f.kwarg,
        doc_string,
    };
    (f.name, m)
}

/// Extracts the facts of one class block of file `filename`: its fields
/// (assignments to names without a leading underscore), its methods (those
/// without a suppressing decorator), the model names that its `_name`,
/// `_inherit` and `_inherits` string assignments give, and whether it
/// extends those models (it assigns `_inherit` or `_inherits`).
pub fn extract_class(filename: &String, line_data: &Vec<usize>, class: ClassDef) -> (r: ClassFacts)
    requires
        positions_fit(class),
    ensures
        r.agrees(block_fold(class.body@, line_data@), filename@),
{
    let ghost body0 = class.body@;
    let mut body = class.body;
    let mut facts = ClassFacts {
        names: Vec::new(),
        extends: false,
        data: LocalData { filename: filename.clone(), methods: Vec::new(), fields: Vec::new() },
    };
    let ghost mut i: int = 0;
    proof {
        assert(facts.names@.map_values(|n: String| n@) =~= Seq::<Seq<char>>::empty());
        assert(body0.take(0) =~= Seq::<BodyStmt>::empty());
        assert(keyed_map(facts.data.fields@) =~= Map::<Seq<char>, FieldView>::empty());
        assert(keyed_map(facts.data.methods@) =~= Map::<Seq<char>, MethodView>::empty());
    }
    while body.len() > 0
        invariant
            0 <= i <= body0.len(),
            body@ == body0.skip(i),
            forall|j: int|
                0 <= j < body0.len() ==> match #[trigger] body0[j] {
                    BodyStmt::Assign(a) => a.start < usize::MAX,
                    BodyStmt::FunctionDef(f) => f.start < usize::MAX,
                    BodyStmt::Other => true,
                },
            facts.agrees(block_fold(body0.take(i), line_data@), filename@),
        decreases body@.len(),
    {
        let ghost b = block_fold(body0.take(i), line_data@);
        let s = body.remove(0);
        proof {
            assert(body0.take(i + 1).drop_last() =~= body0.take(i));
            assert(s == body0[i]);
            assert(body@ =~= body0.skip(i + 1));
        }
        match s {
            BodyStmt::Assign(a) => {
                let mut j: usize = 0;
                proof {
                    assert(a.targets@.take(0) =~= Seq::<AssignTarget>::empty());
                }
                while j < a.targets.len()
                    invariant
                        0 <= j <= a.targets@.len(),
                        a.start < usize::MAX,
                        facts.agrees(
                            targets_fold(b, a.targets@.take(j as int), a, line_data@),
                            filename@,
                        ),
                    decreases a.targets@.len() - j,
                {
                    proof {
                        assert(a.targets@.take(j as int + 1).drop_last() =~= a.targets@.take(
                            j as int,
                        ));
                    }
                    record_target(
                        &mut facts,
                        &a.targets[j],
                        &a,
                        line_data,
                        Ghost(targets_fold(b, a.targets@.take(j as int), a, line_data@)),
                        Ghost(filename@),
                    );
                    j = j + 1;
                }
                proof {
                    assert(a.targets@.take(j as int) =~= a.targets@);
                }
            },
            BodyStmt::FunctionDef(f) => {
                if !method_suppressed(&f) {
                    let (name, m) = method_of(f, line_data);
                    insert_keyed(&mut facts.data.methods, name, m);
                }
            },
            BodyStmt::Other => {},
        }
        proof {
            i = i + 1;
        }
    }
    proof {
        assert(body0.take(i) =~= body0);
    }
    facts
}

/// Names joined with `", "`.
pub open spec fn join_names(s: Seq<Seq<char>>) -> Seq<char>
    decreases s.len(),
{
    if s.len() == 0 {
        Seq::empty()
    } else if s.len() == 1 {
        s[0]
    } else {
        join_names(s.drop_last()) + seq![',', ' '] + s.last()
    }
}

/// `part` after `acc`, separated by `", "` where `acc` is not empty.
pub open spec fn append_part(acc: Seq<char>, part: Seq<char>) -> Seq<char> {
    if acc.len() == 0 {
        part
    } else {
        acc + seq![',', ' '] + part
    }
}

pub open spec fn string_views(v: Seq<String>) -> Seq<Seq<char>> {
    v.map_values(|x: String| x@)
}

/// A method's parameter list as shown: the positional parameters, then
/// `*name`, then the keyword-only parameters, then `**name`.
pub open spec fn signature(m: MethodView) -> Seq<char> {
    let a = join_names(string_views(m.args));
    let a = match m.var_arg {
        Some(x) => append_part(a, seq!['*'] + x@),
        None => a,
    };
    let kw = join_names(string_views(m.kw_only_args));
    let a = if kw.len() > 0 {
        append_part(a, kw)
    } else {
        a
    };
    match m.kw_arg {
        Some(x) => append_part(a, seq!['*', '*'] + x@),
        None => a,
    }
}

fn join_comma(v: &Vec<String>) -> (r: String)
    ensures
        r@ == join_names(string_views(v@)),
{
    let mut r = String::new();
    let mut i: usize = 0;
    while i < v.len()
        invariant
            0 <= i <= v@.len(),
            r@ == join_names(string_views(v@.take(i as int))),
        decreases v@.len() - i,
    {
        proof {
            assert(string_views(v@.take(i as int + 1)).drop_last() =~= string_views(v@.take(i as int)));
        }
        if i > 0 {
            push_char(&mut r, ',');
            push_char(&mut r, ' ');
        }
        push_str(&mut r, v[i].as_str());
        proof {
            let t = string_views(v@.take(i as int + 1));
            if i == 0 {
                assert(r@ =~= join_names(t));
            } else {
                assert(r@ =~= join_names(t));
            }
        }
        i = i + 1;
    }
    proof {
        assert(v@.take(i as int) =~= v@);
    }
    r
}

fn push_part(acc: &mut String, part: &str)
    ensures
        final(acc)@ == append_part(old(acc)@, part@),
{
    if acc.as_str().unicode_len() > 0 {
        push_char(acc, ',');
        push_char(acc, ' ');
    }
    push_str(acc, part);
    assert(final(acc)@ =~= append_part(old(acc)@, part@));
}

impl MethodData {
    /// The parameter list as shown in documentation.
    pub fn to_string(&self) -> (r: String)
        ensures
            r@ == signature(self@),
    {
        let mut m_str = join_comma(&self.args);
        if let Some(x) = &self.var_arg {
            let mut part = String::new();
            push_char(&mut part, '*');
            push_str(&mut part, x.as_str());
            assert(part@ =~= seq!['*'] + x@);
            push_part(&mut m_str, part.as_str());
        }
        let kw_only = join_comma(&self.kw_only_args);
        if kw_only.as_str().unicode_len() > 0 {
            push_part(&mut m_str, kw_only.as_str());
        }
        if let Some(x) = &self.kw_arg {
            let mut part = String::new();
            push_char(&mut part, '*');
            push_char(&mut part, '*');
            push_str(&mut part, x.as_str());
            assert(part@ =~= seq!['*', '*'] + x@);
            push_part(&mut m_str, part.as_str());
        }
        m_str
    }
}

} // verus!
