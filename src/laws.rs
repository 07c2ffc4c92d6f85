use vstd::prelude::*;
use vstd::utf8::encode_utf8;
use crate::fragment::{block_fold, targets_fold, BlockView, FragView};
use crate::index::{extension_declares, original_declares, xref_has, Member};
use crate::position::newline_offsets;
use crate::state::{
    classes_fold, lemma_first_later_bounds, model_or_empty, name_lt, names_fold, pipeline,
    sorted_by_file, sorted_insert, ModelView, SourceFile, StateView,
};
use crate::syntax::{is_suppressed, AssignStmt, AssignTarget, BodyStmt, ClassDef};

verus! {

/// The record of class `c` of file `f`.
pub open spec fn class_block(f: SourceFile, c: ClassDef) -> BlockView {
    block_fold(c.body@, newline_offsets(encode_utf8(f.code@)))
}

/// Some class of `files` names model `n`, as an extension (`extends`) or as
/// its original.
pub open spec fn names_model(files: Seq<SourceFile>, n: Seq<char>, extends: bool) -> bool {
    exists|i: int, j: int|
        0 <= i < files.len() && 0 <= j < files[i].classes@.len() && #[trigger] class_block(
            files[i],
            files[i].classes@[j],
        ).names.contains(n) && class_block(files[i], files[i].classes@[j]).extends == extends
}

/// What the laws below track of model `n` in a state: it has no original,
/// and, once named, it exists with at least one extension.
pub open spec fn extension_only(st: StateView, n: Seq<char>, named: bool) -> bool {
    &&& model_or_empty(st.models, n).original is None
    &&& named ==> st.models.contains_key(n) && model_or_empty(st.models, n).inherits.len() > 0
}

proof fn lemma_names_fold_keeps(
    m: Map<Seq<char>, ModelView>,
    frags: Seq<FragView>,
    names: Seq<Seq<char>>,
    extends: bool,
    idx: usize,
    n: Seq<char>,
    named: bool,
)
    requires
        extends || !names.contains(n),
        model_or_empty(m, n).original is None,
        named ==> m.contains_key(n) && model_or_empty(m, n).inherits.len() > 0,
    ensures
        extension_only(
            StateView { fragments: frags, models: names_fold(m, frags, names, extends, idx) },
            n,
            named || names.contains(n),
        ),
    decreases names.len(),
{
    if names.len() > 0 {
        let prev = names.drop_last();
        assert(prev.contains(n) ==> names.contains(n)) by {
            if prev.contains(n) {
                let i = choose|i: int| 0 <= i < prev.len() && prev[i] == n;
                assert(names[i] == n);
            }
        }
        lemma_names_fold_keeps(m, frags, prev, extends, idx, n, named);
        let m1 = names_fold(m, frags, prev, extends, idx);
        let mv = model_or_empty(m1, names.last());
        if names.last() == n {
            assert(names.contains(n)) by {
                assert(names[names.len() - 1] == n);
            }
            lemma_first_later_bounds(frags, mv.inherits, idx, 0);
            assert(sorted_insert(frags, mv.inherits, idx).len() == mv.inherits.len() + 1);
        } else if names.contains(n) {
            let i = choose|i: int| 0 <= i < names.len() && names[i] == n;
            assert(prev[i] == n);
        }
    }
}

proof fn lemma_classes_fold_keeps(
    st: StateView,
    f: SourceFile,
    cs: Seq<ClassDef>,
    n: Seq<char>,
    named: bool,
)
    requires
        forall|j: int|
            0 <= j < cs.len() ==> !(#[trigger] class_block(f, cs[j]).names.contains(n) && !class_block(
                f,
                cs[j],
            ).extends),
        extension_only(st, n, named),
    ensures
        extension_only(
            classes_fold(st, f.filename@, cs, newline_offsets(encode_utf8(f.code@))),
            n,
            named || exists|j: int| 0 <= j < cs.len() && #[trigger] class_block(f, cs[j]).names.contains(n),
        ),
    decreases cs.len(),
{
    if cs.len() > 0 {
        let prev = cs.drop_last();
        assert forall|j: int|
            0 <= j < prev.len() implies !(#[trigger] class_block(f, prev[j]).names.contains(n)
            && !class_block(f, prev[j]).extends) by {
            assert(prev[j] == cs[j]);
        }
        let named1 = named || exists|j: int|
            0 <= j < prev.len() && #[trigger] class_block(f, prev[j]).names.contains(n);
        lemma_classes_fold_keeps(st, f, prev, n, named);
        let nl = newline_offsets(encode_utf8(f.code@));
        let st1 = classes_fold(st, f.filename@, prev, nl);
        let b = class_block(f, cs.last());
        assert(!(class_block(f, cs[cs.len() - 1]).names.contains(n) && !class_block(f, cs[cs.len() - 1]).extends));
        let frags = st1.fragments.push(FragView { filename: f.filename@, fields: b.fields, methods: b.methods });
        lemma_names_fold_keeps(st1.models, frags, b.names, b.extends, st1.fragments.len() as usize, n, named1);
        if exists|j: int| 0 <= j < cs.len() && #[trigger] class_block(f, cs[j]).names.contains(n) {
            let j = choose|j: int| 0 <= j < cs.len() && #[trigger] class_block(f, cs[j]).names.contains(n);
            if j < cs.len() - 1 {
                assert(prev[j] == cs[j]);
            }
        }
    }
}

/// A model that extensions name and that no class declares as its
/// original comes out with no original fragment and at least one extension.
pub proof fn lemma_extension_only_model(files: Seq<SourceFile>, n: Seq<char>)
    requires
        names_model(files, n, true),
        !names_model(files, n, false),
    ensures
        pipeline(files).models.contains_key(n),
        pipeline(files).models[n].original is None,
        pipeline(files).models[n].inherits.len() > 0,
{
    lemma_pipeline_keeps(files, n);
}

proof fn lemma_pipeline_keeps(files: Seq<SourceFile>, n: Seq<char>)
    requires
        !names_model(files, n, false),
    ensures
        extension_only(pipeline(files), n, names_model(files, n, true)),
    decreases files.len(),
{
    if files.len() > 0 {
        let prev = files.drop_last();
        let f = files.last();
        assert(!names_model(prev, n, false)) by {
            if names_model(prev, n, false) {
                let (i, j) = choose|i: int, j: int|
                    0 <= i < prev.len() && 0 <= j < prev[i].classes@.len() && #[trigger] class_block(
                        prev[i],
                        prev[i].classes@[j],
                    ).names.contains(n) && class_block(prev[i], prev[i].classes@[j]).extends == false;
                assert(files[i] == prev[i]);
            }
        }
        lemma_pipeline_keeps(prev, n);
        assert forall|j: int|
            0 <= j < f.classes@.len() implies !(#[trigger] class_block(f, f.classes@[j]).names.contains(n)
            && !class_block(f, f.classes@[j]).extends) by {
            if class_block(f, f.classes@[j]).names.contains(n) && !class_block(f, f.classes@[j]).extends {
                assert(files[files.len() - 1] == f);
                assert(names_model(files, n, false));
            }
        }
        lemma_classes_fold_keeps(pipeline(prev), f, f.classes@, n, names_model(prev, n, true));
        if names_model(files, n, true) {
            let (i, j) = choose|i: int, j: int|
                0 <= i < files.len() && 0 <= j < files[i].classes@.len() && #[trigger] class_block(
                    files[i],
                    files[i].classes@[j],
                ).names.contains(n) && class_block(files[i], files[i].classes@[j]).extends == true;
            if i < files.len() - 1 {
                assert(prev[i] == files[i]);
                assert(names_model(prev, n, true));
            }
        }
    }
}

proof fn lemma_targets_keep_methods(b: BlockView, ts: Seq<AssignTarget>, a: AssignStmt, nl: Seq<usize>)
    ensures
        targets_fold(b, ts, a, nl).methods == b.methods,
    decreases ts.len(),
{
    if ts.len() > 0 {
        lemma_targets_keep_methods(b, ts.drop_last(), a, nl);
    }
}

/// A method whose decorators suppress it, and which no undecorated method
/// of the same name accompanies, is not among its block's methods.
pub proof fn lemma_suppressed_method_absent(body: Seq<BodyStmt>, nl: Seq<usize>, i: int)
    requires
        0 <= i < body.len(),
        body[i] is FunctionDef,
        is_suppressed(body[i]->FunctionDef_0),
        forall|j: int|
            0 <= j < body.len() && (#[trigger] body[j]) is FunctionDef && body[j]->FunctionDef_0.name@
                == body[i]->FunctionDef_0.name@ ==> is_suppressed(body[j]->FunctionDef_0),
    ensures
        !block_fold(body, nl).methods.contains_key(body[i]->FunctionDef_0.name@),
    decreases body.len(),
{
    lemma_no_plain_method_absent(body, nl, body[i]->FunctionDef_0.name@);
}

proof fn lemma_no_plain_method_absent(body: Seq<BodyStmt>, nl: Seq<usize>, n: Seq<char>)
    requires
        forall|j: int|
            0 <= j < body.len() && (#[trigger] body[j]) is FunctionDef && body[j]->FunctionDef_0.name@
                == n ==> is_suppressed(body[j]->FunctionDef_0),
    ensures
        !block_fold(body, nl).methods.contains_key(n),
    decreases body.len(),
{
    if body.len() > 0 {
        let prev = body.drop_last();
        assert forall|j: int|
            0 <= j < prev.len() && (#[trigger] prev[j]) is FunctionDef && prev[j]->FunctionDef_0.name@
                == n implies is_suppressed(prev[j]->FunctionDef_0) by {
            assert(prev[j] == body[j]);
        }
        lemma_no_plain_method_absent(prev, nl, n);
        assert(body[body.len() - 1] == body.last());
        if let BodyStmt::Assign(a) = body.last() {
            lemma_targets_keep_methods(block_fold(prev, nl), a.targets@, a, nl);
        }
    }
}

/// Every method without a suppressing decorator is among its block's
/// methods.
pub proof fn lemma_plain_method_present(body: Seq<BodyStmt>, nl: Seq<usize>, i: int)
    requires
        0 <= i < body.len(),
        body[i] is FunctionDef,
        !is_suppressed(body[i]->FunctionDef_0),
    ensures
        block_fold(body, nl).methods.contains_key(body[i]->FunctionDef_0.name@),
    decreases body.len(),
{
    let prev = body.drop_last();
    let n = body[i]->FunctionDef_0.name@;
    if i < body.len() - 1 {
        assert(prev[i] == body[i]);
        lemma_plain_method_present(prev, nl, i);
        if let BodyStmt::Assign(a) = body.last() {
            lemma_targets_keep_methods(block_fold(prev, nl), a.targets@, a, nl);
        }
    }
}

/// A member that no fragment of a model declares is not listed under that
/// model, with either flag.
pub proof fn lemma_undeclared_not_listed(st: StateView, kind: Member, n: Seq<char>, model: Seq<char>)
    requires
        !original_declares(st.fragments, st.models[model], n, kind),
        !extension_declares(st.fragments, st.models[model], n, kind),
    ensures
        !xref_has(st, kind, n, model, true),
        !xref_has(st, kind, n, model, false),
{
}

/// A member of a model's original fragment is listed as original and never
/// as an extension's, whatever its extensions declare.
pub proof fn lemma_original_wins(st: StateView, kind: Member, n: Seq<char>, model: Seq<char>)
    requires
        st.models.contains_key(model),
        original_declares(st.fragments, st.models[model], n, kind),
    ensures
        xref_has(st, kind, n, model, true),
        !xref_has(st, kind, n, model, false),
{
}

/// Extensions stored in ascending order of file name are shown, reversed,
/// in descending order.
pub proof fn lemma_display_descending(frags: Seq<FragView>, s: Seq<usize>)
    requires
        sorted_by_file(frags, s),
    ensures
        forall|k: int|
            0 <= k < s.reverse().len() - 1 ==> !name_lt(
                #[trigger] frags[s.reverse()[k] as int].filename,
                frags[s.reverse()[k + 1] as int].filename,
            ),
{
    let r = s.reverse();
    assert forall|k: int|
        0 <= k < r.len() - 1 implies !name_lt(
            #[trigger] frags[r[k] as int].filename,
            frags[r[k + 1] as int].filename,
        ) by {
        let a = s.len() - 1 - (k + 1);
        assert(r[k] == s[a + 1]);
        assert(r[k + 1] == s[a]);
        assert(!name_lt(frags[s[a + 1] as int].filename, frags[s[a] as int].filename));
    }
}

/// The same source files give the same state.
pub proof fn lemma_pipeline_deterministic(a: Seq<SourceFile>, b: Seq<SourceFile>)
    requires
        a == b,
    ensures
        pipeline(a) == pipeline(b),
{
}

} // verus!
