use vstd::prelude::*;
use vstd::utf8::encode_utf8;
use crate::fragment::{block_fold, extract_class, positions_fit, ClassFacts, FragView, LocalData};
use crate::keyed::{
    find_keyed, keyed_map, keys_unique, lemma_keyed_map_index, lemma_keyed_map_insert_fresh,
    lemma_keyed_map_update, names_in_order,
};
use crate::position::{newline_offsets, parse_line_data};
use crate::syntax::ClassDef;

verus! {

/// Byte-wise lexicographic order.
pub open spec fn bytes_lt(a: Seq<u8>, b: Seq<u8>) -> bool
    decreases a.len(),
{
    if a.len() == 0 {
        b.len() > 0
    } else if b.len() == 0 {
        false
    } else if a[0] != b[0] {
        a[0] < b[0]
    } else {
        bytes_lt(a.drop_first(), b.drop_first())
    }
}

/// The order of strings: by their UTF-8 bytes.
pub open spec fn name_lt(a: Seq<char>, b: Seq<char>) -> bool {
    bytes_lt(encode_utf8(a), encode_utf8(b))
}

pub proof fn lemma_bytes_lt_asym(a: Seq<u8>, b: Seq<u8>)
    ensures
        !(bytes_lt(a, b) && bytes_lt(b, a)),
    decreases a.len(),
{
    if a.len() > 0 && b.len() > 0 && a[0] == b[0] {
        lemma_bytes_lt_asym(a.drop_first(), b.drop_first());
    }
}

/// Relies on `Ord` for `String`: strings compare lexicographically by their
/// bytes.
#[verifier::external_body]
pub(crate) fn name_less(a: &String, b: &String) -> (r: bool)
    ensures
        r == name_lt(a@, b@),
{
    a < b
}

/// A model: the index of its original fragment, if any, and the indices of
/// its extension fragments.
pub struct ClassData {
    pub original: Option<usize>,
    pub inherits: Vec<usize>,
}

pub struct ModelView {
    pub original: Option<usize>,
    pub inherits: Seq<usize>,
}

impl View for ClassData {
    type V = ModelView;

    open spec fn view(&self) -> ModelView {
        ModelView { original: self.original, inherits: self.inherits@ }
    }
}

/// All fragments seen so far, and each model by name, in ascending order of
/// model name.
pub struct State {
    pub fragments: Vec<LocalData>,
    pub classes: Vec<(String, ClassData)>,
}

pub struct StateView {
    pub fragments: Seq<FragView>,
    pub models: Map<Seq<char>, ModelView>,
}

/// The extension fragments `s` are listed in ascending order of file name.
pub open spec fn sorted_by_file(frags: Seq<FragView>, s: Seq<usize>) -> bool {
    forall|k: int|
        0 <= k < s.len() - 1 ==> !name_lt(
            frags[s[k + 1] as int].filename,
            #[trigger] frags[s[k] as int].filename,
        )
}

/// The position, from `i` on, of the first fragment of `s` whose file name
/// comes after that of fragment `x`.
pub open spec fn first_later(frags: Seq<FragView>, s: Seq<usize>, x: usize, i: int) -> int
    decreases s.len() - i,
{
    if i < 0 || i >= s.len() {
        s.len() as int
    } else if name_lt(frags[x as int].filename, frags[s[i] as int].filename) {
        i
    } else {
        first_later(frags, s, x, i + 1)
    }
}

/// `x` placed after every fragment whose file name does not come after its
/// own.
pub open spec fn sorted_insert(frags: Seq<FragView>, s: Seq<usize>, x: usize) -> Seq<usize> {
    s.insert(first_later(frags, s, x, 0), x)
}

pub open spec fn empty_model() -> ModelView {
    ModelView { original: None, inherits: Seq::empty() }
}

pub open spec fn model_or_empty(m: Map<Seq<char>, ModelView>, n: Seq<char>) -> ModelView {
    if m.contains_key(n) {
        m[n]
    } else {
        empty_model()
    }
}

/// Fragment `idx` joins model `n`: as an extension, or as its original,
/// which replaces any earlier one.
pub open spec fn name_step(
    m: Map<Seq<char>, ModelView>,
    frags: Seq<FragView>,
    n: Seq<char>,
    extends: bool,
    idx: usize,
) -> Map<Seq<char>, ModelView> {
    let mv = model_or_empty(m, n);
    m.insert(
        n,
        if extends {
            ModelView { inherits: sorted_insert(frags, mv.inherits, idx), ..mv }
        } else {
            ModelView { original: Some(idx), ..mv }
        },
    )
}

pub open spec fn names_fold(
    m: Map<Seq<char>, ModelView>,
    frags: Seq<FragView>,
    names: Seq<Seq<char>>,
    extends: bool,
    idx: usize,
) -> Map<Seq<char>, ModelView>
    decreases names.len(),
{
    if names.len() == 0 {
        m
    } else {
        name_step(names_fold(m, frags, names.drop_last(), extends, idx), frags, names.last(), extends, idx)
    }
}

/// A new fragment, added to each of the models that it names.
pub open spec fn with_fragment(st: StateView, frag: FragView, names: Seq<Seq<char>>, extends: bool) -> StateView {
    let frags = st.fragments.push(frag);
    StateView {
        fragments: frags,
        models: names_fold(st.models, frags, names, extends, st.fragments.len() as usize),
    }
}

pub open spec fn class_step(st: StateView, filename: Seq<char>, c: ClassDef, nl: Seq<usize>) -> StateView {
    let b = block_fold(c.body@, nl);
    with_fragment(
        st,
        FragView { filename, fields: b.fields, methods: b.methods },
        b.names,
        b.extends,
    )
}

pub open spec fn classes_fold(st: StateView, filename: Seq<char>, cs: Seq<ClassDef>, nl: Seq<usize>) -> StateView
    decreases cs.len(),
{
    if cs.len() == 0 {
        st
    } else {
        class_step(classes_fold(st, filename, cs.drop_last(), nl), filename, cs.last(), nl)
    }
}

/// A source file: its name, its text, and the classes defined at its top
/// level, in order.
pub struct SourceFile {
    pub filename: String,
    pub code: String,
    pub classes: Vec<ClassDef>,
}

pub open spec fn file_step(st: StateView, f: SourceFile) -> StateView {
    classes_fold(st, f.filename@, f.classes@, newline_offsets(encode_utf8(f.code@)))
}

pub open spec fn empty_state() -> StateView {
    StateView { fragments: Seq::empty(), models: Map::empty() }
}

/// The state after all of `files`, in order.
pub open spec fn pipeline(files: Seq<SourceFile>) -> StateView
    decreases files.len(),
{
    if files.len() == 0 {
        empty_state()
    } else {
        file_step(pipeline(files.drop_last()), files.last())
    }
}

pub open spec fn file_fits(f: SourceFile) -> bool {
    forall|i: int| 0 <= i < f.classes@.len() ==> positions_fit(#[trigger] f.classes@[i])
}

pub open spec fn model_wf(frags: Seq<FragView>, mv: ModelView) -> bool {
    &&& (mv.original matches Some(o) ==> o < frags.len())
    &&& forall|k: int| 0 <= k < mv.inherits.len() ==> #[trigger] mv.inherits[k] < frags.len()
    &&& sorted_by_file(frags, mv.inherits)
}

pub open spec fn models_wf(frags: Seq<FragView>, m: Map<Seq<char>, ModelView>) -> bool {
    forall|n: Seq<char>| #[trigger] m.contains_key(n) ==> model_wf(frags, m[n])
}

impl View for State {
    type V = StateView;

    open spec fn view(&self) -> StateView {
        StateView {
            fragments: self.fragments@.map_values(|f: LocalData| f@),
            models: keyed_map(self.classes@),
        }
    }
}

pub open spec fn frag_views(frags: Seq<LocalData>) -> Seq<FragView> {
    frags.map_values(|f: LocalData| f@)
}

pub proof fn lemma_first_later_bounds(frags: Seq<FragView>, s: Seq<usize>, x: usize, i: int)
    requires
        0 <= i <= s.len(),
    ensures
        i <= first_later(frags, s, x, i) <= s.len(),
        forall|j: int|
            i <= j < first_later(frags, s, x, i) ==> !name_lt(
                frags[x as int].filename,
                #[trigger] frags[s[j] as int].filename,
            ),
        first_later(frags, s, x, i) < s.len() ==> name_lt(
            frags[x as int].filename,
            frags[s[first_later(frags, s, x, i)] as int].filename,
        ),
    decreases s.len() - i,
{
    if i < s.len() && !name_lt(frags[x as int].filename, frags[s[i] as int].filename) {
        lemma_first_later_bounds(frags, s, x, i + 1);
    }
}

/// Inserting by file name keeps a list of extensions sorted.
pub proof fn lemma_sorted_insert_sorted(frags: Seq<FragView>, s: Seq<usize>, x: usize)
    requires
        sorted_by_file(frags, s),
    ensures
        sorted_by_file(frags, sorted_insert(frags, s, x)),
{
    lemma_first_later_bounds(frags, s, x, 0);
    let p = first_later(frags, s, x, 0);
    let t = sorted_insert(frags, s, x);
    assert forall|k: int| 0 <= k < t.len() - 1 implies !name_lt(
        frags[t[k + 1] as int].filename,
        #[trigger] frags[t[k] as int].filename,
    ) by {
        if k + 1 < p {
            assert(t[k] == s[k] && t[k + 1] == s[k + 1]);
        } else if k + 1 == p {
            assert(t[k] == s[k] && t[k + 1] == x);
        } else if k == p {
            assert(t[k] == x && t[k + 1] == s[k]);
            lemma_bytes_lt_asym(
                encode_utf8(frags[x as int].filename),
                encode_utf8(frags[s[k] as int].filename),
            );
        } else {
            assert(t[k] == s[k - 1] && t[k + 1] == s[k]);
        }
    }
}

proof fn lemma_model_wf_push(frags: Seq<FragView>, f: FragView, mv: ModelView)
    requires
        model_wf(frags, mv),
    ensures
        model_wf(frags.push(f), mv),
{
    let g = frags.push(f);
    assert forall|k: int| 0 <= k < mv.inherits.len() - 1 implies !name_lt(
        g[mv.inherits[k + 1] as int].filename,
        #[trigger] g[mv.inherits[k] as int].filename,
    ) by {
        assert(mv.inherits[k] < frags.len() && mv.inherits[k + 1] < frags.len());
        assert(!name_lt(
            frags[mv.inherits[k + 1] as int].filename,
            frags[mv.inherits[k] as int].filename,
        ));
    }
}

/// Places `idx` among the extensions `inherits` by the file name of its
/// fragment.
fn insert_by_file(frags: &Vec<LocalData>, inherits: &mut Vec<usize>, idx: usize)
    requires
        idx < frags@.len(),
        forall|k: int| 0 <= k < old(inherits)@.len() ==> #[trigger] old(inherits)@[k] < frags@.len(),
    ensures
        final(inherits)@ == sorted_insert(frag_views(frags@), old(inherits)@, idx),
{
    let ghost fv = frag_views(frags@);
    let mut p: usize = 0;
    proof {
        lemma_first_later_bounds(fv, inherits@, idx, 0);
    }
    while p < inherits.len() && !name_less(
        &frags[idx].filename,
        &frags[inherits[p]].filename,
    )
        invariant
            0 <= p <= inherits@.len(),
            inherits@ == old(inherits)@,
            idx < frags@.len(),
            fv == frag_views(frags@),
            forall|k: int| 0 <= k < inherits@.len() ==> #[trigger] inherits@[k] < frags@.len(),
            first_later(fv, inherits@, idx, 0) == first_later(fv, inherits@, idx, p as int),
        decreases inherits@.len() - p,
    {
        p = p + 1;
    }
    inherits.insert(p, idx);
}

impl State {
    pub open spec fn wf(&self) -> bool {
        &&& keys_unique(self.classes@)
        &&& names_in_order(self.classes@)
        &&& forall|i: int| 0 <= i < self.fragments@.len() ==> (#[trigger] self.fragments@[i]).wf()
        &&& models_wf(self@.fragments, self@.models)
    }

    /// A state with no fragment and no model.
    pub fn new() -> (r: State)
        ensures
            r.wf(),
            r@ == empty_state(),
    {
        let r = State { fragments: Vec::new(), classes: Vec::new() };
        assert(r@.fragments =~= Seq::<FragView>::empty());
        assert(r@.models =~= Map::<Seq<char>, ModelView>::empty());
        r
    }

    /// Fragment `idx` joins model `name`.
    fn join_model(&mut self, name: String, idx: usize, extends: bool)
        requires
            old(self).wf(),
            idx < old(self).fragments@.len(),
        ensures
            final(self).wf(),
            final(self).fragments == old(self).fragments,
            final(self)@.models == name_step(
                old(self)@.models,
                old(self)@.fragments,
                name@,
                extends,
                idx,
            ),
    {
        let ghost fv = self@.fragments;
        let ghost m0 = self@.models;
        let (key, mut cd, at) = match find_keyed(&self.classes, &name) {
            Some(k) => {
                let (key, cd) = self.classes.remove(k);
                (key, cd, Some(k))
            },
            None => (name, ClassData { original: None, inherits: Vec::new() }, None),
        };
        assert(cd@ == model_or_empty(m0, key@));
        assert(model_wf(fv, cd@));
        if extends {
            insert_by_file(&self.fragments, &mut cd.inherits, idx);
            proof {
                lemma_sorted_insert_sorted(fv, model_or_empty(m0, key@).inherits, idx);
                lemma_first_later_bounds(fv, model_or_empty(m0, key@).inherits, idx, 0);
                let old_inh = model_or_empty(m0, key@).inherits;
                let p = first_later(fv, old_inh, idx, 0);
                assert forall|k: int| 0 <= k < cd.inherits@.len() implies #[trigger] cd.inherits@[k] < fv.len() by {
                    if k < p {
                        assert(cd.inherits@[k] == old_inh[k]);
                    } else if k > p {
                        assert(cd.inherits@[k] == old_inh[k - 1]);
                    }
                }
            }
        } else {
            cd.original = Some(idx);
        }
        let ghost before = self.classes@;
        match at {
            Some(k) => {
                self.classes.insert(k, (key, cd));
                proof {
                    assert(self.classes@ =~= old(self).classes@.update(k as int, (key, cd)));
                    assert(names_in_order(self.classes@));
                    lemma_keyed_map_update(old(self).classes@, k as int, (key, cd));
                }
            },
            None => {
                proof {
                    assert forall|i: int| 0 <= i < before.len() implies before[i].0@ != key@ by {
                        lemma_keyed_map_index(before, i);
                    }
                }
                let mut p: usize = 0;
                while p < self.classes.len() && !name_less(&key, &self.classes[p].0)
                    invariant
                        0 <= p <= self.classes@.len(),
                        self.classes@ == before,
                        forall|j: int| 0 <= j < p ==> !name_lt(key@, #[trigger] before[j].0@),
                    decreases self.classes@.len() - p,
                {
                    p = p + 1;
                }
                let e = (key, cd);
                self.classes.insert(p, e);
                proof {
                    lemma_keyed_map_insert_fresh(before, p as int, e);
                    let t = self.classes@;
                    assert(forall|j: int| 0 <= j < p ==> t[j] == before[j]);
                    assert(forall|j: int| p < j < t.len() ==> t[j] == before[j - 1]);
                    assert forall|a: int, b: int| 0 <= a < t.len() && 0 <= b < t.len() && a != b implies t[a].0@ != t[b].0@ by {
                        if a != p as int && b != p as int {
                            let a0 = if a < p { a } else { a - 1 };
                            let b0 = if b < p { b } else { b - 1 };
                            assert(before[a0].0@ != before[b0].0@);
                        }
                    }
                    assert forall|j: int| 0 <= j < t.len() - 1 implies !name_lt(t[j + 1].0@, #[trigger] t[j].0@) by {
                        if j == p {
                            lemma_bytes_lt_asym(encode_utf8(key@), encode_utf8(before[j].0@));
                        }
                    }
                }
            },
        }
        assert(self@.models =~= name_step(m0, fv, name@, extends, idx));
        assert(models_wf(self@.fragments, self@.models));
    }

    /// Adds the fragment of one class block and files it under each model
    /// name that the block gives: as an extension, kept in order of file
    /// name, or as the model's original, replacing any earlier one.
    pub fn add_class(&mut self, facts: ClassFacts)
        requires
            old(self).wf(),
            facts.data.wf(),
        ensures
            final(self).wf(),
            final(self)@ == with_fragment(old(self)@, facts.data@, facts.names_view(), facts.extends),
    {
        let ghost st0 = self@;
        let ghost names = facts.names_view();
        let idx = self.fragments.len();
        let ClassFacts { names: name_list, extends, data } = facts;
        self.fragments.push(data);
        let ghost fv = self@.fragments;
        proof {
            assert(fv =~= st0.fragments.push(data@));
            assert(self.wf());
            assert forall|n: Seq<char>| #[trigger] st0.models.contains_key(n) implies model_wf(
                fv,
                st0.models[n],
            ) by {
                lemma_model_wf_push(st0.fragments, data@, st0.models[n]);
            }
            assert(names.take(0) =~= Seq::<Seq<char>>::empty());
        }
        let mut j: usize = 0;
        while j < name_list.len()
            invariant
                0 <= j <= name_list@.len(),
                idx == st0.fragments.len(),
                names == name_list@.map_values(|n: String| n@),
                self.wf(),
                self@.fragments == fv,
                self.fragments@.len() == idx + 1,
                fv == st0.fragments.push(data@),
                self@.models == names_fold(st0.models, fv, names.take(j as int), extends, idx),
            decreases name_list@.len() - j,
        {
            proof {
                assert(names.take(j as int + 1).drop_last() =~= names.take(j as int));
            }
            self.join_model(name_list[j].clone(), idx, extends);
            j = j + 1;
        }
        proof {
            assert(names.take(j as int) =~= names);
        }
    }

    /// Adds every class block of one file, in order.
    pub fn add_file(&mut self, file: SourceFile)
        requires
            old(self).wf(),
            file_fits(file),
        ensures
            final(self).wf(),
            final(self)@ == file_step(old(self)@, file),
    {
        let ghost st0 = self@;
        let ghost cs0 = file.classes@;
        let ghost fname = file.filename@;
        let line_data = parse_line_data(file.code.as_str());
        let ghost nl = line_data@;
        let SourceFile { filename, code, classes } = file;
        let mut classes = classes;
        let ghost mut i: int = 0;
        proof {
            assert(cs0.take(0) =~= Seq::<ClassDef>::empty());
        }
        while classes.len() > 0
            invariant
                0 <= i <= cs0.len(),
                classes@ == cs0.skip(i),
                filename@ == fname,
                line_data@ == nl,
                forall|k: int| 0 <= k < cs0.len() ==> positions_fit(#[trigger] cs0[k]),
                self.wf(),
                self@ == classes_fold(st0, fname, cs0.take(i), nl),
            decreases classes@.len(),
        {
            let c = classes.remove(0);
            proof {
                assert(cs0.take(i + 1).drop_last() =~= cs0.take(i));
                assert(c == cs0[i]);
                assert(classes@ =~= cs0.skip(i + 1));
            }
            let facts = extract_class(&filename, &line_data, c);
            self.add_class(facts);
            proof {
                i = i + 1;
            }
        }
        proof {
            assert(cs0.take(i) =~= cs0);
        }
    }
}

/// Extracts and merges every file, in order.
pub fn build_state(files: Vec<SourceFile>) -> (r: State)
    requires
        forall|i: int| 0 <= i < files@.len() ==> file_fits(#[trigger] files@[i]),
    ensures
        r.wf(),
        r@ == pipeline(files@),
{
    let ghost fs0 = files@;
    let mut files = files;
    let mut st = State::new();
    let ghost mut i: int = 0;
    proof {
        assert(fs0.take(0) =~= Seq::<SourceFile>::empty());
    }
    while files.len() > 0
        invariant
            0 <= i <= fs0.len(),
            files@ == fs0.skip(i),
            forall|k: int| 0 <= k < fs0.len() ==> file_fits(#[trigger] fs0[k]),
            st.wf(),
            st@ == pipeline(fs0.take(i)),
        decreases files@.len(),
    {
        let f = files.remove(0);
        proof {
            assert(fs0.take(i + 1).drop_last() =~= fs0.take(i));
            assert(f == fs0[i]);
            assert(files@ =~= fs0.skip(i + 1));
        }
        st.add_file(f);
        proof {
            i = i + 1;
        }
    }
    proof {
        assert(fs0.take(i) =~= fs0);
    }
    st
}

} // verus!
