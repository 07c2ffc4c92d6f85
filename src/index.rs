use vstd::prelude::*;
use crate::fragment::{FragView, LocalData};
use crate::keyed::{find_keyed, keyed_map, keys_unique, lemma_keyed_map_absent, lemma_keyed_map_index};
use crate::state::{frag_views, model_wf, ClassData, ModelView, State, StateView};

verus! {

/// Which members a cross-reference lists.
#[derive(Clone, Copy, PartialEq, Eq, Structural)]
pub enum Member {
    Field,
    Method,
}

/// One line of a cross-reference: member `name` belongs to `model`, and
/// comes from its original fragment or from an extension.
pub struct XrefEntry {
    pub name: String,
    pub model: String,
    pub is_original: bool,
}

pub open spec fn declares(f: FragView, n: Seq<char>, kind: Member) -> bool {
    match kind {
        Member::Field => f.fields.contains_key(n),
        Member::Method => f.methods.contains_key(n),
    }
}

/// The original fragment of model `mv` declares `n`.
pub open spec fn original_declares(frags: Seq<FragView>, mv: ModelView, n: Seq<char>, kind: Member) -> bool {
    &&& mv.original is Some
    &&& declares(frags[mv.original->0 as int], n, kind)
}

/// Some extension fragment of model `mv` declares `n`.
pub open spec fn extension_declares(frags: Seq<FragView>, mv: ModelView, n: Seq<char>, kind: Member) -> bool {
    exists|k: int| 0 <= k < mv.inherits.len() && declares(frags[#[trigger] mv.inherits[k] as int], n, kind)
}

/// Model `mv` lists `n` with flag `is_original`: the original fragment's
/// members are marked original; a member that only extensions declare is
/// marked as theirs. A member of the original fragment is never listed as an
/// extension's.
pub open spec fn model_lists(frags: Seq<FragView>, mv: ModelView, kind: Member, n: Seq<char>, is_original: bool) -> bool {
    if is_original {
        original_declares(frags, mv, n, kind)
    } else {
        !original_declares(frags, mv, n, kind) && extension_declares(frags, mv, n, kind)
    }
}

/// The cross-reference lists `n` under `model` with flag `is_original`.
pub open spec fn xref_has(st: StateView, kind: Member, n: Seq<char>, model: Seq<char>, is_original: bool) -> bool {
    &&& st.models.contains_key(model)
    &&& model_lists(st.fragments, st.models[model], kind, n, is_original)
}

pub open spec fn entry_is(e: XrefEntry, n: Seq<char>, model: Seq<char>, is_original: bool) -> bool {
    e.name@ == n && e.model@ == model && e.is_original == is_original
}

proof fn lemma_declares_iff<V: View>(s: Seq<(String, V)>, n: Seq<char>)
    requires
        keys_unique(s),
    ensures
        keyed_map(s).contains_key(n) <==> exists|i: int| 0 <= i < s.len() && (#[trigger] s[i]).0@ == n,
{
    if exists|i: int| 0 <= i < s.len() && (#[trigger] s[i]).0@ == n {
        let i = choose|i: int| 0 <= i < s.len() && (#[trigger] s[i]).0@ == n;
        lemma_keyed_map_index(s, i);
    } else {
        lemma_keyed_map_absent(s, n);
    }
}

/// Appends an entry for each name of `entries` under `model` that `skip`
/// does not hold (where `use_skip`).
fn emit_names<V: View, W: View>(
    out: &mut Vec<XrefEntry>,
    entries: &Vec<(String, V)>,
    model: &String,
    is_original: bool,
    skip: &Vec<(String, W)>,
    use_skip: bool,
)
    requires
        keys_unique(entries@),
        keys_unique(skip@),
    ensures
        final(out)@.len() >= old(out)@.len(),
        forall|i: int| 0 <= i < old(out)@.len() ==> final(out)@[i] == old(out)@[i],
        forall|i: int|
            old(out)@.len() <= i < final(out)@.len() ==> {
                &&& (#[trigger] final(out)@[i]).model@ == model@
                &&& final(out)@[i].is_original == is_original
                &&& keyed_map(entries@).contains_key(final(out)@[i].name@)
                &&& !(use_skip && keyed_map(skip@).contains_key(final(out)@[i].name@))
            },
        forall|n: Seq<char>|
            #[trigger] keyed_map(entries@).contains_key(n) && !(use_skip && keyed_map(
                skip@,
            ).contains_key(n)) ==> exists|i: int|
                old(out)@.len() <= i < final(out)@.len() && entry_is(
                    #[trigger] final(out)@[i],
                    n,
                    model@,
                    is_original,
                ),
{
    let mut j: usize = 0;
    while j < entries.len()
        invariant
            0 <= j <= entries@.len(),
            keys_unique(entries@),
            keys_unique(skip@),
            out@.len() >= old(out)@.len(),
            forall|i: int| 0 <= i < old(out)@.len() ==> out@[i] == old(out)@[i],
            forall|i: int|
                old(out)@.len() <= i < out@.len() ==> {
                    &&& (#[trigger] out@[i]).model@ == model@
                    &&& out@[i].is_original == is_original
                    &&& keyed_map(entries@).contains_key(out@[i].name@)
                    &&& !(use_skip && keyed_map(skip@).contains_key(out@[i].name@))
                },
            forall|k: int|
                0 <= k < j && !(use_skip && keyed_map(skip@).contains_key(
                    #[trigger] entries@[k].0@,
                )) ==> exists|i: int|
                    old(out)@.len() <= i < out@.len() && entry_is(
                        #[trigger] out@[i],
                        entries@[k].0@,
                        model@,
                        is_original,
                    ),
        decreases entries@.len() - j,
    {
        let name = &entries[j].0;
        let skipped = use_skip && find_keyed(skip, name).is_some();
        proof {
            lemma_keyed_map_index(entries@, j as int);
        }
        if !skipped {
            let ghost before = out@;
            out.push(XrefEntry { name: name.clone(), model: model.clone(), is_original });
            proof {
                assert forall|k: int|
                    0 <= k < j + 1 && !(use_skip && keyed_map(skip@).contains_key(
                        #[trigger] entries@[k].0@,
                    )) implies exists|i: int|
                    old(out)@.len() <= i < out@.len() && entry_is(
                        #[trigger] out@[i],
                        entries@[k].0@,
                        model@,
                        is_original,
                    ) by {
                    if k < j {
                        let i = choose|i: int|
                            old(out)@.len() <= i < before.len() && entry_is(
                                #[trigger] before[i],
                                entries@[k].0@,
                                model@,
                                is_original,
                            );
                        assert(out@[i] == before[i]);
                    } else {
                        assert(entry_is(out@[before.len() as int], entries@[k].0@, model@, is_original));
                    }
                }
            }
        }
        j = j + 1;
    }
    proof {
        assert forall|n: Seq<char>|
            #[trigger] keyed_map(entries@).contains_key(n) && !(use_skip && keyed_map(
                skip@,
            ).contains_key(n)) implies exists|i: int|
            old(out)@.len() <= i < out@.len() && entry_is(
                #[trigger] out@[i],
                n,
                model@,
                is_original,
            ) by {
            lemma_declares_iff(entries@, n);
            let k = choose|k: int| 0 <= k < entries@.len() && (#[trigger] entries@[k]).0@ == n;
        }
    }
}

pub open spec fn skips(skip: Option<&LocalData>, n: Seq<char>, kind: Member) -> bool {
    skip matches Some(s) && declares(s@, n, kind)
}

/// Appends an entry under `model` for each member of kind `kind` of `frag`
/// that `skip` does not declare.
fn emit_fragment(
    out: &mut Vec<XrefEntry>,
    frag: &LocalData,
    kind: Member,
    model: &String,
    is_original: bool,
    skip: Option<&LocalData>,
)
    requires
        frag.wf(),
        skip matches Some(s) ==> s.wf(),
    ensures
        final(out)@.len() >= old(out)@.len(),
        forall|i: int| 0 <= i < old(out)@.len() ==> final(out)@[i] == old(out)@[i],
        forall|i: int|
            old(out)@.len() <= i < final(out)@.len() ==> {
                &&& (#[trigger] final(out)@[i]).model@ == model@
                &&& final(out)@[i].is_original == is_original
                &&& declares(frag@, final(out)@[i].name@, kind)
                &&& !skips(skip, final(out)@[i].name@, kind)
            },
        forall|n: Seq<char>|
            #[trigger] declares(frag@, n, kind) && !skips(skip, n, kind) ==> exists|i: int|
                old(out)@.len() <= i < final(out)@.len() && entry_is(
                    #[trigger] final(out)@[i],
                    n,
                    model@,
                    is_original,
                ),
{
    match (kind, skip) {
        (Member::Field, Some(s)) => emit_names(out, &frag.fields, model, is_original, &s.fields, true),
        (Member::Field, None) => emit_names(out, &frag.fields, model, is_original, &frag.fields, false),
        (Member::Method, Some(s)) => emit_names(out, &frag.methods, model, is_original, &s.methods, true),
        (Member::Method, None) => emit_names(out, &frag.methods, model, is_original, &frag.methods, false),
    }
}

pub open spec fn frags_wf(frags: Seq<LocalData>) -> bool {
    forall|i: int| 0 <= i < frags.len() ==> (#[trigger] frags[i]).wf()
}

/// Appends the entries of one model.
fn emit_model(out: &mut Vec<XrefEntry>, frags: &Vec<LocalData>, model: &String, cd: &ClassData, kind: Member)
    requires
        frags_wf(frags@),
        model_wf(frag_views(frags@), cd@),
    ensures
        final(out)@.len() >= old(out)@.len(),
        forall|i: int| 0 <= i < old(out)@.len() ==> final(out)@[i] == old(out)@[i],
        forall|i: int|
            old(out)@.len() <= i < final(out)@.len() ==> {
                &&& (#[trigger] final(out)@[i]).model@ == model@
                &&& model_lists(frag_views(frags@), cd@, kind, final(out)@[i].name@, final(out)@[i].is_original)
            },
        forall|n: Seq<char>, f: bool|
            #[trigger] model_lists(frag_views(frags@), cd@, kind, n, f) ==> exists|i: int|
                old(out)@.len() <= i < final(out)@.len() && entry_is(#[trigger] final(out)@[i], n, model@, f),
{
    let ghost fv = frag_views(frags@);
    let ghost mv = cd@;
    let ghost start = out@.len();
    let orig: Option<&LocalData> = match cd.original {
        Some(o) => Some(&frags[o]),
        None => None,
    };
    assert(forall|n: Seq<char>| skips(orig, n, kind) == original_declares(fv, mv, n, kind));
    assert(orig matches Some(s) ==> s.wf());
    if let Some(o) = orig {
        emit_fragment(out, o, kind, model, true, None);
    }
    let ghost mid = out@.len();
    assert(forall|i: int| start <= i < mid ==> model_lists(fv, mv, kind, (#[trigger] out@[i]).name@, out@[i].is_original));
    let mut j: usize = 0;
    while j < cd.inherits.len()
        invariant
            0 <= j <= cd.inherits@.len(),
            fv == frag_views(frags@),
            mv == cd@,
            frags_wf(frags@),
            model_wf(fv, mv),
            forall|n: Seq<char>| skips(orig, n, kind) == original_declares(fv, mv, n, kind),
            orig matches Some(s) ==> s.wf(),
            start <= mid <= out@.len(),
            forall|i: int| 0 <= i < start ==> out@[i] == old(out)@[i],
            start == old(out)@.len(),
            forall|i: int| start <= i < out@.len() ==> {
                &&& (#[trigger] out@[i]).model@ == model@
                &&& model_lists(fv, mv, kind, out@[i].name@, out@[i].is_original)
            },
            forall|n: Seq<char>|
                #[trigger] original_declares(fv, mv, n, kind) ==> exists|i: int|
                    start <= i < out@.len() && entry_is(#[trigger] out@[i], n, model@, true),
            forall|n: Seq<char>, k: int|
                0 <= k < j && !original_declares(fv, mv, n, kind) && #[trigger] declares(fv[mv.inherits[k] as int], n, kind)
                    ==> exists|i: int| start <= i < out@.len() && entry_is(#[trigger] out@[i], n, model@, false),
        decreases cd.inherits@.len() - j,
    {
        let idx = cd.inherits[j];
        let ghost before = out@;
        emit_fragment(out, &frags[idx], kind, model, false, orig);
        proof {
            assert(frags@[idx as int]@ == fv[idx as int]);
            assert forall|i: int| start <= i < out@.len() implies {
                &&& (#[trigger] out@[i]).model@ == model@
                &&& model_lists(fv, mv, kind, out@[i].name@, out@[i].is_original)
            } by {
                if i >= before.len() {
                    assert(declares(fv[mv.inherits[j as int] as int], out@[i].name@, kind));
                } else {
                    assert(out@[i] == before[i]);
                }
            }
            assert forall|n: Seq<char>|
                #[trigger] original_declares(fv, mv, n, kind) implies exists|i: int|
                    start <= i < out@.len() && entry_is(#[trigger] out@[i], n, model@, true) by {
                let i = choose|i: int| start <= i < before.len() && entry_is(#[trigger] before[i], n, model@, true);
                assert(out@[i] == before[i]);
            }
            assert forall|n: Seq<char>, k: int|
                0 <= k < j + 1 && !original_declares(fv, mv, n, kind) && #[trigger] declares(fv[mv.inherits[k] as int], n, kind)
                    implies exists|i: int| start <= i < out@.len() && entry_is(#[trigger] out@[i], n, model@, false) by {
                if k < j {
                    let i = choose|i: int| start <= i < before.len() && entry_is(#[trigger] before[i], n, model@, false);
                    assert(out@[i] == before[i]);
                } else {
                    assert(declares(frags@[idx as int]@, n, kind));
                }
            }
        }
        j = j + 1;
    }
    proof {
        assert forall|n: Seq<char>, f: bool|
            #[trigger] model_lists(fv, mv, kind, n, f) implies exists|i: int|
                start <= i < out@.len() && entry_is(#[trigger] out@[i], n, model@, f) by {
            if !f {
                let k = choose|k: int| 0 <= k < mv.inherits.len() && declares(fv[#[trigger] mv.inherits[k] as int], n, kind);
            }
        }
    }
}

impl State {
    /// The cross-reference of the members of kind `kind`: for each model, in
    /// the order the state keeps them, the members of its original fragment, marked original, then the
    /// members of its extensions that the original fragment does not
    /// declare, marked as extensions'. Exactly the entries that `xref_has`
    /// describes are listed.
    pub fn cross_reference(&self, kind: Member) -> (r: Vec<XrefEntry>)
        requires
            self.wf(),
        ensures
            forall|i: int|
                0 <= i < r@.len() ==> xref_has(
                    self@,
                    kind,
                    (#[trigger] r@[i]).name@,
                    r@[i].model@,
                    r@[i].is_original,
                ),
            forall|n: Seq<char>, model: Seq<char>, f: bool|
                #[trigger] xref_has(self@, kind, n, model, f) ==> exists|i: int|
                    0 <= i < r@.len() && entry_is(#[trigger] r@[i], n, model, f),
    {
        let ghost fv = frag_views(self.fragments@);
        let ghost st = self@;
        let mut out: Vec<XrefEntry> = Vec::new();
        let mut k: usize = 0;
        while k < self.classes.len()
            invariant
                0 <= k <= self.classes@.len(),
                self.wf(),
                st == self@,
                fv == frag_views(self.fragments@),
                fv == st.fragments,
                forall|i: int|
                    0 <= i < out@.len() ==> xref_has(
                        st,
                        kind,
                        (#[trigger] out@[i]).name@,
                        out@[i].model@,
                        out@[i].is_original,
                    ),
                forall|kk: int, n: Seq<char>, f: bool|
                    0 <= kk < k && #[trigger] model_lists(fv, self.classes@[kk].1@, kind, n, f) ==> exists|i: int|
                        0 <= i < out@.len() && entry_is(#[trigger] out@[i], n, self.classes@[kk].0@, f),
            decreases self.classes@.len() - k,
        {
            let ghost before = out@;
            proof {
                lemma_keyed_map_index(self.classes@, k as int);
            }
            let entry = &self.classes[k];
            emit_model(&mut out, &self.fragments, &entry.0, &entry.1, kind);
            proof {
                assert forall|i: int| 0 <= i < out@.len() implies xref_has(
                    st,
                    kind,
                    (#[trigger] out@[i]).name@,
                    out@[i].model@,
                    out@[i].is_original,
                ) by {
                    if i < before.len() {
                        assert(out@[i] == before[i]);
                    }
                }
                assert forall|kk: int, n: Seq<char>, f: bool|
                    0 <= kk < k + 1 && #[trigger] model_lists(fv, self.classes@[kk].1@, kind, n, f) implies exists|i: int|
                        0 <= i < out@.len() && entry_is(#[trigger] out@[i], n, self.classes@[kk].0@, f) by {
                    if kk < k {
                        let i = choose|i: int| 0 <= i < before.len() && entry_is(#[trigger] before[i], n, self.classes@[kk].0@, f);
                        assert(out@[i] == before[i]);
                    }
                }
            }
            k = k + 1;
        }
        proof {
            assert forall|n: Seq<char>, model: Seq<char>, f: bool|
                #[trigger] xref_has(st, kind, n, model, f) implies exists|i: int|
                    0 <= i < out@.len() && entry_is(#[trigger] out@[i], n, model, f) by {
                lemma_declares_iff(self.classes@, model);
                let kk = choose|kk: int| 0 <= kk < self.classes@.len() && (#[trigger] self.classes@[kk]).0@ == model;
                lemma_keyed_map_index(self.classes@, kk);
                assert(model_lists(fv, self.classes@[kk].1@, kind, n, f));
            }
        }
        out
    }
}

} // verus!
