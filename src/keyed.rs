use vstd::prelude::*;
use crate::state::{lemma_bytes_lt_asym, name_less, name_lt};
use vstd::utf8::encode_utf8;

verus! {

/// The map that a list of named entries stands for; a later entry of the
/// same name replaces an earlier one.
pub open spec fn keyed_map<V: View>(s: Seq<(String, V)>) -> Map<Seq<char>, V::V>
    decreases s.len(),
{
    if s.len() == 0 {
        Map::empty()
    } else {
        keyed_map(s.drop_last()).insert(s.last().0@, s.last().1@)
    }
}

/// No two entries share a name.
pub open spec fn keys_unique<V>(s: Seq<(String, V)>) -> bool {
    forall|i: int, j: int| 0 <= i < s.len() && 0 <= j < s.len() && i != j ==> s[i].0@ != s[j].0@
}

pub proof fn lemma_keyed_map_update<V: View>(s: Seq<(String, V)>, k: int, e: (String, V))
    requires
        0 <= k < s.len(),
        keys_unique(s),
        s[k].0@ == e.0@,
    ensures
        keyed_map(s.update(k, e)) == keyed_map(s).insert(e.0@, e.1@),
    decreases s.len(),
{
    let u = s.update(k, e);
    if k == s.len() - 1 {
        assert(u.drop_last() =~= s.drop_last());
        assert(keyed_map(u) =~= keyed_map(s).insert(e.0@, e.1@));
    } else {
        assert(u.drop_last() =~= s.drop_last().update(k, e));
        lemma_keyed_map_update(s.drop_last(), k, e);
        assert(s.last().0@ != e.0@);
        assert(keyed_map(u) =~= keyed_map(s).insert(e.0@, e.1@));
    }
}

/// Adds `value` under `name`, replacing the entry of that name if there is
/// one.
pub fn insert_keyed<V: View>(entries: &mut Vec<(String, V)>, name: String, value: V)
    requires
        keys_unique(old(entries)@),
    ensures
        keys_unique(final(entries)@),
        keyed_map(final(entries)@) == keyed_map(old(entries)@).insert(name@, value@),
{
    let mut k: usize = 0;
    while k < entries.len()
        invariant
            0 <= k <= entries@.len(),
            entries@ == old(entries)@,
            keys_unique(entries@),
            forall|j: int| 0 <= j < k ==> entries@[j].0@ != name@,
        decreases entries@.len() - k,
    {
        if entries[k].0.eq(&name) {
            let ghost before = entries@;
            let e = (name, value);
            proof {
                lemma_keyed_map_update(before, k as int, e);
            }
            entries.set(k, e);
            assert(entries@ == before.update(k as int, e));
            assert(keys_unique(entries@));
            return;
        }
        k = k + 1;
    }
    let ghost before = entries@;
    entries.push((name, value));
    assert(entries@.drop_last() =~= before);
    assert(keys_unique(entries@));
}

/// An entry of a list with unique names is what its map holds under that
/// name.
pub proof fn lemma_keyed_map_index<V: View>(s: Seq<(String, V)>, i: int)
    requires
        0 <= i < s.len(),
        keys_unique(s),
    ensures
        keyed_map(s).contains_key(s[i].0@),
        keyed_map(s)[s[i].0@] == s[i].1@,
    decreases s.len(),
{
    if i < s.len() - 1 {
        lemma_keyed_map_index(s.drop_last(), i);
        assert(s.last().0@ != s[i].0@);
    }
}

/// A name that no entry carries is not in the map.
pub proof fn lemma_keyed_map_absent<V: View>(s: Seq<(String, V)>, n: Seq<char>)
    requires
        forall|i: int| 0 <= i < s.len() ==> s[i].0@ != n,
    ensures
        !keyed_map(s).contains_key(n),
    decreases s.len(),
{
    if s.len() > 0 {
        lemma_keyed_map_absent(s.drop_last(), n);
    }
}

/// The position of the entry named `name`, if there is one.
pub fn find_keyed<V: View>(entries: &Vec<(String, V)>, name: &String) -> (r: Option<usize>)
    requires
        keys_unique(entries@),
    ensures
        match r {
            Some(k) => k < entries@.len() && entries@[k as int].0@ == name@
                && keyed_map(entries@).contains_key(name@)
                && keyed_map(entries@)[name@] == entries@[k as int].1@,
            None => !keyed_map(entries@).contains_key(name@),
        },
{
    let mut k: usize = 0;
    while k < entries.len()
        invariant
            0 <= k <= entries@.len(),
            keys_unique(entries@),
            forall|j: int| 0 <= j < k ==> entries@[j].0@ != name@,
        decreases entries@.len() - k,
    {
        if entries[k].0.eq(name) {
            proof {
                lemma_keyed_map_index(entries@, k as int);
            }
            return Some(k);
        }
        k = k + 1;
    }
    proof {
        lemma_keyed_map_absent(entries@, name@);
    }
    None
}

/// The entries stand in ascending order of name.
pub open spec fn names_in_order<V>(s: Seq<(String, V)>) -> bool {
    forall|k: int| 0 <= k < s.len() - 1 ==> !name_lt(s[k + 1].0@, #[trigger] s[k].0@)
}

/// Inserting an entry under a new name anywhere adds that name to the map.
pub proof fn lemma_keyed_map_insert_fresh<V: View>(s: Seq<(String, V)>, p: int, e: (String, V))
    requires
        0 <= p <= s.len(),
        forall|i: int| 0 <= i < s.len() ==> s[i].0@ != e.0@,
    ensures
        keyed_map(s.insert(p, e)) == keyed_map(s).insert(e.0@, e.1@),
    decreases s.len(),
{
    let t = s.insert(p, e);
    if p == s.len() {
        assert(t.drop_last() =~= s);
    } else {
        assert(t.drop_last() =~= s.drop_last().insert(p, e));
        assert(t.last() == s.last());
        lemma_keyed_map_insert_fresh(s.drop_last(), p, e);
        assert(s.last().0@ != e.0@);
        assert(keyed_map(t) =~= keyed_map(s).insert(e.0@, e.1@));
    }
}

/// The positions in `order` list their entries in ascending order of name.
pub open spec fn ascending_names<V>(entries: Seq<(String, V)>, order: Seq<usize>) -> bool {
    forall|k: int|
        0 <= k < order.len() - 1 ==> !name_lt(
            entries[order[k + 1] as int].0@,
            #[trigger] entries[order[k] as int].0@,
        )
}

/// The positions of all entries, in ascending order of their names: each
/// position once.
pub fn sorted_key_order<V>(entries: &Vec<(String, V)>) -> (r: Vec<usize>)
    ensures
        r@.len() == entries@.len(),
        r@.no_duplicates(),
        forall|k: int| 0 <= k < r@.len() ==> #[trigger] r@[k] < entries@.len(),
        ascending_names(entries@, r@),
{
    let mut r: Vec<usize> = Vec::new();
    let mut i: usize = 0;
    while i < entries.len()
        invariant
            0 <= i <= entries@.len(),
            r@.len() == i,
            r@.no_duplicates(),
            forall|k: int| 0 <= k < r@.len() ==> #[trigger] r@[k] < i,
            ascending_names(entries@, r@),
        decreases entries@.len() - i,
    {
        let mut p: usize = 0;
        while p < r.len() && !name_less(&entries[i].0, &entries[r[p]].0)
            invariant
                0 <= p <= r@.len(),
                i < entries@.len(),
                forall|k: int| 0 <= k < r@.len() ==> #[trigger] r@[k] < i,
                forall|k: int| 0 <= k < p ==> !name_lt(entries@[i as int].0@, #[trigger] entries@[r@[k] as int].0@),
            decreases r@.len() - p,
        {
            p = p + 1;
        }
        let ghost s = r@;
        r.insert(p, i);
        proof {
            assert(forall|k: int| 0 <= k < p ==> r@[k] == s[k]);
            assert(r@[p as int] == i);
            assert(forall|k: int| p < k < r@.len() ==> r@[k] == s[k - 1]);
            assert forall|a: int, b: int| 0 <= a < r@.len() && 0 <= b < r@.len() && a != b implies r@[a] != r@[b] by {
                if a != p as int && b != p as int {
                    let a0 = if a < p { a } else { a - 1 };
                    let b0 = if b < p { b } else { b - 1 };
                    assert(s[a0] != s[b0]);
                }
            }
            assert forall|k: int| 0 <= k < r@.len() - 1 implies !name_lt(
                entries@[r@[k + 1] as int].0@,
                #[trigger] entries@[r@[k] as int].0@,
            ) by {
                if k + 1 < p {
                } else if k + 1 == p {
                } else if k == p {
                    lemma_bytes_lt_asym(
                        encode_utf8(entries@[i as int].0@),
                        encode_utf8(entries@[s[k] as int].0@),
                    );
                } else {
                }
            }
        }
        i = i + 1;
    }
    r
}

} // verus!
