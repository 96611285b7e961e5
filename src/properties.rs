use vstd::prelude::*;
use crate::value::{Json, JsonValue, entries_view, lemma_entries_view};

verus! {

broadcast use vstd::std_specs::vec::group_vec_axioms;

/// The dotted-path entries contributed by value `v` found at `path`:
/// an object contributes its children under `path.key`, anything else is a leaf.
pub open spec fn flat_value(path: Seq<char>, v: Json) -> Seq<(Seq<char>, Json)>
    decreases v, 0nat,
{
    match v {
        Json::Object(es) => flat_entries(path + seq!['.'], es),
        _ => seq![(path, v)],
    }
}

/// The dotted-path entries of a list of object entries whose paths start with `prefix`.
pub open spec fn flat_entries(prefix: Seq<char>, es: Seq<(Seq<char>, Json)>) -> Seq<
    (Seq<char>, Json),
>
    decreases es, 1nat,
{
    if es.len() == 0 {
        Seq::empty()
    } else {
        flat_entries(prefix, es.drop_last()) + flat_value(prefix + es.last().0, es.last().1)
    }
}

/// The index built from a property tree given as its top-level entries.
pub open spec fn flatten(props: Seq<(Seq<char>, Json)>) -> Seq<(Seq<char>, Json)> {
    flat_entries(Seq::empty(), props)
}

/// Looks `path` up in a flattened index; of several entries with the same
/// path the last one counts.
pub open spec fn lookup(idx: Seq<(Seq<char>, Json)>, path: Seq<char>) -> Option<Json>
    decreases idx.len(),
{
    if idx.len() == 0 {
        None
    } else if idx.last().0 == path {
        Some(idx.last().1)
    } else {
        lookup(idx.drop_last(), path)
    }
}

/// Every entry of a flattened tree holds a leaf: no object is addressable.
pub proof fn lemma_flat_value_leaves(path: Seq<char>, v: Json)
    ensures
        forall|i: int|
            0 <= i < flat_value(path, v).len() ==> !(#[trigger] flat_value(path, v)[i].1 is Object),
    decreases v, 0nat,
{
    match v {
        Json::Object(es) => lemma_flat_entries_leaves(path + seq!['.'], es),
        _ => {},
    }
}

/// Every entry of flattened object entries holds a leaf.
pub proof fn lemma_flat_entries_leaves(prefix: Seq<char>, es: Seq<(Seq<char>, Json)>)
    ensures
        forall|i: int|
            0 <= i < flat_entries(prefix, es).len() ==> !(#[trigger] flat_entries(
                prefix,
                es,
            )[i].1 is Object),
    decreases es, 1nat,
{
    if es.len() > 0 {
        lemma_flat_entries_leaves(prefix, es.drop_last());
        lemma_flat_value_leaves(prefix + es.last().0, es.last().1);
        let a = flat_entries(prefix, es.drop_last());
        let b = flat_value(prefix + es.last().0, es.last().1);
        assert forall|i: int| 0 <= i < (a + b).len() implies !((a + b)[i].1 is Object) by {
            if i >= a.len() {
                assert((a + b)[i] == b[i - a.len()]);
            } else {
                assert((a + b)[i] == a[i]);
            }
        }
    }
}

/// What a lookup finds is one of the index's entries.
pub proof fn lemma_lookup_in(idx: Seq<(Seq<char>, Json)>, path: Seq<char>)
    ensures
        lookup(idx, path) matches Some(v) ==> exists|i: int|
            0 <= i < idx.len() && #[trigger] idx[i] == (path, v),
    decreases idx.len(),
{
    if idx.len() > 0 && idx.last().0 != path {
        lemma_lookup_in(idx.drop_last(), path);
        if let Some(v) = lookup(idx, path) {
            let i = choose|i: int| 0 <= i < idx.drop_last().len() && #[trigger] idx.drop_last()[i] == (path, v);
            assert(idx[i] == (path, v));
        }
    }
}

/// Only leaves are addressable: a path that names an object of the property
/// tree, and names no leaf, is not found.
pub proof fn lemma_index_holds_only_leaves(props: Seq<(Seq<char>, Json)>, path: Seq<char>)
    ensures
        lookup(flatten(props), path) matches Some(v) ==> !(v is Object),
{
    let idx = flatten(props);
    lemma_flat_entries_leaves(Seq::empty(), props);
    lemma_lookup_in(idx, path);
    if let Some(v) = lookup(idx, path) {
        let i = choose|i: int| 0 <= i < idx.len() && #[trigger] idx[i] == (path, v);
        assert(!(idx[i].1 is Object));
    }
}

/// The property index: a property tree flattened to dotted paths that name leaves.
pub struct PropertiesResolver {
    properties: Vec<(String, JsonValue)>,
}

impl View for PropertiesResolver {
    type V = Seq<(Seq<char>, Json)>;

    closed spec fn view(&self) -> Seq<(Seq<char>, Json)> {
        entries_view(self.properties@)
    }
}

/// Appends the flattened entries of `value`, found at `path`, to `out`.
fn flatten_value(out: &mut Vec<(String, JsonValue)>, path: String, value: &JsonValue)
    ensures
        entries_view(final(out)@) == entries_view(old(out)@) + flat_value(path@, value@),
    decreases value,
{
    match value {
        JsonValue::Object(es) => {
            let ghost start = entries_view(out@);
            let ghost ev = entries_view(es@);
            let mut prefix = path;
            prefix.append(".");
            proof {
                reveal_strlit(".");
                lemma_entries_view(es@);
                assert(ev.take(0) =~= Seq::<(Seq<char>, Json)>::empty());
                assert(start + Seq::<(Seq<char>, Json)>::empty() =~= start);
            }
            let mut i: usize = 0;
            while i < es.len()
                invariant
                    i <= es.len(),
                    *value == JsonValue::Object(*es),
                    ev == entries_view(es@),
                    ev.len() == es.len(),
                    forall|t: int| 0 <= t < es.len() ==> #[trigger] ev[t] == (es@[t].0@, es@[t].1@),
                    prefix@ == path@ + seq!['.'],
                    entries_view(out@) == start + flat_entries(prefix@, ev.take(i as int)),
                decreases es.len() - i,
            {
                let mut child = prefix.clone();
                child.append(es[i].0.as_str());
                proof {
                    assert(ev.take(i + 1).drop_last() =~= ev.take(i as int));
                    assert(ev.take(i + 1).last() == ev[i as int]);
                    assert(decreases_to!(*value => value->Object_0));
                    assert(decreases_to!(value->Object_0 => es@));
                    assert(decreases_to!(es@ => es@[i as int]));
                    assert(decreases_to!(es@[i as int] => es@[i as int].1));
                }
                flatten_value(out, child, &es[i].1);
                proof {
                    assert(start + flat_entries(prefix@, ev.take(i + 1)) =~= start + flat_entries(
                        prefix@,
                        ev.take(i as int),
                    ) + flat_value(prefix@ + es@[i as int].0@, es@[i as int].1@));
                }
                i = i + 1;
            }
            proof {
                assert(ev.take(es.len() as int) =~= ev);
            }
        },
        _ => {
            let ghost start = out@;
            let v = value.deep_copy();
            out.push((path, v));
            proof {
                lemma_entries_view(out@);
                lemma_entries_view(start);
                assert(entries_view(out@) =~= entries_view(start) + flat_value(path@, value@));
            }
        },
    }
}

/// Flattens a property tree, given as its top-level entries, into dotted paths.
fn flatten_properties(properties: &Vec<(String, JsonValue)>) -> (out: Vec<(String, JsonValue)>)
    ensures
        entries_view(out@) == flatten(entries_view(properties@)),
{
    let mut out: Vec<(String, JsonValue)> = Vec::new();
    let ghost pv = entries_view(properties@);
    proof {
        lemma_entries_view(properties@);
        assert(pv.take(0) =~= Seq::<(Seq<char>, Json)>::empty());
        lemma_entries_view(out@);
        assert(entries_view(out@) =~= Seq::<(Seq<char>, Json)>::empty());
    }
    let mut i: usize = 0;
    while i < properties.len()
        invariant
            i <= properties.len(),
            pv == entries_view(properties@),
            pv.len() == properties.len(),
            forall|t: int|
                0 <= t < properties.len() ==> #[trigger] pv[t] == (
                    properties@[t].0@,
                    properties@[t].1@,
                ),
            entries_view(out@) == flat_entries(Seq::empty(), pv.take(i as int)),
        decreases properties.len() - i,
    {
        let path = properties[i].0.clone();
        flatten_value(&mut out, path, &properties[i].1);
        proof {
            assert(pv.take(i + 1).drop_last() =~= pv.take(i as int));
            assert(pv.take(i + 1).last() == pv[i as int]);
            assert(Seq::<char>::empty() + properties@[i as int].0@ =~= properties@[i as int].0@);
        }
        i = i + 1;
    }
    proof {
        assert(pv.take(properties.len() as int) =~= pv);
    }
    out
}

impl PropertiesResolver {
    /// Builds the index of a property tree given as its top-level entries.
    pub fn new(properties: Vec<(String, JsonValue)>) -> (r: PropertiesResolver)
        ensures
            r@ == flatten(entries_view(properties@)),
            forall|i: int| 0 <= i < r@.len() ==> !(#[trigger] r@[i].1 is Object),
    {
        let out = flatten_properties(&properties);
        proof {
            lemma_flat_entries_leaves(Seq::empty(), entries_view(properties@));
        }
        PropertiesResolver { properties: out }
    }

    /// All entries of the index, in the order in which they were flattened.
    pub fn all(&self) -> (r: &Vec<(String, JsonValue)>)
        ensures
            entries_view(r@) == self@,
    {
        &self.properties
    }

    /// The leaf value at dotted path `key`, if any.
    pub fn get(&self, key: &str) -> (r: Option<&JsonValue>)
        ensures
            r is None <==> lookup(self@, key@) is None,
            r matches Some(v) ==> lookup(self@, key@) == Some(v@),
    {
        let ghost idx = self@;
        let wanted = String::from_str(key);
        proof {
            lemma_entries_view(self.properties@);
            assert(idx.take(idx.len() as int) =~= idx);
        }
        let mut j: usize = self.properties.len();
        while j > 0
            invariant
                j <= self.properties.len(),
                idx == self@,
                idx.len() == self.properties.len(),
                forall|t: int|
                    0 <= t < idx.len() ==> #[trigger] idx[t] == (
                        self.properties@[t].0@,
                        self.properties@[t].1@,
                    ),
                wanted@ == key@,
                lookup(idx, key@) == lookup(idx.take(j as int), key@),
            decreases j,
        {
            let ghost pre = idx.take(j as int);
            proof {
                assert(pre.drop_last() =~= idx.take(j - 1));
                assert(pre.last() == idx[j - 1]);
            }
            if self.properties[j - 1].0 == wanted {
                return Some(&self.properties[j - 1].1);
            }
            j = j - 1;
        }
        proof {
            assert(idx.take(0) =~= Seq::<(Seq<char>, Json)>::empty());
        }
        None
    }
}

} // verus!
