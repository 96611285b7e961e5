use vstd::prelude::*;
use crate::value::{Json, JsonValue, entries_view, items_view, lemma_entries_view, lemma_items_view};

verus! {

broadcast use vstd::std_specs::vec::group_vec_axioms;

/// Index of the first entry whose key is `k`, or -1 when there is none.
pub open spec fn key_pos(es: Seq<(Seq<char>, Json)>, k: Seq<char>) -> int
    decreases es.len(),
{
    if es.len() == 0 {
        -1
    } else {
        let p = key_pos(es.drop_last(), k);
        if p >= 0 {
            p
        } else if es.last().0 == k {
            es.len() - 1
        } else {
            -1
        }
    }
}

/// Deep merge of two trees: objects merge key by key, arrays concatenate,
/// and any other pairing is replaced by the right-hand value.
pub open spec fn merge(l: Json, r: Json) -> Json
    decreases r, 0nat,
{
    match r {
        Json::Object(re) => match l {
            Json::Object(le) => Json::Object(merge_entries(le, re)),
            _ => r,
        },
        Json::Array(ra) => match l {
            Json::Array(la) => Json::Array(la + ra),
            _ => r,
        },
        _ => r,
    }
}

/// Folds the right-hand entries, in order, into the left-hand entries.
pub open spec fn merge_entries(le: Seq<(Seq<char>, Json)>, re: Seq<(Seq<char>, Json)>) -> Seq<
    (Seq<char>, Json),
>
    decreases re, 1nat,
{
    if re.len() == 0 {
        le
    } else {
        merge_entry(merge_entries(le, re.drop_last()), re.last().0, re.last().1)
    }
}

/// One right-hand entry merged into an entry list: an existing key keeps its
/// position and gets the merged value, a new key is appended.
pub open spec fn merge_entry(es: Seq<(Seq<char>, Json)>, k: Seq<char>, v: Json) -> Seq<
    (Seq<char>, Json),
>
    decreases v, 2nat,
{
    let p = key_pos(es, k);
    if 0 <= p < es.len() {
        es.update(p, (k, merge(es[p].1, v)))
    } else {
        es.push((k, v))
    }
}

pub proof fn lemma_key_pos(es: Seq<(Seq<char>, Json)>, k: Seq<char>)
    ensures
        -1 <= key_pos(es, k) < es.len(),
        key_pos(es, k) >= 0 ==> es[key_pos(es, k)].0 == k,
        forall|t: int| 0 <= t < es.len() && (key_pos(es, k) < 0 || t < key_pos(es, k)) ==> es[t].0 != k,
    decreases es.len(),
{
    if es.len() > 0 {
        let init = es.drop_last();
        lemma_key_pos(init, k);
        assert forall|t: int|
            0 <= t < es.len() && (key_pos(es, k) < 0 || t < key_pos(es, k)) implies es[t].0 != k by {
            if t < init.len() {
                assert(init[t] == es[t]);
            }
        }
    }
}

/// Position of the first entry of `es` whose key is `k`.
pub fn find_key(es: &Vec<(String, JsonValue)>, k: &String) -> (r: Option<usize>)
    ensures
        r is None <==> key_pos(entries_view(es@), k@) == -1,
        r matches Some(j) ==> j == key_pos(entries_view(es@), k@),
{
    let mut j: usize = 0;
    while j < es.len()
        invariant
            j <= es.len(),
            forall|t: int| 0 <= t < j ==> #[trigger] es@[t].0@ != k@,
        decreases es.len() - j,
    {
        if es[j].0 == *k {
            proof {
                lemma_entries_view(es@);
                lemma_key_pos(entries_view(es@), k@);
                assert(entries_view(es@)[j as int].0 == k@);
            }
            return Some(j);
        }
        j = j + 1;
    }
    proof {
        lemma_entries_view(es@);
        lemma_key_pos(entries_view(es@), k@);
    }
    None
}

/// Appends a deep copy of each item of `src` to `out`.
fn push_copies(out: &mut Vec<JsonValue>, src: &Vec<JsonValue>)
    ensures
        items_view(final(out)@) == items_view(old(out)@) + items_view(src@),
{
    let ghost start = out@;
    let mut i: usize = 0;
    while i < src.len()
        invariant
            i <= src.len(),
            out.len() == start.len() + i,
            forall|t: int| 0 <= t < start.len() ==> #[trigger] out@[t] == start[t],
            forall|t: int| 0 <= t < i ==> #[trigger] out@[start.len() + t]@ == src@[t]@,
        decreases src.len() - i,
    {
        let c = src[i].deep_copy();
        out.push(c);
        i = i + 1;
    }
    proof {
        lemma_items_view(out@);
        lemma_items_view(start);
        lemma_items_view(src@);
        let lhs = items_view(out@);
        let rhs = items_view(start) + items_view(src@);
        assert forall|t: int| 0 <= t < lhs.len() implies lhs[t] == rhs[t] by {
            if t >= start.len() {
                assert(out@[start.len() + (t - start.len())]@ == src@[t - start.len()]@);
            }
        }
        assert(lhs =~= rhs);
    }
}

/// A deep copy of an entry list.
pub(crate) fn copy_entries(src: &Vec<(String, JsonValue)>) -> (out: Vec<(String, JsonValue)>)
    ensures
        entries_view(out@) == entries_view(src@),
{
    let mut out: Vec<(String, JsonValue)> = Vec::new();
    let mut i: usize = 0;
    while i < src.len()
        invariant
            i <= src.len(),
            out.len() == i,
            forall|t: int|
                0 <= t < i ==> #[trigger] out@[t].0@ == src@[t].0@ && out@[t].1@ == src@[t].1@,
        decreases src.len() - i,
    {
        let k = src[i].0.clone();
        let c = src[i].1.deep_copy();
        out.push((k, c));
        i = i + 1;
    }
    proof {
        lemma_entries_view(out@);
        lemma_entries_view(src@);
        assert(entries_view(out@) =~= entries_view(src@));
    }
    out
}

/// Deep merge of `right` into `left` (see [`merge`]).
pub fn merge_values(left: &JsonValue, right: &JsonValue) -> (m: JsonValue)
    ensures
        m@ == merge(left@, right@),
    decreases right,
{
    match right {
        JsonValue::Object(re) => match left {
            JsonValue::Object(le) => {
                let mut out = copy_entries(le);
                let ghost lv = entries_view(le@);
                let ghost rv = entries_view(re@);
                proof {
                    lemma_entries_view(re@);
                    assert(rv.take(0) =~= Seq::<(Seq<char>, Json)>::empty());
                }
                let mut i: usize = 0;
                while i < re.len()
                    invariant
                        i <= re.len(),
                        *right == JsonValue::Object(*re),
                        rv == entries_view(re@),
                        rv.len() == re.len(),
                        forall|t: int| 0 <= t < re.len() ==> #[trigger] rv[t] == (re@[t].0@, re@[t].1@),
                        entries_view(out@) == merge_entries(lv, rv.take(i as int)),
                    decreases re.len() - i,
                {
                    let key = &re[i].0;
                    let found = find_key(&out, key);
                    let ghost before = out@;
                    proof {
                        lemma_entries_view(before);
                        assert(rv.take(i + 1).drop_last() =~= rv.take(i as int));
                        assert(rv.take(i + 1).last() == rv[i as int]);
                        assert(merge_entries(lv, rv.take(i + 1)) == merge_entry(
                            entries_view(before),
                            key@,
                            re@[i as int].1@,
                        ));
                        assert(decreases_to!(*right => right->Object_0));
                        assert(decreases_to!(right->Object_0 => re@));
                        assert(decreases_to!(re@ => re@[i as int]));
                        assert(decreases_to!(re@[i as int] => re@[i as int].1));
                    }
                    if let Some(j) = found {
                        proof {
                            lemma_key_pos(entries_view(before), key@);
                        }
                        let merged = merge_values(&out[j].1, &re[i].1);
                        out[j] = (key.clone(), merged);
                        proof {
                            let ev = entries_view(before);
                            lemma_entries_view(out@);
                            assert(entries_view(out@) =~= ev.update(
                                j as int,
                                (key@, merge(ev[j as int].1, re@[i as int].1@)),
                            ));
                        }
                    } else {
                        let c = re[i].1.deep_copy();
                        out.push((key.clone(), c));
                        proof {
                            let ev = entries_view(before);
                            lemma_entries_view(out@);
                            assert(entries_view(out@) =~= ev.push((key@, re@[i as int].1@)));
                        }
                    }
                    i = i + 1;
                }
                proof {
                    assert(rv.take(re.len() as int) =~= rv);
                }
                JsonValue::Object(out)
            },
            _ => right.deep_copy(),
        },
        JsonValue::Array(ra) => match left {
            JsonValue::Array(la) => {
                let mut out: Vec<JsonValue> = Vec::new();
                push_copies(&mut out, la);
                push_copies(&mut out, ra);
                proof {
                    assert(items_view(Seq::<JsonValue>::empty()) =~= Seq::<Json>::empty());
                    assert(Seq::<Json>::empty() + items_view(la@) =~= items_view(la@));
                }
                JsonValue::Array(out)
            },
            _ => right.deep_copy(),
        },
        _ => right.deep_copy(),
    }
}

} // verus!
