use vstd::prelude::*;
use crate::error::{ConfigError, ResolverError};
use crate::properties::{PropertiesResolver, lookup};
use crate::value::{
    Json,
    JsonValue,
    entries_view,
    items_view,
    lemma_entries_view,
    lemma_items_view,
};

verus! {

broadcast use vstd::std_specs::vec::group_vec_axioms;

/// `s` holds the opening `${` of a marker at position `i`.
pub open spec fn is_open_at(s: Seq<char>, i: int) -> bool {
    0 <= i && i + 1 < s.len() && s[i] == '$' && s[i + 1] == '{'
}

/// The number of `${` occurrences that start before position `n`.
pub open spec fn count_open(s: Seq<char>, n: int) -> nat
    decreases n,
{
    if n <= 0 {
        0
    } else {
        count_open(s, n - 1) + if is_open_at(s, n - 1) {
            1nat
        } else {
            0nat
        }
    }
}

/// The number of `${` occurrences in `s`.
pub open spec fn open_count(s: Seq<char>) -> nat {
    count_open(s, s.len() as int)
}

/// The first position at or after `j` that holds `}`, or -1.
pub open spec fn close_from(s: Seq<char>, j: int) -> int
    decreases s.len() - j,
{
    if j < 0 || j >= s.len() {
        -1
    } else if s[j] == '}' {
        j
    } else {
        close_from(s, j + 1)
    }
}

/// A marker `${name}`, with a non-empty name free of `}`, starts at `i`.
pub open spec fn marker_at(s: Seq<char>, i: int) -> bool {
    is_open_at(s, i) && close_from(s, i + 2) > i + 2
}

/// The start of the leftmost marker at or after `from`, or -1.
pub open spec fn next_marker(s: Seq<char>, from: int) -> int
    decreases s.len() - from,
{
    if from < 0 || from >= s.len() {
        -1
    } else if marker_at(s, from) {
        from
    } else {
        next_marker(s, from + 1)
    }
}

/// The text that a property value stands for inside a larger string; objects
/// and arrays have none.
pub open spec fn scalar_text(v: Json) -> Option<Seq<char>> {
    match v {
        Json::Str(t) => Some(t),
        Json::Number(n) => Some(n),
        Json::Bool(b) => Some(
            if b {
                "true"@
            } else {
                "false"@
            },
        ),
        Json::Null => Some("null"@),
        _ => None,
    }
}

/// The error text for a marker whose property is an object or an array.
pub open spec fn complex_message(name: Seq<char>) -> Seq<char> {
    "Cannot interpolate complex type for variable '"@ + name + "'"@
}

/// `p` put in front of a successful text result.
pub open spec fn prepend(p: Seq<char>, r: Result<Seq<char>, Seq<char>>) -> Result<
    Seq<char>,
    Seq<char>,
> {
    match r {
        Ok(t) => Ok(p + t),
        Err(m) => Err(m),
    }
}

/// Every marker of `s` from position `from` on replaced by the text of its
/// property; the first marker that fails gives the error.
pub open spec fn interpolate(s: Seq<char>, idx: Seq<(Seq<char>, Json)>, from: int) -> Result<
    Seq<char>,
    Seq<char>,
>
    decreases s.len() - from,
    via interpolate_decreases
{
    let i = next_marker(s, from);
    if i < 0 {
        Ok(s.subrange(from, s.len() as int))
    } else {
        let e = close_from(s, i + 2);
        let name = s.subrange(i + 2, e);
        match lookup(idx, name) {
            None => Err(name),
            Some(v) => match scalar_text(v) {
                None => Err(complex_message(name)),
                Some(t) => prepend(s.subrange(from, i) + t, interpolate(s, idx, e + 1)),
            },
        }
    }
}

pub proof fn lemma_close_from(s: Seq<char>, j: int)
    requires
        0 <= j,
    ensures
        close_from(s, j) == -1 || (j <= close_from(s, j) < s.len() && s[close_from(s, j)] == '}'),
        close_from(s, j) == -1 ==> forall|t: int| j <= t < s.len() ==> s[t] != '}',
        forall|t: int| j <= t < close_from(s, j) ==> s[t] != '}',
    decreases s.len() - j,
{
    if 0 <= j < s.len() && s[j] != '}' {
        lemma_close_from(s, j + 1);
    }
}

pub proof fn lemma_next_marker(s: Seq<char>, from: int)
    requires
        0 <= from,
    ensures
        next_marker(s, from) == -1 || (from <= next_marker(s, from) < s.len() && marker_at(
            s,
            next_marker(s, from),
        )),
        forall|t: int|
            from <= t < s.len() && (next_marker(s, from) == -1 || t < next_marker(s, from))
                ==> !marker_at(s, t),
    decreases s.len() - from,
{
    if 0 <= from < s.len() && !marker_at(s, from) {
        lemma_next_marker(s, from + 1);
    }
}

#[via_fn]
proof fn interpolate_decreases(s: Seq<char>, idx: Seq<(Seq<char>, Json)>, from: int) {
    let i = next_marker(s, from);
    if from >= 0 {
        lemma_next_marker(s, from);
        if i >= 0 {
            lemma_close_from(s, i + 2);
        }
    }
}

/// Expansion of one string: no marker leaves it as it is; exactly one marker
/// spanning the whole string gives the property's value unchanged, of
/// whatever type; anything else interpolates text.
pub open spec fn resolve_str(s: Seq<char>, idx: Seq<(Seq<char>, Json)>) -> Result<Json, Seq<char>> {
    if open_count(s) == 0 {
        Ok(Json::Str(s))
    } else if is_open_at(s, 0) && s.last() == '}' && open_count(s) == 1 {
        let name = s.subrange(2, s.len() - 1);
        match lookup(idx, name) {
            Some(v) => Ok(v),
            None => Err(name),
        }
    } else {
        match interpolate(s, idx, 0) {
            Ok(t) => Ok(Json::Str(t)),
            Err(m) => Err(m),
        }
    }
}

/// Template expansion of a whole tree; the first failure, in document order, is the error.
pub open spec fn resolve(v: Json, idx: Seq<(Seq<char>, Json)>) -> Result<Json, Seq<char>>
    decreases v, 0nat,
{
    match v {
        Json::Str(s) => resolve_str(s, idx),
        Json::Array(items) => match resolve_items(items, idx) {
            Ok(r) => Ok(Json::Array(r)),
            Err(m) => Err(m),
        },
        Json::Object(es) => match resolve_entries(es, idx) {
            Ok(r) => Ok(Json::Object(r)),
            Err(m) => Err(m),
        },
        _ => Ok(v),
    }
}

pub open spec fn resolve_items(items: Seq<Json>, idx: Seq<(Seq<char>, Json)>) -> Result<
    Seq<Json>,
    Seq<char>,
>
    decreases items, 1nat,
{
    if items.len() == 0 {
        Ok(Seq::empty())
    } else {
        match resolve_items(items.drop_last(), idx) {
            Err(m) => Err(m),
            Ok(done) => match resolve(items.last(), idx) {
                Ok(x) => Ok(done.push(x)),
                Err(m) => Err(m),
            },
        }
    }
}

pub open spec fn resolve_entries(es: Seq<(Seq<char>, Json)>, idx: Seq<(Seq<char>, Json)>) -> Result<
    Seq<(Seq<char>, Json)>,
    Seq<char>,
>
    decreases es, 1nat,
{
    if es.len() == 0 {
        Ok(Seq::empty())
    } else {
        match resolve_entries(es.drop_last(), idx) {
            Err(m) => Err(m),
            Ok(done) => match resolve(es.last().1, idx) {
                Ok(x) => Ok(done.push((es.last().0, x))),
                Err(m) => Err(m),
            },
        }
    }
}


pub proof fn lemma_resolve_items_err(items: Seq<Json>, idx: Seq<(Seq<char>, Json)>, n: int)
    requires
        0 <= n <= items.len(),
        resolve_items(items.take(n), idx) is Err,
    ensures
        resolve_items(items, idx) == resolve_items(items.take(n), idx),
    decreases items.len(),
{
    if n == items.len() {
        assert(items.take(n) =~= items);
    } else {
        assert(items.drop_last().take(n) =~= items.take(n));
        lemma_resolve_items_err(items.drop_last(), idx, n);
    }
}

pub proof fn lemma_resolve_entries_err(
    es: Seq<(Seq<char>, Json)>,
    idx: Seq<(Seq<char>, Json)>,
    n: int,
)
    requires
        0 <= n <= es.len(),
        resolve_entries(es.take(n), idx) is Err,
    ensures
        resolve_entries(es, idx) == resolve_entries(es.take(n), idx),
    decreases es.len(),
{
    if n == es.len() {
        assert(es.take(n) =~= es);
    } else {
        assert(es.drop_last().take(n) =~= es.take(n));
        lemma_resolve_entries_err(es.drop_last(), idx, n);
    }
}

/// The characters of `s`, one by one.
fn chars_of(s: &str) -> (cs: Vec<char>)
    ensures
        cs@ == s@,
{
    let n = s.unicode_len();
    let mut cs: Vec<char> = Vec::new();
    let mut i: usize = 0;
    while i < n
        invariant
            i <= n,
            n == s@.len(),
            cs@ == s@.take(i as int),
        decreases n - i,
    {
        cs.push(s.get_char(i));
        proof {
            assert(cs@ =~= s@.take(i + 1));
        }
        i = i + 1;
    }
    proof {
        assert(s@.take(n as int) =~= s@);
    }
    cs
}

/// The number of `${` occurrences in `cs`.
fn count_opens(cs: &Vec<char>) -> (n: usize)
    ensures
        n == open_count(cs@),
{
    let mut n: usize = 0;
    let mut i: usize = 0;
    while i < cs.len()
        invariant
            i <= cs.len(),
            n <= i,
            n == count_open(cs@, i as int),
        decreases cs.len() - i,
    {
        if i + 1 < cs.len() && cs[i] == '$' && cs[i + 1] == '{' {
            n = n + 1;
        }
        i = i + 1;
    }
    n
}

/// The first position at or after `j` that holds `}`.
fn find_close(cs: &Vec<char>, j: usize) -> (r: Option<usize>)
    ensures
        r is None ==> close_from(cs@, j as int) == -1,
        r matches Some(e) ==> e == close_from(cs@, j as int),
{
    let mut k: usize = j;
    while k < cs.len()
        invariant
            j <= k,
            close_from(cs@, j as int) == close_from(cs@, k as int),
        decreases cs.len() - k,
    {
        if cs[k] == '}' {
            return Some(k);
        }
        k = k + 1;
    }
    None
}

/// The leftmost marker at or after `from`, as the positions of its `$` and its `}`.
fn find_marker(cs: &Vec<char>, from: usize) -> (r: Option<(usize, usize)>)
    ensures
        r is None <==> next_marker(cs@, from as int) == -1,
        r matches Some((i, e)) ==> i == next_marker(cs@, from as int) && e == close_from(
            cs@,
            i + 2,
        ),
{
    let mut i: usize = from;
    while i < cs.len()
        invariant
            from <= i,
            next_marker(cs@, from as int) == next_marker(cs@, i as int),
        decreases cs.len() - i,
    {
        if i + 1 < cs.len() && cs[i] == '$' && cs[i + 1] == '{' {
            if let Some(e) = find_close(cs, i + 2) {
                if e > i + 2 {
                    return Some((i, e));
                }
            }
        }
        i = i + 1;
    }
    None
}

/// Template expansion over a property index.
pub struct ValueResolver<'a> {
    properties: &'a PropertiesResolver,
}

impl<'a> ValueResolver<'a> {
    /// The flattened index that templates are looked up in.
    pub closed spec fn index(&self) -> Seq<(Seq<char>, Json)> {
        self.properties@
    }

    pub fn new(properties: &'a PropertiesResolver) -> (r: Self)
        ensures
            r.index() == properties@,
    {
        ValueResolver { properties }
    }

    /// Expands every marker of `s` by text interpolation.
    fn interpolate_string(&self, s: &str) -> (r: Result<String, ResolverError>)
        ensures
            match interpolate(s@, self.index(), 0) {
                Ok(t) => r matches Ok(x) && x@ == t,
                Err(m) => r matches Err(ResolverError::VariableNotFound(x)) && x@ == m,
            },
    {
        let cs = chars_of(s);
        let n = cs.len();
        let ghost sv = s@;
        let ghost idx = self.index();
        let mut result = String::new();
        let mut pos: usize = 0;
        proof {
            assert(Seq::<char>::empty() + Seq::<char>::empty() =~= Seq::<char>::empty());
            match interpolate(sv, idx, 0) {
                Ok(t) => assert(Seq::<char>::empty() + t =~= t),
                Err(_) => {},
            }
        }
        loop
            invariant
                n == cs.len(),
                cs@ == sv,
                sv == s@,
                idx == self.index(),
                pos <= n,
                interpolate(sv, idx, 0) == prepend(result@, interpolate(sv, idx, pos as int)),
            decreases n - pos,
        {
            match find_marker(&cs, pos) {
                None => {
                    let rest = s.substring_char(pos, n);
                    result.append(rest);
                    return Ok(result);
                },
                Some((i, e)) => {
                    proof {
                        lemma_next_marker(sv, pos as int);
                        lemma_close_from(sv, i + 2);
                    }
                    let name = s.substring_char(i + 2, e);
                    let before = s.substring_char(pos, i);
                    match self.properties.get(name) {
                        None => {
                            return Err(ResolverError::VariableNotFound(String::from_str(name)));
                        },
                        Some(v) => {
                            let ghost old_result = result@;
                            result.append(before);
                            match v {
                                JsonValue::String(t) => result.append(t.as_str()),
                                JsonValue::Number(t) => result.append(t.as_str()),
                                JsonValue::Bool(b) => {
                                    if *b {
                                        result.append("true");
                                    } else {
                                        result.append("false");
                                    }
                                },
                                JsonValue::Null => result.append("null"),
                                _ => {
                                    let mut m = String::from_str(
                                        "Cannot interpolate complex type for variable '",
                                    );
                                    m.append(name);
                                    m.append("'");
                                    return Err(ResolverError::VariableNotFound(m));
                                },
                            }
                            proof {
                                let t = scalar_text(v@)->Some_0;
                                assert(result@ =~= old_result + (before@ + t));
                                match interpolate(sv, idx, e + 1) {
                                    Ok(x) => assert(old_result + ((before@ + t) + x) =~= result@
                                        + x),
                                    Err(_) => {},
                                }
                            }
                            pos = e + 1;
                        },
                    }
                },
            }
        }
    }

    /// Expands the markers of one string (see [`resolve_str`]).
    fn resolve_string(&self, s: &str) -> (r: Result<JsonValue, ResolverError>)
        ensures
            match resolve_str(s@, self.index()) {
                Ok(v) => r matches Ok(x) && x@ == v,
                Err(m) => r matches Err(ResolverError::VariableNotFound(x)) && x@ == m,
            },
    {
        let cs = chars_of(s);
        let n = cs.len();
        let opens = count_opens(&cs);
        if opens == 0 {
            return Ok(JsonValue::String(String::from_str(s)));
        }
        if opens == 1 && n >= 3 && cs[0] == '$' && cs[1] == '{' && cs[n - 1] == '}' {
            let name = s.substring_char(2, n - 1);
            return match self.properties.get(name) {
                Some(v) => Ok(v.deep_copy()),
                None => Err(ResolverError::VariableNotFound(String::from_str(name))),
            };
        }
        match self.interpolate_string(s) {
            Ok(t) => Ok(JsonValue::String(t)),
            Err(e) => Err(e),
        }
    }

    /// Expands every template marker in `value` against the property index.
    pub fn resolve(&self, value: &JsonValue) -> (r: Result<JsonValue, ConfigError>)
        ensures
            match resolve(value@, self.index()) {
                Ok(v) => r matches Ok(x) && x@ == v,
                Err(m) => r matches Err(ConfigError::VariableNotFound(x)) && x@ == m,
            },
        decreases value,
    {
        let ghost idx = self.index();
        match value {
            JsonValue::String(s) => match self.resolve_string(s.as_str()) {
                Ok(v) => Ok(v),
                Err(e) => Err(ConfigError::from(e)),
            },
            JsonValue::Array(items) => {
                let ghost iv = items_view(items@);
                proof {
                    lemma_items_view(items@);
                    assert(iv.take(0) =~= Seq::<Json>::empty());
                    assert(items_view(Seq::<JsonValue>::empty()) =~= Seq::<Json>::empty());
                }
                let mut out: Vec<JsonValue> = Vec::new();
                let mut i: usize = 0;
                while i < items.len()
                    invariant
                        i <= items.len(),
                        *value == JsonValue::Array(*items),
                        idx == self.index(),
                        iv == items_view(items@),
                        iv.len() == items.len(),
                        forall|t: int| 0 <= t < items.len() ==> #[trigger] iv[t] == items@[t]@,
                        resolve_items(iv.take(i as int), idx) == Ok::<Seq<Json>, Seq<char>>(
                            items_view(out@),
                        ),
                    decreases items.len() - i,
                {
                    proof {
                        assert(iv.take(i + 1).drop_last() =~= iv.take(i as int));
                        assert(iv.take(i + 1).last() == iv[i as int]);
                        assert(decreases_to!(*value => value->Array_0));
                        assert(decreases_to!(value->Array_0 => items@));
                        assert(decreases_to!(items@ => items@[i as int]));
                    }
                    match self.resolve(&items[i]) {
                        Ok(x) => {
                            let ghost before = out@;
                            out.push(x);
                            proof {
                                assert(out@.drop_last() =~= before);
                            }
                        },
                        Err(e) => {
                            proof {
                                lemma_resolve_items_err(iv, idx, i + 1);
                            }
                            return Err(e);
                        },
                    }
                    i = i + 1;
                }
                proof {
                    assert(iv.take(items.len() as int) =~= iv);
                }
                Ok(JsonValue::Array(out))
            },
            JsonValue::Object(es) => {
                let ghost ev = entries_view(es@);
                proof {
                    lemma_entries_view(es@);
                    assert(ev.take(0) =~= Seq::<(Seq<char>, Json)>::empty());
                    assert(entries_view(Seq::<(String, JsonValue)>::empty()) =~= Seq::<
                        (Seq<char>, Json),
                    >::empty());
                }
                let mut out: Vec<(String, JsonValue)> = Vec::new();
                let mut i: usize = 0;
                while i < es.len()
                    invariant
                        i <= es.len(),
                        *value == JsonValue::Object(*es),
                        idx == self.index(),
                        ev == entries_view(es@),
                        ev.len() == es.len(),
                        forall|t: int| 0 <= t < es.len() ==> #[trigger] ev[t] == (es@[t].0@, es@[t].1@),
                        resolve_entries(ev.take(i as int), idx) == Ok::<
                            Seq<(Seq<char>, Json)>,
                            Seq<char>,
                        >(entries_view(out@)),
                    decreases es.len() - i,
                {
                    proof {
                        assert(ev.take(i + 1).drop_last() =~= ev.take(i as int));
                        assert(ev.take(i + 1).last() == ev[i as int]);
                        assert(decreases_to!(*value => value->Object_0));
                        assert(decreases_to!(value->Object_0 => es@));
                        assert(decreases_to!(es@ => es@[i as int]));
                        assert(decreases_to!(es@[i as int] => es@[i as int].1));
                    }
                    match self.resolve(&es[i].1) {
                        Ok(x) => {
                            let ghost before = out@;
                            out.push((es[i].0.clone(), x));
                            proof {
                                assert(out@.drop_last() =~= before);
                            }
                        },
                        Err(e) => {
                            proof {
                                lemma_resolve_entries_err(ev, idx, i + 1);
                            }
                            return Err(e);
                        },
                    }
                    i = i + 1;
                }
                proof {
                    assert(ev.take(es.len() as int) =~= ev);
                }
                Ok(JsonValue::Object(out))
            },
            JsonValue::Null => Ok(JsonValue::Null),
            JsonValue::Bool(b) => Ok(JsonValue::Bool(*b)),
            JsonValue::Number(n) => Ok(JsonValue::Number(n.clone())),
        }
    }
}

} // verus!
