use vstd::prelude::*;
use crate::error::ConfigError;
use crate::merge::{merge, merge_values};
use crate::value::{Json, JsonValue};

verus! {

broadcast use vstd::std_specs::vec::group_vec_axioms;

/// The name of the profile that every other profile implicitly inherits from.
pub const DEFAULT_PROFILE: &'static str = "default";

/// The mathematical model of a profile definition.
pub struct Profile {
    pub jira_url: Option<Seq<char>>,
    pub project_key: Option<Seq<char>>,
    pub fields: Option<Json>,
    pub inherits: Seq<Seq<char>>,
}

/// The mathematical model of a resolution failure.
pub enum Failure {
    InvalidUrl(Seq<char>),
    MissingField(Seq<char>),
    ProfileNotFound(Seq<char>),
    VariableNotFound(Seq<char>),
    InvalidConfig(Seq<char>),
    CircularDependency(Seq<char>),
}

impl View for ConfigError {
    type V = Failure;

    open spec fn view(&self) -> Failure {
        match self {
            ConfigError::InvalidUrl(s) => Failure::InvalidUrl(s@),
            ConfigError::MissingField(s) => Failure::MissingField(s@),
            ConfigError::ProfileNotFound(s) => Failure::ProfileNotFound(s@),
            ConfigError::VariableNotFound(s) => Failure::VariableNotFound(s@),
            ConfigError::InvalidConfig(s) => Failure::InvalidConfig(s@),
            ConfigError::CircularDependency(s) => Failure::CircularDependency(s@),
        }
    }
}

pub open spec fn opt_text(o: Option<String>) -> Option<Seq<char>> {
    match o {
        Some(s) => Some(s@),
        None => None,
    }
}

pub open spec fn opt_json(o: Option<JsonValue>) -> Option<Json> {
    match o {
        Some(v) => Some(v@),
        None => None,
    }
}

pub open spec fn names_view(v: Seq<String>) -> Seq<Seq<char>> {
    v.map_values(|s: String| s@)
}

/// A named, partial settings fragment that may inherit from other profiles.
#[derive(Debug, Clone, PartialEq, Eq)]
pub struct ProfileDef {
    pub jira_url: Option<String>,
    pub project_key: Option<String>,
    pub fields: Option<JsonValue>,
    pub inherits: Vec<String>,
}

impl View for ProfileDef {
    type V = Profile;

    open spec fn view(&self) -> Profile {
        Profile {
            jira_url: opt_text(self.jira_url),
            project_key: opt_text(self.project_key),
            fields: opt_json(self.fields),
            inherits: names_view(self.inherits@),
        }
    }
}

/// The model of a profile table.
pub open spec fn profiles_view(ps: Seq<(String, ProfileDef)>) -> Seq<(Seq<char>, Profile)> {
    ps.map_values(|e: (String, ProfileDef)| (e.0@, e.1@))
}

/// The definition of the profile called `name`; the first entry of that name counts.
pub open spec fn find_profile(ps: Seq<(Seq<char>, Profile)>, name: Seq<char>) -> Option<Profile>
    decreases ps.len(),
{
    if ps.len() == 0 {
        None
    } else if ps[0].0 == name {
        Some(ps[0].1)
    } else {
        find_profile(ps.drop_first(), name)
    }
}

/// The profile `default` exists and declares parents, which it may not.
pub open spec fn default_is_invalid(ps: Seq<(Seq<char>, Profile)>) -> bool {
    find_profile(ps, DEFAULT_PROFILE@) matches Some(d) && d.inherits.len() > 0
}

/// The message of the failure for a `default` profile that declares parents.
pub open spec fn invalid_default_message() -> Seq<char> {
    "The 'default' profile cannot have an 'inherits' field"@
}

/// Names joined by ` -> `.
pub open spec fn join_arrows(names: Seq<Seq<char>>) -> Seq<char>
    decreases names.len(),
{
    if names.len() == 0 {
        Seq::empty()
    } else if names.len() == 1 {
        names[0]
    } else {
        join_arrows(names.drop_last()) + " -> "@ + names.last()
    }
}

/// The number of table entries whose name is not on `stack`; it bounds how
/// deep a traversal can still go.
pub open spec fn free_count(ps: Seq<(Seq<char>, Profile)>, stack: Seq<Seq<char>>) -> nat
    decreases ps.len(),
{
    if ps.len() == 0 {
        0
    } else {
        free_count(ps.drop_last(), stack) + if stack.contains(ps.last().0) {
            0nat
        } else {
            1nat
        }
    }
}

pub proof fn lemma_find_profile(ps: Seq<(Seq<char>, Profile)>, name: Seq<char>)
    ensures
        find_profile(ps, name) matches Some(p) ==> exists|k: int|
            0 <= k < ps.len() && #[trigger] ps[k] == (name, p),
        find_profile(ps, name) is None ==> forall|k: int| 0 <= k < ps.len() ==> #[trigger] ps[k].0 != name,
    decreases ps.len(),
{
    if ps.len() > 0 {
        let rest = ps.drop_first();
        lemma_find_profile(rest, name);
        if ps[0].0 != name {
            if let Some(p) = find_profile(rest, name) {
                let k = choose|k: int| 0 <= k < rest.len() && #[trigger] rest[k] == (name, p);
                assert(ps[k + 1] == (name, p));
            } else {
                assert forall|k: int| 0 <= k < ps.len() implies #[trigger] ps[k].0 != name by {
                    if k > 0 {
                        assert(ps[k] == rest[k - 1]);
                    }
                }
            }
        }
    }
}

pub proof fn lemma_free_count_push(ps: Seq<(Seq<char>, Profile)>, stack: Seq<Seq<char>>, name: Seq<char>)
    ensures
        free_count(ps, stack.push(name)) <= free_count(ps, stack),
        !stack.contains(name) && (exists|k: int| 0 <= k < ps.len() && #[trigger] ps[k].0 == name)
            ==> free_count(ps, stack.push(name)) < free_count(ps, stack),
    decreases ps.len(),
{
    if ps.len() > 0 {
        let init = ps.drop_last();
        lemma_free_count_push(init, stack, name);
        assert(stack.push(name)[stack.len() as int] == name);
        assert(forall|x: Seq<char>| stack.contains(x) ==> stack.push(name).contains(x)) by {
            assert forall|x: Seq<char>| stack.contains(x) implies stack.push(name).contains(x) by {
                let i = choose|i: int| 0 <= i < stack.len() && stack[i] == x;
                assert(stack.push(name)[i] == x);
            }
        }
        if !stack.contains(name) && (exists|k: int| 0 <= k < ps.len() && #[trigger] ps[k].0 == name) {
            if ps.last().0 != name {
                let k = choose|k: int| 0 <= k < ps.len() && #[trigger] ps[k].0 == name;
                assert(init[k].0 == name);
            }
        }
    }
}

/// The parents of profile `x`, lowest priority first: `default` (when it
/// exists and `x` is not `default` itself), then the profiles `x` lists.
pub open spec fn parents(ps: Seq<(Seq<char>, Profile)>, x: Seq<char>) -> Seq<Seq<char>> {
    let own = match find_profile(ps, x) {
        Some(p) => p.inherits,
        None => Seq::empty(),
    };
    if find_profile(ps, DEFAULT_PROFILE@) is Some && x != DEFAULT_PROFILE@ {
        seq![DEFAULT_PROFILE@] + own
    } else {
        own
    }
}

/// Depth-first collection of the ancestors of `name`, lowest priority first:
/// `default` (when it exists), then the listed parents in order, then the
/// profile itself. `stack` holds the profiles being visited, `order` those
/// already placed.
pub open spec fn visit(
    ps: Seq<(Seq<char>, Profile)>,
    name: Seq<char>,
    stack: Seq<Seq<char>>,
    order: Seq<Seq<char>>,
) -> Result<Seq<Seq<char>>, Failure>
    decreases free_count(ps, stack), 0nat, 0nat,
    via visit_decreases
{
    if stack.contains(name) {
        Err(Failure::CircularDependency(join_arrows(stack.push(name))))
    } else if order.contains(name) {
        Ok(order)
    } else {
        match find_profile(ps, name) {
            None => Err(Failure::ProfileNotFound(name)),
            Some(p) => {
                let inner = stack.push(name);
                let first = if find_profile(ps, DEFAULT_PROFILE@) is Some && name != DEFAULT_PROFILE@
                    && !order.contains(DEFAULT_PROFILE@) {
                    visit(ps, DEFAULT_PROFILE@, inner, order)
                } else {
                    Ok(order)
                };
                match first {
                    Err(f) => Err(f),
                    Ok(o) => match visit_list(ps, p.inherits, inner, o) {
                        Err(f) => Err(f),
                        Ok(o2) => Ok(o2.push(name)),
                    },
                }
            },
        }
    }
}

/// [`visit`] applied to each of `names` in turn.
pub open spec fn visit_list(
    ps: Seq<(Seq<char>, Profile)>,
    names: Seq<Seq<char>>,
    stack: Seq<Seq<char>>,
    order: Seq<Seq<char>>,
) -> Result<Seq<Seq<char>>, Failure>
    decreases free_count(ps, stack), 1nat, names.len(),
{
    if names.len() == 0 {
        Ok(order)
    } else {
        match visit(ps, names[0], stack, order) {
            Err(f) => Err(f),
            Ok(o) => visit_list(ps, names.drop_first(), stack, o),
        }
    }
}

#[via_fn]
proof fn visit_decreases(
    ps: Seq<(Seq<char>, Profile)>,
    name: Seq<char>,
    stack: Seq<Seq<char>>,
    order: Seq<Seq<char>>,
) {
    lemma_visit_step(ps, name, stack);
}

/// Entering a defined profile that is not on the stack shrinks the traversal's bound.
pub proof fn lemma_visit_step(ps: Seq<(Seq<char>, Profile)>, name: Seq<char>, stack: Seq<Seq<char>>)
    ensures
        !stack.contains(name) && find_profile(ps, name) is Some ==> free_count(ps, stack.push(name))
            < free_count(ps, stack),
{
    lemma_find_profile(ps, name);
    lemma_free_count_push(ps, stack, name);
    if let Some(p) = find_profile(ps, name) {
        let k = choose|k: int| 0 <= k < ps.len() && #[trigger] ps[k] == (name, p);
        assert(ps[k].0 == name);
    }
}


/// Merge of two profile definitions, `r` over `l`: a setting that `r` has
/// wins, fields merge deeply, and the result inherits from nothing.
pub open spec fn merge_two(l: Profile, r: Profile) -> Profile {
    Profile {
        jira_url: if r.jira_url is Some {
            r.jira_url
        } else {
            l.jira_url
        },
        project_key: if r.project_key is Some {
            r.project_key
        } else {
            l.project_key
        },
        fields: match (l.fields, r.fields) {
            (Some(a), Some(b)) => Some(merge(a, b)),
            (Some(a), None) => Some(a),
            (None, b) => b,
        },
        inherits: Seq::empty(),
    }
}

/// Left-to-right fold of a non-empty list of profiles, later ones winning.
pub open spec fn fold_profiles(s: Seq<Profile>) -> Profile
    decreases s.len(),
{
    if s.len() <= 1 {
        s[0]
    } else {
        merge_two(fold_profiles(s.drop_last()), s.last())
    }
}

pub open spec fn merge_all(s: Seq<Profile>) -> Option<Profile> {
    if s.len() == 0 {
        None
    } else {
        Some(fold_profiles(s))
    }
}

/// The definitions of the profiles named in `order`.
pub open spec fn chain_profiles(ps: Seq<(Seq<char>, Profile)>, order: Seq<Seq<char>>) -> Seq<
    Profile,
> {
    order.map_values(|n: Seq<char>| find_profile(ps, n)->Some_0)
}

/// One requested profile with all its ancestors merged in.
pub open spec fn resolve_one(ps: Seq<(Seq<char>, Profile)>, name: Seq<char>) -> Result<
    Profile,
    Failure,
> {
    if default_is_invalid(ps) {
        Err(Failure::InvalidConfig(invalid_default_message()))
    } else {
        match visit(ps, name, Seq::empty(), Seq::empty()) {
            Err(f) => Err(f),
            Ok(order) => Ok(fold_profiles(chain_profiles(ps, order))),
        }
    }
}

/// Each requested profile resolved on its own, in order; the first failure wins.
pub open spec fn resolve_each(ps: Seq<(Seq<char>, Profile)>, names: Seq<Seq<char>>) -> Result<
    Seq<Profile>,
    Failure,
>
    decreases names.len(),
{
    if names.len() == 0 {
        Ok(Seq::empty())
    } else {
        match resolve_each(ps, names.drop_last()) {
            Err(f) => Err(f),
            Ok(done) => match resolve_one(ps, names.last()) {
                Err(f) => Err(f),
                Ok(p) => Ok(done.push(p)),
            },
        }
    }
}

/// The effective profile for a list of requested names: the requested
/// profiles layered left to right, or `default` when none is requested.
pub open spec fn resolve_many(ps: Seq<(Seq<char>, Profile)>, names: Seq<Seq<char>>) -> Result<
    Option<Profile>,
    Failure,
> {
    if ps.len() == 0 && names.len() == 0 {
        Ok(None)
    } else if ps.len() == 0 {
        Err(Failure::ProfileNotFound(names[0]))
    } else if names.len() == 0 {
        if find_profile(ps, DEFAULT_PROFILE@) is Some {
            match resolve_one(ps, DEFAULT_PROFILE@) {
                Ok(p) => Ok(Some(p)),
                Err(f) => Err(f),
            }
        } else {
            Ok(None)
        }
    } else {
        match resolve_each(ps, names) {
            Ok(list) => Ok(merge_all(list)),
            Err(f) => Err(f),
        }
    }
}

pub open spec fn opt_profile(o: Option<ProfileDef>) -> Option<Profile> {
    match o {
        Some(p) => Some(p@),
        None => None,
    }
}

/// Every profile placed in `order` has a definition.
pub open spec fn all_found(ps: Seq<(Seq<char>, Profile)>, order: Seq<Seq<char>>) -> bool {
    forall|i: int| 0 <= i < order.len() ==> (#[trigger] find_profile(ps, order[i])) is Some
}

pub proof fn lemma_visit_found(
    ps: Seq<(Seq<char>, Profile)>,
    name: Seq<char>,
    stack: Seq<Seq<char>>,
    order: Seq<Seq<char>>,
)
    requires
        all_found(ps, order),
    ensures
        visit(ps, name, stack, order) matches Ok(o) ==> all_found(ps, o) && o.contains(name),
    decreases free_count(ps, stack), 0nat, 0nat,
{
    if !stack.contains(name) && !order.contains(name) {
        if let Some(p) = find_profile(ps, name) {
            lemma_visit_step(ps, name, stack);
            let inner = stack.push(name);
            if find_profile(ps, DEFAULT_PROFILE@) is Some && name != DEFAULT_PROFILE@
                && !order.contains(DEFAULT_PROFILE@) {
                lemma_visit_found(ps, DEFAULT_PROFILE@, inner, order);
                if let Ok(o) = visit(ps, DEFAULT_PROFILE@, inner, order) {
                    lemma_visit_list_found(ps, p.inherits, inner, o);
                }
            } else {
                lemma_visit_list_found(ps, p.inherits, inner, order);
            }
            if let Ok(o) = visit(ps, name, stack, order) {
                assert(o.last() == name);
                assert(o[o.len() - 1] == name);
            }
        }
    } else if order.contains(name) {
    }
}

pub proof fn lemma_visit_list_found(
    ps: Seq<(Seq<char>, Profile)>,
    names: Seq<Seq<char>>,
    stack: Seq<Seq<char>>,
    order: Seq<Seq<char>>,
)
    requires
        all_found(ps, order),
    ensures
        visit_list(ps, names, stack, order) matches Ok(o) ==> all_found(ps, o),
    decreases free_count(ps, stack), 1nat, names.len(),
{
    if names.len() > 0 {
        lemma_visit_found(ps, names[0], stack, order);
        if let Ok(o) = visit(ps, names[0], stack, order) {
            lemma_visit_list_found(ps, names.drop_first(), stack, o);
        }
    }
}

/// Whether `n` is among the names of `v`.
pub(crate) fn contains_name(v: &Vec<String>, n: &String) -> (r: bool)
    ensures
        r == names_view(v@).contains(n@),
{
    let mut i: usize = 0;
    while i < v.len()
        invariant
            i <= v.len(),
            forall|t: int| 0 <= t < i ==> #[trigger] v@[t]@ != n@,
        decreases v.len() - i,
    {
        if v[i] == *n {
            proof {
                assert(names_view(v@)[i as int] == n@);
            }
            return true;
        }
        i = i + 1;
    }
    proof {
        assert forall|t: int| 0 <= t < names_view(v@).len() implies #[trigger] names_view(v@)[t]
            != n@ by {
            assert(names_view(v@)[t] == v@[t]@);
        }
    }
    false
}

/// The definition of the profile called `name`.
pub(crate) fn lookup_profile<'a>(profiles: &'a Vec<(String, ProfileDef)>, name: &String) -> (r: Option<
    &'a ProfileDef,
>)
    ensures
        r matches Some(p) ==> find_profile(profiles_view(profiles@), name@) == Some(p@),
        r is None ==> find_profile(profiles_view(profiles@), name@) is None,
{
    let ghost ps = profiles_view(profiles@);
    proof {
        assert(ps.subrange(0, ps.len() as int) =~= ps);
    }
    let mut i: usize = 0;
    while i < profiles.len()
        invariant
            i <= profiles.len(),
            ps == profiles_view(profiles@),
            ps.len() == profiles.len(),
            find_profile(ps, name@) == find_profile(ps.subrange(i as int, ps.len() as int), name@),
        decreases profiles.len() - i,
    {
        let ghost rest = ps.subrange(i as int, ps.len() as int);
        proof {
            assert(rest[0] == ps[i as int]);
            assert(rest.drop_first() =~= ps.subrange(i + 1, ps.len() as int));
        }
        if profiles[i].0 == *name {
            return Some(&profiles[i].1);
        }
        i = i + 1;
    }
    None
}

/// A copy of a list of names.
pub(crate) fn copy_names(v: &Vec<String>) -> (r: Vec<String>)
    ensures
        r@ == v@,
{
    let mut r: Vec<String> = Vec::new();
    let mut i: usize = 0;
    while i < v.len()
        invariant
            i <= v.len(),
            r@ == v@.take(i as int),
        decreases v.len() - i,
    {
        r.push(v[i].clone());
        proof {
            assert(r@ =~= v@.take(i + 1));
        }
        i = i + 1;
    }
    proof {
        assert(v@.take(v.len() as int) =~= v@);
    }
    r
}

/// Names joined by ` -> `.
pub(crate) fn join_names(names: &Vec<String>) -> (r: String)
    ensures
        r@ == join_arrows(names_view(names@)),
{
    let ghost nv = names_view(names@);
    if names.len() == 0 {
        return String::new();
    }
    let mut r = names[0].clone();
    proof {
        assert(nv.take(1).drop_last() =~= Seq::<Seq<char>>::empty());
        assert(join_arrows(nv.take(1)) == nv[0]);
    }
    let mut i: usize = 1;
    while i < names.len()
        invariant
            1 <= i <= names.len(),
            nv == names_view(names@),
            nv.len() == names.len(),
            r@ == join_arrows(nv.take(i as int)),
        decreases names.len() - i,
    {
        r.append(" -> ");
        r.append(names[i].as_str());
        proof {
            assert(nv.take(i + 1).drop_last() =~= nv.take(i as int));
            assert(nv.take(i + 1).last() == names@[i as int]@);
        }
        i = i + 1;
    }
    proof {
        assert(nv.take(names.len() as int) =~= nv);
    }
    r
}

pub(crate) fn copy_text(o: &Option<String>) -> (r: Option<String>)
    ensures
        opt_text(r) == opt_text(*o),
{
    match o {
        Some(s) => Some(s.clone()),
        None => None,
    }
}

impl ProfileDef {
    /// A deep copy of the definition.
    pub fn copy(&self) -> (r: ProfileDef)
        ensures
            r@ == self@,
    {
        ProfileDef {
            jira_url: copy_text(&self.jira_url),
            project_key: copy_text(&self.project_key),
            fields: match &self.fields {
                Some(f) => Some(f.deep_copy()),
                None => None,
            },
            inherits: copy_names(&self.inherits),
        }
    }
}

/// Merging of profile definitions.
pub struct ProfilesResolver;

impl ProfilesResolver {
    /// Merges profiles from left to right, later ones winning; `None` for no profiles.
    pub fn merge_profiles(profiles: Vec<ProfileDef>) -> (r: Option<ProfileDef>)
        ensures
            opt_profile(r) == merge_all(profiles@.map_values(|p: ProfileDef| p@)),
    {
        let ghost pv = profiles@.map_values(|p: ProfileDef| p@);
        if profiles.len() == 0 {
            return None;
        }
        let mut merged = profiles[0].copy();
        proof {
            assert(pv.take(1).len() == 1);
            assert(fold_profiles(pv.take(1)) == pv[0]);
        }
        let mut i: usize = 1;
        while i < profiles.len()
            invariant
                1 <= i <= profiles.len(),
                pv == profiles@.map_values(|p: ProfileDef| p@),
                merged@ == fold_profiles(pv.take(i as int)),
            decreases profiles.len() - i,
        {
            merged = Self::merge_two_profiles(merged, profiles[i].copy());
            proof {
                assert(pv.take(i + 1).drop_last() =~= pv.take(i as int));
                assert(pv.take(i + 1).last() == pv[i as int]);
            }
            i = i + 1;
        }
        proof {
            assert(pv.take(profiles.len() as int) =~= pv);
        }
        Some(merged)
    }

    /// Merges two profiles, `right` over `left`.
    fn merge_two_profiles(left: ProfileDef, right: ProfileDef) -> (r: ProfileDef)
        ensures
            r@ == merge_two(left@, right@),
    {
        let jira_url = match right.jira_url {
            Some(u) => Some(u),
            None => left.jira_url,
        };
        let project_key = match right.project_key {
            Some(k) => Some(k),
            None => left.project_key,
        };
        let fields = match (left.fields, right.fields) {
            (Some(l), Some(r)) => Some(Self::deep_merge_json(l, r)),
            (Some(l), None) => Some(l),
            (None, r) => r,
        };
        let r = ProfileDef { jira_url, project_key, fields, inherits: Vec::new() };
        proof {
            assert(names_view(r.inherits@) =~= Seq::<Seq<char>>::empty());
        }
        r
    }

    /// Deep merge of two trees (see [`merge`]).
    pub fn deep_merge_json(left: JsonValue, right: JsonValue) -> (r: JsonValue)
        ensures
            r@ == merge(left@, right@),
    {
        merge_values(&left, &right)
    }
}

/// One profile with its whole ancestry merged in (see [`resolve_one`]).
fn resolve_profile_with_inheritance(profiles: &Vec<(String, ProfileDef)>, name: &String) -> (r:
    Result<ProfileDef, ConfigError>)
    ensures
        match resolve_one(profiles_view(profiles@), name@) {
            Ok(p) => r matches Ok(x) && x@ == p,
            Err(f) => r matches Err(e) && e@ == f,
        },
{
    let ghost ps = profiles_view(profiles@);
    let default_name = String::from_str(DEFAULT_PROFILE);
    if let Some(d) = lookup_profile(profiles, &default_name) {
        if d.inherits.len() > 0 {
            return Err(
                ConfigError::InvalidConfig(
                    String::from_str("The 'default' profile cannot have an 'inherits' field"),
                ),
            );
        }
    }
    let order = match crate::chain::collect_profile_chain(profiles, name) {
        Ok(o) => o,
        Err(e) => {
            return Err(e);
        },
    };
    let ghost ov = names_view(order@);
    let ghost chain = chain_profiles(ps, ov);
    proof {
        lemma_visit_found(ps, name@, Seq::empty(), Seq::empty());
    }
    let mut to_merge: Vec<ProfileDef> = Vec::new();
    let mut i: usize = 0;
    while i < order.len()
        invariant
            i <= order.len(),
            ps == profiles_view(profiles@),
            ov == names_view(order@),
            chain == chain_profiles(ps, ov),
            all_found(ps, ov),
            ov.len() == order.len(),
            chain.len() == order.len(),
            to_merge.len() == i,
            to_merge@.map_values(|p: ProfileDef| p@) == chain.take(i as int),
        decreases order.len() - i,
    {
        let ghost before = to_merge@;
        proof {
            assert(ov[i as int] == order@[i as int]@);
            assert(chain[i as int] == find_profile(ps, ov[i as int])->Some_0);
        }
        let found = lookup_profile(profiles, &order[i]);
        match found {
            Some(p) => {
                to_merge.push(p.copy());
            },
            None => {
                proof {
                    assert(find_profile(ps, ov[i as int]) is Some);
                }
            },
        }
        proof {
            assert(to_merge@ == before.push(to_merge@.last()));
            assert(before.map_values(|p: ProfileDef| p@) =~= chain.take(i as int));
            let now = to_merge@.map_values(|p: ProfileDef| p@);
            let was = before.map_values(|p: ProfileDef| p@);
            assert(now.len() == i + 1);
            assert forall|k: int| 0 <= k < i + 1 implies now[k] == chain.take(i + 1)[k] by {
                if k < i {
                    assert(now[k] == to_merge@[k]@);
                    assert(to_merge@[k] == before[k]);
                    assert(was[k] == before[k]@);
                    assert(was[k] == chain.take(i as int)[k]);
                } else {
                    assert(now[k] == to_merge@[k]@);
                }
            }
            assert(now =~= chain.take(i + 1));
        }
        i = i + 1;
    }
    proof {
        assert(chain.take(order.len() as int) =~= chain);
    }
    match ProfilesResolver::merge_profiles(to_merge) {
        Some(p) => Ok(p),
        None => {
            // the chain ends with the requested profile, so it is never empty
            Err(ConfigError::ProfileNotFound(name.clone()))
        },
    }
}


/// Resolves each requested profile and layers them left to right.
pub fn resolve_profile_names_with_inheritance(
    profiles: &Vec<(String, ProfileDef)>,
    profile_names: &[String],
) -> (r: Result<Option<ProfileDef>, ConfigError>)
    ensures
        match resolve_each(profiles_view(profiles@), names_view(profile_names@)) {
            Ok(list) => r matches Ok(x) && opt_profile(x) == merge_all(list),
            Err(f) => r matches Err(e) && e@ == f,
        },
{
    let ghost ps = profiles_view(profiles@);
    let ghost nv = names_view(profile_names@);
    let mut resolved: Vec<ProfileDef> = Vec::new();
    proof {
        assert(nv.take(0) =~= Seq::<Seq<char>>::empty());
        assert(resolved@.map_values(|p: ProfileDef| p@) =~= Seq::<Profile>::empty());
    }
    let mut i: usize = 0;
    while i < profile_names.len()
        invariant
            i <= profile_names.len(),
            ps == profiles_view(profiles@),
            nv == names_view(profile_names@),
            nv.len() == profile_names.len(),
            resolve_each(ps, nv.take(i as int)) == Ok::<Seq<Profile>, Failure>(
                resolved@.map_values(|p: ProfileDef| p@),
            ),
        decreases profile_names.len() - i,
    {
        let ghost before = resolved@;
        proof {
            assert(nv.take(i + 1).drop_last() =~= nv.take(i as int));
            assert(nv.take(i + 1).last() == profile_names@[i as int]@);
        }
        match resolve_profile_with_inheritance(profiles, &profile_names[i]) {
            Ok(p) => {
                resolved.push(p);
                proof {
                    assert(resolved@.map_values(|p: ProfileDef| p@) =~= before.map_values(
                        |p: ProfileDef| p@,
                    ).push(resolved@.last()@));
                }
            },
            Err(e) => {
                proof {
                    lemma_resolve_each_err(ps, nv, i + 1);
                }
                return Err(e);
            },
        }
        i = i + 1;
    }
    proof {
        assert(nv.take(profile_names.len() as int) =~= nv);
    }
    Ok(ProfilesResolver::merge_profiles(resolved))
}

pub proof fn lemma_resolve_each_err(ps: Seq<(Seq<char>, Profile)>, names: Seq<Seq<char>>, n: int)
    requires
        0 <= n <= names.len(),
        resolve_each(ps, names.take(n)) is Err,
    ensures
        resolve_each(ps, names) == resolve_each(ps, names.take(n)),
    decreases names.len(),
{
    if n == names.len() {
        assert(names.take(n) =~= names);
    } else {
        assert(names.drop_last().take(n) =~= names.take(n));
        lemma_resolve_each_err(ps, names.drop_last(), n);
    }
}

/// The effective profile for the requested names (see [`resolve_many`]):
/// absent when nothing is requested and no `default` profile exists.
pub fn resolve_profile(profiles: &Vec<(String, ProfileDef)>, profile_names: &[String]) -> (r:
    Result<Option<ProfileDef>, ConfigError>)
    ensures
        match resolve_many(profiles_view(profiles@), names_view(profile_names@)) {
            Ok(p) => r matches Ok(x) && opt_profile(x) == p,
            Err(f) => r matches Err(e) && e@ == f,
        },
{
    if profiles.len() == 0 && profile_names.len() == 0 {
        return Ok(None);
    }
    if profiles.len() == 0 {
        return Err(ConfigError::ProfileNotFound(profile_names[0].clone()));
    }
    if profile_names.len() == 0 {
        let default_name = String::from_str(DEFAULT_PROFILE);
        return match lookup_profile(profiles, &default_name) {
            Some(_) => match resolve_profile_with_inheritance(profiles, &default_name) {
                Ok(p) => Ok(Some(p)),
                Err(e) => Err(e),
            },
            None => Ok(None),
        };
    }
    resolve_profile_names_with_inheritance(profiles, profile_names)
}

} // verus!
