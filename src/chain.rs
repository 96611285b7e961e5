use vstd::prelude::*;
use crate::error::ConfigError;
use crate::profiles::{
    DEFAULT_PROFILE,
    Failure,
    Profile,
    ProfileDef,
    contains_name,
    find_profile,
    free_count,
    join_names,
    lemma_find_profile,
    lemma_free_count_push,
    lookup_profile,
    names_view,
    parents,
    profiles_view,
    visit,
    visit_list,
};

verus! {

broadcast use vstd::std_specs::vec::group_vec_axioms;

/// A profile being visited: its name, its parents, and how many of them
/// have been visited.
pub type FrameSpec = (Seq<char>, Seq<Seq<char>>, int);

pub open spec fn frame_names(fs: Seq<FrameSpec>) -> Seq<Seq<char>> {
    fs.map_values(|f: FrameSpec| f.0)
}

/// What is left of a traversal whose profiles in progress are `fs`, the
/// innermost last, once `order` has been placed: each frame finishes its
/// remaining parents, then places its own profile.
pub open spec fn cont(ps: Seq<(Seq<char>, Profile)>, fs: Seq<FrameSpec>, order: Seq<Seq<char>>) -> Result<
    Seq<Seq<char>>,
    Failure,
>
    decreases fs.len(),
{
    if fs.len() == 0 {
        Ok(order)
    } else {
        let top = fs.last();
        match visit_list(ps, top.1.subrange(top.2, top.1.len() as int), frame_names(fs), order) {
            Err(f) => Err(f),
            Ok(o) => cont(ps, fs.drop_last(), o.push(top.0)),
        }
    }
}

/// The parents still to visit, plus one for each frame.
pub open spec fn work(fs: Seq<FrameSpec>) -> nat
    decreases fs.len(),
{
    if fs.len() == 0 {
        0
    } else {
        work(fs.drop_last()) + ((fs.last().1.len() - fs.last().2) as nat) + 1
    }
}

/// `free_count` depends only on which names a sequence holds.
pub proof fn lemma_free_count_same(
    ps: Seq<(Seq<char>, Profile)>,
    a: Seq<Seq<char>>,
    b: Seq<Seq<char>>,
)
    requires
        forall|x: Seq<char>| a.contains(x) == b.contains(x),
    ensures
        free_count(ps, a) == free_count(ps, b),
    decreases ps.len(),
{
    if ps.len() > 0 {
        lemma_free_count_same(ps.drop_last(), a, b);
        assert(a.contains(ps.last().0) == b.contains(ps.last().0));
    }
}

/// Entering a defined profile that is neither on the stack nor placed is a
/// walk over its parents.
pub proof fn lemma_visit_unfold(
    ps: Seq<(Seq<char>, Profile)>,
    name: Seq<char>,
    stack: Seq<Seq<char>>,
    order: Seq<Seq<char>>,
)
    requires
        !stack.contains(name),
        !order.contains(name),
        find_profile(ps, name) is Some,
        forall|x: Seq<char>| stack.contains(x) ==> !order.contains(x),
    ensures
        visit(ps, name, stack, order) == match visit_list(
            ps,
            parents(ps, name),
            stack.push(name),
            order,
        ) {
            Err(f) => Err(f),
            Ok(o) => Ok::<Seq<Seq<char>>, Failure>(o.push(name)),
        },
{
    let p = find_profile(ps, name)->Some_0;
    let inner = stack.push(name);
    let d = DEFAULT_PROFILE@;
    if find_profile(ps, d) is Some && name != d {
        let par = parents(ps, name);
        assert(par[0] == d);
        assert(par.drop_first() =~= p.inherits);
        if order.contains(d) {
            assert(!inner.contains(d)) by {
                if inner.contains(d) {
                    let i = choose|i: int| 0 <= i < inner.len() && inner[i] == d;
                    if i < stack.len() {
                        assert(stack[i] == d);
                        assert(stack.contains(d));
                    }
                }
            }
            assert(visit(ps, d, inner, order) == Ok::<Seq<Seq<char>>, Failure>(order));
        }
    }
}

pub proof fn lemma_cont_pop(ps: Seq<(Seq<char>, Profile)>, fs: Seq<FrameSpec>, order: Seq<Seq<char>>)
    requires
        fs.len() > 0,
        fs.last().2 == fs.last().1.len(),
    ensures
        cont(ps, fs, order) == cont(ps, fs.drop_last(), order.push(fs.last().0)),
{
    let top = fs.last();
    assert(top.1.subrange(top.2, top.1.len() as int) =~= Seq::<Seq<char>>::empty());
}

/// The top frame's next parent, visited against the current stack.
pub open spec fn next_visit(ps: Seq<(Seq<char>, Profile)>, fs: Seq<FrameSpec>, order: Seq<Seq<char>>) -> Result<
    Seq<Seq<char>>,
    Failure,
> {
    let top = fs.last();
    visit(ps, top.1[top.2], frame_names(fs), order)
}

pub open spec fn advanced(fs: Seq<FrameSpec>) -> Seq<FrameSpec> {
    let top = fs.last();
    fs.drop_last().push((top.0, top.1, top.2 + 1))
}

pub proof fn lemma_frame_names_advanced(fs: Seq<FrameSpec>)
    requires
        fs.len() > 0,
    ensures
        frame_names(advanced(fs)) == frame_names(fs),
{
    assert(frame_names(advanced(fs)) =~= frame_names(fs));
}

pub proof fn lemma_cont_step(ps: Seq<(Seq<char>, Profile)>, fs: Seq<FrameSpec>, order: Seq<Seq<char>>)
    requires
        fs.len() > 0,
        0 <= fs.last().2 < fs.last().1.len(),
    ensures
        cont(ps, fs, order) == match next_visit(ps, fs, order) {
            Err(f) => Err(f),
            Ok(o) => cont(ps, advanced(fs), o),
        },
{
    let top = fs.last();
    let rest = top.1.subrange(top.2, top.1.len() as int);
    assert(rest[0] == top.1[top.2]);
    assert(rest.drop_first() =~= top.1.subrange(top.2 + 1, top.1.len() as int));
    lemma_frame_names_advanced(fs);
    let adv = advanced(fs);
    assert(adv.drop_last() =~= fs.drop_last());
    assert(adv.last() == (top.0, top.1, top.2 + 1));
}

pub proof fn lemma_cont_enter(ps: Seq<(Seq<char>, Profile)>, fs: Seq<FrameSpec>, order: Seq<Seq<char>>)
    requires
        fs.len() > 0,
        0 <= fs.last().2 < fs.last().1.len(),
        !frame_names(fs).contains(fs.last().1[fs.last().2]),
        !order.contains(fs.last().1[fs.last().2]),
        find_profile(ps, fs.last().1[fs.last().2]) is Some,
        forall|x: Seq<char>| frame_names(fs).contains(x) ==> !order.contains(x),
    ensures
        ({
            let c = fs.last().1[fs.last().2];
            cont(ps, fs, order) == cont(ps, advanced(fs).push((c, parents(ps, c), 0)), order)
        }),
{
    let top = fs.last();
    let c = top.1[top.2];
    let s = frame_names(fs);
    lemma_cont_step(ps, fs, order);
    lemma_visit_unfold(ps, c, s, order);
    let adv = advanced(fs);
    let deeper = adv.push((c, parents(ps, c), 0));
    lemma_frame_names_advanced(fs);
    assert(frame_names(deeper) =~= s.push(c));
    assert(parents(ps, c).subrange(0, parents(ps, c).len() as int) =~= parents(ps, c));
    assert(deeper.drop_last() =~= adv);
    assert(deeper.last() == (c, parents(ps, c), 0int));
}

pub proof fn lemma_work_step(fs: Seq<FrameSpec>)
    requires
        fs.len() > 0,
        0 <= fs.last().2 < fs.last().1.len(),
    ensures
        work(advanced(fs)) < work(fs),
{
    let adv = advanced(fs);
    assert(adv.drop_last() =~= fs.drop_last());
}

/// The model of the exec frames.
pub open spec fn frames_view(v: Seq<(String, Vec<String>, usize)>) -> Seq<FrameSpec> {
    v.map_values(|f: (String, Vec<String>, usize)| (f.0@, names_view(f.1@), f.2 as int))
}

/// The parents of the profile `name`, whose definition is `p`.
fn parent_names(profiles: &Vec<(String, ProfileDef)>, name: &String, p: &ProfileDef) -> (r: Vec<String>)
    requires
        find_profile(profiles_view(profiles@), name@) == Some(p@),
    ensures
        names_view(r@) == parents(profiles_view(profiles@), name@),
{
    let mut r: Vec<String> = Vec::new();
    let default_name = String::from_str(DEFAULT_PROFILE);
    let has_default = lookup_profile(profiles, &default_name).is_some();
    if has_default && !(*name == default_name) {
        r.push(default_name);
    }
    let ghost start = names_view(r@);
    let mut i: usize = 0;
    while i < p.inherits.len()
        invariant
            i <= p.inherits.len(),
            names_view(r@) == start + names_view(p.inherits@).take(i as int),
        decreases p.inherits.len() - i,
    {
        let ghost before = r@;
        r.push(p.inherits[i].clone());
        proof {
            assert(names_view(r@) =~= names_view(before).push(p.inherits@[i as int]@));
            assert(names_view(p.inherits@).take(i + 1) =~= names_view(p.inherits@).take(
                i as int,
            ).push(p.inherits@[i as int]@));
            assert(names_view(r@) =~= start + names_view(p.inherits@).take(i + 1));
        }
        i = i + 1;
    }
    proof {
        assert(names_view(p.inherits@).take(p.inherits.len() as int) =~= names_view(p.inherits@));
        assert(names_view(r@) =~= parents(profiles_view(profiles@), name@));
    }
    r
}


/// Whether `c` is the name of one of the frames.
fn frames_contain(frames: &Vec<(String, Vec<String>, usize)>, c: &String) -> (r: bool)
    ensures
        r == frame_names(frames_view(frames@)).contains(c@),
{
    let ghost s = frame_names(frames_view(frames@));
    let mut i: usize = 0;
    while i < frames.len()
        invariant
            i <= frames.len(),
            s == frame_names(frames_view(frames@)),
            s.len() == frames.len(),
            forall|t: int| 0 <= t < i ==> #[trigger] s[t] != c@,
        decreases frames.len() - i,
    {
        proof {
            assert(s[i as int] == frames@[i as int].0@);
        }
        if frames[i].0 == *c {
            return true;
        }
        i = i + 1;
    }
    false
}

/// The names of the frames, outermost first.
fn frame_name_list(frames: &Vec<(String, Vec<String>, usize)>) -> (r: Vec<String>)
    ensures
        names_view(r@) == frame_names(frames_view(frames@)),
{
    let ghost s = frame_names(frames_view(frames@));
    let mut r: Vec<String> = Vec::new();
    let mut i: usize = 0;
    while i < frames.len()
        invariant
            i <= frames.len(),
            s == frame_names(frames_view(frames@)),
            s.len() == frames.len(),
            names_view(r@) == s.take(i as int),
        decreases frames.len() - i,
    {
        let ghost before = r@;
        r.push(frames[i].0.clone());
        proof {
            assert(s[i as int] == frames@[i as int].0@);
            assert(names_view(r@) =~= names_view(before).push(s[i as int]));
            assert(s.take(i + 1) =~= s.take(i as int).push(s[i as int]));
        }
        i = i + 1;
    }
    proof {
        assert(s.take(frames.len() as int) =~= s);
    }
    r
}

/// Collects, lowest priority first, the profile `name` and all of its
/// ancestors (see [`visit`]). The inheritance graph is walked with an
/// explicit stack of frames, so the depth of an inheritance chain costs no
/// call stack.
pub(crate) fn collect_profile_chain(profiles: &Vec<(String, ProfileDef)>, name: &String) -> (r:
    Result<Vec<String>, ConfigError>)
    ensures
        match visit(profiles_view(profiles@), name@, Seq::empty(), Seq::empty()) {
            Ok(o) => r matches Ok(v) && names_view(v@) == o,
            Err(f) => r matches Err(e) && e@ == f,
        },
{
    let ghost ps = profiles_view(profiles@);
    let ghost empty = Seq::<Seq<char>>::empty();
    let ghost target = visit(ps, name@, empty, empty);
    let mut order: Vec<String> = Vec::new();
    let p = match lookup_profile(profiles, name) {
        None => {
            return Err(ConfigError::ProfileNotFound(name.clone()));
        },
        Some(p) => p,
    };
    let kids = parent_names(profiles, name, p);
    let mut frames: Vec<(String, Vec<String>, usize)> = Vec::new();
    frames.push((name.clone(), kids, 0));
    proof {
        lemma_visit_unfold(ps, name@, empty, empty);
        let fs = frames_view(frames@);
        assert(fs.len() == 1);
        assert(fs[0] == (name@, parents(ps, name@), 0int));
        assert(frame_names(fs) =~= empty.push(name@));
        assert(fs.drop_last() =~= Seq::<FrameSpec>::empty());
        assert(parents(ps, name@).subrange(0, parents(ps, name@).len() as int) =~= parents(
            ps,
            name@,
        ));
        assert(names_view(order@) =~= empty);
        match visit_list(ps, parents(ps, name@), empty.push(name@), empty) {
            Ok(o) => {
                assert(cont(ps, fs.drop_last(), o.push(name@)) == Ok::<Seq<Seq<char>>, Failure>(
                    o.push(name@),
                ));
            },
            Err(_) => {},
        }
        assert(target == cont(ps, fs, names_view(order@)));
    }
    loop
        invariant
            ps == profiles_view(profiles@),
            target == visit(ps, name@, Seq::empty(), Seq::empty()),
            frames.len() > 0,
            target == cont(ps, frames_view(frames@), names_view(order@)),
            forall|i: int| 0 <= i < frames.len() ==> #[trigger] frames@[i].2 <= frames@[i].1.len(),
            frame_names(frames_view(frames@)).no_duplicates(),
            forall|x: Seq<char>|
                frame_names(frames_view(frames@)).contains(x) ==> !names_view(order@).contains(x),
        decreases
            free_count(ps, names_view(order@) + frame_names(frames_view(frames@))),
            work(frames_view(frames@)),
    {
        let ghost fs = frames_view(frames@);
        let ghost ov = names_view(order@);
        let ghost s = frame_names(fs);
        let ghost before = frames@;
        let (n, ch, j) = frames.pop().unwrap();
        proof {
            assert(frames@ =~= before.drop_last());
            assert(frames_view(frames@) =~= fs.drop_last());
            assert(fs.last() == (n@, names_view(ch@), j as int));
            assert(frame_names(fs.drop_last()) =~= s.drop_last());
            assert(s.last() == n@);
        }
        if j == ch.len() {
            order.push(n);
            proof {
                lemma_cont_pop(ps, fs, ov);
                assert(names_view(order@) =~= ov.push(fs.last().0));
                let s2 = s.drop_last();
                let o2 = ov.push(n@);
                assert forall|x: Seq<char>| (o2 + s2).contains(x) == (ov + s).contains(x) by {
                    if (ov + s).contains(x) {
                        let i = choose|i: int| 0 <= i < (ov + s).len() && (ov + s)[i] == x;
                        if i < ov.len() {
                            assert((o2 + s2)[i] == x);
                        } else if i < ov.len() + s2.len() {
                            assert((o2 + s2)[i + 1] == x);
                        } else {
                            assert((o2 + s2)[ov.len() as int] == x);
                        }
                    }
                    if (o2 + s2).contains(x) {
                        let i = choose|i: int| 0 <= i < (o2 + s2).len() && (o2 + s2)[i] == x;
                        if i < ov.len() {
                            assert((ov + s)[i] == x);
                        } else if i == ov.len() {
                            assert((ov + s)[ov.len() + s.len() - 1] == x);
                        } else {
                            assert((ov + s)[i - 1] == x);
                        }
                    }
                }
                lemma_free_count_same(ps, o2 + s2, ov + s);
                assert forall|x: Seq<char>| s2.contains(x) implies !o2.contains(x) by {
                    let i = choose|i: int| 0 <= i < s2.len() && s2[i] == x;
                    assert(s[i] == x);
                    assert(x != n@);
                    if o2.contains(x) {
                        let k = choose|k: int| 0 <= k < o2.len() && o2[k] == x;
                        assert(k < ov.len());
                        assert(ov.contains(x));
                    }
                }
            }
            if frames.len() == 0 {
                proof {
                    assert(frames_view(frames@).len() == 0);
                }
                return Ok(order);
            }
        } else {
            let c = ch[j].clone();
            frames.push((n, ch, j + 1));
            proof {
                assert(frames_view(frames@) =~= advanced(fs));
                lemma_frame_names_advanced(fs);
                lemma_cont_step(ps, fs, ov);
                lemma_work_step(fs);
                assert(fs.last().1[fs.last().2] == c@);
            }
            if frames_contain(&frames, &c) {
                let mut path = frame_name_list(&frames);
                path.push(c);
                proof {
                    assert(names_view(path@) =~= s.push(fs.last().1[fs.last().2]));
                    assert(s.contains(c@));
                    assert(next_visit(ps, fs, ov) == Err::<Seq<Seq<char>>, Failure>(
                        Failure::CircularDependency(crate::profiles::join_arrows(s.push(c@))),
                    ));
                }
                return Err(ConfigError::CircularDependency(join_names(&path)));
            }
            if contains_name(&order, &c) {
                proof {
                    assert(next_visit(ps, fs, ov) == Ok::<Seq<Seq<char>>, Failure>(ov));
                }
            } else {
                match lookup_profile(profiles, &c) {
                    None => {
                        return Err(ConfigError::ProfileNotFound(c));
                    },
                    Some(p) => {
                        let kids = parent_names(profiles, &c, p);
                        let ghost adv = frames@;
                        frames.push((c, kids, 0));
                        proof {
                            lemma_cont_enter(ps, fs, ov);
                            let deeper = advanced(fs).push((c@, parents(ps, c@), 0int));
                            assert(frames@ =~= adv.push(frames@.last()));
                            assert(frames_view(frames@) =~= deeper);
                            assert(frame_names(deeper) =~= s.push(c@));
                            lemma_find_profile(ps, c@);
                            let k = choose|k: int| 0 <= k < ps.len() && #[trigger] ps[k] == (c@, p@);
                            assert(ps[k].0 == c@);
                            assert(!(ov + s).contains(c@)) by {
                                if (ov + s).contains(c@) {
                                    let i = choose|i: int| 0 <= i < (ov + s).len() && (ov + s)[i] == c@;
                                    if i < ov.len() {
                                        assert(ov.contains(c@));
                                    } else {
                                        assert(s[i - ov.len()] == c@);
                                        assert(s.contains(c@));
                                    }
                                }
                            }
                            lemma_free_count_push(ps, ov + s, c@);
                            assert((ov + s).push(c@) =~= ov + s.push(c@));
                            assert forall|x: Seq<char>| s.push(c@).contains(x) implies !ov.contains(x) by {
                                let i = choose|i: int| 0 <= i < s.push(c@).len() && s.push(c@)[i] == x;
                                if i < s.len() {
                                    assert(s[i] == x);
                                    assert(s.contains(x));
                                }
                            }
                        }
                    },
                }
            }
        }
    }
}

} // verus!
