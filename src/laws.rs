use vstd::prelude::*;
use crate::profiles::{
    DEFAULT_PROFILE,
    Failure,
    Profile,
    default_is_invalid,
    find_profile,
    invalid_default_message,
    resolve_each,
    resolve_many,
    parents,
    visit,
    visit_list,
    lemma_visit_step,
};

verus! {

/// A `default` profile that declares parents makes every resolution fail
/// with the invalid-configuration error, whichever profiles are requested,
/// and even when none is.
pub proof fn lemma_invalid_default_rejected(
    ps: Seq<(Seq<char>, Profile)>,
    names: Seq<Seq<char>>,
)
    requires
        default_is_invalid(ps),
    ensures
        resolve_many(ps, names) == Err::<Option<Profile>, Failure>(
            Failure::InvalidConfig(invalid_default_message()),
        ),
{
    assert(ps.len() > 0);
    if names.len() > 0 {
        lemma_each_invalid(ps, names);
    }
}

proof fn lemma_each_invalid(ps: Seq<(Seq<char>, Profile)>, names: Seq<Seq<char>>)
    requires
        default_is_invalid(ps),
        names.len() > 0,
    ensures
        resolve_each(ps, names) == Err::<Seq<Profile>, Failure>(
            Failure::InvalidConfig(invalid_default_message()),
        ),
    decreases names.len(),
{
    if names.len() > 1 {
        lemma_each_invalid(ps, names.drop_last());
    } else {
        assert(names.drop_last().len() == 0);
        assert(resolve_each(ps, names.drop_last()) is Ok);
    }
}


/// `q` stands in `o` before position `i`.
pub open spec fn placed_before(o: Seq<Seq<char>>, i: int, q: Seq<char>) -> bool {
    exists|j: int| 0 <= j < i && o[j] == q
}

/// Every parent of every profile in `o` stands before it in `o`.
pub open spec fn parents_precede(ps: Seq<(Seq<char>, Profile)>, o: Seq<Seq<char>>) -> bool {
    forall|i: int, k: int|
        0 <= i < o.len() && 0 <= k < parents(ps, o[i]).len() ==> #[trigger] placed_before(
            o,
            i,
            parents(ps, o[i])[k],
        )
}

/// What a successful traversal step guarantees about the order it extends.
pub open spec fn extends_well(
    ps: Seq<(Seq<char>, Profile)>,
    stack: Seq<Seq<char>>,
    order: Seq<Seq<char>>,
    o: Seq<Seq<char>>,
) -> bool {
    &&& order.len() <= o.len()
    &&& forall|t: int| 0 <= t < order.len() ==> #[trigger] o[t] == order[t]
    &&& forall|t: int| order.len() <= t < o.len() ==> !stack.contains(#[trigger] o[t])
    &&& o.no_duplicates()
    &&& parents_precede(ps, o)
}

proof fn lemma_visit_order(
    ps: Seq<(Seq<char>, Profile)>,
    name: Seq<char>,
    stack: Seq<Seq<char>>,
    order: Seq<Seq<char>>,
)
    requires
        order.no_duplicates(),
        parents_precede(ps, order),
    ensures
        visit(ps, name, stack, order) matches Ok(o) ==> extends_well(ps, stack, order, o)
            && o.contains(name),
    decreases crate::profiles::free_count(ps, stack), 0nat, 0nat,
{
    if !stack.contains(name) && !order.contains(name) {
        if let Some(p) = find_profile(ps, name) {
            lemma_visit_step(ps, name, stack);
            let inner = stack.push(name);
            assert(inner[stack.len() as int] == name);
            assert forall|y: Seq<char>| #[trigger] stack.contains(y) implies inner.contains(y) by {
                let i = choose|i: int| 0 <= i < stack.len() && stack[i] == y;
                assert(inner[i] == y);
            }
            let take_default = find_profile(ps, DEFAULT_PROFILE@) is Some && name
                != DEFAULT_PROFILE@ && !order.contains(DEFAULT_PROFILE@);
            let first = if take_default {
                visit(ps, DEFAULT_PROFILE@, inner, order)
            } else {
                Ok(order)
            };
            if take_default {
                lemma_visit_order(ps, DEFAULT_PROFILE@, inner, order);
            }
            if let Ok(o1) = first {
                lemma_visit_list_order(ps, p.inherits, inner, o1);
                if let Ok(o2) = visit_list(ps, p.inherits, inner, o1) {
                    let o = o2.push(name);
                    assert(visit(ps, name, stack, order) == Ok::<Seq<Seq<char>>, Failure>(o));
                    // o2 extends order, and nothing added to it is on the stack
                    assert forall|t: int| 0 <= t < order.len() implies #[trigger] o2[t] == order[t] by {
                        if take_default {
                            assert(o1[t] == order[t]);
                        }
                    }
                    assert forall|t: int| order.len() <= t < o2.len() implies !inner.contains(
                        #[trigger] o2[t],
                    ) by {
                        if t < o1.len() && take_default {
                            assert(o2[t] == o1[t]);
                        }
                    }
                    assert(!o2.contains(name)) by {
                        if o2.contains(name) {
                            let t = choose|t: int| 0 <= t < o2.len() && o2[t] == name;
                            if t < order.len() {
                                assert(order[t] == name);
                            } else {
                                assert(!inner.contains(o2[t]));
                            }
                        }
                    }
                    assert(o.no_duplicates()) by {
                        assert forall|a: int, b: int|
                            0 <= a < o.len() && 0 <= b < o.len() && a != b implies o[a] != o[b] by {
                            if a < o2.len() && b < o2.len() {
                                assert(o[a] == o2[a] && o[b] == o2[b]);
                            } else if a < o2.len() {
                                assert(o[a] == o2[a]);
                            } else if b < o2.len() {
                                assert(o[b] == o2[b]);
                            }
                        }
                    }
                    assert forall|t: int| 0 <= t < order.len() implies #[trigger] o[t] == order[t] by {
                        assert(o[t] == o2[t]);
                    }
                    assert forall|t: int| order.len() <= t < o.len() implies !stack.contains(
                        #[trigger] o[t],
                    ) by {
                        if t < o2.len() {
                            assert(o[t] == o2[t]);
                            assert(!inner.contains(o2[t]));
                        }
                    }
                    // the default parent is already placed
                    if find_profile(ps, DEFAULT_PROFILE@) is Some && name != DEFAULT_PROFILE@ {
                        if take_default {
                            let j = choose|j: int| 0 <= j < o1.len() && o1[j] == DEFAULT_PROFILE@;
                            assert(o2[j] == DEFAULT_PROFILE@);
                        } else {
                            let j = choose|j: int| 0 <= j < order.len() && order[j] == DEFAULT_PROFILE@;
                            assert(o2[j] == DEFAULT_PROFILE@);
                        }
                        assert(o2.contains(DEFAULT_PROFILE@));
                    }
                    assert(parents_precede(ps, o)) by {
                        assert forall|i: int, k: int|
                            0 <= i < o.len() && 0 <= k < parents(ps, o[i]).len() implies #[trigger] placed_before(
                            o,
                            i,
                            parents(ps, o[i])[k],
                        ) by {
                            if i < o2.len() {
                                assert(o[i] == o2[i]);
                                assert(placed_before(o2, i, parents(ps, o2[i])[k]));
                                let j = choose|j: int| 0 <= j < i && o2[j] == parents(ps, o2[i])[k];
                                assert(o[j] == o2[j]);
                            } else {
                                assert(o[i] == name);
                                let q = parents(ps, name)[k];
                                assert(o2.contains(q)) by {
                                    if find_profile(ps, DEFAULT_PROFILE@) is Some && name
                                        != DEFAULT_PROFILE@ {
                                        if k > 0 {
                                            assert(q == p.inherits[k - 1]);
                                        }
                                    } else {
                                        assert(q == p.inherits[k]);
                                    }
                                }
                                let j = choose|j: int| 0 <= j < o2.len() && o2[j] == q;
                                assert(o[j] == o2[j]);
                            }
                        }
                    }
                    assert(o[o2.len() as int] == name);
                }
            }
        }
    }
}

proof fn lemma_visit_list_order(
    ps: Seq<(Seq<char>, Profile)>,
    names: Seq<Seq<char>>,
    stack: Seq<Seq<char>>,
    order: Seq<Seq<char>>,
)
    requires
        order.no_duplicates(),
        parents_precede(ps, order),
    ensures
        visit_list(ps, names, stack, order) matches Ok(o) ==> extends_well(ps, stack, order, o)
            && forall|k: int| 0 <= k < names.len() ==> o.contains(#[trigger] names[k]),
    decreases crate::profiles::free_count(ps, stack), 1nat, names.len(),
{
    if names.len() > 0 {
        lemma_visit_order(ps, names[0], stack, order);
        if let Ok(o1) = visit(ps, names[0], stack, order) {
            let rest = names.drop_first();
            lemma_visit_list_order(ps, rest, stack, o1);
            if let Ok(o) = visit_list(ps, rest, stack, o1) {
                assert forall|t: int| 0 <= t < order.len() implies #[trigger] o[t] == order[t] by {
                    assert(o1[t] == order[t]);
                }
                assert forall|t: int| order.len() <= t < o.len() implies !stack.contains(
                    #[trigger] o[t],
                ) by {
                    if t < o1.len() {
                        assert(o[t] == o1[t]);
                    }
                }
                assert forall|k: int| 0 <= k < names.len() implies o.contains(#[trigger] names[k]) by {
                    if k == 0 {
                        let j = choose|j: int| 0 <= j < o1.len() && o1[j] == names[0];
                        assert(o[j] == o1[j]);
                    } else {
                        assert(names[k] == rest[k - 1]);
                    }
                }
            }
        }
    }
}

/// The traversal behind the resolution of one profile, when it succeeds,
/// places every ancestor exactly once, `default` first when it exists, each
/// profile after all of its parents, and the requested profile last.
pub proof fn lemma_resolution_order(ps: Seq<(Seq<char>, Profile)>, name: Seq<char>)
    requires
        !default_is_invalid(ps),
        visit(ps, name, Seq::empty(), Seq::empty()) is Ok,
    ensures
        ({
            let o = visit(ps, name, Seq::empty(), Seq::empty())->Ok_0;
            &&& o.no_duplicates()
            &&& parents_precede(ps, o)
            &&& o.len() > 0 && o.last() == name
            &&& find_profile(ps, DEFAULT_PROFILE@) is Some ==> o[0] == DEFAULT_PROFILE@
        }),
{
    let empty = Seq::<Seq<char>>::empty();
    lemma_visit_order(ps, name, empty, empty);
    let o = visit(ps, name, empty, empty)->Ok_0;
    assert(!empty.contains(name));
    let p = find_profile(ps, name)->Some_0;
    let inner = empty.push(name);
    if find_profile(ps, DEFAULT_PROFILE@) is Some {
        let d = find_profile(ps, DEFAULT_PROFILE@)->Some_0;
        assert(d.inherits.len() == 0);
        if name != DEFAULT_PROFILE@ {
            assert(!inner.contains(DEFAULT_PROFILE@)) by {
                if inner.contains(DEFAULT_PROFILE@) {
                    let j = choose|j: int| 0 <= j < inner.len() && inner[j] == DEFAULT_PROFILE@;
                    assert(inner[0] == name);
                }
            }
            let dinner = inner.push(DEFAULT_PROFILE@);
            assert(visit_list(ps, d.inherits, dinner, empty) == Ok::<Seq<Seq<char>>, Failure>(empty));
            let o1 = seq![DEFAULT_PROFILE@];
            assert(empty.push(DEFAULT_PROFILE@) =~= o1);
            assert(visit(ps, DEFAULT_PROFILE@, inner, empty) == Ok::<Seq<Seq<char>>, Failure>(o1));
            lemma_visit_list_order(ps, p.inherits, inner, o1);
            let o2 = visit_list(ps, p.inherits, inner, o1)->Ok_0;
            assert(o2[0] == DEFAULT_PROFILE@);
            assert(o == o2.push(name));
            assert(o[0] == o2[0]);
        } else {
            assert(visit_list(ps, p.inherits, inner, empty) == Ok::<Seq<Seq<char>>, Failure>(empty));
            assert(o == empty.push(name));
        }
    }
}


/// Each profile of `path` after the first is a parent of the one before it.
pub open spec fn parent_chain(ps: Seq<(Seq<char>, Profile)>, path: Seq<Seq<char>>) -> bool {
    forall|i: int| 1 <= i < path.len() ==> parents(ps, path[i - 1]).contains(#[trigger] path[i])
}

/// `path` extends `prefix` along parents and comes back to a profile already
/// on it; `m` is the path joined by ` -> `.
pub open spec fn cycle_path(
    ps: Seq<(Seq<char>, Profile)>,
    prefix: Seq<Seq<char>>,
    path: Seq<Seq<char>>,
    m: Seq<char>,
) -> bool {
    &&& path.len() >= 2
    &&& prefix.len() <= path.len()
    &&& path.take(prefix.len() as int) == prefix
    &&& parent_chain(ps, path)
    &&& path.drop_last().contains(path.last())
    &&& m == crate::profiles::join_arrows(path)
}

/// The text of a circular-dependency failure.
pub open spec fn cycle_text(r: Result<Seq<Seq<char>>, Failure>) -> Option<Seq<char>> {
    match r {
        Err(Failure::CircularDependency(m)) => Some(m),
        _ => None,
    }
}

proof fn lemma_chain_push(ps: Seq<(Seq<char>, Profile)>, path: Seq<Seq<char>>, x: Seq<char>)
    requires
        parent_chain(ps, path),
        path.len() > 0,
        parents(ps, path.last()).contains(x),
    ensures
        parent_chain(ps, path.push(x)),
{
    let q = path.push(x);
    assert forall|i: int| 1 <= i < q.len() implies parents(ps, q[i - 1]).contains(#[trigger] q[i]) by {
        if i < path.len() {
            assert(q[i] == path[i] && q[i - 1] == path[i - 1]);
        } else {
            assert(q[i - 1] == path.last());
        }
    }
}

proof fn lemma_visit_cycle(
    ps: Seq<(Seq<char>, Profile)>,
    name: Seq<char>,
    stack: Seq<Seq<char>>,
    order: Seq<Seq<char>>,
) -> (path: Seq<Seq<char>>)
    requires
        parent_chain(ps, stack.push(name)),
    ensures
        cycle_text(visit(ps, name, stack, order)) matches Some(m) ==> cycle_path(
            ps,
            stack.push(name),
            path,
            m,
        ),
    decreases crate::profiles::free_count(ps, stack), 0nat, 0nat,
{
    let inner = stack.push(name);
    if stack.contains(name) {
        assert(inner.take(inner.len() as int) =~= inner);
        assert(inner.drop_last() =~= stack);
        assert(inner.last() == name);
        return inner;
    }
    if order.contains(name) {
        return inner;
    }
    if let Some(p) = find_profile(ps, name) {
        lemma_visit_step(ps, name, stack);
        assert(inner.last() == name);
        let take_default = find_profile(ps, DEFAULT_PROFILE@) is Some && name != DEFAULT_PROFILE@
            && !order.contains(DEFAULT_PROFILE@);
        if take_default {
            assert(parents(ps, name)[0] == DEFAULT_PROFILE@);
            lemma_chain_push(ps, inner, DEFAULT_PROFILE@);
            let path = lemma_visit_cycle(ps, DEFAULT_PROFILE@, inner, order);
            if visit(ps, DEFAULT_PROFILE@, inner, order) is Err {
                if let Some(m) = cycle_text(visit(ps, DEFAULT_PROFILE@, inner, order)) {
                    assert(path.take(inner.len() as int) =~= path.take(
                        inner.len() + 1 as int,
                    ).take(inner.len() as int));
                    assert(inner.push(DEFAULT_PROFILE@).take(inner.len() as int) =~= inner);
                }
                return path;
            }
        }
        let first = if take_default {
            visit(ps, DEFAULT_PROFILE@, inner, order)
        } else {
            Ok(order)
        };
        let o1 = first->Ok_0;
        assert forall|k: int| 0 <= k < p.inherits.len() implies parents(ps, inner.last()).contains(
            #[trigger] p.inherits[k],
        ) by {
            if find_profile(ps, DEFAULT_PROFILE@) is Some && name != DEFAULT_PROFILE@ {
                assert(parents(ps, name)[k + 1] == p.inherits[k]);
            } else {
                assert(parents(ps, name)[k] == p.inherits[k]);
            }
        }
        lemma_visit_list_cycle(ps, p.inherits, inner, o1)
    } else {
        inner
    }
}

proof fn lemma_visit_list_cycle(
    ps: Seq<(Seq<char>, Profile)>,
    names: Seq<Seq<char>>,
    stack: Seq<Seq<char>>,
    order: Seq<Seq<char>>,
) -> (path: Seq<Seq<char>>)
    requires
        stack.len() > 0,
        parent_chain(ps, stack),
        forall|k: int| 0 <= k < names.len() ==> parents(ps, stack.last()).contains(#[trigger] names[k]),
    ensures
        cycle_text(visit_list(ps, names, stack, order)) matches Some(m) ==> cycle_path(
            ps,
            stack,
            path,
            m,
        ),
    decreases crate::profiles::free_count(ps, stack), 1nat, names.len(),
{
    if names.len() == 0 {
        return stack;
    }
    lemma_chain_push(ps, stack, names[0]);
    let path = lemma_visit_cycle(ps, names[0], stack, order);
    if visit(ps, names[0], stack, order) is Err {
        if let Some(m) = cycle_text(visit(ps, names[0], stack, order)) {
            assert(path.take(stack.len() as int) =~= path.take(stack.len() + 1 as int).take(
                stack.len() as int,
            ));
            assert(stack.push(names[0]).take(stack.len() as int) =~= stack);
        }
        return path;
    }
    let o1 = visit(ps, names[0], stack, order)->Ok_0;
    let rest = names.drop_first();
    assert forall|k: int| 0 <= k < rest.len() implies parents(ps, stack.last()).contains(
        #[trigger] rest[k],
    ) by {
        assert(rest[k] == names[k + 1]);
    }
    lemma_visit_list_cycle(ps, rest, stack, o1)
}

/// A circular-dependency failure names a real inheritance cycle: a chain of
/// parents that starts at the requested profile and comes back to a profile
/// already on it, joined by ` -> `. So a profile set without such cycles never
/// fails this way.
pub proof fn lemma_cycle_is_real(ps: Seq<(Seq<char>, Profile)>, name: Seq<char>)
    requires
        visit(ps, name, Seq::empty(), Seq::empty()) is Err,
        visit(ps, name, Seq::empty(), Seq::empty())->Err_0 is CircularDependency,
    ensures
        exists|path: Seq<Seq<char>>|
            {
                &&& path.len() >= 2
                &&& path[0] == name
                &&& parent_chain(ps, path)
                &&& path.drop_last().contains(path.last())
                &&& visit(ps, name, Seq::empty(), Seq::empty()) == Err::<Seq<Seq<char>>, Failure>(
                    Failure::CircularDependency(crate::profiles::join_arrows(path)),
                )
            },
{
    let empty = Seq::<Seq<char>>::empty();
    let start = empty.push(name);
    assert(parent_chain(ps, start));
    let path = lemma_visit_cycle(ps, name, empty, empty);
    let m = visit(ps, name, empty, empty)->Err_0->CircularDependency_0;
    assert(cycle_text(visit(ps, name, empty, empty)) == Some(m));
    assert(path.take(1)[0] == path[0]);
    assert(start[0] == name);
    assert(path.len() >= 2 && path[0] == name && parent_chain(ps, path) && path.drop_last().contains(
        path.last(),
    ));
}

} // verus!
