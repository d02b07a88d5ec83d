//! Compiling a system registry into ordered stages, and running them.
//!
//! A stage holds every not-yet-placed system whose dependencies all appear
//! in earlier stages. Stages are computed greedily until no system remains;
//! a registry where some round places nothing is refused — either a
//! dependency name no system carries, or a cycle.
use vstd::prelude::*;

use crate::error::DispatcherError;
use crate::World;

use super::{System, Systems};

verus! {

/// The names of a run of systems, in order.
pub open spec fn names_of<F>(ss: Seq<System<F>>) -> Seq<Seq<char>> {
    ss.map_values(|s: System<F>| s.name@)
}

/// The texts of a run of owned names.
pub open spec fn view_names(v: Seq<String>) -> Seq<Seq<char>> {
    v.map_values(|s: String| s@)
}

/// The contents of a run of stage vectors.
pub open spec fn stage_views<F>(st: Seq<Vec<System<F>>>) -> Seq<Seq<System<F>>> {
    st.map_values(|v: Vec<System<F>>| v@)
}

/// Whether every dependency of `s` is already placed.
pub open spec fn eligible<F>(s: System<F>, placed: Seq<Seq<char>>) -> bool {
    forall|d: int| 0 <= d < s.deps@.len() ==> placed.contains((#[trigger] s.deps@[d])@)
}

/// The systems eligible against `placed`, as a filter predicate.
pub open spec fn eligible_pred<F>(placed: Seq<Seq<char>>) -> spec_fn(System<F>) -> bool {
    |s: System<F>| eligible(s, placed)
}

/// The systems still blocked against `placed`, as a filter predicate.
pub open spec fn blocked_pred<F>(placed: Seq<Seq<char>>) -> spec_fn(System<F>) -> bool {
    |s: System<F>| !eligible(s, placed)
}

/// The stages the greedy compilation assigns: each round takes every
/// remaining system whose dependencies are all placed, in input order, and
/// places it; `None` where a round takes nothing although systems remain.
pub open spec fn spec_stages<F>(remaining: Seq<System<F>>, placed: Seq<Seq<char>>) -> Option<
    Seq<Seq<System<F>>>,
>
    decreases remaining.len(),
    via spec_stages_decreases::<F>
{
    if remaining.len() == 0 {
        Some(Seq::empty())
    } else {
        let stage = remaining.filter(eligible_pred(placed));
        if stage.len() == 0 {
            None
        } else {
            let rest = remaining.filter(blocked_pred(placed));
            match spec_stages(rest, placed + names_of(stage)) {
                Some(t) => Some(seq![stage] + t),
                None => None,
            }
        }
    }
}

#[via_fn]
proof fn spec_stages_decreases<F>(remaining: Seq<System<F>>, placed: Seq<Seq<char>>) {
    if remaining.len() > 0 {
        lemma_filter_partition(remaining, eligible_pred(placed), blocked_pred(placed));
    }
}

/// A filter by a predicate and one by its negation split a run exactly.
proof fn lemma_filter_partition<A>(s: Seq<A>, p: spec_fn(A) -> bool, q: spec_fn(A) -> bool)
    requires
        forall|x: A| #[trigger] q(x) == !p(x),
    ensures
        s.filter(p).len() + s.filter(q).len() == s.len(),
    decreases s.len(),
{
    reveal(Seq::filter);
    if s.len() > 0 {
        lemma_filter_partition(s.drop_last(), p, q);
    }
}

/// Everything a filter keeps was in the run.
proof fn lemma_filter_subset<A>(s: Seq<A>, p: spec_fn(A) -> bool)
    ensures
        forall|j: int| 0 <= j < s.filter(p).len() ==> s.contains(#[trigger] s.filter(p)[j]),
    decreases s.len(),
{
    reveal(Seq::filter);
    if s.len() > 0 {
        lemma_filter_subset(s.drop_last(), p);
        assert forall|j: int| 0 <= j < s.filter(p).len() implies s.contains(
            #[trigger] s.filter(p)[j],
        ) by {
            if j < s.drop_last().filter(p).len() {
                assert(s.drop_last().contains(s.drop_last().filter(p)[j]));
                let w = choose|w: int|
                    0 <= w < s.drop_last().len() && s.drop_last()[w] == s.drop_last().filter(p)[j];
                assert(s[w] == s.filter(p)[j]);
            } else {
                assert(s[s.len() - 1] == s.filter(p)[j]);
            }
        }
    }
}

/// Whether some system names a dependency that no system carries.
pub open spec fn has_unknown_dep<F>(ss: Seq<System<F>>) -> bool {
    exists|i: int, d: int|
        0 <= i < ss.len() && 0 <= d < ss[i].deps@.len() && !names_of(ss).contains(
            (#[trigger] ss[i].deps@[d])@,
        )
}

/// A system with a dependency that neither the placed names nor any
/// remaining system's name can ever satisfy stalls the compilation.
proof fn lemma_unknown_dep_stalls<F>(
    remaining: Seq<System<F>>,
    placed: Seq<Seq<char>>,
    i: int,
    d: int,
)
    requires
        0 <= i < remaining.len(),
        0 <= d < remaining[i].deps@.len(),
        !placed.contains(remaining[i].deps@[d]@),
        !names_of(remaining).contains(remaining[i].deps@[d]@),
    ensures
        spec_stages(remaining, placed) is None,
    decreases remaining.len(),
{
    let dep = remaining[i].deps@[d]@;
    let sys = remaining[i];
    let stage = remaining.filter(eligible_pred(placed));
    if stage.len() > 0 {
        lemma_filter_partition(remaining, eligible_pred(placed), blocked_pred(placed));
        lemma_filter_subset(remaining, eligible_pred::<F>(placed));
        lemma_filter_subset(remaining, blocked_pred::<F>(placed));
        let rest = remaining.filter(blocked_pred(placed));
        // `sys` is blocked, so the rest keeps it.
        assert(!eligible(sys, placed));
        assert(blocked_pred::<F>(placed)(sys));
        sys_filter_contains(remaining, blocked_pred(placed), i);
        let i2 = choose|w: int| 0 <= w < rest.len() && rest[w] == sys;
        // The dependency is in no new name either.
        let placed2 = placed + names_of(stage);
        assert forall|t: int| 0 <= t < placed2.len() implies placed2[t] != dep by {
            if placed2[t] == dep {
                if t >= placed.len() {
                    let u = t - placed.len();
                    assert(names_of(stage)[u] == stage[u].name@);
                    assert(remaining.contains(stage[u]));
                    let w = choose|w: int| 0 <= w < remaining.len() && remaining[w] == stage[u];
                    assert(names_of(remaining)[w] == remaining[w].name@);
                    assert(names_of(remaining).contains(dep));
                } else {
                    assert(placed.contains(dep));
                }
            }
        }
        assert(!placed2.contains(dep)) by {
            if placed2.contains(dep) {
                let t = choose|t: int| 0 <= t < placed2.len() && placed2[t] == dep;
            }
        }
        assert forall|w: int| 0 <= w < rest.len() implies names_of(rest)[w] != dep by {
            assert(names_of(rest)[w] == rest[w].name@);
            assert(remaining.contains(rest[w]));
            let u = choose|u: int| 0 <= u < remaining.len() && remaining[u] == rest[w];
            if rest[w].name@ == dep {
                assert(names_of(remaining)[u] == dep);
            }
        }
        assert(!names_of(rest).contains(dep)) by {
            if names_of(rest).contains(dep) {
                let t = choose|t: int| 0 <= t < names_of(rest).len() && names_of(rest)[t] == dep;
            }
        }
        lemma_unknown_dep_stalls(rest, placed2, i2, d);
    }
}

/// A run's filter keeps the element at any index where the predicate
/// holds.
proof fn sys_filter_contains<A>(s: Seq<A>, p: spec_fn(A) -> bool, i: int)
    requires
        0 <= i < s.len(),
        p(s[i]),
    ensures
        s.filter(p).contains(s[i]),
    decreases s.len(),
{
    reveal(Seq::filter);
    if i == s.len() - 1 {
    } else {
        sys_filter_contains(s.drop_last(), p, i);
        let w = choose|w: int|
            0 <= w < s.drop_last().filter(p).len() && s.drop_last().filter(p)[w] == s[i];
        assert(s.filter(p)[w] == s[i]);
    }
}

/// The systems of a stage list, one run, in stage order.
pub open spec fn flat_systems<F>(st: Seq<Seq<System<F>>>) -> Seq<System<F>>
    decreases st.len(),
{
    if st.len() == 0 {
        Seq::empty()
    } else {
        flat_systems(st.drop_last()) + st.last()
    }
}

/// Whether `tr` is the trace of running `systems` in order, starting from
/// `w0` and ending at `w1`: each step is a possible result of the next
/// system on the world the previous step left.
pub open spec fn dispatch_chain<C, F: Fn(World<C>) -> World<C>>(
    systems: Seq<System<F>>,
    w0: World<C>,
    w1: World<C>,
    tr: Seq<World<C>>,
) -> bool {
    &&& tr.len() == systems.len() + 1
    &&& tr[0] == w0
    &&& tr[systems.len() as int] == w1
    &&& forall|k: int|
        0 <= k < systems.len() ==> call_ensures((#[trigger] systems[k]).run, (tr[k],), tr[k + 1])
}

/// Whether `dep` is the name of some system placed in a stage strictly
/// before stage `k`.
pub open spec fn dep_placed_earlier<F>(st: Seq<Seq<System<F>>>, k: int, dep: Seq<char>) -> bool {
    exists|k2: int, x2: int|
        0 <= k2 < k && 0 <= x2 < st[k2].len() && (#[trigger] st[k2][x2]).name@ == dep
}

/// Law: compiled stages respect dependencies. Every dependency of every
/// staged system is the name of a system placed in a strictly earlier
/// stage.
pub proof fn lemma_stages_respect_deps<F>(ss: Seq<System<F>>, st: Seq<Seq<System<F>>>)
    requires
        spec_stages(ss, Seq::empty()) == Some(st),
    ensures
        forall|k: int, x: int, d: int|
            0 <= k < st.len() && 0 <= x < st[k].len() && 0 <= d < st[k][x].deps@.len()
                ==> dep_placed_earlier(st, k, (#[trigger] st[k][x].deps@[d])@),
{
    lemma_stages_respect_deps_rec(ss, Seq::empty(), st);
    assert forall|k: int, x: int, d: int|
        0 <= k < st.len() && 0 <= x < st[k].len() && 0 <= d < st[k][x].deps@.len() implies
        dep_placed_earlier(st, k, (#[trigger] st[k][x].deps@[d])@) by {
        assert(!Seq::<Seq<char>>::empty().contains(st[k][x].deps@[d]@));
    }
}

proof fn lemma_stages_respect_deps_rec<F>(
    remaining: Seq<System<F>>,
    placed: Seq<Seq<char>>,
    st: Seq<Seq<System<F>>>,
)
    requires
        spec_stages(remaining, placed) == Some(st),
    ensures
        forall|k: int, x: int, d: int|
            0 <= k < st.len() && 0 <= x < st[k].len() && 0 <= d < st[k][x].deps@.len()
                ==> placed.contains((#[trigger] st[k][x].deps@[d])@) || dep_placed_earlier(
                st,
                k,
                st[k][x].deps@[d]@,
            ),
    decreases remaining.len(),
{
    if remaining.len() == 0 {
    } else {
        let stage = remaining.filter(eligible_pred(placed));
        let rest = remaining.filter(blocked_pred(placed));
        let placed2 = placed + names_of(stage);
        let t = spec_stages(rest, placed2).unwrap();
        assert(st == seq![stage] + t);
        lemma_filter_partition(remaining, eligible_pred(placed), blocked_pred(placed));
        lemma_stages_respect_deps_rec(rest, placed2, t);
        assert forall|k: int, x: int, d: int|
            0 <= k < st.len() && 0 <= x < st[k].len() && 0 <= d < st[k][x].deps@.len() implies
            placed.contains((#[trigger] st[k][x].deps@[d])@) || dep_placed_earlier(
            st,
            k,
            st[k][x].deps@[d]@,
        ) by {
            let dep = st[k][x].deps@[d]@;
            if k == 0 {
                assert(st[0] == stage);
                assert(eligible_pred::<F>(placed)(stage[x])) by {
                    stage_elems_eligible(remaining, placed, x);
                }
                assert(placed.contains(dep));
            } else {
                assert(st[k] == t[k - 1]);
                assert(t[k - 1][x].deps@[d]@ == dep);
                if placed2.contains(dep) {
                    let u = choose|u: int| 0 <= u < placed2.len() && placed2[u] == dep;
                    if u < placed.len() {
                        assert(placed.contains(dep));
                    } else {
                        let x2 = u - placed.len();
                        assert(names_of(stage)[x2] == stage[x2].name@);
                        assert((st[0][x2]).name@ == dep);
                        assert(dep_placed_earlier(st, k, dep));
                    }
                } else if dep_placed_earlier(t, k - 1, dep) {
                    let (k2, x2): (int, int) = choose|k2: int, x2: int|
                        0 <= k2 < k - 1 && 0 <= x2 < t[k2].len() && (#[trigger] t[k2][x2]).name@
                            == dep;
                    assert(st[k2 + 1] == t[k2]);
                    assert((st[k2 + 1][x2]).name@ == dep);
                    assert(dep_placed_earlier(st, k, dep));
                }
            }
        }
    }
}

/// Law: compilation is complete. The stages hold exactly the registered
/// systems, each exactly once.
pub proof fn lemma_stages_complete<F>(ss: Seq<System<F>>, st: Seq<Seq<System<F>>>)
    requires
        spec_stages(ss, Seq::empty()) == Some(st),
    ensures
        flat_systems(st).to_multiset() == ss.to_multiset(),
{
    lemma_stages_complete_rec(ss, Seq::empty(), st);
}

proof fn lemma_stages_complete_rec<F>(
    remaining: Seq<System<F>>,
    placed: Seq<Seq<char>>,
    st: Seq<Seq<System<F>>>,
)
    requires
        spec_stages(remaining, placed) == Some(st),
    ensures
        flat_systems(st).to_multiset() == remaining.to_multiset(),
    decreases remaining.len(),
{
    if remaining.len() == 0 {
        assert(flat_systems(st) =~= remaining);
    } else {
        let stage = remaining.filter(eligible_pred(placed));
        let rest = remaining.filter(blocked_pred(placed));
        let placed2 = placed + names_of(stage);
        let t = spec_stages(rest, placed2).unwrap();
        assert(st == seq![stage] + t);
        lemma_filter_partition(remaining, eligible_pred(placed), blocked_pred(placed));
        lemma_stages_complete_rec(rest, placed2, t);
        lemma_flat_front(stage, t);
        vstd::seq_lib::lemma_multiset_commutative(stage, flat_systems(t));
        lemma_filter_partition_multiset(remaining, eligible_pred(placed), blocked_pred(placed));
        assert(flat_systems(st).to_multiset() =~= remaining.to_multiset()) by {
            broadcast use vstd::multiset::group_multiset_axioms;
        }
    }
}

/// Pulling the first stage out of a flattening.
proof fn lemma_flat_front<F>(x: Seq<System<F>>, t: Seq<Seq<System<F>>>)
    ensures
        flat_systems(seq![x] + t) == x + flat_systems(t),
    decreases t.len(),
{
    let one = seq![x];
    if t.len() == 0 {
        assert(one + t =~= one);
        assert(one.drop_last() =~= Seq::<Seq<System<F>>>::empty());
        assert(one.last() == x);
        assert(flat_systems(Seq::<Seq<System<F>>>::empty()) =~= Seq::<System<F>>::empty());
        assert(flat_systems(one) == flat_systems(one.drop_last()) + one.last());
        assert(Seq::<System<F>>::empty() + x =~= x);
        assert(t =~= Seq::<Seq<System<F>>>::empty());
        assert(x + flat_systems(t) =~= x);
    } else {
        let s2 = one + t;
        assert(flat_systems(s2) == flat_systems(s2.drop_last()) + s2.last());
        assert(s2.drop_last() =~= one + t.drop_last());
        assert(s2.last() == t.last());
        lemma_flat_front(x, t.drop_last());
        assert(flat_systems(t) == flat_systems(t.drop_last()) + t.last());
        assert((x + flat_systems(t.drop_last())) + t.last() =~= x + (flat_systems(t.drop_last())
            + t.last()));
    }
}

/// The two halves of a filter partition carry the run's full multiset.
proof fn lemma_filter_partition_multiset<A>(s: Seq<A>, p: spec_fn(A) -> bool, q: spec_fn(A) -> bool)
    requires
        forall|x: A| #[trigger] q(x) == !p(x),
    ensures
        s.filter(p).to_multiset().add(s.filter(q).to_multiset()) == s.to_multiset(),
    decreases s.len(),
{
    broadcast use vstd::seq_lib::group_to_multiset_ensures;
    broadcast use vstd::multiset::group_multiset_axioms;

    reveal(Seq::filter);
    if s.len() == 0 {
        assert(s.filter(p) =~= s);
        assert(s.filter(q) =~= s);
        assert(s.filter(p).to_multiset().add(s.filter(q).to_multiset()) =~= s.to_multiset());
    } else {
        let dl = s.drop_last();
        let last = s.last();
        lemma_filter_partition_multiset(dl, p, q);
        assert(dl.push(last) =~= s);
        assert(dl.push(last).to_multiset() =~= dl.to_multiset().insert(last));
        if p(last) {
            assert(s.filter(p) == dl.filter(p).push(last));
            assert(s.filter(q) == dl.filter(q));
            assert(dl.filter(p).push(last).to_multiset() =~= dl.filter(p).to_multiset().insert(
                last,
            ));
            assert(s.filter(p).to_multiset().add(s.filter(q).to_multiset()) =~= s.to_multiset());
        } else {
            assert(s.filter(q) == dl.filter(q).push(last));
            assert(s.filter(p) == dl.filter(p));
            assert(dl.filter(q).push(last).to_multiset() =~= dl.filter(q).to_multiset().insert(
                last,
            ));
            assert(s.filter(p).to_multiset().add(s.filter(q).to_multiset()) =~= s.to_multiset());
        }
    }
}

/// Every element a filter by eligibility keeps is eligible.
proof fn stage_elems_eligible<F>(remaining: Seq<System<F>>, placed: Seq<Seq<char>>, x: int)
    requires
        0 <= x < remaining.filter(eligible_pred::<F>(placed)).len(),
    ensures
        eligible_pred::<F>(placed)(remaining.filter(eligible_pred::<F>(placed))[x]),
    decreases remaining.len(),
{
    reveal(Seq::filter);
    if remaining.len() > 0 {
        let dl = remaining.drop_last();
        if x < dl.filter(eligible_pred::<F>(placed)).len() {
            stage_elems_eligible(dl, placed, x);
        }
    }
}

/// An immutable, ordered list of stages; each stage's systems have all
/// their dependencies in earlier stages.
pub struct Dispatcher<F>(pub Vec<Vec<System<F>>>);

impl<F> Dispatcher<F> {
    /// The stages, as runs of systems.
    pub open spec fn stages(self) -> Seq<Seq<System<F>>> {
        stage_views(self.0@)
    }

    /// Compiles the registry greedily: each round stages every remaining
    /// system whose dependencies are all placed. A round that stages
    /// nothing while systems remain is refused: `UnknownDependency` where
    /// some system names a dependency no system carries, else
    /// `CyclicDependency`.
    pub fn from_systems(systems: Systems<F>) -> (r: Result<Dispatcher<F>, DispatcherError>)
        ensures
            spec_stages(systems.0@, Seq::empty()) matches Some(st) ==> (r matches Ok(d)
                && d.stages() == st),
            spec_stages(systems.0@, Seq::empty()) is None ==> (r matches Err(e) && (e
                == DispatcherError::UnknownDependency <==> has_unknown_dep(systems.0@))),
    {
        let ghost orig = systems.0@;
        // Collect every system's name.
        let n = systems.0.len();
        let mut all_names: Vec<String> = Vec::new();
        let mut i: usize = 0;
        while i < n
            invariant
                i <= n,
                n == systems.0@.len(),
                all_names@.len() == i,
                forall|t: int| 0 <= t < i ==> (#[trigger] all_names@[t])@ == systems.0@[t].name@,
            decreases n - i,
        {
            all_names.push(systems.0[i].name.clone());
            i += 1;
        }
        // Refuse a dependency name that no system carries: it could never
        // be placed, and compilation would stall on it.
        let mut i: usize = 0;
        while i < n
            invariant
                i <= n,
                n == systems.0@.len(),
                orig == systems.0@,
                all_names@.len() == n,
                forall|t: int| 0 <= t < n ==> (#[trigger] all_names@[t])@ == systems.0@[t].name@,
                forall|t: int, u: int|
                    0 <= t < i && 0 <= u < systems.0@[t].deps@.len() ==> names_of(
                        systems.0@,
                    ).contains((#[trigger] systems.0@[t].deps@[u])@),
            decreases n - i,
        {
            let sys = &systems.0[i];
            let mut d: usize = 0;
            while d < sys.deps.len()
                invariant
                    d <= sys.deps@.len(),
                    n == systems.0@.len(),
                    orig == systems.0@,
                    i < n,
                    *sys == systems.0@[i as int],
                    all_names@.len() == n,
                    forall|t: int|
                        0 <= t < n ==> (#[trigger] all_names@[t])@ == systems.0@[t].name@,
                    forall|u: int|
                        0 <= u < d ==> names_of(systems.0@).contains(
                            (#[trigger] sys.deps@[u])@,
                        ),
                decreases sys.deps@.len() - d,
            {
                if !contains_name(&all_names, &sys.deps[d]) {
                    proof {
                        assert(!names_of(orig).contains(sys.deps@[d as int]@)) by {
                            if names_of(orig).contains(sys.deps@[d as int]@) {
                                let w = choose|w: int|
                                    0 <= w < names_of(orig).len() && names_of(orig)[w]
                                        == sys.deps@[d as int]@;
                                assert(names_of(orig)[w] == orig[w].name@);
                                assert(all_names@[w]@ == orig[w].name@);
                            }
                        }
                        assert(has_unknown_dep(orig));
                        lemma_unknown_dep_stalls(orig, Seq::empty(), i as int, d as int);
                    }
                    return Err(DispatcherError::UnknownDependency);
                }
                proof {
                    let w = choose|w: int|
                        0 <= w < all_names@.len() && all_names@[w]@ == sys.deps@[d as int]@;
                    assert(names_of(systems.0@)[w] == systems.0@[w].name@);
                }
                d += 1;
            }
            i += 1;
        }
        proof {
            assert(!has_unknown_dep(orig));
        }
        // Stage greedily.
        let mut remaining = systems.0;
        let mut placed: Vec<String> = Vec::new();
        let mut stages: Vec<Vec<System<F>>> = Vec::new();
        proof {
            assert(view_names(placed@) =~= Seq::<Seq<char>>::empty());
            assert(remaining@ == orig);
            match spec_stages(orig, Seq::<Seq<char>>::empty()) {
                Some(t) => {
                    assert(stage_views(stages@) + t =~= t);
                },
                None => {},
            }
        }
        while remaining.len() > 0
            invariant
                orig == systems.0@,
                !has_unknown_dep(orig),
                match spec_stages(remaining@, view_names(placed@)) {
                    Some(t) => spec_stages(orig, Seq::empty()) == Some(
                        stage_views(stages@) + t,
                    ),
                    None => spec_stages(orig, Seq::empty()) is None,
                },
            decreases remaining@.len(),
        {
            let ghost placed_spec = view_names(placed@);
            let ghost rem0 = remaining@;
            // Split the remaining systems by eligibility, keeping order.
            let mut stage: Vec<System<F>> = Vec::new();
            let mut rest: Vec<System<F>> = Vec::new();
            proof {
                assert(rem0.subrange(0, 0).filter(eligible_pred::<F>(placed_spec)) =~= Seq::empty())
                    by {
                    reveal(Seq::filter);
                }
                assert(rem0.subrange(0, 0).filter(blocked_pred::<F>(placed_spec)) =~= Seq::empty())
                    by {
                    reveal(Seq::filter);
                }
            }
            let ghost k: int = 0;
            while remaining.len() > 0
                invariant
                    0 <= k <= rem0.len(),
                    remaining@ == rem0.subrange(k, rem0.len() as int),
                    stage@ == rem0.subrange(0, k).filter(eligible_pred(placed_spec)),
                    rest@ == rem0.subrange(0, k).filter(blocked_pred(placed_spec)),
                    view_names(placed@) == placed_spec,
                decreases remaining@.len(),
            {
                let sys = remaining.remove(0);
                proof {
                    assert(sys == rem0[k]);
                    assert(remaining@ =~= rem0.subrange(k + 1, rem0.len() as int));
                    let p1 = rem0.subrange(0, k + 1);
                    assert(p1.drop_last() =~= rem0.subrange(0, k));
                    assert(p1.last() == rem0[k]);
                    reveal(Seq::filter);
                }
                if is_eligible(&sys, &placed) {
                    stage.push(sys);
                } else {
                    rest.push(sys);
                }
                proof {
                    k = k + 1;
                }
            }
            proof {
                assert(rem0.subrange(0, k) =~= rem0);
            }
            if stage.len() == 0 {
                // No system could be placed although some remain: with
                // unknown names refused above, this is a cycle.
                proof {
                    assert(rem0.filter(eligible_pred::<F>(placed_spec)).len() == 0);
                    assert(rem0.len() > 0);
                    assert(spec_stages(rem0, placed_spec) is None);
                }
                return Err(DispatcherError::CyclicDependency);
            }
            remaining = rest;
            // Record the new stage's names as placed.
            let m = stage.len();
            let mut j: usize = 0;
            proof {
                assert(view_names(placed@) + names_of(stage@.subrange(0, 0))
                    =~= placed_spec);
            }
            while j < m
                invariant
                    j <= m,
                    m == stage@.len(),
                    view_names(placed@) =~= placed_spec + names_of(
                        stage@.subrange(0, j as int),
                    ),
                decreases m - j,
            {
                let ghost oldp = placed@;
                proof {
                    assert(view_names(oldp).len() == oldp.len());
                    assert(names_of(stage@.subrange(0, j as int)).len() == j);
                    assert(oldp.len() == placed_spec.len() + j);
                }
                placed.push(stage[j].name.clone());
                proof {
                    assert(placed@ == oldp.push(stage@[j as int].name));
                    let rhs = placed_spec + names_of(stage@.subrange(0, j + 1));
                    assert(view_names(placed@).len() == rhs.len());
                    assert forall|t: int| 0 <= t < rhs.len() implies view_names(placed@)[t]
                        == rhs[t] by {
                        assert(view_names(placed@)[t] == placed@[t]@);
                        if t < placed_spec.len() {
                            assert(placed@[t] == oldp[t]);
                            assert(view_names(oldp)[t] == placed_spec[t]);
                        } else if t < placed_spec.len() + j {
                            let u = t - placed_spec.len();
                            assert(placed@[t] == oldp[t]);
                            assert(view_names(oldp)[t] == names_of(
                                stage@.subrange(0, j as int),
                            )[u]);
                            assert(names_of(stage@.subrange(0, j as int))[u] == stage@[u].name@);
                            assert(names_of(stage@.subrange(0, j + 1))[u] == stage@[u].name@);
                        } else {
                            assert(placed@[t] == stage@[j as int].name);
                            assert(names_of(stage@.subrange(0, j + 1))[j as int] == stage@[j as int].name@);
                        }
                    }
                    assert(view_names(placed@) =~= rhs);
                }
                j += 1;
            }
            proof {
                assert(stage@.subrange(0, m as int) =~= stage@);
                lemma_filter_partition(rem0, eligible_pred(placed_spec), blocked_pred(placed_spec));
            }
            let ghost old_stages = stage_views(stages@);
            stages.push(stage);
            proof {
                assert(stage_views(stages@) =~= old_stages.push(
                    rem0.filter(eligible_pred(placed_spec)),
                ));
                let st = rem0.filter(eligible_pred::<F>(placed_spec));
                let t2 = spec_stages(remaining@, placed_spec + names_of(st));
                match t2 {
                    Some(t) => {
                        assert(spec_stages(rem0, placed_spec) == Some(seq![st] + t));
                        assert(old_stages.push(st) + t =~= old_stages + (seq![st] + t));
                    },
                    None => {
                        assert(spec_stages(rem0, placed_spec) is None);
                    },
                }
            }
        }
        proof {
            assert(spec_stages(remaining@, view_names(placed@)) == Some(
                Seq::<Seq<System<F>>>::empty(),
            ));
            assert(stage_views(stages@) + Seq::<Seq<System<F>>>::empty()
                =~= stage_views(stages@));
        }
        Ok(Dispatcher(stages))
    }
}

impl<F> Dispatcher<F> {
    /// Runs every stage's systems in stage order against the world, each
    /// system once, and hands back the world they leave. Systems must
    /// accept any well-formed world and leave a well-formed one.
    #[verifier::loop_isolation(false)]
    pub fn dispatch<C>(&self, world: World<C>) -> (r: World<C>) where F: Fn(World<C>) -> World<C>
        requires
            world.wf(),
            forall|i: int, j: int, w: World<C>|
                0 <= i < self.stages().len() && 0 <= j < self.stages()[i].len() && w.wf()
                    ==> #[trigger] call_requires(self.stages()[i][j].run, (w,)),
            forall|i: int, j: int, w: World<C>, w2: World<C>|
                0 <= i < self.stages().len() && 0 <= j < self.stages()[i].len() && w.wf()
                    && #[trigger] call_ensures(self.stages()[i][j].run, (w,), w2) ==> w2.wf(),
        ensures
            r.wf(),
            exists|tr: Seq<World<C>>|
                #[trigger] dispatch_chain(flat_systems(self.stages()), world, r, tr),
    {
        let ghost w0 = world;
        let mut w = world;
        let ghost mut tr: Seq<World<C>> = seq![w0];
        proof {
            assert(flat_systems(stage_views(self.0@).subrange(0, 0)) =~= Seq::<System<F>>::empty());
        }
        let n = self.0.len();
        let mut i: usize = 0;
        while i < n
            invariant
                i <= n,
                w.wf(),
                dispatch_chain(flat_systems(stage_views(self.0@).subrange(0, i as int)), w0, w, tr),
            decreases n - i,
        {
            let stage = &self.0[i];
            let ghost flat_before = flat_systems(stage_views(self.0@).subrange(0, i as int));
            proof {
                assert(flat_before + self.0@[i as int]@.subrange(0, 0) =~= flat_before);
            }
            let m = stage.len();
            let mut j: usize = 0;
            while j < m
                invariant
                    j <= m,
                    w.wf(),
                    dispatch_chain(
                        flat_before + self.0@[i as int]@.subrange(0, j as int),
                        w0,
                        w,
                        tr,
                    ),
                decreases m - j,
            {
                let sys = &stage[j];
                let ghost prevw = w;
                let ghost chain_prefix = flat_before + self.0@[i as int]@.subrange(0, j as int);
                proof {
                    assert(*sys == self.stages()[i as int][j as int]);
                    assert(call_requires(self.stages()[i as int][j as int].run, (w,)));
                }
                w = (sys.run)(w);
                proof {
                    assert(call_ensures(self.stages()[i as int][j as int].run, (prevw,), w));
                    assert(w.wf());
                    tr = tr.push(w);
                    let chain_next = flat_before + self.0@[i as int]@.subrange(0, j + 1);
                    assert(self.0@[i as int]@.subrange(0, j + 1) =~= self.0@[i as int]@.subrange(
                        0,
                        j as int,
                    ).push(*sys));
                    assert(chain_next =~= chain_prefix.push(*sys));
                    assert(tr[chain_prefix.len() as int] == prevw);
                    assert forall|k: int| 0 <= k < chain_next.len() implies call_ensures(
                        (#[trigger] chain_next[k]).run,
                        (tr[k],),
                        tr[k + 1],
                    ) by {
                        if k < chain_prefix.len() {
                            assert(chain_next[k] == chain_prefix[k]);
                        } else {
                            assert(chain_next[k] == *sys);
                        }
                    }
                    assert(dispatch_chain(chain_next, w0, w, tr));
                }
                j += 1;
            }
            proof {
                let sub1 = stage_views(self.0@).subrange(0, i + 1);
                assert(sub1.drop_last() =~= stage_views(self.0@).subrange(0, i as int));
                assert(sub1.last() == self.0@[i as int]@);
                assert(self.0@[i as int]@.subrange(0, m as int) =~= self.0@[i as int]@);
                assert(flat_systems(sub1) == flat_before + self.0@[i as int]@);
            }
            i += 1;
        }
        proof {
            assert(stage_views(self.0@).subrange(0, n as int) =~= stage_views(self.0@));
            assert(dispatch_chain(flat_systems(self.stages()), w0, w, tr));
        }
        w
    }
}

/// Whether `name`'s text is among `v`'s.
fn contains_name(v: &Vec<String>, name: &String) -> (r: bool)
    ensures
        r == (exists|t: int| 0 <= t < v@.len() && (#[trigger] v@[t])@ == name@),
{
    let mut i: usize = 0;
    while i < v.len()
        invariant
            i <= v@.len(),
            forall|t: int| 0 <= t < i ==> (#[trigger] v@[t])@ != name@,
        decreases v@.len() - i,
    {
        if v[i] == *name {
            return true;
        }
        i += 1;
    }
    false
}

/// Whether every dependency of `sys` appears among `placed`'s names.
fn is_eligible<F>(sys: &System<F>, placed: &Vec<String>) -> (r: bool)
    ensures
        r == eligible(*sys, view_names(placed@)),
{
    let ghost placed_spec = view_names(placed@);
    let mut d: usize = 0;
    while d < sys.deps.len()
        invariant
            d <= sys.deps@.len(),
            view_names(placed@) == placed_spec,
            forall|t: int| 0 <= t < d ==> placed_spec.contains((#[trigger] sys.deps@[t])@),
        decreases sys.deps@.len() - d,
    {
        if !contains_name(placed, &sys.deps[d]) {
            proof {
                assert forall|t: int| 0 <= t < placed_spec.len() implies placed_spec[t]
                    != sys.deps@[d as int]@ by {
                    assert(placed@[t]@ == placed_spec[t]);
                }
                if placed_spec.contains(sys.deps@[d as int]@) {
                    let w = choose|w: int|
                        0 <= w < placed_spec.len() && placed_spec[w] == sys.deps@[d as int]@;
                }
            }
            return false;
        }
        proof {
            let w = choose|w: int|
                0 <= w < placed@.len() && placed@[w]@ == sys.deps@[d as int]@;
            assert(placed_spec[w] == placed@[w]@);
        }
        d += 1;
    }
    true
}

} // verus!
