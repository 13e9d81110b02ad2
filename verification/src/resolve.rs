//! Dependency and dependant resolution.
//!
//! [`resolve_deps`] walks a package's declared dependencies depth-first,
//! post-order, with a visited set, yielding a safe installation order:
//! dependencies before dependents, the package itself last, each distinct
//! dependency exactly once. A cyclic graph terminates (the visited set
//! prevents re-entry), but only on an acyclic graph is the order a true
//! topological sort; the lemmas at the end state that guarantee.

use vstd::prelude::*;

use crate::package::{has_pkg, lookup, names_of, view_in, Package};

verus! {

/// The dependency names of the record of `n`: what the store declares, or
/// nothing for a name the store does not know.
pub open spec fn sdeps(pkgs: Seq<Package>, n: Seq<char>) -> Seq<Seq<char>> {
    match lookup(pkgs, n) {
        Option::Some(p) => p@.deps,
        Option::None => Seq::empty(),
    }
}

/// `a`'s record declares a dependency on `b`.
pub open spec fn edge(pkgs: Seq<Package>, a: Seq<char>, b: Seq<char>) -> bool {
    sdeps(pkgs, a).contains(b)
}

/// `b` can be reached from `a` along at most `k` dependency edges (at least
/// one).
pub open spec fn reach(pkgs: Seq<Package>, a: Seq<char>, b: Seq<char>, k: nat) -> bool
    decreases k,
{
    k > 0 && (edge(pkgs, a, b) || exists|m: Seq<char>|
        edge(pkgs, a, m) && reach(pkgs, m, b, (k - 1) as nat))
}

/// `a` depends on `b`, directly or transitively.
pub open spec fn reaches(pkgs: Seq<Package>, a: Seq<char>, b: Seq<char>) -> bool {
    exists|k: nat| reach(pkgs, a, b, k)
}

/// No name depends on itself, directly or transitively.
pub open spec fn acyclic(pkgs: Seq<Package>) -> bool {
    forall|n: Seq<char>| !reaches(pkgs, n, n)
}

/// Every declared dependency of every record has a record of its own.
pub open spec fn closed(pkgs: Seq<Package>) -> bool {
    forall|i: int, d: Seq<char>|
        0 <= i < pkgs.len() && pkgs[i]@.deps.contains(d) ==> has_pkg(pkgs, d)
}

/// `p` carries exactly what the store holds under its name.
pub open spec fn current(pkgs: Seq<Package>, p: Package) -> bool {
    match lookup(pkgs, p@.name) {
        Option::Some(q) => q@ == p@,
        Option::None => false,
    }
}

/// No name appears twice.
pub open spec fn distinct_seqs(ns: Seq<Seq<char>>) -> bool {
    forall|i: int, j: int| 0 <= i < j < ns.len() ==> ns[i] != ns[j]
}

/// Every member's declared dependencies stand earlier in the list: the order
/// is safe for installation.
pub open spec fn ordered_names(pkgs: Seq<Package>, ns: Seq<Seq<char>>) -> bool {
    forall|i: int, d: Seq<char>|
        0 <= i < ns.len() && #[trigger] sdeps(pkgs, ns[i]).contains(d) ==> ns.take(i).contains(d)
}

/// The names of the whole store, as a set.
pub open spec fn store_names(pkgs: Seq<Package>) -> Set<Seq<char>> {
    names_of(pkgs).to_set()
}

/// A step appended to a path is still a path.
pub proof fn lemma_reach_extend(pkgs: Seq<Package>, a: Seq<char>, b: Seq<char>, c: Seq<char>, k: nat)
    requires
        reach(pkgs, a, b, k),
        edge(pkgs, b, c),
    ensures
        reach(pkgs, a, c, k + 1),
    decreases k,
{
    if edge(pkgs, a, b) {
        assert(reach(pkgs, b, c, 1));
        assert(edge(pkgs, a, b) && reach(pkgs, b, c, (k + 1 - 1) as nat)) by {
            lemma_reach_widen(pkgs, b, c, 1, k as nat);
        }
    } else {
        let m = choose|m: Seq<char>| edge(pkgs, a, m) && reach(pkgs, m, b, (k - 1) as nat);
        lemma_reach_extend(pkgs, m, b, c, (k - 1) as nat);
    }
}

/// A bound on path length can be relaxed.
pub proof fn lemma_reach_widen(pkgs: Seq<Package>, a: Seq<char>, b: Seq<char>, k1: nat, k2: nat)
    requires
        reach(pkgs, a, b, k1),
        k1 <= k2,
    ensures
        reach(pkgs, a, b, k2),
    decreases k1,
{
    if !edge(pkgs, a, b) {
        let m = choose|m: Seq<char>| edge(pkgs, a, m) && reach(pkgs, m, b, (k1 - 1) as nat);
        lemma_reach_widen(pkgs, m, b, (k1 - 1) as nat, (k2 - 1) as nat);
    }
}

} // verus!

verus! {

/// Appending a fresh element keeps a list duplicate-free.
pub proof fn lemma_push_distinct(s: Seq<Seq<char>>, x: Seq<char>)
    requires
        distinct_seqs(s),
        !s.contains(x),
    ensures
        distinct_seqs(s.push(x)),
{
    assert forall|i: int, j: int| 0 <= i < j < s.push(x).len() implies s.push(x)[i] != s.push(
        x,
    )[j] by {
        if j == s.len() {
            assert(s[i] == s.push(x)[i]);
            assert(s.contains(s[i]));
        }
    }
}

/// Depth-first post-order walk from `p`. Names already in `resolved` are not
/// entered again; every newly entered dependency is recorded in `resolved`
/// and, once its own dependencies are done, appended to `order`; `p`'s own
/// name comes last. `anc` holds the names entered but not yet emitted (the
/// chain of ancestors, `p` included); `strong` carries the facts that hold
/// only when the store is acyclic and `p` is one of its records.
#[verifier::rlimit(60)]
fn deep_deps(
    p: &Package,
    pkgs: &Vec<Package>,
    resolved: &mut Vec<String>,
    order: &mut Vec<String>,
    anc: Ghost<Set<Seq<char>>>,
    strong: Ghost<bool>,
    unvisited: Ghost<Set<Seq<char>>>,
)
    requires
        unvisited@ == store_names(pkgs@).difference(old(resolved).deep_view().to_set()),
        anc@.contains(p@.name),
        old(resolved).deep_view().to_set() == old(order).deep_view().to_set().union(anc@),
        distinct_seqs(old(order).deep_view()),
        old(order).deep_view().to_set().intersect(anc@) == Set::<Seq<char>>::empty(),
        strong@ ==> acyclic(pkgs@),
        strong@ ==> current(pkgs@, *p),
        strong@ ==> ordered_names(pkgs@, old(order).deep_view()),
        strong@ ==> forall|a: Seq<char>| #[trigger]
            anc@.contains(a) ==> a == p@.name || reaches(pkgs@, a, p@.name),
    ensures
        final(order)@.len() > old(order)@.len(),
        final(order).deep_view().take(old(order)@.len() as int) == old(order).deep_view(),
        final(order).deep_view().last() == p@.name,
        distinct_seqs(final(order).deep_view()),
        final(resolved).deep_view().to_set() == final(order).deep_view().to_set().union(anc@),
        old(resolved).deep_view().to_set().subset_of(final(resolved).deep_view().to_set()),
        final(order).deep_view().to_set().subset_of(
            old(order).deep_view().to_set().insert(p@.name).union(
                final(resolved).deep_view().to_set().difference(
                    old(resolved).deep_view().to_set(),
                ),
            ),
        ),
        strong@ ==> ordered_names(pkgs@, final(order).deep_view()),
        strong@ ==> forall|jj: int|
            old(order)@.len() <= jj < final(order)@.len()
                ==> #[trigger] final(order).deep_view()[jj] == p@.name || reaches(
                pkgs@,
                p@.name,
                final(order).deep_view()[jj],
            ),
    decreases unvisited@.len(),
{
    broadcast use vstd::seq_lib::seq_to_set_is_finite;

    let ghost v_entry = resolved.deep_view().to_set();
    let ghost o_entry = order.deep_view();
    let n = p.deps.len();
    let mut j: usize = 0;
    while j < n
        invariant
            n == p@.deps.len(),
            j <= n,
            unvisited@ == store_names(pkgs@).difference(v_entry),
            anc@.contains(p@.name),
            resolved.deep_view().to_set() == order.deep_view().to_set().union(anc@),
            distinct_seqs(order.deep_view()),
            order.deep_view().to_set().intersect(anc@) == Set::<Seq<char>>::empty(),
            v_entry.subset_of(resolved.deep_view().to_set()),
            o_entry.len() <= order.deep_view().len(),
            order.deep_view().take(o_entry.len() as int) == o_entry,
            order.deep_view().to_set().subset_of(
                o_entry.to_set().union(resolved.deep_view().to_set().difference(v_entry)),
            ),
            strong@ ==> acyclic(pkgs@),
            strong@ ==> current(pkgs@, *p),
            strong@ ==> ordered_names(pkgs@, order.deep_view()),
            strong@ ==> forall|a: Seq<char>| #[trigger]
                anc@.contains(a) ==> a == p@.name || reaches(pkgs@, a, p@.name),
            strong@ ==> forall|k: int|
                0 <= k < j ==> order.deep_view().to_set().contains(#[trigger] p@.deps[k]),
            strong@ ==> forall|jj: int|
                o_entry.len() <= jj < order.deep_view().len() ==> reaches(
                    pkgs@,
                    p@.name,
                    #[trigger] order.deep_view()[jj],
                ),
        decreases n - j,
    {
        let dep = &p.deps[j];
        assert(dep@ == p@.deps[j as int]);
        let ghost v_loop = resolved.deep_view().to_set();
        let ghost o_loop = order.deep_view();
        if !crate::text::contains_string(resolved, dep) {
            proof {
                assert(!v_loop.contains(dep@));
                assert(!o_loop.to_set().contains(dep@));
                assert(!o_loop.contains(dep@));
                assert(!anc@.contains(dep@));
            }
            let ghost r_seq = resolved.deep_view();
            resolved.push(dep.clone());
            proof {
                assert(resolved.deep_view() =~= r_seq.push(dep@));
                crate::text::lemma_push_to_set(r_seq, dep@);
                assert(resolved.deep_view().to_set() == v_loop.insert(dep@));
            }
            match crate::package::find_package(pkgs, dep) {
                Some(i) => {
                    let d = pkgs[i].clone();
                    proof {
                        // the store knows this name, so entering it shrinks
                        // the set of unvisited store names
                        assert(names_of(pkgs@)[i as int] == dep@);
                        assert(names_of(pkgs@).contains(dep@));
                        assert(store_names(pkgs@).contains(dep@));
                        vstd::set_lib::lemma_len_subset(
                            store_names(pkgs@).difference(v_entry),
                            store_names(pkgs@),
                        );
                        assert(store_names(pkgs@).difference(v_loop.insert(dep@)).subset_of(
                            store_names(pkgs@).difference(v_entry),
                        ));
                        assert(store_names(pkgs@).difference(v_entry).contains(dep@));
                        store_names(pkgs@).difference(v_loop.insert(dep@)).lemma_subset_not_in_lt(
                            store_names(pkgs@).difference(v_entry),
                            dep@,
                        );
                        assert(d@.name == dep@);
                        if strong@ {
                            assert(lookup(pkgs@, dep@) == Option::Some(pkgs@[i as int]));
                            assert(current(pkgs@, d));
                            assert(sdeps(pkgs@, p@.name) == p@.deps);
                            assert(sdeps(pkgs@, p@.name).contains(dep@));
                            assert(edge(pkgs@, p@.name, dep@));
                            assert(reach(pkgs@, p@.name, dep@, 1));
                            assert forall|a: Seq<char>| #[trigger]
                                anc@.insert(dep@).contains(a) implies a == dep@ || reaches(
                                pkgs@,
                                a,
                                dep@,
                            ) by {
                                if a != dep@ {
                                    assert(anc@.contains(a));
                                    if a == p@.name {
                                        assert(reaches(pkgs@, a, dep@));
                                    } else {
                                        let k = choose|k: nat| reach(pkgs@, a, p@.name, k);
                                        lemma_reach_extend(pkgs@, a, p@.name, dep@, k);
                                        assert(reaches(pkgs@, a, dep@));
                                    }
                                }
                            }
                        }
                        assert(resolved.deep_view().to_set() =~= order.deep_view().to_set().union(
                            anc@.insert(dep@),
                        ));
                        assert(order.deep_view().to_set().intersect(anc@.insert(dep@)) =~= Set::<
                            Seq<char>,
                        >::empty());
                    }
                    let ghost v_call = resolved.deep_view().to_set();
                    proof {
                        assert(store_names(pkgs@).difference(v_call).len() < store_names(
                            pkgs@,
                        ).difference(v_entry).len());
                        assert(store_names(pkgs@).difference(v_call).len() < unvisited@.len());
                    }
                    deep_deps(
                        &d,
                        pkgs,
                        resolved,
                        order,
                        Ghost(anc@.insert(dep@)),
                        strong,
                        Ghost(store_names(pkgs@).difference(v_call)),
                    );
                    proof {
                        let o_new = order.deep_view();
                        let v_new = resolved.deep_view().to_set();
                        assert(o_new[o_new.len() - 1] == dep@);
                        assert(o_new.contains(dep@));
                        assert(o_new.to_set().contains(dep@));
                        // the visited set splits again over the caller's open names
                        assert(resolved.deep_view().to_set() =~= o_new.to_set().union(anc@));
                        // nothing emitted lies among the caller's open names
                        assert(o_new.to_set().subset_of(
                            o_loop.to_set().insert(dep@).union(v_new.difference(v_call)),
                        ));
                        assert forall|x: Seq<char>| o_new.to_set().contains(x) && anc@.contains(
                            x,
                        ) implies false by {
                            if o_loop.to_set().contains(x) {
                                assert(o_loop.to_set().intersect(anc@).contains(x));
                            } else if x == dep@ {
                                assert(!anc@.contains(dep@));
                            } else {
                                assert(v_new.difference(v_call).contains(x));
                                assert(v_loop == o_loop.to_set().union(anc@));
                                assert(v_loop.contains(x));
                                assert(v_loop.subset_of(v_call));
                                assert(v_call.contains(x));
                            }
                        }
                        assert(o_new.to_set().intersect(anc@) =~= Set::<Seq<char>>::empty());
                        // the entry prefix is still in place
                        crate::text::lemma_take_take(o_new, o_entry.len() as int, o_loop.len() as int);
                        assert(o_new.take(o_entry.len() as int) == o_entry);
                        // provenance relative to the entry state
                        assert forall|x: Seq<char>| o_new.to_set().contains(x) implies o_entry
                            .to_set().union(v_new.difference(v_entry)).contains(x) by {
                            assert(o_new.to_set().subset_of(
                                o_loop.to_set().insert(dep@).union(v_new.difference(v_call)),
                            ));
                            if o_loop.to_set().contains(x) {
                                assert(o_loop.to_set().subset_of(
                                    o_entry.to_set().union(v_loop.difference(v_entry)),
                                ));
                                assert(v_loop.subset_of(v_new));
                            } else if x == dep@ {
                                assert(v_new.contains(dep@));
                                assert(!v_entry.contains(dep@));
                            } else {
                                assert(v_new.difference(v_call).contains(x));
                                assert(v_entry.subset_of(v_call));
                            }
                        }
                        if strong@ {
                            crate::text::lemma_prefix_contains(o_loop, o_new);
                            assert forall|k: int| 0 <= k < j + 1 implies o_new.to_set().contains(
                                #[trigger] p@.deps[k],
                            ) by {
                                if k < j {
                                    assert(o_loop.to_set().contains(p@.deps[k]));
                                }
                            }
                            assert forall|jj: int|
                                o_entry.len() <= jj < o_new.len() implies reaches(
                                pkgs@,
                                p@.name,
                                #[trigger] o_new[jj],
                            ) by {
                                if jj < o_loop.len() {
                                    assert(o_new[jj] == o_new.take(o_loop.len() as int)[jj]);
                                    assert(o_new[jj] == o_loop[jj]);
                                } else {
                                    let x = o_new[jj];
                                    assert(x == d@.name || reaches(pkgs@, d@.name, x));
                                    if x == d@.name {
                                        assert(reach(pkgs@, p@.name, x, 1));
                                        assert(reaches(pkgs@, p@.name, x));
                                    } else {
                                        let k = choose|k: nat| reach(pkgs@, dep@, x, k);
                                        assert(edge(pkgs@, p@.name, dep@) && reach(
                                            pkgs@,
                                            dep@,
                                            x,
                                            k,
                                        ));
                                        assert(reach(pkgs@, p@.name, x, k + 1));
                                        assert(reaches(pkgs@, p@.name, x));
                                    }
                                }
                            }
                        }
                    }
                },
                None => {
                    proof {
                        crate::package::lemma_lookup_props(pkgs@, dep@);
                        assert(lookup(pkgs@, dep@) == Option::<Package>::None);
                        assert(sdeps(pkgs@, dep@) =~= Seq::<Seq<char>>::empty());
                    }
                    let ghost o_pre = order.deep_view();
                    order.push(dep.clone());
                    proof {
                        assert(order.deep_view() =~= o_pre.push(dep@));
                        crate::text::lemma_push_to_set(o_pre, dep@);
                        lemma_push_distinct(o_pre, dep@);
                        let o_new = order.deep_view();
                        let v_new = resolved.deep_view().to_set();
                        assert(v_new =~= o_new.to_set().union(anc@));
                        assert(o_new.to_set().intersect(anc@) =~= Set::<Seq<char>>::empty());
                        assert(o_new.take(o_entry.len() as int) =~= o_entry);
                        assert forall|x: Seq<char>| o_new.to_set().contains(x) implies o_entry
                            .to_set().union(v_new.difference(v_entry)).contains(x) by {
                            if o_pre.to_set().contains(x) {
                                assert(o_pre.to_set().subset_of(
                                    o_entry.to_set().union(v_loop.difference(v_entry)),
                                ));
                            } else {
                                assert(x == dep@);
                                assert(v_new.contains(dep@) && !v_entry.contains(dep@));
                            }
                        }
                        if strong@ {
                            assert forall|ii: int, dd: Seq<char>|
                                0 <= ii < o_new.len() && #[trigger] sdeps(pkgs@, o_new[ii])
                                    .contains(dd) implies o_new.take(ii).contains(dd) by {
                                if ii < o_pre.len() {
                                    assert(o_new[ii] == o_pre[ii]);
                                    assert(o_pre.take(ii).contains(dd));
                                    assert(o_new.take(ii) =~= o_pre.take(ii));
                                } else {
                                    assert(o_new[ii] == dep@);
                                    assert(sdeps(pkgs@, dep@).len() == 0);
                                }
                            }
                            assert(o_new.to_set().contains(dep@));
                            assert forall|jj: int|
                                o_entry.len() <= jj < o_new.len() implies reaches(
                                pkgs@,
                                p@.name,
                                #[trigger] o_new[jj],
                            ) by {
                                if jj < o_pre.len() {
                                    assert(o_new[jj] == o_pre[jj]);
                                } else {
                                    assert(o_new[jj] == dep@);
                                    assert(sdeps(pkgs@, p@.name) == p@.deps);
                                    assert(edge(pkgs@, p@.name, dep@));
                                    assert(reach(pkgs@, p@.name, dep@, 1));
                                }
                            }
                        }
                    }
                },
            }
        } else {
            proof {
                if strong@ {
                    assert(v_loop.contains(dep@));
                    if anc@.contains(dep@) {
                        assert(sdeps(pkgs@, p@.name) == p@.deps);
                        assert(sdeps(pkgs@, p@.name).contains(dep@));
                        assert(edge(pkgs@, p@.name, dep@));
                        if dep@ == p@.name {
                            assert(reach(pkgs@, p@.name, p@.name, 1));
                            assert(reaches(pkgs@, p@.name, p@.name));
                            assert(false);
                        } else {
                            assert(reaches(pkgs@, dep@, p@.name));
                            let k = choose|k: nat| reach(pkgs@, dep@, p@.name, k);
                            lemma_reach_extend(pkgs@, dep@, p@.name, dep@, k);
                            assert(reaches(pkgs@, dep@, dep@));
                            assert(false);
                        }
                    }
                    assert(o_loop.to_set().contains(dep@));
                }
            }
        }
        j = j + 1;
    }
    let ghost o_end = order.deep_view();
    let ghost v_end = resolved.deep_view().to_set();
    order.push(p.name.clone());
    proof {
        assert(order.deep_view() =~= o_end.push(p@.name));
        crate::text::lemma_push_to_set(o_end, p@.name);
        let o_fin = order.deep_view();
        assert(!o_end.to_set().contains(p@.name)) by {
            if o_end.to_set().contains(p@.name) {
                assert(o_end.to_set().intersect(anc@).contains(p@.name));
            }
        }
        assert(!o_end.contains(p@.name));
        lemma_push_distinct(o_end, p@.name);
        assert(v_end =~= o_fin.to_set().union(anc@));
        assert(o_fin.take(o_entry.len() as int) =~= o_entry);
        assert(o_fin.last() == p@.name);
        assert forall|x: Seq<char>| o_fin.to_set().contains(x) implies o_entry.to_set().insert(
            p@.name,
        ).union(v_end.difference(v_entry)).contains(x) by {
            if x != p@.name {
                assert(o_end.to_set().contains(x));
                assert(o_end.to_set().subset_of(
                    o_entry.to_set().union(v_end.difference(v_entry)),
                ));
            }
        }
        if strong@ {
            assert forall|ii: int, dd: Seq<char>|
                0 <= ii < o_fin.len() && #[trigger] sdeps(pkgs@, o_fin[ii]).contains(dd)
                implies o_fin.take(ii).contains(dd) by {
                if ii < o_end.len() {
                    assert(o_fin[ii] == o_end[ii]);
                    assert(o_end.take(ii).contains(dd));
                    assert(o_fin.take(ii) =~= o_end.take(ii));
                } else {
                    assert(o_fin[ii] == p@.name);
                    assert(sdeps(pkgs@, p@.name) == p@.deps);
                    let k = choose|k: int| 0 <= k < p@.deps.len() && p@.deps[k] == dd;
                    assert(o_end.to_set().contains(dd));
                    assert(o_end.contains(dd));
                    let w = choose|w: int| 0 <= w < o_end.len() && o_end[w] == dd;
                    assert(o_fin.take(ii)[w] == o_end[w]);
                    assert(o_fin.take(ii).contains(dd));
                }
            }
            assert forall|jj: int| o_entry.len() <= jj < o_fin.len() implies #[trigger] o_fin[jj]
                == p@.name || reaches(pkgs@, p@.name, o_fin[jj]) by {
                if jj < o_end.len() {
                    assert(o_fin[jj] == o_end[jj]);
                }
            }
        }
    }
}

} // verus!

verus! {

/// How often `x` appears.
pub open spec fn count_of(ns: Seq<Seq<char>>, x: Seq<char>) -> nat
    decreases ns.len(),
{
    if ns.len() == 0 {
        0
    } else {
        count_of(ns.drop_last(), x) + (if ns.last() == x {
            1nat
        } else {
            0nat
        })
    }
}

/// In a duplicate-free list, a member appears exactly once.
pub proof fn lemma_distinct_count(ns: Seq<Seq<char>>, x: Seq<char>)
    requires
        distinct_seqs(ns),
    ensures
        ns.contains(x) ==> count_of(ns, x) == 1,
        !ns.contains(x) ==> count_of(ns, x) == 0,
    decreases ns.len(),
{
    if ns.len() > 0 {
        let pre = ns.drop_last();
        assert(distinct_seqs(pre)) by {
            assert(forall|i: int| 0 <= i < pre.len() ==> pre[i] == ns[i]);
        }
        lemma_distinct_count(pre, x);
        if ns.last() == x {
            assert(!pre.contains(x)) by {
                if pre.contains(x) {
                    let w = choose|w: int| 0 <= w < pre.len() && pre[w] == x;
                    assert(ns[w] == x && ns[ns.len() - 1] == x);
                }
            }
        } else {
            if ns.contains(x) {
                let w = choose|w: int| 0 <= w < ns.len() && ns[w] == x;
                assert(pre[w] == x);
            } else {
                assert(!pre.contains(x)) by {
                    if pre.contains(x) {
                        let w = choose|w: int| 0 <= w < pre.len() && pre[w] == x;
                        assert(ns[w] == x);
                    }
                }
            }
        }
    }
}

/// In a dependency-safe list, whatever a member reaches is also a member:
/// the resolver's output is complete for its transitive dependencies.
pub proof fn lemma_ordered_complete(
    pkgs: Seq<Package>,
    ns: Seq<Seq<char>>,
    a: Seq<char>,
    b: Seq<char>,
    k: nat,
)
    requires
        ordered_names(pkgs, ns),
        ns.contains(a),
        reach(pkgs, a, b, k),
    ensures
        ns.contains(b),
    decreases k,
{
    let i = choose|i: int| 0 <= i < ns.len() && ns[i] == a;
    if edge(pkgs, a, b) {
        assert(sdeps(pkgs, ns[i]).contains(b));
        assert(ns.take(i).contains(b));
        let w = choose|w: int| 0 <= w < i && ns.take(i)[w] == b;
        assert(ns[w] == b);
    } else {
        let m = choose|m: Seq<char>| edge(pkgs, a, m) && reach(pkgs, m, b, (k - 1) as nat);
        assert(sdeps(pkgs, ns[i]).contains(m));
        assert(ns.take(i).contains(m));
        let w = choose|w: int| 0 <= w < i && ns.take(i)[w] == m;
        assert(ns[w] == m);
        lemma_ordered_complete(pkgs, ns, m, b, (k - 1) as nat);
    }
}

/// In a duplicate-free, dependency-safe list over an acyclic store, whatever
/// a member transitively depends on stands strictly before it.
pub proof fn lemma_order_precedes(
    pkgs: Seq<Package>,
    ns: Seq<Seq<char>>,
    a: Seq<char>,
    b: Seq<char>,
    k: nat,
)
    requires
        ordered_names(pkgs, ns),
        distinct_seqs(ns),
        acyclic(pkgs),
        ns.contains(a),
        reach(pkgs, a, b, k),
    ensures
        ns.contains(b),
        forall|i: int, j: int|
            0 <= i < ns.len() && 0 <= j < ns.len() && ns[i] == b && ns[j] == a ==> i < j,
    decreases k,
{
    lemma_ordered_complete(pkgs, ns, a, b, k);
    if a == b {
        assert(reaches(pkgs, a, a));
        assert(false);
    }
    if edge(pkgs, a, b) {
        assert forall|i: int, j: int|
            0 <= i < ns.len() && 0 <= j < ns.len() && ns[i] == b && ns[j] == a implies i < j by {
            assert(sdeps(pkgs, ns[j]).contains(b));
            assert(ns.take(j).contains(b));
            let w = choose|w: int| 0 <= w < j && ns.take(j)[w] == b;
            assert(ns[w] == b);
            assert(w == i);
        }
    } else {
        let m = choose|m: Seq<char>| edge(pkgs, a, m) && reach(pkgs, m, b, (k - 1) as nat);
        let j0 = choose|j0: int| 0 <= j0 < ns.len() && ns[j0] == a;
        assert(sdeps(pkgs, ns[j0]).contains(m));
        assert(ns.take(j0).contains(m));
        let w = choose|w: int| 0 <= w < j0 && ns.take(j0)[w] == m;
        assert(ns[w] == m);
        assert(ns.contains(m));
        lemma_order_precedes(pkgs, ns, m, b, (k - 1) as nat);
        assert forall|i: int, j: int|
            0 <= i < ns.len() && 0 <= j < ns.len() && ns[i] == b && ns[j] == a implies i < j by {
            assert(sdeps(pkgs, ns[j]).contains(m));
            assert(ns.take(j).contains(m));
            let wm = choose|wm: int| 0 <= wm < j && ns.take(j)[wm] == m;
            assert(ns[wm] == m);
            assert(i < wm);
        }
    }
}

/// A dependency shared by several packages — the diamond shape — still
/// appears exactly once in a duplicate-free, dependency-safe resolution.
pub proof fn lemma_shared_dependency_once(
    pkgs: Seq<Package>,
    ns: Seq<Seq<char>>,
    root: Seq<char>,
    x: Seq<char>,
    k: nat,
)
    requires
        ordered_names(pkgs, ns),
        distinct_seqs(ns),
        ns.contains(root),
        reach(pkgs, root, x, k),
    ensures
        count_of(ns, x) == 1,
{
    lemma_ordered_complete(pkgs, ns, root, x, k);
    lemma_distinct_count(ns, x);
}

/// Under a dependency-closed store, whatever a known name reaches is a known
/// name.
pub proof fn lemma_reach_target_known(
    pkgs: Seq<Package>,
    a: Seq<char>,
    b: Seq<char>,
    k: nat,
)
    requires
        closed(pkgs),
        reach(pkgs, a, b, k),
    ensures
        has_pkg(pkgs, b),
    decreases k,
{
    if edge(pkgs, a, b) {
        let p = lookup(pkgs, a).unwrap();
        crate::package::lemma_lookup_props(pkgs, a);
        assert(pkgs.contains(p));
        let i = choose|i: int| 0 <= i < pkgs.len() && pkgs[i] == p;
        assert(pkgs[i]@.deps.contains(b));
    } else {
        let m = choose|m: Seq<char>| edge(pkgs, a, m) && reach(pkgs, m, b, (k - 1) as nat);
        lemma_reach_target_known(pkgs, m, b, (k - 1) as nat);
    }
}

} // verus!

verus! {

/// Resolve `pkg`'s full transitive dependency closure into a safe
/// install/update order: dependencies before dependents, each distinct
/// dependency once, `pkg` itself last. Dependency names the store does not
/// know are skipped. A cyclic graph terminates, but only over an acyclic,
/// dependency-closed store that holds `pkg` is the result a complete
/// topological order (the final clause); [`lemma_order_precedes`] and
/// [`lemma_shared_dependency_once`] turn that clause into the pairwise
/// ordering and exactly-once guarantees.
#[verifier::rlimit(30)]
pub fn resolve_deps(pkg: &Package, pkglist: &Vec<Package>) -> (r: Vec<Package>)
    ensures
        r@.len() >= 1,
        r@.last()@.name == pkg@.name,
        distinct_seqs(names_of(r@)),
        forall|i: int| 0 <= i < r@.len() ==> current(pkglist@, #[trigger] r@[i]) || r@[i]@ == pkg@,
        (acyclic(pkglist@) && closed(pkglist@) && current(pkglist@, *pkg)) ==> ordered_names(
            pkglist@,
            names_of(r@),
        ) && (forall|b: Seq<char>|
            reaches(pkglist@, pkg@.name, b) ==> names_of(r@).contains(b)) && names_of(
            r@,
        ).contains(pkg@.name) && (forall|i: int|
            0 <= i < r@.len() ==> (#[trigger] r@[i])@.name == pkg@.name || reaches(
                pkglist@,
                pkg@.name,
                r@[i]@.name,
            )),
{
    broadcast use vstd::seq_lib::seq_to_set_is_finite;

    let mut resolved: Vec<String> = Vec::new();
    resolved.push(pkg.name.clone());
    let mut order: Vec<String> = Vec::new();
    let ghost strongv = acyclic(pkglist@) && current(pkglist@, *pkg);
    let ghost anc = Set::<Seq<char>>::empty().insert(pkg@.name);
    proof {
        assert(resolved.deep_view() =~= Seq::<Seq<char>>::empty().push(pkg@.name));
        crate::text::lemma_push_to_set(Seq::<Seq<char>>::empty(), pkg@.name);
        assert(Seq::<Seq<char>>::empty().to_set() =~= Set::<Seq<char>>::empty());
        assert(resolved.deep_view().to_set() =~= order.deep_view().to_set().union(anc));
        assert(order.deep_view().to_set().intersect(anc) =~= Set::<Seq<char>>::empty());
    }
    let ghost unv = store_names(pkglist@).difference(resolved.deep_view().to_set());
    deep_deps(pkg, pkglist, &mut resolved, &mut order, Ghost(anc), Ghost(strongv), Ghost(unv));
    let ghost ons = order.deep_view();
    proof {
        assert(ons.last() == pkg@.name);
        assert(ons.contains(pkg@.name));
    }
    let mut r: Vec<Package> = Vec::new();
    let n = order.len();
    let mut i: usize = 0;
    while i < n
        invariant
            n == ons.len(),
            ons == order.deep_view(),
            strongv == (acyclic(pkglist@) && current(pkglist@, *pkg)),
            i <= n,
            ons.last() == pkg@.name,
            distinct_seqs(ons),
            distinct_seqs(names_of(r@)),
            forall|x: Seq<char>| names_of(r@).contains(x) ==> ons.take(i as int).contains(x),
            forall|k: int| 0 <= k < r@.len() ==> current(pkglist@, #[trigger] r@[k]) || r@[k]@
                == pkg@,
            i == n ==> r@.len() >= 1 && r@.last()@.name == pkg@.name,
            strongv ==> forall|jj: int|
                0 <= jj < ons.len() ==> #[trigger] ons[jj] == pkg@.name || reaches(
                    pkglist@,
                    pkg@.name,
                    ons[jj],
                ),
            (strongv && closed(pkglist@)) ==> names_of(r@) == ons.take(i as int),
        decreases n - i,
    {
        let nm = &order[i];
        assert(nm@ == ons[i as int]);
        let ghost rnames = names_of(r@);
        match crate::package::find_package(pkglist, nm) {
            Some(idx) => {
                r.push(pkglist[idx].clone());
                proof {
                    assert(names_of(r@) =~= rnames.push(ons[i as int]));
                    assert(!rnames.contains(ons[i as int])) by {
                        if rnames.contains(ons[i as int]) {
                            assert(ons.take(i as int).contains(ons[i as int]));
                            let w = choose|w: int|
                                0 <= w < i && ons.take(i as int)[w] == ons[i as int];
                            assert(ons[w] == ons[i as int]);
                        }
                    }
                    lemma_push_distinct(rnames, ons[i as int]);
                    assert forall|x: Seq<char>| names_of(r@).contains(x) implies ons.take(
                        i + 1,
                    ).contains(x) by {
                        if rnames.contains(x) {
                            let w = choose|w: int| 0 <= w < rnames.len() && rnames[w] == x;
                            assert(ons.take(i as int)[
                                choose|w2: int| 0 <= w2 < i && ons.take(i as int)[w2] == x
                            ] == x);
                            let w2 = choose|w2: int| 0 <= w2 < i && ons.take(i as int)[w2] == x;
                            assert(ons.take(i + 1)[w2] == x);
                        } else {
                            assert(x == ons[i as int]);
                            assert(ons.take(i + 1)[i as int] == x);
                        }
                    }
                    assert(current(pkglist@, pkglist@[idx as int])) by {
                        assert(lookup(pkglist@, nm@) == Option::Some(pkglist@[idx as int]));
                    }
                    assert(r@.last()@ == pkglist@[idx as int]@);
                    if i + 1 == n {
                        assert(r@.last()@.name == pkg@.name);
                    }
                    if strongv && closed(pkglist@) {
                        assert(names_of(r@) =~= ons.take(i + 1));
                    }
                }
            },
            None => {
                if i + 1 == n {
                    // the requested package itself has no store record: hand
                    // back the argument
                    r.push(pkg.clone());
                    proof {
                        assert(names_of(r@) =~= rnames.push(pkg@.name));
                        assert(ons[i as int] == pkg@.name);
                        assert(!rnames.contains(pkg@.name)) by {
                            if rnames.contains(pkg@.name) {
                                assert(ons.take(i as int).contains(pkg@.name));
                                let w = choose|w: int|
                                    0 <= w < i && ons.take(i as int)[w] == pkg@.name;
                                assert(ons[w] == pkg@.name);
                                assert(ons[n - 1] == pkg@.name);
                            }
                        }
                        lemma_push_distinct(rnames, pkg@.name);
                        assert forall|x: Seq<char>| names_of(r@).contains(x) implies ons.take(
                            i + 1,
                        ).contains(x) by {
                            if rnames.contains(x) {
                                let w2 = choose|w2: int|
                                    0 <= w2 < i && ons.take(i as int)[w2] == x;
                                assert(ons.take(i + 1)[w2] == x);
                            } else {
                                assert(x == pkg@.name);
                                assert(ons.take(i + 1)[i as int] == x);
                            }
                        }
                        if strongv && closed(pkglist@) {
                            assert(has_pkg(pkglist@, pkg@.name)) by {
                                crate::package::lemma_lookup_props(pkglist@, pkg@.name);
                            }
                            assert(false);
                        }
                    }
                } else {
                    // a dependency name the store no longer knows: skipped
                    proof {
                        if strongv && closed(pkglist@) {
                            assert(ons[i as int] == pkg@.name || reaches(
                                pkglist@,
                                pkg@.name,
                                ons[i as int],
                            ));
                            if ons[i as int] == pkg@.name {
                                crate::package::lemma_lookup_props(pkglist@, pkg@.name);
                                assert(false);
                            } else {
                                let k = choose|k: nat|
                                    reach(pkglist@, pkg@.name, ons[i as int], k);
                                lemma_reach_target_known(pkglist@, pkg@.name, ons[i as int], k);
                                assert(false);
                            }
                        }
                    }
                }
            },
        }
        i = i + 1;
    }
    proof {
        if strongv && closed(pkglist@) {
            assert(names_of(r@) =~= ons);
            assert forall|b: Seq<char>| reaches(pkglist@, pkg@.name, b) implies names_of(
                r@,
            ).contains(b) by {
                let k = choose|k: nat| reach(pkglist@, pkg@.name, b, k);
                lemma_ordered_complete(pkglist@, names_of(r@), pkg@.name, b, k);
            }
            assert forall|k: int| 0 <= k < r@.len() implies (#[trigger] r@[k])@.name
                == pkg@.name || reaches(pkglist@, pkg@.name, r@[k]@.name) by {
                assert(r@[k]@.name == names_of(r@)[k]);
                assert(names_of(r@)[k] == ons[k]);
            }
        }
    }
    r
}

} // verus!

verus! {

/// The store's record at `j` directly depends on `target` without being it.
pub open spec fn dependant_at(pkgs: Seq<Package>, target: Seq<char>, j: int) -> bool {
    0 <= j < pkgs.len() && pkgs[j]@.deps.contains(target) && pkgs[j]@.name != target
}

/// Every store record that directly depends on `pkg`, by name, sorted and
/// without duplicates.
pub fn find_dependants(pkg: &Package, pkglist: &Vec<Package>) -> (r: Vec<Package>)
    ensures
        crate::utils::sorted_by_name(r@),
        forall|i: int, j: int| 0 <= i < j < r@.len() ==> r@[i]@.name != r@[j]@.name,
        forall|x: Seq<char>|
            names_of(r@).contains(x) == exists|j: int|
                dependant_at(pkglist@, pkg@.name, j) && pkglist@[j]@.name == x,
        forall|i: int| 0 <= i < r@.len() ==> view_in(pkglist@, #[trigger] r@[i]@),
{
    let ghost pv = pkglist@;
    let mut acc: Vec<Package> = Vec::new();
    let mut j: usize = 0;
    while j < pkglist.len()
        invariant
            pv == pkglist@,
            j <= pv.len(),
            forall|x: Seq<char>|
                names_of(acc@).contains(x) == exists|jj: int|
                    0 <= jj < j && dependant_at(pv, pkg@.name, jj) && pv[jj]@.name == x,
            forall|i: int| 0 <= i < acc@.len() ==> view_in(pv, #[trigger] acc@[i]@),
        decreases pv.len() - j,
    {
        let q = &pkglist[j];
        if crate::text::contains_string(&q.deps, &pkg.name) && !q.name.eq(&pkg.name) {
            assert(dependant_at(pv, pkg@.name, j as int));
            let ghost before = acc@;
            acc.push(q.clone());
            proof {
                assert(names_of(acc@) =~= names_of(before).push(pv[j as int]@.name));
                assert forall|x: Seq<char>| names_of(acc@).contains(x) == (exists|jj: int|
                    0 <= jj < j + 1 && dependant_at(pv, pkg@.name, jj) && pv[jj]@.name == x) by {
                    if names_of(acc@).contains(x) {
                        let w = choose|w: int|
                            0 <= w < names_of(acc@).len() && names_of(acc@)[w] == x;
                        if w < before.len() {
                            assert(names_of(before)[w] == x);
                            assert(names_of(before).contains(x));
                        } else {
                            assert(pv[j as int]@.name == x);
                        }
                    }
                    if exists|jj: int|
                        0 <= jj < j + 1 && dependant_at(pv, pkg@.name, jj) && pv[jj]@.name == x {
                        let jj = choose|jj: int|
                            0 <= jj < j + 1 && dependant_at(pv, pkg@.name, jj) && pv[jj]@.name
                                == x;
                        if jj < j {
                            assert(names_of(before).contains(x));
                            let w = choose|w: int|
                                0 <= w < names_of(before).len() && names_of(before)[w] == x;
                            assert(names_of(acc@)[w] == x);
                        } else {
                            assert(names_of(acc@)[acc@.len() - 1] == x);
                        }
                    }
                }
                assert(acc@[acc@.len() - 1]@ == pv[j as int]@);
            }
        } else {
            proof {
                assert(!dependant_at(pv, pkg@.name, j as int));
                assert forall|x: Seq<char>| names_of(acc@).contains(x) == (exists|jj: int|
                    0 <= jj < j + 1 && dependant_at(pv, pkg@.name, jj) && pv[jj]@.name == x) by {
                    if exists|jj: int|
                        0 <= jj < j + 1 && dependant_at(pv, pkg@.name, jj) && pv[jj]@.name == x {
                        let jj = choose|jj: int|
                            0 <= jj < j + 1 && dependant_at(pv, pkg@.name, jj) && pv[jj]@.name
                                == x;
                        assert(jj < j);
                    }
                }
            }
        }
        j = j + 1;
    }
    let ghost av = acc@;
    let r = crate::utils::dedup(acc);
    proof {
        assert forall|i: int| 0 <= i < r@.len() implies view_in(pv, #[trigger] r@[i]@) by {
            assert(view_in(av, r@[i]@));
            let j = choose|j: int| 0 <= j < av.len() && r@[i]@ == #[trigger] av[j]@;
            assert(view_in(pv, av[j]@));
        }
    }
    r
}

/// Every store record that directly depends on any of the given packages,
/// sorted and without duplicates.
pub fn deep_dependants(deps: &Vec<Package>, pkglist: &Vec<Package>) -> (r: Vec<Package>)
    ensures
        crate::utils::sorted_by_name(r@),
        forall|i: int, j: int| 0 <= i < j < r@.len() ==> r@[i]@.name != r@[j]@.name,
        forall|x: Seq<char>|
            names_of(r@).contains(x) == exists|d: int, j: int|
                0 <= d < deps@.len() && #[trigger] dependant_at(pkglist@, deps@[d]@.name, j)
                    && pkglist@[j]@.name == x,
        forall|i: int| 0 <= i < r@.len() ==> view_in(pkglist@, #[trigger] r@[i]@),
{
    let ghost pv = pkglist@;
    let ghost dv = deps@;
    let mut acc: Vec<Package> = Vec::new();
    let mut d: usize = 0;
    while d < deps.len()
        invariant
            pv == pkglist@,
            dv == deps@,
            d <= dv.len(),
            forall|x: Seq<char>|
                names_of(acc@).contains(x) == exists|dd: int, j: int|
                    0 <= dd < d && #[trigger] dependant_at(pv, dv[dd]@.name, j) && pv[j]@.name
                        == x,
            forall|i: int| 0 <= i < acc@.len() ==> view_in(pv, #[trigger] acc@[i]@),
        decreases dv.len() - d,
    {
        let found = find_dependants(&deps[d], pkglist);
        let ghost before = acc@;
        let ghost fv = found@;
        let mut k: usize = 0;
        while k < found.len()
            invariant
                pv == pkglist@,
                fv == found@,
                k <= fv.len(),
                acc@.len() == before.len() + k,
                forall|i: int| 0 <= i < before.len() ==> acc@[i] == before[i],
                forall|i: int|
                    before.len() <= i < acc@.len() ==> (#[trigger] acc@[i])@ == fv[
                        i - before.len()]@,
            decreases fv.len() - k,
        {
            acc.push(found[k].clone());
            k = k + 1;
        }
        proof {
            assert forall|x: Seq<char>| names_of(acc@).contains(x) == (exists|dd: int, j: int|
                0 <= dd < d + 1 && #[trigger] dependant_at(pv, dv[dd]@.name, j) && pv[j]@.name
                    == x) by {
                if names_of(acc@).contains(x) {
                    let w = choose|w: int|
                        0 <= w < names_of(acc@).len() && names_of(acc@)[w] == x;
                    if w < before.len() {
                        assert(names_of(before)[w] == x);
                        assert(names_of(before).contains(x));
                    } else {
                        assert(acc@[w]@ == fv[w - before.len()]@);
                        assert(names_of(fv)[w - before.len()] == x);
                        assert(names_of(fv).contains(x));
                        let j = choose|j: int|
                            dependant_at(pv, dv[d as int]@.name, j) && pv[j]@.name == x;
                        assert(dependant_at(pv, dv[d as int]@.name, j));
                    }
                }
                if exists|dd: int, j: int|
                    0 <= dd < d + 1 && #[trigger] dependant_at(pv, dv[dd]@.name, j)
                        && pv[j]@.name == x {
                    let (dd, j) = choose|dd: int, j: int|
                        0 <= dd < d + 1 && #[trigger] dependant_at(pv, dv[dd]@.name, j)
                            && pv[j]@.name == x;
                    if dd < d {
                        assert(names_of(before).contains(x));
                        let w = choose|w: int|
                            0 <= w < names_of(before).len() && names_of(before)[w] == x;
                        assert(names_of(acc@)[w] == x);
                    } else {
                        assert(names_of(fv).contains(x));
                        let w = choose|w: int| 0 <= w < fv.len() && names_of(fv)[w] == x;
                        assert(acc@[before.len() + w]@ == fv[w]@);
                        assert(names_of(acc@)[before.len() + w] == x);
                    }
                }
            }
            assert forall|i: int| 0 <= i < acc@.len() implies view_in(pv, #[trigger] acc@[i]@)
                by {
                if i >= before.len() {
                    assert(acc@[i]@ == fv[i - before.len()]@);
                    assert(view_in(pv, fv[i - before.len()]@));
                } else {
                    assert(acc@[i] == before[i]);
                    assert(view_in(pv, before[i]@));
                }
            }
        }
        d = d + 1;
    }
    let ghost av = acc@;
    let r = crate::utils::dedup(acc);
    proof {
        assert forall|i: int| 0 <= i < r@.len() implies view_in(pv, #[trigger] r@[i]@) by {
            assert(view_in(av, r@[i]@));
            let j = choose|j: int| 0 <= j < av.len() && r@[i]@ == #[trigger] av[j]@;
            assert(view_in(pv, av[j]@));
        }
    }
    r
}

} // verus!

verus! {

/// Whether a removal may proceed: a package nothing depends on needs no
/// confirmation; otherwise the caller's answer (gathered after showing the
/// dependants) decides.
pub fn confirm_removal(pkg: &Package, pkglist: &Vec<Package>, assent: bool) -> (r: bool)
    ensures
        r == ((forall|j: int| !dependant_at(pkglist@, pkg@.name, j)) || assent),
{
    let dependants = find_dependants(pkg, pkglist);
    if dependants.len() == 0 {
        proof {
            assert forall|j: int| !dependant_at(pkglist@, pkg@.name, j) by {
                if dependant_at(pkglist@, pkg@.name, j) {
                    assert(names_of(dependants@).contains(pkglist@[j]@.name));
                }
            }
        }
        true
    } else {
        proof {
            assert(names_of(dependants@)[0] == dependants@[0]@.name);
            assert(names_of(dependants@).contains(dependants@[0]@.name));
            let j = choose|j: int|
                dependant_at(pkglist@, pkg@.name, j) && pkglist@[j]@.name == dependants@[0]@.name;
            assert(dependant_at(pkglist@, pkg@.name, j));
        }
        assent
    }
}

} // verus!
