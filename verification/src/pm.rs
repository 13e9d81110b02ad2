//! The package manager facade: one value holding the requested packages, the
//! persisted store and the run's flags, with a method per operation.
//!
//! Every method computes a decision or a plan from plain values; executing a
//! plan (downloading, running build directions, prompting, persisting the
//! store) is the caller's affair. Store bookkeeping is done through
//! [`crate::tracking`] on the public `pkglist` field.

use vstd::prelude::*;

use crate::flags::Flags;
use crate::package::{has_pkg, lookup, names_of, view_in, Package, PackageStatus, PackageV};
use crate::tracking::StoreError;

verus! {

/// The package manager: the packages named on this run, the full store, and
/// the run's flags.
pub struct PM {
    pub pkgs: Vec<Package>,
    pub pkglist: Vec<Package>,
    pub flags: Flags,
}

/// The list an operation works over: the requested packages, or the whole
/// store when none were requested.
pub open spec fn roster(pm: PM) -> Seq<Package> {
    if pm.pkgs@.len() == 0 {
        pm.pkglist@
    } else {
        pm.pkgs@
    }
}

/// A package needs no update: installed at its declared version, not forced,
/// and not a rolling version.
pub open spec fn up_to_date(q: PackageV, force: bool) -> bool {
    q.installed_version == q.version && !force && q.version != seq!['9', '9', '9', '9']
}

/// A dependency stops a batched update: it is installed at its declared
/// version, the run is not forced, and the package being updated is not a
/// rolling version.
pub open spec fn dep_stop(q: PackageV, pkg: PackageV, force: bool) -> bool {
    q.installed_version == q.version && !force && pkg.version != seq!['9', '9', '9', '9']
}

fn clone_packages(v: &Vec<Package>) -> (r: Vec<Package>)
    ensures
        r@.len() == v@.len(),
        forall|i: int| 0 <= i < v@.len() ==> r@[i]@ == #[trigger] v@[i]@,
        r.deep_view() == v.deep_view(),
{
    let mut r: Vec<Package> = Vec::new();
    let mut i: usize = 0;
    while i < v.len()
        invariant
            i <= v@.len(),
            r@.len() == i,
            forall|k: int| 0 <= k < i ==> r@[k]@ == #[trigger] v@[k]@,
        decreases v@.len() - i,
    {
        r.push(v[i].clone());
        i = i + 1;
    }
    proof {
        assert(r.deep_view() =~= v.deep_view());
    }
    r
}

impl PM {
    /// Bundle the requested packages, the store and the flags.
    pub fn new(pkgs: Vec<Package>, pkglist: Vec<Package>, flags: Flags) -> (r: Self)
        ensures
            r.pkgs == pkgs,
            r.pkglist == pkglist,
            r.flags == flags,
    {
        PM { pkgs, pkglist, flags }
    }

    /// The packages whose files are to be fetched: the requested ones.
    pub fn get(&self) -> (r: Vec<Package>)
        ensures
            r.deep_view() == self.pkgs.deep_view(),
    {
        clone_packages(&self.pkgs)
    }

    /// The install plan: the requested packages that should be installed —
    /// everything not yet installed, plus installed ones under force. The
    /// caller fetches, runs the build direction and records each install.
    pub fn install(&self) -> (r: Vec<Package>)
        ensures
            r.deep_view() == self.pkgs.deep_view().filter(
                |q: PackageV| q.status == PackageStatus::Installed ==> self.flags.force,
            ),
    {
        let ghost pv = self.pkgs.deep_view();
        let mut r: Vec<Package> = Vec::new();
        proof {
            assert(pv.subrange(0, 0) =~= Seq::<PackageV>::empty());
            assert(r.deep_view() =~= Seq::<PackageV>::empty().filter(
                |q: PackageV| q.status == PackageStatus::Installed ==> self.flags.force,
            ));
        }
        let mut i: usize = 0;
        while i < self.pkgs.len()
            invariant
                pv == self.pkgs.deep_view(),
                i <= pv.len(),
                r.deep_view() == pv.subrange(0, i as int).filter(
                    |q: PackageV| q.status == PackageStatus::Installed ==> self.flags.force,
                ),
            decreases pv.len() - i,
        {
            let ghost before = r.deep_view();
            proof {
                assert(pv.subrange(0, i + 1).drop_last() =~= pv.subrange(0, i as int));
                reveal_with_fuel(Seq::filter, 2);
            }
            if crate::utils::do_install(&self.pkgs[i], self.flags.force) {
                r.push(self.pkgs[i].clone());
                assert(r.deep_view() =~= before.push(pv[i as int]));
            }
            i = i + 1;
        }
        proof {
            assert(pv.subrange(0, pv.len() as int) =~= pv);
        }
        r
    }

    /// The update plan: the longest prefix of the requested packages in
    /// which none is already up to date. Processing stops at the first
    /// up-to-date package, as the caller's batch would.
    pub fn update(&self) -> (r: Vec<Package>)
        ensures
            r@.len() <= self.pkgs@.len(),
            forall|i: int|
                0 <= i < r@.len() ==> r@[i]@ == #[trigger] self.pkgs@[i]@ && !up_to_date(
                    self.pkgs@[i]@,
                    self.flags.force,
                ),
            r@.len() < self.pkgs@.len() ==> up_to_date(
                self.pkgs@[r@.len() as int]@,
                self.flags.force,
            ),
    {
        let mut r: Vec<Package> = Vec::new();
        let mut i: usize = 0;
        while i < self.pkgs.len()
            invariant
                i <= self.pkgs@.len(),
                r@.len() == i,
                forall|k: int|
                    0 <= k < i ==> r@[k]@ == #[trigger] self.pkgs@[k]@ && !up_to_date(
                        self.pkgs@[k]@,
                        self.flags.force,
                    ),
            decreases self.pkgs@.len() - i,
        {
            let p = &self.pkgs[i];
            let mut nines: Vec<char> = Vec::new();
            nines.push('9');
            nines.push('9');
            nines.push('9');
            nines.push('9');
            assert(nines@ =~= seq!['9', '9', '9', '9']);
            let iv = crate::text::chars_of(p.installed_version.as_str());
            let vv = crate::text::chars_of(p.version.as_str());
            let utd = crate::text::eq_chars(&iv, &vv) && !self.flags.force
                && !crate::text::eq_chars(&vv, &nines);
            assert(utd == up_to_date(self.pkgs@[i as int]@, self.flags.force));
            if utd {
                return r;
            }
            r.push(p.clone());
            i = i + 1;
        }
        r
    }

    /// The packages with news to show: those of the roster whose advisory
    /// text is non-empty, in order.
    pub fn news(&self) -> (r: Vec<Package>)
        ensures
            r.deep_view() == roster(*self).map_values(|p: Package| p@).filter(
                |q: PackageV| q.news.len() > 0,
            ),
    {
        let source: &Vec<Package> = if self.pkgs.len() > 0 {
            &self.pkgs
        } else {
            &self.pkglist
        };
        let ghost sv = roster(*self).map_values(|p: Package| p@);
        proof {
            assert(sv =~= source.deep_view());
        }
        let mut r: Vec<Package> = Vec::new();
        proof {
            assert(sv.subrange(0, 0) =~= Seq::<PackageV>::empty());
            assert(r.deep_view() =~= Seq::<PackageV>::empty().filter(
                |q: PackageV| q.news.len() > 0,
            ));
        }
        let mut i: usize = 0;
        while i < source.len()
            invariant
                sv == source.deep_view(),
                sv == roster(*self).map_values(|p: Package| p@),
                i <= sv.len(),
                r.deep_view() == sv.subrange(0, i as int).filter(
                    |q: PackageV| q.news.len() > 0,
                ),
            decreases sv.len() - i,
        {
            let ghost before = r.deep_view();
            proof {
                assert(sv.subrange(0, i + 1).drop_last() =~= sv.subrange(0, i as int));
                reveal_with_fuel(Seq::filter, 2);
            }
            if source[i].news.as_str().unicode_len() > 0 {
                r.push(source[i].clone());
                assert(r.deep_view() =~= before.push(sv[i as int]));
            }
            i = i + 1;
        }
        proof {
            assert(sv.subrange(0, sv.len() as int) =~= sv);
        }
        r
    }

    /// The packages whose upstream versions are to be checked: the roster,
    /// by value, for the caller's worker pool.
    pub fn check_upstream(&self) -> (r: Vec<Package>)
        ensures
            r.deep_view() == roster(*self).map_values(|p: Package| p@),
    {
        let r = if self.pkgs.len() > 0 {
            clone_packages(&self.pkgs)
        } else {
            clone_packages(&self.pkglist)
        };
        proof {
            assert(r.deep_view() =~= roster(*self).map_values(|p: Package| p@));
        }
        r
    }

    /// The packages whose links are to be validated: the roster, by value,
    /// for the caller's worker pool.
    pub fn validate_links(&self) -> (r: Vec<Package>)
        ensures
            r.deep_view() == roster(*self).map_values(|p: Package| p@),
    {
        let r = if self.pkgs.len() > 0 {
            clone_packages(&self.pkgs)
        } else {
            clone_packages(&self.pkglist)
        };
        proof {
            assert(r.deep_view() =~= roster(*self).map_values(|p: Package| p@));
        }
        r
    }
}

} // verus!

verus! {

/// A record is stale: installed, but at some version other than the
/// declared one.
pub open spec fn stale(q: PackageV) -> bool {
    q.installed_version.len() > 0 && q.installed_version != q.version
}

/// The stale store records of the requested packages, in request order;
/// requests the store does not know contribute nothing.
pub open spec fn stale_selection(pkgs: Seq<Package>, pkglist: Seq<Package>) -> Seq<PackageV>
    decreases pkgs.len(),
{
    if pkgs.len() == 0 {
        Seq::empty()
    } else {
        let rest = stale_selection(pkgs.drop_first(), pkglist);
        match lookup(pkglist, pkgs[0]@.name) {
            Option::Some(q) => if stale(q@) {
                seq![q@] + rest
            } else {
                rest
            },
            Option::None => rest,
        }
    }
}

/// The store records the requested packages name, where every request has
/// one; used by the listing.
pub open spec fn looked_up(pkgs: Seq<Package>, pkglist: Seq<Package>) -> Seq<PackageV> {
    pkgs.map_values(|p: Package| lookup(pkglist, p@.name).unwrap()@)
}

impl PM {
    /// The listing: the store records of the requested packages (the whole
    /// store when none were requested), sorted by name. A requested name the
    /// store does not know is an error naming the first such package.
    pub fn list(&self) -> (r: Result<Vec<Package>, StoreError>)
        ensures
            match r {
                Ok(v) => crate::utils::sorted_by_name(v@) && (self.pkgs@.len() == 0
                    ==> v.deep_view().to_multiset()
                    == self.pkglist.deep_view().to_multiset()) && (self.pkgs@.len() > 0 ==> (
                forall|i: int|
                    0 <= i < self.pkgs@.len() ==> has_pkg(
                        self.pkglist@,
                        #[trigger] self.pkgs@[i]@.name,
                    )) && v.deep_view().to_multiset() == looked_up(
                    self.pkgs@,
                    self.pkglist@,
                ).to_multiset()),
                Err(StoreError::NotFound { name }) => exists|i: int|
                    0 <= i < self.pkgs@.len() && name@ == #[trigger] self.pkgs@[i]@.name
                        && !has_pkg(self.pkglist@, self.pkgs@[i]@.name),
            },
    {
        if self.pkgs.len() == 0 {
            let all = clone_packages(&self.pkglist);
            return Ok(crate::utils::sort_packages(all));
        }
        let ghost qv = self.pkgs@;
        let ghost lv = self.pkglist@;
        let mut displayed: Vec<Package> = Vec::new();
        let mut i: usize = 0;
        while i < self.pkgs.len()
            invariant
                qv == self.pkgs@,
                lv == self.pkglist@,
                i <= qv.len(),
                displayed@.len() == i,
                forall|k: int| 0 <= k < i ==> has_pkg(lv, #[trigger] qv[k]@.name),
                forall|k: int| 0 <= k < i ==> (#[trigger] displayed@[k])@ == looked_up(qv, lv)[k],
            decreases qv.len() - i,
        {
            match crate::package::find_package(&self.pkglist, &self.pkgs[i].name) {
                Some(w) => {
                    displayed.push(self.pkglist[w].clone());
                    proof {
                        assert(displayed.deep_view()[i as int] == lv[w as int]@);
                        assert(lookup(lv, qv[i as int]@.name) == Option::Some(lv[w as int]));
                    }
                },
                None => {
                    return Err(StoreError::NotFound { name: self.pkgs[i].name.clone() });
                },
            }
            i = i + 1;
        }
        proof {
            assert forall|k: int| 0 <= k < displayed@.len() implies displayed.deep_view()[k]
                == looked_up(qv, lv)[k] by {
                assert(displayed.deep_view()[k] == displayed@[k]@);
            }
            assert(displayed.deep_view() =~= looked_up(qv, lv));
        }
        Ok(crate::utils::sort_packages(displayed))
    }

    /// The outdated packages: those of the roster's store records that are
    /// installed at some version other than the declared one, sorted by
    /// name. Requested names the store does not know are skipped.
    pub fn outdated(&self) -> (r: Vec<Package>)
        ensures
            crate::utils::sorted_by_name(r@),
            forall|i: int|
                0 <= i < r@.len() ==> (#[trigger] r@[i]@.installed_version).len() > 0
                    && r@[i]@.installed_version != r@[i]@.version,
            forall|i: int| 0 <= i < r@.len() ==> view_in(self.pkglist@, #[trigger] r@[i]@) || (
            exists|j: int| 0 <= j < self.pkgs@.len() && r@[i]@ == #[trigger] self.pkgs@[j]@),
            self.pkgs@.len() == 0 ==> r.deep_view().to_multiset()
                == self.pkglist.deep_view().filter(|q: PackageV| stale(q)).to_multiset(),
            self.pkgs@.len() > 0 ==> r.deep_view().to_multiset() == stale_selection(
                self.pkgs@,
                self.pkglist@,
            ).to_multiset(),
    {
        let ghost lv = self.pkglist@;
        let mut picked: Vec<Package> = Vec::new();
        if self.pkgs.len() == 0 {
            let ghost dlv = self.pkglist.deep_view();
            proof {
                assert(dlv.subrange(0, 0) =~= Seq::<PackageV>::empty());
                assert(picked.deep_view() =~= Seq::<PackageV>::empty().filter(
                    |q: PackageV| stale(q),
                ));
            }
            let mut i: usize = 0;
            while i < self.pkglist.len()
                invariant
                    lv == self.pkglist@,
                    dlv == self.pkglist.deep_view(),
                    i <= lv.len(),
                    picked.deep_view() == dlv.subrange(0, i as int).filter(
                        |q: PackageV| stale(q),
                    ),
                    forall|k: int|
                        0 <= k < picked@.len() ==> (#[trigger] picked@[k]@.installed_version).len()
                            > 0 && picked@[k]@.installed_version != picked@[k]@.version,
                    forall|k: int| 0 <= k < picked@.len() ==> view_in(lv, #[trigger] picked@[k]@),
                decreases lv.len() - i,
            {
                let ghost before = picked.deep_view();
                proof {
                    assert(dlv.subrange(0, i + 1).drop_last() =~= dlv.subrange(0, i as int));
                    reveal_with_fuel(Seq::filter, 2);
                }
                let p = &self.pkglist[i];
                let iv = crate::text::chars_of(p.installed_version.as_str());
                let vv = crate::text::chars_of(p.version.as_str());
                if iv.len() > 0 && !crate::text::eq_chars(&iv, &vv) {
                    assert(stale(dlv[i as int]));
                    picked.push(p.clone());
                    proof {
                        assert(picked.deep_view() =~= before.push(dlv[i as int]));
                        assert(view_in(lv, picked@[picked@.len() - 1]@)) by {
                            assert(picked@[picked@.len() - 1]@ == lv[i as int]@);
                        }
                    }
                } else {
                    assert(!stale(dlv[i as int]));
                }
                i = i + 1;
            }
            proof {
                assert(dlv.subrange(0, dlv.len() as int) =~= dlv);
            }
        } else {
            let ghost qv = self.pkgs@;
            proof {
                assert(qv.skip(0) =~= qv);
                assert(picked.deep_view() + stale_selection(qv, lv) =~= stale_selection(
                    qv,
                    lv,
                ));
            }
            let mut i: usize = 0;
            while i < self.pkgs.len()
                invariant
                    lv == self.pkglist@,
                    qv == self.pkgs@,
                    i <= qv.len(),
                    stale_selection(qv, lv) == picked.deep_view() + stale_selection(
                        qv.skip(i as int),
                        lv,
                    ),
                    forall|k: int|
                        0 <= k < picked@.len() ==> (#[trigger] picked@[k]@.installed_version).len()
                            > 0 && picked@[k]@.installed_version != picked@[k]@.version,
                    forall|k: int| 0 <= k < picked@.len() ==> view_in(lv, #[trigger] picked@[k]@),
                decreases qv.len() - i,
            {
                let ghost before = picked.deep_view();
                proof {
                    assert(qv.skip(i as int)[0] == qv[i as int]);
                    assert(qv.skip(i as int).drop_first() =~= qv.skip(i + 1));
                }
                match crate::package::find_package(&self.pkglist, &self.pkgs[i].name) {
                    Some(w) => {
                        let p = &self.pkglist[w];
                        let iv = crate::text::chars_of(p.installed_version.as_str());
                        let vv = crate::text::chars_of(p.version.as_str());
                        if iv.len() > 0 && !crate::text::eq_chars(&iv, &vv) {
                            assert(stale(lv[w as int]@));
                            picked.push(p.clone());
                            proof {
                                assert(picked.deep_view() =~= before.push(lv[w as int]@));
                                assert(view_in(lv, picked@[picked@.len() - 1]@)) by {
                                    assert(picked@[picked@.len() - 1]@ == lv[w as int]@);
                                }
                            }
                        } else {
                            assert(!stale(lv[w as int]@));
                        }
                    },
                    None => {},
                }
                i = i + 1;
            }
            proof {
                assert(qv.skip(qv.len() as int) =~= Seq::<Package>::empty());
                assert(stale_selection(Seq::<Package>::empty(), lv) =~= Seq::<PackageV>::empty());
                assert(picked.deep_view() + Seq::<PackageV>::empty() =~= picked.deep_view());
            }
        }
        let ghost pkd = picked@;
        let ghost pdv = picked.deep_view();
        let r = crate::utils::sort_packages(picked);
        proof {
            r.deep_view().to_multiset_ensures();
            pdv.to_multiset_ensures();
            assert forall|i: int| 0 <= i < r@.len() implies (
            #[trigger] r@[i]@.installed_version).len() > 0 && r@[i]@.installed_version
                != r@[i]@.version && view_in(lv, r@[i]@) by {
                assert(r.deep_view().contains(r@[i]@)) by {
                    assert(r.deep_view()[i] == r@[i]@);
                }
                assert(pdv.to_multiset().count(r@[i]@) > 0);
                assert(pdv.contains(r@[i]@));
                let w = choose|w: int| 0 <= w < pdv.len() && pdv[w] == r@[i]@;
                assert(pkd[w]@ == r@[i]@);
            }
            assert forall|i: int| 0 <= i < r@.len() implies view_in(
                self.pkglist@,
                #[trigger] r@[i]@,
            ) by {
                assert(r@[i]@.installed_version.len() > 0);
            }
        }
        r
    }
}

} // verus!

verus! {

impl PM {
    /// The resolved dependency order of each requested package: each list
    /// ends with its package, free of duplicate names; over an acyclic,
    /// dependency-closed store it is a complete topological order. The full
    /// resolver guarantees are stated on [`crate::resolve::resolve_deps`].
    pub fn dependencies(&self) -> (r: Vec<Vec<Package>>)
        ensures
            r@.len() == self.pkgs@.len(),
            forall|i: int|
                0 <= i < r@.len() ==> (#[trigger] r@[i])@.len() >= 1 && r@[i]@.last()@.name
                    == self.pkgs@[i]@.name && crate::resolve::distinct_seqs(names_of(r@[i]@)),
            (crate::resolve::acyclic(self.pkglist@) && crate::resolve::closed(self.pkglist@))
                ==> forall|i: int|
                0 <= i < r@.len() && crate::resolve::current(
                    self.pkglist@,
                    #[trigger] self.pkgs@[i],
                ) ==> crate::resolve::ordered_names(self.pkglist@, names_of(r@[i]@)) && (forall|
                    b: Seq<char>,
                |
                    crate::resolve::reaches(self.pkglist@, self.pkgs@[i]@.name, b) ==> names_of(
                        r@[i]@,
                    ).contains(b)),
    {
        let mut r: Vec<Vec<Package>> = Vec::new();
        let mut i: usize = 0;
        while i < self.pkgs.len()
            invariant
                i <= self.pkgs@.len(),
                r@.len() == i,
                forall|k: int|
                    0 <= k < i ==> (#[trigger] r@[k])@.len() >= 1 && r@[k]@.last()@.name
                        == self.pkgs@[k]@.name && crate::resolve::distinct_seqs(
                        names_of(r@[k]@),
                    ),
                (crate::resolve::acyclic(self.pkglist@) && crate::resolve::closed(
                    self.pkglist@,
                )) ==> forall|k: int|
                    0 <= k < i && crate::resolve::current(
                        self.pkglist@,
                        #[trigger] self.pkgs@[k],
                    ) ==> crate::resolve::ordered_names(self.pkglist@, names_of(r@[k]@)) && (
                    forall|b: Seq<char>|
                        crate::resolve::reaches(self.pkglist@, self.pkgs@[k]@.name, b)
                            ==> names_of(r@[k]@).contains(b)),
            decreases self.pkgs@.len() - i,
        {
            let d = crate::resolve::resolve_deps(&self.pkgs[i], &self.pkglist);
            r.push(d);
            i = i + 1;
        }
        r
    }

    /// The install plan for each requested package with its dependencies:
    /// the package's resolved dependency order, paired with that order
    /// filtered to what should be installed. The caller displays the order,
    /// then fetches, builds and records each member of the plan.
    pub fn install_with_dependencies(&self) -> (r: Vec<(Vec<Package>, Vec<Package>)>)
        ensures
            r@.len() == self.pkgs@.len(),
            forall|i: int|
                0 <= i < r@.len() ==> (#[trigger] r@[i].0)@.len() >= 1 && r@[i].0@.last()@.name
                    == self.pkgs@[i]@.name && crate::resolve::distinct_seqs(
                    names_of(r@[i].0@),
                ),
            forall|i: int|
                0 <= i < r@.len() ==> (#[trigger] r@[i].1).deep_view()
                    == r@[i].0.deep_view().filter(
                    |q: PackageV| q.status == PackageStatus::Installed ==> self.flags.force,
                ),
            (crate::resolve::acyclic(self.pkglist@) && crate::resolve::closed(self.pkglist@))
                ==> forall|i: int|
                0 <= i < r@.len() && crate::resolve::current(
                    self.pkglist@,
                    #[trigger] self.pkgs@[i],
                ) ==> crate::resolve::ordered_names(self.pkglist@, names_of(r@[i].0@)) && (
                forall|b: Seq<char>|
                    crate::resolve::reaches(self.pkglist@, self.pkgs@[i]@.name, b) ==> names_of(
                        r@[i].0@,
                    ).contains(b)),
    {
        let mut r: Vec<(Vec<Package>, Vec<Package>)> = Vec::new();
        let mut i: usize = 0;
        while i < self.pkgs.len()
            invariant
                i <= self.pkgs@.len(),
                r@.len() == i,
                forall|k: int|
                    0 <= k < i ==> (#[trigger] r@[k].0)@.len() >= 1 && r@[k].0@.last()@.name
                        == self.pkgs@[k]@.name && crate::resolve::distinct_seqs(
                        names_of(r@[k].0@),
                    ),
                forall|k: int|
                    0 <= k < i ==> (#[trigger] r@[k].1).deep_view()
                        == r@[k].0.deep_view().filter(
                        |q: PackageV| q.status == PackageStatus::Installed ==> self.flags.force,
                    ),
                (crate::resolve::acyclic(self.pkglist@) && crate::resolve::closed(
                    self.pkglist@,
                )) ==> forall|k: int|
                    0 <= k < i && crate::resolve::current(
                        self.pkglist@,
                        #[trigger] self.pkgs@[k],
                    ) ==> crate::resolve::ordered_names(self.pkglist@, names_of(r@[k].0@)) && (
                    forall|b: Seq<char>|
                        crate::resolve::reaches(self.pkglist@, self.pkgs@[k]@.name, b)
                            ==> names_of(r@[k].0@).contains(b)),
            decreases self.pkgs@.len() - i,
        {
            let deps = crate::resolve::resolve_deps(&self.pkgs[i], &self.pkglist);
            let ghost dv = deps.deep_view();
            let mut plan: Vec<Package> = Vec::new();
            proof {
                assert(dv.subrange(0, 0) =~= Seq::<PackageV>::empty());
                assert(plan.deep_view() =~= Seq::<PackageV>::empty().filter(
                    |q: PackageV| q.status == PackageStatus::Installed ==> self.flags.force,
                ));
            }
            let mut m: usize = 0;
            while m < deps.len()
                invariant
                    dv == deps.deep_view(),
                    m <= dv.len(),
                    plan.deep_view() == dv.subrange(0, m as int).filter(
                        |q: PackageV| q.status == PackageStatus::Installed ==> self.flags.force,
                    ),
                decreases dv.len() - m,
            {
                let ghost before = plan.deep_view();
                proof {
                    assert(dv.subrange(0, m + 1).drop_last() =~= dv.subrange(0, m as int));
                    reveal_with_fuel(Seq::filter, 2);
                }
                if crate::utils::do_install(&deps[m], self.flags.force) {
                    plan.push(deps[m].clone());
                    assert(plan.deep_view() =~= before.push(dv[m as int]));
                }
                m = m + 1;
            }
            proof {
                assert(dv.subrange(0, dv.len() as int) =~= dv);
            }
            r.push((deps, plan));
            i = i + 1;
        }
        r
    }

    /// The update plan for each requested package with its dependencies:
    /// the resolved order, paired with its longest prefix in which no
    /// dependency is already up to date against this package. A truncated
    /// prefix ends the whole batch, as the caller's loop would.
    pub fn update_with_dependencies(&self) -> (r: Vec<(Vec<Package>, Vec<Package>)>)
        ensures
            r@.len() <= self.pkgs@.len(),
            forall|i: int|
                0 <= i < r@.len() ==> (#[trigger] r@[i].0)@.len() >= 1 && r@[i].0@.last()@.name
                    == self.pkgs@[i]@.name && crate::resolve::distinct_seqs(
                    names_of(r@[i].0@),
                ),
            forall|i: int|
                0 <= i < r@.len() ==> (#[trigger] r@[i].1)@.len() <= r@[i].0@.len() && (forall|
                    k: int,
                |
                    0 <= k < r@[i].1@.len() ==> r@[i].1@[k]@ == r@[i].0@[k]@ && !dep_stop(
                        r@[i].0@[k]@,
                        self.pkgs@[i]@,
                        self.flags.force,
                    )) && (r@[i].1@.len() < r@[i].0@.len() ==> dep_stop(
                    r@[i].0@[r@[i].1@.len() as int]@,
                    self.pkgs@[i]@,
                    self.flags.force,
                )),
            forall|i: int|
                0 <= i < r@.len() - 1 ==> (#[trigger] r@[i].1)@.len() == r@[i].0@.len(),
            r@.len() < self.pkgs@.len() ==> r@.len() >= 1 && r@[r@.len() - 1].1@.len()
                < r@[r@.len() - 1].0@.len(),
    {
        let mut r: Vec<(Vec<Package>, Vec<Package>)> = Vec::new();
        let mut i: usize = 0;
        while i < self.pkgs.len()
            invariant
                i <= self.pkgs@.len(),
                r@.len() == i,
                forall|k: int|
                    0 <= k < i ==> (#[trigger] r@[k].0)@.len() >= 1 && r@[k].0@.last()@.name
                        == self.pkgs@[k]@.name && crate::resolve::distinct_seqs(
                        names_of(r@[k].0@),
                    ),
                forall|k: int|
                    0 <= k < i ==> (#[trigger] r@[k].1)@.len() == r@[k].0@.len() && (forall|
                        w: int,
                    |
                        0 <= w < r@[k].1@.len() ==> r@[k].1@[w]@ == r@[k].0@[w]@ && !dep_stop(
                            r@[k].0@[w]@,
                            self.pkgs@[k]@,
                            self.flags.force,
                        )),
            decreases self.pkgs@.len() - i,
        {
            let pkg = &self.pkgs[i];
            let mut nines: Vec<char> = Vec::new();
            nines.push('9');
            nines.push('9');
            nines.push('9');
            nines.push('9');
            assert(nines@ =~= seq!['9', '9', '9', '9']);
            let pv = crate::text::chars_of(pkg.version.as_str());
            let rolling = crate::text::eq_chars(&pv, &nines);
            let deps = crate::resolve::resolve_deps(pkg, &self.pkglist);
            let mut group: Vec<Package> = Vec::new();
            let mut m: usize = 0;
            while m < deps.len()
                invariant
                    i < self.pkgs@.len(),
                    r@.len() == i,
                    rolling == (self.pkgs@[i as int]@.version == seq!['9', '9', '9', '9']),
                    m <= deps@.len(),
                    group@.len() == m,
                    deps@.len() >= 1,
                    deps@.last()@.name == self.pkgs@[i as int]@.name,
                    crate::resolve::distinct_seqs(names_of(deps@)),
                    forall|w: int|
                        0 <= w < m ==> (#[trigger] group@[w])@ == deps@[w]@ && !dep_stop(
                            deps@[w]@,
                            self.pkgs@[i as int]@,
                            self.flags.force,
                        ),
                    forall|k: int|
                        0 <= k < i ==> (#[trigger] r@[k].0)@.len() >= 1 && r@[k].0@.last()@.name
                            == self.pkgs@[k]@.name && crate::resolve::distinct_seqs(
                            names_of(r@[k].0@),
                        ),
                    forall|k: int|
                        0 <= k < i ==> (#[trigger] r@[k].1)@.len() == r@[k].0@.len() && (forall|
                            w: int,
                        |
                            0 <= w < r@[k].1@.len() ==> r@[k].1@[w]@ == r@[k].0@[w]@ && !dep_stop(
                                r@[k].0@[w]@,
                                self.pkgs@[k]@,
                                self.flags.force,
                            )),
                decreases deps@.len() - m,
            {
                let dep = &deps[m];
                let div = crate::text::chars_of(dep.installed_version.as_str());
                let dvv = crate::text::chars_of(dep.version.as_str());
                if crate::text::eq_chars(&div, &dvv) && !self.flags.force && !rolling {
                    assert(dep_stop(deps@[m as int]@, self.pkgs@[i as int]@, self.flags.force));
                    r.push((deps, group));
                    return r;
                }
                assert(!dep_stop(deps@[m as int]@, self.pkgs@[i as int]@, self.flags.force));
                group.push(dep.clone());
                m = m + 1;
            }
            let ghost dsnap = deps@;
            let ghost gsnap = group@;
            let ghost rbefore = r@;
            r.push((deps, group));
            proof {
                assert(r@[i as int].0@ == dsnap);
                assert(r@[i as int].1@ == gsnap);
                assert(gsnap.len() == dsnap.len());
                assert forall|k: int| 0 <= k < i + 1 implies (#[trigger] r@[k].1)@.len()
                    == r@[k].0@.len() && (forall|w: int|
                    0 <= w < r@[k].1@.len() ==> r@[k].1@[w]@ == r@[k].0@[w]@ && !dep_stop(
                        r@[k].0@[w]@,
                        self.pkgs@[k]@,
                        self.flags.force,
                    )) by {
                    if k == i {
                        assert forall|w: int| 0 <= w < gsnap.len() implies gsnap[w]@ == dsnap[w]@
                            && !dep_stop(dsnap[w]@, self.pkgs@[k]@, self.flags.force) by {
                            assert(gsnap[w]@ == dsnap[w]@);
                        }
                    } else {
                        assert(r@[k] == rbefore[k]);
                        assert forall|w: int| 0 <= w < r@[k].1@.len() implies r@[k].1@[w]@
                            == r@[k].0@[w]@ && !dep_stop(
                            r@[k].0@[w]@,
                            self.pkgs@[k]@,
                            self.flags.force,
                        ) by {
                            assert(rbefore[k].1@[w]@ == rbefore[k].0@[w]@);
                        }
                    }
                }
            }
            i = i + 1;
        }
        r
    }

    /// The removal plan: each requested package with its direct dependants,
    /// so the caller can ask before removing anything that is depended on.
    pub fn remove(&self) -> (r: Vec<(Package, Vec<Package>)>)
        ensures
            r@.len() == self.pkgs@.len(),
            forall|i: int| 0 <= i < r@.len() ==> (#[trigger] r@[i].0)@ == self.pkgs@[i]@,
            forall|i: int, x: Seq<char>|
                0 <= i < r@.len() ==> ((#[trigger] names_of(r@[i].1@).contains(x)) == exists|j: int|
                    crate::resolve::dependant_at(self.pkglist@, self.pkgs@[i]@.name, j)
                        && self.pkglist@[j]@.name == x),
    {
        let mut r: Vec<(Package, Vec<Package>)> = Vec::new();
        let mut i: usize = 0;
        while i < self.pkgs.len()
            invariant
                i <= self.pkgs@.len(),
                r@.len() == i,
                forall|k: int| 0 <= k < i ==> (#[trigger] r@[k].0)@ == self.pkgs@[k]@,
                forall|k: int, x: Seq<char>|
                    0 <= k < i ==> ((#[trigger] names_of(r@[k].1@).contains(x)) == exists|j: int|
                        crate::resolve::dependant_at(self.pkglist@, self.pkgs@[k]@.name, j)
                            && self.pkglist@[j]@.name == x),
            decreases self.pkgs@.len() - i,
        {
            let dependants = crate::resolve::find_dependants(&self.pkgs[i], &self.pkglist);
            r.push((self.pkgs[i].clone(), dependants));
            i = i + 1;
        }
        r
    }

    /// The deep-removal plan: each requested package's resolved dependency
    /// list, with the dependants of that whole list (empty under force,
    /// which skips the check).
    pub fn remove_with_dependencies(&self) -> (r: Vec<(Vec<Package>, Vec<Package>)>)
        ensures
            r@.len() == self.pkgs@.len(),
            forall|i: int|
                0 <= i < r@.len() ==> (#[trigger] r@[i].0)@.len() >= 1 && r@[i].0@.last()@.name
                    == self.pkgs@[i]@.name && crate::resolve::distinct_seqs(
                    names_of(r@[i].0@),
                ),
            (crate::resolve::acyclic(self.pkglist@) && crate::resolve::closed(self.pkglist@))
                ==> forall|i: int|
                0 <= i < r@.len() && crate::resolve::current(
                    self.pkglist@,
                    #[trigger] self.pkgs@[i],
                ) ==> crate::resolve::ordered_names(self.pkglist@, names_of(r@[i].0@)) && (
                forall|b: Seq<char>|
                    crate::resolve::reaches(self.pkglist@, self.pkgs@[i]@.name, b) ==> names_of(
                        r@[i].0@,
                    ).contains(b)),
            self.flags.force ==> forall|i: int|
                0 <= i < r@.len() ==> (#[trigger] r@[i].1)@.len() == 0,
            !self.flags.force ==> forall|i: int, x: Seq<char>|
                0 <= i < r@.len() ==> ((#[trigger] names_of(r@[i].1@).contains(x)) == exists|
                    d: int,
                    j: int,
                |
                    0 <= d < r@[i].0@.len() && #[trigger] crate::resolve::dependant_at(
                        self.pkglist@,
                        r@[i].0@[d]@.name,
                        j,
                    ) && self.pkglist@[j]@.name == x),
    {
        let mut r: Vec<(Vec<Package>, Vec<Package>)> = Vec::new();
        let mut i: usize = 0;
        while i < self.pkgs.len()
            invariant
                i <= self.pkgs@.len(),
                r@.len() == i,
                forall|k: int|
                    0 <= k < i ==> (#[trigger] r@[k].0)@.len() >= 1 && r@[k].0@.last()@.name
                        == self.pkgs@[k]@.name && crate::resolve::distinct_seqs(
                        names_of(r@[k].0@),
                    ),
                (crate::resolve::acyclic(self.pkglist@) && crate::resolve::closed(
                    self.pkglist@,
                )) ==> forall|k: int|
                    0 <= k < i && crate::resolve::current(
                        self.pkglist@,
                        #[trigger] self.pkgs@[k],
                    ) ==> crate::resolve::ordered_names(self.pkglist@, names_of(r@[k].0@)) && (
                    forall|b: Seq<char>|
                        crate::resolve::reaches(self.pkglist@, self.pkgs@[k]@.name, b)
                            ==> names_of(r@[k].0@).contains(b)),
                self.flags.force ==> forall|k: int|
                    0 <= k < i ==> (#[trigger] r@[k].1)@.len() == 0,
                !self.flags.force ==> forall|k: int, x: Seq<char>|
                    0 <= k < i ==> ((#[trigger] names_of(r@[k].1@).contains(x)) == exists|
                        d: int,
                        j: int,
                    |
                        0 <= d < r@[k].0@.len() && #[trigger] crate::resolve::dependant_at(
                            self.pkglist@,
                            r@[k].0@[d]@.name,
                            j,
                        ) && self.pkglist@[j]@.name == x),
            decreases self.pkgs@.len() - i,
        {
            let deps = crate::resolve::resolve_deps(&self.pkgs[i], &self.pkglist);
            let dependants: Vec<Package> = if self.flags.force {
                Vec::new()
            } else {
                crate::resolve::deep_dependants(&deps, &self.pkglist)
            };
            r.push((deps, dependants));
            i = i + 1;
        }
        r
    }
}

} // verus!

verus! {

/// The display word of a status.
pub open spec fn status_word(st: PackageStatus) -> Seq<char> {
    match st {
        PackageStatus::Available => seq!['A', 'v', 'a', 'i', 'l', 'a', 'b', 'l', 'e'],
        PackageStatus::Installed => seq!['I', 'n', 's', 't', 'a', 'l', 'l', 'e', 'd'],
        PackageStatus::Removed => seq!['R', 'e', 'm', 'o', 'v', 'e', 'd'],
    }
}

/// The placeholder shown for a package without a description.
pub open spec fn default_desc() -> Seq<char> {
    seq![
        'N', 'o', ' ', 'd', 'e', 's', 'c', 'r', 'i', 'p', 't', 'i', 'o', 'n', ' ', 'p', 'r',
        'o', 'v', 'i', 'd', 'e', 'd',
    ]
}

/// The three lines shown for one search hit: `name-version`, its
/// description (or the placeholder), and its status with the installed
/// version when there is one.
pub open spec fn search_entry(q: PackageV) -> Seq<Seq<char>> {
    seq![
        q.name + seq!['-'] + q.version,
        seq![' ', '-', ' '] + (if q.description.len() == 0 {
            default_desc()
        } else {
            q.description
        }),
        seq![' ', '-', ' '] + status_word(q.status) + (if q.installed_version.len() == 0 {
            Seq::<char>::empty()
        } else {
            seq![' '] + q.installed_version
        }),
    ]
}

/// The search output for a package list: entries in order, stopping after
/// the first package that is not installed.
pub open spec fn search_lines(ps: Seq<PackageV>) -> Seq<Seq<char>>
    decreases ps.len(),
{
    if ps.len() == 0 {
        Seq::empty()
    } else {
        search_entry(ps[0]) + (if ps[0].installed_version.len() == 0 {
            Seq::empty()
        } else {
            search_lines(ps.drop_first())
        })
    }
}

fn push_entry(out: &mut Vec<String>, p: &Package)
    ensures
        final(out).deep_view() == old(out).deep_view() + search_entry(p@),
{
    let ghost base = out.deep_view();
    out.push(p.name_version());
    let mut desc: Vec<char> = Vec::new();
    desc.push(' ');
    desc.push('-');
    desc.push(' ');
    assert(desc@ =~= seq![' ', '-', ' ']);
    if p.description.as_str().unicode_len() == 0 {
        desc.push('N');
        desc.push('o');
        desc.push(' ');
        desc.push('d');
        desc.push('e');
        desc.push('s');
        desc.push('c');
        desc.push('r');
        desc.push('i');
        desc.push('p');
        desc.push('t');
        desc.push('i');
        desc.push('o');
        desc.push('n');
        desc.push(' ');
        desc.push('p');
        desc.push('r');
        desc.push('o');
        desc.push('v');
        desc.push('i');
        desc.push('d');
        desc.push('e');
        desc.push('d');
        assert(desc@ =~= seq![' ', '-', ' '] + default_desc());
    } else {
        let mut dv = crate::text::chars_of(p.description.as_str());
        desc.append(&mut dv);
        assert(desc@ =~= seq![' ', '-', ' '] + p@.description);
    }
    out.push(crate::text::string_of(&desc));
    let mut st: Vec<char> = Vec::new();
    st.push(' ');
    st.push('-');
    st.push(' ');
    match p.status {
        PackageStatus::Available => {
            st.push('A');
            st.push('v');
            st.push('a');
            st.push('i');
            st.push('l');
            st.push('a');
            st.push('b');
            st.push('l');
            st.push('e');
        },
        PackageStatus::Installed => {
            st.push('I');
            st.push('n');
            st.push('s');
            st.push('t');
            st.push('a');
            st.push('l');
            st.push('l');
            st.push('e');
            st.push('d');
        },
        PackageStatus::Removed => {
            st.push('R');
            st.push('e');
            st.push('m');
            st.push('o');
            st.push('v');
            st.push('e');
            st.push('d');
        },
    }
    assert(st@ =~= seq![' ', '-', ' '] + status_word(p@.status));
    if p.installed_version.as_str().unicode_len() > 0 {
        st.push(' ');
        let mut iv = crate::text::chars_of(p.installed_version.as_str());
        st.append(&mut iv);
        assert(st@ =~= seq![' ', '-', ' '] + status_word(p@.status) + (seq![' ']
            + p@.installed_version));
    }
    out.push(crate::text::string_of(&st));
    proof {
        assert(out.deep_view() =~= base + search_entry(p@));
    }
}

impl PM {
    /// The search display for the requested packages: three lines per
    /// package, stopping after the first one that is not installed.
    pub fn search(&self) -> (r: Vec<String>)
        ensures
            r.deep_view() == search_lines(self.pkgs.deep_view()),
    {
        let ghost pv = self.pkgs.deep_view();
        let mut out: Vec<String> = Vec::new();
        proof {
            assert(pv.skip(0) =~= pv);
            assert(out.deep_view() + search_lines(pv) =~= search_lines(pv));
        }
        let mut i: usize = 0;
        while i < self.pkgs.len()
            invariant
                pv == self.pkgs.deep_view(),
                i <= pv.len(),
                search_lines(pv) == out.deep_view() + search_lines(pv.skip(i as int)),
            decreases pv.len() - i,
        {
            proof {
                assert(pv.skip(i as int)[0] == pv[i as int]);
                assert(pv.skip(i as int).drop_first() =~= pv.skip(i + 1));
            }
            let p = &self.pkgs[i];
            push_entry(&mut out, p);
            if p.installed_version.as_str().unicode_len() == 0 {
                proof {
                    assert(search_lines(pv.skip(i as int)) =~= search_entry(pv[i as int]));
                    assert(search_lines(pv) =~= out.deep_view());
                }
                return out;
            }
            proof {
                assert(search_lines(pv.skip(i as int)) =~= search_entry(pv[i as int])
                    + search_lines(pv.skip(i + 1)));
                assert(search_lines(pv) =~= out.deep_view() + search_lines(pv.skip(i + 1)));
            }
            i = i + 1;
        }
        proof {
            assert(pv.skip(pv.len() as int) =~= Seq::<PackageV>::empty());
            assert(search_lines(Seq::<PackageV>::empty()) =~= Seq::<Seq<char>>::empty());
            assert(out.deep_view() =~= search_lines(pv));
        }
        out
    }
}

} // verus!

verus! {

impl PM {
    /// The dependants of each requested package: under force, everything
    /// that depends on any member of the package's resolved dependency
    /// order (the deep dependants); otherwise only the direct dependants.
    /// Each list is sorted by name and free of duplicates. Over an acyclic,
    /// dependency-closed store, the deep lists hold exactly the dependants
    /// of the package and of its transitive dependencies.
    pub fn dependants(&self) -> (r: Vec<Vec<Package>>)
        ensures
            r@.len() == self.pkgs@.len(),
            forall|i: int|
                0 <= i < r@.len() ==> crate::utils::sorted_by_name((#[trigger] r@[i])@)
                    && (forall|a: int, b: int|
                    0 <= a < b < r@[i]@.len() ==> r@[i]@[a]@.name != r@[i]@[b]@.name),
            !self.flags.force ==> forall|i: int, x: Seq<char>|
                0 <= i < r@.len() ==> ((#[trigger] names_of(r@[i]@).contains(x)) == exists|j: int|
                    crate::resolve::dependant_at(self.pkglist@, self.pkgs@[i]@.name, j)
                        && self.pkglist@[j]@.name == x),
            (self.flags.force && crate::resolve::acyclic(self.pkglist@)
                && crate::resolve::closed(self.pkglist@)) ==> forall|i: int, x: Seq<char>|
                0 <= i < r@.len() && crate::resolve::current(self.pkglist@, self.pkgs@[i]) ==> ((
                #[trigger] names_of(r@[i]@).contains(x)) == exists|m: Seq<char>, j: int|
                    (m == self.pkgs@[i]@.name || crate::resolve::reaches(
                        self.pkglist@,
                        self.pkgs@[i]@.name,
                        m,
                    )) && #[trigger] crate::resolve::dependant_at(self.pkglist@, m, j)
                        && self.pkglist@[j]@.name == x),
    {
        let ghost lv = self.pkglist@;
        let mut r: Vec<Vec<Package>> = Vec::new();
        let mut i: usize = 0;
        while i < self.pkgs.len()
            invariant
                lv == self.pkglist@,
                i <= self.pkgs@.len(),
                r@.len() == i,
                forall|k: int|
                    0 <= k < i ==> crate::utils::sorted_by_name((#[trigger] r@[k])@) && (forall|
                        a: int,
                        b: int,
                    |
                        0 <= a < b < r@[k]@.len() ==> r@[k]@[a]@.name != r@[k]@[b]@.name),
                !self.flags.force ==> forall|k: int, x: Seq<char>|
                    0 <= k < i ==> ((#[trigger] names_of(r@[k]@).contains(x)) == exists|j: int|
                        crate::resolve::dependant_at(self.pkglist@, self.pkgs@[k]@.name, j)
                            && self.pkglist@[j]@.name == x),
                (self.flags.force && crate::resolve::acyclic(lv) && crate::resolve::closed(lv))
                    ==> forall|k: int, x: Seq<char>|
                    0 <= k < i && crate::resolve::current(lv, self.pkgs@[k]) ==> ((
                    #[trigger] names_of(r@[k]@).contains(x)) == exists|m: Seq<char>, j: int|
                        (m == self.pkgs@[k]@.name || crate::resolve::reaches(
                            lv,
                            self.pkgs@[k]@.name,
                            m,
                        )) && #[trigger] crate::resolve::dependant_at(lv, m, j) && lv[j]@.name
                            == x),
            decreases self.pkgs@.len() - i,
        {
            let d: Vec<Package> = if self.flags.force {
                let deps = crate::resolve::resolve_deps(&self.pkgs[i], &self.pkglist);
                let dd = crate::resolve::deep_dependants(&deps, &self.pkglist);
                proof {
                    if crate::resolve::acyclic(lv) && crate::resolve::closed(lv)
                        && crate::resolve::current(lv, self.pkgs@[i as int]) {
                        let root = self.pkgs@[i as int]@.name;
                        assert forall|x: Seq<char>| (#[trigger] names_of(dd@).contains(x)) == (
                        exists|m: Seq<char>, j: int|
                            (m == root || crate::resolve::reaches(lv, root, m))
                                && #[trigger] crate::resolve::dependant_at(lv, m, j)
                                && lv[j]@.name == x) by {
                            if names_of(dd@).contains(x) {
                                let (dx, j) = choose|dx: int, j: int|
                                    0 <= dx < deps@.len()
                                        && #[trigger] crate::resolve::dependant_at(
                                        lv,
                                        deps@[dx]@.name,
                                        j,
                                    ) && lv[j]@.name == x;
                                let m = deps@[dx]@.name;
                                assert(m == root || crate::resolve::reaches(lv, root, m));
                                assert(crate::resolve::dependant_at(lv, m, j));
                            }
                            if exists|m: Seq<char>, j: int|
                                (m == root || crate::resolve::reaches(lv, root, m))
                                    && #[trigger] crate::resolve::dependant_at(lv, m, j)
                                    && lv[j]@.name == x {
                                let (m, j) = choose|m: Seq<char>, j: int|
                                    (m == root || crate::resolve::reaches(lv, root, m))
                                        && #[trigger] crate::resolve::dependant_at(lv, m, j)
                                        && lv[j]@.name == x;
                                assert(names_of(deps@).contains(m));
                                let w = choose|w: int|
                                    0 <= w < names_of(deps@).len() && names_of(deps@)[w] == m;
                                assert(deps@[w]@.name == m);
                                assert(crate::resolve::dependant_at(lv, deps@[w]@.name, j));
                                assert(names_of(dd@).contains(x));
                            }
                        }
                    }
                }
                dd
            } else {
                crate::resolve::find_dependants(&self.pkgs[i], &self.pkglist)
            };
            r.push(d);
            i = i + 1;
        }
        r
    }
}

} // verus!
