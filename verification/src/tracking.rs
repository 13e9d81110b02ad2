//! The package store's bookkeeping: install/removal state changes and the
//! change-detection cache that re-derives only packages whose backing
//! definition is newer than the store's last save.
//!
//! Reading definition files and persisting the store are the caller's
//! affair; everything here works on the in-memory record list.

use vstd::prelude::*;

use crate::package::{
    formed_deps, formed_ok, has_pkg, meta_name, reserved, FormError, Package, PackageStatus,
    PackageV,
};
use crate::sets::{SetError, SetFile};

verus! {

/// At most one record per name: the store's central invariant.
pub open spec fn unique_names(pkgs: Seq<Package>) -> bool {
    forall|i: int, j: int| 0 <= i < j < pkgs.len() ==> pkgs[i]@.name != pkgs[j]@.name
}

/// `k` is the index of the first record named `name`.
pub open spec fn is_first_match(pkgs: Seq<Package>, name: Seq<char>, k: int) -> bool {
    0 <= k < pkgs.len() && pkgs[k]@.name == name && (forall|m: int|
        0 <= m < k ==> pkgs[m]@.name != name)
}

/// A store operation touched by name: `rem`'s failure case.
#[derive(Debug)]
pub enum StoreError {
    /// No record carries the name; reported, not fatal.
    NotFound { name: String },
}

/// Mark the record matching `p` as installed at `p`'s declared version. A
/// store without a matching record is left as it is (the write that follows
/// is then a no-op, which keeps the operation idempotent).
pub fn add(pkglist: &mut Vec<Package>, p: &Package)
    ensures
        final(pkglist)@.len() == old(pkglist)@.len(),
        forall|k: int|
            0 <= k < old(pkglist)@.len() ==> final(pkglist)@[k]@.name == old(pkglist)@[k]@.name,
        forall|k: int|
            0 <= k < old(pkglist)@.len() && !is_first_match(old(pkglist)@, p@.name, k)
                ==> final(pkglist)@[k] == old(pkglist)@[k],
        forall|k: int|
            is_first_match(old(pkglist)@, p@.name, k) ==> final(pkglist)@[k]@ == (PackageV {
                status: PackageStatus::Installed,
                installed_version: p@.version,
                ..old(pkglist)@[k]@
            }),
        unique_names(old(pkglist)@) ==> unique_names(final(pkglist)@),
{
    let ghost orig = pkglist@;
    match crate::package::find_package(pkglist, &p.name) {
        Some(i) => {
            let mut rec = pkglist[i].clone();
            rec.status = PackageStatus::Installed;
            rec.installed_version = p.version.clone();
            proof {
                assert(rec@ =~= (PackageV {
                    status: PackageStatus::Installed,
                    installed_version: p@.version,
                    ..orig[i as int]@
                }));
            }
            pkglist.remove(i);
            pkglist.insert(i, rec);
            proof {
                assert(pkglist@ =~= orig.update(i as int, rec));
            }
        },
        None => {},
    }
}

/// Mark the record matching `p` as available again, clearing its installed
/// version; a name the store does not know is reported as [`StoreError`].
pub fn rem(pkglist: &mut Vec<Package>, p: &Package) -> (r: Result<(), StoreError>)
    ensures
        match r {
            Ok(()) => has_pkg(old(pkglist)@, p@.name) && final(pkglist)@.len() == old(pkglist)@.len() && (forall|k: int|
                0 <= k < old(pkglist)@.len() && !is_first_match(old(pkglist)@, p@.name, k)
                    ==> final(pkglist)@[k] == old(pkglist)@[k]) && (forall|k: int|
                is_first_match(old(pkglist)@, p@.name, k) ==> final(pkglist)@[k]@ == (PackageV {
                    status: PackageStatus::Available,
                    installed_version: Seq::empty(),
                    ..old(pkglist)@[k]@
                })),
            Err(StoreError::NotFound { name }) => !has_pkg(old(pkglist)@, p@.name) && final(pkglist)@ == old(pkglist)@ && name@ == p@.name,
        },
        final(pkglist)@.len() == old(pkglist)@.len(),
        forall|k: int|
            0 <= k < old(pkglist)@.len() ==> final(pkglist)@[k]@.name == old(pkglist)@[k]@.name,
        unique_names(old(pkglist)@) ==> unique_names(final(pkglist)@),
{
    let ghost orig = pkglist@;
    match crate::package::find_package(pkglist, &p.name) {
        Some(i) => {
            let mut rec = pkglist[i].clone();
            rec.status = PackageStatus::Available;
            rec.installed_version = String::new();
            proof {
                assert(rec@ =~= (PackageV {
                    status: PackageStatus::Available,
                    installed_version: Seq::empty(),
                    ..orig[i as int]@
                }));
            }
            pkglist.remove(i);
            pkglist.insert(i, rec);
            proof {
                assert(pkglist@ =~= orig.update(i as int, rec));
            }
            Ok(())
        },
        None => Err(StoreError::NotFound { name: p.name.clone() }),
    }
}

/// One definition entry of the metadata namespace: its identifier, its
/// last-modified time (seconds), and the metadata backend's text for it.
pub struct MetaEntry {
    pub name: String,
    pub mtime: u64,
    pub metadata: String,
}

/// Mathematical contents of a [`MetaEntry`].
pub ghost struct MetaEntryV {
    pub name: Seq<char>,
    pub mtime: u64,
    pub metadata: Seq<char>,
}

impl View for MetaEntry {
    type V = MetaEntryV;

    open spec fn view(&self) -> MetaEntryV {
        MetaEntryV { name: self.name@, mtime: self.mtime, metadata: self.metadata@ }
    }
}

impl DeepView for MetaEntry {
    type V = MetaEntryV;

    open spec fn deep_view(&self) -> MetaEntryV {
        self.view()
    }
}

/// An entry pays the cost of re-derivation when the run is forced or its
/// definition is at least as new as the store's watermark, and it is not a
/// reserved housekeeping name.
pub open spec fn selected(e: MetaEntryV, watermark: u64, forced: bool) -> bool {
    (forced || e.mtime >= watermark) && !reserved(e.name)
}

/// How many entries are selected.
pub open spec fn count_selected(entries: Seq<MetaEntryV>, watermark: u64, forced: bool) -> nat
    decreases entries.len(),
{
    if entries.len() == 0 {
        0
    } else {
        count_selected(entries.drop_last(), watermark, forced) + (if selected(
            entries.last(),
            watermark,
            forced,
        ) {
            1nat
        } else {
            0nat
        })
    }
}

/// Re-derive one definition entry and store the result: the record matching
/// the formed name is replaced in place, a new name is appended. Metadata
/// without a name is skipped (`Ok(false)`), as is a reserved identifier;
/// only a failed set expansion aborts.
pub fn cache_one(
    pkglist: &mut Vec<Package>,
    name: &str,
    metadata: &str,
    files: &Vec<SetFile>,
) -> (r: Result<bool, SetError>)
    ensures
        match r {
            Ok(true) => !reserved(name@) && meta_name(metadata@).len() > 0 && {
                let nm = meta_name(metadata@);
                &&& (has_pkg(old(pkglist)@, nm) ==> final(pkglist)@.len() == old(pkglist)@.len() && (forall|k: int|
                    is_first_match(old(pkglist)@, nm, k) ==> formed_ok(
                        final(pkglist)@[k]@,
                        metadata@,
                        old(pkglist)@,
                        files.deep_view(),
                    )))
                &&& (!has_pkg(old(pkglist)@, nm) ==> final(pkglist)@.len() == old(pkglist)@.len() + 1 && formed_ok(
                    final(pkglist)@.last()@,
                    metadata@,
                    old(pkglist)@,
                    files.deep_view(),
                ))
                &&& (forall|k: int|
                    0 <= k < old(pkglist)@.len() && !is_first_match(old(pkglist)@, nm, k)
                        ==> final(pkglist)@[k] == old(pkglist)@[k])
            },
            Ok(false) => (reserved(name@) || meta_name(metadata@).len() == 0) && final(pkglist)@ == old(pkglist)@,
            Err(e) => final(pkglist)@ == old(pkglist)@ && !reserved(name@) && meta_name(
                metadata@,
            ).len() > 0 && formed_deps(
                crate::text::split_on(metadata@, '\n'),
                old(pkglist)@,
                files.deep_view(),
            ) == Result::<Seq<Seq<char>>, crate::sets::SetErrV>::Err(e@),
        },
        r == Result::<bool, SetError>::Ok(true) ==> has_pkg(
            final(pkglist)@,
            meta_name(metadata@),
        ) && formed_deps(
            crate::text::split_on(metadata@, '\n'),
            old(pkglist)@,
            files.deep_view(),
        ) is Ok,
        old(pkglist)@.len() <= final(pkglist)@.len() <= old(pkglist)@.len() + 1,
        forall|x: Seq<char>|
            #[trigger] has_pkg(old(pkglist)@, x) ==> has_pkg(final(pkglist)@, x),
        forall|k: int|
            0 <= k < old(pkglist)@.len() && old(pkglist)@[k]@.name != meta_name(metadata@)
                ==> final(pkglist)@[k] == old(pkglist)@[k],
        unique_names(old(pkglist)@) ==> unique_names(final(pkglist)@),
{
    let ghost orig = pkglist@;
    match Package::def(name, metadata, pkglist, files) {
        Err(FormError::Refused { .. }) => Ok(false),
        Err(FormError::MalformedMetadata { .. }) => Ok(false),
        Err(FormError::Sets(e)) => Err(e),
        Ok(pkg) => {
            assert(pkg@.name == meta_name(metadata@));
            match crate::package::find_package(pkglist, &pkg.name) {
                Some(i) => {
                    let ghost nm = pkg@.name;
                    pkglist.remove(i);
                    pkglist.insert(i, pkg);
                    proof {
                        assert(pkglist@ =~= orig.update(i as int, pkglist@[i as int]));
                        assert(pkglist@[i as int]@.name == nm);
                        assert(has_pkg(pkglist@, nm));
                        assert forall|x: Seq<char>| #[trigger] has_pkg(orig, x) implies has_pkg(
                            pkglist@,
                            x,
                        ) by {
                            let w = choose|w: int| 0 <= w < orig.len() && orig[w]@.name == x;
                            if w == i {
                                assert(orig[i as int]@.name == nm);
                                assert(pkglist@[i as int]@.name == x);
                            } else {
                                assert(pkglist@[w] == orig[w]);
                            }
                        }
                        if unique_names(orig) {
                            assert forall|a: int, b: int|
                                0 <= a < b < pkglist@.len() implies pkglist@[a]@.name
                                != pkglist@[b]@.name by {
                                if a != i && b != i {
                                    assert(pkglist@[a] == orig[a] && pkglist@[b] == orig[b]);
                                } else if a == i {
                                    assert(pkglist@[a]@.name == orig[i as int]@.name);
                                    assert(pkglist@[b] == orig[b]);
                                } else {
                                    assert(pkglist@[b]@.name == orig[i as int]@.name);
                                    assert(pkglist@[a] == orig[a]);
                                }
                            }
                        }
                    }
                    Ok(true)
                },
                None => {
                    let ghost nm = pkg@.name;
                    pkglist.push(pkg);
                    proof {
                        assert(pkglist@[pkglist@.len() - 1]@.name == nm);
                        assert(has_pkg(pkglist@, nm));
                        assert forall|x: Seq<char>| #[trigger] has_pkg(orig, x) implies has_pkg(
                            pkglist@,
                            x,
                        ) by {
                            let w = choose|w: int| 0 <= w < orig.len() && orig[w]@.name == x;
                            assert(pkglist@[w] == orig[w]);
                        }
                        if unique_names(orig) {
                            assert forall|a: int, b: int|
                                0 <= a < b < pkglist@.len() implies pkglist@[a]@.name
                                != pkglist@[b]@.name by {
                                if b == orig.len() {
                                    assert(pkglist@[a] == orig[a]);
                                } else {
                                    assert(pkglist@[a] == orig[a] && pkglist@[b] == orig[b]);
                                }
                            }
                        }
                    }
                    Ok(true)
                },
            }
        },
    }
}

/// Refresh the store against the definition namespace: every selected entry
/// (see [`selected`]) is re-derived in order and stored; the count of
/// selected entries is returned. Untouched definitions leave their records
/// untouched — the final clause is the cache-minimality guarantee.
pub fn cache_changes(
    pkglist: &mut Vec<Package>,
    entries: &Vec<MetaEntry>,
    watermark: u64,
    forced: bool,
    files: &Vec<SetFile>,
) -> (r: Result<u64, SetError>)
    ensures
        match r {
            Ok(n) => n == count_selected(entries.deep_view(), watermark, forced) && (forall|
                j: int,
            |
                0 <= j < entries.deep_view().len() && selected(
                    #[trigger] entries.deep_view()[j],
                    watermark,
                    forced,
                ) && meta_name(entries.deep_view()[j].metadata).len() > 0 ==> has_pkg(
                    final(pkglist)@,
                    meta_name(entries.deep_view()[j].metadata),
                ) && formed_deps(
                    crate::text::split_on(entries.deep_view()[j].metadata, '\n'),
                    old(pkglist)@,
                    files.deep_view(),
                ) is Ok),
            Err(e) => exists|j: int|
                0 <= j < entries.deep_view().len() && selected(
                    #[trigger] entries.deep_view()[j],
                    watermark,
                    forced,
                ) && meta_name(entries.deep_view()[j].metadata).len() > 0 && formed_deps(
                    crate::text::split_on(entries.deep_view()[j].metadata, '\n'),
                    old(pkglist)@,
                    files.deep_view(),
                ) == Result::<Seq<Seq<char>>, crate::sets::SetErrV>::Err(e@),
        },
        old(pkglist)@.len() <= final(pkglist)@.len() <= old(pkglist)@.len() + count_selected(
            entries.deep_view(),
            watermark,
            forced,
        ),
        unique_names(old(pkglist)@) ==> unique_names(final(pkglist)@),
        forall|k: int|
            0 <= k < old(pkglist)@.len() && (forall|j: int|
                0 <= j < entries.deep_view().len() && selected(
                    #[trigger] entries.deep_view()[j],
                    watermark,
                    forced,
                ) ==> meta_name(entries.deep_view()[j].metadata) != old(pkglist)@[k]@.name)
                ==> final(pkglist)@[k] == old(pkglist)@[k],
{
    let ghost orig = pkglist@;
    let ghost ev = entries.deep_view();
    let mut count: u64 = 0;
    let mut i: usize = 0;
    while i < entries.len()
        invariant
            orig == old(pkglist)@,
            ev == entries.deep_view(),
            i <= ev.len(),
            count == count_selected(ev.take(i as int), watermark, forced),
            count <= i,
            unique_names(orig) ==> unique_names(pkglist@),
            orig.len() <= pkglist@.len() <= orig.len() + count,
            forall|j: int|
                0 <= j < i && selected(#[trigger] ev[j], watermark, forced) && meta_name(
                    ev[j].metadata,
                ).len() > 0 ==> has_pkg(pkglist@, meta_name(ev[j].metadata)) && formed_deps(
                    crate::text::split_on(ev[j].metadata, '\n'),
                    orig,
                    files.deep_view(),
                ) is Ok,
            forall|k: int|
                0 <= k < orig.len() && (forall|j: int|
                    0 <= j < i && selected(#[trigger] ev[j], watermark, forced) ==> meta_name(
                        ev[j].metadata,
                    ) != orig[k]@.name) ==> pkglist@[k] == orig[k],
        decreases ev.len() - i,
    {
        proof {
            assert(ev.take(i + 1).drop_last() =~= ev.take(i as int));
            assert(ev.take(i + 1).last() == ev[i as int]);
        }
        let e = &entries[i];
        assert(e@ == ev[i as int]);
        let sel = (forced || e.mtime >= watermark) && !crate::package::id_is_reserved(
            e.name.as_str(),
        );
        if sel {
            assert(selected(ev[i as int], watermark, forced));
            let ghost before = pkglist@;
            match cache_one(pkglist, e.name.as_str(), e.metadata.as_str(), files) {
                Err(err) => {
                    proof {
                        lemma_count_take_le(ev, watermark, forced, i as int);
                        crate::package::lemma_formed_deps_store_indep(
                            crate::text::split_on(ev[i as int].metadata, '\n'),
                            before,
                            orig,
                            files.deep_view(),
                        );
                        assert(formed_deps(
                            crate::text::split_on(ev[i as int].metadata, '\n'),
                            orig,
                            files.deep_view(),
                        ) == Result::<Seq<Seq<char>>, crate::sets::SetErrV>::Err(err@));
                    }
                    return Err(err);
                },
                Ok(stored) => {
                    proof {
                        if stored {
                            crate::package::lemma_formed_deps_store_indep(
                                crate::text::split_on(ev[i as int].metadata, '\n'),
                                before,
                                orig,
                                files.deep_view(),
                            );
                        }
                    }
                },
            }
            proof {
                assert forall|k: int|
                    0 <= k < orig.len() && (forall|j: int|
                        0 <= j < i + 1 && selected(#[trigger] ev[j], watermark, forced)
                            ==> meta_name(ev[j].metadata) != orig[k]@.name) implies pkglist@[k]
                    == orig[k] by {
                    assert(before[k] == orig[k]);
                    assert(meta_name(ev[i as int].metadata) != orig[k]@.name);
                    assert(before[k]@.name == orig[k]@.name);
                }
                assert forall|j: int|
                    0 <= j < i + 1 && selected(#[trigger] ev[j], watermark, forced)
                        && meta_name(ev[j].metadata).len() > 0 implies has_pkg(
                    pkglist@,
                    meta_name(ev[j].metadata),
                ) && formed_deps(
                    crate::text::split_on(ev[j].metadata, '\n'),
                    orig,
                    files.deep_view(),
                ) is Ok by {
                    if j < i {
                        assert(has_pkg(before, meta_name(ev[j].metadata)));
                    }
                }
            }
            count = count + 1;
        } else {
            assert(!selected(ev[i as int], watermark, forced));
        }
        i = i + 1;
    }
    proof {
        assert(ev.take(ev.len() as int) =~= ev);
    }
    Ok(count)
}

/// A prefix never selects more entries than the whole list.
proof fn lemma_count_take_le(entries: Seq<MetaEntryV>, watermark: u64, forced: bool, i: int)
    requires
        0 <= i <= entries.len(),
    ensures
        count_selected(entries.take(i), watermark, forced) <= count_selected(
            entries,
            watermark,
            forced,
        ),
    decreases entries.len() - i,
{
    if i < entries.len() {
        assert(entries.take(i + 1).drop_last() =~= entries.take(i));
        assert(entries.take(i + 1).last() == entries[i]);
        lemma_count_take_le(entries, watermark, forced, i + 1);
    } else {
        assert(entries.take(i) =~= entries);
    }
}

} // verus!
