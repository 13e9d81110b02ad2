//! Link validation planning: which URLs a package list asks to be probed,
//! and how many workers the probe may use.

use vstd::prelude::*;

use crate::config::LinkvalConfig;
use crate::package::Package;

verus! {

/// The primary source URL of each package, in order.
pub open spec fn links_of(ps: Seq<Package>) -> Seq<Seq<char>> {
    ps.map_values(|p: Package| p@.link)
}

/// Every auxiliary download URL, package by package.
pub open spec fn downloads_of(ps: Seq<Package>) -> Seq<Seq<char>>
    decreases ps.len(),
{
    if ps.len() == 0 {
        Seq::empty()
    } else {
        ps[0]@.downloads + downloads_of(ps.drop_first())
    }
}

/// Only the non-empty URLs.
pub open spec fn nonempty_urls(vs: Seq<Seq<char>>) -> Seq<Seq<char>> {
    vs.filter(|s: Seq<char>| s.len() > 0)
}

/// A worker pool is capped by the configured maximum and by the number of
/// items, so a small input never over-provisions idle workers.
pub fn worker_count(configured: usize, items: usize) -> (r: usize)
    ensures
        r == if items < configured {
            items as int
        } else {
            configured as int
        },
{
    if items < configured {
        items
    } else {
        configured
    }
}

/// The link-validation plan for a package list: every primary and auxiliary
/// URL, empty entries dropped, with the worker count to probe them under.
/// Probing itself is the caller's affair.
pub fn validate(validate_list: &Vec<Package>, cfg: &LinkvalConfig) -> (r: (Vec<String>, usize))
    ensures
        r.0.deep_view() == nonempty_urls(
            links_of(validate_list@) + downloads_of(validate_list@),
        ),
        r.1 == if r.0@.len() < cfg.thread_count {
            r.0@.len() as int
        } else {
            cfg.thread_count as int
        },
{
    let ghost pv = validate_list@;
    let mut all: Vec<String> = Vec::new();
    let mut i: usize = 0;
    while i < validate_list.len()
        invariant
            pv == validate_list@,
            i <= pv.len(),
            all@.len() == i,
            forall|k: int| 0 <= k < i ==> all@[k]@ == links_of(pv)[k],
        decreases pv.len() - i,
    {
        all.push(validate_list[i].link.clone());
        i = i + 1;
    }
    proof {
        assert(all.deep_view() =~= links_of(pv));
    }
    let ghost links = all.deep_view();
    let mut j: usize = 0;
    proof {
        assert(pv.skip(0) =~= pv);
        assert(all.deep_view() =~= links + downloads_of(pv.skip(0)).take(0));
    }
    while j < validate_list.len()
        invariant
            pv == validate_list@,
            j <= pv.len(),
            all.deep_view() == links + downloads_of(pv.take(j as int)),
        decreases pv.len() - j,
    {
        proof {
            assert(pv.take(j + 1).drop_last() =~= pv.take(j as int));
        }
        let p = &validate_list[j];
        let mut k: usize = 0;
        let ghost dbase = all.deep_view();
        while k < p.downloads.len()
            invariant
                j < pv.len(),
                *p == pv[j as int],
                k <= pv[j as int]@.downloads.len(),
                all.deep_view() == dbase + pv[j as int]@.downloads.take(k as int),
            decreases pv[j as int]@.downloads.len() - k,
        {
            let ghost prev = all.deep_view();
            let item = p.downloads[k].clone();
            assert(item@ == pv[j as int]@.downloads[k as int]);
            all.push(item);
            proof {
                assert(all.deep_view() =~= prev.push(pv[j as int]@.downloads[k as int]));
                assert(pv[j as int]@.downloads.take(k + 1) =~= pv[j as int]@.downloads.take(
                    k as int,
                ).push(pv[j as int]@.downloads[k as int]));
                assert(all.deep_view() =~= dbase + pv[j as int]@.downloads.take(k + 1));
            }
            k = k + 1;
        }
        proof {
            assert(pv[j as int]@.downloads.take(pv[j as int]@.downloads.len() as int)
                =~= pv[j as int]@.downloads);
            lemma_downloads_take(pv, j as int);
            assert(all.deep_view() =~= links + downloads_of(pv.take(j + 1)));
        }
        j = j + 1;
    }
    proof {
        assert(pv.take(pv.len() as int) =~= pv);
    }
    let ghost combined = links + downloads_of(pv);
    let mut urls: Vec<String> = Vec::new();
    let mut m: usize = 0;
    proof {
        assert(combined.take(0) =~= Seq::<Seq<char>>::empty());
        assert(Seq::<Seq<char>>::empty().filter(|s: Seq<char>| s.len() > 0)
            =~= Seq::<Seq<char>>::empty());
        assert(urls.deep_view() =~= Seq::<Seq<char>>::empty());
    }
    while m < all.len()
        invariant
            combined == all.deep_view(),
            m <= combined.len(),
            urls.deep_view() == combined.take(m as int).filter(|s: Seq<char>| s.len() > 0),
        decreases combined.len() - m,
    {
        proof {
            assert(combined.take(m + 1).drop_last() =~= combined.take(m as int));
            reveal_with_fuel(Seq::filter, 2);
        }
        if all[m].as_str().unicode_len() > 0 {
            urls.push(all[m].clone());
            assert(urls.deep_view() =~= combined.take(m + 1).filter(|s: Seq<char>| s.len() > 0));
        } else {
            assert(urls.deep_view() =~= combined.take(m + 1).filter(|s: Seq<char>| s.len() > 0));
        }
        m = m + 1;
    }
    proof {
        assert(combined.take(combined.len() as int) =~= combined);
    }
    let count = worker_count(cfg.thread_count, urls.len());
    (urls, count)
}

/// One more package's downloads extend the concatenation.
proof fn lemma_downloads_take(ps: Seq<Package>, j: int)
    requires
        0 <= j < ps.len(),
    ensures
        downloads_of(ps.take(j + 1)) == downloads_of(ps.take(j)) + ps[j]@.downloads,
    decreases j,
{
    if j == 0 {
        assert(ps.take(1)[0] == ps[0]);
        assert(ps.take(1).drop_first() =~= Seq::<Package>::empty());
        assert(downloads_of(Seq::<Package>::empty()) =~= Seq::<Seq<char>>::empty());
        assert(ps.take(0) =~= Seq::<Package>::empty());
        assert(downloads_of(ps.take(1)) =~= ps[0]@.downloads);
        assert(downloads_of(ps.take(0)) + ps[0]@.downloads =~= ps[0]@.downloads);
    } else {
        lemma_downloads_take(ps.drop_first(), j - 1);
        assert(ps.take(j + 1)[0] == ps[0]);
        assert(ps.take(j + 1).drop_first() =~= ps.drop_first().take(j));
        assert(ps.take(j).drop_first() =~= ps.drop_first().take(j - 1));
        assert(ps.drop_first()[j - 1] == ps[j]);
        assert(downloads_of(ps.take(j + 1)) =~= ps[0]@.downloads + downloads_of(
            ps.drop_first().take(j),
        ));
        assert(downloads_of(ps.take(j)) =~= ps[0]@.downloads + downloads_of(
            ps.drop_first().take(j - 1),
        ));
        assert(downloads_of(ps.take(j)) + ps[j]@.downloads =~= ps[0]@.downloads + (downloads_of(
            ps.drop_first().take(j - 1),
        ) + ps.drop_first()[j - 1]@.downloads));
    }
}

} // verus!
