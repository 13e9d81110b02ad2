//! Utility functions: list display formatting, sorting and deduplication of
//! package lists, and the install decision.

use vstd::prelude::*;

use crate::package::{names_of, view_in, Package, PackageStatus};
use crate::text::{
    chars_of, has_sub, lemma_str_le_antisym, lemma_str_le_total, lemma_str_le_trans, split_on,
    split_on_chars, str_le, str_le_chars, string_of, trim, trim_chars,
};

verus! {

/// The members are in name order.
pub open spec fn sorted_by_name(ps: Seq<Package>) -> bool {
    forall|i: int, j: int|
        0 <= i < j < ps.len() ==> str_le(#[trigger] ps[i]@.name, #[trigger] ps[j]@.name)
}

proof fn lemma_insert_to_multiset_pkg(s: Seq<crate::package::PackageV>, i: int, x: crate::package::PackageV)
    requires
        0 <= i <= s.len(),
    ensures
        s.insert(i, x).to_multiset() == s.to_multiset().insert(x),
{
    let t = s.insert(i, x);
    assert(t.remove(i) =~= s);
    t.to_multiset_ensures();
    assert(t[i] == x);
    assert(t.contains(x));
    assert(t.to_multiset().count(x) > 0);
    assert forall|y: crate::package::PackageV| true implies t.to_multiset().count(y) == s.to_multiset().insert(
        x,
    ).count(y) by {
        if y == x {
            assert(s.to_multiset().count(x) == t.to_multiset().remove(x).count(x));
        } else {
            assert(s.to_multiset().count(y) == t.to_multiset().remove(x).count(y));
        }
    }
    assert(t.to_multiset() =~= s.to_multiset().insert(x));
}

fn insert_by_name(out: &mut Vec<Package>, x: Package)
    requires
        sorted_by_name(old(out)@),
    ensures
        sorted_by_name(final(out)@),
        final(out)@.len() == old(out)@.len() + 1,
        final(out).deep_view().to_multiset() == old(out).deep_view().to_multiset().insert(x@),
{
    let ghost before = out@;
    let xn = chars_of(x.name.as_str());
    let mut p: usize = out.len();
    while p > 0 && !str_le_chars(&chars_of(out[p - 1].name.as_str()), &xn)
        invariant
            before == out@,
            xn@ == x@.name,
            p <= before.len(),
            forall|k: int| p <= k < before.len() ==> str_le(x@.name, #[trigger] before[k]@.name),
        decreases p,
    {
        proof {
            lemma_str_le_total(before[p - 1]@.name, x@.name);
        }
        p = p - 1;
    }
    proof {
        if p > 0 {
            assert forall|k: int| 0 <= k < p implies str_le(#[trigger] before[k]@.name, x@.name)
                by {
                if k < p - 1 {
                    lemma_str_le_trans(before[k]@.name, before[p - 1]@.name, x@.name);
                }
            }
        }
    }
    out.insert(p, x);
    proof {
        assert(out@ =~= before.insert(p as int, x));
        assert(out.deep_view() =~= before.map_values(|q: Package| q@).insert(p as int, x@));
        assert(before.map_values(|q: Package| q@) =~= old(out).deep_view());
        lemma_insert_to_multiset_pkg(old(out).deep_view(), p as int, x@);
        let now = out@;
        assert forall|i: int, j: int| 0 <= i < j < now.len() implies str_le(
            #[trigger] now[i]@.name,
            #[trigger] now[j]@.name,
        ) by {
            if j < p {
            } else if i > p {
            } else if i == p && j > p {
            } else if j == p {
            } else if i < p && j > p {
                lemma_str_le_trans(before[i]@.name, x@.name, before[j - 1]@.name);
            }
        }
    }
}

/// Sort a package list by name, keeping its contents.
pub fn sort_packages(list: Vec<Package>) -> (r: Vec<Package>)
    ensures
        sorted_by_name(r@),
        r.deep_view().to_multiset() == list.deep_view().to_multiset(),
        r@.len() == list@.len(),
{
    let ghost lv = list.deep_view();
    let mut out: Vec<Package> = Vec::new();
    proof {
        assert(out.deep_view() =~= Seq::<crate::package::PackageV>::empty());
        assert(lv.take(0) =~= Seq::<crate::package::PackageV>::empty());
        Seq::<crate::package::PackageV>::empty().to_multiset_ensures();
    }
    let mut i: usize = 0;
    while i < list.len()
        invariant
            lv == list.deep_view(),
            i <= lv.len(),
            out@.len() == i,
            sorted_by_name(out@),
            out.deep_view().to_multiset() == lv.take(i as int).to_multiset(),
        decreases lv.len() - i,
    {
        insert_by_name(&mut out, list[i].clone());
        proof {
            assert(lv.take(i + 1).drop_last() =~= lv.take(i as int));
            assert(lv.take(i + 1) =~= lv.take(i as int).push(lv[i as int]));
            lv.take(i as int).to_multiset_ensures();
        }
        i = i + 1;
    }
    proof {
        assert(lv.take(lv.len() as int) =~= lv);
    }
    out
}

/// Sort a package list by name and drop all but the first record of each
/// name.
pub fn dedup(vec: Vec<Package>) -> (r: Vec<Package>)
    ensures
        sorted_by_name(r@),
        forall|i: int, j: int| 0 <= i < j < r@.len() ==> r@[i]@.name != r@[j]@.name,
        forall|x: Seq<char>|
            names_of(r@).contains(x) == names_of(vec@).contains(x),
        forall|i: int| 0 <= i < r@.len() ==> view_in(vec@, #[trigger] r@[i]@),
{
    broadcast use vstd::seq_lib::group_seq_properties;

    let ghost vv = vec.deep_view();
    let sorted = sort_packages(vec);
    proof {
        sorted.deep_view().to_multiset_ensures();
        vv.to_multiset_ensures();
    }
    let ghost sv = sorted@;
    let mut out: Vec<Package> = Vec::new();
    let mut i: usize = 0;
    while i < sorted.len()
        invariant
            sv == sorted@,
            sorted_by_name(sv),
            i <= sv.len(),
            sorted_by_name(out@),
            forall|a: int, b: int| 0 <= a < b < out@.len() ==> out@[a]@.name != out@[b]@.name,
            forall|a: int|
                0 <= a < out@.len() ==> exists|j: int| 0 <= j < i && #[trigger] out@[a]@
                    == sv[j]@,
            forall|j: int|
                0 <= j < i ==> names_of(out@).contains(#[trigger] sv[j]@.name),
            out@.len() > 0 ==> i > 0 && out@.last()@.name == sv[i - 1]@.name,
        decreases sv.len() - i,
    {
        let cur = sorted[i].clone();
        assert(cur@ == sv[i as int]@);
        let take_it = if out.len() == 0 {
            true
        } else {
            let ln = chars_of(out[out.len() - 1].name.as_str());
            let cn = chars_of(cur.name.as_str());
            !crate::text::eq_chars(&ln, &cn)
        };
        let ghost obefore = out@;
        if take_it {
            proof {
                assert forall|a: int| 0 <= a < obefore.len() implies obefore[a]@.name
                    != sv[i as int]@.name by {
                    if obefore[a]@.name == sv[i as int]@.name {
                        if a < obefore.len() - 1 {
                            let last = obefore.len() - 1;
                            assert(str_le(obefore[a]@.name, obefore[last]@.name));
                            let jw = choose|jw: int|
                                0 <= jw < i && obefore[last]@ == sv[jw]@;
                            assert(str_le(sv[jw]@.name, sv[i as int]@.name));
                            lemma_str_le_trans(
                                obefore[a]@.name,
                                obefore[last]@.name,
                                sv[i as int]@.name,
                            );
                            lemma_str_le_antisym(obefore[a]@.name, obefore[last]@.name);
                        }
                    }
                }
            }
            out.push(cur);
            proof {
                assert forall|a: int, b: int|
                    0 <= a < b < out@.len() implies out@[a]@.name != out@[b]@.name by {
                    if b == out@.len() - 1 {
                        assert(out@[a]@.name != sv[i as int]@.name);
                    }
                }
                assert forall|i2: int, j2: int|
                    0 <= i2 < j2 < out@.len() implies str_le(
                    #[trigger] out@[i2]@.name,
                    #[trigger] out@[j2]@.name,
                ) by {
                    if j2 == out@.len() - 1 && out@.len() >= 2 {
                        let jw = choose|jw: int|
                            0 <= jw < i && obefore[obefore.len() - 1]@ == sv[jw]@;
                        assert(str_le(sv[jw]@.name, sv[i as int]@.name));
                        if i2 < obefore.len() - 1 {
                            lemma_str_le_trans(
                                out@[i2]@.name,
                                obefore[obefore.len() - 1]@.name,
                                sv[i as int]@.name,
                            );
                        }
                    }
                }
                assert forall|j: int| 0 <= j < i + 1 implies names_of(out@).contains(
                    #[trigger] sv[j]@.name,
                ) by {
                    if j < i {
                        let w = choose|w: int|
                            0 <= w < obefore.len() && names_of(obefore)[w] == sv[j]@.name;
                        assert(names_of(out@)[w] == sv[j]@.name);
                    } else {
                        assert(names_of(out@)[out@.len() - 1] == sv[i as int]@.name);
                    }
                }
            }
        } else {
            proof {
                assert(out@.last()@.name == sv[i as int]@.name);
                assert forall|j: int| 0 <= j < i + 1 implies names_of(out@).contains(
                    #[trigger] sv[j]@.name,
                ) by {
                    if j < i {
                    } else {
                        assert(names_of(out@)[out@.len() - 1] == sv[i as int]@.name);
                    }
                }
            }
        }
        i = i + 1;
    }
    proof {
        assert forall|x: Seq<char>| names_of(out@).contains(x) == names_of(vec@).contains(
            x,
        ) by {
            if names_of(out@).contains(x) {
                let a = choose|a: int| 0 <= a < out@.len() && names_of(out@)[a] == x;
                let j = choose|j: int| 0 <= j < sv.len() && out@[a]@ == sv[j]@;
                assert(sv[j]@.name == x);
                assert(sorted.deep_view()[j] == sv[j]@);
                assert(sorted.deep_view().to_multiset().count(sv[j]@) > 0) by {
                    assert(sorted.deep_view().contains(sv[j]@));
                }
                assert(vv.to_multiset().count(sv[j]@) > 0);
                assert(vv.contains(sv[j]@));
                let w = choose|w: int| 0 <= w < vv.len() && vv[w] == sv[j]@;
                assert(vec@[w]@ == sv[j]@);
                assert(names_of(vec@)[w] == x);
            }
            if names_of(vec@).contains(x) {
                let w = choose|w: int| 0 <= w < vec@.len() && names_of(vec@)[w] == x;
                assert(vv[w] == vec@[w]@);
                assert(vv.contains(vv[w]));
                assert(vv.to_multiset().count(vv[w]) > 0);
                assert(sorted.deep_view().to_multiset().count(vv[w]) > 0);
                assert(sorted.deep_view().contains(vv[w]));
                let j = choose|j: int| 0 <= j < sv.len() && sorted.deep_view()[j] == vv[w];
                assert(sv[j]@ == vv[w]);
                assert(names_of(out@).contains(sv[j]@.name));
            }
        }
        assert forall|a: int| 0 <= a < out@.len() implies view_in(vec@, #[trigger] out@[a]@) by {
            let j = choose|j: int| 0 <= j < sv.len() && out@[a]@ == sv[j]@;
            assert(sorted.deep_view().contains(sv[j]@)) by {
                assert(sorted.deep_view()[j] == sv[j]@);
            }
            assert(sorted.deep_view().to_multiset().count(sv[j]@) > 0);
            assert(vv.to_multiset().count(sv[j]@) > 0);
            assert(vv.contains(sv[j]@));
            let w = choose|w: int| 0 <= w < vv.len() && vv[w] == sv[j]@;
            assert(out@[a]@ == vec@[w]@);
        }
    }
    out
}

/// Whether an install should proceed: an already installed package is only
/// reinstalled under force, anything else is installed.
pub fn do_install(p: &Package, force: bool) -> (r: bool)
    ensures
        r == (p@.status == PackageStatus::Installed ==> force),
{
    match p.status {
        PackageStatus::Installed => force,
        _ => true,
    }
}

} // verus!

verus! {

/// The word that marks an available package in a display line.
pub open spec fn avail_word() -> Seq<char> {
    seq!['A', 'v', 'a', 'i', 'l', 'a', 'b', 'l', 'e']
}

/// The word that marks an installed package in a display line.
pub open spec fn inst_word() -> Seq<char> {
    seq!['I', 'n', 's', 't', 'a', 'l', 'l', 'e', 'd']
}

/// The ANSI rendering of a status fragment: grey for available, bold cyan
/// for installed.
pub open spec fn colored_status(status: Seq<char>) -> Seq<char> {
    if has_sub(status, avail_word()) {
        seq!['\u{1b}', '[', '3', '0', 'm'] + status + seq!['\u{1b}', '[', '0', 'm']
    } else {
        seq!['\u{1b}', '[', '3', '6', ';', '1', 'm'] + status + seq!['\u{1b}', '[', '0', 'm']
    }
}

/// What a formatted display line must be: the package part, padding to the
/// given width, and the coloured status part.
pub open spec fn formatted_line(line: Seq<char>, max_length: int) -> Seq<char> {
    let parts = split_on(line, '~');
    if parts.len() < 2 {
        line
    } else {
        let info = trim(parts[0]);
        let status = trim(parts[1]);
        let pad = if max_length >= info.len() + 1 {
            (max_length - info.len() - 1) as nat
        } else {
            0nat
        };
        info + Seq::new(pad, |i: int| ' ') + seq![' ', '~', ' '] + colored_status(status)
    }
}

/// Align a `package ~ status` line to a column and colour the status. A line
/// without the separator is returned as it is; a status fragment naming
/// neither state is left out by the caller.
pub fn format_line(line: &str, max_length: usize) -> (r: String)
    requires
        ({
            let parts = split_on(line@, '~');
            parts.len() >= 2 ==> has_sub(trim(parts[1]), avail_word()) || has_sub(
                trim(parts[1]),
                inst_word(),
            )
        }),
    ensures
        r@ == formatted_line(line@, max_length as int),
{
    let lv = chars_of(line);
    let parts = split_on_chars(&lv, '~');
    if parts.len() < 2 {
        return line.to_owned();
    }
    assert(parts.deep_view()[0] == split_on(line@, '~')[0]);
    assert(parts.deep_view()[1] == split_on(line@, '~')[1]);
    let info = trim_chars(&chars_of(parts[0].as_str()));
    let status = trim_chars(&chars_of(parts[1].as_str()));
    let mut availp: Vec<char> = Vec::new();
    availp.push('A');
    availp.push('v');
    availp.push('a');
    availp.push('i');
    availp.push('l');
    availp.push('a');
    availp.push('b');
    availp.push('l');
    availp.push('e');
    assert(availp@ =~= avail_word());
    let pad: usize = if max_length > info.len() {
        max_length - info.len() - 1
    } else {
        0
    };
    let mut out = crate::text::copy_range(&info, 0, info.len());
    let mut i: usize = 0;
    let ghost base = out@;
    while i < pad
        invariant
            out@.len() == base.len() + i,
            i <= pad,
            out@ == base + Seq::new(i as nat, |k: int| ' '),
        decreases pad - i,
    {
        out.push(' ');
        i = i + 1;
        assert(out@ =~= base + Seq::new(i as nat, |k: int| ' '));
    }
    out.push(' ');
    out.push('~');
    out.push(' ');
    if crate::text::contains_sub(&status, &availp) {
        out.push('\u{1b}');
        out.push('[');
        out.push('3');
        out.push('0');
        out.push('m');
    } else {
        out.push('\u{1b}');
        out.push('[');
        out.push('3');
        out.push('6');
        out.push(';');
        out.push('1');
        out.push('m');
    }
    let mut st = crate::text::copy_range(&status, 0, status.len());
    out.append(&mut st);
    out.push('\u{1b}');
    out.push('[');
    out.push('0');
    out.push('m');
    proof {
        assert(out@ =~= formatted_line(line@, max_length as int));
    }
    string_of(&out)
}

} // verus!
