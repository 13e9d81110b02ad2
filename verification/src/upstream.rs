//! Upstream version discovery: turning tag listings into candidate version
//! strings, and the domain-specific comparator that orders them.
//!
//! The comparator parses a version into `(major, minor, patch, build, rc)`:
//! the numeric dot-components (missing ones are zero) and a
//! release-candidate ordinal taken from an `rc<N>` suffix, defaulting to the
//! largest possible value when absent so that a stable version sorts after
//! any of its release candidates. It is a best-effort heuristic over
//! heterogeneous tag conventions, not semantic versioning.

use vstd::prelude::*;

use crate::package::Package;
use crate::text::{
    after_sub, all_digits, before_sub, chars_of, contains_sub, copy_range, digits_val,
    filter_digits, filter_digits_chars, find_sub_chars, has_sub, last_segment,
    last_segment_chars, lemma_sub_parts, lemma_sub_parts_none, lower, lower_chars, parse_u64,
    parse_u64_chars, replace_all, replace_all_chars, split_on, split_on_chars, string_of,
    strip_prefix_char, strip_prefix_char_chars, strip_suffix, strip_suffix_chars,
    strip_to_digit, strip_to_digit_chars, trim, trim_chars,
};

verus! {

/// The `rc` marker.
pub open spec fn rc_pat() -> Seq<char> {
    seq!['r', 'c']
}

/// The `.rc` marker that separates the stable part from the ordinal.
pub open spec fn dot_rc_pat() -> Seq<char> {
    seq!['.', 'r', 'c']
}

/// The tag-dereference remnant `^{}` that `git` appends to peeled tags.
pub open spec fn caret_pat() -> Seq<char> {
    seq!['^', '{', '}']
}

/// A version with a bare `rc` marker gets it normalized to `.rc` first.
pub open spec fn rc_normal(v: Seq<char>) -> Seq<char> {
    if has_sub(v, rc_pat()) && !has_sub(v, dot_rc_pat()) {
        replace_all(v, rc_pat(), dot_rc_pat())
    } else {
        v
    }
}

/// The numeric part of the version: what stands before the first `.rc`.
pub open spec fn stable_part(v: Seq<char>) -> Seq<char> {
    before_sub(rc_normal(v), dot_rc_pat())
}

/// The release-candidate ordinal: parsed from what follows the first `.rc`
/// (zero when that does not parse), or the largest value when the version
/// carries no marker, so stable versions sort last.
pub open spec fn rc_ord(v: Seq<char>) -> u32 {
    if has_sub(rc_normal(v), dot_rc_pat()) {
        let tail = after_sub(rc_normal(v), dot_rc_pat());
        match parse_u64(tail) {
            Option::Some(n) => if n <= u32::MAX as u64 {
                n as u32
            } else {
                0
            },
            Option::None => 0,
        }
    } else {
        u32::MAX
    }
}

/// One dot-component's value: its digits, parsed; a component without a
/// parseable value is dropped.
pub open spec fn comp_val(piece: Seq<char>) -> Option<u64> {
    parse_u64(filter_digits(piece))
}

/// The parseable numeric components, in order.
pub open spec fn numeric_comps(pieces: Seq<Seq<char>>) -> Seq<u64>
    decreases pieces.len(),
{
    if pieces.len() == 0 {
        Seq::empty()
    } else {
        match comp_val(pieces[0]) {
            Option::Some(n) => seq![n] + numeric_comps(pieces.drop_first()),
            Option::None => numeric_comps(pieces.drop_first()),
        }
    }
}

/// The `i`-th component, zero when missing.
pub open spec fn comp_or_zero(cs: Seq<u64>, i: int) -> u64 {
    if 0 <= i < cs.len() {
        cs[i]
    } else {
        0
    }
}

/// The five-part sort key of a version string.
pub open spec fn version_key(v: Seq<char>) -> (u64, u64, u64, u64, u32) {
    let cs = numeric_comps(split_on(stable_part(v), '.'));
    (comp_or_zero(cs, 0), comp_or_zero(cs, 1), comp_or_zero(cs, 2), comp_or_zero(cs, 3), rc_ord(
        v,
    ))
}

/// Lexicographic order on version keys.
pub open spec fn key_le(a: (u64, u64, u64, u64, u32), b: (u64, u64, u64, u64, u32)) -> bool {
    if a.0 != b.0 {
        a.0 < b.0
    } else if a.1 != b.1 {
        a.1 < b.1
    } else if a.2 != b.2 {
        a.2 < b.2
    } else if a.3 != b.3 {
        a.3 < b.3
    } else {
        a.4 <= b.4
    }
}

/// `a` sorts no later than `b`.
pub open spec fn version_le(a: Seq<char>, b: Seq<char>) -> bool {
    key_le(version_key(a), version_key(b))
}

fn rc_pat_vec() -> (r: Vec<char>)
    ensures
        r@ == rc_pat(),
{
    let mut v: Vec<char> = Vec::new();
    v.push('r');
    v.push('c');
    assert(v@ =~= rc_pat());
    v
}

fn dot_rc_pat_vec() -> (r: Vec<char>)
    ensures
        r@ == dot_rc_pat(),
{
    let mut v: Vec<char> = Vec::new();
    v.push('.');
    v.push('r');
    v.push('c');
    assert(v@ =~= dot_rc_pat());
    v
}

fn caret_pat_vec() -> (r: Vec<char>)
    ensures
        r@ == caret_pat(),
{
    let mut v: Vec<char> = Vec::new();
    v.push('^');
    v.push('{');
    v.push('}');
    assert(v@ =~= caret_pat());
    v
}

/// Parse a version string into its five-part sort key.
pub fn parse_version(v: &str) -> (r: (u64, u64, u64, u64, u32))
    ensures
        r == version_key(v@),
{
    let chars = chars_of(v);
    let rcp = rc_pat_vec();
    let dotrcp = dot_rc_pat_vec();
    let norm = if contains_sub(&chars, &rcp) && !contains_sub(&chars, &dotrcp) {
        replace_all_chars(&chars, &rcp, &dotrcp)
    } else {
        copy_range(&chars, 0, chars.len())
    };
    assert(norm@ == rc_normal(v@));
    let ntot = norm.len();
    let (stable, rc): (Vec<char>, u32) = match find_sub_chars(&norm, &dotrcp) {
        Some(i) => {
            proof {
                lemma_sub_parts(norm@, dot_rc_pat(), i as int);
                assert(i + 3 <= ntot);
            }
            let st = copy_range(&norm, 0, i);
            let tail = copy_range(&norm, i + 3, norm.len());
            assert(st@ == norm@.subrange(0, i as int));
            assert(tail@ =~= norm@.skip(i + dot_rc_pat().len()));
            let ord: u32 = match parse_u64_chars(&tail) {
                Some(n) => if n <= 0xffff_ffffu64 {
                    n as u32
                } else {
                    0
                },
                None => 0,
            };
            (st, ord)
        },
        None => {
            proof {
                lemma_sub_parts_none(norm@, dot_rc_pat());
            }
            (copy_range(&norm, 0, norm.len()), u32::MAX)
        },
    };
    assert(stable@ == stable_part(v@));
    assert(rc == rc_ord(v@));
    let pieces = split_on_chars(&stable, '.');
    let ghost pv = pieces.deep_view();
    let mut comps: Vec<u64> = Vec::new();
    proof {
        assert(pv.skip(0) =~= pv);
        assert(comps@ + numeric_comps(pv) =~= numeric_comps(pv));
    }
    let mut i: usize = 0;
    while i < pieces.len()
        invariant
            pv == pieces.deep_view(),
            i <= pv.len(),
            numeric_comps(pv) == comps@ + numeric_comps(pv.skip(i as int)),
        decreases pv.len() - i,
    {
        proof {
            assert(pv.skip(i as int)[0] == pv[i as int]);
            assert(pv.skip(i as int).drop_first() =~= pv.skip(i + 1));
        }
        let digits = filter_digits_chars(&chars_of(pieces[i].as_str()));
        match parse_u64_chars(&digits) {
            Some(n) => {
                assert(comp_val(pv[i as int]) == Option::Some(n));
                let ghost before = comps@;
                comps.push(n);
                assert(comps@ =~= before.push(n));
                assert(comps@ + numeric_comps(pv.skip(i + 1)) =~= before + (seq![n]
                    + numeric_comps(pv.skip(i + 1))));
            },
            None => {
                assert(comp_val(pv[i as int]) == Option::<u64>::None);
            },
        }
        i = i + 1;
    }
    proof {
        assert(pv.skip(pv.len() as int) =~= Seq::<Seq<char>>::empty());
        assert(numeric_comps(Seq::<Seq<char>>::empty()) =~= Seq::<u64>::empty());
        assert(comps@ + Seq::<u64>::empty() =~= comps@);
        assert(comps@ == numeric_comps(pv));
    }
    let c0: u64 = if comps.len() > 0 {
        comps[0]
    } else {
        0
    };
    let c1: u64 = if comps.len() > 1 {
        comps[1]
    } else {
        0
    };
    let c2: u64 = if comps.len() > 2 {
        comps[2]
    } else {
        0
    };
    let c3: u64 = if comps.len() > 3 {
        comps[3]
    } else {
        0
    };
    (c0, c1, c2, c3, rc)
}

/// Whether `a` sorts no later than `b` under the version comparator.
pub fn version_le_exec(a: &str, b: &str) -> (r: bool)
    ensures
        r == version_le(a@, b@),
{
    let ka = parse_version(a);
    let kb = parse_version(b);
    if ka.0 != kb.0 {
        ka.0 < kb.0
    } else if ka.1 != kb.1 {
        ka.1 < kb.1
    } else if ka.2 != kb.2 {
        ka.2 < kb.2
    } else if ka.3 != kb.3 {
        ka.3 < kb.3
    } else {
        ka.4 <= kb.4
    }
}

} // verus!

verus! {

/// The version comparator orders any two strings.
pub proof fn lemma_version_le_total(a: Seq<char>, b: Seq<char>)
    ensures
        version_le(a, b) || version_le(b, a),
{
}

/// The version comparator is transitive.
pub proof fn lemma_version_le_trans(a: Seq<char>, b: Seq<char>, c: Seq<char>)
    requires
        version_le(a, b),
        version_le(b, c),
    ensures
        version_le(a, c),
{
}

/// Inserting anywhere in a sequence inserts into its multiset.
proof fn lemma_insert_to_multiset(s: Seq<Seq<char>>, i: int, x: Seq<char>)
    requires
        0 <= i <= s.len(),
    ensures
        s.insert(i, x).to_multiset() == s.to_multiset().insert(x),
    decreases s.len(),
{
    broadcast use vstd::seq_lib::group_seq_properties;

    let t = s.insert(i, x);
    assert(t.remove(i) =~= s);
    t.to_multiset_ensures();
    assert(t[i] == x);
    assert(t.remove(i).to_multiset() =~= t.to_multiset().remove(x));
    assert(t.contains(x));
    assert(t.to_multiset().count(x) > 0);
    assert forall|y: Seq<char>| true implies t.to_multiset().count(y) == s.to_multiset().insert(
        x,
    ).count(y) by {
        if y == x {
            assert(s.to_multiset().count(x) == t.to_multiset().remove(x).count(x));
        } else {
            assert(s.to_multiset().count(y) == t.to_multiset().remove(x).count(y));
        }
    }
    assert(t.to_multiset() =~= s.to_multiset().insert(x));
}

/// Every pair stands in comparator order.
pub open spec fn sorted_versions(vs: Seq<Seq<char>>) -> bool {
    forall|i: int, j: int| 0 <= i < j < vs.len() ==> version_le(#[trigger] vs[i], #[trigger] vs[j])
}

/// A candidate survives filtering when it carries neither a tag-dereference
/// remnant nor a pre-release marker.
pub open spec fn keep_version(s: Seq<char>) -> bool {
    &&& !has_sub(s, caret_pat())
    &&& !has_sub(s, rc_pat())
    &&& !has_sub(s, seq!['a', 'l', 'p', 'h', 'a'])
    &&& !has_sub(s, seq!['b', 'e', 't', 'a'])
}

/// The filtered, trimmed candidates, in source order.
pub open spec fn cleaned(vs: Seq<Seq<char>>) -> Seq<Seq<char>>
    decreases vs.len(),
{
    if vs.len() == 0 {
        Seq::empty()
    } else if keep_version(vs[0]) {
        seq![trim(vs[0])] + cleaned(vs.drop_first())
    } else {
        cleaned(vs.drop_first())
    }
}

fn keep_version_exec(v: &Vec<char>) -> (r: bool)
    ensures
        r == keep_version(v@),
{
    let caret = caret_pat_vec();
    let rcp = rc_pat_vec();
    let mut alpha: Vec<char> = Vec::new();
    alpha.push('a');
    alpha.push('l');
    alpha.push('p');
    alpha.push('h');
    alpha.push('a');
    assert(alpha@ =~= seq!['a', 'l', 'p', 'h', 'a']);
    let mut beta: Vec<char> = Vec::new();
    beta.push('b');
    beta.push('e');
    beta.push('t');
    beta.push('a');
    assert(beta@ =~= seq!['b', 'e', 't', 'a']);
    !contains_sub(v, &caret) && !contains_sub(v, &rcp) && !contains_sub(v, &alpha)
        && !contains_sub(v, &beta)
}

fn insert_sorted(out: &mut Vec<String>, x: String)
    requires
        sorted_versions(old(out).deep_view()),
    ensures
        sorted_versions(final(out).deep_view()),
        final(out).deep_view().to_multiset() == old(out).deep_view().to_multiset().insert(x@),
{
    let ghost before = out.deep_view();
    let mut p: usize = out.len();
    while p > 0 && !version_le_exec(out[p - 1].as_str(), x.as_str())
        invariant
            before == out.deep_view(),
            p <= before.len(),
            forall|k: int| p <= k < before.len() ==> version_le(x@, #[trigger] before[k]),
        decreases p,
    {
        proof {
            lemma_version_le_total(before[p - 1], x@);
        }
        p = p - 1;
    }
    proof {
        if p > 0 {
            assert(version_le(before[p - 1], x@));
            assert forall|k: int| 0 <= k < p implies version_le(#[trigger] before[k], x@) by {
                if k < p - 1 {
                    lemma_version_le_trans(before[k], before[p - 1], x@);
                }
            }
        }
    }
    out.insert(p, x);
    proof {
        assert(out.deep_view() =~= before.insert(p as int, x@));
        lemma_insert_to_multiset(before, p as int, x@);
        let now = out.deep_view();
        assert forall|i: int, j: int| 0 <= i < j < now.len() implies version_le(
            #[trigger] now[i],
            #[trigger] now[j],
        ) by {
            if j < p {
                assert(now[i] == before[i] && now[j] == before[j]);
            } else if i > p {
                assert(now[i] == before[i - 1] && now[j] == before[j - 1]);
            } else if i == p && j > p {
                assert(now[i] == x@ && now[j] == before[j - 1]);
            } else if j == p {
                assert(now[i] == before[i] && now[j] == x@);
            } else {
                assert(i < p && j > p);
                assert(now[i] == before[i] && now[j] == before[j - 1]);
                assert(version_le(before[i], x@) || p == 0);
                lemma_version_le_trans(before[i], x@, before[j - 1]);
            }
        }
    }
}

/// Filter out pre-release and dereference candidates, trim the rest, and
/// sort them by the version comparator, smallest first.
pub fn vsort(versions: Vec<String>) -> (r: Vec<String>)
    ensures
        sorted_versions(r.deep_view()),
        r.deep_view().to_multiset() == cleaned(versions.deep_view()).to_multiset(),
{
    let ghost vv = versions.deep_view();
    let mut pool: Vec<String> = Vec::new();
    proof {
        assert(vv.skip(0) =~= vv);
        assert(pool.deep_view() + cleaned(vv) =~= cleaned(vv));
    }
    let mut i: usize = 0;
    while i < versions.len()
        invariant
            vv == versions.deep_view(),
            i <= vv.len(),
            cleaned(vv) == pool.deep_view() + cleaned(vv.skip(i as int)),
        decreases vv.len() - i,
    {
        proof {
            assert(vv.skip(i as int)[0] == vv[i as int]);
            assert(vv.skip(i as int).drop_first() =~= vv.skip(i + 1));
        }
        let cs = chars_of(versions[i].as_str());
        if keep_version_exec(&cs) {
            let ghost before = pool.deep_view();
            let t = trim_chars(&cs);
            pool.push(string_of(&t));
            assert(pool.deep_view() =~= before.push(trim(vv[i as int])));
            assert(pool.deep_view() + cleaned(vv.skip(i + 1)) =~= before + (seq![trim(
                vv[i as int],
            )] + cleaned(vv.skip(i + 1))));
        }
        i = i + 1;
    }
    proof {
        assert(vv.skip(vv.len() as int) =~= Seq::<Seq<char>>::empty());
        assert(cleaned(Seq::<Seq<char>>::empty()) =~= Seq::<Seq<char>>::empty());
        assert(pool.deep_view() + Seq::<Seq<char>>::empty() =~= pool.deep_view());
        assert(pool.deep_view() == cleaned(vv));
    }
    let ghost pool_v = pool.deep_view();
    let mut out: Vec<String> = Vec::new();
    proof {
        broadcast use vstd::seq_lib::group_seq_properties;

        assert(out.deep_view() =~= Seq::<Seq<char>>::empty());
        assert(pool_v.take(0) =~= Seq::<Seq<char>>::empty());
        Seq::<Seq<char>>::empty().to_multiset_ensures();
    }
    let mut k: usize = 0;
    while k < pool.len()
        invariant
            pool_v == pool.deep_view(),
            k <= pool_v.len(),
            sorted_versions(out.deep_view()),
            out.deep_view().to_multiset() == pool_v.take(k as int).to_multiset(),
        decreases pool_v.len() - k,
    {
        insert_sorted(&mut out, pool[k].clone());
        proof {
            assert(pool_v.take(k + 1).drop_last() =~= pool_v.take(k as int));
            assert(pool_v.take(k + 1) =~= pool_v.take(k as int).push(pool_v[k as int]));
            pool_v.take(k as int).to_multiset_ensures();
        }
        k = k + 1;
    }
    proof {
        assert(pool_v.take(pool_v.len() as int) =~= pool_v);
    }
    out
}

} // verus!

verus! {

/// The candidate version a tag line yields: its last path segment,
/// lower-cased, separators normalized, the package's own name stripped,
/// everything before the first digit dropped, and a trailing dereference
/// remnant removed.
pub open spec fn candidate_of(tag: Seq<char>, name: Seq<char>) -> Seq<char> {
    let seg = last_segment(tag, '/');
    let a = lower(seg);
    let b = replace_all(a, seq!['_'], seq!['-']);
    let c = replace_all(b, name, Seq::empty());
    let d = replace_all(c, seq!['-'], seq!['.']);
    strip_suffix(strip_to_digit(d), caret_pat())
}

/// Every tag's candidate, in order.
pub open spec fn candidates_of(tags: Seq<Seq<char>>, name: Seq<char>) -> Seq<Seq<char>> {
    tags.map_values(|t: Seq<char>| candidate_of(t, name))
}

/// Why no upstream version could be determined.
#[derive(Clone, Copy, PartialEq, Eq, Structural, Debug)]
pub enum UpstreamError {
    /// The package has no upstream configured: not applicable, never a
    /// failure.
    EmptyUpstream,
    /// No usable candidate was left after filtering.
    NoVersionsFound,
}

fn candidate_exec(tag: &String, name: &Vec<char>) -> (r: String)
    ensures
        r@ == candidate_of(tag@, name@),
{
    let tv = chars_of(tag.as_str());
    let seg = last_segment_chars(&tv, '/');
    let a = lower_chars(&seg);
    let mut us: Vec<char> = Vec::new();
    us.push('_');
    assert(us@ =~= seq!['_']);
    let mut dash: Vec<char> = Vec::new();
    dash.push('-');
    assert(dash@ =~= seq!['-']);
    let mut dot: Vec<char> = Vec::new();
    dot.push('.');
    assert(dot@ =~= seq!['.']);
    let empty: Vec<char> = Vec::new();
    assert(empty@ =~= Seq::<char>::empty());
    let b = replace_all_chars(&a, &us, &dash);
    let c = replace_all_chars(&b, name, &empty);
    let d = replace_all_chars(&c, &dash, &dot);
    let e = strip_to_digit_chars(&d);
    let caret = caret_pat_vec();
    let f = strip_suffix_chars(&e, &caret);
    string_of(&f)
}

/// The newest upstream version among the given tag lines, by the version
/// comparator, after filtering pre-release candidates. A package without an
/// upstream yields `EmptyUpstream`; an empty filtered pool yields
/// `NoVersionsFound`; otherwise the maximum candidate is returned.
#[verifier::rlimit(100)]
pub fn latest(pkg: &Package, tags: &Vec<String>) -> (r: Result<String, UpstreamError>)
    ensures
        ({
            let pool = cleaned(candidates_of(tags.deep_view(), pkg@.name));
            match r {
                Ok(v) => pkg@.upstream.len() > 0 && pool.contains(v@) && (forall|x: Seq<char>|
                    pool.contains(x) ==> version_le(x, v@)),
                Err(UpstreamError::EmptyUpstream) => pkg@.upstream.len() == 0,
                Err(UpstreamError::NoVersionsFound) => pkg@.upstream.len() > 0 && pool.len()
                    == 0,
            }
        }),
{
    broadcast use vstd::seq_lib::group_seq_properties;

    if pkg.upstream.as_str().unicode_len() == 0 {
        return Err(UpstreamError::EmptyUpstream);
    }
    let namev = chars_of(pkg.name.as_str());
    let ghost tv = tags.deep_view();
    let mut cands: Vec<String> = Vec::new();
    let mut i: usize = 0;
    while i < tags.len()
        invariant
            tv == tags.deep_view(),
            i <= tv.len(),
            namev@ == pkg@.name,
            cands@.len() == i,
            forall|k: int| 0 <= k < i ==> cands@[k]@ == candidate_of(#[trigger] tv[k], pkg@.name),
        decreases tv.len() - i,
    {
        cands.push(candidate_exec(&tags[i], &namev));
        i = i + 1;
    }
    proof {
        assert forall|k: int| 0 <= k < cands@.len() implies cands.deep_view()[k]
            == candidates_of(tv, pkg@.name)[k] by {
            assert(cands.deep_view()[k] == cands@[k]@);
        }
        assert(cands.deep_view() =~= candidates_of(tv, pkg@.name));
    }
    let sorted = vsort(cands);
    let ghost pool = cleaned(candidates_of(tv, pkg@.name));
    proof {
        sorted.deep_view().to_multiset_ensures();
        pool.to_multiset_ensures();
        assert(sorted.deep_view().len() == pool.len()) by {
            assert(sorted.deep_view().to_multiset().len() == pool.to_multiset().len());
        }
    }
    if sorted.len() == 0 {
        return Err(UpstreamError::NoVersionsFound);
    }
    let best = sorted[sorted.len() - 1].clone();
    proof {
        let sv = sorted.deep_view();
        assert(best@ == sv.last());
        assert(sv.contains(sv.last()));
        assert(pool.to_multiset().count(best@) > 0);
        assert(pool.contains(best@));
        assert forall|x: Seq<char>| pool.contains(x) implies version_le(x, best@) by {
            assert(pool.to_multiset().count(x) > 0);
            assert(sv.to_multiset().count(x) > 0);
            assert(sv.contains(x));
            let w = choose|w: int| 0 <= w < sv.len() && sv[w] == x;
            if w < sv.len() - 1 {
                assert(version_le(sv[w], sv[sv.len() - 1]));
            } else {
                lemma_version_le_total(x, x);
            }
        }
    }
    Ok(best)
}

/// What a custom version command's output is taken as: trimmed, a trailing
/// dereference remnant and a leading `v` stripped.
pub fn clean_version_output(s: &str) -> (r: String)
    ensures
        r@ == strip_prefix_char(strip_suffix(trim(s@), caret_pat()), 'v'),
{
    let v = chars_of(s);
    let t = trim_chars(&v);
    let caret = caret_pat_vec();
    let u = strip_suffix_chars(&t, &caret);
    let w = strip_prefix_char_chars(&u, 'v');
    string_of(&w)
}

/// The per-package outcome of an upstream check.
#[derive(Debug)]
pub enum UpstreamReport {
    /// The declared version matches upstream.
    Current,
    /// Upstream knows a different version than the declared one.
    Outdated { latest: String },
    /// The package has no upstream configured; silently skipped.
    Skipped,
    /// No version could be determined; reported per package.
    Failed,
}

/// Classify one package's upstream probe: a version equal to the declared
/// one is current, a different one outdated; a missing upstream is skipped
/// silently, any other failure reported.
pub fn check_upstream(pkg: &Package, outcome: Result<String, UpstreamError>) -> (r:
    UpstreamReport)
    ensures
        match r {
            UpstreamReport::Current => outcome matches Ok(v) && v@ == pkg@.version,
            UpstreamReport::Outdated { latest } => outcome matches Ok(v) && v@ == latest@ && v@
                != pkg@.version,
            UpstreamReport::Skipped => outcome == Result::<String, UpstreamError>::Err(
                UpstreamError::EmptyUpstream,
            ),
            UpstreamReport::Failed => outcome == Result::<String, UpstreamError>::Err(
                UpstreamError::NoVersionsFound,
            ),
        },
{
    match outcome {
        Ok(v) => {
            if v.eq(&pkg.version) {
                UpstreamReport::Current
            } else {
                UpstreamReport::Outdated { latest: v }
            }
        },
        Err(UpstreamError::EmptyUpstream) => UpstreamReport::Skipped,
        Err(UpstreamError::NoVersionsFound) => UpstreamReport::Failed,
    }
}

} // verus!
