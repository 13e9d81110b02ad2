//! The package store's serialized form: the full ordered record list as one
//! text, written and read back losslessly.
//!
//! Every value is length-prefixed (a decimal length, a colon, then exactly
//! that many characters), so no escaping is needed and decoding is
//! unambiguous: a record is its eleven text fields, each preceded by its
//! field name and in fixed order, followed by one named status letter; the
//! store is a count followed by its records. [`lemma_store_roundtrip`]
//! states that decoding an encoded store yields exactly the records that
//! went in.

use vstd::prelude::*;

use crate::package::{Package, PackageStatus, PackageV};
use crate::text::{all_digits, digit_val, digits_val, drop_until, is_digit, take_until};

verus! {

/// The decimal digit character of `n < 10`.
pub open spec fn digit_char(n: nat) -> char {
    if n == 0 {
        '0'
    } else if n == 1 {
        '1'
    } else if n == 2 {
        '2'
    } else if n == 3 {
        '3'
    } else if n == 4 {
        '4'
    } else if n == 5 {
        '5'
    } else if n == 6 {
        '6'
    } else if n == 7 {
        '7'
    } else if n == 8 {
        '8'
    } else {
        '9'
    }
}

/// `n` in decimal, most significant digit first, no leading zeros.
pub open spec fn dec(n: nat) -> Seq<char>
    decreases n,
{
    if n < 10 {
        seq![digit_char(n)]
    } else {
        dec(n / 10) + seq![digit_char(n % 10)]
    }
}

/// A decimal rendering is non-empty, all digits, and reads back as its
/// value.
pub proof fn lemma_dec(n: nat)
    ensures
        dec(n).len() >= 1,
        all_digits(dec(n)),
        digits_val(dec(n)) == n,
        !dec(n).contains(':'),
    decreases n,
{
    if n < 10 {
        assert(is_digit(digit_char(n)));
        assert(digit_val(digit_char(n)) == n);
        assert(dec(n) =~= seq![digit_char(n)]);
        assert(dec(n).drop_last() =~= Seq::<char>::empty());
        assert(dec(n).last() == digit_char(n));
        assert(digits_val(Seq::<char>::empty()) == 0);
        assert(digits_val(dec(n)) == digits_val(dec(n).drop_last()) * 10 + digit_val(
            dec(n).last(),
        ));
        assert forall|i: int| 0 <= i < dec(n).len() implies is_digit(#[trigger] dec(n)[i]) by {
            assert(dec(n)[i] == digit_char(n));
        }
        assert(!dec(n).contains(':')) by {
            if dec(n).contains(':') {
                let w = choose|w: int| 0 <= w < dec(n).len() && dec(n)[w] == ':';
                assert(dec(n)[w] == digit_char(n));
            }
        }
    } else {
        lemma_dec(n / 10);
        let d = (n % 10) as nat;
        assert(d < 10);
        assert(is_digit(digit_char(d)));
        assert(digit_val(digit_char(d)) == d);
        assert(dec(n).drop_last() =~= dec(n / 10));
        assert(dec(n).last() == digit_char(d));
        assert(digits_val(dec(n)) == digits_val(dec(n / 10)) * 10 + digit_val(digit_char(d)));
        assert(n / 10 * 10 + n % 10 == n) by (nonlinear_arith);
        assert forall|i: int| 0 <= i < dec(n).len() implies is_digit(#[trigger] dec(n)[i]) by {
            if i < dec(n / 10).len() {
                assert(dec(n)[i] == dec(n / 10)[i]);
            } else {
                assert(dec(n)[i] == digit_char(d));
            }
        }
        assert(!dec(n).contains(':')) by {
            if dec(n).contains(':') {
                let w = choose|w: int| 0 <= w < dec(n).len() && dec(n)[w] == ':';
                if w < dec(n / 10).len() {
                    assert(dec(n / 10)[w] == ':');
                } else {
                    assert(dec(n)[w] == digit_char(d));
                }
            }
        }
    }
}

/// A length-prefixed text: its length in decimal, a colon, the text.
pub open spec fn enc_str(s: Seq<char>) -> Seq<char> {
    dec(s.len()) + seq![':'] + s
}

/// A length-prefixed list of length-prefixed texts.
pub open spec fn enc_items(ss: Seq<Seq<char>>) -> Seq<char>
    decreases ss.len(),
{
    if ss.len() == 0 {
        Seq::empty()
    } else {
        enc_str(ss[0]) + enc_items(ss.drop_first())
    }
}

/// The encoding of a list: its count, a colon, its items.
pub open spec fn enc_list(ss: Seq<Seq<char>>) -> Seq<char> {
    dec(ss.len()) + seq![':'] + enc_items(ss)
}

/// The one-letter encoding of a status.
pub open spec fn status_char(st: PackageStatus) -> char {
    match st {
        PackageStatus::Available => 'A',
        PackageStatus::Installed => 'I',
        PackageStatus::Removed => 'R',
    }
}

/// The field names a record is written with, in the order they appear.
pub open spec fn lbl_name() -> Seq<char> {
    seq!['n', 'a', 'm', 'e']
}

pub open spec fn lbl_version() -> Seq<char> {
    seq!['v', 'e', 'r', 's', 'i', 'o', 'n']
}

pub open spec fn lbl_installed_version() -> Seq<char> {
    seq!['i', 'n', 's', 't', 'a', 'l', 'l', 'e', 'd', '_', 'v', 'e', 'r', 's', 'i', 'o', 'n']
}

pub open spec fn lbl_link() -> Seq<char> {
    seq!['l', 'i', 'n', 'k']
}

pub open spec fn lbl_downloads() -> Seq<char> {
    seq!['d', 'o', 'w', 'n', 'l', 'o', 'a', 'd', 's']
}

pub open spec fn lbl_upstream() -> Seq<char> {
    seq!['u', 'p', 's', 't', 'r', 'e', 'a', 'm']
}

pub open spec fn lbl_selector() -> Seq<char> {
    seq!['s', 'e', 'l', 'e', 'c', 't', 'o', 'r']
}

pub open spec fn lbl_version_command() -> Seq<char> {
    seq!['v', 'e', 'r', 's', 'i', 'o', 'n', '_', 'c', 'o', 'm', 'm', 'a', 'n', 'd']
}

pub open spec fn lbl_news() -> Seq<char> {
    seq!['n', 'e', 'w', 's']
}

pub open spec fn lbl_deps() -> Seq<char> {
    seq!['d', 'e', 'p', 's']
}

pub open spec fn lbl_description() -> Seq<char> {
    seq!['d', 'e', 's', 'c', 'r', 'i', 'p', 't', 'i', 'o', 'n']
}

pub open spec fn lbl_status() -> Seq<char> {
    seq!['s', 't', 'a', 't', 'u', 's']
}

/// A named text field: its name, then its length-prefixed value. Kept
/// opaque so that record-level reasoning treats a field as one block.
#[verifier::opaque]
pub open spec fn enc_field(l: Seq<char>, v: Seq<char>) -> Seq<char> {
    l + enc_str(v)
}

/// A named list field.
#[verifier::opaque]
pub open spec fn enc_field_list(l: Seq<char>, vs: Seq<Seq<char>>) -> Seq<char> {
    l + enc_list(vs)
}

/// One record: its eleven text fields, each under its field name and in
/// fixed order, then its named status letter.
pub open spec fn enc_pkg(q: PackageV) -> Seq<char> {
    enc_field(lbl_name(), q.name) + enc_field(lbl_version(), q.version) + enc_field(
        lbl_installed_version(),
        q.installed_version,
    ) + enc_field(lbl_link(), q.link) + enc_field_list(lbl_downloads(), q.downloads)
        + enc_field(lbl_upstream(), q.upstream) + enc_field(lbl_selector(), q.selector)
        + enc_field(lbl_version_command(), q.version_command) + enc_field(lbl_news(), q.news)
        + enc_field_list(lbl_deps(), q.deps) + enc_field(lbl_description(), q.description)
        + lbl_status() + seq![status_char(q.status)]
}

/// The records, one after the other.
pub open spec fn enc_pkgs(ps: Seq<PackageV>) -> Seq<char>
    decreases ps.len(),
{
    if ps.len() == 0 {
        Seq::empty()
    } else {
        enc_pkg(ps[0]) + enc_pkgs(ps.drop_first())
    }
}

/// The whole store: its record count, a colon, its records.
pub open spec fn encode_store(ps: Seq<PackageV>) -> Seq<char> {
    dec(ps.len()) + seq![':'] + enc_pkgs(ps)
}

/// Read a decimal length and its colon; what follows is the rest.
pub open spec fn d_len(s: Seq<char>) -> Option<(nat, Seq<char>)> {
    let ds = take_until(s, ':');
    let rest0 = drop_until(s, ':');
    if ds.len() == 0 || !all_digits(ds) || rest0.len() == 0 {
        Option::None
    } else {
        Option::Some((digits_val(ds), rest0.drop_first()))
    }
}

/// Read one length-prefixed text.
pub open spec fn d_str(s: Seq<char>) -> Option<(Seq<char>, Seq<char>)> {
    match d_len(s) {
        Option::None => Option::None,
        Option::Some((n, r)) => if r.len() < n {
            Option::None
        } else {
            Option::Some((r.take(n as int), r.skip(n as int)))
        },
    }
}

/// Read `n` length-prefixed texts.
pub open spec fn d_items(s: Seq<char>, n: nat) -> Option<(Seq<Seq<char>>, Seq<char>)>
    decreases n,
{
    if n == 0 {
        Option::Some((Seq::empty(), s))
    } else {
        match d_str(s) {
            Option::None => Option::None,
            Option::Some((x, r)) => match d_items(r, (n - 1) as nat) {
                Option::None => Option::None,
                Option::Some((xs, r2)) => Option::Some((seq![x] + xs, r2)),
            },
        }
    }
}

/// Read one length-prefixed list.
pub open spec fn d_list(s: Seq<char>) -> Option<(Seq<Seq<char>>, Seq<char>)> {
    match d_len(s) {
        Option::None => Option::None,
        Option::Some((n, r)) => d_items(r, n),
    }
}

/// Read one status letter.
pub open spec fn d_status(s: Seq<char>) -> Option<(PackageStatus, Seq<char>)> {
    if s.len() == 0 {
        Option::None
    } else if s[0] == 'A' {
        Option::Some((PackageStatus::Available, s.drop_first()))
    } else if s[0] == 'I' {
        Option::Some((PackageStatus::Installed, s.drop_first()))
    } else if s[0] == 'R' {
        Option::Some((PackageStatus::Removed, s.drop_first()))
    } else {
        Option::None
    }
}

/// Expect a field name; what follows it is the rest.
pub open spec fn d_lbl(s: Seq<char>, l: Seq<char>) -> Option<Seq<char>> {
    if l.len() <= s.len() && s.take(l.len() as int) == l {
        Option::Some(s.skip(l.len() as int))
    } else {
        Option::None
    }
}

/// Read one named text field.
pub open spec fn d_field(s: Seq<char>, l: Seq<char>) -> Option<(Seq<char>, Seq<char>)> {
    match d_lbl(s, l) {
        Option::None => Option::None,
        Option::Some(r) => d_str(r),
    }
}

/// Read one named list field.
pub open spec fn d_field_list(s: Seq<char>, l: Seq<char>) -> Option<(Seq<Seq<char>>, Seq<char>)> {
    match d_lbl(s, l) {
        Option::None => Option::None,
        Option::Some(r) => d_list(r),
    }
}

/// Read the named status letter.
pub open spec fn d_field_status(s: Seq<char>) -> Option<(PackageStatus, Seq<char>)> {
    match d_lbl(s, lbl_status()) {
        Option::None => Option::None,
        Option::Some(r) => d_status(r),
    }
}

/// Read one record.
pub open spec fn d_pkg(s: Seq<char>) -> Option<(PackageV, Seq<char>)> {
    match d_field(s, lbl_name()) {
        Option::None => Option::None,
        Option::Some((name, s)) => match d_field(s, lbl_version()) {
            Option::None => Option::None,
            Option::Some((version, s)) => match d_field(s, lbl_installed_version()) {
                Option::None => Option::None,
                Option::Some((installed_version, s)) => match d_field(s, lbl_link()) {
                    Option::None => Option::None,
                    Option::Some((link, s)) => match d_field_list(s, lbl_downloads()) {
                        Option::None => Option::None,
                        Option::Some((downloads, s)) => match d_field(s, lbl_upstream()) {
                            Option::None => Option::None,
                            Option::Some((upstream, s)) => match d_field(s, lbl_selector()) {
                                Option::None => Option::None,
                                Option::Some((selector, s)) => match d_field(
                                    s,
                                    lbl_version_command(),
                                ) {
                                    Option::None => Option::None,
                                    Option::Some((version_command, s)) => match d_field(
                                        s,
                                        lbl_news(),
                                    ) {
                                        Option::None => Option::None,
                                        Option::Some((news, s)) => match d_field_list(
                                            s,
                                            lbl_deps(),
                                        ) {
                                            Option::None => Option::None,
                                            Option::Some((deps, s)) => match d_field(
                                                s,
                                                lbl_description(),
                                            ) {
                                                Option::None => Option::None,
                                                Option::Some((description, s)) => match d_field_status(
                                                    s,
                                                ) {
                                                    Option::None => Option::None,
                                                    Option::Some((status, s)) => Option::Some(
                                                        (
                                                            PackageV {
                                                                deps,
                                                                description,
                                                                downloads,
                                                                installed_version,
                                                                link,
                                                                name,
                                                                news,
                                                                selector,
                                                                status,
                                                                upstream,
                                                                version,
                                                                version_command,
                                                            },
                                                            s,
                                                        ),
                                                    ),
                                                },
                                            },
                                        },
                                    },
                                },
                            },
                        },
                    },
                },
            },
        },
    }
}

/// Read `n` records.
pub open spec fn d_pkgs(s: Seq<char>, n: nat) -> Option<(Seq<PackageV>, Seq<char>)>
    decreases n,
{
    if n == 0 {
        Option::Some((Seq::empty(), s))
    } else {
        match d_pkg(s) {
            Option::None => Option::None,
            Option::Some((q, r)) => match d_pkgs(r, (n - 1) as nat) {
                Option::None => Option::None,
                Option::Some((qs, r2)) => Option::Some((seq![q] + qs, r2)),
            },
        }
    }
}

/// Read a whole store; trailing text makes the store invalid.
pub open spec fn decode_store(s: Seq<char>) -> Option<Seq<PackageV>> {
    match d_len(s) {
        Option::None => Option::None,
        Option::Some((n, r)) => match d_pkgs(r, n) {
            Option::None => Option::None,
            Option::Some((ps, rest)) => if rest.len() == 0 {
                Option::Some(ps)
            } else {
                Option::None
            },
        },
    }
}

} // verus!

verus! {

proof fn lemma_until_concat(a: Seq<char>, b: Seq<char>)
    requires
        !a.contains(':'),
    ensures
        take_until(a + seq![':'] + b, ':') == a,
        drop_until(a + seq![':'] + b, ':') == seq![':'] + b,
    decreases a.len(),
{
    let s = a + seq![':'] + b;
    if a.len() == 0 {
        assert(s[0] == ':');
        assert(take_until(s, ':') =~= a);
        assert(drop_until(s, ':') =~= seq![':'] + b);
    } else {
        assert(s[0] == a[0]);
        assert(a[0] != ':') by {
            if a[0] == ':' {
                assert(a.contains(a[0]));
            }
        }
        assert(!a.drop_first().contains(':')) by {
            if a.drop_first().contains(':') {
                let w = choose|w: int|
                    0 <= w < a.drop_first().len() && a.drop_first()[w] == ':';
                assert(a[w + 1] == ':');
                assert(a.contains(a[w + 1]));
            }
        }
        assert(s.drop_first() =~= a.drop_first() + seq![':'] + b);
        lemma_until_concat(a.drop_first(), b);
        assert(take_until(s, ':') =~= seq![a[0]] + take_until(s.drop_first(), ':'));
        assert(take_until(s, ':') =~= a);
    }
}

proof fn lemma_d_len_enc(n: nat, rest: Seq<char>)
    ensures
        d_len(dec(n) + seq![':'] + rest) == Option::Some((n, rest)),
{
    lemma_dec(n);
    lemma_until_concat(dec(n), rest);
    let s = dec(n) + seq![':'] + rest;
    assert(drop_until(s, ':').drop_first() =~= rest);
}

proof fn lemma_d_str_enc(x: Seq<char>, rest: Seq<char>)
    ensures
        d_str(enc_str(x) + rest) == Option::Some((x, rest)),
{
    assert(enc_str(x) + rest =~= dec(x.len()) + seq![':'] + (x + rest));
    lemma_d_len_enc(x.len(), x + rest);
    assert((x + rest).take(x.len() as int) =~= x);
    assert((x + rest).skip(x.len() as int) =~= rest);
}

proof fn lemma_d_items_enc(ss: Seq<Seq<char>>, rest: Seq<char>)
    ensures
        d_items(enc_items(ss) + rest, ss.len()) == Option::Some((ss, rest)),
    decreases ss.len(),
{
    if ss.len() == 0 {
        assert(enc_items(ss) + rest =~= rest);
        assert(d_items(rest, 0) == Option::Some((Seq::<Seq<char>>::empty(), rest)));
        assert(ss =~= Seq::<Seq<char>>::empty());
    } else {
        let tailenc = enc_items(ss.drop_first()) + rest;
        assert(enc_items(ss) + rest =~= enc_str(ss[0]) + tailenc);
        lemma_d_str_enc(ss[0], tailenc);
        lemma_d_items_enc(ss.drop_first(), rest);
        assert(seq![ss[0]] + ss.drop_first() =~= ss);
    }
}

proof fn lemma_d_list_enc(ss: Seq<Seq<char>>, rest: Seq<char>)
    ensures
        d_list(enc_list(ss) + rest) == Option::Some((ss, rest)),
{
    assert(enc_list(ss) + rest =~= dec(ss.len()) + seq![':'] + (enc_items(ss) + rest));
    lemma_d_len_enc(ss.len(), enc_items(ss) + rest);
    lemma_d_items_enc(ss, rest);
}

proof fn lemma_d_status_enc(st: PackageStatus, rest: Seq<char>)
    ensures
        d_status(seq![status_char(st)] + rest) == Option::Some((st, rest)),
{
    let s = seq![status_char(st)] + rest;
    assert(s[0] == status_char(st));
    assert(s.drop_first() =~= rest);
}

proof fn lemma_d_lbl_enc(l: Seq<char>, rest: Seq<char>)
    ensures
        d_lbl(l + rest, l) == Option::Some(rest),
{
    assert((l + rest).take(l.len() as int) =~= l);
    assert((l + rest).skip(l.len() as int) =~= rest);
}

proof fn lemma_d_field_enc(l: Seq<char>, x: Seq<char>, rest: Seq<char>)
    ensures
        d_field(enc_field(l, x) + rest, l) == Option::Some((x, rest)),
{
    reveal(enc_field);
    assert(enc_field(l, x) + rest =~= l + (enc_str(x) + rest));
    lemma_d_lbl_enc(l, enc_str(x) + rest);
    lemma_d_str_enc(x, rest);
}

proof fn lemma_d_field_list_enc(l: Seq<char>, ss: Seq<Seq<char>>, rest: Seq<char>)
    ensures
        d_field_list(enc_field_list(l, ss) + rest, l) == Option::Some((ss, rest)),
{
    reveal(enc_field_list);
    assert(enc_field_list(l, ss) + rest =~= l + (enc_list(ss) + rest));
    lemma_d_lbl_enc(l, enc_list(ss) + rest);
    lemma_d_list_enc(ss, rest);
}

proof fn lemma_d_field_status_enc(st: PackageStatus, rest: Seq<char>)
    ensures
        d_field_status(lbl_status() + seq![status_char(st)] + rest) == Option::Some((st, rest)),
{
    assert(lbl_status() + seq![status_char(st)] + rest =~= lbl_status() + (seq![
        status_char(st),
    ] + rest));
    lemma_d_lbl_enc(lbl_status(), seq![status_char(st)] + rest);
    lemma_d_status_enc(st, rest);
}

#[verifier::rlimit(100)]
#[verifier::spinoff_prover]
proof fn lemma_d_pkg_enc(q: PackageV, rest: Seq<char>)
    ensures
        d_pkg(enc_pkg(q) + rest) == Option::Some((q, rest)),
{
    let r11 = lbl_status() + seq![status_char(q.status)] + rest;
    let r10 = enc_field(lbl_description(), q.description) + r11;
    let r9 = enc_field_list(lbl_deps(), q.deps) + r10;
    let r8 = enc_field(lbl_news(), q.news) + r9;
    let r7 = enc_field(lbl_version_command(), q.version_command) + r8;
    let r6 = enc_field(lbl_selector(), q.selector) + r7;
    let r5 = enc_field(lbl_upstream(), q.upstream) + r6;
    let r4 = enc_field_list(lbl_downloads(), q.downloads) + r5;
    let r3 = enc_field(lbl_link(), q.link) + r4;
    let r2 = enc_field(lbl_installed_version(), q.installed_version) + r3;
    let r1 = enc_field(lbl_version(), q.version) + r2;
    assert(enc_pkg(q) + rest =~= enc_field(lbl_name(), q.name) + r1);
    lemma_d_field_enc(lbl_name(), q.name, r1);
    assert(r1 =~= enc_field(lbl_version(), q.version) + r2);
    lemma_d_field_enc(lbl_version(), q.version, r2);
    lemma_d_field_enc(lbl_installed_version(), q.installed_version, r3);
    lemma_d_field_enc(lbl_link(), q.link, r4);
    lemma_d_field_list_enc(lbl_downloads(), q.downloads, r5);
    lemma_d_field_enc(lbl_upstream(), q.upstream, r6);
    lemma_d_field_enc(lbl_selector(), q.selector, r7);
    lemma_d_field_enc(lbl_version_command(), q.version_command, r8);
    lemma_d_field_enc(lbl_news(), q.news, r9);
    lemma_d_field_list_enc(lbl_deps(), q.deps, r10);
    lemma_d_field_enc(lbl_description(), q.description, r11);
    lemma_d_field_status_enc(q.status, rest);
    assert(d_pkg(enc_pkg(q) + rest) == Option::Some((q, rest))) by {
        assert(PackageV {
            deps: q.deps,
            description: q.description,
            downloads: q.downloads,
            installed_version: q.installed_version,
            link: q.link,
            name: q.name,
            news: q.news,
            selector: q.selector,
            status: q.status,
            upstream: q.upstream,
            version: q.version,
            version_command: q.version_command,
        } =~= q);
    }
}

proof fn lemma_d_pkgs_enc(ps: Seq<PackageV>, rest: Seq<char>)
    ensures
        d_pkgs(enc_pkgs(ps) + rest, ps.len()) == Option::Some((ps, rest)),
    decreases ps.len(),
{
    if ps.len() == 0 {
        assert(enc_pkgs(ps) + rest =~= rest);
        assert(ps =~= Seq::<PackageV>::empty());
    } else {
        let tailenc = enc_pkgs(ps.drop_first()) + rest;
        assert(enc_pkgs(ps) + rest =~= enc_pkg(ps[0]) + tailenc);
        lemma_d_pkg_enc(ps[0], tailenc);
        lemma_d_pkgs_enc(ps.drop_first(), rest);
        assert(seq![ps[0]] + ps.drop_first() =~= ps);
    }
}

/// Decoding an encoded store yields exactly the records that were encoded:
/// serializing and reloading is lossless.
pub proof fn lemma_store_roundtrip(ps: Seq<PackageV>)
    ensures
        decode_store(encode_store(ps)) == Option::Some(ps),
{
    assert(encode_store(ps) =~= dec(ps.len()) + seq![':'] + (enc_pkgs(ps)
        + Seq::<char>::empty()));
    lemma_d_len_enc(ps.len(), enc_pkgs(ps) + Seq::<char>::empty());
    lemma_d_pkgs_enc(ps, Seq::<char>::empty());
}

} // verus!

verus! {

proof fn lemma_enc_items_take(ss: Seq<Seq<char>>, j: int)
    requires
        0 <= j < ss.len(),
    ensures
        enc_items(ss.take(j + 1)) == enc_items(ss.take(j)) + enc_str(ss[j]),
    decreases j,
{
    if j == 0 {
        assert(ss.take(1)[0] == ss[0]);
        assert(ss.take(1).drop_first() =~= Seq::<Seq<char>>::empty());
        assert(ss.take(0) =~= Seq::<Seq<char>>::empty());
        assert(enc_items(ss.take(1)) =~= enc_str(ss[0]));
        assert(enc_items(ss.take(0)) + enc_str(ss[0]) =~= enc_str(ss[0]));
    } else {
        lemma_enc_items_take(ss.drop_first(), j - 1);
        assert(ss.take(j + 1)[0] == ss[0]);
        assert(ss.take(j + 1).drop_first() =~= ss.drop_first().take(j));
        assert(ss.take(j).drop_first() =~= ss.drop_first().take(j - 1));
        assert(ss.drop_first()[j - 1] == ss[j]);
        assert(enc_items(ss.take(j + 1)) =~= enc_str(ss[0]) + enc_items(ss.drop_first().take(j)));
        assert(enc_items(ss.take(j)) =~= enc_str(ss[0]) + enc_items(ss.drop_first().take(j - 1)));
        assert(enc_items(ss.take(j)) + enc_str(ss[j]) =~= enc_str(ss[0]) + (enc_items(
            ss.drop_first().take(j - 1),
        ) + enc_str(ss.drop_first()[j - 1])));
    }
}

proof fn lemma_enc_pkgs_take(ps: Seq<PackageV>, j: int)
    requires
        0 <= j < ps.len(),
    ensures
        enc_pkgs(ps.take(j + 1)) == enc_pkgs(ps.take(j)) + enc_pkg(ps[j]),
    decreases j,
{
    if j == 0 {
        assert(ps.take(1)[0] == ps[0]);
        assert(ps.take(1).drop_first() =~= Seq::<PackageV>::empty());
        assert(ps.take(0) =~= Seq::<PackageV>::empty());
        assert(enc_pkgs(Seq::<PackageV>::empty()) =~= Seq::<char>::empty());
        assert(enc_pkgs(ps.take(1)) == enc_pkg(ps.take(1)[0]) + enc_pkgs(ps.take(1).drop_first()));
        assert(enc_pkgs(ps.take(1)) =~= enc_pkg(ps[0]));
        assert(enc_pkgs(ps.take(0)) + enc_pkg(ps[0]) =~= enc_pkg(ps[0]));
    } else {
        lemma_enc_pkgs_take(ps.drop_first(), j - 1);
        assert(ps.take(j + 1)[0] == ps[0]);
        assert(ps.take(j + 1).drop_first() =~= ps.drop_first().take(j));
        assert(ps.take(j).drop_first() =~= ps.drop_first().take(j - 1));
        assert(ps.drop_first()[j - 1] == ps[j]);
        assert(enc_pkgs(ps.take(j + 1)) =~= enc_pkg(ps[0]) + enc_pkgs(ps.drop_first().take(j)));
        assert(enc_pkgs(ps.take(j)) =~= enc_pkg(ps[0]) + enc_pkgs(ps.drop_first().take(j - 1)));
        assert(enc_pkgs(ps.take(j)) + enc_pkg(ps[j]) =~= enc_pkg(ps[0]) + (enc_pkgs(
            ps.drop_first().take(j - 1),
        ) + enc_pkg(ps.drop_first()[j - 1])));
    }
}

fn push_digit(out: &mut Vec<char>, n: u64)
    requires
        n < 10,
    ensures
        final(out)@ == old(out)@.push(digit_char(n as nat)),
{
    if n == 0 {
        out.push('0');
    } else if n == 1 {
        out.push('1');
    } else if n == 2 {
        out.push('2');
    } else if n == 3 {
        out.push('3');
    } else if n == 4 {
        out.push('4');
    } else if n == 5 {
        out.push('5');
    } else if n == 6 {
        out.push('6');
    } else if n == 7 {
        out.push('7');
    } else if n == 8 {
        out.push('8');
    } else {
        out.push('9');
    }
}

fn push_dec(out: &mut Vec<char>, n: u64)
    ensures
        final(out)@ == old(out)@ + dec(n as nat),
    decreases n,
{
    if n < 10 {
        push_digit(out, n);
        assert(final(out)@ =~= old(out)@ + dec(n as nat));
    } else {
        push_dec(out, n / 10);
        push_digit(out, n % 10);
        proof {
            assert((n as nat) / 10 == (n / 10) as nat);
            assert((n as nat) % 10 == (n % 10) as nat);
            assert(final(out)@ =~= old(out)@ + dec(n as nat));
        }
    }
}

fn push_str_enc(out: &mut Vec<char>, s: &String)
    ensures
        final(out)@ == old(out)@ + enc_str(s@),
{
    let mut cs = crate::text::chars_of(s.as_str());
    let n = cs.len();
    push_dec(out, n as u64);
    out.push(':');
    out.append(&mut cs);
    proof {
        assert(final(out)@ =~= old(out)@ + enc_str(s@));
    }
}

fn push_list_enc(out: &mut Vec<char>, v: &Vec<String>)
    ensures
        final(out)@ == old(out)@ + enc_list(v.deep_view()),
{
    let ghost dv = v.deep_view();
    push_dec(out, v.len() as u64);
    out.push(':');
    let ghost base = out@;
    proof {
        assert(dv.take(0) =~= Seq::<Seq<char>>::empty());
        assert(out@ =~= base + enc_items(dv.take(0)));
    }
    let mut i: usize = 0;
    while i < v.len()
        invariant
            dv == v.deep_view(),
            i <= dv.len(),
            base == old(out)@ + dec(dv.len()) + seq![':'],
            out@ == base + enc_items(dv.take(i as int)),
        decreases dv.len() - i,
    {
        push_str_enc(out, &v[i]);
        proof {
            lemma_enc_items_take(dv, i as int);
            assert(out@ =~= base + enc_items(dv.take(i + 1)));
        }
        i = i + 1;
    }
    proof {
        assert(dv.take(dv.len() as int) =~= dv);
        assert(out@ =~= old(out)@ + enc_list(dv));
    }
}

fn push_label(out: &mut Vec<char>, l: &str)
    ensures
        final(out)@ == old(out)@ + l@,
{
    let mut cs = crate::text::chars_of(l);
    out.append(&mut cs);
    proof {
        assert(final(out)@ =~= old(out)@ + l@);
    }
}

fn push_field(out: &mut Vec<char>, l: &str, v: &String)
    ensures
        final(out)@ == old(out)@ + enc_field(l@, v@),
{
    push_label(out, l);
    push_str_enc(out, v);
    proof {
        reveal(enc_field);
        assert(final(out)@ =~= old(out)@ + enc_field(l@, v@));
    }
}

fn push_field_list(out: &mut Vec<char>, l: &str, v: &Vec<String>)
    ensures
        final(out)@ == old(out)@ + enc_field_list(l@, v.deep_view()),
{
    push_label(out, l);
    push_list_enc(out, v);
    proof {
        reveal(enc_field_list);
        assert(final(out)@ =~= old(out)@ + enc_field_list(l@, v.deep_view()));
    }
}

fn push_pkg_enc(out: &mut Vec<char>, p: &Package)
    ensures
        final(out)@ == old(out)@ + enc_pkg(p@),
{
    proof {
        reveal_strlit("name");
        reveal_strlit("version");
        reveal_strlit("installed_version");
        reveal_strlit("link");
        reveal_strlit("downloads");
        reveal_strlit("upstream");
        reveal_strlit("selector");
        reveal_strlit("version_command");
        reveal_strlit("news");
        reveal_strlit("deps");
        reveal_strlit("description");
        reveal_strlit("status");
        assert("name"@ =~= lbl_name());
        assert("version"@ =~= lbl_version());
        assert("installed_version"@ =~= lbl_installed_version());
        assert("link"@ =~= lbl_link());
        assert("downloads"@ =~= lbl_downloads());
        assert("upstream"@ =~= lbl_upstream());
        assert("selector"@ =~= lbl_selector());
        assert("version_command"@ =~= lbl_version_command());
        assert("news"@ =~= lbl_news());
        assert("deps"@ =~= lbl_deps());
        assert("description"@ =~= lbl_description());
        assert("status"@ =~= lbl_status());
    }
    push_field(out, "name", &p.name);
    push_field(out, "version", &p.version);
    push_field(out, "installed_version", &p.installed_version);
    push_field(out, "link", &p.link);
    push_field_list(out, "downloads", &p.downloads);
    push_field(out, "upstream", &p.upstream);
    push_field(out, "selector", &p.selector);
    push_field(out, "version_command", &p.version_command);
    push_field(out, "news", &p.news);
    push_field_list(out, "deps", &p.deps);
    push_field(out, "description", &p.description);
    push_label(out, "status");
    match p.status {
        PackageStatus::Available => out.push('A'),
        PackageStatus::Installed => out.push('I'),
        PackageStatus::Removed => out.push('R'),
    }
    proof {
        assert(final(out)@ =~= old(out)@ + enc_pkg(p@));
    }
}

/// Serialize the whole store to one text, in record order.
pub fn save_pkglist(pkg_list: &Vec<Package>) -> (r: String)
    ensures
        r@ == encode_store(pkg_list.deep_view()),
{
    let ghost pv = pkg_list.deep_view();
    let mut out: Vec<char> = Vec::new();
    push_dec(&mut out, pkg_list.len() as u64);
    out.push(':');
    let ghost base = out@;
    proof {
        assert(pv.take(0) =~= Seq::<PackageV>::empty());
        assert(out@ =~= base + enc_pkgs(pv.take(0)));
    }
    let mut i: usize = 0;
    while i < pkg_list.len()
        invariant
            pv == pkg_list.deep_view(),
            i <= pv.len(),
            base == dec(pv.len()) + seq![':'],
            out@ == base + enc_pkgs(pv.take(i as int)),
        decreases pv.len() - i,
    {
        push_pkg_enc(&mut out, &pkg_list[i]);
        proof {
            lemma_enc_pkgs_take(pv, i as int);
            assert(out@ =~= base + enc_pkgs(pv.take(i + 1)));
        }
        i = i + 1;
    }
    proof {
        assert(pv.take(pv.len() as int) =~= pv);
        assert(out@ =~= encode_store(pv));
    }
    crate::text::string_of(&out)
}

} // verus!

verus! {

proof fn lemma_d_str_shrinks(s: Seq<char>)
    ensures
        match d_str(s) {
            Option::Some((x, r)) => r.len() < s.len(),
            Option::None => true,
        },
{
    crate::text::lemma_until_parts(s, ':');
}

proof fn lemma_d_items_bound(s: Seq<char>, n: nat)
    ensures
        d_items(s, n).is_some() ==> n <= s.len(),
    decreases n,
{
    if n > 0 && d_items(s, n).is_some() {
        lemma_d_str_shrinks(s);
        let (x, r) = d_str(s).unwrap();
        lemma_d_items_bound(r, (n - 1) as nat);
    }
}

proof fn lemma_d_items_mono(s: Seq<char>, n: nat)
    ensures
        match d_items(s, n) {
            Option::Some((xs, r)) => r.len() <= s.len(),
            Option::None => true,
        },
    decreases n,
{
    if n > 0 && d_items(s, n).is_some() {
        lemma_d_str_shrinks(s);
        let (x, r) = d_str(s).unwrap();
        lemma_d_items_mono(r, (n - 1) as nat);
    }
}

proof fn lemma_d_list_mono(s: Seq<char>)
    ensures
        match d_list(s) {
            Option::Some((xs, r)) => r.len() < s.len(),
            Option::None => true,
        },
{
    if d_list(s).is_some() {
        crate::text::lemma_until_parts(s, ':');
        let (n, r0) = d_len(s).unwrap();
        lemma_d_items_mono(r0, n);
    }
}

proof fn lemma_d_field_shrinks(s: Seq<char>, l: Seq<char>)
    ensures
        match d_field(s, l) {
            Option::Some((x, r)) => r.len() < s.len(),
            Option::None => true,
        },
{
    if d_field(s, l).is_some() {
        let r0 = d_lbl(s, l).unwrap();
        lemma_d_str_shrinks(r0);
    }
}

proof fn lemma_d_field_list_shrinks(s: Seq<char>, l: Seq<char>)
    ensures
        match d_field_list(s, l) {
            Option::Some((xs, r)) => r.len() < s.len(),
            Option::None => true,
        },
{
    if d_field_list(s, l).is_some() {
        let r0 = d_lbl(s, l).unwrap();
        lemma_d_list_mono(r0);
    }
}

proof fn lemma_d_pkg_shrinks(s: Seq<char>)
    ensures
        match d_pkg(s) {
            Option::Some((q, r)) => r.len() < s.len(),
            Option::None => true,
        },
{
    if d_pkg(s).is_some() {
        let s0 = s;
        lemma_d_field_shrinks(s0, lbl_name());
        let (_, s1) = d_field(s0, lbl_name()).unwrap();
        lemma_d_field_shrinks(s1, lbl_version());
        let (_, s2) = d_field(s1, lbl_version()).unwrap();
        lemma_d_field_shrinks(s2, lbl_installed_version());
        let (_, s3) = d_field(s2, lbl_installed_version()).unwrap();
        lemma_d_field_shrinks(s3, lbl_link());
        let (_, s4) = d_field(s3, lbl_link()).unwrap();
        lemma_d_field_list_shrinks(s4, lbl_downloads());
        let (_, s5) = d_field_list(s4, lbl_downloads()).unwrap();
        lemma_d_field_shrinks(s5, lbl_upstream());
        let (_, s6) = d_field(s5, lbl_upstream()).unwrap();
        lemma_d_field_shrinks(s6, lbl_selector());
        let (_, s7) = d_field(s6, lbl_selector()).unwrap();
        lemma_d_field_shrinks(s7, lbl_version_command());
        let (_, s8) = d_field(s7, lbl_version_command()).unwrap();
        lemma_d_field_shrinks(s8, lbl_news());
        let (_, s9) = d_field(s8, lbl_news()).unwrap();
        lemma_d_field_list_shrinks(s9, lbl_deps());
        let (_, s10) = d_field_list(s9, lbl_deps()).unwrap();
        lemma_d_field_shrinks(s10, lbl_description());
        let (_, s11) = d_field(s10, lbl_description()).unwrap();
    }
}

proof fn lemma_d_pkgs_bound(s: Seq<char>, n: nat)
    ensures
        d_pkgs(s, n).is_some() ==> n <= s.len(),
    decreases n,
{
    if n > 0 && d_pkgs(s, n).is_some() {
        lemma_d_pkg_shrinks(s);
        let (q, r) = d_pkg(s).unwrap();
        lemma_d_pkgs_bound(r, (n - 1) as nat);
    }
}

fn dx_len(s: &Vec<char>) -> (r: Option<(u64, usize)>)
    ensures
        match r {
            Some((n, at)) => at <= s@.len() && d_len(s@) == Option::Some(
                (n as nat, s@.skip(at as int)),
            ),
            None => match d_len(s@) {
                Option::None => true,
                Option::Some((m, rest)) => m > u64::MAX,
            },
        },
{
    proof {
        crate::text::lemma_until_parts(s@, ':');
    }
    let total = s.len();
    let ul = crate::text::until_len(s, ':');
    if ul == 0 {
        return None;
    }
    if ul >= total {
        return None;
    }
    let digits = crate::text::copy_range(s, 0, ul);
    proof {
        assert(digits@ =~= take_until(s@, ':'));
    }
    match crate::text::parse_u64_chars(&digits) {
        None => {
            proof {
                if digits@.len() > 0 && all_digits(digits@) {
                    assert(digits_val(digits@) > u64::MAX);
                }
            }
            None
        },
        Some(n) => {
            proof {
                assert(all_digits(digits@));
                assert(digits_val(digits@) == n as nat);
                assert(drop_until(s@, ':').drop_first() =~= s@.skip(ul + 1));
            }
            Some((n, ul + 1))
        },
    }
}

fn dx_str(s: Vec<char>) -> (r: Option<(String, Vec<char>)>)
    ensures
        match r {
            Some(p) => d_str(s@) == Option::Some((p.0@, p.1@)),
            None => d_str(s@) == Option::<(Seq<char>, Seq<char>)>::None,
        },
{
    let total = s.len();
    match dx_len(&s) {
        None => {
            proof {
                if d_len(s@).is_some() {
                    let (m, rest) = d_len(s@).unwrap();
                    crate::text::lemma_until_parts(s@, ':');
                    assert(rest.len() <= s@.len());
                    assert(rest.len() < m);
                }
            }
            None
        },
        Some((n, at)) => {
            let avail = total - at;
            if n > avail as u64 {
                proof {
                    assert(s@.skip(at as int).len() < n as nat);
                }
                None
            } else {
                let nn = n as usize;
                let x = crate::text::copy_range(&s, at, at + nn);
                let rest = crate::text::copy_range(&s, at + nn, total);
                proof {
                    assert(x@ =~= s@.skip(at as int).take(n as int));
                    assert(rest@ =~= s@.skip(at as int).skip(n as int));
                }
                Some((crate::text::string_of(&x), rest))
            }
        },
    }
}

fn dx_items(s: Vec<char>, n: u64) -> (r: Option<(Vec<String>, Vec<char>)>)
    ensures
        match r {
            Some(p) => d_items(s@, n as nat) == Option::Some((p.0.deep_view(), p.1@)),
            None => d_items(s@, n as nat) == Option::<(Seq<Seq<char>>, Seq<char>)>::None,
        },
    decreases n,
{
    if n == 0 {
        let xs: Vec<String> = Vec::new();
        proof {
            assert(xs.deep_view() =~= Seq::<Seq<char>>::empty());
        }
        Some((xs, s))
    } else {
        match dx_str(s) {
            None => None,
            Some((x, r)) => {
                match dx_items(r, n - 1) {
                    None => None,
                    Some((xs, r2)) => {
                        let ghost xsv = xs.deep_view();
                        let mut out = xs;
                        out.insert(0, x);
                        proof {
                            assert(out.deep_view() =~= seq![out@[0]@] + xsv);
                        }
                        Some((out, r2))
                    },
                }
            },
        }
    }
}

fn dx_list(s: Vec<char>) -> (r: Option<(Vec<String>, Vec<char>)>)
    ensures
        match r {
            Some(p) => d_list(s@) == Option::Some((p.0.deep_view(), p.1@)),
            None => d_list(s@) == Option::<(Seq<Seq<char>>, Seq<char>)>::None,
        },
{
    let total = s.len();
    match dx_len(&s) {
        None => {
            proof {
                if d_len(s@).is_some() {
                    let (m, rest) = d_len(s@).unwrap();
                    crate::text::lemma_until_parts(s@, ':');
                    assert(rest.len() <= s@.len());
                    lemma_d_items_bound(rest, m);
                }
            }
            None
        },
        Some((n, at)) => {
            let rest = crate::text::copy_range(&s, at, total);
            proof {
                assert(rest@ =~= s@.skip(at as int));
            }
            dx_items(rest, n)
        },
    }
}

fn dx_status(s: Vec<char>) -> (r: Option<(PackageStatus, Vec<char>)>)
    ensures
        match r {
            Some(p) => d_status(s@) == Option::Some((p.0, p.1@)),
            None => d_status(s@) == Option::<(PackageStatus, Seq<char>)>::None,
        },
{
    if s.len() == 0 {
        return None;
    }
    let c = s[0];
    let rest = crate::text::copy_range(&s, 1, s.len());
    proof {
        assert(rest@ =~= s@.drop_first());
    }
    if c == 'A' {
        Some((PackageStatus::Available, rest))
    } else if c == 'I' {
        Some((PackageStatus::Installed, rest))
    } else if c == 'R' {
        Some((PackageStatus::Removed, rest))
    } else {
        None
    }
}

fn dx_lbl(s: &Vec<char>, l: &str) -> (r: Option<usize>)
    ensures
        match r {
            Some(at) => at <= s@.len() && d_lbl(s@, l@) == Option::Some(s@.skip(at as int)),
            None => d_lbl(s@, l@) == Option::<Seq<char>>::None,
        },
{
    let cs = crate::text::chars_of(l);
    if cs.len() <= s.len() && crate::text::matches_at(s, &cs, 0) {
        proof {
            assert(s@.take(l@.len() as int) =~= s@.subrange(0, l@.len() as int));
        }
        Some(cs.len())
    } else {
        proof {
            if l@.len() <= s@.len() {
                assert(s@.take(l@.len() as int) =~= s@.subrange(0, l@.len() as int));
            }
        }
        None
    }
}

fn dx_field(s: Vec<char>, l: &str, lv: Ghost<Seq<char>>) -> (r: Option<(String, Vec<char>)>)
    requires
        l@ == lv@,
    ensures
        match r {
            Some(p) => d_field(s@, lv@) == Option::Some((p.0@, p.1@)),
            None => d_field(s@, lv@) == Option::<(Seq<char>, Seq<char>)>::None,
        },
{
    match dx_lbl(&s, l) {
        None => None,
        Some(at) => {
            let rest = crate::text::copy_range(&s, at, s.len());
            proof {
                assert(rest@ =~= s@.skip(at as int));
            }
            dx_str(rest)
        },
    }
}

fn dx_field_list(s: Vec<char>, l: &str, lv: Ghost<Seq<char>>) -> (r: Option<
    (Vec<String>, Vec<char>),
>)
    requires
        l@ == lv@,
    ensures
        match r {
            Some(p) => d_field_list(s@, lv@) == Option::Some((p.0.deep_view(), p.1@)),
            None => d_field_list(s@, lv@) == Option::<(Seq<Seq<char>>, Seq<char>)>::None,
        },
{
    match dx_lbl(&s, l) {
        None => None,
        Some(at) => {
            let rest = crate::text::copy_range(&s, at, s.len());
            proof {
                assert(rest@ =~= s@.skip(at as int));
            }
            dx_list(rest)
        },
    }
}

fn dx_field_status(s: Vec<char>) -> (r: Option<(PackageStatus, Vec<char>)>)
    ensures
        match r {
            Some(p) => d_field_status(s@) == Option::Some((p.0, p.1@)),
            None => d_field_status(s@) == Option::<(PackageStatus, Seq<char>)>::None,
        },
{
    proof {
        reveal_strlit("status");
        assert("status"@ =~= lbl_status());
    }
    match dx_lbl(&s, "status") {
        None => None,
        Some(at) => {
            let rest = crate::text::copy_range(&s, at, s.len());
            proof {
                assert(rest@ =~= s@.skip(at as int));
            }
            dx_status(rest)
        },
    }
}

fn dx_pkg(s: Vec<char>) -> (r: Option<(Package, Vec<char>)>)
    ensures
        match r {
            Some(p) => d_pkg(s@) == Option::Some((p.0@, p.1@)),
            None => d_pkg(s@) == Option::<(PackageV, Seq<char>)>::None,
        },
{
    proof {
        reveal_strlit("name");
        reveal_strlit("version");
        reveal_strlit("installed_version");
        reveal_strlit("link");
        reveal_strlit("downloads");
        reveal_strlit("upstream");
        reveal_strlit("selector");
        reveal_strlit("version_command");
        reveal_strlit("news");
        reveal_strlit("deps");
        reveal_strlit("description");
        assert("name"@ =~= lbl_name());
        assert("version"@ =~= lbl_version());
        assert("installed_version"@ =~= lbl_installed_version());
        assert("link"@ =~= lbl_link());
        assert("downloads"@ =~= lbl_downloads());
        assert("upstream"@ =~= lbl_upstream());
        assert("selector"@ =~= lbl_selector());
        assert("version_command"@ =~= lbl_version_command());
        assert("news"@ =~= lbl_news());
        assert("deps"@ =~= lbl_deps());
        assert("description"@ =~= lbl_description());
    }
    let r1 = match dx_field(s, "name", Ghost(lbl_name())) {
        None => {
            return None;
        },
        Some(v) => v,
    };
    let name = r1.0;
    let r2 = match dx_field(r1.1, "version", Ghost(lbl_version())) {
        None => {
            return None;
        },
        Some(v) => v,
    };
    let version = r2.0;
    let r3 = match dx_field(r2.1, "installed_version", Ghost(lbl_installed_version())) {
        None => {
            return None;
        },
        Some(v) => v,
    };
    let installed_version = r3.0;
    let r4 = match dx_field(r3.1, "link", Ghost(lbl_link())) {
        None => {
            return None;
        },
        Some(v) => v,
    };
    let link = r4.0;
    let r5 = match dx_field_list(r4.1, "downloads", Ghost(lbl_downloads())) {
        None => {
            return None;
        },
        Some(v) => v,
    };
    let downloads = r5.0;
    let r6 = match dx_field(r5.1, "upstream", Ghost(lbl_upstream())) {
        None => {
            return None;
        },
        Some(v) => v,
    };
    let upstream = r6.0;
    let r7 = match dx_field(r6.1, "selector", Ghost(lbl_selector())) {
        None => {
            return None;
        },
        Some(v) => v,
    };
    let selector = r7.0;
    let r8 = match dx_field(r7.1, "version_command", Ghost(lbl_version_command())) {
        None => {
            return None;
        },
        Some(v) => v,
    };
    let version_command = r8.0;
    let r9 = match dx_field(r8.1, "news", Ghost(lbl_news())) {
        None => {
            return None;
        },
        Some(v) => v,
    };
    let news = r9.0;
    let r10 = match dx_field_list(r9.1, "deps", Ghost(lbl_deps())) {
        None => {
            return None;
        },
        Some(v) => v,
    };
    let deps = r10.0;
    let r11 = match dx_field(r10.1, "description", Ghost(lbl_description())) {
        None => {
            return None;
        },
        Some(v) => v,
    };
    let description = r11.0;
    let r12 = match dx_field_status(r11.1) {
        None => {
            return None;
        },
        Some(v) => v,
    };
    let status = r12.0;
    let p = Package {
        deps,
        description,
        downloads,
        installed_version,
        link,
        name,
        news,
        selector,
        status,
        upstream,
        version,
        version_command,
    };
    proof {
        assert(d_pkg(s@) == Option::Some((p@, r12.1@))) by {
            assert(p@ =~= d_pkg(s@).unwrap().0);
        }
    }
    Some((p, r12.1))
}

fn dx_pkgs(s: Vec<char>, n: u64) -> (r: Option<(Vec<Package>, Vec<char>)>)
    ensures
        match r {
            Some(p) => d_pkgs(s@, n as nat) == Option::Some((p.0.deep_view(), p.1@)),
            None => d_pkgs(s@, n as nat) == Option::<(Seq<PackageV>, Seq<char>)>::None,
        },
    decreases n,
{
    if n == 0 {
        let ps: Vec<Package> = Vec::new();
        proof {
            assert(ps.deep_view() =~= Seq::<PackageV>::empty());
        }
        Some((ps, s))
    } else {
        match dx_pkg(s) {
            None => None,
            Some((q, r)) => {
                match dx_pkgs(r, n - 1) {
                    None => None,
                    Some((qs, r2)) => {
                        let ghost qsv = qs.deep_view();
                        let mut out = qs;
                        out.insert(0, q);
                        proof {
                            assert(out.deep_view() =~= seq![out@[0]@] + qsv);
                        }
                        Some((out, r2))
                    },
                }
            },
        }
    }
}

/// Read a whole store back from its serialized text. Exactly the stores
/// written by [`save_pkglist`] decode; [`lemma_store_roundtrip`] states
/// that they decode to what was written.
pub fn load_pkglist(text: &str) -> (r: Option<Vec<Package>>)
    ensures
        match r {
            Some(v) => decode_store(text@) == Option::Some(v.deep_view()),
            None => decode_store(text@) == Option::<Seq<PackageV>>::None,
        },
{
    let s = crate::text::chars_of(text);
    let total = s.len();
    match dx_len(&s) {
        None => {
            proof {
                if d_len(text@).is_some() {
                    let (m, rest) = d_len(text@).unwrap();
                    crate::text::lemma_until_parts(text@, ':');
                    assert(rest.len() <= text@.len());
                    lemma_d_pkgs_bound(rest, m);
                }
            }
            None
        },
        Some((n, at)) => {
            let rest = crate::text::copy_range(&s, at, total);
            proof {
                assert(rest@ =~= s@.skip(at as int));
            }
            match dx_pkgs(rest, n) {
                None => None,
                Some((ps, r2)) => {
                    if r2.len() == 0 {
                        proof {
                            assert(r2@ =~= Seq::<char>::empty());
                        }
                        Some(ps)
                    } else {
                        None
                    }
                },
            }
        },
    }
}

} // verus!
