//! Small verified text utilities.
//!
//! All algorithms work on `Vec<char>` with specifications over `Seq<char>`;
//! `chars_of` and `string_of` convert at the boundary to the `String`s that
//! the rest of the crate stores.

use vstd::prelude::*;

verus! {

/// The whitespace characters recognised by the line-oriented formats handled
/// here (metadata fields, set files, version tags).
pub open spec fn is_ws(c: char) -> bool {
    c == ' ' || c == '\t' || c == '\n' || c == '\r'
}

/// Executable twin of [`is_ws`].
pub fn is_ws_char(c: char) -> (r: bool)
    ensures
        r == is_ws(c),
{
    c == ' ' || c == '\t' || c == '\n' || c == '\r'
}

/// Relies on `String::push`: appends the given character to the end of the
/// string.
#[verifier::external_body]
fn push_char(s: &mut String, c: char)
    ensures
        final(s)@ == old(s)@.push(c),
{
    s.push(c);
}

/// Explode a string slice into its characters.
pub fn chars_of(s: &str) -> (r: Vec<char>)
    ensures
        r@ == s@,
{
    let n = s.unicode_len();
    let mut r: Vec<char> = Vec::new();
    let mut i: usize = 0;
    while i < n
        invariant
            n == s@.len(),
            i <= n,
            r@ == s@.subrange(0, i as int),
        decreases n - i,
    {
        r.push(s.get_char(i));
        i = i + 1;
        assert(r@ =~= s@.subrange(0, i as int));
    }
    assert(r@ =~= s@);
    r
}

/// Rebuild a `String` from characters.
pub fn string_of(v: &Vec<char>) -> (r: String)
    ensures
        r@ == v@,
{
    let mut r = String::new();
    let mut i: usize = 0;
    while i < v.len()
        invariant
            i <= v@.len(),
            r@ == v@.subrange(0, i as int),
        decreases v@.len() - i,
    {
        push_char(&mut r, v[i]);
        i = i + 1;
        assert(r@ =~= v@.subrange(0, i as int));
    }
    assert(r@ =~= v@);
    r
}

/// Copy of the characters `from..to` of `v`.
pub fn copy_range(v: &Vec<char>, from: usize, to: usize) -> (r: Vec<char>)
    requires
        from <= to <= v@.len(),
    ensures
        r@ == v@.subrange(from as int, to as int),
{
    let mut r: Vec<char> = Vec::new();
    let mut i: usize = from;
    while i < to
        invariant
            from <= i <= to <= v@.len(),
            r@ == v@.subrange(from as int, i as int),
        decreases to - i,
    {
        r.push(v[i]);
        i = i + 1;
        assert(r@ =~= v@.subrange(from as int, i as int));
    }
    r
}

/// Lower-case an ASCII letter; other characters are untouched.
pub open spec fn lower_char(c: char) -> char {
    if 'A' <= c <= 'Z' {
        ((c as u32) + 32) as char
    } else {
        c
    }
}

/// Character-wise ASCII lower-casing.
pub open spec fn lower(s: Seq<char>) -> Seq<char> {
    s.map_values(|c: char| lower_char(c))
}

/// Executable ASCII lower-casing.
pub fn lower_chars(v: &Vec<char>) -> (r: Vec<char>)
    ensures
        r@ == lower(v@),
{
    let mut r: Vec<char> = Vec::new();
    let mut i: usize = 0;
    while i < v.len()
        invariant
            i <= v@.len(),
            r@ == lower(v@.subrange(0, i as int)),
        decreases v@.len() - i,
    {
        let c = v[i];
        let lc: char = if c >= 'A' && c <= 'Z' {
            (((c as u32) + 32) as u8) as char
        } else {
            c
        };
        assert(lc == lower_char(c));
        r.push(lc);
        i = i + 1;
        assert(r@ =~= lower(v@.subrange(0, i as int)));
    }
    assert(r@ =~= lower(v@));
    r
}

/// Whether `v` holds the character `c`.
pub fn contains_char(v: &Vec<char>, c: char) -> (r: bool)
    ensures
        r == v@.contains(c),
{
    let mut i: usize = 0;
    while i < v.len()
        invariant
            i <= v@.len(),
            forall|k: int| 0 <= k < i ==> v@[k] != c,
        decreases v@.len() - i,
    {
        if v[i] == c {
            return true;
        }
        i = i + 1;
    }
    false
}

/// `s` without leading whitespace.
pub open spec fn trim_front(s: Seq<char>) -> Seq<char>
    decreases s.len(),
{
    if s.len() > 0 && is_ws(s[0]) {
        trim_front(s.drop_first())
    } else {
        s
    }
}

/// `s` without trailing whitespace.
pub open spec fn trim_back(s: Seq<char>) -> Seq<char>
    decreases s.len(),
{
    if s.len() > 0 && is_ws(s.last()) {
        trim_back(s.drop_last())
    } else {
        s
    }
}

/// `s` without leading and trailing whitespace.
pub open spec fn trim(s: Seq<char>) -> Seq<char> {
    trim_back(trim_front(s))
}

fn trim_front_chars(v: &Vec<char>) -> (r: Vec<char>)
    ensures
        r@ == trim_front(v@),
    decreases v@.len(),
{
    if v.len() > 0 && is_ws_char(v[0]) {
        let t = copy_range(v, 1, v.len());
        assert(t@ =~= v@.drop_first());
        trim_front_chars(&t)
    } else {
        copy_range(v, 0, v.len())
    }
}

fn trim_back_chars(v: &Vec<char>) -> (r: Vec<char>)
    ensures
        r@ == trim_back(v@),
    decreases v@.len(),
{
    if v.len() > 0 && is_ws_char(v[v.len() - 1]) {
        let t = copy_range(v, 0, v.len() - 1);
        assert(t@ =~= v@.drop_last());
        trim_back_chars(&t)
    } else {
        copy_range(v, 0, v.len())
    }
}

/// Strip leading and trailing whitespace.
pub fn trim_chars(v: &Vec<char>) -> (r: Vec<char>)
    ensures
        r@ == trim(v@),
{
    let f = trim_front_chars(v);
    trim_back_chars(&f)
}

/// Trim a `String`, as a convenience for callers holding whole fields.
pub fn trim_string(s: &String) -> (r: String)
    ensures
        r@ == trim(s@),
{
    let v = chars_of(s.as_str());
    let t = trim_chars(&v);
    string_of(&t)
}

} // verus!

verus! {

/// `pat` occurs in `s` at position `i`.
pub open spec fn match_at(s: Seq<char>, pat: Seq<char>, i: int) -> bool {
    0 <= i && i + pat.len() <= s.len() && s.subrange(i, i + pat.len()) == pat
}

/// `pat` occurs somewhere in `s`.
pub open spec fn has_sub(s: Seq<char>, pat: Seq<char>) -> bool {
    exists|i: int| match_at(s, pat, i)
}

/// What stands before the first occurrence of `pat` in `s` (all of `s` when
/// `pat` does not occur).
pub open spec fn before_sub(s: Seq<char>, pat: Seq<char>) -> Seq<char>
    decreases s.len(),
{
    if pat.len() >= 1 && match_at(s, pat, 0) {
        Seq::empty()
    } else if s.len() == 0 {
        s
    } else {
        seq![s[0]] + before_sub(s.drop_first(), pat)
    }
}

/// What stands after the first occurrence of `pat` in `s` (empty when `pat`
/// does not occur).
pub open spec fn after_sub(s: Seq<char>, pat: Seq<char>) -> Seq<char>
    decreases s.len(),
{
    if pat.len() >= 1 && match_at(s, pat, 0) {
        s.skip(pat.len() as int)
    } else if s.len() == 0 {
        s
    } else {
        after_sub(s.drop_first(), pat)
    }
}

/// Whether `pat` occurs in `v` starting at `i`.
pub fn matches_at(v: &Vec<char>, pat: &Vec<char>, i: usize) -> (r: bool)
    requires
        i + pat@.len() <= v@.len(),
    ensures
        r == match_at(v@, pat@, i as int),
{
    let n = v.len();
    let mut k: usize = 0;
    while k < pat.len()
        invariant
            n == v@.len(),
            i + pat@.len() <= v@.len(),
            k <= pat@.len(),
            forall|m: int| 0 <= m < k ==> v@[i + m] == pat@[m],
        decreases pat@.len() - k,
    {
        if v[i + k] != pat[k] {
            assert(v@.subrange(i as int, i + pat@.len())[k as int] != pat@[k as int]);
            return false;
        }
        k = k + 1;
    }
    assert(v@.subrange(i as int, i + pat@.len()) =~= pat@);
    true
}

/// Index of the first occurrence of `pat` in `v`, if any.
pub fn find_sub_chars(v: &Vec<char>, pat: &Vec<char>) -> (r: Option<usize>)
    ensures
        match r {
            Some(i) => match_at(v@, pat@, i as int) && forall|j: int|
                0 <= j < i ==> !match_at(v@, pat@, j),
            None => forall|j: int| !match_at(v@, pat@, j),
        },
        r.is_some() == has_sub(v@, pat@),
{
    if pat.len() > v.len() {
        assert(forall|j: int| !match_at(v@, pat@, j));
        return None;
    }
    if pat.len() == 0 {
        assert(v@.subrange(0, 0) =~= pat@);
        assert(match_at(v@, pat@, 0));
        return Some(0);
    }
    let n = v.len();
    let bound = n - pat.len();
    let mut i: usize = 0;
    loop
        invariant
            n == v@.len(),
            1 <= pat@.len() <= v@.len(),
            bound == v@.len() - pat@.len(),
            0 <= i <= bound + 1,
            forall|j: int| 0 <= j < i ==> !match_at(v@, pat@, j),
        decreases bound + 1 - i,
    {
        if i > bound {
            assert(forall|j: int| !match_at(v@, pat@, j));
            return None;
        }
        if matches_at(v, pat, i) {
            return Some(i);
        }
        i = i + 1;
    }
}

/// Whether `pat` occurs in `v`.
pub fn contains_sub(v: &Vec<char>, pat: &Vec<char>) -> (r: bool)
    ensures
        r == has_sub(v@, pat@),
{
    find_sub_chars(v, pat).is_some()
}

/// Relates the first occurrence found by a search to [`before_sub`] and
/// [`after_sub`].
pub proof fn lemma_sub_parts(s: Seq<char>, pat: Seq<char>, i: int)
    requires
        pat.len() >= 1,
        match_at(s, pat, i),
        forall|j: int| 0 <= j < i ==> !match_at(s, pat, j),
    ensures
        before_sub(s, pat) == s.subrange(0, i),
        after_sub(s, pat) == s.skip(i + pat.len()),
    decreases s.len(),
{
    if match_at(s, pat, 0) {
        assert(i == 0);
        assert(before_sub(s, pat) =~= s.subrange(0, 0));
    } else {
        assert(i > 0);
        assert(s.len() > 0);
        let t = s.drop_first();
        assert(match_at(t, pat, i - 1)) by {
            assert(t.subrange(i - 1, i - 1 + pat.len()) =~= s.subrange(i, i + pat.len()));
        }
        assert forall|j: int| 0 <= j < i - 1 implies !match_at(t, pat, j) by {
            if match_at(t, pat, j) {
                assert(s.subrange(j + 1, j + 1 + pat.len()) =~= t.subrange(j, j + pat.len()));
                assert(match_at(s, pat, j + 1));
            }
        }
        lemma_sub_parts(t, pat, i - 1);
        assert(before_sub(s, pat) =~= s.subrange(0, i));
        assert(t.skip(i - 1 + pat.len()) =~= s.skip(i + pat.len()));
    }
}

/// When `pat` does not occur in `s`, nothing stands before or after it.
pub proof fn lemma_sub_parts_none(s: Seq<char>, pat: Seq<char>)
    requires
        forall|j: int| !match_at(s, pat, j),
    ensures
        before_sub(s, pat) == s,
        after_sub(s, pat) == Seq::<char>::empty(),
    decreases s.len(),
{
    if s.len() == 0 {
        assert(after_sub(s, pat) =~= Seq::<char>::empty());
    } else {
        let t = s.drop_first();
        assert forall|j: int| !match_at(t, pat, j) by {
            if match_at(t, pat, j) {
                assert(s.subrange(j + 1, j + 1 + pat.len()) =~= t.subrange(j, j + pat.len()));
                assert(match_at(s, pat, j + 1));
            }
        }
        lemma_sub_parts_none(t, pat);
        assert(before_sub(s, pat) =~= s);
    }
}

} // verus!

verus! {

/// The longest whitespace-free prefix of `s`.
pub open spec fn take_word(s: Seq<char>) -> Seq<char>
    decreases s.len(),
{
    if s.len() > 0 && !is_ws(s[0]) {
        seq![s[0]] + take_word(s.drop_first())
    } else {
        Seq::empty()
    }
}

/// `s` with its leading whitespace-free prefix removed.
pub open spec fn drop_word(s: Seq<char>) -> Seq<char>
    decreases s.len(),
{
    if s.len() > 0 && !is_ws(s[0]) {
        drop_word(s.drop_first())
    } else {
        s
    }
}

/// [`take_word`] and [`drop_word`] split `s` at an index.
pub proof fn lemma_word_parts(s: Seq<char>)
    ensures
        take_word(s).len() + drop_word(s).len() == s.len(),
        take_word(s) == s.subrange(0, take_word(s).len() as int),
        drop_word(s) == s.skip(take_word(s).len() as int),
    decreases s.len(),
{
    if s.len() > 0 && !is_ws(s[0]) {
        lemma_word_parts(s.drop_first());
        assert(take_word(s) =~= s.subrange(0, take_word(s).len() as int));
        assert(drop_word(s) =~= s.skip(take_word(s).len() as int));
    } else {
        assert(take_word(s) =~= s.subrange(0, 0));
        assert(drop_word(s) =~= s.skip(0));
    }
}

/// The whitespace-separated words of `s`, in order.
pub open spec fn split_ws(s: Seq<char>) -> Seq<Seq<char>>
    decreases s.len(),
    via split_ws_dec
{
    if s.len() == 0 {
        Seq::empty()
    } else if is_ws(s[0]) {
        split_ws(s.drop_first())
    } else {
        seq![take_word(s)] + split_ws(drop_word(s))
    }
}

#[via_fn]
proof fn split_ws_dec(s: Seq<char>) {
    if s.len() > 0 && !is_ws(s[0]) {
        lemma_word_parts(s);
    }
}

fn word_len(v: &Vec<char>) -> (r: usize)
    ensures
        r == take_word(v@).len(),
        r <= v@.len(),
    decreases v@.len(),
{
    if v.len() > 0 && !is_ws_char(v[0]) {
        let t = copy_range(v, 1, v.len());
        assert(t@ =~= v@.drop_first());
        1 + word_len(&t)
    } else {
        0
    }
}

/// Split `v` at whitespace, dropping the separators.
pub fn split_ws_chars(v: &Vec<char>) -> (r: Vec<String>)
    ensures
        r.deep_view() == split_ws(v@),
    decreases v@.len(),
{
    if v.len() == 0 {
        let r: Vec<String> = Vec::new();
        assert(r.deep_view() =~= split_ws(v@));
        r
    } else if is_ws_char(v[0]) {
        let t = copy_range(v, 1, v.len());
        assert(t@ =~= v@.drop_first());
        split_ws_chars(&t)
    } else {
        proof {
            lemma_word_parts(v@);
        }
        let wl = word_len(v);
        let w = string_of(&copy_range(v, 0, wl));
        let rest = copy_range(v, wl, v.len());
        let mut rr = split_ws_chars(&rest);
        rr.insert(0, w);
        assert(rr.deep_view() =~= split_ws(v@));
        rr
    }
}

/// The prefix of `s` before the first `c`.
pub open spec fn take_until(s: Seq<char>, c: char) -> Seq<char>
    decreases s.len(),
{
    if s.len() > 0 && s[0] != c {
        seq![s[0]] + take_until(s.drop_first(), c)
    } else {
        Seq::empty()
    }
}

/// `s` from the first `c` on (empty if `c` does not occur).
pub open spec fn drop_until(s: Seq<char>, c: char) -> Seq<char>
    decreases s.len(),
{
    if s.len() > 0 && s[0] != c {
        drop_until(s.drop_first(), c)
    } else {
        s
    }
}

/// [`take_until`] and [`drop_until`] split `s` at an index.
pub proof fn lemma_until_parts(s: Seq<char>, c: char)
    ensures
        take_until(s, c).len() + drop_until(s, c).len() == s.len(),
        take_until(s, c) == s.subrange(0, take_until(s, c).len() as int),
        drop_until(s, c) == s.skip(take_until(s, c).len() as int),
        drop_until(s, c).len() > 0 ==> drop_until(s, c)[0] == c,
    decreases s.len(),
{
    if s.len() > 0 && s[0] != c {
        lemma_until_parts(s.drop_first(), c);
        assert(take_until(s, c) =~= s.subrange(0, take_until(s, c).len() as int));
        assert(drop_until(s, c) =~= s.skip(take_until(s, c).len() as int));
    } else {
        assert(take_until(s, c) =~= s.subrange(0, 0));
        assert(drop_until(s, c) =~= s.skip(0));
    }
}

/// The pieces of `s` between occurrences of `c`, empty pieces kept.
pub open spec fn split_on(s: Seq<char>, c: char) -> Seq<Seq<char>>
    decreases s.len(),
    via split_on_dec
{
    if drop_until(s, c).len() == 0 {
        seq![s]
    } else {
        seq![take_until(s, c)] + split_on(drop_until(s, c).drop_first(), c)
    }
}

#[via_fn]
proof fn split_on_dec(s: Seq<char>, c: char) {
    lemma_until_parts(s, c);
}

pub fn until_len(v: &Vec<char>, c: char) -> (r: usize)
    ensures
        r == take_until(v@, c).len(),
        r <= v@.len(),
    decreases v@.len(),
{
    if v.len() > 0 && v[0] != c {
        let t = copy_range(v, 1, v.len());
        assert(t@ =~= v@.drop_first());
        1 + until_len(&t, c)
    } else {
        0
    }
}

/// Split `v` on the character `c`, keeping empty pieces.
pub fn split_on_chars(v: &Vec<char>, c: char) -> (r: Vec<String>)
    ensures
        r.deep_view() == split_on(v@, c),
    decreases v@.len(),
{
    proof {
        lemma_until_parts(v@, c);
    }
    let ul = until_len(v, c);
    if ul == v.len() {
        let piece = string_of(v);
        let mut r: Vec<String> = Vec::new();
        r.push(piece);
        assert(r.deep_view() =~= split_on(v@, c));
        r
    } else {
        let piece = string_of(&copy_range(v, 0, ul));
        let rest = copy_range(v, ul + 1, v.len());
        assert(rest@ =~= drop_until(v@, c).drop_first());
        let mut rr = split_on_chars(&rest, c);
        rr.insert(0, piece);
        assert(rr.deep_view() =~= split_on(v@, c));
        rr
    }
}

/// `s` with every occurrence of `pat` replaced by `rep` (left to right,
/// no replacement inside an inserted `rep`).
pub open spec fn replace_all(s: Seq<char>, pat: Seq<char>, rep: Seq<char>) -> Seq<char>
    decreases s.len(),
{
    if s.len() == 0 {
        s
    } else if pat.len() >= 1 && match_at(s, pat, 0) {
        rep + replace_all(s.skip(pat.len() as int), pat, rep)
    } else {
        seq![s[0]] + replace_all(s.drop_first(), pat, rep)
    }
}

/// Executable twin of [`replace_all`].
pub fn replace_all_chars(v: &Vec<char>, pat: &Vec<char>, rep: &Vec<char>) -> (r: Vec<char>)
    ensures
        r@ == replace_all(v@, pat@, rep@),
    decreases v@.len(),
{
    if v.len() == 0 {
        Vec::new()
    } else if pat.len() >= 1 && pat.len() <= v.len() && matches_at(v, pat, 0) {
        let rest = copy_range(v, pat.len(), v.len());
        assert(rest@ =~= v@.skip(pat@.len() as int));
        let tail = replace_all_chars(&rest, pat, rep);
        let mut r = copy_range(rep, 0, rep.len());
        assert(r@ =~= rep@);
        let mut t = tail;
        r.append(&mut t);
        r
    } else {
        assert(!(pat@.len() >= 1 && match_at(v@, pat@, 0)));
        let rest = copy_range(v, 1, v.len());
        assert(rest@ =~= v@.drop_first());
        let tail = replace_all_chars(&rest, pat, rep);
        let mut r: Vec<char> = Vec::new();
        r.push(v[0]);
        let mut t = tail;
        r.append(&mut t);
        assert(r@ =~= seq![v@[0]] + replace_all(v@.drop_first(), pat@, rep@));
        r
    }
}

/// `s` with the first occurrence of the character `c` removed.
pub open spec fn remove_first(s: Seq<char>, c: char) -> Seq<char>
    decreases s.len(),
{
    if s.len() == 0 {
        s
    } else if s[0] == c {
        s.drop_first()
    } else {
        seq![s[0]] + remove_first(s.drop_first(), c)
    }
}

/// Executable twin of [`remove_first`].
pub fn remove_first_chars(v: &Vec<char>, c: char) -> (r: Vec<char>)
    ensures
        r@ == remove_first(v@, c),
    decreases v@.len(),
{
    if v.len() == 0 {
        Vec::new()
    } else if v[0] == c {
        let r = copy_range(v, 1, v.len());
        assert(r@ =~= v@.drop_first());
        r
    } else {
        let rest = copy_range(v, 1, v.len());
        assert(rest@ =~= v@.drop_first());
        let tail = remove_first_chars(&rest, c);
        let mut r: Vec<char> = Vec::new();
        r.push(v[0]);
        let mut t = tail;
        r.append(&mut t);
        assert(r@ =~= seq![v@[0]] + remove_first(v@.drop_first(), c));
        r
    }
}

/// `s` ends with `suf`.
pub open spec fn ends_with(s: Seq<char>, suf: Seq<char>) -> bool {
    suf.len() <= s.len() && s.subrange(s.len() - suf.len(), s.len() as int) == suf
}

/// `s` without a final `suf`, if it carries one.
pub open spec fn strip_suffix(s: Seq<char>, suf: Seq<char>) -> Seq<char> {
    if ends_with(s, suf) {
        s.subrange(0, s.len() - suf.len())
    } else {
        s
    }
}

/// Executable twin of [`strip_suffix`].
pub fn strip_suffix_chars(v: &Vec<char>, suf: &Vec<char>) -> (r: Vec<char>)
    ensures
        r@ == strip_suffix(v@, suf@),
{
    if suf.len() <= v.len() && matches_at(v, suf, v.len() - suf.len()) {
        assert(ends_with(v@, suf@));
        copy_range(v, 0, v.len() - suf.len())
    } else {
        assert(!ends_with(v@, suf@));
        copy_range(v, 0, v.len())
    }
}

/// `s` without a leading `c`, if it carries one.
pub open spec fn strip_prefix_char(s: Seq<char>, c: char) -> Seq<char> {
    if s.len() > 0 && s[0] == c {
        s.drop_first()
    } else {
        s
    }
}

/// Executable twin of [`strip_prefix_char`].
pub fn strip_prefix_char_chars(v: &Vec<char>, c: char) -> (r: Vec<char>)
    ensures
        r@ == strip_prefix_char(v@, c),
{
    if v.len() > 0 && v[0] == c {
        let r = copy_range(v, 1, v.len());
        assert(r@ =~= v@.drop_first());
        r
    } else {
        copy_range(v, 0, v.len())
    }
}

/// The part of `s` after the last occurrence of `c` (all of `s` when `c`
/// does not occur).
pub open spec fn last_segment(s: Seq<char>, c: char) -> Seq<char>
    decreases s.len(),
{
    if s.len() == 0 {
        s
    } else if s.last() == c {
        Seq::empty()
    } else {
        last_segment(s.drop_last(), c) + seq![s.last()]
    }
}

/// Executable twin of [`last_segment`].
pub fn last_segment_chars(v: &Vec<char>, c: char) -> (r: Vec<char>)
    ensures
        r@ == last_segment(v@, c),
    decreases v@.len(),
{
    if v.len() == 0 {
        Vec::new()
    } else if v[v.len() - 1] == c {
        Vec::new()
    } else {
        let t = copy_range(v, 0, v.len() - 1);
        assert(t@ =~= v@.drop_last());
        let mut r = last_segment_chars(&t, c);
        r.push(v[v.len() - 1]);
        assert(r@ =~= last_segment(v@.drop_last(), c) + seq![v@.last()]);
        r
    }
}

/// A decimal digit.
pub open spec fn is_digit(c: char) -> bool {
    '0' <= c <= '9'
}

/// `s` from its first digit on (empty when `s` holds no digit).
pub open spec fn strip_to_digit(s: Seq<char>) -> Seq<char>
    decreases s.len(),
{
    if s.len() == 0 {
        s
    } else if is_digit(s[0]) {
        s
    } else {
        strip_to_digit(s.drop_first())
    }
}

/// Executable twin of [`strip_to_digit`].
pub fn strip_to_digit_chars(v: &Vec<char>) -> (r: Vec<char>)
    ensures
        r@ == strip_to_digit(v@),
    decreases v@.len(),
{
    if v.len() == 0 {
        Vec::new()
    } else if v[0] >= '0' && v[0] <= '9' {
        copy_range(v, 0, v.len())
    } else {
        let t = copy_range(v, 1, v.len());
        assert(t@ =~= v@.drop_first());
        strip_to_digit_chars(&t)
    }
}

/// Only the decimal digits of `s`, in order.
pub open spec fn filter_digits(s: Seq<char>) -> Seq<char> {
    s.filter(|c: char| is_digit(c))
}

/// Executable twin of [`filter_digits`].
pub fn filter_digits_chars(v: &Vec<char>) -> (r: Vec<char>)
    ensures
        r@ == filter_digits(v@),
{
    let mut r: Vec<char> = Vec::new();
    let mut i: usize = 0;
    while i < v.len()
        invariant
            i <= v@.len(),
            r@ == v@.subrange(0, i as int).filter(|c: char| is_digit(c)),
        decreases v@.len() - i,
    {
        let c = v[i];
        proof {
            assert(v@.subrange(0, i + 1).drop_last() =~= v@.subrange(0, i as int));
            reveal_with_fuel(Seq::filter, 2);
        }
        if c >= '0' && c <= '9' {
            r.push(c);
        }
        i = i + 1;
    }
    assert(v@.subrange(0, v@.len() as int) =~= v@);
    r
}

} // verus!

verus! {

/// Character-for-character equality of two vectors.
pub fn eq_chars(a: &Vec<char>, b: &Vec<char>) -> (r: bool)
    ensures
        r == (a@ == b@),
{
    if a.len() != b.len() {
        return false;
    }
    let mut i: usize = 0;
    while i < a.len()
        invariant
            a@.len() == b@.len(),
            i <= a@.len(),
            forall|k: int| 0 <= k < i ==> a@[k] == b@[k],
        decreases a@.len() - i,
    {
        if a[i] != b[i] {
            return false;
        }
        i = i + 1;
    }
    assert(a@ =~= b@);
    true
}

/// A copy of a vector of strings, contents kept.
pub fn clone_strings(v: &Vec<String>) -> (r: Vec<String>)
    ensures
        r.deep_view() == v.deep_view(),
        r@.len() == v@.len(),
{
    let mut r: Vec<String> = Vec::new();
    let mut i: usize = 0;
    while i < v.len()
        invariant
            i <= v@.len(),
            r@.len() == i,
            forall|k: int| 0 <= k < i ==> r.deep_view()[k] == v.deep_view()[k],
        decreases v@.len() - i,
    {
        r.push(v[i].clone());
        i = i + 1;
    }
    assert(r.deep_view() =~= v.deep_view());
    r
}

} // verus!

verus! {

/// Whether `v` holds a string whose contents equal `x`'s.
pub fn contains_string(v: &Vec<String>, x: &String) -> (r: bool)
    ensures
        r == v.deep_view().contains(x@),
{
    let mut i: usize = 0;
    while i < v.len()
        invariant
            i <= v@.len(),
            forall|k: int| 0 <= k < i ==> v.deep_view()[k] != x@,
        decreases v@.len() - i,
    {
        if v[i].eq(x) {
            assert(v.deep_view()[i as int] == x@);
            return true;
        }
        i = i + 1;
    }
    false
}

/// Pushing onto a sequence inserts into the set of its elements.
pub proof fn lemma_push_to_set(s: Seq<Seq<char>>, x: Seq<char>)
    ensures
        s.push(x).to_set() == s.to_set().insert(x),
{
    assert forall|e: Seq<char>| s.push(x).contains(e) implies s.to_set().insert(x).contains(
        e,
    ) by {
        let i = choose|i: int| 0 <= i < s.push(x).len() && s.push(x)[i] == e;
        if i < s.len() {
            assert(s[i] == e);
        }
    }
    assert forall|e: Seq<char>| s.to_set().insert(x).contains(e) implies s.push(x).contains(
        e,
    ) by {
        if s.contains(e) {
            let i = choose|i: int| 0 <= i < s.len() && s[i] == e;
            assert(s.push(x)[i] == e);
        } else {
            assert(s.push(x)[s.len() as int] == e);
        }
    }
    assert(s.push(x).to_set() =~= s.to_set().insert(x));
}

/// A prefix's elements all stand in the longer sequence.
pub proof fn lemma_prefix_contains(a: Seq<Seq<char>>, b: Seq<Seq<char>>)
    requires
        a.len() <= b.len(),
        b.take(a.len() as int) == a,
    ensures
        a.to_set().subset_of(b.to_set()),
        forall|x: Seq<char>| a.contains(x) ==> b.contains(x),
{
    assert forall|x: Seq<char>| a.contains(x) implies b.contains(x) by {
        let i = choose|i: int| 0 <= i < a.len() && a[i] == x;
        assert(b[i] == b.take(a.len() as int)[i]);
    }
    assert forall|x: Seq<char>| a.to_set().contains(x) implies b.to_set().contains(x) by {
        assert(a.contains(x));
    }
}

/// Taking a shorter prefix of a longer prefix is taking it directly.
pub proof fn lemma_take_take(s: Seq<Seq<char>>, a: int, b: int)
    requires
        0 <= a <= b <= s.len(),
    ensures
        s.take(b).take(a) == s.take(a),
{
    assert(s.take(b).take(a) =~= s.take(a));
}

} // verus!

verus! {

/// The numeric value of a digit character (zero for any other character).
pub open spec fn digit_val(c: char) -> nat {
    if is_digit(c) {
        (c as nat - '0' as nat) as nat
    } else {
        0
    }
}

/// Every character is a decimal digit.
pub open spec fn all_digits(s: Seq<char>) -> bool {
    forall|i: int| 0 <= i < s.len() ==> is_digit(#[trigger] s[i])
}

/// The decimal value of a digit string.
pub open spec fn digits_val(s: Seq<char>) -> nat
    decreases s.len(),
{
    if s.len() == 0 {
        0
    } else {
        digits_val(s.drop_last()) * 10 + digit_val(s.last())
    }
}

/// What `str::parse` yields on a digit string: its value if the string is
/// non-empty, all digits, and the value fits; nothing otherwise.
pub open spec fn parse_u64(s: Seq<char>) -> Option<u64> {
    if s.len() > 0 && all_digits(s) && digits_val(s) <= u64::MAX {
        Option::Some(digits_val(s) as u64)
    } else {
        Option::None
    }
}

/// A digit string's value only grows as digits are appended.
pub proof fn lemma_digits_val_prefix(s: Seq<char>, j: int)
    requires
        0 <= j <= s.len(),
    ensures
        digits_val(s.subrange(0, j)) <= digits_val(s),
    decreases s.len() - j,
{
    if j < s.len() {
        lemma_digits_val_prefix(s, j + 1);
        let a = s.subrange(0, j);
        let b = s.subrange(0, j + 1);
        assert(b.drop_last() =~= a);
        assert(digits_val(b) == digits_val(a) * 10 + digit_val(b.last()));
        assert(digits_val(a) * 10 >= digits_val(a)) by (nonlinear_arith)
            requires
                digits_val(a) >= 0,
        ;
    } else {
        assert(s.subrange(0, j) =~= s);
    }
}

/// Executable twin of [`parse_u64`].
pub fn parse_u64_chars(v: &Vec<char>) -> (r: Option<u64>)
    ensures
        r == parse_u64(v@),
{
    if v.len() == 0 {
        return None;
    }
    let mut acc: u64 = 0;
    let mut i: usize = 0;
    while i < v.len()
        invariant
            i <= v@.len(),
            all_digits(v@.subrange(0, i as int)),
            acc == digits_val(v@.subrange(0, i as int)),
        decreases v@.len() - i,
    {
        let c = v[i];
        if !(c >= '0' && c <= '9') {
            assert(!is_digit(v@[i as int]));
            assert(!all_digits(v@));
            return None;
        }
        let d: u64 = ((c as u32) - ('0' as u32)) as u64;
        assert(d == digit_val(c));
        let step = match acc.checked_mul(10) {
            Some(t) => t.checked_add(d),
            None => None,
        };
        proof {
            assert(v@.subrange(0, i + 1).drop_last() =~= v@.subrange(0, i as int));
            assert(digits_val(v@.subrange(0, i + 1)) == digits_val(v@.subrange(0, i as int)) * 10
                + digit_val(v@[i as int]));
        }
        match step {
            Some(t) => {
                acc = t;
            },
            None => {
                proof {
                    lemma_digits_val_prefix(v@, i + 1);
                    assert(digits_val(v@) > u64::MAX);
                }
                return None;
            },
        }
        i = i + 1;
    }
    assert(v@.subrange(0, v@.len() as int) =~= v@);
    Some(acc)
}

} // verus!

verus! {

/// Lexicographic order on character sequences, by code point.
pub open spec fn str_le(a: Seq<char>, b: Seq<char>) -> bool
    decreases a.len(),
{
    if a.len() == 0 {
        true
    } else if b.len() == 0 {
        false
    } else if a[0] == b[0] {
        str_le(a.drop_first(), b.drop_first())
    } else {
        a[0] < b[0]
    }
}

/// Executable twin of [`str_le`].
pub fn str_le_chars(a: &Vec<char>, b: &Vec<char>) -> (r: bool)
    ensures
        r == str_le(a@, b@),
    decreases a@.len(),
{
    if a.len() == 0 {
        true
    } else if b.len() == 0 {
        false
    } else if a[0] == b[0] {
        let ta = copy_range(a, 1, a.len());
        let tb = copy_range(b, 1, b.len());
        assert(ta@ =~= a@.drop_first());
        assert(tb@ =~= b@.drop_first());
        str_le_chars(&ta, &tb)
    } else {
        a[0] < b[0]
    }
}

/// Any two strings are ordered.
pub proof fn lemma_str_le_total(a: Seq<char>, b: Seq<char>)
    ensures
        str_le(a, b) || str_le(b, a),
    decreases a.len(),
{
    if a.len() > 0 && b.len() > 0 && a[0] == b[0] {
        lemma_str_le_total(a.drop_first(), b.drop_first());
    }
}

/// The string order is transitive.
pub proof fn lemma_str_le_trans(a: Seq<char>, b: Seq<char>, c: Seq<char>)
    requires
        str_le(a, b),
        str_le(b, c),
    ensures
        str_le(a, c),
    decreases a.len(),
{
    if a.len() > 0 && b.len() > 0 && c.len() > 0 && a[0] == b[0] && b[0] == c[0] {
        lemma_str_le_trans(a.drop_first(), b.drop_first(), c.drop_first());
    }
}

/// Strings ordered both ways are equal.
pub proof fn lemma_str_le_antisym(a: Seq<char>, b: Seq<char>)
    requires
        str_le(a, b),
        str_le(b, a),
    ensures
        a == b,
    decreases a.len(),
{
    if a.len() > 0 && b.len() > 0 && a[0] == b[0] {
        lemma_str_le_antisym(a.drop_first(), b.drop_first());
        assert(a =~= seq![a[0]] + a.drop_first());
        assert(b =~= seq![b[0]] + b.drop_first());
    }
}

} // verus!
