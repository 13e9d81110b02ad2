//! Named package sets: text files listing package identifiers and nested set
//! references, expanded depth-first into a flat, order-preserving list.
//!
//! Reading the files is the caller's affair; expansion works on their
//! contents, handed in as [`SetFile`] values. A set of in-progress file
//! names guards the recursion, so a set that references itself is reported
//! as a cycle instead of recursing without bound.

use vstd::prelude::*;

use crate::package::{names_of, Package};
use crate::text::{
    chars_of, clone_strings, contains_char, contains_string, contains_sub, eq_chars, has_sub,
    lemma_push_to_set, remove_first, remove_first_chars, string_of, trim, trim_string,
};

verus! {

/// One set file: its name (without the `@` sigil) and its lines.
pub struct SetFile {
    pub name: String,
    pub lines: Vec<String>,
}

/// Mathematical contents of a [`SetFile`].
#[verifier::ext_equal]
pub ghost struct SetFileV {
    pub name: Seq<char>,
    pub lines: Seq<Seq<char>>,
}

impl View for SetFile {
    type V = SetFileV;

    open spec fn view(&self) -> SetFileV {
        SetFileV { name: self.name@, lines: self.lines.deep_view() }
    }
}

impl DeepView for SetFile {
    type V = SetFileV;

    open spec fn deep_view(&self) -> SetFileV {
        self.view()
    }
}

/// Why expanding a set reference failed. Both cases name the offending
/// reference.
#[derive(Debug)]
pub enum SetError {
    /// The named set file does not exist; fatal, since the user explicitly
    /// asked for it.
    SetNotFound { set: String },
    /// The set references itself, directly or through other sets.
    CycleDetected { set: String },
}

/// Mathematical contents of a [`SetError`].
pub ghost enum SetErrV {
    NotFound { set: Seq<char> },
    Cycle { set: Seq<char> },
}

impl View for SetError {
    type V = SetErrV;

    open spec fn view(&self) -> SetErrV {
        match self {
            SetError::SetNotFound { set } => SetErrV::NotFound { set: set@ },
            SetError::CycleDetected { set } => SetErrV::Cycle { set: set@ },
        }
    }
}

/// A token is a set reference when it carries the `@` sigil.
pub open spec fn is_set_tok(t: Seq<char>) -> bool {
    t.contains('@')
}

/// A line is skipped as a comment when it is blank or carries a comment
/// marker.
pub open spec fn is_comment_tok(t: Seq<char>) -> bool {
    trim(t).len() == 0 || t.contains('#') || has_sub(t, seq!['/', '/'])
}

/// The reserved reference that expands to every known package.
pub open spec fn all_tok() -> Seq<char> {
    seq!['@', 'a', 'l', 'l']
}

/// The set file a reference names: the token with its first `@` removed.
pub open spec fn set_file_name(tok: Seq<char>) -> Seq<char> {
    remove_first(tok, '@')
}

/// The names of the known set files.
pub open spec fn set_names(files: Seq<SetFileV>) -> Set<Seq<char>> {
    files.map_values(|f: SetFileV| f.name).to_set()
}

/// How many known set files are not yet being expanded: the measure that
/// shrinks every time expansion enters a new file.
pub open spec fn free_sets(files: Seq<SetFileV>, active: Set<Seq<char>>) -> nat {
    set_names(files).difference(active).len()
}

/// The first set file so named, if any.
pub open spec fn lookup_file(files: Seq<SetFileV>, name: Seq<char>) -> Option<SetFileV>
    decreases files.len(),
{
    if files.len() == 0 {
        Option::None
    } else if files[0].name == name {
        Option::Some(files[0])
    } else {
        lookup_file(files.drop_first(), name)
    }
}

/// A found file carries the name looked up, which is a known name.
pub proof fn lemma_lookup_file_props(files: Seq<SetFileV>, name: Seq<char>)
    ensures
        lookup_file(files, name).is_some() ==> lookup_file(files, name).unwrap().name == name
            && set_names(files).contains(name),
    decreases files.len(),
{
    broadcast use vstd::seq_lib::seq_to_set_is_finite;

    if files.len() > 0 {
        lemma_lookup_file_props(files.drop_first(), name);
        if files[0].name == name {
            assert(files.map_values(|f: SetFileV| f.name)[0] == name);
            assert(files.map_values(|f: SetFileV| f.name).contains(name));
        } else if lookup_file(files.drop_first(), name).is_some() {
            assert(set_names(files.drop_first()).contains(name));
            let tailnames = files.drop_first().map_values(|f: SetFileV| f.name);
            let w = choose|i: int| 0 <= i < tailnames.len() && tailnames[i] == name;
            assert(files.map_values(|f: SetFileV| f.name)[w + 1] == name);
            assert(files.map_values(|f: SetFileV| f.name).contains(name));
        }
    }
}

/// What a set reference expands to: the whole store for the reserved
/// reference, else the expansion of the named file's lines; a reference to a
/// file already being expanded is a cycle, a reference to no known file is
/// fatal.
pub open spec fn spec_expand_token(
    tok: Seq<char>,
    pkgnames: Seq<Seq<char>>,
    files: Seq<SetFileV>,
    active: Set<Seq<char>>,
) -> Result<Seq<Seq<char>>, SetErrV>
    decreases free_sets(files, active), 0nat, 0nat,
    via spec_expand_token_dec
{
    if tok == all_tok() {
        Result::Ok(pkgnames)
    } else {
        let fname = set_file_name(tok);
        if active.contains(fname) {
            Result::Err(SetErrV::Cycle { set: tok })
        } else {
            match lookup_file(files, fname) {
                Option::None => Result::Err(SetErrV::NotFound { set: tok }),
                Option::Some(f) => spec_expand_lines(
                    f.lines,
                    pkgnames,
                    files,
                    active.insert(fname),
                ),
            }
        }
    }
}

/// Expansion of a file's remaining lines, in order: comments are skipped,
/// nested references expanded in place, and plain tokens kept.
pub open spec fn spec_expand_lines(
    lines: Seq<Seq<char>>,
    pkgnames: Seq<Seq<char>>,
    files: Seq<SetFileV>,
    active: Set<Seq<char>>,
) -> Result<Seq<Seq<char>>, SetErrV>
    decreases free_sets(files, active), lines.len(), 1nat,
{
    if lines.len() == 0 {
        Result::Ok(Seq::empty())
    } else {
        let t = trim(lines[0]);
        let rest = spec_expand_lines(lines.drop_first(), pkgnames, files, active);
        if is_comment_tok(t) {
            rest
        } else if is_set_tok(t) {
            match spec_expand_token(t, pkgnames, files, active) {
                Result::Err(e) => Result::Err(e),
                Result::Ok(v) => match rest {
                    Result::Err(e) => Result::Err(e),
                    Result::Ok(vs) => Result::Ok(v + vs),
                },
            }
        } else {
            match rest {
                Result::Err(e) => Result::Err(e),
                Result::Ok(vs) => Result::Ok(seq![t] + vs),
            }
        }
    }
}

#[via_fn]
proof fn spec_expand_token_dec(
    tok: Seq<char>,
    pkgnames: Seq<Seq<char>>,
    files: Seq<SetFileV>,
    active: Set<Seq<char>>,
) {
    broadcast use vstd::seq_lib::seq_to_set_is_finite;

    let fname = set_file_name(tok);
    if tok != all_tok() && !active.contains(fname) && lookup_file(files, fname).is_some() {
        lemma_lookup_file_props(files, fname);
        set_names(files).lemma_set_insert_diff_decreases(active, fname);
    }
}

/// The view of an expansion result, for stating contracts.
pub open spec fn expansion_view(r: Result<Vec<String>, SetError>) -> Result<
    Seq<Seq<char>>,
    SetErrV,
> {
    match r {
        Result::Ok(v) => Result::Ok(v.deep_view()),
        Result::Err(e) => Result::Err(e@),
    }
}

/// Whether a token is a set reference (it carries the `@` sigil).
pub fn is_set(pkg: &str) -> (r: bool)
    ensures
        r == is_set_tok(pkg@),
{
    let v = chars_of(pkg);
    contains_char(&v, '@')
}

/// Whether a line is skipped as a comment: blank, or carrying `#` or `//`.
pub fn is_comment(pkg: &str) -> (r: bool)
    ensures
        r == is_comment_tok(pkg@),
{
    let v = chars_of(pkg);
    let t = crate::text::trim_chars(&v);
    if t.len() == 0 {
        return true;
    }
    if contains_char(&v, '#') {
        return true;
    }
    let mut pat: Vec<char> = Vec::new();
    pat.push('/');
    pat.push('/');
    assert(pat@ =~= seq!['/', '/']);
    contains_sub(&v, &pat)
}

fn find_set_file(files: &Vec<SetFile>, name: &String) -> (r: Option<usize>)
    ensures
        match r {
            Some(i) => i < files@.len() && files@[i as int]@.name == name@ && lookup_file(
                files.deep_view(),
                name@,
            ) == Option::Some(files@[i as int]@),
            None => lookup_file(files.deep_view(), name@) == Option::<SetFileV>::None,
        },
{
    let ghost fv = files.deep_view();
    let mut i: usize = 0;
    while i < files.len()
        invariant
            fv == files.deep_view(),
            i <= files@.len(),
            forall|k: int| 0 <= k < i ==> files@[k]@.name != name@,
        decreases files@.len() - i,
    {
        if files[i].name.eq(name) {
            proof {
                lemma_lookup_file_at(fv, name@, i as int);
            }
            return Some(i);
        }
        i = i + 1;
    }
    proof {
        lemma_lookup_file_none(fv, name@);
    }
    None
}

proof fn lemma_lookup_file_at(files: Seq<SetFileV>, name: Seq<char>, i: int)
    requires
        0 <= i < files.len(),
        files[i].name == name,
        forall|k: int| 0 <= k < i ==> files[k].name != name,
    ensures
        lookup_file(files, name) == Option::Some(files[i]),
    decreases files.len(),
{
    if i > 0 {
        lemma_lookup_file_at(files.drop_first(), name, i - 1);
    }
}

proof fn lemma_lookup_file_none(files: Seq<SetFileV>, name: Seq<char>)
    requires
        forall|k: int| 0 <= k < files.len() ==> files[k].name != name,
    ensures
        lookup_file(files, name) == Option::<SetFileV>::None,
    decreases files.len(),
{
    if files.len() > 0 {
        lemma_lookup_file_none(files.drop_first(), name);
    }
}

/// Expand one set reference into package identifiers, depth-first and in
/// source order. `active` holds the names of the set files currently being
/// expanded, and guards against cycles.
pub fn expand_set(
    set: &String,
    pkglist: &Vec<Package>,
    files: &Vec<SetFile>,
    active: &Vec<String>,
) -> (r: Result<Vec<String>, SetError>)
    ensures
        expansion_view(r) == spec_expand_token(
            set@,
            names_of(pkglist@),
            files.deep_view(),
            active.deep_view().to_set(),
        ),
    decreases free_sets(files.deep_view(), active.deep_view().to_set()), 0nat, 0nat,
{
    let tokv = chars_of(set.as_str());
    let mut allpat: Vec<char> = Vec::new();
    allpat.push('@');
    allpat.push('a');
    allpat.push('l');
    allpat.push('l');
    assert(allpat@ =~= all_tok());
    if eq_chars(&tokv, &allpat) {
        let mut names: Vec<String> = Vec::new();
        let mut i: usize = 0;
        while i < pkglist.len()
            invariant
                i <= pkglist@.len(),
                names@.len() == i,
                forall|k: int| 0 <= k < i ==> names@[k]@ == pkglist@[k]@.name,
            decreases pkglist@.len() - i,
        {
            names.push(pkglist[i].name.clone());
            i = i + 1;
        }
        assert(names.deep_view() =~= names_of(pkglist@)) by {
            assert(forall|k: int|
                0 <= k < names@.len() ==> names.deep_view()[k] == names@[k]@);
        }
        return Ok(names);
    }
    let fnamev = remove_first_chars(&tokv, '@');
    let fname = string_of(&fnamev);
    let ghost activeset = active.deep_view().to_set();
    proof {
        assert(set@ != all_tok());
        assert(fnamev@ == set_file_name(set@));
    }
    if contains_string(active, &fname) {
        assert(activeset.contains(set_file_name(set@)));
        return Err(SetError::CycleDetected { set: set.clone() });
    }
    assert(!activeset.contains(set_file_name(set@)));
    match find_set_file(files, &fname) {
        None => Err(SetError::SetNotFound { set: set.clone() }),
        Some(fi) => {
            let mut act2 = clone_strings(active);
            act2.push(fname);
            proof {
                broadcast use vstd::seq_lib::seq_to_set_is_finite;

                assert(act2.deep_view() =~= active.deep_view().push(fnamev@));
                lemma_push_to_set(active.deep_view(), fnamev@);
                assert(act2.deep_view().to_set() == activeset.insert(fnamev@));
                lemma_lookup_file_props(files.deep_view(), fnamev@);
                set_names(files.deep_view()).lemma_set_insert_diff_decreases(
                    activeset,
                    fnamev@,
                );
            }
            let lines = clone_strings(&files[fi].lines);
            let r = expand_lines(&lines, 0, pkglist, files, &act2);
            proof {
                assert(lines.deep_view().skip(0) =~= files@[fi as int]@.lines);
            }
            r
        },
    }
}

fn expand_lines(
    lines: &Vec<String>,
    i: usize,
    pkglist: &Vec<Package>,
    files: &Vec<SetFile>,
    active: &Vec<String>,
) -> (r: Result<Vec<String>, SetError>)
    requires
        i <= lines@.len(),
    ensures
        expansion_view(r) == spec_expand_lines(
            lines.deep_view().skip(i as int),
            names_of(pkglist@),
            files.deep_view(),
            active.deep_view().to_set(),
        ),
    decreases
            free_sets(files.deep_view(), active.deep_view().to_set()),
            lines@.len() - i,
            1nat,
{
    let ghost lv = lines.deep_view().skip(i as int);
    let ghost pk = names_of(pkglist@);
    let ghost fv = files.deep_view();
    let ghost act = active.deep_view().to_set();
    if i == lines.len() {
        let r: Vec<String> = Vec::new();
        assert(lv =~= Seq::<Seq<char>>::empty());
        assert(r.deep_view() =~= Seq::<Seq<char>>::empty());
        Ok(r)
    } else {
        assert(lv[0] == lines.deep_view()[i as int]);
        assert(lv.drop_first() =~= lines.deep_view().skip(i + 1));
        let t = trim_string(&lines[i]);
        assert(t@ == trim(lv[0]));
        if is_comment(t.as_str()) {
            expand_lines(lines, i + 1, pkglist, files, active)
        } else if is_set(t.as_str()) {
            match expand_set(&t, pkglist, files, active) {
                Err(e) => {
                    assert(spec_expand_token(t@, pk, fv, act) == Result::<
                        Seq<Seq<char>>,
                        SetErrV,
                    >::Err(e@));
                    Err(e)
                },
                Ok(v) => {
                    match expand_lines(lines, i + 1, pkglist, files, active) {
                        Err(e) => Err(e),
                        Ok(vs) => {
                            let mut out = v;
                            let mut tailv = vs;
                            let ghost outv = out.deep_view();
                            let ghost tailvv = tailv.deep_view();
                            out.append(&mut tailv);
                            proof {
                                assert(out@ =~= out@.subrange(0, outv.len() as int)
                                    + out@.subrange(outv.len() as int, out@.len() as int));
                                assert(out.deep_view() =~= outv + tailvv);
                            }
                            Ok(out)
                        },
                    }
                },
            }
        } else {
            match expand_lines(lines, i + 1, pkglist, files, active) {
                Err(e) => Err(e),
                Ok(vs) => {
                    let mut out: Vec<String> = Vec::new();
                    out.push(t);
                    let mut tailv = vs;
                    let ghost tailvv = tailv.deep_view();
                    out.append(&mut tailv);
                    assert(out.deep_view() =~= seq![trim(lv[0])] + tailvv);
                    Ok(out)
                },
            }
        }
    }
}

/// Expansion of [`spec_handle_sets`]: each token of the list in order, set
/// references expanded (with nothing yet in progress), plain tokens kept.
pub open spec fn spec_handle_sets(
    toks: Seq<Seq<char>>,
    pkgnames: Seq<Seq<char>>,
    files: Seq<SetFileV>,
) -> Result<Seq<Seq<char>>, SetErrV>
    decreases toks.len(),
{
    if toks.len() == 0 {
        Result::Ok(Seq::empty())
    } else {
        let rest = spec_handle_sets(toks.drop_first(), pkgnames, files);
        if is_set_tok(toks[0]) {
            match spec_expand_token(toks[0], pkgnames, files, Set::empty()) {
                Result::Err(e) => Result::Err(e),
                Result::Ok(v) => match rest {
                    Result::Err(e) => Result::Err(e),
                    Result::Ok(vs) => Result::Ok(v + vs),
                },
            }
        } else {
            match rest {
                Result::Err(e) => Result::Err(e),
                Result::Ok(vs) => Result::Ok(seq![toks[0]] + vs),
            }
        }
    }
}

fn handle_sets_from(
    pkgs: &Vec<String>,
    i: usize,
    pkglist: &Vec<Package>,
    files: &Vec<SetFile>,
) -> (r: Result<Vec<String>, SetError>)
    requires
        i <= pkgs@.len(),
    ensures
        expansion_view(r) == spec_handle_sets(
            pkgs.deep_view().skip(i as int),
            names_of(pkglist@),
            files.deep_view(),
        ),
    decreases pkgs@.len() - i,
{
    let ghost tv = pkgs.deep_view().skip(i as int);
    if i == pkgs.len() {
        let r: Vec<String> = Vec::new();
        assert(tv =~= Seq::<Seq<char>>::empty());
        assert(r.deep_view() =~= Seq::<Seq<char>>::empty());
        Ok(r)
    } else {
        assert(tv[0] == pkgs.deep_view()[i as int]);
        assert(tv.drop_first() =~= pkgs.deep_view().skip(i + 1));
        let tok = &pkgs[i];
        if is_set(tok.as_str()) {
            let empty_active: Vec<String> = Vec::new();
            assert(empty_active.deep_view().to_set() =~= Set::<Seq<char>>::empty());
            match expand_set(tok, pkglist, files, &empty_active) {
                Err(e) => Err(e),
                Ok(v) => {
                    match handle_sets_from(pkgs, i + 1, pkglist, files) {
                        Err(e) => Err(e),
                        Ok(vs) => {
                            let mut out = v;
                            let mut tailv = vs;
                            let ghost outv = out.deep_view();
                            let ghost tailvv = tailv.deep_view();
                            out.append(&mut tailv);
                            assert(out.deep_view() =~= outv + tailvv);
                            Ok(out)
                        },
                    }
                },
            }
        } else {
            match handle_sets_from(pkgs, i + 1, pkglist, files) {
                Err(e) => Err(e),
                Ok(vs) => {
                    let mut out: Vec<String> = Vec::new();
                    out.push(tok.clone());
                    let mut tailv = vs;
                    let ghost tailvv = tailv.deep_view();
                    out.append(&mut tailv);
                    assert(out.deep_view() =~= seq![tv[0]] + tailvv);
                    Ok(out)
                },
            }
        }
    }
}

/// Unravel any set references in `pkgs`, returning a flat list of package
/// identifiers in source order.
pub fn handle_sets(
    pkgs: Vec<String>,
    pkglist: &Vec<Package>,
    files: &Vec<SetFile>,
) -> (r: Result<Vec<String>, SetError>)
    ensures
        expansion_view(r) == spec_handle_sets(
            pkgs.deep_view(),
            names_of(pkglist@),
            files.deep_view(),
        ),
{
    let r = handle_sets_from(&pkgs, 0, pkglist, files);
    assert(pkgs.deep_view().skip(0) =~= pkgs.deep_view());
    r
}

} // verus!

verus! {

/// Whether expansion fails — and with which error — does not depend on the
/// store's names: those only feed the reserved reference's successful
/// expansion.
pub proof fn lemma_expand_token_names_indep(
    tok: Seq<char>,
    n1: Seq<Seq<char>>,
    n2: Seq<Seq<char>>,
    files: Seq<SetFileV>,
    active: Set<Seq<char>>,
)
    ensures
        match (spec_expand_token(tok, n1, files, active), spec_expand_token(
            tok,
            n2,
            files,
            active,
        )) {
            (Result::Ok(_), Result::Ok(_)) => true,
            (Result::Err(e1), Result::Err(e2)) => e1 == e2,
            _ => false,
        },
    decreases free_sets(files, active), 0nat, 0nat,
{
    broadcast use vstd::seq_lib::seq_to_set_is_finite;

    let fname = set_file_name(tok);
    if tok != all_tok() && !active.contains(fname) {
        match lookup_file(files, fname) {
            Option::None => {},
            Option::Some(f) => {
                lemma_lookup_file_props(files, fname);
                set_names(files).lemma_set_insert_diff_decreases(active, fname);
                lemma_expand_lines_names_indep(f.lines, n1, n2, files, active.insert(fname));
            },
        }
    }
}

/// As [`lemma_expand_token_names_indep`], for a file's lines.
pub proof fn lemma_expand_lines_names_indep(
    lines: Seq<Seq<char>>,
    n1: Seq<Seq<char>>,
    n2: Seq<Seq<char>>,
    files: Seq<SetFileV>,
    active: Set<Seq<char>>,
)
    ensures
        match (spec_expand_lines(lines, n1, files, active), spec_expand_lines(
            lines,
            n2,
            files,
            active,
        )) {
            (Result::Ok(_), Result::Ok(_)) => true,
            (Result::Err(e1), Result::Err(e2)) => e1 == e2,
            _ => false,
        },
    decreases free_sets(files, active), lines.len(), 1nat,
{
    if lines.len() > 0 {
        let t = trim(lines[0]);
        lemma_expand_lines_names_indep(lines.drop_first(), n1, n2, files, active);
        if !is_comment_tok(t) && is_set_tok(t) {
            lemma_expand_token_names_indep(t, n1, n2, files, active);
        }
    }
}

/// As [`lemma_expand_token_names_indep`], for a whole token list.
pub proof fn lemma_handle_sets_names_indep(
    toks: Seq<Seq<char>>,
    n1: Seq<Seq<char>>,
    n2: Seq<Seq<char>>,
    files: Seq<SetFileV>,
)
    ensures
        match (spec_handle_sets(toks, n1, files), spec_handle_sets(toks, n2, files)) {
            (Result::Ok(_), Result::Ok(_)) => true,
            (Result::Err(e1), Result::Err(e2)) => e1 == e2,
            _ => false,
        },
    decreases toks.len(),
{
    if toks.len() > 0 {
        lemma_handle_sets_names_indep(toks.drop_first(), n1, n2, files);
        if is_set_tok(toks[0]) {
            lemma_expand_token_names_indep(toks[0], n1, n2, files, Set::empty());
        }
    }
}

} // verus!
