//! The package record: one tracked unit of software, with its declared
//! metadata and its install state.

use vstd::prelude::*;

verus! {

/// Install state of a package record.
#[derive(Clone, Copy, PartialEq, Eq, Structural, Debug)]
pub enum PackageStatus {
    Available,
    Installed,
    Removed,
}

/// Mathematical contents of a [`Package`].
#[verifier::ext_equal]
pub ghost struct PackageV {
    pub deps: Seq<Seq<char>>,
    pub description: Seq<char>,
    pub downloads: Seq<Seq<char>>,
    pub installed_version: Seq<char>,
    pub link: Seq<char>,
    pub name: Seq<char>,
    pub news: Seq<char>,
    pub selector: Seq<char>,
    pub status: PackageStatus,
    pub upstream: Seq<char>,
    pub version: Seq<char>,
    pub version_command: Seq<char>,
}

/// One tracked unit of software.
#[derive(Debug)]
pub struct Package {
    pub deps: Vec<String>,
    pub description: String,
    pub downloads: Vec<String>,
    pub installed_version: String,
    pub link: String,
    pub name: String,
    pub news: String,
    pub selector: String,
    pub status: PackageStatus,
    pub upstream: String,
    pub version: String,
    pub version_command: String,
}

impl View for Package {
    type V = PackageV;

    open spec fn view(&self) -> PackageV {
        PackageV {
            deps: self.deps.deep_view(),
            description: self.description@,
            downloads: self.downloads.deep_view(),
            installed_version: self.installed_version@,
            link: self.link@,
            name: self.name@,
            news: self.news@,
            selector: self.selector@,
            status: self.status,
            upstream: self.upstream@,
            version: self.version@,
            version_command: self.version_command@,
        }
    }
}

impl DeepView for Package {
    type V = PackageV;

    open spec fn deep_view(&self) -> PackageV {
        self.view()
    }
}

impl Clone for Package {
    /// A clone carries the same contents.
    fn clone(&self) -> (r: Self)
        ensures
            r@ == self@,
    {
        let r = Package {
            deps: self.deps.clone(),
            description: self.description.clone(),
            downloads: self.downloads.clone(),
            installed_version: self.installed_version.clone(),
            link: self.link.clone(),
            name: self.name.clone(),
            news: self.news.clone(),
            selector: self.selector.clone(),
            status: self.status,
            upstream: self.upstream.clone(),
            version: self.version.clone(),
            version_command: self.version_command.clone(),
        };
        proof {
            assert(r.deps.deep_view() =~= self.deps.deep_view());
            assert(r.downloads.deep_view() =~= self.downloads.deep_view());
            assert(r@ =~= self@);
        }
        r
    }
}

/// Why forming a package from its metadata failed.
#[derive(Debug)]
pub enum FormError {
    /// The identifier is reserved for housekeeping files and names no package;
    /// callers skip it.
    Refused { id: String },
    /// The metadata carried no name; callers log and skip this one package.
    MalformedMetadata { id: String },
    /// Expanding a set reference among the dependencies failed.
    Sets(crate::sets::SetError),
}

/// The record of `name` in the store: the first one so named, if any.
pub open spec fn lookup(pkgs: Seq<Package>, name: Seq<char>) -> Option<Package>
    decreases pkgs.len(),
{
    if pkgs.len() == 0 {
        Option::None
    } else if pkgs[0]@.name == name {
        Option::Some(pkgs[0])
    } else {
        lookup(pkgs.drop_first(), name)
    }
}

/// There is a record named `name`.
pub open spec fn has_pkg(pkgs: Seq<Package>, name: Seq<char>) -> bool {
    exists|i: int| 0 <= i < pkgs.len() && pkgs[i]@.name == name
}

/// [`lookup`] finds the first index whose record carries `name`.
pub proof fn lemma_lookup_at(pkgs: Seq<Package>, name: Seq<char>, i: int)
    requires
        0 <= i < pkgs.len(),
        pkgs[i]@.name == name,
        forall|k: int| 0 <= k < i ==> pkgs[k]@.name != name,
    ensures
        lookup(pkgs, name) == Option::Some(pkgs[i]),
    decreases pkgs.len(),
{
    if i > 0 {
        lemma_lookup_at(pkgs.drop_first(), name, i - 1);
    }
}

/// When no record carries `name`, [`lookup`] finds nothing.
pub proof fn lemma_lookup_none(pkgs: Seq<Package>, name: Seq<char>)
    requires
        forall|k: int| 0 <= k < pkgs.len() ==> pkgs[k]@.name != name,
    ensures
        lookup(pkgs, name) == Option::<Package>::None,
    decreases pkgs.len(),
{
    if pkgs.len() > 0 {
        lemma_lookup_none(pkgs.drop_first(), name);
    }
}

/// [`lookup`] succeeds exactly on the names of records, and on what it finds.
pub proof fn lemma_lookup_props(pkgs: Seq<Package>, name: Seq<char>)
    ensures
        lookup(pkgs, name).is_some() == has_pkg(pkgs, name),
        lookup(pkgs, name).is_some() ==> lookup(pkgs, name).unwrap()@.name == name
            && pkgs.contains(lookup(pkgs, name).unwrap()),
    decreases pkgs.len(),
{
    if pkgs.len() > 0 {
        lemma_lookup_props(pkgs.drop_first(), name);
        if pkgs[0]@.name != name {
            assert(forall|i: int| 0 <= i < pkgs.drop_first().len()
                ==> pkgs.drop_first()[i] == pkgs[i + 1]);
            if has_pkg(pkgs, name) {
                let w = choose|i: int| 0 <= i < pkgs.len() && pkgs[i]@.name == name;
                assert(pkgs.drop_first()[w - 1]@.name == name);
            }
            if has_pkg(pkgs.drop_first(), name) {
                let w = choose|i: int|
                    0 <= i < pkgs.drop_first().len() && pkgs.drop_first()[i]@.name == name;
                assert(pkgs[w + 1]@.name == name);
            }
            if lookup(pkgs.drop_first(), name).is_some() {
                assert(pkgs.contains(lookup(pkgs, name).unwrap())) by {
                    let p = lookup(pkgs.drop_first(), name).unwrap();
                    let w = choose|i: int|
                        0 <= i < pkgs.drop_first().len() && pkgs.drop_first()[i] == p;
                    assert(pkgs[w + 1] == p);
                }
            }
        }
    }
}

/// Index of the first record named `name`, if any.
pub fn find_package(pkgs: &Vec<Package>, name: &String) -> (r: Option<usize>)
    ensures
        match r {
            Some(i) => i < pkgs@.len() && pkgs@[i as int]@.name == name@ && forall|k: int|
                0 <= k < i ==> pkgs@[k]@.name != name@,
            None => forall|k: int| 0 <= k < pkgs@.len() ==> pkgs@[k]@.name != name@,
        },
        r.is_some() == has_pkg(pkgs@, name@),
        lookup(pkgs@, name@) == (match r {
            Some(i) => Option::Some(pkgs@[i as int]),
            None => Option::<Package>::None,
        }),
{
    let mut i: usize = 0;
    while i < pkgs.len()
        invariant
            i <= pkgs@.len(),
            forall|k: int| 0 <= k < i ==> pkgs@[k]@.name != name@,
        decreases pkgs@.len() - i,
    {
        if pkgs[i].name.eq(name) {
            proof {
                lemma_lookup_at(pkgs@, name@, i as int);
            }
            return Some(i);
        }
        i = i + 1;
    }
    proof {
        lemma_lookup_none(pkgs@, name@);
    }
    None
}

/// `q` is the contents of one of the records.
pub open spec fn view_in(ps: Seq<Package>, q: PackageV) -> bool {
    exists|j: int| 0 <= j < ps.len() && q == #[trigger] ps[j]@
}

/// The names of the records, in store order.
pub open spec fn names_of(pkgs: Seq<Package>) -> Seq<Seq<char>> {
    pkgs.map_values(|p: Package| p@.name)
}

impl Package {
    /// Fetch the record of `name` from the store, if one exists. Deriving a
    /// record for a name the store does not know needs the metadata backend
    /// and is the caller's affair.
    pub fn new(name: &str, pkglist: &Vec<Package>) -> (r: Option<Package>)
        ensures
            match r {
                Some(p) => lookup(pkglist@, name@).is_some()
                    && p@ == lookup(pkglist@, name@).unwrap()@,
                None => lookup(pkglist@, name@).is_none(),
            },
    {
        let owned = name.to_owned();
        match find_package(pkglist, &owned) {
            Some(i) => Some(pkglist[i].clone()),
            None => None,
        }
    }

    /// The package shown as `name-version`.
    pub fn name_version(&self) -> (r: String)
        ensures
            r@ == self@.name + seq!['-'] + self@.version,
    {
        let mut v = crate::text::chars_of(self.name.as_str());
        v.push('-');
        let mut w = crate::text::chars_of(self.version.as_str());
        v.append(&mut w);
        assert(v@ =~= self@.name + seq!['-'] + self@.version);
        crate::text::string_of(&v)
    }
}

} // verus!

verus! {

/// The six-character field tag for a metadata line: four letters, a colon and
/// a space.
pub open spec fn tag(a: char, b: char, c: char, d: char) -> Seq<char> {
    seq![a, b, c, d, ':', ' ']
}

fn tag_pat(a: char, b: char, c: char, d: char) -> (r: Vec<char>)
    ensures
        r@ == tag(a, b, c, d),
{
    let mut r: Vec<char> = Vec::new();
    r.push(a);
    r.push(b);
    r.push(c);
    r.push(d);
    r.push(':');
    r.push(' ');
    assert(r@ =~= tag(a, b, c, d));
    r
}

/// The trimmed value of the last metadata line carrying `tag`, empty when no
/// line does.
pub open spec fn tagged(lines: Seq<Seq<char>>, tag: Seq<char>) -> Seq<char>
    decreases lines.len(),
{
    if lines.len() == 0 {
        Seq::empty()
    } else if crate::text::match_at(lines.last(), tag, 0) {
        crate::text::trim(lines.last().skip(tag.len() as int))
    } else {
        tagged(lines.drop_last(), tag)
    }
}

/// The whitespace-separated words of the last metadata line carrying `tag`,
/// empty when no line does.
pub open spec fn tagged_words(lines: Seq<Seq<char>>, tag: Seq<char>) -> Seq<Seq<char>>
    decreases lines.len(),
{
    if lines.len() == 0 {
        Seq::empty()
    } else if crate::text::match_at(lines.last(), tag, 0) {
        crate::text::split_ws(lines.last().skip(tag.len() as int))
    } else {
        tagged_words(lines.drop_last(), tag)
    }
}

fn tagged_upto(lines: &Vec<String>, n: usize, pat: &Vec<char>) -> (r: Vec<char>)
    requires
        n <= lines@.len(),
    ensures
        r@ == tagged(lines.deep_view().take(n as int), pat@),
    decreases n,
{
    let ghost pre = lines.deep_view().take(n as int);
    if n == 0 {
        Vec::new()
    } else {
        proof {
            assert(pre.last() == lines.deep_view()[n - 1]);
            assert(pre.drop_last() =~= lines.deep_view().take(n - 1));
        }
        let lv = crate::text::chars_of(lines[n - 1].as_str());
        if pat.len() <= lv.len() && crate::text::matches_at(&lv, pat, 0) {
            let rest = crate::text::copy_range(&lv, pat.len(), lv.len());
            assert(rest@ =~= lv@.skip(pat@.len() as int));
            crate::text::trim_chars(&rest)
        } else {
            assert(!crate::text::match_at(pre.last(), pat@, 0));
            tagged_upto(lines, n - 1, pat)
        }
    }
}

fn tagged_words_upto(lines: &Vec<String>, n: usize, pat: &Vec<char>) -> (r: Vec<String>)
    requires
        n <= lines@.len(),
    ensures
        r.deep_view() == tagged_words(lines.deep_view().take(n as int), pat@),
    decreases n,
{
    let ghost pre = lines.deep_view().take(n as int);
    if n == 0 {
        let r: Vec<String> = Vec::new();
        assert(r.deep_view() =~= Seq::<Seq<char>>::empty());
        r
    } else {
        proof {
            assert(pre.last() == lines.deep_view()[n - 1]);
            assert(pre.drop_last() =~= lines.deep_view().take(n - 1));
        }
        let lv = crate::text::chars_of(lines[n - 1].as_str());
        if pat.len() <= lv.len() && crate::text::matches_at(&lv, pat, 0) {
            let rest = crate::text::copy_range(&lv, pat.len(), lv.len());
            assert(rest@ =~= lv@.skip(pat@.len() as int));
            crate::text::split_ws_chars(&rest)
        } else {
            assert(!crate::text::match_at(pre.last(), pat@, 0));
            tagged_words_upto(lines, n - 1, pat)
        }
    }
}

/// The reserved identifiers: housekeeping files that live beside real
/// definitions and name no package.
pub open spec fn reserved(id: Seq<char>) -> bool {
    id == seq!['R', 'E', 'A', 'D', 'M', 'E', '.', 'm', 'd'] || id == seq![
        'L',
        'I',
        'C',
        'E',
        'N',
        'S',
        'E',
    ] || id == seq!['.', 'g', 'i', 't']
}

fn is_reserved(idv: &Vec<char>) -> (r: bool)
    ensures
        r == reserved(idv@),
{
    let mut a: Vec<char> = Vec::new();
    a.push('R');
    a.push('E');
    a.push('A');
    a.push('D');
    a.push('M');
    a.push('E');
    a.push('.');
    a.push('m');
    a.push('d');
    assert(a@ =~= seq!['R', 'E', 'A', 'D', 'M', 'E', '.', 'm', 'd']);
    let mut b: Vec<char> = Vec::new();
    b.push('L');
    b.push('I');
    b.push('C');
    b.push('E');
    b.push('N');
    b.push('S');
    b.push('E');
    assert(b@ =~= seq!['L', 'I', 'C', 'E', 'N', 'S', 'E']);
    let mut c: Vec<char> = Vec::new();
    c.push('.');
    c.push('g');
    c.push('i');
    c.push('t');
    assert(c@ =~= seq!['.', 'g', 'i', 't']);
    let r = crate::text::eq_chars(idv, &a) || crate::text::eq_chars(idv, &b)
        || crate::text::eq_chars(idv, &c);
    r
}

/// Whether an identifier is reserved for housekeeping files.
pub fn id_is_reserved(id: &str) -> (r: bool)
    ensures
        r == reserved(id@),
{
    let v = crate::text::chars_of(id);
    is_reserved(&v)
}

/// The dependency list a formed package must carry: the `DEPS: ` words of
/// its metadata, set references expanded against the store, so a formed
/// record never leaves formation with a set reference among its
/// dependencies.
pub open spec fn formed_deps(
    lines: Seq<Seq<char>>,
    pkglist: Seq<Package>,
    files: Seq<crate::sets::SetFileV>,
) -> Result<Seq<Seq<char>>, crate::sets::SetErrV> {
    crate::sets::spec_handle_sets(
        tagged_words(lines, tag('D', 'E', 'P', 'S')),
        names_of(pkglist),
        files,
    )
}

/// The status and installed version a formed package must carry: those of the
/// store record of the same name, or `Available` with no installed version.
pub open spec fn merged_status(pkglist: Seq<Package>, name: Seq<char>) -> (
    PackageStatus,
    Seq<char>,
) {
    match lookup(pkglist, name) {
        Option::Some(p) => (p@.status, p@.installed_version),
        Option::None => (PackageStatus::Available, Seq::empty()),
    }
}

/// The name a metadata text declares.
pub open spec fn meta_name(md: Seq<char>) -> Seq<char> {
    tagged(crate::text::split_on(md, '\n'), tag('N', 'A', 'M', 'E'))
}

/// What a successfully formed record must hold, given the metadata text, the
/// store it was merged against and the set files: every field comes from the
/// matching tag line, dependencies are expanded, status and installed version
/// merged in.
pub open spec fn formed_ok(
    p: PackageV,
    md: Seq<char>,
    pkgs: Seq<Package>,
    files: Seq<crate::sets::SetFileV>,
) -> bool {
    let lines = crate::text::split_on(md, '\n');
    &&& p.name == tagged(lines, tag('N', 'A', 'M', 'E'))
    &&& p.name.len() > 0
    &&& p.description == tagged(lines, tag('D', 'E', 'S', 'C'))
    &&& p.link == tagged(lines, tag('L', 'I', 'N', 'K'))
    &&& p.news == tagged(lines, tag('N', 'E', 'W', 'S'))
    &&& p.selector == tagged(lines, tag('S', 'E', 'L', 'E'))
    &&& p.upstream == tagged(lines, tag('U', 'P', 'S', 'T'))
    &&& p.version_command == tagged(lines, tag('V', 'C', 'M', 'D'))
    &&& p.version == tagged(lines, tag('V', 'E', 'R', 'S'))
    &&& p.downloads == tagged_words(lines, tag('D', 'O', 'W', 'N'))
    &&& Result::<Seq<Seq<char>>, crate::sets::SetErrV>::Ok(p.deps) == formed_deps(
        lines,
        pkgs,
        files,
    )
    &&& (p.status, p.installed_version) == merged_status(pkgs, p.name)
}

impl Package {
    /// Form a package record from the metadata backend's text for
    /// `pkg_name`. Each metadata line carries a six-character field tag;
    /// unrecognized lines are ignored, the last line of a tag wins. The name
    /// is mandatory; dependency set references are expanded; status and
    /// installed version are merged in from the store.
    pub fn def(
        pkg_name: &str,
        metadata: &str,
        pkglist: &Vec<Package>,
        files: &Vec<crate::sets::SetFile>,
    ) -> (r: Result<Package, FormError>)
        ensures
            match r {
                Result::Ok(p) => !reserved(pkg_name@) && formed_ok(
                    p@,
                    metadata@,
                    pkglist@,
                    files.deep_view(),
                ),
                Result::Err(FormError::Refused { id }) => reserved(pkg_name@) && id@ == pkg_name@,
                Result::Err(FormError::MalformedMetadata { id }) => !reserved(pkg_name@)
                    && meta_name(metadata@).len() == 0 && id@ == pkg_name@,
                Result::Err(FormError::Sets(e)) => !reserved(pkg_name@) && meta_name(
                    metadata@,
                ).len() > 0 && formed_deps(
                    crate::text::split_on(metadata@, '\n'),
                    pkglist@,
                    files.deep_view(),
                ) == Result::<Seq<Seq<char>>, crate::sets::SetErrV>::Err(e@),
            },
    {
        let idv = crate::text::chars_of(pkg_name);
        if is_reserved(&idv) {
            return Err(FormError::Refused { id: pkg_name.to_owned() });
        }
        let mv = crate::text::chars_of(metadata);
        let lines = crate::text::split_on_chars(&mv, '\n');
        let ghost lns = lines.deep_view();
        proof {
            assert(lns.take(lns.len() as int) =~= lns);
        }
        let n = lines.len();

        let name_v = tagged_upto(&lines, n, &tag_pat('N', 'A', 'M', 'E'));
        if name_v.len() == 0 {
            return Err(FormError::MalformedMetadata { id: pkg_name.to_owned() });
        }
        let name = crate::text::string_of(&name_v);

        let description = crate::text::string_of(&tagged_upto(&lines, n, &tag_pat('D', 'E', 'S', 'C')));
        let link = crate::text::string_of(&tagged_upto(&lines, n, &tag_pat('L', 'I', 'N', 'K')));
        let news = crate::text::string_of(&tagged_upto(&lines, n, &tag_pat('N', 'E', 'W', 'S')));
        let selector = crate::text::string_of(&tagged_upto(&lines, n, &tag_pat('S', 'E', 'L', 'E')));
        let upstream = crate::text::string_of(&tagged_upto(&lines, n, &tag_pat('U', 'P', 'S', 'T')));
        let version_command = crate::text::string_of(
            &tagged_upto(&lines, n, &tag_pat('V', 'C', 'M', 'D')),
        );
        let version = crate::text::string_of(&tagged_upto(&lines, n, &tag_pat('V', 'E', 'R', 'S')));
        let downloads = tagged_words_upto(&lines, n, &tag_pat('D', 'O', 'W', 'N'));
        let raw_deps = tagged_words_upto(&lines, n, &tag_pat('D', 'E', 'P', 'S'));

        let deps = match crate::sets::handle_sets(raw_deps, pkglist, files) {
            Ok(d) => d,
            Err(e) => {
                return Err(FormError::Sets(e));
            },
        };

        let (status, installed_version) = match find_package(pkglist, &name) {
            Some(i) => (pkglist[i].status, pkglist[i].installed_version.clone()),
            None => (PackageStatus::Available, String::new()),
        };

        Ok(
            Package {
                deps,
                description,
                downloads,
                installed_version,
                link,
                name,
                news,
                selector,
                status,
                upstream,
                version,
                version_command,
            },
        )
    }
}

} // verus!

verus! {

/// Whether formation's dependency expansion fails — and with which error —
/// depends only on the metadata and the set files, not on which store it is
/// merged against.
pub proof fn lemma_formed_deps_store_indep(
    lines: Seq<Seq<char>>,
    pkgs1: Seq<Package>,
    pkgs2: Seq<Package>,
    files: Seq<crate::sets::SetFileV>,
)
    ensures
        match (formed_deps(lines, pkgs1, files), formed_deps(lines, pkgs2, files)) {
            (Result::Ok(_), Result::Ok(_)) => true,
            (Result::Err(e1), Result::Err(e2)) => e1 == e2,
            _ => false,
        },
{
    crate::sets::lemma_handle_sets_names_indep(
        tagged_words(lines, tag('D', 'E', 'P', 'S')),
        names_of(pkgs1),
        names_of(pkgs2),
        files,
    );
}

} // verus!
