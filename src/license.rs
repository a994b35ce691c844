use vstd::prelude::*;
use crate::text::{chars_of, occurs_at, matches_at, same_text, contains_seq, text_contains};

verus! {

/// What the license check of one manifest found.
pub enum LicenseCheck {
    /// The license line names an approved license.
    Approved,
    /// The license line names this text, which is not approved (or could not
    /// be parsed, in which case it is `"bad-license-parse"`).
    Unapproved(String),
    /// No line of the manifest starts with `license`.
    Missing,
}

/// The license expressions that are accepted.
pub open spec fn approved_license(s: Seq<char>) -> bool {
    ||| s == "MIT/Apache-2.0"@
    ||| s == "MIT / Apache-2.0"@
    ||| s == "Apache-2.0/MIT"@
    ||| s == "Apache-2.0 / MIT"@
    ||| s == "MIT OR Apache-2.0"@
    ||| s == "MIT"@
    ||| s == "Unlicense/MIT"@
}

/// The value of a license line: the text between its first and its last
/// double quote, or `"bad-license-parse"` when it has fewer than two.
pub open spec fn license_value(line: Seq<char>) -> Seq<char> {
    match (line.index_of_first('"'), line.index_of_last('"')) {
        (Some(f), Some(l)) => if f < l {
            line.subrange(f + 1, l)
        } else {
            "bad-license-parse"@
        },
        _ => "bad-license-parse"@,
    }
}

/// Position `p` starts a line of `text`.
pub open spec fn is_line_start(text: Seq<char>, p: int) -> bool {
    0 <= p <= text.len() && (p == 0 || text[p - 1] == '\n')
}

/// The line of `text` that starts at `p`, without its line break.
pub open spec fn line_at(text: Seq<char>, p: int) -> Seq<char> {
    let rest = text.subrange(p, text.len() as int);
    match rest.index_of_first('\n') {
        Some(e) => rest.subrange(0, e),
        None => rest,
    }
}

/// A line that starts with `license` starts at `p`.
pub open spec fn starts_license_line(text: Seq<char>, p: int) -> bool {
    is_line_start(text, p) && occurs_at(text, "license"@, p)
}

/// `p` starts the first line that starts with `license`.
pub open spec fn first_license_line(text: Seq<char>, p: int) -> bool {
    starts_license_line(text, p) && forall|q: int| 0 <= q < p ==> !starts_license_line(text, q)
}

/// The license that a manifest declares: the value of its first line that
/// starts with `license`, if there is one.
pub open spec fn declared_license(text: Seq<char>) -> Option<Seq<char>> {
    if exists|p: int| starts_license_line(text, p) {
        Some(license_value(line_at(text, choose|p: int| first_license_line(text, p))))
    } else {
        None
    }
}

proof fn lemma_first_license_line(text: Seq<char>, w: int)
    requires
        starts_license_line(text, w),
    ensures
        exists|p: int| first_license_line(text, p),
    decreases w,
{
    if !forall|q: int| 0 <= q < w ==> !starts_license_line(text, q) {
        let v = choose|q: int| 0 <= q < w && starts_license_line(text, q);
        lemma_first_license_line(text, v);
    } else {
        assert(first_license_line(text, w));
    }
}

proof fn lemma_first_license_line_unique(text: Seq<char>, p: int, q: int)
    requires
        first_license_line(text, p),
        first_license_line(text, q),
    ensures
        p == q,
{
}

/// Whether `s` is one of the approved license expressions.
pub fn is_approved_license(s: &str) -> (r: bool)
    ensures
        r == approved_license(s@),
{
    same_text(s, "MIT/Apache-2.0") || same_text(s, "MIT / Apache-2.0") || same_text(s, "Apache-2.0/MIT")
        || same_text(s, "Apache-2.0 / MIT") || same_text(s, "MIT OR Apache-2.0") || same_text(s, "MIT")
        || same_text(s, "Unlicense/MIT")
}

/// The value of a license line: what stands between its first and its last
/// double quote.
pub fn extract_license(line: &str) -> (r: String)
    ensures
        r@ == license_value(line@),
{
    let cs = chars_of(line);
    let mut f: usize = 0;
    while f < cs.len() && cs[f] != '"'
        invariant
            cs@ == line@,
            f <= cs.len(),
            forall|j: int| 0 <= j < f ==> cs@[j] != '"',
        decreases cs.len() - f,
    {
        f = f + 1;
    }
    let mut l: usize = cs.len();
    while l > 0 && cs[l - 1] != '"'
        invariant
            cs@ == line@,
            l <= cs.len(),
            forall|j: int| l <= j < cs.len() ==> cs@[j] != '"',
        decreases l,
    {
        l = l - 1;
    }
    proof {
        line@.index_of_first_ensures('"');
        line@.index_of_last_ensures('"');
        if f < cs.len() {
            assert(line@.contains('"'));
        }
        if l > 0 {
            assert(line@[l - 1] == '"');
        }
    }
    if f < cs.len() && l > 0 && f < l - 1 {
        line.substring_char(f + 1, l - 1).to_owned()
    } else {
        "bad-license-parse".to_owned()
    }
}

/// Checks the license that a manifest declares against the approved list.
pub fn check_license(manifest: &str) -> (r: LicenseCheck)
    ensures
        match r {
            LicenseCheck::Approved => declared_license(manifest@) matches Some(s) && approved_license(s),
            LicenseCheck::Unapproved(s) => declared_license(manifest@) == Some(s@) && !approved_license(s@),
            LicenseCheck::Missing => declared_license(manifest@) is None,
        },
{
    let text = chars_of(manifest);
    let key = chars_of("license");
    let ghost t = manifest@;
    let mut p: usize = 0;
    while p <= text.len()
        invariant
            t == manifest@,
            text@ == t,
            key@ == "license"@,
            is_line_start(t, p as int),
            forall|q: int| 0 <= q < p ==> !starts_license_line(t, q),
        decreases text.len() + 1 - p,
    {
        let mut e: usize = p;
        while e < text.len() && text[e] != '\n'
            invariant
                text@ == t,
                p <= e <= text.len(),
                forall|j: int| p <= j < e ==> t[j] != '\n',
            decreases text.len() - e,
        {
            e = e + 1;
        }
        proof {
            let rest = t.subrange(p as int, t.len() as int);
            rest.index_of_first_ensures('\n');
            if e < text.len() {
                assert(rest[e - p] == '\n');
                assert(rest.contains('\n'));
            } else {
                assert forall|j: int| 0 <= j < rest.len() implies rest[j] != '\n' by {
                    assert(rest[j] == t[p + j]);
                }
            }
            assert(line_at(t, p as int) == t.subrange(p as int, e as int));
        }
        if matches_at(&text, &key, p) {
            proof {
                assert(starts_license_line(t, p as int));
                assert(first_license_line(t, p as int));
                lemma_first_license_line(t, p as int);
                let c = choose|q: int| first_license_line(t, q);
                lemma_first_license_line_unique(t, p as int, c);
            }
            let line = manifest.substring_char(p, e);
            let license = extract_license(line);
            assert(declared_license(t) == Some(license@));
            if is_approved_license(license.as_str()) {
                return LicenseCheck::Approved;
            } else {
                return LicenseCheck::Unapproved(license);
            }
        }
        proof {
            assert forall|q: int| 0 <= q < e + 1 implies !starts_license_line(t, q) by {
                if p < q <= e {
                    assert(t[q - 1] != '\n');
                }
            }
        }
        if e == text.len() {
            proof {
                assert forall|q: int| !starts_license_line(t, q) by {
                    if starts_license_line(t, q) {
                        assert(q <= e);
                    }
                }
            }
            return LicenseCheck::Missing;
        }
        p = e + 1;
    }
    proof {
        assert(false);
    }
    LicenseCheck::Missing
}

/// A vendored package directory that is exempt from the license check: its
/// path names one of the packages known to carry another license.
pub open spec fn exempt(path: Seq<char>) -> bool {
    ||| contains_seq(path, "src/vendor/mdbook"@)
    ||| contains_seq(path, "src/vendor/openssl"@)
    ||| contains_seq(path, "src/vendor/pest"@)
    ||| contains_seq(path, "src/vendor/thread-id"@)
    ||| contains_seq(path, "src/vendor/toml-query"@)
    ||| contains_seq(path, "src/vendor/is-match"@)
    ||| contains_seq(path, "src/vendor/cssparser"@)
    ||| contains_seq(path, "src/vendor/smallvec"@)
    ||| contains_seq(path, "src/vendor/fuchsia-zircon-sys"@)
    ||| contains_seq(path, "src/vendor/fuchsia-zircon"@)
    ||| contains_seq(path, "src/vendor/cssparser-macros"@)
    ||| contains_seq(path, "src/vendor/selectors"@)
    ||| contains_seq(path, "src/vendor/clippy_lints"@)
}

/// Whether the vendored directory at `path` is exempt from the license check.
pub fn is_exception(path: &str) -> (r: bool)
    ensures
        r == exempt(path@),
{
    text_contains(path, "src/vendor/mdbook") ||
        text_contains(path, "src/vendor/openssl") ||
        text_contains(path, "src/vendor/pest") ||
        text_contains(path, "src/vendor/thread-id") ||
        text_contains(path, "src/vendor/toml-query") ||
        text_contains(path, "src/vendor/is-match") ||
        text_contains(path, "src/vendor/cssparser") ||
        text_contains(path, "src/vendor/smallvec") ||
        text_contains(path, "src/vendor/fuchsia-zircon-sys") ||
        text_contains(path, "src/vendor/fuchsia-zircon") ||
        text_contains(path, "src/vendor/cssparser-macros") ||
        text_contains(path, "src/vendor/selectors") ||
        text_contains(path, "src/vendor/clippy_lints")
}

/// One vendored package directory: its path, and the text of its manifest
/// where it was read.
pub struct VendoredCrate {
    pub path: String,
    pub manifest: Option<String>,
}

impl View for VendoredCrate {
    type V = (Seq<char>, Option<Seq<char>>);

    open spec fn view(&self) -> (Seq<char>, Option<Seq<char>>) {
        (self.path@, match self.manifest {
            Some(m) => Some(m@),
            None => None,
        })
    }
}

/// A package whose license is not approved: its directory, and the license
/// text it declares (`None` when it declares none).
pub struct LicenseViolation {
    pub path: String,
    pub license: Option<String>,
}

impl View for LicenseViolation {
    type V = (Seq<char>, Option<Seq<char>>);

    open spec fn view(&self) -> (Seq<char>, Option<Seq<char>>) {
        (self.path@, match self.license {
            Some(l) => Some(l@),
            None => None,
        })
    }
}

/// The license violations among `dirs`, in order: every directory that is not
/// exempt and whose manifest declares no license, or one that is not approved.
pub open spec fn license_violations(dirs: Seq<(Seq<char>, Option<Seq<char>>)>) -> Seq<(Seq<char>, Option<Seq<char>>)>
    decreases dirs.len(),
{
    if dirs.len() == 0 {
        Seq::empty()
    } else {
        let prev = license_violations(dirs.drop_last());
        let (path, manifest) = dirs.last();
        if exempt(path) {
            prev
        } else {
            match manifest {
                Some(text) => match declared_license(text) {
                    None => prev.push((path, None)),
                    Some(l) => if approved_license(l) {
                        prev
                    } else {
                        prev.push((path, Some(l)))
                    },
                },
                None => prev,
            }
        }
    }
}

/// Checks the license of every vendored package that is not exempt, and
/// returns the violations in the order of `vendored`.
pub fn check(vendored: &Vec<VendoredCrate>) -> (r: Vec<LicenseViolation>)
    requires
        vendored.len() > 0,
        forall|i: int| 0 <= i < vendored.len() ==> exempt(#[trigger] vendored@[i].path@) || vendored@[i].manifest is Some,
    ensures
        r@.map_values(|v: LicenseViolation| v@) == license_violations(vendored@.map_values(|c: VendoredCrate| c@)),
{
    let ghost dirs = vendored@.map_values(|c: VendoredCrate| c@);
    let mut r: Vec<LicenseViolation> = Vec::new();
    let mut i: usize = 0;
    while i < vendored.len()
        invariant
            dirs == vendored@.map_values(|c: VendoredCrate| c@),
            i <= vendored.len(),
            r@.map_values(|v: LicenseViolation| v@) == license_violations(dirs.subrange(0, i as int)),
        decreases vendored.len() - i,
    {
        let dir = &vendored[i];
        assert(dirs.subrange(0, i + 1).drop_last() =~= dirs.subrange(0, i as int));
        assert(dirs.subrange(0, i + 1).last() == dir@);
        if !is_exception(dir.path.as_str()) {
            match &dir.manifest {
                Some(text) => {
                    match check_license(text.as_str()) {
                        LicenseCheck::Approved => {},
                        LicenseCheck::Unapproved(l) => {
                            r.push(LicenseViolation { path: dir.path.clone(), license: Some(l) });
                        },
                        LicenseCheck::Missing => {
                            r.push(LicenseViolation { path: dir.path.clone(), license: None });
                        },
                    }
                },
                None => {},
            }
        }
        assert(r@.map_values(|v: LicenseViolation| v@) =~= license_violations(dirs.subrange(0, i + 1)));
        i = i + 1;
    }
    assert(dirs.subrange(0, i as int) =~= dirs);
    r
}

} // verus!
