//! Reading package records: `Package`, `Version` and `Depends` lines.
//!
//! A line is taken apart by a regular expression, and so is each
//! alternative of a dependency.  What the expressions find is turned into
//! names, relations and versions here.

use crate::constraints::{clone_constraint, Bound, Constraint};
use crate::debversion::{parse_relation, parse_version, DebianVersionNum, VersionRelation};
use crate::packages::{Alternative, Catalog, Dependency, Packages, RelVersionedPackageNum};
use crate::text::{
    chars_of, lemma_first_index, split, split_on, string_of, trim, trimmed, view_result,
};
use vstd::prelude::*;

verus! {

/// Why a record could not be read.
#[derive(Clone, Copy, Debug, PartialEq, Eq, Structural)]
pub enum ParseError {
    /// The regular expression engine turned a pattern down.
    PatternRejected,
    /// An alternative of a dependency names no package.
    MalformedAlternative,
    /// A relation other than `<<`, `<=`, `=`, `>=`, `>>`.
    UnknownRelation,
    /// A version number that is not one.
    MalformedVersion,
    /// A record for a package number that the catalog never handed out.
    UnknownPackage,
}

impl DeepView for ParseError {
    type V = ParseError;

    open spec fn deep_view(&self) -> ParseError {
        *self
    }
}

/// A line of the form `key: value`.
pub const KEYVAL_REGEX: &'static str = r"(?P<key>(\w|-)+): (?P<value>.+)";

/// An alternative of the form `name` or `name (relation version)`.
pub const PKGNAME_AND_VERSION_REGEX: &'static str =
    r"(?P<pkg>(\w|\.|\+|-)+)( \((?P<op>(<|=|>)(<|=|>)?) (?P<ver>.*)\))?";

#[verifier::external_type_specification]
#[verifier::external_body]
pub struct ExRegexError(regex::Error);

/// Whether `regex::Regex::new` accepts the pattern.
pub uninterp spec fn regex_compiles(pattern: Seq<char>) -> bool;

/// What `regex::Regex::captures` finds in `text` for an accepted pattern:
/// nothing, or the leftmost match and with it one entry for each group of
/// the pattern, the whole match first and then the groups in the order of
/// their opening brackets.  A group that took no part in the match has no
/// text.
pub uninterp spec fn regex_groups(pattern: Seq<char>, text: Seq<char>) -> Option<
    Seq<Option<Seq<char>>>,
>;

/// Compiles `pattern` with `regex::Regex::new` and searches `text` with
/// `regex::Regex::captures`.  The pattern's rejection comes back as the
/// error; otherwise what was found comes back, each group as the text it
/// matched.
#[verifier::external_body]
fn regex_captures(pattern: &str, text: &str) -> (found: Result<
    Option<Vec<Option<String>>>,
    regex::Error,
>)
    ensures
        found is Ok == regex_compiles(pattern@),
        found matches Ok(groups) ==> groups.deep_view() == regex_groups(pattern@, text@),
{
    let re = regex::Regex::new(pattern)?;
    Ok(
        re.captures(text).map(
            |caps| caps.iter().map(|group| group.map(|m| m.as_str().to_string())).collect(),
        ),
    )
}

/// The text of group `i`, if the group took part in the match.
pub open spec fn group_text(groups: Seq<Option<Seq<char>>>, i: int) -> Option<Seq<char>> {
    if 0 <= i < groups.len() {
        groups[i]
    } else {
        None
    }
}

fn group<'a>(groups: &'a Vec<Option<String>>, i: usize) -> (text: Option<&'a String>)
    ensures
        text.deep_view() == group_text(groups.deep_view(), i as int),
{
    if i < groups.len() {
        groups[i].as_ref()
    } else {
        None
    }
}

/// The key and the value that the key and value expression found.
pub open spec fn key_value_of(found: Option<Seq<Option<Seq<char>>>>) -> Option<
    (Seq<char>, Seq<char>),
> {
    match found {
        Some(groups) => if group_text(groups, 1) is Some && group_text(groups, 3) is Some {
            Some((group_text(groups, 1)->0, group_text(groups, 3)->0))
        } else {
            None
        },
        None => None,
    }
}

/// Picks the key and the value out of what the key and value expression
/// found.
pub fn key_value_from_groups(found: &Option<Vec<Option<String>>>) -> (kv: Option<(String, String)>)
    ensures
        kv.deep_view() == key_value_of(found.deep_view()),
{
    match found {
        Some(groups) => match (group(groups, 1), group(groups, 3)) {
            (Some(key), Some(value)) => Some((key.clone(), value.clone())),
            _ => None,
        },
        None => None,
    }
}

/// What a line says: nothing, or a key and a value.
pub open spec fn read_key_value(line: Seq<char>) -> Result<Option<(Seq<char>, Seq<char>)>, ParseError> {
    if regex_compiles(KEYVAL_REGEX@) {
        Ok(key_value_of(regex_groups(KEYVAL_REGEX@, line)))
    } else {
        Err(ParseError::PatternRejected)
    }
}

/// Takes a line apart into its key and its value.
pub fn kv_captures(line: &str) -> (kv: Result<Option<(String, String)>, ParseError>)
    ensures
        view_result(kv) == read_key_value(line@),
{
    match regex_captures(KEYVAL_REGEX, line) {
        Ok(found) => Ok(key_value_from_groups(&found)),
        Err(_) => Err(ParseError::PatternRejected),
    }
}

/// An alternative as it is written: the name of its package, and its
/// constraint if it has one.
pub type NamedAlternative = (String, Option<Constraint>);

/// The alternative that the alternative expression found.
pub open spec fn alternative_of(found: Option<Seq<Option<Seq<char>>>>) -> Result<
    (Seq<char>, Option<Bound>),
    ParseError,
> {
    match found {
        None => Err(ParseError::MalformedAlternative),
        Some(groups) => match group_text(groups, 1) {
            None => Err(ParseError::MalformedAlternative),
            Some(name) => match group_text(groups, 4) {
                None => Ok((name, None)),
                Some(op) => match parse_relation(op) {
                    None => Err(ParseError::UnknownRelation),
                    Some(relation) => match group_text(groups, 7) {
                        None => Err(ParseError::MalformedVersion),
                        Some(text) => match parse_version(text) {
                            None => Err(ParseError::MalformedVersion),
                            Some(version) => Ok((name, Some((relation, version)))),
                        },
                    },
                },
            },
        },
    }
}

/// Builds an alternative out of what the alternative expression found: the
/// package name from the first group, the relation from the fourth and the
/// version from the seventh.
pub fn alternative_from_groups(found: &Option<Vec<Option<String>>>) -> (alt: Result<
    NamedAlternative,
    ParseError,
>)
    ensures
        view_result(alt) == alternative_of(found.deep_view()),
{
    let groups = match found {
        Some(groups) => groups,
        None => {
            return Err(ParseError::MalformedAlternative);
        },
    };
    let name = match group(groups, 1) {
        Some(name) => name.clone(),
        None => {
            return Err(ParseError::MalformedAlternative);
        },
    };
    let op = match group(groups, 4) {
        Some(op) => op,
        None => {
            return Ok((name, None));
        },
    };
    let relation = match VersionRelation::parse(op.as_str()) {
        Some(relation) => relation,
        None => {
            return Err(ParseError::UnknownRelation);
        },
    };
    let text = match group(groups, 7) {
        Some(text) => text,
        None => {
            return Err(ParseError::MalformedVersion);
        },
    };
    match DebianVersionNum::parse(text.as_str()) {
        Some(version) => Ok((name, Some((relation, version)))),
        None => Err(ParseError::MalformedVersion),
    }
}

/// What the text of an alternative says.
pub open spec fn read_alternative(text: Seq<char>) -> Result<(Seq<char>, Option<Bound>), ParseError> {
    if regex_compiles(PKGNAME_AND_VERSION_REGEX@) {
        alternative_of(regex_groups(PKGNAME_AND_VERSION_REGEX@, text))
    } else {
        Err(ParseError::PatternRejected)
    }
}

/// Takes the text of an alternative apart.
pub fn version_captures(text: &str) -> (alt: Result<NamedAlternative, ParseError>)
    ensures
        view_result(alt) == read_alternative(text@),
{
    match regex_captures(PKGNAME_AND_VERSION_REGEX, text) {
        Ok(found) => alternative_from_groups(&found),
        Err(_) => Err(ParseError::PatternRejected),
    }
}

/// What the texts of the alternatives of one dependency say, in order; the
/// first error if one of them cannot be read.
pub open spec fn read_alternatives(pieces: Seq<Seq<char>>) -> Result<
    Seq<(Seq<char>, Option<Bound>)>,
    ParseError,
>
    decreases pieces.len(),
{
    if pieces.len() == 0 {
        Ok(Seq::empty())
    } else {
        match read_alternatives(pieces.drop_last()) {
            Err(e) => Err(e),
            Ok(read) => match read_alternative(pieces.last()) {
                Err(e) => Err(e),
                Ok(alt) => Ok(read.push(alt)),
            },
        }
    }
}

/// What the texts of dependencies say, in order, each of them a list of
/// alternatives between `|`; the first error if one of them cannot be read.
pub open spec fn read_clauses(pieces: Seq<Seq<char>>) -> Result<
    Seq<Seq<(Seq<char>, Option<Bound>)>>,
    ParseError,
>
    decreases pieces.len(),
{
    if pieces.len() == 0 {
        Ok(Seq::empty())
    } else {
        match read_clauses(pieces.drop_last()) {
            Err(e) => Err(e),
            Ok(read) => match read_alternatives(split_on(pieces.last(), '|')) {
                Err(e) => Err(e),
                Ok(clause) => Ok(read.push(clause)),
            },
        }
    }
}

/// What the value of a `Depends` line says: dependencies between commas,
/// each of them alternatives between `|`.
pub open spec fn read_depends(value: Seq<char>) -> Result<
    Seq<Seq<(Seq<char>, Option<Bound>)>>,
    ParseError,
> {
    read_clauses(split_on(value, ','))
}

fn read_clause(text: &Vec<char>) -> (clause: Result<Vec<NamedAlternative>, ParseError>)
    ensures
        view_result(clause) == read_alternatives(split_on(text@, '|')),
{
    let pieces = split(text, '|');
    let ghost all = pieces.deep_view();
    let mut alts: Vec<NamedAlternative> = Vec::new();
    let mut i: usize = 0;
    assert(all.take(0) =~= Seq::<Seq<char>>::empty());
    assert(alts.deep_view() =~= Seq::<(Seq<char>, Option<Bound>)>::empty());
    while i < pieces.len()
        invariant
            i <= pieces.len(),
            alts.len() == i,
            all == pieces.deep_view(),
            all == split_on(text@, '|'),
            read_alternatives(all.take(i as int)) matches Ok(read) && read == alts.deep_view(),
        decreases pieces.len() - i,
    {
        let piece = string_of(&pieces[i]);
        proof {
            assert(pieces[i as int].deep_view() =~= pieces[i as int]@);
            assert(all.take(i as int + 1).drop_last() =~= all.take(i as int));
            assert(all.take(i as int + 1).last() == piece@);
        }
        match version_captures(piece.as_str()) {
            Ok(alt) => {
                let ghost before = alts.deep_view();
                alts.push(alt);
                assert(alts.deep_view() =~= before.push(alt.deep_view()));
            },
            Err(e) => {
                proof {
                    lemma_alternatives_error_stays(all, i as int + 1);
                }
                return Err(e);
            },
        }
        i = i + 1;
    }
    assert(all.take(pieces.len() as int) =~= all);
    Ok(alts)
}

/// An error among the first `n` pieces is the error of the whole.
proof fn lemma_alternatives_error_stays(pieces: Seq<Seq<char>>, n: int)
    requires
        0 <= n <= pieces.len(),
        read_alternatives(pieces.take(n)) is Err,
    ensures
        read_alternatives(pieces) == read_alternatives(pieces.take(n)),
    decreases pieces.len() - n,
{
    if n < pieces.len() {
        assert(pieces.take(n + 1).drop_last() =~= pieces.take(n));
        lemma_alternatives_error_stays(pieces, n + 1);
    } else {
        assert(pieces.take(n) =~= pieces);
    }
}

proof fn lemma_clauses_error_stays(pieces: Seq<Seq<char>>, n: int)
    requires
        0 <= n <= pieces.len(),
        read_clauses(pieces.take(n)) is Err,
    ensures
        read_clauses(pieces) == read_clauses(pieces.take(n)),
    decreases pieces.len() - n,
{
    if n < pieces.len() {
        assert(pieces.take(n + 1).drop_last() =~= pieces.take(n));
        lemma_clauses_error_stays(pieces, n + 1);
    } else {
        assert(pieces.take(n) =~= pieces);
    }
}

/// Reads the value of a `Depends` line: dependencies between commas, each of
/// them alternatives between `|`, each alternative a package name with or
/// without a relation and a version in brackets.
pub fn read_depends_value(value: &str) -> (clauses: Result<Vec<Vec<NamedAlternative>>, ParseError>)
    ensures
        view_result(clauses) == read_depends(value@),
{
    let chars = chars_of(value);
    let pieces = split(&chars, ',');
    let ghost all = pieces.deep_view();
    let mut clauses: Vec<Vec<NamedAlternative>> = Vec::new();
    let mut i: usize = 0;
    assert(all.take(0) =~= Seq::<Seq<char>>::empty());
    assert(clauses.deep_view() =~= Seq::<Seq<(Seq<char>, Option<Bound>)>>::empty());
    while i < pieces.len()
        invariant
            i <= pieces.len(),
            clauses.len() == i,
            all == pieces.deep_view(),
            all == split_on(value@, ','),
            read_clauses(all.take(i as int)) matches Ok(read) && read == clauses.deep_view(),
        decreases pieces.len() - i,
    {
        proof {
            assert(pieces[i as int].deep_view() =~= pieces[i as int]@);
            assert(all.take(i as int + 1).drop_last() =~= all.take(i as int));
            assert(all.take(i as int + 1).last() == pieces[i as int]@);
        }
        match read_clause(&pieces[i]) {
            Ok(clause) => {
                let ghost before = clauses.deep_view();
                clauses.push(clause);
                assert(clauses.deep_view() =~= before.push(clause.deep_view()));
            },
            Err(e) => {
                proof {
                    lemma_clauses_error_stays(all, i as int + 1);
                }
                return Err(e);
            },
        }
        i = i + 1;
    }
    assert(all.take(pieces.len() as int) =~= all);
    Ok(clauses)
}

/// Where records come from: the list of what is installed, or the list of
/// what is on offer.
#[derive(Clone, Copy, Debug, PartialEq, Eq, Structural)]
pub enum RecordSource {
    Installed,
    Available,
}

impl Catalog {
    /// The catalog after the package names of the alternatives have been
    /// mentioned in order, and the alternatives with the numbers their
    /// packages then have.
    pub open spec fn intern_clause(self, raw: Seq<(Seq<char>, Option<Bound>)>) -> (
        Catalog,
        Seq<Alternative>,
    )
        decreases raw.len(),
    {
        if raw.len() == 0 {
            (self, Seq::empty())
        } else {
            let before = self.intern_clause(raw.drop_last());
            let after = before.0.intern(raw.last().0);
            (
                after,
                before.1.push(
                    Alternative {
                        package: after.find(raw.last().0)->0 as usize,
                        constraint: raw.last().1,
                    },
                ),
            )
        }
    }

    /// The same for a list of dependencies.
    pub open spec fn intern_clauses(self, raw: Seq<Seq<(Seq<char>, Option<Bound>)>>) -> (
        Catalog,
        Seq<Seq<Alternative>>,
    )
        decreases raw.len(),
    {
        if raw.len() == 0 {
            (self, Seq::empty())
        } else {
            let before = self.intern_clauses(raw.drop_last());
            let after = before.0.intern_clause(raw.last());
            (after.0, before.1.push(after.1))
        }
    }

    /// The catalog after the value of a `Depends` line has been read for
    /// package `owner`: the packages it names are known, and its dependencies
    /// follow those that `owner` already had.
    pub open spec fn with_depends(self, owner: int, value: Seq<char>) -> Result<Catalog, ParseError> {
        if !self.knows(owner) {
            Err(ParseError::UnknownPackage)
        } else {
            match read_depends(value) {
                Err(e) => Err(e),
                Ok(raw) => Ok(
                    self.intern_clauses(raw).0.add_dependency_set(owner, self.intern_clauses(raw).1),
                ),
            }
        }
    }

    /// The catalog and the current package after a line has been read.
    ///
    /// A `Package` line makes its package the current one.  A `Version` line
    /// gives the current package its installed version, or the version on
    /// offer, depending on the source.  A `Depends` line from the list of
    /// what is on offer gives the current package dependencies.  Any other
    /// line changes nothing.
    pub open spec fn read_line(self, source: RecordSource, current: int, line: Seq<char>) -> Result<
        (Catalog, int),
        ParseError,
    > {
        match read_key_value(line) {
            Err(e) => Err(e),
            Ok(None) => Ok((self, current)),
            Ok(Some(kv)) => if kv.0 == "Package"@ {
                Ok((self.intern(kv.1), self.intern(kv.1).find(kv.1)->0))
            } else if kv.0 == "Version"@ {
                match parse_version(trimmed(kv.1)) {
                    None => Err(ParseError::MalformedVersion),
                    Some(v) => if !self.knows(current) {
                        Err(ParseError::UnknownPackage)
                    } else if source is Installed {
                        Ok((self.set_installed(current, v), current))
                    } else {
                        Ok((self.set_available(current, v), current))
                    },
                }
            } else if kv.0 == "Depends"@ && source is Available {
                match self.with_depends(current, kv.1) {
                    Err(e) => Err(e),
                    Ok(c) => Ok((c, current)),
                }
            } else {
                Ok((self, current))
            },
        }
    }

    /// The catalog and the current package after the first `n` lines have
    /// been read, starting with package 0 as the current one, and the error
    /// that stopped the reading if there was one.
    pub open spec fn read_lines(self, source: RecordSource, lines: Seq<Seq<char>>, n: nat) -> (
        Catalog,
        int,
        Option<ParseError>,
    )
        decreases n,
    {
        if n == 0 {
            (self, 0, None)
        } else {
            let before = self.read_lines(source, lines, (n - 1) as nat);
            if before.2 is Some {
                before
            } else {
                match before.0.read_line(source, before.1, lines[n - 1]) {
                    Ok(next) => (next.0, next.1, None),
                    Err(e) => (before.0, before.1, Some(e)),
                }
            }
        }
    }
}

proof fn lemma_read_lines_error_stays(c: Catalog, source: RecordSource, lines: Seq<Seq<char>>, k: nat, n: nat)
    requires
        k <= n,
        c.read_lines(source, lines, k).2 is Some,
    ensures
        c.read_lines(source, lines, n) == c.read_lines(source, lines, k),
    decreases n,
{
    if k < n {
        lemma_read_lines_error_stays(c, source, lines, k, (n - 1) as nat);
    }
}

impl Packages {
    fn intern_clause(&mut self, raw: &Vec<NamedAlternative>) -> (clause: Dependency)
        requires
            old(self).wf(),
        ensures
            final(self).wf(),
            (final(self)@, clause.deep_view()) == old(self)@.intern_clause(raw.deep_view()),
            final(self)@.len() >= old(self)@.len(),
            forall|j: int|
                0 <= j < clause.len() ==> final(self)@.knows(
                    (#[trigger] clause.deep_view()[j]).package as int,
                ),
    {
        let ghost start = self@;
        let ghost all = raw.deep_view();
        let mut clause: Dependency = Vec::new();
        let mut i: usize = 0;
        assert(all.take(0) =~= Seq::<(Seq<char>, Option<Bound>)>::empty());
        assert(clause.deep_view() =~= Seq::<Alternative>::empty());
        while i < raw.len()
            invariant
                i <= raw.len(),
                clause.len() == i,
                all == raw.deep_view(),
                self.wf(),
                self@.len() >= start.len(),
                (self@, clause.deep_view()) == start.intern_clause(all.take(i as int)),
                forall|j: int|
                    0 <= j < clause.len() ==> self@.knows(
                        (#[trigger] clause.deep_view()[j]).package as int,
                    ),
            decreases raw.len() - i,
        {
            let ghost before = clause.deep_view();
            let ghost catalog_before = self@;
            let id = self.get_package_num_inserting(raw[i].0.as_str());
            let rel_version = match &raw[i].1 {
                Some(c) => Some(clone_constraint(c)),
                None => None,
            };
            let alt = RelVersionedPackageNum { package_num: id, rel_version };
            clause.push(alt);
            proof {
                assert(all.take(i as int + 1).drop_last() =~= all.take(i as int));
                assert(all.take(i as int + 1).last() == all[i as int]);
                lemma_first_index(self@.names, all[i as int].0);
                lemma_first_index(catalog_before.names, all[i as int].0);
                assert(clause.deep_view() =~= before.push(alt@));
                assert forall|j: int| 0 <= j < clause.len() implies self@.knows(
                    (#[trigger] clause.deep_view()[j]).package as int,
                ) by {
                    if j < i {
                        assert(clause.deep_view()[j] == before[j]);
                    }
                }
            }
            i = i + 1;
        }
        assert(all.take(raw.len() as int) =~= all);
        clause
    }

    fn intern_clauses(&mut self, raw: &Vec<Vec<NamedAlternative>>) -> (clauses: Vec<Dependency>)
        requires
            old(self).wf(),
        ensures
            final(self).wf(),
            (final(self)@, clauses.deep_view()) == old(self)@.intern_clauses(raw.deep_view()),
            final(self)@.len() >= old(self)@.len(),
            final(self)@.clauses_known(clauses.deep_view()),
    {
        let ghost start = self@;
        let ghost all = raw.deep_view();
        let mut clauses: Vec<Dependency> = Vec::new();
        let mut i: usize = 0;
        assert(all.take(0) =~= Seq::<Seq<(Seq<char>, Option<Bound>)>>::empty());
        assert(clauses.deep_view() =~= Seq::<Seq<Alternative>>::empty());
        while i < raw.len()
            invariant
                i <= raw.len(),
                clauses.len() == i,
                all == raw.deep_view(),
                self.wf(),
                self@.len() >= start.len(),
                (self@, clauses.deep_view()) == start.intern_clauses(all.take(i as int)),
                self@.clauses_known(clauses.deep_view()),
            decreases raw.len() - i,
        {
            let ghost before = clauses.deep_view();
            let clause = self.intern_clause(&raw[i]);
            clauses.push(clause);
            proof {
                assert(all.take(i as int + 1).drop_last() =~= all.take(i as int));
                assert(all.take(i as int + 1).last() == all[i as int]);
                assert(clauses.deep_view() =~= before.push(clause.deep_view()));
                assert forall|k: int, j: int|
                    0 <= k < clauses.deep_view().len() && 0 <= j < clauses.deep_view()[k].len() implies self@.knows(
                    (#[trigger] clauses.deep_view()[k][j]).package as int,
                ) by {
                    if k < i {
                        assert(clauses.deep_view()[k] == before[k]);
                        assert(self@.knows(before[k][j].package as int));
                    }
                }
            }
            i = i + 1;
        }
        assert(all.take(raw.len() as int) =~= all);
        clauses
    }

    /// Reads the value of a `Depends` line for package
    /// `current_package_num`: every package that the value names gets a
    /// number if it has none, and the dependencies are added after those the
    /// package already has.  Nothing changes if the value cannot be read.
    pub fn parse_depends(&mut self, current_package_num: usize, value: &str) -> (done: Result<
        (),
        ParseError,
    >)
        requires
            old(self).wf(),
        ensures
            final(self).wf(),
            match done {
                Ok(_) => old(self)@.with_depends(current_package_num as int, value@) matches Ok(c)
                    && c == final(self)@,
                Err(e) => old(self)@.with_depends(current_package_num as int, value@) matches Err(f)
                    && f == e && final(self)@ == old(self)@,
            },
    {
        if current_package_num >= self.len() {
            return Err(ParseError::UnknownPackage);
        }
        let raw = match read_depends_value(value) {
            Ok(raw) => raw,
            Err(e) => {
                return Err(e);
            },
        };
        let clauses = self.intern_clauses(&raw);
        match self.add_dependency_set(current_package_num, clauses) {
            Ok(_) => Ok(()),
            Err(_) => Err(ParseError::UnknownPackage),
        }
    }

    fn read_line(&mut self, source: RecordSource, current: usize, line: &str) -> (next: Result<
        usize,
        ParseError,
    >)
        requires
            old(self).wf(),
        ensures
            final(self).wf(),
            match next {
                Ok(now) => old(self)@.read_line(source, current as int, line@) matches Ok(next)
                    && next == (final(self)@, now as int),
                Err(e) => old(self)@.read_line(source, current as int, line@) matches Err(f) && f
                    == e && final(self)@ == old(self)@,
            },
    {
        let (key, value) = match kv_captures(line) {
            Err(e) => {
                return Err(e);
            },
            Ok(None) => {
                return Ok(current);
            },
            Ok(Some(kv)) => kv,
        };
        if key == "Package".to_owned() {
            let id = self.get_package_num_inserting(value.as_str());
            Ok(id)
        } else if key == "Version".to_owned() {
            let text = trim(&chars_of(value.as_str()));
            let version = match DebianVersionNum::parse_chars(&text) {
                Some(version) => version,
                None => {
                    return Err(ParseError::MalformedVersion);
                },
            };
            let stored = match source {
                RecordSource::Installed => self.set_installed(current, version),
                RecordSource::Available => self.set_available(current, version),
            };
            match stored {
                Ok(_) => Ok(current),
                Err(_) => Err(ParseError::UnknownPackage),
            }
        } else if key == "Depends".to_owned() && source == RecordSource::Available {
            match self.parse_depends(current, value.as_str()) {
                Ok(_) => Ok(current),
                Err(e) => Err(e),
            }
        } else {
            Ok(current)
        }
    }

    fn read_records(&mut self, source: RecordSource, lines: &Vec<String>) -> (done: Result<
        (),
        ParseError,
    >)
        requires
            old(self).wf(),
        ensures
            final(self).wf(),
            final(self)@ == old(self)@.read_lines(source, lines.deep_view(), lines.len() as nat).0,
            match done {
                Ok(_) => old(self)@.read_lines(source, lines.deep_view(), lines.len() as nat).2
                    is None,
                Err(e) => old(self)@.read_lines(source, lines.deep_view(), lines.len() as nat).2
                    == Some(e),
            },
    {
        let ghost start = self@;
        let ghost all = lines.deep_view();
        let mut current: usize = 0;
        let mut i: usize = 0;
        while i < lines.len()
            invariant
                i <= lines.len(),
                all == lines.deep_view(),
                start == old(self)@,
                self.wf(),
                start.read_lines(source, all, i as nat) == (self@, current as int, None::<ParseError>),
            decreases lines.len() - i,
        {
            match self.read_line(source, current, lines[i].as_str()) {
                Ok(now) => {
                    current = now;
                },
                Err(e) => {
                    proof {
                        assert(all[i as int] == lines[i as int]@);
                        assert(start.read_lines(source, all, (i + 1) as nat) == (
                            self@,
                            current as int,
                            Some(e),
                        ));
                        lemma_read_lines_error_stays(
                            start,
                            source,
                            all,
                            (i + 1) as nat,
                            lines.len() as nat,
                        );
                    }
                    return Err(e);
                },
            }
            i = i + 1;
        }
        Ok(())
    }

    /// Reads the list of what is installed, line by line: `Package` lines
    /// name packages, and a `Version` line gives the installed version of the
    /// package named last.  Reading stops at the first line that cannot be
    /// read, which leaves the catalog as the lines before it made it.
    pub fn parse_installed(&mut self, lines: &Vec<String>) -> (done: Result<(), ParseError>)
        requires
            old(self).wf(),
        ensures
            final(self).wf(),
            final(self)@ == old(self)@.read_lines(
                RecordSource::Installed,
                lines.deep_view(),
                lines.len() as nat,
            ).0,
            match done {
                Ok(_) => old(self)@.read_lines(
                    RecordSource::Installed,
                    lines.deep_view(),
                    lines.len() as nat,
                ).2 is None,
                Err(e) => old(self)@.read_lines(
                    RecordSource::Installed,
                    lines.deep_view(),
                    lines.len() as nat,
                ).2 == Some(e),
            },
    {
        self.read_records(RecordSource::Installed, lines)
    }

    /// Reads the list of what is on offer, line by line: `Package` lines
    /// name packages, a `Version` line gives the version on offer of the
    /// package named last, and a `Depends` line gives its dependencies.
    /// Reading stops at the first line that cannot be read, which leaves the
    /// catalog as the lines before it made it.
    pub fn parse_packages(&mut self, lines: &Vec<String>) -> (done: Result<(), ParseError>)
        requires
            old(self).wf(),
        ensures
            final(self).wf(),
            final(self)@ == old(self)@.read_lines(
                RecordSource::Available,
                lines.deep_view(),
                lines.len() as nat,
            ).0,
            match done {
                Ok(_) => old(self)@.read_lines(
                    RecordSource::Available,
                    lines.deep_view(),
                    lines.len() as nat,
                ).2 is None,
                Err(e) => old(self)@.read_lines(
                    RecordSource::Available,
                    lines.deep_view(),
                    lines.len() as nat,
                ).2 == Some(e),
            },
    {
        self.read_records(RecordSource::Available, lines)
    }
}

} // verus!
