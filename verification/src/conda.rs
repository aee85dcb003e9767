//! What the conda rules decide: whether a constraint can be read, whether it
//! admits a record, and what a version is made of.
//!
//! These questions are answered by `rattler_conda_types`. Nothing here is
//! proved of that crate: each function below states what it hands back, by
//! name, and the rest of the library reasons from those names.

use crate::record::PackageRecord;
use crate::record::PackageRecordView;
use crate::text::is_whitespace;
use rattler_conda_types::package::BuildString;
use rattler_conda_types::Flag;
use rattler_conda_types::Matches;
use rattler_conda_types::NamelessMatchSpec;
use rattler_conda_types::PackageName;
use rattler_conda_types::PackageRecord as CondaRecord;
use rattler_conda_types::ParseStrictness;
use rattler_conda_types::VersionWithSource;
use std::str::FromStr;
use vstd::prelude::*;

verus! {

/// The error with which `rattler_conda_types` refuses a constraint.
#[verifier::external_type_specification]
#[verifier::external_body]
pub struct ExParseMatchSpecError(rattler_conda_types::ParseMatchSpecError);

/// One component of a version segment.
pub enum VersionComponent {
    /// A number, such as the `2` of `1.2`.
    Numeral(u64),
    /// The special component `post`.
    Post,
    /// The special component `dev`.
    Dev,
    /// A textual token, such as the `rc` of `1.0rc1`.
    Iden(String),
    /// A separator kept as a component; `true` for `-`, `false` for `_`.
    UnderscoreOrDash(bool),
}

/// A version component as a plain value.
pub enum VersionComponentView {
    Numeral(u64),
    Post,
    Dev,
    Iden(Seq<char>),
    UnderscoreOrDash(bool),
}

impl View for VersionComponent {
    type V = VersionComponentView;

    open spec fn view(&self) -> VersionComponentView {
        match self {
            VersionComponent::Numeral(n) => VersionComponentView::Numeral(*n),
            VersionComponent::Post => VersionComponentView::Post,
            VersionComponent::Dev => VersionComponentView::Dev,
            VersionComponent::Iden(token) => VersionComponentView::Iden(token@),
            VersionComponent::UnderscoreOrDash(dash) => VersionComponentView::UnderscoreOrDash(
                *dash,
            ),
        }
    }
}

/// Whether `text` holds two colons.
pub open spec fn two_colons(text: Seq<char>) -> bool {
    exists|i: int, j: int| 0 <= i < j < text.len() && text[i] == ':' && text[j] == ':'
}

/// The position of the last `[` among the first `upto` characters of
/// `text`; -1 where there is none.
pub open spec fn last_bracket(text: Seq<char>, upto: int) -> int
    decreases upto,
{
    if upto <= 0 || upto > text.len() {
        -1
    } else if text[upto - 1] == '[' {
        upto - 1
    } else {
        last_bracket(text, upto - 1)
    }
}

/// Where the part of `text` ends that stands before its brackets: at the
/// last `[`, where `text` ends with `]` and holds a `[`; else at its end.
///
/// The parser sets a section in brackets off only where the text ends with
/// `]`, and the section begins at a `[`: what it then splits at colons lies
/// before the last `[`.
pub open spec fn positional_end(text: Seq<char>) -> int {
    if text.len() > 0 && text.last() == ']' && last_bracket(text, text.len() as int) >= 0 {
        last_bracket(text, text.len() as int)
    } else {
        text.len() as int
    }
}

/// Whether the word `channel` stands in `text` from position `i` on.
pub open spec fn channel_at(text: Seq<char>, i: int) -> bool {
    &&& 0 <= i
    &&& i + 7 <= text.len()
    &&& text[i] == 'c'
    &&& text[i + 1] == 'h'
    &&& text[i + 2] == 'a'
    &&& text[i + 3] == 'n'
    &&& text[i + 4] == 'n'
    &&& text[i + 5] == 'e'
    &&& text[i + 6] == 'l'
}

/// Where the white space ends that begins at `from`.
pub open spec fn past_space(text: Seq<char>, from: int) -> int
    decreases text.len() - from,
{
    if 0 <= from < text.len() && is_whitespace(text[from]) {
        past_space(text, from + 1)
    } else {
        from
    }
}

/// Whether the word `channel` stands at `i` as a key may: with `=` after
/// it, and nothing but white space between the two.
pub open spec fn channel_key_at(text: Seq<char>, i: int) -> bool {
    &&& channel_at(text, i)
    &&& past_space(text, i + 7) < text.len()
    &&& text[past_space(text, i + 7)] == '='
}

/// Whether a constraint may name a channel, in either of the two ways the
/// grammar has for it: before the second colon from the right of what stands
/// before the brackets, or under the key `channel` in brackets. It is stated
/// generously: two colons anywhere before the brackets, or the word
/// `channel` with `=` after it anywhere.
///
/// A channel may be a path, which the parser resolves against the directory
/// the process runs in: whether the parser takes such a text is not a matter
/// of the text alone. A single colon sets a namespace off, and every other
/// key in brackets is read from the text.
pub open spec fn names_channel(text: Seq<char>) -> bool {
    two_colons(text.take(positional_end(text))) || exists|i: int| channel_key_at(text, i)
}

/// A constraint as `rattler_conda_types` read it: the `NamelessMatchSpec`
/// that its parser made, kept together with the text that it was made from.
///
/// The two fields are hidden from the verifier: nothing but
/// `read_constraint` makes a constraint, so none holds a text with what the
/// parser made of another.
#[verifier::external_body]
pub struct Constraint {
    text: String,
    parsed: NamelessMatchSpec,
}

/// The text that a constraint was read from.
pub uninterp spec fn text_of(constraint: Constraint) -> Seq<char>;

impl View for Constraint {
    type V = Seq<char>;

    open spec fn view(&self) -> Seq<char> {
        text_of(*self)
    }
}

/// Whether `rattler_conda_types` can read `text`, which names no channel, as
/// a constraint without a package name, in its lenient mode.
pub uninterp spec fn matchspec_parses(text: Seq<char>) -> bool;

/// Whether the constraint read from `text` admits `record`; `None` where the
/// record's version cannot be read.
///
/// Matching reads no channel, and whatever else the parser makes of a text
/// it makes of the text alone: the answer is the same wherever the text was
/// read.
pub uninterp spec fn matchspec_admits(text: Seq<char>, record: PackageRecordView) -> Option<bool>;

/// The components of the segments of `version`, local part left out, in the
/// order in which they are written; `None` where the version cannot be read.
pub uninterp spec fn version_components(version: Seq<char>) -> Option<Seq<VersionComponentView>>;

/// A text that is a constraint wherever it is read: it names no channel and
/// the parser takes it.
pub open spec fn constraint_ok(text: Seq<char>) -> bool {
    !names_channel(text) && matchspec_parses(text)
}

/// Whether the constraint read from `text` is known to admit `record`.
pub open spec fn accepts(text: Seq<char>, record: PackageRecordView) -> bool {
    matchspec_admits(text, record) == Some(true)
}

/// Calls `NamelessMatchSpec::from_str` with `ParseStrictness::Lenient` and
/// keeps what it made together with `text`. Claimed: the constraint handed
/// back was read from `text`; for a text that names no channel, whether the
/// call succeeds depends on the text alone.
#[verifier::external_body]
pub(crate) fn read_constraint(text: &str) -> (res: Result<
    Constraint,
    rattler_conda_types::ParseMatchSpecError,
>)
    ensures
        res matches Ok(constraint) ==> text_of(constraint) == text@,
        !names_channel(text@) ==> (res is Ok <==> matchspec_parses(text@)),
{
    let parsed = NamelessMatchSpec::from_str(text, ParseStrictness::Lenient)?;
    Ok(Constraint { text: text.to_string(), parsed })
}

/// Builds a `rattler_conda_types::PackageRecord` with `PackageRecord::new`
/// from `record`'s name, version and build, sets each further field that
/// matching reads from `record`, and calls `Matches::matches` on it with
/// what the parser made of the constraint's text. Claimed: the answer
/// depends on that text and the record's fields alone.
#[verifier::external_body]
pub(crate) fn constraint_admits(constraint: &Constraint, record: &PackageRecord) -> (res: Option<
    bool,
>)
    ensures
        res == matchspec_admits(text_of(*constraint), record@),
{
    let mut outside = CondaRecord::new(
        PackageName::new_unchecked(record.name.clone()),
        VersionWithSource::from_str(&record.version).ok()?,
        BuildString::new_unchecked(record.build.clone()),
    );
    outside.build_number = record.build_number;
    outside.track_features = record.track_features.clone();
    outside.md5 = record.md5.map(Into::into);
    outside.sha256 = record.sha256.map(Into::into);
    outside.license = record.license.clone();
    outside.license_family = record.license_family.clone();
    outside.flags = record.flags.iter().map(Flag::new_unchecked).collect();
    Some(constraint.parsed.matches(&outside))
}

/// Calls `Version::from_str`, then `Version::segments` and
/// `SegmentIter::components`, and hands the components out one for one.
/// Claimed: the result depends on the text alone.
#[verifier::external_body]
pub(crate) fn components_of_version(version: &str) -> (res: Option<Vec<VersionComponent>>)
    ensures
        match res {
            Some(parts) => version_components(version@) == Some(
                parts@.map_values(|part: VersionComponent| part@),
            ),
            None => version_components(version@) is None,
        },
{
    let parsed = rattler_conda_types::Version::from_str(version).ok()?;
    Some(parsed.segments().flat_map(|segment| segment.components()).map(|part| match part {
        rattler_conda_types::Component::Numeral(n) => VersionComponent::Numeral(*n),
        rattler_conda_types::Component::Post => VersionComponent::Post,
        rattler_conda_types::Component::Dev => VersionComponent::Dev,
        rattler_conda_types::Component::Iden(token) => VersionComponent::Iden(token.to_string()),
        rattler_conda_types::Component::UnderscoreOrDash { is_dash } =>
            VersionComponent::UnderscoreOrDash(*is_dash),
    }).collect())
}

} // verus!
