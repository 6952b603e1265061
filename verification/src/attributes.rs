//! Rendering support: the attributes a module needs when rendered on its own.

use crate::docs;
use crate::engines;
use crate::lightbulb;
use crate::lines;
use crate::maps;
use crate::maps::TextMap;
use crate::numbers;
use crate::text;
use crate::text::CharClass;
use vstd::prelude::*;

verus! {

/// What an attribute's name is made of, from the start of a text
pub const ATTRIBUTE_NAME_PATTERN: &'static str = "^[\\w-]+";

/// What the names in a condition are made of, from the start of a text
pub const CONDITION_PATTERN: &'static str = "^[\\w,+-]*";

/// What a version number is made of, from the start of a text
pub const DIGITS_PATTERN: &'static str = "^\\d+";

/// How many levels of attributes referring to other attributes get resolved
pub const RESOLVE_PASSES: usize = 5;

/// Attributes by name
pub type Entries = Seq<(Seq<char>, Seq<char>)>;

// ---------------------------------------------------------------------------
// The product
// ---------------------------------------------------------------------------

/// The runs of digits of a branch `enterprise-<major>.<minor>`, where `first` is the
/// run after the name, and `second` the one after a dot that follows it
pub open spec fn version_runs(
    first: Option<(Seq<char>, Seq<char>, Seq<char>)>,
    second: Option<(Seq<char>, Seq<char>, Seq<char>)>,
) -> Option<(Seq<char>, Seq<char>)> {
    match (first, second) {
        (Some((_, major, dot)), Some((_, minor, rest))) => if "."@.is_prefix_of(dot)
            && rest.len() == 0 {
            Some((major, minor))
        } else {
            None
        },
        _ => None,
    }
}

/// What follows the dot after a run of digits
pub open spec fn after_dot(found: Option<(Seq<char>, Seq<char>, Seq<char>)>) -> Option<Seq<char>> {
    match found {
        Some((_, _, after)) => text::without_prefix(after, "."@),
        None => None,
    }
}

/// The runs of digits of a branch `enterprise-<major>.<minor>`
pub open spec fn branch_runs(branch: Seq<char>) -> Result<
    Option<(Seq<char>, Seq<char>)>,
    Seq<char>,
> {
    match text::without_prefix(branch, "enterprise-"@) {
        None => Ok(None),
        Some(rest) => match docs::search_spec(DIGITS_PATTERN@, rest) {
            Err(error) => Err(error),
            Ok(first) => match after_dot(first) {
                None => Ok(None),
                Some(after) => match docs::search_spec(DIGITS_PATTERN@, after) {
                    Err(error) => Err(error),
                    Ok(second) => Ok(version_runs(first, second)),
                },
            },
        },
    }
}

/// The number that a run of digits stands for, up to what 32 bits hold
pub open spec fn run_number(run: Seq<char>) -> Option<nat> {
    if forall|i: int| 0 <= i < run.len() ==> text::is_digit(#[trigger] run[i]) {
        numbers::parse_spec(run, u32::MAX as nat)
    } else {
        None
    }
}

/// Why a run of digits isn't a number that 32 bits hold: the first digit that is no
/// ASCII digit, unless those before it are too large already
pub open spec fn run_problem(run: Seq<char>) -> Seq<char> {
    let end = text::span(run, CharClass::Digit) as int;
    if run.len() == 0 {
        "cannot parse integer from empty string"@
    } else if end < run.len() && (end == 0 || numbers::parse_spec(
        run.take(end),
        u32::MAX as nat,
    ) is Some) {
        "invalid digit found in string"@
    } else {
        "number too large to fit in target type"@
    }
}

/// The version that runs of digits stand for, or which isn't a number and why
pub open spec fn version_spec(runs: (Seq<char>, Seq<char>)) -> Result<(nat, nat), Seq<char>> {
    match (run_number(runs.0), run_number(runs.1)) {
        (None, _) => Err("parsing a branch's major version"@ + ": "@ + run_problem(runs.0)),
        (_, None) => Err("parsing a branch's minor version"@ + ": "@ + run_problem(runs.1)),
        (Some(major), Some(minor)) => Ok((major, minor)),
    }
}

fn parse_run(run: &str) -> (number: Result<u32, String>)
    ensures
        match number {
            Ok(number) => run_number(run@) == Some(number as nat),
            Err(problem) => run_number(run@) is None && problem@ == run_problem(run@),
        },
{
    let chars = text::chars_of(run);
    let end = text::span_end(&chars, 0, CharClass::Digit);
    proof {
        assert(chars@.skip(0) =~= chars@);
        text::lemma_span(chars@, CharClass::Digit);
    }
    if end < chars.len() {
        assert(!text::is_digit(run@[end as int]));
        let digits = text::text_of(&chars, 0, end);
        assert(digits@ =~= run@.take(end as int));
        assert forall|i: int| 0 <= i < digits@.len() implies text::is_digit(
            #[trigger] digits@[i],
        ) by {
            assert(CharClass::Digit.has(run@[i]));
        }
        if end == 0 || numbers::parse_digits(digits.as_str(), u32::MAX as usize).is_some() {
            return Err("invalid digit found in string".to_owned());
        }
        return Err("number too large to fit in target type".to_owned());
    }
    proof {
        assert forall|i: int| 0 <= i < run@.len() implies text::is_digit(#[trigger] run@[i]) by {
            assert(CharClass::Digit.has(run@[i]));
        }
    }
    match numbers::parse_digits(run, u32::MAX as usize) {
        Some(number) => Ok(number as u32),
        None => if chars.len() == 0 {
            Err("cannot parse integer from empty string".to_owned())
        } else {
            Err("number too large to fit in target type".to_owned())
        },
    }
}

/// The version that runs of digits stand for
pub fn parse_version(major: &str, minor: &str) -> (version: Result<(u32, u32), String>)
    ensures
        match version {
            Ok((first, second)) => version_spec((major@, minor@)) == Ok::<_, Seq<char>>(
                (first as nat, second as nat),
            ),
            Err(error) => version_spec((major@, minor@)) == Err::<(nat, nat), _>(error@),
        },
{
    match parse_run(major) {
        Err(problem) => Err(lightbulb::error_in("parsing a branch's major version", problem)),
        Ok(first) => match parse_run(minor) {
            Err(problem) => Err(lightbulb::error_in("parsing a branch's minor version", problem)),
            Ok(second) => Ok((first, second)),
        },
    }
}

/// The version of a branch `enterprise-<major>.<minor>`
pub open spec fn branch_version(branch: Seq<char>) -> Result<Option<(nat, nat)>, Seq<char>> {
    match branch_runs(branch) {
        Err(error) => Err(error),
        Ok(None) => Ok(None),
        Ok(Some(runs)) => match version_spec(runs) {
            Err(error) => Err(error),
            Ok(version) => Ok(Some(version)),
        },
    }
}

fn version_of_branch(branch: &str) -> (version: Result<Option<(u32, u32)>, String>)
    ensures
        match version {
            Ok(Some((major, minor))) => branch_version(branch@) == Ok::<_, Seq<char>>(
                Some((major as nat, minor as nat)),
            ),
            Ok(None) => branch_version(branch@) == Ok::<_, Seq<char>>(None::<(nat, nat)>),
            Err(error) => branch_version(branch@) == Err::<Option<(nat, nat)>, _>(error@),
        },
{
    let rest = match text::strip_prefix(branch, "enterprise-") {
        Some(rest) => rest,
        None => {
            return Ok(None);
        },
    };
    let (major, after_major) = match docs::search(DIGITS_PATTERN, rest.as_str()) {
        Err(error) => {
            return Err(error);
        },
        Ok(None) => {
            return Ok(None);
        },
        Ok(Some((_, major, after_major))) => (major, after_major),
    };
    let after = match text::strip_prefix(after_major.as_str(), ".") {
        Some(after) => after,
        None => {
            return Ok(None);
        },
    };
    match docs::search(DIGITS_PATTERN, after.as_str()) {
        Err(error) => Err(error),
        Ok(None) => Ok(None),
        Ok(Some((_, minor, after_minor))) => {
            if text::chars_of(after_minor.as_str()).len() > 0 {
                return Ok(None);
            }
            match parse_version(major.as_str(), minor.as_str()) {
                Ok(version) => Ok(Some(version)),
                Err(error) => Err(error),
            }
        },
    }
}

/// The higher of two versions
pub open spec fn higher(first: Option<(nat, nat)>, second: (nat, nat)) -> (nat, nat) {
    match first {
        None => second,
        Some((major, minor)) => if major > second.0 || (major == second.0 && minor > second.1) {
            (major, minor)
        } else {
            second
        },
    }
}

/// The highest version among branches, or which of them isn't one
pub open spec fn latest_spec(branches: Seq<Option<Seq<char>>>) -> Result<
    Option<(nat, nat)>,
    Seq<char>,
>
    decreases branches.len(),
{
    if branches.len() == 0 {
        Ok(None)
    } else {
        match latest_spec(branches.drop_last()) {
            Err(error) => Err(error),
            Ok(latest) => match branches.last() {
                None => Ok(latest),
                Some(branch) => match branch_version(branch) {
                    Err(error) => Err(error),
                    Ok(None) => Ok(latest),
                    Ok(Some(version)) => Ok(Some(higher(latest, version))),
                },
            },
        }
    }
}

proof fn lemma_latest_error(branches: Seq<Option<Seq<char>>>, i: int)
    requires
        0 <= i <= branches.len(),
        latest_spec(branches.take(i)) is Err,
    ensures
        latest_spec(branches) == latest_spec(branches.take(i)),
    decreases branches.len(),
{
    if i == branches.len() {
        assert(branches.take(i) =~= branches);
    } else {
        assert(branches.drop_last().take(i) =~= branches.take(i));
        lemma_latest_error(branches.drop_last(), i);
    }
}

pub open spec fn version_view(version: Option<(u32, u32)>) -> Option<(nat, nat)> {
    match version {
        Some((major, minor)) => Some((major as nat, minor as nat)),
        None => None,
    }
}

/// The highest `(major, minor)` among the `enterprise-<major>.<minor>` branches
pub fn latest_enterprise_version(branches: &Vec<Option<String>>) -> (latest: Result<
    Option<(u32, u32)>,
    String,
>)
    ensures
        match latest {
            Ok(latest) => latest_spec(engines::key_views(branches@)) == Ok::<_, Seq<char>>(
                version_view(latest),
            ),
            Err(error) => latest_spec(engines::key_views(branches@)) == Err::<
                Option<(nat, nat)>,
                _,
            >(error@),
        },
{
    let ghost views = engines::key_views(branches@);
    let mut latest: Option<(u32, u32)> = None;
    let mut i: usize = 0;
    while i < branches.len()
        invariant
            i <= branches@.len(),
            views == engines::key_views(branches@),
            latest_spec(views.take(i as int)) == Ok::<_, Seq<char>>(version_view(latest)),
        decreases branches@.len() - i,
    {
        proof {
            assert(views.take(i + 1).drop_last() =~= views.take(i as int));
            assert(views.take(i + 1).last() == text::option_view(branches@[i as int]));
        }
        if let Some(branch) = &branches[i] {
            match version_of_branch(branch.as_str()) {
                Err(error) => {
                    proof {
                        lemma_latest_error(views, i + 1);
                    }
                    return Err(error);
                },
                Ok(None) => {},
                Ok(Some((major, minor))) => {
                    latest = match latest {
                        None => Some((major, minor)),
                        Some((a, b)) => if a > major || (a == major && b > minor) {
                            Some((a, b))
                        } else {
                            Some((major, minor))
                        },
                    };
                },
            }
        }
        i = i + 1;
    }
    assert(views.take(i as int) =~= views);
    Ok(latest)
}

/// The product's title and version, as attributes
pub open spec fn product_entries(
    title: Option<Seq<char>>,
    version: Option<(nat, nat)>,
) -> Entries {
    let titled = match title {
        Some(title) => maps::with_value(Seq::empty(), "product-title"@, title),
        None => Seq::empty(),
    };
    match version {
        Some((major, minor)) => maps::with_value(
            titled,
            "product-version"@,
            numbers::decimal_spec(major) + "."@ + numbers::decimal_spec(minor),
        ),
        None => titled,
    }
}

/// The product's title and version, as attributes
pub fn product_attributes(title: &Option<String>, version: Option<(u32, u32)>) -> (attributes:
    TextMap)
    ensures
        attributes@ == product_entries(text::option_view(*title), version_view(version)),
{
    let mut attributes = TextMap::new();
    if let Some(title) = title {
        attributes.set("product-title".to_owned(), title.clone());
    }
    if let Some((major, minor)) = version {
        let first = numbers::decimal_wide(major as u128);
        let second = numbers::decimal_wide(minor as u128);
        attributes.set(
            "product-version".to_owned(),
            text::surround(first.as_str(), ".", second.as_str()),
        );
    }
    attributes
}

/// Product title and version, from the text of `_distro_map.yml`
pub open spec fn distro_spec(document: Option<Seq<char>>) -> Result<Entries, Seq<char>> {
    match document {
        None => Ok(Seq::empty()),
        Some(document) => match engines::yaml_text_of(
            document,
            "openshift-enterprise"@,
            "name"@,
        ) {
            Err(reason) => Err("parsing _distro_map.yml"@ + ": "@ + reason),
            Ok(title) => match engines::yaml_keys_of(
                document,
                "openshift-enterprise"@,
                "branches"@,
            ) {
                Err(reason) => Err("parsing _distro_map.yml"@ + ": "@ + reason),
                Ok(branches) => {
                    let latest = match branches {
                        Some(branches) => latest_spec(branches),
                        None => Ok(None),
                    };
                    match latest {
                        Err(error) => Err("finding the latest enterprise branch"@ + ": "@ + error),
                        Ok(version) => Ok(product_entries(title, version)),
                    }
                },
            },
        },
    }
}

/// Product title and version, from the text of `_distro_map.yml`
pub fn distro_attributes(document: &Option<String>) -> (attributes: Result<TextMap, String>)
    ensures
        match attributes {
            Ok(attributes) => distro_spec(text::option_view(*document)) == Ok::<_, Seq<char>>(
                attributes@,
            ),
            Err(error) => distro_spec(text::option_view(*document)) == Err::<Entries, _>(error@),
        },
{
    let document = match document {
        None => {
            return Ok(TextMap::new());
        },
        Some(document) => document.as_str(),
    };
    let title = match engines::yaml_text(document, "openshift-enterprise", "name") {
        Ok(title) => title,
        Err(reason) => {
            return Err(lightbulb::error_in("parsing _distro_map.yml", reason));
        },
    };
    let branches = match engines::yaml_keys(document, "openshift-enterprise", "branches") {
        Ok(branches) => branches,
        Err(reason) => {
            return Err(lightbulb::error_in("parsing _distro_map.yml", reason));
        },
    };
    let version = match branches {
        None => None,
        Some(branches) => match latest_enterprise_version(&branches) {
            Ok(version) => version,
            Err(error) => {
                return Err(lightbulb::error_in("finding the latest enterprise branch", error));
            },
        },
    };
    Ok(product_attributes(&title, version))
}

// ---------------------------------------------------------------------------
// Attribute entries
// ---------------------------------------------------------------------------

/// An attribute entry `:name: value`, where `found` is the run of name characters after
/// the first `:`
pub open spec fn entry_of(found: Option<(Seq<char>, Seq<char>, Seq<char>)>) -> Option<
    (Seq<char>, Seq<char>),
> {
    match found {
        Some((_, name, after)) => match text::without_prefix(after, ":"@) {
            Some(rest) => Some((name, text::after_run(rest, CharClass::White))),
            None => None,
        },
        None => None,
    }
}

/// An attribute entry `:name: value`, where `found` is the run of name characters after
/// the first `:`
pub fn entry_from(found: &Option<engines::Found>) -> (entry: Option<(String, String)>)
    ensures
        match entry {
            Some((name, value)) => entry_of(engines::found_view(*found)) == Some((name@, value@)),
            None => entry_of(engines::found_view(*found)) is None,
        },
{
    match found {
        Some((_, name, after)) => match text::strip_prefix(after.as_str(), ":") {
            Some(rest) => Some(
                (name.clone(), text::trim_start(rest.as_str(), CharClass::White)),
            ),
            None => None,
        },
        None => None,
    }
}

/// The attribute entry on a line
pub open spec fn entry_spec(line: Seq<char>) -> Result<Option<(Seq<char>, Seq<char>)>, Seq<char>> {
    match text::without_prefix(line, ":"@) {
        None => Ok(None),
        Some(rest) => match docs::search_spec(ATTRIBUTE_NAME_PATTERN@, rest) {
            Err(error) => Err(error),
            Ok(found) => Ok(entry_of(found)),
        },
    }
}

/// The attribute entry on a line
pub fn attribute_entry(line: &str) -> (entry: Result<Option<(String, String)>, String>)
    ensures
        match entry {
            Ok(Some((name, value))) => entry_spec(line@) == Ok::<_, Seq<char>>(
                Some((name@, value@)),
            ),
            Ok(None) => entry_spec(line@) == Ok::<_, Seq<char>>(None::<(Seq<char>, Seq<char>)>),
            Err(error) => entry_spec(line@) == Err::<Option<(Seq<char>, Seq<char>)>, _>(error@),
        },
{
    match text::strip_prefix(line, ":") {
        None => Ok(None),
        Some(rest) => match docs::search(ATTRIBUTE_NAME_PATTERN, rest.as_str()) {
            Err(error) => Err(error),
            Ok(found) => Ok(entry_from(&found)),
        },
    }
}

/// A line that opens or closes a conditional block
#[derive(Clone, Copy, Debug, PartialEq, Eq, Structural)]
pub enum Directive {
    IfDefined,
    IfNotDefined,
    End,
}

/// The directive a line starts with, and what follows it
pub open spec fn directive_spec(line: Seq<char>) -> Option<(Directive, Seq<char>)> {
    if let Some(rest) = text::without_prefix(line, "ifdef::"@) {
        Some((Directive::IfDefined, rest))
    } else if let Some(rest) = text::without_prefix(line, "ifndef::"@) {
        Some((Directive::IfNotDefined, rest))
    } else if let Some(rest) = text::without_prefix(line, "endif::"@) {
        Some((Directive::End, rest))
    } else {
        None
    }
}

fn directive(line: &str) -> (found: Option<(Directive, String)>)
    ensures
        match found {
            Some((directive, rest)) => directive_spec(line@) == Some((directive, rest@)),
            None => directive_spec(line@) is None,
        },
{
    if let Some(rest) = text::strip_prefix(line, "ifdef::") {
        return Some((Directive::IfDefined, rest));
    }
    if let Some(rest) = text::strip_prefix(line, "ifndef::") {
        return Some((Directive::IfNotDefined, rest));
    }
    match text::strip_prefix(line, "endif::") {
        Some(rest) => Some((Directive::End, rest)),
        None => None,
    }
}

/// The names in a condition, where `found` is the run of name characters before `[]`
pub open spec fn condition_of(found: Option<(Seq<char>, Seq<char>, Seq<char>)>) -> Option<
    Seq<char>,
> {
    match found {
        Some((_, names, after)) => match text::without_prefix(after, "[]"@) {
            Some(rest) => if text::is_blank(rest) {
                Some(names)
            } else {
                None
            },
            None => None,
        },
        None => None,
    }
}

/// The names in a condition, where `found` is the run of name characters before `[]`
pub fn condition_from(found: &Option<engines::Found>) -> (names: Option<String>)
    ensures
        text::option_view(names) == condition_of(engines::found_view(*found)),
{
    match found {
        Some((_, names, after)) => match text::strip_prefix(after.as_str(), "[]") {
            Some(rest) => if text::blank(rest.as_str()) {
                Some(names.clone())
            } else {
                None
            },
            None => None,
        },
        None => None,
    }
}

/// The conditional directive on a line, with the names in its condition
pub open spec fn conditional_spec(line: Seq<char>) -> Result<
    Option<(Directive, Seq<char>)>,
    Seq<char>,
> {
    match directive_spec(line) {
        None => Ok(None),
        Some((directive, rest)) => match docs::search_spec(CONDITION_PATTERN@, rest) {
            Err(error) => Err(error),
            Ok(found) => match condition_of(found) {
                Some(names) => Ok(Some((directive, names))),
                None => Ok(None),
            },
        },
    }
}

/// The conditional directive on a line, with the names in its condition
pub fn conditional(line: &str) -> (found: Result<Option<(Directive, String)>, String>)
    ensures
        match found {
            Ok(Some((directive, names))) => conditional_spec(line@) == Ok::<_, Seq<char>>(
                Some((directive, names@)),
            ),
            Ok(None) => conditional_spec(line@) == Ok::<_, Seq<char>>(
                None::<(Directive, Seq<char>)>,
            ),
            Err(error) => conditional_spec(line@) == Err::<Option<(Directive, Seq<char>)>, _>(
                error@,
            ),
        },
{
    match directive(line) {
        None => Ok(None),
        Some((directive, rest)) => match docs::search(CONDITION_PATTERN, rest.as_str()) {
            Err(error) => Err(error),
            Ok(found) => match condition_from(&found) {
                Some(names) => Ok(Some((directive, names))),
                None => Ok(None),
            },
        },
    }
}

/// The names separated by `,` or `+`
pub open spec fn condition_names(names: Seq<char>) -> Seq<Seq<char>> {
    lines::split(unplussed(names), ',')
}

/// `s` with each `+` made a `,`
pub open spec fn unplussed(s: Seq<char>) -> Seq<char> {
    Seq::new(
        s.len(),
        |i: int|
            if s[i] == '+' {
                ','
            } else {
                s[i]
            },
    )
}

fn split_names(names: &str) -> (list: Vec<String>)
    ensures
        text::views(list@) == condition_names(names@),
{
    let chars = text::chars_of(names);
    let mut commas = String::new();
    let mut i: usize = 0;
    while i < chars.len()
        invariant
            i <= chars@.len(),
            chars@ == names@,
            commas@ == unplussed(names@).take(i as int),
        decreases chars@.len() - i,
    {
        if chars[i] == '+' {
            commas.push(',');
        } else {
            commas.push(chars[i]);
        }
        assert(unplussed(names@).take(i + 1) =~= unplussed(names@).take(i as int).push(
            unplussed(names@)[i as int],
        ));
        i = i + 1;
    }
    assert(unplussed(names@).take(i as int) =~= unplussed(names@));
    lines::split_text(commas.as_str(), ',')
}

/// Whether some name has an attribute
pub open spec fn any_defined(names: Seq<Seq<char>>, attributes: Entries) -> bool {
    exists|i: int|
        0 <= i < names.len() && maps::value_of(attributes, #[trigger] names[i]) is Some
}

fn defines_any(names: &Vec<String>, attributes: &TextMap) -> (found: bool)
    ensures
        found == any_defined(text::views(names@), attributes@),
{
    let ghost views = text::views(names@);
    let mut i: usize = 0;
    while i < names.len()
        invariant
            i <= names@.len(),
            views == text::views(names@),
            forall|j: int|
                0 <= j < i ==> maps::value_of(attributes@, #[trigger] views[j]) is None,
        decreases names@.len() - i,
    {
        if attributes.get(names[i].as_str()).is_some() {
            assert(maps::value_of(attributes@, views[i as int]) is Some);
            return true;
        }
        i = i + 1;
    }
    false
}

/// Attributes, and the conditions of the conditional blocks around a line
pub struct EntriesState {
    pub attributes: Entries,
    pub conditions: Seq<bool>,
}

/// Whether all conditions hold
pub open spec fn all_hold(conditions: Seq<bool>) -> bool {
    forall|i: int| 0 <= i < conditions.len() ==> #[trigger] conditions[i]
}

/// What a conditional directive changes
pub open spec fn with_condition(
    state: EntriesState,
    directive: Directive,
    names: Seq<char>,
) -> EntriesState {
    let defined = any_defined(condition_names(names), state.attributes);
    EntriesState {
        conditions: match directive {
            Directive::IfDefined => state.conditions.push(defined),
            Directive::IfNotDefined => state.conditions.push(!defined),
            Directive::End => if state.conditions.len() > 0 {
                state.conditions.drop_last()
            } else {
                state.conditions
            },
        },
        ..state
    }
}

/// What an attribute entry changes
pub open spec fn with_entry(
    state: EntriesState,
    entry: Option<(Seq<char>, Seq<char>)>,
) -> EntriesState {
    match entry {
        Some((name, value)) => EntriesState {
            attributes: maps::with_value(state.attributes, name, value),
            ..state
        },
        None => state,
    }
}

/// What a line changes
pub open spec fn with_line(state: EntriesState, line: Seq<char>) -> Result<
    EntriesState,
    Seq<char>,
> {
    match conditional_spec(line) {
        Err(error) => Err(error),
        Ok(Some((directive, names))) => Ok(with_condition(state, directive, names)),
        Ok(None) => if all_hold(state.conditions) {
            match entry_spec(line) {
                Err(error) => Err(error),
                Ok(entry) => Ok(with_entry(state, entry)),
            }
        } else {
            Ok(state)
        },
    }
}

/// What lines change
pub open spec fn with_lines(attributes: Entries, list: Seq<Seq<char>>) -> Result<
    EntriesState,
    Seq<char>,
>
    decreases list.len(),
{
    if list.len() == 0 {
        Ok(EntriesState { attributes, conditions: Seq::empty() })
    } else {
        match with_lines(attributes, list.drop_last()) {
            Err(error) => Err(error),
            Ok(state) => with_line(state, list.last()),
        }
    }
}

proof fn lemma_with_lines_error(attributes: Entries, list: Seq<Seq<char>>, i: int)
    requires
        0 <= i <= list.len(),
        with_lines(attributes, list.take(i)) is Err,
    ensures
        with_lines(attributes, list) == with_lines(attributes, list.take(i)),
    decreases list.len(),
{
    if i == list.len() {
        assert(list.take(i) =~= list);
    } else {
        assert(list.drop_last().take(i) =~= list.take(i));
        lemma_with_lines_error(attributes, list.drop_last(), i);
    }
}

/// Attributes with the entries in a text, without those in conditional blocks whose
/// condition doesn't hold
pub open spec fn add_entries_spec(attributes: Entries, s: Seq<char>) -> Result<
    Entries,
    Seq<char>,
> {
    match with_lines(attributes, lines::lines_of(s)) {
        Err(error) => Err(error),
        Ok(state) => Ok(state.attributes),
    }
}

fn conditions_hold(conditions: &Vec<bool>) -> (hold: bool)
    ensures
        hold == all_hold(conditions@),
{
    let mut i: usize = 0;
    while i < conditions.len()
        invariant
            i <= conditions@.len(),
            forall|j: int| 0 <= j < i ==> #[trigger] conditions@[j],
        decreases conditions@.len() - i,
    {
        if !conditions[i] {
            assert(!conditions@[i as int]);
            return false;
        }
        i = i + 1;
    }
    true
}

/// Adds the attribute entries in `text`, skipping those in ifdef/ifndef blocks
/// whose condition doesn't hold
pub fn add_attribute_entries(text: &str, attributes: TextMap) -> (result: Result<TextMap, String>)
    ensures
        match result {
            Ok(result) => add_entries_spec(attributes@, text@) == Ok::<_, Seq<char>>(result@),
            Err(error) => add_entries_spec(attributes@, text@) == Err::<Entries, _>(error@),
        },
{
    let list = lines::lines(text);
    let ghost views = text::views(list@);
    let ghost start = attributes@;
    let mut result = attributes;
    let mut conditions: Vec<bool> = Vec::new();
    let mut i: usize = 0;
    assert(conditions@ =~= Seq::empty());
    while i < list.len()
        invariant
            i <= list@.len(),
            views == text::views(list@),
            views == lines::lines_of(text@),
            start == attributes@,
            with_lines(start, views.take(i as int)) == Ok::<_, Seq<char>>(
                EntriesState { attributes: result@, conditions: conditions@ },
            ),
        decreases list@.len() - i,
    {
        proof {
            assert(views.take(i + 1).drop_last() =~= views.take(i as int));
            assert(views.take(i + 1).last() == list@[i as int]@);
        }
        let line = list[i].as_str();
        match conditional(line) {
            Err(error) => {
                proof {
                    lemma_with_lines_error(start, views, i + 1);
                }
                return Err(error);
            },
            Ok(Some((directive, names))) => {
                let name_list = split_names(names.as_str());
                let defined = defines_any(&name_list, &result);
                match directive {
                    Directive::IfDefined => {
                        conditions.push(defined);
                    },
                    Directive::IfNotDefined => {
                        conditions.push(!defined);
                    },
                    Directive::End => {
                        let ghost before = conditions@;
                        let _ = conditions.pop();
                        proof {
                            if before.len() > 0 {
                                assert(conditions@ =~= before.drop_last());
                            } else {
                                assert(conditions@ =~= before);
                            }
                        }
                    },
                }
            },
            Ok(None) => {
                if conditions_hold(&conditions) {
                    match attribute_entry(line) {
                        Err(error) => {
                            proof {
                                lemma_with_lines_error(start, views, i + 1);
                            }
                            return Err(error);
                        },
                        Ok(None) => {},
                        Ok(Some((name, value))) => {
                            result.set(name, value);
                        },
                    }
                }
            },
        }
        i = i + 1;
    }
    assert(views.take(i as int) =~= views);
    Ok(result)
}

// ---------------------------------------------------------------------------
// An assembly's header
// ---------------------------------------------------------------------------

/// The attribute file that a line includes
pub open spec fn attribute_file_spec(line: Seq<char>) -> Option<Seq<char>> {
    match text::without_prefix(line, "include::"@) {
        None => None,
        Some(target) => {
            let file = lines::split(target, '[')[0];
            if "_attributes/"@.is_prefix_of(file) {
                Some(file)
            } else {
                None
            }
        },
    }
}

/// The attribute file that a line includes
pub fn attribute_file(line: &str) -> (file: Option<String>)
    ensures
        text::option_view(file) == attribute_file_spec(line@),
{
    match text::strip_prefix(line, "include::") {
        None => None,
        Some(target) => {
            let parts = lines::split_text(target.as_str(), '[');
            assert(text::views(parts@)[0] == parts@[0]@);
            if text::starts_with(parts[0].as_str(), "_attributes/") {
                Some(parts[0].clone())
            } else {
                None
            }
        },
    }
}

/// The lines above the first module that is included
pub open spec fn header_lines(list: Seq<Seq<char>>) -> Seq<Seq<char>>
    decreases list.len(),
{
    if list.len() == 0 || "include::modules/"@.is_prefix_of(list[0]) {
        Seq::empty()
    } else {
        seq![list[0]] + header_lines(list.drop_first())
    }
}

fn header(text: &str) -> (list: Vec<String>)
    ensures
        text::views(list@) == header_lines(lines::lines_of(text@)),
{
    let all = lines::lines(text);
    let ghost views = text::views(all@);
    let mut list: Vec<String> = Vec::new();
    let mut i: usize = 0;
    proof {
        assert(views.skip(0) =~= views);
        assert(text::views(list@) + header_lines(views.skip(0)) =~= header_lines(views));
    }
    while i < all.len() && !text::starts_with(all[i].as_str(), "include::modules/")
        invariant
            i <= all@.len(),
            views == text::views(all@),
            text::views(list@) + header_lines(views.skip(i as int)) == header_lines(views),
        decreases all@.len() - i,
    {
        let line = all[i].clone();
        proof {
            let rest = views.skip(i as int);
            assert(rest[0] == line@);
            assert(rest.drop_first() =~= views.skip(i + 1));
            text::lemma_views_push(list@, line);
            assert(text::views(list@).push(line@) + header_lines(views.skip(i + 1))
                =~= text::views(list@) + (seq![line@] + header_lines(views.skip(i + 1))));
        }
        list.push(line);
        i = i + 1;
    }
    proof {
        let rest = views.skip(i as int);
        if i < all@.len() {
            assert(rest[0] == all@[i as int]@);
        }
        assert(text::views(list@) + Seq::<Seq<char>>::empty() =~= text::views(list@));
    }
    list
}

/// The attribute files that lines include
pub open spec fn files_in(list: Seq<Seq<char>>) -> Seq<Seq<char>>
    decreases list.len(),
{
    if list.len() == 0 {
        Seq::empty()
    } else {
        match attribute_file_spec(list.last()) {
            Some(file) => files_in(list.drop_last()).push(file),
            None => files_in(list.drop_last()),
        }
    }
}

/// The attribute files that an assembly includes above its first module
pub fn attribute_files(text: &str) -> (files: Vec<String>)
    ensures
        text::views(files@) == files_in(header_lines(lines::lines_of(text@))),
{
    let list = header(text);
    let ghost views = text::views(list@);
    let mut files: Vec<String> = Vec::new();
    let mut i: usize = 0;
    assert(text::views(files@) =~= files_in(views.take(0)));
    while i < list.len()
        invariant
            i <= list@.len(),
            views == text::views(list@),
            text::views(files@) == files_in(views.take(i as int)),
        decreases list@.len() - i,
    {
        proof {
            assert(views.take(i + 1).drop_last() =~= views.take(i as int));
            assert(views.take(i + 1).last() == list@[i as int]@);
        }
        if let Some(file) = attribute_file(list[i].as_str()) {
            proof {
                text::lemma_views_push(files@, file);
            }
            files.push(file);
        }
        i = i + 1;
    }
    assert(views.take(i as int) =~= views);
    files
}

/// The text of a file; nothing for one that isn't there
pub open spec fn file_text(files: Entries, file: Seq<char>) -> Seq<char> {
    match maps::value_of(files, file) {
        Some(found) => found,
        None => Seq::empty(),
    }
}

/// What a line of an assembly's header changes
pub open spec fn with_header_line(
    assembly: Seq<char>,
    files: Entries,
    attributes: Entries,
    line: Seq<char>,
) -> Result<Entries, Seq<char>> {
    if "include::"@.is_prefix_of(line) {
        match attribute_file_spec(line) {
            None => Ok(attributes),
            Some(file) => lightbulb::in_context(
                add_entries_spec(attributes, file_text(files, file)),
                "reading the attributes in "@ + file,
            ),
        }
    } else {
        match entry_spec(line) {
            Err(error) => Err(error),
            Ok(None) => Ok(attributes),
            Ok(Some(_)) => lightbulb::in_context(
                add_entries_spec(attributes, line),
                "reading the attributes in "@ + assembly,
            ),
        }
    }
}

/// What the lines of an assembly's header change
pub open spec fn with_header(
    assembly: Seq<char>,
    files: Entries,
    attributes: Entries,
    list: Seq<Seq<char>>,
) -> Result<Entries, Seq<char>>
    decreases list.len(),
{
    if list.len() == 0 {
        Ok(attributes)
    } else {
        match with_header(assembly, files, attributes, list.drop_last()) {
            Err(error) => Err(error),
            Ok(before) => with_header_line(assembly, files, before, list.last()),
        }
    }
}

proof fn lemma_with_header_error(
    assembly: Seq<char>,
    files: Entries,
    attributes: Entries,
    list: Seq<Seq<char>>,
    i: int,
)
    requires
        0 <= i <= list.len(),
        with_header(assembly, files, attributes, list.take(i)) is Err,
    ensures
        with_header(assembly, files, attributes, list) == with_header(
            assembly,
            files,
            attributes,
            list.take(i),
        ),
    decreases list.len(),
{
    if i == list.len() {
        assert(list.take(i) =~= list);
    } else {
        assert(list.drop_last().take(i) =~= list.take(i));
        lemma_with_header_error(assembly, files, attributes, list.drop_last(), i);
    }
}

fn add_header_line(assembly: &str, files: &TextMap, attributes: TextMap, line: &str) -> (result:
    Result<TextMap, String>)
    ensures
        match result {
            Ok(result) => with_header_line(assembly@, files@, attributes@, line@) == Ok::<
                _,
                Seq<char>,
            >(result@),
            Err(error) => with_header_line(assembly@, files@, attributes@, line@) == Err::<
                Entries,
                _,
            >(error@),
        },
{
    if text::starts_with(line, "include::") {
        return match attribute_file(line) {
            None => Ok(attributes),
            Some(file) => {
                let contents = match files.get(file.as_str()) {
                    Some(contents) => contents.to_owned(),
                    None => String::new(),
                };
                match add_attribute_entries(contents.as_str(), attributes) {
                    Ok(result) => Ok(result),
                    Err(error) => {
                        let mut context = "reading the attributes in ".to_owned();
                        context.append(file.as_str());
                        Err(lightbulb::error_in(context.as_str(), error))
                    },
                }
            },
        };
    }
    match attribute_entry(line) {
        Err(error) => Err(error),
        Ok(None) => Ok(attributes),
        Ok(Some(_)) => match add_attribute_entries(line, attributes) {
            Ok(result) => Ok(result),
            Err(error) => {
                let mut context = "reading the attributes in ".to_owned();
                context.append(assembly);
                Err(lightbulb::error_in(context.as_str(), error))
            },
        },
    }
}

/// The attribute entries above the assembly's first module, and those in the
/// attribute files (given as `files`) it includes there
pub fn add_header_attributes(
    assembly: &str,
    text: &str,
    files: &TextMap,
    attributes: TextMap,
) -> (result: Result<TextMap, String>)
    ensures
        match result {
            Ok(result) => with_header(
                assembly@,
                files@,
                attributes@,
                header_lines(lines::lines_of(text@)),
            ) == Ok::<_, Seq<char>>(result@),
            Err(error) => with_header(
                assembly@,
                files@,
                attributes@,
                header_lines(lines::lines_of(text@)),
            ) == Err::<Entries, _>(error@),
        },
{
    let list = header(text);
    let ghost views = text::views(list@);
    let ghost start = attributes@;
    let mut result = attributes;
    let mut i: usize = 0;
    while i < list.len()
        invariant
            i <= list@.len(),
            views == text::views(list@),
            views == header_lines(lines::lines_of(text@)),
            start == attributes@,
            with_header(assembly@, files@, start, views.take(i as int)) == Ok::<_, Seq<char>>(
                result@,
            ),
        decreases list@.len() - i,
    {
        proof {
            assert(views.take(i + 1).drop_last() =~= views.take(i as int));
            assert(views.take(i + 1).last() == list@[i as int]@);
        }
        match add_header_line(assembly, files, result, list[i].as_str()) {
            Ok(next) => {
                result = next;
            },
            Err(error) => {
                proof {
                    lemma_with_header_error(assembly@, files@, start, views, i + 1);
                }
                return Err(error);
            },
        }
        i = i + 1;
    }
    assert(views.take(i as int) =~= views);
    Ok(result)
}

// ---------------------------------------------------------------------------
// References
// ---------------------------------------------------------------------------

/// The length of the run of name characters that a text starts with
pub open spec fn name_run(s: Seq<char>) -> Result<nat, Seq<char>> {
    match docs::search_spec(ATTRIBUTE_NAME_PATTERN@, s) {
        Err(error) => Err(error),
        Ok(Some((_, name, _))) => Ok(name.len()),
        Ok(None) => Ok(0),
    }
}

/// The lengths of the runs of name characters after each `{` in a text, by its index
pub open spec fn runs_spec(s: Seq<char>, count: int) -> Result<Seq<nat>, Seq<char>>
    decreases count,
{
    if count <= 0 {
        Ok(Seq::empty())
    } else {
        match runs_spec(s, count - 1) {
            Err(error) => Err(error),
            Ok(runs) => if s[count - 1] == '{' {
                match name_run(s.skip(count)) {
                    Err(error) => Err(error),
                    Ok(run) => Ok(runs.push(run)),
                }
            } else {
                Ok(runs.push(0))
            },
        }
    }
}

proof fn lemma_runs(s: Seq<char>, i: int, count: int)
    requires
        0 <= i <= count,
    ensures
        runs_spec(s, i) is Err ==> runs_spec(s, count) == runs_spec(s, i),
        runs_spec(s, count) matches Ok(runs) ==> runs.len() == count,
    decreases count,
{
    if i < count {
        lemma_runs(s, i, count - 1);
    } else if count > 0 {
        lemma_runs(s, count - 1, count - 1);
    }
}

/// The value of an attribute, or of one of the built-in character replacements
pub open spec fn known_value(attributes: Entries, name: Seq<char>) -> Option<Seq<char>> {
    match maps::value_of(attributes, name) {
        Some(value) => Some(value),
        None => if name == "nbsp"@ {
            Some("\u{a0}"@)
        } else if name == "zwsp"@ {
            Some("\u{200b}"@)
        } else if name == "empty"@ {
            Some(""@)
        } else if name == "sp"@ {
            Some(" "@)
        } else {
            None
        },
    }
}

/// The value of an attribute, or of one of the built-in character replacements
pub fn lookup(attributes: &TextMap, name: &str) -> (value: Option<String>)
    ensures
        text::option_view(value) == known_value(attributes@, name@),
{
    match attributes.get(name) {
        Some(value) => Some(value.to_owned()),
        None => if text::same(name, "nbsp") {
            Some("\u{a0}".to_owned())
        } else if text::same(name, "zwsp") {
            Some("\u{200b}".to_owned())
        } else if text::same(name, "empty") {
            Some("".to_owned())
        } else if text::same(name, "sp") {
            Some(" ".to_owned())
        } else {
            None
        },
    }
}

/// `s` from index `i` on with each `{name}` replaced by the attribute's value, where
/// `runs` are the lengths of the runs of name characters after each `{`
pub open spec fn resolved_from(
    s: Seq<char>,
    runs: Seq<nat>,
    attributes: Entries,
    i: int,
) -> Seq<char>
    decreases s.len() - i,
{
    if !(0 <= i < s.len()) {
        Seq::empty()
    } else {
        let end = i + 1 + runs[i];
        if s[i] == '{' && runs[i] > 0 && end < s.len() && s[end] == '}' {
            let whole = s.subrange(i, end + 1);
            let value = match known_value(attributes, s.subrange(i + 1, end)) {
                Some(value) => value,
                None => whole,
            };
            value + resolved_from(s, runs, attributes, end + 1)
        } else {
            seq![s[i]] + resolved_from(s, runs, attributes, i + 1)
        }
    }
}

/// `value` with each `{name}` replaced by the attribute's value, where `runs` are the
/// lengths of the runs of name characters after each `{`
pub fn resolve_with_runs(value: &str, runs: &Vec<usize>, attributes: &TextMap) -> (result: String)
    requires
        runs@.len() == value@.len(),
    ensures
        result@ == resolved_from(
            value@,
            Seq::new(runs@.len(), |i: int| runs@[i] as nat),
            attributes@,
            0,
        ),
{
    let chars = text::chars_of(value);
    let ghost lengths = Seq::new(runs@.len(), |i: int| runs@[i] as nat);
    let mut result = String::new();
    let mut i: usize = 0;
    proof {
        assert(result@ + resolved_from(chars@, lengths, attributes@, 0) =~= resolved_from(
            chars@,
            lengths,
            attributes@,
            0,
        ));
    }
    while i < chars.len()
        invariant
            i <= chars@.len(),
            chars@ == value@,
            runs@.len() == chars@.len(),
            lengths == Seq::new(runs@.len(), |i: int| runs@[i] as nat),
            result@ + resolved_from(chars@, lengths, attributes@, i as int) == resolved_from(
                chars@,
                lengths,
                attributes@,
                0,
            ),
        decreases chars@.len() - i,
    {
        let ghost before = result@;
        let run = runs[i];
        assert(lengths[i as int] == run);
        assert(i < chars.len());
        if chars[i] == '{' && run > 0 && run < chars.len() - i - 1 && chars[i + 1 + run] == '}' {
            let end: usize = i + 1 + run;
            let name = text::text_of(&chars, i + 1, end);
            let whole = text::text_of(&chars, i, end + 1);
            let replacement = match lookup(attributes, name.as_str()) {
                Some(replacement) => replacement,
                None => whole,
            };
            result.append(replacement.as_str());
            proof {
                let rest = resolved_from(chars@, lengths, attributes@, end + 1);
                assert(before + replacement@ + rest =~= before + (replacement@ + rest));
            }
            i = end + 1;
        } else {
            result.push(chars[i]);
            proof {
                let rest = resolved_from(chars@, lengths, attributes@, i + 1);
                assert(before.push(chars@[i as int]) + rest =~= before + (seq![chars@[i as int]]
                    + rest));
            }
            i = i + 1;
        }
    }
    assert(result@ + Seq::<char>::empty() =~= result@);
    result
}

/// A value with each reference replaced by the attribute's value
pub open spec fn resolve_value(value: Seq<char>, attributes: Entries) -> Result<
    Seq<char>,
    Seq<char>,
> {
    match runs_spec(value, value.len() as int) {
        Err(error) => Err(error),
        Ok(runs) => Ok(resolved_from(value, runs, attributes, 0)),
    }
}

fn resolve_text(value: &str, attributes: &TextMap) -> (result: Result<String, String>)
    ensures
        match result {
            Ok(result) => resolve_value(value@, attributes@) == Ok::<_, Seq<char>>(result@),
            Err(error) => resolve_value(value@, attributes@) == Err::<Seq<char>, _>(error@),
        },
{
    let chars = text::chars_of(value);
    let mut runs: Vec<usize> = Vec::new();
    let mut i: usize = 0;
    assert(Seq::new(runs@.len(), |k: int| runs@[k] as nat) =~= Seq::empty());
    while i < chars.len()
        invariant
            i <= chars@.len(),
            chars@ == value@,
            runs@.len() == i,
            runs_spec(chars@, i as int) == Ok::<_, Seq<char>>(
                Seq::new(runs@.len(), |k: int| runs@[k] as nat),
            ),
        decreases chars@.len() - i,
    {
        let ghost before = Seq::new(runs@.len(), |k: int| runs@[k] as nat);
        let mut run: usize = 0;
        if chars[i] == '{' {
            let rest = text::text_of(&chars, i + 1, chars.len());
            assert(rest@ =~= chars@.skip(i + 1));
            match docs::search(ATTRIBUTE_NAME_PATTERN, rest.as_str()) {
                Err(error) => {
                    proof {
                        lemma_runs(chars@, i + 1, chars@.len() as int);
                    }
                    return Err(error);
                },
                Ok(None) => {},
                Ok(Some((_, name, _))) => {
                    run = text::chars_of(name.as_str()).len();
                },
            }
        }
        runs.push(run);
        assert(Seq::new(runs@.len(), |k: int| runs@[k] as nat) =~= before.push(run as nat));
        i = i + 1;
    }
    Ok(resolve_with_runs(value, &runs, attributes))
}

/// The first `count` attributes with references in their values replaced
pub open spec fn resolve_first(attributes: Entries, count: int) -> Result<Entries, Seq<char>>
    decreases count,
{
    if count <= 0 {
        Ok(Seq::empty())
    } else {
        match resolve_first(attributes, count - 1) {
            Err(error) => Err(error),
            Ok(done) => match resolve_value(attributes[count - 1].1, attributes) {
                Err(error) => Err(error),
                Ok(value) => Ok(maps::with_value(done, attributes[count - 1].0, value)),
            },
        }
    }
}

proof fn lemma_resolve_first_error(attributes: Entries, i: int, count: int)
    requires
        0 <= i <= count,
        resolve_first(attributes, i) is Err,
    ensures
        resolve_first(attributes, count) == resolve_first(attributes, i),
    decreases count,
{
    if i < count {
        lemma_resolve_first_error(attributes, i, count - 1);
    }
}

/// One pass of [`resolve_references`]: each reference replaced by the value it had before the pass
pub fn resolve_once(attributes: &TextMap) -> (result: Result<TextMap, String>)
    ensures
        match result {
            Ok(result) => resolve_first(attributes@, attributes@.len() as int) == Ok::<
                _,
                Seq<char>,
            >(result@),
            Err(error) => resolve_first(attributes@, attributes@.len() as int) == Err::<
                Entries,
                _,
            >(error@),
        },
{
    let ghost all = attributes@;
    let mut result = TextMap::new();
    let mut i: usize = 0;
    while i < attributes.entries.len()
        invariant
            i <= attributes.entries@.len(),
            all == attributes@,
            all.len() == attributes.entries@.len(),
            resolve_first(all, i as int) == Ok::<_, Seq<char>>(result@),
        decreases attributes.entries@.len() - i,
    {
        assert(all[i as int] == (attributes.entries@[i as int].0@, attributes.entries@[i as int].1@));
        match resolve_text(attributes.entries[i].1.as_str(), attributes) {
            Ok(value) => {
                result.set(attributes.entries[i].0.clone(), value);
            },
            Err(error) => {
                proof {
                    lemma_resolve_first_error(all, i + 1, all.len() as int);
                }
                return Err(error);
            },
        }
        i = i + 1;
    }
    Ok(result)
}

/// Attributes after some passes that replace references by values
pub open spec fn resolve_spec(attributes: Entries, passes: nat) -> Result<Entries, Seq<char>>
    decreases passes,
{
    if passes == 0 {
        Ok(attributes)
    } else {
        match resolve_spec(attributes, (passes - 1) as nat) {
            Err(error) => Err(error),
            Ok(before) => resolve_first(before, before.len() as int),
        }
    }
}

proof fn lemma_resolve_error(attributes: Entries, i: nat, passes: nat)
    requires
        i <= passes,
        resolve_spec(attributes, i) is Err,
    ensures
        resolve_spec(attributes, passes) == resolve_spec(attributes, i),
    decreases passes,
{
    if i < passes {
        lemma_resolve_error(attributes, i, (passes - 1) as nat);
    }
}

/// Replaces references to other attributes (and Asciidoctor's built-in
/// character replacements) with their values, as a docs build would
pub fn resolve_references(attributes: TextMap) -> (result: Result<TextMap, String>)
    ensures
        match result {
            Ok(result) => resolve_spec(attributes@, RESOLVE_PASSES as nat) == Ok::<_, Seq<char>>(
                result@,
            ),
            Err(error) => resolve_spec(attributes@, RESOLVE_PASSES as nat) == Err::<Entries, _>(
                error@,
            ),
        },
{
    let ghost start = attributes@;
    let mut result = attributes;
    let mut pass: usize = 0;
    while pass < RESOLVE_PASSES
        invariant
            pass <= RESOLVE_PASSES,
            start == attributes@,
            resolve_spec(start, pass as nat) == Ok::<_, Seq<char>>(result@),
        decreases RESOLVE_PASSES - pass,
    {
        match resolve_once(&result) {
            Ok(next) => {
                result = next;
            },
            Err(error) => {
                proof {
                    lemma_resolve_error(start, (pass + 1) as nat, RESOLVE_PASSES as nat);
                }
                return Err(error);
            },
        }
        pass = pass + 1;
    }
    Ok(result)
}

// ---------------------------------------------------------------------------
// All attributes
// ---------------------------------------------------------------------------

/// Attributes a docs build would provide that don't make sense standalone
pub open spec fn is_presentation(name: Seq<char>) -> bool {
    name == "data-uri"@ || name == "icons"@ || name == "imagesdir"@ || name == "toc"@ || name
        == "toc-title"@ || name == "experimental"@
}

/// The attributes without those that don't make sense standalone
pub open spec fn standalone(attributes: Entries) -> Entries
    decreases attributes.len(),
{
    if attributes.len() == 0 {
        Seq::empty()
    } else if is_presentation(attributes.last().0) {
        standalone(attributes.drop_last())
    } else {
        standalone(attributes.drop_last()).push(attributes.last())
    }
}

fn keep_standalone(attributes: &TextMap) -> (kept: TextMap)
    ensures
        kept@ == standalone(attributes@),
{
    let ghost all = attributes@;
    let mut entries: Vec<(String, String)> = Vec::new();
    let mut i: usize = 0;
    assert(maps::entry_views(entries@) =~= standalone(all.take(0)));
    while i < attributes.entries.len()
        invariant
            i <= attributes.entries@.len(),
            all == attributes@,
            maps::entry_views(entries@) == standalone(all.take(i as int)),
        decreases attributes.entries@.len() - i,
    {
        let name = attributes.entries[i].0.as_str();
        proof {
            assert(all.take(i + 1).drop_last() =~= all.take(i as int));
            assert(all.take(i + 1).last() == all[i as int]);
        }
        let dropped = text::same(name, "data-uri") || text::same(name, "icons") || text::same(
            name,
            "imagesdir",
        ) || text::same(name, "toc") || text::same(name, "toc-title") || text::same(
            name,
            "experimental",
        );
        if !dropped {
            let ghost before = entries@;
            let entry = (attributes.entries[i].0.clone(), attributes.entries[i].1.clone());
            entries.push(entry);
            assert(maps::entry_views(entries@) =~= maps::entry_views(before).push(all[i as int]));
        }
        i = i + 1;
    }
    assert(all.take(i as int) =~= all);
    TextMap { entries }
}

/// Attributes for rendering a module of an assembly standalone
pub open spec fn assembly_attributes_spec(
    distro_map: Option<Seq<char>>,
    assembly: Seq<char>,
    s: Seq<char>,
    files: Entries,
) -> Result<Entries, Seq<char>> {
    match distro_spec(distro_map) {
        Err(error) => Err("reading the product attributes"@ + ": "@ + error),
        Ok(product) => {
            let start = maps::with_value(product, "openshift-enterprise"@, Seq::empty());
            match with_header(assembly, files, start, header_lines(lines::lines_of(s))) {
                Err(error) => Err(error),
                Ok(attributes) => lightbulb::in_context(
                    resolve_spec(standalone(attributes), RESOLVE_PASSES as nat),
                    "resolving attribute references"@,
                ),
            }
        },
    }
}

/// Attributes for rendering a module of an assembly standalone: product title and
/// version (from the text of `_distro_map.yml`, like `AsciiBinder`), the attribute
/// files (given as `files`) the assembly includes, and the assembly's own header
/// entries. Conditional blocks are honored the way a docs build for the distro
/// (openshift-enterprise) would.
pub fn assembly_attributes(
    distro_map: &Option<String>,
    assembly: &str,
    text: &str,
    files: &TextMap,
) -> (attributes: Result<TextMap, String>)
    ensures
        match attributes {
            Ok(attributes) => assembly_attributes_spec(
                text::option_view(*distro_map),
                assembly@,
                text@,
                files@,
            ) == Ok::<_, Seq<char>>(attributes@),
            Err(error) => assembly_attributes_spec(
                text::option_view(*distro_map),
                assembly@,
                text@,
                files@,
            ) == Err::<Entries, _>(error@),
        },
{
    let mut attributes = match distro_attributes(distro_map) {
        Ok(attributes) => attributes,
        Err(error) => {
            return Err(lightbulb::error_in("reading the product attributes", error));
        },
    };
    attributes.set("openshift-enterprise".to_owned(), String::new());
    let with_header = match add_header_attributes(assembly, text, files, attributes) {
        Ok(with_header) => with_header,
        Err(error) => {
            return Err(error);
        },
    };
    match resolve_references(keep_standalone(&with_header)) {
        Ok(resolved) => Ok(resolved),
        Err(error) => Err(lightbulb::error_in("resolving attribute references", error)),
    }
}

} // verus!
