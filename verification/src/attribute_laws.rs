//! What holds of the attributes that a module is rendered with.

use crate::attributes;
use crate::attributes::Directive;
use crate::attributes::Entries;
use crate::attributes::EntriesState;
use crate::docs;
use crate::lines;
use crate::maps;
use crate::markers;
use crate::numbers;
use crate::text;
use crate::text::CharClass;
use crate::text_laws;
use vstd::prelude::*;

verus! {

// ---------------------------------------------------------------------------
// The product
// ---------------------------------------------------------------------------

/// Whether one version is no higher than another
pub open spec fn up_to(first: (nat, nat), second: (nat, nat)) -> bool {
    first.0 < second.0 || (first.0 == second.0 && first.1 <= second.1)
}

/// Whether the `i`th branch is that of a version
pub open spec fn is_version_at(
    branches: Seq<Option<Seq<char>>>,
    i: int,
    version: (nat, nat),
) -> bool {
    &&& 0 <= i < branches.len()
    &&& branches[i] is Some
    &&& attributes::branch_version(branches[i]->0) == Ok::<_, Seq<char>>(Some(version))
}

/// The latest version is that of a branch, and no branch has a higher one. There is one
/// unless no branch is that of a version
pub proof fn law_latest_version(branches: Seq<Option<Seq<char>>>)
    requires
        attributes::latest_spec(branches) is Ok,
    ensures
        match attributes::latest_spec(branches)->Ok_0 {
            Some(latest) => {
                &&& exists|i: int| #[trigger] is_version_at(branches, i, latest)
                &&& forall|i: int, version: (nat, nat)| #[trigger]
                    is_version_at(branches, i, version) ==> up_to(version, latest)
            },
            None => forall|i: int, version: (nat, nat)|
                !#[trigger] is_version_at(branches, i, version),
        },
    decreases branches.len(),
{
    if branches.len() > 0 {
        let head = branches.drop_last();
        let n = branches.len() - 1;
        law_latest_version(head);
        let latest = attributes::latest_spec(branches)->Ok_0;
        assert forall|i: int, version: (nat, nat)| #[trigger]
            is_version_at(branches, i, version) && i < n implies is_version_at(
            head,
            i,
            version,
        ) by {
            assert(head[i] == branches[i]);
        }
        if let Some(version) = latest {
            if is_version_at(branches, n, version) {
            } else {
                let i = choose|i: int| #[trigger] is_version_at(head, i, version);
                assert(head[i] == branches[i]);
                assert(is_version_at(branches, i, version));
            }
        }
    }
}

/// A branch `enterprise-<major>.<minor>` is that of the version with these numbers,
/// where the digits are those that the pattern finds
pub proof fn law_branch_version(branch: Seq<char>, major: nat, minor: nat)
    requires
        major <= u32::MAX,
        minor <= u32::MAX,
        ({
            let first = numbers::decimal_spec(major);
            let second = numbers::decimal_spec(minor);
            let pattern = attributes::DIGITS_PATTERN@;
            let empty = Seq::<char>::empty();
            &&& branch == "enterprise-"@ + (first + ("."@ + second))
            &&& docs::search_spec(pattern, first + ("."@ + second)) == Ok::<_, Seq<char>>(
                Some((empty, first, "."@ + second)),
            )
            &&& docs::search_spec(pattern, second) == Ok::<_, Seq<char>>(
                Some((empty, second, empty)),
            )
        }),
    ensures
        attributes::branch_version(branch) == Ok::<_, Seq<char>>(Some((major, minor))),
{
    let first = numbers::decimal_spec(major);
    let second = numbers::decimal_spec(minor);
    numbers::lemma_decimal(major);
    numbers::lemma_decimal(minor);
    lemma_behind("enterprise-"@, first + ("."@ + second));
    lemma_behind("."@, second);
    assert(attributes::run_number(first) == Some(major));
    assert(attributes::run_number(second) == Some(minor));
}

/// What is behind a prefix
proof fn lemma_behind(prefix: Seq<char>, rest: Seq<char>)
    ensures
        prefix.is_prefix_of(prefix + rest),
        text::without_prefix(prefix + rest, prefix) == Some(rest),
{
    assert((prefix + rest).take(prefix.len() as int) =~= prefix);
    assert((prefix + rest).skip(prefix.len() as int) =~= rest);
}

/// The product's attributes are its title and the version's numbers with a dot between
/// them, as far as they are known
pub proof fn law_product(title: Option<Seq<char>>, version: Option<(nat, nat)>, other: Seq<char>)
    requires
        other != "product-title"@,
        other != "product-version"@,
    ensures
        ({
            let found = attributes::product_entries(title, version);
            &&& maps::value_of(found, "product-title"@) == title
            &&& maps::value_of(found, "product-version"@) == match version {
                Some((major, minor)) => Some(
                    numbers::decimal_spec(major) + seq!['.'] + numbers::decimal_spec(minor),
                ),
                None => None,
            }
            &&& maps::value_of(found, other) is None
        }),
{
    let empty: Entries = Seq::empty();
    reveal_strlit(".");
    reveal_strlit("product-title");
    reveal_strlit("product-version");
    assert("product-title"@.len() != "product-version"@.len());
    assert("."@ =~= seq!['.']);
    markers::lemma_index_of(maps::entry_names(empty), other);
    markers::lemma_index_of(maps::entry_names(empty), "product-title"@);
    markers::lemma_index_of(maps::entry_names(empty), "product-version"@);
    let titled = match title {
        Some(value) => maps::with_value(empty, "product-title"@, value),
        None => empty,
    };
    if let Some(value) = title {
        maps::lemma_with_value(empty, "product-title"@, value, "product-version"@);
        maps::lemma_with_value(empty, "product-title"@, value, other);
    }
    if let Some((major, minor)) = version {
        let value = numbers::decimal_spec(major) + "."@ + numbers::decimal_spec(minor);
        maps::lemma_with_value(titled, "product-version"@, value, "product-title"@);
        maps::lemma_with_value(titled, "product-version"@, value, other);
    }
}

// ---------------------------------------------------------------------------
// Attribute entries
// ---------------------------------------------------------------------------

/// A line `:name:` with whitespace and a value after it is an entry of that value, where
/// the name is what the pattern finds
pub proof fn law_entry(line: Seq<char>, name: Seq<char>, space: Seq<char>, value: Seq<char>)
    requires
        text::is_blank(space),
        value.len() > 0 ==> !text::is_white(value[0]),
        line == ":"@ + (name + (":"@ + (space + value))),
        docs::search_spec(
            attributes::ATTRIBUTE_NAME_PATTERN@,
            name + (":"@ + (space + value)),
        ) == Ok::<_, Seq<char>>(Some((Seq::<char>::empty(), name, ":"@ + (space + value)))),
    ensures
        attributes::entry_spec(line) == Ok::<_, Seq<char>>(Some((name, value))),
{
    let rest = space + value;
    lemma_behind(":"@, name + (":"@ + rest));
    lemma_behind(":"@, rest);
    assert forall|i: int| 0 <= i < space.len() implies CharClass::White.has(rest[i]) by {
        assert(text::is_white(space[i]));
    }
    text::lemma_span_is(rest, CharClass::White, space.len() as int);
    assert(text::after_run(rest, CharClass::White) =~= value);
}

/// A line without a colon first is no entry
pub proof fn law_no_entry(line: Seq<char>)
    requires
        line.len() == 0 || line[0] != ':',
    ensures
        attributes::entry_spec(line) == Ok::<_, Seq<char>>(None::<(Seq<char>, Seq<char>)>),
{
    reveal_strlit(":");
    if ":"@.is_prefix_of(line) {
        assert(line.take(1)[0] == ':');
    }
}

/// Whether `name` is one of the names that commas and plus signs separate
pub open spec fn is_named(names: Seq<char>, name: Seq<char>) -> bool {
    exists|before: Seq<char>, after: Seq<char>| is_named_between(names, before, name, after)
}

/// Whether names are `name` with others before and after it
pub open spec fn is_named_between(
    names: Seq<char>,
    before: Seq<char>,
    name: Seq<char>,
    after: Seq<char>,
) -> bool {
    &&& names == before + name + after
    &&& before.len() > 0 ==> before.last() == ',' || before.last() == '+'
    &&& after.len() > 0 ==> after[0] == ',' || after[0] == '+'
    &&& !name.contains(',')
    &&& !name.contains('+')
}

/// Whether one of the names has a value
pub open spec fn one_has_a_value(names: Seq<char>, list: Entries) -> bool {
    exists|name: Seq<char>, i: int|
        #![trigger is_named(names, name), list[i]]
        is_named(names, name) && 0 <= i < list.len() && list[i].0 == name
}

/// The names in a condition
proof fn lemma_named(names: Seq<char>, name: Seq<char>)
    ensures
        is_named(names, name) <==> attributes::condition_names(names).contains(name),
{
    let commas = attributes::unplussed(names);
    let list = attributes::condition_names(names);
    if is_named(names, name) {
        let (before, after) = choose|before: Seq<char>, after: Seq<char>|
            is_named_between(names, before, name, after);
        let first = attributes::unplussed(before);
        let last = attributes::unplussed(after);
        assert forall|i: int| 0 <= i < name.len() implies name[i] != '+' by {
            assert(name.contains(name[i]));
        }
        assert(commas =~= first + name + last);
        text_laws::lemma_pieces_around(first, name, last, ',');
    }
    if list.contains(name) {
        let i = choose|i: int| 0 <= i < list.len() && list[i] == name;
        lines::lemma_split(commas, ',');
        let (first, last) = text_laws::lemma_piece(commas, ',', i);
        let n = first.len() as int;
        let before = names.take(n);
        let after = names.skip(n + name.len());
        assert(names.len() == commas.len());
        let middle = names.subrange(n, n + name.len());
        assert forall|k: int| 0 <= k < name.len() implies #[trigger] middle[k] == name[k] && name[k]
            != '+' && name[k] != ',' by {
            assert(name.contains(name[k]));
            assert(commas[n + k] == name[k]);
        }
        assert(middle =~= name);
        assert(names =~= before + name + after);
        if n > 0 {
            assert(commas[n - 1] == first.last());
        }
        if after.len() > 0 {
            assert(commas[n + name.len()] == last[0]);
        }
        assert(is_named_between(names, before, name, after));
    }
}

proof fn lemma_any_defined(names: Seq<char>, list: Entries)
    ensures
        attributes::any_defined(attributes::condition_names(names), list) <==> one_has_a_value(
            names,
            list,
        ),
{
    let pieces = attributes::condition_names(names);
    let keys = maps::entry_names(list);
    if attributes::any_defined(pieces, list) {
        let i = choose|i: int|
            0 <= i < pieces.len() && maps::value_of(list, #[trigger] pieces[i]) is Some;
        let name = pieces[i];
        assert(pieces.contains(name));
        lemma_named(names, name);
        markers::lemma_index_of(keys, name);
        let k = markers::index_of(keys, name)->0;
        assert(list[k].0 == name);
    }
    if one_has_a_value(names, list) {
        let (name, k) = choose|name: Seq<char>, k: int|
            #![trigger is_named(names, name), list[k]]
            is_named(names, name) && 0 <= k < list.len() && list[k].0 == name;
        lemma_named(names, name);
        let i = choose|i: int| 0 <= i < pieces.len() && pieces[i] == name;
        markers::lemma_index_of(keys, name);
        assert(keys[k] == name);
        assert(maps::value_of(list, pieces[i]) is Some);
    }
}

/// The lines of a conditional block: `open` up to `close`, with `body` between them and
/// no other directive there
pub open spec fn is_block(
    open: Seq<char>,
    body: Seq<Seq<char>>,
    close: Seq<char>,
    directive: Directive,
    names: Seq<char>,
) -> bool {
    &&& attributes::conditional_spec(open) == Ok::<_, Seq<char>>(Some((directive, names)))
    &&& directive != Directive::End
    &&& forall|i: int|
        0 <= i < body.len() ==> attributes::conditional_spec(#[trigger] body[i]) == Ok::<
            _,
            Seq<char>,
        >(None::<(Directive, Seq<char>)>)
    &&& attributes::conditional_spec(close) matches Ok(Some((Directive::End, _)))
}

/// Lines in a block whose condition doesn't hold
proof fn lemma_skipped(
    start: Entries,
    before: Seq<Seq<char>>,
    body: Seq<Seq<char>>,
    state: EntriesState,
)
    requires
        attributes::with_lines(start, before) == Ok::<_, Seq<char>>(state),
        !attributes::all_hold(state.conditions),
        forall|i: int|
            0 <= i < body.len() ==> attributes::conditional_spec(#[trigger] body[i]) == Ok::<
                _,
                Seq<char>,
            >(None::<(Directive, Seq<char>)>),
    ensures
        attributes::with_lines(start, before + body) == Ok::<_, Seq<char>>(state),
    decreases body.len(),
{
    let all = before + body;
    if body.len() == 0 {
        assert(all =~= before);
    } else {
        let shorter = body.drop_last();
        assert forall|i: int| 0 <= i < shorter.len() implies attributes::conditional_spec(
            #[trigger] shorter[i],
        ) == Ok::<_, Seq<char>>(None::<(Directive, Seq<char>)>) by {
            assert(shorter[i] == body[i]);
        }
        lemma_skipped(start, before, shorter, state);
        assert(all.drop_last() =~= before + shorter);
        assert(all.last() == body[body.len() - 1]);
    }
}

/// Whether two results are errors alike, or the second has one more condition that holds
spec fn one_more(
    first: Result<EntriesState, Seq<char>>,
    second: Result<EntriesState, Seq<char>>,
) -> bool {
    match (first, second) {
        (Ok(one), Ok(more)) => more.attributes == one.attributes && more.conditions
            == one.conditions.push(true),
        (Err(one), Err(more)) => one == more,
        _ => false,
    }
}

/// Lines in a block whose condition holds
proof fn lemma_counted(
    start: Entries,
    before: Seq<Seq<char>>,
    open: Seq<char>,
    body: Seq<Seq<char>>,
)
    requires
        one_more(
            attributes::with_lines(start, before),
            attributes::with_lines(start, before.push(open)),
        ),
        forall|i: int|
            0 <= i < body.len() ==> attributes::conditional_spec(#[trigger] body[i]) == Ok::<
                _,
                Seq<char>,
            >(None::<(Directive, Seq<char>)>),
    ensures
        one_more(
            attributes::with_lines(start, before + body),
            attributes::with_lines(start, before.push(open) + body),
        ),
    decreases body.len(),
{
    let first = before + body;
    let second = before.push(open) + body;
    if body.len() == 0 {
        assert(first =~= before);
        assert(second =~= before.push(open));
    } else {
        let shorter = body.drop_last();
        assert forall|i: int| 0 <= i < shorter.len() implies attributes::conditional_spec(
            #[trigger] shorter[i],
        ) == Ok::<_, Seq<char>>(None::<(Directive, Seq<char>)>) by {
            assert(shorter[i] == body[i]);
        }
        lemma_counted(start, before, open, shorter);
        assert(first.drop_last() =~= before + shorter);
        assert(second.drop_last() =~= before.push(open) + shorter);
        assert(first.last() == body[body.len() - 1]);
        assert(second.last() == body[body.len() - 1]);
        if let (Ok(one), Ok(more)) = (
            attributes::with_lines(start, before + shorter),
            attributes::with_lines(start, before.push(open) + shorter),
        ) {
            lemma_holding(one.conditions);
        }
    }
}

/// One more condition that holds
proof fn lemma_holding(conditions: Seq<bool>)
    ensures
        attributes::all_hold(conditions.push(true)) == attributes::all_hold(conditions),
{
    if attributes::all_hold(conditions.push(true)) {
        assert forall|i: int| 0 <= i < conditions.len() implies #[trigger] conditions[i] by {
            assert(conditions.push(true)[i]);
        }
    }
}

/// A conditional block whose condition doesn't hold changes nothing. One whose condition
/// holds changes what its lines would without the directives around them. An `ifdef`
/// holds when one of its names has a value by then, an `ifndef` when none has
pub proof fn law_conditional_block(
    start: Entries,
    before: Seq<Seq<char>>,
    open: Seq<char>,
    body: Seq<Seq<char>>,
    close: Seq<char>,
    directive: Directive,
    names: Seq<char>,
)
    requires
        is_block(open, body, close, directive, names),
        attributes::with_lines(start, before) is Ok,
    ensures
        ({
            let state = attributes::with_lines(start, before)->Ok_0;
            let wanted = directive == Directive::IfDefined;
            let all = before.push(open) + body.push(close);
            attributes::with_lines(start, all) == attributes::with_lines(
                start,
                if one_has_a_value(names, state.attributes) == wanted {
                    before + body
                } else {
                    before
                },
            )
        }),
{
    let state = attributes::with_lines(start, before)->Ok_0;
    let wanted = directive == Directive::IfDefined;
    let opened = before.push(open);
    let all = opened + body.push(close);
    lemma_any_defined(names, state.attributes);
    assert(opened.drop_last() =~= before);
    assert(all.drop_last() =~= opened + body);
    assert(all.last() == close);
    let inner = attributes::with_lines(start, opened)->Ok_0;
    if one_has_a_value(names, state.attributes) == wanted {
        lemma_counted(start, before, open, body);
        if let (Ok(one), Ok(more)) = (
            attributes::with_lines(start, before + body),
            attributes::with_lines(start, opened + body),
        ) {
            assert(more.conditions.drop_last() =~= one.conditions);
        }
    } else {
        assert(!inner.conditions[inner.conditions.len() - 1]);
        lemma_skipped(start, opened, body, inner);
        assert(inner.conditions.drop_last() =~= state.conditions);
    }
}

/// An entry outside of conditional blocks is the value of its name from then on, and
/// changes no other
pub proof fn law_entry_counts(
    start: Entries,
    before: Seq<Seq<char>>,
    line: Seq<char>,
    name: Seq<char>,
    value: Seq<char>,
    other: Seq<char>,
)
    requires
        attributes::with_lines(start, before) matches Ok(state) && state.conditions.len() == 0
            && markers::in_order(maps::entry_names(state.attributes)),
        attributes::conditional_spec(line) == Ok::<_, Seq<char>>(None::<(Directive, Seq<char>)>),
        attributes::entry_spec(line) == Ok::<_, Seq<char>>(Some((name, value))),
        other != name,
    ensures
        attributes::with_lines(start, before.push(line)) matches Ok(after) && {
            &&& after.conditions.len() == 0
            &&& maps::value_of(after.attributes, name) == Some(value)
            &&& maps::value_of(after.attributes, other) == maps::value_of(
                attributes::with_lines(start, before)->Ok_0.attributes,
                other,
            )
        },
{
    let state = attributes::with_lines(start, before)->Ok_0;
    assert(before.push(line).drop_last() =~= before);
    maps::lemma_with_value(state.attributes, name, value, other);
}

// ---------------------------------------------------------------------------
// An assembly's header
// ---------------------------------------------------------------------------

/// Whether a line takes a module into an assembly
pub open spec fn takes_in_a_module(line: Seq<char>) -> bool {
    "include::modules/"@.is_prefix_of(line)
}

/// The header of an assembly is all lines before the first that takes a module in
pub proof fn law_header(list: Seq<Seq<char>>)
    ensures
        ({
            let header = attributes::header_lines(list);
            let n = header.len() as int;
            &&& n <= list.len()
            &&& header == list.take(n)
            &&& forall|i: int| 0 <= i < n ==> !takes_in_a_module(#[trigger] list[i])
            &&& n < list.len() ==> takes_in_a_module(list[n])
        }),
    decreases list.len(),
{
    let header = attributes::header_lines(list);
    if list.len() > 0 && !takes_in_a_module(list[0]) {
        let rest = list.drop_first();
        law_header(rest);
        let n = header.len() as int;
        assert(header =~= list.take(n));
        assert forall|i: int| 0 <= i < n implies !takes_in_a_module(#[trigger] list[i]) by {
            if i > 0 {
                assert(list[i] == rest[i - 1]);
            }
        }
        if n < list.len() {
            assert(list[n] == rest[n - 1]);
        }
    } else {
        assert(header =~= list.take(0));
    }
}

/// A line that takes in a file of attributes: the file is what is before the bracket
pub proof fn law_attribute_file(file: Seq<char>, rest: Seq<char>)
    requires
        !file.contains('['),
    ensures
        attributes::attribute_file_spec("include::"@ + (file.push('[') + rest))
            == if "_attributes/"@.is_prefix_of(file) {
            Some(file)
        } else {
            None
        },
{
    lemma_behind("include::"@, file.push('[') + rest);
    lines::lemma_split_concat(file, '[', rest);
    lines::lemma_split_single(file, '[');
}

/// The attribute files of lines are those of the lines before some place, and then those
/// of the lines after it; those of one line are the file it takes in
pub proof fn law_attribute_files(first: Seq<Seq<char>>, second: Seq<Seq<char>>, line: Seq<char>)
    ensures
        attributes::files_in(first + second) == attributes::files_in(first)
            + attributes::files_in(second),
        attributes::files_in(seq![line]) == match attributes::attribute_file_spec(line) {
            Some(file) => seq![file],
            None => Seq::empty(),
        },
    decreases second.len(),
{
    let empty = Seq::<Seq<char>>::empty();
    assert(seq![line].drop_last() =~= empty);
    assert(attributes::files_in(empty) =~= empty);
    assert(attributes::files_in(seq![line]) =~= match attributes::attribute_file_spec(line) {
        Some(file) => seq![file],
        None => Seq::empty(),
    });
    let all = first + second;
    if second.len() == 0 {
        assert(all =~= first);
        assert(attributes::files_in(all) =~= attributes::files_in(first) + empty);
    } else {
        law_attribute_files(first, second.drop_last(), line);
        assert(all.drop_last() =~= first + second.drop_last());
        assert(attributes::files_in(all) =~= attributes::files_in(first) + attributes::files_in(
            second,
        ));
    }
}

// ---------------------------------------------------------------------------
// References
// ---------------------------------------------------------------------------

/// The runs of name characters after a place are those of the text after it
proof fn lemma_runs_after(s: Seq<char>, from: int, count: int)
    requires
        0 <= from <= count <= s.len(),
        attributes::runs_spec(s, count) is Ok,
    ensures
        attributes::runs_spec(s.skip(from), count - from) == Ok::<_, Seq<char>>(
            attributes::runs_spec(s, count)->Ok_0.skip(from),
        ),
        attributes::runs_spec(s, count)->Ok_0.len() == count,
    decreases count,
{
    lemma_run_count(s, count);
    let runs = attributes::runs_spec(s, count)->Ok_0;
    if count == from {
        assert(runs.skip(from) =~= Seq::empty());
    } else {
        lemma_runs_after(s, from, count - 1);
        lemma_run_count(s, count - 1);
        let before = attributes::runs_spec(s, count - 1)->Ok_0;
        let part = s.skip(from);
        assert(part[count - from - 1] == s[count - 1]);
        assert(part.skip(count - from) =~= s.skip(count));
        assert(runs.skip(from) =~= before.skip(from).push(runs[count - 1]));
    }
}

proof fn lemma_run_count(s: Seq<char>, count: int)
    requires
        0 <= count,
        attributes::runs_spec(s, count) is Ok,
    ensures
        attributes::runs_spec(s, count)->Ok_0.len() == count,
    decreases count,
{
    if count > 0 {
        lemma_run_count(s, count - 1);
    }
}

/// The run after a brace
proof fn lemma_run_at(s: Seq<char>, count: int, i: int)
    requires
        0 <= i < count <= s.len(),
        attributes::runs_spec(s, count) is Ok,
        s[i] == '{',
    ensures
        attributes::name_run(s.skip(i + 1)) == Ok::<_, Seq<char>>(
            attributes::runs_spec(s, count)->Ok_0[i],
        ),
    decreases count,
{
    lemma_run_count(s, count - 1);
    if i < count - 1 {
        lemma_run_at(s, count - 1, i);
    }
}

/// Replacing references from a place on is replacing those of the text after it
proof fn lemma_resolved_after(
    s: Seq<char>,
    runs: Seq<nat>,
    list: Entries,
    from: int,
    i: int,
)
    requires
        0 <= from <= i <= s.len(),
        runs.len() == s.len(),
    ensures
        attributes::resolved_from(s, runs, list, i) == attributes::resolved_from(
            s.skip(from),
            runs.skip(from),
            list,
            i - from,
        ),
    decreases s.len() - i,
{
    if i < s.len() {
        let end = i + 1 + runs[i];
        let part = s.skip(from);
        assert(part[i - from] == s[i]);
        assert(runs.skip(from)[i - from] == runs[i]);
        if s[i] == '{' && runs[i] > 0 && end < s.len() && s[end] == '}' {
            assert(part[end - from] == s[end]);
            assert(part.subrange(i - from, end - from + 1) =~= s.subrange(i, end + 1));
            assert(part.subrange(i - from + 1, end - from) =~= s.subrange(i + 1, end));
            lemma_resolved_after(s, runs, list, from, end + 1);
        } else {
            lemma_resolved_after(s, runs, list, from, i + 1);
        }
    }
}

/// A value without a brace stays as it is
pub proof fn law_value_without_references(value: Seq<char>, list: Entries)
    requires
        !value.contains('{'),
    ensures
        attributes::resolve_value(value, list) == Ok::<_, Seq<char>>(value),
{
    lemma_no_runs(value, value.len() as int);
    let runs = attributes::runs_spec(value, value.len() as int)->Ok_0;
    lemma_run_count(value, value.len() as int);
    lemma_plain_up_to(value, runs, list, 0, value.len() as int);
    assert(value.subrange(0, value.len() as int) =~= value);
    assert(value + Seq::<char>::empty() =~= value);
}

proof fn lemma_no_runs(s: Seq<char>, count: int)
    requires
        0 <= count <= s.len(),
        !s.contains('{'),
    ensures
        attributes::runs_spec(s, count) is Ok,
    decreases count,
{
    if count > 0 {
        lemma_no_runs(s, count - 1);
        assert(s.contains(s[count - 1]));
    }
}

/// What is before the first brace stays as it is
proof fn lemma_plain_up_to(s: Seq<char>, runs: Seq<nat>, list: Entries, i: int, stop: int)
    requires
        0 <= i <= stop <= s.len(),
        forall|k: int| i <= k < stop ==> #[trigger] s[k] != '{',
    ensures
        attributes::resolved_from(s, runs, list, i) == s.subrange(i, stop)
            + attributes::resolved_from(s, runs, list, stop),
    decreases stop - i,
{
    let last = attributes::resolved_from(s, runs, list, stop);
    if i < stop {
        lemma_plain_up_to(s, runs, list, i + 1, stop);
        assert(seq![s[i]] + (s.subrange(i + 1, stop) + last) =~= s.subrange(i, stop) + last);
    } else {
        assert(s.subrange(i, stop) + last =~= last);
    }
}

/// A reference `{name}` is replaced by the value of that name, where the name is what
/// the pattern finds after the brace. What is around it stays, but for the references in
/// what follows
pub proof fn law_reference(
    before: Seq<char>,
    name: Seq<char>,
    rest: Seq<char>,
    list: Entries,
    i: int,
)
    requires
        !before.contains('{'),
        name.len() > 0,
        attributes::name_run(name + ("}"@ + rest)) == Ok::<_, Seq<char>>(name.len()),
        0 <= i < list.len(),
        list[i].0 == name,
        forall|k: int| 0 <= k < i ==> (#[trigger] list[k]).0 != name,
        attributes::resolve_value(before + ("{"@ + (name + ("}"@ + rest))), list) is Ok,
        attributes::resolve_value(rest, list) is Ok,
    ensures
        attributes::resolve_value(before + ("{"@ + (name + ("}"@ + rest))), list) == Ok::<
            _,
            Seq<char>,
        >(before + list[i].1 + attributes::resolve_value(rest, list)->Ok_0),
{
    reveal_strlit("{");
    reveal_strlit("}");
    let s = before + ("{"@ + (name + ("}"@ + rest)));
    let count = s.len() as int;
    let runs = attributes::runs_spec(s, count)->Ok_0;
    let n = before.len() as int;
    let end = n + 1 + name.len();
    lemma_run_count(s, count);
    assert(s[n] == '{');
    assert(s[end] == '}');
    assert(s.skip(n + 1) =~= name + ("}"@ + rest));
    lemma_run_at(s, count, n);
    assert(s.subrange(n + 1, end) =~= name);
    assert forall|k: int| 0 <= k < n implies #[trigger] s[k] != '{' by {
        assert(before.contains(before[k]));
    }
    lemma_plain_up_to(s, runs, list, 0, n);
    assert(s.subrange(0, n) =~= before);
    let keys = maps::entry_names(list);
    assert forall|k: int| 0 <= k < i implies keys[k] != name by {
        assert(list[k].0 != name);
    }
    markers::lemma_index_of_is(keys, name, i);
    assert(s.skip(end + 1) =~= rest);
    lemma_runs_after(s, end + 1, count);
    lemma_resolved_after(s, runs, list, end + 1, end + 1);
    let done = attributes::resolve_value(rest, list)->Ok_0;
    assert(before + (list[i].1 + done) =~= before + list[i].1 + done);
}

// ---------------------------------------------------------------------------
// What is rendered with
// ---------------------------------------------------------------------------

/// Whether an attribute makes sense for a module on its own
pub open spec fn stands_alone(entry: (Seq<char>, Seq<char>)) -> bool {
    !seq![
        "data-uri"@,
        "icons"@,
        "imagesdir"@,
        "toc"@,
        "toc-title"@,
        "experimental"@,
    ].contains(entry.0)
}

/// A module is rendered with all attributes but those about the page around it
pub proof fn law_standalone(list: Entries)
    ensures
        attributes::standalone(list) == list.filter(
            |entry: (Seq<char>, Seq<char>)| stands_alone(entry),
        ),
    decreases list.len(),
{
    reveal(Seq::filter);
    let kept = |entry: (Seq<char>, Seq<char>)| stands_alone(entry);
    if list.len() > 0 {
        law_standalone(list.drop_last());
        let names = seq![
            "data-uri"@,
            "icons"@,
            "imagesdir"@,
            "toc"@,
            "toc-title"@,
            "experimental"@,
        ];
        let name = list.last().0;
        if attributes::is_presentation(name) {
            assert(names[0] == name || names[1] == name || names[2] == name || names[3] == name
                || names[4] == name || names[5] == name);
            assert(names.contains(name));
        }
    }
}

/// Whether each name has what a pass makes of its value, and no other name has any
spec fn passed(before: Entries, count: int, after: Entries) -> bool {
    &&& markers::in_order(maps::entry_names(after))
    &&& forall|k: int|
        0 <= k < count ==> maps::value_of(after, (#[trigger] before[k]).0) is Some
            && attributes::resolve_value(before[k].1, before) == Ok::<_, Seq<char>>(
            maps::value_of(after, before[k].0)->0,
        )
    &&& forall|name: Seq<char>| #[trigger]
        maps::value_of(after, name) is Some ==> exists|k: int|
            0 <= k < count && (#[trigger] before[k]).0 == name
}

proof fn lemma_pass(before: Entries, count: int)
    requires
        0 <= count <= before.len(),
        maps::entry_names(before).no_duplicates(),
        attributes::resolve_first(before, count) is Ok,
    ensures
        passed(before, count, attributes::resolve_first(before, count)->Ok_0),
    decreases count,
{
    let after = attributes::resolve_first(before, count)->Ok_0;
    if count == 0 {
        assert forall|name: Seq<char>| #[trigger] maps::value_of(after, name) is None by {
            markers::lemma_index_of(maps::entry_names(after), name);
        }
    } else {
        lemma_pass(before, count - 1);
        let done = attributes::resolve_first(before, count - 1)->Ok_0;
        let name = before[count - 1].0;
        let value = attributes::resolve_value(before[count - 1].1, before)->Ok_0;
        let names = maps::entry_names(before);
        maps::lemma_with_value(done, name, value, name);
        assert forall|k: int| 0 <= k < count implies maps::value_of(
            after,
            (#[trigger] before[k]).0,
        ) is Some && attributes::resolve_value(before[k].1, before) == Ok::<_, Seq<char>>(
            maps::value_of(after, before[k].0)->0,
        ) by {
            if k < count - 1 {
                assert(names[k] != names[count - 1]);
                maps::lemma_with_value(done, name, value, before[k].0);
            }
        }
        assert forall|other: Seq<char>| #[trigger]
            maps::value_of(after, other) is Some implies exists|k: int|
            0 <= k < count && (#[trigger] before[k]).0 == other by {
            if other == name {
                assert(before[count - 1].0 == other);
            } else {
                maps::lemma_with_value(done, name, value, other);
                let k = choose|k: int| 0 <= k < count - 1 && (#[trigger] before[k]).0 == other;
                assert(before[k].0 == other);
            }
        }
    }
}

/// Resolving references once gives each attribute its value with the references in it
/// replaced by what they were before, and adds or drops none
pub proof fn law_resolved_once(list: Entries)
    requires
        maps::entry_names(list).no_duplicates(),
        attributes::resolve_spec(list, 1) is Ok,
    ensures
        ({
            let after = attributes::resolve_spec(list, 1)->Ok_0;
            &&& forall|k: int|
                0 <= k < list.len() ==> maps::value_of(after, (#[trigger] list[k]).0) is Some
                    && attributes::resolve_value(list[k].1, list) == Ok::<_, Seq<char>>(
                    maps::value_of(after, list[k].0)->0,
                )
            &&& forall|name: Seq<char>| #[trigger]
                maps::value_of(after, name) is Some ==> exists|k: int|
                    0 <= k < list.len() && (#[trigger] list[k]).0 == name
        }),
{
    assert(attributes::resolve_spec(list, 0) == Ok::<_, Seq<char>>(list));
    lemma_pass(list, list.len() as int);
}

/// Resolving references several times is resolving them once more after all but the last
pub proof fn law_resolved_again(list: Entries, passes: nat)
    requires
        attributes::resolve_spec(list, passes) is Ok,
    ensures
        attributes::resolve_spec(list, passes + 1) == attributes::resolve_spec(
            attributes::resolve_spec(list, passes)->Ok_0,
            1,
        ),
{
    let once = attributes::resolve_spec(list, passes)->Ok_0;
    assert(attributes::resolve_spec(once, 0) == Ok::<_, Seq<char>>(once));
}

/// A line of an assembly's header that takes in a file of attributes changes what the
/// lines of that file would
pub proof fn law_header_file(
    assembly: Seq<char>,
    files: Entries,
    list: Entries,
    file: Seq<char>,
    rest: Seq<char>,
)
    requires
        !file.contains('['),
        "_attributes/"@.is_prefix_of(file),
        maps::value_of(files, file) is Some,
    ensures
        match attributes::with_lines(list, lines::lines_of(maps::value_of(files, file)->0)) {
            Ok(state) => attributes::with_header_line(
                assembly,
                files,
                list,
                "include::"@ + (file.push('[') + rest),
            ) == Ok::<_, Seq<char>>(state.attributes),
            Err(_) => attributes::with_header_line(
                assembly,
                files,
                list,
                "include::"@ + (file.push('[') + rest),
            ) is Err,
        },
{
    law_attribute_file(file, rest);
    lemma_behind("include::"@, file.push('[') + rest);
}

/// A line of an assembly's header that takes in nothing and is no entry changes nothing
pub proof fn law_header_line(
    assembly: Seq<char>,
    files: Entries,
    list: Entries,
    line: Seq<char>,
)
    requires
        line.len() == 0 || (line[0] != ':' && line[0] != 'i'),
    ensures
        attributes::with_header_line(assembly, files, list, line) == Ok::<_, Seq<char>>(list),
{
    reveal_strlit("include::");
    if "include::"@.is_prefix_of(line) {
        assert(line.take("include::"@.len() as int)[0] == 'i');
    }
    law_no_entry(line);
}

/// The lines of an assembly's header count one after the other
pub proof fn law_header_in_order(
    assembly: Seq<char>,
    files: Entries,
    list: Entries,
    before: Seq<Seq<char>>,
    line: Seq<char>,
)
    requires
        attributes::with_header(assembly, files, list, before) is Ok,
    ensures
        attributes::with_header(assembly, files, list, before.push(line))
            == attributes::with_header_line(
            assembly,
            files,
            attributes::with_header(assembly, files, list, before)->Ok_0,
            line,
        ),
        attributes::with_header(assembly, files, list, Seq::empty()) == Ok::<_, Seq<char>>(list),
{
    assert(before.push(line).drop_last() =~= before);
}

/// A module is rendered with the product's attributes, the distro's name, and what the
/// header of its assembly adds, resolved five times
pub proof fn law_assembly_attributes(
    distro_map: Option<Seq<char>>,
    assembly: Seq<char>,
    s: Seq<char>,
    files: Entries,
)
    requires
        attributes::assembly_attributes_spec(distro_map, assembly, s, files) is Ok,
    ensures
        attributes::distro_spec(distro_map) matches Ok(product) && ({
            let start = maps::with_value(product, "openshift-enterprise"@, Seq::empty());
            attributes::with_header(
                assembly,
                files,
                start,
                attributes::header_lines(lines::lines_of(s)),
            ) matches Ok(added) && attributes::resolve_spec(
                added.filter(|entry: (Seq<char>, Seq<char>)| stands_alone(entry)),
                5,
            ) == Ok::<_, Seq<char>>(
                attributes::assembly_attributes_spec(distro_map, assembly, s, files)->Ok_0,
            )
        }),
        distro_map is None ==> attributes::distro_spec(distro_map) == Ok::<_, Seq<char>>(
            Seq::<(Seq<char>, Seq<char>)>::empty(),
        ),
{
    let product = attributes::distro_spec(distro_map)->Ok_0;
    let start = maps::with_value(product, "openshift-enterprise"@, Seq::empty());
    let added = attributes::with_header(
        assembly,
        files,
        start,
        attributes::header_lines(lines::lines_of(s)),
    )->Ok_0;
    law_standalone(added);
}

} // verus!
