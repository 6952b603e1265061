//! What each option does to the lines of some code.

use crate::apply;
use crate::apply::MisfitModel;
use crate::bytes;
use crate::engines;
use crate::lines;
use crate::options::OptionModel;
use crate::options::OptionSide;
use crate::options::ValueModel;
use crate::text;
use crate::text::CharClass;
use vstd::prelude::*;

verus! {

/// Lines as a text, with a line end after the last one or without
pub open spec fn text_of(list: Seq<Seq<char>>, ended: bool) -> Seq<char> {
    lines::join(list, seq!['\n']) + (if ended {
        seq!['\n']
    } else {
        Seq::empty()
    })
}

/// Whether lines are those of a text: there are some, none holds a line end, and an empty
/// last line doesn't make up for a missing line end
pub open spec fn are_lines(list: Seq<Seq<char>>, ended: bool) -> bool {
    &&& list.len() > 0
    &&& forall|i: int| 0 <= i < list.len() ==> !(#[trigger] list[i]).contains('\n')
    &&& ended || list.len() == 1 || list.last().len() > 0
}

/// An option with a text value
pub open spec fn with_text(key: Seq<char>, value: Seq<char>, side: OptionSide) -> OptionModel {
    OptionModel { key, value: Some(ValueModel::Text(value)), side }
}

proof fn lemma_keys()
    ensures
        "remove-prefix"@ != "remove-suffix"@,
        "strip-line-prefix"@ != "remove-prefix"@,
        "strip-line-prefix"@ != "remove-suffix"@,
        "remove-lines-starting-with"@ != "remove-prefix"@,
        "remove-lines-starting-with"@ != "remove-suffix"@,
        "remove-lines-starting-with"@ != "strip-line-prefix"@,
        "remove-blank-lines"@ != "remove-prefix"@,
        "remove-blank-lines"@ != "remove-suffix"@,
        "remove-blank-lines"@ != "strip-line-prefix"@,
        "remove-blank-lines"@ != "remove-lines-starting-with"@,
        "unindent-common"@ != "remove-prefix"@,
        "unindent-common"@ != "remove-suffix"@,
        "unindent-common"@ != "strip-line-prefix"@,
        "unindent-common"@ != "remove-lines-starting-with"@,
        "unindent-common"@ != "remove-blank-lines"@,
        "reindent"@ != "remove-prefix"@,
        "reindent"@ != "remove-suffix"@,
        "reindent"@ != "strip-line-prefix"@,
        "reindent"@ != "remove-lines-starting-with"@,
        "reindent"@ != "remove-blank-lines"@,
        "reindent"@ != "unindent-common"@,
        "param"@ != "remove-prefix"@,
        "param"@ != "remove-suffix"@,
        "param"@ != "strip-line-prefix"@,
        "param"@ != "remove-lines-starting-with"@,
        "param"@ != "remove-blank-lines"@,
        "param"@ != "unindent-common"@,
        "param"@ != "reindent"@,
{
    reveal_strlit("remove-prefix");
    reveal_strlit("remove-suffix");
    reveal_strlit("strip-line-prefix");
    reveal_strlit("remove-lines-starting-with");
    reveal_strlit("remove-blank-lines");
    reveal_strlit("unindent-common");
    reveal_strlit("reindent");
    reveal_strlit("param");
    assert("remove-prefix"@.len() == 13);
    assert("remove-suffix"@.len() == 13);
    assert("strip-line-prefix"@.len() == 17);
    assert("remove-lines-starting-with"@.len() == 26);
    assert("remove-blank-lines"@.len() == 18);
    assert("unindent-common"@.len() == 15);
    assert("reindent"@.len() == 8);
    assert("param"@.len() == 5);
    assert("remove-prefix"@[7] == 'p');
    assert("remove-suffix"@[7] == 's');
}

/// The lines of a text are those that options work on
proof fn lemma_text(list: Seq<Seq<char>>, ended: bool)
    requires
        are_lines(list, ended),
    ensures
        lines::split(apply::without_newline(text_of(list, ended)), '\n') == list,
        apply::ending_newline(text_of(list, ended)) == (if ended {
            seq!['\n']
        } else {
            Seq::empty()
        }),
        "\n"@ == seq!['\n'],
{
    let s = text_of(list, ended);
    let sep = seq!['\n'];
    reveal_strlit("\n");
    assert("\n"@ =~= sep);
    lines::lemma_split_join(list, '\n');
    if ended {
        assert(s.last() == '\n');
        assert(s.drop_last() =~= lines::join(list, sep));
    } else {
        assert(s =~= lines::join(list, sep));
        if list.len() > 1 {
            assert(s.last() == list.last().last());
            assert(list.last().contains(list.last().last()));
        } else if s.len() > 0 {
            assert(s == list[0]);
            assert(s.contains(s.last()));
        }
        assert(apply::without_newline(s) == s);
    }
}

/// Options apply to the lines of a text, which is ended afterwards as it was before
pub proof fn law_options_apply_to_lines(
    list: Seq<Seq<char>>,
    ended: bool,
    applied: Seq<OptionModel>,
)
    requires
        are_lines(list, ended),
    ensures
        apply::apply_options_spec(text_of(list, ended), applied) == match apply::apply_all(
            list,
            applied,
        ) {
            Ok(next) => Ok::<_, MisfitModel>(text_of(next, ended)),
            Err(misfit) => Err(misfit),
        },
{
    lemma_text(list, ended);
}

/// One option on the lines of a text
proof fn lemma_one(list: Seq<Seq<char>>, ended: bool, option: OptionModel)
    requires
        are_lines(list, ended),
    ensures
        apply::apply_options_spec(text_of(list, ended), seq![option])
            == match apply::apply_option_spec(list, option) {
            Ok(next) => Ok::<_, MisfitModel>(text_of(next, ended)),
            Err(misfit) => Err(misfit),
        },
{
    law_options_apply_to_lines(list, ended, seq![option]);
    let applied = seq![option];
    assert(applied.drop_first() =~= Seq::<OptionModel>::empty());
    if let Ok(next) = apply::apply_option_spec(list, option) {
        assert(apply::apply_all(next, applied.drop_first()) == Ok::<_, MisfitModel>(next));
    }
}

/// Without options a text stays as it is
pub proof fn law_no_options(s: Seq<char>)
    ensures
        apply::apply_options_spec(s, Seq::empty()) == Ok::<_, MisfitModel>(s),
{
}

// ---------------------------------------------------------------------------
// Indentation
// ---------------------------------------------------------------------------

/// A line: `steps` times `step` spaces and `extra` more, and then `rest`
pub open spec fn indented(steps: nat, step: nat, extra: nat, rest: Seq<char>) -> Seq<char> {
    Seq::new(steps * step + extra, |i: int| ' ') + rest
}

/// `reindent` turns each `from` spaces that a line starts with into `to`, and keeps what
/// is left over of them and the rest of the line
pub proof fn law_reindent(
    steps: Seq<nat>,
    extra: Seq<nat>,
    rest: Seq<Seq<char>>,
    from: nat,
    to: nat,
    side: OptionSide,
    ended: bool,
)
    requires
        steps.len() == rest.len(),
        extra.len() == rest.len(),
        forall|i: int| 0 <= i < rest.len() ==> #[trigger] extra[i] < from,
        forall|i: int|
            0 <= i < rest.len() ==> ((#[trigger] rest[i]).len() > 0 ==> rest[i][0] != ' '),
        are_lines(
            Seq::new(rest.len(), |i: int| indented(steps[i], from, extra[i], rest[i])),
            ended,
        ),
    ensures
        apply::apply_options_spec(
            text_of(
                Seq::new(rest.len(), |i: int| indented(steps[i], from, extra[i], rest[i])),
                ended,
            ),
            seq![
                OptionModel {
                    key: "reindent"@,
                    value: Some(ValueModel::Reindent { from, to }),
                    side,
                },
            ],
        ) == Ok::<_, MisfitModel>(
            text_of(
                Seq::new(rest.len(), |i: int| indented(steps[i], to, extra[i], rest[i])),
                ended,
            ),
        ),
{
    let list = Seq::new(rest.len(), |i: int| indented(steps[i], from, extra[i], rest[i]));
    let next = Seq::new(rest.len(), |i: int| indented(steps[i], to, extra[i], rest[i]));
    let option = OptionModel {
        key: "reindent"@,
        value: Some(ValueModel::Reindent { from, to }),
        side,
    };
    lemma_one(list, ended, option);
    lemma_keys();
    assert(extra[0] < from);
    let made = Seq::new(list.len(), |i: int| apply::reindented(list[i], from, to));
    assert forall|i: int| 0 <= i < rest.len() implies made[i] == next[i] by {
        let width = steps[i] * from + extra[i];
        assert(extra[i] < from);
        assert(steps[i] * from >= 0) by (nonlinear_arith);
        let line = list[i];
        assert(rest[i].len() > 0 ==> rest[i][0] != ' ');
        assert(width < line.len() ==> line[width as int] == rest[i][0]);
        text::lemma_span_is(line, CharClass::Space, width as int);
        assert(line.skip(width as int) =~= rest[i]);
        vstd::arithmetic::div_mod::lemma_fundamental_div_mod_converse(
            width as int,
            from as int,
            steps[i] as int,
            extra[i] as int,
        );
        assert(width == from * steps[i] + extra[i]) by (nonlinear_arith)
            requires
                width == steps[i] * from + extra[i],
        ;
        assert(made[i] =~= next[i]);
    }
    assert(made =~= next);
}

/// `unindent-common` removes the indentation that the lines share: where each line is
/// empty or starts with the same whitespace, and some line goes on with something else
/// right after it, that whitespace goes and all else stays
pub proof fn law_unindent_common(
    indent: Seq<char>,
    rest: Seq<Seq<char>>,
    is_empty: Seq<bool>,
    at: int,
    side: OptionSide,
    ended: bool,
)
    requires
        forall|i: int| 0 <= i < indent.len() ==> text::is_white(#[trigger] indent[i]),
        is_empty.len() == rest.len(),
        0 <= at < rest.len(),
        !is_empty[at] && rest[at].len() > 0 && !text::is_white(rest[at][0]),
        are_lines(
            Seq::new(
                rest.len(),
                |i: int|
                    if is_empty[i] {
                        Seq::empty()
                    } else {
                        indent + rest[i]
                    },
            ),
            ended,
        ),
    ensures
        apply::apply_options_spec(
            text_of(
                Seq::new(
                    rest.len(),
                    |i: int|
                        if is_empty[i] {
                            Seq::empty()
                        } else {
                            indent + rest[i]
                        },
                ),
                ended,
            ),
            seq![OptionModel { key: "unindent-common"@, value: None, side }],
        ) == Ok::<_, MisfitModel>(
            text_of(
                Seq::new(
                    rest.len(),
                    |i: int|
                        if is_empty[i] {
                            Seq::empty()
                        } else {
                            rest[i]
                        },
                ),
                ended,
            ),
        ),
{
    let list = Seq::new(
        rest.len(),
        |i: int|
            if is_empty[i] {
                Seq::empty()
            } else {
                indent + rest[i]
            },
    );
    let next = Seq::new(
        rest.len(),
        |i: int|
            if is_empty[i] {
                Seq::empty()
            } else {
                rest[i]
            },
    );
    let width = bytes::byte_len(indent);
    lemma_one(list, ended, OptionModel { key: "unindent-common"@, value: None, side });
    lemma_keys();
    assert forall|i: int| 0 <= i < list.len() && !text::is_blank(#[trigger] list[i]) implies width
        <= apply::indentation(list[i]) by {
        lemma_indentation(indent, rest[i]);
    }
    lemma_indentation(indent, rest[at]);
    assert(apply::indentation(list[at]) == width) by {
        text::lemma_span_is(list[at], CharClass::White, indent.len() as int);
        assert(list[at].take(indent.len() as int) =~= indent);
    }
    assert(!text::is_blank(list[at])) by {
        assert(list[at][indent.len() as int] == rest[at][0]);
    }
    lemma_least(list, width, at);
    assert forall|i: int| 0 <= i < list.len() implies apply::unindented(
        #[trigger] list[i],
        width,
    ) == Ok::<_, Seq<char>>(next[i]) by {
        if is_empty[i] {
            let line = list[i];
            text::lemma_span(line, CharClass::White);
            assert(line.take(0) =~= Seq::empty());
            bytes::lemma_char_index(line, 0);
            assert(line.skip(0) =~= Seq::empty());
            assert(bytes::byte_len(Seq::<char>::empty()) == 0) by {
                bytes::lemma_byte_len_concat(Seq::empty(), Seq::empty());
                assert(Seq::<char>::empty() + Seq::<char>::empty() =~= Seq::<char>::empty());
            }
        } else {
            lemma_indentation(indent, rest[i]);
            bytes::lemma_boundary_concat(indent, rest[i]);
        }
    }
    lemma_all_unindented(list, next, width);
}

proof fn lemma_indentation(indent: Seq<char>, rest: Seq<char>)
    requires
        forall|i: int| 0 <= i < indent.len() ==> text::is_white(#[trigger] indent[i]),
    ensures
        bytes::byte_len(indent) <= apply::indentation(indent + rest),
{
    let line = indent + rest;
    let n = text::span(line, CharClass::White) as int;
    text::lemma_span(line, CharClass::White);
    if n < indent.len() {
        assert(line[n] == indent[n]);
    }
    assert(line.take(indent.len() as int) =~= indent);
    bytes::lemma_byte_len_take(line, indent.len() as int, n);
}

proof fn lemma_least(list: Seq<Seq<char>>, width: nat, at: int)
    requires
        0 <= at < list.len(),
        !text::is_blank(list[at]),
        apply::indentation(list[at]) == width,
        forall|i: int|
            0 <= i < list.len() && !text::is_blank(#[trigger] list[i]) ==> width
                <= apply::indentation(list[i]),
    ensures
        apply::least_indentation(list) == Some(width),
    decreases list.len(),
{
    let head = list.drop_last();
    assert forall|i: int| 0 <= i < head.len() && !text::is_blank(#[trigger] head[i]) implies width
        <= apply::indentation(head[i]) by {
        assert(head[i] == list[i]);
    }
    assert(list.last() == list[list.len() - 1]);
    if at < head.len() {
        lemma_least(head, width, at);
    } else {
        lemma_at_least(head, width);
    }
}

proof fn lemma_at_least(list: Seq<Seq<char>>, width: nat)
    requires
        forall|i: int|
            0 <= i < list.len() && !text::is_blank(#[trigger] list[i]) ==> width
                <= apply::indentation(list[i]),
    ensures
        apply::least_indentation(list) matches Some(least) ==> width <= least,
    decreases list.len(),
{
    if list.len() > 0 {
        let head = list.drop_last();
        assert forall|i: int|
            0 <= i < head.len() && !text::is_blank(#[trigger] head[i]) implies width
            <= apply::indentation(head[i]) by {
            assert(head[i] == list[i]);
        }
        assert(list.last() == list[list.len() - 1]);
        lemma_at_least(head, width);
    }
}

proof fn lemma_all_unindented(list: Seq<Seq<char>>, next: Seq<Seq<char>>, width: nat)
    requires
        list.len() == next.len(),
        forall|i: int|
            0 <= i < list.len() ==> apply::unindented(#[trigger] list[i], width) == Ok::<
                _,
                Seq<char>,
            >(next[i]),
    ensures
        apply::unindent_spec(list, width) == Ok::<_, Seq<char>>(next),
    decreases list.len(),
{
    if list.len() > 0 {
        let head = list.drop_last();
        assert forall|i: int| 0 <= i < head.len() implies apply::unindented(
            #[trigger] head[i],
            width,
        ) == Ok::<_, Seq<char>>(next.drop_last()[i]) by {
            assert(head[i] == list[i]);
        }
        lemma_all_unindented(head, next.drop_last(), width);
        assert(list.last() == list[list.len() - 1]);
        assert(next.drop_last().push(next.last()) =~= next);
    } else {
        assert(next =~= Seq::empty());
    }
}

// ---------------------------------------------------------------------------
// Prefixes and suffixes
// ---------------------------------------------------------------------------

/// Where a line's text starts, after its indentation
pub open spec fn text_starts(line: Seq<char>, at: int) -> bool {
    &&& 0 <= at <= line.len()
    &&& forall|i: int| 0 <= i < at ==> text::is_white(#[trigger] line[i])
    &&& at < line.len() ==> !text::is_white(line[at])
}

proof fn lemma_text_starts(line: Seq<char>, at: int)
    requires
        text_starts(line, at),
    ensures
        text::span(line, CharClass::White) == at,
        text::after_run(line, CharClass::White) == line.skip(at),
{
    assert forall|i: int| 0 <= i < at implies CharClass::White.has(line[i]) by {
        assert(text::is_white(line[i]));
    }
    text::lemma_span_is(line, CharClass::White, at);
}

/// `remove-prefix` takes the prefix from the first line's text and leaves its
/// indentation, the rest of it and the other lines; it doesn't fit any other text
pub proof fn law_remove_prefix(
    list: Seq<Seq<char>>,
    at: int,
    prefix: Seq<char>,
    side: OptionSide,
    ended: bool,
)
    requires
        are_lines(list, ended),
        text_starts(list[0], at),
    ensures
        ({
            let result = apply::apply_options_spec(
                text_of(list, ended),
                seq![with_text("remove-prefix"@, prefix, side)],
            );
            let n = at + prefix.len();
            if n <= list[0].len() && list[0].subrange(at, n) == prefix {
                result == Ok::<_, MisfitModel>(
                    text_of(list.update(0, list[0].take(at) + list[0].skip(n)), ended),
                )
            } else {
                result is Err
            }
        }),
{
    let line = list[0];
    let n = at + prefix.len();
    lemma_one(list, ended, with_text("remove-prefix"@, prefix, side));
    lemma_text_starts(line, at);
    let rest = line.skip(at);
    if n <= line.len() {
        assert(line.subrange(at, n) =~= rest.take(prefix.len() as int));
        assert(rest.skip(prefix.len() as int) =~= line.skip(n));
        if line.subrange(at, n) == prefix {
            assert(prefix.is_prefix_of(rest));
        } else if prefix.is_prefix_of(rest) {
            assert(rest.take(prefix.len() as int) =~= prefix);
        }
    }
}

/// `remove-suffix` takes the suffix from the last line and leaves all else; it doesn't
/// fit any other text
pub proof fn law_remove_suffix(
    list: Seq<Seq<char>>,
    suffix: Seq<char>,
    side: OptionSide,
    ended: bool,
)
    requires
        are_lines(list, ended),
    ensures
        ({
            let result = apply::apply_options_spec(
                text_of(list, ended),
                seq![with_text("remove-suffix"@, suffix, side)],
            );
            let last = list[list.len() - 1];
            let n = last.len() - suffix.len();
            if n >= 0 && last.skip(n) == suffix {
                result == Ok::<_, MisfitModel>(
                    text_of(list.update(list.len() - 1, last.take(n)), ended),
                )
            } else {
                result is Err
            }
        }),
{
    let last = list[list.len() - 1];
    let n = last.len() - suffix.len();
    lemma_one(list, ended, with_text("remove-suffix"@, suffix, side));
    lemma_keys();
    if n >= 0 {
        if last.skip(n) == suffix {
            assert(suffix.is_suffix_of(last));
        } else if suffix.is_suffix_of(last) {
            assert(last.skip(n) =~= suffix);
        }
    }
}

/// `strip-line-prefix` takes the prefix from each line that starts with it, and leaves
/// the others
pub proof fn law_strip_line_prefix(
    list: Seq<Seq<char>>,
    prefix: Seq<char>,
    side: OptionSide,
    ended: bool,
)
    requires
        are_lines(list, ended),
    ensures
        apply::apply_options_spec(
            text_of(list, ended),
            seq![with_text("strip-line-prefix"@, prefix, side)],
        ) == Ok::<_, MisfitModel>(
            text_of(
                Seq::new(
                    list.len(),
                    |i: int|
                        if list[i].len() >= prefix.len() && list[i].take(prefix.len() as int)
                            == prefix {
                            list[i].skip(prefix.len() as int)
                        } else {
                            list[i]
                        },
                ),
                ended,
            ),
        ),
{
    let next = Seq::new(
        list.len(),
        |i: int|
            if list[i].len() >= prefix.len() && list[i].take(prefix.len() as int) == prefix {
                list[i].skip(prefix.len() as int)
            } else {
                list[i]
            },
    );
    lemma_one(list, ended, with_text("strip-line-prefix"@, prefix, side));
    lemma_keys();
    let made = apply::strip_line_prefix_spec(list, prefix);
    assert forall|i: int| 0 <= i < list.len() implies made[i] == next[i] by {
        if list[i].len() >= prefix.len() {
            if list[i].take(prefix.len() as int) == prefix {
                assert(prefix.is_prefix_of(list[i]));
            } else if prefix.is_prefix_of(list[i]) {
                assert(list[i].take(prefix.len() as int) =~= prefix);
            }
        }
    }
    assert(made =~= next);
}

// ---------------------------------------------------------------------------
// Lines that go
// ---------------------------------------------------------------------------

/// `remove-blank-lines` keeps the lines that have something other than whitespace in them,
/// in order, and no others
pub proof fn law_remove_blank_lines(list: Seq<Seq<char>>, side: OptionSide, ended: bool)
    requires
        are_lines(list, ended),
    ensures
        apply::apply_options_spec(
            text_of(list, ended),
            seq![OptionModel { key: "remove-blank-lines"@, value: None, side }],
        ) == Ok::<_, MisfitModel>(
            text_of(
                list.filter(
                    |line: Seq<char>|
                        exists|i: int| 0 <= i < line.len() && !text::is_white(#[trigger] line[i]),
                ),
                ended,
            ),
        ),
{
    lemma_one(list, ended, OptionModel { key: "remove-blank-lines"@, value: None, side });
    lemma_keys();
    lemma_nonblank(list);
}

proof fn lemma_nonblank(list: Seq<Seq<char>>)
    ensures
        apply::without_blank(list) == list.filter(
            |line: Seq<char>|
                exists|i: int| 0 <= i < line.len() && !text::is_white(#[trigger] line[i]),
        ),
    decreases list.len(),
{
    reveal(Seq::filter);
    if list.len() > 0 {
        lemma_nonblank(list.drop_last());
    }
}

/// Whether a line's text, after its indentation, starts with a value, where each `*` in
/// it is a name
pub open spec fn starts_with_value(line: Seq<char>, value: Seq<char>) -> bool {
    exists|at: int, end: int|
        #![trigger text_starts(line, at), line.subrange(at, end)]
        {
            &&& text_starts(line, at)
            &&& at <= end <= line.len()
            &&& if value.contains('*') {
                engines::stands_for(lines::split(value, '*'), line.subrange(at, end))
            } else {
                line.subrange(at, end) == value
            }
        }
}

/// `remove-lines-starting-with` keeps the lines whose text doesn't start with the value,
/// in order, and no others
pub proof fn law_remove_lines_starting_with(
    list: Seq<Seq<char>>,
    value: Seq<char>,
    side: OptionSide,
    ended: bool,
)
    requires
        are_lines(list, ended),
        apply::searchable(value),
    ensures
        apply::apply_options_spec(
            text_of(list, ended),
            seq![with_text("remove-lines-starting-with"@, value, side)],
        ) == Ok::<_, MisfitModel>(
            text_of(list.filter(|line: Seq<char>| !starts_with_value(line, value)), ended),
        ),
{
    lemma_one(list, ended, with_text("remove-lines-starting-with"@, value, side));
    lemma_keys();
    lemma_kept(list, value);
}

proof fn lemma_starts(line: Seq<char>, value: Seq<char>)
    ensures
        apply::starts_like(value, text::after_run(line, CharClass::White)) == starts_with_value(
            line,
            value,
        ),
{
    let at = text::span(line, CharClass::White) as int;
    text::lemma_span(line, CharClass::White);
    assert(text_starts(line, at)) by {
        assert forall|i: int| 0 <= i < at implies text::is_white(#[trigger] line[i]) by {
            assert(CharClass::White.has(line[i]));
        }
    }
    let rest = line.skip(at);
    if apply::starts_like(value, rest) {
        if value.contains('*') {
            let j = choose|j: int|
                0 <= j <= rest.len() && engines::stands_for(
                    apply::pieces(value),
                    #[trigger] rest.subrange(0, j),
                );
            assert(rest.subrange(0, j) =~= line.subrange(at, at + j));
            assert(text_starts(line, at) && at <= at + j <= line.len());
        } else {
            assert(line.subrange(at, at + value.len()) =~= value);
            assert(text_starts(line, at) && at <= at + value.len() <= line.len());
        }
    }
    if starts_with_value(line, value) {
        let (other, end) = choose|other: int, end: int|
            #![trigger text_starts(line, other), line.subrange(other, end)]
            {
                &&& text_starts(line, other)
                &&& other <= end <= line.len()
                &&& if value.contains('*') {
                    engines::stands_for(lines::split(value, '*'), line.subrange(other, end))
                } else {
                    line.subrange(other, end) == value
                }
            };
        lemma_text_starts(line, other);
        assert(rest.subrange(0, end - at) =~= line.subrange(at, end));
        if !value.contains('*') {
            assert(rest.take(value.len() as int) =~= value);
            assert(value.is_prefix_of(rest));
        }
    }
}

proof fn lemma_kept(list: Seq<Seq<char>>, value: Seq<char>)
    ensures
        apply::without_starting(list, value) == list.filter(
            |line: Seq<char>| !starts_with_value(line, value),
        ),
    decreases list.len(),
{
    reveal(Seq::filter);
    if list.len() > 0 {
        lemma_kept(list.drop_last(), value);
        lemma_starts(list.last(), value);
    }
}

/// A `param` leaves a text as it is where its value (each `*` in it a name) stands
/// somewhere in it, and fits no other text
pub proof fn law_param(list: Seq<Seq<char>>, value: Seq<char>, side: OptionSide, ended: bool)
    requires
        are_lines(list, ended),
        apply::searchable(value),
    ensures
        ({
            let code = lines::join(list, seq!['\n']);
            let result = apply::apply_options_spec(
                text_of(list, ended),
                seq![with_text("param"@, value, side)],
            );
            if exists|i: int, j: int|
                #![trigger code.subrange(i, j)]
                0 <= i <= j <= code.len() && (if value.contains('*') {
                    engines::stands_for(lines::split(value, '*'), code.subrange(i, j))
                } else {
                    code.subrange(i, j) == value
                }) {
                result == Ok::<_, MisfitModel>(text_of(list, ended))
            } else {
                result is Err
            }
        }),
{
    let code = lines::join(list, seq!['\n']);
    lemma_one(list, ended, with_text("param"@, value, side));
    lemma_keys();
    lemma_text(list, ended);
    if apply::appears(value, code) {
        if value.contains('*') {
            let i = choose|i: int|
                0 <= i <= code.len() && #[trigger] engines::stands_at(
                    apply::pieces(value),
                    code,
                    i,
                );
            let j = choose|j: int|
                i <= j <= code.len() && engines::stands_for(
                    apply::pieces(value),
                    #[trigger] code.subrange(i, j),
                );
            assert(engines::stands_for(lines::split(value, '*'), code.subrange(i, j)));
        } else {
            let i = choose|i: int| text::occurs_at(code, value, i);
            assert(code.subrange(i, i + value.len()) == value);
        }
    }
    if exists|i: int, j: int|
        #![trigger code.subrange(i, j)]
        0 <= i <= j <= code.len() && (if value.contains('*') {
            engines::stands_for(lines::split(value, '*'), code.subrange(i, j))
        } else {
            code.subrange(i, j) == value
        }) {
        let (i, j) = choose|i: int, j: int|
            #![trigger code.subrange(i, j)]
            0 <= i <= j <= code.len() && (if value.contains('*') {
                engines::stands_for(lines::split(value, '*'), code.subrange(i, j))
            } else {
                code.subrange(i, j) == value
            });
        if value.contains('*') {
            assert(engines::stands_at(apply::pieces(value), code, i));
        } else {
            assert(code.subrange(i, i + value.len()) =~= value);
            assert(text::occurs_at(code, value, i));
        }
    }
}

} // verus!
