//! Options written on a marker read back as they were.

use crate::numbers;
use crate::options;
use crate::options::OptionKind;
use crate::options::OptionModel;
use crate::options::OptionSide;
use crate::options::ValueModel;
use crate::text;
use crate::text::CharClass;
use vstd::prelude::*;

verus! {

/// The kind of value an option holds
pub open spec fn held_kind(value: Option<ValueModel>) -> OptionKind {
    match value {
        None => OptionKind::Flag,
        Some(ValueModel::Text(_)) => OptionKind::Text,
        Some(ValueModel::Reindent { .. }) => OptionKind::Numbers,
    }
}

/// Whether an option is one that a marker can carry: it exists, has a value of
/// its kind, and applies to its side
pub open spec fn is_valid(option: OptionModel) -> bool {
    &&& options::kind_spec(option.key) == Some(held_kind(option.value))
    &&& option.side == OptionSide::Doc ==> option.key != "param"@
    &&& match option.value {
        None => true,
        Some(ValueModel::Text(text)) => text.len() > 0,
        Some(ValueModel::Reindent { from, to }) => 0 < from <= usize::MAX && to <= usize::MAX,
    }
}

/// Whether `s` is nothing but whitespace
pub open spec fn is_space(s: Seq<char>) -> bool {
    forall|i: int| 0 <= i < s.len() ==> text::is_white(#[trigger] s[i])
}

/// Options one after the other, each after a bar, with `before` before the bar and `after`
/// after the option
pub open spec fn spaced(list: Seq<OptionModel>, before: Seq<char>, after: Seq<char>) -> Seq<char>
    decreases list.len(),
{
    if list.len() == 0 {
        Seq::empty()
    } else {
        before + "| "@ + options::option_text(list[0]) + after + spaced(
            list.drop_first(),
            before,
            after,
        )
    }
}

/// Options one after the other, each after ` | `
pub open spec fn written(list: Seq<OptionModel>) -> Seq<char>
    decreases list.len(),
{
    if list.len() == 0 {
        Seq::empty()
    } else {
        " | "@ + options::option_text(list[0]) + written(list.drop_first())
    }
}

/// Whether `s`, after any whitespace, is nothing or goes on with another option
pub open spec fn ends_option(s: Seq<char>) -> bool {
    options::skip_white(s).len() > 0 ==> options::skip_white(s)[0] == '|'
}

/// What ends an option starts with whitespace or a bar, and whitespace once skipped is
/// skipped for good
proof fn lemma_ends(s: Seq<char>)
    requires
        ends_option(s),
    ensures
        s.len() > 0 ==> text::is_white(s[0]) || s[0] == '|',
        s.len() > 0 ==> !text::is_digit(s[0]) && !CharClass::Key.has(s[0]),
        options::skip_white(options::skip_white(s)) == options::skip_white(s),
{
    let n = text::span(s, CharClass::White) as int;
    text::lemma_span(s, CharClass::White);
    let here = options::skip_white(s);
    assert(here == s.skip(n));
    if s.len() > 0 {
        if n > 0 {
            assert(CharClass::White.has(s[0]));
        } else {
            assert(here[0] == s[0]);
        }
    }
    lemma_skip_white(here, 0);
    assert(here.skip(0) =~= here);
}

/// Names of options are made of name characters, and don't start like a side
proof fn lemma_key(key: Seq<char>)
    requires
        options::kind_spec(key) is Some,
    ensures
        key.len() > 0,
        key[0] != 'd',
        !text::is_white(key[0]),
        forall|i: int| 0 <= i < key.len() ==> CharClass::Key.has(#[trigger] key[i]),
{
    reveal_strlit("remove-prefix");
    reveal_strlit("remove-suffix");
    reveal_strlit("strip-line-prefix");
    reveal_strlit("remove-lines-starting-with");
    reveal_strlit("param");
    reveal_strlit("unindent-common");
    reveal_strlit("remove-blank-lines");
    reveal_strlit("reindent");
}

/// A quoted value reads back, with what follows it
proof fn lemma_unquoted(value: Seq<char>, rest: Seq<char>)
    ensures
        options::unquoted(options::escaped(value) + seq!['"'] + rest) == Some((value, rest)),
    decreases value.len(),
{
    lemma_unquoted_from(value, 0, rest);
    assert(value.skip(0) =~= value);
}

proof fn lemma_escaped_concat(first: Seq<char>, second: Seq<char>)
    ensures
        options::escaped(first + second) == options::escaped(first) + options::escaped(second),
    decreases second.len(),
{
    if second.len() == 0 {
        assert(first + second =~= first);
        assert(options::escaped(first) + options::escaped(second) =~= options::escaped(first));
    } else {
        assert((first + second).drop_last() =~= first + second.drop_last());
        assert((first + second).last() == second.last());
        lemma_escaped_concat(first, second.drop_last());
        assert(options::escaped(first + second) =~= options::escaped(first) + options::escaped(
            second,
        ));
    }
}

proof fn lemma_unquoted_from(value: Seq<char>, i: int, rest: Seq<char>)
    requires
        0 <= i <= value.len(),
    ensures
        options::unquoted(options::escaped(value.skip(i)) + seq!['"'] + rest) == Some(
            (value.skip(i), rest),
        ),
    decreases value.len() - i,
{
    let tail = value.skip(i);
    let s = options::escaped(tail) + seq!['"'] + rest;
    if i == value.len() {
        assert(tail =~= Seq::empty());
        assert(s =~= seq!['"'] + rest);
        assert(s.skip(1) =~= rest);
    } else {
        lemma_unquoted_from(value, i + 1, rest);
        let c = value[i];
        let next = value.skip(i + 1);
        let t = options::escaped(next) + seq!['"'] + rest;
        assert(tail =~= seq![c] + next);
        lemma_escaped_concat(seq![c], next);
        assert(seq![c].drop_last() =~= Seq::empty());
        assert(options::escaped(Seq::<char>::empty()) == Seq::<char>::empty());
        if c == '\\' || c == '"' {
            assert(options::escaped(seq![c]) =~= seq!['\\', c]);
            assert(s.skip(2) =~= t);
            assert(s[0] == '\\' && s[1] == c);
        } else {
            assert(options::escaped(seq![c]) =~= seq![c]);
            assert(s.skip(1) =~= t);
            assert(s[0] == c);
        }
        assert(seq![c] + next =~= tail);
    }
}

/// Whitespace is skipped up to the text that it stands before
proof fn lemma_skip_white(s: Seq<char>, n: int)
    requires
        0 <= n <= s.len(),
        forall|i: int| 0 <= i < n ==> text::is_white(#[trigger] s[i]),
        n < s.len() ==> !text::is_white(s[n]),
    ensures
        options::skip_white(s) == s.skip(n),
{
    assert forall|i: int| 0 <= i < n implies CharClass::White.has(s[i]) by {
        assert(text::is_white(s[i]));
    }
    text::lemma_span_is(s, CharClass::White, n);
}

/// A number reads back, when no digit follows it
proof fn lemma_number(value: nat, rest: Seq<char>)
    requires
        value <= usize::MAX,
        rest.len() > 0 ==> !text::is_digit(rest[0]),
    ensures
        options::number_spec(numbers::decimal_spec(value) + rest) == Some(value),
        text::after_run(numbers::decimal_spec(value) + rest, CharClass::Digit) == rest,
{
    let digits = numbers::decimal_spec(value);
    let s = digits + rest;
    numbers::lemma_decimal(value);
    assert forall|i: int| 0 <= i < digits.len() implies CharClass::Digit.has(s[i]) by {
        assert(text::is_digit(digits[i]));
    }
    text::lemma_span_is(s, CharClass::Digit, digits.len() as int);
    assert(s.take(digits.len() as int) =~= digits);
    assert(s.skip(digits.len() as int) =~= rest);
}

/// An option's value reads back
proof fn lemma_value(option: OptionModel, rest: Seq<char>)
    requires
        is_valid(option),
        ends_option(rest),
    ensures
        ({
            let s = options::skip_white(options::value_text(option.value) + rest);
            &&& options::value_spec(s, option.key, held_kind(option.value)) matches Ok((v, r))
            &&& v == option.value
            &&& options::skip_white(r) == options::skip_white(rest)
        }),
{
    reveal_strlit(": ");
    reveal_strlit(" -> ");
    reveal_strlit("->");
    let key = option.key;
    let whole = options::value_text(option.value) + rest;
    lemma_ends(rest);
    match option.value {
        None => {
            assert(whole =~= rest);
        },
        Some(ValueModel::Text(value)) => {
            let quoted = options::quoted_spec(value);
            lemma_skip_white(whole, 0);
            assert(whole.skip(0) =~= whole);
            assert(whole.skip(1) =~= seq![' '] + quoted + rest);
            lemma_skip_white(whole.skip(1), 1);
            assert(whole.skip(1).skip(1) =~= quoted + rest);
            let start = quoted + rest;
            assert(start.skip(1) =~= options::escaped(value) + seq!['"'] + rest);
            lemma_unquoted(value, rest);
        },
        Some(ValueModel::Reindent { from, to }) => {
            let first = numbers::decimal_spec(from);
            let second = numbers::decimal_spec(to);
            numbers::lemma_decimal(from);
            numbers::lemma_decimal(to);
            assert(text::is_digit(first[0]));
            assert(text::is_digit(second[0]));
            lemma_skip_white(whole, 0);
            assert(whole.skip(0) =~= whole);
            let start = first + (" -> "@ + second + rest);
            assert(whole.skip(1) =~= seq![' '] + start);
            lemma_skip_white(whole.skip(1), 1);
            assert(whole.skip(1).skip(1) =~= start);
            lemma_number(from, " -> "@ + second + rest);
            let at_arrow = " -> "@ + second + rest;
            lemma_skip_white(at_arrow, 1);
            let arrow = at_arrow.skip(1);
            assert("->"@.is_prefix_of(arrow)) by {
                assert(arrow.take(2) =~= "->"@);
            }
            assert(arrow.skip(2) =~= seq![' '] + (second + rest));
            lemma_skip_white(arrow.skip(2), 1);
            assert(arrow.skip(2).skip(1) =~= second + rest);
            lemma_number(to, rest);
        },
    }
}

/// An option written on a marker reads back, and what follows it is left
pub proof fn law_option_reads_back(option: OptionModel, rest: Seq<char>)
    requires
        is_valid(option),
        ends_option(rest),
    ensures
        options::option_spec("| "@ + options::option_text(option) + rest) matches Ok((read, left))
            && read == option && options::skip_white(left) == options::skip_white(rest),
{
    reveal_strlit("| ");
    reveal_strlit("doc ");
    reveal_strlit("doc");
    lemma_key(option.key);
    let key = option.key;
    let s = "| "@ + options::option_text(option) + rest;
    let body = options::option_text(option) + rest;
    let value = options::value_text(option.value) + rest;
    let named = key + value;
    assert(s.skip(1) =~= seq![' '] + body);
    assert(body[0] == (if option.side == OptionSide::Doc {
        'd'
    } else {
        key[0]
    }));
    lemma_skip_white(s.skip(1), 1);
    assert(s.skip(1).skip(1) =~= body);
    if option.side == OptionSide::Doc {
        assert(body =~= "doc "@ + named);
        assert("doc"@.is_prefix_of(body)) by {
            assert(body.take(3) =~= "doc"@);
        }
        assert(body[3] == ' ');
        assert(body.skip(3) =~= seq![' '] + named);
        lemma_skip_white(body.skip(3), 1);
        assert(body.skip(3).skip(1) =~= named);
    } else {
        assert(body =~= named);
        if "doc"@.is_prefix_of(body) {
            assert(body.take(3)[0] == "doc"@[0]);
            assert(body[0] == 'd');
        }
    }
    assert(options::side_spec(body) == (option.side, named));
    assert(value.len() > 0 ==> !CharClass::Key.has(value[0])) by {
        reveal_strlit(": ");
        lemma_ends(rest);
    }
    assert forall|i: int| 0 <= i < key.len() implies CharClass::Key.has(named[i]) by {
        assert(CharClass::Key.has(key[i]));
    }
    text::lemma_span_is(named, CharClass::Key, key.len() as int);
    assert(named.take(key.len() as int) =~= key);
    assert(named.skip(key.len() as int) =~= value);
    lemma_value(option, rest);
}

proof fn lemma_space_before(space: Seq<char>, s: Seq<char>)
    requires
        is_space(space),
    ensures
        options::skip_white(space + s) == options::skip_white(s),
{
    let n = space.len() as int;
    let m = text::span(s, CharClass::White) as int;
    text::lemma_span(s, CharClass::White);
    let all = space + s;
    assert forall|i: int| 0 <= i < n + m implies CharClass::White.has(all[i]) by {
        if i < n {
            assert(text::is_white(space[i]));
        } else {
            assert(CharClass::White.has(s[i - n]));
        }
    }
    text::lemma_span_is(all, CharClass::White, n + m);
    assert(all.skip(n + m) =~= s.skip(m));
}

proof fn lemma_spaced_ends(list: Seq<OptionModel>, before: Seq<char>, after: Seq<char>)
    requires
        is_space(before),
        is_space(after),
    ensures
        ends_option(spaced(list, before, after)),
        ends_option(after + spaced(list, before, after)),
{
    let s = spaced(list, before, after);
    reveal_strlit("| ");
    lemma_space_before(after, s);
    if list.len() == 0 {
        lemma_skip_white(s, 0);
    } else {
        let here = "| "@ + options::option_text(list[0]) + after + spaced(
            list.drop_first(),
            before,
            after,
        );
        assert(s =~= before + here);
        lemma_space_before(before, here);
        lemma_skip_white(here, 0);
        assert(here.skip(0) =~= here);
    }
}

/// Options written one after the other, each after a bar and with any whitespace before
/// the bar and after the option, read back in the same order
pub proof fn law_spaced_options_read_back(
    list: Seq<OptionModel>,
    before: Seq<char>,
    after: Seq<char>,
)
    requires
        forall|i: int| 0 <= i < list.len() ==> is_valid(#[trigger] list[i]),
        is_space(before),
        is_space(after),
    ensures
        options::options_spec(spaced(list, before, after)) == Ok::<_, Seq<char>>(list),
    decreases list.len(),
{
    reveal_strlit("| ");
    let s = spaced(list, before, after);
    if list.len() == 0 {
        lemma_skip_white(s, 0);
        assert(list =~= Seq::empty());
    } else {
        let others = list.drop_first();
        let next = spaced(others, before, after);
        let rest = after + next;
        assert forall|i: int| 0 <= i < others.len() implies is_valid(#[trigger] others[i]) by {
            assert(others[i] == list[i + 1]);
        }
        law_spaced_options_read_back(others, before, after);
        lemma_spaced_ends(others, before, after);
        let here = "| "@ + options::option_text(list[0]) + rest;
        assert(s =~= before + here);
        lemma_space_before(before, here);
        lemma_skip_white(here, 0);
        assert(here.skip(0) =~= here);
        law_option_reads_back(list[0], rest);
        let (read, left) = options::option_spec(here)->Ok_0;
        lemma_space_before(after, next);
        lemma_options_skip(left, next);
        assert(seq![list[0]] + others =~= list);
    }
}

proof fn lemma_written_is_spaced(list: Seq<OptionModel>)
    ensures
        written(list) == spaced(list, seq![' '], Seq::empty()),
        ends_option(written(list)),
    decreases list.len(),
{
    reveal_strlit(" | ");
    reveal_strlit("| ");
    if list.len() > 0 {
        lemma_written_is_spaced(list.drop_first());
        assert(written(list) =~= spaced(list, seq![' '], Seq::empty()));
    }
    lemma_spaced_ends(list, seq![' '], Seq::empty());
}

/// Options written one after the other read back, in the same order
pub proof fn law_options_read_back(list: Seq<OptionModel>)
    requires
        forall|i: int| 0 <= i < list.len() ==> is_valid(#[trigger] list[i]),
    ensures
        options::options_spec(written(list)) == Ok::<_, Seq<char>>(list),
{
    lemma_written_is_spaced(list);
    law_spaced_options_read_back(list, seq![' '], Seq::empty());
}

/// Leading whitespace before options doesn't matter
proof fn lemma_options_skip(first: Seq<char>, second: Seq<char>)
    requires
        options::skip_white(first) == options::skip_white(second),
    ensures
        options::options_spec(first) == options::options_spec(second),
{
}

/// Options that were read are ones that a marker can carry
pub proof fn law_read_option_is_valid(s: Seq<char>)
    ensures
        options::option_spec(s) matches Ok((option, _)) ==> is_valid(option),
{
    if let Ok((option, rest)) = options::option_spec(s) {
        let (side, named) = options::side_spec(options::skip_white(s.skip(1)));
        let at = options::skip_white(text::after_run(named, CharClass::Key));
        let start = options::skip_white(at.skip(1));
        assert(options::kind_spec(option.key) is Some);
    }
}

// ---------------------------------------------------------------------------
// More options after others
// ---------------------------------------------------------------------------

/// A run ends where it did, when what is added starts with a character of another kind
proof fn lemma_run_before(s: Seq<char>, more: Seq<char>, class: CharClass)
    requires
        more.len() > 0 ==> !class.has(more[0]) || text::after_run(s, class).len() > 0,
    ensures
        text::span(s + more, class) == text::span(s, class),
        text::after_run(s + more, class) == text::after_run(s, class) + more,
{
    let n = text::span(s, class) as int;
    text::lemma_span(s, class);
    let all = s + more;
    assert forall|i: int| 0 <= i < n implies class.has(all[i]) by {
        assert(class.has(s[i]));
    }
    if n < s.len() {
        assert(all[n] == s[n]);
    } else if more.len() > 0 {
        assert(text::after_run(s, class).len() == 0);
        assert(all[n] == more[0]);
    }
    text::lemma_span_is(all, class, n);
    assert(all.skip(n) =~= s.skip(n) + more);
}

/// Whitespace may be skipped before more is added
proof fn lemma_skip_before(s: Seq<char>, more: Seq<char>)
    ensures
        options::skip_white(options::skip_white(s) + more) == options::skip_white(s + more),
{
    let here = options::skip_white(s);
    let n = text::span(s, CharClass::White) as int;
    text::lemma_span(s, CharClass::White);
    if here.len() > 0 {
        lemma_run_before(s, more, CharClass::White);
        text::lemma_span_is(here, CharClass::White, 0);
        assert(here.skip(0) =~= here);
        lemma_run_before(here, more, CharClass::White);
    } else {
        assert(here + more =~= more);
        let m = text::span(more, CharClass::White) as int;
        text::lemma_span(more, CharClass::White);
        let all = s + more;
        assert forall|i: int| 0 <= i < n + m implies CharClass::White.has(all[i]) by {
            if i < n {
                assert(CharClass::White.has(s[i]));
            } else {
                assert(CharClass::White.has(more[i - n]));
            }
        }
        text::lemma_span_is(all, CharClass::White, n + m);
        assert(all.skip(n + m) =~= more.skip(m));
    }
}

proof fn lemma_unquoted_more(s: Seq<char>, more: Seq<char>)
    requires
        options::unquoted(s) is Some,
    ensures
        ({
            let (value, rest) = options::unquoted(s)->0;
            options::unquoted(s + more) == Some((value, rest + more))
        }),
    decreases s.len(),
{
    let all = s + more;
    if s[0] == '"' {
        assert(all.skip(1) =~= s.skip(1) + more);
    } else if s[0] == '\\' {
        assert(all.skip(2) =~= s.skip(2) + more);
        lemma_unquoted_more(s.skip(2), more);
    } else {
        assert(all.skip(1) =~= s.skip(1) + more);
        lemma_unquoted_more(s.skip(1), more);
    }
}

proof fn lemma_text_value_more(s: Seq<char>, key: Seq<char>, more: Seq<char>)
    requires
        ends_option(more),
        options::text_value_spec(s, key) is Ok,
    ensures
        ({
            let (value, rest) = options::text_value_spec(s, key)->Ok_0;
            &&& options::text_value_spec(s + more, key) matches Ok((v, r))
            &&& v == value
            &&& options::skip_white(r) == options::skip_white(rest + more)
        }),
{
    reveal_strlit("->");
    let all = s + more;
    let (value, left) = options::unquoted(s.skip(1))->0;
    assert(all.skip(1) =~= s.skip(1) + more);
    lemma_unquoted_more(s.skip(1), more);
    lemma_skip_before(left, more);
    let before = options::skip_white(left);
    let after = options::skip_white(left + more);
    if "->"@.is_prefix_of(after) {
        assert(after.take(2)[0] == '-' && after.take(2)[1] == '>');
        if before.len() > 0 {
            lemma_run_before(left, more, CharClass::White);
            assert(after =~= before + more);
            if before.len() >= 2 {
                assert(before.take(2) =~= "->"@);
            }
        } else {
            assert(before + more =~= more);
        }
    }
    // Whitespace skipped once is skipped for good
    text::lemma_span(left + more, CharClass::White);
    lemma_skip_before(left + more, Seq::empty());
    assert(after + Seq::<char>::empty() =~= after);
    assert(left + more + Seq::<char>::empty() =~= left + more);
}

proof fn lemma_reindent_more(s: Seq<char>, key: Seq<char>, more: Seq<char>)
    requires
        ends_option(more),
        options::reindent_spec(s, key) is Ok,
    ensures
        ({
            let (value, rest) = options::reindent_spec(s, key)->Ok_0;
            options::reindent_spec(s + more, key) == Ok::<_, Seq<char>>((value, rest + more))
        }),
{
    reveal_strlit("->");
    let all = s + more;
    let after = text::after_run(s, CharClass::Digit);
    let arrow = options::skip_white(after);
    let tail = arrow.skip(2);
    let second = options::skip_white(tail);
    text::lemma_span(after, CharClass::White);
    assert(arrow.len() >= 2);
    assert(after.len() > 0);
    lemma_run_before(s, more, CharClass::Digit);
    lemma_run_before(after, more, CharClass::White);
    text::lemma_span(s, CharClass::Digit);
    assert(numbers::leading_digits(all) =~= numbers::leading_digits(s));
    assert((arrow + more).skip(2) =~= tail + more);
    assert("->"@.is_prefix_of(arrow + more)) by {
        assert((arrow + more).take(2) =~= arrow.take(2));
    }
    text::lemma_span(second, CharClass::Digit);
    assert(second.len() > 0);
    lemma_run_before(tail, more, CharClass::White);
    lemma_ends(more);
    assert(more.len() > 0 ==> !CharClass::Digit.has(more[0]));
    lemma_run_before(second, more, CharClass::Digit);
    assert(numbers::leading_digits(second + more) =~= numbers::leading_digits(second));
}

proof fn lemma_value_more(s: Seq<char>, key: Seq<char>, kind: OptionKind, more: Seq<char>)
    requires
        ends_option(more),
        s == options::skip_white(s),
        options::value_spec(s, key, kind) is Ok,
    ensures
        ({
            let (value, rest) = options::value_spec(s, key, kind)->Ok_0;
            &&& options::value_spec(options::skip_white(s + more), key, kind) matches Ok((v, r))
            &&& v == value
            &&& options::skip_white(r) == options::skip_white(rest + more)
        }),
{
    let (value, rest) = options::value_spec(s, key, kind)->Ok_0;
    let all = options::skip_white(s + more);
    if s.len() > 0 {
        lemma_run_before(s, more, CharClass::White);
        assert(all =~= s + more);
    } else {
        assert(s + more =~= more);
    }
    match kind {
        OptionKind::Flag => {
            lemma_skip_before(s + more, Seq::empty());
            assert(all + Seq::<char>::empty() =~= all);
            assert(s + more + Seq::<char>::empty() =~= s + more);
        },
        _ => {
            let start = options::skip_white(s.skip(1));
            assert(all.skip(1) =~= s.skip(1) + more);
            if kind == OptionKind::Text {
                assert(start.len() > 0);
                lemma_run_before(s.skip(1), more, CharClass::White);
                lemma_text_value_more(start, key, more);
            } else {
                text::lemma_span(start, CharClass::Digit);
                assert(numbers::leading_digits(start).len() > 0);
                assert(start.len() > 0);
                lemma_run_before(s.skip(1), more, CharClass::White);
                lemma_reindent_more(start, key, more);
            }
        },
    }
}

/// An option that reads fine does so before others
proof fn lemma_option_more(s: Seq<char>, more: Seq<char>)
    requires
        ends_option(more),
        options::option_spec(s) is Ok,
    ensures
        ({
            let (option, rest) = options::option_spec(s)->Ok_0;
            &&& options::option_spec(s + more) matches Ok((o, r))
            &&& o == option
            &&& options::skip_white(r) == options::skip_white(rest + more)
        }),
{
    reveal_strlit("doc");
    let all = s + more;
    let body = options::skip_white(s.skip(1));
    let (side, named) = options::side_spec(body);
    let n = text::span(named, CharClass::Key) as int;
    let key = named.take(n);
    let after_key = text::after_run(named, CharClass::Key);
    text::lemma_span(named, CharClass::Key);
    lemma_key(key);
    assert(key[0] == named[0]);
    assert(all.skip(1) =~= s.skip(1) + more);
    assert(body.len() > 0) by {
        text::lemma_span(body, CharClass::White);
        text::lemma_span(body.skip(3), CharClass::White);
    }
    lemma_run_before(s.skip(1), more, CharClass::White);
    if side == OptionSide::Doc {
        assert("doc"@.is_prefix_of(body + more)) by {
            assert((body + more).take(3) =~= body.take(3));
        }
        assert((body + more).skip(3) =~= body.skip(3) + more);
        lemma_run_before(body.skip(3), more, CharClass::White);
    } else {
        assert(body == named);
        if "doc"@.is_prefix_of(body + more) {
            assert((body + more).take(3)[0] == 'd');
            assert((body + more)[0] == body[0]);
        }
    }
    assert(options::side_spec(body + more) == (side, named + more));
    lemma_ends(more);
    assert(more.len() > 0 ==> !CharClass::Key.has(more[0]));
    lemma_run_before(named, more, CharClass::Key);
    assert((named + more).take(n) =~= key);
    let at = options::skip_white(after_key);
    lemma_skip_before(after_key, more);
    lemma_skip_before(after_key, Seq::empty());
    assert(at + Seq::<char>::empty() =~= at);
    assert(after_key + Seq::<char>::empty() =~= after_key);
    lemma_value_more(at, key, options::kind_spec(key)->0, more);
}

/// Options written after others that read fine read back after them
pub proof fn law_more_options(s: Seq<char>, added: Seq<OptionModel>)
    requires
        options::options_spec(s) is Ok,
        forall|i: int| 0 <= i < added.len() ==> is_valid(#[trigger] added[i]),
    ensures
        options::options_spec(s + written(added)) == Ok::<_, Seq<char>>(
            options::options_spec(s)->Ok_0 + added,
        ),
    decreases s.len(),
{
    let more = written(added);
    let here = options::skip_white(s);
    lemma_written_is_spaced(added);
    lemma_skip_before(s, more);
    if here.len() == 0 {
        law_options_read_back(added);
        assert(here + more =~= more);
        lemma_options_skip(s + more, more);
        assert(Seq::<OptionModel>::empty() + added =~= added);
    } else {
        let (option, rest) = options::option_spec(here)->Ok_0;
        text::lemma_after_run(s, CharClass::White);
        options::lemma_option_shorter(here);
        lemma_run_before(s, more, CharClass::White);
        lemma_option_more(here, more);
        let (_, left) = options::option_spec(here + more)->Ok_0;
        law_more_options(rest, added);
        lemma_options_skip(left, rest + more);
        let others = options::options_spec(rest)->Ok_0;
        assert(seq![option] + (others + added) =~= seq![option] + others + added);
        assert(s.len() + more.len() > 0);
    }
}

// ---------------------------------------------------------------------------
// Which options there are
// ---------------------------------------------------------------------------

/// Whether an option that takes a text has this name
pub open spec fn takes_text(key: Seq<char>) -> bool {
    seq![
        "remove-prefix"@,
        "remove-suffix"@,
        "strip-line-prefix"@,
        "remove-lines-starting-with"@,
        "param"@,
    ].contains(key)
}

/// Whether an option that takes no value has this name
pub open spec fn takes_nothing(key: Seq<char>) -> bool {
    seq!["unindent-common"@, "remove-blank-lines"@].contains(key)
}

proof fn lemma_names(key: Seq<char>)
    ensures
        takes_text(key) == (options::kind_spec(key) == Some(OptionKind::Text)),
        takes_nothing(key) == (options::kind_spec(key) == Some(OptionKind::Flag)),
        (key == "reindent"@) == (options::kind_spec(key) == Some(OptionKind::Numbers)),
{
    let texts = seq![
        "remove-prefix"@,
        "remove-suffix"@,
        "strip-line-prefix"@,
        "remove-lines-starting-with"@,
        "param"@,
    ];
    let flags = seq!["unindent-common"@, "remove-blank-lines"@];
    assert(texts[0] == "remove-prefix"@ && texts[1] == "remove-suffix"@ && texts[2]
        == "strip-line-prefix"@ && texts[3] == "remove-lines-starting-with"@ && texts[4]
        == "param"@);
    assert(flags[0] == "unindent-common"@ && flags[1] == "remove-blank-lines"@);
    reveal_strlit("remove-prefix");
    reveal_strlit("remove-suffix");
    reveal_strlit("strip-line-prefix");
    reveal_strlit("remove-lines-starting-with");
    reveal_strlit("param");
    reveal_strlit("unindent-common");
    reveal_strlit("remove-blank-lines");
    reveal_strlit("reindent");
    assert("reindent"@.len() == 8 && "unindent-common"@.len() == 15 && "remove-blank-lines"@.len()
        == 18 && "remove-prefix"@.len() == 13 && "remove-suffix"@.len() == 13
        && "strip-line-prefix"@.len() == 17 && "remove-lines-starting-with"@.len() == 26
        && "param"@.len() == 5);
    if takes_text(key) {
        let i = choose|i: int| 0 <= i < texts.len() && texts[i] == key;
        assert(i == 0 || i == 1 || i == 2 || i == 3 || i == 4);
    }
    if takes_nothing(key) {
        let i = choose|i: int| 0 <= i < flags.len() && flags[i] == key;
        assert(i == 0 || i == 1);
    }
}

/// The options that a marker can carry are those with these names and such a value
pub proof fn law_options_there_are(option: OptionModel)
    ensures
        is_valid(option) == match option.value {
            None => takes_nothing(option.key),
            Some(ValueModel::Text(text)) => takes_text(option.key) && text.len() > 0 && !(
            option.key == "param"@ && option.side == OptionSide::Doc),
            Some(ValueModel::Reindent { from, to }) => option.key == "reindent"@ && 0 < from
                <= usize::MAX && to <= usize::MAX,
        },
{
    lemma_names(option.key);
    reveal_strlit("param");
    reveal_strlit("reindent");
    reveal_strlit("unindent-common");
    reveal_strlit("remove-blank-lines");
    assert("param"@.len() == 5 && "reindent"@.len() == 8 && "unindent-common"@.len() == 15
        && "remove-blank-lines"@.len() == 18);
    if takes_nothing(option.key) {
        let flags = seq!["unindent-common"@, "remove-blank-lines"@];
        let i = choose|i: int| 0 <= i < flags.len() && flags[i] == option.key;
        assert(i == 0 || i == 1);
    }
}

/// Text without quotes and backslashes is quoted as it is
proof fn lemma_plain_quoted(s: Seq<char>)
    requires
        !s.contains('"'),
        !s.contains('\\'),
    ensures
        options::escaped(s) == s,
    decreases s.len(),
{
    if s.len() == 0 {
        assert(options::escaped(s) =~= s);
    } else {
        let head = s.drop_last();
        assert(s.contains(s[s.len() - 1]));
        assert forall|c: char| head.contains(c) implies s.contains(c) by {
            let i = choose|i: int| 0 <= i < head.len() && head[i] == c;
            assert(s[i] == c);
        }
        lemma_plain_quoted(head);
        assert(head.push(s.last()) =~= s);
    }
}

/// A bar, a name, a colon and a text in quotes is the option with that name and text.
/// With `doc` before the name it is for the docs
pub proof fn law_text_option(key: Seq<char>, value: Seq<char>)
    requires
        takes_text(key),
        value.len() > 0,
        !value.contains('"'),
        !value.contains('\\'),
    ensures
        options::options_spec(seq![' ', '|', ' '] + key + seq![':', ' ', '"'] + value + seq!['"'])
            == Ok::<_, Seq<char>>(
            seq![
                OptionModel { key, value: Some(ValueModel::Text(value)), side: OptionSide::Repo },
            ],
        ),
        key != "param"@ ==> options::options_spec(
            seq![' ', '|', ' ', 'd', 'o', 'c', ' '] + key + seq![':', ' ', '"'] + value + seq!['"'],
        ) == Ok::<_, Seq<char>>(
            seq![OptionModel { key, value: Some(ValueModel::Text(value)), side: OptionSide::Doc }],
        ),
{
    lemma_names(key);
    lemma_plain_quoted(value);
    lemma_text_written(key, value, OptionSide::Repo, Seq::empty());
    lemma_text_written(key, value, OptionSide::Doc, seq!['d', 'o', 'c', ' ']);
    let own = OptionModel { key, value: Some(ValueModel::Text(value)), side: OptionSide::Repo };
    let docs = OptionModel { key, value: Some(ValueModel::Text(value)), side: OptionSide::Doc };
    assert(seq![' ', '|', ' '] + Seq::<char>::empty() =~= seq![' ', '|', ' ']);
    assert(seq![' ', '|', ' '] + seq!['d', 'o', 'c', ' '] =~= seq![
        ' ',
        '|',
        ' ',
        'd',
        'o',
        'c',
        ' ',
    ]);
    law_options_read_back(seq![own]);
    if key != "param"@ {
        law_options_read_back(seq![docs]);
    }
}

proof fn lemma_text_written(key: Seq<char>, value: Seq<char>, side: OptionSide, named: Seq<char>)
    requires
        options::escaped(value) == value,
        side == OptionSide::Repo ==> named == Seq::<char>::empty(),
        side == OptionSide::Doc ==> named == seq!['d', 'o', 'c', ' '],
    ensures
        written(seq![OptionModel { key, value: Some(ValueModel::Text(value)), side }]) == seq![
            ' ',
            '|',
            ' ',
        ] + named + key + seq![':', ' ', '"'] + value + seq!['"'],
{
    let option = OptionModel { key, value: Some(ValueModel::Text(value)), side };
    let list = seq![option];
    reveal_strlit(" | ");
    reveal_strlit(": ");
    reveal_strlit("doc ");
    assert(list.drop_first() =~= Seq::<OptionModel>::empty());
    assert(written(list.drop_first()) == Seq::<char>::empty());
    assert(" | "@ =~= seq![' ', '|', ' ']);
    assert(options::side_text(side) =~= named);
    assert(written(list) =~= seq![' ', '|', ' '] + named + key + seq![':', ' ', '"'] + value
        + seq!['"']);
}

} // verus!
