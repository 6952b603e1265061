//! What filling in placeholders gives, and how it goes with matching.

use crate::engines;
use crate::engines::Segment;
use crate::lines;
use crate::maps;
use crate::markers;
use crate::matching;
use crate::matching::MatcherModel;
use crate::matching::PatternModel;
use crate::text;
use vstd::prelude::*;

verus! {

// ---------------------------------------------------------------------------
// Replacing
// ---------------------------------------------------------------------------

/// Text that nothing replaced starts in stays as it is
proof fn lemma_replaced_skips(a: Seq<char>, b: Seq<char>, from: Seq<char>, to: Seq<char>)
    requires
        from.len() > 0,
        forall|i: int| 0 <= i < a.len() ==> !text::occurs_at(a + b, from, i),
    ensures
        text::replaced(a + b, from, to) == a + text::replaced(b, from, to),
{
    let s = a + b;
    let n = a.len() as int;
    text::lemma_find(s, from);
    text::lemma_find(b, from);
    assert forall|i: int| n <= i implies text::occurs_at(s, from, i) == text::occurs_at(
        b,
        from,
        i - n,
    ) by {
        if i + from.len() <= s.len() {
            assert(s.subrange(i, i + from.len()) =~= b.subrange(i - n, i - n + from.len()));
        }
    }
    match text::find_spec(b, from) {
        Some(i) => {
            assert(text::occurs_at(s, from, i + n));
            assert forall|j: int| 0 <= j < i + n implies !text::occurs_at(s, from, j) by {
                if j >= n {
                    assert(!text::occurs_at(b, from, j - n));
                }
            }
            text::lemma_find_is(s, from, i + n);
            assert(s.skip(i + n + from.len()) =~= b.skip(i + from.len()));
            assert(s.take(i + n) =~= a + b.take(i));
            assert(text::replaced(s, from, to) =~= a + text::replaced(b, from, to));
        },
        None => {
            if let Some(i) = text::find_spec(s, from) {
                assert(text::occurs_at(s, from, i));
                assert(i >= n);
                assert(text::occurs_at(b, from, i - n));
            }
        },
    }
}

/// What is replaced at the start goes first
proof fn lemma_replaced_first(b: Seq<char>, from: Seq<char>, to: Seq<char>)
    requires
        from.len() > 0,
    ensures
        text::replaced(from + b, from, to) == to + text::replaced(b, from, to),
{
    let s = from + b;
    assert(s.subrange(0, from.len() as int) =~= from);
    assert(text::occurs_at(s, from, 0));
    text::lemma_find_is(s, from, 0);
    assert(s.skip(from.len() as int) =~= b);
    assert(s.take(0) + to + text::replaced(b, from, to) =~= to + text::replaced(b, from, to));
}

proof fn lemma_regroup(a: Seq<char>, b: Seq<char>, c: Seq<char>, d: Seq<char>)
    ensures
        a + (b + (c + d)) == (a + b + c) + d,
{
    assert(a + (b + (c + d)) =~= (a + b + c) + d);
}

/// Whether nothing to replace goes from one text into the next
#[verifier::opaque]
spec fn apart(a: Seq<char>, b: Seq<char>, from: Seq<char>) -> bool {
    forall|j: int|
        0 <= j < a.len() && text::occurs_at(a + b, from, j) ==> j + from.len() <= a.len()
}

/// What is left of texts that are apart is apart
proof fn lemma_rest_apart(a: Seq<char>, b: Seq<char>, from: Seq<char>, n: int)
    requires
        0 <= n <= a.len(),
        apart(a, b, from),
    ensures
        apart(a.skip(n), b, from),
{
    reveal(apart);
    let rest = a.skip(n);
    assert forall|j: int|
        0 <= j < rest.len() && text::occurs_at(rest + b, from, j) implies j + from.len()
        <= rest.len() by {
        let k = n + j;
        assert((a + b).subrange(k, k + from.len()) =~= (rest + b).subrange(j, j + from.len()));
        assert(text::occurs_at(a + b, from, k));
    }
}

/// Texts that are apart, where the first holds nothing before index `i`
proof fn lemma_none_before(a: Seq<char>, b: Seq<char>, from: Seq<char>, i: int)
    requires
        0 <= i <= a.len(),
        apart(a, b, from),
        forall|j: int| 0 <= j < i ==> !text::occurs_at(a, from, j),
    ensures
        forall|j: int| 0 <= j < i ==> !text::occurs_at(a + b, from, j),
{
    reveal(apart);
    assert forall|j: int| 0 <= j < i implies !text::occurs_at(a + b, from, j) by {
        if text::occurs_at(a + b, from, j) {
            assert((a + b).subrange(j, j + from.len()) =~= a.subrange(j, j + from.len()));
            assert(text::occurs_at(a, from, j));
        }
    }
}

/// The first place of something to replace in a text
proof fn lemma_parts_at(a: Seq<char>, b: Seq<char>, from: Seq<char>, i: int)
    requires
        text::occurs_at(a, from, i),
    ensures
        a + b == a.take(i) + (from + (a.skip(i + from.len()) + b)),
{
    assert(a =~= a.take(i) + a.subrange(i, i + from.len()) + a.skip(i + from.len()));
    assert(a + b =~= a.take(i) + (from + (a.skip(i + from.len()) + b)));
}

/// What is replaced in two texts that are apart is replaced in each
proof fn lemma_replaced_concat(a: Seq<char>, b: Seq<char>, from: Seq<char>, to: Seq<char>)
    requires
        from.len() > 0,
        apart(a, b, from),
    ensures
        text::replaced(a + b, from, to) == text::replaced(a, from, to) + text::replaced(
            b,
            from,
            to,
        ),
    decreases a.len(),
{
    text::lemma_find(a, from);
    match text::find_spec(a, from) {
        Some(i) => {
            let n = i + from.len();
            let rest = a.skip(n);
            let head = a.take(i);
            let more = text::replaced(rest, from, to);
            lemma_none_before(a, b, from, i);
            lemma_parts_at(a, b, from, i);
            lemma_replaced_skips(head, from + (rest + b), from, to);
            lemma_replaced_first(rest + b, from, to);
            lemma_rest_apart(a, b, from, n);
            lemma_replaced_concat(rest, b, from, to);
            assert(text::replaced(a, from, to) == head + to + more);
            lemma_regroup(head, to, more, text::replaced(b, from, to));
        },
        None => {
            assert forall|j: int| 0 <= j < a.len() implies !text::occurs_at(a, from, j) by {
                if text::occurs_at(a, from, j) {
                    assert(text::occurs(a, from));
                }
            }
            lemma_none_before(a, b, from, a.len() as int);
            lemma_replaced_skips(a, b, from, to);
        },
    }
}

/// A text that holds nothing to replace stays as it is
proof fn lemma_nothing_replaced(s: Seq<char>, from: Seq<char>, to: Seq<char>)
    requires
        from.len() > 0,
        !text::occurs(s, from),
    ensures
        text::replaced(s, from, to) == s,
{
    text::lemma_find(s, from);
    if let Some(i) = text::find_spec(s, from) {
        assert(text::occurs_at(s, from, i));
    }
}

// ---------------------------------------------------------------------------
// Filling in
// ---------------------------------------------------------------------------

/// Whether each of the names is set off by the character it starts with, as `<NAME>` is
/// by `<`, and none starts with another
pub open spec fn set_off(names: Seq<Seq<char>>, open: char) -> bool {
    &&& forall|k: int|
        0 <= k < names.len() ==> (#[trigger] names[k]).len() > 0 && names[k][0] == open
            && !names[k].skip(1).contains(open)
    &&& forall|i: int, j: int|
        0 <= i < names.len() && 0 <= j < names.len() && i != j ==> !(#[trigger]
            names[i]).is_prefix_of(#[trigger] names[j])
}

/// Whether the texts don't hold the character
pub open spec fn hold_none(texts: Seq<Seq<char>>, open: char) -> bool {
    forall|k: int| 0 <= k < texts.len() ==> !(#[trigger] texts[k]).contains(open)
}

/// Whether the text around the values doesn't hold the character, and there are that many
/// values
pub open spec fn are_clear(segments: Seq<Segment>, count: nat, open: char) -> bool {
    forall|i: int|
        0 <= i < segments.len() ==> match #[trigger] segments[i] {
            Segment::Text(between) => !between.contains(open),
            Segment::Value(k) => k < count,
            Segment::Again(k) => k < count,
        }
}

/// Values where each is a name, or holds no character that names start with
spec fn is_stage(names: Seq<Seq<char>>, values: Seq<Seq<char>>, open: char) -> bool {
    &&& values.len() == names.len()
    &&& forall|k: int|
        0 <= k < names.len() ==> #[trigger] values[k] == names[k] || !values[k].contains(open)
}

proof fn lemma_clear_head(segments: Seq<Segment>, count: nat, open: char)
    requires
        segments.len() > 0,
        are_clear(segments, count, open),
    ensures
        are_clear(segments.drop_last(), count, open),
{
    let head = segments.drop_last();
    assert forall|i: int| 0 <= i < head.len() implies match #[trigger] head[i] {
        Segment::Text(between) => !between.contains(open),
        Segment::Value(k) => k < count,
        Segment::Again(k) => k < count,
    } by {
        assert(head[i] == segments[i]);
    }
}

/// The text of a part of a pattern
spec fn part_of(segment: Segment, values: Seq<Seq<char>>) -> Seq<char> {
    match segment {
        Segment::Text(between) => between,
        Segment::Value(k) => values[k as int],
        Segment::Again(k) => values[k as int],
    }
}

/// Where the character stands, a name starts
proof fn lemma_opens(
    segments: Seq<Segment>,
    names: Seq<Seq<char>>,
    values: Seq<Seq<char>>,
    open: char,
    i: int,
) -> (j: int)
    requires
        set_off(names, open),
        are_clear(segments, names.len(), open),
        is_stage(names, values, open),
        0 <= i < engines::filled(segments, values).len(),
        engines::filled(segments, values)[i] == open,
    ensures
        0 <= j < names.len(),
        values[j] == names[j],
        text::occurs_at(engines::filled(segments, values), names[j], i),
    decreases segments.len(),
{
    let all = engines::filled(segments, values);
    let head = engines::filled(segments.drop_last(), values);
    let part = part_of(segments.last(), values);
    assert(all == head + part);
    lemma_clear_head(segments, names.len(), open);
    if i < head.len() {
        let j = lemma_opens(segments.drop_last(), names, values, open, i);
        assert(all.subrange(i, i + names[j].len()) =~= head.subrange(i, i + names[j].len()));
        j
    } else {
        assert(part[i - head.len()] == open);
        assert(part.contains(open));
        assert(segments[segments.len() - 1] == segments.last());
        let k = match segments.last() {
            Segment::Text(between) => 0,
            Segment::Value(k) => k as int,
            Segment::Again(k) => k as int,
        };
        assert(values[k] == names[k]);
        assert(part == names[k]);
        if i > head.len() {
            assert(names[k].skip(1)[i - head.len() - 1] == open);
        }
        assert(all.subrange(i, i + names[k].len()) =~= names[k]);
        k
    }
}

/// Two names at one place are the same
proof fn lemma_same_place(names: Seq<Seq<char>>, open: char, s: Seq<char>, a: int, b: int, i: int)
    requires
        set_off(names, open),
        0 <= a < names.len(),
        0 <= b < names.len(),
        text::occurs_at(s, names[a], i),
        text::occurs_at(s, names[b], i),
    ensures
        a == b,
{
    if a != b {
        let (x, y) = if names[a].len() <= names[b].len() {
            (a, b)
        } else {
            (b, a)
        };
        assert(names[x] =~= names[y].take(names[x].len() as int)) by {
            assert(s.subrange(i, i + names[x].len()) =~= s.subrange(i, i + names[y].len()).take(
                names[x].len() as int,
            ));
        }
        assert(names[x].is_prefix_of(names[y]));
    }
}

/// One name replaced by a value
proof fn lemma_step(
    segments: Seq<Segment>,
    names: Seq<Seq<char>>,
    values: Seq<Seq<char>>,
    open: char,
    k: int,
    value: Seq<char>,
)
    requires
        set_off(names, open),
        are_clear(segments, names.len(), open),
        is_stage(names, values, open),
        0 <= k < names.len(),
        values[k] == names[k],
    ensures
        text::replaced(engines::filled(segments, values), names[k], value) == engines::filled(
            segments,
            values.update(k, value),
        ),
    decreases segments.len(),
{
    let name = names[k];
    let after = values.update(k, value);
    if segments.len() == 0 {
        lemma_nothing_replaced(Seq::empty(), name, value);
    } else {
        let all = engines::filled(segments, values);
        let head = engines::filled(segments.drop_last(), values);
        let part = part_of(segments.last(), values);
        lemma_clear_head(segments, names.len(), open);
        assert(all == head + part);
        assert(segments[segments.len() - 1] == segments.last());
        lemma_step(segments.drop_last(), names, values, open, k, value);
        reveal(apart);
        assert forall|i: int| 0 <= i < head.len() && text::occurs_at(head + part, name, i) implies i
            + name.len() <= head.len() by {
            assert((head + part).subrange(i, i + name.len())[0] == open);
            assert(head[i] == open);
            let j = lemma_opens(segments.drop_last(), names, values, open, i);
            assert(all.subrange(i, i + names[j].len()) =~= head.subrange(i, i + names[j].len()));
            lemma_same_place(names, open, all, j, k, i);
        }
        lemma_replaced_concat(head, part, name, value);
        // The last part
        let at = match segments.last() {
            Segment::Text(_) => -1,
            Segment::Value(j) => j as int,
            Segment::Again(j) => j as int,
        };
        if at == k {
            lemma_replaced_first(Seq::empty(), name, value);
            lemma_nothing_replaced(Seq::empty(), name, value);
            assert(name + Seq::<char>::empty() =~= name);
            assert(value + Seq::<char>::empty() =~= value);
        } else {
            assert(!text::occurs(part, name)) by {
                if text::occurs(part, name) {
                    let i = choose|i: int| text::occurs_at(part, name, i);
                    assert(part.subrange(i, i + name.len())[0] == open);
                    assert(part[i] == open);
                    assert(part.contains(open));
                    assert(part == names[at]);
                    if i > 0 {
                        assert(names[at].skip(1)[i - 1] == open);
                    }
                    assert(text::occurs_at(part, names[at], 0)) by {
                        assert(part.subrange(0, part.len() as int) =~= part);
                    }
                    lemma_same_place(names, open, part, k, at, 0);
                }
            }
            lemma_nothing_replaced(part, name, value);
        }
        assert(part_of(segments.last(), after) == text::replaced(part, name, value));
    }
}

/// The names replaced by their values, in any order
proof fn lemma_steps(
    segments: Seq<Segment>,
    names: Seq<Seq<char>>,
    texts: Seq<Seq<char>>,
    open: char,
    entries: Seq<(Seq<char>, Seq<char>)>,
    at: Seq<int>,
)
    requires
        set_off(names, open),
        are_clear(segments, names.len(), open),
        texts.len() == names.len(),
        hold_none(texts, open),
        at.len() == entries.len(),
        at.no_duplicates(),
        forall|j: int|
            0 <= j < at.len() ==> 0 <= #[trigger] at[j] < names.len() && entries[j] == (
                names[at[j]],
                texts[at[j]],
            ),
    ensures
        matching::fill_values(engines::filled(segments, names), entries) == engines::filled(
            segments,
            Seq::new(
                names.len(),
                |k: int|
                    if at.contains(k) {
                        texts[k]
                    } else {
                        names[k]
                    },
            ),
        ),
    decreases entries.len(),
{
    let after = Seq::new(
        names.len(),
        |k: int|
            if at.contains(k) {
                texts[k]
            } else {
                names[k]
            },
    );
    if entries.len() == 0 {
        assert(after =~= names);
    } else {
        let head = entries.drop_last();
        let at_head = at.drop_last();
        let k = at[at.len() - 1];
        assert(at.last() == k);
        assert forall|j: int| 0 <= j < at_head.len() implies 0 <= #[trigger] at_head[j]
            < names.len() && head[j] == (names[at_head[j]], texts[at_head[j]]) by {
            assert(at_head[j] == at[j]);
            assert(head[j] == entries[j]);
        }
        lemma_steps(segments, names, texts, open, head, at_head);
        let before = Seq::new(
            names.len(),
            |k: int|
                if at_head.contains(k) {
                    texts[k]
                } else {
                    names[k]
                },
        );
        assert(!at_head.contains(k)) by {
            if at_head.contains(k) {
                let j = choose|j: int| 0 <= j < at_head.len() && at_head[j] == k;
                assert(at[j] == k);
            }
        }
        assert(entries.last() == (names[k], texts[k]));
        lemma_step(segments, names, before, open, k, texts[k]);
        assert(before.update(k, texts[k]) =~= after) by {
            assert forall|m: int| 0 <= m < names.len() implies before.update(k, texts[k])[m]
                == after[m] by {
                if at_head.contains(m) {
                    let j = choose|j: int| 0 <= j < at_head.len() && at_head[j] == m;
                    assert(at[j] == m);
                } else if at.contains(m) {
                    let j = choose|j: int| 0 <= j < at.len() && at[j] == m;
                    if j < at_head.len() {
                        assert(at_head[j] == m);
                    }
                }
            }
        }
    }
}

/// Filling in a line of code gives it with each placeholder's value wherever the
/// placeholder stands, as long as the placeholders are set off by a character that neither
/// their values nor the rest of the line holds
pub proof fn law_filled_line(
    segments: Seq<Segment>,
    names: Seq<Seq<char>>,
    texts: Seq<Seq<char>>,
    open: char,
)
    requires
        set_off(names, open),
        names.no_duplicates(),
        are_clear(segments, names.len(), open),
        texts.len() == names.len(),
        hold_none(texts, open),
    ensures
        matching::fill_values(
            engines::filled(segments, names),
            maps::values_of(names, texts),
        ) == engines::filled(segments, texts),
{
    let entries = maps::values_of(names, texts);
    let keys = maps::entry_names(entries);
    maps::law_entries(names, texts);
    assert forall|j: int| 0 <= j < entries.len() implies names.contains(#[trigger] keys[j]) by {
        if !names.contains(keys[j]) {
            assert(maps::value_of(entries, keys[j]) is None);
            markers::lemma_index_of(keys, keys[j]);
        }
    }
    let at = Seq::new(
        entries.len(),
        |j: int| choose|k: int| 0 <= k < names.len() && names[k] == keys[j],
    );
    assert forall|j: int| 0 <= j < at.len() implies 0 <= #[trigger] at[j] < names.len()
        && entries[j] == (names[at[j]], texts[at[j]]) by {
        assert(names.contains(keys[j]));
        let k = at[j];
        assert(0 <= k < names.len() && names[k] == keys[j]);
        assert(maps::value_of(entries, names[k]) == Some(texts[k]));
        markers::lemma_index_of(keys, keys[j]);
        let i = markers::index_of(keys, keys[j])->0;
        lemma_one_place(keys, i, j);
    }
    assert(at.no_duplicates()) by {
        assert forall|i: int, j: int| 0 <= i < at.len() && 0 <= j < at.len() && i != j implies at[i]
            != at[j] by {
            if at[i] == at[j] {
                assert(keys[i] == keys[j]);
                lemma_one_place(keys, i, j);
            }
        }
    }
    lemma_steps(segments, names, texts, open, entries, at);
    let after = Seq::new(
        names.len(),
        |k: int|
            if at.contains(k) {
                texts[k]
            } else {
                names[k]
            },
    );
    assert(after =~= texts) by {
        assert forall|k: int| 0 <= k < names.len() implies at.contains(k) by {
            assert(maps::value_of(entries, names[k]) == Some(texts[k]));
            markers::lemma_index_of(keys, names[k]);
            let j = markers::index_of(keys, names[k])->0;
            assert(keys[j] == names[k]);
            assert(names[at[j]] == names[k]);
            assert(at[j] == k);
        }
    }
}

/// Names in order are each in one place
proof fn lemma_one_place(keys: Seq<Seq<char>>, i: int, j: int)
    requires
        markers::in_order(keys),
        0 <= i < keys.len(),
        0 <= j < keys.len(),
        keys[i] == keys[j],
    ensures
        i == j,
{
    text::lemma_before_total(keys[i], keys[i]);
    if i < j {
        assert(text::before(keys[i], keys[j]));
    } else if j < i {
        assert(text::before(keys[j], keys[i]));
    }
}

/// Whether matching a line of code against a doc line gives these values, which make the
/// code the doc line
pub open spec fn takes_values(
    pattern: PatternModel,
    doc_line: Seq<char>,
    texts: Seq<Seq<char>>,
) -> bool {
    &&& matching::captures_spec(pattern, doc_line) == Ok::<_, Seq<char>>(
        Some(maps::values_of(pattern.names, texts)),
    )
    &&& matching::fits(pattern, doc_line, texts)
}

/// Whether a pattern is a line of code whose placeholders are set off by a character
pub open spec fn is_set_off(pattern: PatternModel, line: Seq<char>, open: char) -> bool {
    &&& engines::filled(pattern.segments, pattern.names) == line
    &&& engines::value_count(pattern.segments) == pattern.names.len()
    &&& pattern.names.no_duplicates()
    &&& set_off(pattern.names, open)
    &&& are_clear(pattern.segments, pattern.names.len(), open)
}

/// A line of code filled in from the doc line it matches is that doc line
pub proof fn law_filled_line_is_the_doc_line(
    line: Seq<char>,
    pattern: PatternModel,
    doc_lines: Seq<Seq<char>>,
    start: int,
    texts: Seq<Seq<char>>,
    open: char,
)
    requires
        is_set_off(pattern, line, open),
        0 <= start < doc_lines.len(),
        takes_values(pattern, doc_lines[start], texts),
        hold_none(texts, open),
    ensures
        matching::fill_line_spec(line, Some(pattern), doc_lines, start) == Ok::<_, Seq<char>>(
            (doc_lines[start], Some(start)),
        ),
{
    law_filled_line(pattern.segments, pattern.names, texts, open);
}

/// Code that matches a doc block line by line is filled in to be the doc block
pub proof fn law_matching_code_is_filled_in_to_be_the_doc(
    matcher: MatcherModel,
    doc: Seq<char>,
    texts: Seq<Seq<Seq<char>>>,
    open: char,
)
    requires
        matcher.whole is Some,
        ({
            let list = lines::split(matcher.content, '\n');
            let doc_lines = lines::split(doc, '\n');
            &&& doc_lines.len() == list.len()
            &&& matcher.lines.len() == list.len()
            &&& texts.len() == list.len()
            &&& forall|k: int|
                0 <= k < list.len() ==> match #[trigger] matcher.lines[k] {
                    None => doc_lines[k] == list[k],
                    Some(pattern) => is_set_off(pattern, list[k], open) && takes_values(
                        pattern,
                        doc_lines[k],
                        texts[k],
                    ) && hold_none(texts[k], open),
                }
        }),
    ensures
        matching::fill_spec(matcher, doc) == Ok::<_, Seq<char>>(doc),
{
    let list = lines::split(matcher.content, '\n');
    let doc_lines = lines::split(doc, '\n');
    lemma_fill_all(list, matcher.lines, doc_lines, texts, open, 0);
    assert(doc_lines.skip(0) =~= doc_lines);
    lines::lemma_join_split(doc, '\n');
    reveal_strlit("\n");
    assert("\n"@ =~= seq!['\n']);
}

proof fn lemma_fill_all(
    list: Seq<Seq<char>>,
    patterns: Seq<Option<PatternModel>>,
    doc_lines: Seq<Seq<char>>,
    texts: Seq<Seq<Seq<char>>>,
    open: char,
    k: int,
)
    requires
        0 <= k <= list.len(),
        doc_lines.len() == list.len(),
        patterns.len() == list.len(),
        texts.len() == list.len(),
        forall|k: int|
            0 <= k < list.len() ==> match #[trigger] patterns[k] {
                None => doc_lines[k] == list[k],
                Some(pattern) => is_set_off(pattern, list[k], open) && takes_values(
                    pattern,
                    doc_lines[k],
                    texts[k],
                ) && hold_none(texts[k], open),
            },
    ensures
        matching::fill_from(list, patterns, doc_lines, k, k) == Ok::<_, Seq<char>>(
            doc_lines.skip(k),
        ),
    decreases list.len() - k,
{
    if k < list.len() {
        lemma_fill_all(list, patterns, doc_lines, texts, open, k + 1);
        if let Some(pattern) = patterns[k] {
            law_filled_line_is_the_doc_line(list[k], pattern, doc_lines, k, texts[k], open);
        }
        assert(seq![doc_lines[k]] + doc_lines.skip(k + 1) =~= doc_lines.skip(k));
    } else {
        assert(doc_lines.skip(k) =~= Seq::empty());
    }
}

} // verus!
