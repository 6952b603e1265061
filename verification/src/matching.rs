//! Comparing marked code with doc blocks: exactly, except where the code has
//! placeholders (declared with `param`), which match any value on their line,
//! the same value wherever the same placeholder appears.

use crate::apply;
use crate::bytes;
use crate::engines;
use crate::engines::Segment;
use crate::lightbulb;
use crate::lines;
use crate::maps;
use crate::maps::TextMap;
use crate::markers;
use crate::numbers;
use crate::text;
use vstd::prelude::*;

verus! {

/// The value each placeholder took
pub type Values = TextMap;

// ---------------------------------------------------------------------------
// Patterns
// ---------------------------------------------------------------------------

/// `list`, longest first, with one more text after those at least as long
pub open spec fn insert_by_length(list: Seq<Seq<char>>, added: Seq<char>) -> Seq<Seq<char>>
    decreases list.len(),
{
    if list.len() > 0 && bytes::byte_len(list.last()) < bytes::byte_len(added) {
        insert_by_length(list.drop_last(), added).push(list.last())
    } else {
        list.push(added)
    }
}

/// Texts, longest first; those of the same length in the same order
pub open spec fn by_length(list: Seq<Seq<char>>) -> Seq<Seq<char>>
    decreases list.len(),
{
    if list.len() == 0 {
        Seq::empty()
    } else {
        insert_by_length(by_length(list.drop_last()), list.last())
    }
}

proof fn lemma_insert_by_length(list: Seq<Seq<char>>, added: Seq<char>, p: int)
    requires
        0 <= p <= list.len(),
        forall|i: int|
            p <= i < list.len() ==> bytes::byte_len(#[trigger] list[i]) < bytes::byte_len(added),
        p > 0 ==> bytes::byte_len(list[p - 1]) >= bytes::byte_len(added),
    ensures
        insert_by_length(list, added) == list.insert(p, added),
    decreases list.len(),
{
    if p < list.len() {
        assert(list.last() == list[list.len() - 1]);
        lemma_insert_by_length(list.drop_last(), added, p);
        assert(list.drop_last().insert(p, added).push(list.last()) =~= list.insert(p, added));
    } else {
        assert(list.push(added) =~= list.insert(p, added));
    }
}

/// Texts, longest first
fn sorted_by_length(list: &Vec<String>) -> (sorted: Vec<String>)
    ensures
        text::views(sorted@) == by_length(text::views(list@)),
{
    let ghost views = text::views(list@);
    let mut sorted: Vec<String> = Vec::new();
    let mut i: usize = 0;
    assert(text::views(sorted@) =~= by_length(views.take(0)));
    while i < list.len()
        invariant
            i <= list@.len(),
            views == text::views(list@),
            text::views(sorted@) == by_length(views.take(i as int)),
        decreases list@.len() - i,
    {
        let length = bytes::byte_length(list[i].as_str());
        let ghost done = text::views(sorted@);
        let mut p: usize = sorted.len();
        while p > 0 && bytes::byte_length(sorted[p - 1].as_str()) < length
            invariant
                p <= sorted@.len(),
                done == text::views(sorted@),
                forall|k: int|
                    p <= k < done.len() ==> bytes::byte_len(#[trigger] done[k]) < length,
            decreases p,
        {
            p = p - 1;
        }
        let added = list[i].clone();
        proof {
            assert(views.take(i + 1).drop_last() =~= views.take(i as int));
            assert(views.take(i + 1).last() == list@[i as int]@);
            if p > 0 {
                assert(done[p - 1] == sorted@[p - 1]@);
            }
            lemma_insert_by_length(done, added@, p as int);
        }
        sorted.insert(p, added);
        assert(text::views(sorted@) =~= done.insert(p as int, added@));
        i = i + 1;
    }
    assert(views.take(i as int) =~= views);
    sorted
}

/// The pattern that finds any of the placeholders, longest first
pub open spec fn finder_source(placeholders: Seq<Seq<char>>) -> Seq<char> {
    engines::alternatives_source(by_length(placeholders))
}

/// A pattern finding any of the placeholders, longest first
pub fn placeholder_finder(placeholders: &Vec<String>) -> (finder: Result<String, String>)
    ensures
        match finder {
            Ok(finder) => finder@ == finder_source(text::views(placeholders@))
                && engines::fancy_accepts(finder@),
            Err(error) => engines::fancy_refusal(finder_source(text::views(placeholders@))) matches Some(
                reason,
            ) && error@ == "compiling the placeholder regex"@ + ": "@ + reason,
        },
{
    let sorted = sorted_by_length(placeholders);
    let ghost all = engines::fancy_escaped_all(text::views(sorted@));
    let mut escaped: Vec<String> = Vec::new();
    let mut i: usize = 0;
    while i < sorted.len()
        invariant
            i <= sorted@.len(),
            all == engines::fancy_escaped_all(text::views(sorted@)),
            text::views(escaped@) == all.take(i as int),
        decreases sorted@.len() - i,
    {
        let part = engines::fancy_escape(sorted[i].as_str());
        proof {
            text::lemma_views_push(escaped@, part);
            assert(all.take(i as int).push(part@) =~= all.take(i + 1));
        }
        escaped.push(part);
        i = i + 1;
    }
    assert(all.take(i as int) =~= all);
    let joined = lines::join_texts(&escaped, "|");
    let finder = text::surround("(", joined.as_str(), ")");
    match engines::fancy_compile(finder.as_str()) {
        Ok(_) => Ok(finder),
        Err(reason) => Err(lightbulb::error_in("compiling the placeholder regex", reason)),
    }
}

/// Code as literal text around the values of placeholders
pub struct PatternModel {
    pub segments: Seq<Segment>,
    /// The placeholders, in the order they first appear
    pub names: Seq<Seq<char>>,
}

/// Code up to a byte offset, as literal text around the values of placeholders
pub struct SplitModel {
    pub pattern: PatternModel,
    pub consumed: int,
}

/// A pattern with one more placeholder, after literal text
pub open spec fn with_placeholder(
    pattern: PatternModel,
    between: Seq<char>,
    placeholder: Seq<char>,
) -> PatternModel {
    let head = pattern.segments.push(Segment::Text(between));
    match markers::index_of(pattern.names, placeholder) {
        Some(k) => PatternModel {
            segments: head.push(Segment::Again(k as nat)),
            names: pattern.names,
        },
        None => PatternModel {
            segments: head.push(Segment::Value(pattern.names.len())),
            names: pattern.names.push(placeholder),
        },
    }
}

/// Code up to the end of the last of `spans`, which are where placeholders are; none
/// when one isn't on character boundaries
pub open spec fn split_spec(content: Seq<char>, spans: Seq<(usize, usize)>) -> Option<SplitModel>
    decreases spans.len(),
{
    if spans.len() == 0 {
        Some(
            SplitModel {
                pattern: PatternModel { segments: Seq::empty(), names: Seq::empty() },
                consumed: 0,
            },
        )
    } else {
        match split_spec(content, spans.drop_last()) {
            None => None,
            Some(head) => {
                let (start, end) = spans.last();
                if head.consumed <= start <= end && bytes::is_boundary(content, head.consumed)
                    && bytes::is_boundary(content, start as int) && bytes::is_boundary(
                    content,
                    end as int,
                ) {
                    Some(
                        SplitModel {
                            pattern: with_placeholder(
                                head.pattern,
                                bytes::byte_range(content, head.consumed, start as int),
                                bytes::byte_range(content, start as int, end as int),
                            ),
                            consumed: end as int,
                        },
                    )
                } else {
                    None
                }
            },
        }
    }
}

/// The whole code, as literal text around the placeholders at `spans`
pub open spec fn whole_spec(content: Seq<char>, spans: Seq<(usize, usize)>) -> Option<
    PatternModel,
> {
    match split_spec(content, spans) {
        None => None,
        Some(split) => if bytes::is_boundary(content, split.consumed) {
            Some(
                PatternModel {
                    segments: split.pattern.segments.push(
                        Segment::Text(bytes::from_byte(content, split.consumed)),
                    ),
                    names: split.pattern.names,
                },
            )
        } else {
            None
        },
    }
}

/// Code with placeholders as a pattern, or why it can't be one
pub open spec fn pattern_spec(content: Seq<char>, placeholders: Seq<Seq<char>>) -> Result<
    PatternModel,
    Seq<char>,
> {
    let finder = finder_source(placeholders);
    match engines::fancy_refusal(finder) {
        Some(reason) => Err("compiling the placeholder regex"@ + ": "@ + reason),
        None => match engines::fancy_found_all(finder, content) {
            Err(reason) => Err("finding placeholders"@ + ": "@ + reason),
            Ok(spans) => match whole_spec(content, spans) {
                None => Err("placeholder match isn't on character boundaries"@),
                Some(pattern) => match engines::fancy_refusal(
                    engines::pattern_source(pattern.segments),
                ) {
                    Some(reason) => Err("compiling the pattern for the code"@ + ": "@ + reason),
                    None => Ok(pattern),
                },
            },
        },
    }
}

/// Whether none of `texts` is empty
pub open spec fn none_empty(texts: Seq<Seq<char>>) -> bool {
    forall|i: int| 0 <= i < texts.len() ==> (#[trigger] texts[i]).len() > 0
}

/// Places in a text, as byte ranges
pub open spec fn place_spans(s: Seq<char>, found: Seq<(int, int)>) -> Seq<(usize, usize)> {
    Seq::new(
        found.len(),
        |i: int|
            (engines::byte_place(s, found[i]).0 as usize, engines::byte_place(
                s,
                found[i],
            ).1 as usize),
    )
}

/// Code as literal text around its placeholders, none of which is empty: they are
/// found from left to right, the longest first
pub open spec fn code_pattern(content: Seq<char>, placeholders: Seq<Seq<char>>) -> Option<
    PatternModel,
> {
    whole_spec(
        content,
        place_spans(content, engines::places(by_length(placeholders), content, 0)),
    )
}

proof fn lemma_insert_by_length_keeps(list: Seq<Seq<char>>, added: Seq<char>)
    ensures
        insert_by_length(list, added).to_multiset() == list.to_multiset().insert(added),
        insert_by_length(list, added).len() == list.len() + 1,
    decreases list.len(),
{
    broadcast use vstd::seq_lib::group_to_multiset_ensures;

    if list.len() > 0 && bytes::byte_len(list.last()) < bytes::byte_len(added) {
        lemma_insert_by_length_keeps(list.drop_last(), added);
        assert(list =~= list.drop_last().push(list.last()));
        assert(insert_by_length(list, added).to_multiset() =~= list.to_multiset().insert(added));
    }
}

/// Sorting by length keeps the texts
pub proof fn lemma_by_length(list: Seq<Seq<char>>)
    ensures
        by_length(list).len() == list.len(),
        by_length(list).to_multiset() == list.to_multiset(),
    decreases list.len(),
{
    broadcast use vstd::seq_lib::group_to_multiset_ensures;

    if list.len() > 0 {
        lemma_by_length(list.drop_last());
        lemma_insert_by_length_keeps(by_length(list.drop_last()), list.last());
        assert(list =~= list.drop_last().push(list.last()));
    } else {
        assert(list =~= Seq::empty());
    }
}

proof fn lemma_by_length_nonempty(list: Seq<Seq<char>>)
    requires
        none_empty(list),
    ensures
        none_empty(by_length(list)),
        by_length(list).len() == list.len(),
{
    broadcast use vstd::seq_lib::group_to_multiset_ensures;

    lemma_by_length(list);
    let sorted = by_length(list);
    assert forall|i: int| 0 <= i < sorted.len() implies (#[trigger] sorted[i]).len() > 0 by {
        assert(sorted.contains(sorted[i]));
        assert(sorted.to_multiset().count(sorted[i]) > 0);
        assert(list.to_multiset().count(sorted[i]) > 0);
        assert(list.contains(sorted[i]));
    }
}

/// Places are in order, and each holds one of the texts
pub proof fn lemma_places(texts: Seq<Seq<char>>, s: Seq<char>, from: int)
    requires
        0 <= from <= s.len(),
    ensures
        forall|i: int|
            0 <= i < engines::places(texts, s, from).len() ==> {
                let place = #[trigger] engines::places(texts, s, from)[i];
                &&& from <= place.0 < place.1 <= s.len()
                &&& texts.contains(s.subrange(place.0, place.1))
            },
        forall|i: int, j: int|
            0 <= i < j < engines::places(texts, s, from).len() ==> (
            #[trigger] engines::places(texts, s, from)[i]).1 <= (#[trigger] engines::places(
                texts,
                s,
                from,
            )[j]).0,
    decreases s.len() - from,
{
    if from < s.len() {
        engines::lemma_first_at(texts, s.skip(from));
        match engines::first_at(texts, s.skip(from)) {
            Some(k) => {
                let n = texts[k].len();
                if n > 0 {
                    lemma_places(texts, s, from + n);
                    assert(s.subrange(from, from + n) =~= texts[k]) by {
                        assert(s.skip(from).take(n as int) =~= texts[k]);
                        assert(s.subrange(from, from + n) =~= s.skip(from).take(n as int));
                    }
                    let rest = engines::places(texts, s, from + n);
                    let all = engines::places(texts, s, from);
                    assert(all == seq![(from, from + n)] + rest);
                    assert(all[0] == (from, from + n));
                    assert(texts.contains(texts[k]));
                    assert forall|i: int| 0 <= i < all.len() implies {
                        let place = #[trigger] all[i];
                        &&& from <= place.0 < place.1 <= s.len()
                        &&& texts.contains(s.subrange(place.0, place.1))
                        &&& i > 0 ==> place.0 >= from + n
                    } by {
                        if i > 0 {
                            assert(all[i] == rest[i - 1]);
                        }
                    }
                    assert forall|i: int, j: int| 0 <= i < j < all.len() implies (
                    #[trigger] all[i]).1 <= (#[trigger] all[j]).0 by {
                        if i > 0 {
                            assert(all[i] == rest[i - 1]);
                            assert(all[j] == rest[j - 1]);
                        }
                    }
                } else {
                    lemma_places(texts, s, from + 1);
                    assert(engines::places(texts, s, from) == engines::places(texts, s, from + 1));
                }
            },
            None => {
                lemma_places(texts, s, from + 1);
                assert(engines::places(texts, s, from) == engines::places(texts, s, from + 1));
            },
        }
    } else {
        assert(engines::places(texts, s, from).len() == 0);
    }
}

pub proof fn lemma_split_places(s: Seq<char>, found: Seq<(int, int)>)
    requires
        bytes::byte_len(s) <= usize::MAX,
        forall|i: int| 0 <= i < found.len() ==> 0 <= (#[trigger] found[i]).0 < found[i].1 <= s.len(),
        forall|i: int, j: int|
            0 <= i < j < found.len() ==> (#[trigger] found[i]).1 <= (#[trigger] found[j]).0,
    ensures
        split_spec(s, place_spans(s, found)) matches Some(split) && split.consumed
            == bytes::byte_len(
            s.take(
                if found.len() > 0 {
                    found.last().1
                } else {
                    0
                },
            ),
        ),
    decreases found.len(),
{
    let spans = place_spans(s, found);
    if found.len() == 0 {
        assert(s.take(0) =~= Seq::empty());
        assert(bytes::byte_len(Seq::<char>::empty()) == 0);
    } else {
        let head = found.drop_last();
        let (start, end) = found.last();
        assert(spans.drop_last() =~= place_spans(s, head));
        lemma_split_places(s, head);
        let before = if head.len() > 0 {
            head.last().1
        } else {
            0
        };
        if head.len() > 0 {
            assert(found[found.len() - 2].1 <= found[found.len() - 1].0);
        }
        assert(s.take(s.len() as int) =~= s);
        bytes::lemma_byte_len_take(s, before, start);
        bytes::lemma_byte_len_take(s, start, end);
        bytes::lemma_byte_len_take(s, end, s.len() as int);
        bytes::lemma_char_index(s, before);
        bytes::lemma_char_index(s, start);
        bytes::lemma_char_index(s, end);
    }
}

/// Code always is literal text around its placeholders
pub proof fn law_code_has_a_pattern(content: Seq<char>, placeholders: Seq<Seq<char>>)
    requires
        bytes::byte_len(content) <= usize::MAX,
    ensures
        code_pattern(content, placeholders) is Some,
{
    let texts = by_length(placeholders);
    let found = engines::places(texts, content, 0);
    lemma_places(texts, content, 0);
    lemma_split_places(content, found);
    let last = if found.len() > 0 {
        found.last().1
    } else {
        0
    };
    bytes::lemma_char_index(content, last);
}

/// Whether `texts` are values of the placeholders that make the code `doc`
pub open spec fn fits(pattern: PatternModel, doc: Seq<char>, texts: Seq<Seq<char>>) -> bool {
    engines::are_values(pattern.segments, texts) && engines::filled(pattern.segments, texts) == doc
}

/// Code with placeholders, as a pattern
pub struct Pattern {
    source: String,
    placeholders: Vec<String>,
    /// The capture group of each placeholder
    groups: Vec<String>,
    model: Ghost<PatternModel>,
}

impl View for Pattern {
    type V = PatternModel;

    closed spec fn view(&self) -> PatternModel {
        self.model@
    }
}

/// Values take part only where there are that many
proof fn lemma_filled_more(segments: Seq<Segment>, values: Seq<Seq<char>>, more: Seq<char>)
    requires
        engines::in_sequence(segments),
        engines::value_count(segments) <= values.len(),
    ensures
        engines::filled(segments, values.push(more)) == engines::filled(segments, values),
    decreases segments.len(),
{
    if segments.len() > 0 {
        lemma_filled_more(segments.drop_last(), values, more);
    }
}

/// A pattern keeps its placeholders in sequence, and is the code itself with each
/// placeholder for its own value
proof fn lemma_split(content: Seq<char>, spans: Seq<(usize, usize)>)
    ensures
        split_spec(content, spans) matches Some(split) ==> {
            let pattern = split.pattern;
            &&& engines::in_sequence(pattern.segments)
            &&& engines::value_count(pattern.segments) == pattern.names.len()
            &&& pattern.names.no_duplicates()
            &&& bytes::is_boundary(content, split.consumed)
            &&& engines::filled(pattern.segments, pattern.names) == bytes::before_byte(
                content,
                split.consumed,
            )
        },
    decreases spans.len(),
{
    if spans.len() == 0 {
        assert(content.take(0) =~= Seq::empty());
        bytes::lemma_char_index(content, 0);
        assert(bytes::byte_len(Seq::<char>::empty()) == 0);
        assert(bytes::before_byte(content, 0) =~= Seq::empty());
    } else {
        lemma_split(content, spans.drop_last());
        if let Some(split) = split_spec(content, spans) {
            let head = split_spec(content, spans.drop_last())->0;
            let (start, end) = spans.last();
            let between = bytes::byte_range(content, head.consumed, start as int);
            let placeholder = bytes::byte_range(content, start as int, end as int);
            let names = head.pattern.names;
            let segments = head.pattern.segments;
            let middle = segments.push(Segment::Text(between));
            bytes::lemma_boundary(content, head.consumed);
            bytes::lemma_boundary(content, start as int);
            bytes::lemma_boundary(content, end as int);
            let a = bytes::char_index(content, head.consumed);
            let b = bytes::char_index(content, start as int);
            let c = bytes::char_index(content, end as int);
            if b < a {
                bytes::lemma_byte_len_take(content, b, a);
            }
            if c < b {
                bytes::lemma_byte_len_take(content, c, b);
            }
            assert(middle.drop_last() =~= segments);
            assert(engines::in_sequence(middle));
            assert(engines::value_count(middle) == names.len());
            assert(engines::filled(middle, names) =~= content.take(b)) by {
                assert(content.take(a) + between =~= content.take(b));
            }
            assert(content.take(b) + placeholder =~= content.take(c));
            markers::lemma_index_of(names, placeholder);
            let all = split.pattern.segments;
            assert(all.drop_last() =~= middle);
            match markers::index_of(names, placeholder) {
                Some(k) => {
                    assert(engines::filled(all, names) =~= content.take(c));
                },
                None => {
                    lemma_filled_more(middle, names, placeholder);
                    assert(engines::filled(all, names.push(placeholder)) =~= content.take(c));
                    assert(names.push(placeholder).no_duplicates()) by {
                        assert forall|i: int, j: int|
                            0 <= i < names.len() + 1 && 0 <= j < names.len() + 1 && i
                                != j implies names.push(placeholder)[i] != names.push(
                            placeholder,
                        )[j] by {
                            if i < names.len() {
                                assert(names.contains(names[i]));
                            }
                            if j < names.len() {
                                assert(names.contains(names[j]));
                            }
                        }
                    }
                },
            }
        }
    }
}

/// The code is its own pattern with each placeholder for its own value
pub proof fn law_pattern_is_the_code(content: Seq<char>, spans: Seq<(usize, usize)>)
    ensures
        whole_spec(content, spans) matches Some(pattern) ==> {
            &&& engines::in_sequence(pattern.segments)
            &&& engines::value_count(pattern.segments) == pattern.names.len()
            &&& pattern.names.no_duplicates()
            &&& engines::filled(pattern.segments, pattern.names) == content
        },
{
    lemma_split(content, spans);
    if let Some(pattern) = whole_spec(content, spans) {
        let split = split_spec(content, spans)->0;
        bytes::lemma_boundary(content, split.consumed);
        assert(pattern.segments.drop_last() =~= split.pattern.segments);
    }
}

/// The texts that groups hold; nothing for one that took no part
pub open spec fn held_texts(groups: Seq<Option<Seq<char>>>) -> Seq<Seq<char>> {
    Seq::new(
        groups.len(),
        |k: int|
            match groups[k] {
                Some(held) => held,
                None => Seq::empty(),
            },
    )
}

/// The values that make a pattern `doc`, as the engine finds them
pub open spec fn captures_spec(pattern: PatternModel, doc: Seq<char>) -> Result<
    Option<Seq<(Seq<char>, Seq<char>)>>,
    Seq<char>,
> {
    match engines::fancy_captured(
        engines::pattern_source(pattern.segments),
        engines::group_names(pattern.names.len()),
        doc,
    ) {
        Err(reason) => Err("matching the code's pattern"@ + ": "@ + reason),
        Ok(None) => Ok(None),
        Ok(Some(groups)) => Ok(Some(maps::values_of(pattern.names, held_texts(groups)))),
    }
}

/// The values `texts` of the placeholders `names`
pub fn pair_values(names: &Vec<String>, texts: &Vec<Option<String>>) -> (values: Values)
    requires
        texts@.len() == names@.len(),
    ensures
        values@ == maps::values_of(text::views(names@), held_texts(engines::group_texts(texts@))),
{
    let ghost name_views = text::views(names@);
    let ghost held = held_texts(engines::group_texts(texts@));
    let mut values = Values::new();
    let mut i: usize = 0;
    while i < names.len()
        invariant
            i <= names@.len(),
            texts@.len() == names@.len(),
            name_views == text::views(names@),
            held == held_texts(engines::group_texts(texts@)),
            values@ == maps::values_of(name_views.take(i as int), held.take(i as int)),
        decreases names@.len() - i,
    {
        let value = match &texts[i] {
            Some(value) => value.clone(),
            None => String::new(),
        };
        proof {
            assert(name_views.take(i + 1).drop_last() =~= name_views.take(i as int));
            assert(held.take(i + 1).drop_last() =~= held.take(i as int));
            assert(name_views.take(i + 1).last() == names@[i as int]@);
            assert(held.take(i + 1).last() == value@);
        }
        values.set(names[i].clone(), value);
        i = i + 1;
    }
    proof {
        assert(name_views.take(i as int) =~= name_views);
        assert(held.take(i as int) =~= held);
    }
    values
}

/// Where the placeholder `wanted` first appeared
fn known_index(placeholders: &Vec<String>, wanted: &str) -> (found: Option<usize>)
    ensures
        match found {
            Some(i) => i < placeholders@.len() && markers::index_of(
                text::views(placeholders@),
                wanted@,
            ) == Some(i as int),
            None => markers::index_of(text::views(placeholders@), wanted@) is None,
        },
{
    let ghost names = text::views(placeholders@);
    let mut i: usize = 0;
    while i < placeholders.len()
        invariant
            i <= placeholders@.len(),
            names == text::views(placeholders@),
            forall|j: int| 0 <= j < i ==> names[j] != wanted@,
        decreases placeholders@.len() - i,
    {
        if text::same(placeholders[i].as_str(), wanted) {
            proof {
                markers::lemma_index_of_is(names, wanted@, i as int);
            }
            return Some(i);
        }
        i = i + 1;
    }
    proof {
        markers::lemma_index_of(names, wanted@);
    }
    None
}

impl Pattern {
    pub closed spec fn wf(self) -> bool {
        &&& self.source@ == engines::pattern_source(self@.segments)
        &&& text::views(self.placeholders@) == self@.names
        &&& text::views(self.groups@) == engines::group_names(self@.names.len())
        &&& engines::in_sequence(self@.segments)
        &&& engines::value_count(self@.segments) == self@.names.len()
        &&& engines::fancy_accepts(self.source@)
    }

    /// The pattern of some code with placeholders
    pub fn new(content: &str, placeholders: &Vec<String>) -> (pattern: Result<Self, String>)
        ensures
            match pattern {
                Ok(pattern) => pattern.wf() && pattern_spec(
                    content@,
                    text::views(placeholders@),
                ) == Ok::<_, Seq<char>>(pattern@),
                Err(error) => pattern_spec(content@, text::views(placeholders@)) == Err::<
                    PatternModel,
                    _,
                >(error@),
            },
            pattern matches Ok(pattern) ==> placeholders@.len() > 0 && none_empty(
                text::views(placeholders@),
            ) ==> code_pattern(content@, text::views(placeholders@)) == Some(pattern@),
    {
        let finder = match placeholder_finder(placeholders) {
            Ok(finder) => finder,
            Err(error) => {
                return Err(error);
            },
        };
        let spans = match engines::fancy_find_iter(finder.as_str(), content) {
            Ok(spans) => spans,
            Err(reason) => {
                return Err(lightbulb::error_in("finding placeholders", reason));
            },
        };
        proof {
            let names = text::views(placeholders@);
            if placeholders@.len() > 0 && none_empty(names) {
                lemma_by_length_nonempty(names);
                let found = engines::places(by_length(names), content@, 0);
                assert(finder@ == engines::alternatives_source(by_length(names)));
                assert(spans@ =~= place_spans(content@, found)) by {
                    assert forall|i: int| 0 <= i < spans@.len() implies spans@[i] == place_spans(
                        content@,
                        found,
                    )[i] by {
                        let byte_range = engines::byte_place(content@, found[i]);
                        assert((spans@[i].0 as int, spans@[i].1 as int) == byte_range);
                    }
                }
            }
        }
        match Self::from_spans(content, &spans) {
            None => Err("placeholder match isn't on character boundaries".to_owned()),
            Some(pattern) => match engines::fancy_compile(pattern.source.as_str()) {
                Ok(_) => Ok(pattern),
                Err(reason) => Err(
                    lightbulb::error_in("compiling the pattern for the code", reason),
                ),
            },
        }
    }

    /// The pattern of some code with placeholders at `spans`; none when one isn't on
    /// character boundaries
    fn from_spans(content: &str, spans: &Vec<(usize, usize)>) -> (pattern: Option<Self>)
        ensures
            match pattern {
                Some(pattern) => whole_spec(content@, spans@) == Some(pattern@)
                    && pattern.source@ == engines::pattern_source(pattern@.segments)
                    && engines::in_sequence(pattern@.segments) && (
                engines::fancy_accepts(pattern.source@) ==> pattern.wf()),
                None => whole_spec(content@, spans@) is None,
            },
    {
        let mut placeholders: Vec<String> = Vec::new();
        let mut groups: Vec<String> = Vec::new();
        let mut source = "\\A".to_owned();
        let mut consumed: usize = 0;
        let ghost mut segments: Seq<Segment> = Seq::empty();
        let mut i: usize = 0;
        proof {
            assert(text::views(placeholders@) =~= Seq::empty());
            assert(text::views(groups@) =~= engines::group_names(0));
            assert("\\A"@ + engines::segment_sources(segments) =~= "\\A"@);
        }
        while i < spans.len()
            invariant
                i <= spans@.len(),
                split_spec(content@, spans@.take(i as int)) == Some(
                    SplitModel {
                        pattern: PatternModel {
                            segments,
                            names: text::views(placeholders@),
                        },
                        consumed: consumed as int,
                    },
                ),
                text::views(groups@) == engines::group_names(placeholders@.len()),
                source@ == "\\A"@ + engines::segment_sources(segments),
            decreases spans@.len() - i,
        {
            let (start, end) = spans[i];
            proof {
                assert(spans@.take(i + 1).drop_last() =~= spans@.take(i as int));
                assert(spans@.take(i + 1).last() == spans@[i as int]);
            }
            let between = match bytes::slice(content, consumed, start) {
                Some(between) => between,
                None => {
                    proof {
                        lemma_split_stops(content@, spans@, i + 1);
                    }
                    return None;
                },
            };
            let placeholder = match bytes::slice(content, start, end) {
                Some(placeholder) => placeholder,
                None => {
                    proof {
                        lemma_split_stops(content@, spans@, i + 1);
                    }
                    return None;
                },
            };
            let ghost names = text::views(placeholders@);
            let ghost before = source@;
            let escaped = engines::fancy_escape(between.as_str());
            source.append(escaped.as_str());
            let ghost middle = segments.push(Segment::Text(between@));
            proof {
                assert(middle.drop_last() =~= segments);
                assert(source@ =~= "\\A"@ + engines::segment_sources(middle));
            }
            match known_index(&placeholders, placeholder.as_str()) {
                Some(k) => {
                    let number = numbers::decimal(k);
                    let ghost so_far = source@;
                    source.append("\\k<");
                    source.append("p");
                    source.append(number.as_str());
                    source.append(">");
                    proof {
                        let all = middle.push(Segment::Again(k as nat));
                        assert(all.drop_last() =~= middle);
                        assert(source@ =~= so_far + engines::segment_source(all.last()));
                        assert(source@ =~= "\\A"@ + engines::segment_sources(all));
                        segments = all;
                    }
                },
                None => {
                    let number = numbers::decimal(groups.len());
                    let mut group = "p".to_owned();
                    group.append(number.as_str());
                    let ghost so_far = source@;
                    source.append("(?<");
                    source.append(group.as_str());
                    source.append(">[^\\n]*?)");
                    proof {
                        assert(groups@.len() == text::views(groups@).len());
                        let all = middle.push(Segment::Value(names.len()));
                        assert(all.drop_last() =~= middle);
                        assert(source@ =~= so_far + engines::segment_source(all.last()));
                        assert(source@ =~= "\\A"@ + engines::segment_sources(all));
                        text::lemma_views_push(placeholders@, placeholder);
                        text::lemma_views_push(groups@, group);
                        assert(engines::group_names(names.len()).push(group@)
                            =~= engines::group_names(names.len() + 1));
                        segments = all;
                    }
                    placeholders.push(placeholder);
                    groups.push(group);
                },
            }
            consumed = end;
            i = i + 1;
        }
        assert(spans@.take(i as int) =~= spans@);
        match bytes::split_at(content, consumed) {
            None => None,
            Some((_, tail)) => {
                let escaped = engines::fancy_escape(tail.as_str());
                source.append(escaped.as_str());
                source.append("\\z");
                let ghost all = segments.push(Segment::Text(tail@));
                proof {
                    assert(all.drop_last() =~= segments);
                    assert(source@ =~= engines::pattern_source(all));
                    law_pattern_is_the_code(content@, spans@);
                }
                Some(
                    Pattern {
                        source,
                        placeholders,
                        groups,
                        model: Ghost(
                            PatternModel { segments: all, names: text::views(placeholders@) },
                        ),
                    },
                )
            },
        }
    }

    /// The value each placeholder takes where the code matches `doc`: values that make
    /// the code `doc`, and none only when no values do
    pub fn captures(&self, doc: &str) -> (values: Result<Option<Values>, String>)
        requires
            self.wf(),
        ensures
            captured_as(self@, doc@, values),
            values matches Ok(Some(values)) ==> exists|texts: Seq<Seq<char>>|
                #[trigger] fits(self@, doc@, texts) && values@ == maps::values_of(self@.names, texts),
            values matches Ok(None) ==> forall|texts: Seq<Seq<char>>|
                !#[trigger] fits(self@, doc@, texts),
    {
        match engines::fancy_captures(self.source.as_str(), &self.groups, doc) {
            Err(reason) => Err(lightbulb::error_in("matching the code's pattern", reason)),
            Ok(None) => {
                proof {
                    assert(self.source@ == engines::pattern_source(self@.segments));
                    assert forall|texts: Seq<Seq<char>>| !#[trigger] fits(
                        self@,
                        doc@,
                        texts,
                    ) by {
                        if fits(self@, doc@, texts) {
                            assert(engines::filled(self@.segments, texts) != doc@);
                        }
                    }
                }
                Ok(None)
            },
            Ok(Some(found)) => {
                proof {
                    assert(self.source@ == engines::pattern_source(self@.segments));
                    let groups = engines::group_texts(found@);
                    let texts = Seq::new(groups.len(), |k: int| groups[k]->0);
                    assert(engines::captures_values(self@.segments, doc@, Some(groups)));
                    assert(held_texts(groups) =~= texts);
                    assert(fits(self@, doc@, texts));
                    assert(groups.len() == found@.len());
                }
                Ok(Some(pair_values(&self.placeholders, &found)))
            },
        }
    }

    /// The first of `doc_lines` from `start` on that this matches: its index
    /// and the values it gives
    pub fn first_match(&self, doc_lines: &Vec<String>, start: usize) -> (found: Result<
        Option<(usize, Values)>,
        String,
    >)
        requires
            self.wf(),
        ensures
            match found {
                Ok(Some((index, values))) => first_match_spec(
                    self@,
                    text::views(doc_lines@),
                    start as int,
                ) == Ok::<_, Seq<char>>(Some((index as int, values@))) && start <= index
                    < doc_lines@.len(),
                Ok(None) => first_match_spec(self@, text::views(doc_lines@), start as int) == Ok::<
                    _,
                    Seq<char>,
                >(None::<(int, Seq<(Seq<char>, Seq<char>)>)>),
                Err(error) => first_match_spec(
                    self@,
                    text::views(doc_lines@),
                    start as int,
                ) == Err::<Option<(int, Seq<(Seq<char>, Seq<char>)>)>, _>(error@),
            },
    {
        let ghost views = text::views(doc_lines@);
        let mut i: usize = start;
        while i < doc_lines.len()
            invariant
                self.wf(),
                views == text::views(doc_lines@),
                start <= i,
                first_match_spec(self@, views, start as int) == first_match_spec(
                    self@,
                    views,
                    i as int,
                ),
            decreases doc_lines@.len() - i,
        {
            match self.captures(doc_lines[i].as_str()) {
                Err(error) => {
                    return Err(error);
                },
                Ok(Some(values)) => {
                    return Ok(Some((i, values)));
                },
                Ok(None) => {},
            }
            i = i + 1;
        }
        Ok(None)
    }
}

proof fn lemma_split_stops(content: Seq<char>, spans: Seq<(usize, usize)>, i: int)
    requires
        0 <= i <= spans.len(),
        split_spec(content, spans.take(i)) is None,
    ensures
        split_spec(content, spans) is None,
    decreases spans.len(),
{
    if i == spans.len() {
        assert(spans.take(i) =~= spans);
    } else {
        assert(spans.drop_last().take(i) =~= spans.take(i));
        lemma_split_stops(content, spans.drop_last(), i);
    }
}

/// Whether `values` are the values that the engine finds for `doc`
pub open spec fn captured_as(
    pattern: PatternModel,
    doc: Seq<char>,
    values: Result<Option<Values>, String>,
) -> bool {
    match values {
        Ok(Some(values)) => captures_spec(pattern, doc) == Ok::<_, Seq<char>>(Some(values@)),
        Ok(None) => captures_spec(pattern, doc) == Ok::<_, Seq<char>>(
            None::<Seq<(Seq<char>, Seq<char>)>>,
        ),
        Err(error) => captures_spec(pattern, doc) == Err::<
            Option<Seq<(Seq<char>, Seq<char>)>>,
            _,
        >(error@),
    }
}

/// The first doc line from line `start` on that a pattern matches, and the values
pub open spec fn first_match_spec(
    pattern: PatternModel,
    doc_lines: Seq<Seq<char>>,
    start: int,
) -> Result<Option<(int, Seq<(Seq<char>, Seq<char>)>)>, Seq<char>>
    decreases doc_lines.len() - start,
{
    if !(0 <= start < doc_lines.len()) {
        Ok(None)
    } else {
        match captures_spec(pattern, doc_lines[start]) {
            Err(error) => Err(error),
            Ok(Some(values)) => Ok(Some((start, values))),
            Ok(None) => first_match_spec(pattern, doc_lines, start + 1),
        }
    }
}

// ---------------------------------------------------------------------------
// Matchers
// ---------------------------------------------------------------------------

/// The placeholders that stand in `s`
pub open spec fn used_in(placeholders: Seq<Seq<char>>, s: Seq<char>) -> Seq<Seq<char>>
    decreases placeholders.len(),
{
    if placeholders.len() == 0 {
        Seq::empty()
    } else if text::occurs(s, placeholders.last()) {
        used_in(placeholders.drop_last(), s).push(placeholders.last())
    } else {
        used_in(placeholders.drop_last(), s)
    }
}

/// The placeholders that stand in `content`
fn used_placeholders(placeholders: &Vec<String>, content: &str) -> (used: Vec<String>)
    ensures
        text::views(used@) == used_in(text::views(placeholders@), content@),
{
    let ghost views = text::views(placeholders@);
    let mut used: Vec<String> = Vec::new();
    let mut i: usize = 0;
    assert(text::views(used@) =~= used_in(views.take(0), content@));
    while i < placeholders.len()
        invariant
            i <= placeholders@.len(),
            views == text::views(placeholders@),
            text::views(used@) == used_in(views.take(i as int), content@),
        decreases placeholders@.len() - i,
    {
        proof {
            assert(views.take(i + 1).drop_last() =~= views.take(i as int));
            assert(views.take(i + 1).last() == placeholders@[i as int]@);
        }
        if text::contains(content, placeholders[i].as_str()) {
            let placeholder = placeholders[i].clone();
            proof {
                text::lemma_views_push(used@, placeholder);
            }
            used.push(placeholder);
        }
        i = i + 1;
    }
    assert(views.take(i as int) =~= views);
    used
}

/// The pattern of some code; none when no placeholders stand in it
pub open spec fn optional_pattern(content: Seq<char>, used: Seq<Seq<char>>) -> Result<
    Option<PatternModel>,
    Seq<char>,
> {
    if used.len() == 0 {
        Ok(None)
    } else {
        match pattern_spec(content, used) {
            Ok(pattern) => Ok(Some(pattern)),
            Err(error) => Err(error),
        }
    }
}

/// The pattern of a line of code, or why it can't be one
pub open spec fn line_pattern(line: Seq<char>, used: Seq<Seq<char>>) -> Result<
    Option<PatternModel>,
    Seq<char>,
> {
    match optional_pattern(line, used_in(used, line)) {
        Ok(pattern) => Ok(pattern),
        Err(error) => Err(
            "building the pattern for line "@ + apply::debug_text(line) + ": "@ + error,
        ),
    }
}

/// The patterns of lines of code, or why the first that can't be one can't
pub open spec fn line_patterns(list: Seq<Seq<char>>, used: Seq<Seq<char>>) -> Result<
    Seq<Option<PatternModel>>,
    Seq<char>,
>
    decreases list.len(),
{
    if list.len() == 0 {
        Ok(Seq::empty())
    } else {
        match line_patterns(list.drop_last(), used) {
            Err(error) => Err(error),
            Ok(patterns) => match line_pattern(list.last(), used) {
                Err(error) => Err(error),
                Ok(pattern) => Ok(patterns.push(pattern)),
            },
        }
    }
}

proof fn lemma_line_patterns_error(list: Seq<Seq<char>>, used: Seq<Seq<char>>, i: int)
    requires
        0 <= i <= list.len(),
        line_patterns(list.take(i), used) is Err,
    ensures
        line_patterns(list, used) == line_patterns(list.take(i), used),
    decreases list.len(),
{
    if i == list.len() {
        assert(list.take(i) =~= list);
    } else {
        assert(list.drop_last().take(i) =~= list.take(i));
        lemma_line_patterns_error(list.drop_last(), used, i);
    }
}

/// The placeholders that stand in some code are among them
proof fn lemma_used_in(placeholders: Seq<Seq<char>>, s: Seq<char>)
    requires
        none_empty(placeholders),
    ensures
        none_empty(used_in(placeholders, s)),
    decreases placeholders.len(),
{
    if placeholders.len() > 0 {
        let head = placeholders.drop_last();
        assert forall|i: int| 0 <= i < head.len() implies (#[trigger] head[i]).len() > 0 by {
            assert(head[i] == placeholders[i]);
        }
        lemma_used_in(head, s);
        assert(placeholders[placeholders.len() - 1].len() > 0);
    }
}

/// The pattern of some code with placeholders; none when none of them stands in it
pub open spec fn code_whole(content: Seq<char>, placeholders: Seq<Seq<char>>) -> Option<
    PatternModel,
> {
    let used = used_in(placeholders, content);
    if used.len() == 0 {
        None
    } else {
        code_pattern(content, used)
    }
}

/// Whether some code is `doc`, with values on one line for its placeholders, the same
/// wherever the same placeholder appears
pub open spec fn code_matches(
    content: Seq<char>,
    placeholders: Seq<Seq<char>>,
    doc: Seq<char>,
) -> bool {
    match code_whole(content, placeholders) {
        None => content == doc,
        Some(pattern) => exists|texts: Seq<Seq<char>>| #[trigger] fits(pattern, doc, texts),
    }
}

/// Code, compiled for matching
pub struct MatcherModel {
    pub content: Seq<char>,
    pub whole: Option<PatternModel>,
    pub lines: Seq<Option<PatternModel>>,
}

/// Code with placeholders, compiled for matching, or why it can't be
pub open spec fn matcher_spec(content: Seq<char>, placeholders: Seq<Seq<char>>) -> Result<
    MatcherModel,
    Seq<char>,
> {
    let used = used_in(placeholders, content);
    match line_patterns(lines::split(content, '\n'), used) {
        Err(error) => Err(error),
        Ok(patterns) => match optional_pattern(content, used) {
            Err(error) => Err("building the pattern for the whole code: "@ + error),
            Ok(whole) => Ok(MatcherModel { content, whole, lines: patterns }),
        },
    }
}

/// Matches doc text against some code with placeholders
pub struct Matcher {
    pub content: String,
    pub whole: Option<Pattern>,
    /// For each line of the content with placeholders: its pattern (for filling
    /// placeholders in for display)
    pub lines: Vec<Option<Pattern>>,
}

pub open spec fn pattern_view(pattern: Option<Pattern>) -> Option<PatternModel> {
    match pattern {
        Some(pattern) => Some(pattern@),
        None => None,
    }
}

pub open spec fn pattern_views(patterns: Seq<Option<Pattern>>) -> Seq<Option<PatternModel>> {
    Seq::new(patterns.len(), |i: int| pattern_view(patterns[i]))
}

pub open spec fn pattern_wf(pattern: Option<Pattern>) -> bool {
    pattern matches Some(pattern) ==> pattern.wf()
}

impl View for Matcher {
    type V = MatcherModel;

    open spec fn view(&self) -> MatcherModel {
        MatcherModel {
            content: self.content@,
            whole: pattern_view(self.whole),
            lines: pattern_views(self.lines@),
        }
    }
}

/// What matching some code against a doc block gives, as the engine finds it
pub open spec fn matches_spec(matcher: MatcherModel, doc: Seq<char>) -> Result<
    Option<Seq<(Seq<char>, Seq<char>)>>,
    Seq<char>,
> {
    match matcher.whole {
        None => if matcher.content == doc {
            Ok(Some(Seq::empty()))
        } else {
            Ok(None)
        },
        Some(pattern) => captures_spec(pattern, doc),
    }
}

/// Whether `values` are what matching some code against a doc block gives
pub open spec fn matched_as(
    matcher: MatcherModel,
    doc: Seq<char>,
    values: Result<Option<Values>, String>,
) -> bool {
    match values {
        Ok(Some(values)) => matches_spec(matcher, doc) == Ok::<_, Seq<char>>(Some(values@)),
        Ok(None) => matches_spec(matcher, doc) == Ok::<_, Seq<char>>(
            None::<Seq<(Seq<char>, Seq<char>)>>,
        ),
        Err(error) => matches_spec(matcher, doc) == Err::<
            Option<Seq<(Seq<char>, Seq<char>)>>,
            _,
        >(error@),
    }
}

/// Whether some code is `doc`, with values on one line for its placeholders, the same
/// wherever the same placeholder appears
pub open spec fn is_instance(matcher: MatcherModel, doc: Seq<char>) -> bool {
    match matcher.whole {
        None => matcher.content == doc,
        Some(pattern) => exists|texts: Seq<Seq<char>>| #[trigger] fits(pattern, doc, texts),
    }
}

/// The index of the first of `list` from `start` on that is `line`
pub open spec fn find_line(list: Seq<Seq<char>>, line: Seq<char>, start: int) -> Option<int>
    decreases list.len() - start,
{
    if !(0 <= start < list.len()) {
        None
    } else if list[start] == line {
        Some(start)
    } else {
        find_line(list, line, start + 1)
    }
}

/// A line with each placeholder replaced by its value, in order
pub open spec fn fill_values(line: Seq<char>, entries: Seq<(Seq<char>, Seq<char>)>) -> Seq<char>
    decreases entries.len(),
{
    if entries.len() == 0 {
        line
    } else {
        text::replaced(
            fill_values(line, entries.drop_last()),
            entries.last().0,
            entries.last().1,
        )
    }
}

/// A line of code with the values of the doc line it matched, and that line's index
pub open spec fn fill_line_spec(
    line: Seq<char>,
    pattern: Option<PatternModel>,
    doc_lines: Seq<Seq<char>>,
    start: int,
) -> Result<(Seq<char>, Option<int>), Seq<char>> {
    match pattern {
        None => Ok((line, find_line(doc_lines, line, start))),
        Some(pattern) => match first_match_spec(pattern, doc_lines, start) {
            Err(error) => Err(error),
            Ok(None) => Ok((line, None)),
            Ok(Some((index, values))) => Ok((fill_values(line, values), Some(index))),
        },
    }
}

/// The lines of code from line `k` on, with the values of doc lines from line `next` on
pub open spec fn fill_from(
    list: Seq<Seq<char>>,
    patterns: Seq<Option<PatternModel>>,
    doc_lines: Seq<Seq<char>>,
    k: int,
    next: int,
) -> Result<Seq<Seq<char>>, Seq<char>>
    decreases list.len() - k,
{
    if !(0 <= k < list.len()) || k >= patterns.len() {
        Ok(Seq::empty())
    } else {
        match fill_line_spec(list[k], patterns[k], doc_lines, next) {
            Err(error) => Err(error),
            Ok((line, matched_at)) => {
                let after = match matched_at {
                    Some(index) => index + 1,
                    None => next,
                };
                match fill_from(list, patterns, doc_lines, k + 1, after) {
                    Err(error) => Err(error),
                    Ok(others) => Ok(seq![line] + others),
                }
            },
        }
    }
}

/// Some code with the values of a doc block, line by line
pub open spec fn fill_spec(matcher: MatcherModel, doc: Seq<char>) -> Result<Seq<char>, Seq<char>> {
    if matcher.whole is None {
        Ok(matcher.content)
    } else {
        match fill_from(
            lines::split(matcher.content, '\n'),
            matcher.lines,
            lines::split(doc, '\n'),
            0,
            0,
        ) {
            Err(error) => Err(error),
            Ok(list) => Ok(lines::join(list, "\n"@)),
        }
    }
}

/// A line with each placeholder replaced by its value, in order
pub fn fill_with(line: &str, values: &Values) -> (filled: String)
    ensures
        filled@ == fill_values(line@, values@),
{
    let ghost all = values@;
    let mut filled = line.to_owned();
    let mut i: usize = 0;
    while i < values.entries.len()
        invariant
            i <= values.entries@.len(),
            all == values@,
            filled@ == fill_values(line@, all.take(i as int)),
        decreases values.entries@.len() - i,
    {
        proof {
            assert(all.take(i + 1).drop_last() =~= all.take(i as int));
            assert(all.take(i + 1).last() == all[i as int]);
        }
        filled = text::replace(
            filled.as_str(),
            values.entries[i].0.as_str(),
            values.entries[i].1.as_str(),
        );
        i = i + 1;
    }
    assert(all.take(i as int) =~= all);
    filled
}

/// One line of code for `Matcher::fill`, with the index of the doc line
/// (from `start` on) it matched, if any
pub fn fill_line(
    line: &str,
    pattern: &Option<Pattern>,
    doc_lines: &Vec<String>,
    start: usize,
) -> (filled: Result<(String, Option<usize>), String>)
    requires
        pattern_wf(*pattern),
    ensures
        match filled {
            Ok((filled, Some(index))) => fill_line_spec(
                line@,
                pattern_view(*pattern),
                text::views(doc_lines@),
                start as int,
            ) == Ok::<_, Seq<char>>((filled@, Some(index as int))) && index < doc_lines@.len(),
            Ok((filled, None)) => fill_line_spec(
                line@,
                pattern_view(*pattern),
                text::views(doc_lines@),
                start as int,
            ) == Ok::<_, Seq<char>>((filled@, None::<int>)),
            Err(error) => fill_line_spec(
                line@,
                pattern_view(*pattern),
                text::views(doc_lines@),
                start as int,
            ) == Err::<(Seq<char>, Option<int>), _>(error@),
        },
{
    match pattern {
        None => {
            let ghost views = text::views(doc_lines@);
            let mut i: usize = start;
            while i < doc_lines.len()
                invariant
                    views == text::views(doc_lines@),
                    start <= i,
                    *pattern is None,
                    find_line(views, line@, start as int) == find_line(views, line@, i as int),
                decreases doc_lines@.len() - i,
            {
                if text::same(doc_lines[i].as_str(), line) {
                    return Ok((line.to_owned(), Some(i)));
                }
                i = i + 1;
            }
            Ok((line.to_owned(), None))
        },
        Some(pattern) => match pattern.first_match(doc_lines, start) {
            Err(error) => Err(error),
            Ok(None) => Ok((line.to_owned(), None)),
            Ok(Some((index, values))) => Ok((fill_with(line, &values), Some(index))),
        },
    }
}

impl Matcher {
    pub open spec fn wf(self) -> bool {
        &&& pattern_wf(self.whole)
        &&& forall|i: int| 0 <= i < self.lines@.len() ==> pattern_wf(#[trigger] self.lines@[i])
        &&& self.lines@.len() == lines::split(self.content@, '\n').len()
    }

    /// The code, compiled for matching
    pub fn new(content: &str, placeholders: &Vec<String>) -> (matcher: Result<Self, String>)
        ensures
            match matcher {
                Ok(matcher) => matcher.wf() && matcher_spec(
                    content@,
                    text::views(placeholders@),
                ) == Ok::<_, Seq<char>>(matcher@),
                Err(error) => matcher_spec(content@, text::views(placeholders@)) == Err::<
                    MatcherModel,
                    _,
                >(error@),
            },
            matcher matches Ok(matcher) ==> none_empty(text::views(placeholders@)) ==> matcher@.whole
                == code_whole(content@, text::views(placeholders@)),
    {
        let used = used_placeholders(placeholders, content);
        let code_lines = lines::split_text(content, '\n');
        let ghost views = text::views(code_lines@);
        let ghost used_views = text::views(used@);
        let mut patterns: Vec<Option<Pattern>> = Vec::new();
        let mut i: usize = 0;
        assert(pattern_views(patterns@) =~= Seq::empty());
        while i < code_lines.len()
            invariant
                i <= code_lines@.len(),
                views == text::views(code_lines@),
                used_views == text::views(used@),
                used_views == used_in(text::views(placeholders@), content@),
                views == lines::split(content@, '\n'),
                patterns@.len() == i,
                forall|k: int| 0 <= k < patterns@.len() ==> pattern_wf(#[trigger] patterns@[k]),
                line_patterns(views.take(i as int), used_views) == Ok::<_, Seq<char>>(
                    pattern_views(patterns@),
                ),
            decreases code_lines@.len() - i,
        {
            let on_line = used_placeholders(&used, code_lines[i].as_str());
            let ghost before = patterns@;
            proof {
                assert(views.take(i + 1).drop_last() =~= views.take(i as int));
                assert(views.take(i + 1).last() == code_lines@[i as int]@);
                assert(on_line@.len() == text::views(on_line@).len());
            }
            if on_line.len() == 0 {
                patterns.push(None);
            } else {
                match Pattern::new(code_lines[i].as_str(), &on_line) {
                    Ok(pattern) => {
                        patterns.push(Some(pattern));
                    },
                    Err(error) => {
                        let shown = apply::show_debug(code_lines[i].as_str());
                        let mut message = text::surround(
                            "building the pattern for line ",
                            shown.as_str(),
                            ": ",
                        );
                        message.append(error.as_str());
                        proof {
                            lemma_line_patterns_error(views, used_views, i + 1);
                        }
                        return Err(message);
                    },
                }
            }
            proof {
                assert(pattern_views(patterns@) =~= pattern_views(before).push(
                    pattern_view(patterns@[i as int]),
                ));
            }
            i = i + 1;
        }
        assert(views.take(i as int) =~= views);
        assert(used@.len() == used_views.len());
        proof {
            if none_empty(text::views(placeholders@)) {
                lemma_used_in(text::views(placeholders@), content@);
            }
        }
        let whole = if used.len() == 0 {
            None
        } else {
            match Pattern::new(content, &used) {
                Ok(pattern) => Some(pattern),
                Err(error) => {
                    let mut message = "building the pattern for the whole code: ".to_owned();
                    message.append(error.as_str());
                    return Err(message);
                },
            }
        };
        Ok(Matcher { content: content.to_owned(), whole, lines: patterns })
    }

    /// Whether the code matches `doc`, and if so the value each placeholder took
    pub fn matches(&self, doc: &str) -> (values: Result<Option<Values>, String>)
        requires
            self.wf(),
        ensures
            matched_as(self@, doc@, values),
            values matches Ok(values) ==> values is Some == is_instance(self@, doc@),
            values matches Ok(Some(values)) ==> self@.whole matches Some(pattern) ==> exists|
                texts: Seq<Seq<char>>,
            |
                #[trigger] fits(pattern, doc@, texts) && values@ == maps::values_of(
                    pattern.names,
                    texts,
                ),
    {
        match &self.whole {
            None => if text::same(self.content.as_str(), doc) {
                Ok(Some(Values::new()))
            } else {
                Ok(None)
            },
            Some(pattern) => pattern.captures(doc),
        }
    }

    /// For showing a diff: the code with placeholders replaced by the doc's
    /// values. Code and doc are walked in order: each line with placeholders
    /// takes its values from the next doc line of the same shape, after the
    /// doc lines already matched.
    pub fn fill(&self, doc: &str) -> (filled: Result<String, String>)
        requires
            self.wf(),
        ensures
            match filled {
                Ok(filled) => fill_spec(self@, doc@) == Ok::<_, Seq<char>>(filled@),
                Err(error) => fill_spec(self@, doc@) == Err::<Seq<char>, _>(error@),
            },
    {
        if self.whole.is_none() {
            return Ok(self.content.clone());
        }
        let doc_lines = lines::split_text(doc, '\n');
        let code_lines = lines::split_text(self.content.as_str(), '\n');
        let ghost views = text::views(code_lines@);
        let ghost doc_views = text::views(doc_lines@);
        let ghost patterns = self@.lines;
        // The first doc line not matched yet
        let mut next: usize = 0;
        let mut filled: Vec<String> = Vec::new();
        let mut k: usize = 0;
        proof {
            if let Ok(others) = fill_from(views, patterns, doc_views, 0, 0) {
                assert(text::views(filled@) + others =~= others);
            }
        }
        while k < code_lines.len()
            invariant
                k <= code_lines@.len(),
                self.wf(),
                self.whole is Some,
                views == text::views(code_lines@),
                views == lines::split(self.content@, '\n'),
                doc_views == text::views(doc_lines@),
                doc_views == lines::split(doc@, '\n'),
                patterns == self@.lines,
                next <= doc_lines@.len(),
                code_lines@.len() == self.lines@.len(),
                fill_from(views, patterns, doc_views, 0, 0) == match fill_from(
                    views,
                    patterns,
                    doc_views,
                    k as int,
                    next as int,
                ) {
                    Ok(others) => Ok::<_, Seq<char>>(text::views(filled@) + others),
                    Err(error) => Err(error),
                },
            decreases code_lines@.len() - k,
        {
            let ghost before = text::views(filled@);
            match fill_line(code_lines[k].as_str(), &self.lines[k], &doc_lines, next) {
                Err(error) => {
                    return Err(error);
                },
                Ok((line, matched_at)) => {
                    assert(doc_lines.len() == doc_lines@.len());
                    if let Some(index) = matched_at {
                        next = index + 1;
                    }
                    proof {
                        text::lemma_views_push(filled@, line);
                        if let Ok(others) = fill_from(
                            views,
                            patterns,
                            doc_views,
                            k + 1,
                            next as int,
                        ) {
                            assert(before + (seq![line@] + others) =~= before.push(line@)
                                + others);
                        }
                    }
                    filled.push(line);
                },
            }
            k = k + 1;
        }
        assert(text::views(filled@) + Seq::<Seq<char>>::empty() =~= text::views(filled@));
        Ok(lines::join_texts(&filled, "\n"))
    }
}

/// What matching some content against a doc block gives, or why it can't be matched
pub open spec fn match_content_spec(
    content: Seq<char>,
    placeholders: Seq<Seq<char>>,
    doc: Seq<char>,
) -> Result<Option<Seq<(Seq<char>, Seq<char>)>>, Seq<char>> {
    if used_in(placeholders, content).len() == 0 {
        if content == doc {
            Ok(Some(Seq::empty()))
        } else {
            Ok(None)
        }
    } else {
        match matcher_spec(content, placeholders) {
            Err(error) => Err("compiling the content for matching: "@ + error),
            Ok(matcher) => matches_spec(matcher, doc),
        }
    }
}

/// One-off matching (for content that isn't compiled ahead of time)
pub fn match_content(content: &str, placeholders: &Vec<String>, doc: &str) -> (values: Result<
    Option<Values>,
    String,
>)
    ensures
        match values {
            Ok(Some(values)) => match_content_spec(content@, text::views(placeholders@), doc@)
                == Ok::<_, Seq<char>>(Some(values@)),
            Ok(None) => match_content_spec(content@, text::views(placeholders@), doc@) == Ok::<
                _,
                Seq<char>,
            >(None::<Seq<(Seq<char>, Seq<char>)>>),
            Err(error) => match_content_spec(content@, text::views(placeholders@), doc@) == Err::<
                Option<Seq<(Seq<char>, Seq<char>)>>,
                _,
            >(error@),
        },
        values matches Ok(values) ==> none_empty(text::views(placeholders@)) ==> values is Some
            == code_matches(content@, text::views(placeholders@), doc@),
{
    let used = used_placeholders(placeholders, content);
    assert(used@.len() == text::views(used@).len());
    if used.len() == 0 {
        return if text::same(content, doc) {
            Ok(Some(Values::new()))
        } else {
            Ok(None)
        };
    }
    match Matcher::new(content, placeholders) {
        Ok(matcher) => matcher.matches(doc),
        Err(error) => {
            let mut message = "compiling the content for matching: ".to_owned();
            message.append(error.as_str());
            Err(message)
        },
    }
}

// ---------------------------------------------------------------------------
// Laws
// ---------------------------------------------------------------------------

/// Code always matches itself, as long as no placeholder in it spans lines
pub proof fn law_code_matches_itself(content: Seq<char>, spans: Seq<(usize, usize)>)
    requires
        whole_spec(content, spans) is Some,
        forall|k: int|
            0 <= k < whole_spec(content, spans)->0.names.len()
                ==> !(#[trigger] whole_spec(content, spans)->0.names[k]).contains('\n'),
    ensures
        fits(whole_spec(content, spans)->0, content, whole_spec(content, spans)->0.names),
{
    law_pattern_is_the_code(content, spans);
}

} // verus!
