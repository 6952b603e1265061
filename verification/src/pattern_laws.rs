//! Where the placeholders of some code are, and what its pattern is made of.

use crate::bytes;
use crate::engines;
use crate::engines::Segment;
use crate::markers;
use crate::matching;
use crate::matching::PatternModel;
use crate::text;
use vstd::prelude::*;

verus! {

/// Whether texts are in the order of their lengths, the longest first
pub open spec fn are_falling(list: Seq<Seq<char>>) -> bool {
    forall|i: int, j: int|
        0 <= i < j < list.len() ==> bytes::byte_len(#[trigger] list[i]) >= bytes::byte_len(
            #[trigger] list[j],
        )
}

proof fn lemma_falling(list: Seq<Seq<char>>, added: Seq<char>)
    requires
        are_falling(list),
    ensures
        are_falling(matching::insert_by_length(list, added)),
        forall|i: int|
            0 <= i < matching::insert_by_length(list, added).len() ==> (
            #[trigger] matching::insert_by_length(list, added)[i] == added || list.contains(
                matching::insert_by_length(list, added)[i],
            )),
    decreases list.len(),
{
    let all = matching::insert_by_length(list, added);
    if list.len() > 0 && bytes::byte_len(list.last()) < bytes::byte_len(added) {
        let head = list.drop_last();
        assert(are_falling(head)) by {
            assert forall|i: int, j: int| 0 <= i < j < head.len() implies bytes::byte_len(
                #[trigger] head[i],
            ) >= bytes::byte_len(#[trigger] head[j]) by {
                assert(head[i] == list[i]);
                assert(head[j] == list[j]);
            }
        }
        lemma_falling(head, added);
        let before = matching::insert_by_length(head, added);
        assert(list.last() == list[list.len() - 1]);
        assert forall|i: int| 0 <= i < all.len() implies #[trigger] all[i] == added
            || list.contains(all[i]) by {
            if i < before.len() {
                assert(all[i] == before[i]);
                if before[i] != added {
                    let k = choose|k: int| 0 <= k < head.len() && head[k] == before[i];
                    assert(head.contains(before[i]));
                    assert(list[k] == all[i]);
                }
            } else {
                assert(all[i] == list.last());
            }
        }
        assert forall|i: int, j: int| 0 <= i < j < all.len() implies bytes::byte_len(
            #[trigger] all[i],
        ) >= bytes::byte_len(#[trigger] all[j]) by {
            assert(all[i] == before[i]);
            if j < before.len() {
                assert(all[j] == before[j]);
            } else if before[i] != added {
                assert(head.contains(before[i]));
                let k = choose|k: int| 0 <= k < head.len() && head[k] == before[i];
                assert(list[k] == before[i]);
                assert(list[list.len() - 1] == all[j]);
            }
        }
    } else {
        assert(all == list.push(added));
        assert forall|i: int| 0 <= i < all.len() implies #[trigger] all[i] == added
            || list.contains(all[i]) by {
            if i < list.len() {
                assert(all[i] == list[i]);
            }
        }
        assert forall|i: int, j: int| 0 <= i < j < all.len() implies bytes::byte_len(
            #[trigger] all[i],
        ) >= bytes::byte_len(#[trigger] all[j]) by {
            assert(all[i] == list[i]);
            if j < list.len() {
                assert(all[j] == list[j]);
            } else if i < list.len() - 1 {
                assert(list[i] == all[i]);
                assert(list.last() == list[list.len() - 1]);
            }
        }
    }
}

/// Placeholders are looked for with the longest first, and none is left out
pub proof fn law_longest_first(list: Seq<Seq<char>>)
    ensures
        are_falling(matching::by_length(list)),
        matching::by_length(list).to_multiset() == list.to_multiset(),
    decreases list.len(),
{
    matching::lemma_by_length(list);
    if list.len() > 0 {
        law_longest_first(list.drop_last());
        lemma_falling(matching::by_length(list.drop_last()), list.last());
    }
}

/// Whether a place covers an index
pub open spec fn covers(found: Seq<(int, int)>, i: int) -> bool {
    exists|k: int| 0 <= k < found.len() && (#[trigger] found[k]).0 <= i < found[k].1
}

proof fn lemma_gaps(texts: Seq<Seq<char>>, s: Seq<char>, from: int, i: int, k: int)
    requires
        engines::all_nonempty(texts),
        0 <= from <= i < s.len(),
        0 <= k < texts.len(),
        texts[k].is_prefix_of(s.skip(i)),
    ensures
        covers(engines::places(texts, s, from), i),
    decreases s.len() - from,
{
    let all = engines::places(texts, s, from);
    engines::lemma_first_at(texts, s.skip(from));
    match engines::first_at(texts, s.skip(from)) {
        Some(m) => {
            let end = from + texts[m].len();
            let rest = engines::places(texts, s, end);
            assert(all == seq![(from, end)] + rest);
            if i < end {
                assert(all[0] == (from, end));
            } else {
                assert(end <= s.len());
                lemma_gaps(texts, s, end, i, k);
                let j = choose|j: int| 0 <= j < rest.len() && (#[trigger] rest[j]).0 <= i
                    < rest[j].1;
                assert(all[j + 1] == rest[j]);
            }
        },
        None => {
            assert(from != i);
            lemma_gaps(texts, s, from + 1, i, k);
        },
    }
}

proof fn lemma_longest(texts: Seq<Seq<char>>, s: Seq<char>, from: int, j: int, k: int)
    requires
        engines::all_nonempty(texts),
        are_falling(texts),
        0 <= from,
        0 <= j < engines::places(texts, s, from).len(),
        0 <= k < texts.len(),
        texts[k].is_prefix_of(s.skip(engines::places(texts, s, from)[j].0)),
    ensures
        ({
            let place = engines::places(texts, s, from)[j];
            0 <= place.0 <= place.1 <= s.len() && bytes::byte_len(texts[k]) <= bytes::byte_len(
                s.subrange(place.0, place.1),
            )
        }),
    decreases s.len() - from,
{
    let all = engines::places(texts, s, from);
    engines::lemma_first_at(texts, s.skip(from));
    match engines::first_at(texts, s.skip(from)) {
        Some(m) => {
            let end = from + texts[m].len();
            let rest = engines::places(texts, s, end);
            assert(all == seq![(from, end)] + rest);
            if j == 0 {
                assert(all[0] == (from, end));
                assert(s.subrange(from, end) =~= texts[m]) by {
                    assert(s.skip(from).take(texts[m].len() as int) =~= texts[m]);
                    assert(s.subrange(from, end) =~= s.skip(from).take(texts[m].len() as int));
                }
                if k < m {
                    assert(!texts[k].is_prefix_of(s.skip(from)));
                }
            } else {
                assert(all[j] == rest[j - 1]);
                lemma_longest(texts, s, end, j - 1, k);
            }
        },
        None => {
            lemma_longest(texts, s, from + 1, j, k);
        },
    }
}

/// Wherever a placeholder starts in some code, a place found for one covers it; and the
/// placeholder at a place is the longest that stands there
pub proof fn law_placeholders_are_found(placeholders: Seq<Seq<char>>, s: Seq<char>, i: int, k: int)
    requires
        engines::all_nonempty(placeholders),
        0 <= k < placeholders.len(),
        text::occurs_at(s, placeholders[k], i),
    ensures
        ({
            let found = engines::places(matching::by_length(placeholders), s, 0);
            &&& covers(found, i)
            &&& forall|j: int|
                0 <= j < found.len() && (#[trigger] found[j]).0 == i ==> bytes::byte_len(
                    placeholders[k],
                ) <= bytes::byte_len(s.subrange(found[j].0, found[j].1))
        }),
{
    broadcast use vstd::seq_lib::group_to_multiset_ensures;

    let texts = matching::by_length(placeholders);
    let found = engines::places(texts, s, 0);
    law_longest_first(placeholders);
    matching::lemma_by_length(placeholders);
    assert(engines::all_nonempty(texts)) by {
        assert forall|m: int| 0 <= m < texts.len() implies (#[trigger] texts[m]).len() > 0 by {
            assert(texts.contains(texts[m]));
            assert(texts.to_multiset().count(texts[m]) > 0);
            assert(placeholders.to_multiset().count(texts[m]) > 0);
            assert(placeholders.contains(texts[m]));
        }
    }
    let wanted = placeholders[k];
    assert(placeholders.contains(wanted));
    assert(placeholders.to_multiset().count(wanted) > 0);
    assert(texts.to_multiset().count(wanted) > 0);
    assert(texts.contains(wanted));
    let m = choose|m: int| 0 <= m < texts.len() && texts[m] == wanted;
    assert(wanted.is_prefix_of(s.skip(i))) by {
        assert(s.skip(i).take(wanted.len() as int) =~= s.subrange(i, i + wanted.len()));
    }
    lemma_gaps(texts, s, 0, i, m);
    assert forall|j: int| 0 <= j < found.len() && (#[trigger] found[j]).0 == i implies
        bytes::byte_len(wanted) <= bytes::byte_len(s.subrange(found[j].0, found[j].1)) by {
        lemma_longest(texts, s, 0, j, m);
    }
}

/// Whether a part of a pattern is the value of a placeholder
pub open spec fn is_value_of(pattern: PatternModel, segment: Segment, name: Seq<char>) -> bool {
    match segment {
        Segment::Text(_) => false,
        Segment::Value(k) => k < pattern.names.len() && pattern.names[k as int] == name,
        Segment::Again(k) => k < pattern.names.len() && pattern.names[k as int] == name,
    }
}

/// Whether a pattern's parts up to a place are the text between the places and the values
/// at them
pub open spec fn has_parts(pattern: PatternModel, s: Seq<char>, found: Seq<(int, int)>) -> bool {
    &&& pattern.segments.len() >= 2 * found.len()
    &&& forall|i: int|
        0 <= i < found.len() ==> pattern.segments[2 * i] == Segment::Text(
            s.subrange(
                if i == 0 {
                    0
                } else {
                    found[i - 1].1
                },
                (#[trigger] found[i]).0,
            ),
        ) && is_value_of(pattern, pattern.segments[2 * i + 1], s.subrange(found[i].0, found[i].1))
}

/// Whether the `i`th text and value of a pattern are those up to and at the `i`th place
spec fn is_part(pattern: PatternModel, s: Seq<char>, found: Seq<(int, int)>, i: int) -> bool {
    pattern.segments[2 * i] == Segment::Text(
        s.subrange(
            if i == 0 {
                0
            } else {
                found[i - 1].1
            },
            found[i].0,
        ),
    ) && is_value_of(pattern, pattern.segments[2 * i + 1], s.subrange(found[i].0, found[i].1))
}

/// A pattern with one more placeholder has the parts it had, and that one
proof fn lemma_more_parts(
    first: PatternModel,
    s: Seq<char>,
    head: Seq<(int, int)>,
    start: int,
    end: int,
)
    requires
        has_parts(first, s, head),
        first.segments.len() == 2 * head.len(),
    ensures
        ({
            let before = if head.len() > 0 {
                head.last().1
            } else {
                0
            };
            let pattern = matching::with_placeholder(
                first,
                s.subrange(before, start),
                s.subrange(start, end),
            );
            has_parts(pattern, s, head.push((start, end))) && pattern.segments.len() == 2
                * head.len() + 2
        }),
{
    let before = if head.len() > 0 {
        head.last().1
    } else {
        0
    };
    let between = s.subrange(before, start);
    let name = s.subrange(start, end);
    let pattern = matching::with_placeholder(first, between, name);
    let found = head.push((start, end));
    let last = head.len() as int;
    markers::lemma_index_of(first.names, name);
    let segments = pattern.segments;
    assert(segments.len() == 2 * last + 2);
    assert(segments[2 * last] == Segment::Text(between));
    assert(is_value_of(pattern, segments[2 * last + 1], name));
    if last > 0 {
        assert(found[last - 1] == head.last());
    }
    assert(is_part(pattern, s, found, last));
    assert forall|i: int| 0 <= i < last implies is_part(pattern, s, found, i) by {
        assert(head[i] == found[i]);
        assert(segments[2 * i] == first.segments[2 * i]);
        assert(segments[2 * i + 1] == first.segments[2 * i + 1]);
        if i > 0 {
            assert(head[i - 1] == found[i - 1]);
        }
        let one = first.segments[2 * i + 1];
        assert(is_value_of(first, one, s.subrange(head[i].0, head[i].1)));
        assert(is_value_of(pattern, one, s.subrange(head[i].0, head[i].1)));
    }
    assert forall|i: int| 0 <= i < found.len() implies pattern.segments[2 * i] == Segment::Text(
        s.subrange(
            if i == 0 {
                0
            } else {
                found[i - 1].1
            },
            (#[trigger] found[i]).0,
        ),
    ) && is_value_of(
        pattern,
        pattern.segments[2 * i + 1],
        s.subrange(found[i].0, found[i].1),
    ) by {
        assert(is_part(pattern, s, found, i));
    }
}

proof fn lemma_parts(s: Seq<char>, found: Seq<(int, int)>)
    requires
        bytes::byte_len(s) <= usize::MAX,
        forall|i: int| 0 <= i < found.len() ==> 0 <= (#[trigger] found[i]).0 < found[i].1 <= s.len(),
        forall|i: int, j: int|
            0 <= i < j < found.len() ==> (#[trigger] found[i]).1 <= (#[trigger] found[j]).0,
    ensures
        matching::split_spec(s, matching::place_spans(s, found)) matches Some(split) && has_parts(
            split.pattern,
            s,
            found,
        ) && split.pattern.segments.len() == 2 * found.len(),
    decreases found.len(),
{
    let spans = matching::place_spans(s, found);
    matching::lemma_split_places(s, found);
    if found.len() > 0 {
        let head = found.drop_last();
        let (start, end) = found.last();
        let last = found.len() - 1;
        assert(spans.drop_last() =~= matching::place_spans(s, head));
        lemma_head(s, found);
        lemma_parts(s, head);
        matching::lemma_split_places(s, head);
        let before = if head.len() > 0 {
            head.last().1
        } else {
            0
        };
        if head.len() > 0 {
            assert(found[last - 1].1 <= found[last].0);
            assert(head.last() == found[last - 1]);
        }
        assert(s.take(s.len() as int) =~= s);
        bytes::lemma_byte_len_take(s, before, start);
        bytes::lemma_byte_len_take(s, start, end);
        bytes::lemma_byte_len_take(s, end, s.len() as int);
        bytes::lemma_char_index(s, before);
        bytes::lemma_char_index(s, start);
        bytes::lemma_char_index(s, end);
        let first = matching::split_spec(s, spans.drop_last())->0;
        lemma_more_parts(first.pattern, s, head, start, end);
        assert(head.push((start, end)) =~= found);
    }
}

proof fn lemma_head(s: Seq<char>, found: Seq<(int, int)>)
    requires
        found.len() > 0,
        forall|i: int| 0 <= i < found.len() ==> 0 <= (#[trigger] found[i]).0 < found[i].1 <= s.len(),
        forall|i: int, j: int|
            0 <= i < j < found.len() ==> (#[trigger] found[i]).1 <= (#[trigger] found[j]).0,
    ensures
        ({
            let head = found.drop_last();
            &&& forall|i: int|
                0 <= i < head.len() ==> 0 <= (#[trigger] head[i]).0 < head[i].1 <= s.len()
            &&& forall|i: int, j: int|
                0 <= i < j < head.len() ==> (#[trigger] head[i]).1 <= (#[trigger] head[j]).0
        }),
{
    let head = found.drop_last();
    assert forall|i: int| 0 <= i < head.len() implies 0 <= (#[trigger] head[i]).0 < head[i].1
        <= s.len() by {
        assert(head[i] == found[i]);
    }
    assert forall|i: int, j: int| 0 <= i < j < head.len() implies (#[trigger] head[i]).1 <= (
    #[trigger] head[j]).0 by {
        assert(head[i] == found[i]);
        assert(head[j] == found[j]);
    }
}

/// The pattern of some code has the value of a placeholder at each place found for one, and
/// the code's own text between them
pub proof fn law_pattern_parts(content: Seq<char>, placeholders: Seq<Seq<char>>)
    requires
        bytes::byte_len(content) <= usize::MAX,
    ensures
        ({
            let found = engines::places(matching::by_length(placeholders), content, 0);
            matching::code_pattern(content, placeholders) matches Some(pattern) && has_parts(
                pattern,
                content,
                found,
            ) && pattern.segments.len() == 2 * found.len() + 1 && pattern.segments.last()
                == Segment::Text(
                content.skip(
                    if found.len() > 0 {
                        found.last().1
                    } else {
                        0
                    },
                ),
            ) && pattern.names.no_duplicates()
        }),
{
    let texts = matching::by_length(placeholders);
    let found = engines::places(texts, content, 0);
    matching::law_code_has_a_pattern(content, placeholders);
    matching::lemma_places(texts, content, 0);
    lemma_parts(content, found);
    matching::lemma_split_places(content, found);
    matching::law_pattern_is_the_code(content, matching::place_spans(content, found));
    let end = if found.len() > 0 {
        found.last().1
    } else {
        0
    };
    if found.len() > 0 {
        assert(found.last() == found[found.len() - 1]);
    }
    bytes::lemma_char_index(content, end);
    let split = matching::split_spec(content, matching::place_spans(content, found))->0;
    let pattern = matching::code_pattern(content, placeholders)->0;
    assert forall|i: int| 0 <= i < found.len() implies pattern.segments[2 * i] == Segment::Text(
        content.subrange(
            if i == 0 {
                0
            } else {
                found[i - 1].1
            },
            (#[trigger] found[i]).0,
        ),
    ) && is_value_of(
        pattern,
        pattern.segments[2 * i + 1],
        content.subrange(found[i].0, found[i].1),
    ) by {
        assert(pattern.segments[2 * i] == split.pattern.segments[2 * i]);
        assert(pattern.segments[2 * i + 1] == split.pattern.segments[2 * i + 1]);
    }
}

/// The placeholders that count for some code are those that stand in it
pub proof fn law_used_placeholders(placeholders: Seq<Seq<char>>, s: Seq<char>)
    ensures
        matching::used_in(placeholders, s) == placeholders.filter(
            |name: Seq<char>|
                exists|i: int|
                    0 <= i <= s.len() - name.len() && #[trigger] s.subrange(i, i + name.len())
                        == name,
        ),
    decreases placeholders.len(),
{
    reveal(Seq::filter);
    if placeholders.len() > 0 {
        law_used_placeholders(placeholders.drop_last(), s);
        let name = placeholders.last();
        if text::occurs(s, name) {
            let i = choose|i: int| text::occurs_at(s, name, i);
            assert(s.subrange(i, i + name.len()) == name);
        }
        if exists|i: int|
            0 <= i <= s.len() - name.len() && #[trigger] s.subrange(i, i + name.len()) == name {
            let i = choose|i: int|
                0 <= i <= s.len() - name.len() && #[trigger] s.subrange(i, i + name.len()) == name;
            assert(text::occurs_at(s, name, i));
        }
    }
}

} // verus!
