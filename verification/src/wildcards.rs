//! Where a value with `*` in it stands in a text, with a name for each `*`.

use crate::apply;
use crate::engines;
use crate::lines;
use crate::options;
use crate::options::OptionModel;
use crate::text;
use vstd::prelude::*;

verus! {

// ---------------------------------------------------------------------------
// Pieces with names between them
// ---------------------------------------------------------------------------

/// Pieces stand for a text that starts with the first of them and a name
proof fn lemma_join_front(pieces: Seq<Seq<char>>, name: Seq<char>, rest: Seq<char>)
    requires
        pieces.len() > 1,
        engines::is_name(name),
        engines::stands_for(pieces.drop_first(), rest),
    ensures
        engines::stands_for(pieces, pieces[0] + name + rest),
{
    assert(pieces[0] + name + rest == engines::around_name(pieces[0], name, rest));
}

/// A text that pieces stand for starts with the first of them and a name
proof fn lemma_split_front(pieces: Seq<Seq<char>>, s: Seq<char>) -> (parts: (Seq<char>, Seq<char>))
    requires
        pieces.len() > 1,
        engines::stands_for(pieces, s),
    ensures
        engines::is_name(parts.0),
        engines::stands_for(pieces.drop_first(), parts.1),
        s == pieces[0] + parts.0 + parts.1,
{
    choose|name: Seq<char>, rest: Seq<char>|
        s == #[trigger] engines::around_name(pieces[0], name, rest) && engines::is_name(name)
            && engines::stands_for(pieces.drop_first(), rest)
}

proof fn lemma_name_run(s: Seq<char>, i: int)
    requires
        0 <= i <= s.len(),
    ensures
        i + engines::name_run(s, i) <= s.len(),
        forall|k: int|
            i <= k < i + engines::name_run(s, i) ==> engines::is_name_char(#[trigger] s[k]),
        i + engines::name_run(s, i) < s.len() ==> !engines::is_name_char(
            s[i + engines::name_run(s, i)],
        ),
    decreases s.len() - i,
{
    if i < s.len() && engines::is_name_char(s[i]) {
        lemma_name_run(s, i + 1);
    }
}

/// Where pieces are found to end, they stand
proof fn lemma_match_stands(pieces: Seq<Seq<char>>, s: Seq<char>, i: int)
    requires
        pieces.len() > 0,
    ensures
        engines::match_end(pieces, s, i) matches Some(end) ==> 0 <= i <= end <= s.len()
            && engines::stands_for(pieces, s.subrange(i, end)) && (pieces.len() > 1 ==> i < end),
    decreases pieces.len(), 1nat, 0nat,
{
    if text::occurs_at(s, pieces[0], i) && pieces.len() > 1 {
        let start = i + pieces[0].len();
        lemma_name_run(s, start);
        lemma_name_stands(pieces, s, i, engines::name_run(s, start));
    }
}

proof fn lemma_name_stands(pieces: Seq<Seq<char>>, s: Seq<char>, i: int, most: nat)
    requires
        pieces.len() > 1,
        text::occurs_at(s, pieces[0], i),
        most <= engines::name_run(s, i + pieces[0].len()),
    ensures
        engines::name_end(pieces.drop_first(), s, i + pieces[0].len(), most) matches Some(end)
            ==> i < end <= s.len() && engines::stands_for(pieces, s.subrange(i, end)),
    decreases pieces.len(), 0nat, most,
{
    let start = i + pieces[0].len();
    let others = pieces.drop_first();
    lemma_name_run(s, start);
    if most > 0 {
        lemma_match_stands(others, s, start + most);
        match engines::match_end(others, s, start + most) {
            Some(end) => {
                let name = s.subrange(start, start + most);
                let rest = s.subrange(start + most, end);
                assert forall|k: int| 0 <= k < name.len() implies engines::is_name_char(
                    #[trigger] name[k],
                ) by {
                    assert(engines::is_name_char(s[start + k]));
                }
                lemma_join_front(pieces, name, rest);
                assert(s.subrange(i, end) =~= pieces[0] + name + rest);
            },
            None => {
                lemma_name_stands(pieces, s, i, (most - 1) as nat);
            },
        }
    }
}

/// A name that pieces can stand after is found, or a longer one
proof fn lemma_name_found(pieces: Seq<Seq<char>>, s: Seq<char>, start: int, most: nat, k: nat)
    requires
        0 < k <= most,
        engines::match_end(pieces, s, start + k) is Some,
    ensures
        engines::name_end(pieces, s, start, most) is Some,
    decreases most,
{
    if k < most && engines::match_end(pieces, s, start + most) is None {
        lemma_name_found(pieces, s, start, (most - 1) as nat, k);
    }
}

/// Where pieces stand, they are found
proof fn lemma_match_found(pieces: Seq<Seq<char>>, s: Seq<char>, i: int, j: int)
    requires
        pieces.len() > 0,
        0 <= i <= j <= s.len(),
        engines::stands_for(pieces, s.subrange(i, j)),
    ensures
        engines::match_end(pieces, s, i) is Some,
    decreases pieces.len(),
{
    let t = s.subrange(i, j);
    if pieces.len() == 1 {
        assert(t == pieces[0]);
        assert(s.subrange(i, i + pieces[0].len()) =~= pieces[0]);
    } else {
        let (name, rest) = lemma_split_front(pieces, t);
        let start = i + pieces[0].len();
        let k = name.len();
        assert(t.len() == pieces[0].len() + name.len() + rest.len());
        assert(s.subrange(i, start) =~= pieces[0]) by {
            assert(t.subrange(0, pieces[0].len() as int) =~= pieces[0]);
            assert(s.subrange(i, start) =~= t.subrange(0, pieces[0].len() as int));
        }
        assert(s.subrange(start + k, j) =~= rest) by {
            assert(t.subrange((pieces[0].len() + k) as int, t.len() as int) =~= rest);
            assert(s.subrange(start + k, j) =~= t.subrange(
                (pieces[0].len() + k) as int,
                t.len() as int,
            ));
        }
        lemma_match_found(pieces.drop_first(), s, start + k, j);
        lemma_name_run(s, start);
        let run = engines::name_run(s, start);
        assert(k <= run) by {
            if run < k {
                assert(name[run as int] == t[(pieces[0].len() + run) as int]);
                assert(t[(pieces[0].len() + run) as int] == s[start + run]);
                assert(engines::is_name_char(name[run as int]));
            }
        }
        lemma_name_found(pieces.drop_first(), s, start, run, k);
    }
}

// ---------------------------------------------------------------------------
// All the places
// ---------------------------------------------------------------------------

/// Whether the pieces stand at a place from index `from` on
pub open spec fn is_place(pieces: Seq<Seq<char>>, s: Seq<char>, from: int, place: (int, int)) -> bool {
    from <= place.0 < place.1 <= s.len() && engines::stands_for(
        pieces,
        s.subrange(place.0, place.1),
    )
}

/// The places found are places where the pieces stand
proof fn lemma_places(pieces: Seq<Seq<char>>, s: Seq<char>, from: int)
    requires
        pieces.len() > 1,
        0 <= from,
    ensures
        forall|k: int|
            0 <= k < engines::wildcard_places(pieces, s, from).len() ==> is_place(
                pieces,
                s,
                from,
                #[trigger] engines::wildcard_places(pieces, s, from)[k],
            ),
    decreases s.len() - from,
{
    if from < s.len() {
        lemma_match_stands(pieces, s, from);
        let all = engines::wildcard_places(pieces, s, from);
        match engines::match_end(pieces, s, from) {
            Some(end) => {
                let rest = engines::wildcard_places(pieces, s, end);
                lemma_places(pieces, s, end);
                assert forall|k: int| 0 <= k < all.len() implies is_place(
                    pieces,
                    s,
                    from,
                    #[trigger] all[k],
                ) by {
                    if k > 0 {
                        assert(all[k] == rest[k - 1]);
                        assert(is_place(pieces, s, end, rest[k - 1]));
                    }
                }
            },
            None => {
                let rest = engines::wildcard_places(pieces, s, from + 1);
                lemma_places(pieces, s, from + 1);
                assert forall|k: int| 0 <= k < all.len() implies is_place(
                    pieces,
                    s,
                    from,
                    #[trigger] all[k],
                ) by {
                    assert(is_place(pieces, s, from + 1, rest[k]));
                }
            },
        }
    }
}

/// Wherever the pieces stand, a place found covers where they start
proof fn lemma_covered(pieces: Seq<Seq<char>>, s: Seq<char>, from: int, i: int, j: int) -> (k: int)
    requires
        pieces.len() > 1,
        0 <= from <= i <= j <= s.len(),
        engines::stands_for(pieces, s.subrange(i, j)),
    ensures
        0 <= k < engines::wildcard_places(pieces, s, from).len(),
        engines::wildcard_places(pieces, s, from)[k].0 <= i,
        i < engines::wildcard_places(pieces, s, from)[k].1,
    decreases s.len() - from,
{
    let (name, rest) = lemma_split_front(pieces, s.subrange(i, j));
    assert(s.subrange(i, j).len() > 0);
    lemma_match_stands(pieces, s, from);
    if from == i {
        lemma_match_found(pieces, s, i, j);
    }
    let all = engines::wildcard_places(pieces, s, from);
    match engines::match_end(pieces, s, from) {
        Some(end) => if i < end {
            assert(all[0] == (from, end));
            0
        } else {
            let k = lemma_covered(pieces, s, end, i, j);
            assert(all[k + 1] == engines::wildcard_places(pieces, s, end)[k]);
            k + 1
        },
        None => lemma_covered(pieces, s, from + 1, i, j),
    }
}

/// A value with a `*` has pieces on both sides of it
pub proof fn lemma_pieces_around(value: Seq<char>)
    requires
        value.contains('*'),
    ensures
        apply::pieces(value).len() > 1,
{
    let at = choose|at: int| 0 <= at < value.len() && value[at] == '*';
    let first = value.take(at);
    let second = value.skip(at + 1);
    assert(value =~= first.push('*') + second);
    lines::lemma_split_concat(first, '*', second);
    lines::lemma_split(first, '*');
    lines::lemma_split(second, '*');
}

/// Each name that a wildcard stands for is a part of the content with a name for each
/// `*`, and there are none only when no part of it is
pub proof fn law_names_appear(value: Seq<char>, content: Seq<char>)
    requires
        value.contains('*'),
    ensures
        ({
            let names = engines::place_texts(
                content,
                engines::wildcard_places(apply::pieces(value), content, 0),
            );
            &&& forall|k: int|
                0 <= k < names.len() ==> engines::stands_for(
                    apply::pieces(value),
                    #[trigger] names[k],
                ) && text::occurs(content, names[k])
            &&& (names.len() > 0) == apply::appears(value, content)
        }),
{
    let pieces = apply::pieces(value);
    let found = engines::wildcard_places(pieces, content, 0);
    let names = engines::place_texts(content, found);
    lemma_pieces_around(value);
    lemma_places(pieces, content, 0);
    assert forall|k: int| 0 <= k < names.len() implies engines::stands_for(
        pieces,
        #[trigger] names[k],
    ) && text::occurs(content, names[k]) by {
        assert(is_place(pieces, content, 0, found[k]));
        assert(text::occurs_at(content, names[k], found[k].0));
    }
    if names.len() > 0 {
        let (a, b) = found[0];
        assert(is_place(pieces, content, 0, found[0]));
        assert(engines::stands_for(pieces, content.subrange(a, b)));
        assert(engines::stands_at(pieces, content, a));
    }
    if engines::stands_in(pieces, content) {
        let i = choose|i: int|
            0 <= i <= content.len() && #[trigger] engines::stands_at(pieces, content, i);
        let j = choose|j: int|
            i <= j <= content.len() && engines::stands_for(
                pieces,
                #[trigger] content.subrange(i, j),
            );
        let k = lemma_covered(pieces, content, 0, i, j);
    }
}

/// Wherever a wildcard stands in the content, one of the places found for it covers
/// where it starts
pub proof fn law_every_place_is_covered(value: Seq<char>, content: Seq<char>, i: int, j: int)
    requires
        value.contains('*'),
        0 <= i <= j <= content.len(),
        engines::stands_for(apply::pieces(value), content.subrange(i, j)),
    ensures
        exists|k: int|
            0 <= k < engines::wildcard_places(apply::pieces(value), content, 0).len() && (
            #[trigger] engines::wildcard_places(apply::pieces(value), content, 0)[k]).0 <= i
                && i < engines::wildcard_places(apply::pieces(value), content, 0)[k].1,
{
    lemma_pieces_around(value);
    let k = lemma_covered(apply::pieces(value), content, 0, i, j);
}

// ---------------------------------------------------------------------------
// Names between delimiters
// ---------------------------------------------------------------------------

/// Whether `open` and `close` set a name off from the text around it, as `<` and `>` do
pub open spec fn delimit(open: Seq<char>, close: Seq<char>) -> bool {
    &&& open.len() > 0
    &&& close.len() > 0
    &&& !open.contains('*')
    &&& !close.contains('*')
    &&& !engines::is_name_char(open[0])
    &&& !engines::is_name_char(close[0])
    &&& !open.skip(1).contains(open[0])
    &&& !close.contains(open[0])
}

/// Two names between the same delimiters at one place are the same
proof fn lemma_same_name(
    s: Seq<char>,
    open: Seq<char>,
    close: Seq<char>,
    first: Seq<char>,
    second: Seq<char>,
    i: int,
)
    requires
        delimit(open, close),
        engines::is_name(first),
        engines::is_name(second),
        text::occurs_at(s, open + first + close, i),
        text::occurs_at(s, open + second + close, i),
        first.len() <= second.len(),
    ensures
        first.len() == second.len(),
{
    if first.len() < second.len() {
        let one = open + first + close;
        let two = open + second + close;
        let at = open.len() + first.len();
        assert(one[at as int] == close[0]);
        assert(two[at as int] == second[first.len() as int]);
        assert(s.subrange(i, i + one.len())[at as int] == s[i + at]);
        assert(s.subrange(i, i + two.len())[at as int] == s[i + at]);
        assert(engines::is_name_char(second[first.len() as int]));
    }
}

proof fn lemma_name_is_found(
    content: Seq<char>,
    open: Seq<char>,
    close: Seq<char>,
    name: Seq<char>,
)
    requires
        delimit(open, close),
        engines::is_name(name),
        text::occurs(content, open + name + close),
    ensures
        engines::place_texts(
            content,
            engines::wildcard_places(seq![open, close], content, 0),
        ).contains(open + name + close),
{
    let pieces = seq![open, close];
    let whole = open + name + close;
    let i = choose|i: int| text::occurs_at(content, whole, i);
    let found = engines::wildcard_places(pieces, content, 0);
    let names = engines::place_texts(content, found);
    assert(pieces.drop_first() =~= seq![close]);
    assert(engines::stands_for(pieces.drop_first(), close));
    lemma_join_front(pieces, name, close);
    let k = lemma_covered(pieces, content, 0, i, i + whole.len());
    lemma_places(pieces, content, 0);
    let (a, b) = found[k];
    assert(is_place(pieces, content, 0, found[k]));
    let t = content.subrange(a, b);
    let (other, rest) = lemma_split_front(pieces, t);
    assert(rest == close);
    assert(t == open + other + close);
    assert(t.len() == open.len() + other.len() + close.len());
    assert(a == i) by {
        if a < i {
            let c = t[i - a];
            assert(c == content[i]);
            assert(content.subrange(i, i + whole.len())[0] == content[i]);
            assert(c == open[0]);
            if i - a < open.len() {
                assert(open.skip(1)[i - a - 1] == c);
            } else if i - a < open.len() + other.len() {
                assert(other[i - a - open.len()] == c);
                assert(engines::is_name_char(other[i - a - open.len()]));
            } else {
                assert(close[i - a - open.len() - other.len()] == c);
            }
        }
    }
    assert(content.subrange(i, i + (open + other + close).len()) =~= t);
    if name.len() <= other.len() {
        lemma_same_name(content, open, close, name, other, i);
    } else {
        lemma_same_name(content, open, close, other, name, i);
    }
    assert(names[k] =~= whole);
}

proof fn lemma_names_kept(list: Seq<OptionModel>, content: Seq<char>, at: int)
    requires
        0 <= at < list.len(),
        list[at].key == "param"@,
        apply::all_names(list, content) is Ok,
    ensures
        apply::param_names_spec(options::text_value_of(list[at]), content) matches Ok(names) && (
        forall|name: Seq<char>| #[trigger]
            names.contains(name) ==> apply::all_names(list, content)->Ok_0.contains(name)),
    decreases list.len(),
{
    let head = list.drop_last();
    let before = apply::all_names(head, content)->Ok_0;
    let all = apply::all_names(list, content)->Ok_0;
    if at < list.len() - 1 {
        lemma_names_kept(head, content, at);
        let names = apply::param_names_spec(options::text_value_of(list[at]), content)->Ok_0;
        assert forall|name: Seq<char>| #[trigger] names.contains(name) implies all.contains(
            name,
        ) by {
            let k = choose|k: int| 0 <= k < before.len() && before[k] == name;
            assert(before.contains(name));
            assert(all[k] == name);
        }
    } else {
        let names = apply::param_names_spec(options::text_value_of(list[at]), content)->Ok_0;
        assert(all == before + names);
        assert forall|name: Seq<char>| #[trigger] names.contains(name) implies all.contains(
            name,
        ) by {
            let k = choose|k: int| 0 <= k < names.len() && names[k] == name;
            assert(all[before.len() + k] == name);
        }
    }
}

/// A `param` of a `*` between delimiters, as `<*>`, makes every name that stands between
/// them in the content a placeholder
pub proof fn law_every_name_is_a_placeholder(
    list: Seq<OptionModel>,
    at: int,
    content: Seq<char>,
    open: Seq<char>,
    close: Seq<char>,
    name: Seq<char>,
)
    requires
        0 <= at < list.len(),
        list[at].key == "param"@,
        options::text_value_of(list[at]) == open.push('*') + close,
        delimit(open, close),
        engines::is_name(name),
        text::occurs(content, open + name + close),
        apply::placeholders_spec(list, content) is Ok,
    ensures
        apply::placeholders_spec(list, content)->Ok_0.contains(open + name + close),
{
    let value = open.push('*') + close;
    lines::lemma_split_concat(open, '*', close);
    lines::lemma_split_single(open, '*');
    lines::lemma_split_single(close, '*');
    assert(apply::pieces(value) =~= seq![open, close]);
    assert(value[open.len() as int] == '*');
    lemma_name_is_found(content, open, close, name);
    lemma_names_kept(list, content, at);
    let names = apply::param_names_spec(value, content)->Ok_0;
    assert(names.contains(open + name + close));
    text::law_unique(apply::all_names(list, content)->Ok_0);
}

} // verus!
