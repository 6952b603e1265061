//! What holds of code that is filled in from a doc block that it may not match.

use crate::lines;
use crate::matching;
use crate::matching::MatcherModel;
use crate::matching::PatternModel;
use vstd::prelude::*;

verus! {

/// The line of a doc that a line of code is filled in from is the first one, from a line
/// on, that its pattern matches
pub proof fn law_first_matching_line(pattern: PatternModel, list: Seq<Seq<char>>, start: int)
    requires
        0 <= start <= list.len(),
        matching::first_match_spec(pattern, list, start) is Ok,
    ensures
        match matching::first_match_spec(pattern, list, start)->Ok_0 {
            Some((i, values)) => {
                &&& start <= i < list.len()
                &&& matching::captures_spec(pattern, list[i]) == Ok::<_, Seq<char>>(Some(values))
                &&& forall|j: int|
                    start <= j < i ==> matching::captures_spec(pattern, #[trigger] list[j]) == Ok::<
                        _,
                        Seq<char>,
                    >(None::<Seq<(Seq<char>, Seq<char>)>>)
            },
            None => forall|j: int|
                start <= j < list.len() ==> matching::captures_spec(pattern, #[trigger] list[j])
                    == Ok::<_, Seq<char>>(None::<Seq<(Seq<char>, Seq<char>)>>),
        },
    decreases list.len() - start,
{
    if start < list.len() {
        if let Ok(None) = matching::captures_spec(pattern, list[start]) {
            law_first_matching_line(pattern, list, start + 1);
        }
    }
}

/// A line of code without placeholders is found in a doc where it first is, from a line
/// on
pub proof fn law_same_line(list: Seq<Seq<char>>, line: Seq<char>, start: int)
    requires
        0 <= start <= list.len(),
    ensures
        match matching::find_line(list, line, start) {
            Some(i) => start <= i < list.len() && list[i] == line && forall|j: int|
                start <= j < i ==> #[trigger] list[j] != line,
            None => forall|j: int| start <= j < list.len() ==> #[trigger] list[j] != line,
        },
    decreases list.len() - start,
{
    if start < list.len() && list[start] != line {
        law_same_line(list, line, start + 1);
    }
}

/// Whether a line of code is filled in from one of the lines of a doc, or stays as it is
pub open spec fn is_filled(
    filled: Seq<char>,
    line: Seq<char>,
    pattern: Option<PatternModel>,
    doc: Seq<Seq<char>>,
) -> bool {
    ||| filled == line
    ||| pattern is Some && exists|i: int, values: Seq<(Seq<char>, Seq<char>)>|
        0 <= i < doc.len() && matching::captures_spec(pattern->0, #[trigger] doc[i]) == Ok::<
            _,
            Seq<char>,
        >(Some(values)) && filled == #[trigger] matching::fill_values(line, values)
}

proof fn lemma_filled(
    list: Seq<Seq<char>>,
    patterns: Seq<Option<PatternModel>>,
    doc: Seq<Seq<char>>,
    k: int,
    next: int,
)
    requires
        0 <= k <= list.len(),
        patterns.len() == list.len(),
        0 <= next <= doc.len(),
        matching::fill_from(list, patterns, doc, k, next) is Ok,
    ensures
        ({
            let filled = matching::fill_from(list, patterns, doc, k, next)->Ok_0;
            &&& filled.len() == list.len() - k
            &&& forall|i: int|
                k <= i < list.len() ==> is_filled(
                    filled[i - k],
                    #[trigger] list[i],
                    patterns[i],
                    doc,
                )
        }),
    decreases list.len() - k,
{
    if k < list.len() {
        let (line, at) = matching::fill_line_spec(list[k], patterns[k], doc, next)->Ok_0;
        match patterns[k] {
            None => {
                law_same_line(doc, list[k], next);
            },
            Some(pattern) => {
                law_first_matching_line(pattern, doc, next);
                if let Some((i, values)) = matching::first_match_spec(pattern, doc, next)->Ok_0 {
                    assert(matching::captures_spec(pattern, doc[i]) == Ok::<_, Seq<char>>(
                        Some(values),
                    ));
                    assert(line == matching::fill_values(list[k], values));
                }
            },
        }
        assert(is_filled(line, list[k], patterns[k], doc));
        let after = match at {
            Some(index) => index + 1,
            None => next,
        };
        lemma_filled(list, patterns, doc, k + 1, after);
        let rest = matching::fill_from(list, patterns, doc, k + 1, after)->Ok_0;
        let filled = matching::fill_from(list, patterns, doc, k, next)->Ok_0;
        assert(filled =~= seq![line] + rest);
        assert forall|i: int| k <= i < list.len() implies is_filled(
            filled[i - k],
            #[trigger] list[i],
            patterns[i],
            doc,
        ) by {
            if i > k {
                assert(filled[i - k] == rest[i - k - 1]);
            }
        }
    }
}

/// Code is filled in line by line: as many lines as it has, each of which stays as it is
/// or has values of a line of the doc that it matches
pub proof fn law_filled_line_by_line(matcher: MatcherModel, doc: Seq<char>)
    requires
        matcher.whole is Some,
        matcher.lines.len() == lines::split(matcher.content, '\n').len(),
        matching::fill_spec(matcher, doc) is Ok,
    ensures
        exists|filled: Seq<Seq<char>>|
            matching::fill_spec(matcher, doc) == Ok::<_, Seq<char>>(
                #[trigger] lines::join(filled, seq!['\n']),
            ) && are_filled(filled, matcher, doc),
{
    let list = lines::split(matcher.content, '\n');
    let doc_lines = lines::split(doc, '\n');
    reveal_strlit("\n");
    assert("\n"@ =~= seq!['\n']);
    lemma_filled(list, matcher.lines, doc_lines, 0, 0);
    let filled = matching::fill_from(list, matcher.lines, doc_lines, 0, 0)->Ok_0;
    assert forall|i: int| 0 <= i < list.len() implies is_filled(
        filled[i],
        #[trigger] list[i],
        matcher.lines[i],
        doc_lines,
    ) by {
        assert(filled[i] == filled[i - 0]);
    }
    assert(are_filled(filled, matcher, doc));
    assert(matching::fill_spec(matcher, doc) == Ok::<_, Seq<char>>(
        lines::join(filled, seq!['\n']),
    ));
}

/// Whether lines are those of some code, each filled in
pub open spec fn are_filled(
    filled: Seq<Seq<char>>,
    matcher: MatcherModel,
    doc: Seq<char>,
) -> bool {
    let list = lines::split(matcher.content, '\n');
    &&& filled.len() == list.len()
    &&& forall|i: int|
        0 <= i < list.len() ==> is_filled(
            filled[i],
            #[trigger] list[i],
            matcher.lines[i],
            lines::split(doc, '\n'),
        )
}

} // verus!
