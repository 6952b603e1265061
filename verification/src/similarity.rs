//! How alike texts are: the counts that their similarity is worked out from.

use crate::docs;
use crate::docs::LangCounts;
use crate::lines;
use crate::text;
use crate::text::CharClass;
use vstd::prelude::*;

verus! {

// ---------------------------------------------------------------------------
// Tokens
// ---------------------------------------------------------------------------

/// A text in lower case
pub uninterp spec fn lowercase(s: Seq<char>) -> Seq<char>;

/// `str::to_lowercase`: a text in lower case rests on the text alone.
#[verifier::external_body]
pub(crate) fn to_lowercase(s: &str) -> (lower: String)
    ensures
        lower@ == lowercase(s@),
{
    s.to_lowercase()
}

/// The tokens of a text: runs of letters, digits and `_.$-`, in lower case
pub open spec fn tokens_of(s: Seq<char>) -> Seq<Seq<char>> {
    text::runs(lowercase(s), CharClass::Token)
}

/// The tokens of a text: runs of letters, digits and `_.$-`, in lower case
pub fn tokens(s: &str) -> (found: Vec<String>)
    ensures
        text::views(found@) == tokens_of(s@),
{
    let lower = to_lowercase(s);
    text::runs_of(lower.as_str(), CharClass::Token)
}

/// How often `token` is in `list`
pub open spec fn count_in(list: Seq<Seq<char>>, token: Seq<char>) -> nat
    decreases list.len(),
{
    if list.len() == 0 {
        0
    } else if list.last() == token {
        count_in(list.drop_last(), token) + 1
    } else {
        count_in(list.drop_last(), token)
    }
}

/// Takes one `token` from `remaining`; false when none is left
pub fn take_token(remaining: &mut LangCounts, token: &str) -> (taken: bool)
    ensures
        taken == (docs::count_of(docs::count_views(old(remaining)@), token@) > 0),
        docs::count_of(docs::count_views(final(remaining)@), token@) == if taken {
            docs::count_of(docs::count_views(old(remaining)@), token@) - 1
        } else {
            0
        },
        forall|other: Seq<char>|
            other != token@ ==> #[trigger] docs::count_of(
                docs::count_views(final(remaining)@),
                other,
            ) == docs::count_of(docs::count_views(old(remaining)@), other),
{
    let ghost before = docs::count_views(remaining@);
    let mut i: usize = 0;
    while i < remaining.len()
        invariant
            i <= remaining@.len(),
            *remaining == *old(remaining),
            before == docs::count_views(remaining@),
            forall|j: int| 0 <= j < i ==> (#[trigger] before[j]).0 != token@,
        decreases remaining@.len() - i,
    {
        if text::same(remaining[i].0.as_str(), token) {
            proof {
                docs::lemma_count_of_is(before, token@, i as int);
                assert(before[i as int].1 == remaining@[i as int].1);
            }
            let count: usize = remaining[i].1;
            if count == 0 {
                return false;
            }
            let name = remaining[i].0.clone();
            remaining.set(i, (name, count - 1));
            proof {
                let after = docs::count_views(remaining@);
                assert(after[i as int] == (token@, (count - 1) as nat));
                assert forall|j: int| 0 <= j < i implies (#[trigger] after[j]).0 != token@ by {
                    assert(after[j] == before[j]);
                }
                docs::lemma_count_of_is(after, token@, i as int);
                assert forall|other: Seq<char>| other != token@ implies #[trigger] docs::count_of(
                    after,
                    other,
                ) == docs::count_of(before, other) by {
                    docs::lemma_count_of_same(before, after, other);
                }
            }
            return true;
        }
        i = i + 1;
    }
    proof {
        docs::lemma_count_of_none(before, token@);
    }
    false
}

/// How many tokens of `second` are also in `first`, each counted as often as it is in
/// both
pub open spec fn common_count(first: Seq<Seq<char>>, second: Seq<Seq<char>>) -> nat
    decreases second.len(),
{
    if second.len() == 0 {
        0
    } else {
        let head = second.drop_last();
        if count_in(head, second.last()) < count_in(first, second.last()) {
            common_count(first, head) + 1
        } else {
            common_count(first, head)
        }
    }
}

/// How much two lists have in common: how many items, out of how many
#[derive(Clone, Copy, Debug, PartialEq, Eq, Structural)]
pub struct Overlap {
    pub common: usize,
    pub first: usize,
    pub second: usize,
}

pub struct OverlapModel {
    pub common: nat,
    pub first: nat,
    pub second: nat,
}

impl View for Overlap {
    type V = OverlapModel;

    open spec fn view(&self) -> OverlapModel {
        OverlapModel {
            common: self.common as nat,
            first: self.first as nat,
            second: self.second as nat,
        }
    }
}

impl OverlapModel {
    /// Whether twice what is in common is under three tenths of all there is, or there
    /// is nothing on one side
    pub open spec fn is_low(self) -> bool {
        self.first == 0 || self.second == 0 || 20 * self.common < 3 * (self.first + self.second)
    }
}

impl Overlap {
    /// Whether the share of what is in common is under three tenths
    pub fn is_low(&self) -> (low: bool)
        ensures
            low == self@.is_low(),
    {
        self.first == 0 || self.second == 0 || 20u128 * (self.common as u128) < 3u128 * (
        self.first as u128 + self.second as u128)
    }
}

/// How many tokens two lists have in common
pub open spec fn token_overlap_spec(first: Seq<Seq<char>>, second: Seq<Seq<char>>) -> OverlapModel {
    OverlapModel {
        common: common_count(first, second),
        first: first.len(),
        second: second.len(),
    }
}

proof fn lemma_count_in(list: Seq<Seq<char>>, token: Seq<char>)
    ensures
        count_in(list, token) <= list.len(),
    decreases list.len(),
{
    if list.len() > 0 {
        lemma_count_in(list.drop_last(), token);
    }
}

fn count_tokens(list: &Vec<String>) -> (counts: LangCounts)
    ensures
        forall|token: Seq<char>| #[trigger]
            docs::count_of(docs::count_views(counts@), token) == count_in(
                text::views(list@),
                token,
            ),
{
    let ghost views = text::views(list@);
    let mut counts: LangCounts = Vec::new();
    let mut i: usize = 0;
    proof {
        assert forall|token: Seq<char>| #[trigger] docs::count_of(
            docs::count_views(counts@),
            token,
        ) == count_in(views.take(0), token) by {
            docs::lemma_count_of_none(docs::count_views(counts@), token);
        }
    }
    while i < list.len()
        invariant
            i <= list@.len(),
            views == text::views(list@),
            forall|token: Seq<char>| #[trigger]
                docs::count_of(docs::count_views(counts@), token) == count_in(
                    views.take(i as int),
                    token,
                ),
        decreases list@.len() - i,
    {
        proof {
            lemma_count_in(views.take(i as int), list@[i as int]@);
            assert(views.take(i + 1).drop_last() =~= views.take(i as int));
            assert(views.take(i + 1).last() == list@[i as int]@);
            assert(list.len() <= usize::MAX);
        }
        let _ = docs::next_seq(&mut counts, list[i].as_str());
        i = i + 1;
    }
    assert(views.take(i as int) =~= views);
    counts
}

proof fn lemma_common_count(first: Seq<Seq<char>>, second: Seq<Seq<char>>)
    ensures
        common_count(first, second) <= second.len(),
    decreases second.len(),
{
    if second.len() > 0 {
        lemma_common_count(first, second.drop_last());
    }
}

/// What `first` still has of a token once `second` took its own
spec fn left_of(first: Seq<Seq<char>>, second: Seq<Seq<char>>, token: Seq<char>) -> int {
    if count_in(second, token) < count_in(first, token) {
        count_in(first, token) - count_in(second, token)
    } else {
        0
    }
}

/// How many tokens two texts have in common
pub fn token_overlap(first_tokens: &Vec<String>, second_tokens: &Vec<String>) -> (overlap: Overlap)
    ensures
        overlap@ == token_overlap_spec(text::views(first_tokens@), text::views(second_tokens@)),
{
    let ghost first = text::views(first_tokens@);
    let ghost second = text::views(second_tokens@);
    let mut remaining = count_tokens(first_tokens);
    let mut common: usize = 0;
    let mut i: usize = 0;
    while i < second_tokens.len()
        invariant
            i <= second_tokens@.len(),
            first == text::views(first_tokens@),
            second == text::views(second_tokens@),
            common == common_count(first, second.take(i as int)),
            forall|token: Seq<char>| #[trigger]
                docs::count_of(docs::count_views(remaining@), token) == left_of(
                    first,
                    second.take(i as int),
                    token,
                ),
        decreases second_tokens@.len() - i,
    {
        proof {
            let next = second.take(i + 1);
            assert(next.drop_last() =~= second.take(i as int));
            assert(next.last() == second_tokens@[i as int]@);
            lemma_common_count(first, next);
            assert(second_tokens.len() <= usize::MAX);
        }
        if take_token(&mut remaining, second_tokens[i].as_str()) {
            common = common + 1;
        }
        i = i + 1;
    }
    assert(second.take(i as int) =~= second);
    Overlap { common, first: first_tokens.len(), second: second_tokens.len() }
}

proof fn lemma_count_is_multiset(list: Seq<Seq<char>>, token: Seq<char>)
    ensures
        count_in(list, token) == list.to_multiset().count(token),
    decreases list.len(),
{
    broadcast use vstd::seq_lib::group_to_multiset_ensures;

    if list.len() > 0 {
        lemma_count_is_multiset(list.drop_last(), token);
        assert(list =~= list.drop_last().push(list.last()));
    }
}

/// The tokens in common are those that both have, each as often as both have it; so
/// which text comes first makes no difference
pub proof fn law_common_tokens(first: Seq<Seq<char>>, second: Seq<Seq<char>>)
    ensures
        common_count(first, second) == first.to_multiset().intersection_with(
            second.to_multiset(),
        ).len(),
        common_count(first, second) == common_count(second, first),
{
    broadcast use {
        vstd::multiset::group_multiset_axioms,
        vstd::multiset::lemma_intersection_count,
    };

    lemma_common_is_intersection(first, second);
    lemma_common_is_intersection(second, first);
    assert(first.to_multiset().intersection_with(second.to_multiset())
        =~= second.to_multiset().intersection_with(first.to_multiset()));
}

proof fn lemma_common_is_intersection(first: Seq<Seq<char>>, second: Seq<Seq<char>>)
    ensures
        common_count(first, second) == first.to_multiset().intersection_with(
            second.to_multiset(),
        ).len(),
    decreases second.len(),
{
    broadcast use {
        vstd::seq_lib::group_to_multiset_ensures,
        vstd::multiset::group_multiset_axioms,
        vstd::multiset::lemma_intersection_count,
    };

    let a = first.to_multiset();
    if second.len() == 0 {
        assert(second =~= Seq::empty());
        assert(a.intersection_with(second.to_multiset())
            =~= vstd::multiset::Multiset::<Seq<char>>::empty());
    } else {
        let head = second.drop_last();
        let last = second.last();
        let b = head.to_multiset();
        lemma_common_is_intersection(first, head);
        assert(second =~= head.push(last));
        lemma_count_is_multiset(head, last);
        lemma_count_is_multiset(first, last);
        if count_in(head, last) < count_in(first, last) {
            assert(a.intersection_with(b.insert(last)) =~= a.intersection_with(b).insert(last));
        } else {
            assert(a.intersection_with(b.insert(last)) =~= a.intersection_with(b));
        }
    }
}

// ---------------------------------------------------------------------------
// Lines
// ---------------------------------------------------------------------------

/// The lines, trimmed, blank ones skipped
pub open spec fn significant(list: Seq<Seq<char>>) -> Seq<Seq<char>>
    decreases list.len(),
{
    if list.len() == 0 {
        Seq::empty()
    } else if text::trimmed(list.last()).len() == 0 {
        significant(list.drop_last())
    } else {
        significant(list.drop_last()).push(text::trimmed(list.last()))
    }
}

/// The lines of `text`, trimmed, blank ones skipped
pub fn significant_lines(text: &str) -> (kept: Vec<String>)
    ensures
        text::views(kept@) == significant(lines::lines_of(text@)),
{
    let list = lines::lines(text);
    let ghost views = text::views(list@);
    let mut kept: Vec<String> = Vec::new();
    let mut i: usize = 0;
    assert(text::views(kept@) =~= significant(views.take(0)));
    while i < list.len()
        invariant
            i <= list@.len(),
            views == text::views(list@),
            text::views(kept@) == significant(views.take(i as int)),
        decreases list@.len() - i,
    {
        proof {
            assert(views.take(i + 1).drop_last() =~= views.take(i as int));
            assert(views.take(i + 1).last() == list@[i as int]@);
        }
        let line = text::trim(list[i].as_str());
        if text::chars_of(line.as_str()).len() > 0 {
            proof {
                text::lemma_views_push(kept@, line);
            }
            kept.push(line);
        }
        i = i + 1;
    }
    assert(views.take(i as int) =~= views);
    kept
}

/// The length of the longest common subsequence of two lists
pub open spec fn lcs(first: Seq<Seq<char>>, second: Seq<Seq<char>>) -> nat
    decreases first.len() + second.len(),
{
    if first.len() == 0 || second.len() == 0 {
        0
    } else if first.last() == second.last() {
        lcs(first.drop_last(), second.drop_last()) + 1
    } else {
        let up = lcs(first.drop_last(), second);
        let left = lcs(first, second.drop_last());
        if up >= left {
            up
        } else {
            left
        }
    }
}

/// Whether `part` is a subsequence of `list`
pub open spec fn is_subsequence(part: Seq<Seq<char>>, list: Seq<Seq<char>>) -> bool
    decreases list.len(),
{
    if part.len() == 0 {
        true
    } else if list.len() == 0 {
        false
    } else if part.last() == list.last() {
        is_subsequence(part.drop_last(), list.drop_last())
    } else {
        is_subsequence(part, list.drop_last())
    }
}

proof fn lemma_subsequence_shorter(part: Seq<Seq<char>>, list: Seq<Seq<char>>)
    requires
        part.len() > 0,
        is_subsequence(part, list),
    ensures
        list.len() > 0,
        is_subsequence(part.drop_last(), list.drop_last()),
        is_subsequence(part.drop_last(), list),
    decreases list.len(),
{
    if part.last() == list.last() {
        lemma_subsequence_longer(part.drop_last(), list.drop_last(), list.last());
        assert(list.drop_last().push(list.last()) =~= list);
    } else {
        lemma_subsequence_shorter(part, list.drop_last());
        lemma_subsequence_longer(part.drop_last(), list.drop_last(), list.last());
        assert(list.drop_last().push(list.last()) =~= list);
    }
}

proof fn lemma_subsequence_longer(part: Seq<Seq<char>>, list: Seq<Seq<char>>, added: Seq<char>)
    requires
        is_subsequence(part, list),
    ensures
        is_subsequence(part, list.push(added)),
    decreases list.len(), 1int,
{
    assert(list.push(added).drop_last() =~= list);
    if part.len() > 0 && part.last() == added {
        lemma_subsequence_drop(part, list);
    }
}

proof fn lemma_subsequence_drop(part: Seq<Seq<char>>, list: Seq<Seq<char>>)
    requires
        part.len() > 0,
        is_subsequence(part, list),
    ensures
        is_subsequence(part.drop_last(), list),
    decreases list.len(), 0int,
{
    if list.len() > 0 {
        let head = list.drop_last();
        assert(head.push(list.last()) =~= list);
        if part.last() == list.last() {
            lemma_subsequence_longer(part.drop_last(), head, list.last());
        } else {
            lemma_subsequence_drop(part, head);
            lemma_subsequence_longer(part.drop_last(), head, list.last());
        }
    }
}

/// No common subsequence is longer
proof fn lemma_lcs_bound(
    part: Seq<Seq<char>>,
    first: Seq<Seq<char>>,
    second: Seq<Seq<char>>,
)
    requires
        is_subsequence(part, first),
        is_subsequence(part, second),
    ensures
        part.len() <= lcs(first, second),
    decreases first.len() + second.len(),
{
    if part.len() > 0 {
        lemma_subsequence_shorter(part, first);
        lemma_subsequence_shorter(part, second);
        if first.last() == second.last() {
            lemma_lcs_bound(part.drop_last(), first.drop_last(), second.drop_last());
        } else if part.last() != first.last() {
            lemma_lcs_bound(part, first.drop_last(), second);
        } else {
            lemma_lcs_bound(part, first, second.drop_last());
        }
    }
}

/// A longest common subsequence
pub open spec fn lcs_witness(first: Seq<Seq<char>>, second: Seq<Seq<char>>) -> Seq<Seq<char>>
    decreases first.len() + second.len(),
{
    if first.len() == 0 || second.len() == 0 {
        Seq::empty()
    } else if first.last() == second.last() {
        lcs_witness(first.drop_last(), second.drop_last()).push(first.last())
    } else if lcs(first.drop_last(), second) >= lcs(first, second.drop_last()) {
        lcs_witness(first.drop_last(), second)
    } else {
        lcs_witness(first, second.drop_last())
    }
}

proof fn lemma_lcs_witness(first: Seq<Seq<char>>, second: Seq<Seq<char>>)
    ensures
        lcs_witness(first, second).len() == lcs(first, second),
        is_subsequence(lcs_witness(first, second), first),
        is_subsequence(lcs_witness(first, second), second),
    decreases first.len() + second.len(),
{
    if first.len() > 0 && second.len() > 0 {
        if first.last() == second.last() {
            lemma_lcs_witness(first.drop_last(), second.drop_last());
            let found = lcs_witness(first.drop_last(), second.drop_last());
            assert(found.push(first.last()).drop_last() =~= found);
        } else if lcs(first.drop_last(), second) >= lcs(first, second.drop_last()) {
            lemma_lcs_witness(first.drop_last(), second);
            lemma_subsequence_longer(
                lcs_witness(first, second),
                first.drop_last(),
                first.last(),
            );
            assert(first.drop_last().push(first.last()) =~= first);
        } else {
            lemma_lcs_witness(first, second.drop_last());
            lemma_subsequence_longer(
                lcs_witness(first, second),
                second.drop_last(),
                second.last(),
            );
            assert(second.drop_last().push(second.last()) =~= second);
        }
    }
}

/// The lines counted as common are those of a longest common subsequence: there is one
/// that long, and none is longer
pub proof fn law_longest_common_subsequence(first: Seq<Seq<char>>, second: Seq<Seq<char>>)
    ensures
        exists|part: Seq<Seq<char>>| #[trigger]
            is_subsequence(part, first) && is_subsequence(part, second) && part.len() == lcs(
                first,
                second,
            ),
        forall|part: Seq<Seq<char>>| #[trigger]
            is_subsequence(part, first) && is_subsequence(part, second) ==> part.len() <= lcs(
                first,
                second,
            ),
{
    lemma_lcs_witness(first, second);
    let found = lcs_witness(first, second);
    assert(is_subsequence(found, first));
    assert forall|part: Seq<Seq<char>>| #[trigger]
        is_subsequence(part, first) && is_subsequence(part, second) implies part.len() <= lcs(
        first,
        second,
    ) by {
        lemma_lcs_bound(part, first, second);
    }
}

/// The next row of the LCS table, up to cell `j`
pub open spec fn next_cell(
    previous_row: Seq<usize>,
    line: Seq<char>,
    other_lines: Seq<Seq<char>>,
    j: int,
) -> nat
    decreases j,
{
    if j <= 0 {
        0
    } else if line == other_lines[j - 1] {
        (previous_row[j - 1] + 1) as nat
    } else {
        let left = next_cell(previous_row, line, other_lines, j - 1);
        if previous_row[j] >= left {
            previous_row[j] as nat
        } else {
            left
        }
    }
}

/// The next row of the LCS table: `previous_row[j]` is the LCS of the lines so far
/// and the first j of `other_lines`, and the result is the same with `line` added
pub fn next_lcs_row(previous_row: &Vec<usize>, line: &str, other_lines: &Vec<String>) -> (row: Vec<
    usize,
>)
    requires
        previous_row@.len() == other_lines@.len() + 1,
        forall|j: int| 0 <= j < previous_row@.len() ==> #[trigger] previous_row@[j] <= j,
    ensures
        row@.len() == previous_row@.len(),
        forall|j: int|
            0 <= j < row@.len() ==> #[trigger] row@[j] == next_cell(
                previous_row@,
                line@,
                text::views(other_lines@),
                j,
            ) && row@[j] <= j,
{
    let ghost views = text::views(other_lines@);
    let mut row: Vec<usize> = Vec::new();
    row.push(0);
    let mut j: usize = 0;
    while j < other_lines.len()
        invariant
            j <= other_lines@.len(),
            views == text::views(other_lines@),
            previous_row@.len() == other_lines@.len() + 1,
            forall|k: int| 0 <= k < previous_row@.len() ==> #[trigger] previous_row@[k] <= k,
            row@.len() == j + 1,
            forall|k: int|
                0 <= k < row@.len() ==> #[trigger] row@[k] == next_cell(
                    previous_row@,
                    line@,
                    views,
                    k,
                ) && row@[k] <= k,
        decreases other_lines@.len() - j,
    {
        assert(views[j as int] == other_lines@[j as int]@);
        let left = row[j];
        assert(left == next_cell(previous_row@, line@, views, j as int));
        assert(previous_row@[j as int] <= j);
        assert(previous_row@[j + 1] <= j + 1);
        let cell: usize = if text::same(line, other_lines[j].as_str()) {
            previous_row[j] + 1
        } else if previous_row[j + 1] >= left {
            previous_row[j + 1]
        } else {
            left
        };
        row.push(cell);
        j = j + 1;
    }
    row
}

proof fn lemma_next_row(
    first: Seq<Seq<char>>,
    line: Seq<char>,
    second: Seq<Seq<char>>,
    row: Seq<usize>,
    j: int,
)
    requires
        0 <= j <= second.len(),
        row.len() == second.len() + 1,
        forall|k: int| 0 <= k < row.len() ==> #[trigger] row[k] == lcs(first, second.take(k)),
    ensures
        next_cell(row, line, second, j) == lcs(first.push(line), second.take(j)),
    decreases j,
{
    let longer = first.push(line);
    assert(longer.drop_last() =~= first);
    if j > 0 {
        lemma_next_row(first, line, second, row, j - 1);
        let part = second.take(j);
        assert(part.drop_last() =~= second.take(j - 1));
        assert(part.last() == second[j - 1]);
        assert(row[j - 1] == lcs(first, second.take(j - 1)));
        assert(row[j] == lcs(first, second.take(j)));
    }
}

proof fn lemma_lcs_at_most(first: Seq<Seq<char>>, second: Seq<Seq<char>>)
    ensures
        lcs(first, second) <= second.len(),
    decreases first.len() + second.len(),
{
    if first.len() > 0 && second.len() > 0 {
        lemma_lcs_at_most(first.drop_last(), second.drop_last());
        lemma_lcs_at_most(first.drop_last(), second);
        lemma_lcs_at_most(first, second.drop_last());
    }
}

/// How many lines two texts have in common, in order (trimmed, blank ones skipped)
pub open spec fn line_overlap_spec(first: Seq<char>, second: Seq<char>) -> OverlapModel {
    let first_lines = significant(lines::lines_of(first));
    let second_lines = significant(lines::lines_of(second));
    OverlapModel {
        common: lcs(first_lines, second_lines),
        first: first_lines.len(),
        second: second_lines.len(),
    }
}

/// How many lines two texts have in common, in order (trimmed, blank ones skipped)
pub fn line_overlap(first_text: &str, second_text: &str) -> (overlap: Overlap)
    ensures
        overlap@ == line_overlap_spec(first_text@, second_text@),
{
    let first_lines = significant_lines(first_text);
    let second_lines = significant_lines(second_text);
    let ghost first = text::views(first_lines@);
    let ghost second = text::views(second_lines@);
    let mut row: Vec<usize> = Vec::new();
    let mut j: usize = 0;
    while j < second_lines.len()
        invariant
            j <= second_lines@.len(),
            second == text::views(second_lines@),
            row@.len() == j,
            forall|k: int| 0 <= k < row@.len() ==> #[trigger] row@[k] == 0,
        decreases second_lines@.len() - j,
    {
        row.push(0);
        j = j + 1;
    }
    row.push(0);
    let mut i: usize = 0;
    while i < first_lines.len()
        invariant
            i <= first_lines@.len(),
            first == text::views(first_lines@),
            second == text::views(second_lines@),
            row@.len() == second_lines@.len() + 1,
            forall|k: int|
                0 <= k < row@.len() ==> #[trigger] row@[k] == lcs(
                    first.take(i as int),
                    second.take(k),
                ),
        decreases first_lines@.len() - i,
    {
        let ghost before = row@;
        proof {
            assert forall|k: int| 0 <= k < row@.len() implies #[trigger] row@[k] <= k by {
                lemma_lcs_at_most(first.take(i as int), second.take(k));
            }
        }
        row = next_lcs_row(&row, first_lines[i].as_str(), &second_lines);
        proof {
            assert(first.take(i as int).push(first[i as int]) =~= first.take(i + 1));
            assert(first[i as int] == first_lines@[i as int]@);
            assert forall|k: int| 0 <= k < row@.len() implies #[trigger] row@[k] == lcs(
                first.take(i + 1),
                second.take(k),
            ) by {
                lemma_next_row(
                    first.take(i as int),
                    first_lines@[i as int]@,
                    second,
                    before,
                    k,
                );
            }
        }
        i = i + 1;
    }
    proof {
        assert(first.take(i as int) =~= first);
        assert(second.take(second.len() as int) =~= second);
    }
    Overlap {
        common: row[second_lines.len()],
        first: first_lines.len(),
        second: second_lines.len(),
    }
}

/// What the similarity of two texts is worked out from: what tokens they have in
/// common and, unless that is little, what lines
#[derive(Clone, Copy, Debug, PartialEq, Eq)]
pub struct Comparison {
    pub tokens: Overlap,
    pub lines: Option<Overlap>,
}

pub struct ComparisonModel {
    pub tokens: OverlapModel,
    pub lines: Option<OverlapModel>,
}

impl View for Comparison {
    type V = ComparisonModel;

    open spec fn view(&self) -> ComparisonModel {
        ComparisonModel {
            tokens: self.tokens@,
            lines: match self.lines {
                Some(overlap) => Some(overlap@),
                None => None,
            },
        }
    }
}

/// How alike two texts with the given tokens are
pub open spec fn comparison_spec(
    first_tokens: Seq<Seq<char>>,
    second_tokens: Seq<Seq<char>>,
    first: Seq<char>,
    second: Seq<char>,
) -> ComparisonModel {
    let overlap = token_overlap_spec(first_tokens, second_tokens);
    ComparisonModel {
        tokens: overlap,
        lines: if overlap.is_low() {
            None
        } else {
            Some(line_overlap_spec(first, second))
        },
    }
}

/// How alike two texts are, given their tokens: those in common alone when they are
/// few, otherwise also how their lines line up
pub fn blended_similarity(
    first_tokens: &Vec<String>,
    second_tokens: &Vec<String>,
    first_text: &str,
    second_text: &str,
) -> (comparison: Comparison)
    ensures
        comparison@ == comparison_spec(
            text::views(first_tokens@),
            text::views(second_tokens@),
            first_text@,
            second_text@,
        ),
{
    let overlap = token_overlap(first_tokens, second_tokens);
    let lines = if overlap.is_low() {
        None
    } else {
        Some(line_overlap(first_text, second_text))
    };
    Comparison { tokens: overlap, lines }
}

/// How alike two texts are
pub open spec fn similarity_spec(first: Seq<char>, second: Seq<char>) -> ComparisonModel {
    comparison_spec(
        tokens_of(first),
        tokens_of(second),
        first,
        second,
    )
}

/// How alike two texts are
pub fn similarity(first_text: &str, second_text: &str) -> (comparison: Comparison)
    ensures
        comparison@ == similarity_spec(first_text@, second_text@),
{
    let first_tokens = tokens(first_text);
    let second_tokens = tokens(second_text);
    blended_similarity(&first_tokens, &second_tokens, first_text, second_text)
}

} // verus!
