//! What holds of the order of things, and of the space between words.

use crate::docs;
use crate::ignored;
use crate::ignored::EntryModel;
use crate::text;
use crate::text::CharClass;
use vstd::prelude::*;

verus! {

// ---------------------------------------------------------------------------
// Order
// ---------------------------------------------------------------------------

/// Texts that start alike are in the order of the first characters that differ. A text
/// comes before those that start with it
pub proof fn law_text_order(same: Seq<char>, first: Seq<char>, second: Seq<char>)
    requires
        second.len() > 0,
        first.len() > 0 ==> first[0] != second[0],
    ensures
        text::before(same + first, same + second) == (first.len() == 0 || first[0] < second[0]),
    decreases same.len(),
{
    if same.len() == 0 {
        assert(same + first =~= first);
        assert(same + second =~= second);
    } else {
        law_text_order(same.drop_first(), first, second);
        assert((same + first).drop_first() =~= same.drop_first() + first);
        assert((same + second).drop_first() =~= same.drop_first() + second);
    }
}

/// Whether no entry comes after one whose path comes after its own
pub open spec fn are_by_path(entries: Seq<EntryModel>) -> bool {
    forall|i: int, j: int|
        0 <= i < j < entries.len() ==> !text::before(
            (#[trigger] entries[j]).path,
            (#[trigger] entries[i]).path,
        )
}

/// Where an entry is put
proof fn lemma_inserted(entries: Seq<EntryModel>, added: EntryModel, k: int)
    requires
        0 <= k < ignored::insert_by_path(entries, added).len(),
    ensures
        ignored::insert_by_path(entries, added).len() == entries.len() + 1,
        ignored::insert_by_path(entries, added)[k] == added || entries.contains(
            ignored::insert_by_path(entries, added)[k],
        ),
    decreases entries.len(),
{
    let after = ignored::insert_by_path(entries, added);
    if entries.len() > 0 && text::before(added.path, entries.last().path) {
        let head = entries.drop_last();
        let before = ignored::insert_by_path(head, added);
        if before.len() > 0 {
            lemma_inserted(head, added, if k < before.len() {
                k
            } else {
                0
            });
        } else {
            lemma_some(head, added);
        }
        if k < before.len() {
            assert(after[k] == before[k]);
            if head.contains(before[k]) {
                let i = choose|i: int| 0 <= i < head.len() && head[i] == before[k];
                assert(entries[i] == before[k]);
            }
        } else {
            assert(entries[entries.len() - 1] == after[k]);
        }
    } else if k < entries.len() {
        assert(entries[k] == after[k]);
    }
}

proof fn lemma_some(entries: Seq<EntryModel>, added: EntryModel)
    ensures
        ignored::insert_by_path(entries, added).len() > 0,
{
}

proof fn lemma_insert_by_path(entries: Seq<EntryModel>, added: EntryModel)
    requires
        are_by_path(entries),
    ensures
        are_by_path(ignored::insert_by_path(entries, added)),
    decreases entries.len(),
{
    let after = ignored::insert_by_path(entries, added);
    if entries.len() > 0 && text::before(added.path, entries.last().path) {
        let head = entries.drop_last();
        let before = ignored::insert_by_path(head, added);
        let last = entries.last();
        assert forall|i: int, j: int| 0 <= i < j < head.len() implies !text::before(
            (#[trigger] head[j]).path,
            (#[trigger] head[i]).path,
        ) by {
            assert(entries[j] == head[j] && entries[i] == head[i]);
        }
        lemma_insert_by_path(head, added);
        assert forall|i: int, j: int| 0 <= i < j < after.len() implies !text::before(
            (#[trigger] after[j]).path,
            (#[trigger] after[i]).path,
        ) by {
            assert(after[i] == before[i]);
            if j < before.len() {
                assert(after[j] == before[j]);
            } else {
                lemma_inserted(head, added, i);
                if before[i] == added {
                    text::lemma_before_total(added.path, last.path);
                } else {
                    let k = choose|k: int| 0 <= k < head.len() && head[k] == before[i];
                    assert(entries[k] == before[i]);
                    assert(entries[entries.len() - 1] == last);
                }
            }
        }
    } else {
        assert forall|i: int, j: int| 0 <= i < j < after.len() implies !text::before(
            (#[trigger] after[j]).path,
            (#[trigger] after[i]).path,
        ) by {
            assert(after[i] == entries[i]);
            if j < entries.len() {
                assert(after[j] == entries[j]);
            } else if text::before(added.path, entries[i].path) {
                let last = entries.last();
                assert(entries[entries.len() - 1] == last);
                text::lemma_before_total(added.path, last.path);
                if text::before(last.path, added.path) {
                    text::lemma_before_transitive(last.path, added.path, entries[i].path);
                }
                if i < entries.len() - 1 {
                    assert(!text::before(entries[entries.len() - 1].path, entries[i].path));
                }
            }
        }
    }
}

/// The entries for a reason are in the order of their paths
pub proof fn law_entries_by_path(files: Seq<EntryModel>, reason: Seq<char>)
    ensures
        are_by_path(ignored::entries_for(files, reason)),
    decreases files.len(),
{
    if files.len() > 0 {
        law_entries_by_path(files.drop_last(), reason);
        if files.last().reason == reason {
            lemma_insert_by_path(ignored::entries_for(files.drop_last(), reason), files.last());
        }
    }
}

/// The entries of an ignore directory are those of example output, then those of manual
/// commands, and then those without a source in the repo
pub proof fn law_entries_by_reason(files: Seq<EntryModel>)
    ensures
        ignored::loaded(files, ignored::reasons().len() as int) == ignored::entries_for(
            files,
            "example-output"@,
        ) + ignored::entries_for(files, "manual-command"@) + ignored::entries_for(
            files,
            "no-repo-source"@,
        ),
{
    let empty = Seq::<EntryModel>::empty();
    let first = ignored::entries_for(files, "example-output"@);
    assert(ignored::loaded(files, 0) == empty);
    assert(ignored::loaded(files, 1) =~= first);
    assert(ignored::loaded(files, 2) =~= first + ignored::entries_for(files, "manual-command"@));
    assert(ignored::loaded(files, 3) =~= first + ignored::entries_for(files, "manual-command"@)
        + ignored::entries_for(files, "no-repo-source"@));
}

// ---------------------------------------------------------------------------
// Space
// ---------------------------------------------------------------------------

/// Whether there is one space between words and no other whitespace
pub open spec fn is_evenly_spaced(s: Seq<char>) -> bool {
    &&& forall|i: int| 0 <= i < s.len() && text::is_white(#[trigger] s[i]) ==> s[i] == ' '
    &&& forall|i: int|
        0 < i < s.len() && text::is_white(#[trigger] s[i]) ==> !text::is_white(s[i - 1])
}

proof fn lemma_collapsed(s: Seq<char>)
    ensures
        is_evenly_spaced(docs::collapsed(s)),
        s.len() > 0 ==> docs::collapsed(s).len() > 0 && text::is_white(docs::collapsed(s).last())
            == text::is_white(s.last()),
        s.len() == 0 ==> docs::collapsed(s).len() == 0,
    decreases s.len(),
{
    if s.len() > 0 {
        let shorter = s.drop_last();
        lemma_collapsed(shorter);
        let before = docs::collapsed(shorter);
        let after = docs::collapsed(s);
        assert(text::is_white(' '));
        if s.len() >= 2 {
            assert(shorter.last() == s[s.len() - 2]);
        }
        assert forall|i: int| 0 <= i < after.len() && text::is_white(#[trigger] after[i]) implies
            after[i] == ' ' by {
            if i < before.len() {
                assert(after[i] == before[i]);
            }
        }
        assert forall|i: int| 0 < i < after.len() && text::is_white(#[trigger] after[i]) implies
            !text::is_white(after[i - 1]) by {
            assert(after[i - 1] == before[i - 1]);
            if i < before.len() {
                assert(after[i] == before[i]);
            } else {
                assert(before[i - 1] == before.last());
            }
        }
    }
}

/// The lead of a block has one space between its words, however they are spaced above the
/// block, and none around them
pub proof fn law_lead_is_evenly_spaced(above: Seq<Seq<char>>)
    ensures
        docs::lead_spec(above) matches Some(lead) ==> is_evenly_spaced(lead) && lead.len() > 0
            && !text::is_white(lead[0]) && !text::is_white(lead.last()),
{
    if let Some(lead) = docs::lead_spec(above) {
        let line = docs::nearest_line(above)->0;
        let bare = docs::without_title_dot(docs::without_list_marker(line));
        let even = docs::collapsed(bare);
        lemma_collapsed(bare);
        let n = text::span(even, CharClass::White) as int;
        text::lemma_span(even, CharClass::White);
        let rest = text::after_run(even, CharClass::White);
        text::lemma_end_span(rest, CharClass::White);
        assert(lead == text::trimmed(even));
        assert(lead.len() <= rest.len());
        assert forall|i: int| 0 <= i < lead.len() implies #[trigger] lead[i] == even[n + i] by {}
        assert(lead[0] == rest[0]);
        assert(lead.last() == rest[lead.len() - 1]);
        assert forall|i: int| 0 < i < lead.len() && text::is_white(#[trigger] lead[i]) implies
            !text::is_white(lead[i - 1]) by {
            assert(lead[i] == even[n + i]);
            assert(lead[i - 1] == even[n + i - 1]);
        }
    }
}

/// Collapsing the space of a text keeps its words
pub proof fn law_collapsed(word: Seq<char>, space: Seq<char>, rest: Seq<char>)
    requires
        forall|i: int| 0 <= i < word.len() ==> !text::is_white(#[trigger] word[i]),
        word.len() > 0,
        space.len() > 0,
        text::is_blank(space),
        rest.len() > 0,
        !text::is_white(rest[0]),
    ensures
        docs::collapsed(word) == word,
        docs::collapsed(word + space + rest) == word + seq![' '] + docs::collapsed(rest),
    decreases rest.len(),
{
    lemma_word(word);
    let all = word + space + rest;
    lemma_word_and_space(word, space);
    if rest.len() == 1 {
        assert(all.drop_last() =~= word + space);
        assert(all.last() == rest[0]);
        assert(rest.drop_last() =~= Seq::<char>::empty());
        assert(docs::collapsed(rest.drop_last()) =~= Seq::<char>::empty());
        assert(docs::collapsed(rest) =~= seq![rest[0]]);
        assert(docs::collapsed(all) =~= word + seq![' '] + docs::collapsed(rest));
    } else {
        let shorter = rest.drop_last();
        law_collapsed(word, space, shorter);
        assert(all.drop_last() =~= word + space + shorter);
        assert(all.last() == rest.last());
        assert(all[all.len() - 2] == rest[rest.len() - 2]);
        assert(docs::collapsed(all) =~= word + seq![' '] + docs::collapsed(rest));
    }
}

proof fn lemma_word(word: Seq<char>)
    requires
        forall|i: int| 0 <= i < word.len() ==> !text::is_white(#[trigger] word[i]),
    ensures
        docs::collapsed(word) == word,
    decreases word.len(),
{
    if word.len() > 0 {
        let shorter = word.drop_last();
        assert forall|i: int| 0 <= i < shorter.len() implies !text::is_white(
            #[trigger] shorter[i],
        ) by {
            assert(shorter[i] == word[i]);
        }
        lemma_word(shorter);
        assert(!text::is_white(word[word.len() - 1]));
        assert(shorter.push(word.last()) =~= word);
    } else {
        assert(docs::collapsed(word) =~= word);
    }
}

proof fn lemma_word_and_space(word: Seq<char>, space: Seq<char>)
    requires
        word.len() > 0,
        forall|i: int| 0 <= i < word.len() ==> !text::is_white(#[trigger] word[i]),
        space.len() > 0,
        text::is_blank(space),
    ensures
        docs::collapsed(word + space) == word.push(' '),
    decreases space.len(),
{
    let all = word + space;
    lemma_word(word);
    assert(text::is_white(space[space.len() - 1]));
    assert(all.last() == space[space.len() - 1]);
    if space.len() == 1 {
        assert(all.drop_last() =~= word);
        assert(all[all.len() - 2] == word[word.len() - 1]);
        assert(!text::is_white(word[word.len() - 1]));
    } else {
        let shorter = space.drop_last();
        assert forall|i: int| 0 <= i < shorter.len() implies text::is_white(
            #[trigger] shorter[i],
        ) by {
            assert(text::is_white(space[i]));
        }
        lemma_word_and_space(word, shorter);
        assert(all.drop_last() =~= word + shorter);
        assert(all[all.len() - 2] == space[space.len() - 2]);
        assert(text::is_white(space[space.len() - 2]));
    }
}

} // verus!
