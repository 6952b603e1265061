//! The ignore directory (`.asadoc-ignore/` by default): doc blocks that don't
//! come from the repo. One file per ignored block content, verbatim, in a
//! subdirectory named after the reason:
//!
//! ```text
//! .asadoc-ignore/
//!   example-output/nw-dpf-worker-machineconfig--terminal-005.txt
//!   manual-command/nw-dpf-management-cluster-setup--terminal-002.txt
//!   no-repo-source/…
//! ```
//!
//! File names are only names (taken from a block that had the content); a doc
//! block is ignored when its content is exactly a file's content.

use crate::numbers;
use crate::text;
use vstd::prelude::*;

verus! {

/// A file of the ignore directory
#[derive(Debug)]
pub struct IgnoredEntry {
    pub reason: String,
    /// Relative to the ignore directory
    pub path: String,
    pub content: String,
}

pub struct EntryModel {
    pub reason: Seq<char>,
    pub path: Seq<char>,
    pub content: Seq<char>,
}

impl View for IgnoredEntry {
    type V = EntryModel;

    open spec fn view(&self) -> EntryModel {
        EntryModel { reason: self.reason@, path: self.path@, content: self.content@ }
    }
}

impl Clone for IgnoredEntry {
    fn clone(&self) -> (copy: Self)
        ensures
            copy == *self,
    {
        IgnoredEntry {
            reason: self.reason.clone(),
            path: self.path.clone(),
            content: self.content.clone(),
        }
    }
}

pub open spec fn entry_models(entries: Seq<IgnoredEntry>) -> Seq<EntryModel> {
    Seq::new(entries.len(), |i: int| entries[i]@)
}

/// Why a doc block may not come from the repo
pub open spec fn reasons() -> Seq<Seq<char>> {
    seq!["example-output"@, "manual-command"@, "no-repo-source"@]
}

/// Why a doc block may not come from the repo
pub fn ignore_reasons() -> (list: Vec<String>)
    ensures
        text::views(list@) == reasons(),
{
    let mut list: Vec<String> = Vec::new();
    list.push("example-output".to_owned());
    list.push("manual-command".to_owned());
    list.push("no-repo-source".to_owned());
    assert(text::views(list@) =~= reasons());
    list
}

/// Whether `reason` is one a doc block may not come from the repo for
pub fn is_ignore_reason(reason: &str) -> (valid: bool)
    ensures
        valid == reasons().contains(reason@),
{
    text::list_contains(&ignore_reasons(), reason)
}

/// The blocks that don't come from the repo
#[derive(Debug)]
pub struct IgnoredBlocks {
    pub entries: Vec<IgnoredEntry>,
}

impl View for IgnoredBlocks {
    type V = Seq<EntryModel>;

    open spec fn view(&self) -> Seq<EntryModel> {
        entry_models(self.entries@)
    }
}

/// Entries in the order of their paths, with one more
pub open spec fn insert_by_path(entries: Seq<EntryModel>, added: EntryModel) -> Seq<EntryModel>
    decreases entries.len(),
{
    if entries.len() > 0 && text::before(added.path, entries.last().path) {
        insert_by_path(entries.drop_last(), added).push(entries.last())
    } else {
        entries.push(added)
    }
}

/// The entries for a reason, in the order of their paths
pub open spec fn entries_for(files: Seq<EntryModel>, reason: Seq<char>) -> Seq<EntryModel>
    decreases files.len(),
{
    if files.len() == 0 {
        Seq::empty()
    } else if files.last().reason == reason {
        insert_by_path(entries_for(files.drop_last(), reason), files.last())
    } else {
        entries_for(files.drop_last(), reason)
    }
}

/// The entries of an ignore directory: by reason, and then in the order of their paths
pub open spec fn loaded(files: Seq<EntryModel>, count: int) -> Seq<EntryModel>
    decreases count,
{
    if count <= 0 {
        Seq::empty()
    } else {
        loaded(files, count - 1) + entries_for(files, reasons()[count - 1])
    }
}

proof fn lemma_insert_by_path(entries: Seq<EntryModel>, added: EntryModel, p: int)
    requires
        0 <= p <= entries.len(),
        forall|i: int|
            p <= i < entries.len() ==> text::before(added.path, (#[trigger] entries[i]).path),
        p > 0 ==> !text::before(added.path, entries[p - 1].path),
    ensures
        insert_by_path(entries, added) == entries.insert(p, added),
    decreases entries.len(),
{
    if p < entries.len() {
        assert(entries.last() == entries[entries.len() - 1]);
        lemma_insert_by_path(entries.drop_last(), added, p);
        assert(entries.drop_last().insert(p, added).push(entries.last()) =~= entries.insert(
            p,
            added,
        ));
    } else {
        assert(entries.push(added) =~= entries.insert(p, added));
    }
}

/// The entries for `reason`, in file name order
pub fn load_reason(files: &Vec<IgnoredEntry>, reason: &str) -> (entries: Vec<IgnoredEntry>)
    ensures
        entry_models(entries@) == entries_for(entry_models(files@), reason@),
{
    let ghost all = entry_models(files@);
    let mut entries: Vec<IgnoredEntry> = Vec::new();
    let mut i: usize = 0;
    assert(entry_models(entries@) =~= entries_for(all.take(0), reason@));
    while i < files.len()
        invariant
            i <= files@.len(),
            all == entry_models(files@),
            entry_models(entries@) == entries_for(all.take(i as int), reason@),
        decreases files@.len() - i,
    {
        proof {
            assert(all.take(i + 1).drop_last() =~= all.take(i as int));
            assert(all.take(i + 1).last() == files@[i as int]@);
        }
        if text::same(files[i].reason.as_str(), reason) {
            let ghost done = entry_models(entries@);
            let mut p: usize = entries.len();
            while p > 0 && text::comes_before(files[i].path.as_str(), entries[p - 1].path.as_str())
                invariant
                    i < files@.len(),
                    p <= entries@.len(),
                    done == entry_models(entries@),
                    forall|k: int|
                        p <= k < done.len() ==> text::before(
                            files@[i as int].path@,
                            (#[trigger] done[k]).path,
                        ),
                decreases p,
            {
                p = p - 1;
            }
            let added = files[i].clone();
            proof {
                if p > 0 {
                    assert(done[p - 1] == entries@[p - 1]@);
                }
                lemma_insert_by_path(done, added@, p as int);
            }
            entries.insert(p, added);
            assert(entry_models(entries@) =~= done.insert(p as int, added@));
        }
        i = i + 1;
    }
    assert(all.take(i as int) =~= all);
    entries
}

/// Why some content is ignored: the reason of the first entry that holds it
pub open spec fn reason_spec(entries: Seq<EntryModel>, content: Seq<char>) -> Option<Seq<char>>
    decreases entries.len(),
{
    if entries.len() == 0 {
        None
    } else if entries[0].content == content {
        Some(entries[0].reason)
    } else {
        reason_spec(entries.drop_first(), content)
    }
}

/// The entries that don't hold some content
pub open spec fn without_content(entries: Seq<EntryModel>, content: Seq<char>) -> Seq<EntryModel>
    decreases entries.len(),
{
    if entries.len() == 0 {
        Seq::empty()
    } else if entries.last().content == content {
        without_content(entries.drop_last(), content)
    } else {
        without_content(entries.drop_last(), content).push(entries.last())
    }
}

/// The paths of the entries that hold some content
pub open spec fn paths_with(entries: Seq<EntryModel>, content: Seq<char>) -> Seq<Seq<char>>
    decreases entries.len(),
{
    if entries.len() == 0 {
        Seq::empty()
    } else if entries.last().content == content {
        paths_with(entries.drop_last(), content).push(entries.last().path)
    } else {
        paths_with(entries.drop_last(), content)
    }
}

/// What to change in the ignore directory: the files to remove, and then the one to
/// write
#[derive(Debug)]
pub struct IgnoreChange {
    pub removed: Vec<String>,
    pub written: String,
}

/// The `k`th path to try for a file with the name `stem` in the directory `reason`
pub open spec fn tried_path(reason: Seq<char>, stem: Seq<char>, k: nat) -> Seq<char> {
    if k <= 1 {
        reason + "/"@ + stem + ".txt"@
    } else {
        reason + "/"@ + stem + "-"@ + numbers::decimal_spec(k) + ".txt"@
    }
}

proof fn lemma_tried_distinct(reason: Seq<char>, stem: Seq<char>, first: nat, second: nat)
    requires
        1 <= first < second,
    ensures
        tried_path(reason, stem, first) != tried_path(reason, stem, second),
{
    reveal_strlit("-");
    reveal_strlit(".txt");
    let base = reason + "/"@ + stem;
    let at = (base.len() + 1) as int;
    let a = tried_path(reason, stem, first);
    let b = tried_path(reason, stem, second);
    let digits = numbers::decimal_spec(second);
    if a == b {
        if first == 1 {
            assert(a.len() == base.len() + 4);
            assert(b.len() == base.len() + 1 + digits.len() + 4);
        } else {
            let others = numbers::decimal_spec(first);
            assert(a.len() == base.len() + 1 + others.len() + 4);
            assert(b.len() == base.len() + 1 + digits.len() + 4);
            assert(a.subrange(at, at + others.len()) =~= others);
            assert(b.subrange(at, at + digits.len()) =~= digits);
            numbers::lemma_decimal_distinct(first, second);
        }
    }
}

proof fn lemma_tried_bound(reason: Seq<char>, stem: Seq<char>, taken: Seq<Seq<char>>, k: nat)
    requires
        forall|j: nat| 1 <= j <= k ==> taken.contains(#[trigger] tried_path(reason, stem, j)),
    ensures
        k <= taken.len(),
{
    let tried = Seq::new(k, |i: int| tried_path(reason, stem, (i + 1) as nat));
    assert forall|i: int, j: int|
        0 <= i < tried.len() && 0 <= j < tried.len() && i != j implies tried[i] != tried[j] by {
        if i < j {
            lemma_tried_distinct(reason, stem, (i + 1) as nat, (j + 1) as nat);
        } else {
            lemma_tried_distinct(reason, stem, (j + 1) as nat, (i + 1) as nat);
        }
    }
    assert(tried.no_duplicates());
    tried.unique_seq_to_set();
    taken.lemma_cardinality_of_set();
    assert forall|path: Seq<char>| tried.to_set().contains(path) implies taken.to_set().contains(
        path,
    ) by {
        let i = choose|i: int| 0 <= i < tried.len() && tried[i] == path;
        assert(taken.contains(tried_path(reason, stem, (i + 1) as nat)));
    }
    vstd::set_lib::lemma_len_subset(tried.to_set(), taken.to_set());
}

/// Whether `path` is the first of the paths tried that isn't taken
pub open spec fn is_first_unused(
    reason: Seq<char>,
    stem: Seq<char>,
    taken: Seq<Seq<char>>,
    path: Seq<char>,
) -> bool {
    exists|k: nat|
        1 <= k && path == #[trigger] tried_path(reason, stem, k) && !taken.contains(path) && (
        forall|j: nat| 1 <= j < k ==> taken.contains(#[trigger] tried_path(reason, stem, j)))
}

/// `{reason}/{file_stem}.txt`, or with `-2`, `-3`… before `.txt` when that's `taken`
pub fn unused_path(reason: &str, file_stem: &str, taken: &Vec<String>) -> (path: String)
    ensures
        is_first_unused(reason@, file_stem@, text::views(taken@), path@),
{
    let ghost paths = text::views(taken@);
    let base = text::surround(reason, "/", file_stem);
    let mut path = base.clone();
    path.append(".txt");
    let mut k: u128 = 1;
    loop
        invariant
            1 <= k,
            paths == text::views(taken@),
            base@ == reason@ + "/"@ + file_stem@,
            path@ == tried_path(reason@, file_stem@, k as nat),
            forall|j: nat|
                1 <= j < k ==> paths.contains(#[trigger] tried_path(reason@, file_stem@, j)),
        decreases paths.len() + 1 - k,
    {
        if !text::list_contains(taken, path.as_str()) {
            assert(is_first_unused(reason@, file_stem@, paths, path@));
            return path;
        }
        proof {
            assert forall|j: nat| 1 <= j <= k implies paths.contains(
                #[trigger] tried_path(reason@, file_stem@, j),
            ) by {}
            lemma_tried_bound(reason@, file_stem@, paths, k as nat);
            assert(taken.len() <= usize::MAX);
        }
        k = k + 1;
        let number = numbers::decimal_wide(k);
        path = text::surround(base.as_str(), "-", number.as_str());
        path.append(".txt");
    }
}

/// The paths that are still taken once some are removed
pub open spec fn still_taken(existing: Seq<Seq<char>>, removed: Seq<Seq<char>>) -> Seq<Seq<char>>
    decreases existing.len(),
{
    if existing.len() == 0 {
        Seq::empty()
    } else if removed.contains(existing.last()) {
        still_taken(existing.drop_last(), removed)
    } else {
        still_taken(existing.drop_last(), removed).push(existing.last())
    }
}

fn remaining_paths(existing: &Vec<String>, removed: &Vec<String>) -> (taken: Vec<String>)
    ensures
        text::views(taken@) == still_taken(text::views(existing@), text::views(removed@)),
{
    let ghost all = text::views(existing@);
    let ghost gone = text::views(removed@);
    let mut taken: Vec<String> = Vec::new();
    let mut i: usize = 0;
    assert(text::views(taken@) =~= still_taken(all.take(0), gone));
    while i < existing.len()
        invariant
            i <= existing@.len(),
            all == text::views(existing@),
            gone == text::views(removed@),
            text::views(taken@) == still_taken(all.take(i as int), gone),
        decreases existing@.len() - i,
    {
        proof {
            assert(all.take(i + 1).drop_last() =~= all.take(i as int));
            assert(all.take(i + 1).last() == existing@[i as int]@);
        }
        if !text::list_contains(removed, existing[i].as_str()) {
            let path = existing[i].clone();
            proof {
                text::lemma_views_push(taken@, path);
            }
            taken.push(path);
        }
        i = i + 1;
    }
    assert(all.take(i as int) =~= all);
    taken
}

/// The entries without some content, and without what it replaces
pub open spec fn cleared(
    entries: Seq<EntryModel>,
    content: Seq<char>,
    replacing: Option<Seq<char>>,
) -> Seq<EntryModel> {
    let first = without_content(entries, content);
    match replacing {
        Some(replaced) => without_content(first, replaced),
        None => first,
    }
}

/// The paths of the entries with some content, and then with what it replaces
pub open spec fn cleared_paths(
    entries: Seq<EntryModel>,
    content: Seq<char>,
    replacing: Option<Seq<char>>,
) -> Seq<Seq<char>> {
    match replacing {
        Some(replaced) => paths_with(entries, content) + paths_with(
            without_content(entries, content),
            replaced,
        ),
        None => paths_with(entries, content),
    }
}

impl IgnoredBlocks {
    /// The blocks that the files of an ignore directory hold: by reason, and then in
    /// file name order
    pub fn load(files: &Vec<IgnoredEntry>) -> (blocks: Self)
        ensures
            blocks@ == loaded(entry_models(files@), reasons().len() as int),
    {
        let known = ignore_reasons();
        let ghost all = entry_models(files@);
        let mut entries: Vec<IgnoredEntry> = Vec::new();
        let mut i: usize = 0;
        assert(entry_models(entries@) =~= loaded(all, 0));
        while i < known.len()
            invariant
                i <= known@.len(),
                all == entry_models(files@),
                text::views(known@) == reasons(),
                entry_models(entries@) == loaded(all, i as int),
            decreases known@.len() - i,
        {
            let mut more = load_reason(files, known[i].as_str());
            let ghost before = entries@;
            let ghost added = more@;
            assert(text::views(known@)[i as int] == known@[i as int]@);
            entries.append(&mut more);
            assert(entry_models(entries@) =~= entry_models(before) + entry_models(added));
            i = i + 1;
        }
        assert(known@.len() == text::views(known@).len());
        IgnoredBlocks { entries }
    }

    /// Why `content` is ignored
    pub fn reason_of(&self, content: &str) -> (reason: Option<&str>)
        ensures
            match reason {
                Some(reason) => reason_spec(self@, content@) == Some(reason@),
                None => reason_spec(self@, content@) is None,
            },
    {
        let ghost all = self@;
        let mut i: usize = 0;
        assert(all.skip(0) =~= all);
        while i < self.entries.len()
            invariant
                i <= self.entries@.len(),
                all == self@,
                reason_spec(all, content@) == reason_spec(all.skip(i as int), content@),
            decreases self.entries@.len() - i,
        {
            proof {
                assert(all.skip(i as int)[0] == self.entries@[i as int]@);
                assert(all.skip(i as int).drop_first() =~= all.skip(i + 1));
            }
            if text::same(self.entries[i].content.as_str(), content) {
                return Some(self.entries[i].reason.as_str());
            }
            i = i + 1;
        }
        None
    }

    /// Stops ignoring `content`: the files holding it, to remove
    pub fn unignore(&mut self, content: &str) -> (removed: Vec<String>)
        ensures
            final(self)@ == without_content(old(self)@, content@),
            text::views(removed@) == paths_with(old(self)@, content@),
    {
        let ghost all = self@;
        let mut kept: Vec<IgnoredEntry> = Vec::new();
        let mut removed: Vec<String> = Vec::new();
        let mut i: usize = 0;
        proof {
            assert(entry_models(kept@) =~= without_content(all.take(0), content@));
            assert(text::views(removed@) =~= paths_with(all.take(0), content@));
        }
        while i < self.entries.len()
            invariant
                i <= self.entries@.len(),
                *self == *old(self),
                all == self@,
                entry_models(kept@) == without_content(all.take(i as int), content@),
                text::views(removed@) == paths_with(all.take(i as int), content@),
            decreases self.entries@.len() - i,
        {
            proof {
                assert(all.take(i + 1).drop_last() =~= all.take(i as int));
                assert(all.take(i + 1).last() == self.entries@[i as int]@);
            }
            if text::same(self.entries[i].content.as_str(), content) {
                let path = self.entries[i].path.clone();
                proof {
                    text::lemma_views_push(removed@, path);
                }
                removed.push(path);
            } else {
                let ghost before = kept@;
                let entry = self.entries[i].clone();
                kept.push(entry);
                assert(entry_models(kept@) =~= entry_models(before).push(entry@));
            }
            i = i + 1;
        }
        assert(all.take(i as int) =~= all);
        self.entries = kept;
        removed
    }

    /// Ignores `content` for `reason`, in a file named after `block_ref`, replacing it
    /// (and `replacing_content`, if given) wherever else it's ignored. `existing` are
    /// the paths in the ignore directory that are taken.
    pub fn ignore(
        &mut self,
        content: &str,
        reason: &str,
        block_ref: &str,
        replacing_content: &Option<String>,
        existing: &Vec<String>,
    ) -> (change: IgnoreChange)
        ensures
            final(self)@ == cleared(
                old(self)@,
                content@,
                text::option_view(*replacing_content),
            ).push(
                EntryModel { reason: reason@, path: change.written@, content: content@ },
            ),
            text::views(change.removed@) == cleared_paths(
                old(self)@,
                content@,
                text::option_view(*replacing_content),
            ),
            is_first_unused(
                reason@,
                text::replaced(block_ref@, "/"@, "--"@),
                still_taken(text::views(existing@), text::views(change.removed@)),
                change.written@,
            ),
    {
        let mut removed = self.unignore(content);
        if let Some(replaced) = replacing_content {
            let ghost before = removed@;
            let mut more = self.unignore(replaced.as_str());
            let ghost added = more@;
            removed.append(&mut more);
            assert(text::views(removed@) =~= text::views(before) + text::views(added));
        }
        let ghost left = self@;
        let stem = text::replace(block_ref, "/", "--");
        let taken = remaining_paths(existing, &removed);
        let written = unused_path(reason, stem.as_str(), &taken);
        let entry = IgnoredEntry {
            reason: reason.to_owned(),
            path: written.clone(),
            content: content.to_owned(),
        };
        self.entries.push(entry);
        assert(self@ =~= left.push(entry@));
        IgnoreChange { removed, written }
    }
}

// ---------------------------------------------------------------------------
// Laws
// ---------------------------------------------------------------------------

proof fn lemma_reason_push(entries: Seq<EntryModel>, added: EntryModel, content: Seq<char>)
    ensures
        reason_spec(entries.push(added), content) == match reason_spec(entries, content) {
            Some(reason) => Some(reason),
            None => if added.content == content {
                Some(added.reason)
            } else {
                None
            },
        },
    decreases entries.len(),
{
    let all = entries.push(added);
    if entries.len() == 0 {
        assert(all[0] == added);
        assert(all.drop_first() =~= Seq::empty());
        assert(reason_spec(Seq::empty(), content) is None);
    } else {
        assert(all[0] == entries[0]);
        assert(all.drop_first() =~= entries.drop_first().push(added));
        lemma_reason_push(entries.drop_first(), added, content);
    }
}

/// Content that isn't ignored anymore has no reason, and other content keeps its own
pub proof fn law_unignore(entries: Seq<EntryModel>, content: Seq<char>, other: Seq<char>)
    ensures
        reason_spec(without_content(entries, content), content) is None,
        other != content ==> reason_spec(without_content(entries, content), other) == reason_spec(
            entries,
            other,
        ),
    decreases entries.len(),
{
    if entries.len() > 0 {
        let head = entries.drop_last();
        law_unignore(head, content, other);
        assert(entries =~= head.push(entries.last()));
        lemma_reason_push(head, entries.last(), other);
        lemma_reason_push(without_content(head, content), entries.last(), content);
        lemma_reason_push(without_content(head, content), entries.last(), other);
    }
}

/// Content that is ignored has the reason given, what it replaces isn't ignored
/// anymore, and other content keeps its reason
pub proof fn law_ignore(
    entries: Seq<EntryModel>,
    content: Seq<char>,
    reason: Seq<char>,
    path: Seq<char>,
    replacing: Option<Seq<char>>,
    other: Seq<char>,
)
    ensures
        ({
            let after = cleared(entries, content, replacing).push(
                EntryModel { reason, path, content },
            );
            &&& reason_spec(after, content) == Some(reason)
            &&& replacing matches Some(replaced) ==> replaced != content ==> reason_spec(
                after,
                replaced,
            ) is None
            &&& other != content && replacing != Some(other) ==> reason_spec(after, other)
                == reason_spec(entries, other)
        }),
{
    let entry = EntryModel { reason, path, content };
    let first = without_content(entries, content);
    law_unignore(entries, content, other);
    let left = cleared(entries, content, replacing);
    if let Some(replaced) = replacing {
        law_unignore(first, replaced, other);
        law_unignore(first, replaced, content);
        lemma_reason_push(left, entry, replaced);
    }
    lemma_reason_push(left, entry, content);
    lemma_reason_push(left, entry, other);
}

} // verus!
