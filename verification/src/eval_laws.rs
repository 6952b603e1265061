//! What an evaluation says of the blocks, the marked code and the ignore directory.

use crate::apply;
use crate::docs;
use crate::docs::BlockModel;
use crate::eval;
use crate::eval::AssemblyEvalModel;
use crate::eval::BlockEvalModel;
use crate::eval::MatchModel;
use crate::eval::SourceModel;
use crate::ignored;
use crate::ignored::EntryModel;
use crate::matching;
use crate::matching::MatcherModel;
use crate::numbers;
use crate::repo::CodeModel;
use crate::repo::RepoModel;
use vstd::prelude::*;

verus! {

// ---------------------------------------------------------------------------
// The ignore directory
// ---------------------------------------------------------------------------

/// Content is ignored for the reason of the first entry that holds exactly it, and not at
/// all when none does
pub proof fn law_first_entry_counts(entries: Seq<EntryModel>, content: Seq<char>)
    ensures
        match ignored::reason_spec(entries, content) {
            Some(reason) => exists|i: int|
                0 <= i < entries.len() && (#[trigger] entries[i]).content == content
                    && entries[i].reason == reason && forall|j: int|
                    0 <= j < i ==> (#[trigger] entries[j]).content != content,
            None => forall|i: int| 0 <= i < entries.len() ==> (#[trigger] entries[i]).content
                != content,
        },
    decreases entries.len(),
{
    if entries.len() > 0 && entries[0].content != content {
        let rest = entries.drop_first();
        law_first_entry_counts(rest, content);
        if ignored::reason_spec(rest, content) is Some {
            let i = choose|i: int|
                0 <= i < rest.len() && (#[trigger] rest[i]).content == content && Some(
                    rest[i].reason,
                ) == ignored::reason_spec(rest, content) && forall|j: int|
                    0 <= j < i ==> (#[trigger] rest[j]).content != content;
            assert(entries[i + 1] == rest[i]);
            assert forall|j: int| 0 <= j < i + 1 implies (#[trigger] entries[j]).content
                != content by {
                if j > 0 {
                    assert(rest[j - 1] == entries[j]);
                }
            }
        } else {
            assert forall|i: int| 0 <= i < entries.len() implies (#[trigger] entries[i]).content
                != content by {
                if i > 0 {
                    assert(rest[i - 1] == entries[i]);
                }
            }
        }
    } else if entries.len() > 0 {
        assert(entries[0].content == content);
    }
}

/// Ignoring content clears all entries with it and with what it replaces, and keeps the
/// others in order
pub proof fn law_cleared_entries(
    entries: Seq<EntryModel>,
    content: Seq<char>,
    replacing: Option<Seq<char>>,
)
    ensures
        ignored::cleared(entries, content, replacing) == entries.filter(
            |entry: EntryModel| entry.content != content && replacing != Some(entry.content),
        ),
    decreases entries.len(),
{
    reveal(Seq::filter);
    if entries.len() > 0 {
        let head = entries.drop_last();
        law_cleared_entries(head, content, replacing);
        let first = ignored::without_content(head, content);
        if entries.last().content != content {
            assert(first.push(entries.last()).drop_last() =~= first);
        }
    }
}

/// The paths of the entries with some content are those of all of them
proof fn lemma_paths(entries: Seq<EntryModel>, content: Seq<char>, path: Seq<char>)
    ensures
        ignored::paths_with(entries, content).contains(path) == (exists|i: int|
            0 <= i < entries.len() && (#[trigger] entries[i]).content == content
                && entries[i].path == path),
    decreases entries.len(),
{
    let all = ignored::paths_with(entries, content);
    if entries.len() > 0 {
        let rest = entries.drop_last();
        let head = ignored::paths_with(rest, content);
        lemma_paths(rest, content, path);
        assert(entries[entries.len() - 1] == entries.last());
        if all.contains(path) {
            let k = choose|k: int| 0 <= k < all.len() && all[k] == path;
            if k < head.len() {
                assert(head[k] == path);
                assert(head.contains(path));
                let i = choose|i: int|
                    0 <= i < rest.len() && (#[trigger] rest[i]).content == content
                        && rest[i].path == path;
                assert(entries[i] == rest[i]);
            }
        }
        if exists|i: int|
            0 <= i < entries.len() && (#[trigger] entries[i]).content == content
                && entries[i].path == path {
            let i = choose|i: int|
                0 <= i < entries.len() && (#[trigger] entries[i]).content == content
                    && entries[i].path == path;
            if i < rest.len() {
                assert(rest[i] == entries[i]);
                assert(head.contains(path));
                let k = choose|k: int| 0 <= k < head.len() && head[k] == path;
                assert(all[k] == path);
            } else {
                assert(all[all.len() - 1] == path);
            }
        }
    }
}

/// The files to remove for content that isn't ignored anymore are those that hold it
pub proof fn law_removed_files(entries: Seq<EntryModel>, content: Seq<char>, path: Seq<char>)
    ensures
        ignored::cleared_paths(entries, content, None).contains(path) == (exists|i: int|
            0 <= i < entries.len() && (#[trigger] entries[i]).content == content
                && entries[i].path == path),
{
    lemma_paths(entries, content, path);
}

/// The file for ignored content is in its reason's directory and named after the block; a
/// number tells it from others of that name
pub proof fn law_ignored_file_name(reason: Seq<char>, stem: Seq<char>, k: nat)
    requires
        k >= 1,
    ensures
        ignored::tried_path(reason, stem, k) == reason + seq!['/'] + stem + (if k == 1 {
            Seq::empty()
        } else {
            seq!['-'] + numbers::decimal_spec(k)
        }) + seq!['.', 't', 'x', 't'],
{
    reveal_strlit("/");
    reveal_strlit("-");
    reveal_strlit(".txt");
    assert("/"@ =~= seq!['/']);
    assert("-"@ =~= seq!['-']);
    assert(".txt"@ =~= seq!['.', 't', 'x', 't']);
    let base = reason + seq!['/'] + stem;
    if k == 1 {
        assert(base + Seq::<char>::empty() =~= base);
    } else {
        assert(base + seq!['-'] + numbers::decimal_spec(k) =~= base + (seq!['-']
            + numbers::decimal_spec(k)));
    }
}

proof fn lemma_inserted(entries: Seq<EntryModel>, added: EntryModel)
    ensures
        ignored::insert_by_path(entries, added).to_multiset() == entries.to_multiset().insert(
            added,
        ),
    decreases entries.len(),
{
    broadcast use vstd::seq_lib::group_to_multiset_ensures;

    if entries.len() > 0 && crate::text::before(added.path, entries.last().path) {
        lemma_inserted(entries.drop_last(), added);
        assert(entries =~= entries.drop_last().push(entries.last()));
        assert(ignored::insert_by_path(entries, added).to_multiset()
            =~= entries.to_multiset().insert(added));
    }
}

proof fn lemma_entries_for(files: Seq<EntryModel>, reason: Seq<char>, entry: EntryModel)
    ensures
        ignored::entries_for(files, reason).to_multiset().count(entry) == (if entry.reason
            == reason {
            files.to_multiset().count(entry)
        } else {
            0
        }),
    decreases files.len(),
{
    broadcast use {
        vstd::seq_lib::group_to_multiset_ensures,
        vstd::multiset::group_multiset_axioms,
    };

    if files.len() > 0 {
        let head = files.drop_last();
        lemma_entries_for(head, reason, entry);
        assert(files =~= head.push(files.last()));
        lemma_inserted(ignored::entries_for(head, reason), files.last());
    } else {
        assert(files =~= Seq::empty());
    }
}

/// The entries are the files of the three directories for the reasons there are, each as
/// often as it is there
pub proof fn law_loaded_entries(files: Seq<EntryModel>, entry: EntryModel)
    ensures
        ignored::loaded(files, ignored::reasons().len() as int).to_multiset().count(entry) == (if {
            ||| entry.reason == "example-output"@
            ||| entry.reason == "manual-command"@
            ||| entry.reason == "no-repo-source"@
        } {
            files.to_multiset().count(entry)
        } else {
            0
        }),
{
    reveal_strlit("example-output");
    reveal_strlit("manual-command");
    reveal_strlit("no-repo-source");
    assert("example-output"@[0] == 'e');
    assert("manual-command"@[0] == 'm');
    assert("no-repo-source"@[0] == 'n');
    let reasons = ignored::reasons();
    assert(reasons[0] == "example-output"@);
    assert(reasons[1] == "manual-command"@);
    assert(reasons[2] == "no-repo-source"@);
    reveal_with_fuel(ignored::loaded, 4);
    let a = ignored::entries_for(files, reasons[0]);
    let b = ignored::entries_for(files, reasons[1]);
    let c = ignored::entries_for(files, reasons[2]);
    lemma_entries_for(files, reasons[0], entry);
    lemma_entries_for(files, reasons[1], entry);
    lemma_entries_for(files, reasons[2], entry);
    let none = Seq::<EntryModel>::empty();
    vstd::seq_lib::lemma_multiset_commutative(none, a);
    vstd::seq_lib::lemma_multiset_commutative(none + a, b);
    vstd::seq_lib::lemma_multiset_commutative(none + a + b, c);
    broadcast use {
        vstd::seq_lib::group_to_multiset_ensures,
        vstd::multiset::group_multiset_axioms,
    };

    assert(none.to_multiset().count(entry) == 0);
}

// ---------------------------------------------------------------------------
// Blocks
// ---------------------------------------------------------------------------

/// Whether some code matches a block with these values: the block, with the code's doc
/// options applied, matches the code
pub open spec fn gives_values(
    content: Seq<char>,
    code: CodeModel,
    values: Seq<(Seq<char>, Seq<char>)>,
) -> bool {
    apply::apply_options_spec(content, code.doc_options) matches Ok(side)
        && matching::matches_spec(code.matcher, side) == Ok::<_, Seq<char>>(Some(values))
}

/// Whether matches are all the code that matches a block, in order and with its values
pub open spec fn are_all_matches(
    list: Seq<MatchModel>,
    content: Seq<char>,
    marked: Seq<CodeModel>,
) -> bool {
    &&& forall|k: int|
        0 <= k < list.len() ==> (#[trigger] list[k]).code < marked.len() && gives_values(
            content,
            marked[list[k].code as int],
            list[k].values,
        )
    &&& forall|j: int, k: int|
        0 <= j < k < list.len() ==> (#[trigger] list[j]).code < (#[trigger] list[k]).code
    &&& forall|i: int, values: Seq<(Seq<char>, Seq<char>)>|
        0 <= i < marked.len() && #[trigger] gives_values(content, marked[i], values) ==> exists|
            k: int,
        | 0 <= k < list.len() && (#[trigger] list[k]).code == i
}

proof fn lemma_matches(block: BlockModel, marked: Seq<CodeModel>)
    ensures
        eval::match_block_spec(block, marked) matches Ok(list) ==> are_all_matches(
            list,
            block.content,
            marked,
        ),
    decreases marked.len(),
{
    if marked.len() > 0 {
        let head = marked.drop_last();
        lemma_matches(block, head);
        if let Ok(list) = eval::match_block_spec(block, marked) {
            let before = eval::match_block_spec(block, head)->Ok_0;
            let last = marked.len() - 1;
            assert(marked[last] == marked.last());
            assert forall|k: int| 0 <= k < list.len() implies (#[trigger] list[k]).code
                < marked.len() && gives_values(
                block.content,
                marked[list[k].code as int],
                list[k].values,
            ) by {
                if k < before.len() {
                    assert(list[k] == before[k]);
                    assert(head[before[k].code as int] == marked[before[k].code as int]);
                }
            }
            assert forall|j: int, k: int| 0 <= j < k < list.len() implies (#[trigger] list[j]).code
                < (#[trigger] list[k]).code by {
                assert(list[j] == before[j]);
                if k < before.len() {
                    assert(list[k] == before[k]);
                }
            }
            assert forall|i: int, values: Seq<(Seq<char>, Seq<char>)>|
                0 <= i < marked.len() && #[trigger] gives_values(
                    block.content,
                    marked[i],
                    values,
                ) implies exists|k: int| 0 <= k < list.len() && (#[trigger] list[k]).code == i by {
                if i < head.len() {
                    assert(head[i] == marked[i]);
                    assert(gives_values(block.content, head[i], values));
                    let k = choose|k: int|
                        0 <= k < before.len() && (#[trigger] before[k]).code == i;
                    assert(list[k] == before[k]);
                } else {
                    assert(list[list.len() - 1].code == i);
                }
            }
        }
    }
}

/// Code without placeholders matches the doc that it is, letter for letter, and no other
pub proof fn law_code_without_placeholders(matcher: MatcherModel, doc: Seq<char>)
    requires
        matcher.whole is None,
    ensures
        matching::matches_spec(matcher, doc) == Ok::<_, Seq<char>>(
            if matcher.content == doc {
                Some(Seq::<(Seq<char>, Seq<char>)>::empty())
            } else {
                None
            },
        ),
{
}

/// Whether what was found for a block is right: all the code that matches it, and the reason
/// it's ignored for when none does
pub open spec fn is_right(
    found: BlockEvalModel,
    marked: Seq<CodeModel>,
    entries: Seq<EntryModel>,
) -> bool {
    &&& are_all_matches(found.matches, found.block.content, marked)
    &&& found.matches.len() > 0 ==> found.ignored_as is None
    &&& found.matches.len() == 0 ==> found.ignored_as == ignored::reason_spec(
        entries,
        found.block.content,
    )
    &&& found.candidates.len() == 0
    &&& found.formerly.len() == 0
}

/// Whether what was found is right, and there is one for each block, in order
pub open spec fn are_right(
    found: Seq<BlockEvalModel>,
    blocks: Seq<BlockModel>,
    marked: Seq<CodeModel>,
    entries: Seq<EntryModel>,
) -> bool {
    &&& found.len() == blocks.len()
    &&& forall|k: int|
        0 <= k < found.len() ==> (#[trigger] found[k]).block == blocks[k] && is_right(
            found[k],
            marked,
            entries,
        )
}

proof fn lemma_blocks(
    blocks: Seq<BlockModel>,
    marked: Seq<CodeModel>,
    entries: Seq<EntryModel>,
)
    ensures
        eval::evaluate_blocks_spec(blocks, marked, entries) matches Ok(found) ==> are_right(
            found,
            blocks,
            marked,
            entries,
        ),
    decreases blocks.len(),
{
    if blocks.len() > 0 {
        let head = blocks.drop_last();
        lemma_blocks(head, marked, entries);
        lemma_matches(blocks.last(), marked);
        if let Ok(found) = eval::evaluate_blocks_spec(blocks, marked, entries) {
            let before = eval::evaluate_blocks_spec(head, marked, entries)->Ok_0;
            assert forall|k: int| 0 <= k < found.len() implies (#[trigger] found[k]).block
                == blocks[k] && is_right(found[k], marked, entries) by {
                if k < before.len() {
                    assert(found[k] == before[k]);
                    assert(head[k] == blocks[k]);
                }
            }
        }
    }
}

/// The blocks of some modules, one after the other
pub open spec fn blocks_of_modules(modules: Seq<Seq<char>>, texts: Seq<Seq<char>>) -> Seq<
    BlockModel,
> {
    Seq::new(
        modules.len(),
        |m: int| docs::extract_spec(modules[m], texts[m])->Ok_0,
    ).flatten()
}

proof fn lemma_modules(
    modules: Seq<Seq<char>>,
    texts: Seq<Seq<char>>,
    marked: Seq<CodeModel>,
    entries: Seq<EntryModel>,
    count: int,
)
    requires
        0 <= count <= modules.len(),
        texts.len() == modules.len(),
    ensures
        eval::evaluate_modules_spec(modules, texts, marked, entries, count) matches Ok(found)
            ==> are_right(
            found,
            blocks_of_modules(modules.take(count), texts.take(count)),
            marked,
            entries,
        ) && forall|m: int|
            0 <= m < count ==> docs::extract_spec(#[trigger] modules[m], texts[m]) is Ok,
    decreases count,
{
    let lists = Seq::new(
        count as nat,
        |m: int| docs::extract_spec(modules.take(count)[m], texts.take(count)[m])->Ok_0,
    );
    if count > 0 {
        lemma_modules(modules, texts, marked, entries, count - 1);
        if let Ok(found) = eval::evaluate_modules_spec(modules, texts, marked, entries, count) {
            let before = eval::evaluate_modules_spec(
                modules,
                texts,
                marked,
                entries,
                count - 1,
            )->Ok_0;
            let blocks = docs::extract_spec(modules[count - 1], texts[count - 1])->Ok_0;
            lemma_blocks(blocks, marked, entries);
            let next = eval::evaluate_blocks_spec(blocks, marked, entries)->Ok_0;
            let head = Seq::new(
                (count - 1) as nat,
                |m: int|
                    docs::extract_spec(modules.take(count - 1)[m], texts.take(count - 1)[m])->Ok_0,
            );
            assert(lists.drop_last() =~= head);
            assert(lists.last() == blocks);
            lists.lemma_flatten_and_flatten_alt_are_equivalent();
            head.lemma_flatten_and_flatten_alt_are_equivalent();
            assert(lists.flatten() == head.flatten() + blocks);
            let all = blocks_of_modules(modules.take(count), texts.take(count));
            assert(all == lists.flatten()) by {
                assert(Seq::new(
                    modules.take(count).len(),
                    |m: int| docs::extract_spec(modules.take(count)[m], texts.take(count)[m])->Ok_0,
                ) =~= lists);
            }
            let first = blocks_of_modules(modules.take(count - 1), texts.take(count - 1));
            assert(first == head.flatten()) by {
                assert(Seq::new(
                    modules.take(count - 1).len(),
                    |m: int|
                        docs::extract_spec(
                            modules.take(count - 1)[m],
                            texts.take(count - 1)[m],
                        )->Ok_0,
                ) =~= head);
            }
            assert(found == before + next);
            assert forall|k: int| 0 <= k < found.len() implies (#[trigger] found[k]).block == all[k]
                && is_right(found[k], marked, entries) by {
                if k < before.len() {
                    assert(found[k] == before[k]);
                } else {
                    assert(found[k] == next[k - before.len()]);
                }
            }
        }
    } else {
        assert(lists =~= Seq::empty());
        assert(Seq::new(
            modules.take(count).len(),
            |m: int| docs::extract_spec(modules.take(count)[m], texts.take(count)[m])->Ok_0,
        ) =~= Seq::<Seq<BlockModel>>::empty());
        assert(Seq::<Seq<BlockModel>>::empty().flatten() =~= Seq::<BlockModel>::empty());
    }
}

/// Whether what was found for an assembly is right: for each block of each of its modules,
/// in order
pub open spec fn is_right_assembly(
    found: AssemblyEvalModel,
    source: SourceModel,
    marked: Seq<CodeModel>,
    entries: Seq<EntryModel>,
) -> bool {
    &&& found.assembly == source.assembly
    &&& are_right(
        found.blocks,
        blocks_of_modules(source.assembly.modules, source.module_texts),
        marked,
        entries,
    )
}

proof fn lemma_assemblies(
    sources: Seq<SourceModel>,
    marked: Seq<CodeModel>,
    entries: Seq<EntryModel>,
)
    requires
        forall|i: int|
            0 <= i < sources.len() ==> (#[trigger] sources[i]).module_texts.len()
                == sources[i].assembly.modules.len(),
    ensures
        eval::evaluate_assemblies_spec(sources, marked, entries) matches Ok(found) ==> found.len()
            == sources.len() && forall|i: int|
            0 <= i < sources.len() ==> is_right_assembly(
                #[trigger] found[i],
                sources[i],
                marked,
                entries,
            ),
    decreases sources.len(),
{
    if sources.len() > 0 {
        let head = sources.drop_last();
        let last = sources.last();
        assert forall|i: int| 0 <= i < head.len() implies (#[trigger] head[i]).module_texts.len()
            == head[i].assembly.modules.len() by {
            assert(head[i] == sources[i]);
        }
        assert(sources[sources.len() - 1] == last);
        lemma_assemblies(head, marked, entries);
        let modules = last.assembly.modules;
        lemma_modules(modules, last.module_texts, marked, entries, modules.len() as int);
        assert(modules.take(modules.len() as int) =~= modules);
        assert(last.module_texts.take(modules.len() as int) =~= last.module_texts);
        if let Ok(found) = eval::evaluate_assemblies_spec(sources, marked, entries) {
            let before = eval::evaluate_assemblies_spec(head, marked, entries)->Ok_0;
            assert forall|i: int| 0 <= i < sources.len() implies is_right_assembly(
                #[trigger] found[i],
                sources[i],
                marked,
                entries,
            ) by {
                if i < head.len() {
                    assert(found[i] == before[i]);
                    assert(head[i] == sources[i]);
                }
            }
        }
    }
}

/// Whether some block is matched by the code with an index
pub open spec fn has_block(blocks: Seq<BlockEvalModel>, code: int) -> bool {
    exists|b: int, m: int|
        #![trigger blocks[b].matches[m]]
        0 <= b < blocks.len() && 0 <= m < blocks[b].matches.len() && blocks[b].matches[m].code
            == code
}

proof fn lemma_has_block(blocks: Seq<BlockEvalModel>, code: int)
    ensures
        eval::is_used(blocks, code) == has_block(blocks, code),
{
    if eval::is_used(blocks, code) {
        let b = choose|b: int|
            0 <= b < blocks.len() && eval::is_matched((#[trigger] blocks[b]).matches, code);
        let m = choose|m: int|
            0 <= m < blocks[b].matches.len() && (#[trigger] blocks[b].matches[m]).code == code;
        assert(blocks[b].matches[m].code == code);
    }
    if has_block(blocks, code) {
        let (b, m) = choose|b: int, m: int|
            #![trigger blocks[b].matches[m]]
            0 <= b < blocks.len() && 0 <= m < blocks[b].matches.len()
                && blocks[b].matches[m].code == code;
        assert(eval::is_matched(blocks[b].matches, code));
    }
}

proof fn lemma_stale(blocks: Seq<BlockEvalModel>, entries: Seq<EntryModel>)
    ensures
        eval::stale_spec(blocks, entries) == entries.filter(
            |entry: EntryModel|
                forall|b: int|
                    0 <= b < blocks.len() && (#[trigger] blocks[b]).ignored_as is Some
                        ==> blocks[b].block.content != entry.content,
        ).map_values(|entry: EntryModel| (entry.reason, entry.content)),
    decreases entries.len(),
{
    reveal(Seq::filter);
    let keep = |entry: EntryModel|
        forall|b: int|
            0 <= b < blocks.len() && (#[trigger] blocks[b]).ignored_as is Some
                ==> blocks[b].block.content != entry.content;
    let pair = |entry: EntryModel| (entry.reason, entry.content);
    if entries.len() > 0 {
        let head = entries.drop_last();
        lemma_stale(blocks, head);
        assert(eval::stale_spec(blocks, entries) =~= entries.filter(keep).map_values(pair));
    } else {
        assert(eval::stale_spec(blocks, entries) =~= entries.filter(keep).map_values(pair));
    }
}

/// An evaluation covers every block of every module of every assembly, in order, and what it
/// says of each is right; the unused code is that which no block is matched by; and the
/// stale entries are those whose content no ignored block has
pub proof fn law_evaluation(
    scan: RepoModel,
    entries: Seq<EntryModel>,
    sources: Seq<SourceModel>,
)
    requires
        forall|i: int|
            0 <= i < sources.len() ==> (#[trigger] sources[i]).module_texts.len()
                == sources[i].assembly.modules.len(),
        scan.marked.len() <= usize::MAX,
    ensures
        eval::evaluate_spec(scan, entries, sources) matches Ok(evaluation) ==> {
            let blocks = eval::all_blocks(evaluation.assemblies);
            &&& evaluation.scan == scan
            &&& evaluation.assemblies.len() == sources.len()
            &&& forall|i: int|
                0 <= i < sources.len() ==> is_right_assembly(
                    #[trigger] evaluation.assemblies[i],
                    sources[i],
                    scan.marked,
                    entries,
                )
            &&& forall|code: usize|
                #![trigger evaluation.unused.contains(code)]
                evaluation.unused.contains(code) == (code < scan.marked.len() && !has_block(
                    blocks,
                    code as int,
                ))
            &&& evaluation.stale_ignored == entries.filter(
                |entry: EntryModel|
                    forall|b: int|
                        0 <= b < blocks.len() && (#[trigger] blocks[b]).ignored_as is Some
                            ==> blocks[b].block.content != entry.content,
            ).map_values(|entry: EntryModel| (entry.reason, entry.content))
        },
{
    lemma_assemblies(sources, scan.marked, entries);
    if let Ok(evaluation) = eval::evaluate_spec(scan, entries, sources) {
        let blocks = eval::all_blocks(evaluation.assemblies);
        eval::law_unused_code(blocks, scan.marked.len() as int);
        assert forall|code: usize|
            #![trigger evaluation.unused.contains(code)]
            evaluation.unused.contains(code) == (code < scan.marked.len() && !has_block(
                blocks,
                code as int,
            )) by {
            lemma_has_block(blocks, code as int);
        }
        lemma_stale(blocks, entries);
    }
}

/// The blocks of an evaluation are those of its assemblies, one after the other
pub proof fn law_all_blocks(assemblies: Seq<AssemblyEvalModel>)
    ensures
        eval::all_blocks(assemblies) == assemblies.map_values(
            |found: AssemblyEvalModel| found.blocks,
        ).flatten(),
    decreases assemblies.len(),
{
    let lists = assemblies.map_values(|found: AssemblyEvalModel| found.blocks);
    lists.lemma_flatten_and_flatten_alt_are_equivalent();
    if assemblies.len() > 0 {
        let head = assemblies.drop_last();
        law_all_blocks(head);
        let before = head.map_values(|found: AssemblyEvalModel| found.blocks);
        before.lemma_flatten_and_flatten_alt_are_equivalent();
        assert(lists.drop_last() =~= before);
    }
}

/// The paths that are still taken are all but those that are removed, in order
pub proof fn law_still_taken(existing: Seq<Seq<char>>, removed: Seq<Seq<char>>)
    ensures
        ignored::still_taken(existing, removed) == existing.filter(
            |path: Seq<char>| !removed.contains(path),
        ),
    decreases existing.len(),
{
    reveal(Seq::filter);
    if existing.len() > 0 {
        law_still_taken(existing.drop_last(), removed);
    }
}

} // verus!
