//! What the code blocks of a module are, and what is said of them.

use crate::docs;
use crate::docs::BlockModel;
use crate::lines;
use crate::numbers;
use crate::text;
use crate::text::CharClass;
use vstd::prelude::*;

verus! {

// ---------------------------------------------------------------------------
// Blocks
// ---------------------------------------------------------------------------

/// Whether a line delimits a block's content
pub open spec fn delimits(line: Seq<char>) -> bool {
    line.len() >= 4 && line[0] == '-' && line[1] == '-' && line[2] == '-' && line[3] == '-'
}

/// Where a block is: the line that starts it, the one that opens its content, and the one
/// that closes it or the end of the text
pub struct Spot {
    pub source: int,
    pub open: int,
    pub close: int,
}

/// Whether a content is lines, unchanged and each with its line end
pub open spec fn is_content(content: Seq<char>, part: Seq<Seq<char>>) -> bool {
    &&& content.len() > 0
    &&& content.last() == '\n'
    &&& if part.len() > 0 {
        lines::split(content.drop_last(), '\n') == part
    } else {
        content.len() == 1
    }
}

/// Whether a block stands there: between the first two delimiters after the line that
/// starts it, with all the lines between them
pub open spec fn stands_at(
    module: Seq<char>,
    list: Seq<Seq<char>>,
    langs: Seq<Option<Seq<char>>>,
    block: BlockModel,
    spot: Spot,
) -> bool {
    &&& 0 <= spot.source < spot.open < spot.close <= list.len()
    &&& langs[spot.source] == Some(block.lang)
    &&& delimits(list[spot.open])
    &&& spot.close < list.len() ==> delimits(list[spot.close])
    &&& forall|i: int| spot.source < i < spot.open ==> !delimits(#[trigger] list[i])
    &&& forall|i: int| spot.open < i < spot.close ==> !delimits(#[trigger] list[i])
    &&& block.module == module
    &&& block.line == spot.open + 2
    &&& is_content(block.content, list.subrange(spot.open + 1, spot.close))
    &&& block.lead == docs::lead_spec(list.take(spot.source))
}

/// Whether a line belongs to one of the blocks, after the line that starts it
pub open spec fn inside(spots: Seq<Spot>, i: int) -> bool {
    exists|k: int| 0 <= k < spots.len() && (#[trigger] spots[k]).source < i <= spots[k].close
}

/// The title of the last heading before line `i` that isn't inside a block
pub open spec fn heading_above(list: Seq<Seq<char>>, spots: Seq<Spot>, i: int) -> Option<Seq<char>>
    decreases i,
{
    if i <= 0 {
        None
    } else if !inside(spots, i - 1) && docs::heading_spec(list[i - 1]) is Some {
        docs::heading_spec(list[i - 1])
    } else {
        heading_above(list, spots, i - 1)
    }
}

/// Whether blocks are all there are in the lines before line `i`, in order
pub open spec fn are_blocks(
    module: Seq<char>,
    list: Seq<Seq<char>>,
    langs: Seq<Option<Seq<char>>>,
    blocks: Seq<BlockModel>,
    spots: Seq<Spot>,
    i: int,
) -> bool {
    &&& spots.len() == blocks.len()
    &&& forall|k: int|
        0 <= k < blocks.len() ==> stands_at(
            module,
            list,
            langs,
            #[trigger] blocks[k],
            spots[k],
        ) && blocks[k].section == heading_above(list, spots.take(k), spots[k].source + 1)
    &&& forall|k: int, m: int|
        0 <= k < m < spots.len() ==> (#[trigger] spots[k]).close < (#[trigger] spots[m]).source
    &&& forall|k: int| 0 <= k < spots.len() ==> (#[trigger] spots[k]).close < i
    &&& forall|j: int|
        0 <= j < i && j < list.len() && !inside(spots, j) && #[trigger] langs[j] is Some ==> (exists|
            k: int,
        |
            0 <= k < spots.len() && (#[trigger] spots[k]).source == j)
}

/// Whether blocks are all there are: those before line `end`, where the lines end or no
/// delimiter follows
pub open spec fn are_all_blocks(
    module: Seq<char>,
    list: Seq<Seq<char>>,
    langs: Seq<Option<Seq<char>>>,
    blocks: Seq<BlockModel>,
    spots: Seq<Spot>,
    end: int,
) -> bool {
    &&& 0 <= end <= list.len() + 1
    &&& are_blocks(module, list, langs, blocks, spots, end)
    &&& forall|j: int| end < j < list.len() ==> !delimits(#[trigger] list[j])
}

proof fn lemma_delimits(line: Seq<char>)
    ensures
        "----"@.is_prefix_of(line) == delimits(line),
{
    reveal_strlit("----");
    if "----"@.is_prefix_of(line) {
        assert(line.take(4)[0] == '-' && line.take(4)[1] == '-' && line.take(4)[2] == '-'
            && line.take(4)[3] == '-');
    }
    if delimits(line) {
        assert(line.take(4) =~= "----"@);
    }
}

proof fn lemma_first_delimiter(list: Seq<Seq<char>>, i: int)
    requires
        0 <= i <= list.len(),
    ensures
        match docs::delimiter_from(list, i) {
            Some(k) => i <= k < list.len() && delimits(list[k]) && (forall|j: int|
                i <= j < k ==> !delimits(#[trigger] list[j])),
            None => forall|j: int| i <= j < list.len() ==> !delimits(#[trigger] list[j]),
        },
{
    docs::lemma_delimiter_from(list, i);
    assert forall|j: int| 0 <= j < list.len() implies "----"@.is_prefix_of(#[trigger] list[j])
        == delimits(list[j]) by {
        lemma_delimits(list[j]);
    }
}

proof fn lemma_content(list: Seq<Seq<char>>, from: int, to: int)
    requires
        0 <= from <= to <= list.len(),
        forall|i: int| 0 <= i < list.len() ==> !(#[trigger] list[i]).contains('\n'),
    ensures
        is_content(
            lines::join(list.subrange(from, to), "\n"@) + "\n"@,
            list.subrange(from, to),
        ),
{
    let part = list.subrange(from, to);
    reveal_strlit("\n");
    assert("\n"@ =~= seq!['\n']);
    let joined = lines::join(part, seq!['\n']);
    assert((joined + seq!['\n']).drop_last() =~= joined);
    if part.len() > 0 {
        lines::lemma_split_join(part, '\n');
    }
}

/// Blocks found later don't change what is above those found before
proof fn lemma_heading_stays(
    list: Seq<Seq<char>>,
    spots: Seq<Spot>,
    more: Spot,
    i: int,
)
    requires
        i <= more.source + 1,
    ensures
        heading_above(list, spots.push(more), i) == heading_above(list, spots, i),
    decreases i,
{
    if i > 0 {
        let all = spots.push(more);
        assert(inside(all, i - 1) == inside(spots, i - 1)) by {
            if inside(spots, i - 1) {
                let k = choose|k: int|
                    0 <= k < spots.len() && (#[trigger] spots[k]).source < i - 1 <= spots[k].close;
                assert(all[k] == spots[k]);
            }
            if inside(all, i - 1) {
                let k = choose|k: int|
                    0 <= k < all.len() && (#[trigger] all[k]).source < i - 1 <= all[k].close;
                assert(k < spots.len());
                assert(all[k] == spots[k]);
            }
        }
        lemma_heading_stays(list, spots, more, i - 1);
    }
}

/// A block's own lines have no headings
proof fn lemma_heading_skips(list: Seq<Seq<char>>, spots: Seq<Spot>, last: Spot, i: int)
    requires
        spots.len() > 0,
        spots.last() == last,
        last.source + 1 <= i <= last.close + 1,
    ensures
        heading_above(list, spots, i) == heading_above(list, spots, last.source + 1),
    decreases i - last.source,
{
    if i > last.source + 1 {
        assert(spots[spots.len() - 1] == last);
        assert(inside(spots, i - 1));
        lemma_heading_skips(list, spots, last, i - 1);
    }
}

#[verifier::rlimit(40)]
proof fn lemma_blocks(
    module: Seq<char>,
    list: Seq<Seq<char>>,
    langs: Seq<Option<Seq<char>>>,
    i: int,
    section: Option<Seq<char>>,
    done: Seq<BlockModel>,
    spots: Seq<Spot>,
) -> (all: Seq<Spot>)
    requires
        langs.len() == list.len(),
        forall|k: int| 0 <= k < list.len() ==> !(#[trigger] list[k]).contains('\n'),
        0 <= i <= list.len() + 1,
        are_blocks(module, list, langs, done, spots, i),
        i <= list.len() ==> section == heading_above(list, spots, i),
    ensures
        ({
            let blocks = docs::blocks_from(module, list, langs, i, section, done);
            exists|end: int| #[trigger]
                are_all_blocks(module, list, langs, blocks, all, end)
        }),
    decreases list.len() + 1 - i,
{
    let blocks = docs::blocks_from(module, list, langs, i, section, done);
    if i >= list.len() {
        assert(are_all_blocks(module, list, langs, blocks, spots, i));
        spots
    } else {
        let under = match docs::heading_spec(list[i]) {
            Some(title) => Some(title),
            None => section,
        };
        assert(!inside(spots, i)) by {
            if inside(spots, i) {
                let k = choose|k: int|
                    0 <= k < spots.len() && (#[trigger] spots[k]).source < i <= spots[k].close;
                assert(spots[k].close < i);
            }
        }
        assert(under == heading_above(list, spots, i + 1));
        match langs[i] {
            None => {
                assert(are_blocks(module, list, langs, done, spots, i + 1));
                lemma_blocks(module, list, langs, i + 1, under, done, spots)
            },
            Some(lang) => {
                lemma_first_delimiter(list, i + 1);
                match docs::delimiter_from(list, i + 1) {
                    None => {
                        assert(are_all_blocks(module, list, langs, blocks, spots, i));
                        spots
                    },
                    Some(open) => {
                        lemma_first_delimiter(list, open + 1);
                        let close = match docs::delimiter_from(list, open + 1) {
                            Some(close) => close,
                            None => list.len() as int,
                        };
                        let block = docs::block_spec(
                            module,
                            lang,
                            list,
                            i,
                            open + 1,
                            close,
                            under,
                            done,
                        );
                        let spot = Spot { source: i, open, close };
                        let next = done.push(block);
                        let more = spots.push(spot);
                        lemma_content(list, open + 1, close);
                        assert(stands_at(module, list, langs, block, spot));
                        lemma_more_blocks(module, list, langs, done, spots, block, spot, i);
                        if close + 1 <= list.len() {
                            lemma_heading_stays(list, spots, spot, i + 1);
                            lemma_heading_skips(list, more, spot, close + 1);
                        }
                        lemma_blocks(module, list, langs, close + 1, under, next, more)
                    },
                }
            },
        }
    }
}

proof fn lemma_more_blocks(
    module: Seq<char>,
    list: Seq<Seq<char>>,
    langs: Seq<Option<Seq<char>>>,
    done: Seq<BlockModel>,
    spots: Seq<Spot>,
    block: BlockModel,
    spot: Spot,
    i: int,
)
    requires
        are_blocks(module, list, langs, done, spots, i),
        spot.source == i,
        stands_at(module, list, langs, block, spot),
        block.section == heading_above(list, spots, i + 1),
    ensures
        are_blocks(
            module,
            list,
            langs,
            done.push(block),
            spots.push(spot),
            spot.close + 1,
        ),
{
    let next = done.push(block);
    let more = spots.push(spot);
    assert forall|k: int| 0 <= k < next.len() implies stands_at(
        module,
        list,
        langs,
        #[trigger] next[k],
        more[k],
    ) && next[k].section == heading_above(list, more.take(k), more[k].source + 1) by {
        if k < done.len() {
            assert(next[k] == done[k]);
            assert(more[k] == spots[k]);
            assert(more.take(k) =~= spots.take(k));
        } else {
            assert(more.take(k) =~= spots);
        }
    }
    assert forall|k: int, m: int| 0 <= k < m < more.len() implies (#[trigger] more[k]).close < (
    #[trigger] more[m]).source by {
        assert(more[k] == spots[k]);
        if m < spots.len() {
            assert(more[m] == spots[m]);
        }
    }
    assert forall|k: int| 0 <= k < more.len() implies (#[trigger] more[k]).close < spot.close
        + 1 by {
        if k < spots.len() {
            assert(more[k] == spots[k]);
        }
    }
    assert forall|j: int|
        0 <= j < spot.close + 1 && j < list.len() && !inside(more, j)
            && #[trigger] langs[j] is Some implies exists|k: int|
        0 <= k < more.len() && (#[trigger] more[k]).source == j by {
        if j < i {
            assert(!inside(spots, j)) by {
                if inside(spots, j) {
                    let k = choose|k: int|
                        0 <= k < spots.len() && (#[trigger] spots[k]).source < j
                            <= spots[k].close;
                    assert(more[k] == spots[k]);
                }
            }
            let k = choose|k: int| 0 <= k < spots.len() && (#[trigger] spots[k]).source == j;
            assert(more[k] == spots[k]);
        } else {
            assert(more[spots.len() as int] == spot);
            assert(j == i);
        }
    }
}

/// Whether these are the languages of the blocks that lines start
pub open spec fn are_langs(list: Seq<Seq<char>>, langs: Seq<Option<Seq<char>>>) -> bool {
    &&& langs.len() == list.len()
    &&& forall|i: int|
        0 <= i < list.len() ==> docs::lang_spec(#[trigger] list[i]) == Ok::<_, Seq<char>>(langs[i])
}

/// Each block of a module is the lines between its delimiters, line by line and unchanged;
/// it is where it says, in the language its first line names and under the heading above
/// it; and every line that starts a block outside another one has its block, unless no
/// delimiter follows it
pub proof fn law_blocks_are_what_is_between_delimiters(module: Seq<char>, s: Seq<char>)
    requires
        docs::extract_spec(module, s) is Ok,
    ensures
        exists|langs: Seq<Option<Seq<char>>>, spots: Seq<Spot>, end: int|
            #![trigger are_all_blocks(
                module,
                lines::split(s, '\n'),
                langs,
                docs::extract_spec(module, s)->Ok_0,
                spots,
                end,
            )]
            are_langs(lines::split(s, '\n'), langs) && are_all_blocks(
                module,
                lines::split(s, '\n'),
                langs,
                docs::extract_spec(module, s)->Ok_0,
                spots,
                end,
            ),
{
    let list = lines::split(s, '\n');
    let langs = docs::langs_spec(list)->Ok_0;
    lines::lemma_split(s, '\n');
    lemma_langs(list);
    let none = Seq::<Spot>::empty();
    assert(are_blocks(module, list, langs, Seq::empty(), none, 0));
    let spots = lemma_blocks(module, list, langs, 0, None, Seq::empty(), none);
    let blocks = docs::blocks_from(module, list, langs, 0, None, Seq::empty());
    let end = choose|end: int| #[trigger]
        are_all_blocks(module, list, langs, blocks, spots, end);
    assert(are_all_blocks(
        module,
        list,
        langs,
        docs::extract_spec(module, s)->Ok_0,
        spots,
        end,
    ));
}

proof fn lemma_langs(list: Seq<Seq<char>>)
    ensures
        docs::langs_spec(list) matches Ok(langs) ==> are_langs(list, langs),
    decreases list.len(),
{
    if list.len() > 0 {
        let head = list.drop_last();
        lemma_langs(head);
        if let Ok(langs) = docs::langs_spec(list) {
            assert forall|i: int| 0 <= i < list.len() implies docs::lang_spec(#[trigger] list[i])
                == Ok::<_, Seq<char>>(langs[i]) by {
                if i < head.len() {
                    assert(head[i] == list[i]);
                }
            }
        }
    }
}

/// Whether no block from the `j`th up to the `k`th is in the language
pub open spec fn none_between(blocks: Seq<BlockModel>, lang: Seq<char>, j: int, k: int) -> bool {
    forall|m: int| j <= m < k ==> (#[trigger] blocks[m]).lang != lang
}

proof fn lemma_none_counted(blocks: Seq<BlockModel>, lang: Seq<char>, j: int)
    requires
        0 <= j <= blocks.len(),
        none_between(blocks, lang, j, blocks.len() as int),
    ensures
        docs::blocks_in(blocks, lang) == docs::blocks_in(blocks.take(j), lang),
    decreases blocks.len(),
{
    if j == blocks.len() {
        assert(blocks.take(j) =~= blocks);
    } else {
        let head = blocks.drop_last();
        assert(blocks[blocks.len() - 1] == blocks.last());
        assert forall|m: int| j <= m < head.len() implies (#[trigger] head[m]).lang != lang by {
            assert(head[m] == blocks[m]);
        }
        lemma_none_counted(head, lang, j);
        assert(head.take(j) =~= blocks.take(j));
    }
}

/// The first block in a language is its number 1, and each further one has the number after
/// that of the one before it
pub proof fn law_blocks_are_counted(module: Seq<char>, s: Seq<char>, j: int, k: int)
    requires
        docs::extract_spec(module, s) matches Ok(blocks) && -1 <= j < k < blocks.len()
            && none_between(blocks, blocks[k].lang, j + 1, k) && (j >= 0 ==> blocks[j].lang
            == blocks[k].lang),
    ensures
        ({
            let blocks = docs::extract_spec(module, s)->Ok_0;
            blocks[k].seq == (if j < 0 {
                1
            } else {
                blocks[j].seq + 1
            })
        }),
{
    let blocks = docs::extract_spec(module, s)->Ok_0;
    let lang = blocks[k].lang;
    docs::law_blocks_are_numbered(module, s);
    let before = blocks.take(k);
    assert forall|m: int| j + 1 <= m < before.len() implies (#[trigger] before[m]).lang != lang by {
        assert(before[m] == blocks[m]);
    }
    lemma_none_counted(before, lang, j + 1);
    assert(before.take(j + 1) =~= blocks.take(j + 1));
    if j >= 0 {
        let upto = blocks.take(j + 1);
        assert(upto.drop_last() =~= blocks.take(j));
        assert(upto.last() == blocks[j]);
    } else {
        assert(blocks.take(0) =~= Seq::empty());
    }
}

/// Only lines that start with `[source,` start a block, whatever a search finds in others
pub proof fn law_blocks_start_with_source(line: Seq<char>)
    requires
        line.len() < 8 || line.take(8) != "[source,"@,
    ensures
        docs::lang_spec(line) == Ok::<_, Seq<char>>(None::<Seq<char>>),
{
    reveal_strlit("[source,");
    if "[source,"@.is_prefix_of(line) {
        assert(line.take(8) =~= "[source,"@);
    }
}

/// A block's reference names its module, its language and its position, which has at least
/// three digits
pub proof fn law_reference(module: Seq<char>, lang: Seq<char>, seq: nat)
    ensures
        ({
            let digits = numbers::decimal_spec(seq);
            docs::reference_spec(module, lang, seq) == module + seq!['/'] + lang + seq!['-']
                + Seq::new(
                (if digits.len() < 3 {
                    3 - digits.len()
                } else {
                    0
                }) as nat,
                |i: int| '0',
            ) + digits
        }),
{
    reveal_strlit("/");
    reveal_strlit("-");
    assert("/"@ =~= seq!['/']);
    assert("-"@ =~= seq!['-']);
    let digits = numbers::decimal_spec(seq);
    let zeros = Seq::new(
        (if digits.len() < 3 {
            3 - digits.len()
        } else {
            0
        }) as nat,
        |i: int| '0',
    );
    assert(numbers::padded_spec(seq, 3) =~= zeros + digits);
    assert(docs::reference_spec(module, lang, seq) =~= module + seq!['/'] + lang + seq!['-'] + zeros
        + digits);
}

// ---------------------------------------------------------------------------
// Headings and leads
// ---------------------------------------------------------------------------

/// Whether a text neither starts nor ends with whitespace
pub open spec fn is_trim(s: Seq<char>) -> bool {
    s.len() > 0 ==> !text::is_white(s[0]) && !text::is_white(s.last())
}

/// Whether a text is only whitespace
pub open spec fn is_space(s: Seq<char>) -> bool {
    forall|i: int| 0 <= i < s.len() ==> text::is_white(#[trigger] s[i])
}

pub proof fn lemma_trimmed(before: Seq<char>, s: Seq<char>, after: Seq<char>)
    requires
        is_space(before),
        is_space(after),
        is_trim(s),
    ensures
        text::trimmed(before + s + after) == s,
{
    let all = before + s + after;
    if s.len() > 0 {
        let n = before.len() as int;
        assert forall|i: int| 0 <= i < n implies CharClass::White.has(all[i]) by {
            assert(text::is_white(before[i]));
        }
        assert(all[n] == s[0]);
        text::lemma_span_is(all, CharClass::White, n);
        let rest = all.skip(n);
        assert(rest =~= s + after);
        assert forall|i: int| rest.len() - after.len() <= i < rest.len() implies CharClass::White.has(
            #[trigger] rest[i],
        ) by {
            assert(text::is_white(after[i - s.len()]));
        }
        assert(rest[rest.len() - 1 - after.len()] == s.last());
        text::lemma_end_span_is(rest, CharClass::White, after.len() as int);
        assert(text::trimmed(all) =~= s);
    } else {
        assert forall|i: int| 0 <= i < all.len() implies CharClass::White.has(all[i]) by {
            if i < before.len() {
                assert(text::is_white(before[i]));
            } else {
                assert(text::is_white(after[i - before.len()]));
            }
        }
        text::lemma_span_is(all, CharClass::White, all.len() as int);
        assert(all.skip(all.len() as int) =~= Seq::empty());
        text::lemma_end_span(Seq::empty(), CharClass::White);
        assert(text::trimmed(all) =~= s);
    }
}

/// A heading is any number of `=`, whitespace and a title, which may have whitespace after
/// it
pub proof fn law_heading(level: nat, before: Seq<char>, title: Seq<char>, after: Seq<char>)
    requires
        level > 0,
        before.len() > 0,
        is_space(before),
        is_space(after),
        title.len() > 0,
        is_trim(title),
    ensures
        docs::heading_spec(Seq::new(level, |i: int| '=') + before + title + after) == Some(title),
{
    let line = Seq::new(level, |i: int| '=') + before + title + after;
    assert(text::is_white(before[0]));
    assert(line[level as int] == before[0]);
    text::lemma_span_is(line, CharClass::Equals, level as int);
    assert(line.skip(level as int) =~= before + title + after);
    lemma_trimmed(before, title, after);
}

/// A line that doesn't start with `=`s before whitespace is no heading
pub proof fn law_no_heading(line: Seq<char>, level: nat)
    requires
        level <= line.len(),
        forall|i: int| 0 <= i < level ==> #[trigger] line[i] == '=',
        level < line.len() ==> line[level as int] != '=',
        level == 0 || level == line.len() || !text::is_white(line[level as int]),
    ensures
        docs::heading_spec(line) is None,
{
    text::lemma_span_is(line, CharClass::Equals, level as int);
    if level < line.len() {
        assert(line.skip(level as int)[0] == line[level as int]);
    }
}

/// Whether a line, trimmed, says nothing of a block below it: it is empty or `+`, or starts
/// like an attribute list, a comment or a condition
pub open spec fn is_passed_over(line: Seq<char>) -> bool {
    ||| line.len() == 0
    ||| line == seq!['+']
    ||| line[0] == '['
    ||| line.len() >= 2 && line[0] == '/' && line[1] == '/'
    ||| line.len() >= 7 && line.take(7) == "ifdef::"@
    ||| line.len() >= 8 && line.take(8) == "ifndef::"@
    ||| line.len() >= 7 && line.take(7) == "endif::"@
}

proof fn lemma_passed_over(line: Seq<char>)
    ensures
        docs::is_filler_spec(line) == is_passed_over(line),
{
    reveal_strlit("+");
    reveal_strlit("[");
    reveal_strlit("//");
    reveal_strlit("ifdef::");
    reveal_strlit("ifndef::");
    reveal_strlit("endif::");
    assert("+"@ =~= seq!['+']);
    if "["@.is_prefix_of(line) {
        assert(line.take(1)[0] == '[');
    }
    if line.len() > 0 && line[0] == '[' {
        assert(line.take(1) =~= "["@);
    }
    if "//"@.is_prefix_of(line) {
        assert(line.take(2)[0] == '/' && line.take(2)[1] == '/');
    }
    if line.len() >= 2 && line[0] == '/' && line[1] == '/' {
        assert(line.take(2) =~= "//"@);
    }
    if "ifdef::"@.is_prefix_of(line) {
        assert(line.take(7) =~= "ifdef::"@);
    }
    if "ifndef::"@.is_prefix_of(line) {
        assert(line.take(8) =~= "ifndef::"@);
    }
    if "endif::"@.is_prefix_of(line) {
        assert(line.take(7) =~= "endif::"@);
    }
}

/// Lines that say nothing of the block below them change nothing about its lead
pub proof fn law_lead_passes_over(above: Seq<Seq<char>>, before: Seq<char>, line: Seq<char>, after: Seq<char>)
    requires
        is_space(before),
        is_space(after),
        is_trim(line),
        is_passed_over(line),
    ensures
        docs::lead_spec(above.push(before + line + after)) == docs::lead_spec(above),
{
    lemma_trimmed(before, line, after);
    lemma_passed_over(line);
    assert(above.push(before + line + after).drop_last() =~= above);
}

/// Whether a text has no two whitespace characters in a row, and no other than spaces
pub open spec fn is_single_spaced(s: Seq<char>) -> bool {
    &&& forall|i: int| 0 <= i < s.len() && text::is_white(#[trigger] s[i]) ==> s[i] == ' '
    &&& forall|i: int|
        0 < i < s.len() && text::is_white(#[trigger] s[i]) ==> !text::is_white(s[i - 1])
}

proof fn lemma_collapsed(s: Seq<char>)
    requires
        is_single_spaced(s),
    ensures
        docs::collapsed(s) == s,
    decreases s.len(),
{
    if s.len() > 0 {
        let head = s.drop_last();
        assert(is_single_spaced(head)) by {
            assert forall|i: int| 0 <= i < head.len() && text::is_white(#[trigger] head[i]) implies
                head[i] == ' ' by {
                assert(head[i] == s[i]);
            }
            assert forall|i: int|
                0 < i < head.len() && text::is_white(#[trigger] head[i]) implies !text::is_white(
                head[i - 1],
            ) by {
                assert(head[i] == s[i]);
            }
        }
        lemma_collapsed(head);
        assert(s.last() == s[s.len() - 1]);
        assert(head.push(s.last()) =~= s);
    } else {
        assert(docs::collapsed(s) =~= s);
    }
}

/// Whether a text is the marker of a list item: `n` times the same `.` or `*`, and then
/// whitespace
pub open spec fn is_list_marker(marker: Seq<char>, n: int) -> bool {
    &&& 0 < n < marker.len()
    &&& marker[0] == '*' || (marker[0] == '.' && n < 4)
    &&& forall|i: int| 0 <= i < n ==> #[trigger] marker[i] == marker[0]
    &&& forall|i: int| n <= i < marker.len() ==> text::is_white(#[trigger] marker[i])
}

/// Whether a text can be a lead as it is
pub open spec fn is_plain_lead(lead: Seq<char>) -> bool {
    &&& lead.len() > 0
    &&& is_trim(lead)
    &&& is_single_spaced(lead)
    &&& lead[0] != '.' && lead[0] != '*' && lead[0] != '=' && lead[0] != '-'
    &&& !is_passed_over(lead)
}

/// A line that leaves a lead without its marker
spec fn leaves(line: Seq<char>, lead: Seq<char>) -> bool {
    &&& is_trim(line)
    &&& line.len() > 0
    &&& !docs::is_filler_spec(line)
    &&& !"----"@.is_prefix_of(line)
    &&& !"...."@.is_prefix_of(line)
    &&& docs::heading_spec(line) is None
    &&& docs::without_title_dot(docs::without_list_marker(line)) == lead
}

proof fn lemma_plain(lead: Seq<char>)
    requires
        is_plain_lead(lead),
    ensures
        leaves(lead, lead),
{
    reveal_strlit("----");
    reveal_strlit("....");
    lemma_passed_over(lead);
    text::lemma_span_is(lead, CharClass::Dot, 0);
    text::lemma_span_is(lead, CharClass::Star, 0);
    text::lemma_span_is(lead, CharClass::Equals, 0);
    if "----"@.is_prefix_of(lead) {
        assert(lead.take(4)[0] == '-');
    }
    if "...."@.is_prefix_of(lead) {
        assert(lead.take(4)[0] == '.');
    }
}

proof fn lemma_title(lead: Seq<char>)
    requires
        is_plain_lead(lead),
    ensures
        leaves(seq!['.'] + lead, lead),
{
    let line = seq!['.'] + lead;
    reveal_strlit("----");
    reveal_strlit("....");
    assert(line[0] == '.' && line[1] == lead[0]);
    assert(line.last() == lead.last());
    lemma_dotted(line);
    text::lemma_span_is(line, CharClass::Dot, 1);
    text::lemma_span_is(line, CharClass::Star, 0);
    text::lemma_span_is(line, CharClass::Equals, 0);
    assert(line.skip(1) =~= lead);
    if "----"@.is_prefix_of(line) {
        assert(line.take(4)[0] == '-');
    }
    if "...."@.is_prefix_of(line) {
        assert(line.take(4)[1] == '.');
    }
}

proof fn lemma_item(marker: Seq<char>, n: int, lead: Seq<char>)
    requires
        is_plain_lead(lead),
        is_list_marker(marker, n),
    ensures
        leaves(marker + lead, lead),
{
    let line = marker + lead;
    let c = marker[0];
    let space = marker.skip(n);
    reveal_strlit("----");
    reveal_strlit("....");
    assert(line[0] == c);
    assert(line.last() == lead.last());
    assert(text::is_white(marker[n]));
    assert(line[n] == marker[n]);
    assert forall|i: int| 0 <= i < n implies line[i] == c by {
        assert(marker[i] == c);
    }
    lemma_dotted(line);
    let rest = line.skip(n);
    if "----"@.is_prefix_of(line) {
        assert(line.take(4)[0] == '-');
    }
    if "...."@.is_prefix_of(line) {
        assert(line.take(4)[0] == '.');
        assert(line.take(4)[n] == '.');
    }
    text::lemma_span_is(line, CharClass::Equals, 0);
    if c == '.' {
        text::lemma_span_is(line, CharClass::Dot, n);
    } else {
        text::lemma_span_is(line, CharClass::Dot, 0);
        text::lemma_span_is(line, CharClass::Star, n);
    }
    assert(rest[0] == line[n]);
    assert forall|i: int| 0 <= i < space.len() implies CharClass::White.has(rest[i]) by {
        assert(text::is_white(marker[n + i]));
    }
    assert(rest[space.len() as int] == lead[0]);
    text::lemma_span_is(rest, CharClass::White, space.len() as int);
    assert(rest.skip(space.len() as int) =~= lead);
}

/// The lead of a block is the text of the line above it, without the marker of a list item
/// (`.`s or `*`s and whitespace) or the dot of a title
pub proof fn law_lead(
    above: Seq<Seq<char>>,
    before: Seq<char>,
    marker: Seq<char>,
    n: int,
    lead: Seq<char>,
    after: Seq<char>,
)
    requires
        is_space(before),
        is_space(after),
        is_plain_lead(lead),
        marker.len() == 0 || marker == seq!['.'] || is_list_marker(marker, n),
    ensures
        docs::lead_spec(above.push(before + (marker + lead) + after)) == Some(lead),
{
    let line = marker + lead;
    if marker.len() == 0 {
        assert(line =~= lead);
        lemma_plain(lead);
    } else if marker == seq!['.'] {
        lemma_title(lead);
    } else {
        lemma_item(marker, n, lead);
    }
    lemma_collapsed(lead);
    let none = Seq::<char>::empty();
    lemma_trimmed(none, lead, none);
    assert(none + lead + none =~= lead);
    lemma_trimmed(before, line, after);
    assert(above.push(before + line + after).drop_last() =~= above);
}

proof fn lemma_dotted(line: Seq<char>)
    requires
        line.len() >= 2,
        line[0] == '.' || line[0] == '*',
    ensures
        !docs::is_filler_spec(line),
{
    lemma_passed_over(line);
    reveal_strlit("ifdef::");
    reveal_strlit("ifndef::");
    reveal_strlit("endif::");
    if line.len() >= 7 {
        assert(line.take(7)[0] == line[0]);
    }
    if line.len() >= 8 {
        assert(line.take(8)[0] == line[0]);
    }
}

} // verus!
