//! What holds of names that are looked up: code, languages and placeholders.

use crate::apply;
use crate::docs;
use crate::options;
use crate::options::OptionModel;
use crate::repo::CodeModel;
use crate::report;
use crate::report_laws;
use crate::text;
use crate::text::CharClass;
use vstd::prelude::*;

verus! {

/// The code that an argument names is all of the marked code that it names, in order
pub proof fn law_named_code(marked: Seq<CodeModel>, arg: Seq<char>)
    ensures
        report::find_code_spec(marked, arg) == marked.filter(
            |code: CodeModel| report_laws::names_code(arg, code),
        ),
    decreases marked.len(),
{
    reveal(Seq::filter);
    if marked.len() > 0 {
        law_named_code(marked.drop_last(), arg);
        report_laws::lemma_named(marked.last(), arg);
    }
}

/// A block is checked against the code that an argument names when that is one piece of
/// code. It is wrong to name none or several
pub proof fn law_against(marked: Seq<CodeModel>, arg: Seq<char>)
    ensures
        ({
            let named = marked.filter(|code: CodeModel| report_laws::names_code(arg, code));
            match report::against_spec(marked, arg) {
                Ok(code) => named == seq![code],
                Err(_) => named.len() != 1,
            }
        }),
{
    law_named_code(marked, arg);
    let named = report::find_code_spec(marked, arg);
    if named.len() == 1 {
        assert(named =~= seq![named[0]]);
    }
}

/// A source block is in the language after `[source,` and any whitespace, where the
/// language is what the pattern finds
pub proof fn law_lang(
    space: Seq<char>,
    rest: Seq<char>,
    before: Seq<char>,
    lang: Seq<char>,
    after: Seq<char>,
)
    requires
        text::is_blank(space),
        rest.len() > 0,
        !text::is_white(rest[0]),
        docs::search_spec(docs::LANG_PATTERN@, rest) == Ok::<_, Seq<char>>(
            Some((before, lang, after)),
        ),
    ensures
        docs::lang_spec("[source,"@ + (space + rest)) == Ok::<_, Seq<char>>(Some(lang)),
{
    let line = "[source,"@ + (space + rest);
    assert(line.take("[source,"@.len() as int) =~= "[source,"@);
    assert(line.skip("[source,"@.len() as int) =~= space + rest);
    let s = space + rest;
    assert forall|i: int| 0 <= i < space.len() implies CharClass::White.has(s[i]) by {
        assert(text::is_white(space[i]));
    }
    text::lemma_span_is(s, CharClass::White, space.len() as int);
    assert(text::after_run(s, CharClass::White) =~= rest);
}

/// A line that doesn't start so starts no source block
pub proof fn law_no_lang(line: Seq<char>)
    requires
        !"[source,"@.is_prefix_of(line),
    ensures
        docs::lang_spec(line) == Ok::<_, Seq<char>>(None::<Seq<char>>),
{
}

proof fn lemma_names(list: Seq<OptionModel>, content: Seq<char>, at: int)
    requires
        0 <= at < list.len(),
        list[at].key == "param"@,
        !options::text_value_of(list[at]).contains('*'),
        apply::all_names(list, content) is Ok,
    ensures
        apply::all_names(list, content)->Ok_0.contains(options::text_value_of(list[at])),
    decreases list.len(),
{
    let head = list.drop_last();
    let name = options::text_value_of(list[at]);
    let before = apply::all_names(head, content)->Ok_0;
    let names = apply::all_names(list, content)->Ok_0;
    if at < head.len() {
        assert(head[at] == list[at]);
        lemma_names(head, content, at);
        let k = choose|k: int| 0 <= k < before.len() && before[k] == name;
        assert(names[k] == name);
    } else {
        assert(names[before.len() as int] == name);
    }
}

/// Each `param` without a star is a placeholder itself
pub proof fn law_plain_placeholder(list: Seq<OptionModel>, content: Seq<char>, at: int)
    requires
        0 <= at < list.len(),
        list[at].key == "param"@,
        !options::text_value_of(list[at]).contains('*'),
        apply::placeholders_spec(list, content) is Ok,
    ensures
        apply::placeholders_spec(list, content)->Ok_0.contains(options::text_value_of(list[at])),
        apply::placeholders_spec(list, content)->Ok_0.no_duplicates(),
{
    lemma_names(list, content, at);
    text::law_unique(apply::all_names(list, content)->Ok_0);
}

/// Other options declare no placeholders
pub proof fn law_no_placeholders(list: Seq<OptionModel>, content: Seq<char>)
    requires
        forall|i: int| 0 <= i < list.len() ==> (#[trigger] list[i]).key != "param"@,
    ensures
        apply::placeholders_spec(list, content) == Ok::<_, Seq<char>>(Seq::<Seq<char>>::empty()),
{
    lemma_no_names(list, content);
    assert(text::unique(Seq::<Seq<char>>::empty()) =~= Seq::<Seq<char>>::empty());
}

proof fn lemma_no_names(list: Seq<OptionModel>, content: Seq<char>)
    requires
        forall|i: int| 0 <= i < list.len() ==> (#[trigger] list[i]).key != "param"@,
    ensures
        apply::all_names(list, content) == Ok::<_, Seq<char>>(Seq::<Seq<char>>::empty()),
    decreases list.len(),
{
    if list.len() > 0 {
        let head = list.drop_last();
        assert forall|i: int| 0 <= i < head.len() implies (#[trigger] head[i]).key
            != "param"@ by {
            assert(head[i] == list[i]);
        }
        lemma_no_names(head, content);
        assert(list[list.len() - 1].key != "param"@);
    }
}

} // verus!
