//! What holds of plans in words.

use crate::lightbulb;
use crate::lightbulb::FixModel;
use crate::lightbulb::PlanModel;
use crate::numbers;
use crate::options;
use crate::options::OptionModel;
use vstd::prelude::*;

verus! {

/// The steps of a plan are those of its fixes, in order, and then one for each doc
/// option. Each fix is told as it is made where the fixes before it lead
pub proof fn law_plan_words(
    before: Seq<FixModel>,
    fix: FixModel,
    options: Seq<OptionModel>,
    file: Seq<char>,
    section: Option<Seq<char>>,
)
    ensures
        ({
            let plan = PlanModel { fixes: before.push(fix), doc_options: options };
            let words = lightbulb::plan_words(plan, file, section);
            let first = lightbulb::all_fix_words(before, file, section);
            let own = lightbulb::fix_words(
                fix,
                file,
                lightbulb::section_before(before, section),
            );
            &&& words.len() == first.len() + own.len() + options.len()
            &&& words.take((first.len() + own.len()) as int) == first + own
            &&& forall|i: int|
                0 <= i < options.len() ==> words[first.len() + own.len() + i] == "add `| "@
                    + options::option_text(#[trigger] options[i]) + "` to the marker"@
        }),
        lightbulb::all_fix_words(Seq::empty(), file, section).len() == 0,
        lightbulb::section_before(Seq::empty(), section) == section,
{
    let plan = PlanModel { fixes: before.push(fix), doc_options: options };
    let words = lightbulb::plan_words(plan, file, section);
    assert(before.push(fix).drop_last() =~= before);
    let first = lightbulb::all_fix_words(before, file, section);
    let own = lightbulb::fix_words(fix, file, lightbulb::section_before(before, section));
    assert(words.take((first.len() + own.len()) as int) =~= first + own);
}

/// Fixes lead to the section that the last of them to mark one marks
pub proof fn law_section_of_fixes(
    before: Seq<FixModel>,
    fix: FixModel,
    section: Option<Seq<char>>,
)
    ensures
        lightbulb::section_before(before.push(fix), section) == match fix {
            FixModel::MarkSection { name, .. } => Some(name),
            _ => lightbulb::section_before(before, section),
        },
{
    assert(before.push(fix).drop_last() =~= before);
}

/// Marking lines is told by the numbers of the first and the last of them, with one step
/// more for each option
pub proof fn law_mark_section_words(
    name: Seq<char>,
    first_line: nat,
    line_count: nat,
    options: Seq<OptionModel>,
    file: Seq<char>,
    section: Option<Seq<char>>,
)
    requires
        line_count > 0,
    ensures
        ({
            let words = lightbulb::fix_words(
                FixModel::MarkSection { name, first_line, line_count, options },
                file,
                section,
            );
            &&& words.len() == 1 + options.len()
            &&& words[0] == "add start and end markers around lines "@ + numbers::decimal_spec(
                first_line,
            ) + "-"@ + numbers::decimal_spec((first_line + line_count - 1) as nat) + " of "@ + file
                + ", making them section \""@ + name + "\""@
            &&& forall|i: int|
                0 <= i < options.len() ==> words[1 + i] == "add `| "@ + options::option_text(
                    #[trigger] options[i],
                ) + "` to its start marker"@
        }),
{
}

/// Newlines at the end are told to be added when there are too few, and to be removed
/// when there are too many, with how many they are
pub proof fn law_newline_words(wanted: nat, had: nat, place: Seq<char>)
    requires
        wanted != had,
    ensures
        ({
            let words = lightbulb::trailing_newline_words(wanted, had, place);
            &&& place.is_suffix_of(words)
            &&& wanted < had ==> ("remove the "@ + numbers::decimal_spec(
                (had - wanted) as nat,
            )).is_prefix_of(words)
            &&& 0 < had < wanted ==> ("add "@ + numbers::decimal_spec(
                (wanted - had) as nat,
            )).is_prefix_of(words)
            &&& had == 0 ==> words == "add the missing newline at the end of "@ + place
        }),
{
    let words = lightbulb::trailing_newline_words(wanted, had, place);
    assert(words.skip(words.len() - place.len()) =~= place);
    if wanted < had {
        let start = "remove the "@ + numbers::decimal_spec((had - wanted) as nat);
        assert(words.take(start.len() as int) =~= start);
    } else if had > 0 {
        let start = "add "@ + numbers::decimal_spec((wanted - had) as nat);
        assert(words.take(start.len() as int) =~= start);
    }
}

} // verus!
