//! The doc side: code blocks in the modules an `AsciiDoc` assembly includes.

use crate::apply;
use crate::bytes;
use crate::engines;
use crate::lightbulb;
use crate::lines;
use crate::markers;
use crate::numbers;
use crate::text;
use crate::text::CharClass;
use vstd::prelude::*;

verus! {

/// A `[source,…]` block in a module
#[derive(Debug)]
pub struct Block {
    pub module: String,
    pub lang: String,
    /// 1-based position among the module's blocks of the same language
    pub seq: usize,
    /// `<module>/<lang>-<NNN>`: a name for the block's current position only
    pub reference: String,
    /// The lines between the `----` delimiters, ending with a newline
    pub content: String,
    /// 1-based line of the first content line in the module
    pub line: usize,
    /// The heading the block is under
    pub section: Option<String>,
    /// The text introducing the block: the nearest procedure step, block title or prose line above it
    pub lead: Option<String>,
}

pub struct BlockModel {
    pub module: Seq<char>,
    pub lang: Seq<char>,
    pub seq: nat,
    pub reference: Seq<char>,
    pub content: Seq<char>,
    pub line: nat,
    pub section: Option<Seq<char>>,
    pub lead: Option<Seq<char>>,
}

impl View for Block {
    type V = BlockModel;

    open spec fn view(&self) -> BlockModel {
        BlockModel {
            module: self.module@,
            lang: self.lang@,
            seq: self.seq as nat,
            reference: self.reference@,
            content: self.content@,
            line: self.line as nat,
            section: text::option_view(self.section),
            lead: text::option_view(self.lead),
        }
    }
}

/// A copy of an optional text
pub fn clone_text(text: &Option<String>) -> (copy: Option<String>)
    ensures
        copy == *text,
{
    match text {
        Some(text) => Some(text.clone()),
        None => None,
    }
}

impl Clone for Block {
    fn clone(&self) -> (copy: Self)
        ensures
            copy == *self,
    {
        Block {
            module: self.module.clone(),
            lang: self.lang.clone(),
            seq: self.seq,
            reference: self.reference.clone(),
            content: self.content.clone(),
            line: self.line,
            section: clone_text(&self.section),
            lead: clone_text(&self.lead),
        }
    }
}

pub open spec fn block_models(blocks: Seq<Block>) -> Seq<BlockModel> {
    Seq::new(blocks.len(), |i: int| blocks[i]@)
}

/// An assembly of modules
#[derive(Debug)]
pub struct Assembly {
    pub id: String,
    /// Relative to the docs root
    pub path: String,
    pub title: String,
    pub modules: Vec<String>,
}

pub struct AssemblyModel {
    pub id: Seq<char>,
    pub path: Seq<char>,
    pub title: Seq<char>,
    pub modules: Seq<Seq<char>>,
}

impl View for Assembly {
    type V = AssemblyModel;

    open spec fn view(&self) -> AssemblyModel {
        AssemblyModel {
            id: self.id@,
            path: self.path@,
            title: self.title@,
            modules: text::views(self.modules@),
        }
    }
}

/// `<module>/<lang>-<NNN>`
pub open spec fn reference_spec(module: Seq<char>, lang: Seq<char>, seq: nat) -> Seq<char> {
    module + "/"@ + lang + "-"@ + numbers::padded_spec(seq, 3)
}

pub fn format_reference(module: &str, lang: &str, seq: usize) -> (reference: String)
    ensures
        reference@ == reference_spec(module@, lang@, seq as nat),
{
    let number = numbers::padded(seq, 3);
    let mut reference = text::surround(module, "/", lang);
    reference.append("-");
    reference.append(number.as_str());
    reference
}

// ---------------------------------------------------------------------------
// Assemblies
// ---------------------------------------------------------------------------

/// What a module's name is made of, from the start of a text
pub const MODULE_NAME_PATTERN: &'static str = "^[\\w.-]+";

/// A document's title line
pub const DOCUMENT_TITLE: &'static str = "(?m)^=\\s+(.+)$";

/// The error for a pattern that doesn't compile
pub open spec fn pattern_error(pattern: Seq<char>) -> Seq<char> {
    "compiling the regex "@ + apply::debug_text(pattern) + ": "@ + engines::regex_refusal(
        pattern,
    )->0
}

/// What a pattern finds in a text, as the engine finds it
pub open spec fn search_spec(pattern: Seq<char>, s: Seq<char>) -> Result<
    Option<(Seq<char>, Seq<char>, Seq<char>)>,
    Seq<char>,
> {
    if engines::regex_accepts(pattern) {
        Ok(engines::regex_found(pattern, s))
    } else {
        Err(pattern_error(pattern))
    }
}

/// What a pattern finds in a text
pub fn search(pattern: &str, s: &str) -> (found: Result<Option<engines::Found>, String>)
    ensures
        match found {
            Ok(found) => search_spec(pattern@, s@) == Ok::<_, Seq<char>>(
                engines::found_view(found),
            ) && (found matches Some((before, matched, after)) ==> before@ + matched@ + after@
                == s@),
            Err(error) => search_spec(pattern@, s@) == Err::<
                Option<(Seq<char>, Seq<char>, Seq<char>)>,
                _,
            >(error@),
        },
{
    match engines::regex_find(pattern, s) {
        Ok(found) => Ok(found),
        Err(reason) => {
            let shown = apply::show_debug(pattern);
            let mut context = "compiling the regex ".to_owned();
            context.append(shown.as_str());
            Err(lightbulb::error_in(context.as_str(), reason))
        },
    }
}

/// The module that a line includes, where `found` is the run of name characters after
/// `include::modules/`: its name, before `.adoc[`
pub open spec fn included_name(found: Option<(Seq<char>, Seq<char>, Seq<char>)>) -> Option<
    Seq<char>,
> {
    match found {
        Some((_, run, after)) => match text::without_suffix(run, ".adoc"@) {
            Some(name) => if name.len() > 0 && "["@.is_prefix_of(after) {
                Some(name)
            } else {
                None
            },
            None => None,
        },
        None => None,
    }
}

/// The module that a line includes, where `found` is the run of name characters after
/// `include::modules/`
pub fn included_from(found: &Option<engines::Found>) -> (name: Option<String>)
    ensures
        text::option_view(name) == included_name(engines::found_view(*found)),
{
    match found {
        Some((_, run, after)) => match text::strip_suffix(run.as_str(), ".adoc") {
            Some(name) => if text::chars_of(name.as_str()).len() > 0 && text::starts_with(
                after.as_str(),
                "[",
            ) {
                Some(name)
            } else {
                None
            },
            None => None,
        },
        None => None,
    }
}

/// The module that a line includes
pub open spec fn included_spec(line: Seq<char>) -> Result<Option<Seq<char>>, Seq<char>> {
    match text::without_prefix(line, "include::modules/"@) {
        None => Ok(None),
        Some(rest) => match search_spec(MODULE_NAME_PATTERN@, rest) {
            Err(error) => Err(error),
            Ok(found) => Ok(included_name(found)),
        },
    }
}

/// The module that a line includes
pub fn included_module(line: &str) -> (name: Result<Option<String>, String>)
    ensures
        match name {
            Ok(name) => included_spec(line@) == Ok::<_, Seq<char>>(text::option_view(name)),
            Err(error) => included_spec(line@) == Err::<Option<Seq<char>>, _>(error@),
        },
{
    match text::strip_prefix(line, "include::modules/") {
        None => Ok(None),
        Some(rest) => match search(MODULE_NAME_PATTERN, rest.as_str()) {
            Err(error) => Err(error),
            Ok(found) => Ok(included_from(&found)),
        },
    }
}

/// The modules that lines include, in order
pub open spec fn all_included(list: Seq<Seq<char>>) -> Result<Seq<Seq<char>>, Seq<char>>
    decreases list.len(),
{
    if list.len() == 0 {
        Ok(Seq::empty())
    } else {
        match all_included(list.drop_last()) {
            Err(error) => Err(error),
            Ok(names) => match included_spec(list.last()) {
                Err(error) => Err(error),
                Ok(None) => Ok(names),
                Ok(Some(name)) => Ok(names.push(name)),
            },
        }
    }
}

proof fn lemma_all_included_error(list: Seq<Seq<char>>, i: int)
    requires
        0 <= i <= list.len(),
        all_included(list.take(i)) is Err,
    ensures
        all_included(list) == all_included(list.take(i)),
    decreases list.len(),
{
    if i == list.len() {
        assert(list.take(i) =~= list);
    } else {
        assert(list.drop_last().take(i) =~= list.take(i));
        lemma_all_included_error(list.drop_last(), i);
    }
}

/// The modules that the lines of `s` include, in order
fn included_modules(s: &str) -> (names: Result<Vec<String>, String>)
    ensures
        match names {
            Ok(names) => all_included(lines::split(s@, '\n')) == Ok::<_, Seq<char>>(
                text::views(names@),
            ),
            Err(error) => all_included(lines::split(s@, '\n')) == Err::<Seq<Seq<char>>, _>(error@),
        },
{
    let all = lines::split_text(s, '\n');
    let ghost views = text::views(all@);
    let mut names: Vec<String> = Vec::new();
    let mut i: usize = 0;
    assert(text::views(names@) =~= Seq::empty());
    while i < all.len()
        invariant
            i <= all@.len(),
            views == text::views(all@),
            views == lines::split(s@, '\n'),
            all_included(views.take(i as int)) == Ok::<_, Seq<char>>(text::views(names@)),
        decreases all@.len() - i,
    {
        proof {
            assert(views.take(i + 1).drop_last() =~= views.take(i as int));
            assert(views.take(i + 1).last() == all@[i as int]@);
        }
        match included_module(all[i].as_str()) {
            Err(error) => {
                proof {
                    lemma_all_included_error(views, i + 1);
                }
                return Err(error);
            },
            Ok(None) => {},
            Ok(Some(name)) => {
                proof {
                    text::lemma_views_push(names@, name);
                }
                names.push(name);
            },
        }
        i = i + 1;
    }
    assert(views.take(i as int) =~= views);
    Ok(names)
}

/// The distinct items, each where it first appears
pub fn unique_in_order(items: &Vec<String>) -> (kept: Vec<String>)
    ensures
        text::views(kept@) == text::unique(text::views(items@)),
{
    let ghost views = text::views(items@);
    let mut kept: Vec<String> = Vec::new();
    let mut i: usize = 0;
    assert(text::views(kept@) =~= text::unique(views.take(0)));
    while i < items.len()
        invariant
            i <= items@.len(),
            views == text::views(items@),
            text::views(kept@) == text::unique(views.take(i as int)),
        decreases items@.len() - i,
    {
        proof {
            assert(views.take(i + 1).drop_last() =~= views.take(i as int));
            assert(views.take(i + 1).last() == items@[i as int]@);
        }
        if !text::list_contains(&kept, items[i].as_str()) {
            let item = items[i].clone();
            proof {
                text::lemma_views_push(kept@, item);
            }
            kept.push(item);
        }
        i = i + 1;
    }
    assert(views.take(i as int) =~= views);
    kept
}

/// The components of a path that name something
pub open spec fn components(parts: Seq<Seq<char>>) -> Seq<Seq<char>>
    decreases parts.len(),
{
    if parts.len() == 0 {
        Seq::empty()
    } else if parts.last().len() == 0 || parts.last() == "."@ {
        components(parts.drop_last())
    } else {
        components(parts.drop_last()).push(parts.last())
    }
}

/// A file's name without its extension: all before its last `.`, unless that is at its
/// start
pub open spec fn name_stem(name: Seq<char>) -> Seq<char> {
    let parts = lines::split(name, '.');
    if parts.len() == 1 || (parts.len() == 2 && parts[0].len() == 0) {
        name
    } else {
        lines::join(parts.drop_last(), "."@)
    }
}

/// The name of the file at a path, without its extension; nothing for a path that names
/// no file
pub open spec fn file_stem_spec(path: Seq<char>) -> Seq<char> {
    let parts = components(lines::split(path, '/'));
    if parts.len() == 0 || parts.last() == ".."@ {
        Seq::empty()
    } else {
        name_stem(parts.last())
    }
}

/// The name of the file at a path, without its extension
pub fn file_stem(path: &str) -> (stem: String)
    ensures
        stem@ == file_stem_spec(path@),
{
    let all = lines::split_text(path, '/');
    let ghost views = text::views(all@);
    let mut last: Option<String> = None;
    let mut i: usize = 0;
    while i < all.len()
        invariant
            i <= all@.len(),
            views == text::views(all@),
            match last {
                Some(last) => components(views.take(i as int)).len() > 0 && components(
                    views.take(i as int),
                ).last() == last@,
                None => components(views.take(i as int)).len() == 0,
            },
        decreases all@.len() - i,
    {
        proof {
            assert(views.take(i + 1).drop_last() =~= views.take(i as int));
            assert(views.take(i + 1).last() == all@[i as int]@);
        }
        let part = all[i].as_str();
        if text::chars_of(part).len() > 0 && !text::same(part, ".") {
            last = Some(all[i].clone());
        }
        i = i + 1;
    }
    assert(views.take(i as int) =~= views);
    let name = match last {
        None => {
            return String::new();
        },
        Some(name) => name,
    };
    if text::same(name.as_str(), "..") {
        return String::new();
    }
    let parts = lines::split_text(name.as_str(), '.');
    let ghost part_views = text::views(parts@);
    assert(part_views[0] == parts@[0]@);
    if parts.len() == 1 || (parts.len() == 2 && text::chars_of(parts[0].as_str()).len() == 0) {
        return name;
    }
    let mut kept = parts;
    let _ = kept.pop();
    assert(text::views(kept@) =~= part_views.drop_last());
    lines::join_texts(&kept, ".")
}

/// A document's title, where `found` is its title line: what follows `=`
pub open spec fn title_of(
    found: Option<(Seq<char>, Seq<char>, Seq<char>)>,
    otherwise: Seq<char>,
) -> Seq<char> {
    match found {
        Some((_, matched, _)) => match text::without_prefix(matched, "="@) {
            Some(title) => text::trimmed(title),
            None => text::trimmed(matched),
        },
        None => otherwise,
    }
}

/// A document's title, where `found` is its title line
pub fn title_from(found: &Option<engines::Found>, otherwise: &str) -> (title: String)
    ensures
        title@ == title_of(engines::found_view(*found), otherwise@),
{
    match found {
        Some((_, matched, _)) => match text::strip_prefix(matched.as_str(), "=") {
            Some(title) => text::trim(title.as_str()),
            None => text::trim(matched.as_str()),
        },
        None => otherwise.to_owned(),
    }
}

/// What an assembly's text says of it
pub open spec fn assembly_spec(path: Seq<char>, s: Seq<char>) -> Result<AssemblyModel, Seq<char>> {
    match all_included(lines::split(s, '\n')) {
        Err(error) => Err("finding the modules "@ + path + " includes: "@ + error),
        Ok(names) => match search_spec(DOCUMENT_TITLE@, s) {
            Err(error) => Err(error),
            Ok(found) => Ok(
                AssemblyModel {
                    id: file_stem_spec(path),
                    path,
                    title: title_of(found, file_stem_spec(path)),
                    modules: text::unique(names),
                },
            ),
        },
    }
}

/// An assembly, from its text
pub fn read_assembly(path: &str, text: &str) -> (assembly: Result<Assembly, String>)
    ensures
        match assembly {
            Ok(assembly) => assembly_spec(path@, text@) == Ok::<_, Seq<char>>(assembly@),
            Err(error) => assembly_spec(path@, text@) == Err::<AssemblyModel, _>(error@),
        },
{
    let included = match included_modules(text) {
        Ok(included) => included,
        Err(error) => {
            let mut message = text::surround("finding the modules ", path, " includes: ");
            message.append(error.as_str());
            return Err(message);
        },
    };
    let stem = file_stem(path);
    match search(DOCUMENT_TITLE, text) {
        Err(error) => Err(error),
        Ok(found) => {
            let title = title_from(&found, stem.as_str());
            Ok(
                Assembly {
                    id: stem,
                    path: path.to_owned(),
                    title,
                    modules: unique_in_order(&included),
                },
            )
        },
    }
}

pub fn path_of_module(module: &str) -> (path: String)
    ensures
        path@ == "modules/"@ + module@ + ".adoc"@,
{
    text::surround("modules/", module, ".adoc")
}

// ---------------------------------------------------------------------------
// What stands above a block
// ---------------------------------------------------------------------------

/// The title on a heading line: what follows its `=`s
pub open spec fn heading_spec(line: Seq<char>) -> Option<Seq<char>> {
    let rest = text::after_run(line, CharClass::Equals);
    if text::span(line, CharClass::Equals) > 0 && rest.len() >= 2 && text::is_white(rest[0]) {
        Some(text::trimmed(rest))
    } else {
        None
    }
}

/// The title on a heading line
pub fn heading(line: &str) -> (title: Option<String>)
    ensures
        text::option_view(title) == heading_spec(line@),
{
    let chars = text::chars_of(line);
    let end = text::span_end(&chars, 0, CharClass::Equals);
    assert(chars@.skip(0) =~= chars@);
    let rest = text::trim_start(line, CharClass::Equals);
    let rest_chars = text::chars_of(rest.as_str());
    if end > 0 && rest_chars.len() >= 2 && text::is_whitespace(rest_chars[0]) {
        Some(text::trim(rest.as_str()))
    } else {
        None
    }
}

/// Whether a line says nothing about the block below it
pub open spec fn is_filler_spec(line: Seq<char>) -> bool {
    ||| line.len() == 0
    ||| line == "+"@
    ||| "["@.is_prefix_of(line)
    ||| "//"@.is_prefix_of(line)
    ||| "ifdef::"@.is_prefix_of(line)
    ||| "ifndef::"@.is_prefix_of(line)
    ||| "endif::"@.is_prefix_of(line)
}

/// Lines that say nothing about the block below them
pub fn is_filler(line: &str) -> (filler: bool)
    ensures
        filler == is_filler_spec(line@),
{
    text::chars_of(line).len() == 0 || text::same(line, "+") || text::starts_with(line, "[")
        || text::starts_with(line, "//") || text::starts_with(line, "ifdef::")
        || text::starts_with(line, "ifndef::") || text::starts_with(line, "endif::")
}

/// The nearest line, trimmed, that says something about a block below all of them
pub open spec fn nearest_line(above: Seq<Seq<char>>) -> Option<Seq<char>>
    decreases above.len(),
{
    if above.len() == 0 {
        None
    } else if is_filler_spec(text::trimmed(above.last())) {
        nearest_line(above.drop_last())
    } else {
        Some(text::trimmed(above.last()))
    }
}

/// `line` without the list marker (`.`s or `*`s before whitespace) that it starts with
pub open spec fn without_list_marker(line: Seq<char>) -> Seq<char> {
    let dots = text::after_run(line, CharClass::Dot);
    let stars = text::after_run(line, CharClass::Star);
    if text::span(line, CharClass::Dot) > 0 && dots.len() > 0 && text::is_white(dots[0]) {
        text::after_run(dots, CharClass::White)
    } else if text::span(line, CharClass::Star) > 0 && stars.len() > 0 && text::is_white(
        stars[0],
    ) {
        text::after_run(stars, CharClass::White)
    } else {
        line
    }
}

/// `line` without the dot of a block title, which stands before its text
pub open spec fn without_title_dot(line: Seq<char>) -> Seq<char> {
    if line.len() >= 2 && line[0] == '.' && !text::is_white(line[1]) {
        line.skip(1)
    } else {
        line
    }
}

/// `s` with each run of whitespace turned into one space
pub open spec fn collapsed(s: Seq<char>) -> Seq<char>
    decreases s.len(),
{
    if s.len() == 0 {
        Seq::empty()
    } else if !text::is_white(s.last()) {
        collapsed(s.drop_last()).push(s.last())
    } else if s.len() >= 2 && text::is_white(s[s.len() - 2]) {
        collapsed(s.drop_last())
    } else {
        collapsed(s.drop_last()).push(' ')
    }
}

/// The text introducing a block below lines
pub open spec fn lead_spec(above: Seq<Seq<char>>) -> Option<Seq<char>> {
    match nearest_line(above) {
        None => None,
        Some(line) => if "----"@.is_prefix_of(line) || "...."@.is_prefix_of(line) || heading_spec(
            line,
        ) is Some {
            None
        } else {
            let lead = text::trimmed(collapsed(without_title_dot(without_list_marker(line))));
            if lead.len() == 0 {
                None
            } else {
                Some(lead)
            }
        },
    }
}

fn strip_list_marker(line: &str) -> (rest: String)
    ensures
        rest@ == without_list_marker(line@),
{
    let chars = text::chars_of(line);
    assert(chars@.skip(0) =~= chars@);
    let dots_end = text::span_end(&chars, 0, CharClass::Dot);
    let stars_end = text::span_end(&chars, 0, CharClass::Star);
    if dots_end > 0 && dots_end < chars.len() && text::is_whitespace(chars[dots_end]) {
        let rest = text::trim_start(line, CharClass::Dot);
        text::trim_start(rest.as_str(), CharClass::White)
    } else if stars_end > 0 && stars_end < chars.len() && text::is_whitespace(chars[stars_end]) {
        let rest = text::trim_start(line, CharClass::Star);
        text::trim_start(rest.as_str(), CharClass::White)
    } else {
        line.to_owned()
    }
}

fn strip_title_dot(line: &str) -> (rest: String)
    ensures
        rest@ == without_title_dot(line@),
{
    let chars = text::chars_of(line);
    if chars.len() >= 2 && chars[0] == '.' && !text::is_whitespace(chars[1]) {
        let rest = text::text_of(&chars, 1, chars.len());
        assert(rest@ =~= line@.skip(1));
        rest
    } else {
        line.to_owned()
    }
}

fn collapse_whitespace(s: &str) -> (result: String)
    ensures
        result@ == collapsed(s@),
{
    let chars = text::chars_of(s);
    let mut result = String::new();
    let mut i: usize = 0;
    while i < chars.len()
        invariant
            i <= chars@.len(),
            result@ == collapsed(chars@.take(i as int)),
        decreases chars@.len() - i,
    {
        proof {
            let next = chars@.take(i + 1);
            assert(next.drop_last() =~= chars@.take(i as int));
            assert(next.last() == chars@[i as int]);
            if i > 0 {
                assert(next[next.len() - 2] == chars@[i - 1]);
            }
        }
        if !text::is_whitespace(chars[i]) {
            result.push(chars[i]);
        } else if i == 0 || !text::is_whitespace(chars[i - 1]) {
            result.push(' ');
        }
        i = i + 1;
    }
    assert(chars@.take(i as int) =~= chars@);
    result
}

/// The text introducing a block below the first `count` of `list`
pub fn lead_for(list: &Vec<String>, count: usize) -> (lead: Option<String>)
    requires
        count <= list@.len(),
    ensures
        text::option_view(lead) == lead_spec(text::views(list@).take(count as int)),
{
    let ghost views = text::views(list@);
    let mut i: usize = count;
    let mut nearest: Option<String> = None;
    while i > 0 && nearest.is_none()
        invariant
            i <= count <= list@.len(),
            views == text::views(list@),
            match nearest {
                Some(nearest) => nearest_line(views.take(count as int)) == Some(nearest@),
                None => nearest_line(views.take(count as int)) == nearest_line(
                    views.take(i as int),
                ),
            },
        decreases i,
    {
        let line = text::trim(list[i - 1].as_str());
        proof {
            assert(views.take(i as int).drop_last() =~= views.take(i - 1));
            assert(views.take(i as int).last() == list@[i - 1]@);
        }
        if !is_filler(line.as_str()) {
            nearest = Some(line);
        }
        i = i - 1;
    }
    let line = match nearest {
        None => {
            return None;
        },
        Some(line) => line,
    };
    if text::starts_with(line.as_str(), "----") || text::starts_with(line.as_str(), "....")
        || heading(line.as_str()).is_some() {
        return None;
    }
    let unmarked = strip_list_marker(line.as_str());
    let undotted = strip_title_dot(unmarked.as_str());
    let lead = text::trim(collapse_whitespace(undotted.as_str()).as_str());
    if text::chars_of(lead.as_str()).len() == 0 {
        None
    } else {
        Some(lead)
    }
}

// ---------------------------------------------------------------------------
// Blocks
// ---------------------------------------------------------------------------

/// What a language's name is made of, from the start of a text
pub const LANG_PATTERN: &'static str = "^\\w+";

/// The language of the source block that a line starts
pub open spec fn lang_spec(line: Seq<char>) -> Result<Option<Seq<char>>, Seq<char>> {
    match text::without_prefix(line, "[source,"@) {
        None => Ok(None),
        Some(rest) => match search_spec(LANG_PATTERN@, text::after_run(rest, CharClass::White)) {
            Err(error) => Err(error),
            Ok(Some((_, lang, _))) => Ok(Some(lang)),
            Ok(None) => Ok(None),
        },
    }
}

/// The language of the source block that a line starts
pub fn source_lang(line: &str) -> (lang: Result<Option<String>, String>)
    ensures
        match lang {
            Ok(lang) => lang_spec(line@) == Ok::<_, Seq<char>>(text::option_view(lang)),
            Err(error) => lang_spec(line@) == Err::<Option<Seq<char>>, _>(error@),
        },
{
    match text::strip_prefix(line, "[source,") {
        None => Ok(None),
        Some(rest) => {
            let rest = text::trim_start(rest.as_str(), CharClass::White);
            match search(LANG_PATTERN, rest.as_str()) {
                Err(error) => Err(error),
                Ok(Some((_, lang, _))) => Ok(Some(lang)),
                Ok(None) => Ok(None),
            }
        },
    }
}

pub open spec fn option_views(list: Seq<Option<String>>) -> Seq<Option<Seq<char>>> {
    Seq::new(list.len(), |i: int| text::option_view(list[i]))
}

/// The languages of the source blocks that lines start
pub open spec fn langs_spec(list: Seq<Seq<char>>) -> Result<Seq<Option<Seq<char>>>, Seq<char>>
    decreases list.len(),
{
    if list.len() == 0 {
        Ok(Seq::empty())
    } else {
        match langs_spec(list.drop_last()) {
            Err(error) => Err(error),
            Ok(langs) => match lang_spec(list.last()) {
                Err(error) => Err(error),
                Ok(lang) => Ok(langs.push(lang)),
            },
        }
    }
}

proof fn lemma_langs_error(list: Seq<Seq<char>>, i: int)
    requires
        0 <= i <= list.len(),
        langs_spec(list.take(i)) is Err,
    ensures
        langs_spec(list) == langs_spec(list.take(i)),
    decreases list.len(),
{
    if i == list.len() {
        assert(list.take(i) =~= list);
    } else {
        assert(list.drop_last().take(i) =~= list.take(i));
        lemma_langs_error(list.drop_last(), i);
    }
}

proof fn lemma_langs_len(list: Seq<Seq<char>>)
    ensures
        langs_spec(list) matches Ok(langs) ==> langs.len() == list.len(),
    decreases list.len(),
{
    if list.len() > 0 {
        lemma_langs_len(list.drop_last());
    }
}

/// The languages of the source blocks that lines start
fn source_langs(list: &Vec<String>) -> (langs: Result<Vec<Option<String>>, String>)
    ensures
        match langs {
            Ok(langs) => langs_spec(text::views(list@)) == Ok::<_, Seq<char>>(
                option_views(langs@),
            ),
            Err(error) => langs_spec(text::views(list@)) == Err::<Seq<Option<Seq<char>>>, _>(
                error@,
            ),
        },
{
    let ghost views = text::views(list@);
    let mut langs: Vec<Option<String>> = Vec::new();
    let mut i: usize = 0;
    assert(option_views(langs@) =~= Seq::empty());
    while i < list.len()
        invariant
            i <= list@.len(),
            views == text::views(list@),
            langs_spec(views.take(i as int)) == Ok::<_, Seq<char>>(option_views(langs@)),
        decreases list@.len() - i,
    {
        proof {
            assert(views.take(i + 1).drop_last() =~= views.take(i as int));
            assert(views.take(i + 1).last() == list@[i as int]@);
        }
        match source_lang(list[i].as_str()) {
            Err(error) => {
                proof {
                    lemma_langs_error(views, i + 1);
                }
                return Err(error);
            },
            Ok(lang) => {
                let ghost before = langs@;
                langs.push(lang);
                assert(option_views(langs@) =~= option_views(before).push(
                    text::option_view(lang),
                ));
            },
        }
        i = i + 1;
    }
    assert(views.take(i as int) =~= views);
    Ok(langs)
}

/// How many blocks so far are in a language
pub type LangCounts = Vec<(String, usize)>;

pub open spec fn count_views(counts: Seq<(String, usize)>) -> Seq<(Seq<char>, nat)> {
    Seq::new(counts.len(), |i: int| (counts[i].0@, counts[i].1 as nat))
}

/// The count for a language
pub open spec fn count_of(counts: Seq<(Seq<char>, nat)>, lang: Seq<char>) -> nat
    decreases counts.len(),
{
    if counts.len() == 0 {
        0
    } else if counts[0].0 == lang {
        counts[0].1
    } else {
        count_of(counts.drop_first(), lang)
    }
}

pub proof fn lemma_count_of_is(counts: Seq<(Seq<char>, nat)>, lang: Seq<char>, i: int)
    requires
        0 <= i < counts.len(),
        counts[i].0 == lang,
        forall|j: int| 0 <= j < i ==> (#[trigger] counts[j]).0 != lang,
    ensures
        count_of(counts, lang) == counts[i].1,
    decreases counts.len(),
{
    if i > 0 {
        assert(counts[0].0 != lang);
        let rest = counts.drop_first();
        assert forall|j: int| 0 <= j < i - 1 implies (#[trigger] rest[j]).0 != lang by {
            assert(rest[j] == counts[j + 1]);
        }
        lemma_count_of_is(rest, lang, i - 1);
    }
}

pub proof fn lemma_count_of_none(counts: Seq<(Seq<char>, nat)>, lang: Seq<char>)
    requires
        forall|j: int| 0 <= j < counts.len() ==> (#[trigger] counts[j]).0 != lang,
    ensures
        count_of(counts, lang) == 0,
    decreases counts.len(),
{
    if counts.len() > 0 {
        assert(counts[0].0 != lang);
        let rest = counts.drop_first();
        assert forall|j: int| 0 <= j < rest.len() implies (#[trigger] rest[j]).0 != lang by {
            assert(rest[j] == counts[j + 1]);
        }
        lemma_count_of_none(rest, lang);
    }
}

pub proof fn lemma_count_of_same(
    first: Seq<(Seq<char>, nat)>,
    second: Seq<(Seq<char>, nat)>,
    lang: Seq<char>,
)
    requires
        first.len() <= second.len(),
        forall|j: int|
            0 <= j < first.len() ==> (#[trigger] first[j]).0 == second[j].0 && (first[j].0 == lang
                ==> first[j].1 == second[j].1),
        forall|j: int| first.len() <= j < second.len() ==> (#[trigger] second[j]).0 != lang,
    ensures
        count_of(first, lang) == count_of(second, lang),
    decreases second.len(),
{
    if first.len() == 0 {
        lemma_count_of_none(second, lang);
    } else {
        assert(first[0].0 == second[0].0);
        let (f, s) = (first.drop_first(), second.drop_first());
        assert forall|j: int| 0 <= j < f.len() implies (#[trigger] f[j]).0 == s[j].0 && (f[j].0
            == lang ==> f[j].1 == s[j].1) by {
            assert(f[j] == first[j + 1]);
            assert(s[j] == second[j + 1]);
        }
        assert forall|j: int| f.len() <= j < s.len() implies (#[trigger] s[j]).0 != lang by {
            assert(s[j] == second[j + 1]);
        }
        lemma_count_of_same(f, s, lang);
    }
}

/// The next 1-based position for a block in `lang`
pub fn next_seq(counts: &mut LangCounts, lang: &str) -> (seq: usize)
    requires
        count_of(count_views(old(counts)@), lang@) < usize::MAX,
    ensures
        seq == count_of(count_views(old(counts)@), lang@) + 1,
        count_of(count_views(final(counts)@), lang@) == seq,
        forall|other: Seq<char>|
            other != lang@ ==> #[trigger] count_of(count_views(final(counts)@), other)
                == count_of(count_views(old(counts)@), other),
{
    let ghost before = count_views(counts@);
    let mut i: usize = 0;
    while i < counts.len()
        invariant
            i <= counts@.len(),
            before == count_views(counts@),
            *counts == *old(counts),
            count_of(before, lang@) < usize::MAX,
            forall|j: int| 0 <= j < i ==> (#[trigger] before[j]).0 != lang@,
        decreases counts@.len() - i,
    {
        if text::same(counts[i].0.as_str(), lang) {
            proof {
                lemma_count_of_is(before, lang@, i as int);
                assert(before[i as int].1 == counts@[i as int].1);
            }
            let seq: usize = counts[i].1 + 1;
            let name = counts[i].0.clone();
            counts.set(i, (name, seq));
            proof {
                let after = count_views(counts@);
                assert(after[i as int] == (lang@, seq as nat));
                assert forall|j: int| 0 <= j < i implies (#[trigger] after[j]).0 != lang@ by {
                    assert(after[j] == before[j]);
                }
                lemma_count_of_is(after, lang@, i as int);
                assert forall|other: Seq<char>| other != lang@ implies #[trigger] count_of(
                    after,
                    other,
                ) == count_of(before, other) by {
                    lemma_count_of_same(before, after, other);
                }
            }
            return seq;
        }
        i = i + 1;
    }
    proof {
        lemma_count_of_none(before, lang@);
    }
    counts.push((lang.to_owned(), 1));
    proof {
        let after = count_views(counts@);
        assert(after[i as int] == (lang@, 1nat));
        assert forall|j: int| 0 <= j < i implies (#[trigger] after[j]).0 != lang@ by {
            assert(after[j] == before[j]);
        }
        lemma_count_of_is(after, lang@, i as int);
        assert forall|other: Seq<char>| other != lang@ implies #[trigger] count_of(after, other)
            == count_of(before, other) by {
            lemma_count_of_same(before, after, other);
        }
    }
    1
}

/// How many of `blocks` are in `lang`
pub open spec fn blocks_in(blocks: Seq<BlockModel>, lang: Seq<char>) -> nat
    decreases blocks.len(),
{
    if blocks.len() == 0 {
        0
    } else if blocks.last().lang == lang {
        blocks_in(blocks.drop_last(), lang) + 1
    } else {
        blocks_in(blocks.drop_last(), lang)
    }
}

proof fn lemma_blocks_in(blocks: Seq<BlockModel>, lang: Seq<char>)
    ensures
        blocks_in(blocks, lang) <= blocks.len(),
    decreases blocks.len(),
{
    if blocks.len() > 0 {
        lemma_blocks_in(blocks.drop_last(), lang);
    }
}

/// The first line from line `i` on that delimits a block's content
pub open spec fn delimiter_from(list: Seq<Seq<char>>, i: int) -> Option<int>
    decreases list.len() - i,
{
    if !(0 <= i < list.len()) {
        None
    } else if "----"@.is_prefix_of(list[i]) {
        Some(i)
    } else {
        delimiter_from(list, i + 1)
    }
}

pub proof fn lemma_delimiter_from(list: Seq<Seq<char>>, i: int)
    requires
        0 <= i <= list.len(),
    ensures
        delimiter_from(list, i) matches Some(k) ==> i <= k < list.len() && "----"@.is_prefix_of(
            list[k],
        ) && (forall|j: int| i <= j < k ==> !"----"@.is_prefix_of(#[trigger] list[j])),
        delimiter_from(list, i) is None ==> (forall|j: int|
            i <= j < list.len() ==> !"----"@.is_prefix_of(#[trigger] list[j])),
    decreases list.len() - i,
{
    if i < list.len() && !"----"@.is_prefix_of(list[i]) {
        lemma_delimiter_from(list, i + 1);
    }
}

fn find_delimiter(list: &Vec<String>, from: usize) -> (found: Option<usize>)
    requires
        from <= list@.len(),
    ensures
        match found {
            Some(k) => delimiter_from(text::views(list@), from as int) == Some(k as int) && from
                <= k < list@.len(),
            None => delimiter_from(text::views(list@), from as int) is None,
        },
{
    let ghost views = text::views(list@);
    let mut i: usize = from;
    while i < list.len()
        invariant
            from <= i <= list@.len(),
            views == text::views(list@),
            delimiter_from(views, from as int) == delimiter_from(views, i as int),
        decreases list@.len() - i,
    {
        if text::starts_with(list[i].as_str(), "----") {
            return Some(i);
        }
        i = i + 1;
    }
    None
}

/// The block whose content is lines `start` up to `end`, after the blocks `done`
pub open spec fn block_spec(
    module: Seq<char>,
    lang: Seq<char>,
    list: Seq<Seq<char>>,
    source_line: int,
    start: int,
    end: int,
    section: Option<Seq<char>>,
    done: Seq<BlockModel>,
) -> BlockModel {
    let seq = blocks_in(done, lang) + 1;
    BlockModel {
        module,
        lang,
        seq,
        reference: reference_spec(module, lang, seq),
        content: lines::join(list.subrange(start, end), "\n"@) + "\n"@,
        line: (start + 1) as nat,
        section,
        lead: lead_spec(list.take(source_line)),
    }
}

/// The blocks that lines from line `i` on add to those before, where `langs` are the
/// languages of the source blocks that lines start
pub open spec fn blocks_from(
    module: Seq<char>,
    list: Seq<Seq<char>>,
    langs: Seq<Option<Seq<char>>>,
    i: int,
    section: Option<Seq<char>>,
    done: Seq<BlockModel>,
) -> Seq<BlockModel>
    decreases list.len() + 1 - i,
{
    if !(0 <= i < list.len()) {
        done
    } else {
        let under = match heading_spec(list[i]) {
            Some(title) => Some(title),
            None => section,
        };
        match langs[i] {
            None => blocks_from(module, list, langs, i + 1, under, done),
            Some(lang) => match delimiter_from(list, i + 1) {
                None => done,
                Some(open) => {
                    let close = match delimiter_from(list, open + 1) {
                        Some(close) => close,
                        None => list.len() as int,
                    };
                    proof {
                        lemma_delimiter_from(list, i + 1);
                        lemma_delimiter_from(list, open + 1);
                    }
                    let block = block_spec(module, lang, list, i, open + 1, close, under, done);
                    blocks_from(module, list, langs, close + 1, under, done.push(block))
                },
            },
        }
    }
}

/// The blocks of a module with the lines `list`, where `langs` are the languages of
/// the source blocks that lines start
pub fn blocks_with_langs(module: &str, list: &Vec<String>, langs: &Vec<Option<String>>) -> (blocks:
    Vec<Block>)
    requires
        langs@.len() == list@.len(),
        bytes::byte_len(lines::join(text::views(list@), seq!['\n'])) <= usize::MAX,
    ensures
        block_models(blocks@) == blocks_from(
            module@,
            text::views(list@),
            option_views(langs@),
            0,
            None,
            Seq::empty(),
        ),
{
    let ghost views = text::views(list@);
    let ghost all_langs = option_views(langs@);
    let mut blocks: Vec<Block> = Vec::new();
    let mut counts: LangCounts = Vec::new();
    let mut section: Option<String> = None;
    let mut i: usize = 0;
    proof {
        assert(block_models(blocks@) =~= Seq::empty());
        assert forall|lang: Seq<char>| #[trigger] count_of(count_views(counts@), lang) == blocks_in(
            block_models(blocks@),
            lang,
        ) by {
            lemma_count_of_none(count_views(counts@), lang);
        }
    }
    while i < list.len()
        invariant
            i <= list@.len(),
            views == text::views(list@),
            all_langs == option_views(langs@),
            langs@.len() == list@.len(),
            blocks@.len() <= i,
            bytes::byte_len(lines::join(views, seq!['\n'])) <= usize::MAX,
            forall|lang: Seq<char>| #[trigger]
                count_of(count_views(counts@), lang) == blocks_in(block_models(blocks@), lang),
            blocks_from(module@, views, all_langs, 0, None, Seq::empty()) == blocks_from(
                module@,
                views,
                all_langs,
                i as int,
                text::option_view(section),
                block_models(blocks@),
            ),
        ensures
            blocks_from(module@, views, all_langs, 0, None, Seq::empty()) == block_models(
                blocks@,
            ),
        decreases list@.len() - i,
    {
        let ghost before = text::option_view(section);
        if let Some(title) = heading(list[i].as_str()) {
            section = Some(title);
        }
        assert(all_langs[i as int] == text::option_view(langs@[i as int]));
        match &langs[i] {
            None => {
                i = i + 1;
            },
            Some(lang) => {
                let lead = lead_for(list, i);
                assert(i < list.len());
                let open = match find_delimiter(list, i + 1) {
                    Some(open) => open,
                    None => {
                        break ;
                    },
                };
                proof {
                    lemma_delimiter_from(views, i + 1);
                    markers::lemma_line_start_bound(views, open as int);
                    lemma_line_start_at_least(views, open as int);
                    reveal_strlit("----");
                    lemma_byte_len_at_least(views[open as int]);
                    lemma_blocks_in(block_models(blocks@), lang@);
                }
                let start: usize = open + 1;
                let close: usize = match find_delimiter(list, start) {
                    Some(close) => close,
                    None => list.len(),
                };
                let ghost done = block_models(blocks@);
                let seq = next_seq(&mut counts, lang.as_str());
                let mut content = join_range(list, start, close);
                content.append("\n");
                let block = Block {
                    module: module.to_owned(),
                    reference: format_reference(module, lang.as_str(), seq),
                    lang: lang.clone(),
                    seq,
                    content,
                    line: start + 1,
                    section: clone_text(&section),
                    lead,
                };
                blocks.push(block);
                proof {
                    assert(block_models(blocks@) =~= done.push(block@));
                    assert forall|other: Seq<char>| #[trigger] count_of(
                        count_views(counts@),
                        other,
                    ) == blocks_in(block_models(blocks@), other) by {
                        assert(done.push(block@).drop_last() =~= done);
                    }
                }
                if close < list.len() {
                    i = close + 1;
                } else {
                    i = list.len();
                    proof {
                        assert(blocks_from(
                            module@,
                            views,
                            all_langs,
                            close + 1,
                            text::option_view(section),
                            block_models(blocks@),
                        ) == block_models(blocks@));
                    }
                }
            },
        }
    }
    blocks
}

proof fn lemma_line_start_at_least(list: Seq<Seq<char>>, k: int)
    requires
        0 <= k,
    ensures
        markers::line_start(list, k) >= k,
    decreases k,
{
    if k > 0 {
        lemma_line_start_at_least(list, k - 1);
    }
}

proof fn lemma_byte_len_at_least(s: Seq<char>)
    ensures
        bytes::byte_len(s) >= s.len(),
    decreases s.len(),
{
    if s.len() > 0 {
        lemma_byte_len_at_least(s.drop_last());
        assert(s =~= s.drop_last().push(s.last()));
        bytes::lemma_byte_len_push(s.drop_last(), s.last());
    }
}

/// The lines from `from` up to `to`, with line feeds between them
pub fn join_range(list: &Vec<String>, from: usize, to: usize) -> (joined: String)
    requires
        from <= to <= list@.len(),
    ensures
        joined@ == lines::join(text::views(list@).subrange(from as int, to as int), "\n"@),
{
    let ghost part = text::views(list@).subrange(from as int, to as int);
    let mut joined = String::new();
    let mut i: usize = from;
    while i < to
        invariant
            from <= i <= to <= list@.len(),
            part == text::views(list@).subrange(from as int, to as int),
            joined@ == lines::join(part.take(i - from), "\n"@),
        decreases to - i,
    {
        proof {
            assert(part.take(i + 1 - from).drop_last() =~= part.take(i - from));
            assert(part.take(i + 1 - from).last() == list@[i as int]@);
        }
        if i > from {
            joined.append("\n");
        }
        joined.append(list[i].as_str());
        proof {
            if i == from {
                assert(joined@ =~= list@[i as int]@);
            }
        }
        i = i + 1;
    }
    assert(part.take(i - from) =~= part);
    joined
}

/// The code blocks of a module's text, or why they can't be read
pub open spec fn extract_spec(module: Seq<char>, s: Seq<char>) -> Result<
    Seq<BlockModel>,
    Seq<char>,
> {
    let list = lines::split(s, '\n');
    match langs_spec(list) {
        Err(error) => Err(error),
        Ok(langs) => Ok(blocks_from(module, list, langs, 0, None, Seq::empty())),
    }
}

/// A module's code blocks
pub fn extract_blocks(module: &str, text: &str) -> (blocks: Result<Vec<Block>, String>)
    ensures
        match blocks {
            Ok(blocks) => extract_spec(module@, text@) == Ok::<_, Seq<char>>(
                block_models(blocks@),
            ),
            Err(error) => extract_spec(module@, text@) == Err::<Seq<BlockModel>, _>(error@),
        },
{
    let list = lines::split_text(text, '\n');
    let _ = bytes::byte_length(text);
    proof {
        lines::lemma_join_split(text@, '\n');
        lemma_langs_len(text::views(list@));
    }
    match source_langs(&list) {
        Err(error) => Err(error),
        Ok(langs) => {
            assert(langs@.len() == option_views(langs@).len());
            Ok(blocks_with_langs(module, &list, &langs))
        },
    }
}

// ---------------------------------------------------------------------------
// Rendering
// ---------------------------------------------------------------------------

/// A module's lines without its `//` comment lines, each with its line end
pub open spec fn without_comments(list: Seq<Seq<char>>, count: int) -> Seq<char>
    decreases count,
{
    if count <= 0 {
        Seq::empty()
    } else {
        let line = list[count - 1];
        let ended = if count < list.len() {
            line.push('\n')
        } else {
            line
        };
        if "//"@.is_prefix_of(ended) {
            without_comments(list, count - 1)
        } else {
            without_comments(list, count - 1) + ended
        }
    }
}

/// A module's text for rendering: its `//` comment lines removed
pub fn module_for_rendering(text: &str) -> (rendered: String)
    ensures
        rendered@ == without_comments(
            lines::split(text@, '\n'),
            lines::split(text@, '\n').len() as int,
        ),
{
    let list = lines::split_text(text, '\n');
    let ghost views = text::views(list@);
    let mut rendered = String::new();
    let mut i: usize = 0;
    while i < list.len()
        invariant
            i <= list@.len(),
            views == text::views(list@),
            rendered@ == without_comments(views, i as int),
        decreases list@.len() - i,
    {
        let mut ended = list[i].clone();
        if i + 1 < list.len() {
            ended.push('\n');
        }
        if !text::starts_with(ended.as_str(), "//") {
            rendered.append(ended.as_str());
        }
        i = i + 1;
    }
    rendered
}

// ---------------------------------------------------------------------------
// Laws
// ---------------------------------------------------------------------------

/// Whether blocks are numbered from 1 within each language, and named after that
pub open spec fn numbered(blocks: Seq<BlockModel>) -> bool {
    forall|k: int|
        0 <= k < blocks.len() ==> {
            let block = #[trigger] blocks[k];
            &&& block.seq == blocks_in(blocks.take(k), block.lang) + 1
            &&& block.reference == reference_spec(block.module, block.lang, block.seq)
            &&& block.content.len() > 0
            &&& block.content.last() == '\n'
        }
}

proof fn lemma_blocks_numbered(
    module: Seq<char>,
    list: Seq<Seq<char>>,
    langs: Seq<Option<Seq<char>>>,
    i: int,
    section: Option<Seq<char>>,
    done: Seq<BlockModel>,
)
    requires
        numbered(done),
    ensures
        numbered(blocks_from(module, list, langs, i, section, done)),
    decreases list.len() + 1 - i,
{
    if 0 <= i < list.len() {
        let under = match heading_spec(list[i]) {
            Some(title) => Some(title),
            None => section,
        };
        match langs[i] {
            None => {
                lemma_blocks_numbered(module, list, langs, i + 1, under, done);
            },
            Some(lang) => {
                lemma_delimiter_from(list, i + 1);
                if let Some(open) = delimiter_from(list, i + 1) {
                    lemma_delimiter_from(list, open + 1);
                    let close = match delimiter_from(list, open + 1) {
                        Some(close) => close,
                        None => list.len() as int,
                    };
                    let block = block_spec(module, lang, list, i, open + 1, close, under, done);
                    let next = done.push(block);
                    reveal_strlit("\n");
                    assert forall|k: int| 0 <= k < next.len() implies {
                        let one = #[trigger] next[k];
                        &&& one.seq == blocks_in(next.take(k), one.lang) + 1
                        &&& one.reference == reference_spec(one.module, one.lang, one.seq)
                        &&& one.content.len() > 0
                        &&& one.content.last() == '\n'
                    } by {
                        if k < done.len() {
                            assert(next[k] == done[k]);
                            assert(next.take(k) =~= done.take(k));
                        } else {
                            assert(next.take(k) =~= done);
                        }
                    }
                    lemma_blocks_numbered(module, list, langs, close + 1, under, next);
                }
            },
        }
    }
}

/// A module's blocks are numbered from 1 within each language, their references name
/// that position, and their content is whole lines
pub proof fn law_blocks_are_numbered(module: Seq<char>, s: Seq<char>)
    ensures
        extract_spec(module, s) matches Ok(blocks) ==> numbered(blocks),
{
    let list = lines::split(s, '\n');
    if let Ok(langs) = langs_spec(list) {
        lemma_blocks_numbered(module, list, langs, 0, None, Seq::empty());
    }
}

} // verus!
