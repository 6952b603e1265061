//! The options of a marker: how they are written, and reading them.
//!
//! ```text
//! remove-prefix: "<text>"               strip <text> from the start of the first line (after its indentation)
//! remove-suffix: "<text>"               strip <text> from the end of the last line
//! strip-line-prefix: "<text>"           strip <text> from the start of every line that has it
//! remove-lines-starting-with: "<text>"  drop lines whose text (after indentation) starts with <text>
//! remove-blank-lines                    drop lines that are empty or only whitespace
//! unindent-common                       remove the indentation all non-blank lines share
//! reindent: <from> -> <to>              turn each <from> spaces of leading indentation into <to>
//! param: "<text>"                       (code side only) <text> is a placeholder: it matches any value
//!                                       on its line in the doc, the same value everywhere it appears
//! ```
//!
//! They apply, in the order written, to the marked code; prefixed with `doc`, to
//! the doc blocks compared with it instead.

use crate::numbers;
use crate::text;
use crate::text::CharClass;
use vstd::prelude::*;

verus! {

/// What an option applies to
#[derive(Clone, Copy, Debug, PartialEq, Eq, Structural)]
pub enum OptionSide {
    Repo,
    Doc,
}

#[derive(Debug, PartialEq, Eq)]
pub enum OptionValue {
    Text(String),
    Reindent { from: usize, to: usize },
}

/// What an option's value is, as text and numbers
pub enum ValueModel {
    Text(Seq<char>),
    Reindent { from: nat, to: nat },
}

impl View for OptionValue {
    type V = ValueModel;

    open spec fn view(&self) -> ValueModel {
        match self {
            OptionValue::Text(text) => ValueModel::Text(text@),
            OptionValue::Reindent { from, to } => ValueModel::Reindent {
                from: *from as nat,
                to: *to as nat,
            },
        }
    }
}

impl Clone for OptionValue {
    fn clone(&self) -> (copy: Self)
        ensures
            copy == *self,
    {
        match self {
            OptionValue::Text(text) => OptionValue::Text(text.clone()),
            OptionValue::Reindent { from, to } => OptionValue::Reindent { from: *from, to: *to },
        }
    }
}

/// An option of a marker
#[derive(Debug, PartialEq, Eq)]
pub struct MarkerOption {
    pub key: String,
    pub value: Option<OptionValue>,
    pub side: OptionSide,
}

/// What an option says
pub struct OptionModel {
    pub key: Seq<char>,
    pub value: Option<ValueModel>,
    pub side: OptionSide,
}

/// What an optional value is
pub open spec fn value_view(value: Option<OptionValue>) -> Option<ValueModel> {
    match value {
        Some(value) => Some(value@),
        None => None,
    }
}

impl View for MarkerOption {
    type V = OptionModel;

    open spec fn view(&self) -> OptionModel {
        OptionModel { key: self.key@, value: value_view(self.value), side: self.side }
    }
}

impl Clone for MarkerOption {
    fn clone(&self) -> (copy: Self)
        ensures
            copy == *self,
    {
        let value = match &self.value {
            Some(value) => Some(value.clone()),
            None => None,
        };
        MarkerOption { key: self.key.clone(), value, side: self.side }
    }
}

/// What a list of options says
pub open spec fn models(options: Seq<MarkerOption>) -> Seq<OptionModel> {
    Seq::new(options.len(), |i: int| options[i]@)
}

pub proof fn lemma_models_push(options: Seq<MarkerOption>, option: MarkerOption)
    ensures
        models(options.push(option)) == models(options).push(option@),
{
    assert(models(options.push(option)) =~= models(options).push(option@));
}

/// A copy of a list of options
pub fn clone_options(options: &Vec<MarkerOption>) -> (copy: Vec<MarkerOption>)
    ensures
        copy@ == options@,
{
    let mut copy: Vec<MarkerOption> = Vec::new();
    let mut i: usize = 0;
    while i < options.len()
        invariant
            i <= options@.len(),
            copy@ == options@.take(i as int),
        decreases options@.len() - i,
    {
        copy.push(options[i].clone());
        i = i + 1;
    }
    assert(options@.take(i as int) =~= options@);
    copy
}

// ---------------------------------------------------------------------------
// The options there are
// ---------------------------------------------------------------------------

/// What kind of value an option takes
#[derive(Clone, Copy, Debug, PartialEq, Eq, Structural)]
pub enum OptionKind {
    Text,
    Flag,
    Numbers,
}

/// The kind of value the option named `key` takes; none when there is no such option
pub open spec fn kind_spec(key: Seq<char>) -> Option<OptionKind> {
    if key == "remove-prefix"@ || key == "remove-suffix"@ || key == "strip-line-prefix"@ || key
        == "remove-lines-starting-with"@ || key == "param"@ {
        Some(OptionKind::Text)
    } else if key == "unindent-common"@ || key == "remove-blank-lines"@ {
        Some(OptionKind::Flag)
    } else if key == "reindent"@ {
        Some(OptionKind::Numbers)
    } else {
        None
    }
}

pub fn option_kind(key: &str) -> (kind: Option<OptionKind>)
    ensures
        kind == kind_spec(key@),
{
    if text::same(key, "remove-prefix") || text::same(key, "remove-suffix") || text::same(
        key,
        "strip-line-prefix",
    ) || text::same(key, "remove-lines-starting-with") || text::same(key, "param") {
        Some(OptionKind::Text)
    } else if text::same(key, "unindent-common") || text::same(key, "remove-blank-lines") {
        Some(OptionKind::Flag)
    } else if text::same(key, "reindent") {
        Some(OptionKind::Numbers)
    } else {
        None
    }
}

// ---------------------------------------------------------------------------
// Writing options
// ---------------------------------------------------------------------------

/// `s` with a `\` before each `\` and `"`
pub open spec fn escaped(s: Seq<char>) -> Seq<char>
    decreases s.len(),
{
    if s.len() == 0 {
        Seq::empty()
    } else if s.last() == '\\' || s.last() == '"' {
        escaped(s.drop_last()).push('\\').push(s.last())
    } else {
        escaped(s.drop_last()).push(s.last())
    }
}

/// `s` in quotes
pub open spec fn quoted_spec(s: Seq<char>) -> Seq<char> {
    seq!['"'] + escaped(s) + seq!['"']
}

/// `text` in quotes, with a `\` before each `\` and `"` in it
pub fn quote(text: &str) -> (quoted: String)
    ensures
        quoted@ == quoted_spec(text@),
{
    let chars = text::chars_of(text);
    let mut quoted = String::new();
    quoted.push('"');
    let mut i: usize = 0;
    assert(quoted@ =~= seq!['"'] + escaped(chars@.take(0)));
    while i < chars.len()
        invariant
            i <= chars@.len(),
            quoted@ == seq!['"'] + escaped(chars@.take(i as int)),
        decreases chars@.len() - i,
    {
        let ghost before = quoted@;
        let c = chars[i];
        assert(chars@.take(i + 1).drop_last() =~= chars@.take(i as int));
        if c == '\\' || c == '"' {
            quoted.push('\\');
        }
        quoted.push(c);
        assert(quoted@ =~= seq!['"'] + escaped(chars@.take(i + 1)));
        i = i + 1;
    }
    assert(chars@.take(i as int) =~= chars@);
    quoted.push('"');
    assert(quoted@ =~= quoted_spec(text@));
    quoted
}

/// An option's value as written after its name
pub open spec fn value_text(value: Option<ValueModel>) -> Seq<char> {
    match value {
        None => Seq::empty(),
        Some(ValueModel::Reindent { from, to }) => ": "@ + numbers::decimal_spec(from) + " -> "@
            + numbers::decimal_spec(to),
        Some(ValueModel::Text(text)) => ": "@ + quoted_spec(text),
    }
}

/// What stands before an option's name
pub open spec fn side_text(side: OptionSide) -> Seq<char> {
    match side {
        OptionSide::Doc => "doc "@,
        OptionSide::Repo => Seq::empty(),
    }
}

/// An option as written on a marker
pub open spec fn option_text(option: OptionModel) -> Seq<char> {
    side_text(option.side) + option.key + value_text(option.value)
}

impl MarkerOption {
    /// An option with a text value
    pub fn text(key: &str, value: &str, side: OptionSide) -> (option: Self)
        ensures
            option@ == (OptionModel {
                key: key@,
                value: Some(ValueModel::Text(value@)),
                side,
            }),
    {
        MarkerOption {
            key: key.to_owned(),
            value: Some(OptionValue::Text(value.to_owned())),
            side,
        }
    }

    /// The option's text; empty when its value is no text
    pub fn text_value(&self) -> (value: &str)
        ensures
            value@ == text_value_of(self@),
    {
        match &self.value {
            Some(OptionValue::Text(text)) => text.as_str(),
            _ => {
                proof {
                    reveal_strlit("");
                    assert(""@ =~= Seq::empty());
                }
                ""
            },
        }
    }

    /// As written on a marker
    pub fn marker_text(&self) -> (written: String)
        ensures
            written@ == option_text(self@),
    {
        let mut written = String::new();
        if self.side == OptionSide::Doc {
            written.append("doc ");
            assert(written@ =~= "doc "@);
        }
        written.append(self.key.as_str());
        match &self.value {
            None => {
                assert(written@ + Seq::<char>::empty() =~= written@);
            },
            Some(OptionValue::Reindent { from, to }) => {
                let from_digits = numbers::decimal(*from);
                let to_digits = numbers::decimal(*to);
                let ghost head = written@;
                written.append(": ");
                written.append(from_digits.as_str());
                written.append(" -> ");
                written.append(to_digits.as_str());
                assert(written@ =~= head + value_text(self@.value));
            },
            Some(OptionValue::Text(text)) => {
                let quoted = quote(text.as_str());
                let ghost head = written@;
                written.append(": ");
                written.append(quoted.as_str());
                assert(written@ =~= head + value_text(self@.value));
            },
        }
        written
    }
}

/// An option's text; empty when its value is no text
pub open spec fn text_value_of(option: OptionModel) -> Seq<char> {
    match option.value {
        Some(ValueModel::Text(text)) => text,
        _ => Seq::empty(),
    }
}

// ---------------------------------------------------------------------------
// Reading options
// ---------------------------------------------------------------------------

/// `s` without the whitespace that it starts with
pub open spec fn skip_white(s: Seq<char>) -> Seq<char> {
    text::after_run(s, CharClass::White)
}

/// Reads option text a character at a time
pub struct OptionCursor {
    chars: Vec<char>,
    position: usize,
}

impl View for OptionCursor {
    type V = Seq<char>;

    /// The text not read yet
    closed spec fn view(&self) -> Seq<char> {
        self.chars@.skip(self.position as int)
    }
}

impl OptionCursor {
    pub closed spec fn wf(self) -> bool {
        self.position <= self.chars@.len()
    }

    /// A cursor at the start of `text`
    pub fn new(text: &str) -> (cursor: Self)
        ensures
            cursor.wf(),
            cursor@ == text@,
    {
        let chars = text::chars_of(text);
        assert(chars@.skip(0) =~= chars@);
        OptionCursor { chars, position: 0 }
    }

    /// The next character
    pub fn peek(&self) -> (next: Option<char>)
        requires
            self.wf(),
        ensures
            next == (if self@.len() > 0 {
                Some(self@[0])
            } else {
                None
            }),
    {
        if self.position < self.chars.len() {
            Some(self.chars[self.position])
        } else {
            None
        }
    }

    /// Reads one character, when it is `expected`
    pub fn eat(&mut self, expected: char) -> (found: bool)
        requires
            old(self).wf(),
        ensures
            final(self).wf(),
            found == (old(self)@.len() > 0 && old(self)@[0] == expected),
            final(self)@ == (if found {
                old(self)@.skip(1)
            } else {
                old(self)@
            }),
    {
        let found = self.position < self.chars.len() && self.chars[self.position] == expected;
        if found {
            self.position = self.position + 1;
            assert(self@ =~= old(self)@.skip(1));
        }
        found
    }

    /// Reads `expected`, when that comes next
    pub fn eat_str(&mut self, expected: &str) -> (found: bool)
        requires
            old(self).wf(),
        ensures
            final(self).wf(),
            found == expected@.is_prefix_of(old(self)@),
            final(self)@ == (if found {
                old(self)@.skip(expected@.len() as int)
            } else {
                old(self)@
            }),
    {
        let wanted = text::chars_of(expected);
        let found = text::occurs_here(&self.chars, &wanted, self.position);
        proof {
            let at = self.position as int;
            let n = wanted@.len() as int;
            if at + n <= self.chars@.len() {
                assert(self.chars@.subrange(at, at + n) =~= self@.take(n));
            }
            if found {
                assert(expected@ =~= self@.take(n));
            }
        }
        if found {
            assert(self.position + wanted.len() <= self.chars.len());
            self.position = self.position + wanted.len();
            assert(self@ =~= old(self)@.skip(expected@.len() as int));
        }
        found
    }

    /// Reads the `class` characters that come next
    pub fn take_while(&mut self, class: CharClass) -> (taken: String)
        requires
            old(self).wf(),
        ensures
            final(self).wf(),
            taken@ == old(self)@.take(text::span(old(self)@, class) as int),
            final(self)@ == text::after_run(old(self)@, class),
    {
        let end = text::span_end(&self.chars, self.position, class);
        let taken = text::text_of(&self.chars, self.position, end);
        proof {
            text::lemma_span(self@, class);
            assert(taken@ =~= self@.take(text::span(self@, class) as int));
        }
        self.position = end;
        assert(self@ =~= text::after_run(old(self)@, class));
        taken
    }

    /// Reads whitespace
    pub fn skip_whitespace(&mut self)
        requires
            old(self).wf(),
        ensures
            final(self).wf(),
            final(self)@ == skip_white(old(self)@),
    {
        let _ = self.take_while(CharClass::White);
    }

    /// Whether everything was read
    pub fn at_end(&self) -> (ended: bool)
        requires
            self.wf(),
        ensures
            ended == (self@.len() == 0),
    {
        self.position == self.chars.len()
    }

    /// The text not read yet
    pub fn remaining(&self) -> (rest: String)
        requires
            self.wf(),
        ensures
            rest@ == self@,
    {
        let rest = text::text_of(&self.chars, self.position, self.chars.len());
        assert(rest@ =~= self@);
        rest
    }

    /// `"value"`, with `\` escaping the next character
    pub fn quoted_value(&mut self, key: &str) -> (value: Result<String, String>)
        requires
            old(self).wf(),
        ensures
            final(self).wf(),
            match value {
                Ok(value) => quoted_value_spec(old(self)@, key@) == Ok::<_, Seq<char>>(
                    (value@, final(self)@),
                ),
                Err(error) => quoted_value_spec(old(self)@, key@) == Err::<
                    (Seq<char>, Seq<char>),
                    _,
                >(error@),
            },
    {
        if !self.eat('"') {
            return Err(text::surround("the value of \"", key, "\" must be quoted"));
        }
        let ghost start = self@;
        let mut value = String::new();
        proof {
            if let Some((v, _)) = unquoted(start) {
                assert(value@ + v =~= v);
            }
        }
        loop
            invariant
                self.wf(),
                old(self)@.len() > 0,
                old(self)@[0] == '"',
                start == old(self)@.skip(1),
                unquoted(start) == match unquoted(self@) {
                    Some((v, rest)) => Some((value@ + v, rest)),
                    None => None,
                },
            decreases self@.len(),
        {
            let ghost here = self@;
            let ghost read = value@;
            match self.peek() {
                None => {
                    return Err(text::surround("unterminated value for \"", key, "\""));
                },
                Some(c) => {
                    if c == '"' {
                        let _ = self.eat('"');
                        assert(value@ + Seq::<char>::empty() =~= value@);
                        return Ok(value);
                    }
                    let _ = self.eat(c);
                    let mut character = c;
                    if c == '\\' {
                        match self.peek() {
                            None => {
                                return Err(text::surround("unterminated value for \"", key, "\""));
                            },
                            Some(escaped_character) => {
                                character = escaped_character;
                                let _ = self.eat(escaped_character);
                            },
                        }
                        assert(here.skip(1).skip(1) =~= here.skip(2));
                        assert(here.skip(1)[0] == here[1]);
                    }
                    value.push(character);
                    proof {
                        if let Some((v, _)) = unquoted(self@) {
                            assert(read.push(character) + v =~= read + (seq![character] + v));
                        }
                    }
                },
            }
        }
    }

    /// A number
    pub fn number(&mut self) -> (number: Option<usize>)
        requires
            old(self).wf(),
        ensures
            final(self).wf(),
            match number {
                Some(number) => number_spec(old(self)@) == Some(number as nat),
                None => number_spec(old(self)@) is None,
            },
            final(self)@ == text::after_run(old(self)@, CharClass::Digit),
    {
        let digits = self.take_while(CharClass::Digit);
        proof {
            text::lemma_span(old(self)@, CharClass::Digit);
            assert forall|i: int| 0 <= i < digits@.len() implies text::is_digit(
                #[trigger] digits@[i],
            ) by {
                assert(CharClass::Digit.has(old(self)@[i]));
            }
        }
        numbers::parse_digits(digits.as_str(), usize::MAX)
    }
}

/// The number `s` starts with
pub open spec fn number_spec(s: Seq<char>) -> Option<nat> {
    numbers::parse_spec(numbers::leading_digits(s), usize::MAX as nat)
}

/// The value up to the closing quote, with `\` escaping the next character, and
/// what follows the quote; none without a closing quote
pub open spec fn unquoted(s: Seq<char>) -> Option<(Seq<char>, Seq<char>)>
    decreases s.len(),
{
    if s.len() == 0 {
        None
    } else if s[0] == '"' {
        Some((Seq::empty(), s.skip(1)))
    } else if s[0] == '\\' {
        if s.len() < 2 {
            None
        } else {
            match unquoted(s.skip(2)) {
                Some((value, rest)) => Some((seq![s[1]] + value, rest)),
                None => None,
            }
        }
    } else {
        match unquoted(s.skip(1)) {
            Some((value, rest)) => Some((seq![s[0]] + value, rest)),
            None => None,
        }
    }
}

/// A quoted value and what follows it, or what is wrong with it
pub open spec fn quoted_value_spec(s: Seq<char>, key: Seq<char>) -> Result<
    (Seq<char>, Seq<char>),
    Seq<char>,
> {
    if !(s.len() > 0 && s[0] == '"') {
        Err("the value of \""@ + key + "\" must be quoted"@)
    } else {
        match unquoted(s.skip(1)) {
            Some((value, rest)) => Ok((value, rest)),
            None => Err("unterminated value for \""@ + key + "\""@),
        }
    }
}

/// The side that is named before an option's name, and what follows it
pub open spec fn side_spec(s: Seq<char>) -> (OptionSide, Seq<char>) {
    if "doc"@.is_prefix_of(s) && s.len() > "doc"@.len() && text::is_white(s["doc"@.len() as int]) {
        (OptionSide::Doc, skip_white(s.skip("doc"@.len() as int)))
    } else {
        (OptionSide::Repo, s)
    }
}

/// `doc ` before an option's name makes it apply to the doc side
pub fn parse_side(cursor: &mut OptionCursor) -> (side: OptionSide)
    requires
        old(cursor).wf(),
    ensures
        final(cursor).wf(),
        side_spec(old(cursor)@) == (side, final(cursor)@),
{
    let rest = cursor.remaining();
    let on_doc = match text::strip_prefix(rest.as_str(), "doc") {
        Some(after_doc) => {
            let after = text::chars_of(after_doc.as_str());
            after.len() > 0 && text::is_whitespace(after[0])
        },
        None => false,
    };
    if !on_doc {
        return OptionSide::Repo;
    }
    let _ = cursor.eat_str("doc");
    cursor.skip_whitespace();
    OptionSide::Doc
}

/// What follows the `:` between an option's name and its value
pub open spec fn value_start_spec(s: Seq<char>, key: Seq<char>) -> Result<Seq<char>, Seq<char>> {
    if s.len() > 0 && s[0] == ':' {
        Ok(skip_white(s.skip(1)))
    } else {
        Err("\""@ + key + "\" needs a value"@)
    }
}

/// The `:` between an option's name and its value
pub fn expect_value(cursor: &mut OptionCursor, key: &str) -> (found: Result<(), String>)
    requires
        old(cursor).wf(),
    ensures
        final(cursor).wf(),
        match found {
            Ok(_) => value_start_spec(old(cursor)@, key@) == Ok::<_, Seq<char>>(final(cursor)@),
            Err(error) => value_start_spec(old(cursor)@, key@) == Err::<Seq<char>, _>(error@),
        },
{
    if !cursor.eat(':') {
        return Err(text::surround("\"", key, "\" needs a value"));
    }
    cursor.skip_whitespace();
    Ok(())
}

/// A text value and what follows it, or what is wrong with it
pub open spec fn text_value_spec(s: Seq<char>, key: Seq<char>) -> Result<
    (ValueModel, Seq<char>),
    Seq<char>,
> {
    match quoted_value_spec(s, key) {
        Err(error) => Err(error),
        Ok((value, rest)) => if value.len() == 0 {
            Err("\""@ + key + "\" needs a non-empty value"@)
        } else if key == "param"@ && "->"@.is_prefix_of(skip_white(rest)) {
            Err("\"param\" takes only the placeholder, e.g. param: \"<NODES_MTU>\""@)
        } else {
            Ok((ValueModel::Text(value), skip_white(rest)))
        },
    }
}

pub fn parse_text_value(cursor: &mut OptionCursor, key: &str) -> (value: Result<
    OptionValue,
    String,
>)
    requires
        old(cursor).wf(),
    ensures
        final(cursor).wf(),
        match value {
            Ok(value) => text_value_spec(old(cursor)@, key@) == Ok::<_, Seq<char>>(
                (value@, final(cursor)@),
            ),
            Err(error) => text_value_spec(old(cursor)@, key@) == Err::<
                (ValueModel, Seq<char>),
                _,
            >(error@),
        },
{
    let value = match cursor.quoted_value(key) {
        Ok(value) => value,
        Err(error) => {
            return Err(error);
        },
    };
    if text::chars_of(value.as_str()).len() == 0 {
        return Err(text::surround("\"", key, "\" needs a non-empty value"));
    }
    cursor.skip_whitespace();
    if text::same(key, "param") && text::starts_with(cursor.remaining().as_str(), "->") {
        return Err(
            "\"param\" takes only the placeholder, e.g. param: \"<NODES_MTU>\"".to_owned(),
        );
    }
    Ok(OptionValue::Text(value))
}

/// How the value of `reindent` is written
pub open spec fn reindent_usage(key: Seq<char>) -> Seq<char> {
    "\""@ + key + "\" takes \"<from> -> <to>\", e.g. \""@ + key + ": 4 -> 2\""@
}

/// `<from> -> <to>` and what follows it, or what is wrong with it
pub open spec fn reindent_spec(s: Seq<char>, key: Seq<char>) -> Result<
    (ValueModel, Seq<char>),
    Seq<char>,
> {
    let arrow = skip_white(text::after_run(s, CharClass::Digit));
    let second = skip_white(arrow.skip("->"@.len() as int));
    match (number_spec(s), number_spec(second)) {
        (Some(from), Some(to)) => if from > 0 && "->"@.is_prefix_of(arrow) {
            Ok((ValueModel::Reindent { from, to }, text::after_run(second, CharClass::Digit)))
        } else {
            Err(reindent_usage(key))
        },
        _ => Err(reindent_usage(key)),
    }
}

fn reindent_usage_text(key: &str) -> (usage: String)
    ensures
        usage@ == reindent_usage(key@),
{
    let mut usage = text::surround("\"", key, "\" takes \"<from> -> <to>\", e.g. \"");
    usage.append(key);
    usage.append(": 4 -> 2\"");
    usage
}

/// `<from> -> <to>`
pub fn parse_reindent(cursor: &mut OptionCursor, key: &str) -> (value: Result<OptionValue, String>)
    requires
        old(cursor).wf(),
    ensures
        final(cursor).wf(),
        match value {
            Ok(value) => reindent_spec(old(cursor)@, key@) == Ok::<_, Seq<char>>(
                (value@, final(cursor)@),
            ),
            Err(error) => reindent_spec(old(cursor)@, key@) == Err::<(ValueModel, Seq<char>), _>(
                error@,
            ),
        },
{
    let from = match cursor.number() {
        Some(from) => from,
        None => {
            return Err(reindent_usage_text(key));
        },
    };
    if from == 0 {
        return Err(reindent_usage_text(key));
    }
    cursor.skip_whitespace();
    if !cursor.eat_str("->") {
        return Err(reindent_usage_text(key));
    }
    cursor.skip_whitespace();
    match cursor.number() {
        Some(to) => Ok(OptionValue::Reindent { from, to }),
        None => Err(reindent_usage_text(key)),
    }
}

/// An option's value and what follows it, or what is wrong with it
pub open spec fn value_spec(s: Seq<char>, key: Seq<char>, kind: OptionKind) -> Result<
    (Option<ValueModel>, Seq<char>),
    Seq<char>,
> {
    match kind {
        OptionKind::Flag => if s.len() > 0 && s[0] == ':' {
            Err("\""@ + key + "\" takes no value"@)
        } else {
            Ok((None, s))
        },
        OptionKind::Text => match value_start_spec(s, key) {
            Err(error) => Err(error),
            Ok(start) => match text_value_spec(start, key) {
                Err(error) => Err(error),
                Ok((value, rest)) => Ok((Some(value), rest)),
            },
        },
        OptionKind::Numbers => match value_start_spec(s, key) {
            Err(error) => Err(error),
            Ok(start) => match reindent_spec(start, key) {
                Err(error) => Err(error),
                Ok((value, rest)) => Ok((Some(value), rest)),
            },
        },
    }
}

/// `| [doc] key[: value]` and what follows it, or what is wrong with it
pub open spec fn option_spec(s: Seq<char>) -> Result<(OptionModel, Seq<char>), Seq<char>> {
    if !(s.len() > 0 && s[0] == '|') {
        Err("expected \"|\" before \""@ + s + "\""@)
    } else {
        let (side, named) = side_spec(skip_white(s.skip(1)));
        let key = named.take(text::span(named, CharClass::Key) as int);
        let after_key = text::after_run(named, CharClass::Key);
        if key.len() == 0 {
            Err("expected an option name at \""@ + after_key + "\""@)
        } else {
            match kind_spec(key) {
                None => Err("unknown option \""@ + key + "\""@),
                Some(kind) => if side == OptionSide::Doc && key == "param"@ {
                    Err("\"param\" only applies to the repo side"@)
                } else {
                    match value_spec(skip_white(after_key), key, kind) {
                        Err(error) => Err(error),
                        Ok((value, rest)) => Ok((OptionModel { key, value, side }, rest)),
                    }
                },
            }
        }
    }
}

/// `| [doc] key[: value]`
pub fn parse_option(cursor: &mut OptionCursor) -> (option: Result<MarkerOption, String>)
    requires
        old(cursor).wf(),
    ensures
        final(cursor).wf(),
        match option {
            Ok(option) => option_spec(old(cursor)@) == Ok::<_, Seq<char>>(
                (option@, final(cursor)@),
            ),
            Err(error) => option_spec(old(cursor)@) == Err::<(OptionModel, Seq<char>), _>(error@),
        },
{
    if !cursor.eat('|') {
        return Err(
            text::surround("expected \"|\" before \"", cursor.remaining().as_str(), "\""),
        );
    }
    cursor.skip_whitespace();
    let side = parse_side(cursor);
    let key = cursor.take_while(CharClass::Key);
    if text::chars_of(key.as_str()).len() == 0 {
        return Err(
            text::surround("expected an option name at \"", cursor.remaining().as_str(), "\""),
        );
    }
    let kind = match option_kind(key.as_str()) {
        Some(kind) => kind,
        None => {
            return Err(text::surround("unknown option \"", key.as_str(), "\""));
        },
    };
    if side == OptionSide::Doc && text::same(key.as_str(), "param") {
        return Err("\"param\" only applies to the repo side".to_owned());
    }
    cursor.skip_whitespace();
    let value = match kind {
        OptionKind::Flag => {
            if cursor.peek() == Some(':') {
                return Err(text::surround("\"", key.as_str(), "\" takes no value"));
            }
            None
        },
        OptionKind::Text => {
            if let Err(error) = expect_value(cursor, key.as_str()) {
                return Err(error);
            }
            match parse_text_value(cursor, key.as_str()) {
                Ok(value) => Some(value),
                Err(error) => {
                    return Err(error);
                },
            }
        },
        OptionKind::Numbers => {
            if let Err(error) = expect_value(cursor, key.as_str()) {
                return Err(error);
            }
            match parse_reindent(cursor, key.as_str()) {
                Ok(value) => Some(value),
                Err(error) => {
                    return Err(error);
                },
            }
        },
    };
    Ok(MarkerOption { key, value, side })
}

proof fn lemma_unquoted_shorter(s: Seq<char>)
    ensures
        unquoted(s) matches Some((_, rest)) ==> rest.len() < s.len(),
    decreases s.len(),
{
    if s.len() > 0 && s[0] != '"' {
        if s[0] == '\\' {
            if s.len() >= 2 {
                lemma_unquoted_shorter(s.skip(2));
            }
        } else {
            lemma_unquoted_shorter(s.skip(1));
        }
    }
}

/// Reading an option uses up text
pub proof fn lemma_option_shorter(s: Seq<char>)
    ensures
        option_spec(s) matches Ok((_, rest)) ==> rest.len() < s.len(),
{
    if s.len() > 0 && s[0] == '|' {
        let t = skip_white(s.skip(1));
        text::lemma_after_run(s.skip(1), CharClass::White);
        text::lemma_after_run(t.skip("doc"@.len() as int), CharClass::White);
        let (side, named) = side_spec(t);
        assert(named.len() <= t.len());
        text::lemma_span(named, CharClass::Key);
        let key = named.take(text::span(named, CharClass::Key) as int);
        let after_key = text::after_run(named, CharClass::Key);
        let at = skip_white(after_key);
        text::lemma_after_run(after_key, CharClass::White);
        if at.len() > 0 {
            let start = skip_white(at.skip(1));
            text::lemma_after_run(at.skip(1), CharClass::White);
            if start.len() > 0 {
                lemma_unquoted_shorter(start.skip(1));
            }
            if let Ok((_, rest)) = quoted_value_spec(start, key) {
                text::lemma_after_run(rest, CharClass::White);
            }
            text::lemma_after_run(start, CharClass::Digit);
            let arrow = skip_white(text::after_run(start, CharClass::Digit));
            text::lemma_after_run(text::after_run(start, CharClass::Digit), CharClass::White);
            if "->"@.is_prefix_of(arrow) {
                let second = skip_white(arrow.skip("->"@.len() as int));
                text::lemma_after_run(arrow.skip("->"@.len() as int), CharClass::White);
                text::lemma_after_run(second, CharClass::Digit);
            }
        }
    }
}

/// `| key: "value" | flag ...`: the options, or what is wrong with the first bad one
pub open spec fn options_spec(s: Seq<char>) -> Result<Seq<OptionModel>, Seq<char>>
    decreases s.len(),
{
    let here = skip_white(s);
    if here.len() == 0 {
        Ok(Seq::empty())
    } else {
        match option_spec(here) {
            Err(error) => Err(error),
            Ok((option, rest)) => {
                proof {
                    text::lemma_after_run(s, CharClass::White);
                    lemma_option_shorter(here);
                }
                with_first(option, options_spec(rest))
            },
        }
    }
}

/// More options, with one before them
pub open spec fn with_first(
    first: OptionModel,
    others: Result<Seq<OptionModel>, Seq<char>>,
) -> Result<Seq<OptionModel>, Seq<char>> {
    match others {
        Ok(others) => Ok(seq![first] + others),
        Err(error) => Err(error),
    }
}

/// More options, with some before them
pub open spec fn with_before(
    first: Seq<OptionModel>,
    others: Result<Seq<OptionModel>, Seq<char>>,
) -> Result<Seq<OptionModel>, Seq<char>> {
    match others {
        Ok(others) => Ok(first + others),
        Err(error) => Err(error),
    }
}

/// `| key: "value" | flag ...`
pub fn parse_options(options_text: &str) -> (options: Result<Vec<MarkerOption>, String>)
    ensures
        match options {
            Ok(options) => options_spec(options_text@) == Ok::<_, Seq<char>>(models(options@)),
            Err(error) => options_spec(options_text@) == Err::<Seq<OptionModel>, _>(error@),
        },
{
    let mut cursor = OptionCursor::new(options_text);
    let mut options: Vec<MarkerOption> = Vec::new();
    proof {
        if let Ok(all) = options_spec(cursor@) {
            assert(models(options@) + all =~= all);
        }
    }
    loop
        invariant
            cursor.wf(),
            options_spec(options_text@) == with_before(models(options@), options_spec(cursor@)),
        decreases cursor@.len(),
    {
        let ghost before = cursor@;
        let ghost read = models(options@);
        cursor.skip_whitespace();
        if cursor.at_end() {
            assert(models(options@) + Seq::<OptionModel>::empty() =~= models(options@));
            return Ok(options);
        }
        proof {
            text::lemma_after_run(before, CharClass::White);
            lemma_option_shorter(cursor@);
        }
        match parse_option(&mut cursor) {
            Err(error) => {
                return Err(error);
            },
            Ok(option) => {
                proof {
                    lemma_models_push(options@, option);
                    if let Ok(others) = options_spec(cursor@) {
                        assert(read + (seq![option@] + others) =~= read.push(option@) + others);
                    }
                }
                options.push(option);
            },
        }
    }
}

} // verus!
