//! Text: characters, words, searching and trimming.
//!
//! A text is modelled by the sequence of its characters. Functions here work on
//! characters; offsets in bytes are in [`crate::bytes`], lines in
//! [`crate::lines`] and numbers in [`crate::numbers`].

use vstd::prelude::*;

verus! {

/// `String::push` appends the given character to the end of the string.
pub assume_specification[ std::string::String::push ](string: &mut String, c: char)
    ensures
        final(string)@ == old(string)@.push(c),
;

// ---------------------------------------------------------------------------
// Kinds of characters
// ---------------------------------------------------------------------------

/// The characters with Unicode's `White_Space` property
pub open spec fn is_white(c: char) -> bool {
    ||| '\u{9}' <= c <= '\u{d}'
    ||| c == ' '
    ||| c == '\u{85}'
    ||| c == '\u{a0}'
    ||| c == '\u{1680}'
    ||| '\u{2000}' <= c <= '\u{200a}'
    ||| c == '\u{2028}'
    ||| c == '\u{2029}'
    ||| c == '\u{202f}'
    ||| c == '\u{205f}'
    ||| c == '\u{3000}'
}

pub open spec fn is_digit(c: char) -> bool {
    '0' <= c <= '9'
}

pub open spec fn is_alphanumeric(c: char) -> bool {
    ||| is_digit(c)
    ||| 'a' <= c <= 'z'
    ||| 'A' <= c <= 'Z'
}

/// A kind of character that runs of text are made of
#[derive(Clone, Copy, Debug, PartialEq, Eq, Structural)]
pub enum CharClass {
    /// Any whitespace
    White,
    /// A space or a tab
    Blank,
    /// A space
    Space,
    /// A line feed
    Newline,
    /// `0` to `9`
    Digit,
    /// What an option's name is made of: ASCII letters and digits, `-` and `_`
    Key,
    /// `=`
    Equals,
    /// `.`
    Dot,
    /// `*`
    Star,
    /// What a token of text is made of: `a` to `z`, digits and `_.$-`
    Token,
    /// Anything but whitespace
    Solid,
    /// A hexadecimal digit
    Hex,
    /// An ASCII letter or digit
    Alphanumeric,
    /// What a module's name is made of: ASCII letters and digits, `_`, `.` and `-`
    Module,
}

impl CharClass {
    pub open spec fn has(self, c: char) -> bool {
        match self {
            CharClass::White => is_white(c),
            CharClass::Blank => c == ' ' || c == '\t',
            CharClass::Space => c == ' ',
            CharClass::Newline => c == '\n',
            CharClass::Digit => is_digit(c),
            CharClass::Key => is_alphanumeric(c) || c == '-' || c == '_',
            CharClass::Equals => c == '=',
            CharClass::Dot => c == '.',
            CharClass::Star => c == '*',
            CharClass::Token => {
                ||| 'a' <= c <= 'z'
                ||| is_digit(c)
                ||| c == '_'
                ||| c == '.'
                ||| c == '$'
                ||| c == '-'
            },
            CharClass::Solid => !is_white(c),
            CharClass::Hex => is_digit(c) || 'a' <= c <= 'f' || 'A' <= c <= 'F',
            CharClass::Alphanumeric => is_alphanumeric(c),
            CharClass::Module => is_alphanumeric(c) || c == '_' || c == '.' || c == '-',
        }
    }

    /// Whether a character is of this kind
    pub fn contains(self, c: char) -> (found: bool)
        ensures
            found == self.has(c),
    {
        match self {
            CharClass::White => is_whitespace(c),
            CharClass::Blank => c == ' ' || c == '\t',
            CharClass::Space => c == ' ',
            CharClass::Newline => c == '\n',
            CharClass::Digit => '0' <= c && c <= '9',
            CharClass::Key => is_ascii_alphanumeric(c) || c == '-' || c == '_',
            CharClass::Equals => c == '=',
            CharClass::Dot => c == '.',
            CharClass::Star => c == '*',
            CharClass::Token => ('a' <= c && c <= 'z') || ('0' <= c && c <= '9') || c == '_' || c
                == '.' || c == '$' || c == '-',
            CharClass::Solid => !is_whitespace(c),
            CharClass::Hex => ('0' <= c && c <= '9') || ('a' <= c && c <= 'f') || ('A' <= c && c
                <= 'F'),
            CharClass::Alphanumeric => is_ascii_alphanumeric(c),
            CharClass::Module => is_ascii_alphanumeric(c) || c == '_' || c == '.' || c == '-',
        }
    }
}

/// Whether a character is whitespace
pub fn is_whitespace(c: char) -> (white: bool)
    ensures
        white == is_white(c),
{
    ('\u{9}' <= c && c <= '\u{d}') || c == ' ' || c == '\u{85}' || c == '\u{a0}' || c == '\u{1680}'
        || ('\u{2000}' <= c && c <= '\u{200a}') || c == '\u{2028}' || c == '\u{2029}' || c
        == '\u{202f}' || c == '\u{205f}' || c == '\u{3000}'
}

/// Whether a character is an ASCII letter or digit
pub fn is_ascii_alphanumeric(c: char) -> (found: bool)
    ensures
        found == is_alphanumeric(c),
{
    ('0' <= c && c <= '9') || ('a' <= c && c <= 'z') || ('A' <= c && c <= 'Z')
}

// ---------------------------------------------------------------------------
// Characters of a text
// ---------------------------------------------------------------------------

/// The texts of a list of strings
pub open spec fn views(strings: Seq<String>) -> Seq<Seq<char>> {
    Seq::new(strings.len(), |i: int| strings[i]@)
}

pub proof fn lemma_views_push(strings: Seq<String>, string: String)
    ensures
        views(strings.push(string)) == views(strings).push(string@),
{
    assert(views(strings.push(string)) =~= views(strings).push(string@));
}

/// The characters of a text
pub fn chars_of(text: &str) -> (chars: Vec<char>)
    ensures
        chars@ == text@,
{
    let mut chars: Vec<char> = Vec::new();
    for character in iter: text.chars()
        invariant
            chars@ == iter.seq().take(iter.index() as int),
            iter.seq() == text@,
    {
        chars.push(character);
    }
    chars
}

/// The text made of the characters from index `from` up to index `to`
pub fn text_of(chars: &Vec<char>, from: usize, to: usize) -> (text: String)
    requires
        from <= to <= chars@.len(),
    ensures
        text@ == chars@.subrange(from as int, to as int),
{
    let mut text = String::new();
    let mut i: usize = from;
    while i < to
        invariant
            from <= i <= to <= chars@.len(),
            text@ == chars@.subrange(from as int, i as int),
        decreases to - i,
    {
        text.push(chars[i]);
        proof {
            assert(chars@.subrange(from as int, i + 1) == chars@.subrange(
                from as int,
                i as int,
            ).push(chars@[i as int]));
        }
        i = i + 1;
    }
    text
}

/// Whether two texts are the same
pub fn same(first: &str, second: &str) -> (equal: bool)
    ensures
        equal == (first@ == second@),
{
    let one = first.as_bytes();
    let two = second.as_bytes();
    if one.len() != two.len() {
        return false;
    }
    let mut i: usize = 0;
    while i < one.len()
        invariant
            i <= one@.len(),
            one@.len() == two@.len(),
            one@ == vstd::utf8::encode_utf8(first@),
            two@ == vstd::utf8::encode_utf8(second@),
            forall|j: int| 0 <= j < i ==> one@[j] == two@[j],
        decreases one@.len() - i,
    {
        if one[i] != two[i] {
            return false;
        }
        i = i + 1;
    }
    proof {
        assert(one@ =~= two@);
        vstd::utf8::encode_utf8_decode_utf8(first@);
        vstd::utf8::encode_utf8_decode_utf8(second@);
    }
    true
}

/// The text there may be
pub open spec fn option_view(text: Option<String>) -> Option<Seq<char>> {
    match text {
        Some(text) => Some(text@),
        None => None,
    }
}

/// A copy of some texts
pub fn clone_texts(list: &Vec<String>) -> (copy: Vec<String>)
    ensures
        copy@ == list@,
{
    let mut copy: Vec<String> = Vec::new();
    let mut i: usize = 0;
    while i < list.len()
        invariant
            i <= list@.len(),
            copy@ == list@.take(i as int),
        decreases list@.len() - i,
    {
        copy.push(list[i].clone());
        assert(copy@ =~= list@.take(i + 1));
        i = i + 1;
    }
    assert(list@.take(i as int) =~= list@);
    copy
}

/// Whether `list` holds `text`
pub fn list_contains(list: &Vec<String>, text: &str) -> (found: bool)
    ensures
        found == views(list@).contains(text@),
{
    let mut i: usize = 0;
    while i < list.len()
        invariant
            i <= list@.len(),
            forall|j: int| 0 <= j < i ==> views(list@)[j] != text@,
        decreases list@.len() - i,
    {
        if same(list[i].as_str(), text) {
            assert(views(list@)[i as int] == text@);
            return true;
        }
        i = i + 1;
    }
    false
}

/// `before`, `middle` and `after` as one text
pub fn surround(before: &str, middle: &str, after: &str) -> (joined: String)
    ensures
        joined@ == before@ + middle@ + after@,
{
    let mut joined = before.to_owned();
    joined.append(middle);
    joined.append(after);
    joined
}

// ---------------------------------------------------------------------------
// Runs of characters, and trimming
// ---------------------------------------------------------------------------

/// The length of the run of `class` characters that `s` starts with
pub open spec fn span(s: Seq<char>, class: CharClass) -> nat
    decreases s.len(),
{
    if s.len() > 0 && class.has(s[0]) {
        1 + span(s.drop_first(), class)
    } else {
        0
    }
}

/// The length of the run of `class` characters that `s` ends with
pub open spec fn end_span(s: Seq<char>, class: CharClass) -> nat
    decreases s.len(),
{
    if s.len() > 0 && class.has(s.last()) {
        1 + end_span(s.drop_last(), class)
    } else {
        0
    }
}

/// A run stops at the end of the text, or before a character of another kind
pub proof fn lemma_span(s: Seq<char>, class: CharClass)
    ensures
        span(s, class) <= s.len(),
        forall|i: int| 0 <= i < span(s, class) ==> class.has(s[i]),
        span(s, class) < s.len() ==> !class.has(s[span(s, class) as int]),
    decreases s.len(),
{
    if s.len() > 0 && class.has(s[0]) {
        let rest = s.drop_first();
        lemma_span(rest, class);
        assert forall|i: int| 0 <= i < span(s, class) implies class.has(s[i]) by {
            if i > 0 {
                assert(s[i] == rest[i - 1]);
            }
        }
        if span(s, class) < s.len() {
            assert(s[span(s, class) as int] == rest[span(rest, class) as int]);
        }
    }
}

/// The run is as long as there are characters of its kind
pub proof fn lemma_span_is(s: Seq<char>, class: CharClass, n: int)
    requires
        0 <= n <= s.len(),
        forall|i: int| 0 <= i < n ==> class.has(s[i]),
        n < s.len() ==> !class.has(s[n]),
    ensures
        span(s, class) == n,
{
    lemma_span(s, class);
    let m = span(s, class) as int;
    if m < n {
        assert(class.has(s[m]));
    } else if n < m {
        assert(class.has(s[n]));
    }
}

pub proof fn lemma_end_span(s: Seq<char>, class: CharClass)
    ensures
        end_span(s, class) <= s.len(),
        forall|i: int| s.len() - end_span(s, class) <= i < s.len() ==> class.has(s[i]),
        end_span(s, class) < s.len() ==> !class.has(s[s.len() - end_span(s, class) - 1]),
    decreases s.len(),
{
    if s.len() > 0 && class.has(s.last()) {
        let rest = s.drop_last();
        lemma_end_span(rest, class);
        assert forall|i: int| s.len() - end_span(s, class) <= i < s.len() implies class.has(
            s[i],
        ) by {
            if i < s.len() - 1 {
                assert(s[i] == rest[i]);
            }
        }
        if end_span(s, class) < s.len() {
            let k = s.len() - end_span(s, class) - 1;
            assert(s[k] == rest[k]);
        }
    }
}

pub proof fn lemma_end_span_is(s: Seq<char>, class: CharClass, n: int)
    requires
        0 <= n <= s.len(),
        forall|i: int| s.len() - n <= i < s.len() ==> class.has(s[i]),
        n < s.len() ==> !class.has(s[s.len() - n - 1]),
    ensures
        end_span(s, class) == n,
{
    lemma_end_span(s, class);
    let m = end_span(s, class) as int;
    if m < n {
        assert(class.has(s[s.len() - m - 1]));
    } else if n < m {
        assert(class.has(s[s.len() - n - 1]));
    }
}

/// Where the run of `class` characters starting at index `from` stops
pub fn span_end(chars: &Vec<char>, from: usize, class: CharClass) -> (end: usize)
    requires
        from <= chars@.len(),
    ensures
        from <= end <= chars@.len(),
        end == from + span(chars@.skip(from as int), class),
{
    let mut end: usize = from;
    while end < chars.len() && class.contains(chars[end])
        invariant
            from <= end <= chars@.len(),
            forall|i: int| from <= i < end ==> class.has(chars@[i]),
        decreases chars@.len() - end,
    {
        end = end + 1;
    }
    proof {
        lemma_span_is(chars@.skip(from as int), class, end - from);
    }
    end
}

/// Where the run of `class` characters that the text ends with starts
pub fn end_span_start(chars: &Vec<char>, class: CharClass) -> (start: usize)
    ensures
        start <= chars@.len(),
        start == chars@.len() - end_span(chars@, class),
{
    let mut start: usize = chars.len();
    while start > 0 && class.contains(chars[start - 1])
        invariant
            start <= chars@.len(),
            forall|i: int| start <= i < chars@.len() ==> class.has(chars@[i]),
        decreases start,
    {
        start = start - 1;
    }
    proof {
        lemma_end_span_is(chars@, class, chars@.len() - start);
    }
    start
}

/// `s` without the `class` characters that it starts with
pub open spec fn after_run(s: Seq<char>, class: CharClass) -> Seq<char> {
    s.skip(span(s, class) as int)
}

pub proof fn lemma_after_run(s: Seq<char>, class: CharClass)
    ensures
        after_run(s, class).len() <= s.len(),
        after_run(s, class).len() > 0 ==> !class.has(after_run(s, class)[0]),
{
    lemma_span(s, class);
}

/// `s` without the `class` characters that it ends with
pub open spec fn before_end_run(s: Seq<char>, class: CharClass) -> Seq<char> {
    s.take(s.len() - end_span(s, class))
}

/// `s` without the whitespace around it
pub open spec fn trimmed(s: Seq<char>) -> Seq<char> {
    before_end_run(after_run(s, CharClass::White), CharClass::White)
}

/// `text` without the `class` characters that it starts with
pub fn trim_start(text: &str, class: CharClass) -> (rest: String)
    ensures
        rest@ == after_run(text@, class),
{
    let chars = chars_of(text);
    let from = span_end(&chars, 0, class);
    proof {
        assert(chars@.skip(0) == chars@);
        assert(chars@.subrange(from as int, chars@.len() as int) == chars@.skip(from as int));
    }
    text_of(&chars, from, chars.len())
}

/// `text` without the `class` characters that it ends with
pub fn trim_end(text: &str, class: CharClass) -> (rest: String)
    ensures
        rest@ == before_end_run(text@, class),
{
    let chars = chars_of(text);
    let to = end_span_start(&chars, class);
    proof {
        assert(chars@.subrange(0, to as int) == chars@.take(to as int));
    }
    text_of(&chars, 0, to)
}

/// `text` without the whitespace around it
pub fn trim(text: &str) -> (rest: String)
    ensures
        rest@ == trimmed(text@),
{
    let from_start = trim_start(text, CharClass::White);
    trim_end(from_start.as_str(), CharClass::White)
}

/// The longest runs of characters of a kind in `s`
pub open spec fn runs(s: Seq<char>, class: CharClass) -> Seq<Seq<char>>
    decreases s.len(),
{
    if s.len() == 0 {
        Seq::empty()
    } else {
        let head = runs(s.drop_last(), class);
        if !class.has(s.last()) {
            head
        } else if s.len() >= 2 && class.has(s[s.len() - 2]) {
            head.update(head.len() - 1, head.last().push(s.last()))
        } else {
            head.push(seq![s.last()])
        }
    }
}

/// The longest runs of characters of a kind in `s`
pub fn runs_of(s: &str, class: CharClass) -> (found: Vec<String>)
    ensures
        views(found@) == runs(s@, class),
{
    let chars = chars_of(s);
    let mut found: Vec<String> = Vec::new();
    let mut run = String::new();
    let mut in_run = false;
    let mut i: usize = 0;
    assert(views(found@) =~= runs(chars@.take(0), class));
    while i < chars.len()
        invariant
            i <= chars@.len(),
            in_run == (i > 0 && class.has(chars@[i - 1])),
            !in_run ==> views(found@) == runs(chars@.take(i as int), class),
            in_run ==> views(found@).push(run@) == runs(chars@.take(i as int), class),
        decreases chars@.len() - i,
    {
        let ghost next = chars@.take(i + 1);
        let ghost done = views(found@);
        proof {
            assert(next.drop_last() =~= chars@.take(i as int));
            assert(next.last() == chars@[i as int]);
            if i > 0 {
                assert(next[next.len() - 2] == chars@[i - 1]);
            }
        }
        if class.contains(chars[i]) {
            if in_run {
                let ghost before = done.push(run@);
                run.push(chars[i]);
                assert(before.update(before.len() - 1, run@) =~= done.push(run@));
                assert(before.last() == before[before.len() - 1]);
            } else {
                run = String::new();
                run.push(chars[i]);
                assert(run@ =~= seq![chars@[i as int]]);
            }
            in_run = true;
        } else {
            if in_run {
                proof {
                    lemma_views_push(found@, run);
                }
                found.push(run);
                run = String::new();
            }
            in_run = false;
        }
        i = i + 1;
    }
    assert(chars@.take(i as int) =~= chars@);
    if in_run {
        proof {
            lemma_views_push(found@, run);
        }
        found.push(run);
    }
    found
}

/// Whether all of `s` is of a kind
pub open spec fn all_of(s: Seq<char>, class: CharClass) -> bool {
    forall|i: int| 0 <= i < s.len() ==> class.has(#[trigger] s[i])
}

/// Whether all the characters of `s` are of a kind
pub fn is_all(s: &str, class: CharClass) -> (all: bool)
    ensures
        all == all_of(s@, class),
{
    let chars = chars_of(s);
    let mut i: usize = 0;
    while i < chars.len()
        invariant
            i <= chars@.len(),
            chars@ == s@,
            forall|k: int| 0 <= k < i ==> class.has(#[trigger] chars@[k]),
        decreases chars@.len() - i,
    {
        if !class.contains(chars[i]) {
            return false;
        }
        i = i + 1;
    }
    true
}

/// Whether `s` is empty or only whitespace
pub open spec fn is_blank(s: Seq<char>) -> bool {
    forall|i: int| 0 <= i < s.len() ==> is_white(#[trigger] s[i])
}

/// Whether `text` is empty or only whitespace
pub fn blank(text: &str) -> (found: bool)
    ensures
        found == is_blank(text@),
{
    let chars = chars_of(text);
    let end = span_end(&chars, 0, CharClass::White);
    proof {
        assert(chars@.skip(0) == chars@);
        lemma_span(chars@, CharClass::White);
        if end < chars@.len() {
            assert(!is_white(chars@[end as int]));
        } else {
            assert forall|i: int| 0 <= i < chars@.len() implies is_white(#[trigger] chars@[i]) by {
                assert(CharClass::White.has(chars@[i]));
            }
        }
    }
    end == chars.len()
}

// ---------------------------------------------------------------------------
// Searching
// ---------------------------------------------------------------------------

/// Whether `part` stands in `s` at index `i`
pub open spec fn occurs_at(s: Seq<char>, part: Seq<char>, i: int) -> bool {
    0 <= i <= s.len() - part.len() && s.subrange(i, i + part.len()) == part
}

/// Whether `part` stands anywhere in `s`
pub open spec fn occurs(s: Seq<char>, part: Seq<char>) -> bool {
    exists|i: int| occurs_at(s, part, i)
}

/// The index of the first place where `part` stands in `s`
pub open spec fn find_spec(s: Seq<char>, part: Seq<char>) -> Option<int>
    decreases s.len(),
{
    if part.is_prefix_of(s) {
        Some(0)
    } else if s.len() == 0 {
        None
    } else {
        match find_spec(s.drop_first(), part) {
            Some(i) => Some(i + 1),
            None => None,
        }
    }
}

/// The place found is the first where the part stands
pub proof fn lemma_find(s: Seq<char>, part: Seq<char>)
    ensures
        find_spec(s, part) matches Some(i) ==> occurs_at(s, part, i) && (forall|j: int|
            0 <= j < i ==> !occurs_at(s, part, j)),
        find_spec(s, part) is None ==> !occurs(s, part),
    decreases s.len(),
{
    if part.is_prefix_of(s) {
        assert(s.subrange(0, part.len() as int) =~= part);
    } else {
        assert(!occurs_at(s, part, 0)) by {
            if occurs_at(s, part, 0) {
                assert(part =~= s.take(part.len() as int));
                assert(part.is_prefix_of(s));
            }
        }
        if s.len() > 0 {
            let rest = s.drop_first();
            lemma_find(rest, part);
            assert forall|j: int| 1 <= j implies occurs_at(s, part, j) == occurs_at(
                rest,
                part,
                j - 1,
            ) by {
                if j + part.len() <= s.len() {
                    assert(s.subrange(j, j + part.len()) =~= rest.subrange(
                        j - 1,
                        j - 1 + part.len(),
                    ));
                }
            }
            match find_spec(rest, part) {
                Some(i) => {
                    assert(occurs_at(s, part, i + 1));
                    assert forall|j: int| 0 <= j < i + 1 implies !occurs_at(s, part, j) by {
                        if j > 0 {
                            assert(!occurs_at(rest, part, j - 1));
                        }
                    }
                },
                None => {
                    assert forall|j: int| !occurs_at(s, part, j) by {
                        if j > 0 {
                            assert(!occurs_at(rest, part, j - 1));
                        }
                    }
                },
            }
        } else {
            assert forall|j: int| !occurs_at(s, part, j) by {}
        }
    }
}

/// The first place where a part stands is the one found
pub proof fn lemma_find_is(s: Seq<char>, part: Seq<char>, i: int)
    requires
        occurs_at(s, part, i),
        forall|j: int| 0 <= j < i ==> !occurs_at(s, part, j),
    ensures
        find_spec(s, part) == Some(i),
{
    lemma_find(s, part);
    match find_spec(s, part) {
        Some(k) => {
            if k < i {
                assert(!occurs_at(s, part, k));
            } else if i < k {
                assert(!occurs_at(s, part, i));
            }
        },
        None => {
            assert(occurs(s, part));
        },
    }
}

/// Whether `part` stands in `chars` at index `at`
pub fn occurs_here(chars: &Vec<char>, part: &Vec<char>, at: usize) -> (found: bool)
    requires
        at <= chars@.len(),
    ensures
        found == occurs_at(chars@, part@, at as int),
{
    if part.len() > chars.len() - at {
        return false;
    }
    let mut i: usize = 0;
    while i < part.len()
        invariant
            i <= part@.len(),
            at + part@.len() <= chars@.len(),
            forall|j: int| 0 <= j < i ==> chars@[at + j] == part@[j],
        decreases part@.len() - i,
    {
        assert(at + i < chars.len());
        if chars[at + i] != part[i] {
            assert(chars@.subrange(at as int, at + part@.len())[i as int] == chars@[at + i]);
            return false;
        }
        i = i + 1;
    }
    assert(chars@.subrange(at as int, at + part@.len()) =~= part@);
    true
}

/// The index, in characters, of the first place where `part` stands in `text`
pub fn find(text: &str, part: &str) -> (found: Option<usize>)
    ensures
        match found {
            Some(i) => find_spec(text@, part@) == Some(i as int),
            None => find_spec(text@, part@) is None,
        },
{
    let chars = chars_of(text);
    let wanted = chars_of(part);
    assert(chars@.skip(0) =~= chars@);
    find_in(&chars, &wanted, 0)
}

/// The index of the first place from `from` on where `part` stands in `chars`
pub fn find_in(chars: &Vec<char>, part: &Vec<char>, from: usize) -> (found: Option<usize>)
    requires
        from <= chars@.len(),
    ensures
        match found {
            Some(i) => from <= i <= chars@.len() && find_spec(chars@.skip(from as int), part@)
                == Some(i - from),
            None => find_spec(chars@.skip(from as int), part@) is None,
        },
{
    let ghost rest = chars@.skip(from as int);
    let mut i: usize = from;
    loop
        invariant
            from <= i <= chars@.len(),
            rest == chars@.skip(from as int),
            forall|j: int| 0 <= j < i - from ==> !occurs_at(rest, part@, j),
        decreases chars@.len() - i,
    {
        let here = occurs_here(chars, part, i);
        proof {
            if i + part@.len() <= chars@.len() {
                assert(rest.subrange(i - from, i - from + part@.len()) =~= chars@.subrange(
                    i as int,
                    i + part@.len(),
                ));
            }
            assert(here == occurs_at(rest, part@, i - from));
        }
        if here {
            proof {
                lemma_find_is(rest, part@, i - from);
            }
            return Some(i);
        }
        if i == chars.len() {
            proof {
                lemma_find(rest, part@);
            }
            return None;
        }
        i = i + 1;
    }
}

/// Whether `part` stands anywhere in `text`
pub fn contains(text: &str, part: &str) -> (found: bool)
    ensures
        found == occurs(text@, part@),
{
    proof {
        lemma_find(text@, part@);
    }
    match find(text, part) {
        Some(_) => true,
        None => false,
    }
}

/// Whether `text` starts with `prefix`
pub fn starts_with(text: &str, prefix: &str) -> (found: bool)
    ensures
        found == prefix@.is_prefix_of(text@),
{
    let chars = chars_of(text);
    let wanted = chars_of(prefix);
    let found = occurs_here(&chars, &wanted, 0);
    proof {
        if wanted@.len() <= chars@.len() {
            assert(chars@.subrange(0, wanted@.len() as int) =~= chars@.take(wanted@.len() as int));
        }
        if found {
            assert(prefix@ =~= text@.take(prefix@.len() as int));
        }
    }
    found
}

/// Whether `text` ends with `suffix`
pub fn ends_with(text: &str, suffix: &str) -> (found: bool)
    ensures
        found == suffix@.is_suffix_of(text@),
{
    let chars = chars_of(text);
    let wanted = chars_of(suffix);
    if wanted.len() > chars.len() {
        return false;
    }
    let found = occurs_here(&chars, &wanted, chars.len() - wanted.len());
    proof {
        let at = chars@.len() - wanted@.len();
        assert(chars@.subrange(at, at + wanted@.len()) =~= chars@.skip(at));
    }
    found
}

/// `s` without `prefix`, when it starts with it
pub open spec fn without_prefix(s: Seq<char>, prefix: Seq<char>) -> Option<Seq<char>> {
    if prefix.is_prefix_of(s) {
        Some(s.skip(prefix.len() as int))
    } else {
        None
    }
}

/// `s` without `suffix`, when it ends with it
pub open spec fn without_suffix(s: Seq<char>, suffix: Seq<char>) -> Option<Seq<char>> {
    if suffix.is_suffix_of(s) {
        Some(s.take(s.len() - suffix.len()))
    } else {
        None
    }
}

/// `text` without `prefix`, when it starts with it
pub fn strip_prefix(text: &str, prefix: &str) -> (rest: Option<String>)
    ensures
        option_view(rest) == without_prefix(text@, prefix@),
{
    if starts_with(text, prefix) {
        let chars = chars_of(text);
        let from = chars_of(prefix).len();
        proof {
            assert(chars@.subrange(from as int, chars@.len() as int) =~= chars@.skip(from as int));
        }
        Some(text_of(&chars, from, chars.len()))
    } else {
        None
    }
}

/// `text` without `suffix`, when it ends with it
pub fn strip_suffix(text: &str, suffix: &str) -> (rest: Option<String>)
    ensures
        option_view(rest) == without_suffix(text@, suffix@),
{
    if ends_with(text, suffix) {
        let chars = chars_of(text);
        let to = chars.len() - chars_of(suffix).len();
        proof {
            assert(chars@.subrange(0, to as int) =~= chars@.take(to as int));
        }
        Some(text_of(&chars, 0, to))
    } else {
        None
    }
}

/// What stands before and after the first `separator` in `s`
pub open spec fn split_once_spec(s: Seq<char>, separator: Seq<char>) -> Option<
    (Seq<char>, Seq<char>),
> {
    match find_spec(s, separator) {
        Some(i) => Some((s.take(i), s.skip(i + separator.len()))),
        None => None,
    }
}

/// What stands before and after the first `separator` in `text`
pub fn split_once(text: &str, separator: &str) -> (parts: Option<(String, String)>)
    ensures
        match parts {
            Some((before, after)) => split_once_spec(text@, separator@) == Some((before@, after@)),
            None => split_once_spec(text@, separator@) is None,
        },
{
    let chars = chars_of(text);
    let wanted = chars_of(separator);
    match find(text, separator) {
        Some(at) => {
            proof {
                lemma_find(text@, separator@);
                assert(chars@.subrange(0, at as int) =~= chars@.take(at as int));
                assert(chars@.subrange(at + wanted@.len(), chars@.len() as int) =~= chars@.skip(
                    at + wanted@.len(),
                ));
            }
            assert(at + wanted.len() <= chars.len());
            Some((text_of(&chars, 0, at), text_of(&chars, at + wanted.len(), chars.len())))
        },
        None => None,
    }
}

// ---------------------------------------------------------------------------
// Replacing
// ---------------------------------------------------------------------------

/// `s` with `to` before and after each character
pub open spec fn interleaved(s: Seq<char>, to: Seq<char>) -> Seq<char>
    decreases s.len(),
{
    if s.len() == 0 {
        to
    } else {
        interleaved(s.drop_last(), to).push(s.last()) + to
    }
}

/// `s` with each `from` replaced by `to`, left to right
pub open spec fn replaced(s: Seq<char>, from: Seq<char>, to: Seq<char>) -> Seq<char>
    decreases s.len(),
{
    if from.len() == 0 {
        interleaved(s, to)
    } else {
        match find_spec(s, from) {
            Some(i) => if 0 <= i <= s.len() - from.len() {
                s.take(i) + to + replaced(s.skip(i + from.len()), from, to)
            } else {
                s
            },
            None => s,
        }
    }
}

/// `text` with each `from` replaced by `to`, left to right
pub fn replace(text: &str, from: &str, to: &str) -> (result: String)
    ensures
        result@ == replaced(text@, from@, to@),
{
    let chars = chars_of(text);
    let wanted = chars_of(from);
    let mut result = String::new();
    if wanted.len() == 0 {
        result.append(to);
        let mut i: usize = 0;
        assert(result@ =~= interleaved(chars@.take(0), to@));
        while i < chars.len()
            invariant
                i <= chars@.len(),
                result@ == interleaved(chars@.take(i as int), to@),
            decreases chars@.len() - i,
        {
            result.push(chars[i]);
            result.append(to);
            assert(chars@.take(i + 1).drop_last() =~= chars@.take(i as int));
            i = i + 1;
        }
        assert(chars@.take(i as int) =~= chars@);
        return result;
    }
    let mut at: usize = 0;
    assert(chars@.skip(0) =~= chars@);
    assert(result@ + replaced(chars@.skip(0), wanted@, to@) =~= replaced(chars@, wanted@, to@));
    loop
        invariant
            at <= chars@.len(),
            wanted@.len() > 0,
            wanted@ == from@,
            chars@ == text@,
            result@ + replaced(chars@.skip(at as int), wanted@, to@) == replaced(
                chars@,
                wanted@,
                to@,
            ),
        decreases chars@.len() - at,
    {
        let ghost rest = chars@.skip(at as int);
        match find_in(&chars, &wanted, at) {
            Some(found) => {
                let before = result.clone();
                proof {
                    lemma_find(rest, wanted@);
                }
                let gap = text_of(&chars, at, found);
                result.append(gap.as_str());
                result.append(to);
                proof {
                    assert(gap@ =~= rest.take(found - at));
                    assert(rest.skip(found - at + wanted@.len()) =~= chars@.skip(
                        found + wanted@.len(),
                    ));
                    assert(result@ + replaced(chars@.skip(found + wanted@.len()), wanted@, to@)
                        =~= before@ + replaced(rest, wanted@, to@));
                }
                assert(found + wanted.len() <= chars.len());
                at = found + wanted.len();
            },
            None => {
                let tail = text_of(&chars, at, chars.len());
                result.append(tail.as_str());
                assert(tail@ =~= rest);
                return result;
            },
        }
    }
}

// ---------------------------------------------------------------------------
// Distinct texts
// ---------------------------------------------------------------------------

/// The first of each of `names`
pub open spec fn unique(names: Seq<Seq<char>>) -> Seq<Seq<char>>
    decreases names.len(),
{
    if names.len() == 0 {
        Seq::empty()
    } else if unique(names.drop_last()).contains(names.last()) {
        unique(names.drop_last())
    } else {
        unique(names.drop_last()).push(names.last())
    }
}

/// Nothing is kept twice, and nothing is lost
pub proof fn law_unique(names: Seq<Seq<char>>)
    ensures
        unique(names).no_duplicates(),
        forall|name: Seq<char>| unique(names).contains(name) == names.contains(name),
    decreases names.len(),
{
    if names.len() > 0 {
        let head = names.drop_last();
        law_unique(head);
        assert(names =~= head.push(names.last()));
        assert forall|name: Seq<char>| unique(names).contains(name) == names.contains(name) by {
            assert(unique(head).contains(name) == head.contains(name));
            if unique(names).contains(name) {
                let k = choose|k: int| 0 <= k < unique(names).len() && unique(names)[k] == name;
                if k < unique(head).len() {
                    assert(unique(head)[k] == name);
                    assert(unique(head).contains(name));
                    let j = choose|j: int| 0 <= j < head.len() && head[j] == name;
                    assert(names[j] == name);
                } else {
                    assert(names[names.len() - 1] == name);
                }
            }
            if names.contains(name) {
                let k = choose|k: int| 0 <= k < names.len() && names[k] == name;
                if k < head.len() {
                    assert(head[k] == name);
                    assert(unique(head).contains(name));
                    let j = choose|j: int| 0 <= j < unique(head).len() && unique(head)[j] == name;
                    assert(unique(names)[j] == name);
                } else if !unique(head).contains(name) {
                    assert(unique(names)[unique(head).len() as int] == name);
                }
            }
        }
    }
}

// ---------------------------------------------------------------------------
// Order
// ---------------------------------------------------------------------------

/// Whether `first` comes before `second` in the order of their characters
pub open spec fn before(first: Seq<char>, second: Seq<char>) -> bool
    decreases first.len(),
{
    if second.len() == 0 {
        false
    } else if first.len() == 0 {
        true
    } else if first[0] != second[0] {
        first[0] < second[0]
    } else {
        before(first.drop_first(), second.drop_first())
    }
}

/// The order is total, and nothing comes before itself
pub proof fn lemma_before_total(first: Seq<char>, second: Seq<char>)
    ensures
        before(first, second) || before(second, first) || first == second,
        !(before(first, second) && before(second, first)),
        first == second ==> !before(first, second),
    decreases first.len(),
{
    if first.len() > 0 && second.len() > 0 && first[0] == second[0] {
        let (f, s) = (first.drop_first(), second.drop_first());
        lemma_before_total(f, s);
        if f == s {
            assert(first =~= seq![first[0]] + f);
            assert(second =~= seq![second[0]] + s);
        }
    } else if first.len() == 0 && second.len() == 0 {
        assert(first =~= second);
    }
}

/// The order is transitive
pub proof fn lemma_before_transitive(first: Seq<char>, second: Seq<char>, third: Seq<char>)
    requires
        before(first, second),
        before(second, third),
    ensures
        before(first, third),
    decreases first.len(),
{
    if first.len() > 0 && first[0] == second[0] && second[0] == third[0] {
        lemma_before_transitive(first.drop_first(), second.drop_first(), third.drop_first());
    }
}

/// Whether `first` comes before `second` in the order of their characters
pub fn comes_before(first: &str, second: &str) -> (earlier: bool)
    ensures
        earlier == before(first@, second@),
{
    let one = chars_of(first);
    let two = chars_of(second);
    let mut i: usize = 0;
    assert(one@.skip(0) =~= one@);
    assert(two@.skip(0) =~= two@);
    loop
        invariant
            i <= one@.len(),
            i <= two@.len(),
            one@ == first@,
            two@ == second@,
            before(one@.skip(i as int), two@.skip(i as int)) == before(one@, two@),
        decreases one@.len() - i,
    {
        if i == two.len() {
            return false;
        }
        if i == one.len() {
            return true;
        }
        if one[i] != two[i] {
            return one[i] < two[i];
        }
        assert(one@.skip(i as int).drop_first() =~= one@.skip(i + 1));
        assert(two@.skip(i as int).drop_first() =~= two@.skip(i + 1));
        i = i + 1;
    }
}

} // verus!
