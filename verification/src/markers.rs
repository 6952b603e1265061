//! Markers in repo files, in `#` comments:
//!
//! ```text
//! # @docs-as-code: file [| <option>]...
//! # @docs-as-code: start section "<name>" [| <option>]...
//! # @docs-as-code: end section "<name>"
//! ```
//!
//! Options may also continue on the comment lines right after a file or start
//! marker that begin with `|`.

use crate::bytes;
use crate::lines;
use crate::numbers;
use crate::options;
use crate::options::MarkerOption;
use crate::options::OptionModel;
use crate::text;
use crate::text::CharClass;
use vstd::prelude::*;

verus! {

pub const MARKER_PREFIX: &'static str = "@docs-as-code:";

/// A file marker's text
pub open spec fn file_marker_text() -> Seq<char> {
    MARKER_PREFIX@ + " file"@
}

pub open spec fn section_start_text(name: Seq<char>) -> Seq<char> {
    MARKER_PREFIX@ + " start section \""@ + name + "\""@
}

pub open spec fn section_end_text(name: Seq<char>) -> Seq<char> {
    MARKER_PREFIX@ + " end section \""@ + name + "\""@
}

pub fn file_marker() -> (marker: String)
    ensures
        marker@ == file_marker_text(),
{
    let mut marker = MARKER_PREFIX.to_owned();
    marker.append(" file");
    marker
}

pub fn section_start_marker(name: &str) -> (marker: String)
    ensures
        marker@ == section_start_text(name@),
{
    let mut marker = MARKER_PREFIX.to_owned();
    marker.append(" start section \"");
    marker.append(name);
    marker.append("\"");
    marker
}

pub fn section_end_marker(name: &str) -> (marker: String)
    ensures
        marker@ == section_end_text(name@),
{
    let mut marker = MARKER_PREFIX.to_owned();
    marker.append(" end section \"");
    marker.append(name);
    marker.append("\"");
    marker
}

// ---------------------------------------------------------------------------
// What markers say
// ---------------------------------------------------------------------------

/// A file marker or a section's start marker, with its continuation lines
#[derive(Debug)]
pub struct MarkerHeader {
    /// Byte range of the marker lines (continuations included)
    pub marker_from: usize,
    pub marker_to: usize,
    /// 1-based line numbers of the first and last marker line
    pub first_line: usize,
    pub last_line: usize,
    pub options: Vec<MarkerOption>,
}

pub struct HeaderModel {
    pub marker_from: nat,
    pub marker_to: nat,
    pub first_line: nat,
    pub last_line: nat,
    pub options: Seq<OptionModel>,
}

impl View for MarkerHeader {
    type V = HeaderModel;

    open spec fn view(&self) -> HeaderModel {
        HeaderModel {
            marker_from: self.marker_from as nat,
            marker_to: self.marker_to as nat,
            first_line: self.first_line as nat,
            last_line: self.last_line as nat,
            options: options::models(self.options@),
        }
    }
}

impl Clone for MarkerHeader {
    fn clone(&self) -> (copy: Self)
        ensures
            copy@ == self@,
            copy.options@ == self.options@,
    {
        MarkerHeader {
            marker_from: self.marker_from,
            marker_to: self.marker_to,
            first_line: self.first_line,
            last_line: self.last_line,
            options: options::clone_options(&self.options),
        }
    }
}

/// A section of a file between a start and an end marker
#[derive(Debug)]
pub struct MarkedSection {
    pub name: String,
    pub header: MarkerHeader,
    /// Byte range of the marked lines
    pub content_from: usize,
    pub content_to: usize,
    pub end_line: usize,
}

pub struct SectionModel {
    pub name: Seq<char>,
    pub header: HeaderModel,
    pub content_from: nat,
    pub content_to: nat,
    pub end_line: nat,
}

impl View for MarkedSection {
    type V = SectionModel;

    open spec fn view(&self) -> SectionModel {
        SectionModel {
            name: self.name@,
            header: self.header@,
            content_from: self.content_from as nat,
            content_to: self.content_to as nat,
            end_line: self.end_line as nat,
        }
    }
}

impl Clone for MarkedSection {
    fn clone(&self) -> (copy: Self)
        ensures
            copy@ == self@,
    {
        MarkedSection {
            name: self.name.clone(),
            header: self.header.clone(),
            content_from: self.content_from,
            content_to: self.content_to,
            end_line: self.end_line,
        }
    }
}

/// The markers of a file: its sections are in the order of their names
#[derive(Debug)]
pub struct Markers {
    pub file: Option<MarkerHeader>,
    pub sections: Vec<MarkedSection>,
    pub problems: Vec<String>,
}

pub struct MarkersModel {
    pub file: Option<HeaderModel>,
    pub sections: Seq<SectionModel>,
    pub problems: Seq<Seq<char>>,
}

pub open spec fn header_view(header: Option<MarkerHeader>) -> Option<HeaderModel> {
    match header {
        Some(header) => Some(header@),
        None => None,
    }
}

pub open spec fn section_models(sections: Seq<MarkedSection>) -> Seq<SectionModel> {
    Seq::new(sections.len(), |i: int| sections[i]@)
}

/// The names of sections
pub open spec fn section_names(sections: Seq<SectionModel>) -> Seq<Seq<char>> {
    Seq::new(sections.len(), |i: int| sections[i].name)
}

impl View for Markers {
    type V = MarkersModel;

    open spec fn view(&self) -> MarkersModel {
        MarkersModel {
            file: header_view(self.file),
            sections: section_models(self.sections@),
            problems: text::views(self.problems@),
        }
    }
}

/// No markers
pub open spec fn no_markers() -> MarkersModel {
    MarkersModel { file: None, sections: Seq::empty(), problems: Seq::empty() }
}

impl Default for Markers {
    fn default() -> (markers: Self)
        ensures
            markers@ == no_markers(),
    {
        let markers = Markers { file: None, sections: Vec::new(), problems: Vec::new() };
        assert(markers@.sections =~= Seq::empty());
        assert(markers@.problems =~= Seq::empty());
        markers
    }
}

/// A section whose start marker was seen but not yet its end
#[derive(Debug)]
pub struct OpenSection {
    pub name: String,
    pub header: MarkerHeader,
}

pub struct OpenModel {
    pub name: Seq<char>,
    pub header: HeaderModel,
}

impl View for OpenSection {
    type V = OpenModel;

    open spec fn view(&self) -> OpenModel {
        OpenModel { name: self.name@, header: self.header@ }
    }
}

pub open spec fn open_models(open: Seq<OpenSection>) -> Seq<OpenModel> {
    Seq::new(open.len(), |i: int| open[i]@)
}

pub open spec fn open_names(open: Seq<OpenModel>) -> Seq<Seq<char>> {
    Seq::new(open.len(), |i: int| open[i].name)
}

// ---------------------------------------------------------------------------
// Lists in the order of their names
// ---------------------------------------------------------------------------

/// Where `name` goes in a list in the order of its names
pub open spec fn place(names: Seq<Seq<char>>, name: Seq<char>) -> int
    decreases names.len(),
{
    if names.len() > 0 && text::before(names[0], name) {
        1 + place(names.drop_first(), name)
    } else {
        0
    }
}

pub proof fn lemma_place(names: Seq<Seq<char>>, name: Seq<char>)
    ensures
        0 <= place(names, name) <= names.len(),
        forall|i: int|
            0 <= i < place(names, name) ==> text::before(#[trigger] names[i], name),
        place(names, name) < names.len() ==> !text::before(names[place(names, name)], name),
    decreases names.len(),
{
    if names.len() > 0 && text::before(names[0], name) {
        let rest = names.drop_first();
        lemma_place(rest, name);
        assert forall|i: int| 0 <= i < place(names, name) implies text::before(
            #[trigger] names[i],
            name,
        ) by {
            if i > 0 {
                assert(names[i] == rest[i - 1]);
            }
        }
        if place(names, name) < names.len() {
            assert(names[place(names, name)] == rest[place(rest, name)]);
        }
    }
}

pub proof fn lemma_place_is(names: Seq<Seq<char>>, name: Seq<char>, n: int)
    requires
        0 <= n <= names.len(),
        forall|i: int| 0 <= i < n ==> text::before(#[trigger] names[i], name),
        n < names.len() ==> !text::before(names[n], name),
    ensures
        place(names, name) == n,
{
    lemma_place(names, name);
    let m = place(names, name);
    if m < n {
        assert(text::before(names[m], name));
    } else if n < m {
        assert(text::before(names[n], name));
    }
}

/// The index of the first of `names` that is `name`
pub open spec fn index_of(names: Seq<Seq<char>>, name: Seq<char>) -> Option<int>
    decreases names.len(),
{
    if names.len() == 0 {
        None
    } else if names[0] == name {
        Some(0)
    } else {
        match index_of(names.drop_first(), name) {
            Some(i) => Some(i + 1),
            None => None,
        }
    }
}

pub proof fn lemma_index_of(names: Seq<Seq<char>>, name: Seq<char>)
    ensures
        index_of(names, name) matches Some(i) ==> 0 <= i < names.len() && names[i] == name && (
        forall|j: int| 0 <= j < i ==> names[j] != name),
        index_of(names, name) is None <==> !names.contains(name),
    decreases names.len(),
{
    if names.len() > 0 && names[0] != name {
        let rest = names.drop_first();
        lemma_index_of(rest, name);
        match index_of(rest, name) {
            Some(i) => {
                assert(names[i + 1] == rest[i]);
                assert forall|j: int| 0 <= j < i + 1 implies names[j] != name by {
                    if j > 0 {
                        assert(names[j] == rest[j - 1]);
                    }
                }
            },
            None => {
                assert forall|j: int| 0 <= j < names.len() implies names[j] != name by {
                    if j > 0 {
                        assert(names[j] == rest[j - 1]);
                        assert(rest.contains(rest[j - 1]));
                    }
                }
            },
        }
    }
}

pub proof fn lemma_index_of_is(names: Seq<Seq<char>>, name: Seq<char>, n: int)
    requires
        0 <= n < names.len(),
        names[n] == name,
        forall|j: int| 0 <= j < n ==> names[j] != name,
    ensures
        index_of(names, name) == Some(n),
{
    lemma_index_of(names, name);
    assert(names.contains(name));
}

/// Whether names are in order, with none twice
pub open spec fn in_order(names: Seq<Seq<char>>) -> bool {
    forall|i: int, j: int| 0 <= i < j < names.len() ==> text::before(names[i], names[j])
}

/// A new name put where it goes keeps the names in order
pub proof fn lemma_insert_in_order(names: Seq<Seq<char>>, name: Seq<char>)
    requires
        in_order(names),
        !names.contains(name),
    ensures
        in_order(names.insert(place(names, name), name)),
{
    lemma_place(names, name);
    let p = place(names, name);
    let all = names.insert(p, name);
    assert forall|i: int, j: int| 0 <= i < j < all.len() implies text::before(all[i], all[j]) by {
        let old_i = if i < p {
            i
        } else {
            i - 1
        };
        let old_j = if j < p {
            j
        } else {
            j - 1
        };
        if j == p {
            assert(all[i] == names[i]);
        } else if i == p {
            assert(all[j] == names[j - 1]);
            text::lemma_before_total(names[p], name);
            assert(names.contains(names[p]));
            assert(text::before(name, names[p]));
            if j - 1 > p {
                text::lemma_before_transitive(name, names[p], names[j - 1]);
            }
        } else {
            assert(all[i] == names[old_i]);
            assert(all[j] == names[old_j]);
        }
    }
}

/// The sections with one more, in the place of one of the same name if there is one
pub open spec fn with_section(sections: Seq<SectionModel>, section: SectionModel) -> Seq<
    SectionModel,
> {
    let names = section_names(sections);
    match index_of(names, section.name) {
        Some(i) => sections.update(i, section),
        None => sections.insert(place(names, section.name), section),
    }
}

/// Where `name` goes among the names of sections
fn section_place(sections: &Vec<MarkedSection>, name: &str) -> (i: usize)
    ensures
        i <= sections@.len(),
        i == place(section_names(section_models(sections@)), name@),
{
    let ghost names = section_names(section_models(sections@));
    let mut i: usize = 0;
    while i < sections.len() && text::comes_before(sections[i].name.as_str(), name)
        invariant
            i <= sections@.len(),
            names == section_names(section_models(sections@)),
            forall|j: int| 0 <= j < i ==> text::before(#[trigger] names[j], name@),
        decreases sections@.len() - i,
    {
        i = i + 1;
    }
    proof {
        lemma_place_is(names, name@, i as int);
    }
    i
}

/// The index of the section named `name`
fn section_index(sections: &Vec<MarkedSection>, name: &str) -> (found: Option<usize>)
    ensures
        match found {
            Some(i) => i < sections@.len() && index_of(
                section_names(section_models(sections@)),
                name@,
            ) == Some(i as int),
            None => index_of(section_names(section_models(sections@)), name@) is None,
        },
{
    let ghost names = section_names(section_models(sections@));
    let mut i: usize = 0;
    while i < sections.len()
        invariant
            i <= sections@.len(),
            names == section_names(section_models(sections@)),
            forall|j: int| 0 <= j < i ==> names[j] != name@,
        decreases sections@.len() - i,
    {
        if text::same(sections[i].name.as_str(), name) {
            proof {
                lemma_index_of_is(names, name@, i as int);
            }
            return Some(i);
        }
        i = i + 1;
    }
    proof {
        lemma_index_of(names, name@);
    }
    None
}

fn open_place(open: &Vec<OpenSection>, name: &str) -> (i: usize)
    ensures
        i <= open@.len(),
        i == place(open_names(open_models(open@)), name@),
{
    let ghost names = open_names(open_models(open@));
    let mut i: usize = 0;
    while i < open.len() && text::comes_before(open[i].name.as_str(), name)
        invariant
            i <= open@.len(),
            names == open_names(open_models(open@)),
            forall|j: int| 0 <= j < i ==> text::before(#[trigger] names[j], name@),
        decreases open@.len() - i,
    {
        i = i + 1;
    }
    proof {
        lemma_place_is(names, name@, i as int);
    }
    i
}

fn open_index(open: &Vec<OpenSection>, name: &str) -> (found: Option<usize>)
    ensures
        match found {
            Some(i) => i < open@.len() && index_of(open_names(open_models(open@)), name@) == Some(
                i as int,
            ),
            None => index_of(open_names(open_models(open@)), name@) is None,
        },
{
    let ghost names = open_names(open_models(open@));
    let mut i: usize = 0;
    while i < open.len()
        invariant
            i <= open@.len(),
            names == open_names(open_models(open@)),
            forall|j: int| 0 <= j < i ==> names[j] != name@,
        decreases open@.len() - i,
    {
        if text::same(open[i].name.as_str(), name) {
            proof {
                lemma_index_of_is(names, name@, i as int);
            }
            return Some(i);
        }
        i = i + 1;
    }
    proof {
        lemma_index_of(names, name@);
    }
    None
}

/// The section named `name`
pub open spec fn section_spec(markers: MarkersModel, name: Seq<char>) -> Option<SectionModel> {
    match index_of(section_names(markers.sections), name) {
        Some(i) => Some(markers.sections[i]),
        None => None,
    }
}

impl Markers {
    /// The section named `name`
    pub fn section(&self, name: &str) -> (section: Option<&MarkedSection>)
        ensures
            match section {
                Some(section) => section_spec(self@, name@) == Some(section@),
                None => section_spec(self@, name@) is None,
            },
    {
        match section_index(&self.sections, name) {
            Some(i) => Some(&self.sections[i]),
            None => None,
        }
    }
}

// ---------------------------------------------------------------------------
// One marker
// ---------------------------------------------------------------------------

/// Where a marker's lines (continuations included) are in the text
pub struct MarkerSpan {
    /// Byte range of the marker lines
    pub marker_from: usize,
    pub marker_to: usize,
    /// Byte offset of the last marker line
    pub last_line_start: usize,
    /// 1-based line numbers of the first and last marker line
    pub first_line: usize,
    pub last_line: usize,
}

pub struct SpanModel {
    pub marker_from: nat,
    pub marker_to: nat,
    pub last_line_start: nat,
    pub first_line: nat,
    pub last_line: nat,
}

impl View for MarkerSpan {
    type V = SpanModel;

    open spec fn view(&self) -> SpanModel {
        SpanModel {
            marker_from: self.marker_from as nat,
            marker_to: self.marker_to as nat,
            last_line_start: self.last_line_start as nat,
            first_line: self.first_line as nat,
            last_line: self.last_line as nat,
        }
    }
}

/// The header of a marker at `span` with `options`
pub open spec fn header_spec(span: SpanModel, options: Seq<OptionModel>) -> HeaderModel {
    HeaderModel {
        marker_from: span.marker_from,
        marker_to: span.marker_to,
        first_line: span.first_line,
        last_line: span.last_line,
        options,
    }
}

impl MarkerSpan {
    /// The header of a marker here with `options`
    pub fn header(&self, options: Vec<MarkerOption>) -> (header: MarkerHeader)
        ensures
            header@ == header_spec(self@, options::models(options@)),
            header.options@ == options@,
    {
        MarkerHeader {
            marker_from: self.marker_from,
            marker_to: self.marker_to,
            first_line: self.first_line,
            last_line: self.last_line,
            options,
        }
    }
}

/// The options text of a file marker: `file`, alone or before whitespace
pub open spec fn file_options_spec(marker: Seq<char>) -> Option<Seq<char>> {
    match text::without_prefix(marker, "file"@) {
        Some(rest) => if rest.len() == 0 || (text::is_white(rest[0]) && !rest.skip(1).contains(
            '\n',
        )) {
            Some(rest)
        } else {
            None
        },
        None => None,
    }
}

/// The name in quotes after `before`, and what follows it
pub open spec fn named_spec(marker: Seq<char>, before: Seq<char>) -> Option<
    (Seq<char>, Seq<char>),
> {
    match text::without_prefix(marker, before) {
        Some(rest) => match text::split_once_spec(rest, "\""@) {
            Some((name, after)) => if name.len() > 0 && !after.contains('\n') {
                Some((name, after))
            } else {
                None
            },
            None => None,
        },
        None => None,
    }
}

/// The name and the options text of a section's start marker
pub open spec fn start_spec(marker: Seq<char>) -> Option<(Seq<char>, Seq<char>)> {
    named_spec(marker, "start section \""@)
}

/// The name of a section's end marker
pub open spec fn end_spec(marker: Seq<char>) -> Option<Seq<char>> {
    match named_spec(marker, "end section \""@) {
        Some((name, after)) => if after.len() == 0 {
            Some(name)
        } else {
            None
        },
        None => None,
    }
}

fn has_newline(chars: &Vec<char>, from: usize) -> (found: bool)
    requires
        from <= chars@.len(),
    ensures
        found == chars@.skip(from as int).contains('\n'),
{
    let ghost rest = chars@.skip(from as int);
    let mut i: usize = from;
    while i < chars.len()
        invariant
            from <= i <= chars@.len(),
            rest == chars@.skip(from as int),
            forall|j: int| 0 <= j < i - from ==> rest[j] != '\n',
        decreases chars@.len() - i,
    {
        if chars[i] == '\n' {
            assert(rest[i - from] == '\n');
            return true;
        }
        i = i + 1;
    }
    false
}

fn file_options(marker: &str) -> (rest: Option<String>)
    ensures
        text::option_view(rest) == file_options_spec(marker@),
{
    match text::strip_prefix(marker, "file") {
        Some(rest) => {
            let chars = text::chars_of(rest.as_str());
            if chars.len() == 0 || (text::is_whitespace(chars[0]) && !has_newline(&chars, 1)) {
                Some(rest)
            } else {
                None
            }
        },
        None => None,
    }
}

fn named(marker: &str, before: &str) -> (parts: Option<(String, String)>)
    ensures
        match parts {
            Some((name, after)) => named_spec(marker@, before@) == Some((name@, after@)),
            None => named_spec(marker@, before@) is None,
        },
{
    match text::strip_prefix(marker, before) {
        Some(rest) => match text::split_once(rest.as_str(), "\"") {
            Some((name, after)) => {
                let chars = text::chars_of(after.as_str());
                assert(chars@.skip(0) =~= chars@);
                if text::chars_of(name.as_str()).len() > 0 && !has_newline(&chars, 0) {
                    Some((name, after))
                } else {
                    None
                }
            },
            None => None,
        },
        None => None,
    }
}

/// What was found so far, and the sections that are open
pub struct ScanModel {
    pub markers: MarkersModel,
    pub open: Seq<OpenModel>,
}

/// What a file marker changes
pub open spec fn record_file(span: SpanModel, options_text: Seq<char>, scan: ScanModel) -> Result<
    ScanModel,
    Seq<char>,
> {
    match options::options_spec(options_text) {
        Err(error) => Err(error),
        Ok(found) => Ok(
            ScanModel {
                markers: MarkersModel { file: Some(header_spec(span, found)), ..scan.markers },
                ..scan
            },
        ),
    }
}

/// What a section's start marker changes
pub open spec fn record_start(
    name: Seq<char>,
    span: SpanModel,
    options_text: Seq<char>,
    scan: ScanModel,
) -> Result<ScanModel, Seq<char>> {
    let names = open_names(scan.open);
    match options::options_spec(options_text) {
        Err(error) => Err(error),
        Ok(found) => if names.contains(name) || section_names(scan.markers.sections).contains(
            name,
        ) {
            Err("section \""@ + name + "\" is defined twice"@)
        } else {
            Ok(
                ScanModel {
                    open: scan.open.insert(
                        place(names, name),
                        OpenModel { name, header: header_spec(span, found) },
                    ),
                    ..scan
                },
            )
        },
    }
}

/// What a section's end marker changes
pub open spec fn record_end(name: Seq<char>, span: SpanModel, scan: ScanModel) -> Result<
    ScanModel,
    Seq<char>,
> {
    match index_of(open_names(scan.open), name) {
        None => Err("end of section \""@ + name + "\" without a start"@),
        Some(i) => {
            let header = scan.open[i].header;
            let section = SectionModel {
                name,
                header,
                content_from: header.marker_to,
                content_to: span.last_line_start,
                end_line: span.last_line,
            };
            Ok(
                ScanModel {
                    markers: MarkersModel {
                        sections: with_section(scan.markers.sections, section),
                        ..scan.markers
                    },
                    open: scan.open.remove(i),
                },
            )
        },
    }
}

/// What a marker changes, or what is wrong with it
pub open spec fn record_spec(marker: Seq<char>, span: SpanModel, scan: ScanModel) -> Result<
    ScanModel,
    Seq<char>,
> {
    if let Some(options_text) = file_options_spec(marker) {
        record_file(span, options_text, scan)
    } else if let Some((name, options_text)) = start_spec(marker) {
        record_start(name, span, options_text, scan)
    } else if let Some(name) = end_spec(marker) {
        record_end(name, span, scan)
    } else {
        Err("unrecognized marker \""@ + marker + "\""@)
    }
}

/// What was found so far, and the sections that are open
pub open spec fn scan_model(markers: Markers, open: Seq<OpenSection>) -> ScanModel {
    ScanModel { markers: markers@, open: open_models(open) }
}

/// Records a marker in `markers` (or `open_sections`, for a section's start); errors
/// with what's wrong with it
pub fn record_marker(
    marker_text: &str,
    span: &MarkerSpan,
    markers: &mut Markers,
    open_sections: &mut Vec<OpenSection>,
) -> (recorded: Result<(), String>)
    ensures
        match recorded {
            Ok(_) => record_spec(
                marker_text@,
                span@,
                scan_model(*old(markers), old(open_sections)@),
            ) == Ok::<_, Seq<char>>(scan_model(*final(markers), final(open_sections)@)),
            Err(error) => record_spec(
                marker_text@,
                span@,
                scan_model(*old(markers), old(open_sections)@),
            ) == Err::<ScanModel, _>(error@) && *final(markers) == *old(markers)
                && *final(open_sections) == *old(open_sections),
        },
{
    let ghost scan = scan_model(*markers, open_sections@);
    if let Some(options_text) = file_options(marker_text) {
        match options::parse_options(options_text.as_str()) {
            Err(error) => {
                return Err(error);
            },
            Ok(found) => {
                markers.file = Some(span.header(found));
                return Ok(());
            },
        }
    }
    if let Some((name, options_text)) = named(marker_text, "start section \"") {
        match options::parse_options(options_text.as_str()) {
            Err(error) => {
                return Err(error);
            },
            Ok(found) => {
                let is_open = open_index(open_sections, name.as_str()).is_some();
                let is_closed = section_index(&markers.sections, name.as_str()).is_some();
                proof {
                    lemma_index_of(open_names(scan.open), name@);
                    lemma_index_of(section_names(scan.markers.sections), name@);
                }
                if is_open || is_closed {
                    return Err(text::surround("section \"", name.as_str(), "\" is defined twice"));
                }
                let at = open_place(open_sections, name.as_str());
                let header = span.header(found);
                let opened = OpenSection { name, header };
                open_sections.insert(at, opened);
                assert(open_models(open_sections@) =~= scan.open.insert(at as int, opened@));
                return Ok(());
            },
        }
    }
    match named(marker_text, "end section \"") {
        Some((name, after)) => {
            if text::chars_of(after.as_str()).len() > 0 {
                return Err(text::surround("unrecognized marker \"", marker_text, "\""));
            }
            match open_index(open_sections, name.as_str()) {
                None => Err(
                    text::surround("end of section \"", name.as_str(), "\" without a start"),
                ),
                Some(at) => {
                    let opened = open_sections.remove(at);
                    assert(open_models(open_sections@) =~= scan.open.remove(at as int));
                    let place_index = section_place(&markers.sections, name.as_str());
                    let known = section_index(&markers.sections, name.as_str());
                    let section = MarkedSection {
                        name,
                        content_from: opened.header.marker_to,
                        header: opened.header,
                        content_to: span.last_line_start,
                        end_line: span.last_line,
                    };
                    let ghost model = section@;
                    match known {
                        Some(i) => {
                            markers.sections.set(i, section);
                            assert(section_models(markers.sections@)
                                =~= scan.markers.sections.update(i as int, model));
                        },
                        None => {
                            markers.sections.insert(place_index, section);
                            assert(section_models(markers.sections@)
                                =~= scan.markers.sections.insert(place_index as int, model));
                        },
                    }
                    Ok(())
                },
            }
        },
        None => Err(text::surround("unrecognized marker \"", marker_text, "\"")),
    }
}

// ---------------------------------------------------------------------------
// All markers of a text
// ---------------------------------------------------------------------------

/// The byte offset line `k` starts at
pub open spec fn line_start(text_lines: Seq<Seq<char>>, k: int) -> nat
    decreases k,
{
    if k <= 0 {
        0
    } else {
        line_start(text_lines, k - 1) + bytes::byte_len(text_lines[k - 1]) + 1
    }
}

/// Lines are as long as the text they are joined to, up to any of them
pub proof fn lemma_line_start(text_lines: Seq<Seq<char>>, k: int)
    requires
        0 <= k < text_lines.len(),
    ensures
        line_start(text_lines, k) + bytes::byte_len(text_lines[k]) == bytes::byte_len(
            lines::join(text_lines.take(k + 1), seq!['\n']),
        ),
    decreases k,
{
    let head = text_lines.take(k + 1);
    if k == 0 {
        assert(head[0] == text_lines[0]);
    } else {
        lemma_line_start(text_lines, k - 1);
        assert(head.drop_last() =~= text_lines.take(k));
        let before = lines::join(text_lines.take(k), seq!['\n']);
        bytes::lemma_byte_len_concat(before + seq!['\n'], head.last());
        bytes::lemma_byte_len_concat(before, seq!['\n']);
        bytes::lemma_byte_len_single('\n');
    }
}

/// A line starts no later than the text they are joined to ends
pub proof fn lemma_line_start_bound(text_lines: Seq<Seq<char>>, k: int)
    requires
        0 <= k < text_lines.len(),
    ensures
        line_start(text_lines, k) + bytes::byte_len(text_lines[k]) <= bytes::byte_len(
            lines::join(text_lines, seq!['\n']),
        ),
        k < text_lines.len() - 1 ==> line_start(text_lines, k) + bytes::byte_len(text_lines[k]) + 1
            <= bytes::byte_len(lines::join(text_lines, seq!['\n'])),
        k == text_lines.len() - 1 ==> line_start(text_lines, k) + bytes::byte_len(text_lines[k])
            == bytes::byte_len(lines::join(text_lines, seq!['\n'])),
    decreases text_lines.len() - k,
{
    if k == text_lines.len() - 1 {
        lemma_line_start(text_lines, k);
        assert(text_lines.take(k + 1) =~= text_lines);
    } else {
        lemma_line_start_bound(text_lines, k + 1);
        assert(line_start(text_lines, k + 1) == line_start(text_lines, k) + bytes::byte_len(
            text_lines[k],
        ) + 1);
    }
}

/// The byte offset each line starts at
pub fn line_starts(text_lines: &Vec<String>) -> (starts: Vec<usize>)
    requires
        bytes::byte_len(lines::join(text::views(text_lines@), seq!['\n'])) <= usize::MAX,
    ensures
        starts@.len() == text_lines@.len(),
        forall|k: int|
            0 <= k < starts@.len() ==> starts@[k] == line_start(text::views(text_lines@), k),
{
    let ghost views = text::views(text_lines@);
    let mut starts: Vec<usize> = Vec::new();
    let mut i: usize = 0;
    let mut next_start: usize = 0;
    while i < text_lines.len()
        invariant
            i <= text_lines@.len(),
            views == text::views(text_lines@),
            bytes::byte_len(lines::join(views, seq!['\n'])) <= usize::MAX,
            starts@.len() == i,
            i < text_lines@.len() ==> next_start == line_start(views, i as int),
            forall|k: int| 0 <= k < i ==> starts@[k] == line_start(views, k),
        decreases text_lines@.len() - i,
    {
        starts.push(next_start);
        proof {
            lemma_line_start_bound(views, i as int);
            assert(line_start(views, i + 1) == line_start(views, i as int) + bytes::byte_len(
                views[i as int],
            ) + 1);
        }
        let length = bytes::byte_length(text_lines[i].as_str());
        if i + 1 < text_lines.len() {
            next_start = next_start + length + 1;
        }
        i = i + 1;
    }
    starts
}

/// The options text of a continuation line: `#` and `|` after whitespace
pub open spec fn continuation_spec(line: Seq<char>) -> Option<Seq<char>> {
    let comment = text::after_run(line, CharClass::White);
    let body = text::after_run(comment.skip(1), CharClass::White);
    if comment.len() > 0 && comment[0] == '#' && body.len() > 0 && body[0] == '|' {
        Some(body)
    } else {
        None
    }
}

/// The options text of a continuation line
pub fn continuation_text(line: &str) -> (body: Option<String>)
    ensures
        text::option_view(body) == continuation_spec(line@),
{
    let comment = text::trim_start(line, CharClass::White);
    match text::strip_prefix(comment.as_str(), "#") {
        Some(after) => {
            let body = text::trim_start(after.as_str(), CharClass::White);
            proof {
                reveal_strlit("#");
                assert(comment@.take(1)[0] == comment@[0]);
                assert("#"@.len() == 1);
            }
            if text::starts_with(body.as_str(), "|") {
                proof {
                    reveal_strlit("|");
                    assert(body@.take(1)[0] == body@[0]);
                }
                Some(body)
            } else {
                proof {
                    reveal_strlit("|");
                    if body@.len() > 0 && body@[0] == '|' {
                        assert(body@.take(1) =~= "|"@);
                    }
                }
                None
            }
        },
        None => {
            proof {
                reveal_strlit("#");
                if comment@.len() > 0 && comment@[0] == '#' {
                    assert(comment@.take(1) =~= "#"@);
                }
            }
            None
        },
    }
}

/// Whether line `i` goes on with the options of the marker before it
pub open spec fn continues(text_lines: Seq<Seq<char>>, i: int) -> bool {
    &&& 0 <= i < text_lines.len()
    &&& !text::occurs(text_lines[i], MARKER_PREFIX@)
    &&& continuation_spec(text_lines[i]) is Some
}

/// How many lines from line `i` on go on with a marker's options
pub open spec fn continuation_count(text_lines: Seq<Seq<char>>, i: int) -> nat
    decreases text_lines.len() - i,
{
    if continues(text_lines, i) {
        1 + continuation_count(text_lines, i + 1)
    } else {
        0
    }
}

/// The options texts of `count` continuation lines from line `i` on
pub open spec fn continuation_texts(text_lines: Seq<Seq<char>>, i: int, count: nat) -> Seq<
    Seq<char>,
> {
    Seq::new(count, |k: int| continuation_spec(text_lines[i + k])->0)
}

/// Whether a marker's options may go on after its line
pub open spec fn takes_continuations(marker: Seq<char>) -> bool {
    "file"@.is_prefix_of(marker) || "start section"@.is_prefix_of(marker)
}

/// A marker's text after [`MARKER_PREFIX`], joined with its continuation lines (for
/// file and start markers), and the index of its last line
pub open spec fn body_spec(
    text_lines: Seq<Seq<char>>,
    first_line_index: int,
    after_marker: Seq<char>,
) -> (Seq<char>, int) {
    let marker = text::trimmed(after_marker);
    if !takes_continuations(marker) {
        (marker, first_line_index)
    } else {
        let count = continuation_count(text_lines, first_line_index + 1);
        (
            lines::join(
                seq![marker] + continuation_texts(text_lines, first_line_index + 1, count),
                " "@,
            ),
            first_line_index + count,
        )
    }
}

pub proof fn lemma_continuation_count(text_lines: Seq<Seq<char>>, i: int)
    requires
        0 <= i <= text_lines.len(),
    ensures
        i + continuation_count(text_lines, i) <= text_lines.len(),
        forall|k: int|
            i <= k < i + continuation_count(text_lines, i) ==> continues(text_lines, k),
        !continues(text_lines, i + continuation_count(text_lines, i)),
    decreases text_lines.len() - i,
{
    if continues(text_lines, i) {
        lemma_continuation_count(text_lines, i + 1);
    }
}

pub proof fn lemma_continuation_count_is(text_lines: Seq<Seq<char>>, i: int, n: int)
    requires
        0 <= n,
        0 <= i <= text_lines.len(),
        forall|k: int| i <= k < i + n ==> continues(text_lines, k),
        !continues(text_lines, i + n),
    ensures
        continuation_count(text_lines, i) == n,
    decreases n,
{
    if n > 0 {
        assert(continues(text_lines, i));
        lemma_continuation_count_is(text_lines, i + 1, n - 1);
    }
}

/// A marker's text after [`MARKER_PREFIX`], joined with its continuation lines (for
/// file and start markers), and the index of its last line
pub fn marker_body(text_lines: &Vec<String>, first_line_index: usize, after_marker: &str) -> (body:
    (String, usize))
    requires
        first_line_index < text_lines@.len(),
    ensures
        body_spec(text::views(text_lines@), first_line_index as int, after_marker@) == (
            body.0@,
            body.1 as int,
        ),
        first_line_index <= body.1 < text_lines@.len(),
{
    let ghost views = text::views(text_lines@);
    let marker = text::trim(after_marker);
    if !(text::starts_with(marker.as_str(), "file") || text::starts_with(
        marker.as_str(),
        "start section",
    )) {
        return (marker, first_line_index);
    }
    let ghost marker_view = marker@;
    let ghost from = first_line_index + 1;
    let mut parts: Vec<String> = Vec::new();
    parts.push(marker);
    assert(first_line_index < text_lines.len());
    let mut i: usize = first_line_index + 1;
    proof {
        assert(text::views(parts@) =~= seq![marker_view] + continuation_texts(views, from, 0));
    }
    while i < text_lines.len()
        invariant
            first_line_index < i <= text_lines@.len(),
            from == first_line_index + 1,
            views == text::views(text_lines@),
            forall|k: int| from <= k < i ==> continues(views, k),
            text::views(parts@) == seq![marker_view] + continuation_texts(
                views,
                from,
                (i - from) as nat,
            ),
        ensures
            first_line_index < i <= text_lines@.len(),
            forall|k: int| from <= k < i ==> continues(views, k),
            !continues(views, i as int),
            text::views(parts@) == seq![marker_view] + continuation_texts(
                views,
                from,
                (i - from) as nat,
            ),
        decreases text_lines@.len() - i,
    {
        if text::contains(text_lines[i].as_str(), MARKER_PREFIX) {
            break ;
        }
        match continuation_text(text_lines[i].as_str()) {
            Some(body) => {
                proof {
                    text::lemma_views_push(parts@, body);
                    assert(continues(views, i as int));
                    assert((seq![marker_view] + continuation_texts(
                        views,
                        from,
                        (i - from) as nat,
                    )).push(body@) =~= seq![marker_view] + continuation_texts(
                        views,
                        from,
                        (i + 1 - from) as nat,
                    ));
                }
                parts.push(body);
            },
            None => {
                break ;
            },
        }
        i = i + 1;
    }
    proof {
        lemma_continuation_count_is(views, from, i - from);
    }
    (lines::join_texts(&parts, " "), i - 1)
}

/// Where the marker on lines `first` to `last` of a text of `total` bytes is
pub open spec fn span_spec(text_lines: Seq<Seq<char>>, total: nat, first: int, last: int) -> SpanModel {
    let end = line_start(text_lines, last) + bytes::byte_len(text_lines[last]) + 1;
    SpanModel {
        marker_from: line_start(text_lines, first),
        marker_to: if end < total {
            end
        } else {
            total
        },
        last_line_start: line_start(text_lines, last),
        first_line: (first + 1) as nat,
        last_line: (last + 1) as nat,
    }
}

/// What is wrong on a line
pub open spec fn line_problem(line: nat, problem: Seq<char>) -> Seq<char> {
    "line "@ + numbers::decimal_spec(line) + ": "@ + problem
}

/// `scan` with another problem
pub open spec fn with_problem(scan: ScanModel, problem: Seq<char>) -> ScanModel {
    ScanModel {
        markers: MarkersModel { problems: scan.markers.problems.push(problem), ..scan.markers },
        ..scan
    }
}

/// What the markers from line `i` on add to what was found before
pub open spec fn scan_spec(
    text_lines: Seq<Seq<char>>,
    total: nat,
    i: int,
    scan: ScanModel,
) -> ScanModel
    decreases text_lines.len() - i,
{
    if !(0 <= i < text_lines.len()) {
        scan
    } else {
        match text::split_once_spec(text_lines[i], MARKER_PREFIX@) {
            None => scan_spec(text_lines, total, i + 1, scan),
            Some((_, after)) => {
                let (marker, last) = body_spec(text_lines, i, after);
                let span = span_spec(text_lines, total, i, last);
                let next = match record_spec(marker, span, scan) {
                    Ok(next) => next,
                    Err(error) => with_problem(scan, line_problem(span.first_line, error)),
                };
                proof {
                    lemma_continuation_count(text_lines, i + 1);
                }
                scan_spec(text_lines, total, last + 1, next)
            },
        }
    }
}

/// The problems with sections that are never closed
pub open spec fn unclosed(open: Seq<OpenModel>) -> Seq<Seq<char>> {
    Seq::new(
        open.len(),
        |i: int|
            line_problem(
                open[i].header.first_line,
                "section \""@ + open[i].name + "\" has no end marker"@,
            ),
    )
}

/// The problem with a file that is marked whole and has sections
pub open spec fn both_marked(markers: MarkersModel) -> Seq<Seq<char>> {
    match markers.file {
        Some(header) => if markers.sections.len() > 0 {
            seq![
                line_problem(
                    header.first_line,
                    "a file marked whole can't also have sections (its marked content would include their markers)"@,
                ),
            ]
        } else {
            Seq::empty()
        },
        None => Seq::empty(),
    }
}

/// What a scan of all lines found
pub open spec fn finished(scan: ScanModel) -> MarkersModel {
    MarkersModel {
        problems: scan.markers.problems + unclosed(scan.open) + both_marked(scan.markers),
        ..scan.markers
    }
}

/// The markers of a text
pub open spec fn markers_spec(s: Seq<char>) -> MarkersModel {
    finished(
        scan_spec(
            lines::split(s, '\n'),
            bytes::byte_len(s),
            0,
            ScanModel { markers: no_markers(), open: Seq::empty() },
        ),
    )
}

fn line_problem_text(line: usize, problem: &str) -> (message: String)
    ensures
        message@ == line_problem(line as nat, problem@),
{
    let number = numbers::decimal(line);
    let mut message = text::surround("line ", number.as_str(), ": ");
    message.append(problem);
    message
}

/// Adds the problems with sections that are never closed
fn add_unclosed(open: &Vec<OpenSection>, problems: &mut Vec<String>)
    ensures
        text::views(final(problems)@) == text::views(old(problems)@) + unclosed(
            open_models(open@),
        ),
{
    let ghost all = unclosed(open_models(open@));
    let ghost before = text::views(problems@);
    let mut i: usize = 0;
    assert(before + all.take(0) =~= before);
    while i < open.len()
        invariant
            i <= open@.len(),
            all == unclosed(open_models(open@)),
            text::views(problems@) == before + all.take(i as int),
        decreases open@.len() - i,
    {
        let message = text::surround("section \"", open[i].name.as_str(), "\" has no end marker");
        let problem = line_problem_text(open[i].header.first_line, message.as_str());
        proof {
            text::lemma_views_push(problems@, problem);
            assert(problem@ == all[i as int]);
            assert((before + all.take(i as int)).push(problem@) =~= before + all.take(i + 1));
        }
        problems.push(problem);
        i = i + 1;
    }
    assert(all.take(i as int) =~= all);
}

/// The markers of a text
pub fn parse_markers(text: &str) -> (markers: Markers)
    ensures
        markers@ == markers_spec(text@),
{
    let text_lines = lines::split_text(text, '\n');
    let ghost views = text::views(text_lines@);
    let total = bytes::byte_length(text);
    proof {
        lines::lemma_join_split(text@, '\n');
    }
    let starts = line_starts(&text_lines);
    let mut markers = Markers::default();
    let mut open_sections: Vec<OpenSection> = Vec::new();
    let mut i: usize = 0;
    assert(open_models(open_sections@) =~= Seq::empty());
    while i < text_lines.len()
        invariant
            i <= text_lines@.len(),
            views == text::views(text_lines@),
            total == bytes::byte_len(text@),
            views == lines::split(text@, '\n'),
            lines::join(views, seq!['\n']) == text@,
            starts@.len() == text_lines@.len(),
            forall|k: int| 0 <= k < starts@.len() ==> starts@[k] == line_start(views, k),
            scan_spec(
                views,
                total as nat,
                0,
                ScanModel { markers: no_markers(), open: Seq::empty() },
            ) == scan_spec(
                views,
                total as nat,
                i as int,
                scan_model(markers, open_sections@),
            ),
        decreases text_lines@.len() - i,
    {
        let ghost scan = scan_model(markers, open_sections@);
        match text::split_once(text_lines[i].as_str(), MARKER_PREFIX) {
            None => {
                i = i + 1;
            },
            Some((_, after)) => {
                let (marker, last) = marker_body(&text_lines, i, after.as_str());
                proof {
                    lemma_line_start_bound(views, last as int);
                }
                let end: usize = starts[last] + bytes::byte_length(text_lines[last].as_str());
                let span = MarkerSpan {
                    marker_from: starts[i],
                    marker_to: if end < total {
                        end + 1
                    } else {
                        total
                    },
                    last_line_start: starts[last],
                    first_line: i + 1,
                    last_line: last + 1,
                };
                assert(span@ == span_spec(views, total as nat, i as int, last as int));
                match record_marker(marker.as_str(), &span, &mut markers, &mut open_sections) {
                    Ok(_) => {},
                    Err(error) => {
                        let problem = line_problem_text(span.first_line, error.as_str());
                        proof {
                            text::lemma_views_push(markers.problems@, problem);
                        }
                        markers.problems.push(problem);
                        assert(scan_model(markers, open_sections@).markers.problems
                            == scan.markers.problems.push(problem@));
                        assert(scan_model(markers, open_sections@) == with_problem(
                            scan,
                            line_problem(span.first_line as nat, error@),
                        ));
                    },
                }
                i = last + 1;
            },
        }
    }
    let ghost scan = scan_model(markers, open_sections@);
    add_unclosed(&open_sections, &mut markers.problems);
    let mut problem: Option<String> = None;
    if let Some(header) = &markers.file {
        if markers.sections.len() > 0 {
            problem = Some(line_problem_text(
                header.first_line,
                "a file marked whole can't also have sections (its marked content would include their markers)",
            ));
        }
    }
    match problem {
        Some(problem) => {
            proof {
                text::lemma_views_push(markers.problems@, problem);
                assert(both_marked(scan.markers) =~= seq![problem@]);
            }
            markers.problems.push(problem);
            assert(markers@.problems =~= finished(scan).problems);
        },
        None => {
            assert(markers@.problems =~= finished(scan).problems);
        },
    }
    markers
}

} // verus!
