//! The field grammar: how one line of a record is classified by its tag,
//! and how the names of an author and the words of a keyword list are
//! split.
use vstd::prelude::*;
use vstd::slice::*;
use vstd::string::*;
use vstd::utf8::*;
use crate::error::{agrees_view, Error, ErrorKind, ErrorView};
use crate::record::{joined, push_joined, Author, AuthorView, Record, RecordView};
use crate::str_from_utf8;
use crate::text::{
    ascii_string, ascii_text, decimal, decimal_string, is_ascii_bytes, lemma_ascii_bytes_decode,
    lemma_valid_after_ascii, trimmed, COMMA, HYPHEN, PERCENT, PERIOD, SPACE,
};

verus! {

/// The letter `A`, which tags an author.
pub const TAG_AUTHOR: u8 = 0x41;

/// The letter `B`, which tags the book title.
pub const TAG_BOOK: u8 = 0x42;

/// The letter `C`, which tags the place.
pub const TAG_PLACE: u8 = 0x43;

/// The letter `D`, which tags the date.
pub const TAG_DATE: u8 = 0x44;

/// The letter `E`, which tags an editor.
pub const TAG_EDITOR: u8 = 0x45;

/// The letter `G`, which tags the government ordering number.
pub const TAG_GOVERNMENT: u8 = 0x47;

/// The letter `I`, which tags the publisher.
pub const TAG_ISSUER: u8 = 0x49;

/// The letter `J`, which tags the journal name.
pub const TAG_JOURNAL: u8 = 0x4A;

/// The letter `K`, which tags the keywords.
pub const TAG_KEYWORDS: u8 = 0x4B;

/// The letter `L`, which tags the label.
pub const TAG_LABEL: u8 = 0x4C;

/// The letter `N`, which tags the issue number.
pub const TAG_ISSUE_NUMBER: u8 = 0x4E;

/// The letter `O`, which tags other information.
pub const TAG_OTHER: u8 = 0x4F;

/// The letter `P`, which tags the page number.
pub const TAG_PAGE_NUMBER: u8 = 0x50;

/// The letter `Q`, which tags an author that is not a person.
pub const TAG_AUTHOR_NP: u8 = 0x51;

/// The letter `R`, which tags the report number.
pub const TAG_REPORT: u8 = 0x52;

/// The letter `S`, which tags the series name.
pub const TAG_SERIES: u8 = 0x53;

/// The letter `T`, which tags the title.
pub const TAG_TITLE: u8 = 0x54;

/// The letter `V`, which tags the volume.
pub const TAG_VOLUME: u8 = 0x56;

/// The letter `X`, which tags the annotation.
pub const TAG_ANNOTATION: u8 = 0x58;

/// The ASCII letters.
pub open spec fn is_alphabetic_byte(b: u8) -> bool {
    (0x41 <= b <= 0x5A) || (0x61 <= b <= 0x7A)
}

/// Specification of `nom::character::is_alphabetic`: true exactly for the
/// bytes `A` to `Z` and `a` to `z`.
pub assume_specification[ nom::character::is_alphabetic ](chr: u8) -> (r: bool)
    ensures
        r == is_alphabetic_byte(chr),
;

/// The description that nom gives of the error code of a tag that did not
/// match, `nom::error::ErrorKind::Tag.description()`: the word `Tag`.
#[verifier::external_body]
fn tag_code_description() -> (r: &'static str)
    ensures
        r@ == "Tag"@,
{
    nom::error::ErrorKind::Tag.description()
}

/// A line carries the tag of `letter` when it starts with a percent sign,
/// the letter and one space.
pub open spec fn has_tag(line: Seq<u8>, letter: u8) -> bool {
    line.len() >= 3 && line[0] == PERCENT && line[1] == letter && line[2] == SPACE
}

/// What follows the tag of a line.
pub open spec fn payload(line: Seq<u8>) -> Seq<u8> {
    line.subrange(3, line.len() as int)
}

/// The two lists of a record: names allow letters, hyphens and periods and
/// are separated by a comma and a space or by a space; keywords allow
/// letters only and are separated by a space.
#[derive(Debug, Clone, Copy, PartialEq, Eq, Structural)]
pub enum TokenKind {
    Name,
    Keyword,
}

/// The bytes that a token of the given kind is made of.
pub open spec fn is_token_byte(kind: TokenKind, b: u8) -> bool {
    match kind {
        TokenKind::Name => is_alphabetic_byte(b) || b == HYPHEN || b == PERIOD,
        TokenKind::Keyword => is_alphabetic_byte(b),
    }
}

/// The end of the longest run of token bytes that starts at `from`.
pub open spec fn token_end(kind: TokenKind, s: Seq<u8>, from: int) -> int
    decreases s.len() - from,
{
    if 0 <= from < s.len() && is_token_byte(kind, s[from]) {
        token_end(kind, s, from + 1)
    } else {
        from
    }
}

/// The length of the separator at `at`: 0 where there is none.
pub open spec fn separator_len(kind: TokenKind, s: Seq<u8>, at: int) -> int {
    if kind == TokenKind::Name && 0 <= at && at + 2 <= s.len() && s[at] == COMMA && s[at + 1]
        == SPACE {
        2
    } else if 0 <= at < s.len() && s[at] == SPACE {
        1
    } else {
        0
    }
}

/// The tokens from `from` on: a token, then as long as a separator
/// follows, the separator and another token. A token may be empty.
pub open spec fn tokens(kind: TokenKind, s: Seq<u8>, from: int) -> Seq<Seq<u8>>
    decreases s.len() - from,
{
    let end = token_end(kind, s, from);
    let sep = separator_len(kind, s, end);
    if sep > 0 && from < end + sep {
        seq![s.subrange(from, end)] + tokens(kind, s, end + sep)
    } else {
        seq![s.subrange(from, end)]
    }
}

/// Where the list of tokens that starts at `from` ends.
pub open spec fn tokens_end(kind: TokenKind, s: Seq<u8>, from: int) -> int
    decreases s.len() - from,
{
    let end = token_end(kind, s, from);
    let sep = separator_len(kind, s, end);
    if sep > 0 && from < end + sep {
        tokens_end(kind, s, end + sep)
    } else {
        end
    }
}

/// A run of token bytes ends between its start and the end of the input,
/// and holds token bytes only.
pub proof fn lemma_token_end(kind: TokenKind, s: Seq<u8>, from: int)
    requires
        0 <= from <= s.len(),
    ensures
        from <= token_end(kind, s, from) <= s.len(),
        forall|i: int| from <= i < token_end(kind, s, from) ==> is_token_byte(kind, #[trigger] s[i]),
        token_end(kind, s, from) < s.len() ==> !is_token_byte(
            kind,
            s[token_end(kind, s, from)],
        ),
    decreases s.len() - from,
{
    if from < s.len() && is_token_byte(kind, s[from]) {
        lemma_token_end(kind, s, from + 1);
    }
}

/// There is always at least one token, every token holds token bytes
/// only, and the list ends within the input.
pub proof fn lemma_tokens(kind: TokenKind, s: Seq<u8>, from: int)
    requires
        0 <= from <= s.len(),
    ensures
        tokens(kind, s, from).len() >= 1,
        tokens(kind, s, from)[0] == s.subrange(from, token_end(kind, s, from)),
        forall|k: int, i: int|
            0 <= k < tokens(kind, s, from).len() && 0 <= i < tokens(kind, s, from)[k].len()
                ==> is_token_byte(kind, #[trigger] tokens(kind, s, from)[k][i]),
        from <= tokens_end(kind, s, from) <= s.len(),
    decreases s.len() - from,
{
    lemma_token_end(kind, s, from);
    let end = token_end(kind, s, from);
    let sep = separator_len(kind, s, end);
    let first = s.subrange(from, end);
    assert forall|i: int| 0 <= i < first.len() implies is_token_byte(kind, #[trigger] first[i]) by {
        assert(first[i] == s[from + i]);
    }
    if sep > 0 {
        lemma_tokens(kind, s, end + sep);
        let rest = tokens(kind, s, end + sep);
        let all = tokens(kind, s, from);
        assert(all == seq![first] + rest);
        assert forall|k: int, i: int| 0 <= k < all.len() && 0 <= i < all[k].len() implies is_token_byte(
            kind,
            #[trigger] all[k][i],
        ) by {
            if k > 0 {
                assert(all[k] == rest[k - 1]);
            }
        }
    }
}

/// Tells whether a byte may stand in a token of the given kind.
pub fn is_token(kind: TokenKind, b: u8) -> (r: bool)
    ensures
        r == is_token_byte(kind, b),
{
    match kind {
        TokenKind::Name => nom::character::is_alphabetic(b) || b == HYPHEN || b == PERIOD,
        TokenKind::Keyword => nom::character::is_alphabetic(b),
    }
}

fn scan_token(kind: TokenKind, i: &[u8], from: usize) -> (end: usize)
    requires
        from <= i@.len(),
    ensures
        end == token_end(kind, i@, from as int),
        from <= end <= i@.len(),
{
    let mut end = from;
    while end < i.len() && is_token(kind, i[end])
        invariant
            from <= end <= i@.len(),
            token_end(kind, i@, end as int) == token_end(kind, i@, from as int),
        decreases i@.len() - end,
    {
        end = end + 1;
    }
    end
}

fn scan_separator(kind: TokenKind, i: &[u8], at: usize) -> (n: usize)
    requires
        at <= i@.len(),
    ensures
        n == separator_len(kind, i@, at as int),
        at + n <= i@.len(),
{
    if kind == TokenKind::Name && i.len() - at >= 2 && i[at] == COMMA && i[at + 1] == SPACE {
        2
    } else if at < i.len() && i[at] == SPACE {
        1
    } else {
        0
    }
}

/// The byte sequences that a list of slices holds.
pub open spec fn slices_view(v: Seq<&[u8]>) -> Seq<Seq<u8>> {
    Seq::new(v.len(), |k: int| v[k]@)
}

/// Splits the input from `from` on into tokens, and says where the list
/// ends.
pub(crate) fn parse_tokens<'a>(kind: TokenKind, i: &'a [u8], from: usize) -> (r: (usize, Vec<&'a [u8]>))
    requires
        from <= i@.len(),
    ensures
        r.0 == tokens_end(kind, i@, from as int),
        from <= r.0 <= i@.len(),
        slices_view(r.1@) == tokens(kind, i@, from as int),
{
    let n = i.len();
    let mut toks: Vec<&'a [u8]> = Vec::new();
    let mut pos = from;
    let mut end = from;
    let mut done = false;
    assert(slices_view(toks@) + tokens(kind, i@, pos as int) =~= tokens(kind, i@, from as int));
    while !done
        invariant
            n == i@.len(),
            from <= pos <= i@.len(),
            from <= end <= i@.len(),
            !done ==> slices_view(toks@) + tokens(kind, i@, pos as int) == tokens(
                kind,
                i@,
                from as int,
            ),
            !done ==> tokens_end(kind, i@, pos as int) == tokens_end(kind, i@, from as int),
            done ==> slices_view(toks@) == tokens(kind, i@, from as int),
            done ==> end == tokens_end(kind, i@, from as int),
        decreases i@.len() - pos + (if done { 0int } else { 1int }),
    {
        end = scan_token(kind, i, pos);
        let ghost before = slices_view(toks@);
        let tok = slice_subrange(i, pos, end);
        toks.push(tok);
        assert(slices_view(toks@) =~= before + seq![i@.subrange(pos as int, end as int)]);
        let sep = scan_separator(kind, i, end);
        if sep == 0 {
            done = true;
        } else {
            assert(before + (seq![i@.subrange(pos as int, end as int)] + tokens(
                kind,
                i@,
                end + sep,
            )) =~= before + seq![i@.subrange(pos as int, end as int)] + tokens(
                kind,
                i@,
                end + sep,
            ));
            pos = end + sep;
        }
    }
    (end, toks)
}

/// Matches the tag of `letter` at the start of the input, and hands back
/// what follows the tag and the tag itself.
pub fn parse_tag<'a>(i: &'a [u8], letter: u8) -> (r: Option<(&'a [u8], &'a [u8])>)
    ensures
        r is Some <==> has_tag(i@, letter),
        r matches Some(p) ==> p.0@ == payload(i@) && p.1@ == i@.subrange(0, 3),
{
    if i.len() >= 3 && i[0] == PERCENT && i[1] == letter && i[2] == SPACE {
        Some((slice_subrange(i, 3, i.len()), slice_subrange(i, 0, 3)))
    } else {
        None
    }
}

/// Parse author tag.
pub fn parse_author_tag<'a>(i: &'a [u8]) -> (r: Option<(&'a [u8], &'a [u8])>)
    ensures
        r is Some <==> has_tag(i@, TAG_AUTHOR),
        r matches Some(p) ==> p.0@ == payload(i@) && p.1@ == i@.subrange(0, 3),
{
    parse_tag(i, TAG_AUTHOR)
}

/// Parse the book title.
pub fn parse_book_line<'a>(i: &'a [u8]) -> (r: Option<(&'a [u8], &'a [u8])>)
    ensures
        r is Some <==> has_tag(i@, TAG_BOOK),
        r matches Some(p) ==> p.0@ == payload(i@) && p.1@ == i@.subrange(0, 3),
{
    parse_tag(i, TAG_BOOK)
}

/// Parse place line.
pub fn parse_place_line<'a>(i: &'a [u8]) -> (r: Option<(&'a [u8], &'a [u8])>)
    ensures
        r is Some <==> has_tag(i@, TAG_PLACE),
        r matches Some(p) ==> p.0@ == payload(i@) && p.1@ == i@.subrange(0, 3),
{
    parse_tag(i, TAG_PLACE)
}

/// Parse the date line.
pub fn parse_date_line<'a>(i: &'a [u8]) -> (r: Option<(&'a [u8], &'a [u8])>)
    ensures
        r is Some <==> has_tag(i@, TAG_DATE),
        r matches Some(p) ==> p.0@ == payload(i@) && p.1@ == i@.subrange(0, 3),
{
    parse_tag(i, TAG_DATE)
}

/// Parse the editor line.
pub fn parse_editor_line<'a>(i: &'a [u8]) -> (r: Option<(&'a [u8], &'a [u8])>)
    ensures
        r is Some <==> has_tag(i@, TAG_EDITOR),
        r matches Some(p) ==> p.0@ == payload(i@) && p.1@ == i@.subrange(0, 3),
{
    parse_tag(i, TAG_EDITOR)
}

/// Parse US Government ordering number line.
pub fn parse_government_line<'a>(i: &'a [u8]) -> (r: Option<(&'a [u8], &'a [u8])>)
    ensures
        r is Some <==> has_tag(i@, TAG_GOVERNMENT),
        r matches Some(p) ==> p.0@ == payload(i@) && p.1@ == i@.subrange(0, 3),
{
    parse_tag(i, TAG_GOVERNMENT)
}

/// Parse issuer line.
pub fn parse_issuer_line<'a>(i: &'a [u8]) -> (r: Option<(&'a [u8], &'a [u8])>)
    ensures
        r is Some <==> has_tag(i@, TAG_ISSUER),
        r matches Some(p) ==> p.0@ == payload(i@) && p.1@ == i@.subrange(0, 3),
{
    parse_tag(i, TAG_ISSUER)
}

/// Parse journal line.
pub fn parse_journal_line<'a>(i: &'a [u8]) -> (r: Option<(&'a [u8], &'a [u8])>)
    ensures
        r is Some <==> has_tag(i@, TAG_JOURNAL),
        r matches Some(p) ==> p.0@ == payload(i@) && p.1@ == i@.subrange(0, 3),
{
    parse_tag(i, TAG_JOURNAL)
}

/// Parse keywords tag.
pub fn parse_keywords_tag<'a>(i: &'a [u8]) -> (r: Option<(&'a [u8], &'a [u8])>)
    ensures
        r is Some <==> has_tag(i@, TAG_KEYWORDS),
        r matches Some(p) ==> p.0@ == payload(i@) && p.1@ == i@.subrange(0, 3),
{
    parse_tag(i, TAG_KEYWORDS)
}

/// Parse label line.
pub fn parse_label_line<'a>(i: &'a [u8]) -> (r: Option<(&'a [u8], &'a [u8])>)
    ensures
        r is Some <==> has_tag(i@, TAG_LABEL),
        r matches Some(p) ==> p.0@ == payload(i@) && p.1@ == i@.subrange(0, 3),
{
    parse_tag(i, TAG_LABEL)
}

/// Parse issue number line.
pub fn parse_issue_number_line<'a>(i: &'a [u8]) -> (r: Option<(&'a [u8], &'a [u8])>)
    ensures
        r is Some <==> has_tag(i@, TAG_ISSUE_NUMBER),
        r matches Some(p) ==> p.0@ == payload(i@) && p.1@ == i@.subrange(0, 3),
{
    parse_tag(i, TAG_ISSUE_NUMBER)
}

/// Parse other information line.
pub fn parse_other_line<'a>(i: &'a [u8]) -> (r: Option<(&'a [u8], &'a [u8])>)
    ensures
        r is Some <==> has_tag(i@, TAG_OTHER),
        r matches Some(p) ==> p.0@ == payload(i@) && p.1@ == i@.subrange(0, 3),
{
    parse_tag(i, TAG_OTHER)
}

/// Parse page number line.
pub fn parse_page_number_line<'a>(i: &'a [u8]) -> (r: Option<(&'a [u8], &'a [u8])>)
    ensures
        r is Some <==> has_tag(i@, TAG_PAGE_NUMBER),
        r matches Some(p) ==> p.0@ == payload(i@) && p.1@ == i@.subrange(0, 3),
{
    parse_tag(i, TAG_PAGE_NUMBER)
}

/// Parse author line (not a person).
pub fn parse_author_np_line<'a>(i: &'a [u8]) -> (r: Option<(&'a [u8], &'a [u8])>)
    ensures
        r is Some <==> has_tag(i@, TAG_AUTHOR_NP),
        r matches Some(p) ==> p.0@ == payload(i@) && p.1@ == i@.subrange(0, 3),
{
    parse_tag(i, TAG_AUTHOR_NP)
}

/// Parse technical report number line.
pub fn parse_report_line<'a>(i: &'a [u8]) -> (r: Option<(&'a [u8], &'a [u8])>)
    ensures
        r is Some <==> has_tag(i@, TAG_REPORT),
        r matches Some(p) ==> p.0@ == payload(i@) && p.1@ == i@.subrange(0, 3),
{
    parse_tag(i, TAG_REPORT)
}

/// Parse series name line.
pub fn parse_series_line<'a>(i: &'a [u8]) -> (r: Option<(&'a [u8], &'a [u8])>)
    ensures
        r is Some <==> has_tag(i@, TAG_SERIES),
        r matches Some(p) ==> p.0@ == payload(i@) && p.1@ == i@.subrange(0, 3),
{
    parse_tag(i, TAG_SERIES)
}

/// Parse title line.
pub fn parse_title_line<'a>(i: &'a [u8]) -> (r: Option<(&'a [u8], &'a [u8])>)
    ensures
        r is Some <==> has_tag(i@, TAG_TITLE),
        r matches Some(p) ==> p.0@ == payload(i@) && p.1@ == i@.subrange(0, 3),
{
    parse_tag(i, TAG_TITLE)
}

/// Parse volume line.
pub fn parse_volume_line<'a>(i: &'a [u8]) -> (r: Option<(&'a [u8], &'a [u8])>)
    ensures
        r is Some <==> has_tag(i@, TAG_VOLUME),
        r matches Some(p) ==> p.0@ == payload(i@) && p.1@ == i@.subrange(0, 3),
{
    parse_tag(i, TAG_VOLUME)
}

/// Parse annotation line.
pub fn parse_annotation_line<'a>(i: &'a [u8]) -> (r: Option<(&'a [u8], &'a [u8])>)
    ensures
        r is Some <==> has_tag(i@, TAG_ANNOTATION),
        r matches Some(p) ==> p.0@ == payload(i@) && p.1@ == i@.subrange(0, 3),
{
    parse_tag(i, TAG_ANNOTATION)
}

/// The letters of the fields that hold one text each.
pub open spec fn is_field_letter(l: u8) -> bool {
    l == TAG_BOOK || l == TAG_PLACE || l == TAG_DATE || l == TAG_GOVERNMENT || l == TAG_ISSUER
        || l == TAG_JOURNAL || l == TAG_LABEL || l == TAG_ISSUE_NUMBER || l == TAG_OTHER || l
        == TAG_PAGE_NUMBER || l == TAG_AUTHOR_NP || l == TAG_REPORT || l == TAG_SERIES || l
        == TAG_TITLE || l == TAG_VOLUME || l == TAG_ANNOTATION
}

/// A line of one of the fields that hold one text each.
pub open spec fn is_field_line(line: Seq<u8>) -> bool {
    line.len() >= 3 && line[0] == PERCENT && is_field_letter(line[1]) && line[2] == SPACE
}

/// The classifiers of the single-valued fields, tried in their fixed
/// order; the first that matches wins.
pub fn parse_field_line<'a>(i: &'a [u8]) -> (r: Option<(&'a [u8], &'a [u8])>)
    ensures
        r is Some <==> is_field_line(i@),
        r matches Some(p) ==> p.0@ == payload(i@) && p.1@ == i@.subrange(0, 3),
{
    if let Some(p) = parse_book_line(i) {
        return Some(p);
    }
    if let Some(p) = parse_place_line(i) {
        return Some(p);
    }
    if let Some(p) = parse_date_line(i) {
        return Some(p);
    }
    if let Some(p) = parse_government_line(i) {
        return Some(p);
    }
    if let Some(p) = parse_issuer_line(i) {
        return Some(p);
    }
    if let Some(p) = parse_journal_line(i) {
        return Some(p);
    }
    if let Some(p) = parse_label_line(i) {
        return Some(p);
    }
    if let Some(p) = parse_issue_number_line(i) {
        return Some(p);
    }
    if let Some(p) = parse_other_line(i) {
        return Some(p);
    }
    if let Some(p) = parse_page_number_line(i) {
        return Some(p);
    }
    if let Some(p) = parse_author_np_line(i) {
        return Some(p);
    }
    if let Some(p) = parse_report_line(i) {
        return Some(p);
    }
    if let Some(p) = parse_series_line(i) {
        return Some(p);
    }
    if let Some(p) = parse_title_line(i) {
        return Some(p);
    }
    if let Some(p) = parse_volume_line(i) {
        return Some(p);
    }
    parse_annotation_line(i)
}

/// Parse the author name: the names of the input, and what follows them.
pub fn parse_author_name<'a>(i: &'a [u8]) -> (r: Option<(&'a [u8], Vec<&'a [u8]>)>)
    ensures
        r matches Some(p) && p.0@ == i@.subrange(
            tokens_end(TokenKind::Name, i@, 0),
            i@.len() as int,
        ) && slices_view(p.1@) == tokens(TokenKind::Name, i@, 0),
{
    let (end, toks) = parse_tokens(TokenKind::Name, i, 0);
    Some((slice_subrange(i, end, i.len()), toks))
}

/// Parse all keywords in a keyword line: the words of the input, and what
/// follows them.
pub fn parse_all_keywords<'a>(i: &'a [u8]) -> (r: Option<(&'a [u8], Vec<&'a [u8]>)>)
    ensures
        r matches Some(p) && p.0@ == i@.subrange(
            tokens_end(TokenKind::Keyword, i@, 0),
            i@.len() as int,
        ) && slices_view(p.1@) == tokens(TokenKind::Keyword, i@, 0),
{
    let (end, toks) = parse_tokens(TokenKind::Keyword, i, 0);
    Some((slice_subrange(i, end, i.len()), toks))
}

/// The texts of a list of ASCII byte sequences.
pub open spec fn texts(toks: Seq<Seq<u8>>) -> Seq<Seq<char>> {
    Seq::new(toks.len(), |k: int| ascii_text(toks[k]))
}

/// The message of a line that no field matches.
pub open spec fn nom_message(line_no: nat, text: Seq<char>) -> Seq<char> {
    "At line: "@ + decimal(line_no) + ". Parsing error with code ("@ + "Tag"@ + "): "@ + text
}

/// The message of an author line with fewer than two names.
pub open spec fn author_message(text: Seq<char>) -> Seq<char> {
    "Input error: "@ + text
        + ". `Number of names should be of length 2 or more, found 0 or 1"@
}

/// The message of a keyword line without its tag.
pub open spec fn keyword_message(text: Seq<char>) -> Seq<char> {
    "Keyword line parsing error with code ("@ + "Tag"@ + "): "@ + text
}

/// The author that a list of at least two names stands for: the first
/// name is the surname, the others are joined by single spaces.
pub open spec fn author_of(toks: Seq<Seq<u8>>) -> AuthorView {
    AuthorView { last: ascii_text(toks[0]), rest: joined(texts(toks.skip(1)), " "@) }
}

/// What an author line means: the author, or the error that it is refused
/// with. A line without the author tag is a line that no field matches; a
/// line with fewer than two names is an author error. Where the message
/// needs the line as text and the line is not UTF-8, the error is that.
pub open spec fn author_line(line: Seq<u8>, line_no: nat) -> Result<AuthorView, ErrorView> {
    if !valid_utf8(line) && (!has_tag(line, TAG_AUTHOR) || tokens(
        TokenKind::Name,
        payload(line),
        0,
    ).len() < 2) {
        Err(ErrorView::Utf8)
    } else if !has_tag(line, TAG_AUTHOR) {
        Err(ErrorView::NomError(nom_message(line_no, decode_utf8(line))))
    } else if tokens(TokenKind::Name, payload(line), 0).len() < 2 {
        Err(ErrorView::Author(author_message(decode_utf8(line))))
    } else {
        Ok(author_of(tokens(TokenKind::Name, payload(line), 0)))
    }
}

/// What a keyword line means: its words, or the error that it is refused
/// with.
pub open spec fn keywords_line(line: Seq<u8>) -> Result<Seq<Seq<u8>>, ErrorView> {
    if has_tag(line, TAG_KEYWORDS) {
        Ok(tokens(TokenKind::Keyword, payload(line), 0))
    } else if valid_utf8(line) {
        Err(ErrorView::Keyword(keyword_message(decode_utf8(line))))
    } else {
        Err(ErrorView::Utf8)
    }
}

fn nom_error(line_no: u64, text: &str) -> (e: Error)
    ensures
        e@ == ErrorView::NomError(nom_message(line_no as nat, text@)),
{
    let mut msg = String::new();
    msg.append("At line: ");
    let n = decimal_string(line_no);
    msg.append(n.as_str());
    msg.append(". Parsing error with code (");
    msg.append(tag_code_description());
    msg.append("): ");
    msg.append(text);
    assert(msg@ =~= nom_message(line_no as nat, text@));
    Error::new(ErrorKind::NomError(msg))
}

fn author_error(text: &str) -> (e: Error)
    ensures
        e@ == ErrorView::Author(author_message(text@)),
{
    let mut msg = String::new();
    msg.append("Input error: ");
    msg.append(text);
    msg.append(". `Number of names should be of length 2 or more, found 0 or 1");
    assert(msg@ =~= author_message(text@));
    Error::new(ErrorKind::Author(msg))
}

fn keyword_error(text: &str) -> (e: Error)
    ensures
        e@ == ErrorView::Keyword(keyword_message(text@)),
{
    let mut msg = String::new();
    msg.append("Keyword line parsing error with code (");
    msg.append(tag_code_description());
    msg.append("): ");
    msg.append(text);
    assert(msg@ =~= keyword_message(text@));
    Error::new(ErrorKind::Keyword(msg))
}

/// The texts of the tokens from `from` on.
pub(crate) fn token_strings(kind: TokenKind, toks: &Vec<&[u8]>, from: usize) -> (r: Vec<String>)
    requires
        from <= toks@.len(),
        forall|k: int, i: int|
            0 <= k < toks@.len() && 0 <= i < toks@[k]@.len() ==> is_token_byte(
                kind,
                #[trigger] toks@[k]@[i],
            ),
    ensures
        r.deep_view() == texts(slices_view(toks@).skip(from as int)),
{
    let mut out: Vec<String> = Vec::new();
    let mut k = from;
    let ghost all = slices_view(toks@);
    while k < toks.len()
        invariant
            from <= k <= toks@.len(),
            all == slices_view(toks@),
            out@.len() == k - from,
            forall|j: int| 0 <= j < out@.len() ==> #[trigger] out@[j]@ == ascii_text(all[from + j]),
            forall|k: int, i: int|
                0 <= k < toks@.len() && 0 <= i < toks@[k]@.len() ==> is_token_byte(
                    kind,
                    #[trigger] toks@[k]@[i],
                ),
        decreases toks@.len() - k,
    {
        let tok = toks[k];
        assert(is_ascii_bytes(tok@)) by {
            assert forall|i: int| 0 <= i < tok@.len() implies #[trigger] tok@[i] < 0x80 by {
                assert(is_token_byte(kind, toks@[k as int]@[i]));
            }
        }
        let s = ascii_string(tok);
        out.push(s);
        k = k + 1;
    }
    assert(out.deep_view() =~= texts(all.skip(from as int)));
    out
}

/// Parse the author line.
pub fn parse_author_line(line: &[u8], line_no: u64) -> (r: Result<Author, Error>)
    ensures
        agrees_view(r, author_line(line@, line_no as nat)),
{
    let rest = match parse_author_tag(line) {
        Some(p) => p.0,
        None => {
            return match str_from_utf8(line) {
                Ok(text) => Err(nom_error(line_no, text)),
                Err(e) => Err(e),
            };
        },
    };
    let parsed = match parse_author_name(rest) {
        Some(p) => p.1,
        None => Vec::new(),
    };
    proof {
        lemma_tokens(TokenKind::Name, rest@, 0);
    }
    if parsed.len() < 2 {
        return match str_from_utf8(line) {
            Ok(text) => Err(author_error(text)),
            Err(e) => Err(e),
        };
    }
    let ghost toks = slices_view(parsed@);
    assert forall|k: int, i: int|
        0 <= k < parsed@.len() && 0 <= i < parsed@[k]@.len() implies is_token_byte(
        TokenKind::Name,
        #[trigger] parsed@[k]@[i],
    ) by {
        assert(parsed@[k]@ == toks[k]);
    }
    assert(is_ascii_bytes(parsed@[0]@)) by {
        assert forall|i: int| 0 <= i < parsed@[0]@.len() implies #[trigger] parsed@[0]@[i]
            < 0x80 by {
            assert(is_token_byte(TokenKind::Name, parsed@[0]@[i]));
        }
    }
    let last = ascii_string(parsed[0]);
    let names = token_strings(TokenKind::Name, &parsed, 1);
    let mut rest_names = String::new();
    push_joined(&mut rest_names, &names, " ");
    assert(rest_names@ =~= joined(texts(toks.skip(1)), " "@));
    Ok(Author { last, rest: rest_names })
}

/// Parse the full keywords line.
pub fn parse_keywords_line<'a>(i: &'a [u8]) -> (r: Result<Vec<&'a [u8]>, Error>)
    ensures
        match keywords_line(i@) {
            Ok(t) => r is Ok && slices_view(r->Ok_0@) == t,
            Err(e) => r is Err && r->Err_0@ == e,
        },
{
    match parse_keywords_tag(i) {
        Some(p) => {
            match parse_all_keywords(p.0) {
                Some(q) => Ok(q.1),
                None => Ok(Vec::new()),
            }
        },
        None => {
            match str_from_utf8(i) {
                Ok(text) => Err(keyword_error(text)),
                Err(e) => Err(e),
            }
        },
    }
}

/// The record with the single-valued field of `letter` set to `v`.
pub open spec fn with_field(acc: RecordView, letter: u8, v: Seq<char>) -> RecordView {
    if letter == TAG_BOOK {
        RecordView { book: Some(v), ..acc }
    } else if letter == TAG_PLACE {
        RecordView { place: Some(v), ..acc }
    } else if letter == TAG_DATE {
        RecordView { date: Some(v), ..acc }
    } else if letter == TAG_GOVERNMENT {
        RecordView { government: Some(v), ..acc }
    } else if letter == TAG_ISSUER {
        RecordView { issuer: Some(v), ..acc }
    } else if letter == TAG_JOURNAL {
        RecordView { journal: Some(v), ..acc }
    } else if letter == TAG_LABEL {
        RecordView { label: Some(v), ..acc }
    } else if letter == TAG_ISSUE_NUMBER {
        RecordView { issue_number: Some(v), ..acc }
    } else if letter == TAG_OTHER {
        RecordView { other: Some(v), ..acc }
    } else if letter == TAG_PAGE_NUMBER {
        RecordView { page_number: Some(v), ..acc }
    } else if letter == TAG_AUTHOR_NP {
        RecordView { author_np: Some(v), ..acc }
    } else if letter == TAG_REPORT {
        RecordView { report: Some(v), ..acc }
    } else if letter == TAG_SERIES {
        RecordView { series: Some(v), ..acc }
    } else if letter == TAG_TITLE {
        RecordView { title: Some(v), ..acc }
    } else if letter == TAG_VOLUME {
        RecordView { volume: Some(v), ..acc }
    } else if letter == TAG_ANNOTATION {
        RecordView { annotation: Some(v), ..acc }
    } else {
        acc
    }
}

/// What one line does to the record that is being built.
///
/// The tags are tried in a fixed order: author, keywords, editor, then the
/// single-valued fields. An author line adds an author, or is refused when
/// it has fewer than two names. A keyword line sets the keyword list. An
/// editor line adds its trimmed payload to the editors. A line of a
/// single-valued field sets the field to its trimmed payload, and leaves
/// the record as it is when that is empty. Any other line is refused.
pub open spec fn fold_line(line: Seq<u8>, acc: RecordView, line_no: nat) -> Result<
    RecordView,
    ErrorView,
> {
    if has_tag(line, TAG_AUTHOR) {
        let toks = tokens(TokenKind::Name, payload(line), 0);
        if toks.len() < 2 {
            Err(ErrorView::Author(author_message(decode_utf8(line))))
        } else {
            Ok(RecordView { author: acc.author.push(author_of(toks)), ..acc })
        }
    } else if has_tag(line, TAG_KEYWORDS) {
        Ok(
            RecordView {
                keywords: Some(texts(tokens(TokenKind::Keyword, payload(line), 0))),
                ..acc
            },
        )
    } else if has_tag(line, TAG_EDITOR) {
        Ok(RecordView { editor: acc.editor.push(trimmed(decode_utf8(payload(line)))), ..acc })
    } else if is_field_line(line) {
        let v = trimmed(decode_utf8(payload(line)));
        if v.len() == 0 {
            Ok(acc)
        } else {
            Ok(with_field(acc, line[1], v))
        }
    } else {
        Err(ErrorView::NomError(nom_message(line_no, decode_utf8(line))))
    }
}

fn is_author_error(e: &Error) -> (r: bool)
    ensures
        r == (e@ is Author),
{
    match e.kind() {
        ErrorKind::Author(_) => true,
        _ => false,
    }
}

fn assign_field(record: &mut Record, letter: u8, value: String) -> (known: bool)
    ensures
        known == is_field_letter(letter),
        final(record)@ == with_field(old(record)@, letter, value@),
{
    if letter == TAG_BOOK {
        record.book = Some(value);
    } else if letter == TAG_PLACE {
        record.place = Some(value);
    } else if letter == TAG_DATE {
        record.date = Some(value);
    } else if letter == TAG_GOVERNMENT {
        record.government = Some(value);
    } else if letter == TAG_ISSUER {
        record.issuer = Some(value);
    } else if letter == TAG_JOURNAL {
        record.journal = Some(value);
    } else if letter == TAG_LABEL {
        record.label = Some(value);
    } else if letter == TAG_ISSUE_NUMBER {
        record.issue_number = Some(value);
    } else if letter == TAG_OTHER {
        record.other = Some(value);
    } else if letter == TAG_PAGE_NUMBER {
        record.page_number = Some(value);
    } else if letter == TAG_AUTHOR_NP {
        record.author_np = Some(value);
    } else if letter == TAG_REPORT {
        record.report = Some(value);
    } else if letter == TAG_SERIES {
        record.series = Some(value);
    } else if letter == TAG_TITLE {
        record.title = Some(value);
    } else if letter == TAG_VOLUME {
        record.volume = Some(value);
    } else if letter == TAG_ANNOTATION {
        record.annotation = Some(value);
    } else {
        return false;
    }
    true
}

/// The payload of a line of text is text.
pub proof fn lemma_payload_is_text(line: Seq<u8>)
    requires
        valid_utf8(line),
        line.len() >= 3,
        line[0] < 0x80,
        line[1] < 0x80,
        line[2] < 0x80,
    ensures
        valid_utf8(payload(line)),
        valid_utf8(line.subrange(0, 3)),
{
    assert(is_ascii_bytes(line.subrange(0, 3))) by {
        assert forall|i: int| 0 <= i < 3 implies #[trigger] line.subrange(0, 3)[i] < 0x80 by {
            assert(line.subrange(0, 3)[i] == line[i]);
        }
    }
    lemma_valid_after_ascii(line, 3);
    lemma_ascii_bytes_decode(line.subrange(0, 3));
}

/// Parse a single line from an input string into a mutable `Record`
/// instance. On success the record is what [`fold_line`] makes of it; on
/// failure the record is unchanged.
pub fn parse_input_line(input: String, record: &mut Record, line_no: u64) -> (r: Result<
    Option<()>,
    Error,
>)
    ensures
        match fold_line(encode_utf8(input@), old(record)@, line_no as nat) {
            Ok(v) => r == Ok::<Option<()>, Error>(Some(())) && final(record)@ == v,
            Err(e) => r is Err && r->Err_0@ == e && final(record)@ == old(record)@,
        },
{
    let bytes = input.as_str().as_bytes();
    proof {
        encode_utf8_valid_utf8(input@);
        encode_utf8_decode_utf8(input@);
    }
    // the authors
    match parse_author_line(bytes, line_no) {
        Ok(author) => {
            let ghost before = record.author.deep_view();
            record.author.push(author);
            assert(record.author.deep_view() =~= before.push(author@));
            return Ok(Some(()));
        },
        Err(e) => {
            if is_author_error(&e) {
                return Err(e);
            }
        },
    }
    // the keywords
    match parse_keywords_line(bytes) {
        Ok(keywords) => {
            proof {
                lemma_tokens(TokenKind::Keyword, payload(bytes@), 0);
            }
            let ghost toks = slices_view(keywords@);
            assert forall|k: int, i: int|
                0 <= k < keywords@.len() && 0 <= i < keywords@[k]@.len() implies is_token_byte(
                TokenKind::Keyword,
                #[trigger] keywords@[k]@[i],
            ) by {
                assert(keywords@[k]@ == toks[k]);
            }
            let words = token_strings(TokenKind::Keyword, &keywords, 0);
            assert(toks.skip(0) =~= toks);
            record.keywords = Some(words);
            return Ok(Some(()));
        },
        Err(_) => {},
    }
    // the editors
    if let Some(p) = parse_editor_line(bytes) {
        proof {
            lemma_payload_is_text(bytes@);
        }
        match str_from_utf8(p.0) {
            Ok(text) => {
                let ghost before = record.editor.deep_view();
                let editor = text.trim().to_owned();
                record.editor.push(editor);
                assert(record.editor.deep_view() =~= before.push(editor@));
                return Ok(Some(()));
            },
            Err(e) => {
                return Err(e);
            },
        }
    }
    // the remaining fields, by the first classifier that matches
    let (parsed, line_tag) = match parse_field_line(bytes) {
        Some(p) => p,
        None => {
            return Err(nom_error(line_no, input.as_str()));
        },
    };
    proof {
        lemma_payload_is_text(bytes@);
    }
    let tag = match str_from_utf8(line_tag) {
        Ok(t) => t,
        Err(e) => {
            return Err(e);
        },
    };
    let value = match str_from_utf8(parsed) {
        Ok(text) => text.trim().to_owned(),
        Err(e) => {
            return Err(e);
        },
    };
    // skip empty fields
    if value.as_str().is_empty() {
        return Ok(Some(()));
    }
    if assign_field(record, line_tag[1], value) {
        Ok(Some(()))
    } else {
        // the classifiers above admit no other tag
        Err(Error::new(ErrorKind::TagNotFound(tag.to_owned())))
    }
}

/// The names of an author line decide: with one name the line is refused
/// with an author error, with two or more it is accepted, and the first
/// name is the surname of the author that it adds.
pub proof fn law_author_names(line: Seq<u8>, acc: RecordView, line_no: nat)
    requires
        has_tag(line, TAG_AUTHOR),
    ensures
        tokens(TokenKind::Name, payload(line), 0).len() >= 1,
        tokens(TokenKind::Name, payload(line), 0).len() == 1 ==> fold_line(line, acc, line_no)
            == Err::<RecordView, ErrorView>(
            ErrorView::Author(author_message(decode_utf8(line))),
        ),
        tokens(TokenKind::Name, payload(line), 0).len() >= 2 ==> fold_line(line, acc, line_no)
            is Ok && fold_line(line, acc, line_no)->Ok_0.author.len() == acc.author.len() + 1
            && fold_line(line, acc, line_no)->Ok_0.author.last().last == ascii_text(
            tokens(TokenKind::Name, payload(line), 0)[0],
        ),
{
    lemma_tokens(TokenKind::Name, payload(line), 0);
}

} // verus!
