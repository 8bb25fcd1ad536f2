//! What holds between the canonical text of a record and the reader: a
//! record of the shape that the field grammar produces is read back from
//! its text.
use vstd::prelude::*;
use vstd::string::*;
use vstd::utf8::*;
use crate::error::ErrorView;
use crate::writer::{fold_lines, record_bytes};
use crate::grammar::{
    author_of, fold_line, has_tag, is_field_letter, is_field_line,
    is_token_byte, lemma_token_end, lemma_tokens, payload, separator_len, texts, token_end, tokens,
    tokens_end, with_field, TokenKind, TAG_ANNOTATION, TAG_AUTHOR, TAG_AUTHOR_NP, TAG_BOOK,
    TAG_DATE, TAG_EDITOR, TAG_GOVERNMENT, TAG_ISSUER, TAG_ISSUE_NUMBER, TAG_JOURNAL, TAG_KEYWORDS,
    TAG_LABEL, TAG_OTHER, TAG_PAGE_NUMBER, TAG_PLACE, TAG_REPORT, TAG_SERIES, TAG_TITLE,
    TAG_VOLUME,
};
use crate::reader::{
    is_blank_line, lemma_line_len_is, lemma_read_blank_line, line_len, read_step, ReadOutcome,
    ReadStep,
};
use crate::record::{
    author_lines, editor_lines, field_line, joined, keyword_line, AuthorView, RecordView,
};
use crate::text::{
    ascii_bytes, ascii_text, has_no_newline, is_blank, is_trimmed, is_white_space,
    lemma_encode_ascii, lemma_encode_concat, lemma_encode_has_no_newline, lemma_not_blank,
    lemma_trimmed_before_newline, trimmed, COMMA, NEWLINE, PERCENT, SPACE,
};

verus! {

/// The ASCII letters.
pub open spec fn is_letter(c: char) -> bool {
    ('A' <= c <= 'Z') || ('a' <= c <= 'z')
}

/// The characters of a name: letters, the hyphen and the period.
pub open spec fn is_name_char(c: char) -> bool {
    is_letter(c) || c == '-' || c == '.'
}

/// A single name, which may be empty.
pub open spec fn is_name(s: Seq<char>) -> bool {
    forall|i: int| 0 <= i < s.len() ==> is_name_char(#[trigger] s[i])
}

/// Names with single spaces between them.
pub open spec fn is_names(s: Seq<char>) -> bool {
    forall|i: int| 0 <= i < s.len() ==> is_name_char(#[trigger] s[i]) || s[i] == ' '
}

/// A single word of letters, which may be empty.
pub open spec fn is_word(s: Seq<char>) -> bool {
    forall|i: int| 0 <= i < s.len() ==> is_letter(#[trigger] s[i])
}

/// An optional field is absent, or holds a trimmed text that is not
/// empty.
pub open spec fn is_field_value(value: Option<Seq<char>>) -> bool {
    value matches Some(v) ==> v.len() > 0 && is_trimmed(v)
}

/// The text of a tag: the percent sign, the letter and a space.
pub open spec fn is_tag_text(tag: Seq<char>, letter: u8) -> bool {
    tag.len() == 3 && tag[0] == '%' && tag[1] == letter as char && tag[2] == ' '
}

/// A line that ends with a line feed and holds no other is read as one
/// line: it is folded into the record, and the reader goes on after it or
/// fails with the error of the line.
pub proof fn lemma_read_line(body: Seq<char>, more: Seq<u8>, acc: RecordView, n: nat)
    requires
        has_no_newline(body),
        body.len() > 0,
        !is_white_space(body[0]),
    ensures
        read_step(encode_utf8(body + seq!['\n']) + more, acc, n) == (match fold_line(
            encode_utf8(body + seq!['\n']),
            acc,
            n + 1,
        ) {
            Ok(next) => read_step(more, next, n + 1),
            Err(e) => ReadStep { outcome: ReadOutcome::Failure(e), rest: more, line: n + 1 },
        }),
{
    let text = body + seq!['\n'];
    let line = encode_utf8(text);
    let bytes = line + more;
    lemma_encode_concat(body, seq!['\n']);
    lemma_encode_ascii(seq!['\n']);
    assert(encode_utf8(seq!['\n']) =~= seq![NEWLINE]);
    lemma_encode_has_no_newline(body);
    let m = line.len() as int;
    assert(m == encode_utf8(body).len() + 1);
    assert forall|j: int| 0 <= j < m - 1 implies bytes[j] != NEWLINE by {
        assert(bytes[j] == encode_utf8(body)[j]);
    }
    assert(bytes[m - 1] == NEWLINE);
    lemma_line_len_is(bytes, m);
    assert(bytes.subrange(0, m) =~= line);
    assert(bytes.subrange(m, bytes.len() as int) =~= more);
    encode_utf8_valid_utf8(text);
    encode_utf8_decode_utf8(text);
    assert(text[0] == body[0]);
    lemma_not_blank(text);
}

/// The bytes of a field line: the tag, then the payload and the line
/// feed.
proof fn lemma_line_bytes(tag: Seq<char>, letter: u8, rest: Seq<char>)
    requires
        is_tag_text(tag, letter),
        letter < 0x80,
    ensures
        encode_utf8(tag + rest) == seq![PERCENT, letter, SPACE] + encode_utf8(rest),
        encode_utf8(tag + rest).len() >= 3,
        encode_utf8(tag + rest)[0] == PERCENT,
        encode_utf8(tag + rest)[1] == letter,
        encode_utf8(tag + rest)[2] == SPACE,
        payload(encode_utf8(tag + rest)) == encode_utf8(rest),
        valid_utf8(encode_utf8(rest)),
        decode_utf8(encode_utf8(rest)) == rest,
{
    lemma_encode_concat(tag, rest);
    assert(is_ascii_chars(tag)) by {
        assert forall|i: int| 0 <= i < tag.len() implies '\0' <= #[trigger] tag[i] <= '\u{7f}' by {
            if i == 1 {
                assert(tag[1] == letter as char);
            }
        }
    }
    lemma_encode_ascii(tag);
    assert(encode_utf8(tag) =~= seq![PERCENT, letter, SPACE]);
    let line = encode_utf8(tag + rest);
    assert(payload(line) =~= encode_utf8(rest));
    encode_utf8_valid_utf8(rest);
    encode_utf8_decode_utf8(rest);
}

/// The line of a single-valued field sets the field to its payload.
pub proof fn lemma_fold_field_line(
    tag: Seq<char>,
    letter: u8,
    v: Seq<char>,
    acc: RecordView,
    n: nat,
)
    requires
        is_tag_text(tag, letter),
        is_field_letter(letter),
        v.len() > 0,
        is_trimmed(v),
    ensures
        fold_line(encode_utf8(tag + v + seq!['\n']), acc, n) == Ok::<RecordView, ErrorView>(
            with_field(acc, letter, v),
        ),
{
    let rest = v + seq!['\n'];
    assert(tag + v + seq!['\n'] =~= tag + rest);
    lemma_line_bytes(tag, letter, rest);
    lemma_trimmed_before_newline(v);
    let line = encode_utf8(tag + rest);
    assert(!has_tag(line, TAG_AUTHOR));
    assert(!has_tag(line, TAG_KEYWORDS));
    assert(!has_tag(line, TAG_EDITOR));
    assert(is_field_line(line));
}

/// The line of an editor adds its payload to the editors.
pub proof fn lemma_fold_editor_line(tag: Seq<char>, v: Seq<char>, acc: RecordView, n: nat)
    requires
        is_tag_text(tag, TAG_EDITOR),
        is_trimmed(v),
    ensures
        fold_line(encode_utf8(tag + v + seq!['\n']), acc, n) == Ok::<RecordView, ErrorView>(
            RecordView { editor: acc.editor.push(v), ..acc },
        ),
{
    let rest = v + seq!['\n'];
    assert(tag + v + seq!['\n'] =~= tag + rest);
    lemma_line_bytes(tag, TAG_EDITOR, rest);
    lemma_trimmed_before_newline(v);
    let line = encode_utf8(tag + rest);
    assert(!has_tag(line, TAG_AUTHOR));
    assert(!has_tag(line, TAG_KEYWORDS));
    assert(has_tag(line, TAG_EDITOR));
}

/// A run of token bytes ends where the first other byte stands.
proof fn lemma_token_end_is(kind: TokenKind, s: Seq<u8>, from: int, end: int)
    requires
        0 <= from <= end <= s.len(),
        forall|i: int| from <= i < end ==> is_token_byte(kind, #[trigger] s[i]),
        end == s.len() || !is_token_byte(kind, s[end]),
    ensures
        token_end(kind, s, from) == end,
    decreases end - from,
{
    if from < end {
        assert(is_token_byte(kind, s[from]));
        lemma_token_end_is(kind, s, from + 1, end);
    }
}

/// The tokens of a text of token bytes and single spaces, joined by
/// single spaces, are that text.
proof fn lemma_split_join(kind: TokenKind, s: Seq<u8>, from: int, stop: int)
    requires
        0 <= from <= stop <= s.len(),
        forall|i: int| from <= i < stop ==> is_token_byte(kind, #[trigger] s[i]) || s[i] == SPACE,
        stop == s.len() || (!is_token_byte(kind, s[stop]) && separator_len(kind, s, stop) == 0),
    ensures
        joined(texts(tokens(kind, s, from)), seq![' ']) == ascii_text(s.subrange(from, stop)),
        tokens_end(kind, s, from) == stop,
    decreases stop - from,
{
    lemma_token_end(kind, s, from);
    let end = token_end(kind, s, from);
    assert(end <= stop) by {
        if end > stop {
            assert(is_token_byte(kind, s[stop]));
        }
    }
    let first = s.subrange(from, end);
    if end == stop {
        assert(separator_len(kind, s, end) == 0);
        assert(tokens(kind, s, from) =~= seq![first]);
        assert(texts(seq![first]) =~= seq![ascii_text(first)]);
        assert(joined(seq![ascii_text(first)], seq![' ']) == ascii_text(first));
    } else {
        assert(!is_token_byte(kind, s[end]));
        assert(s[end] == SPACE);
        assert(separator_len(kind, s, end) == 1);
        lemma_split_join(kind, s, end + 1, stop);
        lemma_tokens(kind, s, end + 1);
        let rest = tokens(kind, s, end + 1);
        assert(tokens(kind, s, from) == seq![first] + rest);
        let parts = texts(seq![first] + rest);
        assert(parts.len() >= 2);
        assert(parts[0] == ascii_text(first));
        assert(parts.drop_first() =~= texts(rest));
        assert(joined(parts, seq![' ']) == ascii_text(first) + seq![' '] + joined(
            texts(rest),
            seq![' '],
        ));
        assert(ascii_text(first) + seq![' '] + ascii_text(s.subrange(end + 1, stop))
            =~= ascii_text(s.subrange(from, stop))) by {
            let l = ascii_text(first) + seq![' '] + ascii_text(s.subrange(end + 1, stop));
            let r = ascii_text(s.subrange(from, stop));
            assert(l.len() == r.len());
            assert forall|i: int| 0 <= i < l.len() implies l[i] == r[i] by {
                if i < end - from {
                    assert(first[i] == s[from + i]);
                } else if i == end - from {
                    assert(s[end] == SPACE);
                } else {
                    assert(s.subrange(end + 1, stop)[i - (end - from) - 1] == s[from + i]);
                }
            }
        }
    }
}

/// The text of words joined by single spaces and followed by a line feed
/// splits into the words.
proof fn lemma_join_split(kind: TokenKind, words: Seq<Seq<char>>, s: Seq<u8>, from: int)
    requires
        words.len() >= 1,
        forall|k: int, i: int|
            0 <= k < words.len() && 0 <= i < words[k].len() ==> '\0' <= #[trigger] words[k][i]
                <= '\u{7f}' && is_token_byte(kind, words[k][i] as u8),
        0 <= from <= s.len(),
        s.subrange(from, s.len() as int) == ascii_bytes(joined(words, seq![' ']) + seq!['\n']),
    ensures
        texts(tokens(kind, s, from)) == words,
    decreases words.len(),
{
    let tail = s.subrange(from, s.len() as int);
    let w = words[0];
    let end = from + w.len();
    let text = joined(words, seq![' ']) + seq!['\n'];
    assert(tail.len() == text.len());
    assert forall|i: int| 0 <= i < text.len() implies s[from + i] == text[i] as u8 by {
        assert(tail[i] == s[from + i]);
    }
    if words.len() == 1 {
        assert(text =~= w + seq!['\n']);
        assert forall|i: int| from <= i < end implies is_token_byte(kind, #[trigger] s[i]) by {
            assert(text[i - from] == w[i - from]);
        }
        assert(s[end] == NEWLINE) by {
            assert(text[w.len() as int] == '\n');
        }
        lemma_token_end_is(kind, s, from, end);
        assert(separator_len(kind, s, end) == 0);
        let first = s.subrange(from, end);
        assert(tokens(kind, s, from) =~= seq![first]);
        assert(ascii_text(first) =~= w) by {
            assert forall|i: int| 0 <= i < w.len() implies ascii_text(first)[i] == w[i] by {
                assert(first[i] == s[from + i]);
                assert(text[i] == w[i]);
            }
        }
        assert(texts(seq![first]) =~= words);
    } else {
        let others = words.drop_first();
        let more = joined(others, seq![' ']) + seq!['\n'];
        assert(text =~= w + seq![' '] + more);
        assert forall|i: int| from <= i < end implies is_token_byte(kind, #[trigger] s[i]) by {
            assert(text[i - from] == w[i - from]);
        }
        assert(s[end] == SPACE) by {
            assert(text[w.len() as int] == ' ');
        }
        lemma_token_end_is(kind, s, from, end);
        assert(separator_len(kind, s, end) == 1);
        assert(s.subrange(end + 1, s.len() as int) =~= ascii_bytes(more)) by {
            assert forall|i: int| 0 <= i < more.len() implies s.subrange(
                end + 1,
                s.len() as int,
            )[i] == ascii_bytes(more)[i] by {
                assert(text[w.len() + 1 + i] == more[i]);
            }
        }
        assert forall|k: int, i: int|
            0 <= k < others.len() && 0 <= i < others[k].len() implies '\0'
            <= #[trigger] others[k][i] <= '\u{7f}' && is_token_byte(kind, others[k][i] as u8) by {
            assert(others[k] == words[k + 1]);
        }
        lemma_join_split(kind, others, s, end + 1);
        let first = s.subrange(from, end);
        let rest = tokens(kind, s, end + 1);
        assert(tokens(kind, s, from) == seq![first] + rest);
        assert(ascii_text(first) =~= w) by {
            assert forall|i: int| 0 <= i < w.len() implies ascii_text(first)[i] == w[i] by {
                assert(first[i] == s[from + i]);
                assert(text[i] == w[i]);
            }
        }
        assert(texts(seq![first] + rest) =~= words) by {
            let t = texts(seq![first] + rest);
            assert(t.len() == words.len()) by {
                assert(texts(rest).len() == others.len());
            }
            assert forall|k: int| 0 <= k < words.len() implies t[k] == words[k] by {
                if k > 0 {
                    assert((seq![first] + rest)[k] == rest[k - 1]);
                    assert(texts(rest)[k - 1] == others[k - 1]);
                }
            }
        }
    }
}

/// The line of an author of the shape that the grammar produces adds that
/// author.
#[verifier::rlimit(30)]
pub proof fn lemma_fold_author_line(tag: Seq<char>, a: AuthorView, acc: RecordView, n: nat)
    requires
        is_tag_text(tag, TAG_AUTHOR),
        is_name(a.last),
        is_names(a.rest),
    ensures
        fold_line(encode_utf8(tag + a.last + seq![',', ' '] + a.rest + seq!['\n']), acc, n) == Ok::<
            RecordView,
            ErrorView,
        >(RecordView { author: acc.author.push(a), ..acc }),
{
    let text = a.last + seq![',', ' '] + a.rest + seq!['\n'];
    assert(tag + a.last + seq![',', ' '] + a.rest + seq!['\n'] =~= tag + text);
    lemma_line_bytes(tag, TAG_AUTHOR, text);
    let line = encode_utf8(tag + text);
    let p = payload(line);
    assert(is_ascii_chars(text)) by {
        assert forall|i: int| 0 <= i < text.len() implies '\0' <= #[trigger] text[i]
            <= '\u{7f}' by {
            if i < a.last.len() {
                assert(is_name_char(a.last[i]));
            } else if i >= a.last.len() + 2 && i < a.last.len() + 2 + a.rest.len() {
                assert(is_name_char(a.rest[i - a.last.len() - 2]) || a.rest[i - a.last.len() - 2]
                    == ' ');
            }
        }
    }
    lemma_encode_ascii(text);
    assert(p == ascii_bytes(text));
    let l = a.last.len() as int;
    let stop = p.len() - 1;
    assert(stop == l + 2 + a.rest.len());
    assert forall|i: int| 0 <= i < l implies is_token_byte(TokenKind::Name, #[trigger] p[i]) by {
        assert(text[i] == a.last[i]);
        assert(is_name_char(a.last[i]));
    }
    assert(p[l] == COMMA) by {
        assert(text[l] == ',');
    }
    assert(p[l + 1] == SPACE) by {
        assert(text[l + 1] == ' ');
    }
    lemma_token_end_is(TokenKind::Name, p, 0, l);
    assert(separator_len(TokenKind::Name, p, l) == 2);
    assert forall|i: int| l + 2 <= i < stop implies is_token_byte(
        TokenKind::Name,
        #[trigger] p[i],
    ) || p[i] == SPACE by {
        assert(text[i] == a.rest[i - l - 2]);
        assert(is_name_char(a.rest[i - l - 2]) || a.rest[i - l - 2] == ' ');
    }
    assert(p[stop] == NEWLINE) by {
        assert(text[stop] == '\n');
    }
    lemma_split_join(TokenKind::Name, p, l + 2, stop);
    lemma_tokens(TokenKind::Name, p, l + 2);
    let first = p.subrange(0, l);
    let others = tokens(TokenKind::Name, p, l + 2);
    let toks = tokens(TokenKind::Name, p, 0);
    assert(toks == seq![first] + others);
    assert(toks.skip(1) =~= others);
    assert(ascii_text(first) =~= a.last) by {
        assert forall|i: int| 0 <= i < l implies ascii_text(first)[i] == a.last[i] by {
            assert(text[i] == a.last[i]);
            assert(is_name_char(a.last[i]));
        }
    }
    assert(ascii_text(p.subrange(l + 2, stop)) =~= a.rest) by {
        assert forall|i: int| 0 <= i < a.rest.len() implies ascii_text(p.subrange(l + 2, stop))[i]
            == a.rest[i] by {
            assert(text[l + 2 + i] == a.rest[i]);
            assert(is_name_char(a.rest[i]) || a.rest[i] == ' ');
        }
    }
    reveal_strlit(" ");
    assert(" "@ =~= seq![' ']);
    assert(author_of(toks) == a);
    assert(has_tag(line, TAG_AUTHOR));
}

/// The line of a list of words sets the keywords to that list.
pub proof fn lemma_fold_keyword_line(
    tag: Seq<char>,
    words: Seq<Seq<char>>,
    acc: RecordView,
    n: nat,
)
    requires
        is_tag_text(tag, TAG_KEYWORDS),
        words.len() >= 1,
        forall|k: int| 0 <= k < words.len() ==> is_word(#[trigger] words[k]),
    ensures
        fold_line(encode_utf8(tag + joined(words, seq![' ']) + seq!['\n']), acc, n) == Ok::<
            RecordView,
            ErrorView,
        >(RecordView { keywords: Some(words), ..acc }),
{
    let text = joined(words, seq![' ']) + seq!['\n'];
    assert(tag + joined(words, seq![' ']) + seq!['\n'] =~= tag + text);
    lemma_line_bytes(tag, TAG_KEYWORDS, text);
    let line = encode_utf8(tag + text);
    let p = payload(line);
    lemma_joined_words(words);
    assert(is_ascii_chars(text)) by {
        assert forall|i: int| 0 <= i < text.len() implies '\0' <= #[trigger] text[i]
            <= '\u{7f}' by {
            if i < text.len() - 1 {
                assert(text[i] == joined(words, seq![' '])[i]);
            }
        }
    }
    lemma_encode_ascii(text);
    assert(p.subrange(0, p.len() as int) =~= p);
    assert forall|k: int, i: int| 0 <= k < words.len() && 0 <= i < words[k].len() implies '\0'
        <= #[trigger] words[k][i] <= '\u{7f}' && is_token_byte(
        TokenKind::Keyword,
        words[k][i] as u8,
    ) by {
        assert(is_word(words[k]));
        assert(is_letter(words[k][i]));
    }
    lemma_join_split(TokenKind::Keyword, words, p, 0);
    assert(!has_tag(line, TAG_AUTHOR));
    assert(has_tag(line, TAG_KEYWORDS));
}

/// Words joined by single spaces are letters and spaces.
proof fn lemma_joined_words(words: Seq<Seq<char>>)
    requires
        forall|k: int| 0 <= k < words.len() ==> is_word(#[trigger] words[k]),
    ensures
        forall|i: int|
            0 <= i < joined(words, seq![' ']).len() ==> is_letter(
                #[trigger] joined(words, seq![' '])[i],
            ) || joined(words, seq![' '])[i] == ' ',
    decreases words.len(),
{
    if words.len() == 1 {
        assert(is_word(words[0]));
    } else if words.len() > 1 {
        let others = words.drop_first();
        assert forall|k: int| 0 <= k < others.len() implies is_word(#[trigger] others[k]) by {
            assert(others[k] == words[k + 1]);
        }
        lemma_joined_words(others);
        assert(is_word(words[0]));
        let j = joined(words, seq![' ']);
        assert(j == words[0] + seq![' '] + joined(others, seq![' ']));
        assert forall|i: int| 0 <= i < j.len() implies is_letter(#[trigger] j[i]) || j[i]
            == ' ' by {
            if i < words[0].len() {
                assert(j[i] == words[0][i]);
            } else if i > words[0].len() {
                assert(j[i] == joined(others, seq![' '])[i - words[0].len() - 1]);
            }
        }
    }
}

/// A record of the shape that the field grammar produces: the surname of
/// an author is a name and the other names are names and single spaces; a
/// field that is present holds a trimmed text that is not empty; editors
/// are trimmed; keywords, where present, are at least one word.
pub open spec fn is_shaped(r: RecordView) -> bool {
    &&& forall|i: int|
        0 <= i < r.author.len() ==> is_name(#[trigger] r.author[i].last) && is_names(
            r.author[i].rest,
        )
    &&& is_field_value(r.book)
    &&& is_field_value(r.place)
    &&& is_field_value(r.date)
    &&& forall|i: int| 0 <= i < r.editor.len() ==> is_trimmed(#[trigger] r.editor[i])
    &&& is_field_value(r.government)
    &&& is_field_value(r.issuer)
    &&& is_field_value(r.journal)
    &&& (r.keywords matches Some(k) ==> k.len() >= 1 && forall|i: int|
        0 <= i < k.len() ==> is_word(#[trigger] k[i]))
    &&& is_field_value(r.label)
    &&& is_field_value(r.issue_number)
    &&& is_field_value(r.other)
    &&& is_field_value(r.page_number)
    &&& is_field_value(r.author_np)
    &&& is_field_value(r.report)
    &&& is_field_value(r.series)
    &&& is_field_value(r.title)
    &&& is_field_value(r.volume)
    &&& is_field_value(r.annotation)
}

/// An optional field that holds no line feed.
pub open spec fn is_one_line(value: Option<Seq<char>>) -> bool {
    value matches Some(v) ==> has_no_newline(v)
}

/// A record whose editors and single-valued fields hold no line feed.
pub open spec fn is_single_line(r: RecordView) -> bool {
    &&& is_one_line(r.book)
    &&& is_one_line(r.place)
    &&& is_one_line(r.date)
    &&& forall|i: int| 0 <= i < r.editor.len() ==> has_no_newline(#[trigger] r.editor[i])
    &&& is_one_line(r.government)
    &&& is_one_line(r.issuer)
    &&& is_one_line(r.journal)
    &&& is_one_line(r.label)
    &&& is_one_line(r.issue_number)
    &&& is_one_line(r.other)
    &&& is_one_line(r.page_number)
    &&& is_one_line(r.author_np)
    &&& is_one_line(r.report)
    &&& is_one_line(r.series)
    &&& is_one_line(r.title)
    &&& is_one_line(r.volume)
    &&& is_one_line(r.annotation)
}

/// A record that its canonical text stands for: of the shape that the
/// grammar produces, with every payload on one line.
pub open spec fn is_canonical(r: RecordView) -> bool {
    is_shaped(r) && is_single_line(r)
}

/// The number of lines that an optional field takes.
pub open spec fn present(value: Option<Seq<char>>) -> nat {
    if value is Some {
        1
    } else {
        0
    }
}

/// The number of lines of the canonical text of a record.
pub open spec fn line_count(r: RecordView) -> nat {
    r.author.len() + present(r.book) + present(r.place) + present(r.date) + r.editor.len()
        + present(r.government) + present(r.issuer) + present(r.journal) + (if r.keywords is Some {
        1nat
    } else {
        0nat
    }) + present(r.label) + present(r.issue_number) + present(r.other) + present(r.page_number)
        + present(r.author_np) + present(r.report) + present(r.series) + present(r.title)
        + present(r.volume) + present(r.annotation)
}

/// The record with an optional field set where the field is present.
pub open spec fn set_field(acc: RecordView, letter: u8, value: Option<Seq<char>>) -> RecordView {
    match value {
        Some(v) => with_field(acc, letter, v),
        None => acc,
    }
}

/// Reading the line of an optional field sets the field, and reads
/// nothing where the field is absent.
pub proof fn lemma_read_field(
    tag: Seq<char>,
    letter: u8,
    value: Option<Seq<char>>,
    more: Seq<u8>,
    acc: RecordView,
    n: nat,
)
    requires
        is_tag_text(tag, letter),
        is_field_letter(letter),
        is_field_value(value),
        is_one_line(value),
    ensures
        read_step(encode_utf8(field_line(tag, value)) + more, acc, n) == read_step(
            more,
            set_field(acc, letter, value),
            n + present(value),
        ),
{
    reveal_strlit("\n");
    assert("\n"@ =~= seq!['\n']);
    match value {
        Some(v) => {
            let body = tag + v;
            assert(field_line(tag, value) =~= body + seq!['\n']);
            assert(has_no_newline(body)) by {
                assert forall|i: int| 0 <= i < body.len() implies #[trigger] body[i] != '\n' by {
                    if i >= 3 {
                        assert(body[i] == v[i - 3]);
                    }
                }
            }
            assert(body[0] == '%');
            lemma_read_line(body, more, acc, n);
            lemma_fold_field_line(tag, letter, v, acc, n + 1);
        },
        None => {
            assert(encode_utf8(field_line(tag, value)) + more =~= more);
        },
    }
}

/// Reading the lines of authors adds the authors in order.
pub proof fn lemma_read_authors(
    authors: Seq<AuthorView>,
    more: Seq<u8>,
    acc: RecordView,
    n: nat,
)
    requires
        forall|i: int|
            0 <= i < authors.len() ==> is_name(#[trigger] authors[i].last) && is_names(
                authors[i].rest,
            ),
    ensures
        read_step(encode_utf8(author_lines(authors)) + more, acc, n) == read_step(
            more,
            RecordView { author: acc.author + authors, ..acc },
            n + authors.len(),
        ),
    decreases authors.len(),
{
    if authors.len() == 0 {
        assert(encode_utf8(author_lines(authors)) + more =~= more);
        assert(acc.author + authors =~= acc.author);
    } else {
        reveal_strlit("\n");
        reveal_strlit("%A ");
        reveal_strlit(", ");
        assert("\n"@ =~= seq!['\n']);
        assert(", "@ =~= seq![',', ' ']);
        let a = authors[0];
        let others = authors.drop_first();
        let tag = "%A "@;
        let body = tag + a.last + seq![',', ' '] + a.rest;
        assert(a.line() =~= body);
        assert(is_name(a.last) && is_names(a.rest));
        lemma_encode_concat(body + seq!['\n'], author_lines(others));
        let then = encode_utf8(author_lines(others)) + more;
        assert(encode_utf8(author_lines(authors)) + more =~= encode_utf8(body + seq!['\n'])
            + then);
        assert(has_no_newline(body)) by {
            assert forall|i: int| 0 <= i < body.len() implies #[trigger] body[i] != '\n' by {
                if 3 <= i < 3 + a.last.len() {
                    assert(body[i] == a.last[i - 3]);
                    assert(is_name_char(a.last[i - 3]));
                } else if i >= 5 + a.last.len() {
                    assert(body[i] == a.rest[i - 5 - a.last.len()]);
                    assert(is_name_char(a.rest[i - 5 - a.last.len()]) || a.rest[i - 5
                        - a.last.len()] == ' ');
                }
            }
        }
        assert(body[0] == '%');
        lemma_read_line(body, then, acc, n);
        lemma_fold_author_line(tag, a, acc, n + 1);
        let next = RecordView { author: acc.author.push(a), ..acc };
        assert forall|i: int| 0 <= i < others.len() implies is_name(#[trigger] others[i].last)
            && is_names(others[i].rest) by {
            assert(others[i] == authors[i + 1]);
            assert(is_name(authors[i + 1].last) && is_names(authors[i + 1].rest));
        }
        lemma_read_authors(others, more, next, n + 1);
        assert(next.author + others =~= acc.author + authors);
    }
}

/// Reading the lines of editors adds the editors in order.
pub proof fn lemma_read_editors(
    editors: Seq<Seq<char>>,
    more: Seq<u8>,
    acc: RecordView,
    n: nat,
)
    requires
        forall|i: int|
            0 <= i < editors.len() ==> is_trimmed(#[trigger] editors[i]) && has_no_newline(
                editors[i],
            ),
    ensures
        read_step(encode_utf8(editor_lines(editors)) + more, acc, n) == read_step(
            more,
            RecordView { editor: acc.editor + editors, ..acc },
            n + editors.len(),
        ),
    decreases editors.len(),
{
    if editors.len() == 0 {
        assert(encode_utf8(editor_lines(editors)) + more =~= more);
        assert(acc.editor + editors =~= acc.editor);
    } else {
        reveal_strlit("\n");
        reveal_strlit("%E ");
        assert("\n"@ =~= seq!['\n']);
        let e = editors[0];
        let others = editors.drop_first();
        let tag = "%E "@;
        let body = tag + e;
        assert(is_trimmed(e) && has_no_newline(e));
        lemma_encode_concat(body + seq!['\n'], editor_lines(others));
        let then = encode_utf8(editor_lines(others)) + more;
        assert(editor_lines(editors) =~= body + seq!['\n'] + editor_lines(others));
        assert(encode_utf8(editor_lines(editors)) + more =~= encode_utf8(body + seq!['\n'])
            + then);
        assert(has_no_newline(body)) by {
            assert forall|i: int| 0 <= i < body.len() implies #[trigger] body[i] != '\n' by {
                if i >= 3 {
                    assert(body[i] == e[i - 3]);
                }
            }
        }
        assert(body[0] == '%');
        lemma_read_line(body, then, acc, n);
        lemma_fold_editor_line(tag, e, acc, n + 1);
        let next = RecordView { editor: acc.editor.push(e), ..acc };
        assert forall|i: int| 0 <= i < others.len() implies is_trimmed(#[trigger] others[i])
            && has_no_newline(others[i]) by {
            assert(others[i] == editors[i + 1]);
            assert(is_trimmed(editors[i + 1]) && has_no_newline(editors[i + 1]));
        }
        lemma_read_editors(others, more, next, n + 1);
        assert(next.editor + others =~= acc.editor + editors);
    }
}

/// Reading the keyword line sets the keywords, and reads nothing where
/// they are absent.
pub proof fn lemma_read_keywords(
    keywords: Option<Seq<Seq<char>>>,
    more: Seq<u8>,
    acc: RecordView,
    n: nat,
)
    requires
        keywords matches Some(k) ==> k.len() >= 1 && forall|i: int|
            0 <= i < k.len() ==> is_word(#[trigger] k[i]),
    ensures
        read_step(encode_utf8(keyword_line(keywords)) + more, acc, n) == read_step(
            more,
            (match keywords {
                Some(k) => RecordView { keywords: Some(k), ..acc },
                None => acc,
            }),
            n + (if keywords is Some {
                1nat
            } else {
                0nat
            }),
        ),
{
    match keywords {
        Some(k) => {
            reveal_strlit("\n");
            reveal_strlit("%K ");
            reveal_strlit(" ");
            assert("\n"@ =~= seq!['\n']);
            assert(" "@ =~= seq![' ']);
            let tag = "%K "@;
            let body = tag + joined(k, seq![' ']);
            assert(keyword_line(keywords) =~= body + seq!['\n']);
            lemma_joined_words(k);
            assert(has_no_newline(body)) by {
                assert forall|i: int| 0 <= i < body.len() implies #[trigger] body[i] != '\n' by {
                    if i >= 3 {
                        assert(body[i] == joined(k, seq![' '])[i - 3]);
                    }
                }
            }
            assert(body[0] == '%');
            lemma_read_line(body, more, acc, n);
            lemma_fold_keyword_line(tag, k, acc, n + 1);
        },
        None => {
            assert(encode_utf8(keyword_line(keywords)) + more =~= more);
        },
    }
}

/// The number of segments in the canonical text of a record: the authors,
/// the editors, the keywords, and one for each single-valued field.
pub open spec fn segment_count() -> int {
    19
}

/// The tag of the single-valued field that is segment `k` of the text.
pub open spec fn segment_tag(k: int) -> Seq<char> {
    if k == 1 {
        "%B "@
    } else if k == 2 {
        "%C "@
    } else if k == 3 {
        "%D "@
    } else if k == 5 {
        "%G "@
    } else if k == 6 {
        "%I "@
    } else if k == 7 {
        "%J "@
    } else if k == 9 {
        "%L "@
    } else if k == 10 {
        "%N "@
    } else if k == 11 {
        "%O "@
    } else if k == 12 {
        "%P "@
    } else if k == 13 {
        "%Q "@
    } else if k == 14 {
        "%R "@
    } else if k == 15 {
        "%S "@
    } else if k == 16 {
        "%T "@
    } else if k == 17 {
        "%V "@
    } else {
        "%X "@
    }
}

/// The letter of the single-valued field that is segment `k` of the text.
pub open spec fn segment_letter(k: int) -> u8 {
    if k == 1 {
        TAG_BOOK
    } else if k == 2 {
        TAG_PLACE
    } else if k == 3 {
        TAG_DATE
    } else if k == 5 {
        TAG_GOVERNMENT
    } else if k == 6 {
        TAG_ISSUER
    } else if k == 7 {
        TAG_JOURNAL
    } else if k == 9 {
        TAG_LABEL
    } else if k == 10 {
        TAG_ISSUE_NUMBER
    } else if k == 11 {
        TAG_OTHER
    } else if k == 12 {
        TAG_PAGE_NUMBER
    } else if k == 13 {
        TAG_AUTHOR_NP
    } else if k == 14 {
        TAG_REPORT
    } else if k == 15 {
        TAG_SERIES
    } else if k == 16 {
        TAG_TITLE
    } else if k == 17 {
        TAG_VOLUME
    } else {
        TAG_ANNOTATION
    }
}

/// The value of the single-valued field that is segment `k` of the text.
pub open spec fn segment_value(r: RecordView, k: int) -> Option<Seq<char>> {
    if k == 1 {
        r.book
    } else if k == 2 {
        r.place
    } else if k == 3 {
        r.date
    } else if k == 5 {
        r.government
    } else if k == 6 {
        r.issuer
    } else if k == 7 {
        r.journal
    } else if k == 9 {
        r.label
    } else if k == 10 {
        r.issue_number
    } else if k == 11 {
        r.other
    } else if k == 12 {
        r.page_number
    } else if k == 13 {
        r.author_np
    } else if k == 14 {
        r.report
    } else if k == 15 {
        r.series
    } else if k == 16 {
        r.title
    } else if k == 17 {
        r.volume
    } else {
        r.annotation
    }
}

/// Segment `k` of the canonical text of a record.
pub open spec fn segment(r: RecordView, k: int) -> Seq<char> {
    if k == 0 {
        author_lines(r.author)
    } else if k == 4 {
        editor_lines(r.editor)
    } else if k == 8 {
        keyword_line(r.keywords)
    } else {
        field_line(segment_tag(k), segment_value(r, k))
    }
}

/// The number of lines of segment `k`.
pub open spec fn segment_lines(r: RecordView, k: int) -> nat {
    if k == 0 {
        r.author.len()
    } else if k == 4 {
        r.editor.len()
    } else if k == 8 {
        if r.keywords is Some {
            1
        } else {
            0
        }
    } else {
        present(segment_value(r, k))
    }
}

/// The canonical text from segment `k` on.
pub open spec fn text_from(r: RecordView, k: int) -> Seq<char>
    decreases segment_count() - k,
{
    if k < 0 || k >= segment_count() {
        Seq::empty()
    } else {
        segment(r, k) + text_from(r, k + 1)
    }
}

/// The number of lines of the segments before segment `k`.
pub open spec fn lines_before(r: RecordView, k: int) -> nat
    decreases k,
{
    if k <= 0 {
        0
    } else {
        lines_before(r, k - 1) + segment_lines(r, k - 1)
    }
}

/// The record with the fields of the segments before segment `k`, and
/// nothing else.
pub open spec fn read_so_far(r: RecordView, k: int) -> RecordView {
    RecordView {
        author: if k > 0 {
            r.author
        } else {
            Seq::empty()
        },
        book: if k > 1 {
            r.book
        } else {
            None
        },
        place: if k > 2 {
            r.place
        } else {
            None
        },
        date: if k > 3 {
            r.date
        } else {
            None
        },
        editor: if k > 4 {
            r.editor
        } else {
            Seq::empty()
        },
        government: if k > 5 {
            r.government
        } else {
            None
        },
        issuer: if k > 6 {
            r.issuer
        } else {
            None
        },
        journal: if k > 7 {
            r.journal
        } else {
            None
        },
        keywords: if k > 8 {
            r.keywords
        } else {
            None
        },
        label: if k > 9 {
            r.label
        } else {
            None
        },
        issue_number: if k > 10 {
            r.issue_number
        } else {
            None
        },
        other: if k > 11 {
            r.other
        } else {
            None
        },
        page_number: if k > 12 {
            r.page_number
        } else {
            None
        },
        author_np: if k > 13 {
            r.author_np
        } else {
            None
        },
        report: if k > 14 {
            r.report
        } else {
            None
        },
        series: if k > 15 {
            r.series
        } else {
            None
        },
        title: if k > 16 {
            r.title
        } else {
            None
        },
        volume: if k > 17 {
            r.volume
        } else {
            None
        },
        annotation: if k > 18 {
            r.annotation
        } else {
            None
        },
    }
}

/// The segment of a single-valued field is its field line, and reading it
/// takes the record from the fields before it to the fields up to it.
proof fn lemma_field_segment(r: RecordView, k: int)
    requires
        is_canonical(r),
        0 < k < segment_count(),
        k != 4,
        k != 8,
    ensures
        is_tag_text(segment_tag(k), segment_letter(k)),
        is_field_letter(segment_letter(k)),
        is_field_value(segment_value(r, k)),
        is_one_line(segment_value(r, k)),
        set_field(read_so_far(r, k), segment_letter(k), segment_value(r, k)) == read_so_far(
            r,
            k + 1,
        ),
{
    reveal_strlit("%B ");
    reveal_strlit("%C ");
    reveal_strlit("%D ");
    reveal_strlit("%G ");
    reveal_strlit("%I ");
    reveal_strlit("%J ");
    reveal_strlit("%L ");
    reveal_strlit("%N ");
    reveal_strlit("%O ");
    reveal_strlit("%P ");
    reveal_strlit("%Q ");
    reveal_strlit("%R ");
    reveal_strlit("%S ");
    reveal_strlit("%T ");
    reveal_strlit("%V ");
    reveal_strlit("%X ");
}

/// The canonical text up to segment `k`.
pub open spec fn text_before(r: RecordView, k: int) -> Seq<char>
    decreases k,
{
    if k <= 0 {
        Seq::empty()
    } else if k == 1 {
        segment(r, 0)
    } else {
        text_before(r, k - 1) + segment(r, k - 1)
    }
}

/// The text before a segment and the text from it on make the whole.
proof fn lemma_text_split(r: RecordView, k: int)
    requires
        0 <= k <= segment_count(),
    ensures
        text_before(r, k) + text_from(r, k) == text_from(r, 0),
    decreases k,
{
    if k == 0 {
        assert(text_before(r, 0) + text_from(r, 0) =~= text_from(r, 0));
    } else if k == 1 {
        assert(text_from(r, 0) == segment(r, 0) + text_from(r, 1));
    } else {
        lemma_text_split(r, k - 1);
        assert(text_from(r, k - 1) == segment(r, k - 1) + text_from(r, k));
        assert(text_before(r, k) + text_from(r, k) =~= text_before(r, k - 1) + (segment(r, k - 1)
            + text_from(r, k)));
    }
}

/// The canonical text is all its segments.
#[verifier::rlimit(30)]
proof fn lemma_text_is_all_segments(r: RecordView)
    ensures
        r.text() == text_before(r, segment_count()),
{
    reveal_with_fuel(text_before, 20);
}

/// The lines of the canonical text are the lines of all its segments.
proof fn lemma_lines_are_all_segments(r: RecordView)
    ensures
        line_count(r) == lines_before(r, segment_count()),
{
    reveal_with_fuel(lines_before, 20);
}

/// The canonical text is its segments in order.
proof fn lemma_text_is_segments(r: RecordView)
    ensures
        r.text() == text_from(r, 0),
        line_count(r) == lines_before(r, segment_count()),
        read_so_far(r, 0) == RecordView::empty(),
        read_so_far(r, segment_count()) == r,
{
    lemma_text_is_all_segments(r);
    lemma_lines_are_all_segments(r);
    lemma_text_split(r, segment_count());
    assert(text_from(r, segment_count()) =~= Seq::<char>::empty());
    assert(text_before(r, segment_count()) + text_from(r, segment_count()) =~= text_before(
        r,
        segment_count(),
    ));
}

/// Reading the canonical text from segment `k` on, with the fields of the
/// segments before it in the record, ends as reading what follows the text
/// does with the whole record.
#[verifier::rlimit(30)]
proof fn lemma_read_segments(r: RecordView, k: int, tail: Seq<u8>, n: nat)
    requires
        is_canonical(r),
        0 <= k <= segment_count(),
    ensures
        read_step(
            encode_utf8(text_from(r, k)) + tail,
            read_so_far(r, k),
            n + lines_before(r, k),
        ) == read_step(tail, r, n + lines_before(r, segment_count())),
    decreases segment_count() - k,
{
    if k == segment_count() {
        assert(encode_utf8(text_from(r, k)) + tail =~= tail);
        assert(read_so_far(r, k) == r);
    } else {
        let more = encode_utf8(text_from(r, k + 1)) + tail;
        let acc = read_so_far(r, k);
        let m = n + lines_before(r, k);
        lemma_encode_concat(segment(r, k), text_from(r, k + 1));
        assert(encode_utf8(text_from(r, k)) + tail =~= encode_utf8(segment(r, k)) + more);
        assert(lines_before(r, k + 1) == lines_before(r, k) + segment_lines(r, k));
        if k == 0 {
            lemma_read_authors(r.author, more, acc, m);
            assert(acc.author + r.author =~= r.author);
            assert(RecordView { author: acc.author + r.author, ..acc } == read_so_far(r, 1));
        } else if k == 4 {
            lemma_read_editors(r.editor, more, acc, m);
            assert(acc.editor + r.editor =~= r.editor);
            assert(RecordView { editor: acc.editor + r.editor, ..acc } == read_so_far(r, 5));
        } else if k == 8 {
            lemma_read_keywords(r.keywords, more, acc, m);
        } else {
            lemma_field_segment(r, k);
            lemma_read_field(
                segment_tag(k),
                segment_letter(k),
                segment_value(r, k),
                more,
                acc,
                m,
            );
        }
        lemma_read_segments(r, k + 1, tail, n);
    }
}

/// Reading the canonical text of a record, and what follows it, goes on
/// after the text with the record in hand.
#[verifier::rlimit(30)]
pub proof fn lemma_read_text(r: RecordView, tail: Seq<u8>, n: nat)
    requires
        is_canonical(r),
    ensures
        read_step(encode_utf8(r.text()) + tail, RecordView::empty(), n) == read_step(
            tail,
            r,
            n + line_count(r),
        ),
{
    lemma_text_is_segments(r);
    lemma_read_segments(r, 0, tail, n);
}

/// Round trip: a record that is not empty and that its canonical text
/// stands for is read back from that text, whatever number the lines are
/// counted from.
pub proof fn law_text_round_trip(r: RecordView, n: nat)
    requires
        is_canonical(r),
        !r.is_empty(),
    ensures
        read_step(encode_utf8(r.text()), RecordView::empty(), n) == (ReadStep {
            outcome: ReadOutcome::Item(r),
            rest: Seq::empty(),
            line: n + line_count(r),
        }),
{
    lemma_read_text(r, Seq::empty(), n);
    assert(encode_utf8(r.text()) + Seq::<u8>::empty() =~= encode_utf8(r.text()));
}

/// The characters of a token are characters of its kind.
proof fn lemma_token_text(kind: TokenKind, t: Seq<u8>)
    requires
        forall|i: int| 0 <= i < t.len() ==> is_token_byte(kind, #[trigger] t[i]),
    ensures
        kind == TokenKind::Name ==> is_name(ascii_text(t)),
        kind == TokenKind::Keyword ==> is_word(ascii_text(t)),
{
    assert forall|i: int| 0 <= i < t.len() implies (kind == TokenKind::Name ==> is_name_char(
        #[trigger] ascii_text(t)[i],
    )) && (kind == TokenKind::Keyword ==> is_letter(ascii_text(t)[i])) by {
        assert(is_token_byte(kind, t[i]));
    }
}

/// Names joined by single spaces are names and single spaces.
proof fn lemma_joined_names(parts: Seq<Seq<char>>)
    requires
        forall|k: int| 0 <= k < parts.len() ==> is_name(#[trigger] parts[k]),
    ensures
        is_names(joined(parts, seq![' '])),
    decreases parts.len(),
{
    if parts.len() == 1 {
        assert(is_name(parts[0]));
    } else if parts.len() > 1 {
        let others = parts.drop_first();
        assert forall|k: int| 0 <= k < others.len() implies is_name(#[trigger] others[k]) by {
            assert(others[k] == parts[k + 1]);
        }
        lemma_joined_names(others);
        assert(is_name(parts[0]));
        let j = joined(parts, seq![' ']);
        assert(j == parts[0] + seq![' '] + joined(others, seq![' ']));
        assert forall|i: int| 0 <= i < j.len() implies is_name_char(#[trigger] j[i]) || j[i]
            == ' ' by {
            if i < parts[0].len() {
                assert(j[i] == parts[0][i]);
            } else if i > parts[0].len() {
                assert(j[i] == joined(others, seq![' '])[i - parts[0].len() - 1]);
            }
        }
    }
}

/// A line that the grammar accepts takes a record of the shape that the
/// grammar produces to another.
pub proof fn lemma_fold_keeps_shape(line: Seq<u8>, acc: RecordView, n: nat)
    requires
        is_shaped(acc),
        fold_line(line, acc, n) is Ok,
    ensures
        is_shaped(fold_line(line, acc, n)->Ok_0),
{
    let next = fold_line(line, acc, n)->Ok_0;
    if has_tag(line, TAG_AUTHOR) {
        let toks = tokens(TokenKind::Name, payload(line), 0);
        lemma_tokens(TokenKind::Name, payload(line), 0);
        let a = author_of(toks);
        lemma_token_text(TokenKind::Name, toks[0]);
        let others = texts(toks.skip(1));
        assert forall|k: int| 0 <= k < others.len() implies is_name(#[trigger] others[k]) by {
            assert(toks.skip(1)[k] == toks[k + 1]);
            lemma_token_text(TokenKind::Name, toks[k + 1]);
        }
        lemma_joined_names(others);
        reveal_strlit(" ");
        assert(" "@ =~= seq![' ']);
        assert forall|i: int| 0 <= i < next.author.len() implies is_name(
            #[trigger] next.author[i].last,
        ) && is_names(next.author[i].rest) by {
            if i < acc.author.len() {
                assert(next.author[i] == acc.author[i]);
            }
        }
    } else if has_tag(line, TAG_KEYWORDS) {
        let toks = tokens(TokenKind::Keyword, payload(line), 0);
        lemma_tokens(TokenKind::Keyword, payload(line), 0);
        let k = texts(toks);
        assert forall|i: int| 0 <= i < k.len() implies is_word(#[trigger] k[i]) by {
            lemma_token_text(TokenKind::Keyword, toks[i]);
        }
    } else if has_tag(line, TAG_EDITOR) {
        let e = trimmed(decode_utf8(payload(line)));
        crate::text::lemma_trimmed(decode_utf8(payload(line)));
        assert forall|i: int| 0 <= i < next.editor.len() implies is_trimmed(
            #[trigger] next.editor[i],
        ) by {
            if i < acc.editor.len() {
                assert(next.editor[i] == acc.editor[i]);
            }
        }
    } else {
        crate::text::lemma_trimmed(decode_utf8(payload(line)));
    }
}

/// The lines of a record, folded into a record of the shape that the
/// grammar produces, give another.
pub proof fn lemma_fold_lines_shape(lines: Seq<Seq<char>>, acc: RecordView, done: nat)
    requires
        is_shaped(acc),
        fold_lines(lines, acc, done) is Ok,
    ensures
        is_shaped(fold_lines(lines, acc, done)->Ok_0),
    decreases lines.len(),
{
    if lines.len() > 0 {
        lemma_fold_keeps_shape(encode_utf8(lines[0]), acc, done + 1);
        let next = fold_line(encode_utf8(lines[0]), acc, done + 1)->Ok_0;
        lemma_fold_lines_shape(lines.drop_first(), next, done + 1);
    }
}

/// A line feed alone is a blank line.
pub proof fn lemma_newline_is_blank()
    ensures
        is_blank_line(seq![NEWLINE]),
{
    let b = seq![NEWLINE];
    crate::text::lemma_ascii_bytes_decode(b);
    assert(decode_utf8(b) =~= seq!['\n']);
    assert(is_white_space('\n'));
    let t = seq!['\n'];
    assert(t.drop_first() =~= Seq::<char>::empty());
    assert(crate::text::trim_start(t.drop_first()) =~= Seq::<char>::empty());
    assert(crate::text::trim_start(t) =~= Seq::<char>::empty());
    assert(trimmed(t) =~= Seq::<char>::empty());
}

/// What the writer puts out for a record is read back as that record:
/// where the field lines of a record are accepted, and none of its
/// payloads holds a line feed, reading the bytes that were written and
/// whatever follows them gives the record that the lines fold into and
/// goes on after those bytes. A record without any field is skipped, as a
/// blank line is.
pub proof fn law_written_record_reads_back(lines: Seq<Seq<char>>, tail: Seq<u8>, n: nat)
    requires
        fold_lines(lines, RecordView::empty(), 0) is Ok,
        is_single_line(fold_lines(lines, RecordView::empty(), 0)->Ok_0),
    ensures
        ({
            let r = fold_lines(lines, RecordView::empty(), 0)->Ok_0;
            read_step(record_bytes(r) + tail, RecordView::empty(), n) == (if r.is_empty() {
                read_step(tail, RecordView::empty(), n + 1)
            } else {
                ReadStep {
                    outcome: ReadOutcome::Item(r),
                    rest: tail,
                    line: n + line_count(r) + 1,
                }
            })
        }),
{
    let r = fold_lines(lines, RecordView::empty(), 0)->Ok_0;
    assert(is_shaped(RecordView::empty()));
    lemma_fold_lines_shape(lines, RecordView::empty(), 0);
    let more = seq![NEWLINE] + tail;
    assert(record_bytes(r) + tail =~= encode_utf8(r.text()) + more);
    lemma_read_text(r, more, n);
    lemma_newline_is_blank();
    lemma_read_blank_line(seq![NEWLINE], tail, r, n + line_count(r));
    if r.is_empty() {
        crate::record::lemma_empty_record(r);
        assert(line_count(r) == 0);
    }
}

/// The first line of an input holds no line feed before its last byte.
proof fn lemma_line_has_one_end(bytes: Seq<u8>)
    ensures
        forall|j: int| 0 <= j < line_len(bytes) - 1 ==> #[trigger] bytes[j] != NEWLINE,
    decreases bytes.len(),
{
    if bytes.len() > 0 && bytes[0] != NEWLINE {
        let rest = bytes.drop_first();
        lemma_line_has_one_end(rest);
        crate::reader::lemma_line_len_bounds(rest);
        assert(line_len(bytes) == 1 + line_len(rest));
        assert forall|j: int| 0 <= j < line_len(bytes) - 1 implies #[trigger] bytes[j]
            != NEWLINE by {
            if j > 0 {
                assert(0 <= j - 1 < line_len(rest) - 1);
                assert(rest[j - 1] == bytes[j]);
            }
        }
    }
}

/// A line feed in a text is a line feed in its encoding, with as many
/// bytes after it as the rest of the text takes.
proof fn lemma_newline_is_encoded(s: Seq<char>, i: int)
    requires
        0 <= i < s.len(),
        s[i] == '\n',
    ensures
        encode_utf8(s).len() == encode_utf8(s.subrange(0, i)).len() + 1 + encode_utf8(
            s.subrange(i + 1, s.len() as int),
        ).len(),
        encode_utf8(s)[encode_utf8(s.subrange(0, i)).len() as int] == NEWLINE,
        s.subrange(i + 1, s.len() as int).len() > 0 ==> encode_utf8(
            s.subrange(i + 1, s.len() as int),
        ).len() > 0,
{
    let a = s.subrange(0, i);
    let b = s.subrange(i + 1, s.len() as int);
    assert(s =~= a + seq!['\n'] + b);
    lemma_encode_concat(a + seq!['\n'], b);
    lemma_encode_concat(a, seq!['\n']);
    lemma_encode_ascii(seq!['\n']);
    assert(encode_utf8(seq!['\n']) =~= seq![NEWLINE]);
    if b.len() > 0 {
        assert(encode_utf8(b).len() > 0) by {
            assert(encode_utf8(b) == vstd::utf8::encode_scalar(b[0] as u32) + encode_utf8(
                b.drop_first(),
            ));
        }
    }
}

/// What the payload of a line of the reader is trimmed to holds no line
/// feed.
proof fn lemma_payload_is_one_line(line: Seq<u8>)
    requires
        valid_utf8(line),
        line.len() >= 3,
        line[0] < 0x80,
        line[1] < 0x80,
        line[2] < 0x80,
        forall|j: int| 0 <= j < line.len() - 1 ==> #[trigger] line[j] != NEWLINE,
    ensures
        has_no_newline(trimmed(decode_utf8(payload(line)))),
{
    let p = payload(line);
    crate::grammar::lemma_payload_is_text(line);
    let s = decode_utf8(p);
    decode_utf8_encode_utf8(p);
    // a line feed in the payload is its last character
    assert forall|i: int| 0 <= i < s.len() - 1 implies #[trigger] s[i] != '\n' by {
        if s[i] == '\n' {
            lemma_newline_is_encoded(s, i);
            let at = encode_utf8(s.subrange(0, i)).len() as int;
            assert(p[at] == NEWLINE);
            assert(p[at] == line[at + 3]);
        }
    }
    crate::text::lemma_trim_start(s);
    let t = crate::text::trim_start(s);
    crate::text::lemma_trim_end(t);
    let u = crate::text::trim_end(t);
    assert(is_white_space('\n'));
    assert forall|i: int| 0 <= i < u.len() implies #[trigger] u[i] != '\n' by {
        if u[i] == '\n' {
            let off = s.len() - t.len();
            assert(u[i] == t[i]);
            assert(t[i] == s[off + i]);
            assert(off + i == s.len() - 1);
            assert(i == t.len() - 1);
            assert(u.len() == t.len());
            assert(u.last() == '\n');
        }
    }
}

/// Setting a field to a text on one line keeps every payload of the
/// record on one line.
proof fn lemma_with_field_one_line(acc: RecordView, letter: u8, v: Seq<char>)
    requires
        is_single_line(acc),
        has_no_newline(v),
    ensures
        is_single_line(with_field(acc, letter, v)),
{
    let next = with_field(acc, letter, v);
    if letter == TAG_BOOK {
        assert(next == (RecordView { book: Some(v), ..acc }));
        assert(is_one_line(next.book));
    } else if letter == TAG_PLACE {
        assert(next == (RecordView { place: Some(v), ..acc }));
        assert(is_one_line(next.place));
    } else if letter == TAG_DATE {
        assert(next == (RecordView { date: Some(v), ..acc }));
        assert(is_one_line(next.date));
    } else if letter == TAG_GOVERNMENT {
        assert(next == (RecordView { government: Some(v), ..acc }));
        assert(is_one_line(next.government));
    } else if letter == TAG_ISSUER {
        assert(next == (RecordView { issuer: Some(v), ..acc }));
        assert(is_one_line(next.issuer));
    } else if letter == TAG_JOURNAL {
        assert(next == (RecordView { journal: Some(v), ..acc }));
        assert(is_one_line(next.journal));
    } else if letter == TAG_LABEL {
        assert(next == (RecordView { label: Some(v), ..acc }));
        assert(is_one_line(next.label));
    } else if letter == TAG_ISSUE_NUMBER {
        assert(next == (RecordView { issue_number: Some(v), ..acc }));
        assert(is_one_line(next.issue_number));
    } else if letter == TAG_OTHER {
        assert(next == (RecordView { other: Some(v), ..acc }));
        assert(is_one_line(next.other));
    } else if letter == TAG_PAGE_NUMBER {
        assert(next == (RecordView { page_number: Some(v), ..acc }));
        assert(is_one_line(next.page_number));
    } else if letter == TAG_AUTHOR_NP {
        assert(next == (RecordView { author_np: Some(v), ..acc }));
        assert(is_one_line(next.author_np));
    } else if letter == TAG_REPORT {
        assert(next == (RecordView { report: Some(v), ..acc }));
        assert(is_one_line(next.report));
    } else if letter == TAG_SERIES {
        assert(next == (RecordView { series: Some(v), ..acc }));
        assert(is_one_line(next.series));
    } else if letter == TAG_TITLE {
        assert(next == (RecordView { title: Some(v), ..acc }));
        assert(is_one_line(next.title));
    } else if letter == TAG_VOLUME {
        assert(next == (RecordView { volume: Some(v), ..acc }));
        assert(is_one_line(next.volume));
    } else if letter == TAG_ANNOTATION {
        assert(next == (RecordView { annotation: Some(v), ..acc }));
        assert(is_one_line(next.annotation));
    }
}

/// A line of the reader that the grammar accepts keeps every payload of
/// the record on one line.
proof fn lemma_fold_keeps_one_line(line: Seq<u8>, acc: RecordView, n: nat)
    requires
        is_single_line(acc),
        valid_utf8(line),
        forall|j: int| 0 <= j < line.len() - 1 ==> #[trigger] line[j] != NEWLINE,
        fold_line(line, acc, n) is Ok,
    ensures
        is_single_line(fold_line(line, acc, n)->Ok_0),
{
    let next = fold_line(line, acc, n)->Ok_0;
    if has_tag(line, TAG_AUTHOR) {
        assert(next == (RecordView { author: next.author, ..acc }));
    } else if has_tag(line, TAG_KEYWORDS) {
        assert(next == (RecordView { keywords: next.keywords, ..acc }));
    } else if has_tag(line, TAG_EDITOR) {
        lemma_payload_is_one_line(line);
        assert(next == (RecordView { editor: next.editor, ..acc }));
        assert forall|i: int| 0 <= i < next.editor.len() implies has_no_newline(
            #[trigger] next.editor[i],
        ) by {
            if i < acc.editor.len() {
                assert(next.editor[i] == acc.editor[i]);
            }
        }
    } else {
        lemma_payload_is_one_line(line);
        assert(is_field_line(line));
        let v = trimmed(decode_utf8(payload(line)));
        if v.len() > 0 {
            lemma_with_field_one_line(acc, line[1], v);
        }
    }
}

/// The reader gives canonical records only: whatever the input, a record
/// that a pull ends with is of the shape that the grammar produces, with
/// every payload on one line.
pub proof fn lemma_read_keeps_canonical(bytes: Seq<u8>, acc: RecordView, n: nat)
    requires
        is_canonical(acc),
    ensures
        read_step(bytes, acc, n).outcome matches ReadOutcome::Item(r) ==> is_canonical(r),
    decreases bytes.len(),
{
    if bytes.len() > 0 {
        crate::reader::lemma_line_len_bounds(bytes);
        lemma_line_has_one_end(bytes);
        let k = line_len(bytes) as int;
        let text = bytes.subrange(0, k);
        let rest = bytes.subrange(k, bytes.len() as int);
        if !valid_utf8(text) {
        } else if is_blank(decode_utf8(text)) {
            if acc.is_empty() {
                lemma_read_keeps_canonical(rest, acc, n + 1);
            }
        } else {
            match fold_line(text, acc, n + 1) {
                Ok(next) => {
                    lemma_fold_keeps_shape(text, acc, n + 1);
                    assert forall|j: int| 0 <= j < text.len() - 1 implies #[trigger] text[j]
                        != NEWLINE by {
                        assert(text[j] == bytes[j]);
                    }
                    lemma_fold_keeps_one_line(text, acc, n + 1);
                    lemma_read_keeps_canonical(rest, next, n + 1);
                },
                Err(e) => {},
            }
        }
    }
}

/// Only canonical records are read: a record that the reader gives,
/// from whatever input, is canonical. With the round trip this says which
/// records are read back from their canonical text: the canonical ones
/// that are not empty, and no others.
pub proof fn law_read_record_is_canonical(bytes: Seq<u8>, n: nat)
    ensures
        read_step(bytes, RecordView::empty(), n).outcome matches ReadOutcome::Item(r)
            ==> is_canonical(r) && !r.is_empty(),
{
    assert(is_canonical(RecordView::empty()));
    lemma_read_keeps_canonical(bytes, RecordView::empty(), n);
    crate::reader::lemma_read_step_bounds(bytes, RecordView::empty(), n);
}

} // verus!
