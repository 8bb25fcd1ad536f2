//! Text helpers shared by the grammar, the reader and the writer: the
//! whitespace that trimming removes, decimal numbers, and the relation
//! between ASCII bytes and the characters they encode.
use vstd::prelude::*;
use vstd::string::*;
use vstd::utf8::*;

verus! {

/// The percent sign, which starts a tag.
pub const PERCENT: u8 = 0x25;

/// The space.
pub const SPACE: u8 = 0x20;

/// The comma.
pub const COMMA: u8 = 0x2C;

/// The hyphen.
pub const HYPHEN: u8 = 0x2D;

/// The period.
pub const PERIOD: u8 = 0x2E;

/// The line feed, which ends a line.
pub const NEWLINE: u8 = 0x0A;

/// The characters with the Unicode property `White_Space`.
pub open spec fn is_white_space(c: char) -> bool {
    let u = c as u32;
    ||| 0x09 <= u <= 0x0D
    ||| u == 0x20
    ||| u == 0x85
    ||| u == 0xA0
    ||| u == 0x1680
    ||| 0x2000 <= u <= 0x200A
    ||| u == 0x2028
    ||| u == 0x2029
    ||| u == 0x202F
    ||| u == 0x205F
    ||| u == 0x3000
}

/// `s` without its leading whitespace.
pub open spec fn trim_start(s: Seq<char>) -> Seq<char>
    decreases s.len(),
{
    if s.len() > 0 && is_white_space(s[0]) {
        trim_start(s.drop_first())
    } else {
        s
    }
}

/// `s` without its trailing whitespace.
pub open spec fn trim_end(s: Seq<char>) -> Seq<char>
    decreases s.len(),
{
    if s.len() > 0 && is_white_space(s.last()) {
        trim_end(s.drop_last())
    } else {
        s
    }
}

/// `s` without its leading and trailing whitespace.
pub open spec fn trimmed(s: Seq<char>) -> Seq<char> {
    trim_end(trim_start(s))
}

/// A text is blank when nothing is left of it after trimming.
pub open spec fn is_blank(s: Seq<char>) -> bool {
    trimmed(s).len() == 0
}

/// Specification of `str::trim` from the standard library: the result is
/// the argument without its leading and trailing whitespace, where
/// whitespace is the Unicode property `White_Space`.
pub assume_specification[ str::trim ](s: &str) -> (r: &str)
    ensures
        r@ == trimmed(s@),
;

/// `core::str::Utf8Error`, carried through as it is.
#[verifier::external_type_specification]
#[verifier::external_body]
pub struct ExUtf8Error(core::str::Utf8Error);

/// Specification of `core::str::from_utf8`: it succeeds exactly on
/// well-formed UTF-8, and the text it returns is what the bytes encode.
pub assume_specification[ core::str::from_utf8 ](v: &[u8]) -> (r: Result<
    &str,
    core::str::Utf8Error,
>)
    ensures
        r is Ok <==> valid_utf8(v@),
        r matches Ok(s) ==> s@ == decode_utf8(v@),
;

/// All bytes are below 0x80.
pub open spec fn is_ascii_bytes(b: Seq<u8>) -> bool {
    forall|i: int| 0 <= i < b.len() ==> #[trigger] b[i] < 0x80
}

/// The characters of a sequence of ASCII bytes, one per byte.
pub open spec fn ascii_text(b: Seq<u8>) -> Seq<char> {
    Seq::new(b.len(), |i: int| b[i] as char)
}

proof fn lemma_ascii_byte(b: u8)
    by (bit_vector)
    requires
        b < 0x80,
    ensures
        (b & 0x7F) as u32 == b as u32,
{
}

/// ASCII bytes are well-formed UTF-8 and decode bytewise.
pub proof fn lemma_ascii_bytes_decode(b: Seq<u8>)
    requires
        is_ascii_bytes(b),
    ensures
        valid_utf8(b),
        decode_utf8(b) == ascii_text(b),
    decreases b.len(),
{
    if b.len() == 0 {
        assert(decode_utf8(b) =~= ascii_text(b));
    } else {
        let rest = pop_first_scalar(b);
        assert(b[0] < 0x80);
        lemma_ascii_byte(b[0]);
        assert(is_leading_byte_width_1(b[0]));
        assert(length_of_first_scalar(b) == 1);
        assert(rest == b.subrange(1, b.len() as int));
        assert(is_ascii_bytes(rest)) by {
            assert forall|i: int| 0 <= i < rest.len() implies #[trigger] rest[i] < 0x80 by {
                assert(rest[i] == b[i + 1]);
            }
        }
        lemma_ascii_bytes_decode(rest);
        assert(valid_first_scalar(b));
        assert(valid_utf8(b));
        assert(decode_first_scalar(b) == b[0] as u32);
        assert(decode_utf8(b) =~= ascii_text(b)) by {
            assert(decode_utf8(b) == seq![decode_first_scalar(b) as char] + decode_utf8(rest));
            assert forall|i: int| 0 <= i < b.len() implies decode_utf8(b)[i] == ascii_text(b)[i] by {
                if i > 0 {
                    assert(decode_utf8(rest)[i - 1] == ascii_text(rest)[i - 1]);
                    assert(rest[i - 1] == b[i]);
                }
            }
        }
    }
}

/// After a prefix of ASCII bytes, well-formed UTF-8 goes on well-formed,
/// and the whole decodes to the prefix's characters followed by what the
/// remainder decodes to.
pub proof fn lemma_valid_after_ascii(b: Seq<u8>, n: int)
    requires
        valid_utf8(b),
        0 <= n <= b.len(),
        is_ascii_bytes(b.subrange(0, n)),
    ensures
        valid_utf8(b.subrange(n, b.len() as int)),
        decode_utf8(b) == ascii_text(b.subrange(0, n)) + decode_utf8(b.subrange(n, b.len() as int)),
    decreases n,
{
    if n == 0 {
        assert(b.subrange(0, b.len() as int) =~= b);
        assert(ascii_text(b.subrange(0, 0)) + decode_utf8(b) =~= decode_utf8(b));
    } else {
        let rest = pop_first_scalar(b);
        assert(b.subrange(0, n)[0] < 0x80);
        assert(b[0] < 0x80);
        lemma_ascii_byte(b[0]);
        assert(rest == b.subrange(1, b.len() as int));
        assert(is_ascii_bytes(rest.subrange(0, n - 1))) by {
            assert forall|i: int| 0 <= i < n - 1 implies #[trigger] rest.subrange(0, n - 1)[i]
                < 0x80 by {
                assert(rest.subrange(0, n - 1)[i] == b.subrange(0, n)[i + 1]);
            }
        }
        lemma_valid_after_ascii(rest, n - 1);
        assert(rest.subrange(n - 1, rest.len() as int) =~= b.subrange(n, b.len() as int));
        assert(decode_first_scalar(b) == b[0] as u32);
        assert(decode_utf8(b) == seq![decode_first_scalar(b) as char] + decode_utf8(rest));
        assert(seq![b[0] as char] + ascii_text(rest.subrange(0, n - 1)) =~= ascii_text(
            b.subrange(0, n),
        )) by {
            let l = seq![b[0] as char] + ascii_text(rest.subrange(0, n - 1));
            let r = ascii_text(b.subrange(0, n));
            assert(l.len() == r.len());
            assert forall|i: int| 0 <= i < l.len() implies l[i] == r[i] by {
                if i > 0 {
                    assert(rest.subrange(0, n - 1)[i - 1] == b.subrange(0, n)[i]);
                }
            }
        }
        assert(decode_utf8(b) =~= ascii_text(b.subrange(0, n)) + decode_utf8(
            b.subrange(n, b.len() as int),
        ));
    }
}

/// The text of a run of ASCII bytes.
pub(crate) fn ascii_string(bytes: &[u8]) -> (r: String)
    requires
        is_ascii_bytes(bytes@),
    ensures
        r@ == ascii_text(bytes@),
{
    proof {
        lemma_ascii_bytes_decode(bytes@);
    }
    match core::str::from_utf8(bytes) {
        Ok(s) => s.to_owned(),
        Err(_) => String::new(),
    }
}

/// The digit `d` as a character.
pub open spec fn digit_char(d: nat) -> char
    recommends
        d < 10,
{
    (0x30 + d) as char
}

/// The decimal numeral of `n`, without leading zeros.
pub open spec fn decimal(n: nat) -> Seq<char>
    decreases n,
{
    if n < 10 {
        seq![digit_char(n)]
    } else {
        decimal(n / 10).push(digit_char(n % 10))
    }
}

fn digit_str(d: u64) -> (r: &'static str)
    requires
        d < 10,
    ensures
        r@ == seq![digit_char(d as nat)],
{
    proof {
        reveal_strlit("0");
        reveal_strlit("1");
        reveal_strlit("2");
        reveal_strlit("3");
        reveal_strlit("4");
        reveal_strlit("5");
        reveal_strlit("6");
        reveal_strlit("7");
        reveal_strlit("8");
        reveal_strlit("9");
    }
    let r = if d == 0 {
        "0"
    } else if d == 1 {
        "1"
    } else if d == 2 {
        "2"
    } else if d == 3 {
        "3"
    } else if d == 4 {
        "4"
    } else if d == 5 {
        "5"
    } else if d == 6 {
        "6"
    } else if d == 7 {
        "7"
    } else if d == 8 {
        "8"
    } else {
        "9"
    };
    assert(r@ =~= seq![digit_char(d as nat)]);
    r
}

/// The decimal numeral of `n` as a string.
pub fn decimal_string(n: u64) -> (r: String)
    ensures
        r@ == decimal(n as nat),
    decreases n,
{
    if n < 10 {
        digit_str(n).to_owned()
    } else {
        let mut s = decimal_string(n / 10);
        s.append(digit_str(n % 10));
        assert(s@ =~= decimal(n as nat));
        s
    }
}

/// Encoding goes through concatenation.
pub proof fn lemma_encode_concat(a: Seq<char>, b: Seq<char>)
    ensures
        encode_utf8(a + b) == encode_utf8(a) + encode_utf8(b),
    decreases a.len(),
{
    if a.len() == 0 {
        assert(a + b =~= b);
        assert(encode_utf8(a) + encode_utf8(b) =~= encode_utf8(b));
    } else {
        assert((a + b).drop_first() =~= a.drop_first() + b);
        assert((a + b)[0] == a[0]);
        lemma_encode_concat(a.drop_first(), b);
        assert(encode_utf8(a + b) =~= encode_utf8(a) + encode_utf8(b));
    }
}

/// The bytes of a text of ASCII characters, one per character.
pub open spec fn ascii_bytes(t: Seq<char>) -> Seq<u8> {
    Seq::new(t.len(), |i: int| t[i] as u8)
}

/// A text of ASCII characters is encoded bytewise, and read back from its
/// bytes.
pub proof fn lemma_encode_ascii(t: Seq<char>)
    requires
        is_ascii_chars(t),
    ensures
        encode_utf8(t) == ascii_bytes(t),
        is_ascii_bytes(ascii_bytes(t)),
        ascii_text(ascii_bytes(t)) == t,
{
    is_ascii_chars_encode_utf8(t);
    assert(encode_utf8(t) =~= ascii_bytes(t));
    assert forall|i: int| 0 <= i < t.len() implies #[trigger] ascii_bytes(t)[i] < 0x80 by {
        assert('\0' <= t[i] <= '\u{7f}');
    }
    assert(ascii_text(ascii_bytes(t)) =~= t) by {
        assert forall|i: int| 0 <= i < t.len() implies ascii_text(ascii_bytes(t))[i] == t[i] by {
            assert('\0' <= t[i] <= '\u{7f}');
        }
    }
}

proof fn lemma_high_bytes(x: u8)
    by (bit_vector)
    ensures
        (0x80u8 | x) != 0x0A,
        (0xC0u8 | x) != 0x0A,
        (0xE0u8 | x) != 0x0A,
        (0xF0u8 | x) != 0x0A,
{
}

proof fn lemma_low_byte(s: u32)
    by (bit_vector)
    requires
        s <= 0x7F,
        s != 0x0A,
    ensures
        (s & 0x7F) as u8 != 0x0A,
{
}

/// The encoding of a character other than the line feed holds no line
/// feed.
pub proof fn lemma_scalar_has_no_newline(c: char)
    requires
        c != '\n',
    ensures
        forall|j: int|
            0 <= j < encode_scalar(c as u32).len() ==> #[trigger] encode_scalar(c as u32)[j]
                != NEWLINE,
{
    let s = c as u32;
    let e = encode_scalar(s);
    assert(s != 0x0A);
    if has_width_1_encoding(s) {
        lemma_low_byte(s);
    } else if has_width_2_encoding(s) {
        lemma_high_bytes(((s >> 6) & 0x1F) as u8);
        lemma_high_bytes((s & 0x3F) as u8);
    } else if has_width_3_encoding(s) {
        lemma_high_bytes(((s >> 12) & 0x0F) as u8);
        lemma_high_bytes(((s >> 6) & 0x3F) as u8);
        lemma_high_bytes((s & 0x3F) as u8);
    } else {
        lemma_high_bytes(((s >> 18) & 0x7) as u8);
        lemma_high_bytes(((s >> 12) & 0x3F) as u8);
        lemma_high_bytes(((s >> 6) & 0x3F) as u8);
        lemma_high_bytes((s & 0x3F) as u8);
    }
}

/// A text without a line feed.
pub open spec fn has_no_newline(s: Seq<char>) -> bool {
    forall|i: int| 0 <= i < s.len() ==> #[trigger] s[i] != '\n'
}

/// The encoding of a text without a line feed holds no line feed.
pub proof fn lemma_encode_has_no_newline(s: Seq<char>)
    requires
        has_no_newline(s),
    ensures
        forall|j: int| 0 <= j < encode_utf8(s).len() ==> #[trigger] encode_utf8(s)[j] != NEWLINE,
    decreases s.len(),
{
    if s.len() > 0 {
        let head = encode_scalar(s[0] as u32);
        let rest = s.drop_first();
        assert(s[0] != '\n');
        lemma_scalar_has_no_newline(s[0]);
        assert(has_no_newline(rest)) by {
            assert forall|i: int| 0 <= i < rest.len() implies #[trigger] rest[i] != '\n' by {
                assert(rest[i] == s[i + 1]);
            }
        }
        lemma_encode_has_no_newline(rest);
        assert forall|j: int| 0 <= j < encode_utf8(s).len() implies #[trigger] encode_utf8(s)[j]
            != NEWLINE by {
            if j < head.len() {
                assert(encode_utf8(s)[j] == head[j]);
            } else {
                assert(encode_utf8(s)[j] == encode_utf8(rest)[j - head.len()]);
            }
        }
    }
}

/// A text that neither starts nor ends with whitespace.
pub open spec fn is_trimmed(s: Seq<char>) -> bool {
    s.len() == 0 || (!is_white_space(s[0]) && !is_white_space(s.last()))
}

/// What is left after the leading whitespace is a suffix that does not
/// start with whitespace.
pub proof fn lemma_trim_start(s: Seq<char>)
    ensures
        trim_start(s).len() <= s.len(),
        trim_start(s) == s.subrange(s.len() - trim_start(s).len(), s.len() as int),
        trim_start(s).len() > 0 ==> !is_white_space(trim_start(s)[0]),
    decreases s.len(),
{
    if s.len() > 0 && is_white_space(s[0]) {
        let rest = s.drop_first();
        lemma_trim_start(rest);
        let t = trim_start(rest);
        assert(rest.subrange(rest.len() - t.len(), rest.len() as int) =~= s.subrange(
            s.len() - t.len(),
            s.len() as int,
        ));
    } else {
        assert(s.subrange(0, s.len() as int) =~= s);
    }
}

/// What is left after the trailing whitespace is a prefix that does not
/// end with whitespace.
pub proof fn lemma_trim_end(s: Seq<char>)
    ensures
        trim_end(s).len() <= s.len(),
        trim_end(s) == s.subrange(0, trim_end(s).len() as int),
        trim_end(s).len() > 0 ==> !is_white_space(trim_end(s).last()),
    decreases s.len(),
{
    if s.len() > 0 && is_white_space(s.last()) {
        let rest = s.drop_last();
        lemma_trim_end(rest);
        let t = trim_end(rest);
        assert(rest.subrange(0, t.len() as int) =~= s.subrange(0, t.len() as int));
    } else {
        assert(s.subrange(0, s.len() as int) =~= s);
    }
}

/// Trimming leaves a trimmed text, and a text without a line feed where
/// the text had none.
pub proof fn lemma_trimmed(s: Seq<char>)
    ensures
        is_trimmed(trimmed(s)),
        has_no_newline(s) ==> has_no_newline(trimmed(s)),
{
    lemma_trim_start(s);
    let t = trim_start(s);
    lemma_trim_end(t);
    let u = trim_end(t);
    if u.len() > 0 {
        assert(u[0] == t[0]);
    }
    if has_no_newline(s) {
        assert forall|i: int| 0 <= i < u.len() implies #[trigger] u[i] != '\n' by {
            assert(u[i] == t[i]);
            assert(t[i] == s[s.len() - t.len() + i]);
        }
    }
}

/// A trimmed text is what is left of it and whitespace after it.
pub proof fn lemma_trimmed_before_newline(v: Seq<char>)
    requires
        is_trimmed(v),
    ensures
        trimmed(v + seq!['\n']) == v,
{
    let s = v + seq!['\n'];
    assert(is_white_space('\n'));
    if v.len() == 0 {
        assert(s.drop_first() =~= Seq::<char>::empty());
        assert(trim_start(s.drop_first()) =~= Seq::<char>::empty());
        assert(trim_start(s) =~= Seq::<char>::empty());
        assert(trimmed(s) =~= v);
    } else {
        assert(s[0] == v[0]);
        assert(trim_start(s) == s);
        assert(s.last() == '\n');
        assert(s.drop_last() =~= v);
        assert(trim_end(v) == v);
        assert(trim_end(s) == trim_end(s.drop_last()));
    }
}

/// A text that starts with a character other than whitespace is not
/// blank.
pub proof fn lemma_not_blank(s: Seq<char>)
    requires
        s.len() > 0,
        !is_white_space(s[0]),
    ensures
        !is_blank(s),
{
    assert(trim_start(s) == s);
    lemma_trim_end_keeps_first(s);
}

proof fn lemma_trim_end_keeps_first(s: Seq<char>)
    requires
        s.len() > 0,
        !is_white_space(s[0]),
    ensures
        trim_end(s).len() > 0,
    decreases s.len(),
{
    if is_white_space(s.last()) {
        let rest = s.drop_last();
        assert(rest.len() > 0) by {
            if rest.len() == 0 {
                assert(s.last() == s[0]);
            }
        }
        assert(rest[0] == s[0]);
        lemma_trim_end_keeps_first(rest);
    }
}

/// Two texts with the same encoding are the same text.
pub proof fn lemma_encode_injective(a: Seq<char>, b: Seq<char>)
    requires
        encode_utf8(a) == encode_utf8(b),
    ensures
        a == b,
{
    encode_utf8_decode_utf8(a);
    encode_utf8_decode_utf8(b);
}

/// Tells whether two strings hold the same text.
pub fn str_eq(a: &str, b: &str) -> (r: bool)
    ensures
        r == (a@ == b@),
{
    let x = a.as_bytes();
    let y = b.as_bytes();
    let n = x.len();
    if n != y.len() {
        return false;
    }
    let mut i: usize = 0;
    while i < n
        invariant
            n == x@.len(),
            n == y@.len(),
            i <= n,
            x@ == encode_utf8(a@),
            y@ == encode_utf8(b@),
            forall|j: int| 0 <= j < i ==> x@[j] == y@[j],
        decreases n - i,
    {
        if x[i] != y[i] {
            return false;
        }
        i = i + 1;
    }
    proof {
        assert(x@ =~= y@);
        lemma_encode_injective(a@, b@);
    }
    true
}

} // verus!
