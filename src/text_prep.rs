//! Text preparation for speech: markdown cleaning, sentence segmentation and
//! chunk splitting.
//!
//! Segmentation works on the UTF-8 bytes of the text; every cut falls on a
//! character boundary. Sentence ends and paragraph breaks are found on ASCII
//! whitespace; trimming and words use the Unicode `White_Space` characters,
//! as `str::trim` does.
use vstd::prelude::*;
use vstd::string::StringSliceAdditionalSpecFns;
use vstd::utf8::*;

verus! {

/// Default maximum chunk length for [`split_text`].
pub const DEFAULT_MAX_CHUNK_LEN: usize = 200;

// ---------------------------------------------------------------------------
// Markdown cleaning
// ---------------------------------------------------------------------------

/// Pipe-delimited tables: one or more consecutive `|...|` lines.
pub const RE_TABLE: &'static str = "(?m)(?:^|\n)(\\|[^\n]+\\|(?:\n\\|[^\n]+\\|)*)";
/// Fenced code blocks, newlines included.
pub const RE_FENCED_CODE: &'static str = "(?s)```.*?```";
/// Inline code.
pub const RE_INLINE_CODE: &'static str = "`[^`]+`";
/// Horizontal rules.
pub const RE_HR: &'static str = "(?m)^[\\s]*[-*_]{3,}[\\s]*$";
/// Bold text.
pub const RE_BOLD: &'static str = "\\*\\*([^*]+)\\*\\*";
/// Italic text.
pub const RE_ITALIC: &'static str = "\\*([^*]+)\\*";
/// Heading marks and the spaces after them.
pub const RE_HEADING: &'static str = "#{1,6}\\s*";
/// Links, keeping the label.
pub const RE_LINK: &'static str = "\\[([^\\]]+)\\]\\([^)]+\\)";
/// Leading bullet marks on a line.
pub const RE_BULLET: &'static str = "(?m)^[\\s]*[-*]\\s+";
/// Leading `N. ` on a line.
pub const RE_NUMBERED: &'static str = "(?m)^[\\s]*\\d+\\.\\s+";
/// A dot and whitespace at the very start of the text. Without multi-line
/// mode `^` matches only there, so replacing all matches replaces at most one.
pub const RE_LEADING_DOT: &'static str = "^\\.\\s*";
/// A dot, optional whitespace, and another dot.
pub const RE_DOUBLE_DOT: &'static str = "\\.\\s*\\.";
/// Runs of two or more whitespace characters.
pub const RE_MULTI_SPACE: &'static str = "\\s{2,}";

/// What a table becomes.
pub const TABLE_PLACEHOLDER: &'static str = "\nSee the table in our conversation.\n";
/// What a fenced code block becomes.
pub const CODE_PLACEHOLDER: &'static str = " See the code in our conversation. ";

/// Whether the regex crate accepts `pattern` (syntax and default size limit).
pub uninterp spec fn regex_compiles(pattern: Seq<char>) -> bool;

/// The regex crate's result of replacing every non-overlapping match of
/// `pattern` in `haystack` with `replacement`, `$n` expanded to group `n`.
pub uninterp spec fn regex_replace_all(
    pattern: Seq<char>,
    haystack: Seq<char>,
    replacement: Seq<char>,
) -> Seq<char>;

/// Relies on regex::Regex::new, which fails exactly on patterns that do not
/// compile, and on Regex::replace_all, whose result depends on the pattern,
/// the haystack and the replacement alone.
#[verifier::external_body]
fn replace_all_matches(pattern: &str, haystack: &str, replacement: &str) -> (r: Option<String>)
    ensures
        r is Some <==> regex_compiles(pattern@),
        r matches Some(s) ==> s@ == regex_replace_all(pattern@, haystack@, replacement@),
{
    match regex::Regex::new(pattern) {
        Ok(re) => Some(re.replace_all(haystack, replacement).into_owned()),
        Err(_) => None,
    }
}

/// One cleaning rule: the text with every match of `pattern` replaced, or the
/// text unchanged when the pattern does not compile.
pub open spec fn rule_applied(pattern: Seq<char>, text: Seq<char>, replacement: Seq<char>) -> Seq<
    char,
> {
    if regex_compiles(pattern) {
        regex_replace_all(pattern, text, replacement)
    } else {
        text
    }
}

/// The cleaning rules in the order they run, before the final trim.
pub open spec fn cleaning_rules(text: Seq<char>) -> Seq<char> {
    let c = rule_applied(RE_TABLE@, text, TABLE_PLACEHOLDER@);
    let c = rule_applied(RE_FENCED_CODE@, c, CODE_PLACEHOLDER@);
    let c = rule_applied(RE_INLINE_CODE@, c, ""@);
    let c = rule_applied(RE_HR@, c, ""@);
    let c = rule_applied(RE_BOLD@, c, "$1"@);
    let c = rule_applied(RE_ITALIC@, c, "$1"@);
    let c = rule_applied(RE_HEADING@, c, ""@);
    let c = rule_applied(RE_LINK@, c, "$1"@);
    let c = rule_applied(RE_BULLET@, c, ". "@);
    let c = rule_applied(RE_NUMBERED@, c, ". "@);
    let c = rule_applied(RE_LEADING_DOT@, c, ""@);
    let c = rule_applied(RE_DOUBLE_DOT@, c, "."@);
    rule_applied(RE_MULTI_SPACE@, c, " "@)
}

/// The UTF-8 bytes of cleaned text: the rules' result without leading and
/// trailing whitespace.
pub open spec fn cleaned_for_speech(text: Seq<char>) -> Seq<u8> {
    trimmed(utf8_of(cleaning_rules(text)))
}

fn apply_rule(pattern: &str, text: String, replacement: &str) -> (r: String)
    ensures
        r@ == rule_applied(pattern@, text@, replacement@),
{
    match replace_all_matches(pattern, text.as_str(), replacement) {
        Some(s) => s,
        None => text,
    }
}

/// Strip markdown formatting so text reads naturally when spoken.
///
/// Tables and fenced code become short placeholders; inline code and
/// horizontal rules go; bold, italic and links keep their text; heading marks
/// go; list marks become `". "`; stray and doubled dots are tidied; runs of
/// whitespace become one space, and the result is trimmed.
pub fn clean_text_for_tts(text: &str) -> (r: String)
    ensures
        utf8_of(r@) == cleaned_for_speech(text@),
{
    let c = text.to_owned();
    let c = apply_rule(RE_TABLE, c, TABLE_PLACEHOLDER);
    let c = apply_rule(RE_FENCED_CODE, c, CODE_PLACEHOLDER);
    let c = apply_rule(RE_INLINE_CODE, c, "");
    let c = apply_rule(RE_HR, c, "");
    let c = apply_rule(RE_BOLD, c, "$1");
    let c = apply_rule(RE_ITALIC, c, "$1");
    let c = apply_rule(RE_HEADING, c, "");
    let c = apply_rule(RE_LINK, c, "$1");
    let c = apply_rule(RE_BULLET, c, ". ");
    let c = apply_rule(RE_NUMBERED, c, ". ");
    let c = apply_rule(RE_LEADING_DOT, c, "");
    let c = apply_rule(RE_DOUBLE_DOT, c, ".");
    let c = apply_rule(RE_MULTI_SPACE, c, " ");
    let text = c.as_str();
    let bytes = text.as_bytes();
    let ghost b = text.spec_bytes();
    proof {
        encode_utf8_valid_utf8(text@);
        is_char_boundary_start_end_of_seq(b);
        assert(b.subrange(0, b.len() as int) =~= b);
    }
    let (s, e) = trim_bounds(bytes, 0, bytes.len());
    substring(text, s, e)
}

// ---------------------------------------------------------------------------
// Byte-level model
// ---------------------------------------------------------------------------

/// The UTF-8 bytes of a string.
pub open spec fn utf8_of(s: Seq<char>) -> Seq<u8> {
    encode_utf8(s)
}

/// The UTF-8 bytes of each string of a list.
pub open spec fn pieces_bytes(v: Seq<String>) -> Seq<Seq<u8>> {
    v.map_values(|s: String| encode_utf8(s@))
}

/// ASCII whitespace as `u8::is_ascii_whitespace` defines it.
pub open spec fn is_space_byte(b: u8) -> bool {
    b == 0x20 || b == 0x09 || b == 0x0a || b == 0x0c || b == 0x0d
}

/// ASCII bytes that are whitespace characters: tab through carriage return
/// (the vertical tab included) and the space.
pub open spec fn is_trim_byte(b: u8) -> bool {
    is_space_byte(b) || b == 0x0b
}

/// Sentence-ending punctuation.
pub open spec fn is_terminal_byte(b: u8) -> bool {
    b == 0x2e || b == 0x21 || b == 0x3f
}

/// Length of the UTF-8 encoding of a Unicode `White_Space` character that
/// starts `s`, or 0. Those characters are U+0009..U+000D, U+0020, U+0085,
/// U+00A0, U+1680, U+2000..U+200A, U+2028, U+2029, U+202F, U+205F, U+3000.
pub open spec fn ws_len(s: Seq<u8>) -> nat {
    if s.len() >= 1 && is_trim_byte(s[0]) {
        1
    } else if s.len() >= 2 && s[0] == 0xc2 && (s[1] == 0x85 || s[1] == 0xa0) {
        2
    } else if s.len() >= 3 && ((s[0] == 0xe1 && s[1] == 0x9a && s[2] == 0x80) || (s[0] == 0xe2
        && s[1] == 0x80 && ((0x80 <= s[2] && s[2] <= 0x8a) || s[2] == 0xa8 || s[2] == 0xa9 || s[2]
        == 0xaf)) || (s[0] == 0xe2 && s[1] == 0x81 && s[2] == 0x9f) || (s[0] == 0xe3 && s[1] == 0x80
        && s[2] == 0x80)) {
        3
    } else {
        0
    }
}

/// Length of the encoding of a whitespace character that ends `s`, or 0.
pub open spec fn ws_back_len(s: Seq<u8>) -> nat {
    if s.len() >= 1 && ws_len(s.subrange(s.len() - 1, s.len() as int)) == 1 {
        1
    } else if s.len() >= 2 && ws_len(s.subrange(s.len() - 2, s.len() as int)) == 2 {
        2
    } else if s.len() >= 3 && ws_len(s.subrange(s.len() - 3, s.len() as int)) == 3 {
        3
    } else {
        0
    }
}

/// `s` without its leading whitespace characters.
pub open spec fn trim_front(s: Seq<u8>) -> Seq<u8>
    decreases s.len(),
{
    if ws_len(s) > 0 {
        trim_front(s.subrange(ws_len(s) as int, s.len() as int))
    } else {
        s
    }
}

/// `s` without its trailing whitespace characters.
pub open spec fn trim_back(s: Seq<u8>) -> Seq<u8>
    decreases s.len(),
{
    if ws_back_len(s) > 0 {
        trim_back(s.subrange(0, s.len() - ws_back_len(s)))
    } else {
        s
    }
}

/// `s` without leading and trailing whitespace.
pub open spec fn trimmed(s: Seq<u8>) -> Seq<u8> {
    trim_back(trim_front(s))
}

/// A one-element list holding `s`, or the empty list when `s` is empty.
pub open spec fn keep_nonempty(s: Seq<u8>) -> Seq<Seq<u8>> {
    if s.len() > 0 {
        seq![s]
    } else {
        seq![]
    }
}

/// A one-element list holding `s` when it has at least 2 bytes, else the
/// empty list.
pub open spec fn keep_long(s: Seq<u8>) -> Seq<Seq<u8>> {
    if s.len() >= 2 {
        seq![s]
    } else {
        seq![]
    }
}

/// Two newlines start at `i`: a paragraph break.
pub open spec fn para_break_at(b: Seq<u8>, i: int) -> bool {
    0 <= i && i + 1 < b.len() && b[i] == 0x0a && b[i + 1] == 0x0a
}

/// Punctuation at `i` followed by whitespace.
pub open spec fn sentence_end_at(b: Seq<u8>, i: int) -> bool {
    0 <= i && i + 1 < b.len() && is_terminal_byte(b[i]) && is_space_byte(b[i + 1])
}

/// Scanner states of sentence segmentation.
pub enum SegMode {
    /// Looking for the end of the sentence that began at `start`.
    Scan,
    /// Passing over the newlines of a paragraph break.
    SkipNewlines,
    /// Passing over the whitespace after a sentence's punctuation, up to a
    /// newline.
    SkipSpaces,
}

pub open spec fn seg_rank(mode: SegMode) -> int {
    match mode {
        SegMode::Scan => 0,
        _ => 1,
    }
}

/// The sentences of `b` from scanner position `i`, where the current
/// sentence began at `start`.
pub open spec fn sentences_from(b: Seq<u8>, start: int, i: int, mode: SegMode) -> Seq<Seq<u8>>
    decreases b.len() - i, seg_rank(mode),
{
    if i < 0 || i > b.len() {
        seq![]
    } else {
        match mode {
            SegMode::SkipNewlines => {
                if i < b.len() && b[i] == 0x0a {
                    sentences_from(b, start, i + 1, SegMode::SkipNewlines)
                } else {
                    sentences_from(b, i, i, SegMode::Scan)
                }
            },
            SegMode::SkipSpaces => {
                if i < b.len() && is_space_byte(b[i]) && b[i] != 0x0a {
                    sentences_from(b, start, i + 1, SegMode::SkipSpaces)
                } else {
                    sentences_from(b, i, i, SegMode::Scan)
                }
            },
            SegMode::Scan => {
                if i == b.len() {
                    if 0 <= start < b.len() {
                        keep_nonempty(trimmed(b.subrange(start, b.len() as int)))
                    } else {
                        seq![]
                    }
                } else if para_break_at(b, i) {
                    keep_nonempty(trimmed(b.subrange(start, i))) + sentences_from(
                        b,
                        start,
                        i + 1,
                        SegMode::SkipNewlines,
                    )
                } else if sentence_end_at(b, i) {
                    keep_nonempty(trimmed(b.subrange(start, i + 1))) + sentences_from(
                        b,
                        start,
                        i + 1,
                        SegMode::SkipSpaces,
                    )
                } else {
                    sentences_from(b, start, i + 1, SegMode::Scan)
                }
            },
        }
    }
}

/// The sentences of the text whose UTF-8 bytes are `b`.
pub open spec fn sentences_of(b: Seq<u8>) -> Seq<Seq<u8>> {
    sentences_from(b, 0, 0, SegMode::Scan)
}

// ---------------------------------------------------------------------------
// Character boundaries
// ---------------------------------------------------------------------------

/// The position right after an ASCII byte starts a character.
pub(crate) proof fn lemma_boundary_after_ascii(b: Seq<u8>, i: int)
    requires
        valid_utf8(b),
        0 <= i < b.len(),
        b[i] < 0x80,
    ensures
        is_char_boundary(b, i + 1),
    decreases b.len(),
{
    let lf = length_of_first_scalar(b);
    if i < lf {
        assert(i == 0);
        reveal_with_fuel(is_char_boundary, 2);
    } else {
        let rest = pop_first_scalar(b);
        assert(rest[i - lf] == b[i]);
        lemma_boundary_after_ascii(rest, i - lf);
    }
}

/// A position holding an ASCII byte starts a character.
pub(crate) proof fn lemma_boundary_at_ascii(b: Seq<u8>, i: int)
    requires
        valid_utf8(b),
        0 <= i < b.len(),
        b[i] < 0x80,
    ensures
        is_char_boundary(b, i),
{
    is_char_boundary_iff_not_is_continuation_byte(b, i);
}

/// The text between two character boundaries, as a new string.
pub(crate) fn substring(text: &str, start: usize, end: usize) -> (r: String)
    requires
        start <= end <= text.spec_bytes().len(),
        is_char_boundary(text.spec_bytes(), start as int),
        is_char_boundary(text.spec_bytes(), end as int),
    ensures
        encode_utf8(r@) == text.spec_bytes().subrange(start as int, end as int),
{
    let ghost b = text.spec_bytes();
    proof {
        encode_utf8_valid_utf8(text@);
        valid_utf8_split(b, end as int);
    }
    let (left, _) = text.split_at(end);
    proof {
        let lb = left.spec_bytes();
        if start < end {
            is_char_boundary_iff_not_is_continuation_byte(b, start as int);
            assert(lb[start as int] == b[start as int]);
            is_char_boundary_iff_not_is_continuation_byte(lb, start as int);
        } else {
            is_char_boundary_start_end_of_seq(lb);
        }
    }
    let (_, mid) = left.split_at(start);
    proof {
        assert(mid.spec_bytes() =~= b.subrange(start as int, end as int));
    }
    mid.to_owned()
}

/// Byte-wise equality.
pub(crate) fn same_bytes(a: &[u8], b: &[u8]) -> (r: bool)
    ensures
        r == (a@ == b@),
{
    if a.len() != b.len() {
        return false;
    }
    let mut i: usize = 0;
    while i < a.len()
        invariant
            a@.len() == b@.len(),
            i <= a@.len(),
            a@.subrange(0, i as int) == b@.subrange(0, i as int),
        decreases a@.len() - i,
    {
        if a[i] != b[i] {
            assert(a@[i as int] != b@[i as int]);
            return false;
        }
        assert(a@.subrange(0, i + 1) =~= a@.subrange(0, i as int).push(a@[i as int]));
        assert(b@.subrange(0, i + 1) =~= b@.subrange(0, i as int).push(b@[i as int]));
        i += 1;
    }
    assert(a@ =~= a@.subrange(0, i as int));
    assert(b@ =~= b@.subrange(0, i as int));
    true
}

/// Equality of two strings, by their bytes.
pub(crate) fn same_text(a: &str, b: &str) -> (r: bool)
    ensures
        r == (a@ == b@),
{
    proof {
        vstd::utf8::encode_utf8_decode_utf8(a@);
        vstd::utf8::encode_utf8_decode_utf8(b@);
    }
    same_bytes(a.as_bytes(), b.as_bytes())
}

/// Encoding distributes over concatenation.
pub(crate) proof fn lemma_encode_concat(a: Seq<char>, b: Seq<char>)
    ensures
        encode_utf8(a + b) == encode_utf8(a) + encode_utf8(b),
    decreases a.len(),
{
    if a.len() == 0 {
        assert(a + b =~= b);
        assert(encode_utf8(a) =~= seq![]);
        assert(seq![] + encode_utf8(b) =~= encode_utf8(b));
    } else {
        assert((a + b).drop_first() =~= a.drop_first() + b);
        lemma_encode_concat(a.drop_first(), b);
        assert(encode_utf8(a + b) =~= encode_utf8(a) + encode_utf8(b));
    }
}

// ---------------------------------------------------------------------------
// Trimming
// ---------------------------------------------------------------------------

pub(crate) proof fn lemma_trim_front_shrinks(s: Seq<u8>)
    ensures
        trim_front(s).len() <= s.len(),
        ws_len(s) > 0 ==> trim_front(s).len() < s.len(),
    decreases s.len(),
{
    if ws_len(s) > 0 {
        lemma_trim_front_shrinks(s.subrange(ws_len(s) as int, s.len() as int));
    }
}

/// A whitespace character found in a prefix of `s` starts `s` too.
pub(crate) proof fn lemma_ws_len_prefix(s: Seq<u8>, n: int)
    requires
        1 <= n <= s.len(),
    ensures
        ws_len(s.subrange(0, n)) > 0 ==> ws_len(s) == ws_len(s.subrange(0, n)),
{
    let t = s.subrange(0, n);
    if t.len() >= 1 {
        assert(t[0] == s[0]);
    }
    if t.len() >= 2 {
        assert(t[1] == s[1]);
    }
    if t.len() >= 3 {
        assert(t[2] == s[2]);
    }
}

/// The position after a whitespace character that starts at a character
/// boundary is a character boundary.
pub(crate) proof fn lemma_boundary_after_ws(b: Seq<u8>, p: int, to: int)
    requires
        valid_utf8(b),
        0 <= p < to <= b.len(),
        is_char_boundary(b, p),
        ws_len(b.subrange(p, to)) > 0,
    ensures
        is_char_boundary(b, p + ws_len(b.subrange(p, to))),
        p + ws_len(b.subrange(p, to)) <= to,
{
    let n = ws_len(b.subrange(p, to)) as int;
    let t = b.subrange(p, to);
    assert(t[0] == b[p]);
    let s = b.subrange(p, b.len() as int);
    valid_utf8_split(b, p);
    assert(s[0] == b[p]);
    if n >= 2 {
        assert(t[1] == b[p + 1]);
        assert(s[1] == b[p + 1]);
    }
    if n >= 3 {
        assert(t[2] == b[p + 2]);
        assert(s[2] == b[p + 2]);
    }
    assert(valid_first_scalar(s));
    assert(length_of_first_scalar(s) == n);
    reveal_with_fuel(is_char_boundary, 2);
    assert(is_char_boundary(s, n));
    if p + n == b.len() {
        is_char_boundary_start_end_of_seq(b);
    } else {
        is_char_boundary_iff_not_is_continuation_byte(s, n);
        assert(s[n] == b[p + n]);
        is_char_boundary_iff_not_is_continuation_byte(b, p + n);
    }
}

/// Length of the whitespace character starting `b[i..end]`, as `ws_len`.
fn ws_len_at(b: &[u8], i: usize, end: usize) -> (r: usize)
    requires
        i <= end <= b@.len(),
    ensures
        r == ws_len(b@.subrange(i as int, end as int)),
{
    let ghost s = b@.subrange(i as int, end as int);
    let n = end - i;
    if n >= 1 {
        let c = b[i];
        assert(s[0] == c);
        if c == 0x20 || (0x09 <= c && c <= 0x0d) {
            return 1;
        }
    }
    if n >= 2 {
        let c0 = b[i];
        let c1 = b[i + 1];
        assert(s[1] == c1);
        if c0 == 0xc2 && (c1 == 0x85 || c1 == 0xa0) {
            return 2;
        }
    }
    if n >= 3 {
        let c0 = b[i];
        let c1 = b[i + 1];
        let c2 = b[i + 2];
        assert(s[2] == c2);
        if (c0 == 0xe1 && c1 == 0x9a && c2 == 0x80) || (c0 == 0xe2 && c1 == 0x80 && ((0x80 <= c2
            && c2 <= 0x8a) || c2 == 0xa8 || c2 == 0xa9 || c2 == 0xaf)) || (c0 == 0xe2 && c1 == 0x81
            && c2 == 0x9f) || (c0 == 0xe3 && c1 == 0x80 && c2 == 0x80) {
            return 3;
        }
    }
    0
}

/// Length of the whitespace character ending `b[from..to]`, as `ws_back_len`.
fn ws_back_len_at(b: &[u8], from: usize, to: usize) -> (r: usize)
    requires
        from <= to <= b@.len(),
    ensures
        r == ws_back_len(b@.subrange(from as int, to as int)),
{
    let ghost s = b@.subrange(from as int, to as int);
    let n = to - from;
    if n >= 1 {
        assert(s.subrange(s.len() - 1, s.len() as int) =~= b@.subrange(to - 1, to as int));
        if ws_len_at(b, to - 1, to) == 1 {
            return 1;
        }
    }
    if n >= 2 {
        assert(s.subrange(s.len() - 2, s.len() as int) =~= b@.subrange(to - 2, to as int));
        if ws_len_at(b, to - 2, to) == 2 {
            return 2;
        }
    }
    if n >= 3 {
        assert(s.subrange(s.len() - 3, s.len() as int) =~= b@.subrange(to - 3, to as int));
        if ws_len_at(b, to - 3, to) == 3 {
            return 3;
        }
    }
    0
}

/// First position of `b[from..to]` past its leading whitespace; a character
/// boundary.
pub(crate) fn skip_leading_space(b: &[u8], from: usize, to: usize) -> (r: usize)
    requires
        from <= to <= b@.len(),
        valid_utf8(b@),
        is_char_boundary(b@, from as int),
    ensures
        from <= r <= to,
        b@.subrange(r as int, to as int) == trim_front(b@.subrange(from as int, to as int)),
        is_char_boundary(b@, r as int),
        r < to ==> ws_len(b@.subrange(r as int, to as int)) == 0,
{
    let mut i: usize = from;
    loop
        invariant
            from <= i <= to <= b@.len(),
            valid_utf8(b@),
            is_char_boundary(b@, i as int),
            trim_front(b@.subrange(from as int, to as int)) == trim_front(
                b@.subrange(i as int, to as int),
            ),
        decreases to - i,
    {
        let n = ws_len_at(b, i, to);
        if n == 0 {
            return i;
        }
        proof {
            lemma_boundary_after_ws(b@, i as int, to as int);
            assert(b@.subrange(i as int, to as int).subrange(n as int, (to - i) as int) =~= b@.subrange(
                i + n,
                to as int,
            ));
        }
        i = i + n;
    }
}

/// End of `b[from..to]` once its trailing whitespace is dropped; a character
/// boundary.
pub(crate) fn skip_trailing_space(b: &[u8], from: usize, to: usize) -> (r: usize)
    requires
        from <= to <= b@.len(),
        valid_utf8(b@),
        is_char_boundary(b@, to as int),
    ensures
        from <= r <= to,
        b@.subrange(from as int, r as int) == trim_back(b@.subrange(from as int, to as int)),
        is_char_boundary(b@, r as int),
{
    let mut j: usize = to;
    loop
        invariant
            from <= j <= to <= b@.len(),
            valid_utf8(b@),
            is_char_boundary(b@, j as int),
            trim_back(b@.subrange(from as int, to as int)) == trim_back(
                b@.subrange(from as int, j as int),
            ),
        decreases j - from,
    {
        let k = ws_back_len_at(b, from, j);
        if k == 0 {
            return j;
        }
        proof {
            let s = b@.subrange(from as int, j as int);
            let t = s.subrange(s.len() - k, s.len() as int);
            assert(t[0] == b@[j - k]);
            is_char_boundary_iff_not_is_continuation_byte(b@, j - k);
            assert(s.subrange(0, s.len() - k) =~= b@.subrange(from as int, j - k));
        }
        j = j - k;
    }
}

/// Bounds of the trimmed part of `b[start..end]`; character boundaries.
pub(crate) fn trim_bounds(b: &[u8], start: usize, end: usize) -> (r: (usize, usize))
    requires
        start <= end <= b@.len(),
        valid_utf8(b@),
        is_char_boundary(b@, start as int),
        is_char_boundary(b@, end as int),
    ensures
        start <= r.0 <= r.1 <= end,
        b@.subrange(r.0 as int, r.1 as int) == trimmed(b@.subrange(start as int, end as int)),
        is_char_boundary(b@, r.0 as int),
        is_char_boundary(b@, r.1 as int),
{
    let i = skip_leading_space(b, start, end);
    let j = skip_trailing_space(b, i, end);
    (i, j)
}

// ---------------------------------------------------------------------------
// Sentence segmentation
// ---------------------------------------------------------------------------

/// Split text into sentences at sentence-ending punctuation (`.`, `!`, `?`)
/// followed by whitespace, and at paragraph breaks (two or more newlines).
///
/// Returns the non-empty, trimmed fragments in order.
pub fn split_sentences(text: &str) -> (r: Vec<String>)
    ensures
        pieces_bytes(r@) == sentences_of(text.spec_bytes()),
{
    let bytes = text.as_bytes();
    let ghost b = text.spec_bytes();
    proof {
        encode_utf8_valid_utf8(text@);
        is_char_boundary_start_end_of_seq(b);
    }
    let len = bytes.len();
    let mut sentences: Vec<String> = Vec::new();
    let mut start: usize = 0;
    let mut i: usize = 0;

    while i < len
        invariant
            b == bytes@,
            b == text.spec_bytes(),
            len == b.len(),
            valid_utf8(b),
            start <= i <= len,
            is_char_boundary(b, start as int),
            pieces_bytes(sentences@) + sentences_from(b, start as int, i as int, SegMode::Scan)
                == sentences_of(b),
        decreases len - i,
    {
        let c = bytes[i];
        if c == 0x0a && i + 1 < len && bytes[i + 1] == 0x0a {
            let ghost before = pieces_bytes(sentences@);
            proof {
                lemma_boundary_at_ascii(b, i as int);
            }
            let (s, e) = trim_bounds(bytes, start, i);
            if s < e {
                let piece = substring(text, s, e);
                sentences.push(piece);
            }
            proof {
                assert(pieces_bytes(sentences@) =~= before + keep_nonempty(
                    trimmed(b.subrange(start as int, i as int)),
                ));
            }
            let ghost i_before = i;
            i += 1;
            while i < len && bytes[i] == 0x0a
                invariant
                    i_before < i,
                    b == bytes@,
                    len == b.len(),
                    0 < i <= len,
                    b[i - 1] == 0x0a,
                    pieces_bytes(sentences@) + sentences_from(
                        b,
                        start as int,
                        i as int,
                        SegMode::SkipNewlines,
                    ) == sentences_of(b),
                decreases len - i,
            {
                i += 1;
            }
            proof {
                lemma_boundary_after_ascii(b, i - 1);
            }
            start = i;
            continue;
        }
        if (c == 0x2e || c == 0x21 || c == 0x3f) && i + 1 < len && (bytes[i + 1] == 0x20
            || bytes[i + 1] == 0x09 || bytes[i + 1] == 0x0a || bytes[i + 1] == 0x0c || bytes[i + 1]
            == 0x0d) {
            let ghost before = pieces_bytes(sentences@);
            proof {
                lemma_boundary_after_ascii(b, i as int);
            }
            let (s, e) = trim_bounds(bytes, start, i + 1);
            if s < e {
                let piece = substring(text, s, e);
                sentences.push(piece);
            }
            proof {
                assert(pieces_bytes(sentences@) =~= before + keep_nonempty(
                    trimmed(b.subrange(start as int, i + 1)),
                ));
            }
            let ghost i_before = i;
            i += 1;
            while i < len && (bytes[i] == 0x20 || bytes[i] == 0x09 || bytes[i] == 0x0c || bytes[i]
                == 0x0d)
                invariant
                    i_before < i,
                    b == bytes@,
                    len == b.len(),
                    0 < i <= len,
                    b[i - 1] < 0x80,
                    pieces_bytes(sentences@) + sentences_from(
                        b,
                        start as int,
                        i as int,
                        SegMode::SkipSpaces,
                    ) == sentences_of(b),
                decreases len - i,
            {
                i += 1;
            }
            proof {
                lemma_boundary_after_ascii(b, i - 1);
            }
            start = i;
            continue;
        }
        i += 1;
    }

    if start < len {
        let ghost before = pieces_bytes(sentences@);
        let (s, e) = trim_bounds(bytes, start, len);
        if s < e {
            let piece = substring(text, s, e);
            sentences.push(piece);
        }
        proof {
            assert(pieces_bytes(sentences@) =~= before + keep_nonempty(
                trimmed(b.subrange(start as int, len as int)),
            ));
        }
    } else {
        assert(pieces_bytes(sentences@) =~= sentences_of(b));
    }
    sentences
}

// ---------------------------------------------------------------------------
// Chunk splitting
// ---------------------------------------------------------------------------

/// The last `p <= hi` where `". "` starts in `w`, or -1.
pub open spec fn last_dot_space(w: Seq<u8>, hi: int) -> int
    decreases hi + 1,
{
    if hi < 0 {
        -1
    } else if w[hi] == 0x2e && w[hi + 1] == 0x20 {
        hi
    } else {
        last_dot_space(w, hi - 1)
    }
}

/// The last `p <= hi` where `w` holds a space, or -1.
pub open spec fn last_space(w: Seq<u8>, hi: int) -> int
    decreases hi + 1,
{
    if hi < 0 {
        -1
    } else if w[hi] == 0x20 {
        hi
    } else {
        last_space(w, hi - 1)
    }
}

/// The first character boundary of `w` at or after `k`.
pub open spec fn next_boundary(w: Seq<u8>, k: int) -> int
    decreases w.len() - k,
{
    if k >= w.len() || !is_continuation_byte(w[k]) {
        k
    } else {
        next_boundary(w, k + 1)
    }
}

/// Where a chunk of `w` ends when no sentence boundary is usable: the last
/// space in the first `m` bytes at or past `m / 3`, else a hard cut at `m`
/// (moved forward to the next character boundary, and never at 0).
pub open spec fn word_or_hard_cut(w: Seq<u8>, m: nat) -> int {
    let p = last_space(w, m - 1);
    if p >= 0 && p >= m / 3 {
        p
    } else {
        next_boundary(w, if m < 1 { 1 } else { m as int })
    }
}

/// Where the next chunk of `w` ends, for `w` longer than `m`: after the last
/// `". "` in the first `m` bytes at or past `m / 2`, else `word_or_hard_cut`.
pub open spec fn cut_point(w: Seq<u8>, m: nat) -> int {
    let p = last_dot_space(w, m - 2);
    if p >= 0 && p >= m / 2 {
        p + 1
    } else {
        word_or_hard_cut(w, m)
    }
}

/// The chunks of the remaining text `w`.
pub open spec fn chunks_rest(w: Seq<u8>, m: nat) -> Seq<Seq<u8>>
    decreases w.len(),
    via chunks_rest_decreases
{
    if w.len() <= m {
        if w.len() >= 2 {
            seq![w]
        } else {
            seq![]
        }
    } else {
        let k = cut_point(w, m);
        keep_long(trim_back(w.subrange(0, k))) + chunks_rest(
            trim_front(w.subrange(k, w.len() as int)),
            m,
        )
    }
}

/// The chunks of the text whose UTF-8 bytes are `b`: at most `m` bytes each
/// when a cut can be made inside the limit, and never under 2 bytes.
pub open spec fn chunks_of(b: Seq<u8>, m: nat) -> Seq<Seq<u8>> {
    if b.len() <= m {
        keep_long(b)
    } else {
        chunks_rest(b, m)
    }
}

/// The pieces one sentence is sent as: the sentence itself when it fits in
/// `m` bytes, else its chunks.
pub open spec fn sentence_chunks(s: Seq<u8>, m: nat) -> Seq<Seq<u8>> {
    if s.len() <= m {
        seq![s]
    } else {
        chunks_rest(s, m)
    }
}

proof fn lemma_last_dot_space(w: Seq<u8>, hi: int)
    requires
        -1 <= hi,
        hi + 1 < w.len(),
    ensures
        -1 <= last_dot_space(w, hi) <= hi,
        last_dot_space(w, hi) >= 0 ==> w[last_dot_space(w, hi)] == 0x2e && w[last_dot_space(w, hi)
            + 1] == 0x20,
    decreases hi + 1,
{
    if hi >= 0 && !(w[hi] == 0x2e && w[hi + 1] == 0x20) && hi >= 0 {
        lemma_last_dot_space(w, hi - 1);
    }
}

pub(crate) proof fn lemma_last_space(w: Seq<u8>, hi: int)
    requires
        -1 <= hi,
        hi < w.len(),
    ensures
        -1 <= last_space(w, hi) <= hi,
        last_space(w, hi) >= 0 ==> w[last_space(w, hi)] == 0x20,
    decreases hi + 1,
{
    if hi >= 0 && w[hi] != 0x20 {
        lemma_last_space(w, hi - 1);
    }
}

pub(crate) proof fn lemma_next_boundary(w: Seq<u8>, k: int)
    requires
        0 <= k <= w.len(),
    ensures
        k <= next_boundary(w, k) <= w.len(),
        next_boundary(w, k) < w.len() ==> !is_continuation_byte(w[next_boundary(w, k)]),
    decreases w.len() - k,
{
    if k < w.len() && is_continuation_byte(w[k]) {
        lemma_next_boundary(w, k + 1);
    }
}

/// Where `cut_point` lands, and what stands there.
pub proof fn lemma_cut_point(w: Seq<u8>, m: nat)
    requires
        w.len() > m,
    ensures
        0 <= cut_point(w, m) <= w.len(),
        cut_point(w, m) == 0 ==> w[0] == 0x20,
        ({
            let k = cut_point(w, m);
            ||| (k > 0 && w[k - 1] == 0x2e)
            ||| (k < w.len() && w[k] == 0x20)
            ||| k == w.len()
            ||| (k < w.len() && !is_continuation_byte(w[k]))
        }),
        m >= 1 && (forall|j: int| 0 <= j < w.len() ==> w[j] < 0x80) ==> cut_point(w, m) <= m,
{
    if m >= 2 {
        lemma_last_dot_space(w, m - 2);
    }
    if m >= 1 {
        lemma_last_space(w, m - 1);
    }
    let km: int = if m < 1 { 1 } else { m as int };
    lemma_next_boundary(w, km);
    if m >= 1 && (forall|j: int| 0 <= j < w.len() ==> w[j] < 0x80) {
        assert(!is_continuation_byte(w[m as int]));
    }
}

#[via_fn]
proof fn chunks_rest_decreases(w: Seq<u8>, m: nat) {
    if w.len() > m {
        let k = cut_point(w, m);
        lemma_cut_point(w, m);
        let rest = w.subrange(k, w.len() as int);
        lemma_trim_front_shrinks(rest);
        if k == 0 {
            assert(rest[0] == w[0]);
        }
    }
}

/// The last start of `". "` at or below `hi` in `b[pos..]`, or `None`.
fn rfind_dot_space(b: &[u8], pos: usize, hi: usize) -> (r: Option<usize>)
    requires
        pos + hi + 1 < b@.len() <= usize::MAX,
    ensures
        match r {
            None => last_dot_space(b@.subrange(pos as int, b@.len() as int), hi as int) == -1,
            Some(p) => last_dot_space(b@.subrange(pos as int, b@.len() as int), hi as int) == p,
        },
{
    let ghost w = b@.subrange(pos as int, b@.len() as int);
    let mut p: usize = hi + 1;
    while p > 0
        invariant
            p <= hi + 1,
            pos + hi + 1 < b@.len() <= usize::MAX,
            w == b@.subrange(pos as int, b@.len() as int),
            last_dot_space(w, hi as int) == last_dot_space(w, p - 1),
        decreases p,
    {
        if b[pos + p - 1] == 0x2e && b[pos + p] == 0x20 {
            return Some(p - 1);
        }
        p -= 1;
    }
    None
}

/// The last space at or below `hi` in `b[pos..]`, or `None`.
pub(crate) fn rfind_space(b: &[u8], pos: usize, hi: usize) -> (r: Option<usize>)
    requires
        pos + hi < b@.len() <= usize::MAX,
    ensures
        match r {
            None => last_space(b@.subrange(pos as int, b@.len() as int), hi as int) == -1,
            Some(p) => last_space(b@.subrange(pos as int, b@.len() as int), hi as int) == p,
        },
{
    let ghost w = b@.subrange(pos as int, b@.len() as int);
    let mut p: usize = hi + 1;
    while p > 0
        invariant
            p <= hi + 1,
            pos + hi < b@.len() <= usize::MAX,
            w == b@.subrange(pos as int, b@.len() as int),
            last_space(w, hi as int) == last_space(w, p - 1),
        decreases p,
    {
        if b[pos + p - 1] == 0x20 {
            return Some(p - 1);
        }
        p -= 1;
    }
    None
}

/// Find a word boundary in the first `max_len` bytes of `b[pos..]`, or fall
/// back to a hard split.
fn word_boundary_or_hard(b: &[u8], pos: usize, max_len: usize) -> (r: usize)
    requires
        pos + max_len < b@.len() <= usize::MAX,
    ensures
        r == word_or_hard_cut(b@.subrange(pos as int, b@.len() as int), max_len as nat),
{
    let ghost w = b@.subrange(pos as int, b@.len() as int);
    if max_len >= 1 {
        if let Some(p) = rfind_space(b, pos, max_len - 1) {
            if p >= max_len / 3 {
                return p;
            }
        }
    }
    let mut k: usize = if max_len < 1 { 1 } else { max_len };
    let ghost k0 = k as int;
    while pos + k < b.len() && b[pos + k] >= 0x80 && b[pos + k] <= 0xbf
        invariant
            k0 <= k,
            pos + k <= b@.len() <= usize::MAX,
            w == b@.subrange(pos as int, b@.len() as int),
            next_boundary(w, k0) == next_boundary(w, k as int),
        decreases b@.len() - k,
    {
        k += 1;
    }
    k
}

/// Where the next chunk of `b[pos..]` ends; a character boundary of `b`.
fn next_cut(b: &[u8], pos: usize, max_len: usize) -> (r: usize)
    requires
        valid_utf8(b@),
        b@.len() <= usize::MAX,
        pos + max_len < b@.len(),
        is_char_boundary(b@, pos as int),
    ensures
        r == cut_point(b@.subrange(pos as int, b@.len() as int), max_len as nat),
        pos + r <= b@.len(),
        is_char_boundary(b@, pos + r),
{
    let ghost w = b@.subrange(pos as int, b@.len() as int);
    proof {
        lemma_cut_point(w, max_len as nat);
    }
    let found = if max_len >= 2 {
        rfind_dot_space(b, pos, max_len - 2)
    } else {
        None
    };
    let split_at: usize = match found {
        Some(p) => {
            if p >= max_len / 2 {
                p + 1
            } else {
                word_boundary_or_hard(b, pos, max_len)
            }
        },
        None => word_boundary_or_hard(b, pos, max_len),
    };
    proof {
        let k = split_at as int;
        let cut = pos + k;
        if k > 0 && w[k - 1] == 0x2e {
            lemma_boundary_after_ascii(b@, cut - 1);
        } else if k < w.len() && w[k] == 0x20 {
            lemma_boundary_at_ascii(b@, cut);
        } else if k < w.len() {
            is_char_boundary_iff_not_is_continuation_byte(b@, cut);
        } else {
            is_char_boundary_start_end_of_seq(b@);
        }
    }
    split_at
}

/// Split text into chunks of at most `max_len` bytes.
///
/// Text that fits comes back whole. Longer text is cut, in the first
/// `max_len` bytes of what remains, after the last `". "` at or past
/// `max_len / 2`, else at the last space at or past `max_len / 3`, else at
/// `max_len` (moved forward to the end of a multi-byte character it would
/// split). Each chunk loses its trailing whitespace and the rest its leading
/// whitespace; a chunk, or a text that fits, shorter than 2 bytes is dropped.
pub fn split_text(text: &str, max_len: usize) -> (r: Vec<String>)
    ensures
        pieces_bytes(r@) == chunks_of(text.spec_bytes(), max_len as nat),
{
    let bytes = text.as_bytes();
    let ghost b = text.spec_bytes();
    proof {
        encode_utf8_valid_utf8(text@);
        is_char_boundary_start_end_of_seq(b);
    }
    let len = bytes.len();
    if len <= max_len {
        let mut r: Vec<String> = Vec::new();
        if len >= 2 {
            let whole = text.to_owned();
            r.push(whole);
            assert(pieces_bytes(r@) =~= seq![b]);
        } else {
            assert(pieces_bytes(r@) =~= Seq::<Seq<u8>>::empty());
        }
        return r;
    }

    let mut result: Vec<String> = Vec::new();
    let mut pos: usize = 0;
    assert(b.subrange(0, len as int) =~= b);
    while len - pos > max_len
        invariant
            b == bytes@,
            b == text.spec_bytes(),
            len == b.len(),
            valid_utf8(b),
            pos <= len,
            is_char_boundary(b, pos as int),
            pieces_bytes(result@) + chunks_rest(b.subrange(pos as int, len as int), max_len as nat)
                == chunks_rest(b, max_len as nat),
        decreases len - pos,
    {
        let ghost w = b.subrange(pos as int, len as int);
        proof {
            lemma_cut_point(w, max_len as nat);
        }
        let split_at = next_cut(bytes, pos, max_len);
        let ghost before = pieces_bytes(result@);
        let cut = pos + split_at;
        let end = skip_trailing_space(bytes, pos, cut);
        proof {
            assert(b.subrange(pos as int, cut as int) =~= w.subrange(0, split_at as int));
        }
        if end - pos >= 2 {
            let chunk = substring(text, pos, end);
            result.push(chunk);
        }
        proof {
            assert(pieces_bytes(result@) =~= before + keep_long(
                trim_back(w.subrange(0, split_at as int)),
            ));
        }
        let next = skip_leading_space(bytes, cut, len);
        proof {
            assert(b.subrange(cut as int, len as int) =~= w.subrange(
                split_at as int,
                w.len() as int,
            ));
            lemma_trim_front_shrinks(w.subrange(split_at as int, w.len() as int));
            if split_at == 0 {
                assert(w.subrange(0, w.len() as int)[0] == w[0]);
            }
        }
        pos = next;
    }

    let ghost before = pieces_bytes(result@);
    if len - pos >= 2 {
        let rest = substring(text, pos, len);
        result.push(rest);
    }
    proof {
        assert(pieces_bytes(result@) =~= before + chunks_rest(
            b.subrange(pos as int, len as int),
            max_len as nat,
        ));
    }
    result
}

pub(crate) proof fn lemma_trim_front_lead(s: Seq<u8>)
    ensures
        trim_front(s).len() > 0 ==> ws_len(trim_front(s)) == 0,
    decreases s.len(),
{
    if ws_len(s) > 0 {
        lemma_trim_front_lead(s.subrange(ws_len(s) as int, s.len() as int));
    }
}

/// Dropping trailing whitespace keeps a prefix, and keeps some of a text that
/// does not start with whitespace.
pub(crate) proof fn lemma_trim_back_prefix(s: Seq<u8>)
    ensures
        trim_back(s).len() <= s.len(),
        trim_back(s) == s.subrange(0, trim_back(s).len() as int),
        s.len() > 0 && ws_len(s) == 0 ==> trim_back(s).len() > 0,
    decreases s.len(),
{
    let k = ws_back_len(s) as int;
    if k > 0 {
        let d = s.subrange(0, s.len() - k);
        lemma_trim_back_prefix(d);
        let t = trim_back(d);
        assert(t =~= s.subrange(0, t.len() as int));
        if s.len() > 0 && ws_len(s) == 0 {
            if d.len() == 0 {
                assert(s.subrange(s.len() - k, s.len() as int) =~= s);
            } else {
                lemma_ws_len_prefix(s, d.len() as int);
                assert(s.subrange(0, d.len() as int) =~= d);
            }
        }
    } else {
        assert(s =~= s.subrange(0, s.len() as int));
    }
}

/// Every byte is ASCII.
pub open spec fn ascii_bytes(b: Seq<u8>) -> bool {
    forall|j: int| 0 <= j < b.len() ==> b[j] < 0x80
}

/// Dropping leading whitespace keeps a suffix.
pub(crate) proof fn lemma_trim_front_suffix(s: Seq<u8>)
    ensures
        trim_front(s).len() <= s.len(),
        trim_front(s) == s.subrange(s.len() - trim_front(s).len(), s.len() as int),
    decreases s.len(),
{
    if ws_len(s) > 0 {
        let r = s.subrange(ws_len(s) as int, s.len() as int);
        lemma_trim_front_suffix(r);
        let t = trim_front(r);
        assert(t =~= s.subrange(s.len() - t.len(), s.len() as int));
    } else {
        assert(s =~= s.subrange(0, s.len() as int));
    }
}

proof fn lemma_chunks_rest_fit(w: Seq<u8>, m: nat)
    requires
        m >= 1,
        ascii_bytes(w),
    ensures
        forall|j: int| 0 <= j < chunks_rest(w, m).len() ==> #[trigger] chunks_rest(w, m)[j].len() <= m,
    decreases w.len(),
{
    if w.len() > m {
        let k = cut_point(w, m);
        lemma_cut_point(w, m);
        let head = w.subrange(0, k);
        lemma_trim_back_prefix(head);
        let rest0 = w.subrange(k, w.len() as int);
        let rest = trim_front(rest0);
        lemma_trim_front_suffix(rest0);
        lemma_trim_front_shrinks(rest0);
        if k == 0 {
            assert(rest0[0] == w[0]);
        }
        assert forall|j: int| 0 <= j < rest.len() implies rest[j] < 0x80 by {
            assert(rest[j] == rest0[rest0.len() - rest.len() + j]);
        }
        lemma_chunks_rest_fit(rest, m);
        let first = keep_long(trim_back(head));
        let later = chunks_rest(rest, m);
        assert(chunks_rest(w, m) == first + later);
        assert forall|j: int| 0 <= j < (first + later).len() implies #[trigger] (first + later)[j].len() <= m by {
            if j < first.len() {
                assert((first + later)[j] == first[j]);
            } else {
                assert((first + later)[j] == later[j - first.len()]);
            }
        }
    }
}

proof fn lemma_chunks_rest_long(w: Seq<u8>, m: nat)
    ensures
        forall|j: int| 0 <= j < chunks_rest(w, m).len() ==> #[trigger] chunks_rest(w, m)[j].len() >= 2,
    decreases w.len(),
{
    if w.len() > m {
        let k = cut_point(w, m);
        lemma_cut_point(w, m);
        let rest0 = w.subrange(k, w.len() as int);
        let rest = trim_front(rest0);
        lemma_trim_front_shrinks(rest0);
        if k == 0 {
            assert(rest0[0] == w[0]);
        }
        lemma_chunks_rest_long(rest, m);
        let first = keep_long(trim_back(w.subrange(0, k)));
        let later = chunks_rest(rest, m);
        assert(chunks_rest(w, m) == first + later);
        assert forall|j: int| 0 <= j < (first + later).len() implies #[trigger] (first + later)[j].len()
            >= 2 by {
            if j < first.len() {
                assert((first + later)[j] == first[j]);
            } else {
                assert((first + later)[j] == later[j - first.len()]);
            }
        }
    }
}

/// Every chunk that `split_text` returns has at least 2 bytes.
pub proof fn lemma_chunks_at_least_two(b: Seq<u8>, max_len: nat)
    ensures
        forall|j: int| 0 <= j < chunks_of(b, max_len).len() ==> #[trigger] chunks_of(b, max_len)[j].len() >= 2,
{
    if b.len() > max_len {
        lemma_chunks_rest_long(b, max_len);
    }
}

/// For ASCII text and a limit of at least one byte, every chunk that
/// `split_text` returns is at most `max_len` bytes long.
pub proof fn lemma_ascii_chunks_fit(b: Seq<u8>, max_len: nat)
    requires
        max_len >= 1,
        ascii_bytes(b),
    ensures
        forall|j: int| 0 <= j < chunks_of(b, max_len).len() ==> #[trigger] chunks_of(b, max_len)[j].len() <= max_len,
{
    if b.len() > max_len {
        lemma_chunks_rest_fit(b, max_len);
    }
}

/// `next_boundary` stops at the first position from `k` that is the end or
/// no continuation byte.
proof fn lemma_next_boundary_upto(w: Seq<u8>, k: int, j: int)
    requires
        0 <= k <= j <= w.len(),
        j == w.len() || !is_continuation_byte(w[j]),
    ensures
        next_boundary(w, k) <= j,
    decreases j - k,
{
    if k < j && is_continuation_byte(w[k]) {
        lemma_next_boundary_upto(w, k + 1, j);
    }
}

/// In UTF-8 a character takes at most four bytes, so a character boundary
/// comes within three bytes after any position.
proof fn lemma_next_boundary_near(w: Seq<u8>, k: int)
    requires
        valid_utf8(w),
        0 <= k <= w.len(),
    ensures
        next_boundary(w, k) <= k + 3,
    decreases w.len(),
{
    if k < w.len() {
        assert(valid_first_scalar(w));
        let lf = length_of_first_scalar(w);
        let rest = pop_first_scalar(w);
        if k == 0 {
        } else if k < lf {
            reveal_with_fuel(is_char_boundary, 2);
            assert(is_char_boundary(w, lf));
            if lf < w.len() {
                is_char_boundary_iff_not_is_continuation_byte(w, lf);
            }
            lemma_next_boundary_upto(w, k, lf);
        } else {
            lemma_next_boundary_near(rest, k - lf);
            lemma_next_boundary(rest, k - lf);
            let nb = next_boundary(rest, k - lf);
            if nb < rest.len() {
                assert(rest[nb] == w[lf + nb]);
            }
            lemma_next_boundary_upto(w, k, lf + nb);
        }
    }
}

/// Dropping leading whitespace keeps valid UTF-8 valid.
proof fn lemma_trim_front_valid(s: Seq<u8>)
    requires
        valid_utf8(s),
    ensures
        valid_utf8(trim_front(s)),
    decreases s.len(),
{
    if ws_len(s) > 0 {
        is_char_boundary_start_end_of_seq(s);
        assert(s.subrange(0, s.len() as int) =~= s);
        lemma_boundary_after_ws(s, 0, s.len() as int);
        valid_utf8_split(s, ws_len(s) as int);
        lemma_trim_front_valid(s.subrange(ws_len(s) as int, s.len() as int));
    }
}

proof fn lemma_chunks_rest_fit_utf8(w: Seq<u8>, m: nat)
    requires
        m >= 1,
        valid_utf8(w),
    ensures
        forall|j: int| 0 <= j < chunks_rest(w, m).len() ==> #[trigger] chunks_rest(w, m)[j].len() <= m + 3,
    decreases w.len(),
{
    if w.len() > m {
        let k = cut_point(w, m);
        lemma_cut_point(w, m);
        lemma_next_boundary_near(w, m as int);
        lemma_last_dot_space(w, m - 2);
        lemma_last_space(w, m - 1);
        assert(k <= m + 3);
        if k > 0 && w[k - 1] == 0x2e {
            lemma_boundary_after_ascii(w, k - 1);
        } else if k < w.len() && w[k] == 0x20 {
            lemma_boundary_at_ascii(w, k);
        } else if k == w.len() {
            is_char_boundary_start_end_of_seq(w);
        } else {
            is_char_boundary_iff_not_is_continuation_byte(w, k);
        }
        let head = w.subrange(0, k);
        lemma_trim_back_prefix(head);
        let rest0 = w.subrange(k, w.len() as int);
        valid_utf8_split(w, k);
        let rest = trim_front(rest0);
        lemma_trim_front_valid(rest0);
        lemma_trim_front_shrinks(rest0);
        if k == 0 {
            assert(rest0[0] == w[0]);
        }
        lemma_chunks_rest_fit_utf8(rest, m);
        let first = keep_long(trim_back(head));
        let later = chunks_rest(rest, m);
        assert(chunks_rest(w, m) == first + later);
        assert forall|j: int| 0 <= j < (first + later).len() implies #[trigger] (first + later)[j].len()
            <= m + 3 by {
            if j < first.len() {
                assert((first + later)[j] == first[j]);
            } else {
                assert((first + later)[j] == later[j - first.len()]);
            }
        }
    }
}

/// For any text and a limit of at least one byte, every chunk that
/// `split_text` returns is at most `max_len + 3` bytes long: only a hard cut
/// inside a multi-byte character goes past the limit, to that character's end.
pub proof fn lemma_utf8_chunks_near_fit(b: Seq<u8>, max_len: nat)
    requires
        max_len >= 1,
        valid_utf8(b),
    ensures
        forall|j: int| 0 <= j < chunks_of(b, max_len).len() ==> #[trigger] chunks_of(b, max_len)[j].len() <= max_len + 3,
{
    if b.len() > max_len {
        lemma_chunks_rest_fit_utf8(b, max_len);
    }
}

/// The pieces a sentence is sent as: the sentence whole when it fits in
/// `max_len` bytes, else its chunks as `split_text` makes them.
pub fn split_sentence(sentence: &str, max_len: usize) -> (r: Vec<String>)
    ensures
        pieces_bytes(r@) == sentence_chunks(sentence.spec_bytes(), max_len as nat),
{
    if sentence.as_bytes().len() <= max_len {
        let mut r: Vec<String> = Vec::new();
        r.push(sentence.to_owned());
        assert(pieces_bytes(r@) =~= seq![sentence.spec_bytes()]);
        r
    } else {
        split_text(sentence, max_len)
    }
}

// ---------------------------------------------------------------------------
// Words
// ---------------------------------------------------------------------------

/// Length of the run of bytes that starts `b` before its first whitespace
/// character.
pub open spec fn word_len(b: Seq<u8>) -> nat
    decreases b.len(),
{
    if b.len() == 0 || ws_len(b) > 0 {
        0
    } else {
        1 + word_len(b.drop_first())
    }
}

proof fn lemma_word_len_bounds(b: Seq<u8>)
    ensures
        word_len(b) <= b.len(),
        b.len() > 0 && ws_len(b) == 0 ==> word_len(b) >= 1,
        forall|j: int|
            0 <= j < word_len(b) ==> ws_len(#[trigger] b.subrange(j, b.len() as int)) == 0,
    decreases b.len(),
{
    if b.len() > 0 && ws_len(b) == 0 {
        lemma_word_len_bounds(b.drop_first());
        assert forall|j: int| 0 <= j < word_len(b) implies ws_len(
            #[trigger] b.subrange(j, b.len() as int),
        ) == 0 by {
            if j == 0 {
                assert(b.subrange(0, b.len() as int) =~= b);
            } else {
                assert(b.drop_first().subrange(j - 1, b.drop_first().len() as int) =~= b.subrange(
                    j,
                    b.len() as int,
                ));
            }
        }
    }
}

/// The words of `b`: its maximal runs of bytes without whitespace characters,
/// in order.
pub open spec fn words(b: Seq<u8>) -> Seq<Seq<u8>>
    decreases b.len(),
    via words_decreases
{
    if b.len() == 0 {
        seq![]
    } else if ws_len(b) > 0 {
        words(b.subrange(ws_len(b) as int, b.len() as int))
    } else {
        seq![b.subrange(0, word_len(b) as int)] + words(b.subrange(word_len(b) as int, b.len() as int))
    }
}

#[via_fn]
proof fn words_decreases(b: Seq<u8>) {
    lemma_word_len_bounds(b);
}

/// Pieces joined with single spaces.
pub open spec fn joined(v: Seq<Seq<u8>>) -> Seq<u8>
    decreases v.len(),
{
    if v.len() == 0 {
        seq![]
    } else if v.len() == 1 {
        v[0]
    } else {
        v[0] + seq![0x20u8] + joined(v.drop_first())
    }
}

/// No encoded whitespace character can run across the seam between `x` and
/// `y`: those characters continue only with continuation bytes.
pub open spec fn no_straddle(x: Seq<u8>, y: Seq<u8>) -> bool {
    x.len() == 0 || y.len() == 0 || !is_continuation_byte(y[0]) || x.last() < 0x80
}

/// No word runs across the seam between `x` and `y`.
pub open spec fn seam_is_space(x: Seq<u8>, y: Seq<u8>) -> bool {
    x.len() == 0 || y.len() == 0 || ws_len(y) > 0 || is_trim_byte(x.last())
}

/// Whether a whitespace character starts at `j` does not depend on what
/// follows `x`, when nothing can straddle the seam.
proof fn lemma_ws_len_extend(x: Seq<u8>, y: Seq<u8>, j: int)
    requires
        0 <= j < x.len(),
        no_straddle(x, y),
    ensures
        ws_len((x + y).subrange(j, (x + y).len() as int)) == ws_len(x.subrange(j, x.len() as int)),
{
    let s = (x + y).subrange(j, (x + y).len() as int);
    let t = x.subrange(j, x.len() as int);
    assert(s[0] == t[0]);
    if t.len() >= 2 {
        assert(s[1] == t[1]);
    } else if s.len() >= 2 {
        assert(s[1] == y[0]);
    }
    if t.len() >= 3 {
        assert(s[2] == t[2]);
    } else if t.len() == 2 && s.len() >= 3 {
        assert(s[2] == y[0]);
    } else if t.len() == 1 && s.len() >= 3 {
        assert(s[1] == y[0]);
    }
}

proof fn lemma_word_len_concat(x: Seq<u8>, y: Seq<u8>)
    requires
        no_straddle(x, y),
    ensures
        word_len(x + y) == (if word_len(x) < x.len() {
            word_len(x) as int
        } else {
            (x.len() + word_len(y)) as int
        }),
    decreases x.len(),
{
    if x.len() == 0 {
        assert(x + y =~= y);
    } else {
        lemma_ws_len_extend(x, y, 0);
        assert((x + y).subrange(0, (x + y).len() as int) =~= x + y);
        assert(x.subrange(0, x.len() as int) =~= x);
        if ws_len(x) == 0 {
            assert((x + y).drop_first() =~= x.drop_first() + y);
            if x.drop_first().len() > 0 {
                assert(x.drop_first().last() == x.last());
            }
            lemma_word_len_concat(x.drop_first(), y);
        }
    }
}

/// Words of a concatenation whose seam is whitespace.
proof fn lemma_words_concat(x: Seq<u8>, y: Seq<u8>)
    requires
        seam_is_space(x, y),
    ensures
        words(x + y) == words(x) + words(y),
    decreases x.len(),
{
    if x.len() == 0 {
        assert(x + y =~= y);
        assert(words(x) =~= seq![]);
        assert(words(x) + words(y) =~= words(y));
    } else if y.len() == 0 {
        assert(x + y =~= x);
        assert(words(y) =~= seq![]);
        assert(words(x) + words(y) =~= words(x));
    } else {
        assert(no_straddle(x, y));
        lemma_ws_len_extend(x, y, 0);
        assert((x + y).subrange(0, (x + y).len() as int) =~= x + y);
        assert(x.subrange(0, x.len() as int) =~= x);
        let n = ws_len(x) as int;
        if n > 0 {
            let x1 = x.subrange(n, x.len() as int);
            assert((x + y).subrange(n, (x + y).len() as int) =~= x1 + y);
            if x1.len() > 0 {
                assert(x1.last() == x.last());
            }
            lemma_words_concat(x1, y);
        } else {
            lemma_word_len_bounds(x);
            lemma_word_len_concat(x, y);
            let k = word_len(x) as int;
            if k == x.len() {
                // The last byte of `x` is no whitespace, so `y` starts with it.
                if is_trim_byte(x.last()) {
                    assert(x.subrange(k - 1, x.len() as int) =~= seq![x.last()]);
                    assert(ws_len(x.subrange(k - 1, x.len() as int)) == 1);
                }
                assert(ws_len(y) > 0);
                assert(word_len(y) == 0);
            }
            assert(word_len(x + y) == k);
            let xr = x.subrange(k, x.len() as int);
            assert((x + y).subrange(0, k) =~= x.subrange(0, k));
            assert((x + y).subrange(k, (x + y).len() as int) =~= xr + y);
            if xr.len() > 0 {
                assert(xr.last() == x.last());
            }
            lemma_words_concat(xr, y);
            assert(words(x + y) =~= words(x) + words(y));
        }
    }
}

/// A single whitespace character contributes no words.
proof fn lemma_words_of_space(w: Seq<u8>)
    requires
        w.len() > 0,
        ws_len(w) == w.len(),
    ensures
        words(w) == Seq::<Seq<u8>>::empty(),
{
    assert(w.subrange(w.len() as int, w.len() as int) =~= Seq::<u8>::empty());
    assert(words(Seq::<u8>::empty()) =~= Seq::<Seq<u8>>::empty());
}

proof fn lemma_words_trim_front(s: Seq<u8>)
    ensures
        words(trim_front(s)) == words(s),
    decreases s.len(),
{
    if ws_len(s) > 0 {
        lemma_words_trim_front(s.subrange(ws_len(s) as int, s.len() as int));
    }
}

proof fn lemma_words_trim_back(s: Seq<u8>)
    ensures
        words(trim_back(s)) == words(s),
    decreases s.len(),
{
    let k = ws_back_len(s) as int;
    if k > 0 {
        let d = s.subrange(0, s.len() - k);
        let w = s.subrange(s.len() - k, s.len() as int);
        lemma_words_trim_back(d);
        assert(s =~= d + w);
        lemma_words_of_space(w);
        lemma_words_concat(d, w);
        assert(words(s) =~= words(d));
    }
}

/// Trimming keeps the words.
proof fn lemma_words_trimmed(s: Seq<u8>)
    ensures
        words(trimmed(s)) == words(s),
{
    lemma_words_trim_front(s);
    lemma_words_trim_back(trim_front(s));
}

/// Words of pieces joined with spaces, one piece split off.
proof fn lemma_words_joined_cons(p: Seq<u8>, rest: Seq<Seq<u8>>)
    ensures
        words(joined(keep_nonempty(p) + rest)) == words(p) + words(joined(rest)),
{
    if p.len() == 0 {
        assert(keep_nonempty(p) + rest =~= rest);
        assert(words(p) =~= seq![]);
        assert(words(p) + words(joined(rest)) =~= words(joined(rest)));
    } else {
        let v = keep_nonempty(p) + rest;
        assert(v[0] == p);
        if rest.len() == 0 {
            assert(v.len() == 1);
            assert(words(joined(rest)) =~= seq![]);
            assert(words(p) + words(joined(rest)) =~= words(p));
        } else {
            let sp = seq![0x20u8];
            assert(v.drop_first() =~= rest);
            assert(joined(v) == p + sp + joined(rest));
            assert(ws_len(sp) == 1);
            lemma_words_concat(p, sp);
            lemma_words_of_space(sp);
            assert((p + sp).last() == 0x20u8);
            lemma_words_concat(p + sp, joined(rest));
            assert(words(p) + words(sp) =~= words(p));
        }
    }
}

/// Splitting off a prefix that ends at whitespace keeps the words.
proof fn lemma_words_split_at_space(b: Seq<u8>, lo: int, mid: int)
    requires
        0 <= lo <= mid < b.len(),
        is_trim_byte(b[mid]),
    ensures
        words(b.subrange(lo, b.len() as int)) == words(b.subrange(lo, mid)) + words(
            b.subrange(mid + 1, b.len() as int),
        ),
{
    let x = b.subrange(lo, mid);
    let y = b.subrange(mid, b.len() as int);
    assert(b.subrange(lo, b.len() as int) =~= x + y);
    assert(y[0] == b[mid]);
    assert(ws_len(y) == 1);
    lemma_words_concat(x, y);
    assert(y.subrange(1, y.len() as int) =~= b.subrange(mid + 1, b.len() as int));
}

proof fn lemma_sentences_words(b: Seq<u8>, start: int, i: int, mode: SegMode)
    requires
        0 <= i <= b.len(),
        mode == SegMode::Scan ==> 0 <= start <= i,
    ensures
        words(joined(sentences_from(b, start, i, mode))) == (match mode {
            SegMode::Scan => words(b.subrange(start, b.len() as int)),
            _ => words(b.subrange(i, b.len() as int)),
        }),
    decreases b.len() - i, seg_rank(mode),
{
    match mode {
        SegMode::SkipNewlines => {
            if i < b.len() && b[i] == 0x0a {
                lemma_sentences_words(b, start, i + 1, SegMode::SkipNewlines);
                let y = b.subrange(i, b.len() as int);
                assert(y[0] == b[i]);
                assert(ws_len(y) == 1);
                assert(y.subrange(1, y.len() as int) =~= b.subrange(i + 1, b.len() as int));
            } else {
                lemma_sentences_words(b, i, i, SegMode::Scan);
            }
        },
        SegMode::SkipSpaces => {
            if i < b.len() && is_space_byte(b[i]) && b[i] != 0x0a {
                lemma_sentences_words(b, start, i + 1, SegMode::SkipSpaces);
                let y = b.subrange(i, b.len() as int);
                assert(y[0] == b[i]);
                assert(ws_len(y) == 1);
                assert(y.subrange(1, y.len() as int) =~= b.subrange(i + 1, b.len() as int));
            } else {
                lemma_sentences_words(b, i, i, SegMode::Scan);
            }
        },
        SegMode::Scan => {
            if i == b.len() {
                if start < b.len() {
                    let p = trimmed(b.subrange(start, b.len() as int));
                    lemma_words_joined_cons(p, seq![]);
                    assert(keep_nonempty(p) + Seq::<Seq<u8>>::empty() =~= keep_nonempty(p));
                    assert(words(joined(Seq::<Seq<u8>>::empty())) =~= seq![]);
                    lemma_words_trimmed(b.subrange(start, b.len() as int));
                    assert(words(p) + Seq::<Seq<u8>>::empty() =~= words(p));
                } else {
                    assert(b.subrange(start, b.len() as int) =~= Seq::<u8>::empty());
                    assert(words(Seq::<u8>::empty()) =~= seq![]);
                    assert(joined(Seq::<Seq<u8>>::empty()) =~= Seq::<u8>::empty());
                }
            } else if para_break_at(b, i) {
                let p = trimmed(b.subrange(start, i));
                lemma_sentences_words(b, start, i + 1, SegMode::SkipNewlines);
                lemma_words_joined_cons(p, sentences_from(b, start, i + 1, SegMode::SkipNewlines));
                lemma_words_trimmed(b.subrange(start, i));
                lemma_words_split_at_space(b, start, i);
            } else if sentence_end_at(b, i) {
                let p = trimmed(b.subrange(start, i + 1));
                lemma_sentences_words(b, start, i + 1, SegMode::SkipSpaces);
                lemma_words_joined_cons(p, sentences_from(b, start, i + 1, SegMode::SkipSpaces));
                lemma_words_trimmed(b.subrange(start, i + 1));
                let x = b.subrange(start, i + 1);
                let y = b.subrange(i + 1, b.len() as int);
                assert(b.subrange(start, b.len() as int) =~= x + y);
                assert(y[0] == b[i + 1]);
                lemma_words_concat(x, y);
            } else {
                lemma_sentences_words(b, start, i + 1, SegMode::Scan);
            }
        },
    }
}

/// The sentences of a text, joined with single spaces, hold the same words
/// as the text, in the same order (so the same multiset of words).
pub proof fn lemma_sentences_keep_words(b: Seq<u8>)
    ensures
        words(joined(sentences_of(b))) == words(b),
{
    lemma_sentences_words(b, 0, 0, SegMode::Scan);
    assert(b.subrange(0, b.len() as int) =~= b);
}

} // verus!
