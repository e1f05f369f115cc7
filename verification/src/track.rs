//! Loading a subtitle track: decoding the document bytes, extracting the
//! timed entries' end timestamps through the container-format parser, and
//! computing the track's total duration.

use vstd::prelude::*;
use vstd::string::StrSliceExecFns;

verus! {

/// What `String::from_utf8_lossy` decodes the given bytes to.
pub uninterp spec fn lossy_decoded(bytes: Seq<u8>) -> Seq<char>;

/// Relies on std's `String::from_utf8_lossy`: the decoded text is a
/// function of the bytes alone.
#[verifier::external_body]
pub(crate) fn decode_lossy(bytes: &Vec<u8>) -> (r: String)
    ensures
        r@ == lossy_decoded(bytes@),
{
    String::from_utf8_lossy(bytes).into_owned()
}


/// An ASCII decimal digit.
pub open spec fn is_ascii_digit(c: char) -> bool {
    48 <= c as u32 && c as u32 <= 57
}

/// A character that the parser's line trimming treats as whitespace
/// (Unicode's White_Space set).
pub open spec fn is_trim_space(c: char) -> bool {
    let u = c as u32;
    u == 9 || u == 10 || u == 11 || u == 12 || u == 13 || u == 32 || u == 0x85 || u == 0xA0
        || u == 0x1680 || (0x2000 <= u && u <= 0x200A) || u == 0x2028 || u == 0x2029 || u == 0x202F
        || u == 0x205F || u == 0x3000
}

/// A space or tab, the only whitespace the parser's dialogue-line
/// grammar itself consumes before the line's marker.
pub open spec fn is_space_tab(c: char) -> bool {
    c == ' ' || c == '\t'
}

/// Thirteen consecutive ASCII digits start at position `i`. Every number
/// the parser reads has at most twelve digits then, which keeps its
/// 64-bit time arithmetic (components scaled by 3 600 000 at most, and a
/// final factor of ten) far from overflow, and its integer conversion
/// from failing.
pub open spec fn digit_run_at(text: Seq<char>, i: int) -> bool {
    forall|k: int| i <= k < i + 13 ==> is_ascii_digit(#[trigger] text[k])
}

/// The seven characters of a format-line marker stand at position `i`.
pub open spec fn format_marker_at(text: Seq<char>, i: int) -> bool {
    text[i] == 'F' && text[i + 1] == 'o' && text[i + 2] == 'r' && text[i + 3] == 'm' && text[i + 4]
        == 'a' && text[i + 5] == 't' && text[i + 6] == ':'
}

/// The nine characters of a dialogue-line marker stand at position `i`.
pub open spec fn dialogue_marker_at(text: Seq<char>, i: int) -> bool {
    text[i] == 'D' && text[i + 1] == 'i' && text[i + 2] == 'a' && text[i + 3] == 'l' && text[i + 4]
        == 'o' && text[i + 5] == 'g' && text[i + 6] == 'u' && text[i + 7] == 'e' && text[i + 8]
        == ':'
}

/// Position `i` starts a line as the parser's format-line scan splits
/// lines: at the start of the text, after a newline, or after a leading
/// byte-order mark (which the parser strips before scanning).
pub open spec fn nl_line_start(text: Seq<char>, i: int) -> bool {
    i == 0 || text[i - 1] == '\n' || (i == 1 && text[0] == '\u{feff}')
}

/// Position `i` starts a line as the parser's dialogue-line scan splits
/// lines: it also accepts a bare carriage return as a line ending.
pub open spec fn brk_line_start(text: Seq<char>, i: int) -> bool {
    i == 0 || text[i - 1] == '\n' || text[i - 1] == '\r' || (i == 1 && text[0] == '\u{feff}')
}

/// The position of the first newline at or after `i`, or the text's end.
pub open spec fn nl_end(text: Seq<char>, i: int) -> int
    decreases text.len() - i,
{
    if i < 0 || i >= text.len() {
        text.len() as int
    } else if text[i] == '\n' {
        i
    } else {
        nl_end(text, i + 1)
    }
}

/// The position of the first newline or carriage return at or after `i`,
/// or the text's end.
pub open spec fn brk_end(text: Seq<char>, i: int) -> int
    decreases text.len() - i,
{
    if i < 0 || i >= text.len() {
        text.len() as int
    } else if text[i] == '\n' || text[i] == '\r' {
        i
    } else {
        brk_end(text, i + 1)
    }
}

/// The number of commas in `text[from..upto]`.
pub open spec fn comma_count(text: Seq<char>, from: int, upto: int) -> int
    decreases upto - from,
{
    if from < 0 || from >= upto {
        0int
    } else {
        (if text[from] == ',' {
            1int
        } else {
            0int
        }) + comma_count(text, from + 1, upto)
    }
}

proof fn lemma_comma_count_snoc(text: Seq<char>, from: int, upto: int)
    requires
        0 <= from <= upto,
    ensures
        comma_count(text, from, upto + 1) == comma_count(text, from, upto) + (if text[upto] == ',' {
            1int
        } else {
            0int
        }),
    decreases upto - from,
{
    if from < upto {
        lemma_comma_count_snoc(text, from + 1, upto);
    } else {
        assert(comma_count(text, upto + 1, upto + 1) == 0);
        assert(comma_count(text, from, upto) == 0);
    }
}

/// A format-line marker that stands after nothing but whitespace at the
/// head of its line: the parser matches format lines on the trimmed text
/// but asserts the marker prefix on the untrimmed line, so such a line
/// panics it.
pub open spec fn ws_led_format_at(text: Seq<char>, i: int, j: int) -> bool {
    &&& 0 <= i < j
    &&& j + 7 <= text.len()
    &&& nl_line_start(text, i)
    &&& format_marker_at(text, j)
    &&& forall|k: int| i <= k < j ==> is_trim_space(#[trigger] text[k]) && text[k] != '\n'
}

/// A format-line marker at the head of its line: the line the parser
/// would read its field list from.
pub open spec fn format_head_at(text: Seq<char>, f: int) -> bool {
    0 <= f && f + 7 <= text.len() && nl_line_start(text, f) && format_marker_at(text, f)
}

/// A dialogue-line marker at position `p`, preceded on its line only by
/// the spaces and tabs the parser's grammar consumes.
pub open spec fn dialogue_head_at(text: Seq<char>, i: int, p: int) -> bool {
    &&& 0 <= i <= p
    &&& p + 9 <= text.len()
    &&& brk_line_start(text, i)
    &&& dialogue_marker_at(text, p)
    &&& forall|k: int| i <= k < p ==> is_space_tab(#[trigger] text[k])
}

/// The commas of a format line's field list.
pub open spec fn fmt_commas(text: Seq<char>, f: int) -> int {
    comma_count(text, f + 7, nl_end(text, f + 7))
}

/// The commas of a dialogue line after its marker.
pub open spec fn dia_commas(text: Seq<char>, p: int) -> int {
    comma_count(text, p + 9, brk_end(text, p + 9))
}

/// The document avoids what the container-format parser's own code can
/// panic on, and nothing else:
/// - no run of thirteen or more ASCII digits, so every number the parser
///   reads stays far below what overflows its 64-bit time arithmetic or
///   its integer conversion;
/// - no format-line marker led by whitespace at the head of its line,
///   which trips the parser's assertion that a matched format line
///   starts with the marker;
/// - every dialogue line holds at least as many commas as any format
///   line declares fields, so the parser's entry pairing finds the start
///   and end timestamps it unwraps (its field grammar stops early at a
///   line that ends on a field boundary).
pub open spec fn parser_input_ok(text: Seq<char>) -> bool {
    &&& forall|i: int| 0 <= i && i + 13 <= text.len() ==> !digit_run_at(text, i)
    &&& forall|i: int, j: int| !ws_led_format_at(text, i, j)
    &&& forall|i: int, p: int, f: int|
        #[trigger] dialogue_head_at(text, i, p) && #[trigger] format_head_at(text, f)
            ==> fmt_commas(text, f) <= dia_commas(text, p)
}

fn is_digit_char(c: char) -> (r: bool)
    ensures
        r == is_ascii_digit(c),
{
    let u = c as u32;
    48 <= u && u <= 57
}

fn is_space_char(c: char) -> (r: bool)
    ensures
        r == is_trim_space(c),
{
    let u = c as u32;
    u == 9 || u == 10 || u == 11 || u == 12 || u == 13 || u == 32 || u == 0x85 || u == 0xA0
        || u == 0x1680 || (0x2000 <= u && u <= 0x200A) || u == 0x2028 || u == 0x2029 || u == 0x202F
        || u == 0x205F || u == 0x3000
}

fn digit_run_here(text: &str, i: usize) -> (r: bool)
    requires
        i + 13 <= text@.len(),
    ensures
        r == digit_run_at(text@, i as int),
{
    let n = text.unicode_len();
    proof {
        assert(i + 13 <= n);
    }
    let mut k: usize = 0;
    while k < 13
        invariant
            n == text@.len(),
            i + 13 <= n,
            k <= 13,
            forall|kk: int| i <= kk < i + k ==> is_ascii_digit(#[trigger] text@[kk]),
        decreases 13 - k,
    {
        let c = text.get_char(i + k);
        if !is_digit_char(c) {
            proof {
                let kk = i as int + k as int;
                assert(i as int <= kk < i as int + 13 && !is_ascii_digit(text@[kk]));
            }
            return false;
        }
        k += 1;
    }
    true
}

fn format_marker_here(text: &str, i: usize) -> (r: bool)
    requires
        i + 7 <= text@.len(),
    ensures
        r == format_marker_at(text@, i as int),
{
    let n = text.unicode_len();
    proof {
        assert(i + 7 <= n);
    }
    text.get_char(i) == 'F' && text.get_char(i + 1) == 'o' && text.get_char(i + 2) == 'r'
        && text.get_char(i + 3) == 'm' && text.get_char(i + 4) == 'a' && text.get_char(i + 5)
        == 't' && text.get_char(i + 6) == ':'
}

fn dialogue_marker_here(text: &str, i: usize) -> (r: bool)
    requires
        i + 9 <= text@.len(),
    ensures
        r == dialogue_marker_at(text@, i as int),
{
    let n = text.unicode_len();
    proof {
        assert(i + 9 <= n);
    }
    text.get_char(i) == 'D' && text.get_char(i + 1) == 'i' && text.get_char(i + 2) == 'a'
        && text.get_char(i + 3) == 'l' && text.get_char(i + 4) == 'o' && text.get_char(i + 5)
        == 'g' && text.get_char(i + 6) == 'u' && text.get_char(i + 7) == 'e' && text.get_char(
        i + 8,
    ) == ':'
}

fn at_nl_line_start(text: &str, i: usize) -> (r: bool)
    requires
        i <= text@.len(),
    ensures
        r == nl_line_start(text@, i as int),
{
    if i == 0 {
        return true;
    }
    let prev = text.get_char(i - 1);
    if prev == '\n' {
        return true;
    }
    i == 1 && text.get_char(0) == '\u{feff}'
}

fn at_brk_line_start(text: &str, i: usize) -> (r: bool)
    requires
        i <= text@.len(),
    ensures
        r == brk_line_start(text@, i as int),
{
    if i == 0 {
        return true;
    }
    let prev = text.get_char(i - 1);
    if prev == '\n' || prev == '\r' {
        return true;
    }
    i == 1 && text.get_char(0) == '\u{feff}'
}

/// The start of the maximal span of line-internal whitespace ending
/// just before `j`.
fn ws_span_start(text: &str, j: usize) -> (k: usize)
    requires
        j <= text@.len(),
    ensures
        k <= j,
        forall|kk: int| k <= kk < j ==> is_trim_space(#[trigger] text@[kk]) && text@[kk] != '\n',
        k > 0 ==> !(is_trim_space(text@[k - 1]) && text@[k - 1] != '\n'),
{
    let mut k: usize = j;
    while k > 0
        invariant
            k <= j,
            j <= text@.len(),
            forall|kk: int| k <= kk < j ==> is_trim_space(#[trigger] text@[kk]) && text@[kk] != '\n',
        decreases k,
    {
        let c = text.get_char(k - 1);
        if is_space_char(c) && c != '\n' {
            k -= 1;
        } else {
            return k;
        }
    }
    k
}

/// The end of the maximal span of spaces and tabs starting at `i`.
fn tab_span_end(text: &str, i: usize) -> (p: usize)
    requires
        i <= text@.len(),
    ensures
        i <= p <= text@.len(),
        forall|k: int| i <= k < p ==> is_space_tab(#[trigger] text@[k]),
        p < text@.len() ==> !is_space_tab(text@[p as int]),
{
    let n = text.unicode_len();
    let mut p: usize = i;
    while p < n
        invariant
            n == text@.len(),
            i <= p <= n,
            forall|k: int| i <= k < p ==> is_space_tab(#[trigger] text@[k]),
        decreases n - p,
    {
        let c = text.get_char(p);
        if c == ' ' || c == '\t' {
            p += 1;
        } else {
            return p;
        }
    }
    p
}

/// Count the commas from `from` to the first newline (or the text's end).
fn commas_to_nl(text: &str, from: usize) -> (c: usize)
    requires
        from <= text@.len(),
    ensures
        c as int == comma_count(text@, from as int, nl_end(text@, from as int)),
{
    let n = text.unicode_len();
    let mut pos: usize = from;
    let mut cnt: usize = 0;
    while pos < n
        invariant
            n == text@.len(),
            from <= pos <= n,
            cnt <= pos - from,
            cnt as int == comma_count(text@, from as int, pos as int),
            nl_end(text@, from as int) == nl_end(text@, pos as int),
        decreases n - pos,
    {
        let c = text.get_char(pos);
        if c == '\n' {
            proof {
                assert(nl_end(text@, pos as int) == pos);
            }
            return cnt;
        }
        proof {
            lemma_comma_count_snoc(text@, from as int, pos as int);
            assert(nl_end(text@, pos as int) == nl_end(text@, pos as int + 1));
        }
        if c == ',' {
            cnt += 1;
        }
        pos += 1;
    }
    proof {
        assert(nl_end(text@, pos as int) == pos);
    }
    cnt
}

/// Count the commas from `from` to the first newline or carriage return
/// (or the text's end).
fn commas_to_brk(text: &str, from: usize) -> (c: usize)
    requires
        from <= text@.len(),
    ensures
        c as int == comma_count(text@, from as int, brk_end(text@, from as int)),
{
    let n = text.unicode_len();
    let mut pos: usize = from;
    let mut cnt: usize = 0;
    while pos < n
        invariant
            n == text@.len(),
            from <= pos <= n,
            cnt <= pos - from,
            cnt as int == comma_count(text@, from as int, pos as int),
            brk_end(text@, from as int) == brk_end(text@, pos as int),
        decreases n - pos,
    {
        let c = text.get_char(pos);
        if c == '\n' || c == '\r' {
            proof {
                assert(brk_end(text@, pos as int) == pos);
            }
            return cnt;
        }
        proof {
            lemma_comma_count_snoc(text@, from as int, pos as int);
            assert(brk_end(text@, pos as int) == brk_end(text@, pos as int + 1));
        }
        if c == ',' {
            cnt += 1;
        }
        pos += 1;
    }
    proof {
        assert(brk_end(text@, pos as int) == pos);
    }
    cnt
}

/// Decide whether a document is safe to hand to the container-format
/// parser (see `parser_input_ok`).
pub fn check_parser_input(text: &str) -> (r: bool)
    ensures
        r == parser_input_ok(text@),
{
    let n = text.unicode_len();
    if n >= 13 {
        let stop = n - 13;
        let mut i: usize = 0;
        while i <= stop
            invariant
                n == text@.len(),
                n >= 13,
                stop == n - 13,
                i <= stop + 1,
                forall|ii: int| 0 <= ii < i ==> !digit_run_at(text@, ii),
            decreases stop + 1 - i,
        {
            if digit_run_here(text, i) {
                proof {
                    assert(digit_run_at(text@, i as int) && i as int + 13 <= text@.len());
                }
                return false;
            }
            i += 1;
        }
    }
    proof {
        assert forall|ii: int| 0 <= ii && ii + 13 <= text@.len() implies !digit_run_at(
            text@,
            ii,
        ) by {}
    }
    if n >= 7 {
        let stop = n - 7;
        let mut j: usize = 0;
        while j <= stop
            invariant
                n == text@.len(),
                n >= 7,
                stop == n - 7,
                j <= stop + 1,
                forall|i2: int, j2: int| j2 < j ==> !ws_led_format_at(text@, i2, j2),
            decreases stop + 1 - j,
        {
            let ghost ji = j as int;
            if format_marker_here(text, j) {
                let k = ws_span_start(text, j);
                if k < j {
                    if at_nl_line_start(text, k) {
                        proof {
                            assert(ws_led_format_at(text@, k as int, ji));
                        }
                        return false;
                    }
                }
                proof {
                    let ki = k as int;
                    assert forall|i2: int| !ws_led_format_at(text@, i2, ji) by {
                        if ws_led_format_at(text@, i2, ji) {
                            if i2 < ki {
                                assert(k > 0);
                                assert(is_trim_space(text@[ki - 1]) && text@[ki - 1] != '\n');
                            } else if i2 > ki {
                                assert(is_trim_space(text@[i2 - 1]) && text@[i2 - 1] != '\n');
                                assert(!nl_line_start(text@, i2));
                            }
                        }
                    }
                }
            } else {
                proof {
                    assert forall|i2: int| !ws_led_format_at(text@, i2, ji) by {}
                }
            }
            j += 1;
        }
    }
    proof {
        assert forall|i2: int, j2: int| !ws_led_format_at(text@, i2, j2) by {
            if ws_led_format_at(text@, i2, j2) {
                assert(j2 + 7 <= text@.len());
            }
        }
    }
    let mut maxc: usize = 0;
    let ghost mut maxf: int = 0;
    let ghost mut has_fmt: bool = false;
    if n >= 7 {
        let stop = n - 7;
        let mut f: usize = 0;
        while f <= stop
            invariant
                n == text@.len(),
                n >= 7,
                stop == n - 7,
                f <= stop + 1,
                forall|f2: int|
                    0 <= f2 < f && #[trigger] format_head_at(text@, f2) ==> fmt_commas(text@, f2)
                        <= maxc as int,
                maxc > 0 ==> has_fmt,
                has_fmt ==> format_head_at(text@, maxf) && fmt_commas(text@, maxf) == maxc as int,
            decreases stop + 1 - f,
        {
            if at_nl_line_start(text, f) {
                if format_marker_here(text, f) {
                    let c = commas_to_nl(text, f + 7);
                    if c > maxc {
                        maxc = c;
                        proof {
                            maxf = f as int;
                            has_fmt = true;
                        }
                    }
                }
            }
            f += 1;
        }
    }
    proof {
        assert forall|f2: int| #[trigger] format_head_at(text@, f2) implies fmt_commas(text@, f2)
            <= maxc as int by {}
    }
    let mut i: usize = 0;
    while i < n
        invariant
            n == text@.len(),
            i <= n,
            forall|ii: int| 0 <= ii && ii + 13 <= text@.len() ==> !digit_run_at(text@, ii),
            forall|i2: int, j2: int| !ws_led_format_at(text@, i2, j2),
            forall|f2: int|
                #[trigger] format_head_at(text@, f2) ==> fmt_commas(text@, f2) <= maxc as int,
            maxc > 0 ==> has_fmt,
            has_fmt ==> format_head_at(text@, maxf) && fmt_commas(text@, maxf) == maxc as int,
            forall|i2: int, p2: int, f2: int|
                i2 < i && #[trigger] dialogue_head_at(text@, i2, p2) && #[trigger] format_head_at(
                    text@,
                    f2,
                ) ==> fmt_commas(text@, f2) <= dia_commas(text@, p2),
        decreases n - i,
    {
        let ghost ii = i as int;
        if at_brk_line_start(text, i) {
            let p = tab_span_end(text, i);
            let ghost pi = p as int;
            if n >= 9 && p <= n - 9 {
                if dialogue_marker_here(text, p) {
                    let c = commas_to_brk(text, p + 9);
                    if c < maxc {
                        proof {
                            assert(has_fmt);
                            assert(dialogue_head_at(text@, ii, pi));
                            assert(fmt_commas(text@, maxf) > dia_commas(text@, pi));
                            assert(!parser_input_ok(text@));
                        }
                        return false;
                    }
                    proof {
                        assert forall|p2: int, f2: int|
                            #[trigger] dialogue_head_at(text@, ii, p2)
                                && #[trigger] format_head_at(text@, f2) implies fmt_commas(
                            text@,
                            f2,
                        ) <= dia_commas(text@, p2) by {
                            if dialogue_head_at(text@, ii, p2) {
                                if p2 < pi {
                                    assert(is_space_tab(text@[p2]));
                                } else if p2 > pi {
                                    assert(is_space_tab(text@[pi]));
                                }
                            }
                        }
                    }
                } else {
                    proof {
                        assert forall|p2: int, f2: int|
                            #[trigger] dialogue_head_at(text@, ii, p2)
                                && #[trigger] format_head_at(text@, f2) implies fmt_commas(
                            text@,
                            f2,
                        ) <= dia_commas(text@, p2) by {
                            if dialogue_head_at(text@, ii, p2) {
                                if p2 < pi {
                                    assert(is_space_tab(text@[p2]));
                                } else if p2 > pi {
                                    assert(is_space_tab(text@[pi]));
                                }
                            }
                        }
                    }
                }
            } else {
                proof {
                    assert forall|p2: int, f2: int|
                        #[trigger] dialogue_head_at(text@, ii, p2) && #[trigger] format_head_at(
                            text@,
                            f2,
                        ) implies fmt_commas(text@, f2) <= dia_commas(text@, p2) by {
                        if dialogue_head_at(text@, ii, p2) {
                            if p2 < pi {
                                assert(is_space_tab(text@[p2]));
                            } else if p2 > pi {
                                assert(is_space_tab(text@[pi]));
                            }
                        }
                    }
                }
            }
        }
        i += 1;
    }
    proof {
        assert forall|i2: int, p2: int, f2: int|
            #[trigger] dialogue_head_at(text@, i2, p2) && #[trigger] format_head_at(
                text@,
                f2,
            ) implies fmt_commas(text@, f2) <= dia_commas(text@, p2) by {
            if dialogue_head_at(text@, i2, p2) {
                assert(i2 < n);
            }
        }
        assert(parser_input_ok(text@));
    }
    true
}


/// The end timestamps, in milliseconds and document order, of the timed
/// entries that the container-format parser extracts from an SSA/ASS
/// document.
pub uninterp spec fn ssa_entry_ends(text: Seq<char>) -> Seq<i64>;

/// Whether the container-format parser accepts the document.
pub uninterp spec fn ssa_parse_ok(text: Seq<char>) -> bool;

#[verifier::external_type_specification]
#[verifier::external_body]
pub struct ExSubparseError(subparse::errors::Error);

/// Relies on subparse's `SsaFile::parse` and `get_subtitle_entries`:
/// success is decided by `parse` alone (entry extraction cannot fail for
/// this format), and both it and the entries' end timestamps in
/// milliseconds are functions of the text alone. The precondition keeps
/// out the documents on which the parser's own code panics (see
/// `parser_input_ok`).
#[verifier::external_body]
pub(crate) fn parse_entry_ends(text: &str) -> (r: Result<Vec<i64>, subparse::errors::Error>)
    requires
        parser_input_ok(text@),
    ensures
        r is Ok <==> ssa_parse_ok(text@),
        r matches Ok(ends) ==> ends@ == ssa_entry_ends(text@),
{
    let parsed: subparse::SubtitleFile = subparse::SsaFile::parse(text)?.into();
    let entries = parsed.get_subtitle_entries()?;
    Ok(entries.iter().map(|ent| ent.timespan.end.msecs()).collect())
}

/// A track could not be loaded from its document text.
#[derive(Debug)]
pub enum SubtitleParseError {
    /// The container-format parser rejected the document.
    Parser(subparse::errors::Error),
    /// The document was refused before parsing: it holds text the
    /// container-format parser is not safe on (see `parser_input_ok`).
    UnsupportedInput,
}

impl SubtitleParseError {
    /// Wrap the parser's error.
    pub fn new(inner: subparse::errors::Error) -> (r: SubtitleParseError)
        ensures
            r is Parser,
    {
        SubtitleParseError::Parser(inner)
    }
}

/// The maximum of the entries' end timestamps, or 0 when there are none.
pub open spec fn max_end_spec(ends: Seq<i64>) -> i64
    decreases ends.len(),
{
    if ends.len() == 0 {
        0i64
    } else if ends.len() == 1 {
        ends[0]
    } else {
        let rest = max_end_spec(ends.drop_last());
        if ends.last() > rest {
            ends.last()
        } else {
            rest
        }
    }
}

/// A track's playable duration: the largest end timestamp among its
/// entries, clamped to 0 — a duration is never negative — and 0 when
/// there are no entries.
pub open spec fn duration_of(ends: Seq<i64>) -> i64 {
    if max_end_spec(ends) < 0 {
        0i64
    } else {
        max_end_spec(ends)
    }
}

/// The largest end timestamp among the entries, or 0 when there are none.
pub fn max_end_ms(ends: &Vec<i64>) -> (r: i64)
    ensures
        r == max_end_spec(ends@),
{
    if ends.len() == 0 {
        return 0;
    }
    let mut m = ends[0];
    let mut j: usize = 1;
    proof {
        assert(ends@.take(1) =~= seq![ends@[0]]);
    }
    while j < ends.len()
        invariant
            1 <= j <= ends@.len(),
            m == max_end_spec(ends@.take(j as int)),
        decreases ends@.len() - j,
    {
        let ghost ji = j as int;
        let e = ends[j];
        if e > m {
            m = e;
        }
        proof {
            assert(ends@.take(ji + 1).drop_last() =~= ends@.take(ji));
            assert(ends@.take(ji + 1).last() == ends@[ji]);
        }
        j += 1;
    }
    proof {
        assert(ends@.take(ends@.len() as int) =~= ends@);
    }
    m
}

} // verus!
