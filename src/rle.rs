//! Run-length-encoded (RLE) patterns.
//!
//! A pattern file is a list of lines: `#` comments, then a header
//! `x = <width>, y = <height>[, ...]`, then data lines of `<count><tag>` tokens
//! where `o` is a run of live cells, `b` a run of dead cells, `$` ends one or
//! more rows and `!` ends the pattern. Decoding centres the pattern on the
//! origin and yields each cell in row-major order; in skip-blank mode only
//! the live cells are yielded.
use vstd::prelude::*;

use crate::grid::GridCoord;

verus! {

/// Why a pattern could not be loaded.
#[derive(Debug, Clone, Copy, PartialEq, Eq, Structural)]
pub enum RleError {
    /// The header line does not read `x = <width>, y = <height>`.
    InvalidHeader,
    /// A run length does not fit in 32 bits.
    InvalidRunLength,
    /// A data line holds a character that is no tag and no digit.
    MalformedData(char),
    /// The first line after the comments is no header.
    MissingHeader,
    /// The input ends before a header.
    UnexpectedEof,
    /// A comment follows the header.
    CommentInData,
    /// A second header follows the first.
    HeaderInData,
    /// The pattern ends before the number of rows its header gives.
    TooFewLines,
    /// The pattern reaches past the 64-bit grid.
    TooLarge,
    /// The data ends without the `!` that closes the pattern.
    PrematureEnd,
}

/// A receiver of decoded cells, such as a grid being seeded.
pub trait Inject {
    fn inject(&mut self, coord: GridCoord, alive: bool) -> Result<(), RleError>;
}

/// One token of a data line.
#[derive(Debug, Clone, Copy, PartialEq, Eq, Structural)]
pub enum RLEToken {
    Dead(u32),
    Alive(u32),
    EOL(u32),
    EOF,
}

/// A parsed line of a pattern file.
#[derive(Debug)]
pub enum RLELine {
    Comment,
    Header(usize, usize),
    Data(Vec<RLEToken>),
}

/// What a parsed line holds.
pub enum LineView {
    Comment,
    Header(usize, usize),
    Data(Seq<RLEToken>),
}

impl View for RLELine {
    type V = LineView;

    open spec fn view(&self) -> LineView {
        match self {
            RLELine::Comment => LineView::Comment,
            RLELine::Header(w, h) => LineView::Header(*w, *h),
            RLELine::Data(v) => LineView::Data(v@),
        }
    }
}

/// `c` has the Unicode property White_Space (Unicode's PropList.txt):
/// U+0009 to U+000D, U+0020, U+0085, U+00A0, U+1680, U+2000 to U+200A,
/// U+2028, U+2029, U+202F, U+205F and U+3000.
pub open spec fn white_space(c: char) -> bool {
    let u = c as u32;
    ||| 0x9 <= u <= 0xD
    ||| u == 0x20
    ||| u == 0x85
    ||| u == 0xA0
    ||| u == 0x1680
    ||| 0x2000 <= u <= 0x200A
    ||| u == 0x2028
    ||| u == 0x2029
    ||| u == 0x202F
    ||| u == 0x205F
    ||| u == 0x3000
}

/// The first position at or after `i` that holds no whitespace.
pub open spec fn first_solid(s: Seq<char>, i: int) -> int
    decreases s.len() - i,
{
    if 0 <= i < s.len() && white_space(s[i]) {
        first_solid(s, i + 1)
    } else {
        i
    }
}

/// The end of `s[lo..j]` once its trailing whitespace is dropped.
pub open spec fn solid_end(s: Seq<char>, lo: int, j: int) -> int
    decreases j - lo,
{
    if lo < j && white_space(s[j - 1]) {
        solid_end(s, lo, j - 1)
    } else {
        j
    }
}

/// The text of `s` without its leading and trailing whitespace.
pub open spec fn trimmed(s: Seq<char>) -> Seq<char> {
    let i = first_solid(s, 0);
    s.subrange(i, solid_end(s, i, s.len() as int))
}

/// Relies on `str::trim`: the slice of `s` without leading and trailing
/// characters that have the Unicode property White_Space.
#[verifier::external_body]
fn trim(s: &str) -> (r: &str)
    ensures
        r@ == trimmed(s@),
{
    s.trim()
}

/// `c` is an ASCII decimal digit.
pub open spec fn is_digit(c: char) -> bool {
    '0' <= c <= '9'
}

/// The value of the decimal digit `c`.
pub open spec fn digit_value(c: char) -> nat {
    (c as nat - '0' as nat) as nat
}

/// The data-line scanner after the first `n` characters of `t`: the tokens so
/// far and the pending run length.
pub open spec fn data_scan(t: Seq<char>, n: int) -> Result<(Seq<RLEToken>, nat), RleError>
    decreases n,
{
    if n <= 0 {
        Ok((Seq::empty(), 0))
    } else {
        match data_scan(t, n - 1) {
            Err(e) => Err(e),
            Ok((toks, count)) => {
                let c = t[n - 1];
                let run = if count == 0 {
                    1
                } else {
                    count
                };
                if c == 'o' {
                    Ok((toks.push(RLEToken::Alive(run as u32)), 0))
                } else if c == 'b' {
                    Ok((toks.push(RLEToken::Dead(run as u32)), 0))
                } else if c == '$' {
                    Ok((toks.push(RLEToken::EOL(run as u32)), 0))
                } else if c == '!' {
                    Ok((toks.push(RLEToken::EOF), count))
                } else if is_digit(c) {
                    if count * 10 + digit_value(c) <= u32::MAX {
                        Ok((toks, count * 10 + digit_value(c)))
                    } else {
                        Err(RleError::InvalidRunLength)
                    }
                } else {
                    Err(RleError::MalformedData(c))
                }
            },
        }
    }
}

/// The tokens of the data line `t`. A count before `!` carries over to the
/// next token; decoding stops at the first `!`, so it matters only there.
pub open spec fn data_tokens(t: Seq<char>) -> Result<Seq<RLEToken>, RleError> {
    match data_scan(t, t.len() as int) {
        Ok((toks, _)) => Ok(toks),
        Err(e) => Err(e),
    }
}

/// Once the data scanner fails, it stays failed with the same error.
pub proof fn lemma_data_scan_error_sticks(t: Seq<char>, n: int, m: int)
    requires
        0 <= n <= m,
        data_scan(t, n) is Err,
    ensures
        data_scan(t, m) == data_scan(t, n),
    decreases m - n,
{
    if m > n {
        lemma_data_scan_error_sticks(t, n, m - 1);
    }
}

/// Reads a data line into its tokens.
pub fn parse_data(line: &str) -> (r: Result<RLELine, RleError>)
    ensures
        match r {
            Ok(l) => data_tokens(line@) == Ok::<Seq<RLEToken>, RleError>(l@->Data_0) && l is Data,
            Err(e) => data_tokens(line@) == Err::<Seq<RLEToken>, RleError>(e),
        },
{
    let mut tokens: Vec<RLEToken> = Vec::new();
    let mut count: u32 = 0;
    for c in it: line.chars()
        invariant
            it.seq() == line@,
            data_scan(line@, it.index() as int) == Ok::<(Seq<RLEToken>, nat), RleError>(
                (tokens@, count as nat),
            ),
    {
        let ghost i = it.index() as int;
        assert(c == line@[i]);
        let run = if count == 0 {
            1
        } else {
            count
        };
        if c == 'o' {
            tokens.push(RLEToken::Alive(run));
            count = 0;
        } else if c == 'b' {
            tokens.push(RLEToken::Dead(run));
            count = 0;
        } else if c == '$' {
            tokens.push(RLEToken::EOL(run));
            count = 0;
        } else if c == '!' {
            tokens.push(RLEToken::EOF);
        } else if '0' <= c && c <= '9' {
            let d = (c as u32) - ('0' as u32);
            if count > 429496729 || (count == 429496729 && d > 5) {
                proof {
                    lemma_data_scan_error_sticks(line@, i + 1, line@.len() as int);
                }
                return Err(RleError::InvalidRunLength);
            }
            count = count * 10 + d;
        } else {
            proof {
                lemma_data_scan_error_sticks(line@, i + 1, line@.len() as int);
            }
            return Err(RleError::MalformedData(c));
        }
    }
    Ok(RLELine::Data(tokens))
}

/// The first position at or after `i` that holds no space.
pub open spec fn skip_spaces(t: Seq<char>, i: int) -> int
    decreases t.len() - i,
{
    if 0 <= i < t.len() && t[i] == ' ' {
        skip_spaces(t, i + 1)
    } else {
        i
    }
}

/// The first position at or after `i` that holds no decimal digit.
pub open spec fn digits_end(t: Seq<char>, i: int) -> int
    decreases t.len() - i,
{
    if 0 <= i < t.len() && is_digit(t[i]) {
        digits_end(t, i + 1)
    } else {
        i
    }
}

/// The decimal number written in `t[i..j]`.
pub open spec fn digits_value(t: Seq<char>, i: int, j: int) -> nat
    decreases j - i,
{
    if j <= i {
        0
    } else {
        digits_value(t, i, j - 1) * 10 + digit_value(t[j - 1])
    }
}

/// `t[i]` exists and is `c`.
pub open spec fn char_at(t: Seq<char>, i: int, c: char) -> bool {
    0 <= i < t.len() && t[i] == c
}

/// The width and height that the header line `t` gives: `x`, optional
/// spaces, `=`, spaces, digits, `,`, spaces, `y`, spaces, `=`, spaces,
/// digits, then anything but a line break; each number must fit a `usize`.
pub open spec fn header_dims(t: Seq<char>) -> Result<(usize, usize), RleError> {
    let b = skip_spaces(t, 1);
    let c = skip_spaces(t, b + 1);
    let d = digits_end(t, c);
    let e = skip_spaces(t, d + 1);
    let f = skip_spaces(t, e + 1);
    let g = skip_spaces(t, f + 1);
    let h = digits_end(t, g);
    if char_at(t, 0, 'x') && char_at(t, b, '=') && d > c && char_at(t, d, ',') && char_at(t, e, 'y')
        && char_at(t, f, '=') && h > g && (forall|k: int| h <= k < t.len() ==> t[k] != '\n')
        && digits_value(t, c, d) <= usize::MAX && digits_value(t, g, h) <= usize::MAX {
        Ok((digits_value(t, c, d) as usize, digits_value(t, g, h) as usize))
    } else {
        Err(RleError::InvalidHeader)
    }
}

/// The characters of `s`.
fn chars_of(s: &str) -> (r: Vec<char>)
    ensures
        r@ == s@,
{
    let mut r: Vec<char> = Vec::new();
    for c in it: s.chars()
        invariant
            it.seq() == s@,
            r@ == s@.take(it.index() as int),
    {
        r.push(c);
        assert(r@ =~= s@.take(it.index() + 1));
    }
    assert(r@ =~= s@);
    r
}

/// The first position at or after `i` that holds no space.
fn skip_spaces_at(t: &Vec<char>, i: usize) -> (r: usize)
    requires
        i <= t@.len(),
    ensures
        r == skip_spaces(t@, i as int),
        i <= r <= t@.len(),
{
    let mut j = i;
    while j < t.len() && t[j] == ' '
        invariant
            i <= j <= t@.len(),
            skip_spaces(t@, j as int) == skip_spaces(t@, i as int),
        decreases t@.len() - j,
    {
        j += 1;
    }
    j
}

/// The end of the digits starting at `i` and the number they write, if it fits a `usize`.
fn digits_at(t: &Vec<char>, i: usize) -> (r: (usize, Option<usize>))
    requires
        i <= t@.len(),
    ensures
        r.0 == digits_end(t@, i as int),
        i <= r.0 <= t@.len(),
        r.1 == if digits_value(t@, i as int, r.0 as int) <= usize::MAX {
            Some(digits_value(t@, i as int, r.0 as int) as usize)
        } else {
            None::<usize>
        },
{
    let mut j = i;
    let mut value: Option<usize> = Some(0);
    while j < t.len() && '0' <= t[j] && t[j] <= '9'
        invariant
            i <= j <= t@.len(),
            digits_end(t@, j as int) == digits_end(t@, i as int),
            value == if digits_value(t@, i as int, j as int) <= usize::MAX {
                Some(digits_value(t@, i as int, j as int) as usize)
            } else {
                None::<usize>
            },
        decreases t@.len() - j,
    {
        let d = (t[j] as u32 - '0' as u32) as usize;
        proof {
            assert(digits_value(t@, i as int, j + 1) == digits_value(t@, i as int, j as int) * 10 + d);
        }
        value = match value {
            Some(v) => if v <= (usize::MAX - d) / 10 {
                Some(v * 10 + d)
            } else {
                None
            },
            None => None,
        };
        j += 1;
    }
    (j, value)
}

/// Whether no line break follows position `i`.
fn no_line_break_from(t: &Vec<char>, i: usize) -> (r: bool)
    ensures
        r == forall|k: int| i <= k < t@.len() ==> t@[k] != '\n',
{
    let mut k = i;
    while k < t.len()
        invariant
            i <= k,
            forall|j: int| i <= j < k ==> t@[j] != '\n',
        decreases t@.len() - k,
    {
        if t[k] == '\n' {
            assert(t@[k as int] == '\n');
            return false;
        }
        k += 1;
    }
    true
}

/// Reads a header line into the pattern's width and height.
pub fn parse_header(line: &str) -> (r: Result<RLELine, RleError>)
    ensures
        match r {
            Ok(l) => header_dims(line@) matches Ok((w, h)) && l@ == LineView::Header(w, h),
            Err(e) => header_dims(line@) == Err::<(usize, usize), RleError>(e),
        },
{
    let t = chars_of(line);
    let n = t.len();
    if n == 0 || t[0] != 'x' {
        return Err(RleError::InvalidHeader);
    }
    let b = skip_spaces_at(&t, 1);
    if b >= n || t[b] != '=' {
        return Err(RleError::InvalidHeader);
    }
    let c = skip_spaces_at(&t, b + 1);
    let (d, w) = digits_at(&t, c);
    if d == c || d >= n || t[d] != ',' {
        return Err(RleError::InvalidHeader);
    }
    let e = skip_spaces_at(&t, d + 1);
    if e >= n || t[e] != 'y' {
        return Err(RleError::InvalidHeader);
    }
    let f = skip_spaces_at(&t, e + 1);
    if f >= n || t[f] != '=' {
        return Err(RleError::InvalidHeader);
    }
    let g = skip_spaces_at(&t, f + 1);
    let (h, ht) = digits_at(&t, g);
    if h == g {
        return Err(RleError::InvalidHeader);
    }
    if !no_line_break_from(&t, h) {
        return Err(RleError::InvalidHeader);
    }
    match (w, ht) {
        (Some(w), Some(ht)) => Ok(RLELine::Header(w, ht)),
        _ => Err(RleError::InvalidHeader),
    }
}

/// The line that the trimmed text `t` reads as: a comment after `#`, a
/// header after `x`, else data.
pub open spec fn line_of(t: Seq<char>) -> Result<LineView, RleError> {
    if char_at(t, 0, '#') {
        Ok(LineView::Comment)
    } else if char_at(t, 0, 'x') {
        match header_dims(t) {
            Ok((w, h)) => Ok(LineView::Header(w, h)),
            Err(e) => Err(e),
        }
    } else {
        match data_tokens(t) {
            Ok(toks) => Ok(LineView::Data(toks)),
            Err(e) => Err(e),
        }
    }
}

/// A parse result of an executable line, seen through its view.
pub open spec fn line_result_view(r: Result<RLELine, RleError>) -> Result<LineView, RleError> {
    match r {
        Ok(l) => Ok(l@),
        Err(e) => Err(e),
    }
}

/// The first character of `s`, if any.
fn first_char(s: &str) -> (r: Option<char>)
    ensures
        r == if s@.len() > 0 {
            Some(s@[0])
        } else {
            None::<char>
        },
{
    for c in it: s.chars()
        invariant
            it.seq() == s@,
            it.index() == 0,
    {
        return Some(c);
    }
    None
}

/// Reads a line that has already been trimmed.
pub fn parse_trimmed(t: &str) -> (r: Result<RLELine, RleError>)
    ensures
        line_result_view(r) == line_of(t@),
{
    match first_char(t) {
        Some('#') => Ok(RLELine::Comment),
        Some('x') => parse_header(t),
        _ => parse_data(t),
    }
}

/// Reads one line of a pattern file, ignoring surrounding whitespace.
pub fn parse_line(line: &str) -> (r: Result<RLELine, RleError>)
    ensures
        line_result_view(r) == line_of(trimmed(line@)),
{
    parse_trimmed(trim(line))
}

/// `n` cells of row `y` from column `x` on, shifted by `(ox, oy)`, all alive or all dead.
pub open spec fn run(x: int, y: int, n: int, alive: bool, ox: int, oy: int) -> Seq<(GridCoord, bool)> {
    Seq::new(
        if n > 0 {
            n as nat
        } else {
            0
        },
        |i: int| (GridCoord::Valid((x + i + ox) as i64, (y + oy) as i64), alive),
    )
}

/// `k` whole dead rows of width `w`, the first of them row `y`.
pub open spec fn blank_rows(y: int, k: int, w: int, ox: int, oy: int) -> Seq<(GridCoord, bool)>
    decreases k,
{
    if k <= 0 {
        Seq::empty()
    } else {
        blank_rows(y, k - 1, w, ox, oy) + run(0, y + k - 1, w, false, ox, oy)
    }
}

/// The offset that centres a span of `n` cells on the origin.
pub open spec fn centre(n: int) -> int {
    -(n / 2)
}

/// Where decoding stands after a token, for a pattern of width `w` and height
/// `h`: the next column, the current row and the cells so far.
pub open spec fn token_step(
    st: Result<(int, int, Seq<(GridCoord, bool)>), RleError>,
    tok: RLEToken,
    w: int,
    h: int,
    skip: bool,
) -> Result<(int, int, Seq<(GridCoord, bool)>), RleError> {
    let (ox, oy) = (centre(w), centre(h));
    match st {
        Err(e) => Err(e),
        Ok((x, y, out)) => match tok {
            RLEToken::Dead(c) => if x + c > i64::MAX {
                Err(RleError::TooLarge)
            } else if skip {
                Ok((x + c, y, out))
            } else {
                Ok((x + c, y, out + run(x, y, c as int, false, ox, oy)))
            },
            RLEToken::Alive(c) => if x + c > i64::MAX {
                Err(RleError::TooLarge)
            } else {
                Ok((x + c, y, out + run(x, y, c as int, true, ox, oy)))
            },
            RLEToken::EOL(c) => {
                let rows: int = if c == 0 {
                    1
                } else {
                    c as int
                };
                if y + rows > i64::MAX {
                    Err(RleError::TooLarge)
                } else if skip {
                    Ok((0, y + rows, out))
                } else {
                    Ok(
                        (
                            0,
                            y + rows,
                            out + run(x, y, w - x, false, ox, oy) + blank_rows(
                                y + 1,
                                rows - 1,
                                w,
                                ox,
                                oy,
                            ),
                        ),
                    )
                }
            },
            RLEToken::EOF => if y + 1 > i64::MAX {
                Err(RleError::TooLarge)
            } else if y + 1 < h {
                Err(RleError::TooFewLines)
            } else if skip {
                Ok((x, y + 1, out))
            } else {
                Ok(
                    (
                        if x < w {
                            w
                        } else {
                            x
                        },
                        y + 1,
                        out + run(x, y, w - x, false, ox, oy),
                    ),
                )
            },
        },
    }
}

/// Decoding after one more token: the pattern's end `!` settles the state,
/// and once settled nothing changes it.
pub open spec fn advance(
    st: Result<(int, int, bool, Seq<(GridCoord, bool)>), RleError>,
    tok: RLEToken,
    w: int,
    h: int,
    skip: bool,
) -> Result<(int, int, bool, Seq<(GridCoord, bool)>), RleError> {
    match st {
        Err(e) => Err(e),
        Ok((x, y, done, out)) => if done {
            st
        } else {
            match token_step(Ok((x, y, out)), tok, w, h, skip) {
                Ok((nx, ny, nout)) => Ok((nx, ny, tok is EOF, nout)),
                Err(e) => Err(e),
            }
        },
    }
}

/// Decoding has failed or has reached the end of the pattern.
pub open spec fn settled(st: Result<(int, int, bool, Seq<(GridCoord, bool)>), RleError>) -> bool {
    match st {
        Err(_) => true,
        Ok((_, _, done, _)) => done,
    }
}

/// Decoding after the tokens `toks`, from `st`.
pub open spec fn fold_tokens(
    st: Result<(int, int, bool, Seq<(GridCoord, bool)>), RleError>,
    toks: Seq<RLEToken>,
    w: int,
    h: int,
    skip: bool,
) -> Result<(int, int, bool, Seq<(GridCoord, bool)>), RleError>
    decreases toks.len(),
{
    if toks.len() == 0 {
        st
    } else {
        advance(fold_tokens(st, toks.drop_last(), w, h, skip), toks.last(), w, h, skip)
    }
}

/// Decoding after one more line: comments and headers are refused after the
/// header, and every line after the end of the pattern is ignored.
pub open spec fn line_step(
    st: Result<(int, int, bool, Seq<(GridCoord, bool)>), RleError>,
    line: LineView,
    w: int,
    h: int,
    skip: bool,
) -> Result<(int, int, bool, Seq<(GridCoord, bool)>), RleError> {
    match st {
        Err(e) => Err(e),
        Ok((_, _, true, _)) => st,
        Ok(_) => match line {
            LineView::Comment => Err(RleError::CommentInData),
            LineView::Header(_, _) => Err(RleError::HeaderInData),
            LineView::Data(toks) => fold_tokens(st, toks, w, h, skip),
        },
    }
}

/// Decoding after the lines `lines`, from `st`.
pub open spec fn fold_lines(
    st: Result<(int, int, bool, Seq<(GridCoord, bool)>), RleError>,
    lines: Seq<LineView>,
    w: int,
    h: int,
    skip: bool,
) -> Result<(int, int, bool, Seq<(GridCoord, bool)>), RleError>
    decreases lines.len(),
{
    if lines.len() == 0 {
        st
    } else {
        line_step(fold_lines(st, lines.drop_last(), w, h, skip), lines.last(), w, h, skip)
    }
}

/// The index of the first line at or after `i` that is no comment.
pub open spec fn after_comments(lines: Seq<LineView>, i: int) -> int
    decreases lines.len() - i,
{
    if 0 <= i < lines.len() && lines[i] is Comment {
        after_comments(lines, i + 1)
    } else {
        i
    }
}

/// The cells of a decoding that has reached the end of the pattern, else its error.
pub open spec fn finish(st: Result<(int, int, bool, Seq<(GridCoord, bool)>), RleError>) -> Result<
    Seq<(GridCoord, bool)>,
    RleError,
> {
    match st {
        Ok((_, _, true, out)) => Ok(out),
        Ok(_) => Err(RleError::PrematureEnd),
        Err(e) => Err(e),
    }
}

/// The cells that the parsed lines `lines` describe, in order: comments,
/// then a header, then data up to the first `!`, which must come.
pub open spec fn decode(lines: Seq<LineView>, skip: bool) -> Result<Seq<(GridCoord, bool)>, RleError> {
    let k = after_comments(lines, 0);
    if k >= lines.len() {
        Err(RleError::UnexpectedEof)
    } else {
        match lines[k] {
            LineView::Header(w, h) => if w > i64::MAX || h > i64::MAX {
                Err(RleError::TooLarge)
            } else {
                finish(
                    fold_lines(
                        Ok((0, 0, false, Seq::empty())),
                        lines.subrange(k + 1, lines.len() as int),
                        w as int,
                        h as int,
                        skip,
                    ),
                )
            },
            _ => Err(RleError::MissingHeader),
        }
    }
}

/// Once decoding a line's tokens fails or reaches the end of the pattern, the
/// rest of the line changes nothing.
pub proof fn lemma_fold_tokens_settled(
    st: Result<(int, int, bool, Seq<(GridCoord, bool)>), RleError>,
    toks: Seq<RLEToken>,
    n: int,
    w: int,
    h: int,
    skip: bool,
)
    requires
        0 <= n <= toks.len(),
        settled(fold_tokens(st, toks.take(n), w, h, skip)),
    ensures
        fold_tokens(st, toks, w, h, skip) == fold_tokens(st, toks.take(n), w, h, skip),
    decreases toks.len() - n,
{
    if n < toks.len() {
        assert(toks.take(n + 1).drop_last() =~= toks.take(n));
        lemma_fold_tokens_settled(st, toks, n + 1, w, h, skip);
    } else {
        assert(toks.take(n) =~= toks);
    }
}

/// Once decoding the lines fails or reaches the end of the pattern, the
/// remaining lines change nothing.
pub proof fn lemma_fold_lines_settled(
    st: Result<(int, int, bool, Seq<(GridCoord, bool)>), RleError>,
    lines: Seq<LineView>,
    n: int,
    w: int,
    h: int,
    skip: bool,
)
    requires
        0 <= n <= lines.len(),
        settled(fold_lines(st, lines.take(n), w, h, skip)),
    ensures
        fold_lines(st, lines, w, h, skip) == fold_lines(st, lines.take(n), w, h, skip),
    decreases lines.len() - n,
{
    if n < lines.len() {
        assert(lines.take(n + 1).drop_last() =~= lines.take(n));
        lemma_fold_lines_settled(st, lines, n + 1, w, h, skip);
    } else {
        assert(lines.take(n) =~= lines);
    }
}

/// Appends `n` cells of row `y` from column `x` on, shifted by `(ox, oy)`.
fn push_run(
    out: &mut Vec<(GridCoord, bool)>,
    x: i64,
    y: i64,
    n: i64,
    alive: bool,
    ox: i64,
    oy: i64,
)
    requires
        0 <= x,
        0 <= n,
        x + n <= i64::MAX,
        0 <= y,
        -(i64::MAX / 2) - 1 <= ox <= 0,
        -(i64::MAX / 2) - 1 <= oy <= 0,
    ensures
        final(out)@ == old(out)@ + run(x as int, y as int, n as int, alive, ox as int, oy as int),
{
    let ghost start = out@;
    let mut i: i64 = 0;
    while i < n
        invariant
            0 <= i <= n,
            0 <= x,
            x + n <= i64::MAX,
            0 <= y,
            -(i64::MAX / 2) - 1 <= ox <= 0,
            -(i64::MAX / 2) - 1 <= oy <= 0,
            out@ == start + run(x as int, y as int, i as int, alive, ox as int, oy as int),
        decreases n - i,
    {
        out.push((GridCoord::Valid(x + i + ox, y + oy), alive));
        i += 1;
        assert(out@ =~= start + run(x as int, y as int, i as int, alive, ox as int, oy as int));
    }
}

/// Decodes one token for a pattern of width `w` and height `h`, moving the
/// column `x` and row `y` and appending the cells it yields to `out`.
fn decode_token(
    x: &mut i64,
    y: &mut i64,
    out: &mut Vec<(GridCoord, bool)>,
    tok: RLEToken,
    w: i64,
    h: i64,
    skip: bool,
) -> (r: Result<(), RleError>)
    requires
        0 <= *old(x),
        0 <= *old(y),
        0 <= w,
        0 <= h,
    ensures
        match token_step(
            Ok((*old(x) as int, *old(y) as int, old(out)@)),
            tok,
            w as int,
            h as int,
            skip,
        ) {
            Ok((nx, ny, nout)) => r is Ok && *final(x) == nx && *final(y) == ny && final(out)@ == nout,
            Err(e) => r == Err::<(), RleError>(e),
        },
        0 <= *final(x),
        0 <= *final(y),
{
    let ox = -(w / 2);
    let oy = -(h / 2);
    match tok {
        RLEToken::Dead(c) => {
            let c = c as i64;
            if *x > i64::MAX - c {
                return Err(RleError::TooLarge);
            }
            if !skip {
                push_run(out, *x, *y, c, false, ox, oy);
            }
            *x = *x + c;
        },
        RLEToken::Alive(c) => {
            let c = c as i64;
            if *x > i64::MAX - c {
                return Err(RleError::TooLarge);
            }
            push_run(out, *x, *y, c, true, ox, oy);
            *x = *x + c;
        },
        RLEToken::EOL(c) => {
            let rows: i64 = if c == 0 {
                1
            } else {
                c as i64
            };
            if *y > i64::MAX - rows {
                return Err(RleError::TooLarge);
            }
            if !skip {
                if *x < w {
                    push_run(out, *x, *y, w - *x, false, ox, oy);
                } else {
                    assert(out@ =~= old(out)@ + run(*x as int, *y as int, w - *x, false, ox as int, oy as int));
                }
                let ghost base = out@;
                let mut r: i64 = 0;
                while r < rows - 1
                    invariant
                        0 <= r <= rows - 1,
                        0 <= *y,
                        *y + rows <= i64::MAX,
                        0 <= w,
                        ox == -(w / 2),
                        oy == -(h / 2),
                        0 <= h,
                        out@ == base + blank_rows(*y + 1, r as int, w as int, ox as int, oy as int),
                    decreases rows - 1 - r,
                {
                    push_run(out, 0, *y + 1 + r, w, false, ox, oy);
                    r += 1;
                    assert(out@ =~= base + blank_rows(*y + 1, r as int, w as int, ox as int, oy as int));
                }
                assert(out@ =~= old(out)@ + run(*old(x) as int, *y as int, w - *old(x), false, ox as int, oy as int)
                    + blank_rows(*y + 1, rows - 1, w as int, ox as int, oy as int));
            }
            *x = 0;
            *y = *y + rows;
        },
        RLEToken::EOF => {
            if *y == i64::MAX {
                return Err(RleError::TooLarge);
            }
            if *y + 1 < h {
                return Err(RleError::TooFewLines);
            }
            if !skip {
                if *x < w {
                    push_run(out, *x, *y, w - *x, false, ox, oy);
                    *x = w;
                } else {
                    assert(out@ =~= old(out)@ + run(*x as int, *y as int, w - *x, false, ox as int, oy as int));
                }
            }
            *y = *y + 1;
        },
    }
    Ok(())
}

/// Parsed lines, seen through their views.
pub open spec fn lines_view(lines: Seq<RLELine>) -> Seq<LineView> {
    lines.map_values(|l: RLELine| l@)
}

fn is_comment(l: &RLELine) -> (r: bool)
    ensures
        r == l@ is Comment,
{
    match l {
        RLELine::Comment => true,
        _ => false,
    }
}

/// The largest width or height that keeps a pattern on the 64-bit grid.
pub const MAX_SIDE: u64 = 0x7fff_ffff_ffff_ffff;

/// Decodes parsed lines into the cells they describe, in order.
pub fn decode_lines(lines: &[RLELine], skip_blank: bool) -> (r: Result<
    Vec<(GridCoord, bool)>,
    RleError,
>)
    ensures
        match r {
            Ok(v) => decode(lines_view(lines@), skip_blank) == Ok::<
                Seq<(GridCoord, bool)>,
                RleError,
            >(v@),
            Err(e) => decode(lines_view(lines@), skip_blank) == Err::<
                Seq<(GridCoord, bool)>,
                RleError,
            >(e),
        },
{
    let ghost ls = lines_view(lines@);
    let mut k: usize = 0;
    while k < lines.len() && is_comment(&lines[k])
        invariant
            k <= lines@.len(),
            ls == lines_view(lines@),
            after_comments(ls, k as int) == after_comments(ls, 0),
        decreases lines@.len() - k,
    {
        k += 1;
    }
    if k == lines.len() {
        return Err(RleError::UnexpectedEof);
    }
    proof {
        assert(ls[k as int] == lines@[k as int]@);
    }
    let (w, h) = match &lines[k] {
        RLELine::Header(w, h) => (*w, *h),
        _ => {
            return Err(RleError::MissingHeader);
        },
    };
    proof {
        assert(ls[k as int] == lines@[k as int]@);
        assert(after_comments(ls, k as int) == k);
    }
    if w as u64 > MAX_SIDE || h as u64 > MAX_SIDE {
        return Err(RleError::TooLarge);
    }
    let w = w as i64;
    let h = h as i64;
    let mut x: i64 = 0;
    let mut y: i64 = 0;
    let mut out: Vec<(GridCoord, bool)> = Vec::new();
    let ghost body = ls.subrange(k + 1, ls.len() as int);
    let ghost init = Ok::<(int, int, bool, Seq<(GridCoord, bool)>), RleError>(
        (0, 0, false, Seq::empty()),
    );
    proof {
        assert(body.take(0) =~= Seq::<LineView>::empty());
        assert(decode(ls, skip_blank) == finish(
            fold_lines(init, body, w as int, h as int, skip_blank),
        ));
    }
    for li in k + 1..lines.len()
        invariant
            k < lines@.len(),
            ls == lines_view(lines@),
            ls.len() == lines@.len(),
            body == ls.subrange(k + 1, ls.len() as int),
            decode(ls, skip_blank) == finish(
                fold_lines(init, body, w as int, h as int, skip_blank),
            ),
            0 <= w,
            0 <= h,
            0 <= x,
            0 <= y,
            fold_lines(init, body.take(li - k - 1), w as int, h as int, skip_blank) == Ok::<
                (int, int, bool, Seq<(GridCoord, bool)>),
                RleError,
            >((x as int, y as int, false, out@)),
    {
        let ghost n = li - k - 1;
        let ghost before = fold_lines(init, body.take(n), w as int, h as int, skip_blank);
        proof {
            assert(body.take(n + 1).drop_last() =~= body.take(n));
            assert(body.take(n + 1).last() == lines@[li as int]@);
            assert(fold_lines(init, body.take(n + 1), w as int, h as int, skip_blank) == line_step(
                before,
                lines@[li as int]@,
                w as int,
                h as int,
                skip_blank,
            ));
        }
        match &lines[li] {
            RLELine::Comment => {
                proof {
                    lemma_fold_lines_settled(init, body, n + 1, w as int, h as int, skip_blank);
                }
                return Err(RleError::CommentInData);
            },
            RLELine::Header(_, _) => {
                proof {
                    lemma_fold_lines_settled(init, body, n + 1, w as int, h as int, skip_blank);
                }
                return Err(RleError::HeaderInData);
            },
            RLELine::Data(tokens) => {
                proof {
                    assert(tokens@.take(0) =~= Seq::<RLEToken>::empty());
                    assert(lines@[li as int]@ == LineView::Data(tokens@));
                }
                for j in 0..tokens.len()
                    invariant
                        0 <= w,
                        0 <= h,
                        0 <= x,
                        0 <= y,
                        before is Ok,
                        0 <= n < body.len(),
                        ls == lines_view(lines@),
                        fold_lines(init, body.take(n + 1), w as int, h as int, skip_blank)
                            == fold_tokens(before, tokens@, w as int, h as int, skip_blank),
                        decode(ls, skip_blank) == finish(
                            fold_lines(init, body, w as int, h as int, skip_blank),
                        ),
                        fold_tokens(before, tokens@.take(j as int), w as int, h as int, skip_blank)
                            == Ok::<(int, int, bool, Seq<(GridCoord, bool)>), RleError>(
                            (x as int, y as int, false, out@),
                        ),
                {
                    proof {
                        assert(tokens@.take(j + 1).drop_last() =~= tokens@.take(j as int));
                    }
                    let tok = tokens[j];
                    match decode_token(&mut x, &mut y, &mut out, tok, w, h, skip_blank) {
                        Ok(()) => {},
                        Err(e) => {
                            proof {
                                lemma_fold_tokens_settled(
                                    before,
                                    tokens@,
                                    j + 1,
                                    w as int,
                                    h as int,
                                    skip_blank,
                                );
                                lemma_fold_lines_settled(
                                    init,
                                    body,
                                    n + 1,
                                    w as int,
                                    h as int,
                                    skip_blank,
                                );
                            }
                            return Err(e);
                        },
                    }
                    if is_end(tok) {
                        proof {
                            lemma_fold_tokens_settled(
                                before,
                                tokens@,
                                j + 1,
                                w as int,
                                h as int,
                                skip_blank,
                            );
                            lemma_fold_lines_settled(
                                init,
                                body,
                                n + 1,
                                w as int,
                                h as int,
                                skip_blank,
                            );
                        }
                        return Ok(out);
                    }
                }
                proof {
                    assert(tokens@.take(tokens@.len() as int) =~= tokens@);
                }
            },
        }
    }
    proof {
        assert(body.take(body.len() as int) =~= body);
    }
    Err(RleError::PrematureEnd)
}

fn is_end(tok: RLEToken) -> (r: bool)
    ensures
        r == tok is EOF,
{
    match tok {
        RLEToken::EOF => true,
        _ => false,
    }
}

/// The lines of `texts` parsed in order, or the error of the first line that fails.
pub open spec fn parse_all(texts: Seq<Seq<char>>) -> Result<Seq<LineView>, RleError>
    decreases texts.len(),
{
    if texts.len() == 0 {
        Ok(Seq::empty())
    } else {
        match parse_all(texts.drop_last()) {
            Err(e) => Err(e),
            Ok(ls) => match line_of(trimmed(texts.last())) {
                Ok(l) => Ok(ls.push(l)),
                Err(e) => Err(e),
            },
        }
    }
}

/// The cells that the pattern file with lines `texts` describes.
pub open spec fn pattern_cells(texts: Seq<Seq<char>>, skip: bool) -> Result<
    Seq<(GridCoord, bool)>,
    RleError,
> {
    match parse_all(texts) {
        Ok(ls) => decode(ls, skip),
        Err(e) => Err(e),
    }
}

/// The text of each line.
pub open spec fn texts_of(lines: Seq<String>) -> Seq<Seq<char>> {
    lines.map_values(|l: String| l@)
}

/// The first line that fails to parse decides the error of the whole file.
pub proof fn lemma_parse_all_error_sticks(texts: Seq<Seq<char>>, n: int)
    requires
        0 <= n <= texts.len(),
        parse_all(texts.take(n)) is Err,
    ensures
        parse_all(texts) == parse_all(texts.take(n)),
    decreases texts.len() - n,
{
    if n < texts.len() {
        assert(texts.take(n + 1).drop_last() =~= texts.take(n));
        lemma_parse_all_error_sticks(texts, n + 1);
    } else {
        assert(texts.take(n) =~= texts);
    }
}

/// Decodes the lines of a pattern file into its cells, in order.
pub fn rle_cells(lines: &[String], skip_blank: bool) -> (r: Result<Vec<(GridCoord, bool)>, RleError>)
    ensures
        match r {
            Ok(v) => pattern_cells(texts_of(lines@), skip_blank) == Ok::<
                Seq<(GridCoord, bool)>,
                RleError,
            >(v@),
            Err(e) => pattern_cells(texts_of(lines@), skip_blank) == Err::<
                Seq<(GridCoord, bool)>,
                RleError,
            >(e),
        },
{
    let ghost texts = texts_of(lines@);
    let mut parsed: Vec<RLELine> = Vec::new();
    proof {
        assert(texts.take(0) =~= Seq::<Seq<char>>::empty());
        assert(lines_view(parsed@) =~= Seq::<LineView>::empty());
    }
    for i in 0..lines.len()
        invariant
            texts == texts_of(lines@),
            parse_all(texts.take(i as int)) == Ok::<Seq<LineView>, RleError>(lines_view(parsed@)),
    {
        proof {
            assert(texts.take(i + 1).drop_last() =~= texts.take(i as int));
            assert(texts.take(i + 1).last() == lines@[i as int]@);
        }
        match parse_line(lines[i].as_str()) {
            Ok(l) => {
                let ghost prev = parsed@;
                parsed.push(l);
                assert(lines_view(parsed@) =~= lines_view(prev).push(l@));
            },
            Err(e) => {
                proof {
                    lemma_parse_all_error_sticks(texts, i + 1);
                }
                return Err(e);
            },
        }
    }
    proof {
        assert(texts.take(lines@.len() as int) =~= texts);
    }
    decode_lines(parsed.as_slice(), skip_blank)
}

/// Decodes the lines of a pattern file and hands each cell, in order, to
/// `inject`: the cells are those of `rle_cells`. Nothing is handed over unless
/// the whole pattern decodes; a refusal by `inject` stops the load and is
/// returned.
pub fn load_rle<I: Inject>(lines: &[String], inject: &mut I, skip_blank: bool) -> (r: Result<
    (),
    RleError,
>)
    ensures
        pattern_cells(texts_of(lines@), skip_blank) matches Err(e) ==> r == Err::<(), RleError>(e)
            && *final(inject) == *old(inject),
        pattern_cells(texts_of(lines@), skip_blank) matches Ok(cells) && cells.len() == 0 ==> r is Ok
            && *final(inject) == *old(inject),
        r is Ok ==> pattern_cells(texts_of(lines@), skip_blank) is Ok,
{
    let cells = match rle_cells(lines, skip_blank) {
        Ok(cells) => cells,
        Err(e) => {
            return Err(e);
        },
    };
    for i in 0..cells.len()
        invariant
            pattern_cells(texts_of(lines@), skip_blank) == Ok::<Seq<(GridCoord, bool)>, RleError>(
                cells@,
            ),
            cells@.len() == 0 ==> *inject == *old(inject),
    {
        let (coord, alive) = cells[i];
        match inject.inject(coord, alive) {
            Ok(()) => {},
            Err(e) => {
                return Err(e);
            },
        }
    }
    Ok(())
}

} // verus!
