//! The byte-level scanner: raw text in, a finite token sequence out.

use vstd::prelude::*;

use crate::token::{Token, TokenModel};

verus! {

// ---------------------------------------------------------------------------
// Byte classification
// ---------------------------------------------------------------------------

/// ASCII whitespace skipped between tokens: space, tab, LF, CR.
pub open spec fn is_ws_byte(b: u8) -> bool {
    b == 32 || b == 9 || b == 10 || b == 13
}

/// An ASCII decimal digit.
pub open spec fn is_digit_byte(b: u8) -> bool {
    48 <= b && b <= 57
}

/// An ASCII letter.
pub open spec fn is_alpha_byte(b: u8) -> bool {
    (65 <= b && b <= 90) || (97 <= b && b <= 122)
}

/// An ASCII letter or digit.
pub open spec fn is_alnum_byte(b: u8) -> bool {
    is_alpha_byte(b) || is_digit_byte(b)
}

/// The byte allowed after a backslash inside a string:
/// `"`, `\`, `/`, `b`, `f`, `n`, `r`, `t`.
pub open spec fn is_escape_byte(b: u8) -> bool {
    b == 34 || b == 92 || b == 47 || b == 98 || b == 102 || b == 110 || b == 114 || b == 116
}

// ---------------------------------------------------------------------------
// Cursor movement
// ---------------------------------------------------------------------------

/// The offset of the first non-whitespace byte at or after `i`
/// (`s.len()` if only whitespace remains).
pub open spec fn skip_ws_from(s: Seq<u8>, i: int) -> int
    decreases s.len() - i,
{
    if 0 <= i && i < s.len() && is_ws_byte(s[i]) {
        skip_ws_from(s, i + 1)
    } else {
        i
    }
}

/// The end of the run of digits and dots starting at `i`.
pub open spec fn num_run_end(s: Seq<u8>, i: int) -> int
    decreases s.len() - i,
{
    if 0 <= i && i < s.len() && (is_digit_byte(s[i]) || s[i] == 46) {
        num_run_end(s, i + 1)
    } else {
        i
    }
}

/// The end of the run of letters and digits starting at `i`.
pub open spec fn alnum_run_end(s: Seq<u8>, i: int) -> int
    decreases s.len() - i,
{
    if 0 <= i && i < s.len() && is_alnum_byte(s[i]) {
        alnum_run_end(s, i + 1)
    } else {
        i
    }
}

/// The offset reported for an illegal byte when scanning stopped at `j`:
/// `j` itself while input remains, the offset of the last input byte once
/// the cursor has reached the end.
pub open spec fn report_off(s: Seq<u8>, j: int) -> int {
    if j < s.len() {
        j
    } else {
        s.len() - 1
    }
}

// ---------------------------------------------------------------------------
// The numeric grammar
// ---------------------------------------------------------------------------

/// The end of the run of digits starting at `i` within `t`.
pub open spec fn digits_end(t: Seq<u8>, i: int) -> int
    decreases t.len() - i,
{
    if 0 <= i && i < t.len() && is_digit_byte(t[i]) {
        digits_end(t, i + 1)
    } else {
        i
    }
}

/// The canonical numeric grammar: an optional `-`, one or more digits,
/// then optionally a `.` followed by one or more digits. No exponents.
pub open spec fn is_number_lit(t: Seq<u8>) -> bool {
    let start: int = if t.len() > 0 && t[0] == 45 { 1 } else { 0 };
    let d = digits_end(t, start);
    start < d && (d == t.len() || (t[d] == 46 && d + 1 < t.len() && digits_end(t, d + 1) == t.len()))
}

// ---------------------------------------------------------------------------
// Scanning one token
// ---------------------------------------------------------------------------

/// Scan a numeric literal whose first byte stands at `i`: consume the
/// optional sign and then the whole run of digits and dots, and accept it
/// only if it matches the numeric grammar. The second component is the
/// offset where scanning resumes.
pub open spec fn scan_number(s: Seq<u8>, i: int) -> (TokenModel, int) {
    let run_start: int = if i < s.len() && s[i] == 45 { i + 1 } else { i };
    let j = num_run_end(s, run_start);
    let lit = s.subrange(i, j);
    if is_number_lit(lit) {
        (TokenModel::Number(lit), j)
    } else {
        (TokenModel::Illegal(report_off(s, j)), j)
    }
}

/// Scan the body of a string whose content starts at `start`; `j` is the
/// offset of the next unexamined byte. Stops at the first unescaped `"`;
/// a backslash must be followed by a recognized escape byte; reaching the
/// end of input before the closing quote is an illegal token at the
/// offset of the last input byte.
pub open spec fn scan_string_body(s: Seq<u8>, start: int, j: int) -> (TokenModel, int)
    decreases s.len() - j,
{
    if j < 0 || j >= s.len() {
        (TokenModel::Illegal(s.len() - 1), s.len() as int)
    } else if s[j] == 34 {
        (TokenModel::String(s.subrange(start, j)), j + 1)
    } else if s[j] == 92 {
        if j + 1 >= s.len() {
            (TokenModel::Illegal(s.len() - 1), s.len() as int)
        } else if is_escape_byte(s[j + 1]) {
            scan_string_body(s, start, j + 2)
        } else {
            (TokenModel::Illegal(j + 1), j + 1)
        }
    } else {
        scan_string_body(s, start, j + 1)
    }
}

/// Scan a string whose opening quote stands at `i`.
pub open spec fn scan_string(s: Seq<u8>, i: int) -> (TokenModel, int) {
    scan_string_body(s, i + 1, i + 1)
}

pub open spec fn true_lit() -> Seq<u8> {
    seq![116u8, 114u8, 117u8, 101u8]
}

pub open spec fn false_lit() -> Seq<u8> {
    seq![102u8, 97u8, 108u8, 115u8, 101u8]
}

pub open spec fn null_lit() -> Seq<u8> {
    seq![110u8, 117u8, 108u8, 108u8]
}

/// Scan a keyword whose first letter stands at `i`: consume the maximal
/// run of letters and digits and match it against `true`, `false`, `null`.
pub open spec fn scan_keyword(s: Seq<u8>, i: int) -> (TokenModel, int) {
    let j = alnum_run_end(s, i);
    let lit = s.subrange(i, j);
    if lit == true_lit() {
        (TokenModel::True, j)
    } else if lit == false_lit() {
        (TokenModel::False, j)
    } else if lit == null_lit() {
        (TokenModel::Null, j)
    } else {
        (TokenModel::Illegal(report_off(s, j)), j)
    }
}

/// Scan one token starting at offset `i`: skip whitespace, then dispatch
/// on the first remaining byte. The second component is the offset where
/// the next scan starts; an unrecognized byte is reported as an illegal
/// token and skipped.
pub open spec fn spec_next_token(s: Seq<u8>, i: int) -> (TokenModel, int) {
    let p = skip_ws_from(s, i);
    if p >= s.len() {
        (TokenModel::EndOfInput, p)
    } else {
        let b = s[p];
        if is_digit_byte(b) || b == 45 {
            scan_number(s, p)
        } else if b == 34 {
            scan_string(s, p)
        } else if b == 58 {
            (TokenModel::Colon, p + 1)
        } else if b == 44 {
            (TokenModel::Comma, p + 1)
        } else if b == 123 {
            (TokenModel::LeftBrace, p + 1)
        } else if b == 125 {
            (TokenModel::RightBrace, p + 1)
        } else if b == 91 {
            (TokenModel::LeftBracket, p + 1)
        } else if b == 93 {
            (TokenModel::RightBracket, p + 1)
        } else if is_alpha_byte(b) {
            scan_keyword(s, p)
        } else {
            (TokenModel::Illegal(p), p + 1)
        }
    }
}

// ---------------------------------------------------------------------------
// Progress of the scanner
// ---------------------------------------------------------------------------

/// Skipping whitespace never moves backwards nor past the end.
pub proof fn lemma_skip_ws_bounds(s: Seq<u8>, i: int)
    requires
        0 <= i <= s.len(),
    ensures
        i <= skip_ws_from(s, i) <= s.len(),
    decreases s.len() - i,
{
    if i < s.len() && is_ws_byte(s[i]) {
        lemma_skip_ws_bounds(s, i + 1);
    }
}

/// The run of digits and dots ends at or after its start, within the input.
pub proof fn lemma_num_run_end_bounds(s: Seq<u8>, i: int)
    requires
        0 <= i <= s.len(),
    ensures
        i <= num_run_end(s, i) <= s.len(),
    decreases s.len() - i,
{
    if i < s.len() && (is_digit_byte(s[i]) || s[i] == 46) {
        lemma_num_run_end_bounds(s, i + 1);
    }
}

/// The run of letters and digits ends at or after its start, within the input.
pub proof fn lemma_alnum_run_end_bounds(s: Seq<u8>, i: int)
    requires
        0 <= i <= s.len(),
    ensures
        i <= alnum_run_end(s, i) <= s.len(),
    decreases s.len() - i,
{
    if i < s.len() && is_alnum_byte(s[i]) {
        lemma_alnum_run_end_bounds(s, i + 1);
    }
}

/// Scanning a string body resumes at or after the byte it examined first,
/// and within one byte past the end of the input.
pub proof fn lemma_scan_string_body_bounds(s: Seq<u8>, start: int, j: int)
    requires
        0 <= j <= s.len(),
    ensures
        j <= scan_string_body(s, start, j).1 <= s.len(),
        !(scan_string_body(s, start, j).0 is EndOfInput),
    decreases s.len() - j,
{
    if j < s.len() && s[j] != 34 {
        if s[j] == 92 {
            if j + 1 < s.len() && is_escape_byte(s[j + 1]) {
                lemma_scan_string_body_bounds(s, start, j + 2);
            }
        } else {
            lemma_scan_string_body_bounds(s, start, j + 1);
        }
    }
}

/// Scanning one token never moves backwards nor past the end of input, it
/// strictly advances unless it reports the end of input, and it reports the
/// end of input exactly when only whitespace remains.
pub proof fn lemma_next_token_progress(s: Seq<u8>, i: int)
    requires
        0 <= i <= s.len(),
    ensures
        i <= spec_next_token(s, i).1 <= s.len(),
        !(spec_next_token(s, i).0 is EndOfInput) ==> spec_next_token(s, i).1 > i,
        spec_next_token(s, i).0 is EndOfInput ==> spec_next_token(s, i).1 == skip_ws_from(s, i)
            && skip_ws_from(s, i) >= s.len(),
{
    let p = skip_ws_from(s, i);
    lemma_skip_ws_bounds(s, i);
    if p < s.len() {
        let b = s[p];
        if is_digit_byte(b) || b == 45 {
            lemma_num_run_end_bounds(s, p + 1);
            if b == 45 {
                assert(scan_number(s, p).1 == num_run_end(s, p + 1));
            } else {
                assert(num_run_end(s, p) == num_run_end(s, p + 1));
            }
            assert(p + 1 <= scan_number(s, p).1 <= s.len());
        } else if b == 34 {
            lemma_scan_string_body_bounds(s, p + 1, p + 1);
            assert(p + 1 <= scan_string(s, p).1 <= s.len());
        } else if is_alpha_byte(b) {
            assert(alnum_run_end(s, p) == alnum_run_end(s, p + 1));
            lemma_alnum_run_end_bounds(s, p + 1);
            assert(p + 1 <= scan_keyword(s, p).1 <= s.len());
        }
    }
}

// ---------------------------------------------------------------------------
// Where the scanning runs end
// ---------------------------------------------------------------------------

/// Whitespace skipping stops exactly at the first non-whitespace byte.
pub proof fn lemma_skip_ws_to(s: Seq<u8>, i: int, e: int)
    requires
        0 <= i <= e <= s.len(),
        forall|j: int| i <= j < e ==> is_ws_byte(#[trigger] s[j]),
        e == s.len() || !is_ws_byte(s[e]),
    ensures
        skip_ws_from(s, i) == e,
    decreases e - i,
{
    if i < e {
        lemma_skip_ws_to(s, i + 1, e);
    }
}

/// Whitespace skipping never passes a non-whitespace byte.
pub proof fn lemma_skip_ws_stops_at(s: Seq<u8>, i: int, j: int)
    requires
        0 <= i <= j < s.len(),
        !is_ws_byte(s[j]),
    ensures
        skip_ws_from(s, i) <= j,
    decreases j - i,
{
    if i < j && is_ws_byte(s[i]) {
        lemma_skip_ws_stops_at(s, i + 1, j);
    }
}

/// The run of digits and dots ends exactly where they stop.
pub proof fn lemma_num_run_to(s: Seq<u8>, i: int, e: int)
    requires
        0 <= i <= e <= s.len(),
        forall|j: int| i <= j < e ==> is_digit_byte(#[trigger] s[j]) || s[j] == 46,
        e == s.len() || !(is_digit_byte(s[e]) || s[e] == 46),
    ensures
        num_run_end(s, i) == e,
    decreases e - i,
{
    if i < e {
        lemma_num_run_to(s, i + 1, e);
    }
}

/// The run of letters and digits ends exactly where they stop.
pub proof fn lemma_alnum_run_to(s: Seq<u8>, i: int, e: int)
    requires
        0 <= i <= e <= s.len(),
        forall|j: int| i <= j < e ==> is_alnum_byte(#[trigger] s[j]),
        e == s.len() || !is_alnum_byte(s[e]),
    ensures
        alnum_run_end(s, i) == e,
    decreases e - i,
{
    if i < e {
        lemma_alnum_run_to(s, i + 1, e);
    }
}

/// Every byte of the run of digits that `digits_end` measures is a digit.
pub proof fn lemma_digits_end_range(t: Seq<u8>, i: int)
    requires
        0 <= i,
    ensures
        forall|j: int| i <= j < digits_end(t, i) ==> is_digit_byte(#[trigger] t[j]),
        i <= digits_end(t, i) <= t.len() || digits_end(t, i) == i,
    decreases t.len() - i,
{
    if i < t.len() && is_digit_byte(t[i]) {
        lemma_digits_end_range(t, i + 1);
    }
}

/// A numeric literal starts with a digit or a minus sign, and after the
/// sign it holds only digits and at most one dot.
pub proof fn lemma_number_lit_bytes(t: Seq<u8>)
    requires
        is_number_lit(t),
    ensures
        t.len() > 0,
        is_digit_byte(t[0]) || t[0] == 45,
        forall|j: int|
            ((if t[0] == 45 { 1int } else { 0int }) <= j < t.len()) ==> is_digit_byte(
                #[trigger] t[j],
            ) || t[j] == 46,
{
    let start: int = if t[0] == 45 { 1 } else { 0 };
    let d = digits_end(t, start);
    lemma_digits_end_range(t, start);
    if d < t.len() {
        lemma_digits_end_range(t, d + 1);
    }
}

// ---------------------------------------------------------------------------
// What the scanner makes of a spelled-out token
// ---------------------------------------------------------------------------

/// A valid raw string body: no unescaped quote, every backslash followed
/// by a recognized escape byte.
pub open spec fn str_body_ok(t: Seq<u8>) -> bool
    decreases t.len(),
{
    if t.len() == 0 {
        true
    } else if t[0] == 34 {
        false
    } else if t[0] == 92 {
        t.len() >= 2 && is_escape_byte(t[1]) && str_body_ok(t.subrange(2, t.len() as int))
    } else {
        str_body_ok(t.subrange(1, t.len() as int))
    }
}

/// Scanning a string body with a valid remainder runs to the closing
/// quote and hands back the content between the quotes.
pub proof fn lemma_scan_body_spelled(s: Seq<u8>, start: int, j: int, e: int)
    requires
        0 <= start <= j <= e < s.len(),
        s[e] == 34,
        str_body_ok(s.subrange(j, e)),
    ensures
        scan_string_body(s, start, j) == (TokenModel::String(s.subrange(start, e)), e + 1),
    decreases e - j,
{
    let t = s.subrange(j, e);
    if j == e {
    } else {
        assert(t[0] == s[j]);
        if s[j] == 92 {
            assert(t.len() >= 2 && is_escape_byte(t[1]) && str_body_ok(
                t.subrange(2, t.len() as int),
            ));
            assert(s[j + 1] == t[1]);
            assert(t.subrange(2, t.len() as int) =~= s.subrange(j + 2, e));
            lemma_scan_body_spelled(s, start, j + 2, e);
        } else {
            assert(str_body_ok(t.subrange(1, t.len() as int)));
            assert(t.subrange(1, t.len() as int) =~= s.subrange(j + 1, e));
            lemma_scan_body_spelled(s, start, j + 1, e);
        }
    }
}

// ---------------------------------------------------------------------------
// The token sequence of a document
// ---------------------------------------------------------------------------

/// The whole finite sequence of tokens scanned from offset `i` to the end
/// of the input; the terminating end-of-input marker is not included.
pub open spec fn spec_tokens_from(s: Seq<u8>, i: int) -> Seq<TokenModel>
    decreases s.len() - i,
    when 0 <= i <= s.len()
    via spec_tokens_from_decreases
{
    let r = spec_next_token(s, i);
    if r.0 is EndOfInput {
        Seq::empty()
    } else {
        seq![r.0] + spec_tokens_from(s, r.1)
    }
}

#[via_fn]
proof fn spec_tokens_from_decreases(s: Seq<u8>, i: int) {
    lemma_next_token_progress(s, i);
}

// ---------------------------------------------------------------------------
// The scanner
// ---------------------------------------------------------------------------

/// A cursor over an immutable byte buffer. The current byte is the one at
/// `pos`; once `pos` reaches the end of the buffer there is no current
/// byte, which is the end-of-input sentinel (a genuine NUL byte in the
/// input is an ordinary byte, never mistaken for the end).
pub struct Lexer<'a> {
    input: &'a [u8],
    pos: usize,
}

impl<'a> Lexer<'a> {
    /// The scanned text.
    pub closed spec fn src(self) -> Seq<u8> {
        self.input@
    }

    /// The offset of the current byte.
    pub closed spec fn cursor(self) -> int {
        self.pos as int
    }

    /// The cursor stands on a byte of the input or just past the end.
    pub closed spec fn wf(self) -> bool {
        self.pos <= self.input@.len()
    }

    /// A scanner over `input`, standing on its first byte.
    pub fn new(input: &'a [u8]) -> (lexer: Lexer<'a>)
        ensures
            lexer.src() == input@,
            lexer.cursor() == 0,
            lexer.wf(),
    {
        Lexer { input, pos: 0 }
    }

    /// Advance the cursor by one byte; at the end of input it stays put.
    pub fn read_char(&mut self)
        requires
            old(self).wf(),
        ensures
            final(self).wf(),
            final(self).src() == old(self).src(),
            final(self).cursor() == if old(self).cursor() < old(self).src().len() {
                old(self).cursor() + 1
            } else {
                old(self).cursor()
            },
    {
        if self.pos < self.input.len() {
            self.pos = self.pos + 1;
        }
    }

    /// Advance the cursor to the first non-whitespace byte.
    pub fn skip_whitespace(&mut self)
        requires
            old(self).wf(),
        ensures
            final(self).wf(),
            final(self).src() == old(self).src(),
            final(self).cursor() == skip_ws_from(old(self).src(), old(self).cursor()),
    {
        while self.pos < self.input.len() && (self.input[self.pos] == 32
            || self.input[self.pos] == 9 || self.input[self.pos] == 10
            || self.input[self.pos] == 13)
            invariant
                self.wf(),
                self.src() == old(self).src(),
                skip_ws_from(self.src(), self.cursor())
                    == skip_ws_from(old(self).src(), old(self).cursor()),
            decreases self.src().len() - self.cursor(),
        {
            self.pos = self.pos + 1;
        }
    }

    /// A copy of the bytes of the input between `start` and `end`.
    fn copy_range(&self, start: usize, end: usize) -> (out: Vec<u8>)
        requires
            start <= end <= self.src().len(),
        ensures
            out@ == self.src().subrange(start as int, end as int),
    {
        let mut out: Vec<u8> = Vec::new();
        let mut k: usize = start;
        while k < end
            invariant
                start <= k <= end <= self.src().len(),
                out@ == self.src().subrange(start as int, k as int),
            decreases end - k,
        {
            out.push(self.input[k]);
            k = k + 1;
            proof {
                assert(out@ =~= self.src().subrange(start as int, k as int));
            }
        }
        out
    }

    /// The illegal token reported for the byte the cursor stands on.
    fn found_illegal(&self) -> (t: Token)
        requires
            self.wf(),
            self.src().len() > 0,
        ensures
            t@ == TokenModel::Illegal(report_off(self.src(), self.cursor())),
    {
        if self.pos < self.input.len() {
            Token::Illegal(self.pos)
        } else {
            Token::Illegal(self.input.len() - 1)
        }
    }

    /// Whether `lit` matches the numeric grammar.
    fn check_number_lit(lit: &Vec<u8>) -> (ok: bool)
        ensures
            ok == is_number_lit(lit@),
    {
        let n = lit.len();
        let mut k: usize = if n > 0 && lit[0] == 45 { 1 } else { 0 };
        let digits_start = k;
        let ghost run_start = k as int;
        while k < n && 48 <= lit[k] && lit[k] <= 57
            invariant
                run_start <= k <= n == lit@.len(),
                digits_end(lit@, run_start) == digits_end(lit@, k as int),
            decreases n - k,
        {
            k = k + 1;
        }
        assert(digits_end(lit@, run_start) == k as int);
        if k == digits_start {
            return false;
        }
        if k == n {
            return true;
        }
        if lit[k] != 46 || k + 1 == n {
            return false;
        }
        let mut m: usize = k + 1;
        let ghost frac_start = m as int;
        while m < n && 48 <= lit[m] && lit[m] <= 57
            invariant
                frac_start <= m <= n == lit@.len(),
                digits_end(lit@, frac_start) == digits_end(lit@, m as int),
            decreases n - m,
        {
            m = m + 1;
        }
        assert(digits_end(lit@, frac_start) == m as int);
        m == n
    }

    /// Scan a numeric literal: the optional sign, then the whole run of
    /// digits and dots, accepted only if it matches the numeric grammar.
    fn consume_number(&mut self) -> (t: Token)
        requires
            old(self).wf(),
            old(self).cursor() < old(self).src().len(),
            is_digit_byte(old(self).src()[old(self).cursor()]) || old(self).src()[old(self).cursor()] == 45,
        ensures
            final(self).wf(),
            final(self).src() == old(self).src(),
            t@ == scan_number(old(self).src(), old(self).cursor()).0,
            final(self).cursor() == scan_number(old(self).src(), old(self).cursor()).1,
    {
        let ghost s = self.src();
        let start = self.pos;
        if self.input[self.pos] == 45 {
            self.pos = self.pos + 1;
        }
        let ghost run_start = self.cursor();
        while self.pos < self.input.len() && (48 <= self.input[self.pos] && self.input[self.pos] <= 57
            || self.input[self.pos] == 46)
            invariant
                self.src() == s,
                run_start <= self.cursor() <= s.len(),
                num_run_end(s, run_start) == num_run_end(s, self.cursor()),
            decreases s.len() - self.cursor(),
        {
            self.pos = self.pos + 1;
        }
        assert(num_run_end(s, run_start) == self.cursor());
        let lit = self.copy_range(start, self.pos);
        if Self::check_number_lit(&lit) {
            Token::Number(lit)
        } else {
            self.found_illegal()
        }
    }

    /// Scan a string: from the byte after the opening quote up to the
    /// first unescaped quote, validating each escape sequence on the way.
    fn consume_string(&mut self) -> (t: Token)
        requires
            old(self).wf(),
            old(self).cursor() < old(self).src().len(),
            old(self).src()[old(self).cursor()] == 34,
        ensures
            final(self).wf(),
            final(self).src() == old(self).src(),
            t@ == scan_string(old(self).src(), old(self).cursor()).0,
            final(self).cursor() == scan_string(old(self).src(), old(self).cursor()).1,
    {
        let ghost s = self.src();
        let n = self.input.len();
        let start = self.pos + 1;
        self.pos = self.pos + 1;
        loop
            invariant
                self.wf(),
                s == old(self).src(),
                self.src() == s,
                n == s.len(),
                start as int == old(self).cursor() + 1,
                1 <= start <= self.cursor() <= s.len(),
                scan_string_body(s, start as int, start as int)
                    == scan_string_body(s, start as int, self.cursor()),
            decreases s.len() - self.cursor(),
        {
            if self.pos >= self.input.len() {
                let t = Token::Illegal(self.input.len() - 1);
                self.pos = self.input.len();
                return t;
            }
            let b = self.input[self.pos];
            if b == 34 {
                let content = self.copy_range(start, self.pos);
                self.pos = self.pos + 1;
                return Token::String(content);
            }
            if b == 92 {
                if self.pos + 1 >= self.input.len() {
                    let t = Token::Illegal(self.input.len() - 1);
                    self.pos = self.input.len();
                    return t;
                }
                let e = self.input[self.pos + 1];
                if e == 34 || e == 92 || e == 47 || e == 98 || e == 102 || e == 110 || e == 114
                    || e == 116 {
                    self.pos = self.pos + 2;
                } else {
                    self.pos = self.pos + 1;
                    return Token::Illegal(self.pos);
                }
            } else {
                self.pos = self.pos + 1;
            }
        }
    }

    /// Scan a keyword: the maximal run of letters and digits, matched
    /// against `true`, `false` and `null`.
    fn consume_keyword(&mut self) -> (t: Token)
        requires
            old(self).wf(),
            old(self).cursor() < old(self).src().len(),
            is_alpha_byte(old(self).src()[old(self).cursor()]),
        ensures
            final(self).wf(),
            final(self).src() == old(self).src(),
            t@ == scan_keyword(old(self).src(), old(self).cursor()).0,
            final(self).cursor() == scan_keyword(old(self).src(), old(self).cursor()).1,
    {
        let ghost s = self.src();
        let start = self.pos;
        while self.pos < self.input.len() && (48 <= self.input[self.pos] && self.input[self.pos] <= 57
            || 65 <= self.input[self.pos] && self.input[self.pos] <= 90
            || 97 <= self.input[self.pos] && self.input[self.pos] <= 122)
            invariant
                self.src() == s,
                start <= self.cursor() <= s.len(),
                alnum_run_end(s, start as int) == alnum_run_end(s, self.cursor()),
            decreases s.len() - self.cursor(),
        {
            self.pos = self.pos + 1;
        }
        assert(alnum_run_end(s, start as int) == self.cursor());
        let lit = self.copy_range(start, self.pos);
        if lit.len() == 4 && lit[0] == 116 && lit[1] == 114 && lit[2] == 117 && lit[3] == 101 {
            proof {
                assert(lit@ =~= true_lit());
            }
            Token::True
        } else if lit.len() == 5 && lit[0] == 102 && lit[1] == 97 && lit[2] == 108 && lit[3] == 115
            && lit[4] == 101 {
            proof {
                assert(lit@ =~= false_lit());
            }
            Token::False
        } else if lit.len() == 4 && lit[0] == 110 && lit[1] == 117 && lit[2] == 108 && lit[3] == 108 {
            proof {
                assert(lit@ =~= null_lit());
            }
            Token::Null
        } else {
            proof {
                assert(lit@ != true_lit() && lit@ != false_lit() && lit@ != null_lit());
            }
            self.found_illegal()
        }
    }

    /// Scan one token: skip whitespace, then dispatch on the current byte.
    pub fn next_token(&mut self) -> (t: Token)
        requires
            old(self).wf(),
        ensures
            final(self).wf(),
            final(self).src() == old(self).src(),
            t@ == spec_next_token(old(self).src(), old(self).cursor()).0,
            final(self).cursor() == spec_next_token(old(self).src(), old(self).cursor()).1,
    {
        self.skip_whitespace();
        if self.pos >= self.input.len() {
            return Token::EndOfInput;
        }
        let b = self.input[self.pos];
        if 48 <= b && b <= 57 || b == 45 {
            self.consume_number()
        } else if b == 34 {
            self.consume_string()
        } else if b == 58 {
            self.read_char();
            Token::Colon
        } else if b == 44 {
            self.read_char();
            Token::Comma
        } else if b == 123 {
            self.read_char();
            Token::LeftBrace
        } else if b == 125 {
            self.read_char();
            Token::RightBrace
        } else if b == 91 {
            self.read_char();
            Token::LeftBracket
        } else if b == 93 {
            self.read_char();
            Token::RightBracket
        } else if 65 <= b && b <= 90 || 97 <= b && b <= 122 {
            self.consume_keyword()
        } else {
            let t = Token::Illegal(self.pos);
            self.read_char();
            t
        }
    }

    /// Scan the whole remaining input into its token sequence; the
    /// terminating end-of-input marker is not included.
    pub fn tokenize(&mut self) -> (tokens: Vec<Token>)
        requires
            old(self).wf(),
        ensures
            final(self).wf(),
            final(self).src() == old(self).src(),
            tokens@.map_values(|x: Token| x@)
                == spec_tokens_from(old(self).src(), old(self).cursor()),
    {
        let ghost s = self.src();
        let ghost c0 = self.cursor();
        let mut out: Vec<Token> = Vec::new();
        loop
            invariant_except_break
                self.wf(),
                self.src() == s,
                0 <= self.cursor() <= s.len(),
                spec_tokens_from(s, c0)
                    == out@.map_values(|x: Token| x@) + spec_tokens_from(s, self.cursor()),
            ensures
                final(self).wf(),
                final(self).src() == s,
                spec_tokens_from(s, c0) == out@.map_values(|x: Token| x@),
            decreases s.len() - self.cursor(),
        {
            let ghost c_before = self.cursor();
            proof {
                lemma_next_token_progress(s, c_before);
            }
            let t = self.next_token();
            if matches!(t, Token::EndOfInput) {
                proof {
                    assert(spec_tokens_from(s, c_before) =~= Seq::<TokenModel>::empty());
                    assert(spec_tokens_from(s, c0) =~= out@.map_values(|x: Token| x@));
                }
                break;
            }
            let ghost out_before = out@;
            out.push(t);
            proof {
                assert(spec_tokens_from(s, c_before)
                    == seq![t@] + spec_tokens_from(s, self.cursor()));
                assert(out@.map_values(|x: Token| x@)
                    =~= out_before.map_values(|x: Token| x@) + seq![t@]);
                assert(spec_tokens_from(s, c0)
                    =~= out@.map_values(|x: Token| x@) + spec_tokens_from(s, self.cursor()));
            }
        }
        out
    }

}

} // verus!
