//! Rendering of build and query errors as messages that point at the
//! offending token's line and column.
use vstd::prelude::*;

use crate::crawler::{
    byte_offset, chars_of, lemma_byte_offset_step, lemma_lexemes_in_range, lexemes, push_char,
    push_str, tokenize_with_spans, utf8_width,
};
use crate::expansion::{ExpansionBuildError, QueryError};

verus! {

/// The decimal digit for `d < 10`.
pub open spec fn digit(d: nat) -> char {
    if d == 0 { '0' } else if d == 1 { '1' } else if d == 2 { '2' } else if d == 3 { '3' }
    else if d == 4 { '4' } else if d == 5 { '5' } else if d == 6 { '6' } else if d == 7 { '7' }
    else if d == 8 { '8' } else { '9' }
}

/// The decimal representation of `n`, without leading zeros.
pub open spec fn decimal(n: nat) -> Seq<char>
    decreases n,
{
    if n < 10 {
        seq![digit(n)]
    } else {
        decimal(n / 10).push(digit(n % 10))
    }
}

/// `k` spaces.
pub open spec fn spaces(k: int) -> Seq<char> {
    Seq::new(k as nat, |i: int| ' ')
}

/// The number of line breaks before character index `p`.
pub open spec fn newlines_before(cs: Seq<char>, p: int) -> nat
    decreases p,
{
    if p <= 0 {
        0
    } else {
        newlines_before(cs, p - 1) + if cs[p - 1] == '\n' { 1nat } else { 0nat }
    }
}

/// The index where the line holding character index `p` starts.
pub open spec fn line_start(cs: Seq<char>, p: int) -> int
    decreases p,
{
    if p <= 0 {
        0
    } else if cs[p - 1] == '\n' {
        p
    } else {
        line_start(cs, p - 1)
    }
}

/// The index where the line holding character index `p` ends: its line
/// break, or the end of the text.
pub open spec fn line_end(cs: Seq<char>, p: int) -> int
    decreases cs.len() - p,
{
    if p < 0 || p >= cs.len() {
        cs.len() as int
    } else if cs[p] == '\n' {
        p
    } else {
        line_end(cs, p + 1)
    }
}

/// The character index of token `index` of `cs`, or the end of the text when
/// the tokens ended before it.
pub open spec fn token_position(cs: Seq<char>, index: int) -> int {
    if 0 <= index < lexemes(cs).len() {
        lexemes(cs)[index].start
    } else {
        cs.len() as int
    }
}

/// The message for an error of kind `kind` at character index `p` of `cs`:
/// the kind, the 1-based line and column, the line itself, and a caret under
/// the column.
pub open spec fn diagnostic(kind: Seq<char>, cs: Seq<char>, p: int) -> Seq<char> {
    let line = decimal(newlines_before(cs, p) + 1);
    let col = p - line_start(cs, p) + 1;
    "error: "@ + kind + "\n --> line "@ + line + ", column "@ + decimal(col as nat) + "\n"@ + line
        + " | "@ + cs.subrange(line_start(cs, p), line_end(cs, p)) + "\n"@ + spaces(
        line.len() as int,
    ) + " | "@ + spaces(col - 1) + "^"@
}

/// The name of a build error's kind.
pub open spec fn build_error_kind(e: ExpansionBuildError) -> Seq<char> {
    match e {
        ExpansionBuildError::MissingParentheses(_) => "missing parentheses"@,
        ExpansionBuildError::MissingDollar(_) => "missing dollar"@,
        ExpansionBuildError::MissingName(_) => "missing name"@,
        ExpansionBuildError::MissingClosingParentheses(_) => "missing closing parentheses"@,
        ExpansionBuildError::DuplicateParameter(_) => "duplicate parameter"@,
    }
}

/// The name of a query error's kind.
pub open spec fn query_error_kind(e: QueryError) -> Seq<char> {
    match e {
        QueryError::UnknownReference(_) => "unknown reference"@,
        QueryError::MissingParentheses(_) => "missing parentheses"@,
        QueryError::ArgumentCountMismatch(_) => "argument count mismatch"@,
        QueryError::UnbalancedBraces(_) => "unbalanced braces"@,
    }
}

proof fn lemma_byte_offset_increases(cs: Seq<char>, p: int, s: int)
    requires
        0 <= p < s <= cs.len(),
    ensures
        byte_offset(cs, p) < byte_offset(cs, s),
    decreases s - p,
{
    lemma_byte_offset_step(cs, p);
    if p + 1 < s {
        lemma_byte_offset_increases(cs, p + 1, s);
    }
}

fn digit_char(d: u128) -> (c: char)
    requires
        d < 10,
    ensures
        c == digit(d as nat),
{
    if d == 0 { '0' } else if d == 1 { '1' } else if d == 2 { '2' } else if d == 3 { '3' }
    else if d == 4 { '4' } else if d == 5 { '5' } else if d == 6 { '6' } else if d == 7 { '7' }
    else if d == 8 { '8' } else { '9' }
}

fn decimal_chars(n: u128) -> (r: Vec<char>)
    ensures
        r@ == decimal(n as nat),
    decreases n,
{
    let mut r = if n >= 10 {
        decimal_chars(n / 10)
    } else {
        Vec::new()
    };
    r.push(digit_char(n % 10));
    assert(n < 10 ==> r@ =~= seq![digit(n as nat)]);
    r
}

fn push_chars(s: &mut String, cs: &Vec<char>)
    ensures
        final(s)@ == old(s)@ + cs@,
{
    let ghost start = s@;
    let mut i: usize = 0;
    while i < cs.len()
        invariant
            i <= cs.len(),
            s@ == start + cs@.take(i as int),
        decreases cs.len() - i,
    {
        push_char(s, cs[i]);
        i = i + 1;
        assert(s@ =~= start + cs@.take(i as int));
    }
    assert(cs@.take(i as int) =~= cs@);
}

fn push_spaces(s: &mut String, k: usize)
    ensures
        final(s)@ == old(s)@ + spaces(k as int),
{
    let ghost start = s@;
    let mut i: usize = 0;
    while i < k
        invariant
            i <= k,
            s@ == start + spaces(i as int),
        decreases k - i,
    {
        push_char(s, ' ');
        i = i + 1;
        assert(s@ =~= start + spaces(i as int));
    }
}

/// The message for an error of kind `kind` at token `index` of `source`.
pub fn format_error(kind: &str, index: usize, source: &str) -> (r: String)
    ensures
        r@ == diagnostic(kind@, source@, token_position(source@, index as int)),
{
    let (_tokens, spans) = tokenize_with_spans(source);
    let cs = chars_of(source);
    let ghost g = source@;
    let n = cs.len();
    let total = source.as_bytes().len();
    // the byte offset of the offending token
    let target = if index < spans.len() {
        spans[index].start
    } else {
        total
    };
    let ghost pos = token_position(g, index as int);
    proof {
        assert(g.take(n as int) =~= g);
        if (index as int) < lexemes(g).len() {
            lemma_lexemes_in_range(g);
        }
    }
    // find the character index of `target`, counting lines on the way
    let mut p: usize = 0;
    let mut byte: usize = 0;
    let mut lines: usize = 0;
    let mut start: usize = 0;
    assert(g.take(0) =~= Seq::<char>::empty());
    while p < n && byte < target
        invariant
            cs@ == g,
            n == g.len(),
            0 <= pos <= n,
            target == byte_offset(g, pos),
            byte_offset(g, n as int) == total,
            p <= pos,
            byte == byte_offset(g, p as int),
            lines == newlines_before(g, p as int),
            lines <= p,
            start == line_start(g, p as int),
            start <= p,
        decreases n - p,
    {
        proof {
            lemma_byte_offset_step(g, p as int);
            if p as int == pos {
                assert(false);
            }
        }
        if cs[p] == '\n' {
            lines = lines + 1;
            start = p + 1;
        }
        byte = byte + utf8_width(cs[p]);
        p = p + 1;
    }
    proof {
        if (p as int) < pos {
            lemma_byte_offset_increases(g, p as int, pos);
        }
    }
    assert(p as int == pos);
    let mut end: usize = p;
    while end < n && cs[end] != '\n'
        invariant
            cs@ == g,
            n == g.len(),
            p <= end <= n,
            line_end(g, p as int) == line_end(g, end as int),
        decreases n - end,
    {
        end = end + 1;
    }
    let mut r = String::new();
    push_str(&mut r, "error: ");
    push_str(&mut r, kind);
    push_str(&mut r, "\n --> line ");
    let line = decimal_chars(lines as u128 + 1);
    push_chars(&mut r, &line);
    push_str(&mut r, ", column ");
    push_chars(&mut r, &decimal_chars((p - start) as u128 + 1));
    push_str(&mut r, "\n");
    push_chars(&mut r, &line);
    push_str(&mut r, " | ");
    let mut k: usize = start;
    let ghost mid = r@;
    while k < end
        invariant
            cs@ == g,
            n == g.len(),
            start <= k <= end <= n,
            r@ == mid + g.subrange(start as int, k as int),
        decreases end - k,
    {
        push_char(&mut r, cs[k]);
        k = k + 1;
        assert(r@ =~= mid + g.subrange(start as int, k as int));
    }
    push_str(&mut r, "\n");
    push_spaces(&mut r, line.len());
    push_str(&mut r, " | ");
    push_spaces(&mut r, p - start);
    push_str(&mut r, "^");
    r
}

impl ExpansionBuildError {
    /// The name of this error's kind.
    pub fn kind(&self) -> (r: &'static str)
        ensures
            r@ == build_error_kind(*self),
    {
        match self {
            ExpansionBuildError::MissingParentheses(_) => "missing parentheses",
            ExpansionBuildError::MissingDollar(_) => "missing dollar",
            ExpansionBuildError::MissingName(_) => "missing name",
            ExpansionBuildError::MissingClosingParentheses(_) => "missing closing parentheses",
            ExpansionBuildError::DuplicateParameter(_) => "duplicate parameter",
        }
    }

    /// The message for this error in the definition text `source`.
    pub fn format_diagnostic(&self, source: &str) -> (r: String)
        ensures
            r@ == diagnostic(
                build_error_kind(*self),
                source@,
                token_position(source@, self.spec_index() as int),
            ),
    {
        format_error(self.kind(), self.index(), source)
    }
}

impl QueryError {
    /// The name of this error's kind.
    pub fn kind(&self) -> (r: &'static str)
        ensures
            r@ == query_error_kind(*self),
    {
        match self {
            QueryError::UnknownReference(_) => "unknown reference",
            QueryError::MissingParentheses(_) => "missing parentheses",
            QueryError::ArgumentCountMismatch(_) => "argument count mismatch",
            QueryError::UnbalancedBraces(_) => "unbalanced braces",
        }
    }

    /// The message for this error in the query text `source`.
    pub fn format_diagnostic(&self, source: &str) -> (r: String)
        ensures
            r@ == diagnostic(
                query_error_kind(*self),
                source@,
                token_position(source@, self.spec_index() as int),
            ),
    {
        format_error(self.kind(), self.index(), source)
    }
}

} // verus!
