//! An earlier, simpler scanner kept alongside the main tokenizer: it has no
//! notion of being inside a quoted string, its tokens carry no character
//! payload, and its position starts at line 1, column 1.
use vstd::prelude::*;

verus! {

/// One classified input character, without payload.
#[derive(Debug)]
pub enum Token {
    Quote,
    Digit,
    Dot,
    Comma,
    Colon,
    RightCurly,
    LeftCurly,
    RightBracket,
    LeftBracket,
    Char,
    NewLine,
    Whitespace,
    NotSupported,
}

/// A source position: the column is bumped before each character is
/// classified.
#[derive(Clone, Copy, Debug)]
pub struct Position {
    line: i32,
    col: i32,
}

impl Position {
    /// The line number, as a mathematical integer.
    pub closed spec fn line_spec(&self) -> int {
        self.line as int
    }

    /// The column number, as a mathematical integer.
    pub closed spec fn col_spec(&self) -> int {
        self.col as int
    }
}

/// The token this scanner produces for one character. The digit class covers
/// only 1 through 9 here, and a minus sign has no token of its own.
pub open spec fn classify(c: char) -> Token {
    if c == '"' {
        Token::Quote
    } else if c == ':' {
        Token::Colon
    } else if c == '{' {
        Token::LeftCurly
    } else if c == '}' {
        Token::RightCurly
    } else if c == '[' {
        Token::LeftBracket
    } else if c == ']' {
        Token::RightBracket
    } else if c == ',' {
        Token::Comma
    } else if c == '.' {
        Token::Dot
    } else if c == ' ' || c == '\t' {
        Token::Whitespace
    } else if c == '\n' {
        Token::NewLine
    } else if '1' <= c && c <= '9' {
        Token::Digit
    } else if crate::tokenize::is_letter(c) {
        Token::Char
    } else {
        Token::NotSupported
    }
}

/// How consuming one character moves the position.
pub open spec fn advance_pos(line: int, col: int, c: char) -> (int, int) {
    if c == '\n' {
        (line + 1, 1)
    } else {
        (line, col + 1)
    }
}

/// The whole scan: the token for each character in order, paired with the
/// position reached after consuming it, together with the final position.
pub open spec fn scan(text: Seq<char>, line: int, col: int) -> (
    Seq<(Token, Position)>,
    (int, int),
)
    decreases text.len(),
{
    if text.len() == 0 {
        (Seq::empty(), (line, col))
    } else {
        let (toks, p) = scan(text.drop_last(), line, col);
        let c = text.last();
        let (l2, c2) = advance_pos(p.0, p.1, c);
        (toks.push((classify(c), pos_at(l2, c2))), (l2, c2))
    }
}

/// The `Position` value for a line and column.
pub closed spec fn pos_at(line: int, col: int) -> Position {
    Position { line: line as i32, col: col as i32 }
}

/// Bounds on the position after a scan, used to rule out overflow.
pub proof fn lemma_scan_bounds(text: Seq<char>, line: int, col: int)
    requires
        1 <= line,
        0 <= col,
    ensures
        1 <= scan(text, line, col).1.0 <= line + text.len(),
        0 <= scan(text, line, col).1.1 <= col + text.len(),
    decreases text.len(),
{
    if text.len() > 0 {
        lemma_scan_bounds(text.drop_last(), line, col);
    }
}

/// The earlier scanner: a position being threaded over one document.
pub struct Tokenizer {
    pos: Position,
}

impl Default for Tokenizer {
    fn default() -> (r: Self)
        ensures
            r.pos_spec() == (1int, 1int),
    {
        Self::new()
    }
}

impl Tokenizer {
    /// The running position as a pair of mathematical integers.
    pub closed spec fn pos_spec(&self) -> (int, int) {
        (self.pos.line as int, self.pos.col as int)
    }

    pub fn new() -> (r: Self)
        ensures
            r.pos_spec() == (1int, 1int),
    {
        Self { pos: Position { line: 1, col: 1 } }
    }

    /// Map the characters in `file_contents` to JSON tokens, one per
    /// character. Tokenization never fails; the result is always `Ok`.
    pub fn tokenize(&mut self, file_contents: &str) -> (r: Result<
        Vec<(Token, Position)>,
        String,
    >)
        requires
            1 <= old(self).pos_spec().0,
            0 <= old(self).pos_spec().1,
            old(self).pos_spec().0 + file_contents@.len() <= i32::MAX,
            old(self).pos_spec().1 + file_contents@.len() <= i32::MAX,
        ensures
            r is Ok,
            r->Ok_0@ == scan(file_contents@, old(self).pos_spec().0, old(self).pos_spec().1).0,
            final(self).pos_spec() == scan(
                file_contents@,
                old(self).pos_spec().0,
                old(self).pos_spec().1,
            ).1,
    {
        let ghost l0 = self.pos_spec().0;
        let ghost c0 = self.pos_spec().1;
        let ghost text = file_contents@;
        let mut out: Vec<(Token, Position)> = Vec::new();
        let n = file_contents.unicode_len();
        let mut i: usize = 0;
        while i < n
            invariant
                n == text.len(),
                text == file_contents@,
                0 <= i <= n,
                1 <= l0,
                0 <= c0,
                l0 + n <= i32::MAX,
                c0 + n <= i32::MAX,
                out@ == scan(text.take(i as int), l0, c0).0,
                self.pos_spec() == scan(text.take(i as int), l0, c0).1,
            decreases n - i,
        {
            let c = file_contents.get_char(i);
            proof {
                lemma_scan_bounds(text.take(i as int), l0, c0);
                assert(text.take(i as int + 1).drop_last() =~= text.take(i as int));
                assert(text.take(i as int + 1).last() == c);
            }
            self.next_char();
            let token: Token;
            if c == '"' {
                token = Token::Quote;
            } else if c == ':' {
                token = Token::Colon;
            } else if c == '{' {
                token = Token::LeftCurly;
            } else if c == '}' {
                token = Token::RightCurly;
            } else if c == '[' {
                token = Token::LeftBracket;
            } else if c == ']' {
                token = Token::RightBracket;
            } else if c == ',' {
                token = Token::Comma;
            } else if c == '.' {
                token = Token::Dot;
            } else if c == ' ' || c == '\t' {
                token = Token::Whitespace;
            } else if c == '\n' {
                self.new_line();
                token = Token::NewLine;
            } else if '1' <= c && c <= '9' {
                token = Token::Digit;
            } else if ('a' <= c && c <= 'z') || ('A' <= c && c <= 'Z') {
                token = Token::Char;
            } else {
                token = Token::NotSupported;
            }
            out.push((token, self.pos));
            i = i + 1;
        }
        proof {
            assert(text.take(n as int) =~= text);
        }
        Ok(out)
    }

    fn new_line(&mut self)
        requires
            old(self).pos.line < i32::MAX,
        ensures
            final(self).pos.line == old(self).pos.line + 1,
            final(self).pos.col == 1,
    {
        self.pos.line = self.pos.line + 1;
        self.pos.col = 1;
    }

    fn next_char(&mut self)
        requires
            old(self).pos.col < i32::MAX,
        ensures
            final(self).pos.col == old(self).pos.col + 1,
            final(self).pos.line == old(self).pos.line,
    {
        self.pos.col = self.pos.col + 1;
    }
}

} // verus!
