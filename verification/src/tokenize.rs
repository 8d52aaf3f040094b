//! The character-level tokenizer: one token per input character, each tagged
//! with the source position (line and column) at which it was produced.
use crate::text::int_str;
use crate::text::i32_to_string;
use crate::text::push_char;
use vstd::prelude::*;

verus! {

/// One classified input character.
#[derive(Debug, PartialEq, Clone, Copy)]
pub enum Token {
    Quote,
    Digit(char),
    Dot,
    Comma,
    Colon,
    Minus,
    RightCurly,
    LeftCurly,
    RightBracket,
    LeftBracket,
    Char(char),
    NewLine,
    Whitespace,
    NotSupported,
}

/// The printable name of a token, used when a syntax error reports what it
/// found. An unsupported character has no spelling of its own and is named
/// generically.
pub open spec fn token_disp(t: Token) -> Seq<char> {
    match t {
        Token::Quote => "\""@,
        Token::Digit(d) => seq!['\'', d, '\''],
        Token::Dot => "."@,
        Token::Comma => ","@,
        Token::Colon => ":"@,
        Token::Minus => "-"@,
        Token::RightCurly => "}"@,
        Token::LeftCurly => "{"@,
        Token::RightBracket => "]"@,
        Token::LeftBracket => "["@,
        Token::Char(c) => seq!['\'', c, '\''],
        Token::NewLine => "a newline"@,
        Token::Whitespace => "a whitespace"@,
        Token::NotSupported => "an unsupported character"@,
    }
}

impl Token {
    /// Whether this token carries a letter-class character.
    pub fn is_char(&self) -> (r: bool)
        ensures
            r == (self is Char),
    {
        match self {
            Token::Char(_) => true,
            _ => false,
        }
    }

    /// The printable name of this token.
    pub fn to_text(&self) -> (r: String)
        ensures
            r@ == token_disp(*self),
    {
        match self {
            Token::Quote => String::from_str("\""),
            Token::Digit(d) => {
                let mut s = String::new();
                push_char(&mut s, '\'');
                push_char(&mut s, *d);
                push_char(&mut s, '\'');
                proof {
                    assert(s@ =~= token_disp(*self));
                }
                s
            },
            Token::Dot => String::from_str("."),
            Token::Comma => String::from_str(","),
            Token::Colon => String::from_str(":"),
            Token::Minus => String::from_str("-"),
            Token::RightCurly => String::from_str("}"),
            Token::LeftCurly => String::from_str("{"),
            Token::RightBracket => String::from_str("]"),
            Token::LeftBracket => String::from_str("["),
            Token::Char(c) => {
                let mut s = String::new();
                push_char(&mut s, '\'');
                push_char(&mut s, *c);
                push_char(&mut s, '\'');
                proof {
                    assert(s@ =~= token_disp(*self));
                }
                s
            },
            Token::NewLine => String::from_str("a newline"),
            Token::Whitespace => String::from_str("a whitespace"),
            Token::NotSupported => String::from_str("an unsupported character"),
        }
    }
}

/// A source position: lines count from 1; the column is bumped before each
/// character is classified.
#[derive(Clone, Copy, Debug)]
pub struct Position {
    line: i32,
    col: i32,
}

impl Position {
    /// The line number, as a mathematical integer.
    pub closed spec fn line_spec(&self) -> int {
        self.line as int
    }

    /// The column number, as a mathematical integer.
    pub closed spec fn col_spec(&self) -> int {
        self.col as int
    }

    /// The rendering of this position inside an error report.
    pub fn to_text(&self) -> (r: String)
        ensures
            r@ == pos_str(*self),
    {
        let mut s = String::from_str("line ");
        let l = i32_to_string(self.line);
        s.append(l.as_str());
        s.append(" column ");
        let c = i32_to_string(self.col);
        s.append(c.as_str());
        proof {
            assert(s@ =~= pos_str(*self));
        }
        s
    }
}

/// How a position prints inside an error report: its line and column numbers
/// in decimal.
pub open spec fn pos_str(p: Position) -> Seq<char> {
    "line "@ + int_str(p.line_spec()) + " column "@ + int_str(p.col_spec())
}

/// The scanning state the tokenizer threads through the input: the running
/// position and whether the scan is currently inside a quoted string.
pub struct ScanState {
    pub line: int,
    pub col: int,
    pub in_string: bool,
}

/// Whether `c` is a decimal digit.
pub open spec fn is_digit(c: char) -> bool {
    '0' <= c && c <= '9'
}

/// Whether `c` is an ASCII letter.
pub open spec fn is_letter(c: char) -> bool {
    ('a' <= c && c <= 'z') || ('A' <= c && c <= 'Z')
}

/// How consuming one character moves the position: one column to the right,
/// except that a newline starts the next line at column 1.
pub open spec fn advance_pos(st: ScanState, c: char) -> ScanState {
    if c == '\n' {
        ScanState { line: st.line + 1, col: 1, in_string: st.in_string }
    } else {
        ScanState { line: st.line, col: st.col + 1, in_string: st.in_string }
    }
}

/// The token produced for `c`. Inside a quoted string every character except
/// a newline or a quote counts as string content, spaces included; outside,
/// characters are classified into the JSON punctuation, digits, letters,
/// whitespace, or the unsupported marker.
pub open spec fn classify(c: char, in_string: bool) -> Token {
    if in_string {
        if c == '\n' {
            Token::NewLine
        } else if c == '"' {
            Token::Quote
        } else {
            Token::Char(c)
        }
    } else {
        if c == '"' {
            Token::Quote
        } else if c == ':' {
            Token::Colon
        } else if c == '-' {
            Token::Minus
        } else if c == '{' {
            Token::LeftCurly
        } else if c == '}' {
            Token::RightCurly
        } else if c == '[' {
            Token::LeftBracket
        } else if c == ']' {
            Token::RightBracket
        } else if c == ',' {
            Token::Comma
        } else if c == '.' {
            Token::Dot
        } else if c == ' ' || c == '\t' {
            Token::Whitespace
        } else if c == '\n' {
            Token::NewLine
        } else if is_digit(c) {
            Token::Digit(c)
        } else if is_letter(c) {
            Token::Char(c)
        } else {
            Token::NotSupported
        }
    }
}

/// The scan state after one character: the position advances and a quote
/// toggles the in-string flag.
pub open spec fn scan_step(st: ScanState, c: char) -> ScanState {
    let moved = advance_pos(st, c);
    if c == '"' {
        ScanState { in_string: !st.in_string, ..moved }
    } else {
        moved
    }
}

/// The position a token is recorded with: the state reached after its
/// character was consumed.
pub closed spec fn pos_of(st: ScanState) -> Position {
    Position { line: st.line as i32, col: st.col as i32 }
}

/// The whole scan: the token for each character in order, each paired with
/// the position after consuming it, together with the final scan state.
pub open spec fn scan(text: Seq<char>, st: ScanState) -> (Seq<(Token, Position)>, ScanState)
    decreases text.len(),
{
    if text.len() == 0 {
        (Seq::empty(), st)
    } else {
        let (toks, st1) = scan(text.drop_last(), st);
        let c = text.last();
        let st2 = scan_step(st1, c);
        (toks.push((classify(c, st1.in_string), pos_of(st2))), st2)
    }
}

/// After scanning, the line has grown by at most one per character and the
/// column is at most the starting column plus the number of characters; both
/// stay at least 1 and 0 respectively.
pub proof fn lemma_scan_bounds(text: Seq<char>, st: ScanState)
    requires
        1 <= st.line,
        0 <= st.col,
    ensures
        1 <= scan(text, st).1.line <= st.line + text.len(),
        0 <= scan(text, st).1.col <= st.col + text.len(),
    decreases text.len(),
{
    if text.len() > 0 {
        lemma_scan_bounds(text.drop_last(), st);
    }
}

/// The tokenizer: a scanner owning the running position. One instance is
/// meant to scan one document, starting from line 1, column 0.
pub struct Tokenizer {
    pos: Position,
}

impl Default for Tokenizer {
    fn default() -> (r: Self)
        ensures
            r.state(false) == (ScanState { line: 1int, col: 0int, in_string: false }),
    {
        Self::new()
    }
}

impl Tokenizer {
    /// The running position as a scan state with the given in-string flag.
    pub closed spec fn state(&self, in_string: bool) -> ScanState {
        ScanState { line: self.pos.line as int, col: self.pos.col as int, in_string }
    }

    pub fn new() -> (r: Self)
        ensures
            r.state(false) == (ScanState { line: 1int, col: 0int, in_string: false }),
    {
        Self { pos: Position { line: 1, col: 0 } }
    }

    /// Map the characters in `file_contents` to JSON tokens, one per
    /// character. Tokenization never fails; the result is always `Ok`.
    pub fn tokenize(&mut self, file_contents: &str) -> (r: Result<
        Vec<(Token, Position)>,
        String,
    >)
        requires
            1 <= old(self).state(false).line,
            0 <= old(self).state(false).col,
            old(self).state(false).line + file_contents@.len() <= i32::MAX,
            old(self).state(false).col + file_contents@.len() <= i32::MAX,
        ensures
            r is Ok,
            r->Ok_0@ == scan(file_contents@, old(self).state(false)).0,
            final(self).state(scan(file_contents@, old(self).state(false)).1.in_string)
                == scan(file_contents@, old(self).state(false)).1,
    {
        let ghost st0 = self.state(false);
        let ghost text = file_contents@;
        let mut in_string = false;
        let mut out: Vec<(Token, Position)> = Vec::new();
        let n = file_contents.unicode_len();
        let mut i: usize = 0;
        while i < n
            invariant
                n == text.len(),
                text == file_contents@,
                0 <= i <= n,
                1 <= st0.line,
                0 <= st0.col,
                st0.line + n <= i32::MAX,
                st0.col + n <= i32::MAX,
                out@ == scan(text.take(i as int), st0).0,
                self.state(in_string) == scan(text.take(i as int), st0).1,
            decreases n - i,
        {
            let c = file_contents.get_char(i);
            let ghost pre = self.state(in_string);
            proof {
                lemma_scan_bounds(text.take(i as int), st0);
                assert(text.take(i as int + 1).drop_last() =~= text.take(i as int));
                assert(text.take(i as int + 1).last() == c);
            }
            self.next_char();
            if in_string {
                if c == '\n' {
                    self.new_line();
                    out.push((Token::NewLine, self.pos));
                } else if c == '"' {
                    in_string = false;
                    out.push((Token::Quote, self.pos));
                } else {
                    out.push((Token::Char(c), self.pos));
                }
            } else {
                let token: Token;
                if c == '"' {
                    in_string = true;
                    token = Token::Quote;
                } else if c == ':' {
                    token = Token::Colon;
                } else if c == '-' {
                    token = Token::Minus;
                } else if c == '{' {
                    token = Token::LeftCurly;
                } else if c == '}' {
                    token = Token::RightCurly;
                } else if c == '[' {
                    token = Token::LeftBracket;
                } else if c == ']' {
                    token = Token::RightBracket;
                } else if c == ',' {
                    token = Token::Comma;
                } else if c == '.' {
                    token = Token::Dot;
                } else if c == ' ' || c == '\t' {
                    token = Token::Whitespace;
                } else if c == '\n' {
                    self.new_line();
                    token = Token::NewLine;
                } else if '0' <= c && c <= '9' {
                    token = Token::Digit(c);
                } else if ('a' <= c && c <= 'z') || ('A' <= c && c <= 'Z') {
                    token = Token::Char(c);
                } else {
                    token = Token::NotSupported;
                }
                out.push((token, self.pos));
            }
            proof {
                assert(self.state(in_string) == scan_step(pre, c));
                assert(out@.last().0 == classify(c, pre.in_string));
            }
            i = i + 1;
        }
        proof {
            assert(text.take(n as int) =~= text);
        }
        Ok(out)
    }

    fn new_line(&mut self)
        requires
            old(self).pos.line < i32::MAX,
        ensures
            final(self).pos.line == old(self).pos.line + 1,
            final(self).pos.col == 1,
    {
        self.pos.line = self.pos.line + 1;
        self.pos.col = 1;
    }

    fn next_char(&mut self)
        requires
            old(self).pos.col < i32::MAX,
        ensures
            final(self).pos.col == old(self).pos.col + 1,
            final(self).pos.line == old(self).pos.line,
    {
        self.pos.col = self.pos.col + 1;
    }
}

} // verus!
