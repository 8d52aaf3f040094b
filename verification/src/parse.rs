//! The recursive-descent parser: it consumes the token sequence the
//! tokenizer produced and builds a tree of JSON values, or reports the first
//! grammar violation together with its source position.
use crate::tokenize::pos_str;
use crate::tokenize::token_disp;
use crate::tokenize::Position;
use crate::tokenize::Token;
use vstd::prelude::*;

verus! {

broadcast use vstd::std_specs::vec::axiom_vec_index_decreases;

/// The mathematical model of a parsed JSON tree. Object members and array
/// elements are sequences; strings are character sequences; a numeric value
/// with a decimal point is kept as the exact text it was spelled with.
pub enum JsonTree {
    Object(Seq<JsonTree>),
    KeyedObject(Seq<char>, Box<JsonTree>),
    Float(Seq<char>),
    Int(int),
    Str(Seq<char>),
    Bool(bool),
    Arr(Seq<JsonTree>),
    Empty,
}

/// A parsed JSON value.
///
/// An object is an ordered sequence of `KeyedObject` members; duplicate keys
/// are preserved in source order, never merged. An empty object is the
/// distinct `Empty` sentinel. There is no null variant: a `null` literal in
/// the input is rejected as an unexpected token. A number that was spelled
/// with a decimal point is carried as its source text in `Float`, validated
/// to be a well-formed decimal; turning it into a machine float is left to
/// the embedding application.
#[derive(Debug)]
pub enum JsonValue {
    Object(Vec<JsonValue>),
    KeyedObject(String, Box<JsonValue>),
    Float(String),
    Int(i64),
    Str(String),
    Bool(bool),
    Arr(Vec<JsonValue>),
    Empty,
}

impl JsonValue {
    /// The mathematical tree this value represents.
    pub open spec fn view(&self) -> JsonTree
        decreases self,
    {
        match self {
            JsonValue::Object(v) => JsonTree::Object(
                Seq::new(
                    v.len() as nat,
                    |i: int|
                        if 0 <= i < v.len() {
                            v[i].view()
                        } else {
                            JsonTree::Empty
                        },
                ),
            ),
            JsonValue::KeyedObject(k, b) => JsonTree::KeyedObject(k@, Box::new((**b).view())),
            JsonValue::Float(t) => JsonTree::Float(t@),
            JsonValue::Int(n) => JsonTree::Int(*n as int),
            JsonValue::Str(s) => JsonTree::Str(s@),
            JsonValue::Bool(b) => JsonTree::Bool(*b),
            JsonValue::Arr(v) => JsonTree::Arr(
                Seq::new(
                    v.len() as nat,
                    |i: int|
                        if 0 <= i < v.len() {
                            v[i].view()
                        } else {
                            JsonTree::Empty
                        },
                ),
            ),
            JsonValue::Empty => JsonTree::Empty,
        }
    }
}

impl JsonValue {
    /// Whether two values represent the same tree: same variants, equal
    /// keys, texts and numbers, and equal children element by element.
    pub fn deep_eq(&self, other: &JsonValue) -> (r: bool)
        ensures
            r == (self.view() == other.view()),
        decreases self,
    {
        match (self, other) {
            (JsonValue::Object(x), JsonValue::Object(y)) => {
                proof {
                    assert(self.view() matches JsonTree::Object(s) && s =~= views_of(x@));
                    assert(other.view() matches JsonTree::Object(s) && s =~= views_of(y@));
                }
                seq_deep_eq(x, y)
            },
            (JsonValue::KeyedObject(k1, b1), JsonValue::KeyedObject(k2, b2)) => {
                let keys = *k1 == *k2;
                let vals = (**b1).deep_eq(&**b2);
                proof {
                    if keys && vals {
                        assert(self.view() == other.view());
                    }
                }
                keys && vals
            },
            (JsonValue::Float(t1), JsonValue::Float(t2)) => *t1 == *t2,
            (JsonValue::Int(n1), JsonValue::Int(n2)) => *n1 == *n2,
            (JsonValue::Str(s1), JsonValue::Str(s2)) => *s1 == *s2,
            (JsonValue::Bool(b1), JsonValue::Bool(b2)) => *b1 == *b2,
            (JsonValue::Arr(x), JsonValue::Arr(y)) => {
                proof {
                    assert(self.view() matches JsonTree::Arr(s) && s =~= views_of(x@));
                    assert(other.view() matches JsonTree::Arr(s) && s =~= views_of(y@));
                }
                seq_deep_eq(x, y)
            },
            (JsonValue::Empty, JsonValue::Empty) => true,
            _ => false,
        }
    }
}

/// Whether two sequences of values represent the same trees, element by
/// element.
fn seq_deep_eq(x: &Vec<JsonValue>, y: &Vec<JsonValue>) -> (r: bool)
    ensures
        r == (views_of(x@) == views_of(y@)),
    decreases x,
{
    if x.len() != y.len() {
        proof {
            assert(views_of(x@).len() != views_of(y@).len());
        }
        return false;
    }
    let n = x.len();
    let mut i: usize = 0;
    while i < n
        invariant
            n == x@.len() == y@.len(),
            0 <= i <= n,
            forall|k: int| 0 <= k < i ==> views_of(x@)[k] == views_of(y@)[k],
        decreases n - i,
    {
        if !x[i].deep_eq(&y[i]) {
            proof {
                assert(views_of(x@)[i as int] != views_of(y@)[i as int]);
            }
            return false;
        }
        i = i + 1;
    }
    proof {
        assert(views_of(x@) =~= views_of(y@));
    }
    true
}

/// A positioned parse failure; the carried string is the full report,
/// `"Syntax error: <what> at line <L> column <C>"`, or its end-of-file form.
pub struct SyntaxError(pub String);

/// The report used whenever the token sequence ran out.
pub open spec fn eof_msg() -> Seq<char> {
    "Syntax error: unexpected end of file"@
}

/// The report for a failure described by `msg` while the cursor stands at
/// `i`: positioned at the token there, or the end-of-file form when the
/// sequence is exhausted.
#[verifier::opaque]
pub open spec fn err_msg(toks: Seq<(Token, Position)>, i: int, msg: Seq<char>) -> Seq<char> {
    if i >= toks.len() {
        eof_msg()
    } else {
        "Syntax error: "@ + msg + " at "@ + pos_str(toks[i].1)
    }
}

/// Relaxed token equality: any two digit tokens match, any two letter tokens
/// match, everything else must be equal.
pub open spec fn tok_match(exp: Token, got: Token) -> bool {
    match (exp, got) {
        (Token::Char(_), Token::Char(_)) => true,
        (Token::Digit(_), Token::Digit(_)) => true,
        _ => exp == got,
    }
}

/// Whether some token of `exp` matches `got` under the relaxed equality.
pub open spec fn match_any(exp: Seq<Token>, got: Token) -> bool {
    exists|k: int| 0 <= k < exp.len() && tok_match(exp[k], got)
}

/// The printable names of the tokens of `exp`, joined with commas.
#[verifier::opaque]
pub open spec fn disp_join(exp: Seq<Token>) -> Seq<char>
    decreases exp.len(),
{
    if exp.len() == 0 {
        Seq::empty()
    } else if exp.len() == 1 {
        token_disp(exp[0])
    } else {
        disp_join(exp.drop_last()) + ", "@ + token_disp(exp.last())
    }
}

/// What checking the cursor against an expected token set yields: nothing on
/// a match, the end-of-file report past the end, and otherwise a report
/// naming the expected set and the found token.
pub open spec fn s_assert(toks: Seq<(Token, Position)>, i: int, exp: Seq<Token>) -> Result<
    (),
    Seq<char>,
> {
    if i >= toks.len() {
        Err(eof_msg())
    } else if match_any(exp, toks[i].0) {
        Ok(())
    } else {
        Err(err_msg(toks, i, "expected "@ + disp_join(exp) + " but got "@ + token_disp(toks[i].0)))
    }
}

/// What reading the cursor yields: the token pair there, or the end-of-file
/// report.
pub open spec fn s_current(toks: Seq<(Token, Position)>, i: int) -> Result<
    (Token, Position),
    Seq<char>,
> {
    if i >= toks.len() {
        Err(eof_msg())
    } else {
        Ok(toks[i])
    }
}

/// The token sequence with structural whitespace and newlines removed, as
/// the parser sees it.
pub open spec fn s_strip(toks: Seq<(Token, Position)>) -> Seq<(Token, Position)>
    decreases toks.len(),
{
    if toks.len() == 0 {
        Seq::empty()
    } else {
        let rest = s_strip(toks.drop_last());
        match toks.last().0 {
            Token::Whitespace => rest,
            Token::NewLine => rest,
            _ => rest.push(toks.last()),
        }
    }
}

/// The run of letter tokens starting at `i`, appended to `acc`, and the
/// index of the first token past the run.
pub open spec fn s_chars(toks: Seq<(Token, Position)>, i: int, acc: Seq<char>) -> (Seq<char>, int)
    decreases toks.len() - i,
{
    if i < 0 || i >= toks.len() {
        (acc, i)
    } else {
        match toks[i].0 {
            Token::Char(c) => s_chars(toks, i + 1, acc.push(c)),
            _ => (acc, i),
        }
    }
}

/// The run of digit, minus and decimal-point tokens starting at `i`, spelled
/// out and appended to `acc`, and the index of the first token past the run.
pub open spec fn s_digits(toks: Seq<(Token, Position)>, i: int, acc: Seq<char>) -> (Seq<char>, int)
    decreases toks.len() - i,
{
    if i < 0 || i >= toks.len() {
        (acc, i)
    } else {
        match toks[i].0 {
            Token::Digit(c) => s_digits(toks, i + 1, acc.push(c)),
            Token::Minus => s_digits(toks, i + 1, acc.push('-')),
            Token::Dot => s_digits(toks, i + 1, acc.push('.')),
            _ => (acc, i),
        }
    }
}

/// What parsing a number yields: the run of digit, minus and decimal-point
/// tokens is collected; with a decimal point it must be a well-formed
/// decimal literal and is kept as text, without one it must spell a 64-bit
/// signed integer.
pub open spec fn s_number(toks: Seq<(Token, Position)>, i: int) -> Parsed<JsonTree> {
    let (text, j) = s_digits(toks, i, Seq::empty());
    if has_dot(text) {
        if float_text_ok(text) {
            Parsed { val: Ok(JsonTree::Float(text)), next: j }
        } else {
            Parsed { val: Err(err_msg(toks, j, "failed to parse float"@)), next: j }
        }
    } else {
        if i64_text_ok(text) {
            Parsed { val: Ok(JsonTree::Int(int_text_value(text))), next: j }
        } else {
            Parsed { val: Err(err_msg(toks, j, "failed to parse integer"@)), next: j }
        }
    }
}

/// What parsing a boolean yields: the run of letter tokens must spell
/// exactly `true` or `false`.
pub open spec fn s_bool(toks: Seq<(Token, Position)>, i: int) -> Parsed<JsonTree> {
    let (text, j) = s_chars(toks, i, Seq::empty());
    if text == "true"@ {
        Parsed { val: Ok(JsonTree::Bool(true)), next: j }
    } else if text == "false"@ {
        Parsed { val: Ok(JsonTree::Bool(false)), next: j }
    } else {
        Parsed { val: Err(err_msg(toks, j, "failed to parse boolean"@)), next: j }
    }
}

/// What parsing a string literal yields: an opening quote, the letter run
/// as the body, a closing quote.
pub open spec fn s_string(toks: Seq<(Token, Position)>, i: int) -> Parsed<JsonTree> {
    match s_assert(toks, i, seq![Token::Quote]) {
        Err(m) => Parsed { val: Err(m), next: i },
        Ok(_) => {
            let (text, j) = s_chars(toks, i + 1, Seq::empty());
            match s_assert(toks, j, seq![Token::Quote]) {
                Err(m) => Parsed { val: Err(m), next: j },
                Ok(_) => Parsed { val: Ok(JsonTree::Str(text)), next: j + 1 },
            }
        },
    }
}

/// What parsing a member key yields: an optional leading comma is skipped,
/// then a quoted letter run is read.
pub open spec fn s_key(toks: Seq<(Token, Position)>, i: int) -> Parsed<Seq<char>> {
    let i1 = if s_assert(toks, i, seq![Token::Comma]) is Ok {
        i + 1
    } else {
        i
    };
    match s_assert(toks, i1, seq![Token::Quote]) {
        Err(m) => Parsed { val: Err(m), next: i1 },
        Ok(_) => {
            let (text, j) = s_chars(toks, i1 + 1, Seq::empty());
            match s_assert(toks, j, seq![Token::Quote]) {
                Err(m) => Parsed { val: Err(m), next: j },
                Ok(_) => Parsed { val: Ok(text), next: j + 1 },
            }
        },
    }
}

/// The trees of a sequence of parsed values, element by element.
pub open spec fn views_of(v: Seq<JsonValue>) -> Seq<JsonTree> {
    v.map_values(|x: JsonValue| x.view())
}

/// Collecting letters never moves the cursor backwards, and it appends one
/// character per consumed token.
pub proof fn lemma_s_chars_gain(toks: Seq<(Token, Position)>, i: int, acc: Seq<char>)
    ensures
        s_chars(toks, i, acc).1 >= i,
        s_chars(toks, i, acc).0.len() - acc.len() == s_chars(toks, i, acc).1 - i,
        i <= toks.len() ==> s_chars(toks, i, acc).1 <= toks.len(),
    decreases toks.len() - i,
{
    if !(i < 0 || i >= toks.len()) {
        match toks[i].0 {
            Token::Char(c) => {
                lemma_s_chars_gain(toks, i + 1, acc.push(c));
            },
            _ => {},
        }
    }
}

/// Collecting digit-run tokens never moves the cursor backwards, and it
/// appends one character per consumed token.
pub proof fn lemma_s_digits_gain(toks: Seq<(Token, Position)>, i: int, acc: Seq<char>)
    ensures
        s_digits(toks, i, acc).1 >= i,
        s_digits(toks, i, acc).0.len() - acc.len() == s_digits(toks, i, acc).1 - i,
        i <= toks.len() ==> s_digits(toks, i, acc).1 <= toks.len(),
    decreases toks.len() - i,
{
    if !(i < 0 || i >= toks.len()) {
        match toks[i].0 {
            Token::Digit(c) => {
                lemma_s_digits_gain(toks, i + 1, acc.push(c));
            },
            Token::Minus => {
                lemma_s_digits_gain(toks, i + 1, acc.push('-'));
            },
            Token::Dot => {
                lemma_s_digits_gain(toks, i + 1, acc.push('.'));
            },
            _ => {},
        }
    }
}

/// Reading a key never moves the cursor backwards.
pub proof fn lemma_s_key_next(toks: Seq<(Token, Position)>, i: int)
    ensures
        s_key(toks, i).next >= i,
    decreases toks.len() - i,
{
    let i1 = if s_assert(toks, i, seq![Token::Comma]) is Ok {
        i + 1
    } else {
        i
    };
    lemma_s_chars_gain(toks, i1 + 1, Seq::empty());
}

/// What parsing one keyed member yields: a key, a colon, then one value
/// dispatched on the next token.
pub open spec fn s_keyed(toks: Seq<(Token, Position)>, i: int) -> Parsed<JsonTree>
    decreases toks.len() - i, 0int,
    via s_keyed_dec
{
    let k = s_key(toks, i);
    match k.val {
        Err(m) => Parsed { val: Err(m), next: k.next },
        Ok(key) => match s_assert(toks, k.next, seq![Token::Colon]) {
            Err(m) => Parsed { val: Err(m), next: k.next },
            Ok(_) => {
                let i2 = k.next + 1;
                match s_current(toks, i2) {
                    Err(m) => Parsed { val: Err(m), next: i2 },
                    Ok(tp) => {
                        let v = match tp.0 {
                            Token::LeftCurly => s_object(toks, i2),
                            Token::Quote => s_string(toks, i2),
                            Token::Char(c) => if c == 't' || c == 'f' {
                                s_bool(toks, i2)
                            } else {
                                Parsed {
                                    val: Err(
                                        err_msg(
                                            toks,
                                            i2,
                                            "unexpected token while parsing object"@,
                                        ),
                                    ),
                                    next: i2,
                                }
                            },
                            Token::Digit(_) => s_number(toks, i2),
                            Token::Minus => s_number(toks, i2),
                            Token::LeftBracket => s_array(toks, i2),
                            _ => Parsed {
                                val: Err(
                                    err_msg(toks, i2, "unexpected token while parsing object"@),
                                ),
                                next: i2,
                            },
                        };
                        match v.val {
                            Err(m) => Parsed { val: Err(m), next: v.next },
                            Ok(tree) => Parsed {
                                val: Ok(JsonTree::KeyedObject(key, Box::new(tree))),
                                next: v.next,
                            },
                        }
                    },
                }
            },
        },
    }
}

#[via_fn]
proof fn s_keyed_dec(toks: Seq<(Token, Position)>, i: int) {
    lemma_s_key_next(toks, i);
}

/// What the member loop of an object yields, starting from `acc`: members
/// are read until a closing brace or bracket stands at the cursor, and a
/// separating comma in member position ends the loop early. After each
/// member the cursor is advanced once, except on the very last token.
/// The stand-still guards on the recursion keep it well-founded; a member
/// always consumes at least one token, so their other branches are never
/// taken.
pub open spec fn s_members(toks: Seq<(Token, Position)>, i: int, acc: Seq<JsonTree>) -> Parsed<
    Seq<JsonTree>,
>
    decreases toks.len() - i, 1int,
{
    if s_assert(toks, i, seq![Token::RightCurly, Token::RightBracket]) is Ok {
        Parsed { val: Ok(acc), next: i }
    } else {
        match s_assert(toks, i, seq![Token::Quote, Token::Comma]) {
            Err(m) => Parsed { val: Err(m), next: i },
            Ok(_) => {
                if toks[i].0 is Comma {
                    Parsed { val: Ok(acc), next: i }
                } else {
                    let kv = s_keyed(toks, i);
                    if kv.next == toks.len() - 1 {
                        match kv.val {
                            Err(m) => Parsed { val: Err(m), next: kv.next },
                            Ok(tree) => if i < kv.next {
                                s_members(toks, kv.next, acc.push(tree))
                            } else {
                                Parsed { val: Ok(acc.push(tree)), next: kv.next }
                            },
                        }
                    } else if kv.next >= toks.len() {
                        Parsed { val: Err(eof_msg()), next: kv.next }
                    } else {
                        match kv.val {
                            Err(m) => Parsed { val: Err(m), next: kv.next + 1 },
                            Ok(tree) => if i < kv.next + 1 {
                                s_members(toks, kv.next + 1, acc.push(tree))
                            } else {
                                Parsed { val: Ok(acc.push(tree)), next: kv.next + 1 }
                            },
                        }
                    }
                }
            },
        }
    }
}

/// What parsing an object yields: an opening brace; a lone closing brace
/// gives the empty sentinel, and so does a member loop that collected
/// nothing; otherwise the members in source order. The closing token itself
/// is left to the member loop's stop condition and is not consumed.
pub open spec fn s_object(toks: Seq<(Token, Position)>, i: int) -> Parsed<JsonTree>
    decreases toks.len() - i, 1int,
{
    match s_assert(toks, i, seq![Token::LeftCurly]) {
        Err(m) => Parsed { val: Err(m), next: i },
        Ok(_) => {
            let i1 = i + 1;
            if s_assert(toks, i1, seq![Token::RightCurly]) is Ok {
                Parsed { val: Ok(JsonTree::Empty), next: i1 + 1 }
            } else {
                let m = s_members(toks, i1, Seq::empty());
                match m.val {
                    Err(msg) => Parsed { val: Err(msg), next: m.next },
                    Ok(items) => Parsed {
                        val: Ok(
                            if items.len() == 0 {
                                JsonTree::Empty
                            } else {
                                JsonTree::Object(items)
                            },
                        ),
                        next: m.next,
                    },
                }
            }
        },
    }
}

/// What the element loop of an array yields, starting from `acc`: while the
/// cursor does not stand on a closing bracket, the cursor advances once and
/// one value is read, dispatched on the token there. On success the cursor
/// stands on the closing bracket. The stand-still guard on the recursion
/// keeps it well-founded; a value always consumes at least one token, so
/// its other branch is never taken.
pub open spec fn s_items(toks: Seq<(Token, Position)>, i: int, acc: Seq<JsonTree>) -> Parsed<
    Seq<JsonTree>,
>
    decreases toks.len() - i, 0int,
{
    match s_current(toks, i) {
        Err(m) => Parsed { val: Err(m), next: i },
        Ok(tp) => {
            if tp.0 is RightBracket {
                Parsed { val: Ok(acc), next: i }
            } else {
                match s_current(toks, i + 1) {
                    Err(m) => Parsed { val: Err(m), next: i + 1 },
                    Ok(tp2) => {
                        if tp2.0 is RightBracket {
                            Parsed { val: Ok(acc), next: i + 1 }
                        } else {
                            let v = match tp2.0 {
                                Token::LeftCurly => s_object(toks, i + 1),
                                Token::Quote => s_string(toks, i + 1),
                                Token::Char(c) => if c == 't' || c == 'f' {
                                    s_bool(toks, i + 1)
                                } else {
                                    Parsed {
                                        val: Err(
                                            err_msg(
                                                toks,
                                                i + 1,
                                                "unexpected token while parsing array"@,
                                            ),
                                        ),
                                        next: i + 1,
                                    }
                                },
                                Token::Digit(_) => s_number(toks, i + 1),
                                Token::Minus => s_number(toks, i + 1),
                                Token::LeftBracket => s_array(toks, i + 1),
                                _ => Parsed {
                                    val: Err(
                                        err_msg(toks, i + 1, "unexpected token while parsing array"@),
                                    ),
                                    next: i + 1,
                                },
                            };
                            match v.val {
                                Err(m) => Parsed { val: Err(m), next: v.next },
                                Ok(tree) => if i < v.next && v.next <= toks.len() {
                                    s_items(toks, v.next, acc.push(tree))
                                } else {
                                    Parsed { val: Ok(acc.push(tree)), next: v.next }
                                },
                            }
                        }
                    },
                }
            }
        },
    }
}

/// What parsing an array yields: the element loop runs until it stands on
/// the closing bracket, which is then consumed; the elements are kept in
/// source order, and an empty array is a real array with no elements.
pub open spec fn s_array(toks: Seq<(Token, Position)>, i: int) -> Parsed<JsonTree>
    decreases toks.len() - i, 1int,
{
    let it = s_items(toks, i, Seq::empty());
    match it.val {
        Err(m) => Parsed { val: Err(m), next: it.next },
        Ok(items) => {
            if it.next >= toks.len() {
                Parsed { val: Err(eof_msg()), next: it.next }
            } else {
                Parsed { val: Ok(JsonTree::Arr(items)), next: it.next + 1 }
            }
        },
    }
}

/// What parsing a whole document yields: only an object or an array may
/// stand at the root.
pub open spec fn s_doc(toks: Seq<(Token, Position)>, i: int) -> Parsed<JsonTree>
    decreases toks.len() - i, 2int,
{
    match s_current(toks, i) {
        Err(m) => Parsed { val: Err(m), next: i },
        Ok(tp) => match tp.0 {
            Token::LeftBracket => s_array(toks, i),
            Token::LeftCurly => s_object(toks, i),
            _ => Parsed { val: Err(err_msg(toks, i, "invalid JSON document"@)), next: i },
        },
    }
}

/// Parsing is pure: what the modelled parser yields is a function of the
/// token sequence and the starting index alone, so two document parses over
/// the same tokens yield the same tree, or the same report.
pub proof fn lemma_parse_deterministic(
    toks: Seq<(Token, Position)>,
    i: int,
    r1: Parsed<JsonTree>,
    r2: Parsed<JsonTree>,
)
    requires
        r1 == s_doc(s_strip(toks), i),
        r2 == s_doc(s_strip(toks), i),
    ensures
        r1 == r2,
{
}

/// One step of the member-loop induction: what holds of the loop's result
/// from `acc.push(tree)` onwards holds of the same result seen from `acc`.
proof fn lemma_extend_step(
    toks: Seq<(Token, Position)>,
    i: int,
    j: int,
    acc: Seq<JsonTree>,
    tree: JsonTree,
)
    requires
        tree is KeyedObject,
        s_members(toks, i, acc) == s_members(toks, j, acc.push(tree)),
        s_members(toks, j, acc.push(tree)).val is Ok,
        s_members(toks, j, acc.push(tree)).val->Ok_0.len() >= acc.push(tree).len(),
        forall|k: int|
            0 <= k < acc.push(tree).len() ==> s_members(toks, j, acc.push(tree)).val->Ok_0[k]
                == acc.push(tree)[k],
        forall|k: int|
            acc.push(tree).len() <= k < s_members(toks, j, acc.push(tree)).val->Ok_0.len()
                ==> s_members(toks, j, acc.push(tree)).val->Ok_0[k] is KeyedObject,
    ensures
        s_members(toks, i, acc).val->Ok_0.len() >= acc.len(),
        forall|k: int|
            0 <= k < acc.len() ==> s_members(toks, i, acc).val->Ok_0[k] == acc[k],
        forall|k: int|
            acc.len() <= k < s_members(toks, i, acc).val->Ok_0.len() ==> s_members(
                toks,
                i,
                acc,
            ).val->Ok_0[k] is KeyedObject,
{
    let items = s_members(toks, j, acc.push(tree)).val->Ok_0;
    assert forall|k: int| 0 <= k < acc.len() implies items[k] == acc[k] by {
        assert(items[k] == acc.push(tree)[k]);
    }
    assert forall|k: int| acc.len() <= k < items.len() implies items[k] is KeyedObject by {
        if k == acc.len() {
            assert(items[k] == acc.push(tree)[k]);
            assert(acc.push(tree)[acc.len() as int] == tree);
        }
    }
}

/// The member loop only appends: on success it returns what it started
/// from, extended in source order with one `KeyedObject` node per member
/// read. A member with a duplicate key is appended like any other, never
/// merged or dropped.
pub proof fn lemma_members_extend(toks: Seq<(Token, Position)>, i: int, acc: Seq<JsonTree>)
    requires
        s_members(toks, i, acc).val is Ok,
    ensures
        s_members(toks, i, acc).val->Ok_0.len() >= acc.len(),
        forall|k: int|
            0 <= k < acc.len() ==> s_members(toks, i, acc).val->Ok_0[k] == acc[k],
        forall|k: int|
            acc.len() <= k < s_members(toks, i, acc).val->Ok_0.len() ==> s_members(
                toks,
                i,
                acc,
            ).val->Ok_0[k] is KeyedObject,
    decreases toks.len() - i, 1int,
{
    if s_assert(toks, i, seq![Token::RightCurly, Token::RightBracket]) is Ok {
    } else {
        match s_assert(toks, i, seq![Token::Quote, Token::Comma]) {
            Err(_) => {},
            Ok(_) => {
                if toks[i].0 is Comma {
                } else {
                    let kv = s_keyed(toks, i);
                    if kv.next == toks.len() - 1 {
                        match kv.val {
                            Err(_) => {},
                            Ok(tree) => {
                                assert(tree is KeyedObject);
                                if i < kv.next {
                                    lemma_members_extend(toks, kv.next, acc.push(tree));
                                    lemma_extend_step(toks, i, kv.next, acc, tree);
                                }
                            },
                        }
                    } else if kv.next >= toks.len() {
                    } else {
                        match kv.val {
                            Err(_) => {},
                            Ok(tree) => {
                                assert(tree is KeyedObject);
                                if i < kv.next + 1 {
                                    lemma_members_extend(toks, kv.next + 1, acc.push(tree));
                                    lemma_extend_step(toks, i, kv.next + 1, acc, tree);
                                }
                            },
                        }
                    }
                }
            },
        }
    }
}

/// What a successful object parse yields is the empty sentinel, or a
/// non-empty `Object` whose elements are exactly the keyed members read, in
/// source order.
pub proof fn lemma_object_members(toks: Seq<(Token, Position)>, i: int)
    requires
        s_object(toks, i).val is Ok,
    ensures
        s_object(toks, i).val->Ok_0 is Empty || (s_object(toks, i).val->Ok_0 matches
            JsonTree::Object(items) && items.len() > 0 && forall|k: int|
            0 <= k < items.len() ==> items[k] is KeyedObject),
{
    if s_assert(toks, i, seq![Token::LeftCurly]) is Ok {
        if !(s_assert(toks, i + 1, seq![Token::RightCurly]) is Ok) {
            if s_members(toks, i + 1, Seq::empty()).val is Ok {
                lemma_members_extend(toks, i + 1, Seq::empty());
            }
        }
    }
}

/// Whether `toks` spells an object literal with the members `ms`, one
/// letter per key and one digit per value: `{"k":d,"k":d,...,"k":d}`,
/// with the members in the order of `ms`.
pub open spec fn object_literal_shape(toks: Seq<(Token, Position)>, ms: Seq<(char, char)>) -> bool {
    toks.len() == 6 * ms.len() + 1 && ms.len() >= 1 && toks[0].0 == Token::LeftCurly && toks[6 * (
    ms.len() as int)].0 == Token::RightCurly && (forall|j: int|
        #![trigger ms[j]]
        0 <= j < ms.len() ==> toks[1 + 6 * j].0 == Token::Quote && toks[2 + 6 * j].0
            == Token::Char(ms[j].0) && toks[3 + 6 * j].0 == Token::Quote && toks[4 + 6 * j].0
            == Token::Colon && toks[5 + 6 * j].0 == Token::Digit(ms[j].1)
            && crate::tokenize::is_digit(ms[j].1) && crate::tokenize::is_letter(ms[j].0)) && (
    forall|j: int| 0 <= j < ms.len() - 1 ==> #[trigger] toks[6 + 6 * j].0 == Token::Comma)
}

/// The member trees such a literal denotes, from member `j` on.
pub open spec fn literal_trees(ms: Seq<(char, char)>, j: int) -> Seq<JsonTree> {
    Seq::new(
        (ms.len() - j) as nat,
        |t: int|
            JsonTree::KeyedObject(
                seq![ms[j + t].0],
                Box::new(JsonTree::Int(ms[j + t].1 as int - '0' as int)),
            ),
    )
}

/// Checking the cursor against a one-token set succeeds exactly when that
/// token matches.
proof fn lemma_assert_one(toks: Seq<(Token, Position)>, i: int, t: Token)
    requires
        0 <= i < toks.len(),
    ensures
        (s_assert(toks, i, seq![t]) is Ok) == tok_match(t, toks[i].0),
{
    if tok_match(t, toks[i].0) {
        assert(tok_match(seq![t][0], toks[i].0));
    } else {
        assert forall|k: int| 0 <= k < seq![t].len() implies !tok_match(
            seq![t][k],
            toks[i].0,
        ) by {
            assert(seq![t][k] == t);
        }
    }
}

/// Checking the cursor against a two-token set succeeds exactly when one of
/// the two matches.
proof fn lemma_assert_two(toks: Seq<(Token, Position)>, i: int, t1: Token, t2: Token)
    requires
        0 <= i < toks.len(),
    ensures
        (s_assert(toks, i, seq![t1, t2]) is Ok) == (tok_match(t1, toks[i].0) || tok_match(
            t2,
            toks[i].0,
        )),
{
    if tok_match(t1, toks[i].0) {
        assert(tok_match(seq![t1, t2][0], toks[i].0));
    } else if tok_match(t2, toks[i].0) {
        assert(tok_match(seq![t1, t2][1], toks[i].0));
    } else {
        assert forall|k: int| 0 <= k < seq![t1, t2].len() implies !tok_match(
            seq![t1, t2][k],
            toks[i].0,
        ) by {
            assert(k == 0 || k == 1);
        }
    }
}

/// The tokens an object literal holds at its `j`-th member, spelled out.
proof fn lemma_shape_at(toks: Seq<(Token, Position)>, ms: Seq<(char, char)>, j: int)
    requires
        object_literal_shape(toks, ms),
        0 <= j < ms.len(),
    ensures
        toks[1 + 6 * j].0 == Token::Quote,
        toks[2 + 6 * j].0 == Token::Char(ms[j].0),
        toks[3 + 6 * j].0 == Token::Quote,
        toks[4 + 6 * j].0 == Token::Colon,
        toks[5 + 6 * j].0 == Token::Digit(ms[j].1),
        crate::tokenize::is_digit(ms[j].1),
        j < ms.len() - 1 ==> toks[6 + 6 * j].0 == Token::Comma,
{
    let m = ms[j];
    if j < ms.len() - 1 {
        let m2 = ms[j + 1];
    }
}

/// One member of an object literal reads as its keyed tree, and the cursor
/// lands on the separating comma, or on the closing brace for the last one.
proof fn lemma_literal_member(toks: Seq<(Token, Position)>, ms: Seq<(char, char)>, j: int)
    requires
        object_literal_shape(toks, ms),
        0 <= j < ms.len(),
    ensures
        s_keyed(toks, 1 + 6 * j) == (Parsed {
            val: Ok::<_, Seq<char>>(
                JsonTree::KeyedObject(
                    seq![ms[j].0],
                    Box::new(JsonTree::Int(ms[j].1 as int - '0' as int)),
                ),
            ),
            next: 6 + 6 * j,
        }),
{
    let i = 1 + 6 * j;
    lemma_shape_at(toks, ms, j);
    lemma_assert_one(toks, i, Token::Comma);
    lemma_assert_one(toks, i, Token::Quote);
    lemma_assert_one(toks, 3 + 6 * j, Token::Quote);
    lemma_assert_one(toks, 4 + 6 * j, Token::Colon);
    assert(s_assert(toks, i, seq![Token::Comma]) is Err);
    assert(s_chars(toks, 2 + 6 * j, Seq::empty()) == (seq![ms[j].0], 3 + 6 * j)) by {
        assert(s_chars(toks, 3 + 6 * j, seq![ms[j].0]) == (seq![ms[j].0], 3 + 6 * j));
        assert(Seq::<char>::empty().push(ms[j].0) =~= seq![ms[j].0]);
    }
    assert(s_key(toks, i) == (Parsed {
        val: Ok::<_, Seq<char>>(seq![ms[j].0]),
        next: 4 + 6 * j,
    }));
    let d = ms[j].1;
    if j == ms.len() - 1 {
        assert(6 + 6 * j == 6 * (ms.len() as int));
    }
    assert(s_digits(toks, 5 + 6 * j, Seq::empty()) == (seq![d], 6 + 6 * j)) by {
        assert(s_digits(toks, 6 + 6 * j, seq![d]) == (seq![d], 6 + 6 * j));
        assert(Seq::<char>::empty().push(d) =~= seq![d]);
    }
    assert(!has_dot(seq![d]));
    assert(i64_text_ok(seq![d]) && int_text_value(seq![d]) == d as int - '0' as int) by {
        assert(all_digits(seq![d]));
        assert(seq![d].drop_last() =~= Seq::<char>::empty());
        assert(digits_value(seq![d]) == d as int - '0' as int);
    }
    assert(s_number(toks, 5 + 6 * j) == (Parsed {
        val: Ok::<_, Seq<char>>(JsonTree::Int(d as int - '0' as int)),
        next: 6 + 6 * j,
    }));
}

/// The member loop over an object literal reads exactly its remaining
/// members, in order, and stops on the closing brace.
proof fn lemma_literal_members_loop(
    toks: Seq<(Token, Position)>,
    ms: Seq<(char, char)>,
    j: int,
    acc: Seq<JsonTree>,
)
    requires
        object_literal_shape(toks, ms),
        0 <= j < ms.len(),
    ensures
        s_members(toks, 1 + 6 * j, acc) == (Parsed {
            val: Ok::<_, Seq<char>>(acc + literal_trees(ms, j)),
            next: 6 * (ms.len() as int),
        }),
    decreases ms.len() - j,
{
    let i = 1 + 6 * j;
    let n = ms.len() as int;
    lemma_shape_at(toks, ms, j);
    lemma_assert_two(toks, i, Token::RightCurly, Token::RightBracket);
    lemma_assert_two(toks, i, Token::Quote, Token::Comma);
    assert(s_assert(toks, i, seq![Token::RightCurly, Token::RightBracket]) is Err);
    lemma_literal_member(toks, ms, j);
    let tree = JsonTree::KeyedObject(
        seq![ms[j].0],
        Box::new(JsonTree::Int(ms[j].1 as int - '0' as int)),
    );
    if j == n - 1 {
        assert(6 + 6 * j == 6 * n == toks.len() - 1);
        lemma_assert_two(toks, 6 * n, Token::RightCurly, Token::RightBracket);
        assert(s_members(toks, 6 * n, acc.push(tree)) == (Parsed {
            val: Ok::<_, Seq<char>>(acc.push(tree)),
            next: 6 * n,
        }));
        assert(acc.push(tree) =~= acc + literal_trees(ms, j));
    } else {
        assert(6 + 6 * j < toks.len() - 1);
        lemma_literal_members_loop(toks, ms, j + 1, acc.push(tree));
        assert(1 + 6 * (j + 1) == 6 + 6 * j + 1);
        assert(acc.push(tree) + literal_trees(ms, j + 1) =~= acc + literal_trees(ms, j));
    }
}

/// An object literal with `n` keyed members parses to an `Object` holding
/// exactly `n` `KeyedObject` entries, in source order; a member whose key
/// repeats an earlier one keeps its own entry.
pub proof fn lemma_object_literal_roundtrip(toks: Seq<(Token, Position)>, ms: Seq<(char, char)>)
    requires
        object_literal_shape(toks, ms),
    ensures
        s_object(toks, 0).val == Ok::<_, Seq<char>>(JsonTree::Object(literal_trees(ms, 0))),
        literal_trees(ms, 0).len() == ms.len(),
        forall|j: int|
            0 <= j < ms.len() ==> literal_trees(ms, 0)[j] == JsonTree::KeyedObject(
                seq![ms[j].0],
                Box::new(JsonTree::Int(ms[j].1 as int - '0' as int)),
            ),
{
    assert(toks[0].0 == Token::LeftCurly);
    lemma_shape_at(toks, ms, 0);
    lemma_assert_one(toks, 0, Token::LeftCurly);
    lemma_assert_one(toks, 1, Token::RightCurly);
    assert(!(s_assert(toks, 1, seq![Token::RightCurly]) is Ok));
    lemma_literal_members_loop(toks, ms, 0, Seq::empty());
    assert(Seq::<JsonTree>::empty() + literal_trees(ms, 0) =~= literal_trees(ms, 0));
}

/// The parser: it owns the filtered token sequence and a single monotonic
/// read index into it.
#[derive(Clone, Debug)]
pub struct Parser {
    tokens: Vec<(Token, Position)>,
    idx: usize,
}

impl Parser {
    /// The owned token sequence.
    pub closed spec fn toks(&self) -> Seq<(Token, Position)> {
        self.tokens@
    }

    /// The read index.
    pub closed spec fn at(&self) -> int {
        self.idx as int
    }

    pub fn new(tokens: Vec<(Token, Position)>) -> (r: Self)
        ensures
            r.toks() == tokens@,
            r.at() == 0,
    {
        Parser { tokens, idx: 0 }
    }

    /// Whether the read index is past the last token.
    fn end_of_tokens(&self) -> (r: bool)
        ensures
            r == (self.toks().len() <= self.at()),
    {
        self.tokens.len() <= self.idx
    }

    /// Whether the read index stands exactly on the last token.
    fn last_token(&self) -> (r: bool)
        requires
            self.toks().len() >= 1,
        ensures
            r == (self.toks().len() - 1 == self.at()),
    {
        self.tokens.len() - 1 == self.idx
    }

    /// Build the positioned report for `msg`, at the current token or in the
    /// end-of-file form.
    fn err(&self, msg: &str) -> (r: SyntaxError)
        ensures
            r.0@ == err_msg(self.toks(), self.at(), msg@),
            self.at() >= self.toks().len() ==> r.0@ == eof_msg(),
    {
        proof {
            reveal(err_msg);
        }
        if self.end_of_tokens() {
            SyntaxError(String::from_str("Syntax error: unexpected end of file"))
        } else {
            let (_, pos) = self.tokens[self.idx];
            let mut s = String::from_str("Syntax error: ");
            s.append(msg);
            s.append(" at ");
            let p = pos.to_text();
            s.append(p.as_str());
            proof {
                assert(s@ =~= err_msg(self.toks(), self.at(), msg@));
            }
            SyntaxError(s)
        }
    }

    /// Get the current token, or the end-of-file error.
    fn current_token(&self) -> (r: Result<(Token, Position), SyntaxError>)
        ensures
            match s_current(self.toks(), self.at()) {
                Ok(tp) => r is Ok && r->Ok_0 == tp,
                Err(m) => r is Err && r->Err_0.0@ == m,
            },
    {
        if self.end_of_tokens() {
            Err(self.err("unexpected end of file"))
        } else {
            Ok(self.tokens[self.idx])
        }
    }

    /// Consume the current token; past the end this fails with the
    /// end-of-file error.
    fn next_token(&mut self) -> (r: Result<(), SyntaxError>)
        ensures
            final(self).toks() == old(self).toks(),
            old(self).at() >= old(self).toks().len() ==> r is Err && r->Err_0.0@ == eof_msg()
                && final(self).at() == old(self).at(),
            old(self).at() < old(self).toks().len() ==> r is Ok && final(self).at() == old(
                self,
            ).at() + 1,
    {
        if self.end_of_tokens() {
            Err(self.err("unterminated"))
        } else {
            let _bound = self.tokens.len();
            self.idx = self.idx + 1;
            Ok(())
        }
    }

    /// Check the current token against an expected set under the relaxed
    /// token equality; on a mismatch, report the expected set and what was
    /// found.
    fn assert_current(&self, expected: &[Token]) -> (r: Result<(), SyntaxError>)
        ensures
            match s_assert(self.toks(), self.at(), expected@) {
                Ok(_) => r is Ok,
                Err(m) => r is Err && r->Err_0.0@ == m,
            },
    {
        proof {
            reveal(disp_join);
        }
        let curr = match self.current_token() {
            Ok(c) => c,
            Err(e) => {
                return Err(e);
            },
        };
        let n = expected.len();
        let mut k: usize = 0;
        while k < n
            invariant
                n == expected@.len(),
                0 <= k <= n,
                self.at() < self.toks().len(),
                curr == self.toks()[self.at()],
                forall|j: int| 0 <= j < k ==> !tok_match(expected@[j], curr.0),
            decreases n - k,
        {
            if token_matches(&expected[k], &curr.0) {
                proof {
                    assert(tok_match(expected@[k as int], curr.0));
                }
                return Ok(());
            }
            k = k + 1;
        }
        proof {
            assert(!match_any(expected@, curr.0));
        }
        let mut list = String::new();
        let mut k2: usize = 0;
        while k2 < n
            invariant
                n == expected@.len(),
                0 <= k2 <= n,
                list@ == disp_join(expected@.take(k2 as int)),
            decreases n - k2,
        {
            if k2 > 0 {
                list.append(", ");
            }
            let t = expected[k2].to_text();
            list.append(t.as_str());
            proof {
                reveal(disp_join);
                assert(expected@.take(k2 as int + 1).drop_last() =~= expected@.take(k2 as int));
                assert(expected@.take(k2 as int + 1).last() == expected@[k2 as int]);
                assert(list@ =~= disp_join(expected@.take(k2 as int + 1)));
            }
            k2 = k2 + 1;
        }
        let mut m = String::from_str("expected ");
        m.append(list.as_str());
        m.append(" but got ");
        let g = curr.0.to_text();
        m.append(g.as_str());
        proof {
            assert(expected@.take(n as int) =~= expected@);
            assert(m@ =~= "expected "@ + disp_join(expected@) + " but got "@ + token_disp(curr.0));
        }
        Err(self.err(m.as_str()))
    }

    /// Consume the run of letter tokens at the cursor and spell it out.
    fn chars_to_string(&mut self) -> (r: String)
        ensures
            final(self).toks() == old(self).toks(),
            (r@, final(self).at()) == s_chars(old(self).toks(), old(self).at(), Seq::empty()),
            final(self).at() >= old(self).at(),
    {
        let ghost toks = self.toks();
        let ghost i0 = self.at();
        let n = self.tokens.len();
        let mut s = String::new();
        loop
            invariant
                n == toks.len(),
                self.toks() == toks,
                i0 <= self.at(),
                s_chars(toks, self.at(), s@) == s_chars(toks, i0, Seq::<char>::empty()),
            ensures
                i0 <= self.at(),
                self.toks() == toks,
                (s@, self.at()) == s_chars(toks, i0, Seq::<char>::empty()),
            decreases toks.len() - self.at(),
        {
            if n <= self.idx {
                break ;
            }
            let (t, _) = self.tokens[self.idx];
            match t {
                Token::Char(c) => {
                    crate::text::push_char(&mut s, c);
                    self.idx = self.idx + 1;
                },
                _ => {
                    break ;
                },
            }
        }
        s
    }

    /// Consume the run of digit, minus and decimal-point tokens at the
    /// cursor and spell it out.
    fn digits_to_string(&mut self) -> (r: String)
        ensures
            final(self).toks() == old(self).toks(),
            (r@, final(self).at()) == s_digits(old(self).toks(), old(self).at(), Seq::empty()),
            final(self).at() >= old(self).at(),
    {
        let ghost toks = self.toks();
        let ghost i0 = self.at();
        let n = self.tokens.len();
        let mut s = String::new();
        loop
            invariant
                n == toks.len(),
                self.toks() == toks,
                i0 <= self.at(),
                s_digits(toks, self.at(), s@) == s_digits(toks, i0, Seq::<char>::empty()),
            ensures
                i0 <= self.at(),
                self.toks() == toks,
                (s@, self.at()) == s_digits(toks, i0, Seq::<char>::empty()),
            decreases toks.len() - self.at(),
        {
            if n <= self.idx {
                break ;
            }
            let (t, _) = self.tokens[self.idx];
            match t {
                Token::Digit(c) => {
                    crate::text::push_char(&mut s, c);
                    self.idx = self.idx + 1;
                },
                Token::Minus => {
                    crate::text::push_char(&mut s, '-');
                    self.idx = self.idx + 1;
                },
                Token::Dot => {
                    crate::text::push_char(&mut s, '.');
                    self.idx = self.idx + 1;
                },
                _ => {
                    break ;
                },
            }
        }
        s
    }

    /// Parse a number, yielding an integer value, or the validated source
    /// text of a decimal literal.
    fn parse_number(&mut self) -> (r: Result<JsonValue, SyntaxError>)
        requires
            old(self).at() <= old(self).toks().len(),
        ensures
            final(self).toks() == old(self).toks(),
            final(self).at() == s_number(old(self).toks(), old(self).at()).next,
            final(self).at() >= old(self).at(),
            final(self).at() <= old(self).toks().len(),
            r is Ok ==> final(self).at() > old(self).at(),
            res_matches(r, s_number(old(self).toks(), old(self).at()).val),
    {
        proof {
            lemma_s_digits_gain(old(self).toks(), old(self).at(), Seq::empty());
        }
        let num = self.digits_to_string();
        if contains_dot(num.as_str()) {
            if float_text_valid(num.as_str()) {
                Ok(JsonValue::Float(num))
            } else {
                Err(self.err("failed to parse float"))
            }
        } else {
            match parse_i64(num.as_str()) {
                Some(v) => Ok(JsonValue::Int(v)),
                None => Err(self.err("failed to parse integer")),
            }
        }
    }

    /// Parse a boolean: the letter run must spell `true` or `false`.
    fn parse_bool(&mut self) -> (r: Result<JsonValue, SyntaxError>)
        requires
            old(self).at() <= old(self).toks().len(),
        ensures
            final(self).toks() == old(self).toks(),
            final(self).at() == s_bool(old(self).toks(), old(self).at()).next,
            final(self).at() >= old(self).at(),
            final(self).at() <= old(self).toks().len(),
            r is Ok ==> final(self).at() > old(self).at(),
            res_matches(r, s_bool(old(self).toks(), old(self).at()).val),
    {
        proof {
            lemma_s_chars_gain(old(self).toks(), old(self).at(), Seq::empty());
            reveal_strlit("true");
            reveal_strlit("false");
        }
        let s = self.chars_to_string();
        if s == String::from_str("true") {
            Ok(JsonValue::Bool(true))
        } else if s == String::from_str("false") {
            Ok(JsonValue::Bool(false))
        } else {
            Err(self.err("failed to parse boolean"))
        }
    }

    /// Parse a quoted string literal; the quotes are consumed and stripped.
    fn parse_string_literal(&mut self) -> (r: Result<JsonValue, SyntaxError>)
        requires
            old(self).at() <= old(self).toks().len(),
        ensures
            final(self).toks() == old(self).toks(),
            final(self).at() == s_string(old(self).toks(), old(self).at()).next,
            final(self).at() >= old(self).at(),
            final(self).at() <= old(self).toks().len(),
            r is Ok ==> final(self).at() > old(self).at(),
            res_matches(r, s_string(old(self).toks(), old(self).at()).val),
    {
        proof {
            lemma_s_chars_gain(old(self).toks(), old(self).at() + 1, Seq::empty());
        }
        let exp_quote = [Token::Quote];
        proof {
            assert(exp_quote@ =~= seq![Token::Quote]);
        }
        match self.assert_current(&exp_quote) {
            Ok(_) => {},
            Err(e) => {
                return Err(e);
            },
        }
        match self.next_token() {
            Ok(_) => {},
            Err(e) => {
                return Err(e);
            },
        }
        let s = self.chars_to_string();
        match self.assert_current(&exp_quote) {
            Ok(_) => {},
            Err(e) => {
                return Err(e);
            },
        }
        match self.next_token() {
            Ok(_) => {},
            Err(e) => {
                return Err(e);
            },
        }
        Ok(JsonValue::Str(s))
    }

    /// Parse a member key: an optional leading comma, then a quoted letter
    /// run. The cursor is left on the token after the closing quote.
    fn parse_key(&mut self) -> (r: Result<String, SyntaxError>)
        requires
            old(self).at() <= old(self).toks().len(),
        ensures
            final(self).toks() == old(self).toks(),
            final(self).at() == s_key(old(self).toks(), old(self).at()).next,
            final(self).at() >= old(self).at(),
            final(self).at() <= old(self).toks().len(),
            match r {
                Ok(k) => s_key(old(self).toks(), old(self).at()).val == Ok::<_, Seq<char>>(k@),
                Err(e) => s_key(old(self).toks(), old(self).at()).val matches Err(m) && e.0@ == m,
            },
    {
        let exp_comma = [Token::Comma];
        let exp_quote = [Token::Quote];
        proof {
            assert(exp_comma@ =~= seq![Token::Comma]);
            assert(exp_quote@ =~= seq![Token::Quote]);
        }
        let lead = self.assert_current(&exp_comma);
        if lead.is_ok() {
            match self.next_token() {
                Ok(_) => {},
                Err(e) => {
                    return Err(e);
                },
            }
        }
        match self.assert_current(&exp_quote) {
            Ok(_) => {},
            Err(e) => {
                return Err(e);
            },
        }
        match self.next_token() {
            Ok(_) => {},
            Err(e) => {
                return Err(e);
            },
        }
        proof {
            lemma_s_chars_gain(self.toks(), self.at(), Seq::empty());
        }
        let key = self.chars_to_string();
        match self.assert_current(&exp_quote) {
            Ok(_) => {},
            Err(e) => {
                return Err(e);
            },
        }
        match self.next_token() {
            Ok(_) => {},
            Err(e) => {
                return Err(e);
            },
        }
        Ok(key)
    }

    /// Parse one keyed member, `"key": value`, dispatching on the token
    /// after the colon.
    fn parse_keyed_object(&mut self) -> (r: Result<JsonValue, SyntaxError>)
        requires
            old(self).at() <= old(self).toks().len(),
        ensures
            final(self).toks() == old(self).toks(),
            final(self).at() == s_keyed(old(self).toks(), old(self).at()).next,
            final(self).at() >= old(self).at(),
            final(self).at() <= old(self).toks().len(),
            r is Ok ==> final(self).at() > old(self).at(),
            res_matches(r, s_keyed(old(self).toks(), old(self).at()).val),
        decreases self.toks().len() - self.at(), 0int,
    {
        let key = match self.parse_key() {
            Ok(k) => k,
            Err(e) => {
                return Err(e);
            },
        };
        let exp_colon = [Token::Colon];
        proof {
            assert(exp_colon@ =~= seq![Token::Colon]);
        }
        match self.assert_current(&exp_colon) {
            Ok(_) => {},
            Err(e) => {
                return Err(e);
            },
        }
        match self.next_token() {
            Ok(_) => {},
            Err(e) => {
                return Err(e);
            },
        }
        let (next_tok, _) = match self.current_token() {
            Ok(tp) => tp,
            Err(e) => {
                return Err(e);
            },
        };
        let json = match next_tok {
            Token::LeftCurly => self.parse_object(),
            Token::Quote => self.parse_string_literal(),
            Token::Char(c) => if c == 't' || c == 'f' {
                self.parse_bool()
            } else {
                Err(self.err("unexpected token while parsing object"))
            },
            Token::Digit(_) => self.parse_number(),
            Token::Minus => self.parse_number(),
            Token::LeftBracket => self.parse_array(),
            _ => Err(self.err("unexpected token while parsing object")),
        };
        match json {
            Ok(v) => Ok(JsonValue::KeyedObject(key, Box::new(v))),
            Err(e) => Err(e),
        }
    }

    /// Parse a literal object: `{}` is the empty sentinel, otherwise keyed
    /// members are collected until a closing brace or bracket stands at the
    /// cursor, or a separating comma ends the member loop.
    #[verifier::rlimit(100)]
    fn parse_object(&mut self) -> (r: Result<JsonValue, SyntaxError>)
        requires
            old(self).at() <= old(self).toks().len(),
        ensures
            final(self).toks() == old(self).toks(),
            final(self).at() == s_object(old(self).toks(), old(self).at()).next,
            final(self).at() >= old(self).at(),
            final(self).at() <= old(self).toks().len(),
            r is Ok ==> final(self).at() > old(self).at(),
            res_matches(r, s_object(old(self).toks(), old(self).at()).val),
        decreases self.toks().len() - self.at(), 1int,
    {
        let ghost toks = self.toks();
        let ghost i0 = self.at();
        let exp_open = [Token::LeftCurly];
        let exp_close = [Token::RightCurly];
        let exp_stop = [Token::RightCurly, Token::RightBracket];
        let exp_member = [Token::Quote, Token::Comma];
        proof {
            assert(exp_open@ =~= seq![Token::LeftCurly]);
            assert(exp_close@ =~= seq![Token::RightCurly]);
            assert(exp_stop@ =~= seq![Token::RightCurly, Token::RightBracket]);
            assert(exp_member@ =~= seq![Token::Quote, Token::Comma]);
        }
        match self.assert_current(&exp_open) {
            Ok(_) => {},
            Err(e) => {
                return Err(e);
            },
        }
        match self.next_token() {
            Ok(_) => {},
            Err(e) => {
                return Err(e);
            },
        }
        let empty_chk = self.assert_current(&exp_close);
        if empty_chk.is_ok() {
            match self.next_token() {
                Ok(_) => {},
                Err(e) => {
                    return Err(e);
                },
            }
            return Ok(JsonValue::Empty);
        }
        let ghost i1 = self.at();
        let mut objs: Vec<JsonValue> = Vec::new();
        proof {
            assert(views_of(objs@) =~= Seq::<JsonTree>::empty());
        }
        loop
            invariant
                toks == old(self).toks(),
                i0 == old(self).at(),
                exp_stop@ =~= seq![Token::RightCurly, Token::RightBracket],
                exp_member@ =~= seq![Token::Quote, Token::Comma],
                self.toks() == toks,
                toks.len() >= 1,
                s_assert(toks, i0, seq![Token::LeftCurly]) is Ok,
                !(s_assert(toks, i1, seq![Token::RightCurly]) is Ok),
                i1 == i0 + 1,
                i0 < i1 <= self.at() <= toks.len(),
                s_members(toks, i1, Seq::empty()) == s_members(
                    toks,
                    self.at(),
                    views_of(objs@),
                ),
            ensures
                self.toks() == toks,
                i1 <= self.at() <= toks.len(),
                s_members(toks, i1, Seq::empty()) == (Parsed {
                    val: Ok::<_, Seq<char>>(views_of(objs@)),
                    next: self.at(),
                }),
            decreases toks.len() - self.at(), 1int,
        {
            let chk = self.assert_current(&exp_stop);
            if chk.is_ok() {
                break ;
            }
            match self.assert_current(&exp_member) {
                Ok(_) => {},
                Err(e) => {
                    return Err(e);
                },
            }
            let (next_tok, _) = match self.current_token() {
                Ok(tp) => tp,
                Err(e) => {
                    return Err(e);
                },
            };
            let ghost cur = self.at();
            let json = match next_tok {
                Token::Quote => self.parse_keyed_object(),
                Token::Comma => break ,
                _ => Err(self.err("unterminated object")),
            };
            if !self.last_token() {
                match self.next_token() {
                    Ok(_) => {},
                    Err(e) => {
                        return Err(e);
                    },
                }
            }
            match json {
                Ok(v) => {
                    proof {
                        assert(views_of(objs@.push(v)) =~= views_of(objs@).push(v.view()));
                    }
                    objs.push(v);
                },
                Err(e) => {
                    return Err(e);
                },
            }
        }
        if objs.len() == 0 {
            Ok(JsonValue::Empty)
        } else {
            proof {
                assert(JsonValue::Object(objs).view() matches JsonTree::Object(s) && s
                    =~= views_of(objs@));
            }
            Ok(JsonValue::Object(objs))
        }
    }

    /// Parse an array of values: elements are read until the closing
    /// bracket, which is consumed; separating commas are skipped by the
    /// loop's own advance.
    #[verifier::rlimit(100)]
    fn parse_array(&mut self) -> (r: Result<JsonValue, SyntaxError>)
        requires
            old(self).at() <= old(self).toks().len(),
        ensures
            final(self).toks() == old(self).toks(),
            final(self).at() == s_array(old(self).toks(), old(self).at()).next,
            final(self).at() >= old(self).at(),
            final(self).at() <= old(self).toks().len(),
            r is Ok ==> final(self).at() > old(self).at(),
            res_matches(r, s_array(old(self).toks(), old(self).at()).val),
        decreases self.toks().len() - self.at(), 1int,
    {
        let ghost toks = self.toks();
        let ghost i0 = self.at();
        let mut arr: Vec<JsonValue> = Vec::new();
        proof {
            assert(views_of(arr@) =~= Seq::<JsonTree>::empty());
        }
        loop
            invariant
                toks == old(self).toks(),
                i0 == old(self).at(),
                self.toks() == toks,
                i0 <= self.at() <= toks.len(),
                s_items(toks, i0, Seq::empty()) == s_items(toks, self.at(), views_of(arr@)),
            ensures
                self.toks() == toks,
                toks == old(self).toks(),
                i0 == old(self).at(),
                i0 <= self.at() < toks.len(),
                toks[self.at()].0 is RightBracket,
                s_items(toks, i0, Seq::empty()) == (Parsed {
                    val: Ok::<_, Seq<char>>(views_of(arr@)),
                    next: self.at(),
                }),
            decreases toks.len() - self.at(), 1int,
        {
            let (cur, _) = match self.current_token() {
                Ok(tp) => tp,
                Err(e) => {
                    return Err(e);
                },
            };
            match cur {
                Token::RightBracket => {
                    break ;
                },
                _ => {},
            }
            match self.next_token() {
                Ok(_) => {},
                Err(e) => {
                    return Err(e);
                },
            }
            let (next_tok, _) = match self.current_token() {
                Ok(tp) => tp,
                Err(e) => {
                    return Err(e);
                },
            };
            let json = match next_tok {
                Token::LeftCurly => self.parse_object(),
                Token::Quote => self.parse_string_literal(),
                Token::Char(c) => if c == 't' || c == 'f' {
                    self.parse_bool()
                } else {
                    Err(self.err("unexpected token while parsing array"))
                },
                Token::Digit(_) => self.parse_number(),
                Token::Minus => self.parse_number(),
                Token::LeftBracket => self.parse_array(),
                Token::RightBracket => {
                    break ;
                },
                _ => Err(self.err("unexpected token while parsing array")),
            };
            match json {
                Ok(v) => {
                    proof {
                        assert(views_of(arr@.push(v)) =~= views_of(arr@).push(v.view()));
                    }
                    arr.push(v);
                },
                Err(e) => {
                    return Err(e);
                },
            }
        }
        match self.next_token() {
            Ok(_) => {},
            Err(e) => {
                return Err(e);
            },
        }
        proof {
            assert(JsonValue::Arr(arr).view() matches JsonTree::Arr(s) && s =~= views_of(arr@));
        }
        Ok(JsonValue::Arr(arr))
    }

    /// Parse a JSON document: whitespace and newline tokens are discarded,
    /// then an object- or array-rooted document is read; anything else is
    /// rejected.
    pub fn parse(&mut self) -> (r: Result<JsonValue, SyntaxError>)
        ensures
            final(self).toks() == s_strip(old(self).toks()),
            final(self).at() == s_doc(s_strip(old(self).toks()), old(self).at()).next,
            res_matches(r, s_doc(s_strip(old(self).toks()), old(self).at()).val),
    {
        self.remove_whitespace();
        let (first_token, _) = match self.current_token() {
            Ok(tp) => tp,
            Err(e) => {
                return Err(e);
            },
        };
        match first_token {
            Token::LeftBracket => self.parse_array(),
            Token::LeftCurly => self.parse_object(),
            _ => Err(self.err("invalid JSON document")),
        }
    }

    /// Drop all structural whitespace and newline tokens; the grammar never
    /// looks at them.
    fn remove_whitespace(&mut self)
        ensures
            final(self).toks() == s_strip(old(self).toks()),
            final(self).at() == old(self).at(),
    {
        let ghost toks = self.toks();
        let mut out: Vec<(Token, Position)> = Vec::new();
        let n = self.tokens.len();
        let mut i: usize = 0;
        while i < n
            invariant
                n == toks.len(),
                self.toks() == toks,
                0 <= i <= n,
                out@ == s_strip(toks.take(i as int)),
            decreases n - i,
        {
            proof {
                assert(toks.take(i as int + 1).drop_last() =~= toks.take(i as int));
                assert(toks.take(i as int + 1).last() == toks[i as int]);
            }
            let (t, p) = self.tokens[i];
            match t {
                Token::Whitespace => {},
                Token::NewLine => {},
                _ => {
                    out.push((t, p));
                },
            }
            i = i + 1;
        }
        proof {
            assert(toks.take(n as int) =~= toks);
        }
        self.tokens = out;
    }
}

/// What one grammar production yields: its value or the failure report, and
/// the read index the cursor stands at afterwards.
pub struct Parsed<T> {
    pub val: Result<T, Seq<char>>,
    pub next: int,
}

/// Whether an executable production's result agrees with the modelled one:
/// equal trees on success, the modelled report on failure.
pub open spec fn res_matches(r: Result<JsonValue, SyntaxError>, v: Result<JsonTree, Seq<char>>) -> bool {
    match r {
        Ok(x) => v is Ok && x.view() == v->Ok_0,
        Err(e) => v is Err && e.0@ == v->Err_0,
    }
}

/// Whether every character of `s` is a decimal digit.
pub open spec fn all_digits(s: Seq<char>) -> bool {
    forall|j: int| 0 <= j < s.len() ==> crate::tokenize::is_digit(s[j])
}

/// The number a sequence of digit characters spells in decimal.
pub open spec fn digits_value(s: Seq<char>) -> int
    decreases s.len(),
{
    if s.len() == 0 {
        0
    } else {
        10 * digits_value(s.drop_last()) + (s.last() as int - '0' as int)
    }
}

/// Whether `s` is a well-formed integer literal: an optional leading minus
/// sign, then at least one digit and nothing else.
pub open spec fn int_text_ok(s: Seq<char>) -> bool {
    if s.len() > 0 && s[0] == '-' {
        s.len() > 1 && all_digits(s.skip(1))
    } else {
        s.len() > 0 && all_digits(s)
    }
}

/// The signed value of a well-formed integer literal.
pub open spec fn int_text_value(s: Seq<char>) -> int {
    if s.len() > 0 && s[0] == '-' {
        -digits_value(s.skip(1))
    } else {
        digits_value(s)
    }
}

/// Whether `s` is a well-formed integer literal whose value fits a 64-bit
/// signed integer.
pub open spec fn i64_text_ok(s: Seq<char>) -> bool {
    int_text_ok(s) && i64::MIN <= int_text_value(s) <= i64::MAX
}

/// How many decimal points `s` holds.
pub open spec fn dots(s: Seq<char>) -> int
    decreases s.len(),
{
    if s.len() == 0 {
        0
    } else {
        dots(s.drop_last()) + if s.last() == '.' {
            1int
        } else {
            0int
        }
    }
}

/// Whether `s` holds a decimal point anywhere.
pub open spec fn has_dot(s: Seq<char>) -> bool {
    exists|j: int| 0 <= j < s.len() && s[j] == '.'
}

/// A numeric literal with its optional leading minus sign removed.
pub open spec fn sign_body(s: Seq<char>) -> Seq<char> {
    if s.len() > 0 && s[0] == '-' {
        s.skip(1)
    } else {
        s
    }
}

/// Whether `s` is a well-formed decimal literal over digits, minus signs and
/// decimal points: an optional leading minus sign, then digits with exactly
/// one decimal point among them and at least one digit.
pub open spec fn float_text_ok(s: Seq<char>) -> bool {
    s.len() > 0 && sign_body(s).len() > 0 && (forall|j: int|
        0 <= j < sign_body(s).len() ==> crate::tokenize::is_digit(sign_body(s)[j]) || sign_body(
            s,
        )[j] == '.') && dots(sign_body(s)) == 1 && (exists|j: int|
        0 <= j < sign_body(s).len() && crate::tokenize::is_digit(sign_body(s)[j]))
}

/// A sequence of digits spells a non-negative number.
proof fn lemma_digits_value_nonneg(s: Seq<char>)
    requires
        all_digits(s),
    ensures
        digits_value(s) >= 0,
    decreases s.len(),
{
    if s.len() > 0 {
        assert(all_digits(s.drop_last()));
        lemma_digits_value_nonneg(s.drop_last());
    }
}

/// Appending digits never shrinks the spelled number.
proof fn lemma_digits_value_mono(s: Seq<char>, m: int)
    requires
        all_digits(s),
        0 <= m <= s.len(),
    ensures
        digits_value(s.take(m)) <= digits_value(s),
    decreases s.len() - m,
{
    if m < s.len() {
        lemma_digits_value_mono(s, m + 1);
        assert(s.take(m + 1).drop_last() =~= s.take(m));
        assert(all_digits(s.take(m)));
        lemma_digits_value_nonneg(s.take(m));
    } else {
        assert(s.take(m) =~= s);
    }
}

/// Whether `s` holds a decimal point, scanned left to right.
fn contains_dot(s: &str) -> (r: bool)
    ensures
        r == has_dot(s@),
{
    let n = s.unicode_len();
    let mut j: usize = 0;
    while j < n
        invariant
            n == s@.len(),
            0 <= j <= n,
            forall|k: int| 0 <= k < j ==> s@[k] != '.',
        decreases n - j,
    {
        if s.get_char(j) == '.' {
            return true;
        }
        j = j + 1;
    }
    false
}

/// Whether `s` is a well-formed decimal literal, as the native float parser
/// would accept over this alphabet.
fn float_text_valid(s: &str) -> (r: bool)
    ensures
        r == float_text_ok(s@),
{
    let n = s.unicode_len();
    if n == 0 {
        return false;
    }
    let neg = s.get_char(0) == '-';
    let start: usize = if neg {
        1
    } else {
        0
    };
    if n <= start {
        return false;
    }
    let ghost body = if neg {
        s@.skip(1)
    } else {
        s@
    };
    proof {
        assert(body.len() == n - start);
        assert(forall|k: int| 0 <= k < body.len() ==> body[k] == s@[k + start]);
    }
    let mut ndots: usize = 0;
    let mut saw_digit = false;
    let mut j: usize = start;
    while j < n
        invariant
            n == s@.len(),
            n > 0,
            start <= j <= n,
            start <= 1,
            (s@[0] == '-') == (start == 1),
            body == (if start == 1 {
                s@.skip(1)
            } else {
                s@
            }),
            body.len() == n - start,
            forall|k: int| 0 <= k < body.len() ==> body[k] == s@[k + start],
            ndots == dots(body.take(j - start)),
            saw_digit == exists|k: int|
                0 <= k < j - start && crate::tokenize::is_digit(body[k]),
            forall|k: int|
                0 <= k < j - start ==> crate::tokenize::is_digit(body[k]) || body[k] == '.',
            ndots <= j,
        decreases n - j,
    {
        let c = s.get_char(j);
        proof {
            assert(body[j - start] == c);
            assert(body.take(j - start + 1).drop_last() =~= body.take(j - start));
            assert(body.take(j - start + 1).last() == body[j - start]);
        }
        if '0' <= c && c <= '9' {
            saw_digit = true;
        } else if c == '.' {
            ndots = ndots + 1;
        } else {
            proof {
                assert(!(crate::tokenize::is_digit(body[j - start]) || body[j - start] == '.'));
            }
            return false;
        }
        j = j + 1;
    }
    proof {
        assert(body.take(n - start) =~= body);
    }
    ndots == 1 && saw_digit
}

/// Parse a well-formed integer literal into a 64-bit signed integer; reports
/// nothing when the text is malformed or out of range.
fn parse_i64(s: &str) -> (r: Option<i64>)
    ensures
        r is Some <==> i64_text_ok(s@),
        r is Some ==> r->0 as int == int_text_value(s@),
{
    let n = s.unicode_len();
    if n == 0 {
        return None;
    }
    let neg = s.get_char(0) == '-';
    let start: usize = if neg {
        1
    } else {
        0
    };
    if n <= start {
        return None;
    }
    let ghost body = if neg {
        s@.skip(1)
    } else {
        s@
    };
    proof {
        assert(body.len() == n - start);
        assert(forall|k: int| 0 <= k < body.len() ==> body[k] == s@[k + start]);
    }
    let mut acc: u64 = 0;
    let mut j: usize = start;
    while j < n
        invariant
            n == s@.len(),
            n > 0,
            start <= j <= n,
            start <= 1,
            neg == (start == 1),
            neg == (s@[0] == '-'),
            body == (if start == 1 {
                s@.skip(1)
            } else {
                s@
            }),
            body.len() == n - start,
            forall|k: int| 0 <= k < body.len() ==> body[k] == s@[k + start],
            forall|k: int| 0 <= k < j - start ==> crate::tokenize::is_digit(body[k]),
            acc as int == digits_value(body.take(j - start)),
            neg ==> acc <= 9223372036854775808u64,
            !neg ==> acc <= 9223372036854775807u64,
        decreases n - j,
    {
        let c = s.get_char(j);
        proof {
            assert(body[j - start] == c);
            assert(body.take(j - start + 1).drop_last() =~= body.take(j - start));
            assert(body.take(j - start + 1).last() == body[j - start]);
        }
        if !('0' <= c && c <= '9') {
            proof {
                assert(!crate::tokenize::is_digit(body[j - start]));
            }
            return None;
        }
        let d: u64 = (c as u32 as u64) - 48;
        let over = if neg {
            acc > 922337203685477580u64 || (acc == 922337203685477580u64 && d > 8)
        } else {
            acc > 922337203685477580u64 || (acc == 922337203685477580u64 && d > 7)
        };
        if over {
            proof {
                let m = j - start + 1;
                assert(all_digits(body.take(m)));
                assert(digits_value(body.take(m)) == 10 * (acc as int) + d);
                if int_text_ok(s@) {
                    assert(all_digits(body));
                    lemma_digits_value_mono(body, m);
                    assert(digits_value(body) >= 10 * (acc as int) + d);
                    assert(int_text_value(s@) == if neg {
                        -digits_value(body)
                    } else {
                        digits_value(body)
                    });
                }
            }
            return None;
        }
        acc = acc * 10 + d;
        j = j + 1;
    }
    proof {
        assert(body.take(n - start) =~= body);
        assert(all_digits(body));
        assert(int_text_ok(s@));
        lemma_digits_value_nonneg(body);
    }
    if neg {
        if acc == 9223372036854775808u64 {
            Some(i64::MIN)
        } else {
            Some(-(acc as i64))
        }
    } else {
        Some(acc as i64)
    }
}

/// Whether `exp` matches `got` under the relaxed token equality that treats
/// all digit tokens alike and all letter tokens alike.
fn token_matches(exp: &Token, got: &Token) -> (r: bool)
    ensures
        r == tok_match(*exp, *got),
{
    match (exp, got) {
        (Token::Char(_), Token::Char(_)) => true,
        (Token::Digit(_), Token::Digit(_)) => true,
        (Token::Quote, Token::Quote) => true,
        (Token::Dot, Token::Dot) => true,
        (Token::Comma, Token::Comma) => true,
        (Token::Colon, Token::Colon) => true,
        (Token::Minus, Token::Minus) => true,
        (Token::RightCurly, Token::RightCurly) => true,
        (Token::LeftCurly, Token::LeftCurly) => true,
        (Token::RightBracket, Token::RightBracket) => true,
        (Token::LeftBracket, Token::LeftBracket) => true,
        (Token::NewLine, Token::NewLine) => true,
        (Token::Whitespace, Token::Whitespace) => true,
        (Token::NotSupported, Token::NotSupported) => true,
        _ => false,
    }
}

} // verus!
