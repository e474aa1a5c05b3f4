//! Splitting one record's text into literal text and resource references.
use vstd::prelude::*;

use crate::text::push_char;
use crate::ENTRY_DELIMITER_CHAR;

verus! {

/// Why a message could not be tokenized.
#[derive(Clone, Copy, Debug, PartialEq, Eq, Structural)]
pub enum ParseError {
    /// A backslash followed by a character that cannot be escaped.
    InvalidEscape(char),
    /// A bracket that neither opens nor closes a reference.
    UnescapedChar(char),
    /// The message ends inside a reference or right after a backslash.
    UnexpectedEnd,
}

/// The text that describes a tokenizing error.
pub open spec fn error_text(e: ParseError) -> Seq<char> {
    match e {
        ParseError::InvalidEscape(c) => "Invalid escape sequence '\\"@ + seq![c, '\''],
        ParseError::UnescapedChar(c) => "Unescaped '"@ + seq![c] + "' character"@,
        ParseError::UnexpectedEnd => "Unexpected end of message, ensure references are closed"@,
    }
}

impl ParseError {
    /// Describes the error for a reader of the message file.
    pub fn message(&self) -> (r: String)
        ensures
            r@ == error_text(*self),
    {
        match self {
            ParseError::InvalidEscape(c) => {
                let mut r = String::from_str("Invalid escape sequence '\\");
                push_char(&mut r, *c);
                push_char(&mut r, '\'');
                r
            },
            ParseError::UnescapedChar(c) => {
                let mut r = String::from_str("Unescaped '");
                push_char(&mut r, *c);
                r.append("' character");
                r
            },
            ParseError::UnexpectedEnd => String::from_str(
                "Unexpected end of message, ensure references are closed",
            ),
        }
    }
}

/// One piece of a message: a run of literal text, or the path of a resource.
#[derive(Debug)]
pub enum Token {
    Text(String),
    Resource(String),
}

/// A token with its text as a sequence of characters.
pub enum TokenView {
    Text(Seq<char>),
    Resource(Seq<char>),
}

impl View for Token {
    type V = TokenView;

    open spec fn view(&self) -> TokenView {
        match self {
            Token::Text(s) => TokenView::Text(s@),
            Token::Resource(s) => TokenView::Resource(s@),
        }
    }
}

impl PartialEq for Token {
    fn eq(&self, other: &Token) -> (r: bool) {
        match (self, other) {
            (Token::Text(a), Token::Text(b)) => *a == *b,
            (Token::Resource(a), Token::Resource(b)) => *a == *b,
            _ => false,
        }
    }
}

impl vstd::std_specs::cmp::PartialEqSpecImpl for Token {
    open spec fn obeys_eq_spec() -> bool {
        true
    }

    open spec fn eq_spec(&self, other: &Token) -> bool {
        self@ == other@
    }
}

/// The tokenizer's state in the middle of a message.
pub enum StateView {
    /// Reading literal text, with what has been read of it.
    Text(Seq<char>),
    /// Reading a reference, with what has been read of its path.
    InPath(Seq<char>),
    /// Right after a backslash; the interrupted state is text or a path.
    Escape { in_path: bool, text: Seq<char> },
}

/// Characters that a backslash may escape.
pub open spec fn is_escapable(c: char) -> bool {
    c == '\\' || c == '[' || c == ']' || c == ENTRY_DELIMITER_CHAR
}

/// The effect of one character: the next state and the token it closes, or
/// an error.
pub open spec fn parse_step(st: StateView, c: char) -> Result<(StateView, Option<TokenView>), ParseError> {
    match st {
        StateView::Text(s) => if c == '[' {
            Ok((StateView::InPath(seq![]), if s.len() > 0 { Some(TokenView::Text(s)) } else { None }))
        } else if c == '\\' {
            Ok((StateView::Escape { in_path: false, text: s }, None))
        } else if c == ']' {
            Err(ParseError::UnescapedChar(c))
        } else {
            Ok((StateView::Text(s.push(c)), None))
        },
        StateView::InPath(s) => if c == ']' {
            Ok((StateView::Text(seq![]), Some(TokenView::Resource(s))))
        } else if c == '\\' {
            Ok((StateView::Escape { in_path: true, text: s }, None))
        } else if c == '[' {
            Err(ParseError::UnescapedChar(c))
        } else {
            Ok((StateView::InPath(s.push(c)), None))
        },
        StateView::Escape { in_path, text } => if !is_escapable(c) {
            Err(ParseError::InvalidEscape(c))
        } else if in_path {
            Ok((StateView::InPath(text.push(c)), None))
        } else {
            Ok((StateView::Text(text.push(c)), None))
        },
    }
}

pub open spec fn opt_seq(t: Option<TokenView>) -> Seq<TokenView> {
    match t {
        Some(t) => seq![t],
        None => seq![],
    }
}

/// The state and the tokens closed after reading all of `s`, or the first error.
pub open spec fn parse_run(s: Seq<char>) -> Result<(StateView, Seq<TokenView>), ParseError>
    decreases s.len(),
{
    if s.len() == 0 {
        Ok((StateView::Text(seq![]), seq![]))
    } else {
        match parse_run(s.drop_last()) {
            Err(e) => Err(e),
            Ok((st, toks)) => match parse_step(st, s.last()) {
                Err(e) => Err(e),
                Ok((st2, t)) => Ok((st2, toks + opt_seq(t))),
            },
        }
    }
}

/// The tokens of message `s`, or the error that tokenizing it meets.
pub open spec fn parse_spec(s: Seq<char>) -> Result<Seq<TokenView>, ParseError> {
    match parse_run(s) {
        Err(e) => Err(e),
        Ok((StateView::Text(t), toks)) => Ok(
            if t.len() > 0 { toks.push(TokenView::Text(t)) } else { toks },
        ),
        Ok(_) => Err(ParseError::UnexpectedEnd),
    }
}

/// Once tokenizing a prefix fails, tokenizing the whole fails the same way.
proof fn lemma_run_err_extends(s: Seq<char>, k: int)
    requires
        0 <= k <= s.len(),
        parse_run(s.subrange(0, k)) is Err,
    ensures
        parse_run(s) == parse_run(s.subrange(0, k)),
    decreases s.len() - k,
{
    if k < s.len() {
        assert(s.subrange(0, k + 1).drop_last() =~= s.subrange(0, k));
        lemma_run_err_extends(s, k + 1);
    } else {
        assert(s.subrange(0, k) =~= s);
    }
}

pub open spec fn tokens_view(v: Seq<Token>) -> Seq<TokenView> {
    v.map_values(|t: Token| t@)
}

/// `r` is what `parse_spec` gives for `s`.
pub open spec fn parse_result_matches(r: Result<Vec<Token>, ParseError>, s: Seq<char>) -> bool {
    match (r, parse_spec(s)) {
        (Ok(v), Ok(t)) => tokens_view(v@) == t,
        (Err(e), Err(f)) => e == f,
        _ => false,
    }
}

/// `s` with a backslash put before each character that needs one.
pub open spec fn escape_chars(s: Seq<char>) -> Seq<char>
    decreases s.len(),
{
    if s.len() == 0 {
        seq![]
    } else {
        escape_chars(s.drop_last()) + if is_escapable(s.last()) {
            seq!['\\', s.last()]
        } else {
            seq![s.last()]
        }
    }
}

/// The message text of one token: escaped text, or an escaped path in brackets.
pub open spec fn render_token(t: TokenView) -> Seq<char> {
    match t {
        TokenView::Text(s) => escape_chars(s),
        TokenView::Resource(s) => seq!['['] + escape_chars(s) + seq![']'],
    }
}

/// The message text of a sequence of tokens.
pub open spec fn render(toks: Seq<TokenView>) -> Seq<char>
    decreases toks.len(),
{
    if toks.len() == 0 {
        seq![]
    } else {
        render(toks.drop_last()) + render_token(toks.last())
    }
}

/// Tokens as tokenizing produces them: no empty text run, and no two text
/// runs side by side.
pub open spec fn is_canonical(toks: Seq<TokenView>) -> bool {
    &&& forall|i: int| 0 <= i < toks.len() ==> (#[trigger] toks[i] matches TokenView::Text(t) ==> t.len() > 0)
    &&& forall|i: int|
        0 <= i < toks.len() - 1 ==> !(#[trigger] toks[i] is Text && toks[i + 1] is Text)
}

proof fn lemma_run_push(p: Seq<char>, c: char)
    ensures
        parse_run(p.push(c)) == match parse_run(p) {
            Err(e) => Err(e),
            Ok((st, toks)) => match parse_step(st, c) {
                Err(e) => Err(e),
                Ok((st2, t)) => Ok((st2, toks + opt_seq(t))),
            },
        },
{
    assert(p.push(c).drop_last() =~= p);
}

/// Reading escaped text extends the text or path being read by exactly that text.
proof fn lemma_run_escaped(p: Seq<char>, s: Seq<char>, in_path: bool, a: Seq<char>, toks: Seq<TokenView>)
    requires
        parse_run(p) == Ok::<_, ParseError>(
            (if in_path { StateView::InPath(a) } else { StateView::Text(a) }, toks),
        ),
    ensures
        parse_run(p + escape_chars(s)) == Ok::<_, ParseError>(
            (if in_path { StateView::InPath(a + s) } else { StateView::Text(a + s) }, toks),
        ),
    decreases s.len(),
{
    if s.len() == 0 {
        assert(p + escape_chars(s) =~= p);
        assert(a + s =~= a);
    } else {
        let s0 = s.drop_last();
        let c = s.last();
        lemma_run_escaped(p, s0, in_path, a, toks);
        let q = p + escape_chars(s0);
        assert((a + s0).push(c) =~= a + s);
        assert(toks + opt_seq(None) =~= toks);
        if is_escapable(c) {
            assert(p + escape_chars(s) =~= q.push('\\').push(c));
            lemma_run_push(q, '\\');
            assert(parse_run(q.push('\\')) == Ok::<_, ParseError>(
                (StateView::Escape { in_path, text: a + s0 }, toks),
            ));
            lemma_run_push(q.push('\\'), c);
        } else {
            assert(p + escape_chars(s) =~= q.push(c));
            lemma_run_push(q, c);
        }
    }
}

proof fn lemma_render_run(toks: Seq<TokenView>)
    requires
        is_canonical(toks),
    ensures
        toks.len() > 0 && toks.last() is Text ==> parse_run(render(toks)) == Ok::<_, ParseError>(
            (StateView::Text(toks.last()->Text_0), toks.drop_last()),
        ),
        !(toks.len() > 0 && toks.last() is Text) ==> parse_run(render(toks)) == Ok::<
            _,
            ParseError,
        >((StateView::Text(seq![]), toks)),
    decreases toks.len(),
{
    if toks.len() > 0 {
        let prev = toks.drop_last();
        assert(is_canonical(prev)) by {
            assert forall|i: int| 0 <= i < prev.len() implies (#[trigger] prev[i] matches TokenView::Text(t) ==> t.len() > 0) by {
                assert(prev[i] == toks[i]);
            }
            assert forall|i: int| 0 <= i < prev.len() - 1 implies !(#[trigger] prev[i] is Text && prev[i + 1] is Text) by {
                assert(prev[i] == toks[i]);
                assert(prev[i + 1] == toks[i + 1]);
            }
        }
        lemma_render_run(prev);
        let r0 = render(prev);
        assert(toks.last() == toks[toks.len() - 1]);
        match toks.last() {
            TokenView::Text(t) => {
                if prev.len() > 0 {
                    assert(prev.last() == toks[toks.len() - 2]);
                }
                lemma_run_escaped(r0, t, false, seq![], prev);
                assert(seq![] + t =~= t);
            },
            TokenView::Resource(path) => {
                let (a, ts) = if prev.len() > 0 && prev.last() is Text {
                    (prev.last()->Text_0, prev.drop_last())
                } else {
                    (Seq::<char>::empty(), prev)
                };
                if prev.len() > 0 && prev.last() is Text {
                    assert(prev.last() == toks[toks.len() - 2]);
                    assert(ts.push(TokenView::Text(a)) =~= prev);
                    assert(ts + opt_seq(Some(TokenView::Text(a))) =~= prev);
                } else {
                    assert(ts + opt_seq(None) =~= prev);
                }
                lemma_run_push(r0, '[');
                lemma_run_escaped(r0.push('['), path, true, seq![], prev);
                assert(seq![] + path =~= path);
                let q = r0.push('[') + escape_chars(path);
                lemma_run_push(q, ']');
                assert(render(toks) =~= q.push(']'));
                assert(prev + opt_seq(Some(TokenView::Resource(path))) =~= toks);
            },
        }
    } else {
        assert(toks =~= Seq::<TokenView>::empty());
        assert(render(toks) =~= Seq::<char>::empty());
    }
}

/// Rendering tokens, with every special character escaped and each path in
/// brackets, and tokenizing the text gives back the same tokens, for any
/// tokens that tokenizing could have produced.
pub proof fn lemma_render_parse_round_trip(toks: Seq<TokenView>)
    requires
        is_canonical(toks),
    ensures
        parse_spec(render(toks)) == Ok::<Seq<TokenView>, ParseError>(toks),
{
    lemma_render_run(toks);
    if toks.len() > 0 && toks.last() is Text {
        assert(toks.last() == toks[toks.len() - 1]);
        assert(toks.drop_last().push(toks.last()) =~= toks);
    }
}

enum ParseState {
    Text(String),
    InPath(String),
    Escape { in_path: bool, text: String },
}

impl View for ParseState {
    type V = StateView;

    closed spec fn view(&self) -> StateView {
        match self {
            ParseState::Text(s) => StateView::Text(s@),
            ParseState::InPath(s) => StateView::InPath(s@),
            ParseState::Escape { in_path, text } => StateView::Escape { in_path: *in_path, text: text@ },
        }
    }
}

/// Tokenizer of one message, fed one character at a time.
pub struct EntryParser {
    state: ParseState,
}

/// Tokenizes `msg`.
pub fn parse_message(msg: &str) -> (r: Result<Vec<Token>, ParseError>)
    ensures
        parse_result_matches(r, msg@),
{
    let parser = EntryParser::new();
    parser.parse(msg)
}

impl EntryParser {
    pub closed spec fn state(&self) -> StateView {
        self.state@
    }

    /// A tokenizer at the start of a message.
    pub fn new() -> (r: EntryParser)
        ensures
            r.state() == StateView::Text(seq![]),
    {
        EntryParser { state: ParseState::Text(String::new()) }
    }

    /// Tokenizes `msg` from the tokenizer's start state.
    pub fn parse(self, msg: &str) -> (r: Result<Vec<Token>, ParseError>)
        requires
            self.state() == StateView::Text(seq![]),
        ensures
            parse_result_matches(r, msg@),
    {
        let mut parser = self;
        let mut tokens: Vec<Token> = Vec::new();
        let ghost chars = msg@;
        proof {
            assert(chars.subrange(0, 0) =~= Seq::<char>::empty());
            assert(tokens_view(tokens@) =~= Seq::<TokenView>::empty());
        }
        for ch in it: msg.chars()
            invariant
                it.seq() == chars,
                chars == msg@,
                parse_run(chars.subrange(0, it.index() as int)) == Ok::<_, ParseError>(
                    (parser.state(), tokens_view(tokens@)),
                ),
        {
            let ghost k = it.index() as int;
            let ghost prev = tokens@;
            proof {
                assert(chars.subrange(0, k + 1).drop_last() =~= chars.subrange(0, k));
                assert(chars.subrange(0, k + 1).last() == ch);
            }
            match parser.process_char(ch) {
                Err(e) => {
                    proof {
                        assert(k < chars.len());
                        assert(parse_run(chars.subrange(0, k + 1)) == Err::<
                            (StateView, Seq<TokenView>),
                            ParseError,
                        >(e));
                        lemma_run_err_extends(chars, k + 1);
                    }
                    return Err(e);
                },
                Ok(t) => {
                    if let Some(t) = t {
                        tokens.push(t);
                    }
                    proof {
                        assert(tokens_view(tokens@) =~= tokens_view(prev) + opt_seq(
                            parse_step(parse_run(chars.subrange(0, k))->Ok_0.0, ch)->Ok_0.1,
                        ));
                    }
                },
            }
        }
        proof {
            assert(chars.subrange(0, chars.len() as int) =~= chars);
        }
        let ghost prev = tokens@;
        match parser.state {
            ParseState::Text(val) => {
                if !val.as_str().is_empty() {
                    tokens.push(Token::Text(val));
                    proof {
                        assert(tokens_view(tokens@) =~= tokens_view(prev).push(TokenView::Text(val@)));
                    }
                }
                Ok(tokens)
            },
            _ => Err(ParseError::UnexpectedEnd),
        }
    }

    /// Reads one character: the token it closes, if any, or an error.
    fn process_char(&mut self, ch: char) -> (r: Result<Option<Token>, ParseError>)
        ensures
            match parse_step(old(self).state(), ch) {
                Ok((st, t)) => r matches Ok(u) && final(self).state() == st && match u {
                    Some(u) => t == Some(u@),
                    None => t is None,
                },
                Err(e) => r == Err::<Option<Token>, ParseError>(e),
            },
    {
        let mut state = ParseState::Text(String::new());
        core::mem::swap(&mut state, &mut self.state);
        match state {
            ParseState::Text(s) => {
                if ch == '[' {
                    self.state = ParseState::InPath(String::new());
                    if !s.as_str().is_empty() {
                        Ok(Some(Token::Text(s)))
                    } else {
                        Ok(None)
                    }
                } else if ch == '\\' {
                    self.state = ParseState::Escape { in_path: false, text: s };
                    Ok(None)
                } else if ch == ']' {
                    Err(ParseError::UnescapedChar(ch))
                } else {
                    let mut s = s;
                    push_char(&mut s, ch);
                    self.state = ParseState::Text(s);
                    Ok(None)
                }
            },
            ParseState::InPath(s) => {
                if ch == ']' {
                    Ok(Some(Token::Resource(s)))
                } else if ch == '\\' {
                    self.state = ParseState::Escape { in_path: true, text: s };
                    Ok(None)
                } else if ch == '[' {
                    Err(ParseError::UnescapedChar(ch))
                } else {
                    let mut s = s;
                    push_char(&mut s, ch);
                    self.state = ParseState::InPath(s);
                    Ok(None)
                }
            },
            ParseState::Escape { in_path, text } => {
                if ch == '\\' || ch == '[' || ch == ']' || ch == ENTRY_DELIMITER_CHAR {
                    let mut text = text;
                    push_char(&mut text, ch);
                    if in_path {
                        self.state = ParseState::InPath(text);
                    } else {
                        self.state = ParseState::Text(text);
                    }
                    Ok(None)
                } else {
                    Err(ParseError::InvalidEscape(ch))
                }
            },
        }
    }
}

} // verus!
