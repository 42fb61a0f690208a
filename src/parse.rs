//! Tokenizer: text to lexemes, lexemes to tokens.
use vstd::prelude::*;
use std::collections::VecDeque;
use vstd::string::StrSliceExecFns;

verus! {

/// One of the four binary arithmetic operators.
#[derive(Debug, Clone, Copy, PartialEq, Eq, Structural)]
pub enum Operation {
    Add,
    Subtract,
    Multiply,
    Divide,
}

/// The operator that a lexeme denotes, if it is exactly one of `+ - * /`.
pub open spec fn operation_of(text: Seq<char>) -> Option<Operation> {
    if text.len() != 1 {
        None
    } else if text[0] == '+' {
        Some(Operation::Add)
    } else if text[0] == '-' {
        Some(Operation::Subtract)
    } else if text[0] == '*' {
        Some(Operation::Multiply)
    } else if text[0] == '/' {
        Some(Operation::Divide)
    } else {
        None
    }
}

/// A lexeme that is not one of the four operator symbols.
#[derive(Debug)]
pub struct ParseOperationError {
    pub lexeme: String,
}

impl Operation {
    /// Parses an operator from its one-character symbol.
    pub fn from_str(s: &str) -> (r: Result<Operation, ParseOperationError>)
        ensures
            match r {
                Ok(op) => operation_of(s@) == Some(op),
                Err(e) => operation_of(s@) is None && e.lexeme@ == s@,
            },
    {
        if s.unicode_len() != 1 {
            return Err(ParseOperationError { lexeme: s.to_string() });
        }
        let c = s.get_char(0);
        if c == '+' {
            Ok(Operation::Add)
        } else if c == '-' {
            Ok(Operation::Subtract)
        } else if c == '*' {
            Ok(Operation::Multiply)
        } else if c == '/' {
            Ok(Operation::Divide)
        } else {
            Err(ParseOperationError { lexeme: s.to_string() })
        }
    }
}

/// A decimal digit.
pub open spec fn is_digit(c: char) -> bool {
    '0' <= c <= '9'
}

/// A character that continues a numeric lexeme: a digit or a decimal point.
pub open spec fn is_numeral_char(c: char) -> bool {
    is_digit(c) || c == '.'
}

/// The characters with the Unicode `White_Space` property.
pub open spec fn is_whitespace(c: char) -> bool {
    ('\u{9}' <= c <= '\u{d}') || c == ' ' || c == '\u{85}' || c == '\u{a0}' || c == '\u{1680}'
        || ('\u{2000}' <= c <= '\u{200a}') || c == '\u{2028}' || c == '\u{2029}'
        || c == '\u{202f}' || c == '\u{205f}' || c == '\u{3000}'
}

/// A lexeme as the tokenizer sees it: its 1-based line and its text.
pub type LexemeModel = (nat, Seq<char>);

/// Where the scanner stands after a prefix of the input: the lexemes it has
/// finished, the number of line breaks it has passed, and the numeric lexeme
/// that is still growing.
pub struct ScanState {
    pub done: Seq<LexemeModel>,
    pub breaks: nat,
    pub cur: Seq<char>,
}

/// The finished lexemes, with the growing one closed off if it is not empty.
pub open spec fn flushed(st: ScanState) -> Seq<LexemeModel> {
    if st.cur.len() == 0 {
        st.done
    } else {
        st.done.push((st.breaks + 1, st.cur))
    }
}

/// One character of input: a line break or other whitespace ends the current
/// lexeme; a digit or `.` extends it; any other character ends it and forms a
/// lexeme of its own.
pub open spec fn scan_step(st: ScanState, c: char) -> ScanState {
    if c == '\n' {
        ScanState { done: flushed(st), breaks: st.breaks + 1, cur: Seq::empty() }
    } else if is_whitespace(c) {
        ScanState { done: flushed(st), breaks: st.breaks, cur: Seq::empty() }
    } else if is_numeral_char(c) {
        ScanState { done: st.done, breaks: st.breaks, cur: st.cur.push(c) }
    } else {
        ScanState { done: flushed(st).push((st.breaks + 1, seq![c])), breaks: st.breaks, cur: Seq::empty() }
    }
}

/// The scanner's state after reading all of `s`.
pub open spec fn scan(s: Seq<char>) -> ScanState
    decreases s.len(),
{
    if s.len() == 0 {
        ScanState { done: Seq::empty(), breaks: 0, cur: Seq::empty() }
    } else {
        scan_step(scan(s.drop_last()), s.last())
    }
}

/// The lexemes of a text, in source order.
pub open spec fn lexemes_of(s: Seq<char>) -> Seq<LexemeModel> {
    flushed(scan(s))
}

/// The number of line breaks in `s`.
pub open spec fn line_breaks(s: Seq<char>) -> nat
    decreases s.len(),
{
    if s.len() == 0 {
        0
    } else {
        line_breaks(s.drop_last()) + if s.last() == '\n' {
            1nat
        } else {
            0nat
        }
    }
}

/// The same lexemes, `by` lines further down.
pub open spec fn shift_lines(lexemes: Seq<LexemeModel>, by: nat) -> Seq<LexemeModel> {
    lexemes.map_values(|l: LexemeModel| (l.0 + by, l.1))
}

/// The scanner's state after reading `s`, starting from `st`.
spec fn scan_from(st: ScanState, s: Seq<char>) -> ScanState
    decreases s.len(),
{
    if s.len() == 0 {
        st
    } else {
        scan_step(scan_from(st, s.drop_last()), s.last())
    }
}

proof fn lemma_scan_breaks(s: Seq<char>)
    ensures
        scan(s).breaks == line_breaks(s),
    decreases s.len(),
{
    if s.len() > 0 {
        lemma_scan_breaks(s.drop_last());
    }
}

proof fn lemma_scan_concat(a: Seq<char>, b: Seq<char>)
    ensures
        scan(a + b) == scan_from(scan(a), b),
    decreases b.len(),
{
    if b.len() == 0 {
        assert(a + b =~= a);
    } else {
        assert((a + b).drop_last() =~= a + b.drop_last());
        assert((a + b).last() == b.last());
        lemma_scan_concat(a, b.drop_last());
    }
}

proof fn lemma_shift_push(lexemes: Seq<LexemeModel>, l: LexemeModel, by: nat)
    ensures
        shift_lines(lexemes.push(l), by) == shift_lines(lexemes, by).push((l.0 + by, l.1)),
{
    assert(shift_lines(lexemes.push(l), by) =~= shift_lines(lexemes, by).push((l.0 + by, l.1)));
}

/// Scanning from a state with no lexeme growing: what is scanned is appended,
/// its lines shifted by the line breaks already passed.
proof fn lemma_scan_from_fresh(st: ScanState, b: Seq<char>)
    requires
        st.cur.len() == 0,
    ensures
        scan_from(st, b) == (ScanState {
            done: st.done + shift_lines(scan(b).done, st.breaks),
            breaks: st.breaks + scan(b).breaks,
            cur: scan(b).cur,
        }),
    decreases b.len(),
{
    let by = st.breaks;
    if b.len() == 0 {
        assert(st.done + shift_lines(Seq::<LexemeModel>::empty(), by) =~= st.done);
        assert(st.cur =~= Seq::<char>::empty());
    } else {
        lemma_scan_from_fresh(st, b.drop_last());
        let inner = scan(b.drop_last());
        let c = b.last();
        let line = inner.breaks + 1;
        lemma_shift_push(inner.done, (line, inner.cur), by);
        assert((st.done + shift_lines(inner.done, by)).push((line + by, inner.cur)) =~= st.done
            + shift_lines(inner.done, by).push((line + by, inner.cur)));
        let x = ScanState {
            done: st.done + shift_lines(inner.done, by),
            breaks: by + inner.breaks,
            cur: inner.cur,
        };
        assert(scan_from(st, b.drop_last()) == x);
        assert(flushed(x) == st.done + shift_lines(flushed(inner), by));
        let fl = flushed(inner);
        lemma_shift_push(fl, (line, seq![c]), by);
        assert((st.done + shift_lines(fl, by)).push((line + by, seq![c])) =~= st.done
            + shift_lines(fl, by).push((line + by, seq![c])));
    }
}

/// A line break ends a line: the lexemes after it are those of the text after
/// it alone, each one line further down for every line break before it.
pub proof fn lemma_lines_after_break(a: Seq<char>, b: Seq<char>)
    ensures
        lexemes_of(a + seq!['\n'] + b) == lexemes_of(a) + shift_lines(lexemes_of(b), line_breaks(a) + 1),
{
    let an = a + seq!['\n'];
    assert(an.drop_last() =~= a);
    lemma_scan_breaks(a);
    lemma_scan_concat(an, b);
    let st = scan(an);
    lemma_scan_from_fresh(st, b);
    let sb = scan(b);
    let by = st.breaks;
    if sb.cur.len() > 0 {
        lemma_shift_push(sb.done, (sb.breaks + 1, sb.cur), by);
        assert((st.done + shift_lines(sb.done, by)).push((sb.breaks + 1 + by, sb.cur)) =~= st.done
            + shift_lines(sb.done, by).push((sb.breaks + 1 + by, sb.cur)));
    }
}

/// Every lexeme of a text without line breaks stands on line 1.
pub proof fn lemma_single_line(s: Seq<char>)
    requires
        line_breaks(s) == 0,
    ensures
        forall|k: int| 0 <= k < lexemes_of(s).len() ==> (#[trigger] lexemes_of(s)[k]).0 == 1,
{
    lemma_single_line_scan(s);
}

proof fn lemma_single_line_scan(s: Seq<char>)
    requires
        line_breaks(s) == 0,
    ensures
        scan(s).breaks == 0,
        forall|k: int| 0 <= k < scan(s).done.len() ==> (#[trigger] scan(s).done[k]).0 == 1,
    decreases s.len(),
{
    lemma_scan_breaks(s);
    if s.len() > 0 {
        let p = s.drop_last();
        lemma_scan_breaks(p);
        lemma_single_line_scan(p);
    }
}

/// A lexeme together with the line it stands on.
#[derive(Clone)]
struct Lexeme {
    line: usize,
    text: Vec<char>,
}

impl View for Lexeme {
    type V = LexemeModel;

    closed spec fn view(&self) -> LexemeModel {
        (self.line as nat, self.text@)
    }
}

/// The token stream of one input: the lexemes that are still to be
/// classified, consumed one per call of `next`.
#[derive(Clone)]
pub struct Tokens {
    lexemes: VecDeque<Lexeme>,
}

impl View for Tokens {
    type V = Seq<LexemeModel>;

    closed spec fn view(&self) -> Seq<LexemeModel> {
        self.lexemes@.map_values(|l: Lexeme| l@)
    }
}

fn is_whitespace_char(c: char) -> (r: bool)
    ensures
        r == is_whitespace(c),
{
    ('\u{9}' <= c && c <= '\u{d}') || c == ' ' || c == '\u{85}' || c == '\u{a0}' || c == '\u{1680}'
        || ('\u{2000}' <= c && c <= '\u{200a}') || c == '\u{2028}' || c == '\u{2029}'
        || c == '\u{202f}' || c == '\u{205f}' || c == '\u{3000}'
}

/// Closes the growing lexeme, if any, onto the finished ones.
fn flush(done: &mut VecDeque<Lexeme>, breaks: usize, cur: Vec<char>)
    requires
        cur@.len() > 0 ==> breaks < usize::MAX,
    ensures
        final(done)@.map_values(|l: Lexeme| l@) == flushed(
            ScanState { done: old(done)@.map_values(|l: Lexeme| l@), breaks: breaks as nat, cur: cur@ },
        ),
{
    if cur.len() > 0 {
        let ghost text = cur@;
        done.push_back(Lexeme { line: breaks + 1, text: cur });
        assert(final(done)@.map_values(|l: Lexeme| l@) =~= old(done)@.map_values(|l: Lexeme| l@).push(
            (breaks as nat + 1, text),
        ));
    }
}

impl Tokens {
    /// Splits `string` into lexemes, each tagged with its 1-based line.
    pub fn new(string: String) -> (r: Tokens)
        ensures
            r@ == lexemes_of(string@),
    {
        let s = string.as_str();
        let n = s.unicode_len();
        let mut done: VecDeque<Lexeme> = VecDeque::new();
        let mut breaks: usize = 0;
        let mut cur: Vec<char> = Vec::new();
        let ghost mut i: int = 0;
        assert(s@.take(0) =~= Seq::<char>::empty());
        assert(done@.map_values(|l: Lexeme| l@) =~= Seq::<LexemeModel>::empty());
        assert(cur@ =~= Seq::<char>::empty());
        for c in it: s.chars()
            invariant
                it.seq() == s@,
                n == s@.len(),
                i == it.index(),
                breaks + cur@.len() <= i,
                scan(s@.take(i)) == (ScanState {
                    done: done@.map_values(|l: Lexeme| l@),
                    breaks: breaks as nat,
                    cur: cur@,
                }),
        {
            let ghost st = scan(s@.take(i));
            proof {
                assert(s@.take(i + 1).drop_last() =~= s@.take(i));
                assert(c == s@[i]);
                assert(scan(s@.take(i + 1)) == scan_step(st, c));
            }
            if c == '\n' {
                flush(&mut done, breaks, cur);
                cur = Vec::new();
                assert(cur@ =~= Seq::<char>::empty());
                breaks = breaks + 1;
            } else if is_whitespace_char(c) {
                flush(&mut done, breaks, cur);
                cur = Vec::new();
                assert(cur@ =~= Seq::<char>::empty());
            } else if c == '.' || ('0' <= c && c <= '9') {
                cur.push(c);
                assert(cur@ =~= st.cur.push(c));
            } else {
                flush(&mut done, breaks, cur);
                cur = Vec::new();
                assert(cur@ =~= Seq::<char>::empty());
                let ghost before = done@.map_values(|l: Lexeme| l@);
                let mut text: Vec<char> = Vec::new();
                text.push(c);
                assert(text@ =~= seq![c]);
                done.push_back(Lexeme { line: breaks + 1, text });
                assert(done@.map_values(|l: Lexeme| l@) =~= before.push((breaks as nat + 1, seq![c])));
            }
            proof {
                i = i + 1;
            }
        }
        assert(s@.take(i) =~= s@);
        flush(&mut done, breaks, cur);
                cur = Vec::new();
        Tokens { lexemes: done }
    }
}

/// A numeric literal: digits with at most one decimal point, and at least
/// one digit. These are exactly the digit-and-point lexemes that read as a
/// decimal floating-point number.
pub open spec fn is_numeral(text: Seq<char>) -> bool {
    &&& forall|i: int| 0 <= i < text.len() ==> is_numeral_char(#[trigger] text[i])
    &&& exists|i: int| 0 <= i < text.len() && is_digit(#[trigger] text[i])
    &&& forall|i: int, j: int|
        0 <= i < text.len() && 0 <= j < text.len() && #[trigger] text[i] == '.' && #[trigger] text[j]
            == '.' ==> i == j
}

/// No numeric literal is also an operator.
pub proof fn lemma_numeral_not_operator(text: Seq<char>)
    requires
        is_numeral(text),
    ensures
        operation_of(text) is None,
{
    if text.len() == 1 {
        assert(is_numeral_char(text[0]));
    }
}

/// What a token stands for: the text of a numeric literal, or an operator.
pub enum TokenModel {
    Operand(Seq<char>),
    Operator(Operation),
}

/// The token a lexeme denotes, or the lexeme itself when it is neither an
/// operator nor a numeric literal.
pub open spec fn classify(lexeme: LexemeModel) -> Result<TokenModel, LexemeModel> {
    if let Some(op) = operation_of(lexeme.1) {
        Ok(TokenModel::Operator(op))
    } else if is_numeral(lexeme.1) {
        Ok(TokenModel::Operand(lexeme.1))
    } else {
        Err(lexeme)
    }
}

/// A classified lexeme. An operand keeps the text of its numeric literal,
/// which reads as a decimal floating-point number.
#[derive(Debug)]
pub enum Token {
    Operand(String),
    Operator(Operation),
}

impl View for Token {
    type V = TokenModel;

    open spec fn view(&self) -> TokenModel {
        match self {
            Token::Operand(text) => TokenModel::Operand(text@),
            Token::Operator(op) => TokenModel::Operator(*op),
        }
    }
}

/// A lexeme that is neither an operator nor a numeric literal, with the line
/// it stands on.
#[derive(Debug)]
pub struct TokenizerError {
    pub line: usize,
    pub parse_operation_error: ParseOperationError,
}

impl View for TokenizerError {
    type V = LexemeModel;

    open spec fn view(&self) -> LexemeModel {
        (self.line as nat, self.parse_operation_error.lexeme@)
    }
}

/// The model of one item of the token stream.
pub open spec fn item_view(item: Result<Token, TokenizerError>) -> Result<TokenModel, LexemeModel> {
    match item {
        Ok(t) => Ok(t@),
        Err(e) => Err(e@),
    }
}

/// Relies on `String`'s `FromIterator<char>`: the characters are kept, in order.
#[verifier::external_body]
fn string_from_chars(chars: &Vec<char>) -> (r: String)
    ensures
        r@ == chars@,
{
    chars.iter().collect()
}

/// Whether `text` is a numeric literal.
fn check_numeral(text: &Vec<char>) -> (r: bool)
    ensures
        r == is_numeral(text@),
{
    let mut seen_digit = false;
    let mut point: Option<usize> = None;
    let mut i: usize = 0;
    while i < text.len()
        invariant
            i <= text@.len(),
            forall|k: int| 0 <= k < i ==> is_numeral_char(#[trigger] text@[k]),
            seen_digit == exists|k: int| 0 <= k < i && is_digit(#[trigger] text@[k]),
            match point {
                None => forall|k: int| 0 <= k < i ==> #[trigger] text@[k] != '.',
                Some(p) => p < i && text@[p as int] == '.' && forall|k: int|
                    0 <= k < i && #[trigger] text@[k] == '.' ==> k == p,
            },
        decreases text@.len() - i,
    {
        let c = text[i];
        if c == '.' {
            if point.is_some() {
                assert(text@[point.unwrap() as int] == '.' && text@[i as int] == '.');
                return false;
            }
            point = Some(i);
        } else if '0' <= c && c <= '9' {
            seen_digit = true;
        } else {
            return false;
        }
        i = i + 1;
    }
    seen_digit
}

impl Tokens {
    /// Classifies the next lexeme, or gives `None` when none is left.
    pub fn next(&mut self) -> (r: Option<Result<Token, TokenizerError>>)
        ensures
            old(self)@.len() == 0 ==> r is None && final(self)@ == old(self)@,
            old(self)@.len() > 0 ==> r is Some && item_view(r->0) == classify(old(self)@[0])
                && final(self)@ == old(self)@.drop_first(),
    {
        let ghost before = self.lexemes@;
        match self.lexemes.pop_front() {
            None => None,
            Some(lexeme) => {
                assert(self.lexemes@.map_values(|l: Lexeme| l@) =~= before.map_values(
                    |l: Lexeme| l@,
                ).drop_first());
                let text = string_from_chars(&lexeme.text);
                match Operation::from_str(text.as_str()) {
                    Ok(op) => Some(Ok(Token::Operator(op))),
                    Err(parse_operation_error) => {
                        if check_numeral(&lexeme.text) {
                            Some(Ok(Token::Operand(text)))
                        } else {
                            Some(Err(TokenizerError { line: lexeme.line, parse_operation_error }))
                        }
                    },
                }
            },
        }
    }
}

} // verus!
