//! Evaluator: drains a token stream through an operand stack.
//!
//! Operands are kept as the text of their numeric literals and results as the
//! operator nodes that produce them, so the stack discipline is checked here
//! independently of the number format in which the nodes are later computed.
use vstd::prelude::*;
use crate::parse::{classify, LexemeModel, Operation, Token, TokenModel, TokenizerError, Tokens};

verus! {

/// A value on the stack: a numeric literal, or an operator applied to a
/// left-hand and a right-hand value.
pub enum Term {
    Number(Seq<char>),
    Apply(Operation, Box<Term>, Box<Term>),
}

/// Why an evaluation stopped: a lexeme that is no token, or an operator that
/// found fewer than two values on the stack.
pub enum Failure {
    Lexical(LexemeModel),
    Underflow(Operation),
}

/// The stack after one lexeme: an operand is pushed; an operator pops the
/// right-hand value, then the left-hand one, and pushes their combination.
pub open spec fn step(stack: Seq<Term>, lexeme: LexemeModel) -> Result<Seq<Term>, Failure> {
    match classify(lexeme) {
        Ok(TokenModel::Operand(text)) => Ok(stack.push(Term::Number(text))),
        Ok(TokenModel::Operator(op)) => if stack.len() < 2 {
            Err(Failure::Underflow(op))
        } else {
            Ok(
                stack.subrange(0, stack.len() - 2).push(
                    Term::Apply(op, Box::new(stack[stack.len() - 2]), Box::new(stack.last())),
                ),
            )
        },
        Err(lx) => Err(Failure::Lexical(lx)),
    }
}

/// Runs the lexemes in order from `stack`, stopping at the first failure.
pub open spec fn run(stack: Seq<Term>, lexemes: Seq<LexemeModel>) -> Result<Seq<Term>, Failure>
    decreases lexemes.len(),
{
    if lexemes.len() == 0 {
        Ok(stack)
    } else {
        match step(stack, lexemes[0]) {
            Ok(next) => run(next, lexemes.drop_first()),
            Err(f) => Err(f),
        }
    }
}

/// A node of an evaluation: a numeric literal, or an operator applied to two
/// earlier nodes (left-hand, then right-hand).
#[derive(Debug)]
pub enum Node {
    Number(String),
    Apply(Operation, usize, usize),
}

/// The value that node `i` stands for.
pub open spec fn term_at(nodes: Seq<Node>, i: int) -> Term
    decreases i,
{
    if i < 0 {
        Term::Number(Seq::empty())
    } else {
        match nodes[i] {
            Node::Number(text) => Term::Number(text@),
            Node::Apply(op, l, r) => if l < i && r < i {
                Term::Apply(op, Box::new(term_at(nodes, l as int)), Box::new(term_at(nodes, r as int)))
            } else {
                Term::Number(Seq::empty())
            },
        }
    }
}

/// The outcome of a successful evaluation: the nodes that were computed, and
/// the final stack, bottom to top, as indices of nodes.
#[derive(Debug)]
pub struct Evaluation {
    pub nodes: Vec<Node>,
    pub stack: Vec<usize>,
}

impl Evaluation {
    /// Each node refers only to earlier nodes, each literal reads as a
    /// number, and each stack entry names a node.
    pub open spec fn wf(&self) -> bool {
        &&& forall|i: int|
            0 <= i < self.nodes@.len() ==> match #[trigger] self.nodes@[i] {
                Node::Number(text) => crate::parse::is_numeral(text@),
                Node::Apply(_, l, r) => l < i && r < i,
            }
        &&& forall|k: int| 0 <= k < self.stack@.len() ==> #[trigger] self.stack@[k] < self.nodes@.len()
    }

    /// The final stack, bottom to top, as values.
    pub open spec fn terms(&self) -> Seq<Term> {
        self.stack@.map_values(|i: usize| term_at(self.nodes@, i as int))
    }
}

/// Why `solve` stopped.
#[derive(Debug)]
pub enum SolverError {
    TokenizerError(TokenizerError),
    StackUnderflow(Operation),
}

impl View for SolverError {
    type V = Failure;

    open spec fn view(&self) -> Failure {
        match self {
            SolverError::TokenizerError(e) => Failure::Lexical(e@),
            SolverError::StackUnderflow(op) => Failure::Underflow(*op),
        }
    }
}

/// The model of what `solve` returns.
pub open spec fn outcome_view(r: Result<Evaluation, SolverError>) -> Result<Seq<Term>, Failure> {
    match r {
        Ok(ev) => Ok(ev.terms()),
        Err(e) => Err(e@),
    }
}

proof fn lemma_term_at_push(nodes: Seq<Node>, n: Node, j: int)
    requires
        0 <= j < nodes.len(),
    ensures
        term_at(nodes.push(n), j) == term_at(nodes, j),
    decreases j,
{
    assert(nodes.push(n)[j] == nodes[j]);
    match nodes[j] {
        Node::Number(_) => {},
        Node::Apply(_, l, r) => {
            if l < j && r < j {
                lemma_term_at_push(nodes, n, l as int);
                lemma_term_at_push(nodes, n, r as int);
            }
        },
    }
}

proof fn lemma_terms_push(nodes: Seq<Node>, n: Node, stack: Seq<usize>)
    requires
        forall|k: int| 0 <= k < stack.len() ==> #[trigger] stack[k] < nodes.len(),
    ensures
        stack.map_values(|i: usize| term_at(nodes.push(n), i as int)) == stack.map_values(
            |i: usize| term_at(nodes, i as int),
        ),
{
    assert forall|k: int| 0 <= k < stack.len() implies term_at(nodes.push(n), stack[k] as int)
        == term_at(nodes, stack[k] as int) by {
        lemma_term_at_push(nodes, n, stack[k] as int);
    }
    assert(stack.map_values(|i: usize| term_at(nodes.push(n), i as int)) =~= stack.map_values(
        |i: usize| term_at(nodes, i as int),
    ));
}

/// Drains `tokens`, stopping at the first error.
pub fn solve(tokens: Tokens) -> (r: Result<Evaluation, SolverError>)
    ensures
        outcome_view(r) == run(Seq::empty(), tokens@),
        r matches Ok(ev) ==> ev.wf(),
{
    let ghost all = tokens@;
    let mut stream = tokens;
    let mut ev = Evaluation { nodes: Vec::new(), stack: Vec::new() };
    assert(ev.terms() =~= Seq::<Term>::empty());
    loop
        invariant
            ev.wf(),
            all == tokens@,
            run(Seq::empty(), all) == run(ev.terms(), stream@),
        decreases stream@.len(),
    {
        let ghost terms = ev.terms();
        let ghost rest = stream@;
        let ghost nodes = ev.nodes@;
        match stream.next() {
            None => {
                return Ok(ev);
            },
            Some(Ok(Token::Operand(text))) => {
                let ghost literal = text@;
                let idx = ev.nodes.len();
                let ghost node = Node::Number(text);
                ev.nodes.push(Node::Number(text));
                proof {
                    lemma_terms_push(nodes, node, ev.stack@);
                }
                ev.stack.push(idx);
                assert(ev.terms() =~= terms.push(Term::Number(literal)));
            },
            Some(Ok(Token::Operator(op))) => {
                if ev.stack.len() < 2 {
                    return Err(SolverError::StackUnderflow(op));
                }
                let rhs = ev.stack.pop().unwrap();
                let lhs = ev.stack.pop().unwrap();
                let ghost kept = ev.stack@;
                assert(kept.map_values(|i: usize| term_at(nodes, i as int)) =~= terms.subrange(
                    0,
                    terms.len() - 2,
                ));
                let idx = ev.nodes.len();
                ev.nodes.push(Node::Apply(op, lhs, rhs));
                proof {
                    lemma_terms_push(nodes, Node::Apply(op, lhs, rhs), kept);
                    lemma_term_at_push(nodes, Node::Apply(op, lhs, rhs), lhs as int);
                    lemma_term_at_push(nodes, Node::Apply(op, lhs, rhs), rhs as int);
                }
                ev.stack.push(idx);
                assert(ev.terms() =~= terms.subrange(0, terms.len() - 2).push(
                    Term::Apply(op, Box::new(terms[terms.len() - 2]), Box::new(terms.last())),
                ));
            },
            Some(Err(e)) => {
                return Err(SolverError::TokenizerError(e));
            },
        }
    }
}

/// The symbol of an operator.
pub open spec fn symbol(op: Operation) -> Seq<char> {
    match op {
        Operation::Add => seq!['+'],
        Operation::Subtract => seq!['-'],
        Operation::Multiply => seq!['*'],
        Operation::Divide => seq!['/'],
    }
}

/// Every literal of the term is a numeric literal.
pub open spec fn is_literal_term(t: Term) -> bool
    decreases t,
{
    match t {
        Term::Number(text) => crate::parse::is_numeral(text),
        Term::Apply(_, l, r) => is_literal_term(*l) && is_literal_term(*r),
    }
}

/// The term written in postfix order, every lexeme on line `line`.
pub open spec fn postfix(t: Term, line: nat) -> Seq<LexemeModel>
    decreases t,
{
    match t {
        Term::Number(text) => seq![(line, text)],
        Term::Apply(op, l, r) => postfix(*l, line) + postfix(*r, line) + seq![(line, symbol(op))],
    }
}

/// The outcome of evaluating a whole text.
pub open spec fn outcome(text: Seq<char>) -> Result<Seq<Term>, Failure> {
    run(Seq::empty(), crate::parse::lexemes_of(text))
}

/// Running two runs of lexemes one after the other is running the first, then
/// the second from where the first left the stack.
pub proof fn lemma_run_concat(stack: Seq<Term>, a: Seq<LexemeModel>, b: Seq<LexemeModel>)
    ensures
        run(stack, a + b) == match run(stack, a) {
            Ok(mid) => run(mid, b),
            Err(f) => Err(f),
        },
    decreases a.len(),
{
    if a.len() == 0 {
        assert(a + b =~= b);
    } else {
        assert((a + b)[0] == a[0]);
        assert((a + b).drop_first() =~= a.drop_first() + b);
        if let Ok(next) = step(stack, a[0]) {
            lemma_run_concat(next, a.drop_first(), b);
        }
    }
}

/// A postfix expression with enough operands for each operator evaluates to
/// the single value it denotes: whatever lies below on the stack is kept, and
/// the value is pushed on top of it.
pub proof fn lemma_postfix_evaluates(t: Term, line: nat, stack: Seq<Term>)
    requires
        is_literal_term(t),
    ensures
        run(stack, postfix(t, line)) == Ok::<Seq<Term>, Failure>(stack.push(t)),
    decreases t,
{
    match t {
        Term::Number(text) => {
            crate::parse::lemma_numeral_not_operator(text);
            assert(postfix(t, line).drop_first() =~= Seq::<LexemeModel>::empty());
            assert(run(stack.push(t), Seq::<LexemeModel>::empty()) == Ok::<Seq<Term>, Failure>(stack.push(t)));
        },
        Term::Apply(op, l, r) => {
            let lw = postfix(*l, line);
            let rw = postfix(*r, line);
            let ow = seq![(line, symbol(op))];
            lemma_postfix_evaluates(*l, line, stack);
            lemma_postfix_evaluates(*r, line, stack.push(*l));
            lemma_run_concat(stack, lw, rw);
            lemma_run_concat(stack, lw + rw, ow);
            let s2 = stack.push(*l).push(*r);
            lemma_symbol_parses(op);
            assert(s2.subrange(0, s2.len() - 2) =~= stack);
            assert(ow.drop_first() =~= Seq::<LexemeModel>::empty());
            assert(Box::new(*l) == l && Box::new(*r) == r);
        },
    }
}

proof fn lemma_symbol_parses(op: Operation)
    ensures
        crate::parse::operation_of(symbol(op)) == Some(op),
{
}

/// Evaluating the same text twice gives the same outcome: nothing but the
/// text decides it.
pub proof fn lemma_outcome_repeatable(a: Seq<char>, b: Seq<char>)
    requires
        a == b,
    ensures
        outcome(a) == outcome(b),
{
}

} // verus!
