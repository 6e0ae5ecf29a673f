use vstd::prelude::*;
use vstd::string::{StrSliceExecFns, StringExecFns};
use crate::qry::Expr;
use crate::TagName;

verus! {

/// Query operators.
#[derive(Clone, Copy, PartialEq, Eq, Debug, Structural)]
pub enum Oper {
    Intersect,
    Union,
    Neg,
}

/// Lexical units of a query.
pub enum Token {
    Ident(String),
    ParLeft,
    ParRight,
    Op(Oper),
}

/// A token as the contracts see it: an identifier by its characters.
pub enum TokenView {
    Ident(Seq<char>),
    ParLeft,
    ParRight,
    Op(Oper),
}

/// Why a query could not be turned into an expression.
#[derive(Clone, Copy, PartialEq, Eq, Debug, Structural)]
pub enum ParseError {
    /// An operator found fewer operands than it takes.
    MissingOperand,
    /// More than one expression was left once every token was used.
    DanglingExpressions,
    /// A parenthesis reached the postfix evaluator.
    StrayParenthesis,
}

/// A token as the contracts see it.
pub open spec fn token_view(t: Token) -> TokenView {
    match t {
        Token::Ident(s) => TokenView::Ident(s@),
        Token::ParLeft => TokenView::ParLeft,
        Token::ParRight => TokenView::ParRight,
        Token::Op(o) => TokenView::Op(o),
    }
}

/// Tokens as the contracts see them.
pub open spec fn tokens_view(ts: Seq<Token>) -> Seq<TokenView> {
    ts.map_values(|t: Token| token_view(t))
}

/// Binding strength: negation, then intersection, then union.
pub open spec fn prec(op: Oper) -> u8 {
    match op {
        Oper::Neg => 3,
        Oper::Intersect => 2,
        Oper::Union => 1,
    }
}

/// Letters and digits make up identifiers.
pub open spec fn is_ident_char(c: char) -> bool {
    ('a' <= c && c <= 'z') || ('A' <= c && c <= 'Z') || ('0' <= c && c <= '9')
}

/// The token a single character stands for, if it is an operator or a
/// parenthesis.
pub open spec fn punct(c: char) -> Option<TokenView> {
    if c == '(' {
        Some(TokenView::ParLeft)
    } else if c == ')' {
        Some(TokenView::ParRight)
    } else if c == '-' || c == '!' || c == '~' {
        Some(TokenView::Op(Oper::Neg))
    } else if c == '&' {
        Some(TokenView::Op(Oper::Intersect))
    } else if c == '|' || c == '+' {
        Some(TokenView::Op(Oper::Union))
    } else {
        None
    }
}

/// End of the run of identifier characters that starts at `i`.
pub open spec fn ident_end(s: Seq<char>, i: int) -> int
    decreases s.len() - i,
{
    if 0 <= i < s.len() && is_ident_char(s[i]) {
        ident_end(s, i + 1)
    } else {
        i
    }
}

/// The tokens of `s` from position `i` on; characters that are neither
/// identifier characters nor operators are skipped.
pub open spec fn lex_from(s: Seq<char>, i: int) -> Seq<TokenView>
    decreases s.len() - i, 1int,
{
    if i < 0 || i >= s.len() {
        seq![]
    } else if is_ident_char(s[i]) {
        lex_ident(s, i)
    } else if let Some(t) = punct(s[i]) {
        seq![t] + lex_from(s, i + 1)
    } else {
        lex_from(s, i + 1)
    }
}

/// The identifier that starts at `i`, then the tokens after it.
pub open spec fn lex_ident(s: Seq<char>, i: int) -> Seq<TokenView>
    decreases s.len() - i, 0int,
{
    if 0 <= i < s.len() {
        let j = ident_end(s, i + 1);
        if i < j <= s.len() {
            seq![TokenView::Ident(s.subrange(i, j))] + lex_from(s, j)
        } else {
            seq![]
        }
    } else {
        seq![]
    }
}

proof fn lemma_ident_end(s: Seq<char>, i: int)
    requires
        0 <= i <= s.len(),
    ensures
        i <= ident_end(s, i) <= s.len(),
    decreases s.len() - i,
{
    if i < s.len() && is_ident_char(s[i]) {
        lemma_ident_end(s, i + 1);
    }
}

fn is_ident_char_exec(c: char) -> (r: bool)
    ensures
        r == is_ident_char(c),
{
    ('a' <= c && c <= 'z') || ('A' <= c && c <= 'Z') || ('0' <= c && c <= '9')
}

/// Splits a query into tokens.
fn lexer(v: &str) -> (r: Vec<Token>)
    ensures
        tokens_view(r@) == lex_from(v@, 0),
{
    let n = v.unicode_len();
    let mut tokens: Vec<Token> = Vec::new();
    let mut i: usize = 0;
    while i < n
        invariant
            n == v@.len(),
            i <= n,
            tokens_view(tokens@) + lex_from(v@, i as int) == lex_from(v@, 0),
        decreases n - i,
    {
        let c = v.get_char(i);
        let ghost before = tokens_view(tokens@);
        if is_ident_char_exec(c) {
            let mut j: usize = i + 1;
            proof {
                lemma_ident_end(v@, i + 1);
            }
            while j < n && is_ident_char_exec(v.get_char(j))
                invariant
                    n == v@.len(),
                    i < j <= n,
                    ident_end(v@, j as int) == ident_end(v@, i + 1),
                decreases n - j,
            {
                j = j + 1;
            }
            let ident = String::from_str(v.substring_char(i, j));
            tokens.push(Token::Ident(ident));
            assert(tokens_view(tokens@) =~= before + seq![TokenView::Ident(v@.subrange(i as int, j as int))]);
            assert(lex_from(v@, i as int) == lex_ident(v@, i as int));
            i = j;
        } else {
            let t: Option<Token> = if c == '(' {
                Some(Token::ParLeft)
            } else if c == ')' {
                Some(Token::ParRight)
            } else if c == '-' || c == '!' || c == '~' {
                Some(Token::Op(Oper::Neg))
            } else if c == '&' {
                Some(Token::Op(Oper::Intersect))
            } else if c == '|' || c == '+' {
                Some(Token::Op(Oper::Union))
            } else {
                None
            };
            match t {
                Some(t) => {
                    let ghost tv = token_view(t);
                    tokens.push(t);
                    assert(tokens_view(tokens@) =~= before + seq![tv]);
                },
                None => {},
            }
            i = i + 1;
        }
    }
    assert(tokens_view(tokens@) =~= lex_from(v@, 0));
    tokens
}

} // verus!

verus! {

/// Whether a token produces a value, so that one before it with no operator
/// in between is joined to it by an intersection.
pub open spec fn starts_operand(t: Token) -> bool {
    match t {
        Token::Ident(_) | Token::ParLeft | Token::Op(Oper::Neg) => true,
        _ => false,
    }
}

/// Moves operators from the stack to the output until a parenthesis, which is
/// dropped.
pub open spec fn pop_to_paren(out: Seq<Token>, ops: Seq<Token>) -> (Seq<Token>, Seq<Token>)
    decreases ops.len(),
{
    if ops.len() == 0 {
        (out, ops)
    } else if ops.last() is ParLeft {
        (out, ops.drop_last())
    } else {
        pop_to_paren(out.push(ops.last()), ops.drop_last())
    }
}

/// Moves operators that bind at least as tightly as `p` from the stack to the
/// output.
pub open spec fn pop_binding(out: Seq<Token>, ops: Seq<Token>, p: u8) -> (Seq<Token>, Seq<Token>)
    decreases ops.len(),
{
    if ops.len() > 0 && ops.last() is Op && prec(ops.last()->Op_0) >= p {
        pop_binding(out.push(ops.last()), ops.drop_last(), p)
    } else {
        (out, ops)
    }
}

/// Handles an operator: a negation is a prefix and waits on the stack; a
/// binary operator first releases what binds at least as tightly.
pub open spec fn push_op(out: Seq<Token>, ops: Seq<Token>, op: Oper) -> (Seq<Token>, Seq<Token>) {
    if op == Oper::Neg {
        (out, ops.push(Token::Op(op)))
    } else {
        let (o, s) = pop_binding(out, ops, prec(op));
        (o, s.push(Token::Op(op)))
    }
}

/// One step of the reduction to postfix: (output, operator stack, whether the
/// last token ended an operand).
pub open spec fn sy_step(st: (Seq<Token>, Seq<Token>, bool), t: Token) -> (
    Seq<Token>,
    Seq<Token>,
    bool,
) {
    let (out0, ops0, last) = st;
    let (out, ops) = if last && starts_operand(t) {
        push_op(out0, ops0, Oper::Intersect)
    } else {
        (out0, ops0)
    };
    match t {
        Token::Ident(_) => (out.push(t), ops, true),
        Token::ParLeft => (out, ops.push(t), false),
        Token::ParRight => {
            let (o, s) = pop_to_paren(out, ops);
            (o, s, true)
        },
        Token::Op(op) => {
            let (o, s) = push_op(out, ops, op);
            (o, s, false)
        },
    }
}

/// The state after reducing every token of `ts` in turn.
pub open spec fn sy_run(ts: Seq<Token>) -> (Seq<Token>, Seq<Token>, bool)
    decreases ts.len(),
{
    if ts.len() == 0 {
        (seq![], seq![], false)
    } else {
        sy_step(sy_run(ts.drop_last()), ts.last())
    }
}

/// Empties the operator stack onto the output, dropping open parentheses.
pub open spec fn flush(out: Seq<Token>, ops: Seq<Token>) -> Seq<Token>
    decreases ops.len(),
{
    if ops.len() == 0 {
        out
    } else if ops.last() is ParLeft {
        flush(out, ops.drop_last())
    } else {
        flush(out.push(ops.last()), ops.drop_last())
    }
}

/// The postfix form of an infix token sequence.
pub open spec fn postfix(ts: Seq<Token>) -> Seq<Token> {
    let (out, ops, _) = sy_run(ts);
    flush(out, ops)
}

/// Binding strength of an operator.
fn precedence(op: Oper) -> (r: u8)
    ensures
        r == prec(op),
{
    match op {
        Oper::Neg => 3,
        Oper::Intersect => 2,
        Oper::Union => 1,
    }
}

fn pop_binding_exec(out: &mut Vec<Token>, ops: &mut Vec<Token>, p: u8)
    ensures
        (final(out)@, final(ops)@) == pop_binding(old(out)@, old(ops)@, p),
{
    loop
        invariant
            pop_binding(out@, ops@, p) == pop_binding(old(out)@, old(ops)@, p),
        ensures
            (out@, ops@) == pop_binding(old(out)@, old(ops)@, p),
        decreases ops@.len(),
    {
        let n = ops.len();
        if n == 0 {
            return;
        }
        let go = match &ops[n - 1] {
            Token::Op(o) => precedence(*o) >= p,
            _ => false,
        };
        if !go {
            return;
        }
        let t = ops.pop().unwrap();
        out.push(t);
    }
}

fn push_op_exec(out: &mut Vec<Token>, ops: &mut Vec<Token>, op: Oper)
    ensures
        (final(out)@, final(ops)@) == push_op(old(out)@, old(ops)@, op),
{
    if op != Oper::Neg {
        pop_binding_exec(out, ops, precedence(op));
    }
    ops.push(Token::Op(op));
}

fn pop_to_paren_exec(out: &mut Vec<Token>, ops: &mut Vec<Token>)
    ensures
        (final(out)@, final(ops)@) == pop_to_paren(old(out)@, old(ops)@),
{
    loop
        invariant
            pop_to_paren(out@, ops@) == pop_to_paren(old(out)@, old(ops)@),
        ensures
            (out@, ops@) == pop_to_paren(old(out)@, old(ops)@),
        decreases ops@.len(),
    {
        match ops.pop() {
            None => return,
            Some(Token::ParLeft) => return,
            Some(t) => out.push(t),
        }
    }
}

/// Reorders infix tokens into postfix by the shunting-yard method, inserting
/// the intersection that juxtaposition stands for.
fn shunting_yard(toks: Vec<Token>) -> (r: Vec<Token>)
    ensures
        r@ == postfix(toks@),
{
    let mut ts = toks;
    let ghost input = ts@;
    let mut opstack: Vec<Token> = Vec::new();
    let mut out: Vec<Token> = Vec::new();
    let mut lastwasident = false;
    let ghost mut done: Seq<Token> = seq![];
    while ts.len() > 0
        invariant
            done + ts@ == input,
            (out@, opstack@, lastwasident) == sy_run(done),
        decreases ts@.len(),
    {
        let t = ts.remove(0);
        let ghost tg = t;
        proof {
            assert(done.push(tg) + ts@ =~= input);
            assert(done.push(tg).drop_last() =~= done);
        }
        let operand = match &t {
            Token::Ident(_) | Token::ParLeft | Token::Op(Oper::Neg) => true,
            _ => false,
        };
        if lastwasident && operand {
            push_op_exec(&mut out, &mut opstack, Oper::Intersect);
        }
        match t {
            Token::Ident(x) => {
                out.push(Token::Ident(x));
                lastwasident = true;
            },
            Token::ParLeft => {
                opstack.push(Token::ParLeft);
                lastwasident = false;
            },
            Token::ParRight => {
                pop_to_paren_exec(&mut out, &mut opstack);
                lastwasident = true;
            },
            Token::Op(op) => {
                push_op_exec(&mut out, &mut opstack, op);
                lastwasident = false;
            },
        }
        proof {
            done = done.push(tg);
        }
    }
    assert(done =~= input);
    loop
        invariant
            flush(out@, opstack@) == postfix(input),
        ensures
            out@ == postfix(input),
        decreases opstack@.len(),
    {
        match opstack.pop() {
            None => break,
            Some(Token::ParLeft) => {},
            Some(t) => out.push(t),
        }
    }
    out
}

} // verus!

verus! {

/// One step of postfix evaluation over a stack of expressions; a binary
/// operator combines the two most recently pushed operands, the later one
/// first.
pub open spec fn rpn_step(st: Result<Seq<Expr>, ParseError>, t: Token) -> Result<
    Seq<Expr>,
    ParseError,
> {
    match st {
        Err(e) => Err(e),
        Ok(s) => match t {
            Token::Ident(x) => Ok(s.push(Expr::Tag(TagName(x)))),
            Token::Op(Oper::Neg) => if s.len() >= 1 {
                Ok(s.drop_last().push(Expr::Not(Box::new(s.last()))))
            } else {
                Err(ParseError::MissingOperand)
            },
            Token::Op(Oper::Union) => if s.len() >= 2 {
                Ok(
                    s.take(s.len() - 2).push(
                        Expr::Or(Box::new(s.last()), Box::new(s[s.len() - 2])),
                    ),
                )
            } else {
                Err(ParseError::MissingOperand)
            },
            Token::Op(Oper::Intersect) => if s.len() >= 2 {
                Ok(
                    s.take(s.len() - 2).push(
                        Expr::And(Box::new(s.last()), Box::new(s[s.len() - 2])),
                    ),
                )
            } else {
                Err(ParseError::MissingOperand)
            },
            _ => Err(ParseError::StrayParenthesis),
        },
    }
}

/// The expression stack after evaluating every token of `ts` in turn.
pub open spec fn rpn_run(ts: Seq<Token>) -> Result<Seq<Expr>, ParseError>
    decreases ts.len(),
{
    if ts.len() == 0 {
        Ok(seq![])
    } else {
        rpn_step(rpn_run(ts.drop_last()), ts.last())
    }
}

/// The expression a postfix token sequence describes: none for no tokens,
/// an error when an operator lacks operands or more than one expression is
/// left.
pub open spec fn rpn_result(ts: Seq<Token>) -> Result<Option<Expr>, ParseError> {
    match rpn_run(ts) {
        Err(e) => Err(e),
        Ok(s) => if s.len() > 1 {
            Err(ParseError::DanglingExpressions)
        } else if s.len() == 1 {
            Ok(Some(s[0]))
        } else {
            Ok(None)
        },
    }
}

/// Once evaluation fails, later tokens do not change the error.
proof fn lemma_rpn_error_sticks(done: Seq<Token>, rest: Seq<Token>)
    requires
        rpn_run(done) is Err,
    ensures
        rpn_run(done + rest) == rpn_run(done),
    decreases rest.len(),
{
    if rest.len() == 0 {
        assert(done + rest =~= done);
    } else {
        lemma_rpn_error_sticks(done, rest.drop_last());
        assert((done + rest).drop_last() =~= done + rest.drop_last());
    }
}

/// Builds the expression tree of a postfix token sequence.
fn rpn_to_expr(tokens: Vec<Token>) -> (r: Result<Option<Expr>, ParseError>)
    ensures
        r == rpn_result(tokens@),
{
    let mut ts = tokens;
    let ghost input = ts@;
    let ghost mut done: Seq<Token> = seq![];
    let mut stack: Vec<Expr> = Vec::new();
    while ts.len() > 0
        invariant
            done + ts@ == input,
            input == tokens@,
            rpn_run(done) == Ok::<Seq<Expr>, ParseError>(stack@),
        decreases ts@.len(),
    {
        let t = ts.remove(0);
        let ghost tg = t;
        proof {
            assert(done.push(tg) + ts@ =~= input);
            assert(done.push(tg).drop_last() =~= done);
            done = done.push(tg);
        }
        let ghost s = stack@;
        match t {
            Token::Ident(x) => stack.push(Expr::Tag(TagName(x))),
            Token::Op(Oper::Neg) => {
                match stack.pop() {
                    Some(x) => stack.push(Expr::Not(Box::new(x))),
                    None => {
                        proof {
                            lemma_rpn_error_sticks(done, ts@);
                        }
                        return Err(ParseError::MissingOperand);
                    },
                }
            },
            Token::Op(op) => {
                if stack.len() < 2 {
                    proof {
                        lemma_rpn_error_sticks(done, ts@);
                    }
                    return Err(ParseError::MissingOperand);
                }
                let a = stack.pop().unwrap();
                let b = stack.pop().unwrap();
                proof {
                    assert(stack@ =~= s.take(s.len() - 2));
                }
                if op == Oper::Union {
                    stack.push(Expr::Or(Box::new(a), Box::new(b)));
                } else {
                    stack.push(Expr::And(Box::new(a), Box::new(b)));
                }
            },
            _ => {
                proof {
                    lemma_rpn_error_sticks(done, ts@);
                }
                return Err(ParseError::StrayParenthesis);
            },
        }
    }
    assert(done =~= input);
    if stack.len() > 1 {
        return Err(ParseError::DanglingExpressions);
    }
    Ok(stack.pop())
}

/// Parses a query into an expression; `Ok(None)` when it holds no operand
/// or operator, which stands for every item.
pub fn parse_query(v: &str) -> (r: Result<Option<Expr>, ParseError>)
    ensures
        exists|ts: Seq<Token>| tokens_view(ts) == lex_from(v@, 0) && r == rpn_result(postfix(ts)),
{
    let lexems = lexer(v);
    let ghost ts = lexems@;
    let shunted = shunting_yard(lexems);
    rpn_to_expr(shunted)
}

} // verus!
