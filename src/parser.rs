use crate::errors::{CompileError, CompileErrorType, ParseError};
use crate::tokenizer::{is_lower, token_ok, Lexeme, RawTokens, Separator, TokenKind};
use std::ops::Range;
use vstd::prelude::*;
use vstd::set_lib::{lemma_int_range, lemma_len_subset, set_int_range};
use vstd::string::StringSliceAdditionalSpecFns;

verus! {

// ---------------------------------------------------------------------------
// Trees.
// ---------------------------------------------------------------------------
/// The storage slot of one variable.
#[derive(Debug)]
pub struct LocalVar {
    name: u8,
    offset: usize,
}

#[derive(Debug, Copy, Clone, PartialEq, Eq, Structural)]
pub enum NodeKind {
    /// A variable, by the offset of its slot below the frame base.
    Var(usize),
    Number(i64),
    Add,
    Sub,
    Mul,
    Div,
    /// `==`
    Eq,
    /// `!=`
    NotEq,
    /// `<`
    Less,
    /// `<=`
    LessEq,
    /// `=`
    Assign,
    Return,
}

/// A node of the syntax tree, which owns its children.
#[derive(Debug, PartialEq)]
pub struct Node {
    pub kind: NodeKind,
    pub lhs: Option<Box<Node>>,
    pub rhs: Option<Box<Node>>,
}

pub open spec fn boxed(n: Option<Node>) -> Option<Box<Node>> {
    match n {
        Some(x) => Some(Box::new(x)),
        None => None,
    }
}

pub open spec fn leaf(kind: NodeKind) -> Node {
    Node { kind, lhs: None, rhs: None }
}

pub open spec fn branch(kind: NodeKind, l: Node, r: Node) -> Node {
    Node { kind, lhs: Some(Box::new(l)), rhs: Some(Box::new(r)) }
}

impl Node {
    fn new(kind: NodeKind, lhs: Option<Node>, rhs: Option<Node>) -> (r: Self)
        ensures
            r == (Node { kind, lhs: boxed(lhs), rhs: boxed(rhs) }),
    {
        let lhs = match lhs {
            Some(l) => Some(Box::new(l)),
            None => None,
        };
        let rhs = match rhs {
            Some(r) => Some(Box::new(r)),
            None => None,
        };
        Node { kind, lhs, rhs }
    }
}

// ---------------------------------------------------------------------------
// The grammar, stated over the tokens' view. Each rule takes the tokens, the
// position to start at and the variables seen so far (in order of first sight),
// and gives the tree, the position after it and the variables seen then; or the
// first error.
// ---------------------------------------------------------------------------
/// The outcome of a rule: the tree, the position after it and the variables seen;
/// or the first error, with the position where the parse stopped (the offending
/// token, unconsumed, or the end of the tokens) and the variables seen then.
pub type Parsed = Result<(Node, int, Seq<u8>), Failure>;

/// A parse error, the position where it stopped and the variables seen.
pub type Failure = (CompileError, int, Seq<u8>);

/// A parse error, at the range of the token where it was found, if any.
pub open spec fn parse_error(kind: ParseError, at: Option<Lexeme>) -> CompileError {
    CompileError {
        error_type: CompileErrorType::Parsing(kind),
        pos: match at {
            Some(t) => Some(Range { start: t.start as usize, end: t.end as usize }),
            None => None,
        },
    }
}

/// The offset of the slot for variable `c`: the slot of its first sight, or the
/// next free one, which `c` then takes.
pub open spec fn resolve(names: Seq<u8>, c: u8) -> (usize, Seq<u8>) {
    if names.contains(c) {
        (slot_offset(names.index_of(c)), names)
    } else {
        (slot_offset(names.len() as int), names.push(c))
    }
}

/// The offset of the `i`-th slot: eight bytes per slot, below the frame base.
pub open spec fn slot_offset(i: int) -> usize {
    ((i + 1) * 8) as usize
}

/// expression := assignment
pub open spec fn parse_expr(ts: Seq<Lexeme>, p: int, names: Seq<u8>) -> Parsed
    decreases ts.len() - p, 9nat,
{
    parse_assign(ts, p, names)
}

/// assignment := equality ('=' assignment)?
pub open spec fn parse_assign(ts: Seq<Lexeme>, p: int, names: Seq<u8>) -> Parsed
    decreases ts.len() - p, 8nat,
{
    match parse_equality(ts, p, names) {
        Err(e) => Err(e),
        Ok((n, q, nm)) => if p <= q < ts.len() && ts[q].kind == TokenKind::Assign {
            match parse_assign(ts, q + 1, nm) {
                Err(e) => Err(e),
                Ok((m, r, nm2)) => Ok((branch(NodeKind::Assign, n, m), r, nm2)),
            }
        } else {
            Ok((n, q, nm))
        },
    }
}

/// equality := relational (('==' | '!=') relational)*
pub open spec fn parse_equality(ts: Seq<Lexeme>, p: int, names: Seq<u8>) -> Parsed
    decreases ts.len() - p, 7nat,
{
    match parse_relational(ts, p, names) {
        Err(e) => Err(e),
        Ok((n, q, nm)) => equality_rest(ts, p, n, q, nm),
    }
}

/// The repetition of `equality` from position `q` on, where `n` is the tree so far.
pub open spec fn equality_rest(ts: Seq<Lexeme>, lo: int, n: Node, q: int, names: Seq<u8>) -> Parsed
    decreases ts.len() - lo, 0nat,
{
    if lo <= q < ts.len() && (ts[q].kind == TokenKind::Eq || ts[q].kind == TokenKind::NotEq) {
        let op = if ts[q].kind == TokenKind::Eq {
            NodeKind::Eq
        } else {
            NodeKind::NotEq
        };
        match parse_relational(ts, q + 1, names) {
            Err(e) => Err(e),
            Ok((m, r, nm)) => equality_rest(ts, q + 1, branch(op, n, m), r, nm),
        }
    } else {
        Ok((n, q, names))
    }
}

/// relational := additive (('<' | '<=' | '>' | '>=') additive)*, where `a > b`
/// is read as `b < a` and `a >= b` as `b <= a`.
pub open spec fn parse_relational(ts: Seq<Lexeme>, p: int, names: Seq<u8>) -> Parsed
    decreases ts.len() - p, 6nat,
{
    match parse_add(ts, p, names) {
        Err(e) => Err(e),
        Ok((n, q, nm)) => relational_rest(ts, p, n, q, nm),
    }
}

pub open spec fn is_relational(k: TokenKind) -> bool {
    k == TokenKind::Less || k == TokenKind::LessEq || k == TokenKind::Greater || k
        == TokenKind::GreaterEq
}

pub open spec fn relational_rest(
    ts: Seq<Lexeme>,
    lo: int,
    n: Node,
    q: int,
    names: Seq<u8>,
) -> Parsed
    decreases ts.len() - lo, 0nat,
{
    if lo <= q < ts.len() && is_relational(ts[q].kind) {
        let k = ts[q].kind;
        match parse_add(ts, q + 1, names) {
            Err(e) => Err(e),
            Ok((m, r, nm)) => {
                let t = if k == TokenKind::Less {
                    branch(NodeKind::Less, n, m)
                } else if k == TokenKind::LessEq {
                    branch(NodeKind::LessEq, n, m)
                } else if k == TokenKind::Greater {
                    branch(NodeKind::Less, m, n)
                } else {
                    branch(NodeKind::LessEq, m, n)
                };
                relational_rest(ts, q + 1, t, r, nm)
            },
        }
    } else {
        Ok((n, q, names))
    }
}

/// additive := term (('+' | '-') term)*
pub open spec fn parse_add(ts: Seq<Lexeme>, p: int, names: Seq<u8>) -> Parsed
    decreases ts.len() - p, 5nat,
{
    match parse_mul(ts, p, names) {
        Err(e) => Err(e),
        Ok((n, q, nm)) => add_rest(ts, p, n, q, nm),
    }
}

pub open spec fn add_rest(ts: Seq<Lexeme>, lo: int, n: Node, q: int, names: Seq<u8>) -> Parsed
    decreases ts.len() - lo, 0nat,
{
    if lo <= q < ts.len() && (ts[q].kind == TokenKind::Add || ts[q].kind == TokenKind::Sub) {
        let op = if ts[q].kind == TokenKind::Add {
            NodeKind::Add
        } else {
            NodeKind::Sub
        };
        match parse_mul(ts, q + 1, names) {
            Err(e) => Err(e),
            Ok((m, r, nm)) => add_rest(ts, q + 1, branch(op, n, m), r, nm),
        }
    } else {
        Ok((n, q, names))
    }
}

/// term := unary (('*' | '/') unary)*; a number right after an operand is an error.
pub open spec fn parse_mul(ts: Seq<Lexeme>, p: int, names: Seq<u8>) -> Parsed
    decreases ts.len() - p, 4nat,
{
    match parse_unary(ts, p, names) {
        Err(e) => Err(e),
        Ok((n, q, nm)) => mul_rest(ts, p, n, q, nm),
    }
}

pub open spec fn mul_rest(ts: Seq<Lexeme>, lo: int, n: Node, q: int, names: Seq<u8>) -> Parsed
    decreases ts.len() - lo, 0nat,
{
    if lo <= q < ts.len() && (ts[q].kind == TokenKind::Mul || ts[q].kind == TokenKind::Div) {
        let op = if ts[q].kind == TokenKind::Mul {
            NodeKind::Mul
        } else {
            NodeKind::Div
        };
        match parse_unary(ts, q + 1, names) {
            Err(e) => Err(e),
            Ok((m, r, nm)) => mul_rest(ts, q + 1, branch(op, n, m), r, nm),
        }
    } else if 0 <= q < ts.len() && ts[q].kind is Number {
        Err((parse_error(ParseError::CannotParse, Some(ts[q])), q, names))
    } else {
        Ok((n, q, names))
    }
}

/// unary := ('+' | '-')? primary; `+x` is `x` and `-x` is `0 - x`.
pub open spec fn parse_unary(ts: Seq<Lexeme>, p: int, names: Seq<u8>) -> Parsed
    decreases ts.len() - p, 3nat,
{
    if p < 0 || p >= ts.len() {
        Err((parse_error(ParseError::TrailingOp, None), p, names))
    } else if ts[p].kind == TokenKind::Add {
        parse_unary(ts, p + 1, names)
    } else if ts[p].kind == TokenKind::Sub {
        match parse_unary(ts, p + 1, names) {
            Err(e) => Err(e),
            Ok((m, r, nm)) => Ok((branch(NodeKind::Sub, leaf(NodeKind::Number(0)), m), r, nm)),
        }
    } else {
        parse_primary(ts, p, names)
    }
}

/// primary := NUMBER | IDENTIFIER | '(' expression ')'
pub open spec fn parse_primary(ts: Seq<Lexeme>, p: int, names: Seq<u8>) -> Parsed
    decreases ts.len() - p, 2nat,
{
    if p < 0 || p >= ts.len() {
        Err((parse_error(ParseError::TrailingOp, None), p, names))
    } else if ts[p].kind == TokenKind::Sep(Separator::RoundBracketL) {
        match parse_expr(ts, p + 1, names) {
            Err(e) => Err(e),
            Ok((n, q, nm)) => if q < 0 || q >= ts.len() {
                Err((parse_error(ParseError::NotFoundRoundBracketR, None), q, nm))
            } else if ts[q].kind != TokenKind::Sep(Separator::RoundBracketR) {
                Err((parse_error(ParseError::NotFoundRoundBracketR, Some(ts[q])), q, nm))
            } else {
                Ok((n, q + 1, nm))
            },
        }
    } else if ts[p].kind is Number {
        Ok((leaf(NodeKind::Number(ts[p].kind->Number_0)), p + 1, names))
    } else if ts[p].kind == TokenKind::Ident {
        let (offset, nm) = resolve(names, ts[p].text[0]);
        Ok((leaf(NodeKind::Var(offset)), p + 1, nm))
    } else {
        Err((parse_error(ParseError::NotNumber, Some(ts[p])), p, names))
    }
}

/// statement := expression ';'
pub open spec fn parse_stmt(ts: Seq<Lexeme>, p: int, names: Seq<u8>) -> Parsed {
    if p < 0 || p >= ts.len() {
        Err((parse_error(ParseError::Empty, None), p, names))
    } else {
        match parse_expr(ts, p, names) {
            Err(e) => Err(e),
            Ok((n, q, nm)) => if q < 0 || q >= ts.len() {
                Err((parse_error(ParseError::NeedSemiColon, None), q, nm))
            } else if ts[q].kind != TokenKind::Sep(Separator::SemiColon) {
                Err((parse_error(ParseError::NeedSemiColon, Some(ts[q])), q, nm))
            } else {
                Ok((n, q + 1, nm))
            },
        }
    }
}

/// program := statement*, the statements in order and the variables seen.
pub open spec fn parse_program(ts: Seq<Lexeme>, p: int, names: Seq<u8>) -> Result<
    (Seq<Node>, Seq<u8>),
    CompileError,
>
    decreases ts.len() - p,
{
    if p < 0 || p >= ts.len() {
        Ok((seq![], names))
    } else {
        match parse_stmt(ts, p, names) {
            Err((e, _, _)) => Err(e),
            Ok((n, q, nm)) => if q <= p {
                Ok((seq![n], nm))
            } else {
                match parse_program(ts, q, nm) {
                    Err(e) => Err(e),
                    Ok((ns, nm2)) => Ok((seq![n] + ns, nm2)),
                }
            },
        }
    }
}

/// The executable outcome `r`, with the cursor left at `q` and the variables `nm`,
/// is the outcome `spec` of the grammar, error case included.
pub open spec fn follows(spec: Parsed, r: Result<Node, CompileError>, q: int, nm: Seq<u8>) -> bool {
    match spec {
        Ok((n, p, names)) => r == Ok::<Node, CompileError>(n) && q == p && nm == names,
        Err((e, p, names)) => r == Err::<Node, CompileError>(e) && q == p && nm == names,
    }
}

/// What every rule of the parser keeps: both stay well formed, the tokens are
/// unchanged and the cursor does not move back.
pub open spec fn steps(p0: Parser, p1: Parser, t0: RawTokens, t1: RawTokens) -> bool {
    &&& p1.wf()
    &&& t1.wf()
    &&& t1.lexemes() == t0.lexemes()
    &&& t0.cursor() <= t1.cursor() <= t1.lexemes().len()
}

/// Distinct lowercase letters are at most 26.
proof fn lemma_few_names(names: Seq<u8>)
    requires
        names.no_duplicates(),
        forall|i: int| 0 <= i < names.len() ==> is_lower(#[trigger] names[i]),
    ensures
        names.len() <= 26,
{
    let t = names.map_values(|c: u8| c as int);
    assert(t.no_duplicates()) by {
        assert forall|i: int, j: int| 0 <= i < t.len() && 0 <= j < t.len() && i != j implies t[i]
            != t[j] by {
            assert(names[i] != names[j]);
        }
    }
    t.unique_seq_to_set();
    lemma_int_range(0x61, 0x7b);
    assert(t.to_set().subset_of(set_int_range(0x61, 0x7b))) by {
        assert forall|x: int| t.to_set().contains(x) implies set_int_range(0x61, 0x7b).contains(
            x,
        ) by {
            let i = choose|i: int| 0 <= i < t.len() && t[i] == x;
            assert(is_lower(names[i]));
        }
    }
    lemma_len_subset(t.to_set(), set_int_range(0x61, 0x7b));
}

/// The parser's state: the variables seen so far and their slots.
#[derive(Debug)]
pub struct Parser {
    locals: Vec<LocalVar>,
}

impl Parser {
    /// The variables seen so far, in order of first sight.
    pub closed spec fn names(&self) -> Seq<u8> {
        self.locals@.map_values(|v: LocalVar| v.name)
    }

    /// Slots are handed out eight bytes apart, in order of first sight; each
    /// variable is a distinct lowercase letter.
    pub closed spec fn wf(&self) -> bool {
        &&& forall|i: int|
            0 <= i < self.locals@.len() ==> (#[trigger] self.locals@[i]).offset == (i + 1) * 8
        &&& self.names().no_duplicates()
        &&& forall|i: int| 0 <= i < self.locals@.len() ==> is_lower((#[trigger] self.locals@[i]).name)
    }

    pub fn new() -> (r: Parser)
        ensures
            r.wf(),
            r.names() == Seq::<u8>::empty(),
    {
        let r = Parser { locals: Vec::new() };
        proof {
            assert(r.names() =~= Seq::<u8>::empty());
        }
        r
    }

    /// The offset of the next free slot.
    fn offset(&self) -> (r: usize)
        requires
            self.wf(),
        ensures
            r == (self.names().len() + 1) * 8,
            r <= 27 * 8,
    {
        proof {
            assert forall|i: int| 0 <= i < self.names().len() implies is_lower(
                #[trigger] self.names()[i],
            ) by {
                assert(is_lower(self.locals@[i].name));
            }
            lemma_few_names(self.names());
        }
        (self.locals.len() + 1) * 8
    }

    /// The offset of the slot of variable `name`, which takes the next free slot
    /// if it is new.
    #[verifier::rlimit(40)]
    fn slot(&mut self, name: u8) -> (offset: usize)
        requires
            old(self).wf(),
            is_lower(name),
        ensures
            final(self).wf(),
            (offset, final(self).names()) == resolve(old(self).names(), name),
    {
        let ghost names = self.names();
        let mut i: usize = 0;
        while i < self.locals.len()
            invariant
                self.wf(),
                names == self.names(),
                names == old(self).names(),
                *self == *old(self),
                i <= self.locals@.len(),
                forall|j: int| 0 <= j < i ==> names[j] != name,
            decreases self.locals@.len() - i,
        {
            if self.locals[i].name == name {
                proof {
                    assert(names[i as int] == name);
                    assert(names.contains(name));
                    let k = names.index_of(name);
                    assert(names[k] == name);
                    assert(k == i);
                }
                return self.locals[i].offset;
            }
            i = i + 1;
        }
        proof {
            assert(!names.contains(name));
        }
        let offset = self.offset();
        self.locals.push(LocalVar { name, offset });
        proof {
            assert(self.names() =~= names.push(name));
            assert forall|j: int, k: int|
                0 <= j < self.names().len() && 0 <= k < self.names().len() && j != k implies self.names()[j]
                != self.names()[k] by {
                if j < names.len() && k < names.len() {
                    assert(names[j] != names[k]);
                }
            }
        }
        offset
    }

    /// Parses statements until the tokens run out.
    pub fn program(&mut self, tokens: &mut RawTokens) -> (r: Result<Vec<Node>, CompileError>)
        requires
            old(self).wf(),
            old(tokens).wf(),
        ensures
            final(self).wf(),
            final(tokens).wf(),
            final(tokens).lexemes() == old(tokens).lexemes(),
            r is Ok ==> final(tokens).cursor() == final(tokens).lexemes().len(),
            match parse_program(old(tokens).lexemes(), old(tokens).cursor(), old(self).names()) {
                Ok((ns, nm)) => r matches Ok(v) && v@ == ns && final(self).names() == nm,
                Err(e) => r == Err::<Vec<Node>, CompileError>(e),
            },
    {
        let ghost ts = tokens.lexemes();
        let ghost p0 = tokens.cursor();
        let ghost nm0 = self.names();
        let mut code: Vec<Node> = Vec::new();
        while tokens.peek().is_some()
            invariant
                ts == old(tokens).lexemes(),
                p0 == old(tokens).cursor(),
                nm0 == old(self).names(),
                self.wf(),
                tokens.wf(),
                tokens.lexemes() == ts,
                parse_program(ts, p0, nm0) == after(
                    code@,
                    parse_program(ts, tokens.cursor(), self.names()),
                ),
            decreases ts.len() - tokens.cursor(),
        {
            let ghost q = tokens.cursor();
            let node = match self.stmt(tokens) {
                Ok(n) => n,
                Err(e) => return Err(e),
            };
            proof {
                match parse_program(ts, tokens.cursor(), self.names()) {
                    Ok((ns, nm)) => {
                        assert(code@.push(node) + ns =~= code@ + (seq![node] + ns));
                    },
                    Err(e) => {},
                }
            }
            code.push(node);
        }
        proof {
            assert(code@ + Seq::<Node>::empty() =~= code@);
        }
        Ok(code)
    }

    /// statement := expression ';'
    fn stmt(&mut self, tokens: &mut RawTokens) -> (r: Result<Node, CompileError>)
        requires
            old(self).wf(),
            old(tokens).wf(),
        ensures
            steps(*old(self), *final(self), *old(tokens), *final(tokens)),
            follows(
                parse_stmt(old(tokens).lexemes(), old(tokens).cursor(), old(self).names()),
                r,
                final(tokens).cursor(),
                final(self).names(),
            ),
            r is Ok ==> old(tokens).cursor() < final(tokens).cursor(),
    {
        if tokens.peek().is_none() {
            return Err(CompileError { error_type: CompileErrorType::Parsing(ParseError::Empty), pos: None });
        }
        let node = match self.expr(tokens) {
            Ok(n) => n,
            Err(e) => return Err(e),
        };
        match tokens.peek() {
            Some(t) => {
                if t.kind != TokenKind::Sep(Separator::SemiColon) {
                    Err(CompileError { error_type: CompileErrorType::Parsing(ParseError::NeedSemiColon), pos: Some(Range { start: t.span.start, end: t.span.end }) })
                } else {
                    tokens.advance();
                    Ok(node)
                }
            },
            None => Err(CompileError { error_type: CompileErrorType::Parsing(ParseError::NeedSemiColon), pos: None }),
        }
    }

    /// expression := assignment
    fn expr(&mut self, tokens: &mut RawTokens) -> (r: Result<Node, CompileError>)
        requires
            old(self).wf(),
            old(tokens).wf(),
        ensures
            steps(*old(self), *final(self), *old(tokens), *final(tokens)),
            follows(
                parse_expr(old(tokens).lexemes(), old(tokens).cursor(), old(self).names()),
                r,
                final(tokens).cursor(),
                final(self).names(),
            ),
        decreases old(tokens).lexemes().len() - old(tokens).cursor(), 9nat,
    {
        self.assign(tokens)
    }

    /// assignment := equality ('=' assignment)?
    fn assign(&mut self, tokens: &mut RawTokens) -> (r: Result<Node, CompileError>)
        requires
            old(self).wf(),
            old(tokens).wf(),
        ensures
            steps(*old(self), *final(self), *old(tokens), *final(tokens)),
            follows(
                parse_assign(old(tokens).lexemes(), old(tokens).cursor(), old(self).names()),
                r,
                final(tokens).cursor(),
                final(self).names(),
            ),
        decreases old(tokens).lexemes().len() - old(tokens).cursor(), 8nat,
    {
        let node = match self.equality(tokens) {
            Ok(n) => n,
            Err(e) => return Err(e),
        };
        let is_assign = match tokens.peek() {
            Some(t) => t.kind == TokenKind::Assign,
            None => false,
        };
        if is_assign {
            tokens.advance();
            let rhs = match self.assign(tokens) {
                Ok(n) => n,
                Err(e) => return Err(e),
            };
            Ok(Node::new(NodeKind::Assign, Some(node), Some(rhs)))
        } else {
            Ok(node)
        }
    }

    fn equality(&mut self, tokens: &mut RawTokens) -> (r: Result<Node, CompileError>)
        requires
            old(self).wf(),
            old(tokens).wf(),
        ensures
            steps(*old(self), *final(self), *old(tokens), *final(tokens)),
            follows(
                parse_equality(old(tokens).lexemes(), old(tokens).cursor(), old(self).names()),
                r,
                final(tokens).cursor(),
                final(self).names(),
            ),
        decreases old(tokens).lexemes().len() - old(tokens).cursor(), 7nat,
    {
        let ghost ts = tokens.lexemes();
        let ghost p0 = tokens.cursor();
        let ghost nm0 = self.names();
        let mut node = match self.relational(tokens) {
            Ok(n) => n,
            Err(e) => return Err(e),
        };
        let ghost mut lo = p0;
        loop
            invariant
                ts == old(tokens).lexemes(),
                p0 == old(tokens).cursor(),
                nm0 == old(self).names(),
                self.wf(),
                tokens.wf(),
                tokens.lexemes() == ts,
                p0 <= lo <= tokens.cursor(),
                parse_equality(ts, p0, nm0) == equality_rest(ts, lo, node, tokens.cursor(), self.names()),
            decreases ts.len() - tokens.cursor(),
        {
            let op = match tokens.peek() {
                Some(t) => if t.kind == TokenKind::Eq {
                    NodeKind::Eq
                } else if t.kind == TokenKind::NotEq {
                    NodeKind::NotEq
                } else {
                    return Ok(node);
                },
                None => return Ok(node),
            };
            tokens.advance();
            proof {
                lo = tokens.cursor();
            }
            let rhs = match self.relational(tokens) {
                Ok(n) => n,
                Err(e) => return Err(e),
            };
            node = Node::new(op, Some(node), Some(rhs));
        }
    }

    #[verifier::rlimit(40)]
    fn relational(&mut self, tokens: &mut RawTokens) -> (r: Result<Node, CompileError>)
        requires
            old(self).wf(),
            old(tokens).wf(),
        ensures
            steps(*old(self), *final(self), *old(tokens), *final(tokens)),
            follows(
                parse_relational(old(tokens).lexemes(), old(tokens).cursor(), old(self).names()),
                r,
                final(tokens).cursor(),
                final(self).names(),
            ),
        decreases old(tokens).lexemes().len() - old(tokens).cursor(), 6nat,
    {
        let ghost ts = tokens.lexemes();
        let ghost p0 = tokens.cursor();
        let ghost nm0 = self.names();
        let mut node = match self.add(tokens) {
            Ok(n) => n,
            Err(e) => return Err(e),
        };
        let ghost mut lo = p0;
        loop
            invariant
                ts == old(tokens).lexemes(),
                p0 == old(tokens).cursor(),
                nm0 == old(self).names(),
                self.wf(),
                tokens.wf(),
                tokens.lexemes() == ts,
                p0 <= lo <= tokens.cursor(),
                parse_relational(ts, p0, nm0) == relational_rest(ts, lo, node, tokens.cursor(), self.names()),
            decreases ts.len() - tokens.cursor(),
        {
            let kind = match tokens.peek() {
                Some(t) => if t.kind == TokenKind::Less || t.kind == TokenKind::LessEq || t.kind
                    == TokenKind::Greater || t.kind == TokenKind::GreaterEq {
                    t.kind
                } else {
                    return Ok(node);
                },
                None => return Ok(node),
            };
            tokens.advance();
            proof {
                lo = tokens.cursor();
            }
            let rhs = match self.add(tokens) {
                Ok(n) => n,
                Err(e) => return Err(e),
            };
            node = if kind == TokenKind::Less {
                Node::new(NodeKind::Less, Some(node), Some(rhs))
            } else if kind == TokenKind::LessEq {
                Node::new(NodeKind::LessEq, Some(node), Some(rhs))
            } else if kind == TokenKind::Greater {
                Node::new(NodeKind::Less, Some(rhs), Some(node))
            } else {
                Node::new(NodeKind::LessEq, Some(rhs), Some(node))
            };
        }
    }

    fn add(&mut self, tokens: &mut RawTokens) -> (r: Result<Node, CompileError>)
        requires
            old(self).wf(),
            old(tokens).wf(),
        ensures
            steps(*old(self), *final(self), *old(tokens), *final(tokens)),
            follows(
                parse_add(old(tokens).lexemes(), old(tokens).cursor(), old(self).names()),
                r,
                final(tokens).cursor(),
                final(self).names(),
            ),
        decreases old(tokens).lexemes().len() - old(tokens).cursor(), 5nat,
    {
        let ghost ts = tokens.lexemes();
        let ghost p0 = tokens.cursor();
        let ghost nm0 = self.names();
        let mut node = match self.mul(tokens) {
            Ok(n) => n,
            Err(e) => return Err(e),
        };
        let ghost mut lo = p0;
        loop
            invariant
                ts == old(tokens).lexemes(),
                p0 == old(tokens).cursor(),
                nm0 == old(self).names(),
                self.wf(),
                tokens.wf(),
                tokens.lexemes() == ts,
                p0 <= lo <= tokens.cursor(),
                parse_add(ts, p0, nm0) == add_rest(ts, lo, node, tokens.cursor(), self.names()),
            decreases ts.len() - tokens.cursor(),
        {
            let op = match tokens.peek() {
                Some(t) => if t.kind == TokenKind::Add {
                    NodeKind::Add
                } else if t.kind == TokenKind::Sub {
                    NodeKind::Sub
                } else {
                    return Ok(node);
                },
                None => return Ok(node),
            };
            tokens.advance();
            proof {
                lo = tokens.cursor();
            }
            let rhs = match self.mul(tokens) {
                Ok(n) => n,
                Err(e) => return Err(e),
            };
            node = Node::new(op, Some(node), Some(rhs));
        }
    }

    fn mul(&mut self, tokens: &mut RawTokens) -> (r: Result<Node, CompileError>)
        requires
            old(self).wf(),
            old(tokens).wf(),
        ensures
            steps(*old(self), *final(self), *old(tokens), *final(tokens)),
            follows(
                parse_mul(old(tokens).lexemes(), old(tokens).cursor(), old(self).names()),
                r,
                final(tokens).cursor(),
                final(self).names(),
            ),
        decreases old(tokens).lexemes().len() - old(tokens).cursor(), 4nat,
    {
        let ghost ts = tokens.lexemes();
        let ghost p0 = tokens.cursor();
        let ghost nm0 = self.names();
        let mut node = match self.unary(tokens) {
            Ok(n) => n,
            Err(e) => return Err(e),
        };
        let ghost mut lo = p0;
        loop
            invariant
                ts == old(tokens).lexemes(),
                p0 == old(tokens).cursor(),
                nm0 == old(self).names(),
                self.wf(),
                tokens.wf(),
                tokens.lexemes() == ts,
                p0 <= lo <= tokens.cursor(),
                parse_mul(ts, p0, nm0) == mul_rest(ts, lo, node, tokens.cursor(), self.names()),
            decreases ts.len() - tokens.cursor(),
        {
            let op = match tokens.peek() {
                Some(t) => if t.kind == TokenKind::Mul {
                    NodeKind::Mul
                } else if t.kind == TokenKind::Div {
                    NodeKind::Div
                } else if let TokenKind::Number(_) = t.kind {
                    return Err(
                        CompileError { error_type: CompileErrorType::Parsing(ParseError::CannotParse), pos: Some(Range { start: t.span.start, end: t.span.end }) }
                    );
                } else {
                    return Ok(node);
                },
                None => return Ok(node),
            };
            tokens.advance();
            proof {
                lo = tokens.cursor();
            }
            let rhs = match self.unary(tokens) {
                Ok(n) => n,
                Err(e) => return Err(e),
            };
            node = Node::new(op, Some(node), Some(rhs));
        }
    }

    /// unary := ('+' | '-')? primary
    fn unary(&mut self, tokens: &mut RawTokens) -> (r: Result<Node, CompileError>)
        requires
            old(self).wf(),
            old(tokens).wf(),
        ensures
            steps(*old(self), *final(self), *old(tokens), *final(tokens)),
            follows(
                parse_unary(old(tokens).lexemes(), old(tokens).cursor(), old(self).names()),
                r,
                final(tokens).cursor(),
                final(self).names(),
            ),
        decreases old(tokens).lexemes().len() - old(tokens).cursor(), 3nat,
    {
        let kind = match tokens.peek() {
            Some(t) => t.kind,
            None => return Err(CompileError { error_type: CompileErrorType::Parsing(ParseError::TrailingOp), pos: None }),
        };
        if kind == TokenKind::Add {
            tokens.advance();
            self.unary(tokens)
        } else if kind == TokenKind::Sub {
            tokens.advance();
            let operand = match self.unary(tokens) {
                Ok(n) => n,
                Err(e) => return Err(e),
            };
            Ok(Node::new(NodeKind::Sub, Some(Node::new(NodeKind::Number(0), None, None)), Some(operand)))
        } else {
            self.primary(tokens)
        }
    }

    /// primary := NUMBER | IDENTIFIER | '(' expression ')'
    #[verifier::rlimit(40)]
    fn primary(&mut self, tokens: &mut RawTokens) -> (r: Result<Node, CompileError>)
        requires
            old(self).wf(),
            old(tokens).wf(),
        ensures
            steps(*old(self), *final(self), *old(tokens), *final(tokens)),
            follows(
                parse_primary(old(tokens).lexemes(), old(tokens).cursor(), old(self).names()),
                r,
                final(tokens).cursor(),
                final(self).names(),
            ),
        decreases old(tokens).lexemes().len() - old(tokens).cursor(), 2nat,
    {
        let token = match tokens.peek() {
            Some(t) => t,
            None => return Err(CompileError { error_type: CompileErrorType::Parsing(ParseError::TrailingOp), pos: None }),
        };
        if token.kind == TokenKind::Sep(Separator::RoundBracketL) {
            tokens.advance();
            let node = match self.expr(tokens) {
                Ok(n) => n,
                Err(e) => return Err(e),
            };
            match tokens.peek() {
                Some(t) => {
                    if t.kind != TokenKind::Sep(Separator::RoundBracketR) {
                        Err(CompileError { error_type: CompileErrorType::Parsing(ParseError::NotFoundRoundBracketR), pos: Some(Range { start: t.span.start, end: t.span.end }) })
                    } else {
                        tokens.advance();
                        Ok(node)
                    }
                },
                None => Err(CompileError { error_type: CompileErrorType::Parsing(ParseError::NotFoundRoundBracketR), pos: None }),
            }
        } else if let TokenKind::Number(num) = token.kind {
            tokens.advance();
            Ok(Node::new(NodeKind::Number(num), None, None))
        } else if token.kind == TokenKind::Ident {
            let name = token.text.as_bytes()[0];
            let offset = self.slot(name);
            tokens.advance();
            Ok(Node::new(NodeKind::Var(offset), None, None))
        } else {
            Err(CompileError { error_type: CompileErrorType::Parsing(ParseError::NotNumber), pos: Some(Range { start: token.span.start, end: token.span.end }) })
        }
    }
}

/// The statements `done`, followed by the outcome `rest` of the statements after them.
pub open spec fn after(
    done: Seq<Node>,
    rest: Result<(Seq<Node>, Seq<u8>), CompileError>,
) -> Result<(Seq<Node>, Seq<u8>), CompileError> {
    match rest {
        Ok((ns, nm)) => Ok((done + ns, nm)),
        Err(e) => Err(e),
    }
}

// ---------------------------------------------------------------------------
// Slots are handed out in order of first sight.
// ---------------------------------------------------------------------------
/// The variables named in `ts`, appended to `names` in order of first sight,
/// each once.
pub open spec fn first_sight(names: Seq<u8>, ts: Seq<Lexeme>) -> Seq<u8>
    decreases ts.len(),
{
    if ts.len() == 0 {
        names
    } else {
        let prev = first_sight(names, ts.drop_last());
        if ts.last().kind == TokenKind::Ident {
            resolve(prev, ts.last().text[0]).1
        } else {
            prev
        }
    }
}

/// A rule's outcome `r`, started at `p` with the variables `nm`, moves forward and
/// adds the variables of the tokens it consumed.
pub open spec fn tracks(r: Parsed, ts: Seq<Lexeme>, p: int, nm: Seq<u8>) -> bool {
    r matches Ok((n, q, nm2)) ==> p < q <= ts.len() && nm2 == first_sight(nm, ts.subrange(p, q))
        && vars_within(n, nm2.len() as int)
}

/// The same for the repetition of a rule, which may consume nothing.
pub open spec fn continues(r: Parsed, ts: Seq<Lexeme>, q: int, nm: Seq<u8>) -> bool {
    r matches Ok((n, q2, nm2)) ==> q <= q2 <= ts.len() && nm2 == first_sight(
        nm,
        ts.subrange(q, q2),
    ) && vars_within(n, nm2.len() as int)
}

/// Every variable in the tree `n` has one of the first `count` slots.
pub open spec fn vars_within(n: Node, count: int) -> bool
    decreases n,
{
    &&& (n.kind matches NodeKind::Var(k) ==> exists|i: int| 0 <= i < count && k == #[trigger] slot_offset(i))
    &&& match n.lhs {
        Some(l) => vars_within(*l, count),
        None => true,
    }
    &&& match n.rhs {
        Some(r) => vars_within(*r, count),
        None => true,
    }
}

proof fn lemma_vars_within_mono(n: Node, a: int, b: int)
    requires
        vars_within(n, a),
        a <= b,
    ensures
        vars_within(n, b),
    decreases n,
{
    if let Some(l) = n.lhs {
        lemma_vars_within_mono(*l, a, b);
    }
    if let Some(r) = n.rhs {
        lemma_vars_within_mono(*r, a, b);
    }
}

proof fn lemma_first_sight_grows(names: Seq<u8>, ts: Seq<Lexeme>)
    ensures
        first_sight(names, ts).len() >= names.len(),
    decreases ts.len(),
{
    if ts.len() > 0 {
        lemma_first_sight_grows(names, ts.drop_last());
    }
}

proof fn lemma_first_sight_append(names: Seq<u8>, a: Seq<Lexeme>, b: Seq<Lexeme>)
    ensures
        first_sight(names, a + b) == first_sight(first_sight(names, a), b),
    decreases b.len(),
{
    if b.len() == 0 {
        assert(a + b =~= a);
    } else {
        assert((a + b).drop_last() =~= a + b.drop_last());
        lemma_first_sight_append(names, a, b.drop_last());
    }
}

proof fn lemma_first_sight_join(names: Seq<u8>, ts: Seq<Lexeme>, p: int, q: int, r: int)
    requires
        0 <= p <= q <= r <= ts.len(),
    ensures
        first_sight(first_sight(names, ts.subrange(p, q)), ts.subrange(q, r)) == first_sight(
            names,
            ts.subrange(p, r),
        ),
{
    assert(ts.subrange(p, r) =~= ts.subrange(p, q) + ts.subrange(q, r));
    lemma_first_sight_append(names, ts.subrange(p, q), ts.subrange(q, r));
}

/// A token that names no variable adds none.
proof fn lemma_first_sight_single(names: Seq<u8>, ts: Seq<Lexeme>, q: int)
    requires
        0 <= q < ts.len(),
        ts[q].kind != TokenKind::Ident,
    ensures
        first_sight(names, ts.subrange(q, q + 1)) == names,
{
    let one = ts.subrange(q, q + 1);
    assert(one.drop_last() =~= Seq::<Lexeme>::empty());
    assert(one.last() == ts[q]);
    assert(first_sight(names, one.drop_last()) == names);
}

/// Skipping a token that names no variable.
proof fn lemma_skip(names: Seq<u8>, ts: Seq<Lexeme>, q: int, r: int)
    requires
        0 <= q < r <= ts.len(),
        ts[q].kind != TokenKind::Ident,
    ensures
        first_sight(names, ts.subrange(q, r)) == first_sight(names, ts.subrange(q + 1, r)),
{
    lemma_first_sight_join(names, ts, q, q + 1, r);
    lemma_first_sight_single(names, ts, q);
}

proof fn lemma_names_expr(ts: Seq<Lexeme>, p: int, nm: Seq<u8>)
    requires
        0 <= p,
    ensures
        tracks(parse_expr(ts, p, nm), ts, p, nm),
    decreases ts.len() - p, 9nat,
{
    lemma_names_assign(ts, p, nm);
}

proof fn lemma_names_assign(ts: Seq<Lexeme>, p: int, nm: Seq<u8>)
    requires
        0 <= p,
    ensures
        tracks(parse_assign(ts, p, nm), ts, p, nm),
    decreases ts.len() - p, 8nat,
{
    lemma_names_equality(ts, p, nm);
    if let Ok((n, q, nm1)) = parse_equality(ts, p, nm) {
        if p <= q < ts.len() && ts[q].kind == TokenKind::Assign {
            lemma_names_assign(ts, q + 1, nm1);
            if let Ok((m, r, nm2)) = parse_assign(ts, q + 1, nm1) {
                lemma_first_sight_join(nm, ts, p, q, r);
                lemma_skip(nm1, ts, q, r);
                lemma_first_sight_grows(nm1, ts.subrange(q + 1, r));
                lemma_vars_within_mono(n, nm1.len() as int, nm2.len() as int);
            }
        }
    }
}

proof fn lemma_names_equality_rest(ts: Seq<Lexeme>, lo: int, n: Node, q: int, nm: Seq<u8>)
    requires
        0 <= lo,
        0 <= q <= ts.len(),
        vars_within(n, nm.len() as int),
    ensures
        continues(equality_rest(ts, lo, n, q, nm), ts, q, nm),
    decreases ts.len() - lo, 0nat,
{
    if lo <= q < ts.len() && (ts[q].kind == TokenKind::Eq || ts[q].kind == TokenKind::NotEq) {
        lemma_names_relational(ts, q + 1, nm);
        if let Ok((m, r, nm1)) = parse_relational(ts, q + 1, nm) {
            let t = branch(if ts[q].kind == TokenKind::Eq { NodeKind::Eq } else { NodeKind::NotEq }, n, m);
            lemma_first_sight_grows(nm, ts.subrange(q + 1, r));
            lemma_vars_within_mono(n, nm.len() as int, nm1.len() as int);
            lemma_names_equality_rest(ts, q + 1, t, r, nm1);
            if let Ok((n2, r2, nm2)) = equality_rest(ts, q + 1, t, r, nm1) {
                lemma_first_sight_join(nm, ts, q + 1, r, r2);
                lemma_skip(nm, ts, q, r2);
            }
        }
    } else {
        assert(ts.subrange(q, q) =~= Seq::<Lexeme>::empty());
    }
}

proof fn lemma_names_equality(ts: Seq<Lexeme>, p: int, nm: Seq<u8>)
    requires
        0 <= p,
    ensures
        tracks(parse_equality(ts, p, nm), ts, p, nm),
    decreases ts.len() - p, 7nat,
{
    lemma_names_relational(ts, p, nm);
    if let Ok((n, q, nm1)) = parse_relational(ts, p, nm) {
        lemma_names_equality_rest(ts, p, n, q, nm1);
        if let Ok((n2, q2, nm2)) = equality_rest(ts, p, n, q, nm1) {
            lemma_first_sight_join(nm, ts, p, q, q2);
        }
    }
}

proof fn lemma_names_relational_rest(ts: Seq<Lexeme>, lo: int, n: Node, q: int, nm: Seq<u8>)
    requires
        0 <= lo,
        0 <= q <= ts.len(),
        vars_within(n, nm.len() as int),
    ensures
        continues(relational_rest(ts, lo, n, q, nm), ts, q, nm),
    decreases ts.len() - lo, 0nat,
{
    if lo <= q < ts.len() && (is_relational(ts[q].kind)) {
        lemma_names_add(ts, q + 1, nm);
        if let Ok((m, r, nm1)) = parse_add(ts, q + 1, nm) {
            let t = if ts[q].kind == TokenKind::Less {
                branch(NodeKind::Less, n, m)
            } else if ts[q].kind == TokenKind::LessEq {
                branch(NodeKind::LessEq, n, m)
            } else if ts[q].kind == TokenKind::Greater {
                branch(NodeKind::Less, m, n)
            } else {
                branch(NodeKind::LessEq, m, n)
            };
            lemma_first_sight_grows(nm, ts.subrange(q + 1, r));
            lemma_vars_within_mono(n, nm.len() as int, nm1.len() as int);
            lemma_names_relational_rest(ts, q + 1, t, r, nm1);
            if let Ok((n2, r2, nm2)) = relational_rest(ts, q + 1, t, r, nm1) {
                lemma_first_sight_join(nm, ts, q + 1, r, r2);
                lemma_skip(nm, ts, q, r2);
            }
        }
    } else {
        assert(ts.subrange(q, q) =~= Seq::<Lexeme>::empty());
    }
}

proof fn lemma_names_relational(ts: Seq<Lexeme>, p: int, nm: Seq<u8>)
    requires
        0 <= p,
    ensures
        tracks(parse_relational(ts, p, nm), ts, p, nm),
    decreases ts.len() - p, 6nat,
{
    lemma_names_add(ts, p, nm);
    if let Ok((n, q, nm1)) = parse_add(ts, p, nm) {
        lemma_names_relational_rest(ts, p, n, q, nm1);
        if let Ok((n2, q2, nm2)) = relational_rest(ts, p, n, q, nm1) {
            lemma_first_sight_join(nm, ts, p, q, q2);
        }
    }
}

proof fn lemma_names_add_rest(ts: Seq<Lexeme>, lo: int, n: Node, q: int, nm: Seq<u8>)
    requires
        0 <= lo,
        0 <= q <= ts.len(),
        vars_within(n, nm.len() as int),
    ensures
        continues(add_rest(ts, lo, n, q, nm), ts, q, nm),
    decreases ts.len() - lo, 0nat,
{
    if lo <= q < ts.len() && (ts[q].kind == TokenKind::Add || ts[q].kind == TokenKind::Sub) {
        lemma_names_mul(ts, q + 1, nm);
        if let Ok((m, r, nm1)) = parse_mul(ts, q + 1, nm) {
            let t = branch(if ts[q].kind == TokenKind::Add { NodeKind::Add } else { NodeKind::Sub }, n, m);
            lemma_first_sight_grows(nm, ts.subrange(q + 1, r));
            lemma_vars_within_mono(n, nm.len() as int, nm1.len() as int);
            lemma_names_add_rest(ts, q + 1, t, r, nm1);
            if let Ok((n2, r2, nm2)) = add_rest(ts, q + 1, t, r, nm1) {
                lemma_first_sight_join(nm, ts, q + 1, r, r2);
                lemma_skip(nm, ts, q, r2);
            }
        }
    } else {
        assert(ts.subrange(q, q) =~= Seq::<Lexeme>::empty());
    }
}

proof fn lemma_names_add(ts: Seq<Lexeme>, p: int, nm: Seq<u8>)
    requires
        0 <= p,
    ensures
        tracks(parse_add(ts, p, nm), ts, p, nm),
    decreases ts.len() - p, 5nat,
{
    lemma_names_mul(ts, p, nm);
    if let Ok((n, q, nm1)) = parse_mul(ts, p, nm) {
        lemma_names_add_rest(ts, p, n, q, nm1);
        if let Ok((n2, q2, nm2)) = add_rest(ts, p, n, q, nm1) {
            lemma_first_sight_join(nm, ts, p, q, q2);
        }
    }
}

proof fn lemma_names_mul_rest(ts: Seq<Lexeme>, lo: int, n: Node, q: int, nm: Seq<u8>)
    requires
        0 <= lo,
        0 <= q <= ts.len(),
        vars_within(n, nm.len() as int),
    ensures
        continues(mul_rest(ts, lo, n, q, nm), ts, q, nm),
    decreases ts.len() - lo, 0nat,
{
    if lo <= q < ts.len() && (ts[q].kind == TokenKind::Mul || ts[q].kind == TokenKind::Div) {
        lemma_names_unary(ts, q + 1, nm);
        if let Ok((m, r, nm1)) = parse_unary(ts, q + 1, nm) {
            let t = branch(if ts[q].kind == TokenKind::Mul { NodeKind::Mul } else { NodeKind::Div }, n, m);
            lemma_first_sight_grows(nm, ts.subrange(q + 1, r));
            lemma_vars_within_mono(n, nm.len() as int, nm1.len() as int);
            lemma_names_mul_rest(ts, q + 1, t, r, nm1);
            if let Ok((n2, r2, nm2)) = mul_rest(ts, q + 1, t, r, nm1) {
                lemma_first_sight_join(nm, ts, q + 1, r, r2);
                lemma_skip(nm, ts, q, r2);
            }
        }
    } else {
        assert(ts.subrange(q, q) =~= Seq::<Lexeme>::empty());
    }
}

proof fn lemma_names_mul(ts: Seq<Lexeme>, p: int, nm: Seq<u8>)
    requires
        0 <= p,
    ensures
        tracks(parse_mul(ts, p, nm), ts, p, nm),
    decreases ts.len() - p, 4nat,
{
    lemma_names_unary(ts, p, nm);
    if let Ok((n, q, nm1)) = parse_unary(ts, p, nm) {
        lemma_names_mul_rest(ts, p, n, q, nm1);
        if let Ok((n2, q2, nm2)) = mul_rest(ts, p, n, q, nm1) {
            lemma_first_sight_join(nm, ts, p, q, q2);
        }
    }
}

proof fn lemma_names_unary(ts: Seq<Lexeme>, p: int, nm: Seq<u8>)
    requires
        0 <= p,
    ensures
        tracks(parse_unary(ts, p, nm), ts, p, nm),
    decreases ts.len() - p, 3nat,
{
    if p < ts.len() {
        if ts[p].kind == TokenKind::Add || ts[p].kind == TokenKind::Sub {
            lemma_names_unary(ts, p + 1, nm);
            if let Ok((m, r, nm1)) = parse_unary(ts, p + 1, nm) {
                lemma_skip(nm, ts, p, r);
                let zero = leaf(NodeKind::Number(0));
                assert(vars_within(zero, nm1.len() as int));
                assert(vars_within(branch(NodeKind::Sub, zero, m), nm1.len() as int));
            }
        } else {
            lemma_names_primary(ts, p, nm);
        }
    }
}

proof fn lemma_names_primary(ts: Seq<Lexeme>, p: int, nm: Seq<u8>)
    requires
        0 <= p,
    ensures
        tracks(parse_primary(ts, p, nm), ts, p, nm),
    decreases ts.len() - p, 2nat,
{
    if p < ts.len() {
        if ts[p].kind == TokenKind::Sep(Separator::RoundBracketL) {
            lemma_names_expr(ts, p + 1, nm);
            if let Ok((n, q, nm1)) = parse_expr(ts, p + 1, nm) {
                if 0 <= q < ts.len() && ts[q].kind == TokenKind::Sep(Separator::RoundBracketR) {
                    lemma_skip(nm, ts, p, q + 1);
                    lemma_first_sight_join(nm, ts, p + 1, q, q + 1);
                    lemma_first_sight_single(nm1, ts, q);
                }
            }
        } else if ts[p].kind is Number {
            lemma_first_sight_single(nm, ts, p);
            assert(vars_within(leaf(NodeKind::Number(ts[p].kind->Number_0)), nm.len() as int));
        } else if ts[p].kind == TokenKind::Ident {
            let one = ts.subrange(p, p + 1);
            assert(one.drop_last() =~= Seq::<Lexeme>::empty());
            assert(one.last() == ts[p]);
            assert(first_sight(nm, one.drop_last()) == nm);
            let (offset, nm2) = resolve(nm, ts[p].text[0]);
            if nm.contains(ts[p].text[0]) {
                let i = nm.index_of(ts[p].text[0]);
                assert(0 <= i < nm.len());
                assert(offset == slot_offset(i));
            } else {
                assert(offset == slot_offset(nm.len() as int));
            }
            assert(vars_within(leaf(NodeKind::Var(offset)), nm2.len() as int));
        }
    }
}

proof fn lemma_names_stmt(ts: Seq<Lexeme>, p: int, nm: Seq<u8>)
    requires
        0 <= p,
    ensures
        tracks(parse_stmt(ts, p, nm), ts, p, nm),
{
    lemma_names_expr(ts, p, nm);
    if let Ok((n, q, nm1)) = parse_expr(ts, p, nm) {
        if 0 <= q < ts.len() && ts[q].kind == TokenKind::Sep(Separator::SemiColon) {
            lemma_first_sight_join(nm, ts, p, q, q + 1);
            lemma_first_sight_single(nm1, ts, q);
        }
    }
}

proof fn lemma_names_program(ts: Seq<Lexeme>, p: int, nm: Seq<u8>)
    requires
        0 <= p <= ts.len(),
    ensures
        parse_program(ts, p, nm) matches Ok((ns, nm2)) ==> nm2 == first_sight(
            nm,
            ts.subrange(p, ts.len() as int),
        ) && forall|k: int| 0 <= k < ns.len() ==> vars_within(#[trigger] ns[k], nm2.len() as int),
    decreases ts.len() - p,
{
    if p < ts.len() {
        lemma_names_stmt(ts, p, nm);
        if let Ok((n, q, nm1)) = parse_stmt(ts, p, nm) {
            lemma_names_program(ts, q, nm1);
            lemma_first_sight_join(nm, ts, p, q, ts.len() as int);
            if let Ok((rest, nm2)) = parse_program(ts, q, nm1) {
                lemma_first_sight_grows(nm1, ts.subrange(q, ts.len() as int));
                lemma_vars_within_mono(n, nm1.len() as int, nm2.len() as int);
                assert forall|k: int| 0 <= k < (seq![n] + rest).len() implies vars_within(
                    #[trigger] (seq![n] + rest)[k],
                    nm2.len() as int,
                ) by {
                    if k > 0 {
                        assert((seq![n] + rest)[k] == rest[k - 1]);
                    }
                }
            }
        }
    } else {
        assert(ts.subrange(p, p) =~= Seq::<Lexeme>::empty());
    }
}

/// The variable named by an identifier token.
pub open spec fn names_var(t: Lexeme, c: u8) -> bool {
    t.kind == TokenKind::Ident && t.text[0] == c
}

#[verifier::rlimit(40)]
proof fn lemma_first_sight_distinct(ts: Seq<Lexeme>)
    ensures
        first_sight(seq![], ts).no_duplicates(),
        forall|c: u8|
            first_sight(seq![], ts).contains(c) <==> exists|i: int|
                0 <= i < ts.len() && names_var(#[trigger] ts[i], c),
    decreases ts.len(),
{
    if ts.len() > 0 {
        let init = ts.drop_last();
        lemma_first_sight_distinct(init);
        let prev = first_sight(seq![], init);
        let t = ts.last();
        assert forall|c: u8|
            first_sight(seq![], ts).contains(c) implies exists|i: int|
                0 <= i < ts.len() && names_var(#[trigger] ts[i], c) by {
            if prev.contains(c) {
                let i = choose|i: int| 0 <= i < init.len() && names_var(#[trigger] init[i], c);
                assert(ts[i] == init[i]);
            } else {
                assert(names_var(ts[ts.len() - 1], c));
            }
        }
        assert forall|c: u8|
            (exists|i: int| 0 <= i < ts.len() && names_var(#[trigger] ts[i], c)) implies first_sight(
            seq![],
            ts,
        ).contains(c) by {
            let i = choose|i: int| 0 <= i < ts.len() && names_var(#[trigger] ts[i], c);
            if i < ts.len() - 1 {
                assert(init[i] == ts[i]);
                assert(prev.contains(c));
                if t.kind == TokenKind::Ident && !prev.contains(t.text[0]) {
                    assert(prev.push(t.text[0])[prev.index_of(c)] == c);
                }
            } else {
                if !prev.contains(c) {
                    assert(prev.push(c)[prev.len() as int] == c);
                }
            }
        }
        if t.kind == TokenKind::Ident && !prev.contains(t.text[0]) {
            let next = prev.push(t.text[0]);
            assert forall|j: int, k: int|
                0 <= j < next.len() && 0 <= k < next.len() && j != k implies next[j] != next[k] by {
                if j < prev.len() && k < prev.len() {
                } else if j < prev.len() {
                    assert(prev.contains(prev[j]));
                } else {
                    assert(prev.contains(prev[k]));
                }
            }
        }
    }
}

/// Slots follow first sight: after a successful parse from an empty table, the
/// variables that hold a slot are the distinct identifiers of the input, each
/// once, in the order in which each first appears; the i-th of them has the slot
/// at offset 8(i + 1); and every variable in the statements' trees has one of
/// those slots.
pub proof fn lemma_slots_by_first_sight(ts: Seq<Lexeme>)
    ensures
        parse_program(ts, 0, seq![]) matches Ok((ns, nm)) ==> {
            &&& nm == first_sight(seq![], ts)
            &&& nm.no_duplicates()
            &&& forall|c: u8|
                nm.contains(c) <==> exists|i: int| 0 <= i < ts.len() && names_var(#[trigger] ts[i], c)
            &&& forall|k: int| 0 <= k < ns.len() ==> vars_within(#[trigger] ns[k], nm.len() as int)
        },
{
    lemma_names_program(ts, 0, seq![]);
    assert(ts.subrange(0, ts.len() as int) =~= ts);
    lemma_first_sight_distinct(ts);
}

// ---------------------------------------------------------------------------
// Signs and swapped comparisons.
// ---------------------------------------------------------------------------
/// A token that is an operand on its own: a number or a variable.
pub open spec fn is_operand(t: Lexeme) -> bool {
    t.kind is Number || t.kind == TokenKind::Ident
}

/// The tree of an operand token, with the variables `nm` seen before it.
pub open spec fn operand_node(t: Lexeme, nm: Seq<u8>) -> Node {
    if t.kind == TokenKind::Ident {
        leaf(NodeKind::Var(resolve(nm, t.text[0]).0))
    } else {
        leaf(NodeKind::Number(t.kind->Number_0))
    }
}

/// The variables seen after an operand token.
pub open spec fn operand_names(t: Lexeme, nm: Seq<u8>) -> Seq<u8> {
    if t.kind == TokenKind::Ident {
        resolve(nm, t.text[0]).1
    } else {
        nm
    }
}

/// The token at `q`, if any, ends a term.
pub open spec fn ends_term(ts: Seq<Lexeme>, q: int) -> bool {
    q >= ts.len() || !(ts[q].kind == TokenKind::Mul || ts[q].kind == TokenKind::Div
        || ts[q].kind is Number)
}

/// The token at `q`, if any, ends a sum.
pub open spec fn ends_sum(ts: Seq<Lexeme>, q: int) -> bool {
    ends_term(ts, q) && (q >= ts.len() || !(ts[q].kind == TokenKind::Add || ts[q].kind
        == TokenKind::Sub))
}

#[verifier::rlimit(40)]
proof fn lemma_operand_term(ts: Seq<Lexeme>, p: int, nm: Seq<u8>)
    requires
        0 <= p < ts.len(),
        is_operand(ts[p]),
        ends_term(ts, p + 1),
    ensures
        parse_unary(ts, p, nm) == Ok::<(Node, int, Seq<u8>), Failure>(
            (operand_node(ts[p], nm), p + 1, operand_names(ts[p], nm)),
        ),
        parse_mul(ts, p, nm) == Ok::<(Node, int, Seq<u8>), Failure>(
            (operand_node(ts[p], nm), p + 1, operand_names(ts[p], nm)),
        ),
{
    assert(parse_primary(ts, p, nm) == Ok::<(Node, int, Seq<u8>), Failure>(
        (operand_node(ts[p], nm), p + 1, operand_names(ts[p], nm)),
    ));
    assert(parse_unary(ts, p, nm) == parse_primary(ts, p, nm));
}

proof fn lemma_operand_sum(ts: Seq<Lexeme>, p: int, nm: Seq<u8>)
    requires
        0 <= p < ts.len(),
        is_operand(ts[p]),
        ends_sum(ts, p + 1),
    ensures
        parse_add(ts, p, nm) == Ok::<(Node, int, Seq<u8>), Failure>(
            (operand_node(ts[p], nm), p + 1, operand_names(ts[p], nm)),
        ),
{
    lemma_operand_term(ts, p, nm);
}

pub open spec fn parsed_as(r: Parsed, t: Node, q: int, nm: Seq<u8>) -> bool {
    r == Ok::<(Node, int, Seq<u8>), Failure>((t, q, nm))
}

/// `- x` for an operand `x`.
#[verifier::rlimit(40)]
proof fn lemma_negated_operand(minus: Lexeme, x: Lexeme, nm: Seq<u8>)
    requires
        is_operand(x),
        minus.kind == TokenKind::Sub,
    ensures
        parsed_as(
            parse_expr(seq![minus, x], 0, nm),
            branch(NodeKind::Sub, leaf(NodeKind::Number(0)), operand_node(x, nm)),
            2,
            operand_names(x, nm),
        ),
{
    let t = branch(NodeKind::Sub, leaf(NodeKind::Number(0)), operand_node(x, nm));
    let x_names = operand_names(x, nm);
    let s = seq![minus, x];
    lemma_operand_term(s, 1, nm);
    assert(parse_unary(s, 0, nm) == Ok::<(Node, int, Seq<u8>), Failure>((t, 2, x_names)));
    assert(parse_mul(s, 0, nm) == Ok::<(Node, int, Seq<u8>), Failure>((t, 2, x_names)));
    assert(parse_add(s, 0, nm) == Ok::<(Node, int, Seq<u8>), Failure>((t, 2, x_names)));
    lemma_sum_is_expr_names(s, t, nm, x_names);
}

/// `0 - x` for an operand `x`.
#[verifier::rlimit(40)]
proof fn lemma_zero_minus_operand(zero: Lexeme, minus: Lexeme, x: Lexeme, nm: Seq<u8>)
    requires
        is_operand(x),
        minus.kind == TokenKind::Sub,
        zero.kind == TokenKind::Number(0),
    ensures
        parsed_as(
            parse_expr(seq![zero, minus, x], 0, nm),
            branch(NodeKind::Sub, leaf(NodeKind::Number(0)), operand_node(x, nm)),
            3,
            operand_names(x, nm),
        ),
{
    let t = branch(NodeKind::Sub, leaf(NodeKind::Number(0)), operand_node(x, nm));
    let x_names = operand_names(x, nm);
    let s = seq![zero, minus, x];
    lemma_operand_term(s, 0, nm);
    lemma_operand_term(s, 2, nm);
    assert(operand_node(zero, nm) == leaf(NodeKind::Number(0)));
    assert(add_rest(s, 2, t, 3, x_names) == Ok::<(Node, int, Seq<u8>), Failure>(
        (t, 3, x_names),
    ));
    assert(parse_add(s, 0, nm) == Ok::<(Node, int, Seq<u8>), Failure>((t, 3, x_names)));
    lemma_sum_is_expr_names(s, t, nm, x_names);
}

/// `+ x` for an operand `x`.
#[verifier::rlimit(40)]
proof fn lemma_plus_operand(plus: Lexeme, x: Lexeme, nm: Seq<u8>)
    requires
        is_operand(x),
        plus.kind == TokenKind::Add,
    ensures
        parsed_as(parse_expr(seq![plus, x], 0, nm), operand_node(x, nm), 2, operand_names(x, nm)),
{
    let x_node = operand_node(x, nm);
    let x_names = operand_names(x, nm);
    let s = seq![plus, x];
    lemma_operand_term(s, 1, nm);
    assert(parse_unary(s, 0, nm) == Ok::<(Node, int, Seq<u8>), Failure>(
        (x_node, 2, x_names),
    ));
    assert(parse_mul(s, 0, nm) == Ok::<(Node, int, Seq<u8>), Failure>((x_node, 2, x_names)));
    assert(parse_add(s, 0, nm) == Ok::<(Node, int, Seq<u8>), Failure>((x_node, 2, x_names)));
    lemma_sum_is_expr_names(s, x_node, nm, x_names);
}

/// An operand `x` alone.
#[verifier::rlimit(40)]
proof fn lemma_lone_operand(x: Lexeme, nm: Seq<u8>)
    requires
        is_operand(x),
    ensures
        parsed_as(parse_expr(seq![x], 0, nm), operand_node(x, nm), 1, operand_names(x, nm)),
{
    let s = seq![x];
    lemma_operand_sum(s, 0, nm);
    lemma_sum_is_expr_names(s, operand_node(x, nm), nm, operand_names(x, nm));
}

/// A leading `-` on an operand gives the same tree as the subtraction `0 - x`,
/// and a leading `+` the same tree as the operand alone; so both give the same
/// code.
pub proof fn lemma_unary_signs(x: Lexeme, minus: Lexeme, plus: Lexeme, zero: Lexeme, nm: Seq<u8>)
    requires
        is_operand(x),
        minus.kind == TokenKind::Sub,
        plus.kind == TokenKind::Add,
        zero.kind == TokenKind::Number(0),
    ensures
        parse_expr(seq![minus, x], 0, nm) matches Ok((t1, q1, nm1)) && parse_expr(
            seq![zero, minus, x],
            0,
            nm,
        ) matches Ok((t2, q2, nm2)) && t1 == t2 && nm1 == nm2 && q1 == 2 && q2 == 3,
        parse_expr(seq![plus, x], 0, nm) matches Ok((t1, q1, nm1)) && parse_expr(seq![x], 0, nm)
            matches Ok((t2, q2, nm2)) && t1 == t2 && nm1 == nm2 && q1 == 2 && q2 == 1,
{
    lemma_negated_operand(minus, x, nm);
    lemma_zero_minus_operand(zero, minus, x, nm);
    lemma_plus_operand(plus, x, nm);
    lemma_lone_operand(x, nm);
}

/// From a sum that reaches the end of the tokens to a whole expression.
proof fn lemma_sum_is_expr_names(ts: Seq<Lexeme>, n: Node, nm: Seq<u8>, nm2: Seq<u8>)
    requires
        parse_add(ts, 0, nm) == Ok::<(Node, int, Seq<u8>), Failure>((n, ts.len() as int, nm2)),
    ensures
        parse_expr(ts, 0, nm) == Ok::<(Node, int, Seq<u8>), Failure>((n, ts.len() as int, nm2)),
{
    assert(parse_relational(ts, 0, nm) == Ok::<(Node, int, Seq<u8>), Failure>(
        (n, ts.len() as int, nm2),
    ));
    assert(parse_equality(ts, 0, nm) == Ok::<(Node, int, Seq<u8>), Failure>(
        (n, ts.len() as int, nm2),
    ));
    assert(parse_assign(ts, 0, nm) == Ok::<(Node, int, Seq<u8>), Failure>(
        (n, ts.len() as int, nm2),
    ));
}

/// An operand that is a number, or a variable already seen.
pub open spec fn known_operand(t: Lexeme, nm: Seq<u8>) -> bool {
    is_operand(t) && (t.kind == TokenKind::Ident ==> nm.contains(t.text[0]))
}

/// The comparison of two operands parsed as a whole expression.
#[verifier::rlimit(40)]
proof fn lemma_comparison(a: Lexeme, op: Lexeme, b: Lexeme, nm: Seq<u8>)
    requires
        known_operand(a, nm),
        known_operand(b, nm),
        is_relational(op.kind),
    ensures
        parse_expr(seq![a, op, b], 0, nm) == Ok::<(Node, int, Seq<u8>), Failure>(
            (
                if op.kind == TokenKind::Less {
                    branch(NodeKind::Less, operand_node(a, nm), operand_node(b, nm))
                } else if op.kind == TokenKind::LessEq {
                    branch(NodeKind::LessEq, operand_node(a, nm), operand_node(b, nm))
                } else if op.kind == TokenKind::Greater {
                    branch(NodeKind::Less, operand_node(b, nm), operand_node(a, nm))
                } else {
                    branch(NodeKind::LessEq, operand_node(b, nm), operand_node(a, nm))
                },
                3,
                nm,
            ),
        ),
{
    let s = seq![a, op, b];
    assert(operand_names(a, nm) == nm);
    assert(operand_names(b, nm) == nm);
    lemma_operand_sum(s, 0, nm);
    lemma_operand_sum(s, 2, nm);
    let t = if op.kind == TokenKind::Less {
        branch(NodeKind::Less, operand_node(a, nm), operand_node(b, nm))
    } else if op.kind == TokenKind::LessEq {
        branch(NodeKind::LessEq, operand_node(a, nm), operand_node(b, nm))
    } else if op.kind == TokenKind::Greater {
        branch(NodeKind::Less, operand_node(b, nm), operand_node(a, nm))
    } else {
        branch(NodeKind::LessEq, operand_node(b, nm), operand_node(a, nm))
    };
    assert(relational_rest(s, 2, t, 3, nm) == Ok::<(Node, int, Seq<u8>), Failure>(
        (t, 3, nm),
    ));
    assert(parse_relational(s, 0, nm) == Ok::<(Node, int, Seq<u8>), Failure>((t, 3, nm)));
    lemma_relational_is_expr(s, t, nm);
}

/// `a > b` gives the same tree as `b < a`, and `a >= b` the same as `b <= a`, for
/// operands that are numbers or variables already seen; so both give the same
/// code.
pub proof fn lemma_greater_is_swapped_less(
    a: Lexeme,
    b: Lexeme,
    op: Lexeme,
    swapped: Lexeme,
    nm: Seq<u8>,
)
    requires
        known_operand(a, nm),
        known_operand(b, nm),
        (op.kind == TokenKind::Greater && swapped.kind == TokenKind::Less) || (op.kind
            == TokenKind::GreaterEq && swapped.kind == TokenKind::LessEq),
    ensures
        parse_expr(seq![a, op, b], 0, nm) is Ok,
        parse_expr(seq![a, op, b], 0, nm) == parse_expr(seq![b, swapped, a], 0, nm),
{
    lemma_comparison(a, op, b, nm);
    lemma_comparison(b, swapped, a, nm);
}

proof fn lemma_relational_is_expr(ts: Seq<Lexeme>, n: Node, nm: Seq<u8>)
    requires
        parse_relational(ts, 0, nm) == Ok::<(Node, int, Seq<u8>), Failure>(
            (n, ts.len() as int, nm),
        ),
    ensures
        parse_expr(ts, 0, nm) == Ok::<(Node, int, Seq<u8>), Failure>((n, ts.len() as int, nm)),
{
    assert(parse_equality(ts, 0, nm) == Ok::<(Node, int, Seq<u8>), Failure>(
        (n, ts.len() as int, nm),
    ));
    assert(parse_assign(ts, 0, nm) == Ok::<(Node, int, Seq<u8>), Failure>(
        (n, ts.len() as int, nm),
    ));
}

} // verus!
