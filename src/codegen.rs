use crate::errors::{CodegenError, CompileError, CompileErrorType, TokenizeError};
use crate::parser::{parse_program, Node, NodeKind, Parser};
use crate::tokenizer::{lex_errors, lex_tokens, literals_fit, reports_run, RawStream};
use vstd::prelude::*;
use vstd::string::{StringExecFns, StringSliceAdditionalSpecFns};
use vstd::utf8::encode_utf8_decode_utf8;

verus! {

// ---------------------------------------------------------------------------
// Decimal text.
// ---------------------------------------------------------------------------
pub open spec fn digit_char(d: int) -> char {
    seq!['0', '1', '2', '3', '4', '5', '6', '7', '8', '9'][d]
}

/// The decimal digits of `n`, most significant first, without leading zeros.
pub open spec fn natural_text(n: nat) -> Seq<char>
    decreases n,
{
    if n < 10 {
        seq![digit_char(n as int)]
    } else {
        natural_text(n / 10).push(digit_char((n % 10) as int))
    }
}

/// The decimal text of `n`, led by `-` when it is negative.
pub open spec fn decimal_text(n: int) -> Seq<char> {
    if n < 0 {
        seq!['-'] + natural_text((-n) as nat)
    } else {
        natural_text(n as nat)
    }
}

/// The one-character text of a decimal digit.
fn digit_str(d: u64) -> (r: &'static str)
    requires
        d < 10,
    ensures
        r@ == seq![digit_char(d as int)],
{
    match d {
        0 => {
            proof {
                reveal_strlit("0");
            }
            "0"
        },
        1 => {
            proof {
                reveal_strlit("1");
            }
            "1"
        },
        2 => {
            proof {
                reveal_strlit("2");
            }
            "2"
        },
        3 => {
            proof {
                reveal_strlit("3");
            }
            "3"
        },
        4 => {
            proof {
                reveal_strlit("4");
            }
            "4"
        },
        5 => {
            proof {
                reveal_strlit("5");
            }
            "5"
        },
        6 => {
            proof {
                reveal_strlit("6");
            }
            "6"
        },
        7 => {
            proof {
                reveal_strlit("7");
            }
            "7"
        },
        8 => {
            proof {
                reveal_strlit("8");
            }
            "8"
        },
        _ => {
            proof {
                reveal_strlit("9");
            }
            "9"
        },
    }
}

/// The decimal text of a natural number.
fn natural_string(n: u64) -> (r: String)
    ensures
        r@ == natural_text(n as nat),
    decreases n,
{
    if n < 10 {
        digit_str(n).to_string()
    } else {
        let r = natural_string(n / 10).concat(digit_str(n % 10));
        proof {
            assert(r@ =~= natural_text((n / 10) as nat).push(digit_char((n % 10) as int)));
        }
        r
    }
}

/// The decimal text of an `i64`, led by `-` when it is negative.
fn int_text(n: i64) -> (r: String)
    ensures
        r@ == decimal_text(n as int),
{
    if n < 0 {
        let magnitude: u64 = if n == i64::MIN {
            9223372036854775808u64
        } else {
            (-n) as u64
        };
        proof {
            reveal_strlit("-");
        }
        "-".to_string().concat(natural_string(magnitude).as_str())
    } else {
        natural_string(n as u64)
    }
}

/// The decimal text of a `usize`.
fn offset_text(n: usize) -> (r: String)
    ensures
        r@ == decimal_text(n as int),
{
    natural_string(n as u64)
}

// ---------------------------------------------------------------------------
// Instructions.
// ---------------------------------------------------------------------------
/// One line of the emitted assembly.
#[derive(Debug, Clone, Copy, PartialEq, Eq, Structural)]
pub enum Instr {
    IntelSyntax,
    GlobalMain,
    MainLabel,
    PushRbp,
    MovRbpRsp,
    /// Reserves the frame: room for every one-letter variable.
    ReserveFrame,
    PushImm(i64),
    PushRax,
    PushRdi,
    PopRax,
    PopRdi,
    PopRbp,
    MovRaxRbp,
    SubRaxImm(usize),
    LoadRax,
    StoreRdi,
    MovRspRbp,
    Ret,
    AddRaxRdi,
    SubRaxRdi,
    ImulRaxRdi,
    Cqo,
    IdivRdi,
    CmpRaxRdi,
    Sete,
    Setne,
    Setl,
    Setle,
    MovzbRaxAl,
}

impl Instr {
    /// The line of assembly text.
    pub open spec fn text(self) -> Seq<char> {
        match self {
            Instr::IntelSyntax => ".intel_syntax noprefix"@,
            Instr::GlobalMain => ".global main"@,
            Instr::MainLabel => "main:"@,
            Instr::PushRbp => "\tpush rbp"@,
            Instr::MovRbpRsp => "\tmov rbp, rsp"@,
            Instr::ReserveFrame => "\tsub rsp, 208"@,
            Instr::PushImm(n) => "\tpush "@ + decimal_text(n as int),
            Instr::PushRax => "\tpush rax"@,
            Instr::PushRdi => "\tpush rdi"@,
            Instr::PopRax => "\tpop rax"@,
            Instr::PopRdi => "\tpop rdi"@,
            Instr::PopRbp => "\tpop rbp"@,
            Instr::MovRaxRbp => "\tmov rax, rbp"@,
            Instr::SubRaxImm(n) => "\tsub rax, "@ + decimal_text(n as int),
            Instr::LoadRax => "\tmov rax, [rax]"@,
            Instr::StoreRdi => "\tmov [rax], rdi"@,
            Instr::MovRspRbp => "\tmov rsp, rbp"@,
            Instr::Ret => "\tret"@,
            Instr::AddRaxRdi => "\tadd rax, rdi"@,
            Instr::SubRaxRdi => "\tsub rax, rdi"@,
            Instr::ImulRaxRdi => "\timul rax, rdi"@,
            Instr::Cqo => "\tcqo"@,
            Instr::IdivRdi => "\tidiv rdi"@,
            Instr::CmpRaxRdi => "\tcmp rax, rdi"@,
            Instr::Sete => "\tsete al"@,
            Instr::Setne => "\tsetne al"@,
            Instr::Setl => "\tsetl al"@,
            Instr::Setle => "\tsetle al"@,
            Instr::MovzbRaxAl => "\tmovzb rax, al"@,
        }
    }

    /// How many values the instruction leaves on the machine stack: one more for
    /// a push, one fewer for a pop.
    pub open spec fn effect(self) -> int {
        match self {
            Instr::PushRbp | Instr::PushImm(_) | Instr::PushRax | Instr::PushRdi => 1,
            Instr::PopRax | Instr::PopRdi | Instr::PopRbp => -1,
            _ => 0,
        }
    }

    /// The line of assembly text.
    pub fn render(&self) -> (r: String)
        ensures
            r@ == self.text(),
    {
        match *self {
            Instr::IntelSyntax => ".intel_syntax noprefix".to_string(),
            Instr::GlobalMain => ".global main".to_string(),
            Instr::MainLabel => "main:".to_string(),
            Instr::PushRbp => "\tpush rbp".to_string(),
            Instr::MovRbpRsp => "\tmov rbp, rsp".to_string(),
            Instr::ReserveFrame => "\tsub rsp, 208".to_string(),
            Instr::PushImm(n) => "\tpush ".to_string().concat(int_text(n).as_str()),
            Instr::PushRax => "\tpush rax".to_string(),
            Instr::PushRdi => "\tpush rdi".to_string(),
            Instr::PopRax => "\tpop rax".to_string(),
            Instr::PopRdi => "\tpop rdi".to_string(),
            Instr::PopRbp => "\tpop rbp".to_string(),
            Instr::MovRaxRbp => "\tmov rax, rbp".to_string(),
            Instr::SubRaxImm(n) => "\tsub rax, ".to_string().concat(offset_text(n).as_str()),
            Instr::LoadRax => "\tmov rax, [rax]".to_string(),
            Instr::StoreRdi => "\tmov [rax], rdi".to_string(),
            Instr::MovRspRbp => "\tmov rsp, rbp".to_string(),
            Instr::Ret => "\tret".to_string(),
            Instr::AddRaxRdi => "\tadd rax, rdi".to_string(),
            Instr::SubRaxRdi => "\tsub rax, rdi".to_string(),
            Instr::ImulRaxRdi => "\timul rax, rdi".to_string(),
            Instr::Cqo => "\tcqo".to_string(),
            Instr::IdivRdi => "\tidiv rdi".to_string(),
            Instr::CmpRaxRdi => "\tcmp rax, rdi".to_string(),
            Instr::Sete => "\tsete al".to_string(),
            Instr::Setne => "\tsetne al".to_string(),
            Instr::Setl => "\tsetl al".to_string(),
            Instr::Setle => "\tsetle al".to_string(),
            Instr::MovzbRaxAl => "\tmovzb rax, al".to_string(),
        }
    }
}

pub open spec fn render_all(c: Seq<Instr>) -> Seq<Seq<char>> {
    c.map_values(|i: Instr| i.text())
}

pub open spec fn lines_of(v: Seq<String>) -> Seq<Seq<char>> {
    v.map_values(|s: String| s@)
}

// ---------------------------------------------------------------------------
// Lowering, stated over trees.
// ---------------------------------------------------------------------------
pub open spec fn codegen_error(kind: CodegenError) -> CompileError {
    CompileError { error_type: CompileErrorType::Codegen(kind), pos: None }
}

/// The instructions that combine the two values popped into `rax` (left) and
/// `rdi` (right) into `rax`.
pub open spec fn op_code(k: NodeKind) -> Seq<Instr> {
    match k {
        NodeKind::Add => seq![Instr::AddRaxRdi],
        NodeKind::Sub => seq![Instr::SubRaxRdi],
        NodeKind::Mul => seq![Instr::ImulRaxRdi],
        NodeKind::Div => seq![Instr::Cqo, Instr::IdivRdi],
        NodeKind::Eq => seq![Instr::CmpRaxRdi, Instr::Sete, Instr::MovzbRaxAl],
        NodeKind::NotEq => seq![Instr::CmpRaxRdi, Instr::Setne, Instr::MovzbRaxAl],
        NodeKind::Less => seq![Instr::CmpRaxRdi, Instr::Setl, Instr::MovzbRaxAl],
        NodeKind::LessEq => seq![Instr::CmpRaxRdi, Instr::Setle, Instr::MovzbRaxAl],
        _ => seq![],
    }
}

/// The address of the slot at `offset` below the frame base, pushed.
pub open spec fn address_code(offset: usize) -> Seq<Instr> {
    seq![Instr::MovRaxRbp, Instr::SubRaxImm(offset), Instr::PushRax]
}

/// The instructions for one tree: its value ends on top of the machine stack; a
/// `Return` leaves the function with it instead.
pub open spec fn node_code(n: Node) -> Result<Seq<Instr>, CompileError>
    decreases n,
{
    match n.kind {
        NodeKind::Return => {
            let body = match n.lhs {
                Some(l) => node_code(*l),
                None => Ok(seq![]),
            };
            match body {
                Err(e) => Err(e),
                Ok(c) => Ok(c + seq![Instr::PopRax, Instr::MovRspRbp, Instr::PopRbp, Instr::Ret]),
            }
        },
        NodeKind::Number(v) => Ok(seq![Instr::PushImm(v)]),
        NodeKind::Var(offset) => Ok(
            address_code(offset) + seq![Instr::PopRax, Instr::LoadRax, Instr::PushRax],
        ),
        NodeKind::Assign => match n.lhs {
            Some(l) => match l.kind {
                NodeKind::Var(offset) => match n.rhs {
                    Some(r) => match node_code(*r) {
                        Err(e) => Err(e),
                        Ok(c) => Ok(
                            address_code(offset) + c + seq![
                                Instr::PopRdi,
                                Instr::PopRax,
                                Instr::StoreRdi,
                                Instr::PushRdi,
                            ],
                        ),
                    },
                    None => Err(codegen_error(CodegenError::RValueNotFound)),
                },
                _ => Err(codegen_error(CodegenError::LValueNotVar)),
            },
            None => Err(codegen_error(CodegenError::LValueNotVar)),
        },
        _ => {
            let left = match n.lhs {
                Some(l) => node_code(*l),
                None => Ok(seq![]),
            };
            match left {
                Err(e) => Err(e),
                Ok(a) => {
                    let right = match n.rhs {
                        Some(r) => node_code(*r),
                        None => Ok(seq![]),
                    };
                    match right {
                        Err(e) => Err(e),
                        Ok(b) => Ok(
                            a + b + seq![Instr::PopRdi, Instr::PopRax] + op_code(n.kind) + seq![
                                Instr::PushRax,
                            ],
                        ),
                    }
                },
            }
        },
    }
}

/// The instructions for a sequence of statements: each one's code, then a pop
/// that discards its value; a `Return` statement ends the sequence with its own
/// code, which leaves the function. Or the first statement's error.
pub open spec fn program_code(ns: Seq<Node>) -> Result<Seq<Instr>, CompileError>
    decreases ns.len(),
{
    if ns.len() == 0 {
        Ok(seq![])
    } else {
        match node_code(ns[0]) {
            Err(e) => Err(e),
            Ok(c) => if ns[0].kind == NodeKind::Return {
                Ok(c)
            } else {
                match program_code(ns.drop_first()) {
                    Err(e) => Err(e),
                    Ok(rest) => Ok(c + seq![Instr::PopRax] + rest),
                }
            },
        }
    }
}

/// What is emitted for the statements before the first one that fails: nothing
/// of the failing statement, nor of any after it.
pub open spec fn code_before_failure(ns: Seq<Node>) -> Seq<Instr>
    decreases ns.len(),
{
    if ns.len() == 0 {
        seq![]
    } else {
        match node_code(ns[0]) {
            Err(_) => seq![],
            Ok(c) => if ns[0].kind == NodeKind::Return {
                c
            } else {
                c + seq![Instr::PopRax] + code_before_failure(ns.drop_first())
            },
        }
    }
}

/// The instructions `done`, followed by the outcome `rest` of what comes after.
pub open spec fn prefixed(
    done: Seq<Instr>,
    rest: Result<Seq<Instr>, CompileError>,
) -> Result<Seq<Instr>, CompileError> {
    match rest {
        Ok(c) => Ok(done + c),
        Err(e) => Err(e),
    }
}

/// The header, and the frame that the program runs in.
pub open spec fn prologue() -> Seq<Instr> {
    seq![
        Instr::IntelSyntax,
        Instr::GlobalMain,
        Instr::MainLabel,
        Instr::PushRbp,
        Instr::MovRbpRsp,
        Instr::ReserveFrame,
    ]
}

/// Leaves the frame and returns.
pub open spec fn epilogue() -> Seq<Instr> {
    seq![Instr::MovRspRbp, Instr::PopRbp, Instr::Ret]
}

/// `r` is what compiling the source bytes `b` gives: every unscannable run if
/// there is one; else the first parse error; else the first lowering error; else
/// the assembly text.
pub open spec fn compiled(b: Seq<u8>, r: Result<Vec<String>, Vec<CompileError>>) -> bool {
    let runs = lex_errors(b, 0);
    if runs.len() > 0 {
        &&& r matches Err(es)
        &&& es@.len() == runs.len()
        &&& forall|i: int|
            0 <= i < runs.len() ==> reports_run(#[trigger] es@[i], b, runs[i].0, runs[i].1)
    } else {
        match parse_program(lex_tokens(b, 0), 0, seq![]) {
            Err(e) => r matches Err(es) && es@ == seq![e],
            Ok((ns, _)) => match program_code(ns) {
                Err(e) => r matches Err(es) && es@ == seq![e],
                Ok(c) => r matches Ok(lines) && lines_of(lines@) == render_all(
                    prologue() + c + epilogue(),
                ),
            },
        }
    }
}

proof fn lemma_render_concat(a: Seq<Instr>, b: Seq<Instr>)
    ensures
        render_all(a + b) == render_all(a) + render_all(b),
{
    assert(render_all(a + b) =~= render_all(a) + render_all(b));
}

// ---------------------------------------------------------------------------
// The generator.
// ---------------------------------------------------------------------------
/// Lowers statement trees to assembly text.
#[derive(Debug)]
pub struct Codegen;

impl Codegen {
    fn emit(assembly: &mut Vec<String>, ins: Instr)
        ensures
            lines_of(final(assembly)@) == lines_of(old(assembly)@) + render_all(seq![ins]),
    {
        assembly.push(ins.render());
        proof {
            assert(lines_of(assembly@) =~= lines_of(old(assembly)@) + render_all(seq![ins]));
        }
    }

    /// Emits each statement's code, then a pop of its value, up to the first
    /// `Return` statement, whose code leaves the function. A statement that fails
    /// adds nothing, and the walk stops there.
    fn gen(assembly: &mut Vec<String>, nodes: Vec<Node>) -> (r: Result<(), CompileError>)
        ensures
            match program_code(nodes@) {
                Ok(c) => r is Ok && lines_of(final(assembly)@) == lines_of(old(assembly)@)
                    + render_all(c),
                Err(e) => r == Err::<(), CompileError>(e) && lines_of(final(assembly)@)
                    == lines_of(old(assembly)@) + render_all(code_before_failure(nodes@)),
            },
    {
        let ghost all = nodes@;
        let ghost mut done: Seq<Instr> = seq![];
        let mut i: usize = 0;
        proof {
            assert(all.subrange(0, all.len() as int) =~= all);
            assert(done + code_before_failure(all) =~= code_before_failure(all));
            assert(lines_of(assembly@) =~= lines_of(old(assembly)@) + render_all(done));
        }
        while i < nodes.len()
            invariant
                all == nodes@,
                i <= all.len(),
                lines_of(assembly@) == lines_of(old(assembly)@) + render_all(done),
                program_code(all) == prefixed(done, program_code(all.subrange(i as int, all.len() as int))),
                code_before_failure(all) == done + code_before_failure(
                    all.subrange(i as int, all.len() as int),
                ),
            decreases all.len() - i,
        {
            let ghost rest = all.subrange(i as int, all.len() as int);
            proof {
                assert(rest.drop_first() =~= all.subrange(i + 1, all.len() as int));
                assert(rest[0] == all[i as int]);
            }
            let ghost before = lines_of(assembly@);
            let mut block: Vec<String> = Vec::new();
            match Self::gen_code(&mut block, &nodes[i]) {
                Ok(()) => {},
                Err(e) => {
                    proof {
                        assert(done + Seq::<Instr>::empty() =~= done);
                    }
                    return Err(e);
                },
            }
            let ghost c = node_code(all[i as int])->Ok_0;
            proof {
                assert(lines_of(block@) =~= render_all(c)) by {
                    assert(lines_of(Seq::<String>::empty()) =~= Seq::<Seq<char>>::empty());
                    assert(Seq::<Seq<char>>::empty() + render_all(c) =~= render_all(c));
                }
            }
            let ghost block_lines = block@;
            assembly.append(&mut block);
            proof {
                assert(lines_of(assembly@) =~= before + lines_of(block_lines));
                lemma_render_concat(done, c);
            }
            if nodes[i].kind == NodeKind::Return {
                return Ok(());
            }
            Self::emit(assembly, Instr::PopRax);
            proof {
                lemma_render_concat(done + c, seq![Instr::PopRax]);
                assert(lines_of(assembly@) =~= lines_of(old(assembly)@) + render_all(
                    done + c + seq![Instr::PopRax],
                ));
                match program_code(all.subrange(i + 1, all.len() as int)) {
                    Ok(more) => {
                        assert(done + (c + seq![Instr::PopRax] + more) =~= (done + c + seq![
                            Instr::PopRax,
                        ]) + more);
                    },
                    Err(_) => {},
                }
                assert(done + (c + seq![Instr::PopRax] + code_before_failure(
                    all.subrange(i + 1, all.len() as int),
                )) =~= (done + c + seq![Instr::PopRax]) + code_before_failure(
                    all.subrange(i + 1, all.len() as int),
                ));
                done = done + c + seq![Instr::PopRax];
            }
            i = i + 1;
        }
        proof {
            assert(done + Seq::<Instr>::empty() =~= done);
        }
        Ok(())
    }

    /// Emits the code of one tree.
    fn gen_code(assembly: &mut Vec<String>, node: &Node) -> (r: Result<(), CompileError>)
        ensures
            match node_code(*node) {
                Ok(c) => r is Ok && lines_of(final(assembly)@) == lines_of(old(assembly)@)
                    + render_all(c),
                Err(e) => r == Err::<(), CompileError>(e),
            },
        decreases node, 1nat,
    {
        match node.kind {
            NodeKind::Return => Self::gen_return(assembly, node),
            NodeKind::Number(num) => {
                Self::emit(assembly, Instr::PushImm(num));
                Ok(())
            },
            NodeKind::Var(offset) => {
                let ghost start = lines_of(assembly@);
                Self::emit(assembly, Instr::MovRaxRbp);
                Self::emit(assembly, Instr::SubRaxImm(offset));
                Self::emit(assembly, Instr::PushRax);
                Self::emit(assembly, Instr::PopRax);
                Self::emit(assembly, Instr::LoadRax);
                Self::emit(assembly, Instr::PushRax);
                proof {
                    assert(lines_of(assembly@) =~= start + render_all(
                        address_code(offset) + seq![Instr::PopRax, Instr::LoadRax, Instr::PushRax],
                    ));
                }
                Ok(())
            },
            NodeKind::Assign => Self::gen_assign(assembly, node),
            _ => Self::gen_binary(assembly, node),
        }
    }

    /// The code of a `Return`: its value goes to `rax`, then the function returns.
    fn gen_return(assembly: &mut Vec<String>, node: &Node) -> (r: Result<(), CompileError>)
        requires
            node.kind == NodeKind::Return,
        ensures
            match node_code(*node) {
                Ok(c) => r is Ok && lines_of(final(assembly)@) == lines_of(old(assembly)@)
                    + render_all(c),
                Err(e) => r == Err::<(), CompileError>(e),
            },
        decreases node, 0nat,
    {
        let ghost start = lines_of(assembly@);
        let ghost body: Seq<Instr> = seq![];
        match &node.lhs {
            Some(lhs) => {
                match Self::gen_code(assembly, lhs) {
                    Ok(()) => {},
                    Err(e) => return Err(e),
                }
                proof {
                    body = node_code(**lhs)->Ok_0;
                }
            },
            None => {},
        }
        let ghost mid = lines_of(assembly@);
        Self::emit(assembly, Instr::PopRax);
        Self::emit(assembly, Instr::MovRspRbp);
        Self::emit(assembly, Instr::PopRbp);
        Self::emit(assembly, Instr::Ret);
        proof {
            let tail = seq![Instr::PopRax, Instr::MovRspRbp, Instr::PopRbp, Instr::Ret];
            assert(mid == start + render_all(body));
            assert(lines_of(assembly@) =~= mid + render_all(tail));
            lemma_render_concat(body, tail);
        }
        Ok(())
    }

    /// The code of an assignment: the slot's address, the value, the store, and
    /// the value again.
    #[verifier::rlimit(40)]
    fn gen_assign(assembly: &mut Vec<String>, node: &Node) -> (r: Result<(), CompileError>)
        requires
            node.kind == NodeKind::Assign,
        ensures
            match node_code(*node) {
                Ok(c) => r is Ok && lines_of(final(assembly)@) == lines_of(old(assembly)@)
                    + render_all(c),
                Err(e) => r == Err::<(), CompileError>(e),
            },
        decreases node, 0nat,
    {
        let ghost start = lines_of(assembly@);
        let offset = match &node.lhs {
            Some(lhs) => match lhs.kind {
                NodeKind::Var(offset) => offset,
                _ => {
                    return Err(
                        CompileError {
                            error_type: CompileErrorType::Codegen(CodegenError::LValueNotVar),
                            pos: None,
                        },
                    );
                },
            },
            None => {
                return Err(
                    CompileError {
                        error_type: CompileErrorType::Codegen(CodegenError::LValueNotVar),
                        pos: None,
                    },
                );
            },
        };
        Self::emit(assembly, Instr::MovRaxRbp);
        Self::emit(assembly, Instr::SubRaxImm(offset));
        Self::emit(assembly, Instr::PushRax);
        let ghost mid = lines_of(assembly@);
        match &node.rhs {
            Some(rhs) => match Self::gen_code(assembly, rhs) {
                Ok(()) => {},
                Err(e) => return Err(e),
            },
            None => {
                return Err(
                    CompileError {
                        error_type: CompileErrorType::Codegen(CodegenError::RValueNotFound),
                        pos: None,
                    },
                );
            },
        }
        let ghost after_value = lines_of(assembly@);
        Self::emit(assembly, Instr::PopRdi);
        Self::emit(assembly, Instr::PopRax);
        Self::emit(assembly, Instr::StoreRdi);
        Self::emit(assembly, Instr::PushRdi);
        proof {
            let c = node_code(*node.rhs->Some_0)->Ok_0;
            let tail = seq![Instr::PopRdi, Instr::PopRax, Instr::StoreRdi, Instr::PushRdi];
            assert(mid =~= start + render_all(address_code(offset)));
            assert(after_value == mid + render_all(c));
            assert(lines_of(assembly@) =~= after_value + render_all(tail));
            lemma_render_concat(address_code(offset), c);
            lemma_render_concat(address_code(offset) + c, tail);
        }
        Ok(())
    }

    /// The code of a binary operator: the left value, the right value, the two
    /// popped, combined, and the result pushed.
    #[verifier::rlimit(40)]
    fn gen_binary(assembly: &mut Vec<String>, node: &Node) -> (r: Result<(), CompileError>)
        requires
            !(node.kind is Return || node.kind is Number || node.kind is Var || node.kind is Assign),
        ensures
            match node_code(*node) {
                Ok(c) => r is Ok && lines_of(final(assembly)@) == lines_of(old(assembly)@)
                    + render_all(c),
                Err(e) => r == Err::<(), CompileError>(e),
            },
        decreases node, 0nat,
    {
        let ghost start = lines_of(assembly@);
        let ghost a: Seq<Instr> = seq![];
        match &node.lhs {
            Some(lhs) => {
                match Self::gen_code(assembly, lhs) {
                    Ok(()) => {},
                    Err(e) => return Err(e),
                }
                proof {
                    a = node_code(**lhs)->Ok_0;
                }
            },
            None => {},
        }
        let ghost after_left = lines_of(assembly@);
        let ghost b: Seq<Instr> = seq![];
        match &node.rhs {
            Some(rhs) => {
                match Self::gen_code(assembly, rhs) {
                    Ok(()) => {},
                    Err(e) => return Err(e),
                }
                proof {
                    b = node_code(**rhs)->Ok_0;
                }
            },
            None => {},
        }
        let ghost both = lines_of(assembly@);
        Self::emit(assembly, Instr::PopRdi);
        Self::emit(assembly, Instr::PopRax);
        let ghost popped = lines_of(assembly@);
        Self::gen_op(assembly, node.kind);
        let ghost combined = lines_of(assembly@);
        Self::emit(assembly, Instr::PushRax);
        proof {
            let pops = seq![Instr::PopRdi, Instr::PopRax];
            let op = op_code(node.kind);
            let push = seq![Instr::PushRax];
            assert(after_left == start + render_all(a));
            assert(both == after_left + render_all(b));
            assert(popped =~= both + render_all(pops));
            assert(combined == popped + render_all(op));
            assert(lines_of(assembly@) == combined + render_all(push));
            lemma_render_concat(a, b);
            lemma_render_concat(a + b, pops);
            lemma_render_concat(a + b + pops, op);
            lemma_render_concat(a + b + pops + op, push);
        }
        Ok(())
    }

    /// The instructions that combine `rax` and `rdi` for the operator `kind`.
    fn gen_op(assembly: &mut Vec<String>, kind: NodeKind)
        ensures
            lines_of(final(assembly)@) == lines_of(old(assembly)@) + render_all(op_code(kind)),
    {
        let ghost start = lines_of(assembly@);
        match kind {
            NodeKind::Add => Self::emit(assembly, Instr::AddRaxRdi),
            NodeKind::Sub => Self::emit(assembly, Instr::SubRaxRdi),
            NodeKind::Mul => Self::emit(assembly, Instr::ImulRaxRdi),
            NodeKind::Div => {
                Self::emit(assembly, Instr::Cqo);
                Self::emit(assembly, Instr::IdivRdi);
            },
            NodeKind::Eq => {
                Self::emit(assembly, Instr::CmpRaxRdi);
                Self::emit(assembly, Instr::Sete);
                Self::emit(assembly, Instr::MovzbRaxAl);
            },
            NodeKind::NotEq => {
                Self::emit(assembly, Instr::CmpRaxRdi);
                Self::emit(assembly, Instr::Setne);
                Self::emit(assembly, Instr::MovzbRaxAl);
            },
            NodeKind::Less => {
                Self::emit(assembly, Instr::CmpRaxRdi);
                Self::emit(assembly, Instr::Setl);
                Self::emit(assembly, Instr::MovzbRaxAl);
            },
            NodeKind::LessEq => {
                Self::emit(assembly, Instr::CmpRaxRdi);
                Self::emit(assembly, Instr::Setle);
                Self::emit(assembly, Instr::MovzbRaxAl);
            },
            _ => {},
        }
        proof {
            assert(lines_of(assembly@) =~= start + render_all(op_code(kind)));
        }
    }

    /// Compiles a source text to lines of assembly: a header and a frame, the code
    /// of each statement, and the return. Fails with every unscannable run, or
    /// with the first parse or lowering error.
    pub fn compile(input: &str) -> (r: Result<Vec<String>, Vec<CompileError>>)
        requires
            literals_fit(input.spec_bytes()),
        ensures
            compiled(input.spec_bytes(), r),
    {
        let mut stream = RawStream::new(input);
        let mut assembly: Vec<String> = Vec::new();
        Self::emit(&mut assembly, Instr::IntelSyntax);
        Self::emit(&mut assembly, Instr::GlobalMain);
        Self::emit(&mut assembly, Instr::MainLabel);
        Self::emit(&mut assembly, Instr::PushRbp);
        Self::emit(&mut assembly, Instr::MovRbpRsp);
        Self::emit(&mut assembly, Instr::ReserveFrame);
        let ghost head = lines_of(assembly@);
        proof {
            assert(head =~= render_all(prologue()));
        }
        let mut tokens = match stream.check() {
            Ok(t) => t,
            Err(errors) => return Err(errors),
        };
        let mut parser = Parser::new();
        let nodes = match parser.program(&mut tokens) {
            Ok(n) => n,
            Err(e) => {
                let mut errors = Vec::new();
                errors.push(e);
                proof {
                    assert(errors@ =~= seq![e]);
                }
                return Err(errors);
            },
        };
        let ghost ns = nodes@;
        match Self::gen(&mut assembly, nodes) {
            Ok(()) => {},
            Err(e) => {
                let mut errors = Vec::new();
                errors.push(e);
                proof {
                    assert(errors@ =~= seq![e]);
                }
                return Err(errors);
            },
        }
        let ghost body = lines_of(assembly@);
        Self::emit(&mut assembly, Instr::MovRspRbp);
        Self::emit(&mut assembly, Instr::PopRbp);
        Self::emit(&mut assembly, Instr::Ret);
        proof {
            let c = program_code(ns)->Ok_0;
            lemma_render_concat(prologue(), c);
            lemma_render_concat(prologue() + c, epilogue());
            assert(lines_of(assembly@) =~= body + render_all(epilogue()));
        }
        Ok(assembly)
    }
}

// ---------------------------------------------------------------------------
// Stack discipline.
// ---------------------------------------------------------------------------
/// How many values a run of instructions leaves on the machine stack.
pub open spec fn depth(c: Seq<Instr>) -> int
    decreases c.len(),
{
    if c.len() == 0 {
        0
    } else {
        depth(c.drop_last()) + c.last().effect()
    }
}

/// At no point does the run of instructions hold fewer than `base` values of its own.
pub open spec fn stays_above(c: Seq<Instr>, base: int) -> bool {
    forall|k: int| 0 <= k <= c.len() ==> depth(#[trigger] c.subrange(0, k)) >= base
}

/// An expression tree of the shape the grammar builds: operators with both
/// operands, assignments to a variable, and no `Return`.
pub open spec fn well_formed(n: Node) -> bool
    decreases n,
{
    match n.kind {
        NodeKind::Number(_) | NodeKind::Var(_) => true,
        NodeKind::Return => false,
        NodeKind::Assign => match (n.lhs, n.rhs) {
            (Some(l), Some(r)) => l.kind is Var && well_formed(*r),
            _ => false,
        },
        _ => match (n.lhs, n.rhs) {
            (Some(l), Some(r)) => well_formed(*l) && well_formed(*r),
            _ => false,
        },
    }
}

proof fn lemma_depth_concat(a: Seq<Instr>, b: Seq<Instr>)
    ensures
        depth(a + b) == depth(a) + depth(b),
    decreases b.len(),
{
    if b.len() > 0 {
        assert((a + b).drop_last() =~= a + b.drop_last());
        lemma_depth_concat(a, b.drop_last());
    } else {
        assert(a + b =~= a);
    }
}

proof fn lemma_stays_above_concat(a: Seq<Instr>, b: Seq<Instr>, base: int)
    requires
        stays_above(a, base),
        stays_above(b, base - depth(a)),
    ensures
        stays_above(a + b, base),
{
    assert forall|k: int| 0 <= k <= (a + b).len() implies depth(
        #[trigger] (a + b).subrange(0, k),
    ) >= base by {
        if k <= a.len() {
            assert((a + b).subrange(0, k) =~= a.subrange(0, k));
        } else {
            assert((a + b).subrange(0, k) =~= a + b.subrange(0, k - a.len()));
            lemma_depth_concat(a, b.subrange(0, k - a.len()));
            assert(a.subrange(0, a.len() as int) =~= a);
        }
    }
}

/// Stack discipline: the code of a well-formed expression pushes exactly one
/// value, and never pops a value that it did not push.
#[verifier::rlimit(40)]
pub proof fn lemma_expression_pushes_one(n: Node)
    requires
        well_formed(n),
    ensures
        node_code(n) matches Ok(c) && depth(c) == 1 && stays_above(c, 0),
    decreases n,
{
    let pop_push = seq![Instr::PopRax, Instr::LoadRax, Instr::PushRax];
    match n.kind {
        NodeKind::Number(v) => {
            let c = seq![Instr::PushImm(v)];
            lemma_depth_of(c);
            assert(stays_above(c, 0) && depth(c) == 1) by {
                reveal_with_fuel(depth_of_prefix, 2);
            }
        },
        NodeKind::Var(offset) => {
            let a = address_code(offset);
            lemma_address_code(offset);
            lemma_depth_of(pop_push);
            assert(stays_above(pop_push, -1)) by {
                reveal_with_fuel(depth_of_prefix, 4);
            }
            assert(depth(pop_push) == 0) by {
                reveal_with_fuel(depth_of_prefix, 4);
            }
            lemma_depth_concat(a, pop_push);
            lemma_stays_above_concat(a, pop_push, 0);
        },
        NodeKind::Assign => {
            let r = *n.rhs->Some_0;
            let offset = n.lhs->Some_0.kind->Var_0;
            lemma_expression_pushes_one(r);
            let c = node_code(r)->Ok_0;
            let a = address_code(offset);
            let tail = seq![Instr::PopRdi, Instr::PopRax, Instr::StoreRdi, Instr::PushRdi];
            lemma_address_code(offset);
            lemma_depth_of(tail);
            assert(stays_above(tail, -2)) by {
                reveal_with_fuel(depth_of_prefix, 5);
            }
            assert(depth(tail) == -1) by {
                reveal_with_fuel(depth_of_prefix, 5);
            }
            lemma_depth_concat(a, c);
            lemma_stays_above_concat(a, c, 0);
            lemma_depth_concat(a + c, tail);
            lemma_stays_above_concat(a + c, tail, 0);
        },
        NodeKind::Return => {},
        _ => {
            let l = *n.lhs->Some_0;
            let r = *n.rhs->Some_0;
            lemma_expression_pushes_one(l);
            lemma_expression_pushes_one(r);
            let a = node_code(l)->Ok_0;
            let b = node_code(r)->Ok_0;
            let pops = seq![Instr::PopRdi, Instr::PopRax];
            let op = op_code(n.kind);
            let push = seq![Instr::PushRax];
            lemma_depth_of(pops);
            lemma_depth_of(op);
            lemma_depth_of(push);
            assert(stays_above(pops, -2) && depth(pops) == -2) by {
                reveal_with_fuel(depth_of_prefix, 3);
            }
            assert(stays_above(op, 0) && depth(op) == 0) by {
                reveal_with_fuel(depth_of_prefix, 4);
            }
            assert(stays_above(push, 0) && depth(push) == 1) by {
                reveal_with_fuel(depth_of_prefix, 2);
            }
            lemma_stays_above_shift(b, 0);
            lemma_depth_concat(a, b);
            lemma_stays_above_concat(a, b, 0);
            lemma_depth_concat(a + b, pops);
            lemma_stays_above_concat(a + b, pops, 0);
            lemma_depth_concat(a + b + pops, op);
            lemma_stays_above_concat(a + b + pops, op, 0);
            lemma_depth_concat(a + b + pops + op, push);
            lemma_stays_above_concat(a + b + pops + op, push, 0);
        },
    }
}

/// A run that stays above `base` stays above anything lower.
proof fn lemma_stays_above_shift(c: Seq<Instr>, base: int)
    requires
        stays_above(c, base),
    ensures
        forall|lower: int| lower <= base ==> stays_above(c, lower),
{
}

/// The depth of the short fixed runs, and of their prefixes.
proof fn lemma_depth_of(c: Seq<Instr>)
    requires
        c.len() <= 4,
    ensures
        forall|k: int| 0 <= k <= c.len() ==> depth(#[trigger] c.subrange(0, k)) == depth_of_prefix(c, k),
        depth(c) == depth_of_prefix(c, c.len() as int),
{
    assert forall|k: int| 0 <= k <= c.len() implies depth(#[trigger] c.subrange(0, k))
        == depth_of_prefix(c, k) by {
        lemma_depth_prefix(c, k);
    }
    assert(c.subrange(0, c.len() as int) =~= c);
    lemma_depth_prefix(c, c.len() as int);
}

/// The address of a slot is one value pushed, and nothing popped before it.
proof fn lemma_address_code(offset: usize)
    ensures
        depth(address_code(offset)) == 1,
        stays_above(address_code(offset), 0),
{
    let a = address_code(offset);
    lemma_depth_of(a);
    assert forall|k: int| 0 <= k <= a.len() implies depth(#[trigger] a.subrange(0, k)) >= 0 by {
        reveal_with_fuel(depth_of_prefix, 4);
    }
    reveal_with_fuel(depth_of_prefix, 4);
}

/// The sum of the effects of the first `k` instructions.
pub open spec fn depth_of_prefix(c: Seq<Instr>, k: int) -> int
    decreases k,
{
    if k <= 0 {
        0
    } else {
        depth_of_prefix(c, k - 1) + c[k - 1].effect()
    }
}

proof fn lemma_depth_prefix(c: Seq<Instr>, k: int)
    requires
        0 <= k <= c.len(),
    ensures
        depth(c.subrange(0, k)) == depth_of_prefix(c, k),
    decreases k,
{
    if k > 0 {
        assert(c.subrange(0, k).drop_last() =~= c.subrange(0, k - 1));
        lemma_depth_prefix(c, k - 1);
    }
}

// ---------------------------------------------------------------------------
// Determinism.
// ---------------------------------------------------------------------------
/// The same error; texts are compared by their characters.
pub open spec fn same_error(a: CompileError, b: CompileError) -> bool {
    &&& a.pos == b.pos
    &&& match (a.error_type, b.error_type) {
        (
            CompileErrorType::Tokenizing(TokenizeError(x)),
            CompileErrorType::Tokenizing(TokenizeError(y)),
        ) => x@ == y@,
        (x, y) => x == y,
    }
}

/// Compiling is deterministic: two outcomes for the same source text hold the
/// same lines, or the same errors in the same order.
#[verifier::rlimit(40)]
pub proof fn lemma_compile_deterministic(
    b: Seq<u8>,
    r1: Result<Vec<String>, Vec<CompileError>>,
    r2: Result<Vec<String>, Vec<CompileError>>,
)
    requires
        compiled(b, r1),
        compiled(b, r2),
    ensures
        r1 matches Ok(x) ==> r2 matches Ok(y) && lines_of(x@) == lines_of(y@),
        r1 matches Err(x) ==> r2 matches Err(y) && x@.len() == y@.len() && forall|i: int|
            0 <= i < x@.len() ==> same_error(#[trigger] x@[i], y@[i]),
{
    let runs = lex_errors(b, 0);
    if runs.len() > 0 {
        if let (Err(x), Err(y)) = (r1, r2) {
            assert forall|i: int| 0 <= i < x@.len() implies same_error(#[trigger] x@[i], y@[i]) by {
                assert(reports_run(x@[i], b, runs[i].0, runs[i].1));
                assert(reports_run(y@[i], b, runs[i].0, runs[i].1));
                if let (
                    CompileErrorType::Tokenizing(TokenizeError(m1)),
                    CompileErrorType::Tokenizing(TokenizeError(m2)),
                ) = (x@[i].error_type, y@[i].error_type) {
                    encode_utf8_decode_utf8(m1@);
                    encode_utf8_decode_utf8(m2@);
                }
            }
        }
    }
}

} // verus!
