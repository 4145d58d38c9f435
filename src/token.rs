//! The instruction set.
use vstd::prelude::*;
use crate::integer::Integer;

verus! {

/// One instruction. A jump is first produced with the name of its label
/// (`PreComputeJump`) and later resolved to an index (`Jump`).
pub enum TokenType {
    Exit,
    Print,
    PrintNum,
    GetNextIn,
    CreateFile { arg: String },
    CreateFileStream { arg: String },
    OpenFileStream { arg: String },
    ReadFileStream,
    WriteFileStream,
    Clear,
    Push { arg: Integer },
    Pop { arg: u8 },
    Add,
    Subtract,
    Multiply,
    Divide,
    Modulo,
    Move { arg: [u8; 2] },
    Copy { arg: [u8; 2] },
    PreComputeJump { arg: String },
    Jump { arg: usize },
    Label { arg: String },
    Equal,
    LessThan,
    LessThanOrEqual,
    GreaterThan,
    GreaterThanOrEqual,
    BitAnd,
    BitOr,
    BitXor,
    BitRightShift,
    BitLeftShift,
}

/// The mathematical value of an instruction: texts as character sequences and
/// literals as integers.
pub enum Tok {
    Exit,
    Print,
    PrintNum,
    GetNextIn,
    CreateFile(Seq<char>),
    CreateFileStream(Seq<char>),
    OpenFileStream(Seq<char>),
    ReadFileStream,
    WriteFileStream,
    Clear,
    Push(int),
    Pop(u8),
    Add,
    Subtract,
    Multiply,
    Divide,
    Modulo,
    Move(u8, u8),
    Copy(u8, u8),
    PreComputeJump(Seq<char>),
    Jump(usize),
    Label(Seq<char>),
    Equal,
    LessThan,
    LessThanOrEqual,
    GreaterThan,
    GreaterThanOrEqual,
    BitAnd,
    BitOr,
    BitXor,
    BitRightShift,
    BitLeftShift,
}

impl View for TokenType {
    type V = Tok;

    open spec fn view(&self) -> Tok {
        match self {
            TokenType::Exit => Tok::Exit,
            TokenType::Print => Tok::Print,
            TokenType::PrintNum => Tok::PrintNum,
            TokenType::GetNextIn => Tok::GetNextIn,
            TokenType::CreateFile { arg } => Tok::CreateFile(arg@),
            TokenType::CreateFileStream { arg } => Tok::CreateFileStream(arg@),
            TokenType::OpenFileStream { arg } => Tok::OpenFileStream(arg@),
            TokenType::ReadFileStream => Tok::ReadFileStream,
            TokenType::WriteFileStream => Tok::WriteFileStream,
            TokenType::Clear => Tok::Clear,
            TokenType::Push { arg } => Tok::Push(arg@),
            TokenType::Pop { arg } => Tok::Pop(*arg),
            TokenType::Add => Tok::Add,
            TokenType::Subtract => Tok::Subtract,
            TokenType::Multiply => Tok::Multiply,
            TokenType::Divide => Tok::Divide,
            TokenType::Modulo => Tok::Modulo,
            TokenType::Move { arg } => Tok::Move(arg[0], arg[1]),
            TokenType::Copy { arg } => Tok::Copy(arg[0], arg[1]),
            TokenType::PreComputeJump { arg } => Tok::PreComputeJump(arg@),
            TokenType::Jump { arg } => Tok::Jump(*arg),
            TokenType::Label { arg } => Tok::Label(arg@),
            TokenType::Equal => Tok::Equal,
            TokenType::LessThan => Tok::LessThan,
            TokenType::LessThanOrEqual => Tok::LessThanOrEqual,
            TokenType::GreaterThan => Tok::GreaterThan,
            TokenType::GreaterThanOrEqual => Tok::GreaterThanOrEqual,
            TokenType::BitAnd => Tok::BitAnd,
            TokenType::BitOr => Tok::BitOr,
            TokenType::BitXor => Tok::BitXor,
            TokenType::BitRightShift => Tok::BitRightShift,
            TokenType::BitLeftShift => Tok::BitLeftShift,
        }
    }
}

/// The view of each instruction of a sequence.
pub open spec fn toks_of(v: Seq<TokenType>) -> Seq<Tok> {
    v.map_values(|t: TokenType| t@)
}

impl TokenType {
    pub fn is_clear(&self) -> (r: bool)
        ensures
            r == (self@ == Tok::Clear),
    {
        match self {
            TokenType::Clear => true,
            _ => false,
        }
    }
}

} // verus!
