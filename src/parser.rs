//! The tokenizer: program text to instructions.
use vstd::prelude::*;
use crate::integer::{parse_decimal_spec, Integer};
use crate::text::{
    chars_of, is_single, lemma_split_nonempty, lines_spec, split_chars, split_lines, split_spec, string_of,
    strings_view, views_of, word_is,
};
use crate::token::{toks_of, Tok, TokenType};
use crate::optimize::{optimize, optimize_spec};

verus! {

/// Why a program could not be read. Each variant holds the offending command.
pub enum ParseError {
    /// A `push` whose argument is not an integer.
    InvalidInteger { command: String },
    /// An instruction without the arguments it needs.
    MissingArgument { command: String },
}

/// The mathematical value of a `ParseError`.
pub enum ParseFault {
    InvalidInteger(Seq<char>),
    MissingArgument(Seq<char>),
}

impl View for ParseError {
    type V = ParseFault;

    open spec fn view(&self) -> ParseFault {
        match self {
            ParseError::InvalidInteger { command } => ParseFault::InvalidInteger(command@),
            ParseError::MissingArgument { command } => ParseFault::MissingArgument(command@),
        }
    }
}

/// What one command of a line amounts to.
pub enum Command<T> {
    /// A comment: the rest of the line is ignored.
    Stop,
    /// An empty command: nothing is emitted.
    Skip,
    /// A command that names no instruction: nothing is emitted, but it is
    /// reported.
    Unknown,
    /// One instruction.
    Emit(T),
}

/// The stack that a letter names: `A`, `B` and `C` are 0, 1 and 2, and any
/// other text is the invalid index 255.
pub open spec fn stack_index_spec(s: Seq<char>) -> u8 {
    if s == seq!['A'] {
        0
    } else if s == seq!['B'] {
        1
    } else if s == seq!['C'] {
        2
    } else {
        255
    }
}

/// Takes the text naming one of the stacks and gives that stack's index.
pub fn stack_char_to_index(s: &Vec<char>) -> (r: u8)
    ensures
        r == stack_index_spec(s@),
{
    if is_single(s, 'A') {
        0
    } else if is_single(s, 'B') {
        1
    } else if is_single(s, 'C') {
        2
    } else {
        255
    }
}

/// The first argument of a command, or empty text when it has none.
pub open spec fn optional_arg(f: Seq<Seq<char>>) -> Seq<char> {
    if f.len() > 1 {
        f[1]
    } else {
        Seq::<char>::empty()
    }
}

/// A command starting with `//` ends the line.
pub open spec fn is_comment(id: Seq<char>) -> bool {
    id.len() >= 2 && id[0] == '/' && id[1] == '/'
}

/// One command: its fields are separated by `:` and the first names the instruction.
pub open spec fn command_spec(word: Seq<char>) -> Result<Command<Tok>, ParseFault> {
    let f = split_spec(word, ':');
    let id = f[0];
    if is_comment(id) {
        Ok(Command::Stop)
    } else if id.len() == 0 {
        Ok(Command::Skip)
    } else if id == seq!['e', 'x', 'i', 't'] {
        Ok(Command::Emit(Tok::Exit))
    } else if id == seq!['p', 'r', 'i', 'n', 't'] {
        Ok(Command::Emit(Tok::Print))
    } else if id == seq!['p', 'r', 'i', 'n', 't', 'n', 'u', 'm'] {
        Ok(Command::Emit(Tok::PrintNum))
    } else if id == seq!['g', 'e', 't', 'n', 'e', 'x', 't', 'i', 'n'] {
        Ok(Command::Emit(Tok::GetNextIn))
    } else if id == seq!['c', 'r', 'e', 'a', 't', 'e', 'f', 'i', 'l', 'e'] {
        Ok(Command::Emit(Tok::CreateFile(optional_arg(f))))
    } else if id == seq!['c', 'r', 'e', 'a', 't', 'e', 'f', 'i', 'l', 'e', 's', 't', 'r', 'e', 'a', 'm'] {
        Ok(Command::Emit(Tok::CreateFileStream(optional_arg(f))))
    } else if id == seq!['o', 'p', 'e', 'n', 'f', 'i', 'l', 'e', 's', 't', 'r', 'e', 'a', 'm'] {
        Ok(Command::Emit(Tok::OpenFileStream(optional_arg(f))))
    } else if id == seq!['r', 'e', 'a', 'd', 'f', 'i', 'l', 'e', 's', 't', 'r', 'e', 'a', 'm'] {
        Ok(Command::Emit(Tok::ReadFileStream))
    } else if id == seq!['w', 'r', 'i', 't', 'e', 'f', 'i', 'l', 'e', 's', 't', 'r', 'e', 'a', 'm'] {
        Ok(Command::Emit(Tok::WriteFileStream))
    } else if id == seq!['p', 'u', 's', 'h'] {
        if f.len() < 2 {
            Err(ParseFault::MissingArgument(word))
        } else {
            match parse_decimal_spec(f[1]) {
                Some(n) => Ok(Command::Emit(Tok::Push(n))),
                None => Err(ParseFault::InvalidInteger(word)),
            }
        }
    } else if id == seq!['p', 'o', 'p'] {
        if f.len() < 2 {
            Err(ParseFault::MissingArgument(word))
        } else {
            Ok(Command::Emit(Tok::Pop(stack_index_spec(f[1]))))
        }
    } else if id == seq!['+'] {
        Ok(Command::Emit(Tok::Add))
    } else if id == seq!['-'] {
        Ok(Command::Emit(Tok::Subtract))
    } else if id == seq!['*'] {
        Ok(Command::Emit(Tok::Multiply))
    } else if id == seq!['/'] {
        Ok(Command::Emit(Tok::Divide))
    } else if id == seq!['%'] {
        Ok(Command::Emit(Tok::Modulo))
    } else if id == seq!['m', 'o', 'v', 'e'] {
        if f.len() < 3 {
            Err(ParseFault::MissingArgument(word))
        } else {
            Ok(Command::Emit(Tok::Move(stack_index_spec(f[1]), stack_index_spec(f[2]))))
        }
    } else if id == seq!['c', 'o', 'p', 'y'] {
        if f.len() < 3 {
            Err(ParseFault::MissingArgument(word))
        } else {
            Ok(Command::Emit(Tok::Copy(stack_index_spec(f[1]), stack_index_spec(f[2]))))
        }
    } else if id == seq!['j', 'u', 'm', 'p'] {
        if f.len() < 2 {
            Err(ParseFault::MissingArgument(word))
        } else {
            Ok(Command::Emit(Tok::PreComputeJump(f[1])))
        }
    } else if id == seq!['l', 'a', 'b', 'e', 'l'] {
        if f.len() < 2 {
            Err(ParseFault::MissingArgument(word))
        } else {
            Ok(Command::Emit(Tok::Label(f[1])))
        }
    } else if id == seq!['=', '='] {
        Ok(Command::Emit(Tok::Equal))
    } else if id == seq!['>'] {
        Ok(Command::Emit(Tok::GreaterThan))
    } else if id == seq!['>', '='] {
        Ok(Command::Emit(Tok::GreaterThanOrEqual))
    } else if id == seq!['<'] {
        Ok(Command::Emit(Tok::LessThan))
    } else if id == seq!['<', '='] {
        Ok(Command::Emit(Tok::LessThanOrEqual))
    } else if id == seq!['&'] {
        Ok(Command::Emit(Tok::BitAnd))
    } else if id == seq!['|'] {
        Ok(Command::Emit(Tok::BitOr))
    } else if id == seq!['^'] {
        Ok(Command::Emit(Tok::BitXor))
    } else if id == seq!['>', '>'] {
        Ok(Command::Emit(Tok::BitRightShift))
    } else if id == seq!['<', '<'] {
        Ok(Command::Emit(Tok::BitLeftShift))
    } else {
        Ok(Command::Unknown)
    }
}

pub open spec fn command_view(r: Result<Command<TokenType>, ParseError>) -> Result<Command<Tok>, ParseFault> {
    match r {
        Ok(Command::Stop) => Ok(Command::Stop),
        Ok(Command::Skip) => Ok(Command::Skip),
        Ok(Command::Unknown) => Ok(Command::Unknown),
        Ok(Command::Emit(t)) => Ok(Command::Emit(t@)),
        Err(e) => Err(e@),
    }
}

/// Reads one command.
pub fn parse_command(word: &Vec<char>) -> (r: Result<Command<TokenType>, ParseError>)
    ensures
        command_view(r) == command_spec(word@),
{
    let f = split_chars(word, ':');
    proof {
        lemma_split_nonempty(word@, ':');
        assert(f@[0]@ == split_spec(word@, ':')[0]);
        assert(forall|i: int| 0 <= i < f@.len() ==> #[trigger] f@[i]@ == split_spec(word@, ':')[i]);
    }
    let id = &f[0];
    if id.len() >= 2 && id[0] == '/' && id[1] == '/' {
        return Ok(Command::Stop);
    }
    if id.len() == 0 {
        return Ok(Command::Skip);
    }
    if word_is(id, &['e', 'x', 'i', 't']) {
        return Ok(Command::Emit(TokenType::Exit));
    }
    if word_is(id, &['p', 'r', 'i', 'n', 't']) {
        return Ok(Command::Emit(TokenType::Print));
    }
    if word_is(id, &['p', 'r', 'i', 'n', 't', 'n', 'u', 'm']) {
        return Ok(Command::Emit(TokenType::PrintNum));
    }
    if word_is(id, &['g', 'e', 't', 'n', 'e', 'x', 't', 'i', 'n']) {
        return Ok(Command::Emit(TokenType::GetNextIn));
    }
    if word_is(id, &['c', 'r', 'e', 'a', 't', 'e', 'f', 'i', 'l', 'e']) {
        let arg = if f.len() > 1 { string_of(&f[1]) } else { String::new() };
        return Ok(Command::Emit(TokenType::CreateFile { arg }));
    }
    if word_is(id, &['c', 'r', 'e', 'a', 't', 'e', 'f', 'i', 'l', 'e', 's', 't', 'r', 'e', 'a', 'm']) {
        let arg = if f.len() > 1 { string_of(&f[1]) } else { String::new() };
        return Ok(Command::Emit(TokenType::CreateFileStream { arg }));
    }
    if word_is(id, &['o', 'p', 'e', 'n', 'f', 'i', 'l', 'e', 's', 't', 'r', 'e', 'a', 'm']) {
        let arg = if f.len() > 1 { string_of(&f[1]) } else { String::new() };
        return Ok(Command::Emit(TokenType::OpenFileStream { arg }));
    }
    if word_is(id, &['r', 'e', 'a', 'd', 'f', 'i', 'l', 'e', 's', 't', 'r', 'e', 'a', 'm']) {
        return Ok(Command::Emit(TokenType::ReadFileStream));
    }
    if word_is(id, &['w', 'r', 'i', 't', 'e', 'f', 'i', 'l', 'e', 's', 't', 'r', 'e', 'a', 'm']) {
        return Ok(Command::Emit(TokenType::WriteFileStream));
    }
    if word_is(id, &['p', 'u', 's', 'h']) {
        if f.len() < 2 {
            return Err(ParseError::MissingArgument { command: string_of(word) });
        }
        let text = string_of(&f[1]);
        match Integer::parse_decimal(text.as_str()) {
            Some(n) => return Ok(Command::Emit(TokenType::Push { arg: n })),
            None => return Err(ParseError::InvalidInteger { command: string_of(word) }),
        }
    }
    if word_is(id, &['p', 'o', 'p']) {
        if f.len() < 2 {
            return Err(ParseError::MissingArgument { command: string_of(word) });
        }
        return Ok(Command::Emit(TokenType::Pop { arg: stack_char_to_index(&f[1]) }));
    }
    if is_single(id, '+') {
        return Ok(Command::Emit(TokenType::Add));
    }
    if is_single(id, '-') {
        return Ok(Command::Emit(TokenType::Subtract));
    }
    if is_single(id, '*') {
        return Ok(Command::Emit(TokenType::Multiply));
    }
    if is_single(id, '/') {
        return Ok(Command::Emit(TokenType::Divide));
    }
    if is_single(id, '%') {
        return Ok(Command::Emit(TokenType::Modulo));
    }
    if word_is(id, &['m', 'o', 'v', 'e']) {
        if f.len() < 3 {
            return Err(ParseError::MissingArgument { command: string_of(word) });
        }
        return Ok(Command::Emit(TokenType::Move { arg: [stack_char_to_index(&f[1]), stack_char_to_index(&f[2])] }));
    }
    if word_is(id, &['c', 'o', 'p', 'y']) {
        if f.len() < 3 {
            return Err(ParseError::MissingArgument { command: string_of(word) });
        }
        return Ok(Command::Emit(TokenType::Copy { arg: [stack_char_to_index(&f[1]), stack_char_to_index(&f[2])] }));
    }
    if word_is(id, &['j', 'u', 'm', 'p']) {
        if f.len() < 2 {
            return Err(ParseError::MissingArgument { command: string_of(word) });
        }
        return Ok(Command::Emit(TokenType::PreComputeJump { arg: string_of(&f[1]) }));
    }
    if word_is(id, &['l', 'a', 'b', 'e', 'l']) {
        if f.len() < 2 {
            return Err(ParseError::MissingArgument { command: string_of(word) });
        }
        return Ok(Command::Emit(TokenType::Label { arg: string_of(&f[1]) }));
    }
    if word_is(id, &['=', '=']) {
        return Ok(Command::Emit(TokenType::Equal));
    }
    if is_single(id, '>') {
        return Ok(Command::Emit(TokenType::GreaterThan));
    }
    if word_is(id, &['>', '=']) {
        return Ok(Command::Emit(TokenType::GreaterThanOrEqual));
    }
    if is_single(id, '<') {
        return Ok(Command::Emit(TokenType::LessThan));
    }
    if word_is(id, &['<', '=']) {
        return Ok(Command::Emit(TokenType::LessThanOrEqual));
    }
    if is_single(id, '&') {
        return Ok(Command::Emit(TokenType::BitAnd));
    }
    if is_single(id, '|') {
        return Ok(Command::Emit(TokenType::BitOr));
    }
    if is_single(id, '^') {
        return Ok(Command::Emit(TokenType::BitXor));
    }
    if word_is(id, &['>', '>']) {
        return Ok(Command::Emit(TokenType::BitRightShift));
    }
    if word_is(id, &['<', '<']) {
        return Ok(Command::Emit(TokenType::BitLeftShift));
    }
    Ok(Command::Unknown)
}

/// The instructions of one line, given its space-separated commands.
pub open spec fn line_spec(words: Seq<Seq<char>>) -> Result<Seq<Tok>, ParseFault>
    decreases words.len(),
{
    if words.len() == 0 {
        Ok(Seq::<Tok>::empty())
    } else {
        match command_spec(words[0]) {
            Err(e) => Err(e),
            Ok(Command::Stop) => Ok(Seq::<Tok>::empty()),
            Ok(Command::Skip) | Ok(Command::Unknown) => line_spec(words.drop_first()),
            Ok(Command::Emit(t)) => match line_spec(words.drop_first()) {
                Err(e) => Err(e),
                Ok(rest) => Ok(seq![t] + rest),
            },
        }
    }
}

/// The instructions of a program given its lines: each line's instructions,
/// then a `Clear`.
pub open spec fn program_spec(lines: Seq<Seq<char>>) -> Result<Seq<Tok>, ParseFault>
    decreases lines.len(),
{
    if lines.len() == 0 {
        Ok(Seq::<Tok>::empty())
    } else {
        match line_spec(split_spec(lines[0], ' ')) {
            Err(e) => Err(e),
            Ok(ts) => match program_spec(lines.drop_first()) {
                Err(e) => Err(e),
                Ok(rest) => Ok(ts.push(Tok::Clear) + rest),
            },
        }
    }
}

/// The instructions that a program text stands for, before labels are resolved.
pub open spec fn parse_spec(text: Seq<char>) -> Result<Seq<Tok>, ParseFault> {
    program_spec(lines_spec(text))
}

proof fn lemma_line_step(ws: Seq<Seq<char>>, i: int)
    requires
        0 <= i < ws.len(),
    ensures
        line_spec(ws.skip(i)) == match command_spec(ws[i]) {
            Err(e) => Err(e),
            Ok(Command::Stop) => Ok(Seq::<Tok>::empty()),
            Ok(Command::Skip) | Ok(Command::Unknown) => line_spec(ws.skip(i + 1)),
            Ok(Command::Emit(t)) => match line_spec(ws.skip(i + 1)) {
                Err(e) => Err(e),
                Ok(rest) => Ok(seq![t] + rest),
            },
        },
{
    assert(ws.skip(i).drop_first() =~= ws.skip(i + 1));
    assert(ws.skip(i)[0] == ws[i]);
}

/// The instructions of one line.
fn parse_line(line: &Vec<char>) -> (r: Result<Vec<TokenType>, ParseError>)
    ensures
        match line_spec(split_spec(line@, ' ')) {
            Ok(ts) => r matches Ok(v) && toks_of(v@) == ts,
            Err(e) => r matches Err(x) && x@ == e,
        },
{
    let words = split_chars(line, ' ');
    let ghost ws = split_spec(line@, ' ');
    let mut acc: Vec<TokenType> = Vec::new();
    let mut i: usize = 0;
    assert(ws.skip(0) =~= ws);
    proof {
        match line_spec(ws) {
            Ok(rest) => {
                assert(toks_of(acc@) + rest =~= rest);
            },
            Err(_) => {},
        }
    }
    while i < words.len()
        invariant
            views_of(words@) == ws,
            ws == split_spec(line@, ' '),
            0 <= i <= words@.len(),
            line_spec(ws) == match line_spec(ws.skip(i as int)) {
                Ok(rest) => Ok(toks_of(acc@) + rest),
                Err(e) => Err(e),
            },
        decreases words@.len() - i,
    {
        let ghost before = toks_of(acc@);
        proof {
            lemma_line_step(ws, i as int);
        }
        assert(ws[i as int] == words@[i as int]@);
        match parse_command(&words[i]) {
            Err(e) => {
                return Err(e);
            },
            Ok(Command::Stop) => {
                assert(before + Seq::<Tok>::empty() =~= before);
                return Ok(acc);
            },
            Ok(Command::Skip) | Ok(Command::Unknown) => {},
            Ok(Command::Emit(t)) => {
                proof {
                    match line_spec(ws.skip(i as int + 1)) {
                        Ok(rest) => {
                            assert(before + (seq![t@] + rest) =~= before.push(t@) + rest);
                        },
                        Err(_) => {},
                    }
                }
                acc.push(t);
                assert(toks_of(acc@) =~= before.push(t@));
            },
        }
        i = i + 1;
    }
    assert(ws.skip(i as int) =~= Seq::<Seq<char>>::empty());
    assert(toks_of(acc@) + Seq::<Tok>::empty() =~= toks_of(acc@));
    Ok(acc)
}

/// Reads a program text into raw instructions: each line's commands, then a
/// `Clear` at the end of every line. Jumps still name their labels.
pub fn tokenize(text: &str) -> (r: Result<Vec<TokenType>, ParseError>)
    ensures
        match parse_spec(text@) {
            Ok(ts) => r matches Ok(v) && toks_of(v@) == ts,
            Err(e) => r matches Err(x) && x@ == e,
        },
{
    let chars = chars_of(text);
    let lines = split_lines(&chars);
    let ghost ls = lines_spec(text@);
    let mut tokens: Vec<TokenType> = Vec::new();
    let mut i: usize = 0;
    assert(ls.skip(0) =~= ls);
    proof {
        match program_spec(ls) {
            Ok(rest) => {
                assert(toks_of(tokens@) + rest =~= rest);
            },
            Err(_) => {},
        }
    }
    while i < lines.len()
        invariant
            views_of(lines@) == ls,
            ls == lines_spec(text@),
            0 <= i <= lines@.len(),
            program_spec(ls) == match program_spec(ls.skip(i as int)) {
                Ok(rest) => Ok(toks_of(tokens@) + rest),
                Err(e) => Err(e),
            },
        decreases lines@.len() - i,
    {
        let ghost before = toks_of(tokens@);
        assert(ls.skip(i as int).drop_first() =~= ls.skip(i as int + 1));
        assert(ls.skip(i as int)[0] == lines@[i as int]@);
        match parse_line(&lines[i]) {
            Err(e) => {
                return Err(e);
            },
            Ok(mut line_tokens) => {
                let ghost lt = toks_of(line_tokens@);
                tokens.append(&mut line_tokens);
                assert(toks_of(tokens@) =~= before + lt);
            },
        }
        let ghost mid = toks_of(tokens@);
        tokens.push(TokenType::Clear);
        assert(toks_of(tokens@) =~= mid.push(Tok::Clear));
        proof {
            match line_spec(split_spec(lines@[i as int]@, ' ')) {
                Ok(ts) => {
                    assert(mid == before + ts);
                    match program_spec(ls.skip(i as int + 1)) {
                        Ok(rest) => {
                            assert(toks_of(tokens@) + rest =~= before + (ts.push(Tok::Clear) + rest));
                        },
                        Err(e) => {},
                    }
                },
                Err(_) => {},
            }
        }
        i = i + 1;
    }
    assert(ls.skip(i as int) =~= Seq::<Seq<char>>::empty());
    assert(toks_of(tokens@) + Seq::<Tok>::empty() =~= toks_of(tokens@));
    Ok(tokens)
}

/// Reads a program text into the instructions that run: the raw instructions
/// of `tokenize`, with each run of clears collapsed to one and then each jump
/// resolved to the index of its label.
pub fn parse(text: &str) -> (r: Result<Vec<TokenType>, ParseError>)
    ensures
        match parse_spec(text@) {
            Ok(ts) => r matches Ok(v) && toks_of(v@) == optimize_spec(ts),
            Err(e) => r matches Err(x) && x@ == e,
        },
{
    match tokenize(text) {
        Ok(mut tokens) => {
            optimize(&mut tokens);
            Ok(tokens)
        },
        Err(e) => Err(e),
    }
}

/// The commands of one line that name no instruction, up to a comment.
pub open spec fn line_unknowns(words: Seq<Seq<char>>) -> Seq<Seq<char>>
    decreases words.len(),
{
    if words.len() == 0 {
        Seq::<Seq<char>>::empty()
    } else {
        match command_spec(words[0]) {
            Ok(Command::Stop) => Seq::<Seq<char>>::empty(),
            Ok(Command::Unknown) => seq![words[0]] + line_unknowns(words.drop_first()),
            _ => line_unknowns(words.drop_first()),
        }
    }
}

/// The commands of a program, line by line, that name no instruction.
pub open spec fn program_unknowns(lines: Seq<Seq<char>>) -> Seq<Seq<char>>
    decreases lines.len(),
{
    if lines.len() == 0 {
        Seq::<Seq<char>>::empty()
    } else {
        line_unknowns(split_spec(lines[0], ' ')) + program_unknowns(lines.drop_first())
    }
}

/// The commands of a program text that name no instruction, in order. They
/// are left out of the program; this lists them so that they can be reported.
pub fn unknown_commands(text: &str) -> (r: Vec<String>)
    ensures
        strings_view(r@) == program_unknowns(lines_spec(text@)),
{
    let chars = chars_of(text);
    let lines = split_lines(&chars);
    let ghost ls = lines_spec(text@);
    let mut out: Vec<String> = Vec::new();
    let mut i: usize = 0;
    assert(ls.skip(0) =~= ls);
    assert(strings_view(out@) + program_unknowns(ls) =~= program_unknowns(ls));
    while i < lines.len()
        invariant
            views_of(lines@) == ls,
            ls == lines_spec(text@),
            0 <= i <= lines@.len(),
            strings_view(out@) + program_unknowns(ls.skip(i as int)) == program_unknowns(ls),
        decreases lines@.len() - i,
    {
        assert(ls.skip(i as int).drop_first() =~= ls.skip(i as int + 1));
        assert(ls.skip(i as int)[0] == lines@[i as int]@);
        let words = split_chars(&lines[i], ' ');
        let ghost ws = split_spec(lines@[i as int]@, ' ');
        let ghost line_start = strings_view(out@);
        let mut j: usize = 0;
        assert(ws.skip(0) =~= ws);
        assert(line_start + line_unknowns(ws) =~= strings_view(out@) + line_unknowns(ws.skip(0)));
        assert(ws.skip(ws.len() as int) =~= Seq::<Seq<char>>::empty());
        while j < words.len()
            invariant
                views_of(words@) == ws,
                ws.skip(ws.len() as int) == Seq::<Seq<char>>::empty(),
                0 <= j <= words@.len(),
                line_start + line_unknowns(ws) == strings_view(out@) + line_unknowns(ws.skip(j as int)),
            ensures
                line_start + line_unknowns(ws) == strings_view(out@) + line_unknowns(ws.skip(j as int)),
                line_unknowns(ws.skip(j as int)) == Seq::<Seq<char>>::empty(),
            decreases words@.len() - j,
        {
            assert(ws.skip(j as int).drop_first() =~= ws.skip(j as int + 1));
            assert(ws.skip(j as int)[0] == words@[j as int]@);
            let ghost before = strings_view(out@);
            match parse_command(&words[j]) {
                Ok(Command::Stop) => {
                    assert(line_unknowns(ws.skip(j as int)) == Seq::<Seq<char>>::empty());
                    break;
                },
                Ok(Command::Unknown) => {
                    out.push(string_of(&words[j]));
                    assert(strings_view(out@) =~= before.push(words@[j as int]@));
                    assert(before + (seq![words@[j as int]@] + line_unknowns(ws.skip(j as int + 1)))
                        =~= strings_view(out@) + line_unknowns(ws.skip(j as int + 1)));
                },
                _ => {},
            }
            j = j + 1;
        }
        proof {
            assert(strings_view(out@) + Seq::<Seq<char>>::empty() =~= strings_view(out@));
            assert(strings_view(out@) == line_start + line_unknowns(ws));
            assert(line_start + (line_unknowns(ws) + program_unknowns(ls.skip(i as int + 1)))
                =~= strings_view(out@) + program_unknowns(ls.skip(i as int + 1)));
        }
        i = i + 1;
    }
    assert(ls.skip(i as int) =~= Seq::<Seq<char>>::empty());
    assert(strings_view(out@) + Seq::<Seq<char>>::empty() =~= strings_view(out@));
    out
}

} // verus!
