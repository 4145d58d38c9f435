//! The label resolver: redundant clears are dropped, then each jump gets the
//! index of its label.
use vstd::prelude::*;
use crate::token::{toks_of, Tok, TokenType};
use crate::parser::{command_spec, line_spec, program_spec, Command, ParseFault};
use crate::text::split_spec;

verus! {

/// Whether the last instruction of `s` is a `Clear` right after another `Clear`.
pub open spec fn ends_in_double_clear(s: Seq<Tok>) -> bool {
    s.len() >= 2 && s.last() == Tok::Clear && s[s.len() - 2] == Tok::Clear
}

/// `s` with every `Clear` that directly follows another `Clear` left out, so that
/// each run of clears becomes one.
pub open spec fn collapse_spec(s: Seq<Tok>) -> Seq<Tok>
    decreases s.len(),
{
    if s.len() == 0 {
        s
    } else if ends_in_double_clear(s) {
        collapse_spec(s.drop_last())
    } else {
        collapse_spec(s.drop_last()).push(s.last())
    }
}

/// The index of the first `Label` named `name` at or after `j`, or -1.
pub open spec fn label_from(s: Seq<Tok>, name: Seq<char>, j: int) -> int
    decreases s.len() - j,
{
    if j < 0 || j >= s.len() {
        -1
    } else if s[j] == Tok::Label(name) {
        j
    } else {
        label_from(s, name, j + 1)
    }
}

/// Where a jump to `name` goes: the first label of that name, or `usize::MAX`
/// when there is none.
pub open spec fn jump_target(s: Seq<Tok>, name: Seq<char>) -> usize {
    let r = label_from(s, name, 0);
    if r < 0 {
        usize::MAX
    } else {
        r as usize
    }
}

/// One instruction with its label name, if it is a jump, replaced by the target.
pub open spec fn resolve_one(s: Seq<Tok>, t: Tok) -> Tok {
    match t {
        Tok::PreComputeJump(name) => Tok::Jump(jump_target(s, name)),
        _ => t,
    }
}

/// Every jump of `s` resolved.
pub open spec fn resolve_spec(s: Seq<Tok>) -> Seq<Tok> {
    s.map_values(|t: Tok| resolve_one(s, t))
}

/// What the resolver makes of an instruction sequence.
pub open spec fn optimize_spec(s: Seq<Tok>) -> Seq<Tok> {
    resolve_spec(collapse_spec(s))
}

/// Two sequences that agree on where each label stands find the same labels.
proof fn lemma_label_from_same(s: Seq<Tok>, u: Seq<Tok>, name: Seq<char>, j: int)
    requires
        s.len() == u.len(),
        forall|k: int| 0 <= k < s.len() ==> (#[trigger] s[k] == Tok::Label(name) <==> u[k] == Tok::Label(name)),
    ensures
        label_from(s, name, j) == label_from(u, name, j),
    decreases s.len() - j,
{
    if 0 <= j < s.len() {
        lemma_label_from_same(s, u, name, j + 1);
    }
}

/// Drops each `Clear` that directly follows another `Clear`.
fn collapse_clears(tokens: &mut Vec<TokenType>)
    ensures
        toks_of(final(tokens)@) == collapse_spec(toks_of(old(tokens)@)),
{
    let ghost s = toks_of(tokens@);
    let mut input: Vec<TokenType> = Vec::new();
    core::mem::swap(tokens, &mut input);
    let mut out: Vec<TokenType> = Vec::new();
    let mut prev_clear = false;
    let n = input.len();
    let mut i: usize = 0;
    assert(s.take(0) =~= Seq::<Tok>::empty());
    while i < n
        invariant
            n == input@.len(),
            n == s.len(),
            0 <= i <= n,
            forall|j: int| i <= j < n ==> #[trigger] input@[j]@ == s[j],
            toks_of(out@) == collapse_spec(s.take(i as int)),
            prev_clear == (i > 0 && s[i - 1] == Tok::Clear),
        decreases n - i,
    {
        let mut t = TokenType::Clear;
        core::mem::swap(&mut input[i], &mut t);
        let is_clear = t.is_clear();
        assert(s.take(i as int + 1).drop_last() =~= s.take(i as int));
        if is_clear && prev_clear {
        } else {
            let ghost before = toks_of(out@);
            out.push(t);
            assert(toks_of(out@) =~= before.push(s[i as int]));
        }
        prev_clear = is_clear;
        i = i + 1;
    }
    assert(s.take(n as int) =~= s);
    *tokens = out;
}

/// The index of the first label named `label`, or `usize::MAX` when there is none.
fn find_label(tokens: &Vec<TokenType>, label: &String) -> (r: usize)
    ensures
        r == jump_target(toks_of(tokens@), label@),
{
    let ghost s = toks_of(tokens@);
    let mut j: usize = 0;
    while j < tokens.len()
        invariant
            s == toks_of(tokens@),
            0 <= j <= s.len(),
            label_from(s, label@, 0) == label_from(s, label@, j as int),
        decreases s.len() - j,
    {
        assert(s[j as int] == tokens@[j as int]@);
        match &tokens[j] {
            TokenType::Label { arg } => {
                if arg.eq(label) {
                    return j;
                }
            },
            _ => {},
        }
        j = j + 1;
    }
    usize::MAX
}

/// Removes redundant `Clear` instructions, then replaces each jump's label name
/// with the index of the first label of that name (`usize::MAX` if there is none).
/// The clears go first, since removing instructions moves the labels.
pub fn optimize(tokens: &mut Vec<TokenType>)
    ensures
        toks_of(final(tokens)@) == optimize_spec(toks_of(old(tokens)@)),
{
    collapse_clears(tokens);
    let ghost s = toks_of(tokens@);
    let n = tokens.len();
    let mut i: usize = 0;
    while i < n
        invariant
            n == tokens@.len(),
            n == s.len(),
            0 <= i <= n,
            forall|j: int| 0 <= j < n ==> #[trigger] toks_of(tokens@)[j] == (if j < i {
                resolve_one(s, s[j])
            } else {
                s[j]
            }),
        decreases n - i,
    {
        let target: Option<usize> = match &tokens[i] {
            TokenType::PreComputeJump { arg } => {
                let t = find_label(tokens, arg);
                proof {
                    let cur = toks_of(tokens@);
                    assert forall|k: int| 0 <= k < s.len() implies (#[trigger] s[k] == Tok::Label(arg@)
                        <==> cur[k] == Tok::Label(arg@)) by {
                        assert(cur[k] == (if k < i { resolve_one(s, s[k]) } else { s[k] }));
                    }
                    lemma_label_from_same(s, cur, arg@, 0);
                }
                Some(t)
            },
            _ => None,
        };
        match target {
            Some(t) => {
                let ghost before = toks_of(tokens@);
                tokens.set(i, TokenType::Jump { arg: t });
                assert(toks_of(tokens@) =~= before.update(i as int, Tok::Jump(t)));
            },
            None => {},
        }
        i = i + 1;
    }
    assert(toks_of(tokens@) =~= resolve_spec(s));
}

/// `n` clears in a row.
pub open spec fn clears(n: nat) -> Seq<Tok> {
    Seq::new(n, |i: int| Tok::Clear)
}

proof fn lemma_one_more_clear(p: Seq<Tok>, n: nat, q: Seq<Tok>)
    requires
        n >= 1,
    ensures
        collapse_spec(p + clears(n + 1) + q) == collapse_spec(p + clears(n) + q),
    decreases q.len(),
{
    let s = p + clears(n + 1) + q;
    let t = p + clears(n) + q;
    if q.len() == 0 {
        assert(s.drop_last() =~= p + clears(n));
        assert(t =~= p + clears(n));
        assert(s.last() == Tok::Clear);
        assert(s[s.len() - 2] == Tok::Clear);
    } else {
        lemma_one_more_clear(p, n, q.drop_last());
        assert(s.drop_last() =~= p + clears(n + 1) + q.drop_last());
        assert(t.drop_last() =~= p + clears(n) + q.drop_last());
        assert(s.last() == t.last());
        assert(s[s.len() - 2] == t[t.len() - 2]);
    }
}

/// A run of clears collapses to one whatever its length: resolving a program
/// with `n >= 1` clears in a row between `p` and `q` gives what resolving it
/// with a single clear there gives, labels and jumps included. A blank line
/// adds just such a clear.
pub proof fn lemma_clear_run_transparent(p: Seq<Tok>, n: nat, q: Seq<Tok>)
    requires
        n >= 1,
    ensures
        optimize_spec(p + clears(n) + q) == optimize_spec(p + clears(1) + q),
    decreases n,
{
    if n > 1 {
        lemma_one_more_clear(p, (n - 1) as nat, q);
        lemma_clear_run_transparent(p, (n - 1) as nat, q);
    }
}

/// `n` empty lines.
pub open spec fn blank_lines(n: nat) -> Seq<Seq<char>> {
    Seq::new(n, |i: int| Seq::<char>::empty())
}

proof fn lemma_program_concat(l1: Seq<Seq<char>>, l2: Seq<Seq<char>>)
    ensures
        program_spec(l1 + l2) == match program_spec(l1) {
            Err(e) => Err(e),
            Ok(t1) => match program_spec(l2) {
                Err(e) => Err(e),
                Ok(t2) => Ok(t1 + t2),
            },
        },
    decreases l1.len(),
{
    if l1.len() == 0 {
        assert(l1 + l2 =~= l2);
        match program_spec(l2) {
            Ok(t2) => {
                assert(Seq::<Tok>::empty() + t2 =~= t2);
            },
            Err(_) => {},
        }
    } else {
        assert((l1 + l2)[0] == l1[0]);
        assert((l1 + l2).drop_first() =~= l1.drop_first() + l2);
        lemma_program_concat(l1.drop_first(), l2);
        match line_spec(split_spec(l1[0], ' ')) {
            Ok(ts) => match program_spec(l1.drop_first()) {
                Ok(r1) => match program_spec(l2) {
                    Ok(t2) => {
                        assert(ts.push(Tok::Clear) + (r1 + t2) =~= (ts.push(Tok::Clear) + r1) + t2);
                    },
                    Err(_) => {},
                },
                Err(_) => {},
            },
            Err(_) => {},
        }
    }
}

proof fn lemma_blank_lines(n: nat)
    ensures
        program_spec(blank_lines(n)) == Ok::<Seq<Tok>, ParseFault>(clears(n)),
    decreases n,
{
    if n > 0 {
        let b = blank_lines(n);
        lemma_blank_lines((n - 1) as nat);
        assert(b.drop_first() =~= blank_lines((n - 1) as nat));
        assert(b[0] == Seq::<char>::empty());
        let ws = split_spec(Seq::<char>::empty(), ' ');
        assert(ws =~= seq![Seq::<char>::empty()]);
        assert(split_spec(Seq::<char>::empty(), ':')[0] == Seq::<char>::empty());
        assert(command_spec(Seq::<char>::empty()) == Ok::<Command<Tok>, ParseFault>(Command::Skip));
        assert(ws.drop_first() =~= Seq::<Seq<char>>::empty());
        assert(ws[0] == Seq::<char>::empty());
        assert(line_spec(Seq::<Seq<char>>::empty()) == Ok::<Seq<Tok>, ParseFault>(Seq::<Tok>::empty()));
        assert(line_spec(ws) == Ok::<Seq<Tok>, ParseFault>(Seq::<Tok>::empty()));
        assert(Seq::<Tok>::empty().push(Tok::Clear) + clears((n - 1) as nat) =~= clears(n));
    } else {
        assert(blank_lines(n) =~= Seq::<Seq<char>>::empty());
        assert(clears(n) =~= Seq::<Tok>::empty());
    }
}

/// Blank lines in a row act as one: a program whose lines are `l1`, then
/// `n >= 1` empty lines, then `l2`, reads and resolves to the same
/// instructions, labels and jumps as the one with a single empty line there,
/// or fails to read with the same error.
pub proof fn lemma_blank_lines_transparent(l1: Seq<Seq<char>>, l2: Seq<Seq<char>>, n: nat)
    requires
        n >= 1,
    ensures
        match (program_spec(l1 + blank_lines(n) + l2), program_spec(l1 + blank_lines(1) + l2)) {
            (Ok(x), Ok(y)) => optimize_spec(x) == optimize_spec(y),
            (Err(e1), Err(e2)) => e1 == e2,
            _ => false,
        },
{
    lemma_program_concat(l1 + blank_lines(n), l2);
    lemma_program_concat(l1, blank_lines(n));
    lemma_program_concat(l1 + blank_lines(1), l2);
    lemma_program_concat(l1, blank_lines(1));
    lemma_blank_lines(n);
    lemma_blank_lines(1);
    match program_spec(l1) {
        Ok(t1) => match program_spec(l2) {
            Ok(t2) => {
                lemma_clear_run_transparent(t1, n, t2);
            },
            Err(_) => {},
        },
        Err(_) => {},
    }
}

} // verus!
