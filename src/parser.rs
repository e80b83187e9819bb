use vstd::prelude::*;

use crate::ir::{DatamodKind, AST};
use crate::lexer::{balanced_chars, balanced_tokens, depth, lemma_balanced_chars, lex, tokens, BfCmd};

verus! {

/// Why a source does not parse.
#[derive(Copy, Clone, Debug, PartialEq, Eq, Structural)]
pub enum ParseError {
    /// Code point of a `]` that closes no loop.
    EndLoopWithoutStart { code_p: usize },
    /// Code point of a `[` that is never closed.
    UnterminatedLoop { code_p: usize },
}

/// The commands that `n` stands for, written back out.
pub open spec fn print_node(n: AST) -> Seq<BfCmd>
    decreases n,
{
    match n {
        AST::Loop { elements, .. } => seq![BfCmd::LoopStart] + print_seq(elements@) + seq![
            BfCmd::LoopEnd,
        ],
        AST::ShiftDataPtr { amount } => if amount == 1 {
            seq![BfCmd::IncPtr]
        } else if amount == -1 {
            seq![BfCmd::DecPtr]
        } else {
            seq![]
        },
        AST::ModData { kind: DatamodKind::AddData { amount }, .. } => if amount == 1 {
            seq![BfCmd::IncData]
        } else if amount == 255 {
            seq![BfCmd::DecData]
        } else {
            seq![]
        },
        AST::ReadByte { .. } => seq![BfCmd::ReadByte],
        AST::WriteByte { .. } => seq![BfCmd::WriteByte],
        _ => seq![],
    }
}

pub open spec fn print_seq(s: Seq<AST>) -> Seq<BfCmd>
    decreases s,
{
    if s.len() == 0 {
        seq![]
    } else {
        print_seq(s.subrange(0, s.len() - 1)) + print_node(s[s.len() - 1])
    }
}

/// `n` has the shape the parser gives: loops on offset zero with no hint, one-step shifts
/// and increments, and I/O at offset zero.
pub open spec fn plain_node(n: AST) -> bool
    decreases n,
{
    match n {
        AST::Loop { cond_dp_offset, elements, known_to_be_nontrivial } => cond_dp_offset == 0
            && !known_to_be_nontrivial && plain_seq(elements@),
        AST::ShiftDataPtr { amount } => amount == 1 || amount == -1,
        AST::ModData { kind, dp_offset } => dp_offset == 0 && (kind == DatamodKind::AddData {
            amount: 1,
        } || kind == DatamodKind::AddData { amount: 255 }),
        AST::ReadByte { dp_offset } => dp_offset == 0,
        AST::WriteByte { dp_offset } => dp_offset == 0,
        _ => false,
    }
}

pub open spec fn plain_seq(s: Seq<AST>) -> bool
    decreases s,
{
    forall|i: int| 0 <= i < s.len() ==> plain_node(#[trigger] s[i])
}

/// The commands of a token sequence.
pub open spec fn cmds(t: Seq<(usize, BfCmd)>) -> Seq<BfCmd> {
    t.map_values(|p: (usize, BfCmd)| p.1)
}

/// Token `k` is a `]` where the depth first drops below zero.
pub open spec fn first_unmatched_end(t: Seq<(usize, BfCmd)>, k: int) -> bool {
    &&& 0 <= k < t.len()
    &&& t[k].1 == BfCmd::LoopEnd
    &&& depth(t, k + 1) < 0
    &&& forall|j: int| 0 <= j <= k ==> #[trigger] depth(t, j) >= 0
}

/// Token `k` is the innermost `[` still open at the end, and no `]` is unmatched.
pub open spec fn innermost_unclosed(t: Seq<(usize, BfCmd)>, k: int) -> bool {
    &&& 0 <= k < t.len()
    &&& t[k].1 == BfCmd::LoopStart
    &&& forall|j: int| 0 <= j <= t.len() ==> #[trigger] depth(t, j) >= 0
    &&& forall|j: int| k < j <= t.len() ==> #[trigger] depth(t, j) > depth(t, k)
    &&& depth(t, t.len() as int) == depth(t, k) + 1
}

/// The text of the loops still open: each an opening bracket and the body so far.
pub open spec fn open_text(r: Seq<(usize, Vec<AST>)>) -> Seq<BfCmd>
    decreases r.len(),
{
    if r.len() == 0 {
        seq![]
    } else {
        open_text(r.drop_last()) + seq![BfCmd::LoopStart] + print_seq(r.last().1@)
    }
}

proof fn lemma_print_push(s: Seq<AST>, n: AST)
    ensures
        print_seq(s.push(n)) == print_seq(s) + print_node(n),
{
    assert(s.push(n).subrange(0, s.len() as int) =~= s);
}

struct ParseStack {
    top_tokens: Vec<AST>,
    running_loops: Vec<(usize, Vec<AST>)>,
}

impl ParseStack {
    spec fn text(&self) -> Seq<BfCmd> {
        print_seq(self.top_tokens@) + open_text(self.running_loops@)
    }

    spec fn plain(&self) -> bool {
        &&& plain_seq(self.top_tokens@)
        &&& forall|m: int|
            0 <= m < self.running_loops@.len() ==> plain_seq(#[trigger] self.running_loops@[m].1@)
    }

    fn new() -> (r: Self)
        ensures
            r.top_tokens@ == Seq::<AST>::empty(),
            r.running_loops@ == Seq::<(usize, Vec<AST>)>::empty(),
    {
        ParseStack { top_tokens: Vec::new(), running_loops: Vec::new() }
    }

    fn pop_loop(&mut self) -> (r: Option<(usize, Vec<AST>)>)
        ensures
            old(self).running_loops@.len() == 0 ==> r is None && final(self).running_loops@ == old(self).running_loops@ && final(self).top_tokens == old(self).top_tokens,
            old(self).running_loops@.len() > 0 ==> r == Some(old(self).running_loops@.last())
                && final(self).running_loops@ == old(self).running_loops@.drop_last()
                && final(self).top_tokens == old(self).top_tokens,
    {
        self.running_loops.pop()
    }

    fn start_loop(&mut self, code_p: usize)
        ensures
            final(self).running_loops@.len() == old(self).running_loops@.len() + 1,
            final(self).running_loops@.drop_last() == old(self).running_loops@,
            final(self).running_loops@.last().0 == code_p,
            final(self).running_loops@.last().1@ == Seq::<AST>::empty(),
            final(self).top_tokens == old(self).top_tokens,
    {
        self.running_loops.push((code_p, Vec::new()));
        assert(self.running_loops@.drop_last() =~= old(self).running_loops@);
    }

    /// Appends `ast` to the innermost open loop, or to the top level.
    fn push_command(&mut self, ast: AST)
        requires
            old(self).plain(),
            plain_node(ast),
        ensures
            final(self).plain(),
            final(self).text() == old(self).text() + print_node(ast),
            final(self).running_loops@.len() == old(self).running_loops@.len(),
            forall|m: int|
                0 <= m < old(self).running_loops@.len() ==> (#[trigger] final(self).running_loops@[m]).0
                    == old(self).running_loops@[m].0,
    {
        let ghost n = ast;
        if self.running_loops.len() == 0 {
            self.top_tokens.push(ast);
            proof {
                lemma_print_push(old(self).top_tokens@, n);
                assert(self.running_loops@ == old(self).running_loops@);
            }
        } else {
            let last = self.running_loops.len() - 1;
            let (code_p, mut body) = self.running_loops.pop().unwrap();
            let ghost b = body@;
            body.push(ast);
            self.running_loops.push((code_p, body));
            proof {
                lemma_print_push(b, n);
                let r = self.running_loops@;
                assert(r.drop_last() =~= old(self).running_loops@.drop_last());
                assert forall|m: int| 0 <= m < r.len() implies plain_seq(
                    #[trigger] r[m].1@,
                ) by {
                    if m < last {
                        assert(r[m] == old(self).running_loops@[m]);
                    }
                };
                assert(forall|m: int|
                    0 <= m < last ==> r[m] == old(self).running_loops@[m]);
            }
        }
    }

    fn complete(self) -> (r: Result<Vec<AST>, ParseError>)
        ensures
            self.running_loops@.len() == 0 ==> r == Ok::<Vec<AST>, ParseError>(self.top_tokens),
            self.running_loops@.len() > 0 ==> r == Err::<Vec<AST>, ParseError>(
                ParseError::UnterminatedLoop { code_p: self.running_loops@.last().0 },
            ),
    {
        let mut s = self;
        if s.running_loops.len() == 0 {
            Ok(s.top_tokens)
        } else {
            let (code_p, _) = s.running_loops.pop().unwrap();
            Err(ParseError::UnterminatedLoop { code_p })
        }
    }
}

fn node_for(cmd: BfCmd) -> (r: AST)
    requires
        cmd != BfCmd::LoopStart,
        cmd != BfCmd::LoopEnd,
    ensures
        plain_node(r),
        print_node(r) == seq![cmd],
{
    let r = match cmd {
        BfCmd::IncPtr => AST::ShiftDataPtr { amount: 1 },
        BfCmd::DecPtr => AST::ShiftDataPtr { amount: -1 },
        BfCmd::IncData => AST::ModData { kind: DatamodKind::AddData { amount: 1 }, dp_offset: 0 },
        BfCmd::DecData => AST::ModData {
            kind: DatamodKind::AddData { amount: 255 },
            dp_offset: 0,
        },
        BfCmd::ReadByte => AST::ReadByte { dp_offset: 0 },
        _ => AST::WriteByte { dp_offset: 0 },
    };
    assert(print_node(r) =~= seq![cmd]);
    r
}

/// Builds the tree IR of `data`: one node per command, each loop owning its body.
/// Fails at the first `]` that closes nothing, or else at the innermost `[` left open.
pub fn parse(data: &str) -> (r: Result<Vec<AST>, ParseError>)
    ensures
        r is Ok <==> balanced_tokens(tokens(data@)),
        r is Ok <==> balanced_chars(data@),
        r matches Ok(a) ==> print_seq(a@) == cmds(tokens(data@)) && plain_seq(a@),
        r matches Err(ParseError::EndLoopWithoutStart { code_p }) ==> exists|k: int|
            first_unmatched_end(tokens(data@), k) && tokens(data@)[k].0 == code_p,
        r matches Err(ParseError::UnterminatedLoop { code_p }) ==> exists|k: int|
            innermost_unclosed(tokens(data@), k) && tokens(data@)[k].0 == code_p,
{
    proof {
        lemma_balanced_chars(data@);
    }
    let toks = lex(data);
    let ghost t = toks@;
    let mut parse_stack = ParseStack::new();
    // token index of the opening bracket of each loop still open
    let ghost mut opens: Seq<int> = seq![];
    let mut i: usize = 0;
    assert(parse_stack.text() =~= cmds(t.subrange(0, 0)));
    while i < toks.len()
        invariant
            t == toks@,
            t == tokens(data@),
            balanced_tokens(tokens(data@)) <==> balanced_chars(data@),
            i <= t.len(),
            parse_stack.plain(),
            parse_stack.text() == cmds(t.subrange(0, i as int)),
            parse_stack.running_loops@.len() == depth(t, i as int),
            opens.len() == parse_stack.running_loops@.len(),
            forall|j: int| 0 <= j <= i ==> #[trigger] depth(t, j) >= 0,
            forall|m: int|
                0 <= m < opens.len() ==> {
                    &&& 0 <= #[trigger] opens[m] < i
                    &&& t[opens[m]].1 == BfCmd::LoopStart
                    &&& t[opens[m]].0 == parse_stack.running_loops@[m].0
                    &&& depth(t, opens[m]) == m
                    &&& forall|j: int| opens[m] < j <= i ==> #[trigger] depth(t, j) > m
                },
        decreases t.len() - i,
    {
        let (code_p, token) = toks[i];
        let ghost before = parse_stack.text();
        assert(cmds(t.subrange(0, i + 1)) =~= cmds(t.subrange(0, i as int)).push(token));
        assert(depth(t, i + 1) == depth(t, i as int) + match token {
            BfCmd::LoopStart => 1int,
            BfCmd::LoopEnd => -1int,
            _ => 0int,
        });
        match token {
            BfCmd::LoopEnd => {
                let ghost r = parse_stack.running_loops@;
                let popped = parse_stack.pop_loop();
                match popped {
                    Some((_, running_loop)) => {
                        let ghost body = running_loop@;
                        assert(plain_seq(r[r.len() - 1].1@));
                        let next = AST::Loop {
                            elements: running_loop,
                            cond_dp_offset: 0,
                            known_to_be_nontrivial: false,
                        };
                        assert(print_node(next) == seq![BfCmd::LoopStart] + print_seq(body)
                            + seq![BfCmd::LoopEnd]);
                        assert(parse_stack.plain()) by {
                            assert forall|m: int|
                                0 <= m < parse_stack.running_loops@.len() implies plain_seq(
                                #[trigger] parse_stack.running_loops@[m].1@,
                            ) by {
                                assert(parse_stack.running_loops@[m] == r[m]);
                            };
                        };
                        parse_stack.push_command(next);
                        proof {
                            assert(open_text(r) == open_text(r.drop_last()) + seq![
                                BfCmd::LoopStart,
                            ] + print_seq(body));
                            assert(parse_stack.text() =~= before + seq![BfCmd::LoopEnd]);
                            opens = opens.drop_last();
                        }
                    },
                    None => {
                        assert(first_unmatched_end(t, i as int));
                        return Err(ParseError::EndLoopWithoutStart { code_p });
                    },
                }
            },
            BfCmd::LoopStart => {
                let ghost r = parse_stack.running_loops@;
                parse_stack.start_loop(code_p);
                proof {
                    let r2 = parse_stack.running_loops@;
                    assert(r2.drop_last() =~= r);
                    assert(print_seq(r2.last().1@) =~= Seq::<BfCmd>::empty());
                    assert(parse_stack.text() =~= before + seq![BfCmd::LoopStart]);
                    assert forall|m: int|
                        0 <= m < r2.len() implies plain_seq(#[trigger] r2[m].1@) by {
                        if m < r.len() {
                            assert(r2[m] == r[m]);
                        }
                    };
                    opens = opens.push(i as int);
                }
            },
            _ => {
                let node = node_for(token);
                parse_stack.push_command(node);
            },
        }
        proof {
            assert forall|m: int| 0 <= m < opens.len() implies {
                &&& 0 <= #[trigger] opens[m] < i + 1
                &&& t[opens[m]].1 == BfCmd::LoopStart
                &&& t[opens[m]].0 == parse_stack.running_loops@[m].0
                &&& depth(t, opens[m]) == m
                &&& forall|j: int| opens[m] < j <= i + 1 ==> #[trigger] depth(t, j) > m
            } by {
                assert forall|j: int| opens[m] < j <= i + 1 implies #[trigger] depth(t, j) > m by {
                    if j == i + 1 && opens[m] < i {
                        assert(depth(t, i as int) > m);
                    }
                };
            };
        }
        i = i + 1;
    }
    assert(t.subrange(0, i as int) =~= t);
    if parse_stack.running_loops.len() > 0 {
        proof {
            let m = opens.len() - 1;
            assert(innermost_unclosed(t, opens[m]));
        }
    }
    parse_stack.complete()
}

} // verus!
