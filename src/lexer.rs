use vstd::prelude::*;

verus! {

/// The eight commands of the source language.
#[derive(Copy, Clone, Debug, PartialEq, Eq, Structural)]
pub enum BfCmd {
    IncPtr,
    DecPtr,
    IncData,
    DecData,
    ReadByte,
    WriteByte,
    LoopStart,
    LoopEnd,
}

/// The command a source character stands for; every other character is a comment.
pub open spec fn cmd_of(c: char) -> Option<BfCmd> {
    if c == '>' {
        Some(BfCmd::IncPtr)
    } else if c == '<' {
        Some(BfCmd::DecPtr)
    } else if c == '+' {
        Some(BfCmd::IncData)
    } else if c == '-' {
        Some(BfCmd::DecData)
    } else if c == '.' {
        Some(BfCmd::WriteByte)
    } else if c == ',' {
        Some(BfCmd::ReadByte)
    } else if c == '[' {
        Some(BfCmd::LoopStart)
    } else if c == ']' {
        Some(BfCmd::LoopEnd)
    } else {
        None
    }
}

/// The commands of `s`, each with the index of its character.
pub open spec fn tokens(s: Seq<char>) -> Seq<(usize, BfCmd)>
    decreases s.len(),
{
    if s.len() == 0 {
        seq![]
    } else {
        let prev = tokens(s.drop_last());
        match cmd_of(s.last()) {
            Some(c) => prev.push(((s.len() - 1) as usize, c)),
            None => prev,
        }
    }
}

/// The loop nesting depth after the first `k` tokens: opened loops minus closed ones.
pub open spec fn depth(t: Seq<(usize, BfCmd)>, k: int) -> int
    decreases k,
{
    if k <= 0 {
        0
    } else {
        depth(t, k - 1) + match t[k - 1].1 {
            BfCmd::LoopStart => 1int,
            BfCmd::LoopEnd => -1int,
            _ => 0int,
        }
    }
}

/// Every `]` closes an earlier `[` and every `[` is closed.
pub open spec fn balanced_tokens(t: Seq<(usize, BfCmd)>) -> bool {
    &&& forall|k: int| 0 <= k <= t.len() ==> #[trigger] depth(t, k) >= 0
    &&& depth(t, t.len() as int) == 0
}

/// The brackets of source `s` are balanced.
pub open spec fn balanced(s: Seq<char>) -> bool {
    balanced_tokens(tokens(s))
}

/// Opening brackets minus closing brackets among the characters of `s`.
pub open spec fn char_depth(s: Seq<char>) -> int
    decreases s.len(),
{
    if s.len() == 0 {
        0
    } else {
        char_depth(s.drop_last()) + if s.last() == '[' {
            1int
        } else if s.last() == ']' {
            -1int
        } else {
            0int
        }
    }
}

/// No prefix of `s` closes more brackets than it opens, and `s` closes all it opens.
pub open spec fn balanced_chars(s: Seq<char>) -> bool {
    &&& forall|j: int| 0 <= j <= s.len() ==> char_depth(#[trigger] s.subrange(0, j)) >= 0
    &&& char_depth(s) == 0
}

proof fn lemma_depth_prefix(t: Seq<(usize, BfCmd)>, u: Seq<(usize, BfCmd)>, k: int)
    requires
        0 <= k <= t.len(),
        k <= u.len(),
        t.subrange(0, k) == u.subrange(0, k),
    ensures
        depth(t, k) == depth(u, k),
    decreases k,
{
    if k > 0 {
        assert(t.subrange(0, k - 1) =~= t.subrange(0, k).subrange(0, k - 1));
        assert(u.subrange(0, k - 1) =~= u.subrange(0, k).subrange(0, k - 1));
        assert(t[k - 1] == t.subrange(0, k)[k - 1]);
        assert(u[k - 1] == u.subrange(0, k)[k - 1]);
        lemma_depth_prefix(t, u, k - 1);
    }
}

/// The token nesting depth after all tokens of `s` is the character bracket count.
proof fn lemma_depth_chars(s: Seq<char>)
    ensures
        depth(tokens(s), tokens(s).len() as int) == char_depth(s),
    decreases s.len(),
{
    if s.len() > 0 {
        let init = s.drop_last();
        lemma_depth_chars(init);
        let ti = tokens(init);
        let t = tokens(s);
        if t.len() > ti.len() {
            assert(t.subrange(0, ti.len() as int) =~= ti.subrange(0, ti.len() as int));
            lemma_depth_prefix(t, ti, ti.len() as int);
        }
    }
}

/// The tokens of a prefix of `s` are a prefix of the tokens of `s`.
proof fn lemma_tokens_prefix(s: Seq<char>, j: int)
    requires
        0 <= j <= s.len(),
    ensures
        tokens(s.subrange(0, j)).len() <= tokens(s).len(),
        tokens(s.subrange(0, j)) == tokens(s).subrange(0, tokens(s.subrange(0, j)).len() as int),
    decreases s.len(),
{
    if j == s.len() {
        assert(s.subrange(0, j) =~= s);
        assert(tokens(s).subrange(0, tokens(s).len() as int) =~= tokens(s));
    } else {
        let init = s.drop_last();
        assert(init.subrange(0, j) =~= s.subrange(0, j));
        lemma_tokens_prefix(init, j);
        let tj = tokens(s.subrange(0, j));
        assert(tokens(s).subrange(0, tj.len() as int) =~= tokens(init).subrange(0, tj.len() as int));
    }
}

/// How many tokens the first `j` characters give grows by at most one per character.
proof fn lemma_tokens_step(s: Seq<char>, j: int)
    requires
        0 <= j < s.len(),
    ensures
        tokens(s.subrange(0, j + 1)).len() <= tokens(s.subrange(0, j)).len() + 1,
        tokens(s.subrange(0, j + 1)).len() >= tokens(s.subrange(0, j)).len(),
{
    assert(s.subrange(0, j + 1).drop_last() =~= s.subrange(0, j));
}

/// Every count of tokens up to that of `s` is the count of some prefix of `s`.
proof fn lemma_tokens_hit(s: Seq<char>, k: int)
    requires
        0 <= k <= tokens(s).len(),
    ensures
        exists|j: int| 0 <= j <= s.len() && #[trigger] tokens(s.subrange(0, j)).len() == k,
    decreases s.len(),
{
    if k == tokens(s).len() {
        assert(s.subrange(0, s.len() as int) =~= s);
    } else {
        let init = s.drop_last();
        assert(tokens(s).len() <= tokens(init).len() + 1);
        lemma_tokens_hit(init, k);
        let j = choose|j: int| 0 <= j <= init.len() && #[trigger] tokens(init.subrange(0, j)).len() == k;
        assert(init.subrange(0, j) =~= s.subrange(0, j));
    }
}

/// The brackets balance as tokens exactly when they balance as characters: no prefix of
/// the source closes more brackets than it opens, and the whole source closes all it opens.
pub proof fn lemma_balanced_chars(s: Seq<char>)
    ensures
        balanced_tokens(tokens(s)) <==> balanced_chars(s),
{
    let t = tokens(s);
    lemma_depth_chars(s);
    // every character prefix is a token prefix
    assert forall|j: int| 0 <= j <= s.len() implies char_depth(#[trigger] s.subrange(0, j))
        == depth(t, tokens(s.subrange(0, j)).len() as int) by {
        lemma_depth_chars(s.subrange(0, j));
        lemma_tokens_prefix(s, j);
        let tj = tokens(s.subrange(0, j));
        assert(tj.subrange(0, tj.len() as int) =~= tj);
        lemma_depth_prefix(tj, t, tj.len() as int);
    };
    if balanced_tokens(t) {
        assert forall|j: int| 0 <= j <= s.len() implies char_depth(#[trigger] s.subrange(0, j)) >= 0 by {
            lemma_tokens_prefix(s, j);
            assert(depth(t, tokens(s.subrange(0, j)).len() as int) >= 0);
        };
        assert(s.subrange(0, s.len() as int) =~= s);
    }
    if balanced_chars(s) {
        assert forall|k: int| 0 <= k <= t.len() implies #[trigger] depth(t, k) >= 0 by {
            lemma_tokens_hit(s, k);
            let j = choose|j: int| 0 <= j <= s.len() && #[trigger] tokens(s.subrange(0, j)).len() == k;
            assert(char_depth(s.subrange(0, j)) >= 0);
        };
    }
}

fn cmd_of_char(c: char) -> (r: Option<BfCmd>)
    ensures
        r == cmd_of(c),
{
    match c {
        '>' => Some(BfCmd::IncPtr),
        '<' => Some(BfCmd::DecPtr),
        '+' => Some(BfCmd::IncData),
        '-' => Some(BfCmd::DecData),
        '.' => Some(BfCmd::WriteByte),
        ',' => Some(BfCmd::ReadByte),
        '[' => Some(BfCmd::LoopStart),
        ']' => Some(BfCmd::LoopEnd),
        _ => None,
    }
}

/// The commands of `data`, each with the index of its character (its code point).
pub fn lex(data: &str) -> (r: Vec<(usize, BfCmd)>)
    ensures
        r@ == tokens(data@),
{
    let n = data.unicode_len();
    let mut out: Vec<(usize, BfCmd)> = Vec::new();
    let mut i: usize = 0;
    while i < n
        invariant
            n == data@.len(),
            i <= n,
            out@ == tokens(data@.subrange(0, i as int)),
        decreases n - i,
    {
        let c = data.get_char(i);
        let ghost pre = data@.subrange(0, i as int);
        let ghost post = data@.subrange(0, i + 1);
        assert(post.drop_last() =~= pre);
        assert(post.last() == c);
        if let Some(cmd) = cmd_of_char(c) {
            out.push((i, cmd));
        }
        i = i + 1;
    }
    assert(data@.subrange(0, n as int) =~= data@);
    out
}

} // verus!
