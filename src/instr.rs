use vstd::prelude::*;

verus! {

/// Position of an instruction in the flat instruction sequence.
#[derive(Clone, Copy, Debug, PartialEq, Eq, Hash, Structural)]
pub struct Idx(pub usize);

/// Relative branch depth: 0 is the innermost open scope.
#[derive(Clone, Copy, Debug, PartialEq, Eq, Hash, Structural)]
pub struct Label(pub usize);

/// The instructions of a function body, as far as its control structure goes.
#[derive(Clone, Copy, Debug, PartialEq, Eq, Hash, Structural)]
pub enum Instr {
    Block,
    Loop,
    If,
    Else,
    End,
    Br(Label),
    Return,
    Nop,
}

/// An instruction that opens a scope: block, loop or if.
pub open spec fn opens(x: Instr) -> bool {
    x is Block || x is Loop || x is If
}

/// An instruction that closes the body before it: else or end.
pub open spec fn closes(x: Instr) -> bool {
    x is Else || x is End
}

/// An instruction whose position has a matching else or end.
pub open spec fn begins(x: Instr) -> bool {
    opens(x) || x is Else
}

/// How an instruction changes the nesting depth.
pub open spec fn delta(x: Instr) -> int {
    if opens(x) {
        1
    } else if x is End {
        -1
    } else {
        0
    }
}

/// Nesting depth before position `i`: opens minus ends among the first `i`
/// instructions.
pub open spec fn depth(s: Seq<Instr>, i: int) -> int
    decreases i,
{
    if i <= 0 {
        0
    } else {
        depth(s, i - 1) + delta(s[i - 1])
    }
}

/// The body (every instruction but the closing end of the function) never
/// closes a scope that is not open, and leaves no scope open.
pub open spec fn well_nested(s: Seq<Instr>) -> bool {
    &&& s.len() >= 1
    &&& forall|i: int| 0 <= i < s.len() - 1 && closes(#[trigger] s[i]) ==> depth(s, i) >= 1
    &&& depth(s, s.len() - 1) == 0
}

/// `e` is the else or end that closes the body opened at `b`: the first
/// closing instruction after `b` at the depth of that body.
pub open spec fn is_match(s: Seq<Instr>, b: int, e: int) -> bool {
    &&& 0 <= b < e < s.len() - 1
    &&& begins(s[b])
    &&& closes(s[e])
    &&& depth(s, e) == depth(s, b + 1)
    &&& forall|j: int| b < j < e && closes(#[trigger] s[j]) ==> depth(s, j) != depth(s, b + 1)
}

/// A begin has at most one matching else or end.
pub proof fn lemma_match_unique(s: Seq<Instr>, b: int, e1: int, e2: int)
    requires
        is_match(s, b, e1),
        is_match(s, b, e2),
    ensures
        e1 == e2,
{
    if e1 < e2 {
        assert(closes(s[e1]));
    } else if e2 < e1 {
        assert(closes(s[e2]));
    }
}

proof fn lemma_depth_same_prefix(s: Seq<Instr>, t: Seq<Instr>, k: int)
    requires
        0 <= k <= s.len(),
        k <= t.len(),
        forall|j: int| 0 <= j < k ==> s[j] == t[j],
    ensures
        depth(s, k) == depth(t, k),
    decreases k,
{
    if k > 0 {
        lemma_depth_same_prefix(s, t, k - 1);
    }
}

proof fn lemma_depth_after_open(s: Seq<Instr>, k: int)
    requires
        0 <= k <= s.len(),
    ensures
        depth(seq![Instr::Block] + s, k + 1) == 1 + depth(s, k),
    decreases k,
{
    let t = seq![Instr::Block] + s;
    if k > 0 {
        lemma_depth_after_open(s, k - 1);
        assert(t[k] == s[k - 1]);
        assert(depth(t, k + 1) == depth(t, k) + delta(t[k]));
        assert(depth(s, k) == depth(s, k - 1) + delta(s[k - 1]));
    } else {
        assert(t[0] == Instr::Block);
        assert(depth(t, 0) == 0);
        assert(depth(t, 1) == depth(t, 0) + delta(t[0]));
    }
}

/// Unbalanced bodies are not well nested: one with an extra end before the
/// closing end of the function, and one with a scope that is never closed.
pub proof fn lemma_unbalanced(s: Seq<Instr>)
    requires
        well_nested(s),
    ensures
        !well_nested(s.drop_last().push(Instr::End).push(s.last())),
        !well_nested(seq![Instr::Block] + s),
{
    let n = s.len() - 1;
    let extra = s.drop_last().push(Instr::End).push(s.last());
    lemma_depth_same_prefix(s, extra, n);
    assert(closes(extra[n]));
    let open = seq![Instr::Block] + s;
    lemma_depth_after_open(s, n);
    assert(open.len() - 1 == n + 1);
}

} // verus!
