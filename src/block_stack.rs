use crate::instr::{begins, closes, depth, is_match, lemma_match_unique, well_nested, Idx, Instr, Label};
use std::collections::HashMap;
use vstd::prelude::*;

verus! {

broadcast use vstd::std_specs::hash::group_hash_axioms;

/// One open scope on the control stack.
#[allow(inconsistent_fields)]
#[derive(Clone, Copy, Debug, PartialEq, Eq, Structural)]
pub enum BlockStackElement {
    Function { end: Idx },
    Block { begin: Idx, end: Idx },
    Loop { begin: Idx, end: Idx },
    If { begin_if: Idx, begin_else: Option<Idx>, end: Idx },
    Else { begin_else: Idx, begin_if: Idx, end: Idx },
}

/// Every begin of a scope lies before its else, and that before its end.
pub open spec fn scope_ordered(x: BlockStackElement) -> bool {
    match x {
        BlockStackElement::Function { .. } => true,
        BlockStackElement::Block { begin, end } => begin.0 < end.0,
        BlockStackElement::Loop { begin, end } => begin.0 < end.0,
        BlockStackElement::If { begin_if, begin_else, end } => match begin_else {
            Some(e) => begin_if.0 < e.0 < end.0,
            None => begin_if.0 < end.0,
        },
        BlockStackElement::Else { begin_else, begin_if, end } => begin_if.0 < begin_else.0 < end.0,
    }
}

/// The scope that an if at `b` opens, given the begin-end map: with an else
/// where the if's body ends in one, without one where it ends in an end.
pub open spec fn if_scope(ends: Map<usize, usize>, b: usize) -> BlockStackElement {
    let e = ends[b];
    if ends.contains_key(e) {
        BlockStackElement::If { begin_if: Idx(b), begin_else: Some(Idx(e)), end: Idx(ends[e]) }
    } else {
        BlockStackElement::If { begin_if: Idx(b), begin_else: None, end: Idx(e) }
    }
}

/// The scope that the else of an if-with-else opens, keeping both begins
/// and the end.
pub open spec fn else_scope(x: BlockStackElement) -> BlockStackElement {
    match x {
        BlockStackElement::If { begin_if, begin_else: Some(begin_else), end } => {
            BlockStackElement::Else { begin_else, begin_if, end }
        },
        _ => x,
    }
}

/// The stack after an else: the if on top is replaced by its else.
pub open spec fn after_else(st: Seq<BlockStackElement>) -> Seq<BlockStackElement> {
    st.drop_last().push(else_scope(st.last()))
}

/// Where a branch to scope `x` leads: back to the begin of a loop, forward
/// to the end of any other scope.
pub open spec fn branch_dest(x: BlockStackElement) -> Idx {
    match x {
        BlockStackElement::Loop { begin, .. } => begin,
        BlockStackElement::Function { end } => end,
        BlockStackElement::Block { end, .. } => end,
        BlockStackElement::If { end, .. } => end,
        BlockStackElement::Else { end, .. } => end,
    }
}

/// The `n` innermost scopes of `st`, innermost first.
pub open spec fn innermost(st: Seq<BlockStackElement>, n: nat) -> Seq<BlockStackElement> {
    Seq::new(n, |k: int| st[st.len() - 1 - k])
}

/// The instruction that a branch with relative depth `label` leads to.
pub open spec fn resolve(st: Seq<BlockStackElement>, label: nat) -> Idx {
    branch_dest(st[st.len() - 1 - label])
}

/// Where a branch or a return leads, and the scopes it leaves.
#[derive(Clone, Debug)]
pub struct BranchTarget {
    /// The begin of the target loop, or the end of any other target scope;
    /// the instruction executed next is the one after it.
    pub absolute_instr: Idx,
    /// The scopes left, from the innermost to the target scope.
    pub ended_blocks: Vec<BlockStackElement>,
}

/// `ends` holds exactly the begins of the body of `s`, each with its
/// matching else or end.
pub open spec fn ends_ok(s: Seq<Instr>, ends: Map<usize, usize>) -> bool {
    &&& forall|b: usize| #[trigger]
        ends.contains_key(b) <==> (b < s.len() - 1 && begins(s[b as int]))
    &&& forall|b: usize| #[trigger] ends.contains_key(b) ==> is_match(s, b as int, ends[b] as int)
}

/// Each scope of `st` is ordered.
pub open spec fn all_ordered(st: Seq<BlockStackElement>) -> bool {
    forall|k: int| 0 <= k < st.len() ==> scope_ordered(#[trigger] st[k])
}

proof fn lemma_push_ordered(st: Seq<BlockStackElement>, x: BlockStackElement)
    requires
        all_ordered(st),
        scope_ordered(x),
    ensures
        all_ordered(st.push(x)),
{
    assert forall|k: int| 0 <= k < st.len() + 1 implies scope_ordered(#[trigger] st.push(x)[k]) by {
        if k < st.len() {
            assert(st.push(x)[k] == st[k]);
        }
    }
}

proof fn lemma_drop_ordered(st: Seq<BlockStackElement>)
    requires
        all_ordered(st),
        st.len() > 0,
    ensures
        all_ordered(st.drop_last()),
        scope_ordered(st.last()),
{
    assert forall|k: int| 0 <= k < st.len() - 1 implies scope_ordered(#[trigger] st.drop_last()[k]) by {
        assert(st.drop_last()[k] == st[k]);
    }
}

/// The control stack of a traversal over one function body, with the
/// precomputed map from each begin (block, loop, if, else) to its matching
/// else or end.
pub struct BlockStack {
    block_stack: Vec<BlockStackElement>,
    begin_end_map: HashMap<usize, usize>,
    instrs: Ghost<Seq<Instr>>,
}

/// `pending` holds the begins at positions before `i` whose body is still
/// open, outermost first.
spec fn pending_ok(s: Seq<Instr>, pending: Seq<usize>, i: int) -> bool {
    forall|k: int|
        0 <= k < pending.len() ==> {
            let p = #[trigger] pending[k] as int;
            &&& p < i
            &&& begins(s[p])
            &&& depth(s, p + 1) == k + 1
            &&& forall|j: int| p < j < i && closes(#[trigger] s[j]) ==> depth(s, j) != k + 1
        }
}

impl BlockStack {
    /// The instruction sequence the stack was built for.
    pub closed spec fn instrs(&self) -> Seq<Instr> {
        self.instrs@
    }

    /// The map from each begin position to its matching else or end.
    pub closed spec fn ends(&self) -> Map<usize, usize> {
        self.begin_end_map@
    }

    /// The open scopes, outermost first.
    pub closed spec fn stack(&self) -> Seq<BlockStackElement> {
        self.block_stack@
    }

    /// The map holds exactly the begins of the body, each with its matching
    /// else or end, and every open scope is ordered.
    pub open spec fn well_formed(&self) -> bool {
        &&& well_nested(self.instrs())
        &&& ends_ok(self.instrs(), self.ends())
        &&& all_ordered(self.stack())
    }

    /// Builds the control stack for a well nested function body whose last
    /// instruction is its closing end; the stack holds the function's scope.
    pub fn new(instrs: &[Instr]) -> (r: BlockStack)
        requires
            well_nested(instrs@),
        ensures
            r.well_formed(),
            r.instrs() == instrs@,
            r.stack() == seq![BlockStackElement::Function { end: Idx((instrs@.len() - 1) as usize) }],
    {
        Self::try_new(instrs).unwrap()
    }

    /// The else or end that matches the begin at `begin`, if `begin` is the
    /// position of a begin of the body.
    pub fn matching_end(&self, begin: Idx) -> (r: Option<Idx>)
        ensures
            r == (if self.ends().contains_key(begin.0) {
                Some(Idx(self.ends()[begin.0]))
            } else {
                None
            }),
    {
        match self.begin_end_map.get(&begin.0) {
            Some(e) => Some(Idx(*e)),
            None => None,
        }
    }

    /// Opens the block that begins at `begin`.
    pub fn begin_block(&mut self, begin: Idx)
        requires
            old(self).well_formed(),
            old(self).ends().contains_key(begin.0),
        ensures
            final(self).well_formed(),
            final(self).instrs() == old(self).instrs(),
            final(self).ends() == old(self).ends(),
            final(self).stack() == old(self).stack().push(
                BlockStackElement::Block { begin, end: Idx(old(self).ends()[begin.0]) },
            ),
    {
        let end = *self.begin_end_map.get(&begin.0).unwrap();
        proof {
            assert(is_match(self.instrs(), begin.0 as int, end as int));
            lemma_push_ordered(self.stack(), BlockStackElement::Block { begin, end: Idx(end) });
        }
        self.block_stack.push(BlockStackElement::Block { begin, end: Idx(end) });
    }

    /// Opens the loop that begins at `begin`.
    pub fn begin_loop(&mut self, begin: Idx)
        requires
            old(self).well_formed(),
            old(self).ends().contains_key(begin.0),
        ensures
            final(self).well_formed(),
            final(self).instrs() == old(self).instrs(),
            final(self).ends() == old(self).ends(),
            final(self).stack() == old(self).stack().push(
                BlockStackElement::Loop { begin, end: Idx(old(self).ends()[begin.0]) },
            ),
    {
        let end = *self.begin_end_map.get(&begin.0).unwrap();
        proof {
            assert(is_match(self.instrs(), begin.0 as int, end as int));
            lemma_push_ordered(self.stack(), BlockStackElement::Loop { begin, end: Idx(end) });
        }
        self.block_stack.push(BlockStackElement::Loop { begin, end: Idx(end) });
    }

    /// Opens the if that begins at `begin_if`, with its else where it has
    /// one.
    pub fn begin_if(&mut self, begin_if: Idx)
        requires
            old(self).well_formed(),
            old(self).ends().contains_key(begin_if.0),
        ensures
            final(self).well_formed(),
            final(self).instrs() == old(self).instrs(),
            final(self).ends() == old(self).ends(),
            final(self).stack() == old(self).stack().push(if_scope(old(self).ends(), begin_if.0)),
    {
        let end_or_else = *self.begin_end_map.get(&begin_if.0).unwrap();
        let if_ = match self.begin_end_map.get(&end_or_else) {
            Some(end) => BlockStackElement::If {
                begin_if,
                begin_else: Some(Idx(end_or_else)),
                end: Idx(*end),
            },
            None => BlockStackElement::If { begin_if, begin_else: None, end: Idx(end_or_else) },
        };
        proof {
            let s = self.instrs();
            assert(is_match(s, begin_if.0 as int, end_or_else as int));
            if self.ends().contains_key(end_or_else) {
                assert(is_match(s, end_or_else as int, self.ends()[end_or_else] as int));
            }
            lemma_push_ordered(self.stack(), if_);
        }
        self.block_stack.push(if_);
    }

    /// Turns the if-with-else on top of the stack into its else, and returns
    /// that if.
    pub fn else_(&mut self) -> (r: BlockStackElement)
        requires
            old(self).well_formed(),
            old(self).stack().len() > 0,
            old(self).stack().last() matches BlockStackElement::If { begin_else: Some(_), .. },
        ensures
            final(self).well_formed(),
            final(self).instrs() == old(self).instrs(),
            final(self).ends() == old(self).ends(),
            r == old(self).stack().last(),
            final(self).stack() == after_else(old(self).stack()),
    {
        proof {
            lemma_drop_ordered(self.stack());
            lemma_push_ordered(self.stack().drop_last(), else_scope(self.stack().last()));
        }
        let top = self.block_stack.pop().unwrap();
        match top {
            BlockStackElement::If { begin_if, begin_else: Some(begin_else), end } => {
                self.block_stack.push(BlockStackElement::Else { begin_else, begin_if, end });
            },
            _ => {},
        }
        proof {
            assert(self.stack() =~= after_else(old(self).stack()));
        }
        top
    }

    /// Closes the innermost scope and returns it.
    pub fn end(&mut self) -> (r: BlockStackElement)
        requires
            old(self).well_formed(),
            old(self).stack().len() > 0,
        ensures
            final(self).well_formed(),
            final(self).instrs() == old(self).instrs(),
            final(self).ends() == old(self).ends(),
            r == old(self).stack().last(),
            final(self).stack() == old(self).stack().drop_last(),
    {
        proof {
            lemma_drop_ordered(self.stack());
        }
        self.block_stack.pop().unwrap()
    }

    /// Resolves a branch with relative depth `label`: the scope `label` levels
    /// out from the innermost is its target.
    pub fn br_target(&self, label: Label) -> (r: BranchTarget)
        requires
            label.0 < self.stack().len(),
        ensures
            r.absolute_instr == resolve(self.stack(), label.0 as nat),
            r.ended_blocks@ == innermost(self.stack(), label.0 as nat + 1),
            r.ended_blocks@.len() == label.0 + 1,
            r.ended_blocks@.last() == self.stack()[self.stack().len() - 1 - label.0],
    {
        let len = self.block_stack.len();
        let mut ended_blocks: Vec<BlockStackElement> = Vec::new();
        let mut k: usize = 0;
        while k <= label.0
            invariant
                len == self.stack().len(),
                label.0 < len,
                k <= label.0 + 1,
                ended_blocks@ == innermost(self.stack(), k as nat),
            decreases label.0 + 1 - k,
        {
            ended_blocks.push(self.block_stack[len - 1 - k]);
            k = k + 1;
            proof {
                assert(ended_blocks@ =~= innermost(self.stack(), k as nat));
            }
        }
        let absolute_instr = match ended_blocks[label.0] {
            BlockStackElement::Loop { begin, .. } => begin,
            BlockStackElement::Function { end } => end,
            BlockStackElement::Block { end, .. } => end,
            BlockStackElement::If { end, .. } => end,
            BlockStackElement::Else { end, .. } => end,
        };
        BranchTarget { absolute_instr, ended_blocks }
    }

    /// Resolves a return: it leads to the end of the function and leaves
    /// every open scope.
    pub fn return_target(&self) -> (r: BranchTarget)
        requires
            self.stack().len() > 0,
            self.stack()[0] is Function,
        ensures
            r.absolute_instr == branch_dest(self.stack()[0]),
            r.ended_blocks@ == innermost(self.stack(), self.stack().len()),
    {
        let len = self.block_stack.len();
        let mut ended_blocks: Vec<BlockStackElement> = Vec::new();
        let mut k: usize = 0;
        while k < len
            invariant
                len == self.stack().len(),
                k <= len,
                ended_blocks@ == innermost(self.stack(), k as nat),
            decreases len - k,
        {
            ended_blocks.push(self.block_stack[len - 1 - k]);
            k = k + 1;
            proof {
                assert(ended_blocks@ =~= innermost(self.stack(), k as nat));
            }
        }
        let absolute_instr = match self.block_stack[0] {
            BlockStackElement::Function { end } => end,
            _ => Idx(0),
        };
        BranchTarget { absolute_instr, ended_blocks }
    }

    /// Builds the control stack for a function body whose last instruction
    /// is its closing end; `None` where the nesting is unbalanced.
    #[verifier::rlimit(40)]
    pub fn try_new(instrs: &[Instr]) -> (r: Option<BlockStack>)
        ensures
            r is Some <==> well_nested(instrs@),
            r matches Some(bs) ==> {
                &&& bs.well_formed()
                &&& bs.instrs() == instrs@
                &&& bs.stack() == seq![BlockStackElement::Function { end: Idx((instrs@.len() - 1) as usize) }]
            },
    {
        if instrs.len() == 0 {
            return None;
        }
        let n: usize = instrs.len() - 1;
        let ghost s = instrs@;
        let mut begin_end_map: HashMap<usize, usize> = HashMap::new();
        let mut begin_stack: Vec<usize> = Vec::new();
        let mut i: usize = 0;
        while i < n
            invariant
                s == instrs@,
                n == s.len() - 1,
                0 <= i <= n,
                begin_stack@.len() == depth(s, i as int),
                pending_ok(s, begin_stack@, i as int),
                forall|j: int| 0 <= j < i && closes(#[trigger] s[j]) ==> depth(s, j) >= 1,
                forall|b: usize| #[trigger]
                    begin_end_map@.contains_key(b) ==> b < i && is_match(s, b as int, begin_end_map@[b] as int),
                forall|b: int|
                    0 <= b < i && begins(#[trigger] s[b]) ==> begin_end_map@.contains_key(b as usize)
                        || begin_stack@.contains(b as usize),
            decreases n - i,
        {
            let instr = instrs[i];
            let ghost old_stack = begin_stack@;
            let ghost old_map = begin_end_map@;
            match instr {
                Instr::Block | Instr::Loop | Instr::If => {
                    begin_stack.push(i);
                },
                Instr::Else | Instr::End => {
                    if begin_stack.len() == 0 {
                        return None;
                    }
                    let begin = begin_stack.pop().unwrap();
                    begin_end_map.insert(begin, i);
                    if matches!(instr, Instr::Else) {
                        begin_stack.push(i);
                    }
                },
                _ => {},
            }
            proof {
                assert forall|b: int|
                    0 <= b < i + 1 && begins(#[trigger] s[b]) implies begin_end_map@.contains_key(
                    b as usize,
                ) || begin_stack@.contains(b as usize) by {
                    if b == i {
                        assert(begin_stack@[begin_stack@.len() - 1] == i);
                    } else if !old_map.contains_key(b as usize) {
                        let k = choose|k: int| 0 <= k < old_stack.len() && old_stack[k] == b as usize;
                        if k < begin_stack@.len() && !(closes(s[i as int]) && k == old_stack.len() - 1) {
                            assert(begin_stack@[k] == old_stack[k]);
                        }
                    }
                }
            }
            i = i + 1;
        }
        if begin_stack.len() != 0 {
            return None;
        }
        Some(BlockStack {
            block_stack: vec![BlockStackElement::Function { end: Idx(n) }],
            begin_end_map,
            instrs: Ghost(s),
        })
    }
}

/// A begin-end map of a well nested body has one entry for each begin of
/// the body and no other, each entry points forward, and it is the one
/// matching else or end of that begin.
pub proof fn lemma_begin_end_entries(s: Seq<Instr>, ends: Map<usize, usize>)
    requires
        well_nested(s),
        ends_ok(s, ends),
    ensures
        ends.dom() == Set::new(|b: usize| b < s.len() - 1 && begins(s[b as int])),
        forall|b: usize| #[trigger] ends.contains_key(b) ==> b < ends[b],
        forall|b: usize, e: usize|
            #[trigger] ends.contains_key(b) && #[trigger] is_match(s, b as int, e as int) ==> ends[b]
                == e,
{
    assert(ends.dom() =~= Set::new(|b: usize| b < s.len() - 1 && begins(s[b as int])));
    assert forall|b: usize, e: usize|
        #[trigger] ends.contains_key(b) && #[trigger] is_match(s, b as int, e as int) implies ends[b]
        == e by {
        lemma_match_unique(s, b as int, ends[b] as int, e as int);
    }
}

/// An if whose body ends in an end opens a scope without an else that ends
/// there; one whose body ends in an else opens a scope with that else and
/// the else's matching end.
pub proof fn lemma_if_scope(s: Seq<Instr>, ends: Map<usize, usize>, b: usize)
    requires
        well_nested(s),
        ends_ok(s, ends),
        ends.contains_key(b),
        s[b as int] is If,
    ensures
        s[ends[b] as int] is End ==> if_scope(ends, b) == (BlockStackElement::If {
            begin_if: Idx(b),
            begin_else: None,
            end: Idx(ends[b]),
        }),
        s[ends[b] as int] is Else ==> {
            &&& ends.contains_key(ends[b])
            &&& is_match(s, ends[b] as int, ends[ends[b]] as int)
            &&& if_scope(ends, b) == (BlockStackElement::If {
                begin_if: Idx(b),
                begin_else: Some(Idx(ends[b])),
                end: Idx(ends[ends[b]]),
            })
        },
        is_match(s, b as int, if_scope(ends, b)->If_begin_else.unwrap_or(
            if_scope(ends, b)->If_end,
        ).0 as int),
{
    let e = ends[b];
    assert(is_match(s, b as int, e as int));
    if s[e as int] is Else {
        assert(ends.contains_key(e));
    }
}

/// After an else, the scope on top keeps the if's begin, its else and its
/// end, and the scopes below are those below the if; so the end that
/// follows returns that else scope.
pub proof fn lemma_if_else_end(st: Seq<BlockStackElement>)
    requires
        st.len() > 0,
        st.last() matches BlockStackElement::If { begin_else: Some(_), .. },
    ensures
        st.last() matches BlockStackElement::If { begin_if, begin_else: Some(begin_else), end }
            ==> after_else(st).last() == (BlockStackElement::Else { begin_else, begin_if, end }),
        after_else(st).len() == st.len(),
        after_else(st).drop_last() == st.drop_last(),
{
    assert(after_else(st).drop_last() =~= st.drop_last());
}

/// A branch to the innermost scope leads back to the begin of a loop and
/// forward to the end of a block.
pub proof fn lemma_branch_to_innermost(st: Seq<BlockStackElement>)
    requires
        st.len() > 0,
    ensures
        st.last() matches BlockStackElement::Loop { begin, .. } ==> resolve(st, 0) == begin,
        st.last() matches BlockStackElement::Block { end, .. } ==> resolve(st, 0) == end,
        innermost(st, 1) == seq![st.last()],
{
    assert(innermost(st, 1) =~= seq![st.last()]);
}

} // verus!
