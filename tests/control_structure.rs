use block_nesting::{BlockStack, BlockStackElement, Idx, Instr, Label};

fn stack_for(instrs: &[Instr]) -> BlockStack {
    BlockStack::try_new(instrs).expect("well nested")
}

#[test]
fn block_end_pairs_with_begin() {
    let instrs = [Instr::Block, Instr::Nop, Instr::End, Instr::End];
    let mut bs = stack_for(&instrs);
    assert_eq!(bs.matching_end(Idx(0)), Some(Idx(2)));
    assert_eq!(bs.matching_end(Idx(1)), None);
    assert_eq!(bs.matching_end(Idx(2)), None);
    bs.begin_block(Idx(0));
    assert_eq!(bs.end(), BlockStackElement::Block { begin: Idx(0), end: Idx(2) });
    assert_eq!(bs.end(), BlockStackElement::Function { end: Idx(3) });
}

#[test]
fn if_with_else_map_and_scope() {
    let instrs = [Instr::If, Instr::Nop, Instr::Else, Instr::Nop, Instr::End, Instr::End];
    let mut bs = stack_for(&instrs);
    assert_eq!(bs.matching_end(Idx(0)), Some(Idx(2)));
    assert_eq!(bs.matching_end(Idx(2)), Some(Idx(4)));
    assert_eq!(bs.matching_end(Idx(4)), None);
    bs.begin_if(Idx(0));
    let if_ = bs.else_();
    assert_eq!(
        if_,
        BlockStackElement::If { begin_if: Idx(0), begin_else: Some(Idx(2)), end: Idx(4) }
    );
}

#[test]
fn if_without_else_has_no_else() {
    let instrs = [Instr::If, Instr::Nop, Instr::End, Instr::End];
    let mut bs = stack_for(&instrs);
    bs.begin_if(Idx(0));
    assert_eq!(
        bs.end(),
        BlockStackElement::If { begin_if: Idx(0), begin_else: None, end: Idx(2) }
    );
}

#[test]
fn if_else_end_sequence() {
    let instrs = [Instr::If, Instr::Nop, Instr::Else, Instr::Nop, Instr::End, Instr::End];
    let mut bs = stack_for(&instrs);
    bs.begin_if(Idx(0));
    let t = bs.br_target(Label(0));
    assert_eq!(
        t.ended_blocks,
        vec![BlockStackElement::If { begin_if: Idx(0), begin_else: Some(Idx(2)), end: Idx(4) }]
    );
    let if_ = bs.else_();
    assert_eq!(
        if_,
        BlockStackElement::If { begin_if: Idx(0), begin_else: Some(Idx(2)), end: Idx(4) }
    );
    let else_ = BlockStackElement::Else { begin_else: Idx(2), begin_if: Idx(0), end: Idx(4) };
    assert_eq!(bs.br_target(Label(0)).ended_blocks, vec![else_]);
    assert_eq!(bs.end(), else_);
    assert_eq!(bs.end(), BlockStackElement::Function { end: Idx(5) });
}

#[test]
fn branch_in_loop_goes_to_its_begin() {
    let instrs = [Instr::Nop, Instr::Loop, Instr::Br(Label(0)), Instr::End, Instr::End];
    let mut bs = stack_for(&instrs);
    bs.begin_loop(Idx(1));
    let t = bs.br_target(Label(0));
    assert_eq!(t.absolute_instr, Idx(1));
    assert_eq!(t.ended_blocks, vec![BlockStackElement::Loop { begin: Idx(1), end: Idx(3) }]);
}

#[test]
fn branch_in_block_goes_to_its_end() {
    let instrs = [Instr::Block, Instr::Br(Label(0)), Instr::End, Instr::End];
    let mut bs = stack_for(&instrs);
    bs.begin_block(Idx(0));
    let t = bs.br_target(Label(0));
    assert_eq!(t.absolute_instr, Idx(2));
    assert_eq!(t.ended_blocks, vec![BlockStackElement::Block { begin: Idx(0), end: Idx(2) }]);
}

#[test]
fn branch_out_of_nested_scopes() {
    // function { block { loop { if { br 2 } } } }
    let instrs = [
        Instr::Block,
        Instr::Loop,
        Instr::If,
        Instr::Br(Label(2)),
        Instr::End,
        Instr::End,
        Instr::End,
        Instr::End,
    ];
    let mut bs = stack_for(&instrs);
    bs.begin_block(Idx(0));
    bs.begin_loop(Idx(1));
    bs.begin_if(Idx(2));
    let block = BlockStackElement::Block { begin: Idx(0), end: Idx(6) };
    let loop_ = BlockStackElement::Loop { begin: Idx(1), end: Idx(5) };
    let if_ = BlockStackElement::If { begin_if: Idx(2), begin_else: None, end: Idx(4) };
    let function = BlockStackElement::Function { end: Idx(7) };

    let t = bs.br_target(Label(2));
    assert_eq!(t.absolute_instr, Idx(6));
    assert_eq!(t.ended_blocks.len(), 3);
    assert_eq!(t.ended_blocks, vec![if_, loop_, block]);

    let t = bs.br_target(Label(1));
    assert_eq!(t.absolute_instr, Idx(1));
    assert_eq!(t.ended_blocks, vec![if_, loop_]);

    let t = bs.br_target(Label(3));
    assert_eq!(t.absolute_instr, Idx(7));
    assert_eq!(t.ended_blocks, vec![if_, loop_, block, function]);
}

#[test]
fn return_leaves_every_scope() {
    let instrs = [Instr::Block, Instr::Loop, Instr::Return, Instr::End, Instr::End, Instr::End];
    let mut bs = stack_for(&instrs);
    let function = BlockStackElement::Function { end: Idx(5) };

    let t = bs.return_target();
    assert_eq!(t.absolute_instr, Idx(5));
    assert_eq!(t.ended_blocks, vec![function]);

    bs.begin_block(Idx(0));
    bs.begin_loop(Idx(1));
    let t = bs.return_target();
    assert_eq!(t.absolute_instr, Idx(5));
    assert_eq!(
        t.ended_blocks,
        vec![
            BlockStackElement::Loop { begin: Idx(1), end: Idx(3) },
            BlockStackElement::Block { begin: Idx(0), end: Idx(4) },
            function,
        ]
    );
}

#[test]
fn extra_end_is_rejected() {
    let instrs = [Instr::Block, Instr::End, Instr::End, Instr::End];
    assert!(BlockStack::try_new(&instrs).is_none());
}

#[test]
fn missing_end_is_rejected() {
    let instrs = [Instr::Block, Instr::Nop, Instr::End];
    assert!(BlockStack::try_new(&instrs).is_none());
}

#[test]
fn else_without_open_scope_is_rejected() {
    let instrs = [Instr::Else, Instr::End, Instr::End];
    assert!(BlockStack::try_new(&instrs).is_none());
}

#[test]
fn empty_sequence_is_rejected() {
    let instrs: [Instr; 0] = [];
    assert!(BlockStack::try_new(&instrs).is_none());
}

#[test]
fn function_end_only() {
    let instrs = [Instr::End];
    let bs = BlockStack::new(&instrs);
    let t = bs.br_target(Label(0));
    assert_eq!(t.absolute_instr, Idx(0));
    assert_eq!(t.ended_blocks, vec![BlockStackElement::Function { end: Idx(0) }]);
}

#[test]
fn nested_ifs_with_else_pair_by_depth() {
    // if { if {} else {} } else { } end
    let instrs = [
        Instr::If,
        Instr::If,
        Instr::Else,
        Instr::End,
        Instr::Else,
        Instr::Nop,
        Instr::End,
        Instr::End,
    ];
    let mut bs = stack_for(&instrs);
    assert_eq!(bs.matching_end(Idx(0)), Some(Idx(4)));
    assert_eq!(bs.matching_end(Idx(1)), Some(Idx(2)));
    assert_eq!(bs.matching_end(Idx(2)), Some(Idx(3)));
    assert_eq!(bs.matching_end(Idx(4)), Some(Idx(6)));
    bs.begin_if(Idx(0));
    bs.begin_if(Idx(1));
    assert_eq!(
        bs.br_target(Label(1)).absolute_instr,
        Idx(6)
    );
    assert_eq!(
        bs.else_(),
        BlockStackElement::If { begin_if: Idx(1), begin_else: Some(Idx(2)), end: Idx(3) }
    );
    assert_eq!(
        bs.end(),
        BlockStackElement::Else { begin_else: Idx(2), begin_if: Idx(1), end: Idx(3) }
    );
    assert_eq!(
        bs.else_(),
        BlockStackElement::If { begin_if: Idx(0), begin_else: Some(Idx(4)), end: Idx(6) }
    );
}
