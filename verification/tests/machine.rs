use bfrs::action::MatchSMAction;
use bfrs::common::BFCommand;
use bfrs::matching::MatchSM;
use bfrs::pattern::Pattern;

fn decode(text: &str) -> Vec<BFCommand> {
    text.bytes().filter_map(BFCommand::from_u8).collect()
}

fn advance(amount: usize) -> MatchSMAction {
    MatchSMAction::AdvanceInput { amount }
}

fn set_last(binding: usize) -> MatchSMAction {
    MatchSMAction::SetLastBinding { binding }
}

fn new_binding(offset_from_last: isize, binding: usize) -> MatchSMAction {
    MatchSMAction::NewBinding { offset_from_last, binding }
}

#[test]
fn chain_with_puts_two_single_actions_in_order() {
    assert_eq!(
        advance(1).chain_with(set_last(0)),
        MatchSMAction::Chain(vec![advance(1), set_last(0)])
    );
}

#[test]
fn chain_with_joins_two_chains() {
    let a = MatchSMAction::Chain(vec![advance(1), advance(2)]);
    let b = MatchSMAction::Chain(vec![advance(3)]);
    assert_eq!(
        a.chain_with(b),
        MatchSMAction::Chain(vec![advance(1), advance(2), advance(3)])
    );
}

#[test]
fn chain_with_appends_a_single_action_to_a_chain() {
    let chain = MatchSMAction::Chain(vec![advance(1), advance(2)]);
    assert_eq!(
        chain.chain_with(set_last(4)),
        MatchSMAction::Chain(vec![advance(1), advance(2), set_last(4)])
    );
    let chain = MatchSMAction::Chain(vec![advance(1), advance(2)]);
    assert_eq!(
        set_last(4).chain_with(chain),
        MatchSMAction::Chain(vec![advance(1), advance(2), set_last(4)])
    );
}

#[test]
fn optional_chain_keeps_a_lone_action() {
    assert_eq!(advance(2).optional_chain(None), advance(2));
    assert_eq!(
        advance(2).optional_chain(Some(new_binding(2, 1))),
        MatchSMAction::Chain(vec![advance(2), new_binding(2, 1)])
    );
}

#[test]
fn chain_optionals_covers_the_four_cases() {
    assert_eq!(MatchSMAction::chain_optionals(None, None), None);
    assert_eq!(MatchSMAction::chain_optionals(Some(advance(1)), None), Some(advance(1)));
    assert_eq!(MatchSMAction::chain_optionals(None, Some(set_last(3))), Some(set_last(3)));
    assert_eq!(
        MatchSMAction::chain_optionals(Some(advance(1)), Some(set_last(3))),
        Some(MatchSMAction::Chain(vec![advance(1), set_last(3)]))
    );
}

#[test]
fn offset_of_a_run_is_signed_by_its_direction() {
    let instructions = decode(">>+");
    assert_eq!(MatchSM::new(&instructions).calculate_offset(), (2, Some(advance(2))));
    let instructions = decode("<<<");
    assert_eq!(MatchSM::new(&instructions).calculate_offset(), (-3, Some(advance(3))));
    let instructions = decode("><");
    assert_eq!(MatchSM::new(&instructions).calculate_offset(), (1, Some(advance(1))));
}

#[test]
fn offset_is_zero_where_no_run_stands() {
    let instructions = decode("+>");
    assert_eq!(MatchSM::new(&instructions).calculate_offset(), (0, None));
    let instructions = decode("");
    assert_eq!(MatchSM::new(&instructions).calculate_offset(), (0, None));
}

#[test]
fn literal_matches_the_instruction_under_the_cursor() {
    let instructions = decode("+-");
    let mut machine = MatchSM::new(&instructions);
    assert_eq!(machine.match_instruction(BFCommand::Increment), Some(advance(1)));
    assert_eq!(machine.match_instruction(BFCommand::Decrement), None);
    machine.run_action(advance(1));
    assert_eq!(machine.consumed(), 1);
    assert_eq!(machine.match_instruction(BFCommand::Decrement), Some(advance(1)));
    machine.run_action(advance(1));
    assert_eq!(machine.match_instruction(BFCommand::Decrement), None);
}

#[test]
fn new_binding_without_a_last_one_gets_its_self_entry_only() {
    let instructions = decode(">>");
    let mut machine = MatchSM::new(&instructions);
    assert_eq!(machine.last_binding(), None);
    machine.run_action(new_binding(2, 7));
    assert_eq!(machine.offset_between(7, 7), Some(0));
    assert_eq!(machine.offset_between(7, 0), None);
    assert_eq!(machine.last_binding(), None);
    machine.run_action(set_last(7));
    assert_eq!(machine.last_binding(), Some(7));
}

#[test]
fn run_action_applies_a_chain_in_order() {
    let instructions = decode("+>>");
    let mut machine = MatchSM::new(&instructions);
    machine.run_action(MatchSMAction::Chain(vec![new_binding(0, 0), set_last(0), advance(1)]));
    machine.run_action(MatchSMAction::Chain(vec![advance(2), new_binding(2, 1), set_last(1)]));
    assert_eq!(machine.consumed(), 3);
    assert_eq!(machine.last_binding(), Some(1));
    assert_eq!(machine.offset_between(1, 0), Some(2));
    assert_eq!(machine.offset_between(0, 1), Some(-2));
    assert_eq!(machine.offset_between(0, 0), Some(0));
    assert_eq!(machine.offset_between(1, 1), Some(0));
}

#[test]
fn match_binding_registers_records_or_refuses() {
    let instructions = decode("+>>-<<");
    let mut machine = MatchSM::new(&instructions);
    assert_eq!(machine.match_binding(0, 0), Some(Some(new_binding(0, 0))));
    machine.run_action(MatchSMAction::Chain(vec![new_binding(0, 0), set_last(0), advance(1)]));
    assert_eq!(machine.match_binding(1, 2), Some(Some(new_binding(2, 1))));
    machine.run_action(MatchSMAction::Chain(vec![advance(2), new_binding(2, 1), set_last(1)]));
    assert_eq!(machine.match_binding(0, -2), Some(None));
    assert_eq!(machine.match_binding(0, -1), None);
    assert_eq!(machine.match_binding(0, 2), None);
    assert_eq!(machine.match_binding(1, 0), Some(None));
}

#[test]
fn match_target_describes_the_whole_step() {
    let instructions = decode("+>>-<<");
    let mut machine = MatchSM::new(&instructions);
    let a = Pattern::Binding { index: 0, strict: false };
    let b = Pattern::Binding { index: 1, strict: false };
    assert_eq!(
        machine.match_target(&a),
        Some(Some(MatchSMAction::Chain(vec![new_binding(0, 0), set_last(0)])))
    );
    machine.run_action(MatchSMAction::Chain(vec![new_binding(0, 0), set_last(0)]));
    assert_eq!(machine.match_target(&a), Some(Some(set_last(0))));
    assert_eq!(machine.match_target(&Pattern::Binding { index: 0, strict: true }), None);
    assert_eq!(machine.match_target(&Pattern::Instruction(BFCommand::Decrement)), None);
    assert_eq!(
        machine.match_target(&Pattern::Instruction(BFCommand::Increment)),
        Some(Some(advance(1)))
    );
    machine.run_action(advance(1));
    assert_eq!(
        machine.match_target(&b),
        Some(Some(MatchSMAction::Chain(vec![advance(2), new_binding(2, 1), set_last(1)])))
    );
    machine.run_action(MatchSMAction::Chain(vec![advance(2), new_binding(2, 1), set_last(1)]));
    machine.run_action(advance(1));
    assert_eq!(
        machine.match_target(&a),
        Some(Some(MatchSMAction::Chain(vec![advance(2), set_last(0)])))
    );
}
