use bfrs::common::BFCommand;
use bfrs::group::Pattern;

fn items(pattern: Pattern) -> Vec<Pattern> {
    match pattern {
        Pattern::Group(items) => items,
        _ => panic!("not a group"),
    }
}

#[test]
fn two_items_form_a_group() {
    let group = items(Pattern::Instruction(BFCommand::Increment).extend(Pattern::Binding(0)));
    assert_eq!(group.len(), 2);
    assert!(matches!(group[0], Pattern::Instruction(BFCommand::Increment)));
    assert!(matches!(group[1], Pattern::Binding(0)));
}

#[test]
fn two_groups_are_joined() {
    let a = Pattern::Group(vec![Pattern::Binding(0), Pattern::Binding(1)]);
    let b = Pattern::Group(vec![Pattern::Binding(2)]);
    let group = items(a.extend(b));
    assert_eq!(group.len(), 3);
    assert!(matches!(group[0], Pattern::Binding(0)));
    assert!(matches!(group[1], Pattern::Binding(1)));
    assert!(matches!(group[2], Pattern::Binding(2)));
}

#[test]
fn group_and_item_stand_side_by_side() {
    let a = Pattern::Group(vec![Pattern::Binding(0)]);
    let group = items(a.extend(Pattern::Binding(1)));
    assert_eq!(group.len(), 2);
    assert!(matches!(&group[0], Pattern::Group(inner) if inner.len() == 1));
    assert!(matches!(group[1], Pattern::Binding(1)));
}

#[test]
fn nothing_extended_is_the_item_itself() {
    assert!(matches!(Pattern::extend_optionally(None, Pattern::Binding(4)), Pattern::Binding(4)));
    let group = items(Pattern::extend_optionally(Some(Pattern::Binding(3)), Pattern::Binding(4)));
    assert_eq!(group.len(), 2);
}
