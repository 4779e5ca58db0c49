use poker_core::display::{RaisePreset, StackDisplayMode, StateChanged};

#[test]
fn any_change_is_seen() {
    let none = StateChanged::default();
    assert!(!none.any());
    assert!(StateChanged { actions: true, ..none }.any());
    assert!(StateChanged { players: true, ..none }.any());
    assert!(StateChanged { cards: true, ..none }.any());
    assert!(StateChanged { pot: true, ..none }.any());
    assert!(StateChanged { phase: true, ..none }.any());
    assert!(StateChanged { timer: true, ..none }.any());
}

#[test]
fn raise_presets_have_their_labels() {
    assert_eq!(RaisePreset::Pot(35).label(), "35%");
    assert_eq!(RaisePreset::Pot(50).label(), "50%");
    assert_eq!(RaisePreset::Pot(75).label(), "75%");
    assert_eq!(RaisePreset::Pot(100).label(), "100%");
    assert_eq!(RaisePreset::Pot(60).label(), "?%");
    assert_eq!(RaisePreset::Pot(0).label(), "?%");
    assert_eq!(RaisePreset::AllIn.label(), "All-In");
}

#[test]
fn stack_display_toggles_between_two_units() {
    assert_eq!(StackDisplayMode::Blinds.toggle(), StackDisplayMode::Chips);
    assert_eq!(StackDisplayMode::Chips.toggle(), StackDisplayMode::Blinds);
    assert_eq!(StackDisplayMode::Chips.toggle().toggle(), StackDisplayMode::Chips);
}
