use hashlife::rule::{parse_rule, Rule, RuleError};

#[test]
fn game_of_life_is_b3_s23() {
    let rule = Rule::game_of_life();
    assert_eq!(rule.birth(), 0b000001000);
    assert_eq!(rule.survival(), 0b000001100);
    assert_eq!(rule.to_string(), "B3/S23");
}

#[test]
fn new_rule_is_empty() {
    let rule = Rule::new();
    assert_eq!(rule.birth(), 0);
    assert_eq!(rule.survival(), 0);
    assert_eq!(rule.to_string(), "B/S");
}

#[test]
fn set_birth_sets_one_bit() {
    let mut rule = Rule::new();
    assert_eq!(rule.set_birth(3), Ok(()));
    assert_eq!(rule.set_birth(6), Ok(()));
    assert_eq!(rule.birth(), 0b001001000);
    assert_eq!(rule.survival(), 0);
    assert_eq!(rule.set_birth(8), Ok(()));
    assert_eq!(rule.birth(), 0b101001000);
}

#[test]
fn set_birth_refuses_zero() {
    let mut rule = Rule::game_of_life();
    assert_eq!(rule.set_birth(0), Err(RuleError::B0NotAllowed));
    assert_eq!(rule.birth(), 0b000001000);
}

#[test]
fn set_birth_refuses_counts_above_eight() {
    let mut rule = Rule::game_of_life();
    assert_eq!(rule.set_birth(9), Err(RuleError::MalformedRule));
    assert_eq!(rule.set_birth(255), Err(RuleError::MalformedRule));
    assert_eq!(rule.birth(), 0b000001000);
}

#[test]
fn set_survival_sets_one_bit() {
    let mut rule = Rule::new();
    assert_eq!(rule.set_survival(0), Ok(()));
    assert_eq!(rule.set_survival(8), Ok(()));
    assert_eq!(rule.survival(), 0b100000001);
    assert_eq!(rule.birth(), 0);
    assert_eq!(rule.set_survival(9), Err(RuleError::MalformedRule));
    assert_eq!(rule.survival(), 0b100000001);
}

#[test]
fn next_state_follows_the_masks() {
    let rule = Rule::game_of_life();
    for n in 0..=8u16 {
        assert_eq!(rule.next_state(false, n), n == 3);
        assert_eq!(rule.next_state(true, n), n == 2 || n == 3);
    }
}

#[test]
fn rule_parse_round_trip() {
    let first = parse_rule("B36/S23").unwrap();
    assert_eq!(first.birth(), 0b001001000);
    assert_eq!(first.survival(), 0b000001100);
    let name = first.to_string();
    assert_eq!(name, "B36/S23");
    let second = parse_rule(&name).unwrap();
    assert_eq!(second.birth(), first.birth());
    assert_eq!(second.survival(), first.survival());
}

#[test]
fn parse_rule_puts_digits_in_order() {
    let rule = parse_rule("b8631/s32100").unwrap();
    assert_eq!(rule.to_string(), "B1368/S0123");
}

#[test]
fn parse_rule_takes_empty_lists() {
    let rule = parse_rule("B/S").unwrap();
    assert_eq!(rule.birth(), 0);
    assert_eq!(rule.survival(), 0);
}

#[test]
fn parse_rule_refuses_b0() {
    assert_eq!(parse_rule("B0/S23").err(), Some(RuleError::B0NotAllowed));
    assert_eq!(parse_rule("B30/S23").err(), Some(RuleError::B0NotAllowed));
    // The first offence counts.
    assert_eq!(parse_rule("B09/S23").err(), Some(RuleError::B0NotAllowed));
    assert_eq!(parse_rule("B90/S23").err(), Some(RuleError::MalformedRule));
}

#[test]
fn parse_rule_refuses_other_shapes() {
    for name in ["", "B3", "B3S23", "/", "3/23", "B3/23", "S23/B3", "B3/S23/", "B3//S23", "B3/S2 3", "B3/S9", "Bx/S", " B3/S23"] {
        assert_eq!(parse_rule(name).err(), Some(RuleError::MalformedRule), "{}", name);
    }
}
