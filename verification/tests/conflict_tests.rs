use remote_mirror::conflict::ConflictDecision;
use remote_mirror::conflict::ConflictResolver;
use remote_mirror::conflict::OperatorChoice;
use remote_mirror::conflict::Resolution;
use remote_mirror::conflict::parse_choice;

#[test]
fn skip_all_skips_every_existing_path() {
    let resolver = ConflictResolver { decision: ConflictDecision::SkipAll };
    for _ in 0..4 {
        assert_eq!(resolver.resolve(true), Some(Resolution::Skip));
        assert!(!resolver.needs_prompt(true));
    }
}

#[test]
fn overwrite_all_proceeds_on_every_existing_path() {
    let resolver = ConflictResolver { decision: ConflictDecision::OverwriteAll };
    for _ in 0..4 {
        assert_eq!(resolver.resolve(true), Some(Resolution::Proceed));
        assert!(!resolver.needs_prompt(true));
    }
}

#[test]
fn missing_path_proceeds_in_every_state() {
    for decision in [
        ConflictDecision::AskEachTime,
        ConflictDecision::OverwriteAll,
        ConflictDecision::SkipAll,
    ] {
        let resolver = ConflictResolver { decision };
        assert_eq!(resolver.resolve(false), Some(Resolution::Proceed));
        assert!(!resolver.needs_prompt(false));
    }
}

#[test]
fn existing_path_prompts_only_while_asking() {
    let resolver = ConflictResolver::new();
    assert!(resolver.needs_prompt(true));
    assert_eq!(resolver.resolve(true), None);
}

#[test]
fn parse_choice_recognizes_the_four_tokens() {
    assert_eq!(parse_choice(b"y"), OperatorChoice::Yes);
    assert_eq!(parse_choice(b"n"), OperatorChoice::No);
    assert_eq!(parse_choice(b"A"), OperatorChoice::AllYes);
    assert_eq!(parse_choice(b"N"), OperatorChoice::AllNo);
}

#[test]
fn parse_choice_reports_anything_else_invalid() {
    assert_eq!(parse_choice(b""), OperatorChoice::Invalid);
    assert_eq!(parse_choice(b"yes"), OperatorChoice::Invalid);
    assert_eq!(parse_choice(b"Y"), OperatorChoice::Invalid);
    assert_eq!(parse_choice(b"a"), OperatorChoice::Invalid);
    assert_eq!(parse_choice(b"NN"), OperatorChoice::Invalid);
}

#[test]
fn yes_proceeds_once_without_changing_state() {
    let mut resolver = ConflictResolver::new();
    let r = resolver.resolve_with_answer(true, OperatorChoice::Yes);
    assert_eq!(r, Resolution::Proceed);
    assert_eq!(resolver.decision, ConflictDecision::AskEachTime);
}

#[test]
fn no_skips_once_without_changing_state() {
    let mut resolver = ConflictResolver::new();
    let r = resolver.resolve_with_answer(true, OperatorChoice::No);
    assert_eq!(r, Resolution::Skip);
    assert_eq!(resolver.decision, ConflictDecision::AskEachTime);
}

#[test]
fn invalid_input_skips_once_without_changing_state() {
    let mut resolver = ConflictResolver::new();
    let r = resolver.resolve_with_answer(true, OperatorChoice::Invalid);
    assert_eq!(r, Resolution::Skip);
    assert_eq!(resolver.decision, ConflictDecision::AskEachTime);
}

#[test]
fn all_yes_moves_to_overwrite_all_and_proceeds() {
    let mut resolver = ConflictResolver::new();
    let r = resolver.resolve_with_answer(true, OperatorChoice::AllYes);
    assert_eq!(r, Resolution::Proceed);
    assert_eq!(resolver.decision, ConflictDecision::OverwriteAll);
}

#[test]
fn all_no_on_first_prompt_silences_the_rest_of_the_run() {
    let mut resolver = ConflictResolver::new();
    assert!(resolver.needs_prompt(true));
    let first = resolver.resolve_with_answer(true, OperatorChoice::AllNo);
    assert_eq!(first, Resolution::Skip);
    assert_eq!(resolver.decision, ConflictDecision::SkipAll);
    for _ in 0..8 {
        assert!(!resolver.needs_prompt(true));
        assert_eq!(resolver.resolve(true), Some(Resolution::Skip));
    }
    assert_eq!(resolver.resolve(false), Some(Resolution::Proceed));
}

#[test]
fn decision_never_moves_twice() {
    let mut resolver = ConflictResolver::new();
    resolver.resolve_with_answer(true, OperatorChoice::AllNo);
    assert_eq!(resolver.decision, ConflictDecision::SkipAll);
    let r = resolver.resolve_with_answer(true, OperatorChoice::AllYes);
    assert_eq!(r, Resolution::Skip);
    assert_eq!(resolver.decision, ConflictDecision::SkipAll);
}
