use battlemap::chess::Coordinates;
use battlemap::commands::{parse_line, Command};
use battlemap::game::GameState;

fn apply_line(state: &mut GameState, line: &str) -> battlemap::game::DispatchOutcome {
    let cmd = parse_line(line).unwrap();
    battlemap::game::run(state, &cmd)
}

#[test]
fn test_domain_constructors() {
    let bm = battlemap::domain::Battlemap::new("bg.png".to_string(), 3, 4);
    assert_eq!(bm.image_path, "bg.png");
    assert_eq!(bm.rows, 3);
    assert_eq!(bm.columns, 4);
    let t = battlemap::domain::Token::new(
        "a".to_string(),
        "i.png".to_string(),
        "A".to_string(),
        "small".to_string(),
        7,
        Coordinates::Chess("B2".to_string()),
        2,
    );
    assert_eq!(t.id, "a");
    assert_eq!(t.image, "i.png");
    assert_eq!(t.name, "A");
    assert_eq!(t.max_health, 7);
    assert_eq!(t.pos, Coordinates::Chess("B2".to_string()));
    assert_eq!(t.initiative, 2);
}

#[test]
fn test_initial_state() {
    let state = GameState::new();
    assert_eq!(state.battlemap.image_path, "./assets/bg_placeholder.jpg");
    assert_eq!(state.battlemap.rows, 12);
    assert_eq!(state.battlemap.columns, 20);
    assert!(state.tokens.is_empty());
}

#[test]
fn test_create_token_fills_defaults() {
    let mut state = GameState::new();
    let outcome = apply_line(&mut state, "token goblin1 --name=Goblin");
    assert!(!outcome.quit);
    assert_eq!(state.tokens.len(), 1);
    let t = &state.tokens[0];
    assert_eq!(t.id, "goblin1");
    assert_eq!(t.name, "Goblin");
    assert_eq!(t.image, "./assets/unnamed.png");
    assert_eq!(t.size, "small");
    assert_eq!(t.max_health, 10);
    assert_eq!(t.pos, Coordinates::Chess("A1".to_string()));
    assert_eq!(t.initiative, 1);
}

#[test]
fn test_second_update_inherits_fields() {
    let mut state = GameState::new();
    apply_line(&mut state, "token goblin1 --name=Goblin");
    apply_line(&mut state, "token goblin1 --max-health=5");
    assert_eq!(state.tokens.len(), 1);
    let t = &state.tokens[0];
    assert_eq!(t.name, "Goblin");
    assert_eq!(t.max_health, 5);
    assert_eq!(t.size, "small");
    assert_eq!(t.initiative, 1);
}

#[test]
fn test_tokens_are_kept_by_id() {
    let mut state = GameState::new();
    apply_line(&mut state, "token goblin1 --name=Goblin");
    apply_line(&mut state, "token orc7 --name=Orc --initiative=3");
    apply_line(&mut state, "token goblin1 --pos=B2");
    assert_eq!(state.tokens.len(), 2);
    let goblin = state.tokens.iter().find(|t| t.id == "goblin1").unwrap();
    let orc = state.tokens.iter().find(|t| t.id == "orc7").unwrap();
    assert_eq!(goblin.name, "Goblin");
    assert_eq!(goblin.pos, Coordinates::Chess("B2".to_string()));
    assert_eq!(orc.name, "Orc");
    assert_eq!(orc.initiative, 3);
}

#[test]
fn test_battlemap_update_inherits_previous() {
    let mut state = GameState::new();
    apply_line(&mut state, "battlemap --url=bg.jpg --columns=10 --rows=8");
    assert_eq!(state.battlemap.image_path, "bg.jpg");
    assert_eq!(state.battlemap.columns, 10);
    assert_eq!(state.battlemap.rows, 8);
    apply_line(&mut state, "battlemap --columns=16");
    assert_eq!(state.battlemap.image_path, "bg.jpg");
    assert_eq!(state.battlemap.columns, 16);
    assert_eq!(state.battlemap.rows, 8);
}

#[test]
fn test_quit_signals_without_mutating() {
    let mut state = GameState::new();
    apply_line(&mut state, "token goblin1 --name=Goblin");
    let battlemap_before = format!("{:?}", state.battlemap);
    let tokens_before = format!("{:?}", state.tokens);
    let outcome = apply_line(&mut state, "q");
    assert!(outcome.quit);
    assert_eq!(outcome.message, None);
    assert_eq!(format!("{:?}", state.battlemap), battlemap_before);
    assert_eq!(format!("{:?}", state.tokens), tokens_before);
}

#[test]
fn test_unrecognized_leaves_state_unchanged() {
    let mut state = GameState::new();
    apply_line(&mut state, "token goblin1 --name=Goblin");
    let tokens_before = format!("{:?}", state.tokens);
    let outcome = apply_line(&mut state, "frobnicate x");
    assert!(!outcome.quit);
    let msg = outcome.message.unwrap();
    assert!(msg.starts_with("Unknown command: frobnicate x\n"));
    assert!(msg.contains("battlemap"));
    assert_eq!(format!("{:?}", state.tokens), tokens_before);
    assert_eq!(state.battlemap.rows, 12);
}

#[test]
fn test_roll_reports_and_keeps_state() {
    let mut state = GameState::new();
    let outcome = apply_line(&mut state, "r 3d6 + 5");
    assert!(!outcome.quit);
    let msg = outcome.message.unwrap();
    assert!(msg.starts_with("-> "));
    assert!(state.tokens.is_empty());

    // An expression the evaluator itself rejects is a failed roll.
    let cmd = Command::Roll(")(".to_string());
    let outcome = battlemap::game::run(&mut state, &cmd);
    assert!(!outcome.quit);
    assert!(outcome.message.unwrap().starts_with("Can't roll this: "));
}

#[test]
fn test_roll_rejects_unreturnable_expressions() {
    // On each of these the evaluator would panic, loop forever or
    // allocate without bound; the dispatcher reports them as failed
    // rolls instead of evaluating them.
    let mut state = GameState::new();
    for line in [
        "r 99999999999999999999",
        "r 999999d6",
        "r 1d999999",
        "r 123456",
        "r 1d6 ir6",
        "r 1d6 ir2",
        "r 1d1!",
        "r 1d6 ie1",
        "r 2d6 * 3",
    ] {
        let outcome = apply_line(&mut state, line);
        assert!(!outcome.quit);
        assert!(outcome.message.unwrap().starts_with("Can't roll this: "));
    }
    assert!(state.tokens.is_empty());
}

#[test]
fn test_roll_accepts_five_digit_numerals() {
    let mut state = GameState::new();
    for line in ["r 12345", "r 10000d6", "r 99999 + 1d20", "r 2d6 / 2"] {
        let outcome = apply_line(&mut state, line);
        assert!(!outcome.quit);
        assert!(outcome.message.unwrap().starts_with("-> "));
    }
}

#[test]
fn test_roll_reason_text_is_not_screened() {
    // Everything after the colon is the evaluator's free-text reason; the
    // safety screen applies only to the expression before it.
    let mut state = GameState::new();
    let outcome = apply_line(&mut state, "r 2d20 K1 : attack with ir! *flair*");
    assert!(outcome.message.unwrap().starts_with("-> "));
}

#[test]
fn test_update_applies_lines_in_order() {
    let mut state = GameState::new();
    let outcome = state.update("battlemap --columns=5\ntoken a --name=A\nbogus".to_string());
    assert!(!outcome.quit);
    assert_eq!(state.battlemap.columns, 5);
    assert_eq!(state.tokens.len(), 1);
    assert_eq!(outcome.messages.len(), 1);
    assert!(outcome.messages[0].starts_with("Unknown command: bogus"));
}

#[test]
fn test_update_stops_at_quit() {
    let mut state = GameState::new();
    let outcome = state.update("battlemap --columns=5\nq\ntoken late --name=L".to_string());
    assert!(outcome.quit);
    assert_eq!(state.battlemap.columns, 5);
    assert!(state.tokens.is_empty());
}

#[test]
fn test_update_reports_parse_errors_and_goes_on() {
    let mut state = GameState::new();
    let outcome = state.update("battlemap --bogus=1\ntoken a --name=A".to_string());
    assert!(!outcome.quit);
    assert_eq!(state.tokens.len(), 1);
    assert_eq!(
        outcome.messages,
        vec!["Can't parse battlemap command from battlemap --bogus=1".to_string()]
    );
}
