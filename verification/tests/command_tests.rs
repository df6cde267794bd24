use battlemap::commands::{
    help_text, parse, parse_i32, parse_line, tokenize, Battlemap, Command, Token, UserFacingError,
};

#[test]
fn opts_battlemap_test() {
    assert_eq!(
        Ok(Command::UpdateBattlemap(Battlemap {
            url: Some(String::from("./assets/background.jpg")),
            columns: Some(100),
            rows: Some(100)
        })),
        parse_line("battlemap --url=./assets/background.jpg --columns=100 --rows=100")
    )
}

#[test]
fn opts_token_test() {
    assert_eq!(
        Ok(Command::UpdateToken(Token {
            token_id: "goblinking".into(),
            image: Some(String::from("goblin.png")),
            name: Some("Goblin".into()),
            size: Some("small".into()),
            max_health: Some(5),
            pos: Some("A1".into()),
            initiative: Some(11),
        })),
        parse_line(
            "token goblinking --image=goblin.png --name=Goblin --size=small --max-health=5 --pos=A1 --initiative=11"
        )
    )
}

#[test]
fn test_battlemap_partial_flags() {
    assert_eq!(
        Ok(Command::UpdateBattlemap(Battlemap {
            url: Some(String::from("bg.jpg")),
            columns: Some(10),
            rows: Some(8)
        })),
        parse_line("battlemap --url=bg.jpg --columns=10 --rows=8")
    );
    assert_eq!(
        Ok(Command::UpdateBattlemap(Battlemap {
            url: None,
            columns: Some(-3),
            rows: None
        })),
        parse_line("battlemap --columns=-3")
    );
    assert_eq!(
        Ok(Command::UpdateBattlemap(Battlemap {
            url: None,
            columns: None,
            rows: None
        })),
        parse_line("battlemap")
    );
}

#[test]
fn test_battlemap_malformed() {
    let lines = [
        "battlemap --bogus=1",
        "battlemap --columns=abc",
        "battlemap --columns=",
        "battlemap --columns",
        "battlemap --url=a --url=b",
        "battlemap positional",
        "battlemap --rows=1 --rows=2",
    ];
    for l in lines {
        assert_eq!(
            Err(UserFacingError::InvalidBattlemap(l.to_string())),
            parse_line(l)
        );
    }
}

#[test]
fn test_token_requires_id() {
    assert_eq!(
        Err(UserFacingError::InvalidToken("token".to_string())),
        parse_line("token")
    );
    assert_eq!(
        Err(UserFacingError::InvalidToken("token --name=x".to_string())),
        parse_line("token --name=x")
    );
    assert_eq!(
        Err(UserFacingError::InvalidToken("token goblin1 --hp=3".to_string())),
        parse_line("token goblin1 --hp=3")
    );
    assert_eq!(
        Err(UserFacingError::InvalidToken(
            "token goblin1 --max-health=high".to_string()
        )),
        parse_line("token goblin1 --max-health=high")
    );
}

#[test]
fn test_token_minimal() {
    assert_eq!(
        Ok(Command::UpdateToken(Token {
            token_id: "goblin1".into(),
            image: None,
            name: Some("Goblin".into()),
            size: None,
            max_health: None,
            pos: None,
            initiative: None,
        })),
        parse_line("token goblin1 --name=Goblin")
    );
}

#[test]
fn test_quit_verbs() {
    assert_eq!(Ok(Command::Quit), parse_line("q"));
    assert_eq!(Ok(Command::Quit), parse_line("quit"));
    assert_eq!(Ok(Command::Quit), parse_line("exit"));
    assert_eq!(Ok(Command::Quit), parse_line("  quit  "));
    assert_eq!(Ok(Command::Quit), parse_line("q now"));
}

#[test]
fn test_roll_carries_expression() {
    assert_eq!(
        Ok(Command::Roll("3d6 + 5".to_string())),
        parse_line("r 3d6 + 5")
    );
    assert_eq!(Ok(Command::Roll("2d20 K1".to_string())), parse_line("r 2d20 K1"));
    assert_eq!(Ok(Command::Roll("".to_string())), parse_line("r"));
}

#[test]
fn test_blank_and_unknown_lines() {
    assert_eq!(
        Ok(Command::Unrecognized("".to_string())),
        parse_line("")
    );
    assert_eq!(
        Ok(Command::Unrecognized("".to_string())),
        parse_line("   \t ")
    );
    assert_eq!(
        Ok(Command::Unrecognized("frobnicate x".to_string())),
        parse_line("frobnicate x")
    );
    assert_eq!(
        Ok(Command::Unrecognized("Q".to_string())),
        parse_line("Q")
    );
}

#[test]
fn test_parse_many_lines() {
    let parsed = parse("q\nr 1d6\n\nbattlemap --rows=4\r\nnonsense".to_string());
    assert_eq!(parsed.len(), 5);
    assert_eq!(parsed[0], Ok(Command::Quit));
    assert_eq!(parsed[1], Ok(Command::Roll("1d6".to_string())));
    assert_eq!(parsed[2], Ok(Command::Unrecognized("".to_string())));
    assert_eq!(
        parsed[3],
        Ok(Command::UpdateBattlemap(Battlemap {
            url: None,
            columns: None,
            rows: Some(4)
        }))
    );
    assert_eq!(
        parsed[4],
        Ok(Command::Unrecognized("nonsense".to_string()))
    );
}

#[test]
fn test_tokenize_splits_on_whitespace() {
    assert_eq!(
        tokenize("  one  two\tthree "),
        vec!["one".to_string(), "two".to_string(), "three".to_string()]
    );
    assert_eq!(tokenize(""), Vec::<String>::new());
}

#[test]
fn test_parse_i32_literals() {
    assert_eq!(parse_i32("0"), Some(0));
    assert_eq!(parse_i32("+5"), Some(5));
    assert_eq!(parse_i32("-17"), Some(-17));
    assert_eq!(parse_i32("2147483647"), Some(2147483647));
    assert_eq!(parse_i32("-2147483648"), Some(-2147483648));
    assert_eq!(parse_i32("2147483648"), None);
    assert_eq!(parse_i32("-2147483649"), None);
    assert_eq!(parse_i32(""), None);
    assert_eq!(parse_i32("-"), None);
    assert_eq!(parse_i32("12a"), None);
    assert_eq!(parse_i32(" 5"), None);
}

#[test]
fn test_help_text_lists_verbs() {
    let h = help_text();
    assert!(h.contains("battlemap"));
    assert!(h.contains("token"));
    assert!(h.contains("q | quit | exit"));
    assert!(h.contains("r 3d6 + 5"));
}

#[test]
fn test_error_messages_name_the_line() {
    let e = UserFacingError::InvalidBattlemap("battlemap --x".to_string());
    assert_eq!(
        e.message(),
        "Can't parse battlemap command from battlemap --x"
    );
    let e = UserFacingError::InvalidToken("token".to_string());
    assert_eq!(e.message(), "Can't parse token command from token");
    let e = UserFacingError::InvalidRoll("r )".to_string());
    assert_eq!(e.message(), "Can't parse role from r )");
}
