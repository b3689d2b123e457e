use map_picker::menu::{get_mode_action, prompt_for_mode, prompt_for_player_ct, MenuError, ModeAction};
use map_picker::mode::Mode;
use map_picker::text::{decimal_string, parse_u16, parse_usize};

#[test]
fn numbers_select_maps() {
    assert_eq!(get_mode_action("1", 3), Ok(ModeAction::SelectMap(0)));
    assert_eq!(get_mode_action("3", 3), Ok(ModeAction::SelectMap(2)));
    assert_eq!(get_mode_action("+2", 3), Ok(ModeAction::SelectMap(1)));
    assert_eq!(get_mode_action("0", 3), Err(MenuError::OutOfRange { selected: 0, max: 3 }));
    assert_eq!(get_mode_action("4", 3), Err(MenuError::OutOfRange { selected: 4, max: 3 }));
}

#[test]
fn letters_select_actions() {
    assert_eq!(get_mode_action("m", 3), Ok(ModeAction::ChangeMode));
    assert_eq!(get_mode_action("p", 3), Ok(ModeAction::SetPlayerCt));
    assert_eq!(get_mode_action("%", 3), Ok(ModeAction::Percents));
    assert_eq!(get_mode_action("a", 3), Ok(ModeAction::AllMaps));
    assert_eq!(get_mode_action("s", 3), Ok(ModeAction::Shuffle));
    assert_eq!(get_mode_action("x", 3), Err(MenuError::BadResponse));
    assert_eq!(get_mode_action("", 3), Err(MenuError::BadResponse));
    assert_eq!(get_mode_action("99999999999999999999999", 3), Err(MenuError::BadResponse));
}

#[test]
fn player_counts_from_eight_to_sixteen() {
    assert_eq!(prompt_for_player_ct("8"), Some(8));
    assert_eq!(prompt_for_player_ct("16"), Some(16));
    assert_eq!(prompt_for_player_ct("7"), None);
    assert_eq!(prompt_for_player_ct("17"), None);
    assert_eq!(prompt_for_player_ct("twelve"), None);
}

#[test]
fn mode_menu_choices() {
    assert_eq!(prompt_for_mode("1"), Ok(Some(Mode::TD)));
    assert_eq!(prompt_for_mode("3rd"), Ok(Some(Mode::Chaser)));
    assert_eq!(prompt_for_mode("6"), Ok(Some(Mode::Siege)));
    assert_eq!(prompt_for_mode("c"), Ok(None));
    assert_eq!(prompt_for_mode("7"), Err(MenuError::BadResponse));
    assert_eq!(prompt_for_mode(""), Err(MenuError::BadResponse));
}

#[test]
fn decimal_parsing_and_printing() {
    assert_eq!(parse_u16("65535"), Some(65535));
    assert_eq!(parse_u16("65536"), None);
    assert_eq!(parse_u16("007"), Some(7));
    assert_eq!(parse_u16("+"), None);
    assert_eq!(parse_u16("-1"), None);
    assert_eq!(parse_u16(""), None);
    assert_eq!(parse_usize("18446744073709551615"), Some(usize::MAX));
    assert_eq!(decimal_string(0), "0");
    assert_eq!(decimal_string(407), "407");
    assert_eq!(decimal_string(65535), "65535");
}
