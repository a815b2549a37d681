use dpc_common::arguments::ChatColor;
use dpc_common::SmallString;

#[test]
fn small_strings_hold_short_and_long_texts() {
    let empty = SmallString::new();
    assert_eq!(empty.as_str(), "");
    for text in ["", "a", "fifteen bytes!!", "sixteen bytes!!!", "€€€€€", "€€€€€€",
        "a much longer text that surely goes to the heap"]
    {
        let held = SmallString::from_str(text);
        assert_eq!(held.as_str(), text);
        assert!(held.eq_str(text));
        assert!(!held.eq_str("something else"));
        let copy = held.clone();
        assert_eq!(copy.as_str(), text);
    }
}

#[test]
fn chat_colors_are_found_by_name() {
    assert_eq!(ChatColor::from_string("black"), Some(ChatColor::Black));
    assert_eq!(ChatColor::from_string("dark_blue"), Some(ChatColor::DarkBlue));
    assert_eq!(ChatColor::from_string("darkblue"), Some(ChatColor::DarkBlue));
    assert_eq!(ChatColor::from_string("DARK_BLUE"), Some(ChatColor::DarkBlue));
    assert_eq!(ChatColor::from_string("Light-Purple"), Some(ChatColor::LightPurple));
    assert_eq!(ChatColor::from_string("gr4ay"), Some(ChatColor::Gray));
    assert_eq!(ChatColor::from_string("dark gray"), Some(ChatColor::DarkGray));
    assert_eq!(ChatColor::from_string(""), None);
    assert_eq!(ChatColor::from_string("purple"), None);
    assert_eq!(ChatColor::from_string("réd"), None);
    assert_eq!(ChatColor::from_string("r€e d"), Some(ChatColor::Red));
    assert_eq!(ChatColor::from_string("blackk"), None);
}

#[test]
fn chat_colors_have_sixteen_names() {
    let all = [
        (ChatColor::Black, "black"),
        (ChatColor::DarkBlue, "dark_blue"),
        (ChatColor::DarkGreen, "dark_green"),
        (ChatColor::DarkAqua, "dark_aqua"),
        (ChatColor::DarkRed, "dark_red"),
        (ChatColor::DarkPurple, "dark_purple"),
        (ChatColor::Gold, "gold"),
        (ChatColor::Gray, "gray"),
        (ChatColor::DarkGray, "dark_gray"),
        (ChatColor::Blue, "blue"),
        (ChatColor::Green, "green"),
        (ChatColor::Aqua, "aqua"),
        (ChatColor::Red, "red"),
        (ChatColor::LightPurple, "light_purple"),
        (ChatColor::Yellow, "yellow"),
        (ChatColor::White, "white"),
    ];
    for (color, name) in all {
        assert_eq!(color.as_str(), name);
        assert_eq!(ChatColor::from_string(name), Some(color));
        assert_eq!(ChatColor::from_string(&name.to_uppercase()), Some(color));
    }
}
