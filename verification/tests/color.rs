use grit::color::{try_get_hex_color, try_hexval, Color, COLOR_FOREGROUND_ANSI,
    COLOR_FOREGROUND_BRIGHT_ANSI};

#[test]
fn test_hexval() {
    let numbers = '0'..='9';
    let numbers_result = 0..=9;
    let letters = 'a'..='z';
    let letters_upper = 'A'..='Z';
    let letters_result = [
        Some(10),
        Some(11),
        Some(12),
        Some(13),
        Some(14),
        Some(15),
        None,
        None,
        None,
        None,
        None,
        None,
        None,
        None,
        None,
        None,
        None,
        None,
        None,
        None,
        None,
        None,
        None,
        None,
        None,
        None,
    ];

    let mut numbers_result_it = numbers_result.into_iter();
    for num in numbers {
        assert_eq!(try_hexval(num), Some(numbers_result_it.next().unwrap()));
    }

    let mut letters_result_iter = letters_result.iter();
    for letter in letters {
        assert_eq!(try_hexval(letter), *letters_result_iter.next().unwrap());
    }

    let mut letters_result_iter = letters_result.iter();
    for letter in letters_upper {
        assert_eq!(try_hexval(letter), *letters_result_iter.next().unwrap());
    }
}

#[test]
fn test_get_hex_color() {
    let test_0 = ('0', '0');
    let test_0_ret = 0u32;
    assert_eq!(try_get_hex_color(test_0), Some(test_0_ret));

    let test_1 = ('z', '0');
    assert_eq!(try_get_hex_color(test_1), None);

    let test_2 = ('0', 'z');
    assert_eq!(try_get_hex_color(test_2), None);

    let test_3 = ('f', 'f');
    let test_3_ret = u8::MAX.into();
    assert_eq!(try_get_hex_color(test_3), Some(test_3_ret));

    let test_4 = ('4', '4');
    let test_4_ret = (4 * 16) + 4;
    assert_eq!(try_get_hex_color(test_4), Some(test_4_ret));
}

#[test]
fn test_try_parse_ansi_color() {
    let default = "default";
    let default_res = Color::try_parse_ansi_color(default, default.len());
    match default_res {
        Some(Color::Ansi(inner)) => assert_eq!(inner.value, COLOR_FOREGROUND_ANSI + 9),
        _ => assert!(false),
    }

    let green = "green";
    let green_res = Color::try_parse_ansi_color(green, 255);
    match green_res {
        Some(Color::Ansi(inner)) => assert_eq!(inner.value, COLOR_FOREGROUND_ANSI + 2),
        _ => assert!(false),
    }

    let brightgreen = "brightgreen";
    let brightgreen_res = Color::try_parse_ansi_color(brightgreen, 255);
    match brightgreen_res {
        Some(Color::Ansi(inner)) => assert_eq!(inner.value, COLOR_FOREGROUND_BRIGHT_ANSI + 2),
        _ => assert!(false),
    }

    let typogreen = "brigtgreen";
    let typogreen_res = Color::try_parse_ansi_color(typogreen, 255);
    match typogreen_res {
        None => assert!(true),
        _ => assert!(false),
    }

    let shortgreen = "brightgreen";
    let shortgreen_res = Color::try_parse_ansi_color(shortgreen, 6);
    match shortgreen_res {
        None => assert!(true),
        _ => assert!(false),
    }

    let shortergreen = "brightgreen";
    let shortergreen_res = Color::try_parse_ansi_color(shortergreen, 5);
    match shortergreen_res {
        None => assert!(true),
        _ => assert!(false),
    }
}

#[test]
fn parse_uppercase_and_mixed_case() {
    match Color::try_parse_ansi_color("DEFAULT", 7) {
        Some(Color::Ansi(inner)) => assert_eq!(inner.value, COLOR_FOREGROUND_ANSI + 9),
        _ => assert!(false),
    }
    match Color::try_parse_ansi_color("BrightRed", 255) {
        Some(Color::Ansi(inner)) => assert_eq!(inner.value, COLOR_FOREGROUND_BRIGHT_ANSI + 1),
        _ => assert!(false),
    }
}

#[test]
fn parse_every_standard_color() {
    let names = [
        "black", "red", "green", "yellow", "blue", "magenta", "cyan", "white",
    ];
    for (i, name) in names.iter().enumerate() {
        match Color::try_parse_ansi_color(name, name.len()) {
            Some(Color::Ansi(inner)) => {
                assert_eq!(inner.value, COLOR_FOREGROUND_ANSI + i as u8)
            },
            _ => assert!(false),
        }
    }
}

#[test]
fn parse_rejects_empty_and_unknown() {
    assert!(Color::try_parse_ansi_color("", 0).is_none());
    assert!(Color::try_parse_ansi_color("mauve", 5).is_none());
    assert!(Color::try_parse_ansi_color("green", 0).is_none());
}
