use media_files::filename::{
    device_name_length, disallowed_char, escape_device_name, normalize_filename,
    remove_disallowed, split_and_truncate_filename, truncate_filename, MAX_FILENAME_LENGTH,
};
use media_files::text::{same_text, split_around_byte, split_str, truncate_to_char_boundary};

#[test]
fn normalize() {
    assert_eq!(normalize_filename("foo.jpg"), "foo.jpg");
    assert_eq!(
        normalize_filename("con.jpg[]><:\"/?*^\\|\0\r\n").as_str(),
        "con_.jpg"
    );

    let expected_stem_len = MAX_FILENAME_LENGTH - ".jpg".len();
    assert_eq!(
        normalize_filename(&format!("{}.jpg", "x".repeat(MAX_FILENAME_LENGTH * 2))),
        "x".repeat(expected_stem_len) + ".jpg"
    );
}

#[test]
fn disallowed_characters_are_told_apart() {
    for c in "[]<>:\"/?*^\\|".chars() {
        assert!(disallowed_char(c), "{:?}", c);
    }
    for v in 0u32..0x20 {
        assert!(disallowed_char(char::from_u32(v).unwrap()));
    }
    assert!(disallowed_char('\x7f'));
    for c in "azAZ09 ._-(){}!#$%&'+,;=@~`\u{80}\u{9f}é日".chars() {
        assert!(!disallowed_char(c), "{:?}", c);
    }
}

#[test]
fn disallowed_characters_are_removed_not_replaced() {
    assert_eq!(remove_disallowed("a[b]c<d>e:f\"g/h?i*j^k\\l|m"), "abcdefghijklm");
    assert_eq!(remove_disallowed("\0a\x1fb\x7fc\n"), "abc");
    assert_eq!(remove_disallowed("[]"), "");
    assert_eq!(remove_disallowed(""), "");
    assert_eq!(remove_disallowed("日本[語].txt"), "日本語.txt");
    assert_eq!(remove_disallowed("plain name.txt"), "plain name.txt");
}

#[test]
fn no_disallowed_character_is_left_after_normalizing() {
    let names = [
        "a/b\\c:d*e?f\"g<h>i|j^k[l]m.txt",
        "\x01\x02\x03",
        "é[è]\u{7f}.png",
        "con:.jpg",
    ];
    for name in names {
        let out = normalize_filename(name);
        assert!(!out.chars().any(disallowed_char), "{:?}", out);
    }
}

#[test]
fn device_names_are_found() {
    assert_eq!(device_name_length("con"), 3);
    assert_eq!(device_name_length("CON"), 3);
    assert_eq!(device_name_length("cOn.jpg"), 3);
    assert_eq!(device_name_length("prn"), 3);
    assert_eq!(device_name_length("aux.tar.gz"), 3);
    assert_eq!(device_name_length("NUL."), 3);
    assert_eq!(device_name_length("com1"), 4);
    assert_eq!(device_name_length("COM9.txt"), 4);
    assert_eq!(device_name_length("lpt1"), 4);
    assert_eq!(device_name_length("Lpt5.doc"), 4);

    assert_eq!(device_name_length(""), 0);
    assert_eq!(device_name_length("co"), 0);
    assert_eq!(device_name_length("cons"), 0);
    assert_eq!(device_name_length("con_"), 0);
    assert_eq!(device_name_length("con.jpg".trim_start_matches('c')), 0);
    assert_eq!(device_name_length("com"), 0);
    assert_eq!(device_name_length("com0"), 0);
    assert_eq!(device_name_length("com10"), 0);
    assert_eq!(device_name_length("lpt"), 0);
    assert_eq!(device_name_length("lpta"), 0);
    assert_eq!(device_name_length("a.con"), 0);
    assert_eq!(device_name_length("coné"), 0);
    assert_eq!(device_name_length("cón"), 0);
    assert_eq!(device_name_length("con1"), 0);
    assert_eq!(device_name_length("com1é"), 0);
}

#[test]
fn device_names_get_an_underscore_before_the_dot() {
    assert_eq!(normalize_filename("con.jpg"), "con_.jpg");
    assert_eq!(escape_device_name("con"), "con_");
    assert_eq!(escape_device_name("CON.jpg"), "CON_.jpg");
    assert_eq!(escape_device_name("aux.tar.gz"), "aux_.tar.gz");
    assert_eq!(escape_device_name("com1.txt"), "com1_.txt");
    assert_eq!(escape_device_name("LPT9"), "LPT9_");
    assert_eq!(escape_device_name("nul."), "nul_.");
    assert_eq!(escape_device_name("cons.jpg"), "cons.jpg");
    assert_eq!(escape_device_name("com0.txt"), "com0.txt");
    assert_eq!(escape_device_name("con_.jpg"), "con_.jpg");
    assert_eq!(escape_device_name(""), "");
}

#[test]
fn names_are_brought_into_composed_form() {
    assert_eq!(normalize_filename("a\u{301}.jpg"), "\u{e1}.jpg");
    assert_eq!(normalize_filename("\u{e1}.jpg"), "\u{e1}.jpg");
    assert_eq!(normalize_filename("\u{212b}"), "\u{c5}");
    assert_eq!(normalize_filename("e\u{302}\u{301}"), "\u{1ebf}");
}

#[test]
fn normalizing_twice_changes_nothing_more() {
    let names = [
        "foo.jpg",
        "con.jpg[]><:\"/?*^\\|\0\r\n",
        "a\u{301}.jpg",
        "COM7",
        "日本語のファイル名.txt",
        "",
        ".",
        "...",
        ".hidden",
        "no extension",
    ];
    for name in names {
        let once = normalize_filename(name);
        assert_eq!(normalize_filename(&once), once, "{:?}", name);
    }
    let long = format!("{}.{}", "é".repeat(200), "x".repeat(30));
    let once = normalize_filename(&long);
    assert_eq!(normalize_filename(&once), once);
}

#[test]
fn removing_a_character_can_leave_a_name_to_compose() {
    let once = normalize_filename("a/\u{301}");
    assert_eq!(once, "a\u{301}");
    assert_eq!(normalize_filename(&once), "\u{e1}");
}

#[test]
fn normalized_names_take_at_most_120_bytes() {
    let names = [
        "x".repeat(500),
        format!("{}.jpg", "é".repeat(100)),
        format!("{}.jpg", "あ".repeat(50)),
        format!("{}.{}", "a".repeat(10), "b".repeat(300)),
        format!("{}.{}", "😀".repeat(40), "😀".repeat(40)),
        format!("con.{}", "x".repeat(200)),
    ];
    for name in names {
        let out = normalize_filename(&name);
        assert!(out.len() <= MAX_FILENAME_LENGTH, "{:?}", out);
        assert!(name.starts_with(out.split('.').next().unwrap()) || out.starts_with("con_"));
    }
}

#[test]
fn long_names_are_cut_between_characters() {
    assert_eq!(
        normalize_filename(&format!("{}.jpg", "é".repeat(100))),
        format!("{}.jpg", "é".repeat(58))
    );
    assert_eq!(
        normalize_filename(&format!("{}.jpg", "あ".repeat(50))),
        format!("{}.jpg", "あ".repeat(38))
    );
    assert_eq!(
        normalize_filename(&format!("{}.jpg", "😀".repeat(50))),
        format!("{}.jpg", "😀".repeat(29))
    );
}

#[test]
fn long_extensions_are_capped_to_10_bytes() {
    assert_eq!(
        normalize_filename(&format!("a.{}", "x".repeat(200))),
        "a.xxxxxxxxxx"
    );
    assert_eq!(
        normalize_filename(&format!("{}.{}", "s".repeat(200), "é".repeat(20))),
        format!("{}.{}", "s".repeat(109), "é".repeat(5))
    );
    assert_eq!(
        normalize_filename(&format!("con.{}", "x".repeat(200))),
        "con_.xxxxxxxxxx"
    );
}

#[test]
fn long_names_without_extension_get_no_dot() {
    assert_eq!(normalize_filename(&"x".repeat(240)), "x".repeat(119));
    assert_eq!(
        normalize_filename(&format!("{}.", "x".repeat(240))),
        "x".repeat(119)
    );
}

#[test]
fn short_names_are_not_truncated() {
    assert_eq!(truncate_filename("foo.jpg", 120), "foo.jpg");
    assert_eq!(truncate_filename("foo.", 120), "foo.");
    assert_eq!(truncate_filename(&"x".repeat(120), 120), "x".repeat(120));
    assert_eq!(truncate_filename("", 11), "");
}

#[test]
fn truncation_to_other_lengths() {
    assert_eq!(truncate_filename("abcdefghijklmnop.jpg", 11), "abcdefg.jpg");
    assert_eq!(truncate_filename("abcdefghijklmnop", 11), "abcdefghij");
    assert_eq!(
        truncate_filename("ab.cdefghijklmnopqrstuvwxyz", 20),
        "ab.cdefghijkl"
    );
    assert_eq!(truncate_filename("a.b.cdefghijklmnopq", 12), "a.cdefghijkl");
}

#[test]
fn stem_and_extension_are_split_at_the_last_dot() {
    assert_eq!(split_and_truncate_filename("foo.jpg", 120), ("foo", "jpg"));
    assert_eq!(split_and_truncate_filename("foo", 120), ("foo", ""));
    assert_eq!(split_and_truncate_filename("foo.", 120), ("foo", ""));
    assert_eq!(split_and_truncate_filename(".foo", 120), ("", "foo"));
    assert_eq!(split_and_truncate_filename("a.b.c", 120), ("a.b", "c"));
    assert_eq!(split_and_truncate_filename("", 120), ("", ""));
    assert_eq!(
        split_and_truncate_filename("日本語.テキスト", 120),
        ("日本語", "テキス")
    );
    assert_eq!(
        split_and_truncate_filename("abcdefghijklmnop.jpg", 11),
        ("abcdefg", "jpg")
    );
    assert_eq!(
        split_and_truncate_filename("test.jpg", 99),
        ("test", "jpg")
    );
}

#[test]
fn strings_are_trimmed_on_a_character_boundary() {
    assert_eq!(truncate_to_char_boundary("hello", 10), "hello");
    assert_eq!(truncate_to_char_boundary("hello", 5), "hello");
    assert_eq!(truncate_to_char_boundary("hello", 3), "hel");
    assert_eq!(truncate_to_char_boundary("hello", 0), "");
    assert_eq!(truncate_to_char_boundary("héllo", 1), "h");
    assert_eq!(truncate_to_char_boundary("héllo", 2), "h");
    assert_eq!(truncate_to_char_boundary("héllo", 3), "hé");
    assert_eq!(truncate_to_char_boundary("日本語", 8), "日本");
    assert_eq!(truncate_to_char_boundary("日本語", 2), "");
    assert_eq!(truncate_to_char_boundary("😀😀", 7), "😀");
    assert_eq!(truncate_to_char_boundary("", 4), "");
}

#[test]
fn strings_are_split_at_byte_offsets() {
    assert_eq!(split_str("héllo", 3), ("hé", "llo"));
    assert_eq!(split_str("héllo", 0), ("", "héllo"));
    assert_eq!(split_str("héllo", 6), ("héllo", ""));
    assert_eq!(split_around_byte("é.jpg", 2), ("é", "jpg"));
    assert_eq!(split_around_byte("a", 0), ("", ""));
}

#[test]
fn texts_are_compared() {
    assert!(same_text("", ""));
    assert!(same_text("héllo", "héllo"));
    assert!(!same_text("héllo", "hello"));
    assert!(!same_text("abc", "abd"));
    assert!(!same_text("abc", "ab"));
    assert!(!same_text("a\u{301}", "\u{e1}"));
}
