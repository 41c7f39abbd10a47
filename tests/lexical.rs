use ssh_config::{comment, space_or_comment, space_or_equals, spaces_or_comments, string, ParseError};

#[test]
fn lib_empty_string() {
    if string("").is_ok() {
        panic!("Should not be able to parse empty string as valid string");
    }
}

#[test]
fn valid_string() {
    let (input, host) = string("Host").expect("Could not parse 'Host'");
    assert_eq!("", input);
    assert_eq!("Host", host);
}

#[test]
fn valid_string_space() {
    let (input, host) = string("Host dev").expect("Could not parse 'Host dev'");
    assert_eq!(" dev", input);
    assert_eq!("Host", host);
}

#[test]
fn space_or_comment_spaces() {
    let (input, _) = space_or_comment("   ").expect("Could not parse whitespace");
    assert_eq!("", input);
}

#[test]
fn space_or_comment_comment() {
    let (input, _) = space_or_comment("#this is a comment").expect("Could not parse comment");
    assert_eq!("", input);
}

#[test]
fn space_or_comment_spaces_and_comment() {
    let (input, _) =
        space_or_comment("      #comment").expect("Could not parse space and comment");
    assert_eq!("#comment", input);

    let (input, _) = space_or_comment(input).expect("Could not parse remaining comment");
    assert_eq!("", input);
}

#[test]
fn spaces_and_comments_both() {
    let (input, _) = spaces_or_comments("     #comment\n\n\n#comment      \n\n")
        .expect("Could not parse spaces and comment");
    assert_eq!("", input);
}

#[test]
fn main_empty_string() {
    if let Ok(_) = string("") {
        panic!("Should not be able to parse empty string as valid string");
    }
}

#[test]
fn newline_string() {
    if let Ok(_) = string("\n") {
        panic!("Should not be able to parse newline as valid string");
    }
}

#[test]
fn string_all_whitespace() {
    if let Ok(_) = string("      ") {
        panic!("Should not be able to parse all-spaces as valid string");
    }
}

#[test]
fn string_begins_with_whitespace() {
    if let Ok(_) = string("   this") {
        panic!("Should not be able to parse leading-whitespace string as valid string");
    }
}

#[test]
fn string_ends_in_whitespace() {
    let (input, value) = string("test-str   ").expect("Could not parse string");

    assert_eq!("   ", input);
    assert_eq!("test-str", value);
}

#[test]
fn string_no_whitespace() {
    let good_input = "asd123-456...\\[]";
    let (input, value) = string(good_input).expect("Could not parse valid complicated string");

    assert_eq!("", input);
    assert_eq!(good_input, value);
}

#[test]
fn string_stops_at_comment_marker() {
    assert_eq!(string("dev#box"), Ok(("#box", "dev")));
    assert_eq!(string("#box"), Err(ParseError::EmptyToken));
}

#[test]
fn string_keeps_multibyte_characters() {
    assert_eq!(string("caf\u{e9}-h\u{f4}te rest"), Ok((" rest", "caf\u{e9}-h\u{f4}te")));
}

#[test]
fn comment_stops_before_line_end() {
    assert_eq!(comment("# note\nHost a"), Ok(("\nHost a", ())));
    assert_eq!(comment("# note\r\nHost a"), Ok(("\r\nHost a", ())));
    assert_eq!(comment("Host a"), Err(ParseError::MissingComment));
}

#[test]
fn space_or_comment_rejects_text() {
    assert_eq!(space_or_comment("Host a"), Err(ParseError::MissingSpace));
    assert_eq!(space_or_comment(""), Err(ParseError::MissingSpace));
}

#[test]
fn space_or_comment_crosses_line_ends() {
    assert_eq!(space_or_comment(" \r\n\t\nKey"), Ok(("Key", ())));
}

#[test]
fn spaces_or_comments_on_text_reads_nothing() {
    assert_eq!(spaces_or_comments("Key v"), Ok(("Key v", ())));
    assert_eq!(spaces_or_comments(""), Ok(("", ())));
}

#[test]
fn separator_forms() {
    assert_eq!(space_or_equals("   value"), Ok(("value", ())));
    assert_eq!(space_or_equals("=value"), Ok(("value", ())));
    assert_eq!(space_or_equals(" \t= \tvalue"), Ok(("value", ())));
    assert_eq!(space_or_equals("value"), Err(ParseError::MissingSeparator));
    assert_eq!(space_or_equals("\nvalue"), Err(ParseError::MissingSeparator));
}

#[test]
fn string_stops_at_every_whitespace_character() {
    for code in 0u32..=0x10ffff {
        let c = match char::from_u32(code) {
            Some(c) => c,
            None => continue,
        };
        let input = format!("ab{}cd", c);
        let (rest, token) = string(&input).unwrap();
        if c.is_whitespace() || c == '#' {
            assert_eq!("ab", token, "character U+{:04X}", code);
            assert_eq!(&input[2..], rest);
        } else {
            assert_eq!(input.as_str(), token, "character U+{:04X}", code);
            assert_eq!("", rest);
        }
        let alone = format!("{}", c);
        assert_eq!(
            string(&alone).is_err(),
            c.is_whitespace() || c == '#',
            "character U+{:04X}",
            code
        );
    }
}

#[test]
fn string_rejects_leading_unicode_whitespace() {
    assert_eq!(string("\x0b"), Err(ParseError::EmptyToken));
    assert_eq!(string("\u{a0}x"), Err(ParseError::EmptyToken));
    assert_eq!(string("\u{3000}x"), Err(ParseError::EmptyToken));
    assert_eq!(string("a\u{2028}b"), Ok(("\u{2028}b", "a")));
    assert_eq!(string("a\u{85}b"), Ok(("\u{85}b", "a")));
    assert_eq!(string("a\u{2030}b"), Ok(("", "a\u{2030}b")));
}
