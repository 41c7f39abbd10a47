use ssh_config::{
    host_block, host_line, hosts, parse, properties, property_line, Host, ParseError, Property,
};

fn prop<'a>(key: &'a str, value: &'a str) -> Property<'a> {
    Property { key, value }
}

#[test]
fn many_properties() {
    let (input, properties) = properties("   \n\n\n      asd 123 345\n\n\nDave yes\n")
        .expect("Could not parse properties");

    let expected_properties = vec![
        Property {
            key: "asd",
            value: "123 345",
        },
        Property {
            key: "Dave",
            value: "yes",
        },
    ];

    assert_eq!("", input);
    assert_eq!(expected_properties, properties);
}

#[test]
fn many_properties_comments() {
    let data = r"
            HostName butt   #no butts   
            Asd 123
            #moar comment


            Blah whatever";

    let (input, properties) =
        properties(data).expect("Could not parse a mix of properties and comments");

    let expected_properties = vec![
        Property {
            key: "HostName",
            value: "butt",
        },
        Property {
            key: "Asd",
            value: "123",
        },
        Property {
            key: "Blah",
            value: "whatever",
        },
    ];

    assert_eq!("", input);
    assert_eq!(expected_properties, properties);
}

#[test]
fn host_line_newline_linefeed() {
    let (input, host) =
        host_line("Host dev\n").expect("Could not parse host line ending in '\\n'");
    assert_eq!("", input);
    assert_eq!("dev", host);
}

#[test]
fn host_line_newline_carriagereturn_linefeed() {
    let (input, host) =
        host_line("Host dev-man\r\n").expect("Could not parse host line ending in '\\r\\n'");
    assert_eq!("", input);
    assert_eq!("dev-man", host);
}

#[test]
fn host_line_no_newline() {
    let (input, host) = host_line("Host dev").expect("Could not parse host line with no newline");
    assert_eq!("", input);
    assert_eq!("dev", host);
}

#[test]
fn property_line_newline() {
    let (input, property) = property_line("      LocalForward      9906 127.0.0.1:3306        \n")
        .expect("Could not parse property line with line ending in '\\n'");

    let expected_property = Property {
        key: "LocalForward",
        value: "9906 127.0.0.1:3306",
    };

    assert_eq!("", input);
    assert_eq!(expected_property, property);
}

#[test]
fn multiple_properties() {
    let (input, properties) = properties(
        "   \n\n\n HostName database.example.com\n    IdentityFile ~/.ssh/coolio.example.key\n\n\n\n\n\n\nAsd 123",
    )
    .expect("Coult not parse property collection");

    let expected_properties = vec![
        Property {
            key: "HostName",
            value: "database.example.com",
        },
        Property {
            key: "IdentityFile",
            value: "~/.ssh/coolio.example.key",
        },
        Property {
            key: "Asd",
            value: "123",
        },
    ];

    assert_eq!("", input);
    assert_eq!(expected_properties, properties);
}

#[test]
fn multiple_properties_hostline_end() {
    let (input, properties) = properties(
        "   \n\n\n HostName database.example.com\n     \
         IdentityFile ~/.ssh/coolio.example.key\
         \n\n\n\n\n\n\n\
         Asd 123\n      \
         Host devv\n\n",
    )
    .expect("Coult not parse property collection");

    let expected_properties = vec![
        Property {
            key: "HostName",
            value: "database.example.com",
        },
        Property {
            key: "IdentityFile",
            value: "~/.ssh/coolio.example.key",
        },
        Property {
            key: "Asd",
            value: "123",
        },
    ];

    assert_eq!("Host devv\n\n", input);
    assert_eq!(expected_properties, properties);
}

#[test]
fn single_host_block() {
    let (input, host) = host_block(
        "  \n\n   \n\n\
         \n       Host dev\n   \
         Asd      123     \n\n",
    )
    .expect("Could not parse single host block");

    let expected_host = Host {
        name: "dev",
        properties: vec![Property {
            key: "Asd",
            value: "123",
        }],
    };

    assert_eq!("", input);
    assert_eq!(expected_host, host);
}

#[test]
fn single_host_block_no_properties() {
    let (input, host) = host_block(
        "  \n\n   \n\n\
         \n       Host dev\n   \
         \n\n",
    )
    .expect("Could not parse single host block");

    let expected_host = Host {
        name: "dev",
        properties: vec![],
    };

    assert_eq!("", input);
    assert_eq!(expected_host, host);
}

#[test]
fn two_host_blocks_no_properties() {
    let (input, host) = host_block(
        "  \n\n   \n\n\
         \n       Host dev\n   \
         \n\n\
         Host zzz",
    )
    .expect("Could not parse single host block pair");

    let expected_host = Host {
        name: "dev",
        properties: vec![],
    };

    assert_eq!("Host zzz", input);
    assert_eq!(expected_host, host);
}

#[test]
fn many_hosts_no_properties() {
    let (input, hosts) = hosts(
        "  \n\n   \n\n\
         \n       Host dev\n   \
         \n\n\
         Host zzz",
    )
    .expect("Could not parse multiple empty hosts");

    let expected_hosts = vec![
        Host {
            name: "dev",
            properties: vec![],
        },
        Host {
            name: "zzz",
            properties: vec![],
        },
    ];

    assert_eq!("", input);
    assert_eq!(expected_hosts, hosts);
}

#[test]
fn many_hosts() {
    let (input, hosts) = hosts(
        "\n\n\n\n     Host old    \n\
        Asd    123\n\
        Test zz\
        \n\n\n\n\n\n\n\
        Host gregg\n
        HostName hello\n\n\n\n
        Other thing\n\n\n",
    )
    .expect("Could not parse multple hosts with their properties");

    let expected_hosts = vec![
        Host {
            name: "old",
            properties: vec![
                Property {
                    key: "Asd",
                    value: "123",
                },
                Property {
                    key: "Test",
                    value: "zz",
                },
            ],
        },
        Host {
            name: "gregg",
            properties: vec![
                Property {
                    key: "HostName",
                    value: "hello",
                },
                Property {
                    key: "Other",
                    value: "thing",
                },
            ],
        },
    ];

    assert_eq!("", input);
    assert_eq!(expected_hosts, hosts);
}

#[test]
fn no_hosts() {
    let empty_input = "       ";
    let (input, hosts) = hosts(empty_input).expect("Could not parse empty string");
    let expected_hosts: Vec<Host> = vec![];

    assert_eq!(empty_input, input);
    assert_eq!(expected_hosts, hosts);
}

#[test]
fn property_as_host_line() {
    if let Ok(_) = property_line("       \n\nAsd 123\n\n\n") {
        panic!("Property is not allowed to be a host line");
    }
}

#[test]
fn proptery_as_host_block() {
    if let Ok(_) = host_block("       \n\nAsd 123\n\n\n") {
        panic!("Property is not allowed to be a host block");
    }
}

#[test]
fn proptery_as_hosts() {
    let bad_input = "       \n\nAsd 123\n\n\n";
    let (input, hosts) =
        hosts(bad_input).expect("Could not parse invalid string for host collection");

    let expected_hosts: Vec<Host> = vec![];

    assert_eq!(bad_input, input);
    assert_eq!(expected_hosts, hosts);
}

#[test]
fn property_value_excludes_comment_and_blanks() {
    let (input, property) = property_line("  Key   Value with spaces   #comment\n").unwrap();
    assert_eq!("", input);
    assert_eq!(prop("Key", "Value with spaces"), property);
}

#[test]
fn host_line_with_or_without_line_end() {
    assert_eq!(host_line("Host dev"), Ok(("", "dev")));
    assert_eq!(host_line("Host dev\n"), Ok(("", "dev")));
    assert_eq!(host_line("Host dev\nUser me\n"), Ok(("User me\n", "dev")));
}

#[test]
fn host_line_forms() {
    assert_eq!(host_line("Host=dev\n"), Ok(("", "dev")));
    assert_eq!(host_line("  Host = dev   # mine\r\nx"), Ok(("x", "dev")));
}

#[test]
fn host_line_errors() {
    assert_eq!(host_line("host dev\n"), Err(ParseError::KeywordMismatch));
    assert_eq!(host_line("HostName dev\n"), Err(ParseError::MissingSeparator));
    assert_eq!(host_line("Host   \n"), Err(ParseError::MissingName));
    assert_eq!(host_line("Host dev extra\n"), Err(ParseError::MissingLineEnd));
    assert_eq!(host_line(""), Err(ParseError::KeywordMismatch));
}

#[test]
fn property_line_never_reads_a_host_header() {
    assert_eq!(property_line("Host dev\n"), Err(ParseError::HostHeader));
    assert_eq!(property_line("  Host=dev"), Err(ParseError::HostHeader));
}

#[test]
fn property_line_never_takes_host_as_key() {
    assert_eq!(property_line("Host a b\n"), Err(ParseError::HostHeader));
    assert_eq!(property_line("Host \n"), Err(ParseError::HostHeader));
    assert_eq!(property_line("Host\n"), Err(ParseError::HostHeader));
    assert_eq!(property_line("Hostx y\n"), Ok(("", prop("Hostx", "y"))));
}

#[test]
fn malformed_header_ends_the_document() {
    let data = "Host a\nFoo 1\nHost b c\nBar 2\n";
    let (input, found) = hosts(data).unwrap();
    assert_eq!("Host b c\nBar 2\n", input);
    assert_eq!(vec![Host { name: "a", properties: vec![prop("Foo", "1")] }], found);
}

#[test]
fn property_line_errors() {
    assert_eq!(property_line("   \n"), Err(ParseError::EmptyToken));
    assert_eq!(property_line("# only a comment\n"), Err(ParseError::EmptyToken));
    assert_eq!(property_line("Key\n"), Err(ParseError::MissingSeparator));
    assert_eq!(property_line("Key value\rmore\n"), Err(ParseError::MissingLineEnd));
}

#[test]
fn property_line_forms() {
    assert_eq!(property_line("Port=22\n"), Ok(("", prop("Port", "22"))));
    assert_eq!(property_line("Port = 22\r\nUser me"), Ok(("User me", prop("Port", "22"))));
    assert_eq!(property_line("HostName h.example\n"), Ok(("", prop("HostName", "h.example"))));
    assert_eq!(property_line("Key a=b c\n"), Ok(("", prop("Key", "a=b c"))));
    assert_eq!(property_line("Key   \n"), Ok(("", prop("Key", ""))));
    assert_eq!(property_line("Key #c"), Ok(("", prop("Key", ""))));
}

#[test]
fn blank_and_comment_lines_between_properties() {
    let (input, found) = hosts("Host a\nFoo 1\n\n#comment\nBar 2\n").unwrap();
    assert_eq!("", input);
    assert_eq!(vec![Host { name: "a", properties: vec![prop("Foo", "1"), prop("Bar", "2")] }], found);
}

#[test]
fn host_and_property_order_is_file_order() {
    let data = "Host b\nZ 1\nA 2\nM 3\nHost a\nC 4\nHost b\nB 5\n";
    let (input, found) = hosts(data).unwrap();
    assert_eq!("", input);
    assert_eq!(
        vec![
            Host { name: "b", properties: vec![prop("Z", "1"), prop("A", "2"), prop("M", "3")] },
            Host { name: "a", properties: vec![prop("C", "4")] },
            Host { name: "b", properties: vec![prop("B", "5")] },
        ],
        found
    );
}

#[test]
fn well_formed_document_is_read_whole() {
    let data = "# top\n\nHost one\n  User me\n  Port 22\n\nHost two\nHost three # x\n  IdentityFile ~/.ssh/k\n";
    let (input, found) = hosts(data).unwrap();
    assert_eq!("", input);
    assert_eq!(3, found.len());
    assert_eq!(parse(data), Ok(found));
}

#[test]
fn document_stops_at_malformed_text() {
    let data = "Host a\nFoo 1\nBar\nHost b\n";
    let (input, found) = hosts(data).unwrap();
    assert_eq!("Bar\nHost b\n", input);
    assert_eq!(vec![Host { name: "a", properties: vec![prop("Foo", "1")] }], found);
    assert_eq!(parse(data), Err(()));
}

#[test]
fn reparsing_the_remainder_reads_nothing_more() {
    let data = "Host a\nFoo 1\n\nKey\nHost b\n";
    let (rest, first) = hosts(data).unwrap();
    assert_eq!("Key\nHost b\n", rest);
    let consumed = &data[..data.len() - rest.len()];
    let (rest_again, none) = hosts(rest).unwrap();
    assert_eq!(rest, rest_again);
    assert!(none.is_empty());
    let (left, again) = hosts(consumed).unwrap();
    assert_eq!("", left);
    assert_eq!(first, again);
}

#[test]
fn mixed_line_endings_parse_as_normalized() {
    let mixed = "Host a\r\nFoo 1\nBar 2 # c\r\n\r\n#x\r\nHost b\n  Baz = 3\r\n";
    let plain = "Host a\nFoo 1\nBar 2 # c\n\n#x\nHost b\n  Baz = 3\n";
    assert_eq!(hosts(mixed).unwrap().1, hosts(plain).unwrap().1);
    assert_eq!(parse(mixed), parse(plain));
}

#[test]
fn parse_accepts_empty_and_comment_only_input() {
    assert_eq!(parse(""), Ok(vec![]));
    assert_eq!(parse("  \n# nothing here\n\n"), Ok(vec![]));
    assert_eq!(parse("Key value\n"), Err(()));
}

#[test]
fn parse_reads_trailing_comments() {
    let found = parse("Host a\n  Foo 1 # one\n# end\n").unwrap();
    assert_eq!(vec![Host { name: "a", properties: vec![prop("Foo", "1")] }], found);
}

#[test]
fn values_are_trimmed_of_every_whitespace_character() {
    let whitespace = ["\x0b", "\x0c", "\u{85}", "\u{a0}", "\u{1680}", "\u{2000}", "\u{200a}",
        "\u{2028}", "\u{2029}", "\u{202f}", "\u{205f}", "\u{3000}"];
    for w in whitespace.iter() {
        let line = format!("K {}a{}b{}{} # c\n", w, w, w, w);
        let inner = format!("a{}b", w);
        let (rest, property) = property_line(&line).unwrap();
        assert_eq!("", rest);
        assert_eq!("K", property.key);
        assert_eq!(inner.as_str(), property.value);
        assert_eq!(property.value, property.value.trim());
    }
    assert_eq!(property_line("K a\x0b\n"), Ok(("", prop("K", "a"))));
    assert_eq!(property_line("K \u{3000}\n"), Ok(("", prop("K", ""))));
}

#[test]
fn names_and_keys_end_at_unicode_whitespace() {
    assert_eq!(parse("Host a\x0bb\n"), Err(()));
    assert_eq!(host_line("Host a\u{a0}b\n"), Err(ParseError::MissingLineEnd));
    assert_eq!(host_line("Host a\u{a0}\n"), Err(ParseError::MissingLineEnd));
    assert_eq!(property_line("Host\x0bx y\n"), Err(ParseError::HostHeader));
    assert_eq!(property_line("Key\u{3000}v\n"), Err(ParseError::MissingSeparator));
    assert_eq!(host_line("Host caf\u{e9}\n"), Ok(("", "caf\u{e9}")));
}

#[test]
fn last_line_may_end_at_end_of_input() {
    let (input, found) = hosts("Host a\n  Foo 1\nHost b\n  Bar 2").unwrap();
    assert_eq!("", input);
    assert_eq!(
        vec![
            Host { name: "a", properties: vec![prop("Foo", "1")] },
            Host { name: "b", properties: vec![prop("Bar", "2")] },
        ],
        found
    );
    assert_eq!(parse("Host a\n# end"), Ok(vec![Host { name: "a", properties: vec![] }]));
}

#[test]
fn crlf_never_reaches_names_keys_or_values() {
    let found = parse("Host a\r\n  Foo 1 \r\n  Bar=2\r\n\r\nHost b\r\n").unwrap();
    for host in found.iter() {
        assert!(!host.name.contains('\r'));
        for p in host.properties.iter() {
            assert!(!p.key.contains('\r') && !p.value.contains('\r'));
        }
    }
    assert_eq!(found[0].properties, vec![prop("Foo", "1"), prop("Bar", "2")]);
}

#[test]
fn inserted_blank_and_comment_lines_change_nothing() {
    let plain = "Host a\nFoo 1\nBar 2\nHost b\nBaz 3\n";
    let padded = "Host a\n\n# note\nFoo 1\n   \nBar 2\n#x\nHost b\n\n  # y\nBaz 3\n\n";
    assert_eq!(parse(plain), parse(padded));
    assert!(parse(plain).is_ok());
}
