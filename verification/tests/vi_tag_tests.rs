use rusty_tags::vi_tag::{sort_lines, AddressType, Kind, Line};

#[test]
fn address_type_test() {
    assert_eq!(AddressType::parse(r#"/^impl Exec"#), AddressType::Other);
    assert_eq!(
        AddressType::parse(r#"/^pub struct FindMatches<'r, 't>(FindMatchesInner<'r, 't>);$/;"	s"#),
        AddressType::Struct
    );
    assert_eq!(
        AddressType::parse(
            r#"/^   pub struct FindMatches<'r, 't>(FindMatchesInner<'r, 't>);$/;"	s"#
        ),
        AddressType::Struct
    );
    assert_eq!(
        AddressType::parse(r#"/^struct FindMatches<'r, 't>(FindMatchesInner<'r, 't>);$/;"	s"#),
        AddressType::Struct
    );
    assert_eq!(
        AddressType::parse(
            r#"/^        struct FindMatches<'r, 't>(FindMatchesInner<'r, 't>);$/;"	s"#
        ),
        AddressType::Struct
    );
    assert_eq!(AddressType::parse(r#"/^pub enum Error {$/;"	g"#), AddressType::Enum);
    assert_eq!(AddressType::parse(r#"/^    pub enum Error {$/;"	g"#), AddressType::Enum);
    assert_eq!(AddressType::parse(r#"/^enum Error {$/;"	g"#), AddressType::Enum);
    assert_eq!(AddressType::parse(r#"/^      enum Error {$/;"	g"#), AddressType::Enum);
}

#[test]
fn line_test() {
    let line = r#"!_TAG_FILE_FORMAT	2	/extended format; --format=1 will not append ;" to lines/"#;
    assert_eq!(Line::parse(line), Line { kind: Kind::Header, line });

    let line = r#"Bar	/home/dan/.cargo/registry/src/github.com-88ac128001ac3a9a/toml-0.1.28/src/encoder/rustc_serialize.rs	/^        struct Bar { a: isize }$/;"	s"#;
    assert_eq!(
        Line::parse(line),
        Line { kind: Kind::Tag { name: "Bar", address_type: AddressType::Struct }, line }
    );

    let line = r#"Bar	/home/dan/.cargo/registry/src/github.com-88ac128001ac3a9a/toml-0.1.28/src/encoder/rustc_serialize.rs	/^pub struct Bar { a: isize }$/;"	s"#;
    assert_eq!(
        Line::parse(line),
        Line { kind: Kind::Tag { name: "Bar", address_type: AddressType::Struct }, line }
    );

    let line = r#"AddressType	/home/dan/projekte/rusty-tags/src/vi_tag.rs	/^impl AddressType {$/;"	i"#;
    assert_eq!(
        Line::parse(line),
        Line { kind: Kind::Tag { name: "AddressType", address_type: AddressType::Other }, line }
    );

    {
        let line1 = r#"Bar	/home/dan/.cargo/registry/src/github.com-88ac128001ac3a9a/toml-0.1.28/src/encoder/rustc_serialize.rs	/^        struct Bar { a: isize }$/;"	s"#;
        let line2 = r#"CCC"#;
        let line3 = r#"AddressType	/home/dan/projekte/rusty-tags/src/vi_tag.rs	/^impl AddressType {$/;"	i"#;
        let line4 = r#"!_TAG_FILE_FORMAT	2	/extended format; --format=1 will not append ;" to lines/"#;

        let str_lines = vec![line1, line2, line3, line4];
        let lines = sort_lines(str_lines);

        assert_eq!(lines[0], line4);
        assert_eq!(lines[1], line3);
        assert_eq!(lines[2], line1);
        assert_eq!(lines[3], line2);
    }

    {
        let line1 = r#"Config	/home/dan/projekte/rusty-tags/src/config.rs	/^impl Config {$/;"	i"#;
        let line2 = r#"Config	/home/dan/projekte/rusty-tags/src/config.rs	/^pub struct Config {$/;"	s"#;

        let str_lines = vec![line1, line2];
        let lines = sort_lines(str_lines);

        assert_eq!(lines[0], line2);
        assert_eq!(lines[1], line1);
    }
}

#[test]
fn sort_file_keeps_every_line() {
    let contents = "b\tf\t/^x$/\na\tf\t/^y$/\n";
    let sorted = rusty_tags::vi_tag::sort_file(contents).unwrap();
    assert_eq!(sorted, "a\tf\t/^y$/\nb\tf\t/^x$/\n");
}
