use dataframe::lexer::{extract_schema, tokenize};
use dataframe::schema::{Cursor, Delim, ParseError, ParsedTokenStream, Token, Visibility};
use dataframe::typed::read_str_schema;
use dataframe::{Error, Val};

fn ident(s: &str) -> Token {
    Token::Ident(s.to_string())
}

fn punct(c: char) -> Token {
    Token::Punct(c)
}

fn field(name: &str, ty: &str) -> Vec<Token> {
    vec![ident(name), punct(':'), ident(ty)]
}

/// The token sequence of a plain record declaration.
fn decl(vis: Option<Vec<Token>>, name: &str, fields: Vec<Vec<Token>>) -> Vec<Token> {
    let mut ts: Vec<Token> = Vec::new();
    if let Some(v) = vis {
        ts.extend(v);
    }
    ts.push(ident("struct"));
    ts.push(ident(name));
    let mut members: Vec<Token> = Vec::new();
    for (i, f) in fields.into_iter().enumerate() {
        if i > 0 {
            members.push(punct(','));
        }
        members.extend(f);
    }
    ts.push(Token::Group(Delim::Brace, members));
    ts
}

#[test]
fn parse_recovers_name_fields_and_visibility() {
    let ts = decl(
        Some(vec![ident("pub")]),
        "MyData",
        vec![
            field("nationality", "String"),
            field("name", "String"),
            field("xg", "f64"),
            field("goals", "usize"),
        ],
    );
    let parsed = Cursor::new(ts).parse().unwrap();
    assert_eq!(parsed.name(), "MyData");
    assert_eq!(parsed.visibility, Visibility::Pub);
    assert_eq!(
        parsed.fnames().unwrap(),
        vec!["nationality", "name", "xg", "goals"]
    );
    assert_eq!(
        parsed.ftypes().unwrap(),
        vec!["String", "String", "f64", "usize"]
    );
    assert!(parsed.generics().is_none());
}

#[test]
fn parse_reads_restricted_visibility() {
    let crate_vis = vec![ident("pub"), Token::Group(Delim::Paren, vec![ident("crate")])];
    let parsed =
        Cursor::new(decl(Some(crate_vis), "A", vec![field("x", "usize")])).parse().unwrap();
    assert_eq!(parsed.visibility, Visibility::PubCrate);
    assert_eq!(parsed.visibility.to_str(), "pub(crate)");

    let super_vis = vec![ident("pub"), Token::Group(Delim::Paren, vec![ident("super")])];
    let parsed2 =
        Cursor::new(decl(Some(super_vis), "A", vec![field("x", "usize")])).parse().unwrap();
    assert_eq!(parsed2.visibility, Visibility::PubSuper);
    assert_eq!(parsed2.visibility.to_str(), "pub(super)");

    let parsed3 = Cursor::new(decl(None, "A", vec![field("x", "usize")])).parse().unwrap();
    assert_eq!(parsed3.visibility, Visibility::Private);
    assert_eq!(parsed3.visibility.to_str(), "");
}

#[test]
fn parse_without_a_type_name_is_refused() {
    let ts = vec![ident("pub"), Token::Group(Delim::Brace, vec![ident("x")])];
    match Cursor::new(ts).parse() {
        Err(e) => {
            assert_eq!(e, ParseError::IdentNotFound);
            assert_eq!(e.message(), "type name not found");
        },
        Ok(_) => panic!("a declaration without a type name is refused"),
    }
}

#[test]
fn parse_recovers_generics_and_lifetimes() {
    let ts = vec![
        ident("struct"),
        ident("Wrap"),
        punct('<'),
        ident("T"),
        punct(','),
        ident("U"),
        punct('>'),
        Token::Group(Delim::Brace, field("x", "T")),
    ];
    let parsed = Cursor::new(ts).parse().unwrap();
    assert_eq!(parsed.generics().unwrap(), "T,U");
    assert!(parsed.lifetime().is_none());

    let ts2 = vec![
        ident("struct"),
        ident("Wrap"),
        punct('<'),
        ident("T"),
        punct('>'),
        Token::Group(Delim::Brace, field("x", "T")),
    ];
    let parsed2 = Cursor::new(ts2).parse().unwrap();
    assert_eq!(parsed2.lifetime().unwrap(), vec!["T"]);
}

#[test]
fn field_split_respects_nested_generics() {
    // map: Map2<String, u32>, goals: usize
    let members = vec![
        ident("map"),
        punct(':'),
        ident("Map2"),
        punct('<'),
        ident("String"),
        punct(','),
        ident("u32"),
        punct('>'),
        punct(','),
        ident("goals"),
        punct(':'),
        ident("usize"),
    ];
    let ts = vec![ident("struct"), ident("A"), Token::Group(Delim::Brace, members)];
    let parsed = Cursor::new(ts).parse().unwrap();
    assert_eq!(parsed.fnames().unwrap(), vec!["map", "goals"]);
    assert_eq!(parsed.ftypes().unwrap(), vec!["Map2<String,u32>", "usize"]);
}

#[test]
fn projection_reorders_columns_to_schema_order() {
    let csv = "nationality,name,xg,goals
Argentine,Lionel Messi,66.66,66
Portugal,C. Ronaldo,-0.69,3
";
    let ts = decl(
        None,
        "MyData",
        vec![
            field("name", "String"),
            field("nationality", "String"),
            field("xg", "f64"),
            field("goals", "usize"),
        ],
    );
    let parsed = Cursor::new(ts).parse().unwrap();
    let df = parsed.read_str(csv.to_string()).unwrap();
    assert_eq!(
        df.headers().clone(),
        vec!["name", "nationality", "xg", "goals"]
    );
    let names = df.col("name").unwrap();
    assert_eq!(names[0], Val::String("Lionel Messi".to_string()));
    assert_eq!(names[1], Val::String("C. Ronaldo".to_string()));
    let nats = df.col("nationality").unwrap();
    assert_eq!(nats[0], Val::String("Argentine".to_string()));
    let goals = df.col("goals").unwrap();
    assert_eq!(goals[0], Val::Usize(66));
    assert_eq!(goals[1], Val::Usize(3));
}

#[test]
fn schema_decode_enforces_declared_types() {
    let fnames = vec!["goals".to_string()];
    let ftypes = vec!["usize".to_string()];
    let df = read_str_schema(&fnames, &ftypes, "goals\n888\n".to_string()).unwrap();
    assert_eq!(df.col("goals").unwrap(), vec![Val::Usize(888)]);

    let bad_types = vec!["bool".to_string()];
    match read_str_schema(&fnames, &bad_types, "goals\n888\n".to_string()) {
        Err(Error::InvalidDataType(t)) => assert_eq!(t, "bool"),
        _ => panic!("an unsupported declared type fails the whole load"),
    }

    match read_str_schema(&fnames, &ftypes, "goals\nmany\n".to_string()) {
        Err(Error::ValParseError(c)) => assert_eq!(c, "many"),
        _ => panic!("a cell that does not read as its declared type fails the whole load"),
    }
}

#[test]
fn schema_fields_missing_from_the_headers_are_dropped() {
    let fnames = vec!["goals".to_string(), "missing".to_string()];
    let ftypes = vec!["usize".to_string(), "usize".to_string()];
    let df = read_str_schema(&fnames, &ftypes, "goals,xg\n888,6.9\n".to_string()).unwrap();
    assert_eq!(df.headers().clone(), vec!["goals"]);
    assert_eq!(df.col("goals").unwrap(), vec![Val::Usize(888)]);
    assert!(df.col("xg").is_none());
}

#[test]
fn declaration_without_fields_loads_nothing() {
    let ts = vec![ident("struct"), ident("A")];
    let parsed = Cursor::new(ts).parse().unwrap();
    match parsed.read_str("a\n1\n".to_string()) {
        Err(Error::Other(m)) => assert_eq!(m, "declaration holds no field list"),
        _ => panic!("a declaration without a field list loads nothing"),
    }
}

#[test]
fn token_text_round_trip() {
    let ts = ParsedTokenStream {
        visibility: Visibility::Private,
        name: "A".to_string(),
        generics: Some(vec![
            punct('\''),
            ident("a"),
            punct(','),
            Token::Group(Delim::Bracket, vec![Token::Literal("3".to_string())]),
        ]),
        data: None,
    };
    assert_eq!(ts.generics().unwrap(), "'a,[3]");
    assert!(ts.fnames().is_none());
    assert!(ts.ftypes().is_none());
}

#[test]
fn tokenize_reads_words_groups_and_puncts() {
    let ts = tokenize("pub struct A { x: u8 }").unwrap();
    match &ts[..] {
        [Token::Ident(p), Token::Ident(s), Token::Ident(a), Token::Group(Delim::Brace, inner)] => {
            assert_eq!(p, "pub");
            assert_eq!(s, "struct");
            assert_eq!(a, "A");
            match &inner[..] {
                [Token::Ident(x), Token::Punct(':'), Token::Ident(u)] => {
                    assert_eq!(x, "x");
                    assert_eq!(u, "u8");
                },
                _ => panic!("the field tokens are a word, a colon, and a word"),
            }
        },
        _ => panic!("the declaration tokens are three words and a group"),
    }
    match tokenize("a { b") {
        Err(e) => assert_eq!(e, ParseError::UnbalancedGroup),
        _ => panic!("an unclosed bracket is refused"),
    }
    match tokenize("a ( b ]") {
        Err(e) => assert_eq!(e, ParseError::UnbalancedGroup),
        _ => panic!("a mismatched bracket is refused"),
    }
    let lit = tokenize("x1 88.8 'a").unwrap();
    match &lit[..] {
        [Token::Ident(x1), Token::Literal(n), Token::Punct('\''), Token::Ident(a)] => {
            assert_eq!(x1, "x1");
            assert_eq!(n, "88.8");
            assert_eq!(a, "a");
        },
        _ => panic!("a digit run reads as a literal and a quote as punctuation"),
    }
}

#[test]
fn extract_schema_reads_a_declaration_from_text() {
    let parsed = extract_schema(
        "pub struct MyData { nationality: String, name: String, xg: f64, goals: usize }",
    )
    .unwrap();
    assert_eq!(parsed.name(), "MyData");
    assert_eq!(parsed.visibility, Visibility::Pub);
    assert_eq!(
        parsed.fnames().unwrap(),
        vec!["nationality", "name", "xg", "goals"]
    );
    assert_eq!(
        parsed.ftypes().unwrap(),
        vec!["String", "String", "f64", "usize"]
    );

    let csv = "name,nationality,xg,goals\nLionel Messi,Argentine,66.66,66\n";
    let df = parsed.read_str(csv.to_string()).unwrap();
    assert_eq!(
        df.headers().clone(),
        vec!["nationality", "name", "xg", "goals"]
    );
    assert_eq!(
        df.col("name").unwrap(),
        vec![Val::String("Lionel Messi".to_string())]
    );
    assert_eq!(df.col("goals").unwrap(), vec![Val::Usize(66)]);

    match extract_schema("struct {}") {
        Err(ParseError::IdentNotFound) => (),
        _ => panic!("a declaration without a type name is refused"),
    }
    match extract_schema("struct A {") {
        Err(ParseError::UnbalancedGroup) => (),
        _ => panic!("unbalanced text is refused"),
    }
}
