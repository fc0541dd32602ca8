use stellarsql::bytescoder::BytesCoder;
use stellarsql::datatype::DataType;
use stellarsql::diskinterface::TableMeta;
use stellarsql::field::{Checker, Field};
use stellarsql::lexer::Scanner;
use stellarsql::parser::Parser;
use stellarsql::request::{parse_request, user_verify, Request};
use stellarsql::response::Response;
use stellarsql::table::Row;
use stellarsql::worker::SQL;
use stellarsql::diskinterface::DiskInterface;

#[test]
fn test_row_encode_decode() {
    let mut attrs = Vec::new();
    attrs.push(Field::new_all("AffID", DataType::Int, true, None, Checker::NoCheck, false));
    attrs.push(Field::new_all(
        "AffName",
        DataType::Varchar(40),
        true,
        None,
        Checker::NoCheck,
        false,
    ));
    attrs.push(Field::new_all(
        "AffEmail",
        DataType::Varchar(50),
        true,
        None,
        Checker::NoCheck,
        false,
    ));
    attrs.push(Field::new_all(
        "AffPhoneNum",
        DataType::Varchar(20),
        false,
        Some("+886900000000".to_string()),
        Checker::NoCheck,
        false,
    ));
    let aff_table_meta = TableMeta {
        name: "Affiliates".to_string(),
        username: "crazyguy".to_string(),
        db_name: "BookerDB".to_string(),
        path_tsv: "Affiliates.tsv".to_string(),
        path_bin: "Affiliates.bin".to_string(),
        primary_key: vec!["AffID".to_string()],
        foreign_key: vec![],
        reference_table: None,
        reference_attr: None,
        row_length: 115,
        attrs,
        attrs_order: vec![
            "__valid__".to_string(),
            "AffID".to_string(),
            "AffEmail".to_string(),
            "AffName".to_string(),
            "AffPhoneNum".to_string(),
        ],
        attr_offset_ranges: vec![
            vec![0, 1],
            vec![1, 5],
            vec![5, 55],
            vec![55, 95],
            vec![95, 115],
        ],
    };

    let data = vec![
        ("AffID", "2"),
        ("AffName", "Ben"),
        ("AffEmail", "ben@foo.com"),
        ("AffPhoneNum", "+886900000002"),
    ];

    let mut row = Row::new();
    for i in 0..data.len() {
        row.insert(data[i].0.to_string(), data[i].1.to_string());
    }

    let bytes = BytesCoder::row_to_bytes(&aff_table_meta, &row).unwrap();
    assert_eq!(bytes.len(), 115);
    assert_eq!(bytes[0], 1);
    let reconstructed_row = BytesCoder::bytes_to_row(&aff_table_meta, &bytes).unwrap();

    for (attr, val) in data {
        assert_eq!(reconstructed_row.get(attr).unwrap(), val);
    }
}

#[test]
fn test_scan_tokens() {
    let message = "select customername, contactname, address from customers where address is null;";
    let mut s = Scanner::new(message);
    let tokens = s.scan_tokens().unwrap();
    let mut iter = (&tokens).iter();
    let x = iter.next().unwrap();
    assert_eq!(
        format!("{:?}, {:?}, {:?}", x.name, x.token, x.group),
        "\"select\", Select, Keyword"
    );
    let x = iter.next().unwrap();
    assert_eq!(
        format!("{:?}, {:?}, {:?}", x.name, x.token, x.group),
        "\"customername\", Identifier, Identifier"
    );
    let x = iter.next().unwrap();
    assert_eq!(
        format!("{:?}, {:?}, {:?}", x.name, x.token, x.group),
        "\",\", Comma, Delimiter"
    );
    let x = iter.next().unwrap();
    assert_eq!(
        format!("{:?}, {:?}, {:?}", x.name, x.token, x.group),
        "\"contactname\", Identifier, Identifier"
    );
    let x = iter.next().unwrap();
    assert_eq!(
        format!("{:?}, {:?}, {:?}", x.name, x.token, x.group),
        "\",\", Comma, Delimiter"
    );
    let x = iter.next().unwrap();
    assert_eq!(
        format!("{:?}, {:?}, {:?}", x.name, x.token, x.group),
        "\"address\", Identifier, Identifier"
    );
    let x = iter.next().unwrap();
    assert_eq!(
        format!("{:?}, {:?}, {:?}", x.name, x.token, x.group),
        "\"from\", From, Keyword"
    );
    let x = iter.next().unwrap();
    assert_eq!(
        format!("{:?}, {:?}, {:?}", x.name, x.token, x.group),
        "\"customers\", Identifier, Identifier"
    );
    let x = iter.next().unwrap();
    assert_eq!(
        format!("{:?}, {:?}, {:?}", x.name, x.token, x.group),
        "\"where\", Where, Keyword"
    );
    let x = iter.next().unwrap();
    assert_eq!(
        format!("{:?}, {:?}, {:?}", x.name, x.token, x.group),
        "\"address\", Identifier, Identifier"
    );
    let x = iter.next().unwrap();
    assert_eq!(
        format!("{:?}, {:?}, {:?}", x.name, x.token, x.group),
        "\"is null\", IsNull, Keyword"
    );
    let x = iter.next().unwrap();
    assert_eq!(
        format!("{:?}, {:?}, {:?}", x.name, x.token, x.group),
        "\";\", Semicolon, Delimiter"
    );
    assert!(iter.next().is_none());

    let message = "select * from customers;";
    let mut s = Scanner::new(message);
    let tokens = s.scan_tokens().unwrap();
    let mut iter = (&tokens).iter();
    let x = iter.next().unwrap();
    assert_eq!(
        format!("{:?}, {:?}, {:?}", x.name, x.token, x.group),
        "\"select\", Select, Keyword"
    );
    let x = iter.next().unwrap();
    assert_eq!(
        format!("{:?}, {:?}, {:?}", x.name, x.token, x.group),
        "\"*\", Identifier, Identifier"
    );
    let x = iter.next().unwrap();
    assert_eq!(
        format!("{:?}, {:?}, {:?}", x.name, x.token, x.group),
        "\"from\", From, Keyword"
    );
    let x = iter.next().unwrap();
    assert_eq!(
        format!("{:?}, {:?}, {:?}", x.name, x.token, x.group),
        "\"customers\", Identifier, Identifier"
    );
    let x = iter.next().unwrap();
    assert_eq!(
        format!("{:?}, {:?}, {:?}", x.name, x.token, x.group),
        "\";\", Semicolon, Delimiter"
    );
    assert!(iter.next().is_none());

    let message = "insert \n\r\tinto \t\tcustomers \n(customername,\n\n city)\n\n values ('cardinal', 'norway');";
    let mut s = Scanner::new(message);
    let tokens = s.scan_tokens().unwrap();
    let names: Vec<String> = tokens.iter().map(|t| t.name.clone()).collect();
    assert_eq!(
        names,
        vec!["insert into", "customers", "(", "customername", ",", "city", ")", "values", "(",
            "'cardinal'", ",", "'norway'", ")", ";"]
    );

    let message = "create table x1;";
    let mut s = Scanner::new(message);
    let tokens = s.scan_tokens().unwrap();
    let mut iter = (&tokens).iter();
    let x = iter.next().unwrap();
    assert_eq!(
        format!("{:?}, {:?}, {:?}", x.name, x.token, x.group),
        "\"create table\", CreateTable, Keyword"
    );
    let x = iter.next().unwrap();
    assert_eq!(
        format!("{:?}, {:?}, {:?}", x.name, x.token, x.group),
        "\"x1\", Identifier, Identifier"
    );
    let x = iter.next().unwrap();
    assert_eq!(
        format!("{:?}, {:?}, {:?}", x.name, x.token, x.group),
        "\";\", Semicolon, Delimiter"
    );
    assert!(iter.next().is_none());
}

#[test]
fn test_parser_select() {
    let query = "select t1.a1, t1.a2, t1.a3 from t1, t2 where t1.a1 > 4 and t1.a1 = t2.a1;";
    let mut sql = SQL::new("Jenny").unwrap();
    sql.create_database("db1").unwrap();
    let parser = Parser::new(query).unwrap();
    // a multi-table query with a predicate cannot run, but it parses
    let _ = parser.parse(&mut sql);

    assert_eq!(
        sql.querydata.fields,
        vec![String::from("t1.a1"), String::from("t1.a2"), String::from("t1.a3")]
    );
    assert_eq!(sql.querydata.tables, vec![String::from("t1"), String::from("t2")]);
}

#[test]
fn test_parse_request() {
    match parse_request(false, "alice||||||secret") {
        Request::Login(u) => assert_eq!(u, "alice"),
        _ => panic!("a well-formed login line names its user"),
    }
    match parse_request(false, "||||||secret") {
        Request::UserMissing => {}
        _ => panic!("an empty user cannot log in"),
    }
    match parse_request(false, "alice||x||||secret") {
        Request::BadRequest => {}
        _ => panic!("login middle fields must be empty"),
    }
    match parse_request(true, "alice||db1||select a from t") {
        Request::Run { user, db, cmd } => {
            assert_eq!(user, "alice");
            assert_eq!(db, "db1");
            assert_eq!(cmd, "select a from t;");
        }
        _ => panic!("a three-field line runs a command"),
    }
    match parse_request(true, "alice||db1") {
        Request::BadRequest => {}
        _ => panic!("two fields are not a command"),
    }
}

#[test]
fn test_user_verify() {
    let mut base = DiskInterface::create_file_base();
    user_verify(&mut base, "alice").unwrap();
    user_verify(&mut base, "alice").unwrap();
    let names = DiskInterface::get_usernames(&base).unwrap();
    assert_eq!(names, vec!["alice".to_string()]);
}

#[test]
fn test_response_serialize() {
    let ok = Response::OK { msg: "Query OK!".to_string() };
    assert_eq!(ok.serialize(), "Query OK!\n");
    let err = Response::Error { msg: "boom".to_string() };
    assert_eq!(err.serialize(), "Error: boom\n");
}
