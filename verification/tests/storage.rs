use stellarsql::bytescoder::{BytesCoder, BytesCoderError};
use stellarsql::datatype::DataType;
use stellarsql::diskinterface::DiskInterface;
use stellarsql::field::{Checker, Field};
use stellarsql::table::{Row, Table};
use stellarsql::parser::Parser;
use stellarsql::worker::SQL;

#[test]
fn test_attr_int_encode_decode() {
    let datatype = DataType::Int;
    let data = "123456543".to_string();
    let bytes = BytesCoder::attr_to_bytes(&datatype, &data).unwrap();
    assert_eq!(bytes.len(), 4);
    assert_eq!(BytesCoder::bytes_to_attr(&datatype, &bytes).unwrap(), data);

    let datatype = DataType::Varchar(100);
    let data = "abcdefghijklmnopqrstuvwxyz12345438967`+=/{}[]<>-_|%$#@!&^*()?,.".to_string();
    let bytes = BytesCoder::attr_to_bytes(&datatype, &data).unwrap();
    assert_eq!(bytes.len(), 100);
    assert_eq!(BytesCoder::bytes_to_attr(&datatype, &bytes).unwrap(), data);

    let datatype = DataType::Char(10);
    assert_eq!(
        BytesCoder::attr_to_bytes(&datatype, &data).unwrap_err(),
        BytesCoderError::StringLength
    );

    // a non-ASCII text survives the round trip too
    let datatype = DataType::Char(10);
    let data = "test\u{4f60}\u{597d}".to_string();
    let bytes = BytesCoder::attr_to_bytes(&datatype, &data).unwrap();
    assert_eq!(BytesCoder::bytes_to_attr(&datatype, &bytes).unwrap(), data);
}

fn sample_table() -> Table {
    let mut t = Table::new("notes");
    t.insert_new_field(Field::new_all("id", DataType::Int, true, None, Checker::NoCheck, false));
    t.insert_new_field(Field::new_all(
        "body",
        DataType::Varchar(16),
        false,
        None,
        Checker::NoCheck,
        false,
    ));
    t
}

fn sample_row(id: &str, body: &str) -> Row {
    let mut r = Row::new();
    r.insert("id".to_string(), id.to_string());
    r.insert("body".to_string(), body.to_string());
    r
}

#[test]
fn test_append_fetch_delete_rows() {
    let mut base = DiskInterface::create_file_base();
    DiskInterface::create_username(&mut base, "crazyguy").unwrap();
    DiskInterface::create_db(&mut base, "crazyguy", "BookerDB").unwrap();
    // register the table by hand: catalog record plus an empty row file
    let meta = stellarsql::diskinterface::TableMeta {
        name: "notes".to_string(),
        username: "crazyguy".to_string(),
        db_name: "BookerDB".to_string(),
        path_tsv: "notes.tsv".to_string(),
        path_bin: "notes.bin".to_string(),
        primary_key: vec!["id".to_string()],
        foreign_key: vec![],
        reference_table: None,
        reference_attr: None,
        row_length: 21,
        attrs: sample_table().fields,
        attrs_order: vec!["__valid__".to_string(), "id".to_string(), "body".to_string()],
        attr_offset_ranges: vec![vec![0, 1], vec![1, 5], vec![5, 21]],
    };
    base.users[0].dbs[0].tables.push(stellarsql::diskinterface::TableFile {
        meta,
        bin: vec![],
        idx: vec![],
    });

    let rows = vec![sample_row("1", "one"), sample_row("2", "two"), sample_row("3", "three")];
    DiskInterface::append_rows(&mut base, "crazyguy", "BookerDB", "notes", &rows).unwrap();
    assert_eq!(base.users[0].dbs[0].tables[0].bin.len(), 63);

    // the appended rows come back field by field
    let fetched =
        DiskInterface::fetch_rows(&base, "crazyguy", "BookerDB", "notes", &vec![0, 3]).unwrap();
    assert_eq!(fetched.len(), 3);
    assert_eq!(fetched[0].get("id").unwrap(), "1");
    assert_eq!(fetched[1].get("body").unwrap(), "two");
    assert_eq!(fetched[2].get("body").unwrap(), "three");

    // delete [1, 2): overlapping fetches fail, disjoint ones are unaffected
    DiskInterface::delete_rows(&mut base, "crazyguy", "BookerDB", "notes", &vec![1, 2]).unwrap();
    let r = DiskInterface::fetch_rows(&base, "crazyguy", "BookerDB", "notes", &vec![0, 2]);
    assert_eq!(r.unwrap_err(), stellarsql::diskinterface::DiskError::RangeContainsDeletedRecord);
    let ok = DiskInterface::fetch_rows(&base, "crazyguy", "BookerDB", "notes", &vec![0, 1]);
    assert!(ok.is_ok());

    // a fetch past the end reports the short file
    let r = DiskInterface::fetch_rows(&base, "crazyguy", "BookerDB", "notes", &vec![0, 9]);
    assert_eq!(r.unwrap_err(), stellarsql::diskinterface::DiskError::RangeExceedLatestRecord);

    // modify with a mismatched count leaves the file untouched
    let before = base.users[0].dbs[0].tables[0].bin.clone();
    let r = DiskInterface::modify_rows(
        &mut base,
        "crazyguy",
        "BookerDB",
        "notes",
        &vec![0, 1],
        &vec![sample_row("7", "seven"), sample_row("8", "eight")],
    );
    assert_eq!(r.unwrap_err(), stellarsql::diskinterface::DiskError::RangeAndNumRowsMismatch);
    assert_eq!(base.users[0].dbs[0].tables[0].bin, before);

    // a valid modify rewrites the record in place
    DiskInterface::modify_rows(
        &mut base,
        "crazyguy",
        "BookerDB",
        "notes",
        &vec![0, 1],
        &vec![sample_row("7", "seven")],
    )
    .unwrap();
    let fetched =
        DiskInterface::fetch_rows(&base, "crazyguy", "BookerDB", "notes", &vec![0, 1]).unwrap();
    assert_eq!(fetched[0].get("id").unwrap(), "7");
    assert_eq!(fetched[0].get("body").unwrap(), "seven");
}

#[test]
fn test_catalog_errors() {
    let mut base = DiskInterface::create_file_base();
    DiskInterface::create_username(&mut base, "a").unwrap();
    assert!(DiskInterface::create_username(&mut base, "a").is_err());
    assert!(DiskInterface::create_db(&mut base, "nobody", "d").is_err());
    DiskInterface::create_db(&mut base, "a", "d").unwrap();
    assert!(DiskInterface::create_db(&mut base, "a", "d").is_err());
    let names = DiskInterface::get_usernames(&base).unwrap();
    assert_eq!(names, vec!["a".to_string()]);
    let dbs = DiskInterface::get_dbs(&base, "a").unwrap();
    assert_eq!(dbs, vec!["d".to_string()]);
    DiskInterface::remove_db(&mut base, "a", "d").unwrap();
    assert!(DiskInterface::remove_db(&mut base, "a", "d").is_err());
    DiskInterface::remove_username(&mut base, "a").unwrap();
    assert!(DiskInterface::remove_username(&mut base, "a").is_err());
}

#[test]
fn test_scan_tokens_error() {
    let message = "create table $1234";
    let mut s = stellarsql::lexer::Scanner::new(message);
    match s.scan_tokens() {
        Ok(_) => {}
        Err(e) => assert_eq!(e.message(), "please use ascii character."),
    }
}

#[test]
fn test_scan_tokens_keywords() {
    let message = "select customername, contactname from customers where address is null;";
    let mut s = stellarsql::lexer::Scanner::new(message);
    let tokens = s.scan_tokens().unwrap();
    let names: Vec<String> = tokens.iter().map(|t| t.name.clone()).collect();
    assert_eq!(
        names,
        vec!["select", "customername", ",", "contactname", "from", "customers", "where",
            "address", "is null", ";"]
    );

    let message = "insert \n\r\tinto \t\tcustomers \n(customername,\n\n city)\n\n values ('cardinal', 'norway');";
    let mut s = stellarsql::lexer::Scanner::new(message);
    let tokens = s.scan_tokens().unwrap();
    let names: Vec<String> = tokens.iter().map(|t| t.name.clone()).collect();
    assert_eq!(
        names,
        vec!["insert into", "customers", "(", "customername", ",", "city", ")", "values", "(",
            "'cardinal'", ",", "'norway'", ")", ";"]
    );
}

#[test]
fn test_select_not_predicate() {
    let mut sql = SQL::new("Tiger").unwrap();
    sql.create_database("db12").unwrap();
    let query = "create table t1 (a1 int);";
    Parser::new(query).unwrap().parse(&mut sql).unwrap();
    for v in ["1", "2", "3"] {
        let query = format!("insert into t1(a1) values ({});", v);
        Parser::new(&query).unwrap().parse(&mut sql).unwrap();
    }
    let query = "select a1 from t1 where not a1 = 2;";
    Parser::new(query).unwrap().parse(&mut sql).unwrap();
    assert_eq!(sql.result_json, "{\"fields\":[\"a1\"],\"rows\":[[\"1\"],[\"3\"]]}");
}
