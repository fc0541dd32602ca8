use stellarsql::datatype::DataType;
use stellarsql::field::{Checker, Field};
use stellarsql::table::Table;
use stellarsql::symbol::{Symbol, Token, Group, symbols_get, check_multi_keywords_front};
use stellarsql::parser::{Parser, parse_infix_postfix, parse_postfix_tree, parse_predicate,
    parser_insert_into_table, in_order};
use stellarsql::worker::SQL;
use stellarsql::diskinterface::DiskInterface;
use stellarsql::pool::{Pool, PoolError};

#[test]
fn test_datatype() {
    assert_eq!(DataType::Double, DataType::get("double", None).unwrap());
    assert_eq!(DataType::Char(8), DataType::get("char", Some(8)).unwrap());
    assert!(DataType::get("date", None).is_none());
}

#[test]
fn test_operator_filter_rows() {
    let mut table = Table::new("table_1");
    table.insert_new_field(Field::new("a1", DataType::Int));
    table.insert_new_field(Field::new("a2", DataType::Char(20)));
    let data = vec![("a1", "1"), ("a2", "aaa")];
    let _ = table.insert_row(data).unwrap();
    let data = vec![("a1", "2"), ("a2", "bbb")];
    let _ = table.insert_row(data).unwrap();
    let data = vec![("a1", "3"), ("a2", "aaa")];
    let _ = table.insert_row(data).unwrap();
    let data = vec![("a1", "4"), ("a2", "bbb")];
    let _ = table.insert_row(data).unwrap();

    let set = table.operator_filter_rows("a1", ">", "2").unwrap();
    table.set_row_set(set);
    let select_data = table.select(vec!["a1".to_string(), "a2".to_string()]).unwrap();
    let expected: Vec<Vec<String>> = vec![
        vec!["3".to_string(), "aaa".to_string()],
        vec!["4".to_string(), "bbb".to_string()],
    ];
    assert_eq!(select_data.rows, expected);

    let set = table.operator_filter_rows("a2", "=", "bbb").unwrap();
    table.set_row_set(set);
    let select_data = table.select(vec!["a1".to_string(), "a2".to_string()]).unwrap();
    let expected: Vec<Vec<String>> = vec![vec!["4".to_string(), "bbb".to_string()]];
    assert_eq!(select_data.rows, expected);
}

#[test]
fn test_symbols() {
    let s = symbols_get("add").unwrap();
    assert_eq!(s.name, "add");
    assert_eq!(s.len, 3);
    assert_eq!(s.token, Token::Add);
    assert_eq!(s.group, Group::Keyword);
    let s = symbols_get(">").unwrap();
    assert_eq!(s.name, ">");
    assert_eq!(s.len, 1);
    assert_eq!(s.token, Token::GT);
    assert_eq!(s.group, Group::Operator);
}

#[test]
fn test_match_delimiter() {
    let mut chs = "){".chars();
    let x = chs.next().unwrap();
    let s = Symbol::match_delimiter(x).unwrap();
    assert_eq!(s.token, Token::ParentRight);
    let x = chs.next().unwrap();
    assert!(Symbol::match_delimiter(x).is_none());
}

#[test]
fn test_check_multi_keywords_front() {
    assert_eq!(check_multi_keywords_front("alter"), Some(vec![2]));
    assert!(check_multi_keywords_front("not_match").is_none());
}

#[test]
fn test_multithread_correctness() {}

#[test]
#[allow(non_snake_case)]
fn test_pool_LRU_algorithm() {
    let mut base = DiskInterface::create_file_base();
    DiskInterface::create_username(&mut base, "u").unwrap();
    let mut pool = Pool::new(2);
    pool.get(&mut base, "u", "", "a1").unwrap();
    pool.get(&mut base, "u", "", "a2").unwrap();
    // most recent first
    assert_eq!(pool.freelist, vec!["a2".to_string(), "a1".to_string()]);
    // touching a1 promotes it
    pool.get(&mut base, "u", "", "a1").unwrap();
    assert_eq!(pool.freelist, vec!["a1".to_string(), "a2".to_string()]);
    // a third session evicts the least recently used, a2
    pool.get(&mut base, "u", "", "a3").unwrap();
    assert!(pool.cache_index("a2").is_none());
    assert!(pool.cache_index("a1").is_some());
    assert!(pool.cache_index("a3").is_some());
    assert_eq!(pool.freelist, vec!["a3".to_string(), "a1".to_string()]);
}

fn pool_fixture() -> (stellarsql::diskinterface::FileBase, stellarsql::pool::Pool) {
    let mut base = DiskInterface::create_file_base();
    DiskInterface::create_username(&mut base, "crazyguy").unwrap();
    let mut pool = Pool::new(4);
    let ci = pool.get(&mut base, "crazyguy", "", "addr1").unwrap();
    let sql = &mut pool.cache[ci].1;
    Parser::new("create database BookerDB;").unwrap().parse(sql).unwrap();
    Parser::new("create table notes (id int, body char(16));").unwrap().parse(sql).unwrap();
    Parser::new("insert into notes(id, body) values (1, one), (2, two);")
        .unwrap()
        .parse(sql)
        .unwrap();
    (base, pool)
}

#[test]
fn test_db_writeback() {
    let (mut base, mut pool) = pool_fixture();
    pool.write_back(&mut base, "addr1").unwrap();
    // the dirty database was registered on disk
    let dbs = DiskInterface::get_dbs(&base, "crazyguy").unwrap();
    assert_eq!(dbs, vec!["bookerdb".to_string()]);
}

#[test]
fn test_table_writeback() {
    let (mut base, mut pool) = pool_fixture();
    pool.write_back(&mut base, "addr1").unwrap();
    // the dirty table's schema was registered
    let tables = DiskInterface::get_tables(&base, "crazyguy", "bookerdb").unwrap();
    assert_eq!(tables, vec!["notes".to_string()]);
    let meta = DiskInterface::load_table_meta(&base, "crazyguy", "bookerdb", "notes").unwrap();
    assert_eq!(
        meta.attrs_order,
        vec!["__valid__".to_string(), "body".to_string(), "id".to_string()]
    );
    assert_eq!(meta.row_length, 21);
}

#[test]
fn test_create_row_writeback() {
    let (mut base, mut pool) = pool_fixture();
    pool.write_back(&mut base, "addr1").unwrap();
    // the dirty rows were appended and read back field by field
    let rows =
        DiskInterface::fetch_rows(&base, "crazyguy", "bookerdb", "notes", &vec![0, 2]).unwrap();
    assert_eq!(rows.len(), 2);
    assert_eq!(rows[0].get("id").unwrap(), "1");
    assert_eq!(rows[0].get("body").unwrap(), "one");
    assert_eq!(rows[1].get("id").unwrap(), "2");
    assert_eq!(rows[1].get("body").unwrap(), "two");
}

#[test]
fn test_pool_error() {
    let mut base = DiskInterface::create_file_base();
    let mut pool = Pool::new(2);
    match pool.write_back(&mut base, "nobody") {
        Err(PoolError::EntryNotExist) => {}
        _ => panic!("a missing entry must be reported"),
    }
}

fn fake_sql() -> SQL {
    let mut sql = SQL::new("Jenny").unwrap();
    sql.create_database("db1").unwrap();
    sql
}

#[test]
fn test_parser_create_database() {
    let mut sql = fake_sql();

    let query = "create database db2;";
    let parser = Parser::new(query).unwrap();
    parser.parse(&mut sql).unwrap();
    assert_eq!(sql.database.name, "db2");
}

#[test]
fn test_parser_create_table() {
    let mut sql = fake_sql();

    let query = "create table t1 (a1 int, b1 char(7), c1 double);";
    let parser = Parser::new(query).unwrap();
    parser.parse(&mut sql).unwrap();

    let ti = sql.database.table_index("t1").unwrap();
    let table = &sql.database.tables[ti];
    assert!(table.get_field("a1").is_some());
    assert!(table.get_field("b1").is_some());
    assert!(table.get_field("c1").is_some());

    let query = "create table t1 (a1 int not null default 5 encrypt, b1 char(7) not null, c1 double default 1.2);";
    let parser = Parser::new(query).unwrap();
    parser.parse(&mut sql).unwrap();

    let ti = sql.database.table_index("t1").unwrap();
    let table = &sql.database.tables[ti];
    let a1 = table.get_field("a1").unwrap();
    let b1 = table.get_field("b1").unwrap();
    let c1 = table.get_field("c1").unwrap();
    assert_eq!(a1.not_null, true);
    assert_eq!(a1.default.clone().unwrap(), "5");
    assert_eq!(a1.encrypt, true);
    assert_eq!(b1.not_null, true);
    assert_eq!(c1.default.clone().unwrap(), "1.2");
}

#[test]
fn test_insert_into_table1() {
    let query = "insert into t1(a1, a2, a3) values (1, 2, 3), (4, 5, 6);";
    let parser = Parser::new(query).unwrap();
    let mut pos = 0;
    let (table_name, attrs, rows) = parser_insert_into_table(&parser.tokens, &mut pos).unwrap();
    assert_eq!(table_name, "t1");
    assert_eq!(attrs, vec![String::from("a1"), String::from("a2"), String::from("a3")]);
    assert_eq!(
        rows,
        vec![
            vec![String::from("1"), String::from("2"), String::from("3")],
            vec![String::from("4"), String::from("5"), String::from("6")]
        ]
    );

    let query = "insert into t1(a1, a2, a3) values (1, 2, 3);";
    let parser = Parser::new(query).unwrap();
    let mut pos = 0;
    let (table_name, attrs, rows) = parser_insert_into_table(&parser.tokens, &mut pos).unwrap();
    assert_eq!(table_name, "t1");
    assert_eq!(attrs, vec![String::from("a1"), String::from("a2"), String::from("a3")]);
    assert_eq!(
        rows,
        vec![vec![String::from("1"), String::from("2"), String::from("3")],]
    );

    let query = "insert into t1(a1) values (1);";
    let parser = Parser::new(query).unwrap();
    let mut pos = 0;
    let (table_name, attrs, rows) = parser_insert_into_table(&parser.tokens, &mut pos).unwrap();
    assert_eq!(table_name, "t1");
    assert_eq!(attrs, vec![String::from("a1")]);
    assert_eq!(rows, vec![vec![String::from("1")]]);
}

#[test]
fn test_insert_into_table_syntax_error() {
    // values not match attributes
    let query = "insert into t1(a1, a2, a3) values (1, 2);";
    let parser = Parser::new(query).unwrap();
    let mut pos = 0;
    assert!(parser_insert_into_table(&parser.tokens, &mut pos).is_err());

    let query = "insert into t1(a1, a2, a3) values (1, 2, 3, 4);";
    let parser = Parser::new(query).unwrap();
    let mut pos = 0;
    assert!(parser_insert_into_table(&parser.tokens, &mut pos).is_err());
}

#[test]
fn test_parser_insert_into_table() {
    let mut sql = fake_sql();

    let query = "create table t1 (a1 int, b1 char(7), c1 double);";
    let parser = Parser::new(query).unwrap();
    parser.parse(&mut sql).unwrap();

    let query = "insert into t1(a1, b1, c1) values (33, 'abc', 3.43);";
    let parser = Parser::new(query).unwrap();
    assert!(parser.parse(&mut sql).is_ok());
}

#[test]
fn test_parser_insert_into_table_error() {
    let mut sql = fake_sql();

    let query = "create table t1 (a1 int, b1 char(7), c1 double);";
    let parser = Parser::new(query).unwrap();
    parser.parse(&mut sql).unwrap();

    // miss the attribute, but it has no default value
    let query = "insert into t1(a1, c1) values (33,  3.43);";
    let parser = Parser::new(query).unwrap();
    assert!(parser.parse(&mut sql).is_err());
}

#[test]
fn test_parser_new_error() {
    let query = "create table $1234;";
    match Parser::new(query) {
        Ok(_) => {}
        Err(e) => assert_eq!(e.message(), "error caused by lexer: please use ascii character."),
    }
}

fn assert_parse_infix_postfix(query: &str, answer: Vec<&str>) {
    let parser = Parser::new(query).unwrap();
    let mut tokens = parser.tokens;
    tokens.pop(); // `;`
    let postfix = parse_infix_postfix(tokens).unwrap();
    for i in 0..answer.len() {
        assert_eq!(&postfix[i].name, answer[i]);
    }
}

#[test]
fn test_parse_infix_postfix() {
    let query = "not a1 = 3 and b2 >= 5;";
    let answer = ["a1", "3", "=", "not", "b2", "5", ">=", "and"];
    assert_parse_infix_postfix(query, answer.to_vec());

    let query = "not(not a1 = 3 and not (b2 >= 5 or c1 < 7));";
    let answer = [
        "a1", "3", "=", "not", "b2", "5", ">=", "c1", "7", "<", "or", "not", "and", "not",
    ];
    assert_parse_infix_postfix(query, answer.to_vec());
}

fn assert_parse_postfix_tree(query: &str, answer: Vec<&str>) {
    let parser = Parser::new(query).unwrap();
    let mut tokens = parser.tokens;
    tokens.pop(); // `;`
    let mut output = vec![];
    let tree = parse_postfix_tree(tokens).unwrap();
    in_order(tree, &mut output);
    for i in 0..answer.len() {
        assert_eq!(&output[i], answer[i]);
    }
}

#[test]
fn test_parse_postfix_tree() {
    let postfix = "a1 3 = not b2 5 >= and ;";
    let answer = ["not", "a1", "=", "3", "and", "b2", ">=", "5"];
    assert_parse_postfix_tree(postfix, answer.to_vec());

    let postfix = "a1 3 = not b2 5 >= c1 7 < or not and not ;";
    let answer = [
        "not", "not", "a1", "=", "3", "and", "not", "b2", ">=", "5", "or", "c1", "<", "7",
    ];
    assert_parse_postfix_tree(postfix, answer.to_vec());
}

fn assert_parse_predicate(query: &str, answer: &str) {
    let parser = Parser::new(query).unwrap();
    let mut tokens = parser.tokens;
    tokens.pop(); // `;`
    let mut output = vec![];
    let tree = parse_predicate(tokens).unwrap();
    in_order(tree, &mut output);
    let mut in_order_string = "".to_string();
    for i in output {
        in_order_string += &i;
        in_order_string += " ";
    }
    in_order_string += ";";
    assert_eq!(in_order_string, answer);
}

#[test]
fn test_parse_predicate() {
    let query = "a1 >= 3 and b3 <= 7 or c1 = 4 and not d1 = 3 ;";
    assert_parse_predicate(query, query);

    let query = "not (a1 >= 3 and b3 <= 7) or not (c1 = 4 and d1 = 3);";
    let answer = "not a1 >= 3 and b3 <= 7 or not c1 = 4 and d1 = 3 ;";
    assert_parse_predicate(query, answer);
}

fn fixture_sql() -> SQL {
    let mut sql = SQL::new("Tiger").unwrap();
    sql.create_database("db11").unwrap();

    let query = "create table t1 (a1 int, a2 char(7), a3 double);";
    Parser::new(query).unwrap().parse(&mut sql).unwrap();

    let query = "insert into t1(a1, a2, a3) values (1, 'aaa', 2.1);";
    Parser::new(query).unwrap().parse(&mut sql).unwrap();
    let query = "insert into t1(a1, a2, a3) values (2, 'aaa', 2.2);";
    Parser::new(query).unwrap().parse(&mut sql).unwrap();
    let query = "insert into t1(a1, a2, a3) values (3, 'bbb', 2.3);";
    Parser::new(query).unwrap().parse(&mut sql).unwrap();
    let query = "insert into t1(a1, a2, a3) values (4, 'bbb', 2.4);";
    Parser::new(query).unwrap().parse(&mut sql).unwrap();
    let query = "insert into t1(a1, a2, a3) values (5, 'bbb', 2.5);";
    Parser::new(query).unwrap().parse(&mut sql).unwrap();

    sql
}

#[test]
fn test_select_where_and() {
    let mut sql = fixture_sql();

    let query = "select a1, a2, a3 from t1 where a1 > 2 and a3 < 2.5;";
    Parser::new(query).unwrap().parse(&mut sql).unwrap();

    assert_eq!(
        sql.result_json,
        "{\"fields\":[\"a1\",\"a2\",\"a3\"],\"rows\":[[\"3\",\"\'bbb\'\",\"2.3\"],[\"4\",\"\'bbb\'\",\"2.4\"]]}"
            .to_string()
    );
}

#[test]
fn test_select_where_or() {
    let mut sql = fixture_sql();

    let query = "select a1, a2, a3 from t1 where a1 < 2 or a3 > 2.4;";
    Parser::new(query).unwrap().parse(&mut sql).unwrap();

    assert_eq!(
        sql.result_json,
        "{\"fields\":[\"a1\",\"a2\",\"a3\"],\"rows\":[[\"1\",\"\'aaa\'\",\"2.1\"],[\"5\",\"\'bbb\'\",\"2.5\"]]}"
            .to_string()
    );
}

#[test]
fn test_insert_row() {
    let mut table = Table::new("table_1");
    table.insert_new_field(Field::new_all(
        "attr_1",
        DataType::Int,
        true,
        Some("123".to_string()),
        Checker::NoCheck,
        false,
    ));
    table.insert_new_field(Field::new_all(
        "attr_2",
        DataType::Int,
        true,
        None,
        Checker::NoCheck,
        false,
    ));
    table.insert_new_field(Field::new_all(
        "attr_3",
        DataType::Int,
        false,
        None,
        Checker::NoCheck,
        false,
    ));

    let data = vec![("attr_1", "123"), ("attr_2", "123"), ("attr_3", "123")];
    assert!(table.insert_row(data).is_ok());

    let data = vec![("attr_1", "123"), ("attr_2", "null"), ("attr_3", "123")];
    assert!(table.insert_row(data).is_err());

    let data = vec![("attr_1", "123"), ("attr_2", "123"), ("attr_3", "null")];
    assert!(table.insert_row(data).is_ok());

    let data = vec![("attr_1", "123"), ("attr_3", "123")];
    assert!(table.insert_row(data).is_err());

    let data = vec![("attr_2", "123"), ("attr_3", "123")];
    assert!(table.insert_row(data).is_ok());

    let data = vec![
        ("attr_1", "123"),
        ("attr_2", "123"),
        ("attr_3", "123"),
        ("attr_4", "123"),
    ];
    assert!(table.insert_row(data).is_err());
    let data = vec![("attr_1", "123")];
    assert!(table.insert_row(data).is_err());
}
