use stellarsql::datatype::DataType;
use stellarsql::diskinterface::DiskInterface;
use stellarsql::field::{Checker, Field};
use stellarsql::index::Index;
use stellarsql::table::{Row, Table};

fn aff_row(id: &str, name: &str, email: &str, phone: &str) -> Row {
    let mut r = Row::new();
    r.insert("AffID".to_string(), id.to_string());
    r.insert("AffName".to_string(), name.to_string());
    r.insert("AffEmail".to_string(), email.to_string());
    r.insert("AffPhoneNum".to_string(), phone.to_string());
    r
}

#[test]
fn test_build_save_load_insert() {
    let mut base = DiskInterface::create_file_base();
    DiskInterface::create_username(&mut base, "crazyguy").unwrap();
    DiskInterface::create_db(&mut base, "crazyguy", "BookerDB").unwrap();

    let mut aff_table = Table::new("Affiliates");
    aff_table.insert_new_field(Field::new_all(
        "AffID",
        DataType::Int,
        true,
        None,
        Checker::NoCheck,
        false,
    ));
    aff_table.insert_new_field(Field::new_all(
        "AffName",
        DataType::Varchar(40),
        true,
        None,
        Checker::NoCheck,
        false,
    ));
    aff_table.insert_new_field(Field::new_all(
        "AffEmail",
        DataType::Varchar(50),
        true,
        None,
        Checker::NoCheck,
        false,
    ));
    aff_table.insert_new_field(Field::new_all(
        "AffPhoneNum",
        DataType::Varchar(20),
        false,
        Some("+886900000000".to_string()),
        Checker::NoCheck,
        false,
    ));
    aff_table.primary_key.push("AffID".to_string());

    DiskInterface::create_table(&mut base, "crazyguy", "BookerDB", &aff_table).unwrap();

    let rows = vec![
        aff_row("2", "Tom", "tom@foo.com", "+886900000001"),
        aff_row("7", "Ben", "ben@foo.com", "+886900000002"),
        aff_row("6", "Leo", "leo@dee.com", "+886900000003"),
        aff_row("1", "John", "john@dee.com", "+886900000004"),
        aff_row("4", "Ray", "ray@dee.com", "+886900000005"),
        aff_row("5", "Bryn", "bryn@dee.com", "+886900000006"),
        aff_row("8", "Eric", "eric@doo.com", "+886900000007"),
        aff_row("3", "Vinc", "vinc@doo.com", "+886900000008"),
    ];
    DiskInterface::append_rows(&mut base, "crazyguy", "BookerDB", "Affiliates", &rows).unwrap();

    DiskInterface::delete_rows(&mut base, "crazyguy", "BookerDB", "Affiliates", &vec![2, 3])
        .unwrap();
    DiskInterface::delete_rows(&mut base, "crazyguy", "BookerDB", "Affiliates", &vec![4, 6])
        .unwrap();

    let table_meta =
        DiskInterface::load_table_meta(&base, "crazyguy", "BookerDB", "Affiliates").unwrap();

    let mut index = Index::new(table_meta).unwrap();
    index.build_from_bin(&base).unwrap();

    assert_eq!(index.index_data.len(), 5);
    assert_eq!(index.num_rows, 8);

    for i in 1..index.index_data.len() {
        assert!(index.index_data[i - 1].key_value < index.index_data[i].key_value);
    }

    let before: Vec<(u32, Vec<u8>)> = index
        .index_data
        .iter()
        .map(|p| (p.row, p.key_value.clone()))
        .collect();
    index.save(&mut base).unwrap();
    index.load(&base).unwrap();
    let after: Vec<(u32, Vec<u8>)> = index
        .index_data
        .iter()
        .map(|p| (p.row, p.key_value.clone()))
        .collect();
    assert_eq!(before, after);
    assert_eq!(index.num_rows, 8);

    let newcomer = aff_row("5", "Allie", "allie@doo.com", "+886900000005");
    index.insert(&newcomer).unwrap();
    assert_eq!(index.index_data.len(), 6);
    for i in 1..index.index_data.len() {
        assert!(index.index_data[i - 1].key_value < index.index_data[i].key_value);
    }
    assert_eq!(index.num_rows, 9);

    // an equal key is rejected
    let dup = aff_row("5", "Dup", "dup@doo.com", "+886900000009");
    assert_eq!(index.insert(&dup).unwrap_err(), stellarsql::diskinterface::DiskError::DuplicatedKey);
}
