use food_pipeline::loader::load_csv_raw;
use food_pipeline::loader::parse_table;
use food_pipeline::loader::LoadError;
use food_pipeline::pipeline::run_pipeline;
use food_pipeline::record::CsvFood;
use food_pipeline::record::Food;

fn row(name: &str, quantity: u32, category: &str, active: &str) -> CsvFood {
    CsvFood {
        name: name.to_owned(),
        quantity,
        category: category.to_owned(),
        active: active.to_owned(),
    }
}

#[test]
fn convert_yeah_is_active() {
    let f = Food::try_from(row("Apple", 10, "Fruit", "yeah")).unwrap();
    assert_eq!(f.name, "Apple");
    assert_eq!(f.quantity, 10);
    assert_eq!(f.category, "Fruit");
    assert!(f.active);
}

#[test]
fn convert_upper_true_is_active() {
    let f = Food::try_from(row("Milk", 2, "Dairy", "TRUE")).unwrap();
    assert!(f.active);
}

#[test]
fn convert_no_and_false_are_inactive() {
    assert!(!Food::try_from(row("Bread", 5, "Bakery", "NO")).unwrap().active);
    assert!(!Food::try_from(row("Bread", 5, "Bakery", "FALSE")).unwrap().active);
}

#[test]
fn convert_rejects_other_tokens() {
    for tok in ["maybe", "true", "false", "", "Yeah", "TRUE "] {
        let e = Food::try_from(row("Egg", 12, "Dairy", tok)).unwrap_err();
        assert_eq!(e, format!("invalid value found in `active`: `{}`", tok));
    }
}

#[test]
fn inactive_and_invalid_rows_are_absent_from_output() {
    let rows = vec![
        row("Bread", 5, "Bakery", "NO"),
        row("Egg", 12, "Dairy", "maybe"),
        row("Apple", 10, "Fruit", "yeah"),
    ];
    let (foods, diags) = run_pipeline(rows);
    assert_eq!(foods.len(), 1);
    assert_eq!(foods[0].name, "Apple");
    assert_eq!(diags.len(), 1);
    assert_eq!(diags[0], "<ERROR> :: invalid value found in `active`: `maybe`");
}

#[test]
fn output_is_sorted_by_category_and_all_active() {
    let rows = vec![
        row("A", 1, "Zebra", "yeah"),
        row("B", 2, "Apple", "TRUE"),
        row("C", 3, "Mango", "yeah"),
    ];
    let (foods, diags) = run_pipeline(rows);
    assert!(diags.is_empty());
    let cats: Vec<&str> = foods.iter().map(|f| f.category.as_str()).collect();
    assert_eq!(cats, ["Apple", "Mango", "Zebra"]);
    assert!(foods.iter().all(|f| f.active));
}

#[test]
fn equal_categories_keep_input_order() {
    let rows = vec![
        row("First", 1, "Same", "yeah"),
        row("Other", 2, "Above", "yeah"),
        row("Second", 3, "Same", "TRUE"),
        row("Third", 4, "Same", "yeah"),
    ];
    let (foods, _) = run_pipeline(rows);
    let names: Vec<&str> = foods.iter().map(|f| f.name.as_str()).collect();
    assert_eq!(names, ["Other", "First", "Second", "Third"]);
}

#[test]
fn three_records_end_to_end() {
    let data = b"name,quantity,category,active\n\
        Apple,10,Fruit,yeah\n\
        Bread,5,Bakery,NO\n\
        Milk,2,Dairy,TRUE\n\
        Egg,12,Dairy,maybe\n";
    let rows = load_csv_raw(data).unwrap();
    assert_eq!(rows.len(), 4);
    let (foods, diags) = run_pipeline(rows);
    assert_eq!(foods.len(), 2);
    assert_eq!(foods[0].name, "Milk");
    assert_eq!(foods[0].category, "Dairy");
    assert_eq!(foods[1].name, "Apple");
    assert_eq!(foods[1].category, "Fruit");
    assert_eq!(diags, vec!["<ERROR> :: invalid value found in `active`: `maybe`"]);
}

#[test]
fn rerunning_gives_identical_output() {
    let data = b"name,quantity,category,active\n\
        Apple,10,Fruit,yeah\n\
        Egg,12,Dairy,maybe\n\
        Milk,2,Dairy,TRUE\n";
    let (foods1, diags1) = run_pipeline(load_csv_raw(data).unwrap());
    let (foods2, diags2) = run_pipeline(load_csv_raw(data).unwrap());
    assert_eq!(foods1, foods2);
    assert_eq!(diags1, diags2);
}

#[test]
fn loads_columns_in_any_order() {
    let data = b"active,category,quantity,name\nyeah,Fruit,10,Apple\n";
    let rows = load_csv_raw(data).unwrap();
    assert_eq!(rows.len(), 1);
    assert_eq!(rows[0].name, "Apple");
    assert_eq!(rows[0].quantity, 10);
    assert_eq!(rows[0].category, "Fruit");
    assert_eq!(rows[0].active, "yeah");
}

#[test]
fn loads_quoted_fields_through_the_decoder() {
    let data = b"name,quantity,category,active\n\"a,b\",3,\"C\nD\",yeah\n";
    let rows = load_csv_raw(data).unwrap();
    assert_eq!(rows.len(), 1);
    assert_eq!(rows[0].name, "a,b");
    assert_eq!(rows[0].category, "C\nD");
}

#[test]
fn extra_columns_are_ignored() {
    let data = b"name,extra,quantity,category,active\nApple,junk,10,Fruit,yeah\n";
    let rows = load_csv_raw(data).unwrap();
    assert_eq!(rows.len(), 1);
    assert_eq!(rows[0].name, "Apple");
    assert_eq!(rows[0].quantity, 10);
}

#[test]
fn empty_input_loads_no_rows() {
    assert!(load_csv_raw(b"").unwrap().is_empty());
}

#[test]
fn header_only_input_loads_no_rows() {
    assert!(load_csv_raw(b"name,quantity,category,active\n").unwrap().is_empty());
}

#[test]
fn missing_column_fails_the_load() {
    let data = b"name,quantity,category\nApple,10,Fruit\n";
    let e = load_csv_raw(data).unwrap_err();
    assert!(matches!(e, LoadError::MissingColumn(n) if n == "active"));
}

#[test]
fn duplicate_column_fails_the_load() {
    let data = b"name,name,quantity,category,active\nApple,Pear,10,Fruit,yeah\n";
    let e = load_csv_raw(data).unwrap_err();
    assert!(matches!(e, LoadError::DuplicateColumn(n) if n == "name"));
}

#[test]
fn bad_quantity_fails_the_load() {
    let data = b"name,quantity,category,active\nApple,ten,Fruit,yeah\n";
    let e = load_csv_raw(data).unwrap_err();
    assert!(matches!(e, LoadError::BadQuantity(t) if t == "ten"));
}

#[test]
fn quantity_grammar_matches_the_decoder() {
    let ok = |q: &str, v: u32| {
        let data = format!("name,quantity,category,active\nA,{},C,yeah\n", q);
        let rows = load_csv_raw(data.as_bytes()).unwrap();
        assert_eq!(rows[0].quantity, v, "quantity token {:?}", q);
    };
    ok("0", 0);
    ok("007", 7);
    ok("+5", 5);
    ok("0x10", 16);
    ok("0xfF", 255);
    ok("4294967295", 4294967295);
    for bad in ["", " 1", "1 ", "-1", "4294967296", "0x", "0x1g", "1.5", "1e3"] {
        let data = format!("name,quantity,category,active\nA,{},C,yeah\n", bad);
        let e = load_csv_raw(data.as_bytes()).unwrap_err();
        assert!(
            matches!(e, LoadError::BadQuantity(_)),
            "quantity token {:?} was accepted",
            bad
        );
    }
}

#[test]
fn ragged_row_is_a_decoder_error() {
    let data = b"name,quantity,category,active\nApple,10\n";
    let e = load_csv_raw(data).unwrap_err();
    assert!(matches!(e, LoadError::Tabular(_)));
}

#[test]
fn short_row_fails_table_parsing() {
    let header = vec![
        "name".to_owned(),
        "quantity".to_owned(),
        "category".to_owned(),
        "active".to_owned(),
    ];
    let body = vec![vec!["Apple".to_owned()]];
    let e = parse_table(header, body).unwrap_err();
    assert!(matches!(e, LoadError::RowTooShort));
}

#[test]
fn bad_header_with_empty_body_loads_no_rows() {
    let data = b"foo,bar\n";
    assert!(load_csv_raw(data).unwrap().is_empty());
}

#[test]
fn all_rows_filtered_out_leaves_empty_output() {
    let data = b"name,quantity,category,active\nBread,5,Bakery,NO\n";
    let (foods, diags) = run_pipeline(load_csv_raw(data).unwrap());
    assert!(foods.is_empty());
    assert!(diags.is_empty());
}
