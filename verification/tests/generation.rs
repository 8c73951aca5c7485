use tpch_engine::data::{Data, DataType};
use tpch_engine::disk_run::rows_to_run_buffer;
use tpch_engine::generator::{
    create_table_sql, generate_all, generator_main, integer_or_string_value, load_schema, sql_value,
    table_line_fields, type_of_uppercase, AllGenerationConfig, BlockPacker, CliOptions, DatabaseGenerationConfig, GenerationStep,
    InsertBatcher, SchemaError,
};
use tpch_engine::row::Row;

fn all_config() -> AllGenerationConfig {
    AllGenerationConfig {
        dataset_folder: "data".to_string(),
        compiled_dataset_folder: "compiled".to_string(),
        runtime_folder: "runtime".to_string(),
        build_path: "build".to_string(),
        block_size: 4096,
    }
}

#[test]
fn generating_all_runs_four_steps_in_order() {
    let steps = generate_all(&all_config());
    assert_eq!(steps.len(), 4);
    match &steps[0] {
        GenerationStep::Disk(d) => {
            assert_eq!(d.dataset_folder, "data");
            assert_eq!(d.compiled_dataset_folder, "compiled");
            assert_eq!(d.runtime_folder, "runtime");
            assert_eq!(d.block_size, 4096);
        }
        other => panic!("unexpected {:?}", other),
    }
    assert!(matches!(&steps[1], GenerationStep::Database(d) if d.dataset_folder == "data" && d.runtime_folder == "runtime"));
    assert!(matches!(&steps[2], GenerationStep::Monitor(m) if m.runtime_folder == "runtime" && m.build_path == "build"));
    assert!(matches!(&steps[3], GenerationStep::Sqlite(s) if s.compiled_dataset_folder == "compiled"));
}

#[test]
fn a_single_command_runs_one_step() {
    let steps = generator_main(CliOptions::Database(DatabaseGenerationConfig {
        dataset_folder: "d".to_string(),
        runtime_folder: "r".to_string(),
    }));
    assert_eq!(steps.len(), 1);
    assert!(matches!(&steps[0], GenerationStep::Database(d) if d.dataset_folder == "d"));
    assert_eq!(generator_main(CliOptions::All(all_config())).len(), 4);
}

#[test]
fn schemas_pair_names_with_types() {
    let cols = load_schema("n_nationkey|n_name|n_regionkey|\n", "i32|String|I64|\n").unwrap();
    assert_eq!(cols.len(), 3);
    assert_eq!(cols[0].0, "n_nationkey");
    assert!(matches!(cols[0].1, DataType::Int32));
    assert!(matches!(cols[1].1, DataType::String));
    assert!(matches!(cols[2].1, DataType::Int64));
    let cols = load_schema("x|y", "float32|FLOAT64|extra").unwrap();
    assert!(matches!(cols[0].1, DataType::Float32));
    assert!(matches!(cols[1].1, DataType::Float64));
}

#[test]
fn schema_errors_name_the_column() {
    assert_eq!(load_schema("a|b|c", "I32|I32").unwrap_err(), SchemaError::MissingType(2));
    assert_eq!(load_schema("a|b", "I32|DATE").unwrap_err(), SchemaError::UnknownType(1));
    assert_eq!(load_schema("", "").unwrap_err(), SchemaError::UnknownType(0));
}

#[test]
fn table_lines_split_into_fields() {
    assert!(table_line_fields("  \n").is_none());
    assert_eq!(table_line_fields("1|ALGERIA|0| haggle|\n").unwrap(), vec!["1", "ALGERIA", "0", " haggle"]);
}

#[test]
fn integer_and_string_fields_are_read() {
    assert!(matches!(integer_or_string_value(&"-17".to_string(), DataType::Int32), Some(Data::Int32(-17))));
    assert!(matches!(integer_or_string_value(&"2147483648".to_string(), DataType::Int32), None));
    assert!(matches!(integer_or_string_value(&"2147483648".to_string(), DataType::Int64), Some(Data::Int64(2147483648))));
    match integer_or_string_value(&"PERU".to_string(), DataType::String) {
        Some(Data::String(b)) => assert_eq!(b, b"PERU".to_vec()),
        other => panic!("unexpected {:?}", other),
    }
}

fn int_row(vals: &[i32]) -> Row {
    Row { values: vals.iter().map(|v| Data::Int32(*v)).collect() }
}

#[test]
fn packed_blocks_match_a_run_of_the_same_rows() {
    let rows: Vec<Row> = (0..37).map(|i| int_row(&[i, i * 3, -i])).collect();
    let mut packer = BlockPacker::new(64);
    let mut file = Vec::new();
    for r in &rows {
        if let Some(b) = packer.add_row(r) {
            assert_eq!(b.len(), 64);
            file.extend(b);
        }
    }
    if let Some(b) = packer.finish() {
        file.extend(b);
    }
    assert_eq!(file, rows_to_run_buffer(&rows, 64));
    // 12-byte rows: five fit in the 62 bytes of a block
    assert_eq!(file.len(), 8 * 64);
    assert_eq!(&file[62..64], &[5, 0]);
}

#[test]
fn no_rows_make_no_block() {
    assert!(BlockPacker::new(64).finish().is_none());
}

#[test]
fn create_table_statement() {
    let cols = vec![
        ("a".to_string(), DataType::Int32),
        ("b".to_string(), DataType::Float64),
        ("c".to_string(), DataType::String),
    ];
    assert_eq!(create_table_sql(&"t".to_string(), &cols), b"CREATE TABLE t (a INTEGER,b REAL,c TEXT);".to_vec());
}

#[test]
fn sql_values() {
    assert_eq!(sql_value(&Data::Int32(-5)), b"-5".to_vec());
    assert_eq!(sql_value(&Data::Int64(1234567890123)), b"1234567890123".to_vec());
    assert_eq!(sql_value(&Data::String(b"x y".to_vec())), b"\"x y\"".to_vec());
}

#[test]
fn inserts_are_batched_by_1024_rows() {
    let mut b = InsertBatcher::new(b"t".to_vec(), b"a,b".to_vec());
    let mut statements = Vec::new();
    for i in 0..1030 {
        let values = format!("{},{}", i, i + 1).into_bytes();
        if let Some(s) = b.add_row(&values) {
            statements.push(s);
        }
    }
    assert_eq!(statements.len(), 1);
    let s = String::from_utf8(statements[0].clone()).unwrap();
    assert!(s.starts_with("INSERT into t (a,b) values (0,1),(1,2),"));
    assert!(s.ends_with(",(1023,1024);"));
    let rest = String::from_utf8(b.finish().unwrap()).unwrap();
    assert_eq!(rest, "INSERT into t (a,b) values (1024,1025),(1025,1026),(1026,1027),(1027,1028),(1028,1029),(1029,1030);");
}

#[test]
fn type_names_given_in_uppercase() {
    assert_eq!(type_of_uppercase("I32"), Some(DataType::Int32));
    assert_eq!(type_of_uppercase("FLOAT64"), Some(DataType::Float64));
    assert_eq!(type_of_uppercase("string"), None);
    // a schema's type names are put in uppercase first
    let cols = load_schema("a|b|", "i64|String|").unwrap();
    assert_eq!(cols, vec![("a".to_string(), DataType::Int64), ("b".to_string(), DataType::String)]);
}
