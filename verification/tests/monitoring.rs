use tpch_engine::cli::CliOptions;
use tpch_engine::monitor::{
    check_output_line, command_of_lowercase, command_of_word, memory_limit_reply, read_command, remap_fds, FdMapping, FdOp, LineCheck,
    MonitorCommand, MonitorError, QueryConfig,
};
use tpch_engine::query::QueryOp;
use tpch_engine::workload::{expected_output_name, query_config_for, WORKLOAD_MEMORY_LIMIT_MB};

#[test]
fn output_lines_are_compared_trimmed() {
    assert_eq!(check_output_line("1|ALGERIA|\n", "1|ALGERIA|\n"), LineCheck::Matches);
    assert_eq!(check_output_line("1|ALGERIA|\n", "  1|ALGERIA|  "), LineCheck::Matches);
    assert_eq!(check_output_line("1|ALGERIA|\n", "2|ALGERIA|\n"), LineCheck::Mismatch);
    assert_eq!(check_output_line("", "!\n"), LineCheck::Finished);
    assert_eq!(check_output_line("  \n", "3|x|\n"), LineCheck::MissingEnd);
}

#[test]
fn commands_from_the_engine() {
    assert!(read_command("  \n", false).is_none());
    assert_eq!(read_command("", true).unwrap().len(), 0);
    let ws = read_command("validate now\n", false).unwrap();
    assert_eq!(ws, vec!["validate".to_string(), "now".to_string()]);
    assert_eq!(command_of_word(&"GET_MEMORY_LIMIT".to_string()), MonitorCommand::GetMemoryLimit);
    assert_eq!(command_of_word(&"Validate".to_string()), MonitorCommand::Validate);
    assert_eq!(command_of_word(&"hello".to_string()), MonitorCommand::Unknown);
    assert_eq!(memory_limit_reply(64), b"64\n".to_vec());
}

#[test]
fn descriptors_move_through_scratch_numbers() {
    let ops = remap_fds(&vec![FdMapping::new(7, 3, false), FdMapping::new(9, 4, true)]);
    assert_eq!(
        ops,
        vec![
            FdOp::Dup2 { from: 7, to: 10 },
            FdOp::Close(7),
            FdOp::Dup2 { from: 9, to: 11 },
            FdOp::Close(9),
            FdOp::Dup2 { from: 10, to: 3 },
            FdOp::Close(10),
            FdOp::SetCloseOnExec { fd: 3, on: false },
            FdOp::Dup2 { from: 11, to: 4 },
            FdOp::Close(11),
            FdOp::SetCloseOnExec { fd: 4, on: true },
        ]
    );
    assert!(remap_fds(&Vec::new()).is_empty());
}

#[test]
fn workload_entries() {
    assert_eq!(expected_output_name(12), b"expected_output_12.csv".to_vec());
    let q = QueryOp::scan("nation").build();
    let c = query_config_for(q, "SELECT 1;".to_string(), false, "/tmp/e.csv".to_string());
    assert_eq!(c.execution_name, "SELECT 1;");
    assert!(!c.disabled);
    assert!(c.sort_before_check);
    assert_eq!(c.memory_limit_mb, WORKLOAD_MEMORY_LIMIT_MB);
    assert_eq!(c.check_memory_limit(), Ok(()));
    let low = QueryConfig { memory_limit_mb: 32, ..c };
    assert_eq!(low.check_memory_limit(), Err(MonitorError::MemoryLimitTooLow));
    assert_eq!(low.memory_limit_bytes(), 32 * 1024 * 1024);
}

#[test]
fn engine_options_give_the_catalog_path() {
    let o = CliOptions::new("/etc/db_config.json".to_string());
    assert_eq!(o.get_config_path(), "/etc/db_config.json");
}

#[test]
fn command_words_given_in_lowercase() {
    assert_eq!(command_of_lowercase("validate"), MonitorCommand::Validate);
    assert_eq!(command_of_lowercase("get_memory_limit"), MonitorCommand::GetMemoryLimit);
    assert_eq!(command_of_lowercase("VALIDATE"), MonitorCommand::Unknown);
    // the word itself is put in lowercase first
    assert_eq!(command_of_word(&"VaLiDaTe".to_string()), MonitorCommand::Validate);
}
