use tpch_engine::disk_sim::{
    parse_command_line, parse_lowered_command, validate_disk_config, BlockSource, CommandError, ConfigError, Disk, DiskCommand,
    DiskIOMetricsResult, DiskIOMetricsSimulator, DiskSimError, FileSpec, IoTimes,
};

const GAP_4K: u64 = (10_000_000_000 + 4095) / 4096; // 2441407

fn files(list: &[(&str, u64)]) -> Vec<(String, u64)> {
    list.iter().map(|(id, size)| (id.to_string(), *size)).collect()
}

#[test]
fn files_are_laid_out_with_gaps() {
    let disk = Disk::new(4096, &files(&[("a", 4096 * 10), ("b", 4096 * 3)]));
    assert_eq!(disk.get_file_start_block("a"), Some(0));
    assert_eq!(disk.get_num_file_blocks("a"), Some(10));
    // a takes 10 blocks and a gap of max(40, 10 GB) blocks
    assert_eq!(disk.get_file_start_block("b"), Some(10 + GAP_4K));
    assert_eq!(disk.get_num_file_blocks("b"), Some(3));
    assert_eq!(disk.get_file_start_block("c"), None);
    // the scratch region starts 10 GB after the end of the last file
    assert_eq!(disk.get_anon_start_block(), 10 + GAP_4K + 3 + GAP_4K);
    assert_eq!(disk.get_block_size(), 4096);
}

#[test]
fn a_large_file_gets_four_times_its_size_as_gap() {
    let big = GAP_4K; // 4 * big exceeds the 10 GB gap
    let disk = Disk::new(4096, &files(&[("a", 4096 * big), ("b", 4096)]));
    assert_eq!(disk.get_file_start_block("b"), Some(big + 4 * big));
}

#[test]
fn a_repeated_file_keeps_its_later_place() {
    let disk = Disk::new(4096, &files(&[("a", 4096), ("a", 8192)]));
    assert_eq!(disk.get_file_start_block("a"), Some(1 + GAP_4K));
    assert_eq!(disk.get_num_file_blocks("a"), Some(2));
    assert_eq!(disk.get_file_id(0), None);
    assert_eq!(disk.get_file_id(1 + GAP_4K), Some("a".to_string()));
}

#[test]
fn an_empty_disk_starts_scratch_after_the_gap() {
    let disk = Disk::new(4096, &Vec::new());
    assert_eq!(disk.get_anon_start_block(), GAP_4K);
}

#[test]
fn file_blocks_are_read_from_their_file() {
    let disk = Disk::new(4096, &files(&[("a", 4096 * 10), ("b", 4096 * 3)]));
    match disk.read_block(10 + GAP_4K + 2) {
        Ok(BlockSource::File { file_id, offset }) => {
            assert_eq!(file_id, "b");
            assert_eq!(offset, 2 * 4096);
        }
        other => panic!("unexpected {:?}", other),
    }
    assert!(matches!(disk.read_block(10), Err(DiskSimError::InvalidFileBlock)));
    assert_eq!(disk.get_file_id(9), Some("a".to_string()));
}

#[test]
fn scratch_blocks_hold_what_was_written() {
    let mut disk = Disk::new(4, &files(&[("a", 8)]));
    let anon = disk.get_anon_start_block();
    assert!(matches!(disk.read_block(anon), Err(DiskSimError::MissingBlock)));
    assert_eq!(disk.write_block(anon, &[1, 2, 3, 4]), Ok(()));
    match disk.read_block(anon) {
        Ok(BlockSource::Anon(d)) => assert_eq!(d, vec![1, 2, 3, 4]),
        other => panic!("unexpected {:?}", other),
    }
    assert_eq!(disk.write_block(anon, &[9, 9, 9, 9]), Ok(()));
    match disk.read_block(anon) {
        Ok(BlockSource::Anon(d)) => assert_eq!(d, vec![9, 9, 9, 9]),
        other => panic!("unexpected {:?}", other),
    }
    assert_eq!(disk.write_block(anon, &[1, 2]), Err(DiskSimError::WrongSize));
    assert_eq!(disk.write_block(0, &[1, 2, 3, 4]), Err(DiskSimError::WriteProtected));
}

#[test]
fn configurations_are_checked_in_order() {
    assert_eq!(validate_disk_config(0, &files(&[("a", 10)])), Err(ConfigError::ZeroBlockSize));
    assert_eq!(validate_disk_config(4, &files(&[("a", 8), ("b c", 8)])), Err(ConfigError::SpaceInId(1)));
    assert_eq!(validate_disk_config(4, &files(&[("a", 0)])), Err(ConfigError::EmptyFile(0)));
    assert_eq!(validate_disk_config(4, &files(&[("a", 8), ("b", 6)])), Err(ConfigError::PartialBlock(1)));
    assert_eq!(validate_disk_config(4, &files(&[("a", 8), ("b", 12)])), Ok(()));
}

#[test]
fn file_spec_gives_its_path() {
    let f = FileSpec { id: "nation".to_string(), file_path: "/data/nation.bin".to_string() };
    assert_eq!(f.get_file_path(), "/data/nation.bin");
}

#[test]
fn commands_are_read_from_lines() {
    assert!(parse_command_line("   \n").is_none());
    assert!(matches!(parse_command_line("exit now"), Some(Ok(DiskCommand::Exit))));
    assert!(matches!(parse_command_line("GET block 12 3\n"), Some(Ok(DiskCommand::GetBlock { start: 12, count: 3 }))));
    assert!(matches!(parse_command_line("get block-size"), Some(Ok(DiskCommand::GetBlockSize))));
    assert!(matches!(parse_command_line("get anon-start-block"), Some(Ok(DiskCommand::GetAnonStartBlock))));
    assert!(matches!(parse_command_line("put Block 7 1"), Some(Ok(DiskCommand::PutBlock { start: 7, count: 1 }))));
    match parse_command_line("get file start-block lineitem") {
        Some(Ok(DiskCommand::GetFileStartBlock(id))) => assert_eq!(id, "lineitem"),
        other => panic!("unexpected {:?}", other),
    }
    match parse_command_line("get FILE num-blocks Orders") {
        Some(Ok(DiskCommand::GetFileNumBlocks(id))) => assert_eq!(id, "Orders"),
        other => panic!("unexpected {:?}", other),
    }
}

#[test]
fn malformed_commands_are_refused() {
    assert!(matches!(parse_command_line("fly"), Some(Err(CommandError::UnknownCommand))));
    assert!(matches!(parse_command_line("get"), Some(Err(CommandError::MissingArguments))));
    assert!(matches!(parse_command_line("put"), Some(Err(CommandError::MissingArguments))));
    assert!(matches!(parse_command_line("get block 1"), Some(Err(CommandError::WrongArguments))));
    assert!(matches!(parse_command_line("get block x 1"), Some(Err(CommandError::BadNumber))));
    assert!(matches!(parse_command_line("get block-size 3"), Some(Err(CommandError::WrongArguments))));
    assert!(matches!(parse_command_line("get file"), Some(Err(CommandError::MissingArguments))));
    assert!(matches!(parse_command_line("get file size a"), Some(Err(CommandError::UnknownCommand))));
    assert!(matches!(parse_command_line("get file start-block"), Some(Err(CommandError::WrongArguments))));
    assert!(matches!(parse_command_line("put page 1 1"), Some(Err(CommandError::UnknownCommand))));
}

#[test]
fn metrics_track_head_motion() {
    // 10 blocks per cylinder
    let mut m = DiskIOMetricsSimulator::new(4096, 5, 2);
    let mo = m.motion(35, 10).unwrap();
    assert_eq!(mo.distance, 3);
    assert_eq!(mo.cylinders_crossed, 1);
    assert_eq!(mo.end_block, 44);
    assert_eq!(mo.end_cylinder, 4);
    assert!(!mo.is_sequential);
    assert_eq!(mo.total_bytes, 40960);
    m.update_read_on(35, 10, Some(IoTimes { seek_ns: 1000, rot_ns: 2000, transfer_ns: 499 }));
    let next = m.motion(45, 1).unwrap();
    assert!(next.is_sequential);
    assert_eq!(next.distance, 0);
    m.update_write_on(45, 0, None);
    let r = m.get_current_metrics();
    assert_eq!(
        r,
        DiskIOMetricsResult {
            total_reads: 1,
            total_writes: 1,
            total_blocks_processed: 10,
            total_cylinders_traveled: 4,
            total_io_time_us: 3,
            total_seek_time_us: 1,
            total_rotational_latency_us: 2,
            total_transfer_time_us: 0,
        }
    );
    assert!(m.motion(5, 0).is_none());
}

fn strings(ws: &[&str]) -> Vec<String> {
    ws.iter().map(|w| w.to_string()).collect()
}

#[test]
fn commands_are_read_from_their_lowercase_words() {
    // the command's own words are taken from the lowercase copy, the
    // arguments from the words as written
    let ws = strings(&["GET", "FILE", "START-BLOCK", "Orders"]);
    let low = strings(&["get", "file", "start-block", "orders"]);
    match parse_lowered_command(&ws, &low) {
        Ok(DiskCommand::GetFileStartBlock(id)) => assert_eq!(id, "Orders"),
        other => panic!("unexpected {:?}", other),
    }
    // a lowercase copy that does not say `get` is not read as `get`
    let odd = strings(&["put", "block", "1", "2"]);
    assert!(matches!(
        parse_lowered_command(&strings(&["GET", "BLOCK", "1", "2"]), &odd),
        Ok(DiskCommand::PutBlock { start: 1, count: 2 })
    ));
}
