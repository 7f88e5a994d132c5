use chunkpress::cli::{get_args, Cli};

fn strings(items: &[&str]) -> Vec<String> {
    items.iter().map(|s| s.to_string()).collect()
}

#[test]
fn three_arguments_give_the_two_paths() {
    let parsed = get_args(&strings(&["prog", "in.bin", "out.bin"])).unwrap();
    assert_eq!(parsed.input_file_path, "in.bin");
    assert_eq!(parsed.output_file_path, "out.bin");
}

#[test]
fn wrong_argument_count_gives_the_usage_line() {
    let line = match get_args(&strings(&["prog", "only"])) {
        Ok(_) => panic!("two arguments were accepted"),
        Err(line) => line,
    };
    assert_eq!(line, "Usage: prog <input_file> <output_file>");
}

#[test]
fn cli_new_keeps_both_paths() {
    let cli = Cli::new("a".to_string(), "b".to_string());
    assert_eq!(cli.input_file_path, "a");
    assert_eq!(cli.output_file_path, "b");
}

#[test]
fn no_arguments_at_all_give_the_usage_line_without_a_name() {
    let line = match get_args(&Vec::new()) {
        Ok(_) => panic!("no arguments were accepted"),
        Err(line) => line,
    };
    assert_eq!(line, "Usage:  <input_file> <output_file>");
}

#[test]
fn four_arguments_give_the_usage_line() {
    let line = match get_args(&strings(&["prog", "a", "b", "c"])) {
        Ok(_) => panic!("four arguments were accepted"),
        Err(line) => line,
    };
    assert_eq!(line, "Usage: prog <input_file> <output_file>");
}

#[test]
fn the_program_name_alone_gives_the_usage_line() {
    assert!(matches!(get_args(&strings(&["prog"])), Err(line) if line == "Usage: prog <input_file> <output_file>"));
}
