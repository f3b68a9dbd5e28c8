use cwc::args::Args;

#[test]
fn initial_file_is_the_given_path_without_quotes() {
    let args = Args { input: Some(format!("{:?}", std::path::PathBuf::from("src/lib.cara"))), threads: 2 };
    assert_eq!(args.initial_file(), "src/lib.cara");
}

#[test]
fn initial_file_defaults_to_main() {
    let args = Args { input: None, threads: 1 };
    assert_eq!(args.initial_file(), "main.cara");
}
