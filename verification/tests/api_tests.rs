use sad::api::Cli;

fn args(list: &[&str]) -> Vec<String> {
    list.iter().map(|s| s.to_string()).collect()
}

#[test]
fn file_flag_sets_the_path() {
    let cli = Cli::new(&args(&["sad", "-File", "/tmp/data.tsv"])).unwrap();
    assert_eq!(cli.file, "/tmp/data.tsv");
    assert!(!cli.sort_by_start_date);
    assert_eq!(cli.project, None);
}

#[test]
fn all_flags_together() {
    let cli = Cli::new(&args(&[
        "sad",
        "-File",
        "in.tsv",
        "-SortByStartDate",
        "-Project",
        "42",
    ]))
    .unwrap();
    assert_eq!(cli.file, "in.tsv");
    assert!(cli.sort_by_start_date);
    assert_eq!(cli.project, Some("42".to_string()));
}

#[test]
fn too_few_arguments_are_rejected() {
    assert_eq!(Cli::new(&args(&["sad"])).unwrap_err(), "not enough arguments");
}

#[test]
fn missing_file_flag_is_rejected() {
    assert_eq!(
        Cli::new(&args(&["sad", "-SortByStartDate"])).unwrap_err(),
        "input file not defined"
    );
    assert_eq!(
        Cli::new(&args(&["sad", "-Project", "1"])).unwrap_err(),
        "input file not defined"
    );
}

#[test]
fn file_flag_without_a_path_is_rejected() {
    assert_eq!(
        Cli::new(&args(&["sad", "-File"])).unwrap_err(),
        "input file not defined"
    );
}

#[test]
fn project_flag_without_an_id_is_rejected() {
    assert_eq!(
        Cli::new(&args(&["sad", "-Project"])).unwrap_err(),
        "project id missing"
    );
}

#[test]
fn unrecognized_flag_is_rejected() {
    let e = Cli::new(&args(&["sad", "-Frobnicate"])).unwrap_err();
    assert!(e.starts_with("unrecognized option"));
}

#[test]
fn help_prints_usage() {
    let e = Cli::new(&args(&["sad", "-help"])).unwrap_err();
    assert!(e.contains("Usage: sad"));
    assert!(e.contains("-SortByStartDate"));
}
