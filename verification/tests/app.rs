use sudoku_solver::app::AppStep;
use sudoku_solver::{App, AppConfig};

fn args_of(args: &[&str]) -> Vec<String> {
    args.iter().map(|arg| String::from(*arg)).collect()
}

fn step_of(args: &[&str]) -> AppStep {
    App::new(AppConfig::from_args(&args_of(args))).first_step()
}

#[test]
fn version_is_asked_for() {
    let app = App::new(AppConfig::new(None, true));
    assert!(matches!(app.first_step(), AppStep::PrintVersion));

    let app = App::new(AppConfig::new(Some(String::from("puzzle.txt")), true));
    assert!(matches!(app.first_step(), AppStep::PrintVersion));
}

#[test]
fn missing_file_name_is_told() {
    let app = App::new(AppConfig::new(None, false));
    assert!(matches!(app.first_step(), AppStep::MissingFileName));
}

#[test]
fn named_file_is_solved() {
    let app = App::new(AppConfig::new(Some(String::from("puzzle.txt")), false));
    match app.first_step() {
        AppStep::SolveFile(name) => assert_eq!(name, "puzzle.txt"),
        _ => panic!("the file should be read"),
    }
}

#[test]
fn arguments_name_the_file() {
    match step_of(&["puzzle.txt"]) {
        AppStep::SolveFile(name) => assert_eq!(name, "puzzle.txt"),
        _ => panic!("the file should be read"),
    }
    match step_of(&["first.txt", "second.txt"]) {
        AppStep::SolveFile(name) => assert_eq!(name, "first.txt"),
        _ => panic!("the file should be read"),
    }
}

#[test]
fn arguments_ask_for_the_version() {
    assert!(matches!(step_of(&["--version"]), AppStep::PrintVersion));
    assert!(matches!(step_of(&["puzzle.txt", "--version"]), AppStep::PrintVersion));
    assert!(matches!(step_of(&["--version", "puzzle.txt"]), AppStep::PrintVersion));
    assert!(matches!(step_of(&["a", "b", "--version", "c"]), AppStep::PrintVersion));
}

#[test]
fn no_arguments_name_no_file() {
    assert!(matches!(step_of(&[]), AppStep::MissingFileName));
}

#[test]
fn other_flags_are_file_names() {
    match step_of(&["--help"]) {
        AppStep::SolveFile(name) => assert_eq!(name, "--help"),
        _ => panic!("the argument should be taken as a file name"),
    }
    match step_of(&["-version"]) {
        AppStep::SolveFile(name) => assert_eq!(name, "-version"),
        _ => panic!("the argument should be taken as a file name"),
    }
}
