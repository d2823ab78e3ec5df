use biot_savart::cli::{arg_actions, classify_arg, CliAction};

#[test]
fn no_arguments_open_the_viewer() {
    assert_eq!(arg_actions(&vec![]), vec![CliAction::RunViewer]);
}

#[test]
fn each_argument_gives_one_action_in_order() {
    let args: Vec<String> = vec!["--help", "-t", "--test", "-x", "help"]
        .into_iter()
        .map(String::from)
        .collect();
    assert_eq!(
        arg_actions(&args),
        vec![CliAction::Help, CliAction::Test, CliAction::Test, CliAction::Unknown, CliAction::Unknown]
    );
}

#[test]
fn classify_single_arguments() {
    assert_eq!(classify_arg("--help"), CliAction::Help);
    assert_eq!(classify_arg("-t"), CliAction::Test);
    assert_eq!(classify_arg("--test"), CliAction::Test);
    assert_eq!(classify_arg("--TEST"), CliAction::Unknown);
    assert_eq!(classify_arg(""), CliAction::Unknown);
}
