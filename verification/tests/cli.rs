use verdant::android::{Abi, Orientation, Profile};
use verdant::cli::{parse_arguments, usage, Request, Task};

fn args(words: &[&str]) -> Vec<String> {
    words.iter().map(|w| (*w).to_owned()).collect()
}

fn error_of(words: &[&str]) -> String {
    match parse_arguments(&args(words)) {
        Err(message) => message,
        Ok(_) => panic!("expected an error for {words:?}"),
    }
}

#[test]
fn no_arguments_or_help_ask_for_the_usage_text() {
    assert!(matches!(parse_arguments(&args(&[])), Ok(Request::Help)));
    assert!(matches!(parse_arguments(&args(&["--help"])), Ok(Request::Help)));
    assert!(matches!(parse_arguments(&args(&["-h", "--name"])), Ok(Request::Help)));
}

#[test]
fn an_unknown_command_is_named_and_followed_by_the_usage() {
    let message = error_of(&["frobnicate"]);
    assert_eq!(message, format!("unknown command \"frobnicate\"\n\n{}", usage()));
}

#[test]
fn a_flag_without_its_value_reports_itself() {
    assert_eq!(error_of(&["build", "--name"]), "--name needs a value");
    assert_eq!(error_of(&["generate", "--name", "x", "--out"]), "--out needs a value");
}

#[test]
fn an_unknown_abi_lists_the_known_ones() {
    assert_eq!(
        error_of(&["build", "--abi", "mips"]),
        "unknown ABI \"mips\"; known: arm64-v8a, armeabi-v7a, x86_64"
    );
}

#[test]
fn an_unknown_flag_is_named_and_followed_by_the_usage() {
    let message = error_of(&["build", "--colour", "green"]);
    assert_eq!(message, format!("unknown flag \"--colour\"\n\n{}", usage()));
}

#[test]
fn the_three_required_options_are_checked_in_order() {
    assert_eq!(error_of(&["build"]), "--name is required");
    assert_eq!(error_of(&["build", "--name", "Game"]), "--package is required");
    assert_eq!(
        error_of(&["build", "--name", "Game", "--package", "com.example.game"]),
        "--crate is required"
    );
}

#[test]
fn a_full_command_line_is_read_into_an_invocation() {
    let request = parse_arguments(&args(&[
        "build",
        "--name",
        "Verdant Hollow",
        "--package",
        "dev.verdant.hollow",
        "--crate",
        "verdant-hollow",
        "--lib",
        "hollow",
        "--out",
        "out/android",
        "--workspace",
        "games",
        "--abi",
        "x86_64",
        "--abi",
        "arm64-v8a",
        "--release",
        "--portrait",
    ]))
    .unwrap();
    let Request::Run(invocation) = request else {
        panic!("expected a run");
    };
    assert_eq!(invocation.task, Task::Build);
    assert_eq!(invocation.name, "Verdant Hollow");
    assert_eq!(invocation.package, "dev.verdant.hollow");
    assert_eq!(invocation.crate_name, "verdant-hollow");
    assert_eq!(invocation.lib_name.as_deref(), Some("hollow"));
    assert_eq!(invocation.out, "out/android");
    assert_eq!(invocation.workspace, "games");
    assert_eq!(invocation.abis, vec![Abi::X86_64, Abi::Arm64]);
    assert_eq!(invocation.profile, Profile::Release);
    assert_eq!(invocation.orientation, Orientation::Portrait);

    let app = invocation.app();
    assert_eq!(app.lib_name, "hollow");
    assert_eq!(app.abis, vec![Abi::X86_64, Abi::Arm64]);
    assert_eq!(app.orientation, Orientation::Portrait);
}

#[test]
fn defaults_apply_where_nothing_was_asked_for() {
    let request = parse_arguments(&args(&[
        "generate",
        "--name",
        "My Game",
        "--package",
        "com.example.game",
        "--crate",
        "my-game",
    ]))
    .unwrap();
    let Request::Run(invocation) = request else {
        panic!("expected a run");
    };
    assert_eq!(invocation.task, Task::Generate);
    assert_eq!(invocation.out, "target/android");
    assert_eq!(invocation.workspace, ".");
    assert_eq!(invocation.profile, Profile::Debug);
    assert_eq!(invocation.orientation, Orientation::Landscape);
    assert!(invocation.lib_name.is_none());
    assert!(invocation.abis.is_empty());

    let app = invocation.app();
    assert_eq!(app.lib_name, "my_game");
    assert_eq!(app.abis, vec![Abi::Arm64, Abi::ArmV7, Abi::X86_64]);
    assert!(app.validate().is_ok());
}

#[test]
fn a_later_value_replaces_an_earlier_one() {
    let request = parse_arguments(&args(&[
        "generate", "--name", "First", "--name", "Second", "--package", "a.b", "--crate", "c",
    ]))
    .unwrap();
    let Request::Run(invocation) = request else {
        panic!("expected a run");
    };
    assert_eq!(invocation.name, "Second");
}

#[test]
fn a_value_that_looks_like_a_flag_is_still_a_value() {
    let request = parse_arguments(&args(&[
        "generate", "--name", "--package", "--package", "a.b", "--crate", "c",
    ]))
    .unwrap();
    let Request::Run(invocation) = request else {
        panic!("expected a run");
    };
    assert_eq!(invocation.name, "--package");
    assert_eq!(invocation.package, "a.b");
}

#[test]
fn cargo_is_asked_for_each_architecture_then_the_library() {
    let app = verdant::android::AndroidApp::new("Game", "com.example.game", "my-game")
        .with_abis(vec![Abi::Arm64, Abi::X86_64]);
    let arguments = app.cargo_ndk_arguments("out/app/src/main/jniLibs", Profile::Release);
    assert_eq!(
        arguments,
        vec![
            "ndk",
            "--target",
            "arm64-v8a",
            "--target",
            "x86_64",
            "--platform",
            "26",
            "--output-dir",
            "out/app/src/main/jniLibs",
            "--",
            "build",
            "--lib",
            "-p",
            "my-game",
            "--release",
        ]
    );
    let debug = app.cargo_ndk_arguments("x", Profile::Debug);
    assert_eq!(debug.last().map(String::as_str), Some("my-game"));
}
