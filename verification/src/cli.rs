//! The command line of the Android packaging tool, read without any I/O: the
//! task, the options that describe the game, and the exact message for every
//! way the arguments can be wrong. Flags that take a value report their own
//! absence rather than silently falling back to a default.
use crate::android::{
    abi_name_of, debug_text, quoted, underscored, AndroidApp, Abi, Orientation, Profile,
};
use vstd::prelude::*;
use vstd::string::*;

verus! {

/// What the tool was asked to do.
#[derive(Clone, Copy, PartialEq, Eq, Structural, Debug)]
pub enum Task {
    /// Write the Gradle project and stop.
    Generate,
    /// Write it, cross-compile and package an APK.
    Build,
}

/// A command line that asks for work, with every option resolved.
#[derive(Clone, Debug)]
pub struct Invocation {
    /// Generate or build.
    pub task: Task,
    /// The name shown under the launcher icon.
    pub name: String,
    /// The Android package.
    pub package: String,
    /// The Cargo package producing the game's `cdylib`.
    pub crate_name: String,
    /// The library name, where it is not the crate name with underscores.
    pub lib_name: Option<String>,
    /// Where the project is written.
    pub out: String,
    /// The Cargo workspace holding the game.
    pub workspace: String,
    /// Debug or release.
    pub profile: Profile,
    /// Which way up the game runs.
    pub orientation: Orientation,
    /// The architectures asked for, in order; empty for the default set.
    pub abis: Vec<Abi>,
}

/// What a command line asks for.
#[derive(Clone, Debug)]
pub enum Request {
    /// Print the usage text and stop.
    Help,
    /// Generate or build.
    Run(Invocation),
}

/// The options read so far, as plain values.
pub struct Options {
    pub name: Option<Seq<char>>,
    pub package: Option<Seq<char>>,
    pub crate_name: Option<Seq<char>>,
    pub lib_name: Option<Seq<char>>,
    pub out: Seq<char>,
    pub workspace: Seq<char>,
    pub profile: Profile,
    pub orientation: Orientation,
    pub abis: Seq<Abi>,
}

/// The usage text.
pub open spec fn usage_text() -> Seq<char> {
    "verdant-android — package a Verdant game for Android

USAGE:
    verdant-android generate [OPTIONS]   Write the Gradle project
    verdant-android build    [OPTIONS]   Write it, cross-compile and package an APK

REQUIRED:
    --name <NAME>          Name shown under the launcher icon
    --package <ID>         Android package, e.g. com.example.game
    --crate <CRATE>        Cargo package producing the game's cdylib

OPTIONS:
    --lib <NAME>           Library name, if it is not the crate name with
                           hyphens replaced by underscores
    --out <DIR>            Where to write the project [default: target/android]
    --workspace <DIR>      Cargo workspace holding the game [default: .]
    --abi <ABI>            Restrict architectures; repeatable
                           [default: arm64-v8a, armeabi-v7a, x86_64]
    --portrait             Run the game portrait rather than landscape
    --release              Build the release variant

REQUIREMENTS for `build`:
    The Android NDK (ANDROID_NDK_HOME), cargo-ndk, the Rust Android targets,
    Gradle 8.x and a JDK 17 or newer.
"@
}

/// How to use the tool.
pub fn usage() -> (r: &'static str)
    ensures
        r@ == usage_text(),
{
    "verdant-android — package a Verdant game for Android

USAGE:
    verdant-android generate [OPTIONS]   Write the Gradle project
    verdant-android build    [OPTIONS]   Write it, cross-compile and package an APK

REQUIRED:
    --name <NAME>          Name shown under the launcher icon
    --package <ID>         Android package, e.g. com.example.game
    --crate <CRATE>        Cargo package producing the game's cdylib

OPTIONS:
    --lib <NAME>           Library name, if it is not the crate name with
                           hyphens replaced by underscores
    --out <DIR>            Where to write the project [default: target/android]
    --workspace <DIR>      Cargo workspace holding the game [default: .]
    --abi <ABI>            Restrict architectures; repeatable
                           [default: arm64-v8a, armeabi-v7a, x86_64]
    --portrait             Run the game portrait rather than landscape
    --release              Build the release variant

REQUIREMENTS for `build`:
    The Android NDK (ANDROID_NDK_HOME), cargo-ndk, the Rust Android targets,
    Gradle 8.x and a JDK 17 or newer.
"
}

/// The options before any flag is read.
pub open spec fn default_options() -> Options {
    Options {
        name: None,
        package: None,
        crate_name: None,
        lib_name: None,
        out: "target/android"@,
        workspace: "."@,
        profile: Profile::Debug,
        orientation: Orientation::Landscape,
        abis: Seq::empty(),
    }
}

/// The ABI with the given name.
pub open spec fn abi_named(name: Seq<char>) -> Option<Abi> {
    if name == "arm64-v8a"@ {
        Some(Abi::Arm64)
    } else if name == "armeabi-v7a"@ {
        Some(Abi::ArmV7)
    } else if name == "x86_64"@ {
        Some(Abi::X86_64)
    } else {
        None
    }
}

/// Every ABI name, in order, separated by commas.
pub open spec fn known_abis() -> Seq<char> {
    "arm64-v8a"@ + ", "@ + "armeabi-v7a"@ + ", "@ + "x86_64"@
}

/// The flags followed by a value.
pub open spec fn takes_value(flag: Seq<char>) -> bool {
    ||| flag == "--name"@
    ||| flag == "--package"@
    ||| flag == "--crate"@
    ||| flag == "--lib"@
    ||| flag == "--out"@
    ||| flag == "--workspace"@
    ||| flag == "--abi"@
}

/// The options after a flag other than `--abi` is given `value`.
pub open spec fn with_value(o: Options, flag: Seq<char>, value: Seq<char>) -> Options {
    Options {
        name: if flag == "--name"@ { Some(value) } else { o.name },
        package: if flag == "--package"@ { Some(value) } else { o.package },
        crate_name: if flag == "--crate"@ { Some(value) } else { o.crate_name },
        lib_name: if flag == "--lib"@ { Some(value) } else { o.lib_name },
        out: if flag == "--out"@ { value } else { o.out },
        workspace: if flag == "--workspace"@ { value } else { o.workspace },
        profile: o.profile,
        orientation: o.orientation,
        abis: o.abis,
    }
}

/// The options after a flag without a value.
pub open spec fn with_switch(o: Options, flag: Seq<char>) -> Options {
    Options {
        profile: if flag == "--release"@ { Profile::Release } else { o.profile },
        orientation: if flag == "--portrait"@ { Orientation::Portrait } else { o.orientation },
        ..o
    }
}

/// Reads the flags from `args[i]` on into `o`: the options at the end, or
/// the message for the first flag that is wrong. A later value for the same
/// flag replaces an earlier one; `--abi` accumulates.
pub open spec fn scan_options(args: Seq<Seq<char>>, i: int, o: Options) -> Result<Options, Seq<char>>
    decreases args.len() - i,
{
    if i < 0 || i >= args.len() {
        Ok(o)
    } else {
        let flag = args[i];
        if takes_value(flag) {
            if i + 1 >= args.len() {
                Err(flag + " needs a value"@)
            } else {
                let value = args[i + 1];
                if flag == "--abi"@ {
                    match abi_named(value) {
                        Some(abi) => scan_options(args, i + 2, Options { abis: o.abis.push(abi), ..o }),
                        None => Err("unknown ABI "@ + debug_text(value) + "; known: "@ + known_abis()),
                    }
                } else {
                    scan_options(args, i + 2, with_value(o, flag, value))
                }
            }
        } else if flag == "--release"@ || flag == "--portrait"@ {
            scan_options(args, i + 1, with_switch(o, flag))
        } else {
            Err("unknown flag "@ + debug_text(flag) + "\n\n"@ + usage_text())
        }
    }
}

/// What a command line asks for: `Ok(None)` for the usage text, the task and
/// its options, or the message to print.
pub open spec fn parse_spec(args: Seq<Seq<char>>) -> Result<Option<(Task, Options)>, Seq<char>> {
    if args.len() == 0 || args[0] == "--help"@ || args[0] == "-h"@ {
        Ok(None)
    } else if args[0] != "generate"@ && args[0] != "build"@ {
        Err("unknown command "@ + debug_text(args[0]) + "\n\n"@ + usage_text())
    } else {
        match scan_options(args, 1, default_options()) {
            Err(message) => Err(message),
            Ok(o) => if o.name is None {
                Err("--name is required"@)
            } else if o.package is None {
                Err("--package is required"@)
            } else if o.crate_name is None {
                Err("--crate is required"@)
            } else {
                Ok(
                    Some(
                        (
                            if args[0] == "generate"@ {
                                Task::Generate
                            } else {
                                Task::Build
                            },
                            o,
                        ),
                    ),
                )
            },
        }
    }
}

/// An optional string as an optional sequence of characters.
pub open spec fn optional_text(s: Option<String>) -> Option<Seq<char>> {
    match s {
        Some(t) => Some(t@),
        None => None,
    }
}

/// The invocation carries `task` and exactly the options `o`.
pub open spec fn invocation_of(inv: Invocation, task: Task, o: Options) -> bool {
    &&& inv.task == task
    &&& o.name == Some(inv.name@)
    &&& o.package == Some(inv.package@)
    &&& o.crate_name == Some(inv.crate_name@)
    &&& o.lib_name == optional_text(inv.lib_name)
    &&& inv.out@ == o.out
    &&& inv.workspace@ == o.workspace
    &&& inv.profile == o.profile
    &&& inv.orientation == o.orientation
    &&& inv.abis@ == o.abis
}

/// The arguments as character sequences.
pub open spec fn texts(args: Seq<String>) -> Seq<Seq<char>> {
    args.map_values(|s: String| s@)
}

/// The flags are nine different words.
proof fn lemma_flags_distinct()
    ensures
        "--name"@ != "--package"@,
        "--name"@ != "--crate"@,
        "--name"@ != "--lib"@,
        "--name"@ != "--out"@,
        "--name"@ != "--workspace"@,
        "--name"@ != "--abi"@,
        "--name"@ != "--release"@,
        "--name"@ != "--portrait"@,
        "--package"@ != "--crate"@,
        "--package"@ != "--lib"@,
        "--package"@ != "--out"@,
        "--package"@ != "--workspace"@,
        "--package"@ != "--abi"@,
        "--package"@ != "--release"@,
        "--package"@ != "--portrait"@,
        "--crate"@ != "--lib"@,
        "--crate"@ != "--out"@,
        "--crate"@ != "--workspace"@,
        "--crate"@ != "--abi"@,
        "--crate"@ != "--release"@,
        "--crate"@ != "--portrait"@,
        "--lib"@ != "--out"@,
        "--lib"@ != "--workspace"@,
        "--lib"@ != "--abi"@,
        "--lib"@ != "--release"@,
        "--lib"@ != "--portrait"@,
        "--out"@ != "--workspace"@,
        "--out"@ != "--abi"@,
        "--out"@ != "--release"@,
        "--out"@ != "--portrait"@,
        "--workspace"@ != "--abi"@,
        "--workspace"@ != "--release"@,
        "--workspace"@ != "--portrait"@,
        "--abi"@ != "--release"@,
        "--abi"@ != "--portrait"@,
        "--release"@ != "--portrait"@,
{
    reveal_strlit("--name");
    reveal_strlit("--package");
    reveal_strlit("--crate");
    reveal_strlit("--lib");
    reveal_strlit("--out");
    reveal_strlit("--workspace");
    reveal_strlit("--abi");
    reveal_strlit("--release");
    reveal_strlit("--portrait");
    assert("--name"@ != "--package"@) by {
        assert("--name"@.len() != "--package"@.len());
    }
    assert("--name"@ != "--crate"@) by {
        assert("--name"@.len() != "--crate"@.len());
    }
    assert("--name"@ != "--lib"@) by {
        assert("--name"@.len() != "--lib"@.len());
    }
    assert("--name"@ != "--out"@) by {
        assert("--name"@.len() != "--out"@.len());
    }
    assert("--name"@ != "--workspace"@) by {
        assert("--name"@.len() != "--workspace"@.len());
    }
    assert("--name"@ != "--abi"@) by {
        assert("--name"@.len() != "--abi"@.len());
    }
    assert("--name"@ != "--release"@) by {
        assert("--name"@.len() != "--release"@.len());
    }
    assert("--name"@ != "--portrait"@) by {
        assert("--name"@.len() != "--portrait"@.len());
    }
    assert("--package"@ != "--crate"@) by {
        assert("--package"@.len() != "--crate"@.len());
    }
    assert("--package"@ != "--lib"@) by {
        assert("--package"@.len() != "--lib"@.len());
    }
    assert("--package"@ != "--out"@) by {
        assert("--package"@.len() != "--out"@.len());
    }
    assert("--package"@ != "--workspace"@) by {
        assert("--package"@.len() != "--workspace"@.len());
    }
    assert("--package"@ != "--abi"@) by {
        assert("--package"@.len() != "--abi"@.len());
    }
    assert("--package"@ != "--release"@) by {
        assert("--package"@[2] != "--release"@[2]);
    }
    assert("--package"@ != "--portrait"@) by {
        assert("--package"@.len() != "--portrait"@.len());
    }
    assert("--crate"@ != "--lib"@) by {
        assert("--crate"@.len() != "--lib"@.len());
    }
    assert("--crate"@ != "--out"@) by {
        assert("--crate"@.len() != "--out"@.len());
    }
    assert("--crate"@ != "--workspace"@) by {
        assert("--crate"@.len() != "--workspace"@.len());
    }
    assert("--crate"@ != "--abi"@) by {
        assert("--crate"@.len() != "--abi"@.len());
    }
    assert("--crate"@ != "--release"@) by {
        assert("--crate"@.len() != "--release"@.len());
    }
    assert("--crate"@ != "--portrait"@) by {
        assert("--crate"@.len() != "--portrait"@.len());
    }
    assert("--lib"@ != "--out"@) by {
        assert("--lib"@[2] != "--out"@[2]);
    }
    assert("--lib"@ != "--workspace"@) by {
        assert("--lib"@.len() != "--workspace"@.len());
    }
    assert("--lib"@ != "--abi"@) by {
        assert("--lib"@[2] != "--abi"@[2]);
    }
    assert("--lib"@ != "--release"@) by {
        assert("--lib"@.len() != "--release"@.len());
    }
    assert("--lib"@ != "--portrait"@) by {
        assert("--lib"@.len() != "--portrait"@.len());
    }
    assert("--out"@ != "--workspace"@) by {
        assert("--out"@.len() != "--workspace"@.len());
    }
    assert("--out"@ != "--abi"@) by {
        assert("--out"@[2] != "--abi"@[2]);
    }
    assert("--out"@ != "--release"@) by {
        assert("--out"@.len() != "--release"@.len());
    }
    assert("--out"@ != "--portrait"@) by {
        assert("--out"@.len() != "--portrait"@.len());
    }
    assert("--workspace"@ != "--abi"@) by {
        assert("--workspace"@.len() != "--abi"@.len());
    }
    assert("--workspace"@ != "--release"@) by {
        assert("--workspace"@.len() != "--release"@.len());
    }
    assert("--workspace"@ != "--portrait"@) by {
        assert("--workspace"@.len() != "--portrait"@.len());
    }
    assert("--abi"@ != "--release"@) by {
        assert("--abi"@.len() != "--release"@.len());
    }
    assert("--abi"@ != "--portrait"@) by {
        assert("--abi"@.len() != "--portrait"@.len());
    }
    assert("--release"@ != "--portrait"@) by {
        assert("--release"@.len() != "--portrait"@.len());
    }
}

/// The string equals the literal.
fn is_text(s: &String, literal: &str) -> (r: bool)
    ensures
        r == (s@ == literal@),
{
    let other = literal.to_owned();
    s.eq(&other)
}

/// The ABI with the given name, looked up in the list of all of them.
fn find_abi(name: &String) -> (r: Option<Abi>)
    ensures
        r == abi_named(name@),
{
    let all = Abi::all();
    let mut i: usize = 0;
    while i < 3
        invariant
            i <= 3,
            all@ == seq![Abi::Arm64, Abi::ArmV7, Abi::X86_64],
            forall|k: int| 0 <= k < i ==> name@ != abi_name_of(#[trigger] all@[k]),
        decreases 3 - i,
    {
        let abi = all[i];
        if is_text(name, abi.name()) {
            return Some(abi);
        }
        i = i + 1;
    }
    assert(name@ != "arm64-v8a"@ && name@ != "armeabi-v7a"@ && name@ != "x86_64"@) by {
        assert(all@[0] == Abi::Arm64);
        assert(all@[1] == Abi::ArmV7);
        assert(all@[2] == Abi::X86_64);
    }
    None
}

/// The names of all the ABIs, joined with commas.
fn known_abi_list() -> (r: String)
    ensures
        r@ == known_abis(),
{
    let all = Abi::all();
    let mut text = all[0].name().to_owned();
    text.append(", ");
    text.append(all[1].name());
    text.append(", ");
    text.append(all[2].name());
    text
}

/// A message: `head`, the text shown with `{:?}`, then `tail`.
fn quoted_message(head: &str, shown: &String, tail: &str) -> (r: String)
    ensures
        r@ == head@ + debug_text(shown@) + tail@,
{
    let mut text = head.to_owned();
    let q = quoted(shown.as_str());
    text.append(q.as_str());
    text.append(tail);
    text
}

/// Reads the tool's arguments (without the program's own name): the usage
/// text is asked for by `--help`, `-h` or nothing at all; otherwise the first
/// argument is the task and the rest are flags. Every error is the message
/// the tool prints.
pub fn parse_arguments(arguments: &Vec<String>) -> (r: Result<Request, String>)
    ensures
        match parse_spec(texts(arguments@)) {
            Ok(None) => r matches Ok(Request::Help),
            Ok(Some(run)) => r matches Ok(Request::Run(inv)) && invocation_of(inv, run.0, run.1),
            Err(message) => r matches Err(e) && e@ == message,
        },
{
    let ghost args = texts(arguments@);
    assert(args.len() == arguments@.len());
    if arguments.len() == 0 {
        return Ok(Request::Help);
    }
    let first = &arguments[0];
    assert(args[0] == first@);
    if is_text(first, "--help") || is_text(first, "-h") {
        return Ok(Request::Help);
    }
    let task = if is_text(first, "generate") {
        Task::Generate
    } else if is_text(first, "build") {
        Task::Build
    } else {
        let head = quoted_message("unknown command ", first, "\n\n");
        let mut text = head;
        text.append(usage());
        return Err(text);
    };
    let mut name: Option<String> = None;
    let mut package: Option<String> = None;
    let mut crate_name: Option<String> = None;
    let mut lib_name: Option<String> = None;
    let mut out = "target/android".to_owned();
    let mut workspace = ".".to_owned();
    let mut profile = Profile::Debug;
    let mut orientation = Orientation::Landscape;
    let mut abis: Vec<Abi> = Vec::new();
    let mut i: usize = 1;
    let ghost whole = scan_options(args, 1, default_options());
    loop
        invariant
            args == texts(arguments@),
            args.len() == arguments@.len(),
            args.len() > 0,
            args[0] != "--help"@ && args[0] != "-h"@,
            args[0] == "generate"@ || args[0] == "build"@,
            task == (if args[0] == "generate"@ {
                Task::Generate
            } else {
                Task::Build
            }),
            whole == scan_options(args, 1, default_options()),
            1 <= i <= arguments@.len() + 1,
            scan_options(
                args,
                i as int,
                Options {
                    name: optional_text(name),
                    package: optional_text(package),
                    crate_name: optional_text(crate_name),
                    lib_name: optional_text(lib_name),
                    out: out@,
                    workspace: workspace@,
                    profile,
                    orientation,
                    abis: abis@,
                },
            ) == whole,
        ensures
            i >= arguments@.len(),
            scan_options(
                args,
                i as int,
                Options {
                    name: optional_text(name),
                    package: optional_text(package),
                    crate_name: optional_text(crate_name),
                    lib_name: optional_text(lib_name),
                    out: out@,
                    workspace: workspace@,
                    profile,
                    orientation,
                    abis: abis@,
                },
            ) == whole,
        decreases arguments@.len() + 1 - i,
    {
        if i >= arguments.len() {
            break;
        }
        let flag = &arguments[i];
        assert(args[i as int] == flag@);
        let ghost before = Options {
            name: optional_text(name),
            package: optional_text(package),
            crate_name: optional_text(crate_name),
            lib_name: optional_text(lib_name),
            out: out@,
            workspace: workspace@,
            profile,
            orientation,
            abis: abis@,
        };
        if is_text(flag, "--release") {
            profile = Profile::Release;
            i = i + 1;
        } else if is_text(flag, "--portrait") {
            orientation = Orientation::Portrait;
            i = i + 1;
        } else if is_text(flag, "--name") || is_text(flag, "--package") || is_text(flag, "--crate")
            || is_text(flag, "--lib") || is_text(flag, "--out") || is_text(flag, "--workspace")
            || is_text(flag, "--abi") {
            if i + 1 >= arguments.len() {
                let mut text = flag.clone();
                text.append(" needs a value");
                proof {
                    assert(whole == Err::<Options, Seq<char>>(flag@ + " needs a value"@));
                }
                return Err(text);
            }
            let value = &arguments[i + 1];
            assert(args[i + 1] == value@);
            if is_text(flag, "--abi") {
                match find_abi(value) {
                    Some(abi) => {
                        abis.push(abi);
                    },
                    None => {
                        let head = quoted_message("unknown ABI ", value, "; known: ");
                        let mut text = head;
                        let known = known_abi_list();
                        text.append(known.as_str());
                        return Err(text);
                    },
                }
            } else if is_text(flag, "--name") {
                name = Some(value.clone());
            } else if is_text(flag, "--package") {
                package = Some(value.clone());
            } else if is_text(flag, "--crate") {
                crate_name = Some(value.clone());
            } else if is_text(flag, "--lib") {
                lib_name = Some(value.clone());
            } else if is_text(flag, "--out") {
                out = value.clone();
            } else {
                workspace = value.clone();
            }
            i = i + 2;
        } else {
            let head = quoted_message("unknown flag ", flag, "\n\n");
            let mut text = head;
            text.append(usage());
            return Err(text);
        }
        proof {
            let after = Options {
                name: optional_text(name),
                package: optional_text(package),
                crate_name: optional_text(crate_name),
                lib_name: optional_text(lib_name),
                out: out@,
                workspace: workspace@,
                profile,
                orientation,
                abis: abis@,
            };
            lemma_flags_distinct();
            if takes_value(flag@) {
                let old_i = i - 2;
                let value = args[old_i + 1];
                if flag@ == "--abi"@ {
                    assert(after == Options { abis: before.abis.push(abi_named(value)->Some_0), ..before });
                } else {
                    assert(after == with_value(before, flag@, value));
                }
                assert(scan_options(args, old_i as int, before) == scan_options(args, i as int, after));
            } else {
                let old_i = i - 1;
                assert(after == with_switch(before, flag@));
                assert(scan_options(args, old_i as int, before) == scan_options(args, i as int, after));
            }
        }
    }
    let name = match name {
        Some(n) => n,
        None => {
            return Err("--name is required".to_owned());
        },
    };
    let package = match package {
        Some(p) => p,
        None => {
            return Err("--package is required".to_owned());
        },
    };
    let crate_name = match crate_name {
        Some(c) => c,
        None => {
            return Err("--crate is required".to_owned());
        },
    };
    Ok(
        Request::Run(
            Invocation {
                task,
                name,
                package,
                crate_name,
                lib_name,
                out,
                workspace,
                profile,
                orientation,
                abis,
            },
        ),
    )
}

impl Invocation {
    /// The application this command line describes: the defaults of
    /// [`AndroidApp::new`], with the orientation, library name and
    /// architectures that were asked for.
    pub fn app(&self) -> (r: AndroidApp)
        ensures
            r.app_name@ == self.name@,
            r.package@ == self.package@,
            r.crate_name@ == self.crate_name@,
            r.lib_name@ == match self.lib_name {
                Some(lib) => lib@,
                None => underscored(self.crate_name@),
            },
            r.orientation == self.orientation,
            r.abis@ == if self.abis@.len() == 0 {
                seq![Abi::Arm64, Abi::ArmV7, Abi::X86_64]
            } else {
                self.abis@
            },
    {
        let mut app = AndroidApp::new(self.name.as_str(), self.package.as_str(), self.crate_name.as_str())
            .with_orientation(self.orientation);
        match &self.lib_name {
            Some(lib) => {
                app = app.with_lib_name(lib.as_str());
            },
            None => {},
        }
        if self.abis.len() > 0 {
            app = app.with_abis(self.abis.clone());
        }
        app
    }
}

} // verus!
