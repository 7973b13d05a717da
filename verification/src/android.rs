//! The Android project a game is packaged with: its settings, their
//! validation, and the Gradle project generated from them.
//!
//! A single [`AndroidApp`] writes both the API level handed to the NDK and the
//! `minSdk` in the Gradle file, so the two cannot drift apart.
use crate::templates;
use crate::text::{chars_of, decimal, decimal_spec, push_char, replace, replace_all};
use vstd::prelude::*;
use vstd::string::*;

verus! {

/// The API level below which the project is refused: where AAudio appears.
pub const MINIMUM_SDK: u32 = 26;

/// The Android SDK the generated project compiles against.
pub const DEFAULT_COMPILE_SDK: u32 = 35;

/// A CPU architecture an APK can carry.
#[derive(Clone, Copy, PartialEq, Eq, Structural, PartialOrd, Ord, Debug, Hash)]
pub enum Abi {
    /// 64-bit ARM.
    Arm64,
    /// 32-bit ARM, for older hardware.
    ArmV7,
    /// 64-bit x86, which is what the emulator runs.
    X86_64,
}

impl Abi {
    /// Every ABI, which is what a release build carries.
    pub fn all() -> (r: [Abi; 3])
        ensures
            r@ == seq![Abi::Arm64, Abi::ArmV7, Abi::X86_64],
    {
        let r = [Abi::Arm64, Abi::ArmV7, Abi::X86_64];
        assert(r@ =~= seq![Abi::Arm64, Abi::ArmV7, Abi::X86_64]);
        r
    }

    /// The name Android and `cargo-ndk` know it by.
    pub fn name(self) -> (r: &'static str)
        ensures
            r@ == match self {
                Abi::Arm64 => "arm64-v8a"@,
                Abi::ArmV7 => "armeabi-v7a"@,
                Abi::X86_64 => "x86_64"@,
            },
    {
        match self {
            Abi::Arm64 => "arm64-v8a",
            Abi::ArmV7 => "armeabi-v7a",
            Abi::X86_64 => "x86_64",
        }
    }

    /// The Rust target triple that produces it.
    pub fn target(self) -> (r: &'static str)
        ensures
            r@ == match self {
                Abi::Arm64 => "aarch64-linux-android"@,
                Abi::ArmV7 => "armv7-linux-androideabi"@,
                Abi::X86_64 => "x86_64-linux-android"@,
            },
    {
        match self {
            Abi::Arm64 => "aarch64-linux-android",
            Abi::ArmV7 => "armv7-linux-androideabi",
            Abi::X86_64 => "x86_64-linux-android",
        }
    }
}

/// Which way up the game runs.
#[derive(Clone, Copy, PartialEq, Eq, Structural, Debug)]
pub enum Orientation {
    /// Either landscape, following the device.
    Landscape,
    /// Either portrait.
    Portrait,
    /// Whatever the device is doing.
    Sensor,
}

/// The value Android's manifest expects for an orientation.
pub open spec fn manifest_value_of(o: Orientation) -> Seq<char> {
    match o {
        Orientation::Landscape => "sensorLandscape"@,
        Orientation::Portrait => "sensorPortrait"@,
        Orientation::Sensor => "fullSensor"@,
    }
}

impl Orientation {
    /// The value Android's manifest expects.
    pub fn manifest_value(self) -> (r: &'static str)
        ensures
            r@ == manifest_value_of(self),
    {
        match self {
            Orientation::Landscape => "sensorLandscape",
            Orientation::Portrait => "sensorPortrait",
            Orientation::Sensor => "fullSensor",
        }
    }
}

impl Default for Orientation {
    fn default() -> (r: Orientation)
        ensures
            r == Orientation::Landscape,
    {
        Orientation::Landscape
    }
}

/// Debug or release.
#[derive(Clone, Copy, PartialEq, Eq, Structural, Debug)]
pub enum Profile {
    /// Unoptimised, signed with the standard debug key.
    Debug,
    /// Optimised and unsigned.
    Release,
}

impl Profile {
    /// The Gradle task that assembles it.
    pub fn gradle_task(self) -> (r: &'static str)
        ensures
            r@ == match self {
                Profile::Debug => "assembleDebug"@,
                Profile::Release => "assembleRelease"@,
            },
    {
        match self {
            Profile::Debug => "assembleDebug",
            Profile::Release => "assembleRelease",
        }
    }

    /// The subdirectory Gradle writes the APK into.
    pub fn output_directory(self) -> (r: &'static str)
        ensures
            r@ == match self {
                Profile::Debug => "debug"@,
                Profile::Release => "release"@,
            },
    {
        match self {
            Profile::Debug => "debug",
            Profile::Release => "release",
        }
    }
}

impl Default for Profile {
    fn default() -> (r: Profile)
        ensures
            r == Profile::Debug,
    {
        Profile::Debug
    }
}

/// Why an Android build did not finish.
#[derive(Clone, Debug, PartialEq, Eq)]
pub enum AndroidError {
    /// A setting was rejected before anything was written.
    Invalid(String),
    /// A file could not be written or read; the rendered I/O error.
    Io(String),
    /// A required tool was not on the path.
    MissingTool {
        /// What was being looked for.
        tool: String,
        /// How to get it.
        hint: String,
    },
    /// A tool ran and failed.
    Failed {
        /// Which tool.
        tool: String,
        /// Its exit status, rendered.
        status: String,
    },
}

/// The message an error reads as.
pub open spec fn error_message(e: AndroidError) -> Seq<char> {
    match e {
        AndroidError::Invalid(detail) => detail@,
        AndroidError::Io(error) => "file error: "@ + error@,
        AndroidError::MissingTool { tool, hint } => tool@ + " is not available. "@ + hint@,
        AndroidError::Failed { tool, status } => tool@ + " failed ("@ + status@ + ")"@,
    }
}

impl AndroidError {
    /// The message this error reads as.
    pub fn message(&self) -> (r: String)
        ensures
            r@ == error_message(*self),
    {
        match self {
            AndroidError::Invalid(detail) => detail.clone(),
            AndroidError::Io(error) => {
                let mut text = "file error: ".to_owned();
                text.append(error.as_str());
                text
            },
            AndroidError::MissingTool { tool, hint } => {
                let mut text = tool.clone();
                text.append(" is not available. ");
                text.append(hint.as_str());
                text
            },
            AndroidError::Failed { tool, status } => {
                let mut text = tool.clone();
                text.append(" failed (");
                text.append(status.as_str());
                text.append(")");
                text
            },
        }
    }
}

/// The name an architecture is known by.
pub open spec fn abi_name_of(abi: Abi) -> Seq<char> {
    match abi {
        Abi::Arm64 => "arm64-v8a"@,
        Abi::ArmV7 => "armeabi-v7a"@,
        Abi::X86_64 => "x86_64"@,
    }
}

/// `--target` and the name, for each architecture in order.
pub open spec fn target_arguments(abis: Seq<Abi>) -> Seq<Seq<char>>
    decreases abis.len(),
{
    if abis.len() == 0 {
        Seq::empty()
    } else {
        target_arguments(abis.drop_last()) + seq!["--target"@, abi_name_of(abis.last())]
    }
}

/// The arguments `cargo` is run with to cross-compile the game.
pub open spec fn cargo_ndk_arguments_of(app: AndroidApp, output_dir: Seq<char>, profile: Profile) -> Seq<
    Seq<char>,
> {
    seq!["ndk"@] + target_arguments(app.abis@) + seq![
        "--platform"@,
        decimal_spec(app.min_sdk as nat),
        "--output-dir"@,
        output_dir,
        "--"@,
        "build"@,
        "--lib"@,
        "-p"@,
        app.crate_name@,
    ] + match profile {
        Profile::Release => seq!["--release"@],
        Profile::Debug => Seq::empty(),
    }
}

/// How `{:?}` renders a string: quoted, with quotes, backslashes and
/// control characters escaped.
pub uninterp spec fn debug_text(s: Seq<char>) -> Seq<char>;

/// The string formatted with `{:?}`.
#[verifier::external_body]
pub(crate) fn quoted(s: &str) -> (r: String)
    ensures
        r@ == debug_text(s@),
{
    format!("{s:?}")
}

/// Whether a character has Unicode's `White_Space` property: the 25 code
/// points U+0009 to U+000D, U+0020, U+0085, U+00A0, U+1680, U+2000 to
/// U+200A, U+2028, U+2029, U+202F, U+205F and U+3000.
pub open spec fn white_space(c: char) -> bool {
    let v = c as u32;
    ||| 0x09 <= v <= 0x0d
    ||| v == 0x20
    ||| v == 0x85
    ||| v == 0xa0
    ||| v == 0x1680
    ||| 0x2000 <= v <= 0x200a
    ||| v == 0x2028
    ||| v == 0x2029
    ||| v == 0x202f
    ||| v == 0x205f
    ||| v == 0x3000
}

/// True when `c` has the `White_Space` property.
fn is_white_space(c: char) -> (r: bool)
    ensures
        r == white_space(c),
{
    let v = c as u32;
    (0x09 <= v && v <= 0x0d) || v == 0x20 || v == 0x85 || v == 0xa0 || v == 0x1680 || (0x2000 <= v
        && v <= 0x200a) || v == 0x2028 || v == 0x2029 || v == 0x202f || v == 0x205f || v == 0x3000
}

/// An ASCII decimal digit.
pub open spec fn is_digit(c: char) -> bool {
    '0' <= c <= '9'
}

/// An ASCII letter or digit.
pub open spec fn is_ascii_alnum(c: char) -> bool {
    ||| '0' <= c <= '9'
    ||| 'a' <= c <= 'z'
    ||| 'A' <= c <= 'Z'
}

/// The ASCII upper-case form of a character.
pub open spec fn ascii_upper(c: char) -> char {
    if 'a' <= c <= 'z' {
        ((c as u32) - 32) as char
    } else {
        c
    }
}

/// Splitting the package on dots gives fewer than two segments or an
/// empty one.
pub open spec fn bad_segments(p: Seq<char>) -> bool {
    ||| !p.contains('.')
    ||| p[0] == '.'
    ||| p.last() == '.'
    ||| exists|i: int| 0 <= i < p.len() - 1 && p[i] == '.' && #[trigger] p[i + 1] == '.'
}

/// Some segment of the package starts with a digit.
pub open spec fn digit_segment(p: Seq<char>) -> bool {
    ||| (p.len() > 0 && is_digit(p[0]))
    ||| exists|i: int| 0 <= i < p.len() - 1 && p[i] == '.' && is_digit(#[trigger] p[i + 1])
}

/// Every character is white space, so the trimmed name is empty.
pub open spec fn blank(s: Seq<char>) -> bool {
    forall|i: int| 0 <= i < s.len() ==> white_space(#[trigger] s[i])
}

/// The five characters XML cannot carry literally, escaped.
pub open spec fn escape_char(c: char) -> Seq<char> {
    if c == '&' {
        "&amp;"@
    } else if c == '<' {
        "&lt;"@
    } else if c == '>' {
        "&gt;"@
    } else if c == '"' {
        "&quot;"@
    } else if c == '\'' {
        "&apos;"@
    } else {
        seq![c]
    }
}

/// `s` with XML's special characters escaped.
pub open spec fn escape_xml_spec(s: Seq<char>) -> Seq<char>
    decreases s.len(),
{
    if s.len() == 0 {
        Seq::empty()
    } else {
        escape_xml_spec(s.drop_last()) + escape_char(s.last())
    }
}

/// Words of `s` (split at spaces) joined with each first letter in upper
/// case.
pub open spec fn camel_words(s: Seq<char>) -> Seq<char>
    decreases s.len(),
{
    if s.len() == 0 {
        Seq::empty()
    } else {
        let c = s.last();
        camel_words(s.drop_last()) + if c == ' ' {
            Seq::empty()
        } else if s.len() == 1 || s[s.len() - 2] == ' ' {
            seq![ascii_upper(c)]
        } else {
            seq![c]
        }
    }
}

/// A display name as a Gradle project name: letters, digits and spaces
/// kept, words capitalised and joined; `Game` when nothing is left.
pub open spec fn project_name_spec(s: Seq<char>) -> Seq<char> {
    let joined = camel_words(s.filter(|c: char| is_ascii_alnum(c) || c == ' '));
    if joined.len() == 0 {
        "Game"@
    } else {
        joined
    }
}

/// `s` with every hyphen replaced by an underscore.
pub open spec fn underscored(s: Seq<char>) -> Seq<char> {
    replace_all(s, "-"@, "_"@)
}

/// Everything the engine needs to produce an Android application.
#[derive(Clone, Debug)]
pub struct AndroidApp {
    /// The name shown under the launcher icon.
    pub app_name: String,
    /// The Android package, which is also the application id.
    pub package: String,
    /// The Cargo package that produces the game's `cdylib`.
    pub crate_name: String,
    /// The shared library's name, which the manifest points the activity at.
    pub lib_name: String,
    /// Which way up the game runs.
    pub orientation: Orientation,
    /// Architectures the APK carries.
    pub abis: Vec<Abi>,
    /// The API level declared as `minSdk` and handed to the NDK.
    pub min_sdk: u32,
    /// The API level the project compiles against.
    pub compile_sdk: u32,
    /// Monotonic build number.
    pub version_code: u32,
    /// Human-readable version.
    pub version_name: String,
    /// The launcher icon's background, as an Android colour literal.
    pub icon_background: String,
}

/// The message of the first rule `app` breaks, if any, in the order the
/// rules are checked.
pub open spec fn validation_message(app: AndroidApp) -> Option<Seq<char>> {
    if app.min_sdk < MINIMUM_SDK {
        Some(
            "minimum SDK "@ + decimal_spec(app.min_sdk as nat)
                + " is below 26, where AAudio appears; audio would fail to link"@,
        )
    } else if app.compile_sdk < app.min_sdk {
        Some(
            "compile SDK "@ + decimal_spec(app.compile_sdk as nat) + " is below the minimum SDK "@
                + decimal_spec(app.min_sdk as nat),
        )
    } else if app.abis@.len() == 0 {
        Some("an APK with no architectures would install nowhere"@)
    } else if bad_segments(app.package@) {
        Some(
            "package "@ + debug_text(app.package@)
                + " must have at least two dot-separated segments"@,
        )
    } else if digit_segment(app.package@) {
        Some("package "@ + debug_text(app.package@) + " has a segment starting with a digit"@)
    } else if app.lib_name@.contains('-') {
        Some(
            "library name "@ + debug_text(app.lib_name@) + " contains a hyphen; Cargo produces lib"@
                + underscored(app.lib_name@) + ".so"@,
        )
    } else if blank(app.app_name@) {
        Some("the application needs a name to show under its icon"@)
    } else {
        None
    }
}

/// The placeholder substitutions applied to the templates, in ascending
/// order of placeholder.
pub open spec fn substitutions_of(app: AndroidApp) -> Seq<(Seq<char>, Seq<char>)> {
    seq![
        ("{{APP_NAME}}"@, escape_xml_spec(app.app_name@)),
        ("{{COMPILE_SDK}}"@, decimal_spec(app.compile_sdk as nat)),
        ("{{ICON_BACKGROUND}}"@, app.icon_background@),
        ("{{LIB_NAME}}"@, app.lib_name@),
        ("{{MIN_SDK}}"@, decimal_spec(app.min_sdk as nat)),
        ("{{ORIENTATION}}"@, manifest_value_of(app.orientation)),
        ("{{PACKAGE}}"@, app.package@),
        ("{{PROJECT_NAME}}"@, project_name_spec(app.app_name@)),
        ("{{VERSION_CODE}}"@, decimal_spec(app.version_code as nat)),
        ("{{VERSION_NAME}}"@, app.version_name@),
    ]
}

/// `text` with each substitution applied in turn.
pub open spec fn fill_spec(text: Seq<char>, subs: Seq<(Seq<char>, Seq<char>)>) -> Seq<char>
    decreases subs.len(),
{
    if subs.len() == 0 {
        text
    } else {
        fill_spec(replace_all(text, subs[0].0, subs[0].1), subs.drop_first())
    }
}

/// The generated project: each file's path from the project root and its
/// contents, the templated ones filled in.
pub open spec fn project_files(app: AndroidApp) -> Seq<(Seq<char>, Seq<char>)> {
    let subs = substitutions_of(app);
    seq![
        ("settings.gradle.kts"@, fill_spec(templates::SETTINGS_GRADLE@, subs)),
        ("build.gradle.kts"@, fill_spec(templates::ROOT_BUILD_GRADLE@, subs)),
        ("gradle.properties"@, templates::GRADLE_PROPERTIES@),
        ("gradle/wrapper/gradle-wrapper.properties"@, templates::GRADLE_WRAPPER@),
        ("app/build.gradle.kts"@, fill_spec(templates::APP_BUILD_GRADLE@, subs)),
        ("app/src/main/AndroidManifest.xml"@, fill_spec(templates::ANDROID_MANIFEST@, subs)),
        ("app/src/main/res/values/strings.xml"@, fill_spec(templates::STRINGS_XML@, subs)),
        ("app/src/main/res/values/colors.xml"@, fill_spec(templates::COLORS_XML@, subs)),
        ("app/src/main/res/drawable/ic_launcher_foreground.xml"@, templates::LAUNCHER_FOREGROUND@),
        ("app/src/main/res/mipmap-anydpi-v26/ic_launcher.xml"@, templates::LAUNCHER_ICON@),
        ("app/src/main/res/mipmap-anydpi-v26/ic_launcher_round.xml"@, templates::LAUNCHER_ICON_ROUND@),
    ]
}

/// `s` with XML's special characters escaped, so that a game called
/// `Bob & Sons` still produces a `strings.xml` that parses.
pub fn escape_xml(text: &str) -> (r: String)
    ensures
        r@ == escape_xml_spec(text@),
{
    let chars = chars_of(text);
    let mut escaped = String::new();
    let mut i: usize = 0;
    while i < chars.len()
        invariant
            i <= chars@.len(),
            chars@ == text@,
            escaped@ == escape_xml_spec(chars@.take(i as int)),
        decreases chars@.len() - i,
    {
        let c = chars[i];
        if c == '&' {
            escaped.append("&amp;");
        } else if c == '<' {
            escaped.append("&lt;");
        } else if c == '>' {
            escaped.append("&gt;");
        } else if c == '"' {
            escaped.append("&quot;");
        } else if c == '\'' {
            escaped.append("&apos;");
        } else {
            push_char(&mut escaped, c);
        }
        proof {
            assert(chars@.take(i + 1).drop_last() =~= chars@.take(i as int));
            assert(chars@.take(i + 1).last() == c);
        }
        i = i + 1;
    }
    assert(chars@.take(chars@.len() as int) =~= chars@);
    escaped
}

/// A display name turned into something Gradle accepts as a project name.
pub fn sanitise_project_name(name: &str) -> (r: String)
    ensures
        r@ == project_name_spec(name@),
{
    let chars = chars_of(name);
    let ghost keep = |c: char| is_ascii_alnum(c) || c == ' ';
    let mut cleaned: Vec<char> = Vec::new();
    let mut i: usize = 0;
    while i < chars.len()
        invariant
            i <= chars@.len(),
            chars@ == name@,
            keep == (|c: char| is_ascii_alnum(c) || c == ' '),
            cleaned@ == chars@.take(i as int).filter(keep),
        decreases chars@.len() - i,
    {
        let c = chars[i];
        proof {
            reveal(Seq::filter);
            assert(chars@.take(i + 1).drop_last() =~= chars@.take(i as int));
            assert(chars@.take(i + 1).last() == c);
            assert(chars@.take(i + 1).filter(keep) == if keep(c) {
                chars@.take(i as int).filter(keep).push(c)
            } else {
                chars@.take(i as int).filter(keep)
            });
        }
        if (c >= '0' && c <= '9') || (c >= 'a' && c <= 'z') || (c >= 'A' && c <= 'Z') || c == ' ' {
            cleaned.push(c);
        }
        i = i + 1;
    }
    assert(chars@.take(chars@.len() as int) =~= chars@);
    let mut joined = String::new();
    let mut k: usize = 0;
    while k < cleaned.len()
        invariant
            k <= cleaned@.len(),
            joined@ == camel_words(cleaned@.take(k as int)),
        decreases cleaned@.len() - k,
    {
        let c = cleaned[k];
        proof {
            let t = cleaned@.take(k + 1);
            assert(t.drop_last() =~= cleaned@.take(k as int));
            assert(t.last() == c);
            if k > 0 {
                assert(t[t.len() - 2] == cleaned@[k - 1]);
            }
        }
        if c != ' ' {
            if k == 0 || cleaned[k - 1] == ' ' {
                let upper = if c >= 'a' && c <= 'z' {
                    ((c as u8) - 32) as char
                } else {
                    c
                };
                proof {
                    if 'a' <= c <= 'z' {
                        assert((c as u8) as int == c as u32 as int);
                        assert(upper == ascii_upper(c));
                    }
                }
                push_char(&mut joined, upper);
            } else {
                push_char(&mut joined, c);
            }
        }
        k = k + 1;
    }
    assert(cleaned@.take(cleaned@.len() as int) =~= cleaned@);
    if joined.as_str().is_empty() {
        "Game".to_owned()
    } else {
        joined
    }
}

impl AndroidApp {
    /// A configuration with the engine's defaults. The library name is the
    /// crate name with hyphens replaced by underscores, as Cargo does.
    pub fn new(app_name: &str, package: &str, crate_name: &str) -> (r: AndroidApp)
        ensures
            r.app_name@ == app_name@,
            r.package@ == package@,
            r.crate_name@ == crate_name@,
            r.lib_name@ == underscored(crate_name@),
            r.orientation == Orientation::Landscape,
            r.abis@ == seq![Abi::Arm64, Abi::ArmV7, Abi::X86_64],
            r.min_sdk == MINIMUM_SDK,
            r.compile_sdk == DEFAULT_COMPILE_SDK,
            r.version_code == 1,
            r.version_name@ == "0.1.0"@,
            r.icon_background@ == "#6CA94E"@,
    {
        let mut abis: Vec<Abi> = Vec::new();
        abis.push(Abi::Arm64);
        abis.push(Abi::ArmV7);
        abis.push(Abi::X86_64);
        assert(abis@ =~= seq![Abi::Arm64, Abi::ArmV7, Abi::X86_64]);
        AndroidApp {
            app_name: app_name.to_owned(),
            package: package.to_owned(),
            crate_name: crate_name.to_owned(),
            lib_name: replace(crate_name, "-", "_"),
            orientation: Orientation::Landscape,
            abis,
            min_sdk: MINIMUM_SDK,
            compile_sdk: DEFAULT_COMPILE_SDK,
            version_code: 1,
            version_name: "0.1.0".to_owned(),
            icon_background: "#6CA94E".to_owned(),
        }
    }

    /// This configuration with a different library name.
    pub fn with_lib_name(self, lib_name: &str) -> (r: AndroidApp)
        ensures
            r.lib_name@ == lib_name@,
            r.app_name == self.app_name,
            r.package == self.package,
            r.crate_name == self.crate_name,
            r.orientation == self.orientation,
            r.abis == self.abis,
            r.min_sdk == self.min_sdk,
            r.compile_sdk == self.compile_sdk,
            r.version_code == self.version_code,
            r.version_name == self.version_name,
            r.icon_background == self.icon_background,
    {
        AndroidApp { lib_name: lib_name.to_owned(), ..self }
    }

    /// This configuration at a different orientation.
    pub fn with_orientation(self, orientation: Orientation) -> (r: AndroidApp)
        ensures
            r == (AndroidApp { orientation, ..self }),
    {
        AndroidApp { orientation, ..self }
    }

    /// This configuration carrying only the given architectures.
    pub fn with_abis(self, abis: Vec<Abi>) -> (r: AndroidApp)
        ensures
            r == (AndroidApp { abis, ..self }),
    {
        AndroidApp { abis, ..self }
    }

    /// This configuration at a different version.
    pub fn with_version(self, code: u32, name: &str) -> (r: AndroidApp)
        ensures
            r.version_code == code,
            r.version_name@ == name@,
            r.app_name == self.app_name,
            r.package == self.package,
            r.crate_name == self.crate_name,
            r.lib_name == self.lib_name,
            r.orientation == self.orientation,
            r.abis == self.abis,
            r.min_sdk == self.min_sdk,
            r.compile_sdk == self.compile_sdk,
            r.icon_background == self.icon_background,
    {
        AndroidApp { version_code: code, version_name: name.to_owned(), ..self }
    }

    /// Checks the configuration before anything is written: the API levels,
    /// the architectures, the package's shape, the library name and the
    /// display name.
    pub fn validate(&self) -> (r: Result<(), AndroidError>)
        ensures
            match validation_message(*self) {
                None => r is Ok,
                Some(message) => r matches Err(AndroidError::Invalid(detail)) && detail@
                    == message,
            },
    {
        if self.min_sdk < MINIMUM_SDK {
            let mut text = "minimum SDK ".to_owned();
            let number = decimal(self.min_sdk);
            text.append(number.as_str());
            text.append(" is below 26, where AAudio appears; audio would fail to link");
            return Err(AndroidError::Invalid(text));
        }
        if self.compile_sdk < self.min_sdk {
            let mut text = "compile SDK ".to_owned();
            let compile = decimal(self.compile_sdk);
            text.append(compile.as_str());
            text.append(" is below the minimum SDK ");
            let minimum = decimal(self.min_sdk);
            text.append(minimum.as_str());
            return Err(AndroidError::Invalid(text));
        }
        if self.abis.len() == 0 {
            return Err(
                AndroidError::Invalid("an APK with no architectures would install nowhere".to_owned()),
            );
        }
        let package = chars_of(self.package.as_str());
        if has_bad_segments(&package) {
            let mut text = "package ".to_owned();
            let shown = quoted(self.package.as_str());
            text.append(shown.as_str());
            text.append(" must have at least two dot-separated segments");
            return Err(AndroidError::Invalid(text));
        }
        if has_digit_segment(&package) {
            let mut text = "package ".to_owned();
            let shown = quoted(self.package.as_str());
            text.append(shown.as_str());
            text.append(" has a segment starting with a digit");
            return Err(AndroidError::Invalid(text));
        }
        let lib = chars_of(self.lib_name.as_str());
        if contains_char(&lib, '-') {
            let mut text = "library name ".to_owned();
            let shown = quoted(self.lib_name.as_str());
            text.append(shown.as_str());
            text.append(" contains a hyphen; Cargo produces lib");
            let fixed = replace(self.lib_name.as_str(), "-", "_");
            text.append(fixed.as_str());
            text.append(".so");
            return Err(AndroidError::Invalid(text));
        }
        let name = chars_of(self.app_name.as_str());
        if all_white_space(&name) {
            return Err(
                AndroidError::Invalid(
                    "the application needs a name to show under its icon".to_owned(),
                ),
            );
        }
        Ok(())
    }

    fn substitutions(&self) -> (r: Vec<(&'static str, String)>)
        ensures
            r@.len() == substitutions_of(*self).len(),
            forall|k: int|
                0 <= k < r@.len() ==> (#[trigger] r@[k]).0@ == substitutions_of(*self)[k].0
                    && r@[k].1@ == substitutions_of(*self)[k].1,
    {
        let mut values: Vec<(&'static str, String)> = Vec::new();
        values.push(("{{APP_NAME}}", escape_xml(self.app_name.as_str())));
        values.push(("{{COMPILE_SDK}}", decimal(self.compile_sdk)));
        values.push(("{{ICON_BACKGROUND}}", self.icon_background.clone()));
        values.push(("{{LIB_NAME}}", self.lib_name.clone()));
        values.push(("{{MIN_SDK}}", decimal(self.min_sdk)));
        values.push(("{{ORIENTATION}}", self.orientation.manifest_value().to_owned()));
        values.push(("{{PACKAGE}}", self.package.clone()));
        values.push(("{{PROJECT_NAME}}", sanitise_project_name(self.app_name.as_str())));
        values.push(("{{VERSION_CODE}}", decimal(self.version_code)));
        values.push(("{{VERSION_NAME}}", self.version_name.clone()));
        values
    }

    /// The files this configuration produces, as paths relative to the
    /// project root paired with their contents; the validation error when
    /// the configuration is refused.
    pub fn files(&self) -> (r: Result<Vec<(String, String)>, AndroidError>)
        ensures
            match validation_message(*self) {
                Some(message) => r matches Err(AndroidError::Invalid(detail)) && detail@
                    == message,
                None => r matches Ok(files) && files@.len() == project_files(*self).len() && forall|
                    k: int,
                | 0 <= k < files@.len() ==> (#[trigger] files@[k]).0@ == project_files(*self)[k].0
                    && files@[k].1@ == project_files(*self)[k].1,
            },
    {
        match self.validate() {
            Err(e) => {
                return Err(e);
            },
            Ok(()) => {},
        }
        let values = self.substitutions();
        let ghost subs = substitutions_of(*self);
        assert(values@.map_values(|p: (&'static str, String)| (p.0@, p.1@)) =~= subs);
        let mut files: Vec<(String, String)> = Vec::new();
        files.push(("settings.gradle.kts".to_owned(), fill(templates::SETTINGS_GRADLE, &values)));
        files.push(("build.gradle.kts".to_owned(), fill(templates::ROOT_BUILD_GRADLE, &values)));
        files.push(("gradle.properties".to_owned(), templates::GRADLE_PROPERTIES.to_owned()));
        files.push(
            (
                "gradle/wrapper/gradle-wrapper.properties".to_owned(),
                templates::GRADLE_WRAPPER.to_owned(),
            ),
        );
        files.push(("app/build.gradle.kts".to_owned(), fill(templates::APP_BUILD_GRADLE, &values)));
        files.push(
            (
                "app/src/main/AndroidManifest.xml".to_owned(),
                fill(templates::ANDROID_MANIFEST, &values),
            ),
        );
        files.push(
            (
                "app/src/main/res/values/strings.xml".to_owned(),
                fill(templates::STRINGS_XML, &values),
            ),
        );
        files.push(
            (
                "app/src/main/res/values/colors.xml".to_owned(),
                fill(templates::COLORS_XML, &values),
            ),
        );
        files.push(
            (
                "app/src/main/res/drawable/ic_launcher_foreground.xml".to_owned(),
                templates::LAUNCHER_FOREGROUND.to_owned(),
            ),
        );
        files.push(
            (
                "app/src/main/res/mipmap-anydpi-v26/ic_launcher.xml".to_owned(),
                templates::LAUNCHER_ICON.to_owned(),
            ),
        );
        files.push(
            (
                "app/src/main/res/mipmap-anydpi-v26/ic_launcher_round.xml".to_owned(),
                templates::LAUNCHER_ICON_ROUND.to_owned(),
            ),
        );
        Ok(files)
    }

    /// The arguments handed to `cargo` to cross-compile the game into
    /// `output_dir`: `ndk`, a `--target` per architecture in order, the
    /// platform level, the output directory, then the build of the game's
    /// library, in release mode where asked.
    pub fn cargo_ndk_arguments(&self, output_dir: &str, profile: Profile) -> (r: Vec<String>)
        ensures
            r@.map_values(|a: String| a@) == cargo_ndk_arguments_of(*self, output_dir@, profile),
    {
        let mut arguments: Vec<String> = Vec::new();
        arguments.push("ndk".to_owned());
        let mut i: usize = 0;
        while i < self.abis.len()
            invariant
                i <= self.abis@.len(),
                arguments@.map_values(|a: String| a@) == seq!["ndk"@] + target_arguments(
                    self.abis@.take(i as int),
                ),
            decreases self.abis@.len() - i,
        {
            let ghost before = arguments@.map_values(|a: String| a@);
            arguments.push("--target".to_owned());
            arguments.push(self.abis[i].name().to_owned());
            proof {
                assert(self.abis@.take(i + 1).drop_last() =~= self.abis@.take(i as int));
                assert(arguments@.map_values(|a: String| a@) =~= before + seq![
                    "--target"@,
                    abi_name_of(self.abis@[i as int]),
                ]);
            }
            i = i + 1;
        }
        assert(self.abis@.take(self.abis@.len() as int) =~= self.abis@);
        let ghost head = arguments@.map_values(|a: String| a@);
        arguments.push("--platform".to_owned());
        arguments.push(decimal(self.min_sdk));
        arguments.push("--output-dir".to_owned());
        arguments.push(output_dir.to_owned());
        arguments.push("--".to_owned());
        arguments.push("build".to_owned());
        arguments.push("--lib".to_owned());
        arguments.push("-p".to_owned());
        arguments.push(self.crate_name.clone());
        let ghost body = arguments@.map_values(|a: String| a@);
        assert(body =~= head + seq![
            "--platform"@,
            decimal_spec(self.min_sdk as nat),
            "--output-dir"@,
            output_dir@,
            "--"@,
            "build"@,
            "--lib"@,
            "-p"@,
            self.crate_name@,
        ]);
        match profile {
            Profile::Release => {
                arguments.push("--release".to_owned());
                assert(arguments@.map_values(|a: String| a@) =~= body + seq!["--release"@]);
            },
            Profile::Debug => {},
        }
        arguments
    }

    /// The directory, under the project root `root`, that the native
    /// libraries must be written into.
    pub fn jni_libs_directory(root: &str) -> (r: String)
        ensures
            r@ == if root@.len() == 0 {
                "app/src/main/jniLibs"@
            } else if root@.last() == '/' {
                root@ + "app/src/main/jniLibs"@
            } else {
                root@ + "/app/src/main/jniLibs"@
            },
    {
        let chars = chars_of(root);
        let mut path = root.to_owned();
        if chars.len() == 0 {
            return "app/src/main/jniLibs".to_owned();
        }
        if chars[chars.len() - 1] != '/' {
            path.append("/");
            path.append("app/src/main/jniLibs");
            proof {
                assert(root@ + "/"@ + "app/src/main/jniLibs"@ =~= root@ + "/app/src/main/jniLibs"@)
                    by {
                    reveal_strlit("/");
                    reveal_strlit("app/src/main/jniLibs");
                    reveal_strlit("/app/src/main/jniLibs");
                }
            }
        } else {
            path.append("app/src/main/jniLibs");
        }
        path
    }
}

/// `template` with every substitution applied in order.
fn fill(template: &str, values: &Vec<(&'static str, String)>) -> (r: String)
    ensures
        r@ == fill_spec(
            template@,
            values@.map_values(|p: (&'static str, String)| (p.0@, p.1@)),
        ),
{
    let ghost subs = values@.map_values(|p: (&'static str, String)| (p.0@, p.1@));
    let mut text = template.to_owned();
    let mut k: usize = 0;
    assert(subs.skip(0) =~= subs);
    while k < values.len()
        invariant
            k <= values@.len(),
            subs == values@.map_values(|p: (&'static str, String)| (p.0@, p.1@)),
            fill_spec(template@, subs) == fill_spec(text@, subs.skip(k as int)),
        decreases values@.len() - k,
    {
        let (key, value) = &values[k];
        let next = replace(text.as_str(), key, value.as_str());
        proof {
            let rest = subs.skip(k as int);
            assert(rest[0] == (key@, value@));
            assert(rest.drop_first() =~= subs.skip(k + 1));
        }
        text = next;
        k = k + 1;
    }
    text
}

fn contains_char(chars: &Vec<char>, c: char) -> (r: bool)
    ensures
        r == chars@.contains(c),
{
    let mut i: usize = 0;
    while i < chars.len()
        invariant
            i <= chars@.len(),
            forall|k: int| 0 <= k < i ==> chars@[k] != c,
        decreases chars@.len() - i,
    {
        if chars[i] == c {
            return true;
        }
        i = i + 1;
    }
    false
}

fn has_bad_segments(p: &Vec<char>) -> (r: bool)
    ensures
        r == bad_segments(p@),
{
    if !contains_char(p, '.') {
        return true;
    }
    let n = p.len();
    if p[0] == '.' || p[n - 1] == '.' {
        return true;
    }
    let mut i: usize = 0;
    while i < n - 1
        invariant
            n == p@.len(),
            n > 0,
            forall|k: int| 0 <= k < i && k < n - 1 ==> !(p@[k] == '.' && #[trigger] p@[k + 1] == '.'),
        decreases n - i,
    {
        if p[i] == '.' && p[i + 1] == '.' {
            return true;
        }
        i = i + 1;
    }
    false
}

fn has_digit_segment(p: &Vec<char>) -> (r: bool)
    ensures
        r == digit_segment(p@),
{
    let n = p.len();
    if n > 0 && p[0] >= '0' && p[0] <= '9' {
        return true;
    }
    if n == 0 {
        return false;
    }
    let mut i: usize = 0;
    while i < n - 1
        invariant
            n == p@.len(),
            n > 0,
            forall|k: int|
                0 <= k < i && k < n - 1 ==> !(p@[k] == '.' && is_digit(#[trigger] p@[k + 1])),
        decreases n - i,
    {
        if p[i] == '.' && p[i + 1] >= '0' && p[i + 1] <= '9' {
            return true;
        }
        i = i + 1;
    }
    false
}

fn all_white_space(chars: &Vec<char>) -> (r: bool)
    ensures
        r == blank(chars@),
{
    let mut i: usize = 0;
    while i < chars.len()
        invariant
            i <= chars@.len(),
            forall|k: int| 0 <= k < i ==> white_space(#[trigger] chars@[k]),
        decreases chars@.len() - i,
    {
        if !is_white_space(chars[i]) {
            return false;
        }
        i = i + 1;
    }
    true
}

} // verus!
