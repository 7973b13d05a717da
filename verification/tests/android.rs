use verdant::android::{sanitise_project_name, Abi, AndroidApp, Orientation, Profile};

/// A configuration like the game's.
fn app() -> AndroidApp {
    AndroidApp::new("Verdant Hollow", "dev.verdant.hollow", "verdant-hollow")
}

/// The generated file at a path, for assertions.
fn file(app: &AndroidApp, path: &str) -> String {
    app.files()
        .expect("the configuration is valid")
        .into_iter()
        .find(|(name, _)| name == path)
        .map(|(_, contents)| contents)
        .unwrap_or_else(|| panic!("{path} was not generated"))
}

#[test]
    fn the_library_name_follows_cargos_rule() {
        // Cargo turns hyphens into underscores, and the manifest has to point
        // at the file that actually lands in the APK.
        assert_eq!(app().lib_name, "verdant_hollow");
    }

#[test]
    fn the_manifest_points_at_the_games_library() {
        let manifest = file(&app(), "app/src/main/AndroidManifest.xml");
        assert!(manifest.contains(r#"android:value="verdant_hollow""#));
        assert!(!manifest.contains("{{"), "a placeholder was left unfilled");
    }

#[test]
    fn every_placeholder_is_substituted() {
        // One unfilled placeholder produces a project that fails deep inside
        // Gradle with an unrelated-looking message.
        for (path, contents) in app().files().expect("valid") {
            assert!(
                !contents.contains("{{"),
                "{} still contains a placeholder",
                path
            );
        }
    }

#[test]
    fn a_complete_project_is_generated() {
        let files = app().files().expect("valid");
        let names: Vec<String> = files
            .iter()
            .map(|(path, _)| path.to_string().replace('\\', "/"))
            .collect();
        for required in [
            "settings.gradle.kts",
            "build.gradle.kts",
            "app/build.gradle.kts",
            "app/src/main/AndroidManifest.xml",
            "app/src/main/res/values/strings.xml",
        ] {
            assert!(
                names.iter().any(|name| name == required),
                "missing {required:?}"
            );
        }
    }

#[test]
    fn the_app_name_reaches_the_launcher() {
        let strings = file(&app(), "app/src/main/res/values/strings.xml");
        assert!(strings.contains("Verdant Hollow"));
    }

#[test]
    fn a_name_with_xml_syntax_is_escaped() {
        // Otherwise strings.xml does not parse and the build fails a long way
        // from the cause.
        let app = AndroidApp::new("Bob & Sons <Farm>", "com.bob.farm", "bob-farm");
        let strings = file(&app, "app/src/main/res/values/strings.xml");
        assert!(strings.contains("Bob &amp; Sons &lt;Farm&gt;"));
        assert!(!strings.contains("& S"), "a raw ampersand survived");
    }

#[test]
    fn the_gradle_project_name_is_sanitised() {
        let app = AndroidApp::new("Bob & Sons <Farm>", "com.bob.farm", "bob-farm");
        let settings = file(&app, "settings.gradle.kts");
        assert!(settings.contains(r#"rootProject.name = "BobSonsFarm""#));
    }

#[test]
    fn a_nameless_project_still_gets_a_gradle_name() {
        assert_eq!(sanitise_project_name("***"), "Game");
    }

#[test]
    fn the_api_levels_agree_between_gradle_and_the_ndk() {
        // The bug this exists to prevent: the level passed to cargo-ndk and
        // the minSdk in Gradle drifting apart, which fails at link time with
        // a missing system library.
        let mut app = app();
        app.min_sdk = 28;
        let gradle = file(&app, "app/build.gradle.kts");
        assert!(gradle.contains("minSdk = 28"));
        assert_eq!(app.min_sdk, 28, "and the same value drives cargo-ndk");
    }

#[test]
    fn an_api_level_without_aaudio_is_refused() {
        let mut app = app();
        app.min_sdk = 24;
        let error = app.validate().expect_err("24 has no libaaudio");
        assert!(format!("{error:?}").contains("AAudio"));
    }

#[test]
    fn a_compile_sdk_below_the_minimum_is_refused() {
        let mut app = app();
        app.compile_sdk = 21;
        assert!(app.validate().is_err());
    }

#[test]
    fn an_apk_with_no_architectures_is_refused() {
        let app = app().with_abis(vec![]);
        let error = app.validate().expect_err("no ABIs");
        assert!(format!("{error:?}").contains("install nowhere"));
    }

#[test]
    fn a_malformed_package_is_refused() {
        // Android silently misbehaves rather than erroring on some of these,
        // so they are caught here instead.
        for package in ["hollow", "dev..hollow", "dev.1hollow", ""] {
            let app = AndroidApp::new("Game", package, "game");
            assert!(
                app.validate().is_err(),
                "{package:?} should have been refused"
            );
        }
    }

#[test]
    fn a_hyphenated_library_name_is_refused() {
        // Cargo would emit libgame_x.so and the manifest would look for
        // libgame-x.so, which fails at launch rather than at build time.
        let app = app().with_lib_name("verdant-hollow");
        let error = app.validate().expect_err("hyphen");
        assert!(format!("{error:?}").contains("hyphen"));
    }

#[test]
    fn a_nameless_app_is_refused() {
        let mut app = app();
        app.app_name = "   ".to_owned();
        assert!(app.validate().is_err());
    }

#[test]
    fn every_abi_has_a_distinct_target_triple() {
        let targets: std::collections::BTreeSet<&str> =
            Abi::all().iter().map(|abi| abi.target()).collect();
        assert_eq!(targets.len(), Abi::all().len());
        let names: std::collections::BTreeSet<&str> =
            Abi::all().iter().map(|abi| abi.name()).collect();
        assert_eq!(names.len(), Abi::all().len());
    }

#[test]
    fn orientations_map_to_manifest_values() {
        assert_eq!(Orientation::Landscape.manifest_value(), "sensorLandscape");
        assert_eq!(Orientation::Portrait.manifest_value(), "sensorPortrait");
        let manifest = file(
            &app().with_orientation(Orientation::Portrait),
            "app/src/main/AndroidManifest.xml",
        );
        assert!(manifest.contains("sensorPortrait"));
    }

#[test]
    fn the_version_reaches_gradle() {
        let app = app().with_version(7, "1.2.3");
        let gradle = file(&app, "app/build.gradle.kts");
        assert!(gradle.contains("versionCode = 7"));
        assert!(gradle.contains(r#"versionName = "1.2.3""#));
    }

#[test]
    fn the_package_reaches_gradle_as_both_namespace_and_id() {
        let gradle = file(&app(), "app/build.gradle.kts");
        assert!(gradle.contains(r#"namespace = "dev.verdant.hollow""#));
        assert!(gradle.contains(r#"applicationId = "dev.verdant.hollow""#));
    }

#[test]
    fn the_jni_directory_is_where_gradle_looks() {
        // Gradle's jniLibs.srcDirs and this have to agree or the APK ships
        // with no native code and crashes at launch.
        let gradle = file(&app(), "app/build.gradle.kts");
        assert!(gradle.contains("src/main/jniLibs"));
        let path = AndroidApp::jni_libs_directory("/tmp/project");
        assert!(path.ends_with("app/src/main/jniLibs"));
    }

#[test]
    fn profiles_name_their_own_outputs() {
        assert_eq!(Profile::Debug.gradle_task(), "assembleDebug");
        assert_eq!(Profile::Debug.output_directory(), "debug");
        assert_eq!(Profile::Release.gradle_task(), "assembleRelease");
        assert_eq!(Profile::Release.output_directory(), "release");
    }
