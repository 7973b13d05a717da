//! The files of the generated Android project. Placeholders of the form
//! `{{NAME}}` are filled in from the game's settings.
use vstd::prelude::*;

verus! {

/// `settings.gradle.kts`: repositories and the project's name.
pub const SETTINGS_GRADLE: &'static str = r##"pluginManagement {
    repositories {
        google()
        mavenCentral()
        gradlePluginPortal()
    }
}

dependencyResolutionManagement {
    repositoriesMode.set(RepositoriesMode.FAIL_ON_PROJECT_REPOS)
    repositories {
        google()
        mavenCentral()
    }
}

rootProject.name = "{{PROJECT_NAME}}"
include(":app")
"##;

/// The root `build.gradle.kts`: the Android plugin, applied per module.
pub const ROOT_BUILD_GRADLE: &'static str = r##"plugins {
    id("com.android.application") version "8.5.2" apply false
}
"##;

/// `gradle.properties`.
pub const GRADLE_PROPERTIES: &'static str = r##"org.gradle.jvmargs=-Xmx2048m -Dfile.encoding=UTF-8
android.useAndroidX=true
android.nonTransitiveRClass=true
"##;

/// `gradle/wrapper/gradle-wrapper.properties`: the pinned Gradle version.
pub const GRADLE_WRAPPER: &'static str = r##"distributionBase=GRADLE_USER_HOME
distributionPath=wrapper/dists
distributionUrl=https\://services.gradle.org/distributions/gradle-8.7-bin.zip
networkTimeout=10000
zipStoreBase=GRADLE_USER_HOME
zipStorePath=wrapper/dists
"##;

/// The application module's `build.gradle.kts`: package, API levels,
/// version and where the native libraries are picked up.
pub const APP_BUILD_GRADLE: &'static str = r##"plugins {
    id("com.android.application")
}

android {
    namespace = "{{PACKAGE}}"
    compileSdk = {{COMPILE_SDK}}

    defaultConfig {
        applicationId = "{{PACKAGE}}"
        minSdk = {{MIN_SDK}}
        targetSdk = {{COMPILE_SDK}}
        versionCode = {{VERSION_CODE}}
        versionName = "{{VERSION_NAME}}"
    }

    buildTypes {
        getByName("release") {
            isMinifyEnabled = false
        }
    }

    sourceSets {
        getByName("main") {
            jniLibs.srcDirs("src/main/jniLibs")
        }
    }
}

dependencies {
    implementation("androidx.appcompat:appcompat:1.7.0")
    implementation("androidx.games:games-activity:3.0.5")
}
"##;

/// `AndroidManifest.xml`: the game activity, its orientation and the
/// library it loads.
pub const ANDROID_MANIFEST: &'static str = r##"<?xml version="1.0" encoding="utf-8"?>
<manifest xmlns:android="http://schemas.android.com/apk/res/android">

    <uses-feature android:glEsVersion="0x00030000" android:required="true" />

    <application
        android:label="@string/app_name"
        android:icon="@mipmap/ic_launcher"
        android:roundIcon="@mipmap/ic_launcher_round"
        android:hasCode="true"
        android:extractNativeLibs="true">
        <activity
            android:name="com.google.androidgamesdk.GameActivity"
            android:exported="true"
            android:screenOrientation="{{ORIENTATION}}"
            android:configChanges="orientation|screenSize|screenLayout|keyboardHidden|keyboard|navigation|uiMode">
            <meta-data
                android:name="android.app.lib_name"
                android:value="{{LIB_NAME}}" />
            <intent-filter>
                <action android:name="android.intent.action.MAIN" />
                <category android:name="android.intent.category.LAUNCHER" />
            </intent-filter>
        </activity>
    </application>
</manifest>
"##;

/// `res/values/strings.xml`: the name under the launcher icon.
pub const STRINGS_XML: &'static str = r##"<?xml version="1.0" encoding="utf-8"?>
<resources>
    <string name="app_name">{{APP_NAME}}</string>
</resources>
"##;

/// `res/values/colors.xml`: the launcher icon's background.
pub const COLORS_XML: &'static str = r##"<?xml version="1.0" encoding="utf-8"?>
<resources>
    <color name="ic_launcher_background">{{ICON_BACKGROUND}}</color>
</resources>
"##;

/// `res/drawable/ic_launcher_foreground.xml`: a leaf.
pub const LAUNCHER_FOREGROUND: &'static str = r##"<?xml version="1.0" encoding="utf-8"?>
<vector xmlns:android="http://schemas.android.com/apk/res/android"
    android:width="108dp"
    android:height="108dp"
    android:viewportWidth="108"
    android:viewportHeight="108">
    <path
        android:fillColor="#F4F1DE"
        android:pathData="M54,30 C70,36 76,52 70,70 C58,74 42,70 38,56 C36,46 42,36 54,30 Z" />
    <path
        android:strokeColor="#3D5A3A"
        android:strokeWidth="2"
        android:pathData="M40,72 L66,40" />
</vector>
"##;

/// `res/mipmap-anydpi-v26/ic_launcher.xml`: the adaptive launcher icon.
pub const LAUNCHER_ICON: &'static str = r##"<?xml version="1.0" encoding="utf-8"?>
<adaptive-icon xmlns:android="http://schemas.android.com/apk/res/android">
    <background android:drawable="@color/ic_launcher_background" />
    <foreground android:drawable="@drawable/ic_launcher_foreground" />
</adaptive-icon>
"##;

/// `res/mipmap-anydpi-v26/ic_launcher_round.xml`: the round variant.
pub const LAUNCHER_ICON_ROUND: &'static str = r##"<?xml version="1.0" encoding="utf-8"?>
<adaptive-icon xmlns:android="http://schemas.android.com/apk/res/android">
    <background android:drawable="@color/ic_launcher_background" />
    <foreground android:drawable="@drawable/ic_launcher_foreground" />
</adaptive-icon>
"##;

} // verus!
