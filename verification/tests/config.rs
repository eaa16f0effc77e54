use hyprclock::config::{validate_animations, validate_environment, validate_general,
    AnimationConfig, EnvConfig, GeneralConfig};

#[test]
fn animation_defaults() {
    let a = AnimationConfig::new();
    assert!(a.blur);
    assert!(a.fade_in);
    assert_eq!(a.animation_default_settings(), (true, true));
    assert_eq!(AnimationConfig::default(), a);
}

#[test]
fn animations_single_entry_is_fine() {
    assert!(validate_animations(&[]).is_ok());
    assert!(validate_animations(&[AnimationConfig { blur: true, fade_in: true }]).is_ok());
    assert!(validate_animations(&[AnimationConfig { blur: false, fade_in: false }]).is_ok());
}

#[test]
fn animations_doubled_toggle_is_refused() {
    let twice_blur = [
        AnimationConfig { blur: true, fade_in: false },
        AnimationConfig { blur: true, fade_in: false },
    ];
    assert_eq!(
        validate_animations(&twice_blur).unwrap_err(),
        "Error: 'blur' is set to true multiple times."
    );
    let twice_fade = [
        AnimationConfig { blur: false, fade_in: true },
        AnimationConfig { blur: false, fade_in: true },
    ];
    assert_eq!(
        validate_animations(&twice_fade).unwrap_err(),
        "Error: 'fade_in' is set to true multiple times."
    );
}

#[test]
fn animations_conflicting_toggle_is_refused() {
    let conflict = [
        AnimationConfig { blur: true, fade_in: true },
        AnimationConfig { blur: false, fade_in: false },
    ];
    assert_eq!(
        validate_animations(&conflict).unwrap_err(),
        "Error: 'blur' animation cannot be both true and false."
    );
    let fade_conflict = [
        AnimationConfig { blur: false, fade_in: true },
        AnimationConfig { blur: false, fade_in: false },
    ];
    assert_eq!(
        validate_animations(&fade_conflict).unwrap_err(),
        "Error: 'fade_in' animation cannot be both true and false."
    );
}

#[test]
fn environment_names() {
    assert!(EnvConfig::new().validate().is_ok());
    let prod = EnvConfig { environment: String::from("production") };
    assert!(prod.validate().is_ok());
    let bad = EnvConfig { environment: String::from("staging") };
    assert_eq!(bad.validate().unwrap_err(), "Invalid environment: staging");
    assert_eq!(
        validate_environment(&bad).unwrap_err(),
        "Environment configuration validation failed: Invalid environment: staging"
    );
    assert!(validate_environment(&EnvConfig::new()).is_ok());
}

#[test]
fn clock_settings() {
    let c = GeneralConfig::new();
    assert_eq!(c.clock_format, "12-hour");
    assert_eq!(c.time_precision, "long");
    assert!(c.validate().is_ok());
    let bad_format = GeneralConfig {
        clock_format: String::from("sundial"),
        time_precision: String::from("long"),
    };
    assert_eq!(bad_format.validate().unwrap_err(), "Invalid clock format: sundial");
    let bad_both = GeneralConfig {
        clock_format: String::from("sundial"),
        time_precision: String::from("vague"),
    };
    assert_eq!(
        bad_both.validate().unwrap_err(),
        "Invalid clock format: sundial; Invalid time precision: vague"
    );
    assert_eq!(
        validate_general(&bad_both).unwrap_err(),
        "General configuration validation failed: Invalid clock format: sundial; Invalid time precision: vague"
    );
    assert!(validate_general(&GeneralConfig::new()).is_ok());
}

#[test]
fn time_formatting() {
    let mk = |f: &str, p: &str| GeneralConfig {
        clock_format: String::from(f),
        time_precision: String::from(p),
    };
    assert_eq!(mk("24-hour", "long").format_time(9, 5, 7), "09:05:07");
    assert_eq!(mk("24-hour", "short").format_time(13, 5, 7), "13:05");
    assert_eq!(mk("12-hour", "short").format_time(13, 5, 7), "01:05 PM");
    assert_eq!(mk("12-hour", "long").format_time(0, 0, 0), "12:00:00 AM");
    assert_eq!(mk("12-hour", "long").format_time(12, 30, 59), "12:30:59 PM");
    assert_eq!(mk("12-hour", "short").format_time(23, 59, 0), "11:59 PM");
    // unknown settings fall back to the long 24-hour form
    assert_eq!(mk("sundial", "vague").format_time(13, 5, 7), "13:05:07");
}
