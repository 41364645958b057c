use musicos::config::{parse_u32, Config, ConfigLayer, EnvValues, LoadedConfig, ParseError, HALF_SECOND_BITS};
use musicos::float::Float32;

fn no_env() -> EnvValues {
    EnvValues { provider: None, model: None, max_turns: None, sample_rate: None }
}

#[test]
fn defaults_when_nothing_exists() {
    let mut loaded = LoadedConfig::new();
    loaded.apply_env(&no_env());
    assert_eq!(loaded.config, Config::default());
    assert_eq!(loaded.config.ai.model, "opus-4-8");
    assert_eq!(loaded.config.ai.max_turns, 16);
    assert_eq!(loaded.config.render.sample_rate, 48_000);
    assert_eq!(f32::from_bits(loaded.config.render.tail_seconds.bits), 0.5);
    assert_eq!(HALF_SECOND_BITS, 0.5f32.to_bits());
    assert!(loaded.warnings.is_empty());
}

#[test]
fn later_layers_win_field_by_field() {
    let mut config = Config::default();
    let global = ConfigLayer {
        provider: Some("api".into()),
        model: Some("global-model".into()),
        max_turns: Some(8),
        sample_rate: None,
        tail_seconds: None,
    };
    let project = ConfigLayer {
        model: Some("project-model".into()),
        sample_rate: Some(44_100),
        ..ConfigLayer::empty()
    };
    global.apply(&mut config);
    project.apply(&mut config);
    assert_eq!(config.ai.provider.as_deref(), Some("api"));
    assert_eq!(config.ai.model, "project-model");
    assert_eq!(config.ai.max_turns, 8);
    assert_eq!(config.render.sample_rate, 44_100);
    assert_eq!(config.render.tail_seconds, Float32 { bits: HALF_SECOND_BITS });
    let before = config.clone();
    ConfigLayer::empty().apply(&mut config);
    assert_eq!(config, before);
}

#[test]
fn env_overrides_and_parse_failures_warn() {
    let mut loaded = LoadedConfig::new();
    loaded.apply_env(&EnvValues {
        provider: Some("subscription".into()),
        model: Some("env-model".into()),
        max_turns: Some("not-a-number".into()),
        sample_rate: Some("96000".into()),
    });
    assert_eq!(loaded.config.ai.provider.as_deref(), Some("subscription"));
    assert_eq!(loaded.config.ai.model, "env-model");
    assert_eq!(loaded.config.ai.max_turns, 16, "a bad value keeps the prior one");
    assert_eq!(loaded.config.render.sample_rate, 96_000);
    assert_eq!(
        loaded.warnings,
        vec!["invalid MUSICOS_AI_MAX_TURNS=not-a-number: invalid digit found in string".to_string()]
    );
}

#[test]
fn numbers_parse_like_the_standard_library() {
    for s in ["0", "+7", "4294967295", "", "+", "-", "-1", "4294967296", "12a", "99999999999x", "007"] {
        let ours = parse_u32(s);
        match s.parse::<u32>() {
            Ok(v) => assert_eq!(ours, Ok(v), "{s:?}"),
            Err(e) => {
                let err = ours.expect_err(s);
                assert_eq!(err.message(), e.to_string(), "{s:?}");
            },
        }
    }
    assert_eq!(parse_u32(""), Err(ParseError::Empty));
    assert_eq!(parse_u32("4294967296"), Err(ParseError::Overflow));
}
