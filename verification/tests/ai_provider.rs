use musicos::ai_provider::{decimal_string, retry_after_status, retry_after_transport, Provider, ProviderError, Retry};
use musicos::render_plan::PlaybackError;

#[test]
fn provider_resolution_prefers_explicit_choice() {
    assert_eq!(Provider::resolve(Some("subscription"), None, false, false).unwrap(), Provider::Subscription);
    assert_eq!(Provider::resolve(Some("sub"), None, false, false).unwrap(), Provider::Subscription);
    assert_eq!(Provider::resolve(Some("api"), None, false, false).unwrap(), Provider::Api);
    assert!(matches!(Provider::resolve(Some("gemini"), None, false, false), Err(ProviderError::Unknown(_))));
}

#[test]
fn configured_choice_and_auto_detection() {
    // The configured choice applies when none is explicit.
    assert_eq!(Provider::resolve(None, Some("api".into()), true, false).unwrap(), Provider::Api);
    // The explicit choice beats the configured one.
    assert_eq!(Provider::resolve(Some("sub"), Some("api".into()), false, false).unwrap(), Provider::Subscription);
    // Auto prefers the subscription, then API credentials.
    assert_eq!(Provider::resolve(None, None, true, true).unwrap(), Provider::Subscription);
    assert_eq!(Provider::resolve(None, None, false, true).unwrap(), Provider::Api);
    assert_eq!(Provider::resolve(None, None, false, false), Err(ProviderError::NoneAvailable));
    assert_eq!(
        Provider::resolve(Some("gemini"), None, true, true),
        Err(ProviderError::Unknown("gemini".into()))
    );
}

#[test]
fn provider_error_messages() {
    assert_eq!(
        ProviderError::Unknown("x".into()).message(),
        "unknown provider 'x' (expected: subscription | api | auto)"
    );
    assert_eq!(ProviderError::CliExit(-1).message(), "assistant CLI exited with status -1");
    assert_eq!(ProviderError::CliExit(2).message(), "assistant CLI exited with status 2");
    assert_eq!(ProviderError::Io("disk".into()).message(), "disk");
    assert!(ProviderError::NoneAvailable.message().starts_with("no AI provider available \u{2014} install"));
}

#[test]
fn decimal_text() {
    assert_eq!(decimal_string(0), "0");
    assert_eq!(decimal_string(1234), "1234");
    assert_eq!(decimal_string(-70), "-70");
    assert_eq!(decimal_string(i64::MIN), i64::MIN.to_string());
}

#[test]
fn rate_limits_and_server_errors_are_retried_with_backoff() {
    assert_eq!(retry_after_status(429, 0, 3, None), Retry::After(1));
    assert_eq!(retry_after_status(503, 2, 3, None), Retry::After(4));
    assert_eq!(retry_after_status(500, 1, 3, Some(90)), Retry::After(30));
    assert_eq!(retry_after_status(429, 1, 3, Some(7)), Retry::After(7));
    assert_eq!(retry_after_status(429, 3, 3, None), Retry::GiveUp);
    assert_eq!(retry_after_status(400, 0, 3, None), Retry::GiveUp);
    assert_eq!(retry_after_transport(0, 3), Retry::After(1));
    assert_eq!(retry_after_transport(2, 3), Retry::After(4));
    assert_eq!(retry_after_transport(3, 3), Retry::GiveUp);
    assert_eq!(retry_after_transport(6, 10), Retry::After(30));
}

#[test]
fn playback_error_messages() {
    assert_eq!(PlaybackError::NoDevice.message(), "no audio output device available");
    assert_eq!(PlaybackError::Device("gone".into()).message(), "audio device: gone");
    assert_eq!(PlaybackError::Compile("empty".into()).message(), "compile: empty");
}
