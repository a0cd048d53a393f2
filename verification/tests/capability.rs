use yuukei::capability::{
    CapabilityError, CapabilityRouter, ProviderRoute, StubSpeechSynthesisProvider,
};

fn stub_speech() -> ProviderRoute {
    ProviderRoute {
        provider_id: "stub-speech".to_string(),
        capabilities: vec!["speech.synthesis".to_string()],
        required_permissions: Vec::new(),
        enabled: true,
        ready: true,
    }
}

fn memory_provider() -> ProviderRoute {
    ProviderRoute {
        provider_id: "memory-provider".to_string(),
        capabilities: vec!["memory.retrieve".to_string()],
        required_permissions: vec!["event-log:read".to_string()],
        enabled: true,
        ready: true,
    }
}

#[test]
fn registry_routes_to_stub_speech_provider() {
    let mut router = CapabilityRouter::new();
    router
        .register(StubSpeechSynthesisProvider.registration())
        .unwrap();
    assert_eq!(router.route("speech.synthesis"), Ok("stub-speech".to_string()));
    assert_eq!(
        StubSpeechSynthesisProvider::speech_ref(Some("cmd_1")),
        "stub-speech://cmd_1"
    );
}

#[test]
fn stub_speech_lasts_ninety_milliseconds_per_character() {
    assert_eq!(StubSpeechSynthesisProvider::duration_ms("hello"), 450);
    assert_eq!(StubSpeechSynthesisProvider::duration_ms("こんにちは"), 450);
    assert_eq!(StubSpeechSynthesisProvider::duration_ms(""), 90);
    assert_eq!(
        StubSpeechSynthesisProvider::speech_ref(None),
        "stub-speech://display-command"
    );
    assert_eq!(stub_speech(), StubSpeechSynthesisProvider.registration());
}

#[test]
fn router_rejects_unknown_capability() {
    let router = CapabilityRouter::new();
    let error = router.route("dialogue.generate").unwrap_err();
    assert!(matches!(error, CapabilityError::UnknownCapability(_)));
}

#[test]
fn router_checks_permissions() {
    let mut router = CapabilityRouter::new();
    router.register(memory_provider()).unwrap();
    let error = router.route("memory.retrieve").unwrap_err();
    assert!(matches!(error, CapabilityError::MissingPermission { .. }));
    assert_eq!(
        error.message(),
        "missing permission event-log:read for provider memory-provider"
    );

    router.grant_permission("memory-provider", "event-log:read");
    assert_eq!(router.route("memory.retrieve"), Ok("memory-provider".to_string()));
}

#[test]
fn providers_without_capabilities_or_with_taken_ids_are_refused() {
    let mut router = CapabilityRouter::new();
    let mut empty = stub_speech();
    empty.capabilities.clear();
    assert_eq!(
        router.register(empty),
        Err(CapabilityError::EmptyCapabilities("stub-speech".to_string()))
    );
    router.register(stub_speech()).unwrap();
    assert_eq!(
        router.register(stub_speech()),
        Err(CapabilityError::DuplicateProvider("stub-speech".to_string()))
    );
}

#[test]
fn unhealthy_providers_are_reported_as_such() {
    let mut router = CapabilityRouter::new();
    let mut paused = stub_speech();
    paused.ready = false;
    router.register(paused).unwrap();
    assert!(!router.has_healthy_provider("speech.synthesis"));
    assert_eq!(
        router.select_provider("speech.synthesis"),
        Err(CapabilityError::NoHealthyProvider("speech.synthesis".to_string()))
    );
    assert_eq!(
        CapabilityError::NoHealthyProvider("speech.synthesis".to_string()).message(),
        "provider is not healthy for capability: speech.synthesis"
    );
}

#[test]
fn a_healthy_default_provider_wins_otherwise_the_first_by_id() {
    let mut router = CapabilityRouter::new();
    let mut b = stub_speech();
    b.provider_id = "b-speech".to_string();
    let mut a = stub_speech();
    a.provider_id = "a-speech".to_string();
    router.register(b).unwrap();
    router.register(a).unwrap();
    assert_eq!(router.select_provider("speech.synthesis"), Ok("a-speech".to_string()));
    router.set_default_provider("speech.synthesis", "b-speech");
    assert_eq!(router.select_provider("speech.synthesis"), Ok("b-speech".to_string()));
    router.set_default_provider("speech.synthesis", "missing");
    assert_eq!(router.select_provider("speech.synthesis"), Ok("a-speech".to_string()));
    assert!(router.has_healthy_provider("speech.synthesis"));
}

#[test]
fn error_messages_name_what_was_refused() {
    assert_eq!(
        CapabilityError::DuplicateProvider("p".to_string()).message(),
        "provider already registered: p"
    );
    assert_eq!(
        CapabilityError::EmptyCapabilities("p".to_string()).message(),
        "provider must declare at least one capability: p"
    );
    assert_eq!(
        CapabilityError::UnknownCapability("c".to_string()).message(),
        "unknown capability: c"
    );
    assert_eq!(
        CapabilityError::Provider("boom".to_string()).message(),
        "provider invocation failed: boom"
    );
}
