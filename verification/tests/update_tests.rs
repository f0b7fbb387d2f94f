use vofa_next::update::{manifest_url, Channel};

#[test]
fn stable_channel_uses_latest_release_manifest() {
    assert_eq!(
        manifest_url(Channel::Stable),
        "https://github.com/Horldsence/vofa-NEXT/releases/latest/download/latest.json"
    );
}

#[test]
fn beta_channel_uses_rolling_beta_tag_manifest() {
    assert_eq!(
        manifest_url(Channel::Beta),
        "https://github.com/Horldsence/vofa-NEXT/releases/download/beta/beta-latest.json"
    );
}

#[test]
fn manifests_are_valid_urls_and_never_hit_github_api() {
    for c in [Channel::Stable, Channel::Beta] {
        let url = manifest_url(c);
        let rest = url.strip_prefix("https://").expect("manifest must be an https URL");
        let host = rest.split('/').next().unwrap();
        assert!(!host.is_empty() && !rest[host.len()..].is_empty());
        assert_ne!(host, "api.github.com");
    }
}
