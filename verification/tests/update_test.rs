use engine::update::{
    is_newer, parse_semver, pick_download_url, release_status, update_from_release, GhAsset,
    GhRelease, ReleaseStatus,
};

#[test]
fn semver_parses_and_strips_v() {
    assert_eq!(parse_semver("v1.2.3"), Some((1, 2, 3)));
    assert_eq!(parse_semver("0.1.0"), Some((0, 1, 0)));
    assert_eq!(parse_semver("2.0"), Some((2, 0, 0)));
}

#[test]
fn newer_only_when_remote_greater() {
    assert!(is_newer("0.2.0", "0.1.0"));
    assert!(is_newer("v1.0.0", "0.9.9"));
    assert!(!is_newer("0.1.0", "0.1.0"));
    assert!(!is_newer("0.1.0", "0.2.0"));
}

#[test]
fn picks_exe_asset_over_html() {
    let assets = vec![
        ("notes.txt".to_string(), "https://x/notes".to_string()),
        ("plot.exe".to_string(), "https://x/plot.exe".to_string()),
    ];
    assert_eq!(pick_download_url(&assets, "https://x/rel"), "https://x/plot.exe");
    assert_eq!(pick_download_url(&[], "https://x/rel"), "https://x/rel");
}

#[test]
fn update_from_release_none_when_not_newer() {
    let r = GhRelease {
        tag_name: "v0.1.0".to_string(),
        body: Some("notes".to_string()),
        html_url: "https://github.com/Sakyvo/plot/releases/tag/v0.1.0".to_string(),
        assets: vec![],
    };
    assert!(update_from_release(&r, "0.1.0").is_none());
}

#[test]
fn update_from_release_some_when_newer() {
    let r = GhRelease {
        tag_name: "v0.2.0".to_string(),
        body: Some("## Fixed\n- foo".to_string()),
        html_url: "https://github.com/Sakyvo/plot/releases/tag/v0.2.0".to_string(),
        assets: vec![GhAsset {
            name: "plot.exe".to_string(),
            browser_download_url: "https://github.com/.../plot.exe".to_string(),
        }],
    };
    let u = update_from_release(&r, "0.1.0").unwrap();
    assert_eq!(u.version, "0.2.0");
    assert_eq!(u.download_url, "https://github.com/.../plot.exe");
    assert!(u.body.contains("Fixed"));
}

#[test]
fn semver_ignores_prerelease_and_build_parts() {
    assert_eq!(parse_semver("  V3.4.5-beta+7 "), Some((3, 4, 5)));
    assert_eq!(parse_semver("vv10"), Some((10, 0, 0)));
    assert_eq!(parse_semver("1.2.3.4"), Some((1, 2, 3)));
}

#[test]
fn semver_rejects_non_numbers() {
    assert_eq!(parse_semver("latest"), None);
    assert_eq!(parse_semver("1.x.0"), None);
    assert_eq!(parse_semver(""), None);
    assert_eq!(parse_semver("18446744073709551616"), None);
}

#[test]
fn unparsable_tags_are_never_newer() {
    assert!(!is_newer("nightly", "0.1.0"));
    assert!(!is_newer("1.0.0", "dev"));
}

#[test]
fn newer_is_a_strict_order_on_examples() {
    let tags = ["0.1.0", "v0.2", "0.2.1", "1.0.0"];
    for a in tags {
        assert!(!is_newer(a, a));
        for b in tags {
            assert!(!(is_newer(a, b) && is_newer(b, a)));
            for c in tags {
                if is_newer(a, b) && is_newer(b, c) {
                    assert!(is_newer(a, c));
                }
            }
        }
    }
}

#[test]
fn exe_asset_match_ignores_case_and_missing_body_is_empty() {
    let r = GhRelease {
        tag_name: " V1.0.0 ".to_string(),
        body: None,
        html_url: "https://h".to_string(),
        assets: vec![
            GhAsset { name: "readme.md".to_string(), browser_download_url: "https://r".to_string() },
            GhAsset { name: "Plot.EXE".to_string(), browser_download_url: "https://e".to_string() },
        ],
    };
    let u = update_from_release(&r, "0.9.0").unwrap();
    assert_eq!(u.version, "1.0.0");
    assert_eq!(u.tag, " V1.0.0 ");
    assert_eq!(u.body, "");
    assert_eq!(u.download_url, "https://e");
    assert_eq!(u.html_url, "https://h");
    assert_eq!(u.current_version, "0.9.0");
}

#[test]
fn release_status_meanings() {
    assert!(matches!(release_status(404), ReleaseStatus::NoRelease));
    assert!(matches!(release_status(200), ReleaseStatus::Read));
    match release_status(503) {
        ReleaseStatus::Failed(m) => assert_eq!(m, "GitHub API HTTP 503"),
        _ => panic!("expected a failure"),
    }
}
