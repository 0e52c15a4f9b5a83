use linksbot::replacer::{
    collect_candidate_links, get_matching_replacers, get_replacer_by_name, get_tests_by_name,
    replace_message, run_replacer_tests, BotConfig, Replacer, ReplacerError, ReplacerTest,
    ReplacerTests, Replacers, StringReplacer, Tests,
};
use linksbot::replacer_link_follower::{LinkFollowReplacer, LinkResolution, Replacements};
use linksbot::replacer_regex::RegexReplacer;
use linksbot::rx::Rx;

fn twitter_replacer() -> Replacer {
    Replacer::Regex(
        RegexReplacer::new(
            "twitter".to_string(),
            r"https?://(?P<tld>twitter|x)\.com/(?:#!/)?(\w+)/status(es)?/(\d+)".to_string(),
            "https://vxtwitter.com/$2/status/$4".to_string(),
        )
        .unwrap(),
    )
}

fn tiktok_replacer() -> Replacer {
    Replacer::Regex(
        RegexReplacer::new(
            "tiktok".to_string(),
            r"https://www\.tiktok\.com/@([\w.]+)/video/(\d+)".to_string(),
            "https://www.vxtiktok.com/@$1/video/$2".to_string(),
        )
        .unwrap(),
    )
}

fn discord_replacer() -> Replacer {
    Replacer::Regex(
        RegexReplacer::new(
            "discord".to_string(),
            r"https://media\.discordapp\.net/attachments/(\S+)".to_string(),
            "https://cdn.discordapp.com/attachments/$1".to_string(),
        )
        .unwrap(),
    )
}

fn config_of(replacers: Vec<Replacer>) -> BotConfig {
    BotConfig { replacers: Replacers(replacers), tests: Tests(Vec::new()) }
}

fn no_resolutions() -> Vec<LinkResolution> {
    Vec::new()
}

#[test]
fn serialize_test() {
    let replacer = RegexReplacer::new(
        "twitter".to_string(),
        r"https?://(?P<tld>twitter|x)\.com/(?:#!/)?(\w+)/status(es)?/(\d+)".to_string(),
        "https://vxtwitter.com/$2/status/$4".to_string(),
    )
    .unwrap();
    let replacers = Replacers(vec![Replacer::Regex(replacer)]);

    println!("{:?}", replacers);
}

#[test]
fn test_get_matching_replacers() {
    let config = config_of(vec![tiktok_replacer(), discord_replacer()]);
    let message = r#"https://www.tiktok.com/@realcompmemer/video/7314546788617309471
https://media.discordapp.net/attachments/483348725704556557/1065345579762335915/v12044gd0000cf3g5rrc77u1ikgnhp8g.mp4 "#.to_string();
    let matching_replacers =
        get_matching_replacers(&message, &config).expect("could not read replacers from config");

    assert!(matching_replacers.len() > 0);

    let discord_name = matching_replacers.get(0).unwrap().name();
    let tiktok_name = matching_replacers.get(1).unwrap().name();

    println!("discord_name = {} tiktok_name = {}", discord_name, tiktok_name);

    assert!(matching_replacers.get(0).unwrap().name().eq("discord"));
    assert!(matching_replacers.get(1).unwrap().name().eq("tiktok"))
}

#[test]
fn test_replace_message() {
    let config = config_of(vec![tiktok_replacer(), discord_replacer()]);
    let message = r#"https://www.tiktok.com/@realcompmemer/video/7314546788617309471
https://media.discordapp.net/attachments/483348725704556557/1065345579762335915/v12044gd0000cf3g5rrc77u1ikgnhp8g.mp4"#.to_string();

    let new_message = replace_message(&message, &config, &no_resolutions()).unwrap();

    let want = r"https://cdn.discordapp.com/attachments/483348725704556557/1065345579762335915/v12044gd0000cf3g5rrc77u1ikgnhp8g.mp4
https://www.vxtiktok.com/@realcompmemer/video/7314546788617309471";

    assert_eq!(new_message, want);
}

#[test]
fn twitter_status_is_rewritten() {
    let config = config_of(vec![twitter_replacer()]);
    let message = "https://twitter.com/foo/status/123".to_string();
    let got = replace_message(&message, &config, &no_resolutions()).unwrap();
    assert_eq!(got, "https://vxtwitter.com/foo/status/123");
}

#[test]
fn x_dot_com_status_is_rewritten() {
    let config = config_of(vec![twitter_replacer()]);
    let message = "https://x.com/a/status/1".to_string();
    let got = replace_message(&message, &config, &no_resolutions()).unwrap();
    assert_eq!(got, "https://vxtwitter.com/a/status/1");
}

#[test]
fn two_matches_give_two_lines() {
    let config = config_of(vec![twitter_replacer()]);
    let message =
        "https://twitter.com/foo/status/123 and https://x.com/bar/status/456".to_string();
    let got = replace_message(&message, &config, &no_resolutions()).unwrap();
    assert_eq!(got, "https://vxtwitter.com/foo/status/123\nhttps://vxtwitter.com/bar/status/456");
}

#[test]
fn rewriting_is_idempotent_on_rewritten_output() {
    let config = config_of(vec![twitter_replacer()]);
    let message = "https://twitter.com/foo/status/123".to_string();
    let once = replace_message(&message, &config, &no_resolutions()).unwrap();
    let replacer = twitter_replacer();
    assert!(!replacer.matches(&once));
    let twice = replacer.replace(&once, &no_resolutions()).unwrap();
    assert_eq!(twice, once);
}

#[test]
fn no_matching_replacer_is_reported() {
    let config = config_of(vec![twitter_replacer(), tiktok_replacer()]);
    let message = "hello world, no links here".to_string();
    let got = replace_message(&message, &config, &no_resolutions());
    assert!(matches!(got, Err(ReplacerError::NoReplacerFound)));
}

#[test]
fn spoiler_markup_is_preserved() {
    let config = config_of(vec![twitter_replacer()]);
    let message = "||https://twitter.com/foo/status/123||".to_string();
    let got = replace_message(&message, &config, &no_resolutions()).unwrap();
    assert_eq!(got, "||https://vxtwitter.com/foo/status/123||");
}

#[test]
fn spoiler_wraps_every_output_line() {
    let config = config_of(vec![twitter_replacer()]);
    let message =
        "|| https://twitter.com/a/status/1 https://twitter.com/b/status/2 ||".to_string();
    let got = replace_message(&message, &config, &no_resolutions()).unwrap();
    assert_eq!(got, "||https://vxtwitter.com/a/status/1||\n||https://vxtwitter.com/b/status/2||");
}

#[test]
fn non_matching_message_is_returned_unchanged_by_replace() {
    let replacer = twitter_replacer();
    let message = "nothing to see".to_string();
    let got = replacer.replace(&message, &no_resolutions()).unwrap();
    assert_eq!(got, "nothing to see");
}

#[test]
fn invalid_pattern_is_a_configuration_error() {
    let r = RegexReplacer::new("broken".to_string(), "foo(bar".to_string(), "x".to_string());
    assert!(matches!(r, Err(ReplacerError::ConfigurationError)));
}

fn short_link_follower(
    destination_regex: Option<&str>,
    destination_replacement: Option<&str>,
    post_replacement: Option<Vec<(&str, &str)>>,
    bad_url_match: Option<&str>,
) -> Replacer {
    let posts = post_replacement.map(|pairs| {
        pairs
            .into_iter()
            .map(|(replace, with)| Replacements {
                replace: replace.to_string(),
                with: with.to_string(),
            })
            .collect::<Vec<Replacements>>()
    });
    Replacer::LinkReplacer(LinkFollowReplacer::new(
        "shortener".to_string(),
        Rx::new(r"https://short\.example/\S+").unwrap(),
        destination_regex.map(|p| Rx::new(p).unwrap()),
        destination_replacement.map(|s| s.to_string()),
        posts,
        bad_url_match.map(|p| Rx::new(p).unwrap()),
    ))
}

fn resolution(link: &str, resolved: Option<&str>) -> LinkResolution {
    LinkResolution { link: link.to_string(), resolved: resolved.map(|s| s.to_string()) }
}

#[test]
fn resolved_link_query_string_is_stripped() {
    let config = config_of(vec![short_link_follower(None, None, None, None)]);
    let message = "look: https://short.example/abc".to_string();
    let resolutions =
        vec![resolution("https://short.example/abc", Some("https://example.com/page?utm=1"))];
    let got = replace_message(&message, &config, &resolutions).unwrap();
    assert_eq!(got, "https://example.com/page");
}

#[test]
fn destination_regex_rewrites_resolved_link() {
    let config = config_of(vec![short_link_follower(
        Some(r"example\.com"),
        Some("mirror.example.net"),
        None,
        None,
    )]);
    let message = "https://short.example/abc".to_string();
    let resolutions =
        vec![resolution("https://short.example/abc", Some("https://example.com/a/b"))];
    let got = replace_message(&message, &config, &resolutions).unwrap();
    assert_eq!(got, "https://mirror.example.net/a/b");
}

#[test]
fn post_replacement_pairs_apply_in_order() {
    let config = config_of(vec![short_link_follower(
        None,
        None,
        Some(vec![("www.tiktok.com", "www.vxtiktok.com"), ("vxtiktok", "vxtiktok")]),
        None,
    )]);
    let message = "https://short.example/t".to_string();
    let resolutions = vec![resolution(
        "https://short.example/t",
        Some("https://www.tiktok.com/@user/video/42?is_copy_url=1"),
    )];
    let got = replace_message(&message, &config, &resolutions).unwrap();
    assert_eq!(got, "https://www.vxtiktok.com/@user/video/42");
}

#[test]
fn empty_post_replacement_pattern_inserts_everywhere() {
    let config = config_of(vec![short_link_follower(None, None, Some(vec![("", "-")]), None)]);
    let message = "https://short.example/z".to_string();
    let resolutions = vec![resolution("https://short.example/z", Some("ab"))];
    let got = replace_message(&message, &config, &resolutions).unwrap();
    assert_eq!(got, "-a-b-");
}

#[test]
fn bad_url_match_suppresses_resolved_link() {
    let config = config_of(vec![short_link_follower(
        Some(r"example\.com"),
        Some("mirror.example.net"),
        None,
        Some(r"example\.com/blocked"),
    )]);
    let message = "https://short.example/a https://short.example/b".to_string();
    let resolutions = vec![
        resolution("https://short.example/a", Some("https://example.com/blocked/thing")),
        resolution("https://short.example/b", Some("https://example.com/fine")),
    ];
    let got = replace_message(&message, &config, &resolutions).unwrap();
    assert_eq!(got, "https://mirror.example.net/fine");
}

#[test]
fn all_links_suppressed_yields_empty_string() {
    let config =
        config_of(vec![short_link_follower(None, None, None, Some(r"example\.com"))]);
    let message = "https://short.example/a".to_string();
    let resolutions =
        vec![resolution("https://short.example/a", Some("https://example.com/anything"))];
    let got = replace_message(&message, &config, &resolutions).unwrap();
    assert_eq!(got, "");
}

#[test]
fn failed_resolution_fails_the_whole_replacer() {
    let follower = short_link_follower(None, None, None, None);
    let message = "https://short.example/a https://short.example/b".to_string();
    let resolutions = vec![
        resolution("https://short.example/a", Some("https://example.com/ok")),
        resolution("https://short.example/b", None),
    ];
    let got = follower.replace(&message, &resolutions);
    assert!(matches!(got, Err(ReplacerError::LinkResolutionFailure)));
}

#[test]
fn failed_resolution_aborts_the_transform() {
    let config = config_of(vec![short_link_follower(None, None, None, None), twitter_replacer()]);
    let message =
        "https://short.example/a and https://twitter.com/foo/status/123".to_string();
    let resolutions = vec![resolution("https://short.example/a", None)];
    let got = replace_message(&message, &config, &resolutions);
    assert!(matches!(got, Err(ReplacerError::LinkResolutionFailure)));
}

#[test]
fn candidate_links_come_from_link_followers_only() {
    let config = config_of(vec![twitter_replacer(), short_link_follower(None, None, None, None)]);
    let message =
        "https://twitter.com/foo/status/123 https://short.example/a https://short.example/b"
            .to_string();
    let links = collect_candidate_links(&message, &config);
    assert_eq!(links, vec!["https://short.example/a", "https://short.example/b"]);
}

#[test]
fn duplicate_names_resolve_to_the_last_entry() {
    let first = Replacer::Regex(
        RegexReplacer::new("dup".to_string(), "a".to_string(), "X".to_string()).unwrap(),
    );
    let second = Replacer::Regex(
        RegexReplacer::new("dup".to_string(), "a".to_string(), "Y".to_string()).unwrap(),
    );
    let config = config_of(vec![first, second]);
    let name = "dup".to_string();
    let found = get_replacer_by_name(&name, &config).unwrap();
    let got = found.replace(&"a".to_string(), &no_resolutions()).unwrap();
    assert_eq!(got, "Y");
}

#[test]
fn missing_name_gives_no_replacer() {
    let config = config_of(vec![twitter_replacer()]);
    let name = "ghost".to_string();
    assert!(get_replacer_by_name(&name, &config).is_none());
}

fn fixture_config(want: &str) -> BotConfig {
    BotConfig {
        replacers: Replacers(vec![twitter_replacer()]),
        tests: Tests(vec![ReplacerTests {
            replacer_name: "twitter".to_string(),
            tests: vec![ReplacerTest {
                have: "https://x.com/a/status/1".to_string(),
                want: want.to_string(),
            }],
        }]),
    }
}

#[test]
fn fixture_run_succeeds_on_exact_match() {
    let config = fixture_config("https://vxtwitter.com/a/status/1");
    let got = run_replacer_tests(Some("twitter".to_string()), &config, &no_resolutions());
    assert!(got.is_ok());
}

#[test]
fn fixture_mismatch_names_replacer_and_index() {
    let config = fixture_config("https://example.com/not-it");
    let got = run_replacer_tests(Some("twitter".to_string()), &config, &no_resolutions());
    match got {
        Err(ReplacerError::TestAssertionFailure { replacer_name, test_index, got, want }) => {
            assert_eq!(replacer_name, "twitter");
            assert_eq!(test_index, 1);
            assert_eq!(got, "https://vxtwitter.com/a/status/1");
            assert_eq!(want, "https://example.com/not-it");
        },
        other => panic!("expected a fixture mismatch, got {:?}", other),
    }
}

#[test]
fn fixture_run_for_unknown_name_is_a_configuration_error() {
    let config = fixture_config("https://vxtwitter.com/a/status/1");
    let got = run_replacer_tests(Some("ghost".to_string()), &config, &no_resolutions());
    assert!(matches!(got, Err(ReplacerError::ConfigurationError)));
}

#[test]
fn fixture_group_without_replacer_is_a_configuration_error() {
    let config = BotConfig {
        replacers: Replacers(vec![twitter_replacer()]),
        tests: Tests(vec![ReplacerTests {
            replacer_name: "ghost".to_string(),
            tests: vec![ReplacerTest { have: "x".to_string(), want: "y".to_string() }],
        }]),
    };
    let got = run_replacer_tests(None, &config, &no_resolutions());
    assert!(matches!(got, Err(ReplacerError::ConfigurationError)));
}

#[test]
fn fixture_error_is_coerced_to_empty_string() {
    let config = BotConfig {
        replacers: Replacers(vec![short_link_follower(None, None, None, None)]),
        tests: Tests(vec![ReplacerTests {
            replacer_name: "shortener".to_string(),
            tests: vec![ReplacerTest {
                have: "https://short.example/dead".to_string(),
                want: "".to_string(),
            }],
        }]),
    };
    let resolutions = vec![resolution("https://short.example/dead", None)];
    let got = run_replacer_tests(None, &config, &resolutions);
    assert!(got.is_ok());
}

#[test]
fn tests_filter_by_replacer_name_keeps_only_that_group() {
    let tests = Tests(vec![
        ReplacerTests {
            replacer_name: "twitter".to_string(),
            tests: vec![ReplacerTest { have: "a".to_string(), want: "b".to_string() }],
        },
        ReplacerTests {
            replacer_name: "tiktok".to_string(),
            tests: vec![ReplacerTest { have: "c".to_string(), want: "d".to_string() }],
        },
    ]);
    let config = BotConfig { replacers: Replacers(Vec::new()), tests };
    let filtered = get_tests_by_name("twitter".to_string(), &config);
    assert_eq!(filtered.0.len(), 1);
    assert_eq!(filtered.0[0].replacer_name, "twitter");
    assert_eq!(filtered.0[0].tests.len(), 1);
    assert_eq!(filtered.0[0].tests[0].have, "a");
}
