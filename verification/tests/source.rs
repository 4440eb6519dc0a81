use roadline::fragment::{
    extract_markdown_fragments, fragments_of_events, GitHubMetadataCollector, HeadingIdGenerator, MdEvent, MetadataError,
};
use roadline::github_url::{GitHubSourceError, GitHubUrl, GitHubUrlType};
use roadline::ids::TaskId;

const OROAD_0_RAW_URL: &str = "https://raw.githubusercontent.com/ramate-io/oac/refs/heads/main/oroad/oera-000-000-000-dulan/oroad-000-000-000/README.md";
const OROAD_0_TREE_URL: &str = "https://github.com/ramate-io/oac/tree/refs/heads/main/oroad/oera-000-000-000-dulan/oroad-000-000-000/README.md";
const OROAD_0_BLOB_URL: &str = "https://github.com/ramate-io/oac/blob/refs/heads/main/oroad/oera-000-000-000-dulan/oroad-000-000-000/README.md";
const OROAD_0_REPO_PATH: &str = "ramate-io/oac/oroad/oera-000-000-000-dulan/oroad-000-000-000/README.md";
const OROAD_0_PATH: &str = "oroad/oera-000-000-000-dulan/oroad-000-000-000/README.md";

// === URL parsing ===

#[test]
fn test_parse_oroad_0_raw_url() {
    let (parsed, url_type) = GitHubUrl::parse(OROAD_0_RAW_URL).unwrap();
    assert_eq!(url_type, GitHubUrlType::Raw);
    assert_eq!(parsed.owner, "ramate-io");
    assert_eq!(parsed.repo, "oac");
    assert_eq!(parsed.reference, "refs/heads/main");
    assert_eq!(parsed.path, OROAD_0_PATH);
}

#[test]
fn test_parse_oroad_0_tree_url() {
    let (parsed, url_type) = GitHubUrl::parse(OROAD_0_TREE_URL).unwrap();
    assert_eq!(url_type, GitHubUrlType::Tree);
    assert_eq!(parsed.owner, "ramate-io");
    assert_eq!(parsed.repo, "oac");
    assert_eq!(parsed.reference, "refs/heads/main");
    assert_eq!(parsed.path, OROAD_0_PATH);
}

#[test]
fn test_parse_oroad_0_blob_url() {
    let (parsed, url_type) = GitHubUrl::parse(OROAD_0_BLOB_URL).unwrap();
    assert_eq!(url_type, GitHubUrlType::Blob);
    assert_eq!(parsed.owner, "ramate-io");
    assert_eq!(parsed.repo, "oac");
    assert_eq!(parsed.reference, "refs/heads/main");
    assert_eq!(parsed.path, OROAD_0_PATH);
}

#[test]
fn test_parse_oroad_0_repository_path() {
    let (parsed, url_type) = GitHubUrl::parse(OROAD_0_REPO_PATH).unwrap();
    assert_eq!(url_type, GitHubUrlType::Repository);
    assert_eq!(parsed.owner, "ramate-io");
    assert_eq!(parsed.repo, "oac");
    assert_eq!(parsed.reference, "main");
    assert_eq!(parsed.path, OROAD_0_PATH);
}

#[test]
fn test_url_conversion() {
    let (parsed, _) = GitHubUrl::parse(OROAD_0_RAW_URL).unwrap();
    let raw_url = parsed.to_raw_url();
    assert_eq!(raw_url, OROAD_0_RAW_URL);
    let api_url = parsed.to_api_url();
    assert!(api_url.contains("api.github.com"));
    assert!(api_url.contains("ramate-io/oac"));
    assert!(api_url.contains(OROAD_0_PATH));
    assert!(api_url.contains("ref=refs/heads/main"));
}

#[test]
fn test_invalid_url_formats() {
    let invalid_urls = vec![
        "https://example.com/file.md",
        "not-a-url",
        "https://github.com/owner/repo",
        "https://raw.githubusercontent.com/owner",
    ];
    for url in invalid_urls {
        let result = GitHubUrl::parse(url);
        assert!(result.is_err(), "Should fail to parse invalid URL: {}", url);
    }
}

#[test]
fn test_parse_tree_url() {
    let url = "https://github.com/ramate-io/oac/tree/main/oroad/oera-000-000-000-dulan/oroad-000-000-000/README.md";
    let (parsed, url_type) = GitHubUrl::parse(url).unwrap();
    assert_eq!(url_type, GitHubUrlType::Tree);
    assert_eq!(parsed.owner, "ramate-io");
    assert_eq!(parsed.repo, "oac");
    assert_eq!(parsed.reference, "main");
    assert_eq!(parsed.path, OROAD_0_PATH);
}

#[test]
fn test_parse_blob_url() {
    let url = "https://github.com/ramate-io/oac/blob/main/oroad/oera-000-000-000-dulan/oroad-000-000-000/README.md";
    let (parsed, url_type) = GitHubUrl::parse(url).unwrap();
    assert_eq!(url_type, GitHubUrlType::Blob);
    assert_eq!(parsed.owner, "ramate-io");
    assert_eq!(parsed.repo, "oac");
    assert_eq!(parsed.reference, "main");
    assert_eq!(parsed.path, OROAD_0_PATH);
}

#[test]
fn test_parse_repository_path() {
    let path = "ramate-io/oac/oroad/oera-000-000-000-dulan/oroad-000-000-000/README.md";
    let (parsed, url_type) = GitHubUrl::parse(path).unwrap();
    assert_eq!(url_type, GitHubUrlType::Repository);
    assert_eq!(parsed.owner, "ramate-io");
    assert_eq!(parsed.repo, "oac");
    assert_eq!(parsed.reference, "main");
    assert_eq!(parsed.path, OROAD_0_PATH);
}

fn readme_main() -> GitHubUrl {
    GitHubUrl {
        owner: "ramate-io".to_string(),
        repo: "oac".to_string(),
        path: "README.md".to_string(),
        reference: "main".to_string(),
    }
}

#[test]
fn test_to_raw_url() {
    assert_eq!(readme_main().to_raw_url(), "https://raw.githubusercontent.com/ramate-io/oac/main/README.md");
}

#[test]
fn test_to_api_url() {
    assert_eq!(
        readme_main().to_api_url(),
        "https://api.github.com/repos/ramate-io/oac/contents/README.md?ref=main"
    );
}

#[test]
fn raw_url_of_a_parsed_url_reads_back() {
    for url in [OROAD_0_TREE_URL, OROAD_0_BLOB_URL, OROAD_0_RAW_URL] {
        let (parsed, _) = GitHubUrl::parse(url).unwrap();
        let (again, url_type) = GitHubUrl::parse(&parsed.to_raw_url()).unwrap();
        assert_eq!(url_type, GitHubUrlType::Raw);
        assert_eq!(again, parsed);
    }
}

#[test]
fn short_branch_in_a_raw_url_is_one_segment() {
    let (parsed, _) = GitHubUrl::parse("https://raw.githubusercontent.com/o/r/dev/docs/a.md").unwrap();
    assert_eq!(parsed.reference, "dev");
    assert_eq!(parsed.path, "docs/a.md");
}

#[test]
fn unsupported_url_is_reported_with_its_text() {
    match GitHubUrl::parse("not-a-url") {
        Err(GitHubSourceError::UrlParsing { message }) => {
            assert_eq!(message, "Unsupported GitHub URL format: not-a-url");
        }
        other => panic!("unexpected result: {:?}", other),
    }
}

#[test]
fn display_string_names_owner_repo_path_and_reference() {
    assert_eq!(readme_main().to_display_string(), "ramate-io/oac/README.md@main");
}

// === fragments ===

#[test]
fn test_sanitize_header_to_fragment() {
    assert_eq!(
        GitHubMetadataCollector::sanitize_header_to_fragment("### T1: Push Towards Validation").unwrap(),
        "t1-push-towards-validation"
    );
    assert_eq!(
        GitHubMetadataCollector::sanitize_header_to_fragment("## T2: Validation and Accepting Contributions").unwrap(),
        "t2-validation-and-accepting-contributions"
    );
    assert_eq!(GitHubMetadataCollector::sanitize_header_to_fragment("# T9: An Interlude").unwrap(), "t9-an-interlude");
    assert_eq!(
        GitHubMetadataCollector::sanitize_header_to_fragment("### T1.1: Complete draft of OART-1: BFA").unwrap(),
        "t11-complete-draft-of-oart-1-bfa"
    );
    assert_eq!(
        GitHubMetadataCollector::sanitize_header_to_fragment(
            "### T3: Continued Validation and [`fuste`](https://github.com/ramate-io/fuste) MVP"
        )
        .unwrap(),
        "t3-continued-validation-and-fuste-mvp"
    );
}

#[test]
fn heading_text_and_code_make_the_fragment() {
    let events = vec![
        MdEvent::Code { text: "outside".to_string() },
        MdEvent::HeadingStart { id: None },
        MdEvent::Text { text: "T1 ".to_string() },
        MdEvent::Code { text: "fuste".to_string() },
        MdEvent::HeadingEnd,
        MdEvent::HeadingStart { id: Some("custom".to_string()) },
        MdEvent::Text { text: "T1 fuste".to_string() },
        MdEvent::HeadingEnd,
        MdEvent::Other,
    ];
    assert_eq!(fragments_of_events(&events), vec!["t1-fuste".to_string(), "custom".to_string(), "t1-fuste-1".to_string()]);
}

#[test]
fn fragment_hyphens_are_collapsed_and_trimmed() {
    assert_eq!(GitHubMetadataCollector::sanitize_header_to_fragment("### T1 - Intro").unwrap(), "t1-intro");
    assert_eq!(GitHubMetadataCollector::sanitize_header_to_fragment("### - T1 -").unwrap(), "t1");
}

#[test]
fn test_metadata_collector() {
    let mut collector = GitHubMetadataCollector::new();
    let task_id = TaskId::new(1);
    collector.record_task(task_id, "### T1: Push Towards Validation").unwrap();
    let fragment = collector.get_fragment(task_id);
    assert_eq!(fragment, Some(&"t1-push-towards-validation".to_string()));
}

#[test]
fn header_without_a_heading_is_refused() {
    let result = GitHubMetadataCollector::sanitize_header_to_fragment("no heading here");
    assert!(matches!(result, Err(MetadataError::InvalidTaskId { .. })));
}

#[test]
fn kebab_white_space_is_unicode_white_space() {
    for code in 0u32..=0x10FFFF {
        if let Some(c) = char::from_u32(code) {
            let k = HeadingIdGenerator::into_kebab_case(&c.to_string());
            assert_eq!(k == "-", c.is_whitespace() || c == '-', "character {:#x}", code);
        }
    }
}

#[test]
fn kebab_case_keeps_letters_digits_and_dashes() {
    assert_eq!(HeadingIdGenerator::into_kebab_case("Hello, World!"), "hello-world");
    assert_eq!(HeadingIdGenerator::into_kebab_case("a_b c-d"), "a_b-c-d");
}

#[test]
fn repeated_headings_get_numbered_ids() {
    let mut generator = HeadingIdGenerator::new();
    assert_eq!(generator.generate("Intro"), "intro");
    assert_eq!(generator.generate("Intro"), "intro-1");
    assert_eq!(generator.generate("Intro"), "intro-2");
    assert_eq!(generator.generate("Other"), "other");
}

#[test]
fn fragments_of_a_document_are_distinct_and_in_order() {
    let fragments = extract_markdown_fragments("# A\n\ntext\n\n## B c\n\n# A\n");
    assert_eq!(fragments, vec!["a".to_string(), "b-c".to_string(), "a-1".to_string()]);
}

// === GitHub client requests and responses ===

use roadline::github_client::{api_content_response, raw_content_response, GitHubClient};

#[test]
fn raw_requests_carry_the_token() {
    let anonymous = GitHubClient::new().raw_content_request("https://example.org/a");
    assert_eq!(anonymous.url, "https://example.org/a");
    assert!(anonymous.headers.is_empty());
    let authed = GitHubClient::with_token("abc".to_string()).content_request(&readme_main());
    assert_eq!(authed.url, "https://raw.githubusercontent.com/ramate-io/oac/main/README.md");
    assert_eq!(authed.headers, vec![("Authorization".to_string(), "token abc".to_string())]);
}

#[test]
fn api_requests_name_the_user_agent() {
    let request = GitHubClient::new().api_content_request(&readme_main());
    assert_eq!(request.url, "https://api.github.com/repos/ramate-io/oac/contents/README.md?ref=main");
    assert_eq!(
        request.headers,
        vec![("User-Agent".to_string(), "roadline-source-github-markdown".to_string())]
    );
}

#[test]
fn raw_responses_by_status() {
    assert_eq!(raw_content_response("u", 200, "200 OK", "body".to_string()).unwrap(), "body");
    match raw_content_response("u", 404, "404 Not Found", String::new()) {
        Err(GitHubSourceError::FetchError { message }) => {
            assert_eq!(message, "Failed to fetch content from u: 404 Not Found")
        }
        other => panic!("unexpected: {:?}", other),
    }
}

#[test]
fn api_responses_decode_base64() {
    assert_eq!(api_content_response("u", 200, "200 OK", "aGVsbG8=", "base64").unwrap(), "hello");
    match api_content_response("u", 200, "200 OK", "hello", "utf-8") {
        Err(GitHubSourceError::FetchError { message }) => assert_eq!(message, "Unsupported encoding: utf-8"),
        other => panic!("unexpected: {:?}", other),
    }
    assert!(matches!(
        api_content_response("u", 200, "200 OK", "***", "base64"),
        Err(GitHubSourceError::FetchError { .. })
    ));
    assert!(matches!(
        api_content_response("u", 200, "200 OK", "/w==", "base64"),
        Err(GitHubSourceError::FetchError { .. })
    ));
    match api_content_response("u", 500, "500 Internal Server Error", "", "") {
        Err(GitHubSourceError::FetchError { message }) => {
            assert_eq!(message, "Failed to fetch content from GitHub API u: 500 Internal Server Error")
        }
        other => panic!("unexpected: {:?}", other),
    }
}
