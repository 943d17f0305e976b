use articles::api::ApiErr;
use articles::api::ArticleError;
use articles::api::ArticleInsert;
use articles::api::LinkError;
use articles::api::TagError;
use articles::api::validate_content;
use articles::extractor::build_preview;
use articles::extractor::detect_language;
use articles::extractor::extract_article;
use articles::extractor::join_fragments;

#[test]
fn extracts_links_from_markdown() {
    let info = extract_article("Hello [here](https://example.com/x) and [there](https://example.org/y).");
    assert_eq!(
        info.links,
        vec!["https://example.com/x".to_string(), "https://example.org/y".to_string()]
    );
}

#[test]
fn plain_paragraph_text_and_preview() {
    let info = extract_article("alpha beta");
    assert_eq!(info.text, "alpha beta");
    assert_eq!(info.preview, "alpha beta ");
    assert_eq!(info.language, "english");
    assert!(info.links.is_empty());
}

#[test]
fn preview_skips_words_that_do_not_fit() {
    let long = "a".repeat(200);
    let preview = build_preview(&vec![long, "hi".to_string()]);
    assert_eq!(preview, "hi ");
}

#[test]
fn preview_stays_within_the_limit() {
    let content = "word ".repeat(100);
    let info = extract_article(&content);
    assert!(info.preview.len() <= 141);
    assert!(info.preview.ends_with(' '));
}

#[test]
fn join_fragments_uses_single_spaces() {
    let text = join_fragments(&vec!["one".to_string(), "two".to_string(), "three".to_string()]);
    assert_eq!(text, "one two three");
    assert_eq!(join_fragments(&vec![]), "");
}

#[test]
fn language_detection_maps_to_known_names() {
    assert_eq!(
        detect_language("The quick brown fox jumps over the lazy dog near the river bank."),
        "english"
    );
    assert_eq!(
        detect_language(
            "Die Würde des Menschen ist unantastbar. Sie zu achten und zu schützen ist \
             Verpflichtung aller staatlichen Gewalt."
        ),
        "german"
    );
    assert_eq!(
        detect_language(
            "Я помню чудное мгновенье: передо мной явилась ты, как мимолётное виденье, \
             как гений чистой красоты. В томленьях грусти безнадежной, в тревогах шумной \
             суеты, звучал мне долго голос нежный и снились милые черты."
        ),
        "russian"
    );
    // anything unrecognised counts as english
    assert_eq!(detect_language(""), "english");
}

#[test]
fn article_validation() {
    let good = ArticleInsert {
        id: None,
        title: "a title",
        content: "some content".to_string(),
        tags: vec!["rust", "notes"],
    };
    assert!(validate_content(&good));

    let no_title = ArticleInsert { id: None, title: "", content: "c".to_string(), tags: vec![] };
    assert!(!validate_content(&no_title));

    let no_content = ArticleInsert { id: None, title: "t", content: String::new(), tags: vec![] };
    assert!(!validate_content(&no_content));

    let empty_tag = ArticleInsert {
        id: None,
        title: "t",
        content: "c".to_string(),
        tags: vec!["ok", ""],
    };
    assert!(!validate_content(&empty_tag));
}

#[test]
fn error_status_codes() {
    assert_eq!(ArticleError::NotFound.status(), 404);
    assert_eq!(ArticleError::BadContent.status(), 400);
    assert_eq!(ArticleError::Internal.status(), 500);
    assert_eq!(TagError::Internal.status(), 500);
    assert_eq!(LinkError::Internal.status(), 500);
    let wrapped: ApiErr<ArticleError> = ArticleError::NotFound.into();
    assert_eq!(wrapped.0.status(), 404);
}
