use wiki_info::{title_from_url, wiki_url_for};

#[test]
fn test_url_utils_title_from_url() {
    let url = "https://en.wikipedia.org/wiki/Rust_(programming_language)";
    let title = title_from_url(url);
    assert_eq!(title, "Rust (programming language) ");
}

#[test]
fn title_from_url_without_slash() {
    assert_eq!(title_from_url("Just_A_Slug"), "Just A Slug ");
    assert_eq!(title_from_url("https://x/"), " ");
}

#[test]
fn wiki_url_for_title_with_spaces() {
    assert_eq!(
        wiki_url_for("Prime Minister of France"),
        "https://en.wikipedia.org/wiki/Prime_Minister_of_France"
    );
}
