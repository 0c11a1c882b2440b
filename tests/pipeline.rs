use scraper::{ElementRef, Html, Selector};
use wiki_info::markup::{MarkupElement, MarkupNode};
use wiki_info::normalize::strip_empty_brackets;
use wiki_info::{clean_document, clean_meta_content, process_content, HyperLink, Page};

fn to_markup(element: ElementRef) -> MarkupElement {
    let mut children = Vec::new();
    for node in element.children() {
        if let Some(text) = node.value().as_text() {
            children.push(MarkupNode::Text(String::from(&**text)));
        } else if let Some(child) = ElementRef::wrap(node) {
            children.push(MarkupNode::Element(to_markup(child)));
        }
    }
    MarkupElement {
        name: element.value().name().to_string(),
        href: element.value().attr("href").map(|h| h.to_string()),
        children,
    }
}

fn page(title: &str, content: &str) -> Page {
    Page { title: title.to_string(), content: content.to_string(), links: vec![] }
}

fn text(s: &str) -> MarkupNode {
    MarkupNode::Text(s.to_string())
}

fn element(name: &str, href: Option<&str>, children: Vec<MarkupNode>) -> MarkupNode {
    MarkupNode::Element(MarkupElement {
        name: name.to_string(),
        href: href.map(|h| h.to_string()),
        children,
    })
}

#[test]
fn test_clean_meta_content() {
    let raw_content = "   Some content \nwith \n\nlots of  whitespace. ";
    let cleaned = clean_meta_content(raw_content);
    assert_eq!(cleaned, "Some content with lots of whitespace.");
}

#[test]
fn test_process_content() {
    let html = r#"
        <html>
            <body>
                <div class="mw-content-container">
                    <main id="content">
                        <p>This is a test paragraph with <a href="/wiki/Test_Link">a link</a>.</p>
                    </main>
                </div>
            </body>
        </html>
        "#;
    let document = Html::parse_document(html);
    let selector = Selector::parse("div.mw-content-container main#content").unwrap();
    let element = document.select(&selector).next().unwrap();

    let page = process_content(&to_markup(element), "Test Page");
    assert_eq!(page.title, "Test Page");
    assert!(page.content.contains("This is a test paragraph"));
    assert_eq!(page.links.len(), 1);
    assert_eq!(page.links[0].title, "a link");
    assert_eq!(page.links[0].outlink, "https://en.wikipedia.org/wiki/Test_Link");
}

#[test]
fn test_clean_document() {
    let page = Page {
        title: "Test Page".to_string(),
        content: "The quick brown fox jumps over the lazy dog.".to_string(),
        links: vec![],
    };
    let cleaned = clean_document(&page);
    assert!(cleaned.content.contains("quick"));
    assert!(!cleaned.content.contains("the"));
}

#[test]
fn clean_document_exact_tokens() {
    let cleaned = clean_document(&page("T", "The quick brown fox jumps over the lazy dog."));
    assert_eq!(cleaned.content, "quick brown fox jumps lazy");
    assert_eq!(cleaned.title, "T");
}

#[test]
fn clean_document_keeps_title_and_links() {
    let links = vec![HyperLink { title: "x".to_string(), outlink: "https://en.wikipedia.org/wiki/X".to_string() }];
    let p = Page { title: "  Keep me ".to_string(), content: "Alpha".to_string(), links: links.clone() };
    let cleaned = clean_document(&p);
    assert_eq!(cleaned.title, "  Keep me ");
    assert_eq!(cleaned.links, links);
    assert_eq!(cleaned.content, "alpha");
}

#[test]
fn clean_document_drops_stop_words_as_tokens_only() {
    let cleaned = clean_document(&page("T", "the and a theatre band Anderson THE And A"));
    let words: Vec<&str> = cleaned.content.split_whitespace().collect();
    assert!(!words.contains(&"the"));
    assert!(!words.contains(&"and"));
    assert!(!words.contains(&"a"));
    assert_eq!(words, vec!["theatre", "band", "anderson"]);
}

#[test]
fn clean_document_drops_impure_tokens() {
    let cleaned = clean_document(&page("T", "rust2024 C++ café naïve ok-go plain\tWORD\u{a0}tail"));
    assert_eq!(cleaned.content, "plain word tail");
}

#[test]
fn clean_document_of_empty_body() {
    assert_eq!(clean_document(&page("T", "   \n ")).content, "");
}

#[test]
fn clean_meta_content_strips_style_rules_and_empty_brackets() {
    let raw = "Intro .mw-parser-output .hatnote{font-style:italic} text () and [] end";
    assert_eq!(clean_meta_content(raw), "Intro text and end");
}

#[test]
fn clean_meta_content_on_already_clean_text() {
    let once = clean_meta_content("  Alpha\n\tbeta (x) [y]  ");
    assert_eq!(once, "Alpha beta (x) [y]");
    assert_eq!(clean_meta_content(&once), once);
}

#[test]
fn extraction_filters_non_article_links() {
    let root = MarkupElement {
        name: "main".to_string(),
        href: None,
        children: vec![
            text("Lead "),
            element("a", Some("/wiki/Test_Link"), vec![text("a link")]),
            text(" middle "),
            element("a", Some("/not-wiki/x"), vec![text("elsewhere")]),
            element("a", None, vec![text("no target")]),
            element("div", None, vec![text("nested "), element("b", None, vec![text("bold")])]),
        ],
    };
    let page = process_content(&root, "  Spaced Title \n");
    assert_eq!(page.title, "Spaced Title");
    assert_eq!(
        page.links,
        vec![HyperLink {
            title: "a link".to_string(),
            outlink: "https://en.wikipedia.org/wiki/Test_Link".to_string(),
        }]
    );
    assert_eq!(page.content, "Lead middle nested bold");
}

#[test]
fn extraction_keeps_link_order_and_duplicates() {
    let root = MarkupElement {
        name: "main".to_string(),
        href: None,
        children: vec![
            element("p", None, vec![element("a", Some("/wiki/B"), vec![text("b"), element("i", None, vec![text("!")])])]),
            element("a", Some("/wiki/A"), vec![text("a")]),
            element("a", Some("/wiki/B"), vec![text("b again")]),
        ],
    };
    let page = process_content(&root, "T");
    let targets: Vec<&str> = page.links.iter().map(|l| l.outlink.as_str()).collect();
    assert_eq!(
        targets,
        vec![
            "https://en.wikipedia.org/wiki/B",
            "https://en.wikipedia.org/wiki/A",
            "https://en.wikipedia.org/wiki/B"
        ]
    );
    assert_eq!(page.links[0].title, "b!");
    assert_eq!(page.content, "");
}

#[test]
fn strip_empty_brackets_removes_left_to_right() {
    assert_eq!(strip_empty_brackets("a () b [] c (x) [y]"), "a  b  c (x) [y]");
    assert_eq!(strip_empty_brackets("(())"), "()");
    assert_eq!(strip_empty_brackets("[(])"), "[(])");
}

#[test]
fn clean_meta_content_leaves_single_spaces_where_pairs_were() {
    let once = clean_meta_content("a () b");
    assert_eq!(once, "a b");
    assert_eq!(clean_meta_content(&once), once);
}

#[test]
fn clean_meta_content_removes_nested_empty_pairs() {
    assert_eq!(clean_meta_content("x (()) y [[]] z"), "x y z");
    assert_eq!(clean_meta_content("(())"), "");
    assert_eq!(clean_meta_content("([])"), "");
}

#[test]
fn clean_meta_content_removes_style_rule_split_by_newline() {
    assert_eq!(clean_meta_content(".mw-a\n{b} c"), "c");
    assert_eq!(clean_meta_content("keep\n\t\u{a0} .mw-x{y} (.mw-z{w}) end "), "keep end");
}

#[test]
fn clean_meta_content_is_idempotent_on_samples() {
    for raw in ["  a  ( ) b\n", "[.mw-q{r}]x", "\u{2003}lead and trail\u{3000}", "", "   "] {
        let once = clean_meta_content(raw);
        assert_eq!(clean_meta_content(&once), once);
        assert!(!once.contains("  ") && !once.contains("()") && !once.contains("[]"));
        assert_eq!(once.trim(), once);
    }
}
