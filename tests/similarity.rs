use wiki_info::similarity::mul_wide;
use wiki_info::{
    build_vocabulary, cosine_sim, get_most_similar_page, get_page_similarity, page_to_vec, Page,
};

fn page(title: &str, content: &str) -> Page {
    Page { title: title.to_string(), content: content.to_string(), links: vec![] }
}

#[test]
fn test_cosine_similarity() {
    let vec1 = vec![2, 1, 0];
    let vec2 = vec![1, 2, 0];
    let sim = cosine_sim(&vec1, &vec2);
    assert!(sim.exceeds(7, 10));
    assert!(!sim.exceeds(4, 5));
}

#[test]
fn test_get_page_similarity() {
    let page1 = Page {
        title: "Page 1".to_string(),
        content: "The quick brown fox jumps over the lazy dog.".to_string(),
        links: vec![],
    };
    let page2 = Page {
        title: "Page 2".to_string(),
        content: "The quick brown cat sleeps under the lazy dog.".to_string(),
        links: vec![],
    };
    let similarity = get_page_similarity(&page1, &page2);
    assert!(similarity.exceeds(1, 2));
}

#[test]
fn page_similarity_exact_parts() {
    let s = get_page_similarity(
        &page("1", "The quick brown fox jumps over the lazy dog."),
        &page("2", "The quick brown cat sleeps under the lazy dog."),
    );
    assert_eq!((s.dot, s.norm_sq_a, s.norm_sq_b), (3, 5, 5));
}

#[test]
fn orthogonal_vectors_have_zero_similarity() {
    let s = cosine_sim(&vec![1, 0], &vec![0, 1]);
    assert!(s.is_zero());
    assert_eq!(s.dot, 0);
}

#[test]
fn self_similarity_is_one() {
    let v = vec![3, 0, 7, 1];
    let s = cosine_sim(&v, &v);
    assert!(s.exceeds(99, 100));
    assert!(!s.exceeds(1, 1));
    assert!(!s.is_less_than(&cosine_sim(&v, &vec![1, 1, 1, 1])));
}

#[test]
fn zero_vector_has_zero_similarity() {
    let s = cosine_sim(&vec![0, 0], &vec![4, 5]);
    assert!(s.is_zero());
    assert!(!s.exceeds(0, 1));
}

#[test]
fn disjoint_pages_have_zero_similarity() {
    let s = get_page_similarity(&page("1", "apple banana cherry"), &page("2", "violin trumpet drum"));
    assert!(s.is_zero());
}

#[test]
fn identical_pages_are_practically_identical() {
    let s = get_page_similarity(&page("1", "rivers mountains valleys rivers"), &page("2", "rivers mountains valleys rivers"));
    assert!(s.exceeds(98, 100));
}

#[test]
fn most_similar_finds_identical_candidate() {
    let reference = page("R", "Paris is the capital city of France on the river Seine");
    let candidates = vec![
        page("A", "Guitar strings vibrate loudly"),
        page("B", "Paris is the capital city of France on the river Seine"),
        page("C", "France has many rivers"),
    ];
    assert_eq!(get_most_similar_page(&reference, &candidates), 1);
}

#[test]
fn most_similar_ties_go_to_lowest_index() {
    let reference = page("R", "alpha beta");
    let candidates = vec![page("A", "gamma"), page("B", "alpha beta"), page("C", "alpha beta")];
    assert_eq!(get_most_similar_page(&reference, &candidates), 1);
}

#[test]
fn most_similar_all_zero_returns_first() {
    let reference = page("R", "alpha beta");
    let candidates = vec![page("A", "gamma"), page("B", "delta"), page("C", "")];
    assert_eq!(get_most_similar_page(&reference, &candidates), 0);
}

#[test]
fn most_similar_with_no_candidates_is_zero() {
    assert_eq!(get_most_similar_page(&page("R", "alpha"), &vec![]), 0);
}

#[test]
fn vocabulary_first_seen_order() {
    let pages = vec![page("0", "Zebra apple zebra"), page("1", "apple mango")];
    let v = build_vocabulary(&pages);
    assert_eq!(v.len(), 3);
    assert_eq!(v.index_of("zebra"), Some(0));
    assert_eq!(v.index_of("apple"), Some(1));
    assert_eq!(v.index_of("mango"), Some(2));
    assert_eq!(v.index_of("kiwi"), None);
    let again = build_vocabulary(&pages);
    assert_eq!(again.terms, v.terms);
}

#[test]
fn vocabulary_first_index_from_second_page_when_first_is_empty() {
    let pages = vec![page("0", "the and 123"), page("1", "mango apple")];
    let v = build_vocabulary(&pages);
    assert_eq!(v.index_of("mango"), Some(0));
    assert_eq!(v.index_of("apple"), Some(1));
}

#[test]
fn term_vector_counts_and_total() {
    let pages = vec![page("0", "apple banana apple cherry")];
    let v = build_vocabulary(&pages);
    let tv = page_to_vec(&page("x", "apple apple kiwi"), &v);
    assert_eq!(tv.counts, vec![2, 0, 0]);
    assert_eq!(tv.tokens, 3);
}

#[test]
fn term_vector_of_empty_page_is_zero() {
    let pages = vec![page("0", "apple banana")];
    let v = build_vocabulary(&pages);
    let tv = page_to_vec(&page("x", "The, and."), &v);
    assert_eq!(tv.counts, vec![0, 0]);
    assert_eq!(tv.tokens, 0);
}

#[test]
fn wide_multiplication_is_exact() {
    assert_eq!(mul_wide(u128::MAX, u128::MAX), (u128::MAX - 1, 1));
    assert_eq!(mul_wide(1 << 64, 1 << 64), (1, 0));
    assert_eq!(mul_wide(12345, 678), (0, 12345 * 678));
}
