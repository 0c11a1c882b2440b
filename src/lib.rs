//! Extraction of article documents from a parsed markup tree, text
//! normalisation, and term-frequency similarity between documents.

pub mod document;
pub mod markup;
pub mod normalize;
pub mod ranking;
pub mod similarity;
pub mod stop_words;
pub mod text;
pub mod url_utils;
pub mod vector;

pub use document::{HyperLink, Page};
pub use markup::{process_content, MarkupElement, MarkupNode};
pub use normalize::{clean_document, clean_meta_content};
pub use ranking::{get_most_similar_page, get_page_similarity};
pub use similarity::{cosine_sim, Similarity};
pub use url_utils::{title_from_url, wiki_url_for};
pub use vector::{build_vocabulary, page_to_vec, TermVector, Vocabulary};
