//! The fixed set of English function words that lexical cleaning drops.

use vstd::prelude::*;
use crate::text::spells;

verus! {

/// The stop words, all lower-case ASCII letters.
pub open spec fn stop_words() -> Seq<Seq<char>> {
    seq![
        "i"@, "me"@, "my"@, "myself"@, "we"@, "our"@, "ours"@, "ourselves"@, "you"@, "your"@,
        "yours"@, "yourself"@, "yourselves"@, "he"@, "him"@, "his"@, "himself"@, "she"@, "her"@,
        "hers"@, "herself"@, "it"@, "its"@, "itself"@, "they"@, "them"@, "their"@, "theirs"@,
        "themselves"@, "what"@, "which"@, "who"@, "whom"@, "this"@, "that"@, "these"@, "those"@,
        "am"@, "is"@, "are"@, "was"@, "were"@, "be"@, "been"@, "being"@, "have"@, "has"@,
        "had"@, "having"@, "do"@, "does"@, "did"@, "doing"@, "a"@, "an"@, "the"@, "and"@,
        "but"@, "if"@, "or"@, "because"@, "as"@, "until"@, "while"@, "of"@, "at"@, "by"@,
        "for"@, "with"@, "about"@, "against"@, "between"@, "into"@, "through"@, "during"@,
        "before"@, "after"@, "above"@, "below"@, "to"@, "from"@, "up"@, "down"@, "in"@, "out"@,
        "on"@, "off"@, "over"@, "under"@, "again"@, "further"@, "then"@, "once"@, "here"@,
        "there"@, "when"@, "where"@, "why"@, "how"@, "all"@, "any"@, "both"@, "each"@, "few"@,
        "more"@, "most"@, "other"@, "some"@, "such"@, "no"@, "nor"@, "not"@, "only"@, "own"@,
        "same"@, "so"@, "than"@, "too"@, "very"@, "s"@, "t"@, "can"@, "will"@, "just"@, "don"@,
        "should"@, "now"@, "d"@, "ll"@, "m"@, "o"@, "re"@, "ve"@, "y"@, "ain"@, "aren"@,
        "couldn"@, "didn"@, "doesn"@, "hadn"@, "hasn"@, "haven"@, "isn"@, "ma"@, "mightn"@,
        "mustn"@, "needn"@, "shan"@, "shouldn"@, "wasn"@, "weren"@, "won"@, "wouldn"@,
    ]
}

/// Whether `t` is one of the stop words.
pub open spec fn is_stop_word(t: Seq<char>) -> bool {
    stop_words().contains(t)
}

fn stop_word_list() -> (r: Vec<&'static str>)
    ensures
        r@.map_values(|s: &'static str| s@) == stop_words(),
{
    let r = vec![
        "i", "me", "my", "myself", "we", "our", "ours", "ourselves", "you", "your", "yours",
        "yourself", "yourselves", "he", "him", "his", "himself", "she", "her", "hers",
        "herself", "it", "its", "itself", "they", "them", "their", "theirs", "themselves",
        "what", "which", "who", "whom", "this", "that", "these", "those", "am", "is", "are",
        "was", "were", "be", "been", "being", "have", "has", "had", "having", "do", "does",
        "did", "doing", "a", "an", "the", "and", "but", "if", "or", "because", "as", "until",
        "while", "of", "at", "by", "for", "with", "about", "against", "between", "into",
        "through", "during", "before", "after", "above", "below", "to", "from", "up", "down",
        "in", "out", "on", "off", "over", "under", "again", "further", "then", "once", "here",
        "there", "when", "where", "why", "how", "all", "any", "both", "each", "few", "more",
        "most", "other", "some", "such", "no", "nor", "not", "only", "own", "same", "so",
        "than", "too", "very", "s", "t", "can", "will", "just", "don", "should", "now", "d",
        "ll", "m", "o", "re", "ve", "y", "ain", "aren", "couldn", "didn", "doesn", "hadn",
        "hasn", "haven", "isn", "ma", "mightn", "mustn", "needn", "shan", "shouldn", "wasn",
        "weren", "won", "wouldn",
    ];
    assert(r@.map_values(|s: &'static str| s@) =~= stop_words());
    r
}

/// Membership in the stop-word set.
pub fn is_stop_word_chars(t: &Vec<char>) -> (r: bool)
    ensures
        r == is_stop_word(t@),
{
    let list = stop_word_list();
    let ghost views = list@.map_values(|s: &'static str| s@);
    let mut i: usize = 0;
    while i < list.len()
        invariant
            i <= list@.len(),
            views == stop_words(),
            views == list@.map_values(|s: &'static str| s@),
            forall|k: int| 0 <= k < i ==> views[k] != t@,
        decreases list.len() - i,
    {
        assert(views[i as int] == list@[i as int]@);
        if spells(t, list[i]) {
            return true;
        }
        i = i + 1;
    }
    assert(!stop_words().contains(t@));
    false
}

} // verus!
