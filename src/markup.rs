//! The markup extractor: walks a parsed content tree, gathering its prose
//! text and its links to other articles.

use vstd::prelude::*;
use crate::document::{HyperLink, Page};
use crate::normalize::{clean_meta_content, structural};
use crate::text::{
    chars_of, is_trimmed, push_str_chars, single_spaced, spells, starts_with_str, string_of,
    trim_chars, trimmed,
};

verus! {

/// A node of a parsed markup tree, holding what extraction reads of it.
#[derive(Debug)]
pub enum MarkupNode {
    Text(String),
    Element(MarkupElement),
}

/// An element: its tag name, its `href` attribute if it has one, and its
/// children in document order.
#[derive(Debug)]
pub struct MarkupElement {
    pub name: String,
    pub href: Option<String>,
    pub children: Vec<MarkupNode>,
}

/// The tag name of an anchor.
pub const ANCHOR_TAG: &'static str = "a";

/// The path prefix of article links.
pub const ARTICLE_PREFIX: &'static str = "/wiki/";

/// The origin that article paths are resolved against.
pub const ORIGIN: &'static str = "https://en.wikipedia.org";

/// All text under a node, in document order.
pub open spec fn inner_text(n: MarkupNode) -> Seq<char>
    decreases n,
{
    match n {
        MarkupNode::Text(t) => t@,
        MarkupNode::Element(e) => inner_text_all(e.children@),
    }
}

/// All text under a sequence of nodes, in document order.
pub open spec fn inner_text_all(ns: Seq<MarkupNode>) -> Seq<char>
    decreases ns,
{
    if ns.len() == 0 {
        seq![]
    } else {
        inner_text_all(ns.drop_last()) + inner_text(ns.last())
    }
}

pub open spec fn is_anchor(e: MarkupElement) -> bool {
    e.name@ == ANCHOR_TAG@
}

/// The prose of a node: its text, leaving out everything under anchors.
pub open spec fn body_text(n: MarkupNode) -> Seq<char>
    decreases n,
{
    match n {
        MarkupNode::Text(t) => t@,
        MarkupNode::Element(e) => if is_anchor(e) {
            seq![]
        } else {
            body_text_all(e.children@)
        },
    }
}

pub open spec fn body_text_all(ns: Seq<MarkupNode>) -> Seq<char>
    decreases ns,
{
    if ns.len() == 0 {
        seq![]
    } else {
        body_text_all(ns.drop_last()) + body_text(ns.last())
    }
}

/// A link as (anchor text, absolute target).
pub open spec fn link_model(l: HyperLink) -> (Seq<char>, Seq<char>) {
    (l.title@, l.outlink@)
}

/// The article links of a node, in document order: an anchor whose `href`
/// begins with the article prefix gives one link, and nothing under an
/// anchor is searched further.
pub open spec fn links_of(n: MarkupNode) -> Seq<(Seq<char>, Seq<char>)>
    decreases n,
{
    match n {
        MarkupNode::Text(_) => seq![],
        MarkupNode::Element(e) => if is_anchor(e) {
            match e.href {
                Some(h) => if ARTICLE_PREFIX@.is_prefix_of(h@) {
                    seq![(inner_text_all(e.children@), ORIGIN@ + h@)]
                } else {
                    seq![]
                },
                None => seq![],
            }
        } else {
            links_of_all(e.children@)
        },
    }
}

pub open spec fn links_of_all(ns: Seq<MarkupNode>) -> Seq<(Seq<char>, Seq<char>)>
    decreases ns,
{
    if ns.len() == 0 {
        seq![]
    } else {
        links_of_all(ns.drop_last()) + links_of(ns.last())
    }
}

pub open spec fn link_models(ls: Seq<HyperLink>) -> Seq<(Seq<char>, Seq<char>)> {
    ls.map_values(|l: HyperLink| link_model(l))
}

/// Appends all text under `ns` to `out`.
fn append_inner_text(ns: &Vec<MarkupNode>, out: &mut Vec<char>)
    ensures
        final(out)@ == old(out)@ + inner_text_all(ns@),
    decreases ns@,
{
    let mut i: usize = 0;
    while i < ns.len()
        invariant
            i <= ns@.len(),
            out@ == old(out)@ + inner_text_all(ns@.subrange(0, i as int)),
        decreases ns.len() - i,
    {
        assert(ns@.subrange(0, i + 1).drop_last() =~= ns@.subrange(0, i as int));
        assert(ns@.subrange(0, i + 1).last() == ns@[i as int]);
        match &ns[i] {
            MarkupNode::Text(t) => {
                assert(inner_text(ns@[i as int]) == t@);
                push_str_chars(out, t.as_str());
            },
            MarkupNode::Element(e) => {
                assert(inner_text(ns@[i as int]) == inner_text_all(e.children@));
                assert(decreases_to!(ns@ => ns@[i as int]));
                append_inner_text(&e.children, out);
            },
        }
        assert(out@ =~= old(out)@ + inner_text_all(ns@.subrange(0, i + 1)));
        i = i + 1;
    }
    assert(ns@.subrange(0, ns@.len() as int) =~= ns@);
}

/// Walks `ns`, appending prose to `body` and article links to `links`.
fn walk(ns: &Vec<MarkupNode>, body: &mut Vec<char>, links: &mut Vec<HyperLink>)
    ensures
        final(body)@ == old(body)@ + body_text_all(ns@),
        link_models(final(links)@) == link_models(old(links)@) + links_of_all(ns@),
    decreases ns@,
{
    let mut i: usize = 0;
    while i < ns.len()
        invariant
            i <= ns@.len(),
            body@ == old(body)@ + body_text_all(ns@.subrange(0, i as int)),
            link_models(links@) == link_models(old(links)@) + links_of_all(
                ns@.subrange(0, i as int),
            ),
        decreases ns.len() - i,
    {
        let ghost pre_links = link_models(links@);
        let ghost n = ns@[i as int];
        assert(ns@.subrange(0, i + 1).drop_last() =~= ns@.subrange(0, i as int));
        assert(ns@.subrange(0, i + 1).last() == n);
        match &ns[i] {
            MarkupNode::Text(t) => {
                assert(body_text(n) == t@);
                assert(links_of(n) =~= seq![]);
                push_str_chars(body, t.as_str());
                assert(link_models(links@) =~= pre_links + links_of(n));
            },
            MarkupNode::Element(e) => {
                let name = chars_of(e.name.as_str());
                if spells(&name, ANCHOR_TAG) {
                    assert(body_text(n) =~= seq![]);
                    match &e.href {
                        Some(h) => {
                            let hc = chars_of(h.as_str());
                            if starts_with_str(&hc, ARTICLE_PREFIX) {
                                let mut text: Vec<char> = Vec::new();
                                assert(decreases_to!(ns@ => ns@[i as int]));
                                append_inner_text(&e.children, &mut text);
                                let mut target: Vec<char> = chars_of(ORIGIN);
                                push_str_chars(&mut target, h.as_str());
                                let link = HyperLink {
                                    title: string_of(&text),
                                    outlink: string_of(&target),
                                };
                                links.push(link);
                                assert(links_of(n) == seq![link_model(link)]);
                                assert(link_models(links@) =~= pre_links.push(link_model(link)));
                            } else {
                                assert(links_of(n) =~= seq![]);
                            }
                        },
                        None => {
                            assert(links_of(n) =~= seq![]);
                        },
                    }
                    assert(body@ =~= old(body)@ + body_text_all(ns@.subrange(0, i as int)) + body_text(n));
                    assert(link_models(links@) =~= pre_links + links_of(n));
                } else {
                    assert(body_text(n) == body_text_all(e.children@));
                    assert(links_of(n) == links_of_all(e.children@));
                    assert(decreases_to!(ns@ => ns@[i as int]));
                    walk(&e.children, body, links);
                }
            },
        }
        assert(body@ =~= old(body)@ + body_text_all(ns@.subrange(0, i + 1)));
        assert(link_models(links@) =~= link_models(old(links)@) + links_of_all(
            ns@.subrange(0, i + 1),
        ));
        i = i + 1;
    }
    assert(ns@.subrange(0, ns@.len() as int) =~= ns@);
}

/// Builds a page from the content element of an article: the prose under
/// `element`, structurally cleaned once, its article links in document
/// order, and the trimmed title.
pub fn process_content(element: &MarkupElement, page_title: &str) -> (r: Page)
    ensures
        r.title@ == trimmed(page_title@),
        r.content@ == structural(body_text_all(element.children@)),
        is_trimmed(r.content@),
        single_spaced(r.content@),
        link_models(r.links@) == links_of_all(element.children@),
{
    let mut body: Vec<char> = Vec::new();
    let mut links: Vec<HyperLink> = Vec::new();
    assert(link_models(links@) =~= seq![]);
    walk(&element.children, &mut body, &mut links);
    assert(link_models(links@) =~= links_of_all(element.children@));
    let raw = string_of(&body);
    let title = string_of(&trim_chars(&chars_of(page_title)));
    Page { title, links, content: clean_meta_content(raw.as_str()) }
}

} // verus!
