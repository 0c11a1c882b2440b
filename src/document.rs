//! The document model: a page with its title, body text and outbound links.

use vstd::prelude::*;

verus! {

/// An outbound link of a page: the anchor's visible text and the absolute
/// address it points to.
#[derive(Debug, Clone, PartialEq, Eq, PartialOrd, Ord, Hash)]
pub struct HyperLink {
    pub title: String,
    pub outlink: String,
}

/// A page: its title, its links in document order, and its body text.
#[derive(Debug, Clone, PartialEq, Eq, PartialOrd, Ord, Hash)]
pub struct Page {
    pub title: String,
    pub links: Vec<HyperLink>,
    pub content: String,
}

/// A field-by-field copy of a list of links.
pub fn copy_links(links: &Vec<HyperLink>) -> (r: Vec<HyperLink>)
    ensures
        r@ == links@,
{
    let mut r: Vec<HyperLink> = Vec::new();
    let mut i: usize = 0;
    while i < links.len()
        invariant
            i <= links@.len(),
            r@ == links@.subrange(0, i as int),
        decreases links.len() - i,
    {
        let l = &links[i];
        let c = HyperLink { title: l.title.clone(), outlink: l.outlink.clone() };
        assert(c == links@[i as int]);
        r.push(c);
        assert(r@ =~= links@.subrange(0, i + 1));
        i = i + 1;
    }
    assert(r@ =~= links@);
    r
}

} // verus!
