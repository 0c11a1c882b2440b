//! Article addresses: the title written in an address, and the address of a title.

use vstd::prelude::*;
use crate::markup::{ARTICLE_PREFIX, ORIGIN};
use crate::text::{chars_of, push_str_chars, string_of};

verus! {

/// The part of `s` after its last `/` (all of `s` where it has none).
pub open spec fn last_segment(s: Seq<char>) -> Seq<char>
    decreases s.len(),
{
    if s.len() == 0 {
        s
    } else if s.last() == '/' {
        seq![]
    } else {
        last_segment(s.drop_last()).push(s.last())
    }
}

/// `s` with every `from` replaced by `to`.
pub open spec fn replace_char(s: Seq<char>, from: char, to: char) -> Seq<char> {
    s.map_values(|c: char| if c == from { to } else { c })
}

fn replace_char_range(s: &Vec<char>, start: usize, from: char, to: char) -> (r: Vec<char>)
    requires
        start <= s@.len(),
    ensures
        r@ == replace_char(s@.subrange(start as int, s@.len() as int), from, to),
{
    let mut r: Vec<char> = Vec::new();
    let mut i: usize = start;
    while i < s.len()
        invariant
            start <= i <= s@.len(),
            r@ =~= replace_char(s@.subrange(start as int, i as int), from, to),
        decreases s.len() - i,
    {
        let c = s[i];
        r.push(if c == from { to } else { c });
        assert(r@ =~= replace_char(s@.subrange(start as int, i + 1), from, to));
        i = i + 1;
    }
    r
}

/// The title in an article address: the last path segment with each `_`
/// read as a space, followed by one space.
pub fn title_from_url(url: &str) -> (r: String)
    ensures
        r@ == replace_char(last_segment(url@), '_', ' ').push(' '),
{
    let s = chars_of(url);
    let n = s.len();
    let mut i: usize = n;
    assert(s@.subrange(0, n as int) =~= s@);
    assert(last_segment(s@) =~= last_segment(s@.subrange(0, n as int)) + s@.subrange(
        n as int,
        n as int,
    ));
    while i > 0 && s[i - 1] != '/'
        invariant
            i <= n == s@.len(),
            s@ == url@,
            last_segment(s@) == last_segment(s@.subrange(0, i as int)) + s@.subrange(
                i as int,
                n as int,
            ),
        decreases i,
    {
        let ghost pre = s@.subrange(0, i as int);
        assert(pre.drop_last() =~= s@.subrange(0, i - 1));
        assert(last_segment(pre) == last_segment(pre.drop_last()).push(pre.last()));
        assert(last_segment(s@.subrange(0, i - 1)) + s@.subrange(i - 1, n as int) =~= last_segment(
            pre.drop_last(),
        ).push(pre.last()) + s@.subrange(i as int, n as int));
        i = i - 1;
    }
    assert(last_segment(s@.subrange(0, i as int)) =~= seq![]);
    assert(last_segment(s@) =~= s@.subrange(i as int, n as int));
    let mut r = replace_char_range(&s, i, '_', ' ');
    r.push(' ');
    string_of(&r)
}

/// The address of the article titled `title`: spaces become `_` after the
/// article prefix.
pub fn wiki_url_for(title: &str) -> (r: String)
    ensures
        r@ == ORIGIN@ + ARTICLE_PREFIX@ + replace_char(title@, ' ', '_'),
{
    let mut r = chars_of(ORIGIN);
    push_str_chars(&mut r, ARTICLE_PREFIX);
    let t = chars_of(title);
    let slug = replace_char_range(&t, 0, ' ', '_');
    assert(t@.subrange(0, t@.len() as int) =~= t@);
    let mut i: usize = 0;
    let ghost base = r@;
    while i < slug.len()
        invariant
            i <= slug@.len(),
            r@ =~= base + slug@.subrange(0, i as int),
        decreases slug.len() - i,
    {
        r.push(slug[i]);
        i = i + 1;
    }
    assert(slug@.subrange(0, slug@.len() as int) =~= slug@);
    string_of(&r)
}

} // verus!
