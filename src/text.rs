//! Character-level helpers: whitespace, trimming, and literal removal.

use vstd::prelude::*;

verus! {

/// Characters with the Unicode `White_Space` property.
pub open spec fn is_white_space(c: char) -> bool {
    ||| ('\u{9}' <= c && c <= '\u{d}')
    ||| c == ' '
    ||| c == '\u{85}'
    ||| c == '\u{a0}'
    ||| c == '\u{1680}'
    ||| ('\u{2000}' <= c && c <= '\u{200a}')
    ||| c == '\u{2028}'
    ||| c == '\u{2029}'
    ||| c == '\u{202f}'
    ||| c == '\u{205f}'
    ||| c == '\u{3000}'
}

pub fn is_white_space_char(c: char) -> (r: bool)
    ensures
        r == is_white_space(c),
{
    ('\u{9}' <= c && c <= '\u{d}') || c == ' ' || c == '\u{85}' || c == '\u{a0}' || c == '\u{1680}'
        || ('\u{2000}' <= c && c <= '\u{200a}') || c == '\u{2028}' || c == '\u{2029}' || c
        == '\u{202f}' || c == '\u{205f}' || c == '\u{3000}'
}

/// The characters of `s`, in order.
pub(crate) fn chars_of(s: &str) -> (r: Vec<char>)
    ensures
        r@ == s@,
{
    broadcast use vstd::string::group_string_axioms;

    let mut r: Vec<char> = Vec::new();
    for c in it: s.chars()
        invariant
            it.seq() == s@,
            r@ == it.seq().subrange(0, it.index() as int),
    {
        r.push(c);
    }
    r
}

/// Relies on `String: FromIterator<&char>`: the string made of `v`'s characters, in order.
#[verifier::external_body]
pub(crate) fn string_of(v: &Vec<char>) -> (r: String)
    ensures
        r@ == v@,
{
    v.iter().collect()
}

/// `s` without its leading whitespace.
pub open spec fn trim_start(s: Seq<char>) -> Seq<char>
    decreases s.len(),
{
    if s.len() > 0 && is_white_space(s[0]) {
        trim_start(s.drop_first())
    } else {
        s
    }
}

/// `s` without its trailing whitespace.
pub open spec fn trim_end(s: Seq<char>) -> Seq<char>
    decreases s.len(),
{
    if s.len() > 0 && is_white_space(s.last()) {
        trim_end(s.drop_last())
    } else {
        s
    }
}

/// `s` without leading or trailing whitespace.
pub open spec fn trimmed(s: Seq<char>) -> Seq<char> {
    trim_end(trim_start(s))
}

/// The characters `v[from..to]` as a new vector.
pub fn copy_range(v: &Vec<char>, from: usize, to: usize) -> (r: Vec<char>)
    requires
        from <= to <= v@.len(),
    ensures
        r@ == v@.subrange(from as int, to as int),
{
    let mut r: Vec<char> = Vec::new();
    let mut i: usize = from;
    while i < to
        invariant
            from <= i <= to <= v@.len(),
            r@ == v@.subrange(from as int, i as int),
        decreases to - i,
    {
        r.push(v[i]);
        i = i + 1;
    }
    r
}

/// Removes leading and trailing whitespace.
pub fn trim_chars(v: &Vec<char>) -> (r: Vec<char>)
    ensures
        r@ == trimmed(v@),
{
    let n = v.len();
    let mut i: usize = 0;
    assert(v@.subrange(0, n as int) =~= v@);
    while i < n && is_white_space_char(v[i])
        invariant
            i <= n == v@.len(),
            trim_start(v@.subrange(i as int, n as int)) == trim_start(v@),
        decreases n - i,
    {
        assert(v@.subrange(i as int, n as int).drop_first() =~= v@.subrange(i + 1, n as int));
        i = i + 1;
    }
    assert(v@.subrange(i as int, n as int) == trim_start(v@)) by {
        if i < n {
            assert(!is_white_space(v@.subrange(i as int, n as int)[0]));
        }
    }
    let mut j: usize = n;
    while j > i && is_white_space_char(v[j - 1])
        invariant
            i <= j <= n == v@.len(),
            trim_end(v@.subrange(i as int, j as int)) == trimmed(v@),
        decreases j,
    {
        assert(v@.subrange(i as int, j as int).drop_last() =~= v@.subrange(i as int, j - 1));
        j = j - 1;
    }
    assert(v@.subrange(i as int, j as int) == trimmed(v@)) by {
        if j > i {
            assert(!is_white_space(v@.subrange(i as int, j as int).last()));
        }
    }
    copy_range(v, i, j)
}

/// `s` with each maximal run of whitespace replaced by one space.
pub open spec fn collapsed(s: Seq<char>) -> Seq<char>
    decreases s.len(),
{
    if s.len() == 0 {
        s
    } else if is_white_space(s.last()) {
        if s.len() >= 2 && is_white_space(s[s.len() - 2]) {
            collapsed(s.drop_last())
        } else {
            collapsed(s.drop_last()).push(' ')
        }
    } else {
        collapsed(s.drop_last()).push(s.last())
    }
}

/// Whitespace in `s` is single spaces only: each whitespace character is a
/// space, and no two are adjacent.
pub open spec fn single_spaced(s: Seq<char>) -> bool {
    &&& forall|i: int| 0 <= i < s.len() && is_white_space(#[trigger] s[i]) ==> s[i] == ' '
    &&& forall|i: int|
        0 <= i < s.len() - 1 ==> !(is_white_space(#[trigger] s[i]) && is_white_space(s[i + 1]))
}

/// No whitespace at either end of `s`.
pub open spec fn is_trimmed(s: Seq<char>) -> bool {
    s.len() > 0 ==> !is_white_space(s[0]) && !is_white_space(s.last())
}

/// The number of whitespace characters in `s` other than the space.
pub open spec fn odd_space_count(s: Seq<char>) -> nat
    decreases s.len(),
{
    if s.len() == 0 {
        0
    } else {
        odd_space_count(s.drop_last()) + if is_white_space(s.last()) && s.last() != ' ' {
            1nat
        } else {
            0nat
        }
    }
}

/// Collapsing never lengthens, leaves single spaces only, and changes
/// nothing in a text whose whitespace is spaces and whose length it keeps.
pub proof fn lemma_collapsed(s: Seq<char>)
    ensures
        collapsed(s).len() <= s.len(),
        single_spaced(collapsed(s)),
        collapsed(s).len() > 0 <==> s.len() > 0,
        s.len() > 0 ==> (is_white_space(collapsed(s).last()) <==> is_white_space(s.last())),
        odd_space_count(s) == 0 && collapsed(s).len() == s.len() ==> collapsed(s) == s,
    decreases s.len(),
{
    if s.len() > 0 {
        let p = s.drop_last();
        lemma_collapsed(p);
        let cp = collapsed(p);
        let c = s.last();
        if is_white_space(c) && s.len() >= 2 && is_white_space(s[s.len() - 2]) {
            assert(p.last() == s[s.len() - 2]);
        } else {
            let d = if is_white_space(c) { ' ' } else { c };
            let r = cp.push(d);
            assert(collapsed(s) == r);
            if is_white_space(c) && p.len() > 0 {
                assert(p.last() == s[s.len() - 2]);
            }
            assert forall|i: int| 0 <= i < r.len() && is_white_space(#[trigger] r[i]) implies r[i]
                == ' ' by {
                if i < cp.len() {
                    assert(r[i] == cp[i]);
                }
            }
            assert forall|i: int| 0 <= i < r.len() - 1 implies !(is_white_space(#[trigger] r[i])
                && is_white_space(r[i + 1])) by {
                assert(r[i] == cp[i]);
                if i + 1 < cp.len() {
                    assert(r[i + 1] == cp[i + 1]);
                }
            }
            if odd_space_count(s) == 0 && r.len() == s.len() {
                assert(s =~= p.push(c));
                assert(r =~= s);
            }
        }
    }
}

/// Trimming the front leaves a suffix that does not begin with whitespace.
pub proof fn lemma_trim_start(s: Seq<char>)
    ensures
        trim_start(s).len() <= s.len(),
        trim_start(s) == s.subrange(s.len() - trim_start(s).len(), s.len() as int),
        trim_start(s).len() > 0 ==> !is_white_space(trim_start(s)[0]),
    decreases s.len(),
{
    if s.len() > 0 && is_white_space(s[0]) {
        lemma_trim_start(s.drop_first());
        assert(s.drop_first().subrange(
            s.drop_first().len() - trim_start(s).len(),
            s.drop_first().len() as int,
        ) =~= s.subrange(s.len() - trim_start(s).len(), s.len() as int));
    } else {
        assert(s.subrange(0, s.len() as int) =~= s);
    }
}

/// Trimming the back leaves a prefix that does not end with whitespace.
pub proof fn lemma_trim_end(s: Seq<char>)
    ensures
        trim_end(s).len() <= s.len(),
        trim_end(s) == s.subrange(0, trim_end(s).len() as int),
        trim_end(s).len() > 0 ==> !is_white_space(trim_end(s).last()),
    decreases s.len(),
{
    if s.len() > 0 && is_white_space(s.last()) {
        lemma_trim_end(s.drop_last());
        assert(s.drop_last().subrange(0, trim_end(s).len() as int) =~= s.subrange(
            0,
            trim_end(s).len() as int,
        ));
    } else {
        assert(s.subrange(0, s.len() as int) =~= s);
    }
}

/// Trimming gives a trimmed part of `s`: single spacing is kept, nothing is
/// added, and a trim that keeps the length changes nothing.
pub proof fn lemma_trimmed(s: Seq<char>)
    ensures
        trimmed(s).len() <= s.len(),
        trimmed(s).len() == s.len() ==> trimmed(s) == s,
        is_trimmed(trimmed(s)),
        single_spaced(s) ==> single_spaced(trimmed(s)),
{
    lemma_trim_start(s);
    let t = trim_start(s);
    lemma_trim_end(t);
    let u = trimmed(s);
    let k = s.len() - t.len();
    assert forall|i: int| 0 <= i < u.len() implies #[trigger] u[i] == s[i + k] by {
        assert(u[i] == t.subrange(0, u.len() as int)[i]);
        assert(t[i] == s.subrange(k, s.len() as int)[i]);
    }
    if u.len() == s.len() {
        assert(u =~= s);
    }
    if u.len() > 0 {
        assert(u[0] == t[0]);
    }
    if single_spaced(s) {
        assert forall|i: int| 0 <= i < u.len() && is_white_space(#[trigger] u[i]) implies u[i]
            == ' ' by {
            assert(u[i] == s[i + k]);
        }
        assert forall|i: int| 0 <= i < u.len() - 1 implies !(is_white_space(#[trigger] u[i])
            && is_white_space(u[i + 1])) by {
            assert(u[i] == s[i + k]);
            assert(u[i + 1] == s[(i + k) + 1]);
        }
    }
}

/// A single-spaced text has no whitespace but spaces.
pub proof fn lemma_single_spaced_odd(s: Seq<char>)
    requires
        single_spaced(s),
    ensures
        odd_space_count(s) == 0,
    decreases s.len(),
{
    if s.len() > 0 {
        let p = s.drop_last();
        assert forall|i: int| 0 <= i < p.len() && is_white_space(#[trigger] p[i]) implies p[i]
            == ' ' by {
            assert(p[i] == s[i]);
        }
        assert forall|i: int| 0 <= i < p.len() - 1 implies !(is_white_space(#[trigger] p[i])
            && is_white_space(p[i + 1])) by {
            assert(p[i] == s[i]);
            assert(p[i + 1] == s[i + 1]);
        }
        lemma_single_spaced_odd(p);
        assert(s[s.len() - 1] == s.last());
    }
}

/// Removing pairs never lengthens; it shortens wherever a pair occurs.
pub proof fn lemma_without_pair(s: Seq<char>, a: char, b: char)
    ensures
        without_pair(s, a, b).len() <= s.len(),
        (exists|i: int| 0 <= i < s.len() - 1 && s[i] == a && #[trigger] s[i + 1] == b)
            ==> without_pair(s, a, b).len() < s.len(),
        without_pair(s, a, b).len() == s.len() ==> without_pair(s, a, b) == s,
    decreases s.len(),
{
    if s.len() > 0 {
        let rest = s.subrange(1, s.len() as int);
        if !(s.len() >= 2 && s[0] == a && s[1] == b) {
            assert(s =~= seq![s[0]] + rest);
        }
        let rest1 = s.subrange(1, s.len() as int);
        lemma_without_pair(rest1, a, b);
        if s.len() >= 2 {
            lemma_without_pair(s.subrange(2, s.len() as int), a, b);
        }
        if exists|i: int| 0 <= i < s.len() - 1 && s[i] == a && #[trigger] s[i + 1] == b {
            let i = choose|i: int| 0 <= i < s.len() - 1 && s[i] == a && #[trigger] s[i + 1] == b;
            if !(s.len() >= 2 && s[0] == a && s[1] == b) {
                assert(i >= 1);
                assert(rest1[i - 1] == a && rest1[(i - 1) + 1] == b);
            }
        }
    }
}

/// `s` with every occurrence of the pair `a b` removed, scanning left to right
/// (occurrences do not overlap).
pub open spec fn without_pair(s: Seq<char>, a: char, b: char) -> Seq<char>
    decreases s.len(),
{
    if s.len() == 0 {
        s
    } else if s.len() >= 2 && s[0] == a && s[1] == b {
        without_pair(s.subrange(2, s.len() as int), a, b)
    } else {
        seq![s[0]] + without_pair(s.subrange(1, s.len() as int), a, b)
    }
}

/// Removes every occurrence of the pair `a b`, as `str::replace` with an empty
/// replacement does.
pub fn remove_pair(v: &Vec<char>, a: char, b: char) -> (r: Vec<char>)
    ensures
        r@ == without_pair(v@, a, b),
{
    let n = v.len();
    let mut r: Vec<char> = Vec::new();
    let mut i: usize = 0;
    assert(v@.subrange(0, n as int) =~= v@);
    assert(r@ + without_pair(v@, a, b) =~= without_pair(v@, a, b));
    while i < n
        invariant
            i <= n == v@.len(),
            r@ + without_pair(v@.subrange(i as int, n as int), a, b) == without_pair(v@, a, b),
        decreases n - i,
    {
        let ghost rest = v@.subrange(i as int, n as int);
        if i + 1 < n && v[i] == a && v[i + 1] == b {
            assert(rest.subrange(2, rest.len() as int) =~= v@.subrange(i + 2, n as int));
            i = i + 2;
        } else {
            assert(rest.subrange(1, rest.len() as int) =~= v@.subrange(i + 1, n as int));
            let ghost before = r@;
            r.push(v[i]);
            assert(r@ + without_pair(v@.subrange(i + 1, n as int), a, b) =~= before + (seq![v@[i as int]]
                + without_pair(v@.subrange(i + 1, n as int), a, b)));
            i = i + 1;
        }
    }
    assert(v@.subrange(n as int, n as int) =~= Seq::<char>::empty());
    assert(r@ + Seq::<char>::empty() =~= r@);
    r
}

/// Whether the characters of `t` spell `s`.
pub fn spells(t: &Vec<char>, s: &str) -> (r: bool)
    ensures
        r == (t@ == s@),
{
    let n = s.unicode_len();
    if n != t.len() {
        return false;
    }
    let mut i: usize = 0;
    while i < n
        invariant
            n == t@.len() == s@.len(),
            i <= n,
            forall|k: int| 0 <= k < i ==> t@[k] == s@[k],
        decreases n - i,
    {
        if t[i] != s.get_char(i) {
            return false;
        }
        i = i + 1;
    }
    assert(t@ =~= s@);
    true
}

/// Whether `t` begins with the characters of `s`.
pub fn starts_with_str(t: &Vec<char>, s: &str) -> (r: bool)
    ensures
        r == s@.is_prefix_of(t@),
{
    let n = s.unicode_len();
    if n > t.len() {
        return false;
    }
    let mut i: usize = 0;
    while i < n
        invariant
            n == s@.len() <= t@.len(),
            i <= n,
            forall|k: int| 0 <= k < i ==> t@[k] == s@[k],
        decreases n - i,
    {
        if t[i] != s.get_char(i) {
            return false;
        }
        i = i + 1;
    }
    true
}

/// Appends the characters of `s` to `v`.
pub fn push_str_chars(v: &mut Vec<char>, s: &str)
    ensures
        final(v)@ == old(v)@ + s@,
{
    let c = chars_of(s);
    let mut i: usize = 0;
    while i < c.len()
        invariant
            i <= c@.len(),
            c@ == s@,
            v@ == old(v)@ + c@.subrange(0, i as int),
        decreases c.len() - i,
    {
        v.push(c[i]);
        assert(v@ =~= old(v)@ + c@.subrange(0, i + 1));
        i = i + 1;
    }
    assert(c@.subrange(0, c@.len() as int) =~= c@);
}

} // verus!
