//! Raw hrefs of the anchor elements among the tags of a tokenized page.

use vstd::prelude::*;

verus! {

/// One attribute of a tag, as the tokenizer gives it.
#[derive(Debug, PartialEq, Eq)]
pub struct Attribute {
    pub name: String,
    pub value: String,
}

/// One tag of a tokenized page, with its attributes in document order.
#[derive(Debug, PartialEq, Eq)]
pub struct Tag {
    pub name: String,
    pub attrs: Vec<Attribute>,
}

/// An ASCII capital as its small letter, any other character as itself.
pub open spec fn folded(c: char) -> char {
    if 'A' <= c && c <= 'Z' {
        ((c as u8) + 32) as char
    } else {
        c
    }
}

/// Whether two names are equal up to the case of ASCII letters.
pub open spec fn same_name(a: Seq<char>, b: Seq<char>) -> bool {
    &&& a.len() == b.len()
    &&& forall|i: int| 0 <= i < a.len() ==> folded(#[trigger] a[i]) == folded(b[i])
}

/// The characters of each string of a sequence.
pub open spec fn texts(strings: Seq<String>) -> Seq<Seq<char>> {
    strings.map_values(|s: String| s@)
}

/// The value of the first attribute named `href`, if there is one.
pub open spec fn first_href(attrs: Seq<Attribute>) -> Option<Seq<char>>
    decreases attrs.len(),
{
    if attrs.len() == 0 {
        None
    } else if same_name(attrs[0].name@, "href"@) {
        Some(attrs[0].value@)
    } else {
        first_href(attrs.subrange(1, attrs.len() as int))
    }
}

/// The href that a tag contributes: that of an anchor element that has one.
pub open spec fn anchor_href(tag: Tag) -> Option<Seq<char>> {
    if same_name(tag.name@, "a"@) {
        first_href(tag.attrs@)
    } else {
        None
    }
}

/// The hrefs of all the anchors among `tags`, in document order, duplicates
/// kept.
pub open spec fn links(tags: Seq<Tag>) -> Seq<Seq<char>>
    decreases tags.len(),
{
    if tags.len() == 0 {
        Seq::empty()
    } else {
        let before = links(tags.drop_last());
        match anchor_href(tags.last()) {
            Some(h) => before.push(h),
            None => before,
        }
    }
}

fn fold(c: char) -> (r: char)
    ensures
        r == folded(c),
{
    if 'A' <= c && c <= 'Z' {
        let b: u8 = c as u8;
        (b + 32) as char
    } else {
        c
    }
}

/// Compares two names without regard to the case of ASCII letters.
pub fn names_match(a: &str, b: &str) -> (r: bool)
    ensures
        r == same_name(a@, b@),
{
    let n: usize = a.unicode_len();
    if n != b.unicode_len() {
        return false;
    }
    let mut i: usize = 0;
    while i < n
        invariant
            i <= n,
            n == a@.len(),
            n == b@.len(),
            forall|j: int| 0 <= j < i ==> folded(#[trigger] a@[j]) == folded(b@[j]),
        decreases n - i,
    {
        if fold(a.get_char(i)) != fold(b.get_char(i)) {
            return false;
        }
        i += 1;
    }
    true
}

/// The href of `tag` if it is an anchor with an `href` attribute; of several
/// such attributes the first counts.
pub fn href_of(tag: &Tag) -> (r: Option<String>)
    ensures
        crate::normalize::text_of(r) == anchor_href(*tag),
{
    if !names_match(tag.name.as_str(), "a") {
        return None;
    }
    let n: usize = tag.attrs.len();
    let mut i: usize = 0;
    assert(tag.attrs@.subrange(0, n as int) =~= tag.attrs@);
    while i < n
        invariant
            i <= n,
            n == tag.attrs@.len(),
            same_name(tag.name@, "a"@),
            first_href(tag.attrs@) == first_href(tag.attrs@.subrange(i as int, n as int)),
        decreases n - i,
    {
        let ghost rest = tag.attrs@.subrange(i as int, n as int);
        assert(rest.subrange(1, rest.len() as int) =~= tag.attrs@.subrange(i + 1, n as int));
        assert(rest[0] == tag.attrs@[i as int]);
        if names_match(tag.attrs[i].name.as_str(), "href") {
            assert(first_href(rest) == Some(tag.attrs@[i as int].value@));
            return Some(tag.attrs[i].value.clone());
        }
        assert(first_href(rest) == first_href(rest.subrange(1, rest.len() as int)));
        i += 1;
    }
    assert(first_href(tag.attrs@.subrange(n as int, n as int)).is_none());
    None
}

/// Appends to `into` the href of every anchor among `tags`, in document
/// order. Anchors without an href add nothing; duplicates are kept.
pub fn extract_links(tags: &Vec<Tag>, into: &mut Vec<String>)
    ensures
        texts(final(into)@) == texts(old(into)@) + links(tags@),
{
    let n: usize = tags.len();
    let mut i: usize = 0;
    assert(tags@.take(0) =~= Seq::<Tag>::empty());
    while i < n
        invariant
            i <= n,
            n == tags@.len(),
            texts(into@) =~= texts(old(into)@) + links(tags@.take(i as int)),
        decreases n - i,
    {
        assert(tags@.take(i + 1).drop_last() =~= tags@.take(i as int));
        assert(tags@.take(i + 1).last() == tags@[i as int]);
        let ghost before = into@;
        match href_of(&tags[i]) {
            Some(h) => {
                into.push(h);
                assert(texts(into@) =~= texts(before).push(h@));
            },
            None => {},
        }
        assert(links(tags@.take(i + 1)) == match anchor_href(tags@[i as int]) {
            Some(h) => links(tags@.take(i as int)).push(h),
            None => links(tags@.take(i as int)),
        });
        i += 1;
    }
    assert(tags@.take(n as int) =~= tags@);
}

} // verus!
