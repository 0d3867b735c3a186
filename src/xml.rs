//! The tree of an XML document as the protocol description needs it: each tag with its
//! name, attributes, text, and inner tags grouped by name. Names and texts are bytes.
use vstd::prelude::*;

use crate::framer::copy_range;
use crate::protocol::bytes_eq;

verus! {

/// The value of the first attribute named `key`.
pub open spec fn attr_of(attrs: Seq<(Seq<u8>, Seq<u8>)>, key: Seq<u8>) -> Option<Seq<u8>>
    decreases attrs.len(),
{
    if attrs.len() == 0 {
        None
    } else if attrs[0].0 == key {
        Some(attrs[0].1)
    } else {
        attr_of(attrs.skip(1), key)
    }
}

/// The index of the first entry named `key` in a list of named entries.
pub open spec fn first_named<T>(names: Seq<(Seq<u8>, T)>, key: Seq<u8>) -> Option<int>
    decreases names.len(),
{
    if names.len() == 0 {
        None
    } else if names[0].0 == key {
        Some(0)
    } else {
        match first_named(names.skip(1), key) {
            Some(i) => Some(i + 1),
            None => None,
        }
    }
}

/// A tag of an XML document.
pub struct XmlTag {
    name: Vec<u8>,
    attrs: Vec<(Vec<u8>, Vec<u8>)>,
    inner: Vec<(Vec<u8>, Vec<XmlTag>)>,
    inner_text: Vec<u8>,
}

/// Finds the first of `names` whose name is `key`.
fn find_named<T>(names: &Vec<(Vec<u8>, T)>, key: &[u8]) -> (r: Option<usize>)
    ensures
        r matches Some(i) ==> i < names@.len() && names@[i as int].0@ == key@ && forall|j: int|
            0 <= j < i ==> names@[j].0@ != key@,
        r is None ==> forall|j: int| 0 <= j < names@.len() ==> names@[j].0@ != key@,
{
    let mut i: usize = 0;
    while i < names.len()
        invariant
            i <= names@.len(),
            forall|j: int| 0 <= j < i ==> names@[j].0@ != key@,
        decreases names@.len() - i,
    {
        if bytes_eq(names[i].0.as_slice(), key) {
            return Some(i);
        }
        i = i + 1;
    }
    None
}

/// The first entry named `key` is the one that no earlier entry's name matches.
proof fn lemma_first_named_at<T>(s: Seq<(Seq<u8>, T)>, key: Seq<u8>, i: int)
    requires
        0 <= i < s.len(),
        s[i].0 == key,
        forall|j: int| 0 <= j < i ==> s[j].0 != key,
    ensures
        first_named(s, key) == Some(i),
    decreases i,
{
    if i > 0 {
        assert forall|j: int| 0 <= j < i - 1 implies s.skip(1)[j].0 != key by {
            assert(s.skip(1)[j] == s[j + 1]);
        }
        lemma_first_named_at(s.skip(1), key, i - 1);
    }
}

/// No entry named `key`, no first one.
proof fn lemma_first_named_none<T>(s: Seq<(Seq<u8>, T)>, key: Seq<u8>)
    requires
        forall|j: int| 0 <= j < s.len() ==> s[j].0 != key,
    ensures
        first_named(s, key) is None,
    decreases s.len(),
{
    if s.len() > 0 {
        assert forall|j: int| 0 <= j < s.len() - 1 implies s.skip(1)[j].0 != key by {
            assert(s.skip(1)[j] == s[j + 1]);
        }
        lemma_first_named_none(s.skip(1), key);
    }
}

impl XmlTag {
    /// The tag's name.
    pub closed spec fn tag_name(&self) -> Seq<u8> {
        self.name@
    }

    /// The tag's attributes, in order.
    pub closed spec fn attrs(&self) -> Seq<(Seq<u8>, Seq<u8>)> {
        self.attrs@.map_values(|a: (Vec<u8>, Vec<u8>)| (a.0@, a.1@))
    }

    /// The tag's text.
    pub closed spec fn text(&self) -> Seq<u8> {
        self.inner_text@
    }

    /// The inner tags, grouped by name in the order the names first came.
    pub closed spec fn groups(&self) -> Seq<(Seq<u8>, Seq<XmlTag>)> {
        self.inner@.map_values(|g: (Vec<u8>, Vec<XmlTag>)| (g.0@, g.1@))
    }

    /// The inner tags named `name`, in order.
    pub open spec fn tags_named(&self, name: Seq<u8>) -> Option<Seq<XmlTag>> {
        match first_named(self.groups(), name) {
            Some(i) => Some(self.groups()[i].1),
            None => None,
        }
    }

    /// An empty tag named `name`.
    pub fn new(name: Vec<u8>) -> (r: Self)
        ensures
            r.tag_name() == name@,
            r.attrs() == Seq::<(Seq<u8>, Seq<u8>)>::empty(),
            r.groups() == Seq::<(Seq<u8>, Seq<XmlTag>)>::empty(),
            r.text() == Seq::<u8>::empty(),
    {
        let r = XmlTag { name, attrs: Vec::new(), inner: Vec::new(), inner_text: Vec::new() };
        assert(r.attrs() =~= Seq::<(Seq<u8>, Seq<u8>)>::empty());
        assert(r.groups() =~= Seq::<(Seq<u8>, Seq<XmlTag>)>::empty());
        r
    }

    /// The tag's name.
    pub fn name(&self) -> (r: &[u8])
        ensures
            r@ == self.tag_name(),
    {
        self.name.as_slice()
    }

    /// The tag's text.
    pub fn inner_text(&self) -> (r: &[u8])
        ensures
            r@ == self.text(),
    {
        self.inner_text.as_slice()
    }

    /// Appends to the tag's text.
    pub fn push_text(&mut self, text: &[u8])
        ensures
            final(self).text() == old(self).text() + text@,
            final(self).tag_name() == old(self).tag_name(),
            final(self).attrs() == old(self).attrs(),
            final(self).groups() == old(self).groups(),
    {
        let mut i: usize = 0;
        while i < text.len()
            invariant
                i <= text@.len(),
                self.inner_text@ == old(self).inner_text@ + text@.take(i as int),
                self.name == old(self).name,
                self.attrs == old(self).attrs,
                self.inner == old(self).inner,
            decreases text@.len() - i,
        {
            self.inner_text.push(text[i]);
            i = i + 1;
            assert(self.inner_text@ =~= old(self).inner_text@ + text@.take(i as int));
        }
        assert(text@.take(text@.len() as int) =~= text@);
    }

    /// Adds an attribute at the end.
    pub fn push_attr(&mut self, key: Vec<u8>, value: Vec<u8>)
        ensures
            final(self).attrs() == old(self).attrs().push((key@, value@)),
            final(self).tag_name() == old(self).tag_name(),
            final(self).text() == old(self).text(),
            final(self).groups() == old(self).groups(),
    {
        self.attrs.push((key, value));
        assert(self.attrs() =~= old(self).attrs().push((key@, value@)));
    }

    /// The value of the first attribute named `key`.
    pub fn get_attr(&self, key: &[u8]) -> (r: Option<&[u8]>)
        ensures
            match attr_of(self.attrs(), key@) {
                Some(v) => r is Some && r.unwrap()@ == v,
                None => r is None,
            },
    {
        let ghost a = self.attrs();
        assert(a.skip(0) =~= a);
        let mut i: usize = 0;
        while i < self.attrs.len()
            invariant
                a == self.attrs(),
                i <= a.len(),
                attr_of(a, key@) == attr_of(a.skip(i as int), key@),
            decreases a.len() - i,
        {
            assert(a.skip(i as int)[0] == a[i as int]);
            assert(a.skip(i as int).skip(1) =~= a.skip(i + 1));
            if bytes_eq(self.attrs[i].0.as_slice(), key) {
                return Some(self.attrs[i].1.as_slice());
            }
            i = i + 1;
        }
        None
    }

    /// The inner tags named `name`, in the order they were added.
    pub fn inner_tags(&self, name: &[u8]) -> (r: Option<&[XmlTag]>)
        ensures
            match self.tags_named(name@) {
                Some(ts) => r is Some && r.unwrap()@ == ts,
                None => r is None,
            },
    {
        let ghost g = self.groups();
        match find_named(&self.inner, name) {
            Some(i) => {
                proof {
                    assert forall|j: int| 0 <= j < i implies g[j].0 != name@ by {
                        assert(g[j].0 == self.inner@[j].0@);
                    }
                    assert(g[i as int] == (self.inner@[i as int].0@, self.inner@[i as int].1@));
                    lemma_first_named_at(g, name@, i as int);
                }
                Some(self.inner[i].1.as_slice())
            },
            None => {
                proof {
                    assert forall|j: int| 0 <= j < g.len() implies g[j].0 != name@ by {
                        assert(g[j].0 == self.inner@[j].0@);
                    }
                    lemma_first_named_none(g, name@);
                }
                None
            },
        }
    }

    /// Adds `tag` as the last inner tag of its name.
    pub fn insert_inner(&mut self, tag: XmlTag)
        ensures
            final(self).tag_name() == old(self).tag_name(),
            final(self).attrs() == old(self).attrs(),
            final(self).text() == old(self).text(),
            final(self).tags_named(tag.tag_name()) == Some(
                match old(self).tags_named(tag.tag_name()) {
                    Some(ts) => ts.push(tag),
                    None => seq![tag],
                },
            ),
            forall|n: Seq<u8>|
                n != tag.tag_name() ==> #[trigger] final(self).tags_named(n) == old(self).tags_named(n),
    {
        let ghost g0 = self.groups();
        let ghost key = tag.name@;
        match find_named(&self.inner, tag.name.as_slice()) {
            Some(i) => {
                proof {
                    assert forall|j: int| 0 <= j < i implies g0[j].0 != key by {
                        assert(g0[j].0 == self.inner@[j].0@);
                    }
                    lemma_first_named_at(g0, key, i as int);
                }
                assert(g0[i as int] == (self.inner@[i as int].0@, self.inner@[i as int].1@));
                let (name, mut group) = self.inner.remove(i);
                let ghost old_group = group@;
                assert(g0[i as int].1 == old_group);
                group.push(tag);
                self.inner.insert(i, (name, group));
                proof {
                    let g1 = self.groups();
                    assert(g1 =~= g0.update(i as int, (g0[i as int].0, old_group.push(tag))));
                    lemma_first_named_same_names(g0, g1, key);
                    assert forall|n: Seq<u8>| n != key implies #[trigger] self.tags_named(n)
                        == old(self).tags_named(n) by {
                        lemma_first_named_same_names(g0, g1, n);
                        lemma_first_named_found(g0, n);
                    }
                }
            },
            None => {
                proof {
                    assert forall|j: int| 0 <= j < g0.len() implies g0[j].0 != key by {
                        assert(g0[j].0 == self.inner@[j].0@);
                    }
                    lemma_first_named_none(g0, key);
                }
                let name = copy_range(tag.name.as_slice(), 0, tag.name.len());
                assert(tag.name@.subrange(0, tag.name@.len() as int) =~= tag.name@);
                let mut group: Vec<XmlTag> = Vec::new();
                group.push(tag);
                self.inner.push((name, group));
                proof {
                    let g1 = self.groups();
                    assert(g1 =~= g0.push((key, seq![tag])));
                    lemma_first_named_push(g0, (key, seq![tag]), key);
                    assert forall|n: Seq<u8>| n != key implies #[trigger] self.tags_named(n)
                        == old(self).tags_named(n) by {
                        lemma_first_named_push_other(g0, (key, seq![tag]), n);
                        lemma_first_named_found(g0, n);
                    }
                }
            },
        }
    }
}

/// Where two lists of named entries have the same names, the first entry named `key`
/// is at the same place.
proof fn lemma_first_named_same_names<A, B>(a: Seq<(Seq<u8>, A)>, b: Seq<(Seq<u8>, B)>, key: Seq<u8>)
    requires
        a.len() == b.len(),
        forall|i: int| 0 <= i < a.len() ==> a[i].0 == b[i].0,
    ensures
        first_named(a, key) == first_named(b, key),
    decreases a.len(),
{
    if a.len() > 0 {
        assert(a[0].0 == b[0].0);
        assert forall|i: int| 0 <= i < a.skip(1).len() implies a.skip(1)[i].0 == b.skip(1)[i].0 by {
            assert(a[i + 1].0 == b[i + 1].0);
        }
        lemma_first_named_same_names(a.skip(1), b.skip(1), key);
    }
}

/// The first entry named `key` is in range and named `key`.
proof fn lemma_first_named_found<A>(a: Seq<(Seq<u8>, A)>, key: Seq<u8>)
    ensures
        first_named(a, key) matches Some(i) ==> 0 <= i < a.len() && a[i].0 == key,
    decreases a.len(),
{
    if a.len() > 0 {
        lemma_first_named_found(a.skip(1), key);
    }
}

/// Appending an entry of another name leaves the first entry named `key` where it was.
proof fn lemma_first_named_push_other<A>(a: Seq<(Seq<u8>, A)>, x: (Seq<u8>, A), key: Seq<u8>)
    requires
        x.0 != key,
    ensures
        first_named(a.push(x), key) == first_named(a, key),
    decreases a.len(),
{
    if a.len() > 0 {
        assert(a.push(x)[0] == a[0]);
        assert(a.push(x).skip(1) =~= a.skip(1).push(x));
        lemma_first_named_push_other(a.skip(1), x, key);
    } else {
        assert(a.push(x)[0] == x);
        assert(a.push(x).skip(1) =~= Seq::<(Seq<u8>, A)>::empty());
        assert(first_named(Seq::<(Seq<u8>, A)>::empty(), key) is None);
    }
}

/// The first entry named `key` after appending one.
proof fn lemma_first_named_push<A>(a: Seq<(Seq<u8>, A)>, x: (Seq<u8>, A), key: Seq<u8>)
    requires
        first_named(a, key) is None,
        x.0 == key,
    ensures
        first_named(a.push(x), key) == Some(a.len() as int),
    decreases a.len(),
{
    if a.len() > 0 {
        assert(a.push(x).skip(1) =~= a.skip(1).push(x));
        lemma_first_named_push(a.skip(1), x, key);
    } else {
        assert(a.push(x)[0] == x);
    }
}

} // verus!
