//! The generic output tree: a node has a tag, a set of attributes and an
//! ordered list of children, each of which is a nested node or text.
use vstd::prelude::*;
use vstd::string::*;

verus! {

/// One child of an element.
#[derive(Debug)]
pub enum XmlNode {
    Element(Element),
    Text(String),
}

/// An element of the output tree.
#[derive(Debug)]
pub struct Element {
    pub name: String,
    /// Attribute entries; a key occurs at most once.
    pub attributes: Vec<(String, String)>,
    pub children: Vec<XmlNode>,
}

/// The attribute entries read as a map; a later entry overrides an earlier one.
pub open spec fn attrs_of(s: Seq<(String, String)>) -> Map<Seq<char>, Seq<char>>
    decreases s.len(),
{
    if s.len() == 0 {
        Map::empty()
    } else {
        attrs_of(s.drop_last()).insert(s.last().0@, s.last().1@)
    }
}

/// No key occurs twice among the attribute entries.
pub open spec fn keys_unique(s: Seq<(String, String)>) -> bool {
    forall|i: int, j: int| #![trigger s[i], s[j]] 0 <= i < j < s.len() ==> s[i].0@ != s[j].0@
}

/// `n` is an element tagged `tag`, without attributes, whose one child is the text `text`.
pub open spec fn is_leaf(n: XmlNode, tag: Seq<char>, text: Seq<char>) -> bool {
    match n {
        XmlNode::Element(e) => {
            &&& e.name@ == tag
            &&& e.attributes@.len() == 0
            &&& e.children@.len() == 1
            &&& match e.children@[0] {
                XmlNode::Text(t) => t@ == text,
                XmlNode::Element(_) => false,
            }
        },
        XmlNode::Text(_) => false,
    }
}

/// The tag of an element; text has none.
pub open spec fn tag_of(n: XmlNode) -> Seq<char> {
    match n {
        XmlNode::Element(e) => e.name@,
        XmlNode::Text(_) => Seq::empty(),
    }
}

/// What one child must be: its tag, and a condition on the whole node.
pub type Part = (Seq<char>, spec_fn(XmlNode) -> bool);

/// The nodes `ns` are, one for one, as the parts `sh` describe.
pub open spec fn fits(ns: Seq<XmlNode>, sh: Seq<Part>) -> bool {
    &&& ns.len() == sh.len()
    &&& forall|i: int| 0 <= i < ns.len() ==> tag_of(#[trigger] ns[i]) == sh[i].0 && (sh[i].1)(ns[i])
}

/// The part `p` where `c` holds, else nothing.
pub open spec fn part_if(c: bool, p: Part) -> Seq<Part> {
    if c {
        seq![p]
    } else {
        Seq::empty()
    }
}

/// A child tagged `tag` holding the text `text`.
pub open spec fn leaf_part(tag: Seq<char>, text: Seq<char>) -> Part {
    (tag, |n: XmlNode| is_leaf(n, tag, text))
}

/// `n` is an element tagged `tag` without attributes, whose children are
/// as `sh` describes.
pub open spec fn is_plain_element(n: XmlNode, tag: Seq<char>, sh: Seq<Part>) -> bool {
    match n {
        XmlNode::Element(e) => e.name@ == tag && e.attributes@.len() == 0 && fits(e.children@, sh),
        XmlNode::Text(_) => false,
    }
}

pub proof fn lemma_fits_push(ns: Seq<XmlNode>, sh: Seq<Part>, n: XmlNode, p: Part)
    requires
        fits(ns, sh),
        tag_of(n) == p.0,
        (p.1)(n),
    ensures
        fits(ns.push(n), sh.push(p)),
{
    assert forall|i: int| 0 <= i < ns.len() + 1 implies tag_of(#[trigger] ns.push(n)[i]) == sh.push(p)[i].0
        && (sh.push(p)[i].1)(ns.push(n)[i]) by {
        if i < ns.len() {
            assert(ns.push(n)[i] == ns[i]);
        }
    }
}

pub proof fn lemma_fits_append(a: Seq<XmlNode>, sa: Seq<Part>, b: Seq<XmlNode>, sb: Seq<Part>)
    requires
        fits(a, sa),
        fits(b, sb),
    ensures
        fits(a + b, sa + sb),
{
    assert forall|i: int| 0 <= i < a.len() + b.len() implies tag_of(#[trigger] (a + b)[i]) == (sa
        + sb)[i].0 && ((sa + sb)[i].1)((a + b)[i]) by {
        if i >= a.len() {
            assert((a + b)[i] == b[i - a.len()]);
        } else {
            assert((a + b)[i] == a[i]);
        }
    }
}

impl Element {
    pub open spec fn wf(&self) -> bool {
        keys_unique(self.attributes@)
    }

    pub open spec fn attrs(&self) -> Map<Seq<char>, Seq<char>> {
        attrs_of(self.attributes@)
    }

    /// An element with the given tag, no attributes and no children.
    pub fn new(name: &str) -> (r: Element)
        ensures
            r.name@ == name@,
            r.attributes@.len() == 0,
            r.children@.len() == 0,
            r.wf(),
    {
        Element { name: String::from_str(name), attributes: Vec::new(), children: Vec::new() }
    }

    /// Sets attribute `key` to `value`, replacing an earlier value of that key.
    pub fn set_attribute(&mut self, key: String, value: String)
        requires
            old(self).wf(),
        ensures
            final(self).wf(),
            final(self).attrs() == old(self).attrs().insert(key@, value@),
            final(self).name == old(self).name,
            final(self).children == old(self).children,
    {
        let n = self.attributes.len();
        let mut i: usize = 0;
        while i < n
            invariant
                n == self.attributes@.len(),
                *self == *old(self),
                self.wf(),
                0 <= i <= n,
                forall|j: int| 0 <= j < i ==> (#[trigger] self.attributes@[j]).0@ != key@,
            decreases n - i,
        {
            if self.attributes[i].0 == key {
                proof {
                    lemma_attrs_update(self.attributes@, i as int, (key, value));
                }
                self.attributes.set(i, (key, value));
                return;
            }
            i = i + 1;
        }
        self.attributes.push((key, value));
        proof {
            assert(self.attributes@.drop_last() =~= old(self).attributes@);
        }
    }

    /// Merges `other` into `self`: its attributes override those of `self`
    /// with the same key, and its children are appended after those of `self`.
    pub fn merge(&mut self, other: Element)
        requires
            old(self).wf(),
        ensures
            final(self).wf(),
            final(self).name == old(self).name,
            final(self).attrs() == old(self).attrs().union_prefer_right(other.attrs()),
            final(self).children@ == old(self).children@ + other.children@,
    {
        let Element { name: _, attributes, children } = other;
        let ghost oattrs = attributes@;
        let mut children = children;
        let ghost start = *self;
        let mut i: usize = 0;
        let n = attributes.len();
        while i < n
            invariant
                n == oattrs.len(),
                attributes@ == oattrs,
                0 <= i <= n,
                self.wf(),
                self.name == start.name,
                self.children == start.children,
                self.attrs() == start.attrs().union_prefer_right(attrs_of(oattrs.subrange(0, i as int))),
            decreases n - i,
        {
            let k = attributes[i].0.clone();
            let v = attributes[i].1.clone();
            proof {
                assert(oattrs.subrange(0, i + 1).drop_last() == oattrs.subrange(0, i as int));
                assert(self.attrs().insert(k@, v@) =~= start.attrs().union_prefer_right(
                    attrs_of(oattrs.subrange(0, i + 1))));
            }
            self.set_attribute(k, v);
            i = i + 1;
        }
        proof {
            assert(oattrs.subrange(0, n as int) == oattrs);
        }
        self.children.append(&mut children);
    }
}

impl XmlNode {
    /// An element tagged `tag` whose one child is the text `text`.
    pub fn leaf(tag: &str, text: String) -> (r: XmlNode)
        ensures
            is_leaf(r, tag@, text@),
            tag_of(r) == tag@,
    {
        let mut e = Element::new(tag);
        e.children.push(XmlNode::Text(text));
        XmlNode::Element(e)
    }
}

proof fn lemma_attrs_update(s: Seq<(String, String)>, i: int, p: (String, String))
    requires
        keys_unique(s),
        0 <= i < s.len(),
        s[i].0@ == p.0@,
    ensures
        keys_unique(s.update(i, p)),
        attrs_of(s.update(i, p)) == attrs_of(s).insert(p.0@, p.1@),
    decreases s.len(),
{
    let t = s.update(i, p);
    assert(keys_unique(t)) by {
        assert forall|a: int, b: int| 0 <= a < b < t.len() implies t[a].0@ != t[b].0@ by {
            assert(s[a].0@ != s[b].0@);
        }
    }
    if i == s.len() - 1 {
        assert(t.drop_last() == s.drop_last());
        assert(attrs_of(t) =~= attrs_of(s).insert(p.0@, p.1@));
    } else {
        assert(t.drop_last() == s.drop_last().update(i, p));
        lemma_attrs_update(s.drop_last(), i, p);
        assert(s.last().0@ != p.0@);
        assert(attrs_of(t) =~= attrs_of(s).insert(p.0@, p.1@));
    }
}

} // verus!
