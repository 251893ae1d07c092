//! Qualified names, in the shape the tree builder uses and in the shape the
//! DOM uses, and the way from each to the other.

use vstd::prelude::*;

verus! {

/// A qualified name as the tree builder writes it: the namespace is a string,
/// and the empty string stands for "no namespace".
#[derive(Debug)]
pub struct QualName {
    pub ns: String,
    pub local: String,
}

/// A qualified name as the DOM writes it: the namespace is optional.
#[derive(Debug)]
pub struct QName {
    pub namespace_uri: Option<String>,
    pub local_part: String,
}

/// An attribute as the tree builder hands it over.
#[derive(Debug)]
pub struct Attribute {
    pub name: QualName,
    pub value: String,
}

/// The value of a [`QualName`].
pub struct QualNameView {
    pub ns: Seq<char>,
    pub local: Seq<char>,
}

/// The value of a [`QName`].
pub struct QNameView {
    pub namespace_uri: Option<Seq<char>>,
    pub local_part: Seq<char>,
}

impl View for QualName {
    type V = QualNameView;

    open spec fn view(&self) -> QualNameView {
        QualNameView { ns: self.ns@, local: self.local@ }
    }
}

impl View for QName {
    type V = QNameView;

    open spec fn view(&self) -> QNameView {
        QNameView {
            namespace_uri: match self.namespace_uri {
                Some(ns) => Some(ns@),
                None => None,
            },
            local_part: self.local_part@,
        }
    }
}

impl Clone for QualName {
    fn clone(&self) -> (copy: QualName)
        ensures
            copy == *self,
    {
        QualName { ns: self.ns.clone(), local: self.local.clone() }
    }
}

impl Clone for QName {
    fn clone(&self) -> (copy: QName)
        ensures
            copy == *self,
    {
        let namespace_uri = match &self.namespace_uri {
            Some(ns) => Some(ns.clone()),
            None => None,
        };
        QName { namespace_uri, local_part: self.local_part.clone() }
    }
}

impl Clone for Attribute {
    fn clone(&self) -> (copy: Attribute)
        ensures
            copy == *self,
    {
        Attribute { name: self.name.clone(), value: self.value.clone() }
    }
}

/// The tree builder's form of a DOM name: an absent namespace becomes the
/// empty string, the local part is kept.
pub open spec fn builder_name(q: QNameView) -> QualNameView {
    QualNameView {
        ns: match q.namespace_uri {
            Some(ns) => ns,
            None => Seq::empty(),
        },
        local: q.local_part,
    }
}

/// The DOM's form of a tree-builder name: the empty namespace becomes an
/// absent one, the local part is kept.
pub open spec fn dom_name(q: QualNameView) -> QNameView {
    QNameView {
        namespace_uri: if q.ns.len() == 0 {
            None
        } else {
            Some(q.ns)
        },
        local_part: q.local,
    }
}

/// The tree builder's form of a DOM name.
pub fn qualname_from_qname(qname: QName) -> (qualname: QualName)
    ensures
        qualname@ == builder_name(qname@),
{
    let ns = match qname.namespace_uri {
        Some(ns) => ns,
        None => String::new(),
    };
    QualName { ns, local: qname.local_part }
}

/// The DOM's form of a tree-builder name.
pub fn qualname_as_qname(qualname: &QualName) -> (qname: QName)
    ensures
        qname@ == dom_name(qualname@),
{
    let namespace_uri = if qualname.ns.as_str().is_empty() {
        None
    } else {
        Some(qualname.ns.clone())
    };
    QName { namespace_uri, local_part: qualname.local.clone() }
}

/// A DOM name survives the trip to the tree builder's form and back unchanged
/// when its namespace is absent or is a non-empty string.
pub proof fn lemma_dom_name_round_trip(q: QNameView)
    requires
        q.namespace_uri matches Some(ns) ==> ns.len() > 0,
    ensures
        dom_name(builder_name(q)) == q,
{
}

/// A tree-builder name survives the trip to the DOM's form and back
/// unchanged, whatever its namespace.
pub proof fn lemma_builder_name_round_trip(q: QualNameView)
    ensures
        builder_name(dom_name(q)) == q,
{
    assert(q.ns.len() == 0 ==> q.ns =~= Seq::empty());
}

} // verus!
