//! Generalized and static representation of Java deobfuscation mappings.
use vstd::prelude::*;

verus! {

/// A mapping element in the abstract: names and descriptors as bytes.
#[allow(inconsistent_fields)]
pub ghost enum SpecElement {
    Class { src: Seq<u8>, dst: Seq<Seq<u8>>, content: Seq<SpecElement> },
    Field {
        src: Seq<u8>,
        dst: Seq<Seq<u8>>,
        desc: Option<Seq<u8>>,
        dst_desc: Option<Seq<Seq<u8>>>,
        content: Seq<SpecElement>,
    },
    Method {
        src: Seq<u8>,
        dst: Seq<Seq<u8>>,
        desc: Option<Seq<u8>>,
        dst_desc: Option<Seq<Seq<u8>>>,
        content: Seq<SpecElement>,
    },
    MethodArg {
        src: Option<Seq<u8>>,
        dst: Option<Seq<Seq<u8>>>,
        pos: Option<usize>,
        lv_index: Option<usize>,
        content: Seq<SpecElement>,
    },
    MethodVar {
        src: Option<Seq<u8>>,
        dst: Option<Seq<Seq<u8>>>,
        lv_index: Option<usize>,
        lvt_row_index: Option<usize>,
        op_idx: Option<(usize, Option<usize>)>,
        content: Seq<SpecElement>,
    },
    Comment(Seq<u8>),
}

/// A class mapping.
#[derive(Debug, PartialEq, Eq)]
pub struct Class {
    pub src: Vec<u8>,
    pub dst: Vec<Vec<u8>>,
    pub content: Vec<Element>,
}

/// A field mapping.
#[derive(Debug, PartialEq, Eq)]
pub struct Field {
    pub src: Vec<u8>,
    pub dst: Vec<Vec<u8>>,
    pub desc: Option<Vec<u8>>,
    pub dst_desc: Option<Vec<Vec<u8>>>,
    pub content: Vec<Element>,
}

/// A method mapping.
#[derive(Debug, PartialEq, Eq)]
pub struct Method {
    pub src: Vec<u8>,
    pub dst: Vec<Vec<u8>>,
    pub desc: Option<Vec<u8>>,
    pub dst_desc: Option<Vec<Vec<u8>>>,
    pub content: Vec<Element>,
}

/// A method argument mapping.
#[derive(Debug, PartialEq, Eq)]
pub struct MethodArg {
    pub src: Option<Vec<u8>>,
    pub dst: Option<Vec<Vec<u8>>>,
    pub pos: Option<usize>,
    pub lv_index: Option<usize>,
    pub content: Vec<Element>,
}

/// A method variable mapping.
#[derive(Debug, PartialEq, Eq)]
pub struct MethodVar {
    pub src: Option<Vec<u8>>,
    pub dst: Option<Vec<Vec<u8>>>,
    pub lv_index: Option<usize>,
    pub lvt_row_index: Option<usize>,
    pub op_idx: Option<(usize, Option<usize>)>,
    pub content: Vec<Element>,
}

/// Any mapping element.
#[derive(Debug, PartialEq, Eq)]
pub enum Element {
    Class(Class),
    Field(Field),
    Method(Method),
    MethodArg(MethodArg),
    MethodVar(MethodVar),
    Comment(Vec<u8>),
}

/// The bytes of each name.
pub open spec fn names_view(v: Seq<Vec<u8>>) -> Seq<Seq<u8>> {
    v.map_values(|n: Vec<u8>| n@)
}

pub open spec fn opt_bytes_view(o: Option<Vec<u8>>) -> Option<Seq<u8>> {
    match o {
        Some(v) => Some(v@),
        None => None,
    }
}

pub open spec fn opt_names_view(o: Option<Vec<Vec<u8>>>) -> Option<Seq<Seq<u8>>> {
    match o {
        Some(v) => Some(names_view(v@)),
        None => None,
    }
}

impl Element {
    /// The abstract element.
    pub open spec fn view(&self) -> SpecElement
        decreases self,
    {
        match self {
            Element::Class(c) => SpecElement::Class {
                src: c.src@,
                dst: names_view(c.dst@),
                content: elements_view(c.content@),
            },
            Element::Field(f) => SpecElement::Field {
                src: f.src@,
                dst: names_view(f.dst@),
                desc: opt_bytes_view(f.desc),
                dst_desc: opt_names_view(f.dst_desc),
                content: elements_view(f.content@),
            },
            Element::Method(f) => SpecElement::Method {
                src: f.src@,
                dst: names_view(f.dst@),
                desc: opt_bytes_view(f.desc),
                dst_desc: opt_names_view(f.dst_desc),
                content: elements_view(f.content@),
            },
            Element::MethodArg(a) => SpecElement::MethodArg {
                src: opt_bytes_view(a.src),
                dst: opt_names_view(a.dst),
                pos: a.pos,
                lv_index: a.lv_index,
                content: elements_view(a.content@),
            },
            Element::MethodVar(a) => SpecElement::MethodVar {
                src: opt_bytes_view(a.src),
                dst: opt_names_view(a.dst),
                lv_index: a.lv_index,
                lvt_row_index: a.lvt_row_index,
                op_idx: a.op_idx,
                content: elements_view(a.content@),
            },
            Element::Comment(c) => SpecElement::Comment(c@),
        }
    }
}

/// The abstract elements of a sequence of elements.
pub open spec fn elements_view(s: Seq<Element>) -> Seq<SpecElement>
    decreases s,
{
    if s.len() == 0 {
        Seq::empty()
    } else {
        elements_view(s.drop_last()).push(s.last().view())
    }
}

pub proof fn lemma_elements_view_push(s: Seq<Element>, e: Element)
    ensures
        elements_view(s.push(e)) == elements_view(s).push(e.view()),
{
    assert(s.push(e).drop_last() == s);
}

pub proof fn lemma_elements_view_len(s: Seq<Element>)
    ensures
        elements_view(s).len() == s.len(),
        forall|i: int| 0 <= i < s.len() ==> #[trigger] elements_view(s)[i] == s[i].view(),
    decreases s.len(),
{
    if s.len() > 0 {
        lemma_elements_view_len(s.drop_last());
        assert forall|i: int| 0 <= i < s.len() implies #[trigger] elements_view(s)[i] == s[i].view() by {
            if i < s.len() - 1 {
                assert(s.drop_last()[i] == s[i]);
            }
        }
    }
}

/// A single name, as a sequence of names.
pub proof fn lemma_names_one(v: Vec<Vec<u8>>, x: Seq<u8>)
    requires
        v@.len() == 1,
        v@[0]@ == x,
    ensures
        names_view(v@) == seq![x],
{
    assert(names_view(v@) =~= seq![x]);
}

} // verus!
