//! Classification of a path-template token into a static literal, a named
//! parameter, or a wildcard.

use vstd::prelude::*;
use vstd::string::StrSliceExecFns;

verus! {

/// One `/`-delimited unit of a route template.
pub enum Segment {
    /// Matches an input token iff it equals the literal exactly.
    Static(String),
    /// Matches any input token and binds the name to it.
    Parameter(String),
    /// Matches the entire remainder of the input path.
    Wildcard,
}

/// The mathematical form of a `Segment`: the same three variants over
/// `Seq<char>`.
pub enum SpecSegment {
    Static(Seq<char>),
    Parameter(Seq<char>),
    Wildcard,
}

impl View for Segment {
    type V = SpecSegment;

    open spec fn view(&self) -> SpecSegment {
        match self {
            Segment::Static(s) => SpecSegment::Static(s@),
            Segment::Parameter(s) => SpecSegment::Parameter(s@),
            Segment::Wildcard => SpecSegment::Wildcard,
        }
    }
}

/// How a raw template token is read: a leading `:` makes it a parameter
/// (the name is the rest, possibly empty), a lone `*` a wildcard, anything
/// else a static literal.
pub open spec fn spec_classify(t: Seq<char>) -> SpecSegment {
    if t.len() > 0 && t[0] == ':' {
        SpecSegment::Parameter(t.drop_first())
    } else if t.len() == 1 && t[0] == '*' {
        SpecSegment::Wildcard
    } else {
        SpecSegment::Static(t)
    }
}

/// Classifies a raw template token as `spec_classify` says.
pub fn classify(t: &str) -> (seg: Segment)
    ensures
        seg@ == spec_classify(t@),
{
    let n = t.unicode_len();
    if n > 0 && t.get_char(0) == ':' {
        let name = t.substring_char(1, n).to_owned();
        proof {
            assert(name@ =~= t@.drop_first());
        }
        Segment::Parameter(name)
    } else if n == 1 && t.get_char(0) == '*' {
        Segment::Wildcard
    } else {
        Segment::Static(t.to_owned())
    }
}

impl DeepView for Segment {
    type V = SpecSegment;

    open spec fn deep_view(&self) -> SpecSegment {
        self.view()
    }
}

impl Segment {
    /// An owned copy of the segment with the same view.
    pub fn dup(&self) -> (r: Segment)
        ensures
            r@ == self@,
    {
        match self {
            Segment::Static(s) => Segment::Static(s.clone()),
            Segment::Parameter(s) => Segment::Parameter(s.clone()),
            Segment::Wildcard => Segment::Wildcard,
        }
    }

    /// Exact equality of segments: same variant and, for static and
    /// parameter segments, the same inner string. This is the equality that
    /// decides trie-node reuse during insertion.
    pub fn seg_eq(&self, other: &Segment) -> (r: bool)
        ensures
            r == (self@ == other@),
    {
        match (self, other) {
            (Segment::Static(a), Segment::Static(b)) => *a == *b,
            (Segment::Parameter(a), Segment::Parameter(b)) => *a == *b,
            (Segment::Wildcard, Segment::Wildcard) => true,
            _ => false,
        }
    }
}

} // verus!
