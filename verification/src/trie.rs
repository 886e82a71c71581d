//! The route trie: a tree of nodes labelled with segments, holding an
//! ordered list of children and an optional terminal template string.
//! Insertion descends by exact segment equality; matching is an ordered,
//! depth-first, backtracking search.

use crate::params::StringMap;
use crate::segment::Segment;
use crate::segment::SpecSegment;
use crate::strutil::str_eq;
use vstd::prelude::*;

verus! {

broadcast use vstd::std_specs::vec::group_vec_axioms;

/// The mathematical form of a trie node.
#[verifier::ext_equal]
pub struct SpecNode {
    /// The segment by which this node is reached from its parent; the root's
    /// segment is a sentinel with no meaning.
    pub segment: SpecSegment,
    /// Children in registration order; that order drives backtracking
    /// precedence.
    pub children: Seq<SpecNode>,
    /// The verbatim template string of the route that ends exactly here, if
    /// any.
    pub path: Option<Seq<char>>,
}

/// A node with the given segment and nothing else.
pub open spec fn empty_node(seg: SpecSegment) -> SpecNode {
    SpecNode { segment: seg, children: Seq::empty(), path: None }
}

/// The index of the first child labelled exactly `seg`, if any.
pub open spec fn first_child_with(children: Seq<SpecNode>, seg: SpecSegment) -> Option<int>
    decreases children.len(),
{
    if children.len() == 0 {
        None
    } else if children[0].segment == seg {
        Some(0int)
    } else {
        match first_child_with(children.drop_first(), seg) {
            Some(j) => Some(j + 1),
            None => None,
        }
    }
}

/// `first_child_with` returns the smallest index whose segment is `seg`, or
/// `None` when no child carries `seg`.
pub proof fn lemma_first_child_with(children: Seq<SpecNode>, seg: SpecSegment)
    ensures
        match first_child_with(children, seg) {
            Some(j) => 0 <= j < children.len() && children[j].segment == seg && forall|k: int|
                0 <= k < j ==> children[k].segment != seg,
            None => forall|k: int| 0 <= k < children.len() ==> children[k].segment != seg,
        },
    decreases children.len(),
{
    if children.len() == 0 {
    } else if children[0].segment == seg {
    } else {
        let rest = children.drop_first();
        lemma_first_child_with(rest, seg);
        assert(forall|k: int| 0 <= k < rest.len() ==> #[trigger] rest[k] == children[k + 1]);
        match first_child_with(rest, seg) {
            Some(j) => {
                assert(first_child_with(children, seg) == Some(j + 1));
                assert(children[j + 1].segment == seg);
                assert forall|k: int| 0 <= k < j + 1 implies children[k].segment != seg by {
                    if k > 0 {
                        assert(rest[k - 1].segment != seg);
                    }
                }
            },
            None => {
                assert forall|k: int| 0 <= k < children.len() implies children[k].segment
                    != seg by {
                    if k > 0 {
                        assert(rest[k - 1].segment != seg);
                    }
                }
            },
        }
    }
}

/// `first_child_with` is determined by where the first occurrence lies.
pub proof fn lemma_first_child_with_at(children: Seq<SpecNode>, seg: SpecSegment, j: int)
    requires
        0 <= j <= children.len(),
        forall|k: int| 0 <= k < j ==> children[k].segment != seg,
        j < children.len() ==> children[j].segment == seg,
    ensures
        first_child_with(children, seg) == if j == children.len() {
            None
        } else {
            Some(j)
        },
    decreases children.len(),
{
    if children.len() == 0 {
    } else if children[0].segment == seg {
        assert(j == 0);
    } else {
        assert(j > 0);
        let rest = children.drop_first();
        assert(forall|k: int| 0 <= k < rest.len() ==> #[trigger] rest[k] == children[k + 1]);
        lemma_first_child_with_at(rest, seg, j - 1);
    }
}

/// What inserting the template `path`, read as the segments `segs[i..]`,
/// does to a node: descend into the first child equal to the next segment,
/// appending a fresh child when none matches, and store `path` verbatim at
/// the node where the segments run out, overwriting any prior value.
pub open spec fn spec_add(node: SpecNode, path: Seq<char>, segs: Seq<SpecSegment>, i: int) -> SpecNode
    decreases segs.len() - i,
{
    if i < 0 || i >= segs.len() {
        SpecNode { segment: node.segment, children: node.children, path: Some(path) }
    } else {
        match first_child_with(node.children, segs[i]) {
            Some(j) => SpecNode {
                segment: node.segment,
                children: node.children.update(j, spec_add(node.children[j], path, segs, i + 1)),
                path: node.path,
            },
            None => SpecNode {
                segment: node.segment,
                children: node.children.push(spec_add(empty_node(segs[i]), path, segs, i + 1)),
                path: node.path,
            },
        }
    }
}

/// The result of matching `toks[start..]` at a node: the matched template
/// and the bound parameters. When the tokens are exhausted the node's own
/// terminal string decides; otherwise the children are tried in order.
pub open spec fn spec_match_node(node: SpecNode, toks: Seq<Seq<char>>, start: int) -> Option<
    (Seq<char>, Map<Seq<char>, Seq<char>>),
>
    decreases node, 0int,
{
    if start >= toks.len() {
        match node.path {
            Some(p) => Some((p, Map::<Seq<char>, Seq<char>>::empty())),
            None => None,
        }
    } else {
        spec_try_children(node.children, toks, start, 0)
    }
}

/// Tries the children from index `c` on, in order, returning the first full
/// success: a static child must equal the token, a parameter child matches
/// any token and binds its name (deeper bindings taking precedence), and a
/// wildcard child consumes the whole remainder and must itself be terminal.
pub open spec fn spec_try_children(
    children: Seq<SpecNode>,
    toks: Seq<Seq<char>>,
    start: int,
    c: int,
) -> Option<(Seq<char>, Map<Seq<char>, Seq<char>>)>
    decreases children, children.len() - c,
{
    if c < 0 || c >= children.len() || start < 0 || start >= toks.len() {
        None
    } else {
        let child = children[c];
        let attempt = match child.segment {
            SpecSegment::Static(lit) => if toks[start] == lit {
                spec_match_node(child, toks, start + 1)
            } else {
                None
            },
            SpecSegment::Parameter(name) => match spec_match_node(child, toks, start + 1) {
                Some(r) => Some(
                    (
                        r.0,
                        if r.1.contains_key(name) {
                            r.1
                        } else {
                            r.1.insert(name, toks[start])
                        },
                    ),
                ),
                None => None,
            },
            SpecSegment::Wildcard => spec_match_node(child, toks, toks.len() as int),
        };
        if attempt is Some {
            attempt
        } else {
            spec_try_children(children, toks, start, c + 1)
        }
    }
}

/// A trie node owning its children exclusively.
pub struct TrieNode {
    segment: Segment,
    children: Vec<TrieNode>,
    path: Option<String>,
}

/// The `SpecNode` that a `TrieNode` denotes. The out-of-range closure arm is
/// never reached and only keeps the recursion guarded for termination.
closed spec fn node_view(n: TrieNode) -> SpecNode
    decreases n,
    via node_view_dec
{
    SpecNode {
        segment: n.segment@,
        children: Seq::new(
            n.children@.len(),
            |i: int|
                if 0 <= i < n.children@.len() {
                    node_view(n.children@[i])
                } else {
                    empty_node(SpecSegment::Wildcard)
                },
        ),
        path: match n.path {
            Some(p) => Some(p@),
            None => None,
        },
    }
}

#[via_fn]
proof fn node_view_dec(n: TrieNode) {
    assert forall|i: int| 0 <= i < n.children@.len() implies decreases_to!(n =>
    n.children@[i]) by {
        assert(decreases_to!(n => n.children));
        assert(decreases_to!(n.children => n.children@[i]));
    }
}

impl View for TrieNode {
    type V = SpecNode;

    closed spec fn view(&self) -> SpecNode {
        node_view(*self)
    }
}

impl TrieNode {
    /// The root of an empty trie: a sentinel static segment, no children,
    /// no terminal string.
    pub fn new_root() -> (r: TrieNode)
        ensures
            r@ == empty_node(SpecSegment::Static(Seq::<char>::empty())),
    {
        let r = TrieNode { segment: Segment::Static(String::new()), children: Vec::new(), path: None };
        proof {
            assert(r@.children =~= Seq::<SpecNode>::empty());
            assert(r@ =~= empty_node(SpecSegment::Static(Seq::<char>::empty())));
        }
        r
    }

    /// Inserts the template `path`, read as the segments `segs[i..]`, below
    /// this node, as `spec_add` says.
    pub fn add_route(&mut self, path: &str, segs: &Vec<Segment>, i: usize)
        requires
            i <= segs@.len(),
        ensures
            final(self)@ == spec_add(old(self)@, path@, segs.deep_view(), i as int),
        decreases segs@.len() - i,
    {
        let ghost dv = segs.deep_view();
        if i == segs.len() {
            self.path = Some(path.to_owned());
            proof {
                assert(final(self)@ =~~= spec_add(old(self)@, path@, dv, i as int));
            }
            return ;
        }
        let ghost seg = dv[i as int];
        proof {
            assert(segs@.len() == segs.len());
        }
        let n = self.children.len();
        let mut j: usize = 0;
        while j < n
            invariant
                j <= n,
                i < segs@.len(),
                segs@.len() <= usize::MAX,
                n == self.children@.len(),
                *self == *old(self),
                dv == segs.deep_view(),
                seg == dv[i as int],
                forall|k: int| 0 <= k < j ==> self@.children[k].segment != seg,
            decreases n - j,
        {
            if self.children[j].segment.seg_eq(&segs[i]) {
                proof {
                    assert(seg == segs@[i as int]@);
                    assert(self@.children[j as int] == node_view(self.children@[j as int]));
                    assert(self@.children[j as int].segment == seg);
                    lemma_first_child_with_at(old(self)@.children, seg, j as int);
                }
                let mut child = self.children.remove(j);
                let ghost child0 = child;
                proof {
                    assert(child0 == old(self).children@[j as int]);
                }
                child.add_route(path, segs, i + 1);
                let ghost child1 = child;
                self.children.insert(j, child);
                proof {
                    let oc = old(self)@.children;
                    let nc = final(self)@.children;
                    assert(self.children@[j as int] == child1);
                    assert(child1@ == spec_add(child0@, path@, dv, i + 1));
                    assert(self.children@ =~= old(self).children@.update(
                        j as int,
                        self.children@[j as int],
                    ));
                    let target = oc.update(j as int, spec_add(oc[j as int], path@, dv, i + 1));
                    assert forall|k: int| 0 <= k < nc.len() implies nc[k] == target[k] by {
                        assert(nc[k] == node_view(self.children@[k]));
                        assert(oc[k] == node_view(old(self).children@[k]));
                        if k != j as int {
                            assert(self.children@[k] == old(self).children@[k]);
                        } else {
                            assert(node_view(self.children@[k]) == spec_add(
                                oc[j as int],
                                path@,
                                dv,
                                i + 1,
                            ));
                        }
                    }
                    assert(nc =~= target);
                    assert(final(self)@ =~~= spec_add(old(self)@, path@, dv, i as int));
                }
                return ;
            }
            j = j + 1;
        }
        proof {
            lemma_first_child_with_at(old(self)@.children, seg, n as int);
        }
        let mut node = TrieNode { segment: segs[i].dup(), children: Vec::new(), path: None };
        proof {
            assert(seg == segs@[i as int]@);
            assert(node@.children =~= Seq::<SpecNode>::empty());
            assert(node@ =~~= empty_node(seg));
        }
        node.add_route(path, segs, i + 1);
        self.children.push(node);
        proof {
            assert(final(self)@.children =~= old(self)@.children.push(
                spec_add(empty_node(seg), path@, dv, i + 1),
            ));
            assert(final(self)@ =~~= spec_add(old(self)@, path@, dv, i as int));
        }
    }

    /// Matches `toks[start..]` below this node, as `spec_match_node` says,
    /// returning the matched template and the bound parameters.
    pub fn match_segments(&self, toks: &Vec<String>, start: usize) -> (r: Option<(String, StringMap)>)
        requires
            start <= toks@.len(),
        ensures
            match r {
                Some(pm) => pm.1.wf() && spec_match_node(self@, toks.deep_view(), start as int)
                    == Some((pm.0@, pm.1@)),
                None => spec_match_node(self@, toks.deep_view(), start as int) is None,
            },
        decreases *self, 0int,
    {
        let ghost dv = toks.deep_view();
        if start == toks.len() {
            match &self.path {
                Some(p) => {
                    let m = StringMap::new();
                    return Some((p.clone(), m));
                },
                None => {
                    return None;
                },
            }
        }
        let n = self.children.len();
        let mut c: usize = 0;
        while c < n
            invariant
                c <= n,
                start < toks@.len(),
                toks@.len() <= usize::MAX,
                n == self.children@.len(),
                dv == toks.deep_view(),
                spec_try_children(self@.children, dv, start as int, 0) == spec_try_children(
                    self@.children,
                    dv,
                    start as int,
                    c as int,
                ),
            decreases n - c,
        {
            let child = &self.children[c];
            proof {
                assert(child@ == self@.children[c as int]);
            }
            let attempt: Option<(String, StringMap)> = match &child.segment {
                Segment::Static(lit) => {
                    if str_eq(toks[start].as_str(), lit.as_str()) {
                        child.match_segments(toks, start + 1)
                    } else {
                        None
                    }
                },
                Segment::Parameter(name) => {
                    match child.match_segments(toks, start + 1) {
                        Some((p, mut m)) => {
                            m.insert_keep(name.clone(), toks[start].clone());
                            Some((p, m))
                        },
                        None => None,
                    }
                },
                Segment::Wildcard => {
                    let all = toks.len();
                    child.match_segments(toks, all)
                },
            };
            match attempt {
                Some(pm) => {
                    return Some(pm);
                },
                None => {
                },
            }
            c = c + 1;
        }
        None
    }
}

} // verus!
