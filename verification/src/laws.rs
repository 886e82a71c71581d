//! General properties of route registration and matching, proved over the
//! spec-level trie model.

use crate::segment::SpecSegment;
use crate::trie::SpecNode;
use crate::trie::empty_node;
use crate::trie::first_child_with;
use crate::trie::lemma_first_child_with;
use crate::trie::lemma_first_child_with_at;
use crate::trie::spec_add;
use crate::trie::spec_match_node;
use crate::trie::spec_try_children;
use vstd::prelude::*;

verus! {

/// Insertion never changes the segment by which a node is reached.
pub proof fn lemma_add_keeps_segment(
    node: SpecNode,
    path: Seq<char>,
    segs: Seq<SpecSegment>,
    i: int,
)
    ensures
        spec_add(node, path, segs, i).segment == node.segment,
{
}

/// Registering the same template twice leaves the trie exactly as one
/// registration leaves it; every later query therefore behaves the same.
pub proof fn lemma_add_route_idempotent(
    node: SpecNode,
    path: Seq<char>,
    segs: Seq<SpecSegment>,
    i: int,
)
    ensures
        spec_add(spec_add(node, path, segs, i), path, segs, i) == spec_add(node, path, segs, i),
    decreases segs.len() - i,
{
    let n1 = spec_add(node, path, segs, i);
    if i < 0 || i >= segs.len() {
        assert(spec_add(n1, path, segs, i) =~~= n1);
    } else {
        let seg = segs[i];
        lemma_first_child_with(node.children, seg);
        match first_child_with(node.children, seg) {
            Some(j) => {
                let c1 = spec_add(node.children[j], path, segs, i + 1);
                lemma_add_keeps_segment(node.children[j], path, segs, i + 1);
                assert(n1.children =~= node.children.update(j, c1));
                assert forall|k: int| 0 <= k < j implies n1.children[k].segment != seg by {
                    assert(n1.children[k] == node.children[k]);
                }
                lemma_first_child_with_at(n1.children, seg, j);
                lemma_add_route_idempotent(node.children[j], path, segs, i + 1);
                assert(spec_add(n1.children[j], path, segs, i + 1) == c1);
                assert(n1.children.update(j, c1) =~= n1.children);
                assert(spec_add(n1, path, segs, i) =~~= n1);
            },
            None => {
                let c1 = spec_add(empty_node(seg), path, segs, i + 1);
                lemma_add_keeps_segment(empty_node(seg), path, segs, i + 1);
                assert(n1.children =~= node.children.push(c1));
                let m = node.children.len() as int;
                assert forall|k: int| 0 <= k < m implies n1.children[k].segment != seg by {
                    assert(n1.children[k] == node.children[k]);
                }
                assert(n1.children[m].segment == seg);
                lemma_first_child_with_at(n1.children, seg, m);
                lemma_add_route_idempotent(empty_node(seg), path, segs, i + 1);
                assert(spec_add(n1.children[m], path, segs, i + 1) == c1);
                assert(n1.children.update(m, c1) =~= n1.children);
                assert(spec_add(n1, path, segs, i) =~~= n1);
            },
        }
    }
}

/// A wildcard child matches any remaining tokens, however many, and yields
/// the wildcard node's own terminal string with no bindings — never a string
/// from a node nested past the wildcard. Without a terminal string there,
/// the search falls through to the next sibling.
pub proof fn lemma_wildcard_matches_remainder(
    children: Seq<SpecNode>,
    toks: Seq<Seq<char>>,
    start: int,
    c: int,
)
    requires
        0 <= c < children.len(),
        0 <= start < toks.len(),
        children[c].segment is Wildcard,
    ensures
        spec_try_children(children, toks, start, c) == match children[c].path {
            Some(p) => Some((p, Map::<Seq<char>, Seq<char>>::empty())),
            None => spec_try_children(children, toks, start, c + 1),
        },
{
    let child = children[c];
    assert(spec_match_node(child, toks, toks.len() as int) == match child.path {
        Some(p) => Some((p, Map::<Seq<char>, Seq<char>>::empty())),
        None => None,
    });
}

/// Tokens fit segments pointwise on `[i, len)`: a static literal equals its
/// token, a parameter accepts any token, and no wildcard occurs.
pub open spec fn toks_fit(segs: Seq<SpecSegment>, toks: Seq<Seq<char>>, i: int) -> bool {
    forall|k: int|
        i <= k < segs.len() ==> match #[trigger] segs[k] {
            SpecSegment::Static(lit) => toks[k] == lit,
            SpecSegment::Parameter(_) => true,
            SpecSegment::Wildcard => false,
        }
}

/// The bindings that matching a single-template chain produces: one entry
/// per parameter position in `[i, len)`, a deeper repetition of a name
/// taking precedence.
pub open spec fn chain_params(segs: Seq<SpecSegment>, toks: Seq<Seq<char>>, i: int) -> Map<
    Seq<char>,
    Seq<char>,
>
    decreases segs.len() - i,
{
    if i < 0 || i >= segs.len() {
        Map::empty()
    } else {
        let deeper = chain_params(segs, toks, i + 1);
        match segs[i] {
            SpecSegment::Parameter(name) => if deeper.contains_key(name) {
                deeper
            } else {
                deeper.insert(name, toks[i])
            },
            _ => deeper,
        }
    }
}

/// Matching a trie that holds exactly one template against tokens that fit
/// it succeeds with that template and the chain's parameter bindings.
pub proof fn lemma_match_single_chain(
    seg0: SpecSegment,
    path: Seq<char>,
    segs: Seq<SpecSegment>,
    toks: Seq<Seq<char>>,
    i: int,
)
    requires
        0 <= i <= segs.len(),
        toks.len() == segs.len(),
        toks_fit(segs, toks, i),
    ensures
        spec_match_node(spec_add(empty_node(seg0), path, segs, i), toks, i) == Some(
            (path, chain_params(segs, toks, i)),
        ),
    decreases segs.len() - i,
{
    let node = spec_add(empty_node(seg0), path, segs, i);
    if i == segs.len() {
    } else {
        let seg = segs[i];
        let child = spec_add(empty_node(seg), path, segs, i + 1);
        assert(node.children =~= Seq::<SpecNode>::empty().push(child));
        lemma_add_keeps_segment(empty_node(seg), path, segs, i + 1);
        assert(child.segment == seg);
        lemma_match_single_chain(seg, path, segs, toks, i + 1);
        match seg {
            SpecSegment::Static(lit) => {
                assert(toks[i] == lit);
                assert(spec_try_children(node.children, toks, i, 0) == Some(
                    (path, chain_params(segs, toks, i + 1)),
                ));
            },
            SpecSegment::Parameter(name) => {
                assert(spec_try_children(node.children, toks, i, 0) == Some(
                    (path, chain_params(segs, toks, i)),
                ));
            },
            SpecSegment::Wildcard => {
                assert(false);
            },
        }
    }
}

/// Every name that `chain_params` binds comes from a parameter position.
pub proof fn lemma_chain_params_domain(segs: Seq<SpecSegment>, toks: Seq<Seq<char>>, i: int)
    ensures
        forall|nm: Seq<char>|
            chain_params(segs, toks, i).contains_key(nm) ==> exists|j: int|
                i <= j < segs.len() && #[trigger] segs[j] == SpecSegment::Parameter(nm),
    decreases segs.len() - i,
{
    if i < 0 || i >= segs.len() {
    } else {
        lemma_chain_params_domain(segs, toks, i + 1);
        assert forall|nm: Seq<char>| chain_params(segs, toks, i).contains_key(nm) implies exists|
            j: int,
        |
            i <= j < segs.len() && #[trigger] segs[j] == SpecSegment::Parameter(nm) by {
            let deeper = chain_params(segs, toks, i + 1);
            if deeper.contains_key(nm) {
                let j = choose|j: int|
                    i + 1 <= j < segs.len() && #[trigger] segs[j] == SpecSegment::Parameter(nm);
                assert(segs[j] == SpecSegment::Parameter(nm));
            } else {
                assert(segs[i] == SpecSegment::Parameter(nm));
            }
        }
    }
}

/// When `name` stands at exactly one parameter position `k` of the
/// template, the chain's bindings map it to the token at `k`.
pub proof fn lemma_chain_params_at(
    segs: Seq<SpecSegment>,
    toks: Seq<Seq<char>>,
    i: int,
    k: int,
    name: Seq<char>,
)
    requires
        0 <= i <= k < segs.len(),
        segs[k] == SpecSegment::Parameter(name),
        forall|j: int|
            i <= j < segs.len() && j != k ==> #[trigger] segs[j] != SpecSegment::Parameter(name),
    ensures
        chain_params(segs, toks, i).contains_key(name),
        chain_params(segs, toks, i)[name] == toks[k],
    decreases segs.len() - i,
{
    let deeper = chain_params(segs, toks, i + 1);
    if i == k {
        lemma_chain_params_domain(segs, toks, i + 1);
        if deeper.contains_key(name) {
            let j = choose|j: int|
                i + 1 <= j < segs.len() && #[trigger] segs[j] == SpecSegment::Parameter(name);
            assert(false);
        }
    } else {
        lemma_chain_params_at(segs, toks, i + 1, k, name);
    }
}

/// For a template whose segment at position `k` is the parameter `name` —
/// with no other parameter position reusing that name and no wildcard in
/// the template — matching any path whose tokens fit the template returns
/// that template with the token at position `k` bound to `name`.
pub proof fn lemma_parameter_binds_token(
    root_seg: SpecSegment,
    path: Seq<char>,
    segs: Seq<SpecSegment>,
    toks: Seq<Seq<char>>,
    k: int,
    name: Seq<char>,
)
    requires
        toks.len() == segs.len(),
        toks_fit(segs, toks, 0),
        0 <= k < segs.len(),
        segs[k] == SpecSegment::Parameter(name),
        forall|j: int|
            0 <= j < segs.len() && j != k ==> #[trigger] segs[j] != SpecSegment::Parameter(name),
    ensures
        spec_match_node(spec_add(empty_node(root_seg), path, segs, 0), toks, 0) == Some(
            (path, chain_params(segs, toks, 0)),
        ),
        chain_params(segs, toks, 0).contains_key(name),
        chain_params(segs, toks, 0)[name] == toks[k],
{
    lemma_match_single_chain(root_seg, path, segs, toks, 0);
    lemma_chain_params_at(segs, toks, 0, k, name);
}

/// Every node below this one is reached by a static segment.
pub open spec fn static_subtree(node: SpecNode) -> bool
    decreases node,
{
    forall|k: int|
        0 <= k < node.children.len() ==> (#[trigger] node.children[k]).segment is Static
            && static_subtree(node.children[k])
}

/// No node of the subtree has two children with the same segment: the shape
/// every trie built solely by insertions has.
pub open spec fn distinct_children(node: SpecNode) -> bool
    decreases node,
{
    (forall|a: int, b: int|
        0 <= a < b < node.children.len() ==> node.children[a].segment
            != node.children[b].segment) && (forall|k: int|
        0 <= k < node.children.len() ==> distinct_children(#[trigger] node.children[k]))
}

/// Insertion preserves the distinct-children shape.
pub proof fn lemma_add_preserves_distinct(
    node: SpecNode,
    path: Seq<char>,
    segs: Seq<SpecSegment>,
    i: int,
)
    requires
        distinct_children(node),
    ensures
        distinct_children(spec_add(node, path, segs, i)),
    decreases segs.len() - i,
{
    let node1 = spec_add(node, path, segs, i);
    if i < 0 || i >= segs.len() {
    } else {
        let seg = segs[i];
        lemma_first_child_with(node.children, seg);
        match first_child_with(node.children, seg) {
            Some(j) => {
                let c1 = spec_add(node.children[j], path, segs, i + 1);
                lemma_add_keeps_segment(node.children[j], path, segs, i + 1);
                lemma_add_preserves_distinct(node.children[j], path, segs, i + 1);
                assert(node1.children =~= node.children.update(j, c1));
                assert forall|k: int| 0 <= k < node1.children.len() implies distinct_children(
                    #[trigger] node1.children[k],
                ) by {
                    if k != j {
                        assert(node1.children[k] == node.children[k]);
                    }
                }
            },
            None => {
                let c1 = spec_add(empty_node(seg), path, segs, i + 1);
                lemma_add_keeps_segment(empty_node(seg), path, segs, i + 1);
                lemma_add_preserves_distinct(empty_node(seg), path, segs, i + 1);
                assert(node1.children =~= node.children.push(c1));
                let m = node.children.len() as int;
                assert forall|a: int, b: int| 0 <= a < b < node1.children.len() implies
                    node1.children[a].segment != node1.children[b].segment by {
                    if b == m {
                        assert(node1.children[a] == node.children[a]);
                        assert(node.children[a].segment != seg);
                    } else {
                        assert(node1.children[a] == node.children[a]);
                        assert(node1.children[b] == node.children[b]);
                    }
                }
                assert forall|k: int| 0 <= k < node1.children.len() implies distinct_children(
                    #[trigger] node1.children[k],
                ) by {
                    if k != m {
                        assert(node1.children[k] == node.children[k]);
                    }
                }
            },
        }
    }
}

/// Inserting a template whose remaining segments are all static preserves
/// the all-static shape.
pub proof fn lemma_add_preserves_static(
    node: SpecNode,
    path: Seq<char>,
    segs: Seq<SpecSegment>,
    i: int,
)
    requires
        static_subtree(node),
        forall|k: int| i <= k < segs.len() ==> (#[trigger] segs[k]) is Static,
    ensures
        static_subtree(spec_add(node, path, segs, i)),
    decreases segs.len() - i,
{
    let node1 = spec_add(node, path, segs, i);
    if i < 0 || i >= segs.len() {
    } else {
        let seg = segs[i];
        lemma_first_child_with(node.children, seg);
        match first_child_with(node.children, seg) {
            Some(j) => {
                let c1 = spec_add(node.children[j], path, segs, i + 1);
                lemma_add_keeps_segment(node.children[j], path, segs, i + 1);
                lemma_add_preserves_static(node.children[j], path, segs, i + 1);
                assert(node1.children =~= node.children.update(j, c1));
                assert forall|k: int| 0 <= k < node1.children.len() implies (#[trigger] node1.children[k]).segment
                    is Static && static_subtree(node1.children[k]) by {
                    if k != j {
                        assert(node1.children[k] == node.children[k]);
                    }
                }
            },
            None => {
                let c1 = spec_add(empty_node(seg), path, segs, i + 1);
                lemma_add_keeps_segment(empty_node(seg), path, segs, i + 1);
                lemma_add_preserves_static(empty_node(seg), path, segs, i + 1);
                assert(node1.children =~= node.children.push(c1));
                let m = node.children.len() as int;
                assert forall|k: int| 0 <= k < node1.children.len() implies (#[trigger] node1.children[k]).segment
                    is Static && static_subtree(node1.children[k]) by {
                    if k != m {
                        assert(node1.children[k] == node.children[k]);
                    } else {
                        assert(seg is Static);
                    }
                }
            },
        }
    }
}

/// Children tried before `j` that are static but differ from the token
/// cannot match, so the scan moves past them unchanged.
proof fn lemma_skip_static_mismatches(
    children: Seq<SpecNode>,
    toks: Seq<Seq<char>>,
    start: int,
    c: int,
    j: int,
)
    requires
        0 <= c <= j <= children.len(),
        0 <= start < toks.len(),
        forall|k: int|
            c <= k < j ==> (#[trigger] children[k]).segment is Static && children[k].segment
                != SpecSegment::Static(toks[start]),
    ensures
        spec_try_children(children, toks, start, c) == spec_try_children(children, toks, start, j),
    decreases j - c,
{
    if c < j {
        assert(children[c].segment is Static);
        lemma_skip_static_mismatches(children, toks, start, c + 1, j);
    }
}

/// In a trie whose segments are all static and whose children are distinct,
/// matching a just-registered template's own tokens returns that template
/// with no bound parameters.
pub proof fn lemma_static_template_matches_itself(
    node: SpecNode,
    path: Seq<char>,
    segs: Seq<SpecSegment>,
    toks: Seq<Seq<char>>,
    i: int,
)
    requires
        0 <= i <= segs.len(),
        toks.len() == segs.len(),
        static_subtree(node),
        distinct_children(node),
        forall|k: int| i <= k < segs.len() ==> #[trigger] segs[k] == SpecSegment::Static(toks[k]),
    ensures
        spec_match_node(spec_add(node, path, segs, i), toks, i) == Some(
            (path, Map::<Seq<char>, Seq<char>>::empty()),
        ),
    decreases segs.len() - i,
{
    let node1 = spec_add(node, path, segs, i);
    if i == segs.len() {
    } else {
        let seg = segs[i];
        assert(seg == SpecSegment::Static(toks[i]));
        lemma_first_child_with(node.children, seg);
        match first_child_with(node.children, seg) {
            Some(j) => {
                let c1 = spec_add(node.children[j], path, segs, i + 1);
                lemma_add_keeps_segment(node.children[j], path, segs, i + 1);
                assert(node1.children =~= node.children.update(j, c1));
                lemma_static_template_matches_itself(node.children[j], path, segs, toks, i + 1);
                assert forall|k: int|
                    0 <= k < j implies (#[trigger] node1.children[k]).segment is Static
                    && node1.children[k].segment != SpecSegment::Static(toks[i]) by {
                    assert(node1.children[k] == node.children[k]);
                }
                lemma_skip_static_mismatches(node1.children, toks, i, 0, j);
                assert(spec_try_children(node1.children, toks, i, j) == Some(
                    (path, Map::<Seq<char>, Seq<char>>::empty()),
                ));
            },
            None => {
                let c1 = spec_add(empty_node(seg), path, segs, i + 1);
                lemma_add_keeps_segment(empty_node(seg), path, segs, i + 1);
                assert(node1.children =~= node.children.push(c1));
                let m = node.children.len() as int;
                lemma_static_template_matches_itself(empty_node(seg), path, segs, toks, i + 1);
                assert forall|k: int|
                    0 <= k < m implies (#[trigger] node1.children[k]).segment is Static
                    && node1.children[k].segment != SpecSegment::Static(toks[i]) by {
                    assert(node1.children[k] == node.children[k]);
                }
                lemma_skip_static_mismatches(node1.children, toks, i, 0, m);
                assert(spec_try_children(node1.children, toks, i, m) == Some(
                    (path, Map::<Seq<char>, Seq<char>>::empty()),
                ));
            },
        }
    }
}

/// The segments on `[i, len)` read exactly as the tokens on `[i, len)`:
/// same overall length, each a static literal equal to its token.
pub open spec fn fits_exactly(segs: Seq<SpecSegment>, toks: Seq<Seq<char>>, i: int) -> bool {
    segs.len() == toks.len() && forall|k: int|
        i <= k < segs.len() ==> #[trigger] segs[k] == SpecSegment::Static(toks[k])
}

/// An empty node matches nothing.
pub proof fn lemma_empty_node_no_match(seg: SpecSegment, toks: Seq<Seq<char>>, start: int)
    ensures
        spec_match_node(empty_node(seg), toks, start) is None,
{
}

/// The scan gives equal results over two child lists that agree from `c`
/// on, except possibly at one index `j` where both carry the same static
/// segment that differs from the token.
proof fn lemma_try_agree(
    children1: Seq<SpecNode>,
    children2: Seq<SpecNode>,
    toks: Seq<Seq<char>>,
    start: int,
    c: int,
    j: int,
)
    requires
        children1.len() == children2.len(),
        0 <= start < toks.len(),
        forall|k: int| c <= k < children1.len() && k != j ==> children1[k] == children2[k],
        c <= j < children1.len() ==> children1[j].segment == children2[j].segment
            && children1[j].segment is Static && children1[j].segment != SpecSegment::Static(
            toks[start],
        ),
    ensures
        spec_try_children(children1, toks, start, c) == spec_try_children(
            children2,
            toks,
            start,
            c,
        ),
    decreases children1.len() - c,
{
    if 0 <= c < children1.len() {
        lemma_try_agree(children1, children2, toks, start, c + 1, j);
    }
}

/// Appending a child whose static segment differs from the token changes
/// nothing about the scan.
proof fn lemma_try_push_mismatch(
    children: Seq<SpecNode>,
    extra: SpecNode,
    toks: Seq<Seq<char>>,
    start: int,
    c: int,
)
    requires
        0 <= start < toks.len(),
        0 <= c,
        extra.segment is Static,
        extra.segment != SpecSegment::Static(toks[start]),
    ensures
        spec_try_children(children.push(extra), toks, start, c) == spec_try_children(
            children,
            toks,
            start,
            c,
        ),
    decreases children.len() + 1 - c,
{
    let grown = children.push(extra);
    if c < grown.len() {
        if c < children.len() {
            assert(grown[c] == children[c]);
        }
        lemma_try_push_mismatch(children, extra, toks, start, c + 1);
    }
}

/// Registering a static template in an all-static trie overwrites exactly
/// the queries whose tokens read as the template, and leaves every other
/// query's answer unchanged. In particular a static template registered
/// last matches its own tokens verbatim, with no parameters bound, and no
/// later registration of a different static token sequence disturbs it.
pub proof fn lemma_static_add_match(
    node: SpecNode,
    q: Seq<char>,
    segs: Seq<SpecSegment>,
    toks: Seq<Seq<char>>,
    i: int,
)
    requires
        0 <= i <= segs.len(),
        0 <= i <= toks.len(),
        static_subtree(node),
        distinct_children(node),
        forall|k: int| i <= k < segs.len() ==> (#[trigger] segs[k]) is Static,
    ensures
        spec_match_node(spec_add(node, q, segs, i), toks, i) == if fits_exactly(segs, toks, i) {
            Some((q, Map::<Seq<char>, Seq<char>>::empty()))
        } else {
            spec_match_node(node, toks, i)
        },
    decreases segs.len() - i,
{
    let node1 = spec_add(node, q, segs, i);
    if i == segs.len() {
        if i == toks.len() {
            assert(fits_exactly(segs, toks, i));
        }
    } else if i == toks.len() {
        assert(!fits_exactly(segs, toks, i));
    } else {
        let seg = segs[i];
        assert(seg is Static);
        let lit = seg->Static_0;
        assert(seg == SpecSegment::Static(lit));
        lemma_first_child_with(node.children, seg);
        match first_child_with(node.children, seg) {
            Some(j) => {
                let c1 = spec_add(node.children[j], q, segs, i + 1);
                lemma_add_keeps_segment(node.children[j], q, segs, i + 1);
                assert(node1.children =~= node.children.update(j, c1));
                lemma_static_add_match(node.children[j], q, segs, toks, i + 1);
                if toks[i] == lit {
                    assert forall|k: int|
                        0 <= k < j implies (#[trigger] node1.children[k]).segment is Static
                        && node1.children[k].segment != SpecSegment::Static(toks[i]) by {
                        assert(node1.children[k] == node.children[k]);
                    }
                    lemma_skip_static_mismatches(node1.children, toks, i, 0, j);
                    lemma_skip_static_mismatches(node.children, toks, i, 0, j);
                    if fits_exactly(segs, toks, i + 1) {
                        assert(spec_try_children(node1.children, toks, i, j) == Some(
                            (q, Map::<Seq<char>, Seq<char>>::empty()),
                        ));
                        assert(fits_exactly(segs, toks, i));
                    } else {
                        assert(spec_match_node(c1, toks, i + 1) == spec_match_node(
                            node.children[j],
                            toks,
                            i + 1,
                        ));
                        if spec_match_node(node.children[j], toks, i + 1) is Some {
                            assert(spec_try_children(node1.children, toks, i, j)
                                == spec_try_children(node.children, toks, i, j));
                        } else {
                            lemma_try_agree(node1.children, node.children, toks, i, j + 1, j);
                            assert(spec_try_children(node1.children, toks, i, j)
                                == spec_try_children(node1.children, toks, i, j + 1));
                            assert(spec_try_children(node.children, toks, i, j)
                                == spec_try_children(node.children, toks, i, j + 1));
                        }
                        assert(!fits_exactly(segs, toks, i));
                    }
                } else {
                    lemma_try_agree(node1.children, node.children, toks, i, 0, j);
                    assert(!fits_exactly(segs, toks, i));
                }
            },
            None => {
                let c1 = spec_add(empty_node(seg), q, segs, i + 1);
                lemma_add_keeps_segment(empty_node(seg), q, segs, i + 1);
                assert(node1.children =~= node.children.push(c1));
                let m = node.children.len() as int;
                lemma_static_add_match(empty_node(seg), q, segs, toks, i + 1);
                lemma_empty_node_no_match(seg, toks, i + 1);
                if toks[i] == lit {
                    assert forall|k: int|
                        0 <= k < m implies (#[trigger] node1.children[k]).segment is Static
                        && node1.children[k].segment != SpecSegment::Static(toks[i]) by {
                        assert(node1.children[k] == node.children[k]);
                    }
                    lemma_skip_static_mismatches(node1.children, toks, i, 0, m);
                    lemma_skip_static_mismatches(node.children, toks, i, 0, m);
                    if fits_exactly(segs, toks, i + 1) {
                        assert(spec_try_children(node1.children, toks, i, m) == Some(
                            (q, Map::<Seq<char>, Seq<char>>::empty()),
                        ));
                        assert(fits_exactly(segs, toks, i));
                    } else {
                        assert(spec_match_node(c1, toks, i + 1) is None);
                        assert(spec_try_children(node1.children, toks, i, m)
                            == spec_try_children(node1.children, toks, i, m + 1));
                        assert(spec_try_children(node1.children, toks, i, m + 1) is None);
                        assert(spec_try_children(node.children, toks, i, m) is None);
                        assert(!fits_exactly(segs, toks, i));
                    }
                } else {
                    lemma_try_push_mismatch(node.children, c1, toks, i, 0);
                    assert(spec_try_children(node.children.push(c1), toks, i, 0)
                        == spec_try_children(node.children, toks, i, 0));
                    assert(spec_try_children(node1.children, toks, i, 0) == spec_try_children(
                        node.children.push(c1),
                        toks,
                        i,
                        0,
                    ));
                    assert(!fits_exactly(segs, toks, i));
                }
            },
        }
    }
}

/// No wildcard segment occurs anywhere below this node.
pub open spec fn wildcard_free(node: SpecNode) -> bool
    decreases node,
{
    forall|k: int|
        0 <= k < node.children.len() ==> !((#[trigger] node.children[k]).segment is Wildcard)
            && wildcard_free(node.children[k])
}

/// A node without children has every shape the laws ask for: the trie of a
/// fresh matcher satisfies them all.
pub proof fn lemma_empty_node_shape(seg: SpecSegment)
    ensures
        static_subtree(empty_node(seg)),
        distinct_children(empty_node(seg)),
        wildcard_free(empty_node(seg)),
{
}

/// Inserting a template without wildcard segments keeps the trie free of
/// wildcards.
pub proof fn lemma_add_preserves_wildcard_free(
    node: SpecNode,
    path: Seq<char>,
    segs: Seq<SpecSegment>,
    i: int,
)
    requires
        wildcard_free(node),
        forall|k: int| i <= k < segs.len() ==> !((#[trigger] segs[k]) is Wildcard),
    ensures
        wildcard_free(spec_add(node, path, segs, i)),
    decreases segs.len() - i,
{
    let node1 = spec_add(node, path, segs, i);
    if i < 0 || i >= segs.len() {
    } else {
        let seg = segs[i];
        lemma_first_child_with(node.children, seg);
        match first_child_with(node.children, seg) {
            Some(j) => {
                let c1 = spec_add(node.children[j], path, segs, i + 1);
                lemma_add_keeps_segment(node.children[j], path, segs, i + 1);
                lemma_add_preserves_wildcard_free(node.children[j], path, segs, i + 1);
                assert(node1.children =~= node.children.update(j, c1));
                assert forall|k: int|
                    0 <= k < node1.children.len() implies !((#[trigger] node1.children[k]).segment
                    is Wildcard) && wildcard_free(node1.children[k]) by {
                    if k != j {
                        assert(node1.children[k] == node.children[k]);
                    }
                }
            },
            None => {
                let c1 = spec_add(empty_node(seg), path, segs, i + 1);
                lemma_add_keeps_segment(empty_node(seg), path, segs, i + 1);
                lemma_add_preserves_wildcard_free(empty_node(seg), path, segs, i + 1);
                assert(node1.children =~= node.children.push(c1));
                let m = node.children.len() as int;
                assert forall|k: int|
                    0 <= k < node1.children.len() implies !((#[trigger] node1.children[k]).segment
                    is Wildcard) && wildcard_free(node1.children[k]) by {
                    if k != m {
                        assert(node1.children[k] == node.children[k]);
                    }
                }
            },
        }
    }
}

/// Some node exactly `d` levels below this one carries a terminal string.
pub open spec fn has_terminal_at(node: SpecNode, d: int) -> bool
    decreases node,
{
    if d <= 0 {
        d == 0 && node.path is Some
    } else {
        exists|k: int|
            0 <= k < node.children.len() && has_terminal_at(#[trigger] node.children[k], d - 1)
    }
}

/// In a wildcard-free trie a match can only succeed where a terminal sits
/// exactly as deep as there are tokens left: a path with more segments than
/// every registered template fails, and so does one with fewer.
pub proof fn lemma_match_needs_terminal_at_depth(node: SpecNode, toks: Seq<Seq<char>>, start: int)
    requires
        wildcard_free(node),
        0 <= start <= toks.len(),
        spec_match_node(node, toks, start) is Some,
    ensures
        has_terminal_at(node, toks.len() - start),
    decreases node, 0int,
{
    if start >= toks.len() {
    } else {
        lemma_try_needs_terminal_at_depth(node.children, toks, start, 0);
    }
}

/// The scan form of `lemma_match_needs_terminal_at_depth`: a success from
/// child `c` on puts a terminal one level further down below some child.
proof fn lemma_try_needs_terminal_at_depth(
    children: Seq<SpecNode>,
    toks: Seq<Seq<char>>,
    start: int,
    c: int,
)
    requires
        forall|k: int|
            0 <= k < children.len() ==> !((#[trigger] children[k]).segment is Wildcard)
                && wildcard_free(children[k]),
        0 <= start < toks.len(),
        0 <= c,
        spec_try_children(children, toks, start, c) is Some,
    ensures
        exists|k: int|
            0 <= k < children.len() && has_terminal_at(
                #[trigger] children[k],
                toks.len() - start - 1,
            ),
    decreases children, children.len() - c,
{
    let child = children[c];
    let succeeded = match child.segment {
        SpecSegment::Static(lit) => toks[start] == lit && spec_match_node(
            child,
            toks,
            start + 1,
        ) is Some,
        SpecSegment::Parameter(_) => spec_match_node(child, toks, start + 1) is Some,
        SpecSegment::Wildcard => false,
    };
    if succeeded {
        lemma_match_needs_terminal_at_depth(child, toks, start + 1);
        assert(has_terminal_at(children[c], toks.len() - start - 1));
    } else {
        lemma_try_needs_terminal_at_depth(children, toks, start, c + 1);
    }
}

/// The failure direction: in a wildcard-free trie, a path whose token count
/// differs from the depth of every terminal — longer than every registered
/// template, or shorter — cannot match.
pub proof fn lemma_no_terminal_at_depth_no_match(node: SpecNode, toks: Seq<Seq<char>>, start: int)
    requires
        wildcard_free(node),
        0 <= start <= toks.len(),
        !has_terminal_at(node, toks.len() - start),
    ensures
        spec_match_node(node, toks, start) is None,
{
    if spec_match_node(node, toks, start) is Some {
        lemma_match_needs_terminal_at_depth(node, toks, start);
    }
}

/// An empty node holds no terminal at any depth.
pub proof fn lemma_empty_node_no_terminal(seg: SpecSegment, d: int)
    ensures
        !has_terminal_at(empty_node(seg), d),
{
}

/// Insertion creates a terminal only at the depth of the inserted segments:
/// any terminal of the grown trie either was already there or sits exactly
/// `segs.len() - i` levels down.
pub proof fn lemma_add_terminal_depths(
    node: SpecNode,
    path: Seq<char>,
    segs: Seq<SpecSegment>,
    i: int,
    d: int,
)
    requires
        0 <= i <= segs.len(),
        has_terminal_at(spec_add(node, path, segs, i), d),
    ensures
        has_terminal_at(node, d) || d == segs.len() - i,
    decreases segs.len() - i,
{
    let node1 = spec_add(node, path, segs, i);
    if i == segs.len() {
        if d > 0 {
            let k = choose|k: int|
                0 <= k < node1.children.len() && has_terminal_at(
                    #[trigger] node1.children[k],
                    d - 1,
                );
            assert(has_terminal_at(node.children[k], d - 1));
        }
    } else {
        let seg = segs[i];
        lemma_first_child_with(node.children, seg);
        if d <= 0 {
        } else {
            assert(exists|k: int|
                0 <= k < node1.children.len() && has_terminal_at(
                    #[trigger] node1.children[k],
                    d - 1,
                ));
            let k = choose|k: int|
                0 <= k < node1.children.len() && has_terminal_at(
                    #[trigger] node1.children[k],
                    d - 1,
                );
            match first_child_with(node.children, seg) {
                Some(j) => {
                    assert(node1.children =~= node.children.update(
                        j,
                        spec_add(node.children[j], path, segs, i + 1),
                    ));
                    if k != j {
                        assert(has_terminal_at(node.children[k], d - 1));
                    } else {
                        lemma_add_terminal_depths(node.children[j], path, segs, i + 1, d - 1);
                        if has_terminal_at(node.children[j], d - 1) {
                            assert(has_terminal_at(node.children[k], d - 1));
                        }
                    }
                },
                None => {
                    let m = node.children.len() as int;
                    assert(node1.children =~= node.children.push(
                        spec_add(empty_node(seg), path, segs, i + 1),
                    ));
                    if k != m {
                        assert(has_terminal_at(node.children[k], d - 1));
                    } else {
                        lemma_add_terminal_depths(empty_node(seg), path, segs, i + 1, d - 1);
                        lemma_empty_node_no_terminal(seg, d - 1);
                    }
                },
            }
        }
    }
}

} // verus!
