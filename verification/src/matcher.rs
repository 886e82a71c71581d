//! The route matcher façade: owns the trie root, registers templates, and
//! matches request URLs, splitting off and parsing the query string.

use crate::params::StringMap;
use crate::segment::Segment;
use crate::segment::SpecSegment;
use crate::segment::classify;
use crate::segment::spec_classify;
use crate::strutil::find_char_from;
use crate::strutil::idx_of;
use crate::strutil::lemma_idx_of_unique;
use crate::strutil::spec_split_drop;
use crate::strutil::split_drop;
use crate::trie::SpecNode;
use crate::trie::TrieNode;
use crate::trie::empty_node;
use crate::trie::spec_add;
use crate::trie::spec_match_node;
use vstd::prelude::*;
use vstd::string::StrSliceExecFns;

verus! {

/// The segments that a template string denotes: split on `/`, empty pieces
/// dropped, each token classified.
pub open spec fn spec_template_segments(t: Seq<char>) -> Seq<SpecSegment> {
    spec_split_drop(t, '/').map_values(|tok: Seq<char>| spec_classify(tok))
}

/// The path part of a URL: everything before the first `?`.
pub open spec fn spec_path_of(url: Seq<char>) -> Seq<char> {
    url.subrange(0, idx_of(url, '?'))
}

/// The query part of a URL: everything after the first `?`, empty when there
/// is none.
pub open spec fn spec_query_of(url: Seq<char>) -> Seq<char> {
    if idx_of(url, '?') == url.len() {
        Seq::empty()
    } else {
        url.subrange(idx_of(url, '?') + 1, url.len() as int)
    }
}

/// The key/value pair that one `&`-delimited query piece denotes: the key is
/// the text before the first `=`, the value the text between the first and
/// the second `=` (or up to the end), empty when there is no `=` at all.
/// Text after a second `=` is dropped.
pub open spec fn spec_query_pair(piece: Seq<char>) -> (Seq<char>, Seq<char>) {
    let e1 = idx_of(piece, '=');
    if e1 == piece.len() {
        (piece, Seq::<char>::empty())
    } else {
        let rest = piece.subrange(e1 + 1, piece.len() as int);
        (piece.subrange(0, e1), rest.subrange(0, idx_of(rest, '=')))
    }
}

/// The mapping that a sequence of query pieces denotes: pairs in order, a
/// repeated key's last occurrence winning.
pub open spec fn spec_query_map(pieces: Seq<Seq<char>>) -> Map<Seq<char>, Seq<char>>
    decreases pieces.len(),
{
    if pieces.len() == 0 {
        Map::empty()
    } else {
        spec_query_map(pieces.drop_last()).insert(
            spec_query_pair(pieces.last()).0,
            spec_query_pair(pieces.last()).1,
        )
    }
}

/// What matching a URL against a trie returns: the registered template, the
/// bound path parameters, and the parsed query mapping; or nothing. On
/// failure the query string plays no part.
pub open spec fn spec_route_match(root: SpecNode, url: Seq<char>) -> Option<
    (Seq<char>, Map<Seq<char>, Seq<char>>, Map<Seq<char>, Seq<char>>),
> {
    match spec_match_node(root, spec_split_drop(spec_path_of(url), '/'), 0) {
        None => None,
        Some(pm) => Some(
            (pm.0, pm.1, spec_query_map(spec_split_drop(spec_query_of(url), '&'))),
        ),
    }
}

/// A successful match: the verbatim registered template, the bound path
/// parameters, and the query key/value pairs.
pub struct MatchedRoute {
    /// The template string exactly as supplied at registration.
    pub path: String,
    /// Parameter name to bound path token.
    pub parameters: StringMap,
    /// Query key to query value.
    pub url_parameters: StringMap,
}

/// The route matcher: a trie built by `add_route` and queried by
/// `match_route`.
pub struct RouteMatcher {
    root: TrieNode,
}

impl View for RouteMatcher {
    type V = SpecNode;

    closed spec fn view(&self) -> SpecNode {
        self.root@
    }
}

impl RouteMatcher {
    /// A matcher with no routes.
    pub fn new() -> (r: RouteMatcher)
        ensures
            r@ == empty_node(SpecSegment::Static(Seq::<char>::empty())),
    {
        RouteMatcher { root: TrieNode::new_root() }
    }

    /// Registers a route template, as `spec_add` over the template's
    /// segments says. Registration never fails: any string is accepted.
    pub fn add_route(&mut self, path: &str)
        ensures
            final(self)@ == spec_add(old(self)@, path@, spec_template_segments(path@), 0),
    {
        let toks = split_drop(path, '/');
        let mut segs: Vec<Segment> = Vec::new();
        let m = toks.len();
        let mut k: usize = 0;
        while k < m
            invariant
                k <= m,
                m == toks@.len(),
                toks.deep_view() == spec_split_drop(path@, '/'),
                segs.deep_view() == toks.deep_view().take(k as int).map_values(
                    |t: Seq<char>| spec_classify(t),
                ),
            decreases m - k,
        {
            let seg = classify(toks[k].as_str());
            proof {
                assert(seg@ == spec_classify(toks.deep_view()[k as int]));
            }
            let ghost old_dv = segs.deep_view();
            segs.push(seg);
            proof {
                assert(segs.deep_view() =~= old_dv.push(seg@));
                assert(segs.deep_view() =~= toks.deep_view().take(k + 1).map_values(
                    |t: Seq<char>| spec_classify(t),
                ));
            }
            k = k + 1;
        }
        proof {
            assert(toks.deep_view().take(m as int) =~= toks.deep_view());
        }
        self.root.add_route(path, &segs, 0);
    }

    /// Matches a request URL, as `spec_route_match` says: the part before
    /// the first `?` is tokenized and matched against the trie; on success
    /// the part after the `?` is parsed into query key/value pairs.
    pub fn match_route(&self, url: &str) -> (r: Option<MatchedRoute>)
        ensures
            match r {
                Some(m) => m.parameters.wf() && m.url_parameters.wf() && spec_route_match(
                    self@,
                    url@,
                ) == Some((m.path@, m.parameters@, m.url_parameters@)),
                None => spec_route_match(self@, url@) is None,
            },
    {
        let n = url.unicode_len();
        let q = find_char_from(url, '?', 0);
        proof {
            lemma_idx_of_unique(url@, '?', q as int);
        }
        let path_part = url.substring_char(0, q);
        let toks = split_drop(path_part, '/');
        match self.root.match_segments(&toks, 0) {
            None => None,
            Some((p, params)) => {
                let ghost qseq = spec_query_of(url@);
                let mut qm = StringMap::new();
                if q < n {
                    let qs = url.substring_char(q + 1, n);
                    let pieces = split_drop(qs, '&');
                    let pn = pieces.len();
                    let mut k: usize = 0;
                    proof {
                        assert(pieces.deep_view().take(0) =~= Seq::<Seq<char>>::empty());
                    }
                    while k < pn
                        invariant
                            k <= pn,
                            pn == pieces@.len(),
                            pieces.deep_view() == spec_split_drop(qseq, '&'),
                            qm.wf(),
                            qm@ == spec_query_map(pieces.deep_view().take(k as int)),
                        decreases pn - k,
                    {
                        let (key, value) = query_pair(pieces[k].as_str());
                        qm.insert_overwrite(key, value);
                        proof {
                            let dv = pieces.deep_view();
                            assert(dv.take(k + 1).drop_last() =~= dv.take(k as int));
                            assert(dv.take(k + 1).last() == dv[k as int]);
                        }
                        k = k + 1;
                    }
                    proof {
                        assert(pieces.deep_view().take(pn as int) =~= pieces.deep_view());
                    }
                } else {
                    proof {
                        assert(qseq =~= Seq::<char>::empty());
                        assert(spec_split_drop(qseq, '&') =~= Seq::<Seq<char>>::empty());
                    }
                }
                Some(MatchedRoute { path: p, parameters: params, url_parameters: qm })
            },
        }
    }
}

/// Parses one `&`-delimited query piece into its key and value, as
/// `spec_query_pair` says.
fn query_pair(piece: &str) -> (kv: (String, String))
    ensures
        kv.0@ == spec_query_pair(piece@).0,
        kv.1@ == spec_query_pair(piece@).1,
{
    let n = piece.unicode_len();
    let e1 = find_char_from(piece, '=', 0);
    proof {
        lemma_idx_of_unique(piece@, '=', e1 as int);
    }
    if e1 == n {
        (piece.to_owned(), String::new())
    } else {
        let key = piece.substring_char(0, e1).to_owned();
        let e2 = find_char_from(piece, '=', e1 + 1);
        let value = piece.substring_char(e1 + 1, e2).to_owned();
        proof {
            let rest = piece@.subrange(e1 + 1, n as int);
            assert forall|j: int| 0 <= j < e2 - (e1 + 1) implies rest[j] != '=' by {
                assert(piece@[j + e1 + 1] != '=');
            }
            lemma_idx_of_unique(rest, '=', e2 - (e1 + 1));
            assert(value@ =~= rest.subrange(0, idx_of(rest, '=')));
        }
        (key, value)
    }
}

} // verus!
