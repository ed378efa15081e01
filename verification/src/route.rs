//! Endpoint patterns: how a registered endpoint is compared with a requested one.
use vstd::prelude::*;
use crate::text::{split, split_str, views, contains_char};

verus! {

/// A parameter segment of an endpoint pattern: one that begins with `:`.
pub open spec fn is_param_segment(seg: Seq<char>) -> bool {
    seg.len() > 0 && seg[0] == ':'
}

/// Whether the registered endpoint pattern `with_params` matches the requested
/// endpoint `without`: both have the same number of `/`-separated segments, and each
/// segment of the pattern is either a parameter or equal to the requested segment at
/// the same position.
pub open spec fn endpoints_match(with_params: Seq<char>, without: Seq<char>) -> bool {
    let p = split(with_params, '/');
    let o = split(without, '/');
    &&& p.len() == o.len()
    &&& forall|i: int| 0 <= i < p.len() ==> #[trigger] p[i] == o[i] || is_param_segment(p[i])
}

/// Whether an endpoint names a file: it holds a `.`.
pub open spec fn names_file(endpoint: Seq<char>) -> bool {
    endpoint.contains('.')
}

/// Whether the registered endpoint pattern `with_params` matches the requested
/// endpoint `withouth`.
pub fn match_endp_params(with_params: &str, withouth: &str) -> (res: bool)
    ensures
        res == endpoints_match(with_params@, withouth@),
{
    let params = split_str(with_params, '/');
    let original = split_str(withouth, '/');
    let ghost p = split(with_params@, '/');
    let ghost o = split(withouth@, '/');
    assert(params@.len() == p.len() && original@.len() == o.len()) by {
        assert(views(params@).len() == params@.len());
        assert(views(original@).len() == original@.len());
    }
    if params.len() != original.len() {
        return false;
    }
    let mut i: usize = 0;
    while i < params.len()
        invariant
            p == split(with_params@, '/'),
            o == split(withouth@, '/'),
            views(params@) == p,
            views(original@) == o,
            params@.len() == original@.len() == p.len() == o.len(),
            i <= params@.len(),
            forall|j: int| 0 <= j < i ==> #[trigger] p[j] == o[j] || is_param_segment(p[j]),
        decreases params@.len() - i,
    {
        assert(params@[i as int]@ == p[i as int]);
        assert(original@[i as int]@ == o[i as int]);
        let key1 = params[i].as_str();
        let is_param = !key1.is_empty() && key1.get_char(0) == ':';
        if !(params[i] == original[i]) && !is_param {
            assert(!(p[i as int] == o[i as int] || is_param_segment(p[i as int])));
            return false;
        }
        i = i + 1;
    }
    true
}

/// Whether `enp_name` names a file.
pub fn is_file(enp_name: &String) -> (res: bool)
    ensures
        res == names_file(enp_name@),
{
    contains_char(enp_name.as_str(), '.')
}

/// Every endpoint matches itself.
pub proof fn lemma_match_reflexive(e: Seq<char>)
    ensures
        endpoints_match(e, e),
{
}

/// A pattern without parameter segments matches exactly the endpoints whose
/// segments are its own.
pub proof fn lemma_literal_pattern_matches_itself_only(pattern: Seq<char>, endp: Seq<char>)
    requires
        forall|i: int| 0 <= i < split(pattern, '/').len() ==> !is_param_segment(#[trigger] split(pattern, '/')[i]),
    ensures
        endpoints_match(pattern, endp) <==> split(pattern, '/') == split(endp, '/'),
{
    let p = split(pattern, '/');
    let o = split(endp, '/');
    if endpoints_match(pattern, endp) {
        assert forall|i: int| 0 <= i < p.len() implies p[i] == o[i] by {
            assert(p[i] == o[i] || is_param_segment(p[i]));
        }
        assert(p =~= o);
    }
}

/// A parameter segment matches any requested segment: `/:id` matches `/5`.
pub proof fn lemma_param_segment_example()
    ensures
        endpoints_match(seq!['/', ':', 'i', 'd'], seq!['/', '5']),
        !endpoints_match(seq!['/', 'a'], seq!['/', 'b']),
{
    let a = seq!['/', ':', 'i', 'd'];
    let b = seq!['/', '5'];
    lemma_split_root_segment(seq![':', 'i', 'd']);
    lemma_split_root_segment(seq!['5']);
    lemma_split_root_segment(seq!['a']);
    lemma_split_root_segment(seq!['b']);
    assert(seq!['/'] + seq![':', 'i', 'd'] =~= a);
    assert(seq!['/'] + seq!['5'] =~= b);
    assert(seq!['/'] + seq!['a'] =~= seq!['/', 'a']);
    assert(seq!['/'] + seq!['b'] =~= seq!['/', 'b']);
    assert(split(seq!['/', 'a'], '/')[1] != split(seq!['/', 'b'], '/')[1]);
}

proof fn lemma_split_no_sep(s: Seq<char>)
    requires
        !s.contains('/'),
    ensures
        split(s, '/') == seq![s],
    decreases s.len(),
{
    if s.len() > 0 {
        assert(s.drop_last().len() < s.len());
        assert forall|i: int| 0 <= i < s.drop_last().len() implies s.drop_last()[i] != '/' by {
            assert(s.drop_last()[i] == s[i]);
        }
        lemma_split_no_sep(s.drop_last());
        assert(s.last() == s[s.len() - 1]);
        assert(s.drop_last().push(s.last()) =~= s);
    } else {
        assert(s =~= Seq::<char>::empty());
    }
}

proof fn lemma_split_root_segment(seg: Seq<char>)
    requires
        seg.len() > 0,
        !seg.contains('/'),
    ensures
        split(seq!['/'] + seg, '/') == seq![Seq::<char>::empty(), seg],
    decreases seg.len(),
{
    let s = seq!['/'] + seg;
    if seg.len() == 1 {
        assert(s.drop_last() =~= seq!['/']);
        assert(seq!['/'].drop_last() =~= Seq::<char>::empty());
        assert(split(Seq::<char>::empty(), '/') == seq![Seq::<char>::empty()]);
        assert(seq!['/'].last() == '/');
        assert(split(seq!['/'], '/') =~= seq![Seq::<char>::empty(), Seq::<char>::empty()]);
        assert(Seq::<char>::empty().push(seg[0]) =~= seg);
        assert(s.last() == seg[0]);
    } else {
        let t = seg.drop_last();
        assert forall|i: int| 0 <= i < t.len() implies t[i] != '/' by {
            assert(t[i] == seg[i]);
        }
        assert(!t.contains('/'));
        lemma_split_root_segment(t);
        assert(s.drop_last() =~= seq!['/'] + t);
        assert(s.last() == seg.last());
        assert(seg.last() == seg[seg.len() - 1]);
        assert(t.push(seg.last()) =~= seg);
    }
}

} // verus!
