//! A request as the handler of an endpoint sees it: the values of the endpoint's
//! parameters.
use vstd::prelude::*;
use crate::text::{split, split_str, views};
use crate::route::is_param_segment;
use crate::table::StrMap;
use crate::param::{Data, DataView, param_data, param_value};

verus! {

/// Building the request for `recibed` against the pattern `original` succeeds: the
/// received endpoint has at least as many segments as the pattern.
pub open spec fn request_defined(recibed: Seq<char>, original: Seq<char>) -> bool {
    split(recibed, '/').len() >= split(original, '/').len()
}

/// The parameters that the first `n` segments of the pattern `o` give, against the
/// received segments `r`: each parameter segment (one that begins with `:`) names,
/// without its `:`, the value of the received segment at the same position; a later
/// segment with the same name wins.
pub open spec fn params_from(r: Seq<Seq<char>>, o: Seq<Seq<char>>, n: nat) -> Map<Seq<char>, DataView>
    decreases n,
{
    if n == 0 {
        Map::empty()
    } else {
        let m = params_from(r, o, (n - 1) as nat);
        let k = o[n - 1];
        if is_param_segment(k) {
            m.insert(k.drop_first(), param_value(r[n - 1]))
        } else {
            m
        }
    }
}

/// The parameters of the request for `recibed` against the pattern `original`.
pub open spec fn typed_params(recibed: Seq<char>, original: Seq<char>) -> Map<Seq<char>, DataView> {
    let o = split(original, '/');
    params_from(split(recibed, '/'), o, o.len())
}

/// The parameters of a request, by name.
pub struct Request {
    params: StrMap<Data>,
    _original_endpoint: String,
}

impl Request {
    /// The parameters, by name.
    pub closed spec fn params(&self) -> Map<Seq<char>, DataView> {
        self.params.map()
    }

    /// The endpoint pattern that the request was matched against.
    pub closed spec fn original_endpoint(&self) -> Seq<char> {
        self._original_endpoint@
    }

    /// The request is well formed.
    pub closed spec fn wf(&self) -> bool {
        self.params.wf()
    }

    /// The request for the received endpoint `recibed`, matched against the
    /// endpoint pattern `original`.
    pub fn new(recibed: &str, original: &str) -> (res: Request)
        requires
            request_defined(recibed@, original@),
        ensures
            res.wf(),
            res.params() == typed_params(recibed@, original@),
            res.original_endpoint() == original@,
    {
        let original_params = split_str(original, '/');
        let recibed_params = split_str(recibed, '/');
        let ghost o = split(original@, '/');
        let ghost r = split(recibed@, '/');
        assert(original_params@.len() == o.len() && views(original_params@) == o);
        assert(recibed_params@.len() == r.len() && views(recibed_params@) == r);
        let mut params_map: StrMap<Data> = StrMap::new();
        let mut i: usize = 0;
        while i < original_params.len()
            invariant
                request_defined(recibed@, original@),
                o == split(original@, '/'),
                r == split(recibed@, '/'),
                views(original_params@) == o,
                views(recibed_params@) == r,
                original_params@.len() == o.len(),
                recibed_params@.len() == r.len(),
                i <= o.len(),
                params_map.wf(),
                params_map.map() == params_from(r, o, i as nat),
            decreases o.len() - i,
        {
            assert(original_params@[i as int]@ == o[i as int]);
            assert(recibed_params@[i as int]@ == r[i as int]);
            let aux1 = original_params[i].as_str();
            let aux2 = &recibed_params[i];
            if !aux1.is_empty() && aux1.get_char(0) == ':' {
                let data = param_data(aux2);
                let n = aux1.unicode_len();
                let key = aux1.substring_char(1, n).to_owned();
                assert(key@ == o[i as int].drop_first());
                params_map.insert(key, data);
            }
            i = i + 1;
        }
        Request { params: params_map, _original_endpoint: original.to_owned() }
    }

    /// The value of the parameter `name`, left in the request.
    pub fn param(&self, name: &str) -> (res: Option<&Data>)
        requires
            self.wf(),
        ensures
            match res {
                Some(v) => self.params().dom().contains(name@) && v@ == self.params()[name@],
                None => !self.params().dom().contains(name@),
            },
    {
        let key = name.to_owned();
        match self.params.find(&key) {
            Some(i) => Some(self.params.value_at(i)),
            None => None,
        }
    }

    /// Takes the value of the parameter `param_name` out of the request.
    pub fn get_param(&mut self, param_name: &str) -> (res: Option<Data>)
        requires
            old(self).wf(),
        ensures
            final(self).wf(),
            final(self).params() == old(self).params().remove(param_name@),
            final(self).original_endpoint() == old(self).original_endpoint(),
            match res {
                Some(v) => old(self).params().dom().contains(param_name@) && v@ == old(self).params()[param_name@],
                None => !old(self).params().dom().contains(param_name@),
            },
    {
        let key = param_name.to_owned();
        self.params.remove(&key)
    }
}


/// A parameter can be taken out of a request once: after `get_param` has taken
/// it, a second call finds nothing, whatever the first one returned.
pub proof fn lemma_get_param_takes_once(params: Map<Seq<char>, DataView>, name: Seq<char>)
    ensures
        !params.remove(name).dom().contains(name),
        params.remove(name).remove(name) == params.remove(name),
{
    assert(params.remove(name).remove(name) =~= params.remove(name));
}

proof fn lemma_params_from_position(r: Seq<Seq<char>>, o: Seq<Seq<char>>, n: nat, i: int)
    requires
        0 <= i < n <= o.len(),
        o[i].len() > 0 && o[i][0] == ':',
        forall|j: int| i < j < n && #[trigger] o[j].len() > 0 && o[j][0] == ':' ==> o[j].drop_first() != o[i].drop_first(),
    ensures
        params_from(r, o, n).dom().contains(o[i].drop_first()),
        params_from(r, o, n)[o[i].drop_first()] == param_value(r[i]),
    decreases n,
{
    if i < n - 1 {
        lemma_params_from_position(r, o, (n - 1) as nat, i);
        let k = o[n - 1];
        if k.len() > 0 && k[0] == ':' {
            assert(k.drop_first() != o[i].drop_first());
        }
    }
}

proof fn lemma_params_from_names(r: Seq<Seq<char>>, o: Seq<Seq<char>>, n: nat, name: Seq<char>)
    requires
        n <= o.len(),
        params_from(r, o, n).dom().contains(name),
    ensures
        exists|i: int| 0 <= i < n && #[trigger] o[i].len() > 0 && o[i][0] == ':' && o[i].drop_first() == name,
    decreases n,
{
    if n > 0 {
        let k = o[n - 1];
        if k.len() > 0 && k[0] == ':' && k.drop_first() == name {
            assert(o[n - 1].len() > 0);
        } else {
            lemma_params_from_names(r, o, (n - 1) as nat, name);
            let i = choose|i: int| 0 <= i < n - 1 && #[trigger] o[i].len() > 0 && o[i][0] == ':' && o[i].drop_first() == name;
            assert(o[i].len() > 0);
        }
    }
}

/// Each parameter of a pattern takes the received segment at its own position: for
/// a segment `:name` at position `i` of the pattern that no later `:name` segment
/// overrides, the request's value under `name` is the typed value of the `i`-th
/// received segment. And every parameter of the request is named by some `:name`
/// segment of the pattern.
pub proof fn lemma_param_takes_its_own_segment(recibed: Seq<char>, original: Seq<char>, i: int, name: Seq<char>)
    requires
        split(recibed, '/').len() >= split(original, '/').len(),
        0 <= i < split(original, '/').len(),
        split(original, '/')[i] == seq![':'] + name,
        forall|j: int| i < j < split(original, '/').len() ==> #[trigger] split(original, '/')[j] != seq![':'] + name,
    ensures
        typed_params(recibed, original).dom().contains(name),
        typed_params(recibed, original)[name] == param_value(split(recibed, '/')[i]),
{
    let o = split(original, '/');
    let r = split(recibed, '/');
    assert(o[i].drop_first() =~= name);
    assert forall|j: int| i < j < o.len() && #[trigger] o[j].len() > 0 && o[j][0] == ':' implies o[j].drop_first() != o[i].drop_first() by {
        if o[j].drop_first() == o[i].drop_first() {
            assert(o[j] =~= seq![':'] + name);
        }
    }
    lemma_params_from_position(r, o, o.len(), i);
}

/// Every parameter of a request is named, without its `:`, by a segment of the
/// pattern that begins with `:`.
pub proof fn lemma_params_are_named_by_pattern(recibed: Seq<char>, original: Seq<char>, name: Seq<char>)
    requires
        typed_params(recibed, original).dom().contains(name),
    ensures
        exists|i: int| 0 <= i < split(original, '/').len() && #[trigger] split(original, '/')[i] == seq![':'] + name,
{
    let o = split(original, '/');
    lemma_params_from_names(split(recibed, '/'), o, o.len(), name);
    let i = choose|i: int| 0 <= i < o.len() && #[trigger] o[i].len() > 0 && o[i][0] == ':' && o[i].drop_first() == name;
    assert(o[i] =~= seq![':'] + name);
}

} // verus!
