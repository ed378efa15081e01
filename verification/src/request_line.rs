//! Reading the endpoint and the kind of a request out of the bytes that a client sent.
use vstd::prelude::*;
use crate::text::{chars_of, trim, trim_str};
use crate::route::{is_file, names_file};

verus! {

/// What `String::from_utf8_lossy` makes of `bytes`: the characters they encode,
/// with each invalid sequence replaced by U+FFFD.
pub uninterp spec fn utf8_lossy(bytes: Seq<u8>) -> Seq<char>;

/// `String::from_utf8_lossy`. The contract ties the result to `bytes` by name and
/// says that valid UTF-8 is decoded as it stands; where the bytes are not valid
/// UTF-8, which replacement characters appear where is left unsaid.
#[verifier::external_body]
pub(crate) fn decode_lossy(bytes: &[u8]) -> (res: String)
    ensures
        res@ == utf8_lossy(bytes@),
        vstd::utf8::valid_utf8(bytes@) ==> res@ == vstd::utf8::decode_utf8(bytes@),
{
    String::from_utf8_lossy(bytes).into_owned()
}

/// The index of the first `c` in `s`, or `s.len()` where there is none.
pub open spec fn first_index_of(s: Seq<char>, c: char) -> int
    decreases s.len(),
{
    if s.len() == 0 {
        0
    } else if s[0] == c {
        0
    } else {
        1 + first_index_of(s.drop_first(), c)
    }
}

pub proof fn lemma_first_index_of(s: Seq<char>, c: char, i: int)
    requires
        0 <= i <= s.len(),
        forall|j: int| 0 <= j < i ==> s[j] != c,
        i == s.len() || s[i] == c,
    ensures
        first_index_of(s, c) == i,
    decreases i,
{
    if i > 0 {
        let t = s.drop_first();
        assert forall|j: int| 0 <= j < i - 1 implies t[j] != c by {
            assert(t[j] == s[j + 1]);
        }
        lemma_first_index_of(t, c, i - 1);
    }
}

/// The text that ends an endpoint in a request line: ` HTTP`, the space before the
/// protocol version.
pub open spec fn http_marker() -> Seq<char> {
    seq![' ', 'H', 'T', 'T', 'P']
}

/// `s` holds `p` at position `i`.
pub open spec fn occurs_at(s: Seq<char>, p: Seq<char>, i: int) -> bool {
    0 <= i && i + p.len() <= s.len() && s.subrange(i, i + p.len()) == p
}

/// The position of the first occurrence of `p` in `s`, or `s.len()` where there is
/// none.
pub open spec fn find_seq(s: Seq<char>, p: Seq<char>) -> int
    decreases s.len(),
{
    if s.len() < p.len() {
        s.len() as int
    } else if s.subrange(0, p.len() as int) == p {
        0
    } else if s.len() == 0 {
        0
    } else {
        1 + find_seq(s.drop_first(), p)
    }
}

proof fn lemma_find_seq(s: Seq<char>, p: Seq<char>, i: int)
    requires
        p.len() > 0,
        0 <= i <= s.len(),
        forall|j: int| 0 <= j < i ==> !occurs_at(s, p, j),
        occurs_at(s, p, i) || i + p.len() > s.len(),
    ensures
        find_seq(s, p) == (if occurs_at(s, p, i) { i } else { s.len() as int }),
    decreases i,
{
    if s.len() >= p.len() && i > 0 {
        assert(!occurs_at(s, p, 0));
        let t = s.drop_first();
        assert forall|j: int| 0 <= j < i - 1 implies !occurs_at(t, p, j) by {
            if occurs_at(t, p, j) {
                assert(s.subrange(j + 1, j + 1 + p.len()) =~= t.subrange(j, j + p.len()));
                assert(occurs_at(s, p, j + 1));
            }
        }
        if occurs_at(s, p, i) {
            assert(s.subrange(i, i + p.len()) =~= t.subrange(i - 1, i - 1 + p.len()));
        } else if occurs_at(t, p, i - 1) {
            assert(s.subrange(i, i + p.len()) =~= t.subrange(i - 1, i - 1 + p.len()));
        }
        lemma_find_seq(t, p, i - 1);
    }
}

/// The endpoint of a request line, with the space before it and the space that
/// begins the ` HTTP` after it: the text from the first space through the space
/// that begins the first ` HTTP` after it. Where the text has no space, or no
/// ` HTTP` after its first space, the whole text is taken.
pub open spec fn chop(s: Seq<char>) -> Seq<char> {
    let sp = first_index_of(s, ' ');
    let rest = s.subrange(sp + 1, s.len() as int);
    if sp < s.len() && find_seq(rest, http_marker()) < rest.len() {
        s.subrange(sp, sp + 1 + find_seq(rest, http_marker()) + 1)
    } else {
        s
    }
}

/// Whether `cs` holds ` HTTP` at position `i`.
fn marker_at(cs: &Vec<char>, i: usize) -> (res: bool)
    requires
        i + 5 <= cs@.len(),
    ensures
        res == occurs_at(cs@, http_marker(), i as int),
{
    let n = cs.len();
    assert(i + 5 <= n);
    let r = cs[i] == ' ' && cs[i + 1] == 'H' && cs[i + 2] == 'T' && cs[i + 3] == 'T' && cs[i + 4] == 'P';
    assert(r == (cs@.subrange(i as int, i + 5) =~= http_marker()));
    r
}

/// The endpoint of the request whose text is `text`, with the spaces around it.
pub fn chop_text(text: &str) -> (res: String)
    ensures
        res@ == chop(text@),
{
    let cs = chars_of(text);
    let n = cs.len();
    let mut sp: usize = 0;
    while sp < n && cs[sp] != ' '
        invariant
            cs@ == text@,
            n == cs@.len(),
            sp <= n,
            forall|j: int| 0 <= j < sp ==> cs@[j] != ' ',
        decreases n - sp,
    {
        sp = sp + 1;
    }
    proof {
        lemma_first_index_of(text@, ' ', sp as int);
    }
    if sp == n {
        return text.to_owned();
    }
    let rest = text.substring_char(sp + 1, n);
    let rs = chars_of(rest);
    let m = rs.len();
    let mut i: usize = 0;
    while i < m && m - i >= 5 && !marker_at(&rs, i)
        invariant
            rs@ == rest@,
            m == rs@.len(),
            i <= m,
            forall|j: int| 0 <= j < i ==> !occurs_at(rs@, http_marker(), j),
        decreases m - i,
    {
        i = i + 1;
    }
    proof {
        lemma_find_seq(rest@, http_marker(), i as int);
    }
    if i < m && m - i >= 5 {
        assert(text@.subrange(sp as int, sp + 1 + i + 1) =~= text@.subrange(sp as int, n as int).subrange(0, i + 2));
        text.substring_char(sp, sp + 1 + i + 1).to_owned()
    } else {
        text.to_owned()
    }
}

/// The endpoint of the request in `buffer`, decoded with `decode_lossy`, with the
/// spaces around it.
pub fn chop_input(buffer: &[u8]) -> (res: String)
    ensures
        res@ == chop(utf8_lossy(buffer@)),
{
    let string = decode_lossy(buffer);
    chop_text(string.as_str())
}

/// A request line is read as its method, a space, its endpoint, and the ` HTTP` that
/// follows: whatever characters the endpoint holds, `H` and non-ASCII ones among
/// them, it is cut out whole with the space on either side, provided the method has
/// no space and ` HTTP` does not begin inside the endpoint.
pub proof fn lemma_request_line_endpoint(method: Seq<char>, target: Seq<char>, tail: Seq<char>)
    requires
        !method.contains(' '),
        forall|j: int| 0 <= j < target.len() ==> !occurs_at(target + http_marker(), http_marker(), j),
    ensures
        chop(method + seq![' '] + target + http_marker() + tail) == seq![' '] + target + seq![' '],
{
    let s = method + seq![' '] + target + http_marker() + tail;
    let sp = method.len() as int;
    assert forall|j: int| 0 <= j < sp implies s[j] != ' ' by {
        assert(s[j] == method[j]);
    }
    lemma_first_index_of(s, ' ', sp);
    let rest = s.subrange(sp + 1, s.len() as int);
    let t = target.len() as int;
    assert(rest =~= target + http_marker() + tail);
    let pre = target + http_marker();
    assert forall|j: int| 0 <= j < t implies !occurs_at(rest, http_marker(), j) by {
        assert(!occurs_at(pre, http_marker(), j));
        assert(rest.subrange(j, j + 5) =~= pre.subrange(j, j + 5));
    }
    assert(rest.subrange(t, t + 5) =~= http_marker());
    lemma_find_seq(rest, http_marker(), t);
    assert(s.subrange(sp, sp + 1 + t + 1) =~= seq![' '] + target + seq![' ']);
}

/// The kind of a request, as the server tells it from the request's first bytes
/// and its endpoint.
#[derive(PartialEq, Eq, Structural, Clone, Copy, Debug)]
pub enum HttpStatus {
    Get,
    Post,
    File,
    NotFound,
}

/// `bytes` begins with `prefix`.
pub open spec fn bytes_start_with(bytes: Seq<u8>, prefix: Seq<u8>) -> bool {
    prefix.len() <= bytes.len() && bytes.subrange(0, prefix.len() as int) == prefix
}

/// The bytes of `POST`.
pub open spec fn post_bytes() -> Seq<u8> {
    seq![0x50u8, 0x4fu8, 0x53u8, 0x54u8]
}

/// The bytes of `GET`.
pub open spec fn get_bytes() -> Seq<u8> {
    seq![0x47u8, 0x45u8, 0x54u8]
}

/// The kind of the request in `buffer` whose endpoint is `endp`: a file where the
/// endpoint names one, whatever the method; else by the method the buffer begins with.
pub open spec fn status_of(buffer: Seq<u8>, endp: Seq<char>) -> HttpStatus {
    if names_file(endp) {
        HttpStatus::File
    } else if bytes_start_with(buffer, post_bytes()) {
        HttpStatus::Post
    } else if bytes_start_with(buffer, get_bytes()) {
        HttpStatus::Get
    } else {
        HttpStatus::NotFound
    }
}

/// The endpoint of a request whose text is `text`, white space trimmed.
pub open spec fn endpoint_of(text: Seq<char>) -> Seq<char> {
    trim(chop(text))
}

fn starts_with_post(buffer: &[u8]) -> (res: bool)
    ensures
        res == bytes_start_with(buffer@, post_bytes()),
{
    let r = buffer.len() >= 4 && buffer[0] == 0x50u8 && buffer[1] == 0x4fu8 && buffer[2] == 0x53u8
        && buffer[3] == 0x54u8;
    if buffer.len() >= 4 {
        assert(r == (buffer@.subrange(0, 4) =~= post_bytes()));
    }
    r
}

fn starts_with_get(buffer: &[u8]) -> (res: bool)
    ensures
        res == bytes_start_with(buffer@, get_bytes()),
{
    let r = buffer.len() >= 3 && buffer[0] == 0x47u8 && buffer[1] == 0x45u8 && buffer[2] == 0x54u8;
    if buffer.len() >= 3 {
        assert(r == (buffer@.subrange(0, 3) =~= get_bytes()));
    }
    r
}

/// The kind of the request in `buffer` whose endpoint is `endp`.
pub fn request_status(buffer: &[u8], endp: &String) -> (res: HttpStatus)
    ensures
        res == status_of(buffer@, endp@),
{
    if is_file(endp) {
        HttpStatus::File
    } else if starts_with_post(buffer) {
        HttpStatus::Post
    } else if starts_with_get(buffer) {
        HttpStatus::Get
    } else {
        HttpStatus::NotFound
    }
}

/// The kind and the endpoint of the request in `buffer`, whose decoded text is
/// `text`.
pub fn handle_text(buffer: &[u8], text: &str) -> (res: (HttpStatus, String))
    ensures
        res.1@ == endpoint_of(text@),
        res.0 == status_of(buffer@, endpoint_of(text@)),
{
    let chopped = chop_text(text);
    let endp = trim_str(chopped.as_str());
    let st = request_status(buffer, &endp);
    (st, endp)
}

/// The kind and the endpoint of the request in `buffer`.
pub fn handle_conection(buffer: &[u8]) -> (res: (HttpStatus, String))
    ensures
        res.1@ == endpoint_of(utf8_lossy(buffer@)),
        res.0 == status_of(buffer@, endpoint_of(utf8_lossy(buffer@))),
{
    let string = decode_lossy(buffer);
    handle_text(buffer, string.as_str())
}

/// A request is for a file exactly when its endpoint holds a `.` somewhere, whatever
/// its method.
pub proof fn lemma_file_iff_dot(buffer: Seq<u8>, endp: Seq<char>)
    ensures
        (status_of(buffer, endp) == HttpStatus::File) <==> exists|i: int| 0 <= i < endp.len() && endp[i] == '.',
{
}

} // verus!
