//! What the server writes back: the path of a rendered view, and the bytes of a
//! text or file response.
use vstd::prelude::*;
use vstd::string::*;
use vstd::utf8::{decode_utf8, encode_utf8, valid_utf8};
use crate::text::{ends_with, ends_with_str, starts_with, starts_with_str};

verus! {

/// `/`.
pub open spec fn slash() -> Seq<char> {
    seq!['/']
}

/// `.html`.
pub open spec fn html_ext() -> Seq<char> {
    seq!['.', 'h', 't', 'm', 'l']
}

/// The status line and the blank line that open every response:
/// `HTTP/1.1 200 OK\r\n\r\n`.
pub open spec fn status_head() -> Seq<char> {
    seq!['H', 'T', 'T', 'P', '/', '1', '.', '1', ' ', '2', '0', '0', ' ', 'O', 'K', '\r', '\n', '\r', '\n']
}

/// The file that rendering `filename` sends: it lies in `view_directory`, joined
/// with one `/` unless the name begins with one, and ends in `.html`, which is
/// added unless the name already ends so.
pub open spec fn view_file(view_directory: Seq<char>, filename: Seq<char>) -> Seq<char> {
    view_directory + (if starts_with(filename, slash()) {
        Seq::empty()
    } else {
        slash()
    }) + filename + (if ends_with(filename, html_ext()) {
        Seq::empty()
    } else {
        html_ext()
    })
}

/// The text of the response that sends `data`: a space, the status head, the data
/// and a space.
pub open spec fn text_message(data: Seq<char>) -> Seq<char> {
    seq![' '] + status_head() + data + seq![' ']
}

/// The bytes written for a file whose contents are `contents`: as text where they
/// are valid UTF-8, else as they are.
pub open spec fn file_message(contents: Seq<u8>) -> Seq<u8> {
    if valid_utf8(contents) {
        encode_utf8(text_message(decode_utf8(contents)))
    } else {
        contents
    }
}

/// `String::from_utf8`: the text that `bytes` encode, where they are valid UTF-8.
#[verifier::external_body]
fn utf8_text(bytes: &[u8]) -> (res: Option<String>)
    ensures
        res is Some <==> valid_utf8(bytes@),
        res matches Some(s) ==> s@ == decode_utf8(bytes@),
{
    String::from_utf8(bytes.to_vec()).ok()
}

/// What a response knows: the directory that views are rendered from.
pub struct Response {
    view_directory: String,
}

impl Response {
    /// The directory that views are rendered from.
    pub closed spec fn view_directory(&self) -> Seq<char> {
        self.view_directory@
    }

    /// A response that renders views from `view_directory`.
    pub fn new(view_directory: String) -> (res: Response)
        ensures
            res.view_directory() == view_directory@,
    {
        Response { view_directory }
    }

    /// The file that `render(filename)` sends.
    pub fn render_path(&self, filename: &str) -> (res: String)
        ensures
            res@ == view_file(self.view_directory(), filename@),
    {
        proof {
            reveal_strlit("/");
            reveal_strlit(".html");
            assert("/"@ =~= slash());
            assert(".html"@ =~= html_ext());
        }
        let mut path = self.view_directory.clone();
        if !starts_with_str(filename, "/") {
            path.append("/");
        }
        path.append(filename);
        if !ends_with_str(filename, ".html") {
            path.append(".html");
        }
        assert(path@ =~= view_file(self.view_directory(), filename@));
        path
    }
}

/// The text that `send(data)` writes.
pub fn text_response(data: &str) -> (res: String)
    ensures
        res@ == text_message(data@),
{
    proof {
        reveal_strlit(" ");
        reveal_strlit("HTTP/1.1 200 OK\r\n\r\n");
        assert("HTTP/1.1 200 OK\r\n\r\n"@ =~= status_head());
    }
    let mut response = String::from_str(" ");
    response.append("HTTP/1.1 200 OK\r\n\r\n");
    response.append(data);
    response.append(" ");
    assert(response@ =~= text_message(data@));
    response
}

/// Whether a file whose contents are `contents` is sent as text: they are valid UTF-8.
pub fn file_is_text(contents: &[u8]) -> (res: bool)
    ensures
        res == valid_utf8(contents@),
{
    utf8_text(contents).is_some()
}

/// The bytes that `send_file` writes for a file whose contents are `contents`.
pub fn file_response(contents: &[u8]) -> (res: Vec<u8>)
    ensures
        res@ == file_message(contents@),
{
    match utf8_text(contents) {
        Some(text) => {
            let response = text_response(text.as_str());
            response.as_str().as_bytes_vec()
        },
        None => vstd::slice::slice_to_vec(contents),
    }
}


proof fn lemma_encode_concat(a: Seq<char>, b: Seq<char>)
    ensures
        encode_utf8(a + b) == encode_utf8(a) + encode_utf8(b),
    decreases a.len(),
{
    if a.len() > 0 {
        lemma_encode_concat(a.drop_first(), b);
        assert((a + b).drop_first() =~= a.drop_first() + b);
        assert((a + b)[0] == a[0]);
    } else {
        assert(a + b =~= b);
    }
}

/// A file whose contents are valid UTF-8 is sent as a space, the status head, the
/// file's bytes unchanged, and a space.
pub proof fn lemma_text_file_sent_unchanged(contents: Seq<u8>)
    requires
        valid_utf8(contents),
    ensures
        file_message(contents) == encode_utf8(seq![' '] + status_head()) + contents + seq![0x20u8],
{
    let d = decode_utf8(contents);
    let head = seq![' '] + status_head();
    lemma_encode_concat(head + d, seq![' ']);
    lemma_encode_concat(head, d);
    vstd::utf8::decode_utf8_encode_utf8(contents);
    assert(seq![' '] + status_head() + d + seq![' '] =~= (head + d) + seq![' ']);
    assert(encode_utf8(seq![' ']) =~= seq![0x20u8]) by {
        reveal_with_fuel(encode_utf8, 2);
        assert(seq![' '].drop_first() =~= Seq::<char>::empty());
        assert(((0x20u32 & 0x7Fu32) as u8) == 0x20u8) by (bit_vector);
        assert((' ' as u32) == 0x20u32);
    }
}

/// The file that rendering sends lies in the view directory and ends in `.html`.
pub proof fn lemma_view_file_is_html(view_directory: Seq<char>, filename: Seq<char>)
    ensures
        starts_with(view_file(view_directory, filename), view_directory),
        ends_with(view_file(view_directory, filename), html_ext()),
{
    let v = view_file(view_directory, filename);
    assert(v.subrange(0, view_directory.len() as int) =~= view_directory);
    if ends_with(filename, html_ext()) {
        assert(v.subrange(v.len() - 5, v.len() as int) =~= filename.subrange(
            filename.len() - 5,
            filename.len() as int,
        ));
    } else {
        assert(v.subrange(v.len() - 5, v.len() as int) =~= html_ext());
    }
}

/// The rendered file is the view directory, then a `/` unless the name begins with
/// one, then the name, then `.html` unless the name ends so: nothing else is added
/// and nothing is left out.
pub proof fn lemma_view_file_layout(d: Seq<char>, f: Seq<char>)
    ensures
        ({
            let v = view_file(d, f);
            let lead = f.len() > 0 && f[0] == '/';
            let html = f.len() >= 5 && f.subrange(f.len() - 5, f.len() as int) == seq!['.', 'h', 't', 'm', 'l'];
            let k = d.len() + (if lead { 0int } else { 1int });
            &&& v.len() == k + f.len() + (if html { 0int } else { 5int })
            &&& v.subrange(0, d.len() as int) == d
            &&& !lead ==> v[d.len() as int] == '/'
            &&& v.subrange(k, k + f.len()) == f
            &&& v.subrange(v.len() - 5, v.len() as int) == seq!['.', 'h', 't', 'm', 'l']
        }),
{
    let v = view_file(d, f);
    let lead = f.len() > 0 && f[0] == '/';
    assert(starts_with(f, slash()) == lead) by {
        if f.len() > 0 {
            assert(f.subrange(0, 1)[0] == f[0]);
            if f[0] == '/' {
                assert(f.subrange(0, 1) =~= slash());
            }
        }
    }
    lemma_view_file_is_html(d, f);
    let k = d.len() + (if lead { 0int } else { 1int });
    assert(v.subrange(0, d.len() as int) =~= d);
    assert(v.subrange(k, k + f.len()) =~= f);
}

} // verus!
