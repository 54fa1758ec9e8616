use vstd::prelude::*;

use crate::config::{Config, RouteConfig, ServerConfig};
use crate::http::{
    bytes_eq, dec_digits, headers_view, insert_header, key_content_length, lookup, lookup_vec,
    tok_delete, tok_get, tok_post, Method, MethodV, Request, RequestV, Response, ResponseV,
};

verus! {

// ---------------------------------------------------------------------------
// Byte-string constants the router compares against and emits
// ---------------------------------------------------------------------------

/// The bytes of `"host"`.
pub open spec fn key_host() -> Seq<u8> {
    seq![104u8, 111u8, 115u8, 116u8]
}

/// The bytes of `"host"`, as a vector.
pub fn make_key_host() -> (r: Vec<u8>)
    ensures
        r@ == key_host(),
{
    let a: [u8; 4] = [104u8, 111u8, 115u8, 116u8];
    let v = vstd::slice::slice_to_vec(a.as_slice());
    proof {
        assert(v@ =~= key_host());
    }
    v
}

/// The bytes of `"x-filename"`.
pub open spec fn key_x_filename() -> Seq<u8> {
    seq![120u8, 45u8, 102u8, 105u8, 108u8, 101u8, 110u8, 97u8, 109u8, 101u8]
}

/// The bytes of `"x-filename"`, as a vector.
pub fn make_key_x_filename() -> (r: Vec<u8>)
    ensures
        r@ == key_x_filename(),
{
    let a: [u8; 10] = [120u8, 45u8, 102u8, 105u8, 108u8, 101u8, 110u8, 97u8, 109u8, 101u8];
    let v = vstd::slice::slice_to_vec(a.as_slice());
    proof {
        assert(v@ =~= key_x_filename());
    }
    v
}

/// The bytes of `"location"`.
pub open spec fn key_location() -> Seq<u8> {
    seq![108u8, 111u8, 99u8, 97u8, 116u8, 105u8, 111u8, 110u8]
}

/// The bytes of `"location"`, as a vector.
pub fn make_key_location() -> (r: Vec<u8>)
    ensures
        r@ == key_location(),
{
    let a: [u8; 8] = [108u8, 111u8, 99u8, 97u8, 116u8, 105u8, 111u8, 110u8];
    let v = vstd::slice::slice_to_vec(a.as_slice());
    proof {
        assert(v@ =~= key_location());
    }
    v
}

/// The bytes of `"content-type"`.
pub open spec fn key_content_type() -> Seq<u8> {
    seq![99u8, 111u8, 110u8, 116u8, 101u8, 110u8, 116u8, 45u8, 116u8, 121u8, 112u8, 101u8]
}

/// The bytes of `"content-type"`, as a vector.
pub fn make_key_content_type() -> (r: Vec<u8>)
    ensures
        r@ == key_content_type(),
{
    let a: [u8; 12] = [99u8, 111u8, 110u8, 116u8, 101u8, 110u8, 116u8, 45u8, 116u8, 121u8, 112u8, 101u8];
    let v = vstd::slice::slice_to_vec(a.as_slice());
    proof {
        assert(v@ =~= key_content_type());
    }
    v
}

/// The bytes of `"uploaded_file"`.
pub open spec fn default_upload_name() -> Seq<u8> {
    seq![117u8, 112u8, 108u8, 111u8, 97u8, 100u8, 101u8, 100u8, 95u8, 102u8, 105u8, 108u8, 101u8]
}

/// The bytes of `"uploaded_file"`, as a vector.
pub fn make_default_upload_name() -> (r: Vec<u8>)
    ensures
        r@ == default_upload_name(),
{
    let a: [u8; 13] = [117u8, 112u8, 108u8, 111u8, 97u8, 100u8, 101u8, 100u8, 95u8, 102u8, 105u8, 108u8, 101u8];
    let v = vstd::slice::slice_to_vec(a.as_slice());
    proof {
        assert(v@ =~= default_upload_name());
    }
    v
}

/// The bytes of `"REQUEST_METHOD"`.
pub open spec fn env_request_method() -> Seq<u8> {
    seq![82u8, 69u8, 81u8, 85u8, 69u8, 83u8, 84u8, 95u8, 77u8, 69u8, 84u8, 72u8, 79u8, 68u8]
}

/// The bytes of `"REQUEST_METHOD"`, as a vector.
pub fn make_env_request_method() -> (r: Vec<u8>)
    ensures
        r@ == env_request_method(),
{
    let a: [u8; 14] = [82u8, 69u8, 81u8, 85u8, 69u8, 83u8, 84u8, 95u8, 77u8, 69u8, 84u8, 72u8, 79u8, 68u8];
    let v = vstd::slice::slice_to_vec(a.as_slice());
    proof {
        assert(v@ =~= env_request_method());
    }
    v
}

/// The bytes of `"PATH_INFO"`.
pub open spec fn env_path_info() -> Seq<u8> {
    seq![80u8, 65u8, 84u8, 72u8, 95u8, 73u8, 78u8, 70u8, 79u8]
}

/// The bytes of `"PATH_INFO"`, as a vector.
pub fn make_env_path_info() -> (r: Vec<u8>)
    ensures
        r@ == env_path_info(),
{
    let a: [u8; 9] = [80u8, 65u8, 84u8, 72u8, 95u8, 73u8, 78u8, 70u8, 79u8];
    let v = vstd::slice::slice_to_vec(a.as_slice());
    proof {
        assert(v@ =~= env_path_info());
    }
    v
}

/// The bytes of `"CONTENT_LENGTH"`.
pub open spec fn env_content_length() -> Seq<u8> {
    seq![67u8, 79u8, 78u8, 84u8, 69u8, 78u8, 84u8, 95u8, 76u8, 69u8, 78u8, 71u8, 84u8, 72u8]
}

/// The bytes of `"CONTENT_LENGTH"`, as a vector.
pub fn make_env_content_length() -> (r: Vec<u8>)
    ensures
        r@ == env_content_length(),
{
    let a: [u8; 14] = [67u8, 79u8, 78u8, 84u8, 69u8, 78u8, 84u8, 95u8, 76u8, 69u8, 78u8, 71u8, 84u8, 72u8];
    let v = vstd::slice::slice_to_vec(a.as_slice());
    proof {
        assert(v@ =~= env_content_length());
    }
    v
}

/// The bytes of `"text/html"`.
pub open spec fn mime_html() -> Seq<u8> {
    seq![116u8, 101u8, 120u8, 116u8, 47u8, 104u8, 116u8, 109u8, 108u8]
}

/// The bytes of `"text/html"`, as a vector.
pub fn make_mime_html() -> (r: Vec<u8>)
    ensures
        r@ == mime_html(),
{
    let a: [u8; 9] = [116u8, 101u8, 120u8, 116u8, 47u8, 104u8, 116u8, 109u8, 108u8];
    let v = vstd::slice::slice_to_vec(a.as_slice());
    proof {
        assert(v@ =~= mime_html());
    }
    v
}

/// The bytes of `"text/css"`.
pub open spec fn mime_css() -> Seq<u8> {
    seq![116u8, 101u8, 120u8, 116u8, 47u8, 99u8, 115u8, 115u8]
}

/// The bytes of `"text/css"`, as a vector.
pub fn make_mime_css() -> (r: Vec<u8>)
    ensures
        r@ == mime_css(),
{
    let a: [u8; 8] = [116u8, 101u8, 120u8, 116u8, 47u8, 99u8, 115u8, 115u8];
    let v = vstd::slice::slice_to_vec(a.as_slice());
    proof {
        assert(v@ =~= mime_css());
    }
    v
}

/// The bytes of `"application/javascript"`.
pub open spec fn mime_js() -> Seq<u8> {
    seq![97u8, 112u8, 112u8, 108u8, 105u8, 99u8, 97u8, 116u8, 105u8, 111u8, 110u8, 47u8, 106u8, 97u8, 118u8, 97u8, 115u8, 99u8, 114u8, 105u8, 112u8, 116u8]
}

/// The bytes of `"application/javascript"`, as a vector.
pub fn make_mime_js() -> (r: Vec<u8>)
    ensures
        r@ == mime_js(),
{
    let a: [u8; 22] = [97u8, 112u8, 112u8, 108u8, 105u8, 99u8, 97u8, 116u8, 105u8, 111u8, 110u8, 47u8, 106u8, 97u8, 118u8, 97u8, 115u8, 99u8, 114u8, 105u8, 112u8, 116u8];
    let v = vstd::slice::slice_to_vec(a.as_slice());
    proof {
        assert(v@ =~= mime_js());
    }
    v
}

/// The bytes of `"image/png"`.
pub open spec fn mime_png() -> Seq<u8> {
    seq![105u8, 109u8, 97u8, 103u8, 101u8, 47u8, 112u8, 110u8, 103u8]
}

/// The bytes of `"image/png"`, as a vector.
pub fn make_mime_png() -> (r: Vec<u8>)
    ensures
        r@ == mime_png(),
{
    let a: [u8; 9] = [105u8, 109u8, 97u8, 103u8, 101u8, 47u8, 112u8, 110u8, 103u8];
    let v = vstd::slice::slice_to_vec(a.as_slice());
    proof {
        assert(v@ =~= mime_png());
    }
    v
}

/// The bytes of `"application/octet-stream"`.
pub open spec fn mime_octet() -> Seq<u8> {
    seq![97u8, 112u8, 112u8, 108u8, 105u8, 99u8, 97u8, 116u8, 105u8, 111u8, 110u8, 47u8, 111u8, 99u8, 116u8, 101u8, 116u8, 45u8, 115u8, 116u8, 114u8, 101u8, 97u8, 109u8]
}

/// The bytes of `"application/octet-stream"`, as a vector.
pub fn make_mime_octet() -> (r: Vec<u8>)
    ensures
        r@ == mime_octet(),
{
    let a: [u8; 24] = [97u8, 112u8, 112u8, 108u8, 105u8, 99u8, 97u8, 116u8, 105u8, 111u8, 110u8, 47u8, 111u8, 99u8, 116u8, 101u8, 116u8, 45u8, 115u8, 116u8, 114u8, 101u8, 97u8, 109u8];
    let v = vstd::slice::slice_to_vec(a.as_slice());
    proof {
        assert(v@ =~= mime_octet());
    }
    v
}

/// The bytes of `".html"`.
pub open spec fn ext_html() -> Seq<u8> {
    seq![46u8, 104u8, 116u8, 109u8, 108u8]
}

/// The bytes of `".html"`, as a vector.
pub fn make_ext_html() -> (r: Vec<u8>)
    ensures
        r@ == ext_html(),
{
    let a: [u8; 5] = [46u8, 104u8, 116u8, 109u8, 108u8];
    let v = vstd::slice::slice_to_vec(a.as_slice());
    proof {
        assert(v@ =~= ext_html());
    }
    v
}

/// The bytes of `".css"`.
pub open spec fn ext_css() -> Seq<u8> {
    seq![46u8, 99u8, 115u8, 115u8]
}

/// The bytes of `".css"`, as a vector.
pub fn make_ext_css() -> (r: Vec<u8>)
    ensures
        r@ == ext_css(),
{
    let a: [u8; 4] = [46u8, 99u8, 115u8, 115u8];
    let v = vstd::slice::slice_to_vec(a.as_slice());
    proof {
        assert(v@ =~= ext_css());
    }
    v
}

/// The bytes of `".js"`.
pub open spec fn ext_js() -> Seq<u8> {
    seq![46u8, 106u8, 115u8]
}

/// The bytes of `".js"`, as a vector.
pub fn make_ext_js() -> (r: Vec<u8>)
    ensures
        r@ == ext_js(),
{
    let a: [u8; 3] = [46u8, 106u8, 115u8];
    let v = vstd::slice::slice_to_vec(a.as_slice());
    proof {
        assert(v@ =~= ext_js());
    }
    v
}

/// The bytes of `".png"`.
pub open spec fn ext_png() -> Seq<u8> {
    seq![46u8, 112u8, 110u8, 103u8]
}

/// The bytes of `".png"`, as a vector.
pub fn make_ext_png() -> (r: Vec<u8>)
    ensures
        r@ == ext_png(),
{
    let a: [u8; 4] = [46u8, 112u8, 110u8, 103u8];
    let v = vstd::slice::slice_to_vec(a.as_slice());
    proof {
        assert(v@ =~= ext_png());
    }
    v
}

/// The bytes of `"File uploaded successfully"`.
pub open spec fn body_upload_ok() -> Seq<u8> {
    seq![70u8, 105u8, 108u8, 101u8, 32u8, 117u8, 112u8, 108u8, 111u8, 97u8, 100u8, 101u8, 100u8, 32u8, 115u8, 117u8, 99u8, 99u8, 101u8, 115u8, 115u8, 102u8, 117u8, 108u8, 108u8, 121u8]
}

/// The bytes of `"File uploaded successfully"`, as a vector.
pub fn make_body_upload_ok() -> (r: Vec<u8>)
    ensures
        r@ == body_upload_ok(),
{
    let a: [u8; 26] = [70u8, 105u8, 108u8, 101u8, 32u8, 117u8, 112u8, 108u8, 111u8, 97u8, 100u8, 101u8, 100u8, 32u8, 115u8, 117u8, 99u8, 99u8, 101u8, 115u8, 115u8, 102u8, 117u8, 108u8, 108u8, 121u8];
    let v = vstd::slice::slice_to_vec(a.as_slice());
    proof {
        assert(v@ =~= body_upload_ok());
    }
    v
}

/// The bytes of `"CGI Error: "`.
pub open spec fn body_cgi_err() -> Seq<u8> {
    seq![67u8, 71u8, 73u8, 32u8, 69u8, 114u8, 114u8, 111u8, 114u8, 58u8, 32u8]
}

/// The bytes of `"CGI Error: "`, as a vector.
pub fn make_body_cgi_err() -> (r: Vec<u8>)
    ensures
        r@ == body_cgi_err(),
{
    let a: [u8; 11] = [67u8, 71u8, 73u8, 32u8, 69u8, 114u8, 114u8, 111u8, 114u8, 58u8, 32u8];
    let v = vstd::slice::slice_to_vec(a.as_slice());
    proof {
        assert(v@ =~= body_cgi_err());
    }
    v
}

/// The bytes of `"Upload Error: "`.
pub open spec fn body_upload_err() -> Seq<u8> {
    seq![85u8, 112u8, 108u8, 111u8, 97u8, 100u8, 32u8, 69u8, 114u8, 114u8, 111u8, 114u8, 58u8, 32u8]
}

/// The bytes of `"Upload Error: "`, as a vector.
pub fn make_body_upload_err() -> (r: Vec<u8>)
    ensures
        r@ == body_upload_err(),
{
    let a: [u8; 14] = [85u8, 112u8, 108u8, 111u8, 97u8, 100u8, 32u8, 69u8, 114u8, 114u8, 111u8, 114u8, 58u8, 32u8];
    let v = vstd::slice::slice_to_vec(a.as_slice());
    proof {
        assert(v@ =~= body_upload_err());
    }
    v
}

/// The bytes of `"<h1>"`.
pub open spec fn err_body_open() -> Seq<u8> {
    seq![60u8, 104u8, 49u8, 62u8]
}

/// The bytes of `"<h1>"`, as a vector.
pub fn make_err_body_open() -> (r: Vec<u8>)
    ensures
        r@ == err_body_open(),
{
    let a: [u8; 4] = [60u8, 104u8, 49u8, 62u8];
    let v = vstd::slice::slice_to_vec(a.as_slice());
    proof {
        assert(v@ =~= err_body_open());
    }
    v
}

/// The bytes of `" Error</h1>"`.
pub open spec fn err_body_close() -> Seq<u8> {
    seq![32u8, 69u8, 114u8, 114u8, 111u8, 114u8, 60u8, 47u8, 104u8, 49u8, 62u8]
}

/// The bytes of `" Error</h1>"`, as a vector.
pub fn make_err_body_close() -> (r: Vec<u8>)
    ensures
        r@ == err_body_close(),
{
    let a: [u8; 11] = [32u8, 69u8, 114u8, 114u8, 111u8, 114u8, 60u8, 47u8, 104u8, 49u8, 62u8];
    let v = vstd::slice::slice_to_vec(a.as_slice());
    proof {
        assert(v@ =~= err_body_close());
    }
    v
}

/// The bytes of `"<html><body><ul>"`.
pub open spec fn list_open() -> Seq<u8> {
    seq![60u8, 104u8, 116u8, 109u8, 108u8, 62u8, 60u8, 98u8, 111u8, 100u8, 121u8, 62u8, 60u8, 117u8, 108u8, 62u8]
}

/// The bytes of `"<html><body><ul>"`, as a vector.
pub fn make_list_open() -> (r: Vec<u8>)
    ensures
        r@ == list_open(),
{
    let a: [u8; 16] = [60u8, 104u8, 116u8, 109u8, 108u8, 62u8, 60u8, 98u8, 111u8, 100u8, 121u8, 62u8, 60u8, 117u8, 108u8, 62u8];
    let v = vstd::slice::slice_to_vec(a.as_slice());
    proof {
        assert(v@ =~= list_open());
    }
    v
}

/// The bytes of `"<li><a href=\""`.
pub open spec fn list_item_open() -> Seq<u8> {
    seq![60u8, 108u8, 105u8, 62u8, 60u8, 97u8, 32u8, 104u8, 114u8, 101u8, 102u8, 61u8, 34u8]
}

/// The bytes of `"<li><a href=\""`, as a vector.
pub fn make_list_item_open() -> (r: Vec<u8>)
    ensures
        r@ == list_item_open(),
{
    let a: [u8; 13] = [60u8, 108u8, 105u8, 62u8, 60u8, 97u8, 32u8, 104u8, 114u8, 101u8, 102u8, 61u8, 34u8];
    let v = vstd::slice::slice_to_vec(a.as_slice());
    proof {
        assert(v@ =~= list_item_open());
    }
    v
}

/// The bytes of `"\">"`.
pub open spec fn list_item_mid() -> Seq<u8> {
    seq![34u8, 62u8]
}

/// The bytes of `"\">"`, as a vector.
pub fn make_list_item_mid() -> (r: Vec<u8>)
    ensures
        r@ == list_item_mid(),
{
    let a: [u8; 2] = [34u8, 62u8];
    let v = vstd::slice::slice_to_vec(a.as_slice());
    proof {
        assert(v@ =~= list_item_mid());
    }
    v
}

/// The bytes of `"</a></li>"`.
pub open spec fn list_item_close() -> Seq<u8> {
    seq![60u8, 47u8, 97u8, 62u8, 60u8, 47u8, 108u8, 105u8, 62u8]
}

/// The bytes of `"</a></li>"`, as a vector.
pub fn make_list_item_close() -> (r: Vec<u8>)
    ensures
        r@ == list_item_close(),
{
    let a: [u8; 9] = [60u8, 47u8, 97u8, 62u8, 60u8, 47u8, 108u8, 105u8, 62u8];
    let v = vstd::slice::slice_to_vec(a.as_slice());
    proof {
        assert(v@ =~= list_item_close());
    }
    v
}

/// The bytes of `"</ul></body></html>"`.
pub open spec fn list_close() -> Seq<u8> {
    seq![60u8, 47u8, 117u8, 108u8, 62u8, 60u8, 47u8, 98u8, 111u8, 100u8, 121u8, 62u8, 60u8, 47u8, 104u8, 116u8, 109u8, 108u8, 62u8]
}

/// The bytes of `"</ul></body></html>"`, as a vector.
pub fn make_list_close() -> (r: Vec<u8>)
    ensures
        r@ == list_close(),
{
    let a: [u8; 19] = [60u8, 47u8, 117u8, 108u8, 62u8, 60u8, 47u8, 98u8, 111u8, 100u8, 121u8, 62u8, 60u8, 47u8, 104u8, 116u8, 109u8, 108u8, 62u8];
    let v = vstd::slice::slice_to_vec(a.as_slice());
    proof {
        assert(v@ =~= list_close());
    }
    v
}

// ---------------------------------------------------------------------------
// Small byte-sequence relations and their executable checks
// ---------------------------------------------------------------------------

/// `p` is a prefix of `s`.
pub open spec fn is_prefix_of(p: Seq<u8>, s: Seq<u8>) -> bool {
    p.len() <= s.len() && s.take(p.len() as int) == p
}

/// `sfx` is a suffix of `s`.
pub open spec fn is_suffix_of(sfx: Seq<u8>, s: Seq<u8>) -> bool {
    sfx.len() <= s.len() && s.skip(s.len() - sfx.len()) == sfx
}

/// `n` occurs contiguously somewhere in `s`.
pub open spec fn is_substring_of(n: Seq<u8>, s: Seq<u8>) -> bool {
    exists|off: int|
        0 <= off && off + n.len() <= s.len() && (#[trigger] s.subrange(off, off + n.len())) == n
}

/// Copy a byte vector.
pub fn copy_vec(v: &Vec<u8>) -> (r: Vec<u8>)
    ensures
        r@ == v@,
{
    let mut r: Vec<u8> = Vec::new();
    let mut i: usize = 0;
    while i < v.len()
        invariant
            0 <= i <= v.len(),
            r@ == v@.take(i as int),
        decreases v.len() - i,
    {
        r.push(v[i]);
        proof {
            assert(v@.take(i as int).push(v@[i as int]) =~= v@.take(i + 1));
        }
        i += 1;
    }
    proof {
        assert(v@.take(v.len() as int) =~= v@);
    }
    r
}

/// Whether `s` starts with `p`.
pub fn starts_with_bytes(s: &Vec<u8>, p: &Vec<u8>) -> (r: bool)
    ensures
        r == is_prefix_of(p@, s@),
{
    if p.len() > s.len() {
        return false;
    }
    let mut i: usize = 0;
    while i < p.len()
        invariant
            0 <= i <= p.len() <= s.len(),
            forall|j: int| 0 <= j < i ==> s@[j] == p@[j],
        decreases p.len() - i,
    {
        if s[i] != p[i] {
            proof {
                assert(s@.take(p@.len() as int)[i as int] != p@[i as int]);
            }
            return false;
        }
        i += 1;
    }
    proof {
        assert(s@.take(p@.len() as int) =~= p@);
    }
    true
}

/// Whether `s` ends with `sfx`.
pub fn ends_with_bytes(s: &Vec<u8>, sfx: &Vec<u8>) -> (r: bool)
    ensures
        r == is_suffix_of(sfx@, s@),
{
    if sfx.len() > s.len() {
        return false;
    }
    let base = s.len() - sfx.len();
    let mut i: usize = 0;
    while i < sfx.len()
        invariant
            0 <= i <= sfx.len() <= s.len(),
            base == s.len() - sfx.len(),
            forall|j: int| 0 <= j < i ==> s@[base + j] == sfx@[j],
        decreases sfx.len() - i,
    {
        if s[base + i] != sfx[i] {
            proof {
                assert(s@.skip(s@.len() - sfx@.len())[i as int] != sfx@[i as int]);
            }
            return false;
        }
        i += 1;
    }
    proof {
        assert(s@.skip(s@.len() - sfx@.len()) =~= sfx@);
    }
    true
}

/// Whether `hay` contains `needle` as a contiguous substring.
pub fn contains_bytes(hay: &Vec<u8>, needle: &Vec<u8>) -> (r: bool)
    ensures
        r == is_substring_of(needle@, hay@),
{
    if needle.len() > hay.len() {
        return false;
    }
    if needle.len() == 0 {
        proof {
            assert(hay@.subrange(0, 0 + needle@.len() as int) =~= needle@);
        }
        return true;
    }
    let limit = hay.len() - needle.len();
    let mut off: usize = 0;
    while off <= limit
        invariant
            1 <= needle.len() <= hay.len(),
            limit == hay.len() - needle.len(),
            0 <= off <= limit + 1,
            forall|o: int|
                0 <= o < off ==> (#[trigger] hay@.subrange(o, o + needle@.len())) != needle@,
        decreases limit + 1 - off,
    {
        let piece = crate::http::subvec(hay, off, off + needle.len());
        if bytes_eq(&piece, needle) {
            proof {
                assert(hay@.subrange(off as int, off + needle@.len()) == needle@);
            }
            return true;
        }
        off += 1;
    }
    proof {
        assert forall|o: int| !(0 <= o && o + needle@.len() <= hay@.len() && (
        #[trigger] hay@.subrange(o, o + needle@.len())) == needle@) by {
            if 0 <= o && o + needle@.len() <= hay@.len() {
                assert(hay@.subrange(o, o + needle@.len()) != needle@);
            }
        }
    }
    false
}

/// Index of the last occurrence of `c` in `s`, or -1 when absent.
pub open spec fn find_last_byte(s: Seq<u8>, c: u8) -> int
    decreases s.len(),
{
    if s.len() == 0 {
        -1
    } else if s.last() == c {
        s.len() - 1
    } else {
        find_last_byte(s.drop_last(), c)
    }
}

proof fn lemma_find_last_byte(s: Seq<u8>, c: u8)
    ensures
        -1 <= find_last_byte(s, c) < s.len(),
        find_last_byte(s, c) >= 0 ==> s[find_last_byte(s, c)] == c && (forall|j: int|
            find_last_byte(s, c) < j < s.len() ==> s[j] != c),
        find_last_byte(s, c) == -1 ==> forall|j: int| 0 <= j < s.len() ==> s[j] != c,
    decreases s.len(),
{
    if s.len() == 0 {
    } else if s.last() == c {
    } else {
        lemma_find_last_byte(s.drop_last(), c);
        assert(forall|j: int| 0 <= j < s.len() - 1 ==> s.drop_last()[j] == s[j]);
    }
}

/// Find the last occurrence of `c` in `v`.
fn scan_last_byte(v: &Vec<u8>, c: u8) -> (r: Option<usize>)
    ensures
        match r {
            Some(i) => find_last_byte(v@, c) == i && i < v.len(),
            None => find_last_byte(v@, c) == -1,
        },
{
    let mut i: usize = v.len();
    while i > 0
        invariant
            0 <= i <= v.len(),
            forall|j: int| i <= j < v.len() ==> v@[j] != c,
        decreases i,
    {
        i -= 1;
        if v[i] == c {
            proof {
                lemma_find_last_byte(v@, c);
                let f = find_last_byte(v@, c);
                if f == -1 {
                    assert(v@[i as int] != c);
                }
                if f > i {
                    assert(v@[f] != c);
                }
                if 0 <= f < i {
                    assert(v@[i as int] != c);
                }
            }
            return Some(i);
        }
    }
    proof {
        lemma_find_last_byte(v@, c);
        let f = find_last_byte(v@, c);
        if f >= 0 {
            assert(v@[f] != c);
        }
    }
    None
}

// ---------------------------------------------------------------------------
// Path arithmetic: the relative part under a route prefix, joined to a root
// ---------------------------------------------------------------------------

/// Drop leading `/` bytes.
pub open spec fn trim_slashes(s: Seq<u8>) -> Seq<u8>
    decreases s.len(),
{
    if s.len() > 0 && s[0] == 47 {
        trim_slashes(s.skip(1))
    } else {
        s
    }
}

/// The part of `target` under the route prefix `route_path`, with leading
/// slashes removed; the whole target when the prefix does not apply.
pub open spec fn rel_path(route_path: Seq<u8>, target: Seq<u8>) -> Seq<u8> {
    if is_prefix_of(route_path, target) {
        trim_slashes(target.skip(route_path.len() as int))
    } else {
        trim_slashes(target)
    }
}

/// `root/rel`, or just `root` when `rel` is empty.
pub open spec fn join_path(root: Seq<u8>, rel: Seq<u8>) -> Seq<u8> {
    if rel.len() == 0 {
        root
    } else {
        root + seq![47u8] + rel
    }
}

/// The route's root, or `"."` when it has none.
pub open spec fn route_root(route: RouteConfig) -> Seq<u8> {
    match route.root {
        Some(r) => r@,
        None => seq![46u8],
    }
}

/// The final dot-suffix of `s` (including the dot), if any.
pub open spec fn dot_suffix(s: Seq<u8>) -> Option<Seq<u8>> {
    let i = find_last_byte(s, 46);
    if i >= 0 {
        Some(s.skip(i))
    } else {
        None::<Seq<u8>>
    }
}

/// Compute `rel_path` of the target under a route prefix.
fn rel_path_vec(route_path: &Vec<u8>, target: &Vec<u8>) -> (r: Vec<u8>)
    ensures
        r@ == rel_path(route_path@, target@),
{
    let base = if starts_with_bytes(target, route_path) {
        crate::http::subvec(target, route_path.len(), target.len())
    } else {
        copy_vec(target)
    };
    proof {
        if is_prefix_of(route_path@, target@) {
            assert(base@ =~= target@.skip(route_path@.len() as int));
        }
    }
    let mut a: usize = 0;
    proof {
        assert(base@.skip(0) =~= base@);
    }
    while a < base.len() && base[a] == 47
        invariant
            0 <= a <= base.len(),
            trim_slashes(base@) == trim_slashes(base@.skip(a as int)),
        decreases base.len() - a,
    {
        proof {
            assert(base@.skip(a as int)[0] == base@[a as int]);
            assert(base@.skip(a as int).skip(1) =~= base@.skip(a + 1));
        }
        a += 1;
    }
    proof {
        assert(trim_slashes(base@) == base@.skip(a as int));
    }
    crate::http::subvec(&base, a, base.len())
}

/// Join a root and a relative path with a single separator.
fn join_path_vec(root: &Vec<u8>, rel: &Vec<u8>) -> (r: Vec<u8>)
    ensures
        r@ == join_path(root@, rel@),
{
    let mut r = copy_vec(root);
    if rel.len() > 0 {
        r.push(47u8);
        crate::http::append_bytes(&mut r, rel.as_slice());
        proof {
            assert(r@ =~= join_path(root@, rel@));
        }
    }
    r
}

/// The route's root as a vector, `"."` when absent.
fn route_root_vec(route: &RouteConfig) -> (r: Vec<u8>)
    ensures
        r@ == route_root(*route),
{
    match &route.root {
        Some(v) => copy_vec(v),
        None => {
            let mut r: Vec<u8> = Vec::new();
            r.push(46u8);
            proof {
                assert(r@ =~= seq![46u8]);
            }
            r
        },
    }
}

// ---------------------------------------------------------------------------
// Virtual-host and route selection
// ---------------------------------------------------------------------------

/// A server answers to `host` when it declares no names at all, or one of
/// its names occurs in the `host` header value.
pub open spec fn server_matches(s: ServerConfig, host: Seq<u8>) -> bool {
    match s.server_names {
        None => true,
        Some(names) => exists|k: int|
            0 <= k < names@.len() && is_substring_of((#[trigger] names@[k])@, host),
    }
}

/// The first server from index `i` on that matches `host`; the first
/// server of all is the fallback.
pub open spec fn first_matching_server(servers: Seq<ServerConfig>, host: Seq<u8>, i: int) -> int
    decreases servers.len() - i,
{
    if i < 0 || i >= servers.len() {
        0
    } else if server_matches(servers[i], host) {
        i
    } else {
        first_matching_server(servers, host, i + 1)
    }
}

/// The server that answers requests carrying this `host` header value.
pub open spec fn spec_select_server(servers: Seq<ServerConfig>, host: Seq<u8>) -> int {
    first_matching_server(servers, host, 0)
}

/// The best route among the first `n`: a route whose path prefixes the
/// target, of maximal path length, earliest among equals.
pub open spec fn best_route(routes: Seq<RouteConfig>, path: Seq<u8>, n: int) -> Option<int>
    decreases n,
{
    if n <= 0 {
        None::<int>
    } else {
        let prev = best_route(routes, path, n - 1);
        if is_prefix_of(routes[n - 1].path@, path) {
            match prev {
                None => Some(n - 1),
                Some(i) => if routes[n - 1].path@.len() > routes[i].path@.len() {
                    Some(n - 1)
                } else {
                    Some(i)
                },
            }
        } else {
            prev
        }
    }
}

/// The route serving `path`: longest matching prefix, ties broken by
/// declaration order.
pub open spec fn spec_find_route(routes: Seq<RouteConfig>, path: Seq<u8>) -> Option<int> {
    best_route(routes, path, routes.len() as int)
}

/// Route selection returns a route whose path prefixes the target and
/// whose path length no matching route exceeds; among routes of that
/// length it is the first declared. When no route matches, none is chosen.
pub proof fn lemma_find_route_longest(routes: Seq<RouteConfig>, path: Seq<u8>)
    ensures
        match spec_find_route(routes, path) {
            Some(i) => 0 <= i < routes.len() && is_prefix_of(routes[i].path@, path) && (forall|
                j: int,
            |
                0 <= j < routes.len() && is_prefix_of((#[trigger] routes[j]).path@, path)
                    ==> routes[j].path@.len() <= routes[i].path@.len() && (routes[j].path@.len()
                    == routes[i].path@.len() ==> i <= j)),
            None => forall|j: int|
                0 <= j < routes.len() ==> !is_prefix_of((#[trigger] routes[j]).path@, path),
        },
{
    lemma_best_route(routes, path, routes.len() as int);
}

proof fn lemma_best_route(routes: Seq<RouteConfig>, path: Seq<u8>, n: int)
    requires
        n <= routes.len(),
    ensures
        match best_route(routes, path, n) {
            Some(i) => 0 <= i < n && is_prefix_of(routes[i].path@, path) && (forall|j: int|
                0 <= j < n && is_prefix_of((#[trigger] routes[j]).path@, path)
                    ==> routes[j].path@.len() <= routes[i].path@.len() && (routes[j].path@.len()
                    == routes[i].path@.len() ==> i <= j)),
            None => forall|j: int|
                0 <= j < n ==> !is_prefix_of((#[trigger] routes[j]).path@, path),
        },
    decreases n,
{
    if n > 0 {
        lemma_best_route(routes, path, n - 1);
    }
}

// ---------------------------------------------------------------------------
// Route plans: everything the router decides, with all I/O left to do
// ---------------------------------------------------------------------------

/// What the router decided for one request. Filesystem access, the CGI
/// subprocess, and the error-page file read are the caller's to perform;
/// the verified response builders turn their outcomes into responses.
pub enum RoutePlan {
    /// Answer with this status through the error-page mechanism.
    Reply { status: u16 },
    /// Answer 301 with this location.
    Redirect { location: Vec<u8> },
    /// Run the script at `script_path` with `interpreter`, passing `env`
    /// and the request body on stdin.
    Cgi { script_path: Vec<u8>, interpreter: Vec<u8>, env: Vec<(Vec<u8>, Vec<u8>)> },
    /// Write the request body to `file_path`.
    Upload { file_path: Vec<u8> },
    /// Remove the file at `file_path`.
    Delete { file_path: Vec<u8> },
    /// Serve the file at `fs_path`; in a directory use `index`, or list
    /// the entries when `autoindex`.
    Static { fs_path: Vec<u8>, index: Option<Vec<u8>>, autoindex: bool },
}

#[verifier::ext_equal]
pub ghost enum RoutePlanV {
    Reply { status: u16 },
    Redirect { location: Seq<u8> },
    Cgi { script_path: Seq<u8>, interpreter: Seq<u8>, env: Seq<(Seq<u8>, Seq<u8>)> },
    Upload { file_path: Seq<u8> },
    Delete { file_path: Seq<u8> },
    Static { fs_path: Seq<u8>, index: Option<Seq<u8>>, autoindex: bool },
}

impl View for RoutePlan {
    type V = RoutePlanV;

    open spec fn view(&self) -> RoutePlanV {
        match self {
            RoutePlan::Reply { status } => RoutePlanV::Reply { status: *status },
            RoutePlan::Redirect { location } => RoutePlanV::Redirect { location: location@ },
            RoutePlan::Cgi { script_path, interpreter, env } => RoutePlanV::Cgi {
                script_path: script_path@,
                interpreter: interpreter@,
                env: headers_view(env@),
            },
            RoutePlan::Upload { file_path } => RoutePlanV::Upload { file_path: file_path@ },
            RoutePlan::Delete { file_path } => RoutePlanV::Delete { file_path: file_path@ },
            RoutePlan::Static { fs_path, index, autoindex } => RoutePlanV::Static {
                fs_path: fs_path@,
                index: (match index {
                    Some(v) => Some(v@),
                    None => None::<Seq<u8>>,
                }),
                autoindex: *autoindex,
            },
        }
    }
}

/// The canonical wire token of a method.
pub open spec fn method_token(m: MethodV) -> Seq<u8> {
    match m {
        MethodV::GET => tok_get(),
        MethodV::POST => tok_post(),
        MethodV::DELETE => tok_delete(),
        MethodV::OTHER(t) => t,
    }
}

/// A route with a method whitelist admits only the methods on it.
pub open spec fn method_allowed(route: RouteConfig, m: MethodV) -> bool {
    match route.methods {
        None => true,
        Some(ms) => exists|k: int|
            0 <= k < ms@.len() && (#[trigger] ms@[k])@ == method_token(m),
    }
}

/// The CGI environment for a request: REQUEST_METHOD, PATH_INFO, and
/// CONTENT_LENGTH when the request carries that header.
pub open spec fn spec_cgi_env(req: RequestV) -> Seq<(Seq<u8>, Seq<u8>)> {
    let base = seq![
        (env_request_method(), method_token(req.method)),
        (env_path_info(), req.path),
    ];
    match lookup(req.headers, key_content_length()) {
        Some(v) => base + seq![(env_content_length(), v)],
        None => base,
    }
}

/// The interpreter for the target's dot-suffix, when the route maps it.
pub open spec fn cgi_interpreter(route: RouteConfig, path: Seq<u8>) -> Option<Seq<u8>> {
    match route.cgi_extensions {
        Some(m) => match dot_suffix(path) {
            Some(sfx) => lookup(headers_view(m@), sfx),
            None => None::<Seq<u8>>,
        },
        None => None::<Seq<u8>>,
    }
}

/// The upload root: the route's root, or `"static/uploads"` when absent.
pub open spec fn upload_root(route: RouteConfig) -> Seq<u8> {
    match route.root {
        Some(r) => r@,
        None => seq![
            115u8, 116u8, 97u8, 116u8, 105u8, 99u8, 47u8, 117u8, 112u8, 108u8, 111u8, 97u8,
            100u8, 115u8,
        ],
    }
}

/// The filename an upload is stored under: the `x-filename` header, or
/// `"uploaded_file"`.
pub open spec fn upload_name(req: RequestV) -> Seq<u8> {
    match lookup(req.headers, key_x_filename()) {
        Some(v) => v,
        None => default_upload_name(),
    }
}

/// What the router decides once a route is selected: the method gate,
/// then redirect, CGI, upload, deletion, static serving, in that order.
pub open spec fn spec_route_plan(route: RouteConfig, req: RequestV) -> RoutePlanV {
    if !method_allowed(route, req.method) {
        RoutePlanV::Reply { status: 405 }
    } else {
        match route.redirect {
            Some(loc) => RoutePlanV::Redirect { location: loc@ },
            None => if has_dotdot(req.path) {
                RoutePlanV::Reply { status: 403 }
            } else { match cgi_interpreter(route, req.path) {
                Some(interp) => RoutePlanV::Cgi {
                    script_path: join_path(route_root(route), rel_path(route.path@, req.path)),
                    interpreter: interp,
                    env: spec_cgi_env(req),
                },
                None => if req.method is POST && route.allow_uploads == Some(true) {
                    if has_dotdot(upload_name(req)) {
                        RoutePlanV::Reply { status: 403 }
                    } else {
                        RoutePlanV::Upload {
                            file_path: join_path(upload_root(route), upload_name(req)),
                        }
                    }
                } else if req.method is DELETE {
                    RoutePlanV::Delete {
                        file_path: join_path(route_root(route), rel_path(route.path@, req.path)),
                    }
                } else {
                    match route.root {
                        Some(root) => RoutePlanV::Static {
                            fs_path: join_path(root@, rel_path(route.path@, req.path)),
                            index: (match route.index {
                                Some(ix) => Some(ix@),
                                None => None::<Seq<u8>>,
                            }),
                            autoindex: route.autoindex == Some(true),
                        },
                        None => RoutePlanV::Reply { status: 404 },
                    }
                },
            } },
        }
    }
}

/// A `..` path component starts at index `i` of `s`: two dots bounded by
/// separators or the ends of the string.
pub open spec fn dotdot_at(s: Seq<u8>, i: int) -> bool {
    &&& 0 <= i
    &&& i + 1 < s.len()
    &&& s[i] == 46
    &&& s[i + 1] == 46
    &&& (i == 0 || s[i - 1] == 47)
    &&& (i + 2 == s.len() || s[i + 2] == 47)
}

/// The path holds a `..` component somewhere: joined to a root it could
/// escape it, so the router refuses such a target before any filesystem
/// access.
pub open spec fn has_dotdot(s: Seq<u8>) -> bool {
    exists|i: int| dotdot_at(s, i)
}

/// Whether `v` holds a `..` path component.
pub fn has_dotdot_vec(v: &Vec<u8>) -> (r: bool)
    ensures
        r == has_dotdot(v@),
{
    if v.len() < 2 {
        proof {
            if has_dotdot(v@) {
                let w = choose|i: int| dotdot_at(v@, i);
            }
        }
        return false;
    }
    let mut i: usize = 0;
    while i < v.len() - 1
        invariant
            v.len() >= 2,
            0 <= i <= v.len() - 1,
            forall|j: int| 0 <= j < i ==> !dotdot_at(v@, j),
        decreases v.len() - i,
    {
        if v[i] == 46 && v[i + 1] == 46 && (i == 0 || v[i - 1] == 47) && (i + 2 == v.len() || v[i
            + 2] == 47) {
            proof {
                assert(dotdot_at(v@, i as int));
            }
            return true;
        }
        proof {
            assert(!dotdot_at(v@, i as int));
        }
        i += 1;
    }
    proof {
        if has_dotdot(v@) {
            let w = choose|j: int| dotdot_at(v@, j);
            assert(!dotdot_at(v@, w));
        }
    }
    false
}

/// The `host` header value of a request, or empty when absent.
pub open spec fn host_of(req: RequestV) -> Seq<u8> {
    match lookup(req.headers, key_host()) {
        Some(h) => h,
        None => Seq::<u8>::empty(),
    }
}

/// The router's whole decision for a request: which server answers, and
/// what is done for the request under that server's routes.
pub open spec fn spec_handle(servers: Seq<ServerConfig>, req: RequestV) -> (int, RoutePlanV) {
    let si = spec_select_server(servers, host_of(req));
    match spec_find_route(servers[si].routes@, req.path) {
        None => (si, RoutePlanV::Reply { status: 404 }),
        Some(ri) => (si, spec_route_plan(servers[si].routes@[ri], req)),
    }
}

// ---------------------------------------------------------------------------
// The executable router
// ---------------------------------------------------------------------------

/// The canonical wire token of a method, as a vector.
pub fn method_token_vec(m: &Method) -> (r: Vec<u8>)
    ensures
        r@ == method_token(m@),
{
    match m {
        Method::GET => {
            let a: [u8; 3] = [71u8, 69u8, 84u8];
            let v = vstd::slice::slice_to_vec(a.as_slice());
            proof {
                assert(v@ =~= tok_get());
            }
            v
        },
        Method::POST => {
            let a: [u8; 4] = [80u8, 79u8, 83u8, 84u8];
            let v = vstd::slice::slice_to_vec(a.as_slice());
            proof {
                assert(v@ =~= tok_post());
            }
            v
        },
        Method::DELETE => {
            let a: [u8; 6] = [68u8, 69u8, 76u8, 69u8, 84u8, 69u8];
            let v = vstd::slice::slice_to_vec(a.as_slice());
            proof {
                assert(v@ =~= tok_delete());
            }
            v
        },
        Method::OTHER(t) => copy_vec(t),
    }
}

/// Whether the route's method whitelist admits `m`.
fn method_allowed_exec(route: &RouteConfig, m: &Method) -> (r: bool)
    ensures
        r == method_allowed(*route, m@),
{
    match &route.methods {
        None => true,
        Some(ms) => {
            let tok = method_token_vec(m);
            let mut k: usize = 0;
            while k < ms.len()
                invariant
                    0 <= k <= ms.len(),
                    tok@ == method_token(m@),
                    route.methods is Some,
                    ms@ == (route.methods->Some_0)@,
                    forall|j: int| 0 <= j < k ==> (#[trigger] ms@[j])@ != tok@,
                decreases ms.len() - k,
            {
                if bytes_eq(&ms[k], &tok) {
                    proof {
                        assert(0 <= k < ms@.len() && (#[trigger] ms@[k as int])@ == method_token(
                            m@,
                        ));
                    }
                    return true;
                }
                k += 1;
            }
            proof {
                if method_allowed(*route, m@) {
                    let w = choose|j: int|
                        0 <= j < ms@.len() && (#[trigger] ms@[j])@ == method_token(m@);
                    assert(ms@[w]@ != tok@);
                }
            }
            false
        },
    }
}

/// Whether the server answers to this `host` header value.
fn server_matches_exec(s: &ServerConfig, host: &Vec<u8>) -> (r: bool)
    ensures
        r == server_matches(*s, host@),
{
    match &s.server_names {
        None => true,
        Some(names) => {
            let mut k: usize = 0;
            while k < names.len()
                invariant
                    0 <= k <= names.len(),
                    s.server_names is Some,
                    names@ == (s.server_names->Some_0)@,
                    forall|j: int|
                        0 <= j < k ==> !is_substring_of((#[trigger] names@[j])@, host@),
                decreases names.len() - k,
            {
                if contains_bytes(host, &names[k]) {
                    proof {
                        assert(0 <= k < names@.len() && is_substring_of(
                            (#[trigger] names@[k as int])@,
                            host@,
                        ));
                    }
                    return true;
                }
                k += 1;
            }
            proof {
                if server_matches(*s, host@) {
                    let w = choose|j: int|
                        0 <= j < names@.len() && is_substring_of((#[trigger] names@[j])@, host@);
                    assert(!is_substring_of(names@[w]@, host@));
                }
            }
            false
        },
    }
}

/// The interpreter mapped to the target's dot-suffix, if any.
fn cgi_interpreter_exec(route: &RouteConfig, path: &Vec<u8>) -> (r: Option<Vec<u8>>)
    ensures
        match r {
            Some(v) => cgi_interpreter(*route, path@) == Some(v@),
            None => cgi_interpreter(*route, path@) is None,
        },
{
    match &route.cgi_extensions {
        None => None,
        Some(m) => {
            match scan_last_byte(path, 46) {
                None => None,
                Some(i) => {
                    let sfx = crate::http::subvec(path, i, path.len());
                    proof {
                        assert(sfx@ =~= path@.skip(i as int));
                    }
                    match lookup_vec(m, &sfx) {
                        Some(v) => Some(copy_vec(v)),
                        None => None,
                    }
                },
            }
        },
    }
}

/// The upload root as a vector.
fn upload_root_vec(route: &RouteConfig) -> (r: Vec<u8>)
    ensures
        r@ == upload_root(*route),
{
    match &route.root {
        Some(v) => copy_vec(v),
        None => {
            let a: [u8; 14] = [115u8, 116u8, 97u8, 116u8, 105u8, 99u8, 47u8, 117u8, 112u8, 108u8, 111u8, 97u8, 100u8, 115u8];
            let v = vstd::slice::slice_to_vec(a.as_slice());
            proof {
                assert(v@ =~= upload_root(*route));
            }
            v
        },
    }
}

/// The stored filename for an upload.
fn upload_name_vec(request: &Request) -> (r: Vec<u8>)
    ensures
        r@ == upload_name(request@),
{
    let key = make_key_x_filename();
    match lookup_vec(&request.headers, &key) {
        Some(v) => copy_vec(v),
        None => make_default_upload_name(),
    }
}

/// The router: it owns the configuration and decides, for each parsed
/// request, which server answers and what is to be done.
pub struct Router {
    pub config: Config,
}

impl Router {
    pub fn new(config: Config) -> (r: Router)
        ensures
            r.config == config,
    {
        Router { config }
    }

    /// The index of the server answering to `host`: the first whose names
    /// match, the first of all as fallback.
    pub fn select_server(&self, host: &Vec<u8>) -> (i: usize)
        ensures
            i as int == spec_select_server(self.config.servers@, host@),
            self.config.servers@.len() > 0 ==> i < self.config.servers@.len(),
    {
        let n = self.config.servers.len();
        let mut i: usize = 0;
        while i < n
            invariant
                0 <= i <= n,
                n == self.config.servers@.len(),
                first_matching_server(self.config.servers@, host@, 0) == first_matching_server(
                    self.config.servers@,
                    host@,
                    i as int,
                ),
            decreases n - i,
        {
            if server_matches_exec(&self.config.servers[i], host) {
                return i;
            }
            i += 1;
        }
        0
    }

    /// The route serving `path` under `server`: longest matching prefix,
    /// earliest among equals; `None` when no route prefix applies.
    pub fn find_route(&self, server: &ServerConfig, path: &Vec<u8>) -> (r: Option<usize>)
        ensures
            match r {
                Some(i) => i < server.routes@.len() && spec_find_route(server.routes@, path@)
                    == Some(i as int),
                None => spec_find_route(server.routes@, path@) is None,
            },
    {
        let mut best: Option<usize> = None;
        let mut i: usize = 0;
        while i < server.routes.len()
            invariant
                0 <= i <= server.routes@.len(),
                match best {
                    Some(b) => b < i && best_route(server.routes@, path@, i as int) == Some(
                        b as int,
                    ),
                    None => best_route(server.routes@, path@, i as int) is None,
                },
            decreases server.routes@.len() - i,
        {
            if starts_with_bytes(path, &server.routes[i].path) {
                best = match best {
                    Some(b) => if server.routes[i].path.len() > server.routes[b].path.len() {
                        Some(i)
                    } else {
                        Some(b)
                    },
                    None => Some(i),
                };
            }
            i += 1;
        }
        best
    }

    /// The CGI plan for a request: interpreter, script, and the
    /// environment handed to it.
    pub fn handle_cgi(&self, request: &Request, script_path: Vec<u8>, interpreter: Vec<u8>) -> (p:
        RoutePlan)
        ensures
            p@ == (RoutePlanV::Cgi {
                script_path: script_path@,
                interpreter: interpreter@,
                env: spec_cgi_env(request@),
            }),
    {
        let mut env: Vec<(Vec<u8>, Vec<u8>)> = Vec::new();
        env.push((make_env_request_method(), method_token_vec(&request.method)));
        env.push((make_env_path_info(), copy_vec(&request.path)));
        let clk = crate::http::make_key_content_length();
        match lookup_vec(&request.headers, &clk) {
            Some(v) => {
                let vv = copy_vec(v);
                env.push((make_env_content_length(), vv));
            },
            None => {},
        }
        proof {
            assert(headers_view(env@) =~~= spec_cgi_env(request@));
        }
        RoutePlan::Cgi { script_path, interpreter, env }
    }

    /// The decision for a request under an already selected route.
    fn route_plan(&self, route: &RouteConfig, request: &Request) -> (p: RoutePlan)
        ensures
            p@ == spec_route_plan(*route, request@),
    {
        if !method_allowed_exec(route, &request.method) {
            return RoutePlan::Reply { status: 405 };
        }
        match &route.redirect {
            Some(loc) => {
                return RoutePlan::Redirect { location: copy_vec(loc) };
            },
            None => {},
        }
        if has_dotdot_vec(&request.path) {
            return RoutePlan::Reply { status: 403 };
        }
        match cgi_interpreter_exec(route, &request.path) {
            Some(interp) => {
                let root = route_root_vec(route);
                let rel = rel_path_vec(&route.path, &request.path);
                let script = join_path_vec(&root, &rel);
                return self.handle_cgi(request, script, interp);
            },
            None => {},
        }
        let is_post = matches!(&request.method, Method::POST);
        let uploads_on = match &route.allow_uploads {
            Some(b) => *b,
            None => false,
        };
        if is_post && uploads_on {
            let uname = upload_name_vec(request);
            if has_dotdot_vec(&uname) {
                return RoutePlan::Reply { status: 403 };
            }
            let uroot = upload_root_vec(route);
            return RoutePlan::Upload { file_path: join_path_vec(&uroot, &uname) };
        }
        if matches!(&request.method, Method::DELETE) {
            let root = route_root_vec(route);
            let rel = rel_path_vec(&route.path, &request.path);
            return RoutePlan::Delete { file_path: join_path_vec(&root, &rel) };
        }
        match &route.root {
            Some(root) => {
                let rel = rel_path_vec(&route.path, &request.path);
                let fs_path = join_path_vec(root, &rel);
                let index = match &route.index {
                    Some(ix) => Some(copy_vec(ix)),
                    None => None,
                };
                let autoindex = match &route.autoindex {
                    Some(b) => *b,
                    None => false,
                };
                RoutePlan::Static { fs_path, index, autoindex }
            },
            None => RoutePlan::Reply { status: 404 },
        }
    }

    /// The router's whole decision for a request: the answering server's
    /// index, and the plan for the request under its routes.
    pub fn handle(&self, request: &Request) -> (r: (usize, RoutePlan))
        requires
            self.config.servers@.len() > 0,
        ensures
            r.0 as int == spec_handle(self.config.servers@, request@).0,
            r.0 < self.config.servers@.len(),
            r.1@ == spec_handle(self.config.servers@, request@).1,
    {
        let hk = make_key_host();
        let host: Vec<u8> = match lookup_vec(&request.headers, &hk) {
            Some(h) => copy_vec(h),
            None => Vec::new(),
        };
        proof {
            if lookup(request@.headers, key_host()) is None {
                assert(host@ =~= host_of(request@));
            }
        }
        let si = self.select_server(&host);
        let server = &self.config.servers[si];
        match self.find_route(server, &request.path) {
            None => (si, RoutePlan::Reply { status: 404 }),
            Some(ri) => {
                let route = &server.routes[ri];
                let plan = self.route_plan(route, request);
                (si, plan)
            },
        }
    }
}

// ---------------------------------------------------------------------------
// Verified response builders: they take the outcome of the caller's I/O
// and produce the exact response the plan calls for.
// ---------------------------------------------------------------------------

/// The `content-type` for a served file, by its dot-suffix; anything
/// not in the small table is an octet stream.
pub open spec fn content_type_of(path: Seq<u8>) -> Seq<u8> {
    if is_suffix_of(ext_html(), path) {
        mime_html()
    } else if is_suffix_of(ext_css(), path) {
        mime_css()
    } else if is_suffix_of(ext_js(), path) {
        mime_js()
    } else if is_suffix_of(ext_png(), path) {
        mime_png()
    } else {
        mime_octet()
    }
}

/// The `content-type` for a served file, as a vector.
pub fn content_type_vec(path: &Vec<u8>) -> (r: Vec<u8>)
    ensures
        r@ == content_type_of(path@),
{
    let h = make_ext_html();
    if ends_with_bytes(path, &h) {
        return make_mime_html();
    }
    let c = make_ext_css();
    if ends_with_bytes(path, &c) {
        return make_mime_css();
    }
    let j = make_ext_js();
    if ends_with_bytes(path, &j) {
        return make_mime_js();
    }
    let p = make_ext_png();
    if ends_with_bytes(path, &p) {
        return make_mime_png();
    }
    make_mime_octet()
}

/// A 301 response pointing at `location`, with no body.
pub fn redirect_response(location: Vec<u8>) -> (r: Response)
    ensures
        r@.status_code == 301,
        r@.body == Seq::<u8>::empty(),
        r@.headers == insert_header(
            seq![(crate::http::key_server(), crate::http::val_server())],
            key_location(),
            location@,
        ),
{
    let mut res = Response::new(301);
    res.set_header(make_key_location(), location);
    res
}

/// The 200 response for a file read: its content verbatim, typed by the
/// path's dot-suffix, with a matching `content-length`.
pub fn static_success_response(content: Vec<u8>, fs_path: &Vec<u8>) -> (r: Response)
    ensures
        r@.status_code == 200,
        r@.body == content@,
        r@.headers == insert_header(
            insert_header(
                seq![(crate::http::key_server(), crate::http::val_server())],
                key_content_type(),
                content_type_of(fs_path@),
            ),
            crate::http::key_content_length(),
            crate::http::dec_digits(content@.len() as nat),
        ),
{
    let mut res = Response::new(200);
    let mut len_bytes: Vec<u8> = Vec::new();
    crate::http::push_dec(&mut len_bytes, content.len() as u64);
    proof {
        assert(len_bytes@ =~= crate::http::dec_digits(content@.len() as nat));
    }
    res.body = content;
    res.set_header(make_key_content_type(), content_type_vec(fs_path));
    res.set_header(crate::http::make_key_content_length(), len_bytes);
    res
}

/// The response for an upload: 201 with a fixed body on success, 500
/// with the diagnostic appended to a fixed prefix on failure.
pub fn upload_response(ok: bool, diagnostic: Vec<u8>) -> (r: Response)
    ensures
        ok ==> r@.status_code == 201 && r@.body == body_upload_ok(),
        !ok ==> r@.status_code == 500 && r@.body == body_upload_err() + diagnostic@,
        r@.headers == seq![(crate::http::key_server(), crate::http::val_server())],
{
    if ok {
        let mut res = Response::new(201);
        res.body = make_body_upload_ok();
        res
    } else {
        let mut res = Response::new(500);
        let mut b = make_body_upload_err();
        crate::http::append_bytes(&mut b, diagnostic.as_slice());
        res.body = b;
        res
    }
}

/// The HTML listing of a directory's entry names.
pub open spec fn listing_items(names: Seq<Seq<u8>>) -> Seq<u8>
    decreases names.len(),
{
    if names.len() == 0 {
        Seq::<u8>::empty()
    } else {
        list_item_open() + names[0] + list_item_mid() + names[0] + list_item_close()
            + listing_items(names.skip(1))
    }
}

/// The whole autoindex page for a directory's entry names.
pub open spec fn listing_html(names: Seq<Seq<u8>>) -> Seq<u8> {
    list_open() + listing_items(names) + list_close()
}

/// The 200 autoindex response: an HTML list with one anchor per entry
/// name, typed `text/html`, with a matching `content-length`.
pub fn list_directory(names: &Vec<Vec<u8>>) -> (r: Response)
    ensures
        r@.status_code == 200,
        r@.body == listing_html(names.deep_view()),
        r@.headers == insert_header(
            insert_header(
                seq![(crate::http::key_server(), crate::http::val_server())],
                key_content_type(),
                mime_html(),
            ),
            crate::http::key_content_length(),
            crate::http::dec_digits(listing_html(names.deep_view()).len() as nat),
        ),
{
    let mut body = make_list_open();
    let ghost nv = names.deep_view();
    let mut i: usize = 0;
    proof {
        assert(nv.skip(0) =~= nv);
        assert(body@ + listing_items(nv.skip(0)) + list_close() =~= listing_html(nv));
    }
    while i < names.len()
        invariant
            0 <= i <= names.len(),
            nv == names.deep_view(),
            body@ + listing_items(nv.skip(i as int)) + list_close() == listing_html(nv),
        decreases names.len() - i,
    {
        let ghost body0 = body@;
        let opener = make_list_item_open();
        crate::http::append_bytes(&mut body, opener.as_slice());
        crate::http::append_bytes(&mut body, names[i].as_slice());
        let mid = make_list_item_mid();
        crate::http::append_bytes(&mut body, mid.as_slice());
        crate::http::append_bytes(&mut body, names[i].as_slice());
        let closer = make_list_item_close();
        crate::http::append_bytes(&mut body, closer.as_slice());
        proof {
            let tail = nv.skip(i as int);
            assert(tail[0] == nv[i as int]);
            assert(tail.skip(1) =~= nv.skip(i + 1));
            assert(names[i as int].deep_view() == nv[i as int]);
            assert(body@ =~= body0 + (list_item_open() + nv[i as int] + list_item_mid() + nv[
                i as int] + list_item_close()));
            assert(body0 + listing_items(nv.skip(i as int)) =~= body@ + listing_items(
                nv.skip(i + 1),
            ));
            assert(body@ + listing_items(nv.skip(i + 1)) + list_close() =~= listing_html(nv));
        }
        i += 1;
    }
    proof {
        assert(nv.skip(names@.len() as int) =~= Seq::<Seq<u8>>::empty());
    }
    let closing = make_list_close();
    crate::http::append_bytes(&mut body, closing.as_slice());
    proof {
        assert(body@ =~= listing_html(nv));
    }
    let mut res = Response::new(200);
    let mut len_bytes: Vec<u8> = Vec::new();
    crate::http::push_dec(&mut len_bytes, body.len() as u64);
    proof {
        assert(len_bytes@ =~= crate::http::dec_digits(listing_html(nv).len() as nat));
    }
    res.body = body;
    res.set_header(make_key_content_type(), make_mime_html());
    res.set_header(crate::http::make_key_content_length(), len_bytes);
    res
}

} // verus!
