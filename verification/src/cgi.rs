use vstd::prelude::*;

use crate::http::{dec_digits, insert_header, key_content_length, Response, ResponseV};
use crate::router::{body_cgi_err, make_body_cgi_err};

verus! {

/// The plan for one CGI invocation: which interpreter runs which script.
/// Spawning the subprocess is the caller's business; its outcome comes
/// back through `cgi_success_response` or `cgi_failure_response`.
pub struct CgiHandler {
    pub script_path: Vec<u8>,
    pub interpreter: Vec<u8>,
}

impl CgiHandler {
    pub fn new(script_path: Vec<u8>, interpreter: Vec<u8>) -> (r: CgiHandler)
        ensures
            r.script_path@ == script_path@,
            r.interpreter@ == interpreter@,
    {
        CgiHandler { script_path, interpreter }
    }
}

/// The response for a CGI run that exited with status zero: its stdout
/// bytes become the body verbatim, with a matching `content-length`.
pub fn cgi_success_response(output: Vec<u8>) -> (r: Response)
    ensures
        r@.status_code == 200,
        r@.body == output@,
        r@.headers == insert_header(
            seq![(crate::http::key_server(), crate::http::val_server())],
            key_content_length(),
            dec_digits(output@.len() as nat),
        ),
{
    let mut res = Response::new(200);
    let mut len_bytes: Vec<u8> = Vec::new();
    crate::http::push_dec(&mut len_bytes, output.len() as u64);
    proof {
        assert(len_bytes@ =~= dec_digits(output@.len() as nat));
    }
    res.body = output;
    res.set_header(crate::http::make_key_content_length(), len_bytes);
    res
}

/// The response for a CGI run that failed: 500, with the diagnostic
/// appended to a fixed prefix.
pub fn cgi_failure_response(diagnostic: Vec<u8>) -> (r: Response)
    ensures
        r@.status_code == 500,
        r@.body == body_cgi_err() + diagnostic@,
        r@.headers == seq![(crate::http::key_server(), crate::http::val_server())],
{
    let mut res = Response::new(500);
    let mut b = make_body_cgi_err();
    crate::http::append_bytes(&mut b, diagnostic.as_slice());
    res.body = b;
    res
}

} // verus!
