use vstd::prelude::*;

use crate::config::ServerConfig;
use crate::http::{dec_digits, insert_header, key_content_length, Response, ResponseV};
use crate::router::{key_content_type, make_key_content_type, mime_html, make_mime_html};

verus! {

/// The bytes of `"<h1>"`.
pub open spec fn err_body_open() -> Seq<u8> {
    seq![60u8, 104u8, 49u8, 62u8]
}

/// The bytes of `"<h1>"`, as a vector.
pub fn make_err_body_open() -> (r: Vec<u8>)
    ensures
        r@ == err_body_open(),
{
    let a: [u8; 4] = [60u8, 104u8, 49u8, 62u8];
    let v = vstd::slice::slice_to_vec(a.as_slice());
    proof {
        assert(v@ =~= err_body_open());
    }
    v
}

/// The bytes of `" Error</h1>"`.
pub open spec fn err_body_close() -> Seq<u8> {
    seq![32u8, 69u8, 114u8, 114u8, 111u8, 114u8, 60u8, 47u8, 104u8, 49u8, 62u8]
}

/// The bytes of `" Error</h1>"`, as a vector.
pub fn make_err_body_close() -> (r: Vec<u8>)
    ensures
        r@ == err_body_close(),
{
    let a: [u8; 11] = [32u8, 69u8, 114u8, 114u8, 111u8, 114u8, 60u8, 47u8, 104u8, 49u8, 62u8];
    let v = vstd::slice::slice_to_vec(a.as_slice());
    proof {
        assert(v@ =~= err_body_close());
    }
    v
}

/// The built-in error body: `<h1>CODE Error</h1>`.
pub open spec fn default_error_body(status: u16) -> Seq<u8> {
    err_body_open() + dec_digits(status as nat) + err_body_close()
}

/// First error page bound to `status` in the list, if any.
pub open spec fn page_lookup(pages: Seq<(u16, Vec<u8>)>, status: u16) -> Option<Seq<u8>>
    decreases pages.len(),
{
    if pages.len() == 0 {
        None::<Seq<u8>>
    } else if pages[0].0 == status {
        Some(pages[0].1@)
    } else {
        page_lookup(pages.skip(1), status)
    }
}

/// The error page the server configures for `status`, if any.
pub open spec fn spec_error_page(server: ServerConfig, status: u16) -> Option<Seq<u8>> {
    match server.error_pages {
        Some(pages) => page_lookup(pages@, status),
        None => None::<Seq<u8>>,
    }
}

proof fn lemma_page_lookup_found(pages: Seq<(u16, Vec<u8>)>, status: u16, i: int)
    requires
        0 <= i < pages.len(),
        pages[i].0 == status,
        forall|j: int| 0 <= j < i ==> (#[trigger] pages[j]).0 != status,
    ensures
        page_lookup(pages, status) == Some(pages[i].1@),
    decreases i,
{
    if i > 0 {
        assert(forall|j: int| 0 <= j < pages.len() - 1 ==> pages.skip(1)[j] == pages[j + 1]);
        lemma_page_lookup_found(pages.skip(1), status, i - 1);
    }
}

proof fn lemma_page_lookup_none(pages: Seq<(u16, Vec<u8>)>, status: u16)
    requires
        forall|j: int| 0 <= j < pages.len() ==> (#[trigger] pages[j]).0 != status,
    ensures
        page_lookup(pages, status) is None,
    decreases pages.len(),
{
    if pages.len() > 0 {
        assert(forall|j: int| 0 <= j < pages.len() - 1 ==> pages.skip(1)[j] == pages[j + 1]);
        lemma_page_lookup_none(pages.skip(1), status);
    }
}

/// The configured error-page file for `status`, if the server names one.
/// Reading that file is the caller's business; its content comes back in
/// through the `page` argument of `generate_error_response`.
pub fn error_page_path<'a>(server: &'a ServerConfig, status: u16) -> (r: Option<&'a Vec<u8>>)
    ensures
        match r {
            Some(p) => spec_error_page(*server, status) == Some(p@),
            None => spec_error_page(*server, status) is None,
        },
{
    match &server.error_pages {
        Some(pages) => {
            let mut i: usize = 0;
            while i < pages.len()
                invariant
                    0 <= i <= pages.len(),
                    server.error_pages is Some,
                    pages@ == (server.error_pages->Some_0)@,
                    forall|j: int| 0 <= j < i ==> (#[trigger] pages@[j]).0 != status,
                decreases pages.len() - i,
            {
                if pages[i].0 == status {
                    let p = &pages[i].1;
                    proof {
                        assert(pages@[i as int].0 == status);
                        assert(p@ == pages@[i as int].1@);
                        lemma_page_lookup_found(pages@, status, i as int);
                        assert(page_lookup(pages@, status) == Some(p@));
                        assert(server.error_pages is Some);
                        assert(pages@ == (server.error_pages->Some_0)@);
                        assert(spec_error_page(*server, status) == page_lookup(pages@, status));
                    }
                    return Some(p);
                }
                i += 1;
            }
            proof {
                lemma_page_lookup_none(pages@, status);
            }
            None
        },
        None => None,
    }
}

/// Build the error response for `status`. When the server configured an
/// error page for this status and the caller could read it, its content
/// (`page`) becomes the body; otherwise the built-in HTML stub does.
/// Either way `content-type` is `text/html` and `content-length` matches.
pub fn generate_error_response(status: u16, page: Option<Vec<u8>>) -> (r: Response)
    ensures
        r@.status_code == status,
        r@.body == (match page {
            Some(c) => c@,
            None => default_error_body(status),
        }),
        r@.headers == insert_header(
            insert_header(
                seq![(crate::http::key_server(), crate::http::val_server())],
                key_content_type(),
                mime_html(),
            ),
            key_content_length(),
            dec_digits(r@.body.len() as nat),
        ),
{
    let mut res = Response::new(status);
    res.body = match page {
        Some(c) => c,
        None => {
            let mut b = make_err_body_open();
            crate::http::push_dec(&mut b, status as u64);
            crate::http::append_bytes(&mut b, make_err_body_close().as_slice());
            proof {
                assert(b@ =~= default_error_body(status));
            }
            b
        },
    };
    res.set_header(make_key_content_type(), make_mime_html());
    let mut len_bytes: Vec<u8> = Vec::new();
    crate::http::push_dec(&mut len_bytes, res.body.len() as u64);
    proof {
        assert(len_bytes@ =~= dec_digits(res.body@.len() as nat));
    }
    res.set_header(crate::http::make_key_content_length(), len_bytes);
    res
}

} // verus!
