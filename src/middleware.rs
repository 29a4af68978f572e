//! The handlers that a request is offered to, and the static-file handler's own logic.
use vstd::prelude::*;
use vstd::string::*;

use crate::http::{with_body_headers, Request, Response, Status, Version};
use crate::text::{
    chars_of, copy_range, eq_ignore_case, slice_eq_ignore_case, string_from_chars,
};

verus! {

/// Why a handler did not produce a response.
#[derive(Debug, PartialEq, Eq, Clone, Copy, Structural)]
pub enum Error {
    NotFound,
    MethodNotAllowed,
}

impl Error {
    pub fn as_str(&self) -> &'static str {
        match self {
            Error::NotFound => "Not found",
            Error::MethodNotAllowed => "Method not allowed",
        }
    }
}

/// A handler that requests are offered to in turn.
pub trait Middleware {
    /// Whether the handler is in a state to answer requests; always, unless an
    /// implementation says otherwise.
    open spec fn ready(&self) -> bool {
        true
    }

    /// Whether `result` is an answer this handler may give to `request`; any answer,
    /// unless an implementation says more.
    open spec fn answers(&self, request: Request, result: Result<Response, Error>) -> bool {
        true
    }

    fn answer(&self, request: &Request) -> (result: Result<Response, Error>)
        requires
            self.ready(),
        ensures
            self.answers(*request, result),
    ;
}

} // verus!

verus! {

/// Relies on the constant `mime::TEXT_HTML` and `Mime::essence_str`: the type `text/html`.
#[verifier::external_body]
fn text_html() -> (r: String)
    ensures
        r@ == "text/html"@,
{
    mime::TEXT_HTML.essence_str().to_string()
}

/// Whether `s` ends with `suffix`, compared up to ASCII case.
pub open spec fn ends_with_ignore_case(s: Seq<char>, suffix: Seq<char>) -> bool {
    suffix.len() <= s.len() && eq_ignore_case(s.subrange(s.len() - suffix.len(), s.len() as int), suffix)
}

/// The media type of a file, inferred from the extension of its path.
pub open spec fn media_type_for(path: Seq<char>) -> Seq<char> {
    if ends_with_ignore_case(path, ".html"@) || ends_with_ignore_case(path, ".htm"@) {
        "text/html"@
    } else if ends_with_ignore_case(path, ".txt"@) {
        "text/plain"@
    } else if ends_with_ignore_case(path, ".css"@) {
        "text/css"@
    } else if ends_with_ignore_case(path, ".js"@) {
        "application/javascript"@
    } else if ends_with_ignore_case(path, ".json"@) {
        "application/json"@
    } else if ends_with_ignore_case(path, ".png"@) {
        "image/png"@
    } else if ends_with_ignore_case(path, ".jpg"@) || ends_with_ignore_case(path, ".jpeg"@) {
        "image/jpeg"@
    } else if ends_with_ignore_case(path, ".gif"@) {
        "image/gif"@
    } else if ends_with_ignore_case(path, ".svg"@) {
        "image/svg+xml"@
    } else {
        "application/octet-stream"@
    }
}

fn ends_with_suffix(s: &Vec<char>, suffix: &str) -> (r: bool)
    ensures
        r == ends_with_ignore_case(s@, suffix@),
{
    let suf = chars_of(suffix);
    let n = s.len();
    let m = suf.len();
    if m > n {
        return false;
    }
    let tail = copy_range(s, n - m, n);
    slice_eq_ignore_case(tail.as_slice(), suf.as_slice())
}

/// The media type of the file at `path`, from its extension.
pub fn media_type_of(path: &str) -> (r: String)
    ensures
        r@ == media_type_for(path@),
{
    let p = chars_of(path);
    if ends_with_suffix(&p, ".html") || ends_with_suffix(&p, ".htm") {
        text_html()
    } else if ends_with_suffix(&p, ".txt") {
        "text/plain".to_owned()
    } else if ends_with_suffix(&p, ".css") {
        "text/css".to_owned()
    } else if ends_with_suffix(&p, ".js") {
        "application/javascript".to_owned()
    } else if ends_with_suffix(&p, ".json") {
        "application/json".to_owned()
    } else if ends_with_suffix(&p, ".png") {
        "image/png".to_owned()
    } else if ends_with_suffix(&p, ".jpg") || ends_with_suffix(&p, ".jpeg") {
        "image/jpeg".to_owned()
    } else if ends_with_suffix(&p, ".gif") {
        "image/gif".to_owned()
    } else if ends_with_suffix(&p, ".svg") {
        "image/svg+xml".to_owned()
    } else {
        "application/octet-stream".to_owned()
    }
}

/// One line of a directory listing: a link to the entry, directories marked with `/`.
pub open spec fn listing_entry(base: Seq<char>, name: Seq<char>, is_dir: bool) -> Seq<char> {
    let shown = if is_dir {
        name.push('/')
    } else {
        name
    };
    "<p><a href=\""@ + base + shown + "\">"@ + shown + "</a></p>"@
}

pub open spec fn listing_entries(base: Seq<char>, entries: Seq<(Seq<char>, bool)>) -> Seq<char>
    decreases entries.len(),
{
    if entries.len() == 0 {
        Seq::empty()
    } else {
        listing_entries(base, entries.drop_last()) + listing_entry(
            base,
            entries.last().0,
            entries.last().1,
        )
    }
}

/// The HTML page that lists a directory's entries.
pub open spec fn listing_page(base: Seq<char>, entries: Seq<(Seq<char>, bool)>) -> Seq<char> {
    "<html><body>"@ + listing_entries(base, entries) + "</body></html>"@
}

pub open spec fn entries_view(entries: Seq<(String, bool)>) -> Seq<(Seq<char>, bool)> {
    entries.map_values(|e: (String, bool)| (e.0@, e.1))
}

/// Serves files under a directory; reading the file system is left to the caller.
pub struct FileMiddleware<'a> {
    pub file_directory: &'a str,
}

impl<'a> FileMiddleware<'a> {
    pub fn new(file_directory: &'a str) -> (r: FileMiddleware<'a>)
        ensures
            r.file_directory == file_directory,
    {
        FileMiddleware { file_directory }
    }

    /// The path that a request names: the root followed by the request's path.
    pub fn file_path(&self, request: &Request) -> (r: String)
        ensures
            r@ == self.file_directory@ + request.uri.path@,
    {
        let mut v = crate::text::chars_of(self.file_directory);
        crate::http::push_str(&mut v, request.uri.path.as_str());
        string_from_chars(&v)
    }

    /// The HTML listing of a directory reached at `base`; each entry is a name and whether
    /// it is itself a directory.
    pub fn listing(base: &str, entries: &Vec<(String, bool)>) -> (r: String)
        ensures
            r@ == listing_page(base@, entries_view(entries@)),
    {
        let mut v: Vec<char> = Vec::new();
        crate::http::push_str(&mut v, "<html><body>");
        let ghost start = v@;
        let mut i: usize = 0;
        while i < entries.len()
            invariant
                i <= entries@.len(),
                start == "<html><body>"@,
                v@ == start + listing_entries(base@, entries_view(entries@.take(i as int))),
            decreases entries@.len() - i,
        {
            let name = &entries[i].0;
            let is_dir = entries[i].1;
            let ghost before = v@;
            crate::http::push_str(&mut v, "<p><a href=\"");
            crate::http::push_str(&mut v, base);
            crate::http::push_str(&mut v, name.as_str());
            if is_dir {
                v.push('/');
            }
            crate::http::push_str(&mut v, "\">");
            crate::http::push_str(&mut v, name.as_str());
            if is_dir {
                v.push('/');
            }
            crate::http::push_str(&mut v, "</a></p>");
            proof {
                let t = entries_view(entries@.take(i + 1));
                assert(t.drop_last() =~= entries_view(entries@.take(i as int)));
                assert(t.last() == (name@, is_dir));
                assert(v@ =~= before + listing_entry(base@, name@, is_dir));
            }
            i += 1;
        }
        crate::http::push_str(&mut v, "</body></html>");
        assert(entries@.take(i as int) =~= entries@);
        assert(v@ =~= listing_page(base@, entries_view(entries@)));
        string_from_chars(&v)
    }

    /// The answer for a file read at `file_path`: 200 with the contents, their length in
    /// bytes and the media type of the path; NotFound when the file could not be read.
    pub fn respond_file(file_path: &str, contents: Option<String>) -> (r: Result<Response, Error>)
        ensures
            match contents {
                None => r == Err::<Response, Error>(Error::NotFound),
                Some(c) => r matches Ok(res) && is_page(res, c@, media_type_for(file_path@)),
            },
    {
        match contents {
            None => Err(Error::NotFound),
            Some(c) => {
                let media_type = media_type_of(file_path);
                Ok(Response::new(Status::OK).body_with_type(c.as_str(), media_type.as_str()))
            },
        }
    }

    /// The answer for a directory reached at `base`: 200 with its HTML listing, its length
    /// in bytes and type `text/html`; NotFound when the directory could not be read.
    pub fn respond_listing(base: &str, entries: Option<Vec<(String, bool)>>) -> (r: Result<Response, Error>)
        ensures
            match entries {
                None => r == Err::<Response, Error>(Error::NotFound),
                Some(e) => r matches Ok(res) && res.body@ == listing_page(base@, entries_view(e@))
                    && is_page(res, res.body@, "text/html"@),
            },
    {
        match entries {
            None => Err(Error::NotFound),
            Some(e) => {
                let page = Self::listing(base, &e);
                let media_type = text_html();
                Ok(Response::new(Status::OK).body_with_type(page.as_str(), media_type.as_str()))
            },
        }
    }
}

/// Whether `res` is a 200 response whose body is `body`, with exactly a Content-Length
/// of its bytes and a Content-Type of `media_type`.
pub open spec fn is_page(res: Response, body: Seq<char>, media_type: Seq<char>) -> bool {
    &&& res.version == Version::OneDotOne
    &&& res.status == Status::OK
    &&& res.body@ == body
    &&& res.headers@ == with_body_headers(Seq::empty(), body, media_type)
}

} // verus!
