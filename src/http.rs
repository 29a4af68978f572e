//! HTTP/1.1 messages: requests parsed from text, responses built and serialised.
use vstd::prelude::*;
use vstd::string::*;
use vstd::utf8::encode_utf8;

use crate::text::{
    chars_of, crlf, decimal, drop_trailing_spaces, eq_ignore_case, find_from, is_space,
    join_lines, lacks, lemma_lacks_no_crlf, lemma_no_crlf_concat, no_crlf, push_decimal,
    skip_spaces, split, str_eq_ignore_case, string_from_chars, trim,
};

verus! {

/// Why a request could not be parsed.
#[derive(Debug, PartialEq, Eq, Clone, Copy, Structural)]
pub enum Error {
    UnsupportedVersion,
    UnknownMethod,
    MalformedRequest,
}

impl Error {
    pub fn as_str(&self) -> &'static str {
        match self {
            Error::UnsupportedVersion => "Unsupported version",
            Error::UnknownMethod => "Unknown method",
            Error::MalformedRequest => "Malformed request",
        }
    }
}

#[derive(Debug, PartialEq, Eq, Clone, Copy, Structural)]
pub enum Version {
    OneDotOne,
}

pub open spec fn http11() -> Seq<char> {
    seq!['H', 'T', 'T', 'P', '/', '1', '.', '1']
}

/// The text of a version on the wire.
pub open spec fn version_text(v: Version) -> Seq<char> {
    match v {
        Version::OneDotOne => http11(),
    }
}

/// Whether the characters of `a` are exactly `b`.
pub fn same_chars(a: &Vec<char>, b: &[char]) -> (r: bool)
    ensures
        r == (a@ == b@),
{
    if a.len() != b.len() {
        return false;
    }
    let mut i: usize = 0;
    while i < a.len()
        invariant
            a@.len() == b@.len(),
            i <= a@.len(),
            forall|j: int| 0 <= j < i ==> a@[j] == b@[j],
        decreases a@.len() - i,
    {
        if a[i] != b[i] {
            return false;
        }
        i += 1;
    }
    assert(a@ =~= b@);
    true
}

impl Version {
    /// Accepts exactly `HTTP/1.1`.
    pub fn parse(input: &str) -> (r: Result<Version, Error>)
        ensures
            r == (if input@ == http11() {
                Ok(Version::OneDotOne)
            } else {
                Err(Error::UnsupportedVersion)
            }),
    {
        Self::from_chars(&chars_of(input))
    }

    fn from_chars(input: &Vec<char>) -> (r: Result<Version, Error>)
        ensures
            r == (if input@ == http11() {
                Ok(Version::OneDotOne)
            } else {
                Err(Error::UnsupportedVersion)
            }),
    {
        if same_chars(input, &['H', 'T', 'T', 'P', '/', '1', '.', '1']) {
            Ok(Version::OneDotOne)
        } else {
            Err(Error::UnsupportedVersion)
        }
    }

    pub fn as_str(&self) -> (r: &'static str)
        ensures
            r@ == version_text(*self),
    {
        proof {
            reveal_strlit("HTTP/1.1");
        }
        match self {
            Version::OneDotOne => "HTTP/1.1",
        }
    }
}

#[derive(Debug, PartialEq, Eq, Clone, Copy, Structural)]
pub enum Status {
    SwitchingProtocols,
    OK,
    BadRequest,
    Unauthorized,
    Forbidden,
    NotFound,
    MethodNotAllowed,
    UpgradeRequired,
    VersionNotSupported,
}

/// Code and reason phrase of a status, as in a status line.
pub open spec fn status_text(s: Status) -> Seq<char> {
    match s {
        Status::SwitchingProtocols => "101 Switching Protocols"@,
        Status::OK => "200 OK"@,
        Status::BadRequest => "400 Bad Request"@,
        Status::Unauthorized => "401 Unauthorized"@,
        Status::Forbidden => "403 Forbidden"@,
        Status::NotFound => "404 Not Found"@,
        Status::MethodNotAllowed => "405 Method Not Allowed"@,
        Status::UpgradeRequired => "426 Upgrade Required"@,
        Status::VersionNotSupported => "505 HTTP Version Not Supported"@,
    }
}

impl Status {
    pub fn as_str(&self) -> (r: &'static str)
        ensures
            r@ == status_text(*self),
    {
        match self {
            Status::SwitchingProtocols => "101 Switching Protocols",
            Status::OK => "200 OK",
            Status::BadRequest => "400 Bad Request",
            Status::Unauthorized => "401 Unauthorized",
            Status::Forbidden => "403 Forbidden",
            Status::NotFound => "404 Not Found",
            Status::MethodNotAllowed => "405 Method Not Allowed",
            Status::UpgradeRequired => "426 Upgrade Required",
            Status::VersionNotSupported => "505 HTTP Version Not Supported",
        }
    }
}

#[derive(Debug, PartialEq, Eq, Clone, Copy, Structural)]
pub enum ResponseClass {
    Informational,
    Successful,
    Redirection,
    ClientError,
    ServerError,
}

pub open spec fn class_of(s: Status) -> ResponseClass {
    match s {
        Status::SwitchingProtocols => ResponseClass::Informational,
        Status::OK => ResponseClass::Successful,
        Status::VersionNotSupported => ResponseClass::ServerError,
        _ => ResponseClass::ClientError,
    }
}

impl ResponseClass {
    pub fn new(status: &Status) -> (r: ResponseClass)
        ensures
            r == class_of(*status),
    {
        match status {
            Status::SwitchingProtocols => ResponseClass::Informational,
            Status::OK => ResponseClass::Successful,
            Status::BadRequest => ResponseClass::ClientError,
            Status::Unauthorized => ResponseClass::ClientError,
            Status::Forbidden => ResponseClass::ClientError,
            Status::NotFound => ResponseClass::ClientError,
            Status::MethodNotAllowed => ResponseClass::ClientError,
            Status::UpgradeRequired => ResponseClass::ClientError,
            Status::VersionNotSupported => ResponseClass::ServerError,
        }
    }
}

#[derive(Debug, PartialEq, Eq, Hash, Clone, Copy, Structural)]
pub enum Method {
    Get,
    Head,
    Post,
    Put,
    Delete,
    Connect,
    Options,
    Trace,
}

/// The verb as written on a request line.
pub open spec fn method_text(m: Method) -> Seq<char> {
    match m {
        Method::Get => seq!['G', 'E', 'T'],
        Method::Head => seq!['H', 'E', 'A', 'D'],
        Method::Post => seq!['P', 'O', 'S', 'T'],
        Method::Put => seq!['P', 'U', 'T'],
        Method::Delete => seq!['D', 'E', 'L', 'E', 'T', 'E'],
        Method::Connect => seq!['C', 'O', 'N', 'N', 'E', 'C', 'T'],
        Method::Options => seq!['O', 'P', 'T', 'I', 'O', 'N', 'S'],
        Method::Trace => seq!['T', 'R', 'A', 'C', 'E'],
    }
}

/// The verb that a token names, matched case-sensitively.
pub open spec fn method_of(t: Seq<char>) -> Option<Method> {
    if t == method_text(Method::Get) {
        Some(Method::Get)
    } else if t == method_text(Method::Head) {
        Some(Method::Head)
    } else if t == method_text(Method::Post) {
        Some(Method::Post)
    } else if t == method_text(Method::Put) {
        Some(Method::Put)
    } else if t == method_text(Method::Delete) {
        Some(Method::Delete)
    } else if t == method_text(Method::Connect) {
        Some(Method::Connect)
    } else if t == method_text(Method::Options) {
        Some(Method::Options)
    } else if t == method_text(Method::Trace) {
        Some(Method::Trace)
    } else {
        None
    }
}

impl Method {
    pub fn parse(input: &str) -> (r: Result<Method, Error>)
        ensures
            r == (match method_of(input@) {
                Some(m) => Ok(m),
                None => Err(Error::UnknownMethod),
            }),
    {
        match Self::from_chars(&chars_of(input)) {
            Some(m) => Ok(m),
            None => Err(Error::UnknownMethod),
        }
    }

    fn from_chars(t: &Vec<char>) -> (r: Option<Method>)
        ensures
            r == method_of(t@),
    {
        if same_chars(t, &['G', 'E', 'T']) {
            Some(Method::Get)
        } else if same_chars(t, &['H', 'E', 'A', 'D']) {
            Some(Method::Head)
        } else if same_chars(t, &['P', 'O', 'S', 'T']) {
            Some(Method::Post)
        } else if same_chars(t, &['P', 'U', 'T']) {
            Some(Method::Put)
        } else if same_chars(t, &['D', 'E', 'L', 'E', 'T', 'E']) {
            Some(Method::Delete)
        } else if same_chars(t, &['C', 'O', 'N', 'N', 'E', 'C', 'T']) {
            Some(Method::Connect)
        } else if same_chars(t, &['O', 'P', 'T', 'I', 'O', 'N', 'S']) {
            Some(Method::Options)
        } else if same_chars(t, &['T', 'R', 'A', 'C', 'E']) {
            Some(Method::Trace)
        } else {
            None
        }
    }

    fn text(&self) -> (r: Vec<char>)
        ensures
            r@ == method_text(*self),
    {
        let r = match self {
            Method::Get => vec!['G', 'E', 'T'],
            Method::Head => vec!['H', 'E', 'A', 'D'],
            Method::Post => vec!['P', 'O', 'S', 'T'],
            Method::Put => vec!['P', 'U', 'T'],
            Method::Delete => vec!['D', 'E', 'L', 'E', 'T', 'E'],
            Method::Connect => vec!['C', 'O', 'N', 'N', 'E', 'C', 'T'],
            Method::Options => vec!['O', 'P', 'T', 'I', 'O', 'N', 'S'],
            Method::Trace => vec!['T', 'R', 'A', 'C', 'E'],
        };
        assert(r@ =~= method_text(*self));
        r
    }
}

} // verus!

verus! {

/// A header list as the contracts see it: (name, value) pairs in insertion order.
pub type HeaderList = Seq<(Seq<char>, Seq<char>)>;

/// The first position at or after `i` whose name equals `name` up to ASCII case, or -1.
pub open spec fn index_from(h: HeaderList, name: Seq<char>, i: int) -> int
    decreases h.len() - i,
{
    if i < 0 || i >= h.len() {
        -1
    } else if eq_ignore_case(h[i].0, name) {
        i
    } else {
        index_from(h, name, i + 1)
    }
}

pub open spec fn index_of(h: HeaderList, name: Seq<char>) -> int {
    index_from(h, name, 0)
}

/// The value stored under `name`, names compared up to ASCII case.
pub open spec fn lookup(h: HeaderList, name: Seq<char>) -> Option<Seq<char>> {
    let i = index_of(h, name);
    if 0 <= i < h.len() {
        Some(h[i].1)
    } else {
        None
    }
}

/// Sets `name` to `value`: the entry with that name (up to case) is replaced in place,
/// else the pair is appended.
pub open spec fn upsert(h: HeaderList, name: Seq<char>, value: Seq<char>) -> HeaderList {
    let i = index_of(h, name);
    if 0 <= i < h.len() {
        h.update(i, (name, value))
    } else {
        h.push((name, value))
    }
}

pub proof fn lemma_index_from_bounds(h: HeaderList, name: Seq<char>, i: int)
    ensures
        index_from(h, name, i) == -1 || (0 <= i <= index_from(h, name, i) < h.len()
            && eq_ignore_case(h[index_from(h, name, i)].0, name)),
    decreases h.len() - i,
{
    if 0 <= i < h.len() && !eq_ignore_case(h[i].0, name) {
        lemma_index_from_bounds(h, name, i + 1);
    }
}

/// Header fields in insertion order; names are matched up to ASCII case.
#[derive(Debug, PartialEq)]
pub struct Headers {
    entries: Vec<(String, String)>,
}

/// Whether no two entries have names equal up to ASCII case.
pub open spec fn unique_names(h: HeaderList) -> bool {
    forall|j: int, l: int| 0 <= j < l < h.len() ==> !eq_ignore_case(#[trigger] h[j].0, #[trigger] h[l].0)
}

proof fn lemma_index_from_none(h: HeaderList, name: Seq<char>, i: int)
    requires
        0 <= i,
        index_from(h, name, i) == -1,
    ensures
        forall|j: int| i <= j < h.len() ==> !eq_ignore_case(#[trigger] h[j].0, name),
    decreases h.len() - i,
{
    if i < h.len() {
        lemma_index_from_none(h, name, i + 1);
    }
}

proof fn lemma_eq_ignore_case_trans(a: Seq<char>, b: Seq<char>, c: Seq<char>)
    requires
        eq_ignore_case(a, c),
        eq_ignore_case(b, c),
    ensures
        eq_ignore_case(a, b),
{
    assert forall|i: int| 0 <= i < a.len() implies crate::text::char_eq_ignore_case(#[trigger] a[i], b[i]) by {
        assert(crate::text::char_eq_ignore_case(a[i], c[i]));
        assert(crate::text::char_eq_ignore_case(b[i], c[i]));
    }
}

/// Setting a header keeps the names distinct up to case.
pub proof fn lemma_upsert_unique(h: HeaderList, name: Seq<char>, value: Seq<char>)
    requires
        unique_names(h),
    ensures
        unique_names(upsert(h, name, value)),
{
    lemma_index_from_bounds(h, name, 0);
    let i = index_of(h, name);
    let r = upsert(h, name, value);
    if 0 <= i < h.len() {
        assert forall|j: int, l: int| 0 <= j < l < r.len() implies !eq_ignore_case(#[trigger] r[j].0, #[trigger] r[l].0) by {
            if j == i {
                if eq_ignore_case(name, h[l].0) {
                    lemma_eq_ignore_case_trans(h[i].0, h[l].0, name);
                    assert(eq_ignore_case(h[i].0, name));
                    assert forall|t: int| 0 <= t < name.len() implies crate::text::char_eq_ignore_case(#[trigger] h[l].0[t], name[t]) by {
                        assert(crate::text::char_eq_ignore_case(name[t], h[l].0[t]));
                    }
                    lemma_eq_ignore_case_trans(h[i].0, h[l].0, name);
                }
            } else if l == i {
                if eq_ignore_case(h[j].0, name) {
                    lemma_eq_ignore_case_trans(h[j].0, h[i].0, name);
                }
            }
        }
    } else {
        lemma_index_from_none(h, name, 0);
    }
}

pub open spec fn fields_view(v: Seq<(String, String)>) -> HeaderList {
    v.map_values(|e: (String, String)| (e.0@, e.1@))
}

impl View for Headers {
    type V = HeaderList;

    closed spec fn view(&self) -> HeaderList {
        fields_view(self.entries@)
    }
}

impl Headers {
    /// No two fields share a name up to ASCII case.
    #[verifier::type_invariant]
    closed spec fn names_distinct(&self) -> bool {
        unique_names(self@)
    }

    pub fn new() -> (r: Headers)
        ensures
            r@ == Seq::<(Seq<char>, Seq<char>)>::empty(),
            unique_names(r@),
    {
        let r = Headers { entries: Vec::new() };
        assert(r@ =~= Seq::<(Seq<char>, Seq<char>)>::empty());
        r
    }

    pub fn len(&self) -> (r: usize)
        ensures
            r == self@.len(),
    {
        self.entries.len()
    }

    /// The name and value at position `i`.
    pub fn entry(&self, i: usize) -> (r: (&String, &String))
        requires
            i < self@.len(),
        ensures
            r.0@ == self@[i as int].0,
            r.1@ == self@[i as int].1,
    {
        (&self.entries[i].0, &self.entries[i].1)
    }

    fn position(&self, name: &str) -> (r: Option<usize>)
        ensures
            match r {
                Some(i) => i == index_of(self@, name@) && i < self@.len(),
                None => index_of(self@, name@) == -1,
            },
    {
        let mut i: usize = 0;
        while i < self.entries.len()
            invariant
                i <= self@.len() == self.entries@.len(),
                index_of(self@, name@) == index_from(self@, name@, i as int),
            decreases self@.len() - i,
        {
            if str_eq_ignore_case(self.entries[i].0.as_str(), name) {
                return Some(i);
            }
            i += 1;
        }
        None
    }

    /// The value stored under `name`, compared up to ASCII case.
    pub fn get(&self, name: &str) -> (r: Option<&String>)
        ensures
            match r {
                Some(v) => lookup(self@, name@) == Some(v@),
                None => lookup(self@, name@) is None,
            },
    {
        proof {
            lemma_index_from_bounds(self@, name@, 0);
        }
        match self.position(name) {
            Some(i) => Some(&self.entries[i].1),
            None => None,
        }
    }

    /// Sets `name` to `value`, replacing an entry of the same name up to case.
    pub fn insert(&mut self, name: &str, value: &str)
        ensures
            final(self)@ == upsert(old(self)@, name@, value@),
            unique_names(final(self)@),
    {
        proof {
            use_type_invariant(&*self);
            lemma_index_from_bounds(self@, name@, 0);
            lemma_upsert_unique(self@, name@, value@);
        }
        let entry = (name.to_owned(), value.to_owned());
        let position = self.position(name);
        let mut taken = Headers::new();
        core::mem::swap(self, &mut taken);
        let Headers { mut entries } = taken;
        match position {
            Some(i) => {
                entries.set(i, entry);
            },
            None => {
                entries.push(entry);
            },
        }
        assert(fields_view(entries@) =~= upsert(
            old(self)@,
            name@,
            value@,
        ));
        *self = Headers { entries };
    }
}

impl Clone for Headers {
    fn clone(&self) -> (r: Headers)
        ensures
            r@ == self@,
    {
        proof {
            use_type_invariant(self);
        }
        let mut entries: Vec<(String, String)> = Vec::new();
        let mut i: usize = 0;
        while i < self.entries.len()
            invariant
                i <= self.entries@.len(),
                unique_names(self@),
                fields_view(entries@) == self@.take(i as int),
            decreases self.entries@.len() - i,
        {
            let e = &self.entries[i];
            let copy = (e.0.clone(), e.1.clone());
            assert(self@[i as int] == (copy.0@, copy.1@));
            let ghost before = entries@;
            entries.push(copy);
            assert(entries@ == before.push(copy));
            assert(fields_view(before.push(copy)) =~= fields_view(before).push((copy.0@, copy.1@)));
            assert(self@.take(i + 1) =~= self@.take(i as int).push(self@[i as int]));
            i += 1;
        }
        assert(self@.take(i as int) =~= self@);
        Headers { entries }
    }
}

/// The wire form of a header list: one `name: value` line per entry.
pub open spec fn headers_text(h: HeaderList) -> Seq<char>
    decreases h.len(),
{
    if h.len() == 0 {
        Seq::empty()
    } else {
        headers_text(h.drop_last()) + h.last().0 + seq![':', ' '] + h.last().1 + crlf()
    }
}

/// Appends the characters of `s` to `v`.
pub fn push_str(v: &mut Vec<char>, s: &str)
    ensures
        final(v)@ == old(v)@ + s@,
{
    let mut c = chars_of(s);
    v.append(&mut c);
}

fn push_headers(v: &mut Vec<char>, h: &Headers)
    ensures
        final(v)@ == old(v)@ + headers_text(h@),
{
    let mut i: usize = 0;
    while i < h.len()
        invariant
            i <= h@.len(),
            v@ == old(v)@ + headers_text(h@.take(i as int)),
        decreases h@.len() - i,
    {
        let (name, value) = h.entry(i);
        push_str(v, name.as_str());
        v.push(':');
        v.push(' ');
        push_str(v, value.as_str());
        v.push('\r');
        v.push('\n');
        proof {
            let t = h@.take(i + 1);
            assert(t.drop_last() =~= h@.take(i as int));
            assert(v@ =~= old(v)@ + headers_text(t));
        }
        i += 1;
    }
    assert(h@.take(h@.len() as int) =~= h@);
}

} // verus!

verus! {

#[verifier::external_type_specification]
#[verifier::external_body]
pub struct ExMime(mime::Mime);

/// Relies on `mime::Mime::essence_str`: the `type/subtype` part of a media type.
#[verifier::external_body]
fn essence_of(mime: &mime::Mime) -> String {
    mime.essence_str().to_string()
}

pub open spec fn content_length_name() -> Seq<char> {
    "Content-Length"@
}

pub open spec fn content_type_name() -> Seq<char> {
    "Content-Type"@
}

/// The length of `s` in UTF-8 bytes, as `str::len` reports it.
pub open spec fn byte_len(s: Seq<char>) -> nat {
    (encode_utf8(s).len() as usize) as nat
}

/// Headers after a body of `content` typed `media_type` has been set: the length in
/// bytes, then the type.
pub open spec fn with_body_headers(h: HeaderList, content: Seq<char>, media_type: Seq<char>) -> HeaderList {
    upsert(
        upsert(h, content_length_name(), decimal(byte_len(content))),
        content_type_name(),
        media_type,
    )
}

fn body_headers(headers: &mut Headers, content: &str, media_type: &str)
    ensures
        final(headers)@ == with_body_headers(old(headers)@, content@, media_type@),
        unique_names(final(headers)@),
{
    let mut digits: Vec<char> = Vec::new();
    let n = content.len();
    push_decimal(&mut digits, n);
    assert(digits@ =~= decimal(byte_len(content@)));
    let length = string_from_chars(&digits);
    headers.insert("Content-Length", length.as_str());
    headers.insert("Content-Type", media_type);
}

#[derive(Debug, PartialEq, Eq, Hash, Clone)]
pub struct Uri {
    pub path: String,
}

impl Uri {
    pub fn new(path: &str) -> (r: Uri)
        ensures
            r.path@ == path@,
    {
        Uri { path: path.to_owned() }
    }

    fn parse(input: &str) -> (r: Result<Uri, Error>)
        ensures
            r is Ok && r->Ok_0.path@ == input@,
    {
        Ok(Uri { path: input.to_owned() })
    }
}

/// A request as the contracts see it: method, path, version, headers, body.
pub type RequestParts = (Method, Seq<char>, Version, HeaderList, Seq<char>);

#[derive(Debug, PartialEq, Clone)]
pub struct Request {
    pub method: Method,
    pub uri: Uri,
    pub version: Version,
    pub headers: Headers,
    pub body: String,
}

impl Request {
    pub open spec fn parts(&self) -> RequestParts {
        (self.method, self.uri.path@, self.version, self.headers@, self.body@)
    }

    fn new(uri: &str) -> (r: Request)
        ensures
            r.parts() == (Method::Get, uri@, Version::OneDotOne, Seq::<
                (Seq<char>, Seq<char>),
            >::empty(), Seq::<char>::empty()),
    {
        let uri = match Uri::parse(uri) {
            Ok(u) => u,
            Err(_) => Uri::new(uri),
        };
        Request {
            method: Method::Get,
            uri,
            version: Version::OneDotOne,
            headers: Headers::new(),
            body: String::new(),
        }
    }

    /// A GET request for `uri` with no headers and an empty body.
    pub fn get(uri: &str) -> (r: Request)
        ensures
            r.parts() == (Method::Get, uri@, Version::OneDotOne, Seq::<
                (Seq<char>, Seq<char>),
            >::empty(), Seq::<char>::empty()),
    {
        let mut req = Self::new(uri);
        req.method = Method::Get;
        req
    }

    /// A POST request for `uri` with no headers and an empty body.
    pub fn post(uri: &str) -> (r: Request)
        ensures
            r.parts() == (Method::Post, uri@, Version::OneDotOne, Seq::<
                (Seq<char>, Seq<char>),
            >::empty(), Seq::<char>::empty()),
    {
        let mut req = Self::new(uri);
        req.method = Method::Post;
        req
    }

    /// Sets one header, replacing a field of the same name up to case.
    pub fn header(self, header: (&str, &str)) -> (r: Request)
        ensures
            r.method == self.method,
            r.uri == self.uri,
            r.version == self.version,
            r.body == self.body,
            r.headers@ == upsert(self.headers@, header.0@, header.1@),
            unique_names(r.headers@),
    {
        let mut req = self;
        req.headers.insert(header.0, header.1);
        req
    }

    /// Sets the body, its `Content-Length` in bytes and its `Content-Type`.
    pub fn body_with_type(self, body: &str, media_type: &str) -> (r: Request)
        ensures
            r.method == self.method,
            r.uri == self.uri,
            r.version == self.version,
            r.body@ == body@,
            r.headers@ == with_body_headers(self.headers@, body@, media_type@),
            unique_names(r.headers@),
    {
        let mut req = self;
        body_headers(&mut req.headers, body, media_type);
        req.body = body.to_owned();
        req
    }

    /// Sets the body, its `Content-Length` in bytes and the essence of `mime` as its
    /// `Content-Type`.
    pub fn body(self, body: &str, mime: mime::Mime) -> (r: Request)
        ensures
            r.method == self.method,
            r.uri == self.uri,
            r.version == self.version,
            r.body@ == body@,
            exists|t: Seq<char>| r.headers@ == with_body_headers(self.headers@, body@, t),
    {
        let media_type = essence_of(&mime);
        self.body_with_type(body, media_type.as_str())
    }

    /// The request in wire form.
    pub open spec fn wire(&self) -> Seq<char> {
        method_text(self.method) + seq![' '] + self.uri.path@ + seq![' '] + version_text(
            self.version,
        ) + crlf() + headers_text(self.headers@) + crlf() + self.body@
    }

    /// Serialises the request: request line, headers in order, blank line, body.
    pub fn to_string(&self) -> (r: String)
        ensures
            r@ == self.wire(),
    {
        let mut v = self.method.text();
        v.push(' ');
        push_str(&mut v, self.uri.path.as_str());
        v.push(' ');
        push_str(&mut v, self.version.as_str());
        v.push('\r');
        v.push('\n');
        push_headers(&mut v, &self.headers);
        v.push('\r');
        v.push('\n');
        push_str(&mut v, self.body.as_str());
        assert(v@ =~= self.wire());
        string_from_chars(&v)
    }
}

#[derive(Debug, PartialEq, Clone)]
pub struct Response {
    pub version: Version,
    pub status: Status,
    pub headers: Headers,
    pub body: String,
}

impl Response {
    /// An HTTP/1.1 response with `status`, no headers and an empty body.
    pub fn new(status: Status) -> (r: Response)
        ensures
            r.version == Version::OneDotOne,
            r.status == status,
            r.headers@ == Seq::<(Seq<char>, Seq<char>)>::empty(),
            r.body@ == Seq::<char>::empty(),
    {
        Response {
            version: Version::OneDotOne,
            status: status,
            headers: Headers::new(),
            body: String::new(),
        }
    }

    /// Sets one header, replacing a field of the same name up to case.
    pub fn header(self, header: (&str, &str)) -> (r: Response)
        ensures
            r.version == self.version,
            r.status == self.status,
            r.body == self.body,
            r.headers@ == upsert(self.headers@, header.0@, header.1@),
            unique_names(r.headers@),
    {
        let mut res = self;
        res.headers.insert(header.0, header.1);
        res
    }

    /// Sets the body, its `Content-Length` in bytes and its `Content-Type`.
    pub fn body_with_type(self, body: &str, media_type: &str) -> (r: Response)
        ensures
            r.version == self.version,
            r.status == self.status,
            r.body@ == body@,
            r.headers@ == with_body_headers(self.headers@, body@, media_type@),
            unique_names(r.headers@),
    {
        let mut res = self;
        body_headers(&mut res.headers, body, media_type);
        res.body = body.to_owned();
        res
    }

    /// Sets the body, its `Content-Length` in bytes and the essence of `mime` as its
    /// `Content-Type`.
    pub fn body(self, body: &str, mime: mime::Mime) -> (r: Response)
        ensures
            r.version == self.version,
            r.status == self.status,
            r.body@ == body@,
            exists|t: Seq<char>| r.headers@ == with_body_headers(self.headers@, body@, t),
    {
        let media_type = essence_of(&mime);
        self.body_with_type(body, media_type.as_str())
    }

    pub fn class(&self) -> (r: ResponseClass)
        ensures
            r == class_of(self.status),
    {
        ResponseClass::new(&self.status)
    }

    /// The response in wire form.
    pub open spec fn wire(&self) -> Seq<char> {
        version_text(self.version) + seq![' '] + status_text(self.status) + crlf() + headers_text(
            self.headers@,
        ) + crlf() + self.body@
    }

    /// Serialises the response: status line, headers in order, blank line, body.
    pub fn to_string(&self) -> (r: String)
        ensures
            r@ == self.wire(),
    {
        let mut v: Vec<char> = Vec::new();
        push_str(&mut v, self.version.as_str());
        v.push(' ');
        push_str(&mut v, self.status.as_str());
        v.push('\r');
        v.push('\n');
        push_headers(&mut v, &self.headers);
        v.push('\r');
        v.push('\n');
        push_str(&mut v, self.body.as_str());
        assert(v@ =~= self.wire());
        string_from_chars(&v)
    }

    /// The serialised response as UTF-8 bytes.
    pub fn to_bytes(&self) -> (r: Vec<u8>)
        ensures
            r@ == encode_utf8(self.wire()),
    {
        let text = self.to_string();
        let bytes = text.as_str().as_bytes();
        let mut out: Vec<u8> = Vec::new();
        let mut i: usize = 0;
        while i < bytes.len()
            invariant
                i <= bytes@.len(),
                out@ == bytes@.take(i as int),
            decreases bytes@.len() - i,
        {
            out.push(bytes[i]);
            i += 1;
        }
        assert(out@ =~= bytes@);
        out
    }
}

} // verus!

verus! {

/// The blank line that ends the header block.
pub open spec fn header_end() -> Seq<char> {
    seq!['\r', '\n', '\r', '\n']
}

/// A header line split at its first `:`, the value trimmed of surrounding whitespace.
pub open spec fn field_of(line: Seq<char>) -> Option<(Seq<char>, Seq<char>)> {
    let k = find_from(line, seq![':'], 0);
    if k < 0 {
        None
    } else {
        Some((line.take(k), trim(line.skip(k + 1))))
    }
}

/// The header list from `lines[i..]` added to `h` in order, or None when a line has no `:`.
pub open spec fn fields_from(lines: Seq<Seq<char>>, h: HeaderList, i: int) -> Option<HeaderList>
    decreases lines.len() - i,
{
    if i < 0 || i >= lines.len() {
        Some(h)
    } else {
        match field_of(lines[i]) {
            None => None,
            Some(f) => fields_from(lines, upsert(h, f.0, f.1), i + 1),
        }
    }
}

/// What parsing the text `s` of a request gives.
pub open spec fn parse_spec(s: Seq<char>) -> Result<RequestParts, Error> {
    let k = find_from(s, header_end(), 0);
    if k < 0 {
        Err(Error::MalformedRequest)
    } else {
        let lines = split(s.take(k), crlf());
        let tokens = split(lines[0], seq![' ']);
        if tokens.len() != 3 {
            Err(Error::MalformedRequest)
        } else {
            match method_of(tokens[0]) {
                None => Err(Error::UnknownMethod),
                Some(m) => if tokens[2] != http11() {
                    Err(Error::UnsupportedVersion)
                } else {
                    match fields_from(lines, Seq::empty(), 1) {
                        None => Err(Error::MalformedRequest),
                        Some(h) => Ok((m, tokens[1], Version::OneDotOne, h, s.skip(k + 4))),
                    }
                },
            }
        }
    }
}

proof fn lemma_chars_deep_view(v: Vec<char>)
    ensures
        v.deep_view() == v@,
{
    assert(v.deep_view() =~= v@);
}

proof fn lemma_split_nonempty(s: Seq<char>, pat: Seq<char>)
    requires
        pat.len() > 0,
    ensures
        split(s, pat).len() >= 1,
{
    crate::text::lemma_find_from_bounds(s, pat, 0);
}

fn field_from_line(line: &Vec<char>) -> (r: Option<(String, String)>)
    ensures
        match r {
            Some(f) => field_of(line@) == Some((f.0@, f.1@)),
            None => field_of(line@) is None,
        },
{
    proof {
        crate::text::lemma_find_from_bounds(line@, seq![':'], 0);
    }
    let colon = [':'];
    assert(colon@ == seq![':']);
    match crate::text::find(line, &colon, 0) {
        None => None,
        Some(k) => {
            let name = crate::text::copy_range(line, 0, k);
            let n = line.len();
            let rest = crate::text::copy_range(line, k + 1, n);
            let value = crate::text::trim_chars(&rest);
            assert(name@ =~= line@.take(k as int));
            assert(rest@ =~= line@.skip(k + 1));
            Some((string_from_chars(&name), string_from_chars(&value)))
        },
    }
}

impl Request {
    /// Parses the text of a request. The header block ends at the first blank line;
    /// everything after it is the body.
    pub fn parse(string: &str) -> (r: Result<Request, Error>)
        ensures
            match r {
                Ok(req) => parse_spec(string@) == Ok::<RequestParts, Error>(req.parts()),
                Err(e) => parse_spec(string@) == Err::<RequestParts, Error>(e),
            },
    {
        let chars = chars_of(string);
        let end = ['\r', '\n', '\r', '\n'];
        assert(end@ == header_end());
        proof {
            crate::text::lemma_find_from_bounds(chars@, header_end(), 0);
        }
        let k = match crate::text::find(&chars, &end, 0) {
            None => return Err(Error::MalformedRequest),
            Some(k) => k,
        };
        let n = chars.len();
        let head = crate::text::copy_range(&chars, 0, k);
        let body_chars = crate::text::copy_range(&chars, k + 4, n);
        assert(head@ =~= chars@.take(k as int));
        assert(body_chars@ =~= chars@.skip(k + 4));
        let newline = ['\r', '\n'];
        assert(newline@ == crlf());
        let lines = crate::text::split_all(&head, &newline);
        proof {
            lemma_split_nonempty(head@, crlf());
        }
        let ghost line_seqs = lines.deep_view();
        assert(line_seqs.len() == lines@.len());
        proof {
            lemma_chars_deep_view(lines@[0]);
        }
        let space = [' '];
        assert(space@ == seq![' ']);
        let tokens = crate::text::split_all(&lines[0], &space);
        if tokens.len() != 3 {
            return Err(Error::MalformedRequest);
        }
        proof {
            lemma_chars_deep_view(tokens@[0]);
            lemma_chars_deep_view(tokens@[1]);
            lemma_chars_deep_view(tokens@[2]);
        }
        let method = match Method::from_chars(&tokens[0]) {
            None => return Err(Error::UnknownMethod),
            Some(m) => m,
        };
        if Version::from_chars(&tokens[2]).is_err() {
            return Err(Error::UnsupportedVersion);
        }
        let ghost path = tokens@[1]@;
        assert(parse_spec(string@) == match fields_from(line_seqs, Seq::empty(), 1) {
            None => Err(Error::MalformedRequest),
            Some(h) => Ok((method, path, Version::OneDotOne, h, body_chars@)),
        });
        let mut headers = Headers::new();
        let mut i: usize = 1;
        while i < lines.len()
            invariant
                1 <= i <= lines@.len(),
                path == tokens@[1]@,
                parse_spec(string@) == match fields_from(line_seqs, Seq::empty(), 1) {
                    None => Err(Error::MalformedRequest),
                    Some(h) => Ok((method, path, Version::OneDotOne, h, body_chars@)),
                },
                line_seqs == lines.deep_view(),
                line_seqs == split(chars@.take(k as int), crlf()),
                fields_from(line_seqs, Seq::empty(), 1) == fields_from(
                    line_seqs,
                    headers@,
                    i as int,
                ),
            decreases lines@.len() - i,
        {
            proof {
                lemma_chars_deep_view(lines@[i as int]);
            }
            assert(line_seqs[i as int] == lines@[i as int]@);
            match field_from_line(&lines[i]) {
                None => {
                    assert(fields_from(line_seqs, headers@, i as int) is None);
                    return Err(Error::MalformedRequest);
                },
                Some(field) => {
                    headers.insert(field.0.as_str(), field.1.as_str());
                },
            }
            i += 1;
        }
        let path = string_from_chars(&tokens[1]);
        Ok(
            Request {
                method,
                uri: Uri { path },
                version: Version::OneDotOne,
                headers,
                body: string_from_chars(&body_chars),
            },
        )
    }
}

} // verus!

verus! {

/// The first line of a request's text, without its line break.
pub fn request_line(text: &str) -> (r: String)
    ensures
        r@ == split(text@, crlf())[0],
{
    let chars = chars_of(text);
    let newline = ['\r', '\n'];
    assert(newline@ == crlf());
    let lines = crate::text::split_all(&chars, &newline);
    proof {
        lemma_split_nonempty(chars@, crlf());
        lemma_chars_deep_view(lines@[0]);
    }
    string_from_chars(&lines[0])
}

} // verus!

verus! {

/// Text that never holds a blank line after a line break (`\r\n\r\n`) does not parse: it
/// is a malformed request.
pub proof fn lemma_parse_needs_header_end(s: Seq<char>)
    requires
        forall|i: int| 0 <= i && i + 4 <= s.len() ==> #[trigger] s.subrange(i, i + 4) != header_end(),
    ensures
        parse_spec(s) == Err::<RequestParts, Error>(Error::MalformedRequest),
{
    crate::text::lemma_find_from_absent(s, header_end(), 0);
}

} // verus!

verus! {

/// The header lines of a list, without their line breaks.
pub open spec fn header_lines(h: HeaderList) -> Seq<Seq<char>> {
    h.map_values(|e: (Seq<char>, Seq<char>)| e.0 + seq![':', ' '] + e.1)
}

/// Whether a request can be written out and read back: the path holds no space and no
/// line break; header names hold no colon and no line break; values hold no line break;
/// names differ up to case.
pub open spec fn serialisable(req: Request) -> bool {
    let h = req.headers@;
    &&& lacks(req.uri.path@, ' ')
    &&& no_crlf(req.uri.path@)
    &&& forall|i: int|
        0 <= i < h.len() ==> {
            &&& lacks(#[trigger] h[i].0, ':')
            &&& no_crlf(h[i].0)
            &&& no_crlf(h[i].1)
        }
    &&& unique_names(h)
}

/// A header list with every value trimmed of surrounding whitespace.
pub open spec fn trimmed_values(h: HeaderList) -> HeaderList {
    h.map_values(|e: (Seq<char>, Seq<char>)| (e.0, trim(e.1)))
}

proof fn lemma_method_text(m: Method)
    ensures
        method_of(method_text(m)) == Some(m),
        lacks(method_text(m), ' '),
        lacks(method_text(m), '\r'),
        method_text(m).len() > 0,
{
    let t = method_text(m);
    assert(method_text(Method::Get)[0] == 'G');
    assert(method_text(Method::Head)[0] == 'H');
    assert(method_text(Method::Post)[1] == 'O');
    assert(method_text(Method::Put)[1] == 'U');
    assert(method_text(Method::Delete)[0] == 'D');
    assert(method_text(Method::Connect)[0] == 'C');
    assert(method_text(Method::Options)[0] == 'O');
    assert(method_text(Method::Trace)[0] == 'T');
    assert(method_text(Method::Post)[0] == 'P');
    assert(method_text(Method::Put)[0] == 'P');
    assert(method_text(Method::Trace)[1] == 'R');
    assert(method_text(Method::Get)[1] == 'E');
    assert(method_text(Method::Head)[1] == 'E');
    assert forall|i: int| 0 <= i < t.len() implies #[trigger] t[i] != ' ' && t[i] != '\r' by {
        match m {
            Method::Get => assert(t == seq!['G', 'E', 'T']),
            Method::Head => assert(t == seq!['H', 'E', 'A', 'D']),
            Method::Post => assert(t == seq!['P', 'O', 'S', 'T']),
            Method::Put => assert(t == seq!['P', 'U', 'T']),
            Method::Delete => assert(t == seq!['D', 'E', 'L', 'E', 'T', 'E']),
            Method::Connect => assert(t == seq!['C', 'O', 'N', 'N', 'E', 'C', 'T']),
            Method::Options => assert(t == seq!['O', 'P', 'T', 'I', 'O', 'N', 'S']),
            Method::Trace => assert(t == seq!['T', 'R', 'A', 'C', 'E']),
        }
    }
}

proof fn lemma_version_text()
    ensures
        lacks(http11(), ' '),
        lacks(http11(), '\r'),
{
}

proof fn lemma_skip_spaces_shift(v: Seq<char>, i: int)
    requires
        0 <= i <= v.len(),
    ensures
        skip_spaces(seq![' '] + v, 1 + i) == 1 + skip_spaces(v, i),
        i <= skip_spaces(v, i) <= v.len(),
    decreases v.len() - i,
{
    let s = seq![' '] + v;
    if i < v.len() {
        assert(s[1 + i] == v[i]);
        if is_space(v[i]) {
            lemma_skip_spaces_shift(v, i + 1);
        }
    }
}

proof fn lemma_drop_trailing_shift(v: Seq<char>, lo: int, j: int)
    requires
        0 <= lo <= j <= v.len(),
    ensures
        drop_trailing_spaces(seq![' '] + v, 1 + lo, 1 + j) == 1 + drop_trailing_spaces(v, lo, j),
        lo <= drop_trailing_spaces(v, lo, j) <= j,
    decreases j - lo,
{
    let s = seq![' '] + v;
    if lo < j {
        assert(s[j] == v[j - 1]);
        if is_space(v[j - 1]) {
            lemma_drop_trailing_shift(v, lo, j - 1);
        }
    }
}

/// A space in front changes nothing once trimmed.
proof fn lemma_trim_space(v: Seq<char>)
    ensures
        trim(seq![' '] + v) == trim(v),
{
    let s = seq![' '] + v;
    assert(s[0] == ' ');
    lemma_skip_spaces_shift(v, 0);
    assert(skip_spaces(s, 0) == skip_spaces(s, 1));
    let a = skip_spaces(v, 0);
    lemma_drop_trailing_shift(v, a, v.len() as int);
    let b = drop_trailing_spaces(v, a, v.len() as int);
    assert(s.subrange(1 + a, 1 + b) =~= v.subrange(a, b));
}

proof fn lemma_field_line(name: Seq<char>, value: Seq<char>)
    requires
        lacks(name, ':'),
    ensures
        field_of(name + seq![':', ' '] + value) == Some((name, trim(value))),
{
    let line = name + seq![':', ' '] + value;
    let x = seq![':', ' '] + value;
    assert(line =~= name + x);
    crate::text::lemma_find_from_skip(name, x, seq![':'], 0);
    crate::text::lemma_find_from_shift(name, x, seq![':'], 0);
    assert(x.subrange(0, 1) =~= seq![':']);
    assert(line.take(name.len() as int) =~= name);
    assert(line.skip(name.len() as int + 1) =~= seq![' '] + value);
    lemma_trim_space(value);
}

proof fn lemma_headers_join(l0: Seq<char>, h: HeaderList)
    ensures
        l0 + crlf() + headers_text(h) == join_lines(seq![l0] + header_lines(h)) + crlf(),
    decreases h.len(),
{
    if h.len() == 0 {
        assert(seq![l0] + header_lines(h) =~= seq![l0]);
        assert(join_lines(seq![l0]) == l0);
        assert(l0 + crlf() + headers_text(h) =~= l0 + crlf());
    } else {
        let hp = h.drop_last();
        lemma_headers_join(l0, hp);
        let line = h.last().0 + seq![':', ' '] + h.last().1;
        assert(seq![l0] + header_lines(h) =~= (seq![l0] + header_lines(hp)).push(line));
        crate::text::lemma_join_push(seq![l0] + header_lines(hp), line);
        assert(l0 + crlf() + headers_text(h) =~= (l0 + crlf() + headers_text(hp)) + line + crlf());
    }
}

pub proof fn lemma_index_from_absent(h: HeaderList, name: Seq<char>, i: int)
    requires
        0 <= i,
        forall|j: int| i <= j < h.len() ==> !eq_ignore_case(#[trigger] h[j].0, name),
    ensures
        index_from(h, name, i) == -1,
    decreases h.len() - i,
{
    if i < h.len() {
        lemma_index_from_absent(h, name, i + 1);
    }
}

proof fn lemma_index_trimmed(h: HeaderList, name: Seq<char>, i: int)
    requires
        0 <= i,
    ensures
        index_from(trimmed_values(h), name, i) == index_from(h, name, i),
    decreases h.len() - i,
{
    if i < h.len() {
        assert(trimmed_values(h)[i].0 == h[i].0);
        lemma_index_trimmed(h, name, i + 1);
    }
}

proof fn lemma_fields(req: Request, lines: Seq<Seq<char>>, i: int)
    requires
        serialisable(req),
        lines.len() == req.headers@.len() + 1,
        forall|j: int| 1 <= j < lines.len() ==> #[trigger] lines[j] == header_lines(req.headers@)[j - 1],
        1 <= i <= lines.len(),
    ensures
        fields_from(lines, trimmed_values(req.headers@).take(i - 1), i) == Some(trimmed_values(req.headers@)),
    decreases lines.len() - i,
{
    let h = req.headers@;
    let th = trimmed_values(h);
    if i == lines.len() {
        assert(th.take(i - 1) =~= th);
    } else {
        let e = h[i - 1];
        assert(lines[i] == e.0 + seq![':', ' '] + e.1);
        lemma_field_line(e.0, e.1);
        let acc = th.take(i - 1);
        assert forall|j: int| 0 <= j < acc.len() implies !eq_ignore_case(#[trigger] acc[j].0, e.0) by {
            assert(acc[j].0 == h[j].0);
        }
        lemma_index_from_absent(acc, e.0, 0);
        assert(upsert(acc, e.0, trim(e.1)) =~= th.take(i));
        lemma_fields(req, lines, i + 1);
    }
}

/// Parsing the wire form of a request gives back its method, path, version and body,
/// and its headers with each value trimmed; so each header reads back, by any case of
/// its name, as its value trimmed.
pub proof fn lemma_request_round_trip(req: Request)
    requires
        serialisable(req),
    ensures
        parse_spec(req.wire()) == Ok::<RequestParts, Error>(
            (req.method, req.uri.path@, req.version, trimmed_values(req.headers@), req.body@),
        ),
        forall|name: Seq<char>|
            #[trigger] lookup(trimmed_values(req.headers@), name) == match lookup(
                req.headers@,
                name,
            ) {
                Some(v) => Some(trim(v)),
                None => None,
            },
{
    let h = req.headers@;
    let m = method_text(req.method);
    let path = req.uri.path@;
    let v = version_text(req.version);
    let l0 = m + seq![' '] + path + seq![' '] + v;
    let lines = seq![l0] + header_lines(h);
    let joined = join_lines(lines);
    let body = req.body@;
    lemma_headers_join(l0, h);
    assert(req.wire() =~= joined + header_end() + body) by {
        assert(req.wire() =~= (l0 + crlf() + headers_text(h)) + crlf() + body);
    }
    lemma_method_text(req.method);
    lemma_version_text();
    assert(v == http11());
    lemma_lacks_no_crlf(m);
    lemma_lacks_no_crlf(v);
    lemma_lacks_no_crlf(seq![' ']);
    lemma_no_crlf_concat(m, seq![' ']);
    lemma_no_crlf_concat(m + seq![' '], path);
    lemma_no_crlf_concat(m + seq![' '] + path, seq![' ']);
    lemma_no_crlf_concat(m + seq![' '] + path + seq![' '], v);
    assert forall|i: int| 0 <= i < lines.len() implies no_crlf(#[trigger] lines[i]) && lines[i].len() > 0 by {
        if i > 0 {
            let e = h[i - 1];
            assert(lines[i] == e.0 + seq![':', ' '] + e.1);
            lemma_lacks_no_crlf(seq![':', ' ']);
            lemma_no_crlf_concat(e.0, seq![':', ' ']);
            lemma_no_crlf_concat(e.0 + seq![':', ' '], e.1);
        }
    }
    crate::text::lemma_find_blank_line_crlf(lines, header_end(), body);
    let s = req.wire();
    let k = joined.len() as int;
    assert(s.take(k) =~= joined);
    assert(s.skip(k + 4) =~= body);
    crate::text::lemma_split_join_crlf(lines);
    assert(lines[0] == l0);
    crate::text::lemma_split_cons(m, seq![' '], path + seq![' '] + v);
    assert(l0 =~= m + seq![' '] + (path + seq![' '] + v));
    crate::text::lemma_split_cons(path, seq![' '], v);
    crate::text::lemma_split_single(v, seq![' ']);
    assert(split(l0, seq![' ']) =~= seq![m, path, v]);
    assert forall|j: int| 1 <= j < lines.len() implies #[trigger] lines[j] == header_lines(h)[j - 1] by {}
    lemma_fields(req, lines, 1);
    assert(trimmed_values(h).take(0) =~= Seq::<(Seq<char>, Seq<char>)>::empty());
    assert forall|name: Seq<char>|
        #[trigger] lookup(trimmed_values(h), name) == match lookup(h, name) {
            Some(x) => Some(trim(x)),
            None => None,
        } by {
        lemma_index_trimmed(h, name, 0);
    }
}

} // verus!
