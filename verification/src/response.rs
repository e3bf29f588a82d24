//! Responses, and how a file is framed and handed out.
//!
//! A response names its body without holding a file's bytes: a file is
//! described by its path, the first byte to send and the number of bytes.
//! A [`Transfer`] then walks that stretch in reads of bounded length.

use vstd::prelude::*;
use vstd::utf8::encode_utf8;
use crate::entry::EntryInfo;
use crate::entry::EntryView;
use crate::range::ByteRange;
use crate::text::decimal;
use crate::text::format_decimal;
use crate::text::push_char;

verus! {

/// The status of a response.
#[derive(Clone, Copy, Debug, PartialEq, Eq, Structural)]
pub enum Status {
    Success,
    PartialContent,
    NotFound,
    InternalServerError,
}

impl Status {
    /// The status code on the wire.
    pub open spec fn code_of(self) -> u16 {
        match self {
            Status::Success => 200,
            Status::PartialContent => 206,
            Status::NotFound => 404,
            Status::InternalServerError => 500,
        }
    }

    /// The status code on the wire.
    pub fn code(&self) -> (out: u16)
        ensures
            out == self.code_of(),
    {
        match self {
            Status::Success => 200,
            Status::PartialContent => 206,
            Status::NotFound => 404,
            Status::InternalServerError => 500,
        }
    }
}

/// One header line of a response.
#[derive(Clone, Debug, PartialEq, Eq)]
pub struct Header {
    pub name: String,
    pub value: String,
}

/// What a [`Header`] stands for.
pub struct HeaderView {
    pub name: Seq<char>,
    pub value: Seq<char>,
}

impl View for Header {
    type V = HeaderView;

    open spec fn view(&self) -> HeaderView {
        HeaderView { name: self.name@, value: self.value@ }
    }
}

impl Header {
    fn of(name: &str, value: String) -> (out: Header)
        ensures
            out@ == (HeaderView { name: name@, value: value@ }),
    {
        Header { name: String::from_str(name), value }
    }
}

/// The body of a response.
#[derive(Clone, Debug, PartialEq, Eq)]
pub enum Body {
    /// Text, sent as its UTF-8 bytes.
    Text(String),
    /// `length` bytes of the file at `path`, from the byte at `start` on.
    File { path: String, start: u64, length: u64 },
}

/// What a [`Body`] stands for.
pub enum BodyView {
    Text(Seq<char>),
    File { path: Seq<char>, start: u64, length: u64 },
}

impl View for Body {
    type V = BodyView;

    open spec fn view(&self) -> BodyView {
        match *self {
            Body::Text(text) => BodyView::Text(text@),
            Body::File { path, start, length } => BodyView::File { path: path@, start, length },
        }
    }
}

impl BodyView {
    /// The bytes that go out, where `content` is what the file named by the
    /// body holds.
    pub open spec fn bytes(&self, content: Seq<u8>) -> Seq<u8> {
        match *self {
            BodyView::Text(text) => encode_utf8(text),
            BodyView::File { path, start, length } => content.subrange(
                start as int,
                start + length,
            ),
        }
    }
}

/// A response: status, headers in the order they are sent, body.
#[derive(Clone, Debug, PartialEq, Eq)]
pub struct Response {
    pub status: Status,
    pub headers: Vec<Header>,
    pub body: Body,
}

/// What a [`Response`] stands for.
pub struct ResponseView {
    pub status: Status,
    pub headers: Seq<HeaderView>,
    pub body: BodyView,
}

/// What each of `headers` stands for.
pub open spec fn header_views(headers: Seq<Header>) -> Seq<HeaderView> {
    headers.map_values(|header: Header| header@)
}

impl View for Response {
    type V = ResponseView;

    open spec fn view(&self) -> ResponseView {
        ResponseView {
            status: self.status,
            headers: header_views(self.headers@),
            body: self.body@,
        }
    }
}

/// The header `Content-Type: <media_type>`.
pub open spec fn content_type(media_type: Seq<char>) -> HeaderView {
    HeaderView { name: "Content-Type"@, value: media_type }
}

/// The header `Content-Length: <length>`, the length in decimal.
pub open spec fn content_length(length: nat) -> HeaderView {
    HeaderView { name: "Content-Length"@, value: decimal(length) }
}

/// The header `Content-Range: bytes <start>-<end>/<file_size>` for the range
/// `range` of a file of `file_size` bytes.
pub open spec fn content_range(range: ByteRange, file_size: u64) -> HeaderView {
    HeaderView {
        name: "Content-Range"@,
        value: "bytes "@ + decimal(range.start as nat) + seq!['-'] + decimal(range.end as nat)
            + seq!['/'] + decimal(file_size as nat),
    }
}

/// The response that carries the text `text` of type `media_type` under
/// `status`. `Content-Length` counts the bytes of the text's UTF-8 form.
pub open spec fn text_response(
    status: Status,
    media_type: Seq<char>,
    text: Seq<char>,
) -> ResponseView {
    ResponseView {
        status,
        headers: seq![content_type(media_type), content_length(encode_utf8(text).len())],
        body: BodyView::Text(text),
    }
}

/// The response that carries the page `page`: status 200, declared as HTML
/// in UTF-8.
pub open spec fn page_response(page: Seq<char>) -> ResponseView {
    text_response(Status::Success, "text/html; charset=utf-8"@, page)
}

/// The 404: a few plain words that say nothing of the disk.
pub open spec fn not_found_response() -> ResponseView {
    text_response(Status::NotFound, "text/plain; charset=utf-8"@, "Not Found"@)
}

/// The 500: a few plain words that say nothing of the fault.
pub open spec fn internal_error_response() -> ResponseView {
    text_response(
        Status::InternalServerError,
        "text/plain; charset=utf-8"@,
        "Internal Server Error"@,
    )
}

/// The response that hands out the file `info`. Without a range: status 200
/// and the whole file. With one: status 206, the bytes of the range, and the
/// range and the file's length in `Content-Range`. `Content-Length` counts
/// the bytes of the body.
pub open spec fn file_response(info: EntryView, range: Option<ByteRange>) -> ResponseView {
    match range {
        None => ResponseView {
            status: Status::Success,
            headers: seq![content_length(info.size as nat)],
            body: BodyView::File { path: info.absolute_path, start: 0, length: info.size },
        },
        Some(r) => ResponseView {
            status: Status::PartialContent,
            headers: seq![content_range(r, info.size), content_length(r.count() as nat)],
            body: BodyView::File {
                path: info.absolute_path,
                start: r.start,
                length: r.count() as u64,
            },
        },
    }
}

/// The value of `name` in `headers`: that of the first header of that name.
pub open spec fn header_value(headers: Seq<HeaderView>, name: Seq<char>) -> Option<Seq<char>>
    decreases headers.len(),
{
    if headers.len() == 0 {
        None
    } else if headers[0].name == name {
        Some(headers[0].value)
    } else {
        header_value(headers.drop_first(), name)
    }
}

/// The response as it goes out once the caller has tried to open what the
/// body names: a file that cannot be opened turns the response into the 500;
/// otherwise the response stands.
pub open spec fn confirmed(response: ResponseView, opened: bool) -> ResponseView {
    if response.body is File && !opened {
        internal_error_response()
    } else {
        response
    }
}

impl Response {
    fn text(status: Status, media_type: &str, text: &str) -> (out: Response)
        ensures
            out@ == text_response(status, media_type@, text@),
    {
        let length = format_decimal(text.as_bytes().len() as u64);
        let mut headers: Vec<Header> = Vec::new();
        headers.push(Header::of("Content-Type", String::from_str(media_type)));
        headers.push(Header::of("Content-Length", length));
        proof {
            assert(header_views(headers@) =~= seq![
                content_type(media_type@),
                content_length(encode_utf8(text@).len()),
            ]);
        }
        Response { status, headers, body: Body::Text(String::from_str(text)) }
    }

    /// The response that carries the page `page`.
    pub fn html(page: &str) -> (out: Response)
        ensures
            out@ == page_response(page@),
    {
        Response::text(Status::Success, "text/html; charset=utf-8", page)
    }

    /// The 404.
    pub fn not_found() -> (out: Response)
        ensures
            out@ == not_found_response(),
    {
        Response::text(Status::NotFound, "text/plain; charset=utf-8", "Not Found")
    }

    /// The 500.
    pub fn internal_error() -> (out: Response)
        ensures
            out@ == internal_error_response(),
    {
        Response::text(
            Status::InternalServerError,
            "text/plain; charset=utf-8",
            "Internal Server Error",
        )
    }

    /// The value of the header `name`, if the response has one.
    pub fn header(&self, name: &str) -> (out: Option<String>)
        ensures
            out is Some <==> header_value(self@.headers, name@) is Some,
            out is Some ==> out->0@ == header_value(self@.headers, name@)->0,
    {
        let wanted = String::from_str(name);
        let mut i: usize = 0;
        let ghost all = header_views(self.headers@);
        assert(all.skip(0) =~= all);
        while i < self.headers.len()
            invariant
                i <= self.headers@.len(),
                wanted@ == name@,
                all == header_views(self.headers@),
                header_value(all, name@) == header_value(all.skip(i as int), name@),
            decreases self.headers@.len() - i,
        {
            proof {
                let rest = all.skip(i as int);
                assert(rest[0] == self.headers@[i as int]@);
                assert(rest.drop_first() =~= all.skip(i + 1));
            }
            if self.headers[i].name == wanted {
                return Some(self.headers[i].value.clone());
            }
            i += 1;
        }
        None
    }

    /// The response as it goes out once the caller has tried to open what the
    /// body names.
    pub fn confirm(self, opened: bool) -> (out: Response)
        ensures
            out@ == confirmed(self@, opened),
    {
        let unreadable: bool = match &self.body {
            Body::File { .. } => !opened,
            Body::Text(_) => false,
        };
        if unreadable {
            Response::internal_error()
        } else {
            self
        }
    }
}

/// With the file's bytes at hand, a response without a range sends them all,
/// and one with a range sends the bytes from its start to its end, both
/// included.
pub proof fn lemma_file_response_bytes(info: EntryView, range: Option<ByteRange>, content: Seq<u8>)
    requires
        content.len() == info.size,
        range is Some ==> range->0.within(info.size),
    ensures
        file_response(info, range).body.bytes(content) == match range {
            None => content,
            Some(r) => content.subrange(r.start as int, r.end + 1),
        },
{
    assert(content.subrange(0, info.size as int) =~= content);
}

/// The response that hands out the file `info`: all of it, or the bytes of
/// `range`.
pub fn respond(info: &EntryInfo, range: Option<ByteRange>) -> (out: Response)
    requires
        range is Some ==> range->0.within(info.size),
    ensures
        out@ == file_response(info@, range),
{
    let path = info.absolute_path.clone();
    match range {
        None => {
            let mut headers: Vec<Header> = Vec::new();
            headers.push(Header::of("Content-Length", format_decimal(info.size)));
            proof {
                assert(header_views(headers@) =~= seq![content_length(info.size as nat)]);
            }
            Response {
                status: Status::Success,
                headers,
                body: Body::File { path, start: 0, length: info.size },
            }
        },
        Some(r) => {
            let length: u64 = r.length();
            let mut value = String::from_str("bytes ");
            value.append(format_decimal(r.start).as_str());
            push_char(&mut value, '-');
            value.append(format_decimal(r.end).as_str());
            push_char(&mut value, '/');
            value.append(format_decimal(info.size).as_str());
            proof {
                let a = "bytes "@ + decimal(r.start as nat);
                assert(a.push('-') =~= a + seq!['-']);
                let b = a + seq!['-'] + decimal(r.end as nat);
                assert(b.push('/') =~= b + seq!['/']);
            }
            let mut headers: Vec<Header> = Vec::new();
            headers.push(Header::of("Content-Range", value));
            headers.push(Header::of("Content-Length", format_decimal(length)));
            proof {
                assert(header_views(headers@) =~= seq![
                    content_range(r, info.size),
                    content_length(r.count() as nat),
                ]);
            }
            Response {
                status: Status::PartialContent,
                headers,
                body: Body::File { path, start: r.start, length },
            }
        },
    }
}

/// The most bytes that one read asks for.
pub const CHUNK: u64 = 65536;

/// One read of a file: `length` bytes from the byte at `at` on.
#[derive(Clone, Copy, Debug, PartialEq, Eq, Structural)]
pub struct Read {
    pub at: u64,
    pub length: usize,
}

/// The state of handing out a stretch of a file: what has been read, and
/// what is left to read.
#[derive(Clone, Copy, Debug, PartialEq, Eq, Structural)]
pub struct Transfer {
    /// The place of the next byte to read.
    pub at: u64,
    /// The number of bytes still to read.
    pub left: u64,
}

impl Transfer {
    /// The place behind the last byte of the stretch.
    pub open spec fn end(&self) -> int {
        self.at + self.left
    }

    /// The length of the next read: what is left, and at most `CHUNK`.
    pub open spec fn next_length(&self) -> int {
        if self.left < CHUNK {
            self.left as int
        } else {
            CHUNK as int
        }
    }

    /// The transfer of `length` bytes from the byte at `start` on, with
    /// nothing read yet.
    pub fn begin(start: u64, length: u64) -> (out: Transfer)
        ensures
            out.at == start,
            out.left == length,
    {
        Transfer { at: start, left: length }
    }

    /// The next read, or `None` when nothing is left.
    pub fn next_read(&self) -> (out: Option<Read>)
        ensures
            out is None <==> self.left == 0,
            out is Some ==> out->0.at == self.at && out->0.length == self.next_length(),
    {
        if self.left == 0 {
            None
        } else if self.left < CHUNK {
            Some(Read { at: self.at, length: self.left as usize })
        } else {
            Some(Read { at: self.at, length: CHUNK as usize })
        }
    }

    /// Takes note that the last read gave `got` bytes. `true` where the read
    /// made progress within what was asked for: the transfer then moves on by
    /// `got` bytes, so that the next read begins where this one ended, and
    /// the stretch ends where it did. `false` where the read gave nothing or
    /// too much, as when the file was cut short: the transfer stays, and the
    /// body cannot be completed.
    pub fn advance(&mut self, got: usize) -> (out: bool)
        ensures
            out == (0 < got <= old(self).next_length() && old(self).end() <= u64::MAX),
            out ==> final(self).at == old(self).at + got && final(self).left == old(self).left
                - got && final(self).end() == old(self).end(),
            !out ==> *final(self) == *old(self),
    {
        let limit: u64 = if self.left < CHUNK {
            self.left
        } else {
            CHUNK
        };
        if got == 0 || got as u64 > limit || self.left > u64::MAX - self.at {
            return false;
        }
        self.at = self.at + got as u64;
        self.left = self.left - got as u64;
        true
    }
}

} // verus!
