use httpd::entry::EntryInfo;
use httpd::range::ByteRange;
use httpd::response::respond;
use httpd::response::Body;
use httpd::response::Header;
use httpd::response::Read;
use httpd::response::Response;
use httpd::response::Status;
use httpd::response::Transfer;
use httpd::response::CHUNK;

fn header(name: &str, value: &str) -> Header {
    Header { name: name.to_string(), value: value.to_string() }
}

fn file(path: &str, size: u64) -> EntryInfo {
    EntryInfo { absolute_path: path.to_string(), is_directory: false, size }
}

#[test]
fn status_codes() {
    assert_eq!(Status::Success.code(), 200);
    assert_eq!(Status::PartialContent.code(), 206);
    assert_eq!(Status::NotFound.code(), 404);
    assert_eq!(Status::InternalServerError.code(), 500);
}

#[test]
fn full_file_without_a_range() {
    let out = respond(&file("/srv/www/a.bin", 1234), None);
    assert_eq!(out.status, Status::Success);
    assert_eq!(out.status.code(), 200);
    assert_eq!(out.headers, vec![header("Content-Length", "1234")]);
    assert_eq!(
        out.body,
        Body::File { path: "/srv/www/a.bin".to_string(), start: 0, length: 1234 }
    );
}

#[test]
fn empty_file_without_a_range() {
    let out = respond(&file("/srv/www/empty", 0), None);
    assert_eq!(out.status, Status::Success);
    assert_eq!(out.headers, vec![header("Content-Length", "0")]);
    assert_eq!(out.body, Body::File { path: "/srv/www/empty".to_string(), start: 0, length: 0 });
}

#[test]
fn ten_bytes_of_a_file() {
    let out = respond(&file("/srv/www/a.bin", 100), Some(ByteRange { start: 10, end: 19 }));
    assert_eq!(out.status, Status::PartialContent);
    assert_eq!(out.status.code(), 206);
    assert_eq!(
        out.headers,
        vec![header("Content-Range", "bytes 10-19/100"), header("Content-Length", "10")]
    );
    assert_eq!(
        out.body,
        Body::File { path: "/srv/www/a.bin".to_string(), start: 10, length: 10 }
    );
}

#[test]
fn last_byte_of_a_file() {
    let out = respond(&file("/f", 5), Some(ByteRange { start: 4, end: 4 }));
    assert_eq!(out.status, Status::PartialContent);
    assert_eq!(
        out.headers,
        vec![header("Content-Range", "bytes 4-4/5"), header("Content-Length", "1")]
    );
    assert_eq!(out.body, Body::File { path: "/f".to_string(), start: 4, length: 1 });
}

#[test]
fn whole_file_as_a_range() {
    let size = u64::MAX;
    let out = respond(&file("/huge", size), Some(ByteRange { start: 0, end: size - 1 }));
    assert_eq!(out.status, Status::PartialContent);
    assert_eq!(
        out.headers,
        vec![
            header("Content-Range", "bytes 0-18446744073709551614/18446744073709551615"),
            header("Content-Length", "18446744073709551615"),
        ]
    );
    assert_eq!(out.body, Body::File { path: "/huge".to_string(), start: 0, length: size });
}

#[test]
fn not_found_is_a_few_plain_words() {
    let out = Response::not_found();
    assert_eq!(out.status, Status::NotFound);
    assert_eq!(
        out.headers,
        vec![header("Content-Type", "text/plain; charset=utf-8"), header("Content-Length", "9")]
    );
    assert_eq!(out.body, Body::Text("Not Found".to_string()));
}

#[test]
fn internal_error_is_a_few_plain_words() {
    let out = Response::internal_error();
    assert_eq!(out.status, Status::InternalServerError);
    assert_eq!(
        out.headers,
        vec![header("Content-Type", "text/plain; charset=utf-8"), header("Content-Length", "21")]
    );
    assert_eq!(out.body, Body::Text("Internal Server Error".to_string()));
}

#[test]
fn html_counts_bytes_not_characters() {
    let out = Response::html("<p>é</p>");
    assert_eq!(out.status, Status::Success);
    assert_eq!(
        out.headers,
        vec![header("Content-Type", "text/html; charset=utf-8"), header("Content-Length", "9")]
    );
    assert_eq!(out.body, Body::Text("<p>é</p>".to_string()));
}

#[test]
fn header_gives_the_first_value_of_a_name() {
    let out = respond(&file("/f", 100), Some(ByteRange { start: 1, end: 2 }));
    assert_eq!(out.header("Content-Range"), Some("bytes 1-2/100".to_string()));
    assert_eq!(out.header("Content-Length"), Some("2".to_string()));
    assert_eq!(out.header("Content-Type"), None);
    assert_eq!(out.header("content-length"), None);
    let twice = Response {
        status: Status::Success,
        headers: vec![header("X", "1"), header("X", "2")],
        body: Body::Text(String::new()),
    };
    assert_eq!(twice.header("X"), Some("1".to_string()));
}

#[test]
fn file_that_cannot_be_opened_becomes_the_500() {
    let planned = respond(&file("/srv/www/gone", 10), None);
    assert_eq!(planned.clone().confirm(false), Response::internal_error());
    assert_eq!(planned.clone().confirm(false).status.code(), 500);
    let partial = respond(&file("/srv/www/gone", 10), Some(ByteRange { start: 1, end: 2 }));
    assert_eq!(partial.confirm(false), Response::internal_error());
}

#[test]
fn response_stands_when_its_file_opens_or_it_names_none() {
    let planned = respond(&file("/srv/www/here", 10), None);
    assert_eq!(planned.clone().confirm(true), planned);
    assert_eq!(Response::not_found().confirm(false), Response::not_found());
    assert_eq!(Response::html("x").confirm(false), Response::html("x"));
    assert_eq!(Response::html("x").confirm(true), Response::html("x"));
}

#[test]
fn transfer_of_nothing_has_no_read() {
    assert_eq!(Transfer::begin(5, 0).next_read(), None);
}

#[test]
fn transfer_reads_in_bounded_steps() {
    let mut transfer = Transfer::begin(10, 2 * CHUNK + 3);
    let mut reads: Vec<Read> = Vec::new();
    while let Some(read) = transfer.next_read() {
        assert!(read.length as u64 <= CHUNK);
        reads.push(read);
        assert!(transfer.advance(read.length));
    }
    assert_eq!(
        reads,
        vec![
            Read { at: 10, length: CHUNK as usize },
            Read { at: 10 + CHUNK, length: CHUNK as usize },
            Read { at: 10 + 2 * CHUNK, length: 3 },
        ]
    );
    assert_eq!(transfer, Transfer { at: 10 + 2 * CHUNK + 3, left: 0 });
}

#[test]
fn transfer_goes_on_behind_a_short_read() {
    let mut transfer = Transfer::begin(0, 100);
    assert_eq!(transfer.next_read(), Some(Read { at: 0, length: 100 }));
    assert!(transfer.advance(40));
    assert_eq!(transfer.next_read(), Some(Read { at: 40, length: 60 }));
    assert!(transfer.advance(60));
    assert_eq!(transfer.next_read(), None);
}

#[test]
fn transfer_stays_when_a_read_gives_nothing_or_too_much() {
    let mut transfer = Transfer::begin(7, 100);
    assert!(!transfer.advance(0));
    assert_eq!(transfer, Transfer { at: 7, left: 100 });
    assert!(!transfer.advance(101));
    assert_eq!(transfer, Transfer { at: 7, left: 100 });
    let mut long = Transfer::begin(0, 10 * CHUNK);
    assert!(!long.advance(CHUNK as usize + 1));
    assert_eq!(long, Transfer { at: 0, left: 10 * CHUNK });
    let mut done = Transfer::begin(7, 0);
    assert!(!done.advance(1));
    assert_eq!(done, Transfer { at: 7, left: 0 });
}

#[test]
fn transfer_does_not_run_past_the_largest_place() {
    let mut transfer = Transfer { at: u64::MAX - 1, left: 10 };
    assert!(!transfer.advance(1));
    assert_eq!(transfer, Transfer { at: u64::MAX - 1, left: 10 });
}
