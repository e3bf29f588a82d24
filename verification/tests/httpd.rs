use httpd::entry::EntryInfo;
use httpd::entry::Found;
use httpd::entry::Listed;
use httpd::entry::ResolvedEntry;
use httpd::httpd::Step;
use httpd::httpd::D;
use httpd::listing::render_page;
use httpd::response::respond;
use httpd::response::Body;
use httpd::response::Header;
use httpd::response::Response;
use httpd::response::Status;

fn header(name: &str, value: &str) -> Header {
    Header { name: name.to_string(), value: value.to_string() }
}

fn look(path: &str, target: &str) -> Step {
    Step::Look { path: path.to_string(), target: target.to_string() }
}

#[test]
fn new_strips_separators_at_the_end_of_the_root() {
    assert_eq!(D::new("/srv/www").path(), "/srv/www");
    assert_eq!(D::new("/srv/www/").path(), "/srv/www");
    assert_eq!(D::new("/srv/www///").path(), "/srv/www");
    assert_eq!(D::new("/srv//www").path(), "/srv//www");
    assert_eq!(D::new("/").path(), "");
    assert_eq!(D::new("").path(), "");
    assert_eq!(D::new("./pub/").path(), "./pub");
}

#[test]
fn begin_names_the_path_on_disk() {
    let d = D::new("/srv/www/");
    assert_eq!(d.begin("/a/b.txt"), look("/a/b.txt", "/srv/www/a/b.txt"));
    assert_eq!(d.begin("/"), look("/", "/srv/www/"));
    assert_eq!(d.begin("/a%20b/%C3%A9"), look("/a b/é", "/srv/www/a b/é"));
}

#[test]
fn begin_strips_one_separator_at_the_end() {
    let d = D::new("/srv/www");
    assert_eq!(d.begin("/sub/"), look("/sub", "/srv/www/sub"));
    assert_eq!(d.begin("/sub//"), look("/sub/", "/srv/www/sub/"));
    assert_eq!(d.begin("/sub%2F"), look("/sub", "/srv/www/sub"));
    assert_eq!(d.begin("//"), look("/", "/srv/www/"));
}

#[test]
fn begin_answers_the_favicon_at_once() {
    let d = D::new("/srv/www");
    assert_eq!(d.begin("/favicon.ico"), Step::Reply(Response::not_found()));
    assert_eq!(d.begin("/favicon.ico/"), Step::Reply(Response::not_found()));
    assert_eq!(d.begin("/%66avicon.ico"), Step::Reply(Response::not_found()));
    assert_eq!(d.begin("/sub/favicon.ico"), look("/sub/favicon.ico", "/srv/www/sub/favicon.ico"));
    assert_eq!(d.begin("/favicon.icon"), look("/favicon.icon", "/srv/www/favicon.icon"));
}

#[test]
fn begin_answers_a_path_that_is_not_utf8_at_once() {
    let d = D::new("/srv/www");
    assert_eq!(d.begin("/%FF"), Step::Reply(Response::not_found()));
    assert_eq!(d.begin("/a%C3"), Step::Reply(Response::not_found()));
}

#[test]
fn begin_answers_a_path_that_leaves_the_root_at_once() {
    let d = D::new("/srv/www");
    for raw in [
        "/..",
        "/../",
        "/../etc/passwd",
        "/a/../../etc/passwd",
        "/%2e%2e/etc/passwd",
        "/%2E%2E",
        "/a/%2e%2e",
        "/a%2F..%2Fb",
        "/..%2F",
        "",
        "*",
        "etc/passwd",
        "..",
    ] {
        let out = d.begin(raw);
        assert_eq!(out, Step::Reply(Response::not_found()));
    }
}

#[test]
fn render_missing_path_is_the_404() {
    let d = D::new("/srv/www");
    let out = d.render("/missing", &Found::Nothing, None);
    assert_eq!(out, Response::not_found());
    assert_eq!(out.status.code(), 404);
    assert_eq!(d.render("/missing", &Found::Nothing, Some("bytes=0-1")), Response::not_found());
}

#[test]
fn render_outside_the_root_is_the_404_whatever_is_on_disk() {
    let d = D::new("/srv/www");
    assert_eq!(d.render("/../etc/passwd", &Found::File(100), None), Response::not_found());
    assert_eq!(d.render("/a/..", &Found::Directory(vec![]), None), Response::not_found());
    assert_eq!(d.render("passwd", &Found::File(100), None), Response::not_found());
}

#[test]
fn render_file_without_range_header() {
    let d = D::new("/srv/www");
    let out = d.render("/a.bin", &Found::File(100), None);
    assert_eq!(out.status.code(), 200);
    assert_eq!(out.headers, vec![header("Content-Length", "100")]);
    assert_eq!(out.body, Body::File { path: "/srv/www/a.bin".to_string(), start: 0, length: 100 });
}

#[test]
fn render_file_with_range_header() {
    let d = D::new("/srv/www");
    let out = d.render("/a.bin", &Found::File(21), Some("bytes=10-19"));
    assert_eq!(out.status.code(), 206);
    assert_eq!(
        out.headers,
        vec![header("Content-Range", "bytes 10-19/21"), header("Content-Length", "10")]
    );
    assert_eq!(out.body, Body::File { path: "/srv/www/a.bin".to_string(), start: 10, length: 10 });
}

#[test]
fn render_file_with_range_behind_the_end_is_the_full_file() {
    let d = D::new("/srv/www");
    let out = d.render("/a.bin", &Found::File(100), Some("bytes=9999999-10000010"));
    assert_eq!(out.status, Status::Success);
    assert_eq!(out.status.code(), 200);
    assert_eq!(out.headers, vec![header("Content-Length", "100")]);
    assert_eq!(out.body, Body::File { path: "/srv/www/a.bin".to_string(), start: 0, length: 100 });
}

#[test]
fn render_file_takes_the_header_as_the_parser_reads_it() {
    let d = D::new("/srv/www");
    let info =
        EntryInfo { absolute_path: "/srv/www/f".to_string(), is_directory: false, size: 50 };
    assert_eq!(d.render_file(&info, None), respond(&info, None));
    assert_eq!(d.render_file(&info, Some("bytes=-5")), respond(&info, None));
    assert_eq!(d.render_file(&info, Some("bytes=0-1,4-5")), respond(&info, None));
    assert_eq!(d.render_file(&info, Some("bytes=40-")).header("Content-Range"),
        Some("bytes 40-49/50".to_string()));
}

#[test]
fn render_directory_is_its_index_page() {
    let d = D::new("/srv/www");
    let found = Found::Directory(vec![
        Listed { name: "b".to_string(), is_directory: true, size: 0 },
        Listed { name: "a é".to_string(), is_directory: false, size: 3 },
    ]);
    let out = d.render("/sub", &found, Some("bytes=0-1"));
    let children = vec![
        EntryInfo { absolute_path: "/srv/www/sub/b".to_string(), is_directory: true, size: 0 },
        EntryInfo { absolute_path: "/srv/www/sub/a é".to_string(), is_directory: false, size: 3 },
    ];
    assert_eq!(d.resolve("/sub", &found), ResolvedEntry::Directory(children.clone()));
    let page = render_page("/srv/www", "/sub", &children);
    assert!(page.contains("<a href=/sub/b>b/</a></br><a href=/sub/a%20%C3%A9>a é</a></br>"));
    assert_eq!(out, Response::html(&page));
    assert_eq!(out, d.render_dir("/sub", &children));
    assert_eq!(out.status.code(), 200);
    assert_eq!(out.header("Content-Type"), Some("text/html; charset=utf-8".to_string()));
    assert_eq!(out.header("Content-Length"), Some(page.len().to_string()));
}

#[test]
fn links_of_a_page_lead_back_to_the_children() {
    let d = D::new("/srv/www");
    let found = Found::Directory(vec![
        Listed { name: "x y".to_string(), is_directory: false, size: 1 },
        Listed { name: "100%".to_string(), is_directory: true, size: 0 },
    ]);
    match d.render("/", &found, None).body {
        Body::Text(page) => {
            assert!(page.contains("<a href=/x%20y>x y</a></br><a href=/100%25>100%/</a></br>"));
        }
        other => panic!("not a page: {:?}", other),
    }
    assert_eq!(d.begin("/x%20y"), look("/x y", "/srv/www/x y"));
    assert_eq!(d.begin("/100%25"), look("/100%", "/srv/www/100%"));
}

#[test]
fn vanished_file_is_the_500() {
    let d = D::new("/srv/www");
    let planned = d.render("/a.bin", &Found::File(100), None);
    let out = planned.confirm(false);
    assert_eq!(out.status.code(), 500);
    assert_eq!(out, Response::internal_error());
}

#[test]
fn favicon_under_the_root_is_never_looked_at() {
    let d = D::new("/srv/www");
    let found = Found::Directory(vec![Listed {
        name: "favicon.ico".to_string(),
        is_directory: false,
        size: 1,
    }]);
    match d.render("/", &found, None).body {
        Body::Text(page) => assert!(page.contains("<a href=/favicon.ico>favicon.ico</a></br>")),
        other => panic!("not a page: {:?}", other),
    }
    assert_eq!(d.begin("/favicon.ico"), Step::Reply(Response::not_found()));
}
