//! The HTML page of the diagnostic endpoint: the client's address and the
//! reported headers, HTML-escaped.
use vstd::prelude::*;
use vstd::string::*;
use crate::client_ip::{headers_view, reported_spec, Header};
use crate::header_listing::{header_map, lists, sorted_by_name, sorted_reported_headers};

verus! {

/// What `&`, `<`, `>`, `"`, `'` and `/` become; other characters stay.
pub open spec fn escape_char(c: char) -> Seq<char> {
    if c == '&' {
        seq!['&', 'a', 'm', 'p', ';']
    } else if c == '<' {
        seq!['&', 'l', 't', ';']
    } else if c == '>' {
        seq!['&', 'g', 't', ';']
    } else if c == '"' {
        seq!['&', 'q', 'u', 'o', 't', ';']
    } else if c == '\'' {
        seq!['&', '#', 'x', '2', '7', ';']
    } else if c == '/' {
        seq!['&', '#', 'x', '2', 'F', ';']
    } else {
        seq![c]
    }
}

/// `s` with each character escaped.
pub open spec fn html_safe(s: Seq<char>) -> Seq<char>
    decreases s.len(),
{
    if s.len() == 0 {
        Seq::empty()
    } else {
        html_safe(s.drop_last()) + escape_char(s.last())
    }
}

/// Relies on `html_escape::encode_safe`, which replaces `&`, `<`, `>`, `"`,
/// `'` and `/` by `&amp;`, `&lt;`, `&gt;`, `&quot;`, `&#x27;` and `&#x2F;`
/// and keeps every other character.
#[verifier::external_body]
fn encode_safe(s: &str) -> (r: String)
    ensures
        r@ == html_safe(s@),
{
    html_escape::encode_safe(s).into_owned()
}

pub const PAGE_OPEN: &'static str = "<html>\n    <head>\n        <title>ip stats</title>\n        <link rel=\"stylesheet\" href=\"main.css\">\n        <link rel=\"shortcut icon\" href=\"data:image/x-icon;,\" type=\"image/x-icon\">\n    </head>\n    <body>\n        <header>\n            <h1>your ip is:</h1>\n            <code>";

pub const PAGE_MID: &'static str = "</code>\n        </header>\n        <main>\n";

pub const ROW_OPEN: &'static str = "            <div class=\"header-container\">\n                <code>[";

pub const ROW_MID: &'static str = "]</code>\n                <code>";

pub const ROW_CLOSE: &'static str = "</code>\n            </div>\n";

pub const PAGE_CLOSE: &'static str = "        </main>\n    </body>\n</html>\n";

/// One row per header, name and value escaped.
pub open spec fn html_rows(hs: Seq<(Seq<char>, Seq<char>)>) -> Seq<char>
    decreases hs.len(),
{
    if hs.len() == 0 {
        Seq::empty()
    } else {
        html_rows(hs.drop_last()) + ROW_OPEN@ + html_safe(hs.last().0) + ROW_MID@ + html_safe(
            hs.last().1,
        ) + ROW_CLOSE@
    }
}

/// The page for an address and the headers to list.
pub open spec fn html_page(ip: Seq<char>, hs: Seq<(Seq<char>, Seq<char>)>) -> Seq<char> {
    PAGE_OPEN@ + html_safe(ip) + PAGE_MID@ + html_rows(hs) + PAGE_CLOSE@
}

/// The page that shows the address and lists the reported headers sorted by
/// name, one row per name.
pub fn handle_index_html(ip: &str, request_headers: &Vec<Header>) -> (r: String)
    ensures
        exists|l: Seq<(Seq<char>, Seq<char>)>|
            sorted_by_name(l) && lists(l, header_map(reported_spec(headers_view(request_headers@))))
                && r@ == html_page(ip@, l),
{
    let headers = sorted_reported_headers(request_headers);
    let ghost hs = headers_view(headers@);
    let mut r = String::from_str(PAGE_OPEN);
    let escaped_ip = encode_safe(ip);
    r.append(escaped_ip.as_str());
    r.append(PAGE_MID);
    let ghost head = r@;
    let mut i: usize = 0;
    while i < headers.len()
        invariant
            i <= headers.len(),
            hs == headers_view(headers@),
            r@ == head + html_rows(hs.take(i as int)),
        decreases headers.len() - i,
    {
        let name = encode_safe(headers[i].0.as_str());
        let value = encode_safe(headers[i].1.as_str());
        r.append(ROW_OPEN);
        r.append(name.as_str());
        r.append(ROW_MID);
        r.append(value.as_str());
        r.append(ROW_CLOSE);
        proof {
            assert(hs.take(i + 1).drop_last() =~= hs.take(i as int));
        }
        i = i + 1;
        assert(r@ =~= head + html_rows(hs.take(i as int)));
    }
    assert(hs.take(headers.len() as int) =~= hs);
    r.append(PAGE_CLOSE);
    assert(r@ =~= html_page(ip@, hs));
    r
}

/// The address and the reported headers, as the JSON representation carries
/// them.
pub struct IpResponse {
    pub ip: String,
    pub headers: Vec<Header>,
}

/// The JSON representation's content: the address and the reported headers
/// sorted by name, one entry per name.
pub fn handle_index_json(ip: String, request_headers: &Vec<Header>) -> (r: IpResponse)
    ensures
        r.ip@ == ip@,
        sorted_by_name(headers_view(r.headers@)),
        lists(headers_view(r.headers@), header_map(reported_spec(headers_view(request_headers@)))),
{
    IpResponse { ip, headers: sorted_reported_headers(request_headers) }
}

} // verus!
