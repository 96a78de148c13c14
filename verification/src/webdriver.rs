//! The exchange with the patch server and the HTTP requests that follow it.

use crate::errors;
use crate::errors::WizPatchError;
use crate::text;
use crate::text::decimal_text;
use std::string::FromUtf8Error;
use vstd::prelude::*;
use vstd::slice::{slice_subrange, slice_to_vec};
use vstd::string::*;
use vstd::utf8;

verus! {

/// How long to wait for an HTTP connection, in seconds.
pub const CONNECT_TIMEOUT_SECS: u64 = 30;

/// How long to wait for the next bytes of an HTTP reply, in seconds.
pub const READ_TIMEOUT_SECS: u64 = 120;

/// The most bytes of a patch server's reply that are read.
pub const REPLY_SIZE: usize = 4096;

/// The user agent that HTTP requests name.
pub const USER_AGENT: &'static str = "Mozilla/5.0 (Windows NT 10.0; Win64; x64; rv:91.0) Gecko/20100101 Firefox/91.0";

/// Where the file list and the files of a revision are.
#[derive(Debug)]
pub struct PatchUrls {
    pub file_list_url: String,
    pub base_url: String,
}

/// The texts of [`PatchUrls`].
pub ghost struct PatchUrlsView {
    pub file_list_url: Seq<char>,
    pub base_url: Seq<char>,
}

impl View for PatchUrls {
    type V = PatchUrlsView;

    open spec fn view(&self) -> PatchUrlsView {
        PatchUrlsView { file_list_url: self.file_list_url@, base_url: self.base_url@ }
    }
}

impl Clone for PatchUrls {
    fn clone(&self) -> (r: Self)
        ensures
            r@ == self@,
    {
        PatchUrls { file_list_url: self.file_list_url.clone(), base_url: self.base_url.clone() }
    }
}

/// The error of [`String::from_utf8`].
#[verifier::external_type_specification]
#[verifier::external_body]
pub struct ExFromUtf8Error(FromUtf8Error);

/// [`String::from_utf8`] turns bytes into the text that they encode, and fails on bytes that
/// are not UTF-8 and on no others.
pub assume_specification[ String::from_utf8 ](bytes: Vec<u8>) -> (r: Result<String, FromUtf8Error>)
    ensures
        r is Ok <==> utf8::valid_utf8(bytes@),
        r matches Ok(s) ==> s@ == utf8::decode_utf8(bytes@),
;

/// The bytes of `http`, with which every URL in a reply starts.
pub open spec fn http() -> Seq<u8> {
    seq![0x68u8, 0x74u8, 0x74u8, 0x70u8]
}

/// The address of a patch server: `host:port`.
pub fn server_address(host: &str, port: u16) -> (r: String)
    ensures
        r@ == host@ + ":"@ + text::decimal(port as nat),
{
    let mut r: String = host.to_owned();
    r.append(":");
    r.append(decimal_text(port as u64).as_str());
    r
}

/// The message that asks a patch server for its URLs: eleven bytes of header, then zeros up to
/// forty bytes.
pub fn handshake_request() -> (r: [u8; 40])
    ensures
        r@ == seq![
            0x0Du8, 0xF0u8, 0x24u8, 0x00u8, 0x00u8, 0x00u8, 0x00u8, 0x00u8, 0x08u8, 0x01u8, 0x20u8,
        ] + Seq::new(29, |i: int| 0u8),
{
    let r: [u8; 40] = [
        0x0D, 0xF0, 0x24, 0x00, 0x00, 0x00, 0x00, 0x00, 0x08, 0x01, 0x20, 0, 0, 0, 0, 0, 0, 0, 0, 0,
        0, 0, 0, 0, 0, 0, 0, 0, 0, 0, 0, 0, 0, 0, 0, 0, 0, 0, 0, 0,
    ];
    assert(r@ =~= seq![
        0x0Du8, 0xF0u8, 0x24u8, 0x00u8, 0x00u8, 0x00u8, 0x00u8, 0x00u8, 0x08u8, 0x01u8, 0x20u8,
    ] + Seq::new(29, |i: int| 0u8));
    r
}

/// Whether `needle` stands in `haystack` at position `i`.
fn bytes_at(haystack: &[u8], needle: &[u8], i: usize) -> (r: bool)
    requires
        i + needle@.len() <= haystack@.len(),
    ensures
        r == text::occurs_at(haystack@, needle@, i as int),
{
    let mut k: usize = 0;
    while k < needle.len()
        invariant
            k <= needle@.len(),
            i + needle@.len() <= haystack.len(),
            forall|j: int| 0 <= j < k ==> haystack@[i + j] == needle@[j],
        decreases needle@.len() - k,
    {
        if haystack[i + k] != needle[k] {
            assert(haystack@.subrange(i as int, i + needle@.len())[k as int] != needle@[k as int]);
            return false;
        }
        k += 1;
    }
    true
}

/// The first place of `needle` in `haystack`.
pub fn find(haystack: &[u8], needle: &[u8]) -> (r: Option<usize>)
    requires
        needle@.len() > 0,
    ensures
        match r {
            Some(i) => text::first_index(haystack@, needle@) == Some(i as int) && text::is_first(
                haystack@,
                needle@,
                i as int,
            ),
            None => text::first_index(haystack@, needle@) is None,
        },
{
    if needle.len() > haystack.len() {
        return None;
    }
    let last: usize = haystack.len() - needle.len();
    let mut i: usize = 0;
    loop
        invariant
            last == haystack@.len() - needle@.len(),
            i <= last,
            forall|j: int| 0 <= j < i ==> !text::occurs_at(haystack@, needle@, j),
        decreases last - i,
    {
        if bytes_at(haystack, needle, i) {
            proof {
                text::lemma_first_index(haystack@, needle@, i as int);
            }
            return Some(i);
        }
        if i == last {
            return None;
        }
        i += 1;
    }
}

/// The last place of `needle` in `haystack`.
pub fn rfind(haystack: &[u8], needle: &[u8]) -> (r: Option<usize>)
    requires
        needle@.len() > 0,
    ensures
        match r {
            Some(i) => text::last_index(haystack@, needle@) == Some(i as int) && text::is_last(
                haystack@,
                needle@,
                i as int,
            ),
            None => text::last_index(haystack@, needle@) is None,
        },
{
    if needle.len() > haystack.len() {
        return None;
    }
    let mut i: usize = haystack.len() - needle.len();
    loop
        invariant
            i + needle@.len() <= haystack@.len(),
            forall|j: int| i < j ==> !text::occurs_at(haystack@, needle@, j),
        decreases i,
    {
        if bytes_at(haystack, needle, i) {
            proof {
                text::lemma_last_index(haystack@, needle@, i as int);
            }
            return Some(i);
        }
        if i == 0 {
            return None;
        }
        i -= 1;
    }
}

/// The text whose length stands at `start`, in two bytes with the low one first, and whose
/// bytes follow.
pub open spec fn pascal_url(data: Seq<u8>, start: int) -> Result<Seq<char>, errors::ErrorView> {
    let text_start = start + 2;
    let text_end = text_start + data[start] + 256 * data[start + 1];
    let bytes = data.subrange(text_start, text_end);
    if text_start > data.len() {
        Err(errors::ErrorView::Protocol("URL length out of bounds"@))
    } else if text_end > data.len() {
        Err(errors::ErrorView::Protocol("URL string out of bounds"@))
    } else if utf8::valid_utf8(bytes) {
        Ok(utf8::decode_utf8(bytes))
    } else {
        Err(errors::ErrorView::Utf8(bytes))
    }
}

/// Reads the text whose length stands at `start`.
pub fn read_pascal_url(data: &[u8], start: usize) -> (r: Result<String, WizPatchError>)
    requires
        start + 2 <= usize::MAX,
    ensures
        errors::viewed(r) == pascal_url(data@, start as int),
{
    if start + 2 > data.len() {
        return Err(WizPatchError::Protocol("URL length out of bounds".to_owned()));
    }
    let len: usize = data[start] as usize + 256 * (data[start + 1] as usize);
    let str_start: usize = start + 2;
    if len > data.len() - str_start {
        return Err(WizPatchError::Protocol("URL string out of bounds".to_owned()));
    }
    let bytes: &[u8] = slice_subrange(data, str_start, str_start + len);
    match String::from_utf8(slice_to_vec(bytes)) {
        Ok(url) => Ok(url),
        Err(_) => Err(WizPatchError::Utf8(slice_to_vec(bytes))),
    }
}

/// The place of the length that belongs to the text at `i`: two bytes before it, or the start.
pub open spec fn length_before(i: int) -> int {
    if i < 2 {
        0
    } else {
        i - 2
    }
}

/// The URLs in a patch server's reply: that of the file list at the first `http`, the base at
/// the last.
pub open spec fn urls_in_reply(data: Seq<u8>) -> Result<PatchUrlsView, errors::ErrorView> {
    match (text::first_index(data, http()), text::last_index(data, http())) {
        (None, _) => Err(errors::ErrorView::Protocol("no http URL in response"@)),
        (_, None) => Err(errors::ErrorView::Protocol("no base http URL in response"@)),
        (Some(first), Some(last)) => {
            match (pascal_url(data, length_before(first)), pascal_url(data, length_before(last))) {
                (Err(e), _) => Err(e),
                (_, Err(e)) => Err(e),
                (Ok(file_list_url), Ok(base_url)) => Ok(PatchUrlsView { file_list_url, base_url }),
            }
        },
    }
}

/// Reads the two URLs out of a patch server's reply.
pub fn parse_patch_urls(data: &[u8]) -> (r: Result<PatchUrls, WizPatchError>)
    ensures
        errors::viewed(r) == urls_in_reply(data@),
{
    let needle: [u8; 4] = [0x68, 0x74, 0x74, 0x70];
    assert(needle@ =~= http());
    let first: usize = match find(data, &needle) {
        Some(i) => i,
        None => {
            return Err(WizPatchError::Protocol("no http URL in response".to_owned()));
        },
    };
    let last: usize = match rfind(data, &needle) {
        Some(i) => i,
        None => {
            return Err(WizPatchError::Protocol("no base http URL in response".to_owned()));
        },
    };
    let file_list_url: String = match read_pascal_url(data, first.saturating_sub(2)) {
        Ok(url) => url,
        Err(e) => {
            return Err(e);
        },
    };
    let base_url: String = match read_pascal_url(data, last.saturating_sub(2)) {
        Ok(url) => url,
        Err(e) => {
            return Err(e);
        },
    };
    Ok(PatchUrls { file_list_url, base_url })
}

/// The value of an HTTP `Range` header that asks for the bytes `start` to `end`.
pub fn range_header(start: u64, end: u64) -> (r: String)
    ensures
        r@ == "bytes="@ + text::decimal(start as nat) + "-"@ + text::decimal(end as nat),
{
    let mut r: String = "bytes=".to_owned();
    r.append(decimal_text(start).as_str());
    r.append("-");
    r.append(decimal_text(end).as_str());
    r
}

/// A pattern has a first place in a text exactly where it has a last one, which is not before
/// the first.
pub proof fn law_first_and_last(haystack: Seq<u8>, needle: Seq<u8>)
    ensures
        match (text::first_index(haystack, needle), text::last_index(haystack, needle)) {
            (Some(first), Some(last)) => text::is_first(haystack, needle, first) && text::is_last(
                haystack,
                needle,
                last,
            ) && first <= last,
            (None, None) => forall|i: int| !text::occurs_at(haystack, needle, i),
            _ => false,
        },
{
    if exists|i: int| text::occurs_at(haystack, needle, i) {
        let i = choose|i: int| text::occurs_at(haystack, needle, i);
        text::lemma_first_exists(haystack, needle, i);
        text::lemma_last_exists(haystack, needle, i);
    }
}

/// A text as it stands in a reply: the length of its UTF-8 bytes, low byte first, then the bytes.
pub open spec fn pascal_bytes(url: Seq<char>) -> Seq<u8> {
    let bytes = utf8::encode_utf8(url);
    seq![(bytes.len() % 256) as u8, (bytes.len() / 256) as u8] + bytes
}

/// A text whose bytes number no more than two bytes can say reads back as it was written,
/// whatever stands around it.
pub proof fn law_pascal_url_reads_back(before: Seq<u8>, url: Seq<char>, after: Seq<u8>)
    requires
        utf8::encode_utf8(url).len() <= 0xffff,
    ensures
        pascal_url(before + pascal_bytes(url) + after, before.len() as int) == Ok::<
            Seq<char>,
            errors::ErrorView,
        >(url),
{
    let bytes = utf8::encode_utf8(url);
    let data = before + pascal_bytes(url) + after;
    let start = before.len() as int;
    assert(data[start] == (bytes.len() % 256) as u8);
    assert(data[start + 1] == (bytes.len() / 256) as u8);
    assert(data[start] + 256 * data[start + 1] == bytes.len());
    assert(data.subrange(start + 2, start + 2 + bytes.len()) =~= bytes);
    utf8::encode_utf8_valid_utf8(url);
    utf8::encode_utf8_decode_utf8(url);
}

/// A reply with two URLs, of which the first holds the reply's first `http` at its start and the
/// second the last one, gives the first as that of the file list and the second as the base.
pub proof fn law_reply_gives_both_urls(
    before: Seq<u8>,
    file_list_url: Seq<char>,
    between: Seq<u8>,
    base_url: Seq<char>,
    after: Seq<u8>,
)
    requires
        utf8::encode_utf8(file_list_url).len() <= 0xffff,
        utf8::encode_utf8(base_url).len() <= 0xffff,
        ({
            let head = before + pascal_bytes(file_list_url) + between;
            let reply = head + pascal_bytes(base_url) + after;
            &&& text::first_index(reply, http()) == Some(before.len() as int + 2)
            &&& text::last_index(reply, http()) == Some(head.len() as int + 2)
        }),
    ensures
        urls_in_reply(
            before + pascal_bytes(file_list_url) + between + pascal_bytes(base_url) + after,
        ) == Ok::<PatchUrlsView, errors::ErrorView>(PatchUrlsView { file_list_url, base_url }),
{
    let head = before + pascal_bytes(file_list_url) + between;
    let tail = between + pascal_bytes(base_url) + after;
    let reply = head + pascal_bytes(base_url) + after;
    assert(reply =~= before + pascal_bytes(file_list_url) + tail);
    law_pascal_url_reads_back(before, file_list_url, tail);
    law_pascal_url_reads_back(head, base_url, after);
}

/// The first and the last `http` of a reply are found together: no reply lacks the base URL alone.
pub proof fn law_base_url_is_never_missing_alone(data: Seq<u8>)
    ensures
        urls_in_reply(data) != Err::<PatchUrlsView, errors::ErrorView>(
            errors::ErrorView::Protocol("no base http URL in response"@),
        ),
{
    law_first_and_last(data, http());
    reveal_strlit("no base http URL in response");
    reveal_strlit("no http URL in response");
    reveal_strlit("URL length out of bounds");
    reveal_strlit("URL string out of bounds");
    let text = "no base http URL in response"@;
    assert(text.len() != "no http URL in response"@.len());
    assert(text.len() != "URL length out of bounds"@.len());
    assert(text.len() != "URL string out of bounds"@.len());
}

/// What [`find`] finds is the leftmost place and what [`rfind`] finds the rightmost: the pattern
/// stands there, and nowhere to the left or to the right of it. Where the pattern stands nowhere,
/// neither finds it.
pub proof fn law_outermost_places_are_found(
    haystack: &[u8],
    needle: &[u8],
    first: Option<usize>,
    last: Option<usize>,
)
    requires
        call_ensures(find, (haystack, needle), first),
        call_ensures(rfind, (haystack, needle), last),
    ensures
        match (first, last) {
            (Some(i), Some(k)) => {
                &&& i <= k
                &&& k + needle@.len() <= haystack@.len()
                &&& haystack@.subrange(i as int, i + needle@.len()) == needle@
                &&& haystack@.subrange(k as int, k + needle@.len()) == needle@
                &&& forall|j: int|
                    0 <= j < i || k < j <= haystack@.len() - needle@.len()
                        ==> #[trigger] haystack@.subrange(j, j + needle@.len()) != needle@
            },
            (None, None) => forall|j: int|
                0 <= j <= haystack@.len() - needle@.len() ==> #[trigger] haystack@.subrange(
                    j,
                    j + needle@.len(),
                ) != needle@,
            _ => false,
        },
{
    law_first_and_last(haystack@, needle@);
    assert forall|j: int|
        0 <= j <= haystack@.len() - needle@.len() && #[trigger] haystack@.subrange(
            j,
            j + needle@.len(),
        ) == needle@ implies text::occurs_at(haystack@, needle@, j) by {}
}

/// A text of up to 65535 UTF-8 bytes behind two bytes for its length, the low one first, reads as
/// that text, whatever stands around it. Bytes behind such a length that are not UTF-8 are an error
/// that holds them.
pub proof fn law_text_behind_its_length_is_read(
    data: &[u8],
    start: usize,
    low: u8,
    high: u8,
    bytes: Seq<u8>,
    rest: Seq<u8>,
    r: Result<String, WizPatchError>,
)
    requires
        call_ensures(read_pascal_url, (data, start), r),
        start <= data@.len(),
        data@.skip(start as int) == seq![low, high] + bytes + rest,
        bytes.len() == low + 256 * high,
    ensures
        match r {
            Ok(url) => utf8::encode_utf8(url@) == bytes,
            Err(WizPatchError::Utf8(wrong)) => wrong@ == bytes && !utf8::valid_utf8(bytes),
            _ => false,
        },
        utf8::valid_utf8(bytes) ==> r is Ok,
{
    let s = data@.skip(start as int);
    let written = seq![low, high] + bytes + rest;
    assert(written.len() == 2 + bytes.len() + rest.len());
    assert(written[0] == low && written[1] == high);
    assert(s.len() == data@.len() - start);
    assert(data@[start as int] == s[0]);
    assert(data@[start + 1] == s[1]);
    assert forall|k: int| 0 <= k < bytes.len() implies data@[start + 2 + k] == bytes[k] by {
        assert(s[2 + k] == written[2 + k]);
    }
    assert(data@.subrange(start + 2, start + 2 + bytes.len()) =~= bytes);
    if utf8::valid_utf8(bytes) {
        utf8::decode_utf8_encode_utf8(bytes);
    }
}

/// A length that does not lie within the data, or that leads beyond its end, is an error.
pub proof fn law_text_beyond_the_end_is_refused(
    data: &[u8],
    start: usize,
    r: Result<String, WizPatchError>,
)
    requires
        call_ensures(read_pascal_url, (data, start), r),
    ensures
        start + 2 > data@.len() ==> (r matches Err(WizPatchError::Protocol(text)) && text@
            == "URL length out of bounds"@),
        start + 2 <= data@.len() && start + 2 + data@[start as int] + 256 * data@[start + 1]
            > data@.len() ==> (r matches Err(WizPatchError::Protocol(text)) && text@
            == "URL string out of bounds"@),
{
}

/// The two URLs of a reply are read behind the lengths before its first and its last `http`: two
/// bytes before them, or at the start where fewer stand there. The first that cannot be read is the
/// error. A reply without `http` is an error too.
pub proof fn law_reply_is_read_at_its_first_and_last_http(
    data: &[u8],
    first: int,
    last: int,
    first_start: usize,
    last_start: usize,
    file_list_url: Result<String, WizPatchError>,
    base_url: Result<String, WizPatchError>,
    r: Result<PatchUrls, WizPatchError>,
)
    requires
        call_ensures(parse_patch_urls, (data,), r),
        call_ensures(read_pascal_url, (data, first_start), file_list_url),
        call_ensures(read_pascal_url, (data, last_start), base_url),
    ensures
        ({
            &&& 0 <= first <= last <= data@.len() - 4
            &&& data@.subrange(first, first + 4) == seq![0x68u8, 0x74u8, 0x74u8, 0x70u8]
            &&& data@.subrange(last, last + 4) == seq![0x68u8, 0x74u8, 0x74u8, 0x70u8]
            &&& forall|j: int|
                0 <= j < first || last < j <= data@.len() - 4 ==> #[trigger] data@.subrange(
                    j,
                    j + 4,
                ) != seq![0x68u8, 0x74u8, 0x74u8, 0x70u8]
            &&& first_start == if first < 2 {
                0
            } else {
                first - 2
            }
            &&& last_start == if last < 2 {
                0
            } else {
                last - 2
            }
        }) ==> match (file_list_url, base_url, r) {
            (Err(error), _, Err(told)) => told@ == error@,
            (Ok(_), Err(error), Err(told)) => told@ == error@,
            (Ok(x), Ok(y), Ok(urls)) => urls.file_list_url@ == x@ && urls.base_url@ == y@,
            _ => false,
        },
        (forall|j: int|
            0 <= j <= data@.len() - 4 ==> #[trigger] data@.subrange(j, j + 4)
                != seq![0x68u8, 0x74u8, 0x74u8, 0x70u8]) ==> (r matches Err(
            WizPatchError::Protocol(text),
        ) && text@ == "no http URL in response"@),
{
    let needle = seq![0x68u8, 0x74u8, 0x74u8, 0x70u8];
    assert(http() =~= needle);
    if 0 <= first <= last <= data@.len() - 4 && data@.subrange(first, first + 4) == needle
        && data@.subrange(last, last + 4) == needle && forall|j: int|
        0 <= j < first || last < j <= data@.len() - 4 ==> #[trigger] data@.subrange(j, j + 4)
            != needle {
        assert forall|j: int| 0 <= j < first || last < j implies !text::occurs_at(
            data@,
            http(),
            j,
        ) by {
            if j <= data@.len() - 4 {
                assert(data@.subrange(j, j + 4) != needle);
            }
        }
        text::lemma_first_index(data@, http(), first);
        text::lemma_last_index(data@, http(), last);
    }
    if forall|j: int|
        0 <= j <= data@.len() - 4 ==> #[trigger] data@.subrange(j, j + 4) != needle {
        assert forall|j: int| 0 <= j <= data@.len() - http().len() implies #[trigger] data@.subrange(
            j,
            j + http().len(),
        ) != http() by {
            assert(data@.subrange(j, j + 4) != needle);
        }
        text::lemma_no_place(data@, http());
    }
}

/// A server's address is its whole host, a `:`, and the digits of its port.
pub proof fn law_address_tells_host_and_port(host: &str, port: u16, digits: String, r: String)
    requires
        call_ensures(server_address, (host, port), r),
        call_ensures(decimal_text, (port as u64,), digits),
    ensures
        r@ == host@ + seq![':'] + digits@,
{
    reveal_strlit(":");
    assert(":"@ =~= seq![':']);
}

/// A range names its first and its last byte, in this order.
pub proof fn law_range_tells_both_ends(
    start: u64,
    end: u64,
    start_digits: String,
    end_digits: String,
    r: String,
)
    requires
        call_ensures(range_header, (start, end), r),
        call_ensures(decimal_text, (start,), start_digits),
        call_ensures(decimal_text, (end,), end_digits),
    ensures
        r@ == "bytes="@ + start_digits@ + seq!['-'] + end_digits@,
{
    reveal_strlit("-");
    assert("-"@ =~= seq!['-']);
}

/// The message to a patch server is forty bytes long: the start of a frame, the length of the
/// thirty-six bytes that follow it, and a message of the kind that asks for the URLs; what is not
/// needed is zero.
pub proof fn law_request_is_one_frame(r: [u8; 40])
    requires
        call_ensures(handshake_request, (), r),
    ensures
        r@.len() == 40,
        r@[0] == 0x0D && r@[1] == 0xF0,
        r@[2] + 256 * r@[3] == r@.len() - 4,
        r@[8] == 0x08 && r@[9] == 0x01 && r@[10] == 0x20,
        forall|i: int|
            3 <= i < 40 && i != 8 && i != 9 && i != 10 ==> #[trigger] r@[i] == 0,
{
}

/// Equal views of URLs are equal texts.
pub proof fn law_views_tell_urls(urls: PatchUrls)
    ensures
        urls@.file_list_url == urls.file_list_url@,
        urls@.base_url == urls.base_url@,
{
}

/// How long a request waits, and how much of a reply is read at most.
pub proof fn law_waits_and_sizes()
    ensures
        CONNECT_TIMEOUT_SECS == 30,
        READ_TIMEOUT_SECS == 120,
        REPLY_SIZE == 4096,
        USER_AGENT@
            == "Mozilla/5.0 (Windows NT 10.0; Win64; x64; rv:91.0) Gecko/20100101 Firefox/91.0"@,
{
}

/// A clone of URLs has the same texts.
pub proof fn law_clone_keeps_urls(urls: &PatchUrls, clone: PatchUrls)
    requires
        call_ensures(PatchUrls::clone, (urls,), clone),
    ensures
        clone.file_list_url@ == urls.file_list_url@,
        clone.base_url@ == urls.base_url@,
{
}

} // verus!
