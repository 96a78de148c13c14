//! The file list of a revision: the name and the checksum of each file.

use crate::errors;
use crate::errors::WizPatchError;
use crate::patcher;
use crate::patcher::FileRecord;
use crate::text;
use crate::text::read_number_up_to;
use crate::webdriver::find;
use vstd::prelude::*;
use vstd::slice::{slice_subrange, slice_to_vec};
use vstd::string::*;
use vstd::utf8;

verus! {

/// The bytes of `<RECORD>`, with which every record starts.
pub open spec fn record_tag() -> Seq<u8> {
    seq![0x3Cu8, 0x52u8, 0x45u8, 0x43u8, 0x4Fu8, 0x52u8, 0x44u8, 0x3Eu8]
}

/// The bytes of `<SrcFileName`, with which the element of a record's name starts.
pub open spec fn name_tag() -> Seq<u8> {
    seq![
        0x3Cu8, 0x53u8, 0x72u8, 0x63u8, 0x46u8, 0x69u8, 0x6Cu8, 0x65u8, 0x4Eu8, 0x61u8, 0x6Du8, 0x65u8,
    ]
}

/// The bytes of `<CRC`, with which the element of a record's checksum starts.
pub open spec fn crc_tag() -> Seq<u8> {
    seq![0x3Cu8, 0x43u8, 0x52u8, 0x43u8]
}

/// The byte of `>`, which ends a tag.
pub open spec fn tag_end() -> Seq<u8> {
    seq![0x3Eu8]
}

/// The bytes of `</`, which end an element's text.
pub open spec fn text_end() -> Seq<u8> {
    seq![0x3Cu8, 0x2Fu8]
}

/// A space, a tab, a line feed or a carriage return.
pub open spec fn is_blank(b: u8) -> bool {
    b == 0x20 || b == 0x09 || b == 0x0A || b == 0x0D
}

/// The bytes without the blanks at either end.
pub open spec fn trimmed(s: Seq<u8>) -> Seq<u8>
    decreases s.len(),
{
    if s.len() > 0 && is_blank(s[0]) {
        trimmed(s.skip(1))
    } else if s.len() > 0 && is_blank(s.last()) {
        trimmed(s.drop_last())
    } else {
        s
    }
}

/// The text of the first element in `s` whose tag starts with `tag`: what stands between the tag's
/// end and the next `</`, without the blanks around it.
pub open spec fn element(s: Seq<u8>, tag: Seq<u8>) -> Option<Seq<u8>> {
    match text::first_index(s, tag) {
        None => None,
        Some(i) => {
            let rest = s.skip(i + tag.len());
            match text::first_index(rest, tag_end()) {
                None => None,
                Some(j) => {
                    let content = rest.skip(j + 1);
                    match text::first_index(content, text_end()) {
                        None => None,
                        Some(k) => Some(trimmed(content.take(k))),
                    }
                },
            }
        },
    }
}

/// What stands before the next record, or all of it.
pub open spec fn before_next_record(s: Seq<u8>) -> Seq<u8> {
    match text::first_index(s, record_tag()) {
        Some(i) => s.take(i),
        None => s,
    }
}

/// What stands behind each `<RECORD>`, up to the next one.
pub open spec fn bodies(s: Seq<u8>) -> Seq<Seq<u8>>
    decreases s.len() via bodies_get_shorter
{
    match text::first_index(s, record_tag()) {
        Some(i) => {
            let rest = s.skip(i + record_tag().len());
            seq![before_next_record(rest)] + bodies(rest)
        },
        None => seq![],
    }
}

#[via_fn]
proof fn bodies_get_shorter(s: Seq<u8>) {
    if exists|i: int| text::occurs_at(s, record_tag(), i) {
        let i = choose|i: int| text::occurs_at(s, record_tag(), i);
        text::lemma_first_exists(s, record_tag(), i);
    }
}

/// The text that bytes encode.
pub open spec fn decoded(bytes: Seq<u8>) -> Result<Seq<char>, errors::ErrorView> {
    if utf8::valid_utf8(bytes) {
        Ok(utf8::decode_utf8(bytes))
    } else {
        Err(errors::ErrorView::Utf8(bytes))
    }
}

/// The record in what stands behind one `<RECORD>`. Without a name or without a checksum there is
/// none.
pub open spec fn record_in(body: Seq<u8>) -> Result<
    Option<patcher::FileRecordView>,
    errors::ErrorView,
> {
    match (element(body, name_tag()), element(body, crc_tag())) {
        (Some(name), Some(crc)) => match (decoded(name), decoded(crc)) {
            (Err(error), _) => Err(error),
            (_, Err(error)) => Err(error),
            (Ok(src_file_name), Ok(digits)) => match text::number_up_to(digits, u64::MAX as nat) {
                Some(n) => Ok(Some(patcher::FileRecordView { src_file_name, crc: n as u64 })),
                None => Err(errors::ErrorView::Protocol("bad checksum: "@ + digits)),
            },
        },
        _ => Ok(None),
    }
}

/// The records in what stands behind several `<RECORD>`s, or the first error among them.
pub open spec fn listed(bodies: Seq<Seq<u8>>) -> Result<
    Seq<patcher::FileRecordView>,
    errors::ErrorView,
>
    decreases bodies.len(),
{
    if bodies.len() == 0 {
        Ok(seq![])
    } else {
        match (listed(bodies.drop_last()), record_in(bodies.last())) {
            (Err(error), _) => Err(error),
            (_, Err(error)) => Err(error),
            (Ok(records), Ok(None)) => Ok(records),
            (Ok(records), Ok(Some(record))) => Ok(records.push(record)),
        }
    }
}

/// What records say.
pub open spec fn views(records: Seq<FileRecord>) -> Seq<patcher::FileRecordView> {
    Seq::new(records.len(), |i: int| records[i]@)
}

/// Takes the blanks off both ends.
fn trim(s: &[u8]) -> (r: &[u8])
    ensures
        r@ == trimmed(s@),
{
    let mut start: usize = 0;
    let mut end: usize = s.len();
    assert(s@.subrange(0, s@.len() as int) =~= s@);
    while start < end && blank(s[start])
        invariant
            start <= end == s@.len(),
            trimmed(s@.subrange(start as int, end as int)) == trimmed(s@),
        decreases end - start,
    {
        let ghost now = s@.subrange(start as int, end as int);
        assert(now[0] == s@[start as int]);
        assert(now.skip(1) =~= s@.subrange(start + 1, end as int));
        start += 1;
    }
    while start < end && blank(s[end - 1])
        invariant
            start <= end <= s@.len(),
            start < end ==> !is_blank(s@[start as int]),
            trimmed(s@.subrange(start as int, end as int)) == trimmed(s@),
        decreases end,
    {
        let ghost now = s@.subrange(start as int, end as int);
        assert(now[0] == s@[start as int]);
        assert(now.last() == s@[end - 1]);
        assert(now.drop_last() =~= s@.subrange(start as int, end - 1));
        end -= 1;
    }
    let ghost now = s@.subrange(start as int, end as int);
    assert(now.len() > 0 ==> now[0] == s@[start as int] && now.last() == s@[end - 1]);
    slice_subrange(s, start, end)
}

/// Whether a byte is a blank.
fn blank(b: u8) -> (r: bool)
    ensures
        r == is_blank(b),
{
    b == 0x20 || b == 0x09 || b == 0x0A || b == 0x0D
}

/// Finds the text of the first element whose tag starts with `tag`.
pub fn find_element<'a>(s: &'a [u8], tag: &[u8]) -> (r: Option<&'a [u8]>)
    requires
        tag@.len() > 0,
    ensures
        match r {
            Some(text) => element(s@, tag@) == Some(text@),
            None => element(s@, tag@) is None,
        },
{
    let i: usize = match find(s, tag) {
        Some(i) => i,
        None => {
            return None;
        },
    };
    let len: usize = s.len();
    let rest: &[u8] = slice_subrange(s, i + tag.len(), len);
    assert(rest@ =~= s@.skip(i + tag@.len()));
    let closing: [u8; 1] = [0x3E];
    assert(closing@ =~= tag_end());
    let j: usize = match find(rest, &closing) {
        Some(j) => j,
        None => {
            return None;
        },
    };
    let content: &[u8] = slice_subrange(rest, j + 1, rest.len());
    assert(content@ =~= rest@.skip(j + 1));
    let ending: [u8; 2] = [0x3C, 0x2F];
    assert(ending@ =~= text_end());
    match find(content, &ending) {
        Some(k) => {
            assert(content@.subrange(0, k as int) =~= content@.take(k as int));
            Some(trim(slice_subrange(content, 0, k)))
        },
        None => None,
    }
}

/// Turns bytes into text.
fn decode(bytes: &[u8]) -> (r: Result<String, WizPatchError>)
    ensures
        errors::viewed(r) == decoded(bytes@),
{
    match String::from_utf8(slice_to_vec(bytes)) {
        Ok(text) => Ok(text),
        Err(_) => Err(WizPatchError::Utf8(slice_to_vec(bytes))),
    }
}

/// Reads the record behind one `<RECORD>`.
pub fn read_record(body: &[u8]) -> (r: Result<Option<FileRecord>, WizPatchError>)
    ensures
        match r {
            Ok(Some(record)) => record_in(body@) == Ok::<_, errors::ErrorView>(Some(record@)),
            Ok(None) => record_in(body@) == Ok::<_, errors::ErrorView>(
                None::<patcher::FileRecordView>,
            ),
            Err(error) => record_in(body@) == Err::<Option<patcher::FileRecordView>, _>(error@),
        },
{
    let name_start: [u8; 12] = [
        0x3C, 0x53, 0x72, 0x63, 0x46, 0x69, 0x6C, 0x65, 0x4E, 0x61, 0x6D, 0x65,
    ];
    assert(name_start@ =~= name_tag());
    let crc_start: [u8; 4] = [0x3C, 0x43, 0x52, 0x43];
    assert(crc_start@ =~= crc_tag());
    let name: &[u8] = match find_element(body, &name_start) {
        Some(name) => name,
        None => {
            return Ok(None);
        },
    };
    let crc: &[u8] = match find_element(body, &crc_start) {
        Some(crc) => crc,
        None => {
            return Ok(None);
        },
    };
    let src_file_name: String = match decode(name) {
        Ok(text) => text,
        Err(error) => {
            return Err(error);
        },
    };
    let digits: String = match decode(crc) {
        Ok(text) => text,
        Err(error) => {
            return Err(error);
        },
    };
    match read_number_up_to(digits.as_str(), u64::MAX) {
        Some(crc) => Ok(Some(FileRecord { src_file_name, crc })),
        None => {
            let mut message: String = "bad checksum: ".to_owned();
            message.append(digits.as_str());
            Err(WizPatchError::Protocol(message))
        },
    }
}

/// The first error stands, whatever follows.
proof fn lemma_first_error_stands(a: Seq<Seq<u8>>, b: Seq<Seq<u8>>)
    requires
        listed(a) is Err,
    ensures
        listed(a + b) == listed(a),
    decreases b.len(),
{
    if b.len() == 0 {
        assert(a + b =~= a);
    } else {
        lemma_first_error_stands(a, b.drop_last());
        assert((a + b).drop_last() =~= a + b.drop_last());
    }
}

/// Reads the records of a file list.
pub fn read_file_list(data: &[u8]) -> (r: Result<Vec<FileRecord>, WizPatchError>)
    ensures
        match r {
            Ok(records) => listed(bodies(data@)) == Ok::<_, errors::ErrorView>(views(records@)),
            Err(error) => listed(bodies(data@)) == Err::<Seq<patcher::FileRecordView>, _>(error@),
        },
{
    let tag: [u8; 8] = [0x3C, 0x52, 0x45, 0x43, 0x4F, 0x52, 0x44, 0x3E];
    assert(tag@ =~= record_tag());
    let mut records: Vec<FileRecord> = Vec::new();
    assert(views(records@) =~= seq![]);
    let ghost mut read: Seq<Seq<u8>> = seq![];
    let len: usize = data.len();
    let mut rest: &[u8] = match find(data, &tag) {
        Some(i) => slice_subrange(data, i + tag.len(), len),
        None => {
            return Ok(records);
        },
    };
    proof {
        let i = text::first_index(data@, record_tag())->0;
        assert(rest@ =~= data@.skip(i + record_tag().len()));
        assert(read + (seq![before_next_record(rest@)] + bodies(rest@)) =~= bodies(data@));
    }
    loop
        invariant
            tag@ == record_tag(),
            read + (seq![before_next_record(rest@)] + bodies(rest@)) == bodies(data@),
            listed(read) == Ok::<_, errors::ErrorView>(views(records@)),
        decreases rest@.len(),
    {
        let next: Option<usize> = find(rest, &tag);
        let len: usize = rest.len();
        let end: usize = match next {
            Some(i) => i,
            None => len,
        };
        let body: &[u8] = slice_subrange(rest, 0, end);
        assert(body@ =~= before_next_record(rest@));
        let ghost now = read.push(body@);
        assert(now.drop_last() =~= read);
        assert(now + bodies(rest@) =~= bodies(data@));
        match read_record(body) {
            Ok(Some(record)) => {
                let ghost before = records@;
                records.push(record);
                assert(views(records@) =~= views(before).push(record@));
            },
            Ok(None) => {},
            Err(error) => {
                proof {
                    lemma_first_error_stands(now, bodies(rest@));
                }
                return Err(error);
            },
        }
        match next {
            Some(i) => {
                let ghost old_rest = rest@;
                rest = slice_subrange(rest, i + tag.len(), len);
                proof {
                    assert(rest@ =~= old_rest.skip(i + record_tag().len()));
                    read = now;
                    assert(read + (seq![before_next_record(rest@)] + bodies(rest@)) =~= bodies(
                        data@,
                    ));
                }
            },
            None => {
                assert(now + bodies(rest@) =~= now);
                return Ok(records);
            },
        }
    }
}

/// An element reads back as it was written: where its tag is the first that starts so, where no
/// `>` stands in the rest of the tag and no `<` in the text, and where no blank stands at an end of
/// the text.
pub proof fn law_element_reads_back(
    before: Seq<u8>,
    tag: Seq<u8>,
    attributes: Seq<u8>,
    text: Seq<u8>,
    after: Seq<u8>,
)
    requires
        text::first_index(
            before + tag + attributes + tag_end() + text + text_end() + after,
            tag,
        ) == Some(before.len() as int),
        !attributes.contains(0x3Eu8),
        !text.contains(0x3Cu8),
        trimmed(text) == text,
    ensures
        element(before + tag + attributes + tag_end() + text + text_end() + after, tag) == Some(
            text,
        ),
{
    let s = before + tag + attributes + tag_end() + text + text_end() + after;
    let rest = s.skip(before.len() as int + tag.len());
    assert(rest =~= attributes + tag_end() + text + text_end() + after);
    let j = attributes.len() as int;
    assert(rest.subrange(j, j + 1) =~= tag_end());
    assert forall|i: int| 0 <= i < j implies !text::occurs_at(rest, tag_end(), i) by {
        assert(attributes.contains(attributes[i]));
        assert(rest.subrange(i, i + 1)[0] == attributes[i]);
    }
    text::lemma_first_index(rest, tag_end(), j);
    let content = rest.skip(j + 1);
    assert(content =~= text + text_end() + after);
    let k = text.len() as int;
    assert(content.subrange(k, k + 2) =~= text_end());
    assert forall|i: int| 0 <= i < k implies !text::occurs_at(content, text_end(), i) by {
        assert(text.contains(text[i]));
        if text::occurs_at(content, text_end(), i) {
            assert(content.subrange(i, i + 2)[0] == text[i]);
        }
    }
    text::lemma_first_index(content, text_end(), k);
    assert(content.take(k) =~= text);
}

/// What two runs of bodies give, one after the other: the records of both, or the first error.
proof fn lemma_listed_joins(a: Seq<Seq<u8>>, b: Seq<Seq<u8>>)
    ensures
        listed(a + b) == (match (listed(a), listed(b)) {
            (Err(error), _) => Err(error),
            (_, Err(error)) => Err(error),
            (Ok(x), Ok(y)) => Ok(x + y),
        }),
    decreases b.len(),
{
    if listed(a) is Err {
        lemma_first_error_stands(a, b);
    } else if b.len() == 0 {
        assert(a + b =~= a);
        assert(listed(a)->Ok_0 + Seq::<patcher::FileRecordView>::empty() =~= listed(a)->Ok_0);
    } else {
        lemma_listed_joins(a, b.drop_last());
        assert((a + b).drop_last() =~= a + b.drop_last());
        if let (Ok(y), Ok(Some(record))) = (listed(b.drop_last()), record_in(b.last())) {
            let x = listed(a)->Ok_0;
            assert(x + y.push(record) =~= (x + y).push(record));
        }
    }
}

/// The start of a record looks like its first byte at its start alone.
proof fn lemma_record_tag_letters()
    ensures
        record_tag().len() == 8,
        record_tag()[0] == 0x3C,
        record_tag()[1] == 0x52,
        forall|k: int| 0 < k < 8 ==> record_tag()[k] != 0x3C,
{
}

/// Behind bytes that hold no start of a record, the one that follows them is the first.
proof fn lemma_record_tag_is_first(before: Seq<u8>, after: Seq<u8>)
    requires
        text::first_index(before, record_tag()) is None,
    ensures
        text::first_index(before + record_tag() + after, record_tag()) == Some(
            before.len() as int,
        ),
{
    lemma_record_tag_letters();
    let m = record_tag();
    let s = before + m + after;
    let n = before.len() as int;
    assert(s.subrange(n, n + m.len()) =~= m);
    assert forall|j: int| 0 <= j < n implies !text::occurs_at(s, m, j) by {
        if text::occurs_at(s, m, j) {
            let found = s.subrange(j, j + m.len());
            if j + m.len() <= n {
                assert(found =~= before.subrange(j, j + m.len()));
                assert(text::occurs_at(before, m, j));
            } else {
                assert(found[n - j] == s[n]);
                assert(s[n] == m[0]);
            }
        }
    }
    text::lemma_first_index(s, m, n);
}

/// What stands behind some bytes does not move the first start of a record in them.
proof fn lemma_first_record_stays(x: Seq<u8>, y: Seq<u8>, i: int)
    requires
        text::first_index(x, record_tag()) == Some(i),
    ensures
        0 <= i,
        i + record_tag().len() <= x.len(),
        text::first_index(x + y, record_tag()) == Some(i),
{
    let m = record_tag();
    let k = choose|k: int| text::occurs_at(x, m, k);
    text::lemma_first_exists(x, m, k);
    assert((x + y).subrange(i, i + m.len()) =~= x.subrange(i, i + m.len()));
    assert forall|j: int| 0 <= j < i implies !text::occurs_at(x + y, m, j) by {
        assert(!text::occurs_at(x, m, j));
        assert((x + y).subrange(j, j + m.len()) =~= x.subrange(j, j + m.len()));
    }
    text::lemma_first_index(x + y, m, i);
}

/// Bytes without the start of a record have no bodies.
proof fn lemma_no_bodies(x: Seq<u8>)
    requires
        text::first_index(x, record_tag()) is None,
    ensures
        bodies(x) == Seq::<Seq<u8>>::empty(),
        before_next_record(x) == x,
{
}

/// Behind the first start of a record stands its body, then the bodies of the rest.
proof fn lemma_bodies_behind(x: Seq<u8>, rest: Seq<u8>, i: int)
    requires
        text::first_index(x, record_tag()) == Some(i),
        rest == x.skip(i + record_tag().len()),
    ensures
        bodies(x) == seq![before_next_record(rest)] + bodies(rest),
        before_next_record(x) == x.take(i),
{
}

/// A list that starts with a record.
proof fn lemma_starts_with_record(y: Seq<u8>, behind: Seq<u8>)
    requires
        y == record_tag() + behind,
    ensures
        text::first_index(y, record_tag()) == Some(0int),
        bodies(y) == seq![before_next_record(behind)] + bodies(behind),
{
    let m = record_tag();
    assert(y.subrange(0, m.len() as int) =~= m);
    text::lemma_first_index(y, m, 0);
    assert(y.skip(0int + m.len()) =~= behind);
    lemma_bodies_behind(y, behind, 0);
}

/// A list that goes on with the start of a record has the bodies of its first part, then those of
/// its second.
proof fn lemma_bodies_join(x: Seq<u8>, y: Seq<u8>, behind: Seq<u8>)
    requires
        y.len() == 0 || y == record_tag() + behind,
    ensures
        bodies(x + y) == bodies(x) + bodies(y),
        before_next_record(x + y) == before_next_record(x),
    decreases x.len(),
{
    let m = record_tag();
    if y.len() == 0 {
        lemma_bodies_join_nothing(x, y);
    } else {
        match text::first_index(x, m) {
            None => {
                lemma_bodies_join_other(x, y, behind);
            },
            Some(i) => {
                lemma_first_record_stays(x, y, i);
                let rest = x.skip(i + m.len());
                lemma_bodies_join(rest, y, behind);
                lemma_bodies_join_record(x, y, rest, i);
            },
        }
    }
}

/// [`lemma_bodies_join`] where nothing follows.
proof fn lemma_bodies_join_nothing(x: Seq<u8>, y: Seq<u8>)
    requires
        y.len() == 0,
    ensures
        bodies(x + y) == bodies(x) + bodies(y),
        before_next_record(x + y) == before_next_record(x),
{
    assert(x + y =~= x);
    assert forall|j: int| !text::occurs_at(y, record_tag(), j) by {}
    lemma_no_bodies(y);
    assert(bodies(x) + bodies(y) =~= bodies(x));
}

/// [`lemma_bodies_join`] where the first part holds no record.
proof fn lemma_bodies_join_other(x: Seq<u8>, y: Seq<u8>, behind: Seq<u8>)
    requires
        y == record_tag() + behind,
        text::first_index(x, record_tag()) is None,
    ensures
        bodies(x + y) == bodies(x) + bodies(y),
        before_next_record(x + y) == before_next_record(x),
{
    let n = x.len() as int;
    let m = record_tag();
    assert(x + y =~= x + m + behind);
    lemma_record_tag_is_first(x, behind);
    assert((x + y).skip(n + m.len()) =~= behind);
    assert((x + y).take(n) =~= x);
    lemma_bodies_behind(x + y, behind, n);
    lemma_starts_with_record(y, behind);
    lemma_no_bodies(x);
    assert(bodies(x) + bodies(y) =~= bodies(y));
}

/// [`lemma_bodies_join`] where the first part holds a record.
proof fn lemma_bodies_join_record(x: Seq<u8>, y: Seq<u8>, rest: Seq<u8>, i: int)
    requires
        0 <= i,
        i + record_tag().len() <= x.len(),
        text::first_index(x, record_tag()) == Some(i),
        text::first_index(x + y, record_tag()) == Some(i),
        rest == x.skip(i + record_tag().len()),
        bodies(rest + y) == bodies(rest) + bodies(y),
        before_next_record(rest + y) == before_next_record(rest),
    ensures
        bodies(x + y) == bodies(x) + bodies(y),
        before_next_record(x + y) == before_next_record(x),
{
    assert((x + y).skip(i + record_tag().len()) =~= rest + y);
    assert((x + y).take(i) =~= x.take(i));
    lemma_bodies_behind(x, rest, i);
    lemma_bodies_behind(x + y, rest + y, i);
    assert(bodies(x + y) =~= bodies(x) + bodies(y));
}

/// The records of two lists one after the other are the records of the first, then those of the
/// second; where one of them is wrong, its error is that of both, the first one's before the
/// second's. The second list starts with a record.
pub proof fn law_lists_join(
    x: &[u8],
    x_records: Result<Vec<FileRecord>, WizPatchError>,
    y: &[u8],
    y_records: Result<Vec<FileRecord>, WizPatchError>,
    both: &[u8],
    both_records: Result<Vec<FileRecord>, WizPatchError>,
)
    requires
        both@ == x@ + y@,
        y@.len() == 0 || y@.len() >= 8 && y@.take(8) == seq![0x3Cu8, 0x52u8, 0x45u8, 0x43u8, 0x4Fu8, 0x52u8, 0x44u8, 0x3Eu8],
        call_ensures(read_file_list, (x,), x_records),
        call_ensures(read_file_list, (y,), y_records),
        call_ensures(read_file_list, (both,), both_records),
    ensures
        match (x_records, y_records, both_records) {
            (Err(error), _, Err(told)) => told@ == error@,
            (Ok(_), Err(error), Err(told)) => told@ == error@,
            (Ok(a), Ok(b), Ok(c)) => {
                &&& c@.len() == a@.len() + b@.len()
                &&& forall|i: int|
                    0 <= i < a@.len() ==> (#[trigger] c@[i]).src_file_name@ == a@[i].src_file_name@
                        && c@[i].crc == a@[i].crc
                &&& forall|i: int|
                    a@.len() <= i < c@.len() ==> (#[trigger] c@[i]).src_file_name@ == b@[i
                        - a@.len()].src_file_name@ && c@[i].crc == b@[i - a@.len()].crc
            },
            _ => false,
        },
{
    let behind = y@.skip(8);
    if y@.len() > 0 {
        assert(y@ =~= record_tag() + behind);
    }
    lemma_bodies_join(x@, y@, behind);
    lemma_listed_joins(bodies(x@), bodies(y@));
    if let (Ok(a), Ok(b), Ok(c)) = (x_records, y_records, both_records) {
        let all = views(a@) + views(b@);
        assert(views(c@) == all);
        assert(c@.len() == views(c@).len());
        assert forall|i: int| 0 <= i < a@.len() implies (#[trigger] c@[i]).src_file_name@
            == a@[i].src_file_name@ && c@[i].crc == a@[i].crc by {
            assert(views(c@)[i] == c@[i]@);
            assert(all[i] == a@[i]@);
        }
        assert forall|i: int| a@.len() <= i < c@.len() implies (#[trigger] c@[i]).src_file_name@
            == b@[i - a@.len()].src_file_name@ && c@[i].crc == b@[i - a@.len()].crc by {
            assert(views(c@)[i] == c@[i]@);
            assert(all[i] == b@[i - a@.len()]@);
        }
    }
}

/// Blanks at both ends go, and nothing else does.
proof fn lemma_trimmed(before: Seq<u8>, s: Seq<u8>, after: Seq<u8>)
    requires
        forall|i: int| 0 <= i < before.len() ==> is_blank(#[trigger] before[i]),
        forall|i: int| 0 <= i < after.len() ==> is_blank(#[trigger] after[i]),
        s.len() > 0 ==> !is_blank(s[0]) && !is_blank(s.last()),
    ensures
        trimmed(before + s + after) == s,
    decreases before.len() + after.len(),
{
    let all = before + s + after;
    if before.len() > 0 {
        assert(is_blank(before[0]));
        assert(all[0] == before[0]);
        assert(all.skip(1) =~= before.skip(1) + s + after);
        lemma_trimmed(before.skip(1), s, after);
    } else if after.len() == 0 {
        assert(all =~= s);
    } else if s.len() == 0 {
        assert(is_blank(after[0]));
        assert(all[0] == after[0]);
        assert(all.skip(1) =~= before + s + after.skip(1));
        lemma_trimmed(before, s, after.skip(1));
    } else {
        assert(all[0] == s[0]);
        assert(is_blank(after[after.len() - 1]));
        assert(all.last() == after.last());
        assert(all.drop_last() =~= before + s + after.drop_last());
        lemma_trimmed(before, s, after.drop_last());
    }
}

/// An element's text is what stands between the first `>` behind the first place of its tag and the
/// next `</`, whole, without the spaces, tabs and line ends around it. Without such a place, `>` or
/// `</` there is none.
pub proof fn law_element_is_what_its_tags_enclose(
    s: &[u8],
    tag: &[u8],
    before: Seq<u8>,
    attributes: Seq<u8>,
    left: Seq<u8>,
    text: Seq<u8>,
    right: Seq<u8>,
    after: Seq<u8>,
    r: Option<&[u8]>,
)
    requires
        call_ensures(find_element, (s, tag), r),
    ensures
        (forall|j: int|
            0 <= j <= s@.len() - tag@.len() ==> #[trigger] s@.subrange(j, j + tag@.len()) != tag@)
            ==> r is None,
        (forall|j: int|
            0 <= j < before.len() ==> #[trigger] s@.subrange(j, j + tag@.len()) != tag@) ==> {
            &&& s@ == before + tag@ + after && !after.contains(0x3Eu8) ==> r is None
            &&& s@ == before + tag@ + attributes + seq![0x3Eu8] + after && !attributes.contains(
                0x3Eu8,
            ) && (forall|j: int|
                0 <= j < after.len() - 1 ==> !(#[trigger] after[j] == 0x3C && after[j + 1] == 0x2F))
                ==> r is None
            &&& s@ == before + tag@ + attributes + seq![0x3Eu8] + (left + text + right) + seq![
                0x3Cu8,
                0x2Fu8,
            ] + after && !attributes.contains(0x3Eu8) && (forall|j: int|
                0 <= j < (left + text + right).len() - 1 ==> !(#[trigger] (left + text + right)[j]
                    == 0x3C && (left + text + right)[j + 1] == 0x2F)) && (forall|j: int|
                0 <= j < left.len() ==> #[trigger] left[j] == 0x20 || left[j] == 0x09 || left[j]
                    == 0x0A || left[j] == 0x0D) && (forall|j: int|
                0 <= j < right.len() ==> #[trigger] right[j] == 0x20 || right[j] == 0x09 || right[j]
                    == 0x0A || right[j] == 0x0D) && (text.len() > 0 ==> text[0] != 0x20 && text[0]
                != 0x09 && text[0] != 0x0A && text[0] != 0x0D && text.last() != 0x20 && text.last()
                != 0x09 && text.last() != 0x0A && text.last() != 0x0D) ==> (r matches Some(found)
                && found@ == text)
        },
{
    let n = before.len() as int;
    if forall|j: int|
        0 <= j <= s@.len() - tag@.len() ==> #[trigger] s@.subrange(j, j + tag@.len()) != tag@ {
        text::lemma_no_place(s@, tag@);
    }
    if forall|j: int| 0 <= j < n ==> #[trigger] s@.subrange(j, j + tag@.len()) != tag@ {
        if s@ == before + tag@ + after && !after.contains(0x3Eu8) {
            assert(s@.subrange(n, n + tag@.len()) =~= tag@);
            text::lemma_first_place(s@, tag@, n);
            lemma_no_tag_end(after);
            assert(s@.skip(n + tag@.len()) =~= after);
        }
        if s@ == before + tag@ + attributes + seq![0x3Eu8] + after && !attributes.contains(0x3Eu8)
            && forall|j: int|
            0 <= j < after.len() - 1 ==> !(#[trigger] after[j] == 0x3C && after[j + 1] == 0x2F) {
            assert(s@.subrange(n, n + tag@.len()) =~= tag@);
            text::lemma_first_place(s@, tag@, n);
            assert(s@.skip(n + tag@.len()) =~= attributes + tag_end() + after);
            lemma_first_tag_end(attributes, after);
            assert((attributes + tag_end() + after).skip(attributes.len() as int + 1) =~= after);
            assert forall|j: int| !text::occurs_at(after, text_end(), j) by {
                if text::occurs_at(after, text_end(), j) {
                    assert(after.subrange(j, j + 2)[0] == after[j]);
                    assert(after.subrange(j, j + 2)[1] == after[j + 1]);
                }
            }
        }
        let content = left + text + right;
        if s@ == before + tag@ + attributes + seq![0x3Eu8] + content + seq![0x3Cu8, 0x2Fu8] + after
            && !attributes.contains(0x3Eu8) && (forall|j: int|
            0 <= j < content.len() - 1 ==> !(#[trigger] content[j] == 0x3C && content[j + 1]
                == 0x2F)) && (forall|j: int|
            0 <= j < left.len() ==> #[trigger] left[j] == 0x20 || left[j] == 0x09 || left[j] == 0x0A
                || left[j] == 0x0D) && (forall|j: int|
            0 <= j < right.len() ==> #[trigger] right[j] == 0x20 || right[j] == 0x09 || right[j]
                == 0x0A || right[j] == 0x0D) && (text.len() > 0 ==> text[0] != 0x20 && text[0]
            != 0x09 && text[0] != 0x0A && text[0] != 0x0D && text.last() != 0x20 && text.last()
            != 0x09 && text.last() != 0x0A && text.last() != 0x0D) {
            assert(s@.subrange(n, n + tag@.len()) =~= tag@);
            text::lemma_first_place(s@, tag@, n);
            let rest = attributes + tag_end() + (content + text_end() + after);
            assert(s@.skip(n + tag@.len()) =~= rest);
            lemma_first_tag_end(attributes, content + text_end() + after);
            assert(rest.skip(attributes.len() as int + 1) =~= content + text_end() + after);
            lemma_first_text_end(content, after);
            assert((content + text_end() + after).take(content.len() as int) =~= content);
            assert forall|i: int| 0 <= i < left.len() implies is_blank(#[trigger] left[i]) by {}
            assert forall|i: int| 0 <= i < right.len() implies is_blank(#[trigger] right[i]) by {}
            lemma_trimmed(left, text, right);
        }
    }
}

/// Where there is no `>`, no tag ends.
proof fn lemma_no_tag_end(s: Seq<u8>)
    requires
        !s.contains(0x3Eu8),
    ensures
        text::first_index(s, tag_end()) is None,
{
    assert forall|j: int| !text::occurs_at(s, tag_end(), j) by {
        if text::occurs_at(s, tag_end(), j) {
            assert(s.subrange(j, j + 1)[0] == s[j]);
        }
    }
}

/// The first `>` behind bytes without one.
proof fn lemma_first_tag_end(attributes: Seq<u8>, rest: Seq<u8>)
    requires
        !attributes.contains(0x3Eu8),
    ensures
        text::first_index(attributes + tag_end() + rest, tag_end()) == Some(
            attributes.len() as int,
        ),
{
    let s = attributes + tag_end() + rest;
    let n = attributes.len() as int;
    assert(s.subrange(n, n + 1) =~= tag_end());
    assert forall|i: int| 0 <= i < n implies !text::occurs_at(s, tag_end(), i) by {
        assert(attributes.contains(attributes[i]));
        assert(s.subrange(i, i + 1)[0] == attributes[i]);
    }
    text::lemma_first_index(s, tag_end(), n);
}

/// The first `</` behind bytes without one.
proof fn lemma_first_text_end(content: Seq<u8>, after: Seq<u8>)
    requires
        forall|j: int|
            0 <= j < content.len() - 1 ==> !(#[trigger] content[j] == 0x3C && content[j + 1]
                == 0x2F),
    ensures
        text::first_index(content + text_end() + after, text_end()) == Some(content.len() as int),
{
    let s = content + text_end() + after;
    let n = content.len() as int;
    assert(s.subrange(n, n + 2) =~= text_end());
    assert forall|i: int| 0 <= i < n implies !text::occurs_at(s, text_end(), i) by {
        if text::occurs_at(s, text_end(), i) {
            assert(s.subrange(i, i + 2)[0] == s[i]);
            assert(s.subrange(i, i + 2)[1] == s[i + 1]);
            assert(s[i] == content[i]);
            if i + 1 < n {
                assert(s[i + 1] == content[i + 1]);
            } else {
                assert(s[i + 1] == text_end()[0]);
            }
        }
    }
    text::lemma_first_index(s, text_end(), n);
}

/// A record has the text of its `SrcFileName` as its name, whole, and the number in its `CRC` as its
/// checksum. Where one of the two elements is missing there is no record; bytes that are not UTF-8,
/// the name's before the checksum's, and a checksum that is no number are errors that show them.
pub proof fn law_record_is_its_name_and_checksum(
    body: &[u8],
    name_start: &[u8],
    name: Option<&[u8]>,
    crc_start: &[u8],
    crc: Option<&[u8]>,
    digits: &str,
    number: Option<u64>,
    r: Result<Option<FileRecord>, WizPatchError>,
)
    requires
        call_ensures(read_record, (body,), r),
        name_start@ == seq![0x3Cu8, 0x53u8, 0x72u8, 0x63u8, 0x46u8, 0x69u8, 0x6Cu8, 0x65u8, 0x4Eu8, 0x61u8, 0x6Du8, 0x65u8],
        crc_start@ == seq![0x3Cu8, 0x43u8, 0x52u8, 0x43u8],
        call_ensures(find_element, (body, name_start), name),
        call_ensures(find_element, (body, crc_start), crc),
        call_ensures(read_number_up_to, (digits, u64::MAX), number),
    ensures
        match (name, crc) {
            (Some(name), Some(crc)) => {
                &&& !utf8::valid_utf8(name@) ==> (r matches Err(WizPatchError::Utf8(wrong))
                    && wrong@ == name@)
                &&& utf8::valid_utf8(name@) && !utf8::valid_utf8(crc@) ==> (r matches Err(
                    WizPatchError::Utf8(wrong),
                ) && wrong@ == crc@)
                &&& utf8::valid_utf8(name@) && crc@ == utf8::encode_utf8(digits@) ==> match number {
                    Some(n) => r matches Ok(Some(record)) && utf8::encode_utf8(
                        record.src_file_name@,
                    ) == name@ && record.crc == n,
                    None => r matches Err(WizPatchError::Protocol(text)) && text@
                        == "bad checksum: "@ + digits@,
                }
            },
            _ => r matches Ok(None),
        },
{
    assert(name_start@ =~= name_tag());
    assert(crc_start@ =~= crc_tag());
    if let (Some(name), Some(crc)) = (name, crc) {
        if utf8::valid_utf8(name@) {
            utf8::decode_utf8_encode_utf8(name@);
        }
        if crc@ == utf8::encode_utf8(digits@) {
            utf8::encode_utf8_valid_utf8(digits@);
            utf8::encode_utf8_decode_utf8(digits@);
        }
    }
}

/// The text of a record with this name and checksum.
pub open spec fn record_text(record: patcher::FileRecordView) -> Seq<char> {
    "<RECORD><SrcFileName>"@ + record.src_file_name + "</SrcFileName><CRC>"@ + text::decimal(
        record.crc as nat,
    ) + "</CRC></RECORD>"@
}

/// The text of a list of records.
pub open spec fn list_text(records: Seq<patcher::FileRecordView>) -> Seq<char>
    decreases records.len(),
{
    if records.len() == 0 {
        seq![]
    } else {
        list_text(records.drop_last()) + record_text(records.last())
    }
}

/// A name that can stand in a list as it is: no `<` in it, and no blank at an end.
pub open spec fn is_plain_name(name: Seq<char>) -> bool {
    &&& !name.contains('<')
    &&& name.len() > 0 ==> {
        &&& name[0] != ' ' && name[0] != '\t' && name[0] != '\n' && name[0] != '\r'
        &&& name.last() != ' ' && name.last() != '\t' && name.last() != '\n' && name.last() != '\r'
    }
}

/// The bytes of a character: itself where it is ASCII, and none that is ASCII otherwise.
proof fn lemma_scalar_bytes(c: char)
    ensures
        utf8::encode_scalar(c as u32).len() > 0,
        (c as u32) < 0x80 ==> utf8::encode_scalar(c as u32) == seq![c as u8],
        (c as u32) >= 0x80 ==> forall|k: int|
            0 <= k < utf8::encode_scalar(c as u32).len() ==> #[trigger] utf8::encode_scalar(
                c as u32,
            )[k] >= 0x80,
{
    let v = c as u32;
    utf8::char_is_scalar(c);
    if v < 0x80 {
        assert(v as u8 == (v & 0x7F) as u8) by (bit_vector)
            requires
                v < 0x80,
        ;
        assert(utf8::encode_scalar(v) =~= seq![c as u8]);
    } else {
        assert((0xC0 | ((v >> 6) & 0x1F) as u8) >= 0x80) by (bit_vector);
        assert((0xE0 | ((v >> 12) & 0x0F) as u8) >= 0x80) by (bit_vector);
        assert((0xF0 | ((v >> 18) & 0x7) as u8) >= 0x80) by (bit_vector);
        assert((0x80 | (v & 0x3F) as u8) >= 0x80) by (bit_vector);
        assert((0x80 | ((v >> 6) & 0x3F) as u8) >= 0x80) by (bit_vector);
        assert((0x80 | ((v >> 12) & 0x3F) as u8) >= 0x80) by (bit_vector);
    }
}

/// The bytes of two texts one after the other are the bytes of the first, then those of the second.
proof fn lemma_encoded_joins(a: Seq<char>, b: Seq<char>)
    ensures
        utf8::encode_utf8(a + b) == utf8::encode_utf8(a) + utf8::encode_utf8(b),
    decreases a.len(),
{
    if a.len() == 0 {
        assert(a + b =~= b);
        assert(utf8::encode_utf8(a) + utf8::encode_utf8(b) =~= utf8::encode_utf8(b));
    } else {
        lemma_encoded_joins(a.drop_first(), b);
        assert((a + b).drop_first() =~= a.drop_first() + b);
        assert(utf8::encode_utf8(a + b) =~= utf8::encode_utf8(a) + utf8::encode_utf8(b));
    }
}

/// A plain name has no `<` among its bytes, and no blank at an end of them.
proof fn lemma_plain_name_bytes(name: Seq<char>)
    ensures
        !name.contains('<') ==> !utf8::encode_utf8(name).contains(0x3Cu8),
        name.len() > 0 ==> {
            let bytes = utf8::encode_utf8(name);
            &&& bytes.len() > 0
            &&& is_blank(bytes[0]) ==> name[0] == ' ' || name[0] == '\t' || name[0] == '\n'
                || name[0] == '\r'
            &&& is_blank(bytes.last()) ==> name.last() == ' ' || name.last() == '\t' || name.last()
                == '\n' || name.last() == '\r'
        },
    decreases name.len(),
{
    if name.len() > 0 {
        let rest = name.drop_first();
        let first = utf8::encode_scalar(name[0] as u32);
        let behind = utf8::encode_utf8(rest);
        let bytes = utf8::encode_utf8(name);
        assert(bytes == first + behind);
        lemma_scalar_bytes(name[0]);
        lemma_ascii_char(name[0], first[0]);
        lemma_plain_name_bytes(rest);
        assert(bytes[0] == first[0]);
        if rest.len() == 0 {
            assert(bytes =~= first);
            assert(name.last() == name[0]);
            assert(name[0] as u32 >= 0x80 ==> first[first.len() - 1] >= 0x80);
        } else {
            assert(bytes.last() == behind.last());
            assert(name.last() == rest.last());
        }
        if !name.contains('<') {
            assert(!rest.contains('<')) by {
                if rest.contains('<') {
                    let k = choose|k: int| 0 <= k < rest.len() && rest[k] == '<';
                    assert(name[k + 1] == '<');
                }
            }
            assert(name.contains(name[0]));
            assert forall|k: int| 0 <= k < bytes.len() implies bytes[k] != 0x3C by {
                if k < first.len() {
                    assert(bytes[k] == first[k]);
                } else {
                    assert(bytes[k] == behind[k - first.len()]);
                    assert(behind.contains(behind[k - first.len()]));
                }
            }
        }
    }
}

/// An ASCII character is known by its byte.
proof fn lemma_ascii_char(c: char, byte: u8)
    requires
        (c as u32) < 0x80 ==> byte == c as u8,
        (c as u32) >= 0x80 ==> byte >= 0x80,
    ensures
        byte == 0x3C ==> c == '<',
        byte == 0x20 ==> c == ' ',
        byte == 0x09 ==> c == '\t',
        byte == 0x0A ==> c == '\n',
        byte == 0x0D ==> c == '\r',
{
    let v = c as u32;
    if v < 0x80 {
        assert((v as u8) as u32 == v) by (bit_vector)
            requires
                v < 0x80,
        ;
        assert(byte as u32 == v);
        utf8::char_u32_cast(c, v);
        utf8::char_u32_cast('<', 0x3C);
        utf8::char_u32_cast(' ', 0x20);
        utf8::char_u32_cast('\t', 0x09);
        utf8::char_u32_cast('\n', 0x0A);
        utf8::char_u32_cast('\r', 0x0D);
    }
}

/// What stands behind `<RECORD>` in the bytes of a record.
#[verifier::opaque]
spec fn plain_body(name: Seq<u8>, digits: Seq<u8>) -> Seq<u8> {
    name_tag() + tag_end() + name + text_end() + name_closing() + crc_tag() + tag_end() + digits
        + text_end() + crc_closing()
}

/// The bytes of `SrcFileName>`.
spec fn name_closing() -> Seq<u8> {
    seq![
        0x53u8, 0x72u8, 0x63u8, 0x46u8, 0x69u8, 0x6Cu8, 0x65u8, 0x4Eu8, 0x61u8, 0x6Du8, 0x65u8, 0x3Eu8,
    ]
}

/// The bytes of `CRC></RECORD>`.
spec fn crc_closing() -> Seq<u8> {
    seq![
        0x43u8, 0x52u8, 0x43u8, 0x3Eu8, 0x3Cu8, 0x2Fu8, 0x52u8, 0x45u8, 0x43u8, 0x4Fu8, 0x52u8, 0x44u8, 0x3Eu8,
    ]
}

/// The bytes of a record.
proof fn lemma_record_bytes(record: patcher::FileRecordView)
    ensures
        utf8::encode_utf8(record_text(record)) == record_tag() + plain_body(
            utf8::encode_utf8(record.src_file_name),
            utf8::encode_utf8(text::decimal(record.crc as nat)),
        ),
{
    reveal(plain_body);
    let a = "<RECORD><SrcFileName>"@;
    let b = "</SrcFileName><CRC>"@;
    let c = "</CRC></RECORD>"@;
    let name = record.src_file_name;
    let digits = text::decimal(record.crc as nat);
    lemma_encoded_joins(a, name);
    lemma_encoded_joins(a + name, b);
    lemma_encoded_joins(a + name + b, digits);
    lemma_encoded_joins(a + name + b + digits, c);
    lemma_first_part();
    lemma_middle_part();
    lemma_last_part();
    let n = utf8::encode_utf8(name);
    let d = utf8::encode_utf8(digits);
    assert(record_tag() + name_tag() + tag_end() + n + (text_end() + name_closing() + crc_tag()
        + tag_end()) + d + (text_end() + crc_closing()) =~= record_tag() + plain_body(n, d));
}

/// The bytes before a name.
proof fn lemma_first_part()
    ensures
        utf8::encode_utf8("<RECORD><SrcFileName>"@) == record_tag() + name_tag() + tag_end(),
{
    reveal_strlit("<RECORD><SrcFileName>");
    let s = "<RECORD><SrcFileName>"@;
    assert(utf8::is_ascii_chars(s));
    utf8::is_ascii_chars_encode_utf8(s);
    let bytes = record_tag() + name_tag() + tag_end();
    assert forall|i: int| 0 <= i < s.len() implies s[i] as u8 == #[trigger] bytes[i] by {}
    assert(utf8::encode_utf8(s) =~= bytes);
}

/// The bytes between a name and a checksum.
proof fn lemma_middle_part()
    ensures
        utf8::encode_utf8("</SrcFileName><CRC>"@) == text_end() + name_closing() + crc_tag()
            + tag_end(),
{
    reveal_strlit("</SrcFileName><CRC>");
    let s = "</SrcFileName><CRC>"@;
    assert(utf8::is_ascii_chars(s));
    utf8::is_ascii_chars_encode_utf8(s);
    let bytes = text_end() + name_closing() + crc_tag() + tag_end();
    assert forall|i: int| 0 <= i < s.len() implies s[i] as u8 == #[trigger] bytes[i] by {}
    assert(utf8::encode_utf8(s) =~= bytes);
}

/// The bytes behind a checksum.
proof fn lemma_last_part()
    ensures
        utf8::encode_utf8("</CRC></RECORD>"@) == text_end() + crc_closing(),
{
    reveal_strlit("</CRC></RECORD>");
    let s = "</CRC></RECORD>"@;
    assert(utf8::is_ascii_chars(s));
    utf8::is_ascii_chars_encode_utf8(s);
    let bytes = text_end() + crc_closing();
    assert forall|i: int| 0 <= i < s.len() implies s[i] as u8 == #[trigger] bytes[i] by {}
    assert(utf8::encode_utf8(s) =~= bytes);
}

/// Where a `<` stands in the body of a record, and what follows it.
proof fn lemma_plain_body_opens(name: Seq<u8>, digits: Seq<u8>, j: int)
    requires
        !name.contains(0x3Cu8),
        !digits.contains(0x3Cu8),
        0 <= j < plain_body(name, digits).len(),
        plain_body(name, digits)[j] == 0x3C,
    ensures
        j + 1 < plain_body(name, digits).len(),
        plain_body(name, digits)[j + 1] != 0x52,
        j != 0 ==> plain_body(name, digits)[j + 1] == 0x2F || j == 27 + name.len(),
        j == 0 ==> plain_body(name, digits)[1] == 0x53,
{
    reveal(plain_body);
    let body = plain_body(name, digits);
    let n = name.len() as int;
    let d = digits.len() as int;
    assert(name_tag().len() == 12);
    assert(name_closing().len() == 12);
    assert(crc_closing().len() == 13);
    assert(body.len() == 12 + 1 + n + 2 + 12 + 4 + 1 + d + 2 + 13);
    if j < 12 {
        assert(body[j] == name_tag()[j]);
        assert(body[j + 1] == name_tag()[1]);
    } else if j < 13 {
        assert(body[j] == tag_end()[0]);
    } else if j < 13 + n {
        assert(body[j] == name[j - 13]);
        assert(name.contains(name[j - 13]));
    } else if j < 15 + n {
        assert(body[j] == text_end()[j - 13 - n]);
        assert(body[j + 1] == text_end()[1]);
    } else if j < 27 + n {
        assert(body[j] == name_closing()[j - 15 - n]);
    } else if j < 31 + n {
        assert(body[j] == crc_tag()[j - 27 - n]);
        assert(body[j + 1] == crc_tag()[1]);
    } else if j < 32 + n {
        assert(body[j] == tag_end()[0]);
    } else if j < 32 + n + d {
        assert(body[j] == digits[j - 32 - n]);
        assert(digits.contains(digits[j - 32 - n]));
    } else if j < 34 + n + d {
        assert(body[j] == text_end()[j - 32 - n - d]);
        assert(body[j + 1] == text_end()[1]);
    } else {
        assert(body[j] == crc_closing()[j - 34 - n - d]);
        assert(crc_closing()[4] == 0x3C && crc_closing()[5] == 0x2F);
        assert(j == 38 + n + d);
        assert(body[j + 1] == crc_closing()[5]);
    }
}

/// The body of a record gives the name and the checksum that were written into it.
proof fn lemma_plain_body_reads_back(record: patcher::FileRecordView)
    requires
        is_plain_name(record.src_file_name),
    ensures
        ({
            let body = plain_body(
                utf8::encode_utf8(record.src_file_name),
                utf8::encode_utf8(text::decimal(record.crc as nat)),
            );
            &&& record_in(body) == Ok::<_, errors::ErrorView>(Some(record))
            &&& text::first_index(body, record_tag()) is None
        }),
{
    let name = utf8::encode_utf8(record.src_file_name);
    let decimal = text::decimal(record.crc as nat);
    let digits = utf8::encode_utf8(decimal);
    lemma_digits_are_plain(record.crc as nat);
    lemma_plain_name_is_kept(record.src_file_name);
    lemma_plain_name_is_kept(decimal);
    lemma_name_element(name, digits);
    lemma_crc_element(name, digits);
    lemma_no_record_in_plain_body(name, digits);
    text::lemma_decimal_reads_back(record.crc as nat, u64::MAX as nat);
}

/// The digits of a number can stand in a list as they are.
proof fn lemma_digits_are_plain(n: nat)
    ensures
        is_plain_name(text::decimal(n)),
{
    let decimal = text::decimal(n);
    text::lemma_decimal(n);
    assert forall|i: int| 0 <= i < decimal.len() implies decimal[i] != '<' by {
        assert('0' <= decimal[i] <= '9');
    }
    assert('0' <= decimal[0] <= '9');
    assert('0' <= decimal[decimal.len() - 1] <= '9');
}

/// The bytes of a plain name hold no `<`, have no blank at an end, and are its text.
proof fn lemma_plain_name_is_kept(name: Seq<char>)
    requires
        is_plain_name(name),
    ensures
        !utf8::encode_utf8(name).contains(0x3Cu8),
        trimmed(utf8::encode_utf8(name)) == utf8::encode_utf8(name),
        decoded(utf8::encode_utf8(name)) == Ok::<_, errors::ErrorView>(name),
{
    let bytes = utf8::encode_utf8(name);
    let none = Seq::<u8>::empty();
    lemma_plain_name_bytes(name);
    assert(none + bytes + none =~= bytes);
    lemma_trimmed(none, bytes, none);
    utf8::encode_utf8_valid_utf8(name);
    utf8::encode_utf8_decode_utf8(name);
}

/// No record starts in the body of a record.
proof fn lemma_no_record_in_plain_body(name: Seq<u8>, digits: Seq<u8>)
    requires
        !name.contains(0x3Cu8),
        !digits.contains(0x3Cu8),
    ensures
        text::first_index(plain_body(name, digits), record_tag()) is None,
{
    let body = plain_body(name, digits);
    assert forall|j: int| !text::occurs_at(body, record_tag(), j) by {
        if text::occurs_at(body, record_tag(), j) {
            let found = body.subrange(j, j + record_tag().len());
            assert(found[0] == body[j] && found[1] == body[j + 1]);
            lemma_plain_body_opens(name, digits, j);
        }
    }
}

/// The element of the name in the body of a record.
proof fn lemma_name_element(name: Seq<u8>, digits: Seq<u8>)
    requires
        !name.contains(0x3Cu8),
        trimmed(name) == name,
    ensures
        element(plain_body(name, digits), name_tag()) == Some(name),
{
    reveal(plain_body);
    let body = plain_body(name, digits);
    let none = Seq::<u8>::empty();
    let after = name_closing() + crc_tag() + tag_end() + digits + text_end() + crc_closing();
    let written = none + name_tag() + none + tag_end() + name + text_end() + after;
    assert(body =~= written);
    assert(body.subrange(0, name_tag().len() as int) =~= name_tag());
    text::lemma_first_index(body, name_tag(), 0);
    law_element_reads_back(none, name_tag(), none, name, after);
}

/// The element of the checksum in the body of a record.
proof fn lemma_crc_element(name: Seq<u8>, digits: Seq<u8>)
    requires
        !name.contains(0x3Cu8),
        !digits.contains(0x3Cu8),
        trimmed(digits) == digits,
    ensures
        element(plain_body(name, digits), crc_tag()) == Some(digits),
{
    reveal(plain_body);
    let body = plain_body(name, digits);
    let none = Seq::<u8>::empty();
    let before = name_tag() + tag_end() + name + text_end() + name_closing();
    let n = before.len() as int;
    let written = before + crc_tag() + none + tag_end() + digits + text_end() + crc_closing();
    assert(body =~= written);
    assert(n == 27 + name.len());
    assert(body.subrange(n, n + 4) =~= crc_tag());
    assert forall|j: int| 0 <= j < n implies !text::occurs_at(body, crc_tag(), j) by {
        if text::occurs_at(body, crc_tag(), j) {
            let found = body.subrange(j, j + crc_tag().len());
            assert(found[0] == body[j] && found[1] == body[j + 1]);
            lemma_plain_body_opens(name, digits, j);
        }
    }
    text::lemma_first_index(body, crc_tag(), n);
    law_element_reads_back(before, crc_tag(), none, digits, crc_closing());
}

/// What was written is listed.
proof fn lemma_written_list(records: Seq<patcher::FileRecordView>)
    requires
        forall|i: int|
            0 <= i < records.len() ==> is_plain_name((#[trigger] records[i]).src_file_name),
    ensures
        listed(bodies(utf8::encode_utf8(list_text(records)))) == Ok::<_, errors::ErrorView>(
            records,
        ),
    decreases records.len(),
{
    if records.len() == 0 {
        let nothing = utf8::encode_utf8(list_text(records));
        assert(nothing.len() == 0);
        assert forall|j: int| !text::occurs_at(nothing, record_tag(), j) by {}
        assert(bodies(nothing) =~= seq![]);
        assert(records =~= seq![]);
    } else {
        let before = records.drop_last();
        let record = records.last();
        assert(record == records[records.len() - 1]);
        assert forall|i: int| 0 <= i < before.len() implies is_plain_name(
            (#[trigger] before[i]).src_file_name,
        ) by {
            assert(before[i] == records[i]);
        }
        lemma_written_list(before);
        lemma_record_bytes(record);
        lemma_plain_body_reads_back(record);
        lemma_encoded_joins(list_text(before), record_text(record));
        let x = utf8::encode_utf8(list_text(before));
        let y = utf8::encode_utf8(record_text(record));
        let body = plain_body(
            utf8::encode_utf8(record.src_file_name),
            utf8::encode_utf8(text::decimal(record.crc as nat)),
        );
        lemma_bodies_join(x, y, body);
        assert(y.subrange(0, record_tag().len() as int) =~= record_tag());
        text::lemma_first_index(y, record_tag(), 0);
        assert(y.skip(record_tag().len() as int) =~= body);
        assert(bodies(body) =~= seq![]);
        assert(bodies(y) =~= seq![body]);
        lemma_listed_joins(bodies(x), bodies(y));
        reveal_with_fuel(listed, 2);
        assert(seq![body].drop_last() =~= seq![]);
        assert(listed(seq![body]) == Ok::<_, errors::ErrorView>(
            Seq::<patcher::FileRecordView>::empty().push(record),
        ));
        assert(before + Seq::<patcher::FileRecordView>::empty().push(record) =~= records);
    }
}

/// A list reads back as it was written, however long it is: the records of a text that names each
/// name and checksum in its own elements are exactly those names and checksums, in their order.
pub proof fn law_written_list_reads_back(
    written: Seq<patcher::FileRecordView>,
    data: &[u8],
    r: Result<Vec<FileRecord>, WizPatchError>,
)
    requires
        call_ensures(read_file_list, (data,), r),
        forall|i: int|
            0 <= i < written.len() ==> is_plain_name((#[trigger] written[i]).src_file_name),
        data@ == utf8::encode_utf8(list_text(written)),
    ensures
        r matches Ok(records) && {
            &&& records@.len() == written.len()
            &&& forall|i: int|
                0 <= i < written.len() ==> (#[trigger] records@[i]).src_file_name@
                    == written[i].src_file_name && records@[i].crc == written[i].crc
        },
{
    lemma_written_list(written);
    if let Ok(records) = r {
        assert(views(records@) == written);
        assert(views(records@).len() == records@.len());
        assert forall|i: int| 0 <= i < written.len() implies (#[trigger] records@[i]).src_file_name@
            == written[i].src_file_name && records@[i].crc == written[i].crc by {
            assert(views(records@)[i] == records@[i]@);
        }
    }
}

/// What stands before the first record is no record, and a record ends where the next one starts:
/// a list of bytes without a `<RECORD>` in them, each behind one, gives what each of them gives
/// alone, in their order.
pub proof fn law_record_ends_where_the_next_starts(
    before: Seq<u8>,
    body: Seq<u8>,
    rest: Seq<u8>,
)
    requires
        forall|j: int|
            0 <= j <= before.len() - 8 ==> #[trigger] before.subrange(j, j + 8) != seq![0x3Cu8, 0x52u8, 0x45u8, 0x43u8, 0x4Fu8, 0x52u8, 0x44u8, 0x3Eu8],
        forall|j: int|
            0 <= j <= body.len() - 8 ==> #[trigger] body.subrange(j, j + 8) != seq![0x3Cu8, 0x52u8, 0x45u8, 0x43u8, 0x4Fu8, 0x52u8, 0x44u8, 0x3Eu8],
        rest.len() == 0 || rest.len() >= 8 && rest.take(8) == seq![0x3Cu8, 0x52u8, 0x45u8, 0x43u8, 0x4Fu8, 0x52u8, 0x44u8, 0x3Eu8],
    ensures
        bodies(before) == Seq::<Seq<u8>>::empty(),
        bodies(before + (seq![0x3Cu8, 0x52u8, 0x45u8, 0x43u8, 0x4Fu8, 0x52u8, 0x44u8, 0x3Eu8] + body) + rest)
            == seq![body] + bodies(rest),
{
    let tag = seq![0x3Cu8, 0x52u8, 0x45u8, 0x43u8, 0x4Fu8, 0x52u8, 0x44u8, 0x3Eu8];
    assert(record_tag() =~= tag);
    assert forall|j: int| 0 <= j <= before.len() - tag.len() implies #[trigger] before.subrange(
        j,
        j + tag.len(),
    ) != tag by {
        assert(before.subrange(j, j + 8) != tag);
    }
    assert forall|j: int| 0 <= j <= body.len() - tag.len() implies #[trigger] body.subrange(
        j,
        j + tag.len(),
    ) != tag by {
        assert(body.subrange(j, j + 8) != tag);
    }
    text::lemma_no_place(before, tag);
    text::lemma_no_place(body, tag);
    let y = tag + body;
    let behind = rest.skip(8);
    if rest.len() > 0 {
        assert(rest =~= tag + behind);
    }
    lemma_bodies_join(before + y, rest, behind);
    lemma_bodies_join(before, y, body);
    assert(y.subrange(0, 8) =~= tag);
    text::lemma_first_index(y, tag, 0);
    assert(y.skip(8) =~= body);
    assert(bodies(body) =~= seq![]);
    assert(bodies(y) =~= seq![body]);
    assert(bodies(before + y + rest) =~= seq![body] + bodies(rest));
}

} // verus!
