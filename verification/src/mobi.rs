//! Reading MOBI books: the pictures among the records of the database, and the
//! title and author in its headers.

use crate::bytes::{read_be16, read_be32};
use crate::bytes;
use crate::sniff::starts_with_bytes;
use crate::sniff;
use crate::text::{trim_end_char, utf8_text};
use crate::text;
use vstd::prelude::*;
use vstd::slice::*;
use vstd::utf8::*;

verus! {

// ---------------------------------------------------------------------------
// Metadata
// ---------------------------------------------------------------------------

/// The text that bytes encode, or nothing where they are not UTF-8.
pub open spec fn text_or_nothing(d: Seq<u8>) -> Seq<char> {
    if valid_utf8(d) {
        decode_utf8(d)
    } else {
        seq![]
    }
}

/// The name of the database: its first 32 bytes, without the zeros behind it.
pub open spec fn database_name(data: Seq<u8>) -> Seq<char> {
    let end = if data.len() < 32 {
        data.len() as int
    } else {
        32
    };
    text::trim_end_of(text_or_nothing(data.take(end)), '\0')
}

/// The first record, which holds the headers, up to the end of the file; it is
/// there where it has at least 132 bytes.
pub open spec fn first_record(data: Seq<u8>) -> Option<Seq<u8>> {
    if data.len() >= 132 && bytes::be32(data, 78) + 132 <= data.len() {
        Some(data.skip(bytes::be32(data, 78)))
    } else {
        None
    }
}

/// The full title: the text at the place that the header gives, nothing where
/// that lies outside or the text is not UTF-8.
pub open spec fn full_title(rec: Seq<u8>) -> Seq<char> {
    let at = bytes::be32(rec, 84);
    let len = bytes::be32(rec, 88);
    if len > 0 && at + len <= rec.len() {
        text_or_nothing(rec.subrange(at, at + len))
    } else {
        seq![]
    }
}

/// `EXTH`.
pub open spec fn exth_mark() -> Seq<u8> {
    seq![0x45u8, 0x58, 0x54, 0x48]
}

/// The extended records from `pos` on, up to `left` of them, each with its type
/// and what follows its type and length; one that is too short or reaches over
/// the end closes the list.
pub open spec fn extended_records(rec: Seq<u8>, pos: int, left: nat) -> Seq<(int, Seq<u8>)>
    decreases left,
{
    if left == 0 || pos + 8 > rec.len() {
        seq![]
    } else {
        let kind = bytes::be32(rec, pos);
        let len = bytes::be32(rec, pos + 4);
        if len < 8 || pos + len > rec.len() {
            seq![]
        } else {
            seq![(kind, rec.subrange(pos + 8, pos + len))] + extended_records(
                rec,
                pos + len,
                (left - 1) as nat,
            )
        }
    }
}

/// The extended records of the header; at most 1000 are read.
pub open spec fn header_records(rec: Seq<u8>) -> Seq<(int, Seq<u8>)> {
    let at = 16 + bytes::be32(rec, 20);
    if at + 12 <= rec.len() && rec.subrange(at, at + 4) == exth_mark() {
        let n = bytes::be32(rec, at + 8);
        extended_records(
            rec,
            at + 12,
            if n < 1000 {
                n as nat
            } else {
                1000
            },
        )
    } else {
        seq![]
    }
}

/// The author: what the last record of type 100 holds.
pub open spec fn last_author(records: Seq<(int, Seq<u8>)>) -> Seq<char>
    decreases records.len(),
{
    if records.len() == 0 {
        seq![]
    } else if records.last().0 == 100 {
        text_or_nothing(records.last().1)
    } else {
        last_author(records.drop_last())
    }
}

/// The title of a book: the full title, or else the name of the database.
pub open spec fn book_title(data: Seq<u8>) -> Seq<char> {
    match first_record(data) {
        Some(rec) => if full_title(rec).len() > 0 {
            full_title(rec)
        } else {
            database_name(data)
        },
        None => database_name(data),
    }
}

/// The author of a book.
pub open spec fn book_author(data: Seq<u8>) -> Seq<char> {
    match first_record(data) {
        Some(rec) => last_author(header_records(rec)),
        None => seq![],
    }
}

fn text_of(d: &[u8]) -> (s: String)
    ensures
        s@ == text_or_nothing(d@),
{
    match utf8_text(d) {
        Some(t) => t.to_owned(),
        None => {
            let s = String::new();
            assert(s@ =~= seq![]);
            s
        },
    }
}

fn read_author(rec: &[u8]) -> (author: String)
    requires
        rec@.len() >= 132,
    ensures
        author@ == last_author(header_records(rec@)),
{
    let mut author = String::new();
    assert(author@ =~= last_author(seq![]));
    let header_len: usize = read_be32(rec, 20) as usize;
    let total: usize = rec.len();
    if header_len > total - 28 {
        return author;
    }
    let at: usize = 16 + header_len;
    let mark = slice_subrange(rec, at, at + 4);
    assert(mark@ == rec@.subrange(at as int, at + 4));
    if !starts_with_bytes(mark, &[0x45, 0x58, 0x54, 0x48]) {
        assert(mark@.subrange(0, 4) =~= mark@);
        return author;
    }
    assert(mark@ =~= exth_mark());
    let n: u32 = read_be32(rec, at + 8);
    let items: u32 = if n < 1000 {
        n
    } else {
        1000
    };
    let mut left: u32 = items;
    let mut pos: usize = at + 12;
    let ghost mut seen: Seq<(int, Seq<u8>)> = seq![];
    assert(seen + extended_records(rec@, pos as int, left as nat) =~= header_records(rec@));
    while left > 0
        invariant_except_break
            pos <= total,
            total == rec@.len(),
            seen + extended_records(rec@, pos as int, left as nat) == header_records(rec@),
            author@ == last_author(seen),
        ensures
            author@ == last_author(header_records(rec@)),
        decreases left,
    {
        if total - pos < 8 {
            assert(seen + extended_records(rec@, pos as int, left as nat) =~= seen);
            break;
        }
        let kind: u32 = read_be32(rec, pos);
        let len: usize = read_be32(rec, pos + 4) as usize;
        if len < 8 || len > total - pos {
            assert(seen + extended_records(rec@, pos as int, left as nat) =~= seen);
            break;
        }
        if kind == 100 {
            author = text_of(slice_subrange(rec, pos + 8, pos + len));
        }
        proof {
            let record = (kind as int, rec@.subrange(pos + 8, pos + len));
            assert(seen.push(record).drop_last() =~= seen);
            assert(seen.push(record) + extended_records(rec@, pos + len, (left - 1) as nat)
                =~= seen + extended_records(rec@, pos as int, left as nat));
            seen = seen.push(record);
        }
        pos = pos + len;
        left -= 1;
        proof {
            if left == 0 {
                assert(seen + extended_records(rec@, pos as int, left as nat) =~= seen);
            }
        }
    }
    author
}

/// The title and author of a book.
pub fn extract_mobi_metadata(data: &[u8]) -> (r: (String, String))
    ensures
        r.0@ == book_title(data@),
        r.1@ == book_author(data@),
{
    let end: usize = if data.len() < 32 {
        data.len()
    } else {
        32
    };
    let head = slice_subrange(data, 0, end);
    assert(head@ =~= data@.take(end as int));
    let name = trim_end_char(text_of(head).as_str(), '\0');
    let nobody = String::new();
    assert(nobody@ =~= seq![]);
    if data.len() < 132 {
        return (name, nobody);
    }
    let offset: usize = read_be32(data, 78) as usize;
    if offset > data.len() - 132 {
        return (name, nobody);
    }
    let rec = slice_subrange(data, offset, data.len());
    assert(rec@ =~= data@.skip(offset as int));
    let at: usize = read_be32(rec, 84) as usize;
    let len: usize = read_be32(rec, 88) as usize;
    let author = read_author(rec);
    if len > 0 && at <= rec.len() && len <= rec.len() - at {
        let full = text_of(slice_subrange(rec, at, at + len));
        if full.as_str().is_empty() {
            (name, author)
        } else {
            (full, author)
        }
    } else {
        (name, author)
    }
}

// ---------------------------------------------------------------------------
// Pictures
// ---------------------------------------------------------------------------

/// How many entries of the record list can be read.
pub open spec fn record_count(data: Seq<u8>) -> int {
    let listed = bytes::be16(data, 76);
    let held = (data.len() - 74) / 8;
    if listed < held {
        listed
    } else {
        held
    }
}

/// Where the record with number `i` starts.
pub open spec fn record_start(data: Seq<u8>, i: int) -> int {
    bytes::be32(data, 78 + 8 * i)
}

/// Where it ends: at the start of the next, or at the end of the file.
pub open spec fn record_end(data: Seq<u8>, i: int) -> int {
    if i + 1 < record_count(data) {
        record_start(data, i + 1)
    } else {
        data.len() as int
    }
}

/// Whether a record starts like a picture and is longer than its mark.
pub open spec fn is_picture_record(record: Seq<u8>) -> bool {
    ||| record.len() > 3 && seq![0xFFu8, 0xD8, 0xFF].is_prefix_of(record)
    ||| record.len() > 4 && seq![0x89u8, 0x50, 0x4E, 0x47].is_prefix_of(record)
    ||| sniff::gif87().is_prefix_of(record)
    ||| sniff::gif89().is_prefix_of(record)
    ||| record.len() > 2 && seq![0x42u8, 0x4D].is_prefix_of(record)
}

/// Whether the record with number `i` lies inside the file and is a picture.
pub open spec fn holds_picture(data: Seq<u8>, i: int) -> bool {
    let start = record_start(data, i);
    let end = record_end(data, i);
    start < end <= data.len() && is_picture_record(data.subrange(start, end))
}

/// The pictures among the first `n` records, in their order.
pub open spec fn pictures_of(data: Seq<u8>, n: int) -> Seq<Seq<u8>>
    decreases n,
{
    if n <= 0 {
        seq![]
    } else if holds_picture(data, n - 1) {
        pictures_of(data, n - 1).push(
            data.subrange(record_start(data, n - 1), record_end(data, n - 1)),
        )
    } else {
        pictures_of(data, n - 1)
    }
}

/// The pictures of a book, in the order of its records.
pub open spec fn book_pictures(data: Seq<u8>) -> Seq<Seq<u8>> {
    pictures_of(data, record_count(data))
}

/// Every picture of a book is a piece of it that starts like a picture; none is
/// empty.
pub proof fn book_pictures_are_pictures(data: Seq<u8>, k: int)
    requires
        data.len() >= 78,
        0 <= k < book_pictures(data).len(),
    ensures
        is_picture_record(book_pictures(data)[k]),
        book_pictures(data)[k].len() > 0,
        exists|i: int|
            0 <= i < record_count(data) && holds_picture(data, i) && book_pictures(data)[k]
                == #[trigger] data.subrange(record_start(data, i), record_end(data, i)),
{
    lemma_pictures_are_records(data, record_count(data), k);
}

proof fn lemma_pictures_are_records(data: Seq<u8>, n: int, k: int)
    requires
        0 <= k < pictures_of(data, n).len(),
    ensures
        exists|i: int|
            0 <= i < n && holds_picture(data, i) && pictures_of(data, n)[k]
                == #[trigger] data.subrange(record_start(data, i), record_end(data, i)),
    decreases n,
{
    if holds_picture(data, n - 1) && k == pictures_of(data, n).len() - 1 {
        assert(pictures_of(data, n)[k] == data.subrange(
            record_start(data, n - 1),
            record_end(data, n - 1),
        ));
    } else {
        lemma_pictures_are_records(data, n - 1, k);
        assert(pictures_of(data, n)[k] == pictures_of(data, n - 1)[k]);
    }
}

fn picture_record(record: &[u8]) -> (r: bool)
    ensures
        r == is_picture_record(record@),
{
    (record.len() > 3 && starts_with_bytes(record, &[0xFF, 0xD8, 0xFF])) || (record.len() > 4
        && starts_with_bytes(record, &[0x89, 0x50, 0x4E, 0x47])) || starts_with_bytes(
        record,
        &[0x47, 0x49, 0x46, 0x38, 0x37, 0x61],
    ) || starts_with_bytes(record, &[0x47, 0x49, 0x46, 0x38, 0x39, 0x61]) || (record.len() > 2
        && starts_with_bytes(record, &[0x42, 0x4D]))
}

/// The pictures of a book. Only what has no room for a header is refused.
pub fn extract_images_from_mobi_data(data: &[u8]) -> (r: Result<Vec<Vec<u8>>, String>)
    ensures
        r is Err <==> data@.len() < 78,
        r is Err ==> r->Err_0@ == "File too small to be MOBI"@,
        r is Ok ==> bytes::contents(r->Ok_0@) == book_pictures(data@),
{
    if data.len() < 78 {
        return Err("File too small to be MOBI".to_owned());
    }
    let listed: usize = read_be16(data, 76) as usize;
    let held: usize = (data.len() - 74) / 8;
    let count: usize = if listed < held {
        listed
    } else {
        held
    };
    let mut images: Vec<Vec<u8>> = Vec::new();
    assert(bytes::contents(images@) =~= pictures_of(data@, 0));
    let mut i: usize = 0;
    while i < count
        invariant
            i <= count == record_count(data@),
            74 + 8 * count <= data@.len(),
            bytes::contents(images@) == pictures_of(data@, i as int),
        decreases count - i,
    {
        let start: usize = read_be32(data, 78 + 8 * i) as usize;
        let end: usize = if i + 1 < count {
            read_be32(data, 78 + 8 * (i + 1)) as usize
        } else {
            data.len()
        };
        if start < end && end <= data.len() {
            let record = slice_subrange(data, start, end);
            if picture_record(record) {
                let image = slice_to_vec(record);
                proof {
                    bytes::lemma_contents_push(images@, image);
                }
                images.push(image);
            }
        }
        i += 1;
    }
    Ok(images)
}

// ---------------------------------------------------------------------------
// Laws of books
// ---------------------------------------------------------------------------


proof fn lemma_picture_places(data: Seq<u8>, n: int) -> (at: Seq<int>)
    requires
        0 <= n,
    ensures
        at.len() == pictures_of(data, n).len(),
        forall|k: int| 0 <= k < at.len() ==> 0 <= #[trigger] at[k] < n,
        forall|j: int, k: int| 0 <= j < k < at.len() ==> #[trigger] at[j] < #[trigger] at[k],
        forall|k: int|
            0 <= k < at.len() ==> pictures_of(data, n)[k] == data.subrange(
                record_start(data, #[trigger] at[k]),
                record_end(data, at[k]),
            ),
        forall|i: int| 0 <= i < n ==> (#[trigger] at.contains(i) <==> holds_picture(data, i)),
    decreases n,
{
    if n == 0 {
        seq![]
    } else {
        let before = lemma_picture_places(data, n - 1);
        if holds_picture(data, n - 1) {
            let at = before.push(n - 1);
            assert forall|i: int| 0 <= i < n implies (#[trigger] at.contains(i) <==> holds_picture(
                data,
                i,
            )) by {
                if i < n - 1 {
                    assert(before.contains(i) <==> holds_picture(data, i));
                    if before.contains(i) {
                        let k = choose|k: int| 0 <= k < before.len() && before[k] == i;
                        assert(at[k] == i);
                    }
                } else {
                    assert(at[before.len() as int] == i);
                }
            }
            at
        } else {
            before
        }
    }
}

/// The pictures of a book are just the records inside the file that start with the
/// mark of a picture, each once and in the order of the records, however long they
/// are. `r` is how many records are listed and can be read, and which of them are
/// pictures: the list starts at byte 78 and has eight bytes for each record, the
/// first four of which say where it starts; a record ends where the next starts.
pub proof fn pictures_are_the_records_with_a_mark(data: Seq<u8>) -> (r: (int, Seq<int>))
    requires
        data.len() >= 78,
    ensures
        0 <= r.0 <= bytes::be16(data, 76),
        74 + 8 * r.0 <= data.len(),
        r.0 == bytes::be16(data, 76) || data.len() < 74 + 8 * (r.0 + 1),
        r.1.len() == book_pictures(data).len(),
        forall|j: int, k: int| 0 <= j < k < r.1.len() ==> #[trigger] r.1[j] < #[trigger] r.1[k],
        forall|k: int|
            0 <= k < r.1.len() ==> 0 <= #[trigger] r.1[k] < r.0 && book_pictures(data)[k]
                == data.subrange(
                bytes::be32(data, 78 + 8 * r.1[k]),
                if r.1[k] == r.0 - 1 {
                    data.len() as int
                } else {
                    bytes::be32(data, 78 + 8 * (r.1[k] + 1))
                },
            ),
        forall|i: int|
            0 <= i < r.0 ==> (#[trigger] r.1.contains(i) <==> {
                let start = bytes::be32(data, 78 + 8 * i);
                let end = if i == r.0 - 1 {
                    data.len() as int
                } else {
                    bytes::be32(data, 78 + 8 * (i + 1))
                };
                &&& start < end <= data.len()
                &&& {
                    ||| end - start > 3 && data[start] == 0xFF && data[start + 1] == 0xD8 && data[start
                        + 2] == 0xFF
                    ||| end - start > 4 && data[start] == 0x89 && data[start + 1] == 0x50 && data[start
                        + 2] == 0x4E && data[start + 3] == 0x47
                    ||| end - start >= 6 && data[start] == 0x47 && data[start + 1] == 0x49 && data[start
                        + 2] == 0x46 && data[start + 3] == 0x38 && (data[start + 4] == 0x37 || data[start
                        + 4] == 0x39) && data[start + 5] == 0x61
                    ||| end - start > 2 && data[start] == 0x42 && data[start + 1] == 0x4D
                }
            }),
{
    let n = record_count(data);
    let at = lemma_picture_places(data, n);
    assert forall|i: int| 0 <= i < n implies (#[trigger] at.contains(i) <==> {
        let start = bytes::be32(data, 78 + 8 * i);
        let end = if i == n - 1 {
            data.len() as int
        } else {
            bytes::be32(data, 78 + 8 * (i + 1))
        };
        &&& start < end <= data.len()
        &&& {
            ||| end - start > 3 && data[start] == 0xFF && data[start + 1] == 0xD8 && data[start + 2]
                == 0xFF
            ||| end - start > 4 && data[start] == 0x89 && data[start + 1] == 0x50 && data[start + 2]
                == 0x4E && data[start + 3] == 0x47
            ||| end - start >= 6 && data[start] == 0x47 && data[start + 1] == 0x49 && data[start + 2]
                == 0x46 && data[start + 3] == 0x38 && (data[start + 4] == 0x37 || data[start + 4]
                == 0x39) && data[start + 5] == 0x61
            ||| end - start > 2 && data[start] == 0x42 && data[start + 1] == 0x4D
        }
    }) by {
        let start = record_start(data, i);
        let end = record_end(data, i);
        if start < end <= data.len() {
            lemma_marks(data.subrange(start, end));
        }
    }
    (n, at)
}

proof fn lemma_marks(d: Seq<u8>)
    ensures
        is_picture_record(d) <==> {
            ||| d.len() > 3 && d[0] == 0xFF && d[1] == 0xD8 && d[2] == 0xFF
            ||| d.len() > 4 && d[0] == 0x89 && d[1] == 0x50 && d[2] == 0x4E && d[3] == 0x47
            ||| d.len() >= 6 && d[0] == 0x47 && d[1] == 0x49 && d[2] == 0x46 && d[3] == 0x38 && (d[4]
                == 0x37 || d[4] == 0x39) && d[5] == 0x61
            ||| d.len() > 2 && d[0] == 0x42 && d[1] == 0x4D
        },
{
    if d.len() >= 2 {
        let p = d.subrange(0, 2);
        assert(p[0] == d[0] && p[1] == d[1]);
        if d[0] == 0x42 && d[1] == 0x4D {
            assert(seq![0x42u8, 0x4D] =~= p);
        }
    }
    if d.len() >= 3 {
        let p = d.subrange(0, 3);
        assert(p[0] == d[0] && p[1] == d[1] && p[2] == d[2]);
        if d[0] == 0xFF && d[1] == 0xD8 && d[2] == 0xFF {
            assert(seq![0xFFu8, 0xD8, 0xFF] =~= p);
        }
    }
    if d.len() >= 4 {
        let p = d.subrange(0, 4);
        assert(p[0] == d[0] && p[1] == d[1] && p[2] == d[2] && p[3] == d[3]);
        if d[0] == 0x89 && d[1] == 0x50 && d[2] == 0x4E && d[3] == 0x47 {
            assert(seq![0x89u8, 0x50, 0x4E, 0x47] =~= p);
        }
    }
    if d.len() >= 6 {
        let p = d.subrange(0, 6);
        assert(p[0] == d[0] && p[1] == d[1] && p[2] == d[2] && p[3] == d[3] && p[4] == d[4] && p[5]
            == d[5]);
        if d[0] == 0x47 && d[1] == 0x49 && d[2] == 0x46 && d[3] == 0x38 && d[5] == 0x61 {
            if d[4] == 0x37 {
                assert(sniff::gif87() =~= p);
            }
            if d[4] == 0x39 {
                assert(sniff::gif89() =~= p);
            }
        }
    }
}

/// The title of a book is the text that its header points to: byte 84 of the first
/// record says where it is, and byte 88 how long it is. The first record starts
/// where byte 78 of the file says.
pub proof fn titles_stand_where_the_header_says(data: Seq<u8>, first: int, at: int, len: int)
    requires
        data.len() >= 132,
        first == bytes::be32(data, 78),
        first + 132 <= data.len(),
        at == bytes::be32(data, first + 84),
        len == bytes::be32(data, first + 88),
        len > 0,
        first + at + len <= data.len(),
        valid_utf8(data.subrange(first + at, first + at + len)),
        decode_utf8(data.subrange(first + at, first + at + len)).len() > 0,
    ensures
        book_title(data) == decode_utf8(data.subrange(first + at, first + at + len)),
{
    let rec = data.skip(first);
    assert(rec[84] == data[first + 84] && rec[85] == data[first + 85] && rec[86] == data[first + 86]
        && rec[87] == data[first + 87]);
    assert(rec[88] == data[first + 88] && rec[89] == data[first + 89] && rec[90] == data[first + 90]
        && rec[91] == data[first + 91]);
    assert(rec.subrange(at, at + len) =~= data.subrange(first + at, first + at + len));
}

/// Without such a text the title is the name of the database: the text in the first
/// 32 bytes of the file, without the zeros behind it. `r` is that text and how many
/// zeros are behind it.
pub proof fn titles_are_else_the_name_of_the_database(data: Seq<u8>) -> (r: (Seq<char>, int))
    requires
        ({
            let first = bytes::be32(data, 78);
            let at = bytes::be32(data, first + 84);
            let len = bytes::be32(data, first + 88);
            ||| data.len() < 132
            ||| data.len() < first + 132
            ||| len == 0
            ||| data.len() < first + at + len
            ||| !valid_utf8(data.subrange(first + at, first + at + len))
        }),
    ensures
        data.len() >= 32 && valid_utf8(data.take(32)) ==> r.0 == decode_utf8(data.take(32)),
        data.len() >= 32 && !valid_utf8(data.take(32)) ==> r.0 == Seq::<char>::empty(),
        data.len() < 32 && valid_utf8(data) ==> r.0 == decode_utf8(data),
        data.len() < 32 && !valid_utf8(data) ==> r.0 == Seq::<char>::empty(),
        0 <= r.1 <= r.0.len(),
        book_title(data) == r.0.take(r.0.len() - r.1),
        forall|i: int| r.0.len() - r.1 <= i < r.0.len() ==> #[trigger] r.0[i] == '\0',
        r.1 < r.0.len() ==> r.0[r.0.len() - r.1 - 1] != '\0',
{
    let end = if data.len() < 32 {
        data.len() as int
    } else {
        32
    };
    let name = text_or_nothing(data.take(end));
    if data.len() < 32 {
        assert(data.take(end) =~= data);
    }
    text::trimming_takes_only_the_end(name, '\0');
    if data.len() >= 132 && bytes::be32(data, 78) + 132 <= data.len() {
        let first = bytes::be32(data, 78);
        let rec = data.skip(first);
        assert(rec[84] == data[first + 84] && rec[85] == data[first + 85] && rec[86] == data[first
            + 86] && rec[87] == data[first + 87]);
        assert(rec[88] == data[first + 88] && rec[89] == data[first + 89] && rec[90] == data[first
            + 90] && rec[91] == data[first + 91]);
        let at = bytes::be32(rec, 84);
        let len = bytes::be32(rec, 88);
        if at + len <= rec.len() {
            assert(rec.subrange(at, at + len) =~= data.subrange(first + at, first + at + len));
        }
    }
    (name, name.len() - text::trim_end_of(name, '\0').len())
}

/// The extended records stand one behind the other: each has its type in the first
/// four bytes and its length in the next four, and the list goes on where it ends.
pub proof fn extended_records_follow_each_other(rec: Seq<u8>, pos: int, left: nat)
    requires
        0 <= pos <= rec.len(),
    ensures
        ({
            let list = extended_records(rec, pos, left);
            &&& list.len() <= left
            &&& list.len() > 0 <==> left > 0 && pos + 8 <= rec.len() && 8 <= bytes::be32(rec, pos + 4)
                <= rec.len() - pos
            &&& list.len() > 0 ==> {
                let end = pos + bytes::be32(rec, pos + 4);
                &&& list[0].0 == bytes::be32(rec, pos)
                &&& list[0].1 == rec.subrange(pos + 8, end)
                &&& list.skip(1) == extended_records(rec, end, (left - 1) as nat)
            }
        }),
    decreases left,
{
    if left > 0 && pos + 8 <= rec.len() && 8 <= bytes::be32(rec, pos + 4) <= rec.len() - pos {
        let end = pos + bytes::be32(rec, pos + 4);
        extended_records_follow_each_other(rec, end, (left - 1) as nat);
        assert(extended_records(rec, pos, left).skip(1) =~= extended_records(
            rec,
            end,
            (left - 1) as nat,
        ));
    }
}

/// The extended records follow the header, whose length stands at byte 20: behind
/// their mark, their size and their number, of which no more than 1000 are read.
pub proof fn extended_records_follow_the_header(rec: Seq<u8>, at: int) -> (n: nat)
    requires
        rec.len() >= 132,
        at == 16 + bytes::be32(rec, 20),
    ensures
        at + 12 <= rec.len() && rec[at] == 0x45 && rec[at + 1] == 0x58 && rec[at + 2] == 0x54 && rec[at
            + 3] == 0x48 ==> {
            &&& header_records(rec) == extended_records(rec, at + 12, n)
            &&& n <= 1000 && n <= bytes::be32(rec, at + 8)
            &&& n == 1000 || n == bytes::be32(rec, at + 8)
        },
        !(at + 12 <= rec.len() && rec[at] == 0x45 && rec[at + 1] == 0x58 && rec[at + 2] == 0x54
            && rec[at + 3] == 0x48) ==> header_records(rec).len() == 0,
{
    if at + 12 <= rec.len() {
        let mark = rec.subrange(at, at + 4);
        assert(mark[0] == rec[at] && mark[1] == rec[at + 1] && mark[2] == rec[at + 2] && mark[3]
            == rec[at + 3]);
        if rec[at] == 0x45 && rec[at + 1] == 0x58 && rec[at + 2] == 0x54 && rec[at + 3] == 0x48 {
            assert(mark =~= exth_mark());
        }
        let listed = bytes::be32(rec, at + 8);
        if listed < 1000 {
            listed as nat
        } else {
            1000
        }
    } else {
        0
    }
}

/// The author is what the last record of type 100 holds, nothing where there is
/// none or it is not UTF-8.
pub proof fn the_last_author_counts(records: Seq<(int, Seq<u8>)>, k: int)
    requires
        0 <= k < records.len() ==> records[k].0 == 100,
        forall|i: int| 0 <= i < records.len() && i > k ==> (#[trigger] records[i]).0 != 100,
        k < records.len(),
    ensures
        k < 0 ==> last_author(records) == Seq::<char>::empty(),
        k >= 0 && valid_utf8(records[k].1) ==> last_author(records) == decode_utf8(records[k].1),
        k >= 0 && !valid_utf8(records[k].1) ==> last_author(records) == Seq::<char>::empty(),
    decreases records.len(),
{
    if records.len() > 0 && k < records.len() - 1 {
        assert(records[records.len() - 1].0 != 100);
        let rest = records.drop_last();
        assert forall|i: int| 0 <= i < rest.len() && i > k implies (#[trigger] rest[i]).0 != 100 by {
            assert(rest[i] == records[i]);
        }
        the_last_author_counts(rest, k);
    }
}

/// The author of a book stands in the extended records of its first record.
pub proof fn authors_stand_in_the_first_record(data: Seq<u8>, first: int)
    requires
        first == bytes::be32(data, 78),
    ensures
        data.len() >= 132 && first + 132 <= data.len() ==> book_author(data) == last_author(
            header_records(data.subrange(first, data.len() as int)),
        ),
        data.len() < 132 || first + 132 > data.len() ==> book_author(data) == Seq::<char>::empty(),
{
    if data.len() >= 132 && first + 132 <= data.len() {
        assert(data.skip(first) =~= data.subrange(first, data.len() as int));
    }
}

} // verus!
