//! Writing the pages of a book into a CBZ file, under running numbers.

use crate::archive::Taken;
use crate::archive;
use crate::bytes;
use crate::cache;
use crate::listing;
use crate::names::numbered_name;
use crate::names;
use crate::natural;
use crate::progress::{ConvertProgress, report_count};
use crate::progress;
use crate::text::join;
use crate::text;
use std::io::{Cursor, Write};
use vstd::prelude::*;
use vstd::utf8::encode_utf8;
use zip::ZipWriter;

verus! {

/// The pages that were made of each picture, as they are written one picture
/// after the other.
pub struct CbzRun {
    pub made: Vec<Result<Vec<Vec<u8>>, String>>,
    pub done: usize,
    pub written: usize,
}

/// A page in a CBZ file.
pub struct CbzEntry {
    pub name: String,
    pub content: Vec<u8>,
}

/// What is done next about the pages.
pub enum CbzStep {
    /// A picture could not be made into pages: the file is given up.
    Failed(String),
    /// The pages of one picture are to be written.
    Write(ConvertProgress, Vec<CbzEntry>),
    /// All pages are written.
    Finished,
}

/// Pages with their names, as plain values.
pub open spec fn entry_views(list: Seq<CbzEntry>) -> Seq<(Seq<char>, Seq<u8>)> {
    list.map_values(|e: CbzEntry| (e.name@, e.content@))
}

/// Pages under the numbers from `first` on.
pub open spec fn numbered_pages(first: nat, pages: Seq<Seq<u8>>) -> Seq<(Seq<char>, Seq<u8>)> {
    Seq::new(pages.len(), |k: int| (names::numbered((first + k) as nat, "jpg"@), pages[k]))
}

/// The pages of all pictures, or the failure of the first picture that failed.
pub open spec fn all_pages(made: Seq<Result<Vec<Vec<u8>>, String>>) -> Result<
    Seq<Seq<u8>>,
    Seq<char>,
>
    decreases made.len(),
{
    if made.len() == 0 {
        Ok(seq![])
    } else {
        match all_pages(made.drop_last()) {
            Err(e) => Err(e),
            Ok(before) => match made.last() {
                Err(e) => Err(e@),
                Ok(pages) => Ok(before + bytes::contents(pages@)),
            },
        }
    }
}

/// A book can be made just where every picture could be made into pages; else the
/// first picture that failed says why not.
pub proof fn books_need_every_picture(made: Seq<Result<Vec<Vec<u8>>, String>>)
    ensures
        match all_pages(made) {
            Ok(_) => forall|i: int| 0 <= i < made.len() ==> (#[trigger] made[i]) is Ok,
            Err(e) => exists|k: int|
                0 <= k < made.len() && (#[trigger] made[k]) is Err && made[k]->Err_0@ == e
                    && forall|i: int| 0 <= i < k ==> (#[trigger] made[i]) is Ok,
        },
    decreases made.len(),
{
    if made.len() > 0 {
        let rest = made.drop_last();
        books_need_every_picture(rest);
        match all_pages(rest) {
            Ok(_) => {
                assert forall|i: int| 0 <= i < made.len() - 1 implies (#[trigger] made[i]) is Ok by {
                    assert(rest[i] is Ok);
                }
                assert(made.last() == made[made.len() - 1]);
            },
            Err(e) => {
                let k = choose|k: int|
                    0 <= k < rest.len() && (#[trigger] rest[k]) is Err && rest[k]->Err_0@ == e
                        && forall|i: int| 0 <= i < k ==> (#[trigger] rest[i]) is Ok;
                assert(made[k] is Err);
                assert forall|i: int| 0 <= i < k implies (#[trigger] made[i]) is Ok by {
                    assert(rest[i] is Ok);
                }
            },
        }
    }
}

impl CbzRun {
    /// The first pictures are done, and their pages are counted.
    pub open spec fn valid(&self) -> bool {
        &&& self.done <= self.made@.len()
        &&& all_pages(self.made@.take(self.done as int)) is Ok
        &&& self.written == all_pages(self.made@.take(self.done as int))->Ok_0.len()
    }

    /// Starts with nothing written.
    pub fn new(made: Vec<Result<Vec<Vec<u8>>, String>>) -> (run: Self)
        ensures
            run.valid(),
            run.made == made,
            run.done == 0,
            run.written == 0,
    {
        assert(made@.take(0) =~= seq![]);
        CbzRun { made, done: 0, written: 0 }
    }

    /// What is written next: the pages of the next picture, under the numbers
    /// that follow those already written.
    pub fn step(&mut self) -> (r: CbzStep)
        requires
            old(self).valid(),
            old(self).done < old(self).made@.len() && old(self).made@[old(self).done as int] is Ok
                ==> old(self).written + old(self).made@[old(self).done as int]->Ok_0@.len()
                <= usize::MAX,
        ensures
            final(self).valid(),
            final(self).made == old(self).made,
            old(self).done == old(self).made@.len() ==> r is Finished && *final(self) == *old(self),
            old(self).done < old(self).made@.len() ==> match old(self).made@[old(self).done as int] {
                Err(e) => r is Failed && r->Failed_0@ == e@ && *final(self) == *old(self),
                Ok(pages) => {
                    &&& r is Write
                    &&& progress::reports(
                        r->Write_0,
                        "Writing"@,
                        (old(self).done + 1) as nat,
                        old(self).made@.len(),
                    )
                    &&& entry_views(r->Write_1@) == numbered_pages(
                        old(self).written as nat,
                        bytes::contents(pages@),
                    )
                    &&& final(self).done == old(self).done + 1
                    &&& final(self).written == old(self).written + pages@.len()
                },
            },
    {
        let total: usize = self.made.len();
        if self.done == total {
            return CbzStep::Finished;
        }
        match &self.made[self.done] {
            Err(e) => CbzStep::Failed(e.clone()),
            Ok(pages) => {
                let ghost want = numbered_pages(self.written as nat, bytes::contents(pages@));
                let mut entries: Vec<CbzEntry> = Vec::new();
                let mut k: usize = 0;
                while k < pages.len()
                    invariant
                        k <= pages@.len(),
                        self.written + pages@.len() <= usize::MAX,
                        want == numbered_pages(self.written as nat, bytes::contents(pages@)),
                        entry_views(entries@) == want.take(k as int),
                    decreases pages.len() - k,
                {
                    let entry = CbzEntry {
                        name: numbered_name(self.written + k, "jpg"),
                        content: vstd::slice::slice_to_vec(pages[k].as_slice()),
                    };
                    let ghost before = entries@;
                    entries.push(entry);
                    assert(entry_views(entries@) =~= entry_views(before).push(
                        (entry.name@, entry.content@),
                    ));
                    assert(bytes::contents(pages@)[k as int] == pages@[k as int]@);
                    assert(entry_views(entries@) =~= want.take(k + 1));
                    k += 1;
                }
                assert(entry_views(entries@) =~= want);
                proof {
                    let d = self.done as int;
                    assert(self.made@.take(d + 1).drop_last() =~= self.made@.take(d));
                    assert(self.made@.take(d + 1).last() == self.made@[d]);
                    assert(bytes::contents(pages@).len() == pages@.len());
                }
                let count: usize = pages.len();
                self.written = self.written + count;
                self.done = self.done + 1;
                CbzStep::Write(report_count("Writing", self.done, total), entries)
            },
        }
    }
}

/// A run that ends wrote every page once, in order, under the numbers from 0 on:
/// what a step writes are the next pages of the whole book.
pub proof fn steps_write_the_whole_book(made: Seq<Result<Vec<Vec<u8>>, String>>, d: int)
    requires
        0 <= d < made.len(),
        all_pages(made) is Ok,
    ensures
        made[d] is Ok,
        all_pages(made.take(d)) is Ok,
        ({
            let start = all_pages(made.take(d))->Ok_0.len() as int;
            let pages = bytes::contents(made[d]->Ok_0@);
            &&& start + pages.len() <= all_pages(made)->Ok_0.len()
            &&& pages == all_pages(made)->Ok_0.subrange(start, start + pages.len())
        }),
    decreases made.len(),
{
    let rest = made.drop_last();
    if d == made.len() - 1 {
        assert(made.take(d) =~= rest);
        let start = all_pages(rest)->Ok_0.len() as int;
        let pages = bytes::contents(made[d]->Ok_0@);
        assert(pages =~= all_pages(made)->Ok_0.subrange(start, start + pages.len()));
    } else {
        steps_write_the_whole_book(rest, d);
        assert(rest.take(d) =~= made.take(d));
        assert(rest[d] == made[d]);
        let start = all_pages(made.take(d))->Ok_0.len() as int;
        let pages = bytes::contents(made[d]->Ok_0@);
        assert(pages =~= all_pages(made)->Ok_0.subrange(start, start + pages.len()));
    }
}

/// What the steps of a run write joins up: where the pages of the first pictures
/// stand under the numbers from 0 on, so do those with the next picture's.
pub proof fn steps_join_up(made: Seq<Result<Vec<Vec<u8>>, String>>, d: int)
    requires
        0 <= d < made.len(),
        all_pages(made.take(d)) is Ok,
        made[d] is Ok,
    ensures
        all_pages(made.take(d + 1)) is Ok,
        numbered_pages(0, all_pages(made.take(d))->Ok_0) + numbered_pages(
            all_pages(made.take(d))->Ok_0.len(),
            bytes::contents(made[d]->Ok_0@),
        ) == numbered_pages(0, all_pages(made.take(d + 1))->Ok_0),
{
    assert(made.take(d + 1).drop_last() =~= made.take(d));
    assert(made.take(d + 1).last() == made[d]);
    let first = all_pages(made.take(d))->Ok_0;
    let next = bytes::contents(made[d]->Ok_0@);
    assert(all_pages(made.take(d + 1))->Ok_0 == first + next);
    assert(numbered_pages(0, first) + numbered_pages(first.len(), next) =~= numbered_pages(
        0,
        first + next,
    ));
}

/// The pages of a CBZ file are found in the order in which they were made: their
/// names are in natural order.
pub proof fn written_pages_are_in_reading_order(first: nat, pages: Seq<Seq<u8>>, i: int, j: int)
    requires
        0 <= i < j < pages.len(),
    ensures
        natural::natural_lt(numbered_pages(first, pages)[i].0, numbered_pages(first, pages)[j].0),
{
    names::numbered_names_are_in_natural_order((first + i) as nat, (first + j) as nat, "jpg"@, "jpg"@);
}

// ---------------------------------------------------------------------------
// The zip crate
// ---------------------------------------------------------------------------

/// A CBZ file that is being written in memory.
#[verifier::external_body]
pub struct CbzBook {
    writer: ZipWriter<Cursor<Vec<u8>>>,
}

/// The pages in a CBZ file that is being written, with their names.
pub uninterp spec fn book_entries(book: CbzBook) -> Seq<(Seq<char>, Seq<u8>)>;

/// Whether every page that was to be added to a CBZ file was added.
pub uninterp spec fn book_intact(book: CbzBook) -> bool;

/// Whether a name can be written: the format counts its bytes in 16 bits.
pub open spec fn fits_name(name: Seq<char>) -> bool {
    encode_utf8(name).len() <= 0xFFFF
}

/// Whether all names can be written.
pub open spec fn fitting_names(entries: Seq<(Seq<char>, Seq<u8>)>) -> bool {
    forall|i: int| 0 <= i < entries.len() ==> fits_name((#[trigger] entries[i]).0)
}

/// Whether no entry has the name.
pub open spec fn is_new(entries: Seq<(Seq<char>, Seq<u8>)>, name: Seq<char>) -> bool {
    forall|i: int| 0 <= i < entries.len() ==> (#[trigger] entries[i]).0 != name
}

/// Whether an entry can follow others: its name is new, and its size can be
/// written in 32 bits.
pub open spec fn can_follow(
    entries: Seq<(Seq<char>, Seq<u8>)>,
    entry: (Seq<char>, Seq<u8>),
) -> bool {
    is_new(entries, entry.0) && entry.1.len() <= 0xFFFF_FFFF
}

/// Whether entries can follow others, one after the other.
pub open spec fn can_all_follow(
    entries: Seq<(Seq<char>, Seq<u8>)>,
    next: Seq<(Seq<char>, Seq<u8>)>,
) -> bool {
    forall|i: int| 0 <= i < next.len() ==> can_follow(entries + next.take(i), #[trigger] next[i])
}

/// Whether a name is a plain file name in ASCII.
pub open spec fn is_plain_name(name: Seq<char>) -> bool {
    &&& 0 < name.len() < 256
    &&& forall|i: int|
        0 <= i < name.len() ==> (#[trigger] name[i]) < '\u{80}' && name[i] != '/' && name[i] != '\\'
}

/// Whether all pages have plain names.
pub open spec fn plain_entries(entries: Seq<(Seq<char>, Seq<u8>)>) -> bool {
    forall|i: int| 0 <= i < entries.len() ==> is_plain_name((#[trigger] entries[i]).0)
}

/// Whether an archive holds just these entries, in this order and uncompressed.
pub open spec fn holds(data: Seq<u8>, entries: Seq<(Seq<char>, Seq<u8>)>) -> bool {
    &&& archive::zip_open(data) is Ok
    &&& archive::zip_len(data) == entries.len()
    &&& forall|i: int|
        0 <= i < entries.len() ==> archive::zip_name(data, i) == Some((#[trigger] entries[i]).0) && archive::zip_entry(
            data,
            entries[i].0,
        ) == Ok::<(u64, Result<Seq<u8>, Seq<char>>), Seq<char>>(
            (entries[i].1.len() as u64, Ok(entries[i].1)),
        )
}

/// `ZipWriter::new` over memory: an archive without entries.
#[verifier::external_body]
fn new_book() -> (book: CbzBook)
    ensures
        book_intact(book),
        book_entries(book) == Seq::<(Seq<char>, Seq<u8>)>::empty(),
{
    CbzBook { writer: ZipWriter::new(Cursor::new(Vec::new())) }
}

/// `ZipWriter::start_file` with the method that stores, and `Write::write_all`:
/// adds an entry. A name that is taken is refused, and so is a content of 4 GB or
/// more. Nothing else fails in memory, as long as nothing has failed before; what
/// is left of an archive after a failure is not said. A name whose length cannot
/// be written makes it panic.
#[verifier::external_body]
fn add_entry(book: &mut CbzBook, name: &str, content: &[u8]) -> (r: Result<(), String>)
    requires
        fits_name(name@),
    ensures
        r is Ok ==> can_follow(book_entries(*old(book)), (name@, content@)),
        r is Ok ==> book_entries(*final(book)) == book_entries(*old(book)).push((name@, content@)),
        book_intact(*old(book)) && can_follow(book_entries(*old(book)), (name@, content@)) ==> r is Ok
            && book_intact(*final(book)),
{
    let options = zip::write::SimpleFileOptions::default()
        .compression_method(zip::CompressionMethod::Stored);
    book.writer.start_file(name, options).map_err(|e| e.to_string())?;
    book.writer.write_all(content).map_err(|e| e.to_string())
}

/// `ZipWriter::finish`: the bytes of the archive. It does not fail in memory where
/// nothing has failed before. Where the names are plain and no large numbers are
/// needed, which come with 65535 entries or 4 GB, reading the archive gives back
/// what was added. Of larger ones that is not said.
#[verifier::external_body]
fn finish_book(book: CbzBook) -> (r: Result<Vec<u8>, String>)
    ensures
        book_intact(book) ==> r is Ok,
        r is Ok && plain_entries(book_entries(book)) && book_entries(book).len() < 0xFFFF
            && r->Ok_0@.len() < 0xFFFF_FFFF ==> holds(r->Ok_0@, book_entries(book)),
{
    book.writer.finish().map(|cursor| cursor.into_inner()).map_err(|e| e.to_string())
}

// ---------------------------------------------------------------------------
// Writing a file
// ---------------------------------------------------------------------------

impl CbzBook {
    /// A CBZ file without pages.
    pub fn start() -> (book: Self)
        ensures
            book_intact(book),
            book_entries(book) == Seq::<(Seq<char>, Seq<u8>)>::empty(),
    {
        new_book()
    }

    /// Adds pages, or says why that failed: a name was taken, or a page is too
    /// large.
    pub fn write(&mut self, entries: &Vec<CbzEntry>) -> (r: Result<(), String>)
        requires
            fitting_names(entry_views(entries@)),
        ensures
            book_intact(*old(self)) ==> (r is Ok <==> can_all_follow(
                book_entries(*old(self)),
                entry_views(entries@),
            )),
            r is Ok ==> book_entries(*final(self)) == book_entries(*old(self)) + entry_views(
                entries@,
            ),
            r is Ok && book_intact(*old(self)) ==> book_intact(*final(self)),
            r is Err ==> "ZIP write error: "@.is_prefix_of(r->Err_0@),
    {
        let ghost before = book_entries(*self);
        let ghost all = entry_views(entries@);
        let mut i: usize = 0;
        assert(before + all.take(0) =~= before);
        while i < entries.len()
            invariant
                i <= entries@.len(),
                all == entry_views(entries@),
                fitting_names(all),
                before == book_entries(*old(self)),
                book_entries(*self) == before + all.take(i as int),
                book_intact(*old(self)) ==> book_intact(*self),
                forall|k: int| 0 <= k < i ==> can_follow(before + all.take(k), #[trigger] all[k]),
            decreases entries.len() - i,
        {
            let entry = &entries[i];
            assert(all[i as int] == (entry.name@, entry.content@));
            match add_entry(self, entry.name.as_str(), entry.content.as_slice()) {
                Ok(_) => {},
                Err(e) => {
                    let text = join("ZIP write error: ", e.as_str());
                    assert("ZIP write error: "@ =~= text@.subrange(
                        0,
                        "ZIP write error: "@.len() as int,
                    ));
                    return Err(text);
                },
            }
            assert(before + all.take(i + 1) =~= (before + all.take(i as int)).push(all[i as int]));
            i += 1;
        }
        assert(all.take(i as int) =~= all);
        Ok(())
    }

    /// The bytes of the file, or why it could not be closed after a failure. A
    /// file of ordinary size reads back what was written.
    pub fn finish(self) -> (r: Result<Vec<u8>, String>)
        ensures
            book_intact(self) ==> r is Ok,
            r is Ok && plain_entries(book_entries(self)) && book_entries(self).len() < 0xFFFF
                && r->Ok_0@.len() < 0xFFFF_FFFF ==> holds(r->Ok_0@, book_entries(self)),
            r is Err ==> "ZIP finalize error: "@.is_prefix_of(r->Err_0@),
    {
        match finish_book(self) {
            Ok(data) => Ok(data),
            Err(e) => {
                let text = join("ZIP finalize error: ", e.as_str());
                assert("ZIP finalize error: "@ =~= text@.subrange(
                    0,
                    "ZIP finalize error: "@.len() as int,
                ));
                Err(text)
            },
        }
    }
}

/// The names that pages are written under are plain.
pub proof fn numbered_pages_are_plain(first: nat, pages: Seq<Seq<u8>>)
    requires
        first + pages.len() <= u64::MAX,
    ensures
        plain_entries(numbered_pages(first, pages)),
{
    assert forall|i: int| 0 <= i < pages.len() implies is_plain_name(
        (#[trigger] numbered_pages(first, pages)[i]).0,
    ) by {
        lemma_numbered_chars((first + i) as nat);
    }
}

proof fn lemma_numbered_chars(i: nat)
    requires
        i <= u64::MAX,
    ensures
        is_plain_name(names::numbered(i, "jpg"@)),
        listing::is_page_name(names::numbered(i, "jpg"@)),
{
    reveal_strlit(".");
    reveal_strlit("jpg");
    reveal_strlit(".jpg");
    names::lemma_decimal4(i);
    names::lemma_decimal_length(i);
    let d = text::decimal4(i);
    let s = names::numbered(i, "jpg"@);
    assert(s.len() == d.len() + 4);
    assert forall|k: int| 0 <= k < s.len() implies (#[trigger] s[k]) < '\u{80}' && s[k] != '/' && s[k]
        != '\\' by {
        if k < d.len() {
            assert(s[k] == d[k]);
            assert(natural::is_digit(d[k]));
        }
    }
    assert(text::all_ascii(s));
    let lower = text::lowercase(s);
    assert(".jpg"@ =~= lower.subrange(lower.len() - 4, lower.len() as int));
}

proof fn lemma_ascii(c: char)
    requires
        c < '\u{80}',
    ensures
        '\0' <= c <= '\u{7f}',
{
}

proof fn lemma_plain_name_fits(name: Seq<char>)
    requires
        is_plain_name(name),
    ensures
        fits_name(name),
{
    assert(vstd::utf8::is_ascii_chars(name)) by {
        assert forall|k: int| 0 <= k < name.len() implies '\0' <= #[trigger] name[k] <= '\u{7f}' by {
            lemma_ascii(name[k]);
        }
    }
    vstd::utf8::is_ascii_chars_encode_utf8(name);
}

/// Names that are plain can be written.
pub proof fn plain_names_fit(entries: Seq<(Seq<char>, Seq<u8>)>)
    requires
        plain_entries(entries),
    ensures
        fitting_names(entries),
{
    assert forall|i: int| 0 <= i < entries.len() implies fits_name((#[trigger] entries[i]).0) by {
        lemma_plain_name_fits(entries[i].0);
    }
}

// ---------------------------------------------------------------------------
// Making a whole book
// ---------------------------------------------------------------------------

/// A CBZ file that is being made of the pages of pictures.
pub struct BookRun {
    pub run: CbzRun,
    pub book: CbzBook,
}

/// What one step of making a book came to.
pub enum BookStep {
    /// The book is given up.
    Failed(String),
    /// The pages of one picture were written.
    Working(ConvertProgress),
    /// All pages are written.
    Finished,
}

/// Whether all pages are small enough to be written: less than 4 GB each.
pub open spec fn small_pages(pages: Seq<Seq<u8>>) -> bool {
    forall|i: int| 0 <= i < pages.len() ==> (#[trigger] pages[i]).len() <= 0xFFFF_FFFF
}

/// Pages under running numbers can follow those before them just where they are
/// small enough.
proof fn lemma_numbers_follow(first: Seq<Seq<u8>>, pages: Seq<Seq<u8>>)
    requires
        first.len() + pages.len() <= u64::MAX,
    ensures
        fitting_names(numbered_pages(first.len(), pages)),
        can_all_follow(numbered_pages(0, first), numbered_pages(first.len(), pages)) <==> small_pages(
            pages,
        ),
{
    let before = numbered_pages(0, first);
    let next = numbered_pages(first.len(), pages);
    numbered_pages_are_plain(first.len(), pages);
    plain_names_fit(next);
    assert forall|i: int| 0 <= i < next.len() implies is_new(
        before + next.take(i),
        (#[trigger] next[i]).0,
    ) by {
        let earlier = before + next.take(i);
        assert forall|k: int| 0 <= k < earlier.len() implies (#[trigger] earlier[k]).0 != next[i].0 by {
            assert(earlier[k].0 == names::numbered(k as nat, "jpg"@));
            if earlier[k].0 == next[i].0 {
                names::numbered_names_are_distinct(
                    k as nat,
                    (first.len() + i) as nat,
                    "jpg"@,
                    "jpg"@,
                );
            }
        }
    }
    if can_all_follow(before, next) {
        assert forall|i: int| 0 <= i < pages.len() implies (#[trigger] pages[i]).len() <= 0xFFFF_FFFF by {
            assert(can_follow(before + next.take(i), next[i]));
        }
    }
    if small_pages(pages) {
        assert forall|i: int| 0 <= i < next.len() implies can_follow(
            before + next.take(i),
            #[trigger] next[i],
        ) by {
            assert(pages[i].len() <= 0xFFFF_FFFF);
        }
    }
}

impl BookRun {
    /// The book holds the pages of the pictures that are done, under the numbers
    /// from 0 on.
    pub open spec fn valid(&self) -> bool {
        &&& self.run.valid()
        &&& book_intact(self.book)
        &&& book_entries(self.book) == numbered_pages(
            0,
            all_pages(self.run.made@.take(self.run.done as int))->Ok_0,
        )
    }

    /// Starts a book of the pages that were made of each picture.
    pub fn new(made: Vec<Result<Vec<Vec<u8>>, String>>) -> (r: Self)
        ensures
            r.valid(),
            r.run.made == made,
            r.run.done == 0,
            r.run.written == 0,
    {
        let r = BookRun { run: CbzRun::new(made), book: CbzBook::start() };
        assert(made@.take(0) =~= seq![]);
        assert(book_entries(r.book) =~= numbered_pages(0, seq![]));
        r
    }

    /// Writes the pages of the next picture. It fails where the picture failed, or
    /// has a page of 4 GB or more.
    pub fn step(&mut self) -> (r: BookStep)
        requires
            old(self).valid(),
            old(self).run.done < old(self).run.made@.len() && old(self).run.made@[old(
                self,
            ).run.done as int] is Ok ==> old(self).run.written + old(self).run.made@[old(
                self,
            ).run.done as int]->Ok_0@.len() <= usize::MAX,
        ensures
            final(self).run.made == old(self).run.made,
            old(self).run.done == old(self).run.made@.len() ==> r is Finished && *final(self) == *old(
                self,
            ),
            old(self).run.done < old(self).run.made@.len() ==> match old(self).run.made@[old(
                self,
            ).run.done as int] {
                Err(e) => r is Failed && r->Failed_0@ == e@,
                Ok(pages) => if small_pages(bytes::contents(pages@)) {
                    &&& r is Working
                    &&& progress::reports(
                        r->Working_0,
                        "Writing"@,
                        (old(self).run.done + 1) as nat,
                        old(self).run.made@.len(),
                    )
                    &&& final(self).valid()
                    &&& final(self).run.done == old(self).run.done + 1
                    &&& final(self).run.written == old(self).run.written + pages@.len()
                } else {
                    r is Failed && "ZIP write error: "@.is_prefix_of(r->Failed_0@)
                },
            },
    {
        let ghost made = self.run.made@;
        let ghost d = self.run.done as int;
        let ghost first = all_pages(made.take(d))->Ok_0;
        match self.run.step() {
            CbzStep::Failed(e) => BookStep::Failed(e),
            CbzStep::Finished => BookStep::Finished,
            CbzStep::Write(progress, entries) => {
                proof {
                    let pages = bytes::contents(made[d]->Ok_0@);
                    lemma_numbers_follow(first, pages);
                    steps_join_up(made, d);
                }
                match self.book.write(&entries) {
                    Ok(_) => BookStep::Working(progress),
                    Err(e) => BookStep::Failed(e),
                }
            },
        }
    }

    /// The bytes of the book, once all pages are written. A book of ordinary size
    /// reads back the pages of all pictures, in order and under running numbers.
    pub fn finish(self) -> (r: Result<Vec<u8>, String>)
        requires
            self.valid(),
            self.run.done == self.run.made@.len(),
        ensures
            r is Ok,
            all_pages(self.run.made@) is Ok,
            all_pages(self.run.made@)->Ok_0.len() < 0xFFFF && r->Ok_0@.len() < 0xFFFF_FFFF ==> holds(
                r->Ok_0@,
                numbered_pages(0, all_pages(self.run.made@)->Ok_0),
            ),
    {
        proof {
            assert(self.run.made@.take(self.run.done as int) =~= self.run.made@);
            numbered_pages_are_plain(0, all_pages(self.run.made@)->Ok_0);
        }
        self.book.finish()
    }
}

/// What is written is read back: the pages of a CBZ file are those that were
/// written into it under running numbers, in their order, as long as none is
/// empty. So they are what the previewer shows.
pub proof fn written_books_are_read_back(pages: Seq<Seq<u8>>, data: Seq<u8>)
    requires
        pages.len() <= u64::MAX,
        forall|i: int| 0 <= i < pages.len() ==> (#[trigger] pages[i]).len() > 0,
        holds(data, numbered_pages(0, pages)),
    ensures
        archive::archive_pages(data) == pages,
        cache::book_pages("cbz"@, Ok(data)) == Ok::<Seq<Seq<u8>>, Seq<char>>(pages),
        archive::listed_pages(data) == archive::page_order(data),
{
    let entries = numbered_pages(0, pages);
    let names = Seq::new(pages.len(), |i: int| entries[i].0);
    let all = archive::entry_names(data);
    assert(all =~= Seq::new(names.len(), |i: int| Some(names[i]))) by {
        assert forall|i: int| 0 <= i < names.len() implies all[i] == Some(names[i]) by {
            assert(archive::zip_name(data, i) == Some(entries[i].0));
        }
    }
    lemma_all_taken(names, names.len() as int);
    assert(Seq::new(names.len(), |i: int| Some(names[i])).take(names.len() as int) =~= all);
    assert(names.take(names.len() as int) =~= names);
    assert(archive::listed_pages(data) == names);
    assert(listing::naturally_sorted(names)) by {
        assert forall|i: int, j: int| 0 <= i < j < names.len() implies natural::natural_le(
            #[trigger] names[i],
            #[trigger] names[j],
        ) by {
            written_pages_are_in_reading_order(0, pages, i, j);
        }
    }
    listing::natural_sort_is_unique(names, names);
    let list = archive::reads_of(data, names);
    assert forall|i: int| 0 <= i < list.len() implies (#[trigger] list[i]) is Ok && list[i]->Ok_0.1
        == Ok::<Seq<u8>, Seq<char>>(pages[i]) && pages[i].len() > 0 by {
        assert(archive::zip_entry(data, entries[i].0) == Ok::<
            (u64, Result<Seq<u8>, Seq<char>>),
            Seq<char>,
        >((entries[i].1.len() as u64, Ok(entries[i].1))));
    }
    archive::readable_pages_are_kept(list, pages);
    reveal_strlit("cbz");
    assert(text::all_ascii("cbz"@));
    assert(text::lowercase("cbz"@) =~= "cbz"@);
}

proof fn lemma_all_taken(names: Seq<Seq<char>>, n: int)
    requires
        0 <= n <= names.len() <= u64::MAX,
        forall|i: int|
            0 <= i < names.len() ==> #[trigger] names[i] == names::numbered(i as nat, "jpg"@),
    ensures
        archive::taken_names(
            Taken::Pages,
            Seq::new(names.len(), |i: int| Some(names[i])).take(n),
        ) == names.take(n),
    decreases n,
{
    let all = Seq::new(names.len(), |i: int| Some(names[i]));
    if n == 0 {
        assert(all.take(0) =~= seq![]);
        assert(names.take(0) =~= seq![]);
    } else {
        lemma_all_taken(names, n - 1);
        lemma_numbered_chars((n - 1) as nat);
        assert(all.take(n).drop_last() =~= all.take(n - 1));
        assert(all.take(n).last() == Some(names[n - 1]));
        assert(names.take(n) =~= names.take(n - 1).push(names[n - 1]));
    }
}

// ---------------------------------------------------------------------------
// Laws of books
// ---------------------------------------------------------------------------


/// Pages are written one after the other under running numbers: the page at `k` under the
/// number that is `k` more than the first, in four digits or more, as a JPEG file. `d` are
/// the digits.
pub proof fn pages_get_running_numbers(first: nat, pages: Seq<Seq<u8>>, k: int) -> (d: Seq<char>)
    requires
        0 <= k < pages.len(),
    ensures
        numbered_pages(first, pages).len() == pages.len(),
        numbered_pages(first, pages)[k].1 == pages[k],
        numbered_pages(first, pages)[k].0 == d + ".jpg"@,
        natural::all_digits(d) && natural::digits_value(d) == first + k,
        d.len() >= 4,
{
    reveal_strlit("jpg");
    reveal_strlit(".jpg");
    let d = names::numbered_names_hold_their_number((first + k) as nat, "jpg"@);
    assert(seq!['.'] + "jpg"@ =~= ".jpg"@);
    d
}

/// The pages of all pictures are those of the first and those of the others, in their
/// order.
pub proof fn pages_follow_each_other(
    a: Seq<Result<Vec<Vec<u8>>, String>>,
    b: Seq<Result<Vec<Vec<u8>>, String>>,
)
    ensures
        all_pages(a) is Err ==> all_pages(a + b) == all_pages(a),
        all_pages(a) is Ok && all_pages(b) is Err ==> all_pages(a + b) == all_pages(b),
        all_pages(a) is Ok && all_pages(b) is Ok ==> all_pages(a + b) == Ok::<Seq<Seq<u8>>, Seq<char>>(
            all_pages(a)->Ok_0 + all_pages(b)->Ok_0,
        ),
    decreases b.len(),
{
    if b.len() == 0 {
        assert(a + b =~= a);
        if all_pages(a) is Ok {
            assert(all_pages(a)->Ok_0 + seq![] =~= all_pages(a)->Ok_0);
        }
    } else {
        pages_follow_each_other(a, b.drop_last());
        assert((a + b).drop_last() =~= a + b.drop_last());
        assert((a + b).last() == b.last());
        if all_pages(a) is Ok && all_pages(b) is Ok {
            assert(all_pages(a + b)->Ok_0 =~= all_pages(a)->Ok_0 + all_pages(b)->Ok_0);
        }
    }
}

/// One picture gives its pages as they are, or its failure.
pub proof fn a_picture_gives_its_pages(made: Result<Vec<Vec<u8>>, String>)
    ensures
        made matches Ok(pages) ==> all_pages(seq![made]) is Ok && all_pages(seq![made])->Ok_0.len()
            == pages@.len() && forall|k: int|
            0 <= k < pages@.len() ==> #[trigger] all_pages(seq![made])->Ok_0[k] == pages@[k]@,
        made matches Err(e) ==> all_pages(seq![made]) == Err::<Seq<Seq<u8>>, Seq<char>>(e@),
{
    reveal_with_fuel(all_pages, 2);
    assert(seq![made].drop_last() =~= seq![]);
    if let Ok(pages) = made {
        assert(Seq::<Seq<u8>>::empty() + bytes::contents(pages@) =~= bytes::contents(pages@));
    }
}

/// A page can be added to a book just where no page has its name and it takes less than
/// 4 GB.
pub proof fn pages_with_new_names_can_be_added(
    entries: Seq<(Seq<char>, Seq<u8>)>,
    name: Seq<char>,
    content: Seq<u8>,
)
    ensures
        can_follow(entries, (name, content)) <==> content.len() < 0x1_0000_0000 && !entries.map_values(
            |e: (Seq<char>, Seq<u8>)| e.0,
        ).contains(name),
{
    let names = entries.map_values(|e: (Seq<char>, Seq<u8>)| e.0);
    if names.contains(name) {
        let i = choose|i: int| 0 <= i < names.len() && names[i] == name;
        assert(entries[i].0 == name);
    }
    if !is_new(entries, name) {
        let i = choose|i: int| 0 <= i < entries.len() && (#[trigger] entries[i]).0 == name;
        assert(names[i] == name);
    }
}

/// The view of a list of pages has each page with its name at its place.
pub proof fn entries_are_seen_as_they_are(list: Seq<CbzEntry>, i: int)
    requires
        0 <= i < list.len(),
    ensures
        entry_views(list).len() == list.len(),
        entry_views(list)[i].0 == list[i].name@,
        entry_views(list)[i].1 == list[i].content@,
{
}

/// A run has written the pages of the pictures that are done, and nothing else.
pub proof fn runs_count_what_is_written(run: CbzRun)
    requires
        run.valid(),
    ensures
        run.done <= run.made@.len(),
        forall|i: int| 0 <= i < run.done ==> (#[trigger] run.made@[i]) is Ok,
        run.done < run.made@.len() && run.made@[run.done as int] is Err ==> all_pages(run.made@) is Err,
        run.written == all_pages(run.made@.take(run.done as int))->Ok_0.len(),
{
    let first = run.made@.take(run.done as int);
    books_need_every_picture(first);
    assert forall|i: int| 0 <= i < run.done implies (#[trigger] run.made@[i]) is Ok by {
        assert(first[i] is Ok);
    }
    books_need_every_picture(run.made@);
}

} // verus!
