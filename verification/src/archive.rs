//! Comic archives in ZIP form: which entries are pages, in which order they are
//! read, and what is made of those that cannot be read.

use crate::bytes;
use crate::cancel::ConvertCancel;
use crate::listing::{
    is_zip_out_of_order, page_name, pick_sample_indices, sample_name, sort_naturally,
};
use crate::listing;
use crate::names::numbered_name;
use crate::names;
use crate::natural;
use crate::sniff::image_ext_from_bytes;
use crate::sniff;
use crate::text::{join, join3};
use crate::text;
use std::io::{Cursor, Read};
use vstd::prelude::*;
use zip::ZipArchive;

verus! {

// ---------------------------------------------------------------------------
// The zip crate
// ---------------------------------------------------------------------------

#[verifier::external_type_specification]
#[verifier::external_body]
#[verifier::reject_recursive_types(T)]
pub struct ExCursor<T>(std::io::Cursor<T>);

#[verifier::external_type_specification]
#[verifier::external_body]
#[verifier::reject_recursive_types(R)]
pub struct ExZipArchive<R>(zip::ZipArchive<R>);

/// The bytes that an open archive reads from.
pub uninterp spec fn zip_source(archive: ZipArchive<Cursor<&[u8]>>) -> Seq<u8>;

/// What `ZipArchive::new` says of bytes: nothing, or the text of its error.
pub uninterp spec fn zip_open(data: Seq<u8>) -> Result<(), Seq<char>>;

/// What `ZipArchive::len` says of an archive.
pub uninterp spec fn zip_len(data: Seq<u8>) -> nat;

/// The name of the entry that `ZipArchive::by_index` gives, none where it fails.
pub uninterp spec fn zip_name(data: Seq<u8>, i: int) -> Option<Seq<char>>;

/// What `ZipArchive::by_name` gives for a name: the text of its error, or the
/// entry's compressed size and its content, in place of which stands the text
/// of the error where it cannot be read.
pub uninterp spec fn zip_entry(data: Seq<u8>, name: Seq<char>) -> Result<
    (u64, Result<Seq<u8>, Seq<char>>),
    Seq<char>,
>;

/// An entry of an archive that was found by its name.
pub struct EntryRead {
    /// The size of the entry inside the archive.
    pub compressed: u64,
    /// Its content, or the error on reading it.
    pub content: Result<Vec<u8>, String>,
}

/// A result with a text for an error.
pub open spec fn result_text<T>(r: Result<T, String>) -> Result<(), Seq<char>> {
    match r {
        Ok(_) => Ok(()),
        Err(e) => Err(e@),
    }
}

/// What was read, as plain values.
pub open spec fn read_view(r: Result<EntryRead, String>) -> Result<
    (u64, Result<Seq<u8>, Seq<char>>),
    Seq<char>,
> {
    match r {
        Ok(e) => Ok(
            (
                e.compressed,
                match e.content {
                    Ok(v) => Ok(v@),
                    Err(t) => Err(t@),
                },
            ),
        ),
        Err(t) => Err(t@),
    }
}

/// `ZipArchive::new` over a cursor: reads the directory of the archive. Whether
/// it succeeds, and the error, depend on the bytes alone.
#[verifier::external_body]
fn open_zip<'a>(data: &'a [u8]) -> (r: Result<ZipArchive<Cursor<&'a [u8]>>, String>)
    ensures
        result_text(r) == zip_open(data@),
        r is Ok ==> zip_source(r->Ok_0) == data@,
{
    ZipArchive::new(Cursor::new(data)).map_err(|e| e.to_string())
}

/// `ZipArchive::len`: the number of entries.
#[verifier::external_body]
fn entry_count<'a>(archive: &ZipArchive<Cursor<&'a [u8]>>) -> (n: usize)
    ensures
        n == zip_len(zip_source(*archive)),
{
    archive.len()
}

/// `ZipArchive::by_index` and `ZipFile::name`: the name of an entry. The archive
/// goes on reading from the same bytes.
#[verifier::external_body]
fn entry_name<'a>(archive: &mut ZipArchive<Cursor<&'a [u8]>>, i: usize) -> (r: Option<String>)
    ensures
        zip_source(*final(archive)) == zip_source(*old(archive)),
        (match r {
            Some(s) => Some(s@),
            None => None,
        }) == zip_name(zip_source(*old(archive)), i as int),
{
    archive.by_index(i).ok().map(|file| file.name().to_string())
}

/// `ZipArchive::by_name`, `ZipFile::compressed_size` and `Read::read_to_end`:
/// finds an entry by its name and reads it. The archive goes on reading from
/// the same bytes.
#[verifier::external_body]
fn read_entry<'a>(archive: &mut ZipArchive<Cursor<&'a [u8]>>, name: &str) -> (r: Result<
    EntryRead,
    String,
>)
    ensures
        zip_source(*final(archive)) == zip_source(*old(archive)),
        read_view(r) == zip_entry(zip_source(*old(archive)), name@),
{
    let mut file = archive.by_name(name).map_err(|e| e.to_string())?;
    let compressed = file.compressed_size();
    let mut buf = Vec::new();
    let content = file.read_to_end(&mut buf).map(|_| buf).map_err(|e| e.to_string());
    Ok(EntryRead { compressed, content })
}

// ---------------------------------------------------------------------------
// Names of pages
// ---------------------------------------------------------------------------

/// The names that entries have, as plain values.
pub open spec fn entry_texts(entries: Seq<Option<String>>) -> Seq<Option<Seq<char>>> {
    entries.map_values(
        |e: Option<String>|
            match e {
                Some(s) => Some(s@),
                None => None,
            },
    )
}

/// The names of all entries of an archive, none for those that cannot be opened.
pub open spec fn entry_names(data: Seq<u8>) -> Seq<Option<Seq<char>>> {
    Seq::new(zip_len(data), |i: int| zip_name(data, i))
}

/// Which names are taken.
#[derive(Debug, Clone, Copy, PartialEq, Eq, Structural)]
pub enum Taken {
    /// Those that end like a picture.
    Pages,
    /// Those whose extension is that of a picture.
    Samples,
}

/// Whether a name is taken.
pub open spec fn is_taken(taken: Taken, name: Seq<char>) -> bool {
    match taken {
        Taken::Pages => listing::is_page_name(name),
        Taken::Samples => listing::is_sample_name(name),
    }
}

/// The names that are taken, as they stand.
pub open spec fn taken_names(taken: Taken, entries: Seq<Option<Seq<char>>>) -> Seq<Seq<char>>
    decreases entries.len(),
{
    if entries.len() == 0 {
        seq![]
    } else {
        let before = taken_names(taken, entries.drop_last());
        match entries.last() {
            Some(name) => if is_taken(taken, name) {
                before.push(name)
            } else {
                before
            },
            None => before,
        }
    }
}

/// The names of the pages of an archive as they stand in its directory.
pub open spec fn listed_pages(data: Seq<u8>) -> Seq<Seq<char>> {
    taken_names(Taken::Pages, entry_names(data))
}

/// The names of the pages of an archive in reading order.
pub open spec fn page_order(data: Seq<u8>) -> Seq<Seq<char>> {
    listing::natural_sort(listed_pages(data))
}

/// The names that are taken, as they stand.
pub fn take_names(taken: Taken, entries: &Vec<Option<String>>) -> (names: Vec<String>)
    ensures
        text::texts(names@) == taken_names(taken, entry_texts(entries@)),
{
    let mut names: Vec<String> = Vec::new();
    let ghost all = entry_texts(entries@);
    let mut i: usize = 0;
    assert(text::texts(names@) =~= taken_names(taken, all.take(0)));
    while i < entries.len()
        invariant
            i <= entries@.len(),
            all == entry_texts(entries@),
            text::texts(names@) == taken_names(taken, all.take(i as int)),
        decreases entries.len() - i,
    {
        proof {
            assert(all.take(i + 1).drop_last() =~= all.take(i as int));
            assert(all.take(i + 1).last() == all[i as int]);
        }
        if let Some(name) = &entries[i] {
            let wanted: bool = match taken {
                Taken::Pages => page_name(name.as_str()),
                Taken::Samples => sample_name(name.as_str()),
            };
            if wanted {
                let copy = name.clone();
                proof {
                    text::lemma_texts_push(names@, copy);
                }
                names.push(copy);
            }
        }
        i += 1;
    }
    assert(all.take(i as int) =~= all);
    names
}

// ---------------------------------------------------------------------------
// Open archives
// ---------------------------------------------------------------------------

/// An open comic archive.
pub struct ComicArchive<'a> {
    archive: ZipArchive<Cursor<&'a [u8]>>,
}

impl<'a> ComicArchive<'a> {
    /// The bytes of the archive.
    pub closed spec fn source(&self) -> Seq<u8> {
        zip_source(self.archive)
    }

    /// Opens an archive, or gives the reason why it is none.
    pub fn open(data: &'a [u8]) -> (r: Result<ComicArchive<'a>, String>)
        ensures
            result_text(r) == zip_open(data@),
            r is Ok ==> r->Ok_0.source() == data@,
    {
        match open_zip(data) {
            Ok(archive) => Ok(ComicArchive { archive }),
            Err(e) => Err(e),
        }
    }

    /// The names of all entries.
    pub fn entries(&mut self) -> (r: Vec<Option<String>>)
        ensures
            final(self).source() == old(self).source(),
            entry_texts(r@) == entry_names(old(self).source()),
    {
        let ghost data = self.source();
        let n: usize = entry_count(&self.archive);
        let mut r: Vec<Option<String>> = Vec::new();
        let mut i: usize = 0;
        while i < n
            invariant
                i <= n == zip_len(data),
                self.source() == data,
                entry_texts(r@) == entry_names(data).take(i as int),
            decreases n - i,
        {
            let name = entry_name(&mut self.archive, i);
            let ghost before = r@;
            r.push(name);
            assert(entry_texts(r@) =~= entry_texts(before).push(
                match name {
                    Some(s) => Some(s@),
                    None => None,
                },
            ));
            assert(entry_texts(r@) =~= entry_names(data).take(i + 1));
            i += 1;
        }
        assert(entry_texts(r@) =~= entry_names(data));
        r
    }

    /// The names of the pages, as they stand in the directory.
    pub fn listed_pages(&mut self) -> (names: Vec<String>)
        ensures
            final(self).source() == old(self).source(),
            text::texts(names@) == listed_pages(old(self).source()),
    {
        let entries = self.entries();
        take_names(Taken::Pages, &entries)
    }

    /// Reads an entry.
    pub fn read(&mut self, name: &str) -> (r: Result<EntryRead, String>)
        ensures
            final(self).source() == old(self).source(),
            read_view(r) == zip_entry(old(self).source(), name@),
    {
        read_entry(&mut self.archive, name)
    }
}

// ---------------------------------------------------------------------------
// Pages that can be read
// ---------------------------------------------------------------------------

/// What was read of entries, as plain values.
pub open spec fn reads(list: Seq<Result<EntryRead, String>>) -> Seq<
    Result<(u64, Result<Seq<u8>, Seq<char>>), Seq<char>>,
> {
    list.map_values(|r: Result<EntryRead, String>| read_view(r))
}

/// What reading each name of an archive gives.
pub open spec fn reads_of(data: Seq<u8>, names: Seq<Seq<char>>) -> Seq<
    Result<(u64, Result<Seq<u8>, Seq<char>>), Seq<char>>,
> {
    names.map_values(|name: Seq<char>| zip_entry(data, name))
}

/// The contents that could be read and are not empty, in their order.
pub open spec fn readable(list: Seq<Result<(u64, Result<Seq<u8>, Seq<char>>), Seq<char>>>) -> Seq<
    Seq<u8>,
>
    decreases list.len(),
{
    if list.len() == 0 {
        seq![]
    } else {
        let before = readable(list.drop_last());
        match list.last() {
            Ok((_, Ok(content))) => if content.len() > 0 {
                before.push(content)
            } else {
                before
            },
            _ => before,
        }
    }
}

/// The pages of an archive: what can be read of them, in the natural order of
/// their names.
pub open spec fn archive_pages(data: Seq<u8>) -> Seq<Seq<u8>> {
    readable(reads_of(data, page_order(data)))
}

/// No page of an archive is empty.
pub proof fn pages_are_not_empty(
    list: Seq<Result<(u64, Result<Seq<u8>, Seq<char>>), Seq<char>>>,
    k: int,
)
    requires
        0 <= k < readable(list).len(),
    ensures
        readable(list)[k].len() > 0,
    decreases list.len(),
{
    if k < readable(list.drop_last()).len() {
        pages_are_not_empty(list.drop_last(), k);
    }
}

/// Pages that can all be read and are not empty are kept as they stand.
pub proof fn readable_pages_are_kept(
    list: Seq<Result<(u64, Result<Seq<u8>, Seq<char>>), Seq<char>>>,
    pages: Seq<Seq<u8>>,
)
    requires
        list.len() == pages.len(),
        forall|i: int|
            0 <= i < list.len() ==> (#[trigger] list[i]) is Ok && list[i]->Ok_0.1 == Ok::<
                Seq<u8>,
                Seq<char>,
            >(pages[i]) && pages[i].len() > 0,
    ensures
        readable(list) == pages,
    decreases list.len(),
{
    if list.len() > 0 {
        let l = list.drop_last();
        let p = pages.drop_last();
        assert forall|i: int| 0 <= i < l.len() implies (#[trigger] l[i]) is Ok && l[i]->Ok_0.1
            == Ok::<Seq<u8>, Seq<char>>(p[i]) && p[i].len() > 0 by {
            assert(l[i] == list[i]);
        }
        readable_pages_are_kept(l, p);
        assert(list.last() == list[list.len() - 1]);
        assert(pages =~= p.push(pages.last()));
    } else {
        assert(pages =~= seq![]);
    }
}

/// The contents that could be read and are not empty.
pub fn keep_readable(list: &Vec<Result<EntryRead, String>>) -> (pages: Vec<Vec<u8>>)
    ensures
        bytes::contents(pages@) == readable(reads(list@)),
{
    let mut pages: Vec<Vec<u8>> = Vec::new();
    let ghost all = reads(list@);
    let mut i: usize = 0;
    assert(bytes::contents(pages@) =~= readable(all.take(0)));
    while i < list.len()
        invariant
            i <= list@.len(),
            all == reads(list@),
            bytes::contents(pages@) == readable(all.take(i as int)),
        decreases list.len() - i,
    {
        proof {
            assert(all.take(i + 1).drop_last() =~= all.take(i as int));
            assert(all.take(i + 1).last() == all[i as int]);
        }
        if let Ok(entry) = &list[i] {
            if let Ok(content) = &entry.content {
                if content.len() > 0 {
                    let copy = vstd::slice::slice_to_vec(content.as_slice());
                    proof {
                        bytes::lemma_contents_push(pages@, copy);
                    }
                    pages.push(copy);
                }
            }
        }
        i += 1;
    }
    assert(all.take(i as int) =~= all);
    pages
}

impl<'a> ComicArchive<'a> {
    /// Reads the named entries one after the other.
    pub fn read_all(&mut self, names: &Vec<String>) -> (r: Vec<Result<EntryRead, String>>)
        ensures
            final(self).source() == old(self).source(),
            reads(r@) == reads_of(old(self).source(), text::texts(names@)),
    {
        let ghost data = self.source();
        let ghost t = text::texts(names@);
        let mut r: Vec<Result<EntryRead, String>> = Vec::new();
        let mut i: usize = 0;
        while i < names.len()
            invariant
                i <= names@.len(),
                t == text::texts(names@),
                self.source() == data,
                reads(r@) == reads_of(data, t).take(i as int),
            decreases names.len() - i,
        {
            let entry = self.read(names[i].as_str());
            let ghost before = r@;
            r.push(entry);
            assert(reads(r@) =~= reads(before).push(read_view(entry)));
            assert(reads(r@) =~= reads_of(data, t).take(i + 1));
            i += 1;
        }
        assert(reads(r@) =~= reads_of(data, t));
        r
    }
}

/// The pages of a CBZ file, given its bytes. Entries that cannot be read, or
/// are empty, are left out; only a file that is no archive is refused.
pub fn extract_images_from_cbz(data: &[u8]) -> (r: Result<Vec<Vec<u8>>, String>)
    ensures
        match zip_open(data@) {
            Ok(_) => r is Ok && bytes::contents(r->Ok_0@) == archive_pages(data@),
            Err(e) => r is Err && r->Err_0@ == "Cannot open CBZ: "@ + e,
        },
{
    match ComicArchive::open(data) {
        Err(e) => Err(join("Cannot open CBZ: ", e.as_str())),
        Ok(mut archive) => {
            let names = sort_naturally(&archive.listed_pages());
            Ok(keep_readable(&archive.read_all(&names)))
        },
    }
}

/// Unpacks the pages of an archive, given its bytes, in reading order, and says
/// whether the directory listed them in another order.
pub fn unpack_archive(data: &[u8]) -> (r: Result<(Vec<Vec<u8>>, bool), String>)
    ensures
        match zip_open(data@) {
            Ok(_) => {
                &&& r is Ok
                &&& bytes::contents(r->Ok_0.0@) == archive_pages(data@)
                &&& r->Ok_0.1 == (listed_pages(data@) != page_order(data@))
            },
            Err(e) => r is Err && r->Err_0@ == "Cannot open CBZ: "@ + e,
        },
{
    match ComicArchive::open(data) {
        Err(e) => Err(join("Cannot open CBZ: ", e.as_str())),
        Ok(mut archive) => {
            let listed = archive.listed_pages();
            let reordered: bool = is_zip_out_of_order(listed.as_slice());
            let names = sort_naturally(&listed);
            Ok((keep_readable(&archive.read_all(&names)), reordered))
        },
    }
}

// ---------------------------------------------------------------------------
// Pages that must all be read
// ---------------------------------------------------------------------------

/// The content of an entry, or why a conversion stops at it.
pub open spec fn needed_content(
    name: Seq<char>,
    read: Result<(u64, Result<Seq<u8>, Seq<char>>), Seq<char>>,
) -> Result<Seq<u8>, Seq<char>> {
    match read {
        Ok((_, Ok(content))) => Ok(content),
        Ok((_, Err(e))) => Err("Read error: "@ + e),
        Err(e) => Err("Cannot read "@ + name + ": "@ + e),
    }
}

/// The contents of all entries, or why a conversion stops at the first that
/// cannot be read.
pub open spec fn needed_contents(
    names: Seq<Seq<char>>,
    list: Seq<Result<(u64, Result<Seq<u8>, Seq<char>>), Seq<char>>>,
) -> Result<Seq<Seq<u8>>, Seq<char>>
    decreases list.len(),
{
    if list.len() == 0 {
        Ok(seq![])
    } else {
        match needed_contents(names, list.drop_last()) {
            Err(e) => Err(e),
            Ok(before) => match needed_content(names[list.len() - 1], list.last()) {
                Err(e) => Err(e),
                Ok(content) => Ok(before.push(content)),
            },
        }
    }
}

/// A result with contents, as plain values.
pub open spec fn contents_view(r: Result<Vec<Vec<u8>>, String>) -> Result<Seq<Seq<u8>>, Seq<char>> {
    match r {
        Ok(v) => Ok(bytes::contents(v@)),
        Err(e) => Err(e@),
    }
}

/// Once an entry cannot be read, what follows makes no difference.
proof fn lemma_first_failure(
    names: Seq<Seq<char>>,
    list: Seq<Result<(u64, Result<Seq<u8>, Seq<char>>), Seq<char>>>,
    k: int,
)
    requires
        0 <= k <= list.len(),
        needed_contents(names, list.take(k)) is Err,
    ensures
        needed_contents(names, list) == needed_contents(names, list.take(k)),
    decreases list.len() - k,
{
    if k == list.len() {
        assert(list.take(k) =~= list);
    } else {
        assert(list.take(k + 1).drop_last() =~= list.take(k));
        lemma_first_failure(names, list, k + 1);
    }
}

/// A conversion gets the content of every page, in reading order, or none: it
/// fails with what is wrong with the first page that cannot be read.
pub proof fn conversions_get_every_page(
    names: Seq<Seq<char>>,
    list: Seq<Result<(u64, Result<Seq<u8>, Seq<char>>), Seq<char>>>,
)
    requires
        names.len() == list.len(),
    ensures
        match needed_contents(names, list) {
            Ok(pages) => pages.len() == list.len() && forall|i: int|
                0 <= i < list.len() ==> needed_content(names[i], #[trigger] list[i]) == Ok::<
                    Seq<u8>,
                    Seq<char>,
                >(pages[i]),
            Err(e) => exists|k: int|
                0 <= k < list.len() && needed_content(names[k], #[trigger] list[k]) == Err::<
                    Seq<u8>,
                    Seq<char>,
                >(e) && forall|i: int|
                    0 <= i < k ==> needed_content(names[i], #[trigger] list[i]) is Ok,
        },
    decreases list.len(),
{
    if list.len() > 0 {
        let n = list.len() - 1;
        let rest = list.drop_last();
        lemma_names_behind(names, rest);
        conversions_get_every_page(names.take(n), rest);
        assert forall|i: int| 0 <= i < n implies names.take(n)[i] == names[i] && #[trigger] rest[i]
            == list[i] by {}
        match needed_contents(names, rest) {
            Err(e) => {
                let k = choose|k: int|
                    0 <= k < rest.len() && needed_content(names.take(n)[k], #[trigger] rest[k])
                        == Err::<Seq<u8>, Seq<char>>(e) && forall|i: int|
                        0 <= i < k ==> needed_content(names.take(n)[i], #[trigger] rest[i]) is Ok;
                assert(needed_content(names[k], list[k]) == Err::<Seq<u8>, Seq<char>>(e));
                assert forall|i: int| 0 <= i < k implies needed_content(
                    names[i],
                    #[trigger] list[i],
                ) is Ok by {
                    assert(rest[i] == list[i]);
                }
            },
            Ok(pages) => {
                assert forall|i: int| 0 <= i < n implies needed_content(names[i], #[trigger] list[i])
                    == Ok::<Seq<u8>, Seq<char>>(pages[i]) by {
                    assert(rest[i] == list[i]);
                }
                assert(list.last() == list[n]);
            },
        }
    }
}

/// Names behind those of the list make no difference.
proof fn lemma_names_behind(
    names: Seq<Seq<char>>,
    list: Seq<Result<(u64, Result<Seq<u8>, Seq<char>>), Seq<char>>>,
)
    requires
        list.len() <= names.len(),
    ensures
        needed_contents(names.take(list.len() as int), list) == needed_contents(names, list),
    decreases list.len(),
{
    if list.len() > 0 {
        let n = list.len() - 1;
        let rest = list.drop_last();
        lemma_names_behind(names, rest);
        lemma_names_behind(names.take(n + 1), rest);
        assert(names.take(n + 1).take(n) =~= names.take(n));
    }
}

/// The content of an entry that a conversion needs, or why it stops.
pub fn need_content(name: &str, read: Result<EntryRead, String>) -> (r: Result<Vec<u8>, String>)
    ensures
        (match r {
            Ok(v) => Ok(v@),
            Err(e) => Err(e@),
        }) == needed_content(name@, read_view(read)),
{
    match read {
        Ok(entry) => match entry.content {
            Ok(content) => Ok(content),
            Err(e) => Err(join("Read error: ", e.as_str())),
        },
        Err(e) => {
            let start = join3("Cannot read ", name, ": ");
            Err(join(start.as_str(), e.as_str()))
        },
    }
}

/// What a conversion is given of an entry, where it was called off before or
/// not.
pub open spec fn step_content(
    name: Seq<char>,
    cancelled: bool,
    read: Result<(u64, Result<Seq<u8>, Seq<char>>), Seq<char>>,
) -> Result<Seq<u8>, Seq<char>> {
    if cancelled {
        Err("Cancelled"@)
    } else {
        needed_content(name, read)
    }
}

/// Whether a conversion of so many entries is called off before one of them, or
/// not at all.
pub open spec fn stops_within(stop: Option<int>, n: nat) -> bool {
    stop matches Some(k) ==> 0 <= k < n
}

/// The contents of all entries, or why a conversion stops at the first that
/// cannot be read or before which it is called off.
pub open spec fn stopped_contents(
    names: Seq<Seq<char>>,
    list: Seq<Result<(u64, Result<Seq<u8>, Seq<char>>), Seq<char>>>,
    stop: Option<int>,
) -> Result<Seq<Seq<u8>>, Seq<char>> {
    match stop {
        None => needed_contents(names, list),
        Some(k) => match needed_contents(names, list.take(k)) {
            Ok(_) => Err("Cancelled"@),
            Err(e) => Err(e),
        },
    }
}

impl<'a> ComicArchive<'a> {
    /// Reads an entry for a conversion, unless that was called off.
    pub fn read_step(&mut self, name: &str, cancelled: bool) -> (r: Result<Vec<u8>, String>)
        ensures
            final(self).source() == old(self).source(),
            (match r {
                Ok(v) => Ok(v@),
                Err(e) => Err(e@),
            }) == step_content(name@, cancelled, zip_entry(old(self).source(), name@)),
    {
        if cancelled {
            return Err("Cancelled".to_owned());
        }
        let entry = self.read(name);
        need_content(name, entry)
    }

    /// Reads all named entries for a conversion. The flag is looked at before
    /// each.
    pub fn read_pages(&mut self, names: &Vec<String>, cancel: &ConvertCancel) -> (r: Result<
        Vec<Vec<u8>>,
        String,
    >)
        ensures
            final(self).source() == old(self).source(),
            exists|stop: Option<int>|
                stops_within(stop, names@.len()) && contents_view(r) == #[trigger] stopped_contents(
                    text::texts(names@),
                    reads_of(old(self).source(), text::texts(names@)),
                    stop,
                ),
    {
        let ghost data = self.source();
        let ghost t = text::texts(names@);
        let ghost all = reads_of(data, t);
        let mut pages: Vec<Vec<u8>> = Vec::new();
        let mut i: usize = 0;
        assert(bytes::contents(pages@) =~= seq![]);
        while i < names.len()
            invariant
                i <= names@.len(),
                t == text::texts(names@),
                all == reads_of(data, t),
                data == old(self).source(),
                self.source() == data,
                needed_contents(t, all.take(i as int)) == Ok::<Seq<Seq<u8>>, Seq<char>>(
                    bytes::contents(pages@),
                ),
            decreases names.len() - i,
        {
            let cancelled: bool = cancel.is_set();
            proof {
                assert(all.take(i + 1).drop_last() =~= all.take(i as int));
                assert(all.take(i + 1).last() == all[i as int]);
            }
            match self.read_step(names[i].as_str(), cancelled) {
                Ok(content) => {
                    proof {
                        bytes::lemma_contents_push(pages@, content);
                    }
                    pages.push(content);
                },
                Err(e) => {
                    proof {
                        if cancelled {
                            assert(stopped_contents(t, all, Some(i as int)) == Err::<
                                Seq<Seq<u8>>,
                                Seq<char>,
                            >(e@));
                        } else {
                            lemma_first_failure(t, all, i + 1);
                            assert(stopped_contents(t, all, None) == Err::<Seq<Seq<u8>>, Seq<char>>(e@));
                        }
                    }
                    return Err(e);
                },
            }
            i += 1;
        }
        assert(all.take(i as int) =~= all);
        assert(stopped_contents(t, all, None) == Ok::<Seq<Seq<u8>>, Seq<char>>(
            bytes::contents(pages@),
        ));
        Ok(pages)
    }
}

/// Whether `r` is what loading an archive for a conversion gives, where it is
/// called off before the page at `stop`, or not at all.
pub open spec fn loads(data: Seq<u8>, stop: Option<int>, r: Result<Vec<Vec<u8>>, String>) -> bool {
    match zip_open(data) {
        Err(e) => r is Err && r->Err_0@ == "Cannot open archive: "@ + e,
        Ok(_) => match stopped_contents(page_order(data), reads_of(data, page_order(data)), stop) {
            Err(e) => r is Err && r->Err_0@ == e,
            Ok(pages) => if pages.len() == 0 {
                r is Err && r->Err_0@ == "No images found in archive"@
            } else {
                r is Ok && bytes::contents(r->Ok_0@) == pages
            },
        },
    }
}

/// A conversion that is not called off gets its pages just where the archive can
/// be opened and has pages, all of which can be read.
pub proof fn undisturbed_loads_get_every_page(data: Seq<u8>, r: Result<Vec<Vec<u8>>, String>)
    requires
        loads(data, None, r),
    ensures
        r is Ok <==> {
            &&& zip_open(data) is Ok
            &&& page_order(data).len() > 0
            &&& forall|i: int|
                0 <= i < page_order(data).len() ==> content_of(
                    zip_entry(data, #[trigger] page_order(data)[i]),
                ) is Some
        },
        r is Ok ==> r->Ok_0@.len() == page_order(data).len() && forall|i: int|
            0 <= i < r->Ok_0@.len() ==> content_of(
                zip_entry(data, #[trigger] page_order(data)[i]),
            ) == Some(r->Ok_0@[i]@),
{
    let names = page_order(data);
    let list = reads_of(data, names);
    conversions_get_every_page(names, list);
    assert forall|i: int| 0 <= i < names.len() implies (#[trigger] needed_content(names[i], list[i]) is Ok
        <==> content_of(zip_entry(data, names[i])) is Some) by {}
    if zip_open(data) is Ok {
        match needed_contents(names, list) {
            Ok(pages) => {
                assert forall|i: int| 0 <= i < names.len() implies content_of(
                    zip_entry(data, #[trigger] names[i]),
                ) == Some(pages[i]) by {
                    assert(needed_content(names[i], list[i]) == Ok::<Seq<u8>, Seq<char>>(pages[i]));
                }
                if r is Ok {
                    assert forall|i: int| 0 <= i < r->Ok_0@.len() implies content_of(
                        zip_entry(data, #[trigger] names[i]),
                    ) == Some(r->Ok_0@[i]@) by {
                        assert(bytes::contents(r->Ok_0@)[i] == r->Ok_0@[i]@);
                    }
                }
            },
            Err(e) => {
                let k = choose|k: int|
                    0 <= k < list.len() && needed_content(names[k], #[trigger] list[k]) == Err::<
                        Seq<u8>,
                        Seq<char>,
                    >(e) && forall|i: int|
                        0 <= i < k ==> needed_content(names[i], #[trigger] list[i]) is Ok;
                assert(content_of(zip_entry(data, names[k])) is None);
            },
        }
    }
}

/// A conversion that is called off before its first page gets none: the answer
/// says so where there are pages.
pub proof fn cancelled_loads_get_nothing(data: Seq<u8>, r: Result<Vec<Vec<u8>>, String>)
    requires
        zip_open(data) is Ok,
        page_order(data).len() > 0,
        loads(data, Some(0), r),
    ensures
        r is Err && r->Err_0@ == "Cancelled"@,
{
    assert(reads_of(data, page_order(data)).take(0) =~= seq![]);
}

/// The pages, or a complaint where there are none.
pub fn require_pages(pages: Vec<Vec<u8>>) -> (r: Result<Vec<Vec<u8>>, String>)
    ensures
        pages@.len() == 0 ==> r is Err && r->Err_0@ == "No images found in archive"@,
        pages@.len() > 0 ==> r is Ok && r->Ok_0 == pages,
{
    if pages.len() == 0 {
        Err("No images found in archive".to_owned())
    } else {
        Ok(pages)
    }
}

/// Loads the pages of an archive, given its bytes, for a conversion, and says
/// whether its directory lists them in another order. The flag is looked at
/// before each page.
pub fn load_archive(data: &[u8], cancel: &ConvertCancel) -> (r: (bool, Result<Vec<Vec<u8>>, String>))
    ensures
        r.0 == (zip_open(data@) is Ok && listed_pages(data@) != page_order(data@)),
        exists|stop: Option<int>|
            stops_within(stop, page_order(data@).len()) && #[trigger] loads(data@, stop, r.1),
{
    match ComicArchive::open(data) {
        Err(e) => {
            let r = Err(join("Cannot open archive: ", e.as_str()));
            let out = (false, r);
            assert(stops_within(None, page_order(data@).len()) && loads(data@, None, out.1));
            out
        },
        Ok(mut archive) => {
            let listed = archive.listed_pages();
            let reordered: bool = is_zip_out_of_order(listed.as_slice());
            let names = sort_naturally(&listed);
            let ghost t = text::texts(names@);
            assert(t.len() == names@.len());
            let read = archive.read_pages(&names, cancel);
            let ghost stop = choose|stop: Option<int>|
                stops_within(stop, names@.len()) && contents_view(read)
                    == #[trigger] stopped_contents(t, reads_of(data@, t), stop);
            let r = match read {
                Ok(pages) => {
                    assert(bytes::contents(pages@).len() == pages@.len());
                    require_pages(pages)
                },
                Err(e) => Err(e),
            };
            let out = (reordered, r);
            assert(stops_within(stop, page_order(data@).len()) && loads(data@, stop, out.1));
            out
        },
    }
}

// ---------------------------------------------------------------------------
// Samples
// ---------------------------------------------------------------------------

/// The content that reading gave, if any.
pub open spec fn content_of(read: Result<(u64, Result<Seq<u8>, Seq<char>>), Seq<char>>) -> Option<
    Seq<u8>,
> {
    match read {
        Ok((_, Ok(content))) => Some(content),
        _ => None,
    }
}

/// The page in the middle of an archive, if there is one and it can be read.
pub open spec fn middle_page_of(data: Seq<u8>) -> Option<Seq<u8>> {
    let names = page_order(data);
    if names.len() == 0 {
        None
    } else {
        content_of(zip_entry(data, names[names.len() as int / 2]))
    }
}

/// The contents that could be read, each with its size in the archive.
pub open spec fn readable_samples(
    list: Seq<Result<(u64, Result<Seq<u8>, Seq<char>>), Seq<char>>>,
) -> Seq<(u64, Seq<u8>)>
    decreases list.len(),
{
    if list.len() == 0 {
        seq![]
    } else {
        let before = readable_samples(list.drop_last());
        match list.last() {
            Ok((size, Ok(content))) => before.push((size, content)),
            _ => before,
        }
    }
}

/// How many pages are sampled.
pub const SAMPLES: u64 = 5;

/// The names at the given positions.
pub open spec fn names_at(names: Seq<Seq<char>>, at: Seq<usize>) -> Seq<Seq<char>> {
    at.map_values(|i: usize| names[i as int])
}

/// Up to five pages spread over an archive, none where it has no pages.
pub open spec fn samples_of(data: Seq<u8>) -> Option<Seq<(u64, Seq<u8>)>> {
    let names = listing::natural_sort(taken_names(Taken::Samples, entry_names(data)));
    if names.len() == 0 {
        None
    } else {
        Some(
            readable_samples(
                reads_of(
                    data,
                    names_at(names, listing::sample_positions(names.len() as int, SAMPLES as int)),
                ),
            ),
        )
    }
}

/// Samples, as plain values.
pub open spec fn sample_views(list: Seq<(u64, Vec<u8>)>) -> Seq<(u64, Seq<u8>)> {
    list.map_values(|s: (u64, Vec<u8>)| (s.0, s.1@))
}

/// The contents that could be read, each with its size in the archive.
pub fn keep_samples(list: &Vec<Result<EntryRead, String>>) -> (r: Vec<(u64, Vec<u8>)>)
    ensures
        sample_views(r@) == readable_samples(reads(list@)),
        r@.len() <= list@.len(),
{
    let mut r: Vec<(u64, Vec<u8>)> = Vec::new();
    let ghost all = reads(list@);
    let mut i: usize = 0;
    assert(sample_views(r@) =~= readable_samples(all.take(0)));
    while i < list.len()
        invariant
            i <= list@.len(),
            r@.len() <= i,
            all == reads(list@),
            sample_views(r@) == readable_samples(all.take(i as int)),
        decreases list.len() - i,
    {
        proof {
            assert(all.take(i + 1).drop_last() =~= all.take(i as int));
            assert(all.take(i + 1).last() == all[i as int]);
        }
        if let Ok(entry) = &list[i] {
            if let Ok(content) = &entry.content {
                let copy = vstd::slice::slice_to_vec(content.as_slice());
                let ghost before = r@;
                r.push((entry.compressed, copy));
                assert(sample_views(r@) =~= sample_views(before).push((entry.compressed, copy@)));
            }
        }
        i += 1;
    }
    assert(all.take(i as int) =~= all);
    r
}

impl<'a> ComicArchive<'a> {
    /// The page in the middle of the archive.
    pub fn middle_page(&mut self) -> (r: Option<Vec<u8>>)
        ensures
            final(self).source() == old(self).source(),
            (match r {
                Some(v) => Some(v@),
                None => None,
            }) == middle_page_of(old(self).source()),
    {
        let names = sort_naturally(&self.listed_pages());
        assert(text::texts(names@).len() == names@.len());
        if names.len() == 0 {
            return None;
        }
        match self.read(names[names.len() / 2].as_str()) {
            Ok(entry) => match entry.content {
                Ok(content) => Some(content),
                Err(_) => None,
            },
            Err(_) => None,
        }
    }

    /// Up to five pages spread over the archive.
    pub fn sample_pages(&mut self) -> (r: Option<Vec<(u64, Vec<u8>)>>)
        ensures
            final(self).source() == old(self).source(),
            (match r {
                Some(v) => Some(sample_views(v@)),
                None => None,
            }) == samples_of(old(self).source()),
            r is Some ==> r->0@.len() <= SAMPLES,
    {
        let entries = self.entries();
        let names = sort_naturally(&take_names(Taken::Samples, &entries));
        let ghost t = text::texts(names@);
        assert(t.len() == names@.len());
        if names.len() == 0 {
            return None;
        }
        let at = pick_sample_indices(names.len(), SAMPLES as usize);
        let mut chosen: Vec<String> = Vec::new();
        let mut i: usize = 0;
        while i < at.len()
            invariant
                i <= at@.len(),
                t == text::texts(names@),
                t.len() == names.len(),
                at@ == listing::sample_positions(t.len() as int, SAMPLES as int),
                text::texts(chosen@) == names_at(t, at@).take(i as int),
            decreases at.len() - i,
        {
            proof {
                listing::lemma_sample_in_range(t.len() as int, SAMPLES as int, i as int);
            }
            let name = names[at[i]].clone();
            proof {
                text::lemma_texts_push(chosen@, name);
            }
            chosen.push(name);
            assert(text::texts(chosen@) =~= names_at(t, at@).take(i + 1));
            i += 1;
        }
        assert(text::texts(chosen@) =~= names_at(t, at@));
        assert(text::texts(chosen@).len() == chosen@.len());
        let list = self.read_all(&chosen);
        assert(reads(list@).len() == list@.len());
        Some(keep_samples(&list))
    }
}

// ---------------------------------------------------------------------------
// Writing pages to a directory
// ---------------------------------------------------------------------------

/// Counts the pages that have been written and names the next one.
pub struct PageCounter {
    pub written: usize,
}

impl PageCounter {
    /// Nothing written yet.
    pub fn new() -> (r: Self)
        ensures
            r.written == 0,
    {
        PageCounter { written: 0 }
    }

    /// The file name for a page.
    pub fn name_for(&self, page: &[u8]) -> (name: String)
        ensures
            name@ == names::numbered(self.written as nat, sniff::picture_format(page@)),
    {
        numbered_name(self.written, image_ext_from_bytes(page))
    }

    /// Notes whether the page could be written; a page that could not leaves
    /// its number to the next.
    pub fn note(&mut self, ok: bool)
        requires
            old(self).written < usize::MAX,
        ensures
            final(self).written == old(self).written + (if ok {
                1int
            } else {
                0
            }),
    {
        if ok {
            self.written += 1;
        }
    }
}

// ---------------------------------------------------------------------------
// Laws of archives
// ---------------------------------------------------------------------------


/// The names that are taken from two lists of entries are those of both together.
pub proof fn names_follow_each_other(
    taken: Taken,
    a: Seq<Option<Seq<char>>>,
    b: Seq<Option<Seq<char>>>,
)
    ensures
        taken_names(taken, a + b) == taken_names(taken, a) + taken_names(taken, b),
    decreases b.len(),
{
    if b.len() == 0 {
        assert(a + b =~= a);
        assert(taken_names(taken, a) + seq![] =~= taken_names(taken, a));
    } else {
        names_follow_each_other(taken, a, b.drop_last());
        assert((a + b).drop_last() =~= a + b.drop_last());
        assert((a + b).last() == b.last());
        assert(taken_names(taken, a + b) =~= taken_names(taken, a) + taken_names(taken, b));
    }
}

/// An entry alone is a page just where it can be opened and its name ends like a picture,
/// and a sample where its extension is that of a picture.
pub proof fn an_entry_is_taken_by_its_name(name: Seq<char>)
    ensures
        taken_names(Taken::Pages, seq![Some(name)]) == (if listing::is_page_name(name) {
            seq![name]
        } else {
            seq![]
        }),
        taken_names(Taken::Samples, seq![Some(name)]) == (if listing::is_sample_name(name) {
            seq![name]
        } else {
            seq![]
        }),
        taken_names(Taken::Pages, seq![None]) == Seq::<Seq<char>>::empty(),
        taken_names(Taken::Samples, seq![None]) == Seq::<Seq<char>>::empty(),
{
    reveal_with_fuel(taken_names, 2);
    let one = seq![Some(name)];
    let none = seq![None::<Seq<char>>];
    assert(one.drop_last() =~= seq![]);
    assert(none.drop_last() =~= seq![]);
    assert(Seq::<Seq<char>>::empty().push(name) =~= seq![name]);
}

/// The pages of an archive are read in natural order: its page names are sorted, and
/// each is there as often as its directory lists it.
pub proof fn pages_are_in_natural_order(data: Seq<u8>)
    ensures
        page_order(data).to_multiset() == listed_pages(data).to_multiset(),
        page_order(data).len() == listed_pages(data).len(),
        forall|i: int, j: int|
            0 <= i < j < page_order(data).len() ==> natural::natural_le(
                #[trigger] page_order(data)[i],
                #[trigger] page_order(data)[j],
            ),
        listed_pages(data) == taken_names(
            Taken::Pages,
            Seq::new(zip_len(data), |i: int| zip_name(data, i)),
        ),
{
    let names = page_order(data);
    listing::natural_sort_is_sorted_permutation(listed_pages(data));
    assert(entry_names(data) =~= Seq::new(zip_len(data), |i: int| zip_name(data, i)));
    assert forall|i: int, j: int| 0 <= i < j < names.len() implies natural::natural_le(
        #[trigger] names[i],
        #[trigger] names[j],
    ) by {
        listing::lemma_sorted_pair(names, i, j);
    }
}

/// The contents that are kept of two lists are those of both together.
pub proof fn contents_follow_each_other(a: Seq<Result<(u64, Result<Seq<u8>, Seq<char>>), Seq<char>>>, b: Seq<Result<(u64, Result<Seq<u8>, Seq<char>>), Seq<char>>>)
    ensures
        readable(a + b) == readable(a) + readable(b),
        readable_samples(a + b) == readable_samples(a) + readable_samples(b),
    decreases b.len(),
{
    if b.len() == 0 {
        assert(a + b =~= a);
        assert(readable(a) + seq![] =~= readable(a));
        assert(readable_samples(a) + seq![] =~= readable_samples(a));
    } else {
        contents_follow_each_other(a, b.drop_last());
        assert((a + b).drop_last() =~= a + b.drop_last());
        assert((a + b).last() == b.last());
        assert(readable(a + b) =~= readable(a) + readable(b));
        assert(readable_samples(a + b) =~= readable_samples(a) + readable_samples(b));
    }
}

/// What is kept of one entry: its content where it can be read, which must not be empty
/// for a page; a sample keeps its size in the archive.
pub proof fn what_can_be_read_is_kept(size: u64, content: Seq<u8>, e: Seq<char>)
    ensures
        content.len() > 0 ==> readable(seq![Ok((size, Ok(content)))]) == seq![content],
        content.len() == 0 ==> readable(seq![Ok((size, Ok(content)))]).len() == 0,
        readable(seq![Ok((size, Err(e)))]).len() == 0,
        readable(seq![Err(e)]).len() == 0,
        readable_samples(seq![Ok((size, Ok(content)))]) == seq![(size, content)],
        readable_samples(seq![Ok((size, Err(e)))]).len() == 0,
        readable_samples(seq![Err(e)]).len() == 0,
{
    reveal_with_fuel(readable, 2);
    reveal_with_fuel(readable_samples, 2);
    let fine: Seq<Result<(u64, Result<Seq<u8>, Seq<char>>), Seq<char>>> = seq![Ok((size, Ok(content)))];
    let torn: Seq<Result<(u64, Result<Seq<u8>, Seq<char>>), Seq<char>>> = seq![Ok((size, Err(e)))];
    let lost: Seq<Result<(u64, Result<Seq<u8>, Seq<char>>), Seq<char>>> = seq![Err(e)];
    assert(fine.drop_last() =~= seq![]);
    assert(torn.drop_last() =~= seq![]);
    assert(lost.drop_last() =~= seq![]);
    assert(Seq::<Seq<u8>>::empty().push(content) =~= seq![content]);
    assert(Seq::<(u64, Seq<u8>)>::empty().push((size, content)) =~= seq![(size, content)]);
}

/// Every page of an archive that can be read and is not empty is among its pages.
pub proof fn no_readable_page_is_lost(data: Seq<u8>, i: int, size: u64, content: Seq<u8>)
    requires
        0 <= i < page_order(data).len(),
        zip_entry(data, page_order(data)[i]) == Ok::<(u64, Result<Seq<u8>, Seq<char>>), Seq<char>>(
            (size, Ok(content)),
        ),
        content.len() > 0,
    ensures
        archive_pages(data).contains(content),
        archive_pages(data).len() <= page_order(data).len(),
{
    let list = reads_of(data, page_order(data));
    let a = list.take(i);
    let b = list.skip(i + 1);
    let one: Seq<Result<(u64, Result<Seq<u8>, Seq<char>>), Seq<char>>> = seq![Ok((size, Ok(content)))];
    assert(list[i] == one[0]);
    assert(list =~= a + (one + b));
    contents_follow_each_other(a, one + b);
    contents_follow_each_other(one, b);
    what_can_be_read_is_kept(size, content, seq![]);
    assert(archive_pages(data)[readable(a).len() as int] == content);
    lemma_readable_len(list);
}

proof fn lemma_readable_len(list: Seq<Result<(u64, Result<Seq<u8>, Seq<char>>), Seq<char>>>)
    ensures
        readable(list).len() <= list.len(),
    decreases list.len(),
{
    if list.len() > 0 {
        lemma_readable_len(list.drop_last());
    }
}

/// A conversion is given the content of an entry, or told why it stops; where it was
/// called off it is told that, and nothing else.
pub proof fn steps_give_the_content(
    name: Seq<char>,
    size: u64,
    content: Seq<u8>,
    e: Seq<char>,
    read: Result<(u64, Result<Seq<u8>, Seq<char>>), Seq<char>>,
)
    ensures
        step_content(name, false, Ok((size, Ok(content)))) == Ok::<Seq<u8>, Seq<char>>(content),
        step_content(name, false, Ok((size, Err(e)))) == Err::<Seq<u8>, Seq<char>>(
            "Read error: "@ + e,
        ),
        step_content(name, false, Err(e)) == Err::<Seq<u8>, Seq<char>>(
            "Cannot read "@ + name + ": "@ + e,
        ),
        step_content(name, true, read) == Err::<Seq<u8>, Seq<char>>("Cancelled"@),
{
}

/// A conversion that is called off before a page gets nothing: it is told so where the
/// pages before can be read, and else why the first of them cannot.
pub proof fn stopped_loads_get_nothing(data: Seq<u8>, k: int, r: Result<Vec<Vec<u8>>, String>)
    requires
        zip_open(data) is Ok,
        0 <= k < page_order(data).len(),
        loads(data, Some(k), r),
    ensures
        r is Err,
        (forall|i: int|
            0 <= i < k ==> (match zip_entry(data, #[trigger] page_order(data)[i]) {
                Ok((_, Ok(_))) => true,
                _ => false,
            })) ==> r->Err_0@ == "Cancelled"@,
{
    let names = page_order(data);
    let list = reads_of(data, names);
    lemma_names_behind(names, list.take(k));
    conversions_get_every_page(names.take(k), list.take(k));
    if forall|i: int|
        0 <= i < k ==> (match zip_entry(data, #[trigger] names[i]) {
            Ok((_, Ok(_))) => true,
            _ => false,
        }) {
        assert forall|i: int| 0 <= i < k implies needed_content(
            names.take(k)[i],
            #[trigger] list.take(k)[i],
        ) is Ok by {
            assert(list.take(k)[i] == zip_entry(data, names[i]));
        }
    }
}

/// The page in the middle is the one with as many pages before it as behind it, or one
/// more. `m` is its place.
pub proof fn the_middle_page_is_in_the_middle(data: Seq<u8>) -> (m: int)
    requires
        page_order(data).len() > 0,
    ensures
        0 <= m < page_order(data).len(),
        0 <= m - (page_order(data).len() - 1 - m) <= 1,
        match zip_entry(data, page_order(data)[m]) {
            Ok((_, Ok(content))) => middle_page_of(data) == Some(content),
            _ => middle_page_of(data) is None,
        },
{
    page_order(data).len() as int / 2
}

/// Samples are up to five entries spread evenly over those with the extension of a
/// picture, in natural order.
pub proof fn samples_are_spread_over_the_archive(data: Seq<u8>) -> (names: Seq<Seq<char>>)
    ensures
        names == listing::natural_sort(
            taken_names(Taken::Samples, Seq::new(zip_len(data), |i: int| zip_name(data, i))),
        ),
        samples_of(data) is None <==> names.len() == 0,
        samples_of(data) is Some ==> samples_of(data)->0 == readable_samples(
            listing::sample_positions(names.len() as int, 5).map_values(
                |i: usize| zip_entry(data, names[i as int]),
            ),
        ),
{
    assert(entry_names(data) =~= Seq::new(zip_len(data), |i: int| zip_name(data, i)));
    let names = listing::natural_sort(taken_names(Taken::Samples, entry_names(data)));
    let at = listing::sample_positions(names.len() as int, 5);
    assert(reads_of(data, names_at(names, at)) =~= at.map_values(
        |i: usize| zip_entry(data, names[i as int]),
    ));
    names
}

/// What is said of an archive that gives a conversion no pages: that it cannot be opened, or
/// that it has none.
pub proof fn archives_without_pages_are_refused(
    data: Seq<u8>,
    stop: Option<int>,
    r: Result<Vec<Vec<u8>>, String>,
)
    requires
        loads(data, stop, r),
        stops_within(stop, page_order(data).len()),
    ensures
        zip_open(data) matches Err(e) ==> r is Err && r->Err_0@ == "Cannot open archive: "@ + e,
        zip_open(data) is Ok && page_order(data).len() == 0 ==> r is Err && r->Err_0@
            == "No images found in archive"@,
        stop is None || (0 <= stop->0 < page_order(data).len()),
{
    if page_order(data).len() == 0 {
        assert(reads_of(data, page_order(data)) =~= seq![]);
    }
}

/// A conversion that is not called off stops at the first page that cannot be read, and
/// says which and why.
pub proof fn unreadable_pages_are_named(
    data: Seq<u8>,
    k: int,
    e: Seq<char>,
    r: Result<Vec<Vec<u8>>, String>,
)
    requires
        zip_open(data) is Ok,
        loads(data, None, r),
        0 <= k < page_order(data).len(),
        zip_entry(data, page_order(data)[k]) == Err::<(u64, Result<Seq<u8>, Seq<char>>), Seq<char>>(
            e,
        ),
        forall|i: int|
            0 <= i < k ==> (match zip_entry(data, #[trigger] page_order(data)[i]) {
                Ok((_, Ok(_))) => true,
                _ => false,
            }),
    ensures
        r is Err && r->Err_0@ == "Cannot read "@ + page_order(data)[k] + ": "@ + e,
{
    let names = page_order(data);
    let list = reads_of(data, names);
    conversions_get_every_page(names, list);
    assert(list[k] == zip_entry(data, names[k]));
    match needed_contents(names, list) {
        Ok(pages) => {
            assert(needed_content(names[k], list[k]) == Ok::<Seq<u8>, Seq<char>>(pages[k]));
        },
        Err(error) => {
            let m = choose|m: int|
                0 <= m < list.len() && needed_content(names[m], #[trigger] list[m]) == Err::<
                    Seq<u8>,
                    Seq<char>,
                >(error) && forall|i: int|
                    0 <= i < m ==> needed_content(names[i], #[trigger] list[i]) is Ok;
            if m < k {
                assert(list[m] == zip_entry(data, names[m]));
            }
            if k < m {
                assert(needed_content(names[k], list[k]) is Ok);
            }
        },
    }
}

/// What was read is seen as it was read: the size and the content of an entry, or why there
/// is none.
pub proof fn reads_are_seen_as_they_are(read: Result<EntryRead, String>, pages: Result<Vec<Vec<u8>>, String>)
    ensures
        match (read, read_view(read)) {
            (Ok(entry), Ok((size, content))) => size == entry.compressed && match (
                entry.content,
                content,
            ) {
                (Ok(v), Ok(w)) => w == v@,
                (Err(e), Err(f)) => f == e@,
                _ => false,
            },
            (Err(e), Err(f)) => f == e@,
            _ => false,
        },
        match (pages, contents_view(pages)) {
            (Ok(list), Ok(seen)) => seen.len() == list@.len() && forall|i: int|
                0 <= i < list@.len() ==> #[trigger] seen[i] == list@[i]@,
            (Err(e), Err(f)) => f == e@,
            _ => false,
        },
{
}

/// The list of reads and the list of samples have each entry at its place.
pub proof fn lists_of_reads_are_seen_as_they_are(
    list: Seq<Result<EntryRead, String>>,
    samples: Seq<(u64, Vec<u8>)>,
    entries: Seq<Option<String>>,
    i: int,
)
    ensures
        reads(list).len() == list.len(),
        0 <= i < list.len() ==> reads(list)[i] == read_view(list[i]),
        sample_views(samples).len() == samples.len(),
        0 <= i < samples.len() ==> sample_views(samples)[i].0 == samples[i].0 && sample_views(
            samples,
        )[i].1 == samples[i].1@,
        entry_texts(entries).len() == entries.len(),
        0 <= i < entries.len() ==> match (entries[i], entry_texts(entries)[i]) {
            (Some(s), Some(t)) => t == s@,
            (None, None) => true,
            _ => false,
        },
{
}

} // verus!
