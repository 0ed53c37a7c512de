//! The pages of the books that were opened last.

use crate::archive::extract_images_from_cbz;
use crate::archive;
use crate::bytes::copy_contents;
use crate::bytes;
use crate::mobi::extract_images_from_mobi_data;
use crate::mobi;
use crate::text::{join, same_text};
use crate::text;
use vstd::prelude::*;

verus! {

/// A book in the cache.
pub struct CachedBook {
    path: String,
    pages: Vec<Vec<u8>>,
}

/// The pages of up to three books, found by path.
pub struct MobiCache {
    books: Vec<CachedBook>,
}

/// How many books are kept.
pub const CAPACITY: usize = 3;

impl MobiCache {
    spec fn paths(&self) -> Seq<Seq<char>> {
        self.books@.map_values(|b: CachedBook| b.path@)
    }

    /// The books by path.
    pub closed spec fn view(&self) -> Map<Seq<char>, Seq<Seq<u8>>> {
        Map::new(
            |k: Seq<char>| self.paths().contains(k),
            |k: Seq<char>| bytes::contents(self.books@[self.paths().index_of(k)].pages@),
        )
    }

    /// No path stands twice, and there are no more books than are kept.
    pub closed spec fn valid(&self) -> bool {
        &&& self.paths().no_duplicates()
        &&& self.books@.len() <= CAPACITY
    }

    /// The cache never holds more books than are kept.
    pub proof fn holds_at_most_three(&self)
        requires
            self.valid(),
        ensures
            self@.dom().finite(),
            self@.dom().len() <= CAPACITY,
    {
        self.lemma_size();
    }

    proof fn lemma_size(&self)
        requires
            self.paths().no_duplicates(),
        ensures
            self@.dom().finite(),
            self@.dom().len() == self.books@.len(),
    {
        self.paths().unique_seq_to_set();
        assert(self@.dom() =~= self.paths().to_set());
    }

    proof fn lemma_found(&self, i: int)
        requires
            self.paths().no_duplicates(),
            0 <= i < self.books@.len(),
        ensures
            self@.contains_key(self.books@[i].path@),
            self@[self.books@[i].path@] == bytes::contents(self.books@[i].pages@),
    {
        assert(self.paths()[i] == self.books@[i].path@);
        assert(self.paths().contains(self.paths()[i]));
        let j = self.paths().index_of(self.paths()[i]);
        assert(self.paths()[j] == self.paths()[i]);
    }

    /// An empty cache.
    pub fn new() -> (r: Self)
        ensures
            r.valid(),
            r@ == Map::<Seq<char>, Seq<Seq<u8>>>::empty(),
    {
        let r = MobiCache { books: Vec::new() };
        assert(r@ =~= Map::<Seq<char>, Seq<Seq<u8>>>::empty());
        r
    }

    fn position(&self, path: &str) -> (r: Option<usize>)
        ensures
            r is Some <==> self@.contains_key(path@),
            r is Some ==> r->0 < self.books@.len() && self.books@[r->0 as int].path@ == path@,
    {
        let mut i: usize = 0;
        while i < self.books.len()
            invariant
                i <= self.books@.len(),
                forall|k: int| 0 <= k < i ==> (#[trigger] self.books@[k]).path@ != path@,
            decreases self.books.len() - i,
        {
            if same_text(self.books[i].path.as_str(), path) {
                assert(self.paths()[i as int] == path@);
                return Some(i);
            }
            i += 1;
        }
        assert(!self.paths().contains(path@)) by {
            if self.paths().contains(path@) {
                let k = choose|k: int| 0 <= k < self.paths().len() && self.paths()[k] == path@;
                assert(self.books@[k].path@ == path@);
            }
        }
        None
    }

    /// Whether the book at a path is kept.
    pub fn contains(&self, path: &str) -> (r: bool)
        ensures
            r == self@.contains_key(path@),
    {
        self.position(path).is_some()
    }

    /// A copy of the pages of the book at a path.
    pub fn get(&self, path: &str) -> (r: Option<Vec<Vec<u8>>>)
        requires
            self.valid(),
        ensures
            r is Some <==> self@.contains_key(path@),
            r is Some ==> bytes::contents(r->0@) == self@[path@],
    {
        match self.position(path) {
            Some(i) => {
                proof {
                    self.lemma_found(i as int);
                }
                Some(copy_contents(&self.books[i].pages))
            },
            None => None,
        }
    }

    fn remove_at(&mut self, i: usize)
        requires
            old(self).valid(),
            i < old(self).books@.len(),
        ensures
            final(self).valid(),
            final(self)@ == old(self)@.remove(old(self).books@[i as int].path@),
            final(self).books@.len() == old(self).books@.len() - 1,
    {
        let ghost before = *self;
        self.books.remove(i);
        proof {
            let gone = before.books@[i as int].path@;
            assert(self.books@ =~= before.books@.remove(i as int));
            assert(self.paths() =~= before.paths().remove(i as int));
            assert(before.paths()[i as int] == gone);
            assert forall|x: int, y: int|
                0 <= x < self.paths().len() && 0 <= y < self.paths().len() && x
                    != y implies self.paths()[x] != self.paths()[y] by {
                let p = if x < i {
                    x
                } else {
                    x + 1
                };
                let q = if y < i {
                    y
                } else {
                    y + 1
                };
                assert(self.paths()[x] == before.paths()[p]);
                assert(self.paths()[y] == before.paths()[q]);
            }
            assert forall|k: Seq<char>| #[trigger]
                self@.contains_key(k) <==> before@.remove(gone).contains_key(k) by {
                if self.paths().contains(k) {
                    let x = choose|x: int| 0 <= x < self.paths().len() && self.paths()[x] == k;
                    let p = if x < i {
                        x
                    } else {
                        x + 1
                    };
                    assert(before.paths()[p] == k);
                }
                if before.paths().contains(k) && k != gone {
                    let p = choose|p: int| 0 <= p < before.paths().len() && before.paths()[p] == k;
                    let x = if p < i {
                        p
                    } else {
                        p - 1
                    };
                    assert(self.paths()[x] == k);
                }
            }
            assert forall|k: Seq<char>| #[trigger] self@.contains_key(k) implies self@[k]
                == before@.remove(gone)[k] by {
                let x = choose|x: int| 0 <= x < self.paths().len() && self.paths()[x] == k;
                let p = if x < i {
                    x
                } else {
                    x + 1
                };
                assert(self.books@[x].path@ == k);
                assert(before.books@[p].path@ == k);
                self.lemma_found(x);
                before.lemma_found(p);
            }
            assert(self@ =~= before@.remove(gone));
        }
    }

    /// Forgets the book at a path.
    pub fn remove(&mut self, path: &str)
        requires
            old(self).valid(),
        ensures
            final(self).valid(),
            final(self)@ == old(self)@.remove(path@),
    {
        match self.position(path) {
            Some(i) => {
                self.remove_at(i);
            },
            None => {
                assert(self@ =~= self@.remove(path@));
            },
        }
    }

    /// Keeps the pages of a book that is not kept yet; where the cache is full
    /// another book makes room.
    pub fn store(&mut self, path: &str, pages: Vec<Vec<u8>>)
        requires
            old(self).valid(),
            !old(self)@.contains_key(path@),
        ensures
            final(self).valid(),
            stored(old(self)@, final(self)@, path@, bytes::contents(pages@)),
    {
        proof {
            self.lemma_size();
        }
        let ghost start = self@;
        if self.books.len() >= CAPACITY {
            proof {
                self.lemma_found(0);
            }
            self.remove_at(0);
        }
        let ghost before = *self;
        self.books.push(CachedBook { path: path.to_owned(), pages });
        proof {
            let n = before.books@.len() as int;
            assert(self.paths() =~= before.paths().push(path@));
            assert(!before.paths().contains(path@)) by {
                if before.paths().contains(path@) {
                    assert(before@.contains_key(path@));
                    assert(start.contains_key(path@));
                }
            }
            assert forall|k: Seq<char>| #[trigger]
                self@.contains_key(k) <==> before@.insert(path@, bytes::contents(pages@)).contains_key(k) by {
                if self.paths().contains(k) && k != path@ {
                    let x = choose|x: int| 0 <= x < self.paths().len() && self.paths()[x] == k;
                    assert(before.paths()[x] == k);
                }
                if before.paths().contains(k) {
                    let x = choose|x: int| 0 <= x < before.paths().len() && before.paths()[x] == k;
                    assert(self.paths()[x] == k);
                }
                if k == path@ {
                    assert(self.paths()[n] == k);
                }
            }
            assert forall|k: Seq<char>| #[trigger] self@.contains_key(k) implies self@[k]
                == before@.insert(path@, bytes::contents(pages@))[k] by {
                let x = choose|x: int| 0 <= x < self.paths().len() && self.paths()[x] == k;
                assert(self.books@[x].path@ == k);
                self.lemma_found(x);
                if x < n {
                    assert(before.books@[x] == self.books@[x]);
                    assert(before.paths()[x] == k);
                    before.lemma_found(x);
                }
            }
            assert(self@ =~= before@.insert(path@, bytes::contents(pages@)));
        }
    }
}

/// `after` keeps one book more than `before`; where that was full, one of its
/// books, whichever, is gone.
pub open spec fn stored(
    before: Map<Seq<char>, Seq<Seq<u8>>>,
    after: Map<Seq<char>, Seq<Seq<u8>>>,
    path: Seq<char>,
    pages: Seq<Seq<u8>>,
) -> bool {
    if before.dom().len() >= CAPACITY {
        exists|gone: Seq<char>| #[trigger]
            before.contains_key(gone) && after == before.remove(gone).insert(path, pages)
    } else {
        after == before.insert(path, pages)
    }
}

/// What was just stored is found again.
pub proof fn stored_books_are_found(
    before: Map<Seq<char>, Seq<Seq<u8>>>,
    after: Map<Seq<char>, Seq<Seq<u8>>>,
    path: Seq<char>,
    pages: Seq<Seq<u8>>,
)
    requires
        stored(before, after, path, pages),
    ensures
        after.contains_key(path),
        after[path] == pages,
{
}

/// The pages of a book: of a CBZ file where its extension says so, else of a
/// MOBI file; `source` is what reading the file gave.
pub open spec fn book_pages(extension: Seq<char>, source: Result<Seq<u8>, Seq<char>>) -> Result<
    Seq<Seq<u8>>,
    Seq<char>,
> {
    if is_cbz_extension(extension) {
        match source {
            Err(e) => Err("Cannot read CBZ: "@ + e),
            Ok(data) => match archive::zip_open(data) {
                Err(e) => Err("Cannot open CBZ: "@ + e),
                Ok(_) => Ok(archive::archive_pages(data)),
            },
        }
    } else {
        match source {
            Err(e) => Err("Cannot read MOBI: "@ + e),
            Ok(data) => if data.len() < 78 {
                Err("File too small to be MOBI"@)
            } else {
                Ok(mobi::book_pictures(data))
            },
        }
    }
}

/// Whether an extension is that of a CBZ file, whatever its case.
pub open spec fn is_cbz_extension(extension: Seq<char>) -> bool {
    text::lowercase(extension) == "cbz"@ || text::lowercase(extension) == "zip"@
}

/// Whether an extension is that of a CBZ file, whatever its case.
pub fn cbz_extension(extension: &str) -> (r: bool)
    ensures
        r == is_cbz_extension(extension@),
{
    let lower = extension.to_lowercase();
    same_text(lower.as_str(), "cbz") || same_text(lower.as_str(), "zip")
}

/// What reading a file gave, as plain values.
pub open spec fn source_view(source: Result<&[u8], String>) -> Result<Seq<u8>, Seq<char>> {
    match source {
        Ok(data) => Ok(data@),
        Err(e) => Err(e@),
    }
}

/// The pages of a book; `source` is what reading its file gave.
pub fn extract_pages(extension: &str, source: Result<&[u8], String>) -> (r: Result<
    Vec<Vec<u8>>,
    String,
>)
    ensures
        archive::contents_view(r) == book_pages(extension@, source_view(source)),
{
    if cbz_extension(extension) {
        match source {
            Err(e) => Err(join("Cannot read CBZ: ", e.as_str())),
            Ok(data) => extract_images_from_cbz(data),
        }
    } else {
        match source {
            Err(e) => Err(join("Cannot read MOBI: ", e.as_str())),
            Ok(data) => extract_images_from_mobi_data(data),
        }
    }
}

/// The pages of the book at a path: those that are kept, or else those of its
/// file, which are kept from then on. `source` is what reading the file gave; it
/// is not looked at where the book is kept.
pub fn get_or_extract(
    cache: &mut MobiCache,
    path: &str,
    extension: &str,
    source: Result<&[u8], String>,
) -> (r: Result<Vec<Vec<u8>>, String>)
    requires
        old(cache).valid(),
    ensures
        final(cache).valid(),
        old(cache)@.contains_key(path@) ==> {
            &&& r is Ok
            &&& bytes::contents(r->Ok_0@) == old(cache)@[path@]
            &&& final(cache)@ == old(cache)@
        },
        !old(cache)@.contains_key(path@) ==> {
            &&& archive::contents_view(r) == book_pages(extension@, source_view(source))
            &&& r is Ok ==> stored(old(cache)@, final(cache)@, path@, bytes::contents(r->Ok_0@))
            &&& r is Err ==> final(cache)@ == old(cache)@
        },
{
    if let Some(pages) = cache.get(path) {
        return Ok(pages);
    }
    match extract_pages(extension, source) {
        Ok(pages) => {
            cache.store(path, copy_contents(&pages));
            Ok(pages)
        },
        Err(e) => Err(e),
    }
}

// ---------------------------------------------------------------------------
// Laws of the cache
// ---------------------------------------------------------------------------


/// Up to three books are kept: while there are fewer, none goes when one comes, and of
/// three just one goes.
pub proof fn three_books_are_kept(
    before: Map<Seq<char>, Seq<Seq<u8>>>,
    after: Map<Seq<char>, Seq<Seq<u8>>>,
    path: Seq<char>,
    pages: Seq<Seq<u8>>,
) -> (gone: Option<Seq<char>>)
    requires
        before.dom().finite(),
        before.dom().len() <= 3,
        !before.contains_key(path),
        stored(before, after, path, pages),
    ensures
        after.contains_key(path) && after[path] == pages,
        gone is None <==> before.dom().len() < 3,
        gone matches Some(g) ==> before.contains_key(g) && !after.contains_key(g),
        forall|k: Seq<char>|
            before.contains_key(k) && gone != Some(k) ==> #[trigger] after.contains_key(k) && after[k]
                == before[k],
        forall|k: Seq<char>| #[trigger] after.contains_key(k) ==> k == path || before.contains_key(k),
{
    if before.dom().len() < 3 {
        None
    } else {
        let gone = choose|gone: Seq<char>| #[trigger]
            before.contains_key(gone) && after == before.remove(gone).insert(path, pages);
        Some(gone)
    }
}

/// A book is read as a CBZ file where its extension is `cbz` or `zip`, and else as a MOBI
/// file; a file that cannot be read has no pages.
pub proof fn books_are_read_by_their_extension(
    extension: Seq<char>,
    source: Result<Seq<u8>, Seq<char>>,
)
    ensures
        ({
            let lower = text::lowercase(extension);
            let cbz = lower == "cbz"@ || lower == "zip"@;
            let pages = book_pages(extension, source);
            &&& is_cbz_extension(extension) <==> cbz
            &&& source is Err ==> pages == Err::<Seq<Seq<u8>>, Seq<char>>(
                (if cbz {
                    "Cannot read CBZ: "@
                } else {
                    "Cannot read MOBI: "@
                }) + source->Err_0,
            )
            &&& source is Ok && cbz ==> {
                &&& pages is Ok <==> archive::zip_open(source->Ok_0) is Ok
                &&& pages is Ok ==> pages->Ok_0 == archive::archive_pages(source->Ok_0)
            }
            &&& source is Ok && !cbz ==> {
                &&& pages is Ok <==> source->Ok_0.len() >= 78
                &&& pages is Ok ==> pages->Ok_0 == mobi::book_pictures(source->Ok_0)
            }
        }),
{
}

} // verus!
