//! Lists of file names: natural sorting, which names are pages, samples.

use crate::natural::{Relation, relate_naturally};
use crate::natural;
use crate::order::{IndexOrder, sorted_positions};
use crate::order;
use crate::text::{chars_of, has_suffix, same_text, string_of};
use crate::text;
use vstd::prelude::*;
use vstd::relations::*;
use vstd::seq_lib::*;

verus! {

// ---------------------------------------------------------------------------
// Natural sorting
// ---------------------------------------------------------------------------

/// The names in natural order.
pub open spec fn natural_sort(names: Seq<Seq<char>>) -> Seq<Seq<char>> {
    names.sort_by(|a: Seq<char>, b: Seq<char>| natural::natural_le(a, b))
}

/// Whether every name stands before, or equals, those that follow it.
pub open spec fn naturally_sorted(names: Seq<Seq<char>>) -> bool {
    sorted_by(names, |a: Seq<char>, b: Seq<char>| natural::natural_le(a, b))
}

/// Whether the name at `i` goes before the name at `j`: by natural order, equal
/// names as they stand.
pub open spec fn natural_before(names: Seq<Seq<char>>, i: int, j: int) -> bool {
    natural::natural_lt(names[i], names[j]) || (names[i] == names[j] && i < j)
}

/// Whether `order` lists every position of `names` once, in natural order.
pub open spec fn is_natural_order(names: Seq<Seq<char>>, order: Seq<usize>) -> bool {
    &&& order.to_multiset() == order::positions(0, names.len() as int).to_multiset()
    &&& forall|x: int, y: int|
        #![trigger order[x], order[y]]
        0 <= x < y < order.len() ==> natural_before(names, order[x] as int, order[y] as int)
}

proof fn lemma_natural_total_ordering()
    ensures
        total_ordering(|a: Seq<char>, b: Seq<char>| natural::natural_le(a, b)),
{
    let leq = |a: Seq<char>, b: Seq<char>| natural::natural_le(a, b);
    assert forall|x: Seq<char>, y: Seq<char>| #[trigger] leq(x, y) && #[trigger] leq(y, x) implies x
        == y by {
        if x != y {
            natural::natural_order_is_total(x, y);
        }
    }
    assert forall|x: Seq<char>, y: Seq<char>| #[trigger] leq(x, y) || #[trigger] leq(y, x) by {
        if x != y {
            natural::natural_order_is_total(x, y);
        }
    }
    assert forall|x: Seq<char>, y: Seq<char>, z: Seq<char>| #[trigger]
        leq(x, y) && #[trigger] leq(y, z) implies leq(x, z) by {
        if x != y && y != z {
            natural::natural_order_is_transitive(x, y, z);
        }
    }
}

/// Sorting keeps every name as often as it occurs, and the result is sorted.
pub proof fn natural_sort_is_sorted_permutation(names: Seq<Seq<char>>)
    ensures
        naturally_sorted(natural_sort(names)),
        natural_sort(names).to_multiset() == names.to_multiset(),
        natural_sort(names).len() == names.len(),
{
    broadcast use group_to_multiset_ensures;

    lemma_natural_total_ordering();
    names.lemma_sort_by_ensures(|a: Seq<char>, b: Seq<char>| natural::natural_le(a, b));
    assert(natural_sort(names).to_multiset().len() == natural_sort(names).len());
    assert(names.to_multiset().len() == names.len());
}

/// There is only one sorted arrangement of a list of names, so what a listing
/// was like before it was sorted makes no difference.
pub proof fn natural_sort_is_unique(names: Seq<Seq<char>>, sorted: Seq<Seq<char>>)
    requires
        naturally_sorted(sorted),
        sorted.to_multiset() == names.to_multiset(),
    ensures
        sorted == natural_sort(names),
{
    lemma_natural_total_ordering();
    natural_sort_is_sorted_permutation(names);
    lemma_sorted_unique(
        sorted,
        natural_sort(names),
        |a: Seq<char>, b: Seq<char>| natural::natural_le(a, b),
    );
}

/// Sorting twice is sorting once.
pub proof fn natural_sort_is_idempotent(names: Seq<Seq<char>>)
    ensures
        natural_sort(natural_sort(names)) == natural_sort(names),
{
    natural_sort_is_sorted_permutation(names);
    natural_sort_is_unique(natural_sort(names), natural_sort(names));
}

/// Two listings of the same names are sorted alike.
pub proof fn natural_sort_forgets_the_listing(names: Seq<Seq<char>>, other: Seq<Seq<char>>)
    requires
        names.to_multiset() == other.to_multiset(),
    ensures
        natural_sort(names) == natural_sort(other),
{
    natural_sort_is_sorted_permutation(other);
    natural_sort_is_unique(names, natural_sort(other));
}

/// The names taken in natural order are the sorted names.
pub proof fn natural_order_sorts(names: Seq<Seq<char>>, order: Seq<usize>)
    requires
        names.len() <= usize::MAX,
        is_natural_order(names, order),
    ensures
        order.map_values(|i: usize| names[i as int]) == natural_sort(names),
{
    order::lemma_listed_once(order, names);
    let sorted = order.map_values(|i: usize| names[i as int]);
    assert(naturally_sorted(sorted)) by {
        assert forall|x: int, y: int| 0 <= x < y < sorted.len() implies natural::natural_le(
            #[trigger] sorted[x],
            #[trigger] sorted[y],
        ) by {
            assert(natural_before(names, order[x] as int, order[y] as int));
        }
    }
    natural_sort_is_unique(names, sorted);
}

/// There is only one natural order of the positions of a list.
pub proof fn natural_order_is_unique(names: Seq<Seq<char>>, order: Seq<usize>, other: Seq<usize>)
    requires
        is_natural_order(names, order),
        is_natural_order(names, other),
    ensures
        order == other,
{
    let leq = |i: usize, j: usize| i == j || natural_before(names, i as int, j as int);
    assert forall|i: usize, j: usize| #[trigger] leq(i, j) && #[trigger] leq(j, i) implies i == j by {
        natural::natural_order_is_irreflexive(names[i as int]);
        if names[i as int] != names[j as int] {
            natural::natural_order_is_total(names[i as int], names[j as int]);
        }
    }
    assert forall|i: usize, j: usize| #[trigger] leq(i, j) || #[trigger] leq(j, i) by {
        if names[i as int] != names[j as int] {
            natural::natural_order_is_total(names[i as int], names[j as int]);
        }
    }
    assert forall|i: usize, j: usize, k: usize| #[trigger] leq(i, j) && #[trigger] leq(j, k) implies leq(
        i,
        k,
    ) by {
        let a = names[i as int];
        let b = names[j as int];
        let c = names[k as int];
        if natural::natural_lt(a, b) && natural::natural_lt(b, c) {
            natural::natural_order_is_transitive(a, b, c);
        }
    }
    assert forall|x: int, y: int| 0 <= x < y < order.len() implies leq(
        #[trigger] order[x],
        #[trigger] order[y],
    ) by {}
    assert forall|x: int, y: int| 0 <= x < y < other.len() implies leq(
        #[trigger] other[x],
        #[trigger] other[y],
    ) by {}
    lemma_sorted_unique(order, other, leq);
}

/// There is only one reading order of the files that are looked for.
pub proof fn reading_order_is_unique(
    wanted: Wanted,
    files: Seq<ListedFile>,
    r: Seq<usize>,
    other: Seq<usize>,
)
    requires
        is_reading_order(wanted, files, r),
        is_reading_order(wanted, files, other),
    ensures
        r == other,
{
    let found = wanted_positions(wanted, files, files.len() as int);
    let a = choose|order: Seq<usize>| #[trigger]
        is_natural_order(paths_at(files, found), order) && r == order.map_values(
            |x: usize| found[x as int],
        );
    let b = choose|order: Seq<usize>| #[trigger]
        is_natural_order(paths_at(files, found), order) && other == order.map_values(
            |x: usize| found[x as int],
        );
    natural_order_is_unique(paths_at(files, found), a, b);
}

struct NaturalKeys {
    keys: Vec<Vec<char>>,
}

impl NaturalKeys {
    spec fn names(&self) -> Seq<Seq<char>> {
        self.keys@.map_values(|v: Vec<char>| v@)
    }
}

impl IndexOrder for NaturalKeys {
    closed spec fn size(&self) -> nat {
        self.keys@.len()
    }

    closed spec fn before(&self, i: int, j: int) -> bool {
        natural_before(self.names(), i, j)
    }

    proof fn order_laws(&self, i: int, j: int, k: int) {
        let a = self.names()[i];
        let b = self.names()[j];
        let c = self.names()[k];
        natural::natural_order_is_irreflexive(a);
        if a != b {
            natural::natural_order_is_total(a, b);
        }
        if self.before(i, j) && self.before(j, k) && natural::natural_lt(a, b) && natural::natural_lt(b, c) {
            natural::natural_order_is_transitive(a, b, c);
        }
    }

    fn precedes(&self, i: usize, j: usize) -> (r: bool) {
        match relate_naturally(&self.keys[i], &self.keys[j]) {
            Relation::Before => true,
            Relation::Same => i < j,
            Relation::After => false,
        }
    }
}

/// The positions of `names` in natural order.
pub fn natural_order(names: &Vec<String>) -> (order: Vec<usize>)
    ensures
        is_natural_order(text::texts(names@), order@),
        order@.len() == names@.len(),
        forall|x: int| 0 <= x < order@.len() ==> #[trigger] order@[x] < names@.len(),
{
    let mut keys: Vec<Vec<char>> = Vec::new();
    let mut i: usize = 0;
    while i < names.len()
        invariant
            i <= names@.len(),
            keys@.len() == i,
            forall|k: int| 0 <= k < i ==> (#[trigger] keys@[k])@ == names@[k]@,
        decreases names.len() - i,
    {
        keys.push(chars_of(names[i].as_str()));
        i += 1;
    }
    let table = NaturalKeys { keys };
    assert(table.names() =~= text::texts(names@));
    let order = sorted_positions(&table, names.len());
    assert forall|x: int, y: int| 0 <= x < y < order@.len() implies natural_before(
        text::texts(names@),
        (#[trigger] order@[x]) as int,
        (#[trigger] order@[y]) as int,
    ) by {
        assert(table.before(order@[x] as int, order@[y] as int));
    }
    order
}

/// The names in natural order.
pub fn sort_naturally(names: &Vec<String>) -> (sorted: Vec<String>)
    ensures
        text::texts(sorted@) == natural_sort(text::texts(names@)),
{
    let order = natural_order(names);
    let mut sorted: Vec<String> = Vec::new();
    let mut i: usize = 0;
    let ghost t = text::texts(names@);
    while i < order.len()
        invariant
            i <= order@.len(),
            forall|x: int| 0 <= x < order@.len() ==> #[trigger] order@[x] < names@.len(),
            t == text::texts(names@),
            text::texts(sorted@) == order@.map_values(|i: usize| t[i as int]).take(i as int),
        decreases order.len() - i,
    {
        let name = names[order[i]].clone();
        proof {
            text::lemma_texts_push(sorted@, name);
        }
        sorted.push(name);
        assert(text::texts(sorted@) =~= order@.map_values(|i: usize| t[i as int]).take(i + 1));
        i += 1;
    }
    proof {
        natural_order_sorts(t, order@);
        assert(text::texts(sorted@) =~= order@.map_values(|i: usize| t[i as int]));
    }
    sorted
}

pub proof fn lemma_sorted_pair(names: Seq<Seq<char>>, i: int, j: int)
    requires
        0 <= i < j < names.len(),
        naturally_sorted(names),
    ensures
        natural::natural_le(names[i], names[j]),
{
    let leq = |a: Seq<char>, b: Seq<char>| natural::natural_le(a, b);
    assert(sorted_by(names, leq));
    assert(leq(names[i], names[j]));
}

/// A list whose neighbours are in order is sorted.
proof fn lemma_neighbours_sorted(names: Seq<Seq<char>>, i: int, j: int)
    requires
        0 <= i < j < names.len(),
        forall|k: int| 0 <= k < names.len() - 1 ==> natural::natural_le(#[trigger] names[k], names[k + 1]),
    ensures
        natural::natural_le(names[i], names[j]),
    decreases j - i,
{
    assert(natural::natural_le(names[i], names[i + 1]));
    if i + 1 < j {
        lemma_neighbours_sorted(names, i + 1, j);
        if names[i] != names[i + 1] && names[i + 1] != names[j] {
            natural::natural_order_is_transitive(names[i], names[i + 1], names[j]);
        }
    }
}

/// Whether sorting the names would change their order.
pub fn is_zip_out_of_order(names: &[String]) -> (r: bool)
    ensures
        r == (text::texts(names@) != natural_sort(text::texts(names@))),
{
    let ghost t = text::texts(names@);
    let mut i: usize = 1;
    while i < names.len()
        invariant
            1 <= i,
            i <= names@.len() || i == 1,
            t == text::texts(names@),
            forall|k: int| 0 <= k < i - 1 ==> natural::natural_le(#[trigger] t[k], t[k + 1]),
        decreases names.len() - i,
    {
        match relate_naturally(&chars_of(names[i - 1].as_str()), &chars_of(names[i].as_str())) {
            Relation::After => {
                proof {
                    natural_sort_is_sorted_permutation(t);
                    if t == natural_sort(t) {
                        lemma_sorted_pair(t, i - 1, i as int);
                        natural::natural_order_is_total(t[i - 1], t[i as int]);
                    }
                }
                return true;
            },
            _ => {},
        }
        assert(natural::natural_le(t[i - 1], t[i as int]));
        i += 1;
    }
    proof {
        assert forall|x: int, y: int| 0 <= x < y < t.len() implies natural::natural_le(
            #[trigger] t[x],
            #[trigger] t[y],
        ) by {
            lemma_neighbours_sorted(t, x, y);
        }
        assert(naturally_sorted(t));
        natural_sort_is_unique(t, t);
    }
    false
}

// ---------------------------------------------------------------------------
// Which names are pictures
// ---------------------------------------------------------------------------

/// Extensions of pictures that an archive may hold.
pub open spec fn is_picture_extension(e: Seq<char>) -> bool {
    e == "jpg"@ || e == "jpeg"@ || e == "png"@ || e == "webp"@ || e == "bmp"@ || e == "gif"@ || e
        == "tif"@ || e == "tiff"@
}

/// Whether `e` is the extension of a picture.
pub fn picture_extension(e: &str) -> (r: bool)
    ensures
        r == is_picture_extension(e@),
{
    same_text(e, "jpg") || same_text(e, "jpeg") || same_text(e, "png") || same_text(e, "webp")
        || same_text(e, "bmp") || same_text(e, "gif") || same_text(e, "tif") || same_text(e, "tiff")
}

/// What follows the last dot of `s`, or all of it where there is none.
pub open spec fn after_last_dot(s: Seq<char>) -> Seq<char>
    decreases s.len(),
{
    if s.len() == 0 || s.last() == '.' {
        seq![]
    } else {
        after_last_dot(s.drop_last()).push(s.last())
    }
}

proof fn lemma_after_last_dot(s: Seq<char>, start: int)
    requires
        0 <= start <= s.len(),
        start > 0 ==> s[start - 1] == '.',
        forall|k: int| start <= k < s.len() ==> #[trigger] s[k] != '.',
    ensures
        after_last_dot(s) == s.skip(start),
    decreases s.len(),
{
    if start == s.len() {
        assert(s.skip(start) =~= seq![]);
    } else {
        lemma_after_last_dot(s.drop_last(), start);
        assert(s.skip(start) =~= s.drop_last().skip(start).push(s.last()));
    }
}

/// Whether what follows the last dot of `s` is the extension of a picture.
pub fn is_image_ext(s: &str) -> (r: bool)
    ensures
        r == is_picture_extension(after_last_dot(s@)),
{
    let chars = chars_of(s);
    let mut start: usize = chars.len();
    while start > 0 && chars[start - 1] != '.'
        invariant
            start <= chars@.len(),
            forall|k: int| start <= k < chars@.len() ==> #[trigger] chars@[k] != '.',
        decreases start,
    {
        start -= 1;
    }
    proof {
        lemma_after_last_dot(s@, start as int);
        assert(chars@.subrange(start as int, chars@.len() as int) =~= s@.skip(start as int));
    }
    let ext = string_of(&chars, start, chars.len());
    picture_extension(ext.as_str())
}

/// Whether the lower case of a name ends like that of a picture.
pub open spec fn is_page_name(name: Seq<char>) -> bool {
    let lower = text::lowercase(name);
    ".jpg"@.is_suffix_of(lower) || ".jpeg"@.is_suffix_of(lower) || ".png"@.is_suffix_of(lower)
        || ".webp"@.is_suffix_of(lower) || ".bmp"@.is_suffix_of(lower) || ".gif"@.is_suffix_of(lower)
        || ".tif"@.is_suffix_of(lower) || ".tiff"@.is_suffix_of(lower)
}

/// Whether `name` ends like a picture, whatever its case.
pub fn page_name(name: &str) -> (r: bool)
    ensures
        r == is_page_name(name@),
{
    let lower = name.to_lowercase();
    let l = lower.as_str();
    has_suffix(l, ".jpg") || has_suffix(l, ".jpeg") || has_suffix(l, ".png") || has_suffix(
        l,
        ".webp",
    ) || has_suffix(l, ".bmp") || has_suffix(l, ".gif") || has_suffix(l, ".tif") || has_suffix(
        l,
        ".tiff",
    )
}

/// Whether the lower case of a name has the extension of a picture.
pub open spec fn is_sample_name(name: Seq<char>) -> bool {
    is_picture_extension(after_last_dot(text::lowercase(name)))
}

/// Whether `name` has the extension of a picture, whatever its case.
pub fn sample_name(name: &str) -> (r: bool)
    ensures
        r == is_sample_name(name@),
{
    is_image_ext(name.to_lowercase().as_str())
}

// ---------------------------------------------------------------------------
// Files of a directory
// ---------------------------------------------------------------------------

/// A file of a directory: its path as text, and its extension where it has one
/// that is text.
pub struct ListedFile {
    pub path: String,
    pub extension: Option<String>,
}

/// What is looked for among the files of a directory.
#[derive(Debug, Clone, Copy, PartialEq, Eq, Structural)]
pub enum Wanted {
    /// Archives and documents that can be converted.
    Comics,
    /// Pictures unpacked from an archive.
    Pictures,
    /// Pictures that a PDF renderer leaves.
    Renderings,
    /// Pictures of either kind.
    Pages,
}

/// The extensions, in lower case, of what is looked for.
pub open spec fn wanted_extension(wanted: Wanted, e: Seq<char>) -> bool {
    match wanted {
        Wanted::Comics => e == "cbr"@ || e == "cbz"@ || e == "rar"@ || e == "zip"@ || e == "pdf"@,
        Wanted::Pictures => is_picture_extension(e),
        Wanted::Renderings => e == "png"@ || e == "jpg"@ || e == "jpeg"@ || e == "ppm"@,
        Wanted::Pages => is_picture_extension(e) || e == "ppm"@,
    }
}

/// Whether a file is one of those looked for.
pub open spec fn is_wanted(wanted: Wanted, file: ListedFile) -> bool {
    match file.extension {
        Some(e) => wanted_extension(wanted, text::lowercase(e@)),
        None => false,
    }
}

/// Whether `file` is one of those looked for.
pub fn wants(wanted: Wanted, file: &ListedFile) -> (r: bool)
    ensures
        r == is_wanted(wanted, *file),
{
    match &file.extension {
        None => false,
        Some(e) => {
            let lower = e.to_lowercase();
            let l = lower.as_str();
            match wanted {
                Wanted::Comics => same_text(l, "cbr") || same_text(l, "cbz") || same_text(l, "rar")
                    || same_text(l, "zip") || same_text(l, "pdf"),
                Wanted::Pictures => picture_extension(l),
                Wanted::Renderings => same_text(l, "png") || same_text(l, "jpg") || same_text(
                    l,
                    "jpeg",
                ) || same_text(l, "ppm"),
                Wanted::Pages => picture_extension(l) || same_text(l, "ppm"),
            }
        },
    }
}

/// The positions `0..n` of the files that are looked for, as they stand.
pub open spec fn wanted_positions(wanted: Wanted, files: Seq<ListedFile>, n: int) -> Seq<usize>
    decreases n,
{
    if n <= 0 {
        seq![]
    } else {
        let before = wanted_positions(wanted, files, n - 1);
        if is_wanted(wanted, files[n - 1]) {
            before.push((n - 1) as usize)
        } else {
            before
        }
    }
}

/// The positions of the files that are looked for, as they stand in the list.
pub fn wanted_files(wanted: Wanted, files: &Vec<ListedFile>) -> (r: Vec<usize>)
    ensures
        r@ == wanted_positions(wanted, files@, files@.len() as int),
        forall|x: int| 0 <= x < r@.len() ==> #[trigger] r@[x] < files@.len(),
{
    let mut r: Vec<usize> = Vec::new();
    let mut i: usize = 0;
    while i < files.len()
        invariant
            i <= files@.len(),
            r@ == wanted_positions(wanted, files@, i as int),
            forall|x: int| 0 <= x < r@.len() ==> #[trigger] r@[x] < files@.len(),
        decreases files.len() - i,
    {
        if wants(wanted, &files[i]) {
            r.push(i);
        }
        i += 1;
    }
    r
}

/// The paths at the given positions.
pub open spec fn paths_at(files: Seq<ListedFile>, at: Seq<usize>) -> Seq<Seq<char>> {
    at.map_values(|i: usize| files[i as int].path@)
}

fn paths_of(files: &Vec<ListedFile>, found: &Vec<usize>) -> (paths: Vec<String>)
    requires
        forall|x: int| 0 <= x < found@.len() ==> #[trigger] found@[x] < files@.len(),
    ensures
        text::texts(paths@) == paths_at(files@, found@),
{
    let mut paths: Vec<String> = Vec::new();
    let mut i: usize = 0;
    while i < found.len()
        invariant
            i <= found@.len(),
            forall|x: int| 0 <= x < found@.len() ==> #[trigger] found@[x] < files@.len(),
            text::texts(paths@) == paths_at(files@, found@).take(i as int),
        decreases found.len() - i,
    {
        let path = files[found[i]].path.clone();
        proof {
            text::lemma_texts_push(paths@, path);
        }
        paths.push(path);
        assert(text::texts(paths@) =~= paths_at(files@, found@).take(i + 1));
        i += 1;
    }
    assert(text::texts(paths@) =~= paths_at(files@, found@));
    paths
}

/// Whether `r` lists the files that are looked for, each once, in the natural
/// order of their paths; files with one path stand as they were found.
pub open spec fn is_reading_order(wanted: Wanted, files: Seq<ListedFile>, r: Seq<usize>) -> bool {
    let found = wanted_positions(wanted, files, files.len() as int);
    exists|order: Seq<usize>| #[trigger]
        is_natural_order(paths_at(files, found), order) && r == order.map_values(
            |x: usize| found[x as int],
        )
}

/// The positions of the files that are looked for, in the natural order of
/// their paths.
pub fn reading_order(wanted: Wanted, files: &Vec<ListedFile>) -> (r: Vec<usize>)
    ensures
        is_reading_order(wanted, files@, r@),
        r@.len() == wanted_positions(wanted, files@, files@.len() as int).len(),
        forall|x: int| 0 <= x < r@.len() ==> #[trigger] r@[x] < files@.len(),
{
    let found = wanted_files(wanted, files);
    let paths = paths_of(files, &found);
    assert(text::texts(paths@).len() == paths@.len());
    let order = natural_order(&paths);
    let mut r: Vec<usize> = Vec::new();
    let mut j: usize = 0;
    while j < order.len()
        invariant
            j <= order@.len(),
            forall|x: int| 0 <= x < order@.len() ==> #[trigger] order@[x] < found@.len(),
            forall|x: int| 0 <= x < found@.len() ==> #[trigger] found@[x] < files@.len(),
            forall|x: int| 0 <= x < r@.len() ==> #[trigger] r@[x] < files@.len(),
            r@ == order@.map_values(|x: usize| found@[x as int]).take(j as int),
        decreases order.len() - j,
    {
        r.push(found[order[j]]);
        assert(r@ =~= order@.map_values(|x: usize| found@[x as int]).take(j + 1));
        j += 1;
    }
    assert(r@ =~= order@.map_values(|x: usize| found@[x as int]));
    r
}

/// The extension of a file, or another where it has none.
pub fn extension_or(file: &ListedFile, other: &str) -> (s: String)
    ensures
        s@ == (match file.extension {
            Some(e) => e@,
            None => other@,
        }),
{
    match &file.extension {
        Some(e) => e.clone(),
        None => other.to_owned(),
    }
}

/// The positions of the files that are looked for, in reading order, or a
/// complaint where there is none.
pub fn require_files(wanted: Wanted, files: &Vec<ListedFile>, complaint: &str) -> (r: Result<
    Vec<usize>,
    String,
>)
    ensures
        r is Err <==> wanted_positions(wanted, files@, files@.len() as int).len() == 0,
        r is Err ==> r->Err_0@ == complaint@,
        r is Ok ==> is_reading_order(wanted, files@, r->Ok_0@),
        r is Ok ==> forall|x: int|
            0 <= x < r->Ok_0@.len() ==> #[trigger] r->Ok_0@[x] < files@.len(),
{
    let order = reading_order(wanted, files);
    if order.len() == 0 {
        Err(complaint.to_owned())
    } else {
        Ok(order)
    }
}

/// The pictures that a renderer left, in reading order.
pub fn rendered_pages(files: &Vec<ListedFile>) -> (r: Result<Vec<usize>, String>)
    ensures
        r is Err <==> wanted_positions(Wanted::Renderings, files@, files@.len() as int).len() == 0,
        r is Err ==> r->Err_0@ == "PDF rendering produced no images"@,
        r is Ok ==> is_reading_order(Wanted::Renderings, files@, r->Ok_0@),
        r is Ok ==> forall|x: int|
            0 <= x < r->Ok_0@.len() ==> #[trigger] r->Ok_0@[x] < files@.len(),
{
    require_files(Wanted::Renderings, files, "PDF rendering produced no images")
}

/// The pages of a directory, in reading order.
pub fn directory_pages(files: &Vec<ListedFile>) -> (r: Result<Vec<usize>, String>)
    ensures
        r is Err <==> wanted_positions(Wanted::Pages, files@, files@.len() as int).len() == 0,
        r is Err ==> r->Err_0@ == "No images found"@,
        r is Ok ==> is_reading_order(Wanted::Pages, files@, r->Ok_0@),
        r is Ok ==> forall|x: int|
            0 <= x < r->Ok_0@.len() ==> #[trigger] r->Ok_0@[x] < files@.len(),
{
    require_files(Wanted::Pages, files, "No images found")
}

/// The page in the middle of the pictures unpacked from an archive.
pub fn middle_picture(files: &Vec<ListedFile>) -> (r: Option<usize>)
    ensures
        r is None <==> wanted_positions(Wanted::Pictures, files@, files@.len() as int).len() == 0,
        r is Some ==> r->0 < files@.len() && exists|order: Seq<usize>| #[trigger]
            is_reading_order(Wanted::Pictures, files@, order) && r->0 == order[order.len() as int / 2],
{
    let order = reading_order(Wanted::Pictures, files);
    if order.len() == 0 {
        None
    } else {
        Some(order[order.len() / 2])
    }
}

/// Up to `count` of the pictures unpacked from an archive, spread evenly over
/// them; none where there are no pictures.
pub fn sample_pictures(files: &Vec<ListedFile>, count: usize) -> (r: Option<Vec<usize>>)
    ensures
        r is None <==> wanted_positions(Wanted::Pictures, files@, files@.len() as int).len() == 0,
        r is Some ==> exists|order: Seq<usize>| #[trigger]
            is_reading_order(Wanted::Pictures, files@, order) && r->0@ == sample_positions(
                order.len() as int,
                count as int,
            ).map_values(|i: usize| order[i as int]),
        r is Some ==> forall|x: int| 0 <= x < r->0@.len() ==> #[trigger] r->0@[x] < files@.len(),
        r is Some ==> r->0@.len() <= count,
{
    let order = reading_order(Wanted::Pictures, files);
    if order.len() == 0 {
        return None;
    }
    let at = pick_sample_indices(order.len(), count);
    let ghost want = at@.map_values(|i: usize| order@[i as int]);
    let total: usize = order.len();
    let mut r: Vec<usize> = Vec::new();
    let mut i: usize = 0;
    while i < at.len()
        invariant
            i <= at@.len() <= count,
            total == order@.len(),
            at@ == sample_positions(total as int, count as int),
            want == at@.map_values(|i: usize| order@[i as int]),
            r@ == want.take(i as int),
            forall|x: int| 0 <= x < order@.len() ==> #[trigger] order@[x] < files@.len(),
            forall|x: int| 0 <= x < r@.len() ==> #[trigger] r@[x] < files@.len(),
        decreases at.len() - i,
    {
        proof {
            lemma_sample_in_range(total as int, count as int, i as int);
        }
        r.push(order[at[i]]);
        assert(r@ =~= want.take(i + 1));
        i += 1;
    }
    assert(r@ =~= want);
    Some(r)
}

/// The comics of a directory, in natural order; `files` is what was found in it.
pub fn list_comics(is_dir: bool, files: &Vec<ListedFile>) -> (r: Result<Vec<String>, String>)
    ensures
        r is Err <==> !is_dir,
        r is Err ==> r->Err_0@ == "Not a directory"@,
        r is Ok ==> text::texts(r->Ok_0@) == natural_sort(
            paths_at(files@, wanted_positions(Wanted::Comics, files@, files@.len() as int)),
        ),
{
    if !is_dir {
        return Err("Not a directory".to_owned());
    }
    let found = wanted_files(Wanted::Comics, files);
    let paths = paths_of(files, &found);
    Ok(sort_naturally(&paths))
}

// ---------------------------------------------------------------------------
// Samples
// ---------------------------------------------------------------------------

/// Up to `count` positions spread evenly over a list of `total`.
pub open spec fn sample_positions(total: int, count: int) -> Seq<usize> {
    let n = if count < total {
        count
    } else {
        total
    };
    Seq::new(n as nat, |i: int| (i * total / n) as usize)
}

/// Samples are in range and ascend, so none is taken twice.
pub proof fn samples_are_distinct_positions(total: int, count: int, i: int, j: int)
    requires
        0 <= total <= usize::MAX,
        0 <= count,
        0 <= i < j < sample_positions(total, count).len(),
    ensures
        sample_positions(total, count)[i] < sample_positions(total, count)[j] < total,
{
    let n = if count < total {
        count
    } else {
        total
    };
    lemma_sample(total, n, i);
    lemma_sample(total, n, j);
    lemma_samples_ascend(total, n, i, j);
}

/// A sample is a position of the list.
pub proof fn lemma_sample_in_range(total: int, count: int, i: int)
    requires
        0 <= total <= usize::MAX,
        0 <= count,
        0 <= i < sample_positions(total, count).len(),
    ensures
        sample_positions(total, count)[i] < total,
{
    let n = if count < total {
        count
    } else {
        total
    };
    lemma_sample(total, n, i);
}

proof fn lemma_sample(total: int, n: int, i: int)
    requires
        0 <= i < n <= total,
    ensures
        0 <= i * total / n < total,
{
    assert(0 <= i * total / n < total) by (nonlinear_arith)
        requires
            0 <= i < n <= total,
    ;
}

proof fn lemma_samples_ascend(total: int, n: int, i: int, j: int)
    requires
        0 <= i < j < n <= total,
    ensures
        i * total / n < j * total / n,
{
    assert(i * total + n <= j * total) by (nonlinear_arith)
        requires
            0 <= i < j < n <= total,
    ;
    let a = i * total;
    let b = j * total;
    assert(a / n < b / n) by (nonlinear_arith)
        requires
            n > 0,
            a + n <= b,
    ;
}

/// Up to `count` positions spread evenly over a list of `total`.
pub fn pick_sample_indices(total: usize, count: usize) -> (r: Vec<usize>)
    ensures
        r@ == sample_positions(total as int, count as int),
{
    let n: usize = if count < total {
        count
    } else {
        total
    };
    let mut r: Vec<usize> = Vec::new();
    let mut i: usize = 0;
    while i < n
        invariant
            i <= n <= total,
            n == (if count < total {
                count
            } else {
                total
            }),
            r@ == sample_positions(total as int, count as int).take(i as int),
        decreases n - i,
    {
        assert((i as u128) * (total as u128) <= u128::MAX) by (nonlinear_arith)
            requires
                0 <= i <= 0xffff_ffff_ffff_ffff,
                0 <= total <= 0xffff_ffff_ffff_ffff,
        ;
        proof {
            lemma_sample(total as int, n as int, i as int);
        }
        let at: usize = ((i as u128) * (total as u128) / (n as u128)) as usize;
        r.push(at);
        assert(r@ =~= sample_positions(total as int, count as int).take(i + 1));
        i += 1;
    }
    assert(r@ =~= sample_positions(total as int, count as int));
    r
}

// ---------------------------------------------------------------------------
// Laws of lists
// ---------------------------------------------------------------------------


/// Pictures are known by eight extensions.
pub proof fn pictures_have_eight_extensions(e: Seq<char>)
    ensures
        is_picture_extension(e) <==> set![
            "bmp"@,
            "gif"@,
            "jpeg"@,
            "jpg"@,
            "png"@,
            "tif"@,
            "tiff"@,
            "webp"@,
        ].contains(e),
{
}

/// A page is a file whose name ends in a dot and the extension of a picture, whatever
/// its case.
pub proof fn pages_end_in_a_picture_extension(name: Seq<char>)
    ensures
        is_page_name(name) <==> exists|e: Seq<char>|
            is_picture_extension(e) && #[trigger] (seq!['.'] + e).is_suffix_of(text::lowercase(name)),
{
    let lower = text::lowercase(name);
    reveal_strlit("jpg");
    reveal_strlit("jpeg");
    reveal_strlit("png");
    reveal_strlit("webp");
    reveal_strlit("bmp");
    reveal_strlit("gif");
    reveal_strlit("tif");
    reveal_strlit("tiff");
    reveal_strlit(".jpg");
    reveal_strlit(".jpeg");
    reveal_strlit(".png");
    reveal_strlit(".webp");
    reveal_strlit(".bmp");
    reveal_strlit(".gif");
    reveal_strlit(".tif");
    reveal_strlit(".tiff");
    assert(seq!['.'] + "jpg"@ =~= ".jpg"@);
    assert(seq!['.'] + "jpeg"@ =~= ".jpeg"@);
    assert(seq!['.'] + "png"@ =~= ".png"@);
    assert(seq!['.'] + "webp"@ =~= ".webp"@);
    assert(seq!['.'] + "bmp"@ =~= ".bmp"@);
    assert(seq!['.'] + "gif"@ =~= ".gif"@);
    assert(seq!['.'] + "tif"@ =~= ".tif"@);
    assert(seq!['.'] + "tiff"@ =~= ".tiff"@);
}

/// What follows the last dot: nothing before it counts, and without a dot the whole name
/// does.
pub proof fn extensions_follow_the_last_dot(start: Seq<char>, e: Seq<char>)
    requires
        forall|k: int| 0 <= k < e.len() ==> #[trigger] e[k] != '.',
    ensures
        after_last_dot(start + (seq!['.'] + e)) == e,
        after_last_dot(e) == e,
        is_sample_name(start) == is_picture_extension(after_last_dot(text::lowercase(start))),
{
    let s = start + (seq!['.'] + e);
    let n = start.len() + 1int;
    assert(s[n - 1] == '.');
    assert forall|k: int| n <= k < s.len() implies #[trigger] s[k] != '.' by {
        assert(s[k] == e[k - n]);
    }
    lemma_after_last_dot(s, n);
    assert(s.skip(n) =~= e);
    lemma_after_last_dot(e, 0);
    assert(e.skip(0) =~= e);
}

/// What is looked for has the extension of an archive or a PDF file, of a picture that an
/// archive may hold, of one that a renderer leaves, or of either; a file without an
/// extension is not looked for.
pub proof fn files_are_wanted_by_their_extension(wanted: Wanted, file: ListedFile)
    ensures
        file.extension is None ==> !is_wanted(wanted, file),
        file.extension matches Some(e) ==> (is_wanted(wanted, file) <==> {
            let lower = text::lowercase(e@);
            let archives = set!["cbr"@, "cbz"@, "pdf"@, "rar"@, "zip"@];
            let rendered = set!["jpeg"@, "jpg"@, "png"@, "ppm"@];
            match wanted {
                Wanted::Comics => archives.contains(lower),
                Wanted::Pictures => is_picture_extension(lower),
                Wanted::Renderings => rendered.contains(lower),
                Wanted::Pages => is_picture_extension(lower) || rendered.contains(lower),
            }
        }),
{
}

/// The files that are found are just those that are looked for, each once and as they
/// stand.
pub proof fn found_files_are_the_wanted_ones(wanted: Wanted, files: Seq<ListedFile>, n: int)
    requires
        0 <= n <= files.len() <= usize::MAX,
    ensures
        ({
            let found = wanted_positions(wanted, files, n);
            &&& forall|j: int, k: int| 0 <= j < k < found.len() ==> #[trigger] found[j] < #[trigger] found[k]
            &&& forall|j: int|
                0 <= j < found.len() ==> (#[trigger] found[j]) < n && is_wanted(
                    wanted,
                    files[found[j] as int],
                )
            &&& forall|i: int|
                0 <= i < n && is_wanted(wanted, #[trigger] files[i]) ==> found.contains(i as usize)
        }),
    decreases n,
{
    if n > 0 {
        found_files_are_the_wanted_ones(wanted, files, n - 1);
        let before = wanted_positions(wanted, files, n - 1);
        let found = wanted_positions(wanted, files, n);
        assert forall|i: int| 0 <= i < n && is_wanted(wanted, #[trigger] files[i]) implies found.contains(
            i as usize,
        ) by {
            if i < n - 1 {
                let k = choose|k: int| 0 <= k < before.len() && before[k] == i as usize;
                assert(found[k] == i as usize);
            } else {
                assert(found[before.len() as int] == i as usize);
            }
        }
    }
}

/// Files are read in the natural order of their paths: each that is looked for once, and
/// none that is not.
pub proof fn files_are_read_in_natural_order(wanted: Wanted, files: Seq<ListedFile>, r: Seq<usize>)
    requires
        files.len() <= usize::MAX,
        is_reading_order(wanted, files, r),
    ensures
        forall|x: int|
            0 <= x < r.len() ==> (#[trigger] r[x]) < files.len() && is_wanted(wanted, files[r[x] as int]),
        forall|i: int|
            0 <= i < files.len() && is_wanted(wanted, #[trigger] files[i]) ==> r.contains(i as usize),
        forall|x: int, y: int|
            0 <= x < y < r.len() ==> (#[trigger] r[x]) != (#[trigger] r[y]) && natural::natural_le(
                files[r[x] as int].path@,
                files[r[y] as int].path@,
            ),
{
    let n = files.len() as int;
    let found = wanted_positions(wanted, files, n);
    found_files_are_the_wanted_ones(wanted, files, n);
    let paths = paths_at(files, found);
    let order = choose|order: Seq<usize>| #[trigger]
        is_natural_order(paths, order) && r == order.map_values(|x: usize| found[x as int]);
    assert(found.len() <= n) by {
        lemma_ascending_fits(found, n);
    }
    order::lemma_within(order, 0, paths.len() as int);
    order::lemma_every_position(order, paths.len() as int);
    assert forall|x: int| 0 <= x < r.len() implies (#[trigger] r[x]) < files.len() && is_wanted(
        wanted,
        files[r[x] as int],
    ) by {
        assert(order[x] < paths.len());
        assert(r[x] == found[order[x] as int]);
    }
    assert forall|i: int| 0 <= i < files.len() && is_wanted(wanted, #[trigger] files[i]) implies r.contains(
        i as usize,
    ) by {
        let k = choose|k: int| 0 <= k < found.len() && found[k] == i as usize;
        assert(order.contains(k as usize));
        let x = choose|x: int| 0 <= x < order.len() && order[x] == k as usize;
        assert(r[x] == i as usize);
    }
    assert forall|x: int, y: int| 0 <= x < y < r.len() implies (#[trigger] r[x]) != (#[trigger] r[y])
        && natural::natural_le(files[r[x] as int].path@, files[r[y] as int].path@) by {
        let (a, b) = (order[x] as int, order[y] as int);
        assert(natural_before(paths, a, b));
        natural::natural_order_is_irreflexive(paths[a]);
        assert(a != b);
        assert(r[x] == found[a] && r[y] == found[b]);
        if a < b {
            assert(found[a] < found[b]);
        } else {
            assert(found[b] < found[a]);
        }
    }
}

proof fn lemma_ascending_fits(found: Seq<usize>, n: int)
    requires
        0 <= n,
        forall|j: int, k: int| 0 <= j < k < found.len() ==> #[trigger] found[j] < #[trigger] found[k],
        forall|j: int| 0 <= j < found.len() ==> #[trigger] found[j] < n,
    ensures
        found.len() <= n,
    decreases found.len(),
{
    if found.len() > 0 {
        let rest = found.drop_last();
        let m = found.last() as int;
        assert forall|j: int| 0 <= j < rest.len() implies #[trigger] rest[j] < m by {
            assert(found[j] < found[found.len() - 1]);
        }
        assert(found[found.len() - 1] < n);
        lemma_ascending_fits(rest, m);
    }
}

/// Samples are spread evenly: there are as many as are asked for, or as there are, and
/// each stands at its share of the list, rounded down.
pub proof fn samples_are_spread_evenly(total: int, count: int, i: int)
    requires
        0 <= total <= usize::MAX,
        0 <= count,
    ensures
        ({
            let at = sample_positions(total, count);
            let n = at.len() as int;
            &&& n == total || n == count
            &&& n <= total && n <= count
            &&& 0 <= i < n ==> at[i] * n <= i * total < (at[i] + 1) * n
        }),
{
    let at = sample_positions(total, count);
    let n = at.len() as int;
    if 0 <= i < n {
        lemma_sample(total, n, i);
        let a = i * total;
        let q = a / n;
        assert(q * n <= a < (q + 1) * n) by (nonlinear_arith)
            requires
                n > 0,
                q == a / n,
        ;
    }
}

/// An order of names lists every name once: sorted, and equal names as they stand.
pub proof fn equal_names_stay_as_they_stand(names: Seq<Seq<char>>, order: Seq<usize>, x: int, y: int)
    requires
        names.len() <= usize::MAX,
        is_natural_order(names, order),
        0 <= x < y < order.len(),
    ensures
        order.len() == names.len(),
        order[x] < names.len() && order[y] < names.len(),
        !natural::natural_lt(names[order[y] as int], names[order[x] as int]),
        names[order[x] as int] == names[order[y] as int] ==> order[x] < order[y],
        forall|i: int| 0 <= i < names.len() ==> order.contains(#[trigger] (i as usize)),
{
    order::lemma_within(order, 0, names.len() as int);
    order::lemma_every_position(order, names.len() as int);
    let (a, b) = (names[order[x] as int], names[order[y] as int]);
    assert(natural_before(names, order[x] as int, order[y] as int));
    natural::natural_order_is_irreflexive(a);
    if a != b {
        natural::natural_order_is_total(a, b);
    }
}

/// Sorted names ascend: none comes before one that stands before it.
pub proof fn sorted_names_ascend(names: Seq<Seq<char>>, i: int, j: int)
    requires
        0 <= i < j < names.len(),
    ensures
        natural_sort(names).len() == names.len(),
        !natural::natural_lt(natural_sort(names)[j], natural_sort(names)[i]),
        natural_sort(names).to_multiset() == names.to_multiset(),
{
    natural_sort_is_sorted_permutation(names);
    lemma_sorted_pair(natural_sort(names), i, j);
    natural::names_come_first_or_later(natural_sort(names)[i], natural_sort(names)[j]);
}

/// The paths of files are those at their positions.
pub proof fn paths_are_those_of_the_files(files: Seq<ListedFile>, at: Seq<usize>, k: int)
    requires
        0 <= k < at.len(),
    ensures
        paths_at(files, at).len() == at.len(),
        paths_at(files, at)[k] == files[at[k] as int].path@,
{
}

} // verus!
