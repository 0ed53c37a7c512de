//! What of a source is worth converting: pages that are too small are left out,
//! and sources that are compact already are skipped.

use crate::archive::{ComicArchive, SAMPLES};
use crate::archive;
use crate::bytes;
use crate::listing::sort_naturally;
use crate::names;
use crate::natural;
use crate::picture::{
    PageStyle, Picture, decode_image, dimensions, encode_image, is_double, peek_image_dimensions,
};
use crate::picture;
use crate::sniff::image_ext_from_bytes;
use crate::sniff;
use crate::text::{decimal_text, join3, same_text};
use crate::text;
use vstd::prelude::*;

verus! {

// ---------------------------------------------------------------------------
// Resolution
// ---------------------------------------------------------------------------

/// The size of a page that is too small for the target, and whether it would be
/// split; none where it is large enough or its size is unknown. Of a page that
/// would be split the width of a half counts. No target, no limit.
pub open spec fn low_resolution(size: Option<(u32, u32)>, target: u32, split: bool) -> Option<
    (u32, u32, bool),
> {
    match size {
        Some((w, h)) => {
            let double = picture::splits(w, h, split);
            let width = if double {
                w / 2
            } else {
                w
            };
            if target > 0 && (width < target || h < target) {
                Some((w, h, double))
            } else {
                None
            }
        },
        None => None,
    }
}

/// Judges the size of a page.
pub fn judge_resolution(size: Option<(u32, u32)>, target: u32, split: bool) -> (r: Option<
    (u32, u32, bool),
>)
    ensures
        r == low_resolution(size, target, split),
{
    match size {
        Some((w, h)) => {
            let double: bool = is_double(w, h, split);
            let width: u32 = if double {
                w / 2
            } else {
                w
            };
            if target > 0 && (width < target || h < target) {
                Some((w, h, double))
            } else {
                None
            }
        },
        None => None,
    }
}

/// A page without a limit is never too small, and a page that is too small for
/// one limit is too small for every higher one.
pub proof fn higher_limits_skip_more(size: Option<(u32, u32)>, low: u32, high: u32, split: bool)
    requires
        low <= high,
    ensures
        low_resolution(size, 0, split) is None,
        low_resolution(size, low, split) is Some ==> low_resolution(size, high, split)
            == low_resolution(size, low, split),
{
}

/// Judges an encoded page by the dimensions in its header.
pub fn check_page_quality(raw: &[u8], target: u32, split: bool) -> (r: Option<(u32, u32, bool)>)
    ensures
        r == low_resolution(picture::header_dimensions(raw@), target, split),
{
    judge_resolution(peek_image_dimensions(raw), target, split)
}

/// The verdict on the resolution of an archive, by the page in its middle.
pub open spec fn source_resolution(data: Seq<u8>, target: u32, split: bool) -> Option<
    (u32, u32, bool),
> {
    match (archive::zip_open(data), archive::middle_page_of(data)) {
        (Ok(_), Some(page)) => low_resolution(picture::header_dimensions(page), target, split),
        _ => None,
    }
}

/// Judges the resolution of an archive, given its bytes, by the page in its
/// middle. What cannot be read is not judged.
pub fn check_source_quality(data: &[u8], target: u32, split: bool) -> (r: Option<(u32, u32, bool)>)
    ensures
        r == source_resolution(data@, target, split),
{
    match ComicArchive::open(data) {
        Ok(mut archive) => match archive.middle_page() {
            Some(page) => check_page_quality(page.as_slice(), target, split),
            None => None,
        },
        Err(_) => None,
    }
}

/// The positions of the pages that are large enough, in their order.
pub open spec fn kept_positions(sizes: Seq<Option<(u32, u32)>>, target: u32, split: bool) -> Seq<usize>
    decreases sizes.len(),
{
    if sizes.len() == 0 {
        seq![]
    } else {
        let before = kept_positions(sizes.drop_last(), target, split);
        if low_resolution(sizes.last(), target, split) is None {
            before.push((sizes.len() - 1) as usize)
        } else {
            before
        }
    }
}

/// The pages that are kept are just those that are large enough, each once and in
/// their order.
pub proof fn kept_pages_are_the_large_ones(sizes: Seq<Option<(u32, u32)>>, target: u32, split: bool)
    requires
        sizes.len() <= usize::MAX,
    ensures
        ({
            let kept = kept_positions(sizes, target, split);
            &&& forall|j: int, k: int| 0 <= j < k < kept.len() ==> #[trigger] kept[j] < #[trigger] kept[k]
            &&& forall|j: int|
                0 <= j < kept.len() ==> (#[trigger] kept[j]) < sizes.len() && low_resolution(
                    sizes[kept[j] as int],
                    target,
                    split,
                ) is None
            &&& forall|i: int|
                0 <= i < sizes.len() && low_resolution(#[trigger] sizes[i], target, split) is None
                    ==> kept.contains(i as usize)
        }),
    decreases sizes.len(),
{
    if sizes.len() > 0 {
        let rest = sizes.drop_last();
        kept_pages_are_the_large_ones(rest, target, split);
        let before = kept_positions(rest, target, split);
        let kept = kept_positions(sizes, target, split);
        assert forall|j: int| 0 <= j < kept.len() implies (#[trigger] kept[j]) < sizes.len()
            && low_resolution(sizes[kept[j] as int], target, split) is None by {
            if j < before.len() {
                assert(kept[j] == before[j]);
                assert(rest[before[j] as int] == sizes[kept[j] as int]);
            }
        }
        assert forall|i: int|
            0 <= i < sizes.len() && low_resolution(#[trigger] sizes[i], target, split) is None implies kept.contains(
            i as usize,
        ) by {
            if i < rest.len() {
                assert(rest[i] == sizes[i]);
                let j = choose|j: int| 0 <= j < before.len() && before[j] == i as usize;
                assert(kept[j] == i as usize);
            } else {
                assert(kept[before.len() as int] == i as usize);
            }
        }
    }
}

/// The positions of the pages that are large enough; of a page of unknown size
/// nothing is held against it.
pub fn pages_to_keep(sizes: &Vec<Option<(u32, u32)>>, target: u32, split: bool) -> (r: Vec<usize>)
    ensures
        r@ == kept_positions(sizes@, target, split),
{
    let mut r: Vec<usize> = Vec::new();
    let mut i: usize = 0;
    while i < sizes.len()
        invariant
            i <= sizes@.len(),
            r@ == kept_positions(sizes@.take(i as int), target, split),
        decreases sizes.len() - i,
    {
        assert(sizes@.take(i + 1).drop_last() =~= sizes@.take(i as int));
        if judge_resolution(sizes[i], target, split).is_none() {
            r.push(i);
        }
        i += 1;
    }
    assert(sizes@.take(i as int) =~= sizes@);
    r
}

/// The verdict on the resolution of a source, by the sizes of its pages: where no
/// page is large enough, what is said of the page in the middle.
pub open spec fn pages_verdict(sizes: Seq<Option<(u32, u32)>>, target: u32, split: bool) -> Option<
    (u32, u32, bool),
> {
    if sizes.len() > 0 && kept_positions(sizes, target, split).len() == 0 {
        low_resolution(sizes[sizes.len() as int / 2], target, split)
    } else {
        None
    }
}

/// Judges the resolution of a source by the sizes of its pages.
pub fn judge_pages(sizes: &Vec<Option<(u32, u32)>>, target: u32, split: bool) -> (r: Option<
    (u32, u32, bool),
>)
    ensures
        r == pages_verdict(sizes@, target, split),
{
    if sizes.len() > 0 && pages_to_keep(sizes, target, split).len() == 0 {
        judge_resolution(sizes[sizes.len() / 2], target, split)
    } else {
        None
    }
}

/// A source is found too small just where it has pages and all of them are.
pub proof fn small_sources_have_only_small_pages(
    sizes: Seq<Option<(u32, u32)>>,
    target: u32,
    split: bool,
)
    requires
        sizes.len() <= usize::MAX,
    ensures
        pages_verdict(sizes, target, split) is Some <==> sizes.len() > 0 && forall|i: int|
            0 <= i < sizes.len() ==> low_resolution(#[trigger] sizes[i], target, split) is Some,
{
    kept_pages_are_the_large_ones(sizes, target, split);
    let kept = kept_positions(sizes, target, split);
    if sizes.len() > 0 {
        let middle = sizes[sizes.len() as int / 2];
        if kept.len() == 0 {
            assert forall|i: int| 0 <= i < sizes.len() implies low_resolution(
                #[trigger] sizes[i],
                target,
                split,
            ) is Some by {
                if low_resolution(sizes[i], target, split) is None {
                    assert(kept.contains(i as usize));
                }
            }
            assert(low_resolution(middle, target, split) is Some);
        } else {
            assert(low_resolution(sizes[kept[0] as int], target, split) is None);
        }
    }
}

/// The contents of the pages that are large enough, in their order.
pub open spec fn large_contents(pages: Seq<Seq<u8>>, target: u32, split: bool) -> Seq<Seq<u8>> {
    pages.filter(
        |page: Seq<u8>| low_resolution(picture::header_dimensions(page), target, split) is None,
    )
}

/// The dimensions in the headers of pages.
pub open spec fn header_sizes(pages: Seq<Seq<u8>>) -> Seq<Option<(u32, u32)>> {
    pages.map_values(|page: Seq<u8>| picture::header_dimensions(page))
}

/// Measures pages by their headers.
pub fn page_sizes(pages: &Vec<Vec<u8>>) -> (r: Vec<Option<(u32, u32)>>)
    ensures
        r@ == header_sizes(bytes::contents(pages@)),
{
    let ghost want = header_sizes(bytes::contents(pages@));
    let mut r: Vec<Option<(u32, u32)>> = Vec::new();
    let mut i: usize = 0;
    while i < pages.len()
        invariant
            i <= pages@.len(),
            want == header_sizes(bytes::contents(pages@)),
            r@ == want.take(i as int),
        decreases pages.len() - i,
    {
        r.push(peek_image_dimensions(pages[i].as_slice()));
        assert(bytes::contents(pages@)[i as int] == pages@[i as int]@);
        assert(r@ =~= want.take(i + 1));
        i += 1;
    }
    assert(want.take(i as int) =~= want);
    r
}

/// Keeps the pages that are large enough, by the dimensions in their headers.
/// Where there are pages and none is, the verdict on them is given instead.
pub fn keep_large_pages(pages: Vec<Vec<u8>>, target: u32, split: bool) -> (r: Result<
    Vec<Vec<u8>>,
    (u32, u32, bool),
>)
    ensures
        match (r, pages_verdict(header_sizes(bytes::contents(pages@)), target, split)) {
            (Ok(kept), None) => bytes::contents(kept@) == large_contents(
                bytes::contents(pages@),
                target,
                split,
            ),
            (Err(page), Some(verdict)) => page == verdict,
            _ => false,
        },
{
    if let Some(page) = judge_pages(&page_sizes(&pages), target, split) {
        return Err(page);
    }
    let ghost all = bytes::contents(pages@);
    let ghost large = |page: Seq<u8>|
        low_resolution(picture::header_dimensions(page), target, split) is None;
    let mut left = pages;
    let mut r: Vec<Vec<u8>> = Vec::new();
    proof {
        assert(bytes::contents(r@) =~= seq![]);
        assert(all.take(0).filter(large) =~= seq![]) by {
            reveal(Seq::filter);
        }
    }
    let ghost mut i: int = 0;
    while left.len() > 0
        invariant
            0 <= i <= all.len(),
            all == bytes::contents(pages@),
            bytes::contents(left@) == all.skip(i),
            bytes::contents(r@) == all.take(i).filter(large),
            large == (|page: Seq<u8>|
                low_resolution(picture::header_dimensions(page), target, split) is None),
        decreases left.len(),
    {
        let ghost rest = bytes::contents(left@);
        assert(rest[0] == left@[0]@ && rest.len() == left@.len());
        let ghost before = left@;
        let page = left.remove(0);
        proof {
            assert forall|k: int| 0 <= k < left@.len() implies #[trigger] bytes::contents(left@)[k]
                == rest[k + 1] by {
                assert(left@[k] == before[k + 1]);
            }
            assert(bytes::contents(left@) =~= all.skip(i + 1));
            assert(all[i] == page@);
            assert(all.take(i + 1) =~= all.take(i).push(page@));
            all.take(i).lemma_filter_push(page@, large);
            i = i + 1;
        }
        if check_page_quality(page.as_slice(), target, split).is_none() {
            proof {
                bytes::lemma_contents_push(r@, page);
            }
            r.push(page);
        }
    }
    assert(all.take(i) =~= all);
    Ok(r)
}

/// No page that is large enough is lost, and none that is too small is kept.
pub proof fn large_pages_are_kept(pages: Seq<Seq<u8>>, target: u32, split: bool, page: Seq<u8>)
    requires
        pages.contains(page),
    ensures
        large_contents(pages, target, split).contains(page) <==> low_resolution(
            picture::header_dimensions(page),
            target,
            split,
        ) is None,
{
    let large = |page: Seq<u8>|
        low_resolution(picture::header_dimensions(page), target, split) is None;
    let i = choose|i: int| 0 <= i < pages.len() && pages[i] == page;
    if large(page) {
        pages.lemma_filter_contains(large, i);
    }
    if pages.filter(large).contains(page) {
        let k = choose|k: int| 0 <= k < pages.filter(large).len() && pages.filter(large)[k] == page;
        pages.lemma_filter_pred(large, k);
    }
}

/// Without a limit every page is kept.
pub proof fn no_limit_keeps_every_page(pages: Seq<Seq<u8>>, split: bool)
    ensures
        large_contents(pages, 0, split) == pages,
    decreases pages.len(),
{
    reveal(Seq::filter);
    if pages.len() > 0 {
        no_limit_keeps_every_page(pages.drop_last(), split);
        assert(pages =~= pages.drop_last().push(pages.last()));
    } else {
        assert(large_contents(pages, 0, split) =~= pages);
    }
}

/// The dimensions in the headers of the pages of an archive, in reading order;
/// none where a page cannot be read.
pub open spec fn source_sizes_of(data: Seq<u8>) -> Seq<Option<(u32, u32)>> {
    match archive::zip_open(data) {
        Ok(_) => archive::page_order(data).map_values(
            |name: Seq<char>|
                match archive::content_of(archive::zip_entry(data, name)) {
                    Some(page) => picture::header_dimensions(page),
                    None => None,
                },
        ),
        Err(_) => seq![],
    }
}

/// Measures the pages of an archive, given its bytes.
pub fn source_sizes(data: &[u8]) -> (r: Vec<Option<(u32, u32)>>)
    ensures
        r@ == source_sizes_of(data@),
{
    let mut r: Vec<Option<(u32, u32)>> = Vec::new();
    match ComicArchive::open(data) {
        Ok(mut archive) => {
            let ghost want = source_sizes_of(data@);
            let names = sort_naturally(&archive.listed_pages());
            let mut i: usize = 0;
            assert(text::texts(names@).len() == names@.len());
            assert(want.take(0) =~= seq![]);
            while i < names.len()
                invariant
                    i <= names@.len(),
                    archive.source() == data@,
                    archive::zip_open(data@) is Ok,
                    text::texts(names@) == archive::page_order(data@),
                    want == source_sizes_of(data@),
                    want.len() == names@.len(),
                    r@ == want.take(i as int),
                decreases names.len() - i,
            {
                let size: Option<(u32, u32)> = match archive.read(names[i].as_str()) {
                    Ok(entry) => match entry.content {
                        Ok(content) => peek_image_dimensions(content.as_slice()),
                        Err(_) => None,
                    },
                    Err(_) => None,
                };
                assert(archive::page_order(data@)[i as int] == names@[i as int]@);
                r.push(size);
                assert(r@ =~= want.take(i + 1));
                i += 1;
            }
            assert(want.take(i as int) =~= want);
        },
        Err(_) => {},
    }
    r
}

/// The page in the middle speaks first: an archive whose pages are all too small
/// is found so by that page too, with the same words.
pub proof fn the_middle_page_speaks_first(data: Seq<u8>, target: u32, split: bool)
    requires
        pages_verdict(source_sizes_of(data), target, split) is Some,
    ensures
        source_resolution(data, target, split) == pages_verdict(source_sizes_of(data), target, split),
{
}

/// The verdict on a page and the splitting of it agree: a page that is found too
/// small counts as one that would be split just where it makes two pages.
pub proof fn verdicts_and_splits_agree(
    raw: Seq<u8>,
    target: u32,
    style: PageStyle,
    split: bool,
    made: Seq<Seq<u8>>,
)
    requires
        low_resolution(picture::header_dimensions(raw), target, split) is Some,
        picture::split_outcome(raw, style, split, Ok(made)),
    ensures
        match low_resolution(picture::header_dimensions(raw), target, split) {
            Some((_, _, double)) => double <==> made.len() == 2,
            None => false,
        },
{
}

// ---------------------------------------------------------------------------
// Savings
// ---------------------------------------------------------------------------

/// The savings, in percent, below which a source counts as compact.
pub const WORTHWHILE: u128 = 15;

/// The bytes that the samples which could be re-encoded take in the source.
pub open spec fn source_total(samples: Seq<(u64, Seq<u8>)>, made: Seq<Option<usize>>) -> nat
    decreases samples.len(),
{
    if samples.len() == 0 {
        0
    } else {
        source_total(samples.drop_last(), made.drop_last()) + (if made.last() is Some {
            samples.last().0 as nat
        } else {
            0
        })
    }
}

/// The bytes that they take when re-encoded.
pub open spec fn made_total(made: Seq<Option<usize>>) -> nat
    decreases made.len(),
{
    if made.len() == 0 {
        0
    } else {
        made_total(made.drop_last()) + (match made.last() {
            Some(n) => n as nat,
            None => 0,
        })
    }
}

/// The savings in percent, rounded up; none where the size grows.
pub open spec fn savings(source: nat, made: nat) -> nat {
    let ratio = made * 100 / source;
    if ratio >= 100 {
        0
    } else {
        (100 - ratio) as nat
    }
}

/// How many of the samples have a format.
pub open spec fn format_count(samples: Seq<(u64, Seq<u8>)>, format: Seq<char>) -> nat
    decreases samples.len(),
{
    if samples.len() == 0 {
        0
    } else {
        format_count(samples.drop_last(), format) + (if sniff::picture_format(samples.last().1) == format {
            1nat
        } else {
            0
        })
    }
}

/// Whether a format occurs among the samples, and none more often.
pub open spec fn is_dominant(samples: Seq<(u64, Seq<u8>)>, format: Seq<char>) -> bool {
    &&& format_count(samples, format) > 0
    &&& forall|other: Seq<char>| #[trigger]
        format_count(samples, other) <= format_count(samples, format)
}

/// Why a compact source is skipped.
pub open spec fn compact_reason(format: Seq<char>, percent: nat, samples: nat) -> Seq<char> {
    "already compact ("@ + format + ", ~"@ + text::decimal(percent) + "% savings across "@ + text::decimal(samples)
        + "/"@ + text::decimal(SAMPLES as nat) + " samples)"@
}

/// Whether `reason` is the verdict on samples: a reason to skip where the
/// savings are small, none where they are not or nothing could be re-encoded.
/// Where several formats are most frequent, any of them is named.
pub open spec fn is_verdict(
    samples: Seq<(u64, Seq<u8>)>,
    made: Seq<Option<usize>>,
    reason: Option<Seq<char>>,
) -> bool {
    let source = source_total(samples, made);
    let percent = savings(source, made_total(made));
    if source > 0 && percent < WORTHWHILE {
        exists|format: Seq<char>| #[trigger]
            is_dominant(samples, format) && reason == Some(
                compact_reason(format, percent, samples.len()),
            )
    } else {
        reason is None
    }
}

proof fn lemma_counted_occurs(samples: Seq<(u64, Seq<u8>)>, format: Seq<char>)
    requires
        format_count(samples, format) > 0,
    ensures
        exists|i: int| 0 <= i < samples.len() && sniff::picture_format(#[trigger] samples[i].1) == format,
    decreases samples.len(),
{
    if sniff::picture_format(samples.last().1) == format {
        assert(sniff::picture_format(samples[samples.len() - 1].1) == format);
    } else {
        let rest = samples.drop_last();
        lemma_counted_occurs(rest, format);
        let i = choose|i: int|
            0 <= i < rest.len() && sniff::picture_format(#[trigger] rest[i].1) == format;
        assert(sniff::picture_format(samples[i].1) == format);
    }
}

proof fn lemma_occurs_counted(samples: Seq<(u64, Seq<u8>)>, i: int)
    requires
        0 <= i < samples.len(),
    ensures
        format_count(samples, sniff::picture_format(samples[i].1)) > 0,
    decreases samples.len(),
{
    if i < samples.len() - 1 {
        lemma_occurs_counted(samples.drop_last(), i);
        assert(samples.drop_last()[i] == samples[i]);
    }
}

/// A source with samples always has a dominant format.
pub proof fn samples_have_a_dominant_format(samples: Seq<(u64, Seq<u8>)>) -> (format: Seq<char>)
    requires
        samples.len() > 0,
    ensures
        is_dominant(samples, format),
{
    lemma_best(samples, samples.len() as int)
}

proof fn lemma_best(samples: Seq<(u64, Seq<u8>)>, n: int) -> (format: Seq<char>)
    requires
        0 < n <= samples.len(),
    ensures
        format_count(samples, format) > 0,
        forall|i: int|
            0 <= i < n ==> format_count(samples, sniff::picture_format(#[trigger] samples[i].1))
                <= format_count(samples, format),
        n == samples.len() ==> is_dominant(samples, format),
    decreases n,
{
    let last = sniff::picture_format(samples[n - 1].1);
    lemma_occurs_counted(samples, n - 1);
    let format = if n == 1 {
        last
    } else {
        let best = lemma_best(samples, n - 1);
        if format_count(samples, last) > format_count(samples, best) {
            last
        } else {
            best
        }
    };
    if n == samples.len() {
        lemma_dominant(samples, format);
    }
    format
}

proof fn lemma_dominant(samples: Seq<(u64, Seq<u8>)>, format: Seq<char>)
    requires
        format_count(samples, format) > 0,
        forall|i: int|
            0 <= i < samples.len() ==> format_count(
                samples,
                sniff::picture_format(#[trigger] samples[i].1),
            ) <= format_count(samples, format),
    ensures
        is_dominant(samples, format),
{
    assert forall|other: Seq<char>| #[trigger]
        format_count(samples, other) <= format_count(samples, format) by {
        if format_count(samples, other) > 0 {
            lemma_counted_occurs(samples, other);
            let i = choose|i: int|
                0 <= i < samples.len() && sniff::picture_format(#[trigger] samples[i].1) == other;
            assert(format_count(samples, sniff::picture_format(samples[i].1)) <= format_count(
                samples,
                format,
            ));
        }
    }
}

fn count_format(samples: &Vec<(u64, Vec<u8>)>, format: &str) -> (n: usize)
    ensures
        n == format_count(archive::sample_views(samples@), format@),
{
    let ghost all = archive::sample_views(samples@);
    let mut n: usize = 0;
    let mut i: usize = 0;
    while i < samples.len()
        invariant
            i <= samples@.len(),
            n <= i,
            all == archive::sample_views(samples@),
            n == format_count(all.take(i as int), format@),
        decreases samples.len() - i,
    {
        assert(all.take(i + 1).drop_last() =~= all.take(i as int));
        assert(all.take(i + 1).last().1 == samples@[i as int].1@);
        if same_text(image_ext_from_bytes(samples[i].1.as_slice()), format) {
            n += 1;
        }
        i += 1;
    }
    assert(all.take(i as int) =~= all);
    n
}

fn dominant_format(samples: &Vec<(u64, Vec<u8>)>) -> (format: &'static str)
    requires
        samples@.len() > 0,
    ensures
        is_dominant(archive::sample_views(samples@), format@),
{
    let ghost all = archive::sample_views(samples@);
    let mut best: &'static str = image_ext_from_bytes(samples[0].1.as_slice());
    let mut most: usize = count_format(samples, best);
    proof {
        assert(all[0].1 == samples@[0].1@);
        lemma_occurs_counted(all, 0);
    }
    let mut i: usize = 1;
    while i < samples.len()
        invariant
            1 <= i <= samples@.len(),
            all == archive::sample_views(samples@),
            most == format_count(all, best@),
            most > 0,
            forall|k: int|
                0 <= k < i ==> format_count(all, sniff::picture_format(#[trigger] all[k].1)) <= most,
        decreases samples.len() - i,
    {
        let format = image_ext_from_bytes(samples[i].1.as_slice());
        assert(all[i as int].1 == samples@[i as int].1@);
        let n: usize = count_format(samples, format);
        if n > most {
            best = format;
            most = n;
        }
        i += 1;
    }
    proof {
        lemma_dominant(all, best@);
    }
    best
}

/// The verdict on samples: `made` holds the size of each sample when it is
/// re-encoded, none where that failed.
pub fn judge_savings(samples: &Vec<(u64, Vec<u8>)>, made: &Vec<Option<usize>>) -> (r: Option<String>)
    requires
        samples@.len() == made@.len(),
        samples@.len() <= SAMPLES,
    ensures
        is_verdict(
            archive::sample_views(samples@),
            made@,
            match r {
                Some(s) => Some(s@),
                None => None,
            },
        ),
{
    let ghost all = archive::sample_views(samples@);
    let mut source: u128 = 0;
    let mut encoded: u128 = 0;
    let mut i: usize = 0;
    while i < samples.len()
        invariant
            i <= samples@.len(),
            samples@.len() == made@.len(),
            samples@.len() <= SAMPLES,
            all == archive::sample_views(samples@),
            source == source_total(all.take(i as int), made@.take(i as int)),
            encoded == made_total(made@.take(i as int)),
            source <= i * 0xffff_ffff_ffff_ffff,
            encoded <= i * 0xffff_ffff_ffff_ffff,
        decreases samples.len() - i,
    {
        proof {
            assert(all.take(i + 1).drop_last() =~= all.take(i as int));
            assert(all.take(i + 1).last().0 == samples@[i as int].0);
            assert(made@.take(i + 1).drop_last() =~= made@.take(i as int));
            assert(made@.take(i + 1).last() == made@[i as int]);
        }
        if let Some(n) = made[i] {
            source = source + samples[i].0 as u128;
            encoded = encoded + n as u128;
        }
        i += 1;
    }
    assert(all.take(i as int) =~= all);
    assert(made@.take(i as int) =~= made@);
    if source == 0 {
        return None;
    }
    let ratio: u128 = encoded * 100 / source;
    let percent: u128 = if ratio >= 100 {
        0
    } else {
        100 - ratio
    };
    assert(percent == savings(source as nat, encoded as nat));
    if percent < WORTHWHILE {
        let format = dominant_format(samples);
        let mut reason = join3("already compact (", format, ", ~");
        reason.append(decimal_text(percent as u64).as_str());
        reason.append("% savings across ");
        reason.append(decimal_text(samples.len() as u64).as_str());
        reason.append("/");
        reason.append(decimal_text(SAMPLES).as_str());
        reason.append(" samples)");
        Some(reason)
    } else {
        None
    }
}

/// `made` is what re-encoding a sample may give: the size of the page, none
/// where the sample cannot be decoded or encoded.
pub open spec fn sample_outcome(raw: Seq<u8>, style: PageStyle, made: Option<usize>) -> bool {
    exists|d: Result<Picture, Seq<char>>| #[trigger]
        picture::decode_outcome(raw, d) && match d {
            Ok(p) => exists|out: Result<Seq<u8>, Seq<char>>| #[trigger]
                picture::page_outcome(p, sample_style(p, style), out) && match out {
                    Ok(v) => made is Some && made->0 == v.len(),
                    Err(_) => made is None,
                },
            Err(_) => made is None,
        }
}

/// A sample is fitted to the page just where it exceeds it.
pub open spec fn sample_style(p: Picture, style: PageStyle) -> PageStyle {
    PageStyle { resize: picture::exceeds(p, style.width, style.height), ..style }
}

/// The size of a sample when it is re-encoded.
pub fn remake_sample(raw: &[u8], style: PageStyle) -> (made: Option<usize>)
    ensures
        sample_outcome(raw@, style, made),
{
    match decode_image(raw) {
        Ok(img) => {
            let ghost p = picture::picture(img);
            assert(picture::decode_outcome(raw@, Ok(p)));
            let (w, h) = dimensions(&img);
            let resize: bool = w > style.width || h > style.height;
            let out = encode_image(
                img,
                style.width,
                style.height,
                style.quality,
                style.contrast,
                style.grayscale,
                resize,
            );
            assert(picture::page_outcome(p, sample_style(p, style), picture::bytes_view(out)));
            match out {
                Ok(v) => Some(v.len()),
                Err(_) => None,
            }
        },
        Err(e) => {
            assert(picture::decode_outcome(raw@, Err(e@)));
            None
        },
    }
}

/// Whether `reason` may be the verdict on the savings that samples promise.
pub open spec fn savings_outcome(
    samples: Seq<(u64, Seq<u8>)>,
    style: PageStyle,
    reason: Option<Seq<char>>,
) -> bool {
    exists|made: Seq<Option<usize>>|
        made.len() == samples.len() && (forall|i: int|
            0 <= i < samples.len() ==> sample_outcome(
                (#[trigger] samples[i]).1,
                style,
                made[i],
            )) && #[trigger] is_verdict(samples, made, reason)
}

/// Judges the savings that samples promise.
pub fn check_sample_savings(samples: &Vec<(u64, Vec<u8>)>, style: PageStyle) -> (r: Option<String>)
    requires
        samples@.len() <= SAMPLES,
    ensures
        savings_outcome(
            archive::sample_views(samples@),
            style,
            match r {
                Some(s) => Some(s@),
                None => None,
            },
        ),
{
    let ghost all = archive::sample_views(samples@);
    let mut made: Vec<Option<usize>> = Vec::new();
    let mut i: usize = 0;
    while i < samples.len()
        invariant
            i <= samples@.len(),
            made@.len() == i,
            all == archive::sample_views(samples@),
            forall|k: int| 0 <= k < i ==> sample_outcome((#[trigger] all[k]).1, style, made@[k]),
        decreases samples.len() - i,
    {
        made.push(remake_sample(samples[i].1.as_slice(), style));
        assert(all[i as int].1 == samples@[i as int].1@);
        i += 1;
    }
    judge_savings(samples, &made)
}

/// Whether optimizing an archive, given its bytes, is not worth it, by up to
/// five of its pages. What cannot be read is not judged.
pub fn check_optimize_savings(
    data: &[u8],
    width: u32,
    height: u32,
    quality: u8,
    contrast: bool,
    grayscale: bool,
) -> (r: Option<String>)
    ensures
        match (archive::zip_open(data@), archive::samples_of(data@)) {
            (Ok(_), Some(samples)) => savings_outcome(
                samples,
                (PageStyle { width, height, quality, contrast, grayscale, resize: false }),
                match r {
                    Some(s) => Some(s@),
                    None => None,
                },
            ),
            _ => r is None,
        },
{
    let style = PageStyle { width, height, quality, contrast, grayscale, resize: false };
    match ComicArchive::open(data) {
        Ok(mut archive) => match archive.sample_pages() {
            Some(samples) => check_sample_savings(&samples, style),
            None => None,
        },
        Err(_) => None,
    }
}

// ---------------------------------------------------------------------------
// Laws of verdicts
// ---------------------------------------------------------------------------


/// A page is too small where it is narrower or lower than the limit; of a page that
/// is cut in two both halves must be as wide as the limit. The verdict names its
/// size and whether it is cut.
pub proof fn small_pages_are_below_the_limit(w: u32, h: u32, target: u32, split: bool)
    ensures
        low_resolution(None, target, split) is None,
        split && 4 * w > 5 * h ==> (low_resolution(Some((w, h)), target, split) is Some <==> w < 2
            * target || h < target),
        !split || 4 * w <= 5 * h ==> (low_resolution(Some((w, h)), target, split) is Some <==> w
            < target || h < target),
        match low_resolution(Some((w, h)), target, split) {
            Some((a, b, double)) => a == w && b == h && (double <==> split && 4 * w > 5 * h),
            None => true,
        },
{
}

/// Where no page of a source is large enough, the verdict names the page that has
/// as many pages before it as behind it, or one more.
pub proof fn verdicts_name_the_middle_page(
    sizes: Seq<Option<(u32, u32)>>,
    target: u32,
    split: bool,
) -> (m: int)
    requires
        pages_verdict(sizes, target, split) is Some,
    ensures
        0 <= m < sizes.len(),
        0 <= m - (sizes.len() - 1 - m) <= 1,
        match (pages_verdict(sizes, target, split), sizes[m]) {
            (Some((a, b, _)), Some((w, h))) => a == w && b == h && target > 0,
            _ => false,
        },
{
    sizes.len() as int / 2
}

/// The pages of one part and of another that are large enough are those of both.
pub proof fn large_pages_follow_each_other(
    a: Seq<Seq<u8>>,
    b: Seq<Seq<u8>>,
    target: u32,
    split: bool,
)
    ensures
        large_contents(a + b, target, split) == large_contents(a, target, split) + large_contents(
            b,
            target,
            split,
        ),
    decreases b.len(),
{
    reveal(Seq::filter);
    if b.len() == 0 {
        assert(a + b =~= a);
        assert(large_contents(b, target, split) =~= seq![]);
        assert(large_contents(a, target, split) + seq![] =~= large_contents(a, target, split));
    } else {
        large_pages_follow_each_other(a, b.drop_last(), target, split);
        assert((a + b).drop_last() =~= a + b.drop_last());
        assert((a + b).last() == b.last());
        assert(large_contents(a + b, target, split) =~= large_contents(a, target, split)
            + large_contents(b, target, split));
    }
}

/// A page alone is kept just where its header does not show that it is below the
/// limit.
pub proof fn a_page_is_kept_by_its_header(page: Seq<u8>, target: u32, split: bool)
    ensures
        large_contents(seq![page], target, split) == (match picture::header_dimensions(page) {
            Some((w, h)) => if h < target || w < target || (split && 4 * w > 5 * h && w < 2
                * target) {
                seq![]
            } else {
                seq![page]
            },
            None => seq![page],
        }),
{
    reveal_with_fuel(Seq::filter, 2);
    assert(seq![page].drop_last() =~= seq![]);
    assert(large_contents(seq![page], target, split) =~= (match picture::header_dimensions(page) {
        Some((w, h)) => if h < target || w < target || (split && 4 * w > 5 * h && w < 2 * target) {
            seq![]
        } else {
            seq![page]
        },
        None => seq![page],
    }));
}

/// The pages of an archive are measured one by one, in reading order.
pub proof fn every_page_is_measured(data: Seq<u8>, i: int)
    requires
        archive::zip_open(data) is Ok,
        0 <= i < archive::page_order(data).len(),
    ensures
        source_sizes_of(data).len() == archive::page_order(data).len(),
        match archive::zip_entry(data, archive::page_order(data)[i]) {
            Ok((_, Ok(page))) => source_sizes_of(data)[i] == picture::header_dimensions(page),
            _ => source_sizes_of(data)[i] is None,
        },
{
}

/// The pages of a list are measured one by one.
pub proof fn every_listed_page_is_measured(pages: Seq<Seq<u8>>, i: int)
    requires
        0 <= i < pages.len(),
    ensures
        header_sizes(pages).len() == pages.len(),
        header_sizes(pages)[i] == picture::header_dimensions(pages[i]),
{
}

/// The resolution of an archive is that of the page in its middle: the one with as
/// many pages before it as behind it, or one more. `m` is its place.
pub proof fn archives_are_judged_by_the_middle_page(data: Seq<u8>, target: u32, split: bool) -> (m: int)
    requires
        archive::zip_open(data) is Ok,
        archive::page_order(data).len() > 0,
    ensures
        0 <= m < archive::page_order(data).len(),
        0 <= m - (archive::page_order(data).len() - 1 - m) <= 1,
        match archive::zip_entry(data, archive::page_order(data)[m]) {
            Ok((_, Ok(page))) => source_resolution(data, target, split) == low_resolution(
                picture::header_dimensions(page),
                target,
                split,
            ),
            _ => source_resolution(data, target, split) is None,
        },
{
    archive::page_order(data).len() as int / 2
}

/// What samples take adds up, and so does what they take when re-encoded.
pub proof fn totals_add_up(
    a: Seq<(u64, Seq<u8>)>,
    m: Seq<Option<usize>>,
    b: Seq<(u64, Seq<u8>)>,
    n: Seq<Option<usize>>,
)
    requires
        a.len() == m.len(),
        b.len() == n.len(),
    ensures
        source_total(a + b, m + n) == source_total(a, m) + source_total(b, n),
        made_total(m + n) == made_total(m) + made_total(n),
    decreases b.len(),
{
    if b.len() == 0 {
        assert(a + b =~= a);
        assert(m + n =~= m);
    } else {
        totals_add_up(a, m, b.drop_last(), n.drop_last());
        assert((a + b).drop_last() =~= a + b.drop_last());
        assert((m + n).drop_last() =~= m + n.drop_last());
        assert((a + b).last() == b.last() && (m + n).last() == n.last());
    }
}

/// A sample alone counts with its size in the source and its size when re-encoded,
/// and not at all where it could not be.
pub proof fn samples_count_where_they_were_made(size: u64, content: Seq<u8>, made: usize)
    ensures
        source_total(seq![(size, content)], seq![Some(made)]) == size,
        made_total(seq![Some(made)]) == made,
        source_total(seq![(size, content)], seq![None]) == 0,
        made_total(seq![None]) == 0,
{
    reveal_with_fuel(source_total, 2);
    reveal_with_fuel(made_total, 2);
    assert(seq![(size, content)].drop_last() =~= seq![]);
    assert(seq![Some(made)].drop_last() =~= seq![]);
}

/// The savings are the smallest whole percentage of the source that covers what is
/// saved.
pub proof fn savings_cover_what_is_saved(source: nat, made: nat)
    requires
        source > 0,
    ensures
        made >= source ==> savings(source, made) == 0,
        made < source ==> {
            let s = savings(source, made) as int;
            &&& 100 * (source - made) <= s * source
            &&& (s - 1) * source < 100 * (source - made)
        },
{
    let q = made * 100 / source;
    let r = made * 100 % source;
    assert(made * 100 == q * source + r && 0 <= r < source) by (nonlinear_arith)
        requires
            source > 0,
            q == made * 100 / source,
            r == made * 100 % source,
    ;
    if made >= source {
        assert(q >= 100) by (nonlinear_arith)
            requires
                made >= source,
                source > 0,
                made * 100 == q * source + r,
                0 <= r < source,
        ;
    } else {
        assert(0 <= q < 100) by (nonlinear_arith)
            requires
                0 <= made < source,
                made * 100 == q * source + r,
                0 <= r < source,
        ;
        assert((100 - q) * source == 100 * source - q * source) by (nonlinear_arith);
        assert((100 - q - 1) * source == 100 * source - q * source - source) by (nonlinear_arith);
    }
}

/// A source is skipped just where something of it could be re-encoded and no more
/// than 14 percent of that is saved.
pub proof fn compact_sources_are_skipped(
    samples: Seq<(u64, Seq<u8>)>,
    made: Seq<Option<usize>>,
    reason: Option<Seq<char>>,
)
    requires
        is_verdict(samples, made, reason),
    ensures
        reason is Some <==> {
            let source = source_total(samples, made);
            source > 0 && 100 * (source - made_total(made)) <= 14 * source
        },
{
    let source = source_total(samples, made);
    let total = made_total(made);
    if source > 0 {
        savings_cover_what_is_saved(source, total);
        let s = savings(source, total) as int;
        if total < source {
            assert(s <= 14 ==> s * source <= 14 * source) by (nonlinear_arith)
                requires
                    source > 0,
            ;
            assert(s >= 15 ==> (s - 1) * source >= 14 * source) by (nonlinear_arith)
                requires
                    source > 0,
            ;
        }
    }
}

/// Why a compact source is skipped: the most frequent format of its samples, the
/// savings in percent and the number of samples, out of five. `r` is what stands
/// for them.
pub proof fn compact_sources_are_told_why(
    samples: Seq<(u64, Seq<u8>)>,
    made: Seq<Option<usize>>,
    reason: Seq<char>,
) -> (r: (Seq<char>, Seq<char>, Seq<char>))
    requires
        is_verdict(samples, made, Some(reason)),
    ensures
        reason == "already compact ("@ + r.0 + ", ~"@ + r.1 + "% savings across "@ + r.2 + "/"@ + text::decimal(5)
            + " samples)"@,
        exists|i: int| 0 <= i < samples.len() && sniff::picture_format(#[trigger] samples[i].1) == r.0,
        forall|other: Seq<char>| #[trigger] format_count(samples, other) <= format_count(samples, r.0),
        natural::all_digits(r.1) && natural::digits_value(r.1) == savings(
            source_total(samples, made),
            made_total(made),
        ),
        natural::all_digits(r.2) && natural::digits_value(r.2) == samples.len(),
{
    let percent = savings(source_total(samples, made), made_total(made));
    let format = choose|format: Seq<char>| #[trigger]
        is_dominant(samples, format) && Some(reason) == Some(
            compact_reason(format, percent, samples.len()),
        );
    lemma_counted_occurs(samples, format);
    names::lemma_decimal(percent);
    names::lemma_decimal(samples.len());
    (format, text::decimal(percent), text::decimal(samples.len()))
}

/// The samples of a format in two parts are those of both.
pub proof fn formats_are_counted(a: Seq<(u64, Seq<u8>)>, b: Seq<(u64, Seq<u8>)>, format: Seq<char>)
    ensures
        format_count(a + b, format) == format_count(a, format) + format_count(b, format),
    decreases b.len(),
{
    if b.len() == 0 {
        assert(a + b =~= a);
    } else {
        formats_are_counted(a, b.drop_last(), format);
        assert((a + b).drop_last() =~= a + b.drop_last());
        assert((a + b).last() == b.last());
    }
}

/// A sample alone is one of its format and none of another.
pub proof fn a_sample_has_one_format(size: u64, content: Seq<u8>, format: Seq<char>)
    ensures
        format_count(seq![(size, content)], sniff::picture_format(content)) == 1,
        format != sniff::picture_format(content) ==> format_count(seq![(size, content)], format) == 0,
{
    reveal_with_fuel(format_count, 2);
    assert(seq![(size, content)].drop_last() =~= seq![]);
}

/// A sample is re-encoded like a page of the same style, fitted just where it
/// exceeds the page; where it cannot be decoded or encoded there is none.
pub proof fn samples_are_made_like_pages(raw: Seq<u8>, style: PageStyle, made: Option<usize>)
    requires
        sample_outcome(raw, style, made),
    ensures
        match made {
            Some(n) => exists|p: Picture, v: Seq<u8>|
                #![trigger picture::decode_outcome(raw, Ok(p)), v.len()]
                picture::decode_outcome(raw, Ok(p)) && n == v.len() && picture::page_outcome(
                    p,
                    (PageStyle {
                        width: style.width,
                        height: style.height,
                        quality: style.quality,
                        contrast: style.contrast,
                        grayscale: style.grayscale,
                        resize: p.width > style.width || p.height > style.height,
                    }),
                    Ok(v),
                ),
            None => (exists|e: Seq<char>| #[trigger] picture::decode_outcome(raw, Err(e))) || exists|
                p: Picture,
                e: Seq<char>,
            |
                #![trigger picture::decode_outcome(raw, Ok(p)), e.len()]
                picture::decode_outcome(raw, Ok(p)) && picture::page_outcome(
                    p,
                    (PageStyle {
                        width: style.width,
                        height: style.height,
                        quality: style.quality,
                        contrast: style.contrast,
                        grayscale: style.grayscale,
                        resize: p.width > style.width || p.height > style.height,
                    }),
                    Err(e),
                ),
        },
{
    let d = choose|d: Result<Picture, Seq<char>>| #[trigger]
        picture::decode_outcome(raw, d) && match d {
            Ok(p) => exists|out: Result<Seq<u8>, Seq<char>>| #[trigger]
                picture::page_outcome(p, sample_style(p, style), out) && match out {
                    Ok(v) => made is Some && made->0 == v.len(),
                    Err(_) => made is None,
                },
            Err(_) => made is None,
        };
    match d {
        Ok(p) => {
            let out = choose|out: Result<Seq<u8>, Seq<char>>| #[trigger]
                picture::page_outcome(p, sample_style(p, style), out) && match out {
                    Ok(v) => made is Some && made->0 == v.len(),
                    Err(_) => made is None,
                };
            match out {
                Ok(v) => {
                    assert(picture::decode_outcome(raw, Ok(p)) && v.len() >= 0);
                },
                Err(e) => {
                    assert(picture::decode_outcome(raw, Ok(p)) && e.len() >= 0);
                },
            }
        },
        Err(e) => {
            assert(picture::decode_outcome(raw, Err(e)));
        },
    }
}

/// The verdict on samples rests on what re-encoding each of them gives. `made` are their
/// sizes.
pub proof fn verdicts_rest_on_the_samples(
    samples: Seq<(u64, Seq<u8>)>,
    style: PageStyle,
    reason: Option<Seq<char>>,
) -> (made: Seq<Option<usize>>)
    requires
        savings_outcome(samples, style, reason),
    ensures
        made.len() == samples.len(),
        forall|i: int| 0 <= i < samples.len() ==> sample_outcome(samples[i].1, style, #[trigger] made[i]),
        is_verdict(samples, made, reason),
{
    let made = choose|made: Seq<Option<usize>>|
        made.len() == samples.len() && (forall|i: int|
            0 <= i < samples.len() ==> sample_outcome(
                (#[trigger] samples[i]).1,
                style,
                made[i],
            )) && #[trigger] is_verdict(samples, made, reason);
    assert forall|i: int| 0 <= i < samples.len() implies sample_outcome(
        samples[i].1,
        style,
        #[trigger] made[i],
    ) by {
        assert(sample_outcome((samples[i]).1, style, made[i]));
    }
    made
}

} // verus!
