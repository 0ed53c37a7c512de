//! What a conversion does for the options it is given.

use crate::device::{device_profile, is_cbz_output, is_optimize, output_extension};
use crate::device;
use crate::names;
use crate::natural;
use crate::picture::{PageStyle, Picture};
use crate::picture;
use crate::size::format_size;
use crate::size;
use crate::text::{decimal_text, join, join3, same_text, trim_end_char, trim_text};
use crate::text;
use vstd::prelude::*;

verus! {

/// What is to be converted, and how.
#[derive(Debug, Clone)]
pub struct ConvertOptions {
    pub input_path: String,
    pub output_dir: String,
    pub quality: u8,
    pub contrast: bool,
    pub no_split: bool,
    pub device: String,
    pub skip_existing: bool,
    pub preserve_color: bool,
    pub min_resolution: u32,
    pub max_image_dim: u32,
}

/// What came of a conversion.
#[derive(Debug)]
pub struct ConvertResult {
    pub output_path: String,
    pub output_size: String,
    pub input_size: String,
    pub input_bytes: usize,
    pub output_bytes: usize,
    pub title: String,
    pub elapsed: String,
    pub skipped: bool,
    pub skip_reason: String,
}

// ---------------------------------------------------------------------------
// Names
// ---------------------------------------------------------------------------

/// The title of a comic: the name of its file without dots at the end and white
/// space around it.
pub open spec fn title_of(stem: Seq<char>) -> Seq<char> {
    text::trimmed(text::trim_end_of(stem, '.'))
}

/// The title of a comic, from the name of its file without the extension.
pub fn comic_title(stem: &str) -> (s: String)
    ensures
        s@ == title_of(stem@),
{
    trim_text(trim_end_char(stem, '.').as_str())
}

/// The name of the output without the extension: a smaller file of the same kind
/// is told from its source.
pub open spec fn base_of(device: Seq<char>, title: Seq<char>) -> Seq<char> {
    if device::optimizes(device) {
        title + "_optimized"@
    } else {
        title
    }
}

/// The name of the output without the extension.
pub fn base_name(device: &str, title: &str) -> (s: String)
    ensures
        s@ == base_of(device@, title@),
{
    if is_optimize(device) {
        join(title, "_optimized")
    } else {
        title.to_owned()
    }
}

/// The name of the output.
pub open spec fn output_of(base: Seq<char>, ext: Seq<char>) -> Seq<char> {
    base + "."@ + ext
}

/// The name of the output with a number, where another file has its name.
pub open spec fn alternative_of(base: Seq<char>, counter: nat, ext: Seq<char>) -> Seq<char> {
    base + "_"@ + text::decimal(counter) + "."@ + ext
}

/// The name of the output.
pub fn output_name(base: &str, ext: &str) -> (s: String)
    ensures
        s@ == output_of(base@, ext@),
{
    join3(base, ".", ext)
}

/// The name of the output with a number.
pub fn alternative_name(base: &str, counter: u32, ext: &str) -> (s: String)
    ensures
        s@ == alternative_of(base@, counter as nat, ext@),
{
    let mut s = join3(base, "_", decimal_text(counter as u64).as_str());
    s.append(".");
    s.append(ext);
    s
}

/// Different numbers give different names, and none is the plain name.
pub proof fn alternatives_are_distinct(base: Seq<char>, ext: Seq<char>, i: nat, j: nat)
    ensures
        i != j ==> alternative_of(base, i, ext) != alternative_of(base, j, ext),
        alternative_of(base, i, ext) != output_of(base, ext),
{
    reveal_strlit("_");
    reveal_strlit(".");
    let a = alternative_of(base, i, ext);
    names::lemma_decimal(i);
    names::lemma_decimal(j);
    if a == alternative_of(base, j, ext) {
        let b = alternative_of(base, j, ext);
        assert(a.len() == base.len() + 1 + text::decimal(i).len() + 1 + ext.len());
        assert(b.len() == base.len() + 1 + text::decimal(j).len() + 1 + ext.len());
        let start = base.len() + 1int;
        assert(a.subrange(start, start + text::decimal(i).len()) =~= text::decimal(i));
        assert(b.subrange(start, start + text::decimal(j).len()) =~= text::decimal(j));
    }
    assert(a.len() > output_of(base, ext).len());
}

/// What is done about a name with a number.
pub enum NameStep {
    /// It is free.
    Take,
    /// The next number is tried.
    Try(u32),
    /// There are too many files of that name.
    Fail(String),
}

/// The highest number that is tried.
pub const LAST_COUNTER: u32 = 9999;

/// What is done about the name with a number, where it exists or not. Numbers
/// start at 1.
pub fn name_step(counter: u32, exists: bool) -> (r: NameStep)
    requires
        counter <= LAST_COUNTER,
    ensures
        !exists ==> r is Take,
        exists && counter < LAST_COUNTER ==> r == NameStep::Try((counter + 1) as u32),
        exists && counter == LAST_COUNTER ==> r is Fail && r->Fail_0@
            == "Too many files with the same name in output folder"@,
{
    if !exists {
        NameStep::Take
    } else if counter < LAST_COUNTER {
        NameStep::Try(counter + 1)
    } else {
        NameStep::Fail("Too many files with the same name in output folder".to_owned())
    }
}

// ---------------------------------------------------------------------------
// The plan
// ---------------------------------------------------------------------------

/// What a conversion sets out to do.
pub struct ConvertPlan {
    pub title: String,
    pub base: String,
    pub extension: &'static str,
    pub device_name: &'static str,
    pub style: PageStyle,
    pub split: bool,
    /// Whether a name that is taken gets a number.
    pub renumber: bool,
    /// Whether the source is a PDF file.
    pub is_pdf: bool,
    /// Whether sources that are compact already are skipped.
    pub check_savings: bool,
    pub verb: &'static str,
}

/// The quality that is used: from 1 to 100.
pub open spec fn used_quality(quality: u8) -> u8 {
    if quality < 1 {
        1
    } else if quality > 100 {
        100
    } else {
        quality
    }
}

/// The style of the pages for a device: always fitted, and in gray unless a
/// smaller file is to keep its colors.
pub open spec fn style_for(options: ConvertOptions) -> PageStyle {
    let profile = device::profile_of(options.device@);
    PageStyle {
        width: profile.0,
        height: profile.1,
        quality: used_quality(options.quality),
        contrast: options.contrast,
        grayscale: !(device::optimizes(options.device@) && options.preserve_color),
        resize: true,
    }
}

/// Whether a plan is the one for options and a source.
pub open spec fn is_plan_for(
    options: ConvertOptions,
    stem: Seq<char>,
    source_extension: Seq<char>,
    plan: ConvertPlan,
) -> bool {
    &&& plan.title@ == title_of(stem)
    &&& plan.base@ == base_of(options.device@, title_of(stem))
    &&& plan.extension@ == device::output_extension_of(options.device@)
    &&& plan.device_name@ == device::profile_of(options.device@).2
    &&& plan.style == style_for(options)
    &&& plan.split == !options.no_split
    &&& plan.renumber == device::optimizes(options.device@)
    &&& plan.is_pdf == (text::lowercase(source_extension) == "pdf"@)
    &&& plan.check_savings == (device::optimizes(options.device@) && !plan.is_pdf)
    &&& plan.verb@ == (if device::optimizes(options.device@) {
        "Optimizing..."@
    } else {
        "Converting..."@
    })
}

/// What a conversion sets out to do; `stem` and `source_extension` are the name
/// of the source and its extension.
pub fn plan_conversion(options: &ConvertOptions, stem: &str, source_extension: &str) -> (plan:
    ConvertPlan)
    ensures
        is_plan_for(*options, stem@, source_extension@, plan),
{
    let device = options.device.as_str();
    let (width, height, device_name) = device_profile(device);
    let optimize: bool = is_optimize(device);
    let quality: u8 = if options.quality < 1 {
        1
    } else if options.quality > 100 {
        100
    } else {
        options.quality
    };
    let title = comic_title(stem);
    let base = base_name(device, title.as_str());
    let is_pdf: bool = same_text(source_extension.to_lowercase().as_str(), "pdf");
    ConvertPlan {
        title,
        base,
        extension: output_extension(device),
        device_name,
        style: PageStyle {
            width,
            height,
            quality,
            contrast: options.contrast,
            grayscale: !(optimize && options.preserve_color),
            resize: true,
        },
        split: !options.no_split,
        renumber: optimize,
        is_pdf,
        check_savings: optimize && !is_pdf,
        verb: if optimize {
            "Optimizing..."
        } else {
            "Converting..."
        },
    }
}

/// Colors are kept only where a smaller file is asked for and is to keep them:
/// what is made for a reader is always gray.
pub proof fn readers_get_gray_pages(options: ConvertOptions)
    requires
        !device::optimizes(options.device@),
    ensures
        style_for(options).grayscale,
{
}

/// The style of a conversion is one whose pages can always be made: pictures with
/// pixels never fail to be encoded for a device.
pub proof fn device_pages_succeed(
    options: ConvertOptions,
    p: Picture,
    outcome: Result<Seq<u8>, Seq<char>>,
)
    requires
        picture::page_outcome(p, style_for(options), outcome),
        p.width >= 1,
        p.height >= 1,
    ensures
        outcome is Ok,
{
    picture::fitted_pages_succeed(p, style_for(options), outcome);
}

/// How the output is made.
#[derive(Debug, Clone, Copy, PartialEq, Eq, Structural)]
pub enum Route {
    /// The pictures of a PDF file are made smaller, up to so many pixels a side.
    ShrinkPdf(u32),
    /// A PDF file is rendered, and its pages make a CBZ file.
    PdfToCbz,
    /// The pages of an archive make a CBZ file.
    ArchiveToCbz,
    /// A PDF file is rendered, and its pages make a MOBI file.
    PdfToMobi,
    /// The pages of an archive make a MOBI file.
    ArchiveToMobi,
}

/// How the output is made, or why it cannot be.
pub open spec fn route_of(device: Seq<char>, is_pdf: bool, max_image_dim: u32) -> Result<
    Route,
    Seq<char>,
> {
    if device == "pdf-optimize"@ {
        if !is_pdf {
            Err("PDF Optimize only works with PDF files"@)
        } else if max_image_dim > 0 {
            Ok(Route::ShrinkPdf(max_image_dim))
        } else {
            Ok(Route::ShrinkPdf(device::profile_of(device).0))
        }
    } else if device::makes_cbz(device) {
        Ok(
            if is_pdf {
                Route::PdfToCbz
            } else {
                Route::ArchiveToCbz
            },
        )
    } else {
        Ok(
            if is_pdf {
                Route::PdfToMobi
            } else {
                Route::ArchiveToMobi
            },
        )
    }
}

/// How the output is made.
pub fn choose_route(device: &str, is_pdf: bool, max_image_dim: u32) -> (r: Result<Route, String>)
    ensures
        (match r {
            Ok(route) => Ok(route),
            Err(e) => Err(e@),
        }) == route_of(device@, is_pdf, max_image_dim),
{
    if same_text(device, "pdf-optimize") {
        if !is_pdf {
            Err("PDF Optimize only works with PDF files".to_owned())
        } else if max_image_dim > 0 {
            Ok(Route::ShrinkPdf(max_image_dim))
        } else {
            Ok(Route::ShrinkPdf(device_profile(device).0))
        }
    } else if is_cbz_output(device) {
        Ok(
            if is_pdf {
                Route::PdfToCbz
            } else {
                Route::ArchiveToCbz
            },
        )
    } else {
        Ok(
            if is_pdf {
                Route::PdfToMobi
            } else {
                Route::ArchiveToMobi
            },
        )
    }
}

/// What was being done when the output could not be made.
#[derive(Debug, Clone, Copy, PartialEq, Eq, Structural)]
pub enum FailedAt {
    /// The pages were being laid out in a folder of their own.
    Preparing,
    /// The output was being made.
    Making,
}

/// Whether what there is of an output is removed when it could not be made:
/// always, but for routes that lay out pages in a folder first and fail there.
pub open spec fn discards(route: Route, at: FailedAt) -> bool {
    match route {
        Route::ShrinkPdf(_) => true,
        Route::ArchiveToCbz => true,
        Route::PdfToCbz => at is Making,
        Route::PdfToMobi => at is Making,
        Route::ArchiveToMobi => at is Making,
    }
}

/// Whether what there is of an output is removed when it could not be made.
pub fn discards_output(route: Route, at: FailedAt) -> (r: bool)
    ensures
        r == discards(route, at),
{
    match at {
        FailedAt::Making => true,
        FailedAt::Preparing => match route {
            Route::ShrinkPdf(_) => true,
            Route::ArchiveToCbz => true,
            _ => false,
        },
    }
}

/// The output of a route has the extension that is planned for the device.
pub proof fn routes_make_the_planned_output(device: Seq<char>, is_pdf: bool, max_image_dim: u32)
    requires
        route_of(device, is_pdf, max_image_dim) is Ok,
    ensures
        match route_of(device, is_pdf, max_image_dim)->Ok_0 {
            Route::ShrinkPdf(_) => device::output_extension_of(device) == "pdf"@ && is_pdf,
            Route::PdfToCbz => device::output_extension_of(device) == "cbz"@ && is_pdf,
            Route::ArchiveToCbz => device::output_extension_of(device) == "cbz"@ && !is_pdf,
            Route::PdfToMobi => device::output_extension_of(device) == "mobi"@ && is_pdf,
            Route::ArchiveToMobi => device::output_extension_of(device) == "mobi"@ && !is_pdf,
        },
{
}

// ---------------------------------------------------------------------------
// Results
// ---------------------------------------------------------------------------

/// Why a page that is too small is skipped.
pub open spec fn low_res_text(page: (u32, u32, bool)) -> Seq<char> {
    if page.2 {
        "low res after split ("@ + text::decimal(page.0 as nat) + "/2 x "@ + text::decimal(
            page.1 as nat,
        ) + ")"@
    } else {
        "low res ("@ + text::decimal(page.0 as nat) + "x"@ + text::decimal(page.1 as nat) + ")"@
    }
}

/// Why a page that is too small is skipped.
pub fn low_res_reason(page: (u32, u32, bool)) -> (s: String)
    ensures
        s@ == low_res_text(page),
{
    let width = decimal_text(page.0 as u64);
    let mut s = if page.2 {
        join3("low res after split (", width.as_str(), "/2 x ")
    } else {
        join3("low res (", width.as_str(), "x")
    };
    s.append(decimal_text(page.1 as u64).as_str());
    s.append(")");
    s
}

/// What is reported of a source that is skipped.
pub fn skip_message(reason: &str) -> (s: String)
    ensures
        s@ == "Skipped: "@ + reason@,
{
    join("Skipped: ", reason)
}

/// The result where the output is there already.
pub fn existing_result(output_path: &str, output_bytes: usize, input_bytes: usize, title: &str) -> (r:
    ConvertResult)
    ensures
        r.output_path@ == output_path@,
        r.output_size@ == size::size_text(output_bytes as nat),
        r.input_size@ == size::size_text(input_bytes as nat),
        r.input_bytes == input_bytes,
        r.output_bytes == output_bytes,
        r.title@ == title@,
        r.elapsed@ == "0.0s"@,
        r.skipped,
        r.skip_reason@ == "exists"@,
{
    ConvertResult {
        output_path: output_path.to_owned(),
        output_size: format_size(output_bytes),
        input_size: format_size(input_bytes),
        input_bytes,
        output_bytes,
        title: title.to_owned(),
        elapsed: "0.0s".to_owned(),
        skipped: true,
        skip_reason: "exists".to_owned(),
    }
}

/// The result where a source is skipped for a reason: it points at the source.
pub fn skipped_result(input_path: &str, input_bytes: usize, title: &str, reason: &str) -> (r:
    ConvertResult)
    ensures
        r.output_path@ == input_path@,
        r.output_size@ == Seq::<char>::empty(),
        r.input_size@ == size::size_text(input_bytes as nat),
        r.input_bytes == input_bytes,
        r.output_bytes == 0,
        r.title@ == title@,
        r.elapsed@ == "0.0s"@,
        r.skipped,
        r.skip_reason@ == reason@,
{
    ConvertResult {
        output_path: input_path.to_owned(),
        output_size: String::new(),
        input_size: format_size(input_bytes),
        input_bytes,
        output_bytes: 0,
        title: title.to_owned(),
        elapsed: "0.0s".to_owned(),
        skipped: true,
        skip_reason: reason.to_owned(),
    }
}

/// The result where the output was made.
pub fn finished_result(
    output_path: &str,
    output_bytes: usize,
    input_bytes: usize,
    title: &str,
    elapsed: &str,
) -> (r: ConvertResult)
    ensures
        r.output_path@ == output_path@,
        r.output_size@ == size::size_text(output_bytes as nat),
        r.input_size@ == size::size_text(input_bytes as nat),
        r.input_bytes == input_bytes,
        r.output_bytes == output_bytes,
        r.title@ == title@,
        r.elapsed@ == elapsed@,
        !r.skipped,
        r.skip_reason@ == Seq::<char>::empty(),
{
    ConvertResult {
        output_path: output_path.to_owned(),
        output_size: format_size(output_bytes),
        input_size: format_size(input_bytes),
        input_bytes,
        output_bytes,
        title: title.to_owned(),
        elapsed: elapsed.to_owned(),
        skipped: false,
        skip_reason: String::new(),
    }
}

// ---------------------------------------------------------------------------
// Laws of plans
// ---------------------------------------------------------------------------


/// The quality of the pages is the one that was chosen, from 1 to 100; below 1 it is 1, and
/// above 100 it is 100. The pages are as large as those of the device, in gray unless
/// something is made smaller and is to keep its colors, and always fitted.
pub proof fn plans_keep_to_the_options(
    options: ConvertOptions,
    stem: Seq<char>,
    source_extension: Seq<char>,
    plan: ConvertPlan,
)
    requires
        is_plan_for(options, stem, source_extension, plan),
    ensures
        1 <= options.quality <= 100 ==> plan.style.quality == options.quality,
        options.quality < 1 ==> plan.style.quality == 1,
        options.quality > 100 ==> plan.style.quality == 100,
        plan.style.width == device::profile_of(options.device@).0,
        plan.style.height == device::profile_of(options.device@).1,
        plan.device_name@ == device::profile_of(options.device@).2,
        plan.style.contrast == options.contrast,
        plan.style.resize,
        plan.style.grayscale <==> !options.preserve_color || (options.device@ != "optimize"@
            && options.device@ != "pdf-optimize"@),
        plan.split <==> !options.no_split,
        plan.renumber <==> options.device@ == "optimize"@ || options.device@ == "pdf-optimize"@,
        plan.is_pdf <==> text::lowercase(source_extension) == "pdf"@,
        plan.check_savings <==> plan.renumber && !plan.is_pdf,
        plan.verb@ == "Optimizing..."@ <==> plan.renumber,
        plan.verb@ == "Converting..."@ <==> !plan.renumber,
{
    reveal_strlit("Optimizing...");
    reveal_strlit("Converting...");
    assert("Optimizing..."@[0] == 'O' && "Converting..."@[0] == 'C');
}

/// A higher quality is never turned into a lower one: of two plans that differ in the
/// quality the one with the higher choice has pages of no lower quality, and within 1 to
/// 100 of a higher one.
pub proof fn higher_choices_give_higher_quality(
    low: ConvertOptions,
    high: ConvertOptions,
    stem: Seq<char>,
    source_extension: Seq<char>,
    p: ConvertPlan,
    q: ConvertPlan,
)
    requires
        is_plan_for(low, stem, source_extension, p),
        is_plan_for(high, stem, source_extension, q),
        low.quality < high.quality,
    ensures
        p.style.quality <= q.style.quality,
        1 <= low.quality && high.quality <= 100 ==> p.style.quality < q.style.quality,
        1 <= p.style.quality && q.style.quality <= 100,
{
}

/// The title of a comic is its file name without the dots at its end and the white space
/// around it. `r` is how many dots there are, and how much white space is in front.
pub proof fn titles_lose_only_dots_and_space(stem: Seq<char>) -> (r: (int, int))
    ensures
        0 <= r.0 <= stem.len(),
        forall|i: int| stem.len() - r.0 <= i < stem.len() ==> #[trigger] stem[i] == '.',
        r.0 < stem.len() ==> stem[stem.len() - r.0 - 1] != '.',
        0 <= r.1,
        r.1 + title_of(stem).len() <= stem.len() - r.0,
        title_of(stem) == stem.subrange(r.1, r.1 + title_of(stem).len()),
        forall|i: int| 0 <= i < r.1 ==> text::is_space(#[trigger] stem[i]),
        forall|i: int|
            r.1 + title_of(stem).len() <= i < stem.len() - r.0 ==> text::is_space(#[trigger] stem[i]),
        title_of(stem).len() > 0 ==> !text::is_space(title_of(stem)[0]) && !text::is_space(
            title_of(stem).last(),
        ),
{
    text::trimming_takes_only_the_end(stem, '.');
    let t = text::trim_end_of(stem, '.');
    let n = text::trimming_takes_only_white_space(t);
    assert(title_of(stem) =~= stem.subrange(n, n + title_of(stem).len()));
    assert forall|i: int| 0 <= i < n implies text::is_space(#[trigger] stem[i]) by {
        assert(t[i] == stem[i]);
    }
    assert forall|i: int| n + title_of(stem).len() <= i < t.len() implies text::is_space(
        #[trigger] stem[i],
    ) by {
        assert(t[i] == stem[i]);
    }
    (stem.len() - t.len(), n)
}

/// The output is called like the comic, and a smaller file is told from its source by
/// what is added to the name; a number stands before the extension, in decimal. `d` are
/// its digits.
pub proof fn outputs_are_called_like_the_comic(
    options: ConvertOptions,
    stem: Seq<char>,
    source_extension: Seq<char>,
    plan: ConvertPlan,
    counter: nat,
) -> (d: Seq<char>)
    requires
        is_plan_for(options, stem, source_extension, plan),
    ensures
        plan.title@ == title_of(stem),
        options.device@ == "optimize"@ || options.device@ == "pdf-optimize"@ ==> plan.base@
            == plan.title@ + "_optimized"@,
        options.device@ != "optimize"@ && options.device@ != "pdf-optimize"@ ==> plan.base@
            == plan.title@,
        plan.extension@ == device::output_extension_of(options.device@),
        output_of(plan.base@, plan.extension@) == plan.base@ + "."@ + plan.extension@,
        alternative_of(plan.base@, counter, plan.extension@) == plan.base@ + "_"@ + d + "."@ + plan.extension@,
        natural::all_digits(d) && natural::digits_value(d) == counter,
{
    names::lemma_decimal(counter);
    text::decimal(counter)
}

/// How the output is made: a PDF file is made smaller as itself, up to the size that was
/// chosen or 1500 pixels, and nothing else can be; for a Kobo and to optimize a CBZ file is
/// made, and else a MOBI file.
pub proof fn routes_follow_device_and_source(device: Seq<char>, is_pdf: bool, max_image_dim: u32)
    ensures
        ({
            let route = route_of(device, is_pdf, max_image_dim);
            let kobo = device.len() >= 4 && device[0] == 'k' && device[1] == 'o' && device[2] == 'b'
                && device[3] == 'o';
            &&& route is Err <==> device == "pdf-optimize"@ && !is_pdf
            &&& route is Err ==> route->Err_0 == "PDF Optimize only works with PDF files"@
            &&& device == "pdf-optimize"@ && is_pdf && max_image_dim > 0 ==> route == Ok::<
                Route,
                Seq<char>,
            >(Route::ShrinkPdf(max_image_dim))
            &&& device == "pdf-optimize"@ && is_pdf && max_image_dim == 0 ==> route == Ok::<
                Route,
                Seq<char>,
            >(Route::ShrinkPdf(1500))
            &&& (kobo || device == "optimize"@) && is_pdf ==> route == Ok::<Route, Seq<char>>(
                Route::PdfToCbz,
            )
            &&& (kobo || device == "optimize"@) && !is_pdf ==> route == Ok::<Route, Seq<char>>(
                Route::ArchiveToCbz,
            )
            &&& !kobo && device != "optimize"@ && device != "pdf-optimize"@ && is_pdf ==> route == Ok::<
                Route,
                Seq<char>,
            >(Route::PdfToMobi)
            &&& !kobo && device != "optimize"@ && device != "pdf-optimize"@ && !is_pdf ==> route == Ok::<
                Route,
                Seq<char>,
            >(Route::ArchiveToMobi)
        }),
{
    reveal_strlit("optimize");
    reveal_strlit("pdf-optimize");
    assert("optimize"@[0] == 'o' && "pdf-optimize"@[0] == 'p');
    device::outputs_follow_the_device(device);
    device::unknown_devices_are_kindle_4(device);
}

/// An output that was begun is removed when it fails, and one that was not only where no
/// folder of pages comes before it.
pub proof fn outputs_that_fail_are_removed(route: Route, at: FailedAt)
    ensures
        at is Making ==> discards(route, at),
        at is Preparing ==> (discards(route, at) <==> route is ShrinkPdf || route is ArchiveToCbz),
{
}

/// Why a page is too small: its size, and that it is cut in two. `r` is what stands for the
/// width and the height.
pub proof fn low_resolutions_are_told(page: (u32, u32, bool)) -> (r: (Seq<char>, Seq<char>))
    ensures
        page.2 ==> low_res_text(page) == "low res after split ("@ + r.0 + "/2 x "@ + r.1 + ")"@,
        !page.2 ==> low_res_text(page) == "low res ("@ + r.0 + "x"@ + r.1 + ")"@,
        natural::all_digits(r.0) && natural::digits_value(r.0) == page.0,
        natural::all_digits(r.1) && natural::digits_value(r.1) == page.1,
{
    names::lemma_decimal(page.0 as nat);
    names::lemma_decimal(page.1 as nat);
    (text::decimal(page.0 as nat), text::decimal(page.1 as nat))
}

} // verus!
