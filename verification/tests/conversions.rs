use zagorakys::conversion::{Action, Conversion, Event, Stage};
use zagorakys::convert::{
    alternative_name, choose_route, comic_title, discards_output, low_res_reason, name_step,
    plan_conversion, ConvertOptions, ConvertResult, FailedAt, NameStep, Route,
};
use zagorakys::pages::{CbzRun, CbzStep};
use zagorakys::progress::{report_count, report_step};
use zagorakys::tools::{
    after_rendering, after_unrar, bundled_tool_names, bundled_unrar_names, child_step,
    first_found, first_renderer, is_found, renderer_name, tool_candidates, unrar_candidates,
    unsupported_archive, ChildAction, ChildState, RenderAction, Renderer, Rendering, UnrarAction,
    UnrarRun,
};

fn options(device: &str) -> ConvertOptions {
    ConvertOptions {
        input_path: "/in/My Comic.cbz".to_string(),
        output_dir: "/out".to_string(),
        quality: 40,
        contrast: true,
        no_split: false,
        device: device.to_string(),
        skip_existing: false,
        preserve_color: false,
        min_resolution: 0,
        max_image_dim: 0,
    }
}

fn looked_for(a: Action) -> String {
    match a {
        Action::Look(name) => name,
        _ => panic!("not a look"),
    }
}

fn finished(a: Action) -> Result<ConvertResult, String> {
    match a {
        Action::Finish(r) => r,
        _ => panic!("not finished"),
    }
}

#[test]
fn titles_lose_dots_and_space() {
    assert_eq!(comic_title("My Comic..."), "My Comic");
    assert_eq!(comic_title("  Vol. 2 "), "Vol. 2");
    assert_eq!(comic_title("a ."), "a");
    assert_eq!(comic_title("..."), "");
}

#[test]
fn plans_follow_the_device() {
    let mut o = options("optimize");
    o.quality = 0;
    o.preserve_color = true;
    let plan = plan_conversion(&o, "My Comic.", "CBZ");
    assert_eq!((plan.title.as_str(), plan.base.as_str(), plan.extension), ("My Comic", "My Comic_optimized", "cbz"));
    assert_eq!((plan.style.width, plan.style.height, plan.style.quality), (2048, 2048, 1));
    assert!(!plan.style.grayscale && plan.style.contrast && plan.style.resize);
    assert!(plan.split && plan.renumber && plan.check_savings && !plan.is_pdf);
    assert_eq!((plan.verb, plan.device_name), ("Optimizing...", "optimized"));

    let mut o = options("kindle-oasis");
    o.quality = 200;
    o.preserve_color = true;
    o.no_split = true;
    let plan = plan_conversion(&o, "x", "Pdf");
    assert_eq!((plan.base.as_str(), plan.extension, plan.verb), ("x", "mobi", "Converting..."));
    assert_eq!((plan.style.quality, plan.device_name), (100, "kindle_oasis"));
    assert!(plan.style.grayscale && plan.is_pdf);
    assert!(!plan.split && !plan.renumber && !plan.check_savings);

    let plan = plan_conversion(&options("pdf-optimize"), "x", "pdf");
    assert_eq!((plan.base.as_str(), plan.extension), ("x_optimized", "pdf"));
    assert!(!plan.check_savings);
}

#[test]
fn routes_follow_device_and_source() {
    assert_eq!(choose_route("pdf-optimize", true, 0), Ok(Route::ShrinkPdf(1500)));
    assert_eq!(choose_route("pdf-optimize", true, 1024), Ok(Route::ShrinkPdf(1024)));
    assert_eq!(
        choose_route("pdf-optimize", false, 0),
        Err("PDF Optimize only works with PDF files".to_string())
    );
    assert_eq!(choose_route("optimize", true, 0), Ok(Route::PdfToCbz));
    assert_eq!(choose_route("kobo-clara-hd", false, 0), Ok(Route::ArchiveToCbz));
    assert_eq!(choose_route("kindle4", true, 0), Ok(Route::PdfToMobi));
    assert_eq!(choose_route("kindle4", false, 0), Ok(Route::ArchiveToMobi));
}

#[test]
fn taken_names_get_numbers() {
    assert_eq!(alternative_name("a_optimized", 3, "cbz"), "a_optimized_3.cbz");
    assert!(matches!(name_step(1, false), NameStep::Take));
    assert!(matches!(name_step(1, true), NameStep::Try(2)));
    assert!(matches!(name_step(9999, false), NameStep::Take));
    match name_step(9999, true) {
        NameStep::Fail(e) => assert_eq!(e, "Too many files with the same name in output folder"),
        _ => panic!("not a failure"),
    }
}

#[test]
fn reasons_are_put_into_words() {
    assert_eq!(low_res_reason((300, 200, true)), "low res after split (300/2 x 200)");
    assert_eq!(low_res_reason((300, 200, false)), "low res (300x200)");
}

#[test]
fn archives_become_books() {
    let (mut c, first) = Conversion::start(&options("kindle4"), "My Comic", "cbz");
    assert_eq!(looked_for(first), "My Comic.mobi");
    // Without an interest in what is there, the output is replaced.
    assert!(matches!(c.answer(Event::Exists(true, false)), Action::Open));
    assert!(matches!(c.answer(Event::Bytes(2048)), Action::JudgeResolution));
    assert!(matches!(c.answer(Event::Resolution(None)), Action::AskCancel));
    match c.answer(Event::Cancelled(false)) {
        Action::Make(route, name) => {
            assert_eq!((route, name.as_str()), (Route::ArchiveToMobi, "My Comic.mobi"));
        }
        _ => panic!("nothing is made"),
    }
    match c.answer(Event::Made) {
        Action::Close(name) => assert_eq!(name, "My Comic.mobi"),
        _ => panic!("not closed"),
    }
    let r = finished(c.answer(Event::Closed("/out/x".to_string(), 1024, "1.5s".to_string())))
        .unwrap();
    assert_eq!((r.output_path.as_str(), r.output_size.as_str(), r.output_bytes), ("/out/x", "1.0 KB", 1024));
    assert_eq!((r.input_size.as_str(), r.input_bytes), ("2.0 KB", 2048));
    assert_eq!((r.title.as_str(), r.elapsed.as_str(), r.skip_reason.as_str()), ("My Comic", "1.5s", ""));
    assert!(!r.skipped);
    assert_eq!(c.stage, Stage::Over);
}

#[test]
fn existing_output_is_skipped_where_that_is_wanted() {
    let mut o = options("optimize");
    o.skip_existing = true;
    let (mut c, first) = Conversion::start(&o, "a", "cbz");
    assert_eq!(looked_for(first), "a_optimized.cbz");
    match c.answer(Event::Exists(true, false)) {
        Action::Measure(name) => assert_eq!(name, "a_optimized.cbz"),
        _ => panic!("not measured"),
    }
    let r = finished(c.answer(Event::Sizes("/out/a".to_string(), 10, 20))).unwrap();
    assert_eq!((r.output_bytes, r.input_bytes, r.output_path.as_str()), (10, 20, "/out/a"));
    assert_eq!((r.skip_reason.as_str(), r.elapsed.as_str(), r.skipped), ("exists", "0.0s", true));
}

#[test]
fn smaller_files_do_not_replace_others() {
    let (mut c, _) = Conversion::start(&options("optimize"), "a", "cbz");
    assert_eq!(looked_for(c.answer(Event::Exists(true, false))), "a_optimized_1.cbz");
    assert_eq!(looked_for(c.answer(Event::Exists(true, false))), "a_optimized_2.cbz");
    assert!(matches!(c.answer(Event::Exists(false, false)), Action::Open));
    assert_eq!(c.name, "a_optimized_2.cbz");

    let (mut c, _) = Conversion::start(&options("optimize"), "a", "cbz");
    c.answer(Event::Exists(true, false));
    for i in 2..=9999u32 {
        assert_eq!(looked_for(c.answer(Event::Exists(true, false))), format!("a_optimized_{i}.cbz"));
    }
    assert_eq!(
        finished(c.answer(Event::Exists(true, false))).unwrap_err(),
        "Too many files with the same name in output folder"
    );
}

#[test]
fn poor_sources_are_skipped() {
    let mut o = options("optimize");
    o.min_resolution = 300;
    o.no_split = true;
    let (mut c, _) = Conversion::start(&o, "a", "cbz");
    c.answer(Event::Exists(false, false));
    c.answer(Event::Bytes(500));
    assert!(matches!(
        c.answer(Event::Resolution(Some((300, 200, false)))),
        Action::MeasurePages
    ));
    let sizes = vec![Some((200, 900)), Some((300, 200)), Some((900, 299))];
    match c.answer(Event::PageSizes(sizes)) {
        Action::Skip(message, r) => {
            assert_eq!(message, "Skipped: low res (300x200)");
            assert_eq!((r.skip_reason.as_str(), r.output_path.as_str()), ("low res (300x200)", "/in/My Comic.cbz"));
            assert_eq!((r.output_size.as_str(), r.output_bytes, r.input_size.as_str()), ("", 0, "500 B"));
            assert!(r.skipped);
        }
        _ => panic!("not skipped"),
    }

    let (mut c, _) = Conversion::start(&options("optimize"), "a", "cbz");
    c.answer(Event::Exists(false, false));
    c.answer(Event::Bytes(500));
    assert!(matches!(c.answer(Event::Resolution(None)), Action::JudgeSavings));
    match c.answer(Event::Savings(Some("compact".to_string()))) {
        Action::Skip(message, r) => {
            assert_eq!((message.as_str(), r.skip_reason.as_str()), ("Skipped: compact", "compact"));
        }
        _ => panic!("not skipped"),
    }
}

#[test]
fn conversions_fail_for_a_reason() {
    let (mut c, _) = Conversion::start(&options("pdf-optimize"), "a", "cbz");
    c.answer(Event::Exists(false, false));
    c.answer(Event::Bytes(500));
    c.answer(Event::Resolution(None));
    assert!(matches!(c.answer(Event::Savings(None)), Action::AskCancel));
    assert_eq!(
        finished(c.answer(Event::Cancelled(false))).unwrap_err(),
        "PDF Optimize only works with PDF files"
    );

    let (mut c, _) = Conversion::start(&options("pdf-optimize"), "a", "pdf");
    c.answer(Event::Exists(false, false));
    assert!(matches!(c.answer(Event::Bytes(500)), Action::AskCancel));
    assert_eq!(finished(c.answer(Event::Cancelled(true))).unwrap_err(), "Cancelled");

    let (mut c, _) = Conversion::start(&options("kobo-x"), "a", "pdf");
    c.answer(Event::Exists(false, false));
    c.answer(Event::Bytes(500));
    assert!(matches!(c.answer(Event::Cancelled(false)), Action::Make(Route::PdfToCbz, _)));
    let failed = Event::Failed(FailedAt::Preparing, "bad".to_string());
    assert_eq!(finished(c.answer(failed)).unwrap_err(), "bad");
}

#[test]
fn sources_with_a_large_page_are_converted() {
    let mut o = options("kindle4");
    o.min_resolution = 300;
    let (mut c, _) = Conversion::start(&o, "a", "cbz");
    c.answer(Event::Exists(false, false));
    c.answer(Event::Bytes(500));
    c.answer(Event::Resolution(Some((100, 100, false))));
    let sizes = vec![Some((300, 400)), Some((100, 100))];
    assert!(matches!(c.answer(Event::PageSizes(sizes)), Action::AskCancel));

    // What is rendered is measured on the way.
    let (mut c, _) = Conversion::start(&o, "a", "pdf");
    c.answer(Event::Exists(false, false));
    assert!(matches!(c.answer(Event::Bytes(500)), Action::AskCancel));
    c.answer(Event::Cancelled(false));
    match c.answer(Event::TooSmall((100, 90, false))) {
        Action::Skip(message, r) => {
            assert_eq!(message, "Skipped: low res (100x90)");
            assert!(r.skipped && r.output_path == "/in/My Comic.cbz");
        }
        _ => panic!("not skipped"),
    }
}

#[test]
fn sources_are_not_replaced() {
    let (mut c, first) = Conversion::start(&options("kobo-clara-hd"), "A", "cbz");
    assert_eq!(looked_for(first), "A.cbz");
    assert_eq!(looked_for(c.answer(Event::Exists(true, true))), "A_1.cbz");
    assert_eq!(looked_for(c.answer(Event::Exists(true, false))), "A_2.cbz");
    assert!(matches!(c.answer(Event::Exists(false, false)), Action::Open));
    c.answer(Event::Bytes(500));
    c.answer(Event::Resolution(None));
    match c.answer(Event::Cancelled(false)) {
        Action::Make(route, name) => {
            assert_eq!((route, name.as_str()), (Route::ArchiveToCbz, "A_2.cbz"));
        }
        _ => panic!("nothing is made"),
    }
    match c.answer(Event::Failed(FailedAt::Making, "bad".to_string())) {
        Action::Discard(name, e) => assert_eq!((name.as_str(), e.as_str()), ("A_2.cbz", "bad")),
        _ => panic!("not discarded"),
    }

    // The source is no output that is there already.
    let mut o = options("kobo-clara-hd");
    o.skip_existing = true;
    let (mut c, _) = Conversion::start(&o, "A", "cbz");
    assert_eq!(looked_for(c.answer(Event::Exists(true, true))), "A_1.cbz");
    match c.answer(Event::Exists(true, false)) {
        Action::Measure(name) => assert_eq!(name, "A_1.cbz"),
        _ => panic!("not measured"),
    }
    let r = finished(c.answer(Event::Sizes("/out/A_1.cbz".to_string(), 10, 20))).unwrap();
    assert_eq!((r.skip_reason.as_str(), r.output_path.as_str()), ("exists", "/out/A_1.cbz"));
}

#[test]
fn what_was_begun_is_discarded() {
    let whole = [Route::ShrinkPdf(9), Route::ArchiveToCbz];
    let prepared = [Route::ArchiveToMobi, Route::PdfToCbz, Route::PdfToMobi];
    for route in whole {
        assert!(discards_output(route, FailedAt::Making));
        assert!(discards_output(route, FailedAt::Preparing));
    }
    for route in prepared {
        assert!(discards_output(route, FailedAt::Making));
        assert!(!discards_output(route, FailedAt::Preparing));
    }
}

#[test]
fn pages_are_written_under_running_numbers() {
    let made = vec![Ok(vec![vec![1], vec![2]]), Ok(vec![]), Ok(vec![vec![3]]), Err("bad".to_string())];
    let mut run = CbzRun::new(made);
    let mut seen = Vec::new();
    for i in 1..=3usize {
        match run.step() {
            CbzStep::Write(p, entries) => {
                assert_eq!((p.current, p.total), (i, 4));
                assert_eq!(p.message, format!("Writing {i}/4"));
                seen.extend(entries.into_iter().map(|e| (e.name, e.content)));
            }
            _ => panic!("nothing to write"),
        }
    }
    assert_eq!(
        seen,
        vec![
            ("0000.jpg".to_string(), vec![1]),
            ("0001.jpg".to_string(), vec![2]),
            ("0002.jpg".to_string(), vec![3]),
        ]
    );
    match run.step() {
        CbzStep::Failed(e) => assert_eq!(e, "bad"),
        _ => panic!("no failure"),
    }
    assert!(matches!(CbzRun::new(vec![]).step(), CbzStep::Finished));
}

#[test]
fn programs_are_looked_for_in_order() {
    assert_eq!(
        unrar_candidates(false),
        vec!["/usr/local/bin/unrar", "/opt/homebrew/bin/unrar", "/usr/bin/unrar", "unrar"]
    );
    assert_eq!(
        unrar_candidates(true),
        vec![
            r"C:\Program Files\WinRAR\UnRAR.exe",
            r"C:\Program Files (x86)\WinRAR\UnRAR.exe",
            "unrar.exe"
        ]
    );
    assert_eq!(bundled_unrar_names(), vec!["UnRAR.exe", "unrar.exe"]);
    assert_eq!(
        tool_candidates("mutool"),
        vec!["/opt/homebrew/bin/mutool", "/usr/local/bin/mutool", "mutool"]
    );
    assert_eq!(bundled_tool_names("mutool"), vec!["mutool", "mutool.exe"]);
    assert_eq!(bundled_tool_names("mutool.exe"), vec!["mutool.exe"]);
    assert!(is_found(true, true, false));
    assert!(is_found(false, false, true));
    assert!(!is_found(false, true, false));
    assert!(!is_found(true, false, false));
    assert_eq!(first_found(&vec![false, true, true]), Some(1));
    assert_eq!(first_found(&vec![false, false]), None);
    assert_eq!(first_found(&Vec::new()), None);
}

#[test]
fn programs_are_watched() {
    assert!(matches!(child_step(true, ChildState::Exited(true), "t"), ChildAction::Kill));
    assert!(matches!(child_step(false, ChildState::Running, "t"), ChildAction::Wait));
    match child_step(false, ChildState::Exited(false), "t") {
        ChildAction::Report(r) => assert_eq!(r, Ok(false)),
        _ => panic!("no report"),
    }
    match child_step(false, ChildState::Lost("gone".to_string()), "mutool") {
        ChildAction::Report(r) => assert_eq!(r, Err("mutool failed: gone".to_string())),
        _ => panic!("no report"),
    }
}

#[test]
fn renderers_are_tried_in_turn() {
    assert_eq!(first_renderer(), Renderer::Mutool);
    assert_eq!(renderer_name(Renderer::Mutool), "mutool");
    assert_eq!(renderer_name(Renderer::Pdftoppm), "pdftoppm");
    assert!(matches!(after_rendering(Renderer::Mutool, Rendering::Ended(true)), RenderAction::Collect));
    for came in [Rendering::Missing, Rendering::Ended(false)] {
        assert!(matches!(
            after_rendering(Renderer::Mutool, came),
            RenderAction::Try(Renderer::Pdftoppm)
        ));
    }
    for came in [Rendering::Missing, Rendering::Ended(false)] {
        match after_rendering(Renderer::Pdftoppm, came) {
            RenderAction::Fail(e) => {
                assert_eq!(e, "No PDF renderer found — install mupdf-tools or poppler");
            }
            _ => panic!("no failure"),
        }
    }
    match after_rendering(Renderer::Mutool, Rendering::Stopped("Cancelled".to_string())) {
        RenderAction::Fail(e) => assert_eq!(e, "Cancelled"),
        _ => panic!("no failure"),
    }
}

#[test]
fn unpacking_is_tried_twice() {
    let ended = |ok: bool| UnrarRun::Ended(ok, "  broken archive \n".to_string());
    assert!(matches!(after_unrar(false, ended(true)), UnrarAction::Collect));
    assert!(matches!(after_unrar(false, ended(false)), UnrarAction::Retry));
    assert!(matches!(after_unrar(true, ended(true)), UnrarAction::Collect));
    match after_unrar(true, ended(false)) {
        UnrarAction::Fail(e) => assert_eq!(e, "unrar failed: broken archive"),
        _ => panic!("no failure"),
    }
    match after_unrar(false, UnrarRun::NotStarted("gone".to_string())) {
        UnrarAction::Fail(e) => assert_eq!(e, "Failed to run unrar: gone"),
        _ => panic!("no failure"),
    }
    assert_eq!(unsupported_archive("unknown"), "Unsupported archive format: unknown");
}

#[test]
fn progress_is_put_into_words() {
    let p = report_count("Processing", 3, 12);
    assert_eq!((p.current, p.total, p.message.as_str()), (3, 12, "Processing 3/12"));
    let p = report_step("Loading PDF...");
    assert_eq!((p.current, p.total, p.message.as_str()), (0, 1, "Loading PDF..."));
}
