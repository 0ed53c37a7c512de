//! The course of a conversion: which step follows which, and what it comes to.
//! Files, programs and threads are left to the caller, who carries out each
//! action and hands back what came of it.

use crate::convert::{
    ConvertOptions, ConvertPlan, ConvertResult, FailedAt, LAST_COUNTER, NameStep, Route,
    alternative_name, choose_route, discards_output, existing_result, finished_result,
    low_res_reason, name_step, output_name, plan_conversion, skip_message, skipped_result,
};
use crate::convert;
use crate::names;
use crate::natural;
use crate::quality::judge_pages;
use crate::quality;
use crate::size;
use crate::text;
use vstd::prelude::*;

verus! {

/// A conversion under way.
pub struct Conversion {
    pub plan: ConvertPlan,
    pub device: String,
    pub input_path: String,
    pub skip_existing: bool,
    pub min_resolution: u32,
    pub max_image_dim: u32,
    /// The name of the output in the output folder.
    pub name: String,
    pub input_bytes: usize,
    pub stage: Stage,
}

/// What a conversion waits for.
#[derive(Debug, Clone, Copy, PartialEq, Eq, Structural)]
pub enum Stage {
    /// Whether the output is there already.
    Output,
    /// The sizes of an output that is there already, and of the source.
    Existing,
    /// Whether the name with this number is taken.
    Name(u32),
    /// The size of the source.
    Source,
    /// The verdict on the resolution of the source, by the page in its middle.
    Resolution,
    /// The sizes of all its pages.
    Pages,
    /// The verdict on the savings that are to be expected.
    Savings,
    /// Whether the conversion was called off.
    Cancel,
    /// What came of making the output.
    Making(Route),
    /// The size of the output.
    Closing,
    /// Nothing: it is over.
    Over,
}

/// What the caller does next.
pub enum Action {
    /// See whether there is a file of this name in the output folder, and whether
    /// it is the source.
    Look(String),
    /// Take the sizes of the output of this name and of the source.
    Measure(String),
    /// Forget the kept pages of the source, take its size and report the start.
    Open,
    /// Judge the resolution of the source by the page in its middle.
    JudgeResolution,
    /// Measure all pages of the source.
    MeasurePages,
    /// Judge the savings that are to be expected.
    JudgeSavings,
    /// See whether the conversion was called off.
    AskCancel,
    /// Make the output of this name, of the pages that are large enough.
    Make(Route, String),
    /// Forget the kept pages of the output of this name and take its size.
    Close(String),
    /// Report that the source is skipped, and give this result.
    Skip(String, ConvertResult),
    /// Remove the output of this name, and give this error.
    Discard(String, String),
    /// Give this result.
    Finish(Result<ConvertResult, String>),
}

/// What came of an action.
pub enum Event {
    /// Whether the file is there, and whether it is the source.
    Exists(bool, bool),
    /// The path of the output, its size and that of the source.
    Sizes(String, usize, usize),
    Bytes(usize),
    Resolution(Option<(u32, u32, bool)>),
    /// The sizes of all pages, in reading order.
    PageSizes(Vec<Option<(u32, u32)>>),
    Savings(Option<String>),
    Cancelled(bool),
    Made,
    /// No page was large enough, and nothing was made.
    TooSmall((u32, u32, bool)),
    /// What was being done when it failed, and why it did.
    Failed(FailedAt, String),
    /// The path of the output, its size and the time that it took, in words.
    Closed(String, usize, String),
}

/// Whether an event is one that a stage waits for.
pub open spec fn awaits(stage: Stage, event: Event) -> bool {
    match stage {
        Stage::Output => event is Exists,
        Stage::Existing => event is Sizes,
        Stage::Name(_) => event is Exists,
        Stage::Source => event is Bytes,
        Stage::Resolution => event is Resolution,
        Stage::Pages => event is PageSizes,
        Stage::Savings => event is Savings,
        Stage::Cancel => event is Cancelled,
        Stage::Making(_) => event is Made || event is TooSmall || event is Failed,
        Stage::Closing => event is Closed,
        Stage::Over => false,
    }
}

/// Whether a result says that a source was skipped for a reason.
pub open spec fn says_skipped(c: Conversion, reason: Seq<char>, r: ConvertResult) -> bool {
    &&& r.output_path@ == c.input_path@
    &&& r.output_size@ == Seq::<char>::empty()
    &&& r.input_size@ == size::size_text(c.input_bytes as nat)
    &&& r.input_bytes == c.input_bytes
    &&& r.output_bytes == 0
    &&& r.title@ == c.plan.title@
    &&& r.elapsed@ == "0.0s"@
    &&& r.skipped
    &&& r.skip_reason@ == reason
}

/// Whether a result says that the output at a path was there already.
pub open spec fn says_existing(
    c: Conversion,
    path: Seq<char>,
    output_bytes: usize,
    input_bytes: usize,
    r: ConvertResult,
) -> bool {
    &&& r.output_path@ == path
    &&& r.output_size@ == size::size_text(output_bytes as nat)
    &&& r.input_size@ == size::size_text(input_bytes as nat)
    &&& r.input_bytes == input_bytes
    &&& r.output_bytes == output_bytes
    &&& r.title@ == c.plan.title@
    &&& r.elapsed@ == "0.0s"@
    &&& r.skipped
    &&& r.skip_reason@ == "exists"@
}

/// Whether a result says that the output at a path was made.
pub open spec fn says_made(
    c: Conversion,
    path: Seq<char>,
    output_bytes: usize,
    elapsed: Seq<char>,
    r: ConvertResult,
) -> bool {
    &&& r.output_path@ == path
    &&& r.output_size@ == size::size_text(output_bytes as nat)
    &&& r.input_size@ == size::size_text(c.input_bytes as nat)
    &&& r.input_bytes == c.input_bytes
    &&& r.output_bytes == output_bytes
    &&& r.title@ == c.plan.title@
    &&& r.elapsed@ == elapsed
    &&& !r.skipped
    &&& r.skip_reason@ == Seq::<char>::empty()
}

/// Whether an action gives up with an error.
pub open spec fn gives_up(a: Action, e: Seq<char>) -> bool {
    a is Finish && a->Finish_0 is Err && a->Finish_0->Err_0@ == e
}

/// Whether an action skips the source for a reason.
pub open spec fn skips(c: Conversion, reason: Seq<char>, a: Action) -> bool {
    &&& a is Skip
    &&& a->Skip_0@ == "Skipped: "@ + reason
    &&& says_skipped(c, reason, a->Skip_1)
}

/// The name of the output with a number.
pub open spec fn numbered_output(c: Conversion, counter: u32) -> Seq<char> {
    convert::alternative_of(c.plan.base@, counter as nat, c.plan.extension@)
}

/// `d` goes on with making the output, whose name is settled.
pub open spec fn opens(name: Seq<char>, d: Conversion, a: Action) -> bool {
    d.stage == Stage::Source && a is Open && d.name@ == name
}

/// `d` and `a` are what follows where the output with the plain name is there or
/// not: the source is not taken for an output.
pub open spec fn after_output(
    c: Conversion,
    exists: bool,
    is_source: bool,
    d: Conversion,
    a: Action,
) -> bool {
    if exists && !is_source && c.skip_existing {
        d.stage == Stage::Existing && a is Measure && a->Measure_0@ == c.name@
    } else if exists && (is_source || c.plan.renumber) {
        d.stage == Stage::Name(1) && a is Look && a->Look_0@ == numbered_output(c, 1)
    } else {
        opens(c.name@, d, a)
    }
}

/// `d` and `a` are what follows where the name with a number is taken or not.
pub open spec fn after_name(
    c: Conversion,
    counter: u32,
    exists: bool,
    is_source: bool,
    d: Conversion,
    a: Action,
) -> bool {
    if !exists {
        opens(numbered_output(c, counter), d, a)
    } else if !is_source && c.skip_existing {
        d.stage == Stage::Existing && a is Measure && a->Measure_0@ == numbered_output(c, counter)
    } else if counter < LAST_COUNTER {
        let next = (counter + 1) as u32;
        d.stage == Stage::Name(next) && a is Look && a->Look_0@ == numbered_output(c, next)
    } else {
        d.stage == Stage::Over && gives_up(
            a,
            "Too many files with the same name in output folder"@,
        )
    }
}

/// `d` and `a` are what follows where the resolution of the source is found good
/// enough.
pub open spec fn after_resolution(c: Conversion, d: Conversion, a: Action) -> bool {
    if c.plan.check_savings {
        d.stage == Stage::Savings && a is JudgeSavings
    } else {
        d.stage == Stage::Cancel && a is AskCancel
    }
}

/// `d` and `a` are what follows where the output could not be made: what there is
/// of it is removed, unless it was not begun.
pub open spec fn after_failure(
    c: Conversion,
    route: Route,
    at: FailedAt,
    e: Seq<char>,
    d: Conversion,
    a: Action,
) -> bool {
    &&& d.stage == Stage::Over
    &&& if convert::discards(route, at) {
        a is Discard && a->Discard_0@ == c.name@ && a->Discard_1@ == e
    } else {
        gives_up(a, e)
    }
}

/// `d` and `a` are what follows where the conversion was called off or not.
pub open spec fn after_cancel(c: Conversion, cancelled: bool, d: Conversion, a: Action) -> bool {
    if cancelled {
        d.stage == Stage::Over && gives_up(a, "Cancelled"@)
    } else {
        match convert::route_of(c.device@, c.plan.is_pdf, c.max_image_dim) {
            Ok(route) => d.stage == Stage::Making(route) && a is Make && a->Make_0 == route && a->Make_1@
                == c.name@,
            Err(e) => d.stage == Stage::Over && gives_up(a, e),
        }
    }
}

/// `d` and `a` are what follows when an event comes.
pub open spec fn follows(c: Conversion, event: Event, d: Conversion, a: Action) -> bool {
    match (c.stage, event) {
        (Stage::Output, Event::Exists(exists, is_source)) => after_output(
            c,
            exists,
            is_source,
            d,
            a,
        ),
        (Stage::Name(counter), Event::Exists(exists, is_source)) => after_name(
            c,
            counter,
            exists,
            is_source,
            d,
            a,
        ),
        (Stage::Existing, Event::Sizes(path, output_bytes, input_bytes)) => {
            &&& d.stage == Stage::Over
            &&& a is Finish && a->Finish_0 is Ok
            &&& says_existing(c, path@, output_bytes, input_bytes, a->Finish_0->Ok_0)
        },
        (Stage::Source, Event::Bytes(n)) => {
            &&& d.input_bytes == n
            &&& if c.plan.is_pdf {
                d.stage == Stage::Cancel && a is AskCancel
            } else {
                d.stage == Stage::Resolution && a is JudgeResolution
            }
        },
        (Stage::Resolution, Event::Resolution(Some(_))) => d.stage == Stage::Pages && a is MeasurePages,
        (Stage::Resolution, Event::Resolution(None)) => after_resolution(c, d, a),
        (Stage::Pages, Event::PageSizes(sizes)) => match quality::pages_verdict(
            sizes@,
            c.min_resolution,
            c.plan.split,
        ) {
            Some(page) => d.stage == Stage::Over && skips(c, convert::low_res_text(page), a),
            None => after_resolution(c, d, a),
        },
        (Stage::Savings, Event::Savings(Some(reason))) => d.stage == Stage::Over && skips(
            c,
            reason@,
            a,
        ),
        (Stage::Savings, Event::Savings(None)) => d.stage == Stage::Cancel && a is AskCancel,
        (Stage::Cancel, Event::Cancelled(cancelled)) => after_cancel(c, cancelled, d, a),
        (Stage::Making(_), Event::Made) => d.stage == Stage::Closing && a is Close && a->Close_0@
            == c.name@,
        (Stage::Making(_), Event::TooSmall(page)) => d.stage == Stage::Over && skips(
            c,
            convert::low_res_text(page),
            a,
        ),
        (Stage::Making(route), Event::Failed(at, e)) => after_failure(c, route, at, e@, d, a),
        (Stage::Closing, Event::Closed(path, output_bytes, elapsed)) => {
            &&& d.stage == Stage::Over
            &&& a is Finish && a->Finish_0 is Ok
            &&& says_made(c, path@, output_bytes, elapsed@, a->Finish_0->Ok_0)
        },
        _ => false,
    }
}

/// Whether two moments belong to one conversion: what was set out to do is the
/// same, and so are the name of the output and the size of the source, unless
/// they are just being settled.
pub open spec fn same_conversion(c: Conversion, d: Conversion) -> bool {
    &&& d.plan == c.plan
    &&& d.device == c.device
    &&& d.input_path == c.input_path
    &&& d.skip_existing == c.skip_existing
    &&& d.min_resolution == c.min_resolution
    &&& d.max_image_dim == c.max_image_dim
    &&& c.stage is Name || d.name == c.name
    &&& c.stage is Source || d.input_bytes == c.input_bytes
}

impl Conversion {
    /// A number that is being tried is one of those that may be.
    pub open spec fn valid(&self) -> bool {
        self.stage matches Stage::Name(counter) ==> 1 <= counter <= LAST_COUNTER
    }

    /// Sets out: `stem` and `extension` are the name of the source and its
    /// extension. The first thing to look for is the output.
    pub fn start(options: &ConvertOptions, stem: &str, extension: &str) -> (r: (Self, Action))
        ensures
            r.0.valid(),
            convert::is_plan_for(*options, stem@, extension@, r.0.plan),
            r.0.device@ == options.device@,
            r.0.input_path@ == options.input_path@,
            r.0.skip_existing == options.skip_existing,
            r.0.min_resolution == options.min_resolution,
            r.0.max_image_dim == options.max_image_dim,
            r.0.name@ == convert::output_of(r.0.plan.base@, r.0.plan.extension@),
            r.0.stage == Stage::Output,
            r.1 is Look && r.1->Look_0@ == r.0.name@,
    {
        let plan = plan_conversion(options, stem, extension);
        let name = output_name(plan.base.as_str(), plan.extension);
        let first = Action::Look(name.clone());
        (
            Conversion {
                plan,
                device: options.device.clone(),
                input_path: options.input_path.clone(),
                skip_existing: options.skip_existing,
                min_resolution: options.min_resolution,
                max_image_dim: options.max_image_dim,
                name,
                input_bytes: 0,
                stage: Stage::Output,
            },
            first,
        )
    }

    fn look(&mut self, counter: u32) -> (a: Action)
        requires
            1 <= counter <= LAST_COUNTER,
            old(self).stage is Output || old(self).stage is Name,
        ensures
            final(self).valid(),
            same_conversion(*old(self), *final(self)),
            final(self).stage == Stage::Name(counter),
            a is Look && a->Look_0@ == numbered_output(*old(self), counter),
    {
        self.stage = Stage::Name(counter);
        Action::Look(alternative_name(self.plan.base.as_str(), counter, self.plan.extension))
    }

    fn give_up(&mut self, e: String) -> (a: Action)
        ensures
            final(self).valid(),
            same_conversion(*old(self), *final(self)),
            final(self).stage == Stage::Over,
            gives_up(a, e@),
    {
        self.stage = Stage::Over;
        Action::Finish(Err(e))
    }

    fn skip(&mut self, reason: String) -> (a: Action)
        ensures
            final(self).valid(),
            same_conversion(*old(self), *final(self)),
            final(self).stage == Stage::Over,
            skips(*old(self), reason@, a),
    {
        self.stage = Stage::Over;
        let message = skip_message(reason.as_str());
        Action::Skip(
            message,
            skipped_result(
                self.input_path.as_str(),
                self.input_bytes,
                self.plan.title.as_str(),
                reason.as_str(),
            ),
        )
    }

    fn ask_cancel(&mut self) -> (a: Action)
        ensures
            final(self).valid(),
            same_conversion(*old(self), *final(self)),
            final(self).stage == Stage::Cancel,
            a is AskCancel,
    {
        self.stage = Stage::Cancel;
        Action::AskCancel
    }

    fn make(&mut self) -> (a: Action)
        requires
            old(self).stage is Cancel,
        ensures
            final(self).valid(),
            same_conversion(*old(self), *final(self)),
            after_cancel(*old(self), false, *final(self), a),
    {
        match choose_route(self.device.as_str(), self.plan.is_pdf, self.max_image_dim) {
            Ok(route) => {
                self.stage = Stage::Making(route);
                Action::Make(route, self.name.clone())
            },
            Err(e) => self.give_up(e),
        }
    }

    fn name_answer(&mut self, counter: u32, exists: bool, is_source: bool) -> (a: Action)
        requires
            old(self).stage == Stage::Name(counter),
            old(self).valid(),
        ensures
            final(self).valid(),
            same_conversion(*old(self), *final(self)),
            after_name(*old(self), counter, exists, is_source, *final(self), a),
    {
        if exists && !is_source && self.skip_existing {
            self.stage = Stage::Existing;
            return Action::Measure(
                alternative_name(self.plan.base.as_str(), counter, self.plan.extension),
            );
        }
        match name_step(counter, exists) {
            NameStep::Take => {
                self.name = alternative_name(
                    self.plan.base.as_str(),
                    counter,
                    self.plan.extension,
                );
                self.stage = Stage::Source;
                Action::Open
            },
            NameStep::Try(next) => self.look(next),
            NameStep::Fail(e) => self.give_up(e),
        }
    }

    fn pass_resolution(&mut self) -> (a: Action)
        ensures
            final(self).valid(),
            same_conversion(*old(self), *final(self)),
            after_resolution(*old(self), *final(self), a),
    {
        if self.plan.check_savings {
            self.stage = Stage::Savings;
            Action::JudgeSavings
        } else {
            self.ask_cancel()
        }
    }

    fn fail(&mut self, route: Route, at: FailedAt, e: String) -> (a: Action)
        requires
            old(self).stage == Stage::Making(route),
        ensures
            final(self).valid(),
            same_conversion(*old(self), *final(self)),
            after_failure(*old(self), route, at, e@, *final(self), a),
    {
        if discards_output(route, at) {
            self.stage = Stage::Over;
            Action::Discard(self.name.clone(), e)
        } else {
            self.give_up(e)
        }
    }

    /// Takes what came of the last action and says what to do next.
    pub fn answer(&mut self, event: Event) -> (a: Action)
        requires
            old(self).valid(),
            awaits(old(self).stage, event),
        ensures
            final(self).valid(),
            same_conversion(*old(self), *final(self)),
            follows(*old(self), event, *final(self), a),
    {
        match event {
            Event::Exists(exists, is_source) => match self.stage {
                Stage::Name(counter) => self.name_answer(counter, exists, is_source),
                _ => {
                    if exists && !is_source && self.skip_existing {
                        self.stage = Stage::Existing;
                        Action::Measure(self.name.clone())
                    } else if exists && (is_source || self.plan.renumber) {
                        self.look(1)
                    } else {
                        self.stage = Stage::Source;
                        Action::Open
                    }
                },
            },
            Event::Sizes(path, output_bytes, input_bytes) => {
                self.stage = Stage::Over;
                Action::Finish(
                    Ok(
                        existing_result(
                            path.as_str(),
                            output_bytes,
                            input_bytes,
                            self.plan.title.as_str(),
                        ),
                    ),
                )
            },
            Event::Bytes(n) => {
                self.input_bytes = n;
                if self.plan.is_pdf {
                    self.stage = Stage::Cancel;
                    Action::AskCancel
                } else {
                    self.stage = Stage::Resolution;
                    Action::JudgeResolution
                }
            },
            Event::Resolution(page) => match page {
                Some(_) => {
                    self.stage = Stage::Pages;
                    Action::MeasurePages
                },
                None => self.pass_resolution(),
            },
            Event::PageSizes(sizes) => match judge_pages(
                &sizes,
                self.min_resolution,
                self.plan.split,
            ) {
                Some(page) => self.skip(low_res_reason(page)),
                None => self.pass_resolution(),
            },
            Event::Savings(reason) => match reason {
                Some(reason) => self.skip(reason),
                None => self.ask_cancel(),
            },
            Event::Cancelled(cancelled) => {
                if cancelled {
                    self.give_up("Cancelled".to_owned())
                } else {
                    self.make()
                }
            },
            Event::Made => {
                self.stage = Stage::Closing;
                Action::Close(self.name.clone())
            },
            Event::TooSmall(page) => self.skip(low_res_reason(page)),
            Event::Failed(at, e) => match self.stage {
                Stage::Making(route) => self.fail(route, at, e),
                _ => self.give_up(e),
            },
            Event::Closed(path, output_bytes, elapsed) => {
                self.stage = Stage::Over;
                Action::Finish(
                    Ok(
                        finished_result(
                            path.as_str(),
                            output_bytes,
                            self.input_bytes,
                            self.plan.title.as_str(),
                            elapsed.as_str(),
                        ),
                    ),
                )
            },
        }
    }
}

// ---------------------------------------------------------------------------
// Laws of a conversion
// ---------------------------------------------------------------------------

/// How many answers a conversion can still take.
pub open spec fn answers_left(stage: Stage) -> int {
    match stage {
        Stage::Output => LAST_COUNTER + 9,
        Stage::Name(counter) => LAST_COUNTER - counter + 8,
        Stage::Source => 7,
        Stage::Resolution => 6,
        Stage::Pages => 5,
        Stage::Savings => 4,
        Stage::Cancel => 3,
        Stage::Making(_) => 2,
        Stage::Closing => 1,
        Stage::Existing => 1,
        Stage::Over => 0,
    }
}

/// Every conversion comes to an end, and gives a result there.
pub proof fn conversions_end(c: Conversion, event: Event, d: Conversion, a: Action)
    requires
        c.valid(),
        d.valid(),
        follows(c, event, d, a),
    ensures
        0 <= answers_left(d.stage) < answers_left(c.stage),
        d.stage is Over <==> a is Finish || a is Skip || a is Discard,
{
}

/// Making a smaller file never takes a name that is in use: the name is settled
/// only when a look at just that name found no file.
pub proof fn smaller_files_get_free_names(c: Conversion, event: Event, d: Conversion, a: Action)
    requires
        follows(c, event, d, a),
        c.plan.renumber,
        d.stage == Stage::Source,
    ensures
        event matches Event::Exists(exists, _) && !exists,
        c.stage is Output || c.stage is Name,
        c.stage is Output ==> d.name@ == c.name@,
        c.stage matches Stage::Name(counter) ==> d.name@ == numbered_output(c, counter),
{
}

/// The name that a conversion looks for.
pub open spec fn looks_for(c: Conversion) -> Option<Seq<char>> {
    match c.stage {
        Stage::Output => Some(c.name@),
        Stage::Name(counter) => Some(numbered_output(c, counter)),
        _ => None,
    }
}

/// Whether the caller tells the source, which has this name in the output folder,
/// from other files.
pub open spec fn tells_source(c: Conversion, event: Event, source: Seq<char>) -> bool {
    looks_for(c) == Some(source) ==> event == Event::Exists(true, true)
}

/// Whether the name of the output is settled and the conversion goes on with it.
pub open spec fn is_settled(stage: Stage) -> bool {
    !(stage is Output || stage is Name || stage is Existing || stage is Over)
}

/// Whether a conversion from one moment to the next goes as it should.
pub open spec fn is_step(step: (Conversion, Event, Conversion, Action)) -> bool {
    follows(step.0, step.1, step.2, step.3) && same_conversion(step.0, step.2)
}

/// Whether steps make up a conversion from its start on.
pub open spec fn is_run(steps: Seq<(Conversion, Event, Conversion, Action)>) -> bool {
    &&& steps.len() > 0 ==> steps[0].0.stage == Stage::Output
    &&& forall|i: int| 0 <= i < steps.len() ==> is_step(#[trigger] steps[i])
    &&& forall|i: int| 0 < i < steps.len() ==> (#[trigger] steps[i]).0 == steps[i - 1].2
}

/// Whether an action writes or removes the file of a name in the output folder.
pub open spec fn touches(a: Action, name: Seq<char>) -> bool {
    match a {
        Action::Make(_, output) => output@ == name,
        Action::Discard(output, _) => output@ == name,
        _ => false,
    }
}

/// The source is never written over and never removed, even where it lies in the
/// output folder under the very name that the output would have.
pub proof fn sources_are_left_alone(
    steps: Seq<(Conversion, Event, Conversion, Action)>,
    source: Seq<char>,
    i: int,
)
    requires
        is_run(steps),
        forall|k: int|
            0 <= k < steps.len() ==> tells_source((#[trigger] steps[k]).0, steps[k].1, source),
        0 <= i < steps.len(),
    ensures
        !touches(steps[i].3, source),
        is_settled(steps[i].2.stage) ==> steps[i].2.name@ != source,
    decreases i,
{
    assert(is_step(steps[i]));
    assert(tells_source(steps[i].0, steps[i].1, source));
    if i > 0 {
        sources_are_left_alone(steps, source, i - 1);
        assert(steps[i].0 == steps[i - 1].2);
    }
}

/// An output that is there already is left alone where that is wanted: nothing
/// is made, and the answer says so.
pub proof fn existing_output_is_left_alone(
    c: Conversion,
    d: Conversion,
    a: Action,
    path: String,
    output_bytes: usize,
    input_bytes: usize,
    e: Conversion,
    b: Action,
)
    requires
        c.stage == Stage::Output,
        c.skip_existing,
        follows(c, Event::Exists(true, false), d, a),
        same_conversion(c, d),
        follows(d, Event::Sizes(path, output_bytes, input_bytes), e, b),
    ensures
        e.stage == Stage::Over,
        b is Finish && b->Finish_0 is Ok,
        b->Finish_0->Ok_0.skipped && b->Finish_0->Ok_0.skip_reason@ == "exists"@,
{
}

/// A conversion that was called off before the output is made makes none.
pub proof fn cancelled_conversions_make_nothing(c: Conversion, d: Conversion, a: Action)
    requires
        c.stage == Stage::Cancel,
        follows(c, Event::Cancelled(true), d, a),
    ensures
        d.stage == Stage::Over,
        gives_up(a, "Cancelled"@),
{
}

/// An output is made only when every check that the plan asks for has let the
/// source pass: the step before asks whether the conversion was called off, and
/// that question comes only after the verdicts.
pub proof fn outputs_are_made_after_the_checks(c: Conversion, event: Event, d: Conversion, a: Action)
    requires
        follows(c, event, d, a),
    ensures
        a is Make ==> c.stage == Stage::Cancel && event == Event::Cancelled(false),
        d.stage == Stage::Cancel ==> {
            ||| c.stage == Stage::Source && c.plan.is_pdf
            ||| passes_resolution(c, event) && !c.plan.check_savings
            ||| c.stage == Stage::Savings && event == Event::Savings(None)
        },
        d.stage == Stage::Savings ==> passes_resolution(c, event),
{
}

/// Whether an event says that some page of the source is large enough, or that
/// nothing is known against it.
pub open spec fn passes_resolution(c: Conversion, event: Event) -> bool {
    match (c.stage, event) {
        (Stage::Resolution, Event::Resolution(page)) => page is None,
        (Stage::Pages, Event::PageSizes(sizes)) => quality::pages_verdict(
            sizes@,
            c.min_resolution,
            c.plan.split,
        ) is None,
        _ => false,
    }
}

/// A source with a page that is large enough is not skipped for its resolution
/// before the output is made, whatever its other pages are.
pub proof fn sources_with_large_pages_go_on(
    c: Conversion,
    sizes: Vec<Option<(u32, u32)>>,
    d: Conversion,
    a: Action,
    i: int,
)
    requires
        c.stage == Stage::Pages,
        0 <= i < sizes@.len(),
        quality::low_resolution(sizes@[i], c.min_resolution, c.plan.split) is None,
        follows(c, Event::PageSizes(sizes), d, a),
    ensures
        a is JudgeSavings || a is AskCancel,
{
    assert(sizes@.len() == sizes.len());
    quality::small_sources_have_only_small_pages(sizes@, c.min_resolution, c.plan.split);
}

/// A name is settled where it is the one that was looked for and there is no file of that
/// name, or one that may be replaced: not the source, where neither a smaller file is made
/// nor what is there is to be left alone.
pub proof fn settled_names_were_looked_for(c: Conversion, event: Event, d: Conversion, a: Action)
    requires
        follows(c, event, d, a),
    ensures
        d.stage == Stage::Source <==> a is Open,
        a is Open ==> looks_for(c) == Some(d.name@),
        a is Open ==> match event {
            Event::Exists(exists, is_source) => exists ==> !is_source && !c.plan.renumber
                && !c.skip_existing && c.stage is Output,
            _ => false,
        },
        c.stage is Output || c.stage is Name ==> (a is Open <== event matches Event::Exists(
            false,
            _,
        )),
        c.stage is Output && !c.plan.renumber && !c.skip_existing ==> (a is Open <== event
            == Event::Exists(true, false)),
{
}

/// Where a name cannot be taken the next number is looked for, from 1 on: behind the name
/// of the output stand a line and the number. `digits` are those of the number.
pub proof fn taken_names_lead_to_the_next_number(
    c: Conversion,
    event: Event,
    d: Conversion,
    a: Action,
) -> (digits: Seq<char>)
    requires
        c.valid(),
        follows(c, event, d, a),
    ensures
        a matches Action::Look(name) ==> {
            &&& name@ == c.plan.base@ + "_"@ + digits + "."@ + c.plan.extension@
            &&& natural::all_digits(digits)
            &&& natural::digits_value(digits) == (match c.stage {
                Stage::Name(counter) => counter + 1,
                _ => 1,
            })
            &&& looks_for(d) == Some(name@) || c.stage is Output || c.stage is Name
            &&& event matches Event::Exists(exists, _) && exists
        },
        c.stage is Output && event == Event::Exists(true, true) ==> a is Look,
        c.stage is Output && event == Event::Exists(true, false) && c.plan.renumber && !c.skip_existing
            ==> a is Look,
        c.stage matches Stage::Name(counter) ==> (counter < 9999 && (event == Event::Exists(true, true)
            || (event == Event::Exists(true, false) && !c.skip_existing)) ==> a is Look),
        c.stage matches Stage::Name(counter) ==> (counter == 9999 && event == Event::Exists(true, true)
            ==> gives_up(a, "Too many files with the same name in output folder"@)),
{
    let counter: nat = match c.stage {
        Stage::Name(counter) => (counter + 1) as nat,
        _ => 1,
    };
    names::lemma_decimal(counter);
    text::decimal(counter)
}

/// What is there already is measured just where it is to be left alone and is not the
/// source, and then nothing is made: the answer tells of it.
pub proof fn outputs_that_are_there_are_told_of(c: Conversion, event: Event, d: Conversion, a: Action)
    requires
        follows(c, event, d, a),
    ensures
        a is Measure <==> (c.stage is Output || c.stage is Name) && c.skip_existing && event
            == Event::Exists(true, false),
        a matches Action::Measure(name) ==> looks_for(c) == Some(name@) && d.stage is Existing,
        match (c.stage, event) {
            (Stage::Existing, Event::Sizes(path, output_bytes, input_bytes)) => match a {
                Action::Finish(Ok(r)) => {
                    &&& r.output_path@ == path@
                    &&& r.output_bytes == output_bytes
                    &&& r.input_bytes == input_bytes
                    &&& r.output_size@ == size::size_text(output_bytes as nat)
                    &&& r.input_size@ == size::size_text(input_bytes as nat)
                    &&& r.title@ == c.plan.title@
                    &&& r.elapsed@ == "0.0s"@
                    &&& r.skipped && r.skip_reason@ == "exists"@
                },
                _ => false,
            },
            _ => true,
        },
{
}

/// The size of the source is noted, and a PDF file goes on at once where an archive is
/// judged first: by its resolution, and by the savings where a smaller file is made.
pub proof fn archives_are_judged_first(c: Conversion, event: Event, d: Conversion, a: Action)
    requires
        follows(c, event, d, a),
    ensures
        match (c.stage, event) {
            (Stage::Source, Event::Bytes(n)) => {
                &&& d.input_bytes == n
                &&& c.plan.is_pdf ==> a is AskCancel && d.stage is Cancel
                &&& !c.plan.is_pdf ==> a is JudgeResolution && d.stage is Resolution
            },
            (Stage::Resolution, Event::Resolution(Some(_))) => a is MeasurePages && d.stage is Pages,
            (Stage::Resolution, Event::Resolution(None)) => {
                &&& c.plan.check_savings ==> a is JudgeSavings && d.stage is Savings
                &&& !c.plan.check_savings ==> a is AskCancel && d.stage is Cancel
            },
            (Stage::Savings, Event::Savings(None)) => a is AskCancel && d.stage is Cancel,
            _ => true,
        },
{
}

/// Whether an action skips the source for a reason and says so in its result, which points
/// at the source.
pub open spec fn tells_of_skipping(c: Conversion, reason: Seq<char>, a: Action) -> bool {
    match a {
        Action::Skip(message, r) => {
            &&& message@ == "Skipped: "@ + reason
            &&& r.output_path@ == c.input_path@
            &&& r.output_bytes == 0
            &&& r.output_size@.len() == 0
            &&& r.input_bytes == c.input_bytes
            &&& r.input_size@ == size::size_text(c.input_bytes as nat)
            &&& r.title@ == c.plan.title@
            &&& r.elapsed@ == "0.0s"@
            &&& r.skipped && r.skip_reason@ == reason
        },
        _ => false,
    }
}

/// A source is skipped where all its pages are too small, where it is compact, or where
/// what was rendered of it is too small, and for no other reason.
pub proof fn sources_are_skipped_for_a_reason(c: Conversion, event: Event, d: Conversion, a: Action)
    requires
        follows(c, event, d, a),
    ensures
        match (c.stage, event) {
            (Stage::Pages, Event::PageSizes(sizes)) => {
                let small = sizes@.len() > 0 && forall|i: int|
                    0 <= i < sizes@.len() ==> quality::low_resolution(
                        #[trigger] sizes@[i],
                        c.min_resolution,
                        c.plan.split,
                    ) is Some;
                &&& a is Skip <==> small
                &&& small ==> match quality::low_resolution(
                    sizes@[sizes@.len() as int / 2],
                    c.min_resolution,
                    c.plan.split,
                ) {
                    Some(page) => tells_of_skipping(c, convert::low_res_text(page), a),
                    None => false,
                }
            },
            (Stage::Savings, Event::Savings(Some(reason))) => tells_of_skipping(c, reason@, a),
            (Stage::Making(_), Event::TooSmall(page)) => tells_of_skipping(
                c,
                convert::low_res_text(page),
                a,
            ),
            _ => a !is Skip,
        },
        a is Skip ==> d.stage is Over,
{
    if let Event::PageSizes(sizes) = event {
        assert(sizes@.len() == sizes.len());
        quality::small_sources_have_only_small_pages(sizes@, c.min_resolution, c.plan.split);
    }
}

/// The output is made on the route for the device, under the name that was settled, unless
/// the conversion was called off or there is no such route.
pub proof fn outputs_are_made_on_their_route(c: Conversion, cancelled: bool, d: Conversion, a: Action)
    requires
        c.stage == Stage::Cancel,
        follows(c, Event::Cancelled(cancelled), d, a),
    ensures
        a is Make <==> !cancelled && convert::route_of(c.device@, c.plan.is_pdf, c.max_image_dim) is Ok,
        a matches Action::Make(route, name) ==> {
            &&& name@ == c.name@
            &&& convert::route_of(c.device@, c.plan.is_pdf, c.max_image_dim) == Ok::<Route, Seq<char>>(
                route,
            )
            &&& d.stage == Stage::Making(route)
        },
        cancelled ==> gives_up(a, "Cancelled"@),
        a !is Make ==> d.stage is Over && a is Finish && a->Finish_0 is Err,
{
}

/// What was made is told of: its path and size, the size of the source, the title, and the
/// time that it took. A failure is handed on, and what there is of the output is removed
/// where it was begun.
pub proof fn outputs_that_were_made_are_told_of(c: Conversion, event: Event, d: Conversion, a: Action)
    requires
        follows(c, event, d, a),
    ensures
        match (c.stage, event) {
            (Stage::Making(_), Event::Made) => d.stage is Closing && match a {
                Action::Close(name) => name@ == c.name@,
                _ => false,
            },
            (Stage::Making(route), Event::Failed(at, e)) => match a {
                Action::Discard(name, error) => {
                    &&& at is Making || route is ShrinkPdf || route is ArchiveToCbz
                    &&& name@ == c.name@ && error@ == e@
                },
                Action::Finish(Err(error)) => {
                    &&& at is Preparing && route !is ShrinkPdf && route !is ArchiveToCbz
                    &&& error@ == e@
                },
                _ => false,
            },
            (Stage::Closing, Event::Closed(path, output_bytes, elapsed)) => match a {
                Action::Finish(Ok(r)) => {
                    &&& r.output_path@ == path@
                    &&& r.output_bytes == output_bytes
                    &&& r.output_size@ == size::size_text(output_bytes as nat)
                    &&& r.input_bytes == c.input_bytes
                    &&& r.input_size@ == size::size_text(c.input_bytes as nat)
                    &&& r.title@ == c.plan.title@
                    &&& r.elapsed@ == elapsed@
                    &&& !r.skipped && r.skip_reason@.len() == 0
                },
                _ => false,
            },
            _ => a !is Close && a !is Discard,
        },
{
}

/// From its start to its end a conversion keeps to what it set out to do, and to the name
/// and the size once they are settled.
pub proof fn conversions_keep_to_their_options(
    steps: Seq<(Conversion, Event, Conversion, Action)>,
    i: int,
)
    requires
        is_run(steps),
        0 <= i < steps.len(),
    ensures
        steps[i].2.plan == steps[0].0.plan,
        steps[i].2.device == steps[0].0.device,
        steps[i].2.input_path == steps[0].0.input_path,
        steps[i].2.skip_existing == steps[0].0.skip_existing,
        steps[i].2.min_resolution == steps[0].0.min_resolution,
        steps[i].2.max_image_dim == steps[0].0.max_image_dim,
        is_settled(steps[i].0.stage) ==> steps[i].2.name == steps[i].0.name,
        is_settled(steps[i].0.stage) && steps[i].0.stage != Stage::Source ==> steps[i].2.input_bytes
            == steps[i].0.input_bytes,
    decreases i,
{
    assert(is_step(steps[i]));
    if i > 0 {
        conversions_keep_to_their_options(steps, i - 1);
        assert(steps[i].0 == steps[i - 1].2);
    }
}

} // verus!
