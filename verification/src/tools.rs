//! Outside programs: where they are looked for, how a running one is watched,
//! and in which order renderers are tried.

use crate::listing::page_name;
use crate::listing;
use crate::order::{Ranks, sorted_positions};
use crate::order;
use crate::text::{chars_of, join, join3, same_text, split_lines, trim_text};
use crate::text;
use vstd::prelude::*;

verus! {

// ---------------------------------------------------------------------------
// Finding programs
// ---------------------------------------------------------------------------

/// Where `unrar` is looked for, in this order.
pub open spec fn unrar_places(windows: bool) -> Seq<Seq<char>> {
    if windows {
        seq![
            "C:\\Program Files\\WinRAR\\UnRAR.exe"@,
            "C:\\Program Files (x86)\\WinRAR\\UnRAR.exe"@,
            "unrar.exe"@,
        ]
    } else {
        seq![
            "/usr/local/bin/unrar"@,
            "/opt/homebrew/bin/unrar"@,
            "/usr/bin/unrar"@,
            "unrar"@,
        ]
    }
}

/// Where `unrar` is looked for, in this order.
pub fn unrar_candidates(windows: bool) -> (r: Vec<String>)
    ensures
        text::texts(r@) == unrar_places(windows),
{
    let mut r: Vec<String> = Vec::new();
    if windows {
        r.push("C:\\Program Files\\WinRAR\\UnRAR.exe".to_owned());
        r.push("C:\\Program Files (x86)\\WinRAR\\UnRAR.exe".to_owned());
        r.push("unrar.exe".to_owned());
    } else {
        r.push("/usr/local/bin/unrar".to_owned());
        r.push("/opt/homebrew/bin/unrar".to_owned());
        r.push("/usr/bin/unrar".to_owned());
        r.push("unrar".to_owned());
    }
    assert(text::texts(r@) =~= unrar_places(windows));
    r
}

/// The names under which `unrar` may stand beside this program on Windows.
pub fn bundled_unrar_names() -> (r: Vec<String>)
    ensures
        text::texts(r@) == seq!["UnRAR.exe"@, "unrar.exe"@],
{
    let mut r: Vec<String> = Vec::new();
    r.push("UnRAR.exe".to_owned());
    r.push("unrar.exe".to_owned());
    assert(text::texts(r@) =~= seq!["UnRAR.exe"@, "unrar.exe"@]);
    r
}

/// Where a tool is looked for, in this order.
pub fn tool_candidates(tool: &str) -> (r: Vec<String>)
    ensures
        text::texts(r@) == seq!["/opt/homebrew/bin/"@ + tool@, "/usr/local/bin/"@ + tool@, tool@],
{
    let mut r: Vec<String> = Vec::new();
    r.push(join("/opt/homebrew/bin/", tool));
    r.push(join("/usr/local/bin/", tool));
    r.push(tool.to_owned());
    assert(text::texts(r@) =~= seq!["/opt/homebrew/bin/"@ + tool@, "/usr/local/bin/"@ + tool@, tool@]);
    r
}

/// The names under which a tool may stand beside this program on Windows: one
/// without a dot also with the ending of a program.
pub fn bundled_tool_names(base: &str) -> (r: Vec<String>)
    ensures
        text::texts(r@) == (if base@.contains('.') {
            seq![base@]
        } else {
            seq![base@, base@ + ".exe"@]
        }),
{
    let chars = chars_of(base);
    let mut dot: bool = false;
    let mut i: usize = 0;
    while i < chars.len()
        invariant
            i <= chars@.len(),
            chars@ == base@,
            dot <==> exists|k: int| 0 <= k < i && #[trigger] chars@[k] == '.',
        decreases chars.len() - i,
    {
        if chars[i] == '.' {
            dot = true;
        }
        i += 1;
    }
    let mut r: Vec<String> = Vec::new();
    r.push(base.to_owned());
    if dot {
        assert(text::texts(r@) =~= seq![base@]);
    } else {
        r.push(join(base, ".exe"));
        assert(text::texts(r@) =~= seq![base@, base@ + ".exe"@]);
    }
    r
}

/// Whether a candidate is the program that is looked for: a file that is there
/// at a full path, or a command that can be started.
pub fn is_found(absolute: bool, exists: bool, starts: bool) -> (r: bool)
    ensures
        r == ((absolute && exists) || starts),
{
    (absolute && exists) || starts
}

/// The first candidate that was found.
pub fn first_found(found: &Vec<bool>) -> (r: Option<usize>)
    ensures
        match r {
            Some(i) => i < found@.len() && found@[i as int] && forall|k: int|
                0 <= k < i ==> !#[trigger] found@[k],
            None => forall|k: int| 0 <= k < found@.len() ==> !#[trigger] found@[k],
        },
{
    let mut i: usize = 0;
    while i < found.len()
        invariant
            i <= found@.len(),
            forall|k: int| 0 <= k < i ==> !#[trigger] found@[k],
        decreases found.len() - i,
    {
        if found[i] {
            return Some(i);
        }
        i += 1;
    }
    None
}

// ---------------------------------------------------------------------------
// Watching a program
// ---------------------------------------------------------------------------

/// What is seen of a running program.
pub enum ChildState {
    Running,
    /// It has ended, successfully or not.
    Exited(bool),
    /// It cannot be watched.
    Lost(String),
}

/// What is done next about a running program.
pub enum ChildAction {
    /// Look again after a pause.
    Wait,
    /// End it, and report that the conversion was called off.
    Kill,
    /// Report how it ended.
    Report(Result<bool, String>),
}

/// The pause between two looks, in milliseconds.
pub const PAUSE: u64 = 100;

/// What is done next about a running program: a conversion that was called off
/// comes first.
pub fn child_step(cancelled: bool, state: ChildState, tool: &str) -> (r: ChildAction)
    ensures
        cancelled ==> r is Kill,
        !cancelled ==> match state {
            ChildState::Running => r is Wait,
            ChildState::Exited(success) => r is Report && r->Report_0 == Ok::<bool, String>(success),
            ChildState::Lost(e) => r is Report && r->Report_0 is Err && r->Report_0->Err_0@ == tool@
                + " failed: "@ + e@,
        },
{
    if cancelled {
        return ChildAction::Kill;
    }
    match state {
        ChildState::Running => ChildAction::Wait,
        ChildState::Exited(success) => ChildAction::Report(Ok(success)),
        ChildState::Lost(e) => ChildAction::Report(Err(join3(tool, " failed: ", e.as_str()))),
    }
}

// ---------------------------------------------------------------------------
// Rendering PDF files
// ---------------------------------------------------------------------------

/// A program that renders PDF files.
#[derive(Debug, Clone, Copy, PartialEq, Eq, Structural)]
pub enum Renderer {
    Mutool,
    Pdftoppm,
}

/// What came of trying a renderer.
pub enum Rendering {
    /// It is not there.
    Missing,
    /// It has ended, successfully or not.
    Ended(bool),
    /// It could not be run to its end.
    Stopped(String),
}

/// What is done next to render a file.
pub enum RenderAction {
    Try(Renderer),
    /// Collect what was rendered.
    Collect,
    Fail(String),
}

/// The first renderer that is tried.
pub fn first_renderer() -> (r: Renderer)
    ensures
        r == Renderer::Mutool,
{
    Renderer::Mutool
}

/// What is done after a renderer was tried: the next is tried where it is
/// missing or did not succeed.
pub fn after_rendering(tried: Renderer, came: Rendering) -> (r: RenderAction)
    ensures
        match came {
            Rendering::Ended(true) => r is Collect,
            Rendering::Stopped(e) => r is Fail && r->Fail_0@ == e@,
            _ => match tried {
                Renderer::Mutool => r is Try && r->Try_0 == Renderer::Pdftoppm,
                Renderer::Pdftoppm => r is Fail && r->Fail_0@
                    == "No PDF renderer found — install mupdf-tools or poppler"@,
            },
        },
{
    match came {
        Rendering::Ended(true) => RenderAction::Collect,
        Rendering::Stopped(e) => RenderAction::Fail(e),
        _ => match tried {
            Renderer::Mutool => RenderAction::Try(Renderer::Pdftoppm),
            Renderer::Pdftoppm => RenderAction::Fail(
                "No PDF renderer found — install mupdf-tools or poppler".to_owned(),
            ),
        },
    }
}

/// The name of a renderer.
pub fn renderer_name(renderer: Renderer) -> (r: &'static str)
    ensures
        r@ == (match renderer {
            Renderer::Mutool => "mutool"@,
            Renderer::Pdftoppm => "pdftoppm"@,
        }),
{
    match renderer {
        Renderer::Mutool => "mutool",
        Renderer::Pdftoppm => "pdftoppm",
    }
}

// ---------------------------------------------------------------------------
// Listings of RAR archives
// ---------------------------------------------------------------------------

/// The texts that end like a picture.
pub open spec fn page_lines(list: Seq<Seq<char>>) -> Seq<Seq<char>> {
    list.filter(|line: Seq<char>| listing::is_page_name(line))
}

/// The lines of a listing that name pictures, in the order of the archive.
pub fn listed_images(listing: &str) -> (r: Vec<String>)
    ensures
        text::texts(r@) == page_lines(text::lines(listing@)),
{
    let all = split_lines(listing);
    let ghost t = text::texts(all@);
    let mut r: Vec<String> = Vec::new();
    let mut i: usize = 0;
    assert(t.take(0) =~= seq![]);
    proof {
        reveal(Seq::filter);
        assert(text::texts(r@) =~= page_lines(t.take(0)));
    }
    while i < all.len()
        invariant
            i <= all@.len(),
            t == text::texts(all@),
            text::texts(r@) == page_lines(t.take(i as int)),
        decreases all.len() - i,
    {
        proof {
            reveal(Seq::filter);
            assert(t.take(i + 1).drop_last() =~= t.take(i as int));
            assert(t.take(i + 1).last() == t[i as int]);
        }
        if page_name(all[i].as_str()) {
            let line = all[i].clone();
            proof {
                text::lemma_texts_push(r@, line);
            }
            r.push(line);
        }
        i += 1;
    }
    assert(t.take(i as int) =~= t);
    r
}

/// The place of a name in a listing: the last one where it stands more than
/// once, and behind all others where it does not stand at all.
pub open spec fn listed_rank(listed: Seq<Seq<char>>, name: Seq<char>) -> usize
    decreases listed.len(),
{
    if listed.len() == 0 {
        usize::MAX
    } else if listed.last() == name {
        (listed.len() - 1) as usize
    } else {
        listed_rank(listed.drop_last(), name)
    }
}

/// The places of names in a listing.
pub open spec fn listed_ranks(listed: Seq<Seq<char>>, names: Seq<Seq<char>>) -> Seq<usize> {
    names.map_values(|name: Seq<char>| listed_rank(listed, name))
}

/// Whether `order` lists every position once, by rank, equal ranks as they stand.
pub open spec fn is_rank_order(ranks: Seq<usize>, order: Seq<usize>) -> bool {
    &&& order.to_multiset() == order::positions(0, ranks.len() as int).to_multiset()
    &&& forall|x: int, y: int|
        #![trigger order[x], order[y]]
        0 <= x < y < order.len() ==> order::rank_before(ranks, order[x] as int, order[y] as int)
}

fn rank_of(listed: &Vec<String>, name: &str) -> (r: usize)
    ensures
        r == listed_rank(text::texts(listed@), name@),
{
    let ghost t = text::texts(listed@);
    let mut n: usize = listed.len();
    assert(t.take(n as int) =~= t);
    while n > 0
        invariant
            n <= listed@.len(),
            t == text::texts(listed@),
            listed_rank(t.take(n as int), name@) == listed_rank(t, name@),
        decreases n,
    {
        assert(t.take(n as int).last() == t[n - 1]);
        if same_text(listed[n - 1].as_str(), name) {
            return n - 1;
        }
        assert(t.take(n as int).drop_last() =~= t.take(n - 1));
        n -= 1;
    }
    usize::MAX
}

/// The positions of unpacked pages in the order in which the archive lists
/// their names; pages that it does not list come last.
pub fn order_by_listing(listed: &Vec<String>, names: &Vec<String>) -> (order: Vec<usize>)
    ensures
        is_rank_order(listed_ranks(text::texts(listed@), text::texts(names@)), order@),
        order@.len() == names@.len(),
        forall|x: int| 0 <= x < order@.len() ==> #[trigger] order@[x] < names@.len(),
{
    let ghost want = listed_ranks(text::texts(listed@), text::texts(names@));
    let mut ranks: Vec<usize> = Vec::new();
    let mut i: usize = 0;
    while i < names.len()
        invariant
            i <= names@.len(),
            want == listed_ranks(text::texts(listed@), text::texts(names@)),
            ranks@ == want.take(i as int),
        decreases names.len() - i,
    {
        ranks.push(rank_of(listed, names[i].as_str()));
        assert(ranks@ =~= want.take(i + 1));
        i += 1;
    }
    assert(ranks@ =~= want);
    let table = Ranks { ranks: &ranks };
    let order = sorted_positions(&table, names.len());
    assert forall|x: int, y: int| 0 <= x < y < order@.len() implies order::rank_before(
        want,
        (#[trigger] order@[x]) as int,
        (#[trigger] order@[y]) as int,
    ) by {
        assert(order::IndexOrder::before(&table, order@[x] as int, order@[y] as int));
    }
    order
}

proof fn lemma_listed_rank(listed: Seq<Seq<char>>, name: Seq<char>)
    requires
        listed.contains(name),
        listed.len() <= usize::MAX,
    ensures
        listed_rank(listed, name) < listed.len(),
        listed[listed_rank(listed, name) as int] == name,
    decreases listed.len(),
{
    if listed.last() != name {
        let k = choose|k: int| 0 <= k < listed.len() && listed[k] == name;
        assert(listed.drop_last()[k] == name);
        lemma_listed_rank(listed.drop_last(), name);
    }
}

proof fn lemma_at_least(f: Seq<usize>, x: int)
    requires
        0 <= x < f.len(),
        forall|a: int, b: int| 0 <= a < b < f.len() ==> #[trigger] f[a] < #[trigger] f[b],
    ensures
        f[x] >= x,
    decreases x,
{
    if x > 0 {
        lemma_at_least(f, x - 1);
        assert(f[x - 1] < f[x]);
    }
}

proof fn lemma_at_most(f: Seq<usize>, x: int)
    requires
        0 <= x < f.len(),
        forall|a: int, b: int| 0 <= a < b < f.len() ==> #[trigger] f[a] < #[trigger] f[b],
        forall|a: int| 0 <= a < f.len() ==> #[trigger] f[a] < f.len(),
    ensures
        f[x] <= x,
    decreases f.len() - x,
{
    if x < f.len() - 1 {
        lemma_at_most(f, x + 1);
        assert(f[x] < f[x + 1]);
    }
}

/// Unpacked pages that an archive lists, each once, come out in the order in
/// which it lists them.
pub proof fn listing_order_is_restored(
    listed: Seq<Seq<char>>,
    names: Seq<Seq<char>>,
    order: Seq<usize>,
)
    requires
        names.no_duplicates(),
        names.len() == listed.len() <= usize::MAX,
        forall|i: int| 0 <= i < names.len() ==> listed.contains(#[trigger] names[i]),
        is_rank_order(listed_ranks(listed, names), order),
    ensures
        order.map_values(|i: usize| names[i as int]) == listed,
{
    let ranks = listed_ranks(listed, names);
    order::lemma_listed_once(order, names);
    order::lemma_within(order, 0, names.len() as int);
    let f = order.map_values(|i: usize| ranks[i as int]);
    assert forall|a: int| 0 <= a < f.len() implies #[trigger] f[a] < f.len() && listed[f[a] as int]
        == names[order[a] as int] by {
        lemma_listed_rank(listed, names[order[a] as int]);
    }
    assert forall|a: int, b: int| 0 <= a < b < f.len() implies #[trigger] f[a] < #[trigger] f[b] by {
        assert(order::rank_before(ranks, order[a] as int, order[b] as int));
        if f[a] == f[b] {
            assert(names[order[a] as int] == names[order[b] as int]);
        }
    }
    assert forall|x: int| 0 <= x < order.len() implies names[(#[trigger] order[x]) as int]
        == listed[x] by {
        lemma_at_least(f, x);
        lemma_at_most(f, x);
        assert(f[x] == x);
    }
    assert(order.map_values(|i: usize| names[i as int]) =~= listed);
}

/// What came of running `unrar`.
pub enum UnrarRun {
    /// It could not be started.
    NotStarted(String),
    /// It has ended, successfully or not, and printed this.
    Ended(bool, String),
}

/// What is done after `unrar` ran.
pub enum UnrarAction {
    /// Run it once more, and keep what it prints.
    Retry,
    /// Collect what was unpacked.
    Collect,
    Fail(String),
}

/// What is done after `unrar` ran: where it fails quietly it is run once more, to
/// see what it complains about.
pub fn after_unrar(retried: bool, run: UnrarRun) -> (r: UnrarAction)
    ensures
        match run {
            UnrarRun::NotStarted(e) => r is Fail && r->Fail_0@ == "Failed to run unrar: "@ + e@,
            UnrarRun::Ended(true, _) => r is Collect,
            UnrarRun::Ended(false, printed) => if retried {
                r is Fail && r->Fail_0@ == "unrar failed: "@ + text::trimmed(printed@)
            } else {
                r is Retry
            },
        },
{
    match run {
        UnrarRun::NotStarted(e) => UnrarAction::Fail(join("Failed to run unrar: ", e.as_str())),
        UnrarRun::Ended(success, printed) => {
            if success {
                UnrarAction::Collect
            } else if retried {
                UnrarAction::Fail(join("unrar failed: ", trim_text(printed.as_str()).as_str()))
            } else {
                UnrarAction::Retry
            }
        },
    }
}

/// Why an archive of a kind is not converted.
pub fn unsupported_archive(kind: &str) -> (s: String)
    ensures
        s@ == "Unsupported archive format: "@ + kind@,
{
    join("Unsupported archive format: ", kind)
}

// ---------------------------------------------------------------------------
// Laws of listings
// ---------------------------------------------------------------------------


/// The lines of two listings that name pictures are those of both together.
pub proof fn page_lines_follow_each_other(a: Seq<Seq<char>>, b: Seq<Seq<char>>)
    ensures
        page_lines(a + b) == page_lines(a) + page_lines(b),
    decreases b.len(),
{
    reveal(Seq::filter);
    if b.len() == 0 {
        assert(a + b =~= a);
        assert(page_lines(b) =~= seq![]);
        assert(page_lines(a) + seq![] =~= page_lines(a));
    } else {
        page_lines_follow_each_other(a, b.drop_last());
        assert((a + b).drop_last() =~= a + b.drop_last());
        assert((a + b).last() == b.last());
        assert(page_lines(a + b) =~= page_lines(a) + page_lines(b));
    }
}

/// A line alone is kept just where it ends like a picture.
pub proof fn a_line_is_kept_where_it_names_a_page(line: Seq<char>)
    ensures
        listing::is_page_name(line) ==> page_lines(seq![line]) == seq![line],
        !listing::is_page_name(line) ==> page_lines(seq![line]) == Seq::<Seq<char>>::empty(),
{
    reveal_with_fuel(Seq::filter, 2);
    assert(seq![line].drop_last() =~= seq![]);
    if listing::is_page_name(line) {
        assert(page_lines(seq![line]) =~= seq![line]);
    } else {
        assert(page_lines(seq![line]) =~= Seq::<Seq<char>>::empty());
    }
}

/// A name has the last of its places in a listing, and comes behind all places where it
/// has none.
pub proof fn names_have_their_last_place(listed: Seq<Seq<char>>, name: Seq<char>, i: int)
    requires
        listed.len() <= usize::MAX,
        0 <= i < listed.len(),
    ensures
        listed[i] == name ==> i <= listed_rank(listed, name) < listed.len(),
        listed_rank(listed, name) < listed.len() ==> listed[listed_rank(listed, name) as int] == name,
        !listed.contains(name) ==> listed_rank(listed, name) >= listed.len(),
    decreases listed.len(),
{
    let rest = listed.drop_last();
    if listed.last() != name {
        if rest.len() > 0 {
            let j = if i < rest.len() {
                i
            } else {
                0
            };
            names_have_their_last_place(rest, name, j);
            if rest.contains(name) {
                let k = choose|k: int| 0 <= k < rest.len() && rest[k] == name;
                assert(listed[k] == name);
                lemma_listed_rank(rest, name);
            } else {
                lemma_no_place(rest, name);
            }
        }
    } else {
        assert(listed[listed.len() - 1] == name);
    }
}

proof fn lemma_no_place(listed: Seq<Seq<char>>, name: Seq<char>)
    requires
        !listed.contains(name),
    ensures
        listed_rank(listed, name) == usize::MAX,
    decreases listed.len(),
{
    if listed.len() > 0 {
        assert(listed[listed.len() - 1] != name);
        assert(!listed.drop_last().contains(name)) by {
            if listed.drop_last().contains(name) {
                let k = choose|k: int| 0 <= k < listed.len() - 1 && listed.drop_last()[k] == name;
                assert(listed[k] == name);
            }
        }
        lemma_no_place(listed.drop_last(), name);
    }
}

/// Unpacked pages come in the order of their last places in the listing; those that it
/// does not list come last, as they stand. Every page comes once.
pub proof fn unlisted_pages_come_last(
    listed: Seq<Seq<char>>,
    names: Seq<Seq<char>>,
    order: Seq<usize>,
    x: int,
    y: int,
)
    requires
        names.len() <= usize::MAX,
        listed.len() < usize::MAX,
        is_rank_order(listed_ranks(listed, names), order),
        0 <= x < y < order.len(),
    ensures
        order.len() == names.len(),
        order[x] < names.len() && order[y] < names.len() && order[x] != order[y],
        listed.contains(names[order[y] as int]) ==> listed.contains(names[order[x] as int]),
        !listed.contains(names[order[x] as int]) ==> order[x] < order[y],
        forall|i: int, j: int|
            0 <= i < listed.len() && 0 <= j < listed.len() && #[trigger] listed[i]
                == names[order[x] as int] && #[trigger] listed[j] == names[order[y] as int] && (
            forall|k: int| i < k < listed.len() ==> #[trigger] listed[k] != listed[i]) ==> i <= j || (
            exists|k: int| j < k < listed.len() && #[trigger] listed[k] == listed[j]),
{
    let ranks = listed_ranks(listed, names);
    order::lemma_within(order, 0, names.len() as int);
    let (a, b) = (names[order[x] as int], names[order[y] as int]);
    assert(order::rank_before(ranks, order[x] as int, order[y] as int));
    if listed.contains(b) {
        lemma_listed_rank(listed, b);
        if !listed.contains(a) {
            lemma_no_place(listed, a);
        }
    }
    if !listed.contains(a) {
        lemma_no_place(listed, a);
        if listed.contains(b) {
            lemma_listed_rank(listed, b);
        } else {
            lemma_no_place(listed, b);
        }
    }
    assert forall|i: int, j: int|
        0 <= i < listed.len() && 0 <= j < listed.len() && #[trigger] listed[i] == a && #[trigger] listed[j]
            == b && (forall|k: int| i < k < listed.len() ==> #[trigger] listed[k] != listed[i]) implies i
        <= j || (exists|k: int| j < k < listed.len() && #[trigger] listed[k] == listed[j]) by {
        names_have_their_last_place(listed, a, i);
        names_have_their_last_place(listed, b, j);
        let k = listed_rank(listed, b) as int;
        let m = listed_rank(listed, a) as int;
        if m > i {
            assert(listed[m] != listed[i]);
        }
        if k > j {
            assert(listed[k] == listed[j]);
        }
    }
}

} // verus!
