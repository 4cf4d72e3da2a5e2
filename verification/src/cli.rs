//! The commands, and the decisions and wording behind them.
//!
//! Reading the command line, the disk, the clock and the repository happens
//! around this module; what it is handed is plain text and numbers.

use vstd::prelude::*;

use crate::differ::{diff, diff_of, rate_labeller, rate_text, spans_fit};
use crate::git_backend::Entry;
use crate::model::{Frames, Project};
use crate::render::{line_views, render, render_lines, summarize, summary, time_labeller, time_text};
use crate::keys::{insert_key, key_set, strs};
use crate::text::{chars_of, decimal, decimal_string, owned, push_char, str_same, string_from_range, trim, trimmed};

verus! {

/// What to do, as the command line asked for it.
pub enum Command {
    /// Watch a project and commit every save.
    Watch { path: String },
    /// Show the history, newest first.
    Log { path: String, limit: Option<usize>, full: bool },
    /// Describe what changed between two points in history.
    Diff { path: String, rev1: Option<String>, rev2: Option<String> },
    /// Restore the project to an earlier revision.
    Restore { path: String, rev: String, yes: bool },
    /// Create a branch from the current state, or list branches.
    Branch { path: String, name: Option<String> },
    /// Switch to a branch, restoring the project to its state.
    Checkout { path: String, name: String },
}

/// A parsed command line.
pub struct Cli {
    pub command: Command,
}

// ---------------------------------------------------------------------------
// Time since a commit.

/// Seconds between `then` and `now`, as `saturating_sub` and `max(0)` give
/// them for `i64`s.
pub open spec fn elapsed_seconds(now: i64, then: i64) -> int {
    let d = now - then;
    if d <= 0 {
        0
    } else if d > i64::MAX {
        i64::MAX as int
    } else {
        d
    }
}

/// `text` right-aligned in `width` characters, as `{:>width}` writes it.
pub open spec fn right_aligned(text: Seq<char>, width: nat) -> Seq<char> {
    if text.len() >= width {
        text
    } else {
        Seq::new((width - text.len()) as nat, |i: int| ' ') + text
    }
}

/// The age of a commit in words: `just now` under a minute, else whole
/// minutes, hours, days or months (of thirty days) and `ago`.
pub open spec fn age_words(elapsed: int) -> Seq<char> {
    if elapsed < 60 {
        "just now"@
    } else {
        let (value, unit) = if elapsed < 3600 {
            (elapsed / 60, "minute"@)
        } else if elapsed < 86_400 {
            (elapsed / 3600, "hour"@)
        } else if elapsed < 2_592_000 {
            (elapsed / 86_400, "day"@)
        } else {
            (elapsed / 2_592_000, "month"@)
        };
        decimal(value as nat) + " "@ + unit + (if value == 1 {
            Seq::empty()
        } else {
            "s"@
        }) + " ago"@
    }
}

/// How long before `now` the time `then` was, right-aligned in twelve
/// columns so that the log lines up.
pub open spec fn relative_time_text(now: i64, then: i64) -> Seq<char> {
    right_aligned(age_words(elapsed_seconds(now, then)), 12)
}

fn align_right(text: String, width: usize) -> (r: String)
    ensures
        r@ == right_aligned(text@, width as nat),
{
    let n = text.as_str().unicode_len();
    if n >= width {
        return text;
    }
    let mut r = String::new();
    let mut i: usize = 0;
    while i < width - n
        invariant
            n < width,
            i <= width - n,
            r@ == Seq::new(i as nat, |k: int| ' '),
        decreases width - n - i,
    {
        push_char(&mut r, ' ');
        assert(r@ =~= Seq::new((i + 1) as nat, |k: int| ' '));
        i = i + 1;
    }
    r.append(text.as_str());
    r
}

/// Commit times read better as "20 minutes ago" than as a date when you are
/// looking for the save you made a moment ago. `now` is the current time and
/// `then` the commit's, both in seconds since the epoch.
pub fn relative_time_at(now: i64, then: i64) -> (r: String)
    ensures
        r@ == relative_time_text(now, then),
{
    let elapsed: i64 = match now.checked_sub(then) {
        Some(d) => if d < 0 {
            0
        } else {
            d
        },
        None => if then < 0 {
            i64::MAX
        } else {
            0
        },
    };
    assert(elapsed == elapsed_seconds(now, then));
    if elapsed < 60 {
        return align_right(owned("just now"), 12);
    }
    let (value, unit): (i64, &str) = if elapsed < 3600 {
        (elapsed / 60, "minute")
    } else if elapsed < 86_400 {
        (elapsed / 3600, "hour")
    } else if elapsed < 2_592_000 {
        (elapsed / 86_400, "day")
    } else {
        (elapsed / 2_592_000, "month")
    };
    let mut words = decimal_string(value as u64);
    words.append(" ");
    words.append(unit);
    if value != 1 {
        words.append("s");
    }
    words.append(" ago");
    let ghost expected = age_words(elapsed as int);
    assert(words@ =~= expected);
    align_right(words, 12)
}

// ---------------------------------------------------------------------------
// Paths.

/// The last component of a path, as `Path::file_name` finds it, when there
/// is one: no name for a root, an empty path, or one ending in `..`.
pub uninterp spec fn file_name_text(path: Seq<char>) -> Option<Seq<char>>;

/// `Path::file_name` of a path given as text. Claimed: the result is
/// `file_name_text(path)`, a function of the text alone.
#[verifier::external_body]
pub(crate) fn file_name_of(path: &str) -> (r: Option<String>)
    ensures
        match r {
            Some(n) => file_name_text(path@) == Some(n@),
            None => file_name_text(path@) is None,
        },
{
    std::path::Path::new(path).file_name().map(|n| n.to_string_lossy().into_owned())
}

/// The name to call a project by: its file name, or the whole path when
/// it has none.
pub open spec fn display_name_text(path: Seq<char>) -> Seq<char> {
    match file_name_text(path) {
        Some(n) => n,
        None => path,
    }
}

pub fn display_name(file: &str) -> (r: String)
    ensures
        r@ == display_name_text(file@),
{
    match file_name_of(file) {
        Some(n) => n,
        None => owned(file),
    }
}

/// `names` joined by `sep`.
pub open spec fn joined(names: Seq<Seq<char>>, sep: Seq<char>) -> Seq<char>
    decreases names.len(),
{
    if names.len() == 0 {
        Seq::empty()
    } else if names.len() == 1 {
        names[0]
    } else {
        joined(names.drop_last(), sep) + sep + names.last()
    }
}

pub open spec fn texts(v: Seq<String>) -> Seq<Seq<char>> {
    v.map_values(|s: String| s@)
}

/// Joins `names` with `sep` between them, as `join` does.
pub fn join(names: &Vec<String>, sep: &str) -> (r: String)
    ensures
        r@ == joined(texts(names@), sep@),
{
    let ghost t = texts(names@);
    let mut r = String::new();
    let mut i: usize = 0;
    assert(t.take(0) =~= Seq::<Seq<char>>::empty());
    while i < names.len()
        invariant
            t == texts(names@),
            i <= names.len(),
            r@ == joined(t.take(i as int), sep@),
        decreases names.len() - i,
    {
        assert(t.take(i + 1).drop_last() =~= t.take(i as int));
        assert(t.take(i + 1).last() == names@[i as int]@);
        if i > 0 {
            r.append(sep);
        } else {
            assert(t.take(1)[0] == names@[0]@);
        }
        r.append(names[i].as_str());
        i = i + 1;
    }
    assert(t.take(names.len() as int) =~= t);
    r
}

/// What finding the `.kdenlive` files in `dir` comes to: fine when there is
/// exactly one, else a message saying there are none or naming them all.
pub open spec fn found_projects(dir: Seq<char>, names: Seq<Seq<char>>, count: nat) -> Result<(), Seq<char>> {
    if count == 0 {
        Err("no .kdenlive file in "@ + dir + ". Pass the project file with -C <path>"@)
    } else if count == 1 {
        Ok(())
    } else {
        Err(dir + " holds several projects ("@ + joined(names, ", "@) + "). Pass one with -C <path>"@)
    }
}

/// Decides on the project files found in a directory. `count` is how many
/// were found and `names` their file names, in path order.
pub fn check_found(dir: &str, names: &Vec<String>, count: usize) -> (r: Result<(), String>)
    ensures
        match r {
            Ok(()) => found_projects(dir@, texts(names@), count as nat) == Ok::<(), Seq<char>>(()),
            Err(m) => found_projects(dir@, texts(names@), count as nat) == Err::<(), Seq<char>>(m@),
        },
{
    if count == 0 {
        let mut m = owned("no .kdenlive file in ");
        m.append(dir);
        m.append(". Pass the project file with -C <path>");
        Err(m)
    } else if count == 1 {
        Ok(())
    } else {
        let mut m = owned(dir);
        m.append(" holds several projects (");
        m.append(join(names, ", ").as_str());
        m.append("). Pass one with -C <path>");
        Err(m)
    }
}

/// Whether file name `name` has the extension `kdenlive`, as
/// `Path::extension` reads one: the part after the last dot, where a dot
/// that begins the name does not count.
pub open spec fn is_project_name(name: Seq<char>) -> bool {
    name.len() > 9 && name.skip(name.len() - 9) == ".kdenlive"@
}

/// Whether `name` is the file name of a project file.
pub fn has_project_extension(name: &str) -> (r: bool)
    ensures
        r == is_project_name(name@),
{
    let v = chars_of(name);
    if v.len() <= 9 {
        return false;
    }
    let tail = string_from_range(&v, v.len() - 9, v.len());
    assert(tail@ =~= name@.skip(name@.len() - 9));
    str_same(tail.as_str(), ".kdenlive")
}

/// The project files among the file names `names`, in the order listed.
pub open spec fn project_files(names: Seq<Seq<char>>) -> Seq<Seq<char>>
    decreases names.len(),
{
    if names.len() == 0 {
        Seq::empty()
    } else if is_project_name(names.last()) {
        project_files(names.drop_last()).push(names.last())
    } else {
        project_files(names.drop_last())
    }
}

/// Which project file of directory `dir` to open, given the names of the
/// files in it: the project files in name order, as sorting their paths
/// gives them (a directory lists no name twice), and then the one there
/// is, or the message [`found_projects`] gives.
pub open spec fn picked_project(dir: Seq<char>, names: Seq<Seq<char>>) -> Result<Seq<char>, Seq<char>> {
    let found = key_set(project_files(names));
    match found_projects(dir, found, found.len()) {
        Ok(_) => Ok(found[0]),
        Err(m) => Err(m),
    }
}

/// Picks the project file to open among the files of directory `dir`,
/// `names` being their file names.
pub fn pick_project(dir: &str, names: &Vec<String>) -> (r: Result<String, String>)
    ensures
        match r {
            Ok(n) => picked_project(dir@, texts(names@)) == Ok::<Seq<char>, Seq<char>>(n@),
            Err(m) => picked_project(dir@, texts(names@)) == Err::<Seq<char>, Seq<char>>(m@),
        },
{
    let ghost t = texts(names@);
    let mut found: Vec<String> = Vec::new();
    let mut i: usize = 0;
    assert(t.take(0) =~= Seq::<Seq<char>>::empty());
    while i < names.len()
        invariant
            t == texts(names@),
            i <= names.len(),
            strs(found@) == key_set(project_files(t.take(i as int))),
        decreases names.len() - i,
    {
        assert(t.take(i + 1).drop_last() =~= t.take(i as int));
        assert(t.take(i + 1).last() == names@[i as int]@);
        let ghost prev = project_files(t.take(i as int));
        if has_project_extension(names[i].as_str()) {
            insert_key(&mut found, names[i].as_str());
            assert(prev.push(names@[i as int]@).drop_last() =~= prev);
        }
        i = i + 1;
    }
    assert(t.take(names.len() as int) =~= t);
    assert(texts(found@) =~= strs(found@));
    match check_found(dir, &found, found.len()) {
        Ok(()) => {
            assert(strs(found@)[0] == found@[0]@);
            Ok(owned(found[0].as_str()))
        },
        Err(m) => Err(m),
    }
}

/// A whole number of seconds as a clock reads it: `H:MM:SS` from an hour
/// on, `M:SS` below.
pub open spec fn clock(secs: nat) -> Seq<char> {
    let (h, m, s) = (secs / 3600, (secs % 3600) / 60, secs % 60);
    if h > 0 {
        decimal(h) + ":"@ + two_digits(m) + ":"@ + two_digits(s)
    } else {
        decimal(m) + ":"@ + two_digits(s)
    }
}

/// A number below a hundred with at least two digits.
pub open spec fn two_digits(n: nat) -> Seq<char> {
    if n < 10 {
        "0"@ + decimal(n)
    } else {
        decimal(n)
    }
}

fn two_digit_string(n: u64) -> (r: String)
    ensures
        r@ == two_digits(n as nat),
{
    let mut r = String::new();
    if n < 10 {
        r.append("0");
    }
    let d = decimal_string(n);
    r.append(d.as_str());
    r
}

/// Renders `secs` seconds as a duration is read off a timeline.
pub fn clock_text(secs: u64) -> (r: String)
    ensures
        r@ == clock(secs as nat),
{
    let (h, m, s) = (secs / 3600, (secs % 3600) / 60, secs % 60);
    let mut r = String::new();
    if h > 0 {
        let hs = decimal_string(h);
        r.append(hs.as_str());
        r.append(":");
        let ms = two_digit_string(m);
        r.append(ms.as_str());
    } else {
        let ms = decimal_string(m);
        r.append(ms.as_str());
    }
    r.append(":");
    let ss = two_digit_string(s);
    r.append(ss.as_str());
    r
}

// ---------------------------------------------------------------------------
// Which saves to compare.

/// The two revisions `diff` compares: both as given; one given and its
/// parent; or, with none given, the two newest saves, `recent` being the
/// ids of the newest saves, newest first.
pub open spec fn compared_revisions(
    rev1: Option<Seq<char>>,
    rev2: Option<Seq<char>>,
    recent: Seq<Seq<char>>,
) -> Result<(Seq<char>, Seq<char>), Seq<char>> {
    match rev1 {
        Some(a) => match rev2 {
            Some(b) => Ok((a, b)),
            None => Ok((a + "~1"@, a)),
        },
        None => if recent.len() == 0 {
            Err("no history yet. Run 'cutback watch' and save in Kdenlive"@)
        } else if recent.len() == 1 {
            Err("only one save recorded so far, nothing to compare it against"@)
        } else {
            Ok((recent[1], recent[0]))
        },
    }
}

pub open spec fn opt_text(o: Option<String>) -> Option<Seq<char>> {
    match o {
        Some(s) => Some(s@),
        None => None,
    }
}

pub fn revisions_to_compare(rev1: Option<String>, rev2: Option<String>, recent: &Vec<String>) -> (r: Result<
    (String, String),
    String,
>)
    ensures
        match r {
            Ok((a, b)) => compared_revisions(opt_text(rev1), opt_text(rev2), texts(recent@)) == Ok::<
                (Seq<char>, Seq<char>),
                Seq<char>,
            >((a@, b@)),
            Err(m) => compared_revisions(opt_text(rev1), opt_text(rev2), texts(recent@)) == Err::<
                (Seq<char>, Seq<char>),
                Seq<char>,
            >(m@),
        },
{
    match rev1 {
        Some(a) => match rev2 {
            Some(b) => Ok((a, b)),
            None => {
                let mut from = a.clone();
                from.append("~1");
                Ok((from, a))
            },
        },
        None => if recent.len() == 0 {
            Err(owned("no history yet. Run 'cutback watch' and save in Kdenlive"))
        } else if recent.len() == 1 {
            Err(owned("only one save recorded so far, nothing to compare it against"))
        } else {
            Ok((recent[1].clone(), recent[0].clone()))
        },
    }
}

// ---------------------------------------------------------------------------
// Wording.

/// `s` in lower case, as `str::to_lowercase` gives it; Unicode's case
/// tables decide it.
pub uninterp spec fn lowercase_text(s: Seq<char>) -> Seq<char>;

/// `str::to_lowercase`. Claimed: the result is `lowercase_text(s)`.
#[verifier::external_body]
fn lowercase(s: &str) -> (r: String)
    ensures
        r@ == lowercase_text(s@),
{
    s.to_lowercase()
}

/// An answer to a yes/no question is yes when, trimmed and in lower case,
/// it is `y` or `yes`.
pub open spec fn says_yes(answer: Seq<char>) -> bool {
    let a = lowercase_text(trimmed(answer));
    a == "y"@ || a == "yes"@
}

pub fn is_yes(answer: &str) -> (r: bool)
    ensures
        r == says_yes(answer@),
{
    let a = lowercase(trim(answer).as_str());
    str_same(a.as_str(), "y") || str_same(a.as_str(), "yes")
}

/// A line of the branch list: `*` before the current branch.
pub open spec fn branch_line_text(name: Seq<char>, current: Seq<char>) -> Seq<char> {
    (if name == current {
        "*"@
    } else {
        " "@
    }) + " "@ + name
}

pub fn branch_line(name: &str, current: &str) -> (r: String)
    ensures
        r@ == branch_line_text(name@, current@),
{
    let mut r = if str_same(name, current) {
        owned("*")
    } else {
        owned(" ")
    };
    r.append(" ");
    r.append(name);
    r
}

/// A line of the log: short id, age and subject, two spaces apart.
pub open spec fn log_line_text(short_id: Seq<char>, when: Seq<char>, subject: Seq<char>) -> Seq<char> {
    short_id + "  "@ + when + "  "@ + subject
}

pub fn log_line(entry: &Entry, when: &str) -> (r: String)
    ensures
        r@ == log_line_text(entry.short_id@, when@, entry.subject@),
{
    let mut r = entry.short_id.clone();
    r.append("  ");
    r.append(when);
    r.append("  ");
    r.append(entry.subject.as_str());
    r
}

// ---------------------------------------------------------------------------
// Recording a save.

/// What a save is recorded as: the commit's subject and body, and the lines
/// to print.
pub struct SaveRecord {
    pub subject: String,
    pub body: String,
    pub lines: Vec<String>,
}

/// Decides what a save from `previous` to `current` is recorded as. A save
/// that changed nothing is not recorded, since Kdenlive rewrites the whole
/// file on every save. Otherwise the subject is the one line summary and
/// the body the change lines, one per line.
pub fn describe_save<R: Fn(u32, u32) -> String, F: Fn(Frames) -> String>(
    previous: &Project,
    current: &Project,
    rate: &R,
    at: &F,
) -> (r: Option<SaveRecord>)
    requires
        rate_labeller(*rate),
        time_labeller(*at),
        spans_fit(*previous),
        spans_fit(*current),
    ensures
        r is None <==> diff_of(*previous, *current, |n: u32, d: u32| rate_text(*rate, n, d)).is_empty(),
        r matches Some(s) ==> {
            let lines = render_lines(
                diff_of(*previous, *current, |n: u32, d: u32| rate_text(*rate, n, d)),
                |f: Frames| time_text(*at, f),
            );
            &&& line_views(s.lines@) == lines
            &&& s.subject@ == summary(lines)
            &&& s.body@ == joined(lines, "\n"@)
        },
{
    let changes = diff(previous, current, rate);
    if changes.is_empty() {
        return None;
    }
    let lines = render(&changes, at);
    let subject = summarize(&changes, at);
    let body = join(&lines, "\n");
    assert(texts(lines@) == line_views(lines@));
    Some(SaveRecord { subject, body, lines })
}

/// What the edits made while nothing was watching come to, from the last
/// recorded state `recorded` to the file as it is now: recorded like any
/// save, the subject saying that they were made while cutback was not
/// running; nothing when there are none.
pub fn describe_catch_up<R: Fn(u32, u32) -> String, F: Fn(Frames) -> String>(
    recorded: &Project,
    current: &Project,
    rate: &R,
    at: &F,
) -> (r: Option<SaveRecord>)
    requires
        rate_labeller(*rate),
        time_labeller(*at),
        spans_fit(*recorded),
        spans_fit(*current),
    ensures
        r is None <==> diff_of(*recorded, *current, |n: u32, d: u32| rate_text(*rate, n, d)).is_empty(),
        r matches Some(s) ==> {
            let lines = render_lines(
                diff_of(*recorded, *current, |n: u32, d: u32| rate_text(*rate, n, d)),
                |f: Frames| time_text(*at, f),
            );
            &&& line_views(s.lines@) == lines
            &&& s.subject@ == summary(lines) + " (edited while cutback was not running)"@
            &&& s.body@ == joined(lines, "\n"@)
        },
{
    match describe_save(recorded, current, rate, at) {
        None => None,
        Some(record) => {
            let mut subject = record.subject;
            subject.append(" (edited while cutback was not running)");
            Some(SaveRecord { subject, body: record.body, lines: record.lines })
        },
    }
}

} // verus!
