//! What the store writes into and reads out of commit messages.
//!
//! The history lives in a git repository in a `.cutback` directory beside
//! the project, an ordinary repository any git tool can read. A commit's
//! message is a one line subject, then a blank line and the change list
//! when there is one.

use vstd::prelude::*;

use crate::text::{chars_of, is_white, leading_white, lemma_leading_white_le, owned, string_from_range, trim, trimmed};

verus! {

/// Where the history lives, beside the project file.
pub const STORE_DIR: &'static str = ".cutback";

/// One commit of the history.
#[derive(Debug)]
pub struct Entry {
    pub id: String,
    pub short_id: String,
    pub subject: String,
    pub body: String,
    pub seconds_since_epoch: i64,
}

/// The message of a commit with `subject` and `body`.
pub open spec fn message_text(subject: Seq<char>, body: Seq<char>) -> Seq<char> {
    if body.len() == 0 {
        subject
    } else {
        subject + "\n\n"@ + body
    }
}

/// The first position at or after `i` where a blank line starts: two line
/// feeds in a row.
pub open spec fn blank_line_at(s: Seq<char>, i: int) -> Option<int>
    decreases s.len() - i,
{
    if i < 0 || i + 1 >= s.len() {
        None
    } else if s[i] == '\n' && s[i + 1] == '\n' {
        Some(i)
    } else {
        blank_line_at(s, i + 1)
    }
}

/// A message's subject and body: what comes before and after its first
/// blank line, each trimmed; with no blank line, the whole message trimmed
/// and no body.
pub open spec fn split_message(m: Seq<char>) -> (Seq<char>, Seq<char>) {
    match blank_line_at(m, 0) {
        Some(i) => (trimmed(m.take(i)), trimmed(m.skip(i + 2))),
        None => (trimmed(m), Seq::empty()),
    }
}

/// The message a commit is made with.
pub fn commit_message(subject: &str, body: &str) -> (r: String)
    ensures
        r@ == message_text(subject@, body@),
{
    if body.unicode_len() == 0 {
        owned(subject)
    } else {
        let mut r = owned(subject);
        r.append("\n\n");
        r.append(body);
        r
    }
}

fn first_blank_line(v: &Vec<char>) -> (r: Option<usize>)
    ensures
        r matches Some(i) ==> blank_line_at(v@, 0) == Some(i as int) && i + 2 <= v.len(),
        r is None ==> blank_line_at(v@, 0) is None,
{
    let mut i: usize = 0;
    while i < v.len() && i + 1 < v.len()
        invariant
            i <= v.len(),
            blank_line_at(v@, 0) == blank_line_at(v@, i as int),
        decreases v.len() - i,
    {
        if v[i] == '\n' && v[i + 1] == '\n' {
            return Some(i);
        }
        i = i + 1;
    }
    None
}

/// Reads an entry from a commit's id, message and time. The short id is
/// the first seven characters of the id.
pub fn entry_from(id: &str, message: &str, seconds_since_epoch: i64) -> (r: Entry)
    requires
        id@.len() >= 7,
    ensures
        r.id@ == id@,
        r.short_id@ == id@.take(7),
        (r.subject@, r.body@) == split_message(message@),
        r.seconds_since_epoch == seconds_since_epoch,
{
    let v = chars_of(message);
    let (subject, body) = match first_blank_line(&v) {
        Some(i) => {
            let head = string_from_range(&v, 0, i);
            let tail = string_from_range(&v, i + 2, v.len());
            assert(v@.subrange(0, i as int) =~= message@.take(i as int));
            assert(v@.subrange(i + 2, v.len() as int) =~= message@.skip(i + 2));
            (trim(head.as_str()), trim(tail.as_str()))
        },
        None => (trim(message), String::new()),
    };
    let idv = chars_of(id);
    let short_id = string_from_range(&idv, 0, 7);
    assert(idv@.subrange(0, 7) =~= id@.take(7));
    Entry { id: owned(id), short_id, subject, body, seconds_since_epoch }
}

/// Where a restore writes before renaming over the project: a hidden file
/// beside it, named after it (`project` when the name is not text).
pub open spec fn temp_name_text(file_name: Option<Seq<char>>) -> Seq<char> {
    match file_name {
        Some(n) => "."@ + n + ".cutback-tmp"@,
        None => ".project.cutback-tmp"@,
    }
}

pub fn temp_name(file_name: Option<&str>) -> (r: String)
    ensures
        r@ == temp_name_text(
            match file_name {
                Some(n) => Some(n@),
                None => None,
            },
        ),
{
    match file_name {
        Some(n) => {
            let mut r = owned(".");
            r.append(n);
            r.append(".cutback-tmp");
            r
        },
        None => owned(".project.cutback-tmp"),
    }
}

// ---------------------------------------------------------------------------
// A message read back gives what it was written from.

proof fn lemma_trimmed_ends(s: Seq<char>)
    requires
        trimmed(s) == s,
        s.len() > 0,
    ensures
        !is_white(s.last()),
{
    lemma_leading_white_le(s);
    let front = s.skip(leading_white(s) as int);
    lemma_leading_white_le(front.reverse());
    if is_white(s.last()) {
        if front.len() > 0 {
            assert(front.last() == s.last());
            assert(front.reverse()[0] == front.last());
            assert(leading_white(front.reverse()) >= 1);
        }
        assert(trimmed(s).len() < s.len());
    }
}

proof fn lemma_no_blank_line(s: Seq<char>, i: int)
    requires
        0 <= i,
        forall|k: int| 0 <= k < s.len() - 1 ==> !(s[k] == '\n' && #[trigger] s[k + 1] == '\n'),
    ensures
        blank_line_at(s, i) is None,
    decreases s.len() - i,
{
    if i + 1 < s.len() {
        assert(!(s[i] == '\n' && s[i + 1] == '\n'));
        lemma_no_blank_line(s, i + 1);
    }
}

proof fn lemma_blank_line_after(s: Seq<char>, b: Seq<char>, i: int)
    requires
        0 <= i <= s.len(),
        s.len() == 0 || s.last() != '\n',
        forall|k: int| 0 <= k < s.len() - 1 ==> !(s[k] == '\n' && #[trigger] s[k + 1] == '\n'),
    ensures
        blank_line_at(s + "\n\n"@ + b, i) == Some(s.len() as int),
    decreases s.len() - i,
{
    let m = s + "\n\n"@ + b;
    reveal_strlit("\n\n");
    assert(m[s.len() as int] == '\n');
    assert(m[s.len() as int + 1] == '\n');
    if i < s.len() {
        if i + 1 < s.len() {
            assert(m[i] == s[i] && m[i + 1] == s[i + 1]);
            assert(!(s[i] == '\n' && s[i + 1] == '\n'));
        } else {
            assert(m[i] == s.last());
        }
        lemma_blank_line_after(s, b, i + 1);
    }
}

/// Reading back the message a commit was made with gives its subject and
/// body again, when both are already trimmed and the subject holds no blank
/// line.
pub proof fn message_round_trip(subject: Seq<char>, body: Seq<char>)
    requires
        trimmed(subject) == subject,
        trimmed(body) == body,
        forall|k: int| 0 <= k < subject.len() - 1 ==> !(subject[k] == '\n' && #[trigger] subject[k + 1] == '\n'),
    ensures
        split_message(message_text(subject, body)) == (subject, body),
{
    if body.len() == 0 {
        lemma_no_blank_line(subject, 0);
    } else {
        if subject.len() > 0 {
            lemma_trimmed_ends(subject);
        }
        lemma_blank_line_after(subject, body, 0);
        let m = subject + "\n\n"@ + body;
        reveal_strlit("\n\n");
        assert(m.take(subject.len() as int) =~= subject);
        assert(m.skip(subject.len() as int + 2) =~= body);
    }
}

} // verus!
