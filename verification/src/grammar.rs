//! The grammar of a command line, and the parser that reads it.
//!
//! ```text
//! pipeline := command ("|" command)* ("&")?
//! command  := IDENT ARG* ("<" PATH)? (">" PATH)?
//! ```
//!
//! `IDENT` is a run of letters, `ARG` a run of anything but a space and the
//! four characters `&`, `<`, `>`, `|`. The `PATH` after `<` is a run of
//! anything but a space, `>` and `|`, the `PATH` after `>` a run of anything
//! but a space and `|`. A token is always the longest run that stands there,
//! and never empty.
//!
//! The line is trimmed first, of white space in Unicode's sense. Blanks (space,
//! tab, carriage return, line feed) may follow every token and are skipped.
//! The whole trimmed line has to be used up: a second redirection of the same
//! stream, a `|` without a command after it, or anything after `&` make a line
//! that is no pipeline.

use vstd::prelude::*;
use crate::command::{views, Command, CommandView, Status};
use crate::stdx::{StdX, StdXView};

verus! {

/// Whether Unicode counts `c` as alphabetic, as the standard library tells it.
pub uninterp spec fn alphabetic(c: char) -> bool;

/// Calls `char::is_alphabetic` of the standard library, which tells whether a
/// character has Unicode's property Alphabetic. Nothing is proved of it, and
/// the table behind it is not written out here: all that is claimed is that
/// the answer depends on the character alone, and the answer is given a name.
#[verifier::external_body]
fn is_alphabetic(c: char) -> (yes: bool)
    ensures
        yes == alphabetic(c),
{
    c.is_alphabetic()
}

/// The kinds of character runs that the grammar is made of.
#[derive(Debug, Clone, Copy, PartialEq, Eq, Structural)]
pub enum Class {
    /// White space between tokens: space, tab, carriage return, line feed.
    Blank,
    /// A character of a program name: a letter.
    Letter,
    /// A character of an argument: anything but a space, `&`, `<`, `>`, `|`.
    Word,
    /// A character of the path after `<`: anything but a space, `>`, `|`.
    Source,
    /// A character of the path after `>`: anything but a space and `|`.
    Target,
}

/// White space in Unicode's sense (the property White_Space): what trimming a
/// line removes from its two ends.
pub open spec fn space(c: char) -> bool {
    let u = c as u32;
    ||| 0x09 <= u <= 0x0d
    ||| u == 0x20
    ||| u == 0x85
    ||| u == 0xa0
    ||| u == 0x1680
    ||| 0x2000 <= u <= 0x200a
    ||| u == 0x2028
    ||| u == 0x2029
    ||| u == 0x202f
    ||| u == 0x205f
    ||| u == 0x3000
}

/// A letter: one of the 52 of ASCII, or a character beyond ASCII that Unicode
/// counts as alphabetic.
pub open spec fn letter(c: char) -> bool {
    ||| 'a' <= c <= 'z'
    ||| 'A' <= c <= 'Z'
    ||| (c as u32 >= 0x80 && alphabetic(c))
}

/// Whether `c` belongs to the class `k`.
pub open spec fn member(k: Class, c: char) -> bool {
    match k {
        Class::Blank => c == ' ' || c == '\t' || c == '\r' || c == '\n',
        Class::Letter => letter(c),
        Class::Word => !(c == ' ' || c == '&' || c == '<' || c == '>' || c == '|'),
        Class::Source => !(c == ' ' || c == '>' || c == '|'),
        Class::Target => !(c == ' ' || c == '|'),
    }
}

/// The length of the longest prefix of `t` whose characters all belong to `k`.
pub open spec fn span(t: Seq<char>, k: Class) -> nat
    decreases t.len(),
{
    if t.len() > 0 && member(k, t[0]) {
        1 + span(t.drop_first(), k)
    } else {
        0
    }
}

/// A run is a prefix: it is no longer than the text, all its characters belong
/// to the class, and the character after it, if there is one, does not.
pub proof fn lemma_span(t: Seq<char>, k: Class)
    ensures
        span(t, k) <= t.len(),
        forall|i: int| 0 <= i < span(t, k) ==> member(k, #[trigger] t[i]),
        span(t, k) < t.len() ==> !member(k, t[span(t, k) as int]),
    decreases t.len(),
{
    if t.len() > 0 && member(k, t[0]) {
        lemma_span(t.drop_first(), k);
        assert forall|i: int| 0 <= i < span(t, k) implies member(k, #[trigger] t[i]) by {
            if i > 0 {
                assert(t[i] == t.drop_first()[i - 1]);
            }
        }
        if span(t, k) < t.len() {
            assert(t[span(t, k) as int] == t.drop_first()[span(t.drop_first(), k) as int]);
        }
    }
}

/// `t` without the white space that it starts with.
pub open spec fn skip_blanks(t: Seq<char>) -> Seq<char> {
    t.skip(span(t, Class::Blank) as int)
}

/// `ARG*`: the arguments that `t` starts with, and what follows them. White
/// space after each argument is skipped.
pub open spec fn words(t: Seq<char>) -> (Seq<Seq<char>>, Seq<char>)
    decreases t.len(),
    via words_decreases
{
    let n = span(t, Class::Word);
    if n == 0 {
        (Seq::empty(), t)
    } else {
        let (more, rest) = words(skip_blanks(t.skip(n as int)));
        (seq![t.take(n as int)] + more, rest)
    }
}

/// What is left after an argument and the blanks behind it is shorter than
/// what the argument stood in.
#[via_fn]
proof fn words_decreases(t: Seq<char>) {
    lemma_span(t, Class::Word);
    let n = span(t, Class::Word);
    if n != 0 {
        lemma_span(t.skip(n as int), Class::Blank);
    }
}

/// `mark PATH`: if `t` starts with `mark` and a path of class `k` follows,
/// possibly after white space, the path and what follows it; white space after
/// the path is skipped.
pub open spec fn redirect(t: Seq<char>, mark: char, k: Class) -> Option<(Seq<char>, Seq<char>)> {
    if t.len() > 0 && t[0] == mark {
        let u = skip_blanks(t.skip(1));
        let n = span(u, k);
        if n == 0 {
            None
        } else {
            Some((u.take(n as int), skip_blanks(u.skip(n as int))))
        }
    } else {
        None
    }
}

/// `("<" PATH)?`: the standard input that `t` asks for, and what follows.
pub open spec fn source(t: Seq<char>) -> (StdXView, Seq<char>) {
    match redirect(t, '<', Class::Source) {
        Some((path, rest)) => (StdXView::Redirect(path), rest),
        None => (StdXView::StdIn, t),
    }
}

/// `(">" PATH)?`: the standard output that `t` asks for, and what follows.
pub open spec fn target(t: Seq<char>) -> (StdXView, Seq<char>) {
    match redirect(t, '>', Class::Target) {
        Some((path, rest)) => (StdXView::Redirect(path), rest),
        None => (StdXView::StdOut, t),
    }
}

/// `command`: the command that `t` starts with, possibly after white space,
/// and what follows it; `None` where no program name stands there.
pub open spec fn command(t: Seq<char>) -> Option<(CommandView, Seq<char>)> {
    let t0 = skip_blanks(t);
    let n = span(t0, Class::Letter);
    if n == 0 {
        None
    } else {
        let (args, t1) = words(skip_blanks(t0.skip(n as int)));
        let (stdin, t2) = source(t1);
        let (stdout, t3) = target(t2);
        Some(
            (
                CommandView {
                    program: t0.take(n as int),
                    args,
                    stdin,
                    stdout,
                    pid: 0,
                    status: Status::Running,
                },
                t3,
            ),
        )
    }
}

/// A command uses up at least one character, and what follows it is the end of
/// the text it was read from.
pub proof fn lemma_command_consumes(t: Seq<char>)
    ensures
        command(t) matches Some((_, rest)) ==> rest.len() < t.len() && rest == t.skip(
            t.len() - rest.len(),
        ),
{
    if let Some((c, rest)) = command(t) {
        lemma_span(t, Class::Blank);
        let t0 = skip_blanks(t);
        lemma_span(t0, Class::Letter);
        let n = span(t0, Class::Letter);
        let t00 = t0.skip(n as int);
        lemma_span(t00, Class::Blank);
        let t01 = skip_blanks(t00);
        lemma_words_rest(t01);
        let (args, t1) = words(t01);
        lemma_redirect_rest(t1, '<', Class::Source);
        let (stdin, t2) = source(t1);
        lemma_redirect_rest(t2, '>', Class::Target);
        let (stdout, t3) = target(t2);
        assert(rest == t3);
        lemma_suffix(t, t0, t00);
        lemma_suffix(t, t00, t01);
        lemma_suffix(t, t01, t1);
        lemma_suffix(t, t1, t2);
        lemma_suffix(t, t2, t3);
    }
}

/// The end of an end of a text is an end of the text.
proof fn lemma_suffix(t: Seq<char>, u: Seq<char>, v: Seq<char>)
    requires
        u.len() <= t.len(),
        u == t.skip(t.len() - u.len()),
        v.len() <= u.len(),
        v == u.skip(u.len() - v.len()),
    ensures
        v.len() <= t.len(),
        v == t.skip(t.len() - v.len()),
{
    assert(v =~= t.skip(t.len() - v.len()));
}

/// What follows the arguments is an end of the text they were read from.
proof fn lemma_words_rest(t: Seq<char>)
    ensures
        words(t).1.len() <= t.len(),
        words(t).1 == t.skip(t.len() - words(t).1.len()),
    decreases t.len(),
{
    lemma_span(t, Class::Word);
    let n = span(t, Class::Word);
    if n == 0 {
        assert(t =~= t.skip(0));
    } else {
        let u = t.skip(n as int);
        lemma_span(u, Class::Blank);
        let v = skip_blanks(u);
        lemma_words_rest(v);
        lemma_suffix(t, u, v);
        lemma_suffix(t, v, words(v).1);
    }
}

/// What follows a redirection is a proper end of the text it was read from.
proof fn lemma_redirect_rest(t: Seq<char>, mark: char, k: Class)
    ensures
        redirect(t, mark, k) matches Some((_, rest)) ==> rest.len() < t.len() && rest == t.skip(
            t.len() - rest.len(),
        ),
        source(t).1.len() <= t.len(),
        source(t).1 == t.skip(t.len() - source(t).1.len()),
        target(t).1.len() <= t.len(),
        target(t).1 == t.skip(t.len() - target(t).1.len()),
{
    assert(t =~= t.skip(0));
    lemma_redirect_rest_one(t, mark, k);
    lemma_redirect_rest_one(t, '<', Class::Source);
    lemma_redirect_rest_one(t, '>', Class::Target);
}

/// What follows one redirection is a proper end of the text it was read from.
proof fn lemma_redirect_rest_one(t: Seq<char>, mark: char, k: Class)
    ensures
        redirect(t, mark, k) matches Some((_, rest)) ==> rest.len() < t.len() && rest == t.skip(
            t.len() - rest.len(),
        ),
{
    if let Some((path, rest)) = redirect(t, mark, k) {
        let t1 = t.skip(1);
        lemma_span(t1, Class::Blank);
        let u = skip_blanks(t1);
        lemma_span(u, k);
        let n = span(u, k);
        let v = u.skip(n as int);
        lemma_span(v, Class::Blank);
        lemma_suffix(t, t1, u);
        lemma_suffix(t, u, v);
        lemma_suffix(t, v, rest);
    }
}

/// What a line says: the commands of the pipeline, and whether it is to run
/// in the background.
#[verifier::ext_equal]
pub struct Parsed {
    pub commands: Seq<CommandView>,
    pub background: bool,
}

/// `("|" command)* ("&")?` up to the end of the line: the pipeline that starts
/// with the commands `before` and goes on as `t` says.
pub open spec fn tail(t: Seq<char>, before: Seq<CommandView>) -> Option<Parsed>
    decreases t.len(),
    via tail_decreases
{
    if t.len() > 0 && t[0] == '|' {
        match command(t.skip(1)) {
            Some((next, rest)) => tail(rest, before.push(next)),
            None => None,
        }
    } else if t.len() == 1 && t[0] == '&' {
        Some(Parsed { commands: before, background: true })
    } else if t.len() == 0 {
        Some(Parsed { commands: before, background: false })
    } else {
        None
    }
}

/// What is left after a `|` and a command is shorter than what they stood in.
#[via_fn]
proof fn tail_decreases(t: Seq<char>, before: Seq<CommandView>) {
    if t.len() > 0 && t[0] == '|' {
        lemma_command_consumes(t.skip(1));
    }
}

/// `pipeline`: what the trimmed line `t` says, `None` where it is no pipeline
/// of the grammar.
pub open spec fn pipeline(t: Seq<char>) -> Option<Parsed> {
    match command(t) {
        Some((first, rest)) => tail(rest, seq![first]),
        None => None,
    }
}

/// The single command that the trimmed line `t` consists of, `None` where it
/// is not exactly one command.
pub open spec fn single(t: Seq<char>) -> Option<CommandView> {
    match command(t) {
        Some((only, rest)) => if rest.len() == 0 {
            Some(only)
        } else {
            None
        },
        None => None,
    }
}

/// `t` without the white space at its start.
pub open spec fn trim_start(t: Seq<char>) -> Seq<char>
    decreases t.len(),
{
    if t.len() > 0 && space(t[0]) {
        trim_start(t.drop_first())
    } else {
        t
    }
}

/// `t` without the white space at its end.
pub open spec fn trim_end(t: Seq<char>) -> Seq<char>
    decreases t.len(),
{
    if t.len() > 0 && space(t.last()) {
        trim_end(t.drop_last())
    } else {
        t
    }
}

/// `t` without the white space at both ends.
pub open spec fn trim(t: Seq<char>) -> Seq<char> {
    trim_end(trim_start(t))
}

/// Every command that the grammar reads is fresh: it has no process, and its
/// status is [`Status::Running`]. None of its endpoints is a pipe, so each
/// fits its slot.
pub proof fn lemma_parsed_fresh(t: Seq<char>)
    ensures
        pipeline(t) matches Some(said) ==> said.commands.len() >= 1 && forall|i: int|
            0 <= i < said.commands.len() ==> (#[trigger] said.commands[i]).fresh()
                && said.commands[i].unpiped() && said.commands[i].wf(),
        single(t) matches Some(only) ==> only.fresh() && only.unpiped() && only.wf(),
{
    if let Some((first, rest)) = command(t) {
        lemma_tail_fresh(rest, seq![first]);
    }
}

/// If the commands before are fresh, so are all the commands of the pipeline.
proof fn lemma_tail_fresh(t: Seq<char>, before: Seq<CommandView>)
    requires
        forall|i: int| 0 <= i < before.len() ==> (#[trigger] before[i]).fresh() && before[i].unpiped(),
    ensures
        tail(t, before) matches Some(said) ==> said.commands.len() >= before.len() && forall|i: int|
            0 <= i < said.commands.len() ==> (#[trigger] said.commands[i]).fresh()
                && said.commands[i].unpiped() && said.commands[i].wf(),
    decreases t.len(),
{
    if t.len() > 0 && t[0] == '|' {
        if let Some((next, rest)) = command(t.skip(1)) {
            lemma_command_consumes(t.skip(1));
            lemma_tail_fresh(rest, before.push(next));
        }
    }
}

/// The characters of `text`, in a vector.
fn chars_of(text: &str) -> (chars: Vec<char>)
    ensures
        chars@ == text@,
{
    let mut chars: Vec<char> = Vec::new();
    for c in it: text.chars()
        invariant
            it.seq() == text@,
            chars@ == it.seq().take(it.index() as int),
    {
        proof {
            assert(it.seq().take(it.index() as int + 1) =~= it.seq().take(it.index() as int).push(c));
        }
        chars.push(c);
    }
    assert(text@.take(text@.len() as int) =~= text@);
    chars
}

/// Whether `c` is white space in Unicode's sense.
pub(crate) fn is_space(c: char) -> (yes: bool)
    ensures
        yes == space(c),
{
    let u: u32 = c as u32;
    (0x09 <= u && u <= 0x0d) || u == 0x20 || u == 0x85 || u == 0xa0 || u == 0x1680 || (0x2000 <= u
        && u <= 0x200a) || u == 0x2028 || u == 0x2029 || u == 0x202f || u == 0x205f || u == 0x3000
}

/// Whether `c` belongs to the class `k`.
pub(crate) fn in_class(k: Class, c: char) -> (yes: bool)
    ensures
        yes == member(k, c),
{
    match k {
        Class::Blank => c == ' ' || c == '\t' || c == '\r' || c == '\n',
        Class::Letter => {
            if ('a' <= c && c <= 'z') || ('A' <= c && c <= 'Z') {
                true
            } else if c as u32 >= 0x80 {
                is_alphabetic(c)
            } else {
                false
            }
        },
        Class::Word => !(c == ' ' || c == '&' || c == '<' || c == '>' || c == '|'),
        Class::Source => !(c == ' ' || c == '>' || c == '|'),
        Class::Target => !(c == ' ' || c == '|'),
    }
}

/// Skipping twice is skipping once.
proof fn lemma_skip_skip(t: Seq<char>, a: int, b: int)
    requires
        0 <= a,
        0 <= b,
        a + b <= t.len(),
    ensures
        t.skip(a).skip(b) == t.skip(a + b),
        t.skip(a).take(b) == t.subrange(a, a + b),
{
    assert(t.skip(a).skip(b) =~= t.skip(a + b));
    assert(t.skip(a).take(b) =~= t.subrange(a, a + b));
}

/// The end of the run of class `k` that starts at `start`.
fn scan(chars: &Vec<char>, start: usize, k: Class) -> (end: usize)
    requires
        start <= chars.len(),
    ensures
        start <= end <= chars.len(),
        end - start == span(chars@.skip(start as int), k),
        chars@.skip(end as int) == chars@.skip(start as int).skip(end - start),
        chars@.subrange(start as int, end as int) == chars@.skip(start as int).take(end - start),
{
    let mut end: usize = start;
    while end < chars.len() && in_class(k, chars[end])
        invariant
            start <= end <= chars.len(),
            span(chars@.skip(start as int), k) == (end - start) + span(chars@.skip(end as int), k),
        decreases chars.len() - end,
    {
        proof {
            let here = chars@.skip(end as int);
            assert(here[0] == chars@[end as int]);
            assert(here.drop_first() =~= chars@.skip(end + 1));
        }
        end += 1;
    }
    proof {
        if end < chars.len() {
            assert(chars@.skip(end as int)[0] == chars@[end as int]);
        }
        lemma_skip_skip(chars@, start as int, end - start);
    }
    end
}

/// The text between two positions, as a string of its own.
fn token(text: &str, from: usize, to: usize) -> (word: String)
    requires
        from <= to <= text@.len(),
    ensures
        word@ == text@.subrange(from as int, to as int),
{
    text.substring_char(from, to).to_owned()
}

/// Reads the arguments that start at `start` into `command`, and returns the
/// position after them.
fn words_at(text: &str, chars: &Vec<char>, start: usize, command: &mut Command) -> (end: usize)
    requires
        chars@ == text@,
        start <= chars.len(),
    ensures
        start <= end <= chars.len(),
        words(chars@.skip(start as int)).1 == chars@.skip(end as int),
        final(command)@ == (CommandView {
            args: old(command)@.args + words(chars@.skip(start as int)).0,
            ..old(command)@
        }),
{
    let mut at: usize = start;
    let ghost mut read: Seq<Seq<char>> = Seq::empty();
    assert(old(command)@.args + read =~= old(command)@.args);
    loop
        invariant
            chars@ == text@,
            start <= at <= chars.len(),
            words(chars@.skip(start as int)).0 == read + words(chars@.skip(at as int)).0,
            words(chars@.skip(start as int)).1 == words(chars@.skip(at as int)).1,
            command@ == (CommandView { args: old(command)@.args + read, ..old(command)@ }),
        ensures
            start <= at <= chars.len(),
            words(chars@.skip(start as int)).1 == chars@.skip(at as int),
            command@ == (CommandView {
                args: old(command)@.args + words(chars@.skip(start as int)).0,
                ..old(command)@
            }),
        decreases chars.len() - at,
    {
        let stop: usize = scan(chars, at, Class::Word);
        if stop == at {
            assert(read + Seq::<Seq<char>>::empty() =~= read);
            break;
        }
        let next: usize = scan(chars, stop, Class::Blank);
        let word: String = token(text, at, stop);
        let ghost before = command@;
        command.arg(word.as_str());
        proof {
            let here = chars@.skip(at as int);
            lemma_skip_skip(chars@, at as int, stop - at);
            assert(skip_blanks(here.skip(stop - at)) == chars@.skip(next as int));
            assert(words(here).0 == seq![word@] + words(chars@.skip(next as int)).0);
            assert(read + (seq![word@] + words(chars@.skip(next as int)).0) =~= read.push(word@)
                + words(chars@.skip(next as int)).0);
            assert(before.args.push(word@) =~= old(command)@.args + read.push(word@));
            read = read.push(word@);
        }
        at = next;
    }
    at
}

/// Reads the redirection that starts at `start` with `mark`, if one stands
/// there: its path and the position after it.
fn redirect_at(text: &str, chars: &Vec<char>, start: usize, mark: char, k: Class) -> (found: Option<
    (String, usize),
>)
    requires
        chars@ == text@,
        start <= chars.len(),
    ensures
        match redirect(chars@.skip(start as int), mark, k) {
            Some((path, rest)) => found matches Some((p, end)) && p@ == path && start < end
                <= chars.len() && rest == chars@.skip(end as int),
            None => found is None,
        },
{
    if start < chars.len() && chars[start] == mark {
        let from: usize = scan(chars, start + 1, Class::Blank);
        let to: usize = scan(chars, from, k);
        proof {
            let here = chars@.skip(start as int);
            assert(here[0] == chars@[start as int]);
            lemma_skip_skip(chars@, start as int, 1);
            assert(skip_blanks(here.skip(1)) == chars@.skip(from as int));
        }
        if to == from {
            None
        } else {
            let next: usize = scan(chars, to, Class::Blank);
            Some((token(text, from, to), next))
        }
    } else {
        proof {
            if start < chars.len() {
                assert(chars@.skip(start as int)[0] == chars@[start as int]);
            }
        }
        None
    }
}

/// Reads the command that starts at `start`, possibly after white space: the
/// command and the position after it.
fn command_at(text: &str, chars: &Vec<char>, start: usize) -> (found: Option<(Command, usize)>)
    requires
        chars@ == text@,
        start <= chars.len(),
    ensures
        match command(chars@.skip(start as int)) {
            Some((c, rest)) => found matches Some((read, end)) && read@ == c && start < end
                <= chars.len() && rest == chars@.skip(end as int),
            None => found is None,
        },
{
    let from: usize = scan(chars, start, Class::Blank);
    let to: usize = scan(chars, from, Class::Letter);
    if to == from {
        return None;
    }
    let after: usize = scan(chars, to, Class::Blank);
    let mut read = Command::new(token(text, from, to).as_str());
    let at: usize = words_at(text, chars, after, &mut read);
    proof {
        assert(Seq::<Seq<char>>::empty() + words(chars@.skip(after as int)).0 =~= words(
            chars@.skip(after as int),
        ).0);
    }
    let mut at: usize = at;
    match redirect_at(text, chars, at, '<', Class::Source) {
        Some((path, next)) => {
            read.set_stdin(StdX::Redirect(path));
            at = next;
        },
        None => {},
    }
    match redirect_at(text, chars, at, '>', Class::Target) {
        Some((path, next)) => {
            read.set_stdout(StdX::Redirect(path));
            at = next;
        },
        None => {},
    }
    Some((read, at))
}

/// `line` without the white space at its two ends.
pub fn trimmed(line: &str) -> (text: &str)
    ensures
        text@ == trim(line@),
{
    let chars = chars_of(line);
    let mut from: usize = 0;
    assert(chars@.skip(0) =~= chars@);
    while from < chars.len() && is_space(chars[from])
        invariant
            from <= chars.len(),
            trim_start(chars@) == trim_start(chars@.skip(from as int)),
        decreases chars.len() - from,
    {
        proof {
            let here = chars@.skip(from as int);
            assert(here[0] == chars@[from as int]);
            assert(here.drop_first() =~= chars@.skip(from + 1));
        }
        from += 1;
    }
    proof {
        if from < chars.len() {
            assert(chars@.skip(from as int)[0] == chars@[from as int]);
        }
        assert(chars@.skip(from as int) =~= chars@.subrange(from as int, chars.len() as int));
    }
    let mut to: usize = chars.len();
    while to > from && is_space(chars[to - 1])
        invariant
            from <= to <= chars.len(),
            trim(chars@) == trim_end(chars@.subrange(from as int, to as int)),
        decreases to,
    {
        proof {
            let here = chars@.subrange(from as int, to as int);
            assert(here.last() == chars@[to - 1]);
            assert(here.drop_last() =~= chars@.subrange(from as int, to - 1));
        }
        to -= 1;
    }
    proof {
        if to > from {
            assert(chars@.subrange(from as int, to as int).last() == chars@[to - 1]);
        }
    }
    line.substring_char(from, to)
}

/// Reads a line that is to be exactly one command.
pub(crate) fn read_single(line: &str) -> (found: Option<Command>)
    ensures
        match single(trim(line@)) {
            Some(c) => found matches Some(read) && read@ == c,
            None => found is None,
        },
{
    let text = trimmed(line);
    let chars = chars_of(text);
    proof {
        assert(chars@.skip(0) =~= chars@);
    }
    match command_at(text, &chars, 0) {
        Some((read, end)) => {
            if end == chars.len() {
                Some(read)
            } else {
                None
            }
        },
        None => None,
    }
}

/// Reads a line that is to be a pipeline: its commands, and whether it asks
/// for the background.
pub(crate) fn read_pipeline(line: &str) -> (found: Option<(Vec<Command>, bool)>)
    ensures
        match pipeline(trim(line@)) {
            Some(said) => found matches Some((commands, background)) && views(commands@)
                == said.commands && background == said.background,
            None => found is None,
        },
{
    let text = trimmed(line);
    let chars = chars_of(text);
    proof {
        assert(chars@.skip(0) =~= chars@);
    }
    let mut commands: Vec<Command> = Vec::new();
    let mut at: usize = 0;
    match command_at(text, &chars, 0) {
        Some((first, end)) => {
            commands.push(first);
            at = end;
            assert(views(commands@) =~= seq![first@]);
        },
        None => {
            return None;
        },
    }
    while at < chars.len() && chars[at] == '|'
        invariant
            chars@ == text@,
            text@ == trim(line@),
            at <= chars.len(),
            pipeline(trim(line@)) == tail(chars@.skip(at as int), views(commands@)),
        decreases chars.len() - at,
    {
        proof {
            assert(chars@.skip(at as int)[0] == chars@[at as int]);
            lemma_skip_skip(chars@, at as int, 1);
        }
        match command_at(text, &chars, at + 1) {
            Some((next, end)) => {
                let ghost before = views(commands@);
                commands.push(next);
                assert(views(commands@) =~= before.push(next@));
                at = end;
            },
            None => {
                return None;
            },
        }
    }
    proof {
        if at < chars.len() {
            assert(chars@.skip(at as int)[0] == chars@[at as int]);
        }
    }
    if at == chars.len() {
        Some((commands, false))
    } else if at + 1 == chars.len() && chars[at] == '&' {
        Some((commands, true))
    } else {
        None
    }
}

} // verus!
