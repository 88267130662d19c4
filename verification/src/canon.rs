//! The canonical text of a pipeline, and the proof that the parser reads it
//! back.
//!
//! In the canonical text every token is written once and tokens are parted
//! by single spaces: `sort -r < in > out | wc &`.

use vstd::prelude::*;
use crate::command::{Command, CommandView};
use crate::host::texts;
use crate::grammar::{
    command, in_class, is_space, member, pipeline, redirect, skip_blanks, source, space, span, tail,
    target, trim, words, Class, Parsed,
};
use crate::stdx::{StdX, StdXView};

verus! {

/// The arguments, each after a space.
pub open spec fn words_text(args: Seq<Seq<char>>) -> Seq<char>
    decreases args.len(),
{
    if args.len() == 0 {
        Seq::empty()
    } else {
        seq![' '] + args[0] + words_text(args.drop_first())
    }
}

/// The redirection of standard input, if there is one.
pub open spec fn source_text(stdin: StdXView) -> Seq<char> {
    match stdin {
        StdXView::Redirect(path) => seq![' ', '<', ' '] + path,
        _ => Seq::empty(),
    }
}

/// The redirection of standard output, if there is one.
pub open spec fn target_text(stdout: StdXView) -> Seq<char> {
    match stdout {
        StdXView::Redirect(path) => seq![' ', '>', ' '] + path,
        _ => Seq::empty(),
    }
}

/// The text of one command: the program, the arguments, the redirection of
/// standard input and that of standard output. Other endpoints than files
/// leave no trace in it.
pub open spec fn command_text(c: CommandView) -> Seq<char> {
    c.program + words_text(c.args) + source_text(c.stdin) + target_text(c.stdout)
}

/// The text after the first command: each further command after ` | `, and
/// ` &` at the end of a background pipeline.
pub open spec fn rest_text(more: Seq<CommandView>, background: bool) -> Seq<char>
    decreases more.len(),
{
    if more.len() == 0 {
        if background {
            seq![' ', '&']
        } else {
            Seq::empty()
        }
    } else {
        seq![' ', '|', ' '] + command_text(more[0]) + rest_text(more.drop_first(), background)
    }
}

/// The text of a pipeline.
pub open spec fn pipeline_text(commands: Seq<CommandView>, background: bool) -> Seq<char> {
    if commands.len() == 0 {
        rest_text(commands, background)
    } else {
        command_text(commands[0]) + rest_text(commands.drop_first(), background)
    }
}

/// The text of a background pipeline is that of the same pipeline in the
/// foreground, and ` &` after it.
pub proof fn lemma_background_mark(commands: Seq<CommandView>)
    ensures
        pipeline_text(commands, true) == pipeline_text(commands, false) + seq![' ', '&'],
{
    if commands.len() == 0 {
        lemma_rest_mark(commands);
    } else {
        lemma_rest_mark(commands.drop_first());
        assert(pipeline_text(commands, true) =~= pipeline_text(commands, false) + seq![' ', '&']);
    }
}

/// The mark of the background comes last.
proof fn lemma_rest_mark(more: Seq<CommandView>)
    ensures
        rest_text(more, true) == rest_text(more, false) + seq![' ', '&'],
    decreases more.len(),
{
    if more.len() > 0 {
        lemma_rest_mark(more.drop_first());
    }
    assert(rest_text(more, true) =~= rest_text(more, false) + seq![' ', '&']);
}

/// A token that the parser reads back as it stands: not empty, made of
/// characters of its class, and free of white space.
pub open spec fn plain(w: Seq<char>, k: Class) -> bool {
    w.len() > 0 && forall|i: int| 0 <= i < w.len() ==> member(k, #[trigger] w[i]) && !space(w[i])
}

/// A command that its text says all there is to say of: plain tokens, no pipe
/// as an endpoint, and no process yet.
pub open spec fn canonical_command(c: CommandView) -> bool {
    &&& plain(c.program, Class::Letter)
    &&& forall|i: int| 0 <= i < c.args.len() ==> plain(#[trigger] c.args[i], Class::Word)
    &&& match c.stdin {
        StdXView::StdIn => true,
        StdXView::Redirect(path) => plain(path, Class::Source),
        _ => false,
    }
    &&& match c.stdout {
        StdXView::StdOut => true,
        StdXView::Redirect(path) => plain(path, Class::Target),
        _ => false,
    }
    &&& c.fresh()
}

/// A pipeline whose text says all there is to say of its commands.
pub open spec fn canonical(commands: Seq<CommandView>) -> bool {
    commands.len() > 0 && forall|i: int|
        0 <= i < commands.len() ==> canonical_command(#[trigger] commands[i])
}

/// A run of class `k` that is followed by something else is found whole.
proof fn lemma_span_token(w: Seq<char>, rest: Seq<char>, k: Class)
    requires
        forall|i: int| 0 <= i < w.len() ==> member(k, #[trigger] w[i]),
        rest.len() == 0 || !member(k, rest[0]),
    ensures
        span(w + rest, k) == w.len(),
        (w + rest).take(w.len() as int) == w,
        (w + rest).skip(w.len() as int) == rest,
    decreases w.len(),
{
    assert((w + rest).take(w.len() as int) =~= w);
    assert((w + rest).skip(w.len() as int) =~= rest);
    if w.len() == 0 {
        assert(w + rest =~= rest);
    } else {
        assert((w + rest)[0] == w[0]);
        assert((w + rest).drop_first() =~= w.drop_first() + rest);
        assert forall|i: int| 0 <= i < w.drop_first().len() implies member(
            k,
            #[trigger] w.drop_first()[i],
        ) by {
            assert(w.drop_first()[i] == w[i + 1]);
        }
        lemma_span_token(w.drop_first(), rest, k);
    }
}

/// Text that starts with something else than white space has no white space
/// to skip.
proof fn lemma_skip_none(t: Seq<char>)
    requires
        t.len() == 0 || !member(Class::Blank, t[0]),
    ensures
        skip_blanks(t) == t,
{
    assert(t.skip(0) =~= t);
}

/// One space before text that starts with something else is skipped, and
/// nothing more.
proof fn lemma_skip_one(t: Seq<char>)
    requires
        t.len() == 0 || !member(Class::Blank, t[0]),
    ensures
        skip_blanks(seq![' '] + t) == t,
{
    lemma_span_token(seq![' '], t, Class::Blank);
}

/// What may follow a command in a canonical text: nothing, or a space and
/// then `|` or `&`.
spec fn follows(rest: Seq<char>) -> bool {
    rest.len() == 0 || (rest.len() >= 2 && rest[0] == ' ' && (rest[1] == '|' || rest[1] == '&'))
}

/// What may follow the arguments of a command in a canonical text: nothing,
/// or a space and then one of `<`, `>`, `|`, `&`.
spec fn closes(rest: Seq<char>) -> bool {
    rest.len() == 0 || (rest.len() >= 2 && rest[0] == ' ' && (rest[1] == '<' || rest[1] == '>'
        || rest[1] == '|' || rest[1] == '&'))
}

/// After such a following text, skipping white space drops its one space.
proof fn lemma_skip_closing(rest: Seq<char>)
    requires
        closes(rest),
    ensures
        rest.len() == 0 ==> skip_blanks(rest) == rest,
        rest.len() > 0 ==> skip_blanks(rest) == rest.drop_first(),
{
    if rest.len() == 0 {
        lemma_skip_none(rest);
    } else {
        assert(rest =~= seq![' '] + rest.drop_first());
        lemma_skip_one(rest.drop_first());
    }
}

/// The arguments of a canonical text are read back as they were written.
proof fn lemma_words_text(args: Seq<Seq<char>>, rest: Seq<char>)
    requires
        forall|i: int| 0 <= i < args.len() ==> plain(#[trigger] args[i], Class::Word),
        closes(rest),
    ensures
        words(skip_blanks(words_text(args) + rest)) == (args, skip_blanks(rest)),
    decreases args.len(),
{
    lemma_skip_closing(rest);
    if args.len() == 0 {
        assert(words_text(args) + rest =~= rest);
        let r = skip_blanks(rest);
        assert(span(r, Class::Word) == 0);
    } else {
        let first = args[0];
        let others = args.drop_first();
        let after = words_text(others) + rest;
        assert(plain(first, Class::Word));
        assert(words_text(args) + rest =~= seq![' '] + (first + after));
        assert((first + after)[0] == first[0]);
        lemma_skip_one(first + after);
        assert(after.len() == 0 || after[0] == ' ') by {
            if others.len() > 0 {
                assert(after[0] == words_text(others)[0]);
            } else {
                assert(after =~= rest);
            }
        }
        lemma_span_token(first, after, Class::Word);
        assert forall|i: int| 0 <= i < others.len() implies plain(
            #[trigger] others[i],
            Class::Word,
        ) by {
            assert(others[i] == args[i + 1]);
        }
        lemma_words_text(others, rest);
        let t = first + after;
        assert(span(t, Class::Word) == first.len());
        assert(words(t) == (seq![first] + words(skip_blanks(after)).0, words(skip_blanks(after)).1));
        assert(seq![first] + others =~= args);
    }
}

/// A redirection of a canonical text is read back as it was written.
proof fn lemma_redirect_text(mark: char, k: Class, path: Seq<char>, rest: Seq<char>)
    requires
        plain(path, k),
        k == Class::Source || k == Class::Target,
        rest.len() == 0 || rest[0] == ' ',
    ensures
        redirect(seq![mark, ' '] + path + rest, mark, k) == Some((path, skip_blanks(rest))),
{
    let t = seq![mark, ' '] + path + rest;
    assert(t[0] == mark);
    assert(t.skip(1) =~= seq![' '] + (path + rest));
    assert((path + rest)[0] == path[0]);
    lemma_skip_one(path + rest);
    lemma_span_token(path, rest, k);
}

/// The redirection of standard input in a canonical text, or its absence, is
/// read back as it was written.
proof fn lemma_source_text(stdin: StdXView, after: Seq<char>)
    requires
        stdin is StdIn || (stdin matches StdXView::Redirect(path) && plain(path, Class::Source)),
        closes(after),
        after.len() > 0 ==> after[1] != '<',
    ensures
        source(skip_blanks(source_text(stdin) + after)) == (stdin, skip_blanks(after)),
{
    lemma_skip_closing(after);
    match stdin {
        StdXView::Redirect(path) => {
            let whole = source_text(stdin) + after;
            assert(closes(whole));
            lemma_skip_closing(whole);
            assert(skip_blanks(whole) =~= seq!['<', ' '] + path + after);
            lemma_redirect_text('<', Class::Source, path, after);
        },
        _ => {
            assert(source_text(stdin) + after =~= after);
            assert(redirect(skip_blanks(after), '<', Class::Source) is None);
        },
    }
}

/// The redirection of standard output in a canonical text, or its absence, is
/// read back as it was written.
proof fn lemma_target_text(stdout: StdXView, rest: Seq<char>)
    requires
        stdout is StdOut || (stdout matches StdXView::Redirect(path) && plain(path, Class::Target)),
        follows(rest),
    ensures
        target(skip_blanks(target_text(stdout) + rest)) == (stdout, skip_blanks(rest)),
{
    lemma_skip_closing(rest);
    match stdout {
        StdXView::Redirect(path) => {
            let whole = target_text(stdout) + rest;
            assert(closes(whole));
            lemma_skip_closing(whole);
            assert(skip_blanks(whole) =~= seq!['>', ' '] + path + rest);
            lemma_redirect_text('>', Class::Target, path, rest);
        },
        _ => {
            assert(target_text(stdout) + rest =~= rest);
            assert(redirect(skip_blanks(rest), '>', Class::Target) is None);
        },
    }
}

/// The program name at the start of a canonical text is read back as it was
/// written.
proof fn lemma_program_text(program: Seq<char>, after: Seq<char>)
    requires
        plain(program, Class::Letter),
        after.len() == 0 || after[0] == ' ',
    ensures
        skip_blanks(program + after) == program + after,
        span(program + after, Class::Letter) == program.len(),
        (program + after).take(program.len() as int) == program,
        (program + after).skip(program.len() as int) == after,
{
    assert((program + after)[0] == program[0]);
    lemma_skip_none(program + after);
    lemma_span_token(program, after, Class::Letter);
}

/// A command of a canonical text is read back as it was written.
proof fn lemma_command_text(c: CommandView, rest: Seq<char>)
    requires
        canonical_command(c),
        follows(rest),
    ensures
        command(command_text(c) + rest) == Some((c, skip_blanks(rest))),
{
    let a = words_text(c.args);
    let s = source_text(c.stdin);
    let o = target_text(c.stdout);
    let t = command_text(c) + rest;
    let after_source = o + rest;
    let after_args = s + after_source;
    let after_program = a + after_args;
    assert(t =~= c.program + after_program);
    assert(closes(after_source) && (after_source.len() > 0 ==> after_source[1] != '<')) by {
        if c.stdout is Redirect {
            assert(after_source[0] == ' ' && after_source[1] == '>');
        } else {
            assert(after_source =~= rest);
        }
    }
    assert(closes(after_args)) by {
        if c.stdin is Redirect {
            assert(after_args[0] == ' ' && after_args[1] == '<');
        } else {
            assert(after_args =~= after_source);
        }
    }
    assert(after_program.len() == 0 || after_program[0] == ' ') by {
        if c.args.len() > 0 {
            assert(after_program[0] == a[0]);
        } else {
            assert(after_program =~= after_args);
        }
    }
    lemma_program_text(c.program, after_program);
    lemma_words_text(c.args, after_args);
    lemma_source_text(c.stdin, after_source);
    lemma_target_text(c.stdout, rest);
    let t1 = skip_blanks(after_args);
    let t2 = skip_blanks(after_source);
    let t3 = skip_blanks(rest);
    assert(words(skip_blanks(after_program)) == (c.args, t1));
    assert(source(t1) == (c.stdin, t2));
    assert(target(t2) == (c.stdout, t3));
}

/// What follows the first command of a canonical text is nothing, or starts
/// with a space and then `|` or `&`.
proof fn lemma_rest_follows(more: Seq<CommandView>, background: bool)
    ensures
        follows(rest_text(more, background)),
{
    if more.len() > 0 {
        let r = rest_text(more, background);
        assert(r[0] == ' ' && r[1] == '|');
    }
}

/// The further commands of a canonical text, and its `&`, are read back as
/// they were written.
proof fn lemma_tail_text(more: Seq<CommandView>, background: bool, before: Seq<CommandView>)
    requires
        forall|i: int| 0 <= i < more.len() ==> canonical_command(#[trigger] more[i]),
    ensures
        tail(skip_blanks(rest_text(more, background)), before) == Some(
            Parsed { commands: before + more, background },
        ),
    decreases more.len(),
{
    let r = rest_text(more, background);
    lemma_rest_follows(more, background);
    lemma_skip_closing(r);
    if more.len() == 0 {
        assert(before + more =~= before);
    } else {
        let next = more[0];
        let others = more.drop_first();
        let after = rest_text(others, background);
        let t = skip_blanks(r);
        assert(t =~= seq!['|', ' '] + (command_text(next) + after));
        assert(t[0] == '|');
        let body = command_text(next) + after;
        assert(t.skip(1) =~= seq![' '] + body);
        assert(body[0] == next.program[0]);
        lemma_skip_one(body);
        lemma_skip_none(body);
        assert(skip_blanks(t.skip(1)) == skip_blanks(body));
        assert(command(t.skip(1)) == command(body));
        lemma_rest_follows(others, background);
        lemma_command_text(next, after);
        assert forall|i: int| 0 <= i < others.len() implies canonical_command(
            #[trigger] others[i],
        ) by {
            assert(others[i] == more[i + 1]);
        }
        lemma_tail_text(others, background, before.push(next));
        assert(before.push(next) + others =~= before + more);
    }
}

/// Text that ends with something else than white space.
spec fn ends_solid(t: Seq<char>) -> bool {
    t.len() > 0 && !space(t.last())
}

/// The text of plain arguments is empty or ends with something else than
/// white space.
proof fn lemma_words_text_end(args: Seq<Seq<char>>)
    requires
        forall|i: int| 0 <= i < args.len() ==> plain(#[trigger] args[i], Class::Word),
    ensures
        args.len() == 0 ==> words_text(args).len() == 0,
        args.len() > 0 ==> ends_solid(words_text(args)),
    decreases args.len(),
{
    if args.len() > 0 {
        let others = args.drop_first();
        assert forall|i: int| 0 <= i < others.len() implies plain(
            #[trigger] others[i],
            Class::Word,
        ) by {
            assert(others[i] == args[i + 1]);
        }
        lemma_words_text_end(others);
        let head = seq![' '] + args[0];
        assert(plain(args[0], Class::Word));
        if others.len() == 0 {
            assert(words_text(args) =~= head);
            assert(head.last() == args[0].last());
        } else {
            assert(words_text(args).last() == words_text(others).last());
        }
    }
}

/// The text of a canonical command neither starts nor ends with white space.
proof fn lemma_command_text_end(c: CommandView)
    requires
        canonical_command(c),
    ensures
        ends_solid(command_text(c)),
        !space(command_text(c)[0]),
{
    lemma_words_text_end(c.args);
    let t = command_text(c);
    assert(t[0] == c.program[0]);
    match c.stdout {
        StdXView::Redirect(path) => {
            assert(t.last() == path.last());
        },
        _ => {
            match c.stdin {
                StdXView::Redirect(path) => {
                    assert(t.last() == path.last());
                },
                _ => {
                    if c.args.len() > 0 {
                        assert(t.last() == words_text(c.args).last());
                    } else {
                        assert(t =~= c.program);
                    }
                },
            }
        },
    }
}

/// What follows the first command of a canonical text is empty or ends with
/// something else than white space.
proof fn lemma_rest_text_end(more: Seq<CommandView>, background: bool)
    requires
        forall|i: int| 0 <= i < more.len() ==> canonical_command(#[trigger] more[i]),
    ensures
        rest_text(more, background).len() == 0 || ends_solid(rest_text(more, background)),
    decreases more.len(),
{
    if more.len() > 0 {
        let others = more.drop_first();
        assert forall|i: int| 0 <= i < others.len() implies canonical_command(
            #[trigger] others[i],
        ) by {
            assert(others[i] == more[i + 1]);
        }
        lemma_rest_text_end(others, background);
        lemma_command_text_end(more[0]);
        let r = rest_text(more, background);
        let after = rest_text(others, background);
        if after.len() == 0 {
            assert(r =~= seq![' ', '|', ' '] + command_text(more[0]));
            assert(r.last() == command_text(more[0]).last());
        } else {
            assert(r.last() == after.last());
        }
    } else if background {
        assert(rest_text(more, background).last() == '&');
    }
}

/// A canonical text has no white space at its ends.
pub proof fn lemma_text_is_trimmed(commands: Seq<CommandView>, background: bool)
    requires
        canonical(commands),
    ensures
        trim(pipeline_text(commands, background)) == pipeline_text(commands, background),
{
    let t = pipeline_text(commands, background);
    let others = commands.drop_first();
    assert forall|i: int| 0 <= i < others.len() implies canonical_command(#[trigger] others[i]) by {
        assert(others[i] == commands[i + 1]);
    }
    lemma_command_text_end(commands[0]);
    lemma_rest_text_end(others, background);
    assert(t[0] == command_text(commands[0])[0]);
    let r = rest_text(others, background);
    if r.len() == 0 {
        assert(t =~= command_text(commands[0]));
    } else {
        assert(t.last() == r.last());
    }
}

/// The parser reads the canonical text of a pipeline back as the pipeline:
/// the same commands in the same order, each with its arguments and
/// redirections, and the same choice of foreground or background.
pub proof fn lemma_round_trip(commands: Seq<CommandView>, background: bool)
    requires
        canonical(commands),
    ensures
        pipeline(trim(pipeline_text(commands, background))) == Some(
            Parsed { commands, background },
        ),
{
    lemma_text_is_trimmed(commands, background);
    let first = commands[0];
    let others = commands.drop_first();
    let r = rest_text(others, background);
    assert forall|i: int| 0 <= i < others.len() implies canonical_command(#[trigger] others[i]) by {
        assert(others[i] == commands[i + 1]);
    }
    lemma_rest_follows(others, background);
    lemma_command_text(first, r);
    lemma_tail_text(others, background, seq![first]);
    assert(seq![first] + others =~= commands);
}

/// Whether `text` is a plain token of class `k`.
fn is_plain(text: &str, k: Class) -> (yes: bool)
    ensures
        yes == plain(text@, k),
{
    let mut any: bool = false;
    for c in it: text.chars()
        invariant
            it.seq() == text@,
            any == (it.index() > 0),
            forall|i: int| 0 <= i < it.index() ==> member(k, #[trigger] text@[i]) && !space(text@[i]),
    {
        if !in_class(k, c) || is_space(c) {
            assert(text@[it.index() as int] == c);
            return false;
        }
        any = true;
    }
    any
}

/// Whether the text of `c` says all there is to say of it.
pub(crate) fn is_canonical(c: &Command) -> (yes: bool)
    ensures
        yes == canonical_command(c@),
{
    if !is_plain(c.get_program(), Class::Letter) {
        return false;
    }
    let args = c.get_args();
    let mut i: usize = 0;
    while i < args.len()
        invariant
            i <= args.len(),
            texts(args@) == c@.args,
            forall|k: int| 0 <= k < i ==> plain(#[trigger] c@.args[k], Class::Word),
        decreases args.len() - i,
    {
        if !is_plain(args[i].as_str(), Class::Word) {
            assert(c@.args[i as int] == args@[i as int]@);
            return false;
        }
        assert(c@.args[i as int] == args@[i as int]@);
        i += 1;
    }
    let stdin_fits = match c.get_stdin() {
        StdX::StdIn => true,
        StdX::Redirect(path) => is_plain(path.as_str(), Class::Source),
        _ => false,
    };
    let stdout_fits = match c.get_stdout() {
        StdX::StdOut => true,
        StdX::Redirect(path) => is_plain(path.as_str(), Class::Target),
        _ => false,
    };
    stdin_fits && stdout_fits && c.get_pid() == 0 && c.is_running()
}

/// Writes the text of `c` at the end of `out`.
pub(crate) fn write_command(out: &mut String, c: &Command)
    ensures
        final(out)@ == old(out)@ + command_text(c@),
{
    proof {
        reveal_strlit(" ");
        reveal_strlit(" < ");
        reveal_strlit(" > ");
        assert(" "@ =~= seq![' ']);
        assert(" < "@ =~= seq![' ', '<', ' ']);
        assert(" > "@ =~= seq![' ', '>', ' ']);
    }
    out.append(c.get_program());
    let args = c.get_args();
    let mut i: usize = 0;
    assert(c@.args.skip(0) =~= c@.args);
    while i < args.len()
        invariant
            i <= args.len(),
            texts(args@) == c@.args,
            " "@ == seq![' '],
            out@ + words_text(c@.args.skip(i as int)) == old(out)@ + c@.program + words_text(c@.args),
        decreases args.len() - i,
    {
        let ghost before = out@;
        let ghost left = c@.args.skip(i as int);
        out.append(" ");
        out.append(args[i].as_str());
        proof {
            assert(left[0] == args@[i as int]@);
            assert(left.drop_first() =~= c@.args.skip(i + 1));
            assert(out@ + words_text(c@.args.skip(i + 1)) =~= before + words_text(left));
        }
        i += 1;
    }
    assert(out@ =~= old(out)@ + c@.program + words_text(c@.args)) by {
        assert(words_text(c@.args.skip(i as int)) =~= Seq::<char>::empty());
    }
    match c.get_stdin() {
        StdX::Redirect(path) => {
            out.append(" < ");
            out.append(path.as_str());
        },
        _ => {},
    }
    assert(out@ =~= old(out)@ + c@.program + words_text(c@.args) + source_text(c@.stdin));
    match c.get_stdout() {
        StdX::Redirect(path) => {
            out.append(" > ");
            out.append(path.as_str());
        },
        _ => {},
    }
    assert(out@ =~= old(out)@ + command_text(c@));
}

} // verus!
