use rotten_sh::command::{Command, Status};
use rotten_sh::grammar::trimmed;
use rotten_sh::pipeline::Pipeline;
use rotten_sh::stdx::StdX;

fn one(program: &str) -> Pipeline {
    Pipeline::new(Command::new(program))
}

#[test]
fn test_pipeline_new() {
    let mut expected = one("ls");
    expected.background(true);
    assert_eq!(Pipeline::parse("ls &"), Some(expected));

    let mut expected = one("ls").pipe(Command::new("wc"));
    expected.background(true);
    assert_eq!(Pipeline::parse("ls | wc &"), Some(expected));
}

#[test]
fn single_command_in_the_foreground() {
    let p = Pipeline::parse("ls").unwrap();
    assert_eq!(p.len(), 1);
    assert!(!p.is_background());
    assert_eq!(*p.get(0).get_stdin(), StdX::StdIn);
    assert_eq!(*p.get(0).get_stdout(), StdX::StdOut);
    assert_eq!(p, one("ls"));
}

#[test]
fn parsed_commands_are_fresh() {
    let p = Pipeline::parse("sort -r < in | uniq | wc -l > out &").unwrap();
    assert_eq!(p.len(), 3);
    for i in 0..p.len() {
        assert_eq!(p.get(i).get_pid(), 0);
        assert_eq!(p.get(i).get_status(), Status::Running);
    }
    assert_eq!(p.get_pgid(), 0);
    assert_eq!(p.get_jobid(), 0);
    assert_eq!(p.pids(), vec![0, 0, 0]);
}

#[test]
fn arguments_of_a_parsed_command() {
    let p = Pipeline::parse("rm -rf dir").unwrap();
    assert_eq!(p.get(0).get_program(), "rm");
    assert_eq!(*p.get(0).get_args(), vec!["-rf".to_string(), "dir".to_string()]);
}

#[test]
fn redirection_to_a_file() {
    let p = Pipeline::parse("ls -la > output.txt").unwrap();
    assert_eq!(p.len(), 1);
    assert_eq!(*p.get(0).get_stdout(), StdX::Redirect("output.txt".to_string()));
    assert_eq!(*p.get(0).get_stdin(), StdX::StdIn);
}

#[test]
fn redirection_from_and_to_files() {
    let p = Pipeline::parse("sort -r < input.txt > output.txt").unwrap();
    assert_eq!(p.len(), 1);
    assert_eq!(*p.get(0).get_stdin(), StdX::Redirect("input.txt".to_string()));
    assert_eq!(*p.get(0).get_stdout(), StdX::Redirect("output.txt".to_string()));
    assert_eq!(*p.get(0).get_args(), vec!["-r".to_string()]);
}

#[test]
fn two_commands_make_a_pipeline() {
    let p = Pipeline::parse("ls | wc").unwrap();
    assert_eq!(p.len(), 2);
    assert_eq!(p.get(0).get_program(), "ls");
    assert_eq!(p.get(1).get_program(), "wc");
    assert!(!p.is_background());
}

#[test]
fn ampersand_asks_for_the_background() {
    let p = Pipeline::parse("sleep 10 &").unwrap();
    assert!(p.is_background());
    assert_eq!(p.get(0).get_program(), "sleep");
    assert_eq!(*p.get(0).get_args(), vec!["10".to_string()]);
    assert!(Pipeline::parse("sleep 10&").unwrap().is_background());
}

#[test]
fn empty_and_blank_lines_are_no_pipeline() {
    assert_eq!(Pipeline::parse(""), None);
    assert_eq!(Pipeline::parse("   "), None);
    assert_eq!(Pipeline::parse(" \t\r\n"), None);
    assert_eq!(Command::parse(""), None);
    assert_eq!(Command::parse("  \n"), None);
}

#[test]
fn trailing_pipe_is_an_error() {
    assert_eq!(Pipeline::parse("ls |"), None);
    assert_eq!(Pipeline::parse("ls | "), None);
    assert_eq!(Pipeline::parse("ls | | wc"), None);
    assert_eq!(Pipeline::parse("| wc"), None);
}

#[test]
fn duplicate_redirections_are_an_error() {
    assert_eq!(Pipeline::parse("ls > a > b"), None);
    assert_eq!(Pipeline::parse("ls < a < b"), None);
    assert_eq!(Pipeline::parse("ls > a < b"), None);
    assert_eq!(Command::parse("ls > a > b"), None);
}

#[test]
fn redirection_needs_a_path() {
    assert_eq!(Pipeline::parse("ls >"), None);
    assert_eq!(Pipeline::parse("ls <"), None);
    assert_eq!(Pipeline::parse("ls < | wc"), None);
}

#[test]
fn zero_commands_is_an_error() {
    assert_eq!(Pipeline::parse("&"), None);
    assert_eq!(Pipeline::parse("> out"), None);
    assert_eq!(Pipeline::parse("-la"), None);
    assert_eq!(Pipeline::parse("123"), None);
}

#[test]
fn nothing_may_follow_the_ampersand() {
    assert_eq!(Pipeline::parse("ls & wc"), None);
    assert_eq!(Pipeline::parse("ls & &"), None);
    assert_eq!(Pipeline::parse("ls & | wc"), None);
}

#[test]
fn a_single_command_is_not_a_pipeline() {
    assert_eq!(Command::parse("ls | wc"), None);
    assert_eq!(Command::parse("ls &"), None);
    assert_eq!(Command::parse("  ls -l  "), Some(Command::new("ls").arg("-l").to_owned()));
}

#[test]
fn white_space_around_tokens_is_ignored() {
    let plain = Pipeline::parse("sort -r < in > out | wc -l &").unwrap();
    assert_eq!(Pipeline::parse("  sort   -r<in>out|wc   -l&  "), Some(plain));
    let tabbed = Pipeline::parse("ls\t-la\r\n").unwrap();
    assert_eq!(tabbed, Pipeline::parse("ls -la").unwrap());
    assert_eq!(Pipeline::parse("ls |\twc"), Pipeline::parse("ls | wc"));
}

#[test]
fn program_name_is_the_longest_run_of_letters() {
    let p = Pipeline::parse("ls-la").unwrap();
    assert_eq!(p.get(0).get_program(), "ls");
    assert_eq!(*p.get(0).get_args(), vec!["-la".to_string()]);
    let q = Pipeline::parse("python3").unwrap();
    assert_eq!(q.get(0).get_program(), "python");
    assert_eq!(*q.get(0).get_args(), vec!["3".to_string()]);
}

#[test]
fn letters_beyond_ascii_make_a_program_name() {
    let p = Pipeline::parse("été").unwrap();
    assert_eq!(p.get(0).get_program(), "été");
    assert!(p.get(0).get_args().is_empty());
    let q = Pipeline::parse("ночь -x").unwrap();
    assert_eq!(q.get(0).get_program(), "ночь");
    // an arrow and a digit in superscript are no letters
    assert_eq!(Pipeline::parse("→"), None);
    assert_eq!(Pipeline::parse("²"), None);
    let r = Pipeline::parse("a→b").unwrap();
    assert_eq!(r.get(0).get_program(), "a");
    assert_eq!(*r.get(0).get_args(), vec!["→b".to_string()]);
}

#[test]
fn paths_may_hold_what_arguments_may_not() {
    let p = Pipeline::parse("cat < a&b > c<d>e").unwrap();
    assert_eq!(*p.get(0).get_stdin(), StdX::Redirect("a&b".to_string()));
    assert_eq!(*p.get(0).get_stdout(), StdX::Redirect("c<d>e".to_string()));
    assert!(!p.is_background());
    let q = Pipeline::parse("ls > &").unwrap();
    assert_eq!(*q.get(0).get_stdout(), StdX::Redirect("&".to_string()));
    assert!(!q.is_background());
}

#[test]
fn redirection_inside_a_pipeline_is_accepted() {
    let p = Pipeline::parse("ls > a | wc < b").unwrap();
    assert_eq!(p.len(), 2);
    assert_eq!(*p.get(0).get_stdout(), StdX::Redirect("a".to_string()));
    assert_eq!(*p.get(1).get_stdin(), StdX::Redirect("b".to_string()));
}

#[test]
fn trimming_removes_unicode_white_space() {
    assert_eq!(trimmed("  ls  "), "ls");
    assert_eq!(trimmed("\u{a0}\u{3000}ls -l\u{2003}\u{85}\n"), "ls -l");
    assert_eq!(trimmed("\u{b}\u{c}x\u{1680}\u{2028}\u{2029}\u{202f}\u{205f}"), "x");
    assert_eq!(trimmed(" \t "), "");
    assert_eq!(trimmed(""), "");
    assert_eq!(trimmed("a b"), "a b");
    // a zero-width space is no white space
    assert_eq!(trimmed("\u{200b}ls"), "\u{200b}ls");
    for line in ["  ls  ", "\u{a0}x\u{3000}", "\u{1f}x\u{1c}", "\u{180e}x", "\u{feff}x", ""] {
        assert_eq!(trimmed(line), line.trim());
    }
}

#[test]
fn canonical_text_reads_back() {
    let mut sort = Command::new("sort");
    sort.arg("-r").arg("-u");
    sort.stdin(StdX::Redirect("in.txt".to_string())).unwrap();
    let mut wc = Command::new("wc");
    wc.arg("-l");
    wc.stdout(StdX::Redirect("out.txt".to_string())).unwrap();
    let mut p = Pipeline::new(sort).pipe(Command::new("uniq")).pipe(wc);
    p.background(true);
    let text = p.to_line().unwrap();
    assert_eq!(text, "sort -r -u < in.txt | uniq | wc -l > out.txt &");
    assert_eq!(Pipeline::parse(&text), Some(p));

    let q = one("ls");
    assert_eq!(q.to_line(), Some("ls".to_string()));
    assert_eq!(Pipeline::parse("ls"), Some(q));
}

#[test]
fn text_reads_back_for_every_canonical_line() {
    for line in [
        "ls",
        "ls &",
        "ls -la",
        "rm -rf dir",
        "ls -la > output.txt",
        "sort -r < input.txt > output.txt",
        "ls | wc",
        "sleep 10 &",
        "cat < a&b > c<d>e | été -x | wc &",
        "ls > &",
    ] {
        let p = Pipeline::parse(line).unwrap();
        assert_eq!(p.to_line(), Some(line.to_string()));
    }
}

#[test]
fn what_text_cannot_say_has_no_canonical_text() {
    // an argument with a space in it
    assert_eq!(Pipeline::new(Command::new("ls").arg("a b").to_owned()).to_line(), None);
    // an empty argument
    assert_eq!(Pipeline::new(Command::new("ls").arg("").to_owned()).to_line(), None);
    // an argument with a metacharacter
    assert_eq!(Pipeline::new(Command::new("ls").arg("a|b").to_owned()).to_line(), None);
    assert_eq!(Pipeline::new(Command::new("ls").arg("&").to_owned()).to_line(), None);
    // a program name that is no run of letters
    assert_eq!(one("ls2").to_line(), None);
    assert_eq!(one("").to_line(), None);
    // a pipe as an endpoint
    let mut piped = Command::new("ls");
    piped.stdout(StdX::Pipe(4)).unwrap();
    assert_eq!(Pipeline::new(piped).to_line(), None);
    // a path with a bar, or with white space
    let mut barred = Command::new("ls");
    barred.stdout(StdX::Redirect("a|b".to_string())).unwrap();
    assert_eq!(Pipeline::new(barred).to_line(), None);
    let mut tabbed = Command::new("ls");
    tabbed.stdin(StdX::Redirect("a\tb".to_string())).unwrap();
    assert_eq!(Pipeline::new(tabbed).to_line(), None);
    // a command that has a process, a pipeline that has a group or a number
    assert_eq!(Pipeline::new(Command::new("ls").pid(7).to_owned()).to_line(), None);
    assert_eq!(
        Pipeline::new(Command::new("ls").status(Status::Completed).to_owned()).to_line(),
        None
    );
    let mut grouped = one("ls");
    grouped.pgid(7);
    assert_eq!(grouped.to_line(), None);
    let mut numbered = one("ls");
    numbered.jobid(1);
    assert_eq!(numbered.to_line(), None);
}

#[test]
fn line_is_written_whatever_the_state() {
    let mut p = Pipeline::parse("ls -la | wc > out &").unwrap();
    p.pgid(12).jobid(3);
    assert_eq!(p.line(), "ls -la | wc > out &");
    let mut piped = Command::new("ls");
    piped.stdout(StdX::Pipe(4)).unwrap();
    assert_eq!(Pipeline::new(piped).pipe(Command::new("wc")).line(), "ls | wc");
}

fn sample_of_all_characters() -> Vec<char> {
    // every character up to U+3100, which covers all white space, and every
    // ninety-seventh of the others
    let dense = (0..=0x3100_u32).filter_map(char::from_u32);
    let sparse = (0x3101..=0x10ffff_u32).step_by(97).filter_map(char::from_u32);
    dense.chain(sparse).collect()
}

#[test]
fn trimming_agrees_with_the_standard_library() {
    let mut line = String::new();
    for c in sample_of_all_characters() {
        line.clear();
        line.push(c);
        line.push('x');
        line.push(c);
        assert_eq!(trimmed(&line), line.trim(), "character {:?}", c);
    }
}

#[test]
fn program_names_are_made_of_what_the_standard_library_calls_alphabetic() {
    let mut line = String::new();
    for c in sample_of_all_characters() {
        line.clear();
        line.push(c);
        let read = Command::parse(&line);
        if c.is_alphabetic() {
            assert_eq!(read, Some(Command::new(&line)), "character {:?}", c);
        } else {
            assert_eq!(read, None, "character {:?}", c);
        }
    }
}
