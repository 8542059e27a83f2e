//! The batch renamer: the new path of a file under a pattern and its
//! replacement, and what is said about the rename.

use crate::paths::{file_name, join, parent, path_file_name, path_join, path_parent};
use crate::pattern::regex_compiles;
use crate::replace::{all, all_replaced, first, first_replaced, nth, nth_replaced, usable};
use crate::text::{append_chars, chars_of, ends_with, has_suffix, same_chars, string_of};
use vstd::prelude::*;

verus! {

/// How the renamer was asked to behave.
#[derive(Debug)]
pub struct Args {
    /// The pattern to replace, a regular expression.
    pub pattern: String,
    /// What replaces the pattern; `${1}` stands for a captured group.
    pub replace: String,
    /// The files to rename.
    pub files: Vec<String>,
    /// Replace every occurrence of the pattern.
    pub replace_all: bool,
    /// Only say what would be renamed.
    pub noop: bool,
    /// Overwrite existing files.
    pub clobber: bool,
    /// Show full path names in what is said.
    pub full_names: bool,
    /// Replace only the match at this position, counted from 0.
    pub replace_nth: Option<usize>,
    /// Say only the name of the target.
    pub terse_output: bool,
    /// Say what is renamed.
    pub verbose: bool,
}

/// What is to happen to one file.
#[derive(Debug)]
pub enum FileAction {
    /// The file keeps its path. The message says so.
    NoChange(String),
    /// The file is to get the path `target`. `attempt` says whether the
    /// rename is to be carried out, and `message` is what is said if it
    /// went well.
    Rename { target: String, attempt: bool, message: String },
}

/// What is replaced by what, and in which matches.
pub struct Rule {
    pub pattern: Seq<char>,
    pub replace: Seq<char>,
    pub replace_all: bool,
    pub replace_nth: Option<usize>,
}

/// The patterns that a rule needs can be compiled, and the position of the
/// match can be counted.
pub open spec fn rule_usable(rule: Rule) -> bool {
    &&& regex_compiles(rule.pattern)
    &&& rule.replace_nth matches Some(index) ==> index < usize::MAX && (index > 0
        ==> regex_compiles(rule.replace))
}

/// What a rule makes of a text: the match at the given position is
/// replaced, else every match if that was asked for, else the first match.
pub open spec fn renamed(text: Seq<char>, rule: Rule) -> Seq<char> {
    match rule.replace_nth {
        Some(index) => nth_replaced(rule.pattern, rule.replace, text, index as nat),
        None => if rule.replace_all {
            all_replaced(rule.pattern, rule.replace, text)
        } else {
            first_replaced(rule.pattern, rule.replace, text)
        },
    }
}

impl Args {
    /// The rule that the arguments give.
    pub open spec fn rule(&self) -> Rule {
        Rule {
            pattern: self.pattern@,
            replace: self.replace@,
            replace_all: self.replace_all,
            replace_nth: self.replace_nth,
        }
    }
}

/// The patterns that the arguments need can be compiled, and the position
/// of the match can be counted.
pub open spec fn patterns_usable(args: &Args) -> bool {
    rule_usable(args.rule())
}

/// The path that a file gets under the arguments.
pub open spec fn renamed_path(file: Seq<char>, args: &Args) -> Seq<char> {
    renamed(file, args.rule())
}

/// Applies a rule to a text.
fn apply_rule(
    pattern: &str,
    replace: &str,
    replace_all: bool,
    replace_nth: Option<usize>,
    text: &str,
) -> (out: String)
    requires
        rule_usable(Rule { pattern: pattern@, replace: replace@, replace_all, replace_nth }),
    ensures
        out@ == renamed(
            text@,
            Rule { pattern: pattern@, replace: replace@, replace_all, replace_nth },
        ),
{
    match replace_nth {
        Some(index) => nth(pattern, replace, text, index),
        None => {
            if replace_all {
                all(pattern, replace, text)
            } else {
                first(pattern, replace, text)
            }
        },
    }
}

/// Whether the patterns that a rule needs can be compiled.
fn check_rule(
    pattern: &str,
    replace: &str,
    replace_all: bool,
    replace_nth: Option<usize>,
) -> (ok: bool)
    ensures
        ok == rule_usable(Rule { pattern: pattern@, replace: replace@, replace_all, replace_nth }),
{
    match replace_nth {
        Some(index) => {
            if index == usize::MAX {
                false
            } else if index > 0 {
                usable(pattern, replace)
            } else {
                usable(pattern, pattern)
            }
        },
        None => usable(pattern, pattern),
    }
}

/// The arrow between source and target in a message.
pub open spec fn arrow() -> Seq<char> {
    seq![' ', '-', '>', ' ']
}

/// What is shown of the target: the whole path, or in terse output its
/// final component where it has one.
pub open spec fn shown_target(target: Seq<char>, terse: bool) -> Seq<char> {
    if terse {
        match path_file_name(target) {
            Some(name) => name,
            None => target,
        }
    } else {
        target
    }
}

/// What is said about a rename: nothing unless it is to be said, else
/// `file -> target`.
pub open spec fn info_line(file: Seq<char>, target: Seq<char>, verbose: bool, terse: bool) -> Seq<
    char,
> {
    if verbose {
        file + arrow() + shown_target(target, terse)
    } else {
        Seq::<char>::empty()
    }
}

/// The path that `file` gets under the arguments. `exists` says whether
/// the file was found; a file that was not has no target.
pub fn target_path(file: &str, exists: bool, args: &Args) -> (target: Result<String, String>)
    requires
        exists ==> patterns_usable(args),
    ensures
        match target {
            Ok(target) => exists && target@ == renamed_path(file@, args),
            Err(e) => !exists && e@ == "file not found"@,
        },
{
    if !exists {
        return Err("file not found".to_owned());
    }
    Ok(
        apply_rule(
            args.pattern.as_str(),
            args.replace.as_str(),
            args.replace_all,
            args.replace_nth,
            file,
        ),
    )
}

/// Whether the patterns that the arguments need can be compiled.
pub fn check_patterns(args: &Args) -> (ok: bool)
    ensures
        ok == patterns_usable(args),
{
    check_rule(args.pattern.as_str(), args.replace.as_str(), args.replace_all, args.replace_nth)
}

/// The path that `file` gets under the arguments, for any arguments: a
/// file that was not found has no target, and neither has any file where a
/// pattern cannot be compiled.
pub fn try_target_path(file: &str, exists: bool, args: &Args) -> (target: Result<String, String>)
    ensures
        match target {
            Ok(target) => exists && patterns_usable(args) && target@ == renamed_path(file@, args),
            Err(e) => if !exists {
                e@ == "file not found"@
            } else {
                !patterns_usable(args) && e@ == "invalid pattern"@
            },
        },
{
    if !exists {
        return Err("file not found".to_owned());
    }
    if !check_patterns(args) {
        return Err("invalid pattern".to_owned());
    }
    target_path(file, exists, args)
}

/// What is said about the rename of `file` to `target`: nothing unless
/// `verbose`, else `file -> target`, of the target only the name where
/// `terse`.
pub fn process_info(file: &str, target: &str, verbose: bool, terse: bool) -> (info: Result<
    String,
    String,
>)
    ensures
        info matches Ok(line) && line@ == info_line(file@, target@, verbose, terse),
{
    if !verbose {
        return Ok(String::new());
    }
    let mut line = chars_of(file);
    line.push(' ');
    line.push('-');
    line.push('>');
    line.push(' ');
    assert(line@ =~= file@ + arrow());
    let shown = if terse {
        match file_name(target) {
            Some(name) => chars_of(name.as_str()),
            None => chars_of(target),
        }
    } else {
        chars_of(target)
    };
    append_chars(&mut line, &shown);
    Ok(string_of(&line))
}

/// Whether the rename may go ahead: not onto an existing file, unless that
/// was asked for.
pub fn rename(dest_exists: bool, clobber: bool) -> (allowed: Result<(), String>)
    ensures
        allowed is Ok <==> !dest_exists || clobber,
        allowed matches Err(e) ==> e@ == "filename collision"@,
{
    if dest_exists && !clobber {
        return Err("filename collision".to_owned());
    }
    Ok(())
}

/// What is to happen to `file`. A file that was not found is an error; a
/// file whose path the pattern leaves as it is stays; any other file is
/// renamed, unless this is a dry run, and the rename is spoken of in a
/// verbose run and in a dry run.
#[verifier::rlimit(40)]
pub fn process_file(file: &str, exists: bool, args: &Args) -> (action: Result<FileAction, String>)
    requires
        exists ==> patterns_usable(args),
    ensures
        match action {
            Err(e) => !exists && e@ == "file not found"@,
            Ok(FileAction::NoChange(message)) => exists && renamed_path(file@, args) == file@
                && message@ == ": no change"@,
            Ok(FileAction::Rename { target, attempt, message }) => {
                &&& exists
                &&& target@ == renamed_path(file@, args)
                &&& target@ != file@
                &&& attempt == !args.noop
                &&& message@ == info_line(
                    file@,
                    target@,
                    args.verbose || args.noop,
                    args.terse_output,
                )
            },
        },
{
    let target = match target_path(file, exists, args) {
        Ok(target) => target,
        Err(e) => {
            return Err(e);
        },
    };
    let file_chars = chars_of(file);
    let target_chars = chars_of(target.as_str());
    if same_chars(&target_chars, &file_chars) {
        return Ok(FileAction::NoChange(": no change".to_owned()));
    }
    let message = match process_info(
        file,
        target.as_str(),
        args.verbose || args.noop,
        args.terse_output,
    ) {
        Ok(line) => line,
        Err(e) => {
            return Err(e);
        },
    };
    Ok(FileAction::Rename { target, attempt: !args.noop, message })
}


/// What is to happen to `file`, for any arguments: as [`process_file`]
/// says, but where a pattern cannot be compiled that is the error.
pub fn try_process_file(file: &str, exists: bool, args: &Args) -> (action: Result<
    FileAction,
    String,
>)
    ensures
        exists && !patterns_usable(args) ==> (action matches Err(e) && e@ == "invalid pattern"@),
        !exists ==> (action matches Err(e) && e@ == "file not found"@),
        exists && patterns_usable(args) ==> action is Ok,
        match action {
            Err(_) => true,
            Ok(FileAction::NoChange(message)) => renamed_path(file@, args) == file@ && message@
                == ": no change"@,
            Ok(FileAction::Rename { target, attempt, message }) => {
                &&& target@ == renamed_path(file@, args)
                &&& target@ != file@
                &&& attempt == !args.noop
                &&& message@ == info_line(
                    file@,
                    target@,
                    args.verbose || args.noop,
                    args.terse_output,
                )
            },
        },
{
    if exists && !check_patterns(args) {
        return Err("invalid pattern".to_owned());
    }
    process_file(file, exists, args)
}


/// What is printed for a file once it has been dealt with, if anything.
///
/// An error is always printed, as `ERROR: file: error`. What was done is
/// printed as `file message` in a dry run, and in a verbose run unless the
/// message ends in `no change`.
pub open spec fn report_of(
    file: Seq<char>,
    outcome: Result<Seq<char>, Seq<char>>,
    args: &Args,
) -> Option<Seq<char>> {
    match outcome {
        Ok(message) => if (args.verbose && !ends_with(message, "no change"@)) || args.noop {
            Some(file + seq![' '] + message)
        } else {
            None
        },
        Err(e) => Some("ERROR: "@ + file + ": "@ + e),
    }
}

/// What a fallible message stands for.
pub open spec fn outcome_view(outcome: Result<String, String>) -> Result<Seq<char>, Seq<char>> {
    match outcome {
        Ok(message) => Ok(message@),
        Err(e) => Err(e@),
    }
}

/// The line to print for a file once it has been dealt with, if any.
pub fn process(file: &str, outcome: &Result<String, String>, args: &Args) -> (line: Option<String>)
    ensures
        crate::text::opt_view(line) == report_of(file@, outcome_view(*outcome), args),
{
    match outcome {
        Ok(msg) => {
            let message = chars_of(msg.as_str());
            if (args.verbose && !has_suffix(&message, &chars_of("no change"))) || args.noop {
                let mut line = chars_of(file);
                line.push(' ');
                append_chars(&mut line, &message);
                assert(line@ =~= file@ + seq![' '] + msg@);
                Some(string_of(&line))
            } else {
                None
            }
        },
        Err(e) => {
            let mut line = chars_of("ERROR: ");
            append_chars(&mut line, &chars_of(file));
            append_chars(&mut line, &chars_of(": "));
            append_chars(&mut line, &chars_of(e.as_str()));
            Some(string_of(&line))
        },
    }
}

/// How the renamer was asked to behave when it renames within the
/// directory of each file.
#[derive(Debug)]
pub struct Opts {
    /// The pattern to replace, a regular expression.
    pub pattern: String,
    /// Replace only the match at this position, counted from 0.
    pub replace_nth: Option<usize>,
    /// What replaces the pattern; `${1}` stands for a captured group.
    pub replace: String,
    /// Replace every occurrence of the pattern.
    pub replace_all: bool,
    /// Only say what would be renamed.
    pub noop: bool,
    /// Overwrite existing files.
    pub clobber: bool,
    /// Show full path names in what is said.
    pub full_names: bool,
    /// Say only the name of the target.
    pub terse_output: bool,
    /// Say what is renamed.
    pub verbose: bool,
    /// Print the arguments for `git mv` and rename nothing.
    pub git: bool,
}

/// Why a file has no target.
#[derive(Debug, Clone, Copy, PartialEq, Eq, Structural)]
pub enum TargetError {
    /// The path of the file has no parent.
    NoParent,
    /// The path of the file has no final component.
    NoFileName,
    /// The path of the target has no final component.
    NoTargetName,
    /// A pattern cannot be compiled.
    InvalidPattern,
}

/// What is to happen to one file.
#[derive(Debug)]
pub enum Step {
    /// The file keeps its name. `line` is what is to be said, if anything.
    Keep { line: Option<String> },
    /// The command is to be printed, and nothing is renamed.
    Git { command: String },
    /// The file is to get the path `target`, unless `attempt` is not set.
    /// `line` is what is to be said, if anything.
    Rename { target: String, line: Option<String>, attempt: bool },
}

/// What a step stands for.
pub enum StepView {
    Keep { line: Option<Seq<char>> },
    Git { command: Seq<char> },
    Rename { target: Seq<char>, line: Option<Seq<char>>, attempt: bool },
}

impl View for Step {
    type V = StepView;

    open spec fn view(&self) -> StepView {
        match *self {
            Step::Keep { line } => StepView::Keep { line: crate::text::opt_view(line) },
            Step::Git { command } => StepView::Git { command: command@ },
            Step::Rename { target, line, attempt } => StepView::Rename {
                target: target@,
                line: crate::text::opt_view(line),
                attempt,
            },
        }
    }
}

/// The path that the file at the resolved path `source` gets: its name
/// changed by the rule, in its directory.
pub open spec fn target_in_dir(source: Seq<char>, rule: Rule) -> Result<Seq<char>, TargetError> {
    match path_parent(source) {
        None => Err(TargetError::NoParent),
        Some(dir) => match path_file_name(source) {
            None => Err(TargetError::NoFileName),
            Some(name) => Ok(path_join(dir, renamed(name, rule))),
        },
    }
}

/// A line is said in a verbose run and in a dry run.
pub open spec fn said(line: Seq<char>, speaks: bool) -> Option<Seq<char>> {
    if speaks {
        Some(line)
    } else {
        None
    }
}

/// What is to happen to the file at `source`, whose target is `target`.
///
/// The two are compared and shown by their names, or by their whole paths
/// where full names are asked for. A file whose name stays is kept. For
/// git the arguments of `git mv` are printed and that is all. Else the
/// rename is spoken of, in terse output by the name of the target alone and
/// in any case, and it is carried out unless this is a dry run.
pub open spec fn step_for(source: Seq<char>, target: Seq<char>, opts: &Opts) -> Result<
    StepView,
    TargetError,
> {
    let names = if opts.full_names {
        Ok::<(Seq<char>, Seq<char>), TargetError>((source, target))
    } else {
        match path_file_name(source) {
            None => Err(TargetError::NoFileName),
            Some(source_name) => match path_file_name(target) {
                None => Err(TargetError::NoTargetName),
                Some(target_name) => Ok((source_name, target_name)),
            },
        }
    };
    let speaks = opts.verbose || opts.noop;
    match names {
        Err(e) => Err(e),
        Ok((source_name, target_name)) => if target_name == source_name {
            Ok(StepView::Keep { line: said(source_name + ": no change"@, speaks) })
        } else if opts.git {
            Ok(StepView::Git { command: "git mv "@ + source + seq![' '] + target })
        } else {
            Ok(
                StepView::Rename {
                    target,
                    line: if opts.terse_output {
                        Some(target_name)
                    } else {
                        said(source_name + arrow() + target_name, speaks)
                    },
                    attempt: !opts.noop,
                },
            )
        },
    }
}

/// What a fallible step stands for.
pub open spec fn step_view(r: Result<Step, TargetError>) -> Result<StepView, TargetError> {
    match r {
        Ok(step) => Ok(step@),
        Err(e) => Err(e),
    }
}

/// What a fallible path stands for.
pub open spec fn target_view(r: Result<String, TargetError>) -> Result<Seq<char>, TargetError> {
    match r {
        Ok(path) => Ok(path@),
        Err(e) => Err(e),
    }
}

/// Two texts in a row, with a third between them.
fn between(left: &str, middle: &str, right: &str) -> (out: String)
    ensures
        out@ == left@ + middle@ + right@,
{
    let mut chars = chars_of(left);
    append_chars(&mut chars, &chars_of(middle));
    append_chars(&mut chars, &chars_of(right));
    string_of(&chars)
}

impl Opts {
    /// The rule that the options give.
    pub open spec fn rule(&self) -> Rule {
        Rule {
            pattern: self.pattern@,
            replace: self.replace@,
            replace_all: self.replace_all,
            replace_nth: self.replace_nth,
        }
    }

    /// Whether the patterns that the options need can be compiled.
    pub fn check_patterns(&self) -> (ok: bool)
        ensures
            ok == rule_usable(self.rule()),
    {
        check_rule(self.pattern.as_str(), self.replace.as_str(), self.replace_all, self.replace_nth)
    }

    /// The path that the file at the resolved path `source` gets.
    pub fn target_path(&self, source: &str) -> (target: Result<String, TargetError>)
        requires
            rule_usable(self.rule()),
        ensures
            target_view(target) == target_in_dir(source@, self.rule()),
    {
        let dir = match parent(source) {
            Some(dir) => dir,
            None => {
                return Err(TargetError::NoParent);
            },
        };
        let name = match file_name(source) {
            Some(name) => name,
            None => {
                return Err(TargetError::NoFileName);
            },
        };
        let target_name = apply_rule(
            self.pattern.as_str(),
            self.replace.as_str(),
            self.replace_all,
            self.replace_nth,
            name.as_str(),
        );
        Ok(join(dir.as_str(), target_name.as_str()))
    }

    /// The path that the file at the resolved path `source` gets, for any
    /// options: where a pattern cannot be compiled, that is the error.
    pub fn try_target_path(&self, source: &str) -> (target: Result<String, TargetError>)
        ensures
            target_view(target) == if rule_usable(self.rule()) {
                target_in_dir(source@, self.rule())
            } else {
                Err(TargetError::InvalidPattern)
            },
    {
        if !self.check_patterns() {
            return Err(TargetError::InvalidPattern);
        }
        self.target_path(source)
    }

    /// What is to happen to the file at `source`, whose target is
    /// `target`.
    #[verifier::rlimit(40)]
    pub fn process_file(&self, source: &str, target: &str) -> (step: Result<Step, TargetError>)
        ensures
            step_view(step) == step_for(source@, target@, self),
    {
        let source_name;
        let target_name;
        if self.full_names {
            source_name = source.to_owned();
            target_name = target.to_owned();
        } else {
            source_name = match file_name(source) {
                Some(name) => name,
                None => {
                    return Err(TargetError::NoFileName);
                },
            };
            target_name = match file_name(target) {
                Some(name) => name,
                None => {
                    return Err(TargetError::NoTargetName);
                },
            };
        }
        let speaks = self.verbose || self.noop;
        let source_chars = chars_of(source_name.as_str());
        let target_chars = chars_of(target_name.as_str());
        if same_chars(&target_chars, &source_chars) {
            let line = if speaks {
                Some(between(source_name.as_str(), ": no change", ""))
            } else {
                None
            };
            assert(source_name@ + ": no change"@ + ""@ =~= source_name@ + ": no change"@) by {
                reveal_strlit("");
            }
            return Ok(Step::Keep { line });
        }
        if self.git {
            let mut line = chars_of("git mv ");
            append_chars(&mut line, &chars_of(source));
            line.push(' ');
            append_chars(&mut line, &chars_of(target));
            assert(line@ =~= "git mv "@ + source@ + seq![' '] + target@);
            return Ok(Step::Git { command: string_of(&line) });
        }
        let line = if self.terse_output {
            Some(target_name)
        } else if speaks {
            let mut text = chars_of(source_name.as_str());
            text.push(' ');
            text.push('-');
            text.push('>');
            text.push(' ');
            append_chars(&mut text, &target_chars);
            assert(text@ =~= source_name@ + arrow() + target_name@);
            Some(string_of(&text))
        } else {
            None
        };
        Ok(Step::Rename { target: target.to_owned(), line, attempt: !self.noop })
    }
}

} // verus!
