//! The command line: what is asked for, and what is answered.
use vstd::prelude::*;
use vstd::utf8::encode_utf8;
use crate::Error;
use crate::diff::{
    file_models, header_number, hunk_models, line_models, parse_number, DiffFile, DiffHunk, DiffLine,
    DiffSnapshot, FileModel, HunkModel, LineModel,
};
use crate::json::model;
use crate::store::{
    any_on, comment_models, comments_document, count_comments, file_with_path, filter_text, find_path,
    new_comment, on_file, outdated_on, passes, refreshed, review_label, reviewed, state_models,
    states_document, with_reviewed, Comment, CommentModel, CommentsChange, StatesChange, Store,
    StoreModel,
};
use crate::util::{
    chars_of, copy_strings, decimal, hex_digit, push_decimal, push_text, same_text, texts,
};

verus! {

// ---------------------------------------------------------------------------
// Arguments
// ---------------------------------------------------------------------------

/// The text of an optional string.
pub open spec fn opt(s: Option<String>) -> Option<Seq<char>> {
    match s {
        Some(x) => Some(x@),
        None => None,
    }
}

/// What the command line asks for.
#[derive(Debug)]
pub enum Command {
    Help,
    ListComments { file: Option<String>, json: bool },
    CleanComments { file: Option<String>, json: bool, dry_run: bool, all: bool },
    GetComment { id: String, json: bool },
    AddComment { file: String, line: u32, end: u32, body: String },
    ReviewStatus { file: Option<String>, json: bool },
    ReviewMark { file: String, reviewed: bool },
    ListThemes,
    ValidateTheme { path: String },
    /// A review of the target that the arguments name.
    Review { args: Vec<String> },
}

pub ghost enum CommandModel {
    Help,
    ListComments { file: Option<Seq<char>>, json: bool },
    CleanComments { file: Option<Seq<char>>, json: bool, dry_run: bool, all: bool },
    GetComment { id: Seq<char>, json: bool },
    AddComment { file: Seq<char>, line: u32, end: u32, body: Seq<char> },
    ReviewStatus { file: Option<Seq<char>>, json: bool },
    ReviewMark { file: Seq<char>, reviewed: bool },
    ListThemes,
    ValidateTheme { path: Seq<char> },
    Review { args: Seq<Seq<char>> },
}

impl View for Command {
    type V = CommandModel;

    open spec fn view(&self) -> CommandModel {
        match *self {
            Command::Help => CommandModel::Help,
            Command::ListComments { file, json } => CommandModel::ListComments {
                file: opt(file),
                json,
            },
            Command::CleanComments { file, json, dry_run, all } => CommandModel::CleanComments {
                file: opt(file),
                json,
                dry_run,
                all,
            },
            Command::GetComment { id, json } => CommandModel::GetComment { id: id@, json },
            Command::AddComment { file, line, end, body } => CommandModel::AddComment {
                file: file@,
                line,
                end,
                body: body@,
            },
            Command::ReviewStatus { file, json } => CommandModel::ReviewStatus {
                file: opt(file),
                json,
            },
            Command::ReviewMark { file, reviewed } => CommandModel::ReviewMark {
                file: file@,
                reviewed,
            },
            Command::ListThemes => CommandModel::ListThemes,
            Command::ValidateTheme { path } => CommandModel::ValidateTheme { path: path@ },
            Command::Review { args } => CommandModel::Review { args: texts(args@) },
        }
    }
}

/// A number on the command line: a sign, and digits with underscores between
/// them.  A negative number other than zero is refused.
pub fn parse_line(text: &str) -> (r: Result<u32, Error>)
    ensures
        match r {
            Ok(n) => header_number(encode_utf8(text@)) == Some(n),
            Err(e) => header_number(encode_utf8(text@)) is None && e == Error::InvalidArguments,
        },
{
    match parse_number(text.as_bytes()) {
        Some(n) => Ok(n),
        None => Err(Error::InvalidArguments),
    }
}

/// The options of the commands on comments, as far as they are read.
pub ghost struct Options {
    pub file: Option<Seq<char>>,
    pub json: bool,
    pub dry_run: bool,
    pub all: bool,
    pub reviewed: bool,
    pub line: Option<u32>,
    pub end: u32,
    pub body: Option<Seq<char>>,
}

pub open spec fn no_options() -> Options {
    Options {
        file: None,
        json: false,
        dry_run: false,
        all: false,
        reviewed: true,
        line: None,
        end: 0,
        body: None,
    }
}

/// Which options a command takes.
#[derive(Clone, Copy, Debug, PartialEq, Eq, Structural)]
pub enum Taking {
    List,
    Clean,
    Add,
    Status,
    Mark,
}

/// The options after the first argument, and how many arguments it takes; or
/// nothing where it is not understood.
pub open spec fn option_step(args: Seq<Seq<char>>, taking: Taking, o: Options) -> Option<
    (Options, int),
> {
    let a = args[0];
    let adding = taking == Taking::Add;
    if a == "--file"@ {
        if args.len() >= 2 {
            Some((Options { file: Some(args[1]), ..o }, 2))
        } else {
            None
        }
    } else if a == "--json"@ && (taking == Taking::List || taking == Taking::Clean || taking
        == Taking::Status) {
        Some((Options { json: true, ..o }, 1))
    } else if a == "--dry-run"@ && taking == Taking::Clean {
        Some((Options { dry_run: true, ..o }, 1))
    } else if a == "--all"@ && taking == Taking::Clean {
        Some((Options { all: true, ..o }, 1))
    } else if a == "--unreviewed"@ && taking == Taking::Mark {
        Some((Options { reviewed: false, ..o }, 1))
    } else if a == "--reviewed"@ && taking == Taking::Mark {
        Some((Options { reviewed: true, ..o }, 1))
    } else if a == "--line"@ && adding {
        if args.len() >= 2 && header_number(encode_utf8(args[1])) is Some {
            Some((Options { line: header_number(encode_utf8(args[1])), ..o }, 2))
        } else {
            None
        }
    } else if a == "--end"@ && adding {
        if args.len() >= 2 && header_number(encode_utf8(args[1])) is Some {
            Some((Options { end: header_number(encode_utf8(args[1]))->0, ..o }, 2))
        } else {
            None
        }
    } else if a == "--body"@ && adding {
        if args.len() >= 2 {
            Some((Options { body: Some(args[1]), ..o }, 2))
        } else {
            None
        }
    } else {
        None
    }
}

/// The options that arguments stand for, on top of others.  The last one of a
/// kind counts.
pub open spec fn options(args: Seq<Seq<char>>, taking: Taking, o: Options) -> Option<Options>
    decreases args.len(),
{
    if args.len() == 0 {
        Some(o)
    } else {
        match option_step(args, taking, o) {
            Some((next, n)) => if 0 < n <= args.len() {
                options(args.skip(n), taking, next)
            } else {
                None
            },
            None => None,
        }
    }
}

struct ReadOptions {
    file: Option<String>,
    json: bool,
    dry_run: bool,
    all: bool,
    reviewed: bool,
    line: Option<u32>,
    end: u32,
    body: Option<String>,
}

impl View for ReadOptions {
    type V = Options;

    closed spec fn view(&self) -> Options {
        Options {
            file: opt(self.file),
            json: self.json,
            dry_run: self.dry_run,
            all: self.all,
            reviewed: self.reviewed,
            line: self.line,
            end: self.end,
            body: opt(self.body),
        }
    }
}

/// The argument behind the one with an index.
fn value(args: &[String], index: usize) -> (r: Option<String>)
    requires
        index < args@.len(),
    ensures
        match r {
            Some(s) => index + 1 < args@.len() && s@ == args@[index + 1]@,
            None => index + 1 >= args@.len(),
        },
{
    let len: usize = args.len();
    if index < len - 1 {
        Some(args[index + 1].clone())
    } else {
        None
    }
}

/// Reads one option; the number of arguments that it takes.
fn read_option(args: &[String], i: usize, taking: Taking, o: &mut ReadOptions) -> (r: Option<usize>)
    requires
        i < args@.len(),
    ensures
        match r {
            Some(n) => option_step(texts(args@).skip(i as int), taking, old(o)@) == Some(
                (final(o)@, n as int),
            ) && 0 < n <= args@.len() - i,
            None => option_step(texts(args@).skip(i as int), taking, old(o)@) is None,
        },
{
    let ghost rest = texts(args@).skip(i as int);
    assert(rest[0] == args@[i as int]@);
    assert(rest.len() >= 2 ==> rest[1] == args@[i + 1]@);
    let arg = args[i].as_str();
    let adding = taking == Taking::Add;
    if same_text(arg, "--file") {
        match value(args, i) {
            Some(v) => {
                o.file = Some(v);
                Some(2)
            },
            None => None,
        }
    } else if same_text(arg, "--json") && (taking == Taking::List || taking == Taking::Clean
        || taking == Taking::Status) {
        o.json = true;
        Some(1)
    } else if same_text(arg, "--dry-run") && taking == Taking::Clean {
        o.dry_run = true;
        Some(1)
    } else if same_text(arg, "--all") && taking == Taking::Clean {
        o.all = true;
        Some(1)
    } else if same_text(arg, "--unreviewed") && taking == Taking::Mark {
        o.reviewed = false;
        Some(1)
    } else if same_text(arg, "--reviewed") && taking == Taking::Mark {
        o.reviewed = true;
        Some(1)
    } else if same_text(arg, "--line") && adding {
        match value(args, i) {
            Some(v) => match parse_line(v.as_str()) {
                Ok(n) => {
                    o.line = Some(n);
                    Some(2)
                },
                Err(_) => None,
            },
            None => None,
        }
    } else if same_text(arg, "--end") && adding {
        match value(args, i) {
            Some(v) => match parse_line(v.as_str()) {
                Ok(n) => {
                    o.end = n;
                    Some(2)
                },
                Err(_) => None,
            },
            None => None,
        }
    } else if same_text(arg, "--body") && adding {
        match value(args, i) {
            Some(v) => {
                o.body = Some(v);
                Some(2)
            },
            None => None,
        }
    } else {
        None
    }
}

fn read_options(args: &[String], start: usize, taking: Taking) -> (r: Option<ReadOptions>)
    requires
        start <= args@.len(),
    ensures
        options(texts(args@).skip(start as int), taking, no_options()) == match r {
            Some(o) => Some(o@),
            None => None,
        },
{
    let ghost all = texts(args@);
    let ghost wanted = options(all.skip(start as int), taking, no_options());
    let mut o = ReadOptions {
        file: None,
        json: false,
        dry_run: false,
        all: false,
        reviewed: true,
        line: None,
        end: 0,
        body: None,
    };
    assert(o@ == no_options());
    let mut i: usize = start;
    while i < args.len()
        invariant
            i <= args@.len(),
            all == texts(args@),
            wanted == options(all.skip(start as int), taking, no_options()),
            wanted == options(all.skip(i as int), taking, o@),
        decreases args@.len() - i,
    {
        let ghost rest = all.skip(i as int);
        match read_option(args, i, taking, &mut o) {
            Some(n) => {
                assert(rest.skip(n as int) =~= all.skip(i + n));
                i = i + n;
            },
            None => {
                return None;
            },
        }
    }
    assert(all.skip(i as int) =~= Seq::<Seq<char>>::empty());
    Some(o)
}

/// What `comments` is asked to do.
pub open spec fn comments_request(args: Seq<Seq<char>>) -> Option<CommandModel> {
    if args.len() == 0 {
        None
    } else if args[0] == "list"@ {
        match options(args.skip(1), Taking::List, no_options()) {
            Some(o) => Some(CommandModel::ListComments { file: o.file, json: o.json }),
            None => None,
        }
    } else if args[0] == "clean"@ || args[0] == "cleanup"@ {
        match options(args.skip(1), Taking::Clean, no_options()) {
            Some(o) => Some(
                CommandModel::CleanComments {
                    file: o.file,
                    json: o.json,
                    dry_run: o.dry_run,
                    all: o.all,
                },
            ),
            None => None,
        }
    } else if args[0] == "get"@ {
        if args.len() >= 2 {
            Some(
                CommandModel::GetComment {
                    id: args[1],
                    json: args.skip(2).contains("--json"@),
                },
            )
        } else {
            None
        }
    } else if args[0] == "add"@ {
        match options(args.skip(1), Taking::Add, no_options()) {
            Some(o) => if o.file is Some && o.line is Some && o.body is Some {
                Some(
                    CommandModel::AddComment {
                        file: o.file->0,
                        line: o.line->0,
                        end: o.end,
                        body: o.body->0,
                    },
                )
            } else {
                None
            },
            None => None,
        }
    } else {
        None
    }
}

/// What `review` is asked to do.
pub open spec fn review_request(args: Seq<Seq<char>>) -> Option<CommandModel> {
    if args.len() == 0 {
        None
    } else if args[0] == "status"@ {
        match options(args.skip(1), Taking::Status, no_options()) {
            Some(o) => Some(CommandModel::ReviewStatus { file: o.file, json: o.json }),
            None => None,
        }
    } else if args[0] == "mark"@ {
        match options(args.skip(1), Taking::Mark, no_options()) {
            Some(o) => if o.file is Some {
                Some(CommandModel::ReviewMark { file: o.file->0, reviewed: o.reviewed })
            } else {
                None
            },
            None => None,
        }
    } else {
        None
    }
}

/// What `themes` is asked to do.
pub open spec fn themes_request(args: Seq<Seq<char>>) -> Option<CommandModel> {
    if args.len() == 0 {
        None
    } else if args[0] == "list"@ {
        Some(CommandModel::ListThemes)
    } else if args[0] == "validate"@ && args.len() == 2 {
        Some(CommandModel::ValidateTheme { path: args[1] })
    } else {
        None
    }
}

/// What arguments ask for; nothing where they are not understood.
pub open spec fn request(args: Seq<Seq<char>>) -> Option<CommandModel> {
    if args.len() > 0 && (args[0] == "--help"@ || args[0] == "-h"@) {
        Some(CommandModel::Help)
    } else if args.len() > 0 && args[0] == "comments"@ {
        comments_request(args.skip(1))
    } else if args.len() > 0 && args[0] == "review"@ {
        review_request(args.skip(1))
    } else if args.len() > 0 && args[0] == "themes"@ {
        themes_request(args.skip(1))
    } else {
        Some(CommandModel::Review { args })
    }
}

/// What a result of reading arguments says.
pub open spec fn answers(r: Result<Command, Error>, wanted: Option<CommandModel>) -> bool {
    match r {
        Ok(c) => wanted == Some(c@),
        Err(e) => wanted is None && e == Error::InvalidArguments,
    }
}

/// Whether a list of strings holds a text, from an index on.
fn has_argument(args: &[String], start: usize, text: &str) -> (r: bool)
    requires
        start <= args@.len(),
    ensures
        r == texts(args@).skip(start as int).contains(text@),
{
    let ghost rest = texts(args@).skip(start as int);
    let mut i: usize = start;
    while i < args.len()
        invariant
            start <= i <= args@.len(),
            rest == texts(args@).skip(start as int),
            forall|k: int| 0 <= k < i - start ==> rest[k] != text@,
        decreases args@.len() - i,
    {
        assert(rest[i - start] == args@[i as int]@);
        if same_text(args[i].as_str(), text) {
            return true;
        }
        i += 1;
    }
    assert(rest.len() == args@.len() - start);
    false
}

/// Reads the arguments of `comments`.
pub fn parse_comments(args: &[String]) -> (r: Result<Command, Error>)
    ensures
        answers(r, comments_request(texts(args@))),
{
    let ghost all = texts(args@);
    assert(all.len() == args@.len());
    if args.len() == 0 {
        return Err(Error::InvalidArguments);
    }
    assert(all[0] == args@[0]@);
    let name = args[0].as_str();
    if same_text(name, "list") {
        match read_options(args, 1, Taking::List) {
            Some(o) => Ok(Command::ListComments { file: o.file, json: o.json }),
            None => Err(Error::InvalidArguments),
        }
    } else if same_text(name, "clean") || same_text(name, "cleanup") {
        match read_options(args, 1, Taking::Clean) {
            Some(o) => Ok(
                Command::CleanComments {
                    file: o.file,
                    json: o.json,
                    dry_run: o.dry_run,
                    all: o.all,
                },
            ),
            None => Err(Error::InvalidArguments),
        }
    } else if same_text(name, "get") {
        if args.len() < 2 {
            return Err(Error::InvalidArguments);
        }
        assert(all[1] == args@[1]@);
        let json = has_argument(args, 2, "--json");
        Ok(Command::GetComment { id: args[1].clone(), json })
    } else if same_text(name, "add") {
        match read_options(args, 1, Taking::Add) {
            Some(o) => match (o.file, o.line, o.body) {
                (Some(file), Some(line), Some(body)) => Ok(
                    Command::AddComment { file, line, end: o.end, body },
                ),
                _ => Err(Error::InvalidArguments),
            },
            None => Err(Error::InvalidArguments),
        }
    } else {
        Err(Error::InvalidArguments)
    }
}

/// Reads the arguments of `review`.
pub fn parse_review(args: &[String]) -> (r: Result<Command, Error>)
    ensures
        answers(r, review_request(texts(args@))),
{
    let ghost all = texts(args@);
    assert(all.len() == args@.len());
    if args.len() == 0 {
        return Err(Error::InvalidArguments);
    }
    assert(all[0] == args@[0]@);
    let name = args[0].as_str();
    if same_text(name, "status") {
        match read_options(args, 1, Taking::Status) {
            Some(o) => Ok(Command::ReviewStatus { file: o.file, json: o.json }),
            None => Err(Error::InvalidArguments),
        }
    } else if same_text(name, "mark") {
        match read_options(args, 1, Taking::Mark) {
            Some(o) => match o.file {
                Some(file) => Ok(Command::ReviewMark { file, reviewed: o.reviewed }),
                None => Err(Error::InvalidArguments),
            },
            None => Err(Error::InvalidArguments),
        }
    } else {
        Err(Error::InvalidArguments)
    }
}

/// Reads the arguments of `themes`.
pub fn parse_themes(args: &[String]) -> (r: Result<Command, Error>)
    ensures
        answers(r, themes_request(texts(args@))),
{
    let ghost all = texts(args@);
    assert(all.len() == args@.len());
    if args.len() == 0 {
        return Err(Error::InvalidArguments);
    }
    assert(all[0] == args@[0]@);
    if same_text(args[0].as_str(), "list") {
        Ok(Command::ListThemes)
    } else if same_text(args[0].as_str(), "validate") && args.len() == 2 {
        assert(all[1] == args@[1]@);
        Ok(Command::ValidateTheme { path: args[1].clone() })
    } else {
        Err(Error::InvalidArguments)
    }
}

/// Reads the arguments of the program.
pub fn parse_arguments(args: &[String]) -> (r: Result<Command, Error>)
    ensures
        answers(r, request(texts(args@))),
{
    let ghost all = texts(args@);
    assert(all.len() == args@.len());
    let len: usize = args.len();
    if len > 0 {
        assert(all[0] == args@[0]@);
        let rest = vstd::slice::slice_subrange(args, 1, len);
        assert(texts(rest@) =~= all.skip(1));
        let name = args[0].as_str();
        if same_text(name, "--help") || same_text(name, "-h") {
            return Ok(Command::Help);
        } else if same_text(name, "comments") {
            return parse_comments(rest);
        } else if same_text(name, "review") {
            return parse_review(rest);
        } else if same_text(name, "themes") {
            return parse_themes(rest);
        }
    }
    Ok(Command::Review { args: copy_strings(args) })
}

/// Arguments without those that only ask for the output of Git.
pub open spec fn without_debug(args: Seq<Seq<char>>) -> Seq<Seq<char>>
    decreases args.len(),
{
    if args.len() == 0 {
        seq![]
    } else if args.last() == "--debug-git"@ {
        without_debug(args.drop_last())
    } else {
        without_debug(args.drop_last()).push(args.last())
    }
}

/// Whether the output of Git is asked for, and the other arguments.
pub fn split_debug(args: &[String]) -> (r: (bool, Vec<String>))
    ensures
        r.0 == texts(args@).contains("--debug-git"@),
        texts(r.1@) == without_debug(texts(args@)),
{
    let ghost all = texts(args@);
    let mut out: Vec<String> = Vec::new();
    let mut i: usize = 0;
    assert(texts(out@) =~= without_debug(all.take(0)));
    while i < args.len()
        invariant
            i <= args@.len(),
            all == texts(args@),
            texts(out@) == without_debug(all.take(i as int)),
        decreases args@.len() - i,
    {
        let ghost now = all.take(i + 1);
        let ghost before = texts(out@);
        assert(now.drop_last() =~= all.take(i as int));
        assert(now.last() == args@[i as int]@);
        if !same_text(args[i].as_str(), "--debug-git") {
            let copy = args[i].clone();
            out.push(copy);
            assert(texts(out@) =~= before.push(now.last()));
        }
        i += 1;
    }
    assert(all.take(i as int) =~= all);
    let debug = has_argument(args, 0, "--debug-git");
    assert(all.skip(0) =~= all);
    (debug, out)
}

// ---------------------------------------------------------------------------
// JSON
// ---------------------------------------------------------------------------

/// How a character is written in a JSON string.
pub open spec fn escaped(c: char) -> Seq<char> {
    if c == '"' {
        "\\\""@
    } else if c == '\\' {
        "\\\\"@
    } else if c == '\n' {
        "\\n"@
    } else if c == '\r' {
        "\\r"@
    } else if c == '\t' {
        "\\t"@
    } else if (c as u32) < 0x20 {
        "\\u00"@ + seq![hex_digit((c as u32 / 16) as nat), hex_digit((c as u32 % 16) as nat)]
    } else {
        seq![c]
    }
}

/// How characters are written in a JSON string.
pub open spec fn all_escaped(s: Seq<char>) -> Seq<char>
    decreases s.len(),
{
    if s.len() == 0 {
        seq![]
    } else {
        all_escaped(s.drop_last()) + escaped(s.last())
    }
}

/// A text as a JSON string.
pub open spec fn quoted(s: Seq<char>) -> Seq<char> {
    "\""@ + all_escaped(s) + "\""@
}

fn hex_char(d: u32) -> (r: char)
    requires
        d < 16,
    ensures
        r == hex_digit(d as nat),
{
    let v: u8 = if d < 10 {
        0x30 + d as u8
    } else {
        0x57 + d as u8
    };
    v as char
}

fn push_escaped(out: &mut String, c: char)
    ensures
        final(out)@ == old(out)@ + escaped(c),
{
    let ghost before = out@;
    if c == '"' {
        push_text(out, "\\\"");
    } else if c == '\\' {
        push_text(out, "\\\\");
    } else if c == '\n' {
        push_text(out, "\\n");
    } else if c == '\r' {
        push_text(out, "\\r");
    } else if c == '\t' {
        push_text(out, "\\t");
    } else if (c as u32) < 0x20 {
        let v: u32 = c as u32;
        push_text(out, "\\u00");
        out.push(hex_char(v / 16));
        out.push(hex_char(v % 16));
        assert(out@ =~= before + escaped(c));
    } else {
        out.push(c);
        assert(out@ =~= before + escaped(c));
    }
}

/// A text as a JSON string.
pub fn quote(value: &str) -> (r: String)
    ensures
        r@ == quoted(value@),
{
    let chars = chars_of(value);
    let mut out = String::new();
    push_text(&mut out, "\"");
    let mut i: usize = 0;
    assert(out@ =~= "\""@ + all_escaped(chars@.take(0)));
    while i < chars.len()
        invariant
            chars@ == value@,
            i <= chars@.len(),
            out@ == "\""@ + all_escaped(chars@.take(i as int)),
        decreases chars@.len() - i,
    {
        let ghost before = out@;
        push_escaped(&mut out, chars[i]);
        assert(chars@.take(i + 1).drop_last() =~= chars@.take(i as int));
        assert(out@ =~= "\""@ + all_escaped(chars@.take(i + 1)));
        i += 1;
    }
    assert(chars@.take(i as int) =~= chars@);
    push_text(&mut out, "\"");
    out
}

/// The value of a hexadecimal digit.
pub open spec fn hex_value(c: char) -> Option<u32> {
    if '0' <= c <= '9' {
        Some((c as u32 - 0x30) as u32)
    } else if 'a' <= c <= 'f' {
        Some((c as u32 - 0x57) as u32)
    } else if 'A' <= c <= 'F' {
        Some((c as u32 - 0x37) as u32)
    } else {
        None
    }
}

/// The first character that the inside of a JSON string stands for, and how
/// many characters it takes there.  Code points above the first plane, which
/// are written as pairs, are not read.
pub open spec fn first_unescaped(s: Seq<char>) -> Option<(char, int)> {
    if s.len() == 0 || s[0] == '"' || (s[0] as u32) < 0x20 {
        None
    } else if s[0] != '\\' {
        Some((s[0], 1))
    } else if s.len() < 2 {
        None
    } else if s[1] == '"' || s[1] == '\\' || s[1] == '/' {
        Some((s[1], 2))
    } else if s[1] == 'b' {
        Some(('\u{8}', 2))
    } else if s[1] == 'f' {
        Some(('\u{c}', 2))
    } else if s[1] == 'n' {
        Some(('\n', 2))
    } else if s[1] == 'r' {
        Some(('\r', 2))
    } else if s[1] == 't' {
        Some(('\t', 2))
    } else if s[1] == 'u' && s.len() >= 6 {
        match (hex_value(s[2]), hex_value(s[3]), hex_value(s[4]), hex_value(s[5])) {
            (Some(a), Some(b), Some(c), Some(d)) => {
                let v = a * 4096 + b * 256 + c * 16 + d;
                if v < 0xd800 {
                    Some((v as char, 6))
                } else {
                    None
                }
            },
            _ => None,
        }
    } else {
        None
    }
}

/// What the inside of a JSON string stands for, up to the quote that ends it.
pub open spec fn unescaped(s: Seq<char>) -> Option<Seq<char>>
    decreases s.len(),
{
    if s.len() > 0 && s[0] == '"' {
        Some(seq![])
    } else {
        match first_unescaped(s) {
            Some((c, n)) => if 0 < n <= s.len() {
                match unescaped(s.skip(n)) {
                    Some(rest) => Some(seq![c] + rest),
                    None => None,
                }
            } else {
                None
            },
            None => None,
        }
    }
}

proof fn lemma_control_digits(v: u32)
    requires
        v < 0x20,
    ensures
        hex_value(hex_digit((v / 16) as nat)) == Some((v / 16) as u32),
        hex_value(hex_digit((v % 16) as nat)) == Some((v % 16) as u32),
{
}

proof fn lemma_first_unescaped(c: char, rest: Seq<char>)
    ensures
        first_unescaped(escaped(c) + rest) == Some((c, escaped(c).len() as int)),
        escaped(c).len() > 0,
        escaped(c)[0] != '"',
{
    reveal_strlit("\\\"");
    reveal_strlit("\\\\");
    reveal_strlit("\\n");
    reveal_strlit("\\r");
    reveal_strlit("\\t");
    reveal_strlit("\\u00");
    let e = escaped(c);
    let s = e + rest;
    if c != '"' && c != '\\' && c != '\n' && c != '\r' && c != '\t' && (c as u32) < 0x20 {
        let v = c as u32;
        lemma_control_digits(v);
        assert(e.len() == 6);
        assert(s[0] == '\\' && s[1] == 'u' && s[2] == '0' && s[3] == '0');
        assert(s[4] == hex_digit((v / 16) as nat) && s[5] == hex_digit((v % 16) as nat));
        assert((v / 16) * 16 + v % 16 == v);
        assert((v as char) == c);
    } else {
        assert(s[0] == e[0]);
        if e.len() == 2 {
            assert(s[1] == e[1]);
        }
    }
}

proof fn lemma_unescape_from(s: Seq<char>, k: int, tail: Seq<char>)
    requires
        0 <= k <= s.len(),
        tail.len() > 0,
        tail[0] == '"',
    ensures
        unescaped(all_escaped_from(s, k) + tail) == Some(s.skip(k)),
    decreases s.len() - k,
{
    if k == s.len() {
        assert(all_escaped_from(s, k) + tail =~= tail);
        assert(s.skip(k) =~= Seq::<char>::empty());
    } else {
        lemma_unescape_from(s, k + 1, tail);
        let rest = all_escaped_from(s, k + 1) + tail;
        let e = escaped(s[k]);
        let whole = all_escaped_from(s, k) + tail;
        assert(whole =~= e + rest);
        lemma_first_unescaped(s[k], rest);
        assert(whole[0] == e[0]);
        assert(whole.skip(e.len() as int) =~= rest);
        assert(seq![s[k]] + s.skip(k + 1) =~= s.skip(k));
    }
}

/// The escaped characters from `k` on.
spec fn all_escaped_from(s: Seq<char>, k: int) -> Seq<char>
    decreases s.len() - k,
{
    if k >= s.len() {
        seq![]
    } else {
        escaped(s[k]) + all_escaped_from(s, k + 1)
    }
}

proof fn lemma_escaped_from(s: Seq<char>, k: int)
    requires
        0 <= k <= s.len(),
    ensures
        all_escaped(s.take(k)) + all_escaped_from(s, k) == all_escaped(s),
    decreases s.len() - k,
{
    if k == s.len() {
        assert(s.take(k) =~= s);
        assert(all_escaped(s) + Seq::<char>::empty() =~= all_escaped(s));
    } else {
        lemma_escaped_from(s, k + 1);
        assert(s.take(k + 1).drop_last() =~= s.take(k));
        assert(all_escaped(s.take(k)) + (escaped(s[k]) + all_escaped_from(s, k + 1)) =~= all_escaped(
            s.take(k + 1),
        ) + all_escaped_from(s, k + 1));
    }
}

/// A quoted text is read back as it was.
pub proof fn law_quote_round_trip(s: Seq<char>)
    ensures
        quoted(s).len() >= 2,
        quoted(s)[0] == '"',
        unescaped(quoted(s).skip(1)) == Some(s),
{
    reveal_strlit("\"");
    lemma_escaped_from(s, 0);
    assert(s.take(0) =~= Seq::<char>::empty());
    assert(all_escaped(s.take(0)) + all_escaped_from(s, 0) =~= all_escaped_from(s, 0));
    lemma_unescape_from(s, 0, "\""@);
    assert(quoted(s).skip(1) =~= all_escaped(s) + "\""@);
    assert(s.skip(0) =~= s);
}

/// The start of an answer in JSON.
#[verifier::opaque]
pub open spec fn envelope_text(repo_id: Seq<char>, target_id: Seq<char>) -> Seq<char> {
    "{\n  \"schema_version\": 1,\n  \"repository_id\": "@ + quoted(repo_id)
        + ",\n  \"review_target_id\": "@ + quoted(target_id)
}

fn push_quoted(out: &mut String, value: &str)
    ensures
        final(out)@ == old(out)@ + quoted(value@),
{
    let text = quote(value);
    push_text(out, text.as_str());
}

pub fn envelope(snapshot: &DiffSnapshot) -> (r: String)
    ensures
        r@ == envelope_text(snapshot.repository.repo_id@, snapshot.review_target.target_id@),
{
    reveal(envelope_text);
    let mut out = String::new();
    push_text(&mut out, "{\n  \"schema_version\": 1,\n  \"repository_id\": ");
    push_quoted(&mut out, snapshot.repository.repo_id.as_str());
    push_text(&mut out, ",\n  \"review_target_id\": ");
    push_quoted(&mut out, snapshot.review_target.target_id.as_str());
    assert(out@ =~= envelope_text(
        snapshot.repository.repo_id@,
        snapshot.review_target.target_id@,
    ));
    out
}

/// A field of an object on a line of its own.
pub open spec fn field_text(
    indent: Seq<char>,
    key: Seq<char>,
    value: Seq<char>,
    comma: bool,
) -> Seq<char> {
    indent + "  \""@ + key + "\": "@ + value + (if comma {
        ","@
    } else {
        ""@
    }) + "\n"@
}

fn field(out: &mut String, indent: &str, key: &str, value: &str, comma: bool)
    ensures
        final(out)@ == old(out)@ + field_text(indent@, key@, value@, comma),
{
    let ghost before = out@;
    push_text(out, indent);
    push_text(out, "  \"");
    push_text(out, key);
    push_text(out, "\": ");
    push_text(out, value);
    push_text(
        out,
        if comma {
            ","
        } else {
            ""
        },
    );
    push_text(out, "\n");
    assert(out@ =~= before + field_text(indent@, key@, value@, comma));
}

/// What a comment says of itself.
pub open spec fn comment_fields(c: CommentModel, indent: Seq<char>) -> Seq<char> {
    field_text(indent, "comment_id"@, quoted(c.comment_id), true) + field_text(
        indent,
        "file_path"@,
        quoted(c.file_path),
        true,
    ) + field_text(indent, "start_line"@, decimal(c.start_line as nat), true) + field_text(
        indent,
        "end_line"@,
        decimal(c.end_line as nat),
        true,
    ) + field_text(indent, "side"@, quoted(c.side), true) + field_text(
        indent,
        "body"@,
        quoted(c.body),
        true,
    ) + field_text(indent, "author"@, quoted(c.author), true) + field_text(
        indent,
        "match_status"@,
        quoted(c.match_status.label_text()),
        true,
    )
}

/// Where a comment is anchored.
pub open spec fn anchor_fields(c: CommentModel, indent: Seq<char>) -> Seq<char> {
    field_text(indent, "hunk_header"@, quoted(c.hunk_header), true) + field_text(
        indent,
        "patch_fingerprint"@,
        quoted(c.patch_fingerprint),
        true,
    ) + field_text(indent, "stable_line_ids"@, "["@ + quoted(c.stable_line_id) + "]"@, false)
}

/// A comment as a JSON object.
#[verifier::opaque]
pub open spec fn comment_object(c: CommentModel, indent: Seq<char>) -> Seq<char> {
    indent + "{\n"@ + comment_fields(c, indent) + indent + "  \"anchor\": {\n"@ + anchor_fields(
        c,
        indent + "  "@,
    ) + indent + "  },\n"@ + field_text(
        indent,
        "review_target_id"@,
        quoted(c.review_target_id),
        false,
    ) + indent + "}"@
}

fn number_value(n: u32) -> (r: String)
    ensures
        r@ == decimal(n as nat),
{
    crate::util::decimal_text(n as u64)
}

fn push_comment_fields(out: &mut String, c: &Comment, indent: &str)
    ensures
        final(out)@ == old(out)@ + comment_fields(c@, indent@),
{
    let ghost before = out@;
    let id = quote(c.comment_id.as_str());
    field(out, indent, "comment_id", id.as_str(), true);
    let path = quote(c.file_path.as_str());
    field(out, indent, "file_path", path.as_str(), true);
    let start = number_value(c.start_line);
    field(out, indent, "start_line", start.as_str(), true);
    let end = number_value(c.end_line);
    field(out, indent, "end_line", end.as_str(), true);
    let side = quote(c.side.as_str());
    field(out, indent, "side", side.as_str(), true);
    let body = quote(c.body.as_str());
    field(out, indent, "body", body.as_str(), true);
    let author = quote(c.author.as_str());
    field(out, indent, "author", author.as_str(), true);
    let status = quote(c.match_status.label());
    field(out, indent, "match_status", status.as_str(), true);
    assert(out@ =~= before + comment_fields(c@, indent@));
}

fn push_anchor_fields(out: &mut String, c: &Comment, indent: &str)
    ensures
        final(out)@ == old(out)@ + anchor_fields(c@, indent@),
{
    let ghost before = out@;
    let header = quote(c.hunk_header.as_str());
    field(out, indent, "hunk_header", header.as_str(), true);
    let fingerprint = quote(c.patch_fingerprint.as_str());
    field(out, indent, "patch_fingerprint", fingerprint.as_str(), true);
    let mut ids = String::new();
    push_text(&mut ids, "[");
    push_quoted(&mut ids, c.stable_line_id.as_str());
    push_text(&mut ids, "]");
    assert(ids@ =~= "["@ + quoted(c@.stable_line_id) + "]"@);
    field(out, indent, "stable_line_ids", ids.as_str(), false);
    assert(out@ =~= before + anchor_fields(c@, indent@));
}

/// A comment as a JSON object.
pub fn comment_json(c: &Comment, indent: &str) -> (r: String)
    ensures
        r@ == comment_object(c@, indent@),
{
    reveal(comment_object);
    let mut out = String::new();
    push_text(&mut out, indent);
    push_text(&mut out, "{\n");
    push_comment_fields(&mut out, c, indent);
    push_text(&mut out, indent);
    push_text(&mut out, "  \"anchor\": {\n");
    let mut deeper = String::new();
    push_text(&mut deeper, indent);
    push_text(&mut deeper, "  ");
    assert(deeper@ =~= indent@ + "  "@);
    push_anchor_fields(&mut out, c, deeper.as_str());
    push_text(&mut out, indent);
    push_text(&mut out, "  },\n");
    let target = quote(c.review_target_id.as_str());
    field(&mut out, indent, "review_target_id", target.as_str(), false);
    push_text(&mut out, indent);
    push_text(&mut out, "}");
    assert(out@ =~= comment_object(c@, indent@));
    out
}

/// A comment for a reader.
#[verifier::opaque]
pub open spec fn comment_summary(c: CommentModel) -> Seq<char> {
    c.comment_id + " "@ + c.file_path + ":"@ + decimal(c.start_line as nat) + "-"@ + decimal(
        c.end_line as nat,
    ) + " ["@ + c.match_status.label_text() + "] "@ + c.author + "\n"@ + c.body + "\n"@
}

pub fn comment_text(c: &Comment) -> (r: String)
    ensures
        r@ == comment_summary(c@),
{
    reveal(comment_summary);
    let mut out = String::new();
    push_text(&mut out, c.comment_id.as_str());
    push_text(&mut out, " ");
    push_text(&mut out, c.file_path.as_str());
    push_text(&mut out, ":");
    push_decimal(&mut out, c.start_line as u64);
    push_text(&mut out, "-");
    push_decimal(&mut out, c.end_line as u64);
    push_text(&mut out, " [");
    push_text(&mut out, c.match_status.label());
    push_text(&mut out, "] ");
    push_text(&mut out, c.author.as_str());
    push_text(&mut out, "\n");
    push_text(&mut out, c.body.as_str());
    push_text(&mut out, "\n");
    assert(out@ =~= comment_summary(c@));
    out
}

// ---------------------------------------------------------------------------
// Answers
// ---------------------------------------------------------------------------

/// The first `n` comments that a filter lets through, as JSON objects.
pub open spec fn listed_objects(
    comments: Seq<CommentModel>,
    filter: Option<Seq<char>>,
    n: int,
) -> Seq<char>
    decreases n,
{
    if n <= 0 {
        seq![]
    } else {
        let before = listed_objects(comments, filter, n - 1);
        if passes(comments[n - 1], filter) {
            before + (if before.len() > 0 {
                ",\n"@
            } else {
                ""@
            }) + comment_object(comments[n - 1], "    "@)
        } else {
            before
        }
    }
}

/// The first `n` comments that a filter lets through, for a reader.
pub open spec fn listed_summaries(
    comments: Seq<CommentModel>,
    filter: Option<Seq<char>>,
    n: int,
) -> Seq<char>
    decreases n,
{
    if n <= 0 {
        seq![]
    } else {
        listed_summaries(comments, filter, n - 1) + (if passes(comments[n - 1], filter) {
            comment_summary(comments[n - 1])
        } else {
            seq![]
        })
    }
}

/// The answer to a request for the comments.
pub open spec fn list_text(
    repo_id: Seq<char>,
    target_id: Seq<char>,
    comments: Seq<CommentModel>,
    filter: Option<Seq<char>>,
    json: bool,
) -> Seq<char> {
    let n = comments.len() as int;
    if json {
        envelope_text(repo_id, target_id) + ",\n  \"comments\": [\n"@ + listed_objects(
            comments,
            filter,
            n,
        ) + "\n  ]\n}\n"@
    } else if listed_summaries(comments, filter, n).len() == 0 {
        "no comments\n"@
    } else {
        listed_summaries(comments, filter, n)
    }
}

fn is_empty(s: &str) -> (r: bool)
    ensures
        r == (s@.len() == 0),
{
    proof {
        reveal_strlit("");
        assert(s@.len() == 0 <==> s@ =~= ""@);
    }
    same_text(s, "")
}

fn objects_of(store: &Store, filter: Option<&str>) -> (r: String)
    ensures
        r@ == listed_objects(
            store@.comments,
            filter_text(filter),
            store@.comments.len() as int,
        ),
{
    let ghost all = store@.comments;
    let ghost f = filter_text(filter);
    let mut out = String::new();
    let mut i: usize = 0;
    assert(out@ =~= listed_objects(all, f, 0));
    while i < store.comments.len()
        invariant
            i <= store.comments@.len(),
            all == store@.comments,
            f == filter_text(filter),
            out@ == listed_objects(all, f, i as int),
        decreases store.comments@.len() - i,
    {
        let c = &store.comments[i];
        assert(all[i as int] == c@);
        let ghost before = out@;
        if crate::store::matches_file(c, filter) {
            let separator = if is_empty(out.as_str()) {
                ""
            } else {
                ",\n"
            };
            push_text(&mut out, separator);
            let text = comment_json(c, "    ");
            push_text(&mut out, text.as_str());
            assert(out@ =~= before + separator@ + comment_object(c@, "    "@));
        }
        i += 1;
    }
    out
}

fn summaries_of(store: &Store, filter: Option<&str>) -> (r: String)
    ensures
        r@ == listed_summaries(
            store@.comments,
            filter_text(filter),
            store@.comments.len() as int,
        ),
{
    let ghost all = store@.comments;
    let ghost f = filter_text(filter);
    let mut out = String::new();
    let mut i: usize = 0;
    assert(out@ =~= listed_summaries(all, f, 0));
    while i < store.comments.len()
        invariant
            i <= store.comments@.len(),
            all == store@.comments,
            f == filter_text(filter),
            out@ == listed_summaries(all, f, i as int),
        decreases store.comments@.len() - i,
    {
        let c = &store.comments[i];
        assert(all[i as int] == c@);
        let ghost before = out@;
        if crate::store::matches_file(c, filter) {
            let text = comment_text(c);
            push_text(&mut out, text.as_str());
        }
        assert(out@ =~= listed_summaries(all, f, i + 1));
        i += 1;
    }
    out
}

/// The answer to a request for the comments.
pub fn list_output(snapshot: &DiffSnapshot, store: &Store, file: Option<&str>, json: bool) -> (r:
    String)
    ensures
        r@ == list_text(
            snapshot.repository.repo_id@,
            snapshot.review_target.target_id@,
            store@.comments,
            filter_text(file),
            json,
        ),
{
    if json {
        let mut out = envelope(snapshot);
        push_text(&mut out, ",\n  \"comments\": [\n");
        let objects = objects_of(store, file);
        push_text(&mut out, objects.as_str());
        push_text(&mut out, "\n  ]\n}\n");
        out
    } else {
        let out = summaries_of(store, file);
        if is_empty(out.as_str()) {
            "no comments\n".to_string()
        } else {
            out
        }
    }
}

pub open spec fn truth(b: bool) -> Seq<char> {
    if b {
        "true"@
    } else {
        "false"@
    }
}

/// The answer to a request to remove comments.
pub open spec fn clean_text(
    repo_id: Seq<char>,
    target_id: Seq<char>,
    count: nat,
    json: bool,
    dry_run: bool,
    all: bool,
) -> Seq<char> {
    if json {
        envelope_text(repo_id, target_id) + ",\n  \"removed_count\": "@ + decimal(count)
            + ",\n  \"dry_run\": "@ + truth(dry_run) + ",\n  \"all\": "@ + truth(all) + "\n}\n"@
    } else {
        (if dry_run {
            "would remove "@
        } else {
            "removed "@
        }) + decimal(count) + (if all {
            " comments\n"@
        } else {
            " outdated comments\n"@
        })
    }
}

fn truth_text(b: bool) -> (r: &'static str)
    ensures
        r@ == truth(b),
{
    if b {
        "true"
    } else {
        "false"
    }
}

/// The answer to a request to remove comments.
pub fn clean_output(
    snapshot: &DiffSnapshot,
    count: usize,
    json: bool,
    dry_run: bool,
    all: bool,
) -> (r: String)
    ensures
        r@ == clean_text(
            snapshot.repository.repo_id@,
            snapshot.review_target.target_id@,
            count as nat,
            json,
            dry_run,
            all,
        ),
{
    let mut out = if json {
        envelope(snapshot)
    } else {
        String::new()
    };
    if json {
        push_text(&mut out, ",\n  \"removed_count\": ");
        push_decimal(&mut out, count as u64);
        push_text(&mut out, ",\n  \"dry_run\": ");
        push_text(&mut out, truth_text(dry_run));
        push_text(&mut out, ",\n  \"all\": ");
        push_text(&mut out, truth_text(all));
        push_text(&mut out, "\n}\n");
    } else {
        push_text(
            &mut out,
            if dry_run {
                "would remove "
            } else {
                "removed "
            },
        );
        push_decimal(&mut out, count as u64);
        push_text(
            &mut out,
            if all {
                " comments\n"
            } else {
                " outdated comments\n"
            },
        );
    }
    assert(out@ =~= clean_text(
        snapshot.repository.repo_id@,
        snapshot.review_target.target_id@,
        count as nat,
        json,
        dry_run,
        all,
    ));
    out
}

/// Which comments a request to remove some is about.
pub open spec fn removed_by(target_id: Seq<char>, file: Option<Seq<char>>, all: bool) -> spec_fn(
    CommentModel,
) -> bool {
    if all {
        any_on(file)
    } else {
        outdated_on(target_id, file)
    }
}

/// The first comment with an identity.
pub open spec fn comment_with_id(comments: Seq<CommentModel>, id: Seq<char>) -> Option<CommentModel>
    decreases comments.len(),
{
    if comments.len() == 0 {
        None
    } else if comments[0].comment_id == id {
        Some(comments[0])
    } else {
        comment_with_id(comments.skip(1), id)
    }
}

fn find_comment(store: &Store, id: &str) -> (r: Option<usize>)
    ensures
        match r {
            Some(i) => i < store.comments@.len() && comment_with_id(store@.comments, id@) == Some(
                store.comments@[i as int]@,
            ),
            None => comment_with_id(store@.comments, id@) is None,
        },
{
    let ghost all = store@.comments;
    let mut i: usize = 0;
    assert(all.skip(0) =~= all);
    while i < store.comments.len()
        invariant
            i <= store.comments@.len(),
            all == store@.comments,
            comment_with_id(all, id@) == comment_with_id(all.skip(i as int), id@),
        decreases store.comments@.len() - i,
    {
        assert(all.skip(i as int)[0] == store.comments@[i as int]@);
        assert(all.skip(i as int).skip(1) =~= all.skip(i + 1));
        if same_text(store.comments[i].comment_id.as_str(), id) {
            return Some(i);
        }
        i += 1;
    }
    None
}

/// The answer to a request for one comment.
pub open spec fn get_text(c: CommentModel, json: bool) -> Seq<char> {
    if json {
        comment_object(c, ""@) + "\n"@
    } else {
        comment_summary(c)
    }
}

/// The answer to a request for one comment.
pub fn get_output(store: &Store, id: &str, json: bool) -> (r: Result<String, Error>)
    ensures
        match r {
            Ok(text) => comment_with_id(store@.comments, id@) matches Some(c) && text@ == get_text(
                c,
                json,
            ),
            Err(e) => comment_with_id(store@.comments, id@) is None && e == Error::InvalidArguments,
        },
{
    match find_comment(store, id) {
        Some(i) => {
            let c = &store.comments[i];
            if json {
                let mut out = comment_json(c, "");
                push_text(&mut out, "\n");
                Ok(out)
            } else {
                Ok(comment_text(c))
            }
        },
        None => Err(Error::InvalidArguments),
    }
}

/// Whether a line has a number on either side.
pub open spec fn is_numbered(l: LineModel, number: u32) -> bool {
    l.new_lineno == Some(number) || l.old_lineno == Some(number)
}

/// The first line with a number.
pub open spec fn line_numbered(lines: Seq<LineModel>, number: u32) -> Option<LineModel>
    decreases lines.len(),
{
    if lines.len() == 0 {
        None
    } else if is_numbered(lines[0], number) {
        Some(lines[0])
    } else {
        line_numbered(lines.skip(1), number)
    }
}

/// The first line of a file with a number, and the heading of its hunk.
pub open spec fn place_numbered(hunks: Seq<HunkModel>, number: u32) -> Option<
    (LineModel, Seq<char>),
>
    decreases hunks.len(),
{
    if hunks.len() == 0 {
        None
    } else if line_numbered(hunks[0].lines, number) is Some {
        Some((line_numbered(hunks[0].lines, number)->0, hunks[0].header))
    } else {
        place_numbered(hunks.skip(1), number)
    }
}

fn has_number(n: Option<u32>, number: u32) -> (r: bool)
    ensures
        r == (n == Some(number)),
{
    match n {
        Some(x) => x == number,
        None => false,
    }
}

fn find_in_hunk(hunk: &DiffHunk, number: u32) -> (r: Option<&DiffLine>)
    ensures
        match r {
            Some(l) => line_numbered(hunk@.lines, number) == Some(l@),
            None => line_numbered(hunk@.lines, number) is None,
        },
{
    let ghost all = hunk@.lines;
    let mut i: usize = 0;
    assert(all.skip(0) =~= all);
    while i < hunk.lines.len()
        invariant
            i <= hunk.lines@.len(),
            all == line_models(hunk.lines@),
            line_numbered(all, number) == line_numbered(all.skip(i as int), number),
        decreases hunk.lines@.len() - i,
    {
        let line = &hunk.lines[i];
        assert(all.skip(i as int)[0] == line@);
        assert(all.skip(i as int).skip(1) =~= all.skip(i + 1));
        if has_number(line.new_lineno, number) || has_number(line.old_lineno, number) {
            return Some(line);
        }
        i += 1;
    }
    None
}

pub fn find_line(file: &DiffFile, number: u32) -> (r: Option<(&DiffLine, &str)>)
    ensures
        match r {
            Some((line, header)) => place_numbered(file@.hunks, number) == Some((line@, header@)),
            None => place_numbered(file@.hunks, number) is None,
        },
{
    let ghost all = file@.hunks;
    let mut i: usize = 0;
    assert(all.skip(0) =~= all);
    while i < file.hunks.len()
        invariant
            i <= file.hunks@.len(),
            all == hunk_models(file.hunks@),
            place_numbered(all, number) == place_numbered(all.skip(i as int), number),
        decreases file.hunks@.len() - i,
    {
        let hunk = &file.hunks[i];
        assert(all.skip(i as int)[0] == hunk@);
        assert(all.skip(i as int).skip(1) =~= all.skip(i + 1));
        if let Some(line) = find_in_hunk(hunk, number) {
            return Some((line, hunk.header.as_str()));
        }
        i += 1;
    }
    None
}

/// The file of a snapshot with a path.
pub fn find_file<'a>(snapshot: &'a DiffSnapshot, path: &str) -> (r: Result<&'a DiffFile, Error>)
    ensures
        match r {
            Ok(f) => file_with_path(file_models(snapshot.files@), path@) == Some(f@),
            Err(e) => file_with_path(file_models(snapshot.files@), path@) is None && e
                == Error::InvalidArguments,
        },
{
    match find_path(&snapshot.files, path) {
        Some(i) => Ok(&snapshot.files[i]),
        None => Err(Error::InvalidArguments),
    }
}

/// A comment to be added: what it makes of the store, and the comment.
pub fn add_comment(
    snapshot: &DiffSnapshot,
    store: &Store,
    file: &str,
    line: u32,
    end: u32,
    body: &str,
    author: &str,
    now: &str,
) -> (r: Result<(CommentsChange, Comment), Error>)
    ensures
        ({
            let found = file_with_path(file_models(snapshot.files@), file@);
            match r {
                Ok((change, comment)) => {
                    &&& found is Some
                    &&& place_numbered((found->0).hunks, line) matches Some((l, header))
                        && comment@ == new_comment(
                        snapshot.repository.repo_id@,
                        snapshot.review_target.target_id@,
                        found->0,
                        l,
                        header,
                        end,
                        body@,
                        author@,
                        now@,
                    )
                    &&& comment_models(change.comments@) == store@.comments.push(comment@)
                    &&& model(change.document) == comments_document(
                        store@,
                        store@.comments.push(comment@),
                    )
                },
                Err(e) => e == Error::InvalidArguments && (found is None || place_numbered(
                    (found->0).hunks,
                    line,
                ) is None),
            }
        }),
{
    let file = match find_file(snapshot, file) {
        Ok(f) => f,
        Err(e) => {
            return Err(e);
        },
    };
    match find_line(file, line) {
        Some((l, header)) => Ok(
            store.add_comment(
                snapshot.repository.repo_id.as_str(),
                snapshot.review_target.target_id.as_str(),
                file,
                l,
                header,
                end,
                body,
                author,
                now,
            ),
        ),
        None => Err(Error::InvalidArguments),
    }
}

/// What a request is answered, and what it makes of the comments.  The caller
/// writes the document, applies the change, and then shows the answer.
#[derive(Debug)]
pub struct Reply {
    pub output: String,
    pub change: Option<CommentsChange>,
}

/// The comments of a store as they match a snapshot.
pub open spec fn refreshed_comments(store: StoreModel, snapshot: DiffSnapshot) -> Seq<CommentModel> {
    store.comments.map_values(
        |c: CommentModel|
            refreshed(c, file_models(snapshot.files@), snapshot.review_target.target_id@),
    )
}

/// Removes comments, or says how many would be removed.
pub fn clean_comments(
    snapshot: &DiffSnapshot,
    store: &Store,
    file: Option<&str>,
    json: bool,
    dry_run: bool,
    all: bool,
) -> (r: Reply)
    ensures
        ({
            let target = snapshot.review_target.target_id@;
            let remove = removed_by(target, filter_text(file), all);
            let count = count_comments(
                store@.comments,
                remove,
                store@.comments.len() as int,
            );
            &&& r.output@ == clean_text(
                snapshot.repository.repo_id@,
                target,
                count,
                json,
                dry_run,
                all,
            )
            &&& if dry_run {
                r.change is None
            } else {
                store.is_removal(remove, (count as usize, r.change))
            }
        }),
{
    let target = snapshot.review_target.target_id.as_str();
    if dry_run {
        let count: usize = if all {
            store.all_comment_count(file)
        } else {
            store.outdated_comment_count(target, file)
        };
        Reply { output: clean_output(snapshot, count, json, dry_run, all), change: None }
    } else {
        let (count, change) = if all {
            store.remove_all_comments(file)
        } else {
            store.remove_outdated_comments(target, file)
        };
        Reply { output: clean_output(snapshot, count, json, dry_run, all), change }
    }
}

/// Answers a request on comments.
pub fn comments_command(
    command: Command,
    snapshot: &DiffSnapshot,
    store: &mut Store,
    author: &str,
    now: &str,
) -> (r: Result<Reply, Error>)
    requires
        command is ListComments || command is CleanComments || command is GetComment
            || command is AddComment,
    ensures
        final(store)@ == if command is AddComment {
            old(store)@
        } else {
            StoreModel { comments: refreshed_comments(old(store)@, *snapshot), ..old(store)@ }
        },
        final(store).repo_dir == old(store).repo_dir,
        ({
            let comments = refreshed_comments(old(store)@, *snapshot);
            let repo = snapshot.repository.repo_id@;
            let target = snapshot.review_target.target_id@;
            match command@ {
                CommandModel::ListComments { file, json } => r matches Ok(reply)
                    && reply.output@ == list_text(repo, target, comments, file, json)
                    && reply.change is None,
                CommandModel::CleanComments { file, json, dry_run, all } => {
                    let remove = removed_by(target, file, all);
                    let count = count_comments(comments, remove, comments.len() as int);
                    r matches Ok(reply) && reply.output@ == clean_text(
                        repo,
                        target,
                        count,
                        json,
                        dry_run,
                        all,
                    ) && if dry_run {
                        reply.change is None
                    } else {
                        final(store).is_removal(remove, (count as usize, reply.change))
                    }
                },
                CommandModel::GetComment { id, json } => match r {
                    Ok(reply) => reply.change is None && (comment_with_id(
                        comments,
                        id,
                    ) matches Some(c) && reply.output@ == get_text(c, json)),
                    Err(e) => comment_with_id(comments, id) is None && e == Error::InvalidArguments,
                },
                CommandModel::AddComment { file, line, end, body } => {
                    let found = file_with_path(file_models(snapshot.files@), file);
                    match r {
                        Ok(reply) => {
                            &&& found is Some
                            &&& place_numbered((found->0).hunks, line) matches Some((l, header))
                                && ({
                                let c = new_comment(
                                    repo,
                                    target,
                                    found->0,
                                    l,
                                    header,
                                    end,
                                    body,
                                    author@,
                                    now@,
                                );
                                &&& reply.output@ == comment_summary(c)
                                &&& reply.change matches Some(change) && comment_models(
                                    change.comments@,
                                ) == old(store)@.comments.push(c) && model(change.document)
                                    == comments_document(old(store)@, old(store)@.comments.push(c))
                            })
                        },
                        Err(e) => e == Error::InvalidArguments && (found is None || place_numbered(
                            (found->0).hunks,
                            line,
                        ) is None),
                    }
                },
                _ => true,
            }
        }),
{
    match command {
        Command::ListComments { file, json } => {
            store.refresh_match_status(snapshot);
            Ok(
                Reply {
                    output: list_output(snapshot, store, as_filter(&file), json),
                    change: None,
                },
            )
        },
        Command::CleanComments { file, json, dry_run, all } => {
            store.refresh_match_status(snapshot);
            Ok(clean_comments(snapshot, store, as_filter(&file), json, dry_run, all))
        },
        Command::GetComment { id, json } => {
            store.refresh_match_status(snapshot);
            match get_output(store, id.as_str(), json) {
                Ok(output) => Ok(Reply { output, change: None }),
                Err(e) => Err(e),
            }
        },
        Command::AddComment { file, line, end, body } => match add_comment(
            snapshot,
            store,
            file.as_str(),
            line,
            end,
            body.as_str(),
            author,
            now,
        ) {
            Ok((change, comment)) => Ok(
                Reply { output: comment_text(&comment), change: Some(change) },
            ),
            Err(e) => Err(e),
        },
        _ => Err(Error::InvalidArguments),
    }
}

fn as_filter(file: &Option<String>) -> (r: Option<&str>)
    ensures
        filter_text(r) == opt(*file),
{
    match file {
        Some(f) => Some(f.as_str()),
        None => None,
    }
}

// ---------------------------------------------------------------------------
// Review state
// ---------------------------------------------------------------------------

/// What is said of a file.
#[verifier::opaque]
pub open spec fn file_entry(f: FileModel, status: Seq<char>, count: nat, json: bool) -> Seq<char> {
    if json {
        "    {\n      \"file_path\": "@ + quoted(f.path) + ",\n      \"status\": "@ + quoted(status)
            + ",\n      \"patch_fingerprint\": "@ + quoted(f.patch_fingerprint)
            + ",\n      \"comment_count\": "@ + decimal(count) + "\n    }"@
    } else {
        status + " "@ + f.path + " comments="@ + decimal(count) + " fingerprint="@
            + f.patch_fingerprint + "\n"@
    }
}

/// The status of a file of a store.
pub open spec fn status_text(store: StoreModel, f: FileModel, target: Seq<char>) -> Seq<char> {
    if reviewed(store.states, f.path, f.patch_fingerprint, target) {
        "reviewed"@
    } else {
        "unreviewed"@
    }
}

/// Whether a file is asked for.
pub open spec fn file_wanted(f: FileModel, filter: Option<Seq<char>>) -> bool {
    filter matches Some(p) ==> p == f.path
}

/// The entries of the first `n` files that are asked for.
pub open spec fn file_entries(
    files: Seq<FileModel>,
    store: StoreModel,
    target: Seq<char>,
    filter: Option<Seq<char>>,
    json: bool,
    n: int,
) -> Seq<char>
    decreases n,
{
    if n <= 0 {
        seq![]
    } else {
        let before = file_entries(files, store, target, filter, json, n - 1);
        let f = files[n - 1];
        if file_wanted(f, filter) {
            before + (if json && before.len() > 0 {
                ",\n"@
            } else {
                ""@
            }) + file_entry(
                f,
                status_text(store, f, target),
                count_comments(
                    store.comments,
                    on_file(f.path, target),
                    store.comments.len() as int,
                ),
                json,
            )
        } else {
            before
        }
    }
}

/// The answer to a request for the review state.
pub open spec fn review_text(
    files: Seq<FileModel>,
    store: StoreModel,
    repo_id: Seq<char>,
    target: Seq<char>,
    filter: Option<Seq<char>>,
    json: bool,
) -> Seq<char> {
    let entries = file_entries(files, store, target, filter, json, files.len() as int);
    if json {
        envelope_text(repo_id, target) + ",\n  \"files\": [\n"@ + entries + "\n  ]\n}\n"@
    } else if entries.len() == 0 {
        "no changed files\n"@
    } else {
        entries
    }
}

fn push_file_entry(out: &mut String, f: &DiffFile, status: &str, count: usize, json: bool)
    ensures
        final(out)@ == old(out)@ + file_entry(f@, status@, count as nat, json),
{
    reveal(file_entry);
    let ghost before = out@;
    if json {
        push_text(out, "    {\n      \"file_path\": ");
        push_quoted(out, f.path.as_str());
        push_text(out, ",\n      \"status\": ");
        push_quoted(out, status);
        push_text(out, ",\n      \"patch_fingerprint\": ");
        push_quoted(out, f.patch_fingerprint.as_str());
        push_text(out, ",\n      \"comment_count\": ");
        push_decimal(out, count as u64);
        push_text(out, "\n    }");
    } else {
        push_text(out, status);
        push_text(out, " ");
        push_text(out, f.path.as_str());
        push_text(out, " comments=");
        push_decimal(out, count as u64);
        push_text(out, " fingerprint=");
        push_text(out, f.patch_fingerprint.as_str());
        push_text(out, "\n");
    }
    assert(out@ =~= before + file_entry(f@, status@, count as nat, json));
}

fn wants_file(f: &DiffFile, filter: Option<&str>) -> (r: bool)
    ensures
        r == file_wanted(f@, filter_text(filter)),
{
    match filter {
        Some(p) => same_text(p, f.path.as_str()),
        None => true,
    }
}

fn entries_of(snapshot: &DiffSnapshot, store: &Store, filter: Option<&str>, json: bool) -> (r:
    String)
    ensures
        r@ == file_entries(
            file_models(snapshot.files@),
            store@,
            snapshot.review_target.target_id@,
            filter_text(filter),
            json,
            snapshot.files@.len() as int,
        ),
{
    let ghost files = file_models(snapshot.files@);
    let target = snapshot.review_target.target_id.as_str();
    let ghost ft = filter_text(filter);
    let mut out = String::new();
    let mut i: usize = 0;
    assert(out@ =~= file_entries(files, store@, target@, ft, json, 0));
    while i < snapshot.files.len()
        invariant
            i <= snapshot.files@.len(),
            files == file_models(snapshot.files@),
            ft == filter_text(filter),
            out@ == file_entries(files, store@, target@, ft, json, i as int),
        decreases snapshot.files@.len() - i,
    {
        let f = &snapshot.files[i];
        assert(files[i as int] == f@);
        let ghost before = out@;
        if wants_file(f, filter) {
            let status = store.status_for_file(
                f.path.as_str(),
                f.patch_fingerprint.as_str(),
                target,
            );
            let count: usize = store.comment_count(f.path.as_str(), target);
            let separator = if json && !is_empty(out.as_str()) {
                ",\n"
            } else {
                ""
            };
            push_text(&mut out, separator);
            push_file_entry(&mut out, f, status, count, json);
            assert(out@ =~= before + separator@ + file_entry(f@, status@, count as nat, json));
        }
        i += 1;
    }
    out
}

/// The answer to a request for the review state.
pub fn review_output(snapshot: &DiffSnapshot, store: &Store, filter: Option<&str>, json: bool) -> (r:
    String)
    ensures
        r@ == review_text(
            file_models(snapshot.files@),
            store@,
            snapshot.repository.repo_id@,
            snapshot.review_target.target_id@,
            filter_text(filter),
            json,
        ),
{
    assert(file_models(snapshot.files@).len() == snapshot.files@.len());
    let entries = entries_of(snapshot, store, filter, json);
    if json {
        let mut out = envelope(snapshot);
        push_text(&mut out, ",\n  \"files\": [\n");
        push_text(&mut out, entries.as_str());
        push_text(&mut out, "\n  ]\n}\n");
        out
    } else if is_empty(entries.as_str()) {
        "no changed files\n".to_string()
    } else {
        entries
    }
}

/// What marking a file makes of the store.  The caller writes the document,
/// applies the change, and then shows the state of the file.
pub fn mark_file(
    snapshot: &DiffSnapshot,
    store: &Store,
    path: &str,
    reviewed: bool,
    now: &str,
) -> (r: Result<StatesChange, Error>)
    ensures
        match (r, file_with_path(file_models(snapshot.files@), path@)) {
            (Ok(change), Some(f)) => state_models(change.states@) == with_reviewed(
                store@.states,
                snapshot.repository.repo_id@,
                snapshot.review_target.target_id@,
                f,
                review_label(reviewed),
                now@,
            ) && model(change.document) == states_document(store@, state_models(change.states@)),
            (Err(e), None) => e == Error::InvalidArguments,
            _ => false,
        },
{
    match find_file(snapshot, path) {
        Ok(f) => Ok(
            store.set_reviewed(
                snapshot.repository.repo_id.as_str(),
                snapshot.review_target.target_id.as_str(),
                f,
                reviewed,
                now,
            ),
        ),
        Err(e) => Err(e),
    }
}

/// How the program is used.
pub fn help_text() -> (r: &'static str)
    ensures
        r@ == "diffo - terminal Git diff review\n\nUsage:\n  diffo [git-diff-args]\n  diffo comments list [--file <path>] [--json]\n  diffo comments get <comment-id> [--json]\n  diffo comments add --file <path> --line <n> [--end <n>] --body <text>\n  diffo comments clean [--all] [--file <path>] [--dry-run] [--json]\n  diffo review status [--file <path>] [--json]\n  diffo review mark --file <path> [--reviewed|--unreviewed]\n  diffo themes list\n  diffo themes validate <file>\n\nInteractive keys:\n  j/k line, J/K file, n/p change, C unfold/fold mode, z/Z folds, v stacked/split, r reviewed, c comment, V select, y copy, Esc clear selection, u unreviewed, ? help, q quit\n"@,
{
    "diffo - terminal Git diff review\n\nUsage:\n  diffo [git-diff-args]\n  diffo comments list [--file <path>] [--json]\n  diffo comments get <comment-id> [--json]\n  diffo comments add --file <path> --line <n> [--end <n>] --body <text>\n  diffo comments clean [--all] [--file <path>] [--dry-run] [--json]\n  diffo review status [--file <path>] [--json]\n  diffo review mark --file <path> [--reviewed|--unreviewed]\n  diffo themes list\n  diffo themes validate <file>\n\nInteractive keys:\n  j/k line, J/K file, n/p change, C unfold/fold mode, z/Z folds, v stacked/split, r reviewed, c comment, V select, y copy, Esc clear selection, u unreviewed, ? help, q quit\n"
}

} // verus!
