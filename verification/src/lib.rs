//! A terminal tool for reading Git diffs: its data, rules and screens.
use vstd::prelude::*;
use crate::util::{decimal, push_decimal, push_text};

pub mod cli;
pub mod clock;
pub mod comment_laws;
pub mod diff;
pub mod diff_laws;
pub mod git;
pub mod git_laws;
pub mod inline_diff;
pub mod inline_laws;
pub mod json;
pub mod patch_laws;
pub mod review_laws;
pub mod store;
pub mod syntax;
pub mod syntax_cache;
pub mod syntax_grammars;
pub mod syntax_query;
pub mod theme;
pub mod tui;
pub mod tui_cell_laws;
pub mod tui_colour_laws;
pub mod tui_comments;
pub mod tui_copy;
pub mod tui_copy_laws;
pub mod tui_draw_laws;
pub mod tui_editor;
pub mod tui_frame;
pub mod tui_frame_laws;
pub mod tui_geometry;
pub mod tui_input;
pub mod tui_input_laws;
pub mod tui_key_laws;
pub mod tui_keys;
pub mod tui_laws;
pub mod tui_nav;
pub mod tui_render;
pub mod tui_run;
pub mod tui_screen;
pub mod tui_screen_laws;
pub mod tui_style;
pub mod tui_text;
pub mod tui_view;
pub mod tui_view_laws;
pub mod tui_wrap;
pub mod tui_wrap_laws;
pub mod util;

verus! {

/// What can go wrong, apart from input and output.
#[derive(Clone, Copy, Debug, PartialEq, Eq, Structural)]
pub enum Error {
    NotGitRepository,
    GitCommandFailed,
    DiffTooLarge,
    Interrupted(i32),
    InvalidArguments,
    StorageCorrupted,
    StorageWriteFailed,
    ThemeInvalid,
    ParseFailed,
    SyntaxUnavailable,
    SourceTooLarge,
}

/// A number with its sign, in decimal notation.
pub open spec fn signed_decimal(n: int) -> Seq<char> {
    if n < 0 {
        "-"@ + decimal((-n) as nat)
    } else {
        decimal(n as nat)
    }
}

impl Error {
    /// What an error says.
    pub open spec fn message_text(self) -> Seq<char> {
        match self {
            Error::NotGitRepository => "current directory is not inside a Git repository"@,
            Error::GitCommandFailed => "git command failed; run with --debug-git for details"@,
            Error::DiffTooLarge =>
                "diff is too large to load (over 200MB); narrow the review range"@,
            Error::Interrupted(n) => "interrupted by signal "@ + signed_decimal(n as int),
            Error::InvalidArguments => "invalid arguments; use diffo --help"@,
            Error::StorageCorrupted => "stored review data is corrupted"@,
            Error::StorageWriteFailed => "could not write stored review data"@,
            Error::ThemeInvalid => "theme file does not look like Base16/Base24"@,
            Error::ParseFailed => "could not parse Git diff"@,
            Error::SyntaxUnavailable => "syntax highlighting is unavailable"@,
            Error::SourceTooLarge => "source is too large for syntax highlighting"@,
        }
    }

    pub fn message(self) -> (r: String)
        ensures
            r@ == self.message_text(),
    {
        let mut out = String::new();
        let text = match self {
            Error::NotGitRepository => "current directory is not inside a Git repository",
            Error::GitCommandFailed => "git command failed; run with --debug-git for details",
            Error::DiffTooLarge =>
                "diff is too large to load (over 200MB); narrow the review range",
            Error::Interrupted(_) => "interrupted by signal ",
            Error::InvalidArguments => "invalid arguments; use diffo --help",
            Error::StorageCorrupted => "stored review data is corrupted",
            Error::StorageWriteFailed => "could not write stored review data",
            Error::ThemeInvalid => "theme file does not look like Base16/Base24",
            Error::ParseFailed => "could not parse Git diff",
            Error::SyntaxUnavailable => "syntax highlighting is unavailable",
            Error::SourceTooLarge => "source is too large for syntax highlighting",
        };
        push_text(&mut out, text);
        if let Error::Interrupted(n) = self {
            if n < 0 {
                push_text(&mut out, "-");
                push_decimal(&mut out, (-(n as i64)) as u64);
            } else {
                push_decimal(&mut out, n as u64);
            }
        }
        assert(out@ =~= self.message_text());
        out
    }

    /// What the program reports when it fails.
    pub open spec fn report_text(self) -> Seq<char> {
        match self {
            Error::StorageWriteFailed => "StorageWriteFailed"@,
            Error::ParseFailed => "ParseFailed"@,
            Error::SyntaxUnavailable => "SyntaxUnavailable"@,
            Error::SourceTooLarge => "SourceTooLarge"@,
            _ => self.message_text(),
        }
    }

    pub fn report(self) -> (r: String)
        ensures
            r@ == self.report_text(),
    {
        match self {
            Error::StorageWriteFailed => "StorageWriteFailed".to_string(),
            Error::ParseFailed => "ParseFailed".to_string(),
            Error::SyntaxUnavailable => "SyntaxUnavailable".to_string(),
            Error::SourceTooLarge => "SourceTooLarge".to_string(),
            _ => self.message(),
        }
    }
}

} // verus!
