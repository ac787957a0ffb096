//! The decisions of a review: how it starts, what an event does, and what the
//! reader is told.
use vstd::prelude::*;
use crate::diff::{file_models, DiffSnapshot, FileModel};
use crate::store::Store;
use crate::tui::{
    changes_of, closed_comments, countable, first_state, ready, Layout, State, StateModel,
};
use crate::tui_editor::{edited, inserted, pasted, Action, Editor, EditorModel};
use crate::tui_input::Event;
use crate::tui_keys::{handle_key, handle_mouse, key_outcome, marks, mouse_outcome, KeyAction};
use crate::tui_nav::{at_first_change, first_change};
use crate::util::{decimal, push_decimal, push_text};

verus! {

// ---------------------------------------------------------------------------
// The start
// ---------------------------------------------------------------------------

/// The state in which a file would be looked at first.
pub open spec fn state_at(file: int) -> StateModel {
    StateModel { active_file: file as usize, ..first_state() }
}

/// The first file from `i` on that has a change.
pub open spec fn first_changed_file(files: Seq<FileModel>, i: int) -> Option<int>
    decreases files.len() - i,
{
    if i < 0 || i >= files.len() {
        None
    } else if changes_of(files, state_at(i)).len() > 0 {
        Some(i)
    } else {
        first_changed_file(files, i + 1)
    }
}

/// A review starts at the first change of the first file that has one, and
/// otherwise at the top of the first file.
pub open spec fn start_state(files: Seq<FileModel>, l: Layout) -> StateModel {
    match first_changed_file(files, 0) {
        Some(i) => at_first_change(files, state_at(i), l).0,
        None => first_state(),
    }
}

pub fn start(snapshot: &DiffSnapshot, layout: Layout) -> (r: State)
    requires
        snapshot.files@.len() > 0,
        countable(*snapshot),
        layout.body_height >= 1,
    ensures
        r@ == start_state(file_models(snapshot.files@), layout),
        ready(*snapshot, r@),
{
    let ghost files = file_models(snapshot.files@);
    let count: usize = snapshot.files.len();
    let mut state = State::default();
    let mut index: usize = 0;
    while index < count
        invariant
            files == file_models(snapshot.files@),
            files.len() == count,
            count == snapshot.files@.len(),
            countable(*snapshot),
            layout.body_height >= 1,
            index <= count,
            state@ == (StateModel { active_file: state.active_file, ..first_state() }),
            first_changed_file(files, 0) == first_changed_file(files, index as int),
        decreases count - index,
    {
        state.active_file = index;
        assert(state@ == state_at(index as int));
        assert(crate::tui_nav::with_scroll(
            crate::tui_nav::with_cursor(state@, (0, 0)),
            (0, 0),
        ) == state@);
        if first_change(snapshot, &mut state, layout) {
            return state;
        }
        index += 1;
    }
    state.active_file = 0;
    state
}

// ---------------------------------------------------------------------------
// Events
// ---------------------------------------------------------------------------

/// What the caller has to do after an event.
#[derive(Clone, Copy, Debug, PartialEq, Eq, Structural)]
pub enum Effect {
    Continue,
    Quit,
    /// The editor has been opened: show its cursor and take its keys.
    OpenEditor,
    /// The editor is done: keep its text as a comment, or not, and close it.
    CloseEditor { save: bool },
    /// Copy the selected rows.
    Copy,
    /// Keep that the active file is, or is no longer, reviewed.
    Review(bool),
}

/// What an action of the editor asks for.  An empty text is not kept.
pub open spec fn editor_effect(m: EditorModel, action: Action) -> Effect {
    match action {
        Action::Continue => Effect::Continue,
        Action::Quit => Effect::Quit,
        Action::Save => Effect::CloseEditor { save: m.body.len() > 0 },
        Action::Cancel => Effect::CloseEditor { save: false },
    }
}

/// An event while the editor is open.
pub open spec fn editor_outcome(m: EditorModel, event: Event) -> (EditorModel, Effect) {
    match event {
        Event::Key(key) => {
            let (n, action) = edited(m, key);
            (n, editor_effect(n, action))
        },
        Event::Paste(text) => (inserted(m, pasted(text@)), Effect::Continue),
        _ => (m, Effect::Continue),
    }
}

pub fn editor_event(editor: &mut Editor, event: Event) -> (r: Effect)
    requires
        old(editor).wf(),
    ensures
        final(editor).wf(),
        (final(editor)@, r) == editor_outcome(old(editor)@, event),
{
    match event {
        Event::Key(key) => {
            let action = editor.key(key);
            match action {
                Action::Continue => Effect::Continue,
                Action::Quit => Effect::Quit,
                Action::Save => {
                    let chars = crate::util::chars_of(editor.body.as_str());
                    Effect::CloseEditor { save: chars.len() > 0 }
                },
                Action::Cancel => Effect::CloseEditor { save: false },
            }
        },
        Event::Paste(text) => {
            editor.paste(text.as_str());
            Effect::Continue
        },
        _ => Effect::Continue,
    }
}

/// What a key asks of the caller.
pub open spec fn key_effect(action: KeyAction) -> Effect {
    match action {
        KeyAction::Continue => Effect::Continue,
        KeyAction::Quit => Effect::Quit,
        KeyAction::Comment => Effect::OpenEditor,
        KeyAction::Copy => Effect::Copy,
        KeyAction::Review(reviewed) => Effect::Review(reviewed),
    }
}

/// An event while no editor is open; `repeat` counts the turns of the wheel.
pub open spec fn event_outcome(
    files: Seq<FileModel>,
    marks: Seq<bool>,
    s: StateModel,
    event: Event,
    repeat: u16,
    l: Layout,
) -> (StateModel, Effect) {
    match event {
        Event::Key(key) => {
            let (t, action) = key_outcome(files, marks, s, key, l);
            (t, key_effect(action))
        },
        Event::Mouse(mouse) => (mouse_outcome(files, s, mouse, repeat, l), Effect::Continue),
        _ => (s, Effect::Continue),
    }
}

pub fn handle_event(
    snapshot: &DiffSnapshot,
    store: &Store,
    state: &mut State,
    event: Event,
    repeat: u16,
    layout: Layout,
) -> (r: Effect)
    requires
        ready(*snapshot, old(state)@),
        layout.width >= 1,
        layout.height >= 3,
    ensures
        (final(state)@, r) == event_outcome(
            file_models(snapshot.files@),
            marks(*snapshot, *store),
            old(state)@,
            event,
            repeat,
            layout,
        ),
        ready(*snapshot, final(state)@),
{
    match event {
        Event::Key(key) => match handle_key(snapshot, store, state, key, layout) {
            KeyAction::Continue => Effect::Continue,
            KeyAction::Quit => Effect::Quit,
            KeyAction::Comment => Effect::OpenEditor,
            KeyAction::Copy => Effect::Copy,
            KeyAction::Review(reviewed) => Effect::Review(reviewed),
        },
        Event::Mouse(mouse) => {
            handle_mouse(snapshot, state, mouse, repeat, layout);
            Effect::Continue
        },
        _ => Effect::Continue,
    }
}

/// A state after the size of the screen has changed: wrapped lines count anew.
pub open spec fn resized_state(s: StateModel) -> StateModel {
    StateModel { cursor_line: 0, scroll_line: 0, selection_start: None, ..s }
}

pub fn resized(state: &mut State)
    ensures
        final(state)@ == resized_state(old(state)@),
{
    state.cursor_line = 0;
    state.scroll_line = 0;
    state.selection_start = None;
}

// ---------------------------------------------------------------------------
// What the reader is told
// ---------------------------------------------------------------------------

/// What became of a comment.
pub open spec fn comment_notice(added: bool) -> Seq<char> {
    if added {
        "comment added"@
    } else {
        "no diff line in current file"@
    }
}

/// The state after the editor has been closed; `added` says what became of a
/// comment that was to be kept.
pub open spec fn editor_closed(s: StateModel, added: Option<bool>, l: Layout) -> StateModel {
    StateModel {
        notice: match added {
            Some(a) => comment_notice(a),
            None => s.notice,
        },
        selection_start: None,
        ..closed_comments(s, l)
    }
}

pub fn close_editor(state: &mut State, added: Option<bool>, layout: Layout)
    ensures
        final(state)@ == editor_closed(old(state)@, added, layout),
{
    match added {
        Some(true) => {
            state.notice = "comment added".to_string();
        },
        Some(false) => {
            state.notice = "no diff line in current file".to_string();
        },
        None => {},
    }
    state.close_comments(layout);
    state.selection_start = None;
}

/// How a text was copied.
#[derive(Clone, Copy, Debug, PartialEq, Eq, Structural)]
pub enum CopyMethod {
    System,
    Tmux,
    Unavailable,
}

/// What the reader is told of a copy; `None` where there was nothing to copy.
pub open spec fn copy_text(method: Option<CopyMethod>, count: nat) -> Seq<char> {
    match method {
        Some(CopyMethod::System) => "copied "@ + decimal(count) + " line"@ + (if count == 1 {
            ""@
        } else {
            "s"@
        }) + " to clipboard"@,
        Some(CopyMethod::Tmux) => decimal(count)
            + " lines saved to tmux buffer — Ctrl+b ] to paste; install xclip/wl-copy for system clipboard"@,
        Some(CopyMethod::Unavailable) => "clipboard unavailable; install xclip/wl-copy or enable OSC 52"@,
        None => "nothing copyable at cursor"@,
    }
}

pub fn copy_notice(method: Option<CopyMethod>, count: usize) -> (r: String)
    ensures
        r@ == copy_text(method, count as nat),
{
    let mut out = String::new();
    match method {
        Some(CopyMethod::System) => {
            push_text(&mut out, "copied ");
            push_decimal(&mut out, count as u64);
            push_text(&mut out, " line");
            push_text(
                &mut out,
                if count == 1 {
                    ""
                } else {
                    "s"
                },
            );
            push_text(&mut out, " to clipboard");
        },
        Some(CopyMethod::Tmux) => {
            push_decimal(&mut out, count as u64);
            push_text(
                &mut out,
                " lines saved to tmux buffer — Ctrl+b ] to paste; install xclip/wl-copy for system clipboard",
            );
        },
        Some(CopyMethod::Unavailable) => {
            push_text(
                &mut out,
                "clipboard unavailable; install xclip/wl-copy or enable OSC 52",
            );
        },
        None => {
            push_text(&mut out, "nothing copyable at cursor");
        },
    }
    assert(out@ =~= copy_text(method, count as nat));
    out
}

} // verus!
