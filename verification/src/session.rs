//! Window-level decisions: which keyboard shortcut fires, whether a new image loads at once or
//! after confirmation, and the undo/redo history of edits.
use vstd::prelude::*;

verus! {

/// A step through the edit history.
#[derive(PartialEq, Eq, Structural, Clone, Copy, Debug)]
pub enum HistoryStep {
    Undo,
    Redo,
}

/// The history step that Z with Ctrl/Cmd asks for: Redo with Shift, else Undo.
pub open spec fn history_shortcut(cmd_or_ctrl: bool, shift: bool, z: bool) -> Option<HistoryStep> {
    if cmd_or_ctrl && z {
        if shift {
            Some(HistoryStep::Redo)
        } else {
            Some(HistoryStep::Undo)
        }
    } else {
        None
    }
}

/// The window's shortcuts, from the keys pressed this frame: whether to paste an image (a
/// paste event, or V with Ctrl/Cmd) and which history step Z with Ctrl/Cmd asks for
/// (Ctrl/Cmd+Shift+Z redoes, Ctrl/Cmd+Z undoes). None fires while a text field has focus.
pub fn shortcut(text_focused: bool, cmd_or_ctrl: bool, shift: bool, z: bool, v: bool, paste_event: bool) -> (r: (bool, Option<HistoryStep>))
    ensures
        r == (if text_focused {
            (false, None)
        } else {
            (paste_event || (cmd_or_ctrl && v), history_shortcut(cmd_or_ctrl, shift, z))
        }),
{
    if text_focused {
        return (false, None);
    }
    let paste = paste_event || (cmd_or_ctrl && v);
    let step = if cmd_or_ctrl && z {
        if shift {
            Some(HistoryStep::Redo)
        } else {
            Some(HistoryStep::Undo)
        }
    } else {
        None
    };
    (paste, step)
}

/// What happens to an image waiting to be loaded.
#[derive(PartialEq, Eq, Structural, Clone, Copy, Debug)]
pub enum LoadStep {
    /// No image is waiting.
    Nothing,
    /// An image is shown already: ask before replacing the workspace.
    AskFirst,
    /// The workspace is empty: load the image at once.
    LoadNow,
}

/// What happens to a waiting image: nothing when none waits, a confirmation first when an
/// image is shown already, else loading at once.
pub fn load_step(pending: bool, has_texture: bool) -> (s: LoadStep)
    ensures
        s == (if !pending {
            LoadStep::Nothing
        } else if has_texture {
            LoadStep::AskFirst
        } else {
            LoadStep::LoadNow
        }),
{
    if !pending {
        LoadStep::Nothing
    } else if has_texture {
        LoadStep::AskFirst
    } else {
        LoadStep::LoadNow
    }
}

/// The undo and redo stacks after recording the state `before` an edit: it goes on the undo
/// stack, and the redo stack empties.
pub open spec fn recorded<T>(undo: Seq<T>, redo: Seq<T>, before: T) -> (Seq<T>, Seq<T>) {
    (undo.push(before), Seq::empty())
}

/// Undo from state `current`: the stacks afterwards and the state to show. The latest
/// recorded state comes back and `current` goes on the redo stack; with nothing to undo,
/// `current` stays.
pub open spec fn undone<T>(undo: Seq<T>, redo: Seq<T>, current: T) -> (Seq<T>, Seq<T>, T) {
    if undo.len() == 0 {
        (undo, redo, current)
    } else {
        (undo.drop_last(), redo.push(current), undo.last())
    }
}

/// Redo from state `current`: the stacks afterwards and the state to show. The latest undone
/// state comes back and `current` goes on the undo stack; with nothing to redo, `current` stays.
pub open spec fn redone<T>(undo: Seq<T>, redo: Seq<T>, current: T) -> (Seq<T>, Seq<T>, T) {
    if redo.len() == 0 {
        (undo, redo, current)
    } else {
        (undo.push(current), redo.drop_last(), redo.last())
    }
}

/// The edit history: the states before the edits that can be undone, latest last, and the
/// states that undoing left behind, latest last.
pub struct History<T> {
    pub undo_stack: Vec<T>,
    pub redo_stack: Vec<T>,
}

impl<T> History<T> {
    /// An empty history.
    pub fn new() -> (h: Self)
        ensures
            h.undo_stack@ == Seq::<T>::empty(),
            h.redo_stack@ == Seq::<T>::empty(),
    {
        History { undo_stack: Vec::new(), redo_stack: Vec::new() }
    }

    /// Records the state `before` an edit.
    pub fn record(&mut self, before: T)
        ensures
            (final(self).undo_stack@, final(self).redo_stack@)
                == recorded(old(self).undo_stack@, old(self).redo_stack@, before),
    {
        self.undo_stack.push(before);
        self.redo_stack = Vec::new();
    }

    /// Undoes the latest edit from state `current`; returns the state to show.
    pub fn undo(&mut self, current: T) -> (shown: T)
        ensures
            (final(self).undo_stack@, final(self).redo_stack@, shown)
                == undone(old(self).undo_stack@, old(self).redo_stack@, current),
    {
        match self.undo_stack.pop() {
            Some(prev) => {
                self.redo_stack.push(current);
                prev
            },
            None => current,
        }
    }

    /// Redoes the latest undone edit from state `current`; returns the state to show.
    pub fn redo(&mut self, current: T) -> (shown: T)
        ensures
            (final(self).undo_stack@, final(self).redo_stack@, shown)
                == redone(old(self).undo_stack@, old(self).redo_stack@, current),
    {
        match self.redo_stack.pop() {
            Some(next) => {
                self.undo_stack.push(current);
                next
            },
            None => current,
        }
    }
}

/// Undo right after recording gives back the state recorded before the edit, and leaves the
/// undo stack as it was before the recording.
pub proof fn law_undo_after_record<T>(undo: Seq<T>, redo: Seq<T>, before: T, now: T)
    ensures
        ({
            let (u, r) = recorded(undo, redo, before);
            undone(u, r, now) == (undo, seq![now], before)
        }),
{
    let (u, r) = recorded(undo, redo, before);
    assert(u.drop_last() =~= undo);
    assert(r.push(now) =~= seq![now]);
}

/// Redo right after an undo restores the state the undo left, and both stacks as they were.
pub proof fn law_redo_after_undo<T>(undo: Seq<T>, redo: Seq<T>, current: T)
    requires
        undo.len() > 0,
    ensures
        ({
            let (u, r, shown) = undone(undo, redo, current);
            redone(u, r, shown) == (undo, redo, current)
        }),
{
    let (u, r, shown) = undone(undo, redo, current);
    assert(u.push(shown) =~= undo);
    assert(r.drop_last() =~= redo);
}

/// Undo right after a redo restores the state the redo left, and both stacks as they were.
pub proof fn law_undo_after_redo<T>(undo: Seq<T>, redo: Seq<T>, current: T)
    requires
        redo.len() > 0,
    ensures
        ({
            let (u, r, shown) = redone(undo, redo, current);
            undone(u, r, shown) == (undo, redo, current)
        }),
{
    let (u, r, shown) = redone(undo, redo, current);
    assert(u.drop_last() =~= undo);
    assert(r.push(shown) =~= redo);
}

} // verus!
