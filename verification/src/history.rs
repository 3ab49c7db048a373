//! The undo and redo stacks of an editing session.
use vstd::prelude::*;

use crate::commands::{Command, CommandView};
use crate::laws::lemma_revert_undoes_apply;
use crate::model::{Document, DocumentView};

verus! {

/// Commands that can be undone (most recent last), commands that can be redone
/// (most recently undone last), and a counter that changes with every change
/// of the document through the history.
pub struct History {
    pub undo: Vec<Command>,
    pub redo: Vec<Command>,
    pub revision: u64,
}

/// The mathematical value of a history.
#[verifier::ext_equal]
pub struct HistoryView {
    pub undo: Seq<CommandView>,
    pub redo: Seq<CommandView>,
    pub revision: u64,
}

/// The values of a sequence of commands.
pub open spec fn command_views(commands: Seq<Command>) -> Seq<CommandView> {
    commands.map_values(|c: Command| c@)
}

impl View for History {
    type V = HistoryView;

    open spec fn view(&self) -> HistoryView {
        HistoryView {
            undo: command_views(self.undo@),
            redo: command_views(self.redo@),
            revision: self.revision,
        }
    }
}

/// The revision after `r`, wrapping around.
pub open spec fn next_revision(r: u64) -> u64 {
    if r == u64::MAX {
        0
    } else {
        (r + 1) as u64
    }
}

/// History and document after executing `c`: it is applied, it becomes the
/// last command to undo, and nothing is left to redo.
pub open spec fn executed(h: HistoryView, d: DocumentView, c: CommandView) -> (HistoryView, DocumentView) {
    (
        HistoryView { undo: h.undo.push(c), redo: Seq::empty(), revision: next_revision(h.revision) },
        c.applied_to(d),
    )
}

/// History and document after an undo: the last command to undo is reverted
/// and becomes the last to redo; nothing happens when there is none.
pub open spec fn undone(h: HistoryView, d: DocumentView) -> (HistoryView, DocumentView) {
    if h.undo.len() == 0 {
        (h, d)
    } else {
        let c = h.undo.last();
        (
            HistoryView {
                undo: h.undo.drop_last(),
                redo: h.redo.push(c),
                revision: next_revision(h.revision),
            },
            c.reverted_from(d),
        )
    }
}

/// History and document after a redo: the last command to redo is applied
/// again and becomes the last to undo; nothing happens when there is none.
pub open spec fn redone(h: HistoryView, d: DocumentView) -> (HistoryView, DocumentView) {
    if h.redo.len() == 0 {
        (h, d)
    } else {
        let c = h.redo.last();
        (
            HistoryView {
                undo: h.undo.push(c),
                redo: h.redo.drop_last(),
                revision: next_revision(h.revision),
            },
            c.applied_to(d),
        )
    }
}

impl History {
    /// An empty history.
    pub fn new() -> (history: History)
        ensures
            history@ == (HistoryView { undo: Seq::empty(), redo: Seq::empty(), revision: 0 }),
    {
        let history = History { undo: Vec::new(), redo: Vec::new(), revision: 0 };
        proof {
            assert(history@ =~= HistoryView { undo: Seq::empty(), redo: Seq::empty(), revision: 0 });
        }
        history
    }

    /// Counts one more change of the document.
    pub fn bump_revision(&mut self)
        ensures
            final(self)@ == (HistoryView { revision: next_revision(old(self)@.revision), ..old(self)@ }),
    {
        self.revision = self.revision.wrapping_add(1);
        proof {
            assert(final(self)@ =~= HistoryView { revision: next_revision(old(self)@.revision), ..old(self)@ });
        }
    }

    /// Forgets every command, as when another document is loaded, and counts a change.
    pub fn reset(&mut self)
        ensures
            final(self)@ == (HistoryView {
                undo: Seq::empty(),
                redo: Seq::empty(),
                revision: next_revision(old(self)@.revision),
            }),
    {
        self.undo.clear();
        self.redo.clear();
        self.revision = self.revision.wrapping_add(1);
        proof {
            assert(final(self)@ =~= HistoryView {
                undo: Seq::empty(),
                redo: Seq::empty(),
                revision: next_revision(old(self)@.revision),
            });
        }
    }

    /// Applies `command` to `document` and records it for undo.
    pub fn execute(&mut self, command: Command, document: &mut Document)
        ensures
            (final(self)@, final(document)@) == executed(old(self)@, old(document)@, command@),
    {
        command.apply(document);
        self.undo.push(command);
        self.redo.clear();
        self.revision = self.revision.wrapping_add(1);
        proof {
            assert(final(self)@ =~= executed(old(self)@, old(document)@, command@).0);
        }
    }

    /// Reverts the last command to undo; returns whether there was one.
    pub fn undo(&mut self, document: &mut Document) -> (done: bool)
        ensures
            done == (old(self)@.undo.len() > 0),
            (final(self)@, final(document)@) == undone(old(self)@, old(document)@),
    {
        match self.undo.pop() {
            Some(command) => {
                command.revert(document);
                self.redo.push(command);
                self.revision = self.revision.wrapping_add(1);
                proof {
                    assert(command_views(old(self).undo@).last() == command@);
                    assert(final(self)@ =~= undone(old(self)@, old(document)@).0);
                }
                true
            },
            None => false,
        }
    }

    /// Applies again the last command to redo; returns whether there was one.
    pub fn redo(&mut self, document: &mut Document) -> (done: bool)
        ensures
            done == (old(self)@.redo.len() > 0),
            (final(self)@, final(document)@) == redone(old(self)@, old(document)@),
    {
        match self.redo.pop() {
            Some(command) => {
                command.apply(document);
                self.undo.push(command);
                self.revision = self.revision.wrapping_add(1);
                proof {
                    assert(command_views(old(self).redo@).last() == command@);
                    assert(final(self)@ =~= redone(old(self)@, old(document)@).0);
                }
                true
            },
            None => false,
        }
    }
}

/// Undo after execute: undoing a command right after executing it gives the
/// document back, with the same commands to undo as before and that command
/// as the only one to redo.
pub proof fn lemma_undo_after_execute(h: HistoryView, d: DocumentView, c: CommandView)
    requires
        c.undoable_from(d),
    ensures
        ({
            let (h1, d1) = executed(h, d, c);
            let (h2, d2) = undone(h1, d1);
            &&& d2 == d
            &&& h2.undo == h.undo
            &&& h2.redo == seq![c]
        }),
{
    lemma_revert_undoes_apply(c, d);
    let (h1, d1) = executed(h, d, c);
    assert(h1.undo.drop_last() =~= h.undo);
    assert(Seq::<CommandView>::empty().push(c) =~= seq![c]);
}

/// Redo after undo: when the last command to undo was recorded against the
/// document it was applied to, undoing and redoing it leaves the document
/// and both stacks as they were.
pub proof fn lemma_redo_after_undo(h: HistoryView, before: DocumentView)
    requires
        h.undo.len() > 0,
        h.undo.last().undoable_from(before),
    ensures
        ({
            let d = h.undo.last().applied_to(before);
            let (h1, d1) = undone(h, d);
            let (h2, d2) = redone(h1, d1);
            &&& d2 == d
            &&& h2.undo == h.undo
            &&& h2.redo == h.redo
        }),
{
    let c = h.undo.last();
    lemma_revert_undoes_apply(c, before);
    let (h1, d1) = undone(h, c.applied_to(before));
    assert(h1.undo.push(c) =~= h.undo);
    assert(h1.redo.drop_last() =~= h.redo);
}

/// The document after applying each of `cs` in turn to `d`.
pub open spec fn applied_all(d: DocumentView, cs: Seq<CommandView>) -> DocumentView
    decreases cs.len(),
{
    if cs.len() == 0 {
        d
    } else {
        cs.last().applied_to(applied_all(d, cs.drop_last()))
    }
}

/// History and document after executing each of `cs` in turn.
pub open spec fn executed_all(h: HistoryView, d: DocumentView, cs: Seq<CommandView>) -> (HistoryView, DocumentView)
    decreases cs.len(),
{
    if cs.len() == 0 {
        (h, d)
    } else {
        let (h1, d1) = executed_all(h, d, cs.drop_last());
        executed(h1, d1, cs.last())
    }
}

/// History and document after `n` undos in a row.
pub open spec fn undone_times(h: HistoryView, d: DocumentView, n: nat) -> (HistoryView, DocumentView)
    decreases n,
{
    if n == 0 {
        (h, d)
    } else {
        let (h1, d1) = undone(h, d);
        undone_times(h1, d1, (n - 1) as nat)
    }
}

/// Executing commands in turn applies them in turn and stacks them for undo.
proof fn lemma_executed_all(h: HistoryView, d: DocumentView, cs: Seq<CommandView>)
    ensures
        executed_all(h, d, cs).1 == applied_all(d, cs),
        executed_all(h, d, cs).0.undo == h.undo + cs,
    decreases cs.len(),
{
    if cs.len() > 0 {
        lemma_executed_all(h, d, cs.drop_last());
        assert((h.undo + cs.drop_last()).push(cs.last()) =~= h.undo + cs);
    }
}

/// What undos do to the document and to the commands to undo depends on
/// those two alone, not on the commands to redo or on the revision.
proof fn lemma_undone_times_ignores_redo(h: HistoryView, g: HistoryView, d: DocumentView, n: nat)
    requires
        h.undo == g.undo,
    ensures
        undone_times(h, d, n).1 == undone_times(g, d, n).1,
        undone_times(h, d, n).0.undo == undone_times(g, d, n).0.undo,
    decreases n,
{
    if n > 0 {
        let (h1, d1) = undone(h, d);
        let (g1, e1) = undone(g, d);
        lemma_undone_times_ignores_redo(h1, g1, d1, (n - 1) as nat);
    }
}

/// Undo after executing many: when each command was recorded against the
/// document it was applied to, undoing as many times as commands were
/// executed gives back the document the first was executed on, and the
/// commands to undo from before.
pub proof fn lemma_undo_all_after_execute_all(h: HistoryView, d: DocumentView, cs: Seq<CommandView>)
    requires
        forall|k: int| 0 <= k < cs.len() ==> (#[trigger] cs[k]).undoable_from(applied_all(d, cs.take(k))),
    ensures
        ({
            let (h1, d1) = executed_all(h, d, cs);
            let (h2, d2) = undone_times(h1, d1, cs.len());
            &&& d2 == d
            &&& h2.undo == h.undo
        }),
    decreases cs.len(),
{
    if cs.len() > 0 {
        let n = cs.len();
        let rest = cs.drop_last();
        let c = cs.last();
        assert forall|k: int| 0 <= k < rest.len() implies (#[trigger] rest[k]).undoable_from(
            applied_all(d, rest.take(k)),
        ) by {
            assert(rest.take(k) =~= cs.take(k));
            assert(rest[k] == cs[k]);
        }
        lemma_undo_all_after_execute_all(h, d, rest);
        let (h0, d0) = executed_all(h, d, rest);
        lemma_executed_all(h, d, rest);
        assert(cs.take(n - 1) =~= rest);
        assert(cs[n - 1] == c);
        lemma_revert_undoes_apply(c, d0);
        let (h1, d1) = executed(h0, d0, c);
        let (hu, du) = undone(h1, d1);
        assert(h1.undo.drop_last() =~= h0.undo);
        assert(du == d0);
        lemma_undone_times_ignores_redo(hu, h0, d0, (n - 1) as nat);
    }
}

} // verus!
