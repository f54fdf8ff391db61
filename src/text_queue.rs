//! Texts played one after another, and the decision of what the text display
//! does on each tick.

use std::collections::VecDeque;

use vstd::prelude::*;

verus! {

/// One text waiting to be shown.
pub struct TextQueueItem {
    pub string: String,
}

/// Texts waiting to be shown one after another, and whether one is being
/// written out right now.
pub struct TextQueue {
    queue: VecDeque<TextQueueItem>,
    is_writing: bool,
}

/// What the display should do on this tick.
#[derive(Debug, PartialEq, Eq)]
pub enum TextAction {
    /// Nothing changes.
    Idle,
    /// Write out the rest of the current text at once.
    FinishWriting,
    /// Remove the text box.
    ClearText,
    /// Open a text box that writes out this text.
    ShowText(String),
}

/// The texts held by a queue of items, front first.
pub open spec fn texts_of(q: Seq<TextQueueItem>) -> Seq<Seq<char>> {
    q.map_values(|item: TextQueueItem| item.string@)
}

impl TextQueue {
    /// The waiting texts, front first.
    pub closed spec fn texts(self) -> Seq<Seq<char>> {
        texts_of(self.queue@)
    }

    /// Whether a text is being written out.
    pub closed spec fn writing(self) -> bool {
        self.is_writing
    }

    pub fn new() -> (r: TextQueue)
        ensures
            r.texts() == Seq::<Seq<char>>::empty(),
            !r.writing(),
    {
        let r = TextQueue { queue: VecDeque::new(), is_writing: false };
        assert(r.texts() =~= Seq::<Seq<char>>::empty());
        r
    }

    /// Queues `text` behind the texts already waiting.
    pub fn push_text(&mut self, text: &str)
        ensures
            final(self).texts() == old(self).texts().push(text@),
            final(self).writing() == old(self).writing(),
    {
        let string = text.to_owned();
        self.queue.push_back(TextQueueItem { string });
        assert(self.texts() =~= old(self).texts().push(text@));
    }

    pub fn is_empty(&self) -> (r: bool)
        ensures
            r == (self.texts().len() == 0),
    {
        self.queue.len() == 0
    }

    /// Takes the front text out of the queue.
    pub fn pop_text(&mut self) -> (r: Option<TextQueueItem>)
        ensures
            old(self).texts().len() == 0 ==> r is None && final(self).texts() == old(self).texts(),
            old(self).texts().len() > 0 ==> (r matches Some(item) && item.string@ == old(
                self,
            ).texts()[0]),
            old(self).texts().len() > 0 ==> final(self).texts() == old(self).texts().drop_first(),
            final(self).writing() == old(self).writing(),
    {
        let r = self.queue.pop_front();
        proof {
            if old(self).queue@.len() > 0 {
                assert(self.texts() =~= old(self).texts().drop_first());
            }
        }
        r
    }

    /// Called when the text box has written out its whole text.
    pub fn finish_writing(&mut self)
        ensures
            final(self).texts() == old(self).texts(),
            !final(self).writing(),
    {
        self.is_writing = false;
    }

    /// One tick of the text display, given whether the advance key was just
    /// pressed and whether a text box is on screen.
    ///
    /// With the key pressed and a box on screen, a text being written is
    /// finished at once, and a finished one is cleared. Without the key,
    /// where no text is being written, none is on screen and one is waiting,
    /// the front text is taken out and shown.
    pub fn display_step(&mut self, pressed_advance: bool, box_present: bool) -> (r: TextAction)
        ensures
            pressed_advance && box_present && old(self).writing() ==> r == TextAction::FinishWriting
                && *final(self) == *old(self),
            pressed_advance && box_present && !old(self).writing() ==> r == TextAction::ClearText
                && *final(self) == *old(self),
            pressed_advance && !box_present ==> r == TextAction::Idle && *final(self) == *old(
                self,
            ),
            !pressed_advance && (old(self).writing() || box_present || old(self).texts().len()
                == 0) ==> r == TextAction::Idle && *final(self) == *old(self),
            !pressed_advance && !old(self).writing() && !box_present && old(self).texts().len()
                > 0 ==> {
                &&& (r matches TextAction::ShowText(t) && t@ == old(self).texts()[0])
                &&& final(self).texts() == old(self).texts().drop_first()
                &&& final(self).writing()
            },
    {
        if pressed_advance {
            if box_present {
                if self.is_writing {
                    TextAction::FinishWriting
                } else {
                    TextAction::ClearText
                }
            } else {
                TextAction::Idle
            }
        } else if !self.is_writing && !self.is_empty() && !box_present {
            match self.pop_text() {
                Some(item) => {
                    self.is_writing = true;
                    TextAction::ShowText(item.string)
                },
                None => TextAction::Idle,
            }
        } else {
            TextAction::Idle
        }
    }
}

} // verus!
