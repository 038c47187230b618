//! Diff bases: the texts with which the contents of buffers are compared.
use vstd::prelude::*;

use crate::anchor::BufferId;
use crate::editor::Editor;
use crate::expanded::{ExpandedHunks, ModelId};

verus! {

broadcast use vstd::std_specs::hash::group_hash_axioms;

/// Identifies a text that does not change, such as a version of a diff base.
pub type TextId = u64;

/// Identifies a language.
pub type LanguageId = u64;

/// How the lines of a text end.
#[derive(Debug, Clone, Copy, PartialEq, Eq, Structural)]
pub enum LineEnding {
    Unix,
    Windows,
}

/// A buffer at some moment, as far as its diff base is concerned.
#[derive(Debug, Clone, Copy, PartialEq, Eq, Structural)]
pub struct BufferState {
    pub remote_id: BufferId,
    /// Counts the diff bases that the buffer has had.
    pub diff_base_version: usize,
    /// The text with which the buffer is compared, if there is one.
    pub diff_base: Option<TextId>,
    pub line_ending: LineEnding,
    pub language: Option<LanguageId>,
}

/// A buffer that is to be created.
#[derive(Debug, Clone, Copy, PartialEq, Eq, Structural)]
pub struct NewBuffer {
    pub text: TextId,
    pub line_ending: LineEnding,
    pub language: Option<LanguageId>,
}

/// The buffer with which the diff base of another buffer can be shown.
pub open spec fn diff_base_contents(buffer: BufferState) -> Option<NewBuffer> {
    match buffer.diff_base {
        Some(text) => Some(
            NewBuffer { text, line_ending: buffer.line_ending, language: buffer.language },
        ),
        None => None,
    }
}

/// Describes the buffer that shows the diff base of `buffer`: it has the same language and
/// line ending. There is none if `buffer` has no diff base.
pub fn create_diff_base_buffer(buffer: &BufferState) -> (result: Option<NewBuffer>)
    ensures
        result == diff_base_contents(*buffer),
{
    match buffer.diff_base {
        Some(text) => Some(
            NewBuffer { text, line_ending: buffer.line_ending, language: buffer.language },
        ),
        None => None,
    }
}

/// The buffer of the diff base that is held for `buffer` and shows the current version.
pub open spec fn current_diff_base(expanded: ExpandedHunks, buffer: BufferState) -> Option<
    ModelId,
> {
    if expanded.diff_base@.contains_key(buffer.remote_id)
        && expanded.diff_base@[buffer.remote_id].diff_base_version == buffer.diff_base_version {
        Some(expanded.diff_base@[buffer.remote_id].buffer)
    } else {
        None
    }
}

impl Editor {
    /// Returns the buffer that shows the current diff base of `buffer`, if there is one.
    /// Forgets the one that shows an outdated version.
    pub fn current_diff_base_buffer(&mut self, buffer: &BufferState) -> (result: Option<ModelId>)
        ensures
            result == current_diff_base(old(self).expanded_hunks, *buffer),
            final(self).expanded_hunks.diff_base@ == (if result is Some {
                old(self).expanded_hunks.diff_base@
            } else {
                old(self).expanded_hunks.diff_base@.remove(buffer.remote_id)
            }),
            final(self).expanded_hunks.hunks == old(self).expanded_hunks.hunks,
            final(self).expanded_hunks.toggle_task == old(self).expanded_hunks.toggle_task,
            final(self).expanded_hunks.sync_tasks == old(self).expanded_hunks.sync_tasks,
    {
        let ghost before = self.expanded_hunks.diff_base@;
        let current = match self.expanded_hunks.diff_base.get(&buffer.remote_id) {
            Some(entry) => if entry.diff_base_version == buffer.diff_base_version {
                Some(entry.buffer)
            } else {
                None
            },
            None => {
                assert(before =~= before.remove(buffer.remote_id));
                return None;
            },
        };
        if current.is_none() {
            self.expanded_hunks.diff_base.remove(&buffer.remote_id);
        }
        current
    }
}

/// Asking for the current diff base of a buffer does not change the answer: asked again, it
/// is the same, and no outdated one is left.
pub proof fn current_diff_base_is_stable(
    before: ExpandedHunks,
    after: ExpandedHunks,
    buffer: BufferState,
)
    requires
        after.diff_base@ == (if current_diff_base(before, buffer) is Some {
            before.diff_base@
        } else {
            before.diff_base@.remove(buffer.remote_id)
        }),
    ensures
        current_diff_base(after, buffer) == current_diff_base(before, buffer),
        after.diff_base@.contains_key(buffer.remote_id)
            ==> after.diff_base@[buffer.remote_id].diff_base_version == buffer.diff_base_version,
{
}

} // verus!
