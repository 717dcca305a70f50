//! A sink for changes that counts and drops them.

use vstd::prelude::*;
use vstd::string::*;

use crate::json::{kind_label, kind_word};
use crate::model::ObservedChangeKind;

verus! {

/// A change that arrives at the sink.
#[derive(Debug)]
pub struct FileChange {
    pub change_kind: ObservedChangeKind,
    pub absolute_path: String,
}

/// What is logged of a change that is dropped.
pub open spec fn drop_text(kind: ObservedChangeKind, absolute_path: Seq<char>) -> Seq<char> {
    "drop kind="@ + kind_word(kind) + " path="@ + absolute_path
}

/// What becomes of a change, by whether it was counted: what to log of it, or the
/// failure to return without logging it.
pub fn emit(change: &FileChange, counted: Result<(), String>) -> (line: Result<String, String>)
    ensures
        match counted {
            Ok(_) => line matches Ok(text) && text@ == drop_text(
                change.change_kind,
                change.absolute_path@,
            ),
            Err(error) => line matches Err(text) && text@ == error@,
        },
{
    match counted {
        Ok(_) => {
            let mut text = "drop kind=".to_string();
            text.append(kind_label(change.change_kind));
            text.append(" path=");
            text.append(change.absolute_path.as_str());
            Ok(text)
        },
        Err(error) => Err(error),
    }
}

/// What is logged of a change that is dropped: its kind and its path.
pub proof fn law_drop_is_logged(absolute_path: Seq<char>)
    ensures
        drop_text(ObservedChangeKind::Created, absolute_path) == "drop kind="@ + "created"@
            + " path="@ + absolute_path,
        drop_text(ObservedChangeKind::Modified, absolute_path) == "drop kind="@ + "modified"@
            + " path="@ + absolute_path,
        drop_text(ObservedChangeKind::Deleted, absolute_path) == "drop kind="@ + "deleted"@
            + " path="@ + absolute_path,
{
}

} // verus!
