//! One tick of the clipboard monitor, free of any I/O: what a poll result
//! does to the history, and what, if anything, must then be persisted.
//! The caller reads the clipboard, sleeps between ticks, and writes the
//! returned text to the history file; every decision stands here.

use vstd::prelude::*;

use crate::codec;
use crate::history::observe_rejects;
use crate::history::observe_spec;
use crate::history::HistoryStore;

verus! {

/// Applies one poll result to the history. A failed or non-text read
/// (`None`) changes nothing. Text is handed to the store's `observe`;
/// when and only when it is accepted, the returned text is the full
/// encoded history for the caller to persist.
pub fn poll_step(store: &mut HistoryStore, read: Option<String>) -> (persist: Option<String>)
    ensures
        match read {
            Option::None => final(store)@ == old(store)@ && persist is None,
            Option::Some(t) => final(store)@ == observe_spec(old(store)@, t@) && (match persist {
                Option::Some(p) => !observe_rejects(old(store)@, t@) && p@ == codec::encode_spec(
                    final(store)@,
                ),
                Option::None => observe_rejects(old(store)@, t@),
            }),
        },
{
    match read {
        None => None,
        Some(t) => {
            let changed = store.observe(t);
            if changed {
                let entries = store.snapshot();
                Some(codec::encode(&entries))
            } else {
                None
            }
        },
    }
}

} // verus!
