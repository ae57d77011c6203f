//! Bounded message history.
//!
//! Extracted messages are kept in a history of at most `max` entries;
//! when a new message would exceed the bound, the oldest entries are
//! evicted first.

use vstd::prelude::*;

verus! {

/// Append `msg` to the history, then evict the oldest entries until at most
/// `max` remain. With `max == 0` the history stays empty.
pub fn push_message(messages: &mut Vec<Vec<u8>>, msg: Vec<u8>, max: usize)
    ensures
        final(messages).deep_view() == if old(messages)@.len() + 1 <= max {
            old(messages).deep_view().push(msg@)
        } else {
            old(messages).deep_view().push(msg@).skip(old(messages)@.len() + 1 - max)
        },
{
    let ghost pushed = old(messages).deep_view().push(msg@);
    messages.push(msg);
    proof {
        assert(messages.deep_view() =~~= pushed);
    }
    if messages.len() > max {
        let overflow = messages.len() - max;
        let tail = messages.split_off(overflow);
        *messages = tail;
        proof {
            assert(messages.deep_view() =~~= pushed.skip(overflow as int));
        }
    }
}

} // verus!
