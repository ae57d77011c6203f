//! Watch items and label classification.
//!
//! A label rule assigns a name to a message whose bytes at a fixed range
//! equal a fixed value; rules are tried in order and the first match wins.
//! A watch item extracts a named byte range from matching messages for
//! display. Both address bytes with the same inclusive ranges, and both
//! target either all messages or only those carrying a given label.

use crate::framing::bytes_match_at;
use crate::hex_codec::spec_hex_upper;
use crate::hex_codec::encode_upper;
use crate::render::spec_binary_render;
use crate::render::utf8_lossy_of;
use crate::render::utf8_lossy;
use crate::render::render_binary;
use crate::render::WatchView;
use vstd::prelude::*;
use vstd::slice::slice_subrange;
use vstd::string::StringExecFns;

verus! {

/// Which messages a watch item or expectation rule applies to.
#[derive(Clone, Debug, PartialEq, Eq)]
pub enum WatchTarget {
    /// Apply to all messages.
    All,
    /// Apply only to messages carrying the given label.
    Label(String),
}

impl WatchTarget {
    /// The target's display name: the label it names, or a phrase for all
    /// messages.
    pub fn display_text(&self) -> (r: String)
        ensures
            r@ == match *self {
                WatchTarget::All => "All messages"@,
                WatchTarget::Label(n) => n@,
            },
    {
        match self {
            WatchTarget::All => String::from_str("All messages"),
            WatchTarget::Label(n) => n.clone(),
        }
    }
}

/// A configured item to watch in each message.
#[derive(Clone, Debug)]
pub struct WatchItem {
    /// Display name.
    pub name: String,
    /// Start index (inclusive).
    pub start_index: usize,
    /// End index (inclusive).
    pub end_index: usize,
    /// Rendering preference.
    pub view: WatchView,
    /// Which messages this watch applies to.
    pub target: WatchTarget,
}

/// A rule that labels a message when a slice of its bytes equals the
/// expected value.
#[derive(Clone, Debug)]
pub struct LabelRule {
    /// Label to display when the rule matches.
    pub name: String,
    /// Start index (inclusive).
    pub start_index: usize,
    /// End index (inclusive).
    pub end_index: usize,
    /// Expected byte value for the slice.
    pub value: Vec<u8>,
}

/// An inclusive byte range resolves against a message of length `len`.
pub open spec fn range_resolvable(start: usize, end: usize, len: nat) -> bool {
    start <= end && end < len
}

/// A target applies to a message with the given active label: `All` always,
/// `Label` only when that exact label is active.
pub open spec fn spec_target_applies(target: WatchTarget, active_label: Option<Seq<char>>) -> bool {
    match target {
        WatchTarget::All => true,
        WatchTarget::Label(n) => active_label == Some(n@),
    }
}

/// Whether `target` applies to a message whose classification is
/// `active_label`.
pub fn target_applies(target: &WatchTarget, active_label: &Option<String>) -> (r: bool)
    ensures
        r == spec_target_applies(*target, active_label.deep_view()),
{
    match target {
        WatchTarget::All => true,
        WatchTarget::Label(t) => match active_label {
            Some(lbl) => t.eq(lbl),
            None => false,
        },
    }
}

/// A label rule matches: its range resolves and the bytes there equal the
/// expected value exactly, in length and content.
pub open spec fn rule_matches(msg: Seq<u8>, r: LabelRule) -> bool {
    &&& range_resolvable(r.start_index, r.end_index, msg.len())
    &&& msg.subrange(r.start_index as int, r.end_index + 1) == r.value@
}

/// The label of the first matching rule, in declaration order; rules whose
/// range does not resolve are skipped.
pub open spec fn spec_find_label(msg: Seq<u8>, rules: Seq<LabelRule>) -> Option<Seq<char>>
    decreases rules.len(),
{
    if rules.len() == 0 {
        None
    } else if rule_matches(msg, rules[0]) {
        Some(rules[0].name@)
    } else {
        spec_find_label(msg, rules.drop_first())
    }
}

/// Classify `message`: the name of the first rule whose byte range resolves
/// and whose bytes equal its expected value; `None` when no rule matches.
pub fn find_message_label(message: &[u8], rules: &[LabelRule]) -> (r: Option<String>)
    ensures
        r.deep_view() == spec_find_label(message@, rules@),
{
    let n = rules.len();
    let ml = message.len();
    proof {
        assert(rules@.skip(0) =~= rules@);
    }
    let mut i: usize = 0;
    while i < n
        invariant
            i <= n,
            n == rules@.len(),
            ml == message@.len(),
            spec_find_label(message@, rules@) == spec_find_label(message@, rules@.skip(i as int)),
        decreases n - i,
    {
        let ghost rest = rules@.skip(i as int);
        proof {
            assert(rest[0] == rules@[i as int]);
            assert(rest.drop_first() =~= rules@.skip(i as int + 1));
        }
        let r = vstd::slice::slice_index_get(rules, i);
        let mut matched = false;
        if r.start_index <= r.end_index && r.end_index < ml {
            let want = r.end_index - r.start_index + 1;
            if r.value.len() == want {
                if bytes_match_at(message, r.value.as_slice(), r.start_index) {
                    matched = true;
                } else {
                    proof {
                        assert(message@.subrange(r.start_index as int, r.end_index + 1)
                            != r.value@);
                    }
                }
            } else {
                proof {
                    assert(message@.subrange(r.start_index as int, r.end_index + 1).len()
                        != r.value@.len());
                }
            }
        }
        if matched {
            proof {
                assert(message@.subrange(r.start_index as int, r.start_index + r.value@.len())
                    == message@.subrange(r.start_index as int, r.end_index + 1));
                assert(rule_matches(message@, rules@[i as int]));
            }
            return Some(r.name.clone());
        }
        proof {
            assert(!rule_matches(message@, rules@[i as int]));
        }
        i = i + 1;
    }
    proof {
        assert(rules@.skip(n as int) =~= Seq::<LabelRule>::empty());
    }
    None
}

/// What a watch item shows for a message: the addressed bytes in the item's
/// rendering mode (hex carries a `0x` prefix), or a dash when the range
/// does not resolve.
pub open spec fn spec_watch_value(msg: Seq<u8>, item: WatchItem) -> Seq<char> {
    if range_resolvable(item.start_index, item.end_index, msg.len()) {
        let slice = msg.subrange(item.start_index as int, item.end_index + 1);
        match item.view {
            WatchView::Hex => "0x"@ + spec_hex_upper(slice),
            WatchView::Text => utf8_lossy_of(slice),
            WatchView::Binary => spec_binary_render(slice),
        }
    } else {
        "-"@
    }
}

/// Render what `item` watches in `message`, or a dash placeholder when the
/// item's range does not resolve against the message.
pub fn watch_value(message: &[u8], item: &WatchItem) -> (r: String)
    ensures
        r@ == spec_watch_value(message@, *item),
{
    if item.start_index <= item.end_index && item.end_index < message.len() {
        let slice = slice_subrange(message, item.start_index, item.end_index + 1);
        match item.view {
            WatchView::Hex => {
                let mut r = String::from_str("0x");
                let hexpart = encode_upper(slice);
                r.append(hexpart.as_str());
                r
            },
            WatchView::Text => utf8_lossy(slice),
            WatchView::Binary => render_binary(slice),
        }
    } else {
        String::from_str("-")
    }
}

} // verus!
