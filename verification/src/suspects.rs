//! Expectation rules and their evaluation.
//!
//! A suspect rule states what bytes a message should hold at a fixed range,
//! either as text or as hex. For every applying rule whose expectation is
//! not met — including rules whose range does not resolve against the
//! message, which is itself suspicious — evaluation emits a severity-tagged
//! warning describing the rule, the expectation, and what was actually
//! found. Unresolvable ranges are treated as failures here, unlike label
//! classification, which skips them: the two policies differ on purpose.

use crate::framing::bytes_eq;
use crate::hex_codec::spec_hex_upper;
use crate::hex_codec::hex_decode;
use crate::hex_codec::encode_upper;
use crate::hex_codec::parse_hex_bytes;
use crate::labels::range_resolvable;
use crate::labels::spec_target_applies;
use crate::labels::target_applies;
use crate::labels::WatchTarget;
use crate::render::dec_digits;
use crate::render::dec_string;
use crate::render::utf8_lossy_of;
use crate::render::utf8_lossy;
use vstd::prelude::*;
use vstd::slice::slice_subrange;
use vstd::string::StringExecFns;

verus! {

/// How an expected value is written and compared.
#[derive(Clone, Copy, Debug, PartialEq, Eq, Structural)]
pub enum ExpectedKind {
    /// Compare the bytes as lossy UTF-8 text.
    Text,
    /// Compare the bytes against a hex-decoded value.
    Hex,
}

/// How serious a failed expectation is.
#[derive(Clone, Copy, Debug, PartialEq, Eq, Structural)]
pub enum Severity {
    Info,
    Warning,
    Critical,
}

/// An expectation on a byte range of applying messages.
#[derive(Clone, Debug)]
pub struct SuspectRule {
    /// Display name, repeated in every warning.
    pub name: String,
    /// Start index (inclusive).
    pub start_index: usize,
    /// End index (inclusive).
    pub end_index: usize,
    /// How `expected_value` is read.
    pub expected_kind: ExpectedKind,
    /// The expected text, or the expected bytes as hex.
    pub expected_value: String,
    /// Which messages the rule applies to.
    pub target: WatchTarget,
    /// Severity carried by warnings from this rule.
    pub severity: Severity,
}

/// An applying rule is met: its range resolves and the bytes there match
/// the expectation. A hex expectation that itself fails to decode is never
/// met.
pub open spec fn suspect_ok(msg: Seq<u8>, r: SuspectRule) -> bool {
    &&& range_resolvable(r.start_index, r.end_index, msg.len())
    &&& {
        let slice = msg.subrange(r.start_index as int, r.end_index + 1);
        match r.expected_kind {
            ExpectedKind::Text => utf8_lossy_of(slice) == r.expected_value@,
            ExpectedKind::Hex => hex_decode(r.expected_value@) == Ok::<Seq<u8>, Seq<char>>(
                slice,
            ),
        }
    }
}

/// The expectation as shown in a warning: the expected text, or the
/// expected bytes in compact uppercase hex with a `0x` prefix — the same
/// form the actual bytes are shown in. An expectation that does not decode
/// is shown as configured.
pub open spec fn spec_expected_repr(r: SuspectRule) -> Seq<char> {
    match r.expected_kind {
        ExpectedKind::Text => r.expected_value@,
        ExpectedKind::Hex => match hex_decode(r.expected_value@) {
            Ok(exp) => "0x"@ + spec_hex_upper(exp),
            Err(_) => "0x"@ + r.expected_value@,
        },
    }
}

/// What was actually found, as shown in a warning: the addressed bytes in
/// the rule's representation, or a dash when the range does not resolve.
pub open spec fn spec_got_repr(msg: Seq<u8>, r: SuspectRule) -> Seq<char> {
    if range_resolvable(r.start_index, r.end_index, msg.len()) {
        let slice = msg.subrange(r.start_index as int, r.end_index + 1);
        match r.expected_kind {
            ExpectedKind::Text => utf8_lossy_of(slice),
            ExpectedKind::Hex => "0x"@ + spec_hex_upper(slice),
        }
    } else {
        "-"@
    }
}

/// The text of one warning: rule name, expected representation, the rule's
/// index range, and what was actually found.
pub open spec fn spec_warning_text(msg: Seq<u8>, r: SuspectRule) -> Seq<char> {
    r.name@ + ": expected "@ + spec_expected_repr(r) + " at ["@ + dec_digits(
        r.start_index as nat,
    ) + ".."@ + dec_digits(r.end_index as nat) + "], got "@ + spec_got_repr(msg, r)
}

/// The warnings for a message: one per applying rule that is not met, in
/// rule order, each carrying the rule's severity.
pub open spec fn spec_warnings(
    msg: Seq<u8>,
    active_label: Option<Seq<char>>,
    rules: Seq<SuspectRule>,
) -> Seq<(Severity, Seq<char>)>
    decreases rules.len(),
{
    if rules.len() == 0 {
        Seq::empty()
    } else {
        let head = if spec_target_applies(rules[0].target, active_label) && !suspect_ok(
            msg,
            rules[0],
        ) {
            seq![(rules[0].severity, spec_warning_text(msg, rules[0]))]
        } else {
            Seq::empty()
        };
        head + spec_warnings(msg, active_label, rules.drop_first())
    }
}

/// The warning pairs with their strings viewed as character sequences.
pub open spec fn warnings_as_seq(out: Seq<(Severity, String)>) -> Seq<(Severity, Seq<char>)> {
    Seq::new(out.len(), |i: int| (out[i].0, out[i].1@))
}

/// Evaluate every rule against `message` under `active_label` and return
/// the warnings of the applying rules that are not met, in rule order.
pub fn check_suspects_for_message(
    message: &[u8],
    active_label: &Option<String>,
    rules: &[SuspectRule],
) -> (warnings: Vec<(Severity, String)>)
    ensures
        warnings_as_seq(warnings@) == spec_warnings(
            message@,
            active_label.deep_view(),
            rules@,
        ),
{
    let ghost msg = message@;
    let ghost lbl = active_label.deep_view();
    let n = rules.len();
    let ml = message.len();
    let mut out: Vec<(Severity, String)> = Vec::new();
    proof {
        assert(rules@.skip(0) =~= rules@);
        assert(warnings_as_seq(out@) + spec_warnings(msg, lbl, rules@) =~= spec_warnings(
            msg,
            lbl,
            rules@,
        ));
    }
    let mut i: usize = 0;
    while i < n
        invariant
            i <= n,
            n == rules@.len(),
            ml == message@.len(),
            msg == message@,
            lbl == active_label.deep_view(),
            spec_warnings(msg, lbl, rules@) == warnings_as_seq(out@) + spec_warnings(
                msg,
                lbl,
                rules@.skip(i as int),
            ),
        decreases n - i,
    {
        let ghost rest = rules@.skip(i as int);
        proof {
            assert(rest[0] == rules@[i as int]);
            assert(rest.drop_first() =~= rules@.skip(i as int + 1));
        }
        let r = vstd::slice::slice_index_get(rules, i);
        if target_applies(&r.target, active_label) {
            let resolvable = r.start_index <= r.end_index && r.end_index < ml;
            let ok: bool = if resolvable {
                let slice = slice_subrange(message, r.start_index, r.end_index + 1);
                match r.expected_kind {
                    ExpectedKind::Text => {
                        let found = utf8_lossy(slice);
                        found.eq(&r.expected_value)
                    },
                    ExpectedKind::Hex => match parse_hex_bytes(r.expected_value.as_str()) {
                        Ok(exp) => bytes_eq(exp.as_slice(), slice),
                        Err(_) => false,
                    },
                }
            } else {
                false
            };
            if !ok {
                let mut text = String::new();
                text.append(r.name.as_str());
                text.append(": expected ");
                match r.expected_kind {
                    ExpectedKind::Text => {
                        text.append(r.expected_value.as_str());
                    },
                    ExpectedKind::Hex => {
                        text.append("0x");
                        match parse_hex_bytes(r.expected_value.as_str()) {
                            Ok(exp) => {
                                let exp_hex = encode_upper(exp.as_slice());
                                text.append(exp_hex.as_str());
                            },
                            Err(_) => {
                                text.append(r.expected_value.as_str());
                            },
                        }
                    },
                }
                text.append(" at [");
                let start_str = dec_string(r.start_index);
                text.append(start_str.as_str());
                text.append("..");
                let end_str = dec_string(r.end_index);
                text.append(end_str.as_str());
                text.append("], got ");
                if resolvable {
                    let slice = slice_subrange(message, r.start_index, r.end_index + 1);
                    match r.expected_kind {
                        ExpectedKind::Text => {
                            let got = utf8_lossy(slice);
                            text.append(got.as_str());
                        },
                        ExpectedKind::Hex => {
                            text.append("0x");
                            let got = encode_upper(slice);
                            text.append(got.as_str());
                        },
                    }
                } else {
                    text.append("-");
                }
                proof {
                    assert(Seq::<char>::empty() + r.name@ =~= r.name@);
                    assert(text@ == spec_warning_text(msg, rules@[i as int]));
                    assert(!suspect_ok(msg, rules@[i as int]));
                }
                let ghost out0 = out@;
                out.push((r.severity, text));
                proof {
                    assert(warnings_as_seq(out@) =~= warnings_as_seq(out0).push(
                        (rules@[i as int].severity, spec_warning_text(msg, rules@[i as int])),
                    ));
                    assert(warnings_as_seq(out0) + spec_warnings(msg, lbl, rest)
                        =~= warnings_as_seq(out@) + spec_warnings(msg, lbl, rest.drop_first()));
                }
            } else {
                proof {
                    assert(suspect_ok(msg, rules@[i as int]));
                    assert(spec_warnings(msg, lbl, rest) == Seq::<(Severity, Seq<char>)>::empty()
                        + spec_warnings(msg, lbl, rest.drop_first()));
                    assert(Seq::<(Severity, Seq<char>)>::empty() + spec_warnings(
                        msg,
                        lbl,
                        rest.drop_first(),
                    ) =~= spec_warnings(msg, lbl, rest.drop_first()));
                }
            }
        } else {
            proof {
                assert(spec_warnings(msg, lbl, rest) == Seq::<(Severity, Seq<char>)>::empty()
                    + spec_warnings(msg, lbl, rest.drop_first()));
                assert(Seq::<(Severity, Seq<char>)>::empty() + spec_warnings(
                    msg,
                    lbl,
                    rest.drop_first(),
                ) =~= spec_warnings(msg, lbl, rest.drop_first()));
            }
        }
        i = i + 1;
    }
    proof {
        assert(rules@.skip(n as int) =~= Seq::<SuspectRule>::empty());
        assert(warnings_as_seq(out@) + Seq::<(Severity, Seq<char>)>::empty() =~= warnings_as_seq(
            out@,
        ));
    }
    out
}

/// Whether any warning in the list carries `Critical` severity. The global
/// alert state is this predicate folded over every displayed message's
/// warnings, recomputed whenever messages or rules change.
pub fn has_critical(warnings: &Vec<(Severity, String)>) -> (r: bool)
    ensures
        r == exists|k: int|
            0 <= k < warnings@.len() && (#[trigger] warnings@[k]).0 == Severity::Critical,
{
    let n = warnings.len();
    let mut i: usize = 0;
    while i < n
        invariant
            i <= n,
            n == warnings@.len(),
            forall|k: int| 0 <= k < i ==> (#[trigger] warnings@[k]).0 != Severity::Critical,
        decreases n - i,
    {
        let w = vstd::std_specs::vec::vec_index(warnings, i);
        if matches!(w.0, Severity::Critical) {
            return true;
        }
        i = i + 1;
    }
    false
}

} // verus!
