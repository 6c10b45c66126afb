//! The capture gate: decides, once per interactive invocation, whether a
//! command should be recorded, and what the debounce bookkeeping becomes.
//!
//! The decision sequence short-circuits: a non-interactive invocation is
//! rejected first; then a command whose name is on the fixed denylist; then
//! an invocation whose full text repeats the most recently attempted one;
//! then one arriving less than half a second after the prior attempt.  An
//! attempt exactly 500 milliseconds after the prior one is accepted.  The
//! debounce state is written only for accepted attempts: every rejection
//! leaves it untouched.

use vstd::prelude::*;

use crate::text::is_denylisted;
use crate::text::is_denylisted_spec;
use crate::text::join_spec;
use crate::text::join_tokens;
use crate::text::str_eq;

verus! {

/// The mathematical value of a [`DebounceState`].
pub ghost struct DebounceView {
    pub last_command_text: Seq<char>,
    pub last_attempt_ms: int,
}

/// The single mutable record kept between invocations: the most recently
/// accepted command text and when it was attempted.
pub struct DebounceState {
    /// Full joined text of the most recent accepted attempt.
    pub last_command_text: String,
    /// When that attempt happened, in milliseconds since the Unix epoch.
    pub last_attempt_ms: i64,
}

impl View for DebounceState {
    type V = DebounceView;

    open spec fn view(&self) -> DebounceView {
        DebounceView {
            last_command_text: self.last_command_text@,
            last_attempt_ms: self.last_attempt_ms as int,
        }
    }
}

/// The capture verdict on one invocation.
#[derive(PartialEq, Eq, Structural, Clone, Copy, Debug)]
pub enum GateDecision {
    /// Record the invocation.
    Accepted,
    /// Standard output is not an interactive terminal.
    RejectedNotInteractive,
    /// The command name is on the fixed denylist.
    RejectedDenylisted,
    /// The full text repeats the most recently attempted invocation.
    RejectedDuplicate,
    /// The attempt came less than half a second after the prior one.
    RejectedDebounced,
}

/// The full text repeats the prior attempt's text.
pub open spec fn is_duplicate(text: Seq<char>, prior: Option<DebounceView>) -> bool {
    match prior {
        None => false,
        Some(p) => text == p.last_command_text,
    }
}

/// The attempt came less than half a second after the prior one.
pub open spec fn is_debounced(now_ms: int, prior: Option<DebounceView>) -> bool {
    match prior {
        None => false,
        Some(p) => now_ms - p.last_attempt_ms < 500,
    }
}

/// The capture decision as a function of the invocation, the ambient
/// environment and the prior debounce state.
pub open spec fn gate_decision_spec(
    tokens: Seq<Seq<char>>,
    interactive: bool,
    prior: Option<DebounceView>,
    now_ms: int,
) -> GateDecision {
    if !interactive {
        GateDecision::RejectedNotInteractive
    } else if is_denylisted_spec(tokens[0]) {
        GateDecision::RejectedDenylisted
    } else if is_duplicate(join_spec(tokens), prior) {
        GateDecision::RejectedDuplicate
    } else if is_debounced(now_ms, prior) {
        GateDecision::RejectedDebounced
    } else {
        GateDecision::Accepted
    }
}

/// The prior state an invocation sees, as a mathematical value.
pub open spec fn prior_view(prior: Option<&DebounceState>) -> Option<DebounceView> {
    match prior {
        None => None,
        Some(p) => Some(p@),
    }
}

/// What deciding one invocation hands back: the verdict, the debounce
/// state to persist (only for accepted attempts), and the full joined
/// command text.
pub struct GateOutcome {
    pub decision: GateDecision,
    pub new_state: Option<DebounceState>,
    pub command_text: String,
}

/// Decide whether one invocation is captured.
///
/// A missing prior state (an unreadable or absent state file) is handed in
/// as `None` and behaves as if no recent command existed.  The returned
/// state is `Some` exactly for accepted attempts; a rejection leaves the
/// prior state to be kept as it is.
pub fn gate_decide(
    tokens: &Vec<String>,
    interactive: bool,
    prior: Option<&DebounceState>,
    now_ms: i64,
) -> (out: GateOutcome)
    requires
        tokens.len() > 0,
    ensures
        out.decision == gate_decision_spec(
            tokens.deep_view(),
            interactive,
            prior_view(prior),
            now_ms as int,
        ),
        out.command_text@ == join_spec(tokens.deep_view()),
        out.decision == GateDecision::Accepted ==> (out.new_state matches Some(st)
            && st@.last_command_text == join_spec(tokens.deep_view()) && st@.last_attempt_ms
            == now_ms as int),
        out.decision != GateDecision::Accepted ==> out.new_state is None,
{
    let text = join_tokens(tokens);
    if !interactive {
        return GateOutcome {
            decision: GateDecision::RejectedNotInteractive,
            new_state: None,
            command_text: text,
        };
    }
    proof {
        assert(tokens.deep_view()[0] == tokens@[0]@);
    }
    if is_denylisted(tokens[0].as_str()) {
        return GateOutcome {
            decision: GateDecision::RejectedDenylisted,
            new_state: None,
            command_text: text,
        };
    }
    match prior {
        Some(p) => {
            if str_eq(text.as_str(), p.last_command_text.as_str()) {
                GateOutcome {
                    decision: GateDecision::RejectedDuplicate,
                    new_state: None,
                    command_text: text,
                }
            } else {
                let elapsed: i128 = now_ms as i128 - p.last_attempt_ms as i128;
                if elapsed < 500 {
                    GateOutcome {
                        decision: GateDecision::RejectedDebounced,
                        new_state: None,
                        command_text: text,
                    }
                } else {
                    let st = DebounceState {
                        last_command_text: text.clone(),
                        last_attempt_ms: now_ms,
                    };
                    GateOutcome {
                        decision: GateDecision::Accepted,
                        new_state: Some(st),
                        command_text: text,
                    }
                }
            }
        },
        None => {
            let st = DebounceState { last_command_text: text.clone(), last_attempt_ms: now_ms };
            GateOutcome {
                decision: GateDecision::Accepted,
                new_state: Some(st),
                command_text: text,
            }
        },
    }
}

/// Denylisted commands are rejected, whatever the prior state and the
/// clock; together with the contract of [`gate_decide`], such a rejection
/// leaves the debounce state — and therefore the store — untouched.
pub proof fn lemma_denylist_rejects(
    tokens: Seq<Seq<char>>,
    prior: Option<DebounceView>,
    now_ms: int,
)
    requires
        tokens.len() > 0,
        is_denylisted_spec(tokens[0]),
    ensures
        gate_decision_spec(tokens, true, prior, now_ms) == GateDecision::RejectedDenylisted,
{
}

/// An invocation whose full text repeats the prior attempt's text is
/// rejected as a duplicate, regardless of the elapsed time.
pub proof fn lemma_duplicate_rejects(tokens: Seq<Seq<char>>, prior: DebounceView, now_ms: int)
    requires
        tokens.len() > 0,
        !is_denylisted_spec(tokens[0]),
        join_spec(tokens) == prior.last_command_text,
    ensures
        gate_decision_spec(tokens, true, Some(prior), now_ms) == GateDecision::RejectedDuplicate,
{
}

/// The debounce window: a distinct invocation arriving less than half a
/// second after the prior attempt is rejected; arriving half a second or
/// more after it, it is accepted.
pub proof fn lemma_debounce_window(tokens: Seq<Seq<char>>, prior: DebounceView, now_ms: int)
    requires
        tokens.len() > 0,
        !is_denylisted_spec(tokens[0]),
        join_spec(tokens) != prior.last_command_text,
    ensures
        now_ms - prior.last_attempt_ms < 500 ==> gate_decision_spec(
            tokens,
            true,
            Some(prior),
            now_ms,
        ) == GateDecision::RejectedDebounced,
        now_ms - prior.last_attempt_ms >= 500 ==> gate_decision_spec(
            tokens,
            true,
            Some(prior),
            now_ms,
        ) == GateDecision::Accepted,
{
}

} // verus!
