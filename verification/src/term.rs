//! Terminal capability detection from an environment snapshot.  The decision
//! is a pure function of the snapshot, so for any fixed environment it is
//! deterministic.

use crate::util::str_eq;
use vstd::prelude::*;

verus! {

/// The environment variables that decide true-color support, read once by
/// the caller and passed in as plain values.
pub struct TermEnv {
    pub term_program: Option<String>,
    pub iterm_session: bool,
    pub lc_terminal: Option<String>,
    pub wt_session: bool,
    pub colorterm: Option<String>,
}

/// The decision, as a function of the snapshot: a known terminal program
/// answers first; then iTerm2's markers, Windows Terminal, and finally the
/// COLORTERM convention.  Anything else is conservatively refused.
pub open spec fn true_color_spec(e: TermEnv) -> bool {
    if e.term_program matches Some(tp) && tp@ == "Apple_Terminal"@ {
        false
    } else if e.term_program matches Some(tp) && (tp@ == "iTerm.app"@ || tp@ == "WezTerm"@ || tp@
        == "Hyper"@ || tp@ == "vscode"@ || tp@ == "Tabby"@ || tp@ == "Alacritty"@) {
        true
    } else if e.iterm_session {
        true
    } else if e.lc_terminal matches Some(lc) && lc@ == "iTerm2"@ {
        true
    } else if e.wt_session {
        true
    } else if e.colorterm matches Some(ct) && (ct@ == "truecolor"@ || ct@ == "24bit"@) {
        true
    } else {
        false
    }
}

/// Whether the terminal described by the snapshot renders 24-bit color.
/// The result is pinned to `true_color_spec`, so equal environments always
/// yield equal answers.
pub fn supports_true_color(e: &TermEnv) -> (r: bool)
    ensures
        r == true_color_spec(*e),
{
    if let Some(tp) = &e.term_program {
        if str_eq(tp.as_str(), "Apple_Terminal") {
            return false;
        }
        if str_eq(tp.as_str(), "iTerm.app") || str_eq(tp.as_str(), "WezTerm") || str_eq(
            tp.as_str(),
            "Hyper",
        ) || str_eq(tp.as_str(), "vscode") || str_eq(tp.as_str(), "Tabby") || str_eq(
            tp.as_str(),
            "Alacritty",
        ) {
            return true;
        }
    }
    if e.iterm_session {
        return true;
    }
    if let Some(lc) = &e.lc_terminal {
        if str_eq(lc.as_str(), "iTerm2") {
            return true;
        }
    }
    if e.wt_session {
        return true;
    }
    if let Some(ct) = &e.colorterm {
        if str_eq(ct.as_str(), "truecolor") || str_eq(ct.as_str(), "24bit") {
            return true;
        }
    }
    false
}

} // verus!
