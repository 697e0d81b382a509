//! The streaming presenter's core: folding agent stream events into the
//! accumulated response with surface decoration, rendering the in-flight
//! view with a spinner, deciding message rollover, and finalizing.

use crate::text::bytes_of;
use crate::text::normalize_spec;
use crate::text::truncate_cut;
use crate::text::truncate_str;
use vstd::prelude::*;
use vstd::string::StrSliceExecFns;
use vstd::string::StringExecFns;
use vstd::string::StringSliceAdditionalSpecFns;
use vstd::utf8::encode_utf8;

verus! {

broadcast use {vstd::slice::axiom_spec_len, vstd::seq::group_seq_axioms};

/// One event of the agent's output stream, already parsed.
pub enum StreamMessage {
    /// The agent minted (or restated) its session identity.
    Init { session_id: String },
    /// Assistant text, appended verbatim.
    Text { content: String },
    /// A tool invocation; `summary` is its one-line rendering.
    ToolUse { summary: String },
    /// A tool's output, possibly an error.
    ToolResult { content: String, is_error: bool },
    /// A background-task notice.
    TaskNotification { summary: String },
    /// Final result; ends the stream.
    Done { result: String, session_id: Option<String> },
    /// Stream failure; ends the stream.
    Error { message: String },
}

/// The presenter's fold state over one request.
pub struct Accumulator {
    /// Everything rendered so far, decorations included.
    pub full_response: String,
    /// The most recent session id the stream announced.
    pub new_session_id: Option<String>,
    /// Whether a terminal event was consumed.
    pub done: bool,
}

/// Whether a byte sequence holds a newline.
pub open spec fn has_nl(b: Seq<u8>) -> bool {
    exists|i: int| 0 <= i < b.len() && b[i] == 10
}

/// The bytes a tool result contributes: errors are capped at 500 bytes and
/// shown in a fenced block when multi-line, inline otherwise; successful
/// output is capped at 300 bytes with the same shape, and empty output
/// contributes nothing.
pub open spec fn tool_result_decoration(content: Seq<char>, is_error: bool) -> Seq<u8> {
    let cb = bytes_of(content);
    if is_error {
        let t = cb.subrange(0, truncate_cut(cb, 500));
        if has_nl(t) {
            bytes_of("\n\u{274c}\n```\n"@) + t + bytes_of("\n```\n"@)
        } else {
            bytes_of("\n\u{274c} `"@) + t + bytes_of("`\n\n"@)
        }
    } else if content.len() == 0 {
        Seq::<u8>::empty()
    } else {
        let t = cb.subrange(0, truncate_cut(cb, 300));
        if has_nl(t) {
            bytes_of("\n```\n"@) + t + bytes_of("\n```\n"@)
        } else {
            bytes_of("\n\u{2705} `"@) + t + bytes_of("`\n\n"@)
        }
    }
}

/// Scan a short string for a newline byte.
fn contains_nl(s: &str) -> (r: bool)
    ensures
        r == has_nl(s.spec_bytes()),
{
    let bs = s.as_bytes();
    let n: usize = bs.len();
    let mut i: usize = 0;
    while i < n
        invariant
            0 <= i <= n,
            bs@ == s.spec_bytes(),
            n == s.spec_bytes().len(),
            forall|k: int| 0 <= k < i ==> s.spec_bytes()[k] != 10,
        decreases n - i,
    {
        if bs[i] == 10u8 {
            return true;
        }
        i = i + 1;
    }
    false
}

impl Accumulator {
    /// An empty fold state.
    pub fn new() -> (r: Accumulator)
        ensures
            r.full_response@ == Seq::<char>::empty(),
            r.new_session_id is None,
            !r.done,
    {
        Accumulator { full_response: String::new(), new_session_id: None, done: false }
    }

    /// Fold one stream event into the state.  Text is appended verbatim;
    /// tool activity is appended with its decoration; `Done` adopts its
    /// result only when nothing was streamed; `Error` replaces the response;
    /// the stream's session id is remembered; `done` rises exactly on the
    /// terminal events.
    pub fn apply_message(&mut self, msg: StreamMessage)
        ensures
            match msg {
                StreamMessage::Init { session_id } => {
                    &&& final(self).new_session_id == Some(session_id)
                    &&& final(self).full_response == old(self).full_response
                    &&& final(self).done == old(self).done
                },
                StreamMessage::Text { content } => {
                    &&& final(self).full_response@ == old(self).full_response@ + content@
                    &&& final(self).new_session_id == old(self).new_session_id
                    &&& final(self).done == old(self).done
                },
                StreamMessage::ToolUse { summary } => {
                    &&& encode_utf8(final(self).full_response@) == encode_utf8(
                        old(self).full_response@,
                    ) + bytes_of("\n\n\u{2699}\u{fe0f} "@) + encode_utf8(summary@) + bytes_of(
                        "\n"@,
                    )
                    &&& final(self).new_session_id == old(self).new_session_id
                    &&& final(self).done == old(self).done
                },
                StreamMessage::ToolResult { content, is_error } => {
                    &&& encode_utf8(final(self).full_response@) == encode_utf8(
                        old(self).full_response@,
                    ) + tool_result_decoration(content@, is_error)
                    &&& final(self).new_session_id == old(self).new_session_id
                    &&& final(self).done == old(self).done
                },
                StreamMessage::TaskNotification { summary } => {
                    &&& (summary@.len() == 0 ==> final(self).full_response == old(
                        self,
                    ).full_response)
                    &&& (summary@.len() > 0 ==> encode_utf8(final(self).full_response@)
                        == encode_utf8(old(self).full_response@) + bytes_of("\n[Task: "@)
                        + encode_utf8(summary@) + bytes_of("]\n"@))
                    &&& final(self).new_session_id == old(self).new_session_id
                    &&& final(self).done == old(self).done
                },
                StreamMessage::Done { result, session_id } => {
                    &&& final(self).done
                    &&& (if result@.len() > 0 && old(self).full_response@.len() == 0 {
                        final(self).full_response@ == result@
                    } else {
                        final(self).full_response == old(self).full_response
                    })
                    &&& final(self).new_session_id == (if session_id is Some {
                        session_id
                    } else {
                        old(self).new_session_id
                    })
                },
                StreamMessage::Error { message } => {
                    &&& final(self).done
                    &&& final(self).full_response@ == "Error: "@ + message@
                    &&& final(self).new_session_id == old(self).new_session_id
                },
            },
    {
        match msg {
            StreamMessage::Init { session_id } => {
                self.new_session_id = Some(session_id);
            },
            StreamMessage::Text { content } => {
                self.full_response.append(content.as_str());
            },
            StreamMessage::ToolUse { summary } => {
                let ghost f0 = self.full_response@;
                self.full_response.append("\n\n\u{2699}\u{fe0f} ");
                let ghost f1 = self.full_response@;
                self.full_response.append(summary.as_str());
                let ghost f2 = self.full_response@;
                self.full_response.append("\n");
                proof {
                    crate::text::lemma_encode_concat(f0, "\n\n\u{2699}\u{fe0f} "@);
                    crate::text::lemma_encode_concat(f1, summary@);
                    crate::text::lemma_encode_concat(f2, "\n"@);
                    assert(encode_utf8(self.full_response@) =~= encode_utf8(f0) + bytes_of(
                        "\n\n\u{2699}\u{fe0f} "@,
                    ) + encode_utf8(summary@) + bytes_of("\n"@));
                }
            },
            StreamMessage::ToolResult { content, is_error } => {
                let ghost f0 = self.full_response@;
                if is_error {
                    let truncated = truncate_str(content.as_str(), 500);
                    if contains_nl(truncated.as_str()) {
                        self.full_response.append("\n\u{274c}\n```\n");
                        let ghost f1 = self.full_response@;
                        self.full_response.append(truncated.as_str());
                        let ghost f2 = self.full_response@;
                        self.full_response.append("\n```\n");
                        proof {
                            crate::text::lemma_encode_concat(f0, "\n\u{274c}\n```\n"@);
                            crate::text::lemma_encode_concat(f1, truncated@);
                            crate::text::lemma_encode_concat(f2, "\n```\n"@);
                            assert(encode_utf8(self.full_response@) =~= encode_utf8(f0)
                                + tool_result_decoration(content@, is_error));
                        }
                    } else {
                        self.full_response.append("\n\u{274c} `");
                        let ghost f1 = self.full_response@;
                        self.full_response.append(truncated.as_str());
                        let ghost f2 = self.full_response@;
                        self.full_response.append("`\n\n");
                        proof {
                            crate::text::lemma_encode_concat(f0, "\n\u{274c} `"@);
                            crate::text::lemma_encode_concat(f1, truncated@);
                            crate::text::lemma_encode_concat(f2, "`\n\n"@);
                            assert(encode_utf8(self.full_response@) =~= encode_utf8(f0)
                                + tool_result_decoration(content@, is_error));
                        }
                    }
                } else if !content.as_str().is_empty() {
                    proof {
                        crate::text::lemma_encode_empty(content@);
                    }
                    let truncated = truncate_str(content.as_str(), 300);
                    if contains_nl(truncated.as_str()) {
                        self.full_response.append("\n```\n");
                        let ghost f1 = self.full_response@;
                        self.full_response.append(truncated.as_str());
                        let ghost f2 = self.full_response@;
                        self.full_response.append("\n```\n");
                        proof {
                            crate::text::lemma_encode_concat(f0, "\n```\n"@);
                            crate::text::lemma_encode_concat(f1, truncated@);
                            crate::text::lemma_encode_concat(f2, "\n```\n"@);
                            assert(encode_utf8(self.full_response@) =~= encode_utf8(f0)
                                + tool_result_decoration(content@, is_error));
                        }
                    } else {
                        self.full_response.append("\n\u{2705} `");
                        let ghost f1 = self.full_response@;
                        self.full_response.append(truncated.as_str());
                        let ghost f2 = self.full_response@;
                        self.full_response.append("`\n\n");
                        proof {
                            crate::text::lemma_encode_concat(f0, "\n\u{2705} `"@);
                            crate::text::lemma_encode_concat(f1, truncated@);
                            crate::text::lemma_encode_concat(f2, "`\n\n"@);
                            assert(encode_utf8(self.full_response@) =~= encode_utf8(f0)
                                + tool_result_decoration(content@, is_error));
                        }
                    }
                } else {
                    proof {
                        crate::text::lemma_encode_empty(content@);
                        assert(encode_utf8(self.full_response@) =~= encode_utf8(f0)
                            + tool_result_decoration(content@, is_error));
                    }
                }
            },
            StreamMessage::TaskNotification { summary } => {
                if !summary.as_str().is_empty() {
                    let ghost f0 = self.full_response@;
                    self.full_response.append("\n[Task: ");
                    let ghost f1 = self.full_response@;
                    self.full_response.append(summary.as_str());
                    let ghost f2 = self.full_response@;
                    self.full_response.append("]\n");
                    proof {
                        crate::text::lemma_encode_concat(f0, "\n[Task: "@);
                        crate::text::lemma_encode_concat(f1, summary@);
                        crate::text::lemma_encode_concat(f2, "]\n"@);
                        assert(encode_utf8(self.full_response@) =~= encode_utf8(f0) + bytes_of(
                            "\n[Task: "@,
                        ) + encode_utf8(summary@) + bytes_of("]\n"@));
                    }
                }
            },
            StreamMessage::Done { result, session_id } => {
                if !result.as_str().is_empty() && self.full_response.as_str().is_empty() {
                    self.full_response = result;
                }
                if let Some(sid) = session_id {
                    self.new_session_id = Some(sid);
                }
                self.done = true;
            },
            StreamMessage::Error { message } => {
                let mut m = String::from_str("Error: ");
                m.append(message.as_str());
                self.full_response = m;
                self.done = true;
            },
        }
    }
}

/// The ten spinner glyphs, cycled while the stream is live.
pub open spec fn spinner_glyph(i: int) -> Seq<char> {
    let k = i % 10;
    if k == 0 {
        "\u{280b}"@
    } else if k == 1 {
        "\u{2819}"@
    } else if k == 2 {
        "\u{2839}"@
    } else if k == 3 {
        "\u{2838}"@
    } else if k == 4 {
        "\u{283c}"@
    } else if k == 5 {
        "\u{2834}"@
    } else if k == 6 {
        "\u{2826}"@
    } else if k == 7 {
        "\u{2827}"@
    } else if k == 8 {
        "\u{2807}"@
    } else {
        "\u{280f}"@
    }
}

/// Pick the spinner frame for a poll cycle.
pub fn spinner_frame(idx: usize) -> (r: &'static str)
    ensures
        r@ == spinner_glyph(idx as int),
{
    let k = idx % 10;
    if k == 0 {
        "\u{280b}"
    } else if k == 1 {
        "\u{2819}"
    } else if k == 2 {
        "\u{2839}"
    } else if k == 3 {
        "\u{2838}"
    } else if k == 4 {
        "\u{283c}"
    } else if k == 5 {
        "\u{2834}"
    } else if k == 6 {
        "\u{2826}"
    } else if k == 7 {
        "\u{2827}"
    } else if k == 8 {
        "\u{2807}"
    } else {
        "\u{280f}"
    }
}

/// The in-flight view: a bare spinner while nothing has streamed, otherwise
/// the normalized response truncated to leave room, a blank line, and the
/// spinner.
pub open spec fn progress_render_spec(full: Seq<char>, glyph: Seq<char>, limit: int) -> Seq<u8> {
    if full.len() == 0 {
        bytes_of(glyph) + bytes_of(" Processing..."@)
    } else {
        let norm = normalize_spec(bytes_of(full));
        norm.subrange(0, truncate_cut(norm, limit - 30)) + bytes_of("\n\n"@) + bytes_of(glyph)
    }
}

/// Render the in-flight view for one poll cycle.
pub fn progress_render(acc: &Accumulator, spin_idx: usize, limit: usize) -> (r: String)
    requires
        limit >= 30,
    ensures
        encode_utf8(r@) == progress_render_spec(
            acc.full_response@,
            spinner_glyph(spin_idx as int),
            limit as int,
        ),
{
    let glyph = spinner_frame(spin_idx);
    if acc.full_response.as_str().is_empty() {
        proof {
            crate::text::lemma_encode_empty(acc.full_response@);
        }
        let mut r = glyph.to_owned();
        let ghost r0 = r@;
        r.append(" Processing...");
        proof {
            crate::text::lemma_encode_concat(r0, " Processing..."@);
        }
        r
    } else {
        proof {
            crate::text::lemma_encode_empty(acc.full_response@);
        }
        let normalized = crate::text::normalize_empty_lines(acc.full_response.as_str());
        let mut r = truncate_str(normalized.as_str(), limit - 30);
        let ghost r0 = r@;
        r.append("\n\n");
        let ghost r1 = r@;
        r.append(glyph);
        proof {
            crate::text::lemma_encode_concat(r0, "\n\n"@);
            crate::text::lemma_encode_concat(r1, glyph@);
            assert(encode_utf8(r@) =~= progress_render_spec(
                acc.full_response@,
                spinner_glyph(spin_idx as int),
                limit as int,
            ));
        }
        r
    }
}

/// Whether the presenter must roll over to a fresh placeholder message: the
/// next render would near the message limit while the current message
/// already carries more than 100 bytes.
pub fn needs_rollover(display_len: usize, current_msg_len: usize, limit: usize) -> (r: bool)
    requires
        limit >= 50,
    ensures
        r == (display_len > limit - 50 && current_msg_len > 100),
{
    display_len > limit - 50 && current_msg_len > 100
}

/// The final text after a cancellation: the normalized transcript followed
/// by a stop marker, or the marker alone when nothing of substance
/// streamed.
pub open spec fn stopped_render_spec(full: Seq<char>) -> Seq<u8> {
    if crate::split::trim_start_spec(normalize_spec(bytes_of(full))).len() == 0 {
        bytes_of("[Stopped]"@)
    } else {
        normalize_spec(bytes_of(full)) + bytes_of("\n\n[Stopped]"@)
    }
}

/// Render the post-cancellation text.
pub fn stopped_render(acc: &Accumulator) -> (r: String)
    ensures
        encode_utf8(r@) == stopped_render_spec(acc.full_response@),
{
    let normalized = crate::text::normalize_empty_lines(acc.full_response.as_str());
    // Only whitespace left?  Then show the bare marker.
    let bs = normalized.as_str().as_bytes();
    let n: usize = bs.len();
    let mut i: usize = 0;
    let ghost nb = encode_utf8(normalized@);
    proof {
        assert(nb.subrange(0, nb.len() as int) =~= nb);
    }
    while i < n && (bs[i] == 32u8 || bs[i] == 9u8 || bs[i] == 13u8)
        invariant
            0 <= i <= n,
            bs@ == nb,
            n == nb.len(),
            crate::split::trim_start_spec(nb) == crate::split::trim_start_spec(
                nb.subrange(i as int, nb.len() as int),
            ),
        decreases n - i,
    {
        proof {
            let suf = nb.subrange(i as int, nb.len() as int);
            assert(suf.drop_first() =~= nb.subrange(i + 1, nb.len() as int));
        }
        i = i + 1;
    }
    proof {
        let suf = nb.subrange(i as int, nb.len() as int);
        if i < n {
            assert(!crate::split::is_ws(nb[i as int]));
            assert(crate::split::trim_start_spec(suf) == suf);
        } else {
            assert(suf =~= Seq::<u8>::empty());
        }
    }
    if i >= n {
        let r = String::from_str("[Stopped]");
        proof {
            assert(crate::split::trim_start_spec(nb).len() == 0);
        }
        r
    } else {
        let mut r = normalized;
        let ghost r0 = r@;
        r.append("\n\n[Stopped]");
        proof {
            crate::text::lemma_encode_concat(r0, "\n\n[Stopped]"@);
            assert(crate::split::trim_start_spec(nb).len() > 0);
        }
        r
    }
}

/// The final response text: what accumulated, or a placeholder when the
/// stream produced nothing, normalized either way.
pub open spec fn final_render_spec(full: Seq<char>) -> Seq<u8> {
    if full.len() == 0 {
        normalize_spec(bytes_of("(No response)"@))
    } else {
        normalize_spec(bytes_of(full))
    }
}

/// Render the delivered response.
pub fn final_render(acc: &Accumulator) -> (r: String)
    ensures
        encode_utf8(r@) == final_render_spec(acc.full_response@),
{
    if acc.full_response.as_str().is_empty() {
        proof {
            crate::text::lemma_encode_empty(acc.full_response@);
        }
        crate::text::normalize_empty_lines("(No response)")
    } else {
        proof {
            crate::text::lemma_encode_empty(acc.full_response@);
        }
        crate::text::normalize_empty_lines(acc.full_response.as_str())
    }
}

/// The moment the next outbound call is allowed: `gap` milliseconds past
/// the last call, or right now when that has already passed (saturating at
/// the clock's maximum).
pub fn next_permitted(last_ms: u64, now_ms: u64, gap: u64) -> (r: u64)
    ensures
        last_ms + gap <= u64::MAX ==> r == (if last_ms + gap > now_ms {
            last_ms + gap
        } else {
            now_ms as int
        }),
        last_ms + gap > u64::MAX ==> r == u64::MAX,
{
    if last_ms > u64::MAX - gap {
        u64::MAX
    } else {
        let earliest = last_ms + gap;
        if earliest > now_ms {
            earliest
        } else {
            now_ms
        }
    }
}

} // verus!
