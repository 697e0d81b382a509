//! Command routing shared by the messenger surfaces: classifying an
//! incoming message, splitting off arguments, resolving download paths, and
//! naming auto-generated workspaces.

use rand::Rng;

use crate::split::is_ws;
use crate::split::starts_with_spec;
use crate::split::trim_start_spec;
use crate::util::string_from_utf8;
use vstd::prelude::*;
use vstd::string::StrSliceExecFns;
use vstd::string::StringExecFns;
use vstd::string::StringSliceAdditionalSpecFns;
use vstd::utf8::encode_utf8;
use vstd::utf8::encode_utf8_valid_utf8;
use vstd::utf8::is_ascii_chars;
use vstd::utf8::is_ascii_chars_encode_utf8;
use vstd::utf8::is_char_boundary;
use vstd::utf8::is_char_boundary_iff_not_is_continuation_byte;
use vstd::utf8::is_char_boundary_start_end_of_seq;
use vstd::utf8::valid_utf8;

verus! {

broadcast use {vstd::slice::axiom_spec_len, vstd::seq::group_seq_axioms};

/// What an incoming message asks for.
#[derive(PartialEq, Eq, Structural, Clone, Copy, Debug)]
pub enum Command {
    Help,
    Start,
    Clear,
    Pwd,
    Down,
    AvailableTools,
    AllowedTools,
    Allowed,
    Shell,
    Chat,
}

/// True when the text begins with `p`.
pub fn starts_with_str(s: &str, p: &str) -> (r: bool)
    ensures
        r == starts_with_spec(s.spec_bytes(), p.spec_bytes()),
{
    let sb = s.as_bytes();
    let pb = p.as_bytes();
    let pl: usize = pb.len();
    if pl > sb.len() {
        return false;
    }
    let mut i: usize = 0;
    while i < pl
        invariant
            0 <= i <= pl,
            sb@ == s.spec_bytes(),
            pb@ == p.spec_bytes(),
            pl == p.spec_bytes().len(),
            pl <= s.spec_bytes().len(),
            forall|k: int| 0 <= k < i ==> s.spec_bytes()[k] == p.spec_bytes()[k],
        decreases pl - i,
    {
        if sb[i] != pb[i] {
            proof {
                if starts_with_spec(s.spec_bytes(), p.spec_bytes()) {
                    assert(s.spec_bytes().subrange(0, pl as int)[i as int]
                        == s.spec_bytes()[i as int]);
                }
            }
            return false;
        }
        i = i + 1;
    }
    proof {
        assert(s.spec_bytes().subrange(0, pl as int) =~= p.spec_bytes());
    }
    true
}

/// The command a message text selects, by its prefix, checked in a fixed
/// order; a leading `!` runs a shell command, and everything else is a chat
/// prompt for the agent.
pub open spec fn route_spec(b: Seq<u8>) -> Command {
    if starts_with_spec(b, encode_utf8("/help"@)) {
        Command::Help
    } else if starts_with_spec(b, encode_utf8("/start"@)) {
        Command::Start
    } else if starts_with_spec(b, encode_utf8("/clear"@)) {
        Command::Clear
    } else if starts_with_spec(b, encode_utf8("/pwd"@)) {
        Command::Pwd
    } else if starts_with_spec(b, encode_utf8("/down"@)) {
        Command::Down
    } else if starts_with_spec(b, encode_utf8("/availabletools"@)) {
        Command::AvailableTools
    } else if starts_with_spec(b, encode_utf8("/allowedtools"@)) {
        Command::AllowedTools
    } else if starts_with_spec(b, encode_utf8("/allowed"@)) {
        Command::Allowed
    } else if starts_with_spec(b, encode_utf8("!"@)) {
        Command::Shell
    } else {
        Command::Chat
    }
}

/// Route an incoming message.
pub fn route_command(text: &str) -> (r: Command)
    ensures
        r == route_spec(text.spec_bytes()),
{
    if starts_with_str(text, "/help") {
        Command::Help
    } else if starts_with_str(text, "/start") {
        Command::Start
    } else if starts_with_str(text, "/clear") {
        Command::Clear
    } else if starts_with_str(text, "/pwd") {
        Command::Pwd
    } else if starts_with_str(text, "/down") {
        Command::Down
    } else if starts_with_str(text, "/availabletools") {
        Command::AvailableTools
    } else if starts_with_str(text, "/allowedtools") {
        Command::AllowedTools
    } else if starts_with_str(text, "/allowed") {
        Command::Allowed
    } else if starts_with_str(text, "!") {
        Command::Shell
    } else {
        Command::Chat
    }
}

/// ASCII trimming at both ends.
pub open spec fn trim_spec(b: Seq<u8>) -> Seq<u8>
    decreases b.len(),
    via trim_spec_decreases
{
    let t = trim_start_spec(b);
    if t.len() > 0 && is_ws(t.last()) {
        trim_spec(t.drop_last())
    } else {
        t
    }
}

#[via_fn]
proof fn trim_spec_decreases(b: Seq<u8>) {
    lemma_trim_start_len(b);
}

/// Trimming both ends is trimming the front, then the back.
proof fn lemma_trim_decompose(b: Seq<u8>)
    ensures
        trim_spec(b) == trim_spec_tail(trim_start_spec(b)),
    decreases b.len(),
{
    let t = trim_start_spec(b);
    lemma_trim_start_len(b);
    if t.len() > 0 && is_ws(t.last()) {
        assert(trim_start_spec(t.drop_last()) =~= t.drop_last()) by {
            lemma_trim_start_fixed(b);
            if t.drop_last().len() > 0 {
                assert(t.drop_last()[0] == t[0]);
                assert(!is_ws(t[0]));
            }
        }
        lemma_trim_decompose(t.drop_last());
        assert(trim_start_spec(t.drop_last()) == t.drop_last());
        assert(trim_spec(t.drop_last()) == trim_spec_tail(t.drop_last()));
    }
}

/// The front-trimmed text is no longer than the text.
proof fn lemma_trim_start_len(b: Seq<u8>)
    ensures
        trim_start_spec(b).len() <= b.len(),
    decreases b.len(),
{
    if b.len() > 0 && is_ws(b[0]) {
        lemma_trim_start_len(b.drop_first());
    }
}

/// The front-trimmed text starts with a non-blank byte (or is empty).
proof fn lemma_trim_start_fixed(b: Seq<u8>)
    ensures
        trim_start_spec(b).len() > 0 ==> !is_ws(trim_start_spec(b)[0]),
    decreases b.len(),
{
    if b.len() > 0 && is_ws(b[0]) {
        lemma_trim_start_fixed(b.drop_first());
    }
}

/// Drop the first `n` bytes (an ASCII prefix) and trim ASCII whitespace off
/// both ends: how a command's argument is read out of the message text.
#[verifier::loop_isolation(false)]
#[verifier::rlimit(100)]
#[verifier::spinoff_prover]
pub fn argument_after(text: &str, n: usize) -> (r: String)
    requires
        n <= text.spec_bytes().len(),
        forall|k: int| 0 <= k < n ==> text.spec_bytes()[k] < 128,
    ensures
        encode_utf8(r@) == trim_spec(
            text.spec_bytes().subrange(n as int, text.spec_bytes().len() as int),
        ),
{
    let ghost b = text.spec_bytes();
    proof {
        encode_utf8_valid_utf8(text@);
        is_char_boundary_start_end_of_seq(b);
        crate::text::lemma_ascii_prefix_boundary(b, n as int);
    }
    let (_h, rest) = text.split_at(n);
    let ghost rb = b.subrange(n as int, b.len() as int);
    proof {
        assert(rest.spec_bytes() =~= rb);
        vstd::utf8::valid_utf8_split(b, n as int);
    }
    let bs = rest.as_bytes();
    let m: usize = bs.len();
    // leading whitespace
    let mut lo: usize = 0;
    proof {
        assert(rb.subrange(0, rb.len() as int) =~= rb);
        is_char_boundary_start_end_of_seq(rb);
    }
    while lo < m && (bs[lo] == 32u8 || bs[lo] == 9u8 || bs[lo] == 13u8)
        invariant
            0 <= lo <= m,
            trim_start_spec(rb) == trim_start_spec(rb.subrange(lo as int, rb.len() as int)),
            is_char_boundary(rb, lo as int),
        decreases m - lo,
    {
        proof {
            let suf = rb.subrange(lo as int, rb.len() as int);
            assert(suf.drop_first() =~= rb.subrange(lo + 1, rb.len() as int));
            assert(vstd::utf8::is_leading_byte_width_1(rb[lo as int]));
            crate::text::lemma_after_ascii_boundary(rb, lo as int);
        }
        lo = lo + 1;
    }
    proof {
        let suf = rb.subrange(lo as int, rb.len() as int);
        if lo < m {
            assert(!is_ws(rb[lo as int]));
            assert(trim_start_spec(suf) == suf);
        } else {
            assert(suf =~= Seq::<u8>::empty());
        }
        assert(trim_start_spec(rb) == rb.subrange(lo as int, rb.len() as int));
        lemma_trim_decompose(rb);
        assert(rb.subrange(lo as int, m as int) =~= rb.subrange(lo as int, rb.len() as int));
    }
    // trailing whitespace
    let mut hi: usize = m;
    while hi > lo && (bs[hi - 1] == 32u8 || bs[hi - 1] == 9u8 || bs[hi - 1] == 13u8)
        invariant
            lo <= hi <= m,
            trim_spec(rb) == trim_spec_tail(rb.subrange(lo as int, hi as int)),
            forall|k: int| hi <= k < m ==> is_ws(rb[k]),
        decreases hi,
    {
        proof {
            let win = rb.subrange(lo as int, hi as int);
            assert(win.drop_last() =~= rb.subrange(lo as int, hi as int - 1));
            assert(win.last() == rb[hi as int - 1]);
            assert(is_ws(win.last()));
        }
        hi = hi - 1;
    }
    proof {
        let win = rb.subrange(lo as int, hi as int);
        assert(trim_spec_tail(win) == win) by {
            if win.len() > 0 {
                assert(win.last() == rb[hi as int - 1]);
            }
        }
    }
    let (_h1, tail2) = rest.split_at(lo);
    let ghost t2b = rb.subrange(lo as int, rb.len() as int);
    proof {
        assert(tail2.spec_bytes() =~= t2b);
        vstd::utf8::valid_utf8_split(rb, lo as int);
        assert(is_char_boundary(t2b, hi as int - lo as int)) by {
            if hi < m {
                assert(t2b[hi as int - lo as int] == rb[hi as int]);
                assert(is_ws(rb[hi as int]));
                is_char_boundary_iff_not_is_continuation_byte(t2b, hi as int - lo as int);
            } else {
                is_char_boundary_start_end_of_seq(t2b);
            }
        }
    }
    let (mid, _t2) = tail2.split_at(hi - lo);
    proof {
        assert(mid.spec_bytes() =~= rb.subrange(lo as int, hi as int));
    }
    mid.to_owned()
}

/// Trim ASCII whitespace off both ends.
pub fn trim_ascii(text: &str) -> (r: String)
    ensures
        encode_utf8(r@) == trim_spec(text.spec_bytes()),
{
    proof {
        assert(text.spec_bytes().subrange(0, text.spec_bytes().len() as int)
            =~= text.spec_bytes());
    }
    argument_after(text, 0)
}

/// Trimming once the front is clean: strip trailing whitespace only.
pub open spec fn trim_spec_tail(b: Seq<u8>) -> Seq<u8>
    decreases b.len(),
{
    if b.len() > 0 && is_ws(b.last()) {
        trim_spec_tail(b.drop_last())
    } else {
        b
    }
}

/// Where a download request points: an absolute path is taken as is; a
/// relative one hangs off the session directory (its trailing slashes
/// collapsed to the single separator); with no session there is no target.
pub open spec fn download_path_spec(file: Seq<u8>, base: Option<Seq<u8>>) -> Option<Seq<u8>> {
    if file.len() > 0 && file[0] == 47 {
        Some(file)
    } else {
        match base {
            Some(bb) => Some(crate::complete::strip_trail_slash(bb) + seq![47u8] + file),
            None => None,
        }
    }
}

/// Resolve a `/down` target against the session's working directory.
pub fn resolve_download_path(file: &str, base: Option<&str>) -> (r: Option<String>)
    ensures
        match r {
            Some(p) => download_path_spec(
                file.spec_bytes(),
                match base {
                    Some(bs) => Some(bs.spec_bytes()),
                    None => None,
                },
            ) == Some(encode_utf8(p@)),
            None => download_path_spec(
                file.spec_bytes(),
                match base {
                    Some(bs) => Some(bs.spec_bytes()),
                    None => None,
                },
            ) is None,
        },
{
    let fb = file.as_bytes();
    if fb.len() > 0 && fb[0] == 47u8 {
        return Some(file.to_owned());
    }
    let bstr = match base {
        Some(x) => x,
        None => {
            return None;
        },
    };
    let ghost bb = bstr.spec_bytes();
    proof {
        encode_utf8_valid_utf8(bstr@);
        assert(bb.subrange(0, bb.len() as int) =~= bb);
    }
    let bbytes = bstr.as_bytes();
    let mut endpos: usize = bbytes.len();
    while endpos > 0 && bbytes[endpos - 1] == 47u8
        invariant
            0 <= endpos <= bb.len(),
            bbytes@ == bb,
            valid_utf8(bb),
            forall|k: int| endpos <= k < bb.len() ==> bb[k] == 47,
            crate::complete::strip_trail_slash(bb) == crate::complete::strip_trail_slash(
                bb.subrange(0, endpos as int),
            ),
        decreases endpos,
    {
        proof {
            assert(bb.subrange(0, endpos as int).drop_last() =~= bb.subrange(
                0,
                endpos as int - 1,
            ));
        }
        endpos = endpos - 1;
    }
    proof {
        assert(crate::complete::strip_trail_slash(bb.subrange(0, endpos as int)) == bb.subrange(
            0,
            endpos as int,
        )) by {
            if endpos > 0 {
                assert(bb.subrange(0, endpos as int).last() == bb[endpos as int - 1]);
            }
        }
        assert(is_char_boundary(bb, endpos as int)) by {
            if (endpos as int) < bb.len() {
                is_char_boundary_iff_not_is_continuation_byte(bb, endpos as int);
            } else {
                is_char_boundary_start_end_of_seq(bb);
            }
        }
    }
    let (head, _t) = bstr.split_at(endpos);
    let mut out = head.to_owned();
    let ghost o0 = out@;
    out.append("/");
    proof {
        crate::text::lemma_encode_concat(o0, "/"@);
        reveal_strlit("/");
        assert(is_ascii_chars("/"@));
        is_ascii_chars_encode_utf8("/"@);
        assert(encode_utf8("/"@) =~= seq![47u8]);
    }
    let ghost o1 = out@;
    out.append(file);
    proof {
        crate::text::lemma_encode_concat(o1, file@);
        assert(head.spec_bytes() =~= bb.subrange(0, endpos as int));
        assert(encode_utf8(out@) =~= crate::complete::strip_trail_slash(bb) + seq![47u8]
            + file.spec_bytes());
    }
    Some(out)
}

/// An ASCII letter or digit.
pub open spec fn is_alnum(c: u8) -> bool {
    (48 <= c <= 57) || (65 <= c <= 90) || (97 <= c <= 122)
}

/// Relies on rand's `Alphanumeric` distribution: every sampled byte is an
/// ASCII letter or digit; which ones come back is up to the generator, so
/// nothing more is assumed.
#[verifier::external_body]
fn sample_alnum(n: usize) -> (r: Vec<u8>)
    ensures
        r@.len() == n,
        forall|i: int| 0 <= i < r@.len() ==> is_alnum(#[trigger] r@[i]),
{
    rand::thread_rng().sample_iter(&rand::distributions::Alphanumeric).take(n).collect()
}

/// A fresh workspace directory name: eight lowercase ASCII letters or
/// digits, drawn at random.
pub fn workspace_name() -> (r: String)
    ensures
        encode_utf8(r@).len() == 8,
        forall|i: int|
            0 <= i < encode_utf8(r@).len() ==> is_alnum(#[trigger] encode_utf8(r@)[i]) && !(65
                <= encode_utf8(r@)[i] <= 90),
{
    let raw = sample_alnum(8);
    let low = crate::util::lower_bytes_exec(&raw);
    proof {
        assert(forall|i: int|
            0 <= i < low@.len() ==> is_alnum(#[trigger] low@[i]) && !(65 <= low@[i] <= 90) && low@[i]
                < 128);
        crate::util::lemma_ascii_valid(low@);
    }
    string_from_utf8(low)
}

} // verus!
