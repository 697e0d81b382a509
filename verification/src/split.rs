//! Code-block-aware message splitting: a long message is cut into chunks that
//! fit the per-message length limit, cuts prefer line boundaries, and a fenced
//! code block that straddles a cut is closed before it and reopened, with its
//! language tag, at the start of the next chunk.

use crate::text::bytes_of;
use crate::text::first_nl_from;
use crate::text::lemma_first_nl_from;
use crate::text::floor_boundary;
use crate::text::floor_char_boundary;
use crate::text::last_nl_before;
use crate::text::lemma_after_ascii_boundary;
use crate::text::lemma_after_nl_boundary;
use crate::text::lemma_last_nl_before;
use crate::text::lemma_encode_concat;
use crate::text::lemma_first_nl_pin;
use crate::text::lemma_floor_boundary;
use crate::text::lemma_last_nl_exact;
use crate::text::lemma_last_nl_none;
use crate::text::lemma_nl_encoding;
use crate::text::lemma_nl_is_boundary;
use crate::text::lines_from;
use crate::text::nl;
use vstd::prelude::*;
use vstd::string::StrSliceExecFns;
use vstd::string::StringSliceAdditionalSpecFns;
use vstd::utf8::*;

verus! {

broadcast use vstd::slice::axiom_spec_len;

/// Backtick byte.
pub open spec fn bt() -> u8 {
    96u8
}

/// The three-backtick fence marker.
pub open spec fn fence() -> Seq<u8> {
    seq![bt(), bt(), bt()]
}

/// ASCII whitespace recognised when looking for a fence at the start of a
/// line.
pub open spec fn is_ws(c: u8) -> bool {
    c == 32 || c == 9 || c == 13
}

/// `l` with its leading ASCII whitespace removed.
pub open spec fn trim_start_spec(l: Seq<u8>) -> Seq<u8>
    decreases l.len(),
{
    if l.len() > 0 && is_ws(l[0]) {
        trim_start_spec(l.drop_first())
    } else {
        l
    }
}

pub proof fn lemma_trim_start_pin(l: Seq<u8>, k: int)
    requires
        0 <= k <= l.len(),
        forall|i: int| 0 <= i < k ==> is_ws(l[i]),
        k == l.len() || !is_ws(l[k]),
    ensures
        trim_start_spec(l) == l.subrange(k, l.len() as int),
    decreases k,
{
    if k == 0 {
        assert(l.subrange(0, l.len() as int) =~= l);
    } else {
        let d = l.drop_first();
        lemma_trim_start_pin(d, k - 1);
        assert(d.subrange(k - 1, d.len() as int) =~= l.subrange(k, l.len() as int));
    }
}

/// True when `l` begins with `p`.
pub open spec fn starts_with_spec(l: Seq<u8>, p: Seq<u8>) -> bool {
    l.len() >= p.len() && l.subrange(0, p.len() as int) == p
}

/// Fence tracking state: whether a code block is open, and the language tag
/// of the most recent opening fence.
pub open spec fn fence_step(st: (bool, Seq<u8>), line: Seq<u8>) -> (bool, Seq<u8>) {
    let t = trim_start_spec(line);
    if starts_with_spec(t, fence()) {
        if st.0 {
            (false, seq![])
        } else {
            (true, t.subrange(3, t.len() as int))
        }
    } else {
        st
    }
}

/// Fold `fence_step` over a list of lines.
pub open spec fn fence_scan(st: (bool, Seq<u8>), ls: Seq<Seq<u8>>) -> (bool, Seq<u8>)
    decreases ls.len(),
{
    if ls.len() == 0 {
        st
    } else {
        fence_scan(fence_step(st, ls[0]), ls.drop_first())
    }
}

/// The bytes prepended to a chunk that continues an open code block.
pub open spec fn open_tag(st: (bool, Seq<u8>)) -> Seq<u8> {
    if st.0 {
        fence() + st.1 + seq![nl()]
    } else {
        seq![]
    }
}

/// The bytes appended to a chunk that ends inside a code block.
pub open spec fn close_tag(in_code: bool) -> Seq<u8> {
    if in_code {
        seq![nl()] + fence()
    } else {
        seq![]
    }
}

/// Largest number of payload bytes a chunk may carry, after reserving room
/// for a reopening tag and a safety margin.
pub open spec fn eff_limit(limit: int, st: (bool, Seq<u8>)) -> int {
    let overhead: int = if st.0 {
        7 + st.1.len() as int
    } else {
        0
    };
    let a = if limit - overhead >= 0 {
        limit - overhead
    } else {
        0
    };
    if a - 10 >= 0 {
        a - 10
    } else {
        0
    }
}

/// Where one splitting round cuts `b`: the last newline inside the largest
/// character-boundary window that fits, or the window end when the window
/// holds no newline.
pub open spec fn split_cut(b: Seq<u8>, eff: int) -> int {
    let safe = floor_boundary(b, eff);
    let p = last_nl_before(b, safe);
    if p >= 0 {
        p
    } else {
        safe
    }
}

/// The chunks that code-block-aware splitting produces from `b`, starting in
/// fence state `st`.  A round that can make no progress (possible only when a
/// gigantic language tag eats the whole budget) emits the rest as one final
/// oversized chunk rather than looping.
pub open spec fn split_spec(limit: int, b: Seq<u8>, st: (bool, Seq<u8>)) -> Seq<Seq<u8>>
    decreases b.len(),
    when b.len() <= usize::MAX
    via split_spec_decreases
{
    if b.len() == 0 {
        seq![]
    } else {
        let eff = eff_limit(limit, st);
        if b.len() <= eff {
            seq![open_tag(st) + b]
        } else {
            let cut = split_cut(b, eff);
            if cut == 0 && b[0] != nl() {
                seq![open_tag(st) + b]
            } else {
                let raw = b.subrange(0, cut);
                let st2 = fence_scan(st, lines_from(raw, 0));
                let chunk = open_tag(st) + raw + close_tag(st2.0);
                let rest = b.subrange(cut, b.len() as int);
                let rest2 = if rest.len() > 0 && rest[0] == nl() {
                    rest.drop_first()
                } else {
                    rest
                };
                seq![chunk] + split_spec(limit, rest2, st2)
            }
        }
    }
}

#[via_fn]
proof fn split_spec_decreases(limit: int, b: Seq<u8>, st: (bool, Seq<u8>)) {
    if b.len() > 0 {
        let eff = eff_limit(limit, st);
        if b.len() > eff {
            lemma_split_cut(b, eff);
        }
    }
}

pub proof fn lemma_split_cut(b: Seq<u8>, eff: int)
    requires
        0 <= eff < b.len(),
    ensures
        0 <= split_cut(b, eff) <= eff,
        valid_utf8(b) ==> is_char_boundary(b, split_cut(b, eff)),
{
    lemma_floor_boundary_total(b, eff);
    let safe = floor_boundary(b, eff);
    lemma_last_nl_before(b, safe);
    if valid_utf8(b) {
        lemma_floor_boundary(b, eff);
        let p = last_nl_before(b, safe);
        if p >= 0 {
            lemma_nl_is_boundary(b, p);
        }
    }
}

/// Bounds of `floor_boundary` that hold with no validity assumption.
pub proof fn lemma_floor_boundary_total(b: Seq<u8>, i: int)
    requires
        0 <= i <= b.len(),
    ensures
        0 <= floor_boundary(b, i) <= i,
    decreases i,
{
    if i > 0 && !is_char_boundary(b, i) {
        lemma_floor_boundary_total(b, i - 1);
    }
}

/// The chunk list for a whole message at limit `limit`, starting outside any
/// code block.
pub open spec fn split_message_spec(limit: int, b: Seq<u8>) -> Seq<Seq<u8>> {
    split_spec(limit, b, (false, seq![]))
}

/// The raw text carried by each chunk, paired with whether the cut consumed
/// a newline of the original text.  Mirrors `split_spec` round for round.
pub open spec fn split_parts(limit: int, b: Seq<u8>, st: (bool, Seq<u8>)) -> Seq<(Seq<u8>, bool)>
    decreases b.len(),
    when b.len() <= usize::MAX
    via split_parts_decreases
{
    if b.len() == 0 {
        seq![]
    } else {
        let eff = eff_limit(limit, st);
        if b.len() <= eff {
            seq![(b, false)]
        } else {
            let cut = split_cut(b, eff);
            if cut == 0 && b[0] != nl() {
                seq![(b, false)]
            } else {
                let raw = b.subrange(0, cut);
                let st2 = fence_scan(st, lines_from(raw, 0));
                let rest = b.subrange(cut, b.len() as int);
                let stripped = rest.len() > 0 && rest[0] == nl();
                let rest2 = if stripped {
                    rest.drop_first()
                } else {
                    rest
                };
                seq![(raw, stripped)] + split_parts(limit, rest2, st2)
            }
        }
    }
}

#[via_fn]
proof fn split_parts_decreases(limit: int, b: Seq<u8>, st: (bool, Seq<u8>)) {
    if b.len() > 0 {
        let eff = eff_limit(limit, st);
        if b.len() > eff {
            lemma_split_cut(b, eff);
        }
    }
}

/// The fence state at the start of each chunk, and one final entry: entry
/// `k` is the state the splitter was in when it produced chunk `k`; a chunk
/// whose raw text ends inside a code block is followed by an open state.  A
/// final chunk that was emitted whole (never rescanned) is followed by a
/// closed state, matching its missing close tag.
pub open spec fn split_states(limit: int, b: Seq<u8>, st: (bool, Seq<u8>)) -> Seq<(bool, Seq<u8>)>
    decreases b.len(),
    when b.len() <= usize::MAX
    via split_states_decreases
{
    if b.len() == 0 {
        seq![st]
    } else {
        let eff = eff_limit(limit, st);
        if b.len() <= eff {
            seq![st, (false, seq![])]
        } else {
            let cut = split_cut(b, eff);
            if cut == 0 && b[0] != nl() {
                seq![st, (false, seq![])]
            } else {
                let raw = b.subrange(0, cut);
                let st2 = fence_scan(st, lines_from(raw, 0));
                let rest = b.subrange(cut, b.len() as int);
                let rest2 = if rest.len() > 0 && rest[0] == nl() {
                    rest.drop_first()
                } else {
                    rest
                };
                seq![st] + split_states(limit, rest2, st2)
            }
        }
    }
}

#[via_fn]
proof fn split_states_decreases(limit: int, b: Seq<u8>, st: (bool, Seq<u8>)) {
    if b.len() > 0 {
        let eff = eff_limit(limit, st);
        if b.len() > eff {
            lemma_split_cut(b, eff);
        }
    }
}

/// Concatenate raw parts, restoring the newlines the cuts consumed.
pub open spec fn rejoin(parts: Seq<(Seq<u8>, bool)>) -> Seq<u8>
    decreases parts.len(),
{
    if parts.len() == 0 {
        seq![]
    } else {
        parts[0].0 + (if parts[0].1 {
            seq![nl()]
        } else {
            Seq::<u8>::empty()
        }) + rejoin(parts.drop_first())
    }
}

/// The raw parts of a split, joined with the newlines the cuts consumed,
/// reproduce the original text byte for byte: splitting loses nothing.
pub proof fn lemma_split_reconstruct(limit: int, b: Seq<u8>, st: (bool, Seq<u8>))
    requires
        b.len() <= usize::MAX,
    ensures
        rejoin(split_parts(limit, b, st)) == b,
    decreases b.len(),
{
    if b.len() == 0 {
        assert(rejoin(split_parts(limit, b, st)) =~= b);
    } else {
        let eff = eff_limit(limit, st);
        if b.len() <= eff {
            assert(split_parts(limit, b, st) =~= seq![(b, false)]);
            assert(seq![(b, false)].drop_first() =~= Seq::<(Seq<u8>, bool)>::empty());
            assert(rejoin(Seq::<(Seq<u8>, bool)>::empty()) =~= Seq::<u8>::empty());
            assert(rejoin(seq![(b, false)]) =~= b + Seq::<u8>::empty() + Seq::<u8>::empty());
            assert(rejoin(split_parts(limit, b, st)) =~= b);
        } else {
            let cut = split_cut(b, eff);
            lemma_split_cut(b, eff);
            if cut == 0 && b[0] != nl() {
                assert(split_parts(limit, b, st) =~= seq![(b, false)]);
                assert(seq![(b, false)].drop_first() =~= Seq::<(Seq<u8>, bool)>::empty());
                assert(rejoin(Seq::<(Seq<u8>, bool)>::empty()) =~= Seq::<u8>::empty());
                assert(rejoin(seq![(b, false)]) =~= b + Seq::<u8>::empty() + Seq::<u8>::empty());
                assert(rejoin(split_parts(limit, b, st)) =~= b);
            } else {
                let raw = b.subrange(0, cut);
                let st2 = fence_scan(st, lines_from(raw, 0));
                let rest = b.subrange(cut, b.len() as int);
                let stripped = rest.len() > 0 && rest[0] == nl();
                let rest2 = if stripped {
                    rest.drop_first()
                } else {
                    rest
                };
                lemma_split_reconstruct(limit, rest2, st2);
                let parts = split_parts(limit, b, st);
                assert(parts =~= seq![(raw, stripped)] + split_parts(limit, rest2, st2));
                assert(parts.drop_first() =~= split_parts(limit, rest2, st2));
                assert(parts[0] == (raw, stripped));
                if stripped {
                    assert(raw + seq![nl()] + rest2 =~= b);
                } else {
                    assert(raw + Seq::<u8>::empty() + rest2 =~= b);
                }
            }
        }
    }
}

/// Each chunk is exactly its raw text, wrapped in the reopening tag of the
/// fence state it starts in and the closing fence demanded by the state the
/// next chunk starts in.  In particular a chunk cut inside a code block ends
/// with a closing fence, and the following chunk reopens the block with the
/// recorded language tag.  The three parallel descriptions of a split agree
/// in length (`split_states` carrying one extra, final entry).
pub proof fn lemma_split_chunk_shape(limit: int, b: Seq<u8>, st: (bool, Seq<u8>))
    requires
        b.len() <= usize::MAX,
    ensures
        split_spec(limit, b, st).len() == split_parts(limit, b, st).len(),
        split_states(limit, b, st).len() == split_spec(limit, b, st).len() + 1,
        split_states(limit, b, st)[0] == st,
        forall|k: int|
            0 <= k < split_spec(limit, b, st).len() ==> #[trigger] split_spec(limit, b, st)[k]
                == open_tag(split_states(limit, b, st)[k]) + split_parts(limit, b, st)[k].0
                + close_tag(split_states(limit, b, st)[k + 1].0),
    decreases b.len(),
{
    if b.len() == 0 {
    } else {
        let eff = eff_limit(limit, st);
        if b.len() <= eff {
            assert(split_spec(limit, b, st)[0] =~= open_tag(st) + b + close_tag(false));
        } else {
            let cut = split_cut(b, eff);
            lemma_split_cut(b, eff);
            if cut == 0 && b[0] != nl() {
                assert(split_spec(limit, b, st)[0] =~= open_tag(st) + b + close_tag(false));
            } else {
                let raw = b.subrange(0, cut);
                let st2 = fence_scan(st, lines_from(raw, 0));
                let rest = b.subrange(cut, b.len() as int);
                let rest2 = if rest.len() > 0 && rest[0] == nl() {
                    rest.drop_first()
                } else {
                    rest
                };
                lemma_split_chunk_shape(limit, rest2, st2);
                let cs = split_spec(limit, b, st);
                let ps = split_parts(limit, b, st);
                let ss = split_states(limit, b, st);
                let cs2 = split_spec(limit, rest2, st2);
                let ps2 = split_parts(limit, rest2, st2);
                let ss2 = split_states(limit, rest2, st2);
                assert(cs =~= seq![open_tag(st) + raw + close_tag(st2.0)] + cs2);
                assert(ps =~= seq![(raw, rest.len() > 0 && rest[0] == nl())] + ps2);
                assert(ss =~= seq![st] + ss2);
                assert forall|k: int|
                    0 <= k < cs.len() implies #[trigger] cs[k] == open_tag(ss[k]) + ps[k].0
                    + close_tag(ss[k + 1].0) by {
                    if k == 0 {
                        assert(ss[1] == ss2[0]);
                        assert(ss2[0] == st2);
                    } else {
                        assert(cs[k] == cs2[k - 1]);
                        assert(ps[k].0 == ps2[k - 1].0);
                        assert(ss[k] == ss2[k - 1]);
                        assert(ss[k + 1] == ss2[k]);
                    }
                }
            }
        }
    }
}

/// The byte sequences of a list of chunks.
pub open spec fn chunks_bytes(cs: Seq<String>) -> Seq<Seq<u8>> {
    cs.map_values(|c: String| bytes_of(c@))
}

/// In valid UTF-8, character boundaries are never more than three bytes
/// apart, because no scalar's encoding exceeds four bytes.
pub proof fn lemma_floor_boundary_close(b: Seq<u8>, i: int)
    requires
        valid_utf8(b),
        0 <= i <= b.len(),
    ensures
        floor_boundary(b, i) >= i - 3,
{
    let f = floor_boundary(b, i);
    lemma_floor_boundary(b, i);
    if f < i - 3 {
        valid_utf8_split(b, f);
        let suffix = b.subrange(f, b.len() as int);
        assert(suffix.len() > 0);
        assert(valid_first_scalar(suffix));
        let s1 = length_of_first_scalar(suffix);
        assert(1 <= s1 <= 4);
        reveal_with_fuel(is_char_boundary, 2);
        assert(is_char_boundary(suffix, s1));
        crate::text::lemma_boundary_compose(b, f, s1);
        assert(is_char_boundary(b, f + s1));
        assert(false);
    }
}

/// Every three-backtick occurrence is followed by a newline (or the end of
/// the text) within `k` bytes: no fence language tag is longer than `k`.
pub open spec fn fence_tags_le(b: Seq<u8>, k: int) -> bool {
    forall|x: int|
        0 <= x && x + 3 <= b.len() && b[x] == bt() && b[x + 1] == bt() && b[x + 2] == bt()
            ==> #[trigger] first_nl_from(b, x + 3) - (x + 3) <= k
}

/// The distance to the next newline never grows when passing to a subrange.
proof fn lemma_first_nl_subrange(b: Seq<u8>, lo: int, hi: int, j: int)
    requires
        0 <= lo <= hi <= b.len(),
        0 <= j <= hi - lo,
    ensures
        first_nl_from(b.subrange(lo, hi), j) - j <= first_nl_from(b, lo + j) - (lo + j),
{
    let sub = b.subrange(lo, hi);
    lemma_first_nl_from(b, lo + j);
    lemma_first_nl_from(sub, j);
    let p = first_nl_from(b, lo + j);
    if p - lo < hi - lo {
        assert(sub[p - lo] == nl());
        lemma_first_nl_pin(sub, j, p - lo);
    } else {
        assert(forall|q: int| j <= q < sub.len() ==> sub[q] != nl());
        lemma_first_nl_pin(sub, j, sub.len() as int);
    }
}

/// Tag boundedness is inherited by subranges.
pub proof fn lemma_tags_le_subrange(b: Seq<u8>, k: int, lo: int, hi: int)
    requires
        fence_tags_le(b, k),
        0 <= lo <= hi <= b.len(),
        0 <= k,
    ensures
        fence_tags_le(b.subrange(lo, hi), k),
{
    let sub = b.subrange(lo, hi);
    assert forall|x: int|
        0 <= x && x + 3 <= sub.len() && sub[x] == bt() && sub[x + 1] == bt() && sub[x + 2] == bt()
            implies #[trigger] first_nl_from(sub, x + 3) - (x + 3) <= k by {
        assert(b[lo + x] == bt() && b[lo + x + 1] == bt() && b[lo + x + 2] == bt());
        assert(first_nl_from(b, (lo + x) + 3) - ((lo + x) + 3) <= k);
        lemma_first_nl_subrange(b, lo, hi, x + 3);
        assert(lo + (x + 3) == (lo + x) + 3);
    }
}

/// The trimmed form of a line is one of its suffixes.
proof fn lemma_trim_is_suffix(l: Seq<u8>) -> (w: int)
    ensures
        0 <= w <= l.len(),
        trim_start_spec(l) == l.subrange(w, l.len() as int),
    decreases l.len(),
{
    if l.len() > 0 && is_ws(l[0]) {
        let w0 = lemma_trim_is_suffix(l.drop_first());
        assert(l.drop_first().subrange(w0, l.drop_first().len() as int) =~= l.subrange(
            w0 + 1,
            l.len() as int,
        ));
        w0 + 1
    } else {
        assert(l.subrange(0, l.len() as int) =~= l);
        0
    }
}

/// Scanning lines whose fence tags are bounded keeps the recorded language
/// tag bounded.
proof fn lemma_scan_bound(st: (bool, Seq<u8>), c: Seq<u8>, pos: int, k: int)
    requires
        fence_tags_le(c, k),
        0 <= k,
        st.0 ==> st.1.len() <= k,
        0 <= pos <= c.len(),
    ensures
        fence_scan(st, lines_from(c, pos)).0 ==> fence_scan(st, lines_from(c, pos)).1.len() <= k,
    decreases c.len() - pos,
{
    if pos >= c.len() {
    } else {
        let j = first_nl_from(c, pos);
        lemma_first_nl_from(c, pos);
        let end: int = if j >= c.len() {
            c.len() as int
        } else {
            j
        };
        let line = c.subrange(pos, end);
        let st2 = fence_step(st, line);
        assert(st2.0 ==> st2.1.len() <= k) by {
            let t = trim_start_spec(line);
            if starts_with_spec(t, fence()) && !st.0 {
                let w = lemma_trim_is_suffix(line);
                // the backticks stand at pos + w in c
                assert(t[0] == line[w] && t[1] == line[w + 1] && t[2] == line[w + 2]);
                assert(t[0] == fence()[0] && t[1] == fence()[1] && t[2] == fence()[2]) by {
                    assert(t.subrange(0, 3)[0] == t[0]);
                    assert(t.subrange(0, 3)[1] == t[1]);
                    assert(t.subrange(0, 3)[2] == t[2]);
                }
                assert(c[pos + w] == bt() && c[pos + w + 1] == bt() && c[pos + w + 2] == bt());
                assert(first_nl_from(c, pos + w + 3) - (pos + w + 3) <= k);
                // the line holds no newline, so the next newline is at or
                // past its end
                lemma_first_nl_from(c, pos + w + 3);
                let p = first_nl_from(c, pos + w + 3);
                if p < end {
                    assert(c[p] == nl());
                    assert(false);
                }
                assert(st2.1.len() == t.len() - 3);
                assert(t.len() - 3 == end - (pos + w) - 3);
            }
        }
        let ls = lines_from(c, pos);
        if j >= c.len() {
            assert(ls =~= seq![line]);
            assert(ls.drop_first() =~= Seq::<Seq<u8>>::empty());
            assert(fence_scan(st, ls) == fence_scan(st2, Seq::<Seq<u8>>::empty()));
        } else {
            assert(ls[0] == line);
            assert(ls.drop_first() =~= lines_from(c, j + 1));
            lemma_scan_bound(st2, c, j + 1, k);
            assert(fence_scan(st, ls) == fence_scan(st2, lines_from(c, j + 1)));
        }
    }
}

/// Every chunk fits the limit: with no pathological fence language tag in
/// the text (none longer than `k`, with `k + 27 <= limit`), each produced
/// chunk is at most `limit` bytes, tags included.
pub proof fn lemma_split_chunks_fit(limit: int, b: Seq<u8>, st: (bool, Seq<u8>), k: int)
    requires
        valid_utf8(b),
        b.len() <= usize::MAX,
        fence_tags_le(b, k),
        0 <= k,
        k + 27 <= limit,
        st.0 ==> st.1.len() <= k,
    ensures
        forall|i: int|
            0 <= i < split_spec(limit, b, st).len() ==> #[trigger] split_spec(limit, b, st)[i].len()
                <= limit,
    decreases b.len(),
{
    if b.len() == 0 {
    } else {
        let eff = eff_limit(limit, st);
        assert(eff >= 10);
        if b.len() <= eff {
            assert(split_spec(limit, b, st)[0].len() <= limit);
        } else {
            let cut = split_cut(b, eff);
            lemma_split_cut(b, eff);
            if cut == 0 && b[0] != nl() {
                // Unreachable under the tag bound: the window is wide enough
                // that the cut always makes progress.
                lemma_floor_boundary_close(b, eff);
                lemma_floor_boundary(b, eff);
                let safe = floor_boundary(b, eff);
                assert(safe >= eff - 3 >= 1);
                let p = last_nl_before(b, safe);
                lemma_last_nl_before(b, safe);
                if p >= 0 {
                    assert(cut == p);
                    assert(b[0] == nl());
                } else {
                    assert(cut == safe);
                }
                assert(false);
            } else {
                let raw = b.subrange(0, cut);
                let st2 = fence_scan(st, lines_from(raw, 0));
                let rest = b.subrange(cut, b.len() as int);
                let rest2 = if rest.len() > 0 && rest[0] == nl() {
                    rest.drop_first()
                } else {
                    rest
                };
                assert(valid_utf8(rest)) by {
                    valid_utf8_split(b, cut);
                }
                assert(valid_utf8(rest2)) by {
                    if rest.len() > 0 && rest[0] == nl() {
                        lemma_after_nl_boundary(rest, 0);
                        valid_utf8_split(rest, 1);
                        assert(rest.drop_first() =~= rest.subrange(1, rest.len() as int));
                    }
                }
                assert(fence_tags_le(rest2, k)) by {
                    if rest.len() > 0 && rest[0] == nl() {
                        assert(rest2 =~= b.subrange(cut + 1, b.len() as int));
                        lemma_tags_le_subrange(b, k, cut + 1, b.len() as int);
                    } else {
                        lemma_tags_le_subrange(b, k, cut, b.len() as int);
                    }
                }
                assert(st2.0 ==> st2.1.len() <= k) by {
                    lemma_tags_le_subrange(b, k, 0, cut);
                    lemma_scan_bound(st, raw, 0, k);
                }
                lemma_split_chunks_fit(limit, rest2, st2, k);
                let chunk = open_tag(st) + raw + close_tag(st2.0);
                assert(chunk.len() <= limit);
                assert forall|i: int|
                    0 <= i < split_spec(limit, b, st).len() implies #[trigger] split_spec(
                    limit,
                    b,
                    st,
                )[i].len() <= limit by {
                    assert(split_spec(limit, b, st) =~= seq![chunk] + split_spec(
                        limit,
                        rest2,
                        st2,
                    ));
                    if i > 0 {
                        assert(split_spec(limit, b, st)[i] == split_spec(limit, rest2, st2)[i - 1]);
                    }
                }
            }
        }
    }
}


/// The bytes of a three-backtick string literal.
pub proof fn lemma_fence_encoding()
    ensures
        encode_utf8("```"@) == fence(),
        "```"@.len() == 3,
{
    reveal_strlit("```");
    assert(is_ascii_chars("```"@));
    is_ascii_chars_encode_utf8("```"@);
    assert(encode_utf8("```"@) =~= fence());
}

/// Effective payload budget for one chunk.
fn eff_exec(limit: usize, in_code: bool, lang_len: usize) -> (r: usize)
    ensures
        forall|st: (bool, Seq<u8>)|
            st.0 == in_code && st.1.len() == lang_len ==> r == eff_limit(limit as int, st),
{
    let a: usize = if in_code {
        if lang_len >= limit {
            0
        } else if limit - lang_len < 7 {
            0
        } else {
            limit - lang_len - 7
        }
    } else {
        limit
    };
    if a < 10 {
        0
    } else {
        a - 10
    }
}

/// One line's effect on the fence state, exactly as the splitter tracks it:
/// a line whose trimmed form starts with three backticks toggles the state
/// and, when opening, records the rest of the trimmed line as language tag.
fn fence_step_exec(line: &str, in_code: bool, lang: &str) -> (r: (bool, String))
    ensures
        ({
            let st2 = fence_step((in_code, bytes_of(lang@)), line.spec_bytes());
            r.0 == st2.0 && bytes_of(r.1@) == st2.1
        }),
{
    let ghost b = line.spec_bytes();
    proof {
        encode_utf8_valid_utf8(line@);
        is_char_boundary_start_end_of_seq(b);
    }
    let bs = line.as_bytes();
    let n: usize = bs.len();
    let mut k: usize = 0;
    while k < n && (bs[k] == 32u8 || bs[k] == 9u8 || bs[k] == 13u8)
        invariant
            0 <= k <= n,
            bs@ == b,
            n == b.len(),
            valid_utf8(b),
            is_char_boundary(b, k as int),
            forall|i: int| 0 <= i < k ==> is_ws(b[i]),
        decreases n - k,
    {
        proof {
            assert(is_leading_byte_width_1(b[k as int]));
            lemma_after_ascii_boundary(b, k as int);
        }
        k = k + 1;
    }
    let ghost t = trim_start_spec(b);
    proof {
        lemma_trim_start_pin(b, k as int);
        assert(t == b.subrange(k as int, b.len() as int));
    }
    if n - k >= 3 && bs[k] == 96u8 && bs[k + 1] == 96u8 && bs[k + 2] == 96u8 {
        proof {
            assert(t.subrange(0, 3) =~= fence());
        }
        if in_code {
            let cleared = String::new();
            proof {
                assert(bytes_of(cleared@) =~= Seq::<u8>::empty());
            }
            (false, cleared)
        } else {
            let (_h, trimmed) = line.split_at(k);
            proof {
                assert(trimmed.spec_bytes() =~= t);
                assert(is_leading_byte_width_1(t[0]));
                assert(is_leading_byte_width_1(t[1]));
                assert(is_leading_byte_width_1(t[2]));
                valid_utf8_split(b, k as int);
                is_char_boundary_start_end_of_seq(t);
                lemma_after_ascii_boundary(t, 0);
                lemma_after_ascii_boundary(t, 1);
                lemma_after_ascii_boundary(t, 2);
            }
            let (_f, tag) = trimmed.split_at(3);
            proof {
                assert(tag.spec_bytes() =~= t.subrange(3, t.len() as int));
            }
            (true, tag.to_owned())
        }
    } else {
        proof {
            if starts_with_spec(t, fence()) {
                assert(t.subrange(0, 3)[0] == t[0]);
                assert(t.subrange(0, 3)[1] == t[1]);
                assert(t.subrange(0, 3)[2] == t[2]);
                assert(false);
            }
        }
        (in_code, lang.to_owned())
    }
}

/// Fold the fence state over every line of `raw`.
fn scan_fences(raw: &str, in_code: bool, lang: &str) -> (r: (bool, String))
    ensures
        ({
            let st2 = fence_scan((in_code, bytes_of(lang@)), lines_from(raw.spec_bytes(), 0));
            r.0 == st2.0 && bytes_of(r.1@) == st2.1
        }),
{
    let ghost b = raw.spec_bytes();
    let ghost st0 = (in_code, bytes_of(lang@));
    proof {
        encode_utf8_valid_utf8(raw@);
        is_char_boundary_start_end_of_seq(b);
    }
    let bs = raw.as_bytes();
    let n: usize = bs.len();
    let mut cur_in: bool = in_code;
    let mut cur_lang: String = lang.to_owned();
    let mut pos: usize = 0;
    while pos < n
        invariant
            0 <= pos <= n,
            n == b.len(),
            raw.spec_bytes() == b,
            bs@ == b,
            valid_utf8(b),
            is_char_boundary(b, pos as int),
            fence_scan(st0, lines_from(b, 0)) == fence_scan(
                (cur_in, bytes_of(cur_lang@)),
                lines_from(b, pos as int),
            ),
        decreases n - pos,
    {
        let mut j: usize = pos;
        while j < n && bs[j] != 10u8
            invariant
                pos <= j <= n,
                bs@ == b,
                n == b.len(),
                forall|k: int| pos <= k < j ==> b[k] != nl(),
            decreases n - j,
        {
            j = j + 1;
        }
        proof {
            lemma_first_nl_pin(b, pos as int, j as int);
            assert(lines_from(b, pos as int)[0] == b.subrange(pos as int, j as int));
            assert(lines_from(b, pos as int).drop_first() =~= if (j as int) < b.len() {
                lines_from(b, (j + 1) as int)
            } else {
                seq![]
            });
            valid_utf8_split(b, pos as int);
            let suffix = b.subrange(pos as int, b.len() as int);
            if (j as int) < b.len() {
                assert(suffix[j as int - pos as int] == nl());
                is_char_boundary_iff_not_is_continuation_byte(suffix, j as int - pos as int);
            } else {
                is_char_boundary_start_end_of_seq(suffix);
            }
        }
        let (_head, tail) = raw.split_at(pos);
        let (line_str, _rest) = tail.split_at(j - pos);
        proof {
            assert(line_str.spec_bytes() =~= b.subrange(pos as int, j as int));
        }
        let stepped = fence_step_exec(line_str, cur_in, cur_lang.as_str());
        cur_in = stepped.0;
        cur_lang = stepped.1;
        proof {
            if (j as int) < b.len() {
                lemma_after_nl_boundary(b, j as int);
            } else {
                is_char_boundary_start_end_of_seq(b);
            }
        }
        pos = if j < n {
            j + 1
        } else {
            n
        };
    }
    proof {
        assert(lines_from(b, pos as int) =~= Seq::<Seq<u8>>::empty());
    }
    (cur_in, cur_lang)
}

/// Prefix `body` with a reopening fence tag when a code block is open.
fn with_open_tag(in_code: bool, lang: &str, body: &str) -> (r: String)
    ensures
        bytes_of(r@) == open_tag((in_code, bytes_of(lang@))) + body.spec_bytes(),
{
    let mut c = String::new();
    proof {
        lemma_fence_encoding();
        lemma_nl_encoding();
    }
    if in_code {
        let ghost c0 = c@;
        c.append("```");
        proof {
            lemma_encode_concat(c0, "```"@);
        }
        let ghost c1 = c@;
        c.append(lang);
        proof {
            lemma_encode_concat(c1, lang@);
        }
        let ghost c2 = c@;
        c.append("\n");
        proof {
            lemma_encode_concat(c2, "\n"@);
        }
    }
    let ghost c3 = c@;
    c.append(body);
    proof {
        lemma_encode_concat(c3, body@);
        assert(bytes_of(c@) =~= open_tag((in_code, bytes_of(lang@))) + body.spec_bytes());
    }
    c
}

/// Split `text` into chunks that fit the surface-A message limit.  Cuts fall
/// on character boundaries and prefer line breaks; a fenced code block cut in
/// the middle is closed at the end of the chunk and reopened, with its
/// language tag, at the start of the next one.
pub fn split_message(text: &str) -> (r: Vec<String>)
    ensures
        chunks_bytes(r@) == split_message_spec(crate::MSG_LIMIT_A as int, text.spec_bytes()),
{
    let limit: usize = crate::MSG_LIMIT_A;
    let ghost b0 = text.spec_bytes();
    let mut chunks: Vec<String> = Vec::new();
    let mut rem: &str = text;
    let mut in_code: bool = false;
    let mut lang: String = String::new();
    let _n0: usize = text.as_bytes().len();
    proof {
        encode_utf8_valid_utf8(text@);
        assert(bytes_of(lang@) =~= Seq::<u8>::empty());
        assert(chunks_bytes(chunks@) =~= Seq::<Seq<u8>>::empty());
        assert(chunks_bytes(chunks@) + split_spec(limit as int, b0, (false, seq![])) =~= split_spec(
            limit as int,
            b0,
            (false, seq![]),
        ));
    }
    while !rem.is_empty()
        invariant
            valid_utf8(rem.spec_bytes()),
            rem.spec_bytes().len() <= usize::MAX,
            split_message_spec(limit as int, b0) == chunks_bytes(chunks@) + split_spec(
                limit as int,
                rem.spec_bytes(),
                (in_code, bytes_of(lang@)),
            ),
            limit == crate::MSG_LIMIT_A,
        decreases rem.spec_bytes().len(),
    {
        let ghost b = rem.spec_bytes();
        let ghost st = (in_code, bytes_of(lang@));
        let bs = rem.as_bytes();
        let n: usize = bs.len();
        proof {
            crate::text::lemma_encode_empty(rem@);
        }
        let eff = eff_exec(limit, in_code, lang.as_str().as_bytes().len());
        if n <= eff {
            let chunk = with_open_tag(in_code, lang.as_str(), rem);
            let ghost cpre = chunks@;
            chunks.push(chunk);
            proof {
                assert(chunks@ =~= cpre.push(chunk));
                assert(chunks_bytes(chunks@) =~= chunks_bytes(cpre).push(bytes_of(chunk@)));
                assert(split_spec(limit as int, b, st) =~= seq![open_tag(st) + b]);
                assert(chunks_bytes(cpre) + split_spec(limit as int, b, st) =~= chunks_bytes(
                    chunks@,
                ));
                assert(chunks_bytes(chunks@) + split_spec(limit as int, Seq::<u8>::empty(), st)
                    =~= chunks_bytes(chunks@));
            }
            rem = "";
            proof {
                reveal_strlit("");
                assert(rem.spec_bytes() =~= Seq::<u8>::empty());
            }
        } else {
            proof {
                lemma_split_cut(b, eff as int);
                is_char_boundary_start_end_of_seq(b);
            }
            let safe_end = floor_char_boundary(rem, eff);
            let ghost p = last_nl_before(b, safe_end as int);
            let mut cut: usize = safe_end;
            let mut j: usize = safe_end;
            let mut found: bool = false;
            while j > 0 && !found
                invariant
                    j <= safe_end <= b.len(),
                    rem.spec_bytes() == b,
                    bs@ == b,
                    p == last_nl_before(b, safe_end as int),
                    !found ==> forall|k: int| j <= k < safe_end ==> b[k] != nl(),
                    !found ==> cut == safe_end,
                    found ==> 0 <= p < safe_end && cut == p,
                decreases j,
            {
                j = j - 1;
                let c = bs[j];
                if c == 10u8 {
                    found = true;
                    cut = j;
                    proof {
                        lemma_last_nl_exact(b, safe_end as int, j as int);
                    }
                }
            }
            proof {
                if !found {
                    lemma_last_nl_none(b, safe_end as int);
                }
                assert(cut as int == split_cut(b, eff as int));
            }
            if cut == 0 && bs[0] != 10u8 {
                let chunk = with_open_tag(in_code, lang.as_str(), rem);
                let ghost cpre = chunks@;
                chunks.push(chunk);
                proof {
                    assert(chunks@ =~= cpre.push(chunk));
                    assert(chunks_bytes(chunks@) =~= chunks_bytes(cpre).push(bytes_of(chunk@)));
                    assert(split_spec(limit as int, b, st) =~= seq![open_tag(st) + b]);
                    assert(chunks_bytes(cpre) + split_spec(limit as int, b, st) =~= chunks_bytes(
                        chunks@,
                    ));
                    assert(chunks_bytes(chunks@) + split_spec(limit as int, Seq::<u8>::empty(), st)
                        =~= chunks_bytes(chunks@));
                }
                rem = "";
                proof {
                    reveal_strlit("");
                    assert(rem.spec_bytes() =~= Seq::<u8>::empty());
                }
            } else {
                let (raw, rest) = rem.split_at(cut);
                proof {
                    assert(raw.spec_bytes() =~= b.subrange(0, cut as int));
                    assert(rest.spec_bytes() =~= b.subrange(cut as int, b.len() as int));
                }
                let scanned = scan_fences(raw, in_code, lang.as_str());
                let new_in = scanned.0;
                let new_lang = scanned.1;
                let ghost st2 = fence_scan(st, lines_from(raw.spec_bytes(), 0));
                let mut chunk = with_open_tag(in_code, lang.as_str(), raw);
                if new_in {
                    proof {
                        lemma_fence_encoding();
                        lemma_nl_encoding();
                    }
                    let ghost k0 = chunk@;
                    chunk.append("\n");
                    proof {
                        lemma_encode_concat(k0, "\n"@);
                    }
                    let ghost k1 = chunk@;
                    chunk.append("```");
                    proof {
                        lemma_encode_concat(k1, "```"@);
                    }
                }
                proof {
                    assert(bytes_of(chunk@) =~= open_tag(st) + raw.spec_bytes() + close_tag(
                        st2.0,
                    ));
                }
                let ghost cpre = chunks@;
                chunks.push(chunk);
                let ghost rest_b = rest.spec_bytes();
                let rest_bs = rest.as_bytes();
                let stripped: &str = if rest_bs.len() > 0 && rest_bs[0] == 10u8 {
                    proof {
                        encode_utf8_valid_utf8(rest@);
                        lemma_after_nl_boundary(rest_b, 0);
                    }
                    let (_nl_part, after) = rest.split_at(1);
                    after
                } else {
                    rest
                };
                proof {
                    encode_utf8_valid_utf8(stripped@);
                    let rest2 = if rest_b.len() > 0 && rest_b[0] == nl() {
                        rest_b.drop_first()
                    } else {
                        rest_b
                    };
                    assert(stripped.spec_bytes() =~= rest2);
                    // One unfolding of the splitting recursion.
                    assert(split_spec(limit as int, b, st) =~= seq![
                        open_tag(st) + b.subrange(0, cut as int) + close_tag(st2.0),
                    ] + split_spec(limit as int, rest2, st2));
                    assert(chunks@ =~= cpre.push(chunk));
                    assert(chunks_bytes(chunks@) =~= chunks_bytes(cpre).push(bytes_of(chunk@)));
                    assert(chunks_bytes(cpre) + split_spec(limit as int, b, st) =~= chunks_bytes(
                        chunks@,
                    ) + split_spec(limit as int, rest2, st2));
                    assert(bytes_of(new_lang@) == st2.1);
                    assert((new_in, bytes_of(new_lang@)) == st2);
                    assert(rest2.len() < b.len());
                }
                rem = stripped;
                in_code = new_in;
                lang = new_lang;
            }
        }
    }
    proof {
        crate::text::lemma_encode_empty(rem@);
        assert(split_spec(limit as int, rem.spec_bytes(), (in_code, bytes_of(lang@)))
            =~= Seq::<Seq<u8>>::empty());
        assert(chunks_bytes(chunks@) + Seq::<Seq<u8>>::empty() =~= chunks_bytes(chunks@));
    }
    chunks
}

} // verus!
