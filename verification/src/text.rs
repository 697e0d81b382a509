//! Byte-level text utilities shared by every surface: UTF-8 boundary search
//! and length-limited truncation that never cuts a character in half.

use vstd::prelude::*;
use vstd::string::StrSliceExecFns;
use vstd::string::StringSliceAdditionalSpecFns;
use vstd::utf8::*;

verus! {

broadcast use {vstd::slice::axiom_spec_len, vstd::seq::group_seq_axioms};

/// The UTF-8 bytes of a character sequence (the on-the-wire form of a `&str`).
pub open spec fn bytes_of(s: Seq<char>) -> Seq<u8> {
    encode_utf8(s)
}

/// Newline byte; multi-byte characters never contain it, so byte-level
/// newline search agrees with character-level search.
pub open spec fn nl() -> u8 {
    10u8
}

/// True when `b[i]` exists and is a newline.
pub open spec fn is_nl_at(b: Seq<u8>, i: int) -> bool {
    0 <= i < b.len() && b[i] == nl()
}

/// The largest newline position strictly below `end`, or -1 when none exists.
pub open spec fn last_nl_before(b: Seq<u8>, end: int) -> int
    decreases end,
{
    if end <= 0 {
        -1
    } else if is_nl_at(b, end - 1) {
        end - 1
    } else {
        last_nl_before(b, end - 1)
    }
}

pub proof fn lemma_last_nl_before(b: Seq<u8>, end: int)
    requires
        0 <= end <= b.len(),
    ensures
        last_nl_before(b, end) == -1 ==> forall|j: int| 0 <= j < end ==> b[j] != nl(),
        last_nl_before(b, end) >= 0 ==> {
            &&& last_nl_before(b, end) < end
            &&& b[last_nl_before(b, end)] == nl()
            &&& forall|j: int| last_nl_before(b, end) < j < end ==> b[j] != nl()
        },
    decreases end,
{
    if end > 0 && !is_nl_at(b, end - 1) {
        lemma_last_nl_before(b, end - 1);
    }
}

/// `last_nl_before` is pinned down by exhibiting a newline with none after it.
pub proof fn lemma_last_nl_exact(b: Seq<u8>, end: int, q: int)
    requires
        0 <= q < end <= b.len(),
        b[q] == nl(),
        forall|j: int| q < j < end ==> b[j] != nl(),
    ensures
        last_nl_before(b, end) == q,
    decreases end,
{
    if end - 1 == q {
    } else {
        lemma_last_nl_exact(b, end - 1, q);
    }
}

/// When no newline stands below `end`, `last_nl_before` reports none.
pub proof fn lemma_last_nl_none(b: Seq<u8>, end: int)
    requires
        0 <= end <= b.len(),
        forall|j: int| 0 <= j < end ==> b[j] != nl(),
    ensures
        last_nl_before(b, end) == -1,
    decreases end,
{
    if end > 0 {
        lemma_last_nl_none(b, end - 1);
    }
}

/// The largest character boundary at or below `i` (boundary 0 always exists).
pub open spec fn floor_boundary(b: Seq<u8>, i: int) -> int
    recommends
        valid_utf8(b),
        0 <= i <= b.len(),
    decreases i,
{
    if i <= 0 {
        0
    } else if is_char_boundary(b, i) {
        i
    } else {
        floor_boundary(b, i - 1)
    }
}

pub proof fn lemma_floor_boundary(b: Seq<u8>, i: int)
    requires
        valid_utf8(b),
        0 <= i <= b.len(),
    ensures
        0 <= floor_boundary(b, i) <= i,
        is_char_boundary(b, floor_boundary(b, i)),
        forall|j: int| floor_boundary(b, i) < j <= i ==> !is_char_boundary(b, j),
    decreases i,
{
    if i > 0 && !is_char_boundary(b, i) {
        lemma_floor_boundary(b, i - 1);
    }
}

/// A newline byte inside a valid UTF-8 sequence always sits on a character
/// boundary, because continuation bytes are at least 0x80.
pub proof fn lemma_nl_is_boundary(b: Seq<u8>, i: int)
    requires
        valid_utf8(b),
        0 <= i < b.len(),
        b[i] == nl(),
    ensures
        is_char_boundary(b, i),
{
    is_char_boundary_iff_not_is_continuation_byte(b, i);
}

/// Largest byte index at or below `index` that is a valid UTF-8 character
/// boundary of `s`; `index` past the end yields the byte length.
pub fn floor_char_boundary(s: &str, index: usize) -> (r: usize)
    ensures
        index >= s.spec_bytes().len() ==> r == s.spec_bytes().len(),
        index < s.spec_bytes().len() ==> r == floor_boundary(s.spec_bytes(), index as int),
        is_char_boundary(s.spec_bytes(), r as int),
        r <= s.spec_bytes().len(),
{
    proof {
        encode_utf8_valid_utf8(s@);
        is_char_boundary_start_end_of_seq(s.spec_bytes());
    }
    let n: usize = s.as_bytes().len();
    if index >= n {
        n
    } else {
        let ghost b = s.spec_bytes();
        let mut i: usize = index;
        proof {
            lemma_floor_boundary(b, index as int);
        }
        while !s.is_char_boundary(i)
            invariant
                i <= index < b.len(),
                valid_utf8(b),
                s.spec_bytes() == b,
                floor_boundary(b, index as int) == floor_boundary(b, i as int),
            decreases i,
        {
            proof {
                is_char_boundary_start_end_of_seq(b);
                assert(i != 0);
                assert(floor_boundary(b, i as int) == floor_boundary(b, i as int - 1));
            }
            i = i - 1;
        }
        proof {
            assert(floor_boundary(b, i as int) == i as int);
        }
        i
    }
}

/// Where truncation of `b` to `max_len` bytes cuts: the whole text when it
/// fits; otherwise the last newline inside the safe window, or the window
/// boundary itself when the window holds no newline.
pub open spec fn truncate_cut(b: Seq<u8>, max_len: int) -> int
    recommends
        valid_utf8(b),
{
    if b.len() <= max_len {
        b.len() as int
    } else {
        let safe = floor_boundary(b, max_len);
        let p = last_nl_before(b, safe);
        if p >= 0 {
            p
        } else {
            safe
        }
    }
}

pub proof fn lemma_truncate_cut(b: Seq<u8>, max_len: int)
    requires
        valid_utf8(b),
        0 <= max_len,
    ensures
        0 <= truncate_cut(b, max_len) <= b.len(),
        truncate_cut(b, max_len) <= max_len || b.len() <= max_len,
        is_char_boundary(b, truncate_cut(b, max_len)),
{
    is_char_boundary_start_end_of_seq(b);
    if b.len() > max_len {
        lemma_floor_boundary(b, max_len);
        let safe = floor_boundary(b, max_len);
        lemma_last_nl_before(b, safe);
        let p = last_nl_before(b, safe);
        if p >= 0 {
            lemma_nl_is_boundary(b, p);
        }
    }
}

/// Truncate `s` to at most `max_len` bytes, cutting only at a UTF-8 character
/// boundary, and further backing up to the last newline inside the window so a
/// line is never cut in the middle.  A text that already fits is returned
/// whole.
pub fn truncate_str(s: &str, max_len: usize) -> (r: String)
    ensures
        bytes_of(r@) == s.spec_bytes().subrange(0, truncate_cut(s.spec_bytes(), max_len as int)),
        s.spec_bytes().len() <= max_len ==> r@ == s@,
        bytes_of(r@).len() <= max_len || s.spec_bytes().len() <= max_len,
        is_char_boundary(s.spec_bytes(), bytes_of(r@).len() as int),
{
    let ghost b = s.spec_bytes();
    let n: usize = s.as_bytes().len();
    proof {
        encode_utf8_valid_utf8(s@);
        lemma_truncate_cut(b, max_len as int);
    }
    if n <= max_len {
        proof {
            assert(truncate_cut(b, max_len as int) == b.len() as int);
            assert(b.subrange(0, b.len() as int) =~= b);
            is_char_boundary_start_end_of_seq(b);
        }
        return s.to_owned();
    }
    let safe_end = floor_char_boundary(s, max_len);
    // Walk back to the last newline in the window, if any.
    let ghost p = last_nl_before(b, safe_end as int);
    let mut cut: usize = safe_end;
    let mut j: usize = safe_end;
    let mut found: bool = false;
    while j > 0 && !found
        invariant
            j <= safe_end <= b.len(),
            s.spec_bytes() == b,
            p == last_nl_before(b, safe_end as int),
            !found ==> forall|k: int| j <= k < safe_end ==> b[k] != nl(),
            !found ==> cut == safe_end,
            found ==> 0 <= p < safe_end && cut == p,
        decreases j,
    {
        j = j - 1;
        let c = s.as_bytes()[j];
        if c == 10u8 {
            found = true;
            cut = j;
            proof {
                assert(b[j as int] == nl());
                lemma_last_nl_exact(b, safe_end as int, j as int);
            }
        }
    }
    proof {
        if !found {
            assert(forall|k: int| 0 <= k < safe_end ==> b[k] != nl());
            lemma_last_nl_none(b, safe_end as int);
        }
        assert(cut as int == truncate_cut(b, max_len as int));
        lemma_truncate_cut(b, max_len as int);
    }
    let (head, _tail) = s.split_at(cut);
    proof {
        assert(bytes_of(head@) == head.spec_bytes());
    }
    head.to_owned()
}

/// Encoding a concatenation is the concatenation of the encodings.
pub proof fn lemma_encode_concat(a: Seq<char>, b: Seq<char>)
    ensures
        encode_utf8(a + b) == encode_utf8(a) + encode_utf8(b),
    decreases a.len(),
{
    if a.len() == 0 {
        assert(a + b =~= b);
        assert(encode_utf8(a) + encode_utf8(b) =~= encode_utf8(b));
    } else {
        assert((a + b).drop_first() =~= a.drop_first() + b);
        lemma_encode_concat(a.drop_first(), b);
        assert(encode_scalar((a + b)[0] as u32) + (encode_utf8(a.drop_first()) + encode_utf8(b))
            =~= (encode_scalar(a[0] as u32) + encode_utf8(a.drop_first())) + encode_utf8(b));
    }
}

/// A character sequence is empty exactly when its encoding is empty.
pub proof fn lemma_encode_empty(a: Seq<char>)
    ensures
        encode_utf8(a).len() == 0 <==> a.len() == 0,
{
    if a.len() > 0 {
        char_is_scalar(a[0]);
    }
}

/// First newline position in `b` at or after `i`; the length of `b` when the
/// rest of the text holds none.
pub open spec fn first_nl_from(b: Seq<u8>, i: int) -> int
    decreases b.len() - i,
{
    if i < 0 || i >= b.len() {
        b.len() as int
    } else if b[i] == nl() {
        i
    } else {
        first_nl_from(b, i + 1)
    }
}

pub proof fn lemma_first_nl_from(b: Seq<u8>, i: int)
    requires
        0 <= i <= b.len(),
    ensures
        i <= first_nl_from(b, i) <= b.len(),
        first_nl_from(b, i) < b.len() ==> b[first_nl_from(b, i)] == nl(),
        forall|k: int| i <= k < first_nl_from(b, i) ==> b[k] != nl(),
    decreases b.len() - i,
{
    if i < b.len() && b[i] != nl() {
        lemma_first_nl_from(b, i + 1);
    }
}

/// `first_nl_from` is pinned by a newline-free window ending at a newline or
/// at the end of the text.
pub proof fn lemma_first_nl_pin(b: Seq<u8>, i: int, j: int)
    requires
        0 <= i <= j <= b.len(),
        forall|k: int| i <= k < j ==> b[k] != nl(),
        j == b.len() || b[j] == nl(),
    ensures
        first_nl_from(b, i) == j,
    decreases j - i,
{
    if i < j {
        lemma_first_nl_pin(b, i + 1, j);
    }
}

/// The lines of `b` from position `pos` on: maximal newline-free stretches,
/// with a final newline consuming no extra empty line (as `str::lines` does).
pub open spec fn lines_from(b: Seq<u8>, pos: int) -> Seq<Seq<u8>>
    decreases b.len() - pos,
    when pos >= 0
    via lines_from_decreases
{
    if pos >= b.len() {
        seq![]
    } else {
        let j = first_nl_from(b, pos);
        if j >= b.len() {
            seq![b.subrange(pos, b.len() as int)]
        } else {
            seq![b.subrange(pos, j)] + lines_from(b, j + 1)
        }
    }
}

#[via_fn]
proof fn lines_from_decreases(b: Seq<u8>, pos: int) {
    if 0 <= pos < b.len() {
        lemma_first_nl_from(b, pos);
    }
}

/// The bytes of a one-newline string literal.
pub proof fn lemma_nl_encoding()
    ensures
        "\n"@ == seq!['\n'],
        encode_utf8("\n"@) == seq![nl()],
{
    reveal_strlit("\n");
    assert("\n"@ =~= seq!['\n']);
    assert(seq!['\n'].drop_first() =~= Seq::<char>::empty());
    assert('\n' as u32 == 10);
    assert(10u32 & 0x7f == 10u32) by (bit_vector);
    assert(encode_scalar(10u32) =~= seq![10u8]);
    assert(encode_utf8(seq!['\n']) =~= encode_scalar(10u32) + encode_utf8(Seq::<char>::empty()));
    assert(encode_utf8("\n"@) =~= seq![nl()]);
}

/// One step of blank-line normalization: what the accumulated output and the
/// blank-line flag become after one more line.
pub open spec fn norm_step(acc: Seq<u8>, prev_empty: bool, line: Seq<u8>) -> (Seq<u8>, bool) {
    if line.len() == 0 {
        if prev_empty {
            (acc, true)
        } else {
            (acc.push(nl()), true)
        }
    } else {
        if acc.len() == 0 {
            (line, false)
        } else {
            (acc.push(nl()) + line, false)
        }
    }
}

/// Blank-line normalization over a line list, threading the accumulator.
pub open spec fn norm_lines(acc: Seq<u8>, prev_empty: bool, ls: Seq<Seq<u8>>) -> Seq<u8>
    decreases ls.len(),
{
    if ls.len() == 0 {
        acc
    } else {
        let s = norm_step(acc, prev_empty, ls[0]);
        norm_lines(s.0, s.1, ls.drop_first())
    }
}

/// Collapse every run of blank lines in `b` to at most one blank line.
pub open spec fn normalize_spec(b: Seq<u8>) -> Seq<u8> {
    norm_lines(seq![], false, lines_from(b, 0))
}

/// A character boundary of a valid suffix, offset by the boundary the suffix
/// was cut at, is a character boundary of the whole sequence.
pub proof fn lemma_boundary_compose(b: Seq<u8>, i: int, d: int)
    requires
        valid_utf8(b),
        0 <= i,
        0 <= d,
        is_char_boundary(b, i),
        is_char_boundary(b.subrange(i, b.len() as int), d),
    ensures
        is_char_boundary(b, i + d),
    decreases i,
{
    if i == 0 {
        assert(b.subrange(0, b.len() as int) =~= b);
    } else {
        reveal_with_fuel(is_char_boundary, 2);
        let k = length_of_first_scalar(b);
        assert(k <= i);
        let rest = pop_first_scalar(b);
        assert(rest.subrange(i - k, rest.len() as int) =~= b.subrange(i, b.len() as int));
        lemma_boundary_compose(rest, i - k, d);
    }
}

/// The position one past an ASCII byte that sits on a character boundary is
/// itself a character boundary.
pub proof fn lemma_after_ascii_boundary(b: Seq<u8>, j: int)
    requires
        valid_utf8(b),
        0 <= j < b.len(),
        is_leading_byte_width_1(b[j]),
        is_char_boundary(b, j),
    ensures
        is_char_boundary(b, j + 1),
{
    valid_utf8_split(b, j);
    let suffix = b.subrange(j, b.len() as int);
    assert(suffix[0] == b[j]);
    reveal_with_fuel(is_char_boundary, 2);
    assert(is_char_boundary(suffix, 1));
    lemma_boundary_compose(b, j, 1);
}

/// The end of an all-ASCII prefix of a valid UTF-8 sequence is a character
/// boundary.
pub proof fn lemma_ascii_prefix_boundary(b: Seq<u8>, n: int)
    requires
        valid_utf8(b),
        0 <= n <= b.len(),
        forall|k: int| 0 <= k < n ==> b[k] < 128,
    ensures
        is_char_boundary(b, n),
    decreases n,
{
    if n == 0 {
        is_char_boundary_start_end_of_seq(b);
    } else {
        lemma_ascii_prefix_boundary(b, n - 1);
        lemma_after_ascii_boundary(b, n - 1);
    }
}

/// The position one past a newline byte is a character boundary.
pub proof fn lemma_after_nl_boundary(b: Seq<u8>, j: int)
    requires
        valid_utf8(b),
        0 <= j < b.len(),
        b[j] == nl(),
    ensures
        is_char_boundary(b, j + 1),
{
    lemma_nl_is_boundary(b, j);
    lemma_after_ascii_boundary(b, j);
}

/// Collapse runs of blank lines in `s` to at most one blank line; non-blank
/// lines are kept verbatim in order, joined by single newlines.
pub fn normalize_empty_lines(s: &str) -> (r: String)
    ensures
        bytes_of(r@) == normalize_spec(s.spec_bytes()),
{
    let ghost b = s.spec_bytes();
    proof {
        encode_utf8_valid_utf8(s@);
        is_char_boundary_start_end_of_seq(b);
        reveal_strlit("\n");
    }
    let bs = s.as_bytes();
    let n: usize = bs.len();
    let mut res = String::new();
    let mut res_empty: bool = true;
    let mut prev_empty: bool = false;
    let mut pos: usize = 0;
    while pos < n
        invariant
            0 <= pos <= n,
            n == b.len(),
            s.spec_bytes() == b,
            bs@ == b,
            valid_utf8(b),
            is_char_boundary(b, pos as int),
            res_empty <==> bytes_of(res@).len() == 0,
            normalize_spec(b) == norm_lines(bytes_of(res@), prev_empty, lines_from(b, pos as int)),
        decreases n - pos,
    {
        // Scan to the end of the current line.
        let mut j: usize = pos;
        while j < n && bs[j] != 10u8
            invariant
                pos <= j <= n,
                bs@ == b,
                n == b.len(),
                forall|k: int| pos <= k < j ==> b[k] != nl(),
            decreases n - j,
        {
            j = j + 1;
        }
        proof {
            lemma_first_nl_pin(b, pos as int, j as int);
            assert(lines_from(b, pos as int)[0] == b.subrange(pos as int, j as int));
            if (j as int) < b.len() {
                lemma_nl_is_boundary(b, j as int);
            }
            assert(lines_from(b, pos as int).drop_first() =~= if (j as int) < b.len() {
                lines_from(b, (j + 1) as int)
            } else {
                seq![]
            });
        }
        let ghost line = b.subrange(pos as int, j as int);
        let ghost acc0 = bytes_of(res@);
        let ghost prev0 = prev_empty;
        if j == pos {
            // Blank line.
            if !prev_empty {
                let ghost r0 = res@;
                res.append("\n");
                proof {
                    lemma_encode_concat(r0, "\n"@);
                    lemma_nl_encoding();
                    assert(bytes_of(res@) =~= acc0.push(nl()));
                }
                res_empty = false;
            }
            prev_empty = true;
        } else {
            // Non-blank line: append a separating newline unless first.
            if !res_empty {
                let ghost r0 = res@;
                res.append("\n");
                proof {
                    lemma_encode_concat(r0, "\n"@);
                    lemma_nl_encoding();
                    assert(bytes_of(res@) =~= acc0.push(nl()));
                }
            }
            let (_head, tail) = s.split_at(pos);
            proof {
                valid_utf8_split(b, pos as int);
                let suffix = b.subrange(pos as int, b.len() as int);
                assert(tail.spec_bytes() =~= suffix);
                if (j as int) < b.len() {
                    assert(suffix[j as int - pos as int] == nl());
                    is_char_boundary_iff_not_is_continuation_byte(suffix, j as int - pos as int);
                } else {
                    is_char_boundary_start_end_of_seq(suffix);
                }
            }
            let (line_str, _rest) = tail.split_at(j - pos);
            proof {
                assert(line_str.spec_bytes() =~= line);
            }
            let ghost r1 = res@;
            res.append(line_str);
            proof {
                lemma_encode_concat(r1, line_str@);
                lemma_encode_empty(res@);
                if acc0.len() == 0 {
                    assert(bytes_of(r1) =~= acc0);
                    assert(bytes_of(res@) =~= line);
                } else {
                    assert(bytes_of(r1) =~= acc0.push(nl()));
                    assert(bytes_of(res@) =~= acc0.push(nl()) + line);
                }
            }
            res_empty = false;
            prev_empty = false;
        }
        proof {
            lemma_encode_empty(res@);
            let ghost ls = lines_from(b, pos as int);
            assert(norm_lines(acc0, prev0, ls) == norm_lines(
                bytes_of(res@),
                prev_empty,
                ls.drop_first(),
            ));
            if (j as int) < b.len() {
                lemma_after_nl_boundary(b, j as int);
            } else {
                is_char_boundary_start_end_of_seq(b);
            }
        }
        pos = if j < n {
            j + 1
        } else {
            n
        };
    }
    proof {
        assert(lines_from(b, pos as int) =~= Seq::<Seq<u8>>::empty());
    }
    res
}

/// Newline-free byte sequence.
pub open spec fn no_nl(s: Seq<u8>) -> bool {
    forall|i: int| 0 <= i < s.len() ==> s[i] != nl()
}

/// Lines joined by single newlines.
pub open spec fn join_nl(ls: Seq<Seq<u8>>) -> Seq<u8>
    decreases ls.len(),
{
    if ls.len() == 0 {
        seq![]
    } else if ls.len() == 1 {
        ls[0]
    } else {
        ls[0] + seq![nl()] + join_nl(ls.drop_first())
    }
}

/// Continuation rendering: each line preceded by a newline.
pub open spec fn cont_nl(ls: Seq<Seq<u8>>) -> Seq<u8>
    decreases ls.len(),
{
    if ls.len() == 0 {
        seq![]
    } else {
        seq![nl()] + ls[0] + cont_nl(ls.drop_first())
    }
}

proof fn lemma_join_cons(x: Seq<u8>, items: Seq<Seq<u8>>)
    ensures
        join_nl(seq![x] + items) == x + cont_nl(items),
    decreases items.len(),
{
    let whole = seq![x] + items;
    if items.len() == 0 {
        assert(whole =~= seq![x]);
        assert(join_nl(whole) == x);
        assert(x + cont_nl(items) =~= x);
    } else {
        assert(whole.len() >= 2);
        assert(whole[0] == x);
        assert(whole.drop_first() =~= items);
        lemma_join_cons(items[0], items.drop_first());
        assert(seq![items[0]] + items.drop_first() =~= items);
        assert(join_nl(whole) == x + seq![nl()] + join_nl(items));
        assert(join_nl(items) == items[0] + cont_nl(items.drop_first()));
        assert(x + seq![nl()] + (items[0] + cont_nl(items.drop_first())) =~= x + (seq![nl()]
            + items[0] + cont_nl(items.drop_first())));
        assert(cont_nl(items) == seq![nl()] + items[0] + cont_nl(items.drop_first()));
        assert(x + seq![nl()] + join_nl(items) =~= x + cont_nl(items));
    }
}

/// The line list after blank-run collapsing: runs of blank lines shrink to a
/// single blank line, tracked by the came-from-blank flag.
pub open spec fn plist(prev: bool, ls: Seq<Seq<u8>>) -> Seq<Seq<u8>>
    decreases ls.len(),
{
    if ls.len() == 0 {
        seq![]
    } else if ls[0].len() == 0 {
        if prev {
            plist(true, ls.drop_first())
        } else {
            seq![Seq::<u8>::empty()] + plist(true, ls.drop_first())
        }
    } else {
        seq![ls[0]] + plist(false, ls.drop_first())
    }
}

/// A leading blank line renders as two: the collapsed output opens with a
/// blank line pair when the text began blank.
pub open spec fn expand_lead(items: Seq<Seq<u8>>) -> Seq<Seq<u8>> {
    if items.len() > 0 && items[0].len() == 0 {
        seq![Seq::<u8>::empty()] + items
    } else {
        items
    }
}

/// `norm_lines` over a non-empty accumulator appends the collapsed lines,
/// each preceded by a newline.
proof fn lemma_norm_lines_cont(acc: Seq<u8>, prev: bool, ls: Seq<Seq<u8>>)
    requires
        acc.len() > 0,
    ensures
        norm_lines(acc, prev, ls) == acc + cont_nl(plist(prev, ls)),
    decreases ls.len(),
{
    if ls.len() == 0 {
        assert(acc + cont_nl(plist(prev, ls)) =~= acc);
    } else if ls[0].len() == 0 {
        if prev {
            lemma_norm_lines_cont(acc, true, ls.drop_first());
        } else {
            lemma_norm_lines_cont(acc.push(nl()), true, ls.drop_first());
            let p2 = plist(true, ls.drop_first());
            assert(plist(prev, ls) =~= seq![Seq::<u8>::empty()] + p2);
            assert((seq![Seq::<u8>::empty()] + p2).drop_first() =~= p2);
            assert(cont_nl(plist(prev, ls)) == seq![nl()] + Seq::<u8>::empty() + cont_nl(p2));
            assert(acc.push(nl()) + cont_nl(p2) =~= acc + cont_nl(plist(prev, ls)));
        }
    } else {
        lemma_norm_lines_cont(acc.push(nl()) + ls[0], false, ls.drop_first());
        let p2 = plist(false, ls.drop_first());
        assert(plist(prev, ls) =~= seq![ls[0]] + p2);
        assert((seq![ls[0]] + p2).drop_first() =~= p2);
        assert(cont_nl(plist(prev, ls)) == seq![nl()] + ls[0] + cont_nl(p2));
        assert((acc.push(nl()) + ls[0]) + cont_nl(p2) =~= acc + cont_nl(plist(prev, ls)));
    }
}

/// `norm_lines` from the empty accumulator renders the collapsed line list,
/// with a doubled leading blank when the text began blank.
proof fn lemma_norm_lines_join(ls: Seq<Seq<u8>>)
    ensures
        norm_lines(seq![], false, ls) == join_nl(expand_lead(plist(false, ls))),
    decreases ls.len(),
{
    if ls.len() == 0 {
        assert(join_nl(expand_lead(plist(false, ls))) =~= Seq::<u8>::empty());
    } else if ls[0].len() == 0 {
        let acc1: Seq<u8> = seq![].push(nl());
        assert(acc1 =~= seq![nl()]);
        lemma_norm_lines_cont(acc1, true, ls.drop_first());
        let p2 = plist(true, ls.drop_first());
        assert(plist(false, ls) =~= seq![Seq::<u8>::empty()] + p2);
        let e = expand_lead(plist(false, ls));
        assert(e =~= seq![Seq::<u8>::empty(), Seq::<u8>::empty()] + p2);
        assert(e =~= seq![Seq::<u8>::empty()] + (seq![Seq::<u8>::empty()] + p2));
        lemma_join_cons(Seq::<u8>::empty(), seq![Seq::<u8>::empty()] + p2);
        assert((seq![Seq::<u8>::empty()] + p2)[0].len() == 0);
        assert((seq![Seq::<u8>::empty()] + p2).drop_first() =~= p2);
        assert(cont_nl(seq![Seq::<u8>::empty()] + p2) == seq![nl()] + Seq::<u8>::empty() + cont_nl(
            p2,
        ));
        assert(join_nl(e) =~= seq![nl()] + cont_nl(p2));
        assert(norm_lines(seq![], false, ls) == norm_lines(acc1, true, ls.drop_first()));
        assert(acc1 + cont_nl(p2) =~= seq![nl()] + cont_nl(p2));
    } else {
        lemma_norm_lines_cont(ls[0], false, ls.drop_first());
        let p2 = plist(false, ls.drop_first());
        assert(plist(false, ls) =~= seq![ls[0]] + p2);
        let e = expand_lead(plist(false, ls));
        assert(e =~= seq![ls[0]] + p2);
        lemma_join_cons(ls[0], p2);
        assert(norm_lines(seq![], false, ls) == norm_lines(ls[0], false, ls.drop_first()));
    }
}

/// Collapsed line lists hold no two blank lines in a row.
proof fn lemma_plist_no_consec(prev: bool, ls: Seq<Seq<u8>>)
    ensures
        forall|i: int|
            0 <= i && i + 1 < plist(prev, ls).len() ==> #[trigger] plist(prev, ls)[i].len() > 0 || plist(
                prev,
                ls,
            )[i + 1].len() > 0,
    decreases ls.len(),
{
    if ls.len() == 0 {
    } else if ls[0].len() == 0 {
        if prev {
            lemma_plist_no_consec(true, ls.drop_first());
        } else {
            lemma_plist_no_consec(true, ls.drop_first());
            lemma_plist_head_nonblank(ls.drop_first());
            let p2 = plist(true, ls.drop_first());
            let q = seq![Seq::<u8>::empty()] + p2;
            assert(plist(prev, ls) =~= q);
            assert forall|i: int|
                0 <= i && i + 1 < q.len() implies #[trigger] q[i].len() > 0 || q[i + 1].len() > 0 by {
                if i == 0 {
                    assert(q[1] == p2[0]);
                } else {
                    assert(q[i] == p2[i - 1]);
                    assert(q[i + 1] == p2[i]);
                    assert(p2[i - 1].len() > 0 || p2[i].len() > 0);
                }
            }
            assert forall|i: int|
                0 <= i && i + 1 < plist(prev, ls).len() implies #[trigger] plist(prev, ls)[i].len() > 0
                || plist(prev, ls)[i + 1].len() > 0 by {
                assert(plist(prev, ls)[i] == q[i]);
                assert(plist(prev, ls)[i + 1] == q[i + 1]);
            }
        }
    } else {
        lemma_plist_no_consec(false, ls.drop_first());
        let p2 = plist(false, ls.drop_first());
        let q = seq![ls[0]] + p2;
        assert(plist(prev, ls) =~= q);
        assert forall|i: int|
            0 <= i && i + 1 < q.len() implies #[trigger] q[i].len() > 0 || q[i + 1].len() > 0 by {
            if i > 0 {
                assert(q[i] == p2[i - 1]);
                assert(q[i + 1] == p2[i]);
                assert(p2[i - 1].len() > 0 || p2[i].len() > 0);
            }
        }
        assert forall|i: int|
            0 <= i && i + 1 < plist(prev, ls).len() implies #[trigger] plist(prev, ls)[i].len() > 0
            || plist(prev, ls)[i + 1].len() > 0 by {
            assert(plist(prev, ls)[i] == q[i]);
            assert(plist(prev, ls)[i + 1] == q[i + 1]);
        }
    }
}

/// After a blank was just consumed, the collapsed list starts non-blank.
proof fn lemma_plist_head_nonblank(ls: Seq<Seq<u8>>)
    ensures
        plist(true, ls).len() > 0 ==> plist(true, ls)[0].len() > 0,
    decreases ls.len(),
{
    if ls.len() > 0 && ls[0].len() == 0 {
        lemma_plist_head_nonblank(ls.drop_first());
    }
}

/// A list with no consecutive blanks passes through collapsing unchanged.
proof fn lemma_plist_id(prev: bool, ls: Seq<Seq<u8>>)
    requires
        forall|i: int| 0 <= i && i + 1 < ls.len() ==> #[trigger] ls[i].len() > 0 || ls[i + 1].len() > 0,
        prev ==> (ls.len() == 0 || ls[0].len() > 0),
    ensures
        plist(prev, ls) == ls,
    decreases ls.len(),
{
    if ls.len() == 0 {
        assert(plist(prev, ls) =~= ls);
    } else if ls[0].len() == 0 {
        assert(ls.drop_first().len() == 0 || ls.drop_first()[0].len() > 0) by {
            if ls.len() > 1 {
                assert(ls[0].len() > 0 || ls[1].len() > 0);
            }
        }
        assert(forall|i: int|
            0 <= i && i + 1 < ls.drop_first().len() ==> #[trigger] ls.drop_first()[i].len() > 0
                || ls.drop_first()[i + 1].len() > 0) by {
            assert(forall|i: int|
                0 <= i < ls.drop_first().len() ==> #[trigger] ls.drop_first()[i] == ls[i + 1]);
        }
        lemma_plist_id(true, ls.drop_first());
        assert(ls[0] =~= Seq::<u8>::empty());
        assert(plist(prev, ls) =~= ls);
    } else {
        assert(forall|i: int|
            0 <= i && i + 1 < ls.drop_first().len() ==> #[trigger] ls.drop_first()[i].len() > 0
                || ls.drop_first()[i + 1].len() > 0) by {
            assert(forall|i: int|
                0 <= i < ls.drop_first().len() ==> #[trigger] ls.drop_first()[i] == ls[i + 1]);
        }
        lemma_plist_id(false, ls.drop_first());
        assert(plist(prev, ls) =~= ls);
    }
}

/// Collapsing keeps lines newline-free and keeps the final line non-blank.
proof fn lemma_plist_shape(prev: bool, ls: Seq<Seq<u8>>)
    requires
        forall|k: int| 0 <= k < ls.len() ==> no_nl(#[trigger] ls[k]),
    ensures
        forall|k: int| 0 <= k < plist(prev, ls).len() ==> no_nl(#[trigger] plist(prev, ls)[k]),
        ls.len() > 0 && ls.last().len() > 0 ==> plist(prev, ls).len() > 0 && plist(
            prev,
            ls,
        ).last().len() > 0,
    decreases ls.len(),
{
    if ls.len() == 0 {
    } else {
        assert(forall|k: int| 0 <= k < ls.drop_first().len() ==> ls.drop_first()[k] == ls[k + 1]);
        if ls[0].len() == 0 {
            lemma_plist_shape(true, ls.drop_first());
            if !prev {
                let p2 = plist(true, ls.drop_first());
                assert(forall|k: int|
                    1 <= k < plist(prev, ls).len() ==> plist(prev, ls)[k] == p2[k - 1]);
                assert(no_nl(plist(prev, ls)[0]));
                if ls.last().len() > 0 {
                    assert(ls.drop_first().last() == ls.last());
                    assert(plist(prev, ls).last() == p2.last());
                }
            } else {
                if ls.last().len() > 0 {
                    assert(ls.drop_first().last() == ls.last());
                }
            }
        } else {
            lemma_plist_shape(false, ls.drop_first());
            let p2 = plist(false, ls.drop_first());
            assert(forall|k: int|
                1 <= k < plist(prev, ls).len() ==> plist(prev, ls)[k] == p2[k - 1]);
            if ls.len() > 1 && ls.last().len() > 0 {
                assert(ls.drop_first().last() == ls.last());
                assert(plist(prev, ls).last() == p2.last());
            }
        }
    }
}

/// Lines read back from a position are those of the suffix.
proof fn lemma_lines_from_offset(b: Seq<u8>, pos: int)
    requires
        0 <= pos <= b.len(),
    ensures
        lines_from(b, pos) == lines_from(b.subrange(pos, b.len() as int), 0),
    decreases b.len() - pos,
{
    let sub = b.subrange(pos, b.len() as int);
    if pos >= b.len() {
        assert(lines_from(sub, 0) =~= Seq::<Seq<u8>>::empty());
    } else {
        let j = first_nl_from(b, pos);
        lemma_first_nl_from(b, pos);
        assert(first_nl_from(sub, 0) == j - pos) by {
            if j < b.len() {
                assert(sub[j - pos] == nl());
                lemma_first_nl_pin(sub, 0, j - pos);
            } else {
                lemma_first_nl_pin(sub, 0, sub.len() as int);
            }
        }
        if j >= b.len() {
            assert(lines_from(b, pos) =~= seq![b.subrange(pos, b.len() as int)]);
            assert(lines_from(sub, 0) =~= seq![sub.subrange(0, sub.len() as int)]);
            assert(sub.subrange(0, sub.len() as int) =~= sub);
        } else {
            lemma_lines_from_offset(b, j + 1);
            let sub2 = b.subrange(j + 1, b.len() as int);
            assert(lines_from(b, pos) =~= seq![b.subrange(pos, j)] + lines_from(b, j + 1));
            assert(lines_from(sub, 0) =~= seq![sub.subrange(0, j - pos)] + lines_from(
                sub,
                j - pos + 1,
            ));
            assert(sub.subrange(0, j - pos) =~= b.subrange(pos, j));
            assert(sub.subrange(j - pos + 1, sub.len() as int) =~= sub2);
            lemma_lines_from_offset(sub, j - pos + 1);
            assert(lines_from(sub, j - pos + 1) == lines_from(sub2, 0));
        }
    }
}

/// Joining newline-free lines and reading lines back returns the same list,
/// provided the final line is non-blank.
proof fn lemma_lines_of_join(ls: Seq<Seq<u8>>)
    requires
        forall|k: int| 0 <= k < ls.len() ==> no_nl(#[trigger] ls[k]),
        ls.len() > 0,
        ls.last().len() > 0,
    ensures
        lines_from(join_nl(ls), 0) == ls,
    decreases ls.len(),
{
    let j = join_nl(ls);
    if ls.len() == 1 {
        assert(j == ls[0]);
        assert(j.len() > 0);
        lemma_first_nl_pin(j, 0, j.len() as int);
        assert(lines_from(j, 0) =~= seq![j.subrange(0, j.len() as int)]);
        assert(j.subrange(0, j.len() as int) =~= j);
        assert(lines_from(j, 0) =~= ls);
    } else {
        let head = ls[0];
        let rest = ls.drop_first();
        assert(j == head + seq![nl()] + join_nl(rest));
        let hl = head.len() as int;
        assert(forall|q: int| 0 <= q < hl ==> j[q] == head[q]);
        assert(j[hl] == nl());
        lemma_first_nl_pin(j, 0, hl);
        assert(first_nl_from(j, 0) == hl);
        assert(hl < j.len());
        assert(lines_from(j, 0) =~= seq![j.subrange(0, hl)] + lines_from(j, hl + 1));
        assert(j.subrange(0, hl) =~= head);
        lemma_lines_from_offset(j, hl + 1);
        assert(j.subrange(hl + 1, j.len() as int) =~= join_nl(rest));
        assert(forall|k: int| 0 <= k < rest.len() ==> rest[k] == ls[k + 1]);
        assert(rest.last() == ls.last());
        lemma_lines_of_join(rest);
        assert(lines_from(j, 0) =~= seq![head] + rest);
        assert(seq![head] + rest =~= ls);
    }
}

/// The last line of a text that does not end in a newline is non-blank, and
/// every line is newline-free.
proof fn lemma_lines_shape(b: Seq<u8>, pos: int)
    requires
        0 <= pos <= b.len(),
    ensures
        forall|k: int| 0 <= k < lines_from(b, pos).len() ==> no_nl(#[trigger] lines_from(b, pos)[k]),
        pos < b.len() && b.last() != nl() ==> lines_from(b, pos).len() > 0 && lines_from(
            b,
            pos,
        ).last().len() > 0,
    decreases b.len() - pos,
{
    if pos >= b.len() {
    } else {
        let j = first_nl_from(b, pos);
        lemma_first_nl_from(b, pos);
        if j >= b.len() {
            assert(lines_from(b, pos) =~= seq![b.subrange(pos, b.len() as int)]);
            assert(no_nl(b.subrange(pos, b.len() as int)));
        } else {
            lemma_lines_shape(b, j + 1);
            let line = b.subrange(pos, j);
            assert(no_nl(line));
            assert(lines_from(b, pos) =~= seq![line] + lines_from(b, j + 1));
            let rest = lines_from(b, j + 1);
            assert(forall|k: int| 1 <= k < lines_from(b, pos).len() ==> lines_from(b, pos)[k] == rest[k - 1]);
            if b.last() != nl() {
                assert(j + 1 < b.len()) by {
                    if j + 1 == b.len() {
                        assert(b.last() == b[j as int]);
                    }
                }
                assert(lines_from(b, pos).last() == rest.last());
            }
        }
    }
}

/// Collapsing blank runs is idempotent: normalizing an already-normalized
/// text changes nothing.  Texts ending in a newline are the one exception
/// (their trailing blank run keeps shrinking) and are excluded.
pub proof fn lemma_normalize_idempotent(b: Seq<u8>)
    requires
        b.len() == 0 || b.last() != nl(),
    ensures
        normalize_spec(normalize_spec(b)) == normalize_spec(b),
{
    if b.len() == 0 {
        assert(lines_from(b, 0) =~= Seq::<Seq<u8>>::empty());
        assert(normalize_spec(b) == seq![] + Seq::<u8>::empty());
        assert(normalize_spec(b) =~= Seq::<u8>::empty());
        assert(normalize_spec(normalize_spec(b)) =~= normalize_spec(b));
    } else {
        let ls = lines_from(b, 0);
        lemma_lines_shape(b, 0);
        let p = plist(false, ls);
        lemma_plist_shape(false, ls);
        lemma_plist_no_consec(false, ls);
        let e = expand_lead(p);
        lemma_norm_lines_join(ls);
        assert(normalize_spec(b) == join_nl(e));
        // The rendered output parses back into exactly its line list.
        assert(forall|k: int| 0 <= k < e.len() ==> no_nl(#[trigger] e[k])) by {
            if p.len() > 0 && p[0].len() == 0 {
                assert(forall|k: int| 1 <= k < e.len() ==> e[k] == p[k - 1]);
                assert(e[0].len() == 0);
            }
        }
        assert(e.len() > 0 && e.last().len() > 0) by {
            if p.len() > 0 && p[0].len() == 0 {
                assert(e.last() == p.last());
            }
        }
        lemma_lines_of_join(e);
        assert(lines_from(normalize_spec(b), 0) == e);
        lemma_norm_lines_join(e);
        assert(normalize_spec(normalize_spec(b)) == join_nl(expand_lead(plist(false, e))));
        // Collapsing the rendered lines is the identity, up to the doubled
        // leading blank.
        if p.len() > 0 && p[0].len() == 0 {
            let pd = p.drop_first();
            assert(e =~= seq![Seq::<u8>::empty()] + p);
            assert(e[0].len() == 0);
            assert(e.drop_first() =~= p);
            assert(plist(false, e) =~= seq![Seq::<u8>::empty()] + plist(true, e.drop_first()));
            assert(plist(true, e.drop_first()) == plist(true, p));
            assert(plist(true, p) == plist(true, pd));
            assert(pd.len() == 0 || pd[0].len() > 0) by {
                if pd.len() > 0 {
                    assert(p[0].len() > 0 || p[1].len() > 0);
                    assert(pd[0] == p[1]);
                }
            }
            assert(forall|i: int|
                0 <= i && i + 1 < pd.len() ==> #[trigger] pd[i].len() > 0 || pd[i + 1].len() > 0) by {
                assert(forall|i: int| 0 <= i < pd.len() ==> #[trigger] pd[i] == p[i + 1]);
            }
            lemma_plist_id(true, pd);
            assert(plist(false, e) =~= seq![Seq::<u8>::empty()] + pd);
            assert((seq![Seq::<u8>::empty()] + pd).len() > 0);
            assert(expand_lead(plist(false, e)) =~= seq![Seq::<u8>::empty(), Seq::<u8>::empty()]
                + pd);
            assert(e =~= seq![Seq::<u8>::empty(), Seq::<u8>::empty()] + pd);
        } else {
            assert(e == p);
            lemma_plist_id(false, p);
            assert(plist(false, e) == p);
            assert(expand_lead(plist(false, e)) == e);
        }
    }
}

} // verus!
