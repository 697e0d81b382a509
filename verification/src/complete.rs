//! Dialog state and path completion for the terminal file manager: tilde
//! expansion, splitting an input into base directory and prefix, subsequence
//! matching, common prefixes, and applying a chosen completion.

use crate::util::last_pos;
use crate::util::lower_byte;
use vstd::prelude::*;
use vstd::string::StrSliceExecFns;
use vstd::string::StringExecFns;
use vstd::string::StringSliceAdditionalSpecFns;
use vstd::utf8::encode_utf8;
use vstd::utf8::encode_utf8_valid_utf8;
use vstd::utf8::is_ascii_chars;
use vstd::utf8::is_ascii_chars_encode_utf8;
use vstd::utf8::is_char_boundary;
use vstd::utf8::is_char_boundary_iff_not_is_continuation_byte;
use vstd::utf8::is_char_boundary_start_end_of_seq;
use vstd::utf8::valid_utf8;

verus! {

broadcast use {vstd::slice::axiom_spec_len, vstd::seq::group_seq_axioms};

/// What a modal dialog is for.
#[derive(PartialEq, Eq, Structural, Clone, Copy, Debug)]
pub enum DialogType {
    Delete,
    LargeImageConfirm,
    TrueColorWarning,
    Copy,
    Move,
    Goto,
    Search,
    Mkdir,
    Rename,
    Progress,
    DuplicateConflict,
}

/// Path-completion popup state.
pub struct PathCompletion {
    pub suggestions: Vec<String>,
    pub selected_index: usize,
    pub visible: bool,
}

impl Default for PathCompletion {
    /// An empty, hidden popup with the selection at the top.
    fn default() -> (r: PathCompletion)
        ensures
            r.suggestions@ == Seq::<String>::empty(),
            r.selected_index == 0,
            !r.visible,
    {
        PathCompletion { suggestions: Vec::new(), selected_index: 0, visible: false }
    }
}

/// A modal dialog: its kind, the text being edited with a character-indexed
/// cursor, a message line, the optional completion popup, and the selected
/// button.
pub struct Dialog {
    pub dialog_type: DialogType,
    pub input: String,
    pub cursor_pos: usize,
    pub message: String,
    pub completion: Option<PathCompletion>,
    pub selected_button: usize,
}

/// Tilde expansion: `~` or `~rest` becomes the home directory joined with
/// `rest` (any single leading slash of `rest` absorbed); everything else
/// passes through, as does everything when no home is known.
pub open spec fn expand_spec(b: Seq<u8>, home: Option<Seq<u8>>) -> Seq<u8> {
    if b.len() > 0 && b[0] == 126 && home is Some {
        let h = home.unwrap();
        let rest = if b.len() >= 2 && b[1] == 47 {
            b.subrange(2, b.len() as int)
        } else {
            b.subrange(1, b.len() as int)
        };
        if rest.len() == 0 {
            h
        } else {
            h + seq![47u8] + rest
        }
    } else {
        b
    }
}

/// Expand a leading `~` to the home directory.
pub fn expand_path_string(input: &str, home: Option<&str>) -> (r: String)
    ensures
        encode_utf8(r@) == expand_spec(
            input.spec_bytes(),
            match home {
                Some(h) => Some(h.spec_bytes()),
                None => None,
            },
        ),
{
    let ghost b = input.spec_bytes();
    proof {
        encode_utf8_valid_utf8(input@);
        is_char_boundary_start_end_of_seq(b);
    }
    let bs = input.as_bytes();
    let n: usize = bs.len();
    if n == 0 || bs[0] != 126u8 {
        return input.to_owned();
    }
    let h = match home {
        Some(h) => h,
        None => {
            return input.to_owned();
        },
    };
    let skip: usize = if n >= 2 && bs[1] == 47u8 {
        2
    } else {
        1
    };
    proof {
        assert(is_char_boundary(b, skip as int)) by {
            is_char_boundary_iff_not_is_continuation_byte(b, 0);
            crate::text::lemma_after_ascii_boundary(b, 0);
            if skip == 2 {
                crate::text::lemma_after_ascii_boundary(b, 1);
            }
        }
    }
    let (_tilde, rest) = input.split_at(skip);
    if rest.is_empty() {
        proof {
            crate::text::lemma_encode_empty(rest@);
            assert(rest.spec_bytes() =~= b.subrange(skip as int, b.len() as int));
        }
        return h.to_owned();
    }
    let mut r = h.to_owned();
    let ghost r0 = r@;
    r.append("/");
    proof {
        crate::text::lemma_encode_concat(r0, "/"@);
        reveal_strlit("/");
        assert(is_ascii_chars("/"@));
        is_ascii_chars_encode_utf8("/"@);
        assert(encode_utf8("/"@) =~= seq![47u8]);
    }
    let ghost r1 = r@;
    r.append(rest);
    proof {
        crate::text::lemma_encode_concat(r1, rest@);
        assert(rest.spec_bytes() =~= b.subrange(skip as int, b.len() as int));
        crate::text::lemma_encode_empty(rest@);
        assert(encode_utf8(r@) =~= expand_spec(b, Some(h.spec_bytes())));
    }
    r
}

/// How a (tilde-expanded) input splits into the directory to list and the
/// name prefix to match: a trailing slash lists that directory with no
/// prefix; `/.` (but not `/..`) and a lone `.` keep the dot as prefix;
/// otherwise the text after the last slash is the prefix and what stands
/// before it the base (the root keeping its slash, a slashless input an
/// empty base).
pub open spec fn parse_path_spec(e: Seq<u8>) -> (Seq<u8>, Seq<u8>) {
    if e.len() > 0 && e.last() == 47 {
        (e, Seq::<u8>::empty())
    } else if e.len() >= 2 && e[e.len() - 1] == 46 && e[e.len() - 2] == 47 && !(e.len() >= 3 && e[
        e.len() - 3
    ] == 46) {
        let parent = e.subrange(0, e.len() - 2);
        if parent.len() == 0 {
            (seq![47u8], seq![46u8])
        } else {
            (parent, seq![46u8])
        }
    } else if e == seq![46u8] {
        (seq![46u8], seq![46u8])
    } else {
        let q = last_pos(e, 47, e.len() as int);
        if q >= 0 {
            if q == 0 {
                (seq![47u8], e.subrange(1, e.len() as int))
            } else {
                (e.subrange(0, q), e.subrange(q + 1, e.len() as int))
            }
        } else {
            (Seq::<u8>::empty(), e)
        }
    }
}

/// Split an input path into the directory to list and the name prefix to
/// complete, expanding a leading tilde first.
#[verifier::loop_isolation(false)]
#[verifier::rlimit(30)]
pub fn parse_path_for_completion(input: &str, home: Option<&str>) -> (r: (String, String))
    ensures
        ({
            let e = expand_spec(
                input.spec_bytes(),
                match home {
                    Some(h) => Some(h.spec_bytes()),
                    None => None,
                },
            );
            encode_utf8(r.0@) == parse_path_spec(e).0 && encode_utf8(r.1@) == parse_path_spec(e).1
        }),
{
    let expanded = expand_path_string(input, home);
    let ghost e = encode_utf8(expanded@);
    let exp = expanded.as_str();
    proof {
        assert(exp.spec_bytes() == e);
        encode_utf8_valid_utf8(exp@);
        is_char_boundary_start_end_of_seq(e);
    }
    let bs = exp.as_bytes();
    let n: usize = bs.len();
    if n > 0 && bs[n - 1] == 47u8 {
        let mut dot = String::new();
        proof {
            assert(encode_utf8(dot@) =~= Seq::<u8>::empty());
        }
        return (exp.to_owned(), dot);
    }
    if n >= 2 && bs[n - 1] == 46u8 && bs[n - 2] == 47u8 && !(n >= 3 && bs[n - 3] == 46u8) {
        proof {
            assert(is_char_boundary(e, n as int - 2)) by {
                is_char_boundary_iff_not_is_continuation_byte(e, n as int - 2);
            }
            reveal_strlit("/");
            reveal_strlit(".");
            assert(is_ascii_chars("/"@) && is_ascii_chars("."@));
            is_ascii_chars_encode_utf8("/"@);
            is_ascii_chars_encode_utf8("."@);
            assert(encode_utf8("/"@) =~= seq![47u8]);
            assert(encode_utf8("."@) =~= seq![46u8]);
        }
        let (parent, _d) = exp.split_at(n - 2);
        if parent.is_empty() {
            proof {
                crate::text::lemma_encode_empty(parent@);
                assert(parent.spec_bytes() =~= e.subrange(0, n as int - 2));
            }
            return (String::from_str("/"), String::from_str("."));
        }
        proof {
            crate::text::lemma_encode_empty(parent@);
            assert(parent.spec_bytes() =~= e.subrange(0, n as int - 2));
        }
        return (parent.to_owned(), String::from_str("."));
    }
    if n == 1 && bs[0] == 46u8 {
        proof {
            reveal_strlit(".");
            assert(is_ascii_chars("."@));
            is_ascii_chars_encode_utf8("."@);
            assert(encode_utf8("."@) =~= seq![46u8]);
            assert(e =~= seq![46u8]);
        }
        return (String::from_str("."), String::from_str("."));
    }
    proof {
        if e == seq![46u8] {
            assert(n == 1 && e[0] == 46);
            assert(false);
        }
    }
    // Find the last slash.
    let mut q: usize = n;
    let mut found: bool = false;
    while q > 0 && !found
        invariant
            0 <= q <= n,
            !found ==> forall|k: int| q <= k < n ==> e[k] != 47,
            found ==> 0 <= q < n && e[q as int] == 47 && forall|k: int|
                q < k < n ==> e[k] != 47,
        decreases q,
    {
        let probe = q - 1;
        if bs[probe] == 47u8 {
            found = true;
            q = probe;
        } else {
            q = probe;
        }
    }
    proof {
        if found {
            crate::util::lemma_last_pos_exact(e, 47u8, n as int, q as int);
        } else {
            crate::util::lemma_last_pos_none(e, 47u8, n as int);
        }
    }
    if !found {
        let empty = String::new();
        proof {
            assert(encode_utf8(empty@) =~= Seq::<u8>::empty());
        }
        return (empty, exp.to_owned());
    }
    proof {
        assert(is_char_boundary(e, q as int)) by {
            is_char_boundary_iff_not_is_continuation_byte(e, q as int);
        }
        crate::text::lemma_after_ascii_boundary(e, q as int);
        reveal_strlit("/");
        assert(is_ascii_chars("/"@));
        is_ascii_chars_encode_utf8("/"@);
        assert(encode_utf8("/"@) =~= seq![47u8]);
    }
    if q == 0 {
        let (_s, prefix) = exp.split_at(1);
        proof {
            assert(prefix.spec_bytes() =~= e.subrange(1, n as int));
        }
        return (String::from_str("/"), prefix.to_owned());
    }
    let (parent, _rest) = exp.split_at(q);
    let (_rest2, prefix) = exp.split_at(q + 1);
    proof {
        assert(parent.spec_bytes() =~= e.subrange(0, q as int));
        assert(prefix.spec_bytes() =~= e.subrange(q as int + 1, n as int));
    }
    (parent.to_owned(), prefix.to_owned())
}

/// Greedy subsequence matching from positions `ti`, `pi`: every remaining
/// pattern byte must appear in the remaining text, in order.
pub open spec fn subseq_from(t: Seq<u8>, p: Seq<u8>, ti: int, pi: int) -> bool
    decreases t.len() - ti,
    when 0 <= ti
{
    if pi >= p.len() {
        true
    } else if ti >= t.len() {
        false
    } else if 0 <= pi && t[ti] == p[pi] {
        subseq_from(t, p, ti + 1, pi + 1)
    } else {
        subseq_from(t, p, ti + 1, pi)
    }
}

/// True when the bytes of `pattern` occur in `text` in order, not
/// necessarily contiguously.
pub fn matches_subsequence(text: &str, pattern: &str) -> (r: bool)
    ensures
        r == subseq_from(text.spec_bytes(), pattern.spec_bytes(), 0, 0),
{
    let ghost t = text.spec_bytes();
    let ghost p = pattern.spec_bytes();
    let tb = text.as_bytes();
    let pb = pattern.as_bytes();
    let tn: usize = tb.len();
    let pn: usize = pb.len();
    let mut ti: usize = 0;
    let mut pi: usize = 0;
    while ti < tn && pi < pn
        invariant
            0 <= ti <= tn,
            0 <= pi <= pn,
            tb@ == t,
            pb@ == p,
            tn == t.len(),
            pn == p.len(),
            subseq_from(t, p, 0, 0) == subseq_from(t, p, ti as int, pi as int),
        decreases tn - ti,
    {
        if tb[ti] == pb[pi] {
            pi = pi + 1;
        }
        ti = ti + 1;
    }
    pi >= pn
}

/// The byte length of the case-folded common prefix of `a` and `b`.
pub open spec fn common_len2(a: Seq<u8>, b: Seq<u8>) -> int
    decreases a.len(),
{
    if a.len() == 0 || b.len() == 0 {
        0
    } else if lower_byte(a[0]) == lower_byte(b[0]) {
        1 + common_len2(a.drop_first(), b.drop_first())
    } else {
        0
    }
}

proof fn lemma_common_len2(a: Seq<u8>, b: Seq<u8>)
    ensures
        0 <= common_len2(a, b) <= a.len(),
        common_len2(a, b) <= b.len(),
        forall|i: int| 0 <= i < common_len2(a, b) ==> lower_byte(a[i]) == lower_byte(b[i]),
        common_len2(a, b) < a.len() && common_len2(a, b) < b.len() ==> lower_byte(
            a[common_len2(a, b)],
        ) != lower_byte(b[common_len2(a, b)]),
    decreases a.len(),
{
    if a.len() > 0 && b.len() > 0 && lower_byte(a[0]) == lower_byte(b[0]) {
        lemma_common_len2(a.drop_first(), b.drop_first());
        assert forall|i: int| 0 <= i < common_len2(a, b) implies lower_byte(a[i]) == lower_byte(
            b[i],
        ) by {
            if i > 0 {
                assert(a.drop_first()[i - 1] == a[i]);
                assert(b.drop_first()[i - 1] == b[i]);
            }
        }
    }
}

/// The case-folded common prefix length of the whole list against its first
/// element.
pub open spec fn common_all(ss: Seq<Seq<u8>>) -> int
    recommends
        ss.len() > 0,
    decreases ss.len(),
{
    if ss.len() <= 1 {
        ss[0].len() as int
    } else {
        let rest = common_all(ss.drop_last());
        let here = common_len2(ss[0], ss.last());
        if here < rest {
            here
        } else {
            rest
        }
    }
}

/// Trailing-slash count to strip from a prefix.
pub open spec fn strip_trail_slash(b: Seq<u8>) -> Seq<u8>
    decreases b.len(),
{
    if b.len() > 0 && b.last() == 47 {
        strip_trail_slash(b.drop_last())
    } else {
        b
    }
}

/// The case-insensitive common prefix of the suggestions (taken from the
/// first entry, cut to a character boundary), with trailing slashes
/// stripped; empty when the list is empty.
#[verifier::loop_isolation(false)]
#[verifier::rlimit(30)]
pub fn find_common_prefix(suggestions: &Vec<String>) -> (r: String)
    ensures
        suggestions@.len() == 0 ==> r@ == Seq::<char>::empty(),
        suggestions@.len() > 0 ==> encode_utf8(r@) == strip_trail_slash(
            encode_utf8(suggestions@[0]@).subrange(
                0,
                crate::text::floor_boundary(
                    encode_utf8(suggestions@[0]@),
                    common_all(suggestions@.map_values(|s: String| encode_utf8(s@))),
                ),
            ),
        ),
{
    if suggestions.len() == 0 {
        return String::new();
    }
    let ghost bss = suggestions@.map_values(|s: String| encode_utf8(s@));
    let first = &suggestions[0];
    let ghost fb = encode_utf8(first@);
    proof {
        encode_utf8_valid_utf8(first@);
        assert(bss[0] == fb);
    }
    let fbytes = first.as_str().as_bytes();
    let fn_len: usize = fbytes.len();
    let mut common: usize = fn_len;
    let mut s: usize = 1;
    proof {
        assert(common_all(bss.subrange(0, 1)) == fb.len() as int) by {
            assert(bss.subrange(0, 1)[0] == fb);
        }
    }
    while s < suggestions.len()
        invariant
            1 <= s <= suggestions@.len(),
            fbytes@ == fb,
            fn_len == fb.len(),
            common as int == common_all(bss.subrange(0, s as int)),
            common <= fn_len,
        decreases suggestions@.len() - s,
    {
        let other = &suggestions[s];
        let ghost ob = encode_utf8(other@);
        proof {
            assert(bss[s as int] == ob);
        }
        let obytes = other.as_str().as_bytes();
        let on: usize = obytes.len();
        // length of the case-folded common prefix with this entry
        let mut l: usize = 0;
        let mut stop: bool = false;
        while l < fn_len && l < on && !stop
            invariant
                0 <= l <= fn_len,
                l <= on,
                fbytes@ == fb,
                obytes@ == ob,
                on == ob.len(),
                fn_len == fb.len(),
                forall|i: int| 0 <= i < l ==> lower_byte(fb[i]) == lower_byte(ob[i]),
                stop ==> l < fn_len && l < on && lower_byte(fb[l as int]) != lower_byte(
                    ob[l as int],
                ),
            decreases fn_len - l + (if stop {
                0int
            } else {
                1int
            }),
        {
            let ca = fbytes[l];
            let cb = obytes[l];
            let la: u8 = if 65u8 <= ca && ca <= 90u8 {
                ca + 32
            } else {
                ca
            };
            let lb: u8 = if 65u8 <= cb && cb <= 90u8 {
                cb + 32
            } else {
                cb
            };
            if la == lb {
                l = l + 1;
            } else {
                stop = true;
            }
        }
        proof {
            lemma_common_len2(fb, ob);
            assert(l as int == common_len2(fb, ob)) by {
                let c = common_len2(fb, ob);
                if c < l {
                    assert(lower_byte(fb[c]) == lower_byte(ob[c]));
                }
                if l < c {
                    assert(lower_byte(fb[l as int]) == lower_byte(ob[l as int]));
                }
            }
            assert(bss.subrange(0, s + 1).drop_last() =~= bss.subrange(0, s as int));
            assert(bss.subrange(0, s + 1).last() == ob);
            assert(bss.subrange(0, s + 1)[0] == fb);
        }
        if l < common {
            common = l;
        }
        s = s + 1;
    }
    proof {
        assert(bss.subrange(0, bss.len() as int) =~= bss);
    }
    // Cut at a character boundary and strip trailing slashes.
    let cut = crate::text::floor_char_boundary(first.as_str(), common);
    let mut endpos: usize = cut;
    proof {
        is_char_boundary_start_end_of_seq(fb);
    }
    while endpos > 0 && fbytes[endpos - 1] == 47u8
        invariant
            0 <= endpos <= cut,
            fbytes@ == fb,
            cut <= fb.len(),
            is_char_boundary(fb, cut as int),
            valid_utf8(fb),
            forall|k: int| endpos <= k < cut ==> fb[k] == 47,
            strip_trail_slash(fb.subrange(0, cut as int)) == strip_trail_slash(
                fb.subrange(0, endpos as int),
            ),
        decreases endpos,
    {
        proof {
            assert(fb.subrange(0, endpos as int).drop_last() =~= fb.subrange(0, endpos as int - 1));
        }
        endpos = endpos - 1;
    }
    proof {
        assert(strip_trail_slash(fb.subrange(0, endpos as int)) == fb.subrange(0, endpos as int))
            by {
            if endpos > 0 {
                assert(fb.subrange(0, endpos as int).last() == fb[endpos as int - 1]);
            }
        }
        assert(is_char_boundary(fb, endpos as int)) by {
            if endpos < cut {
                is_char_boundary_iff_not_is_continuation_byte(fb, endpos as int);
            }
        }
    }
    let (head, _tail) = first.as_str().split_at(endpos);
    proof {
        assert(encode_utf8(head@) =~= fb.subrange(0, endpos as int));
    }
    head.to_owned()
}

/// Append `suggestion` (a completed name, directories carrying a trailing
/// slash) to `base_dir`, keeping exactly one separating slash and the
/// directory marker.
pub fn apply_completion(dialog: &mut Dialog, base_dir: &str, suggestion: &str)
    ensures
        ({
            let name = strip_trail_slash(suggestion.spec_bytes());
            let joined = if base_dir.spec_bytes().len() > 0 && base_dir.spec_bytes().last() == 47 {
                base_dir.spec_bytes() + name
            } else {
                base_dir.spec_bytes() + seq![47u8] + name
            };
            let with_mark = if suggestion.spec_bytes().len() > 0 && suggestion.spec_bytes().last()
                == 47 && !(joined.len() > 0 && joined.last() == 47) {
                joined + seq![47u8]
            } else {
                joined
            };
            encode_utf8(final(dialog).input@) == with_mark && final(dialog).cursor_pos as int
                == final(dialog).input@.len()
        }),
        final(dialog).dialog_type == old(dialog).dialog_type,
        final(dialog).message == old(dialog).message,
        final(dialog).completion == old(dialog).completion,
        final(dialog).selected_button == old(dialog).selected_button,
{
    let ghost sb = suggestion.spec_bytes();
    let ghost db = base_dir.spec_bytes();
    proof {
        encode_utf8_valid_utf8(suggestion@);
        encode_utf8_valid_utf8(base_dir@);
        is_char_boundary_start_end_of_seq(sb);
    }
    // Strip the trailing slashes off the suggestion.
    let s_bytes = suggestion.as_bytes();
    let mut endpos: usize = s_bytes.len();
    proof {
        assert(sb.subrange(0, sb.len() as int) =~= sb);
    }
    while endpos > 0 && s_bytes[endpos - 1] == 47u8
        invariant
            0 <= endpos <= sb.len(),
            s_bytes@ == sb,
            valid_utf8(sb),
            forall|k: int| endpos <= k < sb.len() ==> sb[k] == 47,
            strip_trail_slash(sb) == strip_trail_slash(sb.subrange(0, endpos as int)),
        decreases endpos,
    {
        proof {
            assert(sb.subrange(0, endpos as int).drop_last() =~= sb.subrange(0, endpos as int - 1));
            assert(sb.subrange(0, sb.len() as int) =~= sb);
        }
        endpos = endpos - 1;
    }
    proof {
        assert(sb.subrange(0, sb.len() as int) =~= sb);
        assert(strip_trail_slash(sb.subrange(0, endpos as int)) == sb.subrange(0, endpos as int))
            by {
            if endpos > 0 {
                assert(sb.subrange(0, endpos as int).last() == sb[endpos as int - 1]);
            }
        }
        assert(is_char_boundary(sb, endpos as int)) by {
            if (endpos as int) < sb.len() {
                is_char_boundary_iff_not_is_continuation_byte(sb, endpos as int);
            }
        }
    }
    let (name, _t) = suggestion.split_at(endpos);
    proof {
        assert(encode_utf8(name@) =~= strip_trail_slash(sb));
    }
    let mut joined = base_dir.to_owned();
    let d_bytes = base_dir.as_bytes();
    let dn = d_bytes.len();
    proof {
        reveal_strlit("/");
        assert(is_ascii_chars("/"@));
        is_ascii_chars_encode_utf8("/"@);
        assert(encode_utf8("/"@) =~= seq![47u8]);
    }
    if !(dn > 0 && d_bytes[dn - 1] == 47u8) {
        let ghost j0 = joined@;
        joined.append("/");
        proof {
            crate::text::lemma_encode_concat(j0, "/"@);
        }
    }
    let ghost j1 = joined@;
    joined.append(name);
    proof {
        crate::text::lemma_encode_concat(j1, name@);
    }
    // Re-add the directory marker when the completed entry is a directory.
    let jb = joined.as_str().as_bytes();
    let jn = jb.len();
    if s_bytes.len() > 0 && s_bytes[s_bytes.len() - 1] == 47u8 && !(jn > 0 && jb[jn - 1] == 47u8) {
        let ghost j2 = joined@;
        joined.append("/");
        proof {
            crate::text::lemma_encode_concat(j2, "/"@);
        }
    }
    let cursor = joined.as_str().unicode_len();
    dialog.input = joined;
    dialog.cursor_pos = cursor;
}

/// Feed freshly computed suggestions into the popup: an empty list hides
/// it, anything else shows it with the selection reset to the top.
pub fn update_path_suggestions(dialog: &mut Dialog, suggestions: Vec<String>)
    ensures
        final(dialog).dialog_type == old(dialog).dialog_type,
        final(dialog).input == old(dialog).input,
        final(dialog).cursor_pos == old(dialog).cursor_pos,
        final(dialog).message == old(dialog).message,
        final(dialog).selected_button == old(dialog).selected_button,
        old(dialog).completion is None ==> final(dialog).completion == old(dialog).completion,
        old(dialog).completion is Some ==> (final(dialog).completion matches Some(c) && (
        if suggestions@.len() == 0 {
            c.suggestions@ == Seq::<String>::empty() && !c.visible
        } else {
            c.suggestions@ == suggestions@ && c.selected_index == 0 && c.visible
        })),
{
    if let Some(completion) = &mut dialog.completion {
        if suggestions.len() == 0 {
            completion.suggestions = Vec::new();
            completion.visible = false;
        } else {
            completion.suggestions = suggestions;
            completion.selected_index = 0;
            completion.visible = true;
        }
    }
}

/// What a completion trigger decided.
#[derive(PartialEq, Eq, Structural, Clone, Copy, Debug)]
pub enum TriggerOutcome {
    /// No match: the popup was cleared.
    NoMatch,
    /// A single match was applied to the input.
    Applied,
    /// Several matches: their common prefix was applied when it extended
    /// the current one.
    CommonPrefix,
}

/// Tab-completion: a unique suggestion is applied outright; several
/// suggestions extend the input by their common prefix.  The caller then
/// recomputes suggestions for the new input and calls
/// `update_path_suggestions`.
pub fn trigger_path_completion(
    dialog: &mut Dialog,
    base_dir: &str,
    prefix_len: usize,
    suggestions: &Vec<String>,
) -> (r: TriggerOutcome)
    ensures
        suggestions@.len() == 0 ==> r == TriggerOutcome::NoMatch,
        suggestions@.len() == 1 ==> r == TriggerOutcome::Applied,
        suggestions@.len() > 1 ==> r == TriggerOutcome::CommonPrefix,
{
    if suggestions.len() == 0 {
        if let Some(completion) = &mut dialog.completion {
            completion.suggestions = Vec::new();
            completion.visible = false;
        }
        TriggerOutcome::NoMatch
    } else if suggestions.len() == 1 {
        let one = suggestions[0].clone();
        apply_completion(dialog, base_dir, one.as_str());
        TriggerOutcome::Applied
    } else {
        let common = find_common_prefix(suggestions);
        if common.as_str().as_bytes().len() > prefix_len {
            apply_completion(dialog, base_dir, common.as_str());
        }
        TriggerOutcome::CommonPrefix
    }
}


/// How the user answered a duplicate-file prompt.
#[derive(PartialEq, Eq, Structural, Clone, Copy, Debug)]
pub enum ConflictResolution {
    Overwrite,
    Skip,
    OverwriteAll,
    SkipAll,
}

/// The pending duplicate conflicts of one paste operation: the conflicting
/// sources with their destinations and display names, a cursor, and the
/// decisions gathered so far.
pub struct ConflictState {
    pub conflicts: Vec<(String, String, String)>,
    pub current_index: usize,
    pub files_to_overwrite: Vec<String>,
    pub files_to_skip: Vec<String>,
    pub is_move_operation: bool,
}

/// Step to the next conflict; true when every conflict has been decided.
pub fn advance_to_next_conflict(state: &mut ConflictState) -> (finished: bool)
    requires
        old(state).current_index < old(state).conflicts@.len(),
    ensures
        final(state).current_index == old(state).current_index + 1,
        finished == (final(state).current_index >= final(state).conflicts@.len()),
        final(state).conflicts == old(state).conflicts,
        final(state).files_to_overwrite == old(state).files_to_overwrite,
        final(state).files_to_skip == old(state).files_to_skip,
        final(state).is_move_operation == old(state).is_move_operation,
{
    let n = state.conflicts.len();
    state.current_index = state.current_index + 1;
    state.current_index >= n
}

/// The sources of the conflicts from `i` on.
pub open spec fn remaining_sources(cs: Seq<(String, String, String)>, i: int) -> Seq<String> {
    cs.subrange(i, cs.len() as int).map_values(|c: (String, String, String)| c.0)
}

/// Apply one resolution to the current conflict: a single answer records
/// the current source and advances; an all-answer records every remaining
/// source and finishes.  Returns whether the whole prompt sequence is done.
#[verifier::loop_isolation(false)]
pub fn resolve_current_conflict(
    state: &mut ConflictState,
    resolution: ConflictResolution,
) -> (finished: bool)
    requires
        old(state).current_index < old(state).conflicts@.len(),
    ensures
        final(state).conflicts == old(state).conflicts,
        final(state).is_move_operation == old(state).is_move_operation,
        match resolution {
            ConflictResolution::Overwrite => {
                &&& final(state).files_to_overwrite@ == old(state).files_to_overwrite@.push(
                    old(state).conflicts@[old(state).current_index as int].0,
                )
                &&& final(state).files_to_skip == old(state).files_to_skip
                &&& final(state).current_index == old(state).current_index + 1
                &&& finished == (final(state).current_index >= old(state).conflicts@.len())
            },
            ConflictResolution::Skip => {
                &&& final(state).files_to_skip@ == old(state).files_to_skip@.push(
                    old(state).conflicts@[old(state).current_index as int].0,
                )
                &&& final(state).files_to_overwrite == old(state).files_to_overwrite
                &&& final(state).current_index == old(state).current_index + 1
                &&& finished == (final(state).current_index >= old(state).conflicts@.len())
            },
            ConflictResolution::OverwriteAll => {
                &&& final(state).files_to_overwrite@ == old(state).files_to_overwrite@
                    + remaining_sources(old(state).conflicts@, old(state).current_index as int)
                &&& final(state).files_to_skip == old(state).files_to_skip
                &&& finished
            },
            ConflictResolution::SkipAll => {
                &&& final(state).files_to_skip@ == old(state).files_to_skip@ + remaining_sources(
                    old(state).conflicts@,
                    old(state).current_index as int,
                )
                &&& final(state).files_to_overwrite == old(state).files_to_overwrite
                &&& finished
            },
        },
{
    let start = state.current_index;
    match resolution {
        ConflictResolution::Overwrite => {
            let src = state.conflicts[start].0.clone();
            let ghost opre = state.files_to_overwrite@;
            state.files_to_overwrite.push(src);
            proof {
                assert(state.files_to_overwrite@ =~= opre.push(
                    old(state).conflicts@[start as int].0,
                ));
            }
            advance_to_next_conflict(state)
        },
        ConflictResolution::Skip => {
            let src = state.conflicts[start].0.clone();
            let ghost spre = state.files_to_skip@;
            state.files_to_skip.push(src);
            proof {
                assert(state.files_to_skip@ =~= spre.push(state.conflicts@[start as int].0));
            }
            advance_to_next_conflict(state)
        },
        ConflictResolution::OverwriteAll => {
            let ghost opre = state.files_to_overwrite@;
            let ghost cs = state.conflicts@;
            let n = state.conflicts.len();
            let mut i: usize = start;
            while i < n
                invariant
                    start <= i <= n,
                    n == cs.len(),
                    state.conflicts == old(state).conflicts,
                    state.conflicts@ == cs,
                    state.current_index == start,
                    state.files_to_skip == old(state).files_to_skip,
                    state.is_move_operation == old(state).is_move_operation,
                    state.files_to_overwrite@ == opre + cs.subrange(
                        start as int,
                        i as int,
                    ).map_values(|c: (String, String, String)| c.0),
                decreases n - i,
            {
                let src = state.conflicts[i].0.clone();
                state.files_to_overwrite.push(src);
                proof {
                    assert(cs.subrange(start as int, i + 1).drop_last() =~= cs.subrange(
                        start as int,
                        i as int,
                    ));
                    assert(cs.subrange(start as int, i + 1).last() == cs[i as int]);
                    assert(cs.subrange(start as int, i + 1).map_values(
                        |c: (String, String, String)| c.0,
                    ) =~= cs.subrange(start as int, i as int).map_values(
                        |c: (String, String, String)| c.0,
                    ).push(cs[i as int].0));
                    assert(state.files_to_overwrite@ =~= opre + cs.subrange(
                        start as int,
                        i + 1,
                    ).map_values(|c: (String, String, String)| c.0));
                }
                i = i + 1;
            }
            true
        },
        ConflictResolution::SkipAll => {
            let ghost spre = state.files_to_skip@;
            let ghost cs = state.conflicts@;
            let n = state.conflicts.len();
            let mut i: usize = start;
            while i < n
                invariant
                    start <= i <= n,
                    n == cs.len(),
                    state.conflicts == old(state).conflicts,
                    state.conflicts@ == cs,
                    state.current_index == start,
                    state.files_to_overwrite == old(state).files_to_overwrite,
                    state.is_move_operation == old(state).is_move_operation,
                    state.files_to_skip@ == spre + cs.subrange(start as int, i as int).map_values(
                        |c: (String, String, String)| c.0,
                    ),
                decreases n - i,
            {
                let src = state.conflicts[i].0.clone();
                state.files_to_skip.push(src);
                proof {
                    assert(cs.subrange(start as int, i + 1).drop_last() =~= cs.subrange(
                        start as int,
                        i as int,
                    ));
                    assert(cs.subrange(start as int, i + 1).last() == cs[i as int]);
                    assert(cs.subrange(start as int, i + 1).map_values(
                        |c: (String, String, String)| c.0,
                    ) =~= cs.subrange(start as int, i as int).map_values(
                        |c: (String, String, String)| c.0,
                    ).push(cs[i as int].0));
                    assert(state.files_to_skip@ =~= spre + cs.subrange(
                        start as int,
                        i + 1,
                    ).map_values(|c: (String, String, String)| c.0));
                }
                i = i + 1;
            }
            true
        },
    }
}

} // verus!
