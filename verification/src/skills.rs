//! Skill descriptions: the built-in slash-command catalog, and extraction
//! of a one-line description from a user-authored skill file, preferring a
//! frontmatter `description:` entry, then the first meaningful line, then
//! heading text, with a fixed fallback.

use crate::commands::trim_spec;
use crate::text::lines_from;
use vstd::prelude::*;
use vstd::string::StrSliceExecFns;
use vstd::string::StringExecFns;
use vstd::string::StringSliceAdditionalSpecFns;
use vstd::utf8::decode_utf8;
use vstd::utf8::encode_utf8;
use vstd::utf8::encode_utf8_decode_utf8;
use vstd::utf8::is_char_boundary_start_end_of_seq;

verus! {

broadcast use {vstd::slice::axiom_spec_len, vstd::seq::group_seq_axioms};

/// The frontmatter marker.
pub open spec fn dash3() -> Seq<u8> {
    seq![45u8, 45u8, 45u8]
}

/// The `description:` key, as bytes.
pub open spec fn desc_key() -> Seq<u8> {
    encode_utf8("description:"@)
}

/// Leading `#` marks of a trimmed line.
pub open spec fn hash_count(b: Seq<u8>) -> int
    decreases b.len(),
{
    if b.len() > 0 && b[0] == 35 {
        1 + hash_count(b.drop_first())
    } else {
        0
    }
}

proof fn lemma_hash_count(b: Seq<u8>)
    ensures
        0 <= hash_count(b) <= b.len(),
        forall|k: int| 0 <= k < hash_count(b) ==> b[k] == 35,
        hash_count(b) < b.len() ==> b[hash_count(b)] != 35,
    decreases b.len(),
{
    if b.len() > 0 && b[0] == 35 {
        lemma_hash_count(b.drop_first());
        assert(forall|k: int|
            0 <= k < b.drop_first().len() ==> #[trigger] b.drop_first()[k] == b[k + 1]);
        assert forall|k: int| 0 <= k < hash_count(b) implies b[k] == 35 by {
            if k > 0 {
                assert(b.drop_first()[k - 1] == 35);
            }
        }
    }
}

/// A line reduced to its text: trimmed, heading marks dropped, trimmed
/// again.
pub open spec fn strip_text(lb: Seq<u8>) -> Seq<u8> {
    let t = trim_spec(lb);
    trim_spec(t.subrange(hash_count(t), t.len() as int))
}

/// The trimmed value after the `description:` key of a trimmed line.
pub open spec fn desc_value(lb: Seq<u8>) -> Seq<u8> {
    let t = trim_spec(lb);
    trim_spec(t.subrange(desc_key().len() as int, t.len() as int))
}

/// Whether a trimmed line carries a non-empty `description:` value.
pub open spec fn is_desc_line(lb: Seq<u8>) -> bool {
    crate::split::starts_with_spec(trim_spec(lb), desc_key()) && desc_value(lb).len() > 0
}

/// The first frontmatter-closing line at or after `i`, or -1.
pub open spec fn fm_close(ls: Seq<Seq<u8>>, i: int) -> int
    decreases ls.len() - i,
    when i >= 0
{
    if i >= ls.len() {
        -1
    } else if trim_spec(ls[i]) == dash3() {
        i
    } else {
        fm_close(ls, i + 1)
    }
}

/// The first `description:` line in `[i, end)`, or -1.
pub open spec fn fm_desc(ls: Seq<Seq<u8>>, i: int, end: int) -> int
    decreases end - i,
    when i >= 0
{
    if i >= end || i >= ls.len() {
        -1
    } else if is_desc_line(ls[i]) {
        i
    } else {
        fm_desc(ls, i + 1, end)
    }
}

/// The first line at or after `i` whose stripped text is non-empty, or -1.
pub open spec fn first_meaningful(ls: Seq<Seq<u8>>, i: int) -> int
    decreases ls.len() - i,
    when i >= 0
{
    if i >= ls.len() {
        -1
    } else if strip_text(ls[i]).len() > 0 {
        i
    } else {
        first_meaningful(ls, i + 1)
    }
}

/// The first non-blank, non-heading line at or after `i`, or -1.
pub open spec fn first_plain(ls: Seq<Seq<u8>>, i: int) -> int
    decreases ls.len() - i,
    when i >= 0
{
    if i >= ls.len() {
        -1
    } else if trim_spec(ls[i]).len() > 0 && trim_spec(ls[i])[0] != 35 {
        i
    } else {
        first_plain(ls, i + 1)
    }
}

/// The first heading line with non-empty text at or after `i`, or -1.
pub open spec fn first_heading(ls: Seq<Seq<u8>>, i: int) -> int
    decreases ls.len() - i,
    when i >= 0
{
    if i >= ls.len() {
        -1
    } else if trim_spec(ls[i]).len() > 0 && trim_spec(ls[i])[0] == 35 && strip_text(
        ls[i],
    ).len() > 0 {
        i
    } else {
        first_heading(ls, i + 1)
    }
}

/// The description bytes a skill file yields, before display capping: a
/// non-empty frontmatter `description:` wins; then the first meaningful
/// line after the frontmatter; then (or with no frontmatter) the first
/// plain line; then the first heading's text; finally a fixed fallback.
pub open spec fn skill_desc_spec(b: Seq<u8>) -> Seq<u8> {
    let ls = lines_from(b, 0);
    let fm = if ls.len() > 0 && trim_spec(ls[0]) == dash3() {
        let c = fm_close(ls, 1);
        if c >= 0 {
            let dj = fm_desc(ls, 1, c);
            if dj >= 0 {
                Some(desc_value(ls[dj]))
            } else {
                let aj = first_meaningful(ls, c + 1);
                if aj >= 0 {
                    Some(strip_text(ls[aj]))
                } else {
                    None
                }
            }
        } else {
            None
        }
    } else {
        None
    };
    match fm {
        Some(v) => v,
        None => {
            let p = first_plain(ls, 0);
            if p >= 0 {
                trim_spec(ls[p])
            } else {
                let h = first_heading(ls, 0);
                if h >= 0 {
                    strip_text(ls[h])
                } else {
                    encode_utf8("Custom skill"@)
                }
            }
        },
    }
}

/// The built-in slash commands, each with its one-line description.
pub fn builtin_skills() -> (r: Vec<(String, String)>)
    ensures
        r@.len() == 14,
{
    let mut v: Vec<(String, String)> = Vec::new();
    v.push((String::from_str("compact"), String::from_str("Compact conversation to reduce context")));
    v.push((String::from_str("cost"), String::from_str("Show token usage and cost for this session")));
    v.push((String::from_str("doctor"), String::from_str("Check agent health and configuration")));
    v.push((String::from_str("init"), String::from_str("Initialize project with a memory guide")));
    v.push((String::from_str("login"), String::from_str("Switch accounts")));
    v.push((String::from_str("logout"), String::from_str("Sign out from the account")));
    v.push((String::from_str("memory"), String::from_str("Edit memory files")));
    v.push((String::from_str("model"), String::from_str("Switch AI model")));
    v.push((String::from_str("permissions"), String::from_str("View and manage tool permissions")));
    v.push((String::from_str("pr-comments"), String::from_str("View PR comments for current branch")));
    v.push((String::from_str("review"), String::from_str("Code review for uncommitted changes")));
    v.push((String::from_str("status"), String::from_str("Show session status and git info")));
    v.push((String::from_str("terminal-setup"), String::from_str("Install Shift+Enter key binding")));
    v.push((String::from_str("vim"), String::from_str("Toggle vim keybinding mode")));
    v
}

/// The raw lines of a text, owned.
#[verifier::loop_isolation(false)]
fn lines_vec(s: &str) -> (r: Vec<String>)
    ensures
        r@.len() == lines_from(s.spec_bytes(), 0).len(),
        forall|i: int|
            0 <= i < r@.len() ==> encode_utf8(#[trigger] r@[i]@) == lines_from(
                s.spec_bytes(),
                0,
            )[i],
{
    let ghost b = s.spec_bytes();
    proof {
        vstd::utf8::encode_utf8_valid_utf8(s@);
        is_char_boundary_start_end_of_seq(b);
    }
    let bs = s.as_bytes();
    let n: usize = bs.len();
    let mut out: Vec<String> = Vec::new();
    let mut pos: usize = 0;
    while pos < n
        invariant
            0 <= pos <= n,
            out@.len() + lines_from(b, pos as int).len() == lines_from(b, 0).len(),
            forall|i: int|
                0 <= i < out@.len() ==> encode_utf8(#[trigger] out@[i]@) == lines_from(b, 0)[i],
            forall|i: int|
                0 <= i < lines_from(b, pos as int).len() ==> #[trigger] lines_from(
                    b,
                    pos as int,
                )[i] == lines_from(b, 0)[out@.len() + i],
            vstd::utf8::is_char_boundary(b, pos as int),
        decreases n - pos,
    {
        let mut j: usize = pos;
        while j < n && bs[j] != 10u8
            invariant
                pos <= j <= n,
                forall|k: int| pos <= k < j ==> b[k] != crate::text::nl(),
            decreases n - j,
        {
            j = j + 1;
        }
        proof {
            crate::text::lemma_first_nl_pin(b, pos as int, j as int);
            assert(lines_from(b, pos as int)[0] == b.subrange(pos as int, j as int));
            assert(lines_from(b, pos as int).drop_first() =~= if (j as int) < b.len() {
                lines_from(b, (j + 1) as int)
            } else {
                Seq::<Seq<u8>>::empty()
            });
            vstd::utf8::valid_utf8_split(b, pos as int);
            let suffix = b.subrange(pos as int, b.len() as int);
            if (j as int) < b.len() {
                assert(suffix[j as int - pos as int] == crate::text::nl());
                vstd::utf8::is_char_boundary_iff_not_is_continuation_byte(
                    suffix,
                    j as int - pos as int,
                );
            } else {
                is_char_boundary_start_end_of_seq(suffix);
            }
        }
        let (_head, tail) = s.split_at(pos);
        let (line_str, _rest) = tail.split_at(j - pos);
        proof {
            assert(line_str.spec_bytes() =~= b.subrange(pos as int, j as int));
        }
        let ghost opre = out@;
        out.push(line_str.to_owned());
        proof {
            assert(out@ =~= opre.push(out@.last()));
            if (j as int) < b.len() {
                crate::text::lemma_after_nl_boundary(b, j as int);
            } else {
                is_char_boundary_start_end_of_seq(b);
            }
        }
        pos = if j < n {
            j + 1
        } else {
            n
        };
        proof {
            if pos == n && j == n {
                assert(lines_from(b, pos as int) =~= Seq::<Seq<u8>>::empty());
            }
        }
    }
    proof {
        assert(lines_from(b, pos as int) =~= Seq::<Seq<u8>>::empty());
    }
    out
}

/// The line's stripped text: trimmed, heading marks dropped, trimmed again.
fn strip_text_exec(line: &str) -> (r: String)
    ensures
        encode_utf8(r@) == strip_text(line.spec_bytes()),
{
    let trimmed = crate::commands::trim_ascii(line);
    let ghost t = trim_spec(line.spec_bytes());
    let tb = trimmed.as_str().as_bytes();
    let n: usize = tb.len();
    let mut k: usize = 0;
    while k < n && tb[k] == 35u8
        invariant
            0 <= k <= n,
            tb@ == t,
            n == t.len(),
            forall|i: int| 0 <= i < k ==> t[i] == 35,
        decreases n - k,
    {
        k = k + 1;
    }
    proof {
        lemma_hash_count(t);
        assert(k as int == hash_count(t)) by {
            if (k as int) < hash_count(t) {
                assert(t[k as int] == 35);
            }
            if hash_count(t) < k as int {
                assert(t[hash_count(t)] == 35);
            }
        }
        assert(forall|i: int| 0 <= i < k ==> t[i] < 128);
    }
    crate::commands::argument_after(trimmed.as_str(), k)
}

/// Cap a text at a number of characters.
fn take_chars(s: &str, k: usize) -> (r: String)
    ensures
        r@ == s@.subrange(
            0,
            if s@.len() <= k {
                s@.len() as int
            } else {
                k as int
            },
        ),
{
    let n = s.unicode_len();
    if n <= k {
        proof {
            assert(s@.subrange(0, s@.len() as int) =~= s@);
        }
        s.to_owned()
    } else {
        s.substring_char(0, k).to_owned()
    }
}

/// Extract a skill's one-line description from its file text, capped at 80
/// characters for display: frontmatter `description:` first, then the first
/// meaningful line after the frontmatter, then the first plain line, then
/// heading text, and a fixed fallback when nothing is usable.
#[verifier::loop_isolation(false)]
#[verifier::rlimit(100)]
#[verifier::spinoff_prover]
pub fn extract_skill_description(content: &str) -> (r: String)
    ensures
        ({
            let chosen = decode_utf8(skill_desc_spec(content.spec_bytes()));
            r@ == chosen.subrange(
                0,
                if chosen.len() <= 80 {
                    chosen.len() as int
                } else {
                    80
                },
            )
        }),
{
    let ghost b = content.spec_bytes();
    let ghost ls = lines_from(b, 0);
    let lines = lines_vec(content);
    let m: usize = lines.len();
    // Frontmatter?
    if m > 0 {
        proof {
            assert(encode_utf8(lines@[0]@) == ls[0]);
        }
        let l0 = crate::commands::trim_ascii(lines[0].as_str());
        if crate::util::str_eq(l0.as_str(), "---") {
            proof {
                reveal_strlit("---");
                assert(vstd::utf8::is_ascii_chars("---"@));
                vstd::utf8::is_ascii_chars_encode_utf8("---"@);
                assert(encode_utf8("---"@) =~= dash3());
                assert(trim_spec(ls[0]) == dash3());
            }
            // find the closing marker
            let mut c: usize = 1;
            let mut c_found: bool = false;
            while c < m && !c_found
                invariant
                    1 <= c <= m,
                    !c_found ==> forall|i: int| 1 <= i < c ==> trim_spec(ls[i]) != dash3(),
                    !c_found ==> fm_close(ls, 1) == fm_close(ls, c as int),
                    c_found ==> c < m && trim_spec(ls[c as int]) == dash3() && fm_close(ls, 1)
                        == c as int,
                decreases m - c + (if c_found {
                    0int
                } else {
                    1int
                }),
            {
                proof {
                    assert(encode_utf8(lines@[c as int]@) == ls[c as int]);
                }
                let tc = crate::commands::trim_ascii(lines[c].as_str());
                if crate::util::str_eq(tc.as_str(), "---") {
                    proof {
                        reveal_strlit("---");
                        assert(vstd::utf8::is_ascii_chars("---"@));
                        vstd::utf8::is_ascii_chars_encode_utf8("---"@);
                        assert(encode_utf8("---"@) =~= dash3());
                        assert(trim_spec(ls[c as int]) =~= dash3());
                    }
                    c_found = true;
                } else {
                    proof {
                        assert(trim_spec(ls[c as int]) != dash3()) by {
                            if trim_spec(ls[c as int]) == dash3() {
                                vstd::utf8::encode_utf8_decode_utf8(tc@);
                                reveal_strlit("---");
                                assert(vstd::utf8::is_ascii_chars("---"@));
                                vstd::utf8::is_ascii_chars_encode_utf8("---"@);
                                assert(encode_utf8(tc@) =~= encode_utf8("---"@));
                                vstd::utf8::encode_utf8_decode_utf8("---"@);
                            }
                        }
                    }
                    c = c + 1;
                }
            }
            proof {
                if !c_found {
                    assert(fm_close(ls, c as int) == -1);
                    assert(fm_close(ls, 1) == -1);
                }
            }
            if c_found {
                // look for a description in the frontmatter
                let mut dj: usize = 1;
                let mut d_found: bool = false;
                let mut value: String = String::new();
                while dj < c && !d_found
                    invariant
                        1 <= dj <= c,
                        c < m,
                        fm_close(ls, 1) == c as int,
                        !d_found ==> forall|i: int| 1 <= i < dj ==> !is_desc_line(ls[i]),
                        !d_found ==> fm_desc(ls, 1, c as int) == fm_desc(ls, dj as int, c as int),
                        d_found ==> fm_desc(ls, 1, c as int) == dj as int && encode_utf8(value@)
                            == desc_value(ls[dj as int]),
                    decreases c - dj + (if d_found {
                        0int
                    } else {
                        1int
                    }),
                {
                    proof {
                        assert(encode_utf8(lines@[dj as int]@) == ls[dj as int]);
                    }
                    let t = crate::commands::trim_ascii(lines[dj].as_str());
                    if crate::commands::starts_with_str(t.as_str(), "description:") {
                        proof {
                            reveal_strlit("description:");
                            assert(vstd::utf8::is_ascii_chars("description:"@));
                            vstd::utf8::is_ascii_chars_encode_utf8("description:"@);
                            assert(encode_utf8("description:"@) =~= desc_key());
                            assert(desc_key().len() == 12);
                            assert(forall|i: int| 0 <= i < 12 ==> #[trigger] desc_key()[i] < 128);
                            assert(forall|i: int|
                                0 <= i < 12 ==> #[trigger] trim_spec(ls[dj as int])[i] < 128) by {
                                assert(forall|i: int|
                                    0 <= i < 12 ==> trim_spec(ls[dj as int]).subrange(0, 12)[i]
                                        == #[trigger] trim_spec(ls[dj as int])[i]);
                            }
                        }
                        let v = crate::commands::argument_after(t.as_str(), 12);
                        if !v.as_str().is_empty() {
                            proof {
                                crate::text::lemma_encode_empty(v@);
                                assert(is_desc_line(ls[dj as int]));
                            }
                            value = v;
                            d_found = true;
                        } else {
                            proof {
                                crate::text::lemma_encode_empty(v@);
                                assert(!is_desc_line(ls[dj as int]));
                            }
                            dj = dj + 1;
                        }
                    } else {
                        proof {
                            reveal_strlit("description:");
                            assert(vstd::utf8::is_ascii_chars("description:"@));
                            vstd::utf8::is_ascii_chars_encode_utf8("description:"@);
                            assert(encode_utf8("description:"@) =~= desc_key());
                            assert(!is_desc_line(ls[dj as int]));
                        }
                        dj = dj + 1;
                    }
                }
                if d_found {
                    proof {
                        lemma_decode_of(value@, desc_value(ls[dj as int]));
                    }
                    return take_chars(value.as_str(), 80);
                }
                proof {
                    assert(fm_desc(ls, 1, c as int) == -1);
                }
                // first meaningful line after the frontmatter
                let mut aj: usize = c + 1;
                let mut a_found: bool = false;
                let mut text: String = String::new();
                while aj < m && !a_found
                    invariant
                        c as int + 1 <= aj as int <= m,
                        !a_found ==> forall|i: int|
                            c + 1 <= i < aj ==> strip_text(#[trigger] ls[i]).len() == 0,
                        !a_found ==> first_meaningful(ls, c + 1) == first_meaningful(
                            ls,
                            aj as int,
                        ),
                        a_found ==> first_meaningful(ls, c + 1) == aj as int && encode_utf8(text@)
                            == strip_text(ls[aj as int]),
                    decreases m - aj + (if a_found {
                        0int
                    } else {
                        1int
                    }),
                {
                    proof {
                        assert(encode_utf8(lines@[aj as int]@) == ls[aj as int]);
                    }
                    let t = strip_text_exec(lines[aj].as_str());
                    if !t.as_str().is_empty() {
                        proof {
                            crate::text::lemma_encode_empty(t@);
                        }
                        text = t;
                        a_found = true;
                    } else {
                        proof {
                            crate::text::lemma_encode_empty(t@);
                        }
                        aj = aj + 1;
                    }
                }
                if a_found {
                    proof {
                        lemma_decode_of(text@, strip_text(ls[aj as int]));
                    }
                    return take_chars(text.as_str(), 80);
                }
                proof {
                    assert(first_meaningful(ls, c as int + 1) == -1);
                }
            }
        } else {
            proof {
                assert(trim_spec(ls[0]) != dash3()) by {
                    if trim_spec(ls[0]) == dash3() {
                        vstd::utf8::encode_utf8_decode_utf8(l0@);
                        reveal_strlit("---");
                        assert(vstd::utf8::is_ascii_chars("---"@));
                        vstd::utf8::is_ascii_chars_encode_utf8("---"@);
                        assert(encode_utf8(l0@) =~= encode_utf8("---"@));
                        vstd::utf8::encode_utf8_decode_utf8("---"@);
                    }
                }
            }
        }
    }
    // Generic scan: first plain line, else heading text, else the fallback.
    let mut p: usize = 0;
    let mut p_found: bool = false;
    let mut plain: String = String::new();
    while p < m && !p_found
        invariant
            0 <= p <= m,
            m == ls.len(),
            forall|i: int|
                0 <= i < lines@.len() ==> encode_utf8(#[trigger] lines@[i]@) == ls[i],
            !p_found ==> forall|i: int|
                0 <= i < p ==> !(trim_spec(#[trigger] ls[i]).len() > 0 && trim_spec(ls[i])[0]
                    != 35),
            !p_found ==> first_plain(ls, 0) == first_plain(ls, p as int),
            p_found ==> first_plain(ls, 0) == p as int && encode_utf8(plain@) == trim_spec(
                ls[p as int],
            ),
        decreases m - p + (if p_found {
            0int
        } else {
            1int
        }),
    {
        proof {
            assert(encode_utf8(lines@[p as int]@) == ls[p as int]);
        }
        let t = crate::commands::trim_ascii(lines[p].as_str());
        let tb = t.as_str().as_bytes();
        if tb.len() > 0 && tb[0] != 35u8 {
            plain = t;
            p_found = true;
        } else {
            p = p + 1;
        }
    }
    if p_found {
        proof {
            lemma_decode_of(plain@, trim_spec(ls[p as int]));
        }
        return take_chars(plain.as_str(), 80);
    }
    proof {
        assert(first_plain(ls, 0) == -1);
    }
    let mut h: usize = 0;
    let mut h_found: bool = false;
    let mut head: String = String::new();
    while h < m && !h_found
        invariant
            0 <= h <= m,
            m == ls.len(),
            forall|i: int|
                0 <= i < lines@.len() ==> encode_utf8(#[trigger] lines@[i]@) == ls[i],
            !h_found ==> forall|i: int|
                0 <= i < h ==> !(trim_spec(#[trigger] ls[i]).len() > 0 && trim_spec(ls[i])[0] == 35
                    && strip_text(ls[i]).len() > 0),
            !h_found ==> first_heading(ls, 0) == first_heading(ls, h as int),
            h_found ==> first_heading(ls, 0) == h as int && encode_utf8(head@) == strip_text(
                ls[h as int],
            ),
        decreases m - h + (if h_found {
            0int
        } else {
            1int
        }),
    {
        proof {
            assert(encode_utf8(lines@[h as int]@) == ls[h as int]);
        }
        let t = crate::commands::trim_ascii(lines[h].as_str());
        let tb = t.as_str().as_bytes();
        if tb.len() > 0 && tb[0] == 35u8 {
            let st = strip_text_exec(lines[h].as_str());
            if !st.as_str().is_empty() {
                proof {
                    crate::text::lemma_encode_empty(st@);
                }
                head = st;
                h_found = true;
            } else {
                proof {
                    crate::text::lemma_encode_empty(st@);
                }
                h = h + 1;
            }
        } else {
            h = h + 1;
        }
    }
    if h_found {
        proof {
            lemma_decode_of(head@, strip_text(ls[h as int]));
        }
        return take_chars(head.as_str(), 80);
    }
    proof {
        assert(first_heading(ls, 0) == -1);
    }
    let fallback = String::from_str("Custom skill");
    proof {
        lemma_decode_of(fallback@, encode_utf8("Custom skill"@));
    }
    take_chars(fallback.as_str(), 80)
}

/// A string whose encoding is `v` reads back as `v`'s decoding.
proof fn lemma_decode_of(s: Seq<char>, v: Seq<u8>)
    requires
        encode_utf8(s) == v,
    ensures
        s == decode_utf8(v),
{
    encode_utf8_decode_utf8(s);
}

} // verus!
