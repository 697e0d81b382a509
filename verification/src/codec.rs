//! The persisted session document: a canonical JSON encoding of session
//! identity, working directory, creation time, and transcript, together
//! with its parser.  Decoding an encoded document returns it unchanged, so
//! persisted sessions restore exactly.

use crate::session::HistoryKind;
use crate::settings::hex_digit;
use vstd::prelude::*;
use vstd::string::StrSliceExecFns;
use vstd::string::StringSliceAdditionalSpecFns;
use vstd::utf8::encode_utf8;
use vstd::utf8::is_ascii_chars;
use vstd::utf8::is_ascii_chars_encode_utf8;

verus! {

broadcast use {vstd::slice::axiom_spec_len, vstd::seq::group_seq_axioms};

/// One transcript entry as persisted: its kind and its text, as bytes.
pub struct DocItem {
    pub kind: HistoryKind,
    pub content: Vec<u8>,
}

/// The on-disk session document.
pub struct SessionDoc {
    pub session_id: Vec<u8>,
    pub current_path: Vec<u8>,
    pub created_at: Vec<u8>,
    pub history: Vec<DocItem>,
}

/// The document's mathematical shadow.
pub struct DocSpec {
    pub session_id: Seq<u8>,
    pub current_path: Seq<u8>,
    pub created_at: Seq<u8>,
    pub history: Seq<(HistoryKind, Seq<u8>)>,
}

impl SessionDoc {
    /// The value a document denotes.
    pub open spec fn view_spec(self) -> DocSpec {
        DocSpec {
            session_id: self.session_id@,
            current_path: self.current_path@,
            created_at: self.created_at@,
            history: self.history@.map_values(|it: DocItem| (it.kind, it.content@)),
        }
    }
}

/// JSON string escaping of one byte: quote and backslash get a backslash,
/// control bytes become a lowercase `\u00xy` escape, and everything else
/// (multi-byte UTF-8 included) passes through.
pub open spec fn esc_byte(c: u8) -> Seq<u8> {
    if c == 34 {
        seq![92u8, 34u8]
    } else if c == 92 {
        seq![92u8, 92u8]
    } else if c < 32 {
        seq![92u8, 117u8, 48u8, 48u8, hex_digit(c / 16), hex_digit(c % 16)]
    } else {
        seq![c]
    }
}

/// JSON string escaping of a byte sequence.
pub open spec fn esc(b: Seq<u8>) -> Seq<u8>
    decreases b.len(),
{
    if b.len() == 0 {
        seq![]
    } else {
        esc_byte(b[0]) + esc(b.drop_first())
    }
}

/// The name under which a history kind is persisted.
pub open spec fn kind_name(k: HistoryKind) -> Seq<u8> {
    match k {
        HistoryKind::User => bytes_lit("User"),
        HistoryKind::Assistant => bytes_lit("Assistant"),
        HistoryKind::Error => bytes_lit("Error"),
        HistoryKind::System => bytes_lit("System"),
        HistoryKind::ToolUse => bytes_lit("ToolUse"),
        HistoryKind::ToolResult => bytes_lit("ToolResult"),
    }
}

/// The bytes of an ASCII string literal.
pub open spec fn bytes_lit(s: &str) -> Seq<u8> {
    encode_utf8(s@)
}

/// A lone double quote.
pub open spec fn quote() -> Seq<u8> {
    seq![34u8]
}

/// One encoded history item.
pub open spec fn enc_item(k: HistoryKind, content: Seq<u8>) -> Seq<u8> {
    bytes_lit("{\"kind\":\"") + kind_name(k) + quote() + bytes_lit(",\"content\":\"") + esc(
        content,
    ) + quote() + bytes_lit("}")
}

/// The encoded item list, comma separated.
pub open spec fn enc_items(items: Seq<(HistoryKind, Seq<u8>)>) -> Seq<u8>
    decreases items.len(),
{
    if items.len() == 0 {
        seq![]
    } else if items.len() == 1 {
        enc_item(items[0].0, items[0].1)
    } else {
        enc_item(items[0].0, items[0].1) + bytes_lit(",") + enc_items(items.drop_first())
    }
}

/// The canonical encoding of a whole document.
pub open spec fn enc_doc(d: DocSpec) -> Seq<u8> {
    bytes_lit("{\"session_id\":\"") + (esc(d.session_id) + (quote() + (bytes_lit(
        ",\"current_path\":\"",
    ) + (esc(d.current_path) + (quote() + (bytes_lit(",\"created_at\":\"") + (esc(d.created_at)
        + (quote() + (bytes_lit(",\"history\":[") + (enc_items(d.history) + (seq![93u8]
        + bytes_lit("}"))))))))))))
}

/// The numeric value of a lowercase hex digit, or 16 when it is none.
pub open spec fn unhex(c: u8) -> u8 {
    if 48 <= c <= 57 {
        (c - 48) as u8
    } else if 97 <= c <= 102 {
        (c - 87) as u8
    } else {
        16
    }
}

/// Parse a JSON string body starting at `i` (just past the opening quote):
/// the decoded bytes and the position just past the closing quote.  Exactly
/// the escapes the encoder produces are accepted.
pub open spec fn parse_str_at(b: Seq<u8>, i: int) -> Option<(Seq<u8>, int)>
    decreases b.len() - i,
    when i >= 0
{
    if i >= b.len() {
        None
    } else if b[i] == 34 {
        Some((Seq::<u8>::empty(), i + 1))
    } else if b[i] == 92 {
        if i + 1 < b.len() && (b[i + 1] == 34 || b[i + 1] == 92) {
            match parse_str_at(b, i + 2) {
                Some((v, n)) => Some((seq![b[i + 1]] + v, n)),
                None => None,
            }
        } else if i + 5 < b.len() && b[i + 1] == 117 && b[i + 2] == 48 && b[i + 3] == 48 && unhex(
            b[i + 4],
        ) < 16 && unhex(b[i + 5]) < 16 && unhex(b[i + 4]) * 16 + unhex(b[i + 5]) < 32 {
            match parse_str_at(b, i + 6) {
                Some((v, n)) => Some((seq![(unhex(b[i + 4]) * 16 + unhex(b[i + 5])) as u8] + v, n)),
                None => None,
            }
        } else {
            None
        }
    } else if b[i] < 32 {
        None
    } else {
        match parse_str_at(b, i + 1) {
            Some((v, n)) => Some((seq![b[i]] + v, n)),
            None => None,
        }
    }
}

/// True when `lit` stands at position `i` of `b`.
pub open spec fn lit_at(b: Seq<u8>, i: int, lit: Seq<u8>) -> bool {
    0 <= i && i + lit.len() <= b.len() && b.subrange(i, i + lit.len()) == lit
}

/// Parse a history kind name with its closing quote.
pub open spec fn parse_kind_at(b: Seq<u8>, i: int) -> Option<(HistoryKind, int)> {
    if lit_at(b, i, bytes_lit("User\"")) {
        Some((HistoryKind::User, i + 5))
    } else if lit_at(b, i, bytes_lit("Assistant\"")) {
        Some((HistoryKind::Assistant, i + 10))
    } else if lit_at(b, i, bytes_lit("Error\"")) {
        Some((HistoryKind::Error, i + 6))
    } else if lit_at(b, i, bytes_lit("System\"")) {
        Some((HistoryKind::System, i + 7))
    } else if lit_at(b, i, bytes_lit("ToolUse\"")) {
        Some((HistoryKind::ToolUse, i + 8))
    } else if lit_at(b, i, bytes_lit("ToolResult\"")) {
        Some((HistoryKind::ToolResult, i + 11))
    } else {
        None
    }
}

/// Parse one history item starting at its opening brace.
pub open spec fn parse_item_at(b: Seq<u8>, i: int) -> Option<((HistoryKind, Seq<u8>), int)> {
    if !lit_at(b, i, bytes_lit("{\"kind\":\"")) {
        None
    } else {
        match parse_kind_at(b, i + 9) {
            None => None,
            Some((k, j)) => {
                if !lit_at(b, j, bytes_lit(",\"content\":\"")) {
                    None
                } else {
                    match parse_str_at(b, j + 12) {
                        None => None,
                        Some((v, m)) => {
                            if lit_at(b, m, bytes_lit("}")) {
                                Some(((k, v), m + 1))
                            } else {
                                None
                            }
                        },
                    }
                }
            },
        }
    }
}

/// Parse the item list from just inside the opening bracket to just past
/// the closing one.
pub open spec fn parse_items_at(b: Seq<u8>, i: int) -> Option<(Seq<(HistoryKind, Seq<u8>)>, int)>
    decreases b.len() - i,
    when i >= 0
    via parse_items_at_decreases
{
    if i >= b.len() {
        None
    } else if b[i] == 93 {
        Some((Seq::<(HistoryKind, Seq<u8>)>::empty(), i + 1))
    } else {
        match parse_item_at(b, i) {
            None => None,
            Some((it, j)) => {
                if j < b.len() && b[j] == 44 {
                    match parse_items_at(b, j + 1) {
                        None => None,
                        Some((rest, n)) => {
                            if rest.len() == 0 {
                                None
                            } else {
                                Some((seq![it] + rest, n))
                            }
                        },
                    }
                } else if j < b.len() && b[j] == 93 {
                    Some((seq![it], j + 1))
                } else {
                    None
                }
            },
        }
    }
}

#[via_fn]
proof fn parse_items_at_decreases(b: Seq<u8>, i: int) {
    if 0 <= i < b.len() && b[i] != 93 {
        lemma_parse_item_advances(b, i);
    }
}

/// A parsed item consumes at least one byte.
pub proof fn lemma_parse_str_advances(b: Seq<u8>, i: int)
    requires
        0 <= i,
    ensures
        parse_str_at(b, i) matches Some((v, n)) ==> i < n <= b.len(),
    decreases b.len() - i,
{
    if i < b.len() {
        if b[i] == 34 {
        } else if b[i] == 92 {
            if i + 1 < b.len() && (b[i + 1] == 34 || b[i + 1] == 92) {
                lemma_parse_str_advances(b, i + 2);
            } else if i + 5 < b.len() {
                lemma_parse_str_advances(b, i + 6);
            }
        } else if b[i] < 32 {
        } else {
            lemma_parse_str_advances(b, i + 1);
        }
    }
}

pub proof fn lemma_parse_item_advances(b: Seq<u8>, i: int)
    requires
        0 <= i,
    ensures
        parse_item_at(b, i) matches Some((it, n)) ==> i < n <= b.len(),
{
    if parse_item_at(b, i) is Some {
        let (k, j) = parse_kind_at(b, i + 9).unwrap();
        lemma_parse_str_advances(b, j + 12);
        reveal_strlit("}");
        assert(is_ascii_chars("}"@));
        is_ascii_chars_encode_utf8("}"@);
        assert(bytes_lit("}").len() == 1);
    }
}

/// Parse a whole document; anything but the canonical form is refused.
pub open spec fn parse_doc(b: Seq<u8>) -> Option<DocSpec> {
    if !lit_at(b, 0, bytes_lit("{\"session_id\":\"")) {
        None
    } else {
        match parse_str_at(b, 15) {
            None => None,
            Some((sid, i1)) => {
                if !lit_at(b, i1, bytes_lit(",\"current_path\":\"")) {
                    None
                } else {
                    match parse_str_at(b, i1 + 17) {
                        None => None,
                        Some((path, i2)) => {
                            if !lit_at(b, i2, bytes_lit(",\"created_at\":\"")) {
                                None
                            } else {
                                match parse_str_at(b, i2 + 15) {
                                    None => None,
                                    Some((created, i3)) => {
                                        if !lit_at(b, i3, bytes_lit(",\"history\":[")) {
                                            None
                                        } else {
                                            match parse_items_at(b, i3 + 12) {
                                                None => None,
                                                Some((items, i4)) => {
                                                    if lit_at(b, i4, bytes_lit("}")) && i4 + 1
                                                        == b.len() {
                                                        Some(
                                                            DocSpec {
                                                                session_id: sid,
                                                                current_path: path,
                                                                created_at: created,
                                                                history: items,
                                                            },
                                                        )
                                                    } else {
                                                        None
                                                    }
                                                },
                                            }
                                        }
                                    },
                                }
                            }
                        },
                    }
                }
            },
        }
    }
}


/// Escaping distributes over appending one byte.
proof fn lemma_esc_snoc(b: Seq<u8>, c: u8)
    ensures
        esc(b.push(c)) == esc(b) + esc_byte(c),
    decreases b.len(),
{
    if b.len() == 0 {
        assert(b.push(c).drop_first() =~= Seq::<u8>::empty());
        assert(b.push(c)[0] == c);
        assert(esc(Seq::<u8>::empty()) =~= Seq::<u8>::empty());
        assert(esc(b.push(c)) =~= esc_byte(c));
        assert(esc(b) + esc_byte(c) =~= esc_byte(c));
    } else {
        assert(b.push(c).drop_first() =~= b.drop_first().push(c));
        lemma_esc_snoc(b.drop_first(), c);
        assert(esc(b.push(c)) =~= esc(b) + esc_byte(c));
    }
}

/// Append the bytes of an ASCII literal.
fn push_lit(out: &mut Vec<u8>, s: &str)
    ensures
        final(out)@ == old(out)@ + s.spec_bytes(),
{
    let bs = s.as_bytes();
    let n: usize = bs.len();
    let mut i: usize = 0;
    while i < n
        invariant
            0 <= i <= n,
            bs@ == s.spec_bytes(),
            n == s.spec_bytes().len(),
            out@ == old(out)@ + s.spec_bytes().subrange(0, i as int),
        decreases n - i,
    {
        out.push(bs[i]);
        proof {
            assert((old(out)@ + s.spec_bytes().subrange(0, i as int)).push(
                s.spec_bytes()[i as int],
            ) =~= old(out)@ + s.spec_bytes().subrange(0, i + 1));
        }
        i = i + 1;
    }
    proof {
        assert(s.spec_bytes().subrange(0, n as int) =~= s.spec_bytes());
    }
}

/// Append the escaped form of `v`.
fn push_esc(out: &mut Vec<u8>, v: &Vec<u8>)
    ensures
        final(out)@ == old(out)@ + esc(v@),
{
    let n: usize = v.len();
    let mut i: usize = 0;
    proof {
        assert(esc(v@.subrange(0, 0)) =~= Seq::<u8>::empty());
        assert(out@ =~= old(out)@ + esc(v@.subrange(0, 0)));
    }
    while i < n
        invariant
            0 <= i <= n,
            n == v@.len(),
            out@ == old(out)@ + esc(v@.subrange(0, i as int)),
        decreases n - i,
    {
        let ghost pre = v@.subrange(0, i as int);
        let c = v[i];
        if c == 34u8 {
            out.push(92u8);
            out.push(34u8);
        } else if c == 92u8 {
            out.push(92u8);
            out.push(92u8);
        } else if c < 32u8 {
            out.push(92u8);
            out.push(117u8);
            out.push(48u8);
            out.push(48u8);
            let hi = c / 16;
            let lo = c % 16;
            out.push(
                if hi < 10 {
                    48u8 + hi
                } else {
                    87u8 + hi
                },
            );
            out.push(
                if lo < 10 {
                    48u8 + lo
                } else {
                    87u8 + lo
                },
            );
        } else {
            out.push(c);
        }
        proof {
            lemma_esc_snoc(pre, v@[i as int]);
            assert(pre.push(v@[i as int]) =~= v@.subrange(0, i + 1));
            assert(out@ =~= old(out)@ + esc(v@.subrange(0, i + 1)));
        }
        i = i + 1;
    }
    proof {
        assert(v@.subrange(0, n as int) =~= v@);
    }
}

/// One more item on an encoded list: a comma joins it unless the list was
/// empty.
proof fn lemma_enc_items_snoc(items: Seq<(HistoryKind, Seq<u8>)>, it: (HistoryKind, Seq<u8>))
    ensures
        items.len() == 0 ==> enc_items(items.push(it)) == enc_item(it.0, it.1),
        items.len() > 0 ==> enc_items(items.push(it)) == enc_items(items) + bytes_lit(",")
            + enc_item(it.0, it.1),
    decreases items.len(),
{
    let w = items.push(it);
    if items.len() == 0 {
        assert(w.len() == 1);
        assert(w[0] == it);
    } else if items.len() == 1 {
        assert(w.len() == 2);
        assert(w[0] == items[0]);
        assert(w.drop_first() =~= seq![it]);
        assert(enc_items(seq![it]) == enc_item(it.0, it.1));
        assert(enc_items(w) =~= enc_items(items) + bytes_lit(",") + enc_item(it.0, it.1));
    } else {
        assert(w.drop_first() =~= items.drop_first().push(it));
        lemma_enc_items_snoc(items.drop_first(), it);
        assert(w[0] == items[0]);
        assert(enc_items(w) == enc_item(w[0].0, w[0].1) + bytes_lit(",") + enc_items(
            w.drop_first(),
        ));
        assert(enc_items(w) =~= enc_items(items) + bytes_lit(",") + enc_item(it.0, it.1));
    }
}

/// Append the encoding of one item.
fn push_item(out: &mut Vec<u8>, it: &DocItem)
    ensures
        final(out)@ == old(out)@ + enc_item(it.kind, it.content@),
{
    push_lit(out, "{\"kind\":\"");
    proof {
        reveal_strlit("{\"kind\":\"");
    }
    match it.kind {
        HistoryKind::User => push_lit(out, "User"),
        HistoryKind::Assistant => push_lit(out, "Assistant"),
        HistoryKind::Error => push_lit(out, "Error"),
        HistoryKind::System => push_lit(out, "System"),
        HistoryKind::ToolUse => push_lit(out, "ToolUse"),
        HistoryKind::ToolResult => push_lit(out, "ToolResult"),
    }
    out.push(34u8);
    push_lit(out, ",\"content\":\"");
    push_esc(out, &it.content);
    out.push(34u8);
    push_lit(out, "}");
    proof {
        assert(out@ =~= old(out)@ + enc_item(it.kind, it.content@));
    }
}

/// Encode a session document into its canonical byte form.
#[verifier::rlimit(100)]
#[verifier::spinoff_prover]
pub fn encode_session(d: &SessionDoc) -> (r: Vec<u8>)
    ensures
        r@ == enc_doc(d.view_spec()),
{
    let mut out: Vec<u8> = Vec::new();
    push_lit(&mut out, "{\"session_id\":\"");
    push_esc(&mut out, &d.session_id);
    out.push(34u8);
    push_lit(&mut out, ",\"current_path\":\"");
    push_esc(&mut out, &d.current_path);
    out.push(34u8);
    push_lit(&mut out, ",\"created_at\":\"");
    push_esc(&mut out, &d.created_at);
    out.push(34u8);
    push_lit(&mut out, ",\"history\":[");
    let ghost hist = d.view_spec().history;
    let ghost base = out@;
    let n = d.history.len();
    let mut i: usize = 0;
    proof {
        assert(hist.subrange(0, 0) =~= Seq::<(HistoryKind, Seq<u8>)>::empty());
        assert(out@ =~= base + enc_items(hist.subrange(0, 0)));
    }
    while i < n
        invariant
            0 <= i <= n,
            n == d.history@.len(),
            hist == d.view_spec().history,
            hist.len() == n,
            out@ == base + enc_items(hist.subrange(0, i as int)),
        decreases n - i,
    {
        let ghost pre = hist.subrange(0, i as int);
        if i > 0 {
            push_lit(&mut out, ",");
        }
        push_item(&mut out, &d.history[i]);
        proof {
            assert(hist[i as int] == (d.history@[i as int].kind, d.history@[i as int].content@));
            lemma_enc_items_snoc(pre, hist[i as int]);
            assert(pre.push(hist[i as int]) =~= hist.subrange(0, i + 1));
            if i == 0 {
                assert(pre.len() == 0);
                assert(enc_items(pre) =~= Seq::<u8>::empty());
            }
            assert(out@ =~= base + enc_items(hist.subrange(0, i + 1)));
        }
        i = i + 1;
    }
    out.push(93u8);
    push_lit(&mut out, "}");
    proof {
        assert(hist.subrange(0, n as int) =~= hist);
        assert(out@ =~= enc_doc(d.view_spec()));
    }
    out
}


/// `unhex` inverts `hex_digit` on digit values.
proof fn lemma_unhex_hex(d: u8)
    requires
        d < 16,
    ensures
        unhex(hex_digit(d)) == d,
{
}

/// Parsing a string body over an escaped value followed by a quote yields
/// the value back, the cursor just past the quote.
proof fn lemma_parse_esc(b: Seq<u8>, i: int, v: Seq<u8>)
    requires
        0 <= i,
        i + esc(v).len() < b.len(),
        b.subrange(i, i + esc(v).len()) == esc(v),
        b[i + esc(v).len()] == 34,
    ensures
        parse_str_at(b, i) == Some((v, i + esc(v).len() + 1)),
    decreases v.len(),
{
    if v.len() == 0 {
        assert(esc(v) =~= Seq::<u8>::empty());
        assert(b[i] == 34);
        assert(v =~= Seq::<u8>::empty());
    } else {
        let c = v[0];
        let w = v.drop_first();
        let e0 = esc_byte(c);
        let ew = esc(w);
        assert(esc(v) == e0 + ew);
        assert(forall|k: int| 0 <= k < esc(v).len() ==> b[i + k] == #[trigger] esc(v)[k]) by {
            assert(forall|k: int|
                0 <= k < esc(v).len() ==> b.subrange(i, i + esc(v).len())[k] == #[trigger] esc(
                    v,
                )[k]);
        }
        let i2 = i + e0.len();
        assert(b.subrange(i2, i2 + ew.len()) =~= ew) by {
            assert(forall|k: int| 0 <= k < ew.len() ==> esc(v)[e0.len() + k] == #[trigger] ew[k]);
        }
        assert(forall|k: int| 0 <= k < e0.len() ==> b[i + k] == #[trigger] e0[k]) by {
            assert(forall|k: int| 0 <= k < e0.len() ==> #[trigger] e0[k] == esc(v)[k]);
        }
        assert(b[i2 + ew.len()] == 34);
        lemma_parse_esc(b, i2, w);
        assert(v =~= seq![c] + w);
        if c == 34 {
            assert(b[i] == 92 && b[i + 1] == 34);
            assert(seq![b[i + 1]] + w =~= v);
        } else if c == 92 {
            assert(b[i] == 92 && b[i + 1] == 92);
            assert(seq![b[i + 1]] + w =~= v);
        } else if c < 32 {
            assert(b[i] == 92 && b[i + 1] == 117 && b[i + 2] == 48 && b[i + 3] == 48);
            assert(b[i + 4] == hex_digit(c / 16) && b[i + 5] == hex_digit(c % 16));
            lemma_unhex_hex(c / 16);
            lemma_unhex_hex(c % 16);
            assert(unhex(b[i + 4]) * 16 + unhex(b[i + 5]) == c);
            assert(seq![(unhex(b[i + 4]) * 16 + unhex(b[i + 5])) as u8] + w =~= v);
        } else {
            assert(b[i] == c);
            assert(c != 34 && c != 92 && c >= 32);
            assert(seq![b[i]] + w =~= v);
        }
    }
}

/// Byte lengths and leading bytes of the encoding's fixed pieces.
proof fn lemma_lit_facts()
    ensures
        bytes_lit("{\"session_id\":\"").len() == 15,
        bytes_lit(",\"current_path\":\"").len() == 17,
        bytes_lit(",\"created_at\":\"").len() == 15,
        bytes_lit(",\"history\":[").len() == 12,
        bytes_lit("{\"kind\":\"").len() == 9,
        bytes_lit(",\"content\":\"").len() == 12,
        bytes_lit("}").len() == 1,
        bytes_lit(",").len() == 1,
        bytes_lit("{\"kind\":\"")[0] == 123,
        bytes_lit(",")[0] == 44,
        bytes_lit("}")[0] == 125,
{
    reveal_strlit("{\"session_id\":\"");
    reveal_strlit(",\"current_path\":\"");
    reveal_strlit(",\"created_at\":\"");
    reveal_strlit(",\"history\":[");
    reveal_strlit("{\"kind\":\"");
    reveal_strlit(",\"content\":\"");
    reveal_strlit("}");
    reveal_strlit(",");
    assert(is_ascii_chars("{\"session_id\":\""@));
    is_ascii_chars_encode_utf8("{\"session_id\":\""@);
    assert(is_ascii_chars(",\"current_path\":\""@));
    is_ascii_chars_encode_utf8(",\"current_path\":\""@);
    assert(is_ascii_chars(",\"created_at\":\""@));
    is_ascii_chars_encode_utf8(",\"created_at\":\""@);
    assert(is_ascii_chars(",\"history\":["@));
    is_ascii_chars_encode_utf8(",\"history\":["@);
    assert(is_ascii_chars("{\"kind\":\""@));
    is_ascii_chars_encode_utf8("{\"kind\":\""@);
    assert(is_ascii_chars(",\"content\":\""@));
    is_ascii_chars_encode_utf8(",\"content\":\""@);
    assert(is_ascii_chars("}"@));
    is_ascii_chars_encode_utf8("}"@);
    assert(is_ascii_chars(","@));
    is_ascii_chars_encode_utf8(","@);
}

/// Byte lengths and distinguishing bytes of the kind names.
proof fn lemma_kind_facts()
    ensures
        bytes_lit("User").len() == 4,
        bytes_lit("Assistant").len() == 9,
        bytes_lit("Error").len() == 5,
        bytes_lit("System").len() == 6,
        bytes_lit("ToolUse").len() == 7,
        bytes_lit("ToolResult").len() == 10,
        bytes_lit("User")[0] == 85,
        bytes_lit("Assistant")[0] == 65,
        bytes_lit("Error")[0] == 69,
        bytes_lit("System")[0] == 83,
        bytes_lit("ToolUse")[0] == 84,
        bytes_lit("ToolResult")[0] == 84,
        bytes_lit("ToolUse")[4] == 85,
        bytes_lit("ToolResult")[4] == 82,
        bytes_lit("User\"").len() == 5,
        bytes_lit("Assistant\"").len() == 10,
        bytes_lit("Error\"").len() == 6,
        bytes_lit("System\"").len() == 7,
        bytes_lit("ToolUse\"").len() == 8,
        bytes_lit("ToolResult\"").len() == 11,
        bytes_lit("User\"") == bytes_lit("User") + quote(),
        bytes_lit("Assistant\"") == bytes_lit("Assistant") + quote(),
        bytes_lit("Error\"") == bytes_lit("Error") + quote(),
        bytes_lit("System\"") == bytes_lit("System") + quote(),
        bytes_lit("ToolUse\"") == bytes_lit("ToolUse") + quote(),
        bytes_lit("ToolResult\"") == bytes_lit("ToolResult") + quote(),
        bytes_lit("User\"")[0] == 85,
        bytes_lit("Assistant\"")[0] == 65,
        bytes_lit("Error\"")[0] == 69,
        bytes_lit("System\"")[0] == 83,
        bytes_lit("ToolUse\"")[0] == 84,
        bytes_lit("ToolResult\"")[0] == 84,
        bytes_lit("ToolUse\"")[4] == 85,
        bytes_lit("ToolResult\"")[4] == 82,
{
    reveal_strlit("User");
    reveal_strlit("Assistant");
    reveal_strlit("Error");
    reveal_strlit("System");
    reveal_strlit("ToolUse");
    reveal_strlit("ToolResult");
    reveal_strlit("User\"");
    reveal_strlit("Assistant\"");
    reveal_strlit("Error\"");
    reveal_strlit("System\"");
    reveal_strlit("ToolUse\"");
    reveal_strlit("ToolResult\"");
    assert(is_ascii_chars("User"@));
    is_ascii_chars_encode_utf8("User"@);
    assert(is_ascii_chars("Assistant"@));
    is_ascii_chars_encode_utf8("Assistant"@);
    assert(is_ascii_chars("Error"@));
    is_ascii_chars_encode_utf8("Error"@);
    assert(is_ascii_chars("System"@));
    is_ascii_chars_encode_utf8("System"@);
    assert(is_ascii_chars("ToolUse"@));
    is_ascii_chars_encode_utf8("ToolUse"@);
    assert(is_ascii_chars("ToolResult"@));
    is_ascii_chars_encode_utf8("ToolResult"@);
    assert(is_ascii_chars("User\""@));
    is_ascii_chars_encode_utf8("User\""@);
    assert(is_ascii_chars("Assistant\""@));
    is_ascii_chars_encode_utf8("Assistant\""@);
    assert(is_ascii_chars("Error\""@));
    is_ascii_chars_encode_utf8("Error\""@);
    assert(is_ascii_chars("System\""@));
    is_ascii_chars_encode_utf8("System\""@);
    assert(is_ascii_chars("ToolUse\""@));
    is_ascii_chars_encode_utf8("ToolUse\""@);
    assert(is_ascii_chars("ToolResult\""@));
    is_ascii_chars_encode_utf8("ToolResult\""@);
    assert(bytes_lit("User\"") =~= bytes_lit("User") + quote());
    assert(bytes_lit("Assistant\"") =~= bytes_lit("Assistant") + quote());
    assert(bytes_lit("Error\"") =~= bytes_lit("Error") + quote());
    assert(bytes_lit("System\"") =~= bytes_lit("System") + quote());
    assert(bytes_lit("ToolUse\"") =~= bytes_lit("ToolUse") + quote());
    assert(bytes_lit("ToolResult\"") =~= bytes_lit("ToolResult") + quote());
}

/// Parsing a kind over an encoded kind name plus quote yields that kind.
#[verifier::rlimit(60)]
proof fn lemma_parse_kind_enc(b: Seq<u8>, i: int, k: HistoryKind)
    requires
        0 <= i,
        i + kind_name(k).len() < b.len(),
        b.subrange(i, i + kind_name(k).len()) == kind_name(k),
        b[i + kind_name(k).len()] == 34,
    ensures
        parse_kind_at(b, i) == Some((k, i + kind_name(k).len() + 1)),
{
    lemma_kind_facts();
    let n = kind_name(k).len() as int;
    assert(forall|q: int| 0 <= q < n ==> b[i + q] == #[trigger] kind_name(k)[q]) by {
        assert(forall|q: int|
            0 <= q < n ==> b.subrange(i, i + n)[q] == #[trigger] kind_name(k)[q]);
    }
    assert(lit_at(b, i, kind_name(k) + quote())) by {
        assert(b.subrange(i, i + n + 1) =~= kind_name(k) + quote());
    }
    match k {
        HistoryKind::User => {
        },
        HistoryKind::Assistant => {
            assert(!lit_at(b, i, bytes_lit("User\""))) by {
                if lit_at(b, i, bytes_lit("User\"")) {
                    assert(b.subrange(i, i + 5)[0] == bytes_lit("User\"")[0]);
                }
            }
        },
        HistoryKind::Error => {
            assert(!lit_at(b, i, bytes_lit("User\""))) by {
                if lit_at(b, i, bytes_lit("User\"")) {
                    assert(b.subrange(i, i + 5)[0] == bytes_lit("User\"")[0]);
                }
            }
            assert(!lit_at(b, i, bytes_lit("Assistant\""))) by {
                if lit_at(b, i, bytes_lit("Assistant\"")) {
                    assert(b.subrange(i, i + 10)[0] == bytes_lit("Assistant\"")[0]);
                }
            }
        },
        HistoryKind::System => {
            assert(!lit_at(b, i, bytes_lit("User\""))) by {
                if lit_at(b, i, bytes_lit("User\"")) {
                    assert(b.subrange(i, i + 5)[0] == bytes_lit("User\"")[0]);
                }
            }
            assert(!lit_at(b, i, bytes_lit("Assistant\""))) by {
                if lit_at(b, i, bytes_lit("Assistant\"")) {
                    assert(b.subrange(i, i + 10)[0] == bytes_lit("Assistant\"")[0]);
                }
            }
            assert(!lit_at(b, i, bytes_lit("Error\""))) by {
                if lit_at(b, i, bytes_lit("Error\"")) {
                    assert(b.subrange(i, i + 6)[0] == bytes_lit("Error\"")[0]);
                }
            }
        },
        HistoryKind::ToolUse => {
            assert(!lit_at(b, i, bytes_lit("User\""))) by {
                if lit_at(b, i, bytes_lit("User\"")) {
                    assert(b.subrange(i, i + 5)[0] == bytes_lit("User\"")[0]);
                }
            }
            assert(!lit_at(b, i, bytes_lit("Assistant\""))) by {
                if lit_at(b, i, bytes_lit("Assistant\"")) {
                    assert(b.subrange(i, i + 10)[0] == bytes_lit("Assistant\"")[0]);
                }
            }
            assert(!lit_at(b, i, bytes_lit("Error\""))) by {
                if lit_at(b, i, bytes_lit("Error\"")) {
                    assert(b.subrange(i, i + 6)[0] == bytes_lit("Error\"")[0]);
                }
            }
            assert(!lit_at(b, i, bytes_lit("System\""))) by {
                if lit_at(b, i, bytes_lit("System\"")) {
                    assert(b.subrange(i, i + 7)[0] == bytes_lit("System\"")[0]);
                }
            }
        },
        HistoryKind::ToolResult => {
            assert(!lit_at(b, i, bytes_lit("User\""))) by {
                if lit_at(b, i, bytes_lit("User\"")) {
                    assert(b.subrange(i, i + 5)[0] == bytes_lit("User\"")[0]);
                }
            }
            assert(!lit_at(b, i, bytes_lit("Assistant\""))) by {
                if lit_at(b, i, bytes_lit("Assistant\"")) {
                    assert(b.subrange(i, i + 10)[0] == bytes_lit("Assistant\"")[0]);
                }
            }
            assert(!lit_at(b, i, bytes_lit("Error\""))) by {
                if lit_at(b, i, bytes_lit("Error\"")) {
                    assert(b.subrange(i, i + 6)[0] == bytes_lit("Error\"")[0]);
                }
            }
            assert(!lit_at(b, i, bytes_lit("System\""))) by {
                if lit_at(b, i, bytes_lit("System\"")) {
                    assert(b.subrange(i, i + 7)[0] == bytes_lit("System\"")[0]);
                }
            }
            assert(!lit_at(b, i, bytes_lit("ToolUse\""))) by {
                if lit_at(b, i, bytes_lit("ToolUse\"")) {
                    assert(b.subrange(i, i + 8)[4] == bytes_lit("ToolUse\"")[4]);
                }
            }
        },
    }
}



/// A segment of a concatenation, read through a window of `b` that holds
/// the whole concatenation.
proof fn lemma_concat_seg(b: Seq<u8>, i: int, whole: Seq<u8>, pre: Seq<u8>, seg: Seq<u8>, post: Seq<u8>)
    requires
        0 <= i,
        whole == pre + seg + post,
        i + whole.len() <= b.len(),
        b.subrange(i, i + whole.len() as int) == whole,
    ensures
        b.subrange(i + pre.len(), i + pre.len() + seg.len()) == seg,
    decreases 0int,
{
    let pl = pre.len() as int;
    let sl = seg.len() as int;
    assert forall|q: int|
        0 <= q < sl implies b.subrange(i + pl, i + pl + sl)[q] == seg[q] by {
        let w = pl + q;
        assert(b.subrange(i, i + whole.len() as int)[w] == whole[w]);
        assert(whole[w] == (pre + seg + post)[w]);
        assert((pre + seg + post)[w] == (pre + seg)[w]);
        assert((pre + seg)[w] == seg[w - pl]);
        assert(b.subrange(i + pl, i + pl + sl)[q] == b[i + pl + q]);
        assert(b.subrange(i, i + whole.len() as int)[w] == b[i + w]);
    }
    assert(b.subrange(i + pl, i + pl + sl) =~= seg);
}

/// Parsing one item over its encoding yields it back.
#[verifier::rlimit(100)]
proof fn lemma_parse_item_enc(b: Seq<u8>, i: int, k: HistoryKind, content: Seq<u8>)
    requires
        0 <= i,
        i + enc_item(k, content).len() <= b.len(),
        b.subrange(i, i + enc_item(k, content).len()) == enc_item(k, content),
    ensures
        parse_item_at(b, i) == Some(((k, content), i + enc_item(k, content).len())),
{
    lemma_lit_facts();
    lemma_kind_facts();
    let a1 = bytes_lit("{\"kind\":\"");
    let name = kind_name(k);
    let key2 = bytes_lit(",\"content\":\"");
    let ec = esc(content);
    let rb = bytes_lit("}");
    let e = enc_item(k, content);
    let nl = name.len() as int;
    let el = ec.len() as int;
    assert(e == a1 + name + quote() + key2 + ec + quote() + rb);
    // the fixed opening
    assert(e =~= Seq::<u8>::empty() + a1 + (name + quote() + key2 + ec + quote() + rb));
    lemma_concat_seg(b, i, e, Seq::<u8>::empty(), a1, name + quote() + key2 + ec + quote() + rb);
    assert(lit_at(b, i, a1));
    // the kind name and its closing quote
    assert(e =~= a1 + name + (quote() + key2 + ec + quote() + rb));
    lemma_concat_seg(b, i, e, a1, name, quote() + key2 + ec + quote() + rb);
    assert(e =~= (a1 + name) + quote() + (key2 + ec + quote() + rb));
    lemma_concat_seg(b, i, e, a1 + name, quote(), key2 + ec + quote() + rb);
    assert(b[i + 9 + nl] == 34) by {
        assert(b.subrange(i + 9 + nl, i + 9 + nl + 1)[0] == quote()[0]);
    }
    lemma_parse_kind_enc(b, i + 9, k);
    let j = i + 9 + nl + 1;
    // the content key
    assert(e =~= (a1 + name + quote()) + key2 + (ec + quote() + rb));
    lemma_concat_seg(b, i, e, a1 + name + quote(), key2, ec + quote() + rb);
    assert(lit_at(b, j, key2));
    // the escaped content and its closing quote
    assert(e =~= (a1 + name + quote() + key2) + ec + (quote() + rb));
    lemma_concat_seg(b, i, e, a1 + name + quote() + key2, ec, quote() + rb);
    assert(b.subrange(j + 12, j + 12 + el) == ec);
    assert(e =~= (a1 + name + quote() + key2 + ec) + quote() + rb);
    lemma_concat_seg(b, i, e, a1 + name + quote() + key2 + ec, quote(), rb);
    assert(b[j + 12 + el] == 34) by {
        assert(b.subrange(j + 12 + el, j + 12 + el + 1)[0] == quote()[0]);
    }
    assert(j + 12 + el < b.len());
    lemma_parse_esc(b, j + 12, content);
    let m = j + 12 + el + 1;
    assert(e =~= (a1 + name + quote() + key2 + ec + quote()) + rb + Seq::<u8>::empty());
    lemma_concat_seg(b, i, e, a1 + name + quote() + key2 + ec + quote(), rb, Seq::<u8>::empty());
    assert(lit_at(b, m, rb));
    assert(m + 1 == i + e.len());
}

/// Parsing the item list over its encoding (the closing bracket following)
/// yields the items back.
#[verifier::rlimit(100)]
proof fn lemma_parse_items_enc(b: Seq<u8>, i: int, items: Seq<(HistoryKind, Seq<u8>)>)
    requires
        0 <= i,
        i + enc_items(items).len() < b.len(),
        b.subrange(i, i + enc_items(items).len()) == enc_items(items),
        b[i + enc_items(items).len()] == 93,
    ensures
        parse_items_at(b, i) == Some((items, i + enc_items(items).len() + 1)),
    decreases items.len(),
{
    lemma_lit_facts();
    if items.len() == 0 {
        assert(enc_items(items) =~= Seq::<u8>::empty());
        assert(b[i] == 93);
        assert(items =~= Seq::<(HistoryKind, Seq<u8>)>::empty());
    } else {
        let it = items[0];
        let fe = enc_item(it.0, it.1);
        assert(forall|q: int|
            0 <= q < enc_items(items).len() ==> b[i + q] == #[trigger] enc_items(items)[q]) by {
            assert(forall|q: int|
                0 <= q < enc_items(items).len() ==> b.subrange(
                    i,
                    i + enc_items(items).len() as int,
                )[q] == #[trigger] enc_items(items)[q]);
        }
        assert(fe[0] == 123) by {
            assert(fe == bytes_lit("{\"kind\":\"") + kind_name(it.0) + quote() + bytes_lit(
                ",\"content\":\"",
            ) + esc(it.1) + quote() + bytes_lit("}"));
        }
        if items.len() == 1 {
            assert(enc_items(items) == fe);
            assert(b.subrange(i, i + fe.len() as int) =~= fe);
            lemma_parse_item_enc(b, i, it.0, it.1);
            let j = i + fe.len() as int;
            assert(b[i] == fe[0]) by {
                assert(b.subrange(i, i + fe.len() as int)[0] == fe[0]);
            }
            assert(b[i] != 93);
            assert(b[j] == 93);
            assert(seq![it] =~= items);
        } else {
            let rest = items.drop_first();
            let re = enc_items(rest);
            assert(enc_items(items) == fe + bytes_lit(",") + re);
            let j = i + fe.len() as int;
            let whole = enc_items(items);
            assert(whole =~= Seq::<u8>::empty() + fe + (bytes_lit(",") + re));
            lemma_concat_seg(b, i, whole, Seq::<u8>::empty(), fe, bytes_lit(",") + re);
            assert(b.subrange(i, j) == fe) by {
                assert(b.subrange(i + 0, i + fe.len() as int) == fe);
            }
            lemma_parse_item_enc(b, i, it.0, it.1);
            assert(b[i] == fe[0]) by {
                assert(b.subrange(i, j)[0] == fe[0]);
            }
            assert(b[i] != 93);
            assert(whole =~= fe + bytes_lit(",") + re);
            lemma_concat_seg(b, i, whole, fe, bytes_lit(","), re);
            assert(b[j] == 44) by {
                assert(b.subrange(j, j + 1)[0] == bytes_lit(",")[0]);
            }
            assert(whole =~= (fe + bytes_lit(",")) + re + Seq::<u8>::empty());
            lemma_concat_seg(b, i, whole, fe + bytes_lit(","), re, Seq::<u8>::empty());
            assert(b.subrange(j + 1, j + 1 + re.len() as int) == re);
            assert(b[j + 1 + re.len()] == 93);
            lemma_parse_items_enc(b, j + 1, rest);
            assert(rest.len() > 0);
            assert(seq![it] + rest =~= items);
        }
    }
}

/// Peel the head off a concatenation seen through a window of `b`.
proof fn lemma_peel(b: Seq<u8>, i: int, whole: Seq<u8>, head: Seq<u8>, tail: Seq<u8>)
    requires
        0 <= i,
        whole == head + tail,
        i + whole.len() <= b.len(),
        b.subrange(i, i + whole.len() as int) == whole,
    ensures
        b.subrange(i, i + head.len() as int) == head,
        b.subrange(i + head.len(), i + whole.len() as int) == tail,
{
    let hl = head.len() as int;
    let wl = whole.len() as int;
    assert forall|q: int| 0 <= q < hl implies b.subrange(i, i + hl)[q] == head[q] by {
        assert(b.subrange(i, i + wl)[q] == whole[q]);
        assert(whole[q] == (head + tail)[q]);
        assert(b.subrange(i, i + hl)[q] == b[i + q]);
        assert(b.subrange(i, i + wl)[q] == b[i + q]);
    }
    assert(b.subrange(i, i + hl) =~= head);
    assert forall|q: int| 0 <= q < tail.len() implies b.subrange(i + hl, i + wl)[q] == tail[q] by {
        let w = hl + q;
        assert(b.subrange(i, i + wl)[w] == whole[w]);
        assert(whole[w] == (head + tail)[w]);
        assert(b.subrange(i + hl, i + wl)[q] == b[i + hl + q]);
        assert(b.subrange(i, i + wl)[w] == b[i + w]);
    }
    assert(b.subrange(i + hl, i + wl) =~= tail);
}

/// The leading half of an encoded document parses back: key, session id,
/// key, path; the rest of the text follows as one suffix.
#[verifier::rlimit(100)]
#[verifier::spinoff_prover]
proof fn lemma_round_trip_half(d: DocSpec)
    ensures
        ({
            let b = enc_doc(d);
            let s1 = esc(d.session_id).len() as int;
            let s2 = esc(d.current_path).len() as int;
            let i1 = 15 + s1 + 1;
            let i2 = i1 + 17 + s2 + 1;
            &&& lit_at(b, 0, bytes_lit("{\"session_id\":\""))
            &&& parse_str_at(b, 15) == Some((d.session_id, i1))
            &&& lit_at(b, i1, bytes_lit(",\"current_path\":\""))
            &&& parse_str_at(b, i1 + 17) == Some((d.current_path, i2))
            &&& i2 <= b.len()
            &&& b.subrange(i2, b.len() as int) == bytes_lit(",\"created_at\":\"") + (esc(
                d.created_at,
            ) + (quote() + (bytes_lit(",\"history\":[") + (enc_items(d.history) + (seq![93u8]
                + bytes_lit("}"))))))
        }),
{
    lemma_lit_facts();
    let b = enc_doc(d);
    let l1 = bytes_lit("{\"session_id\":\"");
    let l2 = bytes_lit(",\"current_path\":\"");
    let l3 = bytes_lit(",\"created_at\":\"");
    let l4 = bytes_lit(",\"history\":[");
    let rb = bytes_lit("}");
    let e1 = esc(d.session_id);
    let e2 = esc(d.current_path);
    let e3 = esc(d.created_at);
    let hi = enc_items(d.history);
    let s1 = e1.len() as int;
    let s2 = e2.len() as int;
    let r12 = rb;
    let r11 = seq![93u8] + r12;
    let r10 = hi + r11;
    let r9 = l4 + r10;
    let r8 = quote() + r9;
    let r7 = e3 + r8;
    let r6 = l3 + r7;
    let r5 = quote() + r6;
    let r4 = e2 + r5;
    let r3 = l2 + r4;
    let r2 = quote() + r3;
    let r1 = e1 + r2;
    let r0 = l1 + r1;
    assert(b == r0);
    assert(b.subrange(0, b.len() as int) =~= b);
    lemma_peel(b, 0, r0, l1, r1);
    assert(lit_at(b, 0, l1));
    lemma_peel(b, 15, r1, e1, r2);
    lemma_peel(b, 15 + s1, r2, quote(), r3);
    assert(b[15 + s1] == 34) by {
        assert(b.subrange(15 + s1, 15 + s1 + 1)[0] == quote()[0]);
    }
    lemma_parse_esc(b, 15, d.session_id);
    let i1 = 15 + s1 + 1;
    lemma_peel(b, i1, r3, l2, r4);
    assert(lit_at(b, i1, l2));
    lemma_peel(b, i1 + 17, r4, e2, r5);
    lemma_peel(b, i1 + 17 + s2, r5, quote(), r6);
    assert(b[i1 + 17 + s2] == 34) by {
        assert(b.subrange(i1 + 17 + s2, i1 + 17 + s2 + 1)[0] == quote()[0]);
    }
    lemma_parse_esc(b, i1 + 17, d.current_path);
}

/// The string fields of an encoded document parse back, leaving the cursor
/// at the history bracket.
#[verifier::rlimit(100)]
#[verifier::spinoff_prover]
proof fn lemma_round_trip_head(d: DocSpec)
    ensures
        ({
            let b = enc_doc(d);
            let s1 = esc(d.session_id).len() as int;
            let s2 = esc(d.current_path).len() as int;
            let s3 = esc(d.created_at).len() as int;
            let i1 = 15 + s1 + 1;
            let i2 = i1 + 17 + s2 + 1;
            let i3 = i2 + 15 + s3 + 1;
            &&& lit_at(b, 0, bytes_lit("{\"session_id\":\""))
            &&& parse_str_at(b, 15) == Some((d.session_id, i1))
            &&& lit_at(b, i1, bytes_lit(",\"current_path\":\""))
            &&& parse_str_at(b, i1 + 17) == Some((d.current_path, i2))
            &&& lit_at(b, i2, bytes_lit(",\"created_at\":\""))
            &&& parse_str_at(b, i2 + 15) == Some((d.created_at, i3))
            &&& lit_at(b, i3, bytes_lit(",\"history\":["))
            &&& b.subrange(i3 + 12, i3 + 12 + enc_items(d.history).len() as int) == enc_items(
                d.history,
            )
            &&& b[i3 + 12 + enc_items(d.history).len()] == 93
            &&& lit_at(b, i3 + 12 + enc_items(d.history).len() + 1, bytes_lit("}"))
            &&& i3 + 12 + enc_items(d.history).len() + 2 == b.len()
        }),
{
    lemma_lit_facts();
    lemma_round_trip_half(d);
    let b = enc_doc(d);
    let l3 = bytes_lit(",\"created_at\":\"");
    let l4 = bytes_lit(",\"history\":[");
    let rb = bytes_lit("}");
    let e3 = esc(d.created_at);
    let hi = enc_items(d.history);
    let s1 = esc(d.session_id).len() as int;
    let s2 = esc(d.current_path).len() as int;
    let s3 = e3.len() as int;
    let s4 = hi.len() as int;
    let i1 = 15 + s1 + 1;
    let i2 = i1 + 17 + s2 + 1;
    let r12 = rb;
    let r11 = seq![93u8] + r12;
    let r10 = hi + r11;
    let r9 = l4 + r10;
    let r8 = quote() + r9;
    let r7 = e3 + r8;
    let r6 = l3 + r7;
    assert(b.subrange(i2, i2 + r6.len() as int) == r6);
    lemma_peel(b, i2, r6, l3, r7);
    assert(lit_at(b, i2, l3));
    lemma_peel(b, i2 + 15, r7, e3, r8);
    lemma_peel(b, i2 + 15 + s3, r8, quote(), r9);
    assert(b[i2 + 15 + s3] == 34) by {
        assert(b.subrange(i2 + 15 + s3, i2 + 15 + s3 + 1)[0] == quote()[0]);
    }
    lemma_parse_esc(b, i2 + 15, d.created_at);
    let i3 = i2 + 15 + s3 + 1;
    lemma_peel(b, i3, r9, l4, r10);
    assert(lit_at(b, i3, l4));
    lemma_peel(b, i3 + 12, r10, hi, r11);
    lemma_peel(b, i3 + 12 + s4, r11, seq![93u8], r12);
    assert(b[i3 + 12 + s4] == 93) by {
        assert(b.subrange(i3 + 12 + s4, i3 + 12 + s4 + 1)[0] == seq![93u8][0]);
    }
    assert(lit_at(b, i3 + 12 + s4 + 1, rb));
}

/// Decoding a document's canonical encoding returns the document unchanged:
/// a persisted session restores exactly.
#[verifier::rlimit(100)]
#[verifier::spinoff_prover]
pub proof fn lemma_session_round_trip(d: DocSpec)
    ensures
        parse_doc(enc_doc(d)) == Some(d),
{
    lemma_lit_facts();
    lemma_round_trip_head(d);
    let b = enc_doc(d);
    let s1 = esc(d.session_id).len() as int;
    let s2 = esc(d.current_path).len() as int;
    let s3 = esc(d.created_at).len() as int;
    let s4 = enc_items(d.history).len() as int;
    let i1 = 15 + s1 + 1;
    let i2 = i1 + 17 + s2 + 1;
    let i3 = i2 + 15 + s3 + 1;
    lemma_parse_items_enc(b, i3 + 12, d.history);
    let i4 = i3 + 12 + s4 + 1;
    assert(parse_doc(b) == Some(
        DocSpec {
            session_id: d.session_id,
            current_path: d.current_path,
            created_at: d.created_at,
            history: d.history,
        },
    ));
    assert(DocSpec {
        session_id: d.session_id,
        current_path: d.current_path,
        created_at: d.created_at,
        history: d.history,
    } == d);
}

/// Numeric value of a lowercase hex digit byte.
fn unhex_exec(c: u8) -> (r: u8)
    ensures
        r == unhex(c),
{
    if 48u8 <= c && c <= 57u8 {
        c - 48
    } else if 97u8 <= c && c <= 102u8 {
        c - 87
    } else {
        16
    }
}

/// Whether `lit` stands at position `i`.
fn match_lit(b: &Vec<u8>, i: usize, lit: &str) -> (r: bool)
    ensures
        r == lit_at(b@, i as int, lit.spec_bytes()),
{
    let lb = lit.as_bytes();
    let ll: usize = lb.len();
    let n: usize = b.len();
    if ll > n || i > n - ll {
        proof {
            assert(!(i + lit.spec_bytes().len() <= b@.len()));
        }
        return false;
    }
    let mut q: usize = 0;
    while q < ll
        invariant
            0 <= q <= ll,
            lb@ == lit.spec_bytes(),
            ll == lit.spec_bytes().len(),
            i + ll <= b@.len(),
            n == b@.len(),
            forall|k: int| 0 <= k < q ==> b@[i + k] == lit.spec_bytes()[k],
        decreases ll - q,
    {
        if b[i + q] != lb[q] {
            proof {
                if lit_at(b@, i as int, lit.spec_bytes()) {
                    assert(b@.subrange(i as int, i + ll) =~= lit.spec_bytes());
                    assert(b@.subrange(i as int, i + ll)[q as int] == b@[i + q]);
                }
            }
            return false;
        }
        q = q + 1;
    }
    proof {
        assert(b@.subrange(i as int, i + ll) =~= lit.spec_bytes());
    }
    true
}

/// Parse a string body: the decoded bytes and the position past the closing
/// quote.
#[verifier::loop_isolation(false)]
#[verifier::rlimit(60)]
fn parse_string_exec(b: &Vec<u8>, start: usize) -> (r: Option<(Vec<u8>, usize)>)
    ensures
        r matches Some((v, n)) ==> parse_str_at(b@, start as int) == Some((v@, n as int)) && n
            <= b@.len(),
        r is None ==> parse_str_at(b@, start as int) is None,
{
    let n: usize = b.len();
    if start >= n {
        return None;
    }
    let mut out: Vec<u8> = Vec::new();
    let mut j: usize = start;
    proof {
        assert(out@ + Seq::<u8>::empty() =~= out@);
    }
    loop
        invariant
            start <= j,
            0 <= j <= n,
            n == b@.len(),
            parse_str_at(b@, start as int) == (match parse_str_at(b@, j as int) {
                Some((v, m)) => Some((out@ + v, m)),
                None => None,
            }),
        decreases n - j,
    {
        if j >= n {
            return None;
        }
        let c = b[j];
        if c == 34u8 {
            proof {
                assert(out@ + Seq::<u8>::empty() =~= out@);
            }
            return Some((out, j + 1));
        }
        if c == 92u8 {
            if n - j > 1 && (b[j + 1] == 34u8 || b[j + 1] == 92u8) {
                let ghost o0 = out@;
                out.push(b[j + 1]);
                proof {
                    match parse_str_at(b@, j + 2) {
                        Some((v, m)) => {
                            assert(o0 + (seq![b@[j + 1]] + v) =~= out@ + v);
                        },
                        None => {},
                    }
                }
                j = j + 2;
            } else if n - j > 5 && b[j + 1] == 117u8 && b[j + 2] == 48u8 && b[j + 3] == 48u8 {
                let d1 = unhex_exec(b[j + 4]);
                let d2 = unhex_exec(b[j + 5]);
                if d1 < 16 && d2 < 16 && d1 * 16 + d2 < 32 {
                    let ghost o0 = out@;
                    out.push(d1 * 16 + d2);
                    proof {
                        match parse_str_at(b@, j + 6) {
                            Some((v, m)) => {
                                assert(o0 + (seq![(unhex(b@[j + 4]) * 16 + unhex(b@[j + 5]))
                                    as u8] + v) =~= out@ + v);
                            },
                            None => {},
                        }
                    }
                    j = j + 6;
                } else {
                    return None;
                }
            } else {
                return None;
            }
        } else if c < 32u8 {
            return None;
        } else {
            let ghost o0 = out@;
            out.push(c);
            proof {
                match parse_str_at(b@, j + 1) {
                    Some((v, m)) => {
                        assert(o0 + (seq![b@[j as int]] + v) =~= out@ + v);
                    },
                    None => {},
                }
            }
            j = j + 1;
        }
    }
}

/// Parse a history kind name with its closing quote.
fn parse_kind_exec(b: &Vec<u8>, i: usize) -> (r: Option<(HistoryKind, usize)>)
    ensures
        r matches Some((k, n)) ==> parse_kind_at(b@, i as int) == Some((k, n as int)) && n
            <= b@.len(),
        r is None ==> parse_kind_at(b@, i as int) is None,
{
    let n: usize = b.len();
    proof {
        lemma_kind_facts();
    }
    if match_lit(b, i, "User\"") {
        Some((HistoryKind::User, i + 5))
    } else if match_lit(b, i, "Assistant\"") {
        Some((HistoryKind::Assistant, i + 10))
    } else if match_lit(b, i, "Error\"") {
        Some((HistoryKind::Error, i + 6))
    } else if match_lit(b, i, "System\"") {
        Some((HistoryKind::System, i + 7))
    } else if match_lit(b, i, "ToolUse\"") {
        Some((HistoryKind::ToolUse, i + 8))
    } else if match_lit(b, i, "ToolResult\"") {
        Some((HistoryKind::ToolResult, i + 11))
    } else {
        None
    }
}

/// Parse one history item.
fn parse_item_exec(b: &Vec<u8>, i: usize) -> (r: Option<(HistoryKind, Vec<u8>, usize)>)
    ensures
        r matches Some((k, v, n)) ==> parse_item_at(b@, i as int) == Some(((k, v@), n as int)) && (
        i as int) < n <= b@.len(),
        r is None ==> parse_item_at(b@, i as int) is None,
{
    let n: usize = b.len();
    proof {
        lemma_lit_facts();
    }
    if !match_lit(b, i, "{\"kind\":\"") {
        return None;
    }
    let kr = parse_kind_exec(b, i + 9);
    let (k, j) = match kr {
        Some(p) => p,
        None => {
            return None;
        },
    };
    if !match_lit(b, j, ",\"content\":\"") {
        return None;
    }
    let sr = parse_string_exec(b, j + 12);
    let (v, m) = match sr {
        Some(p) => p,
        None => {
            return None;
        },
    };
    if !match_lit(b, m, "}") {
        return None;
    }
    proof {
        lemma_parse_item_advances(b@, i as int);
        lemma_lit_facts();
    }
    Some((k, v, m + 1))
}

/// Parse the item list, from just inside the bracket to just past it.
#[verifier::rlimit(60)]
fn parse_items_exec(b: &Vec<u8>, start: usize) -> (r: Option<(Vec<DocItem>, usize)>)
    ensures
        r matches Some((items, n)) ==> parse_items_at(b@, start as int) == Some(
            (items@.map_values(|it: DocItem| (it.kind, it.content@)), n as int),
        ) && n <= b@.len(),
        r is None ==> parse_items_at(b@, start as int) is None,
{
    let ghost imap = |it: DocItem| (it.kind, it.content@);
    let n: usize = b.len();
    if start >= n {
        return None;
    }
    let mut items: Vec<DocItem> = Vec::new();
    let mut cur: usize = start;
    loop
        invariant_except_break
            start <= cur,
            0 <= cur <= n,
            n == b@.len(),
            imap == (|it: DocItem| (it.kind, it.content@)),
            parse_items_at(b@, start as int) == (match parse_items_at(b@, cur as int) {
                Some((rest, m)) => {
                    if items@.len() > 0 && rest.len() == 0 {
                        None
                    } else {
                        Some((items@.map_values(imap) + rest, m))
                    }
                },
                None => None,
            }),
        ensures
            cur <= n,
            n == b@.len(),
            imap == (|it: DocItem| (it.kind, it.content@)),
            parse_items_at(b@, start as int) == Some((items@.map_values(imap), cur as int)),
        decreases n - cur,
    {
        if cur >= n {
            return None;
        }
        if b[cur] == 93u8 {
            if items.len() > 0 {
                // a trailing comma has no item after it
                return None;
            }
            cur = cur + 1;
            proof {
                assert(items@.map_values(imap) + Seq::<(HistoryKind, Seq<u8>)>::empty()
                    =~= items@.map_values(imap));
            }
            break ;
        }
        let ir = parse_item_exec(b, cur);
        let (k, v, j) = match ir {
            Some(p) => p,
            None => {
                return None;
            },
        };
        if j < n && b[j] == 44u8 {
            let ghost ipre = items@;
            items.push(DocItem { kind: k, content: v });
            proof {
                assert(items@ =~= ipre.push(DocItem { kind: k, content: v }));
                match parse_items_at(b@, j + 1) {
                    Some((rest, m)) => {
                        assert(ipre.map_values(imap) + (seq![(k, v@)] + rest) =~= items@.map_values(
                            imap,
                        ) + rest);
                    },
                    None => {},
                }
            }
            cur = j + 1;
        } else if j < n && b[j] == 93u8 {
            let ghost ipre = items@;
            items.push(DocItem { kind: k, content: v });
            proof {
                assert(items@ =~= ipre.push(DocItem { kind: k, content: v }));
                assert(ipre.map_values(imap) + seq![(k, v@)] =~= items@.map_values(imap));
            }
            cur = j + 1;
            break ;
        } else {
            return None;
        }
    }
    Some((items, cur))
}

/// Decode a session document from its canonical byte form.  Anything that
/// is not such an encoding is refused.
#[verifier::loop_isolation(false)]
#[verifier::rlimit(60)]
pub fn decode_session(b: &Vec<u8>) -> (r: Option<SessionDoc>)
    ensures
        r matches Some(d) ==> parse_doc(b@) == Some(d.view_spec()),
        r is None ==> parse_doc(b@) is None,
{
    let n: usize = b.len();
    proof {
        lemma_lit_facts();
    }
    if !match_lit(b, 0, "{\"session_id\":\"") {
        return None;
    }
    let sr = parse_string_exec(b, 15);
    let (sid, i1) = match sr {
        Some(p) => p,
        None => {
            return None;
        },
    };
    if !match_lit(b, i1, ",\"current_path\":\"") {
        return None;
    }
    let pr = parse_string_exec(b, i1 + 17);
    let (path, i2) = match pr {
        Some(p) => p,
        None => {
            return None;
        },
    };
    if !match_lit(b, i2, ",\"created_at\":\"") {
        return None;
    }
    let cr = parse_string_exec(b, i2 + 15);
    let (created, i3) = match cr {
        Some(p) => p,
        None => {
            return None;
        },
    };
    if !match_lit(b, i3, ",\"history\":[") {
        return None;
    }
    proof {
        lemma_lit_facts();
    }
    let ir = parse_items_exec(b, i3 + 12);
    let (items, cur) = match ir {
        Some(p) => p,
        None => {
            return None;
        },
    };
    let i4 = cur;
    if !match_lit(b, i4, "}") {
        return None;
    }
    proof {
        lemma_lit_facts();
    }
    if i4 + 1 != b.len() {
        return None;
    }
    let doc = SessionDoc { session_id: sid, current_path: path, created_at: created, history: items };
    proof {
        assert(doc.view_spec().history =~= items@.map_values(|it: DocItem| (it.kind, it.content@)));
        assert(parse_doc(b@) == Some(doc.view_spec()));
    }
    Some(doc)
}

} // verus!
