//! Per-conversation session state: durable identity, history, pending
//! uploads, the cleared flag, the persistence guard, and the registry of
//! in-flight cancel handles.

use crate::util::last_pos;
use crate::util::lemma_filter_membership;
use crate::util::lemma_last_pos_exact;
use crate::util::str_eq;
use vstd::prelude::*;
use vstd::string::StrSliceExecFns;
use vstd::string::StringExecFns;
use vstd::string::StringSliceAdditionalSpecFns;
use vstd::utf8::encode_utf8;
use vstd::utf8::is_ascii_chars;

verus! {

broadcast use vstd::slice::axiom_spec_len;

/// What a history entry records.
#[derive(PartialEq, Eq, Structural, Clone, Copy, Debug)]
pub enum HistoryKind {
    User,
    Assistant,
    Error,
    System,
    ToolUse,
    ToolResult,
}

/// One entry of a conversation transcript.
pub struct HistoryItem {
    pub kind: HistoryKind,
    pub content: String,
}

/// The in-memory state of one conversation with the agent.
pub struct Session {
    /// Opaque resume token minted by the agent; absent until the first
    /// exchange completes, and dropped by a clear.
    pub agent_session_id: Option<String>,
    /// Absolute path the agent works in.
    pub working_directory: Option<String>,
    /// Ordered transcript, append-only between clears.
    pub history: Vec<HistoryItem>,
    /// Notes about files uploaded since the last prompt; prepended to the
    /// next prompt and then drained.
    pub pending_uploads: Vec<String>,
    /// Set by a clear; suppresses recording of the in-flight exchange.
    pub cleared: bool,
}

/// Make a fresh session bound to `wd`.
pub fn new_session(wd: Option<String>) -> (s: Session)
    ensures
        s.agent_session_id is None,
        s.working_directory == wd,
        s.history@ == Seq::<HistoryItem>::empty(),
        s.pending_uploads@ == Seq::<String>::empty(),
        !s.cleared,
{
    Session {
        agent_session_id: None,
        working_directory: wd,
        history: Vec::new(),
        pending_uploads: Vec::new(),
        cleared: false,
    }
}

/// What a clear leaves behind: identity and transcript gone, directory kept,
/// the cleared flag raised so the in-flight exchange is not recorded.
pub open spec fn cleared_session(s: Session) -> bool {
    &&& s.agent_session_id is None
    &&& s.history@ == Seq::<HistoryItem>::empty()
    &&& s.pending_uploads@ == Seq::<String>::empty()
    &&& s.cleared
}

/// Clear the session: drop the agent identity, transcript and pending
/// uploads, keep the working directory, and raise the cleared flag.
pub fn clear_session(s: &mut Session)
    ensures
        cleared_session(*final(s)),
        final(s).working_directory == old(s).working_directory,
{
    s.agent_session_id = None;
    s.history = Vec::new();
    s.pending_uploads = Vec::new();
    s.cleared = true;
}

/// Start a new exchange: the cleared flag falls, and the buffered upload
/// notes are handed back for prepending to the prompt, leaving the buffer
/// empty.  Nothing else changes.
pub fn begin_exchange(s: &mut Session) -> (uploads: Vec<String>)
    ensures
        uploads@ == old(s).pending_uploads@,
        final(s).pending_uploads@ == Seq::<String>::empty(),
        !final(s).cleared,
        final(s).agent_session_id == old(s).agent_session_id,
        final(s).working_directory == old(s).working_directory,
        final(s).history == old(s).history,
{
    s.cleared = false;
    let mut drained: Vec<String> = Vec::new();
    core::mem::swap(&mut drained, &mut s.pending_uploads);
    drained
}

/// Record an upload: the note joins both the transcript (as a user-kind
/// item) and the pending-upload buffer.
pub fn record_upload(s: &mut Session, note: String)
    ensures
        final(s).history@ == old(s).history@.push(
            HistoryItem { kind: HistoryKind::User, content: note },
        ),
        final(s).pending_uploads@ == old(s).pending_uploads@.push(note),
        final(s).agent_session_id == old(s).agent_session_id,
        final(s).working_directory == old(s).working_directory,
        final(s).cleared == old(s).cleared,
{
    let copy = note.clone();
    s.history.push(HistoryItem { kind: HistoryKind::User, content: copy });
    s.pending_uploads.push(note);
}

/// Record a finished exchange, unless the session was cleared while it ran:
/// the user prompt and the agent reply join the transcript, and a session id
/// minted by the agent replaces the stored one.
pub fn finish_exchange(s: &mut Session, user_text: String, reply: String, minted: Option<String>)
    ensures
        old(s).cleared ==> *final(s) == *old(s),
        !old(s).cleared ==> {
            &&& final(s).history@ == old(s).history@.push(
                HistoryItem { kind: HistoryKind::User, content: user_text },
            ).push(HistoryItem { kind: HistoryKind::Assistant, content: reply })
            &&& final(s).agent_session_id == (if minted is Some {
                minted
            } else {
                old(s).agent_session_id
            })
            &&& final(s).working_directory == old(s).working_directory
            &&& final(s).pending_uploads == old(s).pending_uploads
            &&& final(s).cleared == old(s).cleared
        },
{
    if s.cleared {
        return ;
    }
    if let Some(sid) = minted {
        s.agent_session_id = Some(sid);
    }
    s.history.push(HistoryItem { kind: HistoryKind::User, content: user_text });
    s.history.push(HistoryItem { kind: HistoryKind::Assistant, content: reply });
}

/// After a clear, the next exchange starts from an empty transcript, so the
/// recorded history is exactly that one exchange.
pub proof fn lemma_clear_then_exchange(
    cleared: Session,
    started: Session,
    finished: Session,
    user_text: String,
    reply: String,
)
    requires
        cleared_session(cleared),
        // what `begin_exchange` guarantees of its result
        started.history == cleared.history,
        !started.cleared,
        // what `finish_exchange` guarantees when not cleared
        finished.history@ == started.history@.push(
            HistoryItem { kind: HistoryKind::User, content: user_text },
        ).push(HistoryItem { kind: HistoryKind::Assistant, content: reply }),
    ensures
        finished.history@ == seq![
            HistoryItem { kind: HistoryKind::User, content: user_text },
            HistoryItem { kind: HistoryKind::Assistant, content: reply },
        ],
{
    assert(finished.history@ =~= seq![
        HistoryItem { kind: HistoryKind::User, content: user_text },
        HistoryItem { kind: HistoryKind::Assistant, content: reply },
    ]);
}

/// The transcript entries that persistence keeps: everything but
/// system-kind items.
pub open spec fn persistable(h: Seq<HistoryItem>) -> Seq<HistoryItem> {
    h.filter(|it: HistoryItem| !(it.kind is System))
}

/// Filter system-kind items out of a transcript, keeping order.
#[verifier::loop_isolation(false)]
pub fn persistable_history(h: &Vec<HistoryItem>) -> (r: Vec<HistoryItem>)
    ensures
        r@ == persistable(h@),
{
    let ghost pred = |it: HistoryItem| !(it.kind is System);
    let mut out: Vec<HistoryItem> = Vec::new();
    let mut i: usize = 0;
    proof {
        reveal_with_fuel(Seq::filter, 1);
        assert(h@.subrange(0, 0).filter(pred) =~= Seq::<HistoryItem>::empty());
    }
    while i < h.len()
        invariant
            0 <= i <= h@.len(),
            out@ == h@.subrange(0, i as int).filter(pred),
        decreases h@.len() - i,
    {
        let ghost pre = h@.subrange(0, i as int);
        let ghost outpre = out@;
        let keep = match h[i].kind {
            HistoryKind::System => false,
            _ => true,
        };
        if keep {
            let item = HistoryItem { kind: h[i].kind, content: h[i].content.clone() };
            proof {
                assert(item == h@[i as int]);
            }
            out.push(item);
        }
        proof {
            let ext = h@.subrange(0, i + 1);
            assert(ext.drop_last() =~= pre);
            assert(ext.last() == h@[i as int]);
            reveal_with_fuel(Seq::filter, 2);
            if pred(h@[i as int]) {
                assert(ext.filter(pred) =~= pre.filter(pred).push(h@[i as int]));
            } else {
                assert(ext.filter(pred) =~= pre.filter(pred));
            }
        }
        i = i + 1;
    }
    proof {
        assert(h@.subrange(0, h@.len() as int) =~= h@);
    }
    out
}

/// Whether a finished exchange may be written to disk: the agent must have
/// minted an identity and the transcript must have persistable content.
pub open spec fn should_persist(s: Session) -> bool {
    &&& s.agent_session_id is Some
    &&& s.history@.len() > 0
    &&& persistable(s.history@).len() > 0
}

/// A session identifier acceptable as a file stem: non-empty, and free of
/// separators, NUL bytes, and the reserved dot names.
pub open spec fn id_ok(id: Seq<u8>) -> bool {
    &&& id.len() > 0
    &&& forall|i: int| 0 <= i < id.len() ==> id[i] != 47 && id[i] != 92 && id[i] != 0
    &&& id != seq![46u8]
    &&& id != seq![46u8, 46u8]
}

/// The directory part of a path: everything before the last separator.
pub open spec fn parent_of(b: Seq<u8>) -> Seq<u8> {
    b.subrange(0, if last_pos(b, 47, b.len() as int) >= 0 {
        last_pos(b, 47, b.len() as int)
    } else {
        0
    })
}

/// The target path a session document is written to: `dir/<id>.json`, or
/// nothing when the identifier could escape the directory.
pub open spec fn session_path_spec(dir: Seq<u8>, id: Seq<u8>) -> Option<Seq<u8>> {
    if id_ok(id) {
        Some(dir + seq![47u8] + id + encode_utf8(".json"@))
    } else {
        None
    }
}

/// Writing under `dir` with an acceptable identifier can never leave `dir`:
/// the produced path's parent directory is `dir` itself.
pub proof fn lemma_no_path_traversal(dir: Seq<u8>, id: Seq<u8>)
    requires
        id_ok(id),
        forall|i: int| 0 <= i < dir.len() ==> dir[i] != 47 || i < dir.len(),
    ensures
        session_path_spec(dir, id) matches Some(p) ==> parent_of(p) == dir,
{
    let p = dir + seq![47u8] + id + encode_utf8(".json"@);
    let ghost j = dir.len() as int;
    assert(p[j] == 47);
    reveal_strlit(".json");
    vstd::utf8::is_ascii_chars_encode_utf8(".json"@);
    assert forall|k: int| j < k < p.len() implies p[k] != 47 by {
        if k < j + 1 + id.len() {
            assert(p[k] == id[k - j - 1]);
        } else {
            let m = k - (j + 1 + id.len());
            assert(p[k] == encode_utf8(".json"@)[m]);
            assert(encode_utf8(".json"@)[m] == ".json"@[m] as u8);
        }
    }
    lemma_last_pos_exact(p, 47u8, p.len() as int, j);
    assert(parent_of(p) =~= dir);
}

/// Build the on-disk path for a session document, refusing identifiers that
/// could step outside the sessions directory.
#[verifier::loop_isolation(false)]
pub fn session_file_path(dir: &str, session_id: &str) -> (r: Option<String>)
    ensures
        r is Some <==> id_ok(session_id.spec_bytes()),
        r matches Some(p) ==> encode_utf8(p@) == session_path_spec(
            dir.spec_bytes(),
            session_id.spec_bytes(),
        ).unwrap(),
{
    let ghost idb = session_id.spec_bytes();
    let bs = session_id.as_bytes();
    let n: usize = bs.len();
    if n == 0 {
        return None;
    }
    let mut i: usize = 0;
    while i < n
        invariant
            0 <= i <= n,
            bs@ == idb,
            n == idb.len(),
            forall|k: int| 0 <= k < i ==> idb[k] != 47 && idb[k] != 92 && idb[k] != 0,
        decreases n - i,
    {
        let c = bs[i];
        if c == 47u8 || c == 92u8 || c == 0u8 {
            proof {
                assert(!id_ok(idb)) by {
                    assert((i as int) < idb.len());
                    assert(!(idb[i as int] != 47 && idb[i as int] != 92 && idb[i as int] != 0));
                }
            }
            return None;
        }
        i = i + 1;
    }
    if n == 1 && bs[0] == 46u8 {
        proof {
            assert(idb =~= seq![46u8]);
        }
        return None;
    }
    if n == 2 && bs[0] == 46u8 && bs[1] == 46u8 {
        proof {
            assert(idb =~= seq![46u8, 46u8]);
        }
        return None;
    }
    proof {
        if idb == seq![46u8] {
            assert(false);
        }
        if idb == seq![46u8, 46u8] {
            assert(false);
        }
        assert(id_ok(idb));
    }
    let mut p = dir.to_owned();
    let ghost p0 = p@;
    p.append("/");
    proof {
        crate::text::lemma_encode_concat(p0, "/"@);
        reveal_strlit("/");
        assert(is_ascii_chars("/"@));
        vstd::utf8::is_ascii_chars_encode_utf8("/"@);
        assert(encode_utf8("/"@) =~= seq![47u8]);
    }
    let ghost p1 = p@;
    p.append(session_id);
    proof {
        crate::text::lemma_encode_concat(p1, session_id@);
    }
    let ghost p2 = p@;
    p.append(".json");
    proof {
        crate::text::lemma_encode_concat(p2, ".json"@);
        assert(encode_utf8(p@) =~= dir.spec_bytes() + seq![47u8] + idb + encode_utf8(".json"@));
    }
    Some(p)
}

/// One conversation's in-flight request handle, as the registry models it:
/// the cancel flag and the recorded child process id.
pub struct CancelState {
    pub cancelled: bool,
    pub child_pid: Option<u64>,
}

/// The cancel-handle registry: at most one in-flight request per
/// conversation key.
pub struct CancelRegistry {
    pub entries: Vec<(String, CancelState)>,
}

impl CancelRegistry {
    /// Well-formed: no conversation key appears twice.
    pub open spec fn wf(self) -> bool {
        forall|i: int, j: int|
            0 <= i < j < self.entries@.len() ==> self.entries@[i].0@ != self.entries@[j].0@
    }

    /// Whether `key` has an active handle.
    pub open spec fn active(self, key: Seq<char>) -> bool {
        exists|i: int| 0 <= i < self.entries@.len() && self.entries@[i].0@ == key
    }

    /// How many active handles `key` has.
    pub open spec fn count_for(self, key: Seq<char>) -> nat {
        self.entries@.filter(key_pred(key)).len()
    }

    pub fn new() -> (r: CancelRegistry)
        ensures
            r.wf(),
            r.entries@ == Seq::<(String, CancelState)>::empty(),
    {
        CancelRegistry { entries: Vec::new() }
    }

    /// Find the index of `key`'s entry.
    fn find(&self, key: &str) -> (r: Option<usize>)
        ensures
            r matches Some(i) ==> i < self.entries@.len() && self.entries@[i as int].0@ == key@,
            r is None ==> !self.active(key@),
    {
        let mut i: usize = 0;
        while i < self.entries.len()
            invariant
                0 <= i <= self.entries@.len(),
                forall|k: int| 0 <= k < i ==> self.entries@[k].0@ != key@,
            decreases self.entries@.len() - i,
        {
            if str_eq(self.entries[i].0.as_str(), key) {
                return Some(i);
            }
            i = i + 1;
        }
        None
    }

    /// Whether a request is in flight for `key`.
    pub fn is_active(&self, key: &str) -> (r: bool)
        ensures
            r == self.active(key@),
    {
        self.find(key).is_some()
    }

    /// Attach a fresh handle for `key`.  A conversation that already has one
    /// is refused: the caller replies "request in progress" instead.
    pub fn attach(&mut self, key: &str) -> (attached: bool)
        requires
            old(self).wf(),
        ensures
            final(self).wf(),
            attached == !old(self).active(key@),
            !attached ==> *final(self) == *old(self),
            attached ==> {
                &&& final(self).entries@.len() == old(self).entries@.len() + 1
                &&& final(self).entries@.subrange(0, old(self).entries@.len() as int) == old(
                    self,
                ).entries@
                &&& final(self).entries@.last().0@ == key@
                &&& final(self).entries@.last().1 == (CancelState {
                    cancelled: false,
                    child_pid: None,
                })
            },
            attached ==> final(self).active(key@),
    {
        if self.find(key).is_some() {
            false
        } else {
            let owned = key.to_owned();
            self.entries.push((owned, CancelState { cancelled: false, child_pid: None }));
            proof {
                let n = self.entries@.len() - 1;
                assert(self.entries@[n].0@ == key@);
                assert(self.entries@.subrange(0, n) =~= old(self).entries@);
                assert forall|i: int, j: int|
                    0 <= i < j < self.entries@.len() implies self.entries@[i].0@
                    != self.entries@[j].0@ by {
                    if j < n {
                    } else {
                        assert(self.entries@[i] == old(self).entries@[i]);
                    }
                }
            }
            true
        }
    }

    /// Drop `key`'s handle, if any; other conversations are untouched.
    #[verifier::loop_isolation(false)]
    pub fn detach(&mut self, key: &str)
        requires
            old(self).wf(),
        ensures
            final(self).wf(),
            final(self).entries@ == old(self).entries@.filter(
                |e: (String, CancelState)| e.0@ != key@,
            ),
            !final(self).active(key@),
    {
        let ghost pred = |e: (String, CancelState)| e.0@ != key@;
        let ghost orig = self.entries@;
        let mut out: Vec<(String, CancelState)> = Vec::new();
        let mut i: usize = 0;
        proof {
            reveal_with_fuel(Seq::filter, 1);
            assert(orig.subrange(0, 0).filter(pred) =~= Seq::<(String, CancelState)>::empty());
        }
        while i < self.entries.len()
            invariant
                0 <= i <= orig.len(),
                self.entries@ == orig,
                out@ == orig.subrange(0, i as int).filter(pred),
            decreases orig.len() - i,
        {
            let ghost pre = orig.subrange(0, i as int);
            let keep = !str_eq(self.entries[i].0.as_str(), key);
            if keep {
                let name = self.entries[i].0.clone();
                let st = CancelState {
                    cancelled: self.entries[i].1.cancelled,
                    child_pid: self.entries[i].1.child_pid,
                };
                proof {
                    assert((name, st) == orig[i as int]);
                }
                out.push((name, st));
            }
            proof {
                let ext = orig.subrange(0, i + 1);
                assert(ext.drop_last() =~= pre);
                assert(ext.last() == orig[i as int]);
                reveal_with_fuel(Seq::filter, 2);
                if pred(orig[i as int]) {
                    assert(ext.filter(pred) =~= pre.filter(pred).push(orig[i as int]));
                } else {
                    assert(ext.filter(pred) =~= pre.filter(pred));
                }
            }
            i = i + 1;
        }
        proof {
            assert(orig.subrange(0, orig.len() as int) =~= orig);
        }
        self.entries = out;
        proof {
            lemma_filter_keeps_distinct_keys(orig, pred);
            let fin = self.entries@;
            assert forall|i: int| 0 <= i < fin.len() implies fin[i].0@ != key@ by {
                orig.lemma_filter_pred(pred, i);
            }
        }
    }

    /// Record the cancel flag for `key`'s handle, if one is attached.
    pub fn set_cancelled(&mut self, key: &str)
        requires
            old(self).wf(),
        ensures
            final(self).wf(),
            final(self).entries@.len() == old(self).entries@.len(),
            forall|i: int|
                0 <= i < final(self).entries@.len() ==> final(self).entries@[i].0
                    == old(self).entries@[i].0 && (old(self).entries@[i].0@ != key@
                    ==> final(self).entries@[i] == old(self).entries@[i]) && (
                old(self).entries@[i].0@ == key@ ==> final(self).entries@[i].1 == CancelState {
                    cancelled: true,
                    child_pid: old(self).entries@[i].1.child_pid,
                }),
    {
        let idx = self.find(key);
        if let Some(i) = idx {
            let pid = self.entries[i].1.child_pid;
            let name = self.entries[i].0.clone();
            self.entries.set(i, (name, CancelState { cancelled: true, child_pid: pid }));
            proof {
                assert forall|k: int|
                    0 <= k < final(self).entries@.len() && old(self).entries@[k].0@ == key@
                    implies k == i as int by {
                    if k != i as int {
                        assert(old(self).entries@[k].0@ != old(self).entries@[i as int].0@);
                    }
                }
            }
        }
    }

    /// A well-formed registry holds at most one handle per conversation.
    pub proof fn lemma_at_most_one(self, key: Seq<char>)
        requires
            self.wf(),
        ensures
            self.count_for(key) <= 1,
    {
        lemma_unique_filter_le_one(self.entries@, key);
    }
}

/// Filtering keeps conversation keys pairwise distinct.
proof fn lemma_filter_keeps_distinct_keys(
    s: Seq<(String, CancelState)>,
    pred: spec_fn((String, CancelState)) -> bool,
)
    requires
        forall|i: int, j: int| 0 <= i < j < s.len() ==> s[i].0@ != s[j].0@,
    ensures
        forall|i: int, j: int|
            0 <= i < j < s.filter(pred).len() ==> s.filter(pred)[i].0@ != s.filter(pred)[j].0@,
    decreases s.len(),
{
    reveal_with_fuel(Seq::filter, 2);
    if s.len() > 0 {
        let head = s.drop_last();
        lemma_filter_keeps_distinct_keys(head, pred);
        lemma_filter_membership(head, pred);
        if pred(s.last()) {
            assert forall|i: int, j: int|
                0 <= i < j < s.filter(pred).len() implies s.filter(pred)[i].0@
                != s.filter(pred)[j].0@ by {
                if j == s.filter(pred).len() - 1 {
                    assert(s.filter(pred)[i] == head.filter(pred)[i]);
                    let w = choose|w: int|
                        0 <= w < head.len() && head[w] == head.filter(pred)[i];
                    assert(s[w] == s.filter(pred)[i]);
                    assert(s[w].0@ != s[s.len() - 1].0@);
                } else {
                    assert(s.filter(pred)[i] == head.filter(pred)[i]);
                    assert(s.filter(pred)[j] == head.filter(pred)[j]);
                }
            }
        }
    }
}

/// Matches entries of one conversation key.
pub open spec fn key_pred(key: Seq<char>) -> spec_fn((String, CancelState)) -> bool {
    |e: (String, CancelState)| e.0@ == key
}

/// With pairwise-distinct keys, at most one entry matches any given key.
proof fn lemma_unique_filter_le_one(s: Seq<(String, CancelState)>, key: Seq<char>)
    requires
        forall|i: int, j: int| 0 <= i < j < s.len() ==> s[i].0@ != s[j].0@,
    ensures
        s.filter(key_pred(key)).len() <= 1,
    decreases s.len(),
{
    reveal_with_fuel(Seq::filter, 2);
    let pred = key_pred(key);
    if s.len() == 0 {
    } else {
        let head = s.drop_last();
        lemma_unique_filter_le_one(head, key);
        if pred(s.last()) {
            // No earlier entry can match the same key.
            if head.filter(pred).len() > 0 {
                lemma_filter_membership(head, pred);
                let e = head.filter(pred)[0];
                let w = choose|w: int| 0 <= w < head.len() && head[w] == e;
                assert(s[w] == e);
                assert(s[s.len() - 1] == s.last());
                head.lemma_filter_pred(pred, 0);
                assert(false);
            }
        }
    }
}

} // verus!
