//! The dashboard's aggregate view: one snapshot per persisted session, and
//! the difference between two scans, which drives the created/closed events
//! broadcast to attached viewers.

use crate::codec::SessionDoc;
use crate::session::HistoryKind;
use crate::util::bytes_eq;
use crate::util::sub_bytes;
use vstd::prelude::*;

verus! {

broadcast use {vstd::slice::axiom_spec_len, vstd::seq::group_seq_axioms};

/// What the dashboard shows of one agent session.
pub struct AgentSnapshot {
    /// The numeric id viewers address the agent by.
    pub id: usize,
    pub session_id: Vec<u8>,
    pub current_path: Vec<u8>,
    /// The agent is working when the transcript ends with a user turn, and
    /// waiting otherwise.
    pub active: bool,
    /// The most recent tool invocation on record.
    pub last_tool: Option<Vec<u8>>,
    pub last_activity: Vec<u8>,
}

/// Index of the most recent tool-use entry, or -1.
pub open spec fn last_tool_idx(h: Seq<(HistoryKind, Seq<u8>)>) -> int
    decreases h.len(),
{
    if h.len() == 0 {
        -1
    } else if h.last().0 is ToolUse {
        h.len() - 1
    } else {
        last_tool_idx(h.drop_last())
    }
}

proof fn lemma_last_tool_idx(h: Seq<(HistoryKind, Seq<u8>)>)
    ensures
        -1 <= last_tool_idx(h) < h.len(),
        last_tool_idx(h) >= 0 ==> h[last_tool_idx(h)].0 is ToolUse,
        last_tool_idx(h) == -1 ==> forall|i: int| 0 <= i < h.len() ==> !(h[i].0 is ToolUse),
        forall|i: int| last_tool_idx(h) < i < h.len() ==> !(h[i].0 is ToolUse),
    decreases h.len(),
{
    if h.len() > 0 && !(h.last().0 is ToolUse) {
        lemma_last_tool_idx(h.drop_last());
        assert(forall|i: int| 0 <= i < h.drop_last().len() ==> #[trigger] h.drop_last()[i] == h[i]);
        assert forall|i: int| last_tool_idx(h) < i < h.len() implies !(h[i].0 is ToolUse) by {
            if i < h.len() - 1 {
                assert(!(h.drop_last()[i].0 is ToolUse));
            }
        }
        if last_tool_idx(h) == -1 {
            assert forall|i: int| 0 <= i < h.len() implies !(h[i].0 is ToolUse) by {
                if i < h.len() - 1 {
                    assert(!(h.drop_last()[i].0 is ToolUse));
                }
            }
        }
    }
}

/// Build the dashboard snapshot of a persisted session: a document with an
/// empty transcript shows nothing; otherwise the last entry's kind decides
/// the status, and the newest tool invocation is carried along.
#[verifier::loop_isolation(false)]
pub fn snapshot_of_doc(doc: &SessionDoc, id: usize) -> (r: Option<AgentSnapshot>)
    ensures
        r is Some <==> doc.history@.len() > 0,
        r matches Some(s) ==> {
            let h = doc.view_spec().history;
            &&& s.id == id
            &&& s.session_id@ == doc.session_id@
            &&& s.current_path@ == doc.current_path@
            &&& s.last_activity@ == doc.created_at@
            &&& s.active == (h.last().0 is User)
            &&& (last_tool_idx(h) >= 0 ==> (s.last_tool matches Some(t) && t@ == h[last_tool_idx(
                h,
            )].1))
            &&& (last_tool_idx(h) == -1 ==> s.last_tool is None)
        },
{
    let n = doc.history.len();
    if n == 0 {
        return None;
    }
    let ghost h = doc.view_spec().history;
    let active = match doc.history[n - 1].kind {
        HistoryKind::User => true,
        _ => false,
    };
    proof {
        assert(h.last() == (doc.history@[n - 1].kind, doc.history@[n - 1].content@));
    }
    // Scan backwards for the most recent tool invocation.
    let mut last_tool: Option<Vec<u8>> = None;
    let mut j: usize = n;
    let mut found: bool = false;
    proof {
        lemma_last_tool_idx(h);
    }
    while j > 0 && !found
        invariant
            0 <= j <= n,
            !found ==> forall|i: int| j <= i < n ==> !(#[trigger] h[i].0 is ToolUse),
            !found ==> last_tool is None,
            found ==> last_tool_idx(h) >= 0 && (last_tool matches Some(t) && t@
                == h[last_tool_idx(h)].1),
        decreases j,
    {
        j = j - 1;
        let is_tool = match doc.history[j].kind {
            HistoryKind::ToolUse => true,
            _ => false,
        };
        if is_tool {
            proof {
                assert(h[j as int].0 is ToolUse);
                assert(last_tool_idx(h) == j as int) by {
                    lemma_last_tool_idx(h);
                    if last_tool_idx(h) < j as int {
                    }
                }
            }
            last_tool = Some(sub_bytes(&doc.history[j].content, 0, doc.history[j].content.len()));
            proof {
                assert(doc.history@[j as int].content@.subrange(
                    0,
                    doc.history@[j as int].content@.len() as int,
                ) =~= h[j as int].1);
            }
            found = true;
        }
    }
    proof {
        if !found {
            lemma_last_tool_idx(h);
            assert(last_tool_idx(h) == -1) by {
                if last_tool_idx(h) >= 0 {
                    assert(h[last_tool_idx(h)].0 is ToolUse);
                }
            }
        }
    }
    Some(
        AgentSnapshot {
            id,
            session_id: sub_bytes(&doc.session_id, 0, doc.session_id.len()),
            current_path: sub_bytes(&doc.current_path, 0, doc.current_path.len()),
            active,
            last_tool,
            last_activity: sub_bytes(&doc.created_at, 0, doc.created_at.len()),
        },
    )
}

/// Whether a session key occurs in a scan.
pub open spec fn scan_has(scan: Seq<(Vec<u8>, usize)>, sid: Seq<u8>) -> bool {
    exists|i: int| 0 <= i < scan.len() && scan[i].0@ == sid
}

/// True when `sid` names a session of `scan`.
fn scan_contains(scan: &Vec<(Vec<u8>, usize)>, sid: &Vec<u8>) -> (r: bool)
    ensures
        r == scan_has(scan@, sid@),
{
    let mut i: usize = 0;
    while i < scan.len()
        invariant
            0 <= i <= scan@.len(),
            forall|k: int| 0 <= k < i ==> scan@[k].0@ != sid@,
        decreases scan@.len() - i,
    {
        if bytes_eq(&scan[i].0, sid) {
            proof {
                assert(scan@[i as int].0@ == sid@);
            }
            return true;
        }
        i = i + 1;
    }
    false
}

/// The agent ids whose sessions appear in `now` but not in `before`: the
/// created events of one rescan, in scan order.
#[verifier::loop_isolation(false)]
pub fn appeared_agents(before: &Vec<(Vec<u8>, usize)>, now: &Vec<(Vec<u8>, usize)>) -> (r: Vec<
    usize,
>)
    ensures
        r@ == now@.filter(|e: (Vec<u8>, usize)| !scan_has(before@, e.0@)).map_values(
            |e: (Vec<u8>, usize)| e.1,
        ),
{
    let ghost pred = |e: (Vec<u8>, usize)| !scan_has(before@, e.0@);
    let mut out: Vec<usize> = Vec::new();
    let mut i: usize = 0;
    proof {
        reveal_with_fuel(Seq::filter, 1);
        assert(now@.subrange(0, 0).filter(pred) =~= Seq::<(Vec<u8>, usize)>::empty());
        assert(out@ =~= now@.subrange(0, 0).filter(pred).map_values(|e: (Vec<u8>, usize)| e.1));
    }
    while i < now.len()
        invariant
            0 <= i <= now@.len(),
            out@ == now@.subrange(0, i as int).filter(pred).map_values(
                |e: (Vec<u8>, usize)| e.1,
            ),
        decreases now@.len() - i,
    {
        let ghost pre = now@.subrange(0, i as int);
        let absent = !scan_contains(before, &now[i].0);
        if absent {
            out.push(now[i].1);
        }
        proof {
            let ext = now@.subrange(0, i + 1);
            assert(ext.drop_last() =~= pre);
            assert(ext.last() == now@[i as int]);
            reveal_with_fuel(Seq::filter, 2);
            if pred(now@[i as int]) {
                assert(ext.filter(pred) =~= pre.filter(pred).push(now@[i as int]));
                assert(ext.filter(pred).map_values(|e: (Vec<u8>, usize)| e.1) =~= pre.filter(
                    pred,
                ).map_values(|e: (Vec<u8>, usize)| e.1).push(now@[i as int].1));
            } else {
                assert(ext.filter(pred) =~= pre.filter(pred));
            }
        }
        i = i + 1;
    }
    proof {
        assert(now@.subrange(0, now@.len() as int) =~= now@);
    }
    out
}

/// The agent ids whose sessions were in `before` but vanished from `now`:
/// the closed events of one rescan, in the old scan's order.
#[verifier::loop_isolation(false)]
pub fn vanished_agents(before: &Vec<(Vec<u8>, usize)>, now: &Vec<(Vec<u8>, usize)>) -> (r: Vec<
    usize,
>)
    ensures
        r@ == before@.filter(|e: (Vec<u8>, usize)| !scan_has(now@, e.0@)).map_values(
            |e: (Vec<u8>, usize)| e.1,
        ),
{
    let ghost pred = |e: (Vec<u8>, usize)| !scan_has(now@, e.0@);
    let mut out: Vec<usize> = Vec::new();
    let mut i: usize = 0;
    proof {
        reveal_with_fuel(Seq::filter, 1);
        assert(before@.subrange(0, 0).filter(pred) =~= Seq::<(Vec<u8>, usize)>::empty());
        assert(out@ =~= before@.subrange(0, 0).filter(pred).map_values(
            |e: (Vec<u8>, usize)| e.1,
        ));
    }
    while i < before.len()
        invariant
            0 <= i <= before@.len(),
            out@ == before@.subrange(0, i as int).filter(pred).map_values(
                |e: (Vec<u8>, usize)| e.1,
            ),
        decreases before@.len() - i,
    {
        let ghost pre = before@.subrange(0, i as int);
        let absent = !scan_contains(now, &before[i].0);
        if absent {
            out.push(before[i].1);
        }
        proof {
            let ext = before@.subrange(0, i + 1);
            assert(ext.drop_last() =~= pre);
            assert(ext.last() == before@[i as int]);
            reveal_with_fuel(Seq::filter, 2);
            if pred(before@[i as int]) {
                assert(ext.filter(pred) =~= pre.filter(pred).push(before@[i as int]));
                assert(ext.filter(pred).map_values(|e: (Vec<u8>, usize)| e.1) =~= pre.filter(
                    pred,
                ).map_values(|e: (Vec<u8>, usize)| e.1).push(before@[i as int].1));
            } else {
                assert(ext.filter(pred) =~= pre.filter(pred));
            }
        }
        i = i + 1;
    }
    proof {
        assert(before@.subrange(0, before@.len() as int) =~= before@);
    }
    out
}

} // verus!
