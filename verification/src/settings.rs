//! The bot settings document: per-credential allowlist, last session per
//! conversation, owner imprinting, and authorized users.  The credential key
//! that names an entry in the on-disk document is a prefixed, truncated
//! SHA-256 of the bot token.

use sha2::Digest;

use crate::tools::default_allowed_tools;
use crate::tools::default_tools_spec;
use crate::util::lemma_filter_membership;
use crate::util::sub_bytes;
use vstd::prelude::*;
use vstd::string::StrSliceExecFns;
use vstd::string::StringExecFns;
use vstd::string::StringSliceAdditionalSpecFns;
use vstd::utf8::encode_utf8;

verus! {

broadcast use vstd::slice::axiom_spec_len;

/// Settings of one bot credential.
pub struct BotSettings {
    /// Ordered list of canonical tool names the agent may use.
    pub allowed_tools: Vec<String>,
    /// Conversation key to last working directory, keys unique.
    pub last_sessions: Vec<(String, String)>,
    /// Imprinted owner; set on first contact and never cleared by the core.
    pub owner_user_id: Option<u64>,
    /// Additional users the owner has authorized.
    pub allowed_user_ids: Vec<u64>,
}

/// What an auth check decided.
#[derive(PartialEq, Eq, Structural, Clone, Copy, Debug)]
pub enum AuthOutcome {
    /// First contact: the user was recorded as owner and accepted.
    Imprinted,
    /// Known owner or authorized user.
    Accepted,
    /// Anyone else; the rejection is silent.
    Rejected,
}

impl BotSettings {
    /// Conversation keys of the last-session table are pairwise distinct.
    pub open spec fn wf(self) -> bool {
        forall|i: int, j: int|
            0 <= i < j < self.last_sessions@.len() ==> self.last_sessions@[i].0@
                != self.last_sessions@[j].0@
    }

    /// Defaults: the catalog's default allowlist, nothing else.
    pub fn default_settings() -> (r: BotSettings)
        ensures
            r.allowed_tools.deep_view() == default_tools_spec(),
            r.last_sessions@ == Seq::<(String, String)>::empty(),
            r.owner_user_id is None,
            r.allowed_user_ids@ == Seq::<u64>::empty(),
            r.wf(),
    {
        BotSettings {
            allowed_tools: default_allowed_tools(),
            last_sessions: Vec::new(),
            owner_user_id: None,
            allowed_user_ids: Vec::new(),
        }
    }

    /// Settings assembled from a parsed document entry, with the fallbacks
    /// the store applies: an absent or empty tool list yields the defaults
    /// and discards the rest of the entry, keeping only the owner.
    pub fn from_parts(
        owner: Option<u64>,
        tools: Vec<String>,
        last_sessions: Vec<(String, String)>,
        allowed_user_ids: Vec<u64>,
    ) -> (r: BotSettings)
        requires
            forall|i: int, j: int|
                0 <= i < j < last_sessions@.len() ==> last_sessions@[i].0@
                    != last_sessions@[j].0@,
        ensures
            r.owner_user_id == owner,
            tools@.len() == 0 ==> r.allowed_tools.deep_view() == default_tools_spec()
                && r.last_sessions@ == Seq::<(String, String)>::empty() && r.allowed_user_ids@
                == Seq::<u64>::empty(),
            tools@.len() > 0 ==> r.allowed_tools == tools && r.last_sessions == last_sessions
                && r.allowed_user_ids == allowed_user_ids,
            r.wf(),
    {
        if tools.len() == 0 {
            BotSettings {
                allowed_tools: default_allowed_tools(),
                last_sessions: Vec::new(),
                owner_user_id: owner,
                allowed_user_ids: Vec::new(),
            }
        } else {
            BotSettings { allowed_tools: tools, last_sessions, owner_user_id: owner, allowed_user_ids }
        }
    }

    /// Whether `user_id` is in the additional authorized list.
    pub open spec fn user_allowed(self, user_id: u64) -> bool {
        self.allowed_user_ids@.contains(user_id)
    }

    /// First-run imprint plus allowlist check.  With no owner yet, the first
    /// user seen becomes owner and is accepted; afterwards only the owner
    /// and explicitly authorized users are accepted.  Once set, the owner is
    /// never changed by this path.
    pub fn check_auth(&mut self, user_id: u64) -> (r: AuthOutcome)
        ensures
            old(self).owner_user_id is None ==> r == AuthOutcome::Imprinted
                && final(self).owner_user_id == Some(user_id),
            old(self).owner_user_id matches Some(o) ==> *final(self) == *old(self) && (r
                == AuthOutcome::Accepted <==> (user_id == o || old(self).user_allowed(user_id)))
                && (r != AuthOutcome::Accepted ==> r == AuthOutcome::Rejected),
            old(self).owner_user_id is Some ==> final(self).owner_user_id == old(
                self,
            ).owner_user_id,
            final(self).allowed_tools == old(self).allowed_tools,
            final(self).last_sessions == old(self).last_sessions,
            final(self).allowed_user_ids == old(self).allowed_user_ids,
    {
        match self.owner_user_id {
            None => {
                self.owner_user_id = Some(user_id);
                AuthOutcome::Imprinted
            },
            Some(owner) => {
                if user_id == owner {
                    AuthOutcome::Accepted
                } else {
                    let mut i: usize = 0;
                    let mut found: bool = false;
                    while i < self.allowed_user_ids.len()
                        invariant
                            0 <= i <= self.allowed_user_ids@.len(),
                            found <==> exists|k: int|
                                0 <= k < i && self.allowed_user_ids@[k] == user_id,
                        decreases self.allowed_user_ids@.len() - i,
                    {
                        if self.allowed_user_ids[i] == user_id {
                            found = true;
                        }
                        i = i + 1;
                    }
                    if found {
                        AuthOutcome::Accepted
                    } else {
                        AuthOutcome::Rejected
                    }
                }
            },
        }
    }

    /// Whether `user_id` is the imprinted owner.
    pub fn is_owner(&self, user_id: u64) -> (r: bool)
        ensures
            r == (self.owner_user_id == Some(user_id)),
    {
        match self.owner_user_id {
            Some(o) => o == user_id,
            None => false,
        }
    }

    /// Authorize another user (owner-only at the call site).  Present users
    /// are left alone; the owner never changes.
    pub fn add_user(&mut self, target: u64) -> (added: bool)
        ensures
            added == !old(self).user_allowed(target),
            added ==> final(self).allowed_user_ids@ == old(self).allowed_user_ids@.push(target),
            !added ==> *final(self) == *old(self),
            final(self).owner_user_id == old(self).owner_user_id,
            final(self).allowed_tools == old(self).allowed_tools,
            final(self).last_sessions == old(self).last_sessions,
    {
        let mut i: usize = 0;
        while i < self.allowed_user_ids.len()
            invariant
                0 <= i <= self.allowed_user_ids@.len(),
                forall|k: int| 0 <= k < i ==> self.allowed_user_ids@[k] != target,
            decreases self.allowed_user_ids@.len() - i,
        {
            if self.allowed_user_ids[i] == target {
                proof {
                    assert(old(self).user_allowed(target));
                }
                return false;
            }
            i = i + 1;
        }
        proof {
            if old(self).user_allowed(target) {
                let w = choose|w: int|
                    0 <= w < self.allowed_user_ids@.len() && self.allowed_user_ids@[w] == target;
                assert(false);
            }
        }
        self.allowed_user_ids.push(target);
        true
    }

    /// Withdraw a user's authorization.  The owner never changes.
    #[verifier::loop_isolation(false)]
    pub fn remove_user(&mut self, target: u64) -> (removed: bool)
        ensures
            final(self).allowed_user_ids@ == old(self).allowed_user_ids@.filter(
                |u: u64| u != target,
            ),
            removed == old(self).user_allowed(target),
            final(self).owner_user_id == old(self).owner_user_id,
            final(self).allowed_tools == old(self).allowed_tools,
            final(self).last_sessions == old(self).last_sessions,
    {
        let ghost pred = |u: u64| u != target;
        let ghost orig = self.allowed_user_ids@;
        let mut out: Vec<u64> = Vec::new();
        let mut removed: bool = false;
        let mut i: usize = 0;
        proof {
            reveal_with_fuel(Seq::filter, 1);
            assert(orig.subrange(0, 0).filter(pred) =~= Seq::<u64>::empty());
        }
        while i < self.allowed_user_ids.len()
            invariant
                0 <= i <= orig.len(),
                self.allowed_user_ids@ == orig,
                out@ == orig.subrange(0, i as int).filter(pred),
                removed == exists|k: int| 0 <= k < i && orig[k] == target,
            decreases orig.len() - i,
        {
            let ghost pre = orig.subrange(0, i as int);
            let u = self.allowed_user_ids[i];
            if u != target {
                out.push(u);
            } else {
                removed = true;
            }
            proof {
                let ext = orig.subrange(0, i + 1);
                assert(ext.drop_last() =~= pre);
                assert(ext.last() == orig[i as int]);
                reveal_with_fuel(Seq::filter, 2);
                if pred(orig[i as int]) {
                    assert(ext.filter(pred) =~= pre.filter(pred).push(orig[i as int]));
                } else {
                    assert(ext.filter(pred) =~= pre.filter(pred));
                }
            }
            i = i + 1;
        }
        proof {
            assert(orig.subrange(0, orig.len() as int) =~= orig);
            if removed {
                assert(old(self).user_allowed(target));
            }
            if old(self).user_allowed(target) {
                let w = choose|w: int| 0 <= w < orig.len() && orig[w] == target;
                assert(removed);
            }
        }
        self.allowed_user_ids = out;
        removed
    }

    /// Record the last working directory of a conversation.  The entry for
    /// the key is replaced (moved to the end); other entries keep their
    /// order.  The owner never changes.
    #[verifier::loop_isolation(false)]
    pub fn set_last_session(&mut self, key: &str, path: &str)
        requires
            old(self).wf(),
        ensures
            final(self).wf(),
            final(self).last_sessions@.len() > 0,
            final(self).last_sessions@.last().0@ == key@,
            final(self).last_sessions@.last().1@ == path@,
            final(self).last_sessions@.drop_last() == old(self).last_sessions@.filter(
                |e: (String, String)| e.0@ != key@,
            ),
            final(self).owner_user_id == old(self).owner_user_id,
            final(self).allowed_tools == old(self).allowed_tools,
            final(self).allowed_user_ids == old(self).allowed_user_ids,
    {
        let ghost pred = |e: (String, String)| e.0@ != key@;
        let ghost orig = self.last_sessions@;
        let mut out: Vec<(String, String)> = Vec::new();
        let mut i: usize = 0;
        proof {
            reveal_with_fuel(Seq::filter, 1);
            assert(orig.subrange(0, 0).filter(pred) =~= Seq::<(String, String)>::empty());
        }
        while i < self.last_sessions.len()
            invariant
                0 <= i <= orig.len(),
                self.last_sessions@ == orig,
                out@ == orig.subrange(0, i as int).filter(pred),
            decreases orig.len() - i,
        {
            let ghost pre = orig.subrange(0, i as int);
            let keep = !crate::util::str_eq(self.last_sessions[i].0.as_str(), key);
            if keep {
                let k2 = self.last_sessions[i].0.clone();
                let v2 = self.last_sessions[i].1.clone();
                proof {
                    assert((k2, v2) == orig[i as int]);
                }
                out.push((k2, v2));
            }
            proof {
                let ext = orig.subrange(0, i + 1);
                assert(ext.drop_last() =~= pre);
                assert(ext.last() == orig[i as int]);
                reveal_with_fuel(Seq::filter, 2);
                if pred(orig[i as int]) {
                    assert(ext.filter(pred) =~= pre.filter(pred).push(orig[i as int]));
                } else {
                    assert(ext.filter(pred) =~= pre.filter(pred));
                }
            }
            i = i + 1;
        }
        proof {
            assert(orig.subrange(0, orig.len() as int) =~= orig);
        }
        out.push((key.to_owned(), path.to_owned()));
        proof {
            let fin = out@;
            assert(fin.drop_last() =~= orig.filter(pred));
            lemma_filter_keeps_distinct_keys_ss(orig, pred);
            lemma_filter_membership(orig, pred);
            assert forall|a: int, b: int| 0 <= a < b < fin.len() implies fin[a].0@ != fin[b].0@ by {
                if b == fin.len() - 1 {
                    assert(fin[a] == orig.filter(pred)[a]);
                    orig.lemma_filter_pred(pred, a);
                } else {
                    assert(fin[a] == orig.filter(pred)[a]);
                    assert(fin[b] == orig.filter(pred)[b]);
                }
            }
        }
        self.last_sessions = out;
    }

    /// Look up the last working directory recorded for a conversation.
    pub fn last_session_of(&self, key: &str) -> (r: Option<&String>)
        ensures
            r matches Some(p) ==> exists|i: int|
                0 <= i < self.last_sessions@.len() && self.last_sessions@[i].0@ == key@
                    && self.last_sessions@[i].1 == *p,
            r is None ==> forall|i: int|
                0 <= i < self.last_sessions@.len() ==> self.last_sessions@[i].0@ != key@,
    {
        let mut i: usize = 0;
        while i < self.last_sessions.len()
            invariant
                0 <= i <= self.last_sessions@.len(),
                forall|k: int| 0 <= k < i ==> self.last_sessions@[k].0@ != key@,
            decreases self.last_sessions@.len() - i,
        {
            if crate::util::str_eq(self.last_sessions[i].0.as_str(), key) {
                return Some(&self.last_sessions[i].1);
            }
            i = i + 1;
        }
        None
    }
}

/// Filtering keeps the keys of a key-value list pairwise distinct.
proof fn lemma_filter_keeps_distinct_keys_ss(
    s: Seq<(String, String)>,
    pred: spec_fn((String, String)) -> bool,
)
    requires
        forall|i: int, j: int| 0 <= i < j < s.len() ==> s[i].0@ != s[j].0@,
    ensures
        forall|i: int, j: int|
            0 <= i < j < s.filter(pred).len() ==> s.filter(pred)[i].0@ != s.filter(pred)[j].0@,
    decreases s.len(),
{
    reveal_with_fuel(Seq::filter, 2);
    if s.len() > 0 {
        let head = s.drop_last();
        lemma_filter_keeps_distinct_keys_ss(head, pred);
        lemma_filter_membership(head, pred);
        if pred(s.last()) {
            assert forall|i: int, j: int|
                0 <= i < j < s.filter(pred).len() implies s.filter(pred)[i].0@ != s.filter(
                pred,
            )[j].0@ by {
                if j == s.filter(pred).len() - 1 {
                    assert(s.filter(pred)[i] == head.filter(pred)[i]);
                    let w = choose|w: int| 0 <= w < head.len() && head[w] == head.filter(pred)[i];
                    assert(s[w] == s.filter(pred)[i]);
                    assert(s[w].0@ != s[s.len() - 1].0@);
                } else {
                    assert(s.filter(pred)[i] == head.filter(pred)[i]);
                    assert(s.filter(pred)[j] == head.filter(pred)[j]);
                }
            }
        }
    }
}

/// The 32-byte SHA-256 digest of a byte sequence, named; the digest is a
/// function of the input alone.
pub uninterp spec fn sha256_of(b: Seq<u8>) -> Seq<u8>;

/// Relies on sha2::Sha256: the digest of the input bytes, 32 bytes long.
#[verifier::external_body]
fn sha256(data: &[u8]) -> (r: Vec<u8>)
    ensures
        r@ == sha256_of(data@),
        r@.len() == 32,
{
    let mut hasher = sha2::Sha256::new();
    hasher.update(data);
    hasher.finalize().to_vec()
}

/// One lowercase hex digit.
pub open spec fn hex_digit(d: u8) -> u8
    recommends
        d < 16,
{
    if d < 10 {
        (48 + d) as u8
    } else {
        (87 + d) as u8
    }
}

/// Lowercase hex rendering of a byte sequence, two digits per byte.
pub open spec fn hex_of(b: Seq<u8>) -> Seq<u8>
    decreases b.len(),
{
    if b.len() == 0 {
        seq![]
    } else {
        seq![hex_digit(b[0] / 16), hex_digit(b[0] % 16)] + hex_of(b.drop_first())
    }
}

/// Relies on hex::encode: two lowercase hex digits for each input byte.
#[verifier::external_body]
fn hex_encode(data: &Vec<u8>) -> (r: String)
    ensures
        encode_utf8(r@) == hex_of(data@),
{
    hex::encode(data.as_slice())
}

/// The key under which a credential's settings are stored: an optional
/// surface prefix, then the first 16 lowercase hex digits of the token's
/// SHA-256.  The two surfaces use disjoint keyspaces in the same document.
pub open spec fn credential_key_spec(token: Seq<u8>, prefix: Seq<char>) -> Seq<u8> {
    encode_utf8(prefix) + hex_of(sha256_of(token).subrange(0, 8))
}

/// Compute the settings key for a bot token: `prefix` (empty for surface B,
/// a fixed tag for surface A) followed by 16 hex digits of the token hash.
pub fn credential_key(token: &str, prefix: &str) -> (r: String)
    ensures
        encode_utf8(r@) == credential_key_spec(token.spec_bytes(), prefix@),
{
    let digest = sha256(token.as_bytes());
    let head = sub_bytes(&digest, 0, 8);
    let hexed = hex_encode(&head);
    let mut r = prefix.to_owned();
    let ghost r0 = r@;
    r.append(hexed.as_str());
    proof {
        crate::text::lemma_encode_concat(r0, hexed@);
    }
    r
}

} // verus!
