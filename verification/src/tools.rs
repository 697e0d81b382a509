//! The tool catalog: canonical tool names, risk classification, name
//! normalization, the default allowlist, and allowlist edits.

use crate::util::lower_bytes;
use crate::util::str_eq;
use crate::util::string_from_utf8;
use vstd::prelude::*;
use vstd::string::StrSliceExecFns;
use vstd::string::StringExecFns;
use vstd::string::StringSliceAdditionalSpecFns;
use vstd::utf8::encode_utf8;
use vstd::utf8::is_leading_byte_width_1;
use vstd::utf8::length_of_first_scalar;
use vstd::utf8::pop_first_scalar;
use vstd::utf8::valid_first_scalar;
use vstd::utf8::valid_utf8;

verus! {

broadcast use {vstd::slice::axiom_spec_len, vstd::seq::group_seq_axioms};

/// ASCII uppercase folding of one byte.
pub open spec fn upper_byte(b: u8) -> u8 {
    if 97 <= b <= 122 {
        (b - 32) as u8
    } else {
        b
    }
}

/// Canonical form of a tool name: every ASCII letter lowercased, then the
/// first byte title-cased.
pub open spec fn normalize_tool_spec(b: Seq<u8>) -> Seq<u8> {
    let low = lower_bytes(b);
    if b.len() == 0 {
        low
    } else {
        low.update(0, upper_byte(low[0]))
    }
}

/// Replacing bytes of a valid UTF-8 sequence only ASCII-for-ASCII keeps it
/// valid.
pub proof fn lemma_ascii_substitution(b: Seq<u8>, c: Seq<u8>)
    requires
        valid_utf8(b),
        c.len() == b.len(),
        forall|i: int| 0 <= i < b.len() ==> c[i] == b[i] || (b[i] < 128 && c[i] < 128),
    ensures
        valid_utf8(c),
    decreases b.len(),
{
    if b.len() > 0 {
        let k = length_of_first_scalar(b);
        if is_leading_byte_width_1(b[0]) {
            assert(is_leading_byte_width_1(c[0]));
            assert(valid_first_scalar(c));
            assert(length_of_first_scalar(c) == 1);
        } else {
            // A multi-byte scalar holds no ASCII bytes, so it is unchanged.
            assert(forall|i: int| 0 <= i < k ==> b[i] >= 128);
            assert(forall|i: int| 0 <= i < k ==> c[i] == b[i]);
            assert(valid_first_scalar(c));
            assert(length_of_first_scalar(c) == k);
        }
        let bt = pop_first_scalar(b);
        let ct = pop_first_scalar(c);
        assert(bt.len() == ct.len());
        assert(forall|i: int| 0 <= i < bt.len() ==> ct[i] == bt[i] || (bt[i] < 128 && ct[i] < 128));
        lemma_ascii_substitution(bt, ct);
    }
}

/// Normalize a tool name to its canonical catalog form: ASCII letters are
/// lowercased, then the first byte is title-cased; other bytes pass through.
pub fn normalize_tool_name(name: &str) -> (r: String)
    ensures
        encode_utf8(r@) == normalize_tool_spec(name.spec_bytes()),
{
    let ghost b = name.spec_bytes();
    proof {
        vstd::utf8::encode_utf8_valid_utf8(name@);
    }
    let bs = name.as_bytes();
    let n: usize = bs.len();
    let mut out: Vec<u8> = Vec::new();
    let mut i: usize = 0;
    while i < n
        invariant
            0 <= i <= n,
            bs@ == b,
            n == b.len(),
            out@ == normalize_tool_spec(b).subrange(0, i as int),
        decreases n - i,
    {
        let c = bs[i];
        let low: u8 = if 65u8 <= c && c <= 90u8 {
            c + 32
        } else {
            c
        };
        let v: u8 = if i == 0 {
            if 97u8 <= low && low <= 122u8 {
                low - 32
            } else {
                low
            }
        } else {
            low
        };
        out.push(v);
        proof {
            assert(normalize_tool_spec(b)[i as int] == v);
            assert(out@ =~= normalize_tool_spec(b).subrange(0, i + 1));
        }
        i = i + 1;
    }
    proof {
        assert(out@ =~= normalize_tool_spec(b));
        lemma_ascii_substitution(b, out@);
    }
    string_from_utf8(out)
}

/// Normalization is idempotent: a name already in canonical form is left
/// untouched, so normalizing twice equals normalizing once.
pub proof fn lemma_normalize_tool_idempotent(b: Seq<u8>)
    ensures
        normalize_tool_spec(normalize_tool_spec(b)) == normalize_tool_spec(b),
{
    assert(normalize_tool_spec(normalize_tool_spec(b)) =~= normalize_tool_spec(b));
}

/// Description and destructiveness of each cataloged tool; an unknown name
/// is a custom tool, not destructive.
pub open spec fn tool_info_spec(s: Seq<char>) -> (Seq<char>, bool) {
    if s == "Bash"@ {
        ("Execute shell commands"@, true)
    } else if s == "Read"@ {
        ("Read file contents from the filesystem"@, false)
    } else if s == "Edit"@ {
        ("Perform find-and-replace edits in files"@, true)
    } else if s == "Write"@ {
        ("Create or overwrite files"@, true)
    } else if s == "Glob"@ {
        ("Find files by name pattern"@, false)
    } else if s == "Grep"@ {
        ("Search file contents with regex"@, false)
    } else if s == "Task"@ {
        ("Launch autonomous sub-agents for complex tasks"@, true)
    } else if s == "TaskOutput"@ {
        ("Retrieve output from background tasks"@, false)
    } else if s == "TaskStop"@ {
        ("Stop a running background task"@, false)
    } else if s == "WebFetch"@ {
        ("Fetch and process web page content"@, true)
    } else if s == "WebSearch"@ {
        ("Search the web for up-to-date information"@, true)
    } else if s == "NotebookEdit"@ {
        ("Edit Jupyter notebook cells"@, true)
    } else if s == "Skill"@ {
        ("Invoke slash-command skills"@, false)
    } else if s == "TaskCreate"@ {
        ("Create a structured task in the task list"@, false)
    } else if s == "TaskGet"@ {
        ("Retrieve task details by ID"@, false)
    } else if s == "TaskUpdate"@ {
        ("Update task status or details"@, false)
    } else if s == "TaskList"@ {
        ("List all tasks and their status"@, false)
    } else if s == "AskUserQuestion"@ {
        ("Ask the user a question (interactive)"@, false)
    } else if s == "EnterPlanMode"@ {
        ("Enter planning mode (interactive)"@, false)
    } else if s == "ExitPlanMode"@ {
        ("Exit planning mode (interactive)"@, false)
    } else {
        ("Custom tool"@, false)
    }
}

/// Look a tool up in the catalog: its description and whether it can change
/// state outside the session.
pub fn tool_info(name: &str) -> (r: (&'static str, bool))
    ensures
        r.0@ == tool_info_spec(name@).0,
        r.1 == tool_info_spec(name@).1,
{
    if str_eq(name, "Bash") {
        ("Execute shell commands", true)
    } else if str_eq(name, "Read") {
        ("Read file contents from the filesystem", false)
    } else if str_eq(name, "Edit") {
        ("Perform find-and-replace edits in files", true)
    } else if str_eq(name, "Write") {
        ("Create or overwrite files", true)
    } else if str_eq(name, "Glob") {
        ("Find files by name pattern", false)
    } else if str_eq(name, "Grep") {
        ("Search file contents with regex", false)
    } else if str_eq(name, "Task") {
        ("Launch autonomous sub-agents for complex tasks", true)
    } else if str_eq(name, "TaskOutput") {
        ("Retrieve output from background tasks", false)
    } else if str_eq(name, "TaskStop") {
        ("Stop a running background task", false)
    } else if str_eq(name, "WebFetch") {
        ("Fetch and process web page content", true)
    } else if str_eq(name, "WebSearch") {
        ("Search the web for up-to-date information", true)
    } else if str_eq(name, "NotebookEdit") {
        ("Edit Jupyter notebook cells", true)
    } else if str_eq(name, "Skill") {
        ("Invoke slash-command skills", false)
    } else if str_eq(name, "TaskCreate") {
        ("Create a structured task in the task list", false)
    } else if str_eq(name, "TaskGet") {
        ("Retrieve task details by ID", false)
    } else if str_eq(name, "TaskUpdate") {
        ("Update task status or details", false)
    } else if str_eq(name, "TaskList") {
        ("List all tasks and their status", false)
    } else if str_eq(name, "AskUserQuestion") {
        ("Ask the user a question (interactive)", false)
    } else if str_eq(name, "EnterPlanMode") {
        ("Enter planning mode (interactive)", false)
    } else if str_eq(name, "ExitPlanMode") {
        ("Exit planning mode (interactive)", false)
    } else {
        ("Custom tool", false)
    }
}

/// Render a risk badge for display: destructive tools carry a mark.
pub fn risk_badge(destructive: bool) -> (r: &'static str)
    ensures
        destructive ==> r@ == "!!!"@,
        !destructive ==> r@ == ""@,
{
    if destructive {
        "!!!"
    } else {
        ""
    }
}

/// The default allowlist, in catalog order.
pub open spec fn default_tools_spec() -> Seq<Seq<char>> {
    seq![
        "Bash"@,
        "Read"@,
        "Edit"@,
        "Write"@,
        "Glob"@,
        "Grep"@,
        "Task"@,
        "TaskOutput"@,
        "TaskStop"@,
        "WebFetch"@,
        "WebSearch"@,
        "NotebookEdit"@,
        "Skill"@,
        "TaskCreate"@,
        "TaskGet"@,
        "TaskUpdate"@,
        "TaskList"@,
    ]
}

/// Build the default allowlist.
pub fn default_allowed_tools() -> (r: Vec<String>)
    ensures
        r.deep_view() == default_tools_spec(),
{
    let mut v: Vec<String> = Vec::new();
    v.push(String::from_str("Bash"));
    v.push(String::from_str("Read"));
    v.push(String::from_str("Edit"));
    v.push(String::from_str("Write"));
    v.push(String::from_str("Glob"));
    v.push(String::from_str("Grep"));
    v.push(String::from_str("Task"));
    v.push(String::from_str("TaskOutput"));
    v.push(String::from_str("TaskStop"));
    v.push(String::from_str("WebFetch"));
    v.push(String::from_str("WebSearch"));
    v.push(String::from_str("NotebookEdit"));
    v.push(String::from_str("Skill"));
    v.push(String::from_str("TaskCreate"));
    v.push(String::from_str("TaskGet"));
    v.push(String::from_str("TaskUpdate"));
    v.push(String::from_str("TaskList"));
    proof {
        assert(v.deep_view() =~= default_tools_spec());
    }
    v
}

/// Whether a name stands in a list of names.
pub open spec fn name_listed(ts: Seq<Seq<char>>, x: Seq<char>) -> bool {
    exists|i: int| 0 <= i < ts.len() && ts[i] == x
}

/// True when `name` is in `tools`.
pub fn allowlist_contains(tools: &Vec<String>, name: &str) -> (r: bool)
    ensures
        r == name_listed(tools.deep_view(), name@),
{
    let mut i: usize = 0;
    while i < tools.len()
        invariant
            0 <= i <= tools@.len(),
            forall|k: int| 0 <= k < i ==> tools.deep_view()[k] != name@,
        decreases tools@.len() - i,
    {
        if str_eq(tools[i].as_str(), name) {
            proof {
                assert(tools.deep_view()[i as int] == name@);
            }
            return true;
        }
        i = i + 1;
    }
    false
}

/// Add `name` to the allowlist unless already present.  Returns whether the
/// list changed; the list keeps its order, with a new name at the end.
pub fn allowlist_add(tools: &mut Vec<String>, name: &str) -> (added: bool)
    ensures
        added == !name_listed(old(tools).deep_view(), name@),
        added ==> final(tools).deep_view() == old(tools).deep_view().push(name@),
        !added ==> final(tools).deep_view() == old(tools).deep_view(),
{
    if allowlist_contains(tools, name) {
        false
    } else {
        tools.push(name.to_owned());
        proof {
            assert(tools.deep_view() =~= old(tools).deep_view().push(name@));
        }
        true
    }
}

/// Remove every entry equal to `name`.  Returns whether anything left; the
/// remaining entries keep their order.
#[verifier::loop_isolation(false)]
pub fn allowlist_remove(tools: &mut Vec<String>, name: &str) -> (removed: bool)
    ensures
        final(tools).deep_view() == old(tools).deep_view().filter(|t: Seq<char>| t != name@),
        removed == name_listed(old(tools).deep_view(), name@),
{
    let ghost pred = |t: Seq<char>| t != name@;
    let ghost orig = tools.deep_view();
    let mut out: Vec<String> = Vec::new();
    let mut removed: bool = false;
    let mut i: usize = 0;
    proof {
        reveal_with_fuel(Seq::filter, 1);
        assert(orig.subrange(0, 0).filter(pred) =~= Seq::<Seq<char>>::empty());
        assert(out.deep_view() =~= orig.subrange(0, 0).filter(pred));
    }
    while i < tools.len()
        invariant
            0 <= i <= tools@.len(),
            tools.deep_view() == orig,
            out.deep_view() == orig.subrange(0, i as int).filter(pred),
            removed == exists|k: int| 0 <= k < i && orig[k] == name@,
        decreases tools@.len() - i,
    {
        let ghost pre = orig.subrange(0, i as int);
        let ghost outpre = out.deep_view();
        let ghost outpre_v = out@;
        proof {
            assert(orig[i as int] == tools@[i as int]@);
        }
        let keep = !str_eq(tools[i].as_str(), name);
        proof {
            assert(keep == pred(orig[i as int]));
        }
        if keep {
            let item = tools[i].clone();
            proof {
                assert(item.deep_view() == orig[i as int]);
            }
            out.push(item);
            proof {
                assert(out@ =~= outpre_v.push(item));
                assert(out.deep_view() =~= outpre.push(orig[i as int]));
            }
        } else {
            removed = true;
        }
        proof {
            let ext = orig.subrange(0, i + 1);
            assert(ext.drop_last() =~= pre);
            assert(ext.last() == orig[i as int]);
            reveal_with_fuel(Seq::filter, 2);
            if pred(orig[i as int]) {
                assert(ext.filter(pred) =~= pre.filter(pred).push(orig[i as int]));
            } else {
                assert(ext.filter(pred) =~= pre.filter(pred));
            }
        }
        i = i + 1;
    }
    proof {
        assert(orig.subrange(0, orig.len() as int) =~= orig);
    }
    *tools = out;
    removed
}

/// The default tools missing from the current allowlist, in catalog order.
#[verifier::loop_isolation(false)]
pub fn disabled_tools(allowed: &Vec<String>) -> (r: Vec<String>)
    ensures
        r.deep_view() == default_tools_spec().filter(
            |t: Seq<char>| !name_listed(allowed.deep_view(), t),
        ),
{
    let ghost pred = |t: Seq<char>| !name_listed(allowed.deep_view(), t);
    let defaults = default_allowed_tools();
    let ghost dv = defaults.deep_view();
    let mut out: Vec<String> = Vec::new();
    let mut i: usize = 0;
    proof {
        reveal_with_fuel(Seq::filter, 1);
        assert(dv.subrange(0, 0).filter(pred) =~= Seq::<Seq<char>>::empty());
        assert(out.deep_view() =~= dv.subrange(0, 0).filter(pred));
    }
    while i < defaults.len()
        invariant
            0 <= i <= defaults@.len(),
            defaults.deep_view() == dv,
            dv == default_tools_spec(),
            out.deep_view() == dv.subrange(0, i as int).filter(pred),
            pred == (|t: Seq<char>| !name_listed(allowed.deep_view(), t)),
        decreases defaults@.len() - i,
    {
        let ghost pre = dv.subrange(0, i as int);
        let ghost outpre = out.deep_view();
        let ghost outpre_v = out@;
        let absent = !allowlist_contains(allowed, defaults[i].as_str());
        if absent {
            let item = defaults[i].clone();
            proof {
                assert(item.deep_view() == dv[i as int]);
            }
            out.push(item);
            proof {
                assert(out@ =~= outpre_v.push(item));
                assert(out.deep_view() =~= outpre.push(dv[i as int]));
            }
        }
        proof {
            let ext = dv.subrange(0, i + 1);
            assert(ext.drop_last() =~= pre);
            assert(ext.last() == dv[i as int]);
            reveal_with_fuel(Seq::filter, 2);
            if pred(dv[i as int]) {
                assert(ext.filter(pred) =~= pre.filter(pred).push(dv[i as int]));
            } else {
                assert(ext.filter(pred) =~= pre.filter(pred));
            }
        }
        i = i + 1;
    }
    proof {
        assert(dv.subrange(0, dv.len() as int) =~= dv);
    }
    out
}


/// The plain values a tool invocation's JSON input carries, as far as the
/// one-line summaries read them.  An absent field reads as empty.
pub struct ToolFields {
    pub description: Option<String>,
    pub command: Option<String>,
    pub file_path: Option<String>,
    pub content: Option<String>,
    pub replace_all: bool,
    pub pattern: Option<String>,
    pub path: Option<String>,
    pub output_mode: Option<String>,
    pub query: Option<String>,
    pub url: Option<String>,
    pub subagent_type: Option<String>,
    pub skill: Option<String>,
}

/// The bytes of an optional string, empty when absent.
pub open spec fn osb(o: Option<String>) -> Seq<u8> {
    match o {
        Some(s) => encode_utf8(s@),
        None => Seq::<u8>::empty(),
    }
}

/// `b` cut to at most `k` bytes the way display truncation cuts.
pub open spec fn trunc(b: Seq<u8>, k: int) -> Seq<u8> {
    b.subrange(0, crate::text::truncate_cut(b, k))
}

/// The tools with a dedicated one-line rendering.
pub open spec fn has_summary(name: Seq<char>) -> bool {
    ||| name == "Bash"@
    ||| name == "Read"@
    ||| name == "Write"@
    ||| name == "Edit"@
    ||| name == "Glob"@
    ||| name == "Grep"@
    ||| name == "WebSearch"@
    ||| name == "WebFetch"@
    ||| name == "Task"@
    ||| name == "Skill"@
}

/// The one-line summary of a tool invocation, over its extracted fields.
pub open spec fn summary_spec(name: Seq<char>, f: ToolFields) -> Seq<u8> {
    if name == "Bash"@ {
        if osb(f.description).len() > 0 {
            osb(f.description) + encode_utf8(": `"@) + trunc(osb(f.command), 150) + encode_utf8(
                "`"@,
            )
        } else {
            encode_utf8("`"@) + trunc(osb(f.command), 200) + encode_utf8("`"@)
        }
    } else if name == "Read"@ {
        encode_utf8("Read "@) + osb(f.file_path)
    } else if name == "Write"@ {
        let lines = crate::text::lines_from(osb(f.content), 0).len() as int;
        if lines > 0 {
            encode_utf8("Write "@) + osb(f.file_path) + encode_utf8(" ("@) + crate::util::dec_bytes(
                lines as nat,
            ) + encode_utf8(" lines)"@)
        } else {
            encode_utf8("Write "@) + osb(f.file_path)
        }
    } else if name == "Edit"@ {
        if f.replace_all {
            encode_utf8("Edit "@) + osb(f.file_path) + encode_utf8(" (replace all)"@)
        } else {
            encode_utf8("Edit "@) + osb(f.file_path)
        }
    } else if name == "Glob"@ {
        if osb(f.path).len() > 0 {
            encode_utf8("Glob "@) + osb(f.pattern) + encode_utf8(" in "@) + osb(f.path)
        } else {
            encode_utf8("Glob "@) + osb(f.pattern)
        }
    } else if name == "Grep"@ {
        if osb(f.path).len() > 0 {
            if osb(f.output_mode).len() > 0 {
                encode_utf8("Grep \""@) + osb(f.pattern) + encode_utf8("\" in "@) + osb(f.path)
                    + encode_utf8(" ("@) + osb(f.output_mode) + encode_utf8(")"@)
            } else {
                encode_utf8("Grep \""@) + osb(f.pattern) + encode_utf8("\" in "@) + osb(f.path)
            }
        } else {
            encode_utf8("Grep \""@) + osb(f.pattern) + encode_utf8("\""@)
        }
    } else if name == "WebSearch"@ {
        encode_utf8("Search: "@) + osb(f.query)
    } else if name == "WebFetch"@ {
        encode_utf8("Fetch "@) + osb(f.url)
    } else if name == "Task"@ {
        if osb(f.subagent_type).len() > 0 {
            encode_utf8("Task ["@) + osb(f.subagent_type) + encode_utf8("]: "@) + osb(
                f.description,
            )
        } else {
            encode_utf8("Task: "@) + osb(f.description)
        }
    } else {
        encode_utf8("Skill: "@) + osb(f.skill)
    }
}

/// The rendering of a tool whose input could not be read as fields: the
/// name, a space, and the input capped for display.
pub open spec fn fallback_summary_spec(name: Seq<char>, input: Seq<char>) -> Seq<u8> {
    encode_utf8(name) + encode_utf8(" "@) + trunc(encode_utf8(input), 200)
}

/// The string behind an optional field, empty when absent.
fn ostr(o: &Option<String>) -> (r: &str)
    ensures
        encode_utf8(r@) == osb(*o),
{
    match o {
        Some(s) => s.as_str(),
        None => {
            proof {
                reveal_strlit("");
                assert(encode_utf8(""@) =~= Seq::<u8>::empty());
            }
            ""
        },
    }
}

/// Count the lines of a text.
#[verifier::loop_isolation(false)]
fn count_lines(s: &str) -> (r: usize)
    ensures
        r == crate::text::lines_from(s.spec_bytes(), 0).len(),
{
    let ghost b = s.spec_bytes();
    let bs = s.as_bytes();
    let n: usize = bs.len();
    let mut cnt: usize = 0;
    let mut pos: usize = 0;
    while pos < n
        invariant
            0 <= pos <= n,
            cnt <= pos,
            cnt + crate::text::lines_from(b, pos as int).len() == crate::text::lines_from(
                b,
                0,
            ).len(),
        decreases n - pos,
    {
        let mut j: usize = pos;
        while j < n && bs[j] != 10u8
            invariant
                pos <= j <= n,
                forall|k: int| pos <= k < j ==> b[k] != crate::text::nl(),
            decreases n - j,
        {
            j = j + 1;
        }
        proof {
            crate::text::lemma_first_nl_pin(b, pos as int, j as int);
            assert(crate::text::lines_from(b, pos as int).drop_first() =~= if (j as int)
                < b.len() {
                crate::text::lines_from(b, (j + 1) as int)
            } else {
                Seq::<Seq<u8>>::empty()
            });
        }
        cnt = cnt + 1;
        pos = if j < n {
            j + 1
        } else {
            n
        };
        proof {
            if pos == n && j == n {
                assert(crate::text::lines_from(b, pos as int) =~= Seq::<Seq<u8>>::empty());
            }
        }
    }
    proof {
        assert(crate::text::lines_from(b, pos as int) =~= Seq::<Seq<u8>>::empty());
    }
    cnt
}

/// Append, tracking the byte-level effect.
fn append_str(out: &mut String, s: &str)
    ensures
        final(out)@ == old(out)@ + s@,
        encode_utf8(final(out)@) == encode_utf8(old(out)@) + encode_utf8(s@),
{
    let ghost o = out@;
    out.append(s);
    proof {
        crate::text::lemma_encode_concat(o, s@);
    }
}

/// Render the one-line summary for a tool that has one; tools outside the
/// table have none and fall back to the raw rendering.
#[verifier::rlimit(100)]
#[verifier::spinoff_prover]
pub fn summarize_tool(name: &str, f: &ToolFields) -> (r: Option<String>)
    ensures
        r is Some <==> has_summary(name@),
        r matches Some(out) ==> encode_utf8(out@) == summary_spec(name@, *f),
{
    proof {
        reveal_strlit("");
    }
    if str_eq(name, "Bash") {
        let desc = ostr(&f.description);
        let cmd = ostr(&f.command);
        let mut out: String = String::new();
        if !desc.is_empty() {
            proof {
                crate::text::lemma_encode_empty(desc@);
            }
            append_str(&mut out, desc);
            append_str(&mut out, ": `");
            let t = crate::text::truncate_str(cmd, 150);
            append_str(&mut out, t.as_str());
            append_str(&mut out, "`");
            proof {
                assert(encode_utf8(out@) =~= summary_spec(name@, *f));
            }
        } else {
            proof {
                crate::text::lemma_encode_empty(desc@);
            }
            append_str(&mut out, "`");
            let t = crate::text::truncate_str(cmd, 200);
            append_str(&mut out, t.as_str());
            append_str(&mut out, "`");
            proof {
                assert(encode_utf8(out@) =~= summary_spec(name@, *f));
            }
        }
        Some(out)
    } else if str_eq(name, "Read") {
        let mut out: String = String::new();
        append_str(&mut out, "Read ");
        append_str(&mut out, ostr(&f.file_path));
        proof {
            assert(encode_utf8(out@) =~= summary_spec(name@, *f));
        }
        Some(out)
    } else if str_eq(name, "Write") {
        let content = ostr(&f.content);
        let lines = count_lines(content);
        let mut out: String = String::new();
        append_str(&mut out, "Write ");
        append_str(&mut out, ostr(&f.file_path));
        if lines > 0 {
            append_str(&mut out, " (");
            let num = crate::util::dec_string(lines as u64);
            append_str(&mut out, num.as_str());
            append_str(&mut out, " lines)");
            proof {
                assert(encode_utf8(out@) =~= summary_spec(name@, *f));
            }
        } else {
            proof {
                assert(encode_utf8(out@) =~= summary_spec(name@, *f));
            }
        }
        Some(out)
    } else if str_eq(name, "Edit") {
        let mut out: String = String::new();
        append_str(&mut out, "Edit ");
        append_str(&mut out, ostr(&f.file_path));
        if f.replace_all {
            append_str(&mut out, " (replace all)");
            proof {
                assert(encode_utf8(out@) =~= summary_spec(name@, *f));
            }
        } else {
            proof {
                assert(encode_utf8(out@) =~= summary_spec(name@, *f));
            }
        }
        Some(out)
    } else if str_eq(name, "Glob") {
        let mut out: String = String::new();
        append_str(&mut out, "Glob ");
        append_str(&mut out, ostr(&f.pattern));
        let pathv = ostr(&f.path);
        proof {
            crate::text::lemma_encode_empty(pathv@);
        }
        if !pathv.is_empty() {
            append_str(&mut out, " in ");
            append_str(&mut out, pathv);
            proof {
                assert(encode_utf8(out@) =~= summary_spec(name@, *f));
            }
        } else {
            proof {
                assert(encode_utf8(out@) =~= summary_spec(name@, *f));
            }
        }
        Some(out)
    } else if str_eq(name, "Grep") {
        let mut out: String = String::new();
        append_str(&mut out, "Grep \"");
        append_str(&mut out, ostr(&f.pattern));
        let pathv = ostr(&f.path);
        let modev = ostr(&f.output_mode);
        proof {
            crate::text::lemma_encode_empty(pathv@);
            crate::text::lemma_encode_empty(modev@);
        }
        if !pathv.is_empty() {
            append_str(&mut out, "\" in ");
            append_str(&mut out, pathv);
            if !modev.is_empty() {
                append_str(&mut out, " (");
                append_str(&mut out, modev);
                append_str(&mut out, ")");
                proof {
                    assert(encode_utf8(out@) =~= summary_spec(name@, *f));
                }
            } else {
                proof {
                    assert(encode_utf8(out@) =~= summary_spec(name@, *f));
                }
            }
        } else {
            append_str(&mut out, "\"");
            proof {
                assert(encode_utf8(out@) =~= summary_spec(name@, *f));
            }
        }
        Some(out)
    } else if str_eq(name, "WebSearch") {
        let mut out: String = String::new();
        append_str(&mut out, "Search: ");
        append_str(&mut out, ostr(&f.query));
        proof {
            assert(encode_utf8(out@) =~= summary_spec(name@, *f));
        }
        Some(out)
    } else if str_eq(name, "WebFetch") {
        let mut out: String = String::new();
        append_str(&mut out, "Fetch ");
        append_str(&mut out, ostr(&f.url));
        proof {
            assert(encode_utf8(out@) =~= summary_spec(name@, *f));
        }
        Some(out)
    } else if str_eq(name, "Task") {
        let sub = ostr(&f.subagent_type);
        let mut out: String = String::new();
        proof {
            crate::text::lemma_encode_empty(sub@);
        }
        if !sub.is_empty() {
            append_str(&mut out, "Task [");
            append_str(&mut out, sub);
            append_str(&mut out, "]: ");
            append_str(&mut out, ostr(&f.description));
            proof {
                assert(encode_utf8(out@) =~= summary_spec(name@, *f));
            }
        } else {
            append_str(&mut out, "Task: ");
            append_str(&mut out, ostr(&f.description));
            proof {
                assert(encode_utf8(out@) =~= summary_spec(name@, *f));
            }
        }
        Some(out)
    } else if str_eq(name, "Skill") {
        let mut out: String = String::new();
        append_str(&mut out, "Skill: ");
        append_str(&mut out, ostr(&f.skill));
        proof {
            assert(encode_utf8(out@) =~= summary_spec(name@, *f));
        }
        Some(out)
    } else {
        None
    }
}

/// Extract the summary-relevant fields from a tool's input JSON, or nothing
/// when it is not a JSON document.  What comes back depends on the outside
/// parser; every outcome is handled by `summarize_tool`.
pub fn extract_tool_fields(input: &str) -> (r: Option<ToolFields>) {
    let v = match crate::jsonio::parse_json(input) {
        Some(v) => v,
        None => {
            return None;
        },
    };
    let replace_all = match crate::jsonio::field_bool(&v, "replace_all") {
        Some(x) => x,
        None => false,
    };
    Some(
        ToolFields {
            description: crate::jsonio::field_str(&v, "description"),
            command: crate::jsonio::field_str(&v, "command"),
            file_path: crate::jsonio::field_str(&v, "file_path"),
            content: crate::jsonio::field_str(&v, "content"),
            replace_all,
            pattern: crate::jsonio::field_str(&v, "pattern"),
            path: crate::jsonio::field_str(&v, "path"),
            output_mode: crate::jsonio::field_str(&v, "output_mode"),
            query: crate::jsonio::field_str(&v, "query"),
            url: crate::jsonio::field_str(&v, "url"),
            subagent_type: crate::jsonio::field_str(&v, "subagent_type"),
            skill: crate::jsonio::field_str(&v, "skill"),
        },
    )
}

/// One-line rendering of a tool invocation for the progress view: the
/// dedicated summary when the tool has one and its input parsed, otherwise
/// the name followed by the capped raw input.
pub fn format_tool_input(name: &str, input: &str) -> (r: String)
    ensures
        (exists|f: ToolFields| encode_utf8(r@) == summary_spec(name@, f)) || encode_utf8(r@)
            == fallback_summary_spec(name@, input@),
{
    let fields = extract_tool_fields(input);
    if let Some(f) = fields {
        if let Some(out) = summarize_tool(name, &f) {
            proof {
                assert(encode_utf8(out@) == summary_spec(name@, f));
            }
            return out;
        }
    }
    let mut out = name.to_owned();
    append_str(&mut out, " ");
    let t = crate::text::truncate_str(input, 200);
    append_str(&mut out, t.as_str());
    proof {
        assert(encode_utf8(out@) =~= fallback_summary_spec(name@, input@));
    }
    out
}

} // verus!
