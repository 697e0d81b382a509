//! File-name validation, image-type detection, and human-readable sizes.

use crate::util::bytes_eq;
use crate::util::dec_bytes;
use crate::util::find_last_byte;
use crate::util::last_pos;
use crate::util::lemma_ascii_valid;
use crate::util::lemma_dec_bytes_ascii;
use crate::util::lemma_last_pos;
use crate::util::lower_bytes;
use crate::util::lower_bytes_exec;
use crate::util::push_dec;
use crate::util::string_from_utf8;
use crate::util::sub_bytes;
use vstd::prelude::*;
use vstd::string::StrSliceExecFns;
use vstd::string::StringSliceAdditionalSpecFns;
use vstd::utf8::encode_utf8;

verus! {

broadcast use vstd::slice::axiom_spec_len;

/// ASCII whitespace, as trimming sees it.
pub open spec fn is_trim_ws(b: u8) -> bool {
    b == 9 || b == 10 || b == 11 || b == 12 || b == 13 || b == 32
}

/// Nothing but whitespace (or nothing at all).
pub open spec fn all_ws(b: Seq<u8>) -> bool {
    forall|i: int| 0 <= i < b.len() ==> is_trim_ws(b[i])
}

/// Holds a path separator.
pub open spec fn has_separator(b: Seq<u8>) -> bool {
    exists|i: int| 0 <= i < b.len() && (b[i] == 47 || b[i] == 92)
}

/// Holds a NUL byte.
pub open spec fn has_nul(b: Seq<u8>) -> bool {
    exists|i: int| 0 <= i < b.len() && b[i] == 0
}

/// The reserved names `.` and `..`.
pub open spec fn is_dot_name(b: Seq<u8>) -> bool {
    b == seq![46u8] || b == seq![46u8, 46u8]
}

/// Holds a control character (the C0 range, DEL, or the C1 range, whose
/// UTF-8 form is 0xC2 followed by 0x80-0x9F).
pub open spec fn has_control(b: Seq<u8>) -> bool {
    exists|i: int|
        0 <= i < b.len() && (b[i] < 32 || b[i] == 127 || (b[i] == 194 && i + 1 < b.len() && 128
            <= b[i + 1] <= 159))
}

/// Starts or ends with whitespace.
pub open spec fn edge_ws(b: Seq<u8>) -> bool {
    b.len() > 0 && (is_trim_ws(b[0]) || is_trim_ws(b[b.len() - 1]))
}

/// Longest file name accepted.
pub const MAX_FILENAME_LENGTH: usize = 255;

/// The diagnostic a file name earns, or nothing when it is acceptable.
/// Checks run in a fixed order and the first failure wins.
pub open spec fn filename_error(b: Seq<u8>) -> Option<Seq<char>> {
    if b.len() == 0 || all_ws(b) {
        Some("Filename cannot be empty"@)
    } else if has_separator(b) {
        Some("Filename cannot contain path separators"@)
    } else if has_nul(b) {
        Some("Filename cannot contain null bytes"@)
    } else if is_dot_name(b) {
        Some("Invalid filename"@)
    } else if b.len() > MAX_FILENAME_LENGTH {
        Some("Filename too long (max 255 characters)"@)
    } else if has_control(b) {
        Some("Filename cannot contain control characters"@)
    } else if edge_ws(b) {
        Some("Filename cannot start or end with whitespace"@)
    } else if b[0] == 45 {
        Some("Filename cannot start with hyphen"@)
    } else {
        None
    }
}

/// Validate a file name against dangerous or malformed shapes: emptiness,
/// path separators, NUL bytes, the reserved dot names, excessive length,
/// control characters, edge whitespace, and a leading hyphen.
#[verifier::rlimit(100)]
#[verifier::loop_isolation(false)]
pub fn is_valid_filename(name: &str) -> (r: Result<(), &'static str>)
    ensures
        r is Ok <==> filename_error(name.spec_bytes()) is None,
        r matches Err(m) ==> filename_error(name.spec_bytes()) == Some(m@),
{
    let ghost b = name.spec_bytes();
    let bs = name.as_bytes();
    let n: usize = bs.len();
    // Emptiness / all-whitespace.
    let mut i: usize = 0;
    let mut only_ws: bool = true;
    while i < n
        invariant
            0 <= i <= n,
            bs@ == b,
            n == b.len(),
            only_ws <==> forall|k: int| 0 <= k < i ==> is_trim_ws(b[k]),
        decreases n - i,
    {
        let c = bs[i];
        if !(c == 9 || c == 10 || c == 11 || c == 12 || c == 13 || c == 32) {
            only_ws = false;
        }
        i = i + 1;
    }
    if n == 0 || only_ws {
        return Err("Filename cannot be empty");
    }
    // Path separators.
    let mut i: usize = 0;
    while i < n
        invariant
            0 <= i <= n,
            bs@ == b,
            n == b.len(),
            forall|k: int| 0 <= k < i ==> !(b[k] == 47 || b[k] == 92),
        decreases n - i,
    {
        if bs[i] == 47u8 || bs[i] == 92u8 {
            proof {
                assert(b[i as int] == 47 || b[i as int] == 92);
                assert(has_separator(b));
            }
            return Err("Filename cannot contain path separators");
        }
        i = i + 1;
    }
    // NUL bytes.
    let mut i: usize = 0;
    while i < n
        invariant
            0 <= i <= n,
            bs@ == b,
            n == b.len(),
            forall|k: int| 0 <= k < i ==> b[k] != 0,
        decreases n - i,
    {
        if bs[i] == 0u8 {
            proof {
                assert(b[i as int] == 0);
                assert(has_nul(b));
            }
            return Err("Filename cannot contain null bytes");
        }
        i = i + 1;
    }
    // Reserved names.
    if n == 1 && bs[0] == 46u8 {
        proof {
            assert(b =~= seq![46u8]);
        }
        return Err("Invalid filename");
    }
    if n == 2 && bs[0] == 46u8 && bs[1] == 46u8 {
        proof {
            assert(b =~= seq![46u8, 46u8]);
        }
        return Err("Invalid filename");
    }
    proof {
        if is_dot_name(b) {
            assert(false);
        }
    }
    // Length.
    if n > MAX_FILENAME_LENGTH {
        return Err("Filename too long (max 255 characters)");
    }
    // Control characters.
    let mut i: usize = 0;
    while i < n
        invariant
            0 <= i <= n,
            bs@ == b,
            n == b.len(),
            forall|k: int|
                0 <= k < i ==> !(b[k] < 32 || b[k] == 127 || (b[k] == 194 && k + 1 < b.len() && 128
                    <= b[k + 1] <= 159)),
        decreases n - i,
    {
        let c = bs[i];
        if c < 32u8 || c == 127u8 {
            proof {
                assert(b[i as int] < 32 || b[i as int] == 127);
                assert(has_control(b));
            }
            return Err("Filename cannot contain control characters");
        }
        if c == 194u8 && i + 1 < n {
            let d = bs[i + 1];
            if 128u8 <= d && d <= 159u8 {
                proof {
                    assert(b[i as int] == 194 && i + 1 < b.len() && 128 <= b[i as int + 1] <= 159);
                    assert(has_control(b));
                }
                return Err("Filename cannot contain control characters");
            }
        }
        i = i + 1;
    }
    // Edge whitespace.
    let first = bs[0];
    let last = bs[n - 1];
    if (first == 9u8 || first == 10u8 || first == 11u8 || first == 12u8 || first == 13u8 || first
        == 32u8) || (last == 9u8 || last == 10u8 || last == 11u8 || last == 12u8 || last == 13u8
        || last == 32u8) {
        return Err("Filename cannot start or end with whitespace");
    }
    // Leading hyphen.
    if first == 45u8 {
        return Err("Filename cannot start with hyphen");
    }
    Ok(())
}

/// The extension of the last path component, lowercased: the bytes after the
/// final dot, provided that dot stands after the final separator and not at
/// the component's first position.
pub open spec fn ext_lower_of(b: Seq<u8>) -> Option<Seq<u8>> {
    let fname = b.subrange(last_pos(b, 47, b.len() as int) + 1, b.len() as int);
    let d = last_pos(fname, 46, fname.len() as int);
    if d >= 1 {
        Some(lower_bytes(fname.subrange(d + 1, fname.len() as int)))
    } else {
        None
    }
}

/// The raster-image extensions the viewer recognises.
pub open spec fn is_image_ext(e: Seq<u8>) -> bool {
    ||| e == "png"@.map_values(|c: char| c as u8)
    ||| e == "jpg"@.map_values(|c: char| c as u8)
    ||| e == "jpeg"@.map_values(|c: char| c as u8)
    ||| e == "gif"@.map_values(|c: char| c as u8)
    ||| e == "bmp"@.map_values(|c: char| c as u8)
    ||| e == "webp"@.map_values(|c: char| c as u8)
    ||| e == "ico"@.map_values(|c: char| c as u8)
    ||| e == "tiff"@.map_values(|c: char| c as u8)
    ||| e == "tif"@.map_values(|c: char| c as u8)
}

/// True when the path names a file in a supported image format, judged by
/// its lowercased extension.
pub fn is_image_file(path: &str) -> (r: bool)
    ensures
        r == match ext_lower_of(path.spec_bytes()) {
            Some(e) => is_image_ext(e),
            None => false,
        },
{
    let ghost b = path.spec_bytes();
    let bv = path.as_bytes_vec();
    let n = bv.len();
    proof {
        lemma_last_pos(bv@, 47u8, bv@.len() as int);
    }
    let start: usize = match find_last_byte(&bv, 47u8) {
        Some(i) => i + 1,
        None => 0,
    };
    let fname = sub_bytes(&bv, start, n);
    proof {
        assert(fname@ =~= b.subrange(last_pos(b, 47, b.len() as int) + 1, b.len() as int));
    }
    proof {
        lemma_last_pos(fname@, 46u8, fname@.len() as int);
    }
    let d = match find_last_byte(&fname, 46u8) {
        Some(i) => i,
        None => {
            return false;
        },
    };
    if d == 0 {
        return false;
    }
    let ext_raw = sub_bytes(&fname, d + 1, fname.len());
    let ext = lower_bytes_exec(&ext_raw);
    proof {
        reveal_strlit("png");
        reveal_strlit("jpg");
        reveal_strlit("jpeg");
        reveal_strlit("gif");
        reveal_strlit("bmp");
        reveal_strlit("webp");
        reveal_strlit("ico");
        reveal_strlit("tiff");
        reveal_strlit("tif");
    }
    let mut pats: Vec<Vec<u8>> = Vec::new();
    pats.push(vec![112u8, 110u8, 103u8]);
    pats.push(vec![106u8, 112u8, 103u8]);
    pats.push(vec![106u8, 112u8, 101u8, 103u8]);
    pats.push(vec![103u8, 105u8, 102u8]);
    pats.push(vec![98u8, 109u8, 112u8]);
    pats.push(vec![119u8, 101u8, 98u8, 112u8]);
    pats.push(vec![105u8, 99u8, 111u8]);
    pats.push(vec![116u8, 105u8, 102u8, 102u8]);
    pats.push(vec![116u8, 105u8, 102u8]);
    let mut k: usize = 0;
    let mut hit: bool = false;
    while k < pats.len()
        invariant
            0 <= k <= pats@.len(),
            hit <==> exists|m: int| 0 <= m < k && ext@ == pats@[m]@,
        decreases pats@.len() - k,
    {
        if bytes_eq(&ext, &pats[k]) {
            hit = true;
        }
        k = k + 1;
    }
    proof {
        assert(pats@[0]@ =~= "png"@.map_values(|c: char| c as u8));
        assert(pats@[1]@ =~= "jpg"@.map_values(|c: char| c as u8));
        assert(pats@[2]@ =~= "jpeg"@.map_values(|c: char| c as u8));
        assert(pats@[3]@ =~= "gif"@.map_values(|c: char| c as u8));
        assert(pats@[4]@ =~= "bmp"@.map_values(|c: char| c as u8));
        assert(pats@[5]@ =~= "webp"@.map_values(|c: char| c as u8));
        assert(pats@[6]@ =~= "ico"@.map_values(|c: char| c as u8));
        assert(pats@[7]@ =~= "tiff"@.map_values(|c: char| c as u8));
        assert(pats@[8]@ =~= "tif"@.map_values(|c: char| c as u8));
    }
    hit
}

/// One kibibyte, mebibyte, gibibyte.
pub const KB: u64 = 1024;

pub const MB: u64 = 1048576;

pub const GB: u64 = 1073741824;

/// `n` scaled to tenths of `unit`, rounded half away from zero.
pub open spec fn scaled_tenths(n: nat, unit: nat) -> nat
    recommends
        unit >= 2,
{
    (n * 10 + unit / 2) / unit
}

/// Decimal rendering with one fractional digit and a unit suffix.
pub open spec fn size_with_unit(n: nat, unit: nat, suffix: Seq<u8>) -> Seq<u8> {
    let t = scaled_tenths(n, unit);
    dec_bytes(t / 10) + seq![46u8] + seq![(48 + t % 10) as u8] + suffix
}

/// The bytes of the human-readable form of a byte count.
pub open spec fn format_size_spec(n: nat) -> Seq<u8> {
    if n >= GB {
        size_with_unit(n, GB as nat, seq![71u8, 66u8])
    } else if n >= MB {
        size_with_unit(n, MB as nat, seq![77u8, 66u8])
    } else if n >= KB {
        size_with_unit(n, KB as nat, seq![75u8, 66u8])
    } else {
        dec_bytes(n) + seq![66u8]
    }
}

/// Render a byte count for display: gibibytes, mebibytes or kibibytes with
/// one decimal place, plain bytes below one kibibyte.
pub fn format_size(bytes: u64) -> (r: String)
    ensures
        encode_utf8(r@) == format_size_spec(bytes as nat),
{
    let mut out: Vec<u8> = Vec::new();
    if bytes >= GB {
        let t: u64 = (((bytes as u128) * 10 + 536870912u128) / 1073741824u128) as u64;
        proof {
            assert(t as nat == scaled_tenths(bytes as nat, GB as nat));
        }
        push_dec(&mut out, t / 10);
        out.push(46u8);
        out.push(48u8 + (t % 10) as u8);
        out.push(71u8);
        out.push(66u8);
        proof {
            assert(out@ =~= format_size_spec(bytes as nat));
        }
    } else if bytes >= MB {
        let t: u64 = (bytes * 10 + 524288) / 1048576;
        proof {
            assert(t as nat == scaled_tenths(bytes as nat, MB as nat));
        }
        push_dec(&mut out, t / 10);
        out.push(46u8);
        out.push(48u8 + (t % 10) as u8);
        out.push(77u8);
        out.push(66u8);
        proof {
            assert(out@ =~= format_size_spec(bytes as nat));
        }
    } else if bytes >= KB {
        let t: u64 = (bytes * 10 + 512) / 1024;
        proof {
            assert(t as nat == scaled_tenths(bytes as nat, KB as nat));
        }
        push_dec(&mut out, t / 10);
        out.push(46u8);
        out.push(48u8 + (t % 10) as u8);
        out.push(75u8);
        out.push(66u8);
        proof {
            assert(out@ =~= format_size_spec(bytes as nat));
        }
    } else {
        push_dec(&mut out, bytes);
        out.push(66u8);
        proof {
            assert(out@ =~= format_size_spec(bytes as nat));
        }
    }
    proof {
        lemma_format_size_ascii(bytes as nat);
        lemma_ascii_valid(out@);
    }
    string_from_utf8(out)
}

proof fn lemma_format_size_ascii(n: nat)
    ensures
        forall|i: int| 0 <= i < format_size_spec(n).len() ==> format_size_spec(n)[i] < 128,
{
    if n >= GB {
        lemma_dec_bytes_ascii(scaled_tenths(n, GB as nat) / 10);
    } else if n >= MB {
        lemma_dec_bytes_ascii(scaled_tenths(n, MB as nat) / 10);
    } else if n >= KB {
        lemma_dec_bytes_ascii(scaled_tenths(n, KB as nat) / 10);
    } else {
        lemma_dec_bytes_ascii(n);
    }
}

} // verus!
