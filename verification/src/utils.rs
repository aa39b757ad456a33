//! General text utilities: extracting fenced code blocks from marked-up
//! responses, and rendering byte counts as human-readable sizes.

use vstd::prelude::*;
use vstd::string::StrSliceExecFns;
use vstd::string::StringExecFns;
use crate::text::{
    append_digit, digit_char, find_from, spec_dec, spec_find, spec_trim, trim_owned, u64_to_dec,
};

verus! {

/// The code block extracted from marked-up text: the content between a
/// fence opened with the given language tag and the next closing fence,
/// trimmed; else the content of the first plain fenced block with its info
/// line skipped; else nothing.
pub open spec fn spec_extract(text: Seq<char>, language: Seq<char>) -> Option<Seq<char>> {
    let fence = "```"@ + language;
    let tagged = match spec_find(text, fence, 0) {
        Some(s) => {
            let cs = s + fence.len();
            match spec_find(text, "```"@, cs) {
                Some(e) => Some(spec_trim(text.subrange(cs, e))),
                None => None,
            }
        },
        None => None,
    };
    match tagged {
        Some(r) => Some(r),
        None => match spec_find(text, "```"@, 0) {
            Some(s2) => {
                let cs2 = s2 + "```"@.len();
                match spec_find(text, "\n"@, cs2) {
                    Some(nl) => {
                        let c = nl + 1;
                        match spec_find(text, "```"@, c) {
                            Some(e2) => Some(spec_trim(text.subrange(c, e2))),
                            None => None,
                        }
                    },
                    None => None,
                }
            },
            None => None,
        },
    }
}

/// Extracts a fenced code block from marked-up text: first a block tagged
/// with the given language, then any fenced block with its first (info)
/// line skipped. The content comes back trimmed.
pub fn extract_code_block(text: &str, language: &str) -> (r: Option<String>)
    ensures
        match r {
            Some(code) => spec_extract(text@, language@) == Some(code@),
            None => spec_extract(text@, language@) is None,
        },
{
    let text_len = text.unicode_len();
    proof {
        assert(text@.len() == text_len);
    }
    let mut fence = String::new();
    fence.append("```");
    fence.append(language);
    let flen = fence.as_str().unicode_len();
    match find_from(text, fence.as_str(), 0) {
        Some(start_pos) => {
            proof {
                crate::text::lemma_spec_find_some(text@, fence@, 0);
            }
            let content_start = start_pos + flen;
            match find_from(text, "```", content_start) {
                Some(end_pos) => {
                    proof {
                        crate::text::lemma_spec_find_some(text@, "```"@, content_start as int);
                    }
                    let piece = text.substring_char(content_start, end_pos);
                    return Some(trim_owned(piece));
                },
                None => {},
            }
        },
        None => {},
    }
    match find_from(text, "```", 0) {
        Some(start_pos) => {
            proof {
                crate::text::lemma_spec_find_some(text@, "```"@, 0);
                reveal_strlit("```");
            }
            let content_start = start_pos + 3;
            match find_from(text, "\n", content_start) {
                Some(nl) => {
                    proof {
                        crate::text::lemma_spec_find_some(text@, "\n"@, content_start as int);
                        reveal_strlit("\n");
                    }
                    let code_start = nl + 1;
                    match find_from(text, "```", code_start) {
                        Some(end_pos) => {
                            proof {
                                crate::text::lemma_spec_find_some(
                                    text@,
                                    "```"@,
                                    code_start as int,
                                );
                            }
                            let piece = text.substring_char(code_start, end_pos);
                            return Some(trim_owned(piece));
                        },
                        None => {},
                    }
                },
                None => {},
            }
        },
        None => {},
    }
    None
}

/// The scaled value in hundredths: `b * 100 / unit`, rounded to the nearest
/// integer with ties to even.
pub open spec fn spec_scaled_hundredths(b: nat, unit: nat) -> nat {
    let num = b * 100;
    let q = num / unit;
    let r = num % unit;
    if 2 * r > unit {
        q + 1
    } else if 2 * r == unit && q % 2 == 1 {
        q + 1
    } else {
        q
    }
}

/// `whole.frac` with exactly two fraction digits, from a value in
/// hundredths.
pub open spec fn spec_hundredths_str(q: nat) -> Seq<char> {
    spec_dec(q / 100) + seq!['.'] + seq![digit_char(((q / 10) % 10) as int)] + seq![
        digit_char((q % 10) as int),
    ]
}

/// A byte count rendered with a binary-unit suffix: two fraction digits for
/// KB, MB and GB, the plain count for anything smaller.
pub open spec fn spec_format_file_size(b: nat) -> Seq<char> {
    if b >= 1073741824 {
        spec_hundredths_str(spec_scaled_hundredths(b, 1073741824)) + " GB"@
    } else if b >= 1048576 {
        spec_hundredths_str(spec_scaled_hundredths(b, 1048576)) + " MB"@
    } else if b >= 1024 {
        spec_hundredths_str(spec_scaled_hundredths(b, 1024)) + " KB"@
    } else {
        spec_dec(b) + " B"@
    }
}

/// The scaled value in hundredths as an executable computation.
fn scaled_hundredths(bytes: u64, unit: u64) -> (q: u64)
    requires
        1024 <= unit,
    ensures
        q == spec_scaled_hundredths(bytes as nat, unit as nat),
{
    let num: u128 = (bytes as u128) * 100;
    let u: u128 = unit as u128;
    let q0: u128 = num / u;
    let r0: u128 = num % u;
    proof {
        assert(num < 0x80000000000000000000u128) by {
            assert(bytes as u128 <= u64::MAX as u128);
        }
        assert(q0 * u + r0 == num) by {
            vstd::arithmetic::div_mod::lemma_fundamental_div_mod(num as int, u as int);
        }
        assert(q0 * 1024 <= q0 * u) by (nonlinear_arith)
            requires
                1024 <= u,
                q0 >= 0,
        ;
        assert(q0 < 0x2000000000000000u128);
    }
    let rounded: u128 = if 2 * r0 > u {
        q0 + 1
    } else if 2 * r0 == u && q0 % 2 == 1 {
        q0 + 1
    } else {
        q0
    };
    rounded as u64
}

fn append_hundredths(s: &mut String, q: u64)
    ensures
        final(s)@ == old(s)@ + spec_hundredths_str(q as nat),
{
    let whole = u64_to_dec(q / 100);
    s.append(whole.as_str());
    s.append(".");
    proof {
        reveal_strlit(".");
        assert("."@ =~= seq!['.']);
    }
    append_digit(s, (q / 10) % 10);
    append_digit(s, q % 10);
}

/// Renders a byte count with a binary-unit suffix: `512 B`, `2.00 KB`,
/// `1.00 MB`, and so on, with two fraction digits rounded to nearest, ties
/// to even.
pub fn format_file_size(bytes: u64) -> (r: String)
    ensures
        r@ == spec_format_file_size(bytes as nat),
{
    let mut s = String::new();
    if bytes >= 1073741824 {
        let q = scaled_hundredths(bytes, 1073741824);
        append_hundredths(&mut s, q);
        s.append(" GB");
    } else if bytes >= 1048576 {
        let q = scaled_hundredths(bytes, 1048576);
        append_hundredths(&mut s, q);
        s.append(" MB");
    } else if bytes >= 1024 {
        let q = scaled_hundredths(bytes, 1024);
        append_hundredths(&mut s, q);
        s.append(" KB");
    } else {
        let d = u64_to_dec(bytes);
        s.append(d.as_str());
        s.append(" B");
    }
    s
}

} // verus!
