//! File-content validation.
//!
//! Given a file's raw bytes and its extension, the checker reports the
//! detected encoding, the line count, the file type, syntax errors for
//! JSON and TOML files, unbalanced braces and leftover debug statements
//! for script files, and style warnings for trailing whitespace and
//! over-long lines.  Reading the bytes from disk is the caller's side.

use vstd::prelude::*;
use vstd::slice::slice_index_get;
use vstd::utf8::{
    codepoint_width_2, codepoint_width_3, codepoint_width_4, decode_first_codepoint, decode_utf8,
    encode_utf8, length_of_first_codepoint, length_of_first_scalar, partial_valid_utf8,
    partial_valid_partial_invalid_utf8, partial_valid_utf8_extend, valid_first_scalar, valid_utf8,
};

use crate::diff::{spec_split_lines, split_lines};
use crate::text::{
    count_char, count_char_in, fmt_usize_list, seq_contains, spec_fmt_list, spec_fmt_nat,
    str_contains, str_eq,
};

verus! {

/// The report of one file check.
pub struct FileCheckResult {
    pub valid: bool,
    pub errors: Vec<String>,
    pub warnings: Vec<String>,
    pub file_type: String,
    pub line_count: usize,
    pub encoding: String,
}

// ---------------------------------------------------------------------------
// UTF-8 validation
// ---------------------------------------------------------------------------

/// Whether the bytes form a valid UTF-8 encoding: every scalar uses the
/// shortest possible form and none falls in the surrogate range.
pub fn is_valid_utf8(bytes: &[u8]) -> (r: bool)
    ensures
        r == valid_utf8(bytes@),
{
    let n = bytes.len();
    let mut i: usize = 0;
    proof {
        assert(bytes@.subrange(0, 0) =~= Seq::<u8>::empty());
    }
    while i < n
        invariant
            i <= n,
            n == bytes@.len(),
            partial_valid_utf8(bytes@, i as int),
        decreases n - i,
    {
        let ghost rest = bytes@.subrange(i as int, n as int);
        let b0 = *slice_index_get(bytes, i);
        proof {
            assert(rest[0] == bytes@[i as int]);
        }
        if b0 < 0x80 {
            proof {
                assert((b0 & 0x7F) == b0) by (bit_vector)
                    requires
                        b0 < 0x80,
                ;
                assert(valid_first_scalar(rest));
                assert(length_of_first_scalar(rest) == 1);
                partial_valid_utf8_extend(bytes@, i as int);
            }
            i = i + 1;
        } else if b0 < 0xC0 {
            // a continuation byte cannot lead a scalar
            proof {
                reject_first_scalar(bytes@, i as int);
            }
            return false;
        } else if b0 < 0xE0 {
            if n - i < 2 {
                proof {
                    reject_first_scalar(bytes@, i as int);
                }
                return false;
            }
            let b1 = *slice_index_get(bytes, i + 1);
            proof {
                assert(rest[1] == bytes@[i + 1]);
            }
            if !(0x80 <= b1 && b1 < 0xC0) {
                proof {
                    reject_first_scalar(bytes@, i as int);
                }
                return false;
            }
            let cp: u32 = (((b0 & 0x1F) as u32) << 6) | ((b1 & 0x3F) as u32);
            proof {
                assert(cp == codepoint_width_2(b0, b1));
                assert(length_of_first_codepoint(rest) == 2);
                assert(decode_first_codepoint(rest) == cp);
            }
            if cp < 0x80 {
                // overlong two-byte form
                proof {
                    reject_first_scalar(bytes@, i as int);
                }
                return false;
            }
            proof {
                assert(cp <= 0x7FF) by (bit_vector)
                    requires
                        cp == (((b0 & 0x1F) as u32) << 6) | ((b1 & 0x3F) as u32),
                ;
                assert(valid_first_scalar(rest));
                assert(length_of_first_scalar(rest) == 2);
                partial_valid_utf8_extend(bytes@, i as int);
            }
            i = i + 2;
        } else if b0 < 0xF0 {
            if n - i < 3 {
                proof {
                    reject_first_scalar(bytes@, i as int);
                }
                return false;
            }
            let b1 = *slice_index_get(bytes, i + 1);
            let b2 = *slice_index_get(bytes, i + 2);
            proof {
                assert(rest[1] == bytes@[i + 1]);
                assert(rest[2] == bytes@[i + 2]);
            }
            if !(0x80 <= b1 && b1 < 0xC0) || !(0x80 <= b2 && b2 < 0xC0) {
                proof {
                    reject_first_scalar(bytes@, i as int);
                }
                return false;
            }
            let cp: u32 = (((b0 & 0x0F) as u32) << 12) | (((b1 & 0x3F) as u32) << 6) | ((b2
                & 0x3F) as u32);
            proof {
                assert(cp == codepoint_width_3(b0, b1, b2));
                assert(length_of_first_codepoint(rest) == 3);
                assert(decode_first_codepoint(rest) == cp);
            }
            if cp < 0x800 || (0xD800 <= cp && cp <= 0xDFFF) {
                // overlong three-byte form, or a surrogate
                proof {
                    reject_first_scalar(bytes@, i as int);
                }
                return false;
            }
            proof {
                assert(valid_first_scalar(rest));
                assert(length_of_first_scalar(rest) == 3);
                partial_valid_utf8_extend(bytes@, i as int);
            }
            i = i + 3;
        } else if b0 < 0xF8 {
            if n - i < 4 {
                proof {
                    reject_first_scalar(bytes@, i as int);
                }
                return false;
            }
            let b1 = *slice_index_get(bytes, i + 1);
            let b2 = *slice_index_get(bytes, i + 2);
            let b3 = *slice_index_get(bytes, i + 3);
            proof {
                assert(rest[1] == bytes@[i + 1]);
                assert(rest[2] == bytes@[i + 2]);
                assert(rest[3] == bytes@[i + 3]);
            }
            if !(0x80 <= b1 && b1 < 0xC0) || !(0x80 <= b2 && b2 < 0xC0) || !(0x80 <= b3 && b3
                < 0xC0) {
                proof {
                    reject_first_scalar(bytes@, i as int);
                }
                return false;
            }
            let cp: u32 = (((b0 & 0x07) as u32) << 18) | (((b1 & 0x3F) as u32) << 12) | (((b2
                & 0x3F) as u32) << 6) | ((b3 & 0x3F) as u32);
            proof {
                assert(cp == codepoint_width_4(b0, b1, b2, b3));
                assert(length_of_first_codepoint(rest) == 4);
                assert(decode_first_codepoint(rest) == cp);
            }
            if cp < 0x10000 || cp > 0x10FFFF {
                // overlong four-byte form, or beyond the Unicode range
                proof {
                    reject_first_scalar(bytes@, i as int);
                }
                return false;
            }
            proof {
                assert(valid_first_scalar(rest));
                assert(length_of_first_scalar(rest) == 4);
                partial_valid_utf8_extend(bytes@, i as int);
            }
            i = i + 4;
        } else {
            // no scalar's leading byte reaches 0xF8
            proof {
                reject_first_scalar(bytes@, i as int);
            }
            return false;
        }
    }
    proof {
        assert(bytes@.subrange(0, n as int) =~= bytes@);
    }
    true
}

/// A valid prefix followed by an ill-formed first scalar condemns the
/// whole sequence.
proof fn reject_first_scalar(bytes: Seq<u8>, i: int)
    requires
        partial_valid_utf8(bytes, i),
        i < bytes.len(),
        !valid_first_scalar(bytes.subrange(i, bytes.len() as int)),
    ensures
        !valid_utf8(bytes),
{
    let rest = bytes.subrange(i, bytes.len() as int);
    assert(rest.len() != 0);
    assert(!valid_utf8(rest));
    partial_valid_partial_invalid_utf8(bytes, i);
}

// ---------------------------------------------------------------------------
// Trusted boundary
// ---------------------------------------------------------------------------

/// What `String::from_utf8_lossy` makes of a byte sequence.
pub uninterp spec fn lossy_decode(bytes: Seq<u8>) -> Seq<char>;

/// Relies on String::from_utf8_lossy: the result depends on the bytes
/// alone, and bytes that are valid UTF-8 decode without loss.
#[verifier::external_body]
fn utf8_lossy(bytes: &[u8]) -> (r: String)
    ensures
        r@ == lossy_decode(bytes@),
        valid_utf8(bytes@) ==> r@ == decode_utf8(bytes@),
{
    String::from_utf8_lossy(bytes).into_owned()
}

/// Whether serde_json parses a text as a JSON document.
pub uninterp spec fn json_wf(text: Seq<char>) -> bool;

/// Relies on serde_json::from_str::<Value>: whether the text parses is a
/// function of the text alone.  On failure the message names the error.
#[verifier::external_body]
fn json_syntax_error(text: &str) -> (r: Option<String>)
    ensures
        r is None <==> json_wf(text@),
{
    match serde_json::from_str::<serde_json::Value>(text) {
        Ok(_) => None,
        Err(e) => Some(format!("Invalid JSON syntax: {}", e)),
    }
}

/// Whether toml parses a text as a TOML document.
pub uninterp spec fn toml_wf(text: Seq<char>) -> bool;

/// Relies on toml::from_str::<Value>: whether the text parses is a
/// function of the text alone.  On failure the message names the error.
#[verifier::external_body]
fn toml_syntax_error(text: &str) -> (r: Option<String>)
    ensures
        r is None <==> toml_wf(text@),
{
    match toml::from_str::<toml::Value>(text) {
        Ok(_) => None,
        Err(e) => Some(format!("Invalid TOML syntax: {}", e)),
    }
}

// ---------------------------------------------------------------------------
// What the report says
// ---------------------------------------------------------------------------

/// A UTF-8 byte-order mark opens the file.
pub open spec fn has_bom(b: Seq<u8>) -> bool {
    b.len() >= 3 && b[0] == 0xEF && b[1] == 0xBB && b[2] == 0xBF
}

/// The encoding label: a BOM wins, then clean UTF-8, then binary.
pub open spec fn spec_encoding(b: Seq<u8>) -> Seq<char> {
    if has_bom(b) {
        "UTF-8 BOM"@
    } else if valid_utf8(b) {
        "UTF-8"@
    } else {
        "Unknown/Binary"@
    }
}

/// A script-family extension.
pub open spec fn is_js_ext(ext: Seq<char>) -> bool {
    ext == "ts"@ || ext == "tsx"@ || ext == "js"@ || ext == "jsx"@
}

/// The file-type label for an extension.
pub open spec fn spec_file_type(ext: Seq<char>) -> Seq<char> {
    if ext == "rs"@ {
        "Rust"@
    } else if ext == "ts"@ || ext == "tsx"@ {
        "TypeScript"@
    } else if ext == "js"@ || ext == "jsx"@ {
        "JavaScript"@
    } else if ext == "json"@ {
        "JSON"@
    } else if ext == "toml"@ {
        "TOML"@
    } else if ext == "md"@ {
        "Markdown"@
    } else if ext == "txt"@ {
        "Text"@
    } else {
        "Unknown"@
    }
}

/// The line ends in a space or a tab.
pub open spec fn has_trailing_ws(line: Seq<char>) -> bool {
    line.len() > 0 && (line.last() == ' ' || line.last() == '\t')
}

/// The line is longer than 120 bytes.
pub open spec fn is_long_line(line: Seq<char>) -> bool {
    encode_utf8(line).len() as usize > 120
}

/// The 1-based numbers, from position `i` on, of the lines that end in
/// whitespace.
pub open spec fn ws_line_numbers(lines: Seq<Seq<char>>, i: int) -> Seq<usize>
    decreases lines.len() - i,
{
    if i < 0 || i >= lines.len() {
        Seq::empty()
    } else if has_trailing_ws(lines[i]) {
        seq![((i + 1) as usize)] + ws_line_numbers(lines, i + 1)
    } else {
        ws_line_numbers(lines, i + 1)
    }
}

/// The 1-based numbers, from position `i` on, of the over-long lines.
pub open spec fn long_line_numbers(lines: Seq<Seq<char>>, i: int) -> Seq<usize>
    decreases lines.len() - i,
{
    if i < 0 || i >= lines.len() {
        Seq::empty()
    } else if is_long_line(lines[i]) {
        seq![((i + 1) as usize)] + long_line_numbers(lines, i + 1)
    } else {
        long_line_numbers(lines, i + 1)
    }
}

/// The brace-mismatch error message.
pub open spec fn spec_unbalanced_msg(open_n: int, close_n: int) -> Seq<char> {
    "Unbalanced braces: "@ + spec_fmt_nat(open_n) + " open, "@ + spec_fmt_nat(close_n) + " close"@
}

/// Every warning the check reports, in order: debug statements for script
/// files, then trailing whitespace, then over-long lines; the line-number
/// warnings only when the list is short enough to be readable.
pub open spec fn spec_warnings(ext: Seq<char>, text: Seq<char>) -> Seq<Seq<char>> {
    let js = is_js_ext(ext);
    let lines = spec_split_lines(text);
    let tw = ws_line_numbers(lines, 0);
    let ll = long_line_numbers(lines, 0);
    let s1: Seq<Seq<char>> = if js && seq_contains(text, "console.log"@) {
        seq!["Found console.log statement"@]
    } else {
        Seq::empty()
    };
    let s2: Seq<Seq<char>> = if js && seq_contains(text, "debugger"@) {
        seq!["Found debugger statement"@]
    } else {
        Seq::empty()
    };
    let s3: Seq<Seq<char>> = if tw.len() > 0 && tw.len() < 10 {
        seq!["Trailing whitespace on lines: "@ + spec_fmt_list(tw)]
    } else {
        Seq::empty()
    };
    let s4: Seq<Seq<char>> = if ll.len() > 0 && ll.len() < 10 {
        seq!["Lines longer than 120 characters: "@ + spec_fmt_list(ll)]
    } else {
        Seq::empty()
    };
    s1 + s2 + s3 + s4
}

/// What the error list must hold: the one syntax error of a JSON or TOML
/// file that does not parse, the one brace-mismatch error of a script
/// file, and nothing else.
pub open spec fn spec_errors_ok(ext: Seq<char>, text: Seq<char>, errs: Seq<Seq<char>>) -> bool {
    if ext == "json"@ {
        errs.len() == (if json_wf(text) {
            0int
        } else {
            1int
        })
    } else if ext == "toml"@ {
        errs.len() == (if toml_wf(text) {
            0int
        } else {
            1int
        })
    } else if is_js_ext(ext) {
        let open_n = count_char(text, '{');
        let close_n = count_char(text, '}');
        if open_n == close_n {
            errs.len() == 0
        } else {
            errs == seq![spec_unbalanced_msg(open_n, close_n)]
        }
    } else {
        errs.len() == 0
    }
}

// ---------------------------------------------------------------------------
// The checker
// ---------------------------------------------------------------------------

/// The 1-based numbers of the lines that end in whitespace.
fn collect_ws_lines(lines: &Vec<String>) -> (r: Vec<usize>)
    ensures
        r@ == ws_line_numbers(lines.deep_view(), 0),
{
    let ghost dv = lines.deep_view();
    let n = lines.len();
    let mut nums: Vec<usize> = Vec::new();
    let mut i: usize = 0;
    proof {
        assert(dv.len() == lines@.len());
        assert(Seq::<usize>::empty() + ws_line_numbers(dv, 0) =~= ws_line_numbers(dv, 0));
    }
    while i < n
        invariant
            i <= n,
            n == lines@.len(),
            dv == lines.deep_view(),
            n == dv.len(),
            nums@ + ws_line_numbers(dv, i as int) == ws_line_numbers(dv, 0),
        decreases n - i,
    {
        let l: &str = lines[i].as_str();
        let ln = l.unicode_len();
        proof {
            assert(dv[i as int] == lines@[i as int]@);
        }
        if ln > 0 {
            let c = l.get_char(ln - 1);
            if c == ' ' || c == '\t' {
                assert(has_trailing_ws(dv[i as int]));
                let ghost before = nums@;
                nums.push(i + 1);
                proof {
                    assert(nums@ =~= before.push((i + 1) as usize));
                    assert(before.push((i + 1) as usize) + ws_line_numbers(dv, i as int + 1)
                        =~= before + (seq![((i + 1) as usize)] + ws_line_numbers(
                        dv,
                        i as int + 1,
                    )));
                }
            } else {
                assert(!has_trailing_ws(dv[i as int]));
            }
        } else {
            assert(!has_trailing_ws(dv[i as int]));
        }
        i = i + 1;
    }
    proof {
        assert(ws_line_numbers(dv, n as int) =~= Seq::<usize>::empty());
        assert(nums@ + Seq::<usize>::empty() =~= nums@);
    }
    nums
}

/// The 1-based numbers of the over-long lines.
fn collect_long_lines(lines: &Vec<String>) -> (r: Vec<usize>)
    ensures
        r@ == long_line_numbers(lines.deep_view(), 0),
{
    let ghost dv = lines.deep_view();
    let n = lines.len();
    let mut nums: Vec<usize> = Vec::new();
    let mut i: usize = 0;
    proof {
        assert(dv.len() == lines@.len());
        assert(Seq::<usize>::empty() + long_line_numbers(dv, 0) =~= long_line_numbers(dv, 0));
    }
    while i < n
        invariant
            i <= n,
            n == lines@.len(),
            dv == lines.deep_view(),
            n == dv.len(),
            nums@ + long_line_numbers(dv, i as int) == long_line_numbers(dv, 0),
        decreases n - i,
    {
        let l: &str = lines[i].as_str();
        proof {
            assert(dv[i as int] == lines@[i as int]@);
        }
        if l.len() > 120 {
            assert(is_long_line(dv[i as int]));
            let ghost before = nums@;
            nums.push(i + 1);
            proof {
                assert(nums@ =~= before.push((i + 1) as usize));
                assert(before.push((i + 1) as usize) + long_line_numbers(dv, i as int + 1)
                    =~= before + (seq![((i + 1) as usize)] + long_line_numbers(dv, i as int + 1)));
            }
        } else {
            assert(!is_long_line(dv[i as int]));
        }
        i = i + 1;
    }
    proof {
        assert(long_line_numbers(dv, n as int) =~= Seq::<usize>::empty());
        assert(nums@ + Seq::<usize>::empty() =~= nums@);
    }
    nums
}

/// Check a file's content: detect its encoding and type, count its lines,
/// and collect the syntax errors and style warnings its extension calls
/// for.  The file is valid exactly when no error was found.
#[verifier::rlimit(60)]
pub fn check_file_content(extension: &str, content: &Vec<u8>) -> (r: FileCheckResult)
    ensures
        r.encoding@ == spec_encoding(content@),
        r.file_type@ == spec_file_type(extension@),
        r.line_count == spec_split_lines(lossy_decode(content@)).len(),
        r.warnings.deep_view() == spec_warnings(extension@, lossy_decode(content@)),
        spec_errors_ok(extension@, lossy_decode(content@), r.errors.deep_view()),
        r.valid == (r.errors@.len() == 0),
{
    let encoding = if content.len() >= 3 && content[0] == 0xEF && content[1] == 0xBB && content[2]
        == 0xBF {
        "UTF-8 BOM".to_owned()
    } else if is_valid_utf8(content.as_slice()) {
        "UTF-8".to_owned()
    } else {
        "Unknown/Binary".to_owned()
    };
    let text = utf8_lossy(content.as_slice());
    let lines = split_lines(text.as_str());
    let line_count = lines.len();
    proof {
        assert(lines.deep_view().len() == lines@.len());
    }

    let file_type = if str_eq(extension, "rs") {
        "Rust".to_owned()
    } else if str_eq(extension, "ts") || str_eq(extension, "tsx") {
        "TypeScript".to_owned()
    } else if str_eq(extension, "js") || str_eq(extension, "jsx") {
        "JavaScript".to_owned()
    } else if str_eq(extension, "json") {
        "JSON".to_owned()
    } else if str_eq(extension, "toml") {
        "TOML".to_owned()
    } else if str_eq(extension, "md") {
        "Markdown".to_owned()
    } else if str_eq(extension, "txt") {
        "Text".to_owned()
    } else {
        "Unknown".to_owned()
    };

    let mut errors: Vec<String> = Vec::new();
    let mut warnings: Vec<String> = Vec::new();
    proof {
        assert(errors.deep_view() =~= Seq::<Seq<char>>::empty());
        assert(warnings.deep_view() =~= Seq::<Seq<char>>::empty());
    }
    let is_js = str_eq(extension, "ts") || str_eq(extension, "tsx") || str_eq(extension, "js")
        || str_eq(extension, "jsx");

    if str_eq(extension, "json") {
        match json_syntax_error(text.as_str()) {
            Some(e) => {
                errors.push(e);
                proof {
                    assert(errors.deep_view() =~= Seq::<Seq<char>>::empty().push(e@));
                }
            },
            None => {},
        }
    } else if str_eq(extension, "toml") {
        match toml_syntax_error(text.as_str()) {
            Some(e) => {
                errors.push(e);
                proof {
                    assert(errors.deep_view() =~= Seq::<Seq<char>>::empty().push(e@));
                }
            },
            None => {},
        }
    } else if is_js {
        let has_console = str_contains(text.as_str(), "console.log");
        if has_console {
            let w = "Found console.log statement".to_owned();
            let ghost before = warnings.deep_view();
            warnings.push(w);
            proof {
                assert(warnings.deep_view() =~= before.push("Found console.log statement"@));
            }
        }
        let has_debugger = str_contains(text.as_str(), "debugger");
        if has_debugger {
            let w = "Found debugger statement".to_owned();
            let ghost before = warnings.deep_view();
            warnings.push(w);
            proof {
                assert(warnings.deep_view() =~= before.push("Found debugger statement"@));
            }
        }
        let open_n = count_char_in(text.as_str(), '{');
        let close_n = count_char_in(text.as_str(), '}');
        if open_n != close_n {
            let mut msg = "Unbalanced braces: ".to_owned();
            let od = crate::text::fmt_usize(open_n);
            msg.append(od.as_str());
            msg.append(" open, ");
            let cd = crate::text::fmt_usize(close_n);
            msg.append(cd.as_str());
            msg.append(" close");
            proof {
                assert(msg@ =~= spec_unbalanced_msg(open_n as int, close_n as int));
            }
            errors.push(msg);
            proof {
                assert(errors.deep_view() =~= Seq::<Seq<char>>::empty().push(msg@));
                assert(errors.deep_view() =~= seq![
                    spec_unbalanced_msg(open_n as int, close_n as int),
                ]);
            }
        }
    }

    let ghost warn_js = warnings.deep_view();

    let tw = collect_ws_lines(&lines);
    if tw.len() > 0 && tw.len() < 10 {
        let mut w = "Trailing whitespace on lines: ".to_owned();
        let ls = fmt_usize_list(&tw);
        w.append(ls.as_str());
        let ghost before = warnings.deep_view();
        let ghost wv = w@;
        warnings.push(w);
        proof {
            assert(warnings.deep_view() =~= before.push(wv));
        }
    }
    let ghost warn_tw = warnings.deep_view();

    let ll = collect_long_lines(&lines);
    if ll.len() > 0 && ll.len() < 10 {
        let mut w = "Lines longer than 120 characters: ".to_owned();
        let ls = fmt_usize_list(&ll);
        w.append(ls.as_str());
        let ghost before = warnings.deep_view();
        let ghost wv = w@;
        warnings.push(w);
        proof {
            assert(warnings.deep_view() =~= before.push(wv));
        }
    }

    proof {
        let ext = extension@;
        let t = lossy_decode(content@);
        let lns = spec_split_lines(t);
        let js = is_js_ext(ext);
        let s1: Seq<Seq<char>> = if js && seq_contains(t, "console.log"@) {
            seq!["Found console.log statement"@]
        } else {
            Seq::empty()
        };
        let s2: Seq<Seq<char>> = if js && seq_contains(t, "debugger"@) {
            seq!["Found debugger statement"@]
        } else {
            Seq::empty()
        };
        let twn = ws_line_numbers(lns, 0);
        let lln = long_line_numbers(lns, 0);
        let s3: Seq<Seq<char>> = if twn.len() > 0 && twn.len() < 10 {
            seq!["Trailing whitespace on lines: "@ + spec_fmt_list(twn)]
        } else {
            Seq::empty()
        };
        let s4: Seq<Seq<char>> = if lln.len() > 0 && lln.len() < 10 {
            seq!["Lines longer than 120 characters: "@ + spec_fmt_list(lln)]
        } else {
            Seq::empty()
        };
        reveal_strlit("ts");
        reveal_strlit("tsx");
        reveal_strlit("js");
        reveal_strlit("jsx");
        reveal_strlit("json");
        reveal_strlit("toml");
        assert("ts"@.len() == 2);
        assert("tsx"@.len() == 3);
        assert("js"@.len() == 2);
        assert("jsx"@.len() == 3);
        assert("json"@.len() == 4);
        assert("toml"@.len() == 4);
        assert(warn_js =~= s1 + s2);
        assert(warn_tw =~= (s1 + s2) + s3);
        assert(warnings.deep_view() =~= ((s1 + s2) + s3) + s4);
        assert(((s1 + s2) + s3) + s4 =~= s1 + s2 + s3 + s4);
    }

    let valid = errors.len() == 0;
    FileCheckResult { valid, errors, warnings, file_type, line_count, encoding }
}

} // verus!
