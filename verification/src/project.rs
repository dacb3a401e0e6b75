//! Reading a project's `quill.toml` file, and the errors it fails with.

use vstd::prelude::*;
use vstd::string::StrSliceExecFns;
use vstd::string::StringExecFns;
use crate::location::{Location, ModuleIdentifier, SourceFileIdentifier, SourceFileIdentifierSegment, SourceFileType, module_segments, same_file};
use crate::diagnostic::{Diagnostic, ErrorMessage, Severity};
use crate::text::{hex_list, push_hex_list};

verus! {

/// Is `id` the identifier of a project's `quill.toml`: the TOML file `quill` at the
/// root of the module tree?
pub open spec fn is_quill_toml(id: SourceFileIdentifier) -> bool {
    &&& module_segments(id.module).len() == 0
    &&& id.file.0@ == "quill"@
    &&& id.file_type == SourceFileType::Toml
}

/// The identifier of a project's `quill.toml`.
pub fn quill_toml() -> (res: SourceFileIdentifier)
    ensures
        is_quill_toml(res),
{
    let res = SourceFileIdentifier {
        module: ModuleIdentifier { segments: Vec::new() },
        file: SourceFileIdentifierSegment(String::from_str("quill")),
        file_type: SourceFileType::Toml,
    };
    assert(module_segments(res.module) =~= Seq::<Seq<char>>::empty());
    res
}

/// An error about `quill.toml` as a whole.
pub open spec fn quill_toml_error(m: ErrorMessage, text: Seq<char>) -> bool {
    &&& m.message@ == text
    &&& m.severity == Severity::Error
    &&& is_quill_toml(m.diagnostic.source_file)
    &&& m.diagnostic.range is None
    &&& m.help@.len() == 0
}

/// The error when a project has no `quill.toml`.
pub fn missing_quill_toml() -> (res: ErrorMessage)
    ensures
        quill_toml_error(res, "'quill.toml' file could not be found"@),
{
    let id = quill_toml();
    ErrorMessage::new(String::from_str("'quill.toml' file could not be found"), Severity::Error, Diagnostic::in_file(&id))
}

/// The text that UTF-8 bytes encode, or, where they are not valid UTF-8, the length
/// of the longest valid prefix.
pub uninterp spec fn utf8_decoding(bytes: Seq<u8>) -> Result<Seq<char>, nat>;

/// `std::str::from_utf8`: the text the bytes encode, or `Utf8Error::valid_up_to`,
/// where the first invalid sequence starts. As its documentation says, that is the
/// longest prefix that decodes, so it is shorter than the bytes and decodes.
#[verifier::external_body]
fn decode_utf8(bytes: &[u8]) -> (res: Result<String, usize>)
    ensures
        match res {
            Ok(s) => utf8_decoding(bytes@) == Ok::<Seq<char>, nat>(s@),
            Err(n) => {
                &&& utf8_decoding(bytes@) == Err::<Seq<char>, nat>(n as nat)
                &&& n < bytes@.len()
                &&& utf8_decoding(bytes@.take(n as int)) is Ok
            },
        },
{
    match std::str::from_utf8(bytes) {
        Ok(s) => Ok(s.to_string()),
        Err(e) => Err(e.valid_up_to()),
    }
}

/// At most the last 20 characters of a text.
pub open spec fn last_twenty(s: Seq<char>) -> Seq<char> {
    if s.len() > 20 { s.subrange(s.len() - 20, s.len() as int) } else { s }
}

/// At most the first 10 bytes.
pub open spec fn first_ten(b: Seq<u8>) -> Seq<u8> {
    if b.len() > 10 { b.take(10) } else { b }
}

/// The message for a `quill.toml` that is not valid UTF-8: the end of the valid part
/// before the problem, and the first bytes from the problem on, in hexadecimal.
pub open spec fn invalid_utf8_text(valid: Seq<char>, after_valid: Seq<u8>) -> Seq<char> {
    "'quill.toml' contained invalid UTF-8 after '..."@ + last_twenty(valid) + "', bytes were "@
        + hex_list(first_ten(after_valid))
}

/// The error for a `quill.toml` that is not valid UTF-8, given the text of its valid
/// part and the bytes from the first invalid one on.
pub fn invalid_utf8_message(valid: &str, after_valid: &[u8]) -> (res: ErrorMessage)
    ensures
        quill_toml_error(res, invalid_utf8_text(valid@, after_valid@)),
{
    let n = valid.unicode_len();
    let from: usize = if n > 20 { n - 20 } else { 0 };
    let tail = valid.substring_char(from, n);
    let count: usize = if after_valid.len() > 10 { 10 } else { after_valid.len() };
    let head = vstd::slice::slice_subrange(after_valid, 0, count);
    let mut m = String::from_str("'quill.toml' contained invalid UTF-8 after '...");
    m.append(tail);
    m.append("', bytes were ");
    push_hex_list(&mut m, head);
    proof {
        assert(tail@ =~= last_twenty(valid@));
        assert(head@ =~= first_ten(after_valid@));
    }
    let id = quill_toml();
    ErrorMessage::new(m, Severity::Error, Diagnostic::in_file(&id))
}

/// The text of a `quill.toml`, read as UTF-8; bytes that are not valid UTF-8 give the
/// error that shows where.
pub fn read_quill_toml(bytes: &[u8]) -> (res: Result<String, ErrorMessage>)
    ensures
        match utf8_decoding(bytes@) {
            Ok(text) => res matches Ok(t) && t@ == text,
            Err(n) => match utf8_decoding(bytes@.take(n as int)) {
                Ok(valid) => res matches Err(m) && quill_toml_error(m, invalid_utf8_text(valid, bytes@.skip(n as int))),
                Err(_) => false,
            },
        },
{
    match decode_utf8(bytes) {
        Ok(text) => Ok(text),
        Err(n) => {
            let valid_bytes = vstd::slice::slice_subrange(bytes, 0, n);
            let after = vstd::slice::slice_subrange(bytes, n, bytes.len());
            assert(valid_bytes@ =~= bytes@.take(n as int));
            assert(after@ =~= bytes@.skip(n as int));
            match decode_utf8(valid_bytes) {
                Ok(valid) => Err(invalid_utf8_message(valid.as_str(), after)),
                Err(_) => {
                    proof {
                        assert(false);
                    }
                    Err(invalid_utf8_message("", after))
                },
            }
        },
    }
}

/// The message for a `quill.toml` that is not valid TOML for a project.
pub open spec fn toml_error_text(description: Seq<char>) -> Seq<char> {
    "'quill.toml' contained an error: "@ + description
}

/// The error for a `quill.toml` that is not valid TOML for a project: at the line and
/// column the parser reports, or at the start of the file when it reports none.
pub fn toml_error_message(description: &str, line_col: Option<(usize, usize)>) -> (res: ErrorMessage)
    ensures
        res.message@ == toml_error_text(description@),
        res.severity == Severity::Error,
        is_quill_toml(res.diagnostic.source_file),
        res.diagnostic.range == Some(
            match line_col {
                Some((l, c)) => crate::location::Range {
                    start: Location { line: l as u32, col: c as u32 },
                    end: Location { line: l as u32, col: c as u32 },
                },
                None => crate::location::Range {
                    start: Location { line: 0, col: 0 },
                    end: Location { line: 0, col: 0 },
                },
            },
        ),
        res.help@.len() == 0,
{
    let (line, col) = match line_col {
        Some(lc) => lc,
        None => (0, 0),
    };
    let mut m = String::from_str("'quill.toml' contained an error: ");
    m.append(description);
    let id = quill_toml();
    let loc = Location { line: line as u32, col: col as u32 };
    ErrorMessage::new(m, Severity::Error, Diagnostic::at_location(&id, loc))
}

} // verus!
