//! YAML format: the checks around the YAML codec. A stream of several
//! documents is refused, since only its first document would be read; the
//! written text loses its leading `---` marker and ends with a newline.
use vstd::prelude::*;
use crate::text::{
    chars_of, string_of, lines, lines_of, trim, trim_start, trim_chars, trim_start_chars,
    starts_with_str, eq_str, slice_of, views,
};

verus! {

/// Whether `line` separates two documents: exactly `---` at column 0,
/// possibly followed by whitespace.
pub open spec fn is_separator(line: Seq<char>) -> bool {
    &&& !(line.len() > 0 && (line[0] == ' ' || line[0] == '\t'))
    &&& trim(line) == "---"@
}

/// The text after leading whitespace and one opening `---` marker.
pub open spec fn yaml_body(input: Seq<char>) -> Seq<char> {
    let t = trim_start(input);
    if "---"@.is_prefix_of(t) {
        t.skip(3)
    } else {
        t
    }
}

/// Whether a second document follows the first one in `input`.
pub open spec fn has_second_document(input: Seq<char>) -> bool {
    let ls = lines(yaml_body(input));
    exists|i: int| 0 <= i < ls.len() && #[trigger] is_separator(ls[i])
}

/// The text to write for serialized YAML `s`: a leading `"---\n"` or
/// `"---\r\n"` is dropped, and a final newline is added where missing.
pub open spec fn yaml_output(s: Seq<char>) -> Seq<char> {
    let t = if "---\n"@.is_prefix_of(s) {
        s.skip(4)
    } else if "---\r\n"@.is_prefix_of(s) {
        s.skip(5)
    } else {
        s
    };
    if t.len() > 0 && t.last() == '\n' {
        t
    } else {
        t.push('\n')
    }
}

fn separator_line(line: &Vec<char>) -> (r: bool)
    ensures
        r == is_separator(line@),
{
    if line.len() > 0 && (line[0] == ' ' || line[0] == '\t') {
        return false;
    }
    let t = trim_chars(line);
    eq_str(&t, "---")
}

/// Refuses a stream of several YAML documents: `Err` exactly when a line
/// after the first document's start is a `---` separator at column 0.
pub fn check_single_document(input: &str) -> (r: Result<(), String>)
    ensures
        r is Ok <==> !has_second_document(input@),
        r matches Err(e) ==> e@ == "multi-document YAML is not supported (found multiple '---' document separators); use a single document"@,
{
    let chars = chars_of(input);
    let t = trim_start_chars(&chars);
    let body = if starts_with_str(&t, "---") {
        proof {
            reveal_strlit("---");
        }
        slice_of(&t, 3, t.len())
    } else {
        t
    };
    assert(body@ =~= yaml_body(input@));
    let ls = lines_of(&body);
    let n = ls.len();
    for i in 0..n
        invariant
            n == ls@.len(),
            views(ls@) == lines(yaml_body(input@)),
            forall|j: int| 0 <= j < i ==> !is_separator(#[trigger] lines(yaml_body(input@))[j]),
    {
        assert(views(ls@)[i as int] == ls@[i as int]@);
        if separator_line(&ls[i]) {
            return Err(String::from_str(
                "multi-document YAML is not supported (found multiple '---' document separators); use a single document",
            ));
        }
    }
    Ok(())
}

/// The text to write for the YAML that the codec serialized as `s`.
pub fn finish_output(s: &str) -> (r: String)
    ensures
        r@ == yaml_output(s@),
{
    proof {
        reveal_strlit("---\n");
        reveal_strlit("---\r\n");
    }
    let chars = chars_of(s);
    let mut t = if starts_with_str(&chars, "---\n") {
        slice_of(&chars, 4, chars.len())
    } else if starts_with_str(&chars, "---\r\n") {
        slice_of(&chars, 5, chars.len())
    } else {
        chars
    };
    if !(t.len() > 0 && t[t.len() - 1] == '\n') {
        t.push('\n');
    }
    assert(t@ =~= yaml_output(s@));
    string_of(&t)
}

} // verus!
