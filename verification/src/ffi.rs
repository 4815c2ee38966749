//! Text produced at the C interface.
use vstd::prelude::*;

verus! {

/// `s` with every `"` preceded by a backslash.
pub open spec fn escape_quotes(s: Seq<char>) -> Seq<char>
    decreases s.len(),
{
    if s.len() == 0 {
        Seq::empty()
    } else if s.last() == '"' {
        escape_quotes(s.drop_last()).push('\\').push('"')
    } else {
        escape_quotes(s.drop_last()).push(s.last())
    }
}

/// The JSON error object `{"error":"<msg>"}` with the quotes in `msg` escaped.
pub open spec fn error_json_text(msg: Seq<char>) -> Seq<char> {
    seq!['{', '"', 'e', 'r', 'r', 'o', 'r', '"', ':', '"'] + escape_quotes(msg) + seq!['"', '}']
}

/// Builds the JSON error object returned across the C interface.
pub fn error_response_json(msg: &str) -> (r: String)
    ensures
        r@ == error_json_text(msg@),
{
    let m = crate::text::chars_of(msg);
    let mut out: Vec<char> = vec!['{', '"', 'e', 'r', 'r', 'o', 'r', '"', ':', '"'];
    let ghost prefix = out@;
    let mut i: usize = 0;
    while i < m.len()
        invariant
            i <= m.len(),
            out@ == prefix + escape_quotes(m@.take(i as int)),
        decreases m.len() - i,
    {
        assert(m@.take(i + 1).drop_last() == m@.take(i as int));
        if m[i] == '"' {
            out.push('\\');
            out.push('"');
        } else {
            out.push(m[i]);
        }
        i = i + 1;
    }
    assert(m@.take(m.len() as int) == m@);
    out.push('"');
    out.push('}');
    assert(out@ =~= error_json_text(msg@));
    crate::text::string_from_chars(out.as_slice())
}

} // verus!
