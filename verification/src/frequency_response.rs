//! Parts of frequency responses that do not involve their levels: the name
//! check and the text of EqualizerAPO's graphic equaliser line.
use vstd::prelude::*;
use crate::error::{AutoEqError, Result, invalid_input};
use crate::text::{chars_of, lemma_trim_idempotent, string_from_chars, trim, trim_chars};

verus! {

/// The name a frequency response is stored under: the given name without
/// surrounding whitespace, which must not be empty.
pub fn validate_name(name: &str) -> (r: Result<String>)
    ensures
        trim(name@).len() == 0 ==> (r matches Err(AutoEqError::InvalidInput(m)) && m@
            == "name must not be empty"@),
        trim(name@).len() > 0 ==> (r matches Ok(s) && s@ == trim(name@)),
{
    let cs = chars_of(name);
    let t = trim_chars(cs.as_slice());
    if t.len() == 0 {
        return Err(invalid_input("name must not be empty"));
    }
    Ok(string_from_chars(t.as_slice()))
}

/// `ls` with `sep` between consecutive pieces.
pub open spec fn join_with(ls: Seq<Seq<char>>, sep: Seq<char>) -> Seq<char>
    decreases ls.len(),
{
    if ls.len() == 0 {
        Seq::empty()
    } else if ls.len() == 1 {
        ls[0]
    } else {
        join_with(ls.drop_last(), sep) + sep + ls.last()
    }
}

/// `GraphicEQ: `
pub open spec fn graphic_eq_prefix() -> Seq<char> {
    seq!['G', 'r', 'a', 'p', 'h', 'i', 'c', 'E', 'Q', ':', ' ']
}

/// EqualizerAPO's graphic equaliser line: `GraphicEQ: ` and then the bands
/// (each a frequency followed by its gain) separated by `; `.
pub open spec fn graphic_eq_line(bands: Seq<Seq<char>>) -> Seq<char> {
    graphic_eq_prefix() + join_with(bands, seq![';', ' '])
}

/// Writes the graphic equaliser line of already formatted bands.
pub fn graphic_eq_text(bands: &Vec<String>) -> (r: String)
    ensures
        r@ == graphic_eq_line(bands@.map_values(|b: String| b@)),
{
    let ghost views = bands@.map_values(|b: String| b@);
    let mut out: Vec<char> = vec!['G', 'r', 'a', 'p', 'h', 'i', 'c', 'E', 'Q', ':', ' '];
    let ghost prefix = out@;
    assert(prefix == graphic_eq_prefix());
    let mut i: usize = 0;
    while i < bands.len()
        invariant
            i <= bands.len(),
            views == bands@.map_values(|b: String| b@),
            prefix == graphic_eq_prefix(),
            out@ == prefix + join_with(views.take(i as int), seq![';', ' ']),
        decreases bands.len() - i,
    {
        assert(views.take(i + 1).drop_last() == views.take(i as int));
        let ghost before = out@;
        if i > 0 {
            out.push(';');
            out.push(' ');
        }
        let piece = chars_of(bands[i].as_str());
        assert(piece@ == views[i as int]);
        let mut k: usize = 0;
        let ghost mid = out@;
        while k < piece.len()
            invariant
                k <= piece.len(),
                out@ == mid + piece@.take(k as int),
            decreases piece.len() - k,
        {
            out.push(piece[k]);
            assert(piece@.take(k + 1) == piece@.take(k as int).push(piece@[k as int]));
            k = k + 1;
        }
        assert(piece@.take(piece.len() as int) == piece@);
        if i == 0 {
            assert(views.take(1) =~= seq![views[0]]);
            assert(out@ =~= prefix + join_with(views.take(1), seq![';', ' ']));
        } else {
            assert(out@ =~= prefix + (join_with(views.take(i as int), seq![';', ' ']) + seq![';', ' '] + views[i as int]));
        }
        i = i + 1;
    }
    assert(views.take(bands.len() as int) == views);
    string_from_chars(out.as_slice())
}

/// A name that was accepted is accepted again unchanged: trimming a trimmed
/// name keeps it.
pub proof fn lemma_validated_name_is_stable(name: Seq<char>)
    ensures
        trim(trim(name)) == trim(name),
{
    lemma_trim_idempotent(name);
}

} // verus!
