//! Character-level text handling: whitespace, trimming, splitting and lines,
//! with the meaning of the corresponding `str` methods as specifications.
use vstd::prelude::*;

verus! {

/// `char::is_whitespace`: the Unicode `White_Space` property.
pub open spec fn is_ws(c: char) -> bool {
    let u = c as u32;
    ||| 9 <= u <= 13
    ||| u == 32
    ||| u == 0x85
    ||| u == 0xA0
    ||| u == 0x1680
    ||| 0x2000 <= u <= 0x200A
    ||| u == 0x2028
    ||| u == 0x2029
    ||| u == 0x202F
    ||| u == 0x205F
    ||| u == 0x3000
}

/// `char::is_ascii_digit`.
pub open spec fn is_digit(c: char) -> bool {
    48 <= c as u32 <= 57
}

/// Whether `c` is whitespace.
pub fn is_whitespace(c: char) -> (b: bool)
    ensures
        b == is_ws(c),
{
    let u = c as u32;
    (9 <= u && u <= 13) || u == 32 || u == 0x85 || u == 0xA0 || u == 0x1680 || (0x2000 <= u && u
        <= 0x200A) || u == 0x2028 || u == 0x2029 || u == 0x202F || u == 0x205F || u == 0x3000
}

/// Whether `c` is one of `0`..`9`.
pub fn is_ascii_digit(c: char) -> (b: bool)
    ensures
        b == is_digit(c),
{
    let u = c as u32;
    48 <= u && u <= 57
}

/// The characters of `s`.
pub fn chars_of(s: &str) -> (v: Vec<char>)
    ensures
        v@ == s@,
{
    let mut v: Vec<char> = Vec::new();
    for c in it: s.chars()
        invariant
            v@ == it.seq().take(it.index() as int),
    {
        v.push(c);
    }
    v
}


/// Collects characters into a `String` (`FromIterator<&char> for String`);
/// trusted to keep the characters and their order.
#[verifier::external_body]
pub(crate) fn string_from_chars(chars: &[char]) -> (s: String)
    ensures
        s@ == chars@,
{
    chars.iter().collect()
}

/// Number of whitespace characters at the start of `s`.
pub open spec fn leading_ws(s: Seq<char>) -> nat
    decreases s.len(),
{
    if s.len() > 0 && is_ws(s[0]) {
        1 + leading_ws(s.drop_first())
    } else {
        0
    }
}

/// Number of whitespace characters at the end of `s`.
pub open spec fn trailing_ws(s: Seq<char>) -> nat
    decreases s.len(),
{
    if s.len() > 0 && is_ws(s.last()) {
        1 + trailing_ws(s.drop_last())
    } else {
        0
    }
}

/// `str::trim_start`.
pub open spec fn trim_start(s: Seq<char>) -> Seq<char> {
    s.subrange(leading_ws(s) as int, s.len() as int)
}

/// `str::trim_end`.
pub open spec fn trim_end(s: Seq<char>) -> Seq<char> {
    s.subrange(0, s.len() - trailing_ws(s))
}

/// `str::trim`: whitespace removed from both ends.
pub open spec fn trim(s: Seq<char>) -> Seq<char> {
    trim_end(trim_start(s))
}

/// `leading_ws` is the length of the run of whitespace at the start.
proof fn lemma_leading_ws_run(s: Seq<char>, i: int)
    requires
        0 <= i <= s.len(),
        forall|k: int| 0 <= k < i ==> is_ws(#[trigger] s[k]),
        i == s.len() || !is_ws(s[i]),
    ensures
        leading_ws(s) == i,
    decreases i,
{
    if i > 0 {
        lemma_leading_ws_run(s.drop_first(), i - 1);
    }
}

/// `trailing_ws` is the length of the run of whitespace at the end.
proof fn lemma_trailing_ws_run(s: Seq<char>, j: int)
    requires
        0 <= j <= s.len(),
        forall|k: int| j <= k < s.len() ==> is_ws(#[trigger] s[k]),
        j == 0 || !is_ws(s[j - 1]),
    ensures
        trailing_ws(s) == s.len() - j,
    decreases s.len() - j,
{
    if j < s.len() {
        lemma_trailing_ws_run(s.drop_last(), j);
    }
}

/// Copies `s[from..to]`.
pub fn slice_to_vec(s: &[char], from: usize, to: usize) -> (v: Vec<char>)
    requires
        from <= to <= s.len(),
    ensures
        v@ == s@.subrange(from as int, to as int),
{
    let mut v: Vec<char> = Vec::new();
    let mut i = from;
    while i < to
        invariant
            from <= i <= to <= s.len(),
            v@ == s@.subrange(from as int, i as int),
        decreases to - i,
    {
        v.push(s[i]);
        i = i + 1;
    }
    v
}

/// Trims whitespace from both ends of `s`.
pub fn trim_chars(s: &[char]) -> (t: Vec<char>)
    ensures
        t@ == trim(s@),
{
    let n = s.len();
    let mut i: usize = 0;
    while i < n && is_whitespace(s[i])
        invariant
            i <= n == s.len(),
            forall|k: int| 0 <= k < i ==> is_ws(#[trigger] s@[k]),
        decreases n - i,
    {
        i = i + 1;
    }
    let mut j: usize = n;
    while j > i && is_whitespace(s[j - 1])
        invariant
            i <= j <= n == s.len(),
            forall|k: int| j <= k < n ==> is_ws(#[trigger] s@[k]),
        decreases j,
    {
        j = j - 1;
    }
    proof {
        lemma_leading_ws_run(s@, i as int);
        let u = s@.subrange(i as int, n as int);
        assert(trim_start(s@) == u);
        lemma_trailing_ws_run(u, (j - i) as int);
    }
    slice_to_vec(s, i, j)
}


/// The character sequences held by a vector of character vectors.
pub open spec fn views(v: Seq<Vec<char>>) -> Seq<Seq<char>> {
    v.map_values(|x: Vec<char>| x@)
}

/// `str::split` with a character predicate: the pieces between separators,
/// empty pieces included, always at least one piece.
pub open spec fn split_by(s: Seq<char>, is_sep: spec_fn(char) -> bool) -> Seq<Seq<char>>
    decreases s.len(),
{
    if s.len() == 0 {
        seq![Seq::empty()]
    } else {
        let r = split_by(s.drop_last(), is_sep);
        if is_sep(s.last()) {
            r.push(Seq::empty())
        } else {
            r.update(r.len() - 1, r.last().push(s.last()))
        }
    }
}

/// The characters equal to `sep`.
pub open spec fn is_char(sep: char) -> spec_fn(char) -> bool {
    |c: char| c == sep
}

/// `str::split(sep)` for a single character.
pub open spec fn split(s: Seq<char>, sep: char) -> Seq<Seq<char>> {
    split_by(s, is_char(sep))
}

/// The whitespace characters.
pub open spec fn ws_char() -> spec_fn(char) -> bool {
    |c: char| is_ws(c)
}

/// The pieces that are not empty.
pub open spec fn nonempty_piece() -> spec_fn(Seq<char>) -> bool {
    |p: Seq<char>| p.len() > 0
}

/// `str::split_whitespace`: the non-empty pieces between whitespace.
pub open spec fn split_ws(s: Seq<char>) -> Seq<Seq<char>> {
    split_by(s, ws_char()).filter(nonempty_piece())
}

pub proof fn lemma_split_by_nonempty(s: Seq<char>, is_sep: spec_fn(char) -> bool)
    ensures
        split_by(s, is_sep).len() >= 1,
    decreases s.len(),
{
    if s.len() > 0 {
        lemma_split_by_nonempty(s.drop_last(), is_sep);
    }
}

/// Splits `s` at every `sep`.
pub fn split_chars(s: &[char], sep: char) -> (pieces: Vec<Vec<char>>)
    ensures
        views(pieces@) == split(s@, sep),
{
    let mut pieces: Vec<Vec<char>> = Vec::new();
    let mut cur: Vec<char> = Vec::new();
    let n = s.len();
    let mut i: usize = 0;
    while i < n
        invariant
            i <= n == s.len(),
            views(pieces@).push(cur@) == split(s@.take(i as int), sep),
        decreases n - i,
    {
        let ghost t = s@.take(i as int);
        assert(s@.take(i + 1).drop_last() == t);
        proof {
            lemma_split_by_nonempty(t, is_char(sep));
        }
        let c = s[i];
        if c == sep {
            pieces.push(cur);
            cur = Vec::new();
            assert(views(pieces@).push(cur@) == split(t, sep).push(Seq::empty()));
        } else {
            cur.push(c);
            assert(views(pieces@).push(cur@) =~= split(t, sep).update(
                split(t, sep).len() - 1,
                split(t, sep).last().push(c),
            ));
        }
        i = i + 1;
    }
    assert(s@.take(n as int) == s@);
    pieces.push(cur);
    pieces
}

/// Splits `s` at whitespace, dropping empty pieces.
pub fn split_whitespace_chars(s: &[char]) -> (pieces: Vec<Vec<char>>)
    ensures
        views(pieces@) == split_ws(s@),
{
    let ghost is_sep = ws_char();
    let ghost nonempty = nonempty_piece();
    let mut pieces: Vec<Vec<char>> = Vec::new();
    let mut cur: Vec<char> = Vec::new();
    let n = s.len();
    let mut i: usize = 0;
    proof {
        lemma_split_by_nonempty(s@.take(0), is_sep);
    }
    while i < n
        invariant
            i <= n == s.len(),
            is_sep == ws_char(),
            nonempty == nonempty_piece(),
            split_by(s@.take(i as int), is_sep).len() >= 1,
            views(pieces@) == split_by(s@.take(i as int), is_sep).drop_last().filter(nonempty),
            cur@ == split_by(s@.take(i as int), is_sep).last(),
        decreases n - i,
    {
        let ghost t = s@.take(i as int);
        assert(s@.take(i + 1).drop_last() == t);
        let c = s[i];
        let ghost r = split_by(t, is_sep);
        assert(r.drop_last().push(r.last()) == r);
        if is_whitespace(c) {
            let ghost r2 = r.push(Seq::empty());
            assert(r2.drop_last() == r);
            proof {
                r.drop_last().lemma_filter_push(r.last(), nonempty);
            }
            if cur.len() > 0 {
                pieces.push(cur);
            }
            cur = Vec::new();
        } else {
            cur.push(c);
            let ghost r2 = r.update(r.len() - 1, r.last().push(c));
            assert(r2.drop_last() == r.drop_last());
        }
        i = i + 1;
    }
    assert(s@.take(n as int) == s@);
    let ghost r = split_by(s@, is_sep);
    assert(r.drop_last().push(r.last()) == r);
    proof {
        r.drop_last().lemma_filter_push(r.last(), nonempty);
    }
    if cur.len() > 0 {
        pieces.push(cur);
    }
    pieces
}


/// Drops one carriage return at the end of a line.
pub open spec fn strip_cr(l: Seq<char>) -> Seq<char> {
    if l.len() > 0 && l.last() == '\r' {
        l.drop_last()
    } else {
        l
    }
}

/// `str::lines`: the pieces between `\n`, each line that ended in `\n` losing
/// one `\r` before it, and no line after a final `\n`.
pub open spec fn lines(s: Seq<char>) -> Seq<Seq<char>> {
    let p = split(s, '\n');
    let head = p.drop_last().map_values(|l: Seq<char>| strip_cr(l));
    if p.last().len() == 0 {
        head
    } else {
        head.push(p.last())
    }
}

fn strip_cr_vec(l: Vec<char>) -> (r: Vec<char>)
    ensures
        r@ == strip_cr(l@),
{
    let mut l = l;
    if l.len() > 0 && l[l.len() - 1] == '\r' {
        l.pop();
    }
    l
}

/// The lines of `s`.
pub fn lines_of(s: &[char]) -> (out: Vec<Vec<char>>)
    ensures
        views(out@) == lines(s@),
{
    let mut out: Vec<Vec<char>> = Vec::new();
    let mut cur: Vec<char> = Vec::new();
    let n = s.len();
    let mut i: usize = 0;
    proof {
        lemma_split_by_nonempty(s@.take(0), is_char('\n'));
    }
    while i < n
        invariant
            i <= n == s.len(),
            split(s@.take(i as int), '\n').len() >= 1,
            views(out@) == split(s@.take(i as int), '\n').drop_last().map_values(
                |l: Seq<char>| strip_cr(l),
            ),
            cur@ == split(s@.take(i as int), '\n').last(),
        decreases n - i,
    {
        let ghost t = s@.take(i as int);
        assert(s@.take(i + 1).drop_last() == t);
        let c = s[i];
        let ghost r = split(t, '\n');
        if c == '\n' {
            let ghost r2 = r.push(Seq::empty());
            assert(r2.drop_last() == r);
            let ghost old_out = out@;
            let line = strip_cr_vec(cur);
            out.push(line);
            cur = Vec::new();
            assert(views(out@) =~= views(old_out).push(strip_cr(r.last())));
            assert(views(out@) =~= r.map_values(|l: Seq<char>| strip_cr(l)));
        } else {
            cur.push(c);
            let ghost r2 = r.update(r.len() - 1, r.last().push(c));
            assert(r2.drop_last() == r.drop_last());
        }
        i = i + 1;
    }
    assert(s@.take(n as int) == s@);
    if cur.len() > 0 {
        out.push(cur);
    }
    out
}

/// No piece of `split_by(s, is_sep)` holds a separator.
pub proof fn lemma_split_by_pieces(s: Seq<char>, is_sep: spec_fn(char) -> bool)
    ensures
        forall|i: int, k: int|
            0 <= i < split_by(s, is_sep).len() && 0 <= k < split_by(s, is_sep)[i].len() ==> !is_sep(
                #[trigger] split_by(s, is_sep)[i][k],
            ),
    decreases s.len(),
{
    if s.len() > 0 {
        lemma_split_by_pieces(s.drop_last(), is_sep);
        lemma_split_by_nonempty(s.drop_last(), is_sep);
        let r = split_by(s.drop_last(), is_sep);
        if !is_sep(s.last()) {
            let q = r.update(r.len() - 1, r.last().push(s.last()));
            assert forall|i: int, k: int| 0 <= i < q.len() && 0 <= k < q[i].len() implies !is_sep(
                #[trigger] q[i][k],
            ) by {
                if i == r.len() - 1 && k < r.last().len() {
                    assert(q[i][k] == r[i][k]);
                }
            }
        }
    }
}

/// Text without separators is a single piece.
proof fn lemma_split_by_single(t: Seq<char>, is_sep: spec_fn(char) -> bool)
    requires
        forall|k: int| 0 <= k < t.len() ==> !is_sep(#[trigger] t[k]),
    ensures
        split_by(t, is_sep) == seq![t],
    decreases t.len(),
{
    if t.len() == 0 {
        assert(t =~= Seq::<char>::empty());
    } else {
        lemma_split_by_single(t.drop_last(), is_sep);
        assert(!is_sep(t[t.len() - 1]));
        assert(t.drop_last().push(t.last()) =~= t);
        assert(seq![t.drop_last()].update(0, t.drop_last().push(t.last())) =~= seq![t]);
    }
}

/// Splitting text that ends in a separator and a separator-free piece `t`.
proof fn lemma_split_by_after_sep(s: Seq<char>, c: char, t: Seq<char>, is_sep: spec_fn(char) -> bool)
    requires
        is_sep(c),
        forall|k: int| 0 <= k < t.len() ==> !is_sep(#[trigger] t[k]),
    ensures
        split_by(s.push(c) + t, is_sep) == split_by(s, is_sep).push(t),
    decreases t.len(),
{
    let u = s.push(c) + t;
    if t.len() == 0 {
        assert(t =~= Seq::<char>::empty());
        assert(u =~= s.push(c));
        assert(s.push(c).drop_last() =~= s);
        assert(s.push(c).last() == c);
    } else {
        lemma_split_by_after_sep(s, c, t.drop_last(), is_sep);
        assert(u.drop_last() =~= s.push(c) + t.drop_last());
        assert(u.last() == t[t.len() - 1]);
        assert(!is_sep(t[t.len() - 1]));
        let r = split_by(s, is_sep).push(t.drop_last());
        assert(t.drop_last().push(t.last()) =~= t);
        assert(r.update(r.len() - 1, r.last().push(t.last())) =~= split_by(s, is_sep).push(t));
    }
}

/// `split` at one character is a split at the characters equal to it.
proof fn lemma_split_pieces(s: Seq<char>, sep: char)
    ensures
        split(s, sep).len() >= 1,
        forall|i: int, k: int|
            0 <= i < split(s, sep).len() && 0 <= k < split(s, sep)[i].len() ==> #[trigger] split(s, sep)[i][k] != sep,
{
    lemma_split_by_nonempty(s, is_char(sep));
    lemma_split_by_pieces(s, is_char(sep));
    let p = split(s, sep);
    assert forall|i: int, k: int| 0 <= i < p.len() && 0 <= k < p[i].len() implies #[trigger] p[i][k] != sep by {
        assert(!(is_char(sep)(p[i][k])));
    }
}

/// Splitting undoes joining, when no piece holds the separator.
pub proof fn lemma_split_join(ls: Seq<Seq<char>>, sep: char)
    requires
        ls.len() >= 1,
        forall|i: int, k: int| 0 <= i < ls.len() && 0 <= k < ls[i].len() ==> #[trigger] ls[i][k] != sep,
    ensures
        split(join(ls, sep), sep) == ls,
    decreases ls.len(),
{
    if ls.len() == 1 {
        let t = ls[0];
        assert forall|k: int| 0 <= k < t.len() implies !(is_char(sep)(#[trigger] t[k])) by {
            assert(ls[0][k] != sep);
        }
        lemma_split_by_single(t, is_char(sep));
        assert(split(t, sep) == seq![t]);
        assert(join(ls, sep) == t);
        assert(seq![t] =~= ls);
    } else {
        let front = ls.drop_last();
        assert forall|i: int, k: int| 0 <= i < front.len() && 0 <= k < front[i].len() implies #[trigger] front[i][k] != sep by {
            assert(front[i] == ls[i]);
        }
        lemma_split_join(front, sep);
        let t = ls.last();
        assert forall|k: int| 0 <= k < t.len() implies !(is_char(sep)(#[trigger] t[k])) by {
            assert(ls[ls.len() - 1][k] != sep);
        }
        lemma_split_by_after_sep(join(front, sep), sep, t, is_char(sep));
        assert(join(ls, sep) == join(front, sep).push(sep) + t);
        assert(front.push(t) =~= ls);
    }
}

/// No line of `s` holds a line feed.
pub proof fn lemma_lines_pieces(s: Seq<char>)
    ensures
        forall|i: int, k: int|
            0 <= i < lines(s).len() && 0 <= k < lines(s)[i].len() ==> #[trigger] lines(s)[i][k] != '\n',
{
    lemma_split_pieces(s, '\n');
    let p = split(s, '\n');
    let ls = lines(s);
    assert forall|i: int, k: int| 0 <= i < ls.len() && 0 <= k < ls[i].len() implies #[trigger] ls[i][k]
        != '\n' by {
        assert(i < p.len());
        assert(k < p[i].len());
        assert(ls[i][k] == p[i][k]);
    }
}

/// Taking the lines of joined lines gives them back, when each is non-empty,
/// holds no line feed and does not end in a carriage return.
pub proof fn lemma_lines_join(ls: Seq<Seq<char>>)
    requires
        forall|i: int| 0 <= i < ls.len() ==> #[trigger] ls[i].len() > 0 && ls[i].last() != '\r',
        forall|i: int, k: int| 0 <= i < ls.len() && 0 <= k < ls[i].len() ==> #[trigger] ls[i][k] != '\n',
    ensures
        lines(join(ls, '\n')) == ls,
{
    if ls.len() == 0 {
        lemma_split_by_single(Seq::<char>::empty(), is_char('\n'));
        assert(lines(join(ls, '\n')) =~= ls);
    } else {
        lemma_split_join(ls, '\n');
        let p = split(join(ls, '\n'), '\n');
        assert(p.last().len() > 0);
        assert(p.drop_last().map_values(|l: Seq<char>| strip_cr(l)) =~= ls.drop_last());
        assert(ls.drop_last().push(ls.last()) =~= ls);
    }
}

/// The whitespace run at the start ends at a non-whitespace character.
proof fn lemma_leading_ws_stops(s: Seq<char>)
    ensures
        leading_ws(s) <= s.len(),
        leading_ws(s) < s.len() ==> !is_ws(s[leading_ws(s) as int]),
    decreases s.len(),
{
    if s.len() > 0 && is_ws(s[0]) {
        lemma_leading_ws_stops(s.drop_first());
    }
}

/// The whitespace run at the end starts after a non-whitespace character.
proof fn lemma_trailing_ws_stops(s: Seq<char>)
    ensures
        trailing_ws(s) <= s.len(),
        trailing_ws(s) < s.len() ==> !is_ws(s[s.len() - 1 - trailing_ws(s)]),
    decreases s.len(),
{
    if s.len() > 0 && is_ws(s.last()) {
        lemma_trailing_ws_stops(s.drop_last());
    }
}

/// Trimmed text is a piece of the text it came from that neither starts nor ends with
/// whitespace.
pub proof fn lemma_trim_ends(s: Seq<char>)
    ensures
        exists|a: int, b: int| 0 <= a <= b <= s.len() && trim(s) == s.subrange(a, b),
        trim(s).len() > 0 ==> !is_ws(trim(s)[0]) && !is_ws(trim(s).last()),
{
    lemma_leading_ws_stops(s);
    let a = leading_ws(s) as int;
    let u = trim_start(s);
    lemma_trailing_ws_stops(u);
    let b = a + u.len() - trailing_ws(u);
    assert(trim(s) =~= s.subrange(a, b));
    if trim(s).len() > 0 {
        assert(trim(s)[0] == s[a]);
        assert(trim(s).last() == u[u.len() - 1 - trailing_ws(u)]);
    }
}

/// Text that neither starts nor ends with whitespace is its own trim.
pub proof fn lemma_trim_of_plain(s: Seq<char>)
    requires
        s.len() > 0,
        !is_ws(s[0]),
        !is_ws(s.last()),
    ensures
        trim(s) == s,
{
    lemma_leading_ws_run(s, 0);
    assert(trim_start(s) =~= s);
    lemma_trailing_ws_run(s, s.len() as int);
    assert(trim_end(s) =~= s);
}

/// Trimming drops whitespace padding around text that neither starts nor
/// ends with whitespace.
pub proof fn lemma_trim_padded(w1: Seq<char>, x: Seq<char>, w2: Seq<char>)
    requires
        x.len() > 0,
        !is_ws(x[0]),
        !is_ws(x.last()),
        forall|k: int| 0 <= k < w1.len() ==> is_ws(#[trigger] w1[k]),
        forall|k: int| 0 <= k < w2.len() ==> is_ws(#[trigger] w2[k]),
    ensures
        trim(w1 + x + w2) == x,
{
    let s = w1 + x + w2;
    assert forall|k: int| 0 <= k < w1.len() implies is_ws(#[trigger] s[k]) by {
        assert(s[k] == w1[k]);
    }
    assert(s[w1.len() as int] == x[0]);
    lemma_leading_ws_run(s, w1.len() as int);
    let u = trim_start(s);
    assert(u =~= x + w2);
    assert forall|k: int| x.len() <= k < u.len() implies is_ws(#[trigger] u[k]) by {
        assert(u[k] == w2[k - x.len()]);
    }
    assert(u[x.len() - 1] == x.last());
    lemma_trailing_ws_run(u, x.len() as int);
    assert(trim_end(u) =~= x);
}

/// Text without separators followed by separators only splits into the text
/// and one empty piece per separator.
proof fn lemma_split_by_trailing_seps(a: Seq<char>, w: Seq<char>, is_sep: spec_fn(char) -> bool)
    requires
        forall|k: int| 0 <= k < a.len() ==> !is_sep(#[trigger] a[k]),
        forall|k: int| 0 <= k < w.len() ==> is_sep(#[trigger] w[k]),
    ensures
        split_by(a + w, is_sep) == seq![a] + Seq::new(w.len(), |i: int| Seq::<char>::empty()),
    decreases w.len(),
{
    if w.len() == 0 {
        lemma_split_by_single(a, is_sep);
        assert(a + w =~= a);
        assert(seq![a] + Seq::new(w.len(), |i: int| Seq::<char>::empty()) =~= seq![a]);
    } else {
        let w0 = w.drop_last();
        assert forall|k: int| 0 <= k < w0.len() implies is_sep(#[trigger] w0[k]) by {
            assert(w0[k] == w[k]);
        }
        lemma_split_by_trailing_seps(a, w0, is_sep);
        assert((a + w).drop_last() =~= a + w0);
        assert((a + w).last() == w[w.len() - 1]);
        assert((seq![a] + Seq::new(w0.len(), |i: int| Seq::<char>::empty())).push(Seq::empty()) =~= seq![a]
            + Seq::new(w.len(), |i: int| Seq::<char>::empty()));
    }
}

/// Dropping empty pieces from empty pieces leaves nothing.
proof fn lemma_filter_empties(n: nat)
    ensures
        Seq::new(n, |i: int| Seq::<char>::empty()).filter(nonempty_piece()) == Seq::<Seq<char>>::empty(),
    decreases n,
{
    reveal(Seq::filter);
    let e = Seq::new(n, |i: int| Seq::<char>::empty());
    if n > 0 {
        lemma_filter_empties((n - 1) as nat);
        assert(e.drop_last() =~= Seq::new((n - 1) as nat, |i: int| Seq::<char>::empty()));
    } else {
        assert(e =~= Seq::<Seq<char>>::empty());
    }
}

/// Two pieces without whitespace, separated by any non-empty run of
/// whitespace (spaces, tabs, several of them), split at whitespace into just
/// those two pieces.
pub proof fn lemma_split_ws_pair(a: Seq<char>, w: Seq<char>, b: Seq<char>)
    requires
        a.len() > 0,
        b.len() > 0,
        w.len() > 0,
        forall|k: int| 0 <= k < a.len() ==> !is_ws(#[trigger] a[k]),
        forall|k: int| 0 <= k < b.len() ==> !is_ws(#[trigger] b[k]),
        forall|k: int| 0 <= k < w.len() ==> is_ws(#[trigger] w[k]),
    ensures
        split_ws(a + w + b) == seq![a, b],
{
    let p = ws_char();
    let w0 = w.drop_last();
    assert forall|k: int| 0 <= k < a.len() implies !p(#[trigger] a[k]) by {}
    assert forall|k: int| 0 <= k < w0.len() implies p(#[trigger] w0[k]) by {
        assert(w0[k] == w[k]);
    }
    assert forall|k: int| 0 <= k < b.len() implies !p(#[trigger] b[k]) by {}
    lemma_split_by_trailing_seps(a, w0, p);
    assert(p(w[w.len() - 1]));
    lemma_split_by_after_sep(a + w0, w.last(), b, p);
    assert((a + w0).push(w.last()) + b =~= a + w + b);
    let e = Seq::new(w0.len(), |i: int| Seq::<char>::empty());
    let pieces = seq![a] + e + seq![b];
    assert(split_by(a + w + b, p) =~= pieces);
    let q = nonempty_piece();
    Seq::filter_distributes_over_add(seq![a] + e, seq![b], q);
    Seq::filter_distributes_over_add(seq![a], e, q);
    lemma_filter_empties(w0.len());
    reveal_with_fuel(Seq::filter, 2);
    assert(seq![a].drop_last() =~= Seq::<Seq<char>>::empty());
    assert(seq![b].drop_last() =~= Seq::<Seq<char>>::empty());
    assert(seq![a].filter(q) =~= seq![a]);
    assert(seq![b].filter(q) =~= seq![b]);
    assert(pieces.filter(q) =~= seq![a, b]);
}

/// Trimming twice trims once.
pub proof fn lemma_trim_idempotent(s: Seq<char>)
    ensures
        trim(trim(s)) == trim(s),
{
    let t = trim(s);
    lemma_trim_ends(s);
    lemma_leading_ws_run(t, 0);
    assert(trim_start(t) =~= t);
    if t.len() > 0 {
        lemma_trailing_ws_run(t, t.len() as int);
    } else {
        lemma_trailing_ws_run(t, 0);
    }
    assert(trim_end(t) =~= t);
}

/// Whether `c` occurs in `s`.
pub fn contains_char(s: &[char], c: char) -> (b: bool)
    ensures
        b == s@.contains(c),
{
    let mut i: usize = 0;
    while i < s.len()
        invariant
            i <= s.len(),
            forall|k: int| 0 <= k < i ==> s@[k] != c,
        decreases s.len() - i,
    {
        if s[i] == c {
            return true;
        }
        i = i + 1;
    }
    false
}

/// `s` starts with an ASCII digit.
pub open spec fn starts_with_digit(s: Seq<char>) -> bool {
    s.len() > 0 && is_digit(s[0])
}

/// Whether `s` starts with an ASCII digit.
pub fn starts_with_ascii_digit(s: &[char]) -> (b: bool)
    ensures
        b == starts_with_digit(s@),
{
    s.len() > 0 && is_ascii_digit(s[0])
}

/// The code of `c` with ASCII capitals mapped to small letters.
pub open spec fn ascii_lower_code(c: char) -> u32 {
    let u = c as u32;
    if 65 <= u <= 90 {
        (u + 32) as u32
    } else {
        u
    }
}

/// `str::eq_ignore_ascii_case`.
pub open spec fn eq_ignore_case(a: Seq<char>, b: Seq<char>) -> bool {
    &&& a.len() == b.len()
    &&& forall|i: int| 0 <= i < a.len() ==> ascii_lower_code(#[trigger] a[i]) == ascii_lower_code(b[i])
}

fn lower_code(c: char) -> (r: u32)
    ensures
        r == ascii_lower_code(c),
{
    let u = c as u32;
    if 65 <= u && u <= 90 {
        u + 32
    } else {
        u
    }
}

/// Compares two character sequences ignoring ASCII case.
pub fn eq_ignore_ascii_case(a: &[char], b: &[char]) -> (r: bool)
    ensures
        r == eq_ignore_case(a@, b@),
{
    if a.len() != b.len() {
        return false;
    }
    let mut i: usize = 0;
    while i < a.len()
        invariant
            i <= a.len() == b.len(),
            forall|k: int| 0 <= k < i ==> ascii_lower_code(#[trigger] a@[k]) == ascii_lower_code(b@[k]),
        decreases a.len() - i,
    {
        if lower_code(a[i]) != lower_code(b[i]) {
            return false;
        }
        i = i + 1;
    }
    true
}

/// `s` with every `from` replaced by `to` (`str::replace` for characters).
pub open spec fn replace_char(s: Seq<char>, from: char, to: char) -> Seq<char> {
    s.map_values(|c: char| if c == from { to } else { c })
}

/// Replaces every `from` in `s` by `to`.
pub fn replace_chars(s: &[char], from: char, to: char) -> (r: Vec<char>)
    ensures
        r@ == replace_char(s@, from, to),
{
    let mut r: Vec<char> = Vec::new();
    let mut i: usize = 0;
    while i < s.len()
        invariant
            i <= s.len(),
            r@ == replace_char(s@.take(i as int), from, to),
        decreases s.len() - i,
    {
        let c = s[i];
        r.push(if c == from { to } else { c });
        assert(replace_char(s@.take(i + 1), from, to) =~= replace_char(s@.take(i as int), from, to).push(
            if c == from { to } else { c },
        ));
        i = i + 1;
    }
    assert(s@.take(s.len() as int) == s@);
    r
}


/// `[..].join(sep)` for a single separator character.
pub open spec fn join(ls: Seq<Seq<char>>, sep: char) -> Seq<char>
    decreases ls.len(),
{
    if ls.len() == 0 {
        Seq::empty()
    } else if ls.len() == 1 {
        ls[0]
    } else {
        join(ls.drop_last(), sep).push(sep) + ls.last()
    }
}

/// Joins `ls` with `sep` between consecutive pieces.
pub fn join_chars(ls: &Vec<Vec<char>>, sep: char) -> (r: Vec<char>)
    ensures
        r@ == join(views(ls@), sep),
{
    let mut r: Vec<char> = Vec::new();
    let mut i: usize = 0;
    while i < ls.len()
        invariant
            i <= ls.len(),
            r@ == join(views(ls@).take(i as int), sep),
        decreases ls.len() - i,
    {
        let ghost before = r@;
        assert(views(ls@).take(i + 1).drop_last() == views(ls@).take(i as int));
        if i > 0 {
            r.push(sep);
        }
        let piece = &ls[i];
        let mut k: usize = 0;
        let ghost mid = r@;
        while k < piece.len()
            invariant
                k <= piece.len(),
                r@ == mid + piece@.take(k as int),
            decreases piece.len() - k,
        {
            r.push(piece[k]);
            assert(piece@.take(k + 1) == piece@.take(k as int).push(piece@[k as int]));
            k = k + 1;
        }
        assert(piece@.take(piece.len() as int) == piece@);
        if i == 0 {
            assert(mid == Seq::<char>::empty());
            assert(r@ == piece@);
        }
        i = i + 1;
    }
    assert(views(ls@).take(ls.len() as int) == views(ls@));
    r
}

/// `prefix` starts `s` (`str::starts_with`).
pub open spec fn has_prefix(s: Seq<char>, prefix: Seq<char>) -> bool {
    prefix.len() <= s.len() && s.take(prefix.len() as int) == prefix
}

/// Whether `s` starts with `prefix`.
pub fn starts_with_chars(s: &[char], prefix: &[char]) -> (b: bool)
    ensures
        b == has_prefix(s@, prefix@),
{
    if prefix.len() > s.len() {
        return false;
    }
    let mut i: usize = 0;
    while i < prefix.len()
        invariant
            i <= prefix.len() <= s.len(),
            forall|k: int| 0 <= k < i ==> s@[k] == prefix@[k],
        decreases prefix.len() - i,
    {
        if s[i] != prefix[i] {
            return false;
        }
        i = i + 1;
    }
    assert(s@.take(prefix.len() as int) =~= prefix@);
    true
}


/// Whether two character slices are equal.
pub fn chars_eq(a: &[char], b: &[char]) -> (r: bool)
    ensures
        r == (a@ == b@),
{
    if a.len() != b.len() {
        return false;
    }
    let mut i: usize = 0;
    while i < a.len()
        invariant
            i <= a.len() == b.len(),
            forall|k: int| 0 <= k < i ==> a@[k] == b@[k],
        decreases a.len() - i,
    {
        if a[i] != b[i] {
            return false;
        }
        i = i + 1;
    }
    assert(a@ =~= b@);
    true
}

/// Whether two strings hold the same characters.
pub fn str_eq(a: &str, b: &str) -> (r: bool)
    ensures
        r == (a@ == b@),
{
    let x = chars_of(a);
    let y = chars_of(b);
    chars_eq(x.as_slice(), y.as_slice())
}

} // verus!
