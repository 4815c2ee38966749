//! Measurement files: format detection and extraction of the frequency and
//! level columns from AutoEq, REW, Crinacle and generic CSV text.
//!
//! Numbers are handed out as the exact text that was recognised as a
//! floating-point literal; turning them into values is left to the caller.
use vstd::prelude::*;
use crate::error::{AutoEqError, Result, csv_error};
use crate::text::{
    ascii_lower_code, contains_char, eq_ignore_ascii_case, eq_ignore_case, has_prefix, is_digit,
    join, join_chars, lines, lines_of, replace_char, replace_chars, split, split_chars, split_ws,
    split_whitespace_chars, starts_with_ascii_digit, starts_with_chars, starts_with_digit,
    string_from_chars, trim, trim_chars, views, chars_of, is_ws, lemma_lines_join, lemma_lines_pieces,
    lemma_trim_ends, lemma_trim_idempotent, lemma_split_join, lemma_split_ws_pair, lemma_trim_padded,
};

verus! {

// ---------------------------------------------------------------------------
// Floating-point literals
// ---------------------------------------------------------------------------

/// ASCII codes of the characters that the literal grammar uses.
pub open spec fn code_is_digit(u: u32) -> bool {
    48 <= u <= 57
}

/// The mantissa `Digit+ | Digit+ '.' Digit* | Digit* '.' Digit+`:
/// digits with at most one point and at least one digit.
pub open spec fn is_mantissa(t: Seq<u32>) -> bool {
    &&& forall|i: int| 0 <= i < t.len() ==> code_is_digit(#[trigger] t[i]) || t[i] == 46
    &&& forall|i: int, j: int| #![trigger t[i], t[j]] 0 <= i < j < t.len() && t[i] == 46 ==> t[j] != 46
    &&& exists|i: int| 0 <= i < t.len() && code_is_digit(#[trigger] t[i])
}

/// Every code is a decimal digit.
pub open spec fn all_digits(t: Seq<u32>) -> bool {
    forall|i: int| 0 <= i < t.len() ==> code_is_digit(#[trigger] t[i])
}

/// What follows `e` in an exponent, without its sign.
pub open spec fn exponent_digits(rest: Seq<u32>) -> Seq<u32> {
    if rest.len() > 0 && (rest[0] == 43 || rest[0] == 45) {
        rest.drop_first()
    } else {
        rest
    }
}

/// The exponent `('e' Sign? Digit+)?`.
pub open spec fn is_exponent(t: Seq<u32>) -> bool {
    t.len() == 0 || (t[0] == 101 && exponent_digits(t.drop_first()).len() >= 1 && all_digits(
        exponent_digits(t.drop_first()),
    ))
}

/// Position of the first `e` in `t`, or its length.
pub open spec fn exponent_start(t: Seq<u32>) -> int {
    if exists|i: int| 0 <= i < t.len() && t[i] == 101 {
        choose|i: int| 0 <= i < t.len() && t[i] == 101 && forall|k: int| 0 <= k < i ==> t[k] != 101
    } else {
        t.len() as int
    }
}

/// The grammar that `f64::from_str` accepts, applied to ASCII-lowercased text:
/// `Sign? ('inf' | 'infinity' | 'nan' | Number)` with
/// `Number ::= (Digit+ | Digit+ '.' Digit* | Digit* '.' Digit+) Exp?`,
/// `Exp ::= 'e' Sign? Digit+`, `Sign ::= [+-]`, `Digit ::= [0-9]`.
#[verifier::opaque]
pub open spec fn is_float_literal(s: Seq<char>) -> bool {
    let body = if s.len() > 0 && (s[0] == '+' || s[0] == '-') {
        s.drop_first()
    } else {
        s
    };
    let t = body.map_values(|c: char| ascii_lower_code(c));
    ||| t == seq![105u32, 110, 102]
    ||| t == seq![105u32, 110, 102, 105, 110, 105, 116, 121]
    ||| t == seq![110u32, 97, 110]
    ||| {
        let e = exponent_start(t);
        is_mantissa(t.take(e)) && is_exponent(t.skip(e))
    }
}

proof fn lemma_exponent_start(t: Seq<u32>, e: int)
    requires
        0 <= e <= t.len(),
        forall|k: int| 0 <= k < e ==> t[k] != 101,
        e == t.len() || t[e] == 101,
    ensures
        exponent_start(t) == e,
{
    if e < t.len() {
        let c = choose|i: int| 0 <= i < t.len() && t[i] == 101 && forall|k: int| 0 <= k < i ==> t[k] != 101;
        if c < e {
        } else if c > e {
            assert(t[e] != 101);
        }
    }
}

/// ASCII-lowercased codes of `s[from..]`.
fn lower_codes(s: &[char], from: usize) -> (t: Vec<u32>)
    requires
        from <= s.len(),
    ensures
        t@ == s@.skip(from as int).map_values(|c: char| ascii_lower_code(c)),
{
    let mut t: Vec<u32> = Vec::new();
    let mut i = from;
    while i < s.len()
        invariant
            from <= i <= s.len(),
            t@ == s@.subrange(from as int, i as int).map_values(|c: char| ascii_lower_code(c)),
        decreases s.len() - i,
    {
        let u = s[i] as u32;
        t.push(if 65 <= u && u <= 90 { u + 32 } else { u });
        assert(s@.subrange(from as int, i + 1) == s@.subrange(from as int, i as int).push(s@[i as int]));
        i = i + 1;
    }
    assert(s@.subrange(from as int, s.len() as int) == s@.skip(from as int));
    t
}

fn codes_equal(t: &Vec<u32>, word: &[u32]) -> (b: bool)
    ensures
        b == (t@ == word@),
{
    if t.len() != word.len() {
        return false;
    }
    let mut i: usize = 0;
    while i < t.len()
        invariant
            i <= t.len() == word.len(),
            forall|k: int| 0 <= k < i ==> t@[k] == word@[k],
        decreases t.len() - i,
    {
        if t[i] != word[i] {
            return false;
        }
        i = i + 1;
    }
    assert(t@ =~= word@);
    true
}

fn check_mantissa(t: &Vec<u32>, e: usize) -> (b: bool)
    requires
        e <= t.len(),
    ensures
        b == is_mantissa(t@.take(e as int)),
{
    let ghost m = t@.take(e as int);
    let mut seen_dot = false;
    let mut seen_digit = false;
    let mut k: usize = 0;
    while k < e
        invariant
            k <= e <= t.len(),
            m == t@.take(e as int),
            forall|i: int| 0 <= i < k ==> code_is_digit(#[trigger] m[i]) || m[i] == 46,
            forall|i: int, j: int| #![trigger m[i], m[j]] 0 <= i < j < k && m[i] == 46 ==> m[j] != 46,
            seen_dot <==> exists|i: int| 0 <= i < k && #[trigger] m[i] == 46,
            seen_digit <==> exists|i: int| 0 <= i < k && code_is_digit(#[trigger] m[i]),
        decreases e - k,
    {
        let c = t[k];
        assert(m[k as int] == c);
        if 48 <= c && c <= 57 {
            seen_digit = true;
        } else if c == 46 {
            if seen_dot {
                proof {
                    let i = choose|i: int| 0 <= i < k && #[trigger] m[i] == 46;
                    assert(m[i] == 46 && m[k as int] == 46);
                }
                return false;
            }
            seen_dot = true;
        } else {
            assert(!(code_is_digit(m[k as int]) || m[k as int] == 46));
            return false;
        }
        k = k + 1;
    }
    seen_digit
}

fn check_exponent(t: &Vec<u32>, e: usize) -> (b: bool)
    requires
        e <= t.len(),
        e == t.len() || t@[e as int] == 101,
    ensures
        b == is_exponent(t@.skip(e as int)),
{
    let n = t.len();
    let ghost x = t@.skip(e as int);
    if e == n {
        assert(x.len() == 0);
        return true;
    }
    assert(x[0] == 101);
    let mut d = e + 1;
    if d < n && (t[d] == 43 || t[d] == 45) {
        d = d + 1;
    }
    let ghost digits = t@.skip(d as int);
    let ghost rest = x.drop_first();
    assert(rest == t@.skip(e + 1));
    assert(digits == exponent_digits(rest));
    if d >= n {
        assert(digits.len() == 0);
        return false;
    }
    let mut q = d;
    while q < n
        invariant
            d <= q <= n == t.len(),
            e < n,
            t@.skip(e as int)[0] == 101,
            digits == t@.skip(d as int),
            digits == exponent_digits(t@.skip(e as int).drop_first()),
            forall|i: int| 0 <= i < q - d ==> code_is_digit(#[trigger] digits[i]),
        decreases n - q,
    {
        if !(48 <= t[q] && t[q] <= 57) {
            assert(!code_is_digit(digits[q - d]));
            return false;
        }
        q = q + 1;
    }
    true
}

/// Whether the characters `s` form a floating-point literal that
/// `f64::from_str` accepts (see `is_float_literal`).
pub fn is_float_token(s: &[char]) -> (r: bool)
    ensures
        r == is_float_literal(s@),
{
    reveal(is_float_literal);
    let start: usize = if s.len() > 0 && (s[0] == '+' || s[0] == '-') { 1 } else { 0 };
    let t = lower_codes(s, start);
    proof {
        assert(s@.skip(0) == s@);
        assert(s@.skip(1) == s@.drop_first());
    }
    let inf: [u32; 3] = [105, 110, 102];
    let infinity: [u32; 8] = [105, 110, 102, 105, 110, 105, 116, 121];
    let nan: [u32; 3] = [110, 97, 110];
    assert(inf@ == seq![105u32, 110, 102]);
    assert(infinity@ == seq![105u32, 110, 102, 105, 110, 105, 116, 121]);
    assert(nan@ == seq![110u32, 97, 110]);
    if codes_equal(&t, &inf) || codes_equal(&t, &infinity) || codes_equal(&t, &nan) {
        return true;
    }
    let n = t.len();
    let mut e: usize = 0;
    while e < n && t[e] != 101
        invariant
            e <= n == t.len(),
            forall|k: int| 0 <= k < e ==> t@[k] != 101,
        decreases n - e,
    {
        e = e + 1;
    }
    proof {
        lemma_exponent_start(t@, e as int);
    }
    check_mantissa(&t, e) && check_exponent(&t, e)
}

// ---------------------------------------------------------------------------
// Patterns (regex crate)
// ---------------------------------------------------------------------------

/// Whether `regex::Regex::new` accepts `pattern`.
pub uninterp spec fn regex_compiles(pattern: Seq<char>) -> bool;

/// What `regex::Regex::is_match` answers for the compiled `pattern` on `haystack`.
pub uninterp spec fn regex_is_match(pattern: Seq<char>, haystack: Seq<char>) -> bool;

/// Outcome of compiling `pattern` and searching `haystack` with it.
pub open spec fn regex_outcome(pattern: Seq<char>, haystack: Seq<char>) -> Option<bool> {
    if regex_compiles(pattern) {
        Some(regex_is_match(pattern, haystack))
    } else {
        None
    }
}

/// Compiles `pattern` with `regex::Regex::new` and, if that succeeds, asks
/// `Regex::is_match` whether it matches anywhere in `haystack`. Trusted: the
/// result is `None` exactly when compilation fails, otherwise the match answer;
/// both are left as named functions of the pattern and the haystack.
#[verifier::external_body]
fn regex_search(pattern: &str, haystack: &str) -> (r: Option<bool>)
    ensures
        r.is_some() == regex_compiles(pattern@),
        r matches Some(b) ==> b == regex_is_match(pattern@, haystack@),
{
    match regex::Regex::new(pattern) {
        Ok(re) => Some(re.is_match(haystack)),
        Err(_) => None,
    }
}

/// Header of AutoEq's own CSV files.
pub const AUTOEQ_PATTERN: &'static str = "(?i)^frequency(?:,(?:raw|smoothed|error|error_smoothed|equalization|parametric_eq|fixed_band_eq|equalized_raw|equalized_smoothed|target))+$";

/// Header line of Room EQ Wizard exports.
pub const REW_PATTERN: &'static str = "(?m)^\\*.*Freq\\(Hz\\).*SPL\\(dB\\)";

/// Header line of Crinacle's measurement exports.
pub const CRINACLE_PATTERN: &'static str = "(?m)^Frequency\\tdB\\tUnweighted";

/// Column names that hold frequencies.
pub const FREQ_HEADER_PATTERN: &'static str = "(?i)^freq";

/// Column names that hold levels.
pub const RAW_HEADER_PATTERN: &'static str = "(?i)^(?:spl|gain|ampl|raw)";

/// Message returned when a built-in pattern does not compile.
pub const PATTERN_ERROR: &'static str = "Invalid built-in pattern";

/// Searches `haystack` (given as characters) with `pattern`.
fn search_chars(pattern: &str, haystack: &[char]) -> (r: Option<bool>)
    ensures
        r == regex_outcome(pattern@, haystack@),
{
    let h = string_from_chars(haystack);
    regex_search(pattern, h.as_str())
}


// ---------------------------------------------------------------------------
// Searching
// ---------------------------------------------------------------------------

/// Index of the first element satisfying `p`.
#[verifier::opaque]
pub open spec fn first_index<A>(s: Seq<A>, p: spec_fn(A) -> bool) -> Option<int> {
    if exists|i: int| 0 <= i < s.len() && #[trigger] p(s[i]) {
        Some(
            choose|i: int|
                0 <= i < s.len() && #[trigger] p(s[i]) && forall|k: int| 0 <= k < i ==> !p(s[k]),
        )
    } else {
        None
    }
}

pub proof fn lemma_first_index_at<A>(s: Seq<A>, p: spec_fn(A) -> bool, i: int)
    requires
        0 <= i < s.len(),
        p(s[i]),
        forall|k: int| 0 <= k < i ==> !p(#[trigger] s[k]),
    ensures
        first_index(s, p) == Some(i),
{
    reveal(first_index);
    let j = choose|j: int| 0 <= j < s.len() && #[trigger] p(s[j]) && forall|k: int| 0 <= k < j ==> !p(s[k]);
    assert(0 <= j < s.len() && p(s[j]) && forall|k: int| 0 <= k < j ==> !p(s[k]));
    if j < i {
        assert(!p(s[j]));
    } else if j > i {
        assert(!p(s[i]));
    }
}

pub proof fn lemma_first_index_none<A>(s: Seq<A>, p: spec_fn(A) -> bool)
    requires
        forall|k: int| 0 <= k < s.len() ==> !p(#[trigger] s[k]),
    ensures
        first_index(s, p) == None::<int>,
{
    reveal(first_index);
}

/// Index of the last `true`.
pub open spec fn last_true(s: Seq<bool>) -> Option<int>
    decreases s.len(),
{
    if s.len() == 0 {
        None
    } else if s.last() {
        Some(s.len() - 1)
    } else {
        last_true(s.drop_last())
    }
}

// ---------------------------------------------------------------------------
// Results
// ---------------------------------------------------------------------------

/// Frequency and level columns of a measurement, each number given as the
/// floating-point literal it was read from.
#[derive(Debug)]
pub struct ParsedCsv {
    pub frequency: Vec<String>,
    pub raw: Vec<String>,
}

/// A data row: the frequency literal and the level literal.
pub type Row = (Seq<char>, Seq<char>);

/// Characters of each string.
pub open spec fn strings_view(v: Seq<String>) -> Seq<Seq<char>> {
    v.map_values(|s: String| s@)
}

/// Frequency literals of the rows.
pub open spec fn row_freqs(rows: Seq<Row>) -> Seq<Seq<char>> {
    rows.map_values(|x: Row| x.0)
}

/// Level literals of the rows.
pub open spec fn row_levels(rows: Seq<Row>) -> Seq<Seq<char>> {
    rows.map_values(|x: Row| x.1)
}

/// `r` is the parse outcome `expected`: the same rows, or a CSV error with the
/// same message.
pub open spec fn agrees(r: Result<ParsedCsv>, expected: core::result::Result<Seq<Row>, Seq<char>>) -> bool {
    match expected {
        Ok(rows) => r matches Ok(p) && strings_view(p.frequency@) == row_freqs(rows) && strings_view(
            p.raw@,
        ) == row_levels(rows),
        Err(msg) => r matches Err(AutoEqError::CsvParse(m)) && m@ == msg,
    }
}

/// The rows, or the message `msg` when there are none.
pub open spec fn rows_or(rows: Seq<Row>, msg: Seq<char>) -> core::result::Result<Seq<Row>, Seq<char>> {
    if rows.len() == 0 {
        Err(msg)
    } else {
        Ok(rows)
    }
}

/// The pair, when both candidates are floating-point literals.
pub open spec fn literal_pair(f: Seq<char>, r: Seq<char>) -> Option<Row> {
    if is_float_literal(f) && is_float_literal(r) {
        Some((f, r))
    } else {
        None
    }
}

fn literal_pair_exec(f: Vec<char>, r: Vec<char>) -> (out: Option<(Vec<char>, Vec<char>)>)
    ensures
        match literal_pair(f@, r@) {
            Some(x) => out matches Some(o) && o.0@ == x.0 && o.1@ == x.1,
            None => out is None,
        },
{
    if is_float_token(f.as_slice()) && is_float_token(r.as_slice()) {
        Some((f, r))
    } else {
        None
    }
}

/// Accumulates rows into the two columns of a result.
struct Columns {
    frequency: Vec<String>,
    raw: Vec<String>,
}

impl Columns {
    spec fn holds(&self, rows: Seq<Row>) -> bool {
        strings_view(self.frequency@) == row_freqs(rows) && strings_view(self.raw@) == row_levels(rows)
    }

    fn new() -> (c: Self)
        ensures
            c.holds(Seq::empty()),
    {
        let c = Columns { frequency: Vec::new(), raw: Vec::new() };
        assert(strings_view(c.frequency@) =~= row_freqs(Seq::empty()));
        assert(strings_view(c.raw@) =~= row_levels(Seq::empty()));
        c
    }

    fn push(&mut self, row: Option<(Vec<char>, Vec<char>)>, Ghost(rows): Ghost<Seq<Row>>, Ghost(x): Ghost<Option<Row>>)
        requires
            old(self).holds(rows),
            match x {
                Some(x) => row matches Some(o) && o.0@ == x.0 && o.1@ == x.1,
                None => row is None,
            },
        ensures
            final(self).holds(
                match x {
                    Some(x) => rows.push(x),
                    None => rows,
                },
            ),
    {
        if let Some((f, r)) = row {
            let fs = string_from_chars(f.as_slice());
            let rs = string_from_chars(r.as_slice());
            let ghost of = self.frequency@;
            let ghost orr = self.raw@;
            self.frequency.push(fs);
            self.raw.push(rs);
            let ghost xx = x.unwrap();
            assert(strings_view(self.frequency@) =~= strings_view(of).push(xx.0));
            assert(row_freqs(rows.push(xx)) =~= row_freqs(rows).push(xx.0));
            assert(strings_view(self.raw@) =~= strings_view(orr).push(xx.1));
            assert(row_levels(rows.push(xx)) =~= row_levels(rows).push(xx.1));
        }
    }

    fn finish(self, Ghost(rows): Ghost<Seq<Row>>, msg: &str) -> (r: Result<ParsedCsv>)
        requires
            self.holds(rows),
        ensures
            agrees(r, rows_or(rows, msg@)),
    {
        assert(strings_view(self.frequency@).len() == self.frequency@.len());
        assert(row_freqs(rows).len() == rows.len());
        if self.frequency.len() == 0 {
            Err(csv_error(msg))
        } else {
            Ok(ParsedCsv { frequency: self.frequency, raw: self.raw })
        }
    }
}


// ---------------------------------------------------------------------------
// AutoEq format
// ---------------------------------------------------------------------------

/// `frequency`
pub open spec fn word_frequency() -> Seq<char> {
    seq!['f', 'r', 'e', 'q', 'u', 'e', 'n', 'c', 'y']
}

/// `raw`
pub open spec fn word_raw() -> Seq<char> {
    seq!['r', 'a', 'w']
}

/// `spl`
pub open spec fn word_spl() -> Seq<char> {
    seq!['s', 'p', 'l']
}

/// Each piece trimmed.
pub open spec fn trim_all(ps: Seq<Seq<char>>) -> Seq<Seq<char>> {
    ps.map_values(|p: Seq<char>| trim(p))
}

/// Names equal to `name` up to ASCII case.
pub open spec fn named(name: Seq<char>) -> spec_fn(Seq<char>) -> bool {
    |c: Seq<char>| eq_ignore_case(c, name)
}

/// The row of an AutoEq data line, reading columns `fc` and `rc`.
pub open spec fn autoeq_row(line: Seq<char>, fc: int, rc: int) -> Option<Row> {
    let parts = split(line, ',');
    if parts.len() <= if fc >= rc { fc } else { rc } {
        None
    } else {
        literal_pair(trim(parts[fc]), trim(parts[rc]))
    }
}

/// Rows of AutoEq data lines.
pub open spec fn autoeq_rows(ls: Seq<Seq<char>>, fc: int, rc: int) -> Seq<Row>
    decreases ls.len(),
{
    if ls.len() == 0 {
        Seq::empty()
    } else {
        let rest = autoeq_rows(ls.drop_last(), fc, rc);
        match autoeq_row(ls.last(), fc, rc) {
            Some(x) => rest.push(x),
            None => rest,
        }
    }
}

/// Frequency and level column of an AutoEq header: the first column named
/// `frequency`, and the first named `raw`, else `spl`, else the second.
#[verifier::opaque]
pub open spec fn autoeq_columns(header: Seq<char>) -> Option<(int, int)> {
    let cols = trim_all(split(header, ','));
    match first_index(cols, named(word_frequency())) {
        None => None,
        Some(fc) => Some(
            (
                fc,
                match first_index(cols, named(word_raw())) {
                    Some(i) => i,
                    None => match first_index(cols, named(word_spl())) {
                        Some(i) => i,
                        None => 1,
                    },
                },
            ),
        ),
    }
}

/// Parsing AutoEq's own format: the header names the columns, the other lines
/// are comma-separated rows.
pub open spec fn autoeq_parse(ls: Seq<Seq<char>>) -> core::result::Result<Seq<Row>, Seq<char>> {
    if ls.len() == 0 {
        Err("Empty CSV"@)
    } else {
        match autoeq_columns(ls[0]) {
            None => Err("No frequency column"@),
            Some((fc, rc)) => rows_or(autoeq_rows(ls.drop_first(), fc, rc), "No data found in AutoEq CSV"@),
        }
    }
}

/// Trims every piece.
fn trim_each(ps: &Vec<Vec<char>>) -> (out: Vec<Vec<char>>)
    ensures
        views(out@) == trim_all(views(ps@)),
{
    let mut out: Vec<Vec<char>> = Vec::new();
    let mut i: usize = 0;
    while i < ps.len()
        invariant
            i <= ps.len(),
            views(out@) == trim_all(views(ps@).take(i as int)),
        decreases ps.len() - i,
    {
        let t = trim_chars(ps[i].as_slice());
        out.push(t);
        assert(trim_all(views(ps@).take(i + 1)) =~= trim_all(views(ps@).take(i as int)).push(trim(ps@[i as int]@)));
        assert(views(out@) =~= trim_all(views(ps@).take(i as int)).push(trim(ps@[i as int]@)));
        i = i + 1;
    }
    assert(views(ps@).take(ps.len() as int) == views(ps@));
    out
}

/// Position of the first name equal to `name` up to ASCII case.
fn position_named(cols: &Vec<Vec<char>>, name: &[char]) -> (r: Option<usize>)
    ensures
        r is None <==> first_index(views(cols@), named(name@)) is None,
        r matches Some(i) ==> first_index(views(cols@), named(name@)) == Some(i as int),
{
    let mut i: usize = 0;
    while i < cols.len()
        invariant
            i <= cols.len(),
            forall|k: int| 0 <= k < i ==> !(#[trigger] named(name@)(views(cols@)[k])),
        decreases cols.len() - i,
    {
        if eq_ignore_ascii_case(cols[i].as_slice(), name) {
            proof {
                lemma_first_index_at(views(cols@), named(name@), i as int);
            }
            return Some(i);
        }
        i = i + 1;
    }
    proof {
        lemma_first_index_none(views(cols@), named(name@));
    }
    None
}

fn autoeq_row_exec(line: &Vec<char>, fc: usize, rc: usize) -> (out: Option<(Vec<char>, Vec<char>)>)
    ensures
        match autoeq_row(line@, fc as int, rc as int) {
            Some(x) => out matches Some(o) && o.0@ == x.0 && o.1@ == x.1,
            None => out is None,
        },
{
    let parts = split_chars(line.as_slice(), ',');
    let m = if fc >= rc { fc } else { rc };
    if parts.len() <= m {
        return None;
    }
    let f = trim_chars(parts[fc].as_slice());
    let r = trim_chars(parts[rc].as_slice());
    literal_pair_exec(f, r)
}

fn autoeq_header(header: &Vec<char>) -> (r: Option<(usize, usize)>)
    ensures
        r is None <==> autoeq_columns(header@) is None,
        r matches Some((a, b)) ==> autoeq_columns(header@) == Some((a as int, b as int)),
{
    reveal(autoeq_columns);
    let pieces = split_chars(header.as_slice(), ',');
    let cols = trim_each(&pieces);
    let w_frequency: [char; 9] = ['f', 'r', 'e', 'q', 'u', 'e', 'n', 'c', 'y'];
    let w_raw: [char; 3] = ['r', 'a', 'w'];
    let w_spl: [char; 3] = ['s', 'p', 'l'];
    assert(w_frequency@ == word_frequency());
    assert(w_raw@ == word_raw());
    assert(w_spl@ == word_spl());
    let fc = match position_named(&cols, &w_frequency) {
        Some(i) => i,
        None => {
            return None;
        },
    };
    let rc = match position_named(&cols, &w_raw) {
        Some(i) => i,
        None => match position_named(&cols, &w_spl) {
            Some(i) => i,
            None => 1,
        },
    };
    Some((fc, rc))
}

fn autoeq_data(ls: &Vec<Vec<char>>, fc: usize, rc: usize) -> (r: Result<ParsedCsv>)
    requires
        ls.len() >= 1,
    ensures
        agrees(r, rows_or(autoeq_rows(views(ls@).drop_first(), fc as int, rc as int), "No data found in AutoEq CSV"@)),
{
    let ghost all = views(ls@);
    let mut acc = Columns::new();
    let mut i: usize = 1;
    while i < ls.len()
        invariant
            1 <= i <= ls.len(),
            all == views(ls@),
            acc.holds(autoeq_rows(all.subrange(1, i as int), fc as int, rc as int)),
        decreases ls.len() - i,
    {
        let ghost before = all.subrange(1, i as int);
        assert(all.subrange(1, i + 1).drop_last() == before);
        let row = autoeq_row_exec(&ls[i], fc, rc);
        acc.push(
            row,
            Ghost(autoeq_rows(before, fc as int, rc as int)),
            Ghost(autoeq_row(all[i as int], fc as int, rc as int)),
        );
        i = i + 1;
    }
    assert(all.subrange(1, ls.len() as int) == all.drop_first());
    acc.finish(Ghost(autoeq_rows(all.drop_first(), fc as int, rc as int)), "No data found in AutoEq CSV")
}

/// Parses lines in AutoEq's own format.
fn parse_autoeq_lines(ls: &Vec<Vec<char>>) -> (r: Result<ParsedCsv>)
    ensures
        agrees(r, autoeq_parse(views(ls@))),
{
    if ls.len() == 0 {
        return Err(csv_error("Empty CSV"));
    }
    let ghost v = views(ls@);
    assert(v[0] == ls@[0]@);
    match autoeq_header(&ls[0]) {
        None => {
            assert(autoeq_columns(v[0]) is None);
            Err(csv_error("No frequency column"))
        },
        Some((fc, rc)) => {
            assert(autoeq_columns(v[0]) == Some((fc as int, rc as int)));
            autoeq_data(ls, fc, rc)
        },
    }
}

/// Parses CSV text in AutoEq's own format (header `frequency,...`).
pub fn parse_autoeq(csv: &str) -> (r: Result<ParsedCsv>)
    ensures
        agrees(r, autoeq_parse(lines(csv@))),
{
    let cs = chars_of(csv);
    let ls = lines_of(cs.as_slice());
    parse_autoeq_lines(&ls)
}


// ---------------------------------------------------------------------------
// REW format
// ---------------------------------------------------------------------------

/// The row of a Room EQ Wizard line: comment lines (`*`), lines with missing
/// values (`?`) and lines not starting with a digit give none; otherwise the
/// first two whitespace-separated fields.
pub open spec fn rew_row(line: Seq<char>) -> Option<Row> {
    let t = trim(line);
    if t.len() == 0 || t[0] == '*' {
        None
    } else if t.contains('?') {
        None
    } else if !starts_with_digit(t) {
        None
    } else {
        let parts = split_ws(t);
        if parts.len() < 2 {
            None
        } else {
            literal_pair(parts[0], parts[1])
        }
    }
}

/// Rows of Room EQ Wizard lines.
pub open spec fn rew_rows(ls: Seq<Seq<char>>) -> Seq<Row>
    decreases ls.len(),
{
    if ls.len() == 0 {
        Seq::empty()
    } else {
        let rest = rew_rows(ls.drop_last());
        match rew_row(ls.last()) {
            Some(x) => rest.push(x),
            None => rest,
        }
    }
}

/// Parsing a Room EQ Wizard export.
pub open spec fn rew_parse(ls: Seq<Seq<char>>) -> core::result::Result<Seq<Row>, Seq<char>> {
    rows_or(rew_rows(ls), "No valid data in REW format"@)
}

fn rew_row_exec(line: &Vec<char>) -> (out: Option<(Vec<char>, Vec<char>)>)
    ensures
        match rew_row(line@) {
            Some(x) => out matches Some(o) && o.0@ == x.0 && o.1@ == x.1,
            None => out is None,
        },
{
    let t = trim_chars(line.as_slice());
    if t.len() == 0 || t[0] == '*' {
        return None;
    }
    if contains_char(t.as_slice(), '?') {
        return None;
    }
    if !starts_with_ascii_digit(t.as_slice()) {
        return None;
    }
    let parts = split_whitespace_chars(t.as_slice());
    if parts.len() < 2 {
        return None;
    }
    assert(views(parts@)[0] == parts@[0]@ && views(parts@)[1] == parts@[1]@);
    let f = parts[0].clone();
    let r = parts[1].clone();
    literal_pair_exec(f, r)
}

fn parse_rew_lines(ls: &Vec<Vec<char>>) -> (r: Result<ParsedCsv>)
    ensures
        agrees(r, rew_parse(views(ls@))),
{
    let ghost all = views(ls@);
    let mut acc = Columns::new();
    let mut i: usize = 0;
    while i < ls.len()
        invariant
            i <= ls.len(),
            all == views(ls@),
            acc.holds(rew_rows(all.take(i as int))),
        decreases ls.len() - i,
    {
        let ghost before = all.take(i as int);
        assert(all.take(i + 1).drop_last() == before);
        let row = rew_row_exec(&ls[i]);
        acc.push(row, Ghost(rew_rows(before)), Ghost(rew_row(all[i as int])));
        i = i + 1;
    }
    assert(all.take(ls.len() as int) == all);
    acc.finish(Ghost(rew_rows(all)), "No valid data in REW format")
}

/// Parses a Room EQ Wizard export (`*` comment lines, whitespace-separated data).
pub fn parse_rew(csv: &str) -> (r: Result<ParsedCsv>)
    ensures
        agrees(r, rew_parse(lines(csv@))),
{
    let cs = chars_of(csv);
    let ls = lines_of(cs.as_slice());
    parse_rew_lines(&ls)
}

// ---------------------------------------------------------------------------
// Crinacle format
// ---------------------------------------------------------------------------

/// `Frequency`
pub open spec fn word_frequency_title() -> Seq<char> {
    seq!['F', 'r', 'e', 'q', 'u', 'e', 'n', 'c', 'y']
}

/// Lines that, trimmed, start with `Frequency`.
pub open spec fn crinacle_header() -> spec_fn(Seq<char>) -> bool {
    |l: Seq<char>| has_prefix(trim(l), word_frequency_title())
}

/// The row of a tab-separated Crinacle data line.
pub open spec fn crinacle_row(line: Seq<char>) -> Option<Row> {
    let parts = split(line, '\t');
    if parts.len() < 2 {
        None
    } else {
        literal_pair(trim(parts[0]), trim(parts[1]))
    }
}

/// Rows of Crinacle data lines.
pub open spec fn crinacle_rows(ls: Seq<Seq<char>>) -> Seq<Row>
    decreases ls.len(),
{
    if ls.len() == 0 {
        Seq::empty()
    } else {
        let rest = crinacle_rows(ls.drop_last());
        match crinacle_row(ls.last()) {
            Some(x) => rest.push(x),
            None => rest,
        }
    }
}

/// Parsing a Crinacle export: the lines after the first one starting with `Frequency`.
pub open spec fn crinacle_parse(ls: Seq<Seq<char>>) -> core::result::Result<Seq<Row>, Seq<char>> {
    match first_index(ls, crinacle_header()) {
        None => Err("No Crinacle header found"@),
        Some(h) => rows_or(crinacle_rows(ls.skip(h + 1)), "No valid data in Crinacle format"@),
    }
}

fn crinacle_row_exec(line: &Vec<char>) -> (out: Option<(Vec<char>, Vec<char>)>)
    ensures
        match crinacle_row(line@) {
            Some(x) => out matches Some(o) && o.0@ == x.0 && o.1@ == x.1,
            None => out is None,
        },
{
    let parts = split_chars(line.as_slice(), '\t');
    if parts.len() < 2 {
        return None;
    }
    let f = trim_chars(parts[0].as_slice());
    let r = trim_chars(parts[1].as_slice());
    literal_pair_exec(f, r)
}

fn crinacle_header_index(ls: &Vec<Vec<char>>) -> (r: Option<usize>)
    ensures
        r is None <==> first_index(views(ls@), crinacle_header()) is None,
        r matches Some(i) ==> first_index(views(ls@), crinacle_header()) == Some(i as int) && i < ls.len(),
{
    let w: [char; 9] = ['F', 'r', 'e', 'q', 'u', 'e', 'n', 'c', 'y'];
    assert(w@ == word_frequency_title());
    let mut i: usize = 0;
    while i < ls.len()
        invariant
            i <= ls.len(),
            w@ == word_frequency_title(),
            forall|k: int| 0 <= k < i ==> !(#[trigger] crinacle_header()(views(ls@)[k])),
        decreases ls.len() - i,
    {
        let t = trim_chars(ls[i].as_slice());
        if starts_with_chars(t.as_slice(), &w) {
            proof {
                lemma_first_index_at(views(ls@), crinacle_header(), i as int);
            }
            return Some(i);
        }
        i = i + 1;
    }
    proof {
        lemma_first_index_none(views(ls@), crinacle_header());
    }
    None
}

fn crinacle_data(ls: &Vec<Vec<char>>, from: usize) -> (r: Result<ParsedCsv>)
    requires
        from <= ls.len(),
    ensures
        agrees(r, rows_or(crinacle_rows(views(ls@).skip(from as int)), "No valid data in Crinacle format"@)),
{
    let ghost all = views(ls@);
    let mut acc = Columns::new();
    let mut i: usize = from;
    while i < ls.len()
        invariant
            from <= i <= ls.len(),
            all == views(ls@),
            acc.holds(crinacle_rows(all.subrange(from as int, i as int))),
        decreases ls.len() - i,
    {
        let ghost before = all.subrange(from as int, i as int);
        assert(all.subrange(from as int, i + 1).drop_last() == before);
        let row = crinacle_row_exec(&ls[i]);
        acc.push(row, Ghost(crinacle_rows(before)), Ghost(crinacle_row(all[i as int])));
        i = i + 1;
    }
    assert(all.subrange(from as int, ls.len() as int) == all.skip(from as int));
    acc.finish(Ghost(crinacle_rows(all.skip(from as int))), "No valid data in Crinacle format")
}

fn parse_crinacle_lines(ls: &Vec<Vec<char>>) -> (r: Result<ParsedCsv>)
    ensures
        agrees(r, crinacle_parse(views(ls@))),
{
    match crinacle_header_index(ls) {
        None => Err(csv_error("No Crinacle header found")),
        Some(h) => crinacle_data(ls, h + 1),
    }
}

/// Parses a Crinacle export (`Frequency\tdB\tUnweighted` header, tab-separated data).
pub fn parse_crinacle(csv: &str) -> (r: Result<ParsedCsv>)
    ensures
        agrees(r, crinacle_parse(lines(csv@))),
{
    let cs = chars_of(csv);
    let ls = lines_of(cs.as_slice());
    parse_crinacle_lines(&ls)
}


// ---------------------------------------------------------------------------
// Generic CSV: separators
// ---------------------------------------------------------------------------

/// Lines starting with a digit.
pub open spec fn numeric_line() -> spec_fn(Seq<char>) -> bool {
    |l: Seq<char>| starts_with_digit(l)
}

/// Every line contains `c`.
pub open spec fn all_contain(ls: Seq<Seq<char>>, c: char) -> bool {
    forall|i: int| 0 <= i < ls.len() ==> (#[trigger] ls[i]).contains(c)
}

/// The candidate column separators `,` `;` tab `|` (in that order) that occur
/// in every line.
pub open spec fn present_separators(ls: Seq<Seq<char>>) -> Seq<char> {
    (if all_contain(ls, ',') { seq![','] } else { Seq::empty() }) + (if all_contain(ls, ';') {
        seq![';']
    } else {
        Seq::empty()
    }) + (if all_contain(ls, '\t') { seq!['\t'] } else { Seq::empty() }) + (if all_contain(ls, '|') {
        seq!['|']
    } else {
        Seq::empty()
    })
}

/// Column and decimal separator of generic CSV lines, decided on the lines
/// that start with a digit: the one candidate that occurs in all of them with
/// `.` for decimals; a space if no candidate does but every line has one;
/// with `,` and exactly one other candidate, the other one with `,` for
/// decimals; otherwise an error.
pub open spec fn separators(ls: Seq<Seq<char>>) -> core::result::Result<(char, char), Seq<char>> {
    let numeric = ls.filter(numeric_line());
    let present = present_separators(numeric);
    if numeric.len() == 0 {
        Err("No numeric lines found"@)
    } else if present.len() == 0 {
        if all_contain(numeric, ' ') {
            Ok((' ', '.'))
        } else {
            Err("Could not find column separator"@)
        }
    } else if present.len() == 1 {
        Ok((present[0], '.'))
    } else if present[0] == ',' && present.len() == 2 {
        Ok((present[1], ','))
    } else {
        Err("Ambiguous separators"@)
    }
}

/// `r` is the separator outcome `expected`.
pub open spec fn separators_agree(r: Result<(char, char)>, expected: core::result::Result<(char, char), Seq<char>>) -> bool {
    match expected {
        Ok(p) => r == Ok::<(char, char), AutoEqError>(p),
        Err(msg) => r matches Err(AutoEqError::CsvParse(m)) && m@ == msg,
    }
}

fn numeric_lines(ls: &Vec<Vec<char>>) -> (out: Vec<Vec<char>>)
    ensures
        views(out@) == views(ls@).filter(numeric_line()),
{
    let ghost all = views(ls@);
    let mut out: Vec<Vec<char>> = Vec::new();
    let mut i: usize = 0;
    while i < ls.len()
        invariant
            i <= ls.len(),
            all == views(ls@),
            views(out@) == all.take(i as int).filter(numeric_line()),
        decreases ls.len() - i,
    {
        assert(all.take(i + 1) == all.take(i as int).push(all[i as int]));
        proof {
            all.take(i as int).lemma_filter_push(all[i as int], numeric_line());
        }
        if starts_with_ascii_digit(ls[i].as_slice()) {
            let ghost o = out@;
            out.push(ls[i].clone());
            assert(views(out@) =~= views(o).push(all[i as int]));
        }
        i = i + 1;
    }
    assert(all.take(ls.len() as int) == all);
    out
}

fn all_lines_contain(ls: &Vec<Vec<char>>, c: char) -> (b: bool)
    ensures
        b == all_contain(views(ls@), c),
{
    let mut i: usize = 0;
    while i < ls.len()
        invariant
            i <= ls.len(),
            forall|k: int| 0 <= k < i ==> (#[trigger] views(ls@)[k]).contains(c),
        decreases ls.len() - i,
    {
        if !contains_char(ls[i].as_slice(), c) {
            assert(!views(ls@)[i as int].contains(c));
            return false;
        }
        i = i + 1;
    }
    true
}

fn separators_of_lines(ls: &Vec<Vec<char>>) -> (r: Result<(char, char)>)
    ensures
        separators_agree(r, separators(views(ls@))),
{
    let numeric = numeric_lines(ls);
    let ghost nv = views(numeric@);
    if numeric.len() == 0 {
        return Err(csv_error("No numeric lines found"));
    }
    let mut present: Vec<char> = Vec::new();
    if all_lines_contain(&numeric, ',') {
        present.push(',');
    }
    if all_lines_contain(&numeric, ';') {
        present.push(';');
    }
    if all_lines_contain(&numeric, '\t') {
        present.push('\t');
    }
    if all_lines_contain(&numeric, '|') {
        present.push('|');
    }
    assert(present@ =~= present_separators(nv));
    if present.len() == 0 {
        if all_lines_contain(&numeric, ' ') {
            return Ok((' ', '.'));
        }
        return Err(csv_error("Could not find column separator"));
    }
    if present.len() == 1 {
        return Ok((present[0], '.'));
    }
    if present[0] == ',' && present.len() == 2 {
        return Ok((present[1], ','));
    }
    Err(csv_error("Ambiguous separators"))
}

/// Finds the column separator and the decimal separator of generic CSV text.
pub fn find_csv_separators(csv: &str) -> (r: Result<(char, char)>)
    ensures
        separators_agree(r, separators(lines(csv@))),
{
    let cs = chars_of(csv);
    let ls = lines_of(cs.as_slice());
    separators_of_lines(&ls)
}


// ---------------------------------------------------------------------------
// Generic CSV: column names
// ---------------------------------------------------------------------------

/// Lines starting with a digit and containing `sep`.
pub open spec fn numeric_line_with(sep: char) -> spec_fn(Seq<char>) -> bool {
    |l: Seq<char>| starts_with_digit(l) && l.contains(sep)
}

/// A header candidate: trimmed, not empty, not starting with a digit or `*`,
/// and with `count` fields.
pub open spec fn header_line(sep: char, count: int) -> spec_fn(Seq<char>) -> bool {
    |l: Seq<char>|
        {
            let t = trim(l);
            &&& t.len() > 0
            &&& !starts_with_digit(t)
            &&& t[0] != '*'
            &&& split(t, sep).len() == count
        }
}

/// Column names of generic CSV lines: when all lines that start with a digit
/// and contain `sep` have the same number of fields, the trimmed fields of the
/// first other line with that many fields.
pub open spec fn columns(ls: Seq<Seq<char>>, sep: char) -> Option<Seq<Seq<char>>> {
    let numeric = ls.filter(numeric_line_with(sep));
    if numeric.len() == 0 {
        None
    } else {
        let count = split(numeric[0], sep).len() as int;
        if exists|i: int| 0 <= i < numeric.len() && split(#[trigger] numeric[i], sep).len() != count {
            None
        } else {
            match first_index(ls, header_line(sep, count)) {
                None => None,
                Some(h) => Some(trim_all(split(trim(ls[h]), sep))),
            }
        }
    }
}

fn numeric_lines_with(ls: &Vec<Vec<char>>, sep: char) -> (out: Vec<Vec<char>>)
    ensures
        views(out@) == views(ls@).filter(numeric_line_with(sep)),
{
    let ghost all = views(ls@);
    let mut out: Vec<Vec<char>> = Vec::new();
    let mut i: usize = 0;
    while i < ls.len()
        invariant
            i <= ls.len(),
            all == views(ls@),
            views(out@) == all.take(i as int).filter(numeric_line_with(sep)),
        decreases ls.len() - i,
    {
        assert(all.take(i + 1) == all.take(i as int).push(all[i as int]));
        proof {
            all.take(i as int).lemma_filter_push(all[i as int], numeric_line_with(sep));
        }
        if starts_with_ascii_digit(ls[i].as_slice()) && contains_char(ls[i].as_slice(), sep) {
            let ghost o = out@;
            out.push(ls[i].clone());
            assert(views(out@) =~= views(o).push(all[i as int]));
        }
        i = i + 1;
    }
    assert(all.take(ls.len() as int) == all);
    out
}

fn header_index(ls: &Vec<Vec<char>>, sep: char, count: usize) -> (r: Option<usize>)
    ensures
        r is None <==> first_index(views(ls@), header_line(sep, count as int)) is None,
        r matches Some(i) ==> first_index(views(ls@), header_line(sep, count as int)) == Some(i as int)
            && i < ls.len(),
{
    let mut i: usize = 0;
    while i < ls.len()
        invariant
            i <= ls.len(),
            forall|k: int| 0 <= k < i ==> !(#[trigger] header_line(sep, count as int)(views(ls@)[k])),
        decreases ls.len() - i,
    {
        let t = trim_chars(ls[i].as_slice());
        if t.len() > 0 && !starts_with_ascii_digit(t.as_slice()) && t[0] != '*' {
            let parts = split_chars(t.as_slice(), sep);
            if parts.len() == count {
                proof {
                    lemma_first_index_at(views(ls@), header_line(sep, count as int), i as int);
                }
                return Some(i);
            }
        }
        i = i + 1;
    }
    proof {
        lemma_first_index_none(views(ls@), header_line(sep, count as int));
    }
    None
}

fn columns_of_lines(ls: &Vec<Vec<char>>, sep: char) -> (r: Option<Vec<Vec<char>>>)
    ensures
        match columns(views(ls@), sep) {
            None => r is None,
            Some(cols) => r matches Some(v) && views(v@) == cols,
        },
{
    let numeric = numeric_lines_with(ls, sep);
    let ghost nv = views(numeric@);
    if numeric.len() == 0 {
        return None;
    }
    assert(nv[0] == numeric@[0]@);
    let count = split_chars(numeric[0].as_slice(), sep).len();
    let mut i: usize = 0;
    while i < numeric.len()
        invariant
            i <= numeric.len(),
            nv == views(numeric@),
            nv == views(ls@).filter(numeric_line_with(sep)),
            nv.len() > 0,
            count == split(nv[0], sep).len(),
            forall|k: int| 0 <= k < i ==> split(#[trigger] nv[k], sep).len() == count,
        decreases numeric.len() - i,
    {
        if split_chars(numeric[i].as_slice(), sep).len() != count {
            proof {
                let numeric_spec = views(ls@).filter(numeric_line_with(sep));
                assert(numeric_spec == nv);
                assert(split(numeric_spec[i as int], sep).len() != split(numeric_spec[0], sep).len() as int);
            }
            return None;
        }
        i = i + 1;
    }
    match header_index(ls, sep, count) {
        None => None,
        Some(h) => {
            assert(views(ls@)[h as int] == ls@[h as int]@);
            let t = trim_chars(ls[h].as_slice());
            let parts = split_chars(t.as_slice(), sep);
            Some(trim_each(&parts))
        },
    }
}

/// Strings of character vectors.
fn strings_of(v: &Vec<Vec<char>>) -> (out: Vec<String>)
    ensures
        strings_view(out@) == views(v@),
{
    let mut out: Vec<String> = Vec::new();
    let mut i: usize = 0;
    while i < v.len()
        invariant
            i <= v.len(),
            strings_view(out@) == views(v@).take(i as int),
        decreases v.len() - i,
    {
        let ghost o = out@;
        out.push(string_from_chars(v[i].as_slice()));
        assert(strings_view(out@) =~= strings_view(o).push(v@[i as int]@));
        assert(views(v@).take(i + 1) =~= views(v@).take(i as int).push(v@[i as int]@));
        i = i + 1;
    }
    assert(views(v@).take(v.len() as int) == views(v@));
    out
}

/// Finds the column names of generic CSV text, if it has a header line.
pub fn find_csv_columns(csv: &str, col_sep: char) -> (r: Option<Vec<String>>)
    ensures
        match columns(lines(csv@), col_sep) {
            None => r is None,
            Some(cols) => r matches Some(v) && strings_view(v@) == cols,
        },
{
    let cs = chars_of(csv);
    let ls = lines_of(cs.as_slice());
    match columns_of_lines(&ls, col_sep) {
        None => None,
        Some(cols) => Some(strings_of(&cols)),
    }
}


// ---------------------------------------------------------------------------
// Generic CSV: data
// ---------------------------------------------------------------------------

/// Frequency and level column from the header matches: the last column whose
/// name matches the frequency pattern (else the first column) and the last
/// whose name matches the level pattern (else the second).
pub open spec fn chosen_columns(freq_hits: Seq<bool>, raw_hits: Seq<bool>) -> (int, int) {
    (
        match last_true(freq_hits) {
            Some(i) => i,
            None => 0,
        },
        match last_true(raw_hits) {
            Some(i) => i,
            None => 1,
        },
    )
}

fn last_true_exec(s: &Vec<bool>) -> (r: Option<usize>)
    ensures
        r is None <==> last_true(s@) is None,
        r matches Some(i) ==> last_true(s@) == Some(i as int),
{
    let mut i = s.len();
    assert(s@.take(i as int) == s@);
    while i > 0
        invariant
            i <= s.len(),
            last_true(s@) == last_true(s@.take(i as int)),
        decreases i,
    {
        assert(s@.take(i as int).drop_last() == s@.take(i - 1));
        if s[i - 1] {
            return Some(i - 1);
        }
        i = i - 1;
    }
    None
}

/// Chooses the frequency and level columns from which header names matched.
pub fn pick_columns(freq_hits: &Vec<bool>, raw_hits: &Vec<bool>) -> (r: (usize, usize))
    ensures
        (r.0 as int, r.1 as int) == chosen_columns(freq_hits@, raw_hits@),
{
    let f = match last_true_exec(freq_hits) {
        Some(i) => i,
        None => 0,
    };
    let r = match last_true_exec(raw_hits) {
        Some(i) => i,
        None => 1,
    };
    (f, r)
}

/// The row of a generic data line: lines starting with a digit, split at
/// `col_sep`, reading columns `fc` and `rc` (decimal commas turned into points).
pub open spec fn generic_row(line: Seq<char>, col_sep: char, dec_sep: char, fc: int, rc: int) -> Option<Row> {
    let t = trim(line);
    if !starts_with_digit(t) {
        None
    } else {
        let parts = split(t, col_sep);
        if parts.len() <= if fc >= rc { fc } else { rc } {
            None
        } else {
            let f = if dec_sep == ',' { replace_char(parts[fc], ',', '.') } else { parts[fc] };
            let r = if dec_sep == ',' { replace_char(parts[rc], ',', '.') } else { parts[rc] };
            literal_pair(trim(f), trim(r))
        }
    }
}

/// Rows of generic data lines.
pub open spec fn generic_rows(ls: Seq<Seq<char>>, col_sep: char, dec_sep: char, fc: int, rc: int) -> Seq<Row>
    decreases ls.len(),
{
    if ls.len() == 0 {
        Seq::empty()
    } else {
        let rest = generic_rows(ls.drop_last(), col_sep, dec_sep, fc, rc);
        match generic_row(ls.last(), col_sep, dec_sep, fc, rc) {
            Some(x) => rest.push(x),
            None => rest,
        }
    }
}

/// Extraction of the chosen columns from generic CSV lines.
pub open spec fn generic_extract(ls: Seq<Seq<char>>, col_sep: char, dec_sep: char, fc: int, rc: int) -> core::result::Result<Seq<Row>, Seq<char>> {
    rows_or(generic_rows(ls, col_sep, dec_sep, fc, rc), "No valid data found in CSV"@)
}

fn generic_row_exec(line: &Vec<char>, col_sep: char, dec_sep: char, fc: usize, rc: usize) -> (out: Option<(Vec<char>, Vec<char>)>)
    ensures
        match generic_row(line@, col_sep, dec_sep, fc as int, rc as int) {
            Some(x) => out matches Some(o) && o.0@ == x.0 && o.1@ == x.1,
            None => out is None,
        },
{
    let t = trim_chars(line.as_slice());
    if !starts_with_ascii_digit(t.as_slice()) {
        return None;
    }
    let parts = split_chars(t.as_slice(), col_sep);
    let m = if fc >= rc { fc } else { rc };
    if parts.len() <= m {
        return None;
    }
    let f = if dec_sep == ',' { replace_chars(parts[fc].as_slice(), ',', '.') } else { parts[fc].clone() };
    let r = if dec_sep == ',' { replace_chars(parts[rc].as_slice(), ',', '.') } else { parts[rc].clone() };
    let ft = trim_chars(f.as_slice());
    let rt = trim_chars(r.as_slice());
    literal_pair_exec(ft, rt)
}

fn extract_lines(ls: &Vec<Vec<char>>, col_sep: char, dec_sep: char, fc: usize, rc: usize) -> (r: Result<ParsedCsv>)
    ensures
        agrees(r, generic_extract(views(ls@), col_sep, dec_sep, fc as int, rc as int)),
{
    let ghost all = views(ls@);
    let mut acc = Columns::new();
    let mut i: usize = 0;
    while i < ls.len()
        invariant
            i <= ls.len(),
            all == views(ls@),
            acc.holds(generic_rows(all.take(i as int), col_sep, dec_sep, fc as int, rc as int)),
        decreases ls.len() - i,
    {
        let ghost before = all.take(i as int);
        assert(all.take(i + 1).drop_last() == before);
        let row = generic_row_exec(&ls[i], col_sep, dec_sep, fc, rc);
        acc.push(
            row,
            Ghost(generic_rows(before, col_sep, dec_sep, fc as int, rc as int)),
            Ghost(generic_row(all[i as int], col_sep, dec_sep, fc as int, rc as int)),
        );
        i = i + 1;
    }
    assert(all.take(ls.len() as int) == all);
    acc.finish(Ghost(generic_rows(all, col_sep, dec_sep, fc as int, rc as int)), "No valid data found in CSV")
}

/// Extracts columns `freq_col` and `raw_col` from the lines of generic CSV
/// text that start with a digit, given its column and decimal separators.
pub fn extract_columns(csv: &str, col_sep: char, dec_sep: char, freq_col: usize, raw_col: usize) -> (r: Result<ParsedCsv>)
    ensures
        agrees(r, generic_extract(lines(csv@), col_sep, dec_sep, freq_col as int, raw_col as int)),
{
    let cs = chars_of(csv);
    let ls = lines_of(cs.as_slice());
    extract_lines(&ls, col_sep, dec_sep, freq_col, raw_col)
}


// ---------------------------------------------------------------------------
// Generic CSV
// ---------------------------------------------------------------------------

/// For each column name, whether `pattern` matches it.
pub open spec fn header_hits(cols: Seq<Seq<char>>, pattern: Seq<char>) -> Seq<bool> {
    cols.map_values(|c: Seq<char>| regex_is_match(pattern, c))
}

/// Matches `pattern` against every column name; `None` when it does not compile.
fn match_columns(cols: &Vec<Vec<char>>, pattern: &str) -> (r: Option<Vec<bool>>)
    requires
        cols.len() > 0,
    ensures
        r is Some <==> regex_compiles(pattern@),
        r matches Some(h) ==> h@ == header_hits(views(cols@), pattern@),
{
    let mut hits: Vec<bool> = Vec::new();
    let mut i: usize = 0;
    while i < cols.len()
        invariant
            i <= cols.len(),
            cols.len() > 0,
            i > 0 ==> regex_compiles(pattern@),
            hits@.len() == i,
            forall|k: int| 0 <= k < i ==> hits@[k] == regex_is_match(pattern@, #[trigger] cols@[k]@),
        decreases cols.len() - i,
    {
        match search_chars(pattern, cols[i].as_slice()) {
            None => {
                return None;
            },
            Some(b) => {
                hits.push(b);
            },
        }
        i = i + 1;
    }
    assert(hits@ =~= header_hits(views(cols@), pattern@));
    Some(hits)
}

fn parse_generic_lines(ls: &Vec<Vec<char>>) -> (r: Result<ParsedCsv>)
    ensures
        agrees(r, generic_parse_lines(views(ls@))),
{
    let (cs, ds) = match separators_of_lines(ls) {
        Err(e) => {
            return Err(e);
        },
        Ok(p) => p,
    };
    match columns_of_lines(ls, cs) {
        None => extract_lines(ls, cs, ds, 0, 1),
        Some(cols) => {
            if cols.len() == 0 {
                let (fc, rc) = pick_columns(&Vec::new(), &Vec::new());
                return extract_lines(ls, cs, ds, fc, rc);
            }
            let fh = match match_columns(&cols, FREQ_HEADER_PATTERN) {
                None => {
                    return Err(csv_error(PATTERN_ERROR));
                },
                Some(h) => h,
            };
            let rh = match match_columns(&cols, RAW_HEADER_PATTERN) {
                None => {
                    return Err(csv_error(PATTERN_ERROR));
                },
                Some(h) => h,
            };
            let (fc, rc) = pick_columns(&fh, &rh);
            extract_lines(ls, cs, ds, fc, rc)
        },
    }
}

/// Parsing generic CSV lines: separators, then the columns that the header
/// names (frequency and level patterns), else the first two, then the data.
pub open spec fn generic_parse_lines(ls: Seq<Seq<char>>) -> core::result::Result<Seq<Row>, Seq<char>> {
    match separators(ls) {
        Err(m) => Err(m),
        Ok((cs, ds)) => match columns(ls, cs) {
            None => generic_extract(ls, cs, ds, 0, 1),
            Some(cols) => if cols.len() > 0 && !(regex_compiles(FREQ_HEADER_PATTERN@)
                && regex_compiles(RAW_HEADER_PATTERN@)) {
                Err(PATTERN_ERROR@)
            } else {
                let (fc, rc) = chosen_columns(
                    header_hits(cols, FREQ_HEADER_PATTERN@),
                    header_hits(cols, RAW_HEADER_PATTERN@),
                );
                generic_extract(ls, cs, ds, fc, rc)
            },
        },
    }
}

/// Parses generic CSV text: separators and column names are detected.
pub fn parse_generic(csv: &str) -> (r: Result<ParsedCsv>)
    ensures
        agrees(r, generic_parse_lines(lines(csv@))),
{
    let cs = chars_of(csv);
    let ls = lines_of(cs.as_slice());
    parse_generic_lines(&ls)
}


// ---------------------------------------------------------------------------
// Any format
// ---------------------------------------------------------------------------

/// Lines that are not empty.
pub open spec fn non_blank() -> spec_fn(Seq<char>) -> bool {
    |l: Seq<char>| l.len() > 0
}

/// The text with every line trimmed and empty lines dropped.
pub open spec fn cleaned(csv: Seq<char>) -> Seq<char> {
    join(trim_all(lines(csv)).filter(non_blank()), '\n')
}

/// Parsing cleaned text: AutoEq when its first line is an AutoEq header, else
/// REW when a line is a REW header, else Crinacle when a line is a Crinacle
/// header, else generic CSV.
pub open spec fn parse_text(text: Seq<char>) -> core::result::Result<Seq<Row>, Seq<char>> {
    let ls = lines(text);
    let autoeq = if ls.len() > 0 {
        regex_outcome(AUTOEQ_PATTERN@, ls[0])
    } else {
        Some(false)
    };
    match autoeq {
        None => Err(PATTERN_ERROR@),
        Some(true) => autoeq_parse(ls),
        Some(false) => match regex_outcome(REW_PATTERN@, text) {
            None => Err(PATTERN_ERROR@),
            Some(true) => rew_parse(ls),
            Some(false) => match regex_outcome(CRINACLE_PATTERN@, text) {
                None => Err(PATTERN_ERROR@),
                Some(true) => crinacle_parse(ls),
                Some(false) => generic_parse_lines(ls),
            },
        },
    }
}

fn clean_lines(ls: &Vec<Vec<char>>) -> (out: Vec<Vec<char>>)
    ensures
        views(out@) == trim_all(views(ls@)).filter(non_blank()),
{
    let trimmed = trim_each(ls);
    let ghost all = views(trimmed@);
    let mut out: Vec<Vec<char>> = Vec::new();
    let mut i: usize = 0;
    while i < trimmed.len()
        invariant
            i <= trimmed.len(),
            all == views(trimmed@),
            views(out@) == all.take(i as int).filter(non_blank()),
        decreases trimmed.len() - i,
    {
        assert(all.take(i + 1) == all.take(i as int).push(all[i as int]));
        proof {
            all.take(i as int).lemma_filter_push(all[i as int], non_blank());
        }
        if trimmed[i].len() > 0 {
            let ghost o = out@;
            out.push(trimmed[i].clone());
            assert(views(out@) =~= views(o).push(all[i as int]));
        }
        i = i + 1;
    }
    assert(all.take(trimmed.len() as int) == all);
    out
}

/// Parses measurement text in any of the supported formats and returns its
/// frequency and level columns.
pub fn parse_csv(csv: &str) -> (r: Result<ParsedCsv>)
    ensures
        agrees(r, parse_text(cleaned(csv@))),
{
    let cs = chars_of(csv);
    let raw_lines = lines_of(cs.as_slice());
    let kept = clean_lines(&raw_lines);
    let text = join_chars(&kept, '\n');
    let ls = lines_of(text.as_slice());
    let autoeq = if ls.len() > 0 {
        assert(views(ls@)[0] == ls@[0]@);
        search_chars(AUTOEQ_PATTERN, ls[0].as_slice())
    } else {
        Some(false)
    };
    match autoeq {
        None => Err(csv_error(PATTERN_ERROR)),
        Some(true) => parse_autoeq_lines(&ls),
        Some(false) => match search_chars(REW_PATTERN, text.as_slice()) {
            None => Err(csv_error(PATTERN_ERROR)),
            Some(true) => parse_rew_lines(&ls),
            Some(false) => match search_chars(CRINACLE_PATTERN, text.as_slice()) {
                None => Err(csv_error(PATTERN_ERROR)),
                Some(true) => parse_crinacle_lines(&ls),
                Some(false) => parse_generic_lines(&ls),
            },
        },
    }
}


/// A filter that every element passes keeps the sequence.
proof fn lemma_filter_keeps_all<A>(s: Seq<A>, p: spec_fn(A) -> bool)
    requires
        forall|i: int| 0 <= i < s.len() ==> p(#[trigger] s[i]),
    ensures
        s.filter(p) == s,
    decreases s.len(),
{
    reveal(Seq::filter);
    if s.len() > 0 {
        let front = s.drop_last();
        assert forall|i: int| 0 <= i < front.len() implies p(#[trigger] front[i]) by {
            assert(front[i] == s[i]);
        }
        lemma_filter_keeps_all(front, p);
        assert(p(s[s.len() - 1]));
        assert(front.push(s.last()) =~= s);
    }
}

/// A cleaned line: non-empty, trimmed, without line feed.
proof fn lemma_cleaned_line(csv: Seq<char>, i: int)
    requires
        0 <= i < trim_all(lines(csv)).filter(non_blank()).len(),
    ensures
        ({
            let l = trim_all(lines(csv)).filter(non_blank())[i];
            &&& l.len() > 0
            &&& l.last() != '\r'
            &&& trim(l) == l
            &&& forall|k: int| 0 <= k < l.len() ==> #[trigger] l[k] != '\n'
        }),
{
    let all = trim_all(lines(csv));
    let l = all.filter(non_blank())[i];
    all.lemma_filter_pred(non_blank(), i);
    assert(all.filter(non_blank()).contains(l));
    all.lemma_filter_contains_rev(non_blank(), l);
    let j = choose|j: int| 0 <= j < all.len() && all[j] == l;
    let x = lines(csv)[j];
    assert(l == trim(x));
    lemma_trim_ends(x);
    lemma_trim_idempotent(x);
    lemma_lines_pieces(csv);
    let (a, b) = choose|a: int, b: int| 0 <= a <= b <= x.len() && trim(x) == x.subrange(a, b);
    assert forall|k: int| 0 <= k < l.len() implies #[trigger] l[k] != '\n' by {
        assert(l[k] == x[a + k]);
        assert(lines(csv)[j][a + k] != '\n');
    }
    assert(is_ws('\r'));
}

/// Cleaning is idempotent: cleaned text is made of trimmed, non-empty lines,
/// so cleaning it again changes nothing, and text that is already clean parses
/// as the text it came from.
pub proof fn lemma_cleaning_idempotent(csv: Seq<char>)
    ensures
        cleaned(cleaned(csv)) == cleaned(csv),
        parse_text(cleaned(cleaned(csv))) == parse_text(cleaned(csv)),
{
    let l = trim_all(lines(csv)).filter(non_blank());
    assert forall|i: int| 0 <= i < l.len() implies #[trigger] l[i].len() > 0 && l[i].last() != '\r' by {
        lemma_cleaned_line(csv, i);
    }
    assert forall|i: int, k: int| 0 <= i < l.len() && 0 <= k < l[i].len() implies #[trigger] l[i][k] != '\n' by {
        lemma_cleaned_line(csv, i);
    }
    lemma_lines_join(l);
    assert forall|i: int| 0 <= i < l.len() implies #[trigger] trim(l[i]) == l[i] by {
        lemma_cleaned_line(csv, i);
    }
    assert(trim_all(l) =~= l);
    assert forall|i: int| 0 <= i < l.len() implies (non_blank())(#[trigger] l[i]) by {
        lemma_cleaned_line(csv, i);
    }
    lemma_filter_keeps_all(l, non_blank());
}

/// Both entries of every row are floating-point literals.
pub open spec fn rows_are_literals(rows: Seq<Row>) -> bool {
    forall|i: int| 0 <= i < rows.len() ==> is_float_literal(#[trigger] rows[i].0) && is_float_literal(rows[i].1)
}

/// Adding the outcome of `literal_pair` keeps the rows literal.
proof fn lemma_push_literal_pair(rows: Seq<Row>, x: Option<Row>, f: Seq<char>, r: Seq<char>)
    requires
        rows_are_literals(rows),
        x is None || x == literal_pair(f, r),
    ensures
        rows_are_literals(
            match x {
                Some(p) => rows.push(p),
                None => rows,
            },
        ),
{
    if let Some(p) = x {
        let n = rows.push(p);
        assert forall|i: int| 0 <= i < n.len() implies is_float_literal(#[trigger] n[i].0) && is_float_literal(n[i].1) by {
            if i < rows.len() {
                assert(n[i] == rows[i]);
            }
        }
    }
}

proof fn lemma_autoeq_rows_literal(ls: Seq<Seq<char>>, fc: int, rc: int)
    ensures
        rows_are_literals(autoeq_rows(ls, fc, rc)),
    decreases ls.len(),
{
    if ls.len() > 0 {
        lemma_autoeq_rows_literal(ls.drop_last(), fc, rc);
        let parts = split(ls.last(), ',');
        if parts.len() > if fc >= rc { fc } else { rc } {
            lemma_push_literal_pair(autoeq_rows(ls.drop_last(), fc, rc), autoeq_row(ls.last(), fc, rc), trim(parts[fc]), trim(parts[rc]));
        } else {
            lemma_push_literal_pair(autoeq_rows(ls.drop_last(), fc, rc), autoeq_row(ls.last(), fc, rc), Seq::empty(), Seq::empty());
        }
    }
}

proof fn lemma_rew_rows_literal(ls: Seq<Seq<char>>)
    ensures
        rows_are_literals(rew_rows(ls)),
    decreases ls.len(),
{
    if ls.len() > 0 {
        lemma_rew_rows_literal(ls.drop_last());
        let parts = split_ws(trim(ls.last()));
        if parts.len() >= 2 {
            lemma_push_literal_pair(rew_rows(ls.drop_last()), rew_row(ls.last()), parts[0], parts[1]);
        } else {
            lemma_push_literal_pair(rew_rows(ls.drop_last()), rew_row(ls.last()), Seq::empty(), Seq::empty());
        }
    }
}

proof fn lemma_crinacle_rows_literal(ls: Seq<Seq<char>>)
    ensures
        rows_are_literals(crinacle_rows(ls)),
    decreases ls.len(),
{
    if ls.len() > 0 {
        lemma_crinacle_rows_literal(ls.drop_last());
        let parts = split(ls.last(), '\t');
        if parts.len() >= 2 {
            lemma_push_literal_pair(crinacle_rows(ls.drop_last()), crinacle_row(ls.last()), trim(parts[0]), trim(parts[1]));
        } else {
            lemma_push_literal_pair(crinacle_rows(ls.drop_last()), crinacle_row(ls.last()), Seq::empty(), Seq::empty());
        }
    }
}

proof fn lemma_generic_rows_literal(ls: Seq<Seq<char>>, col_sep: char, dec_sep: char, fc: int, rc: int)
    ensures
        rows_are_literals(generic_rows(ls, col_sep, dec_sep, fc, rc)),
    decreases ls.len(),
{
    if ls.len() > 0 {
        lemma_generic_rows_literal(ls.drop_last(), col_sep, dec_sep, fc, rc);
        let rest = generic_rows(ls.drop_last(), col_sep, dec_sep, fc, rc);
        let x = generic_row(ls.last(), col_sep, dec_sep, fc, rc);
        let t = trim(ls.last());
        let parts = split(t, col_sep);
        if starts_with_digit(t) && parts.len() > if fc >= rc { fc } else { rc } {
            let f = if dec_sep == ',' { replace_char(parts[fc], ',', '.') } else { parts[fc] };
            let r = if dec_sep == ',' { replace_char(parts[rc], ',', '.') } else { parts[rc] };
            lemma_push_literal_pair(rest, x, trim(f), trim(r));
        } else {
            lemma_push_literal_pair(rest, x, Seq::empty(), Seq::empty());
        }
    }
}

/// Every row that a successful parse hands out is a pair of floating-point
/// literals: the frequency and level columns have one entry per row each, and
/// every entry reads as a number.
pub proof fn lemma_parse_yields_literals(text: Seq<char>)
    ensures
        parse_text(text) matches Ok(rows) ==> rows.len() > 0 && rows_are_literals(rows)
            && row_freqs(rows).len() == row_levels(rows).len(),
{
    let ls = lines(text);
    lemma_autoeq_rows_literal(ls.drop_first(), 0, 0);
    if ls.len() > 0 {
        match autoeq_columns(ls[0]) {
            Some((fc, rc)) => lemma_autoeq_rows_literal(ls.drop_first(), fc, rc),
            None => {},
        }
    }
    lemma_rew_rows_literal(ls);
    match first_index(ls, crinacle_header()) {
        Some(h) => lemma_crinacle_rows_literal(ls.skip(h + 1)),
        None => {},
    }
    match separators(ls) {
        Ok((cs, ds)) => {
            lemma_generic_rows_literal(ls, cs, ds, 0, 1);
            match columns(ls, cs) {
                Some(cols) => {
                    let (fc, rc) = chosen_columns(
                        header_hits(cols, FREQ_HEADER_PATTERN@),
                        header_hits(cols, RAW_HEADER_PATTERN@),
                    );
                    lemma_generic_rows_literal(ls, cs, ds, fc, rc);
                },
                None => {},
            }
        },
        Err(_) => {},
    }
}

// ---------------------------------------------------------------------------
// Writing
// ---------------------------------------------------------------------------

/// Cell `i` of a column, `NaN` past its end.
pub open spec fn csv_cell(column: Seq<Seq<char>>, i: int) -> Seq<char> {
    if i < column.len() {
        column[i]
    } else {
        seq!['N', 'a', 'N']
    }
}

/// Data line `i`: cell `i` of every column, separated by commas.
pub open spec fn csv_row(columns: Seq<Seq<Seq<char>>>, i: int) -> Seq<char> {
    join(Seq::new(columns.len(), |k: int| csv_cell(columns[k], i)), ',')
}

/// Length of the longest column.
pub open spec fn longest(columns: Seq<Seq<Seq<char>>>) -> nat
    decreases columns.len(),
{
    if columns.len() == 0 {
        0
    } else {
        let rest = longest(columns.drop_last());
        if columns.last().len() > rest {
            columns.last().len()
        } else {
            rest
        }
    }
}

/// CSV text: a header of the column names, then one line per row up to the
/// longest column; empty without columns.
pub open spec fn csv_text(names: Seq<Seq<char>>, columns: Seq<Seq<Seq<char>>>) -> Seq<char> {
    if names.len() == 0 {
        Seq::empty()
    } else {
        join(seq![join(names, ',')] + Seq::new(longest(columns), |i: int| csv_row(columns, i)), '\n')
    }
}

/// Characters of the cells of each column.
pub open spec fn columns_view(columns: Seq<Vec<String>>) -> Seq<Seq<Seq<char>>> {
    columns.map_values(|c: Vec<String>| strings_view(c@))
}

fn chars_of_strings(v: &Vec<String>) -> (out: Vec<Vec<char>>)
    ensures
        views(out@) == strings_view(v@),
{
    let mut out: Vec<Vec<char>> = Vec::new();
    let mut i: usize = 0;
    while i < v.len()
        invariant
            i <= v.len(),
            views(out@) == strings_view(v@).take(i as int),
        decreases v.len() - i,
    {
        let ghost o = out@;
        out.push(chars_of(v[i].as_str()));
        assert(views(out@) =~= views(o).push(v@[i as int]@));
        assert(strings_view(v@).take(i + 1) =~= strings_view(v@).take(i as int).push(v@[i as int]@));
        i = i + 1;
    }
    assert(strings_view(v@).take(v.len() as int) == strings_view(v@));
    out
}

fn longest_exec(columns: &Vec<Vec<String>>) -> (r: usize)
    ensures
        r == longest(columns_view(columns@)),
{
    let ghost cv = columns_view(columns@);
    let mut best: usize = 0;
    let mut k: usize = 0;
    while k < columns.len()
        invariant
            k <= columns.len(),
            cv == columns_view(columns@),
            best == longest(cv.take(k as int)),
        decreases columns.len() - k,
    {
        assert(cv.take(k + 1).drop_last() == cv.take(k as int));
        assert(cv[k as int].len() == columns@[k as int]@.len());
        if columns[k].len() > best {
            best = columns[k].len();
        }
        k = k + 1;
    }
    assert(cv.take(columns.len() as int) == cv);
    best
}

fn csv_row_exec(columns: &Vec<Vec<String>>, i: usize) -> (r: Vec<char>)
    ensures
        r@ == csv_row(columns_view(columns@), i as int),
{
    let ghost cv = columns_view(columns@);
    let ghost cells = Seq::new(cv.len(), |k: int| csv_cell(cv[k], i as int));
    let mut pieces: Vec<Vec<char>> = Vec::new();
    let mut k: usize = 0;
    while k < columns.len()
        invariant
            k <= columns.len(),
            cv == columns_view(columns@),
            cells == Seq::new(cv.len(), |k: int| csv_cell(cv[k], i as int)),
            views(pieces@) == cells.take(k as int),
        decreases columns.len() - k,
    {
        let ghost o = pieces@;
        if i < columns[k].len() {
            assert(cv[k as int][i as int] == columns@[k as int]@[i as int]@);
            pieces.push(chars_of(columns[k][i].as_str()));
        } else {
            pieces.push(vec!['N', 'a', 'N']);
        }
        assert(views(pieces@) =~= views(o).push(cells[k as int]));
        assert(cells.take(k + 1) =~= cells.take(k as int).push(cells[k as int]));
        k = k + 1;
    }
    assert(cells.take(columns.len() as int) == cells);
    join_chars(&pieces, ',')
}

/// Writes named columns of already formatted cells as CSV text, in the given
/// column order; shorter columns are padded with `NaN`.
pub fn create_csv(names: &Vec<String>, columns: &Vec<Vec<String>>) -> (r: String)
    requires
        names.len() == columns.len(),
    ensures
        r@ == csv_text(strings_view(names@), columns_view(columns@)),
{
    if names.len() == 0 {
        return String::new();
    }
    let ghost cv = columns_view(columns@);
    let n_rows = longest_exec(columns);
    let header_pieces = chars_of_strings(names);
    let mut out_lines: Vec<Vec<char>> = Vec::new();
    out_lines.push(join_chars(&header_pieces, ','));
    let ghost head = seq![join(strings_view(names@), ',')];
    let ghost body = Seq::new(n_rows as nat, |i: int| csv_row(cv, i));
    let mut i: usize = 0;
    while i < n_rows
        invariant
            i <= n_rows,
            cv == columns_view(columns@),
            body == Seq::new(n_rows as nat, |i: int| csv_row(cv, i)),
            views(out_lines@) == head + body.take(i as int),
        decreases n_rows - i,
    {
        let ghost o = out_lines@;
        out_lines.push(csv_row_exec(columns, i));
        assert(views(out_lines@) =~= views(o).push(body[i as int]));
        assert(body.take(i + 1) =~= body.take(i as int).push(body[i as int]));
        i = i + 1;
    }
    assert(body.take(n_rows as int) == body);
    let text = join_chars(&out_lines, '\n');
    string_from_chars(text.as_slice())
}



// ---------------------------------------------------------------------------
// How data lines are read
// ---------------------------------------------------------------------------

/// A Crinacle data line is read as its first two tab-separated fields, with
/// surrounding whitespace removed, whatever fields follow: the frequency and
/// the dB column, not any later one.
pub proof fn lemma_crinacle_row_reads_first_two_fields(fields: Seq<Seq<char>>)
    requires
        fields.len() >= 2,
        forall|i: int, k: int| 0 <= i < fields.len() && 0 <= k < fields[i].len() ==> #[trigger] fields[i][k] != '\t',
        is_float_literal(trim(fields[0])),
        is_float_literal(trim(fields[1])),
    ensures
        crinacle_row(join(fields, '\t')) == Some((trim(fields[0]), trim(fields[1]))),
{
    lemma_split_join(fields, '\t');
}

/// A Room EQ Wizard data line `f`, whitespace, `r` is read as `(f, r)`,
/// whichever whitespace (spaces, tabs, runs of them) separates the two.
pub proof fn lemma_rew_row_splits_at_any_whitespace(f: Seq<char>, w: Seq<char>, r: Seq<char>)
    requires
        is_float_literal(f),
        is_float_literal(r),
        f.len() > 0 && is_digit(f[0]),
        w.len() > 0,
        forall|k: int| 0 <= k < w.len() ==> is_ws(#[trigger] w[k]),
    ensures
        rew_row(f + w + r) == Some((f, r)),
{
    lemma_float_literal_plain(f);
    lemma_float_literal_plain(r);
    let line = f + w + r;
    assert(line =~= Seq::<char>::empty() + (f + w + r) + Seq::<char>::empty());
    assert(line[0] == f[0]);
    assert(line.last() == r[r.len() - 1]);
    lemma_trim_padded(Seq::empty(), line, Seq::empty());
    assert(trim(line) == line);
    assert(!line.contains('?')) by {
        if line.contains('?') {
            let k = choose|k: int| 0 <= k < line.len() && line[k] == '?';
            if k < f.len() {
                assert(line[k] == f[k]);
            } else if k < f.len() + w.len() {
                assert(line[k] == w[k - f.len()]);
            } else {
                assert(line[k] == r[k - f.len() - w.len()]);
            }
        }
    }
    lemma_split_ws_pair(f, w, r);
}

/// A generic CSV data line is split at the column separator and the chosen
/// columns are read, each with its surrounding whitespace removed: for a line
/// made of `fields` joined by `col_sep`, the row is the trimmed field `fc` and
/// the trimmed field `rc`.
pub proof fn lemma_generic_row_reads_chosen_fields(fields: Seq<Seq<char>>, col_sep: char, fc: int, rc: int)
    requires
        0 <= fc < fields.len(),
        0 <= rc < fields.len(),
        forall|i: int, k: int| 0 <= i < fields.len() && 0 <= k < fields[i].len() ==> #[trigger] fields[i][k] != col_sep,
        trim(join(fields, col_sep)) == join(fields, col_sep),
        starts_with_digit(join(fields, col_sep)),
        is_float_literal(trim(fields[fc])),
        is_float_literal(trim(fields[rc])),
    ensures
        generic_row(join(fields, col_sep), col_sep, '.', fc, rc) == Some((trim(fields[fc]), trim(fields[rc]))),
{
    lemma_split_join(fields, col_sep);
}

/// Spaces only.
pub open spec fn all_spaces(w: Seq<char>) -> bool {
    forall|k: int| 0 <= k < w.len() ==> #[trigger] w[k] == ' '
}

/// A generic CSV data line is read field by field with the whitespace around
/// each field removed: for literals `f` (starting with a digit) and `r`, the
/// line `f`, `col_sep`, `r` with any spaces around either field is read as
/// `(f, r)`.
pub proof fn lemma_generic_row_trims_fields(
    w1: Seq<char>,
    f: Seq<char>,
    w2: Seq<char>,
    col_sep: char,
    w3: Seq<char>,
    r: Seq<char>,
    w4: Seq<char>,
)
    requires
        col_sep == ',' || col_sep == ';' || col_sep == '\t',
        is_float_literal(f),
        is_float_literal(r),
        f.len() > 0 && is_digit(f[0]),
        all_spaces(w1),
        all_spaces(w2),
        all_spaces(w3),
        all_spaces(w4),
    ensures
        generic_row(w1 + f + w2 + seq![col_sep] + w3 + r + w4, col_sep, '.', 0, 1) == Some((f, r)),
{
    lemma_float_literal_plain(f);
    lemma_float_literal_plain(r);
    let a = f + w2;
    let b = w3 + r;
    let x = a.push(col_sep) + b;
    let line = w1 + f + w2 + seq![col_sep] + w3 + r + w4;
    assert(line =~= w1 + x + w4);
    assert(x[0] == f[0]);
    assert(x.last() == r[r.len() - 1]);
    assert forall|k: int| 0 <= k < w1.len() implies is_ws(#[trigger] w1[k]) by {}
    assert forall|k: int| 0 <= k < w4.len() implies is_ws(#[trigger] w4[k]) by {}
    lemma_trim_padded(w1, x, w4);
    assert forall|k: int| 0 <= k < a.len() implies #[trigger] a[k] != col_sep by {
        if k < f.len() {
            assert(a[k] == f[k]);
        } else {
            assert(a[k] == w2[k - f.len()]);
        }
    }
    assert forall|k: int| 0 <= k < b.len() implies #[trigger] b[k] != col_sep by {
        if k < w3.len() {
            assert(b[k] == w3[k]);
        } else {
            assert(b[k] == r[k - w3.len()]);
        }
    }
    let ps = seq![a, b];
    assert(ps.drop_last() =~= seq![a]);
    assert(join(seq![a], col_sep) == a);
    assert(join(ps, col_sep) == x);
    assert forall|i: int, k: int| 0 <= i < ps.len() && 0 <= k < ps[i].len() implies #[trigger] ps[i][k] != col_sep by {
        if i == 0 {
            assert(ps[i] == a);
        } else {
            assert(ps[i] == b);
        }
    }
    lemma_split_join(ps, col_sep);
    assert forall|k: int| 0 <= k < w2.len() implies is_ws(#[trigger] w2[k]) by {}
    assert forall|k: int| 0 <= k < w3.len() implies is_ws(#[trigger] w3[k]) by {}
    assert(f.last() == f[f.len() - 1]);
    lemma_trim_padded(Seq::empty(), f, w2);
    assert(Seq::<char>::empty() + f + w2 =~= a);
    lemma_trim_padded(w3, r, Seq::empty());
    assert(w3 + r + Seq::<char>::empty() =~= b);
}

// ---------------------------------------------------------------------------
// Reading back what was written
// ---------------------------------------------------------------------------

/// Codes that a lowercased floating-point literal is made of.
spec fn literal_code(u: u32) -> bool {
    ||| u == 43 || u == 45 || u == 46 || u == 101
    ||| code_is_digit(u)
    ||| u == 105 || u == 110 || u == 102 || u == 116 || u == 121 || u == 97
}

/// The exponent, if any, starts inside the text (searching from `e` on).
proof fn lemma_exponent_start_bounds(t: Seq<u32>, e: int)
    requires
        0 <= e <= t.len(),
        forall|k: int| 0 <= k < e ==> t[k] != 101,
    ensures
        0 <= exponent_start(t) <= t.len(),
        exponent_start(t) < t.len() ==> t[exponent_start(t)] == 101,
    decreases t.len() - e,
{
    if e == t.len() || t[e] == 101 {
        lemma_exponent_start(t, e);
    } else {
        lemma_exponent_start_bounds(t, e + 1);
    }
}

proof fn lemma_mantissa_codes(m: Seq<u32>)
    requires
        is_mantissa(m),
    ensures
        m.len() > 0,
        forall|k: int| 0 <= k < m.len() ==> literal_code(#[trigger] m[k]),
{
    assert forall|k: int| 0 <= k < m.len() implies literal_code(#[trigger] m[k]) by {
        assert(code_is_digit(m[k]) || m[k] == 46);
    }
}

proof fn lemma_exponent_codes(x: Seq<u32>)
    requires
        is_exponent(x),
    ensures
        forall|k: int| 0 <= k < x.len() ==> literal_code(#[trigger] x[k]),
{
    if x.len() > 0 {
        let rest = x.drop_first();
        let d = exponent_digits(rest);
        let signed = rest.len() > 0 && (rest[0] == 43 || rest[0] == 45);
        assert forall|k: int| 0 <= k < x.len() implies literal_code(#[trigger] x[k]) by {
            if k > 0 {
                assert(rest[k - 1] == x[k]);
                if signed {
                    if k > 1 {
                        assert(d[k - 2] == x[k]);
                        assert(code_is_digit(d[k - 2]));
                    }
                } else {
                    assert(d[k - 1] == x[k]);
                    assert(code_is_digit(d[k - 1]));
                }
            }
        }
    }
}

/// Every code of a literal's lowercased body is a literal code.
proof fn lemma_literal_codes(t: Seq<u32>)
    requires
        ({
            ||| t == seq![105u32, 110, 102]
            ||| t == seq![105u32, 110, 102, 105, 110, 105, 116, 121]
            ||| t == seq![110u32, 97, 110]
            ||| is_mantissa(t.take(exponent_start(t))) && is_exponent(t.skip(exponent_start(t)))
        }),
    ensures
        t.len() > 0,
        forall|k: int| 0 <= k < t.len() ==> literal_code(#[trigger] t[k]),
{
    if t == seq![105u32, 110, 102] || t == seq![105u32, 110, 102, 105, 110, 105, 116, 121] || t == seq![
        110u32,
        97,
        110,
    ] {
    } else {
        let e = exponent_start(t);
        lemma_exponent_start_bounds(t, 0);
        let m = t.take(e);
        let x = t.skip(e);
        lemma_mantissa_codes(m);
        lemma_exponent_codes(x);
        assert forall|k: int| 0 <= k < t.len() implies literal_code(#[trigger] t[k]) by {
            if k < e {
                assert(m[k] == t[k]);
            } else {
                assert(x[k - e] == t[k]);
            }
        }
    }
}

/// A floating-point literal is not empty and holds neither whitespace nor a
/// comma.
proof fn lemma_float_literal_plain(s: Seq<char>)
    requires
        is_float_literal(s),
    ensures
        s.len() > 0,
        forall|k: int| 0 <= k < s.len() ==> !is_ws(#[trigger] s[k]) && s[k] != ',',
        forall|k: int| 0 <= k < s.len() ==> #[trigger] s[k] != ';' && s[k] != '?' && s[k] != '*',
{
    reveal(is_float_literal);
    let signed = s.len() > 0 && (s[0] == '+' || s[0] == '-');
    let body = if signed { s.drop_first() } else { s };
    let t = body.map_values(|c: char| ascii_lower_code(c));
    lemma_literal_codes(t);
    assert forall|k: int| 0 <= k < s.len() implies !is_ws(#[trigger] s[k]) && s[k] != ',' && s[k] != ';' && s[k]
        != '?' && s[k] != '*' by {
        if signed && k == 0 {
        } else {
            let j = if signed { k - 1 } else { k };
            assert(body[j] == s[k]);
            assert(t[j] == ascii_lower_code(s[k]));
            assert(literal_code(t[j]));
        }
    }
}

/// The pair `a,b` joins and splits back into `a` and `b`.
proof fn lemma_split_pair(a: Seq<char>, b: Seq<char>)
    requires
        forall|k: int| 0 <= k < a.len() ==> #[trigger] a[k] != ',',
        forall|k: int| 0 <= k < b.len() ==> #[trigger] b[k] != ',',
    ensures
        join(seq![a, b], ',') == a.push(',') + b,
        split(a.push(',') + b, ',') == seq![a, b],
{
    let ls = seq![a, b];
    assert(ls.drop_last() =~= seq![a]);
    assert(join(seq![a], ',') == a);
    assert(ls.last() == b);
    assert(join(ls, ',') == join(ls.drop_last(), ',').push(',') + ls.last());
    assert forall|i: int, k: int| 0 <= i < ls.len() && 0 <= k < ls[i].len() implies #[trigger] ls[i][k] != ',' by {
        if i == 0 {
            assert(ls[i] == a);
        } else {
            assert(ls[i] == b);
        }
    }
    crate::text::lemma_split_join(ls, ',');
}

/// The text `a,b`, for non-empty `a` and `b` without whitespace or commas: a
/// trimmed line without line feed that splits back into `a` and `b`.
proof fn lemma_plain_pair_line(a: Seq<char>, b: Seq<char>)
    requires
        a.len() > 0,
        b.len() > 0,
        forall|k: int| 0 <= k < a.len() ==> !is_ws(#[trigger] a[k]) && a[k] != ',',
        forall|k: int| 0 <= k < b.len() ==> !is_ws(#[trigger] b[k]) && b[k] != ',',
    ensures
        ({
            let line = a.push(',') + b;
            &&& join(seq![a, b], ',') == line
            &&& split(line, ',') == seq![a, b]
            &&& line.len() > 0
            &&& line.last() != '\r'
            &&& trim(line) == line
            &&& forall|k: int| 0 <= k < line.len() ==> #[trigger] line[k] != '\n'
        }),
{
    lemma_split_pair(a, b);
    let line = a.push(',') + b;
    assert(line[0] == a[0]);
    assert(line.last() == b[b.len() - 1]);
    assert(is_ws('\r') && is_ws('\n'));
    crate::text::lemma_trim_of_plain(line);
    assert forall|k: int| 0 <= k < line.len() implies #[trigger] line[k] != '\n' by {
        if k < a.len() {
            assert(line[k] == a[k]);
        } else if k > a.len() {
            assert(line[k] == b[k - a.len() - 1]);
        }
    }
}

/// Data line `i` of a written two-column table.
proof fn lemma_written_line(freq: Seq<Seq<char>>, raw: Seq<Seq<char>>, i: int)
    requires
        freq.len() == raw.len(),
        0 <= i < freq.len(),
        is_float_literal(freq[i]),
        is_float_literal(raw[i]),
    ensures
        ({
            let line = csv_row(seq![freq, raw], i);
            &&& line.len() > 0
            &&& line.last() != '\r'
            &&& trim(line) == line
            &&& forall|k: int| 0 <= k < line.len() ==> #[trigger] line[k] != '\n'
            &&& autoeq_row(line, 0, 1) == Some((freq[i], raw[i]))
        }),
{
    let cols = seq![freq, raw];
    let f = freq[i];
    let r = raw[i];
    lemma_float_literal_plain(f);
    lemma_float_literal_plain(r);
    assert(Seq::new(cols.len(), |k: int| csv_cell(cols[k], i)) =~= seq![f, r]);
    lemma_plain_pair_line(f, r);
    crate::text::lemma_trim_of_plain(f);
    crate::text::lemma_trim_of_plain(r);
}

/// The rows of the first `m` written data lines.
proof fn lemma_written_rows(freq: Seq<Seq<char>>, raw: Seq<Seq<char>>, m: int)
    requires
        freq.len() == raw.len(),
        0 <= m <= freq.len(),
        forall|i: int| 0 <= i < freq.len() ==> is_float_literal(#[trigger] freq[i]) && is_float_literal(raw[i]),
    ensures
        autoeq_rows(Seq::new(m as nat, |i: int| csv_row(seq![freq, raw], i)), 0, 1) == Seq::new(
            m as nat,
            |i: int| (freq[i], raw[i]),
        ),
    decreases m,
{
    let cols = seq![freq, raw];
    let ls = Seq::new(m as nat, |i: int| csv_row(cols, i));
    if m > 0 {
        lemma_written_rows(freq, raw, m - 1);
        assert(ls.drop_last() =~= Seq::new((m - 1) as nat, |i: int| csv_row(cols, i)));
        lemma_written_line(freq, raw, m - 1);
        assert(Seq::new((m - 1) as nat, |i: int| (freq[i], raw[i])).push((freq[m - 1], raw[m - 1])) =~= Seq::new(
            m as nat,
            |i: int| (freq[i], raw[i]),
        ));
    } else {
        assert(ls =~= Seq::<Seq<char>>::empty());
        assert(Seq::new(m as nat, |i: int| (freq[i], raw[i])) =~= Seq::<Row>::empty());
    }
}

/// The header `frequency,raw`: a plain line naming its columns in order.
proof fn lemma_written_header()
    ensures
        ({
            let header = join(seq![word_frequency(), word_raw()], ',');
            &&& header.len() > 0
            &&& header.last() != '\r'
            &&& trim(header) == header
            &&& forall|k: int| 0 <= k < header.len() ==> #[trigger] header[k] != '\n'
            &&& autoeq_columns(header) == Some((0int, 1int))
        }),
{
    let a = word_frequency();
    let b = word_raw();
    assert forall|k: int| 0 <= k < a.len() implies !is_ws(#[trigger] a[k]) && a[k] != ',' by {}
    assert forall|k: int| 0 <= k < b.len() implies !is_ws(#[trigger] b[k]) && b[k] != ',' by {}
    lemma_plain_pair_line(a, b);
    let cols = seq![a, b];
    crate::text::lemma_trim_of_plain(a);
    crate::text::lemma_trim_of_plain(b);
    assert(trim_all(cols) =~= cols);
    reveal(autoeq_columns);
    assert(named(word_frequency())(cols[0]));
    lemma_first_index_at(cols, named(word_frequency()), 0);
    assert(!named(word_raw())(cols[0]));
    assert(named(word_raw())(cols[1]));
    lemma_first_index_at(cols, named(word_raw()), 1);
}

/// Data line `j` of a written two-column table of literals.
proof fn lemma_written_body_line(freq: Seq<Seq<char>>, raw: Seq<Seq<char>>, j: int)
    requires
        freq.len() == raw.len(),
        0 <= j < freq.len(),
        forall|i: int| 0 <= i < freq.len() ==> is_float_literal(#[trigger] freq[i]) && is_float_literal(raw[i]),
    ensures
        ({
            let line = csv_row(seq![freq, raw], j);
            &&& line.len() > 0
            &&& line.last() != '\r'
            &&& trim(line) == line
            &&& forall|k: int| 0 <= k < line.len() ==> #[trigger] line[k] != '\n'
        }),
{
    assert(is_float_literal(freq[j]));
    lemma_written_line(freq, raw, j);
}

/// The lines of a written two-column table, all plain.
#[verifier::spinoff_prover]
proof fn lemma_written_lines(freq: Seq<Seq<char>>, raw: Seq<Seq<char>>)
    requires
        freq.len() == raw.len(),
        forall|i: int| 0 <= i < freq.len() ==> is_float_literal(#[trigger] freq[i]) && is_float_literal(raw[i]),
    ensures
        ({
            let ls = seq![join(seq![word_frequency(), word_raw()], ',')] + Seq::new(
                freq.len(),
                |i: int| csv_row(seq![freq, raw], i),
            );
            &&& forall|i: int| 0 <= i < ls.len() ==> #[trigger] ls[i].len() > 0 && ls[i].last() != '\r'
            &&& forall|i: int| 0 <= i < ls.len() ==> #[trigger] trim(ls[i]) == ls[i]
            &&& forall|i: int, k: int| 0 <= i < ls.len() && 0 <= k < ls[i].len() ==> #[trigger] ls[i][k] != '\n'
        }),
{
    let header = join(seq![word_frequency(), word_raw()], ',');
    let body = Seq::new(freq.len(), |i: int| csv_row(seq![freq, raw], i));
    let ls = seq![header] + body;
    lemma_written_header();
    assert forall|i: int| 0 <= i < ls.len() implies #[trigger] ls[i].len() > 0 && ls[i].last() != '\r' && trim(ls[i])
        == ls[i] && forall|k: int| 0 <= k < ls[i].len() ==> #[trigger] ls[i][k] != '\n' by {
        if i == 0 {
            assert(ls[0] == header);
        } else {
            assert(ls[i] == body[i - 1]);
            lemma_written_body_line(freq, raw, i - 1);
        }
    }
}

/// The lines of a written two-column table: the header, then one line per
/// row; cleaning leaves the text as it is.
proof fn lemma_written_text(freq: Seq<Seq<char>>, raw: Seq<Seq<char>>)
    requires
        freq.len() == raw.len(),
        freq.len() > 0,
        forall|i: int| 0 <= i < freq.len() ==> is_float_literal(#[trigger] freq[i]) && is_float_literal(raw[i]),
    ensures
        ({
            let text = csv_text(seq![word_frequency(), word_raw()], seq![freq, raw]);
            let ls = seq![join(seq![word_frequency(), word_raw()], ',')] + Seq::new(
                freq.len(),
                |i: int| csv_row(seq![freq, raw], i),
            );
            &&& cleaned(text) == text
            &&& lines(text) == ls
        }),
{
    let cols = seq![freq, raw];
    let n = freq.len();
    assert(longest(Seq::<Seq<Seq<char>>>::empty()) == 0);
    assert(seq![freq].drop_last() =~= Seq::<Seq<Seq<char>>>::empty());
    assert(longest(seq![freq]) == n);
    assert(cols.drop_last() =~= seq![freq]);
    assert(longest(cols) == n);
    let ls = seq![join(seq![word_frequency(), word_raw()], ',')] + Seq::new(n, |i: int| csv_row(cols, i));
    let text = csv_text(seq![word_frequency(), word_raw()], cols);
    assert(text == join(ls, '\n'));
    lemma_written_lines(freq, raw);
    lemma_lines_join(ls);
    assert(trim_all(ls) =~= ls);
    lemma_filter_keeps_all(ls, non_blank());
}

/// What `create_csv` writes, `parse_csv` reads back: a `frequency` and a `raw`
/// column of floating-point literals, equally long and not empty, come back as
/// the rows they were written as. The text is recognised as AutoEq's format
/// through the regex crate, so this holds where the AutoEq header pattern
/// compiles and matches the header `frequency,raw`.
pub proof fn lemma_written_table_reads_back(freq: Seq<Seq<char>>, raw: Seq<Seq<char>>)
    requires
        freq.len() == raw.len(),
        freq.len() > 0,
        forall|i: int| 0 <= i < freq.len() ==> is_float_literal(#[trigger] freq[i]) && is_float_literal(raw[i]),
        regex_outcome(AUTOEQ_PATTERN@, join(seq![word_frequency(), word_raw()], ',')) == Some(true),
    ensures
        parse_text(cleaned(csv_text(seq![word_frequency(), word_raw()], seq![freq, raw]))) == Ok::<
            Seq<Row>,
            Seq<char>,
        >(Seq::new(freq.len(), |i: int| (freq[i], raw[i]))),
{
    let header = join(seq![word_frequency(), word_raw()], ',');
    let body = Seq::new(freq.len(), |i: int| csv_row(seq![freq, raw], i));
    let ls = seq![header] + body;
    lemma_written_text(freq, raw);
    lemma_written_header();
    assert(ls[0] == header);
    assert(ls.drop_first() =~= body);
    lemma_written_rows(freq, raw, freq.len() as int);
}

} // verus!
